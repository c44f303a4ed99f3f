//! Text renderings of a board for terminals that understand ANSI colours:
//! the plain one, and a detailed one with coordinates.
use vstd::prelude::*;
use super::{Cell, Visibility};
use super::grid::Board;
use crate::solver::{Constraint, bit, test_bit};

verus! {

/// The decimal digit `d`.
pub open spec fn digit_text(d: int) -> Seq<char> {
    if d == 0 {
        "0"@
    } else if d == 1 {
        "1"@
    } else if d == 2 {
        "2"@
    } else if d == 3 {
        "3"@
    } else if d == 4 {
        "4"@
    } else if d == 5 {
        "5"@
    } else if d == 6 {
        "6"@
    } else if d == 7 {
        "7"@
    } else if d == 8 {
        "8"@
    } else {
        "9"@
    }
}

/// The lower-case hexadecimal digit `d`.
pub open spec fn hex_digit_text(d: int) -> Seq<char> {
    if d < 10 {
        digit_text(d)
    } else if d == 10 {
        "a"@
    } else if d == 11 {
        "b"@
    } else if d == 12 {
        "c"@
    } else if d == 13 {
        "d"@
    } else if d == 14 {
        "e"@
    } else {
        "f"@
    }
}

/// `n` in decimal.
pub open spec fn decimal(n: nat) -> Seq<char>
    decreases n,
{
    if n < 10 {
        digit_text(n as int)
    } else {
        decimal(n / 10) + digit_text((n % 10) as int)
    }
}

/// `n` in lower-case hexadecimal.
pub open spec fn hex(n: nat) -> Seq<char>
    decreases n,
{
    if n < 16 {
        hex_digit_text(n as int)
    } else {
        hex(n / 16) + hex_digit_text((n % 16) as int)
    }
}

/// `n` in hexadecimal, right-aligned to three places.
pub open spec fn hex3(n: nat) -> Seq<char> {
    if n < 16 {
        "  "@ + hex(n)
    } else if n < 256 {
        " "@ + hex(n)
    } else {
        hex(n)
    }
}

/// A cell in the plain rendering: its background colour, then `M` in red
/// for a mine or its hint in black, then the colour reset.
pub open spec fn cell_text(c: Cell) -> Seq<char> {
    (match c.visibility {
        Visibility::Hidden => "\x1b[47m"@,
        Visibility::Revealed => "\x1b[49m"@,
        Visibility::Flagged => "\x1b[41m"@,
    }) + (if c.is_mine {
        "\x1b[31mM"@
    } else {
        "\x1b[30m"@ + decimal(c.adjacent_mines as nat)
    }) + "\x1b[0m"@
}

/// Both renderings draw every cell first on the background colour of its
/// visibility: white (`ESC[47m`) when hidden, the terminal's default
/// (`ESC[49m`) when open, red (`ESC[41m`) when flagged; so hidden, open and
/// flagged cells never look alike.
pub proof fn lemma_cell_background(c: Cell)
    ensures
        cell_text(c).len() > 5,
        debug_cell_text(c).len() > 5,
        c.visibility == Visibility::Hidden ==> cell_text(c).subrange(0, 5) == seq!['\x1b', '[', '4', '7', 'm']
            && debug_cell_text(c).subrange(0, 5) == seq!['\x1b', '[', '4', '7', 'm'],
        c.visibility == Visibility::Revealed ==> cell_text(c).subrange(0, 5) == seq!['\x1b', '[', '4', '9', 'm']
            && debug_cell_text(c).subrange(0, 5) == seq!['\x1b', '[', '4', '9', 'm'],
        c.visibility == Visibility::Flagged ==> cell_text(c).subrange(0, 5) == seq!['\x1b', '[', '4', '1', 'm']
            && debug_cell_text(c).subrange(0, 5) == seq!['\x1b', '[', '4', '1', 'm'],
{
    reveal_strlit("\x1b[47m");
    reveal_strlit("\x1b[49m");
    reveal_strlit("\x1b[41m");
    reveal_strlit("\x1b[47mH");
    reveal_strlit("\x1b[49mR");
    reveal_strlit("\x1b[41mF");
    reveal_strlit("\x1b[31mM");
    reveal_strlit("\x1b[30m");
    reveal_strlit("\x1b[0m");
    reveal_strlit("\x1b[30mO");
    reveal_strlit("\x1b[0m ");
    let bg = match c.visibility {
        Visibility::Hidden => { "\x1b[47m"@ },
        Visibility::Revealed => { "\x1b[49m"@ },
        Visibility::Flagged => { "\x1b[41m"@ },
    };
    let dbg = match c.visibility {
        Visibility::Hidden => "\x1b[47mH"@,
        Visibility::Revealed => "\x1b[49mR"@,
        Visibility::Flagged => "\x1b[41mF"@,
    };
    let body = if c.is_mine {
        "\x1b[31mM"@
    } else {
        "\x1b[30m"@ + decimal(c.adjacent_mines as nat)
    };
    let dbody = (if c.is_mine {
        "\x1b[31mM"@
    } else {
        "\x1b[30mO"@
    }) + decimal(c.adjacent_mines as nat) + "\x1b[0m "@;
    assert(cell_text(c) == bg + body + "\x1b[0m"@);
    assert((bg + body + "\x1b[0m"@).subrange(0, 5) =~= bg);
    assert(debug_cell_text(c) == dbg + dbody);
    assert((dbg + dbody).subrange(0, 5) =~= dbg.subrange(0, 5));
    match c.visibility {
        Visibility::Hidden => {
            assert(bg =~= seq!['\x1b', '[', '4', '7', 'm']);
            assert(dbg.subrange(0, 5) =~= seq!['\x1b', '[', '4', '7', 'm']);
        },
        Visibility::Revealed => {
            assert(bg =~= seq!['\x1b', '[', '4', '9', 'm']);
            assert(dbg.subrange(0, 5) =~= seq!['\x1b', '[', '4', '9', 'm']);
        },
        Visibility::Flagged => {
            assert(bg =~= seq!['\x1b', '[', '4', '1', 'm']);
            assert(dbg.subrange(0, 5) =~= seq!['\x1b', '[', '4', '1', 'm']);
        },
    }
}

/// A cell in the detailed rendering: `H`, `R` or `F` on its background
/// colour, `M` for a mine or `O` otherwise, its hint, the colour reset and a
/// space.
pub open spec fn debug_cell_text(c: Cell) -> Seq<char> {
    (match c.visibility {
        Visibility::Hidden => "\x1b[47mH"@,
        Visibility::Revealed => "\x1b[49mR"@,
        Visibility::Flagged => "\x1b[41mF"@,
    }) + (if c.is_mine {
        "\x1b[31mM"@
    } else {
        "\x1b[30mO"@
    }) + decimal(c.adjacent_mines as nat) + "\x1b[0m "@
}

/// The cells of `s` in the plain rendering, one after the other.
pub open spec fn row_text(s: Seq<Cell>) -> Seq<char>
    decreases s.len(),
{
    if s.len() == 0 {
        Seq::empty()
    } else {
        row_text(s.drop_last()) + cell_text(s.last())
    }
}

/// The cells of `s` in the detailed rendering, one after the other.
pub open spec fn debug_row_text(s: Seq<Cell>) -> Seq<char>
    decreases s.len(),
{
    if s.len() == 0 {
        Seq::empty()
    } else {
        debug_row_text(s.drop_last()) + debug_cell_text(s.last())
    }
}

/// The row `r` of a `w`-wide board.
pub open spec fn row_of(s: Seq<Cell>, w: int, r: int) -> Seq<Cell> {
    s.subrange(r * w, r * w + w)
}

/// The first `n` rows in the plain rendering: each after a tab, on a line
/// of its own.
pub open spec fn rows_text(s: Seq<Cell>, w: int, n: nat) -> Seq<char>
    decreases n,
{
    if n == 0 {
        Seq::empty()
    } else {
        rows_text(s, w, (n - 1) as nat) + "\t"@ + row_text(row_of(s, w, n - 1)) + "\n"@
    }
}

/// The first `n` rows in the detailed rendering: each after its number, on a
/// line of its own.
pub open spec fn debug_rows_text(s: Seq<Cell>, w: int, n: nat) -> Seq<char>
    decreases n,
{
    if n == 0 {
        Seq::empty()
    } else {
        debug_rows_text(s, w, (n - 1) as nat) + hex3((n - 1) as nat) + " "@ + debug_row_text(row_of(s, w, n - 1))
            + "\n"@
    }
}

/// The numbers of the first `n` columns.
pub open spec fn header_text(n: nat) -> Seq<char>
    decreases n,
{
    if n == 0 {
        Seq::empty()
    } else {
        header_text((n - 1) as nat) + hex3((n - 1) as nat) + " "@
    }
}

/// The plain rendering of board `b`.
pub open spec fn board_text(b: &Board) -> Seq<char> {
    "[\n"@ + rows_text(b.cells(), b.w(), b.h() as nat) + "]\n"@
}

/// The detailed rendering of board `b`.
pub open spec fn board_debug_text(b: &Board) -> Seq<char> {
    "(123; 1: Visibility, 2: Mine, 3: Adjacent) [\n"@ + "    "@ + header_text(b.w() as nat) + "\n"@ + debug_rows_text(
        b.cells(),
        b.w(),
        b.h() as nat,
    ) + "]\n"@
}

/// The first `n` bits of the 3 by 3 mask `m`, bit 0 first, as `1` for set
/// and `0` for clear.
pub open spec fn mask_text(m: u16, n: int) -> Seq<char>
    decreases n,
{
    if n <= 0 {
        Seq::empty()
    } else {
        mask_text(m, n - 1) + if bit(m, n - 1) {
            "1"@
        } else {
            "0"@
        }
    }
}

/// The rendering of constraint `c`: its corner, its nine mask bits from the
/// top-left one, and its mines.
pub open spec fn constraint_text(c: Constraint) -> Seq<char> {
    "Constraint { coords: ("@ + decimal(c.x as nat) + ", "@ + decimal(c.y as nat) + "), mask: "@ + mask_text(c.mask, 9)
        + ", hidden mines: "@ + decimal(c.mines as nat) + " }"@
}

fn digit_str(d: u8) -> (r: &'static str)
    requires
        d < 16,
    ensures
        r@ == hex_digit_text(d as int),
{
    match d {
        0 => "0",
        1 => "1",
        2 => "2",
        3 => "3",
        4 => "4",
        5 => "5",
        6 => "6",
        7 => "7",
        8 => "8",
        9 => "9",
        10 => "a",
        11 => "b",
        12 => "c",
        13 => "d",
        14 => "e",
        _ => "f",
    }
}

/// Appends `n` in decimal.
fn push_decimal(out: &mut String, n: u8)
    ensures
        final(out)@ == old(out)@ + decimal(n as nat),
{
    if n >= 100 {
        out.append(digit_str(n / 100));
        out.append(digit_str(n / 10 % 10));
        out.append(digit_str(n % 10));
        proof {
            assert(n / 10 / 10 == n / 100);
            reveal_with_fuel(decimal, 3);
        }
    } else if n >= 10 {
        out.append(digit_str(n / 10));
        out.append(digit_str(n % 10));
        proof {
            reveal_with_fuel(decimal, 2);
        }
    } else {
        out.append(digit_str(n));
    }
}

/// Appends `n` in decimal.
fn push_decimal_usize(out: &mut String, n: usize)
    ensures
        final(out)@ == old(out)@ + decimal(n as nat),
    decreases n,
{
    if n >= 10 {
        push_decimal_usize(out, n / 10);
    }
    out.append(digit_str((n % 10) as u8));
}

/// Appends `n` in hexadecimal.
fn push_hex(out: &mut String, n: usize)
    ensures
        final(out)@ == old(out)@ + hex(n as nat),
    decreases n,
{
    if n >= 16 {
        push_hex(out, n / 16);
    }
    out.append(digit_str((n % 16) as u8));
}

/// Appends `n` in hexadecimal, right-aligned to three places.
fn push_hex3(out: &mut String, n: usize)
    ensures
        final(out)@ == old(out)@ + hex3(n as nat),
{
    if n < 16 {
        out.append("  ");
    } else if n < 256 {
        out.append(" ");
    }
    push_hex(out, n);
}

/// Appends cell `cell` as the plain rendering shows it.
fn push_cell(out: &mut String, cell: Cell)
    ensures
        final(out)@ == old(out)@ + cell_text(cell),
{
    let ghost start = out@;
    if cell.visibility == Visibility::Hidden {
        out.append("\x1b[47m");
    } else if cell.visibility == Visibility::Revealed {
        out.append("\x1b[49m");
    } else {
        out.append("\x1b[41m");
    }
    let ghost coloured = out@;
    if cell.is_mine {
        out.append("\x1b[31mM");
    } else {
        out.append("\x1b[30m");
        push_decimal(out, cell.adjacent_mines);
        assert(out@ =~= coloured + ("\x1b[30m"@ + decimal(cell.adjacent_mines as nat)));
    }
    out.append("\x1b[0m");
    assert(out@ =~= start + cell_text(cell));
}

/// Appends cell `cell` as the detailed rendering shows it.
fn push_debug_cell(out: &mut String, cell: Cell)
    ensures
        final(out)@ == old(out)@ + debug_cell_text(cell),
{
    let ghost start = out@;
    if cell.visibility == Visibility::Hidden {
        out.append("\x1b[47mH");
    } else if cell.visibility == Visibility::Revealed {
        out.append("\x1b[49mR");
    } else {
        out.append("\x1b[41mF");
    }
    if cell.is_mine {
        out.append("\x1b[31mM");
    } else {
        out.append("\x1b[30mO");
    }
    push_decimal(out, cell.adjacent_mines);
    out.append("\x1b[0m ");
    assert(out@ =~= start + debug_cell_text(cell));
}

proof fn lemma_row_split(s: Seq<Cell>, w: int, h: int, r: int)
    requires
        0 <= r < h,
        0 < w,
        s.len() == w * h,
    ensures
        0 <= r * w,
        r * w + w <= s.len(),
{
    assert(0 <= r * w) by (nonlinear_arith)
        requires
            0 <= r,
            0 < w,
    ;
    assert(r * w + w <= w * h) by (nonlinear_arith)
        requires
            r < h,
            0 < w,
    ;
}

impl Board {
    /// The plain rendering of the board: each row on a line of its own after
    /// a tab, each cell shown by its colour and its hint or `M` for a mine.
    pub fn to_string(&self) -> (r: String)
        requires
            self.wf(),
            self.grid.width > 0,
        ensures
            r@ == board_text(self),
    {
        let w = self.grid.width;
        let h = self.grid.height;
        let ghost s = self.cells();
        let mut out = String::from_str("[\n");
        let mut r: usize = 0;
        while r < h
            invariant
                self.wf(),
                w == self.grid.width,
                h == self.grid.height,
                w > 0,
                s == self.cells(),
                r <= h,
                out@ == "[\n"@ + rows_text(s, w as int, r as nat),
            decreases h - r,
        {
            proof {
                lemma_row_split(s, w as int, h as int, r as int);
            }
            let ghost before = out@;
            out.append("\t");
            let base = r * w;
            let mut c: usize = 0;
            while c < w
                invariant
                    self.wf(),
                    w == self.grid.width,
                    h == self.grid.height,
                    s == self.cells(),
                    r < h,
                    base == r * w,
                    base + w <= s.len(),
                    c <= w,
                    out@ == before + "\t"@ + row_text(s.subrange(base as int, base + c)),
                decreases w - c,
            {
                let cell = self.grid.data[base + c];
                let ghost sub0 = s.subrange(base as int, base + c);
                push_cell(&mut out, cell);
                proof {
                    let sub1 = s.subrange(base as int, base + c + 1);
                    assert(sub1.drop_last() =~= sub0);
                    assert(sub1.last() == cell);
                    assert(out@ =~= before + "\t"@ + row_text(sub1));
                }
                c = c + 1;
            }
            out.append("\n");
            proof {
                assert(rows_text(s, w as int, (r + 1) as nat) == rows_text(s, w as int, r as nat) + "\t"@ + row_text(
                    row_of(s, w as int, r as int),
                ) + "\n"@);
                assert(out@ =~= "[\n"@ + rows_text(s, w as int, (r + 1) as nat));
            }
            r = r + 1;
        }
        out.append("]\n");
        out
    }

    /// The detailed rendering of the board: a header of column numbers, then
    /// each row after its number, each cell shown as `H`, `R` or `F` on its
    /// colour, `M` or `O` for a mine or not, and its hint.
    pub fn debug_string(&self) -> (r: String)
        requires
            self.wf(),
            self.grid.width > 0,
        ensures
            r@ == board_debug_text(self),
    {
        let w = self.grid.width;
        let h = self.grid.height;
        let ghost s = self.cells();
        let mut out = String::from_str("(123; 1: Visibility, 2: Mine, 3: Adjacent) [\n");
        out.append("    ");
        let mut i: usize = 0;
        while i < w
            invariant
                i <= w,
                out@ == "(123; 1: Visibility, 2: Mine, 3: Adjacent) [\n"@ + "    "@ + header_text(i as nat),
            decreases w - i,
        {
            push_hex3(&mut out, i);
            out.append(" ");
            proof {
                assert(out@ =~= "(123; 1: Visibility, 2: Mine, 3: Adjacent) [\n"@ + "    "@ + header_text((i + 1) as nat));
            }
            i = i + 1;
        }
        out.append("\n");
        let ghost head = out@;
        let mut r: usize = 0;
        while r < h
            invariant
                self.wf(),
                w == self.grid.width,
                h == self.grid.height,
                w > 0,
                s == self.cells(),
                r <= h,
                out@ == head + debug_rows_text(s, w as int, r as nat),
            decreases h - r,
        {
            proof {
                lemma_row_split(s, w as int, h as int, r as int);
            }
            let ghost before = out@;
            push_hex3(&mut out, r);
            out.append(" ");
            let ghost lead = out@;
            let base = r * w;
            let mut c: usize = 0;
            while c < w
                invariant
                    self.wf(),
                    w == self.grid.width,
                    h == self.grid.height,
                    s == self.cells(),
                    r < h,
                    base == r * w,
                    base + w <= s.len(),
                    c <= w,
                    out@ == lead + debug_row_text(s.subrange(base as int, base + c)),
                decreases w - c,
            {
                let cell = self.grid.data[base + c];
                let ghost sub0 = s.subrange(base as int, base + c);
                push_debug_cell(&mut out, cell);
                proof {
                    let sub1 = s.subrange(base as int, base + c + 1);
                    assert(sub1.drop_last() =~= sub0);
                    assert(sub1.last() == cell);
                    assert(out@ =~= lead + debug_row_text(sub1));
                }
                c = c + 1;
            }
            out.append("\n");
            proof {
                assert(out@ =~= head + debug_rows_text(s, w as int, (r + 1) as nat));
            }
            r = r + 1;
        }
        out.append("]\n");
        out
    }
}

impl Constraint {
    /// The rendering of the constraint: its corner, its nine mask bits from
    /// the top-left one, and its mines.
    pub fn debug_string(&self) -> (r: String)
        ensures
            r@ == constraint_text(*self),
    {
        let mut out = String::from_str("Constraint { coords: (");
        push_decimal_usize(&mut out, self.x);
        out.append(", ");
        push_decimal_usize(&mut out, self.y);
        out.append("), mask: ");
        let ghost lead = out@;
        let mut k: usize = 0;
        while k < 9
            invariant
                k <= 9,
                out@ == lead + mask_text(self.mask, k as int),
            decreases 9 - k,
        {
            if test_bit(self.mask, k) {
                out.append("1");
            } else {
                out.append("0");
            }
            k = k + 1;
        }
        out.append(", hidden mines: ");
        push_decimal(&mut out, self.mines);
        out.append(" }");
        proof {
            assert(out@ =~= constraint_text(*self));
        }
        out
    }
}

} // verus!
