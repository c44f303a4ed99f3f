//! The cells a constraint stands for and the cells of a board, as sets of
//! indices, with the facts about their sizes that the solver's reasoning uses.
use vstd::prelude::*;
use vstd::set_lib::{set_int_range, lemma_int_range};
use crate::state::{Cell, Visibility};
use crate::state::grid::{
    Board, index_of, count_vis, count_mines, nbr, mine_at, lemma_index_coords, lemma_coords_index,
    lemma_index_injective, lemma_nbr_distinct,
};
use super::{Constraint, bit, bit_val, popcount9, cell_at, hidden_around, flag_val, flags_upto, flags_around};
use super::deduce::possible_layout;

verus! {

/// The index of the cell that bit `k` of `c` stands for on a `w`-wide board.
pub open spec fn bit_cell(c: Constraint, w: int, k: int) -> int {
    index_of(w, c.x + k % 3, c.y + k / 3)
}

/// The indices of the cells of the first `k` bits of `c`.
pub open spec fn cells_upto(c: Constraint, w: int, k: int) -> Set<int>
    decreases k,
{
    if k <= 0 {
        Set::empty()
    } else if bit(c.mask, k - 1) {
        cells_upto(c, w, k - 1).insert(bit_cell(c, w, k - 1))
    } else {
        cells_upto(c, w, k - 1)
    }
}

/// The indices of the cells that `c` covers on a `w`-wide board.
pub open spec fn cset(c: Constraint, w: int) -> Set<int> {
    cells_upto(c, w, 9)
}

/// Every cell that `c` covers lies on the `w` by `h` board.
pub open spec fn covers_in_grid(c: Constraint, w: int, h: int) -> bool {
    forall|x: int, y: int| #[trigger] c.covers(x, y) ==> 0 <= x < w && 0 <= y < h
}

/// The number of set bits among the first `k` bits of `m`.
pub open spec fn popcount_upto(m: u16, k: int) -> int
    decreases k,
{
    if k <= 0 {
        0
    } else {
        popcount_upto(m, k - 1) + bit_val(m, k - 1)
    }
}

proof fn lemma_cells_upto(c: Constraint, w: int, h: int, k: int)
    requires
        0 < w,
        w * h <= usize::MAX,
        c.mask_ok(),
        covers_in_grid(c, w, h),
        0 <= k <= 9,
    ensures
        cells_upto(c, w, k).finite(),
        cells_upto(c, w, k).len() == popcount_upto(c.mask, k),
        forall|i: int| #[trigger] cells_upto(c, w, k).contains(i) <==> exists|j: int| 0 <= j < k && bit(c.mask, j) && bit_cell(c, w, j) == i,
    decreases k,
{
    if k > 0 {
        lemma_cells_upto(c, w, h, k - 1);
        let prev = cells_upto(c, w, k - 1);
        if bit(c.mask, k - 1) {
            let kk = k - 1;
            let x = c.x + kk % 3;
            let y = c.y + kk / 3;
            assert((y - c.y) * 3 + (x - c.x) == kk);
            assert(c.covers(x, y));
            if prev.contains(bit_cell(c, w, kk)) {
                let j = choose|j: int| 0 <= j < kk && bit(c.mask, j) && bit_cell(c, w, j) == bit_cell(c, w, kk);
                let xj = c.x + j % 3;
                let yj = c.y + j / 3;
                assert((yj - c.y) * 3 + (xj - c.x) == j);
                assert(c.covers(xj, yj));
                lemma_index_injective(w, h, xj, yj, x, y);
            }
        }
        assert forall|i: int| #[trigger] cells_upto(c, w, k).contains(i) <==> exists|j: int| 0 <= j < k && bit(c.mask, j) && bit_cell(c, w, j) == i by {
            if exists|j: int| 0 <= j < k && bit(c.mask, j) && bit_cell(c, w, j) == i {
                let j = choose|j: int| 0 <= j < k && bit(c.mask, j) && bit_cell(c, w, j) == i;
                if j < k - 1 {
                    assert(prev.contains(i));
                }
            }
        }
    }
}

/// The cells of a constraint that lies on the board: as many as its set
/// bits, and exactly the indices of the cells it covers.
pub proof fn lemma_cset(c: Constraint, w: int, h: int)
    requires
        0 < w,
        w * h <= usize::MAX,
        c.mask_ok(),
        covers_in_grid(c, w, h),
    ensures
        cset(c, w).finite(),
        cset(c, w).len() == popcount9(c.mask),
        forall|i: int| #[trigger] cset(c, w).contains(i) <==> (0 <= i < w * h && c.covers(i % w, i / w)),
{
    lemma_cells_upto(c, w, h, 9);
    assert(popcount_upto(c.mask, 9) == popcount9(c.mask)) by {
        reveal_with_fuel(popcount_upto, 10);
    }
    assert forall|i: int| #[trigger] cset(c, w).contains(i) <==> (0 <= i < w * h && c.covers(i % w, i / w)) by {
        if cset(c, w).contains(i) {
            let j = choose|j: int| 0 <= j < 9 && bit(c.mask, j) && bit_cell(c, w, j) == i;
            let x = c.x + j % 3;
            let y = c.y + j / 3;
            assert((y - c.y) * 3 + (x - c.x) == j);
            assert(c.covers(x, y));
            lemma_index_coords(w, h, x, y);
        }
        if 0 <= i < w * h && c.covers(i % w, i / w) {
            lemma_coords_index(w, h, i);
            let x = i % w;
            let y = i / w;
            let j = (y - c.y) * 3 + (x - c.x);
            assert(0 <= j < 9);
            assert(j % 3 == x - c.x && j / 3 == y - c.y);
            assert(bit_cell(c, w, j) == i);
        }
    }
}

/// Constraints that cover the same cells stand for the same indices.
pub proof fn lemma_cset_same(c: Constraint, d: Constraint, w: int, h: int)
    requires
        0 < w,
        w * h <= usize::MAX,
        c.mask_ok(),
        d.mask_ok(),
        covers_in_grid(c, w, h),
        forall|x: int, y: int| #[trigger] d.covers(x, y) == c.covers(x, y),
    ensures
        covers_in_grid(d, w, h),
        cset(d, w) == cset(c, w),
{
    assert forall|x: int, y: int| #[trigger] d.covers(x, y) implies 0 <= x < w && 0 <= y < h by {
        assert(c.covers(x, y));
    }
    lemma_cset(c, w, h);
    lemma_cset(d, w, h);
    assert(cset(d, w) =~= cset(c, w));
}

/// The mines among the cells of `c`.
pub open spec fn mset(c: Constraint, s: Seq<Cell>, w: int) -> Set<int> {
    cset(c, w).filter(|i: int| s[i].is_mine)
}

/// The mines of a constraint depend only on which cells are mines.
pub proof fn lemma_mset_same_mines(c: Constraint, s: Seq<Cell>, t: Seq<Cell>, w: int)
    requires
        forall|i: int| #[trigger] cset(c, w).contains(i) ==> s[i].is_mine == t[i].is_mine,
    ensures
        mset(c, s, w) == mset(c, t, w),
{
    assert(mset(c, s, w) =~= mset(c, t, w));
}

/// The indices of the cells of `s` with visibility `v`.
pub open spec fn vis_set(s: Seq<Cell>, v: Visibility) -> Set<int> {
    set_int_range(0, s.len() as int).filter(|i: int| s[i].visibility == v)
}

/// The indices of the mines of `s`.
pub open spec fn mine_set(s: Seq<Cell>) -> Set<int> {
    set_int_range(0, s.len() as int).filter(|i: int| s[i].is_mine)
}

pub proof fn lemma_vis_set(s: Seq<Cell>, v: Visibility)
    ensures
        vis_set(s, v).finite(),
        vis_set(s, v).len() == count_vis(s, v),
    decreases s.len(),
{
    if s.len() == 0 {
        assert(vis_set(s, v) =~= Set::empty());
    } else {
        let t = s.drop_last();
        lemma_vis_set(t, v);
        if s.last().visibility == v {
            assert(vis_set(s, v) =~= vis_set(t, v).insert(s.len() - 1));
        } else {
            assert(vis_set(s, v) =~= vis_set(t, v));
        }
    }
}

pub proof fn lemma_mine_set(s: Seq<Cell>)
    ensures
        mine_set(s).finite(),
        mine_set(s).len() == count_mines(s),
    decreases s.len(),
{
    if s.len() == 0 {
        assert(mine_set(s) =~= Set::empty());
    } else {
        let t = s.drop_last();
        lemma_mine_set(t);
        if s.last().is_mine {
            assert(mine_set(s) =~= mine_set(t).insert(s.len() - 1));
        } else {
            assert(mine_set(s) =~= mine_set(t));
        }
    }
}


/// A hidden mine at index `i` of `s`.
pub open spec fn hidden_mine(s: Seq<Cell>) -> spec_fn(int) -> bool {
    |i: int| s[i].visibility == Visibility::Hidden && s[i].is_mine
}

/// 1 if slot `k` around `(x, y)` lies on the board and satisfies `f`.
pub open spec fn slot_hit(w: int, h: int, x: int, y: int, k: int, f: spec_fn(int) -> bool) -> int {
    match nbr(w, h, x, y, k) {
        Some(i) => if f(i as int) {
            1
        } else {
            0
        },
        None => 0,
    }
}

/// The number of the first `n` slots around `(x, y)` that lie on the board
/// and satisfy `f`.
pub open spec fn hits_upto(w: int, h: int, x: int, y: int, n: int, f: spec_fn(int) -> bool) -> int
    decreases n,
{
    if n <= 0 {
        0
    } else {
        hits_upto(w, h, x, y, n - 1, f) + slot_hit(w, h, x, y, n - 1, f)
    }
}

/// The indices of the first `n` slots around `(x, y)` that lie on the board
/// and satisfy `f`.
pub open spec fn slots_upto(w: int, h: int, x: int, y: int, n: int, f: spec_fn(int) -> bool) -> Set<int>
    decreases n,
{
    if n <= 0 {
        Set::empty()
    } else {
        let prev = slots_upto(w, h, x, y, n - 1, f);
        match nbr(w, h, x, y, n - 1) {
            Some(i) => if f(i as int) {
                prev.insert(i as int)
            } else {
                prev
            },
            None => prev,
        }
    }
}

/// The slots are distinct cells, so the set of hits has as many elements
/// as there are hits.
pub proof fn lemma_slots_upto(w: int, h: int, x: int, y: int, n: int, f: spec_fn(int) -> bool)
    requires
        0 < w,
        w * h <= usize::MAX,
        0 <= n <= 9,
    ensures
        slots_upto(w, h, x, y, n, f).finite(),
        slots_upto(w, h, x, y, n, f).len() == hits_upto(w, h, x, y, n, f),
        forall|i: int| #[trigger] slots_upto(w, h, x, y, n, f).contains(i) <==> exists|k: int|
            0 <= k < n && nbr(w, h, x, y, k) is Some && nbr(w, h, x, y, k)->0 as int == i && f(i),
    decreases n,
{
    if n > 0 {
        lemma_slots_upto(w, h, x, y, n - 1, f);
        let prev = slots_upto(w, h, x, y, n - 1, f);
        let k0 = n - 1;
        if nbr(w, h, x, y, k0) is Some {
            let i0 = nbr(w, h, x, y, k0)->0 as int;
            if f(i0) && prev.contains(i0) {
                let k = choose|k: int| 0 <= k < n - 1 && nbr(w, h, x, y, k) is Some && nbr(w, h, x, y, k)->0 as int == i0 && f(i0);
                lemma_nbr_distinct(w, h, x, y, k, k0);
            }
        }
        assert forall|i: int| #[trigger] slots_upto(w, h, x, y, n, f).contains(i) <==> exists|k: int|
            0 <= k < n && nbr(w, h, x, y, k) is Some && nbr(w, h, x, y, k)->0 as int == i && f(i) by {
            if exists|k: int| 0 <= k < n && nbr(w, h, x, y, k) is Some && nbr(w, h, x, y, k)->0 as int == i && f(i) {
                let k = choose|k: int| 0 <= k < n && nbr(w, h, x, y, k) is Some && nbr(w, h, x, y, k)->0 as int == i && f(i);
                if k < n - 1 {
                    assert(prev.contains(i));
                }
            }
        }
    }
}

/// Around a revealed cell, the hidden mines of any layout that fits the
/// board number its hint less its flagged neighbours.
pub proof fn lemma_hint_split(b: &Board, s: Seq<Cell>, n: int, x: int, y: int)
    requires
        b.wf(),
        0 < b.w(),
        possible_layout(s, b, n),
        0 <= x < b.w(),
        0 <= y < b.h(),
        cell_at(b, x, y).visibility == Visibility::Revealed,
    ensures
        hits_upto(b.w(), b.h(), x, y, 9, hidden_mine(s)) == cell_at(b, x, y).adjacent_mines - flags_around(b, x, y),
        flags_around(b, x, y) <= cell_at(b, x, y).adjacent_mines,
{
    let w = b.w();
    let h = b.h();
    let f = hidden_mine(s);
    let i = index_of(w, x, y);
    lemma_index_coords(w, h, x, y);
    assert(s[i].visibility == b.cells()[i].visibility);
    assert forall|k: int| 0 <= k < 9 implies #[trigger] slot_hit(w, h, x, y, k, f) + flag_val(b, x, y, k) == (if k == 4 {
        0
    } else {
        mine_at(s, nbr(w, h, x, y, k))
    }) by {
        let px = x + k % 3 - 1;
        let py = y + k / 3 - 1;
        if 0 <= px < w && 0 <= py < h {
            lemma_index_coords(w, h, px, py);
            let j = index_of(w, px, py);
            assert(s[j].visibility == b.cells()[j].visibility);
            if k == 4 {
                assert(px == x && py == y);
            }
        }
    }
    reveal_with_fuel(hits_upto, 10);
    reveal_with_fuel(flags_upto, 10);
    assert(slot_hit(w, h, x, y, 0, f) + flag_val(b, x, y, 0) == mine_at(s, nbr(w, h, x, y, 0)));
    assert(slot_hit(w, h, x, y, 1, f) + flag_val(b, x, y, 1) == mine_at(s, nbr(w, h, x, y, 1)));
    assert(slot_hit(w, h, x, y, 2, f) + flag_val(b, x, y, 2) == mine_at(s, nbr(w, h, x, y, 2)));
    assert(slot_hit(w, h, x, y, 3, f) + flag_val(b, x, y, 3) == mine_at(s, nbr(w, h, x, y, 3)));
    assert(slot_hit(w, h, x, y, 4, f) + flag_val(b, x, y, 4) == 0);
    assert(slot_hit(w, h, x, y, 5, f) + flag_val(b, x, y, 5) == mine_at(s, nbr(w, h, x, y, 5)));
    assert(slot_hit(w, h, x, y, 6, f) + flag_val(b, x, y, 6) == mine_at(s, nbr(w, h, x, y, 6)));
    assert(slot_hit(w, h, x, y, 7, f) + flag_val(b, x, y, 7) == mine_at(s, nbr(w, h, x, y, 7)));
    assert(slot_hit(w, h, x, y, 8, f) + flag_val(b, x, y, 8) == mine_at(s, nbr(w, h, x, y, 8)));
    assert(hits_upto(w, h, x, y, 9, f) >= 0) by {
        assert forall|k: int| 0 <= k < 9 implies #[trigger] slot_hit(w, h, x, y, k, f) >= 0 by {}
    }
}

/// A constraint that covers exactly the hidden cells around `(x, y)` holds
/// the hidden mines around it.
pub proof fn lemma_mset_around(b: &Board, s: Seq<Cell>, x: int, y: int, c: Constraint)
    requires
        b.wf(),
        s.len() == b.cells().len(),
        forall|i: int| 0 <= i < s.len() ==> (#[trigger] s[i]).visibility == b.cells()[i].visibility,
        0 < b.w(),
        0 <= x < b.w(),
        0 <= y < b.h(),
        c.mask_ok(),
        forall|px: int, py: int| #[trigger] c.covers(px, py) == hidden_around(b, x, y, px, py),
    ensures
        covers_in_grid(c, b.w(), b.h()),
        mset(c, s, b.w()) == slots_upto(b.w(), b.h(), x, y, 9, hidden_mine(s)),
{
    let w = b.w();
    let h = b.h();
    let f = hidden_mine(s);
    assert forall|px: int, py: int| #[trigger] c.covers(px, py) implies 0 <= px < w && 0 <= py < h by {
        assert(hidden_around(b, x, y, px, py));
    }
    lemma_cset(c, w, h);
    lemma_slots_upto(w, h, x, y, 9, f);
    assert forall|i: int| #[trigger] mset(c, s, w).contains(i) <==> slots_upto(w, h, x, y, 9, f).contains(i) by {
        if mset(c, s, w).contains(i) {
            lemma_coords_index(w, h, i);
            let px = i % w;
            let py = i / w;
            assert(c.covers(px, py));
            assert(hidden_around(b, x, y, px, py));
            assert(s[i].visibility == b.cells()[i].visibility);
            let k = (py - y + 1) * 3 + (px - x + 1);
            assert(k % 3 == px - x + 1 && k / 3 == py - y + 1);
            assert(nbr(w, h, x, y, k)->0 as int == i);
        }
        if slots_upto(w, h, x, y, 9, f).contains(i) {
            let k = choose|k: int| 0 <= k < 9 && nbr(w, h, x, y, k) is Some && nbr(w, h, x, y, k)->0 as int == i && f(i);
            let px = x + k % 3 - 1;
            let py = y + k / 3 - 1;
            lemma_index_coords(w, h, px, py);
            assert(s[i].visibility == b.cells()[i].visibility);
            assert(hidden_around(b, x, y, px, py));
            assert(c.covers(px, py));
        }
    }
    assert(mset(c, s, w) =~= slots_upto(w, h, x, y, 9, f));
}


/// The mines of a constraint are at most its cells: all of them when as
/// many, none when zero.
pub proof fn lemma_mset_bounds(c: Constraint, s: Seq<Cell>, w: int, h: int)
    requires
        0 < w,
        w * h <= usize::MAX,
        c.mask_ok(),
        covers_in_grid(c, w, h),
    ensures
        mset(c, s, w).finite(),
        mset(c, s, w).len() <= popcount9(c.mask) <= 9,
        mset(c, s, w).len() == popcount9(c.mask) ==> forall|i: int| #[trigger] cset(c, w).contains(i) ==> s[i].is_mine,
        mset(c, s, w).len() == 0 ==> forall|i: int| #[trigger] cset(c, w).contains(i) ==> !s[i].is_mine,
{
    lemma_cset(c, w, h);
    let f = |i: int| s[i].is_mine;
    cset(c, w).lemma_len_filter(f);
    if mset(c, s, w).len() == popcount9(c.mask) {
        vstd::set_lib::lemma_subset_equality(mset(c, s, w), cset(c, w));
        assert forall|i: int| #[trigger] cset(c, w).contains(i) implies s[i].is_mine by {
            assert(mset(c, s, w).contains(i));
        }
    }
    if mset(c, s, w).len() == 0 {
        mset(c, s, w).lemma_len0_is_empty();
        assert forall|i: int| #[trigger] cset(c, w).contains(i) implies !s[i].is_mine by {
            if s[i].is_mine {
                assert(mset(c, s, w).contains(i));
            }
        }
    }
}

/// The wings of two constraints are the cells of each outside the other:
/// both constraints less their wings hold the same mines, those of the
/// cells they share.
pub proof fn lemma_wing(c1: Constraint, c2: Constraint, k1: Constraint, k2: Constraint, s: Seq<Cell>, w: int, h: int)
    requires
        0 < w,
        w * h <= usize::MAX,
        c1.mask_ok(),
        c2.mask_ok(),
        k1.mask_ok(),
        k2.mask_ok(),
        covers_in_grid(c1, w, h),
        covers_in_grid(c2, w, h),
        forall|x: int, y: int| #[trigger] k1.covers(x, y) == (c1.covers(x, y) && !c2.covers(x, y)),
        forall|x: int, y: int| #[trigger] k2.covers(x, y) == (c2.covers(x, y) && !c1.covers(x, y)),
    ensures
        covers_in_grid(k1, w, h),
        covers_in_grid(k2, w, h),
        mset(c1, s, w).len() - mset(k1, s, w).len() == mset(c2, s, w).len() - mset(k2, s, w).len(),
        mset(k1, s, w).len() <= mset(c1, s, w).len(),
        mset(k2, s, w).len() <= mset(c2, s, w).len(),
{
    assert forall|x: int, y: int| #[trigger] k1.covers(x, y) implies 0 <= x < w && 0 <= y < h by {
        assert(c1.covers(x, y));
    }
    assert forall|x: int, y: int| #[trigger] k2.covers(x, y) implies 0 <= x < w && 0 <= y < h by {
        assert(c2.covers(x, y));
    }
    lemma_cset(c1, w, h);
    lemma_cset(c2, w, h);
    lemma_cset(k1, w, h);
    lemma_cset(k2, w, h);
    let f = |i: int| s[i].is_mine;
    cset(c1, w).lemma_len_filter(f);
    cset(c2, w).lemma_len_filter(f);
    cset(k1, w).lemma_len_filter(f);
    cset(k2, w).lemma_len_filter(f);
    let both = mset(c1, s, w).intersect(cset(c2, w));
    vstd::set_lib::lemma_len_intersect(mset(c1, s, w), cset(c2, w));
    assert(mset(c1, s, w) =~= mset(k1, s, w) + both) by {
        assert forall|i: int| #[trigger] mset(c1, s, w).contains(i) <==> (mset(k1, s, w) + both).contains(i) by {
            if 0 <= i < w * h {
                lemma_coords_index(w, h, i);
            }
        }
    }
    assert(mset(c2, s, w) =~= mset(k2, s, w) + both) by {
        assert forall|i: int| #[trigger] mset(c2, s, w).contains(i) <==> (mset(k2, s, w) + both).contains(i) by {
            if 0 <= i < w * h {
                lemma_coords_index(w, h, i);
            }
        }
    }
    assert(mset(k1, s, w).disjoint(both)) by {
        assert forall|i: int| mset(k1, s, w).contains(i) implies !both.contains(i) by {
            lemma_coords_index(w, h, i);
        }
    }
    assert(mset(k2, s, w).disjoint(both)) by {
        assert forall|i: int| mset(k2, s, w).contains(i) implies !both.contains(i) by {
            lemma_coords_index(w, h, i);
        }
    }
    vstd::set_lib::lemma_set_disjoint_lens(mset(k1, s, w), both);
    vstd::set_lib::lemma_set_disjoint_lens(mset(k2, s, w), both);
}


/// The cells of the constraints of `u`, together.
pub open spec fn uset(u: Seq<Constraint>, w: int) -> Set<int>
    decreases u.len(),
{
    if u.len() == 0 {
        Set::empty()
    } else {
        uset(u.drop_last(), w) + cset(u.last(), w)
    }
}

/// The mines of the constraints of `u`, summed.
pub open spec fn sum_mines(u: Seq<Constraint>) -> int
    decreases u.len(),
{
    if u.len() == 0 {
        0
    } else {
        sum_mines(u.drop_last()) + u.last().mines
    }
}

/// The cells of the constraints of `u`, summed.
pub open spec fn sum_cells(u: Seq<Constraint>) -> int
    decreases u.len(),
{
    if u.len() == 0 {
        0
    } else {
        sum_cells(u.drop_last()) + popcount9(u.last().mask)
    }
}

/// No cell is covered by two constraints of `u`.
pub open spec fn pairwise_disjoint(u: Seq<Constraint>) -> bool {
    forall|a: int, b: int, x: int, y: int|
        0 <= a < u.len() && 0 <= b < u.len() && a != b && #[trigger] u[a].covers(x, y) ==> !#[trigger] u[b].covers(x, y)
}

/// Whether the cell at index `i` of `s` is a mine.
pub open spec fn mine_pred(s: Seq<Cell>) -> spec_fn(int) -> bool {
    |i: int| s[i].is_mine
}

/// Constraints that cover no cell twice: their cells number the sum of their
/// cells, and their mines the sum of their mines.
pub proof fn lemma_uset(u: Seq<Constraint>, s: Seq<Cell>, w: int, h: int)
    requires
        0 < w,
        w * h <= usize::MAX,
        pairwise_disjoint(u),
        forall|k: int| 0 <= k < u.len() ==> (#[trigger] u[k]).mask_ok() && covers_in_grid(u[k], w, h) && u[k].mines == mset(
            u[k],
            s,
            w,
        ).len(),
    ensures
        uset(u, w).finite(),
        uset(u, w).len() == sum_cells(u),
        uset(u, w).filter(mine_pred(s)).len() == sum_mines(u),
        forall|i: int| #[trigger] uset(u, w).contains(i) <==> exists|k: int| 0 <= k < u.len() && cset(u[k], w).contains(i),
    decreases u.len(),
{
    if u.len() == 0 {
        assert(uset(u, w).filter(mine_pred(s)) =~= Set::empty());
    } else {
        let v = u.drop_last();
        let l = u.last();
        assert forall|a: int, b: int, x: int, y: int|
            0 <= a < v.len() && 0 <= b < v.len() && a != b && #[trigger] v[a].covers(x, y) implies !#[trigger] v[b].covers(x, y) by {
            assert(u[a] == v[a] && u[b] == v[b]);
        }
        assert forall|k: int| 0 <= k < v.len() implies (#[trigger] v[k]).mask_ok() && covers_in_grid(v[k], w, h) && v[k].mines
            == mset(v[k], s, w).len() by {
            assert(u[k] == v[k]);
        }
        lemma_uset(v, s, w, h);
        assert(u[u.len() - 1] == l);
        lemma_cset(l, w, h);
        cset(l, w).lemma_len_filter(mine_pred(s));
        assert(uset(v, w).disjoint(cset(l, w))) by {
            assert forall|i: int| uset(v, w).contains(i) implies !cset(l, w).contains(i) by {
                let k = choose|k: int| 0 <= k < v.len() && cset(v[k], w).contains(i);
                assert(u[k] == v[k]);
                lemma_cset(v[k], w, h);
                if cset(l, w).contains(i) {
                    assert(u[k].covers(i % w, i / w));
                    assert(u[u.len() - 1].covers(i % w, i / w));
                }
            }
        }
        vstd::set_lib::lemma_set_disjoint_lens(uset(v, w), cset(l, w));
        let fv = uset(v, w).filter(mine_pred(s));
        let fl = cset(l, w).filter(mine_pred(s));
        assert(uset(u, w).filter(mine_pred(s)) =~= fv + fl);
        assert(fv.disjoint(fl));
        uset(v, w).lemma_len_filter(mine_pred(s));
        vstd::set_lib::lemma_set_disjoint_lens(fv, fl);
        assert(fl == mset(l, s, w));
        assert forall|i: int| #[trigger] uset(u, w).contains(i) <==> exists|k: int| 0 <= k < u.len() && cset(u[k], w).contains(i) by {
            if uset(v, w).contains(i) {
                let k = choose|k: int| 0 <= k < v.len() && cset(v[k], w).contains(i);
                assert(u[k] == v[k]);
            }
            if exists|k: int| 0 <= k < u.len() && cset(u[k], w).contains(i) {
                let k = choose|k: int| 0 <= k < u.len() && cset(u[k], w).contains(i);
                if k < u.len() - 1 {
                    assert(u[k] == v[k]);
                }
            }
        }
    }
}

/// With no revealed mine and no flagged safe cell, the hidden mines are the
/// mines less the flags.
pub proof fn lemma_hidden_mines(s: Seq<Cell>)
    requires
        forall|i: int|
            0 <= i < s.len() ==> {
                &&& (#[trigger] s[i]).visibility == Visibility::Revealed ==> !s[i].is_mine
                &&& s[i].visibility == Visibility::Flagged ==> s[i].is_mine
            },
    ensures
        vis_set(s, Visibility::Hidden).finite(),
        vis_set(s, Visibility::Hidden).filter(mine_pred(s)).finite(),
        vis_set(s, Visibility::Hidden).len() == count_vis(s, Visibility::Hidden),
        count_vis(s, Visibility::Flagged) <= count_mines(s),
        vis_set(s, Visibility::Hidden).filter(mine_pred(s)).len() == count_mines(s) - count_vis(s, Visibility::Flagged),
{
    lemma_vis_set(s, Visibility::Hidden);
    lemma_vis_set(s, Visibility::Flagged);
    lemma_mine_set(s);
    let hm = vis_set(s, Visibility::Hidden).filter(mine_pred(s));
    let fl = vis_set(s, Visibility::Flagged);
    vis_set(s, Visibility::Hidden).lemma_len_filter(mine_pred(s));
    assert(mine_set(s) =~= hm + fl);
    assert(hm.disjoint(fl));
    vstd::set_lib::lemma_set_disjoint_lens(hm, fl);
}

/// The hidden cells outside the cells of `u`, which all are hidden: as many
/// as the hidden cells less the cells of `u`, and with as many mines as the
/// hidden mines less the mines of `u`.
pub proof fn lemma_outside(s: Seq<Cell>, u: Seq<Constraint>, w: int, h: int)
    requires
        0 < w,
        w * h <= usize::MAX,
        s.len() == w * h,
        pairwise_disjoint(u),
        forall|k: int| 0 <= k < u.len() ==> (#[trigger] u[k]).mask_ok() && covers_in_grid(u[k], w, h) && u[k].mines == mset(
            u[k],
            s,
            w,
        ).len(),
        forall|k: int, i: int| 0 <= k < u.len() && #[trigger] cset(u[k], w).contains(i) ==> s[i].visibility == Visibility::Hidden,
        forall|i: int|
            0 <= i < s.len() ==> {
                &&& (#[trigger] s[i]).visibility == Visibility::Revealed ==> !s[i].is_mine
                &&& s[i].visibility == Visibility::Flagged ==> s[i].is_mine
            },
    ensures
        vis_set(s, Visibility::Hidden).difference(uset(u, w)).finite(),
        vis_set(s, Visibility::Hidden).difference(uset(u, w)).len() == count_vis(s, Visibility::Hidden) - sum_cells(u),
        vis_set(s, Visibility::Hidden).difference(uset(u, w)).filter(mine_pred(s)).len() == count_mines(s) - count_vis(
            s,
            Visibility::Flagged,
        ) - sum_mines(u),
        vis_set(s, Visibility::Hidden).difference(uset(u, w)).filter(mine_pred(s)).finite(),
{
    let hs = vis_set(s, Visibility::Hidden);
    let us = uset(u, w);
    let f = mine_pred(s);
    lemma_uset(u, s, w, h);
    lemma_hidden_mines(s);
    assert(us.subset_of(hs)) by {
        assert forall|i: int| us.contains(i) implies hs.contains(i) by {
            let k = choose|k: int| 0 <= k < u.len() && cset(u[k], w).contains(i);
            lemma_cset(u[k], w, h);
        }
    }
    let o = hs.difference(us);
    assert(hs =~= o + us);
    assert(o.disjoint(us));
    vstd::set_lib::lemma_len_difference(hs, us);
    vstd::set_lib::lemma_set_disjoint_lens(o, us);
    o.lemma_len_filter(f);
    us.lemma_len_filter(f);
    assert(hs.filter(f) =~= o.filter(f) + us.filter(f));
    assert(o.filter(f).disjoint(us.filter(f)));
    vstd::set_lib::lemma_set_disjoint_lens(o.filter(f), us.filter(f));
}

} // verus!
