//! A game in progress: the moves a player makes on a generated board, and
//! the events each move raises for the front end to show.
use vstd::prelude::*;
use crate::state::{BoardInterface, Cell, Visibility};
use crate::state::grid::{Board, index_of, count_vis, count_mines, with_vis, lemma_index_coords, lemma_count_vis_update};
use crate::state::grid::{adj_mine_count, mine_at, nbr};
use crate::solver::st::{evolves, lemma_evolves_trans};
use crate::generator::{gen_ok, opening, lemma_gen_ok_evolves, lemma_gen_ok_reset, generation_run, lemma_run_openings};
use crate::solver::deduce::deduced;
use crate::random::seeded_xoshiro;

verus! {

/// What a move tells the front end.
#[derive(Clone, Copy, PartialEq, Eq, Debug, Structural)]
pub enum GameEvent {
    /// The cell at these coordinates has changed.
    CellUpdated(usize, usize),
    /// Every safe cell is open; the move was made at these coordinates.
    GameWon(usize, usize),
    /// A mine, or a cell that cannot be opened, was opened at these coordinates.
    GameLost(usize, usize),
}

/// A board being played, with the number of mines it holds and the running
/// count of cells opened, which the front end may also set.
pub struct Game {
    pub board: Board,
    pub total_mines: usize,
    pub revealed: i64,
}

/// Whether `(x, y)` is a cell of `b`.
pub open spec fn on_board(b: &Board, x: usize, y: usize) -> bool {
    x < b.grid.width && y < b.grid.height
}

/// The cell of `b` at `(x, y)`.
pub open spec fn cell_of(b: &Board, x: usize, y: usize) -> Cell {
    b.cells()[index_of(b.w(), x as int, y as int)]
}

/// Whether the index `i` of a `w`-wide board lies in the 3 by 3 box centred
/// on `(x, y)`.
pub open spec fn in_box(w: int, x: int, y: int, i: int) -> bool {
    &&& -1 <= i % w - x <= 1
    &&& -1 <= i / w - y <= 1
}

/// The position of slot `k` (0 to 8, row by row from the top-left) of the
/// 3 by 3 box centred on `(x, y)`.
pub open spec fn box_pos(x: int, y: int, k: int) -> (int, int) {
    (x - 1 + k % 3, y - 1 + k / 3)
}

/// Whether slot `k` of the box around `(x, y)` lies on a `w` by `h` board.
pub open spec fn box_on(w: int, h: int, x: int, y: int, k: int) -> bool {
    let p = box_pos(x, y, k);
    0 <= p.0 < w && 0 <= p.1 < h
}

/// The index of slot `k` of the box around `(x, y)` on a `w`-wide board.
pub open spec fn box_index(w: int, x: int, y: int, k: int) -> int {
    let p = box_pos(x, y, k);
    index_of(w, p.0, p.1)
}

/// Whether slot `k` of the box around `(x, y)` is a cell with visibility `v`.
pub open spec fn box_has(s: Seq<Cell>, w: int, h: int, x: int, y: int, k: int, v: Visibility) -> bool {
    box_on(w, h, x, y, k) && s[box_index(w, x, y, k)].visibility == v
}

/// The number of the first `n` slots of the box around `(x, y)` that are
/// cells with visibility `v`.
pub open spec fn box_count_upto(s: Seq<Cell>, w: int, h: int, x: int, y: int, v: Visibility, n: int) -> int
    decreases n,
{
    if n <= 0 {
        0
    } else {
        box_count_upto(s, w, h, x, y, v, n - 1) + if box_has(s, w, h, x, y, n - 1, v) {
            1int
        } else {
            0
        }
    }
}

/// The number of cells with visibility `v` in the box around `(x, y)`.
pub open spec fn box_count(s: Seq<Cell>, w: int, h: int, x: int, y: int, v: Visibility) -> int {
    box_count_upto(s, w, h, x, y, v, 9)
}

/// Opening `(x, y)` on `b` loses: it lies off the board or is a hidden mine.
pub open spec fn open_fails(b: &Board, x: usize, y: usize) -> bool {
    ||| !on_board(b, x, y)
    ||| cell_of(b, x, y).visibility == Visibility::Hidden && cell_of(b, x, y).is_mine
}

/// `(x, y)` is a flagged cell of `b`, which opening ignores.
pub open spec fn opens_flag(b: &Board, x: usize, y: usize) -> bool {
    on_board(b, x, y) && cell_of(b, x, y).visibility == Visibility::Flagged
}

/// `(x, y)` is a cell of `b` that is open already.
pub open spec fn reopens(b: &Board, x: usize, y: usize) -> bool {
    on_board(b, x, y) && cell_of(b, x, y).visibility == Visibility::Revealed
}

/// The cells of `b` once `(x, y)` is opened, for a cell that can be.
pub open spec fn opened(b: &Board, x: usize, y: usize) -> Seq<Cell> {
    let i = index_of(b.w(), x as int, y as int);
    if cell_of(b, x, y).visibility == Visibility::Hidden {
        b.cells().update(i, with_vis(b.cells()[i], Visibility::Revealed))
    } else {
        b.cells()
    }
}

/// `s` with every hidden mine flagged.
pub open spec fn flag_hidden_mines(s: Seq<Cell>) -> Seq<Cell> {
    Seq::new(
        s.len(),
        |i: int|
            if s[i].visibility == Visibility::Hidden && s[i].is_mine {
                with_vis(s[i], Visibility::Flagged)
            } else {
                s[i]
            },
    )
}

/// A cell update for each hidden cell of `s`, on a `w`-wide board, in the
/// order of the cells.
pub open spec fn hidden_updates(s: Seq<Cell>, w: int) -> Seq<GameEvent>
    decreases s.len(),
{
    if s.len() == 0 {
        Seq::empty()
    } else {
        let j = s.len() - 1;
        hidden_updates(s.drop_last(), w) + if s.last().visibility == Visibility::Hidden {
            seq![GameEvent::CellUpdated((j % w) as usize, (j / w) as usize)]
        } else {
            Seq::empty()
        }
    }
}

/// No event of `ev` from the `n`-th on reports a lost game.
pub open spec fn no_loss_after(ev: Seq<GameEvent>, n: int) -> bool {
    forall|j: int| n <= j < ev.len() ==> !(#[trigger] ev[j] is GameLost)
}

/// `e1` is `e0` with more events after it.
pub open spec fn events_extend(e0: Seq<GameEvent>, e1: Seq<GameEvent>) -> bool {
    e0.len() <= e1.len() && e1.subrange(0, e0.len() as int) == e0
}

/// The order in which a move opens cells: a hidden cell before an open one.
pub open spec fn open_rank(b: &Board, x: usize, y: usize) -> int {
    if on_board(b, x, y) && cell_of(b, x, y).visibility == Visibility::Hidden {
        1
    } else {
        3
    }
}

/// `g1` holds the same board, mine total and running count as `g0`.
pub open spec fn same_game(g0: &Game, g1: &Game) -> bool {
    &&& g1.board.cells() == g0.board.cells()
    &&& g1.board.grid.width == g0.board.grid.width
    &&& g1.board.grid.height == g0.board.grid.height
    &&& g1.board.num_mines == g0.board.num_mines
    &&& g1.total_mines == g0.total_mines
    &&& g1.revealed == g0.revealed
}

/// Every safe cell around the cell at index `i` of `b` is open.
pub open spec fn safe_around_open(b: &Board, i: int) -> bool {
    let x = i % b.w();
    let y = i / b.w();
    forall|k: int|
        0 <= k < 9 && #[trigger] box_on(b.w(), b.h(), x, y, k) && !b.cells()[box_index(b.w(), x, y, k)].is_mine
            ==> b.cells()[box_index(b.w(), x, y, k)].visibility == Visibility::Revealed
}

/// The cell at index `i` of `b` is open with no mine around it, yet some
/// safe cell around it is still closed.
pub open spec fn open_gap(b: &Board, i: int) -> bool {
    &&& 0 <= i < b.cells().len()
    &&& b.cells()[i].visibility == Visibility::Revealed
    &&& b.cells()[i].adjacent_mines == 0
    &&& !safe_around_open(b, i)
}

/// Every gap of `b1` was a gap of `b0` already.
pub open spec fn no_new_gaps(b0: &Board, b1: &Board) -> bool {
    forall|i: int| #[trigger] open_gap(b1, i) ==> open_gap(b0, i)
}

/// No cell is flagged in `b1` that was not flagged in `b0`.
pub open spec fn no_new_flags(b0: &Board, b1: &Board) -> bool {
    forall|i: int|
        0 <= i < b1.cells().len() && (#[trigger] b1.cells()[i]).visibility == Visibility::Flagged ==> b0.cells()[i].visibility
            == Visibility::Flagged
}

/// `c` is a cell of the box around `(x, y)` on a `w` by `h` board that was
/// not open in `s`.
spec fn nbr_ok(s: Seq<Cell>, w: int, h: int, x: int, y: int, c: (usize, usize)) -> bool {
    &&& c.0 < w
    &&& c.1 < h
    &&& -1 <= c.0 - x <= 1
    &&& -1 <= c.1 - y <= 1
    &&& s[index_of(w, c.0 as int, c.1 as int)].visibility != Visibility::Revealed
}

/// Once opened, the cell `c`, hidden in `b0`, is open in `b1` if it is safe,
/// and flagged in `b1` or reported lost in `ev` if it is a mine.
spec fn nbr_done(b0: &Board, b1: &Board, ev: Seq<GameEvent>, c: (usize, usize)) -> bool {
    let i = index_of(b0.w(), c.0 as int, c.1 as int);
    b0.cells()[i].visibility == Visibility::Hidden ==> {
        &&& !b0.cells()[i].is_mine ==> b1.cells()[i].visibility == Visibility::Revealed
        &&& b0.cells()[i].is_mine ==> (b1.cells()[i].visibility == Visibility::Flagged || ev.contains(
            GameEvent::GameLost(c.0, c.1),
        ))
    }
}

impl Game {
    /// The board is consistent and holds `total_mines` mines.
    pub open spec fn wf(&self) -> bool {
        &&& self.board.wf()
        &&& self.board.hints_consistent()
        &&& self.board.visibility_consistent()
        &&& self.total_mines == count_mines(self.board.cells())
    }

    /// The number of hidden cells.
    pub open spec fn hidden(&self) -> int {
        count_vis(self.board.cells(), Visibility::Hidden) as int
    }

    /// The number of open cells.
    pub open spec fn shown(&self) -> int {
        count_vis(self.board.cells(), Visibility::Revealed) as int
    }

    /// The running count cannot overflow during a move at `(x, y)`: each
    /// cell the move opens adds one.
    pub open spec fn counter_room(&self, x: usize, y: usize) -> bool {
        self.revealed + self.hidden() < i64::MAX
    }
}

/// `g1` is `g0` played on: cells were only uncovered or flagged, and the
/// running count grew by the number of cells opened.
pub open spec fn played(g0: &Game, g1: &Game) -> bool {
    &&& g1.wf()
    &&& evolves(&g0.board, &g1.board)
    &&& g1.total_mines == g0.total_mines
    &&& g1.revealed - g0.revealed == g1.shown() - g0.shown()
}

/// Once chording at `(x, y)` of `b0` has opened its neighbours, slot `k` of
/// the box is open in `b1` if it was a hidden safe cell, and flagged in `b1`
/// or reported lost in `ev` if it was a hidden mine.
pub open spec fn chord_opened(b0: &Board, b1: &Board, ev: Seq<GameEvent>, x: int, y: int, k: int) -> bool {
    box_on(b0.w(), b0.h(), x, y, k) ==> {
        let i = box_index(b0.w(), x, y, k);
        let p = box_pos(x, y, k);
        b0.cells()[i].visibility == Visibility::Hidden ==> {
            &&& !b0.cells()[i].is_mine ==> b1.cells()[i].visibility == Visibility::Revealed
            &&& b0.cells()[i].is_mine ==> (b1.cells()[i].visibility == Visibility::Flagged || ev.contains(
                GameEvent::GameLost(p.0 as usize, p.1 as usize),
            ))
        }
    }
}

/// The cell a move event is about.
pub open spec fn event_pos(e: GameEvent) -> (usize, usize) {
    match e {
        GameEvent::CellUpdated(a, b) => (a, b),
        GameEvent::GameWon(a, b) => (a, b),
        GameEvent::GameLost(a, b) => (a, b),
    }
}

/// `p` is a cell of the `w` by `h` board with cells `s`, in the 3 by 3 box
/// centred on `(x, y)`, and hidden.
pub open spec fn hidden_in_box(s: Seq<Cell>, w: int, h: int, x: int, y: int, p: (usize, usize)) -> bool {
    &&& p.0 < w
    &&& p.1 < h
    &&& -1 <= p.0 - x <= 1
    &&& -1 <= p.1 - y <= 1
    &&& s[index_of(w, p.0 as int, p.1 as int)].visibility == Visibility::Hidden
}

/// `a` comes before `b` row by row: on an earlier row, or to the left on
/// the same row.
pub open spec fn row_major_before(a: (usize, usize), b: (usize, usize)) -> bool {
    a.1 < b.1 || (a.1 == b.1 && a.0 < b.0)
}

/// The cells of the first `n` slots of the box around `(x, y)` that lie on
/// the board and are not open, slot by slot.
pub open spec fn unopened_upto(s: Seq<Cell>, w: int, h: int, x: int, y: int, n: int) -> Seq<(usize, usize)>
    decreases n,
{
    if n <= 0 {
        Seq::empty()
    } else {
        let p = box_pos(x, y, n - 1);
        unopened_upto(s, w, h, x, y, n - 1) + if box_on(w, h, x, y, n - 1) && s[box_index(w, x, y, n - 1)].visibility
            != Visibility::Revealed {
            seq![(p.0 as usize, p.1 as usize)]
        } else {
            Seq::empty()
        }
    }
}

/// A `CellUpdated` event for each of the cells `cs` that is hidden in `s`,
/// in the order of `cs`.
pub open spec fn updates_for_hidden(s: Seq<Cell>, w: int, cs: Seq<(usize, usize)>) -> Seq<GameEvent>
    decreases cs.len(),
{
    if cs.len() == 0 {
        Seq::empty()
    } else {
        let c = cs.last();
        updates_for_hidden(s, w, cs.drop_last()) + if s[index_of(w, c.0 as int, c.1 as int)].visibility == Visibility::Hidden {
            seq![GameEvent::CellUpdated(c.0, c.1)]
        } else {
            Seq::empty()
        }
    }
}

/// The events a chord at `(x, y)` of `b` raises when it flags the cells
/// around it.
pub open spec fn chord_flag_events(b: &Board, x: int, y: int) -> Seq<GameEvent> {
    updates_for_hidden(b.cells(), b.w(), unopened_upto(b.cells(), b.w(), b.h(), x, y, 9))
}

/// The slot of the box around `(x, y)` that holds `p`.
pub open spec fn slot_of(p: (usize, usize), x: int, y: int) -> int {
    (p.1 - y + 1) * 3 + (p.0 - x + 1)
}

proof fn lemma_slot(x: int, y: int, k: int)
    requires
        0 <= k < 9,
    ensures
        0 <= k % 3 < 3,
        k / 3 * 3 + k % 3 == k,
        0 <= k / 3 < 3,
        (box_pos(x, y, k).1 - y + 1) * 3 + (box_pos(x, y, k).0 - x + 1) == k,
{
    assert(0 <= k % 3 < 3 && k / 3 * 3 + k % 3 == k && 0 <= k / 3 < 3) by (nonlinear_arith)
        requires
            0 <= k < 9,
    ;
}

proof fn lemma_slot_pos(x: int, y: int, p: (usize, usize))
    requires
        -1 <= p.0 - x <= 1,
        -1 <= p.1 - y <= 1,
    ensures
        0 <= slot_of(p, x, y) < 9,
        box_pos(x, y, slot_of(p, x, y)) == (p.0 as int, p.1 as int),
{
    let k = slot_of(p, x, y);
    let a = p.0 - x + 1;
    let b = p.1 - y + 1;
    assert(k % 3 == a && k / 3 == b) by (nonlinear_arith)
        requires
            k == b * 3 + a,
            0 <= a < 3,
            0 <= b < 3,
    ;
}

/// The unopened cells of the box come slot by slot, each a cell of the box
/// on the board that is not open.
proof fn lemma_unopened_upto(s: Seq<Cell>, w: int, h: int, x: int, y: int, n: int)
    requires
        0 <= n <= 9,
        w <= usize::MAX,
        h <= usize::MAX,
    ensures
        forall|q: int|
            0 <= q < unopened_upto(s, w, h, x, y, n).len() ==> {
                let c = #[trigger] unopened_upto(s, w, h, x, y, n)[q];
                &&& c.0 < w
                &&& c.1 < h
                &&& -1 <= c.0 - x <= 1
                &&& -1 <= c.1 - y <= 1
                &&& s[index_of(w, c.0 as int, c.1 as int)].visibility != Visibility::Revealed
                &&& slot_of(c, x, y) < n
            },
        forall|q1: int, q2: int|
            0 <= q1 < q2 < unopened_upto(s, w, h, x, y, n).len() ==> slot_of(unopened_upto(s, w, h, x, y, n)[q1], x, y)
                < slot_of(unopened_upto(s, w, h, x, y, n)[q2], x, y),
    decreases n,
{
    if n > 0 {
        lemma_unopened_upto(s, w, h, x, y, n - 1);
        lemma_slot(x, y, n - 1);
        let u0 = unopened_upto(s, w, h, x, y, n - 1);
        let u = unopened_upto(s, w, h, x, y, n);
        let p = box_pos(x, y, n - 1);
        if box_on(w, h, x, y, n - 1) && s[box_index(w, x, y, n - 1)].visibility != Visibility::Revealed {
            let q = (p.0 as usize, p.1 as usize);
            assert(q.0 == p.0 && q.1 == p.1);
            assert(u == u0.push(q));
            assert(slot_of(q, x, y) == n - 1);
            assert(index_of(w, q.0 as int, q.1 as int) == box_index(w, x, y, n - 1));
            assert(u[u0.len() as int] == q);
        } else {
            assert(u =~= u0);
        }
        assert forall|q: int| 0 <= q < u0.len() implies u[q] == u0[q] by {}
    }
}

/// The events for the hidden ones among the unopened cells of the first `n`
/// slots: a `CellUpdated` for each hidden cell of those slots, slot by slot.
proof fn lemma_flag_events_upto(s: Seq<Cell>, w: int, h: int, x: int, y: int, n: int)
    requires
        0 <= n <= 9,
        w <= usize::MAX,
        h <= usize::MAX,
    ensures
        ({
            let ev = updates_for_hidden(s, w, unopened_upto(s, w, h, x, y, n));
            &&& forall|i: int|
                0 <= i < ev.len() ==> (#[trigger] ev[i]) is CellUpdated && hidden_in_box(s, w, h, x, y, event_pos(ev[i]))
                    && slot_of(event_pos(ev[i]), x, y) < n
            &&& forall|p: (usize, usize)|
                hidden_in_box(s, w, h, x, y, p) && slot_of(p, x, y) < n ==> #[trigger] ev.contains(
                    GameEvent::CellUpdated(p.0, p.1),
                )
            &&& forall|i: int, j: int|
                0 <= i < j < ev.len() ==> slot_of(event_pos(ev[i]), x, y) < slot_of(event_pos(ev[j]), x, y)
        }),
    decreases n,
{
    if n > 0 {
        lemma_flag_events_upto(s, w, h, x, y, n - 1);
        lemma_slot(x, y, n - 1);
        let u0 = unopened_upto(s, w, h, x, y, n - 1);
        let u = unopened_upto(s, w, h, x, y, n);
        let ev0 = updates_for_hidden(s, w, u0);
        let ev = updates_for_hidden(s, w, u);
        let p = box_pos(x, y, n - 1);
        let q = (p.0 as usize, p.1 as usize);
        if box_on(w, h, x, y, n - 1) && s[box_index(w, x, y, n - 1)].visibility != Visibility::Revealed {
            assert(q.0 == p.0 && q.1 == p.1);
            assert(slot_of(q, x, y) == n - 1);
            assert(u == u0.push(q));
            assert(u.drop_last() =~= u0);
            assert(u.last() == q);
            assert(index_of(w, q.0 as int, q.1 as int) == box_index(w, x, y, n - 1));
        } else {
            assert(u =~= u0);
        }
        assert forall|i: int| 0 <= i < ev0.len() implies ev[i] == ev0[i] by {}
        assert forall|p2: (usize, usize)|
            hidden_in_box(s, w, h, x, y, p2) && slot_of(p2, x, y) < n implies #[trigger] ev.contains(
                GameEvent::CellUpdated(p2.0, p2.1),
            ) by {
            lemma_slot_pos(x, y, p2);
            if slot_of(p2, x, y) < n - 1 {
                assert(ev0.contains(GameEvent::CellUpdated(p2.0, p2.1)));
                let i = choose|i: int| 0 <= i < ev0.len() && ev0[i] == GameEvent::CellUpdated(p2.0, p2.1);
                assert(ev[i] == ev0[i]);
            } else {
                assert(p2 == q);
                assert(ev[ev.len() - 1] == GameEvent::CellUpdated(p2.0, p2.1));
            }
        }
    }
}

/// A chord that flags the cells around `(x, y)` tells the front end of
/// exactly the hidden cells of the 3 by 3 box centred there, each by one
/// `CellUpdated`, row by row and left to right, and of no other cell.
pub proof fn lemma_chord_flag_events(b: &Board, x: int, y: int)
    ensures
        forall|i: int|
            0 <= i < chord_flag_events(b, x, y).len() ==> (#[trigger] chord_flag_events(b, x, y)[i]) is CellUpdated
                && hidden_in_box(b.cells(), b.w(), b.h(), x, y, event_pos(chord_flag_events(b, x, y)[i])),
        forall|p: (usize, usize)|
            hidden_in_box(b.cells(), b.w(), b.h(), x, y, p) ==> #[trigger] chord_flag_events(b, x, y).contains(
                GameEvent::CellUpdated(p.0, p.1),
            ),
        forall|i: int, j: int|
            0 <= i < j < chord_flag_events(b, x, y).len() ==> row_major_before(
                event_pos(chord_flag_events(b, x, y)[i]),
                event_pos(chord_flag_events(b, x, y)[j]),
            ),
{
    let s = b.cells();
    let ev = chord_flag_events(b, x, y);
    lemma_flag_events_upto(s, b.w(), b.h(), x, y, 9);
    assert forall|p: (usize, usize)| hidden_in_box(s, b.w(), b.h(), x, y, p) implies #[trigger] ev.contains(
        GameEvent::CellUpdated(p.0, p.1),
    ) by {
        lemma_slot_pos(x, y, p);
    }
    assert forall|i: int, j: int| 0 <= i < j < ev.len() implies row_major_before(event_pos(ev[i]), event_pos(ev[j])) by {
        assert(ev[i] is CellUpdated && hidden_in_box(s, b.w(), b.h(), x, y, event_pos(ev[i])));
        assert(ev[j] is CellUpdated && hidden_in_box(s, b.w(), b.h(), x, y, event_pos(ev[j])));
    }
}

/// Counting cells of one visibility: a sequence where that visibility spreads
/// counts at least as many.
pub proof fn lemma_count_vis_mono(s: Seq<Cell>, t: Seq<Cell>, v: Visibility)
    requires
        s.len() == t.len(),
        forall|i: int| 0 <= i < s.len() && (#[trigger] s[i]).visibility == v ==> t[i].visibility == v,
    ensures
        count_vis(s, v) <= count_vis(t, v),
    decreases s.len(),
{
    if s.len() > 0 {
        assert forall|i: int| 0 <= i < s.drop_last().len() && (#[trigger] s.drop_last()[i]).visibility == v implies t.drop_last()[i].visibility == v by {
            assert(s[i] == s.drop_last()[i]);
        }
        lemma_count_vis_mono(s.drop_last(), t.drop_last(), v);
    }
}

/// Every cell is hidden, flagged or open.
pub proof fn lemma_count_vis_total(s: Seq<Cell>)
    ensures
        count_vis(s, Visibility::Hidden) + count_vis(s, Visibility::Flagged) + count_vis(s, Visibility::Revealed) == s.len(),
    decreases s.len(),
{
    if s.len() > 0 {
        lemma_count_vis_total(s.drop_last());
    }
}

/// Uncovering and flagging never adds hidden cells, and never adds to the
/// hidden and open cells together.
pub proof fn lemma_evolves_counts(b0: &Board, b1: &Board)
    requires
        evolves(b0, b1),
    ensures
        count_vis(b1.cells(), Visibility::Hidden) <= count_vis(b0.cells(), Visibility::Hidden),
        count_vis(b1.cells(), Visibility::Revealed) + count_vis(b1.cells(), Visibility::Hidden) <= count_vis(
            b0.cells(),
            Visibility::Revealed,
        ) + count_vis(b0.cells(), Visibility::Hidden),
{
    let s = b0.cells();
    let t = b1.cells();
    assert forall|i: int| 0 <= i < t.len() && (#[trigger] t[i]).visibility == Visibility::Hidden implies s[i].visibility
        == Visibility::Hidden by {
        assert(t[i] == b1.cells()[i]);
    }
    lemma_count_vis_mono(t, s, Visibility::Hidden);
    assert forall|i: int| 0 <= i < s.len() && (#[trigger] s[i]).visibility == Visibility::Flagged implies t[i].visibility
        == Visibility::Flagged by {
        assert(t[i] == b1.cells()[i]);
    }
    lemma_count_vis_mono(s, t, Visibility::Flagged);
    lemma_count_vis_total(s);
    lemma_count_vis_total(t);
}

/// A game played on keeps room in its running count.
pub proof fn lemma_played_room(g0: &Game, g1: &Game)
    requires
        played(g0, g1),
    ensures
        g1.revealed + g1.hidden() <= g0.revealed + g0.hidden(),
        g1.hidden() <= g0.hidden(),
{
    lemma_evolves_counts(&g0.board, &g1.board);
}

/// Playing on a game that was played on is playing on it.
pub proof fn lemma_played_trans(g0: &Game, g1: &Game, g2: &Game)
    requires
        played(g0, g1),
        played(g1, g2),
    ensures
        played(g0, g2),
{
    lemma_evolves_trans(&g0.board, &g1.board, &g2.board);
}

/// Events extend themselves.
pub proof fn lemma_events_same(e: Seq<GameEvent>)
    ensures
        events_extend(e, e),
{
    assert(e.subrange(0, e.len() as int) =~= e);
}

/// An event stays among the events once more are added.
pub proof fn lemma_events_extend(e0: Seq<GameEvent>, e1: Seq<GameEvent>, e2: Seq<GameEvent>)
    requires
        events_extend(e0, e1),
        events_extend(e1, e2),
    ensures
        events_extend(e0, e2),
        forall|ev: GameEvent| e1.contains(ev) ==> e2.contains(ev),
{
    assert(e2.subrange(0, e0.len() as int) =~= e1.subrange(0, e0.len() as int));
    assert forall|ev: GameEvent| e1.contains(ev) implies e2.contains(ev) by {
        let j = choose|j: int| 0 <= j < e1.len() && e1[j] == ev;
        assert(e2.subrange(0, e1.len() as int)[j] == e2[j]);
    }
}

/// A board with the same sides and cells is just as consistent.
pub proof fn lemma_consistent_same(b0: &Board, b1: &Board)
    requires
        b0.hints_consistent(),
        b0.visibility_consistent(),
        b1.grid.width == b0.grid.width,
        b1.grid.height == b0.grid.height,
        b1.cells() == b0.cells(),
    ensures
        b1.hints_consistent(),
        b1.visibility_consistent(),
{
    assert forall|j: int| 0 <= j < b1.cells().len() implies #[trigger] b1.hint_ok(j) by {
        assert(b0.hint_ok(j));
    }
}

/// Open cells are safe, so there are no more of them than safe cells.
pub proof fn lemma_count_revealed_safe(s: Seq<Cell>)
    requires
        forall|i: int| 0 <= i < s.len() && (#[trigger] s[i]).visibility == Visibility::Revealed ==> !s[i].is_mine,
    ensures
        count_vis(s, Visibility::Revealed) + count_mines(s) <= s.len(),
    decreases s.len(),
{
    if s.len() > 0 {
        assert forall|i: int| 0 <= i < s.drop_last().len() && (#[trigger] s.drop_last()[i]).visibility == Visibility::Revealed implies !s.drop_last()[i].is_mine by {
            assert(s[i] == s.drop_last()[i]);
        }
        lemma_count_revealed_safe(s.drop_last());
    }
}

/// A sequence holding a cell of visibility `v` counts at least one.
pub proof fn lemma_count_vis_pos(s: Seq<Cell>, i: int, v: Visibility)
    requires
        0 <= i < s.len(),
        s[i].visibility == v,
    ensures
        count_vis(s, v) >= 1,
    decreases s.len(),
{
    if i < s.len() - 1 {
        assert(s.drop_last()[i] == s[i]);
        lemma_count_vis_pos(s.drop_last(), i, v);
    }
}

/// Without flags, no box counts a flag.
pub proof fn lemma_box_no_flags(s: Seq<Cell>, w: int, h: int, x: int, y: int, n: int)
    requires
        forall|i: int| 0 <= i < s.len() ==> (#[trigger] s[i]).visibility != Visibility::Flagged,
        0 < w,
        s.len() == w * h,
    ensures
        box_count_upto(s, w, h, x, y, Visibility::Flagged, n) == 0,
    decreases n,
{
    if n > 0 {
        lemma_box_no_flags(s, w, h, x, y, n - 1);
        if box_on(w, h, x, y, n - 1) {
            let p = box_pos(x, y, n - 1);
            lemma_index_coords(w, h, p.0, p.1);
        }
    }
}

/// There are no more mines than cells.
pub proof fn lemma_count_mines_le(s: Seq<Cell>)
    ensures
        count_mines(s) <= s.len(),
    decreases s.len(),
{
    if s.len() > 0 {
        lemma_count_mines_le(s.drop_last());
    }
}

/// Sequences that agree on which cells are flagged count the same flags in
/// any box.
pub proof fn lemma_box_flags_same(s: Seq<Cell>, t: Seq<Cell>, w: int, h: int, x: int, y: int, n: int)
    requires
        s.len() == t.len(),
        forall|i: int| 0 <= i < s.len() ==> ((#[trigger] s[i]).visibility == Visibility::Flagged) == (t[i].visibility
            == Visibility::Flagged),
        0 < w,
        s.len() == w * h,
    ensures
        box_count_upto(s, w, h, x, y, Visibility::Flagged, n) == box_count_upto(t, w, h, x, y, Visibility::Flagged, n),
    decreases n,
{
    if n > 0 {
        lemma_box_flags_same(s, t, w, h, x, y, n - 1);
        if box_on(w, h, x, y, n - 1) {
            let p = box_pos(x, y, n - 1);
            lemma_index_coords(w, h, p.0, p.1);
            assert(s[box_index(w, x, y, n - 1)] == s[box_index(w, x, y, n - 1)]);
        }
    }
}

/// The index `i` of a box cell is that of its slot.
pub proof fn lemma_box_slot(w: int, h: int, x: int, y: int, i: int)
    requires
        0 < w,
        0 <= i < w * h,
        in_box(w, x, y, i),
    ensures
        ({
            let k = (i / w - y + 1) * 3 + (i % w - x + 1);
            &&& 0 <= k < 9
            &&& box_pos(x, y, k) == (i % w, i / w)
            &&& box_on(w, h, x, y, k)
            &&& box_index(w, x, y, k) == i
        }),
{
    crate::state::grid::lemma_coords_index(w, h, i);
    let a = i / w - y + 1;
    let b = i % w - x + 1;
    let k = a * 3 + b;
    vstd::arithmetic::div_mod::lemma_fundamental_div_mod_converse(k, 3, a, b);
}

/// Slot `k` of the box around `(x, y)` counts as a flag only where it counts
/// as a mine among the neighbours, and as a mine exactly where it is one.
proof fn lemma_slot_flag_mine(b: &Board, x: int, y: int, k: int)
    requires
        b.wf(),
        b.visibility_consistent(),
        0 <= x < b.w(),
        0 <= y < b.h(),
        0 <= k < 9,
        b.cells()[index_of(b.w(), x, y)].visibility == Visibility::Revealed,
    ensures
        k != 4 && box_has(b.cells(), b.w(), b.h(), x, y, k, Visibility::Flagged) ==> mine_at(b.cells(), nbr(b.w(), b.h(), x, y, k))
            == 1,
        k == 4 ==> !box_has(b.cells(), b.w(), b.h(), x, y, k, Visibility::Flagged),
        k != 4 && box_on(b.w(), b.h(), x, y, k) ==> (mine_at(b.cells(), nbr(b.w(), b.h(), x, y, k)) == 1 <==> b.cells()[box_index(
            b.w(),
            x,
            y,
            k,
        )].is_mine),
        !box_on(b.w(), b.h(), x, y, k) ==> mine_at(b.cells(), nbr(b.w(), b.h(), x, y, k)) == 0,
        0 <= mine_at(b.cells(), nbr(b.w(), b.h(), x, y, k)) <= 1,
{
    let w = b.w();
    let h = b.h();
    if box_on(w, h, x, y, k) {
        let p = box_pos(x, y, k);
        lemma_index_coords(w, h, p.0, p.1);
        let i = box_index(w, x, y, k);
        assert(b.cells()[i] == b.cells()[i]);
    }
}

/// Around an open cell of a consistent board whose hint equals the flags
/// around it, every mine is flagged.
#[verifier::spinoff_prover]
#[verifier::rlimit(40)]
pub proof fn lemma_flags_cover_mines(b: &Board, x: int, y: int)
    requires
        b.wf(),
        b.hints_consistent(),
        b.visibility_consistent(),
        0 <= x < b.w(),
        0 <= y < b.h(),
        b.cells()[index_of(b.w(), x, y)].visibility == Visibility::Revealed,
        b.cells()[index_of(b.w(), x, y)].adjacent_mines == box_count(b.cells(), b.w(), b.h(), x, y, Visibility::Flagged),
    ensures
        forall|k: int|
            0 <= k < 9 && #[trigger] box_on(b.w(), b.h(), x, y, k) && b.cells()[box_index(b.w(), x, y, k)].is_mine
                ==> b.cells()[box_index(b.w(), x, y, k)].visibility == Visibility::Flagged,
{
    let w = b.w();
    let h = b.h();
    let s = b.cells();
    let i = index_of(w, x, y);
    lemma_index_coords(w, h, x, y);
    assert(b.hint_ok(i));
    assert(adj_mine_count(s, w, h, x, y) == s[i].adjacent_mines);
    reveal_with_fuel(box_count_upto, 10);
    lemma_slot_flag_mine(b, x, y, 0);
    lemma_slot_flag_mine(b, x, y, 1);
    lemma_slot_flag_mine(b, x, y, 2);
    lemma_slot_flag_mine(b, x, y, 3);
    lemma_slot_flag_mine(b, x, y, 4);
    lemma_slot_flag_mine(b, x, y, 5);
    lemma_slot_flag_mine(b, x, y, 6);
    lemma_slot_flag_mine(b, x, y, 7);
    lemma_slot_flag_mine(b, x, y, 8);
    assert forall|k: int|
        0 <= k < 9 && #[trigger] box_on(w, h, x, y, k) && s[box_index(w, x, y, k)].is_mine implies s[box_index(
        w,
        x,
        y,
        k,
    )].visibility == Visibility::Flagged by {
        lemma_slot_flag_mine(b, x, y, k);
    }
}

/// Uncovering keeps the safe cells around an open cell open.
pub proof fn lemma_safe_around_evolves(b0: &Board, b1: &Board, i: int)
    requires
        evolves(b0, b1),
        safe_around_open(b0, i),
    ensures
        safe_around_open(b1, i),
{
    let w = b0.w();
    let h = b0.h();
    let x = i % w;
    let y = i / w;
    assert forall|k: int|
        0 <= k < 9 && #[trigger] box_on(b1.w(), b1.h(), x, y, k) && !b1.cells()[box_index(b1.w(), x, y, k)].is_mine
            implies b1.cells()[box_index(b1.w(), x, y, k)].visibility == Visibility::Revealed by {
        let p = box_pos(x, y, k);
        lemma_index_coords(w, h, p.0, p.1);
        let j = box_index(w, x, y, k);
        assert(b1.cells()[j] == b1.cells()[j]);
        assert(box_on(w, h, x, y, k));
    }
}

/// Uncovering makes no gap at a cell that was open already.
pub proof fn lemma_gaps_evolve(b0: &Board, b1: &Board)
    requires
        evolves(b0, b1),
    ensures
        forall|i: int|
            #![trigger open_gap(b1, i)]
            0 <= i < b0.cells().len() && b0.cells()[i].visibility == Visibility::Revealed && open_gap(b1, i) ==> open_gap(b0, i),
{
    assert forall|i: int|
        #![trigger open_gap(b1, i)]
        0 <= i < b0.cells().len() && b0.cells()[i].visibility == Visibility::Revealed && open_gap(b1, i) implies open_gap(b0, i) by {
        assert(b1.cells()[i] == b1.cells()[i]);
        if safe_around_open(b0, i) {
            lemma_safe_around_evolves(b0, b1, i);
        }
    }
}

/// An open cell of a consistent board with no mine around it has no flag
/// around it.
pub proof fn lemma_zero_no_flags(b: &Board, x: int, y: int)
    requires
        b.wf(),
        b.hints_consistent(),
        b.visibility_consistent(),
        0 <= x < b.w(),
        0 <= y < b.h(),
        b.cells()[index_of(b.w(), x, y)].visibility == Visibility::Revealed,
        b.cells()[index_of(b.w(), x, y)].adjacent_mines == 0,
    ensures
        box_count(b.cells(), b.w(), b.h(), x, y, Visibility::Flagged) == 0,
{
    let w = b.w();
    let h = b.h();
    let s = b.cells();
    let i = index_of(w, x, y);
    lemma_index_coords(w, h, x, y);
    assert(b.hint_ok(i));
    reveal_with_fuel(box_count_upto, 10);
    lemma_slot_flag_mine(b, x, y, 0);
    lemma_slot_flag_mine(b, x, y, 1);
    lemma_slot_flag_mine(b, x, y, 2);
    lemma_slot_flag_mine(b, x, y, 3);
    lemma_slot_flag_mine(b, x, y, 4);
    lemma_slot_flag_mine(b, x, y, 5);
    lemma_slot_flag_mine(b, x, y, 6);
    lemma_slot_flag_mine(b, x, y, 7);
    lemma_slot_flag_mine(b, x, y, 8);
}

/// Uncovering a hidden safe cell, or flagging a hidden mine, keeps the board
/// consistent.
pub proof fn lemma_consistent_update(b0: &Board, b1: &Board, i: int, v: Visibility)
    requires
        b0.wf(),
        b0.hints_consistent(),
        b0.visibility_consistent(),
        b1.wf(),
        b1.grid.width == b0.grid.width,
        b1.grid.height == b0.grid.height,
        0 <= i < b0.cells().len(),
        b1.cells() == b0.cells().update(i, with_vis(b0.cells()[i], v)),
        v == Visibility::Revealed ==> !b0.cells()[i].is_mine,
        v == Visibility::Flagged ==> b0.cells()[i].is_mine,
    ensures
        b1.hints_consistent(),
        b1.visibility_consistent(),
        count_mines(b1.cells()) == count_mines(b0.cells()),
{
    let w = b0.w();
    let h = b0.h();
    assert forall|j: int| 0 <= j < b1.cells().len() implies (#[trigger] b1.cells()[j]).is_mine == b0.cells()[j].is_mine by {}
    crate::state::grid::lemma_count_mines_eq(b0.cells(), b1.cells());
    assert forall|j: int| 0 <= j < b1.cells().len() implies #[trigger] b1.hint_ok(j) by {
        assert(b0.hint_ok(j));
        crate::state::grid::lemma_adj_same_mines(b0.cells(), b1.cells(), w, h, j % w, j / w);
    }
    assert forall|j: int| 0 <= j < b1.cells().len() implies {
        &&& (#[trigger] b1.cells()[j]).visibility == Visibility::Revealed ==> !b1.cells()[j].is_mine
        &&& b1.cells()[j].visibility == Visibility::Flagged ==> b1.cells()[j].is_mine
    } by {
        assert(b0.cells()[j] == b0.cells()[j]);
    }
}

impl Game {
    /// The sprite of the cell at `(x, y)`: 10 for a flag, 9 for a hidden
    /// cell, and its hint for an open one.
    pub fn sprite(&self, x: usize, y: usize) -> (r: u8)
        requires
            self.wf(),
            on_board(&self.board, x, y),
        ensures
            r == match cell_of(&self.board, x, y).visibility {
                Visibility::Flagged => 10,
                Visibility::Hidden => 9,
                Visibility::Revealed => cell_of(&self.board, x, y).adjacent_mines,
            },
    {
        match self.board.peek((x, y)) {
            Visibility::Flagged => 10,
            Visibility::Hidden => 9,
            Visibility::Revealed => match self.board.get_hint((x, y)) {
                Some(hint) => hint as u8,
                None => 9,
            },
        }
    }

    /// Toggles the flag of the cell at `(x, y)`. A hidden cell is flagged when
    /// it is a mine; either way the front end is told of it. A flagged cell
    /// is unflagged; an open cell is left alone.
    pub fn flag(&mut self, x: usize, y: usize, events: &mut Vec<GameEvent>)
        requires
            old(self).wf(),
            on_board(&old(self).board, x, y),
        ensures
            final(self).wf(),
            final(self).board.grid.width == old(self).board.grid.width,
            final(self).board.grid.height == old(self).board.grid.height,
            final(self).board.num_mines == old(self).board.num_mines,
            final(self).total_mines == old(self).total_mines,
            final(self).revealed == old(self).revealed,
            ({
                let i = index_of(old(self).board.w(), x as int, y as int);
                let c = old(self).board.cells()[i];
                let s0 = old(self).board.cells();
                match c.visibility {
                    Visibility::Hidden => final(self).board.cells() == (if c.is_mine {
                        s0.update(i, with_vis(c, Visibility::Flagged))
                    } else {
                        s0
                    }) && final(events)@ == old(events)@.push(GameEvent::CellUpdated(x, y)),
                    Visibility::Flagged => final(self).board.cells() == s0.update(i, with_vis(c, Visibility::Hidden))
                        && final(events)@ == old(events)@.push(GameEvent::CellUpdated(x, y)),
                    Visibility::Revealed => final(self).board.cells() == s0 && final(events)@ == old(events)@,
                }
            }),
    {
        let ghost b0 = self.board;
        proof {
            lemma_index_coords(b0.w(), b0.h(), x as int, y as int);
        }
        match self.board.peek((x, y)) {
            Visibility::Hidden => match self.board.flag((x, y)) {
                Ok(()) => {
                    events.push(GameEvent::CellUpdated(x, y));
                    proof {
                        let i = index_of(b0.w(), x as int, y as int);
                        lemma_consistent_update(&b0, &self.board, i, Visibility::Flagged);
                    }
                },
                Err(crate::state::BoardError::BadFlag) => {
                    events.push(GameEvent::CellUpdated(x, y));
                },
                Err(_) => {},
            },
            Visibility::Flagged => match self.board.undo_flag((x, y)) {
                Ok(()) => {
                    events.push(GameEvent::CellUpdated(x, y));
                    proof {
                        let i = index_of(b0.w(), x as int, y as int);
                        lemma_consistent_update(&b0, &self.board, i, Visibility::Hidden);
                    }
                },
                Err(_) => {},
            },
            Visibility::Revealed => {},
        }
        proof {
            if self.board.cells() == b0.cells() {
                lemma_consistent_same(&b0, &self.board);
            }
        }
    }
}

impl Game {
    /// Flags every hidden mine, telling the front end of every hidden cell.
    fn flag_hidden(&mut self, events: &mut Vec<GameEvent>)
        requires
            old(self).wf(),
        ensures
            played(&*old(self), &*final(self)),
            final(self).revealed == old(self).revealed,
            final(self).board.cells() == flag_hidden_mines(old(self).board.cells()),
            final(events)@ == old(events)@ + hidden_updates(old(self).board.cells(), old(self).board.w()),
            events_extend(old(events)@, final(events)@),
            no_loss_after(final(events)@, old(events)@.len() as int),
    {
        let ghost g0 = *self;
        let ghost s0 = self.board.cells();
        let ghost e0 = events@;
        let ghost w = self.board.w();
        let ghost h = self.board.h();
        let cells = self.board.iter_cells();
        proof {
            lemma_events_same(e0);
        }
        let mut k: usize = 0;
        while k < cells.len()
            invariant
                g0.wf(),
                s0 == g0.board.cells(),
                w == g0.board.w(),
                h == g0.board.h(),
                cells.len() == s0.len(),
                forall|j: int| 0 <= j < cells.len() ==> #[trigger] cells@[j] == ((j % w) as usize, (j / w) as usize),
                k <= cells.len(),
                played(&g0, self),
                self.revealed == g0.revealed,
                forall|j: int| 0 <= j < k ==> #[trigger] self.board.cells()[j] == flag_hidden_mines(s0)[j],
                forall|j: int| k <= j < s0.len() ==> #[trigger] self.board.cells()[j] == s0[j],
                events_extend(e0, events@),
                events@ == e0 + hidden_updates(s0.subrange(0, k as int), w),
                no_loss_after(events@, e0.len() as int),
            decreases cells.len() - k,
        {
            let c = cells[k];
            let ghost ek = events@;
            proof {
                crate::state::grid::lemma_coords_index(w, h, k as int);
                assert(s0.subrange(0, k + 1).drop_last() =~= s0.subrange(0, k as int));
                assert(s0.subrange(0, k + 1).last() == s0[k as int]);
                assert(self.board.cells()[k as int] == s0[k as int]);
            }
            if self.board.peek(c) == Visibility::Hidden {
                let ghost gp = *self;
                let ghost ep = events@;
                self.flag(c.0, c.1, events);
                proof {
                    let i = k as int;
                    lemma_count_vis_update(gp.board.cells(), i, with_vis(gp.board.cells()[i], Visibility::Flagged), Visibility::Revealed);
                    assert(played(&gp, self));
                    lemma_played_trans(&g0, &gp, self);
                    assert(events_extend(ep, events@)) by {
                        assert(events@.subrange(0, ep.len() as int) =~= ep);
                    }
                    lemma_events_extend(e0, ep, events@);
                }
            }
            proof {
                if s0[k as int].visibility == Visibility::Hidden {
                    assert(events@ =~= e0 + hidden_updates(s0.subrange(0, k + 1), w));
                } else {
                    assert(events@ =~= e0 + hidden_updates(s0.subrange(0, k + 1), w));
                }
            }
            k = k + 1;
        }
        assert(self.board.cells() =~= flag_hidden_mines(s0));
        assert(s0.subrange(0, s0.len() as int) =~= s0);
    }

    /// Opens the cell at `(x, y)` and returns its hint. A cell off the board
    /// or a hidden mine loses the game and gives -1; a flagged cell is
    /// ignored and gives -1; an open cell gives its hint and changes nothing.
    /// A hidden cell opened adds one to the running count; once the count
    /// reaches the number of safe cells the game is won and every hidden mine
    /// is flagged. An opened cell with no mine around it is chorded.
    #[verifier::rlimit(40)]
    pub fn open(&mut self, x: usize, y: usize, events: &mut Vec<GameEvent>) -> (r: i8)
        requires
            old(self).wf(),
            old(self).counter_room(x, y),
        ensures
            final(self).wf(),
            events_extend(old(events)@, final(events)@),
            open_fails(&old(self).board, x, y) ==> r == -1 && same_game(&*old(self), &*final(self)) && final(events)@
                == old(events)@.push(GameEvent::GameLost(x, y)),
            opens_flag(&old(self).board, x, y) ==> r == -1 && same_game(&*old(self), &*final(self)) && final(events)@ == old(
                events,
            )@,
            reopens(&old(self).board, x, y) ==> r == cell_of(&old(self).board, x, y).adjacent_mines as i8 && same_game(
                &*old(self),
                &*final(self),
            ) && final(events)@ == old(events)@,
            !open_fails(&old(self).board, x, y) && !opens_flag(&old(self).board, x, y) && !reopens(&old(self).board, x, y)
                ==> ({
                let b0 = old(self).board;
                let c = cell_of(&b0, x, y);
                let mid = opened(&b0, x, y);
                let won = ((old(self).revealed + 1) as usize) == b0.cells().len() - old(self).total_mines;
                &&& r == c.adjacent_mines as i8
                &&& evolves(&b0, &final(self).board)
                &&& final(self).total_mines == old(self).total_mines
                &&& final(self).revealed - old(self).revealed == final(self).shown() - old(self).shown()
                &&& cell_of(&final(self).board, x, y).visibility == Visibility::Revealed
                &&& final(events)@.len() > old(events)@.len()
                &&& final(events)@[old(events)@.len() as int] == GameEvent::CellUpdated(x, y)
                &&& won ==> final(self).board.cells() == flag_hidden_mines(mid) && final(events)@ == old(
                    events,
                )@.push(GameEvent::CellUpdated(x, y)) + hidden_updates(mid, b0.w()).push(GameEvent::GameWon(x, y))
                &&& !won && c.adjacent_mines != 0 ==> final(self).board.cells() == mid && final(events)@ == old(
                    events,
                )@.push(GameEvent::CellUpdated(x, y))
                &&& !won && c.adjacent_mines == 0 && box_count(b0.cells(), b0.w(), b0.h(), x as int, y as int, Visibility::Flagged)
                    == 0 ==> forall|k: int|
                    0 <= k < 9 ==> #[trigger] chord_opened(&b0, &final(self).board, final(events)@, x as int, y as int, k)
            }),
            !open_fails(&old(self).board, x, y) ==> no_loss_after(final(events)@, old(events)@.len() as int),
            0 <= old(self).revealed < old(self).shown() ==> no_new_gaps(
                &old(self).board,
                &final(self).board,
            ),
            0 <= old(self).revealed < old(self).shown() ==> no_new_flags(
                &old(self).board,
                &final(self).board,
            ),
        decreases count_vis(old(self).board.cells(), Visibility::Hidden), open_rank(&old(self).board, x, y),
    {
        let ghost g0 = *self;
        let ghost b0 = self.board;
        let ghost e0 = events@;
        let ghost w = b0.w();
        let ghost h = b0.h();
        if x < self.board.grid.width && y < self.board.grid.height {
            proof {
                lemma_index_coords(w, h, x as int, y as int);
            }
            let vis = self.board.peek((x, y));
            if vis == Visibility::Flagged {
                proof {
                    lemma_events_same(e0);
                }
                return -1;
            }
            if vis == Visibility::Revealed {
                let i = self.board.grid.to_index(x, y);
                let a = self.board.grid.get(i).adjacent_mines;
                proof {
                    lemma_events_same(e0);
                }
                return a as i8;
            }
        }
        match self.board.open((x, y)) {
            Ok(hint) => {
                let ghost i = index_of(w, x as int, y as int);
                proof {
                    lemma_index_coords(w, h, x as int, y as int);
                    let c = b0.cells()[i];
                    if c.visibility == Visibility::Hidden {
                        lemma_consistent_update(&b0, &self.board, i, Visibility::Revealed);
                        lemma_count_vis_update(b0.cells(), i, with_vis(c, Visibility::Revealed), Visibility::Revealed);
                        lemma_count_vis_update(b0.cells(), i, with_vis(c, Visibility::Revealed), Visibility::Hidden);
                    } else {
                        lemma_consistent_same(&b0, &self.board);
                    }
                    assert(self.board.cells() == opened(&b0, x, y));
                    assert(evolves(&b0, &self.board));
                    assert(no_new_flags(&b0, &self.board));
                    lemma_count_mines_le(self.board.cells());
                    lemma_count_revealed_safe(self.board.cells());
                }
                self.revealed = self.revealed + 1;
                events.push(GameEvent::CellUpdated(x, y));
                let ghost g1 = *self;
                let ghost e1 = events@;
                proof {
                    assert(events_extend(e0, e1)) by {
                        assert(e1.subrange(0, e0.len() as int) =~= e0);
                    }
                }
                if (self.revealed as usize) == self.board.len() - self.total_mines {
                    self.flag_hidden(events);
                    let ghost e2 = events@;
                    events.push(GameEvent::GameWon(x, y));
                    proof {
                        lemma_events_extend(e0, e1, e2);
                        assert(events_extend(e2, events@)) by {
                            assert(events@.subrange(0, e2.len() as int) =~= e2);
                        }
                        lemma_events_extend(e0, e2, events@);
                        lemma_events_extend(e1, e2, events@);
                        lemma_evolves_trans(&b0, &g1.board, &self.board);
                        assert(events@.subrange(0, e1.len() as int) == e1);
                        assert(events@.subrange(0, e1.len() as int)[e0.len() as int] == events@[e0.len() as int]);
                        assert(events@.subrange(0, e0.len() as int) =~= events@.subrange(0, e1.len() as int).subrange(0, e0.len() as int));
                        lemma_evolves_counts(&g1.board, &self.board);
                        assert(cell_of(&self.board, x, y) == self.board.cells()[i]);
                        assert(events@ =~= e0.push(GameEvent::CellUpdated(x, y)) + hidden_updates(
                            opened(&b0, x, y),
                            w,
                        ).push(GameEvent::GameWon(x, y)));
                    }
                } else if hint == 0 {
                    proof {
                        lemma_box_flags_same(b0.cells(), g1.board.cells(), w, h, x as int, y as int, 9);
                    }
                    let _ = self.chord(x, y, events);
                    proof {
                        if 0 <= g0.revealed < g0.shown() {
                            lemma_gaps_evolve(&b0, &g1.board);
                            assert forall|i2: int| #[trigger] open_gap(&self.board, i2) implies open_gap(&b0, i2) by {
                                assert(open_gap(&g1.board, i2));
                                if i2 != i {
                                    assert(g1.board.cells()[i2] == b0.cells()[i2]);
                                }
                            }
                            assert(no_new_flags(&g1.board, &self.board));
                            assert forall|i2: int| 0 <= i2 < self.board.cells().len() && (#[trigger] self.board.cells()[i2]).visibility
                                == Visibility::Flagged implies b0.cells()[i2].visibility == Visibility::Flagged by {
                                assert(g1.board.cells()[i2].visibility == Visibility::Flagged);
                            }
                        }
                        lemma_events_extend(e0, e1, events@);
                        lemma_evolves_trans(&b0, &g1.board, &self.board);
                        assert(events@.subrange(0, e1.len() as int)[e0.len() as int] == events@[e0.len() as int]);
                        assert(events@.subrange(0, e0.len() as int) =~= events@.subrange(0, e1.len() as int).subrange(0, e0.len() as int));
                        assert(cell_of(&self.board, x, y) == self.board.cells()[i]);
                        if box_count(b0.cells(), w, h, x as int, y as int, Visibility::Flagged) == 0 {
                            assert forall|k: int| 0 <= k < 9 implies #[trigger] chord_opened(&b0, &self.board, events@, x as int, y as int, k) by {
                                assert(chord_opened(&g1.board, &self.board, events@, x as int, y as int, k));
                                if box_on(w, h, x as int, y as int, k) {
                                    let p = box_pos(x as int, y as int, k);
                                    lemma_index_coords(w, h, p.0, p.1);
                                }
                            }
                        }
                    }
                } else {
                    proof {
                        assert(events@.subrange(0, e0.len() as int) =~= e0);
                        if 0 <= g0.revealed < g0.shown() {
                            lemma_gaps_evolve(&b0, &self.board);
                            assert forall|i2: int| #[trigger] open_gap(&self.board, i2) implies open_gap(&b0, i2) by {
                                if i2 != i {
                                    assert(self.board.cells()[i2] == b0.cells()[i2]);
                                }
                            }
                        }
                    }
                }
                hint as i8
            },
            Err(_) => {
                proof {
                    lemma_consistent_same(&b0, &self.board);
                }
                events.push(GameEvent::GameLost(x, y));
                proof {
                    assert(events@.subrange(0, e0.len() as int) =~= e0);
                }
                -1
            },
        }
    }

    /// Chords the open cell at `(x, y)`: when its hint equals the flags
    /// around it, opens every hidden cell around it; otherwise, when it equals
    /// the cells around it that are not open, flags every one of them. Returns
    /// whether either happened.
    #[verifier::rlimit(40)]
    pub fn chord(&mut self, x: usize, y: usize, events: &mut Vec<GameEvent>) -> (r: bool)
        requires
            old(self).wf(),
            on_board(&old(self).board, x, y),
            old(self).revealed + old(self).hidden() < i64::MAX,
        ensures
            played(&*old(self), &*final(self)),
            events_extend(old(events)@, final(events)@),
            ({
                let b0 = old(self).board;
                let s0 = b0.cells();
                let c = cell_of(&b0, x, y);
                let nf = box_count(s0, b0.w(), b0.h(), x as int, y as int, Visibility::Flagged);
                let nh = box_count(s0, b0.w(), b0.h(), x as int, y as int, Visibility::Hidden);
                &&& r == (c.visibility == Visibility::Revealed && (c.adjacent_mines == nf || c.adjacent_mines == nh + nf))
                &&& !r ==> same_game(&*old(self), &*final(self)) && final(events)@ == old(events)@
                &&& r && c.adjacent_mines == nf ==> forall|k: int|
                    0 <= k < 9 ==> #[trigger] chord_opened(&b0, &final(self).board, final(events)@, x as int, y as int, k)
                &&& r && c.adjacent_mines != nf ==> final(events)@ == old(events)@ + chord_flag_events(&b0, x as int, y as int)
                &&& r && c.adjacent_mines != nf ==> final(self).revealed == old(self).revealed && forall|i: int|
                    0 <= i < s0.len() ==> #[trigger] final(self).board.cells()[i] == (if in_box(b0.w(), x as int, y as int, i)
                        && s0[i].visibility == Visibility::Hidden && s0[i].is_mine {
                        with_vis(s0[i], Visibility::Flagged)
                    } else {
                        s0[i]
                    })
            }),
            no_loss_after(final(events)@, old(events)@.len() as int),
            0 <= old(self).revealed < old(self).shown() ==> no_new_gaps(&old(self).board, &final(self).board),
            cell_of(&old(self).board, x, y).visibility == Visibility::Revealed && cell_of(&old(self).board, x, y).adjacent_mines
                == 0 ==> !open_gap(&final(self).board, index_of(old(self).board.w(), x as int, y as int)),
            0 <= old(self).revealed < old(self).shown() && cell_of(&old(self).board, x, y).adjacent_mines == 0 ==> no_new_flags(
                &old(self).board,
                &final(self).board,
            ),
        decreases count_vis(old(self).board.cells(), Visibility::Hidden), 2int,
    {
        let ghost g0 = *self;
        let ghost b0 = self.board;
        let ghost s0 = b0.cells();
        let ghost e0 = events@;
        let ghost w = b0.w();
        let ghost h = b0.h();
        proof {
            lemma_index_coords(w, h, x as int, y as int);
        }
        let hint = match self.board.get_hint((x, y)) {
            Some(hint) => hint,
            None => {
                proof {
                    lemma_events_same(e0);
                }
                return false;
            },
        };
        let ix = x as isize;
        let iy = y as isize;
        let region = self.board.get_region((ix - 1, iy - 1), (ix + 1, iy + 1));
        proof {
            let nx = if (ix + 1) + 1 > ix - 1 { (ix + 1) + 1 - (ix - 1) } else { 0 };
            let ny = if (iy + 1) + 1 > iy - 1 { (iy + 1) + 1 - (iy - 1) } else { 0 };
            assert(nx == 3 && ny == 3);
            assert(nx * ny == 9) by (nonlinear_arith)
                requires
                    nx == 3 && ny == 3,
            ;
            assert(region.len() == 9);
            lemma_events_same(e0);
        }
        let mut neighbours: Vec<(usize, usize)> = Vec::new();
        let mut num_flagged: usize = 0;
        let mut k: usize = 0;
        while k < region.len()
            invariant
                self.board == b0,
                s0 == b0.cells(),
                w == b0.w(),
                h == b0.h(),
                b0.wf(),
                region.len() == 9,
                forall|j: int| 0 <= j < 9 ==> #[trigger] region@[j] == crate::state::grid::cell_opt(w, h, x - 1 + j % 3, y - 1 + j / 3),
                k <= 9,
                num_flagged <= k,
                neighbours.len() <= k,
                num_flagged <= neighbours.len(),
                num_flagged == box_count_upto(s0, w, h, x as int, y as int, Visibility::Flagged, k as int),
                neighbours@ == unopened_upto(s0, w, h, x as int, y as int, k as int),
                neighbours.len() == box_count_upto(s0, w, h, x as int, y as int, Visibility::Hidden, k as int) + box_count_upto(
                    s0,
                    w,
                    h,
                    x as int,
                    y as int,
                    Visibility::Flagged,
                    k as int,
                ),
                forall|q: int| 0 <= q < neighbours.len() ==> #[trigger] nbr_ok(s0, w, h, x as int, y as int, neighbours@[q]),
                forall|j: int|
                    0 <= j < k && #[trigger] box_on(w, h, x as int, y as int, j) && s0[box_index(w, x as int, y as int, j)].visibility
                        != Visibility::Revealed ==> neighbours@.contains(
                        ((x - 1 + j % 3) as usize, (y - 1 + j / 3) as usize),
                    ),
            decreases 9 - k,
        {
            let ghost nb0 = neighbours@;
            match region[k] {
                Some(c) => {
                    proof {
                        lemma_index_coords(w, h, c.0 as int, c.1 as int);
                    }
                    let v = self.board.peek(c);
                    if v != Visibility::Revealed {
                        neighbours.push(c);
                        if v == Visibility::Flagged {
                            num_flagged = num_flagged + 1;
                        }
                    }
                },
                None => {},
            }
            proof {
                let p = box_pos(x as int, y as int, k as int);
                if box_on(w, h, x as int, y as int, k as int) {
                    lemma_index_coords(w, h, p.0, p.1);
                    assert(region@[k as int] == Some((p.0 as usize, p.1 as usize)));
                    if s0[box_index(w, x as int, y as int, k as int)].visibility != Visibility::Revealed {
                        assert(neighbours@ =~= nb0.push((p.0 as usize, p.1 as usize)));
                    } else {
                        assert(neighbours@ =~= nb0);
                    }
                } else {
                    assert(region@[k as int] is None);
                    assert(neighbours@ =~= nb0);
                }
                assert(neighbours@ == unopened_upto(s0, w, h, x as int, y as int, k + 1));
                assert forall|j: int|
                    0 <= j < k + 1 && #[trigger] box_on(w, h, x as int, y as int, j) && s0[box_index(w, x as int, y as int, j)].visibility
                        != Visibility::Revealed implies neighbours@.contains(
                    ((x - 1 + j % 3) as usize, (y - 1 + j / 3) as usize),
                ) by {
                    if j == k {
                        assert(neighbours@[neighbours@.len() - 1] == ((x - 1 + j % 3) as usize, (y - 1 + j / 3) as usize));
                    } else {
                        let e = ((x - 1 + j % 3) as usize, (y - 1 + j / 3) as usize);
                        assert(nb0.contains(e));
                        let q = choose|q: int| 0 <= q < nb0.len() && nb0[q] == e;
                        assert(neighbours@[q] == e);
                    }
                }
            }
            k = k + 1;
        }
        proof {
            if hint == 0 {
                lemma_zero_no_flags(&b0, x as int, y as int);
            }
        }
        if hint == num_flagged {
            let mut j: usize = 0;
            while j < neighbours.len()
                invariant
                    g0.wf(),
                    b0 == g0.board,
                    s0 == b0.cells(),
                    w == b0.w(),
                    h == b0.h(),
                    g0.board == old(self).board,
                    played(&g0, self),
                    0 <= g0.revealed < g0.shown() && cell_of(&b0, x, y).adjacent_mines == 0 ==> no_new_flags(&b0, &self.board),
                    0 <= g0.revealed < g0.shown() ==> no_new_gaps(&b0, &self.board),
                    self.revealed + self.hidden() <= g0.revealed + g0.hidden(),
                    self.hidden() <= g0.hidden(),
                    g0.revealed + g0.hidden() < i64::MAX,
                    j <= neighbours.len(),
                    forall|q: int| 0 <= q < neighbours.len() ==> #[trigger] nbr_ok(s0, w, h, x as int, y as int, neighbours@[q]),
                    forall|q: int| 0 <= q < j ==> #[trigger] nbr_done(&b0, &self.board, events@, neighbours@[q]),
                    events_extend(e0, events@),
                    no_loss_after(events@, e0.len() as int),
                    on_board(&b0, x, y),
                    hint == cell_of(&b0, x, y).adjacent_mines,
                    cell_of(&b0, x, y).visibility == Visibility::Revealed,
                    hint == box_count(s0, w, h, x as int, y as int, Visibility::Flagged),
                decreases neighbours.len() - j,
            {
                let c = neighbours[j];
                proof {
                    assert(nbr_ok(s0, w, h, x as int, y as int, neighbours@[j as int]));
                    lemma_index_coords(w, h, c.0 as int, c.1 as int);
                }
                let ghost gp = *self;
                let ghost ep = events@;
                if self.board.peek(c) == Visibility::Hidden {
                    proof {
                        lemma_count_vis_mono(b0.cells(), gp.board.cells(), Visibility::Revealed);
                        let ic = index_of(w, c.0 as int, c.1 as int);
                        lemma_flags_cover_mines(&b0, x as int, y as int);
                        lemma_box_slot(w, h, x as int, y as int, ic);
                        let kc = (ic / w - y + 1) * 3 + (ic % w - x + 1);
                        assert(box_on(w, h, x as int, y as int, kc));
                        assert(gp.board.cells()[ic] == gp.board.cells()[ic]);
                        assert(!s0[ic].is_mine);
                    }
                    let _ = self.open(c.0, c.1, events);
                    proof {
                        assert forall|jj: int| e0.len() <= jj < events@.len() implies !(#[trigger] events@[jj] is GameLost) by {
                            if jj < ep.len() {
                                assert(events@.subrange(0, ep.len() as int)[jj] == events@[jj]);
                            }
                        }
                        if 0 <= g0.revealed < g0.shown() {
                            assert forall|i2: int| #[trigger] open_gap(&self.board, i2) implies open_gap(&b0, i2) by {
                                assert(open_gap(&gp.board, i2));
                            }
                        }
                        if 0 <= g0.revealed < g0.shown() && cell_of(&b0, x, y).adjacent_mines == 0 {
                            assert forall|i2: int| 0 <= i2 < self.board.cells().len() && (#[trigger] self.board.cells()[i2]).visibility
                                == Visibility::Flagged implies b0.cells()[i2].visibility == Visibility::Flagged by {
                                assert(gp.board.cells()[i2].visibility == Visibility::Flagged);
                            }
                        }
                        if open_fails(&gp.board, c.0, c.1) {
                            lemma_consistent_same(&gp.board, &self.board);
                            assert(events@.subrange(0, ep.len() as int) =~= ep);
                        }
                        assert(played(&gp, self));
                        lemma_played_trans(&g0, &gp, self);
                        lemma_played_room(&g0, self);
                        lemma_events_extend(e0, ep, events@);
                    }
                }
                proof {
                    assert forall|q: int| 0 <= q < j + 1 implies #[trigger] nbr_done(&b0, &self.board, events@, neighbours@[q]) by {
                        let cq = neighbours@[q];
                        assert(nbr_ok(s0, w, h, x as int, y as int, cq));
                        lemma_index_coords(w, h, cq.0 as int, cq.1 as int);
                        let iq = index_of(w, cq.0 as int, cq.1 as int);
                        assert(self.board.cells()[iq] == self.board.cells()[iq]);
                        assert(gp.board.cells()[iq] == gp.board.cells()[iq]);
                        if q < j {
                            assert(nbr_done(&b0, &gp.board, ep, cq));
                        }
                    }
                }
                j = j + 1;
            }
            proof {
                assert forall|kk: int| 0 <= kk < 9 implies #[trigger] chord_opened(&b0, &self.board, events@, x as int, y as int, kk) by {
                    if box_on(w, h, x as int, y as int, kk) {
                        let i = box_index(w, x as int, y as int, kk);
                        let p = box_pos(x as int, y as int, kk);
                        lemma_index_coords(w, h, p.0, p.1);
                        if s0[i].visibility == Visibility::Hidden {
                            let e = (p.0 as usize, p.1 as usize);
                            assert(neighbours@.contains(e));
                            let q = choose|q: int| 0 <= q < neighbours.len() && neighbours@[q] == e;
                            assert(nbr_done(&b0, &self.board, events@, neighbours@[q]));
                        }
                    }
                }
                if hint == 0 {
                    let ixy = index_of(w, x as int, y as int);
                    assert forall|k: int|
                        0 <= k < 9 && #[trigger] box_on(self.board.w(), self.board.h(), ixy % self.board.w(), ixy / self.board.w(), k)
                            && !self.board.cells()[box_index(self.board.w(), ixy % self.board.w(), ixy / self.board.w(), k)].is_mine
                            implies self.board.cells()[box_index(self.board.w(), ixy % self.board.w(), ixy / self.board.w(), k)].visibility
                            == Visibility::Revealed by {
                        assert(chord_opened(&b0, &self.board, events@, x as int, y as int, k));
                        let p = box_pos(x as int, y as int, k);
                        lemma_index_coords(w, h, p.0, p.1);
                        let j = box_index(w, x as int, y as int, k);
                        assert(b0.cells()[j] == b0.cells()[j]);
                        assert(self.board.cells()[j] == self.board.cells()[j]);
                    }
                    assert(safe_around_open(&self.board, ixy));
                }
            }
            true
        } else if hint == neighbours.len() {
            proof {
                lemma_unopened_upto(s0, w, h, x as int, y as int, 9);
                assert(events@ == e0);
                assert(updates_for_hidden(s0, w, neighbours@.subrange(0, 0)) =~= Seq::<GameEvent>::empty());
                assert(events@ =~= e0 + updates_for_hidden(s0, w, neighbours@.subrange(0, 0)));
            }
            let mut j: usize = 0;
            while j < neighbours.len()
                invariant
                    g0.wf(),
                    b0 == g0.board,
                    s0 == b0.cells(),
                    w == b0.w(),
                    h == b0.h(),
                    played(&g0, self),
                    self.revealed == g0.revealed,
                    j <= neighbours.len(),
                    w <= usize::MAX,
                    h <= usize::MAX,
                    neighbours@ == unopened_upto(s0, w, h, x as int, y as int, 9),
                    events@ == e0 + updates_for_hidden(s0, w, neighbours@.subrange(0, j as int)),
                    forall|q: int|
                        j <= q < neighbours.len() ==> {
                            let iq = index_of(w, (#[trigger] neighbours@[q]).0 as int, neighbours@[q].1 as int);
                            self.board.cells()[iq] == s0[iq]
                        },
                    forall|q: int| 0 <= q < neighbours.len() ==> #[trigger] nbr_ok(s0, w, h, x as int, y as int, neighbours@[q]),
                    forall|i: int|
                        0 <= i < s0.len() && !in_box(w, x as int, y as int, i) ==> #[trigger] self.board.cells()[i] == s0[i],
                    forall|i: int|
                        0 <= i < s0.len() ==> #[trigger] self.board.cells()[i] == s0[i] || (s0[i].visibility == Visibility::Hidden
                            && s0[i].is_mine && self.board.cells()[i] == with_vis(s0[i], Visibility::Flagged)),
                    forall|q: int|
                        0 <= q < j ==> {
                            let i = index_of(w, (#[trigger] neighbours@[q]).0 as int, neighbours@[q].1 as int);
                            s0[i].visibility == Visibility::Hidden && s0[i].is_mine ==> self.board.cells()[i].visibility
                                == Visibility::Flagged
                        },
                    events_extend(e0, events@),
                    no_loss_after(events@, e0.len() as int),
                decreases neighbours.len() - j,
            {
                let c = neighbours[j];
                let ghost ic = index_of(w, c.0 as int, c.1 as int);
                proof {
                    assert(nbr_ok(s0, w, h, x as int, y as int, neighbours@[j as int]));
                    lemma_index_coords(w, h, c.0 as int, c.1 as int);
                    crate::state::grid::lemma_coords_index(w, h, ic);
                }
                let ghost gp = *self;
                let ghost ep = events@;
                if self.board.peek(c) != Visibility::Flagged {
                    self.flag(c.0, c.1, events);
                    proof {
                        assert(gp.board.cells()[ic] == s0[ic]);
                        lemma_count_vis_update(gp.board.cells(), ic, with_vis(gp.board.cells()[ic], Visibility::Flagged), Visibility::Revealed);
                        assert(played(&gp, self));
                        lemma_played_trans(&g0, &gp, self);
                        assert(events_extend(ep, events@)) by {
                            assert(events@.subrange(0, ep.len() as int) =~= ep);
                        }
                        lemma_events_extend(e0, ep, events@);
                    }
                }
                proof {
                    assert forall|q: int| 0 <= q < j + 1 implies {
                        let i = index_of(w, (#[trigger] neighbours@[q]).0 as int, neighbours@[q].1 as int);
                        s0[i].visibility == Visibility::Hidden && s0[i].is_mine ==> self.board.cells()[i].visibility
                            == Visibility::Flagged
                    } by {
                        let cq = neighbours@[q];
                        assert(nbr_ok(s0, w, h, x as int, y as int, cq));
                        lemma_index_coords(w, h, cq.0 as int, cq.1 as int);
                        let iq = index_of(w, cq.0 as int, cq.1 as int);
                        assert(self.board.cells()[iq] == self.board.cells()[iq]);
                        assert(gp.board.cells()[iq] == gp.board.cells()[iq]);
                        assert(gp.board.cells()[ic] == gp.board.cells()[ic]);
                        assert(s0[ic] == s0[ic]);
                    }
                    lemma_unopened_upto(s0, w, h, x as int, y as int, 9);
                    let sub0 = neighbours@.subrange(0, j as int);
                    let sub1 = neighbours@.subrange(0, j + 1);
                    assert(sub1.drop_last() =~= sub0);
                    assert(sub1.last() == c);
                    assert(gp.board.cells()[ic] == s0[ic]);
                    if s0[ic].visibility == Visibility::Hidden {
                        assert(events@ =~= e0 + updates_for_hidden(s0, w, sub1));
                    } else {
                        assert(events@ =~= e0 + updates_for_hidden(s0, w, sub1));
                    }
                    assert forall|q: int| j + 1 <= q < neighbours.len() implies {
                        let iq = index_of(w, (#[trigger] neighbours@[q]).0 as int, neighbours@[q].1 as int);
                        self.board.cells()[iq] == s0[iq]
                    } by {
                        let cq = neighbours@[q];
                        lemma_index_coords(w, h, cq.0 as int, cq.1 as int);
                        let iq = index_of(w, cq.0 as int, cq.1 as int);
                        assert(slot_of(neighbours@[j as int], x as int, y as int) < slot_of(cq, x as int, y as int));
                        assert(iq != ic);
                        assert(gp.board.cells()[iq] == s0[iq]);
                    }
                    assert forall|i: int| 0 <= i < s0.len() && !in_box(w, x as int, y as int, i) implies #[trigger] self.board.cells()[i] == s0[i] by {
                        assert(gp.board.cells()[i] == s0[i]);
                    }
                    assert forall|i: int| 0 <= i < s0.len() implies #[trigger] self.board.cells()[i] == s0[i] || (s0[i].visibility == Visibility::Hidden
                        && s0[i].is_mine && self.board.cells()[i] == with_vis(s0[i], Visibility::Flagged)) by {
                        assert(gp.board.cells()[i] == gp.board.cells()[i]);
                    }
                }
                j = j + 1;
            }
            proof {
                assert forall|i: int| 0 <= i < s0.len() implies #[trigger] self.board.cells()[i] == (if in_box(w, x as int, y as int, i)
                    && s0[i].visibility == Visibility::Hidden && s0[i].is_mine {
                    with_vis(s0[i], Visibility::Flagged)
                } else {
                    s0[i]
                }) by {
                    if in_box(w, x as int, y as int, i) && s0[i].visibility == Visibility::Hidden && s0[i].is_mine {
                        lemma_box_slot(w, h, x as int, y as int, i);
                        let kk = (i / w - y + 1) * 3 + (i % w - x + 1);
                        assert(box_on(w, h, x as int, y as int, kk));
                        let e = ((x - 1 + kk % 3) as usize, (y - 1 + kk / 3) as usize);
                        assert(neighbours@.contains(e));
                        let q = choose|q: int| 0 <= q < neighbours.len() && neighbours@[q] == e;
                        assert(neighbours@[q] == e);
                    }
                }
                assert(neighbours@.subrange(0, neighbours.len() as int) =~= neighbours@);
                lemma_gaps_evolve(&b0, &self.board);
                assert forall|i2: int| #[trigger] open_gap(&self.board, i2) implies open_gap(&b0, i2) by {
                    assert(self.board.cells()[i2] == self.board.cells()[i2]);
                }
            }
            true
        } else {
            false
        }
    }
}

impl Game {
    /// Starts a game: generates a board of `width` by `height` cells with
    /// `num_mines` mines from `seed`, perturbed until it can be solved without
    /// guessing from `start`, covers it again but for the safe area around
    /// `start`, and chords every open cell with no mine around it. The running
    /// count is then the number of open cells. `Err` when the generator gives
    /// up, which it never does on a board without mines.
    #[verifier::rlimit(40)]
    pub fn from_params(seed: u64, width: usize, height: usize, num_mines: usize, start: (usize, usize)) -> (r: Result<
        Game,
        (),
    >)
        requires
            start.0 < width && start.1 < height,
            width < isize::MAX,
            height < isize::MAX,
            width * height <= usize::MAX,
            width * height < i64::MAX,
            num_mines + crate::state::grid::safe_count(width as int, start) <= width * height,
        ensures
            r matches Ok(g) ==> {
                &&& g.wf()
                &&& gen_ok(&g.board, start)
                &&& g.board.grid.width == width
                &&& g.board.grid.height == height
                &&& g.total_mines == num_mines
                &&& g.revealed == g.shown()
                &&& forall|i: int| 0 <= i < g.board.cells().len() ==> (#[trigger] g.board.cells()[i]).visibility != Visibility::Flagged
                &&& forall|i: int| !#[trigger] open_gap(&g.board, i)
                &&& exists|b0: Board, b1: Board|
                    opening(&b0, start) && evolves(&b0, &g.board) && evolves(&b0, &b1) && #[trigger] deduced(
                        &b0,
                        &b1,
                        num_mines as int,
                    ) && count_vis(b1.cells(), Visibility::Hidden) == 0
                &&& exists|t: Seq<Board>, b1: Board|
                    #![trigger generation_run(t, start, num_mines as int, 15), deduced(&t.last(), &b1, num_mines as int)]
                    generation_run(t, start, num_mines as int, 15) && opening(&t[0], start) && t.len() <= 501 && evolves(
                        &t.last(),
                        &g.board,
                    ) && evolves(&t.last(), &b1) && deduced(&t.last(), &b1, num_mines as int) && count_vis(
                        b1.cells(),
                        Visibility::Hidden,
                    ) == 0
            },
            r is Err ==> exists|t: Seq<Board>|
                #[trigger] generation_run(t, start, num_mines as int, 15) && opening(&t[0], start) && t.len() == 501,
            num_mines == 0 ==> r is Ok,
    {
        let mut rng = seeded_xoshiro(seed);
        let board = Board::new_random(width, height, start, &mut rng, num_mines);
        let ghost b_rand = board;
        let mut generator = crate::generator::Solver::init(board, num_mines);
        let res = generator.solve_generate(start, &mut rng);
        proof {
            assert(opening(&b_rand, start));
        }
        let ghost t = choose|t: Seq<Board>|
            #[trigger] generation_run(t, start, num_mines as int, 15) && t[0] == b_rand && evolves(&t.last(), &generator.board_view())
                && deduced(&t.last(), &generator.board_view(), num_mines as int) && t.len() <= 501 && (res is Err ==> t.len()
                == 501);
        proof {
            lemma_run_openings(t, start, num_mines as int, 15);
            assert(opening(&t[t.len() - 1], start));
        }
        if res.is_err() {
            return Err(());
        }
        let mut board = generator.into_board();
        let ghost solved = board;
        let ghost b0 = t.last();
        proof {
            assert(opening(&b0, start));
        }
        board.reset(start);
        proof {
            lemma_gen_ok_reset(&solved, &board, start);
        }
        let total_mines = board.num_mines;
        let mut game = Game { board, total_mines, revealed: 0 };
        let ghost g_reset = game;
        let ghost w = game.board.w();
        let ghost h = game.board.h();
        proof {
            assert forall|i: int| 0 <= i < game.board.cells().len() implies (#[trigger] game.board.cells()[i]).visibility
                != Visibility::Flagged by {
                assert(game.board.cells()[i] == game.board.cells()[i]);
            }
            lemma_count_vis_total(g_reset.board.cells());
        }
        let cells = game.board.iter_cells();
        let mut events: Vec<GameEvent> = Vec::new();
        let mut k: usize = 0;
        while k < cells.len()
            invariant
                w == g_reset.board.w(),
                h == g_reset.board.h(),
                w == width,
                h == height,
                w * h < i64::MAX,
                gen_ok(&g_reset.board, start),
                g_reset.wf(),
                g_reset.revealed == 0,
                g_reset.total_mines == num_mines,
                cells.len() == g_reset.board.cells().len(),
                forall|j: int| 0 <= j < cells.len() ==> #[trigger] cells@[j] == ((j % w) as usize, (j / w) as usize),
                k <= cells.len(),
                played(&g_reset, &game),
                forall|i: int| 0 <= i < game.board.cells().len() ==> (#[trigger] game.board.cells()[i]).visibility != Visibility::Flagged,
                g_reset.shown() >= 1 || game.board.cells() == g_reset.board.cells(),
                forall|i: int| #[trigger] open_gap(&game.board, i) ==> i >= k,
            decreases cells.len() - k,
        {
            let c = cells[k];
            proof {
                crate::state::grid::lemma_coords_index(w, h, k as int);
                lemma_evolves_counts(&g_reset.board, &game.board);
                lemma_count_vis_total(game.board.cells());
                lemma_count_vis_mono(g_reset.board.cells(), game.board.cells(), Visibility::Revealed);
            }
            let ghost gp = game;
            if game.board.peek(c) == Visibility::Revealed {
                match game.board.get_hint(c) {
                    Some(hint) => {
                        if hint == 0 {
                            proof {
                                if game.board.cells() == g_reset.board.cells() {
                                    lemma_count_vis_pos(g_reset.board.cells(), k as int, Visibility::Revealed);
                                }
                                lemma_box_no_flags(game.board.cells(), w, h, c.0 as int, c.1 as int, 9);
                            }
                            let _ = game.chord(c.0, c.1, &mut events);
                            proof {
                                lemma_played_trans(&g_reset, &gp, &game);
                                assert forall|i: int| 0 <= i < game.board.cells().len() implies (#[trigger] game.board.cells()[i]).visibility
                                    != Visibility::Flagged by {
                                    assert(gp.board.cells()[i].visibility != Visibility::Flagged);
                                }
                                assert(!open_gap(&game.board, k as int));
                            }
                        }
                    },
                    None => {},
                }
            }
            proof {
                assert forall|i: int| #[trigger] open_gap(&game.board, i) implies i >= k + 1 by {
                    assert(open_gap(&gp.board, i));
                    assert(gp.board.cells()[k as int] == gp.board.cells()[k as int]);
                }
            }
            k = k + 1;
        }
        proof {
            lemma_gen_ok_evolves(&g_reset.board, &game.board, start);
            lemma_count_vis_total(game.board.cells());
            assert forall|i: int| 0 <= i < b0.cells().len() implies {
                &&& (#[trigger] g_reset.board.cells()[i]).is_mine == b0.cells()[i].is_mine
                &&& g_reset.board.cells()[i].adjacent_mines == b0.cells()[i].adjacent_mines
                &&& b0.cells()[i].visibility != Visibility::Hidden ==> g_reset.board.cells()[i].visibility == b0.cells()[i].visibility
            } by {
                assert(solved.cells()[i] == solved.cells()[i]);
                assert(b0.cells()[i] == b0.cells()[i]);
            }
            assert(evolves(&b0, &g_reset.board));
            lemma_evolves_trans(&b0, &g_reset.board, &game.board);
            assert(evolves(&t.last(), &game.board));
            assert(evolves(&t.last(), &solved) && deduced(&t.last(), &solved, num_mines as int));
        }
        game.revealed = game.board.count_cells(Visibility::Revealed) as i64;
        Ok(game)
    }
}

impl Game {
    /// Whether the running count has room for opening `(x, y)`.
    pub fn can_open(&self, x: usize, y: usize) -> (r: bool)
        requires
            self.wf(),
        ensures
            r == self.counter_room(x, y),
    {
        let hidden = self.board.count_cells(Visibility::Hidden);
        (self.revealed as i128) + (hidden as i128) < (i64::MAX as i128)
    }

    /// Whether the running count has room for chording.
    pub fn can_chord(&self) -> (r: bool)
        requires
            self.wf(),
        ensures
            r == (self.revealed + self.hidden() < i64::MAX),
    {
        let hidden = self.board.count_cells(Visibility::Hidden);
        (self.revealed as i128) + (hidden as i128) < (i64::MAX as i128)
    }
}

} // verus!
