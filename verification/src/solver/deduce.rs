//! The layouts of mines that fit what a board shows, and the moves that all
//! of them force. The solver's constraints and moves are stated over every
//! such layout, so that they follow from what can be seen and never from
//! where the mines happen to lie.
use vstd::prelude::*;
use crate::state::{Cell, Visibility};
use crate::state::grid::{Board, count_mines, count_vis, adj_mine_count, with_vis, lemma_adj_same_mines};
use super::{Constraint, popcount9, cell_at, hidden_around, flags_around};
use super::sets::{
    cset, mset, covers_in_grid, lemma_cset, lemma_cset_same, lemma_mset_same_mines, lemma_mset_bounds, lemma_wing,
    lemma_hint_split, lemma_mset_around, lemma_slots_upto, hidden_mine, vis_set, mine_set, lemma_vis_set,
    lemma_mine_set, mine_pred, lemma_hidden_mines, lemma_outside, uset, sum_mines, sum_cells, pairwise_disjoint,
};
use super::st::evolves;

verus! {

/// `l` is a layout of `n` mines that fits what `b` shows: its cells are
/// hidden, flagged and revealed as those of `b`, no revealed cell is a mine,
/// every flagged cell is one, and each revealed hint counts the mines of `l`
/// around it.
pub open spec fn possible_layout(l: Seq<Cell>, b: &Board, n: int) -> bool {
    &&& l.len() == b.cells().len()
    &&& count_mines(l) == n
    &&& forall|i: int|
        0 <= i < l.len() ==> {
            &&& (#[trigger] l[i]).visibility == b.cells()[i].visibility
            &&& l[i].visibility == Visibility::Revealed ==> !l[i].is_mine && b.cells()[i].adjacent_mines
                == adj_mine_count(l, b.w(), b.h(), i % b.w(), i / b.w())
            &&& l[i].visibility == Visibility::Flagged ==> l[i].is_mine
        }
}

/// The constraint follows from what `b` shows: in every layout of `n` mines
/// that fits, its cells hold its number of mines.
#[verifier::opaque]
pub open spec fn known(c: Constraint, b: &Board, n: int) -> bool {
    forall|l: Seq<Cell>| #[trigger] possible_layout(l, b, n) ==> c.mines == mset(c, l, b.w()).len()
}

/// Making cell `i` `v` is forced by what `b` shows: in every layout of `n`
/// mines that fits, the cell is a mine exactly when `v` flags it.
#[verifier::opaque]
pub open spec fn forced(b: &Board, n: int, i: int, v: Visibility) -> bool {
    forall|l: Seq<Cell>| #[trigger] possible_layout(l, b, n) ==> (l[i].is_mine <==> v == Visibility::Flagged)
}

/// `b1` is `b0` with its hidden cell `i` made `v`, a forced move.
pub open spec fn forced_move(b0: &Board, b1: &Board, n: int, i: int, v: Visibility) -> bool {
    &&& 0 <= i < b0.cells().len()
    &&& b0.cells()[i].visibility == Visibility::Hidden
    &&& v != Visibility::Hidden
    &&& forced(b0, n, i, v)
    &&& b1.grid.width == b0.grid.width
    &&& b1.grid.height == b0.grid.height
    &&& b1.num_mines == b0.num_mines
    &&& b1.cells() == b0.cells().update(i, with_vis(b0.cells()[i], v))
}

/// `b1` follows `b0` by one forced move.
pub open spec fn forced_step(b0: &Board, b1: &Board, n: int) -> bool {
    exists|i: int, v: Visibility| #[trigger] forced_move(b0, b1, n, i, v)
}

/// The board after position `k` of `t` follows it by a forced move.
pub open spec fn step_at(t: Seq<Board>, k: int, n: int) -> bool {
    forced_step(&t[k], &t[k + 1], n)
}

/// The boards of `t` follow one another by forced moves.
pub open spec fn forced_run(t: Seq<Board>, n: int) -> bool {
    &&& t.len() > 0
    &&& forall|k: int| 0 <= k < t.len() - 1 ==> #[trigger] step_at(t, k, n)
}

/// `b1` is reached from `b0` by forced moves alone: no move is a guess.
pub open spec fn deduced(b0: &Board, b1: &Board, n: int) -> bool {
    exists|t: Seq<Board>| #[trigger] forced_run(t, n) && t[0] == *b0 && t.last() == *b1
}

pub proof fn lemma_deduced_refl(b: &Board, n: int)
    ensures
        deduced(b, b, n),
{
    let t = seq![*b];
    assert(forced_run(t, n));
    assert(t[0] == *b && t.last() == *b);
}

pub proof fn lemma_deduced_move(b0: &Board, b1: &Board, n: int, i: int, v: Visibility)
    requires
        forced_move(b0, b1, n, i, v),
    ensures
        deduced(b0, b1, n),
{
    let t = seq![*b0, *b1];
    assert(forced_move(&t[0], &t[1], n, i, v));
    assert(step_at(t, 0, n));
    assert(forced_run(t, n));
    assert(t[0] == *b0 && t.last() == *b1);
}

pub proof fn lemma_deduced_trans(b0: &Board, b1: &Board, b2: &Board, n: int)
    requires
        deduced(b0, b1, n),
        deduced(b1, b2, n),
    ensures
        deduced(b0, b2, n),
{
    let t1 = choose|t: Seq<Board>| #[trigger] forced_run(t, n) && t[0] == *b0 && t.last() == *b1;
    let t2 = choose|t: Seq<Board>| #[trigger] forced_run(t, n) && t[0] == *b1 && t.last() == *b2;
    let m = t1.len();
    let t = t1 + t2.subrange(1, t2.len() as int);
    assert forall|k: int| 0 <= k < t.len() - 1 implies #[trigger] step_at(t, k, n) by {
        if k < m - 1 {
            assert(step_at(t1, k, n));
            assert(t[k] == t1[k] && t[k + 1] == t1[k + 1]);
        } else {
            let k2 = k - m + 1;
            assert(step_at(t2, k2, n));
            assert(t[k] == t2[k2]);
            assert(t[k + 1] == t2[k2 + 1]);
        }
    }
    assert(forced_run(t, n));
    assert(t[0] == *b0);
    assert(t.last() == *b2);
}

/// The board itself is a layout that fits what it shows.
pub proof fn lemma_actual_possible(b: &Board, n: int)
    requires
        b.hints_consistent(),
        b.visibility_consistent(),
        n == count_mines(b.cells()),
    ensures
        possible_layout(b.cells(), b, n),
{
    assert forall|i: int| 0 <= i < b.cells().len() implies {
        &&& (#[trigger] b.cells()[i]).visibility == b.cells()[i].visibility
        &&& b.cells()[i].visibility == Visibility::Revealed ==> !b.cells()[i].is_mine && b.cells()[i].adjacent_mines
            == adj_mine_count(b.cells(), b.w(), b.h(), i % b.w(), i / b.w())
        &&& b.cells()[i].visibility == Visibility::Flagged ==> b.cells()[i].is_mine
    } by {
        assert(b.hint_ok(i));
    }
}

/// The mines of `l` with the cells shown as `b` shows them.
pub open spec fn relayout(l: Seq<Cell>, b: &Board) -> Seq<Cell> {
    Seq::new(l.len(), |j: int| with_vis(l[j], b.cells()[j].visibility))
}

proof fn lemma_count_mines_same(s: Seq<Cell>, t: Seq<Cell>)
    requires
        s.len() == t.len(),
        forall|i: int| 0 <= i < s.len() ==> (#[trigger] s[i]).is_mine == t[i].is_mine,
    ensures
        count_mines(s) == count_mines(t),
{
    lemma_mine_set(s);
    lemma_mine_set(t);
    assert(mine_set(s) =~= mine_set(t));
}

proof fn lemma_count_vis_same(s: Seq<Cell>, t: Seq<Cell>, v: Visibility)
    requires
        s.len() == t.len(),
        forall|i: int| 0 <= i < s.len() ==> (#[trigger] s[i]).visibility == t[i].visibility,
    ensures
        count_vis(s, v) == count_vis(t, v),
        vis_set(s, v) == vis_set(t, v),
{
    lemma_vis_set(s, v);
    lemma_vis_set(t, v);
    assert(vis_set(s, v) =~= vis_set(t, v));
}

/// A layout that fits a later board, shown as the earlier board shows it,
/// fits the earlier board: uncovering cells only rules layouts out.
pub proof fn lemma_possible_back(l: Seq<Cell>, b0: &Board, b1: &Board, n: int)
    requires
        evolves(b0, b1),
        possible_layout(l, b1, n),
    ensures
        possible_layout(relayout(l, b0), b0, n),
        relayout(l, b0).len() == l.len(),
        forall|j: int| 0 <= j < l.len() ==> (#[trigger] relayout(l, b0)[j]).is_mine == l[j].is_mine,
{
    let l0 = relayout(l, b0);
    let w = b0.w();
    let h = b0.h();
    lemma_count_mines_same(l0, l);
    assert forall|i: int| 0 <= i < l0.len() implies {
        &&& (#[trigger] l0[i]).visibility == b0.cells()[i].visibility
        &&& l0[i].visibility == Visibility::Revealed ==> !l0[i].is_mine && b0.cells()[i].adjacent_mines
            == adj_mine_count(l0, b0.w(), b0.h(), i % b0.w(), i / b0.w())
        &&& l0[i].visibility == Visibility::Flagged ==> l0[i].is_mine
    } by {
        assert(b1.cells()[i] == b1.cells()[i]);
        assert(l[i].visibility == b1.cells()[i].visibility);
        if b0.cells()[i].visibility == Visibility::Revealed {
            assert(0 < w) by {
                if w <= 0 {
                    assert(b1.cells().len() == w * h);
                    assert(w * h <= 0) by (nonlinear_arith)
                        requires
                            w <= 0,
                            h >= 0,
                    ;
                }
            }
            lemma_adj_same_mines(l0, l, w, h, i % w, i / w);
        }
    }
}

/// A constraint known from a board stays known as cells are uncovered.
pub proof fn lemma_known_evolves(c: Constraint, b0: &Board, b1: &Board, n: int)
    requires
        evolves(b0, b1),
        0 < b0.w(),
        c.mask_ok(),
        covers_in_grid(c, b0.w(), b0.h()),
        known(c, b0, n),
    ensures
        known(c, b1, n),
{
    let w = b0.w();
    let h = b0.h();
    assert(b1.cells().len() == w * h);
    lemma_cset(c, w, h);
    assert forall|l: Seq<Cell>| #[trigger] possible_layout(l, b1, n) implies c.mines == mset(c, l, b1.w()).len() by {
        reveal(known);
        lemma_possible_back(l, b0, b1, n);
        let l0 = relayout(l, b0);
        assert(possible_layout(l0, b0, n));
        lemma_mset_same_mines(c, l0, l, w);
    }
    reveal(known);
}

/// A forced move stays forced as other cells are uncovered.
pub proof fn lemma_forced_evolves(b0: &Board, b1: &Board, n: int, i: int, v: Visibility)
    requires
        evolves(b0, b1),
        0 <= i < b0.cells().len(),
        forced(b0, n, i, v),
    ensures
        forced(b1, n, i, v),
{
    assert forall|l: Seq<Cell>| #[trigger] possible_layout(l, b1, n) implies (l[i].is_mine <==> v == Visibility::Flagged) by {
        reveal(forced);
        lemma_possible_back(l, b0, b1, n);
        assert(possible_layout(relayout(l, b0), b0, n));
        assert(relayout(l, b0)[i].is_mine == l[i].is_mine);
    }
    reveal(forced);
}

/// A forced move agrees with the board's own mines.
pub proof fn lemma_forced_actual(b: &Board, n: int, i: int, v: Visibility)
    requires
        forced(b, n, i, v),
        possible_layout(b.cells(), b, n),
    ensures
        b.cells()[i].is_mine <==> v == Visibility::Flagged,
{
    reveal(forced);
}

/// A known constraint with no mine makes each of its cells safe; one with
/// as many mines as cells makes each of them a mine.
pub proof fn lemma_known_settles(c: Constraint, b: &Board, n: int)
    requires
        known(c, b, n),
        0 < b.w(),
        b.w() * b.h() <= usize::MAX,
        c.mask_ok(),
        covers_in_grid(c, b.w(), b.h()),
    ensures
        c.mines == 0 ==> forall|j: int| #[trigger] cset(c, b.w()).contains(j) ==> forced(b, n, j, Visibility::Revealed),
        c.mines == popcount9(c.mask) ==> forall|j: int| #[trigger] cset(c, b.w()).contains(j) ==> forced(
            b,
            n,
            j,
            Visibility::Flagged,
        ),
{
    let w = b.w();
    let h = b.h();
    if c.mines == 0 {
        assert forall|j: int| #[trigger] cset(c, w).contains(j) implies forced(b, n, j, Visibility::Revealed) by {
            assert forall|l: Seq<Cell>| #[trigger] possible_layout(l, b, n) implies (l[j].is_mine <==> Visibility::Revealed
                == Visibility::Flagged) by {
                reveal(known);
                lemma_mset_bounds(c, l, w, h);
            }
            reveal(forced);
        }
    }
    if c.mines == popcount9(c.mask) {
        assert forall|j: int| #[trigger] cset(c, w).contains(j) implies forced(b, n, j, Visibility::Flagged) by {
            assert forall|l: Seq<Cell>| #[trigger] possible_layout(l, b, n) implies (l[j].is_mine <==> Visibility::Flagged
                == Visibility::Flagged) by {
                reveal(known);
                lemma_mset_bounds(c, l, w, h);
            }
            reveal(forced);
        }
    }
}

/// The constraint of a revealed cell, over its hidden neighbours with its
/// hint less its flagged neighbours in mines, is known.
pub proof fn lemma_hint_known(b: &Board, n: int, x: int, y: int, c: Constraint)
    requires
        b.wf(),
        0 < b.w(),
        0 <= x < b.w(),
        0 <= y < b.h(),
        cell_at(b, x, y).visibility == Visibility::Revealed,
        c.mask_ok(),
        forall|px: int, py: int| #[trigger] c.covers(px, py) == hidden_around(b, x, y, px, py),
        c.mines == cell_at(b, x, y).adjacent_mines - flags_around(b, x, y),
    ensures
        known(c, b, n),
{
    let w = b.w();
    let h = b.h();
    assert forall|l: Seq<Cell>| #[trigger] possible_layout(l, b, n) implies c.mines == mset(c, l, w).len() by {
        lemma_hint_split(b, l, n, x, y);
        assert forall|i: int| 0 <= i < l.len() implies (#[trigger] l[i]).visibility == b.cells()[i].visibility by {}
        lemma_mset_around(b, l, x, y, c);
        lemma_slots_upto(w, h, x, y, 9, hidden_mine(l));
    }
    reveal(known);
}

/// A known constraint less one of its cells that is uncovered, and less a
/// mine if that cell is flagged, is known.
pub proof fn lemma_known_remove(b: &Board, n: int, c: Constraint, d: Constraint, px: int, py: int)
    requires
        known(c, b, n),
        b.wf(),
        0 < b.w(),
        c.mask_ok(),
        d.mask_ok(),
        covers_in_grid(c, b.w(), b.h()),
        0 <= px < b.w(),
        0 <= py < b.h(),
        c.covers(px, py),
        cell_at(b, px, py).visibility != Visibility::Hidden,
        forall|x: int, y: int| #[trigger] d.covers(x, y) == (c.covers(x, y) && !(x == px && y == py)),
        d.mines == (if cell_at(b, px, py).visibility == Visibility::Flagged {
            if c.mines > 0 {
                c.mines - 1
            } else {
                0
            }
        } else {
            c.mines as int
        }),
    ensures
        known(d, b, n),
{
    let w = b.w();
    let h = b.h();
    let j = crate::state::grid::index_of(w, px, py);
    crate::state::grid::lemma_index_coords(w, h, px, py);
    assert forall|x: int, y: int| #[trigger] d.covers(x, y) implies 0 <= x < w && 0 <= y < h by {
        assert(c.covers(x, y));
    }
    lemma_cset(c, w, h);
    lemma_cset(d, w, h);
    assert(cset(d, w) =~= cset(c, w).remove(j)) by {
        assert forall|i: int| #[trigger] cset(d, w).contains(i) <==> cset(c, w).remove(j).contains(i) by {
            if 0 <= i < w * h {
                crate::state::grid::lemma_coords_index(w, h, i);
            }
        }
    }
    assert forall|l: Seq<Cell>| #[trigger] possible_layout(l, b, n) implies d.mines == mset(d, l, w).len() by {
        reveal(known);
        let f = |i: int| l[i].is_mine;
        cset(c, w).lemma_len_filter(f);
        assert(mset(d, l, w) =~= mset(c, l, w).remove(j));
        assert(cset(c, w).contains(j));
        assert(l[j].visibility == b.cells()[j].visibility);
        if l[j].is_mine {
            assert(mset(c, l, w).contains(j));
        }
    }
    reveal(known);
}

/// Two known constraints and their wings, the cells of each outside the
/// other: in every layout that fits, the wings' mines differ as the
/// constraints' mines do.
proof fn lemma_wing_layouts(b: &Board, n: int, c1: Constraint, c2: Constraint, k1: Constraint, k2: Constraint)
    requires
        known(c1, b, n),
        known(c2, b, n),
        0 < b.w(),
        b.w() * b.h() <= usize::MAX,
        c1.mask_ok(),
        c2.mask_ok(),
        k1.mask_ok(),
        k2.mask_ok(),
        covers_in_grid(c1, b.w(), b.h()),
        covers_in_grid(c2, b.w(), b.h()),
        forall|x: int, y: int| #[trigger] k1.covers(x, y) == (c1.covers(x, y) && !c2.covers(x, y)),
        forall|x: int, y: int| #[trigger] k2.covers(x, y) == (c2.covers(x, y) && !c1.covers(x, y)),
    ensures
        covers_in_grid(k1, b.w(), b.h()),
        covers_in_grid(k2, b.w(), b.h()),
        forall|l: Seq<Cell>| #[trigger] possible_layout(l, b, n) ==> {
            &&& mset(k1, l, b.w()).len() - mset(k2, l, b.w()).len() == c1.mines - c2.mines
            &&& 0 <= mset(k1, l, b.w()).len() <= popcount9(k1.mask)
            &&& 0 <= mset(k2, l, b.w()).len() <= popcount9(k2.mask)
        },
{
    let w = b.w();
    let h = b.h();
    lemma_wing(c1, c2, k1, k2, b.cells(), w, h);
    assert forall|l: Seq<Cell>| #[trigger] possible_layout(l, b, n) implies {
        &&& mset(k1, l, w).len() - mset(k2, l, w).len() == c1.mines - c2.mines
        &&& 0 <= mset(k1, l, w).len() <= popcount9(k1.mask)
        &&& 0 <= mset(k2, l, w).len() <= popcount9(k2.mask)
    } by {
        reveal(known);
        lemma_wing(c1, c2, k1, k2, l, w, h);
        lemma_mset_bounds(k1, l, w, h);
        lemma_mset_bounds(k2, l, w, h);
    }
}

/// Wing elimination: when the mines of `c1` outnumber those of `c2` by the
/// cells of its wing, that wing is all mines and the other wing all safe.
pub proof fn lemma_wing_forced(b: &Board, n: int, c1: Constraint, c2: Constraint, k1: Constraint, k2: Constraint)
    requires
        known(c1, b, n),
        known(c2, b, n),
        0 < b.w(),
        b.w() * b.h() <= usize::MAX,
        c1.mask_ok(),
        c2.mask_ok(),
        k1.mask_ok(),
        k2.mask_ok(),
        covers_in_grid(c1, b.w(), b.h()),
        covers_in_grid(c2, b.w(), b.h()),
        forall|x: int, y: int| #[trigger] k1.covers(x, y) == (c1.covers(x, y) && !c2.covers(x, y)),
        forall|x: int, y: int| #[trigger] k2.covers(x, y) == (c2.covers(x, y) && !c1.covers(x, y)),
        c1.mines - c2.mines == popcount9(k1.mask),
    ensures
        forall|j: int| #[trigger] cset(k1, b.w()).contains(j) ==> forced(b, n, j, Visibility::Flagged),
        forall|j: int| #[trigger] cset(k2, b.w()).contains(j) ==> forced(b, n, j, Visibility::Revealed),
{
    let w = b.w();
    let h = b.h();
    lemma_wing_layouts(b, n, c1, c2, k1, k2);
    assert forall|j: int| #[trigger] cset(k1, w).contains(j) implies forced(b, n, j, Visibility::Flagged) by {
        assert forall|l: Seq<Cell>| #[trigger] possible_layout(l, b, n) implies (l[j].is_mine <==> Visibility::Flagged
            == Visibility::Flagged) by {
            lemma_mset_bounds(k1, l, w, h);
        }
        reveal(forced);
    }
    assert forall|j: int| #[trigger] cset(k2, w).contains(j) implies forced(b, n, j, Visibility::Revealed) by {
        assert forall|l: Seq<Cell>| #[trigger] possible_layout(l, b, n) implies (l[j].is_mine <==> Visibility::Revealed
            == Visibility::Flagged) by {
            lemma_mset_bounds(k2, l, w, h);
        }
        reveal(forced);
    }
}

/// Subset rule: when the wing of `c1` is empty, the wing of `c2` holds the
/// difference of their mines.
pub proof fn lemma_wing_known(b: &Board, n: int, c1: Constraint, c2: Constraint, k1: Constraint, k2: Constraint, d: Constraint)
    requires
        known(c1, b, n),
        known(c2, b, n),
        0 < b.w(),
        b.w() * b.h() <= usize::MAX,
        c1.mask_ok(),
        c2.mask_ok(),
        k1.mask_ok(),
        k2.mask_ok(),
        d.mask_ok(),
        covers_in_grid(c1, b.w(), b.h()),
        covers_in_grid(c2, b.w(), b.h()),
        forall|x: int, y: int| #[trigger] k1.covers(x, y) == (c1.covers(x, y) && !c2.covers(x, y)),
        forall|x: int, y: int| #[trigger] k2.covers(x, y) == (c2.covers(x, y) && !c1.covers(x, y)),
        popcount9(k1.mask) == 0,
        forall|x: int, y: int| #[trigger] d.covers(x, y) == k2.covers(x, y),
        d.mines == c2.mines - c1.mines,
    ensures
        known(d, b, n),
{
    let w = b.w();
    let h = b.h();
    lemma_wing_layouts(b, n, c1, c2, k1, k2);
    lemma_cset_same(k2, d, w, h);
    assert forall|l: Seq<Cell>| #[trigger] possible_layout(l, b, n) implies d.mines == mset(d, l, w).len() by {}
    reveal(known);
}

/// With `n` mines in all, when the hidden cells hold no mine, or only mines,
/// each hidden cell is forced.
pub proof fn lemma_count_forced(b: &Board, n: int, v: Visibility)
    requires
        v == Visibility::Revealed ==> n - count_vis(b.cells(), Visibility::Flagged) == 0,
        v == Visibility::Flagged ==> n - count_vis(b.cells(), Visibility::Flagged) == count_vis(b.cells(), Visibility::Hidden),
        v != Visibility::Hidden,
    ensures
        forall|j: int|
            0 <= j < b.cells().len() && (#[trigger] b.cells()[j]).visibility == Visibility::Hidden ==> forced(b, n, j, v),
{
    assert forall|j: int| 0 <= j < b.cells().len() && (#[trigger] b.cells()[j]).visibility == Visibility::Hidden implies forced(
        b,
        n,
        j,
        v,
    ) by {
        assert forall|l: Seq<Cell>| #[trigger] possible_layout(l, b, n) implies (l[j].is_mine <==> v == Visibility::Flagged) by {
            assert forall|i: int| 0 <= i < l.len() implies (#[trigger] l[i]).visibility == b.cells()[i].visibility by {}
            lemma_count_vis_same(l, b.cells(), Visibility::Flagged);
            lemma_count_vis_same(l, b.cells(), Visibility::Hidden);
            lemma_hidden_mines(l);
            let hs = vis_set(l, Visibility::Hidden);
            hs.lemma_len_filter(mine_pred(l));
            assert(hs.contains(j));
            if v == Visibility::Revealed {
                hs.filter(mine_pred(l)).lemma_len0_is_empty();
                assert(!hs.filter(mine_pred(l)).contains(j));
            } else {
                vstd::set_lib::lemma_subset_equality(hs.filter(mine_pred(l)), hs);
                assert(hs.filter(mine_pred(l)).contains(j));
            }
        }
        reveal(forced);
    }
}

/// With `n` mines in all and pairwise disjoint known constraints over hidden
/// cells, when the hidden cells outside them hold no mine, or only mines,
/// each of those cells is forced.
pub proof fn lemma_union_forced(b: &Board, n: int, u: Seq<Constraint>, v: Visibility)
    requires
        b.wf(),
        0 < b.w(),
        pairwise_disjoint(u),
        forall|k: int|
            0 <= k < u.len() ==> (#[trigger] u[k]).mask_ok() && covers_in_grid(u[k], b.w(), b.h()) && known(u[k], b, n),
        forall|k: int, i: int| 0 <= k < u.len() && #[trigger] cset(u[k], b.w()).contains(i) ==> b.cells()[i].visibility
            == Visibility::Hidden,
        v != Visibility::Hidden,
        v == Visibility::Revealed ==> n - count_vis(b.cells(), Visibility::Flagged) - sum_mines(u) == 0,
        v == Visibility::Flagged ==> n - count_vis(b.cells(), Visibility::Flagged) - sum_mines(u) == count_vis(
            b.cells(),
            Visibility::Hidden,
        ) - sum_cells(u),
    ensures
        forall|j: int|
            0 <= j < b.cells().len() && (#[trigger] b.cells()[j]).visibility == Visibility::Hidden && !uset(u, b.w()).contains(j)
                ==> forced(b, n, j, v),
{
    let w = b.w();
    let h = b.h();
    assert forall|j: int|
        0 <= j < b.cells().len() && (#[trigger] b.cells()[j]).visibility == Visibility::Hidden && !uset(u, w).contains(j) implies forced(
        b,
        n,
        j,
        v,
    ) by {
        assert forall|l: Seq<Cell>| #[trigger] possible_layout(l, b, n) implies (l[j].is_mine <==> v == Visibility::Flagged) by {
            assert forall|i: int| 0 <= i < l.len() implies (#[trigger] l[i]).visibility == b.cells()[i].visibility by {}
            lemma_count_vis_same(l, b.cells(), Visibility::Flagged);
            lemma_count_vis_same(l, b.cells(), Visibility::Hidden);
            assert forall|k: int| 0 <= k < u.len() implies (#[trigger] u[k]).mask_ok() && covers_in_grid(u[k], w, h)
                && u[k].mines == mset(u[k], l, w).len() by {
                reveal(known);
            }
            assert forall|k: int, i: int| 0 <= k < u.len() && #[trigger] cset(u[k], w).contains(i) implies l[i].visibility
                == Visibility::Hidden by {
                lemma_cset(u[k], w, h);
            }
            lemma_outside(l, u, w, h);
            let o = vis_set(l, Visibility::Hidden).difference(uset(u, w));
            o.lemma_len_filter(mine_pred(l));
            assert(o.contains(j));
            if v == Visibility::Revealed {
                o.filter(mine_pred(l)).lemma_len0_is_empty();
                assert(!o.filter(mine_pred(l)).contains(j));
            } else {
                vstd::set_lib::lemma_subset_equality(o.filter(mine_pred(l)), o);
                assert(o.filter(mine_pred(l)).contains(j));
            }
        }
        reveal(forced);
    }
}

} // verus!
