//! The deduction solver: constraints from open cells, eliminations between
//! overlapping constraints, and the global count of mines.
use vstd::prelude::*;
use std::collections::VecDeque;
use crate::state::{BoardInterface, Cell, Visibility};
use crate::state::grid::{
    Board, Grid, index_of, count_vis, count_mines, with_vis, lemma_index_coords, lemma_coords_index,
    lemma_count_vis_update, lemma_count_mines_update, lemma_pos_len,
};
use super::{Constraint, Solver, SolverOptions, in_grid, cell_at, covers_at, popcount9, count_ones, hidden_around, flags_around};
use super::sets::{
    cset, mset, covers_in_grid, lemma_cset, lemma_cset_same, lemma_mset_same_mines, hidden_mine, lemma_slots_upto,
    lemma_hint_split, lemma_mset_around, lemma_mset_bounds, lemma_wing, uset, sum_mines, sum_cells, pairwise_disjoint,
    lemma_outside, lemma_hidden_mines, vis_set, mine_pred, lemma_vis_set, lemma_uset,
};
use super::{overlaps, concat_groups, lemma_munge_overlap, lemma_concat_contains, groups_of};
use super::deduce::{
    known, forced, deduced, lemma_actual_possible, lemma_deduced_refl, lemma_deduced_trans, lemma_deduced_move,
    lemma_known_evolves, lemma_forced_evolves, lemma_forced_actual, lemma_known_settles, lemma_hint_known,
    lemma_known_remove, lemma_wing_forced, lemma_wing_known, lemma_count_forced, lemma_union_forced,
};
use crate::state::grid::{lemma_adj_same_mines, cell_opt};

verus! {

/// `b1` is `b0` with some hidden cells uncovered: mines and hints are the same
/// and no cell that was uncovered has changed.
pub open spec fn evolves(b0: &Board, b1: &Board) -> bool {
    &&& b1.wf()
    &&& b1.grid.width == b0.grid.width
    &&& b1.grid.height == b0.grid.height
    &&& b1.num_mines == b0.num_mines
    &&& b1.cells().len() == b0.cells().len()
    &&& forall|i: int|
        0 <= i < b0.cells().len() ==> {
            &&& (#[trigger] b1.cells()[i]).is_mine == b0.cells()[i].is_mine
            &&& b1.cells()[i].adjacent_mines == b0.cells()[i].adjacent_mines
            &&& b0.cells()[i].visibility != Visibility::Hidden ==> b1.cells()[i].visibility
                == b0.cells()[i].visibility
        }
}

pub proof fn lemma_evolves_trans(b0: &Board, b1: &Board, b2: &Board)
    requires
        evolves(b0, b1),
        evolves(b1, b2),
    ensures
        evolves(b0, b2),
{
    assert forall|i: int| 0 <= i < b0.cells().len() implies {
        &&& (#[trigger] b2.cells()[i]).is_mine == b0.cells()[i].is_mine
        &&& b2.cells()[i].adjacent_mines == b0.cells()[i].adjacent_mines
        &&& b0.cells()[i].visibility != Visibility::Hidden ==> b2.cells()[i].visibility == b0.cells()[i].visibility
    } by {
        assert(b1.cells()[i] == b1.cells()[i]);
    }
}

/// Cell `j` of `s0` is settled in `s1`: no longer hidden, and made `v` if
/// it was hidden.
pub open spec fn settled_as(s0: Seq<Cell>, s1: Seq<Cell>, j: int, v: Visibility) -> bool {
    &&& s1[j].visibility != Visibility::Hidden
    &&& s0[j].visibility == Visibility::Hidden ==> s1[j].visibility == v
}

/// The cells, by index on a board `w` wide, that `a` covers and `b` does
/// not.
pub open spec fn wing_cells(a: Constraint, b: Constraint, w: int) -> Set<int> {
    cset(a, w).difference(cset(b, w))
}

/// Wing elimination of `a` against `b`: `a` holds as many more mines than
/// `b` as it has cells outside `b`, so those cells are mines and the cells
/// of `b` outside `a` are safe.
pub open spec fn wing_applies(a: Constraint, b: Constraint, w: int) -> bool {
    a.mines - b.mines == wing_cells(a, b, w).len()
}

/// Every cell of `set` shows `v` in `s`.
pub open spec fn all_shown(s: Seq<Cell>, set: Set<int>, v: Visibility) -> bool {
    forall|j: int| #[trigger] set.contains(j) ==> s[j].visibility == v
}

/// The cell at index `i` of a board `w` wide is one of `cells`.
pub open spec fn listed(cells: Seq<(usize, usize)>, w: int, i: int) -> bool {
    exists|q: int| 0 <= q < cells.len() && index_of(w, cells[q].0 as int, cells[q].1 as int) == i
}

/// The sum of the lengths of the buckets.
pub open spec fn total_len(s: Seq<Vec<Constraint>>) -> int
    decreases s.len(),
{
    if s.len() == 0 {
        0
    } else {
        total_len(s.drop_last()) + s.last().len()
    }
}

proof fn lemma_total_len_update(s: Seq<Vec<Constraint>>, i: int, v: Vec<Constraint>)
    requires
        0 <= i < s.len(),
    ensures
        total_len(s.update(i, v)) == total_len(s) - s[i].len() + v.len(),
    decreases s.len(),
{
    let t = s.update(i, v);
    if i == s.len() - 1 {
        assert(t.drop_last() =~= s.drop_last());
    } else {
        assert(t.drop_last() =~= s.drop_last().update(i, v));
        lemma_total_len_update(s.drop_last(), i, v);
    }
}

proof fn lemma_total_len_bound(s: Seq<Vec<Constraint>>, bound: int)
    requires
        forall|i: int| 0 <= i < s.len() ==> (#[trigger] s[i]).len() <= bound,
    ensures
        0 <= total_len(s) <= s.len() * bound,
    decreases s.len(),
{
    if s.len() > 0 {
        lemma_total_len_bound(s.drop_last(), bound);
        assert((s.len() - 1) * bound + bound == s.len() * bound) by (nonlinear_arith);
    }
}

/// Distinct numbers below `n` are at most `n` many.
proof fn lemma_distinct_below(s: Seq<int>, n: int)
    requires
        0 <= n,
        s.no_duplicates(),
        forall|i: int| 0 <= i < s.len() ==> 0 <= #[trigger] s[i] < n,
    ensures
        s.len() <= n,
{
    vstd::set_lib::lemma_int_range(0, n);
    s.unique_seq_to_set();
    assert(s.to_set().subset_of(vstd::set_lib::set_int_range(0, n)));
    vstd::set_lib::lemma_len_subset(s.to_set(), vstd::set_lib::set_int_range(0, n));
}

/// Whether the vector holds the constraint.
fn vec_contains(v: &Vec<Constraint>, c: &Constraint) -> (r: bool)
    ensures
        r == v@.contains(*c),
{
    let mut i: usize = 0;
    while i < v.len()
        invariant
            i <= v.len(),
            forall|q: int| 0 <= q < i ==> v@[q] != *c,
        decreases v.len() - i,
    {
        if v[i] == *c {
            assert(v@[i as int] == *c);
            return true;
        }
        i = i + 1;
    }
    false
}

/// The vector without the elements equal to `c`, in order.
#[verifier::spinoff_prover]
fn vec_without(v: &Vec<Constraint>, c: &Constraint) -> (r: Vec<Constraint>)
    ensures
        r.len() <= v.len(),
        forall|d: Constraint| r@.contains(d) <==> (v@.contains(d) && d != *c),
        v@.no_duplicates() ==> r@.no_duplicates(),
{
    let mut r: Vec<Constraint> = Vec::new();
    let mut i: usize = 0;
    while i < v.len()
        invariant
            i <= v.len(),
            r.len() <= i,
            forall|d: Constraint| r@.contains(d) <==> (v@.subrange(0, i as int).contains(d) && d != *c),
            v@.no_duplicates() ==> r@.no_duplicates(),
        decreases v.len() - i,
    {
        let ghost old_r = r@;
        if v[i] != *c {
            r.push(v[i]);
        }
        proof {
            let x = v@[i as int];
            let sub1 = v@.subrange(0, i + 1);
            let sub0 = v@.subrange(0, i as int);
            if x != *c {
                assert(r@ == old_r.push(x));
            } else {
                assert(r@ == old_r);
            }
            assert forall|d: Constraint| r@.contains(d) <==> (sub1.contains(d) && d != *c) by {
                if sub1.contains(d) && d != *c {
                    let q = choose|q: int| 0 <= q < sub1.len() && sub1[q] == d;
                    if q < i {
                        assert(sub0[q] == d);
                        assert(old_r.contains(d));
                        let q2 = choose|q2: int| 0 <= q2 < old_r.len() && old_r[q2] == d;
                        assert(r@[q2] == d);
                    } else {
                        assert(r@[old_r.len() as int] == d);
                    }
                }
                if r@.contains(d) {
                    let q = choose|q: int| 0 <= q < r@.len() && r@[q] == d;
                    if q < old_r.len() {
                        assert(old_r[q] == d);
                        assert(old_r.contains(d));
                        let q3 = choose|q3: int| 0 <= q3 < sub0.len() && sub0[q3] == d;
                        assert(sub1[q3] == d);
                    } else {
                        assert(sub1[i as int] == d);
                    }
                }
            }
            if v@.no_duplicates() && v@[i as int] != *c {
                assert(!old_r.contains(v@[i as int])) by {
                    if old_r.contains(v@[i as int]) {
                        let sub0 = v@.subrange(0, i as int);
                        let q = choose|q: int| 0 <= q < sub0.len() && sub0[q] == v@[i as int];
                        assert(v@[q] == v@[i as int]);
                    }
                }
            }
        }
        i = i + 1;
    }
    assert(v@.subrange(0, v.len() as int) =~= v@);
    r
}

pub struct StSolver {
    board: Board,
    num_mines: usize,
    /// Queue of cells which have not been considered. Newly updated cells
    /// are added here.
    cell_todo: VecDeque<(usize, usize)>,
    /// Collection of constraints, bucketed by corner. A constraint is created
    /// for every revealed numbered cell.
    constraints: Grid<Vec<Constraint>>,
    /// Queue of constraints to compare with the ones overlapping them.
    constraints_todo: VecDeque<Constraint>,
    options: SolverOptions,
}

impl StSolver {
    spec fn w(&self) -> int {
        self.board.w()
    }

    spec fn h(&self) -> int {
        self.board.h()
    }

    spec fn cells(&self) -> Seq<Cell> {
        self.board.cells()
    }

    /// The cell at index `j` waits in the cell queue.
    spec fn pending(&self, j: int) -> bool {
        self.cell_todo@.contains(((j % self.w()) as usize, (j / self.w()) as usize))
    }

    /// A constraint the solver may hold: on the board, true of the mines and
    /// known from what the board shows, and over cells that are hidden,
    /// waiting in the queue, or `ex`.
    spec fn valid_constraint(&self, c: Constraint, ex: Option<int>) -> bool {
        &&& c.x < self.w()
        &&& c.y < self.h()
        &&& c.mask_ok()
        &&& covers_in_grid(c, self.w(), self.h())
        &&& c.mines == mset(c, self.cells(), self.w()).len()
        &&& known(c, &self.board, self.num_mines as int)
        &&& forall|j: int|
            #[trigger] cset(c, self.w()).contains(j) ==> self.cells()[j].visibility == Visibility::Hidden
                || self.pending(j) || ex == Some(j)
    }

    spec fn bucket(&self, i: int) -> Seq<Constraint> {
        self.constraints.data@[i]@
    }

    /// The solver's invariant; `ex` names the cell under processing, whose
    /// constraints may still be stored.
    spec fn inv(&self, ex: Option<int>) -> bool {
        &&& self.board.wf()
        &&& 0 < self.w()
        &&& 0 < self.h()
        &&& self.board.hints_consistent()
        &&& self.board.visibility_consistent()
        &&& self.num_mines == count_mines(self.cells())
        &&& self.constraints.wf()
        &&& self.constraints.width == self.board.grid.width
        &&& self.constraints.height == self.board.grid.height
        &&& forall|i: int|
            0 <= i < self.cells().len() ==> (#[trigger] self.bucket(i)).no_duplicates()
        &&& forall|i: int, q: int|
            0 <= i < self.cells().len() && 0 <= q < self.bucket(i).len() ==> {
                let c = #[trigger] self.bucket(i)[q];
                &&& c.x == i % self.w()
                &&& c.y == i / self.w()
                &&& c.mask != 0
                &&& 0 < c.mines < popcount9(c.mask)
                &&& self.valid_constraint(c, ex)
            }
        &&& forall|q: int|
            0 <= q < self.constraints_todo@.len() ==> (#[trigger] self.constraints_todo@[q]).x < self.w()
                && self.constraints_todo@[q].y < self.h()
        &&& forall|q: int|
            0 <= q < self.cell_todo@.len() ==> {
                let p = #[trigger] self.cell_todo@[q];
                &&& p.0 < self.w()
                &&& p.1 < self.h()
                &&& cell_at(&self.board, p.0 as int, p.1 as int).visibility != Visibility::Hidden
            }
    }

    /// Decreases while cells are uncovered and the cell queue is worked off.
    spec fn measure_a(&self) -> int {
        2 * (count_vis(self.cells(), Visibility::Hidden) as int) + self.cell_todo@.len()
    }

    /// Decreases while constraints are stored and the constraint queue is
    /// worked off.
    spec fn measure_b(&self) -> int {
        2 * (self.cells().len() * 5120 - total_len(self.constraints.data@)) + self.constraints_todo@.len()
    }
}

/// The constraint `c` is in the bucket of its corner among the buckets `g`
/// of the board `b`.
pub open spec fn stored_in(b: &Board, g: &Grid<Vec<Constraint>>, c: Constraint) -> bool {
    &&& c.x < b.w()
    &&& c.y < b.h()
    &&& g.data@[index_of(b.w(), c.x as int, c.y as int)]@.contains(c)
}

/// That the cells `set` hold `mines` mines is held on `b` and `g`: the
/// cells are uncovered, when that count settles them, or a constraint of
/// `g` says it.
pub open spec fn derived_in(b: &Board, g: &Grid<Vec<Constraint>>, set: Set<int>, mines: int) -> bool {
    ||| (mines == 0 || mines == set.len()) && forall|j: int|
        #[trigger] set.contains(j) ==> b.cells()[j].visibility != Visibility::Hidden
    ||| exists|d: Constraint| #[trigger] stored_in(b, g, d) && cset(d, b.w()) == set && d.mines == mines
}

/// The comparison of `c1` with `c2` shows on `b` and `g`: where wing
/// elimination applies, the cells of both wings are uncovered as it says;
/// where the subset rule applies, what it learns is held.
pub open spec fn compared_in(c1: Constraint, c2: Constraint, b: &Board, g: &Grid<Vec<Constraint>>) -> bool {
    let w = b.w();
    &&& wing_applies(c1, c2, w) ==> all_shown(b.cells(), wing_cells(c1, c2, w), Visibility::Flagged) && all_shown(
        b.cells(),
        wing_cells(c2, c1, w),
        Visibility::Revealed,
    )
    &&& !wing_applies(c1, c2, w) && wing_applies(c2, c1, w) ==> all_shown(
        b.cells(),
        wing_cells(c2, c1, w),
        Visibility::Flagged,
    ) && all_shown(b.cells(), wing_cells(c1, c2, w), Visibility::Revealed)
    &&& !wing_applies(c1, c2, w) && !wing_applies(c2, c1, w) && wing_cells(c1, c2, w).len() == 0 ==> derived_in(
        b,
        g,
        wing_cells(c2, c1, w),
        c2.mines - c1.mines,
    )
    &&& !wing_applies(c1, c2, w) && !wing_applies(c2, c1, w) && wing_cells(c1, c2, w).len() != 0 && wing_cells(
        c2,
        c1,
        w,
    ).len() == 0 ==> derived_in(b, g, wing_cells(c1, c2, w), c1.mines - c2.mines)
}

/// Every revealed cell of `b` with a hidden neighbour has its constraint in
/// `g`: one over exactly its hidden neighbours.
pub open spec fn cells_complete(b: &Board, g: &Grid<Vec<Constraint>>) -> bool {
    forall|p: int|
        0 <= p < b.cells().len() && b.cells()[p].visibility == Visibility::Revealed && (exists|i: int|
            #[trigger] hidden_nbrs(b, p % b.w(), p / b.w()).contains(i)) ==> exists|d: Constraint|
            #[trigger] stored_in(b, g, d) && cset(d, b.w()) == hidden_nbrs(b, p % b.w(), p / b.w())
}

/// The solver stops on `b` with the constraints `g`: each true of `b`, known
/// from what it shows and settling none of its cells by itself; the
/// constraint of every revealed cell with a hidden neighbour among them;
/// every two overlapping ones compared; no union of them searched within
/// `depth` of a group settling the cells outside it; and the count of the
/// `num_mines` mines settling no hidden cell.
pub open spec fn solver_stuck(b: &Board, g: &Grid<Vec<Constraint>>, num_mines: int, depth: int) -> bool {
    &&& g.wf()
    &&& g.width == b.grid.width
    &&& g.height == b.grid.height
    &&& forall|i: int, q: int|
        0 <= i < g.data@.len() && 0 <= q < g.data@[i]@.len() ==> holds_on(#[trigger] g.data@[i]@[q], b) && known(
            g.data@[i]@[q],
            b,
            num_mines,
        ) && 0 < g.data@[i]@[q].mines < popcount9(g.data@[i]@[q].mask)
    &&& cells_complete(b, g)
    &&& pairs_compared(b, g)
    &&& no_union_resolves(
        g.data@,
        depth,
        num_mines - count_vis(b.cells(), Visibility::Flagged),
        count_vis(b.cells(), Visibility::Hidden) as int,
    )
    &&& stuck_count(b, num_mines)
}

/// No pair of constraints of `g` is left to compare: every two distinct
/// overlapping ones have been compared, one way or the other.
pub open spec fn pairs_compared(b: &Board, g: &Grid<Vec<Constraint>>) -> bool {
    forall|c1: Constraint, c2: Constraint|
        #[trigger] stored_in(b, g, c1) && #[trigger] stored_in(b, g, c2) && c1 != c2 && overlaps(c1, c2) ==> compared_in(
            c1,
            c2,
            b,
            g,
        ) || compared_in(c2, c1, b, g)
}

/// The constraint `c` is stored, in the bucket of its corner.
spec fn stored(s: StSolver, c: Constraint) -> bool {
    &&& c.x < s.w()
    &&& c.y < s.h()
    &&& s.bucket(index_of(s.w(), c.x as int, c.y as int)).contains(c)
}

/// What the subset rule learns, that the cells `set` hold `mines` mines, is
/// held by the solver: the cells are uncovered, when that count settles
/// them, or a stored constraint says it.
spec fn derived_held(s: StSolver, set: Set<int>, mines: int) -> bool {
    ||| (mines == 0 || mines == set.len()) && forall|j: int|
        #[trigger] set.contains(j) ==> s.cells()[j].visibility != Visibility::Hidden
    ||| exists|d: Constraint| #[trigger] stored(s, d) && cset(d, s.w()) == set && d.mines == mines
}

/// The comparison of `c1` with `c2` has been made on the solver `s`: wing
/// elimination uncovered the cells of both wings, or the subset rule's
/// constraint is held.
spec fn pair_done(c1: Constraint, c2: Constraint, s: StSolver) -> bool {
    let w = s.w();
    &&& wing_applies(c1, c2, w) ==> all_shown(s.cells(), wing_cells(c1, c2, w), Visibility::Flagged) && all_shown(
        s.cells(),
        wing_cells(c2, c1, w),
        Visibility::Revealed,
    )
    &&& !wing_applies(c1, c2, w) && wing_applies(c2, c1, w) ==> all_shown(
        s.cells(),
        wing_cells(c2, c1, w),
        Visibility::Flagged,
    ) && all_shown(s.cells(), wing_cells(c1, c2, w), Visibility::Revealed)
    &&& !wing_applies(c1, c2, w) && !wing_applies(c2, c1, w) && wing_cells(c1, c2, w).len() == 0 ==> derived_held(
        s,
        wing_cells(c2, c1, w),
        c2.mines - c1.mines,
    )
    &&& !wing_applies(c1, c2, w) && !wing_applies(c2, c1, w) && wing_cells(c1, c2, w).len() != 0 && wing_cells(
        c2,
        c1,
        w,
    ).len() == 0 ==> derived_held(s, wing_cells(c1, c2, w), c1.mines - c2.mines)
}

/// `s1` keeps what `s0` has: the board evolved, every stored constraint is
/// still stored, and the constraint queue only grew at its back.
spec fn keeps(s0: StSolver, s1: StSolver) -> bool {
    &&& evolves(&s0.board, &s1.board)
    &&& forall|i: int, d: Constraint|
        0 <= i < s0.cells().len() && s0.bucket(i).contains(d) ==> #[trigger] s1.bucket(i).contains(d)
    &&& s0.constraints_todo@.len() <= s1.constraints_todo@.len()
    &&& forall|q: int|
        0 <= q < s0.constraints_todo@.len() ==> #[trigger] s1.constraints_todo@[q] == s0.constraints_todo@[q]
}

proof fn lemma_keeps_refl(s: StSolver)
    requires
        s.board.wf(),
    ensures
        keeps(s, s),
{
}

proof fn lemma_keeps_trans(s0: StSolver, s1: StSolver, s2: StSolver)
    requires
        keeps(s0, s1),
        keeps(s1, s2),
        s0.cells().len() == s1.cells().len(),
    ensures
        keeps(s0, s2),
{
    lemma_evolves_trans(&s0.board, &s1.board, &s2.board);
    assert forall|i: int, d: Constraint|
        0 <= i < s0.cells().len() && s0.bucket(i).contains(d) implies #[trigger] s2.bucket(i).contains(d) by {
        assert(s1.bucket(i).contains(d));
    }
    assert forall|q: int| 0 <= q < s0.constraints_todo@.len() implies #[trigger] s2.constraints_todo@[q]
        == s0.constraints_todo@[q] by {
        assert(s1.constraints_todo@[q] == s0.constraints_todo@[q]);
    }
}

proof fn lemma_shown_kept(s0: StSolver, s1: StSolver, set: Set<int>, v: Visibility)
    requires
        keeps(s0, s1),
        all_shown(s0.cells(), set, v),
        v != Visibility::Hidden,
        forall|j: int| #[trigger] set.contains(j) ==> 0 <= j < s0.cells().len(),
    ensures
        all_shown(s1.cells(), set, v),
{
    assert forall|j: int| #[trigger] set.contains(j) implies s1.cells()[j].visibility == v by {
        assert(s0.cells()[j].visibility == v);
    }
}

proof fn lemma_held_kept(s0: StSolver, s1: StSolver, set: Set<int>, m: int)
    requires
        keeps(s0, s1),
        derived_held(s0, set, m),
        s0.board.wf(),
        0 < s0.w(),
        s0.cells().len() == s0.w() * s0.h(),
        forall|j: int| #[trigger] set.contains(j) ==> 0 <= j < s0.cells().len(),
    ensures
        derived_held(s1, set, m),
{
    let w = s0.w();
    if exists|d: Constraint| #[trigger] stored(s0, d) && cset(d, w) == set && d.mines == m {
        let d = choose|d: Constraint| #[trigger] stored(s0, d) && cset(d, w) == set && d.mines == m;
        lemma_index_coords(w, s0.h(), d.x as int, d.y as int);
        assert(s1.bucket(index_of(w, d.x as int, d.y as int)).contains(d));
        assert(stored(s1, d));
    } else {
        assert forall|j: int| #[trigger] set.contains(j) implies s1.cells()[j].visibility != Visibility::Hidden by {
            assert(s0.cells()[j].visibility != Visibility::Hidden);
        }
    }
}

/// A comparison once made stays made while the solver keeps what it has.
proof fn lemma_pair_done_kept(c1: Constraint, c2: Constraint, s0: StSolver, s1: StSolver)
    requires
        pair_done(c1, c2, s0),
        keeps(s0, s1),
        s0.board.wf(),
        0 < s0.w(),
        s0.cells().len() == s0.w() * s0.h(),
        c1.mask_ok(),
        c2.mask_ok(),
        covers_in_grid(c1, s0.w(), s0.h()),
        covers_in_grid(c2, s0.w(), s0.h()),
    ensures
        pair_done(c1, c2, s1),
{
    let w = s0.w();
    let h = s0.h();
    lemma_cset(c1, w, h);
    lemma_cset(c2, w, h);
    let a = wing_cells(c1, c2, w);
    let b = wing_cells(c2, c1, w);
    if all_shown(s0.cells(), a, Visibility::Flagged) {
        lemma_shown_kept(s0, s1, a, Visibility::Flagged);
    }
    if all_shown(s0.cells(), a, Visibility::Revealed) {
        lemma_shown_kept(s0, s1, a, Visibility::Revealed);
    }
    if all_shown(s0.cells(), b, Visibility::Flagged) {
        lemma_shown_kept(s0, s1, b, Visibility::Flagged);
    }
    if all_shown(s0.cells(), b, Visibility::Revealed) {
        lemma_shown_kept(s0, s1, b, Visibility::Revealed);
    }
    if derived_held(s0, b, c2.mines - c1.mines) {
        lemma_held_kept(s0, s1, b, c2.mines - c1.mines);
    }
    if derived_held(s0, a, c1.mines - c2.mines) {
        lemma_held_kept(s0, s1, a, c1.mines - c2.mines);
    }
}

/// The wing of `c1` against `c2`, as a mask at `c1`'s corner, covers the
/// cells of `wing_cells`.
proof fn lemma_wing_cells(c1: Constraint, c2: Constraint, k1: Constraint, w: int, h: int)
    requires
        0 < w,
        w * h <= usize::MAX,
        c1.mask_ok(),
        c2.mask_ok(),
        k1.mask_ok(),
        covers_in_grid(c1, w, h),
        covers_in_grid(c2, w, h),
        forall|x: int, y: int| #[trigger] k1.covers(x, y) == (c1.covers(x, y) && !c2.covers(x, y)),
    ensures
        covers_in_grid(k1, w, h),
        cset(k1, w) == wing_cells(c1, c2, w),
        wing_cells(c1, c2, w).len() == popcount9(k1.mask),
        forall|j: int| #[trigger] wing_cells(c1, c2, w).contains(j) ==> 0 <= j < w * h,
{
    assert forall|x: int, y: int| #[trigger] k1.covers(x, y) implies 0 <= x < w && 0 <= y < h by {
        assert(c1.covers(x, y));
    }
    lemma_cset(c1, w, h);
    lemma_cset(c2, w, h);
    lemma_cset(k1, w, h);
    assert(cset(k1, w) =~= wing_cells(c1, c2, w));
}

/// The cells of `k` were forced to `v` on `s0`; once each of them, listed
/// in `list`, is uncovered on `s1`, each shows `v`.
proof fn lemma_shown(s0: StSolver, s1: StSolver, list: Seq<(usize, usize)>, k: Constraint, v: Visibility)
    requires
        s0.inv(None),
        s1.inv(None),
        evolves(&s0.board, &s1.board),
        s0.cells().len() == s0.w() * s0.h(),
        v != Visibility::Hidden,
        k.mask_ok(),
        covers_in_grid(k, s0.w(), s0.h()),
        forall|p: (usize, usize)| list.contains(p) <==> k.covers(p.0 as int, p.1 as int),
        forall|q: int|
            0 <= q < list.len() ==> cell_at(&s1.board, (#[trigger] list[q]).0 as int, list[q].1 as int).visibility
                != Visibility::Hidden,
        forall|j: int| #[trigger] cset(k, s0.w()).contains(j) ==> forced(&s0.board, s0.num_mines as int, j, v),
    ensures
        all_shown(s1.cells(), cset(k, s0.w()), v),
{
    let w = s0.w();
    let h = s0.h();
    lemma_cset(k, w, h);
    lemma_actual_possible(&s0.board, s0.num_mines as int);
    assert forall|j: int| #[trigger] cset(k, w).contains(j) implies s1.cells()[j].visibility == v by {
        lemma_coords_index(w, h, j);
        let p = ((j % w) as usize, (j / w) as usize);
        assert(k.covers(p.0 as int, p.1 as int));
        assert(list.contains(p));
        let q = choose|q: int| 0 <= q < list.len() && list[q] == p;
        assert(cell_at(&s1.board, list[q].0 as int, list[q].1 as int).visibility != Visibility::Hidden);
        lemma_forced_actual(&s0.board, s0.num_mines as int, j, v);
        assert(s1.cells()[j].is_mine == s0.cells()[j].is_mine);
    }
}

/// What `c` says, that the cells `set` hold `m` mines, is held by the solver
/// through `c` itself: the cells are uncovered, when that count settles
/// them, or `c` is stored.
spec fn held_by(s: StSolver, set: Set<int>, m: int, c: Constraint) -> bool {
    ||| (m == 0 || m == set.len()) && forall|j: int|
        #[trigger] set.contains(j) ==> s.cells()[j].visibility != Visibility::Hidden
    ||| stored(s, c) && cset(c, s.w()) == set && c.mines == m
}

proof fn lemma_held_by(s: StSolver, set: Set<int>, m: int, c: Constraint)
    requires
        held_by(s, set, m, c),
    ensures
        derived_held(s, set, m),
{
    if stored(s, c) && cset(c, s.w()) == set && c.mines == m {
        assert(stored(s, c) && cset(c, s.w()) == set && c.mines == m);
    }
}

/// After inserting `n`, whose cells are `set`, the solver holds what `n`
/// says.
proof fn lemma_held_after_insert(s0: StSolver, s1: StSolver, n: Constraint, set: Set<int>, ex: Option<int>)
    requires
        s0.inv(ex),
        s0.valid_constraint(n, ex),
        cset(n, s0.w()) == set,
        s0.cells().len() == s0.w() * s0.h(),
        s1.w() == s0.w(),
        s1.h() == s0.h(),
        ({
            let idx = index_of(s0.w(), n.x as int, n.y as int);
            let st = s0.bucket(idx).contains(n);
            &&& st ==> s1 == s0
            &&& !st && n.mines == 0 ==> forall|j: int|
                #[trigger] cset(n, s0.w()).contains(j) ==> settled_as(s0.cells(), s1.cells(), j, Visibility::Revealed)
            &&& !st && n.mines != 0 && n.mines == popcount9(n.mask) ==> forall|j: int|
                #[trigger] cset(n, s0.w()).contains(j) ==> settled_as(s0.cells(), s1.cells(), j, Visibility::Flagged)
            &&& !st && n.mines != 0 && n.mines != popcount9(n.mask) ==> s1.bucket(idx) == s0.bucket(idx).push(n)
        }),
    ensures
        held_by(s1, set, n.mines as int, n),
        derived_held(s1, set, n.mines as int),
{
    let w = s0.w();
    let h = s0.h();
    lemma_cset(n, w, h);
    let idx = index_of(w, n.x as int, n.y as int);
    if s0.bucket(idx).contains(n) {
        assert(stored(s1, n));
    } else if n.mines == 0 || n.mines == popcount9(n.mask) {
        assert forall|j: int| #[trigger] set.contains(j) implies s1.cells()[j].visibility != Visibility::Hidden by {
            assert(cset(n, w).contains(j));
        }
    } else {
        assert(s1.bucket(idx)[s0.bucket(idx).len() as int] == n);
        assert(stored(s1, n));
    }
    lemma_held_by(s1, set, n.mines as int, n);
}

/// The hidden cells within one step of `(x, y)`, by index.
pub open spec fn hidden_nbrs(b: &Board, x: int, y: int) -> Set<int> {
    Set::new(|i: int| 0 <= i < b.w() * b.h() && hidden_around(b, x, y, i % b.w(), i / b.w()))
}

/// A comparison made stays made while board and stored constraints stay.
proof fn lemma_pair_done_same(c1: Constraint, c2: Constraint, s0: StSolver, s1: StSolver)
    requires
        pair_done(c1, c2, s0),
        s1.board == s0.board,
        s1.constraints == s0.constraints,
    ensures
        pair_done(c1, c2, s1),
{
    let w = s0.w();
    assert forall|set: Set<int>, m: int| derived_held(s0, set, m) implies derived_held(s1, set, m) by {
        if exists|d: Constraint| #[trigger] stored(s0, d) && cset(d, w) == set && d.mines == m {
            let d = choose|d: Constraint| #[trigger] stored(s0, d) && cset(d, w) == set && d.mines == m;
            assert(stored(s1, d));
        }
    }
}

/// The pair of stored constraints `c1`, `c2` has been compared, unless one
/// of them waits in the constraint queue.
spec fn pair_ok(s: StSolver, c1: Constraint, c2: Constraint) -> bool {
    ||| s.constraints_todo@.contains(c1)
    ||| s.constraints_todo@.contains(c2)
    ||| pair_done(c1, c2, s)
    ||| pair_done(c2, c1, s)
}

/// Every two distinct overlapping stored constraints that `keep` accepts
/// are `pair_ok`.
spec fn pairs_ok_on(s: StSolver, keep: spec_fn(Constraint) -> bool) -> bool {
    forall|c1: Constraint, c2: Constraint|
        #[trigger] stored(s, c1) && #[trigger] stored(s, c2) && c1 != c2 && overlaps(c1, c2) && keep(c1) && keep(c2)
            ==> pair_ok(s, c1, c2)
}

spec fn any_c() -> spec_fn(Constraint) -> bool {
    |c: Constraint| true
}

spec fn other_than(e: Constraint) -> spec_fn(Constraint) -> bool {
    |c: Constraint| c != e
}

spec fn away_from(x: int, y: int) -> spec_fn(Constraint) -> bool {
    |c: Constraint| !c.covers(x, y)
}

proof fn lemma_stored_valid(s: StSolver, c: Constraint, ex: Option<int>)
    requires
        s.inv(ex),
        stored(s, c),
    ensures
        s.valid_constraint(c, ex),
        c.mask_ok(),
        covers_in_grid(c, s.w(), s.h()),
{
    let i = index_of(s.w(), c.x as int, c.y as int);
    lemma_index_coords(s.w(), s.h(), c.x as int, c.y as int);
    let q = choose|q: int| 0 <= q < s.bucket(i).len() && s.bucket(i)[q] == c;
    assert(s.bucket(i)[q] == c);
}

/// The pairs stay compared while the solver keeps what it has, the
/// constraints it newly stores waiting in the queue.
proof fn lemma_pairs_grow(s0: StSolver, s1: StSolver, keep: spec_fn(Constraint) -> bool, ex: Option<int>)
    requires
        s0.inv(ex),
        pairs_ok_on(s0, keep),
        keeps(s0, s1),
        s0.cells().len() == s0.w() * s0.h(),
        forall|d: Constraint| #[trigger] stored(s1, d) && !stored(s0, d) ==> s1.constraints_todo@.contains(d),
    ensures
        pairs_ok_on(s1, keep),
{
    assert forall|c1: Constraint, c2: Constraint|
        #[trigger] stored(s1, c1) && #[trigger] stored(s1, c2) && c1 != c2 && overlaps(c1, c2) && keep(c1) && keep(c2)
            implies pair_ok(s1, c1, c2) by {
        if stored(s0, c1) && stored(s0, c2) {
            assert(pair_ok(s0, c1, c2));
            if s0.constraints_todo@.contains(c1) {
                let q = choose|q: int| 0 <= q < s0.constraints_todo@.len() && s0.constraints_todo@[q] == c1;
                assert(s1.constraints_todo@[q] == c1);
            } else if s0.constraints_todo@.contains(c2) {
                let q = choose|q: int| 0 <= q < s0.constraints_todo@.len() && s0.constraints_todo@[q] == c2;
                assert(s1.constraints_todo@[q] == c2);
            } else {
                lemma_stored_valid(s0, c1, ex);
                lemma_stored_valid(s0, c2, ex);
                if pair_done(c1, c2, s0) {
                    lemma_pair_done_kept(c1, c2, s0, s1);
                } else {
                    lemma_pair_done_kept(c2, c1, s0, s1);
                }
            }
        }
    }
}

/// A comparison made stays made when a constraint `d` over `(x, y)` is
/// removed, for constraints away from `(x, y)`.
proof fn lemma_pair_done_removed(c1: Constraint, c2: Constraint, s0: StSolver, s1: StSolver, d: Constraint, x: int, y: int, ex: Option<int>)
    requires
        s0.inv(ex),
        pair_done(c1, c2, s0),
        stored(s0, c1),
        stored(s0, c2),
        !c1.covers(x, y),
        !c2.covers(x, y),
        d.covers(x, y),
        s1.board == s0.board,
        forall|i: int, e: Constraint|
            0 <= i < s0.cells().len() ==> (#[trigger] s1.bucket(i).contains(e) <==> (s0.bucket(i).contains(e) && e != d)),
        s0.cells().len() == s0.w() * s0.h(),
    ensures
        pair_done(c1, c2, s1),
{
    let w = s0.w();
    let h = s0.h();
    lemma_stored_valid(s0, c1, ex);
    lemma_stored_valid(s0, c2, ex);
    lemma_cset(c1, w, h);
    lemma_cset(c2, w, h);
    assert forall|set: Set<int>, m: int|
        derived_held(s0, set, m) && (set.subset_of(cset(c1, w)) || set.subset_of(cset(c2, w))) implies derived_held(s1, set, m) by {
        if exists|dd: Constraint| #[trigger] stored(s0, dd) && cset(dd, w) == set && dd.mines == m {
            let dd = choose|dd: Constraint| #[trigger] stored(s0, dd) && cset(dd, w) == set && dd.mines == m;
            lemma_stored_valid(s0, dd, ex);
            lemma_cset(dd, w, h);
            if dd.covers(x, y) {
                lemma_index_coords(w, h, x, y);
                assert(cset(dd, w).contains(index_of(w, x, y)));
                assert(false);
            }
            lemma_index_coords(w, h, dd.x as int, dd.y as int);
            assert(s1.bucket(index_of(w, dd.x as int, dd.y as int)).contains(dd));
            assert(stored(s1, dd));
        }
    }
    assert(wing_cells(c2, c1, w).subset_of(cset(c2, w)));
    assert(wing_cells(c1, c2, w).subset_of(cset(c1, w)));
}

/// The pairs away from `(x, y)` stay compared when a constraint `d` over
/// `(x, y)` is removed.
proof fn lemma_pairs_remove(s0: StSolver, s1: StSolver, d: Constraint, x: int, y: int, ex: Option<int>)
    requires
        s0.inv(ex),
        pairs_ok_on(s0, away_from(x, y)),
        d.covers(x, y),
        s1.board == s0.board,
        forall|i: int, e: Constraint|
            0 <= i < s0.cells().len() ==> (#[trigger] s1.bucket(i).contains(e) <==> (s0.bucket(i).contains(e) && e != d)),
        s1.constraints_todo@ == s0.constraints_todo@.filter(|e: Constraint| e != d),
        s0.cells().len() == s0.w() * s0.h(),
    ensures
        pairs_ok_on(s1, away_from(x, y)),
{
    let w = s0.w();
    let h = s0.h();
    assert forall|c1: Constraint, c2: Constraint|
        #[trigger] stored(s1, c1) && #[trigger] stored(s1, c2) && c1 != c2 && overlaps(c1, c2) && away_from(x, y)(c1) && away_from(
            x,
            y,
        )(c2) implies pair_ok(s1, c1, c2) by {
        lemma_index_coords(w, h, c1.x as int, c1.y as int);
        lemma_index_coords(w, h, c2.x as int, c2.y as int);
        assert(s0.bucket(index_of(w, c1.x as int, c1.y as int)).contains(c1));
        assert(s0.bucket(index_of(w, c2.x as int, c2.y as int)).contains(c2));
        assert(stored(s0, c1) && stored(s0, c2));
        assert(pair_ok(s0, c1, c2));
        let pred = |e: Constraint| e != d;
        if s0.constraints_todo@.contains(c1) {
            let q = choose|q: int| 0 <= q < s0.constraints_todo@.len() && s0.constraints_todo@[q] == c1;
            s0.constraints_todo@.lemma_filter_contains(pred, q);
        } else if s0.constraints_todo@.contains(c2) {
            let q = choose|q: int| 0 <= q < s0.constraints_todo@.len() && s0.constraints_todo@[q] == c2;
            s0.constraints_todo@.lemma_filter_contains(pred, q);
        } else if pair_done(c1, c2, s0) {
            lemma_pair_done_removed(c1, c2, s0, s1, d, x, y, ex);
        } else {
            lemma_pair_done_removed(c2, c1, s0, s1, d, x, y, ex);
        }
    }
}

proof fn lemma_pairs_pop(s0: StSolver, s1: StSolver, c1: Constraint)
    requires
        pairs_ok_on(s0, any_c()),
        s1.board == s0.board,
        s1.constraints == s0.constraints,
        s0.constraints_todo@.len() > 0,
        s0.constraints_todo@[0] == c1,
        s1.constraints_todo@ == s0.constraints_todo@.drop_first(),
    ensures
        pairs_ok_on(s1, other_than(c1)),
{
    assert forall|a: Constraint, b: Constraint|
        #[trigger] stored(s1, a) && #[trigger] stored(s1, b) && a != b && overlaps(a, b) && other_than(c1)(a) && other_than(c1)(b)
            implies pair_ok(s1, a, b) by {
        assert(stored(s0, a) && stored(s0, b));
        assert(any_c()(a) && any_c()(b));
        assert(pair_ok(s0, a, b));
        if s0.constraints_todo@.contains(a) {
            let q = choose|q: int| 0 <= q < s0.constraints_todo@.len() && s0.constraints_todo@[q] == a;
            assert(q != 0);
            assert(s1.constraints_todo@[q - 1] == a);
        } else if s0.constraints_todo@.contains(b) {
            let q = choose|q: int| 0 <= q < s0.constraints_todo@.len() && s0.constraints_todo@[q] == b;
            assert(q != 0);
            assert(s1.constraints_todo@[q - 1] == b);
        } else if pair_done(a, b, s0) {
            lemma_pair_done_same(a, b, s0, s1);
        } else {
            lemma_pair_done_same(b, a, s0, s1);
        }
    }
}

/// Once every pair with `c1` is compared or queued, all pairs are.
proof fn lemma_pairs_close(s: StSolver, c1: Constraint)
    requires
        pairs_ok_on(s, other_than(c1)),
        forall|c2: Constraint| #[trigger] stored(s, c2) && stored(s, c1) && c2 != c1 && overlaps(c1, c2) ==> pair_ok(s, c1, c2),
    ensures
        pairs_ok_on(s, any_c()),
{
    assert forall|a: Constraint, b: Constraint|
        #[trigger] stored(s, a) && #[trigger] stored(s, b) && a != b && overlaps(a, b) && any_c()(a) && any_c()(b)
            implies pair_ok(s, a, b) by {
        if a == c1 {
            assert(pair_ok(s, c1, b));
        } else if b == c1 {
            let (px, py) = choose|px: int, py: int| #[trigger] a.covers(px, py) && #[trigger] b.covers(px, py);
            assert(b.covers(px, py) && a.covers(px, py));
            assert(overlaps(c1, a));
            assert(pair_ok(s, c1, a));
        } else {
            assert(other_than(c1)(a) && other_than(c1)(b));
        }
    }
}

proof fn lemma_pairs_weaken(s: StSolver, keep1: spec_fn(Constraint) -> bool, keep2: spec_fn(Constraint) -> bool)
    requires
        pairs_ok_on(s, keep1),
        forall|c: Constraint| #[trigger] keep2(c) ==> keep1(c),
    ensures
        pairs_ok_on(s, keep2),
{
    assert forall|a: Constraint, b: Constraint|
        #[trigger] stored(s, a) && #[trigger] stored(s, b) && a != b && overlaps(a, b) && keep2(a) && keep2(b) implies pair_ok(
        s,
        a,
        b,
    ) by {
        assert(keep1(a) && keep1(b));
    }
}

/// With no stored constraint over `(x, y)`, the pairs away from it are all
/// the pairs.
proof fn lemma_pairs_away_all(s: StSolver, x: int, y: int)
    requires
        pairs_ok_on(s, away_from(x, y)),
        forall|c: Constraint| #[trigger] stored(s, c) ==> !c.covers(x, y),
    ensures
        pairs_ok_on(s, any_c()),
{
    assert forall|a: Constraint, b: Constraint|
        #[trigger] stored(s, a) && #[trigger] stored(s, b) && a != b && overlaps(a, b) && any_c()(a) && any_c()(b) implies pair_ok(
        s,
        a,
        b,
    ) by {
        assert(away_from(x, y)(a) && away_from(x, y)(b));
    }
}

proof fn lemma_compared_public(c1: Constraint, c2: Constraint, s: StSolver)
    requires
        pair_done(c1, c2, s),
    ensures
        compared_in(c1, c2, &s.board, &s.constraints),
{
    let w = s.w();
    assert forall|set: Set<int>, m: int| derived_held(s, set, m) implies derived_in(&s.board, &s.constraints, set, m) by {
        if exists|d: Constraint| #[trigger] stored(s, d) && cset(d, w) == set && d.mines == m {
            let d = choose|d: Constraint| #[trigger] stored(s, d) && cset(d, w) == set && d.mines == m;
            assert(stored_in(&s.board, &s.constraints, d));
        }
    }
}

/// With the constraint queue worked off, the pairs the solver holds are all
/// compared.
proof fn lemma_pairs_public(s: StSolver)
    requires
        pairs_ok_on(s, any_c()),
        s.constraints_todo@.len() == 0,
    ensures
        pairs_compared(&s.board, &s.constraints),
{
    assert forall|c1: Constraint, c2: Constraint|
        #[trigger] stored_in(&s.board, &s.constraints, c1) && #[trigger] stored_in(&s.board, &s.constraints, c2) && c1 != c2
            && overlaps(c1, c2) implies compared_in(c1, c2, &s.board, &s.constraints) || compared_in(
        c2,
        c1,
        &s.board,
        &s.constraints,
    ) by {
        assert(stored(s, c1) && stored(s, c2));
        assert(any_c()(c1) && any_c()(c2));
        assert(pair_ok(s, c1, c2));
        if pair_done(c1, c2, s) {
            lemma_compared_public(c1, c2, s);
        } else {
            lemma_compared_public(c2, c1, s);
        }
    }
}

/// The cells within one step of `(x, y)` that wait in the cell queue.
spec fn pending_nbrs(s: StSolver, x: int, y: int) -> Set<int> {
    Set::new(|i: int| 0 <= i < s.w() * s.h() && -1 <= i % s.w() - x <= 1 && -1 <= i / s.w() - y <= 1 && s.pending(i))
}

/// The set of cells `set` covers the hidden neighbours of the cell at `p`,
/// and beyond them only neighbours waiting in the queue or cells of `allow`.
spec fn covers_ok(s: StSolver, p: int, set: Set<int>, allow: Set<int>) -> bool {
    let hn = hidden_nbrs(&s.board, p % s.w(), p / s.w());
    &&& hn.subset_of(set)
    &&& set.subset_of(hn.union(pending_nbrs(s, p % s.w(), p / s.w())).union(allow))
}

/// The revealed cell at `p` is accounted for: it waits in the queue, it has
/// no hidden neighbour, a stored constraint (none of whose cells is in
/// `avoid`) stands for its hidden neighbours, or one of `extra` from
/// position `from` on does.
spec fn held_gen(s: StSolver, p: int, allow: Set<int>, avoid: Set<int>, extra: Seq<Constraint>, from: int) -> bool {
    ||| s.pending(p)
    ||| forall|i: int| !#[trigger] hidden_nbrs(&s.board, p % s.w(), p / s.w()).contains(i)
    ||| exists|d: Constraint| #[trigger] stored(s, d) && cset(d, s.w()).disjoint(avoid) && covers_ok(s, p, cset(d, s.w()), allow)
    ||| exists|k: int| from <= k < extra.len() && #[trigger] covers_ok(s, p, cset(extra[k], s.w()), allow)
}

spec fn all_held(s: StSolver, allow: Set<int>, avoid: Set<int>, extra: Seq<Constraint>, from: int, skip: int) -> bool {
    forall|p: int|
        0 <= p < s.cells().len() && s.cells()[p].visibility == Visibility::Revealed && p != skip ==> #[trigger] held_gen(
            s,
            p,
            allow,
            avoid,
            extra,
            from,
        )
}

/// Every revealed cell is accounted for.
spec fn cells_held(s: StSolver) -> bool {
    all_held(s, Set::empty(), Set::empty(), Seq::empty(), 0, -1)
}

proof fn lemma_hn(b: &Board, x: int, y: int, i: int)
    requires
        0 < b.w(),
        b.cells().len() == b.w() * b.h(),
    ensures
        hidden_nbrs(b, x, y).contains(i) <==> (0 <= i < b.cells().len() && -1 <= i % b.w() - x <= 1 && -1 <= i / b.w() - y
            <= 1 && b.cells()[i].visibility == Visibility::Hidden),
{
    if 0 <= i < b.w() * b.h() {
        lemma_coords_index(b.w(), b.h(), i);
    }
}

proof fn lemma_pending_grow(s0: StSolver, s1: StSolver, j: int)
    requires
        s0.pending(j),
        s1.w() == s0.w(),
        s0.cell_todo@.len() <= s1.cell_todo@.len(),
        forall|q: int| 0 <= q < s0.cell_todo@.len() ==> #[trigger] s1.cell_todo@[q] == s0.cell_todo@[q],
    ensures
        s1.pending(j),
{
    let c = ((j % s0.w()) as usize, (j / s0.w()) as usize);
    let q = choose|q: int| 0 <= q < s0.cell_todo@.len() && s0.cell_todo@[q] == c;
    assert(s1.cell_todo@[q] == c);
}

/// The accounts stay while the solver advances and keeps its constraints.
proof fn lemma_held_persist(
    s0: StSolver,
    s1: StSolver,
    allow: Set<int>,
    avoid: Set<int>,
    extra: Seq<Constraint>,
    from: int,
    skip: int,
)
    requires
        all_held(s0, allow, avoid, extra, from, skip),
        advances(s0, s1),
        forall|i: int, d: Constraint|
            0 <= i < s0.cells().len() && s0.bucket(i).contains(d) ==> #[trigger] s1.bucket(i).contains(d),
        s0.board.wf(),
        0 < s0.w(),
        s0.cells().len() == s0.w() * s0.h(),
    ensures
        all_held(s1, allow, avoid, extra, from, skip),
{
    let w = s0.w();
    let h = s0.h();
    assert(s1.w() == w && s1.h() == h);
    assert forall|p: int|
        0 <= p < s1.cells().len() && s1.cells()[p].visibility == Visibility::Revealed && p != skip implies #[trigger] held_gen(
        s1,
        p,
        allow,
        avoid,
        extra,
        from,
    ) by {
        if s0.cells()[p].visibility == Visibility::Hidden {
            assert(s1.pending(p));
        } else {
            assert(s0.cells()[p].visibility == Visibility::Revealed);
            assert(held_gen(s0, p, allow, avoid, extra, from));
            let x = p % w;
            let y = p / w;
            let hn0 = hidden_nbrs(&s0.board, x, y);
            let hn1 = hidden_nbrs(&s1.board, x, y);
            let pn0 = pending_nbrs(s0, x, y);
            let pn1 = pending_nbrs(s1, x, y);
            assert forall|i: int| hn1.contains(i) implies hn0.contains(i) by {
                lemma_hn(&s1.board, x, y, i);
                lemma_hn(&s0.board, x, y, i);
            }
            assert forall|i: int| hn0.contains(i) implies hn1.contains(i) || pn1.contains(i) by {
                lemma_hn(&s1.board, x, y, i);
                lemma_hn(&s0.board, x, y, i);
                if s1.cells()[i].visibility != Visibility::Hidden {
                    assert(s1.pending(i));
                }
            }
            assert forall|i: int| pn0.contains(i) implies pn1.contains(i) by {
                lemma_pending_grow(s0, s1, i);
            }
            assert forall|set: Set<int>| covers_ok(s0, p, set, allow) implies covers_ok(s1, p, set, allow) by {
                assert forall|i: int| set.contains(i) implies hn1.union(pn1).union(allow).contains(i) by {
                    assert(hn0.union(pn0).union(allow).contains(i));
                }
            }
            if s0.pending(p) {
                lemma_pending_grow(s0, s1, p);
            } else if forall|i: int| !#[trigger] hn0.contains(i) {
                assert forall|i: int| !#[trigger] hn1.contains(i) by {
                    if hn1.contains(i) {
                        assert(hn0.contains(i));
                    }
                }
            } else if exists|d: Constraint| #[trigger] stored(s0, d) && cset(d, w).disjoint(avoid) && covers_ok(s0, p, cset(d, w), allow) {
                let d = choose|d: Constraint| #[trigger] stored(s0, d) && cset(d, w).disjoint(avoid) && covers_ok(s0, p, cset(d, w), allow);
                lemma_index_coords(w, h, d.x as int, d.y as int);
                assert(s1.bucket(index_of(w, d.x as int, d.y as int)).contains(d));
                assert(stored(s1, d));
                assert(covers_ok(s1, p, cset(d, w), allow));
            } else {
                let k = choose|k: int| from <= k < extra.len() && #[trigger] covers_ok(s0, p, cset(extra[k], w), allow);
                assert(covers_ok(s1, p, cset(extra[k], w), allow));
            }
        }
    }
}

/// Removing a constraint over `(x, y)` keeps the accounts that avoid the
/// cell `j` there.
proof fn lemma_held_remove(s0: StSolver, s1: StSolver, d0: Constraint, x: int, y: int, j: int, extra: Seq<Constraint>, from: int, ex: Option<int>)
    requires
        s0.inv(ex),
        all_held(s0, Set::empty(), set![j], extra, from, -1),
        d0.covers(x, y),
        0 <= x < s0.w(),
        0 <= y < s0.h(),
        j == index_of(s0.w(), x, y),
        s1.board == s0.board,
        s1.cell_todo == s0.cell_todo,
        forall|i: int, e: Constraint|
            0 <= i < s0.cells().len() ==> (#[trigger] s1.bucket(i).contains(e) <==> (s0.bucket(i).contains(e) && e != d0)),
        s0.cells().len() == s0.w() * s0.h(),
    ensures
        all_held(s1, Set::empty(), set![j], extra, from, -1),
{
    let w = s0.w();
    let h = s0.h();
    lemma_index_coords(w, h, x, y);
    assert forall|p: int|
        0 <= p < s1.cells().len() && s1.cells()[p].visibility == Visibility::Revealed && p != -1 implies #[trigger] held_gen(
        s1,
        p,
        Set::empty(),
        set![j],
        extra,
        from,
    ) by {
        assert(held_gen(s0, p, Set::empty(), set![j], extra, from));
        assert(hidden_nbrs(&s1.board, p % w, p / w) == hidden_nbrs(&s0.board, p % w, p / w));
        assert(pending_nbrs(s1, p % w, p / w) =~= pending_nbrs(s0, p % w, p / w));
        if !s0.pending(p) && !(forall|i: int| !#[trigger] hidden_nbrs(&s0.board, p % w, p / w).contains(i)) {
            if exists|d: Constraint| #[trigger] stored(s0, d) && cset(d, w).disjoint(set![j]) && covers_ok(s0, p, cset(d, w), Set::empty()) {
                let d = choose|d: Constraint| #[trigger] stored(s0, d) && cset(d, w).disjoint(set![j]) && covers_ok(s0, p, cset(d, w), Set::empty());
                lemma_stored_valid(s0, d, ex);
                lemma_cset(d, w, h);
                assert(!d.covers(x, y)) by {
                    if d.covers(x, y) {
                        assert(cset(d, w).contains(j));
                        assert(set![j].contains(j));
                    }
                }
                lemma_index_coords(w, h, d.x as int, d.y as int);
                assert(s1.bucket(index_of(w, d.x as int, d.y as int)).contains(d));
                assert(stored(s1, d));
                assert(covers_ok(s1, p, cset(d, w), Set::empty()));
            } else {
                let k = choose|k: int| from <= k < extra.len() && #[trigger] covers_ok(s0, p, cset(extra[k], w), Set::empty());
                assert(covers_ok(s1, p, cset(extra[k], w), Set::empty()));
            }
        }
    }
}

/// The constraint `extra[from]` has been inserted and what it says is held:
/// the accounts resting on it rest on the solver.
proof fn lemma_extra_step(s: StSolver, extra: Seq<Constraint>, from: int, m: int)
    requires
        all_held(s, Set::empty(), Set::empty(), extra, from, -1),
        0 <= from < extra.len(),
        held_by(s, cset(extra[from], s.w()), m, extra[from]),
        0 < s.w(),
        s.cells().len() == s.w() * s.h(),
    ensures
        all_held(s, Set::empty(), Set::empty(), extra, from + 1, -1),
{
    let w = s.w();
    let n = extra[from];
    assert forall|p: int|
        0 <= p < s.cells().len() && s.cells()[p].visibility == Visibility::Revealed && p != -1 implies #[trigger] held_gen(
        s,
        p,
        Set::empty(),
        Set::empty(),
        extra,
        from + 1,
    ) by {
        assert(held_gen(s, p, Set::empty(), Set::empty(), extra, from));
        let hn = hidden_nbrs(&s.board, p % w, p / w);
        if !s.pending(p) && !(forall|i: int| !#[trigger] hn.contains(i)) && !(exists|d: Constraint|
            #[trigger] stored(s, d) && cset(d, w).disjoint(Set::<int>::empty()) && covers_ok(s, p, cset(d, w), Set::empty())) {
            let k = choose|k: int| from <= k < extra.len() && #[trigger] covers_ok(s, p, cset(extra[k], w), Set::empty());
            if k == from {
                if stored(s, n) && cset(n, w) == cset(extra[from], w) {
                    assert(cset(n, w).disjoint(Set::<int>::empty()));
                    assert(false);
                } else {
                    assert forall|i: int| !#[trigger] hn.contains(i) by {
                        if hn.contains(i) {
                            assert(cset(n, w).contains(i));
                            lemma_hn(&s.board, p % w, p / w, i);
                        }
                    }
                    assert(false);
                }
            }
        }
    }
}

/// With no constraint over the cell `j` left to stand for a neighbourhood,
/// every account that allowed `j` rests on a constraint that avoids it, or
/// on the update of one that covered it.
proof fn lemma_held_convert(s: StSolver, j: int, extra: Seq<Constraint>, ex: Option<int>)
    requires
        s.inv(ex),
        all_held(s, set![j], Set::empty(), Seq::empty(), 0, -1),
        0 <= j < s.cells().len(),
        s.cells()[j].visibility != Visibility::Hidden,
        s.cells().len() == s.w() * s.h(),
        forall|d: Constraint|
            #[trigger] stored(s, d) && cset(d, s.w()).contains(j) ==> cset(d, s.w()) == set![j] || exists|k: int|
                0 <= k < extra.len() && cset(#[trigger] extra[k], s.w()) == cset(d, s.w()).remove(j),
    ensures
        all_held(s, Set::empty(), set![j], extra, 0, -1),
{
    let w = s.w();
    assert forall|p: int|
        0 <= p < s.cells().len() && s.cells()[p].visibility == Visibility::Revealed && p != -1 implies #[trigger] held_gen(
        s,
        p,
        Set::empty(),
        set![j],
        extra,
        0,
    ) by {
        assert(held_gen(s, p, set![j], Set::empty(), Seq::empty(), 0));
        let hn = hidden_nbrs(&s.board, p % w, p / w);
        let pn = pending_nbrs(s, p % w, p / w);
        lemma_hn(&s.board, p % w, p / w, j);
        assert(!hn.contains(j));
        if !s.pending(p) && !(forall|i: int| !#[trigger] hn.contains(i)) {
            let d = choose|d: Constraint| #[trigger] stored(s, d) && cset(d, w).disjoint(Set::<int>::empty()) && covers_ok(s, p, cset(d, w), set![j]);
            if cset(d, w).contains(j) {
                if cset(d, w) == set![j] {
                    assert forall|i: int| !#[trigger] hn.contains(i) by {
                        if hn.contains(i) {
                            assert(cset(d, w).contains(i));
                        }
                    }
                } else {
                    let k = choose|k: int| 0 <= k < extra.len() && cset(#[trigger] extra[k], w) == cset(d, w).remove(j);
                    assert(covers_ok(s, p, cset(extra[k], w), Set::empty()));
                }
            } else {
                assert(cset(d, w).disjoint(set![j]));
                assert(covers_ok(s, p, cset(d, w), Set::empty()));
            }
        }
    }
}

/// Taking the front cell `j` off the queue leaves the other cells accounted
/// for, allowing `j` among their cells.
proof fn lemma_held_pop(s0: StSolver, s1: StSolver, j: int)
    requires
        cells_held(s0),
        s0.cell_todo@.len() > 0,
        0 < s0.w(),
        s0.cells().len() == s0.w() * s0.h(),
        j == index_of(s0.w(), s0.cell_todo@[0].0 as int, s0.cell_todo@[0].1 as int),
        s0.cell_todo@[0].0 < s0.w(),
        s0.cell_todo@[0].1 < s0.h(),
        s1.board == s0.board,
        s1.constraints == s0.constraints,
        s1.cell_todo@ == s0.cell_todo@.subrange(1, s0.cell_todo@.len() as int),
    ensures
        all_held(s1, set![j], Set::empty(), Seq::empty(), 0, j),
{
    let w = s0.w();
    let h = s0.h();
    let c0 = s0.cell_todo@[0];
    lemma_index_coords(w, h, c0.0 as int, c0.1 as int);
    assert forall|i: int| 0 <= i < s0.cells().len() && i != j && #[trigger] s0.pending(i) implies s1.pending(i) by {
        lemma_coords_index(w, h, i);
        let c = ((i % w) as usize, (i / w) as usize);
        let q = choose|q: int| 0 <= q < s0.cell_todo@.len() && s0.cell_todo@[q] == c;
        if q == 0 {
            assert(index_of(w, c.0 as int, c.1 as int) == i);
        } else {
            assert(s1.cell_todo@[q - 1] == c);
        }
    }
    assert forall|p: int|
        0 <= p < s1.cells().len() && s1.cells()[p].visibility == Visibility::Revealed && p != j implies #[trigger] held_gen(
        s1,
        p,
        set![j],
        Set::empty(),
        Seq::empty(),
        0,
    ) by {
        assert(held_gen(s0, p, Set::empty(), Set::empty(), Seq::empty(), 0));
        let hn = hidden_nbrs(&s0.board, p % w, p / w);
        let pn0 = pending_nbrs(s0, p % w, p / w);
        let pn1 = pending_nbrs(s1, p % w, p / w);
        assert forall|i: int| pn0.contains(i) implies pn1.contains(i) || i == j by {}
        if s0.pending(p) {
        } else if forall|i: int| !#[trigger] hn.contains(i) {
        } else {
            let d = choose|d: Constraint| #[trigger] stored(s0, d) && cset(d, w).disjoint(Set::<int>::empty()) && covers_ok(s0, p, cset(d, w), Set::empty());
            assert(stored(s1, d));
            assert forall|i: int| cset(d, w).contains(i) implies hn.union(pn1).union(set![j]).contains(i) by {
                assert(hn.union(pn0).contains(i));
            }
            assert(covers_ok(s1, p, cset(d, w), set![j]));
        }
    }
}

/// The update of `d` for the cell `j` left its queue: the constraint over
/// the rest of its cells, or none when `j` was its only cell.
spec fn corresponds(d: Constraint, j: int, w: int, ins: Seq<Constraint>) -> bool {
    ||| cset(d, w) == set![j]
    ||| exists|k: int| 0 <= k < ins.len() && cset(#[trigger] ins[k], w) == cset(d, w).remove(j)
}

proof fn lemma_cset_minus(c: Constraint, n: Constraint, x: int, y: int, w: int, h: int)
    requires
        0 < w,
        w * h <= usize::MAX,
        c.mask_ok(),
        n.mask_ok(),
        covers_in_grid(c, w, h),
        0 <= x < w,
        0 <= y < h,
        forall|a: int, b: int| #[trigger] n.covers(a, b) == (c.covers(a, b) && !(a == x && b == y)),
    ensures
        covers_in_grid(n, w, h),
        cset(n, w) == cset(c, w).remove(index_of(w, x, y)),
{
    assert forall|a: int, b: int| #[trigger] n.covers(a, b) implies 0 <= a < w && 0 <= b < h by {
        assert(c.covers(a, b));
    }
    lemma_cset(c, w, h);
    lemma_cset(n, w, h);
    lemma_index_coords(w, h, x, y);
    assert forall|i: int| cset(n, w).contains(i) <==> cset(c, w).remove(index_of(w, x, y)).contains(i) by {
        if 0 <= i < w * h {
            lemma_coords_index(w, h, i);
        }
    }
    assert(cset(n, w) =~= cset(c, w).remove(index_of(w, x, y)));
}

/// A constraint whose only cell is `(x, y)`.
proof fn lemma_cset_single(c: Constraint, n: Constraint, x: int, y: int, w: int, h: int)
    requires
        0 < w,
        w * h <= usize::MAX,
        c.mask_ok(),
        n.mask_ok(),
        n.mask == 0,
        covers_in_grid(c, w, h),
        0 <= x < w,
        0 <= y < h,
        c.covers(x, y),
        forall|a: int, b: int| #[trigger] n.covers(a, b) == (c.covers(a, b) && !(a == x && b == y)),
    ensures
        cset(c, w) == set![index_of(w, x, y)],
{
    lemma_cset_minus(c, n, x, y, w, h);
    super::lemma_zero_mask(n.mask);
    lemma_cset(n, w, h);
    lemma_cset(c, w, h);
    lemma_index_coords(w, h, x, y);
    cset(n, w).lemma_len0_is_empty();
    assert forall|i: int| cset(c, w).contains(i) <==> set![index_of(w, x, y)].contains(i) by {
        if cset(c, w).contains(i) && i != index_of(w, x, y) {
            assert(cset(n, w).contains(i));
        }
    }
    assert(cset(c, w) =~= set![index_of(w, x, y)]);
}

/// The cell `j` at `(x, y)` itself, after its constraint went in.
proof fn lemma_held_self(sp: StSolver, s1: StSolver, j: int, x: int, y: int, set: Set<int>, m: int, c: Constraint)
    requires
        advances(sp, s1),
        sp.board.wf(),
        0 < sp.w(),
        sp.cells().len() == sp.w() * sp.h(),
        0 <= x < sp.w(),
        0 <= y < sp.h(),
        j == index_of(sp.w(), x, y),
        set == hidden_nbrs(&sp.board, x, y),
        held_by(s1, set, m, c),
    ensures
        held_gen(s1, j, set![j], Set::empty(), Seq::empty(), 0),
{
    let w = sp.w();
    let h = sp.h();
    lemma_index_coords(w, h, x, y);
    let hn1 = hidden_nbrs(&s1.board, x, y);
    assert forall|i: int| hn1.contains(i) implies set.contains(i) by {
        lemma_hn(&s1.board, x, y, i);
        lemma_hn(&sp.board, x, y, i);
    }
    if (m == 0 || m == set.len()) && forall|i: int| #[trigger] set.contains(i) ==> s1.cells()[i].visibility != Visibility::Hidden {
        assert forall|i: int| !#[trigger] hn1.contains(i) by {
            if hn1.contains(i) {
                lemma_hn(&s1.board, x, y, i);
                assert(set.contains(i));
            }
        }
    } else {
        assert(stored(s1, c) && cset(c, w) == set);
        assert forall|i: int| set.contains(i) implies hn1.union(pending_nbrs(s1, x, y)).union(set![j]).contains(i) by {
            lemma_hn(&s1.board, x, y, i);
            lemma_hn(&sp.board, x, y, i);
            if s1.cells()[i].visibility != Visibility::Hidden {
                assert(s1.pending(i));
            }
        }
        assert(covers_ok(s1, j, cset(c, w), set![j]));
        assert(cset(c, w).disjoint(Set::<int>::empty()));
    }
}

proof fn lemma_held_add(s: StSolver, j: int, allow: Set<int>)
    requires
        all_held(s, allow, Set::empty(), Seq::empty(), 0, j),
        0 <= j < s.cells().len() && s.cells()[j].visibility == Visibility::Revealed ==> held_gen(
            s,
            j,
            allow,
            Set::empty(),
            Seq::empty(),
            0,
        ),
    ensures
        all_held(s, allow, Set::empty(), Seq::empty(), 0, -1),
{
    assert forall|p: int|
        0 <= p < s.cells().len() && s.cells()[p].visibility == Visibility::Revealed && p != -1 implies #[trigger] held_gen(
        s,
        p,
        allow,
        Set::empty(),
        Seq::empty(),
        0,
    ) by {
        if p != j {
            assert(held_gen(s, p, allow, Set::empty(), Seq::empty(), 0));
        }
    }
}

proof fn lemma_avoid_drop(s: StSolver, avoid: Set<int>, extra: Seq<Constraint>, from: int)
    requires
        all_held(s, Set::empty(), avoid, extra, from, -1),
    ensures
        all_held(s, Set::empty(), Set::empty(), extra, from, -1),
{
    let w = s.w();
    assert forall|p: int|
        0 <= p < s.cells().len() && s.cells()[p].visibility == Visibility::Revealed && p != -1 implies #[trigger] held_gen(
        s,
        p,
        Set::empty(),
        Set::empty(),
        extra,
        from,
    ) by {
        assert(held_gen(s, p, Set::empty(), avoid, extra, from));
        if exists|d: Constraint| #[trigger] stored(s, d) && cset(d, w).disjoint(avoid) && covers_ok(s, p, cset(d, w), Set::empty()) {
            let d = choose|d: Constraint| #[trigger] stored(s, d) && cset(d, w).disjoint(avoid) && covers_ok(s, p, cset(d, w), Set::empty());
            assert(cset(d, w).disjoint(Set::<int>::empty()));
        }
    }
}

proof fn lemma_held_finish(s: StSolver, extra: Seq<Constraint>)
    requires
        all_held(s, Set::empty(), Set::empty(), extra, extra.len() as int, -1),
    ensures
        cells_held(s),
{
    assert forall|p: int|
        0 <= p < s.cells().len() && s.cells()[p].visibility == Visibility::Revealed && p != -1 implies #[trigger] held_gen(
        s,
        p,
        Set::empty(),
        Set::empty(),
        Seq::empty(),
        0,
    ) by {
        assert(held_gen(s, p, Set::empty(), Set::empty(), extra, extra.len() as int));
    }
}

/// With the cell queue worked off, every revealed cell's constraint is held.
proof fn lemma_cells_public(s: StSolver)
    requires
        cells_held(s),
        s.cell_todo@.len() == 0,
    ensures
        cells_complete(&s.board, &s.constraints),
{
    let w = s.w();
    assert forall|p: int|
        0 <= p < s.cells().len() && s.cells()[p].visibility == Visibility::Revealed && (exists|i: int|
            #[trigger] hidden_nbrs(&s.board, p % w, p / w).contains(i)) implies exists|d: Constraint|
        #[trigger] stored_in(&s.board, &s.constraints, d) && cset(d, w) == hidden_nbrs(&s.board, p % w, p / w) by {
        assert(held_gen(s, p, Set::empty(), Set::empty(), Seq::empty(), 0));
        let hn = hidden_nbrs(&s.board, p % w, p / w);
        let pn = pending_nbrs(s, p % w, p / w);
        assert(!s.pending(p));
        let i0 = choose|i: int| #[trigger] hn.contains(i);
        assert(hn.contains(i0));
        let d = choose|d: Constraint| #[trigger] stored(s, d) && cset(d, w).disjoint(Set::<int>::empty()) && covers_ok(s, p, cset(d, w), Set::empty());
        assert forall|i: int| cset(d, w).contains(i) implies hn.contains(i) by {
            assert(hn.union(pn).union(Set::empty()).contains(i));
            if pn.contains(i) {
                assert(s.pending(i));
            }
        }
        assert(cset(d, w) =~= hn);
        assert(stored_in(&s.board, &s.constraints, d));
    }
}

/// The cell `i` lies in the wing of one stored constraint against another
/// that it overlaps.
spec fn in_some_wing(s: StSolver, i: int) -> bool {
    exists|c1: Constraint, c2: Constraint|
        #[trigger] stored(s, c1) && #[trigger] stored(s, c2) && c1 != c2 && overlaps(c1, c2) && (wing_cells(c1, c2, s.w()).contains(i)
            || wing_cells(c2, c1, s.w()).contains(i))
}

proof fn lemma_wing_kept(s0: StSolver, s1: StSolver, i: int)
    requires
        in_some_wing(s0, i),
        forall|k: int, d: Constraint|
            0 <= k < s0.cells().len() && s0.bucket(k).contains(d) ==> #[trigger] s1.bucket(k).contains(d),
        s1.w() == s0.w(),
        s1.h() == s0.h(),
        0 < s0.w(),
        s0.cells().len() == s0.w() * s0.h(),
    ensures
        in_some_wing(s1, i),
{
    let w = s0.w();
    let h = s0.h();
    let (c1, c2) = choose|c1: Constraint, c2: Constraint|
        #[trigger] stored(s0, c1) && #[trigger] stored(s0, c2) && c1 != c2 && overlaps(c1, c2) && (wing_cells(c1, c2, w).contains(i)
            || wing_cells(c2, c1, w).contains(i));
    lemma_index_coords(w, h, c1.x as int, c1.y as int);
    lemma_index_coords(w, h, c2.x as int, c2.y as int);
    assert(s1.bucket(index_of(w, c1.x as int, c1.y as int)).contains(c1));
    assert(s1.bucket(index_of(w, c2.x as int, c2.y as int)).contains(c2));
    assert(stored(s1, c1) && stored(s1, c2));
}

/// `s1` follows `s0`: hidden cells were uncovered by forced moves, each of
/// them queued, and the cell queue only grew at its back.
spec fn advances(s0: StSolver, s1: StSolver) -> bool {
    &&& evolves(&s0.board, &s1.board)
    &&& s1.options == s0.options
    &&& deduced(&s0.board, &s1.board, s0.num_mines as int)
    &&& s1.num_mines == s0.num_mines
    &&& s0.cell_todo@.len() <= s1.cell_todo@.len()
    &&& forall|q: int| 0 <= q < s0.cell_todo@.len() ==> #[trigger] s1.cell_todo@[q] == s0.cell_todo@[q]
    &&& forall|i: int|
        0 <= i < s0.cells().len() && (#[trigger] s1.cells()[i]).visibility != Visibility::Hidden
            && s0.cells()[i].visibility == Visibility::Hidden ==> s1.pending(i)
}

proof fn lemma_advances_refl(s: StSolver)
    requires
        s.board.wf(),
    ensures
        advances(s, s),
{
    lemma_deduced_refl(&s.board, s.num_mines as int);
}

proof fn lemma_advances_trans(s0: StSolver, s1: StSolver, s2: StSolver)
    requires
        advances(s0, s1),
        advances(s1, s2),
    ensures
        advances(s0, s2),
{
    lemma_evolves_trans(&s0.board, &s1.board, &s2.board);
    lemma_deduced_trans(&s0.board, &s1.board, &s2.board, s0.num_mines as int);
    assert forall|i: int|
        0 <= i < s0.cells().len() && (#[trigger] s2.cells()[i]).visibility != Visibility::Hidden
            && s0.cells()[i].visibility == Visibility::Hidden implies s2.pending(i) by {
        if s1.cells()[i].visibility != Visibility::Hidden {
            assert(s1.pending(i));
            let p = ((i % s1.w()) as usize, (i / s1.w()) as usize);
            let q = choose|q: int| 0 <= q < s1.cell_todo@.len() && s1.cell_todo@[q] == p;
            assert(s2.cell_todo@[q] == p);
        }
    }
}

/// A valid constraint stays valid while the solver advances.
proof fn lemma_valid_advances(s0: StSolver, s1: StSolver, c: Constraint, ex: Option<int>)
    requires
        s0.board.wf(),
        0 < s0.w(),
        s0.valid_constraint(c, ex),
        advances(s0, s1),
    ensures
        s1.valid_constraint(c, ex),
{
    let w = s0.w();
    let h = s0.h();
    lemma_cset(c, w, h);
    lemma_mset_same_mines(c, s0.cells(), s1.cells(), w);
    lemma_known_evolves(c, &s0.board, &s1.board, s0.num_mines as int);
    assert forall|j: int| #[trigger] cset(c, w).contains(j) implies s1.cells()[j].visibility == Visibility::Hidden
        || s1.pending(j) || ex == Some(j) by {
        if s0.pending(j) {
            let p = ((j % w) as usize, (j / w) as usize);
            let q = choose|q: int| 0 <= q < s0.cell_todo@.len() && s0.cell_todo@[q] == p;
            assert(s1.cell_todo@[q] == p);
        }
    }
}

impl StSolver {
    /// The invariant survives a hidden cell at `i` becoming `v` (in line with
    /// its mine) and being queued.
    proof fn lemma_inv_after_known(s0: &StSolver, s1: &StSolver, i: int, v: Visibility, ex: Option<int>)
        requires
            s0.inv(ex),
            0 <= i < s0.cells().len(),
            s0.cells()[i].visibility == Visibility::Hidden,
            v != Visibility::Hidden,
            v == Visibility::Flagged <==> s0.cells()[i].is_mine,
            s1.board.wf(),
            s1.board.grid.width == s0.board.grid.width,
            s1.board.grid.height == s0.board.grid.height,
            s1.board.num_mines == s0.board.num_mines,
            s1.cells() == s0.cells().update(i, with_vis(s0.cells()[i], v)),
            s1.cell_todo@ == s0.cell_todo@.push(((i % s0.w()) as usize, (i / s0.w()) as usize)),
            s1.constraints == s0.constraints,
            s1.constraints_todo == s0.constraints_todo,
            s1.num_mines == s0.num_mines,
        ensures
            s1.inv(ex),
            evolves(&s0.board, &s1.board),
            s1.measure_a() == s0.measure_a() - 1,
            s1.measure_b() == s0.measure_b(),
    {
        let w = s0.w();
        let h = s0.h();
        let t0 = s0.cells();
        let t1 = s1.cells();
        lemma_coords_index(w, h, i);
        assert forall|k: int| 0 <= k < t0.len() implies {
            &&& (#[trigger] t1[k]).is_mine == t0[k].is_mine
            &&& t1[k].adjacent_mines == t0[k].adjacent_mines
            &&& t0[k].visibility != Visibility::Hidden ==> t1[k].visibility == t0[k].visibility
        } by {
            if k != i {
                assert(t1[k] == t0[k]);
            }
        }
        assert(evolves(&s0.board, &s1.board));
        assert forall|k: int| 0 <= k < t1.len() implies #[trigger] s1.board.hint_ok(k) by {
            assert(s0.board.hint_ok(k));
            lemma_adj_same_mines(t0, t1, w, h, k % w, k / w);
        }
        lemma_count_mines_update(t0, i, with_vis(t0[i], v));
        lemma_count_vis_update(t0, i, with_vis(t0[i], v), Visibility::Hidden);
        assert forall|k: int| 0 <= k < t1.len() implies (#[trigger] s1.bucket(k)).no_duplicates() by {
            assert(s0.bucket(k) == s1.bucket(k));
        }
        assert forall|k: int, q: int| 0 <= k < t1.len() && 0 <= q < s1.bucket(k).len() implies {
            let c = #[trigger] s1.bucket(k)[q];
            &&& c.x == k % w
            &&& c.y == k / w
            &&& c.mask != 0
            &&& 0 < c.mines < popcount9(c.mask)
            &&& s1.valid_constraint(c, ex)
        } by {
            let c = s1.bucket(k)[q];
            assert(s0.bucket(k)[q] == c);
            assert(s0.valid_constraint(c, ex));
            lemma_cset(c, w, h);
            lemma_mset_same_mines(c, t0, t1, w);
            lemma_known_evolves(c, &s0.board, &s1.board, s0.num_mines as int);
            assert forall|j: int| #[trigger] cset(c, w).contains(j) implies t1[j].visibility == Visibility::Hidden
                || s1.pending(j) || ex == Some(j) by {
                if j == i {
                    assert(s1.cell_todo@[s1.cell_todo@.len() - 1] == ((j % w) as usize, (j / w) as usize));
                } else if s0.pending(j) {
                    let q2 = choose|q2: int| 0 <= q2 < s0.cell_todo@.len() && s0.cell_todo@[q2] == ((j % w) as usize, (j / w) as usize);
                    assert(s1.cell_todo@[q2] == s0.cell_todo@[q2]);
                }
            }
        }
        assert forall|q: int| 0 <= q < s1.cell_todo@.len() implies {
            let p = #[trigger] s1.cell_todo@[q];
            &&& p.0 < w
            &&& p.1 < h
            &&& cell_at(&s1.board, p.0 as int, p.1 as int).visibility != Visibility::Hidden
        } by {
            let p = s1.cell_todo@[q];
            if q < s0.cell_todo@.len() {
                assert(s0.cell_todo@[q] == p);
                lemma_index_coords(w, h, p.0 as int, p.1 as int);
            } else {
                lemma_index_coords(w, h, p.0 as int, p.1 as int);
            }
        }
        assert forall|k: int| 0 <= k < t1.len() implies {
            &&& (#[trigger] t1[k]).visibility == Visibility::Revealed ==> !t1[k].is_mine
            &&& t1[k].visibility == Visibility::Flagged ==> t1[k].is_mine
        } by {
            if k != i {
                assert(t0[k] == t1[k]);
            }
        }
    }

    /// Marks a hidden cell as flagged or revealed, and queues it.
    fn known_cell(&mut self, coords: (usize, usize), cell_type: Visibility, Ghost(ex): Ghost<Option<int>>)
        requires
            old(self).inv(ex),
            coords.0 < old(self).w(),
            coords.1 < old(self).h(),
            cell_type != Visibility::Hidden,
            cell_at(&old(self).board, coords.0 as int, coords.1 as int).visibility == Visibility::Hidden ==> forced(
                &old(self).board,
                old(self).num_mines as int,
                index_of(old(self).w(), coords.0 as int, coords.1 as int),
                cell_type,
            ),
        ensures
            final(self).inv(ex),
            evolves(&old(self).board, &final(self).board),
            final(self).constraints == old(self).constraints,
            final(self).constraints_todo == old(self).constraints_todo,
            final(self).num_mines == old(self).num_mines,
            final(self).measure_b() == old(self).measure_b(),
            final(self).measure_a() <= old(self).measure_a(),
            advances(*old(self), *final(self)),
            cell_at(&old(self).board, coords.0 as int, coords.1 as int).visibility == Visibility::Hidden ==> ({
                let i = index_of(old(self).w(), coords.0 as int, coords.1 as int);
                &&& final(self).cells() == old(self).cells().update(i, with_vis(old(self).cells()[i], cell_type))
                &&& final(self).cell_todo@ == old(self).cell_todo@.push(coords)
                &&& final(self).measure_a() < old(self).measure_a()
            }),
            cell_at(&old(self).board, coords.0 as int, coords.1 as int).visibility != Visibility::Hidden ==> {
                &&& final(self).board == old(self).board
                &&& final(self).cell_todo == old(self).cell_todo
            },
    {
        proof {
            lemma_index_coords(self.w(), self.h(), coords.0 as int, coords.1 as int);
        }
        if self.board.peek(coords) != Visibility::Hidden {
            proof {
                lemma_advances_refl(*self);
            }
            return;
        }
        let ghost s0 = *self;
        let ghost i = index_of(self.w(), coords.0 as int, coords.1 as int);
        proof {
            lemma_actual_possible(&s0.board, s0.num_mines as int);
            lemma_forced_actual(&s0.board, s0.num_mines as int, i, cell_type);
        }
        match cell_type {
            Visibility::Flagged => {
                self.board.flag(coords).expect("Error while flagging cell.");
            },
            Visibility::Revealed => {
                self.board.open(coords).expect("Error while revealing cell.");
            },
            Visibility::Hidden => {},
        };
        self.cell_todo.push_back(coords);
        proof {
            Self::lemma_inv_after_known(&s0, self, i, cell_type, ex);
            lemma_deduced_move(&s0.board, &self.board, s0.num_mines as int, i, cell_type);
            assert forall|k: int|
                0 <= k < s0.cells().len() && (#[trigger] self.cells()[k]).visibility != Visibility::Hidden
                    && s0.cells()[k].visibility == Visibility::Hidden implies self.pending(k) by {
                if k == i {
                    assert(self.cell_todo@[self.cell_todo@.len() - 1] == coords);
                } else {
                    assert(self.cells()[k] == s0.cells()[k]);
                }
            }
        }
    }

    /// Initialises the cell queue with all currently revealed cells.
    fn init(board: Board, num_mines: usize, options: SolverOptions) -> (r: Self)
        requires
            board.wf(),
            0 < board.grid.width,
            0 < board.grid.height,
            board.hints_consistent(),
            board.visibility_consistent(),
            num_mines == count_mines(board.cells()),
        ensures
            r.inv(None),
            r.board == board,
            r.constraints_todo@.len() == 0,
            r.options == options,
            pairs_ok_on(r, any_c()),
            cells_held(r),
    {
        let mut cell_todo: VecDeque<(usize, usize)> = VecDeque::new();
        let cells = board.iter_cells();
        let mut k: usize = 0;
        while k < cells.len()
            invariant
                board.wf(),
                0 < board.grid.width,
                cells.len() == board.cells().len(),
                forall|q: int| 0 <= q < cells.len() ==> #[trigger] cells@[q] == ((q % board.w()) as usize, (q / board.w()) as usize),
                k <= cells.len(),
                forall|q: int|
                    0 <= q < cell_todo@.len() ==> {
                        let p = #[trigger] cell_todo@[q];
                        &&& p.0 < board.w()
                        &&& p.1 < board.h()
                        &&& cell_at(&board, p.0 as int, p.1 as int).visibility != Visibility::Hidden
                    },
                forall|q: int|
                    0 <= q < k && board.cells()[q].visibility == Visibility::Revealed ==> cell_todo@.contains(#[trigger] cells@[q]),
            decreases cells.len() - k,
        {
            proof {
                lemma_coords_index(board.w(), board.h(), k as int);
            }
            let ghost ct0 = cell_todo@;
            if board.peek(cells[k]) == Visibility::Revealed {
                cell_todo.push_back(cells[k]);
            }
            proof {
                assert(index_of(board.w(), (k as int) % board.w(), (k as int) / board.w()) == k);
                assert forall|q: int|
                    0 <= q < k + 1 && board.cells()[q].visibility == Visibility::Revealed implies cell_todo@.contains(#[trigger] cells@[q]) by {
                    if q < k {
                        let t = choose|t: int| 0 <= t < ct0.len() && ct0[t] == cells@[q];
                        assert(cell_todo@[t] == cells@[q]);
                    } else {
                        assert(cell_todo@[ct0.len() as int] == cells@[q]);
                    }
                }
            }
            k = k + 1;
        }
        let n = board.grid.data.len();
        let mut data: Vec<Vec<Constraint>> = Vec::new();
        let mut i: usize = 0;
        while i < n
            invariant
                i <= n,
                data.len() == i,
                forall|q: int| 0 <= q < i ==> (#[trigger] data@[q])@.len() == 0,
            decreases n - i,
        {
            data.push(Vec::new());
            i = i + 1;
        }
        let constraints = Grid::from_vec(board.grid.width, board.grid.height, data);
        let r = StSolver { board, num_mines, cell_todo, constraints, constraints_todo: VecDeque::new(), options };
        proof {
            assert forall|c: Constraint| !stored(r, c) by {
                if stored(r, c) {
                    lemma_index_coords(r.w(), r.h(), c.x as int, c.y as int);
                    assert(r.bucket(index_of(r.w(), c.x as int, c.y as int)).len() == 0);
                }
            }
            assert forall|p: int|
                0 <= p < r.cells().len() && r.cells()[p].visibility == Visibility::Revealed && p != -1 implies #[trigger] held_gen(
                r,
                p,
                Set::empty(),
                Set::empty(),
                Seq::empty(),
                0,
            ) by {
                assert(cells@[p] == ((p % r.w()) as usize, (p / r.w()) as usize));
                assert(r.pending(p));
            }
        }
        r
    }
}

impl StSolver {
    /// Each bucket holds at most 512 masks times 10 mine counts, so the
    /// buckets together hold a bounded number of constraints.
    proof fn lemma_bucket_bound(&self, ex: Option<int>)
        requires
            self.inv(ex),
        ensures
            0 <= total_len(self.constraints.data@) <= self.cells().len() * 5120,
            self.measure_b() >= 0,
    {
        let w = self.w();
        let h = self.h();
        assert forall|i: int| 0 <= i < self.constraints.data@.len() implies (#[trigger] self.constraints.data@[i]).len() <= 5120 by {
            let b = self.bucket(i);
            let keys = Seq::new(b.len(), |q: int| b[q].mask * 10 + b[q].mines);
            assert forall|q: int| 0 <= q < keys.len() implies 0 <= #[trigger] keys[q] < 5120 by {
                let c = b[q];
                assert(self.valid_constraint(c, ex));
                lemma_cset(c, w, h);
                cset(c, w).lemma_len_filter(|j: int| self.cells()[j].is_mine);
                assert(popcount9(c.mask) <= 9);
            }
            assert forall|q1: int, q2: int| 0 <= q1 < keys.len() && 0 <= q2 < keys.len() && q1 != q2 implies keys[q1] != keys[q2] by {
                let c1 = b[q1];
                let c2 = b[q2];
                assert(self.valid_constraint(c1, ex));
                assert(self.valid_constraint(c2, ex));
                lemma_cset(c1, w, h);
                lemma_cset(c2, w, h);
                cset(c1, w).lemma_len_filter(|j: int| self.cells()[j].is_mine);
                cset(c2, w).lemma_len_filter(|j: int| self.cells()[j].is_mine);
                assert(c1 != c2);
            }
            lemma_distinct_below(keys, 5120);
        }
        lemma_total_len_bound(self.constraints.data@, 5120);
    }

    /// Removes every copy of the constraint from its bucket and from the
    /// constraint queue.
    fn remove_constraint(&mut self, constraint: &Constraint, Ghost(ex): Ghost<Option<int>>)
        requires
            old(self).inv(ex),
            constraint.x < old(self).w(),
            constraint.y < old(self).h(),
        ensures
            final(self).inv(ex),
            final(self).board == old(self).board,
            final(self).num_mines == old(self).num_mines,
            final(self).cell_todo == old(self).cell_todo,
            final(self).constraints.width == old(self).constraints.width,
            final(self).constraints.height == old(self).constraints.height,
            final(self).constraints.data@.len() == old(self).constraints.data@.len(),
            forall|i: int, d: Constraint|
                0 <= i < old(self).cells().len() ==> (#[trigger] final(self).bucket(i).contains(d) <==> (
                old(self).bucket(i).contains(d) && d != *constraint)),
            final(self).constraints_todo@ == old(self).constraints_todo@.filter(|d: Constraint| d != *constraint),
            final(self).options == old(self).options,
    {
        proof {
            lemma_index_coords(self.w(), self.h(), constraint.x as int, constraint.y as int);
        }
        let i = self.constraints.to_index(constraint.x, constraint.y);
        let b = vec_without(&self.constraints.data[i], constraint);
        let ghost s0 = *self;
        self.constraints.data.set(i, b);
        let ghost s1 = *self;
        let ghost t0 = s1.constraints_todo@;
        let ghost keep = |d: Constraint| d != *constraint;
        let ghost mut n: int = 0;
        let mut q: VecDeque<Constraint> = VecDeque::new();
        proof {
            reveal(Seq::filter);
            assert(t0.subrange(0, 0) =~= Seq::<Constraint>::empty());
            assert(t0.subrange(0, t0.len() as int) =~= t0);
        }
        while self.constraints_todo.len() > 0
            invariant
                0 <= n <= t0.len(),
                self.constraints_todo@ == t0.subrange(n, t0.len() as int),
                q@ == t0.subrange(0, n).filter(keep),
                keep == (|d: Constraint| d != *constraint),
                self.board == s1.board,
                self.num_mines == s1.num_mines,
                self.cell_todo == s1.cell_todo,
                self.constraints == s1.constraints,
                self.options == s1.options,
                forall|k: int| 0 <= k < q@.len() ==> (#[trigger] q@[k]).x < s0.w() && q@[k].y < s0.h(),
                forall|k: int|
                    0 <= k < self.constraints_todo@.len() ==> (#[trigger] self.constraints_todo@[k]).x < s0.w()
                        && self.constraints_todo@[k].y < s0.h(),
            decreases self.constraints_todo@.len(),
        {
            let d = self.constraints_todo.pop_front().unwrap();
            proof {
                reveal(Seq::filter);
                assert(t0.subrange(0, n + 1).drop_last() =~= t0.subrange(0, n));
                assert(t0.subrange(0, n + 1).last() == d);
            }
            if d != *constraint {
                q.push_back(d);
            }
            proof {
                assert(self.constraints_todo@ =~= t0.subrange(n + 1, t0.len() as int));
                n = n + 1;
            }
        }
        proof {
            assert(t0.subrange(0, n) =~= t0);
        }
        self.constraints_todo = q;
        proof {
            let w = s0.w();
            let idx = i as int;
            assert forall|k: int, d: Constraint|
                0 <= k < s0.cells().len() implies (#[trigger] self.bucket(k).contains(d) <==> (
                s0.bucket(k).contains(d) && d != *constraint)) by {
                if k != idx {
                    assert(self.bucket(k) == s0.bucket(k));
                    if s0.bucket(k).contains(d) {
                        let qq = choose|qq: int| 0 <= qq < s0.bucket(k).len() && s0.bucket(k)[qq] == d;
                        assert(d.x == k % w && d.y == k / w);
                        lemma_coords_index(w, s0.h(), k);
                    }
                }
            }
            assert forall|k: int| 0 <= k < self.cells().len() implies (#[trigger] self.bucket(k)).no_duplicates() by {
                assert(s0.bucket(k).no_duplicates());
                if k != idx {
                    assert(self.bucket(k) == s0.bucket(k));
                }
            }
            assert forall|k: int, qq: int| 0 <= k < self.cells().len() && 0 <= qq < self.bucket(k).len() implies {
                let c = #[trigger] self.bucket(k)[qq];
                &&& c.x == k % w
                &&& c.y == k / w
                &&& c.mask != 0
                &&& 0 < c.mines < popcount9(c.mask)
                &&& self.valid_constraint(c, ex)
            } by {
                let c = self.bucket(k)[qq];
                assert(self.bucket(k).contains(c));
                assert(s0.bucket(k).contains(c));
                let q0 = choose|q0: int| 0 <= q0 < s0.bucket(k).len() && s0.bucket(k)[q0] == c;
                assert(s0.bucket(k)[q0] == c);
            }
        }
    }

    /// Inserts a constraint after checking for triviality and existing
    /// constraints: one whose cells hold no mine, or only mines, settles
    /// those cells instead of being stored.
    fn insert_constraint(&mut self, constraint: Constraint, Ghost(ex): Ghost<Option<int>>)
        requires
            old(self).inv(ex),
            old(self).valid_constraint(constraint, ex),
        ensures
            final(self).inv(ex),
            evolves(&old(self).board, &final(self).board),
            final(self).num_mines == old(self).num_mines,
            final(self).measure_a() <= old(self).measure_a(),
            final(self).measure_b() <= old(self).measure_b(),
            final(self).constraints.width == old(self).constraints.width,
            final(self).constraints.height == old(self).constraints.height,
            final(self).constraints.data@.len() == old(self).constraints.data@.len(),
            forall|i: int, d: Constraint|
                0 <= i < old(self).cells().len() ==> (#[trigger] final(self).bucket(i).contains(d) ==> (
                old(self).bucket(i).contains(d) || (d == constraint && i == index_of(
                    old(self).w(),
                    constraint.x as int,
                    constraint.y as int,
                )))),
            forall|i: int, d: Constraint|
                0 <= i < old(self).cells().len() ==> (old(self).bucket(i).contains(d) ==> #[trigger] final(self).bucket(i).contains(d)),
            forall|q: int| 0 <= q < old(self).cell_todo@.len() ==> #[trigger] final(self).cell_todo@[q] == old(self).cell_todo@[q],
            old(self).cell_todo@.len() <= final(self).cell_todo@.len(),
            advances(*old(self), *final(self)),
            keeps(*old(self), *final(self)),
            forall|i: int|
                0 <= i < old(self).cells().len() && !cset(constraint, old(self).w()).contains(i) ==> #[trigger] final(self).cells()[i]
                    == old(self).cells()[i],
            forall|d: Constraint|
                #[trigger] stored(*final(self), d) && !stored(*old(self), d) ==> final(self).constraints_todo@.contains(d),
            ({
                let idx = index_of(old(self).w(), constraint.x as int, constraint.y as int);
                let stored = old(self).bucket(idx).contains(constraint);
                &&& stored ==> *final(self) == *old(self)
                &&& !stored && constraint.mines == 0 ==> forall|j: int|
                    #[trigger] cset(constraint, old(self).w()).contains(j) ==> settled_as(
                        old(self).cells(),
                        final(self).cells(),
                        j,
                        Visibility::Revealed,
                    )
                &&& !stored && constraint.mines != 0 && constraint.mines == popcount9(constraint.mask) ==> forall|j: int|
                    #[trigger] cset(constraint, old(self).w()).contains(j) ==> settled_as(
                        old(self).cells(),
                        final(self).cells(),
                        j,
                        Visibility::Flagged,
                    )
                &&& !stored && constraint.mines != 0 && constraint.mines != popcount9(constraint.mask) ==> {
                    &&& final(self).board == old(self).board
                    &&& final(self).bucket(idx) == old(self).bucket(idx).push(constraint)
                    &&& final(self).constraints_todo@ == old(self).constraints_todo@.push(constraint)
                }
            }),
    {
        let ghost s0 = *self;
        proof {
            lemma_advances_refl(s0);
        }
        let ghost w = self.w();
        let ghost h = self.h();
        proof {
            lemma_index_coords(w, h, constraint.x as int, constraint.y as int);
            lemma_cset(constraint, w, h);
        }
        let i = self.constraints.to_index(constraint.x, constraint.y);
        let ghost n = s0.num_mines as int;
        proof {
            assert(s0.cells().len() == w * h);
            lemma_known_settles(constraint, &s0.board, n);
        }
        if vec_contains(&self.constraints.data[i], &constraint) {
            return;
        } else if constraint.mines == 0 {
            let cells = constraint.masked_cells();
            let mut k: usize = 0;
            while k < cells.len()
                invariant
                    self.inv(ex),
                    s0.inv(ex),
                    evolves(&s0.board, &self.board),
                    self.num_mines == s0.num_mines,
                    self.constraints == s0.constraints,
                    self.constraints_todo == s0.constraints_todo,
                    self.measure_a() <= s0.measure_a(),
                    self.measure_b() == s0.measure_b(),
                    self.w() == w,
                    self.h() == h,
                    forall|p: (usize, usize)| cells@.contains(p) <==> constraint.covers(p.0 as int, p.1 as int),
                    forall|q: int| 0 <= q < s0.cell_todo@.len() ==> #[trigger] self.cell_todo@[q] == s0.cell_todo@[q],
                    s0.cell_todo@.len() <= self.cell_todo@.len(),
                    mset(constraint, s0.cells(), w).len() == 0,
                    n == s0.num_mines,
                    forall|j: int| #[trigger] cset(constraint, w).contains(j) ==> forced(&s0.board, n, j, Visibility::Revealed),
                    k <= cells@.len(),
                    forall|q: int|
                        0 <= q < k ==> settled_as(
                            s0.cells(),
                            self.cells(),
                            index_of(w, (#[trigger] cells@[q]).0 as int, cells@[q].1 as int),
                            Visibility::Revealed,
                        ),
                    forall|j: int| #[trigger] cset(constraint, w).contains(j) <==> (0 <= j < w * h && constraint.covers(j % w, j / w)),
                    covers_in_grid(constraint, w, h),
                    constraint.mask_ok(),
                    advances(s0, *self),
                    forall|i: int|
                        0 <= i < s0.cells().len() && !cset(constraint, w).contains(i) ==> #[trigger] self.cells()[i] == s0.cells()[i],
                decreases cells.len() - k,
            {
                let p = cells[k];
                proof {
                    assert(cells@.contains(p));
                    assert(constraint.covers(p.0 as int, p.1 as int));
                    lemma_index_coords(w, h, p.0 as int, p.1 as int);
                    let j = index_of(w, p.0 as int, p.1 as int);
                    assert(cset(constraint, w).contains(j));
                    assert(self.cells()[j].is_mine == s0.cells()[j].is_mine);
                    if s0.cells()[j].is_mine {
                        lemma_cset(constraint, w, h);
                        cset(constraint, w).lemma_len_filter(|j: int| s0.cells()[j].is_mine);
                        assert(mset(constraint, s0.cells(), w).contains(j));
                        mset(constraint, s0.cells(), w).lemma_len0_is_empty();
                    }
                    lemma_forced_evolves(&s0.board, &self.board, n, j, Visibility::Revealed);
                }
                let ghost before = *self;
                self.known_cell(p, Visibility::Revealed, Ghost(ex));
                proof {
                    lemma_evolves_trans(&s0.board, &before.board, &self.board);
                    lemma_advances_trans(s0, before, *self);
                    let j = index_of(w, p.0 as int, p.1 as int);
                    assert forall|i: int| 0 <= i < s0.cells().len() && !cset(constraint, w).contains(i) implies #[trigger] self.cells()[i]
                        == s0.cells()[i] by {
                        assert(before.cells()[i] == s0.cells()[i]);
                    }
                    assert(self.cells()[j] == self.cells()[j]);
                    assert(before.cells()[j] == before.cells()[j]);
                    assert forall|q: int|
                        0 <= q < k + 1 implies settled_as(
                        s0.cells(),
                        self.cells(),
                        index_of(w, (#[trigger] cells@[q]).0 as int, cells@[q].1 as int),
                        Visibility::Revealed,
                    ) by {
                        let jq = index_of(w, cells@[q].0 as int, cells@[q].1 as int);
                        assert(cells@.contains(cells@[q]));
                        lemma_index_coords(w, h, cells@[q].0 as int, cells@[q].1 as int);
                        assert(self.cells()[jq] == self.cells()[jq]);
                        assert(before.cells()[jq] == before.cells()[jq]);
                        assert(s0.cells()[jq] == s0.cells()[jq]);
                    }
                }
                k = k + 1;
            }
            proof {
                assert forall|j: int| #[trigger] cset(constraint, w).contains(j) implies settled_as(
                    s0.cells(),
                    self.cells(),
                    j,
                    Visibility::Revealed,
                ) by {
                    lemma_coords_index(w, h, j);
                    let pp = ((j % w) as usize, (j / w) as usize);
                    assert(constraint.covers(pp.0 as int, pp.1 as int));
                    assert(cells@.contains(pp));
                    let q = choose|q: int| 0 <= q < cells@.len() && cells@[q] == pp;
                    assert(index_of(w, cells@[q].0 as int, cells@[q].1 as int) == j);
                }
            }
        } else if constraint.mines == count_ones(constraint.mask) as u8 {
            proof {
                cset(constraint, w).lemma_len_filter(|j: int| s0.cells()[j].is_mine);
                vstd::set_lib::lemma_subset_equality(mset(constraint, s0.cells(), w), cset(constraint, w));
            }
            let cells = constraint.masked_cells();
            let mut k: usize = 0;
            while k < cells.len()
                invariant
                    self.inv(ex),
                    s0.inv(ex),
                    evolves(&s0.board, &self.board),
                    self.num_mines == s0.num_mines,
                    self.constraints == s0.constraints,
                    self.constraints_todo == s0.constraints_todo,
                    self.measure_a() <= s0.measure_a(),
                    self.measure_b() == s0.measure_b(),
                    self.w() == w,
                    self.h() == h,
                    forall|p: (usize, usize)| cells@.contains(p) <==> constraint.covers(p.0 as int, p.1 as int),
                    forall|q: int| 0 <= q < s0.cell_todo@.len() ==> #[trigger] self.cell_todo@[q] == s0.cell_todo@[q],
                    s0.cell_todo@.len() <= self.cell_todo@.len(),
                    mset(constraint, s0.cells(), w) == cset(constraint, w),
                    n == s0.num_mines,
                    forall|j: int| #[trigger] cset(constraint, w).contains(j) ==> forced(&s0.board, n, j, Visibility::Flagged),
                    k <= cells@.len(),
                    forall|q: int|
                        0 <= q < k ==> settled_as(
                            s0.cells(),
                            self.cells(),
                            index_of(w, (#[trigger] cells@[q]).0 as int, cells@[q].1 as int),
                            Visibility::Flagged,
                        ),
                    forall|j: int| #[trigger] cset(constraint, w).contains(j) <==> (0 <= j < w * h && constraint.covers(j % w, j / w)),
                    covers_in_grid(constraint, w, h),
                    constraint.mask_ok(),
                    advances(s0, *self),
                    forall|i: int|
                        0 <= i < s0.cells().len() && !cset(constraint, w).contains(i) ==> #[trigger] self.cells()[i] == s0.cells()[i],
                decreases cells.len() - k,
            {
                let p = cells[k];
                proof {
                    assert(cells@.contains(p));
                    assert(constraint.covers(p.0 as int, p.1 as int));
                    lemma_index_coords(w, h, p.0 as int, p.1 as int);
                    let j = index_of(w, p.0 as int, p.1 as int);
                    assert(cset(constraint, w).contains(j));
                    assert(mset(constraint, s0.cells(), w).contains(j));
                    lemma_forced_evolves(&s0.board, &self.board, n, j, Visibility::Flagged);
                }
                let ghost before = *self;
                self.known_cell(p, Visibility::Flagged, Ghost(ex));
                proof {
                    lemma_evolves_trans(&s0.board, &before.board, &self.board);
                    lemma_advances_trans(s0, before, *self);
                    let j = index_of(w, p.0 as int, p.1 as int);
                    assert forall|i: int| 0 <= i < s0.cells().len() && !cset(constraint, w).contains(i) implies #[trigger] self.cells()[i]
                        == s0.cells()[i] by {
                        assert(before.cells()[i] == s0.cells()[i]);
                    }
                    assert(self.cells()[j] == self.cells()[j]);
                    assert(before.cells()[j] == before.cells()[j]);
                    assert forall|q: int|
                        0 <= q < k + 1 implies settled_as(
                        s0.cells(),
                        self.cells(),
                        index_of(w, (#[trigger] cells@[q]).0 as int, cells@[q].1 as int),
                        Visibility::Flagged,
                    ) by {
                        let jq = index_of(w, cells@[q].0 as int, cells@[q].1 as int);
                        assert(cells@.contains(cells@[q]));
                        lemma_index_coords(w, h, cells@[q].0 as int, cells@[q].1 as int);
                        assert(self.cells()[jq] == self.cells()[jq]);
                        assert(before.cells()[jq] == before.cells()[jq]);
                        assert(s0.cells()[jq] == s0.cells()[jq]);
                    }
                }
                k = k + 1;
            }
            proof {
                assert forall|j: int| #[trigger] cset(constraint, w).contains(j) implies settled_as(
                    s0.cells(),
                    self.cells(),
                    j,
                    Visibility::Flagged,
                ) by {
                    lemma_coords_index(w, h, j);
                    let pp = ((j % w) as usize, (j / w) as usize);
                    assert(constraint.covers(pp.0 as int, pp.1 as int));
                    assert(cells@.contains(pp));
                    let q = choose|q: int| 0 <= q < cells@.len() && cells@[q] == pp;
                    assert(index_of(w, cells@[q].0 as int, cells@[q].1 as int) == j);
                }
            }
        } else {
            proof {
                self.lemma_bucket_bound(ex);
                lemma_total_len_update(self.constraints.data@, i as int, self.constraints.data@[i as int]);
            }
            let ghost old_bucket = self.constraints.data@[i as int];
            self.constraints.data[i].push(constraint);
            self.constraints_todo.push_back(constraint);
            proof {
                lemma_total_len_update(s0.constraints.data@, i as int, self.constraints.data@[i as int]);
                assert(self.constraints.data@ == s0.constraints.data@.update(i as int, self.constraints.data@[i as int]));
                assert(constraint.mask != 0) by {
                    if constraint.mask == 0 {
                        assert(popcount9(constraint.mask) == 0) by {
                            super::lemma_zero_mask(constraint.mask);
                        }
                        cset(constraint, w).lemma_len_filter(|j: int| s0.cells()[j].is_mine);
                    }
                }
                assert(0 < constraint.mines < popcount9(constraint.mask)) by {
                    lemma_mset_bounds(constraint, s0.cells(), w, h);
                }
                assert forall|k: int| 0 <= k < self.cells().len() implies (#[trigger] self.bucket(k)).no_duplicates() by {
                    if k != i {
                        assert(self.bucket(k) == s0.bucket(k));
                    } else {
                        assert(self.bucket(k) == s0.bucket(k).push(constraint));
                    }
                }
                assert forall|k: int, qq: int| 0 <= k < self.cells().len() && 0 <= qq < self.bucket(k).len() implies {
                    let c = #[trigger] self.bucket(k)[qq];
                    &&& c.x == k % w
                    &&& c.y == k / w
                    &&& c.mask != 0
                    &&& 0 < c.mines < popcount9(c.mask)
                    &&& self.valid_constraint(c, ex)
                } by {
                    if k != i {
                        assert(self.bucket(k) == s0.bucket(k));
                    } else if qq < s0.bucket(k).len() {
                        assert(self.bucket(k)[qq] == s0.bucket(k)[qq]);
                    }
                }
                assert forall|qq: int| 0 <= qq < self.constraints_todo@.len() implies (#[trigger] self.constraints_todo@[qq]).x < w
                    && self.constraints_todo@[qq].y < h by {
                    if qq < s0.constraints_todo@.len() {
                        assert(self.constraints_todo@[qq] == s0.constraints_todo@[qq]);
                    }
                }
                assert forall|k: int, d: Constraint| 0 <= k < s0.cells().len() implies (#[trigger] self.bucket(k).contains(d) == (
                    s0.bucket(k).contains(d) || (d == constraint && k == i))) by {
                    if k != i {
                        assert(self.bucket(k) == s0.bucket(k));
                    } else {
                        assert(self.bucket(k) == s0.bucket(k).push(constraint));
                        if s0.bucket(k).contains(d) {
                            let q0 = choose|q0: int| 0 <= q0 < s0.bucket(k).len() && s0.bucket(k)[q0] == d;
                            assert(self.bucket(k)[q0] == d);
                        }
                        if self.bucket(k).contains(d) && d != constraint {
                            let q0 = choose|q0: int| 0 <= q0 < self.bucket(k).len() && self.bucket(k)[q0] == d;
                            assert(s0.bucket(k)[q0] == d);
                        }
                        assert(self.bucket(k)[s0.bucket(k).len() as int] == constraint);
                    }
                }
                assert forall|d: Constraint| #[trigger] stored(*self, d) && !stored(s0, d) implies self.constraints_todo@.contains(d) by {
                    lemma_index_coords(w, h, d.x as int, d.y as int);
                    assert(d == constraint);
                    assert(self.constraints_todo@[s0.constraints_todo@.len() as int] == constraint);
                }
            }
            return;
        }
        proof {
            assert forall|k: int| 0 <= k < s0.cells().len() implies #[trigger] self.bucket(k) == s0.bucket(k) by {}
        }
    }
}


impl StSolver {
    /// Taking the front cell off the queue: the stored constraints may still
    /// stand on that cell, which `Some` of its index records.
    proof fn lemma_pop(s0: StSolver, s1: StSolver)
        requires
            s0.inv(None),
            s0.cell_todo@.len() > 0,
            s1.board == s0.board,
            s1.num_mines == s0.num_mines,
            s1.constraints == s0.constraints,
            s1.constraints_todo == s0.constraints_todo,
            s1.cell_todo@ == s0.cell_todo@.subrange(1, s0.cell_todo@.len() as int),
        ensures
            ({
                let p = s0.cell_todo@[0];
                &&& p.0 < s0.w()
                &&& p.1 < s0.h()
                &&& cell_at(&s0.board, p.0 as int, p.1 as int).visibility != Visibility::Hidden
                &&& s1.inv(Some(index_of(s0.w(), p.0 as int, p.1 as int)))
            }),
            s1.measure_a() == s0.measure_a() - 1,
            s1.measure_b() == s0.measure_b(),
    {
        let w = s0.w();
        let h = s0.h();
        let p = s0.cell_todo@[0];
        let jp = index_of(w, p.0 as int, p.1 as int);
        lemma_index_coords(w, h, p.0 as int, p.1 as int);
        assert forall|i: int, q: int| 0 <= i < s1.cells().len() && 0 <= q < s1.bucket(i).len() implies {
            let c = #[trigger] s1.bucket(i)[q];
            &&& c.x == i % w
            &&& c.y == i / w
            &&& c.mask != 0
            &&& 0 < c.mines < popcount9(c.mask)
            &&& s1.valid_constraint(c, Some(jp))
        } by {
            let c = s1.bucket(i)[q];
            assert(s0.bucket(i)[q] == c);
            assert(s0.valid_constraint(c, None));
            lemma_cset(c, w, h);
            assert forall|j: int| #[trigger] cset(c, w).contains(j) implies s1.cells()[j].visibility == Visibility::Hidden
                || s1.pending(j) || Some(jp) == Some(j) by {
                if s0.cells()[j].visibility != Visibility::Hidden {
                    assert(s0.pending(j));
                    let pj = ((j % w) as usize, (j / w) as usize);
                    let qq = choose|qq: int| 0 <= qq < s0.cell_todo@.len() && s0.cell_todo@[qq] == pj;
                    if qq == 0 {
                        lemma_coords_index(w, h, j);
                    } else {
                        assert(s1.cell_todo@[qq - 1] == pj);
                    }
                }
            }
        }
        assert forall|i: int| 0 <= i < s1.cells().len() implies (#[trigger] s1.bucket(i)).no_duplicates() by {
            assert(s0.bucket(i).no_duplicates());
        }
        assert forall|q: int| 0 <= q < s1.cell_todo@.len() implies {
            let pp = #[trigger] s1.cell_todo@[q];
            &&& pp.0 < w
            &&& pp.1 < h
            &&& cell_at(&s1.board, pp.0 as int, pp.1 as int).visibility != Visibility::Hidden
        } by {
            assert(s1.cell_todo@[q] == s0.cell_todo@[q + 1]);
        }
        assert forall|q: int| 0 <= q < s1.constraints_todo@.len() implies (#[trigger] s1.constraints_todo@[q]).x < w
            && s1.constraints_todo@[q].y < h by {
            assert(s0.constraints_todo@[q] == s1.constraints_todo@[q]);
        }
    }

    /// Once no stored constraint covers the cell under processing, the
    /// invariant no longer needs it.
    proof fn lemma_release(s: StSolver, j: int, px: int, py: int)
        requires
            s.inv(Some(j)),
            0 <= px < s.w(),
            0 <= py < s.h(),
            j == index_of(s.w(), px, py),
            forall|i: int, d: Constraint| 0 <= i < s.cells().len() && #[trigger] s.bucket(i).contains(d) ==> !d.covers(px, py),
        ensures
            s.inv(None),
    {
        let w = s.w();
        let h = s.h();
        lemma_index_coords(w, h, px, py);
        assert forall|i: int, q: int| 0 <= i < s.cells().len() && 0 <= q < s.bucket(i).len() implies {
            let c = #[trigger] s.bucket(i)[q];
            &&& c.x == i % w
            &&& c.y == i / w
            &&& c.mask != 0
            &&& 0 < c.mines < popcount9(c.mask)
            &&& s.valid_constraint(c, None)
        } by {
            let c = s.bucket(i)[q];
            assert(s.bucket(i).contains(c));
            assert(s.valid_constraint(c, Some(j)));
            lemma_cset(c, w, h);
        }
    }

    /// The constraint `n` is the stored `c` less the uncovered cell
    /// `(px, py)`, and less a mine if that cell is flagged.
    proof fn lemma_updated_valid(s: StSolver, c: Constraint, n: Constraint, px: int, py: int, ex: Option<int>)
        requires
            s.inv(ex),
            s.valid_constraint(c, ex),
            0 <= px < s.w(),
            0 <= py < s.h(),
            c.covers(px, py),
            cell_at(&s.board, px, py).visibility != Visibility::Hidden,
            n.mask_ok(),
            n.mask & 73 != 0,
            n.mask & 7 != 0,
            forall|x: int, y: int| #[trigger] n.covers(x, y) == (c.covers(x, y) && !(x == px && y == py)),
            n.mines == (if cell_at(&s.board, px, py).visibility == Visibility::Flagged {
                if c.mines > 0 {
                    c.mines - 1
                } else {
                    0
                }
            } else {
                c.mines as int
            }),
        ensures
            s.valid_constraint(n, ex),
            !n.covers(px, py),
    {
        let w = s.w();
        let h = s.h();
        let cells = s.cells();
        let j = index_of(w, px, py);
        lemma_index_coords(w, h, px, py);
        assert forall|x: int, y: int| #[trigger] n.covers(x, y) implies 0 <= x < w && 0 <= y < h by {
            assert(c.covers(x, y));
        }
        super::lemma_corner_bits(n.mask);
        assert(n.covers(n.x as int, n.y as int) || n.covers(n.x as int, n.y + 1) || n.covers(n.x as int, n.y + 2));
        assert(n.covers(n.x as int, n.y as int) || n.covers(n.x + 1, n.y as int) || n.covers(n.x + 2, n.y as int));
        lemma_cset(c, w, h);
        lemma_cset(n, w, h);
        assert(cset(n, w) =~= cset(c, w).remove(j)) by {
            assert forall|i: int| #[trigger] cset(n, w).contains(i) <==> cset(c, w).remove(j).contains(i) by {
                if 0 <= i < w * h {
                    lemma_coords_index(w, h, i);
                }
            }
        }
        let f = |i: int| cells[i].is_mine;
        cset(c, w).lemma_len_filter(f);
        assert(mset(n, cells, w) =~= mset(c, cells, w).remove(j));
        assert(cset(c, w).contains(j));
        assert(cells[j] == cell_at(&s.board, px, py));
        if cells[j].is_mine {
            assert(mset(c, cells, w).contains(j));
        }
        lemma_known_remove(&s.board, s.num_mines as int, c, n, px, py);
    }

    /// Takes the front cell off the queue. A revealed cell yields its
    /// constraint; every stored constraint over the cell loses it, and a
    /// mine with it if the cell is flagged.
    fn solve_next_cell(&mut self)
        requires
            old(self).inv(None),
            old(self).cell_todo@.len() > 0,
            pairs_ok_on(*old(self), any_c()),
            cells_held(*old(self)),
        ensures
            final(self).inv(None),
            pairs_ok_on(*final(self), any_c()),
            cells_held(*final(self)),
            evolves(&old(self).board, &final(self).board),
            deduced(&old(self).board, &final(self).board, old(self).num_mines as int),
            final(self).num_mines == old(self).num_mines,
            final(self).measure_a() < old(self).measure_a(),
            final(self).options == old(self).options,
            ({
                let p = old(self).cell_todo@[0];
                let b = old(self).board;
                cell_at(&b, p.0 as int, p.1 as int).visibility == Visibility::Revealed && (exists|px: int, py: int|
                    #[trigger] hidden_around(&b, p.0 as int, p.1 as int, px, py)) ==> derived_held(
                    *final(self),
                    hidden_nbrs(&b, p.0 as int, p.1 as int),
                    cell_at(&b, p.0 as int, p.1 as int).adjacent_mines - flags_around(&b, p.0 as int, p.1 as int),
                )
            }),
    {
        let ghost s0 = *self;
        let ghost w = self.w();
        let ghost h = self.h();
        let p = self.cell_todo.pop_front().unwrap();
        let (x, y) = p;
        let ghost j = index_of(w, x as int, y as int);
        proof {
            Self::lemma_pop(s0, *self);
            lemma_index_coords(w, h, x as int, y as int);
        }
        let ghost sp = *self;
        let ghost hset = hidden_nbrs(&s0.board, x as int, y as int);
        let ghost hm = cell_at(&s0.board, x as int, y as int).adjacent_mines - flags_around(&s0.board, x as int, y as int);
        let ghost want = cell_at(&s0.board, x as int, y as int).visibility == Visibility::Revealed && (exists|px: int, py: int|
            #[trigger] hidden_around(&s0.board, x as int, y as int, px, py));
        let ghost mut hc = Constraint { x: 0, y: 0, mask: 0, mines: 0 };
        proof {
            assert(s0.cells().len() == w * h);
            assert(self.board == s0.board);
            assert(keeps(s0, sp));
            lemma_pairs_grow(s0, sp, any_c(), None);
            assert(sp.cell_todo@ =~= s0.cell_todo@.subrange(1, s0.cell_todo@.len() as int));
            lemma_held_pop(s0, sp, j);
        }
        let vis = self.board.peek(p);
        proof {
            lemma_advances_refl(sp);
        }
        if vis == Visibility::Revealed {
            proof {
                lemma_actual_possible(&self.board, self.num_mines as int);
                lemma_hint_split(&self.board, self.cells(), self.num_mines as int, x as int, y as int);
            }
            if let Some(c) = Constraint::from_grid(&self.board, p) {
                proof {
                    lemma_mset_around(&self.board, self.cells(), x as int, y as int, c);
                    lemma_slots_upto(w, h, x as int, y as int, 9, hidden_mine(self.cells()));
                    lemma_hint_known(&self.board, self.num_mines as int, x as int, y as int, c);
                    lemma_cset(c, w, h);
                    assert forall|jj: int| #[trigger] cset(c, w).contains(jj) implies self.cells()[jj].visibility
                        == Visibility::Hidden || self.pending(jj) || Some(j) == Some(jj) by {
                        lemma_coords_index(w, h, jj);
                        assert(c.covers(jj % w, jj / w));
                    }
                }
                let ghost before_ins = *self;
                self.insert_constraint(c, Ghost(Some(j)));
                proof {
                    lemma_pairs_grow(before_ins, *self, any_c(), Some(j));
                    assert(cset(c, w) =~= hset);
                    lemma_held_after_insert(before_ins, *self, c, hset, Some(j));
                    hc = c;
                    assert(!hidden_around(&s0.board, x as int, y as int, x as int, y as int));
                    assert(!hc.covers(x as int, y as int));
                    lemma_held_persist(before_ins, *self, set![j], Set::empty(), Seq::empty(), 0, j);
                    lemma_held_self(sp, *self, j, x as int, y as int, hset, c.mines as int, c);
                    lemma_held_add(*self, j, set![j]);
                }
            } else {
                proof {
                    assert forall|i: int| !#[trigger] hidden_nbrs(&sp.board, j % w, j / w).contains(i) by {
                        if hidden_nbrs(&sp.board, j % w, j / w).contains(i) {
                            assert(hidden_around(&sp.board, x as int, y as int, i % w, i / w));
                        }
                    }
                    lemma_held_add(sp, j, set![j]);
                }
            }
        } else {
            proof {
                lemma_held_add(sp, j, set![j]);
            }
        }
        let ghost s1 = *self;
        assert(all_held(s1, set![j], Set::empty(), Seq::empty(), 0, -1));
        assert(want ==> held_by(s1, hset, hm, hc) && !hc.covers(x as int, y as int) && hc.x < w && hc.y < h);
        assert(pairs_ok_on(s1, any_c()));
        proof {
            lemma_pairs_weaken(s1, any_c(), away_from(x as int, y as int));
        }
        assert(advances(sp, s1));
        let region = self.board.get_region((x as isize - 2, y as isize - 2), (x as isize, y as isize));
        assert(region.len() == 9) by {
            assert(3 * 3 == 9);
        }
        let mut to_remove: Vec<Constraint> = Vec::new();
        let mut to_insert: Vec<Constraint> = Vec::new();
        let mut r: usize = 0;
        while r < region.len()
            invariant
                *self == s1,
                s1.inv(Some(j)),
                w == s1.w(),
                h == s1.h(),
                x < w,
                y < h,
                j == index_of(w, x as int, y as int),
                vis == cell_at(&s1.board, x as int, y as int).visibility,
                vis != Visibility::Hidden,
                region.len() == 9,
                forall|k: int| 0 <= k < 9 ==> #[trigger] region@[k] == cell_opt(w, h, x - 2 + k % 3, y - 2 + k / 3),
                r <= 9,
                forall|q: int|
                    0 <= q < to_remove@.len() ==> (#[trigger] to_remove@[q]).x < w && to_remove@[q].y < h
                        && to_remove@[q].covers(x as int, y as int),
                forall|q: int|
                    0 <= q < to_insert@.len() ==> s1.valid_constraint(#[trigger] to_insert@[q], Some(j))
                        && !to_insert@[q].covers(x as int, y as int),
                forall|q: int| 0 <= q < to_remove@.len() ==> corresponds(#[trigger] to_remove@[q], j, w, to_insert@),
                s1.cells().len() == w * h,
                forall|i: int, d: Constraint|
                    0 <= i < s1.cells().len() && #[trigger] s1.bucket(i).contains(d) && d.covers(x as int, y as int)
                        && (d.y - y + 2) * 3 + (d.x - x + 2) < r ==> to_remove@.contains(d),
            decreases 9 - r,
        {
            let ghost rr = r as int;
            if let Some(ci) = region[r] {
                proof {
                    lemma_index_coords(w, h, ci.0 as int, ci.1 as int);
                }
                let bi = self.constraints.to_index(ci.0, ci.1);
                let mut t: usize = 0;
                while t < self.constraints.data[bi].len()
                    invariant
                        *self == s1,
                        s1.inv(Some(j)),
                        w == s1.w(),
                        h == s1.h(),
                        x < w,
                        y < h,
                        j == index_of(w, x as int, y as int),
                        vis == cell_at(&s1.board, x as int, y as int).visibility,
                        vis != Visibility::Hidden,
                        0 <= bi < s1.cells().len(),
                        t <= s1.bucket(bi as int).len(),
                        forall|q: int|
                            0 <= q < to_remove@.len() ==> (#[trigger] to_remove@[q]).x < w && to_remove@[q].y < h
                                && to_remove@[q].covers(x as int, y as int),
                        forall|q: int|
                            0 <= q < to_insert@.len() ==> s1.valid_constraint(#[trigger] to_insert@[q], Some(j))
                                && !to_insert@[q].covers(x as int, y as int),
                        forall|q: int| 0 <= q < to_remove@.len() ==> corresponds(#[trigger] to_remove@[q], j, w, to_insert@),
                        s1.cells().len() == w * h,
                        forall|i: int, d: Constraint|
                            0 <= i < s1.cells().len() && #[trigger] s1.bucket(i).contains(d) && d.covers(x as int, y as int)
                                && (d.y - y + 2) * 3 + (d.x - x + 2) < rr ==> to_remove@.contains(d),
                        forall|q: int|
                            0 <= q < t && (#[trigger] s1.bucket(bi as int)[q]).covers(x as int, y as int) ==> to_remove@.contains(
                                s1.bucket(bi as int)[q],
                            ),
                    decreases s1.bucket(bi as int).len() - t,
                {
                    let c = self.constraints.data[bi][t];
                    proof {
                        assert(c == s1.bucket(bi as int)[t as int]);
                        assert(s1.valid_constraint(c, Some(j)));
                    }
                    if c.contains((x, y)) {
                        let ghost old_remove = to_remove@;
                        let ghost old_insert = to_insert@;
                        to_remove.push(c);
                        let bit_index = (y - c.y) * 3 + (x - c.x);
                        proof {
                            super::lemma_covers_clear(c.x as int, c.y as int, c.mask, bit_index as u16, x as int, y as int);
                        }
                        let mut updated = c;
                        updated.mask = c.mask & !(1u16 << (bit_index as u16));
                        if vis == Visibility::Flagged {
                            updated.mines = c.mines.saturating_sub(1);
                        }
                        if updated.mask != 0 {
                            if let Some(n) = updated.normalised() {
                                proof {
                                    Self::lemma_updated_valid(s1, c, n, x as int, y as int, Some(j));
                                }
                                to_insert.push(n);
                                proof {
                                    lemma_cset_minus(c, n, x as int, y as int, w, h);
                                    assert(to_insert@[old_insert.len() as int] == n);
                                    assert(corresponds(c, j, w, to_insert@));
                                }
                            }
                        } else {
                            proof {
                                lemma_cset_single(c, updated, x as int, y as int, w, h);
                            }
                        }
                        proof {
                            assert(corresponds(c, j, w, to_insert@));
                            assert forall|q: int| 0 <= q < to_remove@.len() implies corresponds(#[trigger] to_remove@[q], j, w, to_insert@) by {
                                if q < old_remove.len() {
                                    assert(to_remove@[q] == old_remove[q]);
                                    assert(corresponds(old_remove[q], j, w, old_insert));
                                    if cset(old_remove[q], w) != set![j] {
                                        let k = choose|k: int| 0 <= k < old_insert.len() && cset(#[trigger] old_insert[k], w) == cset(old_remove[q], w).remove(j);
                                        assert(to_insert@[k] == old_insert[k]);
                                    }
                                } else {
                                    assert(to_remove@[q] == c);
                                }
                            }
                        }
                        proof {
                            assert forall|i: int, d: Constraint|
                                0 <= i < s1.cells().len() && #[trigger] s1.bucket(i).contains(d) && d.covers(x as int, y as int)
                                    && (d.y - y + 2) * 3 + (d.x - x + 2) < rr implies to_remove@.contains(d) by {
                                assert(old_remove.contains(d));
                                let q0 = choose|q0: int| 0 <= q0 < old_remove.len() && old_remove[q0] == d;
                                assert(to_remove@[q0] == d);
                            }
                            assert forall|q: int|
                                0 <= q < t + 1 && (#[trigger] s1.bucket(bi as int)[q]).covers(x as int, y as int) implies to_remove@.contains(
                                    s1.bucket(bi as int)[q],
                                ) by {
                                if q < t {
                                    let d = s1.bucket(bi as int)[q];
                                    assert(old_remove.contains(d));
                                    let q0 = choose|q0: int| 0 <= q0 < old_remove.len() && old_remove[q0] == d;
                                    assert(to_remove@[q0] == d);
                                } else {
                                    assert(to_remove@[old_remove.len() as int] == c);
                                }
                            }
                        }
                    }
                    t = t + 1;
                }
                proof {
                    assert forall|i: int, d: Constraint|
                        0 <= i < s1.cells().len() && #[trigger] s1.bucket(i).contains(d) && d.covers(x as int, y as int)
                            && (d.y - y + 2) * 3 + (d.x - x + 2) < rr + 1 implies to_remove@.contains(d) by {
                        if (d.y - y + 2) * 3 + (d.x - x + 2) == rr {
                            let q0 = choose|q0: int| 0 <= q0 < s1.bucket(i).len() && s1.bucket(i)[q0] == d;
                            assert(d.x == i % w && d.y == i / w);
                            lemma_coords_index(w, h, i);
                            assert(d.x == x - 2 + rr % 3 && d.y == y - 2 + rr / 3);
                            assert(bi == index_of(w, d.x as int, d.y as int));
                            assert(s1.bucket(bi as int)[q0].covers(x as int, y as int));
                        }
                    }
                }
            } else {
                proof {
                    assert forall|i: int, d: Constraint|
                        0 <= i < s1.cells().len() && #[trigger] s1.bucket(i).contains(d) && d.covers(x as int, y as int)
                            && (d.y - y + 2) * 3 + (d.x - x + 2) < rr + 1 implies to_remove@.contains(d) by {
                        if (d.y - y + 2) * 3 + (d.x - x + 2) == rr {
                            let q0 = choose|q0: int| 0 <= q0 < s1.bucket(i).len() && s1.bucket(i)[q0] == d;
                            assert(d.x == i % w && d.y == i / w);
                            lemma_coords_index(w, h, i);
                            assert(d.x == x - 2 + rr % 3 && d.y == y - 2 + rr / 3);
                        }
                    }
                }
            }
            r = r + 1;
        }
        proof {
            assert forall|d: Constraint| #[trigger] stored(s1, d) && cset(d, s1.w()).contains(j) implies cset(d, s1.w()) == set![j]
                || exists|kk: int| 0 <= kk < to_insert@.len() && cset(#[trigger] to_insert@[kk], s1.w()) == cset(d, s1.w()).remove(j) by {
                lemma_stored_valid(s1, d, Some(j));
                lemma_cset(d, w, h);
                assert(d.covers(x as int, y as int));
                lemma_index_coords(w, h, d.x as int, d.y as int);
                assert(s1.bucket(index_of(w, d.x as int, d.y as int)).contains(d));
                assert(to_remove@.contains(d));
                let t = choose|t: int| 0 <= t < to_remove@.len() && to_remove@[t] == d;
                assert(corresponds(to_remove@[t], j, w, to_insert@));
            }
            lemma_held_convert(s1, j, to_insert@, Some(j));
        }
        let mut k: usize = 0;
        while k < to_remove.len()
            invariant
                self.inv(Some(j)),
                self.board == s1.board,
                self.cell_todo == s1.cell_todo,
                self.num_mines == s1.num_mines,
                self.options == s1.options,
                w == s1.w(),
                h == s1.h(),
                x < w,
                y < h,
                k <= to_remove.len(),
                s1.cells().len() == w * h,
                pairs_ok_on(*self, away_from(x as int, y as int)),
                all_held(*self, Set::empty(), set![j], to_insert@, 0, -1),
                0 <= j < s1.cells().len(),
                j == index_of(w, x as int, y as int),
                want ==> held_by(*self, hset, hm, hc) && !hc.covers(x as int, y as int) && hc.x < w && hc.y < h,
                forall|q: int|
                    0 <= q < to_remove@.len() ==> (#[trigger] to_remove@[q]).x < w && to_remove@[q].y < h
                        && to_remove@[q].covers(x as int, y as int),
                forall|q: int|
                    0 <= q < to_insert@.len() ==> self.valid_constraint(#[trigger] to_insert@[q], Some(j))
                        && !to_insert@[q].covers(x as int, y as int),
                forall|i: int, d: Constraint|
                    0 <= i < s1.cells().len() && #[trigger] self.bucket(i).contains(d) && d.covers(x as int, y as int)
                        ==> exists|t: int| k <= t < to_remove@.len() && to_remove@[t] == d,
            decreases to_remove.len() - k,
        {
            let ghost before = *self;
            self.remove_constraint(&to_remove[k], Ghost(Some(j)));
            proof {
                lemma_pairs_remove(before, *self, to_remove@[k as int], x as int, y as int, Some(j));
                lemma_held_remove(before, *self, to_remove@[k as int], x as int, y as int, j, to_insert@, 0, Some(j));
                if want && stored(before, hc) && cset(hc, w) == hset && hc.mines == hm {
                    lemma_index_coords(w, h, hc.x as int, hc.y as int);
                    assert(to_remove@[k as int] != hc);
                    assert(stored(*self, hc));
                }
                assert forall|i: int, d: Constraint|
                    0 <= i < s1.cells().len() && #[trigger] self.bucket(i).contains(d) && d.covers(x as int, y as int)
                        implies exists|t: int| k + 1 <= t < to_remove@.len() && to_remove@[t] == d by {
                    assert(before.bucket(i).contains(d));
                    let t = choose|t: int| k <= t < to_remove@.len() && to_remove@[t] == d;
                    assert(t != k);
                }
            }
            k = k + 1;
        }
        let ghost s2 = *self;
        proof {
            lemma_advances_refl(s2);
            lemma_keeps_refl(s2);
            if want {
                lemma_held_by(s2, hset, hm, hc);
            }
            assert forall|c: Constraint| #[trigger] stored(s2, c) implies !c.covers(x as int, y as int) by {
                lemma_index_coords(w, h, c.x as int, c.y as int);
                if c.covers(x as int, y as int) {
                    assert(s2.bucket(index_of(w, c.x as int, c.y as int)).contains(c));
                }
            }
            lemma_pairs_away_all(s2, x as int, y as int);
            lemma_avoid_drop(s2, set![j], to_insert@, 0);
        }
        let mut k: usize = 0;
        while k < to_insert.len()
            invariant
                self.inv(Some(j)),
                s2.inv(Some(j)),
                advances(s2, *self),
                self.measure_a() <= s2.measure_a(),
                w == s2.w(),
                h == s2.h(),
                x < w,
                y < h,
                k <= to_insert.len(),
                keeps(s2, *self),
                s2.cells().len() == w * h,
                pairs_ok_on(*self, any_c()),
                all_held(*self, Set::empty(), Set::empty(), to_insert@, k as int, -1),
                want ==> derived_held(*self, hset, hm),
                forall|jj: int| #[trigger] hset.contains(jj) ==> 0 <= jj < w * h,
                forall|q: int|
                    0 <= q < to_insert@.len() ==> s2.valid_constraint(#[trigger] to_insert@[q], Some(j))
                        && !to_insert@[q].covers(x as int, y as int),
                forall|i: int, d: Constraint|
                    0 <= i < self.cells().len() && #[trigger] self.bucket(i).contains(d) ==> !d.covers(x as int, y as int),
            decreases to_insert.len() - k,
        {
            let ghost before = *self;
            proof {
                lemma_valid_advances(s2, *self, to_insert@[k as int], Some(j));
            }
            self.insert_constraint(to_insert[k], Ghost(Some(j)));
            proof {
                lemma_advances_trans(s2, before, *self);
                lemma_keeps_trans(s2, before, *self);
                if want {
                    lemma_held_kept(before, *self, hset, hm);
                }
                lemma_pairs_grow(before, *self, any_c(), Some(j));
                lemma_held_persist(before, *self, Set::empty(), Set::empty(), to_insert@, k as int, -1);
                lemma_held_after_insert(before, *self, to_insert@[k as int], cset(to_insert@[k as int], w), Some(j));
                lemma_extra_step(*self, to_insert@, k as int, to_insert@[k as int].mines as int);
            }
            k = k + 1;
        }
        proof {
            lemma_held_finish(*self, to_insert@);
            Self::lemma_release(*self, j, x as int, y as int);
            lemma_evolves_trans(&s0.board, &s1.board, &self.board);
            lemma_deduced_trans(&s0.board, &s1.board, &self.board, s0.num_mines as int);
        }
    }

    /// Works off the cell queue. Returns whether there was any cell to work.
    fn solve_dequeue_cell_todo(&mut self) -> (r: bool)
        requires
            old(self).inv(None),
            pairs_ok_on(*old(self), any_c()),
            cells_held(*old(self)),
        ensures
            final(self).inv(None),
            pairs_ok_on(*final(self), any_c()),
            cells_held(*final(self)),
            cells_complete(&final(self).board, &final(self).constraints),
            evolves(&old(self).board, &final(self).board),
            deduced(&old(self).board, &final(self).board, old(self).num_mines as int),
            final(self).num_mines == old(self).num_mines,
            final(self).cell_todo@.len() == 0,
            final(self).options == old(self).options,
            r == (old(self).cell_todo@.len() > 0),
            r ==> final(self).measure_a() < old(self).measure_a(),
            !r ==> *final(self) == *old(self),
    {
        let ghost s0 = *self;
        let mut done_something = false;
        proof {
            lemma_deduced_refl(&s0.board, s0.num_mines as int);
        }
        while self.cell_todo.len() > 0
            invariant
                self.inv(None),
                evolves(&s0.board, &self.board),
                deduced(&s0.board, &self.board, s0.num_mines as int),
                self.num_mines == s0.num_mines,
                !done_something ==> *self == s0,
                done_something ==> self.measure_a() < s0.measure_a() && s0.cell_todo@.len() > 0,
                self.options == s0.options,
                pairs_ok_on(*self, any_c()),
                cells_held(*self),
            decreases self.measure_a(),
        {
            let ghost before = *self;
            self.solve_next_cell();
            proof {
                lemma_evolves_trans(&s0.board, &before.board, &self.board);
                lemma_deduced_trans(&s0.board, &before.board, &self.board, s0.num_mines as int);
            }
            done_something = true;
        }
        proof {
            lemma_cells_public(*self);
        }
        done_something
    }
}


impl StSolver {
    /// The invariant only asks of the constraint queue that its constraints
    /// lie on the board.
    proof fn lemma_inv_frame(s0: StSolver, s1: StSolver, ex: Option<int>)
        requires
            s0.inv(ex),
            s1.board == s0.board,
            s1.cell_todo == s0.cell_todo,
            s1.constraints == s0.constraints,
            s1.num_mines == s0.num_mines,
            forall|q: int| 0 <= q < s1.constraints_todo@.len() ==> (#[trigger] s1.constraints_todo@[q]).x < s1.w()
                && s1.constraints_todo@[q].y < s1.h(),
        ensures
            s1.inv(ex),
            s1.measure_a() == s0.measure_a(),
            s1.measure_b() - s1.constraints_todo@.len() == s0.measure_b() - s0.constraints_todo@.len(),
            forall|c: Constraint| #[trigger] s1.valid_constraint(c, ex) == s0.valid_constraint(c, ex),
            forall|i: int| #[trigger] s1.bucket(i) == s0.bucket(i),
    {
        assert forall|i: int| #[trigger] s1.bucket(i) == s0.bucket(i) by {}
        assert forall|c: Constraint| #[trigger] s1.valid_constraint(c, ex) == s0.valid_constraint(c, ex) by {
            assert forall|j: int| #[trigger] s1.pending(j) == s0.pending(j) by {}
        }
        assert forall|i: int| 0 <= i < s1.cells().len() implies (#[trigger] s1.bucket(i)).no_duplicates() by {
            assert(s0.bucket(i).no_duplicates());
        }
        assert forall|i: int, q: int| 0 <= i < s1.cells().len() && 0 <= q < s1.bucket(i).len() implies {
            let c = #[trigger] s1.bucket(i)[q];
            &&& c.x == i % s1.w()
            &&& c.y == i / s1.w()
            &&& c.mask != 0
            &&& 0 < c.mines < popcount9(c.mask)
            &&& s1.valid_constraint(c, ex)
        } by {
            assert(s0.bucket(i)[q] == s1.bucket(i)[q]);
        }
    }

    /// Marks each of the cells as `cell_type`, as `known_cell` does.
    fn known_cells(&mut self, cells: &Vec<(usize, usize)>, cell_type: Visibility, Ghost(ex): Ghost<Option<int>>)
        requires
            old(self).inv(ex),
            cell_type != Visibility::Hidden,
            forall|q: int|
                0 <= q < cells@.len() ==> {
                    let p = #[trigger] cells@[q];
                    &&& p.0 < old(self).w()
                    &&& p.1 < old(self).h()
                    &&& forced(
                        &old(self).board,
                        old(self).num_mines as int,
                        index_of(old(self).w(), p.0 as int, p.1 as int),
                        cell_type,
                    )
                },
        ensures
            final(self).inv(ex),
            advances(*old(self), *final(self)),
            final(self).constraints == old(self).constraints,
            final(self).constraints_todo == old(self).constraints_todo,
            final(self).measure_a() <= old(self).measure_a(),
            final(self).measure_b() == old(self).measure_b(),
            forall|q: int|
                0 <= q < cells@.len() ==> cell_at(&final(self).board, (#[trigger] cells@[q]).0 as int, cells@[q].1 as int).visibility
                    != Visibility::Hidden,
            forall|i: int|
                0 <= i < old(self).cells().len() && !listed(cells@, old(self).w(), i) ==> #[trigger] final(self).cells()[i]
                    == old(self).cells()[i],
    {
        let ghost s0 = *self;
        let ghost w = self.w();
        let ghost h = self.h();
        proof {
            lemma_advances_refl(s0);
        }
        let mut k: usize = 0;
        while k < cells.len()
            invariant
                self.inv(ex),
                s0.inv(ex),
                advances(s0, *self),
                self.constraints == s0.constraints,
                self.constraints_todo == s0.constraints_todo,
                self.measure_a() <= s0.measure_a(),
                self.measure_b() == s0.measure_b(),
                w == s0.w(),
                h == s0.h(),
                cell_type != Visibility::Hidden,
                k <= cells.len(),
                forall|q: int|
                    0 <= q < cells@.len() ==> {
                        let p = #[trigger] cells@[q];
                        &&& p.0 < w
                        &&& p.1 < h
                        &&& forced(&s0.board, s0.num_mines as int, index_of(w, p.0 as int, p.1 as int), cell_type)
                    },
                forall|q: int|
                    0 <= q < k ==> cell_at(&self.board, (#[trigger] cells@[q]).0 as int, cells@[q].1 as int).visibility
                        != Visibility::Hidden,
                forall|i: int|
                    0 <= i < s0.cells().len() && !listed(cells@, w, i) ==> #[trigger] self.cells()[i] == s0.cells()[i],
            decreases cells.len() - k,
        {
            let p = cells[k];
            let ghost before = *self;
            proof {
                assert(cells@[k as int] == p);
                lemma_index_coords(w, h, p.0 as int, p.1 as int);
                let j = index_of(w, p.0 as int, p.1 as int);
                assert(self.cells()[j].is_mine == s0.cells()[j].is_mine);
                lemma_forced_evolves(&s0.board, &self.board, s0.num_mines as int, j, cell_type);
            }
            self.known_cell(p, cell_type, Ghost(ex));
            proof {
                lemma_advances_trans(s0, before, *self);
                assert forall|q: int|
                    0 <= q < k + 1 implies cell_at(&self.board, (#[trigger] cells@[q]).0 as int, cells@[q].1 as int).visibility
                        != Visibility::Hidden by {
                    let pq = cells@[q];
                    lemma_index_coords(w, h, pq.0 as int, pq.1 as int);
                    let jq = index_of(w, pq.0 as int, pq.1 as int);
                    assert(self.cells()[jq] == self.cells()[jq]);
                }
                let j = index_of(w, p.0 as int, p.1 as int);
                assert forall|i: int| 0 <= i < s0.cells().len() && !listed(cells@, w, i) implies #[trigger] self.cells()[i]
                    == s0.cells()[i] by {
                    if i == j {
                        assert(listed(cells@, w, i));
                    }
                    assert(before.cells()[i] == s0.cells()[i]);
                }
            }
            k = k + 1;
        }
    }

    /// Compares two constraints. When the mines of one outnumber those of
    /// the other by the number of its cells outside the other, those cells
    /// are mines and the other's cells outside it are safe (wing
    /// elimination). When one lies inside the other, the rest of the other
    /// holds the difference of their mines (subset rule).
    fn apply_pair(&mut self, c1: Constraint, c2: Constraint)
        requires
            old(self).inv(None),
            old(self).valid_constraint(c1, None),
            old(self).valid_constraint(c2, None),
        ensures
            final(self).inv(None),
            advances(*old(self), *final(self)),
            keeps(*old(self), *final(self)),
            pair_done(c1, c2, *final(self)),
            forall|i: int|
                0 <= i < old(self).cells().len() && !wing_cells(c1, c2, old(self).w()).contains(i) && !wing_cells(
                    c2,
                    c1,
                    old(self).w(),
                ).contains(i) ==> #[trigger] final(self).cells()[i] == old(self).cells()[i],
            forall|d: Constraint|
                #[trigger] stored(*final(self), d) && !stored(*old(self), d) ==> final(self).constraints_todo@.contains(d),
            final(self).measure_a() <= old(self).measure_a(),
            final(self).measure_b() <= old(self).measure_b(),
    {
        let ghost s0 = *self;
        let ghost w = self.w();
        let ghost h = self.h();
        let ghost cells = self.cells();
        proof {
            lemma_advances_refl(s0);
            lemma_keeps_refl(s0);
        }
        let c1_wing = c1.munge(c2, true);
        let c2_wing = c2.munge(c1, true);
        let c1_count = count_ones(c1_wing);
        let c2_count = count_ones(c2_wing);
        let ghost k1 = Constraint { x: c1.x, y: c1.y, mask: c1_wing, mines: 0 };
        let ghost k2 = Constraint { x: c2.x, y: c2.y, mask: c2_wing, mines: 0 };
        proof {
            lemma_wing(c1, c2, k1, k2, cells, w, h);
            lemma_mset_bounds(c1, cells, w, h);
            lemma_mset_bounds(c2, cells, w, h);
            lemma_mset_bounds(k1, cells, w, h);
            lemma_mset_bounds(k2, cells, w, h);
            lemma_cset(k1, w, h);
            lemma_cset(k2, w, h);
            assert(cells.len() == w * h);
            lemma_wing_cells(c1, c2, k1, w, h);
            lemma_wing_cells(c2, c1, k2, w, h);
            assert(c1.mines <= 9 && c2.mines <= 9);
        }
        if c1.mines.wrapping_sub(c2.mines) == c1_count as u8 {
            let flags = Constraint::masked_cells_raw((c1.x, c1.y), c1_wing);
            let safe = Constraint::masked_cells_raw((c2.x, c2.y), c2_wing);
            proof {
                assert(c1.mines - c2.mines == popcount9(k1.mask));
                assert(cells.len() == w * h);
                lemma_wing_forced(&s0.board, s0.num_mines as int, c1, c2, k1, k2);
                assert forall|q: int| 0 <= q < flags@.len() implies {
                    let p = #[trigger] flags@[q];
                    &&& p.0 < w
                    &&& p.1 < h
                    &&& forced(&s0.board, s0.num_mines as int, index_of(w, p.0 as int, p.1 as int), Visibility::Flagged)
                } by {
                    let p = flags@[q];
                    assert(flags@.contains(p));
                    assert(k1.covers(p.0 as int, p.1 as int));
                    lemma_index_coords(w, h, p.0 as int, p.1 as int);
                    assert(cset(k1, w).contains(index_of(w, p.0 as int, p.1 as int)));
                }
            }
            self.known_cells(&flags, Visibility::Flagged, Ghost(None));
            let ghost s1 = *self;
            proof {
                assert forall|q: int| 0 <= q < safe@.len() implies {
                    let p = #[trigger] safe@[q];
                    &&& p.0 < w
                    &&& p.1 < h
                    &&& forced(&s1.board, s1.num_mines as int, index_of(w, p.0 as int, p.1 as int), Visibility::Revealed)
                } by {
                    let p = safe@[q];
                    assert(safe@.contains(p));
                    assert(k2.covers(p.0 as int, p.1 as int));
                    lemma_index_coords(w, h, p.0 as int, p.1 as int);
                    let j = index_of(w, p.0 as int, p.1 as int);
                    assert(cset(k2, w).contains(j));
                    lemma_forced_evolves(&s0.board, &s1.board, s0.num_mines as int, j, Visibility::Revealed);
                }
            }
            self.known_cells(&safe, Visibility::Revealed, Ghost(None));
            proof {
                lemma_advances_trans(s0, s1, *self);
                lemma_keeps_trans(s0, s1, *self);
                lemma_shown(s0, s1, flags@, k1, Visibility::Flagged);
                lemma_shown_kept(s1, *self, cset(k1, w), Visibility::Flagged);
                lemma_shown(s0, *self, safe@, k2, Visibility::Revealed);
                assert forall|i: int|
                    0 <= i < s0.cells().len() && !cset(k1, w).contains(i) && !cset(k2, w).contains(i) implies #[trigger] self.cells()[i]
                        == s0.cells()[i] by {
                    if listed(flags@, w, i) {
                        let q = choose|q: int| 0 <= q < flags@.len() && index_of(w, flags@[q].0 as int, flags@[q].1 as int) == i;
                        assert(flags@.contains(flags@[q]));
                        lemma_index_coords(w, h, flags@[q].0 as int, flags@[q].1 as int);
                    }
                    if listed(safe@, w, i) {
                        let q = choose|q: int| 0 <= q < safe@.len() && index_of(w, safe@[q].0 as int, safe@[q].1 as int) == i;
                        assert(safe@.contains(safe@[q]));
                        lemma_index_coords(w, h, safe@[q].0 as int, safe@[q].1 as int);
                    }
                    assert(s1.cells()[i] == s0.cells()[i]);
                }
            }
        } else if c2.mines.wrapping_sub(c1.mines) == c2_count as u8 {
            let flags = Constraint::masked_cells_raw((c2.x, c2.y), c2_wing);
            let safe = Constraint::masked_cells_raw((c1.x, c1.y), c1_wing);
            proof {
                assert(c2.mines - c1.mines == popcount9(k2.mask));
                assert(cells.len() == w * h);
                lemma_wing_forced(&s0.board, s0.num_mines as int, c2, c1, k2, k1);
                assert forall|q: int| 0 <= q < flags@.len() implies {
                    let p = #[trigger] flags@[q];
                    &&& p.0 < w
                    &&& p.1 < h
                    &&& forced(&s0.board, s0.num_mines as int, index_of(w, p.0 as int, p.1 as int), Visibility::Flagged)
                } by {
                    let p = flags@[q];
                    assert(flags@.contains(p));
                    assert(k2.covers(p.0 as int, p.1 as int));
                    lemma_index_coords(w, h, p.0 as int, p.1 as int);
                    assert(cset(k2, w).contains(index_of(w, p.0 as int, p.1 as int)));
                }
            }
            self.known_cells(&flags, Visibility::Flagged, Ghost(None));
            let ghost s1 = *self;
            proof {
                assert forall|q: int| 0 <= q < safe@.len() implies {
                    let p = #[trigger] safe@[q];
                    &&& p.0 < w
                    &&& p.1 < h
                    &&& forced(&s1.board, s1.num_mines as int, index_of(w, p.0 as int, p.1 as int), Visibility::Revealed)
                } by {
                    let p = safe@[q];
                    assert(safe@.contains(p));
                    assert(k1.covers(p.0 as int, p.1 as int));
                    lemma_index_coords(w, h, p.0 as int, p.1 as int);
                    let j = index_of(w, p.0 as int, p.1 as int);
                    assert(cset(k1, w).contains(j));
                    lemma_forced_evolves(&s0.board, &s1.board, s0.num_mines as int, j, Visibility::Revealed);
                }
            }
            self.known_cells(&safe, Visibility::Revealed, Ghost(None));
            proof {
                lemma_advances_trans(s0, s1, *self);
                lemma_keeps_trans(s0, s1, *self);
                assert(c1.mines - c2.mines != popcount9(k1.mask));
                lemma_shown(s0, s1, flags@, k2, Visibility::Flagged);
                lemma_shown_kept(s1, *self, cset(k2, w), Visibility::Flagged);
                lemma_shown(s0, *self, safe@, k1, Visibility::Revealed);
                assert forall|i: int|
                    0 <= i < s0.cells().len() && !cset(k1, w).contains(i) && !cset(k2, w).contains(i) implies #[trigger] self.cells()[i]
                        == s0.cells()[i] by {
                    if listed(flags@, w, i) {
                        let q = choose|q: int| 0 <= q < flags@.len() && index_of(w, flags@[q].0 as int, flags@[q].1 as int) == i;
                        assert(flags@.contains(flags@[q]));
                        lemma_index_coords(w, h, flags@[q].0 as int, flags@[q].1 as int);
                    }
                    if listed(safe@, w, i) {
                        let q = choose|q: int| 0 <= q < safe@.len() && index_of(w, safe@[q].0 as int, safe@[q].1 as int) == i;
                        assert(safe@.contains(safe@[q]));
                        lemma_index_coords(w, h, safe@[q].0 as int, safe@[q].1 as int);
                    }
                    assert(s1.cells()[i] == s0.cells()[i]);
                }
            }
        } else if c1_count == 0 {
            let n = Constraint { x: c2.x, y: c2.y, mask: c2_wing, mines: c2.mines - c1.mines };
            proof {
                lemma_cset_same(k2, n, w, h);
                lemma_cset(c2, w, h);
                assert(cells.len() == w * h);
                lemma_wing_known(&s0.board, s0.num_mines as int, c1, c2, k1, k2, n);
                assert forall|j: int| #[trigger] cset(n, w).contains(j) implies self.cells()[j].visibility == Visibility::Hidden
                    || self.pending(j) || None::<int> == Some(j) by {
                    assert(cset(c2, w).contains(j));
                }
            }
            self.insert_constraint(n, Ghost(None));
            proof {
                assert(c1.mines - c2.mines != popcount9(k1.mask));
                assert(c2.mines - c1.mines != popcount9(k2.mask));
                lemma_held_after_insert(s0, *self, n, wing_cells(c2, c1, w), None);
            }
        } else if c2_count == 0 {
            let updated = Constraint { x: c1.x, y: c1.y, mask: c1_wing, mines: c1.mines - c2.mines };
            if let Some(n) = updated.normalised() {
                proof {
                    lemma_cset_same(k1, n, w, h);
                    lemma_cset(c1, w, h);
                    assert(cells.len() == w * h);
                    lemma_wing_known(&s0.board, s0.num_mines as int, c2, c1, k2, k1, n);
                    super::lemma_corner_bits(n.mask);
                    assert(n.covers(n.x as int, n.y as int) || n.covers(n.x as int, n.y + 1) || n.covers(n.x as int, n.y + 2));
                    assert(n.covers(n.x as int, n.y as int) || n.covers(n.x + 1, n.y as int) || n.covers(n.x + 2, n.y as int));
                    assert forall|j: int| #[trigger] cset(n, w).contains(j) implies self.cells()[j].visibility == Visibility::Hidden
                        || self.pending(j) || None::<int> == Some(j) by {
                        assert(cset(c1, w).contains(j));
                    }
                }
                self.insert_constraint(n, Ghost(None));
                proof {
                    assert(c1.mines - c2.mines != popcount9(k1.mask));
                    assert(c2.mines - c1.mines != popcount9(k2.mask));
                    lemma_held_after_insert(s0, *self, n, wing_cells(c1, c2, w), None);
                }
            } else {
                proof {
                    super::lemma_zero_mask(c1_wing);
                }
            }
        } else {
            proof {
                assert(c1.mines - c2.mines != popcount9(k1.mask));
                assert(c2.mines - c1.mines != popcount9(k2.mask));
            }
        }
    }

    /// Works off the constraint queue, comparing each stored constraint with
    /// the stored constraints that overlap it. Returns whether there was any
    /// constraint to work.
    fn solve_dequeue_constraints_todo(&mut self) -> (r: bool)
        requires
            old(self).inv(None),
            pairs_ok_on(*old(self), any_c()),
        ensures
            final(self).inv(None),
            pairs_ok_on(*final(self), any_c()),
            evolves(&old(self).board, &final(self).board),
            deduced(&old(self).board, &final(self).board, old(self).num_mines as int),
            advances(*old(self), *final(self)),
            final(self).num_mines == old(self).num_mines,
            final(self).constraints_todo@.len() == 0,
            final(self).measure_a() <= old(self).measure_a(),
            forall|i: int, d: Constraint|
                0 <= i < old(self).cells().len() && old(self).bucket(i).contains(d) ==> #[trigger] final(self).bucket(i).contains(d),
            forall|q: int, c2: Constraint|
                0 <= q < old(self).constraints_todo@.len() && stored(*old(self), old(self).constraints_todo@[q]) && #[trigger] stored(
                    *old(self),
                    c2,
                ) && old(self).constraints_todo@[q] != c2 && overlaps(old(self).constraints_todo@[q], c2) ==> pair_done(
                    #[trigger] old(self).constraints_todo@[q],
                    c2,
                    *final(self),
                ),
            forall|i: int|
                0 <= i < old(self).cells().len() && #[trigger] final(self).cells()[i] != old(self).cells()[i] ==> in_some_wing(
                    *final(self),
                    i,
                ),
            r == (old(self).constraints_todo@.len() > 0),
            r ==> final(self).measure_b() < old(self).measure_b(),
            !r ==> *final(self) == *old(self),
    {
        let ghost s0 = *self;
        let ghost w = self.w();
        let ghost h = self.h();
        let ghost len0 = s0.constraints_todo@.len() as int;
        let ghost mut popped: int = 0;
        let mut done_something = false;
        proof {
            self.lemma_bucket_bound(None);
            lemma_advances_refl(s0);
            assert(s0.cells().len() == w * h);
        }
        while self.constraints_todo.len() > 0
            invariant
                self.inv(None),
                s0.inv(None),
                advances(s0, *self),
                self.measure_a() <= s0.measure_a(),
                self.measure_b() >= 0,
                w == self.w(),
                h == self.h(),
                w == s0.w(),
                h == s0.h(),
                s0.cells().len() == w * h,
                len0 == s0.constraints_todo@.len(),
                pairs_ok_on(*self, any_c()),
                forall|i: int| 0 <= i < s0.cells().len() && #[trigger] self.cells()[i] != s0.cells()[i] ==> in_some_wing(*self, i),
                0 <= popped,
                !done_something ==> *self == s0 && popped == 0,
                done_something ==> self.measure_b() < s0.measure_b() && s0.constraints_todo@.len() > 0,
                forall|i: int, d: Constraint|
                    0 <= i < s0.cells().len() && s0.bucket(i).contains(d) ==> #[trigger] self.bucket(i).contains(d),
                popped <= len0 ==> self.constraints_todo@.len() >= len0 - popped,
                popped <= len0 ==> forall|q: int|
                    0 <= q < len0 - popped ==> #[trigger] self.constraints_todo@[q] == s0.constraints_todo@[q + popped],
                forall|q: int, c2: Constraint|
                    0 <= q < len0 && q < popped && stored(s0, s0.constraints_todo@[q]) && #[trigger] stored(s0, c2)
                        && s0.constraints_todo@[q] != c2 && overlaps(s0.constraints_todo@[q], c2) ==> pair_done(
                        #[trigger] s0.constraints_todo@[q],
                        c2,
                        *self,
                    ),
            decreases self.measure_b(),
        {
            let ghost before = *self;
            let c1 = self.constraints_todo.pop_front().unwrap();
            done_something = true;
            proof {
                assert(self.constraints_todo@ =~= before.constraints_todo@.drop_first());
                lemma_pairs_pop(before, *self, c1);
                assert forall|i: int| 0 <= i < s0.cells().len() && #[trigger] self.cells()[i] != s0.cells()[i] implies in_some_wing(*self, i) by {
                    lemma_wing_kept(before, *self, i);
                }
                assert(c1 == before.constraints_todo@[0]);
                if popped < len0 {
                    assert(c1 == s0.constraints_todo@[popped]);
                }
                assert forall|q: int| 0 <= q < self.constraints_todo@.len() implies (#[trigger] self.constraints_todo@[q]).x < w
                    && self.constraints_todo@[q].y < h by {
                    assert(self.constraints_todo@[q] == before.constraints_todo@[q + 1]);
                }
                if popped + 1 <= len0 {
                    assert forall|q: int| 0 <= q < len0 - (popped + 1) implies #[trigger] self.constraints_todo@[q]
                        == s0.constraints_todo@[q + popped + 1] by {
                        assert(self.constraints_todo@[q] == before.constraints_todo@[q + 1]);
                    }
                }
                Self::lemma_inv_frame(before, *self, None);
                lemma_deduced_refl(&before.board, before.num_mines as int);
                lemma_advances_trans(s0, before, *self);
                lemma_index_coords(w, h, c1.x as int, c1.y as int);
                assert forall|q: int, c2: Constraint|
                    0 <= q < len0 && q < popped && stored(s0, s0.constraints_todo@[q]) && #[trigger] stored(s0, c2)
                        && s0.constraints_todo@[q] != c2 && overlaps(s0.constraints_todo@[q], c2) implies pair_done(
                        #[trigger] s0.constraints_todo@[q],
                        c2,
                        *self,
                    ) by {
                    lemma_pair_done_same(s0.constraints_todo@[q], c2, before, *self);
                }
            }
            let ghost c1_new = popped < len0 && stored(s0, c1);
            proof {
                popped = popped + 1;
            }
            let bi = self.constraints.to_index(c1.x, c1.y);
            if !vec_contains(&self.constraints.data[bi], &c1) {
                proof {
                    self.lemma_bucket_bound(None);
                    if c1_new {
                        assert(self.bucket(bi as int).contains(c1));
                    }
                    assert(!stored(*self, c1));
                    lemma_pairs_close(*self, c1);
                }
                continue;
            }
            proof {
                let q0 = choose|q0: int| 0 <= q0 < self.bucket(bi as int).len() && self.bucket(bi as int)[q0] == c1;
                assert(self.bucket(bi as int)[q0] == c1);
            }
            let x = c1.x;
            let y = c1.y;
            let ghost s1 = *self;
            assert(s1.cells().len() == w * h);
            let mut overlapping: Vec<Constraint> = Vec::new();
            let y0 = if y >= 2 { y - 2 } else { 0 };
            let y1 = if y + 3 < self.board.height() { y + 3 } else { self.board.height() };
            let x0 = if x >= 2 { x - 2 } else { 0 };
            let x1 = if x + 3 < self.board.width() { x + 3 } else { self.board.width() };
            let mut yy = y0;
            while yy < y1
                invariant
                    *self == s1,
                    s1.inv(None),
                    w == s1.w(),
                    h == s1.h(),
                    y1 <= h,
                    x1 <= w,
                    y0 <= yy,
                    forall|q: int| 0 <= q < overlapping@.len() ==> s1.valid_constraint(#[trigger] overlapping@[q], None),
                    forall|q: int|
                        0 <= q < overlapping@.len() ==> stored(s1, #[trigger] overlapping@[q]) && overlapping@[q] != c1 && super::overlaps(
                            c1,
                            overlapping@[q],
                        ),
                    s1.valid_constraint(c1, None),
                    s1.cells().len() == w * h,
                    forall|d: Constraint|
                        #[trigger] stored(s1, d) && d != c1 && super::overlaps(c1, d) && y0 <= d.y < yy && x0 <= d.x < x1
                            ==> overlapping@.contains(d),
                decreases y1 - yy,
            {
                let mut xx = x0;
                while xx < x1
                    invariant
                        *self == s1,
                        s1.inv(None),
                        w == s1.w(),
                        h == s1.h(),
                        y0 <= yy < y1 <= h,
                        x1 <= w,
                        x0 <= xx,
                        forall|q: int| 0 <= q < overlapping@.len() ==> s1.valid_constraint(#[trigger] overlapping@[q], None),
                    forall|q: int|
                        0 <= q < overlapping@.len() ==> stored(s1, #[trigger] overlapping@[q]) && overlapping@[q] != c1 && super::overlaps(
                            c1,
                            overlapping@[q],
                        ),
                        s1.valid_constraint(c1, None),
                        s1.cells().len() == w * h,
                        forall|d: Constraint|
                            #[trigger] stored(s1, d) && d != c1 && super::overlaps(c1, d) && ((y0 <= d.y < yy && x0 <= d.x < x1)
                                || (d.y == yy && x0 <= d.x < xx)) ==> overlapping@.contains(d),
                    decreases x1 - xx,
                {
                    proof {
                        lemma_index_coords(w, h, xx as int, yy as int);
                    }
                    let bi2 = self.constraints.to_index(xx, yy);
                    let mut t: usize = 0;
                    while t < self.constraints.data[bi2].len()
                        invariant
                            *self == s1,
                            s1.inv(None),
                            0 <= bi2 < s1.cells().len(),
                            bi2 == index_of(w, xx as int, yy as int),
                            w == s1.w(),
                            t <= s1.bucket(bi2 as int).len(),
                            forall|q: int| 0 <= q < overlapping@.len() ==> s1.valid_constraint(#[trigger] overlapping@[q], None),
                    forall|q: int|
                        0 <= q < overlapping@.len() ==> stored(s1, #[trigger] overlapping@[q]) && overlapping@[q] != c1 && super::overlaps(
                            c1,
                            overlapping@[q],
                        ),
                            s1.valid_constraint(c1, None),
                            s1.cells().len() == w * h,
                            forall|d: Constraint|
                                #[trigger] stored(s1, d) && d != c1 && super::overlaps(c1, d) && ((y0 <= d.y < yy && x0 <= d.x < x1)
                                    || (d.y == yy && x0 <= d.x < xx)) ==> overlapping@.contains(d),
                            forall|q: int|
                                0 <= q < t && #[trigger] s1.bucket(bi2 as int)[q] != c1 && super::overlaps(c1, s1.bucket(bi2 as int)[q])
                                    ==> overlapping@.contains(s1.bucket(bi2 as int)[q]),
                        decreases s1.bucket(bi2 as int).len() - t,
                    {
                        let c2 = self.constraints.data[bi2][t];
                        proof {
                            assert(c2 == s1.bucket(bi2 as int)[t as int]);
                            assert(s1.valid_constraint(c2, None));
                        }
                        let m = c1.munge(c2, false);
                        proof {
                            super::lemma_munge_overlap(c1, c2, m);
                        }
                        if c1 != c2 && m != 0 {
                            let ghost old_ov = overlapping@;
                            overlapping.push(c2);
                            proof {
                                assert(s1.cells().len() == w * h);
                                lemma_coords_index(w, h, bi2 as int);
                                assert(c2.x == (bi2 as int) % w && c2.y == (bi2 as int) / w);
                                assert(s1.bucket(bi2 as int).contains(c2));
                                assert(stored(s1, c2));
                                assert forall|q: int|
                                    0 <= q < overlapping@.len() implies stored(s1, #[trigger] overlapping@[q]) && overlapping@[q] != c1
                                        && super::overlaps(c1, overlapping@[q]) by {
                                    if q < old_ov.len() {
                                        assert(overlapping@[q] == old_ov[q]);
                                    }
                                }
                                assert forall|q: int| 0 <= q < overlapping@.len() implies s1.valid_constraint(#[trigger] overlapping@[q], None) by {
                                    if q < old_ov.len() {
                                        assert(overlapping@[q] == old_ov[q]);
                                    }
                                }
                                assert forall|d: Constraint| old_ov.contains(d) implies #[trigger] overlapping@.contains(d) by {
                                    let k = choose|k: int| 0 <= k < old_ov.len() && old_ov[k] == d;
                                    assert(overlapping@[k] == d);
                                }
                                assert(overlapping@[old_ov.len() as int] == c2);
                            }
                        }
                        t = t + 1;
                    }
                    proof {
                        assert forall|d: Constraint|
                            #[trigger] stored(s1, d) && d != c1 && super::overlaps(c1, d) && ((y0 <= d.y < yy && x0 <= d.x < x1) || (
                            d.y == yy && x0 <= d.x < xx + 1)) implies overlapping@.contains(d) by {
                            if d.y == yy && d.x == xx {
                                let q = choose|q: int| 0 <= q < s1.bucket(bi2 as int).len() && s1.bucket(bi2 as int)[q] == d;
                                assert(s1.bucket(bi2 as int)[q] == d);
                            }
                        }
                    }
                    xx = xx + 1;
                }
                yy = yy + 1;
            }
            proof {
                assert forall|d: Constraint| #[trigger] stored(s1, d) && d != c1 && super::overlaps(c1, d) implies overlapping@.contains(d) by {
                    let (px, py) = choose|px: int, py: int| #[trigger] c1.covers(px, py) && #[trigger] d.covers(px, py);
                    assert(c1.covers(px, py) && d.covers(px, py));
                }
            }
            let ghost s2 = *self;
            proof {
                lemma_advances_refl(s2);
                lemma_keeps_refl(s2);
                assert(stored(s2, c1));
            }
            let mut o: usize = 0;
            while o < overlapping.len()
                invariant
                    self.inv(None),
                    s2.inv(None),
                    s2 == s1,
                    advances(s2, *self),
                    keeps(s2, *self),
                    self.measure_a() <= s2.measure_a(),
                    self.measure_b() <= s2.measure_b(),
                    s2.valid_constraint(c1, None),
                    s2.cells().len() == w * h,
                    w == s2.w(),
                    h == s2.h(),
                    forall|q: int| 0 <= q < overlapping@.len() ==> s2.valid_constraint(#[trigger] overlapping@[q], None),
                    o <= overlapping.len(),
                    forall|q: int| 0 <= q < o ==> pair_done(c1, #[trigger] overlapping@[q], *self),
                    forall|q: int|
                        0 <= q < overlapping@.len() ==> stored(s2, #[trigger] overlapping@[q]) && overlapping@[q] != c1 && overlaps(
                            c1,
                            overlapping@[q],
                        ),
                    forall|i: int| 0 <= i < s0.cells().len() && #[trigger] self.cells()[i] != s0.cells()[i] ==> in_some_wing(*self, i),
                    s0.cells().len() == w * h,
                    pairs_ok_on(*self, other_than(c1)),
                    forall|d: Constraint| #[trigger] stored(*self, d) && !stored(s2, d) ==> self.constraints_todo@.contains(d),
                    stored(s2, c1),
                decreases overlapping.len() - o,
            {
                let ghost before_pair = *self;
                proof {
                    lemma_valid_advances(s2, *self, c1, None);
                    lemma_valid_advances(s2, *self, overlapping@[o as int], None);
                }
                self.apply_pair(c1, overlapping[o]);
                proof {
                    lemma_advances_trans(s2, before_pair, *self);
                    lemma_keeps_trans(s2, before_pair, *self);
                    assert(before_pair.cells().len() == w * h);
                    lemma_pairs_grow(before_pair, *self, other_than(c1), None);
                    assert forall|i: int| 0 <= i < s0.cells().len() && #[trigger] self.cells()[i] != s0.cells()[i] implies in_some_wing(*self, i) by {
                        if before_pair.cells()[i] != s0.cells()[i] {
                            lemma_wing_kept(before_pair, *self, i);
                        } else {
                            let c2 = overlapping@[o as int];
                            assert(wing_cells(c1, c2, w).contains(i) || wing_cells(c2, c1, w).contains(i));
                            lemma_index_coords(w, h, c1.x as int, c1.y as int);
                            lemma_index_coords(w, h, c2.x as int, c2.y as int);
                            assert(self.bucket(index_of(w, c1.x as int, c1.y as int)).contains(c1));
                            assert(self.bucket(index_of(w, c2.x as int, c2.y as int)).contains(c2));
                            assert(stored(*self, c1) && stored(*self, c2));
                        }
                    }
                    assert forall|d: Constraint| #[trigger] stored(*self, d) && !stored(s2, d) implies self.constraints_todo@.contains(d) by {
                        if stored(before_pair, d) {
                            let q = choose|q: int| 0 <= q < before_pair.constraints_todo@.len() && before_pair.constraints_todo@[q] == d;
                            assert(self.constraints_todo@[q] == d);
                        }
                    }
                    assert forall|q: int| 0 <= q < o + 1 implies pair_done(c1, #[trigger] overlapping@[q], *self) by {
                        if q < o {
                            lemma_pair_done_kept(c1, overlapping@[q], before_pair, *self);
                        }
                    }
                }
                o = o + 1;
            }
            proof {
                lemma_advances_trans(s0, s2, *self);
                self.lemma_bucket_bound(None);
                assert forall|c2: Constraint| #[trigger] stored(*self, c2) && stored(*self, c1) && c2 != c1 && overlaps(c1, c2)
                    implies pair_ok(*self, c1, c2) by {
                    if stored(s2, c2) {
                        assert(overlapping@.contains(c2));
                        let k = choose|k: int| 0 <= k < overlapping@.len() && overlapping@[k] == c2;
                        assert(pair_done(c1, overlapping@[k], *self));
                    }
                }
                lemma_pairs_close(*self, c1);
                assert forall|i: int, d: Constraint|
                    0 <= i < s0.cells().len() && s0.bucket(i).contains(d) implies #[trigger] self.bucket(i).contains(d) by {
                    assert(s2.bucket(i).contains(d));
                }
                assert forall|q: int| 0 <= q < len0 - popped implies #[trigger] self.constraints_todo@[q]
                    == s0.constraints_todo@[q + popped] by {
                    assert(s2.constraints_todo@[q] == s0.constraints_todo@[q + popped]);
                }
                assert forall|q: int, c2: Constraint|
                    0 <= q < len0 && q < popped && stored(s0, s0.constraints_todo@[q]) && #[trigger] stored(s0, c2)
                        && s0.constraints_todo@[q] != c2 && overlaps(s0.constraints_todo@[q], c2) implies pair_done(
                        #[trigger] s0.constraints_todo@[q],
                        c2,
                        *self,
                    ) by {
                    let cq = s0.constraints_todo@[q];
                    lemma_index_coords(w, h, cq.x as int, cq.y as int);
                    lemma_index_coords(w, h, c2.x as int, c2.y as int);
                    assert(s0.valid_constraint(cq, None));
                    assert(s0.valid_constraint(c2, None));
                    if q < popped - 1 {
                        lemma_pair_done_kept(cq, c2, s2, *self);
                    } else {
                        assert(cq == c1);
                        assert(stored(s1, c2)) by {
                            assert(s1.bucket(index_of(w, c2.x as int, c2.y as int)).contains(c2));
                        }
                        assert(overlapping@.contains(c2));
                        let k = choose|k: int| 0 <= k < overlapping@.len() && overlapping@[k] == c2;
                        assert(pair_done(c1, overlapping@[k], *self));
                    }
                }
            }
        }
        proof {
            if !done_something {
                lemma_evolves_trans(&s0.board, &s0.board, &s0.board);
            }
        }
        done_something
    }
}


/// The union `u` is what the disjoint-union search finds on `s`: taken
/// from the searched part of one group of the stored constraints, after
/// no earlier group held a resolving union, its constraints disjoint and
/// resolving the hidden cells outside it.
spec fn union_search_found(s: StSolver, u: Seq<Constraint>) -> bool {
    let ml = s.num_mines - count_vis(s.cells(), Visibility::Flagged);
    let hl = count_vis(s.cells(), Visibility::Hidden) as int;
    let depth = s.options.max_disjoint_union_recursion_depth as int;
    &&& pairwise_disjoint(u)
    &&& union_resolves(u, ml, hl)
    &&& exists|gs: Seq<Vec<Constraint>>|
        #[trigger] groups_of(concat_groups(s.constraints.data@), gs) && exists|g: int|
            #![trigger gs[g]]
            0 <= g < gs.len() && picks_from(group_prefix(gs[g]@, depth), 0, u) && forall|gg: int|
                #![trigger gs[gg]]
                0 <= gg < g ==> no_resolving_pick(group_prefix(gs[gg]@, depth), 0, Seq::empty(), ml, hl)
}

/// However the constraints of `data` are split into groups as
/// `into_constraint_groups` splits them, no union searched within the first
/// `depth` constraints of a group resolves the hidden cells outside it.
pub open spec fn no_union_resolves(data: Seq<Vec<Constraint>>, depth: int, mines_left: int, hidden_left: int) -> bool {
    exists|gs: Seq<Vec<Constraint>>|
        #[trigger] groups_of(concat_groups(data), gs) && forall|g: int|
            #![trigger gs[g]]
            0 <= g < gs.len() ==> no_resolving_pick(group_prefix(gs[g]@, depth), 0, Seq::empty(), mines_left, hidden_left)
}

/// The hidden cells outside the union `u` hold either no mine or only mines,
/// given that `mines_left` mines hide among `hidden_left` hidden cells, and
/// some such cell remains.
pub open spec fn union_resolves(u: Seq<Constraint>, mines_left: int, hidden_left: int) -> bool {
    &&& sum_mines(u) <= mines_left
    &&& sum_cells(u) < hidden_left
    &&& (mines_left - sum_mines(u) == 0 || mines_left - sum_mines(u) == hidden_left - sum_cells(u))
}

/// The first `n` constraints of `v` (all of them if it has fewer).
fn copy_prefix(v: &Vec<Constraint>, n: usize) -> (r: Vec<Constraint>)
    ensures
        r@ == v@.subrange(0, if n < v@.len() { n as int } else { v@.len() as int }),
{
    let m = if n < v.len() { n } else { v.len() };
    let mut r: Vec<Constraint> = Vec::new();
    let mut i: usize = 0;
    while i < m
        invariant
            m <= v.len(),
            i <= m,
            r@ == v@.subrange(0, i as int),
        decreases m - i,
    {
        r.push(v[i]);
        i = i + 1;
        assert(r@ =~= v@.subrange(0, i as int));
    }
    r
}

/// `u` takes constraints of `space` from position `from` on, in their order,
/// each position at most once.
pub open spec fn picks_from(space: Seq<Constraint>, from: int, u: Seq<Constraint>) -> bool
    decreases u.len(),
{
    if u.len() == 0 {
        true
    } else {
        exists|i: int| from <= i < space.len() && #[trigger] space[i] == u[0] && picks_from(space, i + 1, u.drop_first())
    }
}

/// No constraints picked from `space` at `from` or later, added to `sel`,
/// leave them pairwise disjoint and resolve the hidden cells outside them.
pub open spec fn no_resolving_pick(space: Seq<Constraint>, from: int, sel: Seq<Constraint>, mines_left: int, hidden_left: int) -> bool {
    forall|u: Seq<Constraint>|
        #[trigger] picks_from(space, from, u) && pairwise_disjoint(sel + u) ==> !union_resolves(sel + u, mines_left, hidden_left)
}

proof fn lemma_sums_concat(a: Seq<Constraint>, b: Seq<Constraint>)
    ensures
        sum_mines(a + b) == sum_mines(a) + sum_mines(b),
        sum_cells(a + b) == sum_cells(a) + sum_cells(b),
        sum_mines(b) >= 0,
        sum_cells(b) >= 0,
    decreases b.len(),
{
    if b.len() == 0 {
        assert(a + b =~= a);
    } else {
        lemma_sums_concat(a, b.drop_last());
        assert((a + b).drop_last() =~= a + b.drop_last());
        assert((a + b).last() == b.last());
        assert(popcount9(b.last().mask) >= 0);
    }
}

/// The first `n` constraints of a group, all of them if it has fewer.
pub open spec fn group_prefix(group: Seq<Constraint>, n: int) -> Seq<Constraint> {
    group.subrange(0, if n < group.len() { n } else { group.len() as int })
}

/// `c` overlaps none of the constraints of `sel`.
pub open spec fn disjoint_with(sel: Seq<Constraint>, c: Constraint) -> bool {
    forall|k: int| 0 <= k < sel.len() ==> !overlaps(#[trigger] sel[k], c)
}

/// The union that the depth-first search finds from `sel`, trying the
/// constraints of `space` from `cursor` on: `sel` itself when it resolves
/// the hidden cells outside it, else the first union found by adding a
/// constraint disjoint from `sel` and searching on after it.
pub open spec fn dfs(space: Seq<Constraint>, cursor: int, sel: Seq<Constraint>, ml: int, hl: int) -> Option<Seq<Constraint>>
    decreases space.len() - cursor, 1int,
{
    if sum_mines(sel) > ml || sum_cells(sel) > hl {
        None
    } else if union_resolves(sel, ml, hl) {
        Some(sel)
    } else {
        dfs_from(space, cursor, sel, ml, hl)
    }
}

/// The first union the depth-first search finds from `sel` by adding a
/// constraint of `space` at position `i` or later.
pub open spec fn dfs_from(space: Seq<Constraint>, i: int, sel: Seq<Constraint>, ml: int, hl: int) -> Option<Seq<Constraint>>
    decreases space.len() - i, 0int,
{
    if i < 0 || i >= space.len() {
        None
    } else if disjoint_with(sel, space[i]) {
        match dfs(space, i + 1, sel.push(space[i]), ml, hl) {
            Some(u) => Some(u),
            None => dfs_from(space, i + 1, sel, ml, hl),
        }
    } else {
        dfs_from(space, i + 1, sel, ml, hl)
    }
}

/// The union that the search over the groups finds: the first one found in
/// the searched part of a group, the groups taken in order from `g`.
pub open spec fn first_union(groups: Seq<Vec<Constraint>>, g: int, depth: int, ml: int, hl: int) -> Option<Seq<Constraint>>
    decreases groups.len() - g,
{
    if g < 0 || g >= groups.len() {
        None
    } else {
        match dfs(group_prefix(groups[g]@, depth), 0, Seq::empty(), ml, hl) {
            Some(u) => Some(u),
            None => first_union(groups, g + 1, depth, ml, hl),
        }
    }
}

/// Depth-first search for a union of pairwise disjoint constraints that,
/// added to `selected`, resolves the hidden cells outside it. Candidates are
/// taken from `search_space` at `cursor` or later, in order; the first union
/// found is returned, and `None` only when there is none.
fn recurse(
    search_space: &Vec<Constraint>,
    cursor: usize,
    selected: &mut Vec<Constraint>,
    current_mines: usize,
    current_cells: usize,
    total_mines_left: usize,
    total_hidden_left: usize,
) -> (r: Option<Vec<Constraint>>)
    requires
        cursor <= search_space@.len(),
        forall|k: int| 0 <= k < search_space@.len() ==> (#[trigger] search_space@[k]).mask_ok(),
        forall|k: int| 0 <= k < old(selected)@.len() ==> (#[trigger] old(selected)@[k]).mask_ok(),
        pairwise_disjoint(old(selected)@),
        current_mines == sum_mines(old(selected)@),
        current_cells == sum_cells(old(selected)@),
    ensures
        r is Some <==> dfs(search_space@, cursor as int, old(selected)@, total_mines_left as int, total_hidden_left as int) is Some,
        r matches Some(u) ==> dfs(search_space@, cursor as int, old(selected)@, total_mines_left as int, total_hidden_left as int)
            == Some(u@),
        r is None ==> final(selected)@ == old(selected)@,
        r is None ==> no_resolving_pick(
            search_space@,
            cursor as int,
            old(selected)@,
            total_mines_left as int,
            total_hidden_left as int,
        ),
        r matches Some(u) ==> {
            &&& pairwise_disjoint(u@)
            &&& union_resolves(u@, total_mines_left as int, total_hidden_left as int)
            &&& forall|k: int| 0 <= k < u@.len() ==> old(selected)@.contains(#[trigger] u@[k]) || search_space@.contains(u@[k])
            &&& exists|v: Seq<Constraint>| #[trigger] picks_from(search_space@, cursor as int, v) && u@ == old(selected)@ + v
        },
    decreases search_space@.len() - cursor,
{
    let remaining_mines = match total_mines_left.checked_sub(current_mines) {
        Some(v) => v,
        None => {
            proof {
                assert forall|u: Seq<Constraint>| #[trigger] picks_from(search_space@, cursor as int, u) && pairwise_disjoint(
                    selected@ + u,
                ) implies !union_resolves(selected@ + u, total_mines_left as int, total_hidden_left as int) by {
                    lemma_sums_concat(selected@, u);
                }
            }
            return None;
        },
    };
    let remaining_hidden = match total_hidden_left.checked_sub(current_cells) {
        Some(v) => v,
        None => {
            proof {
                assert forall|u: Seq<Constraint>| #[trigger] picks_from(search_space@, cursor as int, u) && pairwise_disjoint(
                    selected@ + u,
                ) implies !union_resolves(selected@ + u, total_mines_left as int, total_hidden_left as int) by {
                    lemma_sums_concat(selected@, u);
                }
            }
            return None;
        },
    };
    if remaining_hidden > 0 && (remaining_mines == 0 || remaining_mines == remaining_hidden) {
        let u = copy_prefix(selected, selected.len());
        proof {
            assert(u@ =~= selected@);
            assert(picks_from(search_space@, cursor as int, Seq::<Constraint>::empty()));
            assert(u@ =~= old(selected)@ + Seq::<Constraint>::empty());
            assert forall|k: int| 0 <= k < u@.len() implies old(selected)@.contains(#[trigger] u@[k]) || search_space@.contains(u@[k]) by {
                assert(old(selected)@[k] == u@[k]);
            }
        }
        return Some(u);
    }
    let ghost sel0 = selected@;
    let ghost ml = total_mines_left as int;
    let ghost hl = total_hidden_left as int;
    proof {
        assert(dfs(search_space@, cursor as int, sel0, ml, hl) == dfs_from(search_space@, cursor as int, sel0, ml, hl));
    }
    let mut i: usize = cursor;
    while i < search_space.len()
        invariant
            cursor <= i <= search_space@.len(),
            selected@ == sel0,
            sel0 == old(selected)@,
            forall|k: int| 0 <= k < search_space@.len() ==> (#[trigger] search_space@[k]).mask_ok(),
            forall|k: int| 0 <= k < sel0.len() ==> (#[trigger] sel0[k]).mask_ok(),
            pairwise_disjoint(sel0),
            current_mines == sum_mines(sel0),
            current_cells == sum_cells(sel0),
            current_mines <= total_mines_left,
            current_cells <= total_hidden_left,
            !union_resolves(sel0, total_mines_left as int, total_hidden_left as int),
            ml == total_mines_left,
            hl == total_hidden_left,
            dfs(search_space@, cursor as int, sel0, ml, hl) == dfs_from(search_space@, i as int, sel0, ml, hl),
            forall|j: int|
                #![trigger search_space@[j]]
                cursor <= j < i ==> no_resolving_pick(
                    search_space@,
                    j + 1,
                    sel0.push(search_space@[j]),
                    total_mines_left as int,
                    total_hidden_left as int,
                ),
        decreases search_space@.len() - i,
    {
        let candidate = search_space[i];
        let mut is_disjoint = true;
        let mut q: usize = 0;
        while q < selected.len() && is_disjoint
            invariant
                q <= selected@.len(),
                selected@ == sel0,
                candidate.mask_ok(),
                forall|k: int| 0 <= k < sel0.len() ==> (#[trigger] sel0[k]).mask_ok(),
                is_disjoint ==> forall|k: int| 0 <= k < q ==> !overlaps(#[trigger] sel0[k], candidate),
                !is_disjoint ==> exists|k: int| 0 <= k < sel0.len() && overlaps(#[trigger] sel0[k], candidate),
            decreases selected@.len() - q,
        {
            let m = selected[q].munge(candidate, false);
            proof {
                lemma_munge_overlap(sel0[q as int], candidate, m);
            }
            if m != 0 {
                is_disjoint = false;
            }
            q = q + 1;
        }
        if is_disjoint {
            let next_mines = current_mines.checked_add(candidate.mines as usize);
            let next_cells = current_cells.checked_add(count_ones(candidate.mask) as usize);
            if let (Some(nm), Some(nc)) = (next_mines, next_cells) {
                selected.push(candidate);
                proof {
                    let s1 = selected@;
                    assert(s1.drop_last() =~= sel0);
                    assert(s1.last() == candidate);
                    assert forall|a: int, b: int, x: int, y: int|
                        0 <= a < s1.len() && 0 <= b < s1.len() && a != b && #[trigger] s1[a].covers(x, y) implies !#[trigger] s1[b].covers(
                            x,
                            y,
                        ) by {
                        if a < sel0.len() && b < sel0.len() {
                            assert(s1[a] == sel0[a] && s1[b] == sel0[b]);
                        } else if a < sel0.len() {
                            assert(s1[a] == sel0[a]);
                            assert(!overlaps(sel0[a], candidate));
                        } else {
                            assert(s1[b] == sel0[b]);
                            assert(!overlaps(sel0[b], candidate));
                        }
                    }
                    assert forall|k: int| 0 <= k < s1.len() implies (#[trigger] s1[k]).mask_ok() by {
                        if k < sel0.len() {
                            assert(s1[k] == sel0[k]);
                        }
                    }
                }
                let res = recurse(search_space, i + 1, selected, nm, nc, total_mines_left, total_hidden_left);
                if let Some(u) = res {
                    proof {
                        assert forall|k: int| 0 <= k < u@.len() implies sel0.contains(#[trigger] u@[k]) || search_space@.contains(u@[k]) by {
                            if sel0.push(candidate).contains(u@[k]) {
                                let j = choose|j: int| 0 <= j < sel0.len() + 1 && sel0.push(candidate)[j] == u@[k];
                                if j < sel0.len() {
                                    assert(sel0[j] == u@[k]);
                                } else {
                                    assert(search_space@[i as int] == u@[k]);
                                }
                            }
                        }
                        let v1 = choose|v: Seq<Constraint>| #[trigger] picks_from(search_space@, i + 1, v) && u@ == sel0.push(candidate) + v;
                        let v = seq![candidate] + v1;
                        assert(v.drop_first() =~= v1);
                        assert(search_space@[i as int] == v[0]);
                        assert(picks_from(search_space@, cursor as int, v));
                        assert(u@ =~= sel0 + v);
                        assert(disjoint_with(sel0, search_space@[i as int]));
                        assert(sel0.push(candidate) == sel0.push(search_space@[i as int]));
                    }
                    return Some(u);
                }
                selected.pop();
                proof {
                    assert(selected@ =~= sel0);
                    assert(disjoint_with(sel0, search_space@[i as int]));
                    assert(sel0.push(candidate) == sel0.push(search_space@[i as int]));
                }
            } else {
                proof {
                    assert forall|u: Seq<Constraint>| #[trigger] picks_from(search_space@, i + 1, u) && pairwise_disjoint(
                        sel0.push(candidate) + u,
                    ) implies !union_resolves(sel0.push(candidate) + u, total_mines_left as int, total_hidden_left as int) by {
                        lemma_sums_concat(sel0.push(candidate), u);
                        lemma_sums_concat(sel0, seq![candidate]);
                        assert(sel0.push(candidate) =~= sel0 + seq![candidate]);
                        assert(sum_mines(seq![candidate]) == candidate.mines) by {
                            assert(seq![candidate].drop_last() =~= Seq::<Constraint>::empty());
                            assert(seq![candidate].last() == candidate);
                            assert(sum_mines(Seq::<Constraint>::empty()) == 0);
                        }
                        assert(sum_cells(seq![candidate]) == popcount9(candidate.mask)) by {
                            assert(seq![candidate].drop_last() =~= Seq::<Constraint>::empty());
                            assert(seq![candidate].last() == candidate);
                            assert(sum_cells(Seq::<Constraint>::empty()) == 0);
                        }
                    }
                    assert(disjoint_with(sel0, search_space@[i as int]));
                    lemma_sums_concat(sel0, seq![candidate]);
                    assert(sel0.push(candidate) =~= sel0 + seq![candidate]);
                    assert(sum_mines(seq![candidate]) == candidate.mines) by {
                        assert(seq![candidate].drop_last() =~= Seq::<Constraint>::empty());
                        assert(seq![candidate].last() == candidate);
                        assert(sum_mines(Seq::<Constraint>::empty()) == 0);
                    }
                    assert(sum_cells(seq![candidate]) == popcount9(candidate.mask)) by {
                        assert(seq![candidate].drop_last() =~= Seq::<Constraint>::empty());
                        assert(seq![candidate].last() == candidate);
                        assert(sum_cells(Seq::<Constraint>::empty()) == 0);
                    }
                    assert(dfs(search_space@, i + 1, sel0.push(search_space@[i as int]), ml, hl) is None);
                }
            }
        } else {
            proof {
                let k0 = choose|k: int| 0 <= k < sel0.len() && overlaps(#[trigger] sel0[k], candidate);
                assert forall|u: Seq<Constraint>| #[trigger] picks_from(search_space@, i + 1, u) && pairwise_disjoint(
                    sel0.push(candidate) + u,
                ) implies !union_resolves(sel0.push(candidate) + u, total_mines_left as int, total_hidden_left as int) by {
                    let t = sel0.push(candidate) + u;
                    let (x, y) = choose|x: int, y: int| #[trigger] sel0[k0].covers(x, y) && #[trigger] candidate.covers(x, y);
                    assert(t[k0] == sel0[k0]);
                    assert(t[sel0.len() as int] == candidate);
                    assert(t[k0].covers(x, y));
                }
                assert(!disjoint_with(sel0, search_space@[i as int]));
            }
        }
        proof {
            assert(search_space@[i as int] == candidate);
        }
        i = i + 1;
    }
    proof {
        assert forall|u: Seq<Constraint>| #[trigger] picks_from(search_space@, cursor as int, u) && pairwise_disjoint(sel0 + u) implies !union_resolves(
            sel0 + u,
            total_mines_left as int,
            total_hidden_left as int,
        ) by {
            if u.len() == 0 {
                assert(sel0 + u =~= sel0);
            } else {
                let j = choose|j: int|
                    cursor <= j < search_space@.len() && #[trigger] search_space@[j] == u[0] && picks_from(search_space@, j + 1, u.drop_first());
                assert(no_resolving_pick(search_space@, j + 1, sel0.push(search_space@[j]), total_mines_left as int, total_hidden_left as int));
                assert(picks_from(search_space@, j + 1, u.drop_first()));
                assert(sel0.push(search_space@[j]) + u.drop_first() =~= sel0 + u);
            }
        }
    }
    None
}

impl StSolver {
    /// Helper function for `solve_total_mines_count()`. Searches each group,
    /// cut to the search depth of the options, for a union of pairwise
    /// disjoint constraints that resolves the hidden cells outside it; `None`
    /// only when no group has one.
    fn find_disjoint_union(&self, constraint_groups: Vec<Vec<Constraint>>, mines_left: usize, hidden_left: usize) -> (r:
        Option<Vec<Constraint>>)
        requires
            forall|g: int, k: int|
                0 <= g < constraint_groups@.len() && 0 <= k < constraint_groups@[g]@.len() ==> (#[trigger] constraint_groups@[g]@[k]).mask_ok(),
        ensures
            r matches Some(u) ==> {
                &&& pairwise_disjoint(u@)
                &&& union_resolves(u@, mines_left as int, hidden_left as int)
                &&& forall|k: int|
                    #![trigger u@[k]]
                    0 <= k < u@.len() ==> exists|g: int|
                        #![trigger constraint_groups@[g]]
                        0 <= g < constraint_groups@.len() && constraint_groups@[g]@.contains(u@[k])
                &&& exists|g: int|
                    #![trigger constraint_groups@[g]]
                    0 <= g < constraint_groups@.len() && picks_from(
                        group_prefix(constraint_groups@[g]@, self.options.max_disjoint_union_recursion_depth as int),
                        0,
                        u@,
                    ) && forall|gg: int|
                        #![trigger constraint_groups@[gg]]
                        0 <= gg < g ==> no_resolving_pick(
                            group_prefix(constraint_groups@[gg]@, self.options.max_disjoint_union_recursion_depth as int),
                            0,
                            Seq::empty(),
                            mines_left as int,
                            hidden_left as int,
                        )
            },
            r is Some <==> first_union(
                constraint_groups@,
                0,
                self.options.max_disjoint_union_recursion_depth as int,
                mines_left as int,
                hidden_left as int,
            ) is Some,
            r matches Some(u) ==> first_union(
                constraint_groups@,
                0,
                self.options.max_disjoint_union_recursion_depth as int,
                mines_left as int,
                hidden_left as int,
            ) == Some(u@),
            r is None ==> forall|g: int|
                #![trigger constraint_groups@[g]]
                0 <= g < constraint_groups@.len() ==> no_resolving_pick(
                    group_prefix(constraint_groups@[g]@, self.options.max_disjoint_union_recursion_depth as int),
                    0,
                    Seq::empty(),
                    mines_left as int,
                    hidden_left as int,
                ),
    {
        let mut g: usize = 0;
        while g < constraint_groups.len()
            invariant
                g <= constraint_groups@.len(),
                forall|gg: int, k: int|
                    0 <= gg < constraint_groups@.len() && 0 <= k < constraint_groups@[gg]@.len() ==> (#[trigger] constraint_groups@[gg]@[k]).mask_ok(),
                forall|gg: int|
                    #![trigger constraint_groups@[gg]]
                    0 <= gg < g ==> no_resolving_pick(
                        group_prefix(constraint_groups@[gg]@, self.options.max_disjoint_union_recursion_depth as int),
                        0,
                        Seq::empty(),
                        mines_left as int,
                        hidden_left as int,
                    ),
                first_union(constraint_groups@, 0, self.options.max_disjoint_union_recursion_depth as int, mines_left as int, hidden_left as int)
                    == first_union(constraint_groups@, g as int, self.options.max_disjoint_union_recursion_depth as int, mines_left as int, hidden_left as int),
            decreases constraint_groups@.len() - g,
        {
            let group = &constraint_groups[g];
            let search_space = copy_prefix(group, self.options.max_disjoint_union_recursion_depth);
            let mut selected: Vec<Constraint> = Vec::new();
            proof {
                assert forall|k: int| 0 <= k < search_space@.len() implies (#[trigger] search_space@[k]).mask_ok() by {
                    assert(search_space@[k] == constraint_groups@[g as int]@[k]);
                }
                assert(sum_mines(selected@) == 0);
                assert(sum_cells(selected@) == 0);
            }
            if let Some(u) = recurse(&search_space, 0, &mut selected, 0, 0, mines_left, hidden_left) {
                proof {
                    assert forall|k: int| #![trigger u@[k]] 0 <= k < u@.len() implies exists|gg: int|
                        #![trigger constraint_groups@[gg]]
                        0 <= gg < constraint_groups@.len() && constraint_groups@[gg]@.contains(u@[k]) by {
                        let j = choose|j: int| 0 <= j < search_space@.len() && search_space@[j] == u@[k];
                        assert(constraint_groups@[g as int]@[j] == u@[k]);
                        assert(constraint_groups@[g as int]@.contains(u@[k]));
                    }
                    assert(search_space@ == group_prefix(constraint_groups@[g as int]@, self.options.max_disjoint_union_recursion_depth as int));
                    let v = choose|v: Seq<Constraint>| #[trigger] picks_from(search_space@, 0, v) && u@ == Seq::<Constraint>::empty() + v;
                    assert(u@ =~= v);
                    assert(constraint_groups@[g as int] == constraint_groups@[g as int]);
                }
                return Some(u);
            }
            proof {
                assert(search_space@ == group_prefix(constraint_groups@[g as int]@, self.options.max_disjoint_union_recursion_depth as int));
                assert(selected@ =~= Seq::<Constraint>::empty());
            }
            g = g + 1;
        }
        None
    }
}


/// No cell of `s` has visibility `v`: none is counted.
proof fn lemma_count_vis_zero(s: Seq<Cell>, v: Visibility)
    requires
        forall|i: int| 0 <= i < s.len() ==> (#[trigger] s[i]).visibility != v,
    ensures
        count_vis(s, v) == 0,
{
    lemma_vis_set(s, v);
    assert(vis_set(s, v) =~= Set::empty());
}

/// The hidden cells only become fewer.
proof fn lemma_hidden_evolves(b0: &Board, b1: &Board)
    requires
        evolves(b0, b1),
    ensures
        count_vis(b1.cells(), Visibility::Hidden) <= count_vis(b0.cells(), Visibility::Hidden),
{
    lemma_vis_set(b0.cells(), Visibility::Hidden);
    lemma_vis_set(b1.cells(), Visibility::Hidden);
    assert(vis_set(b1.cells(), Visibility::Hidden).subset_of(vis_set(b0.cells(), Visibility::Hidden))) by {
        assert forall|i: int| vis_set(b1.cells(), Visibility::Hidden).contains(i) implies vis_set(
            b0.cells(),
            Visibility::Hidden,
        ).contains(i) by {
            assert(b1.cells()[i] == b1.cells()[i]);
        }
    }
    vstd::set_lib::lemma_len_subset(vis_set(b1.cells(), Visibility::Hidden), vis_set(b0.cells(), Visibility::Hidden));
}

proof fn lemma_sum_mines_prefix(u: Seq<Constraint>, q: int)
    requires
        0 <= q <= u.len(),
    ensures
        0 <= sum_mines(u.subrange(0, q)) <= sum_mines(u),
    decreases u.len(),
{
    if u.len() > 0 {
        if q < u.len() {
            lemma_sum_mines_prefix(u.drop_last(), q);
            assert(u.drop_last().subrange(0, q) =~= u.subrange(0, q));
        } else {
            lemma_sum_mines_prefix(u.drop_last(), q - 1);
            assert(u.drop_last().subrange(0, q - 1) =~= u.drop_last());
            assert(u.subrange(0, q) =~= u);
        }
    } else {
        assert(u.subrange(0, q) =~= u);
    }
}

impl StSolver {
    /// Helper function for `solver_loop()`. Considers the total mines count to try
    /// and solve the remaining board: when no mine is left among the hidden
    /// cells, or only mines, all of them are settled. Failing that, searches
    /// for a union of disjoint stored constraints that settles all hidden
    /// cells outside it. Returns whether either applied.
    fn solve_total_mines_count(&mut self) -> (r: bool)
        requires
            old(self).inv(None),
            old(self).cell_todo@.len() == 0,
        ensures
            final(self).inv(None),
            advances(*old(self), *final(self)),
            final(self).measure_b() == old(self).measure_b(),
            r ==> final(self).measure_a() < old(self).measure_a() || count_vis(old(self).cells(), Visibility::Hidden) == 0,
            !r ==> *final(self) == *old(self),
            final(self).constraints == old(self).constraints,
            final(self).constraints_todo == old(self).constraints_todo,
            !r ==> stuck_count(&old(self).board, old(self).num_mines as int),
            !r ==> no_union_resolves(
                old(self).constraints.data@,
                old(self).options.max_disjoint_union_recursion_depth as int,
                old(self).num_mines - count_vis(old(self).cells(), Visibility::Flagged),
                count_vis(old(self).cells(), Visibility::Hidden) as int,
            ),
            r && stuck_count(&old(self).board, old(self).num_mines as int) ==> exists|u: Seq<Constraint>|
                #[trigger] union_search_found(*old(self), u) && (forall|i: int|
                    0 <= i < old(self).cells().len() && old(self).cells()[i].visibility == Visibility::Hidden && !uset(
                        u,
                        old(self).w(),
                    ).contains(i) ==> final(self).cells()[i].visibility != Visibility::Hidden) && (forall|i: int|
                    0 <= i < old(self).cells().len() && (old(self).cells()[i].visibility != Visibility::Hidden || uset(
                        u,
                        old(self).w(),
                    ).contains(i)) ==> #[trigger] final(self).cells()[i] == old(self).cells()[i]),
            !stuck_count(&old(self).board, old(self).num_mines as int) ==> r && count_vis(
                final(self).cells(),
                Visibility::Hidden,
            ) == 0,
    {
        let ghost s0 = *self;
        let ghost w = self.w();
        let ghost h = self.h();
        let ghost cells0 = self.cells();
        proof {
            lemma_hidden_mines(cells0);
            lemma_advances_refl(s0);
        }
        let flagged = self.board.count_cells(Visibility::Flagged);
        let mines_left = self.num_mines - flagged;
        let hidden_left = self.board.count_cells(Visibility::Hidden);
        let ghost hs = vis_set(cells0, Visibility::Hidden);
        if mines_left == 0 || mines_left == hidden_left {
            let new_visibility = if mines_left == 0 {
                Visibility::Revealed
            } else {
                Visibility::Flagged
            };
            proof {
                hs.lemma_len_filter(mine_pred(cells0));
                if mines_left == 0 {
                    hs.filter(mine_pred(cells0)).lemma_len0_is_empty();
                } else {
                    vstd::set_lib::lemma_subset_equality(hs.filter(mine_pred(cells0)), hs);
                }
                assert forall|i: int| 0 <= i < cells0.len() && cells0[i].visibility == Visibility::Hidden implies (
                #[trigger] cells0[i]).is_mine == (new_visibility == Visibility::Flagged) by {
                    assert(hs.contains(i));
                    if mines_left == 0 {
                        assert(!hs.filter(mine_pred(cells0)).contains(i));
                    } else {
                        assert(hs.filter(mine_pred(cells0)).contains(i));
                    }
                }
                lemma_count_forced(&s0.board, s0.num_mines as int, new_visibility);
            }
            let cells = self.board.iter_cells();
            assert(cells0.len() == w * h);
            let ghost mut changed = false;
            let mut k: usize = 0;
            while k < cells.len()
                invariant
                    self.inv(None),
                    advances(s0, *self),
                    self.constraints == s0.constraints,
                    self.constraints_todo == s0.constraints_todo,
                    self.measure_b() == s0.measure_b(),
                    self.measure_a() <= s0.measure_a(),
                    w == self.w(),
                    h == self.h(),
                    k <= cells.len(),
                    cells.len() == cells0.len(),
                    new_visibility != Visibility::Hidden,
                    cells0.len() == w * h,
                    0 < w,
                    s0.cells() == cells0,
                    forall|q: int| 0 <= q < cells.len() ==> #[trigger] cells@[q] == ((q % w) as usize, (q / w) as usize),
                    forall|i: int| 0 <= i < cells0.len() && cells0[i].visibility == Visibility::Hidden ==> (
                    #[trigger] cells0[i]).is_mine == (new_visibility == Visibility::Flagged),
                    forall|j: int|
                        0 <= j < s0.cells().len() && (#[trigger] s0.cells()[j]).visibility == Visibility::Hidden ==> forced(
                            &s0.board,
                            s0.num_mines as int,
                            j,
                            new_visibility,
                        ),
                    forall|q: int| 0 <= q < k ==> (#[trigger] self.cells()[q]).visibility != Visibility::Hidden,
                    !changed ==> *self == s0,
                    changed ==> self.measure_a() < s0.measure_a(),
                decreases cells.len() - k,
            {
                let c = cells[k];
                let ghost before = *self;
                proof {
                    lemma_coords_index(w, h, k as int);
                    assert(c == ((k as int % w) as usize, (k as int / w) as usize));
                    assert(index_of(w, c.0 as int, c.1 as int) == k);
                    assert(before.cells()[k as int] == before.cells()[k as int]);
                    assert(cells0[k as int] == cells0[k as int]);
                }
                if self.board.peek(c) == Visibility::Hidden {
                    proof {
                        assert(cells0[k as int].visibility == Visibility::Hidden);
                        assert(s0.cells()[k as int].visibility == Visibility::Hidden);
                        lemma_forced_evolves(&s0.board, &self.board, s0.num_mines as int, k as int, new_visibility);
                    }
                    self.known_cell(c, new_visibility, Ghost(None));
                    proof {
                        changed = true;
                        lemma_advances_trans(s0, before, *self);
                    }
                }
                proof {
                    assert(self.cells()[k as int].visibility != Visibility::Hidden);
                    assert forall|q: int| 0 <= q < k + 1 implies (#[trigger] self.cells()[q]).visibility != Visibility::Hidden by {
                        assert(before.cells()[q] == before.cells()[q]);
                    }
                }
                k = k + 1;
            }
            proof {
                if !changed {
                    lemma_count_vis_zero(cells0, Visibility::Hidden);
                }
                lemma_count_vis_zero(self.cells(), Visibility::Hidden);
            }
            return true;
        }
        let mut all_constraints: Vec<Constraint> = Vec::new();
        let mut bi: usize = 0;
        let ghost data = s0.constraints.data@;
        proof {
            assert(data.subrange(0, 0) =~= Seq::<Vec<Constraint>>::empty());
            assert(all_constraints@ =~= concat_groups(data.subrange(0, 0)));
        }
        while bi < self.constraints.data.len()
            invariant
                *self == s0,
                s0.inv(None),
                data == s0.constraints.data@,
                bi <= data.len(),
                all_constraints@ == concat_groups(data.subrange(0, bi as int)),
                forall|q: int| 0 <= q < all_constraints@.len() ==> s0.valid_constraint(#[trigger] all_constraints@[q], None),
            decreases self.constraints.data@.len() - bi,
        {
            let ghost a_start = all_constraints@;
            let mut t: usize = 0;
            while t < self.constraints.data[bi].len()
                invariant
                    *self == s0,
                    s0.inv(None),
                    0 <= bi < s0.cells().len(),
                    data == s0.constraints.data@,
                    t <= data[bi as int]@.len(),
                    all_constraints@ == a_start + data[bi as int]@.subrange(0, t as int),
                    forall|q: int| 0 <= q < all_constraints@.len() ==> s0.valid_constraint(#[trigger] all_constraints@[q], None),
                decreases s0.bucket(bi as int).len() - t,
            {
                let c = self.constraints.data[bi][t];
                let ghost a0 = all_constraints@;
                proof {
                    assert(c == s0.bucket(bi as int)[t as int]);
                }
                all_constraints.push(c);
                proof {
                    assert forall|q: int| 0 <= q < all_constraints@.len() implies s0.valid_constraint(#[trigger] all_constraints@[q], None) by {
                        if q < a0.len() {
                            assert(all_constraints@[q] == a0[q]);
                        }
                    }
                    assert(data[bi as int]@.subrange(0, t + 1) =~= data[bi as int]@.subrange(0, t as int).push(c));
                    assert(all_constraints@ =~= a_start + data[bi as int]@.subrange(0, t + 1));
                }
                t = t + 1;
            }
            proof {
                assert(data[bi as int]@.subrange(0, t as int) =~= data[bi as int]@);
                assert(data.subrange(0, bi + 1).drop_last() =~= data.subrange(0, bi as int));
                assert(data.subrange(0, bi + 1).last() == data[bi as int]);
            }
            bi = bi + 1;
        }
        proof {
            assert(data.subrange(0, bi as int) =~= data);
        }
        let ghost all = all_constraints@;
        let groups = Constraint::into_constraint_groups(all_constraints);
        proof {
            assert forall|g: int, k: int|
                0 <= g < groups@.len() && 0 <= k < groups@[g]@.len() implies s0.valid_constraint(#[trigger] groups@[g]@[k], None) by {
                let e = groups@[g]@[k];
                assert(groups@[g]@.contains(e));
                lemma_concat_contains(groups@, g, e);
                vstd::seq_lib::to_multiset_contains(concat_groups(groups@), e);
                vstd::seq_lib::to_multiset_contains(all, e);
                let q = choose|q: int| 0 <= q < all.len() && all[q] == e;
                assert(s0.valid_constraint(all[q], None));
            }
        }
        let ghost gs = groups@;
        let found = self.find_disjoint_union(groups, mines_left, hidden_left);
        if let Some(u) = found {
            proof {
                assert forall|k: int| 0 <= k < u@.len() implies s0.valid_constraint(#[trigger] u@[k], None) by {
                    let g = choose|g: int| #![trigger groups@[g]] 0 <= g < groups@.len() && groups@[g]@.contains(u@[k]);
                    let j = choose|j: int| 0 <= j < groups@[g]@.len() && groups@[g]@[j] == u@[k];
                    assert(s0.valid_constraint(groups@[g]@[j], None));
                }
            }
            let mut union_selected_mines: usize = 0;
            let mut q: usize = 0;
            while q < u.len()
                invariant
                    q <= u@.len(),
                    union_selected_mines == sum_mines(u@.subrange(0, q as int)),
                    sum_mines(u@) <= mines_left,
                decreases u@.len() - q,
            {
                proof {
                    lemma_sum_mines_prefix(u@, q + 1);
                    assert(u@.subrange(0, q + 1).drop_last() =~= u@.subrange(0, q as int));
                }
                union_selected_mines = union_selected_mines + u[q].mines as usize;
                q = q + 1;
            }
            proof {
                assert(u@.subrange(0, u@.len() as int) =~= u@);
            }
            let new_visibility = if mines_left - union_selected_mines > 0 {
                Visibility::Flagged
            } else {
                Visibility::Revealed
            };
            let ghost o = hs.difference(uset(u@, w));
            proof {
                assert forall|k: int| 0 <= k < u@.len() implies (#[trigger] u@[k]).mask_ok() && covers_in_grid(u@[k], w, h)
                    && u@[k].mines == mset(u@[k], cells0, w).len() by {
                    assert(s0.valid_constraint(u@[k], None));
                }
                assert forall|k: int, i: int| 0 <= k < u@.len() && #[trigger] cset(u@[k], w).contains(i) implies cells0[i].visibility
                    == Visibility::Hidden by {
                    assert(s0.valid_constraint(u@[k], None));
                    assert(!s0.pending(i));
                }
                lemma_outside(cells0, u@, w, h);
                o.lemma_len_filter(mine_pred(cells0));
                if mines_left - union_selected_mines == 0 {
                    o.filter(mine_pred(cells0)).lemma_len0_is_empty();
                } else {
                    vstd::set_lib::lemma_subset_equality(o.filter(mine_pred(cells0)), o);
                }
                assert forall|i: int| #[trigger] o.contains(i) implies cells0[i].is_mine == (new_visibility == Visibility::Flagged) by {
                    if mines_left - union_selected_mines == 0 {
                        assert(!o.filter(mine_pred(cells0)).contains(i));
                    } else {
                        assert(o.filter(mine_pred(cells0)).contains(i));
                    }
                }
                lemma_uset(u@, cells0, w, h);
                assert forall|k: int| 0 <= k < u@.len() implies (#[trigger] u@[k]).mask_ok() && covers_in_grid(u@[k], w, h)
                    && known(u@[k], &s0.board, s0.num_mines as int) by {
                    assert(s0.valid_constraint(u@[k], None));
                }
                lemma_union_forced(&s0.board, s0.num_mines as int, u@, new_visibility);
                assert forall|i: int| #[trigger] o.contains(i) implies forced(&s0.board, s0.num_mines as int, i, new_visibility) by {
                    assert(hs.contains(i));
                    assert(s0.cells()[i].visibility == Visibility::Hidden);
                }
            }
            let cells = self.board.iter_cells();
            assert(cells0.len() == w * h);
            let ghost mut changed = false;
            let mut k: usize = 0;
            while k < cells.len()
                invariant
                    self.inv(None),
                    advances(s0, *self),
                    self.constraints == s0.constraints,
                    self.constraints_todo == s0.constraints_todo,
                    self.measure_b() == s0.measure_b(),
                    self.measure_a() <= s0.measure_a(),
                    w == self.w(),
                    h == self.h(),
                    k <= cells.len(),
                    cells.len() == cells0.len(),
                    cells0.len() == w * h,
                    0 < w,
                    s0.cells() == cells0,
                    new_visibility != Visibility::Hidden,
                    forall|q: int| 0 <= q < cells.len() ==> #[trigger] cells@[q] == ((q % w) as usize, (q / w) as usize),
                    forall|i: int| #[trigger] o.contains(i) ==> cells0[i].is_mine == (new_visibility == Visibility::Flagged),
                    forall|i: int| #[trigger] o.contains(i) ==> forced(&s0.board, s0.num_mines as int, i, new_visibility),
                    forall|i: int| #[trigger] o.contains(i) <==> hs.contains(i) && !uset(u@, w).contains(i),
                    forall|i: int| #[trigger] hs.contains(i) <==> 0 <= i < cells0.len() && cells0[i].visibility == Visibility::Hidden,
                    forall|i: int| #[trigger] uset(u@, w).contains(i) <==> exists|kk: int| 0 <= kk < u@.len() && cset(u@[kk], w).contains(i),
                    forall|kk: int| 0 <= kk < u@.len() ==> s0.valid_constraint(#[trigger] u@[kk], None),
                    forall|q: int| 0 <= q < k && #[trigger] o.contains(q) ==> self.cells()[q].visibility != Visibility::Hidden,
                    forall|q: int| 0 <= q < cells0.len() && !o.contains(q) ==> #[trigger] self.cells()[q] == cells0[q],
                    !changed ==> *self == s0,
                    changed ==> self.measure_a() < s0.measure_a(),
                decreases cells.len() - k,
            {
                let c = cells[k];
                let ghost before = *self;
                proof {
                    lemma_coords_index(w, h, k as int);
                    assert(c == ((k as int % w) as usize, (k as int / w) as usize));
                    assert(index_of(w, c.0 as int, c.1 as int) == k);
                    assert(before.cells()[k as int] == before.cells()[k as int]);
                    assert(cells0[k as int] == cells0[k as int]);
                }
                if self.board.peek(c) == Visibility::Hidden {
                    proof {
                        assert(cells0[k as int].visibility == Visibility::Hidden);
                    }
                    let mut outside_union = true;
                    let mut q: usize = 0;
                    while q < u.len() && outside_union
                        invariant
                            q <= u@.len(),
                            c == ((k as int % w) as usize, (k as int / w) as usize),
                            forall|kk: int| 0 <= kk < u@.len() ==> s0.valid_constraint(#[trigger] u@[kk], None),
                            outside_union ==> forall|kk: int| 0 <= kk < q ==> !(#[trigger] u@[kk]).covers(c.0 as int, c.1 as int),
                            !outside_union ==> exists|kk: int| 0 <= kk < q && (#[trigger] u@[kk]).covers(c.0 as int, c.1 as int),
                        decreases u@.len() - q,
                    {
                        proof {
                            assert(s0.valid_constraint(u@[q as int], None));
                        }
                        if u[q].contains(c) {
                            outside_union = false;
                        }
                        q = q + 1;
                    }
                    if outside_union {
                        proof {
                            assert(cells0[k as int].visibility == Visibility::Hidden);
                            assert(hs.contains(k as int));
                            assert(!uset(u@, w).contains(k as int)) by {
                                if uset(u@, w).contains(k as int) {
                                    let kk = choose|kk: int| 0 <= kk < u@.len() && cset(u@[kk], w).contains(k as int);
                                    assert(s0.valid_constraint(u@[kk], None));
                                    lemma_cset(u@[kk], w, h);
                                }
                            }
                            assert(o.contains(k as int));
                            lemma_forced_evolves(&s0.board, &self.board, s0.num_mines as int, k as int, new_visibility);
                        }
                        self.known_cell(c, new_visibility, Ghost(None));
                        proof {
                            changed = true;
                            lemma_advances_trans(s0, before, *self);
                            assert(self.cells()[k as int].visibility != Visibility::Hidden);
                        }
                    } else {
                        proof {
                            let kk = choose|kk: int| 0 <= kk < u@.len() && (#[trigger] u@[kk]).covers(c.0 as int, c.1 as int);
                            assert(s0.valid_constraint(u@[kk], None));
                            lemma_cset(u@[kk], w, h);
                            assert(cset(u@[kk], w).contains(k as int));
                            assert(uset(u@, w).contains(k as int));
                            assert(!o.contains(k as int));
                        }
                    }
                }
                proof {
                    assert forall|q: int| 0 <= q < cells0.len() && !o.contains(q) implies #[trigger] self.cells()[q] == cells0[q] by {
                        assert(before.cells()[q] == cells0[q]);
                    }
                    assert(self.cells()[k as int].visibility != Visibility::Hidden || !o.contains(k as int));
                    assert forall|q: int| 0 <= q < k + 1 && #[trigger] o.contains(q) implies self.cells()[q].visibility
                        != Visibility::Hidden by {
                        assert(before.cells()[q] == before.cells()[q]);
                    }
                }
                k = k + 1;
            }
            proof {
                if !changed {
                    assert(o.len() > 0);
                    let i = o.choose();
                    assert(o.contains(i));
                }
                assert(groups_of(all, gs));
                assert(union_search_found(s0, u@));
                assert forall|i: int|
                    0 <= i < s0.cells().len() && s0.cells()[i].visibility == Visibility::Hidden && !uset(u@, w).contains(i) implies self.cells()[i].visibility
                        != Visibility::Hidden by {
                    assert(hs.contains(i));
                    assert(o.contains(i));
                }
                assert forall|i: int|
                    0 <= i < s0.cells().len() && (s0.cells()[i].visibility != Visibility::Hidden || uset(u@, w).contains(i)) implies #[trigger] self.cells()[i]
                        == s0.cells()[i] by {
                    assert(!o.contains(i));
                }
            }
            return true;
        }
        proof {
            assert(groups_of(all, groups@));
            assert(cells0 == s0.cells());
        }
        false
    }
}


/// The mines not flagged on `b`, out of `n`, neither are none nor fill the
/// hidden cells: the count of mines settles no hidden cell.
pub open spec fn stuck_count(b: &Board, n: int) -> bool {
    let left = n - count_vis(b.cells(), Visibility::Flagged);
    left != 0 && left != count_vis(b.cells(), Visibility::Hidden)
}

/// The constraint stands on the board: it lies on the board, its cells are
/// hidden cells, and its mines are the mines among them.
pub open spec fn holds_on(c: Constraint, b: &Board) -> bool {
    &&& c.x < b.w()
    &&& c.y < b.h()
    &&& c.mask_ok()
    &&& c.mask != 0
    &&& covers_in_grid(c, b.w(), b.h())
    &&& c.mines == mset(c, b.cells(), b.w()).len()
    &&& forall|x: int, y: int| #[trigger] c.covers(x, y) ==> cell_at(b, x, y).visibility == Visibility::Hidden
}

impl StSolver {
    fn solver_loop(&mut self) -> (r: Result<(), ()>)
        requires
            old(self).inv(None),
            pairs_ok_on(*old(self), any_c()),
            cells_held(*old(self)),
        ensures
            final(self).inv(None),
            evolves(&old(self).board, &final(self).board),
            deduced(&old(self).board, &final(self).board, old(self).num_mines as int),
            final(self).num_mines == old(self).num_mines,
            r is Ok <==> count_vis(final(self).cells(), Visibility::Hidden) == 0,
            r is Err ==> final(self).cell_todo@.len() == 0,
            r is Err ==> final(self).constraints_todo@.len() == 0,
            r is Err ==> stuck_count(&final(self).board, final(self).num_mines as int),
            r is Err ==> no_union_resolves(
                final(self).constraints.data@,
                final(self).options.max_disjoint_union_recursion_depth as int,
                final(self).num_mines - count_vis(final(self).cells(), Visibility::Flagged),
                count_vis(final(self).cells(), Visibility::Hidden) as int,
            ),
            final(self).options == old(self).options,
            r is Err ==> pairs_ok_on(*final(self), any_c()),
            r is Err ==> cells_held(*final(self)),
    {
        let ghost s0 = *self;
        proof {
            self.lemma_bucket_bound(None);
            lemma_deduced_refl(&s0.board, s0.num_mines as int);
        }
        loop
            invariant
                *old(self) == s0,
                self.inv(None),
                evolves(&s0.board, &self.board),
                deduced(&s0.board, &self.board, s0.num_mines as int),
                self.num_mines == s0.num_mines,
                self.measure_b() >= 0,
                self.options == s0.options,
                pairs_ok_on(*self, any_c()),
                cells_held(*self),
            decreases self.measure_a(), self.measure_b(),
        {
            let ghost before = *self;
            let done_something;
            if self.cell_todo.len() > 0 {
                done_something = self.solve_dequeue_cell_todo();
            } else if self.constraints_todo.len() > 0 {
                done_something = self.solve_dequeue_constraints_todo();
                proof {
                    lemma_held_persist(before, *self, Set::empty(), Set::empty(), Seq::empty(), 0, -1);
                }
            } else {
                done_something = self.solve_total_mines_count();
                proof {
                    assert(keeps(before, *self));
                    assert(before.cells().len() == before.w() * before.h());
                    lemma_pairs_grow(before, *self, any_c(), None);
                    lemma_held_persist(before, *self, Set::empty(), Set::empty(), Seq::empty(), 0, -1);
                }
            }
            proof {
                lemma_evolves_trans(&s0.board, &before.board, &self.board);
                lemma_deduced_trans(&s0.board, &before.board, &self.board, s0.num_mines as int);
                lemma_hidden_evolves(&before.board, &self.board);
                self.lemma_bucket_bound(None);
            }
            let hidden_left = self.board.count_cells(Visibility::Hidden);
            if !done_something && hidden_left > 0 {
                return Err(());
            } else if hidden_left == 0 {
                return Ok(());
            }
        }
    }
}

impl StSolver {
    /// Solves the board in place, given the number of mines it holds; see
    /// `Solver::solve_with_options`.
    pub(crate) fn solve_counted(board: &mut Board, num_mines: usize, options: SolverOptions) -> (r: Result<
        (),
        Grid<Vec<Constraint>>,
    >)
        requires
            old(board).wf(),
            old(board).hints_consistent(),
            old(board).visibility_consistent(),
            num_mines == count_mines(old(board).cells()),
        ensures
            evolves(&*old(board), &*final(board)),
            deduced(&*old(board), &*final(board), num_mines as int),
            final(board).hints_consistent(),
            final(board).visibility_consistent(),
            r is Ok <==> count_vis(final(board).cells(), Visibility::Hidden) == 0,
            r is Ok ==> forall|i: int|
                0 <= i < final(board).cells().len() ==> (#[trigger] final(board).cells()[i].visibility == Visibility::Flagged
                    <==> final(board).cells()[i].is_mine),
            r matches Err(g) ==> {
                &&& g.wf()
                &&& g.width == final(board).grid.width
                &&& g.height == final(board).grid.height
                &&& forall|i: int, q: int|
                    0 <= i < g.data@.len() && 0 <= q < g.data@[i]@.len() ==> holds_on(#[trigger] g.data@[i]@[q], &*final(board))
                        && known(g.data@[i]@[q], &*final(board), num_mines as int) && 0 < g.data@[i]@[q].mines < popcount9(
                        g.data@[i]@[q].mask,
                    )
            },
            r is Err ==> stuck_count(&*final(board), num_mines as int),
            r matches Err(g) ==> no_union_resolves(
                g.data@,
                options.max_disjoint_union_recursion_depth as int,
                num_mines - count_vis(final(board).cells(), Visibility::Flagged),
                count_vis(final(board).cells(), Visibility::Hidden) as int,
            ),
            r matches Err(g) ==> pairs_compared(&*final(board), &g),
            r matches Err(g) ==> cells_complete(&*final(board), &g),
    {
        if board.grid.width == 0 || board.grid.height == 0 {
            proof {
                assert(board.cells().len() == 0) by {
                    assert(board.grid.width * board.grid.height == 0) by (nonlinear_arith)
                        requires
                            board.grid.width == 0 || board.grid.height == 0,
                    ;
                }
                assert(count_vis(board.cells(), Visibility::Hidden) == 0);
                assert(count_vis(board.cells(), Visibility::Flagged) == 0);
                lemma_deduced_refl(board, num_mines as int);
            }
            return Ok(());
        }
        let ghost b0 = *board;
        let mut taken = Board { grid: Grid { width: 0, height: 0, data: Vec::new() }, num_mines: 0 };
        core::mem::swap(board, &mut taken);
        let mut solver = StSolver::init(taken, num_mines, options);
        let res = solver.solver_loop();
        let StSolver { board: solved, constraints, .. } = solver;
        *board = solved;
        proof {
            if res is Ok {
                lemma_vis_set(board.cells(), Visibility::Hidden);
                vis_set(board.cells(), Visibility::Hidden).lemma_len0_is_empty();
                assert forall|i: int| 0 <= i < board.cells().len() implies #[trigger] board.cells()[i].visibility
                    == Visibility::Flagged <==> board.cells()[i].is_mine by {
                    if board.cells()[i].visibility == Visibility::Hidden {
                        assert(vis_set(board.cells(), Visibility::Hidden).contains(i));
                    }
                }
            }
        }
        match res {
            Ok(()) => Ok(()),
            Err(()) => {
                proof {
                    let s = solver;
                    let w = s.w();
                    let h = s.h();
                    lemma_pairs_public(s);
                    lemma_cells_public(s);
                    assert forall|i: int, q: int|
                        0 <= i < constraints.data@.len() && 0 <= q < constraints.data@[i]@.len() implies holds_on(
                        #[trigger] constraints.data@[i]@[q],
                        board,
                    ) && known(constraints.data@[i]@[q], board, num_mines as int) && 0 < constraints.data@[i]@[q].mines
                        < popcount9(constraints.data@[i]@[q].mask) by {
                        let c = s.bucket(i)[q];
                        assert(s.valid_constraint(c, None));
                        lemma_cset(c, w, h);
                        assert forall|x: int, y: int| #[trigger] c.covers(x, y) implies cell_at(board, x, y).visibility
                            == Visibility::Hidden by {
                            lemma_index_coords(w, h, x, y);
                            assert(cset(c, w).contains(index_of(w, x, y)));
                            assert(!s.pending(index_of(w, x, y)));
                        }
                    }
                }
                Err(constraints)
            },
        }
    }
}

impl Solver for StSolver {
    fn solve_with_options(board: &mut Board, options: SolverOptions) -> (r: Result<(), Grid<Vec<Constraint>>>) {
        let num_mines = board.get_num_mines();
        Self::solve_counted(board, num_mines, options)
    }
}


/// On a board where exactly the mines are flagged, the flags number the
/// mines.
pub proof fn lemma_flags_count(b: &Board)
    requires
        forall|i: int|
            0 <= i < b.cells().len() ==> (#[trigger] b.cells()[i].visibility == Visibility::Flagged <==> b.cells()[i].is_mine),
    ensures
        count_vis(b.cells(), Visibility::Flagged) == count_mines(b.cells()),
{
    lemma_vis_set(b.cells(), Visibility::Flagged);
    super::sets::lemma_mine_set(b.cells());
    assert(vis_set(b.cells(), Visibility::Flagged) =~= super::sets::mine_set(b.cells())) by {
        assert forall|i: int| vis_set(b.cells(), Visibility::Flagged).contains(i) == super::sets::mine_set(b.cells()).contains(i) by {
            if 0 <= i < b.cells().len() {
                assert(b.cells()[i].visibility == Visibility::Flagged <==> b.cells()[i].is_mine);
            }
        }
    }
}

} // verus!
