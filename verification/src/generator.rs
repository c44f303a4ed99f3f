//! Generation of boards that can be solved without guessing: a random board
//! is solved, and wherever the solver gets stuck the mines around the stuck
//! part are moved until it no longer does.
use vstd::prelude::*;
use rand::rngs::Xoshiro128PlusPlus;
use crate::state::{BoardInterface, Cell, Visibility, in_safe_area, spec_in_safe_area};
use crate::state::grid::{
    Board, Grid, index_of, nbr, adj_mine_count, is_adjacent, is_nbr_slot, count_mines, count_vis, lemma_index_coords,
    lemma_coords_index, lemma_nbr_distinct, lemma_adj_toggle, lemma_adj_same_mines, lemma_slot_sum_bounds, mine_at,
    safe_index, lemma_count_mines_update, lemma_sub_multiset_no_dup, lemma_count_mines_eq, rel_index,
    lemma_index_injective, with_vis,
};
use crate::random::{random_below, shuffle_indices, sample_slice, seeded_xoshiro};
use crate::solver::{Constraint, SolverOptions, count_ones, popcount9, cell_at};
use crate::solver::sets::{cset, mset, covers_in_grid, lemma_cset, lemma_mset_bounds};
use crate::solver::st::{StSolver, holds_on, evolves, stuck_count, total_len, solver_stuck};
use crate::solver::deduce::deduced;
use crate::solver::sets::{vis_set, lemma_vis_set};

verus! {

/// The mine layout of `base` with the mines at `m` in place of its own.
pub open spec fn with_mines(base: Seq<Cell>, m: spec_fn(int) -> bool) -> Seq<Cell> {
    Seq::new(base.len(), |i: int| Cell { is_mine: m(i), ..base[i] })
}

/// The mines `s` had before those of `was_mine` were taken away and those of
/// `was_open` were placed.
pub open spec fn mines_before(s: Seq<Cell>, was_mine: Seq<usize>, was_open: Seq<usize>) -> Seq<Cell> {
    with_mines(
        s,
        |i: int|
            if was_mine.contains(i as usize) {
                true
            } else if was_open.contains(i as usize) {
                false
            } else {
                s[i].is_mine
            },
    )
}

/// Every hint of `b` is the number of mines around its cell in the layout `l`.
pub open spec fn hints_match(b: &Board, l: Seq<Cell>) -> bool {
    forall|i: int|
        0 <= i < b.cells().len() ==> #[trigger] b.cells()[i].adjacent_mines == adj_mine_count(l, b.w(), b.h(), i % b.w(), i / b.w())
}

/// Whether one of the first `p` entries of `adj` names the cell `i`.
pub open spec fn touched(adj: Seq<Option<usize>>, p: int, i: int) -> bool {
    exists|q: int| 0 <= q < p && adj[q] == Some(i as usize)
}

/// A board the generator can work on: well formed and not empty, with true
/// hints, no revealed mine and no flagged safe cell, as many mines as it
/// claims, and the safe area around `start` revealed and free of mines.
pub open spec fn gen_ok(b: &Board, start: (usize, usize)) -> bool {
    &&& b.wf()
    &&& 0 < b.w()
    &&& 0 < b.h()
    &&& start.0 < b.w()
    &&& start.1 < b.h()
    &&& b.hints_consistent()
    &&& b.visibility_consistent()
    &&& b.num_mines == count_mines(b.cells())
    &&& forall|i: int|
        0 <= i < b.cells().len() && safe_index(b.w(), start, i) ==> !(#[trigger] b.cells()[i]).is_mine
            && b.cells()[i].visibility == Visibility::Revealed
}

/// `b` shows what a new game shows: the safe area around `start` revealed,
/// every other cell hidden.
pub open spec fn opening(b: &Board, start: (usize, usize)) -> bool {
    forall|i: int|
        0 <= i < b.cells().len() ==> (#[trigger] b.cells()[i]).visibility == (if safe_index(b.w(), start, i) {
            Visibility::Revealed
        } else {
            Visibility::Hidden
        })
}

/// The generator's conditions only look at the cells, the sides and the
/// claimed number of mines.
proof fn lemma_gen_ok_same(b0: &Board, b1: &Board, start: (usize, usize))
    requires
        gen_ok(b0, start),
        b1.wf(),
        b1.grid.width == b0.grid.width,
        b1.grid.height == b0.grid.height,
        b1.num_mines == b0.num_mines,
        b1.cells() == b0.cells(),
    ensures
        gen_ok(b1, start),
{
    assert forall|i: int| 0 <= i < b1.cells().len() implies #[trigger] b1.hint_ok(i) by {
        assert(b0.hint_ok(i));
    }
}

/// Side of the square of cells that a perturbation works on.
pub const PATCH_SIZE: usize = 5;

/// Solving keeps the generator's conditions.
pub(crate) proof fn lemma_gen_ok_evolves(b0: &Board, b1: &Board, start: (usize, usize))
    requires
        gen_ok(b0, start),
        evolves(b0, b1),
        b1.hints_consistent(),
        b1.visibility_consistent(),
    ensures
        gen_ok(b1, start),
{
    lemma_count_mines_eq(b0.cells(), b1.cells());
    assert forall|i: int| 0 <= i < b1.cells().len() && safe_index(b1.w(), start, i) implies !(#[trigger] b1.cells()[i]).is_mine
        && b1.cells()[i].visibility == Visibility::Revealed by {
        assert(b0.cells()[i] == b0.cells()[i]);
    }
}

/// Starting over from `start` keeps the generator's conditions.
pub(crate) proof fn lemma_gen_ok_reset(b0: &Board, b1: &Board, start: (usize, usize))
    requires
        gen_ok(b0, start),
        b1.wf(),
        b1.grid.width == b0.grid.width,
        b1.grid.height == b0.grid.height,
        b1.num_mines == b0.num_mines,
        b1.cells().len() == b0.cells().len(),
        forall|i: int|
            0 <= i < b0.cells().len() ==> #[trigger] b1.cells()[i] == with_vis(
                b0.cells()[i],
                if spec_in_safe_area(start, ((i % b0.w()) as usize, (i / b0.w()) as usize)) {
                    Visibility::Revealed
                } else {
                    Visibility::Hidden
                },
            ),
    ensures
        gen_ok(b1, start),
{
    let w = b0.w();
    let h = b0.h();
    lemma_count_mines_eq(b0.cells(), b1.cells());
    assert forall|i: int| 0 <= i < b1.cells().len() implies #[trigger] b1.hint_ok(i) by {
        assert(b0.hint_ok(i));
        lemma_coords_index(w, h, i);
        lemma_adj_same_mines(b0.cells(), b1.cells(), w, h, i % w, i / w);
    }
    assert forall|i: int| 0 <= i < b1.cells().len() implies {
        &&& (#[trigger] b1.cells()[i]).visibility == Visibility::Revealed ==> !b1.cells()[i].is_mine
        &&& b1.cells()[i].visibility == Visibility::Flagged ==> b1.cells()[i].is_mine
    } by {
        assert(b0.cells()[i] == b0.cells()[i]);
    }
}

/// Whether `v` holds `x`.
fn holds(v: &Vec<usize>, x: usize) -> (r: bool)
    ensures
        r == v@.contains(x),
{
    let mut i: usize = 0;
    while i < v.len()
        invariant
            i <= v.len(),
            forall|q: int| 0 <= q < i ==> v@[q] != x,
        decreases v.len() - i,
    {
        if v[i] == x {
            assert(v@[i as int] == x);
            return true;
        }
        i = i + 1;
    }
    false
}

/// `v` without its entries equal to `x`, in order.
fn without(v: &Vec<usize>, x: usize) -> (r: Vec<usize>)
    ensures
        forall|y: usize| #[trigger] r@.contains(y) <==> (v@.contains(y) && y != x),
        v@.no_duplicates() ==> r@.no_duplicates(),
{
    let mut r: Vec<usize> = Vec::new();
    let mut i: usize = 0;
    while i < v.len()
        invariant
            i <= v.len(),
            forall|y: usize| #[trigger] r@.contains(y) <==> (v@.subrange(0, i as int).contains(y) && y != x),
            v@.no_duplicates() ==> r@.no_duplicates(),
        decreases v.len() - i,
    {
        let ghost old_r = r@;
        let e = v[i];
        if e != x {
            r.push(e);
        }
        proof {
            let sub1 = v@.subrange(0, i + 1);
            let sub0 = v@.subrange(0, i as int);
            if e != x {
                assert(r@ == old_r.push(e));
            } else {
                assert(r@ == old_r);
            }
            assert forall|y: usize| #[trigger] r@.contains(y) <==> (sub1.contains(y) && y != x) by {
                if sub1.contains(y) && y != x {
                    let q = choose|q: int| 0 <= q < sub1.len() && sub1[q] == y;
                    if q < i {
                        assert(sub0[q] == y);
                        assert(old_r.contains(y));
                        let q2 = choose|q2: int| 0 <= q2 < old_r.len() && old_r[q2] == y;
                        assert(r@[q2] == y);
                    } else {
                        assert(r@[old_r.len() as int] == y);
                    }
                }
                if r@.contains(y) {
                    let q = choose|q: int| 0 <= q < r@.len() && r@[q] == y;
                    if q < old_r.len() {
                        assert(old_r[q] == y);
                        assert(old_r.contains(y));
                        let q3 = choose|q3: int| 0 <= q3 < sub0.len() && sub0[q3] == y;
                        assert(sub1[q3] == y);
                    } else {
                        assert(sub1[i as int] == y);
                    }
                }
            }
            if v@.no_duplicates() && e != x {
                assert(!old_r.contains(e)) by {
                    if old_r.contains(e) {
                        let q = choose|q: int| 0 <= q < sub0.len() && sub0[q] == e;
                        assert(v@[q] == v@[i as int]);
                    }
                }
            }
        }
        i = i + 1;
    }
    assert(v@.subrange(0, v.len() as int) =~= v@);
    r
}

/// Helper function for `trvialise_constraint()`. Unless `selected` already
/// holds `num_change` cells, shuffles `pool` and moves its first cells onto
/// `selected` until it does or the pool runs out.
fn fill_from(selected: &mut Vec<usize>, pool: Vec<usize>, num_change: usize, rng: &mut Xoshiro128PlusPlus)
    ensures
        final(selected)@.subrange(0, old(selected)@.len() as int) == old(selected)@,
        final(selected)@.len() == (if old(selected)@.len() >= num_change {
            old(selected)@.len() as int
        } else if old(selected)@.len() + pool@.len() <= num_change {
            old(selected)@.len() + pool@.len() as int
        } else {
            num_change as int
        }),
        forall|q: int| old(selected)@.len() <= q < final(selected)@.len() ==> pool@.contains(#[trigger] final(selected)@[q]),
        pool@.no_duplicates() ==> forall|q1: int, q2: int|
            old(selected)@.len() <= q1 < q2 < final(selected)@.len() ==> #[trigger] final(selected)@[q1]
                != #[trigger] final(selected)@[q2],
{
    let ghost s0 = selected@;
    if selected.len() >= num_change {
        assert(selected@.subrange(0, s0.len() as int) =~= s0);
        return;
    }
    let ghost p0 = pool@;
    let mut pool = pool;
    shuffle_indices(rng, &mut pool);
    proof {
        assert(pool@.len() == p0.len()) by {
            vstd::seq_lib::to_multiset_len(pool@);
            vstd::seq_lib::to_multiset_len(p0);
        }
        if p0.no_duplicates() {
            lemma_sub_multiset_no_dup(pool@, p0);
        } else {
            assert forall|x: usize| pool@.contains(x) implies p0.contains(x) by {
                vstd::seq_lib::to_multiset_contains(pool@, x);
                vstd::seq_lib::to_multiset_contains(p0, x);
            }
        }
    }
    let want = num_change - selected.len();
    let mut k: usize = 0;
    while k < pool.len() && k < want
        invariant
            k <= pool@.len(),
            k <= want,
            want == num_change - s0.len(),
            s0.len() < num_change,
            selected@.len() == s0.len() + k,
            selected@.subrange(0, s0.len() as int) == s0,
            forall|q: int| 0 <= q < k ==> #[trigger] selected@[s0.len() + q] == pool@[q],
            forall|x: usize| pool@.contains(x) ==> p0.contains(x),
            p0.no_duplicates() ==> pool@.no_duplicates(),
            p0.len() == pool@.len(),
        decreases pool@.len() - k,
    {
        let ghost sel = selected@;
        selected.push(pool[k]);
        proof {
            assert(selected@.subrange(0, s0.len() as int) =~= sel.subrange(0, s0.len() as int));
            assert forall|q: int| 0 <= q < k + 1 implies #[trigger] selected@[s0.len() + q] == pool@[q] by {
                if q < k {
                    assert(selected@[s0.len() + q] == sel[s0.len() + q]);
                }
            }
        }
        k = k + 1;
    }
    proof {
        assert forall|q: int| s0.len() <= q < selected@.len() implies p0.contains(#[trigger] selected@[q]) by {
            assert(selected@[s0.len() + (q - s0.len())] == pool@[q - s0.len()]);
            assert(pool@.contains(pool@[q - s0.len()]));
        }
        if p0.no_duplicates() {
            assert forall|q1: int, q2: int| s0.len() <= q1 < q2 < selected@.len() implies #[trigger] selected@[q1]
                != #[trigger] selected@[q2] by {
                assert(selected@[s0.len() + (q1 - s0.len())] == pool@[q1 - s0.len()]);
                assert(selected@[s0.len() + (q2 - s0.len())] == pool@[q2 - s0.len()]);
            }
        }
    }
}

/// The indices of the uncovered neighbours of the cell at `i`.
pub open spec fn revealed_around(b: &Board, i: int) -> Set<int> {
    Set::new(
        |j: int| 0 <= j < b.cells().len() && is_adjacent(b.w(), b.h(), i, j) && b.cells()[j].visibility == Visibility::Revealed,
    )
}

/// Strictly increasing.
pub open spec fn increasing(s: Seq<usize>) -> bool {
    forall|a: int, b: int| 0 <= a < b < s.len() ==> s[a] < s[b]
}

/// Strictly increasing sequences with the same elements are the same.
proof fn lemma_increasing_eq(a: Seq<usize>, b: Seq<usize>)
    requires
        increasing(a),
        increasing(b),
        forall|x: usize| a.contains(x) == b.contains(x),
    ensures
        a == b,
    decreases a.len(),
{
    if a.len() == 0 {
        if b.len() > 0 {
            assert(b.contains(b[0]));
        }
        assert(a =~= b);
    } else {
        assert(a.contains(a[0]));
        assert(b.contains(a[0]));
        assert(b.contains(b[0]));
        assert(a.contains(b[0]));
        let j = choose|j: int| 0 <= j < b.len() && b[j] == a[0];
        let i = choose|i: int| 0 <= i < a.len() && a[i] == b[0];
        assert(a[0] == b[0]) by {
            if j > 0 {
                assert(b[0] < b[j]);
            }
            if i > 0 {
                assert(a[0] < a[i]);
            }
        }
        let a1 = a.drop_first();
        let b1 = b.drop_first();
        assert forall|x: usize| a1.contains(x) == b1.contains(x) by {
            if a1.contains(x) {
                let q = choose|q: int| 0 <= q < a1.len() && a1[q] == x;
                assert(a[q + 1] == x);
                assert(a.contains(x));
                assert(b.contains(x));
                let q2 = choose|q2: int| 0 <= q2 < b.len() && b[q2] == x;
                assert(q2 != 0) by {
                    assert(a[0] < a[q + 1]);
                }
                assert(b1[q2 - 1] == x);
            }
            if b1.contains(x) {
                let q = choose|q: int| 0 <= q < b1.len() && b1[q] == x;
                assert(b[q + 1] == x);
                assert(b.contains(x));
                assert(a.contains(x));
                let q2 = choose|q2: int| 0 <= q2 < a.len() && a[q2] == x;
                assert(q2 != 0) by {
                    assert(b[0] < b[q + 1]);
                }
                assert(a1[q2 - 1] == x);
            }
        }
        lemma_increasing_eq(a1, b1);
        assert(a =~= b) by {
            assert forall|k: int| 0 <= k < a.len() implies a[k] == b[k] by {
                if k > 0 {
                    assert(a[k] == a1[k - 1] && b[k] == b1[k - 1]);
                }
            }
        }
    }
}

/// Sorts indices in increasing order.
fn sort_indices(v: Vec<usize>) -> (r: Vec<usize>)
    ensures
        r@.to_multiset() == v@.to_multiset(),
        forall|a: int, b: int| 0 <= a < b < r@.len() ==> r@[a] <= r@[b],
{
    let mut r: Vec<usize> = Vec::new();
    let mut k: usize = 0;
    proof {
        assert(v@.subrange(0, 0) =~= r@);
    }
    while k < v.len()
        invariant
            k <= v.len(),
            r@.to_multiset() == v@.subrange(0, k as int).to_multiset(),
            forall|a: int, b: int| 0 <= a < b < r@.len() ==> r@[a] <= r@[b],
        decreases v.len() - k,
    {
        let c = v[k];
        let mut p: usize = 0;
        while p < r.len() && r[p] <= c
            invariant
                p <= r.len(),
                forall|q: int| 0 <= q < p ==> r@[q] <= c,
            decreases r.len() - p,
        {
            p = p + 1;
        }
        let ghost old_r = r@;
        r.insert(p, c);
        proof {
            vstd::seq_lib::to_multiset_insert(old_r, p as int, c);
            assert(v@.subrange(0, k + 1) =~= v@.subrange(0, k as int).push(c));
            vstd::seq_lib::to_multiset_build(v@.subrange(0, k as int), c);
            assert forall|a: int, b: int| 0 <= a < b < r@.len() implies r@[a] <= r@[b] by {
                if b < p {
                    assert(r@[a] == old_r[a] && r@[b] == old_r[b]);
                } else if b == p {
                    assert(r@[a] == old_r[a]);
                } else if a == p {
                    assert(r@[b] == old_r[b - 1]);
                    assert(old_r[p as int] > c);
                    if b - 1 > p {
                        assert(old_r[p as int] <= old_r[b - 1]);
                    }
                } else if a < p {
                    assert(r@[a] == old_r[a] && r@[b] == old_r[b - 1]);
                } else {
                    assert(r@[a] == old_r[a - 1] && r@[b] == old_r[b - 1]);
                }
            }
        }
        k = k + 1;
    }
    assert(v@.subrange(0, v@.len() as int) =~= v@);
    r
}

/// Whether the two lists of indices are the same.
fn same_indices(a: &Vec<usize>, b: &Vec<usize>) -> (r: bool)
    ensures
        r == (a@ == b@),
{
    if a.len() != b.len() {
        return false;
    }
    let mut i: usize = 0;
    while i < a.len()
        invariant
            a@.len() == b@.len(),
            i <= a@.len(),
            forall|q: int| 0 <= q < i ==> a@[q] == b@[q],
        decreases a@.len() - i,
    {
        if a[i] != b[i] {
            return false;
        }
        i = i + 1;
    }
    assert(a@ =~= b@);
    true
}

/// Generates boards that can be solved without guessing, with the solver of
/// this crate.
pub struct Solver {
    board: Board,
    num_mines: usize,
    options: SolverOptions,
}

impl Solver {
    /// The board being generated.
    pub closed spec fn board_view(&self) -> Board {
        self.board
    }

    /// The number of mines the board holds.
    pub closed spec fn mine_count(&self) -> usize {
        self.num_mines
    }

    /// The options of generation.
    pub closed spec fn options_view(&self) -> SolverOptions {
        self.options
    }

    /// Shifts the hints around the cell `c` by one: up for a mine placed
    /// there, down for one taken away.
    fn shift_hints(&mut self, c: usize, raise: bool, Ghost(l): Ghost<Seq<Cell>>)
        requires
            old(self).board.wf(),
            0 < old(self).board.w(),
            c < old(self).board.cells().len(),
            l.len() == old(self).board.cells().len(),
            hints_match(&old(self).board, l),
            l[c as int].is_mine != raise,
        ensures
            final(self).board.wf(),
            final(self).board.grid.width == old(self).board.grid.width,
            final(self).board.grid.height == old(self).board.grid.height,
            final(self).board.num_mines == old(self).board.num_mines,
            final(self).num_mines == old(self).num_mines,
            final(self).options == old(self).options,
            final(self).board.cells().len() == old(self).board.cells().len(),
            forall|i: int|
                0 <= i < old(self).board.cells().len() ==> (#[trigger] final(self).board.cells()[i]).is_mine == old(
                    self,
                ).board.cells()[i].is_mine && final(self).board.cells()[i].visibility == old(self).board.cells()[i].visibility,
            hints_match(&final(self).board, l.update(c as int, Cell { is_mine: raise, ..l[c as int] })),
    {
        let ghost w = self.board.w();
        let ghost h = self.board.h();
        let ghost s0 = self.board.cells();
        let ghost l1 = l.update(c as int, Cell { is_mine: raise, ..l[c as int] });
        proof {
            lemma_coords_index(w, h, c as int);
        }
        let adj = self.board.grid.get_adjacent_indices(c);
        let ghost cx = c as int % w;
        let ghost cy = c as int / w;
        let mut p: usize = 0;
        while p < 8
            invariant
                self.board.wf(),
                w == self.board.w(),
                h == self.board.h(),
                0 < w,
                c < s0.len(),
                s0.len() == w * h,
                l.len() == s0.len(),
                l[c as int].is_mine != raise,
                l1 == l.update(c as int, Cell { is_mine: raise, ..l[c as int] }),
                cx == c as int % w,
                cy == c as int / w,
                self.board.cells().len() == s0.len(),
                self.board.grid.width == old(self).board.grid.width,
                self.board.grid.height == old(self).board.grid.height,
                self.board.num_mines == old(self).board.num_mines,
                self.num_mines == old(self).num_mines,
                self.options == old(self).options,
                s0 == old(self).board.cells(),
                adj.len() == 8,
                forall|q: int| 0 <= q < 8 ==> #[trigger] adj@[q] == nbr(w, h, cx, cy, if q < 4 { q } else { q + 1 }),
                p <= 8,
                forall|i: int|
                    0 <= i < s0.len() ==> (#[trigger] self.board.cells()[i]).is_mine == s0[i].is_mine
                        && self.board.cells()[i].visibility == s0[i].visibility,
                forall|i: int|
                    0 <= i < s0.len() ==> #[trigger] self.board.cells()[i].adjacent_mines == adj_mine_count(l, w, h, i % w, i / w)
                        + (if touched(adj@, p as int, i) {
                        if raise {
                            1int
                        } else {
                            -1
                        }
                    } else {
                        0
                    }),
            decreases 8 - p,
        {
            let ghost kk: int = if p < 4 { p as int } else { p + 1 };
            if let Some(ni) = adj[p] {
                proof {
                    lemma_index_coords(w, h, cx + kk % 3 - 1, cy + kk / 3 - 1);
                    assert(!touched(adj@, p as int, ni as int)) by {
                        if touched(adj@, p as int, ni as int) {
                            let q = choose|q: int| 0 <= q < p && adj@[q] == Some(ni);
                            let kq: int = if q < 4 { q } else { q + 1 };
                            lemma_nbr_distinct(w, h, cx, cy, kq, kk);
                        }
                    }
                    lemma_coords_index(w, h, ni as int);
                    assert(0 <= adj_mine_count(l, w, h, ni as int % w, ni as int / w) <= 8) by {
                        lemma_slot_sum_bounds(|k: int| mine_at(l, nbr(w, h, ni as int % w, ni as int / w, k)));
                    }
                    if !raise {
                        assert(is_adjacent(w, h, c as int, ni as int)) by {
                            assert(is_nbr_slot(kk));
                            assert(nbr(w, h, c as int % w, c as int / w, kk) == Some(ni));
                        }
                        lemma_adj_toggle(l1, l, w, h, c as int, ni as int);
                        lemma_slot_sum_bounds(|k: int| mine_at(l1, nbr(w, h, ni as int % w, ni as int / w, k)));
                    }
                }
                let cell = *self.board.grid.get(ni);
                let v = if raise {
                    cell.adjacent_mines + 1
                } else {
                    cell.adjacent_mines - 1
                };
                let ghost before = self.board.cells();
                self.board.grid.set(ni, Cell { adjacent_mines: v, ..cell });
                proof {
                    assert forall|i: int| 0 <= i < s0.len() implies #[trigger] self.board.cells()[i].adjacent_mines == adj_mine_count(
                        l,
                        w,
                        h,
                        i % w,
                        i / w,
                    ) + (if touched(adj@, p + 1, i) {
                        if raise {
                            1int
                        } else {
                            -1
                        }
                    } else {
                        0
                    }) by {
                        if i != ni {
                            assert(self.board.cells()[i] == before[i]);
                            if touched(adj@, p + 1, i) {
                                let q = choose|q: int| 0 <= q < p + 1 && adj@[q] == Some(i as usize);
                                assert(q != p);
                            }
                        } else {
                            assert(adj@[p as int] == Some(i as usize));
                        }
                    }
                }
            } else {
                proof {
                    assert forall|i: int| 0 <= i < s0.len() implies touched(adj@, p + 1, i) == touched(adj@, p as int, i) by {
                        if touched(adj@, p + 1, i) {
                            let q = choose|q: int| 0 <= q < p + 1 && adj@[q] == Some(i as usize);
                            assert(q != p);
                        }
                    }
                }
            }
            p = p + 1;
        }
        proof {
            assert forall|i: int| 0 <= i < s0.len() implies #[trigger] self.board.cells()[i].adjacent_mines == adj_mine_count(
                l1,
                w,
                h,
                i % w,
                i / w,
            ) by {
                assert(touched(adj@, 8, i) == is_adjacent(w, h, c as int, i)) by {
                    if is_adjacent(w, h, c as int, i) {
                        let k = choose|k: int| is_nbr_slot(k) && nbr(w, h, c as int % w, c as int / w, k) == Some(i as usize);
                        let q: int = if k < 4 { k } else { k - 1 };
                        assert(adj@[q] == Some(i as usize));
                    }
                    if touched(adj@, 8, i) {
                        let q = choose|q: int| 0 <= q < 8 && adj@[q] == Some(i as usize);
                        let k: int = if q < 4 { q } else { q + 1 };
                        assert(is_nbr_slot(k));
                    }
                }
                if raise {
                    lemma_adj_toggle(l, l1, w, h, c as int, i);
                } else {
                    lemma_adj_toggle(l1, l, w, h, c as int, i);
                }
            }
        }
    }
}


impl Solver {
    /// Helper function for `perturb()`. Updates the hints around the cells
    /// whose mines moved: each cell of `was_mine` lost its mine and each cell
    /// of `was_open` gained one.
    fn update_grid(&mut self, was_mine: &Vec<usize>, was_open: &Vec<usize>)
        requires
            old(self).board.wf(),
            0 < old(self).board.w(),
            was_mine@.no_duplicates(),
            was_open@.no_duplicates(),
            forall|k: int|
                0 <= k < was_mine@.len() ==> (#[trigger] was_mine@[k]) < old(self).board.cells().len() && !old(
                    self,
                ).board.cells()[was_mine@[k] as int].is_mine && !was_open@.contains(was_mine@[k]),
            forall|k: int|
                0 <= k < was_open@.len() ==> (#[trigger] was_open@[k]) < old(self).board.cells().len() && old(
                    self,
                ).board.cells()[was_open@[k] as int].is_mine,
            hints_match(&old(self).board, mines_before(old(self).board.cells(), was_mine@, was_open@)),
        ensures
            final(self).board.wf(),
            final(self).board.grid.width == old(self).board.grid.width,
            final(self).board.grid.height == old(self).board.grid.height,
            final(self).board.num_mines == old(self).board.num_mines,
            final(self).num_mines == old(self).num_mines,
            final(self).options == old(self).options,
            final(self).board.cells().len() == old(self).board.cells().len(),
            forall|i: int|
                0 <= i < old(self).board.cells().len() ==> (#[trigger] final(self).board.cells()[i]).is_mine == old(
                    self,
                ).board.cells()[i].is_mine && final(self).board.cells()[i].visibility == old(self).board.cells()[i].visibility,
            final(self).board.hints_consistent(),
    {
        let ghost s0 = self.board.cells();
        let ghost w = self.board.w();
        let ghost h = self.board.h();
        let ghost nm = was_mine@.len() as int;
        let ghost no = was_open@.len() as int;
        proof {
            assert(was_mine@.subrange(0, nm) =~= was_mine@);
            assert(mines_before(s0, was_mine@, was_open@) =~= with_mines(
                s0,
                |i: int|
                    if was_mine@.subrange(0, nm).contains(i as usize) {
                        true
                    } else if was_open@.contains(i as usize) {
                        false
                    } else {
                        s0[i].is_mine
                    },
            ));
        }
        let mut k: usize = 0;
        while k < was_mine.len()
            invariant
                self.board.wf(),
                w == self.board.w(),
                h == self.board.h(),
                0 < w,
                k <= nm,
                nm == was_mine@.len(),
                s0.len() == self.board.cells().len(),
                self.board.grid.width == old(self).board.grid.width,
                self.board.grid.height == old(self).board.grid.height,
                self.board.num_mines == old(self).board.num_mines,
                self.num_mines == old(self).num_mines,
                self.options == old(self).options,
                s0 == old(self).board.cells(),
                was_mine@.no_duplicates(),
                forall|q: int|
                    0 <= q < was_mine@.len() ==> (#[trigger] was_mine@[q]) < s0.len() && !s0[was_mine@[q] as int].is_mine
                        && !was_open@.contains(was_mine@[q]),
                forall|i: int|
                    0 <= i < s0.len() ==> (#[trigger] self.board.cells()[i]).is_mine == s0[i].is_mine
                        && self.board.cells()[i].visibility == s0[i].visibility,
                hints_match(
                    &self.board,
                    with_mines(
                        s0,
                        |i: int|
                            if was_mine@.subrange(k as int, nm).contains(i as usize) {
                                true
                            } else if was_open@.contains(i as usize) {
                                false
                            } else {
                                s0[i].is_mine
                            },
                    ),
                ),
            decreases nm - k,
        {
            let c = was_mine[k];
            let ghost l = with_mines(
                s0,
                |i: int|
                    if was_mine@.subrange(k as int, nm).contains(i as usize) {
                        true
                    } else if was_open@.contains(i as usize) {
                        false
                    } else {
                        s0[i].is_mine
                    },
            );
            let ghost l2 = with_mines(
                s0,
                |i: int|
                    if was_mine@.subrange(k + 1, nm).contains(i as usize) {
                        true
                    } else if was_open@.contains(i as usize) {
                        false
                    } else {
                        s0[i].is_mine
                    },
            );
            proof {
                assert(was_mine@.subrange(k as int, nm)[0] == c);
            }
            let ghost before = *self;
            self.shift_hints(c, false, Ghost(l));
            proof {
                let lu = l.update(c as int, Cell { is_mine: false, ..l[c as int] });
                assert(lu =~= l2) by {
                    assert forall|i: int| 0 <= i < s0.len() implies #[trigger] lu[i] == l2[i] by {
                        let a = was_mine@.subrange(k as int, nm);
                        let b = was_mine@.subrange(k + 1, nm);
                        if b.contains(i as usize) {
                            let q = choose|q: int| 0 <= q < b.len() && b[q] == i as usize;
                            assert(a[q + 1] == i as usize);
                            if i == c {
                                assert(was_mine@[k + 1 + q] == was_mine@[k as int]);
                            }
                        }
                        if a.contains(i as usize) && i != c {
                            let q = choose|q: int| 0 <= q < a.len() && a[q] == i as usize;
                            assert(q != 0);
                            assert(b[q - 1] == i as usize);
                        }
                    }
                }
                assert forall|i: int| 0 <= i < s0.len() implies (#[trigger] self.board.cells()[i]).is_mine == s0[i].is_mine
                    && self.board.cells()[i].visibility == s0[i].visibility by {
                    assert(before.board.cells()[i] == before.board.cells()[i]);
                }
            }
            k = k + 1;
        }
        proof {
            assert(was_open@.subrange(0, no) =~= was_open@);
            assert(with_mines(
                s0,
                |i: int|
                    if was_mine@.subrange(nm, nm).contains(i as usize) {
                        true
                    } else if was_open@.contains(i as usize) {
                        false
                    } else {
                        s0[i].is_mine
                    },
            ) =~= with_mines(
                s0,
                |i: int|
                    if was_open@.subrange(0, no).contains(i as usize) {
                        false
                    } else {
                        s0[i].is_mine
                    },
            ));
        }
        let mut k: usize = 0;
        while k < was_open.len()
            invariant
                self.board.wf(),
                w == self.board.w(),
                h == self.board.h(),
                0 < w,
                k <= no,
                no == was_open@.len(),
                s0.len() == self.board.cells().len(),
                self.board.grid.width == old(self).board.grid.width,
                self.board.grid.height == old(self).board.grid.height,
                self.board.num_mines == old(self).board.num_mines,
                self.num_mines == old(self).num_mines,
                self.options == old(self).options,
                s0 == old(self).board.cells(),
                was_open@.no_duplicates(),
                forall|q: int| 0 <= q < was_open@.len() ==> (#[trigger] was_open@[q]) < s0.len() && s0[was_open@[q] as int].is_mine,
                forall|i: int|
                    0 <= i < s0.len() ==> (#[trigger] self.board.cells()[i]).is_mine == s0[i].is_mine
                        && self.board.cells()[i].visibility == s0[i].visibility,
                hints_match(
                    &self.board,
                    with_mines(
                        s0,
                        |i: int|
                            if was_open@.subrange(k as int, no).contains(i as usize) {
                                false
                            } else {
                                s0[i].is_mine
                            },
                    ),
                ),
            decreases no - k,
        {
            let c = was_open[k];
            let ghost l = with_mines(
                s0,
                |i: int|
                    if was_open@.subrange(k as int, no).contains(i as usize) {
                        false
                    } else {
                        s0[i].is_mine
                    },
            );
            let ghost l2 = with_mines(
                s0,
                |i: int|
                    if was_open@.subrange(k + 1, no).contains(i as usize) {
                        false
                    } else {
                        s0[i].is_mine
                    },
            );
            proof {
                assert(was_open@.subrange(k as int, no)[0] == c);
            }
            let ghost before = *self;
            self.shift_hints(c, true, Ghost(l));
            proof {
                let lu = l.update(c as int, Cell { is_mine: true, ..l[c as int] });
                assert(lu =~= l2) by {
                    assert forall|i: int| 0 <= i < s0.len() implies #[trigger] lu[i] == l2[i] by {
                        let a = was_open@.subrange(k as int, no);
                        let b = was_open@.subrange(k + 1, no);
                        if b.contains(i as usize) {
                            let q = choose|q: int| 0 <= q < b.len() && b[q] == i as usize;
                            assert(a[q + 1] == i as usize);
                            if i == c {
                                assert(was_open@[k + 1 + q] == was_open@[k as int]);
                            }
                        }
                        if a.contains(i as usize) && i != c {
                            let q = choose|q: int| 0 <= q < a.len() && a[q] == i as usize;
                            assert(q != 0);
                            assert(b[q - 1] == i as usize);
                        }
                    }
                }
                assert forall|i: int| 0 <= i < s0.len() implies (#[trigger] self.board.cells()[i]).is_mine == s0[i].is_mine
                    && self.board.cells()[i].visibility == s0[i].visibility by {
                    assert(before.board.cells()[i] == before.board.cells()[i]);
                }
            }
            k = k + 1;
        }
        proof {
            let l = with_mines(
                s0,
                |i: int|
                    if was_open@.subrange(no, no).contains(i as usize) {
                        false
                    } else {
                        s0[i].is_mine
                    },
            );
            assert forall|i: int| 0 <= i < self.board.cells().len() implies #[trigger] self.board.hint_ok(i) by {
                lemma_coords_index(w, h, i);
                assert forall|j: int| 0 <= j < l.len() implies (#[trigger] l[j]).is_mine == self.board.cells()[j].is_mine by {
                    assert(self.board.cells()[j].is_mine == s0[j].is_mine);
                }
                lemma_adj_same_mines(l, self.board.cells(), w, h, i % w, i / w);
            }
        }
    }
}


impl Solver {
    /// Helper function for `perturb()`. Shuffles the mines of the hidden (or
    /// hidden and flagged) cells of the `patch_size` square at `patch`,
    /// outside the safe area, among those same cells at random: as many
    /// distinct cells of them as they held mines, drawn at random, become
    /// the mines, the others safe; all of those cells are left hidden, and
    /// the board keeps its number of mines.
    fn shuffle_patch(
        &mut self,
        start: (usize, usize),
        patch: (usize, usize),
        rng: &mut Xoshiro128PlusPlus,
        shuffle_flagged: bool,
        patch_size: usize,
    )
        requires
            gen_ok(&old(self).board, start),
            patch.0 < old(self).board.w(),
            patch.1 < old(self).board.h(),
            patch_size <= isize::MAX,
        ensures
            gen_ok(&final(self).board, start),
            final(self).board.grid.width == old(self).board.grid.width,
            final(self).board.grid.height == old(self).board.grid.height,
            final(self).board.num_mines == old(self).board.num_mines,
            final(self).num_mines == old(self).num_mines,
            final(self).options == old(self).options,
            forall|e: int|
                0 <= e < old(self).board.cells().len() ==> ((#[trigger] final(self).board.cells()[e]).is_mine == old(
                    self,
                ).board.cells()[e].is_mine && final(self).board.cells()[e].visibility == old(self).board.cells()[e].visibility)
                    || (in_patch(&old(self).board, start, patch, patch_size, shuffle_flagged, e)
                    && final(self).board.cells()[e].visibility == Visibility::Hidden),
            forall|e: int|
                #[trigger] in_patch(&old(self).board, start, patch, patch_size, shuffle_flagged, e)
                    ==> final(self).board.cells()[e].visibility == Visibility::Hidden,
            exists|sampled: Seq<usize>|
                #[trigger] shuffled_to(&old(self).board, &final(self).board, start, patch, patch_size, shuffle_flagged, sampled),
    {
        let ghost s0 = self.board.cells();
        let ghost w = self.board.w();
        let ghost h = self.board.h();
        let mut mines_count: usize = 0;
        let mut was_mine: Vec<usize> = Vec::new();
        let mut was_open: Vec<usize> = Vec::new();
        let mut pool: Vec<usize> = Vec::new();
        let width = self.board.width();
        let height = self.board.height();
        let mut dy: usize = 0;
        while dy < patch_size
            invariant
                gen_ok(&old(self).board, start),
                s0 == old(self).board.cells(),
                w == self.board.w(),
                h == self.board.h(),
                width == w,
                height == h,
                self.board.wf(),
                self.board.grid.width == old(self).board.grid.width,
                self.board.grid.height == old(self).board.grid.height,
                self.board.num_mines == old(self).board.num_mines,
                self.num_mines == old(self).num_mines,
                self.options == old(self).options,
                patch.0 < w,
                patch.1 < h,
                patch_size <= isize::MAX,
                dy <= patch_size,
                self.board.cells().len() == s0.len(),
                forall|q1: int, q2: int| 0 <= q1 < q2 < pool@.len() ==> pool@[q1] < pool@[q2],
                forall|q: int| 0 <= q < pool@.len() ==> (#[trigger] pool@[q]) < (patch.1 + dy) * w,
                forall|q: int|
                    0 <= q < pool@.len() ==> (#[trigger] pool@[q]) < s0.len() && !safe_index(w, start, pool@[q] as int),
                forall|q: int|
                    0 <= q < pool@.len() ==> in_patch(&old(self).board, start, patch, patch_size, shuffle_flagged, #[trigger] pool@[q] as int),
                forall|i: int|
                    0 <= i < s0.len() ==> if pool@.contains(i as usize) {
                        !(#[trigger] self.board.cells()[i]).is_mine && self.board.cells()[i].visibility == Visibility::Hidden
                            && self.board.cells()[i].adjacent_mines == s0[i].adjacent_mines && (s0[i].visibility
                            == Visibility::Hidden || s0[i].visibility == Visibility::Flagged)
                    } else {
                        self.board.cells()[i] == s0[i]
                    },
                forall|y: usize| #[trigger] was_mine@.contains(y) <==> (pool@.contains(y) && s0[y as int].is_mine),
                was_mine@.no_duplicates(),
                mines_count == was_mine@.len(),
                count_mines(self.board.cells()) + mines_count == count_mines(s0),
                forall|e: int| #[trigger] in_patch(&old(self).board, start, patch, patch_size, shuffle_flagged, e) && e / w < patch.1 + dy ==> pool@.contains(e as usize),
            decreases patch_size - dy,
        {
            let mut dx: usize = 0;
            proof {
                assert((patch.1 + dy) * w + 0 == (patch.1 + dy) * w);
            }
            while dx < patch_size
                invariant
                    gen_ok(&old(self).board, start),
                    s0 == old(self).board.cells(),
                    w == self.board.w(),
                    h == self.board.h(),
                    width == w,
                    height == h,
                    self.board.wf(),
                    self.board.grid.width == old(self).board.grid.width,
                    self.board.grid.height == old(self).board.grid.height,
                    self.board.num_mines == old(self).board.num_mines,
                    self.num_mines == old(self).num_mines,
                    self.options == old(self).options,
                    patch.0 < w,
                    patch.1 < h,
                    patch_size <= isize::MAX,
                    dy < patch_size,
                    dx <= patch_size,
                    self.board.cells().len() == s0.len(),
                    forall|q1: int, q2: int| 0 <= q1 < q2 < pool@.len() ==> pool@[q1] < pool@[q2],
                    forall|q: int|
                        0 <= q < pool@.len() ==> (#[trigger] pool@[q]) < (patch.1 + dy) * w + patch.0 + dx && pool@[q] < (
                        patch.1 + dy) * w + w,
                    forall|q: int|
                        0 <= q < pool@.len() ==> (#[trigger] pool@[q]) < s0.len() && !safe_index(w, start, pool@[q] as int),
                    forall|q: int|
                        0 <= q < pool@.len() ==> in_patch(&old(self).board, start, patch, patch_size, shuffle_flagged, #[trigger] pool@[q] as int),
                    forall|i: int|
                        0 <= i < s0.len() ==> if pool@.contains(i as usize) {
                            !(#[trigger] self.board.cells()[i]).is_mine && self.board.cells()[i].visibility == Visibility::Hidden
                                && self.board.cells()[i].adjacent_mines == s0[i].adjacent_mines && (s0[i].visibility
                                == Visibility::Hidden || s0[i].visibility == Visibility::Flagged)
                        } else {
                            self.board.cells()[i] == s0[i]
                        },
                    forall|y: usize| #[trigger] was_mine@.contains(y) <==> (pool@.contains(y) && s0[y as int].is_mine),
                    was_mine@.no_duplicates(),
                    mines_count == was_mine@.len(),
                    count_mines(self.board.cells()) + mines_count == count_mines(s0),
                    forall|e: int|
                        #[trigger] in_patch(&old(self).board, start, patch, patch_size, shuffle_flagged, e) && (e / w < patch.1 + dy || (e / w == patch.1 + dy && e % w < patch.0
                            + dx)) ==> pool@.contains(e as usize),
                decreases patch_size - dx,
            {
                let x = patch.0 + dx;
                let y = patch.1 + dy;
                if x < width && y < height && !in_safe_area(start, (x, y)) {
                    proof {
                        lemma_index_coords(w, h, x as int, y as int);
                    }
                    let index = self.board.grid.to_index(x, y);
                    let ghost ii = index as int;
                    proof {
                        assert(!safe_index(w, start, ii));
                    }
                    let cell = *self.board.grid.get(index);
                    if cell.visibility == Visibility::Hidden || (shuffle_flagged && cell.visibility == Visibility::Flagged) {
                        let ghost p0 = pool@;
                        let ghost wm0 = was_mine@;
                        let ghost cells_before = self.board.cells();
                        proof {
                            assert(!p0.contains(index)) by {
                                if p0.contains(index) {
                                    let q = choose|q: int| 0 <= q < p0.len() && p0[q] == index;
                                }
                            }
                            assert(cells_before[ii] == s0[ii]);
                        }
                        pool.push(index);
                        if cell.is_mine {
                            was_mine.push(index);
                            self.board.grid.set(index, Cell { is_mine: false, adjacent_mines: cell.adjacent_mines, visibility: Visibility::Hidden });
                            proof {
                                lemma_count_mines_update(cells_before, ii, Cell { is_mine: false, adjacent_mines: cell.adjacent_mines, visibility: Visibility::Hidden });
                                assert(mines_count + 1 <= old(self).board.num_mines);
                            }
                            mines_count = mines_count + 1;
                            proof {
                                assert(!wm0.contains(index)) by {
                                    if wm0.contains(index) {
                                        assert(p0.contains(index));
                                    }
                                }
                            }
                        } else {
                            proof {
                                assert(s0[ii].visibility != Visibility::Flagged);
                            }
                        }
                        proof {
                            assert(in_patch(&old(self).board, start, patch, patch_size, shuffle_flagged, ii));
                            assert forall|q: int| 0 <= q < pool@.len() implies in_patch(&old(self).board, start, patch, patch_size, shuffle_flagged, #[trigger] pool@[q] as int) by {
                                if q < p0.len() {
                                    assert(pool@[q] == p0[q]);
                                }
                            }
                            assert forall|q1: int, q2: int| 0 <= q1 < q2 < pool@.len() implies pool@[q1] < pool@[q2] by {
                                if q2 == p0.len() {
                                    assert(pool@[q1] == p0[q1]);
                                } else {
                                    assert(pool@[q1] == p0[q1] && pool@[q2] == p0[q2]);
                                }
                            }
                            assert forall|yy: usize| #[trigger] pool@.contains(yy) <==> (p0.contains(yy) || yy == index) by {
                                if pool@.contains(yy) {
                                    let q = choose|q: int| 0 <= q < pool@.len() && pool@[q] == yy;
                                    if q < p0.len() {
                                        assert(p0[q] == yy);
                                    }
                                }
                                if p0.contains(yy) {
                                    let q = choose|q: int| 0 <= q < p0.len() && p0[q] == yy;
                                    assert(pool@[q] == yy);
                                }
                                if yy == index {
                                    assert(pool@[p0.len() as int] == yy);
                                }
                            }
                            assert forall|yy: usize| #[trigger] was_mine@.contains(yy) <==> (pool@.contains(yy) && s0[yy as int].is_mine) by {
                                if was_mine@.contains(yy) {
                                    let q = choose|q: int| 0 <= q < was_mine@.len() && was_mine@[q] == yy;
                                    if q < wm0.len() {
                                        assert(wm0[q] == yy);
                                    }
                                }
                                if wm0.contains(yy) {
                                    let q = choose|q: int| 0 <= q < wm0.len() && wm0[q] == yy;
                                    assert(was_mine@[q] == yy);
                                }
                                if yy == index && cell.is_mine {
                                    assert(was_mine@[wm0.len() as int] == yy);
                                }
                            }
                            assert forall|i: int| 0 <= i < s0.len() implies if pool@.contains(i as usize) {
                                !(#[trigger] self.board.cells()[i]).is_mine && self.board.cells()[i].visibility == Visibility::Hidden
                                    && self.board.cells()[i].adjacent_mines == s0[i].adjacent_mines && (s0[i].visibility
                                    == Visibility::Hidden || s0[i].visibility == Visibility::Flagged)
                            } else {
                                self.board.cells()[i] == s0[i]
                            } by {
                                if i != ii {
                                    assert(self.board.cells()[i] == cells_before[i]);
                                    if pool@.contains(i as usize) {
                                        assert(p0.contains(i as usize));
                                    }
                                }
                            }
                            assert forall|e: int|
                                #[trigger] in_patch(&old(self).board, start, patch, patch_size, shuffle_flagged, e) && (e / w < patch.1 + dy || (e / w == patch.1 + dy && e % w
                                    < patch.0 + dx + 1)) implies pool@.contains(e as usize) by {
                                if e / w == patch.1 + dy && e % w == patch.0 + dx {
                                    lemma_coords_index(w, h, e);
                                    assert(e == ii);
                                } else {
                                    assert(p0.contains(e as usize));
                                }
                            }
                        }
                    } else {
                        proof {
                            assert forall|e: int|
                                #[trigger] in_patch(&old(self).board, start, patch, patch_size, shuffle_flagged, e) && (e / w < patch.1 + dy || (e / w == patch.1 + dy && e % w
                                    < patch.0 + dx + 1)) implies pool@.contains(e as usize) by {
                                if e / w == patch.1 + dy && e % w == patch.0 + dx {
                                    lemma_coords_index(w, h, e);
                                    assert(e == ii);
                                    assert(!pool@.contains(index)) by {
                                        if pool@.contains(index) {
                                            let q = choose|q: int| 0 <= q < pool@.len() && pool@[q] == index;
                                        }
                                    }
                                    assert(self.board.cells()[ii] == s0[ii]);
                                }
                            }
                        }
                    }
                } else {
                    proof {
                        assert forall|e: int|
                            #[trigger] in_patch(&old(self).board, start, patch, patch_size, shuffle_flagged, e) && (e / w < patch.1 + dy || (e / w == patch.1 + dy && e % w
                                < patch.0 + dx + 1)) implies pool@.contains(e as usize) by {
                            if e / w == patch.1 + dy && e % w == patch.0 + dx {
                                lemma_coords_index(w, h, e);
                                if x < width && y < height {
                                    lemma_index_coords(w, h, x as int, y as int);
                                    assert(index_of(w, x as int, y as int) == e);
                                    assert(safe_index(w, start, e));
                                }
                            }
                        }
                    }
                }
                proof {
                    assert((patch.1 + dy) * w + patch.0 + dx + 1 == (patch.1 + dy) * w + patch.0 + (dx + 1));
                }
                dx = dx + 1;
            }
            proof {
                assert((patch.1 + dy + 1) * w == (patch.1 + dy) * w + w) by (nonlinear_arith);
            }
            dy = dy + 1;
        }
        proof {
            assert forall|e: int| #[trigger] in_patch(&old(self).board, start, patch, patch_size, shuffle_flagged, e) implies pool@.contains(
                e as usize,
            ) by {}
        }
        if pool.len() == 0 {
            proof {
                assert forall|i: int| 0 <= i < s0.len() implies #[trigger] self.board.cells()[i] == s0[i] by {
                    assert(!pool@.contains(i as usize));
                }
                assert(self.board.cells() =~= s0);
                lemma_gen_ok_same(&old(self).board, &self.board, start);
                let pm = patch_mines(&old(self).board, start, patch, patch_size, shuffle_flagged);
                assert forall|y: usize| !pm.contains(y) by {
                    if pm.contains(y) {
                        assert(pool@.contains(y));
                    }
                }
                assert(pm =~= Set::<usize>::empty());
                assert forall|e: int| #[trigger] in_patch(&old(self).board, start, patch, patch_size, shuffle_flagged, e) implies (self.board.cells()[e].is_mine
                    <==> Seq::<usize>::empty().contains(e as usize)) by {
                    assert(pool@.contains(e as usize));
                }
                assert(shuffled_to(&old(self).board, &self.board, start, patch, patch_size, shuffle_flagged, Seq::<usize>::empty()));
            }
            return;
        }
        proof {
            assert(pool@.no_duplicates());
            assert(mines_count <= pool@.len()) by {
                was_mine@.unique_seq_to_set();
                pool@.unique_seq_to_set();
                assert(was_mine@.to_set().subset_of(pool@.to_set()));
                vstd::set_lib::lemma_len_subset(was_mine@.to_set(), pool@.to_set());
            }
        }
        let sampled = sample_slice(rng, &pool, mines_count);
        proof {
            lemma_sub_multiset_no_dup(sampled@, pool@);
        }
        proof {
            assert forall|i: int| 0 <= i < s0.len() implies #[trigger] s0[i].adjacent_mines == adj_mine_count(s0, w, h, i % w, i / w) by {
                lemma_coords_index(w, h, i);
                assert(old(self).board.hint_ok(i));
            }
            assert forall|q: int| 0 <= q < pool@.len() implies (#[trigger] pool@[q]) < s0.len() by {}
        }
        self.place_sampled(&pool, &sampled, was_mine, Ghost(s0));
        proof {
            let s2 = self.board.cells();
            assert forall|i: int| 0 <= i < s2.len() implies {
                &&& (#[trigger] s2[i]).visibility == Visibility::Revealed ==> !s2[i].is_mine
                &&& s2[i].visibility == Visibility::Flagged ==> s2[i].is_mine
            } by {
                assert(s0[i] == s0[i]);
            }
            assert forall|i: int| 0 <= i < s2.len() && safe_index(w, start, i) implies !(#[trigger] s2[i]).is_mine
                && s2[i].visibility == Visibility::Revealed by {
                assert(s0[i] == s0[i]);
                if pool@.contains(i as usize) {
                    let q = choose|q: int| 0 <= q < pool@.len() && pool@[q] == i as usize;
                }
            }
            assert forall|e: int| 0 <= e < s0.len() implies ((#[trigger] s2[e]).is_mine == s0[e].is_mine
                && s2[e].visibility == s0[e].visibility) || (in_patch(&old(self).board, start, patch, patch_size, shuffle_flagged, e)
                && s2[e].visibility == Visibility::Hidden) by {
                if pool@.contains(e as usize) {
                    let q = choose|q: int| 0 <= q < pool@.len() && pool@[q] == e as usize;
                    assert(in_patch(&old(self).board, start, patch, patch_size, shuffle_flagged, pool@[q] as int));
                }
            }
            assert forall|e: int| #[trigger] in_patch(&old(self).board, start, patch, patch_size, shuffle_flagged, e) implies s2[e].visibility
                == Visibility::Hidden by {
                assert(pool@.contains(e as usize));
            }
            let pm = patch_mines(&old(self).board, start, patch, patch_size, shuffle_flagged);
            assert forall|y: usize| was_mine@.to_set().contains(y) <==> pm.contains(y) by {
                if pm.contains(y) {
                    assert(pool@.contains(y));
                }
                if was_mine@.contains(y) {
                    let q = choose|q: int| 0 <= q < pool@.len() && pool@[q] == y;
                    assert(in_patch(&old(self).board, start, patch, patch_size, shuffle_flagged, pool@[q] as int));
                }
            }
            assert(was_mine@.to_set() =~= pm);
            was_mine@.unique_seq_to_set();
            assert forall|q: int| 0 <= q < sampled@.len() implies in_patch(&old(self).board, start, patch, patch_size, shuffle_flagged, #[trigger] sampled@[q] as int) by {
                assert(sampled@.contains(sampled@[q]));
                assert(pool@.contains(sampled@[q]));
                let q2 = choose|q2: int| 0 <= q2 < pool@.len() && pool@[q2] == sampled@[q];
                assert(in_patch(&old(self).board, start, patch, patch_size, shuffle_flagged, pool@[q2] as int));
            }
            assert forall|e: int| #[trigger] in_patch(&old(self).board, start, patch, patch_size, shuffle_flagged, e) implies (s2[e].is_mine
                <==> sampled@.contains(e as usize)) by {
                assert(pool@.contains(e as usize));
            }
            assert(shuffled_to(&old(self).board, &self.board, start, patch, patch_size, shuffle_flagged, sampled@));
        }
    }
}

impl Solver {
    /// Helper function for `shuffle_patch()`. Places the shuffled mines:
    /// the sampled cells of the pool become mines, its other cells stay safe,
    /// all of them hidden, and the hints around the cells whose mine changed
    /// are updated. `s0` is the board before the mines of the pool were
    /// lifted.
    fn place_sampled(&mut self, pool: &Vec<usize>, sampled: &Vec<usize>, was_mine: Vec<usize>, Ghost(s0): Ghost<Seq<Cell>>)
        requires
            old(self).board.wf(),
            0 < old(self).board.w(),
            s0.len() == old(self).board.cells().len(),
            forall|i: int|
                0 <= i < s0.len() ==> #[trigger] s0[i].adjacent_mines == adj_mine_count(
                    s0,
                    old(self).board.w(),
                    old(self).board.h(),
                    i % old(self).board.w(),
                    i / old(self).board.w(),
                ),
            pool@.no_duplicates(),
            forall|q: int| 0 <= q < pool@.len() ==> (#[trigger] pool@[q]) < s0.len(),
            sampled@.no_duplicates(),
            forall|yy: usize| sampled@.contains(yy) ==> pool@.contains(yy),
            forall|i: int|
                0 <= i < s0.len() ==> if pool@.contains(i as usize) {
                    !(#[trigger] old(self).board.cells()[i]).is_mine && old(self).board.cells()[i].visibility == Visibility::Hidden
                        && old(self).board.cells()[i].adjacent_mines == s0[i].adjacent_mines
                } else {
                    old(self).board.cells()[i] == s0[i]
                },
            forall|yy: usize| #[trigger] was_mine@.contains(yy) <==> (pool@.contains(yy) && s0[yy as int].is_mine),
            was_mine@.no_duplicates(),
            count_mines(old(self).board.cells()) + sampled@.len() == count_mines(s0),
        ensures
            final(self).board.wf(),
            final(self).board.grid.width == old(self).board.grid.width,
            final(self).board.grid.height == old(self).board.grid.height,
            final(self).board.num_mines == old(self).board.num_mines,
            final(self).num_mines == old(self).num_mines,
            final(self).options == old(self).options,
            final(self).board.cells().len() == s0.len(),
            forall|i: int|
                0 <= i < s0.len() ==> (#[trigger] final(self).board.cells()[i]).is_mine == (if pool@.contains(i as usize) {
                    sampled@.contains(i as usize)
                } else {
                    s0[i].is_mine
                }) && final(self).board.cells()[i].visibility == (if pool@.contains(i as usize) {
                    Visibility::Hidden
                } else {
                    s0[i].visibility
                }),
            final(self).board.hints_consistent(),
            count_mines(final(self).board.cells()) == count_mines(s0),
    {
        let ghost w = self.board.w();
        let ghost h = self.board.h();
        let mut was_mine = was_mine;
        let mut was_open: Vec<usize> = Vec::new();
        let mines_count: usize = sampled.len();
        proof {
            assert(s0.len() == w * h);
            assert(count_mines(self.board.cells()) + mines_count == count_mines(s0) + 0);
            assert(sampled@.subrange(0, 0) =~= Seq::<usize>::empty());
        }
        let mut t: usize = 0;
        while t < sampled.len()
            invariant
                0 < w,
                s0.len() == w * h,
                forall|i: int| 0 <= i < s0.len() ==> #[trigger] s0[i].adjacent_mines == adj_mine_count(s0, w, h, i % w, i / w),
                w == self.board.w(),
                h == self.board.h(),
                self.board.wf(),
                self.board.grid.width == old(self).board.grid.width,
                self.board.grid.height == old(self).board.grid.height,
                self.board.num_mines == old(self).board.num_mines,
                self.num_mines == old(self).num_mines,
                self.options == old(self).options,
                self.board.cells().len() == s0.len(),
                t <= sampled@.len(),
                sampled@.len() == mines_count,
                sampled@.no_duplicates(),
                forall|yy: usize| sampled@.contains(yy) ==> pool@.contains(yy),
                forall|q: int| 0 <= q < pool@.len() ==> (#[trigger] pool@[q]) < s0.len(),
                forall|i: int|
                    0 <= i < s0.len() ==> if sampled@.subrange(0, t as int).contains(i as usize) {
                        (#[trigger] self.board.cells()[i]).is_mine && self.board.cells()[i].visibility == Visibility::Hidden
                            && self.board.cells()[i].adjacent_mines == s0[i].adjacent_mines
                    } else if pool@.contains(i as usize) {
                        !self.board.cells()[i].is_mine && self.board.cells()[i].visibility == Visibility::Hidden
                            && self.board.cells()[i].adjacent_mines == s0[i].adjacent_mines
                    } else {
                        self.board.cells()[i] == s0[i]
                    },
                forall|yy: usize|
                    #[trigger] was_mine@.contains(yy) <==> (pool@.contains(yy) && s0[yy as int].is_mine && !sampled@.subrange(
                        0,
                        t as int,
                    ).contains(yy)),
                forall|yy: usize|
                    #[trigger] was_open@.contains(yy) <==> (sampled@.subrange(0, t as int).contains(yy) && !s0[yy as int].is_mine),
                was_mine@.no_duplicates(),
                was_open@.no_duplicates(),
                count_mines(self.board.cells()) + mines_count == count_mines(s0) + t,
            decreases sampled@.len() - t,
        {
            let i = sampled[t];
            let ghost ii = i as int;
            let ghost sub0 = sampled@.subrange(0, t as int);
            let ghost sub1 = sampled@.subrange(0, t + 1);
            let ghost cells_before = self.board.cells();
            let ghost wo0 = was_open@;
            proof {
                assert(sampled@.contains(i));
                assert(pool@.contains(i));
                let q = choose|q: int| 0 <= q < pool@.len() && pool@[q] == i;
                assert(i < s0.len());
                assert(!sub0.contains(i)) by {
                    if sub0.contains(i) {
                        let q2 = choose|q2: int| 0 <= q2 < sub0.len() && sub0[q2] == i;
                        assert(sampled@[q2] == sampled@[t as int]);
                    }
                }
                assert forall|yy: usize| #[trigger] sub1.contains(yy) <==> (sub0.contains(yy) || yy == i) by {
                    if sub1.contains(yy) {
                        let q2 = choose|q2: int| 0 <= q2 < sub1.len() && sub1[q2] == yy;
                        if q2 < t {
                            assert(sub0[q2] == yy);
                        }
                    }
                    if sub0.contains(yy) {
                        let q2 = choose|q2: int| 0 <= q2 < sub0.len() && sub0[q2] == yy;
                        assert(sub1[q2] == yy);
                    }
                    if yy == i {
                        assert(sub1[t as int] == yy);
                    }
                }
                assert(!cells_before[ii].is_mine);
            }
            if holds(&was_mine, i) {
                was_mine = without(&was_mine, i);
            } else {
                was_open.push(i);
                proof {
                    assert(!wo0.contains(i));
                    assert forall|yy: usize| #[trigger] was_open@.contains(yy) <==> (wo0.contains(yy) || yy == i) by {
                        if was_open@.contains(yy) {
                            let q2 = choose|q2: int| 0 <= q2 < was_open@.len() && was_open@[q2] == yy;
                            if q2 < wo0.len() {
                                assert(wo0[q2] == yy);
                            }
                        }
                        if wo0.contains(yy) {
                            let q2 = choose|q2: int| 0 <= q2 < wo0.len() && wo0[q2] == yy;
                            assert(was_open@[q2] == yy);
                        }
                        if yy == i {
                            assert(was_open@[wo0.len() as int] == yy);
                        }
                    }
                }
            }
            let cell = *self.board.grid.get(i);
            self.board.grid.set(i, Cell { is_mine: true, adjacent_mines: cell.adjacent_mines, visibility: cell.visibility });
            proof {
                lemma_count_mines_update(cells_before, ii, Cell { is_mine: true, adjacent_mines: cell.adjacent_mines, visibility: cell.visibility });
                assert forall|j: int| 0 <= j < s0.len() implies if sub1.contains(j as usize) {
                    (#[trigger] self.board.cells()[j]).is_mine && self.board.cells()[j].visibility == Visibility::Hidden
                        && self.board.cells()[j].adjacent_mines == s0[j].adjacent_mines
                } else if pool@.contains(j as usize) {
                    !self.board.cells()[j].is_mine && self.board.cells()[j].visibility == Visibility::Hidden
                        && self.board.cells()[j].adjacent_mines == s0[j].adjacent_mines
                } else {
                    self.board.cells()[j] == s0[j]
                } by {
                    if j != ii {
                        assert(self.board.cells()[j] == cells_before[j]);
                    }
                }
            }
            t = t + 1;
        }
        proof {
            assert(sampled@.subrange(0, sampled@.len() as int) =~= sampled@);
            let cur = self.board.cells();
            assert forall|k: int| 0 <= k < was_mine@.len() implies (#[trigger] was_mine@[k]) < cur.len() && !cur[was_mine@[k] as int].is_mine
                && !was_open@.contains(was_mine@[k]) by {
                assert(was_mine@.contains(was_mine@[k]));
                let q = choose|q: int| 0 <= q < pool@.len() && pool@[q] == was_mine@[k];
            }
            assert forall|k: int| 0 <= k < was_open@.len() implies (#[trigger] was_open@[k]) < cur.len() && cur[was_open@[k] as int].is_mine by {
                assert(was_open@.contains(was_open@[k]));
                assert(pool@.contains(was_open@[k]));
                let q = choose|q: int| 0 <= q < pool@.len() && pool@[q] == was_open@[k];
            }
            let mb = mines_before(cur, was_mine@, was_open@);
            assert forall|i: int| 0 <= i < cur.len() implies #[trigger] cur[i].adjacent_mines == adj_mine_count(
                mb,
                w,
                h,
                i % w,
                i / w,
            ) by {
                assert forall|j: int| 0 <= j < mb.len() implies (#[trigger] mb[j]).is_mine == s0[j].is_mine by {
                    assert(cur[j] == cur[j]);
                }
                lemma_coords_index(w, h, i);
                lemma_adj_same_mines(mb, s0, w, h, i % w, i / w);
                assert(s0[i].adjacent_mines == adj_mine_count(s0, w, h, i % w, i / w));
            }
        }
        let ghost before_update = self.board.cells();
        self.update_grid(&was_mine, &was_open);
        proof {
            let s2 = self.board.cells();
            lemma_count_mines_eq(s2, before_update);
            assert forall|i: int| 0 <= i < s0.len() implies (#[trigger] s2[i]).is_mine == (if pool@.contains(i as usize) {
                sampled@.contains(i as usize)
            } else {
                s0[i].is_mine
            }) && s2[i].visibility == (if pool@.contains(i as usize) {
                Visibility::Hidden
            } else {
                s0[i].visibility
            }) by {
                assert(before_update[i] == before_update[i]);
            }
        }
    }
}


/// The mines among the cells of the patch that `shuffle_patch` shuffles.
pub open spec fn patch_mines(
    b: &Board,
    start: (usize, usize),
    patch: (usize, usize),
    patch_size: usize,
    shuffle_flagged: bool,
) -> Set<usize> {
    Set::new(|e: usize| in_patch(b, start, patch, patch_size, shuffle_flagged, e as int) && b.cells()[e as int].is_mine)
}

/// The mines of the patch of `b0` went to the cells `sampled` of the patch
/// in `b1`: distinct cells of the patch, as many as it had mines, and the
/// patch's cells that are mines in `b1` are exactly those.
pub open spec fn shuffled_to(
    b0: &Board,
    b1: &Board,
    start: (usize, usize),
    patch: (usize, usize),
    patch_size: usize,
    shuffle_flagged: bool,
    sampled: Seq<usize>,
) -> bool {
    &&& sampled.no_duplicates()
    &&& sampled.len() == patch_mines(b0, start, patch, patch_size, shuffle_flagged).len()
    &&& forall|q: int| 0 <= q < sampled.len() ==> in_patch(b0, start, patch, patch_size, shuffle_flagged, #[trigger] sampled[q] as int)
    &&& forall|e: int|
        #[trigger] in_patch(b0, start, patch, patch_size, shuffle_flagged, e) ==> (b1.cells()[e].is_mine <==> sampled.contains(
            e as usize,
        ))
}

/// Whether the cell at index `e` of `b` is one a shuffle of the
/// `patch_size` square with top-left corner `patch` may move mines to or
/// from: in the square, outside the safe area around `start`, and hidden (or
/// flagged, when flags are shuffled too).
pub open spec fn in_patch(
    b: &Board,
    start: (usize, usize),
    patch: (usize, usize),
    patch_size: usize,
    shuffle_flagged: bool,
    e: int,
) -> bool {
    let x = e % b.w();
    let y = e / b.w();
    &&& 0 <= e < b.cells().len()
    &&& patch.0 <= x < patch.0 + patch_size
    &&& patch.1 <= y < patch.1 + patch_size
    &&& !safe_index(b.w(), start, e)
    &&& (b.cells()[e].visibility == Visibility::Hidden || (shuffle_flagged && b.cells()[e].visibility
        == Visibility::Flagged))
}

/// A cell the constraint's mines may be swapped with: its mine status is the
/// one the constraint is being given, and it lies outside the safe area and
/// outside the constraint.
pub open spec fn swap_candidate(b: &Board, start: (usize, usize), c: Constraint, to_saturate: bool, e: int) -> bool {
    &&& 0 <= e < b.cells().len()
    &&& b.cells()[e].is_mine == to_saturate
    &&& !safe_index(b.w(), start, e)
    &&& !c.covers(e % b.w(), e / b.w())
}

/// Neighbour `p` (0 to 7) of the cell at index `e` of `b` is uncovered.
pub open spec fn revealed_nbr(b: &Board, e: int, p: int) -> bool {
    match nbr(b.w(), b.h(), e % b.w(), e / b.w(), if p < 4 { p } else { p + 1 }) {
        Some(n) => n < b.cells().len() && b.cells()[n as int].visibility == Visibility::Revealed,
        None => false,
    }
}

/// The cell at index `e` of `b` is hidden next to an uncovered cell.
pub open spec fn on_frontier(b: &Board, e: int) -> bool {
    b.cells()[e].visibility == Visibility::Hidden && exists|p: int| 0 <= p < 8 && #[trigger] revealed_nbr(b, e, p)
}

/// The order in which swap candidates give or take a mine: hidden cells
/// next to an uncovered one, then other hidden cells, then uncovered cells.
pub open spec fn swap_tier(b: &Board, e: int) -> int {
    if on_frontier(b, e) {
        0
    } else if b.cells()[e].visibility == Visibility::Hidden {
        1
    } else {
        2
    }
}

/// Distinct elements of `p`, as many as `p` has, are all of them.
proof fn lemma_takes_all(a: Seq<usize>, p: Seq<usize>)
    requires
        a.no_duplicates(),
        p.no_duplicates(),
        forall|q: int| 0 <= q < a.len() ==> p.contains(#[trigger] a[q]),
        a.len() == p.len(),
    ensures
        forall|x: usize| #[trigger] p.contains(x) ==> a.contains(x),
{
    a.unique_seq_to_set();
    p.unique_seq_to_set();
    assert forall|x: usize| a.to_set().contains(x) implies p.to_set().contains(x) by {
        let q = choose|q: int| 0 <= q < a.len() && a[q] == x;
        assert(p.contains(a[q]));
    }
    vstd::set_lib::lemma_subset_equality(a.to_set(), p.to_set());
    assert forall|x: usize| #[trigger] p.contains(x) implies a.contains(x) by {
        assert(p.to_set().contains(x));
        assert(a.to_set().contains(x));
    }
}

/// The number of cells of `b` before index `k` that are swap candidates.
pub open spec fn candidates_upto(b: &Board, start: (usize, usize), c: Constraint, to_saturate: bool, k: int) -> int
    decreases k,
{
    if k <= 0 {
        0
    } else {
        candidates_upto(b, start, c, to_saturate, k - 1) + if swap_candidate(b, start, c, to_saturate, k - 1) {
            1int
        } else {
            0
        }
    }
}

/// The number of the constraint's cells whose mine status must change for
/// all of them to be mines (`to_saturate`) or none.
pub open spec fn cells_to_change(c: Constraint, to_saturate: bool) -> int {
    if to_saturate {
        popcount9(c.mask) - c.mines
    } else {
        c.mines as int
    }
}

/// The first offset of the square of `patch_size` cells a side, around a
/// constraint's corner, whose density decides how it is made trivial.
pub open spec fn window_lo(patch_size: int) -> int {
    if patch_size <= 3 {
        (3 - patch_size) / 2
    } else {
        -((patch_size - 3) / 2)
    }
}

/// The number of offsets of that square in each direction.
pub open spec fn window_n(patch_size: int) -> int {
    (patch_size + 2) / 2 + 1 - window_lo(patch_size)
}

/// The cells of that square around the corner of `c`, row by row, `None`
/// where it leaves the board.
pub open spec fn window(b: &Board, c: Constraint, patch_size: int) -> Seq<Option<usize>> {
    let lo = window_lo(patch_size);
    let n = window_n(patch_size);
    Seq::new(
        (n * n) as nat,
        |k: int| crate::state::grid::rel_index(b.w(), b.h(), c.x as int, c.y as int, lo + k % n, lo + k / n),
    )
}

/// The mines of `s` at the listed cells.
pub open spec fn listed_mines(s: Seq<Cell>, rel: Seq<Option<usize>>) -> int
    decreases rel.len(),
{
    if rel.len() == 0 {
        0
    } else {
        listed_mines(s, rel.drop_last()) + match rel.last() {
            Some(i) => if i < s.len() && s[i as int].is_mine {
                1int
            } else {
                0
            },
            None => 0,
        }
    }
}

/// The constraint is to become all mines: the square around it holds mines
/// more sparsely than the board's `num_mines` over all its cells. The two
/// densities are compared exactly, as products of integers.
pub open spec fn saturates(b: &Board, c: Constraint, patch_size: int, num_mines: int) -> bool {
    listed_mines(b.cells(), window(b, c, patch_size)) * (b.w() * b.h()) < num_mines * (patch_size * patch_size)
}

/// The cells of `s` whose mine status differs from `to_saturate`.
pub open spec fn mismatched(s: Seq<Cell>, to_saturate: bool) -> spec_fn(int) -> bool {
    |e: int| s[e].is_mine != to_saturate
}

/// `b1` is `b0` after the cells of the patch have had their mines shuffled:
/// only those cells may have changed, all of them are left hidden, and the
/// patch's mines went to as many distinct cells of the patch.
pub open spec fn shuffled(
    b0: &Board,
    b1: &Board,
    start: (usize, usize),
    patch: (usize, usize),
    patch_size: int,
    shuffle_flagged: bool,
) -> bool {
    &&& b1.cells().len() == b0.cells().len()
    &&& forall|e: int|
        0 <= e < b0.cells().len() ==> ((#[trigger] b1.cells()[e]).is_mine == b0.cells()[e].is_mine && b1.cells()[e].visibility
            == b0.cells()[e].visibility) || in_patch(b0, start, patch, patch_size as usize, shuffle_flagged, e)
    &&& forall|e: int|
        #[trigger] in_patch(b0, start, patch, patch_size as usize, shuffle_flagged, e) ==> b1.cells()[e].visibility
            == Visibility::Hidden
    &&& exists|sampled: Seq<usize>| #[trigger] shuffled_to(b0, b1, start, patch, patch_size as usize, shuffle_flagged, sampled)
}

/// `b1` is `b0` with the constraint made trivial, as far as cells elsewhere
/// can give or take mines: the cells of the constraint all become mines when
/// it is to be filled, none otherwise; other cells that changed are left
/// hidden, outside the safe area.
pub open spec fn trivialised(
    b0: &Board,
    b1: &Board,
    start: (usize, usize),
    c: Constraint,
    patch_size: int,
    num_mines: int,
) -> bool {
    let t = saturates(b0, c, patch_size, num_mines);
    let w = b0.w();
    &&& b1.cells().len() == b0.cells().len()
    &&& candidates_upto(b0, start, c, t, b0.cells().len() as int) >= cells_to_change(c, t) ==> forall|e: int|
        0 <= e < b0.cells().len() && c.covers(e % w, e / w) ==> (#[trigger] b1.cells()[e]).is_mine == t
    &&& forall|e: int|
        0 <= e < b0.cells().len() ==> ({
            let c0 = b0.cells()[e];
            let c1 = #[trigger] b1.cells()[e];
            ||| c1.is_mine == c0.is_mine && c1.visibility == c0.visibility
            ||| c.covers(e % w, e / w) && c1.visibility == c0.visibility
            ||| !c.covers(e % w, e / w) && !safe_index(w, start, e) && c1.visibility == Visibility::Hidden
        })
}

/// All the cells of the constraint (at least two) have the same uncovered
/// neighbours on `b`.
pub open spec fn symmetric(b: &Board, c: Constraint) -> bool {
    popcount9(c.mask) >= 2 && forall|x1: int, y1: int, x2: int, y2: int|
        #[trigger] c.covers(x1, y1) && #[trigger] c.covers(x2, y2) ==> revealed_around(b, index_of(b.w(), x1, y1))
            == revealed_around(b, index_of(b.w(), x2, y2))
}

/// `c` is one of the constraints of the buckets `data`.
pub open spec fn listed_in(data: Seq<Vec<Constraint>>, c: Constraint) -> bool {
    exists|i: int, j: int| #![trigger data[i]@[j]] 0 <= i < data.len() && 0 <= j < data[i]@.len() && c == data[i]@[j]
}

/// The corner of the square shuffled around a constraint.
pub open spec fn constraint_patch(c: Constraint) -> (usize, usize) {
    (
        if c.x >= (PATCH_SIZE - 3) / 2 { (c.x - (PATCH_SIZE - 3) / 2) as usize } else { 0 },
        if c.y >= (PATCH_SIZE - 3) / 2 { (c.y - (PATCH_SIZE - 3) / 2) as usize } else { 0 },
    )
}

/// The corner of the square shuffled around the cell at index `e` of a
/// `w`-wide board.
pub open spec fn cell_patch(w: int, e: int) -> (usize, usize) {
    let x = e % w;
    let y = e / w;
    (
        if x >= PATCH_SIZE / 2 { (x - PATCH_SIZE / 2) as usize } else { 0 },
        if y >= PATCH_SIZE / 2 { (y - PATCH_SIZE / 2) as usize } else { 0 },
    )
}

impl Solver {
    /// Helper function for `perturb()`. Makes the constraint trivial: where
    /// the mines in the `patch_size` square around it are sparser than on
    /// the whole board, all its cells become mines, otherwise none does. The
    /// mines it gains are taken from, or the ones it loses given to, cells
    /// elsewhere: hidden cells next to an uncovered one first, then other
    /// hidden cells, then uncovered cells, each group in random order. The
    /// cells that give or take a mine become hidden. Where too few cells
    /// elsewhere can give or take one, it stops short.
    #[verifier::rlimit(100)]
    #[verifier::spinoff_prover]
    fn trvialise_constraint(
        &mut self,
        start: (usize, usize),
        constraint: Constraint,
        rng: &mut Xoshiro128PlusPlus,
        patch_size: usize,
    )
        requires
            gen_ok(&old(self).board, start),
            holds_on(constraint, &old(self).board),
            patch_size <= isize::MAX,
            patch_size * patch_size <= usize::MAX,
        ensures
            ({
                let t = saturates(&old(self).board, constraint, patch_size as int, old(self).num_mines as int);
                candidates_upto(&old(self).board, start, constraint, t, old(self).board.cells().len() as int)
                    >= cells_to_change(constraint, t) ==> forall|e: int|
                    0 <= e < old(self).board.cells().len() && constraint.covers(e % old(self).board.w(), e / old(self).board.w())
                        ==> (#[trigger] final(self).board.cells()[e]).is_mine == t
            }),
            ({
                let t = saturates(&old(self).board, constraint, patch_size as int, old(self).num_mines as int);
                forall|e1: int, e2: int|
                    swap_candidate(&old(self).board, start, constraint, t, e1) && swap_candidate(&old(self).board, start, constraint, t, e2)
                        && swap_tier(&old(self).board, e1) < swap_tier(&old(self).board, e2) && #[trigger] final(self).board.cells()[e2].is_mine
                        != old(self).board.cells()[e2].is_mine ==> #[trigger] final(self).board.cells()[e1].is_mine
                        != old(self).board.cells()[e1].is_mine
            }),
            gen_ok(&final(self).board, start),
            final(self).board.grid.width == old(self).board.grid.width,
            final(self).board.grid.height == old(self).board.grid.height,
            final(self).board.num_mines == old(self).board.num_mines,
            final(self).num_mines == old(self).num_mines,
            final(self).options == old(self).options,
            forall|e: int|
                0 <= e < old(self).board.cells().len() ==> ({
                    let c0 = old(self).board.cells()[e];
                    let c1 = #[trigger] final(self).board.cells()[e];
                    let w = old(self).board.w();
                    ||| c1.is_mine == c0.is_mine && c1.visibility == c0.visibility
                    ||| constraint.covers(e % w, e / w) && c1.visibility == c0.visibility
                    ||| !constraint.covers(e % w, e / w) && !safe_index(w, start, e) && c1.visibility == Visibility::Hidden
                }),
    {
        let ghost s0 = self.board.cells();
        let ghost w = self.board.w();
        let ghost h = self.board.h();
        let width = self.board.width();
        let height = self.board.height();
        let lo: isize = if patch_size <= 3 {
            ((3 - patch_size) / 2) as isize
        } else {
            -(((patch_size - 3) / 2) as isize)
        };
        let hi: isize = ((patch_size + 2) / 2) as isize;
        let rel = self.board.grid.get_relative_indices((constraint.x, constraint.y), lo..hi + 1, lo..hi + 1);
        proof {
            assert(lo == window_lo(patch_size as int));
            assert(hi + 1 - lo == window_n(patch_size as int));
            assert(rel@ =~= window(&self.board, constraint, patch_size as int));
        }
        let mut local_mines: usize = 0;
        let mut r: usize = 0;
        while r < rel.len()
            invariant
                r <= rel.len(),
                local_mines <= r,
                self.board.cells() == s0,
                local_mines == listed_mines(s0, rel@.subrange(0, r as int)),
            decreases rel.len() - r,
        {
            proof {
                assert(rel@.subrange(0, r + 1).drop_last() =~= rel@.subrange(0, r as int));
                assert(rel@.subrange(0, r + 1).last() == rel@[r as int]);
            }
            if let Some(i) = rel[r] {
                if i < self.board.grid.data.len() && self.board.grid.get(i).is_mine {
                    local_mines = local_mines + 1;
                }
            }
            r = r + 1;
        }
        proof {
            assert(rel@.subrange(0, rel@.len() as int) =~= rel@);
        }
        let cells_total = width * height;
        let lm = local_mines as u128;
        let ct = cells_total as u128;
        let nm = self.num_mines as u128;
        let pp = (patch_size * patch_size) as u128;
        proof {
            assert(lm * ct <= u128::MAX) by (nonlinear_arith)
                requires
                    lm <= 0xffff_ffff_ffff_ffffu128,
                    ct <= 0xffff_ffff_ffff_ffffu128,
            ;
            assert(nm * pp <= u128::MAX) by (nonlinear_arith)
                requires
                    nm <= 0xffff_ffff_ffff_ffffu128,
                    pp <= 0xffff_ffff_ffff_ffffu128,
            ;
        }
        let to_saturate = lm * ct < nm * pp;
        proof {
            assert(to_saturate == saturates(&old(self).board, constraint, patch_size as int, old(self).num_mines as int));
        }
        let mut pool0: Vec<usize> = Vec::new();
        let mut pool1: Vec<usize> = Vec::new();
        let mut pool2: Vec<usize> = Vec::new();
        let mut i: usize = 0;
        while i < self.board.grid.data.len()
            invariant
                gen_ok(&self.board, start),
                holds_on(constraint, &self.board),
                self.board.cells() == s0,
                w == self.board.w(),
                h == self.board.h(),
                i <= s0.len(),
                forall|q1: int, q2: int| 0 <= q1 < q2 < pool0@.len() ==> pool0@[q1] < pool0@[q2],
                forall|q1: int, q2: int| 0 <= q1 < q2 < pool1@.len() ==> pool1@[q1] < pool1@[q2],
                forall|q1: int, q2: int| 0 <= q1 < q2 < pool2@.len() ==> pool2@[q1] < pool2@[q2],
                forall|q: int| 0 <= q < pool0@.len() ==> (#[trigger] pool0@[q]) < i && swap_candidate(&self.board, start, constraint, to_saturate, pool0@[q] as int),
                forall|q: int| 0 <= q < pool1@.len() ==> (#[trigger] pool1@[q]) < i && swap_candidate(&self.board, start, constraint, to_saturate, pool1@[q] as int),
                forall|q: int| 0 <= q < pool2@.len() ==> (#[trigger] pool2@[q]) < i && swap_candidate(&self.board, start, constraint, to_saturate, pool2@[q] as int),
                forall|x: usize| !(pool0@.contains(x) && pool1@.contains(x)),
                forall|x: usize| !(pool0@.contains(x) && pool2@.contains(x)),
                forall|x: usize| !(pool1@.contains(x) && pool2@.contains(x)),
                forall|q: int| 0 <= q < pool0@.len() ==> swap_tier(&self.board, #[trigger] pool0@[q] as int) == 0,
                forall|q: int| 0 <= q < pool1@.len() ==> swap_tier(&self.board, #[trigger] pool1@[q] as int) == 1,
                forall|q: int| 0 <= q < pool2@.len() ==> swap_tier(&self.board, #[trigger] pool2@[q] as int) == 2,
                forall|e: int|
                    0 <= e < i && #[trigger] swap_candidate(&self.board, start, constraint, to_saturate, e) ==> (if swap_tier(
                        &self.board,
                        e,
                    ) == 0 {
                        pool0@.contains(e as usize)
                    } else if swap_tier(&self.board, e) == 1 {
                        pool1@.contains(e as usize)
                    } else {
                        pool2@.contains(e as usize)
                    }),
                self.board == old(self).board,
                pool0@.len() + pool1@.len() + pool2@.len() == candidates_upto(&old(self).board, start, constraint, to_saturate, i as int),
            decreases s0.len() - i,
        {
            let (x, y) = self.board.grid.to_coords(i);
            let cell = *self.board.grid.get(i);
            proof {
                lemma_coords_index(w, h, i as int);
            }
            if cell.is_mine == to_saturate && !in_safe_area(start, (x, y)) && !constraint.contains((x, y)) {
                let ghost a0 = pool0@;
                let ghost a1 = pool1@;
                let ghost a2 = pool2@;
                proof {
                    assert(swap_candidate(&self.board, start, constraint, to_saturate, i as int));
                    assert(!a0.contains(i) && !a1.contains(i) && !a2.contains(i)) by {
                        if a0.contains(i) {
                            let q = choose|q: int| 0 <= q < a0.len() && a0[q] == i;
                        }
                        if a1.contains(i) {
                            let q = choose|q: int| 0 <= q < a1.len() && a1[q] == i;
                        }
                        if a2.contains(i) {
                            let q = choose|q: int| 0 <= q < a2.len() && a2[q] == i;
                        }
                    }
                }
                if cell.visibility == Visibility::Hidden {
                    let adj = self.board.grid.get_adjacent_indices(i);
                    let mut is_frontier = false;
                    let mut p: usize = 0;
                    while p < 8
                        invariant
                            adj.len() == 8,
                            p <= 8,
                            self.board.wf(),
                            i < self.board.cells().len(),
                            forall|pp: int|
                                0 <= pp < 8 ==> #[trigger] adj@[pp] == nbr(
                                    self.board.grid.width as int,
                                    self.board.grid.height as int,
                                    (i as int) % (self.board.grid.width as int),
                                    (i as int) / (self.board.grid.width as int),
                                    if pp < 4 { pp } else { pp + 1 },
                                ),
                            is_frontier == exists|pp: int| 0 <= pp < p && #[trigger] revealed_nbr(&self.board, i as int, pp),
                        decreases 8 - p,
                    {
                        let ghost was = is_frontier;
                        if let Some(n) = adj[p] {
                            if n < self.board.grid.data.len() && self.board.grid.get(n).visibility == Visibility::Revealed {
                                is_frontier = true;
                            }
                        }
                        proof {
                            assert(adj@[p as int] == adj@[p as int]);
                            if is_frontier && !was {
                                assert(revealed_nbr(&self.board, i as int, p as int));
                            }
                            if !is_frontier {
                                assert(!revealed_nbr(&self.board, i as int, p as int));
                                assert forall|pp: int| 0 <= pp < p + 1 implies !#[trigger] revealed_nbr(&self.board, i as int, pp) by {
                                    if pp < p {
                                        assert(!was);
                                    }
                                }
                            }
                        }
                        p = p + 1;
                    }
                    if is_frontier {
                        proof {
                            let pw = choose|pp: int| 0 <= pp < 8 && #[trigger] revealed_nbr(&self.board, i as int, pp);
                            assert(on_frontier(&self.board, i as int));
                        }
                        pool0.push(i);
                    } else {
                        proof {
                            assert(!on_frontier(&self.board, i as int));
                        }
                        pool1.push(i);
                    }
                } else {
                    pool2.push(i);
                }
                proof {
                    assert(pool0@.len() > 0 ==> pool0@[pool0@.len() - 1] == pool0@[pool0@.len() - 1]);
                    assert forall|q: int| 0 <= q < pool0@.len() implies swap_tier(&self.board, #[trigger] pool0@[q] as int) == 0 by {
                        if q < a0.len() {
                            assert(pool0@[q] == a0[q]);
                        }
                    }
                    assert forall|q: int| 0 <= q < pool1@.len() implies swap_tier(&self.board, #[trigger] pool1@[q] as int) == 1 by {
                        if q < a1.len() {
                            assert(pool1@[q] == a1[q]);
                        }
                    }
                    assert forall|q: int| 0 <= q < pool2@.len() implies swap_tier(&self.board, #[trigger] pool2@[q] as int) == 2 by {
                        if q < a2.len() {
                            assert(pool2@[q] == a2[q]);
                        }
                    }
                    assert forall|e: int|
                        0 <= e < i + 1 && #[trigger] swap_candidate(&self.board, start, constraint, to_saturate, e) implies (if swap_tier(
                            &self.board,
                            e,
                        ) == 0 {
                            pool0@.contains(e as usize)
                        } else if swap_tier(&self.board, e) == 1 {
                            pool1@.contains(e as usize)
                        } else {
                            pool2@.contains(e as usize)
                        }) by {
                        if e < i {
                            if a0.contains(e as usize) {
                                let q = choose|q: int| 0 <= q < a0.len() && a0[q] == e as usize;
                                assert(pool0@[q] == e as usize);
                            }
                            if a1.contains(e as usize) {
                                let q = choose|q: int| 0 <= q < a1.len() && a1[q] == e as usize;
                                assert(pool1@[q] == e as usize);
                            }
                            if a2.contains(e as usize) {
                                let q = choose|q: int| 0 <= q < a2.len() && a2[q] == e as usize;
                                assert(pool2@[q] == e as usize);
                            }
                        } else {
                            if pool0@.len() > a0.len() {
                                assert(pool0@[a0.len() as int] == i);
                            }
                            if pool1@.len() > a1.len() {
                                assert(pool1@[a1.len() as int] == i);
                            }
                            if pool2@.len() > a2.len() {
                                assert(pool2@[a2.len() as int] == i);
                            }
                        }
                    }
                    assert forall|x: usize| pool0@.contains(x) implies a0.contains(x) || x == i by {
                        let q = choose|q: int| 0 <= q < pool0@.len() && pool0@[q] == x;
                        if q < a0.len() {
                            assert(a0[q] == x);
                        }
                    }
                    assert forall|x: usize| pool1@.contains(x) implies a1.contains(x) || x == i by {
                        let q = choose|q: int| 0 <= q < pool1@.len() && pool1@[q] == x;
                        if q < a1.len() {
                            assert(a1[q] == x);
                        }
                    }
                    assert forall|x: usize| pool2@.contains(x) implies a2.contains(x) || x == i by {
                        let q = choose|q: int| 0 <= q < pool2@.len() && pool2@[q] == x;
                        if q < a2.len() {
                            assert(a2[q] == x);
                        }
                    }
                }
            } else {
                proof {
                    assert(!swap_candidate(&old(self).board, start, constraint, to_saturate, i as int));
                }
            }
            i = i + 1;
        }
        proof {
            lemma_mset_bounds(constraint, s0, w, h);
        }
        let num_change: usize = if to_saturate {
            count_ones(constraint.mask) as usize - constraint.mines as usize
        } else {
            constraint.mines as usize
        };
        let mut selected: Vec<usize> = Vec::new();
        let ghost g0 = pool0@;
        let ghost g1 = pool1@;
        let ghost g2 = pool2@;
        fill_from(&mut selected, pool0, num_change, rng);
        let ghost n0 = selected@.len();
        let ghost sa = selected@;
        fill_from(&mut selected, pool1, num_change, rng);
        let ghost n1 = selected@.len();
        let ghost sb = selected@;
        fill_from(&mut selected, pool2, num_change, rng);
        let ghost sel0 = selected@;
        proof {
            assert(g0.no_duplicates() && g1.no_duplicates() && g2.no_duplicates());
            assert forall|q: int| 0 <= q < sel0.len() implies swap_candidate(&self.board, start, constraint, to_saturate, #[trigger] sel0[q] as int)
                && (if q < n0 { g0.contains(sel0[q]) } else if q < n1 { g1.contains(sel0[q]) } else { g2.contains(sel0[q]) }) by {
                if q < n0 {
                    assert(sel0.subrange(0, n1 as int)[q] == sel0[q]);
                    assert(sb[q] == sel0[q]);
                    assert(sb.subrange(0, n0 as int)[q] == sb[q]);
                    assert(sa[q] == sel0[q]);
                    assert(g0.contains(sel0[q]));
                    let k = choose|k: int| 0 <= k < g0.len() && g0[k] == sel0[q];
                } else if q < n1 {
                    assert(sel0.subrange(0, n1 as int)[q] == sel0[q]);
                    assert(sb[q] == sel0[q]);
                    assert(g1.contains(sel0[q]));
                    let k = choose|k: int| 0 <= k < g1.len() && g1[k] == sel0[q];
                } else {
                    assert(g2.contains(sel0[q]));
                    let k = choose|k: int| 0 <= k < g2.len() && g2[k] == sel0[q];
                }
            }
            assert(sel0.no_duplicates()) by {
                assert forall|q1: int, q2: int| 0 <= q1 < q2 < sel0.len() implies sel0[q1] != sel0[q2] by {
                    assert(swap_candidate(&self.board, start, constraint, to_saturate, sel0[q1] as int));
                    assert(swap_candidate(&self.board, start, constraint, to_saturate, sel0[q2] as int));
                    if q2 < n0 {
                        assert(sel0.subrange(0, n1 as int)[q1] == sel0[q1]);
                        assert(sel0.subrange(0, n1 as int)[q2] == sel0[q2]);
                        assert(sb.subrange(0, n0 as int)[q1] == sb[q1]);
                        assert(sb.subrange(0, n0 as int)[q2] == sb[q2]);
                        assert(sa[q1] != sa[q2]);
                    } else if q2 < n1 && q1 >= n0 {
                        assert(sel0.subrange(0, n1 as int)[q1] == sel0[q1]);
                        assert(sel0.subrange(0, n1 as int)[q2] == sel0[q2]);
                        assert(sb[q1] != sb[q2]);
                    }
                }
            }
        }
        proof {
            assert(n0 <= num_change || n0 == 0);
            assert(sel0.len() <= num_change);
            if n0 < sel0.len() {
                assert(n0 < num_change);
                assert(n0 == g0.len());
                assert forall|q: int| 0 <= q < sa.len() implies g0.contains(#[trigger] sa[q]) by {}
                assert(sa.no_duplicates());
                lemma_takes_all(sa, g0);
                assert forall|x: usize| #[trigger] g0.contains(x) implies sel0.contains(x) by {
                    let q = choose|q: int| 0 <= q < sa.len() && sa[q] == x;
                    assert(sb.subrange(0, n0 as int)[q] == sb[q]);
                    assert(sel0.subrange(0, n1 as int)[q] == sel0[q]);
                }
            }
            if n1 < sel0.len() {
                assert(n1 < num_change);
                assert(n1 == n0 + g1.len());
                let mid = sb.subrange(n0 as int, n1 as int);
                assert forall|q: int| 0 <= q < mid.len() implies g1.contains(#[trigger] mid[q]) by {
                    assert(mid[q] == sb[n0 + q]);
                }
                assert forall|q1: int, q2: int| 0 <= q1 < q2 < mid.len() implies mid[q1] != mid[q2] by {
                    assert(mid[q1] == sb[n0 + q1]);
                    assert(mid[q2] == sb[n0 + q2]);
                }
                lemma_takes_all(mid, g1);
                assert forall|x: usize| #[trigger] g1.contains(x) implies sel0.contains(x) by {
                    let q = choose|q: int| 0 <= q < mid.len() && mid[q] == x;
                    assert(mid[q] == sb[n0 + q]);
                    assert(sel0.subrange(0, n1 as int)[n0 + q] == sel0[n0 + q]);
                }
            }
        }
        let cells = constraint.masked_cells();
        let mut was_mine: Vec<usize> = Vec::new();
        let mut was_open: Vec<usize> = Vec::new();
        let ghost sn = sel0.len();
        let ghost mut processed: Set<int> = Set::empty();
        let mut exhausted = false;
        let mut k: usize = 0;
        let ghost mm = mismatched(s0, to_saturate);
        let ghost cs = cset(constraint, w);
        let ghost enough = sn == num_change;
        proof {
            lemma_cset(constraint, w, h);
            assert(selected@ == sel0.subrange(0, sn as int));
            assert(g0.len() + g1.len() + g2.len() >= num_change ==> enough);
            cs.lemma_len_filter(mm);
            let ms = mset(constraint, s0, w);
            if to_saturate {
                let df = cs.filter(mm);
                cs.lemma_len_filter(|i: int| s0[i].is_mine);
                assert(ms + df =~= cs);
                assert(ms.disjoint(df));
                vstd::set_lib::lemma_set_disjoint_lens(ms, df);
            } else {
                assert(cs.filter(mm) =~= ms);
            }
            assert(cs.filter(mm).len() == num_change);
            assert(processed.filter(mm) =~= Set::<int>::empty());
        }
        while k < cells.len() && !exhausted
            invariant
                self.board.wf(),
                w == self.board.w(),
                h == self.board.h(),
                0 < w,
                s0.len() == w * h,
                gen_ok(&old(self).board, start),
                holds_on(constraint, &old(self).board),
                s0 == old(self).board.cells(),
                self.board.cells().len() == s0.len(),
                self.board.grid.width == old(self).board.grid.width,
                self.board.grid.height == old(self).board.grid.height,
                self.board.num_mines == old(self).board.num_mines,
                self.num_mines == old(self).num_mines,
                self.options == old(self).options,
                k <= cells@.len(),
                cells@.no_duplicates(),
                forall|p: (usize, usize)| cells@.contains(p) <==> constraint.covers(p.0 as int, p.1 as int),
                sn == sel0.len(),
                sel0.no_duplicates(),
                forall|q: int| 0 <= q < sel0.len() ==> swap_candidate(&old(self).board, start, constraint, to_saturate, #[trigger] sel0[q] as int),
                selected@.len() <= sn,
                selected@ == sel0.subrange(0, selected@.len() as int),
                forall|e: int| #[trigger] processed.contains(e) ==> 0 <= e < s0.len() && constraint.covers(e % w, e / w),
                forall|q: int| k <= q < cells@.len() ==> !processed.contains(index_of(w, (#[trigger] cells@[q]).0 as int, cells@[q].1 as int)),
                forall|e: int|
                    0 <= e < s0.len() ==> {
                        let popped = sel0.subrange(selected@.len() as int, sn as int).contains(e as usize);
                        let tog = popped || (processed.contains(e) && s0[e].is_mine != to_saturate);
                        &&& (#[trigger] self.board.cells()[e]).is_mine == (if tog { !s0[e].is_mine } else { s0[e].is_mine })
                        &&& self.board.cells()[e].visibility == (if popped { Visibility::Hidden } else { s0[e].visibility })
                        &&& self.board.cells()[e].adjacent_mines == s0[e].adjacent_mines
                        &&& (was_mine@.contains(e as usize) <==> tog && s0[e].is_mine)
                        &&& (was_open@.contains(e as usize) <==> tog && !s0[e].is_mine)
                    },
                forall|x: usize| #[trigger] was_mine@.contains(x) ==> x < s0.len(),
                forall|x: usize| #[trigger] was_open@.contains(x) ==> x < s0.len(),
                was_mine@.no_duplicates(),
                was_open@.no_duplicates(),
                count_mines(self.board.cells()) == count_mines(s0),
                mm == mismatched(s0, to_saturate),
                cs == cset(constraint, w),
                cs.finite(),
                forall|i: int| #[trigger] cs.contains(i) <==> (0 <= i < w * h && constraint.covers(i % w, i / w)),
                cs.filter(mm).len() == num_change,
                processed.finite(),
                enough == (sn == num_change),
                !exhausted ==> selected@.len() + processed.filter(mm).len() == sn,
                enough ==> !exhausted,
                forall|q: int| 0 <= q < k ==> processed.contains(index_of(w, (#[trigger] cells@[q]).0 as int, cells@[q].1 as int)),
                exhausted ==> selected@.len() == 0,
                sn <= num_change,
            decreases cells@.len() - k, (if exhausted { 0int } else { 1int }),
        {
            let (x, y) = cells[k];
            proof {
                assert(cells@.contains(cells@[k as int]));
                assert(constraint.covers(x as int, y as int));
                lemma_index_coords(w, h, x as int, y as int);
            }
            let index = self.board.grid.to_index(x, y);
            let ghost ii = index as int;
            let ghost before = self.board.cells();
            let ghost wm0 = was_mine@;
            let ghost wo0 = was_open@;
            let ghost ln0 = selected@.len();
            let ghost pr0 = processed;
            proof {
                assert(!processed.contains(ii));
                assert(!sel0.subrange(ln0 as int, sn as int).contains(index)) by {
                    if sel0.subrange(ln0 as int, sn as int).contains(index) {
                        let q = choose|q: int| 0 <= q < sn - ln0 && sel0.subrange(ln0 as int, sn as int)[q] == index;
                        assert(swap_candidate(&old(self).board, start, constraint, to_saturate, sel0[ln0 + q] as int));
                    }
                }
                assert(before[ii].is_mine == s0[ii].is_mine);
                assert forall|q: int| k + 1 <= q < cells@.len() implies index_of(w, (#[trigger] cells@[q]).0 as int, cells@[q].1 as int) != ii by {
                    assert(cells@.contains(cells@[q]));
                    if index_of(w, cells@[q].0 as int, cells@[q].1 as int) == ii {
                        lemma_index_injective(w, h, cells@[q].0 as int, cells@[q].1 as int, x as int, y as int);
                        assert(cells@[q] == cells@[k as int]);
                    }
                }
            }
            let cell = *self.board.grid.get(index);
            if cell.is_mine != to_saturate {
                match selected.pop() {
                    None => {
                        proof {
                            let pf = pr0.filter(mm);
                            pr0.lemma_len_filter(mm);
                            cs.lemma_len_filter(mm);
                            assert(mm(ii));
                            assert(cs.contains(ii));
                            assert(pf.insert(ii).subset_of(cs.filter(mm))) by {
                                assert forall|e: int| pf.insert(ii).contains(e) implies cs.filter(mm).contains(e) by {
                                    if e != ii {
                                        assert(pr0.contains(e));
                                    }
                                }
                            }
                            vstd::set_lib::lemma_len_subset(pf.insert(ii), cs.filter(mm));
                            assert(!pf.contains(ii));
                            assert(!enough);
                        }
                        exhausted = true;
                    },
                    Some(swapped) => {
                        let ghost si = swapped as int;
                        let ghost ln = selected@.len();
                        proof {
                            assert(ln0 == ln + 1);
                            assert(sel0.subrange(0, ln0 as int)[ln as int] == swapped);
                            assert(sel0[ln as int] == swapped);
                            assert(swap_candidate(&old(self).board, start, constraint, to_saturate, si));
                            assert(selected@ =~= sel0.subrange(0, ln as int));
                            assert(si != ii);
                            assert(!sel0.subrange(ln0 as int, sn as int).contains(swapped)) by {
                                if sel0.subrange(ln0 as int, sn as int).contains(swapped) {
                                    let q = choose|q: int| 0 <= q < sn - ln0 && sel0.subrange(ln0 as int, sn as int)[q] == swapped;
                                    assert(sel0[ln0 + q] == sel0[ln as int]);
                                }
                            }
                            assert(!processed.contains(si));
                            assert(before[si] == s0[si]);
                            assert forall|yy: usize| #[trigger] sel0.subrange(ln as int, sn as int).contains(yy) <==> (sel0.subrange(
                                ln0 as int,
                                sn as int,
                            ).contains(yy) || yy == swapped) by {
                                let a = sel0.subrange(ln as int, sn as int);
                                let b = sel0.subrange(ln0 as int, sn as int);
                                if a.contains(yy) {
                                    let q = choose|q: int| 0 <= q < a.len() && a[q] == yy;
                                    if q > 0 {
                                        assert(b[q - 1] == yy);
                                    }
                                }
                                if b.contains(yy) {
                                    let q = choose|q: int| 0 <= q < b.len() && b[q] == yy;
                                    assert(a[q + 1] == yy);
                                }
                                if yy == swapped {
                                    assert(a[0] == yy);
                                }
                            }
                        }
                        self.board.grid.set(index, Cell { is_mine: to_saturate, adjacent_mines: cell.adjacent_mines, visibility: cell.visibility });
                        let ghost mid = self.board.cells();
                        let sc = *self.board.grid.get(swapped);
                        self.board.grid.set(swapped, Cell { is_mine: !to_saturate, adjacent_mines: sc.adjacent_mines, visibility: Visibility::Hidden });
                        proof {
                            lemma_count_mines_update(before, ii, Cell { is_mine: to_saturate, adjacent_mines: cell.adjacent_mines, visibility: cell.visibility });
                            lemma_count_mines_update(mid, si, Cell { is_mine: !to_saturate, adjacent_mines: sc.adjacent_mines, visibility: Visibility::Hidden });
                        }
                        if to_saturate {
                            was_mine.push(swapped);
                            was_open.push(index);
                        } else {
                            was_mine.push(index);
                            was_open.push(swapped);
                        }
                        proof {
                            processed = processed.insert(ii);
                            pr0.lemma_len_filter(mm);
                            assert(mm(ii));
                            assert(processed.filter(mm) =~= pr0.filter(mm).insert(ii));
                            assert(!pr0.filter(mm).contains(ii));
                            assert(!wm0.contains(swapped) && !wm0.contains(index) && !wo0.contains(swapped) && !wo0.contains(index));
                            assert forall|yy: usize| #[trigger] was_mine@.contains(yy) <==> (wm0.contains(yy) || yy == (if to_saturate { swapped } else { index })) by {
                                let nv = if to_saturate { swapped } else { index };
                                assert(was_mine@ == wm0.push(nv));
                                if was_mine@.contains(yy) {
                                    let q = choose|q: int| 0 <= q < was_mine@.len() && was_mine@[q] == yy;
                                    if q < wm0.len() {
                                        assert(wm0[q] == yy);
                                    }
                                }
                                if wm0.contains(yy) {
                                    let q = choose|q: int| 0 <= q < wm0.len() && wm0[q] == yy;
                                    assert(was_mine@[q] == yy);
                                }
                                if yy == nv {
                                    assert(was_mine@[wm0.len() as int] == yy);
                                }
                            }
                            assert forall|yy: usize| #[trigger] was_open@.contains(yy) <==> (wo0.contains(yy) || yy == (if to_saturate { index } else { swapped })) by {
                                let nv = if to_saturate { index } else { swapped };
                                assert(was_open@ == wo0.push(nv));
                                if was_open@.contains(yy) {
                                    let q = choose|q: int| 0 <= q < was_open@.len() && was_open@[q] == yy;
                                    if q < wo0.len() {
                                        assert(wo0[q] == yy);
                                    }
                                }
                                if wo0.contains(yy) {
                                    let q = choose|q: int| 0 <= q < wo0.len() && wo0[q] == yy;
                                    assert(was_open@[q] == yy);
                                }
                                if yy == nv {
                                    assert(was_open@[wo0.len() as int] == yy);
                                }
                            }
                            assert forall|e: int| 0 <= e < s0.len() implies {
                                let popped = sel0.subrange(selected@.len() as int, sn as int).contains(e as usize);
                                let tog = popped || (processed.contains(e) && s0[e].is_mine != to_saturate);
                                &&& (#[trigger] self.board.cells()[e]).is_mine == (if tog { !s0[e].is_mine } else { s0[e].is_mine })
                                &&& self.board.cells()[e].visibility == (if popped { Visibility::Hidden } else { s0[e].visibility })
                                &&& self.board.cells()[e].adjacent_mines == s0[e].adjacent_mines
                                &&& (was_mine@.contains(e as usize) <==> tog && s0[e].is_mine)
                                &&& (was_open@.contains(e as usize) <==> tog && !s0[e].is_mine)
                            } by {
                                assert(before[e] == before[e]);
                                if e != ii && e != si {
                                    assert(self.board.cells()[e] == before[e]);
                                }
                            }
                            assert forall|q: int| k + 1 <= q < cells@.len() implies !processed.contains(index_of(w, (#[trigger] cells@[q]).0 as int, cells@[q].1 as int)) by {
                                assert(index_of(w, cells@[q].0 as int, cells@[q].1 as int) != ii);
                            }
                        }
                        k = k + 1;
                    },
                }
            } else {
                proof {
                    processed = processed.insert(ii);
                    assert(!mm(ii));
                    assert(processed.filter(mm) =~= pr0.filter(mm));
                    assert forall|e: int| 0 <= e < s0.len() implies {
                        let popped = sel0.subrange(selected@.len() as int, sn as int).contains(e as usize);
                        let tog = popped || (processed.contains(e) && s0[e].is_mine != to_saturate);
                        &&& (#[trigger] self.board.cells()[e]).is_mine == (if tog { !s0[e].is_mine } else { s0[e].is_mine })
                        &&& self.board.cells()[e].visibility == (if popped { Visibility::Hidden } else { s0[e].visibility })
                        &&& self.board.cells()[e].adjacent_mines == s0[e].adjacent_mines
                        &&& (was_mine@.contains(e as usize) <==> tog && s0[e].is_mine)
                        &&& (was_open@.contains(e as usize) <==> tog && !s0[e].is_mine)
                    } by {
                        assert(before[e] == before[e]);
                    }
                    assert forall|q: int| k + 1 <= q < cells@.len() implies !processed.contains(index_of(w, (#[trigger] cells@[q]).0 as int, cells@[q].1 as int)) by {
                        assert(index_of(w, cells@[q].0 as int, cells@[q].1 as int) != ii);
                    }
                }
                k = k + 1;
            }
        }
        proof {
            let cur = self.board.cells();
            let ln = selected@.len();
            assert forall|kk: int| 0 <= kk < was_mine@.len() implies (#[trigger] was_mine@[kk]) < cur.len() && !cur[was_mine@[kk] as int].is_mine
                && !was_open@.contains(was_mine@[kk]) by {
                assert(was_mine@.contains(was_mine@[kk]));
                assert(cur[was_mine@[kk] as int] == cur[was_mine@[kk] as int]);
            }
            assert forall|kk: int| 0 <= kk < was_open@.len() implies (#[trigger] was_open@[kk]) < cur.len() && cur[was_open@[kk] as int].is_mine by {
                assert(was_open@.contains(was_open@[kk]));
                assert(cur[was_open@[kk] as int] == cur[was_open@[kk] as int]);
            }
            let mb = mines_before(cur, was_mine@, was_open@);
            assert forall|i: int| 0 <= i < cur.len() implies #[trigger] cur[i].adjacent_mines == adj_mine_count(mb, w, h, i % w, i / w) by {
                assert forall|j: int| 0 <= j < mb.len() implies (#[trigger] mb[j]).is_mine == s0[j].is_mine by {
                    assert(cur[j] == cur[j]);
                }
                lemma_coords_index(w, h, i);
                lemma_adj_same_mines(mb, s0, w, h, i % w, i / w);
                assert(old(self).board.hint_ok(i));
            }
        }
        let ghost before_update = self.board.cells();
        self.update_grid(&was_mine, &was_open);
        proof {
            let s2 = self.board.cells();
            lemma_count_mines_eq(s2, before_update);
            assert forall|i: int| 0 <= i < s2.len() implies {
                &&& (#[trigger] s2[i]).visibility == Visibility::Revealed ==> !s2[i].is_mine
                &&& s2[i].visibility == Visibility::Flagged ==> s2[i].is_mine
            } by {
                assert(s0[i] == s0[i]);
                assert(before_update[i] == before_update[i]);
                if processed.contains(i) {
                    lemma_coords_index(w, h, i);
                    assert(cset(constraint, w).contains(i));
                    assert(constraint.covers(i % w, i / w));
                    assert(index_of(w, i % w, i / w) == i);
                }
            }
            assert forall|i: int| 0 <= i < s2.len() && safe_index(w, start, i) implies !(#[trigger] s2[i]).is_mine
                && s2[i].visibility == Visibility::Revealed by {
                assert(s0[i] == s0[i]);
                assert(before_update[i] == before_update[i]);
                if processed.contains(i) {
                    lemma_coords_index(w, h, i);
                    assert(constraint.covers(i % w, i / w));
                    assert(index_of(w, i % w, i / w) == i);
                }
                if sel0.subrange(selected@.len() as int, sn as int).contains(i as usize) {
                    let q = choose|q: int| 0 <= q < sn - selected@.len() && sel0.subrange(selected@.len() as int, sn as int)[q] == i as usize;
                    assert(swap_candidate(&old(self).board, start, constraint, to_saturate, sel0[selected@.len() + q] as int));
                }
            }
            assert forall|e: int| 0 <= e < s0.len() implies ({
                let c0 = s0[e];
                let c1 = #[trigger] s2[e];
                ||| c1.is_mine == c0.is_mine && c1.visibility == c0.visibility
                ||| constraint.covers(e % w, e / w) && c1.visibility == c0.visibility
                ||| !constraint.covers(e % w, e / w) && !safe_index(w, start, e) && c1.visibility == Visibility::Hidden
            }) by {
                assert(before_update[e] == before_update[e]);
                if processed.contains(e) {
                    assert(constraint.covers(e % w, e / w));
                }
                if sel0.subrange(selected@.len() as int, sn as int).contains(e as usize) {
                    let q = choose|q: int| 0 <= q < sn - selected@.len() && sel0.subrange(selected@.len() as int, sn as int)[q] == e as usize;
                    assert(swap_candidate(&old(self).board, start, constraint, to_saturate, sel0[selected@.len() + q] as int));
                }
            }
            if candidates_upto(&old(self).board, start, constraint, to_saturate, s0.len() as int) >= cells_to_change(
                constraint,
                to_saturate,
            ) {
                assert(cells_to_change(constraint, to_saturate) == num_change);
                assert(enough);
                assert(k == cells@.len());
                assert forall|e: int| 0 <= e < s0.len() && constraint.covers(e % w, e / w) implies #[trigger] s2[e].is_mine
                    == to_saturate by {
                    lemma_coords_index(w, h, e);
                    let pp = ((e % w) as usize, (e / w) as usize);
                    assert(constraint.covers(pp.0 as int, pp.1 as int));
                    assert(cells@.contains(pp));
                    let q = choose|q: int| 0 <= q < cells@.len() && cells@[q] == pp;
                    assert(processed.contains(index_of(w, cells@[q].0 as int, cells@[q].1 as int)));
                    assert(index_of(w, pp.0 as int, pp.1 as int) == e);
                    assert(before_update[e] == before_update[e]);
                    if sel0.subrange(selected@.len() as int, sn as int).contains(e as usize) {
                        let q2 = choose|q2: int|
                            0 <= q2 < sn - selected@.len() && sel0.subrange(selected@.len() as int, sn as int)[q2] == e as usize;
                        assert(swap_candidate(&old(self).board, start, constraint, to_saturate, sel0[selected@.len() + q2] as int));
                    }
                }
            }
            assert(selected@.len() == 0) by {
                if !exhausted {
                    assert(k == cells@.len());
                    assert forall|e: int| processed.contains(e) <==> cs.contains(e) by {
                        if cs.contains(e) {
                            lemma_coords_index(w, h, e);
                            let pp = ((e % w) as usize, (e / w) as usize);
                            assert(constraint.covers(pp.0 as int, pp.1 as int));
                            assert(cells@.contains(pp));
                            let q = choose|q: int| 0 <= q < cells@.len() && cells@[q] == pp;
                            assert(processed.contains(index_of(w, cells@[q].0 as int, cells@[q].1 as int)));
                            assert(index_of(w, pp.0 as int, pp.1 as int) == e);
                        }
                    }
                    assert(processed =~= cs);
                }
            }
            let ob = old(self).board;
            assert forall|e1: int, e2: int|
                swap_candidate(&ob, start, constraint, to_saturate, e1) && swap_candidate(&ob, start, constraint, to_saturate, e2)
                    && swap_tier(&ob, e1) < swap_tier(&ob, e2) && #[trigger] s2[e2].is_mine != s0[e2].is_mine implies #[trigger] s2[e1].is_mine
                != s0[e1].is_mine by {
                assert(before_update[e2] == before_update[e2]);
                assert(before_update[e1] == before_update[e1]);
                assert(!processed.contains(e2));
                assert(!processed.contains(e1));
                assert(sel0.subrange(0, sn as int) =~= sel0);
                assert(sel0.contains(e2 as usize));
                let q2 = choose|q2: int| 0 <= q2 < sel0.len() && sel0[q2] == e2 as usize;
                if q2 < n0 {
                    assert(g0.contains(sel0[q2]));
                    let r = choose|r: int| 0 <= r < g0.len() && g0[r] == sel0[q2];
                    assert(swap_tier(&ob, g0[r] as int) == 0);
                } else if q2 < n1 {
                    assert(g1.contains(sel0[q2]));
                    let r = choose|r: int| 0 <= r < g1.len() && g1[r] == sel0[q2];
                    assert(swap_tier(&ob, g1[r] as int) == 1);
                }
                if swap_tier(&ob, e1) == 0 {
                    assert(g0.contains(e1 as usize));
                } else {
                    assert(g1.contains(e1 as usize));
                }
                assert(sel0.contains(e1 as usize));
            }
        }
    }
}


impl Solver {
    /// The indices of the uncovered neighbours of the cell at `index`, in
    /// increasing order.
    fn revealed_neighbours(&self, index: usize) -> (r: Vec<usize>)
        requires
            self.board.wf(),
            0 < self.board.w(),
            index < self.board.cells().len(),
        ensures
            increasing(r@),
            forall|x: usize| #[trigger] r@.contains(x) <==> revealed_around(&self.board, index as int).contains(x as int),
    {
        let ghost w = self.board.w();
        let ghost h = self.board.h();
        let ghost cx = index as int % w;
        let ghost cy = index as int / w;
        proof {
            lemma_coords_index(w, h, index as int);
        }
        let adj = self.board.grid.get_adjacent_indices(index);
        let mut rv: Vec<usize> = Vec::new();
        let mut p: usize = 0;
        while p < 8
            invariant
                self.board.wf(),
                w == self.board.w(),
                h == self.board.h(),
                0 < w,
                index < self.board.cells().len(),
                cx == index as int % w,
                cy == index as int / w,
                adj.len() == 8,
                forall|q: int| 0 <= q < 8 ==> #[trigger] adj@[q] == nbr(w, h, cx, cy, if q < 4 { q } else { q + 1 }),
                p <= 8,
                rv@.no_duplicates(),
                forall|x: usize|
                    #[trigger] rv@.contains(x) <==> (touched(adj@, p as int, x as int) && x < self.board.cells().len()
                        && self.board.cells()[x as int].visibility == Visibility::Revealed),
            decreases 8 - p,
        {
            let ghost kk: int = if p < 4 { p as int } else { p + 1 };
            let ghost r0 = rv@;
            if let Some(j) = adj[p] {
                proof {
                    lemma_index_coords(w, h, cx + kk % 3 - 1, cy + kk / 3 - 1);
                }
                if self.board.grid.get(j).visibility == Visibility::Revealed {
                    proof {
                        assert(!r0.contains(j)) by {
                            if r0.contains(j) {
                                let q = choose|q: int| 0 <= q < p && adj@[q] == Some(j);
                                let kq: int = if q < 4 { q } else { q + 1 };
                                lemma_nbr_distinct(w, h, cx, cy, kq, kk);
                            }
                        }
                    }
                    rv.push(j);
                }
            }
            proof {
                assert forall|x: usize| #[trigger] rv@.contains(x) <==> (touched(adj@, p + 1, x as int) && x < self.board.cells().len()
                    && self.board.cells()[x as int].visibility == Visibility::Revealed) by {
                    if rv@.contains(x) {
                        let q = choose|q: int| 0 <= q < rv@.len() && rv@[q] == x;
                        if q < r0.len() {
                            assert(r0[q] == x);
                            assert(r0.contains(x));
                            let q2 = choose|q2: int| 0 <= q2 < p && adj@[q2] == Some(x);
                        } else {
                            assert(adj@[p as int] == Some(x));
                        }
                    }
                    if touched(adj@, p + 1, x as int) && x < self.board.cells().len() && self.board.cells()[x as int].visibility
                        == Visibility::Revealed {
                        let q = choose|q: int| 0 <= q < p + 1 && adj@[q] == Some(x);
                        if q < p {
                            assert(r0.contains(x));
                            let q2 = choose|q2: int| 0 <= q2 < r0.len() && r0[q2] == x;
                            assert(rv@[q2] == x);
                        } else {
                            assert(rv@[r0.len() as int] == x);
                        }
                    }
                }
            }
            p = p + 1;
        }
        let ghost unsorted = rv@;
        let sorted = sort_indices(rv);
        proof {
            assert forall|x: usize| #[trigger] sorted@.contains(x) <==> unsorted.contains(x) by {
                vstd::seq_lib::to_multiset_contains(sorted@, x);
                vstd::seq_lib::to_multiset_contains(unsorted, x);
            }
            lemma_sub_multiset_no_dup(sorted@, unsorted);
            assert forall|x: usize| #[trigger] sorted@.contains(x) <==> revealed_around(&self.board, index as int).contains(x as int) by {
                if touched(adj@, 8, x as int) {
                    let q = choose|q: int| 0 <= q < 8 && adj@[q] == Some(x);
                    let k: int = if q < 4 { q } else { q + 1 };
                    assert(is_nbr_slot(k));
                    lemma_index_coords(w, h, cx + k % 3 - 1, cy + k / 3 - 1);
                }
                if revealed_around(&self.board, index as int).contains(x as int) {
                    let k = choose|k: int| is_nbr_slot(k) && nbr(w, h, index as int % w, index as int / w, k) == Some(x);
                    let q: int = if k < 4 { k } else { k - 1 };
                    assert(adj@[q] == Some(x));
                }
            }
            assert forall|a: int, b: int| 0 <= a < b < sorted@.len() implies sorted@[a] < sorted@[b] by {
                assert(sorted@[a] <= sorted@[b]);
            }
        }
        sorted
    }

    /// Helper function for `perturb()`. Whether all the cells of the
    /// constraint (at least two) have the same uncovered neighbours.
    fn is_symmetric(&self, constraint: Constraint) -> (r: bool)
        requires
            self.board.wf(),
            0 < self.board.w(),
            constraint.mask_ok(),
            covers_in_grid(constraint, self.board.w(), self.board.h()),
            constraint.x + 2 <= usize::MAX,
            constraint.y + 2 <= usize::MAX,
        ensures
            r == symmetric(&self.board, constraint),
    {
        let ghost w = self.board.w();
        let ghost h = self.board.h();
        let masked = constraint.masked_cells();
        if masked.len() < 2 {
            return false;
        }
        let ghost m0 = masked@[0];
        let ghost set0 = revealed_around(&self.board, index_of(w, m0.0 as int, m0.1 as int));
        let mut first: Option<Vec<usize>> = None;
        let mut k: usize = 0;
        while k < masked.len()
            invariant
                self.board.wf(),
                w == self.board.w(),
                h == self.board.h(),
                0 < w,
                covers_in_grid(constraint, w, h),
                masked@.len() >= 2,
                m0 == masked@[0],
                set0 == revealed_around(&self.board, index_of(w, m0.0 as int, m0.1 as int)),
                forall|p: (usize, usize)| masked@.contains(p) <==> constraint.covers(p.0 as int, p.1 as int),
                k <= masked@.len(),
                k == 0 <==> first is None,
                first matches Some(f) ==> increasing(f@) && forall|x: usize| #[trigger] f@.contains(x) <==> set0.contains(x as int),
                forall|q: int|
                    0 <= q < k ==> revealed_around(&self.board, index_of(w, (#[trigger] masked@[q]).0 as int, masked@[q].1 as int))
                        == set0,
            decreases masked@.len() - k,
        {
            let (nx, ny) = masked[k];
            proof {
                assert(masked@.contains(masked@[k as int]));
                assert(constraint.covers(nx as int, ny as int));
                lemma_index_coords(w, h, nx as int, ny as int);
            }
            let n_index = self.board.grid.to_index(nx, ny);
            let rv = self.revealed_neighbours(n_index);
            let ghost here = revealed_around(&self.board, n_index as int);
            if let Some(f) = &first {
                if !same_indices(&rv, f) {
                    proof {
                        if here == set0 {
                            assert forall|x: usize| rv@.contains(x) == f@.contains(x) by {}
                            lemma_increasing_eq(rv@, f@);
                        }
                        assert(constraint.covers(m0.0 as int, m0.1 as int)) by {
                            assert(masked@.contains(m0));
                        }
                        assert(!(constraint.covers(nx as int, ny as int) && constraint.covers(m0.0 as int, m0.1 as int)
                            ==> revealed_around(&self.board, index_of(w, nx as int, ny as int)) == revealed_around(
                            &self.board,
                            index_of(w, m0.0 as int, m0.1 as int),
                        )));
                    }
                    return false;
                }
                proof {
                    assert forall|x: int| here.contains(x) == set0.contains(x) by {
                        if here.contains(x) {
                            assert(rv@.contains(x as usize));
                        }
                        if set0.contains(x) {
                            assert(f@.contains(x as usize));
                        }
                    }
                    assert(here =~= set0);
                }
            } else {
                proof {
                    assert(k == 0);
                    assert(here == set0);
                }
                first = Some(rv);
            }
            k = k + 1;
        }
        proof {
            assert forall|x1: int, y1: int, x2: int, y2: int|
                #[trigger] constraint.covers(x1, y1) && #[trigger] constraint.covers(x2, y2) implies revealed_around(
                    &self.board,
                    index_of(w, x1, y1),
                ) == revealed_around(&self.board, index_of(w, x2, y2)) by {
                assert(masked@.contains((x1 as usize, y1 as usize)));
                assert(masked@.contains((x2 as usize, y2 as usize)));
                let q1 = choose|q1: int| 0 <= q1 < masked@.len() && masked@[q1] == (x1 as usize, y1 as usize);
                let q2 = choose|q2: int| 0 <= q2 < masked@.len() && masked@[q2] == (x2 as usize, y2 as usize);
                assert(revealed_around(&self.board, index_of(w, masked@[q1].0 as int, masked@[q1].1 as int)) == set0);
                assert(revealed_around(&self.board, index_of(w, masked@[q2].0 as int, masked@[q2].1 as int)) == set0);
            }
        }
        true
    }
}

/// `b1` is `b0` after one perturbation of the kind `perturb` makes when the
/// solver was left with the constraints `g`: with more than one constraint,
/// one of them made trivial if its cells all have the same uncovered
/// neighbours, else the mines around it shuffled; with fewer, the mines
/// around a hidden cell shuffled, flagged cells among them.
pub open spec fn perturbed(
    b0: &Board,
    b1: &Board,
    start: (usize, usize),
    g: &Grid<Vec<Constraint>>,
    num_mines: int,
) -> bool {
    &&& gen_ok(b1, start)
    &&& b1.grid.width == b0.grid.width
    &&& b1.grid.height == b0.grid.height
    &&& b1.num_mines == b0.num_mines
    &&& total_len(g.data@) > 1 ==> exists|i: int, q: int|
        0 <= i < g.data@.len() && 0 <= q < g.data@[i]@.len() && ({
            let c = #[trigger] g.data@[i]@[q];
            if symmetric(b0, c) {
                trivialised(b0, b1, start, c, PATCH_SIZE as int, num_mines)
            } else {
                shuffled(b0, b1, start, constraint_patch(c), PATCH_SIZE as int, false)
            }
        })
    &&& total_len(g.data@) <= 1 ==> exists|e: int|
        0 <= e < b0.cells().len() && b0.cells()[e].visibility == Visibility::Hidden && #[trigger] shuffled(
            b0,
            b1,
            start,
            cell_patch(b0.w(), e),
            PATCH_SIZE as int,
            true,
        )
}

/// `b1` is `b0` reset to a new game's opening: the same mines, hints and
/// sides, the safe area around `start` revealed and every other cell hidden.
pub open spec fn reset_from(b0: &Board, b1: &Board, start: (usize, usize)) -> bool {
    &&& b1.grid.width == b0.grid.width
    &&& b1.grid.height == b0.grid.height
    &&& b1.num_mines == b0.num_mines
    &&& b1.cells().len() == b0.cells().len()
    &&& forall|i: int|
        0 <= i < b0.cells().len() ==> #[trigger] b1.cells()[i] == with_vis(
            b0.cells()[i],
            if safe_index(b0.w(), start, i) {
                Visibility::Revealed
            } else {
                Visibility::Hidden
            },
        )
}

/// A round of generation that fails, through the boards `s` and `p`: solving
/// `b0` leaves the solver stuck on `s` with the constraints `g`, `s` is
/// perturbed into `p`, and `p` is reset into `b1`.
pub open spec fn failed_round_via(
    b0: &Board,
    s: &Board,
    g: &Grid<Vec<Constraint>>,
    p: &Board,
    b1: &Board,
    start: (usize, usize),
    num_mines: int,
    depth: int,
) -> bool {
    &&& evolves(b0, s)
    &&& deduced(b0, s, num_mines)
    &&& solver_stuck(s, g, num_mines, depth)
    &&& perturbed(s, p, start, g, num_mines)
    &&& reset_from(p, b1, start)
}

/// A round of generation that fails and leads from `b0` to `b1`.
pub open spec fn failed_round(b0: &Board, b1: &Board, start: (usize, usize), num_mines: int, depth: int) -> bool {
    exists|s: Board, g: Grid<Vec<Constraint>>, p: Board|
        #[trigger] failed_round_via(b0, &s, &g, &p, b1, start, num_mines, depth)
}

/// Round `k` of the run `t` fails and leads to the board after it.
pub open spec fn round_at(t: Seq<Board>, k: int, start: (usize, usize), num_mines: int, depth: int) -> bool {
    failed_round(&t[k], &t[k + 1], start, num_mines, depth)
}

/// The boards that the rounds of a generation start from: each round but the
/// last fails, and its perturbed and reset board starts the next. A run of
/// `t.len()` solves has made `t.len() - 1` perturbations.
pub open spec fn generation_run(t: Seq<Board>, start: (usize, usize), num_mines: int, depth: int) -> bool {
    &&& t.len() > 0
    &&& forall|k: int| 0 <= k < t.len() - 1 ==> #[trigger] round_at(t, k, start, num_mines, depth)
}


/// Every board a generation run starts a round from, but perhaps the first,
/// shows a new game's opening; so all of them do when the first does.
pub proof fn lemma_run_openings(t: Seq<Board>, start: (usize, usize), num_mines: int, depth: int)
    requires
        generation_run(t, start, num_mines, depth),
        opening(&t[0], start),
    ensures
        forall|k: int| 0 <= k < t.len() ==> #[trigger] opening(&t[k], start),
{
    assert forall|k: int| 0 <= k < t.len() implies #[trigger] opening(&t[k], start) by {
        if k > 0 {
            assert(round_at(t, k - 1, start, num_mines, depth));
            assert(t[k - 1 + 1] == t[k]);
            let (s, g, p) = choose|s: Board, g: Grid<Vec<Constraint>>, p: Board|
                #[trigger] failed_round_via(&t[k - 1], &s, &g, &p, &t[k], start, num_mines, depth);
            assert(reset_from(&p, &t[k], start));
            assert forall|i: int| 0 <= i < t[k].cells().len() implies (#[trigger] t[k].cells()[i]).visibility == (if safe_index(
                t[k].w(),
                start,
                i,
            ) {
                Visibility::Revealed
            } else {
                Visibility::Hidden
            }) by {
                assert(t[k].cells()[i] == with_vis(
                    p.cells()[i],
                    if safe_index(p.w(), start, i) {
                        Visibility::Revealed
                    } else {
                        Visibility::Hidden
                    },
                ));
            }
        }
    }
}

impl Solver {
    /// Called during generation of the board when the solver fails. Modifies
    /// the board semi-randomly in the hope of making it solvable: with more
    /// than one constraint left, one of them is picked at random; it is made
    /// trivial if its cells all have the same uncovered neighbours, otherwise
    /// the mines of the square around it are shuffled. With fewer, the mines
    /// of the square around a random hidden cell are shuffled, flagged cells
    /// among them.
    pub fn perturb(&mut self, constraints: &Grid<Vec<Constraint>>, start: (usize, usize), rng: &mut Xoshiro128PlusPlus)
        requires
            gen_ok(&old(self).board_view(), start),
            constraints.wf(),
            forall|i: int, q: int|
                0 <= i < constraints.data@.len() && 0 <= q < constraints.data@[i]@.len() ==> holds_on(
                    #[trigger] constraints.data@[i]@[q],
                    &old(self).board_view(),
                ),
            count_vis(old(self).board_view().cells(), Visibility::Hidden) > 0,
        ensures
            gen_ok(&final(self).board_view(), start),
            final(self).board_view().grid.width == old(self).board_view().grid.width,
            final(self).board_view().grid.height == old(self).board_view().grid.height,
            final(self).board_view().num_mines == old(self).board_view().num_mines,
            final(self).mine_count() == old(self).mine_count(),
            final(self).options_view() == old(self).options_view(),
            forall|e: int|
                0 <= e < old(self).board_view().cells().len() ==> ((#[trigger] final(self).board_view().cells()[e]).is_mine == old(
                    self,
                ).board_view().cells()[e].is_mine && final(self).board_view().cells()[e].visibility == old(self).board_view().cells()[e].visibility)
                    || final(self).board_view().cells()[e].visibility == Visibility::Hidden,
            total_len(constraints.data@) > 1 ==> exists|i: int, q: int|
                0 <= i < constraints.data@.len() && 0 <= q < constraints.data@[i]@.len() && ({
                    let c = #[trigger] constraints.data@[i]@[q];
                    if symmetric(&old(self).board_view(), c) {
                        trivialised(&old(self).board_view(), &final(self).board_view(), start, c, PATCH_SIZE as int, old(self).mine_count() as int)
                    } else {
                        shuffled(&old(self).board_view(), &final(self).board_view(), start, constraint_patch(c), PATCH_SIZE as int, false)
                    }
                }),
            total_len(constraints.data@) <= 1 ==> exists|e: int|
                0 <= e < old(self).board_view().cells().len() && old(self).board_view().cells()[e].visibility == Visibility::Hidden
                    && #[trigger] shuffled(
                    &old(self).board_view(),
                    &final(self).board_view(),
                    start,
                    cell_patch(old(self).board_view().w(), e),
                    PATCH_SIZE as int,
                    true,
                ),
            perturbed(&old(self).board_view(), &final(self).board_view(), start, constraints, old(self).mine_count() as int),
    {
        let ghost w = self.board.w();
        let ghost h = self.board.h();
        let mut all_constraints: Vec<Constraint> = Vec::new();
        let mut bi: usize = 0;
        while bi < constraints.data.len()
            invariant
                forall|i: int, q: int|
                    0 <= i < constraints.data@.len() && 0 <= q < constraints.data@[i]@.len() ==> holds_on(
                        #[trigger] constraints.data@[i]@[q],
                        &self.board,
                    ),
                forall|q: int| 0 <= q < all_constraints@.len() ==> holds_on(#[trigger] all_constraints@[q], &self.board),
                self.board == old(self).board,
                bi <= constraints.data@.len(),
                all_constraints@.len() == total_len(constraints.data@.subrange(0, bi as int)),
                forall|q: int|
                    #![trigger all_constraints@[q]]
                    0 <= q < all_constraints@.len() ==> listed_in(constraints.data@, all_constraints@[q]),
            decreases constraints.data@.len() - bi,
        {
            let mut t: usize = 0;
            while t < constraints.data[bi].len()
                invariant
                    0 <= bi < constraints.data@.len(),
                    forall|i: int, q: int|
                        0 <= i < constraints.data@.len() && 0 <= q < constraints.data@[i]@.len() ==> holds_on(
                            #[trigger] constraints.data@[i]@[q],
                            &self.board,
                        ),
                    forall|q: int| 0 <= q < all_constraints@.len() ==> holds_on(#[trigger] all_constraints@[q], &self.board),
                    self.board == old(self).board,
                    t <= constraints.data@[bi as int]@.len(),
                    all_constraints@.len() == total_len(constraints.data@.subrange(0, bi as int)) + t,
                    forall|q: int|
                        #![trigger all_constraints@[q]]
                        0 <= q < all_constraints@.len() ==> listed_in(constraints.data@, all_constraints@[q]),
                decreases constraints.data@[bi as int]@.len() - t,
            {
                let ghost a0 = all_constraints@;
                all_constraints.push(constraints.data[bi][t]);
                proof {
                    assert(holds_on(constraints.data@[bi as int]@[t as int], &self.board));
                    assert forall|q: int| 0 <= q < all_constraints@.len() implies holds_on(#[trigger] all_constraints@[q], &self.board) by {
                        if q < a0.len() {
                            assert(all_constraints@[q] == a0[q]);
                        }
                    }
                    assert forall|q: int| #![trigger all_constraints@[q]] 0 <= q < all_constraints@.len() implies listed_in(constraints.data@, all_constraints@[q]) by {
                        if q < a0.len() {
                            assert(all_constraints@[q] == a0[q]);
                        } else {
                            assert(all_constraints@[q] == constraints.data@[bi as int]@[t as int]);
                            assert(constraints.data@[bi as int]@[t as int] == constraints.data@[bi as int]@[t as int]);
                        }
                    }
                }
                t = t + 1;
            }
            proof {
                let sb = constraints.data@.subrange(0, bi + 1);
                assert(sb.drop_last() =~= constraints.data@.subrange(0, bi as int));
                assert(sb.last() == constraints.data@[bi as int]);
            }
            bi = bi + 1;
        }
        proof {
            assert(constraints.data@.subrange(0, constraints.data@.len() as int) =~= constraints.data@);
        }
        let pick_constraint = all_constraints.len() > 1;
        if pick_constraint {
            let pick = random_below(rng, all_constraints.len());
            let constraint = all_constraints[pick];
            proof {
                assert(listed_in(constraints.data@, all_constraints@[pick as int]));
            }
            let ghost ci = choose|i: int, j: int|
                #![trigger constraints.data@[i]@[j]]
                0 <= i < constraints.data@.len() && 0 <= j < constraints.data@[i]@.len() && all_constraints@[pick as int]
                    == constraints.data@[i]@[j];
            proof {
                assert(holds_on(constraint, &self.board));
                assert(all_constraints@[pick as int] == constraint);
                assert(constraints.data@[ci.0]@[ci.1] == constraint);
            }
            if self.is_symmetric(constraint) {
                let ghost b0 = self.board;
                self.trvialise_constraint(start, constraint, rng, PATCH_SIZE);
                proof {
                    assert(trivialised(&b0, &self.board, start, constraint, PATCH_SIZE as int, old(self).num_mines as int));
                    assert forall|e: int| 0 <= e < b0.cells().len() implies ((#[trigger] self.board.cells()[e]).is_mine
                        == b0.cells()[e].is_mine && self.board.cells()[e].visibility == b0.cells()[e].visibility)
                        || self.board.cells()[e].visibility == Visibility::Hidden by {
                        lemma_coords_index(w, h, e);
                        if constraint.covers(e % w, e / w) {
                            assert(cell_at(&b0, e % w, e / w).visibility == Visibility::Hidden);
                        }
                    }
                }
            } else {
                let patch = (constraint.x.saturating_sub((PATCH_SIZE - 3) / 2), constraint.y.saturating_sub((PATCH_SIZE - 3) / 2));
                let ghost b0 = self.board;
                self.shuffle_patch(start, patch, rng, !pick_constraint, PATCH_SIZE);
                proof {
                    assert(patch == constraint_patch(constraint));
                    let sm = choose|sm: Seq<usize>| #[trigger] shuffled_to(&b0, &self.board, start, patch, PATCH_SIZE, false, sm);
                    assert(shuffled_to(&b0, &self.board, start, constraint_patch(constraint), (PATCH_SIZE as int) as usize, false, sm));
                    assert(shuffled(&b0, &self.board, start, constraint_patch(constraint), PATCH_SIZE as int, false));
                }
            }
        } else {
            proof {
                lemma_vis_set(self.board.cells(), Visibility::Hidden);
                assert(vis_set(self.board.cells(), Visibility::Hidden).len() > 0);
                let e = vis_set(self.board.cells(), Visibility::Hidden).choose();
                assert(vis_set(self.board.cells(), Visibility::Hidden).contains(e));
            }
            let mut frontier: Vec<(usize, usize)> = Vec::new();
            let mut i: usize = 0;
            while i < self.board.grid.data.len()
                invariant
                    gen_ok(&self.board, start),
                    w == self.board.w(),
                    h == self.board.h(),
                    i <= self.board.cells().len(),
                    exists|e: int| 0 <= e < self.board.cells().len() && (#[trigger] self.board.cells()[e]).visibility == Visibility::Hidden,
                    frontier@.len() > 0 || forall|q: int| 0 <= q < i ==> (#[trigger] self.board.cells()[q]).visibility != Visibility::Hidden,
                    forall|q: int| 0 <= q < frontier@.len() ==> (#[trigger] frontier@[q]).0 < w && frontier@[q].1 < h,
                    self.board == old(self).board,
                    forall|q: int|
                        0 <= q < frontier@.len() ==> cell_at(&self.board, (#[trigger] frontier@[q]).0 as int, frontier@[q].1 as int).visibility
                            == Visibility::Hidden,
                decreases self.board.cells().len() - i,
            {
                let (x, y) = self.board.grid.to_coords(i);
                proof {
                    lemma_coords_index(w, h, i as int);
                }
                if self.board.grid.get(i).visibility == Visibility::Hidden {
                    let rel = self.board.grid.get_relative_indices((x, y), -1..2, -1..2);
                    let mut any_hidden = false;
                    let mut r: usize = 0;
                    proof {
                        assert(3 * 3 == 9);
                        assert(rel@[4] == rel_index(w, h, x as int, y as int, -1 + 4int % 3, -1 + 4int / 3));
                    }
                    while r < rel.len()
                        invariant
                            self.board.wf(),
                            rel.len() == 9,
                            r <= 9,
                            rel@[4] == rel_index(w, h, x as int, y as int, 0, 0),
                            w == self.board.w(),
                            h == self.board.h(),
                            x < w,
                            y < h,
                            self.board.cells()[index_of(w, x as int, y as int)].visibility == Visibility::Hidden,
                            any_hidden || r <= 4,
                        decreases 9 - r,
                    {
                        if let Some(n) = rel[r] {
                            if n < self.board.grid.data.len() && self.board.grid.get(n).visibility == Visibility::Hidden {
                                any_hidden = true;
                            }
                        }
                        proof {
                            if r == 4 {
                                lemma_index_coords(w, h, x as int, y as int);
                            }
                        }
                        r = r + 1;
                    }
                    if any_hidden {
                        frontier.push((x, y));
                    }
                }
                i = i + 1;
            }
            proof {
                if frontier@.len() == 0 {
                    let e = choose|e: int| 0 <= e < self.board.cells().len() && (#[trigger] self.board.cells()[e]).visibility == Visibility::Hidden;
                    assert(self.board.cells()[e].visibility != Visibility::Hidden);
                }
            }
            let fi = random_below(rng, frontier.len());
            let (x, y) = frontier[fi];
            let patch = (x.saturating_sub(PATCH_SIZE / 2), y.saturating_sub(PATCH_SIZE / 2));
            let ghost b0 = self.board;
            let ghost e = index_of(w, x as int, y as int);
            proof {
                assert(frontier@[fi as int] == (x, y));
                lemma_index_coords(w, h, x as int, y as int);
                assert(patch == cell_patch(w, e));
                assert(total_len(constraints.data@) <= 1);
            }
            self.shuffle_patch(start, patch, rng, !pick_constraint, PATCH_SIZE);
            proof {
                let sm = choose|sm: Seq<usize>| #[trigger] shuffled_to(&b0, &self.board, start, patch, PATCH_SIZE, true, sm);
                assert(shuffled_to(&b0, &self.board, start, cell_patch(w, e), (PATCH_SIZE as int) as usize, true, sm));
                assert(shuffled(&b0, &self.board, start, cell_patch(w, e), PATCH_SIZE as int, true));
                assert(0 <= e < old(self).board.cells().len() && old(self).board.cells()[e].visibility == Visibility::Hidden);
            }
        }
    }

    /// A generator for `board`, which holds `num_mines` mines, with the
    /// default options.
    pub fn init(board: Board, num_mines: usize) -> (r: Self)
        ensures
            r.board_view() == board,
            r.mine_count() == num_mines,
            r.options_view().max_disjoint_union_recursion_depth == 15,
            r.options_view().max_perturbations == 500,
    {
        Solver { board, num_mines, options: SolverOptions::default() }
    }

    /// Creates a new solver instance and solves `board`, which holds
    /// `num_mines` mines, in place; see `Solver::solve_with_options`.
    pub fn solve_grid(board: &mut Board, num_mines: usize) -> (r: Result<(), ()>)
        requires
            old(board).wf(),
            old(board).hints_consistent(),
            old(board).visibility_consistent(),
            num_mines == count_mines(old(board).cells()),
        ensures
            evolves(&*old(board), &*final(board)),
            final(board).hints_consistent(),
            final(board).visibility_consistent(),
            r is Ok <==> count_vis(final(board).cells(), Visibility::Hidden) == 0,
            r is Ok ==> forall|i: int|
                0 <= i < final(board).cells().len() ==> (#[trigger] final(board).cells()[i].visibility == Visibility::Flagged
                    <==> final(board).cells()[i].is_mine),
            deduced(&*old(board), &*final(board), num_mines as int),
            r is Err ==> stuck_count(&*final(board), num_mines as int),
            r is Err ==> exists|g: Grid<Vec<Constraint>>| #[trigger] solver_stuck(&*final(board), &g, num_mines as int, 15),
    {
        match StSolver::solve_counted(board, num_mines, SolverOptions::default()) {
            Ok(()) => Ok(()),
            Err(g) => {
                proof {
                    assert(solver_stuck(&*board, &g, num_mines as int, 15));
                }
                Err(())
            },
        }
    }

    /// Generates a board that can be solved without guessing from `start`:
    /// solves it, and as long as the solver gets stuck, perturbs it, resets
    /// it to a new game's opening and solves it again from there, at most the
    /// maximum number of perturbations of the options times. Either way the board is left as far as forced moves
    /// alone take it, from the board given or from a new game's opening.
    /// `Ok` with the number of perturbations made when that solves it, which
    /// a board without mines always is; `Err` once the maximum is spent, with
    /// the solver stuck.
    pub fn generate(&mut self, start: (usize, usize), rng: &mut Xoshiro128PlusPlus) -> (r: Result<usize, ()>)
        requires
            gen_ok(&old(self).board_view(), start),
            old(self).mine_count() == count_mines(old(self).board_view().cells()),
        ensures
            gen_ok(&final(self).board_view(), start),
            final(self).mine_count() == old(self).mine_count(),
            final(self).board_view().grid.width == old(self).board_view().grid.width,
            final(self).board_view().grid.height == old(self).board_view().grid.height,
            count_mines(final(self).board_view().cells()) == count_mines(old(self).board_view().cells()),
            r is Ok <==> count_vis(final(self).board_view().cells(), Visibility::Hidden) == 0,
            r is Ok ==> forall|i: int|
                0 <= i < final(self).board_view().cells().len() ==> (#[trigger] final(self).board_view().cells()[i].visibility
                    == Visibility::Flagged <==> final(self).board_view().cells()[i].is_mine),
            r is Err ==> stuck_count(&final(self).board_view(), old(self).mine_count() as int),
            old(self).mine_count() == 0 ==> r == Ok::<usize, ()>(0),
            r matches Ok(n) ==> n <= old(self).options_view().max_perturbations,
            final(self).options_view() == old(self).options_view(),
            r is Err ==> exists|g: Grid<Vec<Constraint>>|
                #[trigger] solver_stuck(
                    &final(self).board_view(),
                    &g,
                    old(self).mine_count() as int,
                    old(self).options_view().max_disjoint_union_recursion_depth as int,
                ),
            exists|b0: Board|
                (b0 == old(self).board_view() || opening(&b0, start)) && evolves(&b0, &final(self).board_view())
                    && #[trigger] deduced(&b0, &final(self).board_view(), old(self).mine_count() as int),
            exists|t: Seq<Board>|
                #[trigger] generation_run(
                    t,
                    start,
                    old(self).mine_count() as int,
                    old(self).options_view().max_disjoint_union_recursion_depth as int,
                ) && t[0] == old(self).board_view() && evolves(&t.last(), &final(self).board_view()) && deduced(
                    &t.last(),
                    &final(self).board_view(),
                    old(self).mine_count() as int,
                ) && (r matches Ok(n) ==> t.len() == n + 1) && (r is Err ==> t.len()
                    == old(self).options_view().max_perturbations + 1),
    {
        let mut num_perturbs: usize = 0;
        let ghost mut trace: Seq<Board> = seq![self.board];
        loop
            invariant
                generation_run(trace, start, self.num_mines as int, self.options.max_disjoint_union_recursion_depth as int),
                trace.len() == num_perturbs + 1,
                trace[0] == old(self).board,
                trace.last() == self.board,
                self.num_mines == 0 ==> num_perturbs == 0,
                gen_ok(&self.board, start),
                self.board == old(self).board || opening(&self.board, start),
                self.num_mines == old(self).num_mines,
                self.num_mines == count_mines(self.board.cells()),
                self.board.num_mines == old(self).board.num_mines,
                gen_ok(&old(self).board, start),
                self.options == old(self).options,
                self.board.grid.width == old(self).board.grid.width,
                self.board.grid.height == old(self).board.grid.height,
                num_perturbs <= self.options.max_perturbations,
            decreases self.options.max_perturbations - num_perturbs,
        {
            let options = SolverOptions {
                max_disjoint_union_recursion_depth: self.options.max_disjoint_union_recursion_depth,
                max_perturbations: self.options.max_perturbations,
            };
            let ghost b0 = self.board;
            let res = StSolver::solve_counted(&mut self.board, self.num_mines, options);
            proof {
                lemma_gen_ok_evolves(&b0, &self.board, start);
            }
            match res {
                Ok(()) => {
                    proof {
                        assert(b0 == old(self).board_view() || opening(&b0, start));
                        assert(evolves(&b0, &self.board_view()));
                        assert(deduced(&b0, &self.board_view(), old(self).mine_count() as int));
                    }
                    proof {
                        assert(generation_run(
                            trace,
                            start,
                            old(self).mine_count() as int,
                            old(self).options_view().max_disjoint_union_recursion_depth as int,
                        ));
                    }
                    return Ok(num_perturbs);
                },
                Err(constraints) => {
                    proof {
                        assert(solver_stuck(&self.board, &constraints, self.num_mines as int, self.options.max_disjoint_union_recursion_depth as int));
                        crate::solver::sets::lemma_hidden_mines(self.board.cells());
                        assert(self.num_mines != 0);
                    }
                    if num_perturbs >= self.options.max_perturbations {
                        proof {
                            assert(b0 == old(self).board_view() || opening(&b0, start));
                            assert(evolves(&b0, &self.board_view()));
                            assert(deduced(&b0, &self.board_view(), old(self).mine_count() as int));
                            assert(self.board_view() == self.board);
                            assert(solver_stuck(
                                &self.board_view(),
                                &constraints,
                                old(self).mine_count() as int,
                                old(self).options_view().max_disjoint_union_recursion_depth as int,
                            ));
                            assert(generation_run(
                                trace,
                                start,
                                old(self).mine_count() as int,
                                old(self).options_view().max_disjoint_union_recursion_depth as int,
                            ));
                        }
                        return Err(());
                    }
                    let ghost s = self.board;
                    self.perturb(&constraints, start, rng);
                    let ghost b1 = self.board;
                    self.board.reset(start);
                    proof {
                        lemma_gen_ok_reset(&b1, &self.board, start);
                        let n = self.num_mines as int;
                        let d = self.options.max_disjoint_union_recursion_depth as int;
                        assert(perturbed(&s, &b1, start, &constraints, n));
                        assert(reset_from(&b1, &self.board, start));
                        assert(failed_round_via(&b0, &s, &constraints, &b1, &self.board, start, n, d));
                        assert(failed_round(&b0, &self.board, start, n, d));
                        let t2 = trace.push(self.board);
                        assert forall|k: int| 0 <= k < t2.len() - 1 implies #[trigger] round_at(t2, k, start, n, d) by {
                            if k < trace.len() - 1 {
                                assert(round_at(trace, k, start, n, d));
                                assert(t2[k] == trace[k]);
                                assert(t2[k + 1] == trace[k + 1]);
                            } else {
                                assert(t2[k] == b0);
                                assert(t2[k + 1] == self.board);
                            }
                        }
                        trace = t2;
                        assert forall|i: int| 0 <= i < self.board.cells().len() implies (#[trigger] self.board.cells()[i]).visibility
                            == (if safe_index(self.board.w(), start, i) {
                            Visibility::Revealed
                        } else {
                            Visibility::Hidden
                        }) by {
                            assert(self.board.cells()[i] == with_vis(
                                b1.cells()[i],
                                if spec_in_safe_area(start, ((i % b1.w()) as usize, (i / b1.w()) as usize)) {
                                    Visibility::Revealed
                                } else {
                                    Visibility::Hidden
                                },
                            ));
                        }
                    }
                    num_perturbs = num_perturbs + 1;
                },
            }
        }
    }

    /// Generates a board that can be solved without guessing from `start`,
    /// as `generate` does, without the count of perturbations.
    pub fn solve_generate(&mut self, start: (usize, usize), rng: &mut Xoshiro128PlusPlus) -> (r: Result<(), ()>)
        requires
            gen_ok(&old(self).board_view(), start),
            old(self).mine_count() == count_mines(old(self).board_view().cells()),
        ensures
            gen_ok(&final(self).board_view(), start),
            final(self).mine_count() == old(self).mine_count(),
            final(self).board_view().grid.width == old(self).board_view().grid.width,
            final(self).board_view().grid.height == old(self).board_view().grid.height,
            count_mines(final(self).board_view().cells()) == count_mines(old(self).board_view().cells()),
            r is Ok <==> count_vis(final(self).board_view().cells(), Visibility::Hidden) == 0,
            r is Ok ==> forall|i: int|
                0 <= i < final(self).board_view().cells().len() ==> (#[trigger] final(self).board_view().cells()[i].visibility
                    == Visibility::Flagged <==> final(self).board_view().cells()[i].is_mine),
            r is Err ==> stuck_count(&final(self).board_view(), old(self).mine_count() as int),
            old(self).mine_count() == 0 ==> r is Ok,
            final(self).options_view() == old(self).options_view(),
            r is Err ==> exists|g: Grid<Vec<Constraint>>|
                #[trigger] solver_stuck(
                    &final(self).board_view(),
                    &g,
                    old(self).mine_count() as int,
                    old(self).options_view().max_disjoint_union_recursion_depth as int,
                ),
            exists|b0: Board|
                (b0 == old(self).board_view() || opening(&b0, start)) && evolves(&b0, &final(self).board_view())
                    && #[trigger] deduced(&b0, &final(self).board_view(), old(self).mine_count() as int),
            exists|t: Seq<Board>|
                #[trigger] generation_run(
                    t,
                    start,
                    old(self).mine_count() as int,
                    old(self).options_view().max_disjoint_union_recursion_depth as int,
                ) && t[0] == old(self).board_view() && evolves(&t.last(), &final(self).board_view()) && deduced(
                    &t.last(),
                    &final(self).board_view(),
                    old(self).mine_count() as int,
                ) && t.len() <= old(self).options_view().max_perturbations + 1 && (r is Err ==> t.len()
                    == old(self).options_view().max_perturbations + 1),
    {
        match self.generate(start, rng) {
            Ok(_) => Ok(()),
            Err(()) => Err(()),
        }
    }

    /// The board of the generator.
    pub fn board(&self) -> (r: &Board)
        ensures
            *r == self.board_view(),
    {
        &self.board
    }

    /// Gives the board back.
    pub fn into_board(self) -> (r: Board)
        ensures
            r == self.board_view(),
    {
        self.board
    }
}

/// Generates a board of `width` by `height` cells with `num_mines` mines
/// placed from the generator seeded with `seed`, the safe area around
/// `start` revealed. With `solvable`, the board is perturbed until it can be
/// solved without guessing, and comes back solved: forced moves alone lead
/// to it from its opening. Returns the board and whether it is such a
/// board.
pub fn new_with_mines(
    width: usize,
    height: usize,
    num_mines: usize,
    solvable: bool,
    start: (usize, usize),
    seed: u64,
) -> (r: (Board, bool))
    requires
        start.0 < width && start.1 < height,
        width < isize::MAX,
        height < isize::MAX,
        width * height <= usize::MAX,
        num_mines + crate::state::grid::safe_count(width as int, start) <= width * height,
    ensures
        gen_ok(&r.0, start),
        r.0.grid.width == width,
        r.0.grid.height == height,
        r.0.num_mines == num_mines,
        count_mines(r.0.cells()) == num_mines,
        r.1 ==> solvable,
        solvable && num_mines == 0 ==> r.1,
        r.1 ==> count_vis(r.0.cells(), Visibility::Hidden) == 0,
        r.1 ==> forall|i: int|
            0 <= i < r.0.cells().len() ==> (#[trigger] r.0.cells()[i].visibility == Visibility::Flagged <==> r.0.cells()[i].is_mine),
        r.1 ==> exists|b0: Board| opening(&b0, start) && evolves(&b0, &r.0) && #[trigger] deduced(&b0, &r.0, num_mines as int),
        solvable && !r.1 ==> exists|g: Grid<Vec<Constraint>>| #[trigger] solver_stuck(&r.0, &g, num_mines as int, 15),
        solvable ==> exists|t: Seq<Board>|
            #[trigger] generation_run(t, start, num_mines as int, 15) && opening(&t[0], start) && evolves(&t.last(), &r.0)
                && deduced(&t.last(), &r.0, num_mines as int) && t.len() <= 501 && (!r.1 ==> t.len() == 501),
        !solvable ==> forall|i: int|
            0 <= i < r.0.cells().len() ==> (#[trigger] r.0.cells()[i]).visibility == (if safe_index(width as int, start, i) {
                Visibility::Revealed
            } else {
                Visibility::Hidden
            }),
{
    let mut random = seeded_xoshiro(seed);
    let grid = Board::new_random(width, height, start, &mut random, num_mines);
    if solvable {
        let ghost g0 = grid;
        let mut solver = Solver::init(grid, num_mines);
        let res = solver.solve_generate(start, &mut random);
        let grid = solver.into_board();
        match res {
            Ok(()) => {
                proof {
                    assert(opening(&g0, start));
                    let b0 = choose|b0: Board|
                        (b0 == g0 || opening(&b0, start)) && evolves(&b0, &grid) && #[trigger] deduced(&b0, &grid, num_mines as int);
                    assert(opening(&b0, start));
                }
                (grid, true)
            },
            Err(()) => {
                proof {
                    let g = choose|g: Grid<Vec<Constraint>>|
                        #[trigger] solver_stuck(&grid, &g, num_mines as int, 15);
                    assert(solver_stuck(&grid, &g, num_mines as int, 15));
                }
                (grid, false)
            },
        }
    } else {
        (grid, false)
    }
}

} // verus!
