//! Constraints over the hidden cells around a revealed cell, and the solver
//! that combines them.
use vstd::prelude::*;
use crate::state::{BoardInterface, Visibility};
use crate::state::grid::{Board, Grid, index_of, cell_opt, count_vis, count_mines};
use self::st::{evolves, holds_on, stuck_count, no_union_resolves, pairs_compared, cells_complete};
use self::deduce::{deduced, known};
use std::collections::VecDeque;

pub mod deduce;
pub mod sets;
pub mod st;

verus! {

/// Options of the solver and the generator.
pub struct SolverOptions {
    pub max_disjoint_union_recursion_depth: usize,
    pub max_perturbations: usize,
}

impl Default for SolverOptions {
    fn default() -> (r: Self)
        ensures
            r.max_disjoint_union_recursion_depth == 15,
            r.max_perturbations == 500,
    {
        SolverOptions { max_disjoint_union_recursion_depth: 15, max_perturbations: 500 }
    }
}

/// A solver of boards by deduction alone.
pub trait Solver {
    /// Solves the board in place: cells are revealed or flagged only where
    /// the revealed hints and the total number of mines force it, in every
    /// layout of mines that fits what the board shows. `Ok` when no hidden
    /// cell is left, which leaves exactly the mines flagged; otherwise `Err`
    /// with the constraints gathered, each true of the board left behind,
    /// known from what it shows and settling none of its cells by itself, on
    /// a board where the count of mines left settles no hidden cell. Then
    /// the constraints hold the one of every revealed cell with a hidden
    /// neighbour, every two overlapping constraints gathered have been compared by wing
    /// elimination and the subset rule, and no union of constraints searched
    /// within the given depth of a group settles the cells outside it.
    fn solve_with_options(board: &mut Board, options: SolverOptions) -> (r: Result<(), Grid<Vec<Constraint>>>)
        requires
            old(board).wf(),
            old(board).hints_consistent(),
            old(board).visibility_consistent(),
            old(board).num_mines == count_mines(old(board).cells()),
        ensures
            evolves(&*old(board), &*final(board)),
            deduced(&*old(board), &*final(board), old(board).num_mines as int),
            final(board).hints_consistent(),
            final(board).visibility_consistent(),
            r is Ok <==> count_vis(final(board).cells(), Visibility::Hidden) == 0,
            r is Ok ==> forall|i: int|
                0 <= i < final(board).cells().len() ==> (#[trigger] final(board).cells()[i].visibility == Visibility::Flagged
                    <==> final(board).cells()[i].is_mine),
            r matches Err(g) ==> {
                &&& g.wf()
                &&& g.width == final(board).grid.width
                &&& g.height == final(board).grid.height
                &&& forall|i: int, q: int|
                    0 <= i < g.data@.len() && 0 <= q < g.data@[i]@.len() ==> holds_on(#[trigger] g.data@[i]@[q], &*final(board))
                        && known(g.data@[i]@[q], &*final(board), old(board).num_mines as int) && 0 < g.data@[i]@[q].mines
                        < popcount9(g.data@[i]@[q].mask)
            },
            r is Err ==> stuck_count(&*final(board), old(board).num_mines as int),
            r matches Err(g) ==> no_union_resolves(
                g.data@,
                options.max_disjoint_union_recursion_depth as int,
                old(board).num_mines - count_vis(final(board).cells(), Visibility::Flagged),
                count_vis(final(board).cells(), Visibility::Hidden) as int,
            ),
            r matches Err(g) ==> pairs_compared(&*final(board), &g),
            r matches Err(g) ==> cells_complete(&*final(board), &g),
    ;
}

/// Bit `k` (0 to 8) of a 3 by 3 mask; every other bit reads as clear.
pub open spec fn bit(m: u16, k: int) -> bool {
    if k == 0 {
        m & 1 != 0
    } else if k == 1 {
        m & 2 != 0
    } else if k == 2 {
        m & 4 != 0
    } else if k == 3 {
        m & 8 != 0
    } else if k == 4 {
        m & 16 != 0
    } else if k == 5 {
        m & 32 != 0
    } else if k == 6 {
        m & 64 != 0
    } else if k == 7 {
        m & 128 != 0
    } else if k == 8 {
        m & 256 != 0
    } else {
        false
    }
}

/// 1 if bit `k` of `m` is set, else 0.
pub open spec fn bit_val(m: u16, k: int) -> int {
    if bit(m, k) {
        1
    } else {
        0
    }
}

/// The number of set bits among the nine bits of a 3 by 3 mask.
pub open spec fn popcount9(m: u16) -> int {
    bit_val(m, 0) + bit_val(m, 1) + bit_val(m, 2) + bit_val(m, 3) + bit_val(m, 4) + bit_val(m, 5)
        + bit_val(m, 6) + bit_val(m, 7) + bit_val(m, 8)
}

/// Whether the mask with its top-left corner at `(cx, cy)` covers `(x, y)`.
pub open spec fn covers_at(cx: int, cy: int, m: u16, x: int, y: int) -> bool {
    &&& cx <= x < cx + 3
    &&& cy <= y < cy + 3
    &&& bit(m, (y - cy) * 3 + (x - cx))
}

/// Tests bit `i` (0 to 8) of a mask.
pub(crate) fn test_bit(mask: u16, i: usize) -> (r: bool)
    ensures
        r == bit(mask, i as int),
{
    match i {
        0 => mask & 1 != 0,
        1 => mask & 2 != 0,
        2 => mask & 4 != 0,
        3 => mask & 8 != 0,
        4 => mask & 16 != 0,
        5 => mask & 32 != 0,
        6 => mask & 64 != 0,
        7 => mask & 128 != 0,
        8 => mask & 256 != 0,
        _ => false,
    }
}

/// The number of set bits of a mask of nine bits.
pub fn count_ones(mask: u16) -> (r: u32)
    requires
        mask < 512,
    ensures
        r == popcount9(mask),
{
    let mut r: u32 = 0;
    let mut i: usize = 0;
    while i < 9
        invariant
            i <= 9,
            r == bit_val(mask, 0) * (if 0 < i { 1int } else { 0 }) + bit_val(mask, 1) * (if 1 < i { 1int } else { 0 })
                + bit_val(mask, 2) * (if 2 < i { 1int } else { 0 }) + bit_val(mask, 3) * (if 3 < i { 1int } else { 0 })
                + bit_val(mask, 4) * (if 4 < i { 1int } else { 0 }) + bit_val(mask, 5) * (if 5 < i { 1int } else { 0 })
                + bit_val(mask, 6) * (if 6 < i { 1int } else { 0 }) + bit_val(mask, 7) * (if 7 < i { 1int } else { 0 })
                + bit_val(mask, 8) * (if 8 < i { 1int } else { 0 }),
        decreases 9 - i,
    {
        if test_bit(mask, i) {
            r = r + 1;
        }
        i = i + 1;
    }
    r
}

proof fn lemma_zero_mask(m: u16)
    by (bit_vector)
    requires
        m == 0,
    ensures
        m & 1 == 0 && m & 2 == 0 && m & 4 == 0 && m & 8 == 0 && m & 16 == 0 && m & 32 == 0 && m & 64 == 0
            && m & 128 == 0 && m & 256 == 0,
{
}

/// Shifting a mask whose left column is empty one column to the left.
proof fn lemma_shift_col(m: u16)
    by (bit_vector)
    requires
        m < 512,
        m & 73 == 0,
    ensures
        (m >> 1u16) < 256,
        (m >> 1u16) & 1 != 0 <==> m & 2 != 0,
        (m >> 1u16) & 2 != 0 <==> m & 4 != 0,
        (m >> 1u16) & 4 == 0,
        (m >> 1u16) & 8 != 0 <==> m & 16 != 0,
        (m >> 1u16) & 16 != 0 <==> m & 32 != 0,
        (m >> 1u16) & 32 == 0,
        (m >> 1u16) & 64 != 0 <==> m & 128 != 0,
        (m >> 1u16) & 128 != 0 <==> m & 256 != 0,
        (m >> 1u16) & 256 == 0,
        m != 0 ==> (m >> 1u16) != 0,
        m != 0 && ((m >> 1u16) & 73 == 0) ==> (m >> 2u16) & 73 != 0,
        (m >> 1u16) >> 1u16 == m >> 2u16,
        m != 0 ==> (m >> 1u16) < m,
        m & 1 == 0 && m & 8 == 0 && m & 64 == 0,
{
}

/// Shifting a mask whose top row is empty one row up.
proof fn lemma_shift_row(m: u16)
    by (bit_vector)
    requires
        m < 512,
        m & 7 == 0,
    ensures
        (m >> 3u16) < 64,
        (m >> 3u16) & 1 != 0 <==> m & 8 != 0,
        (m >> 3u16) & 2 != 0 <==> m & 16 != 0,
        (m >> 3u16) & 4 != 0 <==> m & 32 != 0,
        (m >> 3u16) & 8 != 0 <==> m & 64 != 0,
        (m >> 3u16) & 16 != 0 <==> m & 128 != 0,
        (m >> 3u16) & 32 != 0 <==> m & 256 != 0,
        (m >> 3u16) & 64 == 0,
        (m >> 3u16) & 128 == 0,
        (m >> 3u16) & 256 == 0,
        m != 0 ==> (m >> 3u16) != 0,
        m != 0 && ((m >> 3u16) & 7 == 0) ==> (m >> 6u16) & 7 != 0,
        (m >> 3u16) >> 3u16 == m >> 6u16,
        m != 0 ==> (m >> 3u16) < m,
        m & 1 == 0 && m & 2 == 0 && m & 4 == 0,
{
}

proof fn lemma_left_col_kept(m: u16)
    by (bit_vector)
    requires
        m < 512,
        m & 7 == 0,
        m & 73 != 0,
    ensures
        (m >> 3u16) & 73 != 0,
{
}

/// A constraint whose top-left corner moved one column right and whose mask
/// moved one column left covers the same cells.
proof fn lemma_covers_shift_col(cx: int, cy: int, m: u16, x: int, y: int)
    requires
        m < 512,
        m & 73 == 0,
    ensures
        covers_at(cx + 1, cy, m >> 1u16, x, y) == covers_at(cx, cy, m, x, y),
{
    lemma_shift_col(m);
    if cx <= x < cx + 4 && cy <= y < cy + 3 {
        let dx = x - cx;
        let dy = y - cy;
        assert(dx == 0 || dx == 1 || dx == 2 || dx == 3);
        assert(dy == 0 || dy == 1 || dy == 2);
        if dy == 0 {
            assert((y - cy) * 3 == 0);
        } else if dy == 1 {
            assert((y - cy) * 3 == 3);
        } else {
            assert((y - cy) * 3 == 6);
        }
    }
}

/// A constraint whose top-left corner moved one row down and whose mask moved
/// one row up covers the same cells.
proof fn lemma_covers_shift_row(cx: int, cy: int, m: u16, x: int, y: int)
    requires
        m < 512,
        m & 7 == 0,
    ensures
        covers_at(cx, cy + 1, m >> 3u16, x, y) == covers_at(cx, cy, m, x, y),
{
    lemma_shift_row(m);
    if cx <= x < cx + 3 && cy <= y < cy + 4 {
        let dx = x - cx;
        let dy = y - cy;
        assert(dx == 0 || dx == 1 || dx == 2);
        assert(dy == 0 || dy == 1 || dy == 2 || dy == 3);
        if dy == 0 {
            assert((y - cy) * 3 == 0);
        } else if dy == 1 {
            assert((y - cy) * 3 == 3 && (y - (cy + 1)) * 3 == 0);
        } else if dy == 2 {
            assert((y - cy) * 3 == 6 && (y - (cy + 1)) * 3 == 3);
        } else {
            assert((y - cy) * 3 == 9 && (y - (cy + 1)) * 3 == 6);
        }
    }
}


/// Moving a mask one column right (its right column dropped).
proof fn lemma_munge_right(m: u16)
    by (bit_vector)
    requires
        m < 512,
    ensures
        ((m & !292u16) << 1u16) < 512,
        ((m & !292u16) << 1u16) & 1 == 0,
        ((m & !292u16) << 1u16) & 2 != 0 <==> m & 1 != 0,
        ((m & !292u16) << 1u16) & 4 != 0 <==> m & 2 != 0,
        ((m & !292u16) << 1u16) & 8 == 0,
        ((m & !292u16) << 1u16) & 16 != 0 <==> m & 8 != 0,
        ((m & !292u16) << 1u16) & 32 != 0 <==> m & 16 != 0,
        ((m & !292u16) << 1u16) & 64 == 0,
        ((m & !292u16) << 1u16) & 128 != 0 <==> m & 64 != 0,
        ((m & !292u16) << 1u16) & 256 != 0 <==> m & 128 != 0,
{
}

/// Moving a mask one column left (its left column dropped).
proof fn lemma_munge_left(m: u16)
    by (bit_vector)
    requires
        m < 512,
    ensures
        ((m & !73u16) >> 1u16) < 512,
        ((m & !73u16) >> 1u16) & 1 != 0 <==> m & 2 != 0,
        ((m & !73u16) >> 1u16) & 2 != 0 <==> m & 4 != 0,
        ((m & !73u16) >> 1u16) & 4 == 0,
        ((m & !73u16) >> 1u16) & 8 != 0 <==> m & 16 != 0,
        ((m & !73u16) >> 1u16) & 16 != 0 <==> m & 32 != 0,
        ((m & !73u16) >> 1u16) & 32 == 0,
        ((m & !73u16) >> 1u16) & 64 != 0 <==> m & 128 != 0,
        ((m & !73u16) >> 1u16) & 128 != 0 <==> m & 256 != 0,
        ((m & !73u16) >> 1u16) & 256 == 0,
{
}

/// Moving a mask one row down (its bottom row dropped).
proof fn lemma_munge_down(m: u16)
    by (bit_vector)
    requires
        m < 512,
    ensures
        ((m & !448u16) << 3u16) < 512,
        ((m & !448u16) << 3u16) & 1 == 0,
        ((m & !448u16) << 3u16) & 2 == 0,
        ((m & !448u16) << 3u16) & 4 == 0,
        ((m & !448u16) << 3u16) & 8 != 0 <==> m & 1 != 0,
        ((m & !448u16) << 3u16) & 16 != 0 <==> m & 2 != 0,
        ((m & !448u16) << 3u16) & 32 != 0 <==> m & 4 != 0,
        ((m & !448u16) << 3u16) & 64 != 0 <==> m & 8 != 0,
        ((m & !448u16) << 3u16) & 128 != 0 <==> m & 16 != 0,
        ((m & !448u16) << 3u16) & 256 != 0 <==> m & 32 != 0,
{
}

/// Moving a mask one row up (its top row dropped).
proof fn lemma_munge_up(m: u16)
    by (bit_vector)
    requires
        m < 512,
    ensures
        (m >> 3u16) < 512,
        (m >> 3u16) & 1 != 0 <==> m & 8 != 0,
        (m >> 3u16) & 2 != 0 <==> m & 16 != 0,
        (m >> 3u16) & 4 != 0 <==> m & 32 != 0,
        (m >> 3u16) & 8 != 0 <==> m & 64 != 0,
        (m >> 3u16) & 16 != 0 <==> m & 128 != 0,
        (m >> 3u16) & 32 != 0 <==> m & 256 != 0,
        (m >> 3u16) & 64 == 0,
        (m >> 3u16) & 128 == 0,
        (m >> 3u16) & 256 == 0,
{
}

/// The bits of an intersection and of a complement within nine bits.
proof fn lemma_munge_combine(a: u16, b: u16)
    by (bit_vector)
    requires
        a < 512,
        b < 512,
    ensures
        (a & b) < 512,
        (a & (b ^ 511u16)) < 512,
        (a & b) & 1 != 0 <==> (a & 1 != 0 && b & 1 != 0),
        (a & b) & 2 != 0 <==> (a & 2 != 0 && b & 2 != 0),
        (a & b) & 4 != 0 <==> (a & 4 != 0 && b & 4 != 0),
        (a & b) & 8 != 0 <==> (a & 8 != 0 && b & 8 != 0),
        (a & b) & 16 != 0 <==> (a & 16 != 0 && b & 16 != 0),
        (a & b) & 32 != 0 <==> (a & 32 != 0 && b & 32 != 0),
        (a & b) & 64 != 0 <==> (a & 64 != 0 && b & 64 != 0),
        (a & b) & 128 != 0 <==> (a & 128 != 0 && b & 128 != 0),
        (a & b) & 256 != 0 <==> (a & 256 != 0 && b & 256 != 0),
        (a & (b ^ 511u16)) & 1 != 0 <==> (a & 1 != 0 && b & 1 == 0),
        (a & (b ^ 511u16)) & 2 != 0 <==> (a & 2 != 0 && b & 2 == 0),
        (a & (b ^ 511u16)) & 4 != 0 <==> (a & 4 != 0 && b & 4 == 0),
        (a & (b ^ 511u16)) & 8 != 0 <==> (a & 8 != 0 && b & 8 == 0),
        (a & (b ^ 511u16)) & 16 != 0 <==> (a & 16 != 0 && b & 16 == 0),
        (a & (b ^ 511u16)) & 32 != 0 <==> (a & 32 != 0 && b & 32 == 0),
        (a & (b ^ 511u16)) & 64 != 0 <==> (a & 64 != 0 && b & 64 == 0),
        (a & (b ^ 511u16)) & 128 != 0 <==> (a & 128 != 0 && b & 128 == 0),
        (a & (b ^ 511u16)) & 256 != 0 <==> (a & 256 != 0 && b & 256 == 0),
{
}

/// The nine bits, enumerated: helps the solver split a covered position.
proof fn lemma_cell_cases(cx: int, cy: int, x: int, y: int)
    requires
        cx <= x < cx + 3,
        cy <= y < cy + 3,
    ensures
        (y - cy) * 3 + (x - cx) == (if y == cy { 0int } else if y == cy + 1 { 3 } else { 6 }) + (x - cx),
{
}

/// What stays in the window of `(sx, sy)` when the aligned mask moves.
proof fn lemma_window_step(ox: int, oy: int, m: u16, m2: u16, sx: int, sy: int, x: int, y: int, dir: int)
    requires
        m < 512,
        sx <= x < sx + 3,
        sy <= y < sy + 3,
        dir == 0 ==> ox > sx && m2 == ((m & !292u16) << 1u16),
        dir == 1 ==> ox < sx && m2 == ((m & !73u16) >> 1u16),
        dir == 2 ==> oy > sy && m2 == ((m & !448u16) << 3u16),
        dir == 3 ==> oy < sy && m2 == (m >> 3u16),
        0 <= dir < 4,
    ensures
        dir == 0 ==> covers_at(ox - 1, oy, m2, x, y) == covers_at(ox, oy, m, x, y),
        dir == 1 ==> covers_at(ox + 1, oy, m2, x, y) == covers_at(ox, oy, m, x, y),
        dir == 2 ==> covers_at(ox, oy - 1, m2, x, y) == covers_at(ox, oy, m, x, y),
        dir == 3 ==> covers_at(ox, oy + 1, m2, x, y) == covers_at(ox, oy, m, x, y),
{
    if dir == 0 {
        lemma_munge_right(m);
    } else if dir == 1 {
        lemma_munge_left(m);
    } else if dir == 2 {
        lemma_munge_down(m);
    } else {
        lemma_munge_up(m);
    }
    let (nx, ny) = if dir == 0 { (ox - 1, oy) } else if dir == 1 { (ox + 1, oy) } else if dir == 2 { (ox, oy - 1) } else { (ox, oy + 1) };
    if nx <= x < nx + 3 && ny <= y < ny + 3 {
        lemma_cell_cases(nx, ny, x, y);
    }
    if ox <= x < ox + 3 && oy <= y < oy + 3 {
        lemma_cell_cases(ox, oy, x, y);
    }
}


/// Setting bit `k` of a mask of nine bits.
proof fn lemma_set_bit(m: u16, k: u16)
    by (bit_vector)
    requires
        m < 512,
        k < 9,
    ensures
        (m | (1u16 << k)) < 512,
        (m | (1u16 << k)) & 1 != 0 <==> (m & 1 != 0 || k == 0),
        (m | (1u16 << k)) & 2 != 0 <==> (m & 2 != 0 || k == 1),
        (m | (1u16 << k)) & 4 != 0 <==> (m & 4 != 0 || k == 2),
        (m | (1u16 << k)) & 8 != 0 <==> (m & 8 != 0 || k == 3),
        (m | (1u16 << k)) & 16 != 0 <==> (m & 16 != 0 || k == 4),
        (m | (1u16 << k)) & 32 != 0 <==> (m & 32 != 0 || k == 5),
        (m | (1u16 << k)) & 64 != 0 <==> (m & 64 != 0 || k == 6),
        (m | (1u16 << k)) & 128 != 0 <==> (m & 128 != 0 || k == 7),
        (m | (1u16 << k)) & 256 != 0 <==> (m & 256 != 0 || k == 8),
{
}

/// Clearing bit `k` of a mask of nine bits.
proof fn lemma_clear_bit(m: u16, k: u16)
    by (bit_vector)
    requires
        m < 512,
        k < 9,
    ensures
        (m & !(1u16 << k)) < 512,
        (m & !(1u16 << k)) & 1 != 0 <==> (m & 1 != 0 && k != 0),
        (m & !(1u16 << k)) & 2 != 0 <==> (m & 2 != 0 && k != 1),
        (m & !(1u16 << k)) & 4 != 0 <==> (m & 4 != 0 && k != 2),
        (m & !(1u16 << k)) & 8 != 0 <==> (m & 8 != 0 && k != 3),
        (m & !(1u16 << k)) & 16 != 0 <==> (m & 16 != 0 && k != 4),
        (m & !(1u16 << k)) & 32 != 0 <==> (m & 32 != 0 && k != 5),
        (m & !(1u16 << k)) & 64 != 0 <==> (m & 64 != 0 && k != 6),
        (m & !(1u16 << k)) & 128 != 0 <==> (m & 128 != 0 && k != 7),
        (m & !(1u16 << k)) & 256 != 0 <==> (m & 256 != 0 && k != 8),
{
}

/// Clearing the bit of the covered cell `(px, py)` uncovers that cell alone.
pub proof fn lemma_covers_clear(cx: int, cy: int, m: u16, k: u16, px: int, py: int)
    requires
        m < 512,
        cx <= px < cx + 3,
        cy <= py < cy + 3,
        k == (py - cy) * 3 + (px - cx),
    ensures
        (m & !(1u16 << k)) < 512,
        forall|x: int, y: int| #[trigger] covers_at(cx, cy, m & !(1u16 << k), x, y) == (covers_at(cx, cy, m, x, y) && !(x == px && y
            == py)),
{
    lemma_clear_bit(m, k);
    lemma_cell_cases(cx, cy, px, py);
    assert forall|x: int, y: int| #[trigger] covers_at(cx, cy, m & !(1u16 << k), x, y) == (covers_at(cx, cy, m, x, y) && !(x
        == px && y == py)) by {
        if cx <= x < cx + 3 && cy <= y < cy + 3 {
            lemma_cell_cases(cx, cy, x, y);
        }
    }
}

/// A mask with a bit in its left column, or in its top row.
proof fn lemma_corner_bits(m: u16)
    by (bit_vector)
    ensures
        m & 73 != 0 ==> (m & 1 != 0 || m & 8 != 0 || m & 64 != 0),
        m & 7 != 0 ==> (m & 1 != 0 || m & 2 != 0 || m & 4 != 0),
        m & 73 == 0 <==> (m & 1 == 0 && m & 8 == 0 && m & 64 == 0),
        m & 7 == 0 <==> (m & 1 == 0 && m & 2 == 0 && m & 4 == 0),
{
}

/// The mask read as a number is zero exactly when its nine bits are clear.
proof fn lemma_mask_zero(m: u16)
    by (bit_vector)
    requires
        m < 512,
    ensures
        m == 0 <==> (m & 1 == 0 && m & 2 == 0 && m & 4 == 0 && m & 8 == 0 && m & 16 == 0 && m & 32 == 0
            && m & 64 == 0 && m & 128 == 0 && m & 256 == 0),
{
}

/// Whether `(x, y)` lies on the board.
pub open spec fn in_grid(b: &Board, x: int, y: int) -> bool {
    0 <= x < b.w() && 0 <= y < b.h()
}

/// The cell of the board at `(x, y)`.
pub open spec fn cell_at(b: &Board, x: int, y: int) -> crate::state::Cell {
    b.cells()[index_of(b.w(), x, y)]
}

/// Whether `(px, py)` is a hidden cell of the board within one step of `(x, y)`.
pub open spec fn hidden_around(b: &Board, x: int, y: int, px: int, py: int) -> bool {
    &&& in_grid(b, px, py)
    &&& -1 <= px - x <= 1
    &&& -1 <= py - y <= 1
    &&& cell_at(b, px, py).visibility == Visibility::Hidden
}

/// 1 if the position `k` (0 to 8) of the square around `(x, y)` is a flagged
/// cell of the board.
pub open spec fn flag_val(b: &Board, x: int, y: int, k: int) -> int {
    let px = x + k % 3 - 1;
    let py = y + k / 3 - 1;
    if in_grid(b, px, py) && cell_at(b, px, py).visibility == Visibility::Flagged {
        1
    } else {
        0
    }
}

/// The number of flagged cells among the first `n` positions of the square
/// around `(x, y)`.
pub open spec fn flags_upto(b: &Board, x: int, y: int, n: int) -> int
    decreases n,
{
    if n <= 0 {
        0
    } else {
        flags_upto(b, x, y, n - 1) + flag_val(b, x, y, n - 1)
    }
}

/// The number of flagged cells around `(x, y)`.
pub open spec fn flags_around(b: &Board, x: int, y: int) -> int {
    flags_upto(b, x, y, 9)
}

proof fn lemma_flags_upto_mono(b: &Board, x: int, y: int, a: int, n: int)
    requires
        0 <= a <= n,
    ensures
        flags_upto(b, x, y, a) <= flags_upto(b, x, y, n),
    decreases n - a,
{
    if a < n {
        lemma_flags_upto_mono(b, x, y, a, n - 1);
    }
}

proof fn lemma_flags_upto_bounds(b: &Board, x: int, y: int, n: int)
    requires
        0 <= n,
    ensures
        0 <= flags_upto(b, x, y, n) <= n,
    decreases n,
{
    if n > 0 {
        lemma_flags_upto_bounds(b, x, y, n - 1);
    }
}

/// A 3x3 square of cells: which of them are hidden, and how many mines
/// those hold.
#[derive(Clone, Copy, PartialEq, Eq, PartialOrd, Ord, Structural, Debug)]
pub struct Constraint {
    /// top-left x co-ordinate of the 3x3 square
    pub x: usize,
    /// top-left y co-ordinate of the 3x3 square
    pub y: usize,
    /// 9 boolean values indicating mine positions
    pub mask: u16,
    /// Number of undiscovered mines in remaining set
    pub mines: u8,
}

impl Constraint {
    /// Whether the constraint covers the cell `(x, y)`.
    pub open spec fn covers(&self, x: int, y: int) -> bool {
        covers_at(self.x as int, self.y as int, self.mask, x, y)
    }

    /// The mask has no bit outside the 3 by 3 square.
    pub open spec fn mask_ok(&self) -> bool {
        self.mask < 512
    }

    /// The constraint formed by the revealed cell at `c`: its hidden
    /// neighbours hold its hint minus its flagged neighbours in mines. `None`
    /// when the cell is not revealed or has no hidden neighbour.
    pub fn from_grid(board: &Board, c: (usize, usize)) -> (r: Option<Self>)
        requires
            board.wf(),
            c.0 < board.grid.width,
            c.1 < board.grid.height,
            cell_at(board, c.0 as int, c.1 as int).visibility == Visibility::Revealed ==> flags_around(
                board,
                c.0 as int,
                c.1 as int,
            ) <= cell_at(board, c.0 as int, c.1 as int).adjacent_mines,
        ensures
            r is Some ==> cell_at(board, c.0 as int, c.1 as int).visibility == Visibility::Revealed,
            r is None ==> cell_at(board, c.0 as int, c.1 as int).visibility != Visibility::Revealed
                || forall|px: int, py: int| !hidden_around(board, c.0 as int, c.1 as int, px, py),
            r matches Some(k) ==> {
                &&& k.mines == cell_at(board, c.0 as int, c.1 as int).adjacent_mines - flags_around(
                    board,
                    c.0 as int,
                    c.1 as int,
                )
                &&& k.mask_ok()
                &&& k.mask != 0
                &&& k.mask & 73 != 0
                &&& k.mask & 7 != 0
                &&& k.x < board.grid.width
                &&& k.y < board.grid.height
                &&& forall|px: int, py: int| #[trigger] k.covers(px, py) == hidden_around(board, c.0 as int, c.1 as int, px, py)
            },
    {
        let (x, y) = c;
        let ghost xi = x as int;
        let ghost yi = y as int;
        let hint = match board.get_hint((x, y)) {
            Some(h) => h,
            None => return None,
        };
        let mut mask: u16 = 0;
        let mut mines_remaining: u8 = hint as u8;
        let mut hook_x: isize = x as isize - 1;
        let mut hook_y: isize = y as isize - 1;
        let region = board.get_region((hook_x, hook_y), (hook_x + 2, hook_y + 2));
        assert(region.len() == 9) by {
            assert(3 * 3 == 9);
        }
        proof {
            lemma_flags_upto_bounds(board, xi, yi, 9);
            lemma_zero_mask(mask);
        }
        let mut bit_i: usize = 0;
        while bit_i < 9
            invariant
                board.wf(),
                x < board.grid.width,
                y < board.grid.height,
                xi == x,
                yi == y,
                hook_x == x - 1,
                hook_y == y - 1,
                region.len() == 9,
                forall|k: int| 0 <= k < 9 ==> #[trigger] region@[k] == cell_opt(board.w(), board.h(), hook_x + k % 3, hook_y + k / 3),
                bit_i <= 9,
                mask < 512,
                forall|k: int| 0 <= k < 9 ==> (#[trigger] bit(mask, k) <==> (k < bit_i && in_grid(board, xi + k % 3 - 1, yi + k / 3 - 1)
                    && cell_at(board, xi + k % 3 - 1, yi + k / 3 - 1).visibility == Visibility::Hidden)),
                mines_remaining == cell_at(board, xi, yi).adjacent_mines - flags_upto(board, xi, yi, bit_i as int),
                flags_upto(board, xi, yi, 9) <= cell_at(board, xi, yi).adjacent_mines,
            decreases 9 - bit_i,
        {
            proof {
                lemma_flags_upto_bounds(board, xi, yi, bit_i as int);
                lemma_flags_upto_mono(board, xi, yi, bit_i + 1, 9);
            }
            let ghost old_mask = mask;
            let ghost px = xi + bit_i as int % 3 - 1;
            let ghost py = yi + bit_i as int / 3 - 1;
            assert(region@[bit_i as int] == cell_opt(board.w(), board.h(), px, py));
            if let Some(nbr_c) = region[bit_i] {
                match board.peek(nbr_c) {
                    Visibility::Hidden => {
                        proof {
                            lemma_set_bit(mask, bit_i as u16);
                        }
                        mask = mask | (1u16 << (bit_i as u16));
                    },
                    Visibility::Flagged => {
                        mines_remaining = mines_remaining - 1;
                    },
                    _ => {},
                }
            }
            proof {
                assert forall|k: int| 0 <= k < 9 implies (#[trigger] bit(mask, k) <==> (k < bit_i + 1 && in_grid(board, xi + k % 3 - 1, yi + k / 3 - 1)
                    && cell_at(board, xi + k % 3 - 1, yi + k / 3 - 1).visibility == Visibility::Hidden)) by {
                    if k != bit_i {
                        assert(bit(old_mask, k) == bit(mask, k));
                    }
                }
            }
            bit_i = bit_i + 1;
        }
        let ghost m0 = mask;
        let ghost hx0 = hook_x as int;
        let ghost hy0 = hook_y as int;
        proof {
            assert forall|px: int, py: int| covers_at(hx0, hy0, mask, px, py) == hidden_around(board, xi, yi, px, py) by {
                if hx0 <= px < hx0 + 3 && hy0 <= py < hy0 + 3 {
                    lemma_cell_cases(hx0, hy0, px, py);
                }
            }
            lemma_corner_bits(mask);
        }
        if hook_x == -1 {
            proof {
                assert(!bit(mask, 0) && !bit(mask, 3) && !bit(mask, 6));
                assert forall|px: int, py: int| covers_at(0, hook_y as int, mask >> 1u16, px, py) == hidden_around(board, xi, yi, px, py) by {
                    lemma_covers_shift_col(-1, hook_y as int, mask, px, py);
                }
            }
            mask = mask >> 1;
            hook_x = 0;
            proof {
                lemma_shift_col(m0);
            }
        }
        let ghost m1 = mask;
        if hook_y == -1 {
            proof {
                lemma_corner_bits(mask);
                assert(!covers_at(hx0, hy0, m0, xi - 1, yi - 1) && !covers_at(hx0, hy0, m0, xi, yi - 1) && !covers_at(hx0, hy0, m0, xi + 1, yi - 1));
                assert(!covers_at(hook_x as int, -1, mask, xi - 1, -1) && !covers_at(hook_x as int, -1, mask, xi, -1) && !covers_at(hook_x as int, -1, mask, xi + 1, -1));
                assert forall|px: int, py: int| covers_at(hook_x as int, 0, mask >> 3u16, px, py) == hidden_around(board, xi, yi, px, py) by {
                    lemma_covers_shift_row(hook_x as int, -1, mask, px, py);
                }
            }
            mask = mask >> 3;
            hook_y = 0;
            proof {
                lemma_shift_row(m1);
            }
        }
        let k = Constraint { x: hook_x as usize, y: hook_y as usize, mask, mines: mines_remaining };
        assert(forall|px: int, py: int| #[trigger] k.covers(px, py) == hidden_around(board, xi, yi, px, py));
        let r = k.normalised();
        proof {
            if let Some(n) = r {
                lemma_corner_bits(n.mask);
                let (px, py) = if n.mask & 1 != 0 {
                    (n.x as int, n.y as int)
                } else if n.mask & 8 != 0 {
                    (n.x as int, n.y + 1)
                } else {
                    (n.x as int, n.y + 2)
                };
                assert(n.covers(px, py));
                let (qx, qy) = if n.mask & 1 != 0 {
                    (n.x as int, n.y as int)
                } else if n.mask & 2 != 0 {
                    (n.x + 1, n.y as int)
                } else {
                    (n.x + 2, n.y as int)
                };
                assert(n.covers(qx, qy));
            } else {
                lemma_mask_zero(mask);
                assert forall|px: int, py: int| !hidden_around(board, xi, yi, px, py) by {
                    if hidden_around(board, xi, yi, px, py) {
                        assert(k.covers(px, py));
                        lemma_cell_cases(k.x as int, k.y as int, px, py);
                    }
                }
            }
        }
        r
    }

    /// Whether 1. the cell is in the range of this constraint AND 2. the mask
    /// has the bit of this cell set
    pub fn contains(&self, c: (usize, usize)) -> (r: bool)
        requires
            self.x < usize::MAX,
            self.y < usize::MAX,
        ensures
            r == self.covers(c.0 as int, c.1 as int),
    {
        let (x, y) = c;
        let cx = self.x + 1;
        let cy = self.y + 1;
        let ax = if cx > x { cx - x } else { x - cx };
        let ay = if cy > y { cy - y } else { y - cy };
        if ax > 1 || ay > 1 {
            return false;
        }
        let bit_index = (y - self.y) * 3 + (x - self.x);
        bit_index < 9 && test_bit(self.mask, bit_index)
    }

    /// The co-ordinates of the cells whose bits are set in `mask`, for a
    /// square with its top-left corner at `c`, in the order of the bits.
    fn masked_cells_raw(c: (usize, usize), mask: u16) -> (r: Vec<(usize, usize)>)
        requires
            c.0 + 2 <= usize::MAX,
            c.1 + 2 <= usize::MAX,
            mask < 512,
        ensures
            r.len() == popcount9(mask),
            r@.no_duplicates(),
            forall|p: (usize, usize)| r@.contains(p) <==> covers_at(c.0 as int, c.1 as int, mask, p.0 as int, p.1 as int),
            row_major(r@),
    {
        let (x, y) = c;
        let mut r: Vec<(usize, usize)> = Vec::new();
        let mut i: usize = 0;
        let ghost mut ks: Seq<int> = Seq::empty();
        while i < 9
            invariant
                c == (x, y),
                x + 2 <= usize::MAX,
                y + 2 <= usize::MAX,
                i <= 9,
                r.len() == ks.len(),
                r.len() == bit_val(mask, 0) * (if 0 < i { 1int } else { 0 }) + bit_val(mask, 1) * (if 1 < i { 1int } else { 0 })
                    + bit_val(mask, 2) * (if 2 < i { 1int } else { 0 }) + bit_val(mask, 3) * (if 3 < i { 1int } else { 0 })
                    + bit_val(mask, 4) * (if 4 < i { 1int } else { 0 }) + bit_val(mask, 5) * (if 5 < i { 1int } else { 0 })
                    + bit_val(mask, 6) * (if 6 < i { 1int } else { 0 }) + bit_val(mask, 7) * (if 7 < i { 1int } else { 0 })
                    + bit_val(mask, 8) * (if 8 < i { 1int } else { 0 }),
                forall|q: int| 0 <= q < ks.len() ==> 0 <= #[trigger] ks[q] < i && bit(mask, ks[q]),
                forall|q1: int, q2: int| 0 <= q1 < q2 < ks.len() ==> ks[q1] < ks[q2],
                forall|q: int| 0 <= q < r.len() ==> #[trigger] r@[q] == ((x + ks[q] % 3) as usize, (y + ks[q] / 3) as usize),
                forall|k: int| 0 <= k < i && bit(mask, k) ==> ks.contains(k),
            decreases 9 - i,
        {
            if test_bit(mask, i) {
                r.push((x + i % 3, y + i / 3));
                proof {
                    let old_ks = ks;
                    ks = ks.push(i as int);
                    assert forall|k: int| 0 <= k < i && bit(mask, k) implies ks.contains(k) by {
                        let q = choose|q: int| 0 <= q < old_ks.len() && old_ks[q] == k;
                        assert(ks[q] == k);
                    }
                    assert(ks[ks.len() - 1] == i);
                }
            }
            i = i + 1;
        }
        proof {
            assert forall|q1: int, q2: int| 0 <= q1 < q2 < r.len() implies (#[trigger] r@[q1]).1 < (#[trigger] r@[q2]).1 || (
            r@[q1].1 == r@[q2].1 && r@[q1].0 < r@[q2].0) by {
                let k1 = ks[q1];
                let k2 = ks[q2];
                assert(k1 < k2);
                assert(k1 / 3 < k2 / 3 || (k1 / 3 == k2 / 3 && k1 % 3 < k2 % 3)) by (nonlinear_arith)
                    requires
                        0 <= k1 < k2 < 9,
                ;
            }
            assert forall|q1: int, q2: int| 0 <= q1 < r.len() && 0 <= q2 < r.len() && q1 != q2 implies r@[q1] != r@[q2] by {
                let k1 = ks[q1];
                let k2 = ks[q2];
                assert(k1 != k2) by {
                    if q1 < q2 {
                        assert(ks[q1] < ks[q2]);
                    } else {
                        assert(ks[q2] < ks[q1]);
                    }
                }
                assert(k1 == (k1 / 3) * 3 + k1 % 3);
                assert(k2 == (k2 / 3) * 3 + k2 % 3);
            }
            assert forall|p: (usize, usize)| r@.contains(p) <==> covers_at(x as int, y as int, mask, p.0 as int, p.1 as int) by {
                if r@.contains(p) {
                    let q = choose|q: int| 0 <= q < r.len() && r@[q] == p;
                    let k = ks[q];
                    assert((y + k / 3 - y) * 3 + (x + k % 3 - x) == k);
                }
                if covers_at(x as int, y as int, mask, p.0 as int, p.1 as int) {
                    let k = (p.1 - y) * 3 + (p.0 - x);
                    assert(0 <= k < 9);
                    assert(ks.contains(k));
                    let q = choose|q: int| 0 <= q < ks.len() && ks[q] == k;
                    assert(k % 3 == p.0 - x && k / 3 == p.1 - y);
                    assert(r@[q] == p);
                }
            }
        }
        r
    }

    /// Iterate over co-ordinates of all hidden cells in the mask, row by row
    /// from the top-left.
    pub fn masked_cells(&self) -> (r: Vec<(usize, usize)>)
        requires
            self.x + 2 <= usize::MAX,
            self.y + 2 <= usize::MAX,
            self.mask_ok(),
        ensures
            r.len() == popcount9(self.mask),
            r@.no_duplicates(),
            forall|p: (usize, usize)| r@.contains(p) <==> self.covers(p.0 as int, p.1 as int),
            row_major(r@),
    {
        Self::masked_cells_raw((self.x, self.y), self.mask)
    }

    /// Returns a new mask representing the intersection (or difference)
    /// of two masks, aligned to `self`'s coordinate system. Does not modify existing values.
    pub fn munge(&self, other: Constraint, diff: bool) -> (r: u16)
        requires
            self.mask_ok(),
            other.mask_ok(),
        ensures
            r < 512,
            forall|x: int, y: int|
                #[trigger] covers_at(self.x as int, self.y as int, r, x, y) == (self.covers(x, y) && (
                other.covers(x, y) != diff)),
    {
        let mut o = other;
        let sx = self.x;
        let sy = self.y;
        let dx = if sx > o.x { sx - o.x } else { o.x - sx };
        let dy = if sy > o.y { sy - o.y } else { o.y - sy };
        if dx >= 3 || dy >= 3 {
            o.mask = 0;
            o.x = sx;
            o.y = sy;
            proof {
                lemma_zero_mask(o.mask);
                assert forall|x: int, y: int| sx <= x < sx + 3 && sy <= y < sy + 3 implies #[trigger] covers_at(
                    sx as int,
                    sy as int,
                    o.mask,
                    x,
                    y,
                ) == other.covers(x, y) by {
                    lemma_cell_cases(sx as int, sy as int, x, y);
                }
            }
        } else {
            while o.x > sx
                invariant
                    o.mask < 512,
                    forall|x: int, y: int| sx <= x < sx + 3 && sy <= y < sy + 3 ==> #[trigger] covers_at(
                        o.x as int,
                        o.y as int,
                        o.mask,
                        x,
                        y,
                    ) == other.covers(x, y),
                decreases o.x - sx,
            {
                let m2 = (o.mask & !0b100_100_100u16) << 1;
                proof {
                    lemma_munge_right(o.mask);
                    assert forall|x: int, y: int| sx <= x < sx + 3 && sy <= y < sy + 3 implies #[trigger] covers_at(
                        o.x - 1,
                        o.y as int,
                        m2,
                        x,
                        y,
                    ) == other.covers(x, y) by {
                        lemma_window_step(o.x as int, o.y as int, o.mask, m2, sx as int, sy as int, x, y, 0);
                    }
                }
                o.mask = m2;
                o.x = o.x - 1;
            }
            while o.x < sx
                invariant
                    o.mask < 512,
                    o.x <= sx,
                    forall|x: int, y: int| sx <= x < sx + 3 && sy <= y < sy + 3 ==> #[trigger] covers_at(
                        o.x as int,
                        o.y as int,
                        o.mask,
                        x,
                        y,
                    ) == other.covers(x, y),
                decreases sx - o.x,
            {
                let m2 = (o.mask & !0b001_001_001u16) >> 1;
                proof {
                    lemma_munge_left(o.mask);
                    assert forall|x: int, y: int| sx <= x < sx + 3 && sy <= y < sy + 3 implies #[trigger] covers_at(
                        o.x + 1,
                        o.y as int,
                        m2,
                        x,
                        y,
                    ) == other.covers(x, y) by {
                        lemma_window_step(o.x as int, o.y as int, o.mask, m2, sx as int, sy as int, x, y, 1);
                    }
                }
                o.mask = m2;
                o.x = o.x + 1;
            }
            while o.y > sy
                invariant
                    o.mask < 512,
                    o.x == sx,
                    forall|x: int, y: int| sx <= x < sx + 3 && sy <= y < sy + 3 ==> #[trigger] covers_at(
                        o.x as int,
                        o.y as int,
                        o.mask,
                        x,
                        y,
                    ) == other.covers(x, y),
                decreases o.y - sy,
            {
                let m2 = (o.mask & !0b111_000_000u16) << 3;
                proof {
                    lemma_munge_down(o.mask);
                    assert forall|x: int, y: int| sx <= x < sx + 3 && sy <= y < sy + 3 implies #[trigger] covers_at(
                        o.x as int,
                        o.y - 1,
                        m2,
                        x,
                        y,
                    ) == other.covers(x, y) by {
                        lemma_window_step(o.x as int, o.y as int, o.mask, m2, sx as int, sy as int, x, y, 2);
                    }
                }
                o.mask = m2;
                o.y = o.y - 1;
            }
            while o.y < sy
                invariant
                    o.mask < 512,
                    o.x == sx,
                    o.y <= sy,
                    forall|x: int, y: int| sx <= x < sx + 3 && sy <= y < sy + 3 ==> #[trigger] covers_at(
                        o.x as int,
                        o.y as int,
                        o.mask,
                        x,
                        y,
                    ) == other.covers(x, y),
                decreases sy - o.y,
            {
                let m2 = o.mask >> 3;
                proof {
                    lemma_munge_up(o.mask);
                    assert forall|x: int, y: int| sx <= x < sx + 3 && sy <= y < sy + 3 implies #[trigger] covers_at(
                        o.x as int,
                        o.y + 1,
                        m2,
                        x,
                        y,
                    ) == other.covers(x, y) by {
                        lemma_window_step(o.x as int, o.y as int, o.mask, m2, sx as int, sy as int, x, y, 3);
                    }
                }
                o.mask = m2;
                o.y = o.y + 1;
            }
        }
        let om = o.mask;
        let aligned = if diff { om ^ 0b111_111_111 } else { om };
        let r = self.mask & aligned;
        proof {
            lemma_munge_combine(self.mask, om);
            assert forall|x: int, y: int| #[trigger] covers_at(self.x as int, self.y as int, r, x, y) == (self.covers(x, y) && (
                other.covers(x, y) != diff)) by {
                if sx <= x < sx + 3 && sy <= y < sy + 3 {
                    lemma_cell_cases(sx as int, sy as int, x, y);
                    assert(covers_at(o.x as int, o.y as int, o.mask, x, y) == other.covers(x, y));
                }
            }
        }
        r
    }

    /// Shifts the constraint so that both its left column and its top row
    /// hold a covered cell; `None` when it covers no cell.
    pub fn normalised(self) -> (r: Option<Self>)
        requires
            self.mask_ok(),
            self.x + 2 <= usize::MAX,
            self.y + 2 <= usize::MAX,
        ensures
            self.mask == 0 <==> r is None,
            r matches Some(c) ==> {
                &&& c.mines == self.mines
                &&& c.mask_ok()
                &&& c.mask & 73 != 0
                &&& c.mask & 7 != 0
                &&& self.x <= c.x <= self.x + 2
                &&& self.y <= c.y <= self.y + 2
                &&& forall|x: int, y: int| #[trigger] c.covers(x, y) == self.covers(x, y)
            },
            self.mask & 73 != 0 && self.mask & 7 != 0 ==> r == Some(self),
    {
        if self.mask == 0 {
            let m: u16 = self.mask;
            assert(m & 73 == 0) by (bit_vector)
                requires
                    m == 0,
            ;
            return None;
        }
        let mut c = self;
        let ghost m0 = self.mask;
        while c.mask & 73 == 0
            invariant
                c.mines == self.mines,
                c.mask < 512,
                c.mask != 0,
                c.y == self.y,
                self.x <= c.x <= self.x + 2,
                c.x == self.x + 2 ==> c.mask & 73 != 0,
                self.x + 2 <= usize::MAX,
                c.x == self.x + 1 ==> c.mask == m0 >> 1u16 && m0 & 73 == 0,
                c.x == self.x + 2 ==> c.mask == m0 >> 2u16,
                c.x == self.x ==> c.mask == m0,
                m0 < 512,
                m0 != 0,
                forall|x: int, y: int| #[trigger] c.covers(x, y) == self.covers(x, y),
                self.mask & 73 != 0 ==> c == self,
            decreases c.mask,
        {
            proof {
                lemma_shift_col(c.mask);
                if c.x == self.x + 1 {
                    lemma_shift_col(m0);
                }
                assert forall|x: int, y: int| covers_at(c.x + 1, c.y as int, c.mask >> 1u16, x, y) == self.covers(x, y) by {
                    lemma_covers_shift_col(c.x as int, c.y as int, c.mask, x, y);
                    assert(c.covers(x, y) == self.covers(x, y));
                }
            }
            c.mask = c.mask >> 1;
            c.x = c.x + 1;
        }
        let ghost m1 = c.mask;
        while c.mask & 7 == 0
            invariant
                c.mines == self.mines,
                c.mask < 512,
                c.mask != 0,
                c.mask & 73 != 0,
                self.x <= c.x <= self.x + 2,
                self.y <= c.y <= self.y + 2,
                c.y == self.y + 2 ==> c.mask & 7 != 0,
                self.y + 2 <= usize::MAX,
                c.y == self.y + 1 ==> c.mask == m1 >> 3u16 && m1 & 7 == 0,
                c.y == self.y + 2 ==> c.mask == m1 >> 6u16,
                c.y == self.y ==> c.mask == m1,
                m1 < 512,
                m1 != 0,
                forall|x: int, y: int| #[trigger] c.covers(x, y) == self.covers(x, y),
                self.mask & 73 != 0 && self.mask & 7 != 0 ==> c == self,
            decreases c.mask,
        {
            proof {
                lemma_shift_row(c.mask);
                lemma_left_col_kept(c.mask);
                if c.y == self.y + 1 {
                    lemma_shift_row(m1);
                }
                assert forall|x: int, y: int| covers_at(c.x as int, c.y + 1, c.mask >> 3u16, x, y) == self.covers(x, y) by {
                    lemma_covers_shift_row(c.x as int, c.y as int, c.mask, x, y);
                    assert(c.covers(x, y) == self.covers(x, y));
                }
            }
            c.mask = c.mask >> 3;
            c.y = c.y + 1;
        }
        assert(self.mask & 73 != 0 && self.mask & 7 != 0 ==> c == self);
        Some(c)
    }
}


/// Two constraints cover a common cell.
pub open spec fn overlaps(a: Constraint, b: Constraint) -> bool {
    exists|x: int, y: int| #[trigger] a.covers(x, y) && #[trigger] b.covers(x, y)
}

/// Constraint `k` of `s` overlaps one before it.
pub open spec fn overlaps_earlier(s: Seq<Constraint>, k: int) -> bool {
    exists|j: int| #![trigger s[j]] 0 <= j < k && overlaps(s[j], s[k])
}

/// Every constraint of `s` after the first overlaps one before it.
#[verifier::opaque]
pub open spec fn chained(s: Seq<Constraint>) -> bool {
    forall|k: int| 0 < k < s.len() ==> #[trigger] overlaps_earlier(s, k)
}

/// The constraints of `g` cannot be split in two parts without a constraint
/// of one part overlapping one of the other.
pub open spec fn connected(g: Seq<Constraint>) -> bool {
    forall|part: Set<Constraint>, a: int, b: int|
        #![trigger part.contains(g[a]), part.contains(g[b])]
        0 <= a < g.len() && 0 <= b < g.len() && part.contains(g[a]) && !part.contains(g[b]) ==> exists|i: int, j: int|
            #![trigger g[i], g[j]]
            0 <= i < g.len() && 0 <= j < g.len() && part.contains(g[i]) && !part.contains(g[j]) && overlaps(g[i], g[j])
}

/// Overlapping is symmetric.
pub proof fn lemma_overlaps_sym(a: Constraint, b: Constraint)
    ensures
        overlaps(a, b) == overlaps(b, a),
{
    if overlaps(a, b) {
        let (x, y) = choose|x: int, y: int| a.covers(x, y) && b.covers(x, y);
        assert(b.covers(x, y) && a.covers(x, y));
    }
    if overlaps(b, a) {
        let (x, y) = choose|x: int, y: int| b.covers(x, y) && a.covers(x, y);
        assert(a.covers(x, y) && b.covers(x, y));
    }
}

/// One constraint alone is a chain.
proof fn lemma_chained_one(e: Constraint)
    ensures
        chained(seq![e]),
{
    reveal(chained);
}

/// A chain stays one with a constraint that overlaps one of it added.
proof fn lemma_chained_push(o: Seq<Constraint>, e: Constraint, j: int)
    requires
        chained(o),
        0 <= j < o.len(),
        overlaps(o[j], e),
    ensures
        chained(o.push(e)),
{
    reveal(chained);
    let o1 = o.push(e);
    assert forall|kk: int| 0 < kk < o1.len() implies #[trigger] overlaps_earlier(o1, kk) by {
        if kk < o.len() {
            assert(overlaps_earlier(o, kk));
            let jj = choose|jj: int| #![trigger o[jj]] 0 <= jj < kk && overlaps(o[jj], o[kk]);
            assert(o1[jj] == o[jj] && o1[kk] == o[kk]);
        } else {
            assert(o1[j] == o[j]);
            assert(o1[kk] == e);
        }
    }
}

/// In a chain, a part that holds some of the first `n` constraints but not
/// the same as the first has a constraint overlapping one outside it.
proof fn lemma_chained_crossing(o: Seq<Constraint>, part: Set<Constraint>, n: int)
    requires
        chained(o),
        0 < n <= o.len(),
        exists|k: int| #![trigger o[k]] 0 <= k < n && part.contains(o[k]) != part.contains(o[0]),
    ensures
        exists|i: int, j: int|
            #![trigger o[i], o[j]]
            0 <= i < o.len() && 0 <= j < o.len() && part.contains(o[i]) && !part.contains(o[j]) && overlaps(o[i], o[j]),
    decreases n,
{
    reveal(chained);
    if exists|k: int| #![trigger o[k]] 0 <= k < n - 1 && part.contains(o[k]) != part.contains(o[0]) {
        lemma_chained_crossing(o, part, n - 1);
    } else {
        let k = n - 1;
        assert(part.contains(o[k]) != part.contains(o[0]));
        assert(0 < k);
        assert(overlaps_earlier(o, k));
        let j = choose|j: int| #![trigger o[j]] 0 <= j < k && overlaps(o[j], o[k]);
        assert(part.contains(o[j]) == part.contains(o[0]));
        lemma_overlaps_sym(o[j], o[k]);
        if part.contains(o[j]) {
            assert(part.contains(o[j]) && !part.contains(o[k]) && overlaps(o[j], o[k]));
        } else {
            assert(part.contains(o[k]) && !part.contains(o[j]) && overlaps(o[k], o[j]));
        }
    }
}

/// A chain is connected, and so is any sequence with the same constraints.
proof fn lemma_chained_connected(o: Seq<Constraint>, g: Seq<Constraint>)
    requires
        chained(o),
        g.to_multiset() == o.to_multiset(),
    ensures
        connected(g),
{
    assert forall|part: Set<Constraint>, a: int, b: int|
        #![trigger part.contains(g[a]), part.contains(g[b])]
        0 <= a < g.len() && 0 <= b < g.len() && part.contains(g[a]) && !part.contains(g[b]) implies exists|i: int, j: int|
            #![trigger g[i], g[j]]
            0 <= i < g.len() && 0 <= j < g.len() && part.contains(g[i]) && !part.contains(g[j]) && overlaps(g[i], g[j]) by {
        vstd::seq_lib::to_multiset_contains(g, g[a]);
        vstd::seq_lib::to_multiset_contains(g, g[b]);
        assert(g.contains(g[a]) && g.contains(g[b]));
        assert(o.contains(g[a]) && o.contains(g[b])) by {
            o.to_multiset_ensures();
            g.to_multiset_ensures();
        }
        let a2 = choose|a2: int| 0 <= a2 < o.len() && o[a2] == g[a];
        let b2 = choose|b2: int| 0 <= b2 < o.len() && o[b2] == g[b];
        if part.contains(o[0]) {
            assert(part.contains(o[b2]) != part.contains(o[0]));
        } else {
            assert(part.contains(o[a2]) != part.contains(o[0]));
        }
        lemma_chained_crossing(o, part, o.len() as int);
        let (i, j) = choose|i: int, j: int|
            #![trigger o[i], o[j]]
            0 <= i < o.len() && 0 <= j < o.len() && part.contains(o[i]) && !part.contains(o[j]) && overlaps(o[i], o[j]);
        assert(o.contains(o[i]) && o.contains(o[j]));
        vstd::seq_lib::to_multiset_contains(o, o[i]);
        vstd::seq_lib::to_multiset_contains(o, o[j]);
        vstd::seq_lib::to_multiset_contains(g, o[i]);
        vstd::seq_lib::to_multiset_contains(g, o[j]);
        let i2 = choose|i2: int| 0 <= i2 < g.len() && g[i2] == o[i];
        let j2 = choose|j2: int| 0 <= j2 < g.len() && g[j2] == o[j];
        assert(part.contains(g[i2]) && !part.contains(g[j2]) && overlaps(g[i2], g[j2]));
    }
}

/// `a` comes no later than `b` in a group: it has more mines, or as many and
/// is at least as dense (with mines, no more cells).
pub open spec fn rank_ge(a: Constraint, b: Constraint) -> bool {
    a.mines > b.mines || (a.mines == b.mines && (a.mines == 0 || popcount9(a.mask) <= popcount9(b.mask)))
}

/// The constraints come in group order.
pub open spec fn group_sorted(s: Seq<Constraint>) -> bool {
    forall|i: int, j: int| 0 <= i < j < s.len() ==> rank_ge(#[trigger] s[i], #[trigger] s[j])
}

/// The groups one after the other.
pub open spec fn concat_groups(g: Seq<Vec<Constraint>>) -> Seq<Constraint>
    decreases g.len(),
{
    if g.len() == 0 {
        Seq::empty()
    } else {
        concat_groups(g.drop_last()) + g.last()@
    }
}

/// A constraint of one of the groups is among the groups one after the other.
pub proof fn lemma_concat_contains(gs: Seq<Vec<Constraint>>, g: int, e: Constraint)
    requires
        0 <= g < gs.len(),
        gs[g]@.contains(e),
    ensures
        concat_groups(gs).contains(e),
    decreases gs.len(),
{
    let front = concat_groups(gs.drop_last());
    if g == gs.len() - 1 {
        let k = choose|k: int| 0 <= k < gs[g]@.len() && gs[g]@[k] == e;
        assert(concat_groups(gs)[front.len() + k] == e);
    } else {
        assert(gs.drop_last()[g] == gs[g]);
        lemma_concat_contains(gs.drop_last(), g, e);
        let k = choose|k: int| 0 <= k < front.len() && front[k] == e;
        assert(concat_groups(gs)[k] == e);
    }
}

/// The intersection mask of two constraints is zero exactly when they
/// share no cell.
pub proof fn lemma_munge_overlap(a: Constraint, b: Constraint, r: u16)
    requires
        r < 512,
        forall|x: int, y: int| #[trigger] covers_at(a.x as int, a.y as int, r, x, y) == (a.covers(x, y) && b.covers(x, y)),
    ensures
        (r == 0) == !overlaps(a, b),
{
    lemma_mask_zero(r);
    if r == 0 {
        assert forall|x: int, y: int| !(#[trigger] a.covers(x, y) && #[trigger] b.covers(x, y)) by {
            assert(!covers_at(a.x as int, a.y as int, r, x, y));
        }
    } else {
        let k: int = if bit(r, 0) { 0 } else if bit(r, 1) { 1 } else if bit(r, 2) { 2 } else if bit(r, 3) { 3 } else if bit(r, 4) {
            4
        } else if bit(r, 5) { 5 } else if bit(r, 6) { 6 } else if bit(r, 7) { 7 } else { 8 };
        let x = a.x + k % 3;
        let y = a.y + k / 3;
        assert((y - a.y) * 3 + (x - a.x) == k);
        assert(covers_at(a.x as int, a.y as int, r, x, y));
        assert(a.covers(x, y) && b.covers(x, y));
    }
}

/// The cells come row by row from the top, each row from the left.
pub open spec fn row_major(s: Seq<(usize, usize)>) -> bool {
    forall|q1: int, q2: int|
        0 <= q1 < q2 < s.len() ==> (#[trigger] s[q1]).1 < (#[trigger] s[q2]).1 || (s[q1].1 == s[q2].1 && s[q1].0 < s[q2].0)
}

/// Whether `a` comes no later than `b` in a group.
fn ranks_no_later(a: &Constraint, b: &Constraint) -> (r: bool)
    requires
        a.mask_ok(),
        b.mask_ok(),
    ensures
        r == rank_ge(*a, *b),
{
    let ca = count_ones(a.mask);
    let cb = count_ones(b.mask);
    a.mines > b.mines || (a.mines == b.mines && (a.mines == 0 || ca <= cb))
}

/// The constraints of a group in group order: more mines first, then the
/// denser first (for equal mines, fewer cells).
fn sort_group(v: &Vec<Constraint>) -> (r: Vec<Constraint>)
    requires
        forall|k: int| 0 <= k < v@.len() ==> (#[trigger] v@[k]).mask_ok(),
    ensures
        r@.to_multiset() == v@.to_multiset(),
        r@.len() == v@.len(),
        group_sorted(r@),
{
    let mut r: Vec<Constraint> = Vec::new();
    let mut k: usize = 0;
    proof {
        assert(v@.subrange(0, 0) =~= r@);
    }
    while k < v.len()
        invariant
            k <= v.len(),
            forall|q: int| 0 <= q < v@.len() ==> (#[trigger] v@[q]).mask_ok(),
            r@.to_multiset() == v@.subrange(0, k as int).to_multiset(),
            r@.len() == k,
            forall|q: int| 0 <= q < r@.len() ==> (#[trigger] r@[q]).mask_ok(),
            group_sorted(r@),
        decreases v.len() - k,
    {
        let c = v[k];
        let mut p: usize = 0;
        while p < r.len() && ranks_no_later(&r[p], &c)
            invariant
                p <= r.len(),
                c.mask_ok(),
                forall|q: int| 0 <= q < r@.len() ==> (#[trigger] r@[q]).mask_ok(),
                forall|q: int| 0 <= q < p ==> rank_ge(#[trigger] r@[q], c),
            decreases r.len() - p,
        {
            p = p + 1;
        }
        let ghost old_r = r@;
        r.insert(p, c);
        proof {
            vstd::seq_lib::to_multiset_insert(old_r, p as int, c);
            assert(v@.subrange(0, k + 1) =~= v@.subrange(0, k as int).push(c));
            vstd::seq_lib::to_multiset_build(v@.subrange(0, k as int), c);
            if p < old_r.len() {
                assert(!rank_ge(old_r[p as int], c));
            }
            assert forall|i: int, j: int| 0 <= i < j < r@.len() implies rank_ge(#[trigger] r@[i], #[trigger] r@[j]) by {
                if j < p {
                    assert(r@[i] == old_r[i] && r@[j] == old_r[j]);
                } else if j == p {
                    assert(r@[i] == old_r[i]);
                } else if i == p {
                    assert(r@[j] == old_r[j - 1]);
                    if j - 1 > p {
                        assert(rank_ge(old_r[p as int], old_r[j - 1]));
                    }
                } else if i < p {
                    assert(r@[i] == old_r[i] && r@[j] == old_r[j - 1]);
                } else {
                    assert(r@[i] == old_r[i - 1] && r@[j] == old_r[j - 1]);
                }
            }
            assert forall|q: int| 0 <= q < r@.len() implies (#[trigger] r@[q]).mask_ok() by {
                if q < p {
                    assert(r@[q] == old_r[q]);
                } else if q > p {
                    assert(r@[q] == old_r[q - 1]);
                }
            }
        }
        k = k + 1;
    }
    assert(v@.subrange(0, v@.len() as int) =~= v@);
    r
}

/// `groups` splits `input` into groups as `into_constraint_groups` does:
/// each group connected and sorted, no constraint overlapping one of another
/// group, the groups in the order in which they first appear in `input`.
pub open spec fn groups_of(input: Seq<Constraint>, groups: Seq<Vec<Constraint>>) -> bool {
    &&& concat_groups(groups).to_multiset() == input.to_multiset()
    &&& forall|g: int| 0 <= g < groups.len() ==> (#[trigger] groups[g])@.len() > 0 && group_sorted(groups[g]@) && connected(groups[g]@)
    &&& forall|g1: int, g2: int, a: int, b: int|
        0 <= g1 < groups.len() && 0 <= g2 < groups.len() && g1 != g2 && 0 <= a < groups[g1]@.len() && 0 <= b < groups[g2]@.len()
            ==> !overlaps(#[trigger] groups[g1]@[a], #[trigger] groups[g2]@[b])
    &&& first_appearance_order(input, groups)
}

/// `pool` is `input` at the increasing positions `idx`.
pub open spec fn tracks(input: Seq<Constraint>, pool: Seq<Constraint>, idx: Seq<int>) -> bool {
    &&& idx.len() == pool.len()
    &&& forall|k: int| 0 <= k < idx.len() ==> 0 <= #[trigger] idx[k] < input.len() && pool[k] == input[idx[k]]
    &&& forall|k1: int, k2: int| 0 <= k1 < k2 < idx.len() ==> idx[k1] < idx[k2]
}

/// The constraint at position `j` of `input` is in one of the first `g`
/// groups.
pub open spec fn earlier_group(input: Seq<Constraint>, groups: Seq<Vec<Constraint>>, g: int, j: int) -> bool {
    exists|g2: int| 0 <= g2 < g && #[trigger] groups[g2]@.contains(input[j])
}

/// Group `g` holds the constraint at position `leads[g]` of `input`, the
/// positions increase, and every constraint before position `leads[g]` is
/// in an earlier group.
pub open spec fn leads_ok(input: Seq<Constraint>, groups: Seq<Vec<Constraint>>, leads: Seq<int>) -> bool {
    &&& leads.len() == groups.len()
    &&& forall|g: int| 0 <= g < leads.len() ==> 0 <= #[trigger] leads[g] < input.len() && groups[g]@.contains(input[leads[g]])
    &&& forall|g1: int, g2: int| 0 <= g1 < g2 < leads.len() ==> leads[g1] < leads[g2]
    &&& forall|g: int, j: int| 0 <= g < leads.len() && 0 <= j < leads[g] ==> #[trigger] earlier_group(input, groups, g, j)
}

/// The groups come in the order in which their first constraint comes in
/// `input`.
pub open spec fn first_appearance_order(input: Seq<Constraint>, groups: Seq<Vec<Constraint>>) -> bool {
    exists|leads: Seq<int>| #[trigger] leads_ok(input, groups, leads)
}

proof fn lemma_tracks_remove(input: Seq<Constraint>, pool: Seq<Constraint>, idx: Seq<int>, t: int)
    requires
        tracks(input, pool, idx),
        0 <= t < pool.len(),
    ensures
        tracks(input, pool.remove(t), idx.remove(t)),
        forall|j: int| #[trigger] idx.remove(t).contains(j) <==> (idx.contains(j) && j != idx[t]),
        forall|k: int| 0 <= k < idx.remove(t).len() ==> idx[0] <= #[trigger] idx.remove(t)[k],
        t == 0 ==> forall|k: int| 0 <= k < idx.remove(t).len() ==> idx[0] < #[trigger] idx.remove(t)[k],
{
    let r = idx.remove(t);
    assert forall|k1: int, k2: int| 0 <= k1 < k2 < r.len() implies r[k1] < r[k2] by {
        if k1 < t && k2 >= t {
            assert(r[k2] == idx[k2 + 1]);
        }
    }
    assert forall|j: int| #[trigger] r.contains(j) <==> (idx.contains(j) && j != idx[t]) by {
        if r.contains(j) {
            let k = choose|k: int| 0 <= k < r.len() && r[k] == j;
            if k < t {
                assert(idx[k] == j);
            } else {
                assert(idx[k + 1] == j);
            }
        }
        if idx.contains(j) && j != idx[t] {
            let k = choose|k: int| 0 <= k < idx.len() && idx[k] == j;
            if k < t {
                assert(r[k] == j);
            } else {
                assert(r[k - 1] == j);
            }
        }
    }
    assert forall|k: int| 0 <= k < r.len() implies idx[0] <= #[trigger] r[k] by {
        if k < t {
            assert(r[k] == idx[k]);
        } else {
            assert(r[k] == idx[k + 1]);
        }
    }
}

proof fn lemma_earlier_push(input: Seq<Constraint>, gs: Seq<Vec<Constraint>>, v: Vec<Constraint>, g: int, j: int)
    requires
        earlier_group(input, gs, g, j),
        g <= gs.len(),
    ensures
        earlier_group(input, gs.push(v), g, j),
        earlier_group(input, gs.push(v), gs.len() + 1int, j),
{
    let g2 = choose|g2: int| 0 <= g2 < g && #[trigger] gs[g2]@.contains(input[j]);
    assert(gs.push(v)[g2] == gs[g2]);
}

proof fn lemma_earlier_new(input: Seq<Constraint>, gs: Seq<Vec<Constraint>>, v: Vec<Constraint>, j: int)
    requires
        v@.contains(input[j]),
    ensures
        earlier_group(input, gs.push(v), gs.len() + 1int, j),
{
    assert(gs.push(v)[gs.len() as int] == v);
}

impl Constraint {
    /// Separates a flat list of constraints into groups of constraints that
    /// overlap one another, in the order in which the first constraint of
    /// each group comes in the list. Each group is sorted by number of mines,
    /// then by density, both descending; no constraint overlaps a constraint
    /// of another group.
    pub fn into_constraint_groups(constraints: Vec<Constraint>) -> (r: Vec<Vec<Constraint>>)
        requires
            forall|k: int| 0 <= k < constraints@.len() ==> (#[trigger] constraints@[k]).mask_ok(),
        ensures
            concat_groups(r@).to_multiset() == constraints@.to_multiset(),
            forall|g: int| 0 <= g < r@.len() ==> (#[trigger] r@[g])@.len() > 0 && group_sorted(r@[g]@) && connected(r@[g]@),
            forall|g1: int, g2: int, a: int, b: int|
                0 <= g1 < r@.len() && 0 <= g2 < r@.len() && g1 != g2 && 0 <= a < r@[g1]@.len() && 0 <= b < r@[g2]@.len()
                    ==> !overlaps(#[trigger] r@[g1]@[a], #[trigger] r@[g2]@[b]),
            first_appearance_order(constraints@, r@),
    {
        let mut pool = constraints;
        let ghost input = pool@;
        let mut groups: Vec<Vec<Constraint>> = Vec::new();
        let ghost mut idx: Seq<int> = Seq::new(input.len(), |k: int| k);
        let ghost mut leads: Seq<int> = Seq::empty();
        proof {
            broadcast use vstd::seq_lib::group_to_multiset_ensures;
            assert(concat_groups(groups@) =~= Seq::<Constraint>::empty());
            assert(concat_groups(groups@).to_multiset() =~= vstd::multiset::Multiset::empty());
            assert(pool@.to_multiset().add(vstd::multiset::Multiset::empty()) =~= pool@.to_multiset());
            assert forall|j: int| 0 <= j < input.len() implies idx.contains(j) by {
                assert(idx[j] == j);
            }
        }
        while pool.len() > 0
            invariant
                forall|k: int| 0 <= k < pool@.len() ==> (#[trigger] pool@[k]).mask_ok(),
                pool@.to_multiset().add(concat_groups(groups@).to_multiset()) == input.to_multiset(),
                forall|g: int| 0 <= g < groups@.len() ==> (#[trigger] groups@[g])@.len() > 0 && group_sorted(groups@[g]@) && connected(groups@[g]@),
                forall|g: int, a: int, e: Constraint|
                    0 <= g < groups@.len() && 0 <= a < groups@[g]@.len() && #[trigger] pool@.contains(e) ==> !overlaps(
                        #[trigger] groups@[g]@[a],
                        e,
                    ),
                forall|g1: int, g2: int, a: int, b: int|
                    0 <= g1 < groups@.len() && 0 <= g2 < groups@.len() && g1 != g2 && 0 <= a < groups@[g1]@.len() && 0 <= b
                        < groups@[g2]@.len() ==> !overlaps(#[trigger] groups@[g1]@[a], #[trigger] groups@[g2]@[b]),
                tracks(input, pool@, idx),
                leads_ok(input, groups@, leads),
                forall|g: int, k: int| 0 <= g < leads.len() && 0 <= k < idx.len() ==> #[trigger] leads[g] < #[trigger] idx[k],
                forall|j: int|
                    0 <= j < input.len() && !idx.contains(j) ==> #[trigger] earlier_group(input, groups@, groups@.len() as int, j),
            decreases pool@.len(),
        {
            let ghost pool0 = pool@;
            let ghost lead = idx[0];
            let ghost idx0 = idx;
            let first = pool.remove(0);
            proof {
                lemma_tracks_remove(input, pool0, idx0, 0);
                idx = idx0.remove(0);
                assert(pool@ == pool0.remove(0));
                assert forall|j: int| 0 <= j < lead implies #[trigger] earlier_group(input, groups@, groups@.len() as int, j) by {
                    if idx0.contains(j) {
                        let k = choose|k: int| 0 <= k < idx0.len() && idx0[k] == j;
                        if k > 0 {
                            assert(idx0[0] < idx0[k]);
                        }
                    }
                }
            }
            let mut current: Vec<Constraint> = Vec::new();
            let mut queue: VecDeque<Constraint> = VecDeque::new();
            queue.push_back(first);
            proof {
                broadcast use vstd::seq_lib::group_to_multiset_ensures;
                assert(queue@ =~= seq![first]);
                assert(current@ + queue@ =~= seq![first]);
                lemma_chained_one(first);
                assert(pool0[0] == first);
                assert(pool0.to_multiset() =~= pool@.to_multiset().insert(first));
                assert(seq![first].to_multiset() =~= vstd::multiset::Multiset::empty().insert(first)) by {
                    assert(seq![first] =~= Seq::<Constraint>::empty().push(first));
                }
                assert(current@.to_multiset() =~= vstd::multiset::Multiset::empty());
                assert forall|g: int, a: int, e: Constraint|
                    0 <= g < groups@.len() && 0 <= a < groups@[g]@.len() && #[trigger] pool@.contains(e) implies !overlaps(
                        #[trigger] groups@[g]@[a],
                        e,
                    ) by {
                    let q = choose|q: int| 0 <= q < pool@.len() && pool@[q] == e;
                    assert(pool0[q + 1] == e);
                    assert(pool0.contains(e));
                }
                assert forall|g: int, a: int, e: Constraint|
                    0 <= g < groups@.len() && 0 <= a < groups@[g]@.len() && #[trigger] queue@.contains(e) implies !overlaps(
                        #[trigger] groups@[g]@[a],
                        e,
                    ) by {
                    assert(queue@[0] == e);
                    assert(pool0[0] == first);
                    assert(pool0.contains(e));
                }
                assert forall|k: int| 0 <= k < pool@.len() implies (#[trigger] pool@[k]).mask_ok() by {
                    assert(pool@[k] == pool0[k + 1]);
                }
                assert(queue@[0] == first);
                assert(input[lead] == first);
                assert forall|j: int|
                    0 <= j < input.len() && !idx.contains(j) implies #[trigger] earlier_group(input, groups@, groups@.len() as int, j)
                        || current@.contains(input[j]) || queue@.contains(input[j]) by {
                    if j == lead {
                        assert(queue@[0] == input[j]);
                    } else {
                        assert(!idx0.contains(j));
                    }
                }
            }
            while queue.len() > 0
                invariant
                    pool@.len() < pool0.len(),
                    forall|k: int| 0 <= k < pool@.len() ==> (#[trigger] pool@[k]).mask_ok(),
                    forall|k: int| 0 <= k < queue@.len() ==> (#[trigger] queue@[k]).mask_ok(),
                    forall|k: int| 0 <= k < current@.len() ==> (#[trigger] current@[k]).mask_ok(),
                    pool@.to_multiset().add(queue@.to_multiset()).add(current@.to_multiset()).add(
                        concat_groups(groups@).to_multiset(),
                    ) == input.to_multiset(),
                    current@.len() + queue@.len() > 0,
                    chained(current@ + queue@),
                    forall|g: int| 0 <= g < groups@.len() ==> (#[trigger] groups@[g])@.len() > 0 && group_sorted(groups@[g]@) && connected(groups@[g]@),
                    forall|g: int, a: int, e: Constraint|
                        0 <= g < groups@.len() && 0 <= a < groups@[g]@.len() && #[trigger] pool@.contains(e) ==> !overlaps(
                            #[trigger] groups@[g]@[a],
                            e,
                        ),
                    forall|g: int, a: int, e: Constraint|
                        0 <= g < groups@.len() && 0 <= a < groups@[g]@.len() && #[trigger] queue@.contains(e) ==> !overlaps(
                            #[trigger] groups@[g]@[a],
                            e,
                        ),
                    forall|g: int, a: int, e: Constraint|
                        0 <= g < groups@.len() && 0 <= a < groups@[g]@.len() && #[trigger] current@.contains(e) ==> !overlaps(
                            #[trigger] groups@[g]@[a],
                            e,
                        ),
                    forall|m: int, e: Constraint|
                        0 <= m < current@.len() && #[trigger] pool@.contains(e) ==> !overlaps(#[trigger] current@[m], e),
                    forall|g1: int, g2: int, a: int, b: int|
                        0 <= g1 < groups@.len() && 0 <= g2 < groups@.len() && g1 != g2 && 0 <= a < groups@[g1]@.len() && 0
                            <= b < groups@[g2]@.len() ==> !overlaps(#[trigger] groups@[g1]@[a], #[trigger] groups@[g2]@[b]),
                    tracks(input, pool@, idx),
                    leads_ok(input, groups@, leads),
                    0 <= lead < input.len(),
                    input[lead] == first,
                    forall|g: int| 0 <= g < leads.len() ==> #[trigger] leads[g] < lead,
                    forall|k: int| 0 <= k < idx.len() ==> lead < #[trigger] idx[k],
                    current@.contains(first) || queue@.contains(first),
                    forall|j: int| 0 <= j < lead ==> #[trigger] earlier_group(input, groups@, groups@.len() as int, j),
                    forall|j: int|
                        0 <= j < input.len() && !idx.contains(j) ==> #[trigger] earlier_group(input, groups@, groups@.len() as int, j)
                            || current@.contains(input[j]) || queue@.contains(input[j]),
                decreases pool@.len() + queue@.len(),
            {
                let ghost q0 = queue@;
                let ghost c0 = current@;
                let curr = queue.pop_front().unwrap();
                current.push(curr);
                proof {
                    broadcast use vstd::seq_lib::group_to_multiset_ensures;
                    assert(q0[0] == curr);
                    assert(queue@ =~= q0.remove(0));
                    assert(q0.to_multiset().remove(curr) == queue@.to_multiset());
                    assert(q0.to_multiset() =~= queue@.to_multiset().insert(curr));
                    assert(current@ =~= c0.push(curr));
                    assert(current@ + queue@ =~= c0 + q0);
                    assert(q0.contains(curr));
                    assert forall|x: Constraint| q0.contains(x) implies #[trigger] queue@.contains(x) || current@.contains(x) by {
                        let k = choose|k: int| 0 <= k < q0.len() && q0[k] == x;
                        if k == 0 {
                            assert(current@[c0.len() as int] == x);
                        } else {
                            assert(queue@[k - 1] == x);
                        }
                    }
                    assert forall|x: Constraint| c0.contains(x) implies #[trigger] current@.contains(x) by {
                        let k = choose|k: int| 0 <= k < c0.len() && c0[k] == x;
                        assert(current@[k] == x);
                    }
                    assert forall|g: int, a: int, e: Constraint|
                        0 <= g < groups@.len() && 0 <= a < groups@[g]@.len() && #[trigger] queue@.contains(e) implies !overlaps(
                            #[trigger] groups@[g]@[a],
                            e,
                        ) by {
                        let q = choose|q: int| 0 <= q < queue@.len() && queue@[q] == e;
                        assert(q0[q + 1] == e);
                        assert(q0.contains(e));
                    }
                    assert forall|g: int, a: int, e: Constraint|
                        0 <= g < groups@.len() && 0 <= a < groups@[g]@.len() && #[trigger] current@.contains(e) implies !overlaps(
                            #[trigger] groups@[g]@[a],
                            e,
                        ) by {
                        let q = choose|q: int| 0 <= q < current@.len() && current@[q] == e;
                        if q < c0.len() {
                            assert(c0[q] == e);
                            assert(c0.contains(e));
                        } else {
                            assert(e == curr);
                            assert(q0.contains(e));
                        }
                    }
                    assert forall|k: int| 0 <= k < queue@.len() implies (#[trigger] queue@[k]).mask_ok() by {
                        assert(queue@[k] == q0[k + 1]);
                    }
                    assert forall|k: int| 0 <= k < current@.len() implies (#[trigger] current@[k]).mask_ok() by {
                        if k < c0.len() {
                            assert(current@[k] == c0[k]);
                        }
                    }
                    assert(pool@.to_multiset().add(queue@.to_multiset()).add(current@.to_multiset()) =~= pool@.to_multiset().add(
                        q0.to_multiset(),
                    ).add(c0.to_multiset()));
                }
                let mut t: usize = 0;
                let ghost tot = pool@.len() + queue@.len();
                while t < pool.len()
                    invariant
                        pool@.len() + queue@.len() == tot,
                        pool@.len() < pool0.len(),
                        t <= pool@.len(),
                        curr.mask_ok(),
                        current@.len() > 0,
                        current@[current@.len() - 1] == curr,
                        chained(current@ + queue@),
                        forall|k: int| 0 <= k < pool@.len() ==> (#[trigger] pool@[k]).mask_ok(),
                        forall|k: int| 0 <= k < queue@.len() ==> (#[trigger] queue@[k]).mask_ok(),
                        forall|k: int| 0 <= k < current@.len() ==> (#[trigger] current@[k]).mask_ok(),
                        pool@.to_multiset().add(queue@.to_multiset()).add(current@.to_multiset()).add(
                            concat_groups(groups@).to_multiset(),
                        ) == input.to_multiset(),
                        forall|g: int| 0 <= g < groups@.len() ==> (#[trigger] groups@[g])@.len() > 0 && group_sorted(
                            groups@[g]@,
                        ) && connected(groups@[g]@),
                        forall|g: int, a: int, e: Constraint|
                            0 <= g < groups@.len() && 0 <= a < groups@[g]@.len() && #[trigger] pool@.contains(e) ==> !overlaps(
                                #[trigger] groups@[g]@[a],
                                e,
                            ),
                        forall|g: int, a: int, e: Constraint|
                            0 <= g < groups@.len() && 0 <= a < groups@[g]@.len() && #[trigger] queue@.contains(e) ==> !overlaps(
                                #[trigger] groups@[g]@[a],
                                e,
                            ),
                        forall|g: int, a: int, e: Constraint|
                            0 <= g < groups@.len() && 0 <= a < groups@[g]@.len() && #[trigger] current@.contains(e) ==> !overlaps(
                                #[trigger] groups@[g]@[a],
                                e,
                            ),
                        forall|m: int, e: Constraint|
                            0 <= m < current@.len() - 1 && #[trigger] pool@.contains(e) ==> !overlaps(#[trigger] current@[m], e),
                        forall|q: int| 0 <= q < t ==> !overlaps(curr, #[trigger] pool@[q]),
                        forall|g1: int, g2: int, a: int, b: int|
                            0 <= g1 < groups@.len() && 0 <= g2 < groups@.len() && g1 != g2 && 0 <= a < groups@[g1]@.len() && 0
                                <= b < groups@[g2]@.len() ==> !overlaps(#[trigger] groups@[g1]@[a], #[trigger] groups@[g2]@[b]),
                        tracks(input, pool@, idx),
                        leads_ok(input, groups@, leads),
                        0 <= lead < input.len(),
                        input[lead] == first,
                        forall|g: int| 0 <= g < leads.len() ==> #[trigger] leads[g] < lead,
                        forall|k: int| 0 <= k < idx.len() ==> lead < #[trigger] idx[k],
                        current@.contains(first) || queue@.contains(first),
                        forall|j: int| 0 <= j < lead ==> #[trigger] earlier_group(input, groups@, groups@.len() as int, j),
                        forall|j: int|
                            0 <= j < input.len() && !idx.contains(j) ==> #[trigger] earlier_group(input, groups@, groups@.len() as int, j)
                                || current@.contains(input[j]) || queue@.contains(input[j]),
                    decreases pool@.len() - t,
                {
                    let m = curr.munge(pool[t], false);
                    proof {
                        lemma_munge_overlap(curr, pool@[t as int], m);
                    }
                    if m != 0 {
                        let ghost p0 = pool@;
                        let ghost qq0 = queue@;
                        let ghost idx1 = idx;
                        let e = pool.remove(t);
                        queue.push_back(e);
                        proof {
                            lemma_tracks_remove(input, p0, idx1, t as int);
                            idx = idx1.remove(t as int);
                            assert(pool@ == p0.remove(t as int));
                            assert(queue@[qq0.len() as int] == e);
                            assert forall|x: Constraint| qq0.contains(x) implies #[trigger] queue@.contains(x) by {
                                let k = choose|k: int| 0 <= k < qq0.len() && qq0[k] == x;
                                assert(queue@[k] == x);
                            }
                            assert forall|j: int|
                                0 <= j < input.len() && !idx.contains(j) implies #[trigger] earlier_group(
                                input,
                                groups@,
                                groups@.len() as int,
                                j,
                            ) || current@.contains(input[j]) || queue@.contains(input[j]) by {
                                if j == idx1[t as int] {
                                    assert(input[j] == e);
                                }
                            }
                            broadcast use vstd::seq_lib::group_to_multiset_ensures;
                            assert(p0[t as int] == e);
                            assert(p0.to_multiset() =~= pool@.to_multiset().insert(e));
                            assert(queue@ =~= qq0.push(e));
                            let o0 = current@ + qq0;
                            assert(current@ + queue@ =~= o0.push(e));
                            assert(o0[current@.len() - 1] == curr);
                            lemma_chained_push(o0, e, current@.len() - 1);
                            assert(pool@.to_multiset().add(queue@.to_multiset()) =~= p0.to_multiset().add(qq0.to_multiset()));
                            assert(p0.contains(e));
                            assert forall|k: int| 0 <= k < pool@.len() implies (#[trigger] pool@[k]).mask_ok() by {
                                if k < t {
                                    assert(pool@[k] == p0[k]);
                                } else {
                                    assert(pool@[k] == p0[k + 1]);
                                }
                            }
                            assert forall|k: int| 0 <= k < queue@.len() implies (#[trigger] queue@[k]).mask_ok() by {
                                if k < qq0.len() {
                                    assert(queue@[k] == qq0[k]);
                                }
                            }
                            assert forall|e2: Constraint| #[trigger] pool@.contains(e2) implies p0.contains(e2) by {
                                let k = choose|k: int| 0 <= k < pool@.len() && pool@[k] == e2;
                                if k < t {
                                    assert(p0[k] == e2);
                                } else {
                                    assert(p0[k + 1] == e2);
                                }
                            }
                            assert forall|g: int, a: int, e2: Constraint|
                                0 <= g < groups@.len() && 0 <= a < groups@[g]@.len() && #[trigger] queue@.contains(e2) implies !overlaps(
                                    #[trigger] groups@[g]@[a],
                                    e2,
                                ) by {
                                let k = choose|k: int| 0 <= k < queue@.len() && queue@[k] == e2;
                                if k < qq0.len() {
                                    assert(qq0[k] == e2);
                                    assert(qq0.contains(e2));
                                } else {
                                    assert(e2 == e);
                                    assert(p0.contains(e2));
                                }
                            }
                            assert forall|q: int| 0 <= q < t implies !overlaps(curr, #[trigger] pool@[q]) by {
                                assert(pool@[q] == p0[q]);
                            }
                        }
                    } else {
                        t = t + 1;
                    }
                }
                proof {
                    assert forall|mm: int, e: Constraint|
                        0 <= mm < current@.len() && #[trigger] pool@.contains(e) implies !overlaps(#[trigger] current@[mm], e) by {
                        if mm == current@.len() - 1 {
                            let q = choose|q: int| 0 <= q < pool@.len() && pool@[q] == e;
                        }
                    }
                }
            }
            let sorted = sort_group(&current);
            let ghost g0 = groups@;
            let ghost leads0 = leads;
            groups.push(sorted);
            proof {
                leads = leads0.push(lead);
                assert(groups@ == g0.push(sorted));
                assert(queue@.len() == 0);
                assert(!queue@.contains(first));
                vstd::seq_lib::to_multiset_contains(current@, first);
                vstd::seq_lib::to_multiset_contains(sorted@, first);
                assert(sorted@.contains(first));
                assert forall|g: int| 0 <= g < leads.len() implies 0 <= #[trigger] leads[g] < input.len() && groups@[g]@.contains(
                    input[leads[g]],
                ) by {
                    if g < leads0.len() {
                        assert(groups@[g] == g0[g]);
                    } else {
                        assert(groups@[g] == sorted);
                    }
                }
                assert forall|g: int, j: int| 0 <= g < leads.len() && 0 <= j < leads[g] implies #[trigger] earlier_group(
                    input,
                    groups@,
                    g,
                    j,
                ) by {
                    if g < leads0.len() {
                        assert(earlier_group(input, g0, g, j));
                        lemma_earlier_push(input, g0, sorted, g, j);
                    } else {
                        assert(earlier_group(input, g0, g0.len() as int, j));
                        lemma_earlier_push(input, g0, sorted, g0.len() as int, j);
                    }
                }
                assert(leads_ok(input, groups@, leads));
                assert forall|j: int|
                    0 <= j < input.len() && !idx.contains(j) implies #[trigger] earlier_group(input, groups@, groups@.len() as int, j) by {
                    if earlier_group(input, g0, g0.len() as int, j) {
                        lemma_earlier_push(input, g0, sorted, g0.len() as int, j);
                    } else {
                        assert(current@.contains(input[j]));
                        vstd::seq_lib::to_multiset_contains(current@, input[j]);
                        vstd::seq_lib::to_multiset_contains(sorted@, input[j]);
                        lemma_earlier_new(input, g0, sorted, j);
                    }
                }
                broadcast use vstd::seq_lib::group_to_multiset_ensures;
                assert(groups@.drop_last() =~= g0);
                assert(groups@.last() == sorted);
                vstd::seq_lib::lemma_multiset_commutative(concat_groups(g0), sorted@);
                assert(queue@.to_multiset() =~= vstd::multiset::Multiset::empty());
                assert forall|b: int| 0 <= b < sorted@.len() implies current@.contains(#[trigger] sorted@[b]) by {
                    assert(sorted@.contains(sorted@[b]));
                    vstd::seq_lib::to_multiset_contains(sorted@, sorted@[b]);
                    vstd::seq_lib::to_multiset_contains(current@, sorted@[b]);
                }
                assert forall|g: int, a: int, e: Constraint|
                    0 <= g < groups@.len() && 0 <= a < groups@[g]@.len() && #[trigger] pool@.contains(e) implies !overlaps(
                        #[trigger] groups@[g]@[a],
                        e,
                    ) by {
                    if g < g0.len() {
                        assert(groups@[g] == g0[g]);
                    } else {
                        assert(current@.contains(sorted@[a]));
                        let mm = choose|mm: int| 0 <= mm < current@.len() && current@[mm] == sorted@[a];
                    }
                }
                assert forall|g1: int, g2: int, a: int, b: int|
                    0 <= g1 < groups@.len() && 0 <= g2 < groups@.len() && g1 != g2 && 0 <= a < groups@[g1]@.len() && 0 <= b
                        < groups@[g2]@.len() implies !overlaps(#[trigger] groups@[g1]@[a], #[trigger] groups@[g2]@[b]) by {
                    if g1 < g0.len() && g2 < g0.len() {
                        assert(groups@[g1] == g0[g1] && groups@[g2] == g0[g2]);
                    } else if g2 == g0.len() {
                        assert(groups@[g1] == g0[g1]);
                        assert(current@.contains(sorted@[b]));
                    } else {
                        assert(groups@[g2] == g0[g2]);
                        assert(current@.contains(sorted@[a]));
                        let x = groups@[g1]@[a];
                        let y = groups@[g2]@[b];
                        assert(!overlaps(y, x));
                        if overlaps(x, y) {
                            let (px, py) = choose|px: int, py: int| x.covers(px, py) && y.covers(px, py);
                            assert(y.covers(px, py) && x.covers(px, py));
                        }
                    }
                }
                assert(current@ + queue@ =~= current@);
                lemma_chained_connected(current@, sorted@);
                assert forall|g: int| 0 <= g < groups@.len() implies (#[trigger] groups@[g])@.len() > 0 && group_sorted(groups@[g]@) && connected(groups@[g]@) by {
                    if g < g0.len() {
                        assert(groups@[g] == g0[g]);
                    }
                }
            }
        }
        assert(pool@.to_multiset() =~= vstd::multiset::Multiset::empty()) by {
            broadcast use vstd::seq_lib::group_to_multiset_ensures;
        }
        assert(leads_ok(input, groups@, leads));
        groups
    }
}

} // verus!
