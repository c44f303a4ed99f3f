//! A rectangular grid stored row-major, and the minesweeper board built on it.
use vstd::prelude::*;
use super::{BoardError, BoardInterface, Cell, Coordinate, Visibility, in_safe_area, spec_in_safe_area};
use crate::random::sample_iter;
use rand::rngs::Xoshiro128PlusPlus;
#[allow(unused_imports)]
use vstd::arithmetic::div_mod::{lemma_fundamental_div_mod, lemma_fundamental_div_mod_converse};
#[allow(unused_imports)]
use vstd::arithmetic::mul::lemma_mul_inequality;

verus! {

/// Row-major index of the cell `(x, y)` in a grid of width `w`.
pub open spec fn index_of(w: int, x: int, y: int) -> int {
    y * w + x
}

/// The index of the cell at offset `(dx, dy)` from `(x, y)` in a `w` by `h`
/// grid, or `None` when that cell lies outside the grid.
pub open spec fn rel_index(w: int, h: int, x: int, y: int, dx: int, dy: int) -> Option<usize> {
    if 0 <= x + dx < w && 0 <= y + dy < h {
        Some(index_of(w, x + dx, y + dy) as usize)
    } else {
        None
    }
}

/// The coordinates and the index of a cell determine each other.
pub proof fn lemma_index_coords(w: int, h: int, x: int, y: int)
    requires
        0 <= x < w,
        0 <= y < h,
    ensures
        0 <= index_of(w, x, y) < w * h,
        index_of(w, x, y) % w == x,
        index_of(w, x, y) / w == y,
{
    lemma_fundamental_div_mod_converse(y * w + x, w, y, x);
    assert(y * w <= (h - 1) * w) by (nonlinear_arith)
        requires
            y <= h - 1,
            0 < w,
    ;
    assert((h - 1) * w == h * w - w) by (nonlinear_arith);
    assert(0 <= y * w) by (nonlinear_arith)
        requires
            0 <= y,
            0 < w,
    ;
    assert(h * w == w * h) by (nonlinear_arith);
}

/// An index in range splits into coordinates in range.
pub proof fn lemma_coords_index(w: int, h: int, i: int)
    requires
        0 < w,
        0 <= i < w * h,
    ensures
        0 <= i % w < w,
        0 <= i / w < h,
        index_of(w, i % w, i / w) == i,
{
    lemma_fundamental_div_mod(i, w);
    let q = i / w;
    let r = i % w;
    assert(0 <= r < w) by {
        vstd::arithmetic::div_mod::lemma_mod_bound(i, w);
    }
    assert(w * q == q * w) by (nonlinear_arith);
    assert(0 <= q) by {
        vstd::arithmetic::div_mod::lemma_div_pos_is_pos(i, w);
    }
    if q >= h {
        assert(q * w >= h * w) by (nonlinear_arith)
            requires
                q >= h,
                0 < w,
        ;
        assert(h * w == w * h) by (nonlinear_arith);
    }
}

/// Two cells with the same index in the same grid are the same cell.
pub proof fn lemma_index_injective(w: int, h: int, x1: int, y1: int, x2: int, y2: int)
    requires
        0 <= x1 < w,
        0 <= y1 < h,
        0 <= x2 < w,
        0 <= y2 < h,
        index_of(w, x1, y1) == index_of(w, x2, y2),
    ensures
        x1 == x2,
        y1 == y2,
{
    lemma_index_coords(w, h, x1, y1);
    lemma_index_coords(w, h, x2, y2);
}

/// The neighbourhood slot `k` (0 to 8, row by row from the top-left, 4 being
/// the cell itself) of the cell `(x, y)`.
pub open spec fn nbr(w: int, h: int, x: int, y: int, k: int) -> Option<usize> {
    rel_index(w, h, x, y, k % 3 - 1, k / 3 - 1)
}

/// The slots of the eight neighbours of a cell.
pub open spec fn is_nbr_slot(k: int) -> bool {
    0 <= k < 9 && k != 4
}

/// Slot `k` of `p` is `q` exactly when slot `8 - k` of `q` is `p`.
pub proof fn lemma_nbr_symmetric(w: int, h: int, px: int, py: int, k: int)
    requires
        0 < w,
        w * h <= usize::MAX,
        0 <= px < w,
        0 <= py < h,
        0 <= k < 9,
        nbr(w, h, px, py, k) is Some,
    ensures
        ({
            let q = nbr(w, h, px, py, k)->0 as int;
            &&& 0 <= q < w * h
            &&& q % w == px + k % 3 - 1
            &&& q / w == py + k / 3 - 1
            &&& nbr(w, h, q % w, q / w, 8 - k) == Some(index_of(w, px, py) as usize)
        }),
{
    let qx = px + k % 3 - 1;
    let qy = py + k / 3 - 1;
    lemma_index_coords(w, h, qx, qy);
    lemma_index_coords(w, h, px, py);
    assert((8 - k) % 3 == 2 - k % 3 && (8 - k) / 3 == 2 - k / 3);
}

/// Different slots of a cell that lie in the grid are different cells.
pub proof fn lemma_nbr_distinct(w: int, h: int, px: int, py: int, k1: int, k2: int)
    requires
        0 < w,
        w * h <= usize::MAX,
        0 <= k1 < 9,
        0 <= k2 < 9,
        k1 != k2,
        nbr(w, h, px, py, k1) is Some,
        nbr(w, h, px, py, k2) is Some,
    ensures
        nbr(w, h, px, py, k1) != nbr(w, h, px, py, k2),
{
    let x1 = px + k1 % 3 - 1;
    let y1 = py + k1 / 3 - 1;
    let x2 = px + k2 % 3 - 1;
    let y2 = py + k2 / 3 - 1;
    lemma_index_coords(w, h, x1, y1);
    lemma_index_coords(w, h, x2, y2);
    if nbr(w, h, px, py, k1) == nbr(w, h, px, py, k2) {
        lemma_index_injective(w, h, x1, y1, x2, y2);
    }
}

/// Slot 4 of a cell in the grid is the cell itself.
pub proof fn lemma_nbr_center(w: int, h: int, i: int)
    requires
        0 < w,
        w * h <= usize::MAX,
        0 <= i < w * h,
    ensures
        nbr(w, h, i % w, i / w, 4) == Some(i as usize),
{
    lemma_coords_index(w, h, i);
}

#[derive(Debug)]
pub struct Grid<T> {
    /// Horizontal axis
    pub width: usize,
    /// Vertical axis
    pub height: usize,
    /// Row-major 1-d vector of all cells
    pub data: Vec<T>,
}

impl<T: Clone + Default> Grid<T> {
    /// Create a new grid initialized to the default value of `T`.
    pub fn new(width: usize, height: usize) -> (r: Self)
        requires
            width * height <= usize::MAX,
        ensures
            r.width == width,
            r.height == height,
            r.wf(),
            forall|i: int| 0 <= i < r.data@.len() ==> call_ensures(T::default, (), #[trigger] r.data@[i]),
    {
        let n: usize = width * height;
        let mut data: Vec<T> = Vec::new();
        let mut i: usize = 0;
        while i < n
            invariant
                i <= n,
                data@.len() == i,
                forall|q: int| 0 <= q < i ==> call_ensures(T::default, (), #[trigger] data@[q]),
            decreases n - i,
        {
            let d = T::default();
            data.push(d);
            i = i + 1;
        }
        Grid { width, height, data }
    }
}

impl<T> Grid<T> {
    /// The data holds exactly one value for each cell.
    pub open spec fn wf(&self) -> bool {
        self.data.len() == self.width * self.height
    }

    pub fn from_vec(width: usize, height: usize, grid: Vec<T>) -> (r: Self)
        requires
            width * height == grid.len(),
        ensures
            r.width == width,
            r.height == height,
            r.data@ == grid@,
            r.wf(),
    {
        Grid { width, height, data: grid }
    }

    /// The indices of the cells at offsets `dx_range` by `dy_range` from
    /// `(x, y)`, row by row from the top-left, or `None` for an offset that
    /// falls outside the grid.
    pub fn get_relative_indices(
        &self,
        c: (usize, usize),
        dx_range: std::ops::Range<isize>,
        dy_range: std::ops::Range<isize>,
    ) -> (r: Vec<Option<usize>>)
        requires
            self.wf(),
        ensures
            ({
                let nx = if dx_range.start < dx_range.end { dx_range.end - dx_range.start } else { 0 };
                let ny = if dy_range.start < dy_range.end { dy_range.end - dy_range.start } else { 0 };
                &&& r.len() == ny * nx
                &&& forall|k: int|
                    0 <= k < r.len() ==> #[trigger] r@[k] == rel_index(
                        self.width as int,
                        self.height as int,
                        c.0 as int,
                        c.1 as int,
                        dx_range.start + k % nx,
                        dy_range.start + k / nx,
                    )
            }),
    {
        if dx_range.start >= dx_range.end || dy_range.start >= dy_range.end {
            proof {
                let nx = if dx_range.start < dx_range.end { dx_range.end - dx_range.start } else { 0 };
                let ny = if dy_range.start < dy_range.end { dy_range.end - dy_range.start } else { 0 };
                assert(ny * nx == 0) by (nonlinear_arith)
                    requires
                        nx == 0 || ny == 0,
                ;
            }
            return Vec::new();
        }
        let (x, y) = c;
        let width = self.width;
        let height = self.height;
        let ghost nx: int = dx_range.end - dx_range.start;
        let ghost ny: int = dy_range.end - dy_range.start;
        let mut r: Vec<Option<usize>> = Vec::new();
        let mut dy = dy_range.start;
        while dy < dy_range.end
            invariant
                self.wf(),
                width == self.width,
                height == self.height,
                dy_range.start <= dy <= dy_range.end,
                nx == dx_range.end - dx_range.start,
                ny == dy_range.end - dy_range.start,
                nx > 0,
                r.len() == (dy - dy_range.start) * nx,
                forall|k: int|
                    0 <= k < r.len() ==> #[trigger] r@[k] == rel_index(
                        width as int,
                        height as int,
                        x as int,
                        y as int,
                        dx_range.start + k % nx,
                        dy_range.start + k / nx,
                    ),
            decreases dy_range.end - dy,
        {
            let mut dx = dx_range.start;
            let ghost row = dy - dy_range.start;
            while dx < dx_range.end
                invariant
                    self.wf(),
                    width == self.width,
                    height == self.height,
                    dy_range.start <= dy < dy_range.end,
                    dx_range.start <= dx <= dx_range.end,
                    nx == dx_range.end - dx_range.start,
                    ny == dy_range.end - dy_range.start,
                    nx > 0,
                    row == dy - dy_range.start,
                    r.len() == row * nx + (dx - dx_range.start),
                    forall|k: int|
                        0 <= k < r.len() ==> #[trigger] r@[k] == rel_index(
                            width as int,
                            height as int,
                            x as int,
                            y as int,
                            dx_range.start + k % nx,
                            dy_range.start + k / nx,
                        ),
                decreases dx_range.end - dx,
            {
                let nxv = x.checked_add_signed(dx);
                let nyv = y.checked_add_signed(dy);
                let v = match (nxv, nyv) {
                    (Some(valid_x), Some(valid_y)) => {
                        if valid_x < width && valid_y < height {
                            proof {
                                lemma_index_coords(width as int, height as int, valid_x as int, valid_y as int);
                            }
                            Some(valid_y * width + valid_x)
                        } else {
                            None
                        }
                    },
                    _ => None,
                };
                proof {
                    lemma_index_coords(nx, ny, dx - dx_range.start, row);
                }
                r.push(v);
                dx = dx + 1;
            }
            proof {
                assert((row + 1) * nx == row * nx + nx) by (nonlinear_arith);
            }
            dy = dy + 1;
        }
        r
    }

    /// The indices of the eight neighbours of the cell at `index`, row by row
    /// from the top-left, or `None` for a neighbour outside the grid.
    pub fn get_adjacent_indices(&self, index: usize) -> (r: Vec<Option<usize>>)
        requires
            self.wf(),
            self.width > 0,
            index < self.data.len(),
        ensures
            r.len() == 8,
            forall|p: int|
                0 <= p < 8 ==> #[trigger] r@[p] == nbr(
                    self.width as int,
                    self.height as int,
                    (index as int) % (self.width as int),
                    (index as int) / (self.width as int),
                    if p < 4 { p } else { p + 1 },
                ),
    {
        let w = self.width;
        let ghost wi = self.width as int;
        let ghost hi = self.height as int;
        proof {
            lemma_coords_index(wi, hi, index as int);
        }
        let xr = std::ops::Range { start: -1isize, end: 2isize };
        let yr = std::ops::Range { start: -1isize, end: 2isize };
        assert(xr.start == -1 && xr.end == 2);
        let coords = self.to_coords(index);
        let rel = self.get_relative_indices(coords, xr, yr);
        assert((2 - (-1)) * (2 - (-1)) == 9) by (nonlinear_arith);
        assert(rel.len() == 9);
        let ghost ix: int = (index as int) % (self.width as int);
        let ghost iy: int = (index as int) / (self.width as int);
        assert forall|k: int| 0 <= k < 9 implies rel@[k] == nbr(wi, hi, ix, iy, k) by {}
        proof {
            lemma_nbr_center(wi, hi, index as int);
        }
        let mut r: Vec<Option<usize>> = Vec::new();
        let mut p: usize = 0;
        while p < 9
            invariant
                w == self.width,
                wi == w,
                hi == self.height,
                wi * hi <= usize::MAX,
                0 < w,
                0 <= ix < wi,
                0 <= iy < hi,
                p <= 9,
                rel.len() == 9,
                forall|k: int| 0 <= k < 9 ==> rel@[k] == nbr(wi, hi, ix, iy, k),
                nbr(wi, hi, ix, iy, 4) == Some(index),
                r.len() == (if p <= 4 { p as int } else { p - 1 }),
                forall|q: int|
                    0 <= q < r.len() ==> #[trigger] r@[q] == nbr(
                        wi,
                        hi,
                        ix,
                        iy,
                        if q < 4 { q } else { q + 1 },
                    ),
            decreases 9 - p,
        {
            let keep = match rel[p] {
                Some(j) => j != index,
                None => true,
            };
            proof {
                if p != 4 && rel@[p as int] is Some {
                    lemma_nbr_distinct(wi, hi, ix, iy, p as int, 4);
                }
            }
            assert(keep == (p != 4));
            if keep {
                r.push(rel[p]);
            }
            p = p + 1;
        }
        r
    }

    /// Converts given co-ordinates to grid index without checking for bounds
    pub fn to_index(&self, x: usize, y: usize) -> (r: usize)
        requires
            y * self.width + x <= usize::MAX,
        ensures
            r == index_of(self.width as int, x as int, y as int),
    {
        y * self.width + x
    }

    /// Converts given index to co-ordinates without checking for bounds
    pub fn to_coords(&self, index: usize) -> (r: (usize, usize))
        requires
            self.width > 0,
        ensures
            r == (index % self.width, index / self.width),
    {
        (index % self.width, index / self.width)
    }

    /// The cells of the grid in row-major order.
    pub fn iter(&self) -> (r: &[T])
        ensures
            r@ == self.data@,
    {
        self.data.as_slice()
    }

    /// The cells of the grid in row-major order, for updating in place.
    pub fn iter_mut(&mut self) -> (r: &mut Vec<T>)
        ensures
            *r == old(self).data,
            final(self).data == *final(r),
            final(self).width == old(self).width,
            final(self).height == old(self).height,
    {
        &mut self.data
    }

    /// Each cell of the grid with its co-ordinates, in row-major order.
    pub fn enumerate(&self) -> (r: Vec<((usize, usize), &T)>)
        requires
            self.width > 0 || self.data.len() == 0,
        ensures
            r.len() == self.data.len(),
            forall|i: int|
                0 <= i < r.len() ==> #[trigger] r@[i].0.0 == i % self.width as int && r@[i].0.1 == i / self.width as int
                    && *r@[i].1 == self.data@[i],
    {
        let mut r: Vec<((usize, usize), &T)> = Vec::new();
        let mut i: usize = 0;
        while i < self.data.len()
            invariant
                self.width > 0 || self.data.len() == 0,
                i <= self.data.len(),
                r.len() == i,
                forall|k: int|
                    0 <= k < i ==> #[trigger] r@[k].0.0 == k % self.width as int && r@[k].0.1 == k / self.width as int
                        && *r@[k].1 == self.data@[k],
            decreases self.data.len() - i,
        {
            let ghost old_r = r@;
            r.push(((i % self.width, i / self.width), &self.data[i]));
            assert(forall|k: int| 0 <= k < i ==> r@[k] == old_r[k]);
            i = i + 1;
        }
        r
    }

    /// The range of all indices of the grid.
    pub fn range(&self) -> (r: std::ops::Range<usize>)
        requires
            self.width * self.height <= usize::MAX,
        ensures
            r.start == 0,
            r.end == self.width * self.height,
    {
        0..self.width * self.height
    }

    /// Whether the co-ordinates lie inside the grid.
    pub fn contains(&self, c: (usize, usize)) -> (r: bool)
        ensures
            r == (c.0 < self.width && c.1 < self.height),
    {
        c.0 < self.width && c.1 < self.height
    }

    /// Converts signed co-ordinates to unsigned ones, or `None` when they lie
    /// outside the grid: negative, or at or past the width or the height.
    pub fn check_bounds(&self, c: (isize, isize)) -> (r: Option<(usize, usize)>)
        requires
            self.width <= isize::MAX,
            self.height <= isize::MAX,
        ensures
            r == (if c.0 < 0 || c.1 < 0 || c.0 >= self.width || c.1 >= self.height {
                None
            } else {
                Some((c.0 as usize, c.1 as usize))
            }),
    {
        let (x, y) = c;
        if x < 0 || y < 0 || x >= self.width as isize || y >= self.height as isize {
            None
        } else {
            Some((x as usize, y as usize))
        }
    }

    /// The value at the given index.
    pub fn get(&self, index: usize) -> (r: &T)
        requires
            index < self.data.len(),
        ensures
            *r == self.data@[index as int],
    {
        &self.data[index]
    }

    /// Replaces the value at the given index.
    pub fn set(&mut self, index: usize, value: T)
        requires
            index < old(self).data.len(),
        ensures
            final(self).data@ == old(self).data@.update(index as int, value),
            final(self).width == old(self).width,
            final(self).height == old(self).height,
    {
        self.data.set(index, value);
    }
}

/// The number of cells of `s` with visibility `v`.
pub open spec fn count_vis(s: Seq<Cell>, v: Visibility) -> nat
    decreases s.len(),
{
    if s.len() == 0 {
        0
    } else {
        count_vis(s.drop_last(), v) + if s.last().visibility == v {
            1nat
        } else {
            0nat
        }
    }
}

/// The number of mines among the cells of `s`.
pub open spec fn count_mines(s: Seq<Cell>) -> nat
    decreases s.len(),
{
    if s.len() == 0 {
        0
    } else {
        count_mines(s.drop_last()) + if s.last().is_mine {
            1nat
        } else {
            0nat
        }
    }
}

/// The number of `true` entries of `s`.
pub open spec fn count_true(s: Seq<bool>) -> nat
    decreases s.len(),
{
    if s.len() == 0 {
        0
    } else {
        count_true(s.drop_last()) + if s.last() {
            1nat
        } else {
            0nat
        }
    }
}

pub proof fn lemma_count_vis_update(s: Seq<Cell>, i: int, c: Cell, v: Visibility)
    requires
        0 <= i < s.len(),
    ensures
        count_vis(s.update(i, c), v) == count_vis(s, v) - (if s[i].visibility == v { 1int } else { 0 })
            + (if c.visibility == v { 1int } else { 0 }),
    decreases s.len(),
{
    let t = s.update(i, c);
    if i == s.len() - 1 {
        assert(t.drop_last() =~= s.drop_last());
    } else {
        assert(t.drop_last() =~= s.drop_last().update(i, c));
        lemma_count_vis_update(s.drop_last(), i, c, v);
    }
}

pub proof fn lemma_count_mines_update(s: Seq<Cell>, i: int, c: Cell)
    requires
        0 <= i < s.len(),
    ensures
        count_mines(s.update(i, c)) == count_mines(s) - (if s[i].is_mine { 1int } else { 0 }) + (
        if c.is_mine { 1int } else { 0 }),
    decreases s.len(),
{
    let t = s.update(i, c);
    if i == s.len() - 1 {
        assert(t.drop_last() =~= s.drop_last());
    } else {
        assert(t.drop_last() =~= s.drop_last().update(i, c));
        lemma_count_mines_update(s.drop_last(), i, c);
    }
}


/// Sequences that agree on which cells are mines count the same mines.
pub proof fn lemma_count_mines_eq(s: Seq<Cell>, t: Seq<Cell>)
    requires
        s.len() == t.len(),
        forall|i: int| 0 <= i < s.len() ==> (#[trigger] s[i]).is_mine == t[i].is_mine,
    ensures
        count_mines(s) == count_mines(t),
    decreases s.len(),
{
    if s.len() > 0 {
        lemma_count_mines_eq(s.drop_last(), t.drop_last());
    }
}

/// Sequences that agree on visibility count the same cells of each visibility.
pub proof fn lemma_count_vis_eq(s: Seq<Cell>, t: Seq<Cell>, v: Visibility)
    requires
        s.len() == t.len(),
        forall|i: int| 0 <= i < s.len() ==> (#[trigger] s[i]).visibility == t[i].visibility,
    ensures
        count_vis(s, v) == count_vis(t, v),
    decreases s.len(),
{
    if s.len() > 0 {
        lemma_count_vis_eq(s.drop_last(), t.drop_last(), v);
    }
}

/// Without mines there is nothing to count.
pub proof fn lemma_count_mines_none(s: Seq<Cell>)
    requires
        forall|i: int| 0 <= i < s.len() ==> !(#[trigger] s[i]).is_mine,
    ensures
        count_mines(s) == 0,
    decreases s.len(),
{
    if s.len() > 0 {
        lemma_count_mines_none(s.drop_last());
    }
}

/// Whether the cell `o` names (if any) is a mine, as 0 or 1.
pub open spec fn mine_at(s: Seq<Cell>, o: Option<usize>) -> int {
    match o {
        Some(j) => if s[j as int].is_mine {
            1
        } else {
            0
        },
        None => 0,
    }
}

/// The sum of `f` over the eight neighbour slots.
pub open spec fn slot_sum(f: spec_fn(int) -> int) -> int {
    f(0) + f(1) + f(2) + f(3) + f(5) + f(6) + f(7) + f(8)
}

/// The number of mines among the eight neighbours of `(x, y)`.
pub open spec fn adj_mine_count(s: Seq<Cell>, w: int, h: int, x: int, y: int) -> int {
    slot_sum(|k: int| mine_at(s, nbr(w, h, x, y, k)))
}

pub proof fn lemma_slot_sum_eq(f: spec_fn(int) -> int, g: spec_fn(int) -> int)
    requires
        forall|k: int| is_nbr_slot(k) ==> f(k) == g(k),
    ensures
        slot_sum(f) == slot_sum(g),
{
    assert(is_nbr_slot(0) && is_nbr_slot(1) && is_nbr_slot(2) && is_nbr_slot(3));
    assert(is_nbr_slot(5) && is_nbr_slot(6) && is_nbr_slot(7) && is_nbr_slot(8));
}


/// The count of mines around a cell depends only on which cells are mines.
pub proof fn lemma_adj_same_mines(s: Seq<Cell>, t: Seq<Cell>, w: int, h: int, x: int, y: int)
    requires
        s.len() == t.len(),
        s.len() == w * h,
        0 < w,
        w * h <= usize::MAX,
        forall|i: int| 0 <= i < s.len() ==> (#[trigger] s[i]).is_mine == t[i].is_mine,
    ensures
        adj_mine_count(s, w, h, x, y) == adj_mine_count(t, w, h, x, y),
{
    let f = |k: int| mine_at(s, nbr(w, h, x, y, k));
    let g = |k: int| mine_at(t, nbr(w, h, x, y, k));
    assert forall|k: int| is_nbr_slot(k) implies f(k) == g(k) by {
        if nbr(w, h, x, y, k) is Some {
            lemma_index_coords(w, h, x + k % 3 - 1, y + k / 3 - 1);
        }
    }
    lemma_slot_sum_eq(f, g);
}

pub proof fn lemma_slot_sum_bounds(f: spec_fn(int) -> int)
    requires
        forall|k: int| is_nbr_slot(k) ==> 0 <= f(k) <= 1,
    ensures
        0 <= slot_sum(f) <= 8,
{
    assert(is_nbr_slot(0) && is_nbr_slot(1) && is_nbr_slot(2) && is_nbr_slot(3));
    assert(is_nbr_slot(5) && is_nbr_slot(6) && is_nbr_slot(7) && is_nbr_slot(8));
}

/// If `f` and `g` differ only at slot `k0`, by one, their sums differ by one
/// exactly when `k0` is a neighbour slot.
pub proof fn lemma_slot_sum_step(f: spec_fn(int) -> int, g: spec_fn(int) -> int, k0: int)
    requires
        forall|k: int| is_nbr_slot(k) ==> f(k) == g(k) + (if k == k0 { 1int } else { 0 }),
    ensures
        slot_sum(f) == slot_sum(g) + (if is_nbr_slot(k0) { 1int } else { 0 }),
{
    assert(is_nbr_slot(0) && is_nbr_slot(1) && is_nbr_slot(2) && is_nbr_slot(3));
    assert(is_nbr_slot(5) && is_nbr_slot(6) && is_nbr_slot(7) && is_nbr_slot(8));
}

/// Whether the cell `o` names (if any) is a mine with an index below
/// `bound`, as 0 or 1.
pub open spec fn mine_below(s: Seq<Cell>, o: Option<usize>, bound: int) -> int {
    match o {
        Some(j) => if j < bound && s[j as int].is_mine {
            1
        } else {
            0
        },
        None => 0,
    }
}

/// The number of mines with an index below `bound` among the neighbours of
/// `(x, y)`.
pub open spec fn adj_mines_below(s: Seq<Cell>, w: int, h: int, x: int, y: int, bound: int) -> int {
    slot_sum(|k: int| mine_below(s, nbr(w, h, x, y, k), bound))
}

/// Whether `(x, y)` lies in the 3 by 3 square around `start`.
pub open spec fn near_start(start: (usize, usize), x: int, y: int) -> bool {
    -1 <= x - start.0 <= 1 && -1 <= y - start.1 <= 1
}

/// Whether `j` is among the neighbours of the cell at `m`.
pub open spec fn is_adjacent(w: int, h: int, m: int, j: int) -> bool {
    exists|k: int| is_nbr_slot(k) && nbr(w, h, m % w, m / w, k) == Some(j as usize)
}

/// Moving the bound past a mine `m` adds one to the counts of exactly the
/// neighbours of `m`; moving it past a cell that is no mine changes nothing.
pub proof fn lemma_below_step(s: Seq<Cell>, w: int, h: int, m: int, j: int)
    requires
        0 < w,
        w * h <= usize::MAX,
        s.len() == w * h,
        0 <= m < w * h,
        0 <= j < w * h,
    ensures
        adj_mines_below(s, w, h, j % w, j / w, m + 1) == adj_mines_below(s, w, h, j % w, j / w, m) + (
        if s[m].is_mine && is_adjacent(w, h, m, j) { 1int } else { 0 }),
{
    lemma_coords_index(w, h, j);
    lemma_coords_index(w, h, m);
    let jx = j % w;
    let jy = j / w;
    let f = |k: int| mine_below(s, nbr(w, h, jx, jy, k), m + 1);
    let g = |k: int| mine_below(s, nbr(w, h, jx, jy, k), m);
    if s[m].is_mine && is_adjacent(w, h, m, j) {
        let k = choose|k: int| is_nbr_slot(k) && nbr(w, h, m % w, m / w, k) == Some(j as usize);
        lemma_nbr_symmetric(w, h, m % w, m / w, k);
        assert(index_of(w, m % w, m / w) == m);
        let k0 = 8 - k;
        assert forall|k2: int| is_nbr_slot(k2) implies f(k2) == g(k2) + (if k2 == k0 { 1int } else { 0 }) by {
            if k2 != k0 {
                if nbr(w, h, jx, jy, k2) is Some {
                    lemma_nbr_distinct(w, h, jx, jy, k2, k0);
                }
            }
        }
        lemma_slot_sum_step(f, g, k0);
    } else {
        assert forall|k2: int| is_nbr_slot(k2) implies f(k2) == g(k2) by {
            if s[m].is_mine && nbr(w, h, jx, jy, k2) == Some(m as usize) {
                lemma_nbr_symmetric(w, h, jx, jy, k2);
                assert(index_of(w, jx, jy) == j);
                assert(is_nbr_slot(8 - k2));
                assert(is_adjacent(w, h, m, j));
            }
        }
        lemma_slot_sum_eq(f, g);
    }
}

/// Making the cell `m` a mine adds one to the counts of exactly its
/// neighbours and leaves every other count as it was.
pub proof fn lemma_adj_toggle(s: Seq<Cell>, t: Seq<Cell>, w: int, h: int, m: int, j: int)
    requires
        0 < w,
        w * h <= usize::MAX,
        s.len() == w * h,
        t.len() == w * h,
        0 <= m < w * h,
        0 <= j < w * h,
        !s[m].is_mine,
        t[m].is_mine,
        forall|i: int| 0 <= i < s.len() && i != m ==> (#[trigger] s[i]).is_mine == t[i].is_mine,
    ensures
        adj_mine_count(t, w, h, j % w, j / w) == adj_mine_count(s, w, h, j % w, j / w) + (if is_adjacent(w, h, m, j) {
            1int
        } else {
            0
        }),
{
    lemma_coords_index(w, h, j);
    lemma_coords_index(w, h, m);
    let jx = j % w;
    let jy = j / w;
    let f = |k: int| mine_at(t, nbr(w, h, jx, jy, k));
    let g = |k: int| mine_at(s, nbr(w, h, jx, jy, k));
    if is_adjacent(w, h, m, j) {
        let k = choose|k: int| is_nbr_slot(k) && nbr(w, h, m % w, m / w, k) == Some(j as usize);
        lemma_nbr_symmetric(w, h, m % w, m / w, k);
        assert(index_of(w, m % w, m / w) == m);
        let k0 = 8 - k;
        assert forall|k2: int| is_nbr_slot(k2) implies f(k2) == g(k2) + (if k2 == k0 { 1int } else { 0 }) by {
            if nbr(w, h, jx, jy, k2) is Some {
                lemma_index_coords(w, h, jx + k2 % 3 - 1, jy + k2 / 3 - 1);
                if k2 != k0 {
                    lemma_nbr_distinct(w, h, jx, jy, k2, k0);
                }
            }
        }
        lemma_slot_sum_step(f, g, k0);
    } else {
        assert forall|k2: int| is_nbr_slot(k2) implies f(k2) == g(k2) by {
            if nbr(w, h, jx, jy, k2) is Some {
                lemma_index_coords(w, h, jx + k2 % 3 - 1, jy + k2 / 3 - 1);
                if nbr(w, h, jx, jy, k2) == Some(m as usize) {
                    lemma_nbr_symmetric(w, h, jx, jy, k2);
                    assert(index_of(w, jx, jy) == j);
                    assert(is_nbr_slot(8 - k2));
                    assert(is_adjacent(w, h, m, j));
                }
            }
        }
        lemma_slot_sum_eq(f, g);
    }
}

/// With the bound at the grid's size every neighbour counts.
pub proof fn lemma_below_all(s: Seq<Cell>, w: int, h: int, j: int)
    requires
        0 < w,
        w * h <= usize::MAX,
        0 <= j < w * h,
    ensures
        adj_mines_below(s, w, h, j % w, j / w, w * h) == adj_mine_count(s, w, h, j % w, j / w),
{
    lemma_coords_index(w, h, j);
    let jx = j % w;
    let jy = j / w;
    let f = |k: int| mine_below(s, nbr(w, h, jx, jy, k), w * h);
    let g = |k: int| mine_at(s, nbr(w, h, jx, jy, k));
    assert forall|k: int| is_nbr_slot(k) implies f(k) == g(k) by {
        if nbr(w, h, jx, jy, k) is Some {
            lemma_index_coords(w, h, jx + k % 3 - 1, jy + k / 3 - 1);
        }
    }
    lemma_slot_sum_eq(f, g);
}

pub proof fn lemma_pos_len(w: int, h: int, i: int)
    requires
        0 <= w,
        0 <= h,
        0 <= i < w * h,
    ensures
        0 < w,
        0 < h,
{
    if w == 0 {
        assert(w * h == 0) by (nonlinear_arith)
            requires
                w == 0,
        ;
    }
    if h == 0 {
        assert(w * h == 0) by (nonlinear_arith)
            requires
                h == 0,
        ;
    }
}

pub struct Board {
    pub grid: Grid<Cell>,
    pub num_mines: usize,
}

impl Board {
    pub open spec fn cells(&self) -> Seq<Cell> {
        self.grid.data@
    }

    pub open spec fn w(&self) -> int {
        self.grid.width as int
    }

    pub open spec fn h(&self) -> int {
        self.grid.height as int
    }

    /// The cells fill the grid, whose sides fit in signed integers.
    pub open spec fn wf(&self) -> bool {
        &&& self.grid.wf()
        &&& self.grid.width < isize::MAX
        &&& self.grid.height < isize::MAX
    }

    /// The hint of cell `i` is the number of mines around it.
    pub open spec fn hint_ok(&self, i: int) -> bool {
        self.cells()[i].adjacent_mines == adj_mine_count(
            self.cells(),
            self.w(),
            self.h(),
            i % self.w(),
            i / self.w(),
        )
    }

    /// Every hint is the number of mines around its cell.
    pub open spec fn hints_consistent(&self) -> bool {
        forall|i: int| 0 <= i < self.cells().len() ==> #[trigger] self.hint_ok(i)
    }

    /// No revealed cell is a mine and every flagged cell is one.
    pub open spec fn visibility_consistent(&self) -> bool {
        forall|i: int|
            0 <= i < self.cells().len() ==> {
                &&& (#[trigger] self.cells()[i]).visibility == Visibility::Revealed ==> !self.cells()[i].is_mine
                &&& self.cells()[i].visibility == Visibility::Flagged ==> self.cells()[i].is_mine
            }
    }

    /// Generates a board out of a list of mines. The 3 by 3 square around
    /// `start` is revealed and cleared of mines; `num_mines` counts the mines
    /// left on the board, so mines of `map` inside that square are not
    /// counted.
    pub fn from_mines(width: usize, height: usize, start: (usize, usize), map: Vec<bool>) -> (r: Self)
        requires
            width * height == map.len(),
            width < isize::MAX,
            height < isize::MAX,
        ensures
            r.wf(),
            r.grid.width == width,
            r.grid.height == height,
            r.num_mines == count_mines(r.cells()),
            forall|i: int|
                0 <= i < map.len() ==> {
                    let c = #[trigger] r.cells()[i];
                    if near_start(start, i % (width as int), i / (width as int)) {
                        c.visibility == Visibility::Revealed && !c.is_mine
                    } else {
                        c.visibility == Visibility::Hidden && c.is_mine == map@[i]
                    }
                },
            r.hints_consistent(),
            r.visibility_consistent(),
    {
        let mut data: Vec<Cell> = Vec::new();
        let mut num_mines: usize = 0;
        let mut i: usize = 0;
        while i < map.len()
            invariant
                i <= map.len(),
                data.len() == i,
                num_mines == count_true(map@.subrange(0, i as int)),
                num_mines <= i,
                forall|k: int|
                    0 <= k < i ==> (#[trigger] data@[k]).is_mine == map@[k] && data@[k].adjacent_mines
                        == 0 && data@[k].visibility == Visibility::Hidden,
            decreases map.len() - i,
        {
            assert(map@.subrange(0, i + 1).drop_last() =~= map@.subrange(0, i as int));
            data.push(Cell { is_mine: map[i], adjacent_mines: 0, visibility: Visibility::Hidden });
            if map[i] {
                num_mines = num_mines + 1;
            }
            i = i + 1;
        }
        assert(map@.subrange(0, map.len() as int) =~= map@);
        let mut board = Board { grid: Grid { width, height, data }, num_mines };
        let n = width * height;
        let mut i: usize = 0;
        while i < n
            invariant
                n == width * height,
                board.grid.width == width,
                board.grid.height == height,
                board.wf(),
                board.num_mines == count_true(map@),
                i <= n,
                forall|k: int|
                    0 <= k < n ==> (#[trigger] board.cells()[k]).adjacent_mines == 0,
                forall|k: int|
                    0 <= k < i ==> {
                        let c = #[trigger] board.cells()[k];
                        if near_start(start, k % (width as int), k / (width as int)) {
                            c.visibility == Visibility::Revealed && !c.is_mine
                        } else {
                            c.visibility == Visibility::Hidden && c.is_mine == map@[k]
                        }
                    },
                forall|k: int|
                    i <= k < n ==> (#[trigger] board.cells()[k]).visibility == Visibility::Hidden
                        && board.cells()[k].is_mine == map@[k],
            decreases n - i,
        {
            proof {
                lemma_pos_len(width as int, height as int, i as int);
            }
            let (x, y) = board.grid.to_coords(i);
            let dx = if start.0 > x { start.0 - x } else { x - start.0 };
            let dy = if start.1 > y { start.1 - y } else { y - start.1 };
            if dx <= 1 && dy <= 1 {
                let c = *board.grid.get(i);
                board.grid.set(i, Cell { is_mine: false, adjacent_mines: c.adjacent_mines, visibility: Visibility::Revealed });
            }
            i = i + 1;
        }
        board.generate_hints_from_mines();
        let mut left: usize = 0;
        let mut k: usize = 0;
        let ghost bh = board;
        while k < n
            invariant
                board == bh,
                n == board.cells().len(),
                k <= n,
                left == count_mines(board.cells().subrange(0, k as int)),
                left <= k,
            decreases n - k,
        {
            proof {
                assert(board.cells().subrange(0, k + 1).drop_last() =~= board.cells().subrange(0, k as int));
            }
            if board.grid.get(k).is_mine {
                left = left + 1;
            }
            k = k + 1;
        }
        proof {
            assert(board.cells().subrange(0, n as int) =~= board.cells());
        }
        board.num_mines = left;
        proof {
            assert forall|i: int| 0 <= i < board.cells().len() implies #[trigger] board.hint_ok(i) by {
                assert(bh.hint_ok(i));
            }
        }
        board
    }

    /// Sets every hint to the number of mines around its cell, starting from
    /// hints that are all zero.
    #[verifier::spinoff_prover]
    #[verifier::rlimit(40)]
    fn generate_hints_from_mines(&mut self)
        requires
            old(self).wf(),
            forall|k: int| 0 <= k < old(self).cells().len() ==> (#[trigger] old(self).cells()[k]).adjacent_mines == 0,
        ensures
            final(self).wf(),
            final(self).grid.width == old(self).grid.width,
            final(self).grid.height == old(self).grid.height,
            final(self).num_mines == old(self).num_mines,
            final(self).cells().len() == old(self).cells().len(),
            forall|k: int|
                0 <= k < old(self).cells().len() ==> (#[trigger] final(self).cells()[k]).is_mine
                    == old(self).cells()[k].is_mine && final(self).cells()[k].visibility == old(
                    self,
                ).cells()[k].visibility,
            final(self).hints_consistent(),
    {
        let ghost s0 = self.cells();
        let ghost w = self.w();
        let ghost h = self.h();
        let n = self.grid.width * self.grid.height;
        let mut m: usize = 0;
        while m < n
            invariant
                n == w * h,
                w == self.w(),
                h == self.h(),
                self.wf(),
                self.cells().len() == s0.len(),
                self.num_mines == old(self).num_mines,
                self.grid.width == old(self).grid.width,
                self.grid.height == old(self).grid.height,
                s0 == old(self).cells(),
                m <= n,
                forall|k: int|
                    0 <= k < n ==> (#[trigger] self.cells()[k]).is_mine == s0[k].is_mine
                        && self.cells()[k].visibility == s0[k].visibility,
                forall|k: int|
                    0 <= k < n ==> (#[trigger] self.cells()[k]).adjacent_mines == adj_mines_below(
                        s0,
                        w,
                        h,
                        k % w,
                        k / w,
                        m as int,
                    ),
            decreases n - m,
        {
            proof {
                lemma_pos_len(w, h, m as int);
            }
            if self.grid.get(m).is_mine {
                let adj = self.grid.get_adjacent_indices(m);
                let mut p: usize = 0;
                while p < 8
                    invariant
                        n == w * h,
                        w == self.w(),
                        h == self.h(),
                        0 < w,
                        self.wf(),
                        self.cells().len() == s0.len(),
                        self.num_mines == old(self).num_mines,
                        self.grid.width == old(self).grid.width,
                        self.grid.height == old(self).grid.height,
                        m < n,
                        s0[m as int].is_mine,
                        p <= 8,
                        adj.len() == 8,
                        forall|q: int|
                            0 <= q < 8 ==> #[trigger] adj@[q] == nbr(
                                w,
                                h,
                                (m as int) % w,
                                (m as int) / w,
                                if q < 4 { q } else { q + 1 },
                            ),
                        forall|k: int|
                            0 <= k < n ==> (#[trigger] self.cells()[k]).is_mine == s0[k].is_mine
                                && self.cells()[k].visibility == s0[k].visibility,
                        forall|k: int|
                            0 <= k < n ==> (#[trigger] self.cells()[k]).adjacent_mines == adj_mines_below(
                                s0,
                                w,
                                h,
                                k % w,
                                k / w,
                                m as int,
                            ) + (if exists|q: int| 0 <= q < p && adj@[q] == Some(k as usize) { 1int } else { 0 }),
                    decreases 8 - p,
                {
                    if let Some(nb) = adj[p] {
                        proof {
                            let kk = if p < 4 { p as int } else { p + 1 };
                            lemma_coords_index(w, h, m as int);
                            lemma_index_coords(w, h, (m as int) % w + kk % 3 - 1, (m as int) / w + kk / 3 - 1);
                            assert(!exists|q: int| 0 <= q < p && adj@[q] == Some(nb)) by {
                                if exists|q: int| 0 <= q < p && adj@[q] == Some(nb) {
                                    let q = choose|q: int| 0 <= q < p && adj@[q] == Some(nb);
                                    let kq = if q < 4 { q } else { q + 1 };
                                    lemma_nbr_distinct(w, h, (m as int) % w, (m as int) / w, kq, kk);
                                }
                            }
                            lemma_pos_len(w, h, nb as int);
                            lemma_slot_sum_bounds(|k: int| mine_below(s0, nbr(w, h, (nb as int) % w, (nb as int) / w, k), m as int));
                        }
                        let c = *self.grid.get(nb);
                        let ghost before = self.cells();
                        self.grid.set(nb, Cell { is_mine: c.is_mine, adjacent_mines: c.adjacent_mines + 1, visibility: c.visibility });
                        proof {
                            assert forall|k: int| 0 <= k < n implies (#[trigger] self.cells()[k]).adjacent_mines == adj_mines_below(
                                s0,
                                w,
                                h,
                                k % w,
                                k / w,
                                m as int,
                            ) + (if exists|q: int| 0 <= q < p + 1 && adj@[q] == Some(k as usize) { 1int } else { 0 }) by {
                                if k == nb {
                                    assert(adj@[p as int] == Some(k as usize));
                                } else {
                                    if exists|q: int| 0 <= q < p + 1 && adj@[q] == Some(k as usize) {
                                        let q = choose|q: int| 0 <= q < p + 1 && adj@[q] == Some(k as usize);
                                        assert(q != p);
                                    }
                                    assert(before[k] == self.cells()[k]);
                                }
                            }
                        }
                    } else {
                        proof {
                            assert forall|k: int| 0 <= k < n implies (#[trigger] self.cells()[k]).adjacent_mines == adj_mines_below(
                                s0,
                                w,
                                h,
                                k % w,
                                k / w,
                                m as int,
                            ) + (if exists|q: int| 0 <= q < p + 1 && adj@[q] == Some(k as usize) { 1int } else { 0 }) by {
                                if exists|q: int| 0 <= q < p + 1 && adj@[q] == Some(k as usize) {
                                    let q = choose|q: int| 0 <= q < p + 1 && adj@[q] == Some(k as usize);
                                    assert(q != p);
                                }
                            }
                        }
                    }
                    p = p + 1;
                }
                proof {
                    assert forall|k: int| 0 <= k < n implies (#[trigger] self.cells()[k]).adjacent_mines == adj_mines_below(
                        s0,
                        w,
                        h,
                        k % w,
                        k / w,
                        m + 1,
                    ) by {
                        lemma_below_step(s0, w, h, m as int, k);
                        let e1 = exists|q: int| 0 <= q < 8 && adj@[q] == Some(k as usize);
                        if e1 {
                            let q = choose|q: int| 0 <= q < 8 && adj@[q] == Some(k as usize);
                            let kq = if q < 4 { q } else { q + 1 };
                            assert(is_nbr_slot(kq));
                        }
                        if is_adjacent(w, h, m as int, k) {
                            let kk = choose|kk: int| is_nbr_slot(kk) && nbr(w, h, (m as int) % w, (m as int) / w, kk) == Some(k as usize);
                            let q = if kk < 4 { kk } else { kk - 1 };
                            assert(adj@[q] == Some(k as usize));
                        }
                    }
                }
            } else {
                proof {
                    assert forall|k: int| 0 <= k < n implies (#[trigger] self.cells()[k]).adjacent_mines == adj_mines_below(
                        s0,
                        w,
                        h,
                        k % w,
                        k / w,
                        m + 1,
                    ) by {
                        lemma_below_step(s0, w, h, m as int, k);
                    }
                }
            }
            m = m + 1;
        }
        proof {
            assert forall|i: int| 0 <= i < self.cells().len() implies #[trigger] self.hint_ok(i) by {
                lemma_below_all(s0, w, h, i);
                let f = |k: int| mine_at(s0, nbr(w, h, i % w, i / w, k));
                let g = |k: int| mine_at(self.cells(), nbr(w, h, i % w, i / w, k));
                assert forall|k: int| is_nbr_slot(k) implies f(k) == g(k) by {
                    lemma_pos_len(w, h, i);
                    lemma_coords_index(w, h, i);
                    if nbr(w, h, i % w, i / w, k) is Some {
                        lemma_index_coords(w, h, i % w + k % 3 - 1, i / w + k / 3 - 1);
                    }
                }
                lemma_slot_sum_eq(f, g);
            }
        }
    }
}

/// `c` with its visibility replaced by `v`.
pub open spec fn with_vis(c: Cell, v: Visibility) -> Cell {
    Cell { visibility: v, ..c }
}

/// The position `(x, y)` if it lies in a `w` by `h` board.
pub open spec fn cell_opt(w: int, h: int, x: int, y: int) -> Option<(usize, usize)> {
    if 0 <= x < w && 0 <= y < h {
        Some((x as usize, y as usize))
    } else {
        None
    }
}

impl Board {
    /// Re-calculates the hint for the cell at the given index
    pub fn compute_mines(&mut self, index: usize)
        requires
            old(self).wf(),
            index < old(self).cells().len(),
        ensures
            final(self).wf(),
            final(self).grid.width == old(self).grid.width,
            final(self).grid.height == old(self).grid.height,
            final(self).num_mines == old(self).num_mines,
            final(self).cells() == old(self).cells().update(
                index as int,
                (Cell {
                    adjacent_mines: adj_mine_count(
                        old(self).cells(),
                        old(self).w(),
                        old(self).h(),
                        index as int % old(self).w(),
                        index as int / old(self).w(),
                    ) as u8,
                    ..old(self).cells()[index as int]
                }),
            ),
    {
        let ghost w = self.w();
        let ghost h = self.h();
        let ghost s = self.cells();
        proof {
            lemma_pos_len(w, h, index as int);
        }
        let adj = self.grid.get_adjacent_indices(index);
        let mut count: usize = 0;
        let mut p: usize = 0;
        let ghost cx = index as int % w;
        let ghost cy = index as int / w;
        while p < 8
            invariant
                0 < w,
                w == self.w(),
                h == self.h(),
                s == self.cells(),
                self.wf(),
                index < s.len(),
                adj.len() == 8,
                forall|q: int| 0 <= q < 8 ==> #[trigger] adj@[q] == nbr(w, h, cx, cy, if q < 4 { q } else { q + 1 }),
                p <= 8,
                count == slot_sum(|k: int| if (k < 4 && k < p) || (k > 4 && k <= p) { mine_at(s, nbr(w, h, cx, cy, k)) } else { 0 }),
                count <= p,
            decreases 8 - p,
        {
            let ghost kk: int = if p < 4 { p as int } else { p + 1 };
            proof {
                lemma_coords_index(w, h, index as int);
                if adj@[p as int] is Some {
                    lemma_index_coords(w, h, cx + kk % 3 - 1, cy + kk / 3 - 1);
                }
            }
            let ghost before = count;
            if let Some(nb) = adj[p] {
                if self.grid.get(nb).is_mine {
                    count = count + 1;
                }
            }
            proof {
                let f = |k: int| if (k < 4 && k < p + 1) || (k > 4 && k <= p + 1) { mine_at(s, nbr(w, h, cx, cy, k)) } else { 0 };
                let g = |k: int| if (k < 4 && k < p) || (k > 4 && k <= p) { mine_at(s, nbr(w, h, cx, cy, k)) } else { 0 };
                if mine_at(s, nbr(w, h, cx, cy, kk)) == 1 {
                    lemma_slot_sum_step(f, g, kk);
                } else {
                    lemma_slot_sum_eq(f, g);
                }
            }
            p = p + 1;
        }
        proof {
            let f = |k: int| if (k < 4 && k < 8) || (k > 4 && k <= 8) { mine_at(s, nbr(w, h, cx, cy, k)) } else { 0 };
            let g = |k: int| mine_at(s, nbr(w, h, cx, cy, k));
            lemma_slot_sum_eq(f, g);
        }
        let c = *self.grid.get(index);
        self.grid.set(index, Cell { is_mine: c.is_mine, adjacent_mines: count as u8, visibility: c.visibility });
    }

    /// The number of cells with the given visibility.
    pub fn count_cells(&self, cell_type: Visibility) -> (r: usize)
        ensures
            r == count_vis(self.cells(), cell_type),
    {
        let mut count: usize = 0;
        let mut i: usize = 0;
        while i < self.grid.data.len()
            invariant
                i <= self.grid.data.len(),
                count == count_vis(self.cells().subrange(0, i as int), cell_type),
                count <= i,
            decreases self.grid.data.len() - i,
        {
            assert(self.cells().subrange(0, i + 1).drop_last() =~= self.cells().subrange(0, i as int));
            if self.grid.data[i].visibility == cell_type {
                count = count + 1;
            }
            i = i + 1;
        }
        assert(self.cells().subrange(0, self.cells().len() as int) =~= self.cells());
        count
    }

    /// Returns a new board reset back to the initial state. Only the starting
    /// area is visible and the rest of the cells are made hidden.
    pub fn clone_reset(&self, start: (usize, usize)) -> (r: Self)
        requires
            self.wf(),
            start.0 < isize::MAX,
            start.1 <= isize::MAX,
        ensures
            r.wf(),
            r.grid.width == self.grid.width,
            r.grid.height == self.grid.height,
            r.num_mines == self.num_mines,
            r.cells().len() == self.cells().len(),
            forall|i: int|
                0 <= i < self.cells().len() ==> #[trigger] r.cells()[i] == with_vis(
                    self.cells()[i],
                    if spec_in_safe_area(start, ((i % self.w()) as usize, (i / self.w()) as usize)) {
                        Visibility::Revealed
                    } else {
                        Visibility::Hidden
                    },
                ),
    {
        let mut data: Vec<Cell> = Vec::new();
        let mut i: usize = 0;
        while i < self.grid.data.len()
            invariant
                self.wf(),
                start.0 < isize::MAX,
                start.1 <= isize::MAX,
                i <= self.grid.data.len(),
                data.len() == i,
                forall|k: int|
                    0 <= k < i ==> #[trigger] data@[k] == with_vis(
                        self.cells()[k],
                        if spec_in_safe_area(start, ((k % self.w()) as usize, (k / self.w()) as usize)) {
                            Visibility::Revealed
                        } else {
                            Visibility::Hidden
                        },
                    ),
            decreases self.grid.data.len() - i,
        {
            proof {
                lemma_pos_len(self.w(), self.h(), i as int);
            }
            let c = self.grid.data[i];
            let v = if in_safe_area(start, self.grid.to_coords(i)) {
                Visibility::Revealed
            } else {
                Visibility::Hidden
            };
            data.push(Cell { is_mine: c.is_mine, adjacent_mines: c.adjacent_mines, visibility: v });
            i = i + 1;
        }
        Board { grid: Grid { width: self.grid.width, height: self.grid.height, data }, num_mines: self.num_mines }
    }
}

impl Coordinate for (usize, usize) {
    type Unbounded = (isize, isize);
}

impl BoardInterface for Board {
    type Coords = (usize, usize);

    open spec fn well_formed(&self) -> bool {
        self.wf()
    }

    open spec fn valid_coords(&self, coords: (usize, usize)) -> bool {
        coords.0 < self.grid.width && coords.1 < self.grid.height
    }

    open spec fn valid_region(&self, start: (isize, isize), end: (isize, isize)) -> bool {
        end.0 < isize::MAX && end.1 < isize::MAX
    }

    fn height(&self) -> (r: usize)
        ensures
            r == self.grid.height,
    {
        self.grid.height
    }

    fn width(&self) -> (r: usize)
        ensures
            r == self.grid.width,
    {
        self.grid.width
    }

    fn len(&self) -> (r: usize)
        ensures
            r == self.cells().len(),
    {
        self.grid.data.len()
    }

    fn get_num_mines(&self) -> (r: usize)
        ensures
            r == self.num_mines,
    {
        self.num_mines
    }

    fn open(&mut self, coords: (usize, usize)) -> (r: Result<usize, BoardError>)
        ensures
            final(self).grid.width == old(self).grid.width,
            final(self).grid.height == old(self).grid.height,
            final(self).num_mines == old(self).num_mines,
            !old(self).valid_coords(coords) ==> r == Err::<usize, BoardError>(BoardError::CoordinatesOutOfBounds)
                && final(self).cells() == old(self).cells(),
            old(self).valid_coords(coords) ==> ({
                let i = index_of(old(self).w(), coords.0 as int, coords.1 as int);
                let c = old(self).cells()[i];
                match c.visibility {
                    Visibility::Revealed => r == Ok::<usize, BoardError>(c.adjacent_mines as usize)
                        && final(self).cells() == old(self).cells(),
                    Visibility::Flagged => r == Err::<usize, BoardError>(BoardError::OpenFlagged)
                        && final(self).cells() == old(self).cells(),
                    Visibility::Hidden => if c.is_mine {
                        r == Err::<usize, BoardError>(BoardError::OpenMine) && final(self).cells() == old(self).cells()
                    } else {
                        r == Ok::<usize, BoardError>(c.adjacent_mines as usize) && final(self).cells()
                            == old(self).cells().update(i, with_vis(c, Visibility::Revealed))
                    },
                }
            }),
    {
        if coords.0 >= self.grid.width || coords.1 >= self.grid.height {
            return Err(BoardError::CoordinatesOutOfBounds);
        }
        proof {
            lemma_index_coords(self.w(), self.h(), coords.0 as int, coords.1 as int);
        }
        let i = self.grid.to_index(coords.0, coords.1);
        let cell = *self.grid.get(i);
        match cell.visibility {
            Visibility::Revealed => Ok(cell.adjacent_mines as usize),
            Visibility::Flagged => Err(BoardError::OpenFlagged),
            Visibility::Hidden => if cell.is_mine {
                Err(BoardError::OpenMine)
            } else {
                self.grid.set(i, Cell { is_mine: cell.is_mine, adjacent_mines: cell.adjacent_mines, visibility: Visibility::Revealed });
                Ok(cell.adjacent_mines as usize)
            },
        }
    }

    fn flag(&mut self, coords: (usize, usize)) -> (r: Result<(), BoardError>)
        ensures
            final(self).grid.width == old(self).grid.width,
            final(self).grid.height == old(self).grid.height,
            final(self).num_mines == old(self).num_mines,
            !old(self).valid_coords(coords) ==> r == Err::<(), BoardError>(BoardError::CoordinatesOutOfBounds)
                && final(self).cells() == old(self).cells(),
            old(self).valid_coords(coords) ==> ({
                let i = index_of(old(self).w(), coords.0 as int, coords.1 as int);
                let c = old(self).cells()[i];
                match c.visibility {
                    Visibility::Revealed => r == Err::<(), BoardError>(BoardError::UnFlaggable)
                        && final(self).cells() == old(self).cells(),
                    Visibility::Flagged => r == Ok::<(), BoardError>(()) && final(self).cells() == old(self).cells(),
                    Visibility::Hidden => if c.is_mine {
                        r == Ok::<(), BoardError>(()) && final(self).cells() == old(self).cells().update(
                            i,
                            with_vis(c, Visibility::Flagged),
                        )
                    } else {
                        r == Err::<(), BoardError>(BoardError::BadFlag) && final(self).cells() == old(self).cells()
                    },
                }
            }),
    {
        if coords.0 >= self.grid.width || coords.1 >= self.grid.height {
            return Err(BoardError::CoordinatesOutOfBounds);
        }
        proof {
            lemma_index_coords(self.w(), self.h(), coords.0 as int, coords.1 as int);
        }
        let i = self.grid.to_index(coords.0, coords.1);
        let cell = *self.grid.get(i);
        match cell.visibility {
            Visibility::Revealed => Err(BoardError::UnFlaggable),
            Visibility::Flagged => Ok(()),
            Visibility::Hidden => if cell.is_mine {
                self.grid.set(i, Cell { is_mine: cell.is_mine, adjacent_mines: cell.adjacent_mines, visibility: Visibility::Flagged });
                Ok(())
            } else {
                Err(BoardError::BadFlag)
            },
        }
    }

    fn undo_flag(&mut self, coords: (usize, usize)) -> (r: Result<(), BoardError>)
        ensures
            final(self).grid.width == old(self).grid.width,
            final(self).grid.height == old(self).grid.height,
            final(self).num_mines == old(self).num_mines,
            !old(self).valid_coords(coords) ==> r == Err::<(), BoardError>(BoardError::CoordinatesOutOfBounds)
                && final(self).cells() == old(self).cells(),
            old(self).valid_coords(coords) ==> ({
                let i = index_of(old(self).w(), coords.0 as int, coords.1 as int);
                let c = old(self).cells()[i];
                if c.visibility == Visibility::Flagged {
                    r == Ok::<(), BoardError>(()) && final(self).cells() == old(self).cells().update(
                        i,
                        with_vis(c, Visibility::Hidden),
                    )
                } else {
                    r == Err::<(), BoardError>(BoardError::UnFlaggable) && final(self).cells() == old(self).cells()
                }
            }),
    {
        if coords.0 >= self.grid.width || coords.1 >= self.grid.height {
            return Err(BoardError::CoordinatesOutOfBounds);
        }
        proof {
            lemma_index_coords(self.w(), self.h(), coords.0 as int, coords.1 as int);
        }
        let i = self.grid.to_index(coords.0, coords.1);
        let cell = *self.grid.get(i);
        match cell.visibility {
            Visibility::Flagged => {
                self.grid.set(i, Cell { is_mine: cell.is_mine, adjacent_mines: cell.adjacent_mines, visibility: Visibility::Hidden });
                Ok(())
            },
            _ => Err(BoardError::UnFlaggable),
        }
    }

    fn peek(&self, coords: (usize, usize)) -> (r: Visibility)
        ensures
            r == self.cells()[index_of(self.w(), coords.0 as int, coords.1 as int)].visibility,
    {
        proof {
            lemma_index_coords(self.w(), self.h(), coords.0 as int, coords.1 as int);
        }
        let i = self.grid.to_index(coords.0, coords.1);
        self.grid.get(i).visibility
    }

    fn get_hint(&self, coords: (usize, usize)) -> (r: Option<usize>)
        ensures
            ({
                let c = self.cells()[index_of(self.w(), coords.0 as int, coords.1 as int)];
                r == if c.visibility == Visibility::Revealed {
                    Some(c.adjacent_mines as usize)
                } else {
                    None
                }
            }),
    {
        proof {
            lemma_index_coords(self.w(), self.h(), coords.0 as int, coords.1 as int);
        }
        let i = self.grid.to_index(coords.0, coords.1);
        let c = *self.grid.get(i);
        if c.visibility == Visibility::Revealed {
            Some(c.adjacent_mines as usize)
        } else {
            None
        }
    }

    fn reset(&mut self, start: (usize, usize))
        ensures
            final(self).grid.width == old(self).grid.width,
            final(self).grid.height == old(self).grid.height,
            final(self).num_mines == old(self).num_mines,
            final(self).cells().len() == old(self).cells().len(),
            forall|i: int|
                0 <= i < old(self).cells().len() ==> #[trigger] final(self).cells()[i] == with_vis(
                    old(self).cells()[i],
                    if spec_in_safe_area(start, ((i % old(self).w()) as usize, (i / old(self).w()) as usize)) {
                        Visibility::Revealed
                    } else {
                        Visibility::Hidden
                    },
                ),
    {
        let r = self.clone_reset(start);
        *self = r;
    }

    fn get_region(&self, start: (isize, isize), end: (isize, isize)) -> (r: Vec<Option<(usize, usize)>>)
        ensures
            ({
                let nx = if end.0 + 1 > start.0 { end.0 + 1 - start.0 } else { 0 };
                let ny = if end.1 + 1 > start.1 { end.1 + 1 - start.1 } else { 0 };
                &&& r.len() == nx * ny
                &&& forall|k: int|
                    0 <= k < r.len() ==> #[trigger] r@[k] == cell_opt(
                        self.w(),
                        self.h(),
                        start.0 + k % nx,
                        start.1 + k / nx,
                    )
            }),
    {
        let (start_x, start_y) = start;
        let end_x = end.0 + 1;
        let end_y = end.1 + 1;
        let width = self.grid.width as isize;
        let height = self.grid.height as isize;
        let mut r: Vec<Option<(usize, usize)>> = Vec::new();
        if end_x <= start_x || end_y <= start_y {
            proof {
                let nx = if end.0 + 1 > start.0 { end.0 + 1 - start.0 } else { 0 };
                let ny = if end.1 + 1 > start.1 { end.1 + 1 - start.1 } else { 0 };
                assert(nx * ny == 0) by (nonlinear_arith)
                    requires
                        nx == 0 || ny == 0,
                ;
            }
            return r;
        }
        let ghost nx: int = end_x - start_x;
        let mut y = start_y;
        while y < end_y
            invariant
                width == self.w(),
                height == self.h(),
                start_x < end_x,
                start_y <= y <= end_y,
                nx == end_x - start_x,
                r.len() == (y - start_y) * nx,
                forall|k: int|
                    0 <= k < r.len() ==> #[trigger] r@[k] == cell_opt(width as int, height as int, start_x + k % nx, start_y + k / nx),
            decreases end_y - y,
        {
            let mut x = start_x;
            let ghost row = y - start_y;
            while x < end_x
                invariant
                    width == self.w(),
                    height == self.h(),
                    start_y <= y < end_y,
                    start_x <= x <= end_x,
                    nx == end_x - start_x,
                    row == y - start_y,
                    r.len() == row * nx + (x - start_x),
                    forall|k: int|
                        0 <= k < r.len() ==> #[trigger] r@[k] == cell_opt(width as int, height as int, start_x + k % nx, start_y + k / nx),
                decreases end_x - x,
            {
                let v = if x < 0 || y < 0 || x >= width || y >= height {
                    None
                } else {
                    Some((x as usize, y as usize))
                };
                proof {
                    lemma_index_coords(nx, row + 1, x - start_x, row);
                }
                r.push(v);
                x = x + 1;
            }
            proof {
                assert((row + 1) * nx == row * nx + nx) by (nonlinear_arith);
            }
            y = y + 1;
        }
        proof {
            assert((end_y - start_y) * nx == nx * (end_y - start_y)) by (nonlinear_arith);
        }
        r
    }

    fn iter_cells(&self) -> (r: Vec<(usize, usize)>)
        ensures
            r.len() == self.cells().len(),
            forall|k: int| 0 <= k < r.len() ==> #[trigger] r@[k] == ((k % self.w()) as usize, (k / self.w()) as usize),
    {
        let mut r: Vec<(usize, usize)> = Vec::new();
        let mut i: usize = 0;
        while i < self.grid.data.len()
            invariant
                self.wf(),
                i <= self.grid.data.len(),
                r.len() == i,
                forall|k: int| 0 <= k < i ==> #[trigger] r@[k] == ((k % self.w()) as usize, (k / self.w()) as usize),
            decreases self.grid.data.len() - i,
        {
            proof {
                lemma_pos_len(self.w(), self.h(), i as int);
            }
            r.push(self.grid.to_coords(i));
            i = i + 1;
        }
        r
    }

    fn count_cells(&self, visibility: Visibility) -> (r: usize)
        ensures
            r == count_vis(self.cells(), visibility),
    {
        Board::count_cells(self, visibility)
    }
}

impl Board {
    /// Whether `new_random` takes these parameters: the start lies on the
    /// board, the sides and the number of cells fit, and the cells outside the
    /// safe area can hold the mines.
    pub fn new_random_accepts(width: usize, height: usize, start: (usize, usize), num_mines: usize) -> (r: bool)
        ensures
            r == (start.0 < width && start.1 < height && width < isize::MAX && height < isize::MAX && width * height
                <= usize::MAX && num_mines + safe_count(width as int, start) <= width * height),
    {
        if start.0 >= width || start.1 >= height {
            return false;
        }
        if width >= isize::MAX as usize || height >= isize::MAX as usize {
            return false;
        }
        let cells = match width.checked_mul(height) {
            Some(n) => n,
            None => {
                return false;
            },
        };
        let safe: usize = (if start.0 >= 1 { 1usize } else { 0 }) + 1 + (if start.0 + 1 < width { 1usize } else { 0 });
        safe <= cells && num_mines <= cells - safe
    }
}

/// Whether the cell at index `k` of a `w`-wide board lies in the safe area
/// around `start`.
pub open spec fn safe_index(w: int, start: (usize, usize), k: int) -> bool {
    spec_in_safe_area(start, ((k % w) as usize, (k / w) as usize))
}

/// The number of cells of a `w`-wide board in the safe area around `start`,
/// for a start inside the board.
pub open spec fn safe_count(w: int, start: (usize, usize)) -> int {
    (if start.0 >= 1 { 1int } else { 0 }) + 1 + (if start.0 + 1 < w { 1int } else { 0 })
}

/// The number of indices below `i` in the safe area around `start`.
pub open spec fn safe_below(w: int, start: (usize, usize), i: int) -> int
    decreases i,
{
    if i <= 0 {
        0
    } else {
        safe_below(w, start, i - 1) + if safe_index(w, start, i - 1) {
            1int
        } else {
            0
        }
    }
}

/// The safe area of a start inside the board is a run of consecutive indices.
proof fn lemma_safe_run(w: int, h: int, start: (usize, usize), k: int)
    requires
        0 < w,
        w * h <= usize::MAX,
        start.0 < w,
        start.1 < h,
        0 <= k < w * h,
    ensures
        safe_index(w, start, k) <==> (index_of(w, if start.0 >= 1 { start.0 - 1 } else { 0 }, start.1 as int) <= k
            <= index_of(w, if start.0 + 1 < w { start.0 + 1 } else { w - 1 }, start.1 as int)),
{
    lemma_coords_index(w, h, k);
    let x = k % w;
    let y = k / w;
    let lo = if start.0 >= 1 { start.0 - 1 } else { 0 };
    let a = index_of(w, lo, start.1 as int);
    let hi = if start.0 + 1 < w { start.0 + 1 } else { w - 1 };
    let b = index_of(w, hi, start.1 as int);
    if a <= k <= b {
        lemma_fundamental_div_mod_converse(k, w, start.1 as int, k - start.1 * w);
    }
}

proof fn lemma_safe_below(w: int, h: int, start: (usize, usize), i: int)
    requires
        0 < w,
        w * h <= usize::MAX,
        start.0 < w,
        start.1 < h,
        0 <= i <= w * h,
    ensures
        ({
            let a = index_of(w, if start.0 >= 1 { start.0 - 1 } else { 0 }, start.1 as int);
            let b = index_of(w, if start.0 + 1 < w { start.0 + 1 } else { w - 1 }, start.1 as int);
            safe_below(w, start, i) == if i <= a {
                0
            } else if i <= b + 1 {
                i - a
            } else {
                b + 1 - a
            }
        }),
    decreases i,
{
    if i > 0 {
        lemma_safe_below(w, h, start, i - 1);
        lemma_safe_run(w, h, start, i - 1);
    }
}

proof fn lemma_safe_total(w: int, h: int, start: (usize, usize))
    requires
        0 < w,
        w * h <= usize::MAX,
        start.0 < w,
        start.1 < h,
    ensures
        safe_below(w, start, w * h) == safe_count(w, start),
{
    lemma_safe_below(w, h, start, w * h);
    let hi = if start.0 + 1 < w { start.0 + 1 } else { w - 1 };
    lemma_index_coords(w, h, hi, start.1 as int);
}

/// A part of a sequence without duplicates has none either, and holds only
/// elements of the sequence.
pub proof fn lemma_sub_multiset_no_dup(a: Seq<usize>, b: Seq<usize>)
    requires
        b.no_duplicates(),
        a.to_multiset().subset_of(b.to_multiset()),
    ensures
        a.no_duplicates(),
        forall|x: usize| a.contains(x) ==> b.contains(x),
{
    broadcast use vstd::seq_lib::to_multiset_contains;

    b.lemma_multiset_has_no_duplicates();
    assert forall|x: usize| a.to_multiset().contains(x) implies a.to_multiset().count(x) == 1 by {
        assert(a.to_multiset().count(x) <= b.to_multiset().count(x));
        assert(a.to_multiset().count(x) > 0);
        assert(b.to_multiset().count(x) > 0);
    }
    a.lemma_multiset_has_no_duplicates_conv();
    assert forall|x: usize| a.contains(x) implies b.contains(x) by {
        assert(a.to_multiset().count(x) <= b.to_multiset().count(x));
    }
}

impl Board {
    /// Generates a board with `num_mines` mines placed at random outside the
    /// safe area around `start`, which is revealed.
    pub fn new_random(
        width: usize,
        height: usize,
        start: (usize, usize),
        rng: &mut Xoshiro128PlusPlus,
        num_mines: usize,
    ) -> (r: Self)
        requires
            start.0 < width && start.1 < height,
            width < isize::MAX,
            height < isize::MAX,
            width * height <= usize::MAX,
            num_mines + safe_count(width as int, start) <= width * height,
        ensures
            r.wf(),
            r.grid.width == width,
            r.grid.height == height,
            r.num_mines == num_mines,
            count_mines(r.cells()) == num_mines,
            forall|i: int|
                0 <= i < r.cells().len() ==> if safe_index(width as int, start, i) {
                    (#[trigger] r.cells()[i]).visibility == Visibility::Revealed && !r.cells()[i].is_mine
                } else {
                    r.cells()[i].visibility == Visibility::Hidden
                },
            r.hints_consistent(),
            r.visibility_consistent(),
    {
        let ghost w = width as int;
        let ghost h = height as int;
        let n = width * height;
        let mut data: Vec<Cell> = Vec::new();
        let mut valid_indices: Vec<usize> = Vec::new();
        let mut i: usize = 0;
        while i < n
            invariant
                n == w * h,
                w == width,
                h == height,
                0 < w,
                w < isize::MAX,
                h < isize::MAX,
                w * h <= usize::MAX,
                start.0 < w,
                start.1 < h,
                i <= n,
                data.len() == i,
                forall|k: int|
                    0 <= k < i ==> (#[trigger] data@[k]).is_mine == false && data@[k].adjacent_mines == 0
                        && data@[k].visibility == (if safe_index(w, start, k) {
                        Visibility::Revealed
                    } else {
                        Visibility::Hidden
                    }),
                valid_indices.len() == i - safe_below(w, start, i as int),
                valid_indices@.no_duplicates(),
                forall|q: int|
                    0 <= q < valid_indices.len() ==> #[trigger] valid_indices@[q] < i && !safe_index(
                        w,
                        start,
                        valid_indices@[q] as int,
                    ),
            decreases n - i,
        {
            let c = (i % width, i / width);
            if in_safe_area(start, c) {
                data.push(Cell { is_mine: false, adjacent_mines: 0, visibility: Visibility::Revealed });
            } else {
                data.push(Cell { is_mine: false, adjacent_mines: 0, visibility: Visibility::Hidden });
                valid_indices.push(i);
            }
            i = i + 1;
        }
        proof {
            lemma_safe_total(w, h, start);
        }
        let ghost valid = valid_indices@;
        let mines = sample_iter(rng, valid_indices, num_mines);
        proof {
            lemma_sub_multiset_no_dup(mines@, valid);
        }
        let mut board = Board { grid: Grid { width, height, data }, num_mines };
        proof {
            lemma_count_mines_none(board.cells());
        }
        let mut j: usize = 0;
        while j < mines.len()
            invariant
                n == w * h,
                w == width,
                h == height,
                board.grid.width == width,
                board.grid.height == height,
                board.num_mines == num_mines,
                board.wf(),
                mines@.no_duplicates(),
                mines.len() == num_mines,
                forall|q: int| 0 <= q < mines.len() ==> valid.contains(#[trigger] mines@[q]),
                forall|q: int|
                    0 <= q < valid.len() ==> #[trigger] valid[q] < n && !safe_index(w, start, valid[q] as int),
                j <= mines.len(),
                count_mines(board.cells()) == j,
                forall|k: int|
                    0 <= k < n ==> (#[trigger] board.cells()[k]).adjacent_mines == 0
                        && board.cells()[k].visibility == (if safe_index(w, start, k) {
                        Visibility::Revealed
                    } else {
                        Visibility::Hidden
                    }) && (board.cells()[k].is_mine <==> mines@.subrange(0, j as int).contains(k as usize)),
            decreases mines.len() - j,
        {
            let m = mines[j];
            proof {
                let q = choose|q: int| 0 <= q < valid.len() && valid[q] == m;
                assert(valid[q] < n);
                assert(!mines@.subrange(0, j as int).contains(m)) by {
                    if mines@.subrange(0, j as int).contains(m) {
                        let q2 = choose|q2: int| 0 <= q2 < j && mines@.subrange(0, j as int)[q2] == m;
                        assert(mines@[q2] == mines@[j as int]);
                    }
                }
                lemma_count_mines_update(board.cells(), m as int, Cell { is_mine: true, ..board.cells()[m as int] });
            }
            let c = *board.grid.get(m);
            board.grid.set(m, Cell { is_mine: true, adjacent_mines: c.adjacent_mines, visibility: c.visibility });
            proof {
                assert forall|k: int| 0 <= k < n implies (#[trigger] board.cells()[k]).is_mine <==> mines@.subrange(0, j + 1).contains(k as usize) by {
                    if mines@.subrange(0, j as int).contains(k as usize) {
                        let q2 = choose|q2: int| 0 <= q2 < j && mines@.subrange(0, j as int)[q2] == k as usize;
                        assert(mines@.subrange(0, j + 1)[q2] == k as usize);
                    }
                    let sub1 = mines@.subrange(0, j + 1);
                    if sub1.contains(k as usize) {
                        let q2 = choose|q2: int| 0 <= q2 < j + 1 && sub1[q2] == k as usize;
                        if q2 < j {
                            assert(mines@.subrange(0, j as int)[q2] == k as usize);
                        }
                    }
                    if k == m {
                        assert(mines@.subrange(0, j + 1)[j as int] == m);
                    }
                }
            }
            j = j + 1;
        }
        proof {
            assert forall|k: int| 0 <= k < n && safe_index(w, start, k) implies !(#[trigger] board.cells()[k]).is_mine by {
                if mines@.subrange(0, j as int).contains(k as usize) {
                    let q2 = choose|q2: int| 0 <= q2 < j && mines@.subrange(0, j as int)[q2] == k as usize;
                    assert(valid.contains(mines@[q2]));
                }
            }
        }
        let ghost before = board.cells();
        board.generate_hints_from_mines();
        proof {
            lemma_count_mines_eq(before, board.cells());
        }
        board
    }
}


/// Unflagging the cell that flagging made flagged gives the cells back as
/// they were.
pub proof fn lemma_undo_flag_restores(s: Seq<Cell>, i: int)
    requires
        0 <= i < s.len(),
        s[i].visibility == Visibility::Hidden,
    ensures
        s.update(i, with_vis(s[i], Visibility::Flagged)).update(i, with_vis(with_vis(s[i], Visibility::Flagged), Visibility::Hidden))
            == s,
{
    assert(s.update(i, with_vis(s[i], Visibility::Flagged)).update(i, with_vis(with_vis(s[i], Visibility::Flagged), Visibility::Hidden))
        =~= s);
}

} // verus!
