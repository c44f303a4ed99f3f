//! Cells, their visibility and the errors of gameplay actions.
use vstd::prelude::*;

pub mod grid;
pub mod render;

verus! {

/// Whether `(x, y)` lies in the guaranteed-safe area opened around the
/// starting cell `start`: the cells `start.0 - 1 ..= start.0 + 1` of the
/// starting row that lie on the board. A start in the first column keeps
/// the start cell and its right neighbour.
pub open spec fn spec_in_safe_area(start: (usize, usize), c: (usize, usize)) -> bool {
    &&& start.0 <= c.0 + 1
    &&& c.0 <= start.0 + 1
    &&& c.1 == start.1
}

pub fn in_safe_area(start: (usize, usize), c: (usize, usize)) -> (r: bool)
    requires
        start.0 < isize::MAX,
        start.1 <= isize::MAX,
    ensures
        r == spec_in_safe_area(start, c),
{
    let (x, y) = c;
    (start.0 <= x || start.0 - x == 1) && (x <= start.0 || x - start.0 == 1) && y == start.1
}

#[derive(Clone, Copy, PartialEq, Eq, Debug, Structural)]
pub enum Visibility {
    Hidden,
    Flagged,
    Revealed,
}

impl Default for Visibility {
    fn default() -> (r: Self)
        ensures
            r == Visibility::Hidden,
    {
        Visibility::Hidden
    }
}

impl Visibility {
    /// The name of the visibility, as it is displayed.
    pub fn to_string(&self) -> (r: String)
        ensures
            r@ == (match *self {
                Visibility::Hidden => "Hidden"@,
                Visibility::Flagged => "Flagged"@,
                Visibility::Revealed => "Revealed"@,
            }),
    {
        match self {
            Visibility::Hidden => String::from_str("Hidden"),
            Visibility::Flagged => String::from_str("Flagged"),
            Visibility::Revealed => String::from_str("Revealed"),
        }
    }
}

#[derive(Clone, Copy, Debug)]
pub struct Cell {
    pub is_mine: bool,
    pub adjacent_mines: u8,
    pub visibility: Visibility,
}

impl Default for Cell {
    fn default() -> (r: Self)
        ensures
            !r.is_mine,
            r.adjacent_mines == 0,
            r.visibility == Visibility::Hidden,
    {
        Cell { is_mine: false, adjacent_mines: 0, visibility: Visibility::Hidden }
    }
}

impl Cell {
    pub fn unconver(&mut self)
        ensures
            final(self).visibility == Visibility::Revealed,
            final(self).is_mine == old(self).is_mine,
            final(self).adjacent_mines == old(self).adjacent_mines,
    {
        self.visibility = Visibility::Revealed;
    }

    pub fn flag(&mut self)
        ensures
            final(self).visibility == Visibility::Flagged,
            final(self).is_mine == old(self).is_mine,
            final(self).adjacent_mines == old(self).adjacent_mines,
    {
        self.visibility = Visibility::Flagged;
    }
}

#[derive(Debug, Clone, Copy, PartialEq, Eq, Structural)]
pub enum BoardError {
    CoordinatesOutOfBounds,
    /// Trying to open a flagged cell (usually ignored)
    OpenFlagged,
    /// Trying to open a mine (lose condition)
    OpenMine,
    /// Trying to flag a revealed cell or unflag a revealed or hidden cell
    UnFlaggable,
    /// Trying to flag an open hidden cell (not fatal but wrong)
    BadFlag,
}

/// A coordinate system of a board.
pub trait Coordinate {
    /// The signed version of this coordinate system
    type Unbounded;
}

/// Acts as an API for boards to restrict access to gameplay-accessible data.
pub trait BoardInterface {
    type Coords: Coordinate;

    /// The board's own consistency, which every operation keeps.
    spec fn well_formed(&self) -> bool;

    /// Whether `coords` names a cell of the board.
    spec fn valid_coords(&self, coords: Self::Coords) -> bool;

    /// Whether the region from `start` to `end` (both included) can be walked.
    spec fn valid_region(
        &self,
        start: <Self::Coords as Coordinate>::Unbounded,
        end: <Self::Coords as Coordinate>::Unbounded,
    ) -> bool;

    /// Total number of cells in the board
    fn len(&self) -> usize;

    /// Horizontal axis
    fn width(&self) -> usize;

    /// Vertical axis
    fn height(&self) -> usize;

    fn get_num_mines(&self) -> usize;

    /// Opens the cell at `coords`, returns Ok(hint) or the reason it cannot.
    fn open(&mut self, coords: Self::Coords) -> (r: Result<usize, BoardError>)
        requires
            old(self).well_formed(),
        ensures
            final(self).well_formed(),
    ;

    /// Flags cell at `coords`.
    fn flag(&mut self, coords: Self::Coords) -> (r: Result<(), BoardError>)
        requires
            old(self).well_formed(),
        ensures
            final(self).well_formed(),
    ;

    /// Unflags cell at `coords`.
    fn undo_flag(&mut self, coords: Self::Coords) -> (r: Result<(), BoardError>)
        requires
            old(self).well_formed(),
        ensures
            final(self).well_formed(),
    ;

    /// Displays the visibility of the cell at `coords`.
    fn peek(&self, coords: Self::Coords) -> Visibility
        requires
            self.well_formed(),
            self.valid_coords(coords),
    ;

    /// The hint of the cell at `coords`, if it is revealed.
    fn get_hint(&self, coords: Self::Coords) -> Option<usize>
        requires
            self.well_formed(),
            self.valid_coords(coords),
    ;

    /// Resets the board back to the initial state in-place. Only the starting
    /// area is visible and the rest of the cells are made hidden.
    fn reset(&mut self, start: Self::Coords)
        requires
            old(self).well_formed(),
            old(self).valid_coords(start),
        ensures
            final(self).well_formed(),
    ;

    /// The cells of the region from `start` to `end` (both included), row by
    /// row, or `None` for a position outside the board.
    fn get_region(
        &self,
        start: <Self::Coords as Coordinate>::Unbounded,
        end: <Self::Coords as Coordinate>::Unbounded,
    ) -> Vec<Option<Self::Coords>>
        requires
            self.well_formed(),
            self.valid_region(start, end),
    ;

    /// All cells of the board.
    fn iter_cells(&self) -> Vec<Self::Coords>
        requires
            self.well_formed(),
    ;

    /// Counts cells of a specific visibility.
    fn count_cells(&self, visibility: Visibility) -> usize
        requires
            self.well_formed(),
    ;
}

} // verus!
