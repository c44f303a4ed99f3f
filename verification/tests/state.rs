use mines_core::state::grid::{Board, Grid};
use mines_core::state::{in_safe_area, BoardError, BoardInterface, Cell, Visibility};

fn board_from(rows: &[&str], start: (usize, usize)) -> Board {
    let height = rows.len();
    let width = rows[0].len();
    let map: Vec<bool> = rows.iter().flat_map(|r| r.chars().map(|c| c == '*')).collect();
    Board::from_mines(width, height, start, map)
}

#[test]
fn safe_area_is_the_row_of_three_around_start() {
    assert!(in_safe_area((4, 4), (3, 4)));
    assert!(in_safe_area((4, 4), (4, 4)));
    assert!(in_safe_area((4, 4), (5, 4)));
    assert!(!in_safe_area((4, 4), (6, 4)));
    assert!(!in_safe_area((4, 4), (4, 3)));
    assert!(!in_safe_area((4, 4), (4, 5)));
    assert!(in_safe_area((0, 3), (0, 3)));
}

#[test]
fn visibility_names_and_default() {
    assert_eq!(Visibility::Hidden.to_string(), "Hidden");
    assert_eq!(Visibility::Flagged.to_string(), "Flagged");
    assert_eq!(Visibility::Revealed.to_string(), "Revealed");
    assert_eq!(Visibility::default(), Visibility::Hidden);
}

#[test]
fn cell_default_unconver_flag() {
    let mut c = Cell::default();
    assert!(!c.is_mine);
    assert_eq!(c.adjacent_mines, 0);
    assert_eq!(c.visibility, Visibility::Hidden);
    c.unconver();
    assert_eq!(c.visibility, Visibility::Revealed);
    c.flag();
    assert_eq!(c.visibility, Visibility::Flagged);
}

#[test]
fn from_mines_counts_hints_and_reveals_start() {
    let rows = ["*..", "...", "..*"];
    let board = board_from(&rows, (2, 0));
    assert_eq!(board.num_mines, 2);
    assert_eq!(board.grid.data[4].adjacent_mines, 2);
    assert_eq!(board.grid.data[1].adjacent_mines, 1);
    assert_eq!(board.peek((2, 0)), Visibility::Revealed);
    assert_eq!(board.peek((0, 0)), Visibility::Hidden);
}

#[test]
fn from_mines_clears_the_start_square() {
    let rows = ["***", "***", "***"];
    let board = board_from(&rows, (1, 1));
    assert_eq!(board.num_mines, 0);
    let left = board.grid.data.iter().filter(|c| c.is_mine).count();
    assert_eq!(left, 0);
    assert_eq!(board.count_cells(Visibility::Revealed), 9);
}

#[test]
fn open_errors_and_success() {
    let rows = ["*....", ".....", ".....", "....."];
    let mut board = board_from(&rows, (3, 2));
    assert_eq!(board.open((9, 0)), Err(BoardError::CoordinatesOutOfBounds));
    assert_eq!(board.open((5, 0)), Err(BoardError::CoordinatesOutOfBounds));
    assert_eq!(board.open((0, 0)), Err(BoardError::OpenMine));
    assert_eq!(board.peek((0, 0)), Visibility::Hidden);
    assert_eq!(board.open((1, 1)), Ok(1));
    assert_eq!(board.peek((1, 1)), Visibility::Revealed);
    assert_eq!(board.open((1, 1)), Ok(1));
    assert_eq!(board.flag((0, 0)), Ok(()));
    assert_eq!(board.open((0, 0)), Err(BoardError::OpenFlagged));
}

#[test]
fn flag_and_undo_flag() {
    let rows = ["*....", ".....", ".....", "....."];
    let mut board = board_from(&rows, (3, 2));
    assert_eq!(board.flag((3, 2)), Err(BoardError::UnFlaggable));
    assert_eq!(board.flag((1, 0)), Err(BoardError::BadFlag));
    assert_eq!(board.flag((7, 7)), Err(BoardError::CoordinatesOutOfBounds));
    assert_eq!(board.flag((0, 0)), Ok(()));
    assert_eq!(board.peek((0, 0)), Visibility::Flagged);
    assert_eq!(board.flag((0, 0)), Ok(()));
    assert_eq!(board.undo_flag((0, 0)), Ok(()));
    assert_eq!(board.peek((0, 0)), Visibility::Hidden);
    assert_eq!(board.undo_flag((0, 0)), Err(BoardError::UnFlaggable));
    assert_eq!(board.undo_flag((9, 9)), Err(BoardError::CoordinatesOutOfBounds));
}

#[test]
fn hints_only_of_revealed_cells() {
    let rows = ["*....", ".....", "....."];
    let mut board = board_from(&rows, (3, 1));
    assert_eq!(board.get_hint((0, 1)), None);
    assert_eq!(board.open((0, 1)), Ok(1));
    assert_eq!(board.get_hint((0, 1)), Some(1));
}

#[test]
fn reset_hides_all_but_the_safe_area() {
    let rows = ["*....", ".....", "....."];
    let mut board = board_from(&rows, (3, 1));
    board.open((0, 2)).unwrap();
    board.flag((0, 0)).unwrap();
    board.reset((3, 1));
    assert_eq!(board.count_cells(Visibility::Revealed), 3);
    assert_eq!(board.count_cells(Visibility::Flagged), 0);
    assert_eq!(board.peek((0, 2)), Visibility::Hidden);
    let copy = board.clone_reset((1, 1));
    assert_eq!(copy.count_cells(Visibility::Revealed), 3);
    assert_eq!(copy.peek((0, 1)), Visibility::Revealed);
    assert_eq!(copy.grid.data[0].is_mine, true);
}

#[test]
fn board_dimensions_and_cells() {
    let rows = ["*...", "...."];
    let board = board_from(&rows, (2, 1));
    assert_eq!(board.width(), 4);
    assert_eq!(board.height(), 2);
    assert_eq!(BoardInterface::len(&board), 8);
    assert_eq!(board.get_num_mines(), 1);
    let cells = board.iter_cells();
    assert_eq!(cells.len(), 8);
    assert_eq!(cells[5], (1, 1));
    assert_eq!(BoardInterface::count_cells(&board, Visibility::Hidden), 2);
}

#[test]
fn region_lists_cells_row_by_row() {
    let rows = ["....", "....", "...."];
    let board = board_from(&rows, (2, 1));
    let r = board.get_region((-1, 0), (1, 1));
    assert_eq!(r, vec![None, Some((0, 0)), Some((1, 0)), None, Some((0, 1)), Some((1, 1))]);
    assert!(board.get_region((2, 2), (1, 1)).is_empty());
}

#[test]
fn compute_mines_recounts_a_hint() {
    let rows = ["*..", "...", "..."];
    let mut board = board_from(&rows, (2, 2));
    board.grid.data[4].adjacent_mines = 7;
    board.compute_mines(4);
    assert_eq!(board.grid.data[4].adjacent_mines, 1);
}

#[test]
fn grid_indices_and_coordinates() {
    let g: Grid<u8> = Grid::new(4, 3);
    assert_eq!(g.data.len(), 12);
    assert_eq!(g.to_index(3, 2), 11);
    assert_eq!(g.to_coords(11), (3, 2));
    assert_eq!(g.to_coords(g.to_index(1, 2)), (1, 2));
    assert!(g.contains((3, 2)));
    assert!(!g.contains((4, 0)));
    assert_eq!(g.check_bounds((-1, 0)), None);
    assert_eq!(g.check_bounds((2, 1)), Some((2, 1)));
    assert_eq!(g.range(), 0..12);
    assert_eq!(g.iter().len(), 12);
    let e = g.enumerate();
    assert_eq!(e[6].0, (2, 1));
}

#[test]
fn grid_neighbours() {
    let g: Grid<u8> = Grid::from_vec(3, 3, vec![0; 9]);
    let adj = g.get_adjacent_indices(0);
    assert_eq!(adj, vec![None, None, None, None, Some(1), None, Some(3), Some(4)]);
    let rel = g.get_relative_indices((1, 1), -1..1, 0..2);
    assert_eq!(rel, vec![Some(3), Some(4), Some(6), Some(7)]);
}

#[test]
fn grid_iter_mut_changes_values() {
    let mut g: Grid<u8> = Grid::new(2, 2);
    g.iter_mut()[3] = 9;
    assert_eq!(g.data[3], 9);
}

#[test]
fn board_renders_with_colours() {
    let board = board_from(&["*.."], (2, 0));
    let expected = "[\n\t\x1b[47m\x1b[31mM\x1b[0m\x1b[49m\x1b[30m1\x1b[0m\x1b[49m\x1b[30m0\x1b[0m\n]\n";
    assert_eq!(board.to_string(), expected);
}

#[test]
fn board_debug_rendering_numbers_rows_and_columns() {
    let board = board_from(&["*.."], (2, 0));
    let expected = format!(
        "{}{}{}{}",
        "(123; 1: Visibility, 2: Mine, 3: Adjacent) [\n",
        "      0   1   2 \n",
        "  0 \x1b[47mH\x1b[31mM0\x1b[0m \x1b[49mR\x1b[30mO1\x1b[0m \x1b[49mR\x1b[30mO0\x1b[0m \n",
        "]\n"
    );
    assert_eq!(board.debug_string(), expected);
}

#[test]
fn new_random_accepts_only_boards_with_room_for_the_mines() {
    assert!(Board::new_random_accepts(5, 5, (2, 2), 22));
    assert!(!Board::new_random_accepts(5, 5, (2, 2), 23));
    assert!(Board::new_random_accepts(5, 5, (0, 2), 23));
    assert!(!Board::new_random_accepts(5, 5, (0, 2), 24));
    assert!(Board::new_random_accepts(5, 5, (4, 2), 23));
    assert!(!Board::new_random_accepts(5, 5, (5, 2), 1));
    assert!(!Board::new_random_accepts(usize::MAX / 2, 3, (0, 0), 1));
}

#[test]
fn safe_area_at_the_left_edge_keeps_the_start() {
    assert!(in_safe_area((0, 4), (0, 4)));
    assert!(in_safe_area((0, 4), (1, 4)));
    assert!(!in_safe_area((0, 4), (2, 4)));
    assert!(!in_safe_area((0, 4), (0, 3)));
}

#[test]
fn check_bounds_refuses_the_width_and_height() {
    let rows = ["*...", "...."];
    let board = board_from(&rows, (2, 1));
    assert_eq!(board.grid.check_bounds((3, 1)), Some((3, 1)));
    assert_eq!(board.grid.check_bounds((4, 1)), None);
    assert_eq!(board.grid.check_bounds((3, 2)), None);
    assert_eq!(board.grid.check_bounds((-1, 0)), None);
}
