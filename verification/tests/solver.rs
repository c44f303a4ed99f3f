use mines_core::generator::Solver as Generator;
use mines_core::solver::st::StSolver;
use mines_core::solver::{count_ones, Constraint, Solver, SolverOptions};
use mines_core::state::grid::Board;
use mines_core::state::{BoardInterface, Visibility};

fn board_from(rows: &[&str], start: (usize, usize)) -> Board {
    let height = rows.len();
    let width = rows[0].len();
    let map: Vec<bool> = rows.iter().flat_map(|r| r.chars().map(|c| c == '*')).collect();
    Board::from_mines(width, height, start, map)
}

#[test]
fn solved_board_flags_exactly_the_mines() {
    let rows = [
        "*...*...*",
        "**.***..*",
        "*....*...",
        "**......*",
        "**....**.",
        "***...***",
        "...*.*..*",
        "*...*...*",
        ".***...**",
    ];
    let mut board = board_from(&rows, (4, 4));
    let mines = board.grid.data.iter().filter(|c| c.is_mine).count();
    let r = StSolver::solve_with_options(&mut board, SolverOptions::default());
    assert!(r.is_ok());
    assert_eq!(board.count_cells(Visibility::Hidden), 0);
    for c in &board.grid.data {
        assert_eq!(c.visibility == Visibility::Flagged, c.is_mine);
    }
    assert_eq!(board.count_cells(Visibility::Flagged), mines);
}

#[test]
fn stuck_solver_returns_constraints_true_of_the_board() {
    // The two cells of the top-right corner pair cannot be told apart.
    let rows = ["..*.*", ".....", "*....", "....*", "**..."];
    let mut board = board_from(&rows, (2, 2));
    let r = StSolver::solve_with_options(&mut board, SolverOptions::default());
    match r {
        Ok(()) => {
            assert_eq!(board.count_cells(Visibility::Hidden), 0);
        }
        Err(constraints) => {
            assert!(board.count_cells(Visibility::Hidden) > 0);
            assert_eq!(constraints.width, board.grid.width);
            for bucket in &constraints.data {
                for c in bucket {
                    let mut mines = 0u8;
                    for (x, y) in c.masked_cells() {
                        let cell = board.grid.data[y * board.grid.width + x];
                        assert_eq!(cell.visibility, Visibility::Hidden);
                        if cell.is_mine {
                            mines += 1;
                        }
                    }
                    assert_eq!(mines, c.mines);
                }
            }
        }
    }
    for c in &board.grid.data {
        if c.visibility == Visibility::Revealed {
            assert!(!c.is_mine);
        }
        if c.visibility == Visibility::Flagged {
            assert!(c.is_mine);
        }
    }
}

#[test]
fn one_mine_left_among_one_hidden_cell_is_flagged() {
    let rows = ["*....", ".....", "....."];
    let mut board = board_from(&rows, (2, 1));
    let r = Generator::solve_grid(&mut board, 1);
    assert!(r.is_ok());
    assert_eq!(board.peek((0, 0)), Visibility::Flagged);
    assert_eq!(board.count_cells(Visibility::Flagged), 1);
}

#[test]
fn empty_board_is_solved() {
    let mut board = Board::from_mines(0, 0, (0, 0), Vec::new());
    assert!(StSolver::solve_with_options(&mut board, SolverOptions::default()).is_ok());
}

#[test]
fn solver_options_default_values() {
    let o = SolverOptions::default();
    assert_eq!(o.max_disjoint_union_recursion_depth, 15);
    assert_eq!(o.max_perturbations, 500);
}

#[test]
fn count_ones_counts_nine_bits() {
    assert_eq!(count_ones(0), 0);
    assert_eq!(count_ones(0b101), 2);
    assert_eq!(count_ones(0b111_111_111), 9);
}

#[test]
fn normalised_moves_to_the_first_covered_column_and_row() {
    let c = Constraint { x: 0, y: 0, mask: 0b000_010_000, mines: 1 };
    let n = c.normalised().unwrap();
    assert_eq!(n, Constraint { x: 1, y: 1, mask: 1, mines: 1 });
    let c = Constraint { x: 3, y: 4, mask: 0b100_000_000, mines: 0 };
    assert_eq!(c.normalised().unwrap(), Constraint { x: 5, y: 6, mask: 1, mines: 0 });
    assert!(Constraint { x: 0, y: 0, mask: 0, mines: 0 }.normalised().is_none());
}

#[test]
fn contains_checks_window_and_bit() {
    let c = Constraint { x: 2, y: 2, mask: 0b000_000_011, mines: 1 };
    assert!(c.contains((2, 2)));
    assert!(c.contains((3, 2)));
    assert!(!c.contains((4, 2)));
    assert!(!c.contains((2, 3)));
    assert!(!c.contains((0, 0)));
}

#[test]
fn masked_cells_lists_covered_cells_in_bit_order() {
    let c = Constraint { x: 1, y: 2, mask: 0b100_010_001, mines: 1 };
    assert_eq!(c.masked_cells(), vec![(1, 2), (2, 3), (3, 4)]);
}

#[test]
fn munge_intersection_and_difference() {
    let a = Constraint { x: 0, y: 0, mask: 0b000_000_111, mines: 1 };
    let b = Constraint { x: 1, y: 0, mask: 0b000_000_111, mines: 1 };
    // b covers (1,0), (2,0), (3,0); a covers (0,0), (1,0), (2,0).
    assert_eq!(a.munge(b, false), 0b110);
    assert_eq!(a.munge(b, true), 0b001);
    assert_eq!(b.munge(a, true), 0b100);
    let far = Constraint { x: 5, y: 5, mask: 0b111, mines: 1 };
    assert_eq!(a.munge(far, false), 0);
    assert_eq!(a.munge(far, true), a.mask);
}

#[test]
fn from_grid_builds_constraint_of_hidden_neighbours() {
    let rows = ["*..", "...", "..."];
    let board = board_from(&rows, (2, 2));
    // Cell (1,1) is revealed (start area), its hidden neighbours are the top row and left column.
    let c = Constraint::from_grid(&board, (1, 1)).unwrap();
    assert_eq!(c.mines, 1);
    let cells = c.masked_cells();
    assert!(cells.contains(&(0, 0)));
    for (x, y) in &cells {
        assert_eq!(board.grid.data[y * 3 + x].visibility, Visibility::Hidden);
    }
    // A hidden cell yields no constraint.
    assert!(Constraint::from_grid(&board, (0, 0)).is_none());
}

#[test]
fn constraint_groups_split_disjoint_and_break_ties_on_density() {
    let a = Constraint { x: 0, y: 0, mask: 0b000_000_001, mines: 1 };
    let b = Constraint { x: 0, y: 0, mask: 0b000_000_011, mines: 1 };
    let c = Constraint { x: 10, y: 10, mask: 0b111, mines: 2 };
    let groups = Constraint::into_constraint_groups(vec![b, c, a]);
    assert_eq!(groups.len(), 2);
    assert_eq!(groups[0], vec![a, b]);
    assert_eq!(groups[1], vec![c]);
}

#[test]
fn constraint_groups_sort_by_mines_first() {
    let a = Constraint { x: 0, y: 0, mask: 0b011, mines: 1 };
    let b = Constraint { x: 0, y: 0, mask: 0b110, mines: 2 };
    let groups = Constraint::into_constraint_groups(vec![a, b]);
    assert_eq!(groups, vec![vec![b, a]]);
    let c = Constraint { x: 0, y: 0, mask: 0b111, mines: 1 };
    let d = Constraint { x: 1, y: 0, mask: 0b011, mines: 2 };
    let groups = Constraint::into_constraint_groups(vec![c, d]);
    assert_eq!(groups, vec![vec![d, c]]);
}

#[test]
fn constraint_groups_come_in_order_of_first_appearance() {
    let far = Constraint { x: 10, y: 10, mask: 0b111, mines: 2 };
    let near = Constraint { x: 0, y: 0, mask: 0b011, mines: 1 };
    let other = Constraint { x: 20, y: 0, mask: 0b001, mines: 1 };
    let groups = Constraint::into_constraint_groups(vec![far, near, other]);
    assert_eq!(groups, vec![vec![far], vec![near], vec![other]]);
    let groups = Constraint::into_constraint_groups(vec![other, far, near]);
    assert_eq!(groups, vec![vec![other], vec![far], vec![near]]);
}

#[test]
fn solving_never_opens_a_mine() {
    let rows = ["..*..*..", "*.......", "....*...", ".*......", "......*.", "........"];
    let mut board = board_from(&rows, (3, 4));
    let before: Vec<(bool, u8)> = board.grid.data.iter().map(|c| (c.is_mine, c.adjacent_mines)).collect();
    let _ = StSolver::solve_with_options(&mut board, SolverOptions::default());
    let after: Vec<(bool, u8)> = board.grid.data.iter().map(|c| (c.is_mine, c.adjacent_mines)).collect();
    assert_eq!(before, after);
    for c in &board.grid.data {
        assert!(!(c.visibility == Visibility::Revealed && c.is_mine));
        assert!(!(c.visibility == Visibility::Flagged && !c.is_mine));
    }
    assert_eq!(board.peek((3, 4)), Visibility::Revealed);
}

#[test]
fn constraint_renders_corner_mask_and_mines() {
    let c = Constraint { x: 1, y: 12, mask: 0b000_010_011, mines: 2 };
    assert_eq!(c.debug_string(), "Constraint { coords: (1, 12), mask: 110010000, hidden mines: 2 }");
}

#[test]
fn constraints_order_by_corner_then_mask() {
    let a = Constraint { x: 0, y: 5, mask: 7, mines: 1 };
    let b = Constraint { x: 1, y: 0, mask: 1, mines: 0 };
    let c = Constraint { x: 1, y: 0, mask: 3, mines: 0 };
    assert!(a < b);
    assert!(b < c);
}

#[test]
fn constraint_groups_follow_chains_of_overlaps() {
    let a = Constraint { x: 0, y: 0, mask: 0b000_000_001, mines: 0 };
    let b = Constraint { x: 0, y: 0, mask: 0b000_000_101, mines: 1 };
    let c = Constraint { x: 2, y: 0, mask: 0b000_000_011, mines: 1 };
    let d = Constraint { x: 9, y: 9, mask: 0b000_000_001, mines: 0 };
    let groups = Constraint::into_constraint_groups(vec![a, d, c]);
    assert_eq!(groups, vec![vec![a], vec![d], vec![c]]);
    let groups = Constraint::into_constraint_groups(vec![a, d, c, b]);
    assert_eq!(groups.len(), 2);
    assert_eq!(groups[0].len(), 3);
    assert!(groups[0].contains(&a) && groups[0].contains(&b) && groups[0].contains(&c));
    assert_eq!(groups[1], vec![d]);
}

#[test]
fn solver_moves_depend_only_on_what_the_board_shows() {
    // One mine hides in one of the two cells of the right edge; nothing shown
    // tells which, so both boards must be left at the same point.
    let mut a = board_from(&["....*", "....."], (1, 0));
    let mut b = board_from(&[".....", "....*"], (1, 0));
    let ra = StSolver::solve_with_options(&mut a, SolverOptions::default());
    let rb = StSolver::solve_with_options(&mut b, SolverOptions::default());
    assert!(ra.is_err());
    assert!(rb.is_err());
    let va: Vec<Visibility> = a.grid.data.iter().map(|c| c.visibility).collect();
    let vb: Vec<Visibility> = b.grid.data.iter().map(|c| c.visibility).collect();
    assert_eq!(va, vb);
    assert_eq!(a.count_cells(Visibility::Hidden), 2);
    assert_eq!(a.peek((4, 0)), Visibility::Hidden);
    assert_eq!(a.peek((4, 1)), Visibility::Hidden);
    assert_eq!(a.peek((3, 0)), Visibility::Revealed);
    assert_eq!(a.peek((3, 1)), Visibility::Revealed);
}
