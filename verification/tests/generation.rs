use mines_core::generator::{new_with_mines, Solver};
use mines_core::state::grid::{Board, Grid};
use mines_core::solver::Constraint;
use mines_core::state::Visibility;
use rand::rngs::Xoshiro128PlusPlus;
use rand::SeedableRng;

/// Construct a grid from string, with `*` as mines and other characters as open cells
fn grid_from_ascii(grid: &[&str], start: (usize, usize)) -> Board {
    let height = grid.len();
    let width = grid[0].len();
    let mut map = Vec::with_capacity(width * height);
    for r in grid {
        for ch in r.chars() {
            map.push(ch == '*');
        }
    }
    Board::from_mines(width, height, start, map)
}

#[test]
fn test_solver() {
    let map = [
        "*...*...*",
        "**.***..*",
        "*....*...",
        "**......*",
        "**....**.",
        "***...***",
        "...*.*..*",
        "*...*...*",
        ".***...**",
    ];
    let num_mines = 35;
    let mut grid = grid_from_ascii(&map, (4, 4));
    Solver::solve_grid(&mut grid, num_mines).expect("Failed to solve grid.");
    assert_eq!(
        grid.count_cells(Visibility::Hidden),
        0,
        "Number of hidden cells {} > 0.",
        grid.count_cells(Visibility::Hidden)
    );
    assert_eq!(
        grid.count_cells(Visibility::Flagged),
        num_mines,
        "Number of flagged cells {} != {num_mines}",
        grid.count_cells(Visibility::Flagged)
    );
}

fn generate_and_check(seed: u64) {
    let mut rng = Xoshiro128PlusPlus::seed_from_u64(seed);
    let width = 32;
    let height = 16;
    let start = (width / 2, height / 2);
    let num_mines = 200;
    let grid = Board::new_random(width, height, start, &mut rng, num_mines);
    let mut generator = Solver::init(grid, num_mines);
    generator
        .solve_generate(start, &mut rng)
        .expect("Failed board generation.");
    let grid = generator.into_board();
    let mut grid = grid.clone_reset(start);
    Solver::solve_grid(&mut grid, num_mines).unwrap_or_else(|_| {
        panic!("Solving failed after generation. Partially solved: {}", grid.to_string());
    });
    assert_eq!(
        grid.count_cells(Visibility::Hidden),
        0,
        "Number of hidden cells {} > 0.",
        grid.count_cells(Visibility::Hidden)
    );
    assert_eq!(
        grid.count_cells(Visibility::Flagged),
        num_mines,
        "Number of flagged cells {} != {num_mines}",
        grid.count_cells(Visibility::Flagged)
    );
}

#[test]
fn generator_test_generate() {
    generate_and_check(1234);
}

#[test]
fn st_test_generate() {
    let mut rng = Xoshiro128PlusPlus::seed_from_u64(1234);
    let width = 32;
    let height = 16;
    let start = (width / 2, height / 2);
    let num_mines = 200;
    let grid = Board::new_random(width, height, start, &mut rng, num_mines);
    let mut generator = Solver::init(grid, num_mines);
    let perturbations = generator.generate(start, &mut rng).expect("Failed board generation.");
    assert!(perturbations <= 500);
    let grid = generator.into_board();
    let mut grid = grid.clone_reset(start);
    Solver::solve_grid(&mut grid, num_mines).unwrap_or_else(|_| {
        panic!("Solving failed after generation. Partially solved: {}", grid.to_string());
    });
    assert_eq!(
        grid.count_cells(Visibility::Hidden),
        0,
        "Number of hidden cells {} > 0.",
        grid.count_cells(Visibility::Hidden)
    );
    assert_eq!(
        grid.count_cells(Visibility::Flagged),
        num_mines,
        "Number of flagged cells {} != {num_mines}",
        grid.count_cells(Visibility::Flagged)
    );
}

#[test]
fn new_with_mines_unsolvable_request_keeps_start_position() {
    let start = (4, 4);
    let (board, solvable) = new_with_mines(9, 9, 20, false, start, 7);
    assert!(!solvable);
    assert_eq!(board.count_cells(Visibility::Revealed), 3);
    assert_eq!(board.count_cells(Visibility::Hidden), 78);
    assert_eq!(board.count_cells(Visibility::Flagged), 0);
    let mines = board.grid.data.iter().filter(|c| c.is_mine).count();
    assert_eq!(mines, 20);
    assert_eq!(board.num_mines, 20);
}

#[test]
fn new_with_mines_solvable_comes_back_solved() {
    let start = (8, 4);
    let (board, solvable) = new_with_mines(16, 9, 30, true, start, 42);
    let mines = board.grid.data.iter().filter(|c| c.is_mine).count();
    assert_eq!(mines, 30);
    if solvable {
        assert_eq!(board.count_cells(Visibility::Hidden), 0);
        assert_eq!(board.count_cells(Visibility::Flagged), 30);
        let mut again = board.clone_reset(start);
        assert!(Solver::solve_grid(&mut again, 30).is_ok());
    }
}

#[test]
fn new_random_places_the_asked_number_of_mines_outside_the_safe_area() {
    let mut rng = Xoshiro128PlusPlus::seed_from_u64(99);
    let start = (5, 2);
    let board = Board::new_random(10, 5, start, &mut rng, 30);
    let mines = board.grid.data.iter().filter(|c| c.is_mine).count();
    assert_eq!(mines, 30);
    for x in 4..=6 {
        let c = board.grid.data[2 * 10 + x];
        assert!(!c.is_mine);
        assert_eq!(c.visibility, Visibility::Revealed);
    }
    assert_eq!(board.count_cells(Visibility::Revealed), 3);
}

#[test]
fn generation_keeps_mine_count_and_true_hints() {
    let mut rng = Xoshiro128PlusPlus::seed_from_u64(5);
    let start = (10, 5);
    let num_mines = 80;
    let board = Board::new_random(20, 10, start, &mut rng, num_mines);
    let mut generator = Solver::init(board, num_mines);
    let _ = generator.solve_generate(start, &mut rng);
    let board = generator.into_board();
    let mines = board.grid.data.iter().filter(|c| c.is_mine).count();
    assert_eq!(mines, num_mines);
    for y in 0..10usize {
        for x in 0..20usize {
            let mut n = 0;
            for dy in -1i32..=1 {
                for dx in -1i32..=1 {
                    if dx == 0 && dy == 0 {
                        continue;
                    }
                    let (nx, ny) = (x as i32 + dx, y as i32 + dy);
                    if nx >= 0 && ny >= 0 && nx < 20 && ny < 10 && board.grid.data[(ny * 20 + nx) as usize].is_mine {
                        n += 1;
                    }
                }
            }
            assert_eq!(board.grid.data[y * 20 + x].adjacent_mines, n);
        }
    }
}

fn hints_are_true(board: &Board, width: usize, height: usize) -> bool {
    for y in 0..height {
        for x in 0..width {
            let mut n = 0;
            for dy in -1i32..=1 {
                for dx in -1i32..=1 {
                    if dx == 0 && dy == 0 {
                        continue;
                    }
                    let (nx, ny) = (x as i32 + dx, y as i32 + dy);
                    if nx >= 0
                        && ny >= 0
                        && (nx as usize) < width
                        && (ny as usize) < height
                        && board.grid.data[ny as usize * width + nx as usize].is_mine
                    {
                        n += 1;
                    }
                }
            }
            if board.grid.data[y * width + x].adjacent_mines != n {
                return false;
            }
        }
    }
    true
}

#[test]
fn perturb_keeps_mines_safe_area_and_hints() {
    let mut rng = Xoshiro128PlusPlus::seed_from_u64(11);
    let (width, height) = (12, 8);
    let start = (6, 4);
    let num_mines = 30;
    let board = Board::new_random(width, height, start, &mut rng, num_mines);
    let mut generator = Solver::init(board, num_mines);
    let constraints: Grid<Vec<Constraint>> = Grid::new(width, height);
    for _ in 0..20 {
        generator.perturb(&constraints, start, &mut rng);
        let board = generator.board();
        let mines = board.grid.data.iter().filter(|c| c.is_mine).count();
        assert_eq!(mines, num_mines);
        for x in 5..8 {
            let c = board.grid.data[4 * width + x];
            assert!(!c.is_mine);
            assert_eq!(c.visibility, Visibility::Revealed);
        }
        assert!(hints_are_true(board, width, height));
    }
}

#[test]
fn generate_without_mines_needs_no_perturbation() {
    let mut rng = Xoshiro128PlusPlus::seed_from_u64(3);
    let start = (2, 2);
    let board = Board::new_random(5, 5, start, &mut rng, 0);
    let mut generator = Solver::init(board, 0);
    assert_eq!(generator.generate(start, &mut rng), Ok(0));
    assert_eq!(generator.board().count_cells(Visibility::Hidden), 0);
}
