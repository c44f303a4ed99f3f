use mines_core::game::{Game, GameEvent};
use mines_core::state::grid::Board;
use mines_core::state::{BoardInterface, Visibility};

fn game_from(rows: &[&str], start: (usize, usize)) -> Game {
    let height = rows.len();
    let width = rows[0].len();
    let map: Vec<bool> = rows.iter().flat_map(|r| r.chars().map(|c| c == '*')).collect();
    let mut board = Board::from_mines(width, height, start, map);
    board.reset(start);
    let total_mines = board.grid.data.iter().filter(|c| c.is_mine).count();
    let revealed = board.count_cells(Visibility::Revealed) as i64;
    Game { board, total_mines, revealed }
}

fn corners() -> Game {
    game_from(&["....*", ".....", ".....", ".....", "*...."], (2, 2))
}

#[test]
fn opening_a_mine_loses() {
    let mut game = corners();
    let mut events = Vec::new();
    assert_eq!(game.open(4, 0, &mut events), -1);
    assert_eq!(events, vec![GameEvent::GameLost(4, 0)]);
    assert_eq!(game.board.peek((4, 0)), Visibility::Hidden);
    assert_eq!(game.revealed, 3);
}

#[test]
fn opening_off_the_board_loses() {
    let mut game = corners();
    let mut events = Vec::new();
    assert_eq!(game.open(9, 9, &mut events), -1);
    assert_eq!(events, vec![GameEvent::GameLost(9, 9)]);
}

#[test]
fn opening_a_flagged_cell_is_ignored() {
    let mut game = corners();
    let mut events = Vec::new();
    game.flag(4, 0, &mut events);
    events.clear();
    assert_eq!(game.open(4, 0, &mut events), -1);
    assert!(events.is_empty());
    assert_eq!(game.board.peek((4, 0)), Visibility::Flagged);
    assert_eq!(game.revealed, 3);
}

#[test]
fn opening_a_numbered_cell_opens_only_it() {
    let mut game = corners();
    let mut events = Vec::new();
    assert_eq!(game.open(3, 0, &mut events), 1);
    assert_eq!(events, vec![GameEvent::CellUpdated(3, 0)]);
    assert_eq!(game.board.peek((3, 0)), Visibility::Revealed);
    assert_eq!(game.board.count_cells(Visibility::Revealed), 4);
    assert_eq!(game.revealed, 4);
}

#[test]
fn opening_an_empty_cell_floods_its_region() {
    let mut game = corners();
    let mut events = Vec::new();
    assert_eq!(game.open(0, 0, &mut events), 0);
    assert_eq!(events[0], GameEvent::CellUpdated(0, 0));
    assert_eq!(events.len(), 11);
    assert_eq!(game.board.count_cells(Visibility::Revealed), 14);
    assert_eq!(game.revealed, 14);
    assert_eq!(game.board.peek((3, 1)), Visibility::Revealed);
    assert_eq!(game.board.peek((4, 2)), Visibility::Hidden);
}

#[test]
fn chording_the_start_row_floods_and_wins() {
    let mut game = corners();
    let mut events = Vec::new();
    assert!(game.chord(2, 2, &mut events));
    assert!(matches!(events.last(), Some(GameEvent::GameWon(_, _))));
    assert_eq!(game.board.count_cells(Visibility::Revealed), 23);
    assert_eq!(game.board.count_cells(Visibility::Flagged), 2);
    assert_eq!(game.board.count_cells(Visibility::Hidden), 0);
    assert_eq!(game.revealed, 23);
}

#[test]
fn winning_open_reports_each_hidden_cell_then_the_win() {
    let mut game = game_from(&["....*"], (1, 0));
    let mut events = Vec::new();
    assert_eq!(game.revealed, 3);
    assert_eq!(game.open(3, 0, &mut events), 1);
    assert_eq!(
        events,
        vec![GameEvent::CellUpdated(3, 0), GameEvent::CellUpdated(4, 0), GameEvent::GameWon(3, 0)]
    );
    assert_eq!(game.board.peek((4, 0)), Visibility::Flagged);
    assert_eq!(game.revealed, 4);
}

#[test]
fn opening_an_open_cell_changes_nothing() {
    let mut game = corners();
    let mut events = Vec::new();
    assert_eq!(game.open(3, 0, &mut events), 1);
    events.clear();
    assert_eq!(game.open(3, 0, &mut events), 1);
    assert!(events.is_empty());
    assert_eq!(game.board.count_cells(Visibility::Revealed), 4);
    assert_eq!(game.revealed, 4);
}

#[test]
fn flag_toggles_on_mines_and_reports_hidden_cells() {
    let mut game = corners();
    let mut events = Vec::new();
    game.flag(4, 0, &mut events);
    assert_eq!(game.board.peek((4, 0)), Visibility::Flagged);
    game.flag(4, 0, &mut events);
    assert_eq!(game.board.peek((4, 0)), Visibility::Hidden);
    game.flag(0, 0, &mut events);
    assert_eq!(game.board.peek((0, 0)), Visibility::Hidden);
    game.flag(2, 2, &mut events);
    assert_eq!(
        events,
        vec![GameEvent::CellUpdated(4, 0), GameEvent::CellUpdated(4, 0), GameEvent::CellUpdated(0, 0)]
    );
}

#[test]
fn sprites_follow_visibility() {
    let mut game = corners();
    let mut events = Vec::new();
    assert_eq!(game.sprite(4, 0), 9);
    game.flag(4, 0, &mut events);
    assert_eq!(game.sprite(4, 0), 10);
    assert_eq!(game.sprite(2, 2), 0);
    game.open(3, 0, &mut events);
    assert_eq!(game.sprite(3, 0), 1);
}

#[test]
fn chord_flags_when_hint_matches_unopened() {
    let mut game = game_from(&["*.."], (2, 0));
    let mut events = Vec::new();
    assert_eq!(game.board.peek((1, 0)), Visibility::Revealed);
    assert!(game.chord(1, 0, &mut events));
    assert_eq!(game.board.peek((0, 0)), Visibility::Flagged);
    assert_eq!(events, vec![GameEvent::CellUpdated(0, 0)]);
}

#[test]
fn chord_opens_when_flags_match_hint() {
    let mut game = game_from(&["*...", "....", "...."], (3, 2));
    let mut events = Vec::new();
    game.flag(0, 0, &mut events);
    assert_eq!(game.open(1, 1, &mut events), 1);
    events.clear();
    assert!(game.chord(1, 1, &mut events));
    assert_eq!(game.board.peek((1, 0)), Visibility::Revealed);
    assert_eq!(game.board.peek((0, 1)), Visibility::Revealed);
    assert!(matches!(events.last(), Some(GameEvent::GameWon(_, _))));
    assert_eq!(game.board.count_cells(Visibility::Hidden), 0);
}

#[test]
fn chord_does_nothing_on_hidden_or_unmatched_cells() {
    let mut game = corners();
    let mut events = Vec::new();
    assert!(!game.chord(0, 0, &mut events));
    game.open(3, 0, &mut events);
    events.clear();
    assert!(!game.chord(3, 0, &mut events));
    assert!(events.is_empty());
    assert_eq!(game.board.peek((4, 0)), Visibility::Hidden);
}

#[test]
fn from_params_starts_a_chorded_game() {
    let game = Game::from_params(1234, 16, 16, 40, (8, 8)).expect("Failed board generation.");
    assert_eq!(game.total_mines, 40);
    assert_eq!(game.board.width(), 16);
    assert_eq!(game.board.height(), 16);
    assert_eq!(game.revealed, game.board.count_cells(Visibility::Revealed) as i64);
    assert_eq!(game.board.count_cells(Visibility::Flagged), 0);
    for x in 7..=9 {
        assert_eq!(game.board.peek((x, 8)), Visibility::Revealed);
    }
    let (w, h) = (16i64, 16i64);
    for y in 0..h {
        for x in 0..w {
            let cell = game.board.grid.data[(y * w + x) as usize];
            if cell.visibility != Visibility::Revealed || cell.adjacent_mines != 0 {
                continue;
            }
            for dy in -1..=1 {
                for dx in -1..=1 {
                    let (nx, ny) = (x + dx, y + dy);
                    if nx < 0 || ny < 0 || nx >= w || ny >= h {
                        continue;
                    }
                    let n = game.board.grid.data[(ny * w + nx) as usize];
                    assert!(n.is_mine || n.visibility == Visibility::Revealed);
                }
            }
        }
    }
}

#[test]
fn from_params_without_mines_always_succeeds() {
    let game = Game::from_params(7, 6, 4, 0, (2, 1)).expect("A board without mines is always generated.");
    assert_eq!(game.total_mines, 0);
    assert_eq!(game.board.count_cells(Visibility::Hidden), 0);
    assert_eq!(game.revealed, 24);
}

#[test]
fn counter_room_checks_the_running_count() {
    let mut game = corners();
    assert!(game.can_open(0, 0));
    assert!(game.can_chord());
    game.revealed = i64::MAX - 23;
    assert!(game.can_open(0, 0));
    assert!(game.can_open(2, 2));
    assert!(game.can_chord());
    game.revealed = i64::MAX - 22;
    assert!(!game.can_chord());
    assert!(!game.can_open(0, 0));
}
