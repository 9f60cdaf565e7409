use classic_games_collection::games::gomoku::{Gomoku, AI, PLAYER};
use classic_games_collection::games::{GameOutcome, Status};
use classic_games_collection::input::Action;

fn make_board(cells: &[(usize, usize, u8)]) -> Gomoku {
    let mut g = Gomoku::new();
    for &(x, y, s) in cells {
        g.board[y][x] = Some(s);
    }
    g
}

#[test]
fn detects_five_horizontal() {
    let g = make_board(&[(0, 0, PLAYER), (1, 0, PLAYER), (2, 0, PLAYER), (3, 0, PLAYER)]);
    // Four in a row is not enough.
    assert!(!g.has_five(3, 0, PLAYER));
    // The fifth stone completes it.
    let mut g2 = make_board(&[(0, 0, PLAYER), (1, 0, PLAYER), (2, 0, PLAYER), (3, 0, PLAYER)]);
    g2.board[0][4] = Some(PLAYER);
    assert!(g2.has_five(4, 0, PLAYER));
}

#[test]
fn detects_five_diagonal() {
    let mut g = Gomoku::new();
    for i in 0..5 {
        g.board[i][i] = Some(AI);
    }
    assert!(g.has_five(4, 4, AI));
}

#[test]
fn score_prefers_win() {
    let g = make_board(&[(0, 0, PLAYER), (1, 0, PLAYER), (2, 0, PLAYER), (3, 0, PLAYER)]);
    let win_cell = g.score_cell(4, 0, PLAYER);
    assert!(win_cell >= 1_000_000);
    let other = g.score_cell(5, 5, PLAYER);
    assert!(other < win_cell);
}

#[test]
fn ai_blocks_win() {
    // The player has four in a row; the AI must take the fifth cell.
    let mut g = make_board(&[(0, 7, PLAYER), (1, 7, PLAYER), (2, 7, PLAYER), (3, 7, PLAYER)]);
    g.total = 4;
    g.turn = AI;
    g.ai_place();
    let blocked = g.board[7][4].is_some() || g.board[7][4] == Some(AI);
    assert!(blocked, "the AI should block the four");
}

#[test]
fn ai_takes_center_first() {
    let mut g = Gomoku::new();
    g.turn = AI;
    g.ai_place();
    assert_eq!(g.board[7][7], Some(AI));
}

#[test]
fn ai_completes_its_own_five() {
    let mut g = make_board(&[
        (0, 3, AI), (1, 3, AI), (2, 3, AI), (3, 3, AI),
        (0, 9, PLAYER), (1, 9, PLAYER), (2, 9, PLAYER), (3, 9, PLAYER),
    ]);
    g.total = 8;
    g.turn = AI;
    g.ai_place();
    assert_eq!(g.board[3][4], Some(AI));
    assert!(g.over);
    assert!(!g.win);
    assert_eq!(g.outcome(), GameOutcome::Gomoku { win: false });
    assert_eq!(g.status(), Status::Finished);
}

#[test]
fn player_move_hands_turn_to_ai() {
    let mut g = Gomoku::new();
    g.handle(Action::Left);
    g.handle(Action::Up);
    assert_eq!((g.cx, g.cy), (6, 6));
    g.handle(Action::Space);
    assert_eq!(g.board[6][6], Some(PLAYER));
    assert_eq!(g.total, 1);
    assert!(g.ai_pending);
    assert_eq!(g.turn, AI);
    // Keys are ignored while the AI is thinking.
    g.handle(Action::Right);
    assert_eq!(g.cx, 6);
    g.run_ai();
    assert!(!g.ai_pending);
    assert_eq!(g.turn, PLAYER);
    assert_eq!(g.total, 2);
    // The AI stays within two cells of the stone.
    let (x, y) = g.last.unwrap();
    assert!(x >= 4 && x <= 8 && y >= 4 && y <= 8);
}

#[test]
fn player_five_wins_and_cursor_stops_at_edges() {
    let mut g = make_board(&[(1, 0, PLAYER), (2, 0, PLAYER), (3, 0, PLAYER), (4, 0, PLAYER)]);
    g.total = 4;
    for _ in 0..20 {
        g.handle(Action::Left);
        g.handle(Action::Up);
    }
    assert_eq!((g.cx, g.cy), (0, 0));
    g.handle(Action::Confirm);
    assert!(g.over && g.win && !g.draw);
    assert_eq!(g.outcome(), GameOutcome::Gomoku { win: true });
    // Nothing changes after the end.
    g.handle(Action::Right);
    assert_eq!(g.cx, 0);
}

#[test]
fn line_values() {
    assert_eq!(Gomoku::line_value(5, 0), 1_000_000);
    assert_eq!(Gomoku::line_value(4, 2), 100_000);
    assert_eq!(Gomoku::line_value(3, 1), 1_000);
    assert_eq!(Gomoku::line_value(2, 0), 10);
    assert_eq!(Gomoku::line_value(1, 2), 100);
}

#[test]
fn neighbor_window_is_two_cells() {
    let g = make_board(&[(7, 7, PLAYER)]);
    assert!(g.has_neighbor(9, 9));
    assert!(g.has_neighbor(5, 6));
    assert!(!g.has_neighbor(10, 7));
    assert!(!g.has_neighbor(7, 4));
}
