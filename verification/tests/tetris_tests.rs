use classic_games_collection::games::tetris::{Piece, Tetris, SHAPES};
use classic_games_collection::games::{GameOutcome, Status};
use classic_games_collection::input::Action;

fn fill_row(t: &mut Tetris, y: usize, gap: Option<usize>) {
    for x in 0..10 {
        t.board[y][x] = if Some(x) == gap { None } else { Some(6) };
    }
}

#[test]
fn new_game_is_empty_and_running() {
    let t = Tetris::new();
    assert!(!t.over);
    assert_eq!((t.score, t.lines, t.level), (0, 0, 1));
    assert_eq!((t.cur.x, t.cur.y, t.cur.rot), (3, -1, 0));
    assert_ne!(t.cur.kind, 0);
    assert_ne!(t.next_kind, t.cur.kind);
    assert!(t.board.iter().all(|r| r.len() == 10 && r.iter().all(|c| c.is_none())));
    assert_eq!(t.status(), Status::Running);
}

#[test]
fn piece_cells_follow_the_table() {
    let p = Piece { kind: 0, rot: 1, x: 0, y: 0 };
    assert_eq!(p.cells(), [(2, 0), (2, 1), (2, 2), (2, 3)]);
    assert_eq!(SHAPES[1][3], [(1, 0), (2, 0), (1, 1), (2, 1)]);
}

#[test]
fn moves_stop_at_walls() {
    let mut t = Tetris::new();
    t.cur = Piece { kind: 1, rot: 0, x: 3, y: 5 };
    for _ in 0..10 {
        t.handle(Action::Left);
    }
    assert_eq!(t.cur.x, -1);
    for _ in 0..20 {
        t.handle(Action::Right);
    }
    assert_eq!(t.cur.x, 7);
    assert!(!t.try_move(1, 0));
    assert!(t.try_move(0, 1));
    assert_eq!(t.cur.y, 6);
}

#[test]
fn hard_drop_scores_two_per_row_and_locks() {
    let mut t = Tetris::new();
    t.cur = Piece { kind: 1, rot: 0, x: 3, y: 0 };
    let next = t.next_kind;
    t.handle(Action::Space);
    // The O piece falls from row 0 to rows 18-19: 18 rows.
    assert_eq!(t.score, 36);
    assert_eq!(t.board[19][4], Some(1));
    assert_eq!(t.board[18][5], Some(1));
    assert_eq!(t.cur.kind, next);
    assert_eq!((t.cur.x, t.cur.y), (3, -1));
}

#[test]
fn clearing_two_rows_scores_by_level() {
    let mut t = Tetris::new();
    fill_row(&mut t, 19, Some(0));
    fill_row(&mut t, 18, Some(0));
    t.board[17][5] = Some(2);
    // A vertical I piece into the gap of column 0.
    t.cur = Piece { kind: 0, rot: 3, x: -1, y: 10 };
    t.handle(Action::Confirm);
    assert_eq!(t.lines, 2);
    assert_eq!(t.score, 2 * 6 + 300);
    assert_eq!(t.level, 1);
    // The rows above fell by two; two of the I's cells remain.
    assert_eq!(t.board[19][5], Some(2));
    assert_eq!(t.board[19][0], Some(0));
    assert_eq!(t.board[18][0], Some(0));
    assert!(t.board[17].iter().all(|c| c.is_none()));
}

#[test]
fn level_rises_every_ten_lines() {
    let mut t = Tetris::new();
    t.lines = 9;
    t.level = 1;
    fill_row(&mut t, 19, Some(9));
    t.cur = Piece { kind: 0, rot: 1, x: 7, y: 10 };
    t.handle(Action::Space);
    assert_eq!(t.lines, 10);
    assert_eq!(t.level, 2);
    assert_eq!(t.score, 2 * 6 + 100);
}

#[test]
fn gravity_falls_then_locks() {
    let mut t = Tetris::new();
    t.cur = Piece { kind: 1, rot: 0, x: 3, y: 17 };
    assert!(t.fall());
    assert_eq!(t.cur.y, 18);
    let kind = t.cur.kind;
    assert!(!t.fall());
    assert_eq!(t.board[19][4], Some(kind));
}

#[test]
fn rotation_kicks_off_the_wall() {
    let mut t = Tetris::new();
    // A vertical I at the right wall turns flat and is kicked left.
    t.cur = Piece { kind: 0, rot: 1, x: 7, y: 5 };
    t.handle(Action::Up);
    assert_eq!(t.cur.rot, 2);
    assert_eq!(t.cur.x, 6);
}

#[test]
fn topping_out_ends_the_game() {
    let mut t = Tetris::new();
    for y in 1..20 {
        fill_row(&mut t, y, Some(0));
    }
    // The O piece fits with its top half above the well, cannot fall, and
    // locks partly above the top.
    t.cur = Piece { kind: 1, rot: 0, x: 3, y: -1 };
    t.handle(Action::Space);
    assert!(t.over);
    assert_eq!(t.outcome(), GameOutcome::Score(0));
    assert!(t.has_headroom());
}

#[test]
fn clearing_four_rows_at_level_three() {
    let mut t = Tetris::new();
    t.level = 3;
    t.lines = 25;
    t.score = 7;
    for y in 16..20 {
        fill_row(&mut t, y, None);
    }
    t.board[15][4] = Some(1);
    t.clear_lines();
    assert_eq!(t.score, 7 + 800 * 3);
    assert_eq!(t.lines, 29);
    assert_eq!(t.level, 3);
    assert_eq!(t.board[19][4], Some(1));
    assert_eq!(t.board[19].iter().filter(|c| c.is_some()).count(), 1);
    assert!((0..19).all(|y| t.board[y].iter().all(|c| c.is_none())));
}

#[test]
fn clearing_without_full_rows_leaves_all() {
    let mut t = Tetris::new();
    t.level = 2;
    t.score = 5;
    fill_row(&mut t, 19, Some(3));
    let before = t.board.clone();
    t.clear_lines();
    assert_eq!(t.board, before);
    assert_eq!((t.score, t.lines, t.level), (5, 0, 2));
}
