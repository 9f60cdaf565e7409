use classic_games_collection::canvas::{Canvas, Cell, Color};
use classic_games_collection::col;
use classic_games_collection::flow::{draw_pause, draw_summary, draw_username, gomoku_row, score_row};
use classic_games_collection::games::breakout::BreakoutCore;
use classic_games_collection::games::gomoku::Gomoku;
use classic_games_collection::games::plane::PlaneState;
use classic_games_collection::games::snake::Snake;
use classic_games_collection::games::tetris::Tetris;
use classic_games_collection::games::{GameId, GameOutcome};
use classic_games_collection::lang::{ui, Lang};
use classic_games_collection::menu::draw_menu;
use classic_games_collection::score::{Entry, GomokuStats, ScoreFile};

fn shown(c: &mut Canvas) -> String {
    let mut out = Vec::new();
    c.flush(&mut out);
    String::from_utf8_lossy(&out).into_owned()
}

#[test]
fn menu_shows_games_and_user() {
    let mut c = Canvas::new(100, 30);
    let f = ScoreFile::default();
    draw_menu(&mut c, 0, &f, "amy", Lang::En);
    let s = shown(&mut c);
    assert!(s.contains("1."));
    assert!(s.contains("Snake"));
    assert!(s.contains("Best") || s.contains("No records"));
    assert!(s.contains("Player: amy"));
    assert!(s.contains("7. Quit"));
    let mut c2 = Canvas::new(100, 30);
    draw_menu(&mut c2, 5, &f, "amy", Lang::Zh);
    let s2 = shown(&mut c2);
    assert!(s2.contains("6. 设置用户名 (Change User)"));
}

#[test]
fn game_screens_draw_their_titles() {
    let f = ScoreFile::default();
    let en = ui(Lang::En);
    let mut c = Canvas::new(100, 30);
    Snake::new().draw(&mut c, &f, &en);
    assert!(shown(&mut c).contains("SNAKE"));
    let mut c = Canvas::new(100, 30);
    Tetris::new().draw(&mut c, &f, &en);
    assert!(shown(&mut c).contains("TETRIS"));
    let mut c = Canvas::new(100, 30);
    Gomoku::new().draw(&mut c, &f, "amy", &en, 0);
    let s = shown(&mut c);
    assert!(s.contains("GOMOKU"));
    assert!(s.contains("Your turn (X)"));
    let mut c = Canvas::new(100, 30);
    BreakoutCore::new().draw(&mut c, 15, None, &vec![], Some("Life full"), true, &f, &en);
    let s = shown(&mut c);
    assert!(s.contains("BREAKOUT"));
    assert!(s.contains("Life full"));
    let mut c = Canvas::new(100, 30);
    PlaneState::new().draw(&mut c, (24, 18), true, &vec![(24, 10)], &vec![], &vec![(5, 5, 2)], &vec![(9, 9)], &vec![], Some("♥ 生命 +1"), &f, &en);
    let s = shown(&mut c);
    assert!(s.contains("PLANE"));
    assert!(s.contains("♥ 生命 +1"));
}

#[test]
fn tiny_canvas_never_fails() {
    let f = ScoreFile::default();
    let en = ui(Lang::En);
    let mut c = Canvas::new(3, 2);
    Snake::new().draw(&mut c, &f, &en);
    Tetris::new().draw(&mut c, &f, &en);
    Gomoku::new().draw(&mut c, &f, "u", &en, 400);
    draw_menu(&mut c, 6, &f, "u", Lang::En);
    draw_pause(&mut c, &en);
    draw_username(&mut c, "name", "Username cannot be empty", &en);
    draw_summary(&mut c, GameId::Tetris, GameOutcome::Score(10), &f, "u", &en);
    let _ = shown(&mut c);
}

#[test]
fn summary_lists_the_leaderboard() {
    let mut f = ScoreFile::default();
    f.add_score_at("snake", "amy", 50, "2024-01-01 10:00".to_string());
    let mut c = Canvas::new(100, 30);
    draw_summary(&mut c, GameId::Snake, GameOutcome::Score(50), &f, "amy", &ui(Lang::Zh));
    let s = shown(&mut c);
    assert!(s.contains("贪吃蛇  Snake"));
    assert!(s.contains("amy"));
    let mut c = Canvas::new(100, 30);
    f.add_gomoku_at("amy", true, "d".to_string());
    draw_summary(&mut c, GameId::Gomoku, GameOutcome::Gomoku { win: true }, &f, "amy", &ui(Lang::Zh));
    assert!(shown(&mut c).contains("你的战绩: 1 胜 / 0 负"));
}

#[test]
fn leaderboard_rows_are_aligned() {
    let e = Entry { user: "amy".to_string(), score: 120, date: "2024-01-01 10:00".to_string() };
    assert_eq!(score_row(1, &e), "    1   amy               120   2024-01-01 10:00");
    let s = GomokuStats { wins: 3, losses: 12, last: String::new() };
    assert_eq!(gomoku_row(2, "bob", &s), "    2   bob              3    12");
}

#[test]
fn pause_box_and_name_screen() {
    let mut c = Canvas::new(80, 24);
    draw_pause(&mut c, &ui(Lang::Zh));
    assert!(shown(&mut c).contains("PAUSED"));
    let mut c = Canvas::new(80, 24);
    draw_username(&mut c, "amy", "", &ui(Lang::Zh));
    let s = shown(&mut c);
    assert!(s.contains("amy"));
    assert!(s.contains("设置用户名"));
}

fn cell(ch: char, fg: u8, bg: u8) -> Option<Cell> {
    Some(Cell { ch, fg: Color::AnsiValue(fg), bg: Color::AnsiValue(bg) })
}

#[test]
fn name_field_shows_name_and_cursor() {
    // An 80x24 canvas puts the 56x8 box at column 12, row 8; the field is on row 11.
    let mut c = Canvas::new(80, 24);
    draw_username(&mut c, "amy", "", &ui(Lang::Zh));
    assert_eq!(c.cell_at(22, 11), cell(' ', col::BLACK, col::BLACK));
    assert_eq!(c.cell_at(23, 11), cell('a', col::GREEN, col::BLACK));
    assert_eq!(c.cell_at(24, 11), cell('m', col::GREEN, col::BLACK));
    assert_eq!(c.cell_at(25, 11), cell('y', col::GREEN, col::BLACK));
    assert_eq!(c.cell_at(26, 11), cell(' ', col::BLACK, col::GRAY));
    assert_eq!(c.cell_at(27, 11), cell(' ', col::BLACK, col::BLACK));
    assert_eq!(c.cell_at(63, 11), cell(' ', col::BLACK, col::BLACK));
}

#[test]
fn pause_box_lines() {
    // An 80x24 canvas puts the 44x8 box at column 18, row 8.
    let mut c = Canvas::new(80, 24);
    draw_pause(&mut c, &ui(Lang::Zh));
    assert_eq!(c.cell_at(19, 11), cell(' ', col::BLACK, col::DARK_BLUE));
    assert_eq!(c.cell_at(20, 11), cell('C', col::WHITE, col::DARK_BLUE));
    assert_eq!(c.cell_at(20, 12), cell('Q', col::WHITE, col::DARK_BLUE));
    // "已暂停  PAUSED" is 14 columns wide: centered from column 18 + 15.
    assert_eq!(c.cell_at(33, 9), cell('已', col::YELLOW, col::DARK_BLUE));
    assert_eq!(c.cell_at(41, 9), cell('P', col::YELLOW, col::DARK_BLUE));
}

#[test]
fn plane_panel_shows_score_and_lives() {
    // A 100x30 canvas puts the 48x20 field at column 26, row 5; the panel's
    // second row is row 4.
    let f = ScoreFile::default();
    let mut p = PlaneState::new();
    p.award(2);
    let mut c = Canvas::new(100, 30);
    p.draw(&mut c, (24, 18), true, &vec![], &vec![], &vec![], &vec![], &vec![], None, &f, &ui(Lang::Zh));
    assert_eq!(c.cell_at(26, 4), cell('得', col::GREEN, col::BLACK));
    assert_eq!(c.cell_at(27, 4), cell(' ', col::GREEN, col::BLACK));
    assert_eq!(c.cell_at(28, 4), cell('分', col::GREEN, col::BLACK));
    assert_eq!(c.cell_at(31, 4), cell('3', col::GREEN, col::BLACK));
    assert_eq!(c.cell_at(32, 4), cell('0', col::GREEN, col::BLACK));
    // "得分 30" is 7 columns wide, so the lives start at 26 + 7 + 2.
    assert_eq!(c.cell_at(35, 4), cell('生', col::RED, col::BLACK));
    assert_eq!(c.cell_at(40, 4), cell('♥', col::RED, col::BLACK));
    assert_eq!(c.cell_at(42, 4), cell('♥', col::RED, col::BLACK));
    assert_eq!(c.cell_at(43, 4), cell(' ', col::BLACK, col::BLACK));
}

#[test]
fn menu_player_row() {
    // "Player: amy" is 11 columns wide, centered on column 50 of row 16.
    let mut c = Canvas::new(100, 30);
    draw_menu(&mut c, 0, &ScoreFile::default(), "amy", Lang::En);
    assert_eq!(c.cell_at(44, 16), cell(' ', col::BLACK, col::BLACK));
    assert_eq!(c.cell_at(45, 16), cell('P', col::CYAN, col::BLACK));
    assert_eq!(c.cell_at(53, 16), cell('a', col::CYAN, col::BLACK));
    assert_eq!(c.cell_at(55, 16), cell('y', col::CYAN, col::BLACK));
    assert_eq!(c.cell_at(56, 16), cell(' ', col::BLACK, col::BLACK));
}

#[test]
fn summary_score_row() {
    // "本局得分: 50" is 12 columns wide, centered on column 50 of row 6.
    let mut f = ScoreFile::default();
    f.add_score_at("snake", "amy", 50, "2024-01-01 10:00".to_string());
    let mut c = Canvas::new(100, 30);
    draw_summary(&mut c, GameId::Snake, GameOutcome::Score(50), &f, "amy", &ui(Lang::Zh));
    assert_eq!(c.cell_at(43, 6), cell(' ', col::BLACK, col::BLACK));
    assert_eq!(c.cell_at(44, 6), cell('本', col::GREEN, col::BLACK));
    assert_eq!(c.cell_at(54, 6), cell('5', col::GREEN, col::BLACK));
    assert_eq!(c.cell_at(55, 6), cell('0', col::GREEN, col::BLACK));
    assert_eq!(c.cell_at(56, 6), cell(' ', col::BLACK, col::BLACK));
}

#[test]
fn screens_follow_the_language() {
    let en = ui(Lang::En);
    let mut f = ScoreFile::default();
    f.add_score_at("snake", "amy", 50, "2024-01-01 10:00".to_string());
    let mut c = Canvas::new(100, 30);
    draw_summary(&mut c, GameId::Snake, GameOutcome::Score(50), &f, "amy", &en);
    let s = shown(&mut c);
    assert!(s.contains("GAME OVER"));
    assert!(s.contains("Score: 50"));
    assert!(s.contains("--- Snake Leaderboard ---"));
    assert!(s.contains("[R] Play again"));
    let mut c = Canvas::new(80, 24);
    draw_pause(&mut c, &en);
    let s = shown(&mut c);
    assert!(s.contains("C / Space / Enter : Resume"));
    assert!(s.contains("Tip: Ctrl+C quits anytime"));
    let mut c = Canvas::new(80, 24);
    draw_username(&mut c, "amy", "", &en);
    assert!(shown(&mut c).contains("Set Username"));
    let mut c = Canvas::new(100, 30);
    Tetris::new().draw(&mut c, &f, &en);
    let s = shown(&mut c);
    assert!(s.contains("Lines 0"));
    assert!(s.contains("Next"));
    let mut c = Canvas::new(100, 30);
    PlaneState::new().draw(&mut c, (24, 18), true, &vec![], &vec![], &vec![], &vec![], &vec![], None, &f, &en);
    let s = shown(&mut c);
    assert!(s.contains("Score 0"));
    assert!(s.contains("Hold Space shoot"));
}

#[test]
fn snake_cells_are_two_columns_wide() {
    // A 100x30 canvas puts the 66x22 frame at column 17, row 4; the head
    // starts at board position (14, 10) and the next body part at (13, 10).
    let en = ui(Lang::En);
    let mut c = Canvas::new(100, 30);
    Snake::new().draw(&mut c, &ScoreFile::default(), &en);
    assert_eq!(c.cell_at(46, 15), cell('█', col::YELLOW, col::BLACK));
    assert_eq!(c.cell_at(47, 15), cell('█', col::YELLOW, col::BLACK));
    assert_eq!(c.cell_at(44, 15), cell('█', col::GREEN, col::BLACK));
    assert_eq!(c.cell_at(45, 15), cell('█', col::GREEN, col::BLACK));
    assert_eq!(c.cell_at(17, 4), Some(Cell { ch: '+', fg: Color::AnsiValue(col::CYAN), bg: Color::Reset }));
    assert_eq!(c.cell_at(82, 4), Some(Cell { ch: '+', fg: Color::AnsiValue(col::CYAN), bg: Color::Reset }));
}

#[test]
fn tetris_well_is_twenty_columns_wide() {
    // A 100x30 canvas puts the 22x22 well frame at column 30, row 4.
    let en = ui(Lang::En);
    let mut c = Canvas::new(100, 30);
    Tetris::new().draw(&mut c, &ScoreFile::default(), &en);
    assert_eq!(c.cell_at(30, 4), Some(Cell { ch: '+', fg: Color::AnsiValue(col::CYAN), bg: Color::Reset }));
    assert_eq!(c.cell_at(51, 4), Some(Cell { ch: '+', fg: Color::AnsiValue(col::CYAN), bg: Color::Reset }));
    assert_eq!(c.cell_at(51, 25), Some(Cell { ch: '+', fg: Color::AnsiValue(col::CYAN), bg: Color::Reset }));
    assert_eq!(c.cell_at(31, 24), cell(' ', col::BLACK, col::BLACK));
    assert_eq!(c.cell_at(50, 24), cell(' ', col::BLACK, col::BLACK));
}

#[test]
fn menu_title_rows() {
    // "◆ Classic Games Collection ◆" is 28 columns wide and the subtitle 20,
    // both centered on column 50.
    let mut c = Canvas::new(100, 30);
    draw_menu(&mut c, 0, &ScoreFile::default(), "amy", Lang::En);
    assert_eq!(c.cell_at(35, 1), cell(' ', col::BLACK, col::BLACK));
    assert_eq!(c.cell_at(36, 1), cell('◆', col::YELLOW, col::BLACK));
    assert_eq!(c.cell_at(63, 1), cell('◆', col::YELLOW, col::BLACK));
    assert_eq!(c.cell_at(40, 2), cell('C', col::CYAN, col::BLACK));
    assert_eq!(c.cell_at(59, 2), cell('1', col::CYAN, col::BLACK));
}

#[test]
fn menu_game_rows_show_number_name_and_record() {
    // On a 100-column canvas the lines are centred on column 50.
    // "1. Snake  No records" plus margins is 24 columns: it starts at 38.
    let mut c = Canvas::new(100, 30);
    draw_menu(&mut c, 1, &ScoreFile::default(), "amy", Lang::En);
    assert_eq!(c.cell_at(40, 4), cell('1', col::GRAY, col::BLACK));
    assert_eq!(c.cell_at(41, 4), cell('.', col::GRAY, col::BLACK));
    assert_eq!(c.cell_at(43, 4), cell('S', col::GREEN, col::BLACK));
    assert_eq!(c.cell_at(50, 4), cell('N', col::GRAY, col::BLACK));
    // The selected Breakout row (27 columns) starts at 37, on dark blue.
    assert_eq!(c.cell_at(37, 6), cell('▶', col::YELLOW, col::DARK_BLUE));
    assert_eq!(c.cell_at(39, 6), cell('2', col::YELLOW, col::DARK_BLUE));
    assert_eq!(c.cell_at(42, 6), cell('B', col::WHITE, col::DARK_BLUE));
    assert_eq!(c.cell_at(52, 6), cell('N', col::GRAY, col::DARK_BLUE));
}

#[test]
fn menu_rows_clip_on_a_narrow_canvas() {
    let mut c = Canvas::new(20, 24);
    draw_menu(&mut c, 0, &ScoreFile::default(), "amy", Lang::En);
    // The Snake line is wider than the canvas: it starts at column 0 and is
    // cut at the right edge.
    assert_eq!(c.cell_at(2, 4), cell('1', col::YELLOW, col::DARK_BLUE));
    assert_eq!(c.cell_at(5, 4), cell('S', col::WHITE, col::DARK_BLUE));
    assert_eq!(c.cell_at(12, 4), cell('N', col::GRAY, col::DARK_BLUE));
    assert_eq!(c.cell_at(19, 4), cell('r', col::GRAY, col::DARK_BLUE));
    assert_eq!(c.cell_at(2, 6), cell('2', col::GRAY, col::BLACK));
    let _ = shown(&mut c);
}

#[test]
fn breakout_paddle_ball_packs_and_hint() {
    // A 100x30 canvas puts the 76x24 field at column 12, row 3: the paddle
    // is on row 24, the hint on row 23.
    let f = ScoreFile::default();
    let en = ui(Lang::En);
    let mut c = Canvas::new(100, 30);
    BreakoutCore::new().draw(&mut c, 15, Some((20, 10)), &vec![(5, 12)], Some("Life full"), false, &f, &en);
    assert_eq!(c.cell_at(42, 24), cell('█', col::YELLOW, col::BLACK));
    assert_eq!(c.cell_at(55, 24), cell('█', col::YELLOW, col::BLACK));
    assert_eq!(c.cell_at(56, 24), cell(' ', col::BLACK, col::BLACK));
    assert_eq!(c.cell_at(41, 24), cell(' ', col::BLACK, col::BLACK));
    assert_eq!(c.cell_at(52, 13), cell('●', col::WHITE, col::BLACK));
    assert_eq!(c.cell_at(22, 15), cell('♥', col::PINK, col::BLACK));
    // "Life full" is 9 columns: it starts 4 left of the paddle's left end.
    assert_eq!(c.cell_at(38, 23), cell('L', col::GREEN, col::BLACK));
    assert_eq!(c.cell_at(46, 23), cell('l', col::GREEN, col::BLACK));
}

#[test]
fn breakout_panel_rows() {
    // Field at column 12, row 3: title and best two rows above it, score and
    // lives on the row above, help two rows below (row 28).
    let f = ScoreFile::default();
    let en = ui(Lang::En);
    let mut c = Canvas::new(100, 30);
    BreakoutCore::new().draw(&mut c, 15, None, &vec![], None, false, &f, &en);
    assert_eq!(c.cell_at(12, 1), cell('B', col::YELLOW, col::BLACK));
    assert_eq!(c.cell_at(12, 2), cell('S', col::GREEN, col::BLACK));
    assert_eq!(c.cell_at(18, 2), cell('0', col::GREEN, col::BLACK));
    // "Score 0" is 7 columns: the lives start at 12 + 7 + 2.
    assert_eq!(c.cell_at(21, 2), cell('L', col::RED, col::BLACK));
    // "No records" ends at the field's right edge, column 88.
    assert_eq!(c.cell_at(78, 1), cell('N', col::GRAY, col::BLACK));
    assert_eq!(c.cell_at(87, 1), cell('s', col::GRAY, col::BLACK));
    assert_eq!(c.cell_at(12, 28), cell('←', col::GRAY, col::BLACK));
}

#[test]
fn breakout_on_an_80_by_24_terminal() {
    // The field starts at column 2, row 0; the panel shares rows 0 and 1.
    let f = ScoreFile::default();
    let en = ui(Lang::En);
    let mut c = Canvas::new(80, 24);
    BreakoutCore::new().draw(&mut c, 15, None, &vec![], None, false, &f, &en);
    assert_eq!(c.cell_at(2, 1), cell('S', col::GREEN, col::BLACK));
    assert_eq!(c.cell_at(36, 1), cell('█', col::RED, col::BLACK));
    assert_eq!(c.cell_at(36, 2), cell('█', col::ORANGE, col::BLACK));
    assert_eq!(c.cell_at(32, 21), cell('█', col::YELLOW, col::BLACK));
    assert_eq!(c.cell_at(45, 21), cell('█', col::YELLOW, col::BLACK));
}

#[test]
fn snake_on_an_80_by_24_terminal() {
    // The frame starts at column 7, row 1; the score shares the frame's top row.
    let f = ScoreFile::default();
    let en = ui(Lang::En);
    let mut c = Canvas::new(80, 24);
    Snake::new().draw(&mut c, &f, &en);
    assert_eq!(c.cell_at(36, 12), cell('█', col::YELLOW, col::BLACK));
    assert_eq!(c.cell_at(37, 12), cell('█', col::YELLOW, col::BLACK));
    assert_eq!(c.cell_at(34, 12), cell('█', col::GREEN, col::BLACK));
    assert_eq!(c.cell_at(7, 1), cell('S', col::GREEN, col::BLACK));
}
