use classic_games_collection::flow::{
    gomoku_ranking, name_key, next_screen, pause_choice, record_outcome, summary_choice, NameStep, PauseChoice, Screen,
    ScreenEnd, SummaryChoice,
};
use classic_games_collection::menu::MenuChoice;
use classic_games_collection::games::{GameId, GameOutcome};
use classic_games_collection::input::{Action, Key, KeyCode, KeyKind};
use classic_games_collection::score::{GomokuStats, ScoreFile};

#[test]
fn pause_and_summary_keys() {
    assert_eq!(pause_choice(Some(Action::Char('C'))), Some(PauseChoice::Resume));
    assert_eq!(pause_choice(Some(Action::Space)), Some(PauseChoice::Resume));
    assert_eq!(pause_choice(Some(Action::Cancel)), Some(PauseChoice::Quit));
    assert_eq!(pause_choice(Some(Action::Char('x'))), None);
    assert_eq!(summary_choice(Some(Action::Char('r'))), Some(SummaryChoice::Restart));
    assert_eq!(summary_choice(Some(Action::Confirm)), Some(SummaryChoice::Menu));
    assert_eq!(summary_choice(None), None);
}

#[test]
fn outcomes_are_recorded() {
    let mut f = ScoreFile::default();
    record_outcome(&mut f, GameId::Tetris, "amy", GameOutcome::Score(120));
    assert_eq!(f.get_vec("tetris").len(), 1);
    assert_eq!(f.get_vec("tetris")[0].user, "amy");
    record_outcome(&mut f, GameId::Snake, "amy", GameOutcome::Score(0));
    assert_eq!(f.get_vec("snake").len(), 0);
    record_outcome(&mut f, GameId::Gomoku, "amy", GameOutcome::Gomoku { win: true });
    record_outcome(&mut f, GameId::Gomoku, "amy", GameOutcome::GomokuDraw);
    record_outcome(&mut f, GameId::Gomoku, "amy", GameOutcome::Quit);
    let s = f.gomoku_stats("amy");
    assert_eq!((s.wins, s.losses), (1, 0));
}

fn rec(name: &str, wins: u32, losses: u32) -> (String, GomokuStats) {
    (name.to_string(), GomokuStats { wins, losses, last: String::new() })
}

#[test]
fn ranking_by_wins_then_losses() {
    let g = vec![rec("a", 1, 5), rec("b", 3, 2), rec("c", 3, 1), rec("d", 1, 5), rec("e", 0, 0)];
    let r = gomoku_ranking(&g);
    let names: Vec<&str> = r.iter().map(|p| p.0.as_str()).collect();
    assert_eq!(names, vec!["c", "b", "a", "d", "e"]);
}

fn press(code: KeyCode) -> Key {
    Key::new(code)
}

#[test]
fn typing_a_user_name() {
    let mut buf = String::from("  al");
    assert!(matches!(name_key(&mut buf, press(KeyCode::Char('i'))), NameStep::Editing));
    assert!(matches!(name_key(&mut buf, press(KeyCode::Char('!'))), NameStep::Editing));
    assert_eq!(buf, "  ali");
    assert!(matches!(name_key(&mut buf, press(KeyCode::Backspace)), NameStep::Editing));
    assert_eq!(buf, "  al");
    let mut rel = press(KeyCode::Char('x'));
    rel.kind = KeyKind::Release;
    assert!(matches!(name_key(&mut buf, rel), NameStep::Editing));
    assert_eq!(buf, "  al");
    match name_key(&mut buf, press(KeyCode::Enter)) {
        NameStep::Accept(n) => assert_eq!(n, "al"),
        other => panic!("expected a name, got {:?}", other),
    }
    assert!(matches!(name_key(&mut buf, press(KeyCode::Esc)), NameStep::Cancel));
    let ctrl_c = Key { code: KeyCode::Char('c'), kind: KeyKind::Press, ctrl: true };
    assert!(matches!(name_key(&mut buf, ctrl_c), NameStep::Quit));
}

#[test]
fn names_are_capped_and_must_not_be_blank() {
    let mut buf = String::new();
    for _ in 0..20 {
        name_key(&mut buf, press(KeyCode::Char('z')));
    }
    assert_eq!(buf.chars().count(), 16);
    let mut blank = String::from("   ");
    assert!(matches!(name_key(&mut blank, press(KeyCode::Enter)), NameStep::Empty));
    let mut empty = String::new();
    assert!(matches!(name_key(&mut empty, press(KeyCode::Backspace)), NameStep::Editing));
    assert_eq!(empty, "");
    name_key(&mut empty, press(KeyCode::Char('中')));
    name_key(&mut empty, press(KeyCode::Char('-')));
    assert_eq!(empty, "中-");
}

#[test]
fn screens_follow_each_other() {
    let play = next_screen(Screen::Menu, ScreenEnd::Picked(MenuChoice::Play(GameId::Tetris)));
    assert_eq!(play, (Screen::Playing(GameId::Tetris), false));
    let over = next_screen(Screen::Playing(GameId::Tetris), ScreenEnd::GameOver(GameOutcome::Score(40)));
    assert_eq!(over, (Screen::Summary(GameId::Tetris, GameOutcome::Score(40)), true));
    let left = next_screen(Screen::Playing(GameId::Tetris), ScreenEnd::GameOver(GameOutcome::Quit));
    assert_eq!(left, (Screen::Menu, false));
    let again = next_screen(Screen::Summary(GameId::Tetris, GameOutcome::Score(40)), ScreenEnd::Answered(SummaryChoice::Restart));
    assert_eq!(again, (Screen::Playing(GameId::Tetris), false));
    assert_eq!(next_screen(Screen::Menu, ScreenEnd::Picked(MenuChoice::Quit)), (Screen::Done, false));
    assert_eq!(next_screen(Screen::Menu, ScreenEnd::Picked(MenuChoice::ChangeUser)), (Screen::Naming, false));
    assert_eq!(next_screen(Screen::Naming, ScreenEnd::Named), (Screen::Menu, false));
}
