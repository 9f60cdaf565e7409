use classic_games_collection::games::GameId;
use classic_games_collection::input::Action;
use classic_games_collection::lang::{ui, Lang};
use classic_games_collection::menu::{choice_at, item_line, menu_step, MenuChoice, MenuStep};
use classic_games_collection::score::ScoreFile;

#[test]
fn entries_map_to_choices() {
    assert_eq!(choice_at(0), MenuChoice::Play(GameId::Snake));
    assert_eq!(choice_at(4), MenuChoice::Play(GameId::Gomoku));
    assert_eq!(choice_at(5), MenuChoice::ChangeUser);
    assert_eq!(choice_at(6), MenuChoice::Quit);
}

#[test]
fn keys_move_and_pick() {
    assert_eq!(menu_step(0, Some(Action::Up)), MenuStep::Select(0));
    assert_eq!(menu_step(3, Some(Action::Up)), MenuStep::Select(2));
    assert_eq!(menu_step(6, Some(Action::Down)), MenuStep::Select(0));
    assert_eq!(menu_step(2, Some(Action::Confirm)), MenuStep::Done(MenuChoice::Play(GameId::Tetris)));
    assert_eq!(menu_step(5, Some(Action::Space)), MenuStep::Done(MenuChoice::ChangeUser));
    assert_eq!(menu_step(1, Some(Action::Cancel)), MenuStep::Done(MenuChoice::Quit));
    assert_eq!(menu_step(1, None), MenuStep::Select(1));
}

#[test]
fn item_lines_show_best_records() {
    let mut f = ScoreFile::default();
    let en = ui(Lang::En);
    assert_eq!(item_line(GameId::Snake, &f, &en), "No records");
    assert_eq!(item_line(GameId::Gomoku, &f, &en), "No record");
    f.add_score("snake", "bob", 70);
    f.add_score("snake", "amy", 90);
    assert_eq!(item_line(GameId::Snake, &f, &en), "Best 90 (amy)");
    f.add_gomoku_at("cat", true, "d".to_string());
    f.add_gomoku_at("ann", true, "d".to_string());
    f.add_gomoku_at("ann", false, "d".to_string());
    // Ties on wins go to the first name in table order.
    assert_eq!(item_line(GameId::Gomoku, &f, &en), "W 1 L 1  (ann)");
    assert_eq!(item_line(GameId::Gomoku, &f, &ui(Lang::Zh)), "胜 1 负 1  (ann)");
}
