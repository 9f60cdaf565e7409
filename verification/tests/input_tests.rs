use classic_games_collection::input::{is_ctrl_c, map_key, Action, Key, KeyCode, KeyKind};

fn key(code: KeyCode) -> Key {
    Key::new(code)
}

#[test]
fn arrows_and_hjkl() {
    assert_eq!(map_key(key(KeyCode::Up)), Some(Action::Up));
    assert_eq!(map_key(key(KeyCode::Char('k'))), Some(Action::Up));
    assert_eq!(map_key(key(KeyCode::Char('K'))), Some(Action::Up));
    assert_eq!(map_key(key(KeyCode::Down)), Some(Action::Down));
    assert_eq!(map_key(key(KeyCode::Char('j'))), Some(Action::Down));
    assert_eq!(map_key(key(KeyCode::Left)), Some(Action::Left));
    assert_eq!(map_key(key(KeyCode::Char('h'))), Some(Action::Left));
    assert_eq!(map_key(key(KeyCode::Right)), Some(Action::Right));
    assert_eq!(map_key(key(KeyCode::Char('l'))), Some(Action::Right));
}

#[test]
fn confirm_cancel_space() {
    assert_eq!(map_key(key(KeyCode::Enter)), Some(Action::Confirm));
    assert_eq!(map_key(key(KeyCode::Esc)), Some(Action::Cancel));
    assert_eq!(map_key(key(KeyCode::Char('q'))), Some(Action::Cancel));
    assert_eq!(map_key(key(KeyCode::Char('Q'))), Some(Action::Cancel));
    assert_eq!(map_key(key(KeyCode::Char(' '))), Some(Action::Space));
}

#[test]
fn release_keys() {
    let mut k = key(KeyCode::Char(' '));
    k.kind = KeyKind::Release;
    assert_eq!(map_key(k), Some(Action::ReleaseSpace));
    let mut k2 = key(KeyCode::Left);
    k2.kind = KeyKind::Release;
    assert_eq!(map_key(k2), Some(Action::ReleaseLeft));
}

#[test]
fn ctrl_c_maps_to_nothing() {
    let k = Key { code: KeyCode::Char('c'), kind: KeyKind::Press, ctrl: true };
    assert!(is_ctrl_c(k));
    assert_eq!(map_key(k), None);
    assert_eq!(map_key(key(KeyCode::Char('c'))), Some(Action::Char('c')));
    assert_eq!(map_key(key(KeyCode::Backspace)), Some(Action::Backspace));
    assert_eq!(map_key(key(KeyCode::Other)), None);
}
