//! Key normalization: arrow keys and HJKL, Space, Enter, ESC/Q all map to a
//! small set of actions; key releases map to `Release*` actions.

use vstd::prelude::*;

verus! {

/// Unified input action.
#[derive(Clone, Copy, PartialEq, Eq, Debug, Structural)]
pub enum Action {
    Up,
    Down,
    Left,
    Right,
    /// Space bar.
    Space,
    /// Enter.
    Confirm,
    /// ESC or Q.
    Cancel,
    /// Any other character key.
    Char(char),
    Backspace,
    ReleaseUp,
    ReleaseDown,
    ReleaseLeft,
    ReleaseRight,
    ReleaseSpace,
}

/// The keys the games distinguish; every other key is `Other`.
#[derive(Clone, Copy, PartialEq, Eq, Debug, Structural)]
pub enum KeyCode {
    Up,
    Down,
    Left,
    Right,
    Enter,
    Esc,
    Backspace,
    Char(char),
    Other,
}

/// Whether a key event is a press, an auto-repeat, or a release.
#[derive(Clone, Copy, PartialEq, Eq, Debug, Structural)]
pub enum KeyKind {
    Press,
    Repeat,
    Release,
}

/// A key event: the key, its kind, and whether Ctrl was held.
#[derive(Clone, Copy, PartialEq, Eq, Debug, Structural)]
pub struct Key {
    pub code: KeyCode,
    pub kind: KeyKind,
    pub ctrl: bool,
}

impl Key {
    /// A key press without modifiers.
    pub fn new(code: KeyCode) -> (k: Key)
        ensures
            k == (Key { code, kind: KeyKind::Press, ctrl: false }),
    {
        Key { code, kind: KeyKind::Press, ctrl: false }
    }
}

/// Ctrl+C (either case), which quits the program from anywhere.
pub open spec fn spec_is_ctrl_c(k: Key) -> bool {
    k.ctrl && (k.code == KeyCode::Char('c') || k.code == KeyCode::Char('C'))
}

/// Whether the key is Ctrl+C.
pub fn is_ctrl_c(k: Key) -> (r: bool)
    ensures
        r == spec_is_ctrl_c(k),
{
    k.ctrl && (k.code == KeyCode::Char('c') || k.code == KeyCode::Char('C'))
}

/// The action a key event stands for: releases of the arrow/HJKL keys and of
/// Space give `Release*`; presses and repeats give the plain actions; Ctrl+C
/// gives none (the caller quits on it).
pub open spec fn spec_map_key(k: Key) -> Option<Action> {
    if k.kind == KeyKind::Release {
        match k.code {
            KeyCode::Up | KeyCode::Char('k') | KeyCode::Char('K') => Some(Action::ReleaseUp),
            KeyCode::Down | KeyCode::Char('j') | KeyCode::Char('J') => Some(Action::ReleaseDown),
            KeyCode::Left | KeyCode::Char('h') | KeyCode::Char('H') => Some(Action::ReleaseLeft),
            KeyCode::Right | KeyCode::Char('l') | KeyCode::Char('L') => Some(Action::ReleaseRight),
            KeyCode::Char(' ') => Some(Action::ReleaseSpace),
            _ => None,
        }
    } else if spec_is_ctrl_c(k) {
        None
    } else {
        match k.code {
            KeyCode::Up | KeyCode::Char('k') | KeyCode::Char('K') => Some(Action::Up),
            KeyCode::Down | KeyCode::Char('j') | KeyCode::Char('J') => Some(Action::Down),
            KeyCode::Left | KeyCode::Char('h') | KeyCode::Char('H') => Some(Action::Left),
            KeyCode::Right | KeyCode::Char('l') | KeyCode::Char('L') => Some(Action::Right),
            KeyCode::Enter => Some(Action::Confirm),
            KeyCode::Char(' ') => Some(Action::Space),
            KeyCode::Esc | KeyCode::Char('q') | KeyCode::Char('Q') => Some(Action::Cancel),
            KeyCode::Backspace => Some(Action::Backspace),
            KeyCode::Char(c) => Some(Action::Char(c)),
            _ => None,
        }
    }
}

/// The release that matches action `a`: releasing the key of a direction or
/// of Space ends that direction or Space; other actions have no release.
pub open spec fn release_of(a: Option<Action>) -> Option<Action> {
    match a {
        Some(Action::Up) => Some(Action::ReleaseUp),
        Some(Action::Down) => Some(Action::ReleaseDown),
        Some(Action::Left) => Some(Action::ReleaseLeft),
        Some(Action::Right) => Some(Action::ReleaseRight),
        Some(Action::Space) => Some(Action::ReleaseSpace),
        _ => None,
    }
}

/// Maps a key event to its action (see `spec_map_key`): the arrows and
/// HJKL (either case) move, Enter confirms, Space is Space, ESC and Q (either
/// case) cancel; releasing an arrow, HJKL or Space releases that same
/// direction or Space.
pub fn map_key(k: Key) -> (r: Option<Action>)
    ensures
        r == spec_map_key(k),
        k.kind == KeyKind::Release && (k.code == KeyCode::Up || k.code == KeyCode::Char('k') || k.code
            == KeyCode::Char('K')) ==> r == Some(Action::ReleaseUp),
        k.kind == KeyKind::Release && (k.code == KeyCode::Down || k.code == KeyCode::Char('j') || k.code
            == KeyCode::Char('J')) ==> r == Some(Action::ReleaseDown),
        k.kind == KeyKind::Release && (k.code == KeyCode::Left || k.code == KeyCode::Char('h') || k.code
            == KeyCode::Char('H')) ==> r == Some(Action::ReleaseLeft),
        k.kind == KeyKind::Release && (k.code == KeyCode::Right || k.code == KeyCode::Char('l') || k.code
            == KeyCode::Char('L')) ==> r == Some(Action::ReleaseRight),
        k.kind == KeyKind::Release && k.code == KeyCode::Char(' ') ==> r == Some(Action::ReleaseSpace),
        k.kind != KeyKind::Release && (k.code == KeyCode::Up || k.code == KeyCode::Char('k') || k.code
            == KeyCode::Char('K')) ==> r == Some(Action::Up),
        k.kind != KeyKind::Release && (k.code == KeyCode::Down || k.code == KeyCode::Char('j') || k.code
            == KeyCode::Char('J')) ==> r == Some(Action::Down),
        k.kind != KeyKind::Release && (k.code == KeyCode::Left || k.code == KeyCode::Char('h') || k.code
            == KeyCode::Char('H')) ==> r == Some(Action::Left),
        k.kind != KeyKind::Release && (k.code == KeyCode::Right || k.code == KeyCode::Char('l') || k.code
            == KeyCode::Char('L')) ==> r == Some(Action::Right),
        k.kind != KeyKind::Release && k.code == KeyCode::Enter ==> r == Some(Action::Confirm),
        k.kind != KeyKind::Release && k.code == KeyCode::Char(' ') ==> r == Some(Action::Space),
        k.kind != KeyKind::Release && (k.code == KeyCode::Esc || k.code == KeyCode::Char('q') || k.code
            == KeyCode::Char('Q')) ==> r == Some(Action::Cancel),
        k.kind != KeyKind::Release && k.code == KeyCode::Backspace ==> r == Some(Action::Backspace),
        k.kind != KeyKind::Release && k.ctrl && (k.code == KeyCode::Char('c') || k.code == KeyCode::Char('C'))
            ==> r is None,
{
    if k.kind == KeyKind::Release {
        return match k.code {
            KeyCode::Up | KeyCode::Char('k') | KeyCode::Char('K') => Some(Action::ReleaseUp),
            KeyCode::Down | KeyCode::Char('j') | KeyCode::Char('J') => Some(Action::ReleaseDown),
            KeyCode::Left | KeyCode::Char('h') | KeyCode::Char('H') => Some(Action::ReleaseLeft),
            KeyCode::Right | KeyCode::Char('l') | KeyCode::Char('L') => Some(Action::ReleaseRight),
            KeyCode::Char(' ') => Some(Action::ReleaseSpace),
            _ => None,
        };
    }
    if is_ctrl_c(k) {
        return None;
    }
    match k.code {
        KeyCode::Up | KeyCode::Char('k') | KeyCode::Char('K') => Some(Action::Up),
        KeyCode::Down | KeyCode::Char('j') | KeyCode::Char('J') => Some(Action::Down),
        KeyCode::Left | KeyCode::Char('h') | KeyCode::Char('H') => Some(Action::Left),
        KeyCode::Right | KeyCode::Char('l') | KeyCode::Char('L') => Some(Action::Right),
        KeyCode::Enter => Some(Action::Confirm),
        KeyCode::Char(' ') => Some(Action::Space),
        KeyCode::Esc | KeyCode::Char('q') | KeyCode::Char('Q') => Some(Action::Cancel),
        KeyCode::Backspace => Some(Action::Backspace),
        KeyCode::Char(c) => Some(Action::Char(c)),
        _ => None,
    }
}

/// Releasing a key ends what pressing it started: the release of any key
/// (with or without Ctrl) gives the release of the action its plain press
/// gives, so an arrow, HJKL or Space release ends that same direction or
/// Space, and every other release gives nothing.
pub proof fn release_ends_what_press_started(code: KeyCode, ctrl: bool)
    ensures
        spec_map_key(Key { code, kind: KeyKind::Release, ctrl }) == release_of(
            spec_map_key(Key { code, kind: KeyKind::Press, ctrl: false }),
        ),
{
}

} // verus!
