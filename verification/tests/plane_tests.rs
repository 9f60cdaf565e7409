use classic_games_collection::games::plane::{axis, can_fire, enemy_hp, enemy_points, points_for_hits, PlaneState};
use classic_games_collection::input::Action;

#[test]
fn points_and_hit_points_by_kind() {
    assert_eq!((enemy_points(0), enemy_points(1), enemy_points(2)), (10, 15, 30));
    assert_eq!((enemy_hp(0), enemy_hp(1), enemy_hp(2)), (1, 1, 3));
}

#[test]
fn held_keys_give_direction() {
    let mut s = PlaneState::new();
    s.handle(Action::Right);
    s.handle(Action::Up);
    assert_eq!(axis(s.right_held, s.left_held), 1);
    assert_eq!(axis(s.down_held, s.up_held), -1);
    s.handle(Action::Left);
    assert_eq!(axis(s.right_held, s.left_held), 0);
    s.handle(Action::ReleaseRight);
    assert_eq!(axis(s.right_held, s.left_held), -1);
    s.handle(Action::Space);
    assert!(s.shooting);
    s.handle(Action::ReleaseSpace);
    assert!(!s.shooting);
}

#[test]
fn bullets_are_capped() {
    assert!(can_fire(11));
    assert!(!can_fire(12));
}

#[test]
fn hits_cost_lives_unless_invulnerable() {
    let mut s = PlaneState::new();
    assert!(!s.hit_player(true));
    assert_eq!(s.lives, 3);
    assert!(s.hit_player(false));
    s.base_hit();
    assert_eq!(s.lives, 1);
    assert!(!s.over);
    assert!(s.hit_player(false));
    assert!(s.over);
    s.base_hit();
    assert_eq!(s.lives, 0);
    s.award(2);
    s.award(1);
    assert_eq!(s.score, 45);
    // Keys are ignored after the end.
    s.handle(Action::Left);
    assert!(!s.left_held);
}

#[test]
fn health_pack_heals_up_to_three() {
    let mut s = PlaneState::new();
    assert!(!s.heal());
    assert_eq!(s.lives, 3);
    assert!(s.hit_player(false));
    assert_eq!(s.lives, 2);
    assert!(s.heal());
    assert_eq!(s.lives, 3);
    assert!(!s.heal());
    assert_eq!(s.lives, 3);
}

#[test]
fn shots_wear_enemies_down_and_score() {
    let mut p = PlaneState::new();
    let mut hp = vec![1, 2, 1];
    let kinds = vec![0u8, 2, 1];
    let hits = vec![Some(0), None, Some(1), Some(0)];
    assert_eq!(points_for_hits(&hp, &kinds, &hits), 10);
    let (used, downed) = p.resolve_hits(&mut hp, &kinds, &hits);
    assert_eq!(used, vec![true, false, true, true]);
    assert_eq!(hp, vec![0, 1, 1]);
    assert_eq!(downed, vec![true, false, false]);
    assert_eq!(p.score, 10);
    let (used, downed) = p.resolve_hits(&mut hp, &kinds, &vec![Some(1), Some(2)]);
    assert_eq!(used, vec![true, true]);
    assert_eq!(hp, vec![0, 0, 0]);
    assert_eq!(downed, vec![false, true, true]);
    assert_eq!(p.score, 10 + 30 + 15);
}
