use classic_games_collection::games::breakout::{BreakoutCore, BRICK_COLS, BRICK_ROWS};

#[test]
fn new_wall_is_full() {
    let b = BreakoutCore::new();
    assert_eq!(b.bricks_left, 54);
    assert_eq!((b.lives, b.score, b.over), (3, 0, false));
    assert!(b.bricks.iter().all(|r| r.len() == BRICK_COLS && r.iter().all(|&x| x)));
    assert_eq!(b.bricks.len(), BRICK_ROWS);
}

#[test]
fn brick_lookup_is_bounded() {
    let mut b = BreakoutCore::new();
    assert_eq!(b.brick_at(5, 4), Some((5, 4)));
    assert_eq!(b.brick_at(6, 4), None);
    assert_eq!(b.brick_at(-1, 0), None);
    assert_eq!(b.brick_at(0, 9), None);
    b.break_brick(5, 4);
    assert_eq!(b.brick_at(5, 4), None);
}

#[test]
fn last_brick_ends_with_bonus() {
    let mut b = BreakoutCore::new();
    let mut cleared = false;
    for r in 0..BRICK_ROWS {
        for c in 0..BRICK_COLS {
            cleared = b.break_brick(r, c);
        }
    }
    assert!(cleared);
    assert_eq!(b.bricks_left, 0);
    assert_eq!(b.score, 54 * 10 + 100);
    assert!(b.over);
}

#[test]
fn one_brick_scores_ten() {
    let mut b = BreakoutCore::new();
    assert!(!b.break_brick(0, 0));
    assert_eq!((b.bricks_left, b.score, b.over), (53, 10, false));
    assert!(!b.bricks[0][0]);
}

#[test]
fn lives_run_out_and_heal_caps_at_three() {
    let mut b = BreakoutCore::new();
    assert!(!b.heal());
    assert_eq!(b.lives, 3);
    assert!(!b.lose_life());
    assert!(b.heal());
    assert_eq!(b.lives, 3);
    assert!(!b.lose_life());
    assert!(!b.lose_life());
    assert!(b.lose_life());
    assert_eq!(b.lives, 0);
    assert!(b.over);
}

#[test]
fn last_bottom_brick_from_any_score() {
    // One brick left on the bottom row and no points yet: breaking it gives
    // ten points and the hundred-point bonus, and the game is over.
    let mut b = BreakoutCore::new();
    for r in 0..6 {
        for c in 0..9 {
            b.bricks[r][c] = false;
        }
    }
    b.bricks[5][4] = true;
    b.bricks_left = 1;
    assert!(b.break_brick(5, 4));
    assert_eq!(b.bricks_left, 0);
    assert_eq!(b.score, 110);
    assert!(b.over);
    assert_eq!(b.lives, 3);
}
