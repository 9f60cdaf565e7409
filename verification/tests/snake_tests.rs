use classic_games_collection::games::snake::{Dir, Snake, BW};
use classic_games_collection::games::{GameOutcome, Status};
use classic_games_collection::input::Action;

#[test]
fn starts_alive_and_moves() {
    let mut s = Snake::new();
    assert!(!s.over);
    for _ in 0..5 {
        s.step();
        assert!(!s.over, "the snake should not die at once");
    }
    let head0 = *s.body.front().unwrap();
    assert!(head0.0 > BW / 2 - 2, "the head should move right");
}

#[test]
fn reverse_direction_ignored() {
    let mut s = Snake::new();
    s.turn(Dir::Left);
    let h = *s.body.front().unwrap();
    s.step();
    let h2 = *s.body.front().unwrap();
    assert!(h2.0 > h.0, "a reverse turn must not take effect");
    s.turn(Dir::Up);
    s.dir = Dir::Up;
    s.turn(Dir::Down);
    assert_eq!(s.next_dir, Dir::Up, "turning back down must be ignored");
}

#[test]
fn eats_food_and_grows() {
    let mut s = Snake::new();
    let head = *s.body.front().unwrap();
    let len0 = s.body.len();
    s.food = (head.0 + 1, head.1);
    s.step();
    assert_eq!(s.body.len(), len0 + 1, "eating grows the snake");
    assert_eq!(s.score, 10);
    // The new food is on the board and off the body.
    assert!(s.food.0 < 32 && s.food.1 < 20);
    assert!(!s.body.contains(&s.food));
}

#[test]
fn wall_ends_the_game() {
    let mut s = Snake::new();
    s.food = (0, 0);
    s.handle(Action::Up);
    for _ in 0..10 {
        s.step();
    }
    assert!(!s.over);
    assert_eq!(*s.body.front().unwrap(), (14, 0));
    s.step();
    assert!(s.over);
    assert_eq!(*s.body.front().unwrap(), (14, 0));
    assert_eq!(s.status(), Status::Finished);
    assert_eq!(s.outcome(), GameOutcome::Score(0));
}

#[test]
fn biting_itself_ends_the_game() {
    let mut s = Snake::new();
    s.food = (0, 0);
    // Grow to five cells, then turn into the body.
    s.food = (15, 10);
    s.step();
    assert_eq!(s.body.len(), 5);
    s.food = (0, 0);
    s.turn(Dir::Up);
    s.step();
    s.turn(Dir::Left);
    s.step();
    s.turn(Dir::Down);
    s.step();
    assert!(s.over);
}

#[test]
fn space_pauses_and_keys_stop_after_end() {
    let mut s = Snake::new();
    s.handle(Action::Space);
    assert!(s.paused);
    s.handle(Action::Space);
    assert!(!s.paused);
    s.over = true;
    s.handle(Action::Up);
    assert_eq!(s.next_dir, Dir::Right);
}

#[test]
fn head_may_enter_the_cell_the_tail_leaves() {
    let mut s = Snake {
        body: std::collections::VecDeque::from(vec![(5, 5), (5, 6), (6, 6), (6, 5)]),
        dir: Dir::Up,
        next_dir: Dir::Right,
        food: (0, 0),
        score: 0,
        paused: false,
        over: false,
    };
    s.step();
    assert!(!s.over);
    assert_eq!(Vec::from(s.body.clone()), vec![(6, 5), (5, 5), (5, 6), (6, 6)]);
    assert_eq!(s.score, 0);
}
