use classic_games_collection::score::{civil_from_days, now_string, timestamp_string, Entry, ScoreFile};

#[test]
fn date_format() {
    let s = now_string();
    assert_eq!(s.len(), 16);
    assert_eq!(&s[4..5], "-");
}

#[test]
fn civil_days_known() {
    assert_eq!(civil_from_days(0), (1970, 1, 1));
    assert_eq!(civil_from_days(11017), (2000, 3, 1));
    assert_eq!(civil_from_days(19782), (2024, 2, 29));
    assert_eq!(civil_from_days(19783), (2024, 3, 1));
}

#[test]
fn add_and_sort() {
    let mut f = ScoreFile::default();
    f.user = "alice".into();
    f.add_score("snake", "alice", 30);
    f.add_score("snake", "bob", 100);
    f.add_score("snake", "alice", 50);
    let v = f.get_vec("snake");
    assert_eq!(v.len(), 3);
    assert_eq!(v[0].score, 100);
    assert_eq!(v[1].score, 50);
    assert_eq!(v[2].score, 30);
    assert_eq!(f.rank_of("snake", 50), Some(2));
}

#[test]
fn gomoku_stats_work() {
    let mut f = ScoreFile::default();
    f.add_gomoku("alice", true);
    f.add_gomoku("alice", true);
    f.add_gomoku("alice", false);
    let s = f.gomoku_stats("alice");
    assert_eq!((s.wins, s.losses), (2, 1));
}

#[test]
fn timestamp_text_of_known_instants() {
    assert_eq!(timestamp_string(0), "1970-01-01 00:00");
    assert_eq!(timestamp_string(951_782_400 + 3_661), "2000-02-29 01:01");
}

#[test]
fn leaderboard_keeps_top_ten_and_skips_zero() {
    let mut f = ScoreFile::default();
    for i in 1..=12u32 {
        f.add_score_at("tetris", "p", i * 10, format!("2024-01-{:02} 00:00", i));
    }
    let v = f.get_vec("tetris");
    assert_eq!(v.len(), 10);
    assert_eq!(v[0].score, 120);
    assert_eq!(v[9].score, 30);
    f.add_score("tetris", "p", 0);
    assert_eq!(f.get_vec("tetris").len(), 10);
    f.add_score("gomoku", "p", 500);
    assert_eq!(f.get_vec("snake").len(), 0);
}

#[test]
fn equal_scores_rank_by_earlier_date() {
    let mut f = ScoreFile::default();
    f.add_score_at("plane", "late", 40, "2024-05-02 10:00".to_string());
    f.add_score_at("plane", "early", 40, "2024-05-01 10:00".to_string());
    let v = f.get_vec("plane");
    assert_eq!(v[0].user, "early");
    assert_eq!(v[1].user, "late");
    assert!(f.is_new_best("plane", 40));
    assert!(!f.is_new_best("plane", 0));
    assert_eq!(f.rank_of("plane", 41), None);
}

#[test]
fn normalize_drops_unnamed_and_sorts() {
    let mut f = ScoreFile::default();
    f.add_score_at("breakout", "a", 10, "d".to_string());
    f.add_score_at("breakout", "  ", 99, "d".to_string());
    f.add_score_at("breakout", "b", 20, "d".to_string());
    f.normalize();
    let v = f.get_vec("breakout");
    assert_eq!(v.len(), 2);
    assert_eq!(v[0].user, "b");
    assert_eq!(v[1].user, "a");
}

#[test]
fn gomoku_records_per_user() {
    let mut f = ScoreFile::default();
    f.add_gomoku_at("zed", false, "t1".to_string());
    f.add_gomoku_at("amy", true, "t2".to_string());
    assert_eq!(f.gomoku[0].0, "amy");
    assert_eq!(f.gomoku[1].0, "zed");
    let z = f.gomoku_stats("zed");
    assert_eq!((z.wins, z.losses, z.last.as_str()), (0, 1, "t1"));
    let n = f.gomoku_stats("nobody");
    assert_eq!((n.wins, n.losses), (0, 0));
}

fn old_entry(user: &str, score: u32) -> Entry {
    Entry { user: user.to_string(), score, date: "2020-01-01 00:00".to_string() }
}

#[test]
fn a_round_cut_from_the_board_has_no_rank() {
    let mut f = ScoreFile::default();
    for _ in 0..10 {
        f.snake.push(old_entry("amy", 50));
    }
    f.add_score("snake", "bob", 50);
    assert_eq!(f.get_vec("snake").len(), 10);
    assert!(f.get_vec("snake").iter().all(|e| e.user == "amy"));
    assert_eq!(f.rank_of("snake", 50), None);
    assert!(!f.is_new_best("snake", 50));
}

#[test]
fn tying_the_record_is_not_a_new_best() {
    let mut f = ScoreFile::default();
    f.snake.push(old_entry("amy", 100));
    f.add_score("snake", "bob", 100);
    let v = f.get_vec("snake");
    assert_eq!(v[0].user, "amy");
    assert_eq!(v[1].user, "bob");
    assert!(!f.is_new_best("snake", 100));
    // The rank is that of the first entry holding the score.
    assert_eq!(f.rank_of("snake", 100), Some(1));
}

#[test]
fn beating_the_record_is_a_new_best() {
    let mut f = ScoreFile::default();
    f.snake.push(old_entry("amy", 100));
    f.add_score("snake", "bob", 101);
    assert!(f.is_new_best("snake", 101));
    assert_eq!(f.rank_of("snake", 101), Some(1));
}

#[test]
fn a_gomoku_game_changes_only_that_users_record() {
    let mut f = ScoreFile::default();
    f.add_gomoku_at("amy", true, "t1".to_string());
    f.add_gomoku_at("bob", false, "t2".to_string());
    f.add_gomoku_at("amy", false, "t3".to_string());
    let a = f.gomoku_stats("amy");
    assert_eq!((a.wins, a.losses, a.last.as_str()), (1, 1, "t3"));
    let b = f.gomoku_stats("bob");
    assert_eq!((b.wins, b.losses, b.last.as_str()), (0, 1, "t2"));
}

#[test]
fn a_tied_score_takes_the_rank_of_its_first_holder() {
    let mut f = ScoreFile::default();
    f.snake.push(old_entry("amy", 80));
    f.snake.push(old_entry("cat", 50));
    f.snake.push(old_entry("dan", 50));
    f.add_score("snake", "bob", 50);
    assert_eq!(f.get_vec("snake")[3].user, "bob");
    assert_eq!(f.rank_of("snake", 50), Some(2));
}

#[test]
fn days_follow_the_calendar() {
    assert_eq!(civil_from_days(19722), (2023, 12, 31));
    assert_eq!(civil_from_days(19723), (2024, 1, 1));
    assert_eq!(civil_from_days(-1), (1969, 12, 31));
    assert_eq!(civil_from_days(10956), (1999, 12, 31));
    assert_eq!(civil_from_days(10957), (2000, 1, 1));
}
