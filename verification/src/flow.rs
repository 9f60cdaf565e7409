//! The decisions of the application's screens around the games: the pause
//! menu, the summary screen, recording a finished game, the Gomoku ranking and
//! editing the user name.

use vstd::prelude::*;
use crate::games::{GameId, GameOutcome};
use crate::input::{Action, Key, KeyCode, KeyKind, spec_is_ctrl_c};
use crate::score::{
    first_index,
    GomokuStats, ScoreFile, StatsView, board_after_add, landing, board_index, stats_lookup, stats_table_view, table_after_game,
    timestamp_text,
};
use crate::text::{
    dec_chars, dec_string, pad_left, pad_right, push_char, push_left_aligned, push_right_aligned, spec_trim, trim,
};
use crate::canvas::{
    Canvas, Cell, Color, box_left, drawn_on, lemma_put_str_cell_covered, lemma_wrap_column_small, put_str_cell, spec_empty_cell,
    spec_min, spec_str_width, str_width, wrap_column,
};
use crate::col;
use crate::lang::{Ui, filled, fmt};
use crate::menu::{MenuChoice, game_name_text, text_from};
use crate::score::{Entry, EntryView};

verus! {

/// The pause menu's answer.
#[derive(Clone, Copy, PartialEq, Eq, Debug, Structural)]
pub enum PauseChoice {
    Resume,
    Quit,
}

/// The pause menu's reading of a key: Enter, Space or C resumes, ESC/Q quits,
/// anything else (or no key) waits.
pub fn pause_choice(a: Option<Action>) -> (r: Option<PauseChoice>)
    ensures
        r == match a {
            Some(Action::Confirm) | Some(Action::Space) => Some(PauseChoice::Resume),
            Some(Action::Char(c)) => if c == 'c' || c == 'C' {
                Some(PauseChoice::Resume)
            } else {
                None
            },
            Some(Action::Cancel) => Some(PauseChoice::Quit),
            _ => None,
        },
{
    match a {
        Some(Action::Confirm) | Some(Action::Space) => Some(PauseChoice::Resume),
        Some(Action::Char(c)) => {
            if c == 'c' || c == 'C' {
                Some(PauseChoice::Resume)
            } else {
                None
            }
        },
        Some(Action::Cancel) => Some(PauseChoice::Quit),
        _ => None,
    }
}

/// The summary screen's answer.
#[derive(Clone, Copy, PartialEq, Eq, Debug, Structural)]
pub enum SummaryChoice {
    Restart,
    Menu,
}

/// Where the program stands between screens.
#[derive(Clone, Copy, PartialEq, Eq, Debug, Structural)]
pub enum Screen {
    /// The main menu.
    Menu,
    /// The user-name screen.
    Naming,
    /// A game being played.
    Playing(GameId),
    /// The summary after a game ended with an outcome.
    Summary(GameId, GameOutcome),
    /// The program ends.
    Done,
}

/// What a screen ended with.
#[derive(Clone, Copy, PartialEq, Eq, Debug, Structural)]
pub enum ScreenEnd {
    /// The menu's pick.
    Picked(MenuChoice),
    /// The game ended (left from the pause menu: `Quit`).
    GameOver(GameOutcome),
    /// The summary's answer.
    Answered(SummaryChoice),
    /// The user-name screen was left.
    Named,
}

/// The screen that follows `s` when it ends with `e`, and whether the
/// game's outcome is recorded: the menu starts a game, the user-name screen
/// or ends the program; a finished game is recorded and summarised, a game
/// left from the pause menu returns to the menu; the summary plays the same
/// game again or returns to the menu; the user-name screen returns to the
/// menu. An end that does not belong to the screen changes nothing.
pub open spec fn spec_next_screen(s: Screen, e: ScreenEnd) -> (Screen, bool) {
    match (s, e) {
        (Screen::Menu, ScreenEnd::Picked(c)) => (
            match c {
                MenuChoice::Play(id) => Screen::Playing(id),
                MenuChoice::ChangeUser => Screen::Naming,
                MenuChoice::Quit => Screen::Done,
            },
            false,
        ),
        (Screen::Playing(id), ScreenEnd::GameOver(o)) => if o == GameOutcome::Quit {
            (Screen::Menu, false)
        } else {
            (Screen::Summary(id, o), true)
        },
        (Screen::Summary(id, _), ScreenEnd::Answered(a)) => (
            match a {
                SummaryChoice::Restart => Screen::Playing(id),
                SummaryChoice::Menu => Screen::Menu,
            },
            false,
        ),
        (Screen::Naming, ScreenEnd::Named) => (Screen::Menu, false),
        _ => (s, false),
    }
}

/// The screen that follows `s` when it ends with `e`, and whether to record
/// the game's outcome (see `spec_next_screen`): the summary's Menu answer
/// returns to the main menu and its Restart answer plays the same game again;
/// only a finished game is recorded; and the program ends only from the main
/// menu's Quit.
pub fn next_screen(s: Screen, e: ScreenEnd) -> (r: (Screen, bool))
    ensures
        r == spec_next_screen(s, e),
        s is Summary && e == ScreenEnd::Answered(SummaryChoice::Menu) ==> r == (Screen::Menu, false),
        s is Summary && e == ScreenEnd::Answered(SummaryChoice::Restart) ==> r == (Screen::Playing(s->Summary_0), false),
        s == Screen::Menu ==> (e == ScreenEnd::Picked(MenuChoice::Quit) <==> r == (Screen::Done, false)),
        s == Screen::Menu && e == ScreenEnd::Picked(MenuChoice::ChangeUser) ==> r == (Screen::Naming, false),
        s == Screen::Menu && e is Picked && e->Picked_0 is Play ==> r == (Screen::Playing(e->Picked_0->Play_0), false),
        s is Playing && e == ScreenEnd::GameOver(GameOutcome::Quit) ==> r == (Screen::Menu, false),
        s is Playing && e is GameOver && e->GameOver_0 != GameOutcome::Quit ==> r == (
        Screen::Summary(s->Playing_0, e->GameOver_0), true),
        s == Screen::Naming && e == ScreenEnd::Named ==> r == (Screen::Menu, false),
        r.1 ==> s is Playing && e is GameOver,
        r.0 == Screen::Done ==> s == Screen::Done || (s == Screen::Menu && e == ScreenEnd::Picked(MenuChoice::Quit)),
{
    match (s, e) {
        (Screen::Menu, ScreenEnd::Picked(c)) => (
            match c {
                MenuChoice::Play(id) => Screen::Playing(id),
                MenuChoice::ChangeUser => Screen::Naming,
                MenuChoice::Quit => Screen::Done,
            },
            false,
        ),
        (Screen::Playing(id), ScreenEnd::GameOver(o)) => match o {
            GameOutcome::Quit => (Screen::Menu, false),
            _ => (Screen::Summary(id, o), true),
        },
        (Screen::Summary(id, _), ScreenEnd::Answered(a)) => (
            match a {
                SummaryChoice::Restart => Screen::Playing(id),
                SummaryChoice::Menu => Screen::Menu,
            },
            false,
        ),
        (Screen::Naming, ScreenEnd::Named) => (Screen::Menu, false),
        _ => (s, false),
    }
}

/// The screens lead where the menu, the games and the summary say: from a
/// summary, answering Menu returns to the main menu and answering Restart
/// plays the same game again; a game's outcome is recorded only when it ended
/// with one (not left from the pause menu); and the program ends only from
/// the main menu's Quit, after which it stays ended.
pub proof fn screen_flow(s: Screen, e: ScreenEnd)
    ensures
        s is Summary && e == ScreenEnd::Answered(SummaryChoice::Menu) ==> spec_next_screen(s, e) == (Screen::Menu, false),
        s is Summary && e == ScreenEnd::Answered(SummaryChoice::Restart) ==> spec_next_screen(s, e) == (
        Screen::Playing(s->Summary_0), false),
        spec_next_screen(s, e).1 ==> s is Playing && e is GameOver && e->GameOver_0 != GameOutcome::Quit,
        spec_next_screen(s, e).0 == Screen::Done ==> s == Screen::Done || (s == Screen::Menu && e == ScreenEnd::Picked(
            MenuChoice::Quit,
        )),
        s == Screen::Done ==> spec_next_screen(s, e) == (Screen::Done, false),
{
}

/// The summary screen's reading of a key: R plays again; ESC/Q, Enter or
/// Space goes back to the menu; anything else (or no key) waits.
pub fn summary_choice(a: Option<Action>) -> (r: Option<SummaryChoice>)
    ensures
        r == match a {
            Some(Action::Char(c)) => if c == 'r' || c == 'R' {
                Some(SummaryChoice::Restart)
            } else {
                None
            },
            Some(Action::Cancel) | Some(Action::Confirm) | Some(Action::Space) => Some(SummaryChoice::Menu),
            _ => None,
        },
{
    match a {
        Some(Action::Char(c)) => {
            if c == 'r' || c == 'R' {
                Some(SummaryChoice::Restart)
            } else {
                None
            }
        },
        Some(Action::Cancel) | Some(Action::Confirm) | Some(Action::Space) => Some(SummaryChoice::Menu),
        _ => None,
    }
}

/// Records a finished game for `user`, dated now: a score goes to the game's
/// leaderboard (see `ScoreFile::add_score`), a Gomoku win or loss to the
/// user's record; a draw or a game left midway is not recorded.
pub fn record_outcome(scores: &mut ScoreFile, id: GameId, user: &str, outcome: GameOutcome)
    requires
        outcome matches GameOutcome::Gomoku { win } ==> (if win {
            stats_lookup(old(scores).table(), user@).0 < u32::MAX
        } else {
            stats_lookup(old(scores).table(), user@).1 < u32::MAX
        }),
    ensures
        match outcome {
            GameOutcome::Score(s) => if id.spec_score_key() == "gomoku"@ || s == 0 {
                *final(scores) == (ScoreFile { last_place: None, ..*old(scores) })
            } else {
                &&& ScoreFile::same_but_board(*final(scores), *old(scores), board_index(id.spec_score_key()))
                &&& exists|secs: u64|
                    final(scores).board(id.spec_score_key()) == board_after_add(
                        old(scores).board(id.spec_score_key()),
                        user@,
                        s,
                        timestamp_text(secs),
                    ) && final(scores).last_place == landing(
                        board_index(id.spec_score_key()),
                        old(scores).board(id.spec_score_key()),
                        (user@, s, timestamp_text(secs)),
                    )
            },
            GameOutcome::Gomoku { win } => {
                &&& final(scores).user == old(scores).user
                &&& final(scores).snake == old(scores).snake
                &&& final(scores).breakout == old(scores).breakout
                &&& final(scores).tetris == old(scores).tetris
                &&& final(scores).plane == old(scores).plane
                &&& exists|secs: u64|
                    final(scores).table() == table_after_game(old(scores).table(), user@, win, timestamp_text(secs))
            },
            _ => *final(scores) == *old(scores),
        },
{
    match outcome {
        GameOutcome::Score(s) => scores.add_score(id.score_key(), user, s),
        GameOutcome::Gomoku { win } => scores.add_gomoku(user, win),
        _ => {},
    }
}

/// Whether record `a` ranks above `b` in the Gomoku ranking: more wins, or
/// as many wins and fewer losses.
pub open spec fn outranks(a: (Seq<char>, StatsView), b: (Seq<char>, StatsView)) -> bool {
    a.1.0 > b.1.0 || (a.1.0 == b.1.0 && a.1.1 < b.1.1)
}

/// Where a record goes when placed ahead of the records it ties with: before
/// the first record (from `k` on) that does not rank above it.
pub open spec fn rank_pos(r: Seq<(Seq<char>, StatsView)>, e: (Seq<char>, StatsView), k: int) -> int
    decreases r.len() - k,
{
    if k < 0 || k >= r.len() || !outranks(r[k], e) {
        k
    } else {
        rank_pos(r, e, k + 1)
    }
}

/// The Gomoku ranking: the stable sort of `s` by `outranks`, ties in the
/// order they came.
pub open spec fn ranking(s: Seq<(Seq<char>, StatsView)>) -> Seq<(Seq<char>, StatsView)>
    decreases s.len(),
{
    if s.len() == 0 {
        s
    } else {
        let r = ranking(s.drop_first());
        r.insert(rank_pos(r, s[0], 0), s[0])
    }
}

/// A copy of a Gomoku record.
fn copy_record(p: &(String, GomokuStats)) -> (r: (String, GomokuStats))
    ensures
        (r.0@, r.1@) == (p.0@, p.1@),
{
    (p.0.clone(), GomokuStats { wins: p.1.wins, losses: p.1.losses, last: p.1.last.clone() })
}

proof fn lemma_table_view_insert(r: Seq<(String, GomokuStats)>, k: int, e: (String, GomokuStats))
    requires
        0 <= k <= r.len(),
    ensures
        stats_table_view(r.insert(k, e)) == stats_table_view(r).insert(k, (e.0@, e.1@)),
{
    assert(stats_table_view(r.insert(k, e)) =~= stats_table_view(r).insert(k, (e.0@, e.1@)));
}

/// The Gomoku records ranked by wins (most first), then losses (fewest
/// first), equal records in table order.
pub fn gomoku_ranking(g: &Vec<(String, GomokuStats)>) -> (r: Vec<(String, GomokuStats)>)
    ensures
        stats_table_view(r@) == ranking(stats_table_view(g@)),
{
    let ghost s = stats_table_view(g@);
    let mut r: Vec<(String, GomokuStats)> = Vec::new();
    let mut i: usize = g.len();
    proof {
        assert(s.skip(s.len() as int) =~= Seq::<(Seq<char>, StatsView)>::empty());
        assert(stats_table_view(r@) =~= Seq::<(Seq<char>, StatsView)>::empty());
    }
    while i > 0
        invariant
            s == stats_table_view(g@),
            i <= g@.len(),
            stats_table_view(r@) == ranking(s.skip(i as int)),
        decreases i,
    {
        i = i - 1;
        let e = copy_record(&g[i]);
        proof {
            let t = s.skip(i as int);
            assert(t.drop_first() =~= s.skip(i + 1));
            assert(t[0] == (e.0@, e.1@));
        }
        let ghost rv = stats_table_view(r@);
        let mut k: usize = 0;
        while k < r.len() && (r[k].1.wins > e.1.wins || (r[k].1.wins == e.1.wins && r[k].1.losses < e.1.losses))
            invariant
                rv == stats_table_view(r@),
                k <= r@.len(),
                rank_pos(rv, (e.0@, e.1@), 0) == rank_pos(rv, (e.0@, e.1@), k as int),
            decreases r@.len() - k,
        {
            k = k + 1;
        }
        proof {
            lemma_table_view_insert(r@, k as int, e);
        }
        r.insert(k, e);
    }
    proof {
        assert(s.skip(0) =~= s);
    }
    r
}


/// What `char::is_alphanumeric` says of a character (Unicode Alphabetic or
/// Numeric).
pub uninterp spec fn alphanumeric(c: char) -> bool;

/// `char::is_alphanumeric`.
#[verifier::external_body]
fn is_alphanumeric(c: char) -> (r: bool)
    ensures
        r == alphanumeric(c),
{
    c.is_alphanumeric()
}

/// A character allowed in user names: a letter or digit, space, `-`, `_`, `.`.
pub open spec fn name_char_ok(c: char) -> bool {
    alphanumeric(c) || c == ' ' || c == '-' || c == '_' || c == '.'
}

/// The longest user name being typed, in characters.
pub const NAME_MAX: usize = 16;

/// What a key does on the user-name screen.
#[derive(Debug)]
pub enum NameStep {
    /// Keep editing.
    Editing,
    /// Enter on a blank name: the name may not be empty.
    Empty,
    /// Enter: the trimmed name is taken.
    Accept(String),
    /// ESC: the old name stays.
    Cancel,
    /// Ctrl+C: leave the program.
    Quit,
}

/// `s` without its last character.
fn drop_last_char(s: &String) -> (r: String)
    requires
        s@.len() > 0,
    ensures
        r@ == s@.drop_last(),
{
    let n = s.as_str().unicode_len();
    let mut r = String::new();
    let mut i: usize = 0;
    while i + 1 < n
        invariant
            n == s@.len(),
            n > 0,
            i <= n - 1,
            r@ == s@.take(i as int),
        decreases n - i,
    {
        push_char(&mut r, s.as_str().get_char(i));
        proof {
            assert(s@.take(i + 1) =~= s@.take(i as int).push(s@[i as int]));
        }
        i = i + 1;
    }
    proof {
        assert(s@.take(i as int) =~= s@.drop_last());
    }
    r
}

/// One key on the user-name screen, editing `buf`. Releases are ignored and
/// Ctrl+C quits. An allowed character is appended while the name is shorter
/// than 16 characters; Backspace removes the last one; Enter takes the name
/// with surrounding white space removed, unless nothing is left; ESC cancels.
pub fn name_key(buf: &mut String, k: Key) -> (r: NameStep)
    ensures
        k.kind == KeyKind::Release ==> r is Editing && final(buf)@ == old(buf)@,
        k.kind != KeyKind::Release && spec_is_ctrl_c(k) ==> r is Quit && final(buf)@ == old(buf)@,
        k.kind != KeyKind::Release && !spec_is_ctrl_c(k) ==> match k.code {
            KeyCode::Char(c) => r is Editing && final(buf)@ == (if name_char_ok(c) && old(buf)@.len() < 16 {
                old(buf)@.push(c)
            } else {
                old(buf)@
            }),
            KeyCode::Backspace => r is Editing && final(buf)@ == (if old(buf)@.len() > 0 {
                old(buf)@.drop_last()
            } else {
                old(buf)@
            }),
            KeyCode::Enter => final(buf)@ == old(buf)@ && (if spec_trim(old(buf)@).len() == 0 {
                r is Empty
            } else {
                r matches NameStep::Accept(name) && name@ == spec_trim(old(buf)@)
            }),
            KeyCode::Esc => r is Cancel && final(buf)@ == old(buf)@,
            _ => r is Editing && final(buf)@ == old(buf)@,
        },
{
    if k.kind == KeyKind::Release {
        return NameStep::Editing;
    }
    if crate::input::is_ctrl_c(k) {
        return NameStep::Quit;
    }
    match k.code {
        KeyCode::Char(c) => {
            let ok = is_alphanumeric(c) || c == ' ' || c == '-' || c == '_' || c == '.';
            if ok && buf.as_str().unicode_len() < NAME_MAX {
                push_char(buf, c);
            }
            NameStep::Editing
        },
        KeyCode::Backspace => {
            if buf.as_str().unicode_len() > 0 {
                let shorter = drop_last_char(buf);
                *buf = shorter;
            }
            NameStep::Editing
        },
        KeyCode::Enter => {
            let name = trim(buf.as_str());
            if name.as_str().unicode_len() == 0 {
                NameStep::Empty
            } else {
                NameStep::Accept(name)
            }
        },
        KeyCode::Esc => NameStep::Cancel,
        _ => NameStep::Editing,
    }
}


/// A leaderboard row: rank, user, score and date in aligned columns.
pub open spec fn score_row_text(rank: nat, e: (Seq<char>, u32, Seq<char>)) -> Seq<char> {
    seq![' ', ' '] + pad_left(dec_chars(rank), 3) + seq![' ', ' ', ' '] + pad_right(e.0, 12) + seq![' ', ' ']
        + pad_left(dec_chars(e.1 as nat), 7) + seq![' ', ' ', ' '] + e.2
}

/// A Gomoku ranking row: rank, user, wins and losses in aligned columns.
pub open spec fn gomoku_row_text(rank: nat, u: Seq<char>, s: StatsView) -> Seq<char> {
    seq![' ', ' '] + pad_left(dec_chars(rank), 3) + seq![' ', ' ', ' '] + pad_right(u, 12) + seq![' ', ' ']
        + pad_left(dec_chars(s.0 as nat), 4) + seq![' ', ' '] + pad_left(dec_chars(s.1 as nat), 4)
}

/// The leaderboard row of entry `e` at 1-based `rank`.
pub fn score_row(rank: usize, e: &Entry) -> (r: String)
    ensures
        r@ == score_row_text(rank as nat, e@),
{
    let mut out = String::new();
    out.append("  ");
    push_right_aligned(&mut out, dec_string(rank as u64).as_str(), 3);
    out.append("   ");
    push_left_aligned(&mut out, e.user.as_str(), 12);
    out.append("  ");
    push_right_aligned(&mut out, dec_string(e.score as u64).as_str(), 7);
    out.append("   ");
    out.append(e.date.as_str());
    proof {
        reveal_strlit("  ");
        reveal_strlit("   ");
        assert(out@ =~= score_row_text(rank as nat, e@));
    }
    out
}

/// The Gomoku ranking row of `u` with record `s` at 1-based `rank`.
pub fn gomoku_row(rank: usize, u: &str, s: &GomokuStats) -> (r: String)
    ensures
        r@ == gomoku_row_text(rank as nat, u@, s@),
{
    let mut out = String::new();
    out.append("  ");
    push_right_aligned(&mut out, dec_string(rank as u64).as_str(), 3);
    out.append("   ");
    push_left_aligned(&mut out, u, 12);
    out.append("  ");
    push_right_aligned(&mut out, dec_string(s.wins as u64).as_str(), 4);
    out.append("  ");
    push_right_aligned(&mut out, dec_string(s.losses as u64).as_str(), 4);
    proof {
        reveal_strlit("  ");
        reveal_strlit("   ");
        assert(out@ =~= gomoku_row_text(rank as nat, u@, s@));
    }
    out
}


/// The column where text `s` starts when centered on column `cx`.
pub open spec fn center_col(cx: usize, s: Seq<char>) -> usize {
    cx.wrapping_sub(((spec_str_width(s) as int % (usize::MAX as int + 1)) / 2) as usize)
}

/// What row `row` of `c` holds once `s` is drawn there centered on column
/// `cx` in color `fg` over `under` cells: every cell as `put_str_cell` says.
pub open spec fn row_shows(c: Canvas, row: int, s: Seq<char>, cx: usize, fg: u8, under: Cell) -> bool {
    forall|i: int|
        0 <= i < c.width() ==> #[trigger] c.cell(i, row) == put_str_cell(
            s,
            wrap_column(center_col(cx, s)),
            i,
            c.width() as int,
            Color::AnsiValue(fg),
            Color::AnsiValue(col::BLACK),
            under,
        )
}

/// The blank cell the screens are cleared to.
pub open spec fn blank_cell() -> Cell {
    Cell { ch: ' ', fg: Color::AnsiValue(col::BLACK), bg: Color::AnsiValue(col::BLACK) }
}

/// Puts `s` centered on column `cx` of row `row`.
fn put_centered(c: &mut Canvas, cx: usize, row: usize, s: &str, fg: u8)
    requires
        old(c).wf(),
    ensures
        drawn_on(*final(c), *old(c)),
        forall|i: int, j: int|
            0 <= i < old(c).width() && 0 <= j < old(c).height() ==> #[trigger] final(c).cell(i, j) == if j == row {
                put_str_cell(
                    s@,
                    wrap_column(center_col(cx, s@)),
                    i,
                    old(c).width() as int,
                    Color::AnsiValue(fg),
                    Color::AnsiValue(col::BLACK),
                    old(c).cell(i, j),
                )
            } else {
                old(c).cell(i, j)
            },
{
    c.put_str(cx.wrapping_sub(str_width(s) / 2), row, s, Color::AnsiValue(fg), Color::AnsiValue(col::BLACK));
}

/// Whether the summary after a score `s` in game `id` shows the new-best
/// or the rank notice (one more row above the leaderboard): the score made
/// the board.
pub open spec fn notice_shown(scores: ScoreFile, id: GameId, s: u32) -> bool {
    scores.placed(id.spec_score_key(), s) is Some
}

/// The row of the leaderboard's title on the summary screen.
pub open spec fn board_title_row(outcome: GameOutcome, scores: ScoreFile, id: GameId) -> int {
    match outcome {
        GameOutcome::Score(s) => if notice_shown(scores, id, s) {
            9
        } else {
            8
        },
        _ => 8,
    }
}

/// The `i`th line of the leaderboard on the summary screen: the Gomoku
/// ranking for Gomoku, the game's leaderboard otherwise.
pub open spec fn board_line(scores: ScoreFile, id: GameId, i: int) -> Seq<char> {
    if id == GameId::Gomoku {
        let r = ranking(scores.table());
        gomoku_row_text((i + 1) as nat, r[i].0, r[i].1)
    } else {
        score_row_text((i + 1) as nat, scores.board(id.spec_score_key())[i])
    }
}

/// The number of leaderboard lines on the summary screen: at most six.
pub open spec fn board_lines(scores: ScoreFile, id: GameId) -> int {
    let n = if id == GameId::Gomoku {
        scores.table().len() as int
    } else {
        scores.board(id.spec_score_key()).len() as int
    };
    if n < 6 {
        n
    } else {
        6
    }
}

/// A line of a screen: its row, the column it starts at, its text and its
/// color (on black).
pub type ScreenLine = (int, int, Seq<char>, u8);

/// The line of `s` centered on column `cx` of row `row`.
pub open spec fn centered(row: int, s: Seq<char>, cx: usize, fg: u8) -> ScreenLine {
    (row, wrap_column(center_col(cx, s)), s, fg)
}

/// Row `l.0` of `c` shows the text of `l` drawn from its column over blank
/// cells.
pub open spec fn line_shows(c: Canvas, l: ScreenLine) -> bool {
    forall|i: int|
        0 <= i < c.width() ==> #[trigger] c.cell(i, l.0) == put_str_cell(
            l.2,
            l.1,
            i,
            c.width() as int,
            Color::AnsiValue(l.3),
            Color::AnsiValue(col::BLACK),
            blank_cell(),
        )
}

/// Some line of `ls` is on row `j`.
pub open spec fn on_some_line(ls: Seq<ScreenLine>, j: int) -> bool {
    exists|k: int| 0 <= k < ls.len() && (#[trigger] ls[k]).0 == j
}

/// `c` shows exactly the lines `ls`: each on its row (those on rows of the
/// canvas), every other row blank.
#[verifier::opaque]
pub open spec fn screen_shows(c: Canvas, ls: Seq<ScreenLine>) -> bool {
    &&& forall|k: int| 0 <= k < ls.len() && (#[trigger] ls[k]).0 < c.height() ==> line_shows(c, ls[k])
    &&& forall|i: int, j: int|
        0 <= i < c.width() && 0 <= j < c.height() && !on_some_line(ls, j) ==> #[trigger] c.cell(i, j) == blank_cell()
}

/// Drawing a line below all the lines shown so far, on a row of the canvas
/// that was blank, shows one more line.
proof fn lemma_add_line(before: Canvas, after: Canvas, ls: Seq<ScreenLine>, l: ScreenLine)
    requires
        screen_shows(before, ls),
        forall|k: int| 0 <= k < ls.len() ==> 0 <= (#[trigger] ls[k]).0 < l.0,
        0 <= l.0,
        after.width() == before.width(),
        after.height() == before.height(),
        forall|i: int, j: int|
            0 <= i < before.width() && 0 <= j < before.height() ==> #[trigger] after.cell(i, j) == if j == l.0 {
                put_str_cell(l.2, l.1, i, before.width() as int, Color::AnsiValue(l.3), Color::AnsiValue(col::BLACK), before.cell(i, j))
            } else {
                before.cell(i, j)
            },
    ensures
        screen_shows(after, ls.push(l)),
{
    reveal(screen_shows);
    let ls2 = ls.push(l);
    assert(!on_some_line(ls, l.0));
    assert forall|k: int| 0 <= k < ls2.len() && (#[trigger] ls2[k]).0 < after.height() implies line_shows(after, ls2[k]) by {
        if k < ls.len() {
            assert(ls2[k] == ls[k]);
            assert(line_shows(before, ls[k]));
            assert forall|i: int| 0 <= i < after.width() implies #[trigger] after.cell(i, ls[k].0) == put_str_cell(
                ls[k].2,
                ls[k].1,
                i,
                after.width() as int,
                Color::AnsiValue(ls[k].3),
                Color::AnsiValue(col::BLACK),
                blank_cell(),
            ) by {
                assert(before.cell(i, ls[k].0) == before.cell(i, ls[k].0));
            }
        } else {
            assert(ls2[k] == l);
            assert forall|i: int| 0 <= i < after.width() implies #[trigger] after.cell(i, l.0) == put_str_cell(
                l.2,
                l.1,
                i,
                after.width() as int,
                Color::AnsiValue(l.3),
                Color::AnsiValue(col::BLACK),
                blank_cell(),
            ) by {
                assert(before.cell(i, l.0) == blank_cell());
            }
        }
    }
    assert forall|i: int, j: int|
        0 <= i < after.width() && 0 <= j < after.height() && !on_some_line(ls2, j) implies #[trigger] after.cell(i, j)
            == blank_cell() by {
        assert(ls2[ls.len() as int] == l);
        if on_some_line(ls, j) {
            let k = choose|k: int| 0 <= k < ls.len() && (#[trigger] ls[k]).0 == j;
            assert(ls2[k] == ls[k]);
        }
        assert(before.cell(i, j) == blank_cell());
    }
}

/// The record line of a Gomoku record in the texts of `t`.
pub open spec fn record_text(t: Ui, st: StatsView) -> Seq<char> {
    filled(t.record_line_fmt@, seq![dec_chars(st.0 as nat), dec_chars(st.1 as nat)], 0)
}

/// The result lines of the summary screen (the columns count from `cx`, the
/// middle column): for a score, "game over", the score and, when the score
/// took first place, the new-best notice, or when it made the board, the
/// rank of the first entry holding that score;
/// for a Gomoku game, the result and `user`'s record.
pub open spec fn result_lines(outcome: GameOutcome, scores: ScoreFile, id: GameId, user: Seq<char>, t: Ui, cx: usize) -> Seq<
    ScreenLine,
> {
    match outcome {
        GameOutcome::Score(s) => {
            let placed = scores.placed(id.spec_score_key(), s);
            let base = seq![
                (4, wrap_column(cx.wrapping_sub(5)), t.game_over@, col::WHITE),
                centered(6, filled(t.score_line_fmt@, seq![dec_chars(s as nat)], 0), cx, col::GREEN),
            ];
            match placed {
                Some(p) => if s > 0 && p == 0 {
                    base.push(centered(7, t.new_record@, cx, col::RED))
                } else {
                    base.push(
                        centered(
                            7,
                            filled(t.rank_fmt@, seq![dec_chars((first_index(scores.board(id.spec_score_key()), s) + 1) as nat)], 0),
                            cx,
                            col::CYAN,
                        ),
                    )
                },
                None => base,
            }
        },
        GameOutcome::Gomoku { win } => seq![
            centered(4, if win { t.you_win@ } else { t.you_lose@ }, cx, if win { col::GREEN } else { col::RED }),
            centered(6, record_text(t, stats_lookup(scores.table(), user)), cx, col::WHITE),
        ],
        GameOutcome::GomokuDraw => seq![
            (4, wrap_column(cx.wrapping_sub(2)), t.draw@, col::YELLOW),
            centered(6, record_text(t, stats_lookup(scores.table(), user)), cx, col::WHITE),
        ],
        GameOutcome::Quit => seq![],
    }
}

/// The leaderboard's title and header lines on the summary screen.
pub open spec fn board_heading(outcome: GameOutcome, scores: ScoreFile, id: GameId, t: Ui, cx: usize) -> Seq<ScreenLine> {
    let tr = board_title_row(outcome, scores, id);
    seq![
        centered(tr, filled(t.leaderboard_fmt@, seq![game_name_text(id, t)], 0), cx, col::CYAN),
        centered(tr + 1, if id == GameId::Gomoku { t.lb_header_gomoku@ } else { t.lb_header_score@ }, cx, col::GRAY),
    ]
}

/// The first `n` leaderboard lines on the summary screen.
pub open spec fn board_rows(outcome: GameOutcome, scores: ScoreFile, id: GameId, cx: usize, n: int) -> Seq<ScreenLine> {
    Seq::new(
        n as nat,
        |i: int| centered(board_title_row(outcome, scores, id) + 2 + i, board_line(scores, id, i), cx, col::WHITE),
    )
}

/// Every line of the summary screen on a canvas `h` rows high whose middle
/// column is `cx`: the game's names, the result lines, the leaderboard
/// (title, header, up to six lines) and the key help on the next-to-last
/// row; a game left midway shows only the names.
pub open spec fn summary_lines(
    outcome: GameOutcome,
    scores: ScoreFile,
    id: GameId,
    user: Seq<char>,
    t: Ui,
    cx: usize,
    h: int,
) -> Seq<ScreenLine> {
    let head = centered(1, filled("{}  {}"@, seq![id.name_text(), id.name_en_text()], 0), cx, col::YELLOW);
    if outcome is Quit {
        seq![head]
    } else {
        seq![head] + result_lines(outcome, scores, id, user, t, cx) + board_heading(outcome, scores, id, t, cx)
            + board_rows(outcome, scores, id, cx, board_lines(scores, id)) + seq![centered(h - 2, t.play_again@, cx, col::GRAY)]
    }
}

/// Draws the result lines of a finished game below the lines `ls` already
/// shown (all above row 4) and returns the last row used.
#[verifier::spinoff_prover]
#[verifier::rlimit(60)]
fn draw_result(
    c: &mut Canvas,
    id: GameId,
    outcome: GameOutcome,
    scores: &ScoreFile,
    user: &str,
    t: &Ui,
    cx: usize,
    Ghost(ls): Ghost<Seq<ScreenLine>>,
) -> (row: usize)
    requires
        old(c).wf(),
        !(outcome is Quit),
        forall|k: int| 0 <= k < ls.len() ==> 0 <= (#[trigger] ls[k]).0 < 4,
        screen_shows(*old(c), ls),
    ensures
        drawn_on(*final(c), *old(c)),
        row + 1 == board_title_row(outcome, *scores, id),
        forall|k: int|
            0 <= k < result_lines(outcome, *scores, id, user@, *t, cx).len() ==> 4 <= (#[trigger] result_lines(
                outcome,
                *scores,
                id,
                user@,
                *t,
                cx,
            )[k]).0 <= row,
        screen_shows(*final(c), ls + result_lines(outcome, *scores, id, user@, *t, cx)),
{
    let black = Color::AnsiValue(col::BLACK);
    let ghost mut shown = ls;
    proof {
        c.lemma_nonempty();
    }
    let mut row: usize = 4;
    match outcome {
        GameOutcome::Score(s) => {
            let ghost b1 = *c;
            let gx = cx.wrapping_sub(5);
            c.put_str(gx, row, t.game_over, Color::AnsiValue(col::WHITE), black);
            proof {
                lemma_add_line(b1, *c, shown, (4, wrap_column(gx), t.game_over@, col::WHITE));
                shown = shown.push((4, wrap_column(gx), t.game_over@, col::WHITE));
            }
            row = row + 2;
            let args = vec![dec_string(s as u64)];
            let line = fmt(t.score_line_fmt, args.as_slice());
            proof {
                assert(crate::lang::texts(args@) =~= seq![dec_chars(s as nat)]);
            }
            let ghost b2 = *c;
            put_centered(c, cx, row, line.as_str(), col::GREEN);
            proof {
                lemma_add_line(b2, *c, shown, centered(6, line@, cx, col::GREEN));
                shown = shown.push(centered(6, line@, cx, col::GREEN));
            }
            row = row + 1;
            if scores.is_new_best(id.score_key(), s) {
                let ghost b3 = *c;
                put_centered(c, cx, row, t.new_record, col::RED);
                proof {
                    lemma_add_line(b3, *c, shown, centered(7, t.new_record@, cx, col::RED));
                    shown = shown.push(centered(7, t.new_record@, cx, col::RED));
                }
                row = row + 1;
            } else {
                match scores.rank_of(id.score_key(), s) {
                    Some(rk) => {
                        let rargs = vec![dec_string(rk as u64)];
                        let line = fmt(t.rank_fmt, rargs.as_slice());
                        proof {
                            assert(crate::lang::texts(rargs@) =~= seq![dec_chars(rk as nat)]);
                        }
                        let ghost b3 = *c;
                        put_centered(c, cx, row, line.as_str(), col::CYAN);
                        proof {
                            lemma_add_line(b3, *c, shown, centered(7, line@, cx, col::CYAN));
                            shown = shown.push(centered(7, line@, cx, col::CYAN));
                        }
                        row = row + 1;
                    },
                    None => {},
                }
            }
        },
        GameOutcome::Gomoku { win } => {
            let ghost b1 = *c;
            if win {
                put_centered(c, cx, row, t.you_win, col::GREEN);
            } else {
                put_centered(c, cx, row, t.you_lose, col::RED);
            }
            proof {
                let l = centered(4, if win { t.you_win@ } else { t.you_lose@ }, cx, if win { col::GREEN } else { col::RED });
                lemma_add_line(b1, *c, shown, l);
                shown = shown.push(l);
            }
            row = row + 2;
            let st = scores.gomoku_stats(user);
            let rargs = vec![dec_string(st.wins as u64), dec_string(st.losses as u64)];
            let line = fmt(t.record_line_fmt, rargs.as_slice());
            proof {
                assert(crate::lang::texts(rargs@) =~= seq![dec_chars(st.wins as nat), dec_chars(st.losses as nat)]);
            }
            let ghost b2 = *c;
            put_centered(c, cx, row, line.as_str(), col::WHITE);
            proof {
                lemma_add_line(b2, *c, shown, centered(6, line@, cx, col::WHITE));
                shown = shown.push(centered(6, line@, cx, col::WHITE));
            }
            row = row + 1;
        },
        GameOutcome::GomokuDraw => {
            let ghost b1 = *c;
            let dx = cx.wrapping_sub(2);
            c.put_str(dx, row, t.draw, Color::AnsiValue(col::YELLOW), black);
            proof {
                lemma_add_line(b1, *c, shown, (4, wrap_column(dx), t.draw@, col::YELLOW));
                shown = shown.push((4, wrap_column(dx), t.draw@, col::YELLOW));
            }
            row = row + 2;
            let st = scores.gomoku_stats(user);
            let rargs = vec![dec_string(st.wins as u64), dec_string(st.losses as u64)];
            let line = fmt(t.record_line_fmt, rargs.as_slice());
            proof {
                assert(crate::lang::texts(rargs@) =~= seq![dec_chars(st.wins as nat), dec_chars(st.losses as nat)]);
            }
            let ghost b2 = *c;
            put_centered(c, cx, row, line.as_str(), col::WHITE);
            proof {
                lemma_add_line(b2, *c, shown, centered(6, line@, cx, col::WHITE));
                shown = shown.push(centered(6, line@, cx, col::WHITE));
            }
            row = row + 1;
        },
        GameOutcome::Quit => {},
    }
    proof {
        assert(row + 1 == board_title_row(outcome, *scores, id)) by {
            match outcome {
                GameOutcome::Score(sc) => {
                },
                _ => {},
            }
        }
        assert(shown =~= ls + result_lines(outcome, *scores, id, user@, *t, cx));
    }
    row
}

/// Draws the leaderboard's title and header from row `row` (one below the
/// lines `ls` already shown), then up to six of its lines, and returns how
/// many lines it drew.
fn draw_board(
    c: &mut Canvas,
    id: GameId,
    outcome: GameOutcome,
    scores: &ScoreFile,
    t: &Ui,
    cx: usize,
    row: usize,
    Ghost(ls): Ghost<Seq<ScreenLine>>,
) -> (n: usize)
    requires
        old(c).wf(),
        row == board_title_row(outcome, *scores, id),
        forall|k: int| 0 <= k < ls.len() ==> 0 <= (#[trigger] ls[k]).0 < row,
        screen_shows(*old(c), ls),
    ensures
        drawn_on(*final(c), *old(c)),
        n == board_lines(*scores, id),
        screen_shows(
            *final(c),
            ls + board_heading(outcome, *scores, id, *t, cx) + board_rows(outcome, *scores, id, cx, n as int),
        ),
{
    let ghost tr = board_title_row(outcome, *scores, id);
    let ghost mut shown = ls;
    let w = c.w();
    let h = c.h();
    let mut row = row;
    proof {
        c.lemma_nonempty();
        assert(8 <= tr <= 9);
    }
    let title_args = vec![String::from_str(crate::menu::game_name(id, t))];
    let title = fmt(t.leaderboard_fmt, title_args.as_slice());
    proof {
        assert(crate::lang::texts(title_args@) =~= seq![game_name_text(id, *t)]);
    }
    let ghost b4 = *c;
    put_centered(c, cx, row, title.as_str(), col::CYAN);
    proof {
        lemma_add_line(b4, *c, shown, centered(tr, title@, cx, col::CYAN));
        shown = shown.push(centered(tr, title@, cx, col::CYAN));
    }
    row = row + 1;
    let ghost pre = ls + board_heading(outcome, *scores, id, *t, cx);
    let n_lines: usize;
    if id == GameId::Gomoku {
        let all = gomoku_ranking(&scores.gomoku);
        proof {
            ranking_sorted_permutation(scores.table());
        }
        let ghost b5 = *c;
        put_centered(c, cx, row, t.lb_header_gomoku, col::GRAY);
        proof {
            lemma_add_line(b5, *c, shown, centered(tr + 1, t.lb_header_gomoku@, cx, col::GRAY));
            shown = shown.push(centered(tr + 1, t.lb_header_gomoku@, cx, col::GRAY));
            assert(shown =~= pre + board_rows(outcome, *scores, id, cx, 0));
        }
        row = row + 1;
        let mut i: usize = 0;
        while i < all.len() && i < 6
            invariant
                id == GameId::Gomoku,
                stats_table_view(all@) == ranking(scores.table()),
                ranking(scores.table()).len() == scores.table().len(),
                row == tr + 2 + i,
                8 <= tr <= 9,
                tr == board_title_row(outcome, *scores, id),
                i <= 6,
                i <= all@.len(),
                w == c.width(),
                h == c.height(),
                c.wf(),
                drawn_on(*c, *old(c)),
                shown == pre + board_rows(outcome, *scores, id, cx, i as int),
                forall|k: int| 0 <= k < shown.len() ==> 0 <= (#[trigger] shown[k]).0 < row,
                screen_shows(*c, shown),
            decreases all@.len() - i,
        {
            let line = gomoku_row(i + 1, all[i].0.as_str(), &all[i].1);
            proof {
                assert(stats_table_view(all@)[i as int] == (all@[i as int].0@, all@[i as int].1@));
                assert(line@ == board_line(*scores, id, i as int));
            }
            let ghost before = *c;
            put_centered(c, cx, row, line.as_str(), col::WHITE);
            proof {
                let l = centered(tr + 2 + i, line@, cx, col::WHITE);
                lemma_add_line(before, *c, shown, l);
                shown = shown.push(l);
                assert(shown =~= pre + board_rows(outcome, *scores, id, cx, i + 1));
            }
            row = row + 1;
            i = i + 1;
        }
        n_lines = i;
        proof {
            if i < 6 {
                assert(i == all@.len());
            }
        }
    } else {
        let entries = scores.get_vec(id.score_key());
        let ghost b5 = *c;
        put_centered(c, cx, row, t.lb_header_score, col::GRAY);
        proof {
            lemma_add_line(b5, *c, shown, centered(tr + 1, t.lb_header_score@, cx, col::GRAY));
            shown = shown.push(centered(tr + 1, t.lb_header_score@, cx, col::GRAY));
            assert(shown =~= pre + board_rows(outcome, *scores, id, cx, 0));
        }
        row = row + 1;
        let mut i: usize = 0;
        while i < entries.len() && i < 6
            invariant
                id != GameId::Gomoku,
                crate::score::entries_view(entries@) == scores.board(id.spec_score_key()),
                row == tr + 2 + i,
                8 <= tr <= 9,
                tr == board_title_row(outcome, *scores, id),
                i <= 6,
                i <= entries@.len(),
                w == c.width(),
                h == c.height(),
                c.wf(),
                drawn_on(*c, *old(c)),
                shown == pre + board_rows(outcome, *scores, id, cx, i as int),
                forall|k: int| 0 <= k < shown.len() ==> 0 <= (#[trigger] shown[k]).0 < row,
                screen_shows(*c, shown),
            decreases entries@.len() - i,
        {
            let line = score_row(i + 1, &entries[i]);
            proof {
                assert(crate::score::entries_view(entries@)[i as int] == entries@[i as int]@);
                assert(line@ == board_line(*scores, id, i as int));
            }
            let ghost before = *c;
            put_centered(c, cx, row, line.as_str(), col::WHITE);
            proof {
                let l = centered(tr + 2 + i, line@, cx, col::WHITE);
                lemma_add_line(before, *c, shown, l);
                shown = shown.push(l);
                assert(shown =~= pre + board_rows(outcome, *scores, id, cx, i + 1));
            }
            row = row + 1;
            i = i + 1;
        }
        n_lines = i;
        proof {
            if i < 6 {
                assert(i == entries@.len());
            }
        }
    }
    n_lines
}

/// Draws the summary screen after a game of `id` ended with `outcome`, in
/// the texts of `t` (the game's names stand in both languages): the
/// game's names, the result (score with a new-best or rank notice, or
/// the Gomoku result with `user`'s record), the top six of the game's
/// leaderboard (for Gomoku the ranking by wins), and the key help. A game
/// left midway draws only the names. On a canvas at least 24 rows high the
/// screen shows exactly the lines of `summary_lines`. On any canvas every
/// line of `summary_lines` that lies on the canvas shows (over blank), but
/// for the second row from the bottom, where the key help is drawn last:
/// there the cells its text covers show it.
pub fn draw_summary(c: &mut Canvas, id: GameId, outcome: GameOutcome, scores: &ScoreFile, user: &str, t: &Ui)
    requires
        old(c).wf(),
    ensures
        drawn_on(*final(c), *old(c)),
        24 <= old(c).height() ==> screen_shows(
            *final(c),
            summary_lines(outcome, *scores, id, user@, *t, (old(c).width() / 2) as usize, old(c).height() as int),
        ),
        ({
            let h = old(c).height() as int;
            let w = old(c).width() as int;
            let cx = (old(c).width() / 2) as usize;
            let ls = summary_lines(outcome, *scores, id, user@, *t, cx, h);
            let foot = centered(h - 2, t.play_again@, cx, col::GRAY);
            &&& forall|k: int| 0 <= k < ls.len() && (#[trigger] ls[k]).0 < h && ls[k].0 != h - 2 ==> line_shows(*final(c), ls[k])
            &&& !(outcome is Quit) && 2 <= h && 0 <= foot.1 ==> forall|i: int|
                foot.1 <= i < foot.1 + spec_str_width(foot.2) && i < w ==> #[trigger] final(c).cell(i, h - 2) == put_str_cell(
                    foot.2,
                    foot.1,
                    i,
                    w,
                    Color::AnsiValue(col::GRAY),
                    Color::AnsiValue(col::BLACK),
                    spec_empty_cell(),
                )
        }),
{
    let black = Color::AnsiValue(col::BLACK);
    c.clear();
    let w = c.w();
    let h = c.h();
    c.fill_rect(0, 0, w, h, ' ', black, black);
    let cx = w / 2;
    let ghost tall = 24 <= h;
    proof {
        c.lemma_nonempty();
        reveal(screen_shows);
        assert(screen_shows(*c, Seq::<ScreenLine>::empty()));
    }
    let head_args = vec![String::from_str(id.name()), String::from_str(id.name_en())];
    let head = fmt("{}  {}", head_args.as_slice());
    let ghost b0 = *c;
    put_centered(c, cx, 1, head.as_str(), col::YELLOW);
    let ghost head_line = centered(1, head@, cx, col::YELLOW);
    proof {
        assert(crate::lang::texts(head_args@) =~= seq![id.name_text(), id.name_en_text()]);
        lemma_add_line(b0, *c, Seq::<ScreenLine>::empty(), head_line);
        assert(Seq::<ScreenLine>::empty().push(head_line) =~= seq![head_line]);
    }
    if matches!(outcome, GameOutcome::Quit) {
        proof {
            assert(seq![head_line] =~= summary_lines(outcome, *scores, id, user@, *t, cx, h as int));
            reveal(screen_shows);
        }
        return;
    }
    let ghost start = seq![head_line];
    let row = draw_result(c, id, outcome, scores, user, t, cx, Ghost(start));
    let ghost with_result = start + result_lines(outcome, *scores, id, user@, *t, cx);
    proof {
        assert forall|k: int| 0 <= k < with_result.len() implies 0 <= (#[trigger] with_result[k]).0 < row + 1 by {
            if k >= 1 {
                assert(with_result[k] == result_lines(outcome, *scores, id, user@, *t, cx)[k - 1]);
            }
        }
    }
    let n = draw_board(c, id, outcome, scores, t, cx, row + 1, Ghost(with_result));
    let ghost before_foot = *c;
    let ghost shown = with_result + board_heading(outcome, *scores, id, *t, cx) + board_rows(outcome, *scores, id, cx, n as int);
    let fy = h.saturating_sub(2);
    put_centered(c, cx, fy, t.play_again, col::GRAY);
    proof {
        let ls = summary_lines(outcome, *scores, id, user@, *t, cx, h as int);
        let foot = centered(h - 2, t.play_again@, cx, col::GRAY);
        assert(ls =~= shown.push(foot));
        reveal(screen_shows);
        assert forall|k: int| 0 <= k < ls.len() && (#[trigger] ls[k]).0 < h && ls[k].0 != h - 2 implies line_shows(*c, ls[k]) by {
            assert(k < shown.len());
            assert(ls[k] == shown[k]);
            assert(line_shows(before_foot, shown[k]));
            assert forall|i: int| 0 <= i < c.width() implies #[trigger] c.cell(i, ls[k].0) == before_foot.cell(i, ls[k].0) by {
                if h >= 2 {
                    assert(fy == h - 2);
                }
            }
        }
        if 2 <= h && 0 <= foot.1 {
            assert(fy == h - 2);
            assert forall|i: int| foot.1 <= i < foot.1 + spec_str_width(foot.2) && i < w implies #[trigger] c.cell(i, h - 2)
                == put_str_cell(foot.2, foot.1, i, w as int, Color::AnsiValue(col::GRAY), Color::AnsiValue(col::BLACK), spec_empty_cell()) by {
                lemma_put_str_cell_covered(
                    foot.2,
                    foot.1,
                    i,
                    w as int,
                    Color::AnsiValue(col::GRAY),
                    Color::AnsiValue(col::BLACK),
                    before_foot.cell(i, h - 2),
                    spec_empty_cell(),
                );
            }
        }
        if tall {
            let tr = board_title_row(outcome, *scores, id);
            assert forall|k: int| 0 <= k < shown.len() implies 0 <= (#[trigger] shown[k]).0 < h - 2 by {
                if k < with_result.len() {
                    assert(shown[k] == with_result[k]);
                } else if k < with_result.len() + 2 {
                    assert(shown[k] == board_heading(outcome, *scores, id, *t, cx)[k - with_result.len()]);
                } else {
                    assert(shown[k] == board_rows(outcome, *scores, id, cx, n as int)[k - with_result.len() - 2]);
                }
            }
            lemma_add_line(before_foot, *c, shown, centered(h - 2, t.play_again@, cx, col::GRAY));
            assert(shown.push(centered(h - 2, t.play_again@, cx, col::GRAY)) =~= summary_lines(
                outcome,
                *scores,
                id,
                user@,
                *t,
                cx,
                h as int,
            ));
        }
    }
}

/// Inside a box, the cells of row `row` from column `lo` up to (not
/// including) `hi` show `s` drawn from column `pos` in `fg` on `bg` over
/// `under` cells.
pub open spec fn span_shows(c: Canvas, row: int, lo: int, hi: int, s: Seq<char>, pos: int, fg: u8, bg: u8, under: Cell) -> bool {
    forall|i: int|
        lo <= i < hi && i < c.width() ==> #[trigger] c.cell(i, row) == put_str_cell(
            s,
            pos,
            i,
            c.width() as int,
            Color::AnsiValue(fg),
            Color::AnsiValue(bg),
            under,
        )
}

/// The column where `s` starts when centered in a box `bw` wide at column `x`.
pub open spec fn center_in_box(x: int, bw: int, s: Seq<char>) -> int {
    x + (bw - spec_str_width(s)) / 2
}

/// The inside of a pause or name box: blank on dark blue.
pub open spec fn box_cell() -> Cell {
    Cell { ch: ' ', fg: Color::AnsiValue(col::BLACK), bg: Color::AnsiValue(col::DARK_BLUE) }
}

/// Draws the pause box over the current picture in the texts of `t`:
/// title, how to resume or leave, and the Ctrl+C tip. On a canvas at least
/// 8 rows high, inside the box's frame the two key lines, and the title and
/// the tip when they fit the box, fill their rows over the box's dark blue.
pub fn draw_pause(c: &mut Canvas, t: &Ui)
    requires
        old(c).wf(),
    ensures
        drawn_on(*final(c), *old(c)),
        ({
            let x = box_left(old(c).width() as int, 44);
            let y = box_left(old(c).height() as int, 8);
            let hi = spec_min(x + 43, old(c).width() - 1);
            8 <= old(c).height() ==> {
                &&& spec_str_width(t.paused@) <= 44 ==> span_shows(
                    *final(c),
                    y + 1,
                    x + 1,
                    hi,
                    t.paused@,
                    center_in_box(x, 44, t.paused@),
                    col::YELLOW,
                    col::DARK_BLUE,
                    box_cell(),
                )
                &&& span_shows(*final(c), y + 3, x + 1, hi, t.resume@, x + 2, col::WHITE, col::DARK_BLUE, box_cell())
                &&& span_shows(*final(c), y + 4, x + 1, hi, t.quit_to_menu@, x + 2, col::WHITE, col::DARK_BLUE, box_cell())
                &&& spec_str_width(t.tip_ctrlc@) <= 44 ==> span_shows(
                    *final(c),
                    y + 6,
                    x + 1,
                    hi,
                    t.tip_ctrlc@,
                    center_in_box(x, 44, t.tip_ctrlc@),
                    col::GRAY,
                    col::DARK_BLUE,
                    box_cell(),
                )
            }
        }),
{
    let bw: usize = 44;
    let bh: usize = 8;
    let x = c.w().saturating_sub(bw) / 2;
    let y = c.h().saturating_sub(bh) / 2;
    let bg = Color::AnsiValue(col::DARK_BLUE);
    c.fill_rect(x, y, bw, bh, ' ', Color::AnsiValue(col::BLACK), bg);
    c.border(x, y, bw, bh, Color::AnsiValue(col::CYAN));
    let ghost framed = *c;
    let title = t.paused;
    let ghost t1 = *c;
    let tw = str_width(title);
    let tcol = x.wrapping_add(bw.wrapping_sub(tw) / 2);
    c.put_str(tcol, y + 1, title, Color::AnsiValue(col::YELLOW), bg);
    let ghost t2 = *c;
    c.put_str(x + 2, y + 3, t.resume, Color::AnsiValue(col::WHITE), bg);
    let ghost t3 = *c;
    c.put_str(x + 2, y + 4, t.quit_to_menu, Color::AnsiValue(col::WHITE), bg);
    let ghost t4 = *c;
    let tip = t.tip_ctrlc;
    let pw = str_width(tip);
    let pcol = x.wrapping_add(bw.wrapping_sub(pw) / 2);
    c.put_str(pcol, y + 6, tip, Color::AnsiValue(col::GRAY), bg);
    proof {
        let w = c.width() as int;
        let h = c.height() as int;
        if 8 <= h {
            vstd::arithmetic::div_mod::lemma_small_mod(0, usize::MAX as nat + 1);
            assert(x == box_left(w, 44));
            assert(y == box_left(h, 8));
            let hi = spec_min(x + 43, w - 1);
            assert forall|i: int, j: int| x + 1 <= i < hi && y + 1 <= j <= y + 6 implies #[trigger] framed.cell(i, j) == box_cell() by {}
            assert(wrap_column((x + 2) as usize) == x + 2);
            if spec_str_width(title@) <= 44 {
                vstd::arithmetic::div_mod::lemma_small_mod(spec_str_width(title@), usize::MAX as nat + 1);
                assert(tw == spec_str_width(title@));
                assert(wrap_column(tcol) == center_in_box(x as int, 44, title@));
                assert(span_shows(*c, y + 1, x + 1, hi, title@, center_in_box(x as int, 44, title@), col::YELLOW, col::DARK_BLUE, box_cell())) by {
                    assert forall|i: int| x + 1 <= i < hi && i < w implies #[trigger] c.cell(i, y + 1) == put_str_cell(
                        title@, center_in_box(x as int, 44, title@), i, w, Color::AnsiValue(col::YELLOW), Color::AnsiValue(col::DARK_BLUE), box_cell()) by {
                        assert(t1.cell(i, y + 1) == box_cell());
                        assert(c.cell(i, y + 1) == t2.cell(i, y + 1));
                        assert(t3.cell(i, y + 1) == t2.cell(i, y + 1));
                        assert(t4.cell(i, y + 1) == t3.cell(i, y + 1));
                    }
                }
            }
            assert(span_shows(*c, y + 3, x + 1, hi, t.resume@, x + 2, col::WHITE, col::DARK_BLUE, box_cell())) by {
                assert forall|i: int| x + 1 <= i < hi && i < w implies #[trigger] c.cell(i, y + 3) == put_str_cell(
                    t.resume@, x + 2, i, w, Color::AnsiValue(col::WHITE), Color::AnsiValue(col::DARK_BLUE), box_cell()) by {
                    assert(t2.cell(i, y + 3) == box_cell());
                    assert(t4.cell(i, y + 3) == t3.cell(i, y + 3));
                }
            }
            assert(span_shows(*c, y + 4, x + 1, hi, t.quit_to_menu@, x + 2, col::WHITE, col::DARK_BLUE, box_cell())) by {
                assert forall|i: int| x + 1 <= i < hi && i < w implies #[trigger] c.cell(i, y + 4) == put_str_cell(
                    t.quit_to_menu@, x + 2, i, w, Color::AnsiValue(col::WHITE), Color::AnsiValue(col::DARK_BLUE), box_cell()) by {
                    assert(t3.cell(i, y + 4) == box_cell());
                }
            }
            if spec_str_width(tip@) <= 44 {
                vstd::arithmetic::div_mod::lemma_small_mod(spec_str_width(tip@), usize::MAX as nat + 1);
                assert(pw == spec_str_width(tip@));
                assert(wrap_column(pcol) == center_in_box(x as int, 44, tip@));
                assert(span_shows(*c, y + 6, x + 1, hi, tip@, center_in_box(x as int, 44, tip@), col::GRAY, col::DARK_BLUE, box_cell())) by {
                    assert forall|i: int| x + 1 <= i < hi && i < w implies #[trigger] c.cell(i, y + 6) == put_str_cell(
                        tip@, center_in_box(x as int, 44, tip@), i, w, Color::AnsiValue(col::GRAY), Color::AnsiValue(col::DARK_BLUE), box_cell()) by {
                        assert(t4.cell(i, y + 6) == box_cell());
                    }
                }
            }
        }
    }
}

/// The cell where the user-name screen's cursor stands: blank on gray.
pub open spec fn cursor_cell() -> Cell {
    Cell { ch: ' ', fg: Color::AnsiValue(col::BLACK), bg: Color::AnsiValue(col::GRAY) }
}

/// Draws the user-name screen in the texts of `t`: the box with its title,
/// the name being typed with the cursor after it, the key help, and `msg`
/// when not empty.
/// The input field (columns 11 to 51 of the box, on its fourth row) shows
/// `buf` in green on black from its second column, with the cursor right
/// after it. On a canvas that holds the box, the title shows centred in
/// yellow on its second row, the key help in gray from its third column on
/// its sixth row, and a non-empty `msg` in red below the help (all on the
/// box's dark blue).
pub fn draw_username(c: &mut Canvas, buf: &str, msg: &str, t: &Ui)
    requires
        old(c).wf(),
    ensures
        drawn_on(*final(c), *old(c)),
        ({
            let w = old(c).width() as int;
            let x = box_left(w, 56);
            let y = box_left(old(c).height() as int, 8);
            let cur = x + 11 + (spec_str_width(buf@) as int % (usize::MAX as int + 1));
            y + 3 < old(c).height() ==> forall|i: int|
                x + 11 <= i < x + 52 && i < w ==> #[trigger] final(c).cell(i, y + 3) == if i == cur {
                    cursor_cell()
                } else {
                    put_str_cell(buf@, x + 11, i, w, Color::AnsiValue(col::GREEN), Color::AnsiValue(col::BLACK), blank_cell())
                }
        }),
        ({
            let w = old(c).width() as int;
            let x = box_left(w, 56);
            let y = box_left(old(c).height() as int, 8);
            let bg = Color::AnsiValue(col::DARK_BLUE);
            let tw = spec_str_width(t.set_username@) as int;
            56 <= w && 8 <= old(c).height() && w <= usize::MAX / 2 ==> {
                &&& tw <= 56 ==> text_from(*final(c), y + 1, t.set_username@, x + (56 - tw) / 2, col::YELLOW, bg)
                &&& text_from(*final(c), y + 5, t.username_hint@, x + 2, col::GRAY, bg)
                &&& msg@.len() > 0 ==> text_from(*final(c), y + 6, msg@, x + 2, col::RED, bg)
            }
        }),
{
    let black = Color::AnsiValue(col::BLACK);
    let bg = Color::AnsiValue(col::DARK_BLUE);
    c.clear();
    let cw = c.w();
    let ch = c.h();
    c.fill_rect(0, 0, cw, ch, ' ', black, black);
    let bw: usize = 56;
    let bh: usize = 8;
    let x = cw.saturating_sub(bw) / 2;
    let y = ch.saturating_sub(bh) / 2;
    c.fill_rect(x, y, bw, bh, ' ', black, bg);
    c.border(x, y, bw, bh, Color::AnsiValue(col::CYAN));
    let title = t.set_username;
    let ghost boxed = *c;
    let tw = str_width(title);
    let tx = x.wrapping_add(bw.wrapping_sub(tw) / 2);
    c.put_str(tx, y + 1, title, Color::AnsiValue(col::YELLOW), bg);
    let ghost titled = *c;
    c.put_str(x + 2, y + 3, t.username, Color::AnsiValue(col::WHITE), bg);
    c.fill_rect(x + 10, y + 3, bw - 14, 1, ' ', black, black);
    let ghost field = *c;
    c.put_str(x + 11, y + 3, buf, Color::AnsiValue(col::GREEN), black);
    let ghost typed = *c;
    let cur_x = (x + 11).wrapping_add(str_width(buf));
    if cur_x < cw {
        c.put(cur_x, y + 3, ' ', black, Color::AnsiValue(col::GRAY));
    }
    let ghost with_cursor = *c;
    c.put_str(x + 2, y + 5, t.username_hint, Color::AnsiValue(col::GRAY), bg);
    let ghost hinted = *c;
    if msg.unicode_len() > 0 {
        c.put_str(x + 2, y + 6, msg, Color::AnsiValue(col::RED), bg);
    }
    proof {
        let w = cw as int;
        if 56 <= w && 8 <= ch && w <= usize::MAX / 2 {
            lemma_wrap_column_small((x + 2) as usize);
            let twi = spec_str_width(t.set_username@) as int;
            if twi <= 56 {
                vstd::arithmetic::div_mod::lemma_small_mod(spec_str_width(t.set_username@), (usize::MAX as int + 1) as nat);
                assert(tw == twi);
                let txi = x + (56 - twi) / 2;
                assert(tx == txi);
                lemma_wrap_column_small(tx);
                assert forall|i: int| txi <= i < txi + twi && i < c.width() implies #[trigger] c.cell(i, y + 1) == put_str_cell(
                    t.set_username@,
                    txi,
                    i,
                    c.width() as int,
                    Color::AnsiValue(col::YELLOW),
                    bg,
                    spec_empty_cell(),
                ) by {
                    lemma_put_str_cell_covered(t.set_username@, txi, i, w, Color::AnsiValue(col::YELLOW), bg, boxed.cell(i, y + 1), spec_empty_cell());
                    assert(field.cell(i, y + 1) == titled.cell(i, y + 1));
                }
            }
            let hw = spec_str_width(t.username_hint@) as int;
            assert forall|i: int| x + 2 <= i < x + 2 + hw && i < c.width() implies #[trigger] c.cell(i, y + 5) == put_str_cell(
                t.username_hint@,
                x + 2,
                i,
                c.width() as int,
                Color::AnsiValue(col::GRAY),
                bg,
                spec_empty_cell(),
            ) by {
                lemma_put_str_cell_covered(t.username_hint@, x + 2, i, w, Color::AnsiValue(col::GRAY), bg, with_cursor.cell(i, y + 5), spec_empty_cell());
            }
            if msg@.len() > 0 {
                let mw = spec_str_width(msg@) as int;
                assert forall|i: int| x + 2 <= i < x + 2 + mw && i < c.width() implies #[trigger] c.cell(i, y + 6) == put_str_cell(
                    msg@,
                    x + 2,
                    i,
                    c.width() as int,
                    Color::AnsiValue(col::RED),
                    bg,
                    spec_empty_cell(),
                ) by {
                    lemma_put_str_cell_covered(msg@, x + 2, i, w, Color::AnsiValue(col::RED), bg, hinted.cell(i, y + 6), spec_empty_cell());
                }
            }
        }
    }
    proof {
        let w = cw as int;
        if y + 3 < ch {
            assert(x == box_left(w, 56));
            assert(y == box_left(ch as int, 8));
            assert(wrap_column((x + 11) as usize) == x + 11);
            assert forall|i: int| x + 11 <= i < x + 52 && i < w implies #[trigger] c.cell(i, y + 3) == if i
                == x + 11 + (spec_str_width(buf@) as int % (usize::MAX as int + 1)) {
                cursor_cell()
            } else {
                put_str_cell(buf@, x + 11, i, w, Color::AnsiValue(col::GREEN), Color::AnsiValue(col::BLACK), blank_cell())
            } by {
                assert(field.cell(i, y + 3) == blank_cell());
                assert(typed.cell(i, y + 3) == put_str_cell(
                    buf@,
                    x + 11,
                    i,
                    w,
                    Color::AnsiValue(col::GREEN),
                    Color::AnsiValue(col::BLACK),
                    blank_cell(),
                ));
                assert(c.cell(i, y + 3) == with_cursor.cell(i, y + 3));
            }
        }
    }
}


proof fn lemma_rank_pos(r: Seq<(Seq<char>, StatsView)>, e: (Seq<char>, StatsView), k: int)
    requires
        0 <= k <= r.len(),
        forall|i: int| 0 <= i < k ==> outranks(#[trigger] r[i], e),
    ensures
        k <= rank_pos(r, e, k) <= r.len(),
        forall|i: int| 0 <= i < rank_pos(r, e, k) ==> outranks(#[trigger] r[i], e),
        rank_pos(r, e, k) < r.len() ==> !outranks(r[rank_pos(r, e, k)], e),
    decreases r.len() - k,
{
    if k < r.len() && outranks(r[k], e) {
        lemma_rank_pos(r, e, k + 1);
    }
}

/// The Gomoku ranking holds the same records as the table, and no record
/// ranks above one placed before it: wins never increase down the list, and
/// among equal wins losses never decrease.
pub proof fn ranking_sorted_permutation(s: Seq<(Seq<char>, StatsView)>)
    ensures
        ranking(s).len() == s.len(),
        ranking(s).to_multiset() == s.to_multiset(),
        forall|i: int, j: int| 0 <= i < j < s.len() ==> !outranks(#[trigger] ranking(s)[j], #[trigger] ranking(s)[i]),
    decreases s.len(),
{
    if s.len() > 0 {
        let t = s.drop_first();
        let e = s[0];
        ranking_sorted_permutation(t);
        let r = ranking(t);
        lemma_rank_pos(r, e, 0);
        let k = rank_pos(r, e, 0);
        let out = r.insert(k, e);
        assert(out == ranking(s));
        vstd::seq_lib::to_multiset_insert(r, k, e);
        vstd::seq_lib::to_multiset_insert(t, 0, e);
        assert(t.insert(0, e) =~= s);
        r.insert_ensures(k, e);
        assert forall|i: int, j: int| 0 <= i < j < out.len() implies !outranks(#[trigger] out[j], #[trigger] out[i]) by {
            if j < k {
                assert(out[i] == r[i] && out[j] == r[j]);
            } else if j == k {
                assert(out[i] == r[i]);
            } else if i == k {
                assert(out[j] == r[j - 1]);
                assert(!outranks(r[j - 1], r[k]) || j - 1 == k);
            } else if i < k {
                assert(out[i] == r[i] && out[j] == r[j - 1]);
                assert(i < j - 1);
            } else {
                assert(out[i] == r[i - 1] && out[j] == r[j - 1]);
            }
        }
    }
}

} // verus!
