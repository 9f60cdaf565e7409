//! Score keeping: per-game top-10 leaderboards and per-user Gomoku win/loss
//! records, plus the timestamp text stored with each record.

use vstd::prelude::*;
use vstd::string::*;
use crate::games::GameId;
use crate::text::{
    blank, is_blank, push_char, push_zero_padded, seq_lt, seq_lt_strict_total, str_eq, str_lt, zero_pad,
};

verus! {

/// How many entries each leaderboard keeps.
pub const TOP_N: usize = 10;

/// One leaderboard entry.
#[derive(Clone, Debug, PartialEq)]
pub struct Entry {
    pub user: String,
    pub score: u32,
    pub date: String,
}

/// An entry as plain values: (user, score, date).
pub type EntryView = (Seq<char>, u32, Seq<char>);

impl View for Entry {
    type V = EntryView;

    open spec fn view(&self) -> EntryView {
        (self.user@, self.score, self.date@)
    }
}

/// Gomoku record of one user.
#[derive(Clone, Debug, PartialEq)]
pub struct GomokuStats {
    pub wins: u32,
    pub losses: u32,
    pub last: String,
}

/// A Gomoku record as plain values: (wins, losses, date of the last game).
pub type StatsView = (u32, u32, Seq<char>);

impl View for GomokuStats {
    type V = StatsView;

    open spec fn view(&self) -> StatsView {
        (self.wins, self.losses, self.last@)
    }
}

/// The record of a user who has not played yet.
pub open spec fn no_stats() -> StatsView {
    (0u32, 0u32, Seq::<char>::empty())
}

impl Default for GomokuStats {
    fn default() -> (r: GomokuStats)
        ensures
            r@ == no_stats(),
    {
        GomokuStats { wins: 0, losses: 0, last: String::new() }
    }
}

/// The views of a sequence of entries.
pub open spec fn entries_view(s: Seq<Entry>) -> Seq<EntryView> {
    s.map_values(|e: Entry| e@)
}

/// A Gomoku table as (user, record) pairs of plain values.
pub open spec fn stats_table_view(s: Seq<(String, GomokuStats)>) -> Seq<(Seq<char>, StatsView)> {
    s.map_values(|p: (String, GomokuStats)| (p.0@, p.1@))
}

/// The saved scores: current user name, the four leaderboards and the Gomoku
/// records. The Gomoku table is kept ordered by user name, each user once.
pub struct ScoreFile {
    pub user: String,
    pub snake: Vec<Entry>,
    pub breakout: Vec<Entry>,
    pub tetris: Vec<Entry>,
    pub plane: Vec<Entry>,
    pub gomoku: Vec<(String, GomokuStats)>,
    /// Where the latest recorded score landed: its board (see `board_index`)
    /// and 0-based position; `None` when it did not make the top ten or was
    /// not recorded. Not saved with the scores.
    pub last_place: Option<(usize, usize)>,
}

impl Default for ScoreFile {
    fn default() -> (r: ScoreFile)
        ensures
            r.user@ == Seq::<char>::empty(),
            r.snake@.len() == 0,
            r.breakout@.len() == 0,
            r.tetris@.len() == 0,
            r.plane@.len() == 0,
            r.gomoku@.len() == 0,
            r.last_place is None,
    {
        ScoreFile {
            user: String::new(),
            snake: Vec::new(),
            breakout: Vec::new(),
            tetris: Vec::new(),
            plane: Vec::new(),
            gomoku: Vec::new(),
            last_place: None,
        }
    }
}

/// Which leaderboard a key names: 1 breakout, 2 tetris, 3 plane, and 0
/// (snake) for "snake" and any unknown key.
pub open spec fn board_index(key: Seq<char>) -> int {
    if key == "breakout"@ {
        1
    } else if key == "tetris"@ {
        2
    } else if key == "plane"@ {
        3
    } else {
        0
    }
}

/// Whether `a` ranks above `b`: a higher score, or (when dates count) the same
/// score with an earlier date.
pub open spec fn ranks_before(a: EntryView, b: EntryView, by_date: bool) -> bool {
    a.1 > b.1 || (by_date && a.1 == b.1 && seq_lt(a.2, b.2))
}

/// Where an entry goes when placed ahead of entries it ties with: before the
/// first entry (from `k` on) that does not rank above it.
pub open spec fn insert_pos(r: Seq<EntryView>, e: EntryView, by_date: bool, k: int) -> int
    decreases r.len() - k,
{
    if k < 0 || k >= r.len() || !ranks_before(r[k], e, by_date) {
        k
    } else {
        insert_pos(r, e, by_date, k + 1)
    }
}

/// The stable sort of `s` by rank: better entries first, ties in the order they came.
pub open spec fn stable_sort(s: Seq<EntryView>, by_date: bool) -> Seq<EntryView>
    decreases s.len(),
{
    if s.len() == 0 {
        s
    } else {
        let r = stable_sort(s.drop_first(), by_date);
        r.insert(insert_pos(r, s[0], by_date, 0), s[0])
    }
}

/// The first `TOP_N` entries.
pub open spec fn top_n(s: Seq<EntryView>) -> Seq<EntryView> {
    if s.len() <= 10 {
        s
    } else {
        s.take(10)
    }
}

/// The board after recording `(user, score, date)`: sorted by score (ties by
/// date) and cut to the top entries.
pub open spec fn board_after_add(b: Seq<EntryView>, user: Seq<char>, score: u32, date: Seq<char>) -> Seq<EntryView> {
    top_n(stable_sort(b.push((user, score, date)), true))
}

/// The last position of `x` in `s`, or -1 when it is not there.
pub open spec fn last_pos(s: Seq<EntryView>, x: EntryView) -> int
    decreases s.len(),
{
    if s.len() == 0 {
        -1
    } else if s.last() == x {
        s.len() - 1
    } else {
        last_pos(s.drop_last(), x)
    }
}

proof fn lemma_last_pos_bounds(s: Seq<EntryView>, x: EntryView)
    ensures
        -1 <= last_pos(s, x) < s.len(),
    decreases s.len(),
{
    if s.len() > 0 && s.last() != x {
        lemma_last_pos_bounds(s.drop_last(), x);
    }
}

/// Where a score recorded on board `i` (whose entries were `b`) as entry `x`
/// lands: its position among the sorted entries when that is in the top
/// ten, else `None`. Equal entries sort in the order they came, so the new
/// one is the last of them.
pub open spec fn landing(i: int, b: Seq<EntryView>, x: EntryView) -> Option<(usize, usize)> {
    let p = last_pos(stable_sort(b.push(x), true), x);
    if 0 <= p < 10 {
        Some((i as usize, p as usize))
    } else {
        None
    }
}

/// The entries whose user name is not blank, in order.
pub open spec fn named_only(s: Seq<EntryView>) -> Seq<EntryView>
    decreases s.len(),
{
    if s.len() == 0 {
        s
    } else {
        let r = named_only(s.drop_last());
        if is_blank(s.last().0) {
            r
        } else {
            r.push(s.last())
        }
    }
}

/// A board as loading leaves it: unnamed entries dropped, sorted by score,
/// cut to the top entries.
pub open spec fn board_normalized(b: Seq<EntryView>) -> Seq<EntryView> {
    top_n(stable_sort(named_only(b), false))
}

/// The record of `user` in a Gomoku table: the first pair with that name, or
/// the empty record.
pub open spec fn stats_lookup(g: Seq<(Seq<char>, StatsView)>, user: Seq<char>) -> StatsView
    decreases g.len(),
{
    if g.len() == 0 {
        no_stats()
    } else if g[0].0 == user {
        g[0].1
    } else {
        stats_lookup(g.drop_first(), user)
    }
}

/// Index of the first pair named `user`, if any.
pub open spec fn stats_index(g: Seq<(Seq<char>, StatsView)>, user: Seq<char>) -> Option<int>
    decreases g.len(),
{
    if g.len() == 0 {
        None
    } else if g[0].0 == user {
        Some(0)
    } else {
        match stats_index(g.drop_first(), user) {
            Some(i) => Some(i + 1),
            None => None,
        }
    }
}

/// Position of the first name ordered after `user` (where a new name goes).
pub open spec fn name_pos(g: Seq<(Seq<char>, StatsView)>, user: Seq<char>) -> int
    decreases g.len(),
{
    if g.len() == 0 || seq_lt(user, g[0].0) {
        0
    } else {
        1 + name_pos(g.drop_first(), user)
    }
}

/// A record after one more game: a win or a loss, and the game's date.
pub open spec fn stats_after(s: StatsView, win: bool, date: Seq<char>) -> StatsView {
    if win {
        ((s.0 + 1) as u32, s.1, date)
    } else {
        (s.0, (s.1 + 1) as u32, date)
    }
}

/// The Gomoku table after recording a game of `user`: the user's record
/// updated in place, or a new record inserted in name order.
pub open spec fn table_after_game(g: Seq<(Seq<char>, StatsView)>, user: Seq<char>, win: bool, date: Seq<char>) -> Seq<(Seq<char>, StatsView)> {
    match stats_index(g, user) {
        Some(i) => g.update(i, (user, stats_after(g[i].1, win, date))),
        None => g.insert(name_pos(g, user), (user, stats_after(no_stats(), win, date))),
    }
}

/// Names strictly increasing: each user appears once, in order.
pub open spec fn names_sorted(g: Seq<(Seq<char>, StatsView)>) -> bool {
    forall|i: int, j: int| 0 <= i < j < g.len() ==> seq_lt(#[trigger] g[i].0, #[trigger] g[j].0)
}

impl ScoreFile {
    /// The leaderboard a key names, as plain values.
    pub open spec fn board(self, key: Seq<char>) -> Seq<EntryView> {
        let i = board_index(key);
        if i == 1 {
            entries_view(self.breakout@)
        } else if i == 2 {
            entries_view(self.tetris@)
        } else if i == 3 {
            entries_view(self.plane@)
        } else {
            entries_view(self.snake@)
        }
    }

    /// The Gomoku table as plain values.
    pub open spec fn table(self) -> Seq<(Seq<char>, StatsView)> {
        stats_table_view(self.gomoku@)
    }

    /// `a` and `b` agree on everything but leaderboard `i`.
    pub open spec fn same_but_board(a: ScoreFile, b: ScoreFile, i: int) -> bool {
        &&& a.user == b.user
        &&& a.gomoku == b.gomoku
        &&& (i != 0 ==> a.snake == b.snake)
        &&& (i != 1 ==> a.breakout == b.breakout)
        &&& (i != 2 ==> a.tetris == b.tetris)
        &&& (i != 3 ==> a.plane == b.plane)
    }
}

/// Each game key names its own leaderboard: "snake", "breakout", "tetris" and
/// "plane" give the snake, breakout, tetris and plane fields, four distinct
/// boards numbered 0, 1, 2 and 3 (the number a landing place carries).
pub proof fn each_key_names_its_board(f: ScoreFile)
    ensures
        f.board("snake"@) == entries_view(f.snake@),
        f.board("breakout"@) == entries_view(f.breakout@),
        f.board("tetris"@) == entries_view(f.tetris@),
        f.board("plane"@) == entries_view(f.plane@),
        board_index("snake"@) == 0,
        board_index("breakout"@) == 1,
        board_index("tetris"@) == 2,
        board_index("plane"@) == 3,
{
    reveal_strlit("snake");
    reveal_strlit("breakout");
    reveal_strlit("tetris");
    reveal_strlit("plane");
    assert("snake"@[0] == 's' && "breakout"@[0] == 'b' && "tetris"@[0] == 't' && "plane"@[0] == 'p');
}

/// Each game's scores go to its own leaderboard: the key of Snake, Breakout,
/// Tetris and Plane Battle names the snake, breakout, tetris and plane board,
/// and Gomoku's key is "gomoku", which `add_score_at` does not record.
pub proof fn each_game_keeps_its_own_board(f: ScoreFile)
    ensures
        f.board(GameId::Snake.spec_score_key()) == entries_view(f.snake@),
        f.board(GameId::Breakout.spec_score_key()) == entries_view(f.breakout@),
        f.board(GameId::Tetris.spec_score_key()) == entries_view(f.tetris@),
        f.board(GameId::Plane.spec_score_key()) == entries_view(f.plane@),
        GameId::Gomoku.spec_score_key() == "gomoku"@,
{
    each_key_names_its_board(f);
}

/// Index of the leaderboard a key names (see `board_index`).
fn key_index(key: &str) -> (i: u8)
    ensures
        i == board_index(key@),
{
    if str_eq(key, "breakout") {
        1
    } else if str_eq(key, "tetris") {
        2
    } else if str_eq(key, "plane") {
        3
    } else {
        0
    }
}

impl ScoreFile {
    /// The leaderboard a key names (unknown keys give the Snake board).
    pub fn get_vec(&self, key: &str) -> (r: &[Entry])
        ensures
            entries_view(r@) == self.board(key@),
    {
        let i = key_index(key);
        if i == 1 {
            self.breakout.as_slice()
        } else if i == 2 {
            self.tetris.as_slice()
        } else if i == 3 {
            self.plane.as_slice()
        } else {
            self.snake.as_slice()
        }
    }

    /// Mutable access to the leaderboard a key names (unknown keys give Snake's).
    fn get_vec_mut(&mut self, key: &str) -> (r: &mut Vec<Entry>)
        ensures
            entries_view(r@) == old(self).board(key@),
            Self::same_but_board(*final(self), *old(self), board_index(key@)),
            final(self).board(key@) == entries_view(final(r)@),
    {
        let i = key_index(key);
        if i == 1 {
            &mut self.breakout
        } else if i == 2 {
            &mut self.tetris
        } else if i == 3 {
            &mut self.plane
        } else {
            &mut self.snake
        }
    }
}

/// Whether entry `a` ranks above entry `b` (see `ranks_before`).
fn entry_ranks_before(a: &Entry, b: &Entry, by_date: bool) -> (r: bool)
    ensures
        r == ranks_before(a@, b@, by_date),
{
    a.score > b.score || (by_date && a.score == b.score && str_lt(a.date.as_str(), b.date.as_str()))
}

proof fn lemma_entries_view_insert(r: Seq<Entry>, k: int, e: Entry)
    requires
        0 <= k <= r.len(),
    ensures
        entries_view(r.insert(k, e)) == entries_view(r).insert(k, e@),
{
    assert(entries_view(r.insert(k, e)) =~= entries_view(r).insert(k, e@));
}

/// Sorts a board stably by rank (see `stable_sort`).
fn sort_board(v: Vec<Entry>, by_date: bool) -> (r: Vec<Entry>)
    ensures
        entries_view(r@) == stable_sort(entries_view(v@), by_date),
{
    let ghost v0 = entries_view(v@);
    let mut v = v;
    let mut r: Vec<Entry> = Vec::new();
    proof {
        assert(v0.skip(v0.len() as int) =~= Seq::<EntryView>::empty());
        assert(entries_view(r@) =~= Seq::<EntryView>::empty());
    }
    while v.len() > 0
        invariant
            v0.len() >= v@.len(),
            entries_view(v@) == v0.take(v@.len() as int),
            entries_view(r@) == stable_sort(v0.skip(v@.len() as int), by_date),
        decreases v@.len(),
    {
        let ghost n = v@.len();
        let ghost vv = v@;
        let e = v.pop().unwrap();
        proof {
            assert(entries_view(vv)[n - 1] == vv[n - 1]@);
            assert(entries_view(v@) =~= v0.take(n - 1));
            assert(e@ == v0[n - 1]);
            let t = v0.skip(n - 1);
            assert(t.drop_first() =~= v0.skip(n as int));
            assert(t[0] == e@);
        }
        let ghost rv = entries_view(r@);
        let mut k: usize = 0;
        while k < r.len() && entry_ranks_before(&r[k], &e, by_date)
            invariant
                rv == entries_view(r@),
                k <= r@.len(),
                insert_pos(rv, e@, by_date, 0) == insert_pos(rv, e@, by_date, k as int),
            decreases r@.len() - k,
        {
            k = k + 1;
        }
        proof {
            lemma_entries_view_insert(r@, k as int, e);
        }
        r.insert(k, e);
    }
    proof {
        assert(v0.skip(0) =~= v0);
    }
    r
}

/// Keeps the entries with a non-blank user name, in order (see `named_only`).
fn keep_named(v: &Vec<Entry>) -> (r: Vec<Entry>)
    ensures
        entries_view(r@) == named_only(entries_view(v@)),
{
    let ghost s = entries_view(v@);
    let mut r: Vec<Entry> = Vec::new();
    let mut i: usize = 0;
    proof {
        assert(s.take(0) =~= Seq::<EntryView>::empty());
        assert(entries_view(r@) =~= Seq::<EntryView>::empty());
    }
    while i < v.len()
        invariant
            s == entries_view(v@),
            i <= v@.len(),
            entries_view(r@) == named_only(s.take(i as int)),
        decreases v@.len() - i,
    {
        let e = &v[i];
        proof {
            assert(s.take(i + 1).drop_last() =~= s.take(i as int));
            assert(s.take(i + 1).last() == e@);
        }
        if !blank(e.user.as_str()) {
            let c = Entry { user: e.user.clone(), score: e.score, date: e.date.clone() };
            let ghost before = r@;
            r.push(c);
            proof {
                assert(entries_view(r@) =~= entries_view(before).push(e@));
            }
        }
        i = i + 1;
    }
    proof {
        assert(s.take(v@.len() as int) =~= s);
    }
    r
}

impl ScoreFile {
    /// Cleans a freshly loaded file: in each leaderboard drops entries without
    /// a user name, sorts by score (ties keep their order) and keeps the top 10.
    pub fn normalize(&mut self)
        ensures
            final(self).user == old(self).user,
            final(self).gomoku == old(self).gomoku,
            entries_view(final(self).snake@) == board_normalized(entries_view(old(self).snake@)),
            entries_view(final(self).breakout@) == board_normalized(entries_view(old(self).breakout@)),
            entries_view(final(self).tetris@) == board_normalized(entries_view(old(self).tetris@)),
            entries_view(final(self).plane@) == board_normalized(entries_view(old(self).plane@)),
    {
        self.snake = normalized_board(&self.snake);
        self.breakout = normalized_board(&self.breakout);
        self.tetris = normalized_board(&self.tetris);
        self.plane = normalized_board(&self.plane);
    }

    /// Records a finished game's score (with the given date) on the board a key
    /// names: sorted by score, ties by date, top 10 kept, and notes where it
    /// landed. Gomoku and zero scores are not recorded.
    pub fn add_score_at(&mut self, key: &str, user: &str, score: u32, date: String)
        ensures
            (key@ == "gomoku"@ || score == 0) ==> *final(self) == (ScoreFile { last_place: None, ..*old(self) }),
            !(key@ == "gomoku"@ || score == 0) ==> {
                &&& Self::same_but_board(*final(self), *old(self), board_index(key@))
                &&& final(self).board(key@) == board_after_add(old(self).board(key@), user@, score, date@)
                &&& final(self).last_place == landing(board_index(key@), old(self).board(key@), (user@, score, date@))
            },
            key@ == "snake"@ && score > 0 ==> {
                &&& entries_view(final(self).snake@) == board_after_add(entries_view(old(self).snake@), user@, score, date@)
                &&& final(self).breakout == old(self).breakout
                &&& final(self).tetris == old(self).tetris
                &&& final(self).plane == old(self).plane
            },
            key@ == "breakout"@ && score > 0 ==> {
                &&& entries_view(final(self).breakout@) == board_after_add(entries_view(old(self).breakout@), user@, score, date@)
                &&& final(self).snake == old(self).snake
                &&& final(self).tetris == old(self).tetris
                &&& final(self).plane == old(self).plane
            },
            key@ == "tetris"@ && score > 0 ==> {
                &&& entries_view(final(self).tetris@) == board_after_add(entries_view(old(self).tetris@), user@, score, date@)
                &&& final(self).snake == old(self).snake
                &&& final(self).breakout == old(self).breakout
                &&& final(self).plane == old(self).plane
            },
            key@ == "plane"@ && score > 0 ==> {
                &&& entries_view(final(self).plane@) == board_after_add(entries_view(old(self).plane@), user@, score, date@)
                &&& final(self).snake == old(self).snake
                &&& final(self).breakout == old(self).breakout
                &&& final(self).tetris == old(self).tetris
            },
    {
        proof {
            each_key_names_its_board(*old(self));
            reveal_strlit("gomoku");
            reveal_strlit("snake");
            reveal_strlit("breakout");
            reveal_strlit("tetris");
            reveal_strlit("plane");
            assert("gomoku"@[0] == 'g' && "snake"@[0] == 's' && "breakout"@[0] == 'b' && "tetris"@[0] == 't'
                && "plane"@[0] == 'p');
        }
        if str_eq(key, "gomoku") || score == 0 {
            self.last_place = None;
            return;
        }
        let bi = key_index(key);
        let v = self.get_vec_mut(key);
        let mut b: Vec<Entry> = Vec::new();
        std::mem::swap(&mut b, v);
        let ghost old_b = entries_view(b@);
        let date_copy = date.clone();
        b.push(Entry { user: String::from_str(user), score, date });
        proof {
            assert(entries_view(b@) =~= old_b.push((user@, score, date@)));
        }
        let mut sorted = sort_board(b, true);
        let ghost full = entries_view(sorted@);
        let pos = last_index_of(&sorted, user, score, &date_copy);
        proof {
            assert(date_copy@ == date@);
            assert(full == stable_sort(old_b.push((user@, score, date@)), true));
        }
        sorted.truncate(TOP_N);
        proof {
            assert(entries_view(sorted@) =~= board_after_add(old_b, user@, score, date@));
        }
        *v = sorted;
        self.last_place = match pos {
            Some(p) => if p < TOP_N {
                Some((bi as usize, p))
            } else {
                None
            },
            None => None,
        };
        proof {
            assert(old_b == old(self).board(key@));
            let x = (user@, score, date@);
            let lp = last_pos(stable_sort(old_b.push(x), true), x);
            assert(lp == last_pos(full, x));
            assert(pos == (if lp >= 0 { Some(lp as usize) } else { None::<usize> }));
            assert(bi as int == board_index(key@));
            lemma_last_pos_bounds(full, x);
            assert(self.last_place == landing(board_index(key@), old_b, x));
            each_key_names_its_board(*self);
        }
    }
}

/// The last position of the entry `(user, score, date)` in `v`, if any.
fn last_index_of(v: &Vec<Entry>, user: &str, score: u32, date: &String) -> (r: Option<usize>)
    ensures
        r == (if last_pos(entries_view(v@), (user@, score, date@)) >= 0 {
            Some(last_pos(entries_view(v@), (user@, score, date@)) as usize)
        } else {
            None
        }),
{
    let ghost s = entries_view(v@);
    let ghost x = (user@, score, date@);
    let mut i = v.len();
    proof {
        assert(s.subrange(0, i as int) =~= s);
    }
    while i > 0
        invariant
            i <= v@.len(),
            s == entries_view(v@),
            x == (user@, score, date@),
            last_pos(s, x) == last_pos(s.subrange(0, i as int), x),
        decreases i,
    {
        let e = &v[i - 1];
        assert(s[i - 1] == e@);
        let ghost t = s.subrange(0, i as int);
        assert(t.last() == s[i - 1]);
        assert(t.drop_last() =~= s.subrange(0, i - 1));
        if e.score == score && str_eq(e.user.as_str(), user) && str_eq(e.date.as_str(), date.as_str()) {
            assert(t.last() == x);
            return Some(i - 1);
        }
        i = i - 1;
    }
    assert(s.subrange(0, 0) =~= Seq::<EntryView>::empty());
    None
}

/// A board as loading leaves it (see `board_normalized`).
fn normalized_board(v: &Vec<Entry>) -> (r: Vec<Entry>)
    ensures
        entries_view(r@) == board_normalized(entries_view(v@)),
{
    let named = keep_named(v);
    let mut sorted = sort_board(named, false);
    sorted.truncate(TOP_N);
    proof {
        assert(entries_view(sorted@) =~= board_normalized(entries_view(v@)));
    }
    sorted
}

/// The index of the first entry of `b` with score `s` (`b.len()` when none has it).
pub open spec fn first_index(b: Seq<EntryView>, s: u32) -> int
    decreases b.len(),
{
    if b.len() == 0 {
        0
    } else if b[0].1 == s {
        0
    } else {
        1 + first_index(b.drop_first(), s)
    }
}

proof fn lemma_first_index(b: Seq<EntryView>, s: u32, k: int)
    requires
        0 <= k < b.len(),
        b[k].1 == s,
        forall|j: int| 0 <= j < k ==> (#[trigger] b[j]).1 != s,
    ensures
        first_index(b, s) == k,
    decreases k,
{
    if k > 0 {
        assert(b[0].1 != s);
        assert forall|j: int| 0 <= j < k - 1 implies (#[trigger] b.drop_first()[j]).1 != s by {
            assert(b.drop_first()[j] == b[j + 1]);
        }
        lemma_first_index(b.drop_first(), s, k - 1);
    }
}

impl ScoreFile {
    /// The 0-based position of this round's `score` on a board: where the
    /// latest recorded score landed, when that was on this board with this
    /// score; `None` otherwise (it did not make the board).
    pub open spec fn placed(self, key: Seq<char>, score: u32) -> Option<int> {
        match self.last_place {
            Some((i, p)) => if i == board_index(key) && p < self.board(key).len() && self.board(key)[p as int].1 == score {
                Some(p as int)
            } else {
                None
            },
            None => None,
        }
    }

    /// The 1-based rank of this round's `score` on a board: when this round's
    /// entry made the board (see `placed`), the first position holding that
    /// score; `None` when it did not make the board.
    pub fn rank_of(&self, key: &str, score: u32) -> (r: Option<usize>)
        ensures
            r is Some <==> self.placed(key@, score) is Some,
            r is Some ==> {
                let b = self.board(key@);
                let k = r.unwrap() - 1;
                &&& 0 <= k < b.len()
                &&& b[k].1 == score
                &&& forall|j: int| 0 <= j < k ==> (#[trigger] b[j]).1 != score
                &&& k == first_index(b, score)
            },
    {
        let v = self.get_vec(key);
        let bi = key_index(key) as usize;
        let made_it = match self.last_place {
            Some((i, p)) => {
                if i == bi && p < v.len() {
                    assert(self.board(key@)[p as int] == v@[p as int]@);
                    v[p].score == score
                } else {
                    false
                }
            },
            None => false,
        };
        if !made_it {
            return None;
        }
        let ghost b = self.board(key@);
        proof {
            assert forall|m: int| 0 <= m < v@.len() implies #[trigger] b[m] == v@[m]@ by {}
            match self.last_place {
                Some((i, p)) => {
                    assert(b[p as int] == v@[p as int]@);
                    assert(b[p as int].1 == score);
                    assert(self.placed(key@, score) is Some);
                },
                None => {},
            }
        }
        let mut j: usize = 0;
        while j < v.len()
            invariant
                b == self.board(key@),
                b.len() == v@.len(),
                forall|m: int| 0 <= m < v@.len() ==> #[trigger] b[m] == v@[m]@,
                j <= v@.len(),
                self.placed(key@, score) is Some,
                forall|m: int| 0 <= m < j ==> (#[trigger] b[m]).1 != score,
                exists|m: int| j <= m < v@.len() && (#[trigger] b[m]).1 == score,
            decreases v@.len() - j,
        {
            assert(b[j as int] == v@[j as int]@);
            if v[j].score == score {
                proof {
                    lemma_first_index(b, score, j as int);
                }
                return Some(j + 1);
            }
            j = j + 1;
        }
        None
    }

    /// Whether this round's positive `score` took first place on a board.
    pub fn is_new_best(&self, key: &str, score: u32) -> (r: bool)
        ensures
            r == (score > 0 && self.placed(key@, score) == Some(0int)),
    {
        if score == 0 {
            return false;
        }
        let v = self.get_vec(key);
        let bi = key_index(key) as usize;
        match self.last_place {
            Some((i, p)) => {
                if i == bi && p == 0 && v.len() > 0 {
                    assert(self.board(key@)[0] == v@[0]@);
                    v[0].score == score
                } else {
                    false
                }
            },
            None => false,
        }
    }

    /// Index of `user` in the Gomoku table, if present.
    fn find_user(&self, user: &str) -> (r: Option<usize>)
        ensures
            match r {
                Some(i) => stats_index(self.table(), user@) == Some(i as int),
                None => stats_index(self.table(), user@) is None,
            },
            r is Some ==> r.unwrap() < self.gomoku@.len(),
    {
        let ghost g = self.table();
        let mut i: usize = 0;
        proof {
            assert(g.skip(0) =~= g);
        }
        while i < self.gomoku.len()
            invariant
                g == self.table(),
                i <= self.gomoku@.len(),
                stats_index(g, user@) == match stats_index(g.skip(i as int), user@) {
                    Some(k) => Some(k + i),
                    None => None::<int>,
                },
            decreases self.gomoku@.len() - i,
        {
            proof {
                assert(g.skip(i as int)[0] == g[i as int]);
                assert(g.skip(i as int).drop_first() =~= g.skip(i + 1));
            }
            if str_eq(self.gomoku[i].0.as_str(), user) {
                return Some(i);
            }
            i = i + 1;
        }
        None
    }

    /// The Gomoku record of a user (the empty record if they never played).
    pub fn gomoku_stats(&self, user: &str) -> (r: GomokuStats)
        ensures
            r@ == stats_lookup(self.table(), user@),
    {
        proof {
            lemma_lookup_index(self.table(), user@);
        }
        match self.find_user(user) {
            Some(i) => {
                let s = &self.gomoku[i].1;
                GomokuStats { wins: s.wins, losses: s.losses, last: s.last.clone() }
            },
            None => GomokuStats::default(),
        }
    }

    /// Records a Gomoku game of `user` dated `date`: one more win or loss.
    pub fn add_gomoku_at(&mut self, user: &str, win: bool, date: String)
        requires
            win ==> stats_lookup(old(self).table(), user@).0 < u32::MAX,
            !win ==> stats_lookup(old(self).table(), user@).1 < u32::MAX,
        ensures
            final(self).user == old(self).user,
            final(self).snake == old(self).snake,
            final(self).breakout == old(self).breakout,
            final(self).tetris == old(self).tetris,
            final(self).plane == old(self).plane,
            final(self).last_place == old(self).last_place,
            final(self).table() == table_after_game(old(self).table(), user@, win, date@),
            stats_lookup(final(self).table(), user@) == stats_after(stats_lookup(old(self).table(), user@), win, date@),
            forall|other: Seq<char>|
                other != user@ ==> #[trigger] stats_lookup(final(self).table(), other) == stats_lookup(old(self).table(), other),
    {
        let ghost g = self.table();
        proof {
            lemma_lookup_index(g, user@);
            gomoku_record_read_after_write(g, user@, win, date@, user@);
            assert forall|other: Seq<char>| other != user@ implies #[trigger] stats_lookup(
                table_after_game(g, user@, win, date@),
                other,
            ) == stats_lookup(g, other) by {
                gomoku_record_read_after_write(g, user@, win, date@, other);
            }
        }
        match self.find_user(user) {
            Some(i) => {
                let mut entry = self.gomoku.remove(i);
                if win {
                    entry.1.wins = entry.1.wins + 1;
                } else {
                    entry.1.losses = entry.1.losses + 1;
                }
                entry.1.last = date;
                self.gomoku.insert(i, entry);
                proof {
                    assert(self.table() =~= table_after_game(g, user@, win, date@));
                }
            },
            None => {
                let p = self.name_position(user);
                let stats = if win {
                    GomokuStats { wins: 1, losses: 0, last: date }
                } else {
                    GomokuStats { wins: 0, losses: 1, last: date }
                };
                self.gomoku.insert(p, (String::from_str(user), stats));
                proof {
                    assert(self.table() =~= table_after_game(g, user@, win, date@));
                }
            },
        }
    }

    /// Where a new user's record goes in the name-ordered table.
    fn name_position(&self, user: &str) -> (p: usize)
        ensures
            p == name_pos(self.table(), user@),
            p <= self.gomoku@.len(),
    {
        let ghost g = self.table();
        let mut i: usize = 0;
        proof {
            assert(g.skip(0) =~= g);
        }
        while i < self.gomoku.len() && !str_lt(user, self.gomoku[i].0.as_str())
            invariant
                g == self.table(),
                i <= self.gomoku@.len(),
                name_pos(g, user@) == i + name_pos(g.skip(i as int), user@),
            decreases self.gomoku@.len() - i,
        {
            proof {
                assert(g.skip(i as int)[0] == g[i as int]);
                assert(g.skip(i as int).drop_first() =~= g.skip(i + 1));
            }
            i = i + 1;
        }
        proof {
            if i < self.gomoku@.len() {
                assert(g.skip(i as int)[0] == g[i as int]);
            }
        }
        i
    }
}

/// The looked-up record is the one at the user's index.
proof fn lemma_lookup_index(g: Seq<(Seq<char>, StatsView)>, user: Seq<char>)
    ensures
        match stats_index(g, user) {
            Some(i) => 0 <= i < g.len() && g[i].0 == user && stats_lookup(g, user) == g[i].1,
            None => stats_lookup(g, user) == no_stats(),
        },
    decreases g.len(),
{
    if g.len() > 0 && g[0].0 != user {
        lemma_lookup_index(g.drop_first(), user);
    }
}

/// Howard Hinnant's civil-from-days algorithm, spelled out: days since
/// 1970-01-01 to (year, month, day) of the proleptic Gregorian calendar.
pub open spec fn civil(z: int) -> (int, int, int) {
    let zz = z + 719468;
    let era = if zz >= 0 {
        zz / 146097
    } else {
        -((146096 - zz) / 146097)
    };
    let doe = zz - era * 146097;
    let yoe = (doe - doe / 1460 + doe / 36524 - doe / 146096) / 365;
    let y = yoe + era * 400;
    let doy = doe - (365 * yoe + yoe / 4 - yoe / 100);
    let mp = (5 * doy + 2) / 153;
    let d = doy - (153 * mp + 2) / 5 + 1;
    let m = if mp < 10 {
        mp + 3
    } else {
        mp - 9
    };
    (if m <= 2 {
        y + 1
    } else {
        y
    }, m, d)
}

proof fn lemma_era_bounds(zz: int)
    ensures
        ({
            let era = if zz >= 0 {
                zz / 146097
            } else {
                -((146096 - zz) / 146097)
            };
            &&& 0 <= zz - era * 146097 <= 146096
            &&& zz >= 0 ==> 0 <= era <= zz
            &&& zz < 0 ==> zz <= era < 0
        }),
{
    if zz >= 0 {
        assert(0 <= zz - (zz / 146097) * 146097 <= 146096) by (nonlinear_arith);
        assert(0 <= zz / 146097 <= zz) by (nonlinear_arith)
            requires
                zz >= 0,
        ;
    } else {
        let n = 146096 - zz;
        let q = n / 146097;
        assert(n - q * 146097 >= 0 && n - q * 146097 < 146097) by (nonlinear_arith)
            requires
                n > 0,
                q == n / 146097,
        ;
        assert(1 <= q <= -zz) by (nonlinear_arith)
            requires
                n == 146096 - zz,
                zz < 0,
                q == n / 146097,
        ;
    }
}

proof fn lemma_doy_bv(doe: u32)
    by (bit_vector)
    requires
        doe <= 146096,
    ensures
        ({
            let yoe = (doe - doe / 1460 + doe / 36524 - doe / 146096) / 365;
            let doy = doe - (365 * yoe + yoe / 4 - yoe / 100);
            doe - doe / 1460 + doe / 36524 - doe / 146096 <= 146096 && 365 * yoe + yoe / 4 - yoe / 100
                <= doe && doy <= 365
        }),
{
}

proof fn lemma_civil_parts(doe: int)
    requires
        0 <= doe <= 146096,
    ensures
        ({
            let yoe = (doe - doe / 1460 + doe / 36524 - doe / 146096) / 365;
            let doy = doe - (365 * yoe + yoe / 4 - yoe / 100);
            let mp = (5 * doy + 2) / 153;
            let d = doy - (153 * mp + 2) / 5 + 1;
            &&& 0 <= yoe <= 399
            &&& 0 <= doy <= 365
            &&& 0 <= mp <= 11
            &&& 1 <= d <= 31
        }),
{
    lemma_doy_bv(doe as u32);
}

proof fn lemma_month_len_bv(doe: u32)
    by (bit_vector)
    requires
        doe <= 146096,
    ensures
        ({
            let yoe = (doe - doe / 1460 + doe / 36524 - doe / 146096) / 365;
            let doy = doe - (365 * yoe + yoe / 4 - yoe / 100);
            let mp = (5 * doy + 2) / 153;
            let d = doy - (153 * mp + 2) / 5 + 1;
            let ny = yoe + 1;
            &&& (mp == 1 || mp == 3 || mp == 6 || mp == 8) ==> d <= 30
            &&& mp == 11 ==> (d <= 28 || (d == 29 && ny % 4 == 0 && (ny % 100 != 0 || ny % 400 == 0)))
        }),
{
}

/// Gregorian leap years.
pub open spec fn is_leap(y: int) -> bool {
    y % 4 == 0 && (y % 100 != 0 || y % 400 == 0)
}

/// Number of days of month `m` of year `y`.
pub open spec fn days_in_month(y: int, m: int) -> int {
    if m == 2 {
        if is_leap(y) {
            29
        } else {
            28
        }
    } else if m == 4 || m == 6 || m == 9 || m == 11 {
        30
    } else {
        31
    }
}

/// A real calendar date.
pub open spec fn valid_date(y: int, m: int, d: int) -> bool {
    1 <= m <= 12 && 1 <= d <= days_in_month(y, m)
}

/// Days from 1970-01-01 to a date: whole 400-year eras of 146097 days, then
/// the days of the era's years (365 each plus leap days) and of the year,
/// counted from March 1 so that February's leap day comes last.
pub open spec fn days_from_civil(y: int, m: int, d: int) -> int {
    let y2 = if m <= 2 {
        y - 1
    } else {
        y
    };
    let era = y2 / 400;
    let yoe = y2 - era * 400;
    let mp = if m > 2 {
        m - 3
    } else {
        m + 9
    };
    let doy = (153 * mp + 2) / 5 + d - 1;
    let doe = yoe * 365 + yoe / 4 - yoe / 100 + doy;
    era * 146097 + doe - 719468
}

/// `civil` gives a real date, and counting the days to that date gives back
/// the day number: the conversion is exact.
pub proof fn civil_round_trip(z: int)
    ensures
        valid_date(civil(z).0, civil(z).1, civil(z).2),
        days_from_civil(civil(z).0, civil(z).1, civil(z).2) == z,
{
    let zz = z + 719468;
    lemma_era_bounds(zz);
    let era = if zz >= 0 {
        zz / 146097
    } else {
        -((146096 - zz) / 146097)
    };
    let doe = zz - era * 146097;
    lemma_civil_parts(doe);
    lemma_month_len_bv(doe as u32);
    let yoe = (doe - doe / 1460 + doe / 36524 - doe / 146096) / 365;
    let doy = doe - (365 * yoe + yoe / 4 - yoe / 100);
    let mp = (5 * doy + 2) / 153;
    let d = doy - (153 * mp + 2) / 5 + 1;
    let m = if mp < 10 {
        mp + 3
    } else {
        mp - 9
    };
    let y = yoe + era * 400;
    let yy = if m <= 2 {
        y + 1
    } else {
        y
    };
    assert(civil(z) == (yy, m, d));
    let y2 = if m <= 2 {
        yy - 1
    } else {
        yy
    };
    assert(y2 == yoe + era * 400);
    assert(y2 / 400 == era) by (nonlinear_arith)
        requires
            y2 == yoe + era * 400,
            0 <= yoe <= 399,
    ;
    if m <= 2 {
        assert(is_leap(yy) == is_leap(yoe + 1)) by (nonlinear_arith)
            requires
                yy == yoe + 1 + era * 400,
        ;
    }
}

#[verifier::rlimit(100)]
proof fn lemma_next_doe_bv(doe: u32)
    by (bit_vector)
    requires
        doe < 146096,
    ensures
        ({
            let yoe = (doe - doe / 1460 + doe / 36524 - doe / 146096) / 365;
            let doy = doe - (365 * yoe + yoe / 4 - yoe / 100);
            let e = doe + 1;
            let yoe1 = (e - e / 1460 + e / 36524 - e / 146096) / 365;
            let doy1 = e - (365 * yoe1 + yoe1 / 4 - yoe1 / 100);
            let ny = yoe + 1;
            let leap = ny % 4 == 0 && (ny % 100 != 0 || ny % 400 == 0);
            ||| yoe1 == yoe && doy1 == doy + 1
            ||| yoe1 == yoe + 1 && doy1 == 0 && ((doy == 364 && !leap) || (doy == 365 && leap))
        }),
{
}

proof fn lemma_next_doy_bv(doy: u32)
    by (bit_vector)
    requires
        doy < 365,
    ensures
        ({
            let mp = (5 * doy + 2) / 153;
            let d = doy - (153 * mp + 2) / 5 + 1;
            let e = doy + 1;
            let mp1 = (5 * e + 2) / 153;
            let d1 = e - (153 * mp1 + 2) / 5 + 1;
            ||| mp1 == mp && d1 == d + 1
            ||| mp1 == mp + 1 && d1 == 1 && d == (153 * (mp + 1) + 2) / 5 - (153 * mp + 2) / 5
        }),
{
}

/// The calendar day after `(y, m, d)`.
pub open spec fn next_date(y: int, m: int, d: int) -> (int, int, int) {
    if d < days_in_month(y, m) {
        (y, m, d + 1)
    } else if m < 12 {
        (y, m + 1, 1)
    } else {
        (y + 1, 1, 1)
    }
}

proof fn lemma_era_unique(zz: int, era: int, doe: int, era2: int, doe2: int)
    requires
        zz == era * 146097 + doe,
        zz == era2 * 146097 + doe2,
        0 <= doe <= 146096,
        0 <= doe2 <= 146096,
    ensures
        era == era2,
        doe == doe2,
{
    assert(era == era2) by (nonlinear_arith)
        requires
            era * 146097 + doe == era2 * 146097 + doe2,
            0 <= doe <= 146096,
            0 <= doe2 <= 146096,
    ;
}

/// The day after day `z` is the next calendar date: `civil` counts days one
/// by one through the proleptic Gregorian calendar.
#[verifier::spinoff_prover]
#[verifier::rlimit(60)]
pub proof fn civil_next_day(z: int)
    ensures
        civil(z + 1) == next_date(civil(z).0, civil(z).1, civil(z).2),
{
    civil_round_trip(z);
    civil_round_trip(z + 1);
    let zz = z + 719468;
    lemma_era_bounds(zz);
    lemma_era_bounds(zz + 1);
    let era = if zz >= 0 {
        zz / 146097
    } else {
        -((146096 - zz) / 146097)
    };
    let doe = zz - era * 146097;
    let era1 = if zz + 1 >= 0 {
        (zz + 1) / 146097
    } else {
        -((146096 - (zz + 1)) / 146097)
    };
    let doe1 = zz + 1 - era1 * 146097;
    lemma_civil_parts(doe);
    lemma_civil_parts(doe1);
    let yoe = (doe - doe / 1460 + doe / 36524 - doe / 146096) / 365;
    let doy = doe - (365 * yoe + yoe / 4 - yoe / 100);
    let mp = (5 * doy + 2) / 153;
    let d = doy - (153 * mp + 2) / 5 + 1;
    let yoe1 = (doe1 - doe1 / 1460 + doe1 / 36524 - doe1 / 146096) / 365;
    let doy1 = doe1 - (365 * yoe1 + yoe1 / 4 - yoe1 / 100);
    let mp1 = (5 * doy1 + 2) / 153;
    let d1 = doy1 - (153 * mp1 + 2) / 5 + 1;
    let c0 = civil(z);
    let c1 = civil(z + 1);
    assert(c0.1 == if mp < 10 { mp + 3 } else { mp - 9 });
    assert(c0.2 == d);
    assert(c1.1 == if mp1 < 10 { mp1 + 3 } else { mp1 - 9 });
    assert(c1.2 == d1);
    if doe < 146096 {
        lemma_era_unique(zz + 1, era, doe + 1, era1, doe1);
        assert(doe1 == doe + 1);
        lemma_next_doe_bv(doe as u32);
        if yoe1 == yoe && doy1 == doy + 1 {
            lemma_next_doy_bv(doy as u32);
            if mp1 == mp && d1 == d + 1 {
                assert(c1 == (c0.0, c0.1, c0.2 + 1));
            } else {
                assert(mp < 11);
                assert(d == (153 * (mp + 1) + 2) / 5 - (153 * mp + 2) / 5);
                assert(d == days_in_month(c0.0, c0.1)) by {
                    assert(0 <= mp <= 10);
                    if mp == 0 {} else if mp == 1 {} else if mp == 2 {} else if mp == 3 {} else if mp == 4 {}
                    else if mp == 5 {} else if mp == 6 {} else if mp == 7 {} else if mp == 8 {} else if mp == 9 {}
                    else {}
                }
                if mp == 9 {
                    assert(c0.1 == 12);
                    assert(c1 == (c0.0 + 1, 1int, 1int));
                } else {
                    assert(c1 == (c0.0, c0.1 + 1, 1int));
                }
            }
        } else {
            assert(yoe1 == yoe + 1 && doy1 == 0);
            assert(mp == 11);
            assert(mp1 == 0 && d1 == 1);
            let y = yoe + era * 400;
            assert(c0.0 == y + 1);
            assert(c1.0 == yoe1 + era * 400);
            assert(is_leap(y + 1) == is_leap(yoe + 1)) by (nonlinear_arith)
                requires
                    y + 1 == yoe + 1 + era * 400,
            ;
            assert(d == days_in_month(c0.0, 2));
            assert(c1 == (c0.0, 3int, 1int));
        }
    } else {
        lemma_era_unique(zz + 1, era + 1, 0, era1, doe1);
        assert(doe1 == 0 && era1 == era + 1);
        assert(doe == 146096);
        assert(yoe == 399 && doy == 365);
        assert(mp == 11 && d == 29);
        assert(yoe1 == 0 && doy1 == 0 && mp1 == 0 && d1 == 1);
        let y = yoe + era * 400;
        assert(c0.0 == y + 1);
        assert(c1.0 == era1 * 400);
        assert(c0.0 == c1.0);
        assert(is_leap(c0.0)) by (nonlinear_arith)
            requires
                c0.0 == (era + 1) * 400,
        ;
        assert(c1 == (c0.0, 3int, 1int));
    }
}

/// Days since 1970-01-01 to (year, month, day).
pub fn civil_from_days(z: i64) -> (r: (i64, u32, u32))
    requires
        z <= i64::MAX - 719468,
    ensures
        r.0 == civil(z as int).0,
        r.1 == civil(z as int).1,
        r.2 == civil(z as int).2,
{
    let z = z + 719468;
    proof {
        lemma_era_bounds(z as int);
    }
    let era = if z >= 0 {
        z
    } else {
        z - 146096
    } / 146097;
    let doe = (z - era * 146097) as u64;
    proof {
        lemma_civil_parts(doe as int);
    }
    let yoe = (doe - doe / 1460 + doe / 36524 - doe / 146096) / 365;
    let y = yoe as i64 + era * 400;
    let doy = doe - (365 * yoe + yoe / 4 - yoe / 100);
    let mp = (5 * doy + 2) / 153;
    let d = (doy - (153 * mp + 2) / 5 + 1) as u32;
    let m = if mp < 10 {
        mp + 3
    } else {
        mp - 9
    } as u32;
    let y = if m <= 2 {
        y + 1
    } else {
        y
    };
    (y, m, d)
}

/// `YYYY-MM-DD HH:MM` for a time `secs` seconds after the Unix epoch (UTC),
/// each field zero-padded to its width.
pub open spec fn timestamp_text(secs: u64) -> Seq<char> {
    let days = secs / 86400;
    let sod = secs % 86400;
    let c = civil(days as int);
    zero_pad(c.0 as nat, 4) + seq!['-'] + zero_pad(c.1 as nat, 2) + seq!['-'] + zero_pad(
        c.2 as nat,
        2,
    ) + seq![' '] + zero_pad((sod / 3600) as nat, 2) + seq![':'] + zero_pad(
        ((sod % 3600) / 60) as nat,
        2,
    )
}

proof fn lemma_civil_year_nonneg(z: int)
    requires
        z >= 0,
    ensures
        civil(z).0 >= 0,
        1 <= civil(z).1 <= 12,
        1 <= civil(z).2 <= 31,
{
    let zz = z + 719468;
    lemma_era_bounds(zz);
    let era = zz / 146097;
    lemma_civil_parts(zz - era * 146097);
}

/// Formats a Unix time as `YYYY-MM-DD HH:MM` (UTC).
pub fn timestamp_string(secs: u64) -> (r: String)
    ensures
        r@ == timestamp_text(secs),
{
    let days = secs / 86400;
    let sod = secs % 86400;
    proof {
        lemma_civil_year_nonneg(days as int);
    }
    let (y, m, d) = civil_from_days(days as i64);
    let mut s = String::new();
    push_zero_padded(&mut s, y as u64, 4);
    push_char(&mut s, '-');
    push_zero_padded(&mut s, m as u64, 2);
    push_char(&mut s, '-');
    push_zero_padded(&mut s, d as u64, 2);
    push_char(&mut s, ' ');
    push_zero_padded(&mut s, sod / 3600, 2);
    push_char(&mut s, ':');
    push_zero_padded(&mut s, (sod % 3600) / 60, 2);
    proof {
        assert(s@ =~= timestamp_text(secs));
    }
    s
}

/// Whole seconds since the Unix epoch by the system clock
/// (`SystemTime::now`, then `duration_since(UNIX_EPOCH)` and `as_secs`), or 0
/// when the clock reads before the epoch. The value depends on the clock, so
/// nothing is stated about it.
#[verifier::external_body]
fn unix_time_secs() -> u64 {
    std::time::SystemTime::now().duration_since(std::time::UNIX_EPOCH).map(|d| d.as_secs()).unwrap_or(0)
}

/// The current time as `YYYY-MM-DD HH:MM` (UTC).
pub fn now_string() -> (r: String)
    ensures
        exists|secs: u64| r@ == timestamp_text(secs),
{
    let secs = unix_time_secs();
    timestamp_string(secs)
}

impl ScoreFile {
    /// Records a finished game's score, dated now (see `add_score_at`).
    pub fn add_score(&mut self, key: &str, user: &str, score: u32)
        ensures
            (key@ == "gomoku"@ || score == 0) ==> *final(self) == (ScoreFile { last_place: None, ..*old(self) }),
            !(key@ == "gomoku"@ || score == 0) ==> {
                &&& Self::same_but_board(*final(self), *old(self), board_index(key@))
                &&& exists|secs: u64|
                    final(self).board(key@) == board_after_add(
                        old(self).board(key@),
                        user@,
                        score,
                        timestamp_text(secs),
                    ) && final(self).last_place == landing(
                        board_index(key@),
                        old(self).board(key@),
                        (user@, score, timestamp_text(secs)),
                    )
            },
    {
        if str_eq(key, "gomoku") || score == 0 {
            self.last_place = None;
            return;
        }
        let secs = unix_time_secs();
        self.add_score_at(key, user, score, timestamp_string(secs));
    }

    /// Records a Gomoku game of `user`, dated now (see `add_gomoku_at`).
    pub fn add_gomoku(&mut self, user: &str, win: bool)
        requires
            win ==> stats_lookup(old(self).table(), user@).0 < u32::MAX,
            !win ==> stats_lookup(old(self).table(), user@).1 < u32::MAX,
        ensures
            final(self).user == old(self).user,
            final(self).snake == old(self).snake,
            final(self).breakout == old(self).breakout,
            final(self).tetris == old(self).tetris,
            final(self).plane == old(self).plane,
            final(self).last_place == old(self).last_place,
            exists|secs: u64|
                final(self).table() == table_after_game(old(self).table(), user@, win, timestamp_text(secs))
                    && stats_lookup(final(self).table(), user@) == stats_after(
                    stats_lookup(old(self).table(), user@),
                    win,
                    timestamp_text(secs),
                ),
            forall|other: Seq<char>|
                other != user@ ==> #[trigger] stats_lookup(final(self).table(), other) == stats_lookup(old(self).table(), other),
    {
        let secs = unix_time_secs();
        self.add_gomoku_at(user, win, timestamp_string(secs));
    }
}

proof fn lemma_ranks_before_order(a: EntryView, b: EntryView, c: EntryView, by_date: bool)
    ensures
        ranks_before(a, b, by_date) ==> !ranks_before(b, a, by_date),
        !ranks_before(a, b, by_date) && !ranks_before(b, c, by_date) ==> !ranks_before(a, c, by_date),
{
    seq_lt_strict_total(a.2, b.2, c.2);
    seq_lt_strict_total(b.2, c.2, a.2);
    seq_lt_strict_total(c.2, a.2, b.2);
    seq_lt_strict_total(a.2, c.2, b.2);
    seq_lt_strict_total(b.2, a.2, c.2);
    seq_lt_strict_total(c.2, b.2, a.2);
}

proof fn lemma_insert_pos(r: Seq<EntryView>, e: EntryView, by_date: bool, k: int)
    requires
        0 <= k <= r.len(),
        forall|i: int| 0 <= i < k ==> ranks_before(#[trigger] r[i], e, by_date),
    ensures
        k <= insert_pos(r, e, by_date, k) <= r.len(),
        forall|i: int| 0 <= i < insert_pos(r, e, by_date, k) ==> ranks_before(#[trigger] r[i], e, by_date),
        insert_pos(r, e, by_date, k) < r.len() ==> !ranks_before(r[insert_pos(r, e, by_date, k)], e, by_date),
    decreases r.len() - k,
{
    if k < r.len() && ranks_before(r[k], e, by_date) {
        lemma_insert_pos(r, e, by_date, k + 1);
    }
}

proof fn lemma_top_entry_first(s: Seq<EntryView>, x: EntryView)
    requires
        s.len() >= 1,
        s.last() == x,
        forall|k: int| 0 <= k < s.len() - 1 ==> (#[trigger] s[k]).1 < x.1,
    ensures
        stable_sort(s, true).len() == s.len(),
        stable_sort(s, true)[0] == x,
        forall|j: int| 1 <= j < s.len() ==> (#[trigger] stable_sort(s, true)[j]).1 < x.1,
    decreases s.len(),
{
    let t = s.drop_first();
    if s.len() == 1 {
        assert(t.len() == 0);
        assert(stable_sort(t, true) == t);
        assert(s[0] == x);
    } else {
        assert(t.last() == x);
        assert forall|k: int| 0 <= k < t.len() - 1 implies (#[trigger] t[k]).1 < x.1 by {
            assert(t[k] == s[k + 1]);
        }
        lemma_top_entry_first(t, x);
        let r = stable_sort(t, true);
        assert(s[0].1 < x.1);
        assert(ranks_before(r[0], s[0], true));
        lemma_insert_pos(r, s[0], true, 1);
        assert(insert_pos(r, s[0], true, 0) == insert_pos(r, s[0], true, 1));
        let p = insert_pos(r, s[0], true, 0);
        let out = r.insert(p, s[0]);
        assert(out[0] == x);
        assert forall|j: int| 1 <= j < s.len() implies (#[trigger] out[j]).1 < x.1 by {
            if j < p {
                assert(out[j] == r[j]);
            } else if j == p {
                assert(out[j] == s[0]);
            } else {
                assert(out[j] == r[j - 1]);
            }
        }
    }
}

proof fn lemma_last_pos_first(s: Seq<EntryView>, x: EntryView)
    requires
        s.len() >= 1,
        s[0] == x,
        forall|j: int| 1 <= j < s.len() ==> (#[trigger] s[j]).1 < x.1,
    ensures
        last_pos(s, x) == 0,
    decreases s.len(),
{
    if s.len() > 1 {
        assert(s.last().1 < x.1);
        assert forall|j: int| 1 <= j < s.drop_last().len() implies (#[trigger] s.drop_last()[j]).1 < x.1 by {
            assert(s.drop_last()[j] == s[j]);
        }
        lemma_last_pos_first(s.drop_last(), x);
    }
}

/// A score above every score on a board lands first: it heads the board
/// after it is recorded, and its landing position is 0.
pub proof fn top_score_lands_first(i: int, b: Seq<EntryView>, user: Seq<char>, score: u32, date: Seq<char>)
    requires
        forall|k: int| 0 <= k < b.len() ==> (#[trigger] b[k]).1 < score,
    ensures
        board_after_add(b, user, score, date)[0] == (user, score, date),
        landing(i, b, (user, score, date)) == Some((i as usize, 0usize)),
{
    let x = (user, score, date);
    let s = b.push(x);
    assert forall|k: int| 0 <= k < s.len() - 1 implies (#[trigger] s[k]).1 < x.1 by {
        assert(s[k] == b[k]);
    }
    lemma_top_entry_first(s, x);
    lemma_last_pos_first(stable_sort(s, true), x);
    let r = stable_sort(s, true);
    if r.len() > 10 {
        assert(r.take(10)[0] == r[0]);
    }
}

/// Recording a positive score above every score on its board makes it the
/// new best: afterwards `is_new_best` holds for it (its contract reads
/// `placed`, which this gives as the first position).
pub proof fn beating_every_score_is_a_new_best(
    before: ScoreFile,
    after: ScoreFile,
    key: Seq<char>,
    user: Seq<char>,
    score: u32,
    date: Seq<char>,
)
    requires
        score > 0,
        after.board(key) == board_after_add(before.board(key), user, score, date),
        after.last_place == landing(board_index(key), before.board(key), (user, score, date)),
        forall|k: int| 0 <= k < before.board(key).len() ==> (#[trigger] before.board(key)[k]).1 < score,
    ensures
        after.placed(key, score) == Some(0int),
{
    top_score_lands_first(board_index(key), before.board(key), user, score, date);
    leaderboard_stays_ranked(before.board(key), user, score, date);
    let r = stable_sort(before.board(key).push((user, score, date)), true);
    stable_sort_sorted_permutation(before.board(key).push((user, score, date)), true);
    assert(r.len() >= 1);
    assert(after.board(key).len() >= 1);
}

/// Sorting reorders without losing or adding entries, and leaves them ordered
/// by rank: no entry ranks above one placed before it.
pub proof fn stable_sort_sorted_permutation(s: Seq<EntryView>, by_date: bool)
    ensures
        stable_sort(s, by_date).len() == s.len(),
        stable_sort(s, by_date).to_multiset() == s.to_multiset(),
        forall|i: int, j: int|
            0 <= i < j < s.len() ==> !ranks_before(
                #[trigger] stable_sort(s, by_date)[j],
                #[trigger] stable_sort(s, by_date)[i],
                by_date,
            ),
    decreases s.len(),
{
    if s.len() > 0 {
        let t = s.drop_first();
        let e = s[0];
        stable_sort_sorted_permutation(t, by_date);
        let r = stable_sort(t, by_date);
        lemma_insert_pos(r, e, by_date, 0);
        let k = insert_pos(r, e, by_date, 0);
        let out = r.insert(k, e);
        assert(out == stable_sort(s, by_date));
        vstd::seq_lib::to_multiset_insert(r, k, e);
        vstd::seq_lib::to_multiset_insert(t, 0, e);
        assert(t.insert(0, e) =~= s);
        r.insert_ensures(k, e);
        assert forall|i: int, j: int| 0 <= i < j < out.len() implies !ranks_before(
            #[trigger] out[j],
            #[trigger] out[i],
            by_date,
        ) by {
            if j < k {
                assert(out[i] == r[i] && out[j] == r[j]);
            } else if j == k {
                assert(out[i] == r[i]);
                lemma_ranks_before_order(r[i], e, e, by_date);
            } else if i == k {
                assert(out[j] == r[j - 1]);
                assert(!ranks_before(r[j - 1], r[k], by_date) || j - 1 == k);
                lemma_ranks_before_order(r[j - 1], r[k], e, by_date);
            } else if i < k {
                assert(out[i] == r[i] && out[j] == r[j - 1]);
                assert(i < j - 1);
            } else {
                assert(out[i] == r[i - 1] && out[j] == r[j - 1]);
            }
        }
    }
}

/// After a score is recorded, its leaderboard holds at most ten entries, in
/// rank order (higher scores first, equal scores by earlier date): a board
/// of fewer than ten entries grows by one, a fuller one keeps its top ten.
pub proof fn leaderboard_stays_ranked(b: Seq<EntryView>, user: Seq<char>, score: u32, date: Seq<char>)
    ensures
        board_after_add(b, user, score, date).len() <= TOP_N,
        TOP_N == 10,
        board_after_add(b, user, score, date).len() == (if b.len() < 10 { b.len() + 1 } else { 10 }),
        forall|i: int, j: int|
            0 <= i < j < board_after_add(b, user, score, date).len() ==> !ranks_before(
                #[trigger] board_after_add(b, user, score, date)[j],
                #[trigger] board_after_add(b, user, score, date)[i],
                true,
            ),
{
    let s = b.push((user, score, date));
    stable_sort_sorted_permutation(s, true);
    let r = stable_sort(s, true);
    assert forall|i: int, j: int| 0 <= i < j < top_n(r).len() implies !ranks_before(
        #[trigger] top_n(r)[j],
        #[trigger] top_n(r)[i],
        true,
    ) by {
        assert(top_n(r)[i] == r[i] && top_n(r)[j] == r[j]);
    }
}

proof fn lemma_index_first(g: Seq<(Seq<char>, StatsView)>, user: Seq<char>)
    ensures
        match stats_index(g, user) {
            Some(i) => 0 <= i < g.len() && g[i].0 == user && forall|j: int| 0 <= j < i ==> #[trigger] g[j].0 != user,
            None => forall|j: int| 0 <= j < g.len() ==> #[trigger] g[j].0 != user,
        },
    decreases g.len(),
{
    if g.len() > 0 {
        lemma_index_first(g.drop_first(), user);
        if g[0].0 != user {
            match stats_index(g.drop_first(), user) {
                Some(i) => {
                    assert forall|j: int| 0 <= j < i + 1 implies #[trigger] g[j].0 != user by {
                        if j > 0 {
                            assert(g[j] == g.drop_first()[j - 1]);
                        }
                    }
                },
                None => {
                    assert forall|j: int| 0 <= j < g.len() implies #[trigger] g[j].0 != user by {
                        if j > 0 {
                            assert(g[j] == g.drop_first()[j - 1]);
                        }
                    }
                },
            }
        }
    }
}

/// The lookup is determined by the first pair with the name, or is empty.
proof fn lemma_lookup_first(g: Seq<(Seq<char>, StatsView)>, user: Seq<char>, i: int)
    requires
        0 <= i < g.len(),
        g[i].0 == user,
        forall|j: int| 0 <= j < i ==> #[trigger] g[j].0 != user,
    ensures
        stats_lookup(g, user) == g[i].1,
    decreases i,
{
    if i > 0 {
        assert forall|j: int| 0 <= j < i - 1 implies #[trigger] g.drop_first()[j].0 != user by {
            assert(g.drop_first()[j] == g[j + 1]);
        }
        lemma_lookup_first(g.drop_first(), user, i - 1);
    }
}

proof fn lemma_lookup_absent(g: Seq<(Seq<char>, StatsView)>, user: Seq<char>)
    requires
        forall|j: int| 0 <= j < g.len() ==> #[trigger] g[j].0 != user,
    ensures
        stats_lookup(g, user) == no_stats(),
    decreases g.len(),
{
    if g.len() > 0 {
        assert forall|j: int| 0 <= j < g.len() - 1 implies #[trigger] g.drop_first()[j].0 != user by {
            assert(g.drop_first()[j] == g[j + 1]);
        }
        lemma_lookup_absent(g.drop_first(), user);
    }
}

proof fn lemma_name_pos_bounds(g: Seq<(Seq<char>, StatsView)>, user: Seq<char>)
    ensures
        0 <= name_pos(g, user) <= g.len(),
        forall|j: int| 0 <= j < name_pos(g, user) ==> !seq_lt(user, #[trigger] g[j].0),
        name_pos(g, user) < g.len() ==> seq_lt(user, g[name_pos(g, user)].0),
    decreases g.len(),
{
    if g.len() > 0 && !seq_lt(user, g[0].0) {
        lemma_name_pos_bounds(g.drop_first(), user);
        assert forall|j: int| 0 <= j < name_pos(g, user) implies !seq_lt(user, #[trigger] g[j].0) by {
            if j > 0 {
                assert(g[j] == g.drop_first()[j - 1]);
            }
        }
    }
}

/// Recording a Gomoku game changes exactly that user's record: one more win
/// or loss and the new date; every other user's record reads as before.
pub proof fn gomoku_record_read_after_write(
    g: Seq<(Seq<char>, StatsView)>,
    user: Seq<char>,
    win: bool,
    date: Seq<char>,
    other: Seq<char>,
)
    ensures
        stats_lookup(table_after_game(g, user, win, date), user) == stats_after(
            stats_lookup(g, user),
            win,
            date,
        ),
        other != user ==> stats_lookup(table_after_game(g, user, win, date), other) == stats_lookup(
            g,
            other,
        ),
{
    let t = table_after_game(g, user, win, date);
    lemma_index_first(g, user);
    lemma_index_first(g, other);
    lemma_lookup_index(g, user);
    lemma_lookup_index(g, other);
    match stats_index(g, user) {
        Some(i) => {
            assert(t[i].0 == user);
            assert forall|j: int| 0 <= j < i implies #[trigger] t[j].0 != user by {
                assert(t[j] == g[j]);
            }
            lemma_lookup_first(t, user, i);
            if other != user {
                match stats_index(g, other) {
                    Some(k) => {
                        assert(t[k] == g[k]);
                        assert forall|j: int| 0 <= j < k implies #[trigger] t[j].0 != other by {
                            assert(t[j].0 == g[j].0);
                        }
                        lemma_lookup_first(t, other, k);
                    },
                    None => {
                        assert forall|j: int| 0 <= j < t.len() implies #[trigger] t[j].0 != other by {
                            assert(t[j].0 == g[j].0);
                        }
                        lemma_lookup_absent(t, other);
                    },
                }
            }
        },
        None => {
            lemma_name_pos_bounds(g, user);
            let p = name_pos(g, user);
            g.insert_ensures(p, (user, stats_after(no_stats(), win, date)));
            assert forall|j: int| 0 <= j < p implies #[trigger] t[j].0 != user by {
                assert(t[j] == g[j]);
            }
            lemma_lookup_first(t, user, p);
            if other != user {
                match stats_index(g, other) {
                    Some(k) => {
                        let k2 = if k < p {
                            k
                        } else {
                            k + 1
                        };
                        assert(t[k2] == g[k]);
                        assert forall|j: int| 0 <= j < k2 implies #[trigger] t[j].0 != other by {
                            if j < p {
                                assert(t[j] == g[j]);
                            } else if j > p {
                                assert(t[j] == g[j - 1]);
                            }
                        }
                        lemma_lookup_first(t, other, k2);
                    },
                    None => {
                        assert forall|j: int| 0 <= j < t.len() implies #[trigger] t[j].0 != other by {
                            if j < p {
                                assert(t[j] == g[j]);
                            } else if j > p {
                                assert(t[j] == g[j - 1]);
                            }
                        }
                        lemma_lookup_absent(t, other);
                    },
                }
            }
        },
    }
}

/// Recording a game keeps the Gomoku table ordered by name with each user once.
pub proof fn gomoku_table_stays_sorted(g: Seq<(Seq<char>, StatsView)>, user: Seq<char>, win: bool, date: Seq<char>)
    requires
        names_sorted(g),
    ensures
        names_sorted(table_after_game(g, user, win, date)),
{
    let t = table_after_game(g, user, win, date);
    lemma_index_first(g, user);
    match stats_index(g, user) {
        Some(i) => {
            assert forall|a: int, b: int| 0 <= a < b < t.len() implies seq_lt(#[trigger] t[a].0, #[trigger] t[b].0) by {
                assert(t[a].0 == g[a].0 && t[b].0 == g[b].0);
            }
        },
        None => {
            lemma_name_pos_bounds(g, user);
            let p = name_pos(g, user);
            g.insert_ensures(p, (user, stats_after(no_stats(), win, date)));
            assert forall|a: int, b: int| 0 <= a < b < t.len() implies seq_lt(#[trigger] t[a].0, #[trigger] t[b].0) by {
                if b < p {
                    assert(t[a] == g[a] && t[b] == g[b]);
                } else if b == p {
                    assert(t[a] == g[a]);
                    seq_lt_strict_total(g[a].0, user, user);
                } else if a == p {
                    assert(t[b] == g[b - 1]);
                    if b - 1 > p {
                        seq_lt_strict_total(user, g[p].0, g[b - 1].0);
                    }
                } else if a < p {
                    assert(t[a] == g[a] && t[b] == g[b - 1]);
                } else {
                    assert(t[a] == g[a - 1] && t[b] == g[b - 1]);
                }
            }
        },
    }
}

} // verus!
