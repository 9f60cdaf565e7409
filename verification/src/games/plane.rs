//! Plane Battle: fly, shoot, and dodge enemy planes and their bullets; three
//! lives. Positions and timers are continuous and kept by the caller; this is
//! the controls, the lives and the score.

use vstd::prelude::*;
use crate::input::Action;
use crate::canvas::{
    Canvas, Cell, Color, box_left, drawn_on, lemma_put_str_cell_covered, lemma_put_str_cell_outside, lemma_wrap_column_small,
    lines_shown, put_str_cell,
    spec_empty_cell, spec_str_width, str_width, wrap_column,
};
use crate::games::GameId;
use crate::menu::{item_line, item_text};
use crate::games::breakout::{in_spans, panel_row, text_cols};
use crate::col;
use crate::lang::{Ui, filled, fmt, texts};
use crate::score::ScoreFile;
use crate::text::{dec_chars, dec_string, repeat_char};

verus! {

/// Lives at the start.
pub const MAX_LIVES: i32 = 3;
/// The most player bullets in flight at once.
pub const MAX_BULLETS: usize = 12;

/// Points for downing an enemy of `kind` (0 normal, 1 fast, 2 heavy).
pub open spec fn spec_enemy_points(kind: u8) -> u32 {
    if kind == 0 {
        10
    } else if kind == 1 {
        15
    } else {
        30
    }
}

/// Hit points of a new enemy of `kind`.
pub open spec fn spec_enemy_hp(kind: u8) -> i32 {
    if kind == 2 {
        3
    } else {
        1
    }
}

/// Points for downing an enemy of `kind`: 10 normal, 15 fast, 30 heavy.
pub fn enemy_points(kind: u8) -> (p: u32)
    ensures
        p == spec_enemy_points(kind),
        kind == 0 ==> p == 10,
        kind == 1 ==> p == 15,
        kind >= 2 ==> p == 30,
{
    match kind {
        0 => 10,
        1 => 15,
        _ => 30,
    }
}

/// Hit points of a new enemy of `kind`: three for heavy, one otherwise.
pub fn enemy_hp(kind: u8) -> (hp: i32)
    ensures
        hp == spec_enemy_hp(kind),
        kind == 2 ==> hp == 3,
        kind != 2 ==> hp == 1,
{
    if kind == 2 {
        3
    } else {
        1
    }
}

/// A normal enemy is worth 10 points, a fast one 15 and a heavy one 30, so
/// the faster and the sturdier an enemy, the more it is worth; a heavy enemy
/// takes three hits and the others one.
pub proof fn sturdier_enemies_are_worth_more()
    ensures
        spec_enemy_points(0) == 10,
        spec_enemy_points(1) == 15,
        spec_enemy_points(2) == 30,
        spec_enemy_points(0) < spec_enemy_points(1) < spec_enemy_points(2),
        spec_enemy_hp(0) == 1,
        spec_enemy_hp(1) == 1,
        spec_enemy_hp(2) == 3,
{
}

/// The direction along one axis from two held keys: 1, -1, or 0 for
/// neither or both.
pub fn axis(pos_held: bool, neg_held: bool) -> (d: i32)
    ensures
        d == (if pos_held { 1int } else { 0 }) - (if neg_held { 1int } else { 0 }),
{
    let p: i32 = if pos_held {
        1
    } else {
        0
    };
    let n: i32 = if neg_held {
        1
    } else {
        0
    };
    p - n
}

/// Whether another player bullet may be fired with `in_flight` in the air.
pub fn can_fire(in_flight: usize) -> (r: bool)
    ensures
        r == (in_flight < 12),
{
    in_flight < MAX_BULLETS
}

/// One heart per life left (none when no life is left).
pub open spec fn hearts(lives: i32) -> Seq<char> {
    Seq::new(
        if lives > 0 {
            lives as nat
        } else {
            0
        },
        |k: int| '♥',
    )
}

/// The panel's score text in the texts of `t`.
pub open spec fn score_text(t: &Ui, score: u32) -> Seq<char> {
    filled(t.score_fmt@, seq![dec_chars(score as nat)], 0)
}

/// The panel's lives text in the texts of `t`.
pub open spec fn lives_text(t: &Ui, lives: i32) -> Seq<char> {
    filled(t.lives_fmt@, seq![hearts(lives)], 0)
}

/// One of the first `n` cells of `cells`, offset by `(ox, oy)`, is at
/// column `i`, row `j`.
pub open spec fn covers(cells: Seq<(usize, usize)>, n: int, ox: usize, oy: usize, i: int, j: int) -> bool {
    exists|k: int| 0 <= k < n && ox.wrapping_add(cells[k].0) == i && oy.wrapping_add(cells[k].1) == j
}

/// The kind of the last of the first `n` enemies of `es`, offset by
/// `(ox, oy)`, at column `i`, row `j`, if any.
pub open spec fn enemy_at(es: Seq<(usize, usize, u8)>, n: int, ox: usize, oy: usize, i: int, j: int) -> Option<u8>
    decreases n,
{
    if n <= 0 {
        None
    } else if ox.wrapping_add(es[n - 1].0) == i && oy.wrapping_add(es[n - 1].1) == j {
        Some(es[n - 1].2)
    } else {
        enemy_at(es, n - 1, ox, oy, i, j)
    }
}

/// Whether the last of the first `n` explosions of `xs`, offset by
/// `(ox, oy)`, at column `i`, row `j` is fresh, if there is one.
pub open spec fn explosion_at(xs: Seq<(usize, usize, bool)>, n: int, ox: usize, oy: usize, i: int, j: int) -> Option<bool>
    decreases n,
{
    if n <= 0 {
        None
    } else if ox.wrapping_add(xs[n - 1].0) == i && oy.wrapping_add(xs[n - 1].1) == j {
        Some(xs[n - 1].2)
    } else {
        explosion_at(xs, n - 1, ox, oy, i, j)
    }
}

/// An enemy of `kind`: a red `v` (normal), a magenta `V` (fast) or a purple
/// `M` (heavy).
pub open spec fn enemy_cell(kind: u8) -> Cell {
    if kind == 0 {
        Cell { ch: 'v', fg: Color::AnsiValue(col::RED), bg: Color::AnsiValue(col::BLACK) }
    } else if kind == 1 {
        Cell { ch: 'V', fg: Color::AnsiValue(col::MAGENTA), bg: Color::AnsiValue(col::BLACK) }
    } else {
        Cell { ch: 'M', fg: Color::AnsiValue(col::PURPLE), bg: Color::AnsiValue(col::BLACK) }
    }
}

/// An explosion: an orange `*` while fresh, then an orange `+`.
pub open spec fn explosion_cell(fresh: bool) -> Cell {
    Cell { ch: if fresh { '*' } else { '+' }, fg: Color::AnsiValue(col::ORANGE), bg: Color::AnsiValue(col::BLACK) }
}

/// A glyph `ch` in `fg` on black.
pub open spec fn glyph(ch: char, fg: u8) -> Cell {
    Cell { ch, fg: Color::AnsiValue(fg), bg: Color::AnsiValue(col::BLACK) }
}

/// How cell `(i, j)` of the field whose top-left corner is `(ox, oy)` shows,
/// the later kinds drawn over the earlier: explosions over health packs
/// over enemies over enemy bullets over the player's bullets over the
/// player (when shown), else `under`.
pub open spec fn field_glyph(
    player: (usize, usize),
    show_player: bool,
    bullets: Seq<(usize, usize)>,
    enemy_bullets: Seq<(usize, usize)>,
    enemies: Seq<(usize, usize, u8)>,
    packs: Seq<(usize, usize)>,
    explosions: Seq<(usize, usize, bool)>,
    ox: usize,
    oy: usize,
    i: int,
    j: int,
    under: Cell,
) -> Cell {
    if explosion_at(explosions, explosions.len() as int, ox, oy, i, j) is Some {
        explosion_cell(explosion_at(explosions, explosions.len() as int, ox, oy, i, j)->0)
    } else if covers(packs, packs.len() as int, ox, oy, i, j) {
        glyph('♥', col::PINK)
    } else if enemy_at(enemies, enemies.len() as int, ox, oy, i, j) is Some {
        enemy_cell(enemy_at(enemies, enemies.len() as int, ox, oy, i, j)->0)
    } else if covers(enemy_bullets, enemy_bullets.len() as int, ox, oy, i, j) {
        glyph('!', col::RED)
    } else if covers(bullets, bullets.len() as int, ox, oy, i, j) {
        glyph('|', col::YELLOW)
    } else if show_player && ox.wrapping_add(player.0) == i && oy.wrapping_add(player.1) == j {
        glyph('^', col::GREEN)
    } else {
        under
    }
}

/// The row of a pickup hint: the one above the player's.
pub open spec fn hint_row(oy: usize, player: (usize, usize)) -> int {
    let y = oy.wrapping_add(player.1);
    if y >= 1 {
        y - 1
    } else {
        0
    }
}

/// Some bullet's hit is enemy `e`.
pub open spec fn hit_by(hits: Seq<Option<usize>>, e: int) -> bool {
    exists|b: int| 0 <= b < hits.len() && #[trigger] hits[b] == Some(e as usize)
}

/// Enemy `e` is hit by some bullet and has no hit point left after losing one.
pub open spec fn downed(hp: Seq<i32>, hits: Seq<Option<usize>>, e: int) -> bool {
    hit_by(hits, e) && hp[e] - 1 <= 0
}

/// The points for the enemies among the first `n` that the hits down.
pub open spec fn hit_points(hp: Seq<i32>, kinds: Seq<u8>, hits: Seq<Option<usize>>, n: int) -> int
    decreases n,
{
    if n <= 0 {
        0
    } else {
        hit_points(hp, kinds, hits, n - 1) + if downed(hp, hits, n - 1) {
            spec_enemy_points(kinds[n - 1]) as int
        } else {
            0
        }
    }
}

proof fn lemma_hit_points_grow(hp: Seq<i32>, kinds: Seq<u8>, hits: Seq<Option<usize>>, k: int, n: int)
    requires
        0 <= k <= n,
    ensures
        0 <= hit_points(hp, kinds, hits, k) <= hit_points(hp, kinds, hits, n),
        hit_points(hp, kinds, hits, n) <= 30 * n,
    decreases n,
{
    if n > 0 {
        if k < n {
            lemma_hit_points_grow(hp, kinds, hits, k, n - 1);
        } else {
            lemma_hit_points_grow(hp, kinds, hits, n - 1, n - 1);
        }
    }
}

/// Marks which enemies some bullet hits: entry `e` is whether some
/// `hits[b]` is `Some(e)`.
fn hit_marks(n: usize, hits: &Vec<Option<usize>>) -> (m: Vec<bool>)
    ensures
        m@.len() == n,
        forall|e: int| 0 <= e < n ==> #[trigger] m@[e] == hit_by(hits@, e),
{
    let mut m: Vec<bool> = Vec::new();
    let mut e: usize = 0;
    while e < n
        invariant
            e <= n,
            m@.len() == e,
            forall|k: int| 0 <= k < e ==> !#[trigger] m@[k],
        decreases n - e,
    {
        m.push(false);
        e = e + 1;
    }
    let mut b: usize = 0;
    while b < hits.len()
        invariant
            b <= hits@.len(),
            m@.len() == n,
            forall|e: int| 0 <= e < n ==> #[trigger] m@[e] == exists|k: int| 0 <= k < b && #[trigger] hits@[k] == Some(e as usize),
        decreases hits@.len() - b,
    {
        let ghost before = m@;
        match hits[b] {
            Some(e) => {
                if e < n {
                    m.set(e, true);
                }
            },
            None => {},
        }
        proof {
            assert forall|e: int| 0 <= e < n implies #[trigger] m@[e] == exists|k: int| 0 <= k < b + 1 && #[trigger] hits@[k] == Some(e as usize) by {
                if hits@[b as int] == Some(e as usize) {
                    assert(0 <= b < b + 1 && hits@[b as int] == Some(e as usize));
                }
                if exists|k: int| 0 <= k < b + 1 && #[trigger] hits@[k] == Some(e as usize) {
                    let k = choose|k: int| 0 <= k < b + 1 && #[trigger] hits@[k] == Some(e as usize);
                    if k < b {
                        assert(before[e]);
                    }
                }
            }
        }
        b = b + 1;
    }
    m
}

/// The points that resolving `hits` against enemies of `kinds` with hit
/// points `hp` would add (see `resolve_hits`).
pub fn points_for_hits(hp: &Vec<i32>, kinds: &Vec<u8>, hits: &Vec<Option<usize>>) -> (g: u64)
    requires
        hp@.len() == kinds@.len(),
        kinds@.len() <= u32::MAX,
    ensures
        g == hit_points(hp@, kinds@, hits@, kinds@.len() as int),
{
    let n = kinds.len();
    let marks = hit_marks(n, hits);
    let mut g: u64 = 0;
    let mut e: usize = 0;
    while e < n
        invariant
            e <= n,
            n == kinds@.len(),
            hp@.len() == n,
            n <= u32::MAX,
            marks@.len() == n,
            forall|k: int| 0 <= k < n ==> #[trigger] marks@[k] == hit_by(hits@, k),
            g == hit_points(hp@, kinds@, hits@, e as int),
        decreases n - e,
    {
        proof {
            lemma_hit_points_grow(hp@, kinds@, hits@, e as int, e as int);
        }
        if marks[e] && hp[e] as i64 - 1 <= 0 {
            g = g + enemy_points(kinds[e]) as u64;
        }
        e = e + 1;
    }
    g
}

/// The controls held down, the lives and the score of a Plane Battle game.
pub struct PlaneState {
    pub left_held: bool,
    pub right_held: bool,
    pub up_held: bool,
    pub down_held: bool,
    pub shooting: bool,
    pub lives: i32,
    pub score: u32,
    pub over: bool,
}

impl PlaneState {
    /// Well-formedness: at most three lives (packs heal up to three).
    pub open spec fn wf(self) -> bool {
        self.lives <= 3
    }

    /// A new game: nothing held, three lives, no score.
    pub fn new() -> (s: PlaneState)
        ensures
            s.wf(),
            !s.left_held && !s.right_held && !s.up_held && !s.down_held && !s.shooting,
            s.lives == 3,
            s.score == 0,
            !s.over,
    {
        PlaneState {
            left_held: false,
            right_held: false,
            up_held: false,
            down_held: false,
            shooting: false,
            lives: MAX_LIVES,
            score: 0,
            over: false,
        }
    }

    /// One key action, ignored once the game is over: arrows press or
    /// release a direction, Space starts or stops shooting.
    pub fn handle(&mut self, a: Action)
        ensures
            old(self).wf() ==> final(self).wf(),
            old(self).over ==> *final(self) == *old(self),
            !old(self).over ==> *final(self) == match a {
                Action::Left => PlaneState { left_held: true, ..*old(self) },
                Action::Right => PlaneState { right_held: true, ..*old(self) },
                Action::Up => PlaneState { up_held: true, ..*old(self) },
                Action::Down => PlaneState { down_held: true, ..*old(self) },
                Action::ReleaseLeft => PlaneState { left_held: false, ..*old(self) },
                Action::ReleaseRight => PlaneState { right_held: false, ..*old(self) },
                Action::ReleaseUp => PlaneState { up_held: false, ..*old(self) },
                Action::ReleaseDown => PlaneState { down_held: false, ..*old(self) },
                Action::Space => PlaneState { shooting: true, ..*old(self) },
                Action::ReleaseSpace => PlaneState { shooting: false, ..*old(self) },
                _ => *old(self),
            },
    {
        if self.over {
            return;
        }
        match a {
            Action::Left => self.left_held = true,
            Action::Right => self.right_held = true,
            Action::Up => self.up_held = true,
            Action::Down => self.down_held = true,
            Action::ReleaseLeft => self.left_held = false,
            Action::ReleaseRight => self.right_held = false,
            Action::ReleaseUp => self.up_held = false,
            Action::ReleaseDown => self.down_held = false,
            Action::Space => self.shooting = true,
            Action::ReleaseSpace => self.shooting = false,
            _ => {},
        }
    }

    /// Resolves the player's bullets against the enemies: `hits[b]` is the
    /// enemy bullet `b` overlaps, if any. Each such bullet is used up (the
    /// first result); each enemy some bullet hits loses one hit point, and
    /// one left with none is downed (the second result) and scores its
    /// points (`spec_enemy_points`).
    pub fn resolve_hits(&mut self, hp: &mut Vec<i32>, kinds: &Vec<u8>, hits: &Vec<Option<usize>>) -> (r: (Vec<bool>, Vec<bool>))
        requires
            old(hp)@.len() == kinds@.len(),
            forall|b: int| 0 <= b < hits@.len() && (#[trigger] hits@[b]) is Some ==> hits@[b].unwrap() < kinds@.len(),
            forall|e: int| 0 <= e < kinds@.len() ==> #[trigger] old(hp)@[e] > i32::MIN,
            old(self).score + hit_points(old(hp)@, kinds@, hits@, kinds@.len() as int) <= u32::MAX,
        ensures
            old(self).wf() ==> final(self).wf(),
            r.0@.len() == hits@.len(),
            forall|b: int| 0 <= b < hits@.len() ==> #[trigger] r.0@[b] == hits@[b] is Some,
            final(hp)@.len() == old(hp)@.len(),
            forall|e: int|
                0 <= e < kinds@.len() ==> #[trigger] final(hp)@[e] == old(hp)@[e] - if hit_by(hits@, e) {
                    1int
                } else {
                    0int
                },
            r.1@.len() == kinds@.len(),
            forall|e: int| 0 <= e < kinds@.len() ==> #[trigger] r.1@[e] == downed(old(hp)@, hits@, e),
            *final(self) == (PlaneState {
                score: (old(self).score + hit_points(old(hp)@, kinds@, hits@, kinds@.len() as int)) as u32,
                ..*old(self)
            }),
    {
        let ghost hp0 = hp@;
        let ghost s0 = *self;
        let n = kinds.len();
        let mut used: Vec<bool> = Vec::new();
        let mut b: usize = 0;
        while b < hits.len()
            invariant
                b <= hits@.len(),
                used@.len() == b,
                forall|k: int| 0 <= k < b ==> #[trigger] used@[k] == hits@[k] is Some,
            decreases hits@.len() - b,
        {
            used.push(hits[b].is_some());
            b = b + 1;
        }
        let marks = hit_marks(n, hits);
        let mut down: Vec<bool> = Vec::new();
        let mut e: usize = 0;
        while e < n
            invariant
                e <= n,
                n == kinds@.len(),
                hp@.len() == n,
                hp0.len() == n,
                marks@.len() == n,
                down@.len() == e,
                forall|k: int| 0 <= k < n ==> #[trigger] marks@[k] == hit_by(hits@, k),
                forall|k: int| 0 <= k < n ==> #[trigger] hp0[k] > i32::MIN,
                forall|k: int| 0 <= k < e ==> #[trigger] hp@[k] == hp0[k] - if hit_by(hits@, k) { 1int } else { 0int },
                forall|k: int| e <= k < n ==> #[trigger] hp@[k] == hp0[k],
                forall|k: int| 0 <= k < e ==> #[trigger] down@[k] == downed(hp0, hits@, k),
                s0.score + hit_points(hp0, kinds@, hits@, n as int) <= u32::MAX,
                *self == (PlaneState { score: (s0.score + hit_points(hp0, kinds@, hits@, e as int)) as u32, ..s0 }),
            decreases n - e,
        {
            proof {
                lemma_hit_points_grow(hp0, kinds@, hits@, e + 1, n as int);
                lemma_hit_points_grow(hp0, kinds@, hits@, e as int, n as int);
                assert(self.score == s0.score + hit_points(hp0, kinds@, hits@, e as int));
                assert(hp@[e as int] == hp0[e as int]);
                assert(marks@[e as int] == hit_by(hits@, e as int));
                assert(hit_points(hp0, kinds@, hits@, e + 1) == hit_points(hp0, kinds@, hits@, e as int) + if downed(hp0, hits@, e as int) {
                    spec_enemy_points(kinds@[e as int]) as int
                } else {
                    0
                });
            }
            if marks[e] {
                let v = hp[e] - 1;
                hp.set(e, v);
                if v <= 0 {
                    self.award(kinds[e]);
                    down.push(true);
                } else {
                    down.push(false);
                }
            } else {
                down.push(false);
            }
            e = e + 1;
        }
        (used, down)
    }

    /// An enemy of `kind` was downed: its points are added.
    pub fn award(&mut self, kind: u8)
        requires
            old(self).score + spec_enemy_points(kind) <= u32::MAX,
        ensures
            old(self).wf() ==> final(self).wf(),
            *final(self) == (PlaneState { score: (old(self).score + spec_enemy_points(kind)) as u32, ..*old(self) }),
    {
        self.score = self.score + enemy_points(kind);
    }

    /// The player was struck. While invulnerable nothing happens (false);
    /// otherwise a life is lost, the game ends when none is left, and the
    /// caller starts the invulnerability time (true).
    pub fn hit_player(&mut self, invulnerable: bool) -> (hurt: bool)
        requires
            old(self).lives > i32::MIN,
        ensures
            old(self).wf() ==> final(self).wf(),
            hurt == !invulnerable,
            invulnerable ==> *final(self) == *old(self),
            !invulnerable ==> *final(self) == (PlaneState {
                lives: (old(self).lives - 1) as i32,
                over: old(self).over || old(self).lives - 1 <= 0,
                ..*old(self)
            }),
    {
        if invulnerable {
            return false;
        }
        self.lives = self.lives - 1;
        if self.lives <= 0 {
            self.over = true;
        }
        true
    }

    /// A health pack was caught: one more life unless already at three.
    /// Returns whether a life was gained.
    pub fn heal(&mut self) -> (gained: bool)
        requires
            old(self).wf(),
        ensures
            final(self).wf(),
            gained == (old(self).lives < 3),
            *final(self) == (PlaneState {
                lives: if gained {
                    (old(self).lives + 1) as i32
                } else {
                    old(self).lives
                },
                ..*old(self)
            }),
            final(self).lives == (if old(self).lives + 1 < 3 { old(self).lives + 1 } else { 3 }),
    {
        if self.lives < MAX_LIVES {
            self.lives = self.lives + 1;
            true
        } else {
            false
        }
    }

    /// An enemy got past the bottom: a life is lost unless the game is
    /// already over, and the game ends when none is left.
    pub fn base_hit(&mut self)
        requires
            old(self).lives > i32::MIN,
        ensures
            old(self).wf() ==> final(self).wf(),
            old(self).over ==> *final(self) == *old(self),
            !old(self).over ==> *final(self) == (PlaneState {
                lives: (old(self).lives - 1) as i32,
                over: old(self).lives - 1 <= 0,
                ..*old(self)
            }),
    {
        if !self.over {
            self.lives = self.lives - 1;
            if self.lives <= 0 {
                self.over = true;
            }
        }
    }

    /// Puts one glyph, `ch` in `fg` on black, at each cell of `cells`,
    /// offset by `(ox, oy)`; every other cell stays as it was.
    fn put_all(c: &mut Canvas, ox: usize, oy: usize, cells: &Vec<(usize, usize)>, ch: char, fg: u8)
        requires
            old(c).wf(),
        ensures
            drawn_on(*final(c), *old(c)),
            forall|i: int, j: int|
                0 <= i < old(c).width() && 0 <= j < old(c).height() ==> #[trigger] final(c).cell(i, j) == if covers(
                    cells@,
                    cells@.len() as int,
                    ox,
                    oy,
                    i,
                    j,
                ) {
                    Cell { ch, fg: Color::AnsiValue(fg), bg: Color::AnsiValue(col::BLACK) }
                } else {
                    old(c).cell(i, j)
                },
    {
        let ghost glyph = Cell { ch, fg: Color::AnsiValue(fg), bg: Color::AnsiValue(col::BLACK) };
        let mut i: usize = 0;
        while i < cells.len()
            invariant
                i <= cells@.len(),
                drawn_on(*c, *old(c)),
                glyph == (Cell { ch, fg: Color::AnsiValue(fg), bg: Color::AnsiValue(col::BLACK) }),
                forall|x: int, y: int|
                    0 <= x < old(c).width() && 0 <= y < old(c).height() ==> #[trigger] c.cell(x, y) == if covers(
                        cells@,
                        i as int,
                        ox,
                        oy,
                        x,
                        y,
                    ) {
                        glyph
                    } else {
                        old(c).cell(x, y)
                    },
            decreases cells@.len() - i,
        {
            let ghost before = *c;
            let p = cells[i];
            c.put(ox.wrapping_add(p.0), oy.wrapping_add(p.1), ch, Color::AnsiValue(fg), Color::AnsiValue(col::BLACK));
            proof {
                assert forall|x: int, y: int|
                    0 <= x < old(c).width() && 0 <= y < old(c).height() implies #[trigger] c.cell(x, y) == if covers(
                        cells@,
                        i + 1,
                        ox,
                        oy,
                        x,
                        y,
                    ) {
                        glyph
                    } else {
                        old(c).cell(x, y)
                    } by {
                    assert(before.cell(x, y) == before.cell(x, y));
                    if covers(cells@, i as int, ox, oy, x, y) {
                        let k = choose|k: int|
                            0 <= k < i && ox.wrapping_add(cells@[k].0) == x && oy.wrapping_add(cells@[k].1) == y;
                        assert(0 <= k < i + 1 && ox.wrapping_add(cells@[k].0) == x && oy.wrapping_add(cells@[k].1) == y);
                    }
                    if ox.wrapping_add(p.0) == x && oy.wrapping_add(p.1) == y {
                        assert(cells@[i as int] == p);
                        assert(0 <= i < i + 1 && ox.wrapping_add(cells@[i as int].0) == x && oy.wrapping_add(cells@[i as int].1)
                            == y);
                    }
                    if covers(cells@, i + 1, ox, oy, x, y) && !covers(cells@, i as int, ox, oy, x, y) {
                        let k = choose|k: int|
                            0 <= k < i + 1 && ox.wrapping_add(cells@[k].0) == x && oy.wrapping_add(cells@[k].1) == y;
                        assert(k == i);
                    }
                }
            }
            i = i + 1;
        }
    }

    /// Puts each enemy of `es`, offset by `(ox, oy)`, as `enemy_cell` of its
    /// kind; every other cell stays as it was.
    fn put_enemies(c: &mut Canvas, ox: usize, oy: usize, es: &Vec<(usize, usize, u8)>)
        requires
            old(c).wf(),
        ensures
            drawn_on(*final(c), *old(c)),
            forall|i: int, j: int|
                0 <= i < old(c).width() && 0 <= j < old(c).height() ==> #[trigger] final(c).cell(i, j) == match enemy_at(
                    es@,
                    es@.len() as int,
                    ox,
                    oy,
                    i,
                    j,
                ) {
                    Some(k) => enemy_cell(k),
                    None => old(c).cell(i, j),
                },
    {
        let black = Color::AnsiValue(col::BLACK);
        let mut n: usize = 0;
        while n < es.len()
            invariant
                n <= es@.len(),
                black == Color::AnsiValue(col::BLACK),
                drawn_on(*c, *old(c)),
                forall|i: int, j: int|
                    0 <= i < old(c).width() && 0 <= j < old(c).height() ==> #[trigger] c.cell(i, j) == match enemy_at(
                        es@,
                        n as int,
                        ox,
                        oy,
                        i,
                        j,
                    ) {
                        Some(k) => enemy_cell(k),
                        None => old(c).cell(i, j),
                    },
            decreases es@.len() - n,
        {
            let ghost before = *c;
            let e = es[n];
            let (ch, fg) = if e.2 == 0 {
                ('v', col::RED)
            } else if e.2 == 1 {
                ('V', col::MAGENTA)
            } else {
                ('M', col::PURPLE)
            };
            c.put(ox.wrapping_add(e.0), oy.wrapping_add(e.1), ch, Color::AnsiValue(fg), black);
            proof {
                assert forall|i: int, j: int| 0 <= i < old(c).width() && 0 <= j < old(c).height() implies #[trigger] c.cell(
                    i,
                    j,
                ) == match enemy_at(es@, n + 1, ox, oy, i, j) {
                    Some(k) => enemy_cell(k),
                    None => old(c).cell(i, j),
                } by {
                    assert(es@[n as int] == e);
                    assert(before.cell(i, j) == before.cell(i, j));
                }
            }
            n = n + 1;
        }
    }

    /// Puts each explosion of `xs`, offset by `(ox, oy)`, as
    /// `explosion_cell`; every other cell stays as it was.
    fn put_explosions(c: &mut Canvas, ox: usize, oy: usize, xs: &Vec<(usize, usize, bool)>)
        requires
            old(c).wf(),
        ensures
            drawn_on(*final(c), *old(c)),
            forall|i: int, j: int|
                0 <= i < old(c).width() && 0 <= j < old(c).height() ==> #[trigger] final(c).cell(i, j) == match explosion_at(
                    xs@,
                    xs@.len() as int,
                    ox,
                    oy,
                    i,
                    j,
                ) {
                    Some(f) => explosion_cell(f),
                    None => old(c).cell(i, j),
                },
    {
        let black = Color::AnsiValue(col::BLACK);
        let mut n: usize = 0;
        while n < xs.len()
            invariant
                n <= xs@.len(),
                black == Color::AnsiValue(col::BLACK),
                drawn_on(*c, *old(c)),
                forall|i: int, j: int|
                    0 <= i < old(c).width() && 0 <= j < old(c).height() ==> #[trigger] c.cell(i, j) == match explosion_at(
                        xs@,
                        n as int,
                        ox,
                        oy,
                        i,
                        j,
                    ) {
                        Some(f) => explosion_cell(f),
                        None => old(c).cell(i, j),
                    },
            decreases xs@.len() - n,
        {
            let ghost before = *c;
            let e = xs[n];
            let ch = if e.2 {
                '*'
            } else {
                '+'
            };
            c.put(ox.wrapping_add(e.0), oy.wrapping_add(e.1), ch, Color::AnsiValue(col::ORANGE), black);
            proof {
                assert forall|i: int, j: int| 0 <= i < old(c).width() && 0 <= j < old(c).height() implies #[trigger] c.cell(
                    i,
                    j,
                ) == match explosion_at(xs@, n + 1, ox, oy, i, j) {
                    Some(f) => explosion_cell(f),
                    None => old(c).cell(i, j),
                } by {
                    assert(xs@[n as int] == e);
                    assert(before.cell(i, j) == before.cell(i, j));
                }
            }
            n = n + 1;
        }
    }

    /// The cells the panel's texts take: the title from the field's left
    /// column and the best record ending at its right edge on
    /// `panel_row(oy)`, and on the row below the score from the left column
    /// and the lives two columns after it.
    pub open spec fn panel_spans(self, scores: ScoreFile, t: Ui, ox: usize, oy: usize) -> Seq<(int, int, int)> {
        let py = panel_row(oy as int);
        let st = score_text(&t, self.score);
        let lt = lives_text(&t, self.lives);
        let high = item_text(GameId::Plane, scores, t);
        let a = if ox + text_cols(st) > usize::MAX {
            ox + text_cols(st) - usize::MAX - 1
        } else {
            ox + text_cols(st)
        };
        let lx = wrap_column((if a + 2 > usize::MAX { a + 2 - usize::MAX - 1 } else { a + 2 }) as usize);
        let hx = wrap_column(
            (if ox + 48 - text_cols(high) < 0 {
                ox + 48 - text_cols(high) + usize::MAX + 1
            } else {
                ox + 48 - text_cols(high)
            }) as usize,
        );
        seq![
            (py, ox as int, ox + spec_str_width(t.plane_title@)),
            (py + 1, ox as int, ox + spec_str_width(st)),
            (py + 1, lx, lx + spec_str_width(lt)),
            (py, hx, hx + spec_str_width(high)),
        ]
    }

    /// Draws the game: the frame, the player (unless `show_player` is off
    /// while it blinks), the player's and the enemies' bullets, the enemies
    /// by kind, the health packs, the explosions (`true` for a fresh one),
    /// the `hint` of a caught pack centered above the player, and the panel
    /// with title, score, lives and best record, and the key help, in the
    /// texts of `t`. The field is centred, or starts at the canvas's edge
    /// when the canvas is smaller, and is cut off at its right and bottom
    /// edges. When the score text fits the canvas, the panel's second row
    /// shows it in green and, two columns after it, one heart per life left
    /// in red (the cells these texts cover do not depend on what was drawn
    /// there before). On a canvas of any size a terminal has, every cell
    /// inside the frame that is on the canvas holds what `field_glyph` says:
    /// the player, the bullets, enemies, packs and explosions at their cells,
    /// each kind over the earlier ones, and blank elsewhere; this is not
    /// stated for the hint's row while a hint shows, the cells the panel's
    /// texts take (`panel_spans`), and the last column or row of a canvas
    /// that cuts the frame there. The best record shows in gray ending at the
    /// field's right edge and the title in yellow left of it on
    /// `panel_row(oy)`, and the key help in gray two rows below the field.
    #[verifier::rlimit(80)]
    #[verifier::spinoff_prover]
    pub fn draw(
        &self,
        c: &mut Canvas,
        player: (usize, usize),
        show_player: bool,
        bullets: &Vec<(usize, usize)>,
        enemy_bullets: &Vec<(usize, usize)>,
        enemies: &Vec<(usize, usize, u8)>,
        packs: &Vec<(usize, usize)>,
        explosions: &Vec<(usize, usize, bool)>,
        hint: Option<&str>,
        scores: &ScoreFile,
        t: &Ui,
    )
        requires
            old(c).wf(),
        ensures
            drawn_on(*final(c), *old(c)),
            ({
                let w = old(c).width() as int;
                let h = old(c).height() as int;
                let ox = box_left(w, 48);
                let oy = box_left(h, 20);
                let row = if oy >= 2 {
                    oy - 1
                } else {
                    1
                };
                let score = score_text(t, self.score);
                let lives = lives_text(t, self.lives);
                let lx = ox + spec_str_width(score) + 2;
                row < h && w <= usize::MAX / 2 && ox + spec_str_width(score) + 2 <= w ==> {
                    &&& forall|i: int|
                        ox <= i < ox + spec_str_width(score) && i < w ==> #[trigger] final(c).cell(i, row) == put_str_cell(
                            score,
                            ox,
                            i,
                            w,
                            Color::AnsiValue(col::GREEN),
                            Color::AnsiValue(col::BLACK),
                            spec_empty_cell(),
                        )
                    &&& forall|i: int|
                        lx <= i < lx + spec_str_width(lives) && i < w ==> #[trigger] final(c).cell(i, row) == put_str_cell(
                            lives,
                            lx,
                            i,
                            w,
                            Color::AnsiValue(col::RED),
                            Color::AnsiValue(col::BLACK),
                            spec_empty_cell(),
                        )
                }
            }),
            ({
                let w = old(c).width() as int;
                let h = old(c).height() as int;
                let ox = box_left(w, 48);
                let oy = box_left(h, 20);
                w <= usize::MAX / 2 ==> forall|i: int, j: int|
                    ox < i < ox + 47 && oy < j < oy + 19 && i < w && j < h && (hint is None || j != hint_row(oy as usize, player))
                        && !in_spans(self.panel_spans(*scores, *t, ox as usize, oy as usize), i, j) && !((i == w - 1 && ox + 47 >= w)
                        || (j == h - 1 && oy + 19 >= h)) ==> #[trigger] final(c).cell(i, j) == field_glyph(
                        player,
                        show_player,
                        bullets@,
                        enemy_bullets@,
                        enemies@,
                        packs@,
                        explosions@,
                        ox as usize,
                        oy as usize,
                        i,
                        j,
                        Cell { ch: ' ', fg: Color::AnsiValue(col::BLACK), bg: Color::AnsiValue(col::BLACK) },
                    )
            }),
            ({
                let w = old(c).width() as int;
                let h = old(c).height() as int;
                let ox = box_left(w, 48);
                let oy = box_left(h, 20);
                let high = item_text(GameId::Plane, *scores, *t);
                let hx = ox + 48 - spec_str_width(high);
                let py = panel_row(oy);
                w <= usize::MAX / 2 ==> {
                    &&& spec_str_width(high) <= ox + 48 ==> lines_shown(*final(c), seq![(py, high, col::GRAY)], hx, w)
                        && lines_shown(*final(c), seq![(py, t.plane_title@, col::YELLOW)], ox, hx)
                    &&& lines_shown(*final(c), seq![(oy + 21, t.plane_help@, col::GRAY)], ox, w)
                }
            }),
    {
        let black = Color::AnsiValue(col::BLACK);
        let w = c.w();
        let h = c.h();
        c.fill_rect(0, 0, w, h, ' ', black, black);
        let ox = w.saturating_sub(48) / 2;
        let oy = h.saturating_sub(20) / 2;
        c.border(ox, oy, 48, 20, Color::AnsiValue(col::CYAN));
        let ghost f0 = *c;
        if show_player {
            c.put(ox.wrapping_add(player.0), oy.wrapping_add(player.1), '^', Color::AnsiValue(col::GREEN), black);
        }
        let ghost f1 = *c;
        Self::put_all(c, ox, oy, bullets, '|', col::YELLOW);
        let ghost f2 = *c;
        Self::put_all(c, ox, oy, enemy_bullets, '!', col::RED);
        let ghost f3 = *c;
        Self::put_enemies(c, ox, oy, enemies);
        let ghost f4 = *c;
        Self::put_all(c, ox, oy, packs, '♥', col::PINK);
        let ghost f5 = *c;
        Self::put_explosions(c, ox, oy, explosions);
        let ghost f6 = *c;
        match hint {
            Some(text) => {
                let tx = ox.wrapping_add(player.0).saturating_sub(str_width(text) / 2);
                let ty = oy.wrapping_add(player.1).saturating_sub(1);
                c.put_str(tx, ty, text, Color::AnsiValue(col::GREEN), black);
            },
            None => {},
        }
        let ghost f7 = *c;
        let score_args = vec![dec_string(self.score as u64)];
        let score = fmt(t.score_fmt, score_args.as_slice());
        let n = if self.lives > 0 {
            self.lives as usize
        } else {
            0
        };
        let lives_args = vec![repeat_char('♥', n)];
        let lives = fmt(t.lives_fmt, lives_args.as_slice());
        proof {
            assert(texts(score_args@) =~= seq![dec_chars(self.score as nat)]);
            assert(texts(lives_args@) =~= seq![hearts(self.lives)]);
            assert(score@ == score_text(t, self.score));
            assert(lives@ == lives_text(t, self.lives));
        }
        let high = item_line(GameId::Plane, scores, t);
        let py = oy.saturating_sub(2);
        let ghost before_title = *c;
        c.put_str(ox, py, t.plane_title, Color::AnsiValue(col::YELLOW), black);
        let ghost before_score = *c;
        c.put_str(ox, py + 1, score.as_str(), Color::AnsiValue(col::GREEN), black);
        let ghost after_score = *c;
        let sw = str_width(score.as_str());
        let lx = ox.wrapping_add(sw).wrapping_add(2);
        c.put_str(lx, py + 1, lives.as_str(), Color::AnsiValue(col::RED), black);
        let ghost after_lives = *c;
        let hw = str_width(high.as_str());
        let hx = (ox + 48).wrapping_sub(hw);
        c.put_str(hx, py, high.as_str(), Color::AnsiValue(col::GRAY), black);
        let ghost after_high = *c;
        c.put_str(ox, oy + 20 + 1, t.plane_help, Color::AnsiValue(col::GRAY), black);
        proof {
            let wi = w as int;
            let bl = Color::AnsiValue(0);
            let pyi = panel_row(oy as int);
            assert(py == pyi);
            if w <= usize::MAX / 2 {
                lemma_wrap_column_small(ox);
                let high_t = item_text(GameId::Plane, *scores, *t);
                if spec_str_width(high_t) <= ox + 48 {
                    vstd::arithmetic::div_mod::lemma_small_mod(spec_str_width(high_t), usize::MAX as nat + 1);
                    assert(hw == spec_str_width(high_t));
                    let hxi = ox + 48 - spec_str_width(high_t);
                    assert(hx == hxi);
                    lemma_wrap_column_small(hx);
                    let lh = seq![(pyi as int, high_t, col::GRAY)];
                    assert forall|k: int, i: int|
                        0 <= k < lh.len() && 0 <= lh[k].0 < c.height() && hxi <= i < hxi + spec_str_width(lh[k].1) && i < wi && i < c.width()
                            implies #[trigger] c.cell(i, lh[k].0) == put_str_cell(lh[k].1, hxi, i, c.width() as int, Color::AnsiValue(lh[k].2), bl, spec_empty_cell()) by {
                        assert(lh[k] == (pyi as int, high_t, col::GRAY));
                        lemma_put_str_cell_covered(high_t, hxi, i, wi, Color::AnsiValue(col::GRAY), bl, after_lives.cell(i, pyi), spec_empty_cell());
                    }
                    let lt = seq![(pyi as int, t.plane_title@, col::YELLOW)];
                    assert forall|k: int, i: int|
                        0 <= k < lt.len() && 0 <= lt[k].0 < c.height() && ox <= i < ox + spec_str_width(lt[k].1) && i < hxi && i < c.width()
                            implies #[trigger] c.cell(i, lt[k].0) == put_str_cell(lt[k].1, ox as int, i, c.width() as int, Color::AnsiValue(lt[k].2), bl, spec_empty_cell()) by {
                        assert(lt[k] == (pyi as int, t.plane_title@, col::YELLOW));
                        lemma_put_str_cell_covered(t.plane_title@, ox as int, i, wi, Color::AnsiValue(col::YELLOW), bl, before_title.cell(i, pyi), spec_empty_cell());
                        assert(after_score.cell(i, pyi) == before_score.cell(i, pyi));
                        assert(after_lives.cell(i, pyi) == after_score.cell(i, pyi));
                        assert(after_high.cell(i, pyi) == after_lives.cell(i, pyi));
                    }
                }
                let lp = seq![((oy + 21) as int, t.plane_help@, col::GRAY)];
                assert forall|k: int, i: int|
                    0 <= k < lp.len() && 0 <= lp[k].0 < c.height() && ox <= i < ox + spec_str_width(lp[k].1) && i < wi && i < c.width()
                        implies #[trigger] c.cell(i, lp[k].0) == put_str_cell(lp[k].1, ox as int, i, c.width() as int, Color::AnsiValue(lp[k].2), bl, spec_empty_cell()) by {
                    assert(lp[k] == ((oy + 21) as int, t.plane_help@, col::GRAY));
                    lemma_put_str_cell_covered(t.plane_help@, ox as int, i, wi, Color::AnsiValue(col::GRAY), bl, after_high.cell(i, oy + 21), spec_empty_cell());
                }
            }
        }
        proof {
            let wi = w as int;
            let row = py + 1;
            let st = score_text(t, self.score);
            let lt = lives_text(t, self.lives);
            if row < h && w <= usize::MAX / 2 && box_left(wi, 48) + spec_str_width(st) + 2 <= wi {
                vstd::arithmetic::div_mod::lemma_small_mod(spec_str_width(st), usize::MAX as nat + 1);
                assert(sw == spec_str_width(st));
                assert(ox == box_left(wi, 48));
                assert(oy == box_left(h as int, 20));
                assert(row == if oy >= 2 { oy - 1 } else { 1 });
                assert(wrap_column(ox) == ox);
                assert(lx == ox + spec_str_width(st) + 2);
                assert(wrap_column(lx) == lx);
                assert forall|i: int| ox <= i < ox + spec_str_width(st) && i < wi implies #[trigger] c.cell(i, row as int)
                    == put_str_cell(st, ox as int, i, wi, Color::AnsiValue(col::GREEN), Color::AnsiValue(col::BLACK), spec_empty_cell()) by {
                    lemma_put_str_cell_covered(
                        st,
                        ox as int,
                        i,
                        wi,
                        Color::AnsiValue(col::GREEN),
                        Color::AnsiValue(col::BLACK),
                        before_score.cell(i, row as int),
                        spec_empty_cell(),
                    );
                    assert(after_lives.cell(i, row as int) == after_score.cell(i, row as int));
                    assert(after_high.cell(i, row as int) == after_lives.cell(i, row as int));
                }
                assert forall|i: int| lx <= i < lx + spec_str_width(lt) && i < wi implies #[trigger] c.cell(i, row as int)
                    == put_str_cell(lt, lx as int, i, wi, Color::AnsiValue(col::RED), Color::AnsiValue(col::BLACK), spec_empty_cell()) by {
                    lemma_put_str_cell_covered(
                        lt,
                        lx as int,
                        i,
                        wi,
                        Color::AnsiValue(col::RED),
                        Color::AnsiValue(col::BLACK),
                        after_score.cell(i, row as int),
                        spec_empty_cell(),
                    );
                    assert(after_high.cell(i, row as int) == after_lives.cell(i, row as int));
                }
            }
            if w <= usize::MAX / 2 {
                let fill = Cell { ch: ' ', fg: Color::AnsiValue(col::BLACK), bg: Color::AnsiValue(col::BLACK) };
                assert(ox == box_left(wi, 48));
                assert(oy == box_left(h as int, 20));
                let spans = self.panel_spans(*scores, *t, ox, oy);
                let pyi = panel_row(oy as int);
                assert(py == pyi);
                lemma_wrap_column_small(ox);
                assert(hw == text_cols(item_text(GameId::Plane, *scores, *t)));
                assert(sw == text_cols(score_text(t, self.score)));
                assert(wrap_column(lx) == spans[2].1);
                assert(wrap_column(hx) == spans[3].1);
                assert forall|i: int, j: int|
                    0 <= i < wi && 0 <= j < h && j != oy + 21 && !in_spans(spans, i, j) implies #[trigger] c.cell(i, j) == f7.cell(i, j) by {
                    if j == pyi {
                        assert(!(spans[0].0 == j && spans[0].1 <= i < spans[0].2));
                        assert(!(spans[3].0 == j && spans[3].1 <= i < spans[3].2));
                        lemma_put_str_cell_outside(t.plane_title@, ox as int, i, wi, Color::AnsiValue(col::YELLOW), Color::AnsiValue(col::BLACK), before_title.cell(i, j));
                        lemma_put_str_cell_outside(high@, wrap_column(hx), i, wi, Color::AnsiValue(col::GRAY), Color::AnsiValue(col::BLACK), after_lives.cell(i, j));
                    } else if j == pyi + 1 {
                        assert(!(spans[1].0 == j && spans[1].1 <= i < spans[1].2));
                        assert(!(spans[2].0 == j && spans[2].1 <= i < spans[2].2));
                        lemma_put_str_cell_outside(score@, ox as int, i, wi, Color::AnsiValue(col::GREEN), Color::AnsiValue(col::BLACK), before_score.cell(i, j));
                        lemma_put_str_cell_outside(lives@, wrap_column(lx), i, wi, Color::AnsiValue(col::RED), Color::AnsiValue(col::BLACK), after_score.cell(i, j));
                    }
                }
                assert forall|i: int, j: int|
                    ox < i < ox + 47 && oy < j < oy + 19 && i < wi && j < h && (hint is None || j != hint_row(oy, player)) && !in_spans(spans, i, j)
                        && !((i == wi - 1 && ox + 47 >= wi) || (j == h - 1 && oy + 19 >= h)) implies #[trigger] c.cell(i, j)
                        == field_glyph(player, show_player, bullets@, enemy_bullets@, enemies@, packs@, explosions@, ox, oy, i, j, fill) by {
                    assert(f0.cell(i, j) == fill);
                    assert(f1.cell(i, j) == if show_player && ox.wrapping_add(player.0) == i && oy.wrapping_add(player.1) == j {
                        glyph('^', col::GREEN)
                    } else {
                        fill
                    });
                    assert(f2.cell(i, j) == if covers(bullets@, bullets@.len() as int, ox, oy, i, j) { glyph('|', col::YELLOW) } else { f1.cell(i, j) });
                    assert(f3.cell(i, j) == if covers(enemy_bullets@, enemy_bullets@.len() as int, ox, oy, i, j) { glyph('!', col::RED) } else { f2.cell(i, j) });
                    assert(f5.cell(i, j) == if covers(packs@, packs@.len() as int, ox, oy, i, j) { glyph('♥', col::PINK) } else { f4.cell(i, j) });
                    assert(f7.cell(i, j) == f6.cell(i, j));
                    assert(j != oy + 21);
                    assert(c.cell(i, j) == f7.cell(i, j));
                }
            }
        }
    }

}

} // verus!
