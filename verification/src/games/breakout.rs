//! Breakout: keep the ball in play and break every brick; three lives, one
//! lost each time the ball falls past the paddle. The ball and paddle move
//! in continuous coordinates, kept by the caller; this is the wall of bricks,
//! the score and the lives.

use vstd::prelude::*;
use crate::canvas::{
    Canvas, Cell, Color, drawn_on, lemma_put_str_cell_covered, lemma_put_str_cell_left, lemma_put_str_cell_outside,
    lemma_wrap_column_small, lines_shown, put_str_cell,
    spec_empty_cell, spec_str_width, str_width, wrap_column,
};
use crate::col;
use crate::games::GameId;
use crate::lang::{Ui, fmt, texts};
use crate::games::plane::{hearts, lives_text, score_text};
use crate::menu::{item_line, item_text};
use crate::score::ScoreFile;
use crate::text::{dec_chars, dec_string, repeat_char};

verus! {

/// Brick columns.
pub const BRICK_COLS: usize = 9;
/// Brick rows.
pub const BRICK_ROWS: usize = 6;
/// Lives at the start, and the most one can have.
pub const MAX_LIVES: i32 = 3;

/// Number of standing bricks among the first `n` of `row`.
pub open spec fn row_count(row: Seq<bool>, n: int) -> nat
    decreases n,
{
    if n <= 0 {
        0
    } else {
        row_count(row, n - 1) + if row[n - 1] {
            1nat
        } else {
            0nat
        }
    }
}

/// Number of standing bricks in the first `m` rows of `g`.
pub open spec fn wall_count(g: Seq<Seq<bool>>, m: int) -> nat
    decreases m,
{
    if m <= 0 {
        0
    } else {
        wall_count(g, m - 1) + row_count(g[m - 1], 9)
    }
}

/// Knocking out a standing brick lowers its row's count by one.
proof fn lemma_row_count_clear(row: Seq<bool>, n: int, c: int)
    requires
        0 <= c < n,
        n <= row.len(),
        row[c],
    ensures
        row_count(row.update(c, false), n) + 1 == row_count(row, n),
    decreases n,
{
    if n - 1 > c {
        lemma_row_count_clear(row, n - 1, c);
    } else {
        lemma_row_count_same(row, row.update(c, false), n - 1);
    }
}

/// Rows that agree on the first `n` cells count the same.
proof fn lemma_row_count_same(a: Seq<bool>, b: Seq<bool>, n: int)
    requires
        n <= a.len(),
        n <= b.len(),
        forall|i: int| 0 <= i < n ==> a[i] == b[i],
    ensures
        row_count(a, n) == row_count(b, n),
    decreases n,
{
    if n > 0 {
        lemma_row_count_same(a, b, n - 1);
    }
}

/// Walls that agree on the first `m` rows count the same.
proof fn lemma_wall_count_same(a: Seq<Seq<bool>>, b: Seq<Seq<bool>>, m: int)
    requires
        m <= a.len(),
        m <= b.len(),
        forall|i: int| 0 <= i < m ==> a[i] == b[i],
    ensures
        wall_count(a, m) == wall_count(b, m),
    decreases m,
{
    if m > 0 {
        lemma_wall_count_same(a, b, m - 1);
    }
}

/// Knocking out a standing brick lowers the wall's count by one.
proof fn lemma_wall_count_clear(g: Seq<Seq<bool>>, m: int, r: int, c: int)
    requires
        0 <= r < m,
        m <= g.len(),
        0 <= c < 9,
        g[r].len() == 9,
        g[r][c],
    ensures
        wall_count(g.update(r, g[r].update(c, false)), m) + 1 == wall_count(g, m),
    decreases m,
{
    let h = g.update(r, g[r].update(c, false));
    if m - 1 > r {
        lemma_wall_count_clear(g, m - 1, r, c);
    } else {
        lemma_wall_count_same(g, h, m - 1);
        lemma_row_count_clear(g[r], 9, c);
    }
}

/// A count of `n` cells is at most `n`.
proof fn lemma_row_count_le(row: Seq<bool>, n: int)
    requires
        0 <= n,
    ensures
        row_count(row, n) <= n,
    decreases n,
{
    if n > 0 {
        lemma_row_count_le(row, n - 1);
    }
}

/// A count of `m` rows of nine is at most `9 * m`.
proof fn lemma_wall_count_le(g: Seq<Seq<bool>>, m: int)
    requires
        0 <= m,
    ensures
        wall_count(g, m) <= 9 * m,
    decreases m,
{
    if m > 0 {
        lemma_wall_count_le(g, m - 1);
        lemma_row_count_le(g[m - 1], 9);
    }
}

/// The full-wall count.
proof fn lemma_full_wall_count(g: Seq<Seq<bool>>, m: int)
    requires
        0 <= m <= g.len(),
        forall|r: int, c: int| 0 <= r < m && 0 <= c < 9 ==> #[trigger] g[r][c],
    ensures
        wall_count(g, m) == 9 * m,
    decreases m,
{
    if m > 0 {
        lemma_full_wall_count(g, m - 1);
        let row = g[m - 1];
        assert(row_count(row, 9) == 9) by {
            reveal_with_fuel(row_count, 10);
        }
    }
}

/// The canvas cell showing column `d` (of eight) of brick `(r, k)` of a
/// field drawn at `(ox, oy)`.
pub open spec fn brick_shown(c: Canvas, ox: int, oy: int, r: int, k: int, d: int) -> Cell {
    c.cell(ox + 2 + 8 * k + d, oy + 1 + r)
}

/// The canvas cell that shows field cell `p` of a field at `(ox, oy)`.
pub open spec fn field_shown(c: Canvas, ox: int, oy: int, p: (usize, usize)) -> Cell {
    c.cell(ox + 2 * p.0, oy + p.1)
}

/// Column `hh` of block `m` of a paddle whose left block is at field
/// column `col`, on the paddle's row.
pub open spec fn paddle_shown(c: Canvas, ox: int, oy: int, col: int, m: int, hh: int) -> Cell {
    c.cell(ox + 2 * (col + m) + hh, oy + 21)
}

/// Where the pickup hint starts: centred on the paddle's left end, clipped
/// at column 0.
pub open spec fn hint_left(ox: int, col: int, text: Seq<char>) -> int {
    let sx = ox + 2 * col;
    let half = spec_str_width(text) as int / 2;
    if sx >= half {
        sx - half
    } else {
        0
    }
}

/// The panel's first row, two rows above a field whose top row is `oy`
/// (row 0 when there is no room).
pub open spec fn panel_row(oy: int) -> int {
    if oy >= 2 {
        oy - 2
    } else {
        0
    }
}

/// Cell `(x, y)` is where the field's frame, cut off by a canvas `w` by `h`
/// that is too small for it, takes the last column or row instead.
pub open spec fn on_cut_frame(w: int, h: int, ox: int, oy: int, x: int, y: int) -> bool {
    (x == w - 1 && ox + 75 >= w) || (y == h - 1 && oy + 23 >= h)
}

/// The width of a text as a `usize` sum of character widths.
pub open spec fn text_cols(s: Seq<char>) -> int {
    spec_str_width(s) as int % (usize::MAX as int + 1)
}

/// Cell `(x, y)` lies in one of the spans `(row, from, to)`: on `row`, in
/// columns `from` to `to - 1`.
pub open spec fn in_spans(spans: Seq<(int, int, int)>, x: int, y: int) -> bool {
    exists|k: int| 0 <= k < spans.len() && (#[trigger] spans[k]).0 == y && spans[k].1 <= x < spans[k].2
}

/// The color index of brick row `r` (red, orange, yellow, green, cyan, blue
/// from the top).
pub open spec fn spec_row_color(r: int) -> u8 {
    [col::RED, col::ORANGE, col::YELLOW, col::GREEN, col::CYAN, col::BLUE]@[r]
}

/// How a brick cell of row `r` shows: a block in the row's color while the
/// brick stands, else `under`.
pub open spec fn brick_glyph(standing: bool, r: int, under: Cell) -> Cell {
    if standing {
        Cell { ch: '█', fg: Color::AnsiValue(spec_row_color(r)), bg: Color::AnsiValue(col::BLACK) }
    } else {
        under
    }
}

/// Canvas cell `(x, y)` is where the ball or a health pack is drawn on a
/// field at `(ox, oy)` (two columns per field cell).
pub open spec fn covers(ball: Option<(usize, usize)>, packs: Seq<(usize, usize)>, ox: int, oy: int, x: int, y: int) -> bool {
    ||| ball matches Some(b) && ox + 2 * b.0 == x && oy + b.1 == y
    ||| exists|m: int| 0 <= m < packs.len() && ox + 2 * packs[m].0 == x && oy + packs[m].1 == y
}

/// The wall, score and lives of a Breakout game.
pub struct BreakoutCore {
    /// `bricks[row][col]`: whether that brick still stands.
    pub bricks: Vec<Vec<bool>>,
    /// Bricks still standing.
    pub bricks_left: usize,
    pub lives: i32,
    pub score: u32,
    pub over: bool,
}

/// Draws the paddle (seven blocks from field column `paddle_col` on the
/// paddle's row), the ball, the health packs and the pickup hint of a field
/// at `(ox, oy)`; everything else stays as it was.
fn draw_pieces(
    c: &mut Canvas,
    ox: usize,
    oy: usize,
    paddle_col: usize,
    ball: Option<(usize, usize)>,
    packs: &Vec<(usize, usize)>,
    hint: Option<&str>,
)
    requires
    old(c).wf(),
    ox <= usize::MAX / 2,
    oy <= usize::MAX / 2,
    ensures
    drawn_on(*final(c), *old(c)),
    forall|x: int, y: int|
        0 <= x < old(c).width() && 0 <= y < old(c).height() && y != oy + 20 && y != oy + 21 && !covers(ball, packs@, ox as int, oy as int, x, y)
            ==> #[trigger] final(c).cell(x, y) == old(c).cell(x, y),
    ({
        let w = old(c).width() as int;
        let black = Color::AnsiValue(col::BLACK);
        w <= usize::MAX / 2 ==> {
            &&& forall|m: int, hh: int|
                0 <= m < 7 && 0 <= hh < 2 && ox + 2 * (paddle_col + m) + hh < w && oy + 21 < old(c).height() && !covers(
                    ball,
                    packs@,
                    ox as int,
                    oy as int,
                    ox + 2 * (paddle_col + m) + hh,
                    oy + 21,
                ) ==> #[trigger] paddle_shown(*final(c), ox as int, oy as int, paddle_col as int, m, hh) == (Cell {
                    ch: '█',
                    fg: Color::AnsiValue(col::YELLOW),
                    bg: black,
                })
            &&& (ball matches Some(b) && 0 < b.1 < 23 && ox + 2 * b.0 < w && oy + b.1 < old(c).height() && !packs@.contains(b)
                && !(hint is Some && b.1 == 20)) ==> field_shown(*final(c), ox as int, oy as int, ball.unwrap()) == (Cell {
                ch: '●',
                fg: Color::AnsiValue(col::WHITE),
                bg: black,
            })
            &&& forall|m: int|
                0 <= m < packs@.len() && 0 < packs@[m].1 < 23 && ox + 2 * packs@[m].0 < w && oy + packs@[m].1 < old(c).height()
                    && !(hint is Some && packs@[m].1 == 20) ==> #[trigger] field_shown(*final(c), ox as int, oy as int, packs@[m]) == (Cell {
                    ch: '♥',
                    fg: Color::AnsiValue(col::PINK),
                    bg: black,
                })
            &&& (hint matches Some(text) && ox + 2 * paddle_col < w && spec_str_width(text@) < w && oy + 20 < old(c).height())
                ==> forall|i: int|
                hint_left(ox as int, paddle_col as int, hint.unwrap()@) <= i < hint_left(ox as int, paddle_col as int, hint.unwrap()@)
                    + spec_str_width(hint.unwrap()@) && i < w ==> #[trigger] final(c).cell(i, oy + 20) == put_str_cell(
                    hint.unwrap()@,
                    hint_left(ox as int, paddle_col as int, hint.unwrap()@),
                    i,
                    w,
                    Color::AnsiValue(col::GREEN),
                    black,
                    spec_empty_cell(),
                )
        }
    }),
{
    let black = Color::AnsiValue(col::BLACK);
    let ghost c2 = *c;
    let mut i: usize = 0;
    while i < 7
        invariant
            i <= 7,
            ox <= usize::MAX / 2,
            oy <= usize::MAX / 2,
            black == Color::AnsiValue(col::BLACK),
            drawn_on(*c, c2),
            forall|x: int, y: int| 0 <= x < c2.width() && 0 <= y < c2.height() && y != oy + 21 ==> #[trigger] c.cell(x, y) == c2.cell(x, y),
            c2.width() <= usize::MAX / 2 && oy + 21 < c2.height() ==> forall|m: int, hh: int|
                0 <= m < i && 0 <= hh < 2 && ox + 2 * (paddle_col + m) + hh < c2.width() ==> #[trigger] paddle_shown(
                    *c,
                    ox as int,
                    oy as int,
                    paddle_col as int,
                    m,
                    hh,
                ) == (Cell { ch: '█', fg: Color::AnsiValue(col::YELLOW), bg: black }),
        decreases 7 - i,
    {
        let ghost before = *c;
        let pc = paddle_col.saturating_add(i);
        let px = ox.saturating_add(pc.saturating_add(pc));
        c.put_block(px, oy + 21, Color::AnsiValue(col::YELLOW), black);
        proof {
            if c2.width() <= usize::MAX / 2 && oy + 21 < c2.height() {
                assert forall|m: int, hh: int|
                    0 <= m < i + 1 && 0 <= hh < 2 && ox + 2 * (paddle_col + m) + hh < c2.width() implies #[trigger] paddle_shown(
                        *c,
                        ox as int,
                        oy as int,
                        paddle_col as int,
                        m,
                        hh,
                    ) == (Cell { ch: '█', fg: Color::AnsiValue(col::YELLOW), bg: black }) by {
                    let x = ox + 2 * (paddle_col + m) + hh;
                    if m == i {
                        assert(px == x - hh);
                    } else {
                        assert(paddle_shown(before, ox as int, oy as int, paddle_col as int, m, hh) == before.cell(x, oy + 21));
                    }
                }
            }
        }
        i = i + 1;
    }
    let ghost c3 = *c;
    match ball {
        Some((bx, by)) => {
            let sx = ox.saturating_add(bx.saturating_add(bx));
            let sy = oy.saturating_add(by);
            assert(sx == ox + 2 * bx || sx == usize::MAX);
            assert(sy == oy + by || sy == usize::MAX);
            c.put(sx, sy, '●', Color::AnsiValue(col::WHITE), black);
            proof {
                c3.lemma_nonempty();
                assert forall|x: int, y: int|
                    0 <= x < c3.width() && 0 <= y < c3.height() && !(x == ox + 2 * bx && y == oy + by) implies #[trigger] c.cell(x, y)
                        == c3.cell(x, y) by {
                    assert(x != sx || y != sy);
                }
            }
        },
        None => {},
    }
    let ghost c4 = *c;
    assert forall|x: int, y: int|
        0 <= x < c3.width() && 0 <= y < c3.height() && !(ball matches Some(b) && x == ox + 2 * b.0 && y == oy + b.1) implies #[trigger] c4.cell(
            x,
            y,
        ) == c3.cell(x, y) by {}
    let mut i: usize = 0;
    while i < packs.len()
        invariant
            i <= packs@.len(),
            ox <= usize::MAX / 2,
            oy <= usize::MAX / 2,
            black == Color::AnsiValue(col::BLACK),
            drawn_on(*c, c4),
            forall|x: int, y: int|
                0 <= x < c4.width() && 0 <= y < c4.height() && !(exists|m: int| 0 <= m < i && ox + 2 * packs@[m].0 == x && oy + packs@[m].1 == y)
                    ==> #[trigger] c.cell(x, y) == c4.cell(x, y),
            forall|m: int|
                0 <= m < i && ox + 2 * packs@[m].0 < c4.width() && oy + packs@[m].1 < c4.height() ==> #[trigger] field_shown(
                    *c,
                    ox as int,
                    oy as int,
                    packs@[m],
                ) == (Cell { ch: '♥', fg: Color::AnsiValue(col::PINK), bg: black }),
        decreases packs@.len() - i,
    {
        let ghost before = *c;
        let p = packs[i];
        let sx = ox.saturating_add(p.0.saturating_add(p.0));
        let sy = oy.saturating_add(p.1);
        assert(sx == ox + 2 * p.0 || sx == usize::MAX);
        assert(sy == oy + p.1 || sy == usize::MAX);
        c.put(sx, sy, '♥', Color::AnsiValue(col::PINK), black);
        proof {
            before.lemma_nonempty();
            assert forall|x: int, y: int|
                0 <= x < c4.width() && 0 <= y < c4.height() && !(exists|m: int| 0 <= m < i + 1 && ox + 2 * packs@[m].0 == x && oy + packs@[m].1 == y)
                    implies #[trigger] c.cell(x, y) == c4.cell(x, y) by {
                assert(before.cell(x, y) == before.cell(x, y));
                if ox + 2 * p.0 == x && oy + p.1 == y {
                    assert(0 <= i < i + 1 && ox + 2 * packs@[i as int].0 == x && oy + packs@[i as int].1 == y);
                }
                assert(x != sx || y != sy);
            }
            assert forall|m: int|
                0 <= m < i + 1 && ox + 2 * packs@[m].0 < c4.width() && oy + packs@[m].1 < c4.height() implies #[trigger] field_shown(
                    *c,
                    ox as int,
                    oy as int,
                    packs@[m],
                ) == (Cell { ch: '♥', fg: Color::AnsiValue(col::PINK), bg: black }) by {
                if m < i {
                    assert(field_shown(before, ox as int, oy as int, packs@[m]) == before.cell(ox + 2 * packs@[m].0, oy + packs@[m].1));
                }
            }
        }
        i = i + 1;
    }
    let ghost c5 = *c;
    match hint {
        Some(text) => {
            let sx = ox.saturating_add(paddle_col.saturating_add(paddle_col));
            let sy = (oy + 21).saturating_sub(1);
            let sw = str_width(text);
            let tx = sx.saturating_sub(sw / 2);
            c.put_str(tx, sy, text, Color::AnsiValue(col::GREEN), black);
            proof {
                let w = c2.width() as int;
                if w <= usize::MAX / 2 && oy + 20 < c2.height() && ox + 2 * paddle_col < w && spec_str_width(text@) < w {
                    vstd::arithmetic::div_mod::lemma_small_mod(spec_str_width(text@), (usize::MAX as int + 1) as nat);
                    assert(sw == spec_str_width(text@));
                    assert(sx == ox + 2 * paddle_col);
                    let ltx = hint_left(ox as int, paddle_col as int, text@);
                    assert(tx == ltx);
                    assert(wrap_column(tx) == ltx);
                    assert forall|i: int|
                        ltx <= i < ltx + spec_str_width(text@) && i < w implies #[trigger] c.cell(i, oy + 20) == put_str_cell(
                            text@,
                            ltx,
                            i,
                            w,
                            Color::AnsiValue(col::GREEN),
                            black,
                            spec_empty_cell(),
                        ) by {
                        lemma_put_str_cell_covered(
                            text@,
                            ltx,
                            i,
                            w,
                            Color::AnsiValue(col::GREEN),
                            black,
                            c5.cell(i, oy + 20),
                            spec_empty_cell(),
                        );
                    }
                }
            }
        },
        None => {},
    }
    let ghost c6 = *c;
    proof {
        let w = c2.width() as int;
        assert forall|x: int, y: int|
            0 <= x < c2.width() && 0 <= y < c2.height() && y != oy + 20 && y != oy + 21 && !covers(ball, packs@, ox as int, oy as int, x, y)
                implies #[trigger] c.cell(x, y) == c2.cell(x, y) by {
            assert(c3.cell(x, y) == c2.cell(x, y));
            assert(c4.cell(x, y) == c3.cell(x, y));
            assert(c5.cell(x, y) == c4.cell(x, y));
        }
        if w <= usize::MAX / 2 {
            assert forall|m: int, hh: int|
                0 <= m < 7 && 0 <= hh < 2 && ox + 2 * (paddle_col + m) + hh < w && oy + 21 < c2.height() && !covers(
                    ball,
                    packs@,
                    ox as int,
                    oy as int,
                    ox + 2 * (paddle_col + m) + hh,
                    oy + 21,
                ) implies #[trigger] paddle_shown(*c, ox as int, oy as int, paddle_col as int, m, hh) == (Cell {
                    ch: '█',
                    fg: Color::AnsiValue(col::YELLOW),
                    bg: black,
                }) by {
                let x = ox + 2 * (paddle_col + m) + hh;
                let y = oy + 21;
                assert(paddle_shown(c3, ox as int, oy as int, paddle_col as int, m, hh) == c3.cell(x, y));
                assert(c4.cell(x, y) == c3.cell(x, y));
                assert(c5.cell(x, y) == c4.cell(x, y));
                assert(c.cell(x, y) == c5.cell(x, y));
            }
            match ball {
                Some(b) => {
                    if 0 < b.1 < 23 && ox + 2 * b.0 < w && oy + b.1 < c2.height() && !packs@.contains(b) && !(hint is Some && b.1 == 20) {
                        let x = ox + 2 * b.0;
                        let y = oy + b.1;
                        assert(c4.cell(x, y) == (Cell { ch: '●', fg: Color::AnsiValue(col::WHITE), bg: black }));
                        assert forall|m: int| 0 <= m < packs@.len() implies !(ox + 2 * packs@[m].0 == x && oy + packs@[m].1 == y) by {
                            if ox + 2 * packs@[m].0 == x && oy + packs@[m].1 == y {
                                assert(packs@[m] == b);
                            }
                        }
                        assert(c5.cell(x, y) == c4.cell(x, y));
                        assert(c.cell(x, y) == c5.cell(x, y));
                    }
                },
                None => {},
            }
            assert forall|m: int|
                0 <= m < packs@.len() && 0 < packs@[m].1 < 23 && ox + 2 * packs@[m].0 < w && oy + packs@[m].1 < c2.height()
                    && !(hint is Some && packs@[m].1 == 20) implies #[trigger] field_shown(*c, ox as int, oy as int, packs@[m]) == (Cell {
                    ch: '♥',
                    fg: Color::AnsiValue(col::PINK),
                    bg: black,
                }) by {
                let x = ox + 2 * packs@[m].0;
                let y = oy + packs@[m].1;
                assert(field_shown(c5, ox as int, oy as int, packs@[m]) == c5.cell(x, y));
                assert(c.cell(x, y) == c5.cell(x, y));
            }
        }
    }
}

impl BreakoutCore {
    /// The wall as plain values.
    pub open spec fn wall(self) -> Seq<Seq<bool>> {
        self.bricks@.map_values(|r: Vec<bool>| r@)
    }

    /// Well-formedness: a 6x9 wall whose standing bricks `bricks_left`
    /// counts, and at most three lives.
    pub open spec fn wf(self) -> bool {
        &&& self.wall().len() == 6
        &&& forall|r: int| 0 <= r < 6 ==> (#[trigger] self.wall()[r]).len() == 9
        &&& self.bricks_left == wall_count(self.wall(), 6)
        &&& self.lives <= 3
    }

    /// A new game: all 54 bricks standing, three lives, no score.
    pub fn new() -> (b: BreakoutCore)
        ensures
            b.wf(),
            forall|r: int, c: int| 0 <= r < 6 && 0 <= c < 9 ==> #[trigger] b.wall()[r][c],
            b.bricks_left == 54,
            b.lives == 3,
            b.score == 0,
            !b.over,
    {
        let mut bricks: Vec<Vec<bool>> = Vec::new();
        let mut r: usize = 0;
        while r < BRICK_ROWS
            invariant
                r <= 6,
                bricks@.len() == r,
                forall|i: int| 0 <= i < r ==> (#[trigger] bricks@[i])@.len() == 9 && forall|c: int|
                    0 <= c < 9 ==> bricks@[i]@[c],
            decreases 6 - r,
        {
            let mut row: Vec<bool> = Vec::new();
            let mut c: usize = 0;
            while c < BRICK_COLS
                invariant
                    c <= 9,
                    row@.len() == c,
                    forall|j: int| 0 <= j < c ==> row@[j],
                decreases 9 - c,
            {
                row.push(true);
                c = c + 1;
            }
            bricks.push(row);
            r = r + 1;
        }
        let b = BreakoutCore { bricks, bricks_left: BRICK_COLS * BRICK_ROWS, lives: MAX_LIVES, score: 0, over: false };
        proof {
            assert forall|i: int| 0 <= i < 6 implies #[trigger] b.wall()[i] == b.bricks@[i]@ by {}
            lemma_full_wall_count(b.wall(), 6);
        }
        b
    }

    /// The standing brick at row `r`, column `c`, if those are on the wall.
    pub fn brick_at(&self, r: i64, c: i64) -> (hit: Option<(usize, usize)>)
        requires
            self.wf(),
        ensures
            hit == (if 0 <= r < 6 && 0 <= c < 9 && self.wall()[r as int][c as int] {
                Some((r as usize, c as usize))
            } else {
                None
            }),
    {
        if r >= 0 && r < BRICK_ROWS as i64 && c >= 0 && c < BRICK_COLS as i64 {
            let ru = r as usize;
            let cu = c as usize;
            assert(self.wall()[ru as int] == self.bricks@[ru as int]@);
            if self.bricks[ru][cu] {
                return Some((ru, cu));
            }
        }
        None
    }

    /// Breaks the standing brick at `(r, c)`: ten points, and when it was
    /// the last one a hundred more and the game is over. Returns whether the
    /// wall is now clear.
    pub fn break_brick(&mut self, r: usize, c: usize) -> (clear: bool)
        requires
            old(self).wf(),
            r < 6,
            c < 9,
            old(self).wall()[r as int][c as int],
            old(self).score + 10 + (if old(self).bricks_left == 1 { 100int } else { 0 }) <= u32::MAX,
        ensures
            final(self).wf(),
            final(self).wall() == old(self).wall().update(r as int, old(self).wall()[r as int].update(c as int, false)),
            final(self).bricks_left == old(self).bricks_left - 1,
            clear == (final(self).bricks_left == 0),
            final(self).score == old(self).score + 10 + (if clear { 100int } else { 0 }),
            final(self).over == (old(self).over || clear),
            final(self).lives == old(self).lives,
    {
        let ghost g = self.wall();
        proof {
            lemma_wall_count_clear(g, 6, r as int, c as int);
        }
        let mut row: Vec<bool> = Vec::new();
        let mut i: usize = 0;
        assert(g[r as int] == self.bricks@[r as int]@);
        while i < BRICK_COLS
            invariant
                g == self.wall(),
                self.bricks@.len() == 6,
                g[r as int] == self.bricks@[r as int]@,
                g[r as int].len() == 9,
                r < 6,
                c < 9,
                i <= 9,
                row@.len() == i,
                forall|j: int| 0 <= j < i ==> #[trigger] row@[j] == (if j == c { false } else { g[r as int][j] }),
            decreases 9 - i,
        {
            if i == c {
                row.push(false);
            } else {
                let v = self.bricks[r][i];
                row.push(v);
            }
            i = i + 1;
        }
        self.bricks.set(r, row);
        proof {
            assert(self.wall() =~= g.update(r as int, g[r as int].update(c as int, false))) by {
                assert(self.wall()[r as int] =~= g[r as int].update(c as int, false));
            }
        }
        self.bricks_left = self.bricks_left - 1;
        self.score = self.score + 10;
        if self.bricks_left == 0 {
            self.score = self.score + 100;
            self.over = true;
            return true;
        }
        false
    }

    /// The ball fell past the paddle: one life less, and the game is over
    /// when none is left. Returns whether the game is over.
    pub fn lose_life(&mut self) -> (over: bool)
        requires
            old(self).wf(),
            old(self).lives > i32::MIN,
        ensures
            final(self).wf(),
            final(self).lives == old(self).lives - 1,
            over == (final(self).lives <= 0),
            final(self).over == (old(self).over || over),
            final(self).bricks == old(self).bricks,
            final(self).bricks_left == old(self).bricks_left,
            final(self).score == old(self).score,
    {
        self.lives = self.lives - 1;
        if self.lives <= 0 {
            self.over = true;
            return true;
        }
        false
    }

    /// A health pack was caught: one more life unless already at three.
    /// Returns whether a life was gained.
    pub fn heal(&mut self) -> (gained: bool)
        requires
            old(self).wf(),
        ensures
            final(self).wf(),
            gained == (old(self).lives < 3),
            final(self).lives == (if gained { old(self).lives + 1 } else { old(self).lives as int }),
            *final(self) == (BreakoutCore { lives: final(self).lives, ..*old(self) }),
            final(self).lives == (if old(self).lives + 1 < 3 { old(self).lives + 1 } else { 3 }),
    {
        if self.lives < MAX_LIVES {
            self.lives = self.lives + 1;
            true
        } else {
            false
        }
    }

    /// The color index of brick row `r`.
    pub fn row_color(r: usize) -> (c: u8)
        requires
            r < 6,
        ensures
            c == spec_row_color(r as int),
    {
        let colors: [u8; 6] = [col::RED, col::ORANGE, col::YELLOW, col::GREEN, col::CYAN, col::BLUE];
        colors[r]
    }

    /// Draws the wall: each standing brick as four square blocks (eight
    /// columns) in its row's color, brick `(r, k)` from column `ox + 2 + 8k` of
    /// row `oy + 1 + r`.
    fn draw_wall(&self, c: &mut Canvas, ox: usize, oy: usize)
        requires
            old(c).wf(),
            self.wf(),
            ox <= usize::MAX / 2,
            oy <= usize::MAX / 2,
        ensures
            drawn_on(*final(c), *old(c)),
            forall|r: int, k: int, d: int|
                0 <= r < 6 && 0 <= k < 9 && 0 <= d < 8 && ox + 2 + 8 * k + d < old(c).width() && oy + 1 + r
                    < old(c).height() ==> #[trigger] brick_shown(*final(c), ox as int, oy as int, r, k, d) == brick_glyph(
                    self.wall()[r][k],
                    r,
                    brick_shown(*old(c), ox as int, oy as int, r, k, d),
                ),
    {
        let black = Color::AnsiValue(col::BLACK);
        let ghost c0 = *c;
        let ghost g = self.wall();
        let mut r: usize = 0;
        while r < BRICK_ROWS
            invariant
                self.wf(),
                g == self.wall(),
                ox <= usize::MAX / 2,
                oy <= usize::MAX / 2,
                black == Color::AnsiValue(col::BLACK),
                drawn_on(*c, c0),
                r <= 6,
                forall|rr: int, k: int, d: int|
                    0 <= rr < 6 && 0 <= k < 9 && 0 <= d < 8 && ox + 2 + 8 * k + d < c0.width() && oy + 1 + rr < c0.height()
                        ==> #[trigger] brick_shown(*c, ox as int, oy as int, rr, k, d) == if rr < r {
                        brick_glyph(g[rr][k], rr, brick_shown(c0, ox as int, oy as int, rr, k, d))
                    } else {
                        brick_shown(c0, ox as int, oy as int, rr, k, d)
                    },
            decreases 6 - r,
        {
            let mut k: usize = 0;
            while k < BRICK_COLS
                invariant
                    self.wf(),
                    g == self.wall(),
                    ox <= usize::MAX / 2,
                    oy <= usize::MAX / 2,
                    black == Color::AnsiValue(col::BLACK),
                    drawn_on(*c, c0),
                    r < 6,
                    k <= 9,
                    forall|rr: int, kk: int, d: int|
                        0 <= rr < 6 && 0 <= kk < 9 && 0 <= d < 8 && ox + 2 + 8 * kk + d < c0.width() && oy + 1 + rr
                            < c0.height() ==> #[trigger] brick_shown(*c, ox as int, oy as int, rr, kk, d) == if rr < r || (rr
                            == r && kk < k) {
                            brick_glyph(g[rr][kk], rr, brick_shown(c0, ox as int, oy as int, rr, kk, d))
                        } else {
                            brick_shown(c0, ox as int, oy as int, rr, kk, d)
                        },
                decreases 9 - k,
            {
                assert(g[r as int] == self.bricks@[r as int]@);
                let standing = self.bricks[r][k];
                if standing {
                    let x0 = 1 + k * 4;
                    let mut x = x0;
                    while x <= x0 + 3
                        invariant
                            x0 == 1 + k * 4,
                            k < 9,
                            r < 6,
                            x0 <= x <= x0 + 4,
                            ox <= usize::MAX / 2,
                            oy <= usize::MAX / 2,
                            black == Color::AnsiValue(col::BLACK),
                            drawn_on(*c, c0),
                            g[r as int][k as int],
                            forall|rr: int, kk: int, d: int|
                                0 <= rr < 6 && 0 <= kk < 9 && 0 <= d < 8 && ox + 2 + 8 * kk + d < c0.width() && oy + 1
                                    + rr < c0.height() ==> #[trigger] brick_shown(*c, ox as int, oy as int, rr, kk, d) == if rr
                                    < r || (rr == r && kk < k) || (rr == r && kk == k && d < 2 * (x - x0)) {
                                    brick_glyph(g[rr][kk], rr, brick_shown(c0, ox as int, oy as int, rr, kk, d))
                                } else {
                                    brick_shown(c0, ox as int, oy as int, rr, kk, d)
                                },
                        decreases x0 + 4 - x,
                    {
                        let ghost before = *c;
                        c.put_block(ox + x * 2, oy + 1 + r, Color::AnsiValue(Self::row_color(r)), black);
                        proof {
                            assert forall|rr: int, kk: int, d: int|
                                0 <= rr < 6 && 0 <= kk < 9 && 0 <= d < 8 && ox + 2 + 8 * kk + d < c0.width() && oy + 1
                                    + rr < c0.height() implies #[trigger] brick_shown(*c, ox as int, oy as int, rr, kk, d) == if rr
                                    < r || (rr == r && kk < k) || (rr == r && kk == k && d < 2 * (x + 1 - x0)) {
                                    brick_glyph(g[rr][kk], rr, brick_shown(c0, ox as int, oy as int, rr, kk, d))
                                } else {
                                    brick_shown(c0, ox as int, oy as int, rr, kk, d)
                                } by {
                                assert(before.cell(ox + 2 + 8 * kk + d, oy + 1 + rr) == brick_shown(
                                    before,
                                    ox as int,
                                    oy as int,
                                    rr,
                                    kk,
                                    d,
                                ));
                            }
                        }
                        x = x + 1;
                    }
                }
                proof {
                    assert forall|rr: int, kk: int, d: int|
                        0 <= rr < 6 && 0 <= kk < 9 && 0 <= d < 8 && ox + 2 + 8 * kk + d < c0.width() && oy + 1 + rr
                            < c0.height() implies #[trigger] brick_shown(*c, ox as int, oy as int, rr, kk, d) == if rr < r || (rr
                            == r && kk < k + 1) {
                            brick_glyph(g[rr][kk], rr, brick_shown(c0, ox as int, oy as int, rr, kk, d))
                        } else {
                            brick_shown(c0, ox as int, oy as int, rr, kk, d)
                        } by {
                        if rr == r && kk == k && !standing {
                            assert(!g[rr][kk]);
                        }
                    }
                }
                k = k + 1;
            }
            r = r + 1;
        }
    }

    /// The cells the panel's texts take (see `draw_panel`): the title from
    /// the field's left column and the best record ending at its right edge
    /// on `panel_row(oy)`, and on the row below the score from the left
    /// column and the lives two columns after it.
    pub open spec fn panel_spans(self, scores: ScoreFile, t: Ui, ox: usize, oy: usize) -> Seq<(int, int, int)> {
        let py = panel_row(oy as int);
        let st = score_text(&t, self.score);
        let lt = lives_text(&t, self.lives);
        let high = item_text(GameId::Breakout, scores, t);
        let a = if ox + text_cols(st) > usize::MAX {
            usize::MAX as int
        } else {
            ox + text_cols(st)
        };
        let lx = wrap_column((if a + 2 > usize::MAX { usize::MAX as int } else { a + 2 }) as usize);
        let hx = wrap_column(
            (if ox + 76 - text_cols(high) < 0 {
                ox + 76 - text_cols(high) + usize::MAX + 1
            } else {
                ox + 76 - text_cols(high)
            }) as usize,
        );
        seq![
            (py, ox as int, ox + spec_str_width(t.breakout_title@)),
            (py + 1, ox as int, ox + spec_str_width(st)),
            (py + 1, lx, lx + spec_str_width(lt)),
            (py, hx, hx + spec_str_width(high)),
        ]
    }

    /// Draws the panel of a field at `(ox, oy)`: the title and the best
    /// record on `panel_row(oy)` (two rows above the field when there is
    /// room), the score and the lives on the row below that, and the key help
    /// two rows below the field (mentioning launching while
    /// `awaiting_launch`). Only the cells these texts take (`panel_spans`)
    /// and the help's row change. The score shows in green from the field's
    /// left edge and the lives in red two columns after it (when that column
    /// is on the canvas); the best record, when it fits left of the field's
    /// right edge, shows in gray ending there, with the title in yellow left
    /// of it; and the help in gray from the field's left edge.
    fn draw_panel(&self, c: &mut Canvas, ox: usize, oy: usize, awaiting_launch: bool, scores: &ScoreFile, t: &Ui)
        requires
            old(c).wf(),
            ox <= usize::MAX / 2,
            oy <= usize::MAX / 2,
        ensures
            drawn_on(*final(c), *old(c)),
            forall|i: int, j: int|
                0 <= i < old(c).width() && 0 <= j < old(c).height() && j != oy + 25 && !in_spans(
                    self.panel_spans(*scores, *t, ox, oy),
                    i,
                    j,
                ) ==> #[trigger] final(c).cell(i, j) == old(c).cell(i, j),
            ({
                let w = old(c).width() as int;
                let py = panel_row(oy as int);
                let st = score_text(t, self.score);
                let high = item_text(GameId::Breakout, *scores, *t);
                let hx = ox + 76 - spec_str_width(high);
                let help = if awaiting_launch { t.breakout_help_ready@ } else { t.breakout_help@ };
                w <= usize::MAX / 2 && 2 * ox <= w ==> {
                    &&& ox + spec_str_width(st) + 2 <= w ==> lines_shown(*final(c), seq![(py + 1, st, col::GREEN)], ox as int, w)
                        && lines_shown(
                        *final(c),
                        seq![(py + 1, lives_text(t, self.lives), col::RED)],
                        ox + spec_str_width(st) + 2,
                        w,
                    )
                    &&& spec_str_width(high) <= ox + 76 ==> lines_shown(*final(c), seq![(py, high, col::GRAY)], hx, w)
                        && lines_shown(*final(c), seq![(py, t.breakout_title@, col::YELLOW)], ox as int, hx)
                    &&& lines_shown(*final(c), seq![(oy + 25, help, col::GRAY)], ox as int, w)
                }
            }),
    {
        let black = Color::AnsiValue(col::BLACK);
        let ghost c0 = *c;
        let w = c.w();
        let score_args = vec![dec_string(self.score as u64)];
        let score = fmt(t.score_fmt, score_args.as_slice());
        let n = if self.lives > 0 {
            self.lives as usize
        } else {
            0
        };
        let lives_args = vec![repeat_char('♥', n)];
        let lives = fmt(t.lives_fmt, lives_args.as_slice());
        proof {
            assert(texts(score_args@) =~= seq![dec_chars(self.score as nat)]);
            assert(texts(lives_args@) =~= seq![hearts(self.lives)]);
        }
        let high = item_line(GameId::Breakout, scores, t);
        let py = oy.saturating_sub(2);
        c.put_str(ox, py, t.breakout_title, Color::AnsiValue(col::YELLOW), black);
        let ghost ct = *c;
        c.put_str(ox, py + 1, score.as_str(), Color::AnsiValue(col::GREEN), black);
        let ghost cs = *c;
        let sw = str_width(score.as_str());
        let lx = ox.saturating_add(sw).saturating_add(2);
        c.put_str(lx, py + 1, lives.as_str(), Color::AnsiValue(col::RED), black);
        let ghost cl = *c;
        let hw = str_width(high.as_str());
        let hx = (ox + 38 * 2).wrapping_sub(hw);
        c.put_str(hx, py, high.as_str(), Color::AnsiValue(col::GRAY), black);
        let ghost ch = *c;
        let help = if awaiting_launch {
            t.breakout_help_ready
        } else {
            t.breakout_help
        };
        c.put_str(ox, oy + 24 + 1, help, Color::AnsiValue(col::GRAY), black);
        proof {
            let wi = w as int;
            let m = (usize::MAX as int + 1) as nat;
            let bl = Color::AnsiValue(0);
            let pyi = panel_row(oy as int);
            assert(py == pyi);
            c0.lemma_nonempty();
            lemma_wrap_column_small(ox);
            let spans = self.panel_spans(*scores, *t, ox, oy);
            let st0 = score_text(t, self.score);
            assert(sw == text_cols(st0));
            assert(hw == text_cols(item_text(GameId::Breakout, *scores, *t)));
            assert(wrap_column(lx) == spans[2].1);
            assert(wrap_column(hx) == spans[3].1);
            assert forall|i: int, j: int|
                0 <= i < c0.width() && 0 <= j < c0.height() && j != oy + 25 && !in_spans(spans, i, j) implies #[trigger] c.cell(i, j)
                    == c0.cell(i, j) by {
                if j == pyi {
                    assert(!(spans[0].0 == j && spans[0].1 <= i < spans[0].2));
                    assert(!(spans[3].0 == j && spans[3].1 <= i < spans[3].2));
                    lemma_put_str_cell_outside(t.breakout_title@, ox as int, i, wi, Color::AnsiValue(col::YELLOW), black, c0.cell(i, j));
                    lemma_put_str_cell_outside(high@, wrap_column(hx), i, wi, Color::AnsiValue(col::GRAY), black, cl.cell(i, j));
                } else if j == pyi + 1 {
                    assert(!(spans[1].0 == j && spans[1].1 <= i < spans[1].2));
                    assert(!(spans[2].0 == j && spans[2].1 <= i < spans[2].2));
                    lemma_put_str_cell_outside(score@, ox as int, i, wi, Color::AnsiValue(col::GREEN), black, ct.cell(i, j));
                    lemma_put_str_cell_outside(lives@, wrap_column(lx), i, wi, Color::AnsiValue(col::RED), black, cs.cell(i, j));
                }
            }
            if w <= usize::MAX / 2 && 2 * ox <= w {
                let st = score_text(t, self.score);
                if ox + spec_str_width(st) + 2 <= w {
                    vstd::arithmetic::div_mod::lemma_small_mod(spec_str_width(st), m);
                    assert(sw == spec_str_width(st));
                    let lxi = ox + spec_str_width(st) + 2;
                    assert(lx == lxi);
                    lemma_wrap_column_small(lx);
                    let ls = seq![((pyi + 1) as int, st, col::GREEN)];
                    assert forall|k: int, i: int|
                        0 <= k < ls.len() && 0 <= ls[k].0 < c.height() && ox <= i < ox + spec_str_width(ls[k].1) && i < wi && i < c.width()
                            implies #[trigger] c.cell(i, ls[k].0) == put_str_cell(ls[k].1, ox as int, i, c.width() as int, Color::AnsiValue(ls[k].2), bl, spec_empty_cell()) by {
                        assert(ls[k] == ((pyi + 1) as int, st, col::GREEN));
                        lemma_put_str_cell_covered(st, ox as int, i, wi, Color::AnsiValue(col::GREEN), bl, ct.cell(i, pyi + 1), spec_empty_cell());
                        lemma_put_str_cell_left(lives@, wrap_column(lx), i, wi, Color::AnsiValue(col::RED), bl, cs.cell(i, pyi + 1));
                    }
                    let lt = lives_text(t, self.lives);
                    let ll = seq![((pyi + 1) as int, lt, col::RED)];
                    assert forall|k: int, i: int|
                        0 <= k < ll.len() && 0 <= ll[k].0 < c.height() && lxi <= i < lxi + spec_str_width(ll[k].1) && i < wi && i < c.width()
                            implies #[trigger] c.cell(i, ll[k].0) == put_str_cell(ll[k].1, lxi, i, c.width() as int, Color::AnsiValue(ll[k].2), bl, spec_empty_cell()) by {
                        assert(ll[k] == ((pyi + 1) as int, lt, col::RED));
                        lemma_put_str_cell_covered(lt, lxi, i, wi, Color::AnsiValue(col::RED), bl, cs.cell(i, pyi + 1), spec_empty_cell());
                    }
                }
                let high_t = item_text(GameId::Breakout, *scores, *t);
                if spec_str_width(high_t) <= ox + 76 {
                    vstd::arithmetic::div_mod::lemma_small_mod(spec_str_width(high_t), m);
                    assert(hw == spec_str_width(high_t));
                    let hxi = ox + 76 - spec_str_width(high_t);
                    assert(hx == hxi);
                    lemma_wrap_column_small(hx);
                    let lh = seq![(pyi as int, high_t, col::GRAY)];
                    assert forall|k: int, i: int|
                        0 <= k < lh.len() && 0 <= lh[k].0 < c.height() && hxi <= i < hxi + spec_str_width(lh[k].1) && i < wi && i < c.width()
                            implies #[trigger] c.cell(i, lh[k].0) == put_str_cell(lh[k].1, hxi, i, c.width() as int, Color::AnsiValue(lh[k].2), bl, spec_empty_cell()) by {
                        assert(lh[k] == (pyi as int, high_t, col::GRAY));
                        lemma_put_str_cell_covered(high_t, hxi, i, wi, Color::AnsiValue(col::GRAY), bl, cl.cell(i, pyi), spec_empty_cell());
                    }
                    let lti = seq![(pyi as int, t.breakout_title@, col::YELLOW)];
                    assert forall|k: int, i: int|
                        0 <= k < lti.len() && 0 <= lti[k].0 < c.height() && ox <= i < ox + spec_str_width(lti[k].1) && i < hxi && i < c.width()
                            implies #[trigger] c.cell(i, lti[k].0) == put_str_cell(lti[k].1, ox as int, i, c.width() as int, Color::AnsiValue(lti[k].2), bl, spec_empty_cell()) by {
                        assert(lti[k] == (pyi as int, t.breakout_title@, col::YELLOW));
                        lemma_put_str_cell_covered(t.breakout_title@, ox as int, i, wi, Color::AnsiValue(col::YELLOW), bl, c0.cell(i, pyi), spec_empty_cell());
                        assert(cs.cell(i, pyi) == ct.cell(i, pyi));
                        assert(cl.cell(i, pyi) == cs.cell(i, pyi));
                        assert(ch.cell(i, pyi) == cl.cell(i, pyi));
                    }
                }
                let hp = if awaiting_launch { t.breakout_help_ready@ } else { t.breakout_help@ };
                let lp = seq![((oy + 25) as int, hp, col::GRAY)];
                assert forall|k: int, i: int|
                    0 <= k < lp.len() && 0 <= lp[k].0 < c.height() && ox <= i < ox + spec_str_width(lp[k].1) && i < wi && i < c.width()
                        implies #[trigger] c.cell(i, lp[k].0) == put_str_cell(lp[k].1, ox as int, i, c.width() as int, Color::AnsiValue(lp[k].2), bl, spec_empty_cell()) by {
                    assert(lp[k] == ((oy + 25) as int, hp, col::GRAY));
                    lemma_put_str_cell_covered(hp, ox as int, i, wi, Color::AnsiValue(col::GRAY), bl, ch.cell(i, oy + 25), spec_empty_cell());
                }
            }
        }
    }

    /// Draws the game: the field's frame, the standing bricks (each four
    /// square blocks), the paddle (seven blocks from column `paddle_col`),
    /// the ball and the health packs at their cells, the pickup `hint` above
    /// the paddle, and the panel with title, score, lives and best record;
    /// the key help mentions launching while `awaiting_launch`. The field is
    /// centred, or starts at the canvas's edge when the canvas is smaller,
    /// and is cut off at its right and bottom edges. On a canvas of any size
    /// a terminal has, every cell of the field that is on the canvas and that
    /// the panel's texts (`panel_spans`) do not take shows its content: a
    /// brick cell not covered by the ball or a pack as `brick_glyph` says
    /// (but for the last column or row of a canvas that cuts the frame there),
    /// each paddle block not under the ball or a pack in yellow, the ball and
    /// every pack inside the field (a pack over the ball; neither stated on
    /// the hint's row while a hint shows), and the hint's text, when it fits,
    /// from half its width left of the paddle's left end (`hint_left`). The
    /// panel's texts show two rows above the field (`panel_row`, row 0 when
    /// there is no room): the title in yellow and the best record in gray
    /// ending at the field's right edge, and on the next row the score in
    /// green and the lives in red; the key help shows in gray two rows below
    /// the field.
    pub fn draw(
        &self,
        c: &mut Canvas,
        paddle_col: usize,
        ball: Option<(usize, usize)>,
        packs: &Vec<(usize, usize)>,
        hint: Option<&str>,
        awaiting_launch: bool,
        scores: &ScoreFile,
        t: &Ui,
    )
        requires
            old(c).wf(),
            self.wf(),
        ensures
            drawn_on(*final(c), *old(c)),
            ({
                let w = old(c).width() as int;
                let h = old(c).height() as int;
                let ox = if w >= 76 { (w - 76) / 2 } else { 0 };
                let oy = if h >= 24 { (h - 24) / 2 } else { 0 };
                let spans = self.panel_spans(*scores, *t, ox as usize, oy as usize);
                w <= usize::MAX / 2 ==> forall|r: int, k: int, d: int|
                    0 <= r < 6 && 0 <= k < 9 && 0 <= d < 8 && ox + 2 + 8 * k + d < w && oy + 1 + r < h && !covers(
                        ball,
                        packs@,
                        ox,
                        oy,
                        ox + 2 + 8 * k + d,
                        oy + 1 + r,
                    ) && !in_spans(spans, ox + 2 + 8 * k + d, oy + 1 + r) && !on_cut_frame(w, h, ox, oy, ox + 2 + 8 * k + d, oy + 1 + r)
                        ==> #[trigger] brick_shown(*final(c), ox, oy, r, k, d)
                        == brick_glyph(
                        self.wall()[r][k],
                        r,
                        Cell { ch: ' ', fg: Color::AnsiValue(col::BLACK), bg: Color::AnsiValue(col::BLACK) },
                    )
            }),
            ({
                let w = old(c).width() as int;
                let h = old(c).height() as int;
                let ox = if w >= 76 { (w - 76) / 2 } else { 0 };
                let oy = if h >= 24 { (h - 24) / 2 } else { 0 };
                let spans = self.panel_spans(*scores, *t, ox as usize, oy as usize);
                let black = Color::AnsiValue(col::BLACK);
                w <= usize::MAX / 2 ==> {
                    &&& forall|m: int, hh: int|
                        0 <= m < 7 && 0 <= hh < 2 && ox + 2 * (paddle_col + m) + hh < w && oy + 21 < h && !covers(
                            ball,
                            packs@,
                            ox,
                            oy,
                            ox + 2 * (paddle_col + m) + hh,
                            oy + 21,
                        ) && !in_spans(spans, ox + 2 * (paddle_col + m) + hh, oy + 21) ==> #[trigger] paddle_shown(
                            *final(c),
                            ox,
                            oy,
                            paddle_col as int,
                            m,
                            hh,
                        ) == (Cell { ch: '█', fg: Color::AnsiValue(col::YELLOW), bg: black })
                    &&& (ball matches Some(b) && 0 < b.1 < 23 && ox + 2 * b.0 < w && oy + b.1 < h && !packs@.contains(b) && !(
                    hint is Some && b.1 == 20) && !in_spans(spans, ox + 2 * b.0, oy + b.1)) ==> field_shown(
                        *final(c),
                        ox,
                        oy,
                        ball.unwrap(),
                    ) == (Cell { ch: '●', fg: Color::AnsiValue(col::WHITE), bg: black })
                    &&& forall|m: int|
                        0 <= m < packs@.len() && 0 < packs@[m].1 < 23 && ox + 2 * packs@[m].0 < w && oy + packs@[m].1 < h && !(
                        hint is Some && packs@[m].1 == 20) && !in_spans(spans, ox + 2 * packs@[m].0, oy + packs@[m].1)
                            ==> #[trigger] field_shown(*final(c), ox, oy, packs@[m]) == (Cell {
                            ch: '♥',
                            fg: Color::AnsiValue(col::PINK),
                            bg: black,
                        })
                    &&& (hint matches Some(text) && ox + 2 * paddle_col < w && spec_str_width(text@) < w && oy + 20 < h) ==> forall|
                        i: int,
                    |
                        hint_left(ox, paddle_col as int, hint.unwrap()@) <= i < hint_left(ox, paddle_col as int, hint.unwrap()@)
                            + spec_str_width(hint.unwrap()@) && i < w && !in_spans(spans, i, oy + 20) ==> #[trigger] final(c).cell(
                            i,
                            oy + 20,
                        ) == put_str_cell(
                            hint.unwrap()@,
                            hint_left(ox, paddle_col as int, hint.unwrap()@),
                            i,
                            w,
                            Color::AnsiValue(col::GREEN),
                            black,
                            spec_empty_cell(),
                        )
                }
            }),
            ({
                let w = old(c).width() as int;
                let h = old(c).height() as int;
                let ox = if w >= 76 { (w - 76) / 2 } else { 0 };
                let oy = if h >= 24 { (h - 24) / 2 } else { 0 };
                let py = panel_row(oy);
                let st = score_text(t, self.score);
                let high = item_text(GameId::Breakout, *scores, *t);
                let hx = ox + 76 - spec_str_width(high);
                let help = if awaiting_launch { t.breakout_help_ready@ } else { t.breakout_help@ };
                w <= usize::MAX / 2 ==> {
                    &&& ox + spec_str_width(st) + 2 <= w ==> lines_shown(*final(c), seq![(py + 1, st, col::GREEN)], ox, w)
                        && lines_shown(*final(c), seq![(py + 1, lives_text(t, self.lives), col::RED)], ox + spec_str_width(st) + 2, w)
                    &&& spec_str_width(high) <= ox + 76 ==> lines_shown(*final(c), seq![(py, high, col::GRAY)], hx, w)
                        && lines_shown(*final(c), seq![(py, t.breakout_title@, col::YELLOW)], ox, hx)
                    &&& lines_shown(*final(c), seq![(oy + 25, help, col::GRAY)], ox, w)
                }
            }),
    {
        let black = Color::AnsiValue(col::BLACK);
        let w = c.w();
        let h = c.h();
        c.fill_rect(0, 0, w, h, ' ', black, black);
        let ox = w.saturating_sub(38 * 2) / 2;
        let oy = h.saturating_sub(24) / 2;
        c.border(ox, oy, 38 * 2, 24, Color::AnsiValue(col::CYAN));
        let ghost c1 = *c;
        self.draw_wall(c, ox, oy);
        let ghost c2 = *c;
        draw_pieces(c, ox, oy, paddle_col, ball, packs, hint);
        let ghost c6 = *c;
        self.draw_panel(c, ox, oy, awaiting_launch, scores, t);
        proof {
            let fill = Cell { ch: ' ', fg: black, bg: black };
            let spans = self.panel_spans(*scores, *t, ox, oy);
            if w <= usize::MAX / 2 {
                assert forall|r: int, k: int, d: int|
                    0 <= r < 6 && 0 <= k < 9 && 0 <= d < 8 && ox + 2 + 8 * k + d < w && oy + 1 + r < h && !covers(
                        ball,
                        packs@,
                        ox as int,
                        oy as int,
                        ox + 2 + 8 * k + d,
                        oy + 1 + r,
                    ) && !in_spans(spans, ox + 2 + 8 * k + d, oy + 1 + r) && !on_cut_frame(w as int, h as int, ox as int, oy as int, ox + 2 + 8 * k + d, oy + 1 + r)
                        implies #[trigger] brick_shown(*c, ox as int, oy as int, r, k, d)
                        == brick_glyph(self.wall()[r][k], r, fill) by {
                    let x = ox + 2 + 8 * k + d;
                    let y = oy + 1 + r;
                    assert(c1.cell(x, y) == fill);
                    assert(brick_shown(c2, ox as int, oy as int, r, k, d) == brick_glyph(
                        self.wall()[r][k],
                        r,
                        brick_shown(c1, ox as int, oy as int, r, k, d),
                    ));
                    assert(c6.cell(x, y) == c2.cell(x, y));
                    assert(c.cell(x, y) == c6.cell(x, y));
                }
                assert forall|m: int, hh: int|
                    0 <= m < 7 && 0 <= hh < 2 && ox + 2 * (paddle_col + m) + hh < w && oy + 21 < h && !in_spans(
                        spans,
                        ox + 2 * (paddle_col + m) + hh,
                        oy + 21,
                    ) implies #[trigger] paddle_shown(*c, ox as int, oy as int, paddle_col as int, m, hh) == paddle_shown(
                        c6,
                        ox as int,
                        oy as int,
                        paddle_col as int,
                        m,
                        hh,
                    ) by {
                    assert(c.cell(ox + 2 * (paddle_col + m) + hh, oy + 21) == c6.cell(ox + 2 * (paddle_col + m) + hh, oy + 21));
                }
                assert forall|p: (usize, usize)|
                    0 < p.1 < 23 && ox + 2 * p.0 < w && oy + p.1 < h && !in_spans(spans, ox + 2 * p.0, oy + p.1) implies #[trigger] field_shown(
                        *c,
                        ox as int,
                        oy as int,
                        p,
                    ) == field_shown(c6, ox as int, oy as int, p) by {
                    assert(c.cell(ox + 2 * p.0, oy + p.1) == c6.cell(ox + 2 * p.0, oy + p.1));
                }
                assert forall|i: int| 0 <= i < w && oy + 20 < h && !in_spans(spans, i, oy + 20) implies #[trigger] c.cell(i, oy + 20)
                    == c6.cell(i, oy + 20) by {}
            }
        }
    }

}

} // verus!
