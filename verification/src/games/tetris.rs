//! Tetris: clear rows to score; pieces fall faster with each level.

use vstd::prelude::*;
use crate::input::Action;
use crate::games::{GameOutcome, Status};
use crate::rng::random_below;
use crate::canvas::{
    Canvas, Cell, Color, PanelLine, drawn_from, drawn_on, lemma_draw_line, lemma_put_str_cell_left, lemma_wrap_column_small,
    lemma_lines_shown, lines_over, lines_shown, put_str_cell, wrap_column,
};
use crate::col;
use crate::lang::{Ui, filled, fmt, texts};
use crate::score::{ScoreFile, entries_view};
use crate::text::{dec_chars, dec_string};

verus! {

/// Well width.
pub const W: usize = 10;
/// Well height.
pub const H: usize = 20;

/// The seven pieces (I, O, T, S, Z, J, L), each in four rotations, each
/// rotation four cell offsets `(dx, dy)` from the piece's origin.
pub const SHAPES: [[[(i32, i32); 4]; 4]; 7] = [
    [
        [(0, 1), (1, 1), (2, 1), (3, 1)],
        [(2, 0), (2, 1), (2, 2), (2, 3)],
        [(0, 2), (1, 2), (2, 2), (3, 2)],
        [(1, 0), (1, 1), (1, 2), (1, 3)],
    ],
    [
        [(1, 0), (2, 0), (1, 1), (2, 1)],
        [(1, 0), (2, 0), (1, 1), (2, 1)],
        [(1, 0), (2, 0), (1, 1), (2, 1)],
        [(1, 0), (2, 0), (1, 1), (2, 1)],
    ],
    [
        [(1, 0), (0, 1), (1, 1), (2, 1)],
        [(1, 0), (1, 1), (2, 1), (1, 2)],
        [(0, 1), (1, 1), (2, 1), (1, 2)],
        [(1, 0), (0, 1), (1, 1), (1, 2)],
    ],
    [
        [(1, 0), (2, 0), (0, 1), (1, 1)],
        [(1, 0), (1, 1), (2, 1), (2, 2)],
        [(1, 1), (2, 1), (0, 2), (1, 2)],
        [(0, 0), (0, 1), (1, 1), (1, 2)],
    ],
    [
        [(0, 0), (1, 0), (1, 1), (2, 1)],
        [(2, 0), (1, 1), (2, 1), (1, 2)],
        [(0, 1), (1, 1), (1, 2), (2, 2)],
        [(1, 0), (0, 1), (1, 1), (0, 2)],
    ],
    [
        [(0, 0), (0, 1), (1, 1), (2, 1)],
        [(1, 0), (2, 0), (1, 1), (1, 2)],
        [(0, 1), (1, 1), (2, 1), (2, 2)],
        [(1, 0), (1, 1), (0, 2), (1, 2)],
    ],
    [
        [(2, 0), (0, 1), (1, 1), (2, 1)],
        [(1, 0), (1, 1), (1, 2), (2, 2)],
        [(0, 1), (1, 1), (2, 1), (0, 2)],
        [(0, 0), (1, 0), (1, 1), (1, 2)],
    ],
];

/// A falling piece: its kind (index into `SHAPES`), rotation and origin.
#[derive(Clone, Copy, PartialEq, Eq, Debug, Structural)]
pub struct Piece {
    pub kind: u8,
    pub rot: usize,
    pub x: i32,
    pub y: i32,
}

/// The offsets of a piece kind in a rotation.
pub open spec fn shape(kind: u8, rot: usize) -> [(i32, i32); 4] {
    SHAPES@[kind as int]@[rot as int]
}

/// The `i`th cell of `p` on the board.
pub open spec fn cell(p: Piece, i: int) -> (int, int) {
    let d = shape(p.kind, p.rot)@[i];
    (p.x + d.0, p.y + d.1)
}

/// Every offset lies in `0..4` in both coordinates.
proof fn lemma_shape_bounds(kind: u8, rot: usize, i: int)
    requires
        kind < 7,
        rot < 4,
        0 <= i < 4,
    ensures
        0 <= shape(kind, rot)@[i].0 <= 3,
        0 <= shape(kind, rot)@[i].1 <= 3,
{
}

impl Piece {
    /// The piece's four offsets.
    pub fn cells(&self) -> (r: [(i32, i32); 4])
        requires
            self.kind < 7,
            self.rot < 4,
        ensures
            r == shape(self.kind, self.rot),
    {
        SHAPES[self.kind as usize][self.rot]
    }
}


/// A well as plain values: `H` rows of `W` cells, `None` for empty.
pub type Board = Seq<Seq<Option<u8>>>;

/// Well-formed well: 20 rows of 10 cells.
pub open spec fn board_ok(g: Board) -> bool {
    g.len() == 20 && forall|y: int| 0 <= y < 20 ==> #[trigger] g[y].len() == 10
}

/// Every filled cell of a row holds a piece kind.
pub open spec fn row_kinds_ok(r: Seq<Option<u8>>) -> bool {
    forall|x: int| 0 <= x < r.len() ==> (#[trigger] r[x] matches Some(k) ==> k < 7)
}

/// Every filled cell of the well holds a piece kind.
pub open spec fn kinds_ok(g: Board) -> bool {
    forall|y: int| 0 <= y < g.len() ==> row_kinds_ok(#[trigger] g[y])
}

/// A cell a piece may occupy: inside the side walls, above the floor, and
/// empty where it is on the board (cells above the top are free).
pub open spec fn cell_fits(g: Board, c: (int, int)) -> bool {
    0 <= c.0 < 10 && c.1 < 20 && (c.1 >= 0 ==> g[c.1][c.0] is None)
}

/// All four cells of `p` fit.
pub open spec fn fits(g: Board, p: Piece) -> bool {
    forall|i: int| 0 <= i < 4 ==> cell_fits(g, #[trigger] cell(p, i))
}

/// `p` moved by `(dx, dy)`.
pub open spec fn moved(p: Piece, dx: int, dy: int) -> Piece {
    Piece { x: (p.x + dx) as i32, y: (p.y + dy) as i32, ..p }
}

/// Where a rotation leaves `p`: turned a quarter, then the first of no shift
/// and the wall kicks 1, -1, 2, -2 columns that fits; `p` itself if none fits.
pub open spec fn rotated(g: Board, p: Piece) -> Piece {
    let q = Piece { rot: ((p.rot + 1) % 4) as usize, ..p };
    if fits(g, q) {
        q
    } else if fits(g, moved(q, 1, 0)) {
        moved(q, 1, 0)
    } else if fits(g, moved(q, -1, 0)) {
        moved(q, -1, 0)
    } else if fits(g, moved(q, 2, 0)) {
        moved(q, 2, 0)
    } else if fits(g, moved(q, -2, 0)) {
        moved(q, -2, 0)
    } else {
        p
    }
}

/// How many rows `p` can fall.
pub open spec fn drop_dist(g: Board, p: Piece) -> nat
    decreases 20 - p.y,
{
    if p.y < 20 && fits(g, moved(p, 0, 1)) {
        1 + drop_dist(g, moved(p, 0, 1))
    } else {
        0
    }
}

/// The index of the first cell of `p` above the top row, 4 if none.
pub open spec fn first_above(p: Piece) -> int {
    if cell(p, 0).1 < 0 {
        0
    } else if cell(p, 1).1 < 0 {
        1
    } else if cell(p, 2).1 < 0 {
        2
    } else if cell(p, 3).1 < 0 {
        3
    } else {
        4
    }
}

/// `g` with the first `k` cells of `p` filled with its kind.
pub open spec fn stamp(g: Board, p: Piece, k: int) -> Board
    decreases k,
{
    if k <= 0 {
        g
    } else {
        let h = stamp(g, p, k - 1);
        let c = cell(p, k - 1);
        h.update(c.1, h[c.1].update(c.0, Some(p.kind)))
    }
}

/// A row with every cell filled.
pub open spec fn row_full(r: Seq<Option<u8>>) -> bool {
    forall|x: int| 0 <= x < r.len() ==> (#[trigger] r[x]) is Some
}

/// The rows among the first `n` of `g` that are not full, in order.
pub open spec fn kept_rows(g: Board, n: int) -> Board
    decreases n,
{
    if n <= 0 {
        Seq::empty()
    } else if row_full(g[n - 1]) {
        kept_rows(g, n - 1)
    } else {
        kept_rows(g, n - 1).push(g[n - 1])
    }
}

/// An empty row.
pub open spec fn empty_row() -> Seq<Option<u8>> {
    Seq::new(10, |x: int| None)
}

/// The number of full rows of `g`.
pub open spec fn full_count(g: Board) -> int {
    20 - kept_rows(g, 20).len()
}

/// `g` with its full rows removed and as many empty rows added on top.
pub open spec fn cleared(g: Board) -> Board {
    Seq::new(full_count(g) as nat, |i: int| empty_row()) + kept_rows(g, 20)
}

/// Points for clearing `c` rows at once, before the level multiplier.
pub open spec fn line_points(c: int) -> int {
    if c <= 0 {
        0
    } else if c == 1 {
        100
    } else if c == 2 {
        300
    } else if c == 3 {
        500
    } else {
        800
    }
}

/// The color index of piece kind `k` (I cyan, O yellow, T magenta, S green,
/// Z red, J blue, L orange).
pub open spec fn spec_piece_color(k: u8) -> u8 {
    [col::CYAN, col::YELLOW, col::MAGENTA, col::GREEN, col::RED, col::BLUE, col::ORANGE]@[k as int]
}

/// The smallest column among the first `n` cells of `s`.
pub open spec fn shape_min_x(s: Seq<(i32, i32)>, n: int) -> i32
    decreases n,
{
    if n <= 1 {
        s[0].0
    } else {
        let m = shape_min_x(s, n - 1);
        if s[n - 1].0 < m {
            s[n - 1].0
        } else {
            m
        }
    }
}

/// The smallest row among the first `n` cells of `s`.
pub open spec fn shape_min_y(s: Seq<(i32, i32)>, n: int) -> i32
    decreases n,
{
    if n <= 1 {
        s[0].1
    } else {
        let m = shape_min_y(s, n - 1);
        if s[n - 1].1 < m {
            s[n - 1].1
        } else {
            m
        }
    }
}

/// Column of the `k`th cell of piece `kind` (unturned) in the preview,
/// counted from the piece's leftmost cell.
pub open spec fn preview_dx(kind: u8, k: int) -> int {
    shape(kind, 0)@[k].0 - shape_min_x(shape(kind, 0)@, 4)
}

/// Row of the `k`th cell of piece `kind` (unturned) in the preview, counted
/// from the piece's top cell.
pub open spec fn preview_dy(kind: u8, k: int) -> int {
    shape(kind, 0)@[k].1 - shape_min_y(shape(kind, 0)@, 4)
}

/// The row of the side panel starting at row `oy` where the next piece's
/// label stands: below the best record when there is one.
pub open spec fn next_label_row(scores: ScoreFile, oy: int) -> int {
    if scores.board("tetris"@).len() > 0 {
        oy + 9
    } else {
        oy + 7
    }
}

/// The top row of the next piece's preview.
pub open spec fn preview_row(scores: ScoreFile, oy: int) -> int {
    next_label_row(scores, oy) + 1
}

/// The text lines of the side panel starting at row `oy`: title, subtitle,
/// score, lines, level, the best score and its holder (when there is a
/// record), the next piece's label and, below the preview, the five key-help
/// lines.
pub open spec fn panel_lines(g: Tetris, scores: ScoreFile, t: Ui, oy: int) -> Seq<PanelLine> {
    let b = scores.board("tetris"@);
    let nr = next_label_row(scores, oy);
    seq![
        (oy, t.tetris_title@, col::YELLOW),
        (oy + 1, t.tetris_sub@, col::CYAN),
        (oy + 3, filled(t.score_fmt@, seq![dec_chars(g.score as nat)], 0), col::GREEN),
        (oy + 4, filled(t.lines_fmt@, seq![dec_chars(g.lines as nat)], 0), col::WHITE),
        (oy + 5, filled(t.level_fmt@, seq![dec_chars(g.level as nat)], 0), col::MAGENTA),
    ] + (if b.len() > 0 {
        seq![
            (oy + 6, filled(t.best_short_fmt@, seq![dec_chars(b[0].1 as nat)], 0), col::GRAY),
            (oy + 7, filled("({})"@, seq![b[0].0], 0), col::GRAY),
        ]
    } else {
        Seq::empty()
    }) + seq![(nr, t.next@, col::WHITE)] + Seq::new(5, |k: int| (nr + 5 + k, t.tetris_help@[k]@, col::GRAY))
}

/// How a settled cell holding `v` is shown: a block in its piece's color,
/// or `under` when empty.
pub open spec fn settled_glyph(v: Option<u8>, under: Cell) -> Cell {
    match v {
        Some(k) => Cell { ch: '█', fg: Color::AnsiValue(spec_piece_color(k)), bg: Color::AnsiValue(col::BLACK) },
        None => under,
    }
}

/// How cell `(x, y)` of the well is shown: a block of the falling piece `p`
/// where it covers the cell, else the settled cell of `g` over `under`.
pub open spec fn well_glyph(g: Board, p: Piece, x: int, y: int, under: Cell) -> Cell {
    if exists|k: int| 0 <= k < 4 && cell(p, k) == (x, y) {
        Cell { ch: '█', fg: Color::AnsiValue(spec_piece_color(p.kind)), bg: Color::AnsiValue(col::BLACK) }
    } else {
        settled_glyph(g[y][x], under)
    }
}

/// Rows as plain values.
pub open spec fn rows_view(v: Seq<Vec<Option<u8>>>) -> Board {
    v.map_values(|r: Vec<Option<u8>>| r@)
}

/// Tetris game state (fall timing and the soft-drop window are kept by the
/// caller).
pub struct Tetris {
    /// `board[y][x]`: the kind of the piece that filled the cell.
    pub board: Vec<Vec<Option<u8>>>,
    pub cur: Piece,
    pub next_kind: u8,
    pub score: u32,
    pub lines: u32,
    pub level: u32,
    pub over: bool,
}


/// A fitting piece's origin lies within three columns of the well and above
/// the floor.
proof fn lemma_fits_bounds(g: Board, p: Piece)
    requires
        p.kind < 7,
        p.rot < 4,
        fits(g, p),
    ensures
        -3 <= p.x <= 9,
        p.y <= 19,
{
    lemma_shape_bounds(p.kind, p.rot, 0);
    assert(cell_fits(g, cell(p, 0)));
}


/// `new` is `old` after its current piece locked: the piece's cells fill
/// in order until one lies above the top, which ends the game; otherwise full
/// rows are cleared and scored and the next piece comes in.
pub open spec fn locked(new: Tetris, old: Tetris) -> bool {
    let k = first_above(old.cur);
    let g1 = stamp(old.grid(), old.cur, k);
    if k < 4 {
        &&& new.grid() == g1
        &&& new.over
        &&& new.cur == old.cur
        &&& new.next_kind == old.next_kind
        &&& new.score == old.score
        &&& new.lines == old.lines
        &&& new.level == old.level
    } else {
        let c = full_count(g1);
        let g2 = cleared(g1);
        &&& new.grid() == g2
        &&& new.lines == old.lines + c
        &&& new.score == old.score + line_points(c) * old.level
        &&& new.level == (if c > 0 {
            (old.lines + c) / 10 + 1
        } else {
            old.level as int
        })
        &&& new.cur == (Piece { kind: old.next_kind, rot: 0, x: 3, y: -1i32 })
        &&& new.next_kind < 7
        &&& new.next_kind != new.cur.kind
        &&& new.over == !fits(g2, new.cur)
    }
}

/// `old` with its piece dropped `d` rows and two points scored per row.
pub open spec fn dropped(old: Tetris, d: int) -> Tetris {
    Tetris { cur: moved(old.cur, 0, d), score: (old.score + 2 * d) as u32, ..old }
}

impl Tetris {
    /// The well as plain values.
    pub open spec fn grid(self) -> Board {
        rows_view(self.board@)
    }

    /// Well-formedness: a 20x10 well, valid piece kinds and rotation, the
    /// current piece near the well and fitting while the game goes on, and
    /// the level one more than the tens of cleared rows.
    pub open spec fn wf(self) -> bool {
        &&& board_ok(self.grid())
        &&& kinds_ok(self.grid())
        &&& self.cur.kind < 7
        &&& self.cur.rot < 4
        &&& self.next_kind < 7
        &&& -3 <= self.cur.x <= 9
        &&& -1 <= self.cur.y <= 19
        &&& (!self.over ==> fits(self.grid(), self.cur))
        &&& self.level == self.lines / 10 + 1
    }

    /// Room for the largest gain of one move without leaving `u32`.
    pub open spec fn headroom(self) -> bool {
        &&& self.score + 42 + 800 * self.level <= u32::MAX
        &&& self.lines + 20 <= u32::MAX
    }

    /// The stone of an on-board cell.
    fn at(&self, x: i32, y: i32) -> (r: Option<u8>)
        requires
            board_ok(self.grid()),
            0 <= x < 10,
            0 <= y < 20,
        ensures
            r == self.grid()[y as int][x as int],
    {
        assert(self.grid()[y as int] == self.board@[y as int]@);
        self.board[y as usize][x as usize]
    }

    /// Whether `p` fits in the well.
    pub fn valid(&self, p: &Piece) -> (r: bool)
        requires
            board_ok(self.grid()),
            p.kind < 7,
            p.rot < 4,
            -100 <= p.x <= 100,
            -100 <= p.y <= 100,
        ensures
            r == fits(self.grid(), *p),
    {
        let cs = p.cells();
        let mut i: usize = 0;
        while i < 4
            invariant
                board_ok(self.grid()),
                p.kind < 7,
                p.rot < 4,
                -100 <= p.x <= 100,
                -100 <= p.y <= 100,
                cs == shape(p.kind, p.rot),
                i <= 4,
                forall|j: int| 0 <= j < i ==> cell_fits(self.grid(), #[trigger] cell(*p, j)),
            decreases 4 - i,
        {
            proof {
                lemma_shape_bounds(p.kind, p.rot, i as int);
            }
            let d = cs[i];
            let cx = p.x + d.0;
            let cy = p.y + d.1;
            assert(cell(*p, i as int) == (cx as int, cy as int));
            if cx < 0 || cx >= W as i32 {
                return false;
            }
            if cy >= H as i32 {
                return false;
            }
            if cy >= 0 && self.at(cx, cy).is_some() {
                return false;
            }
            i = i + 1;
        }
        true
    }

    /// Moves the current piece by `(dx, dy)` if it fits there; reports
    /// whether it moved.
    pub fn try_move(&mut self, dx: i32, dy: i32) -> (moved_ok: bool)
        requires
            old(self).wf(),
            !old(self).over,
            -2 <= dx <= 2,
            0 <= dy <= 1,
        ensures
            final(self).wf(),
            moved_ok == fits(old(self).grid(), moved(old(self).cur, dx as int, dy as int)),
            *final(self) == (if moved_ok {
                Tetris { cur: moved(old(self).cur, dx as int, dy as int), ..*old(self) }
            } else {
                *old(self)
            }),
    {
        let mut p = self.cur;
        p.x = p.x + dx;
        p.y = p.y + dy;
        if self.valid(&p) {
            proof {
                lemma_fits_bounds(self.grid(), p);
            }
            self.cur = p;
            true
        } else {
            false
        }
    }

    /// Rotates the current piece a quarter turn, trying wall kicks of 1, -1,
    /// 2 and -2 columns when the turned piece does not fit in place.
    pub fn rotate(&mut self)
        requires
            old(self).wf(),
            !old(self).over,
        ensures
            final(self).wf(),
            *final(self) == (Tetris { cur: rotated(old(self).grid(), old(self).cur), ..*old(self) }),
    {
        let mut p = self.cur;
        p.rot = (p.rot + 1) % 4;
        if self.valid(&p) {
            proof {
                lemma_fits_bounds(self.grid(), p);
            }
            self.cur = p;
            return;
        }
        let kicks: [i32; 4] = [1, -1, 2, -2];
        let mut i: usize = 0;
        while i < 4
            invariant
                self.wf(),
                !self.over,
                *self == *old(self),
                p == (Piece { rot: ((old(self).cur.rot + 1) % 4) as usize, ..old(self).cur }),
                !fits(self.grid(), p),
                kicks@ == seq![1i32, -1i32, 2i32, -2i32],
                i <= 4,
                forall|j: int| 0 <= j < i ==> !fits(self.grid(), #[trigger] moved(p, kicks@[j] as int, 0)),
            decreases 4 - i,
        {
            let mut k = p;
            k.x = k.x + kicks[i];
            if self.valid(&k) {
                proof {
                    lemma_fits_bounds(self.grid(), k);
                    assert(k == moved(p, kicks@[i as int] as int, 0));
                }
                self.cur = k;
                return;
            }
            assert(k == moved(p, kicks@[i as int] as int, 0));
            i = i + 1;
        }
        proof {
            assert(!fits(self.grid(), moved(p, kicks@[0] as int, 0)));
            assert(!fits(self.grid(), moved(p, kicks@[1] as int, 0)));
            assert(!fits(self.grid(), moved(p, kicks@[2] as int, 0)));
            assert(!fits(self.grid(), moved(p, kicks@[3] as int, 0)));
        }
    }

    /// A random kind for the next piece: any of the other six while the game
    /// goes on (each equally likely), any of the seven once it is over.
    fn random_kind(&self) -> (k: u8)
        requires
            self.cur.kind < 7,
        ensures
            k < 7,
            !self.over ==> k != self.cur.kind,
    {
        if self.over {
            random_below(7) as u8
        } else {
            let r = random_below(6) as u8;
            if r >= self.cur.kind {
                r + 1
            } else {
                r
            }
        }
    }

    /// Brings the next piece in at the top (origin column 3, one row above
    /// the well) and draws a new next kind; the game is over if the piece
    /// does not fit.
    fn spawn(&mut self)
        requires
            board_ok(old(self).grid()),
            old(self).cur.kind < 7,
            old(self).next_kind < 7,
        ensures
            final(self).cur == (Piece { kind: old(self).next_kind, rot: 0, x: 3, y: -1i32 }),
            final(self).next_kind < 7,
            !old(self).over ==> final(self).next_kind != final(self).cur.kind,
            final(self).over == (old(self).over || !fits(old(self).grid(), final(self).cur)),
            final(self).board == old(self).board,
            final(self).score == old(self).score,
            final(self).lines == old(self).lines,
            final(self).level == old(self).level,
    {
        self.cur = Piece { kind: self.next_kind, rot: 0, x: 3, y: -1 };
        self.next_kind = self.random_kind();
        if !self.valid(&self.cur) {
            self.over = true;
        }
    }


    /// Sets cell `(x, y)` to `v`, leaving everything else as it was.
    fn set_cell(&mut self, x: usize, y: usize, v: Option<u8>)
        requires
            board_ok(old(self).grid()),
            x < 10,
            y < 20,
        ensures
            final(self).grid() == old(self).grid().update(y as int, old(self).grid()[y as int].update(x as int, v)),
            *final(self) == (Tetris { board: final(self).board, ..*old(self) }),
    {
        let ghost g = self.grid();
        let mut row: Vec<Option<u8>> = Vec::new();
        let mut i: usize = 0;
        while i < W
            invariant
                g == self.grid(),
                board_ok(g),
                x < 10,
                y < 20,
                i <= 10,
                row@.len() == i,
                forall|j: int| 0 <= j < i ==> #[trigger] row@[j] == (if j == x { v } else { g[y as int][j] }),
            decreases 10 - i,
        {
            if i == x {
                row.push(v);
            } else {
                let c = self.at(i as i32, y as i32);
                row.push(c);
            }
            i = i + 1;
        }
        self.board.set(y, row);
        proof {
            assert(self.grid()[y as int] =~= g[y as int].update(x as int, v));
            assert(self.grid() =~= g.update(y as int, g[y as int].update(x as int, v)));
        }
    }

    /// Whether every cell of `row` is filled.
    fn is_full(row: &Vec<Option<u8>>) -> (r: bool)
        ensures
            r == row_full(row@),
    {
        let mut i: usize = 0;
        while i < row.len()
            invariant
                i <= row@.len(),
                forall|j: int| 0 <= j < i ==> (#[trigger] row@[j]) is Some,
            decreases row@.len() - i,
        {
            if row[i].is_none() {
                return false;
            }
            i = i + 1;
        }
        true
    }

    /// An empty row.
    fn new_row() -> (r: Vec<Option<u8>>)
        ensures
            r@ == empty_row(),
    {
        let mut row: Vec<Option<u8>> = Vec::new();
        let mut i: usize = 0;
        while i < W
            invariant
                i <= 10,
                row@.len() == i,
                forall|j: int| 0 <= j < i ==> (#[trigger] row@[j]) is None,
            decreases 10 - i,
        {
            row.push(None);
            i = i + 1;
        }
        assert(row@ =~= empty_row());
        row
    }

    /// Removes the full rows, lets the rows above fall, and scores: 100, 300,
    /// 500 or 800 points (for 1, 2, 3, 4 or more rows) times the level; the
    /// level becomes one more than the tens of cleared rows.
    pub fn clear_lines(&mut self)
        requires
            board_ok(old(self).grid()),
            old(self).score + line_points(full_count(old(self).grid())) * old(self).level <= u32::MAX,
            old(self).lines + full_count(old(self).grid()) <= u32::MAX,
        ensures
            board_ok(final(self).grid()),
            kinds_ok(old(self).grid()) ==> kinds_ok(final(self).grid()),
            final(self).grid() == cleared(old(self).grid()),
            final(self).lines == old(self).lines + full_count(old(self).grid()),
            final(self).score == old(self).score + line_points(full_count(old(self).grid())) * old(self).level,
            final(self).level == (if full_count(old(self).grid()) > 0 {
                (old(self).lines + full_count(old(self).grid())) / 10 + 1
            } else {
                old(self).level as int
            }),
            final(self).cur == old(self).cur,
            final(self).next_kind == old(self).next_kind,
            final(self).over == old(self).over,
            full_count(old(self).grid()) == 0 ==> final(self).score == old(self).score,
            full_count(old(self).grid()) == 1 ==> final(self).score == old(self).score + 100 * old(self).level,
            full_count(old(self).grid()) == 2 ==> final(self).score == old(self).score + 300 * old(self).level,
            full_count(old(self).grid()) == 3 ==> final(self).score == old(self).score + 500 * old(self).level,
            full_count(old(self).grid()) >= 4 ==> final(self).score == old(self).score + 800 * old(self).level,
    {
        let ghost g = self.grid();
        let mut rest: Vec<Vec<Option<u8>>> = Vec::new();
        std::mem::swap(&mut rest, &mut self.board);
        let mut kept: Vec<Vec<Option<u8>>> = Vec::new();
        let mut count: u32 = 0;
        let mut r: usize = 0;
        while r < H
            invariant
                board_ok(g),
                r <= 20,
                rows_view(rest@) == g.subrange(r as int, 20),
                kinds_ok(g) ==> forall|j: int| 0 <= j < kept@.len() ==> row_kinds_ok((#[trigger] kept@[j])@),
                rows_view(kept@) == kept_rows(g, r as int),
                forall|j: int| 0 <= j < kept@.len() ==> (#[trigger] kept@[j])@.len() == 10,
                count == r - kept@.len(),
            decreases 20 - r,
        {
            let ghost before = rest@;
            assert(rows_view(before).len() == before.len());
            let row = rest.remove(0);
            assert(row@ == g[r as int]) by {
                assert(rows_view(before)[0] == before[0]@);
                assert(rows_view(before)[0] == g.subrange(r as int, 20)[0]);
            }
            assert(rows_view(rest@) =~= g.subrange(r as int + 1, 20)) by {
                assert forall|j: int| 0 <= j < 19 - r implies #[trigger] rows_view(rest@)[j]
                    == g.subrange(r as int + 1, 20)[j] by {
                    assert(rows_view(before)[j + 1] == g.subrange(r as int, 20)[j + 1]);
                }
            }
            if Self::is_full(&row) {
                count = count + 1;
            } else {
                kept.push(row);
                assert(rows_view(kept@) =~= kept_rows(g, r as int + 1));
            }
            r = r + 1;
        }
        let mut fresh: Vec<Vec<Option<u8>>> = Vec::new();
        let mut i: u32 = 0;
        while i < count
            invariant
                i <= count,
                count <= 20,
                fresh@.len() == i,
                forall|j: int| 0 <= j < i ==> (#[trigger] fresh@[j])@ == empty_row(),
                kinds_ok(g) ==> forall|j: int| 0 <= j < kept@.len() ==> row_kinds_ok((#[trigger] kept@[j])@),
            decreases count - i,
        {
            let e = Self::new_row();
            fresh.push(e);
            i = i + 1;
        }
        let ghost fv = fresh@;
        let ghost kv = kept@;
        fresh.append(&mut kept);
        self.board = fresh;
        proof {
            assert(kept_rows(g, 20).len() == 20 - count);
            assert forall|j: int| 0 <= j < 20 && kinds_ok(g) implies row_kinds_ok(#[trigger] self.grid()[j]) by {
                if j < count {
                    assert(self.grid()[j] == fv[j]@);
                } else {
                    assert(self.grid()[j] == kv[j - count]@);
                }
            }
            assert(self.grid() =~= cleared(g)) by {
                assert forall|j: int| 0 <= j < 20 implies self.grid()[j] == cleared(g)[j] by {
                    if j < count {
                        assert(self.grid()[j] == fv[j]@);
                    } else {
                        assert(self.grid()[j] == kv[j - count]@);
                        assert(rows_view(kv)[j - count] == kept_rows(g, 20)[j - count]);
                    }
                }
            }
        }
        if count > 0 {
            self.lines = self.lines + count;
            let base: u32 = if count == 1 {
                100
            } else if count == 2 {
                300
            } else if count == 3 {
                500
            } else {
                800
            };
            assert(base == line_points(count as int));
            self.score = self.score + base * self.level;
            self.level = self.lines / 10 + 1;
        }
    }


    /// Locks the current piece into the well (see `locked`).
    fn lock(&mut self)
        requires
            old(self).wf(),
            !old(self).over,
            old(self).score + 800 * old(self).level <= u32::MAX,
            old(self).lines + 20 <= u32::MAX,
        ensures
            final(self).wf(),
            locked(*final(self), *old(self)),
    {
        let ghost g0 = self.grid();
        let ghost o = *self;
        let cs = self.cur.cells();
        let mut i: usize = 0;
        while i < 4
            invariant
                o == *old(self),
                o.wf(),
                g0 == o.grid(),
                board_ok(self.grid()),
                kinds_ok(self.grid()),
                fits(g0, o.cur),
                o.cur.kind < 7 && o.cur.rot < 4,
                -3 <= o.cur.x <= 9 && -1 <= o.cur.y <= 19,
                cs == shape(o.cur.kind, o.cur.rot),
                i <= 4,
                self.grid() == stamp(g0, o.cur, i as int),
                *self == (Tetris { board: self.board, ..o }),
                forall|j: int| 0 <= j < i ==> (#[trigger] cell(o.cur, j)).1 >= 0,
            decreases 4 - i,
        {
            proof {
                lemma_shape_bounds(o.cur.kind, o.cur.rot, i as int);
                assert(cell_fits(g0, cell(o.cur, i as int)));
            }
            let d = cs[i];
            let cx = self.cur.x + d.0;
            let cy = self.cur.y + d.1;
            assert(cell(o.cur, i as int) == (cx as int, cy as int));
            if cy < 0 {
                self.over = true;
                proof {
                    assert(first_above(o.cur) == i);
                }
                return;
            }
            self.set_cell(cx as usize, cy as usize, Some(self.cur.kind));
            i = i + 1;
        }
        assert(first_above(o.cur) == 4);
        proof {
            lemma_kept_rows(self.grid(), 20);
            let fc = full_count(self.grid());
            assert(0 <= line_points(fc) <= 800);
            assert(line_points(fc) * self.level <= 800 * self.level) by (nonlinear_arith)
                requires
                    0 <= line_points(fc) <= 800,
                    self.level >= 0,
            ;
        }
        self.clear_lines();
        self.spawn();
    }

    /// Drops the current piece as far as it falls, scores two points per row
    /// fallen, and locks it.
    fn hard_drop(&mut self)
        requires
            old(self).wf(),
            !old(self).over,
            old(self).headroom(),
        ensures
            final(self).wf(),
            locked(*final(self), dropped(*old(self), drop_dist(old(self).grid(), old(self).cur) as int)),
    {
        let ghost o = *self;
        let mut d: u32 = 0;
        loop
            invariant
                self.wf(),
                !self.over,
                d <= 21,
                -1 <= o.cur.y,
                self.cur.y == o.cur.y + d,
                *self == (Tetris { cur: moved(o.cur, 0, d as int), ..o }),
                drop_dist(o.grid(), o.cur) == d + drop_dist(o.grid(), self.cur),
            ensures
                self.wf(),
                !self.over,
                d <= 21,
                *self == (Tetris { cur: moved(o.cur, 0, d as int), ..o }),
                drop_dist(o.grid(), o.cur) == d + drop_dist(o.grid(), self.cur),
                !fits(o.grid(), moved(self.cur, 0, 1)),
            decreases 20 - self.cur.y,
        {
            let mut p = self.cur;
            p.y = p.y + 1;
            assert(p == moved(self.cur, 0, 1));
            if self.valid(&p) {
                proof {
                    lemma_fits_bounds(self.grid(), p);
                }
                self.cur = p;
                d = d + 1;
            } else {
                break;
            }
        }
        assert(drop_dist(o.grid(), self.cur) == 0);
        self.score = self.score + 2 * d;
        self.lock();
    }

    /// One gravity step: the piece falls a row if it fits there (true), and
    /// otherwise locks (false).
    pub fn fall(&mut self) -> (moved_ok: bool)
        requires
            old(self).wf(),
            !old(self).over,
            old(self).headroom(),
        ensures
            final(self).wf(),
            moved_ok == fits(old(self).grid(), moved(old(self).cur, 0, 1)),
            moved_ok ==> *final(self) == (Tetris { cur: moved(old(self).cur, 0, 1), ..*old(self) }),
            !moved_ok ==> locked(*final(self), *old(self)),
    {
        if self.try_move(0, 1) {
            true
        } else {
            self.lock();
            false
        }
    }

    /// One key action, ignored once the game is over: Left and Right shift
    /// the piece, Up rotates it, Space or Enter drops it. (Down speeds up the
    /// fall, which the caller's timing handles.)
    pub fn handle(&mut self, a: Action)
        requires
            old(self).wf(),
            old(self).headroom(),
        ensures
            final(self).wf(),
            old(self).over ==> *final(self) == *old(self),
            !old(self).over ==> match a {
                Action::Left => *final(self) == (if fits(old(self).grid(), moved(old(self).cur, -1, 0)) {
                    Tetris { cur: moved(old(self).cur, -1, 0), ..*old(self) }
                } else {
                    *old(self)
                }),
                Action::Right => *final(self) == (if fits(old(self).grid(), moved(old(self).cur, 1, 0)) {
                    Tetris { cur: moved(old(self).cur, 1, 0), ..*old(self) }
                } else {
                    *old(self)
                }),
                Action::Up => *final(self) == (Tetris { cur: rotated(old(self).grid(), old(self).cur), ..*old(self) }),
                Action::Space | Action::Confirm => locked(
                    *final(self),
                    dropped(*old(self), drop_dist(old(self).grid(), old(self).cur) as int),
                ),
                _ => *final(self) == *old(self),
            },
    {
        if self.over {
            return;
        }
        match a {
            Action::Left => {
                let _ = self.try_move(-1, 0);
            },
            Action::Right => {
                let _ = self.try_move(1, 0);
            },
            Action::Up => self.rotate(),
            Action::Space | Action::Confirm => self.hard_drop(),
            _ => {},
        }
    }

    /// Whether the next moves stay within `u32` (see `headroom`).
    pub fn has_headroom(&self) -> (r: bool)
        ensures
            r == self.headroom(),
    {
        (self.score as u64) + 42 + 800 * (self.level as u64) <= u32::MAX as u64 && (self.lines as u64) + 20
            <= u32::MAX as u64
    }

    /// Running until the game is over.
    pub fn status(&self) -> (r: Status)
        ensures
            r == (if self.over { Status::Finished } else { Status::Running }),
    {
        if self.over {
            Status::Finished
        } else {
            Status::Running
        }
    }

    /// The score reached.
    pub fn outcome(&self) -> (r: GameOutcome)
        ensures
            r == GameOutcome::Score(self.score),
    {
        GameOutcome::Score(self.score)
    }


    /// A new game: an empty well, level 1, the first piece at the top (never
    /// the I piece: the first draw avoids the kind of the blank starting piece) and
    /// a different next kind.
    pub fn new() -> (t: Tetris)
        ensures
            t.wf(),
            forall|y: int, x: int| 0 <= y < 20 && 0 <= x < 10 ==> t.grid()[y][x] is None,
            t.cur.rot == 0 && t.cur.x == 3 && t.cur.y == -1,
            t.cur.kind != 0,
            t.next_kind != t.cur.kind,
            t.score == 0 && t.lines == 0 && t.level == 1,
            !t.over,
    {
        let mut board: Vec<Vec<Option<u8>>> = Vec::new();
        let mut i: usize = 0;
        while i < H
            invariant
                i <= 20,
                board@.len() == i,
                forall|y: int| 0 <= y < i ==> (#[trigger] board@[y])@ == empty_row(),
            decreases 20 - i,
        {
            let r = Self::new_row();
            board.push(r);
            i = i + 1;
        }
        let mut t = Tetris {
            board,
            cur: Piece { kind: 0, rot: 0, x: 0, y: 0 },
            next_kind: 0,
            score: 0,
            lines: 0,
            level: 1,
            over: false,
        };
        assert(forall|y: int| 0 <= y < 20 ==> #[trigger] t.grid()[y] == t.board@[y]@);
        t.next_kind = t.random_kind();
        t.spawn();
        proof {
            assert forall|k: int| 0 <= k < 4 implies cell_fits(t.grid(), #[trigger] cell(t.cur, k)) by {
                lemma_shape_bounds(t.cur.kind, t.cur.rot, k);
            }
        }
        t
    }


    /// The color index of a piece kind.
    pub fn piece_color(kind: u8) -> (c: u8)
        requires
            kind < 7,
        ensures
            c == spec_piece_color(kind),
    {
        let colors: [u8; 7] = [col::CYAN, col::YELLOW, col::MAGENTA, col::GREEN, col::RED, col::BLUE, col::ORANGE];
        colors[kind as usize]
    }

    /// Draws the settled cells and then the falling piece (its cells above
    /// the well left out) into the well whose top-left cell is `(bx, by)`;
    /// each cell of the well is two columns wide.
    fn draw_well(&self, c: &mut Canvas, bx: usize, by: usize)
        requires
            old(c).wf(),
            self.wf(),
            bx <= usize::MAX / 2 + 1,
            by <= usize::MAX / 2 + 1,
        ensures
            drawn_on(*final(c), *old(c)),
            forall|x: int, hh: int, y: int|
                0 <= x < 10 && 0 <= hh < 2 && 0 <= y < 20 && bx + 2 * x + hh < old(c).width() && by + y < old(c).height()
                    ==> #[trigger] final(c).cell(bx + 2 * x + hh, by + y) == well_glyph(
                    self.grid(),
                    self.cur,
                    x,
                    y,
                    old(c).cell(bx + 2 * x + hh, by + y),
                ),
    {
        let black = Color::AnsiValue(col::BLACK);
        let ghost c0 = *c;
        let ghost g = self.grid();
        let mut r: usize = 0;
        while r < H
            invariant
                self.wf(),
                g == self.grid(),
                bx <= usize::MAX / 2 + 1,
                by <= usize::MAX / 2 + 1,
                black == Color::AnsiValue(col::BLACK),
                drawn_on(*c, c0),
                r <= 20,
                forall|x: int, hh: int, y: int|
                    0 <= x < 10 && 0 <= hh < 2 && 0 <= y < 20 && bx + 2 * x + hh < c0.width() && by + y < c0.height()
                        ==> #[trigger] c.cell(bx + 2 * x + hh, by + y) == if y < r {
                        settled_glyph(g[y][x], c0.cell(bx + 2 * x + hh, by + y))
                    } else {
                        c0.cell(bx + 2 * x + hh, by + y)
                    },
            decreases 20 - r,
        {
            let mut x: usize = 0;
            while x < W
                invariant
                    self.wf(),
                    g == self.grid(),
                    bx <= usize::MAX / 2 + 1,
                    by <= usize::MAX / 2 + 1,
                    black == Color::AnsiValue(col::BLACK),
                    drawn_on(*c, c0),
                    r < 20,
                    x <= 10,
                    forall|xx: int, hh: int, y: int|
                        0 <= xx < 10 && 0 <= hh < 2 && 0 <= y < 20 && bx + 2 * xx + hh < c0.width() && by + y < c0.height()
                            ==> #[trigger] c.cell(bx + 2 * xx + hh, by + y) == if y < r || (y == r && xx < x) {
                            settled_glyph(g[y][xx], c0.cell(bx + 2 * xx + hh, by + y))
                        } else {
                            c0.cell(bx + 2 * xx + hh, by + y)
                        },
                decreases 10 - x,
            {
                let ghost before = *c;
                let v = self.at(x as i32, r as i32);
                match v {
                    Some(k) => {
                        assert(row_kinds_ok(g[r as int]));
                        assert(g[r as int][x as int] == Some(k));
                        c.put_block(bx + 2 * x, by + r, Color::AnsiValue(Self::piece_color(k)), black);
                    },
                    None => {},
                }
                proof {
                    assert forall|xx: int, hh: int, y: int|
                        0 <= xx < 10 && 0 <= hh < 2 && 0 <= y < 20 && bx + 2 * xx + hh < c0.width() && by + y < c0.height()
                            implies #[trigger] c.cell(bx + 2 * xx + hh, by + y) == if y < r || (y == r && xx < x + 1) {
                            settled_glyph(g[y][xx], c0.cell(bx + 2 * xx + hh, by + y))
                        } else {
                            c0.cell(bx + 2 * xx + hh, by + y)
                        } by {
                        assert(before.cell(bx + 2 * xx + hh, by + y) == before.cell(bx + 2 * xx + hh, by + y));
                        if xx == x && y == r {
                            assert(v == g[y][xx]);
                        }
                    }
                }
                x = x + 1;
            }
            r = r + 1;
        }
        let cs = self.cur.cells();
        let mut i: usize = 0;
        while i < 4
            invariant
                self.wf(),
                g == self.grid(),
                cs == shape(self.cur.kind, self.cur.rot),
                bx <= usize::MAX / 2 + 1,
                by <= usize::MAX / 2 + 1,
                black == Color::AnsiValue(col::BLACK),
                drawn_on(*c, c0),
                i <= 4,
                forall|x: int, hh: int, y: int|
                    0 <= x < 10 && 0 <= hh < 2 && 0 <= y < 20 && bx + 2 * x + hh < c0.width() && by + y < c0.height()
                        ==> #[trigger] c.cell(bx + 2 * x + hh, by + y) == if exists|k: int| 0 <= k < i && cell(self.cur, k) == (x, y) {
                        Cell { ch: '█', fg: Color::AnsiValue(spec_piece_color(self.cur.kind)), bg: black }
                    } else {
                        settled_glyph(g[y][x], c0.cell(bx + 2 * x + hh, by + y))
                    },
            decreases 4 - i,
        {
            let ghost before = *c;
            proof {
                lemma_shape_bounds(self.cur.kind, self.cur.rot, i as int);
            }
            let d = cs[i];
            let cx = self.cur.x + d.0;
            let cy = self.cur.y + d.1;
            assert(cell(self.cur, i as int) == (cx as int, cy as int));
            if cx >= 0 && cx < W as i32 && cy >= 0 && cy < H as i32 {
                c.put_block(bx + 2 * (cx as usize), by + cy as usize, Color::AnsiValue(Self::piece_color(self.cur.kind)), black);
            }
            proof {
                assert forall|x: int, hh: int, y: int|
                    0 <= x < 10 && 0 <= hh < 2 && 0 <= y < 20 && bx + 2 * x + hh < c0.width() && by + y < c0.height()
                        implies #[trigger] c.cell(bx + 2 * x + hh, by + y) == if exists|k: int| 0 <= k < i + 1 && cell(self.cur, k) == (x, y) {
                        Cell { ch: '█', fg: Color::AnsiValue(spec_piece_color(self.cur.kind)), bg: black }
                    } else {
                        settled_glyph(g[y][x], c0.cell(bx + 2 * x + hh, by + y))
                    } by {
                    assert(before.cell(bx + 2 * x + hh, by + y) == before.cell(bx + 2 * x + hh, by + y));
                    if (exists|k: int| 0 <= k < i && cell(self.cur, k) == (x, y)) {
                        let k = choose|k: int| 0 <= k < i && cell(self.cur, k) == (x, y);
                        assert(0 <= k < i + 1 && cell(self.cur, k) == (x, y));
                    }
                    if cell(self.cur, i as int) == (x, y) {
                        assert(0 <= i < i + 1 && cell(self.cur, i as int) == (x, y));
                    }
                }
            }
            i = i + 1;
        }
        proof {
            assert forall|x: int, hh: int, y: int|
                0 <= x < 10 && 0 <= hh < 2 && 0 <= y < 20 && bx + 2 * x + hh < c0.width() && by + y < c0.height()
                    implies #[trigger] c.cell(bx + 2 * x + hh, by + y) == well_glyph(g, self.cur, x, y, c0.cell(bx + 2 * x + hh, by + y)) by {
                assert(c.cell(bx + 2 * x + hh, by + y) == c.cell(bx + 2 * x + hh, by + y));
            }
        }
    }

    /// Draws the side panel from `(px, oy)`: the title, score, lines, level,
    /// the best record (when there is one), the next piece's label, the next
    /// piece and the key help, each text on a row of its own as
    /// `panel_lines` says, over what was there; the next piece's cells, two
    /// columns each, from its top-left on the row below the label; nothing
    /// left of column `px` is touched.
    fn draw_panel(&self, c: &mut Canvas, px: usize, oy: usize, scores: &ScoreFile, t: &Ui)
        requires
            old(c).wf(),
            self.wf(),
            px <= usize::MAX / 2 + 24,
            oy <= usize::MAX / 2,
        ensures
            drawn_on(*final(c), *old(c)),
            px <= usize::MAX / 2 ==> forall|i: int, j: int|
                0 <= i < px && i < old(c).width() && 0 <= j < old(c).height() ==> #[trigger] final(c).cell(i, j)
                    == old(c).cell(i, j),
            lines_over(*final(c), *old(c), panel_lines(*self, *scores, *t, oy as int), wrap_column(px)),
            forall|k: int, hh: int|
                0 <= k < 4 && 0 <= hh < 2 && px + 2 * preview_dx(self.next_kind, k) + hh < old(c).width()
                    && preview_row(*scores, oy as int) + preview_dy(self.next_kind, k) < old(c).height() ==> #[trigger] final(c).cell(
                    px + 2 * preview_dx(self.next_kind, k) + hh,
                    preview_row(*scores, oy as int) + preview_dy(self.next_kind, k),
                ) == (Cell {
                    ch: '█',
                    fg: Color::AnsiValue(spec_piece_color(self.next_kind)),
                    bg: Color::AnsiValue(col::BLACK),
                }),
    {
        let black = Color::AnsiValue(col::BLACK);
        let ghost c0 = *c;
        let ghost colx = wrap_column(px);
        let ghost mut ls: Seq<PanelLine> = Seq::empty();
        let ghost b = scores.board("tetris"@);
        proof {
            if px <= usize::MAX / 2 {
                lemma_wrap_column_small(px);
            }
        }
        let mut py = oy;
        let ghost s0 = *c;
        c.put_str(px, py, t.tetris_title, Color::AnsiValue(col::YELLOW), black);
        proof {
            lemma_draw_line(s0, *c, c0, ls, (py as int, t.tetris_title@, col::YELLOW), colx, oy as int);
            ls = ls.push((py as int, t.tetris_title@, col::YELLOW));
        }
        py = py + 1;
        let ghost s1 = *c;
        c.put_str(px, py, t.tetris_sub, Color::AnsiValue(col::CYAN), black);
        proof {
            lemma_draw_line(s1, *c, c0, ls, (py as int, t.tetris_sub@, col::CYAN), colx, py as int);
            ls = ls.push((py as int, t.tetris_sub@, col::CYAN));
        }
        py = py + 2;
        let args = vec![dec_string(self.score as u64)];
        let line = fmt(t.score_fmt, args.as_slice());
        let ghost s2 = *c;
        c.put_str(px, py, line.as_str(), Color::AnsiValue(col::GREEN), black);
        proof {
            assert(texts(args@) =~= seq![dec_chars(self.score as nat)]);
            lemma_draw_line(s2, *c, c0, ls, (py as int, line@, col::GREEN), colx, py - 1);
            ls = ls.push((py as int, line@, col::GREEN));
        }
        py = py + 1;
        let args = vec![dec_string(self.lines as u64)];
        let line = fmt(t.lines_fmt, args.as_slice());
        let ghost s3 = *c;
        c.put_str(px, py, line.as_str(), Color::AnsiValue(col::WHITE), black);
        proof {
            assert(texts(args@) =~= seq![dec_chars(self.lines as nat)]);
            lemma_draw_line(s3, *c, c0, ls, (py as int, line@, col::WHITE), colx, py as int);
            ls = ls.push((py as int, line@, col::WHITE));
        }
        py = py + 1;
        let args = vec![dec_string(self.level as u64)];
        let line = fmt(t.level_fmt, args.as_slice());
        let ghost s4 = *c;
        c.put_str(px, py, line.as_str(), Color::AnsiValue(col::MAGENTA), black);
        proof {
            assert(texts(args@) =~= seq![dec_chars(self.level as nat)]);
            lemma_draw_line(s4, *c, c0, ls, (py as int, line@, col::MAGENTA), colx, py as int);
            ls = ls.push((py as int, line@, col::MAGENTA));
        }
        py = py + 1;
        let best = scores.get_vec("tetris");
        if best.len() > 0 {
            let e = &best[0];
            proof {
                assert(entries_view(best@)[0] == e@);
            }
            let args = vec![dec_string(e.score as u64)];
            let line = fmt(t.best_short_fmt, args.as_slice());
            let ghost s5 = *c;
            c.put_str(px, py, line.as_str(), Color::AnsiValue(col::GRAY), black);
            proof {
                assert(texts(args@) =~= seq![dec_chars(b[0].1 as nat)]);
                lemma_draw_line(s5, *c, c0, ls, (py as int, line@, col::GRAY), colx, py as int);
                ls = ls.push((py as int, line@, col::GRAY));
            }
            py = py + 1;
            let args = vec![e.user.clone()];
            let line = fmt("({})", args.as_slice());
            let ghost s6 = *c;
            c.put_str(px, py, line.as_str(), Color::AnsiValue(col::GRAY), black);
            proof {
                assert(texts(args@) =~= seq![b[0].0]);
                lemma_draw_line(s6, *c, c0, ls, (py as int, line@, col::GRAY), colx, py as int);
                ls = ls.push((py as int, line@, col::GRAY));
            }
            py = py + 1;
        }
        py = py + 1;
        let ghost s7 = *c;
        c.put_str(px, py, t.next, Color::AnsiValue(col::WHITE), black);
        proof {
            lemma_draw_line(s7, *c, c0, ls, (py as int, t.next@, col::WHITE), colx, py - 1);
            ls = ls.push((py as int, t.next@, col::WHITE));
        }
        py = py + 1;
        let ghost c1 = *c;
        let ghost ls1 = ls;
        proof {
            assert(py == preview_row(*scores, oy as int));
        }
        let next = Piece { kind: self.next_kind, rot: 0, x: 0, y: 0 };
        let ncs = next.cells();
        let mut minx: i32 = ncs[0].0;
        let mut miny: i32 = ncs[0].1;
        let mut i: usize = 1;
        while i < 4
            invariant
                self.next_kind < 7,
                ncs == shape(self.next_kind, 0),
                1 <= i <= 4,
                0 <= minx <= 3,
                0 <= miny <= 3,
                minx == shape_min_x(ncs@, i as int),
                miny == shape_min_y(ncs@, i as int),
                forall|j: int| 0 <= j < i ==> minx <= (#[trigger] ncs@[j]).0 && miny <= ncs@[j].1,
            decreases 4 - i,
        {
            proof {
                lemma_shape_bounds(self.next_kind, 0, i as int);
            }
            if ncs[i].0 < minx {
                minx = ncs[i].0;
            }
            if ncs[i].1 < miny {
                miny = ncs[i].1;
            }
            i = i + 1;
        }
        let ghost block = Cell { ch: '█', fg: Color::AnsiValue(spec_piece_color(self.next_kind)), bg: black };
        let mut i: usize = 0;
        while i < 4
            invariant
                self.next_kind < 7,
                ncs == shape(self.next_kind, 0),
                i <= 4,
                0 <= minx <= 3,
                0 <= miny <= 3,
                minx == shape_min_x(ncs@, 4),
                miny == shape_min_y(ncs@, 4),
                forall|j: int| 0 <= j < 4 ==> minx <= (#[trigger] ncs@[j]).0 && miny <= ncs@[j].1,
                px <= usize::MAX / 2 + 24,
                py <= usize::MAX / 2 + 10,
                py == preview_row(*scores, oy as int),
                black == Color::AnsiValue(col::BLACK),
                block == (Cell { ch: '█', fg: Color::AnsiValue(spec_piece_color(self.next_kind)), bg: black }),
                drawn_on(*c, *old(c)),
                drawn_on(c1, *old(c)),
                c0 == *old(c),
                px <= usize::MAX / 2 ==> wrap_column(px) == px as int,
                px <= usize::MAX / 2 ==> forall|ii: int, j: int|
                    0 <= ii < px && ii < c0.width() && 0 <= j < c0.height() ==> #[trigger] c.cell(ii, j) == c0.cell(ii, j),
                forall|ii: int, j: int|
                    0 <= ii < c1.width() && 0 <= j < c1.height() && (j < py || j >= py + 4) ==> #[trigger] c.cell(ii, j)
                        == c1.cell(ii, j),
                forall|k: int, hh: int|
                    0 <= k < i && 0 <= hh < 2 && px + 2 * preview_dx(self.next_kind, k) + hh < c1.width() && py
                        + preview_dy(self.next_kind, k) < c1.height() ==> #[trigger] c.cell(
                        px + 2 * preview_dx(self.next_kind, k) + hh,
                        py + preview_dy(self.next_kind, k),
                    ) == block,
            decreases 4 - i,
        {
            proof {
                lemma_shape_bounds(self.next_kind, 0, i as int);
            }
            let d = ncs[i];
            let ghost before = *c;
            c.put_block(px + 2 * ((d.0 - minx) as usize), py + (d.1 - miny) as usize, Color::AnsiValue(Self::piece_color(self.next_kind)), black);
            proof {
                assert(preview_dx(self.next_kind, i as int) == d.0 - minx);
                assert(preview_dy(self.next_kind, i as int) == d.1 - miny);
                assert forall|k: int, hh: int|
                    0 <= k < i + 1 && 0 <= hh < 2 && px + 2 * preview_dx(self.next_kind, k) + hh < c1.width() && py
                        + preview_dy(self.next_kind, k) < c1.height() implies #[trigger] c.cell(
                        px + 2 * preview_dx(self.next_kind, k) + hh,
                        py + preview_dy(self.next_kind, k),
                    ) == block by {
                    lemma_shape_bounds(self.next_kind, 0, k);
                    assert(before.cell(px + 2 * preview_dx(self.next_kind, k) + hh, py + preview_dy(self.next_kind, k))
                        == before.cell(px + 2 * preview_dx(self.next_kind, k) + hh, py + preview_dy(self.next_kind, k)));
                }
            }
            i = i + 1;
        }
        let ghost c2 = *c;
        let prow = py;
        py = py + 4;
        proof {
            assert forall|k: int, ii: int|
                0 <= k < ls1.len() && 0 <= ii < c.width() && 0 <= ls1[k].0 < c.height() implies #[trigger] c.cell(ii, ls1[k].0)
                    == put_str_cell(ls1[k].1, colx, ii, c.width() as int, Color::AnsiValue(ls1[k].2), Color::AnsiValue(0), c0.cell(ii, ls1[k].0)) by {
                assert(c1.cell(ii, ls1[k].0) == c1.cell(ii, ls1[k].0));
            }
            assert forall|ii: int, j: int| 0 <= ii < c.width() && py <= j < c.height() implies #[trigger] c.cell(ii, j)
                == c0.cell(ii, j) by {
                assert(c1.cell(ii, j) == c0.cell(ii, j));
            }
            assert(drawn_from(*c, c0, ls, colx, py as int));
        }
        let mut i: usize = 0;
        while i < 5
            invariant
                i <= 5,
                px <= usize::MAX / 2 + 24,
                py == prow + 4 + i,
                prow <= usize::MAX / 2 + 10,
                prow == preview_row(*scores, oy as int),
                black == Color::AnsiValue(col::BLACK),
                drawn_on(*c, *old(c)),
                drawn_on(c2, *old(c)),
                c0 == *old(c),
                colx == wrap_column(px),
                px <= usize::MAX / 2 ==> wrap_column(px) == px as int,
                px <= usize::MAX / 2 ==> forall|ii: int, j: int|
                    0 <= ii < px && ii < c0.width() && 0 <= j < c0.height() ==> #[trigger] c.cell(ii, j) == c0.cell(ii, j),
                ls == ls1 + Seq::new(i as nat, |k: int| (prow + 4 + k, t.tetris_help@[k]@, col::GRAY)),
                drawn_from(*c, c0, ls, colx, prow + 4 + i),
                forall|ii: int, j: int|
                    0 <= ii < c2.width() && 0 <= j < c2.height() && j < prow + 4 ==> #[trigger] c.cell(ii, j) == c2.cell(ii, j),
            decreases 5 - i,
        {
            let ghost before = *c;
            c.put_str(px, py, t.tetris_help[i], Color::AnsiValue(col::GRAY), black);
            proof {
                let l = ((prow + 4 + i) as int, t.tetris_help@[i as int]@, col::GRAY);
                lemma_draw_line(before, *c, c0, ls, l, colx, (prow + 4 + i) as int);
                ls = ls.push(l);
                assert(ls =~= ls1 + Seq::new((i + 1) as nat, |k: int| (prow + 4 + k, t.tetris_help@[k]@, col::GRAY)));
            }
            py = py + 1;
            i = i + 1;
        }
        proof {
            assert(ls =~= panel_lines(*self, *scores, *t, oy as int));
        }
    }

    /// Draws the game: the well with its frame, the settled cells, the
    /// falling piece (cells above the well left out), and the side panel with
    /// title, score, lines, level, best record, the next piece and key help
    /// in the texts of `t`. Each cell of the well is two columns wide, so a
    /// piece keeps its shape when it turns. The layout is centred, or starts
    /// at the canvas's edge when the canvas is smaller, and is cut off at the
    /// right and bottom edges. On a canvas of any size a terminal has, both
    /// columns of every cell of the well that are on the canvas show as
    /// `well_glyph` says (but for the last column or row of a canvas that
    /// cuts the frame there); the panel's texts show from four columns right
    /// of the well's frame as `panel_lines` says, and the next piece's blocks
    /// in its color from its top-left on the row below its label.
    pub fn draw(&self, c: &mut Canvas, scores: &ScoreFile, t: &Ui)
        requires
            old(c).wf(),
            self.wf(),
        ensures
            drawn_on(*final(c), *old(c)),
            ({
                let w = old(c).width() as int;
                let h = old(c).height() as int;
                let ox = if w >= 40 { (w - 40) / 2 } else { 0 };
                let oy = if h >= 22 { (h - 22) / 2 } else { 0 };
                w <= usize::MAX / 2 ==> forall|x: int, hh: int, y: int|
                    0 <= x < 10 && 0 <= hh < 2 && 0 <= y < 20 && ox + 1 + 2 * x + hh < w && oy + 1 + y < h && !((ox + 1 + 2 * x + hh
                        == w - 1 && ox + 21 >= w) || (oy + 1 + y == h - 1 && oy + 21 >= h)) ==> #[trigger] final(c).cell(
                        ox + 1 + 2 * x + hh,
                        oy + 1 + y,
                    )
                        == well_glyph(
                        self.grid(),
                        self.cur,
                        x,
                        y,
                        Cell { ch: ' ', fg: Color::AnsiValue(col::BLACK), bg: Color::AnsiValue(col::BLACK) },
                    )
            }),
            ({
                let w = old(c).width() as int;
                let h = old(c).height() as int;
                let ox = if w >= 40 { (w - 40) / 2 } else { 0 };
                let oy = if h >= 22 { (h - 22) / 2 } else { 0 };
                let px = ox + 24;
                w <= usize::MAX / 2 ==> {
                    &&& lines_shown(*final(c), panel_lines(*self, *scores, *t, oy), px, w)
                    &&& forall|k: int, hh: int|
                        0 <= k < 4 && 0 <= hh < 2 && px + 2 * preview_dx(self.next_kind, k) + hh < w && preview_row(*scores, oy)
                            + preview_dy(self.next_kind, k) < h ==> #[trigger] final(c).cell(
                            px + 2 * preview_dx(self.next_kind, k) + hh,
                            preview_row(*scores, oy) + preview_dy(self.next_kind, k),
                        ) == (Cell {
                            ch: '█',
                            fg: Color::AnsiValue(spec_piece_color(self.next_kind)),
                            bg: Color::AnsiValue(col::BLACK),
                        })
                }
            }),
    {
        let w = c.w();
        let h = c.h();
        let black = Color::AnsiValue(col::BLACK);
        c.fill_rect(0, 0, w, h, ' ', black, black);
        let panel_w: usize = 18;
        let ox = w.saturating_sub(2 * W + 2 + panel_w) / 2;
        let oy = h.saturating_sub(H + 2) / 2;
        let bx = ox + 1;
        let by = oy + 1;
        c.border(ox, oy, 2 * W + 2, H + 2, Color::AnsiValue(col::CYAN));
        let ghost c1 = *c;
        self.draw_well(c, bx, by);
        let ghost c2 = *c;
        let ghost c3 = *c;
        self.draw_panel(c, ox + 2 * W + 2 + 2, oy, scores, t);
        proof {
            if w <= usize::MAX / 2 {
                lemma_wrap_column_small((ox + 24) as usize);
                lemma_lines_shown(*c, c3, panel_lines(*self, *scores, *t, oy as int), (ox + 24) as int, w as int);
            }
            if w <= usize::MAX / 2 {
                assert forall|x: int, hh: int, y: int|
                    0 <= x < 10 && 0 <= hh < 2 && 0 <= y < 20 && ox + 1 + 2 * x + hh < w && oy + 1 + y < h && !((ox + 1 + 2 * x + hh
                        == w - 1 && ox + 21 >= w) || (oy + 1 + y == h - 1 && oy + 21 >= h)) implies #[trigger] c.cell(
                    ox + 1 + 2 * x + hh,
                    oy + 1 + y,
                ) == well_glyph(self.grid(), self.cur, x, y, Cell { ch: ' ', fg: black, bg: black }) by {
                    assert(c1.cell(bx + 2 * x + hh, by + y) == Cell { ch: ' ', fg: black, bg: black });
                    assert(c2.cell(bx + 2 * x + hh, by + y) == well_glyph(
                        self.grid(),
                        self.cur,
                        x,
                        y,
                        c1.cell(bx + 2 * x + hh, by + y),
                    ));
                    assert(c.cell(bx + 2 * x + hh, by + y) == c2.cell(bx + 2 * x + hh, by + y));
                }
            }
        }
    }

}


proof fn lemma_kept_rows(g: Board, n: int)
    requires
        0 <= n <= g.len(),
    ensures
        kept_rows(g, n).len() <= n,
        forall|j: int| 0 <= j < kept_rows(g, n).len() ==> !row_full(#[trigger] kept_rows(g, n)[j]),
        forall|j: int|
            0 <= j < kept_rows(g, n).len() ==> exists|m: int| 0 <= m < n && #[trigger] kept_rows(g, n)[j] == g[m],
    decreases n,
{
    if n > 0 {
        lemma_kept_rows(g, n - 1);
        let r = kept_rows(g, n - 1);
        let out = kept_rows(g, n);
        if !row_full(g[n - 1]) {
            assert forall|j: int| 0 <= j < out.len() implies exists|m: int| 0 <= m < n && #[trigger] out[j] == g[m] by {
                if j < r.len() {
                    assert(out[j] == r[j]);
                    let m = choose|m: int| 0 <= m < n - 1 && r[j] == g[m];
                    assert(out[j] == g[m]);
                } else {
                    assert(out[j] == g[n - 1]);
                }
            }
            assert forall|j: int| 0 <= j < out.len() implies !row_full(#[trigger] out[j]) by {
                if j < r.len() {
                    assert(out[j] == r[j]);
                }
            }
        }
    }
}

proof fn lemma_kept_all(g: Board, n: int)
    requires
        0 <= n <= g.len(),
        kept_rows(g, n).len() == n,
    ensures
        kept_rows(g, n) == g.take(n),
    decreases n,
{
    if n > 0 {
        lemma_kept_rows(g, n - 1);
        if row_full(g[n - 1]) {
            assert(kept_rows(g, n) == kept_rows(g, n - 1));
        } else {
            lemma_kept_all(g, n - 1);
            assert(g.take(n - 1).push(g[n - 1]) =~= g.take(n));
        }
    } else {
        assert(g.take(0) =~= Seq::<Seq<Option<u8>>>::empty());
    }
}

/// Clearing one, two, three or four (or more) rows at once is worth 100, 300,
/// 500 or 800 points before the level multiplier, and nothing when no row is
/// full; so clearing more rows at once never scores less, and up to four rows
/// each extra row scores more.
pub proof fn clearing_more_rows_scores_more(a: int, b: int)
    requires
        0 <= a <= b,
    ensures
        line_points(0) == 0,
        line_points(1) == 100,
        line_points(2) == 300,
        line_points(3) == 500,
        line_points(4) == 800,
        line_points(a) <= line_points(b),
        b <= 4 && a < b ==> line_points(a) < line_points(b),
        b >= 4 ==> line_points(b) == 800,
{
}

/// With no full row, clearing leaves the well as it was.
pub proof fn clearing_without_full_rows_changes_nothing(g: Board)
    requires
        board_ok(g),
        full_count(g) == 0,
    ensures
        cleared(g) == g,
{
    lemma_kept_all(g, 20);
    assert(g.take(20) =~= g);
    assert(cleared(g) =~= g);
}

/// Clearing leaves a well of 20 rows of 10 cells in which no row is full:
/// every full row is gone and the rows added on top are empty.
pub proof fn clearing_leaves_no_full_row(g: Board)
    requires
        board_ok(g),
    ensures
        board_ok(cleared(g)),
        forall|y: int| 0 <= y < 20 ==> !row_full(#[trigger] cleared(g)[y]),
{
    lemma_kept_rows(g, 20);
    let k = kept_rows(g, 20);
    let c = cleared(g);
    assert forall|y: int| 0 <= y < 20 implies (#[trigger] c[y]).len() == 10 && !row_full(c[y]) by {
        if y < full_count(g) {
            assert(c[y] == empty_row());
            assert(!(empty_row()[0] is Some));
        } else {
            assert(c[y] == k[y - full_count(g)]);
            let m = choose|m: int| 0 <= m < 20 && #[trigger] k[y - full_count(g)] == g[m];
        }
    }
}

} // verus!
