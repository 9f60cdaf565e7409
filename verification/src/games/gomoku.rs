//! Gomoku: the player (X, first) against a heuristic AI (O) on a 15x15 board;
//! five in a row wins.

use vstd::prelude::*;
use crate::input::Action;
use crate::games::{GameOutcome, Status};
use crate::rng::random_below;
use crate::canvas::{
    Canvas, Cell, Color, PanelLine, drawn_from, drawn_on, lemma_draw_line, lemma_put_str_cell_left,
    lemma_lines_shown, lemma_put_str_cell_right_ascii, lemma_wrap_column_small, lines_over, lines_shown, put_str_cell, spec_str_width,
    wrap_column,
};
use crate::col;
use crate::lang::{Ui, filled, fmt, texts};
use crate::score::{ScoreFile, stats_lookup};
use crate::text::{dec_chars, dec_string, lemma_dec_chars_ascii, lemma_dec_chars_len, pad_left, push_right_aligned};

verus! {

/// Board size.
pub const N: usize = 15;
/// The player's stone.
pub const PLAYER: u8 = 1;
/// The AI's stone.
pub const AI: u8 = 2;

/// A board as plain values: rows of cells, `None` for empty.
pub type Grid = Seq<Seq<Option<u8>>>;

/// The column letters under the grid whose top row is `oy`.
pub open spec fn column_letters(oy: int) -> Seq<PanelLine> {
    seq![(oy + 16, "a b c d e f g h i j k l m n o"@, col::GRAY)]
}

/// The row numbers, 1 to 15, right-aligned in two columns, left of the grid
/// whose top row is `oy`.
pub open spec fn row_numbers(oy: int) -> Seq<PanelLine> {
    Seq::new(15, |r: int| (oy + r, pad_left(dec_chars((r + 1) as nat), 2), col::GRAY))
}

/// The column where the row numbers start: three left of the grid's
/// column `ox`, or the canvas's edge.
pub open spec fn number_column(ox: usize) -> int {
    if ox >= 3 {
        ox - 3
    } else {
        0
    }
}

/// The status line's text: the result once the game is over, else whose
/// turn it is.
pub open spec fn status_text(g: Gomoku, t: Ui) -> Seq<char> {
    if g.over {
        if g.draw {
            t.draw@
        } else if g.win {
            t.you_win@
        } else {
            t.you_lose@
        }
    } else if g.ai_pending {
        t.ai_thinking@
    } else {
        t.your_turn@
    }
}

/// The status line's color: green for a win, red for a loss, else white.
pub open spec fn status_color(g: Gomoku) -> u8 {
    if g.over && !g.draw {
        if g.win {
            col::GREEN
        } else {
            col::RED
        }
    } else {
        col::WHITE
    }
}

/// The lines of the side panel starting at row `oy`: the title, the two
/// stones, `user`'s record, the status line and the three key-help lines.
pub open spec fn panel_lines(g: Gomoku, scores: ScoreFile, user: Seq<char>, t: Ui, oy: int) -> Seq<PanelLine> {
    let st = stats_lookup(scores.table(), user);
    seq![
        (oy, t.gomoku_title@, col::YELLOW),
        (oy + 2, t.you_first@, col::GREEN),
        (oy + 3, t.ai_stone@, col::RED),
        (oy + 5, filled(t.stat_fmt@, seq![dec_chars(st.0 as nat), dec_chars(st.1 as nat)], 0), col::CYAN),
        (oy + 7, status_text(g, t), status_color(g)),
        (oy + 10, t.gomoku_help@[0]@, col::GRAY),
        (oy + 11, t.gomoku_help@[1]@, col::GRAY),
        (oy + 12, t.gomoku_help@[2]@, col::GRAY),
    ]
}

/// Gomoku game state.
pub struct Gomoku {
    /// `board[y][x]`.
    pub board: Vec<Vec<Option<u8>>>,
    /// Cursor column.
    pub cx: usize,
    /// Cursor row.
    pub cy: usize,
    /// Whose turn it is (`PLAYER` or `AI`).
    pub turn: u8,
    /// Stones placed so far.
    pub total: usize,
    pub over: bool,
    pub win: bool,
    pub draw: bool,
    /// The AI is about to move.
    pub ai_pending: bool,
    /// The last stone placed.
    pub last: Option<(usize, usize)>,
}

pub open spec fn in_b(x: int, y: int) -> bool {
    0 <= x < 15 && 0 <= y < 15
}

/// Well-formed grid: 15 rows of 15 cells.
pub open spec fn grid_ok(g: Grid) -> bool {
    g.len() == 15 && forall|y: int| 0 <= y < 15 ==> #[trigger] g[y].len() == 15
}

/// Steps left before leaving the board going in direction `(dx, dy)` from `(x, y)`.
pub open spec fn steps_left(x: int, y: int, dx: int, dy: int) -> int {
    if dx > 0 {
        15 - x
    } else if dx < 0 {
        x + 1
    } else if dy > 0 {
        15 - y
    } else {
        y + 1
    }
}

pub open spec fn unit_dir(dx: int, dy: int) -> bool {
    -1 <= dx <= 1 && -1 <= dy <= 1 && !(dx == 0 && dy == 0)
}

/// Number of consecutive `stone` cells starting at `(x, y)` going `(dx, dy)`.
pub open spec fn run(g: Grid, x: int, y: int, dx: int, dy: int, stone: u8) -> nat
    decreases steps_left(x, y, dx, dy),
{
    if !unit_dir(dx, dy) || !in_b(x, y) || g[y][x] != Some(stone) {
        0
    } else {
        1 + run(g, x + dx, y + dy, dx, dy, stone)
    }
}

/// The first cell, from `(x, y)` going `(dx, dy)`, that is off the board or not `stone`.
pub open spec fn run_stop(g: Grid, x: int, y: int, dx: int, dy: int, stone: u8) -> (int, int)
    decreases steps_left(x, y, dx, dy),
{
    if !unit_dir(dx, dy) || !in_b(x, y) || g[y][x] != Some(stone) {
        (x, y)
    } else {
        run_stop(g, x + dx, y + dy, dx, dy, stone)
    }
}

/// Length of the line of `stone` through `(x, y)` along `(dx, dy)`, counting `(x, y)` itself.
pub open spec fn line_count(g: Grid, x: int, y: int, dx: int, dy: int, stone: u8) -> int {
    1 + run(g, x + dx, y + dy, dx, dy, stone) as int + run(g, x - dx, y - dy, -dx, -dy, stone) as int
}

/// 1 when the line of `stone` from `(x, y)` going `(dx, dy)` ends at an empty cell.
pub open spec fn open_end(g: Grid, x: int, y: int, dx: int, dy: int, stone: u8) -> int {
    let e = run_stop(g, x + dx, y + dy, dx, dy, stone);
    if in_b(e.0, e.1) && g[e.1][e.0] is None {
        1
    } else {
        0
    }
}

/// Five (or more) in a row through `(x, y)` in one of the four directions.
pub open spec fn spec_has_five(g: Grid, x: int, y: int, stone: u8) -> bool {
    ||| line_count(g, x, y, 1, 0, stone) >= 5
    ||| line_count(g, x, y, 0, 1, stone) >= 5
    ||| line_count(g, x, y, 1, 1, stone) >= 5
    ||| line_count(g, x, y, 1, -1, stone) >= 5
}

/// Heuristic value of a line of `cnt` stones with `open` empty ends.
pub open spec fn spec_line_value(cnt: int, open: int) -> int {
    if cnt >= 5 {
        1_000_000
    } else if cnt == 4 {
        if open == 2 {
            100_000
        } else if open == 1 {
            10_000
        } else {
            1_000
        }
    } else if cnt == 3 {
        if open == 2 {
            10_000
        } else if open == 1 {
            1_000
        } else {
            100
        }
    } else if cnt == 2 {
        if open == 2 {
            1_000
        } else if open == 1 {
            100
        } else {
            10
        }
    } else {
        if open == 2 {
            100
        } else if open == 1 {
            10
        } else {
            1
        }
    }
}

/// Value of the line through `(x, y)` along `(dx, dy)`.
pub open spec fn dir_value(g: Grid, x: int, y: int, dx: int, dy: int, stone: u8) -> int {
    spec_line_value(
        line_count(g, x, y, dx, dy, stone),
        open_end(g, x, y, dx, dy, stone) + open_end(g, x, y, -dx, -dy, stone),
    )
}

/// Value of placing `stone` at `(x, y)`: the sum over the four directions.
pub open spec fn spec_score_cell(g: Grid, x: int, y: int, stone: u8) -> int {
    dir_value(g, x, y, 1, 0, stone) + dir_value(g, x, y, 0, 1, stone) + dir_value(g, x, y, 1, 1, stone)
        + dir_value(g, x, y, 1, -1, stone)
}

/// A stone within two cells (in both coordinates) of `(x, y)`.
pub open spec fn spec_has_neighbor(g: Grid, x: int, y: int) -> bool {
    exists|xx: int, yy: int|
        x - 2 <= xx <= x + 2 && y - 2 <= yy <= y + 2 && in_b(xx, yy) && (#[trigger] g[yy][xx]) is Some
}

/// A cell the AI considers: empty and near a stone.
pub open spec fn is_candidate(g: Grid, x: int, y: int) -> bool {
    g[y][x] is None && spec_has_neighbor(g, x, y)
}

/// The candidate cells among the first `k` cells in row-major order.
pub open spec fn cands_before(g: Grid, k: int) -> Seq<(int, int)>
    decreases k,
{
    if k <= 0 {
        Seq::empty()
    } else {
        let r = cands_before(g, k - 1);
        let c = ((k - 1) % 15, (k - 1) / 15);
        if is_candidate(g, c.0, c.1) {
            r.push(c)
        } else {
            r
        }
    }
}

/// All candidate cells in row-major order.
pub open spec fn candidates(g: Grid) -> Seq<(int, int)> {
    cands_before(g, 225)
}

/// Preference for central cells: 6 minus half the distance from the center.
pub open spec fn center_bonus(x: int, y: int) -> int {
    let ax = if x >= 7 {
        x - 7
    } else {
        7 - x
    };
    let ay = if y >= 7 {
        y - 7
    } else {
        7 - y
    };
    6 - (ax + ay) / 2
}

/// The AI's ranking of a candidate when nobody can win at once: its own
/// value plus the player's value there plus the center bonus.
#[verifier::opaque]
pub open spec fn heuristic(g: Grid, c: (int, int)) -> int {
    spec_score_cell(g, c.0, c.1, AI) + spec_score_cell(g, c.0, c.1, PLAYER) + center_bonus(c.0, c.1)
}

/// `stone` wins by playing at `c`.
pub open spec fn wins_at(g: Grid, c: (int, int), stone: u8) -> bool {
    spec_score_cell(g, c.0, c.1, stone) >= 1_000_000
}

/// Index `i` of the candidate list is the first winning cell for `stone`.
pub open spec fn first_win(g: Grid, cs: Seq<(int, int)>, i: int, stone: u8) -> bool {
    0 <= i < cs.len() && wins_at(g, cs[i], stone) && forall|j: int| 0 <= j < i ==> !wins_at(g, #[trigger] cs[j], stone)
}

/// The AI's rule for choosing candidate `i`: win at once if it can (first such
/// cell in row-major order); else block the player's immediate win (first such
/// cell); else take a cell of the highest heuristic value.
pub open spec fn ai_choice_ok(g: Grid, cs: Seq<(int, int)>, i: int) -> bool {
    if exists|j: int| 0 <= j < cs.len() && wins_at(g, #[trigger] cs[j], AI) {
        first_win(g, cs, i, AI)
    } else if exists|j: int| 0 <= j < cs.len() && wins_at(g, #[trigger] cs[j], PLAYER) {
        first_win(g, cs, i, PLAYER)
    } else {
        0 <= i < cs.len() && forall|j: int| 0 <= j < cs.len() ==> heuristic(g, #[trigger] cs[j]) <= heuristic(g, cs[i])
    }
}

/// The left column of the grid on a canvas `w` wide (centered).
pub open spec fn board_left(w: int) -> int {
    if w >= 31 {
        (w - 31) / 2
    } else {
        0
    }
}

/// The top row of the grid on a canvas `h` high (centered).
pub open spec fn board_top(h: int) -> int {
    if h >= 15 {
        (h - 15) / 2
    } else {
        0
    }
}

/// The canvas cell showing board position `(q, r)` of a grid drawn at
/// `(ox, oy)`.
pub open spec fn shown_at(c: Canvas, ox: int, oy: int, q: int, r: int) -> Cell {
    c.cell(ox + 2 * q, oy + r)
}

/// How a board position holding `v` is shown: the player's X in green or
/// the AI's O in red (on gray under the cursor); an empty position is the
/// cursor mark (yellow, blinking between gray and dark blue) or a dark green
/// cross; any other value leaves `under` as it was.
pub open spec fn board_glyph(v: Option<u8>, cursor: bool, blink: bool, under: Cell) -> Cell {
    let bg = if cursor {
        Color::AnsiValue(col::GRAY)
    } else {
        Color::AnsiValue(col::BLACK)
    };
    match v {
        Some(s) => if s == 1 {
            Cell { ch: 'X', fg: Color::AnsiValue(col::GREEN), bg }
        } else if s == 2 {
            Cell { ch: 'O', fg: Color::AnsiValue(col::RED), bg }
        } else {
            under
        },
        None => if cursor {
            Cell {
                ch: '·',
                fg: Color::AnsiValue(col::YELLOW),
                bg: if blink {
                    Color::AnsiValue(col::GRAY)
                } else {
                    Color::AnsiValue(col::DARK_BLUE)
                },
            }
        } else {
            Cell { ch: '+', fg: Color::AnsiValue(col::DARK_GREEN), bg: Color::AnsiValue(col::BLACK) }
        },
    }
}

/// Board coordinates as integers.
pub open spec fn cells_view(v: Seq<(usize, usize)>) -> Seq<(int, int)> {
    v.map_values(|p: (usize, usize)| (p.0 as int, p.1 as int))
}

impl Gomoku {
    /// The board as plain values.
    pub open spec fn grid(self) -> Grid {
        self.board@.map_values(|r: Vec<Option<u8>>| r@)
    }

    /// Well-formedness: a 15x15 board, the cursor on it, at most 225 stones,
    /// and a full board means the game is over.
    pub open spec fn wf(self) -> bool {
        &&& grid_ok(self.grid())
        &&& self.cx < 15
        &&& self.cy < 15
        &&& self.total <= 225
        &&& (self.total == 225 ==> self.over)
    }

    /// `new` is `old` after `stone` was placed at `(x, y)`: the cell is set, one
    /// more stone counted, it is the last stone, five in a row ends the game
    /// (won when it is the player's), and otherwise a full board is a draw.
    pub open spec fn placed(new: Gomoku, old: Gomoku, x: int, y: int, stone: u8) -> bool {
        let g = old.grid().update(y, old.grid()[y].update(x, Some(stone)));
        &&& new.grid() == g
        &&& new.total == old.total + 1
        &&& new.last == Some((x as usize, y as usize))
        &&& new.cx == old.cx
        &&& new.cy == old.cy
        &&& new.ai_pending == old.ai_pending
        &&& if spec_has_five(g, x, y, stone) {
            new.over && new.win == (stone == PLAYER) && new.draw == old.draw
        } else if old.total + 1 >= 225 {
            new.over && new.draw && new.win == old.win
        } else {
            new.over == old.over && new.draw == old.draw && new.win == old.win
        }
    }

    /// A fresh game: empty board, cursor in the center, the player to move.
    pub fn new() -> (g: Gomoku)
        ensures
            g.wf(),
            forall|x: int, y: int| in_b(x, y) ==> g.grid()[y][x] is None,
            g.cx == 7 && g.cy == 7,
            g.turn == PLAYER,
            g.total == 0,
            !g.over && !g.win && !g.draw && !g.ai_pending,
            g.last is None,
    {
        let mut board: Vec<Vec<Option<u8>>> = Vec::new();
        let mut i: usize = 0;
        while i < N
            invariant
                i <= 15,
                board@.len() == i,
                forall|y: int| 0 <= y < i ==> (#[trigger] board@[y])@.len() == 15 && forall|x: int|
                    0 <= x < 15 ==> board@[y]@[x] is None,
            decreases 15 - i,
        {
            let mut row: Vec<Option<u8>> = Vec::new();
            let mut j: usize = 0;
            while j < N
                invariant
                    j <= 15,
                    row@.len() == j,
                    forall|x: int| 0 <= x < j ==> row@[x] is None,
                decreases 15 - j,
            {
                row.push(None);
                j = j + 1;
            }
            board.push(row);
            i = i + 1;
        }
        Gomoku {
            board,
            cx: N / 2,
            cy: N / 2,
            turn: PLAYER,
            total: 0,
            over: false,
            win: false,
            draw: false,
            ai_pending: false,
            last: None,
        }
    }

    /// Whether `(x, y)` is on the board.
    pub fn in_b(x: i32, y: i32) -> (r: bool)
        ensures
            r == in_b(x as int, y as int),
    {
        x >= 0 && y >= 0 && x < 15 && y < 15
    }

    /// The stone at an on-board cell.
    fn at(&self, x: i32, y: i32) -> (r: Option<u8>)
        requires
            grid_ok(self.grid()),
            in_b(x as int, y as int),
        ensures
            r == self.grid()[y as int][x as int],
    {
        assert(self.grid()[y as int] == self.board@[y as int]@);
        self.board[y as usize][x as usize]
    }

    /// Whether `(x, y)` is on the board and holds `stone`.
    fn holds(&self, x: i32, y: i32, stone: u8) -> (r: bool)
        requires
            grid_ok(self.grid()),
        ensures
            r == (in_b(x as int, y as int) && self.grid()[y as int][x as int] == Some(stone)),
    {
        if Self::in_b(x, y) {
            match self.at(x, y) {
                Some(s) => s == stone,
                None => false,
            }
        } else {
            false
        }
    }

    /// Follows the run of `stone` from `(x, y)` going `(dx, dy)`: its length and
    /// where it stops.
    fn follow(&self, x: i32, y: i32, dx: i32, dy: i32, stone: u8) -> (r: (i32, i32, i32))
        requires
            grid_ok(self.grid()),
            unit_dir(dx as int, dy as int),
            -16 <= x <= 16,
            -16 <= y <= 16,
        ensures
            r.0 == run(self.grid(), x as int, y as int, dx as int, dy as int, stone),
            (r.1 as int, r.2 as int) == run_stop(self.grid(), x as int, y as int, dx as int, dy as int, stone),
            r.0 <= 15,
    {
        let ghost g = self.grid();
        let mut cx = x;
        let mut cy = y;
        let mut cnt: i32 = 0;
        while self.holds(cx, cy, stone)
            invariant
                g == self.grid(),
                grid_ok(g),
                unit_dir(dx as int, dy as int),
                -16 <= cx <= 16,
                -16 <= cy <= 16,
                0 <= cnt <= 15,
                in_b(cx as int, cy as int) ==> cnt + steps_left(cx as int, cy as int, dx as int, dy as int) <= 15 || cnt == 0,
                run(g, x as int, y as int, dx as int, dy as int, stone) == cnt + run(g, cx as int, cy as int, dx as int, dy as int, stone),
                run_stop(g, x as int, y as int, dx as int, dy as int, stone) == run_stop(g, cx as int, cy as int, dx as int, dy as int, stone),
            decreases steps_left(cx as int, cy as int, dx as int, dy as int),
        {
            cnt = cnt + 1;
            cx = cx + dx;
            cy = cy + dy;
        }
        (cnt, cx, cy)
    }

    /// Length of the line of `stone` through `(x, y)` along `(dx, dy)`, and how
    /// many of its two ends are empty cells.
    fn line_at(&self, x: usize, y: usize, dx: i32, dy: i32, stone: u8) -> (r: (i32, i32))
        requires
            grid_ok(self.grid()),
            x < 15,
            y < 15,
            unit_dir(dx as int, dy as int),
        ensures
            r.0 == line_count(self.grid(), x as int, y as int, dx as int, dy as int, stone),
            r.1 == open_end(self.grid(), x as int, y as int, dx as int, dy as int, stone) + open_end(
                self.grid(),
                x as int,
                y as int,
                -dx as int,
                -dy as int,
                stone,
            ),
            1 <= r.0 <= 31,
            0 <= r.1 <= 2,
    {
        let xi = x as i32;
        let yi = y as i32;
        let f = self.follow(xi + dx, yi + dy, dx, dy, stone);
        let b = self.follow(xi - dx, yi - dy, -dx, -dy, stone);
        let mut open: i32 = 0;
        if Self::in_b(f.1, f.2) && self.at(f.1, f.2).is_none() {
            open = open + 1;
        }
        if Self::in_b(b.1, b.2) && self.at(b.1, b.2).is_none() {
            open = open + 1;
        }
        (1 + f.0 + b.0, open)
    }

    /// Whether placing `stone` at `(x, y)` makes five (or more) in a row, the
    /// cell `(x, y)` itself counted as `stone`.
    pub fn has_five(&self, x: usize, y: usize, stone: u8) -> (r: bool)
        requires
            grid_ok(self.grid()),
            x < 15,
            y < 15,
        ensures
            r == spec_has_five(self.grid(), x as int, y as int, stone),
    {
        let h = self.line_at(x, y, 1, 0, stone);
        if h.0 >= 5 {
            return true;
        }
        let v = self.line_at(x, y, 0, 1, stone);
        if v.0 >= 5 {
            return true;
        }
        let d = self.line_at(x, y, 1, 1, stone);
        if d.0 >= 5 {
            return true;
        }
        let a = self.line_at(x, y, 1, -1, stone);
        a.0 >= 5
    }

    /// Heuristic value of a line of `cnt` stones with `open` empty ends.
    pub fn line_value(cnt: i32, open: i32) -> (r: i32)
        ensures
            r == spec_line_value(cnt as int, open as int),
    {
        if cnt >= 5 {
            return 1_000_000;
        }
        if cnt == 4 {
            if open == 2 {
                100_000
            } else if open == 1 {
                10_000
            } else {
                1_000
            }
        } else if cnt == 3 {
            if open == 2 {
                10_000
            } else if open == 1 {
                1_000
            } else {
                100
            }
        } else if cnt == 2 {
            if open == 2 {
                1_000
            } else if open == 1 {
                100
            } else {
                10
            }
        } else {
            if open == 2 {
                100
            } else if open == 1 {
                10
            } else {
                1
            }
        }
    }

    /// The value of placing `stone` at `(x, y)`: the sum over the four
    /// directions of the value of the line through it.
    pub fn score_cell(&self, x: usize, y: usize, stone: u8) -> (r: i32)
        requires
            grid_ok(self.grid()),
            x < 15,
            y < 15,
        ensures
            r == spec_score_cell(self.grid(), x as int, y as int, stone),
            4 <= r <= 4_000_000,
    {
        let h = self.line_at(x, y, 1, 0, stone);
        let v = self.line_at(x, y, 0, 1, stone);
        let d = self.line_at(x, y, 1, 1, stone);
        let a = self.line_at(x, y, 1, -1, stone);
        Self::line_value(h.0, h.1) + Self::line_value(v.0, v.1) + Self::line_value(d.0, d.1)
            + Self::line_value(a.0, a.1)
    }


    /// Whether a stone lies within two cells (in both coordinates) of `(x, y)`.
    pub fn has_neighbor(&self, x: usize, y: usize) -> (r: bool)
        requires
            grid_ok(self.grid()),
            x < 15,
            y < 15,
        ensures
            r == spec_has_neighbor(self.grid(), x as int, y as int),
    {
        let ghost g = self.grid();
        let xi = x as i32;
        let yi = y as i32;
        let mut yy: i32 = yi - 2;
        while yy <= yi + 2
            invariant
                g == self.grid(),
                grid_ok(g),
                xi == x,
                yi == y,
                x < 15,
                y < 15,
                yi - 2 <= yy <= yi + 3,
                forall|a: int, b: int|
                    xi - 2 <= a <= xi + 2 && yi - 2 <= b < yy && in_b(a, b) ==> (#[trigger] g[b][a]) is None,
            decreases yi + 3 - yy,
        {
            let mut xx: i32 = xi - 2;
            while xx <= xi + 2
                invariant
                    g == self.grid(),
                    grid_ok(g),
                    xi == x,
                    yi == y,
                    x < 15,
                    y < 15,
                    yi - 2 <= yy <= yi + 2,
                    xi - 2 <= xx <= xi + 3,
                    forall|a: int, b: int|
                        xi - 2 <= a <= xi + 2 && yi - 2 <= b < yy && in_b(a, b) ==> (#[trigger] g[b][a]) is None,
                    forall|a: int| xi - 2 <= a < xx && in_b(a, yy as int) ==> (#[trigger] g[yy as int][a]) is None,
                decreases xi + 3 - xx,
            {
                if Self::in_b(xx, yy) && self.at(xx, yy).is_some() {
                    return true;
                }
                xx = xx + 1;
            }
            yy = yy + 1;
        }
        proof {
            assert forall|a: int, b: int|
                x - 2 <= a <= x + 2 && y - 2 <= b <= y + 2 && in_b(a, b) implies !((#[trigger] g[b][a]) is Some) by {
            }
        }
        false
    }


    /// Sets cell `(x, y)` to `v`, leaving everything else as it was.
    fn set_cell(&mut self, x: usize, y: usize, v: Option<u8>)
        requires
            grid_ok(old(self).grid()),
            x < 15,
            y < 15,
        ensures
            final(self).grid() == old(self).grid().update(y as int, old(self).grid()[y as int].update(x as int, v)),
            final(self).cx == old(self).cx,
            final(self).cy == old(self).cy,
            final(self).turn == old(self).turn,
            final(self).total == old(self).total,
            final(self).over == old(self).over,
            final(self).win == old(self).win,
            final(self).draw == old(self).draw,
            final(self).ai_pending == old(self).ai_pending,
            final(self).last == old(self).last,
    {
        let ghost g = self.grid();
        let mut row: Vec<Option<u8>> = Vec::new();
        let mut i: usize = 0;
        while i < N
            invariant
                g == self.grid(),
                grid_ok(g),
                x < 15,
                y < 15,
                i <= 15,
                row@.len() == i,
                forall|j: int| 0 <= j < i ==> #[trigger] row@[j] == (if j == x { v } else { g[y as int][j] }),
            decreases 15 - i,
        {
            if i == x {
                row.push(v);
            } else {
                let c = self.at(i as i32, y as i32);
                row.push(c);
            }
            i = i + 1;
        }
        self.board.set(y, row);
        proof {
            assert(self.grid()[y as int] =~= g[y as int].update(x as int, v));
            assert(self.grid() =~= g.update(y as int, g[y as int].update(x as int, v)));
        }
    }

    /// Places `stone` at `(x, y)` and settles the game: five in a row ends it
    /// (a win when the stone is the player's), and otherwise a full board ends
    /// it in a draw.
    fn place(&mut self, x: usize, y: usize, stone: u8)
        requires
            old(self).wf(),
            x < 15,
            y < 15,
            old(self).total < 225,
        ensures
            final(self).wf(),
            Gomoku::placed(*final(self), *old(self), x as int, y as int, stone),
            final(self).turn == old(self).turn,
    {
        self.set_cell(x, y, Some(stone));
        self.total = self.total + 1;
        self.last = Some((x, y));
        if self.has_five(x, y, stone) {
            self.over = true;
            self.win = stone == PLAYER;
            return;
        }
        if self.total >= N * N {
            self.over = true;
            self.draw = true;
        }
    }


    /// The cells the AI considers, in row-major order: empty cells with a
    /// stone within two cells.
    fn candidate_cells(&self) -> (cs: Vec<(usize, usize)>)
        requires
            grid_ok(self.grid()),
        ensures
            cells_view(cs@) == candidates(self.grid()),
            forall|i: int| 0 <= i < cs@.len() ==> (#[trigger] cs@[i]).0 < 15 && cs@[i].1 < 15,
    {
        let ghost g = self.grid();
        let mut cs: Vec<(usize, usize)> = Vec::new();
        let mut y: usize = 0;
        while y < N
            invariant
                g == self.grid(),
                grid_ok(g),
                y <= 15,
                cells_view(cs@) == cands_before(g, y * 15),
                forall|i: int| 0 <= i < cs@.len() ==> (#[trigger] cs@[i]).0 < 15 && cs@[i].1 < 15,
            decreases 15 - y,
        {
            let mut x: usize = 0;
            while x < N
                invariant
                    g == self.grid(),
                    grid_ok(g),
                    y < 15,
                    x <= 15,
                    cells_view(cs@) == cands_before(g, y * 15 + x),
                    forall|i: int| 0 <= i < cs@.len() ==> (#[trigger] cs@[i]).0 < 15 && cs@[i].1 < 15,
                decreases 15 - x,
            {
                let k: usize = y * 15 + x;
                assert(k % 15 == x && k / 15 == y) by (nonlinear_arith)
                    requires
                        k == y * 15 + x,
                        x < 15,
                ;
                let empty = self.at(x as i32, y as i32).is_none();
                if empty && self.has_neighbor(x, y) {
                    cs.push((x, y));
                }
                proof {
                    assert(cells_view(cs@) =~= cands_before(g, y * 15 + x + 1));
                }
                x = x + 1;
            }
            y = y + 1;
        }
        cs
    }


    /// The first of the cells `cs` where `stone` wins at once, if any.
    fn first_winning(&self, cs: &Vec<(usize, usize)>, stone: u8) -> (r: Option<usize>)
        requires
            grid_ok(self.grid()),
            forall|i: int| 0 <= i < cs@.len() ==> (#[trigger] cs@[i]).0 < 15 && cs@[i].1 < 15,
        ensures
            match r {
                Some(i) => first_win(self.grid(), cells_view(cs@), i as int, stone),
                None => forall|j: int|
                    0 <= j < cs@.len() ==> !wins_at(self.grid(), #[trigger] cells_view(cs@)[j], stone),
            },
    {
        let ghost g = self.grid();
        let ghost sc = cells_view(cs@);
        let mut i: usize = 0;
        while i < cs.len()
            invariant
                g == self.grid(),
                grid_ok(g),
                sc == cells_view(cs@),
                forall|i: int| 0 <= i < cs@.len() ==> (#[trigger] cs@[i]).0 < 15 && cs@[i].1 < 15,
                i <= cs@.len(),
                forall|j: int| 0 <= j < i ==> !wins_at(g, #[trigger] sc[j], stone),
            decreases cs@.len() - i,
        {
            let c = cs[i];
            if self.score_cell(c.0, c.1, stone) >= 1_000_000 {
                return Some(i);
            }
            i = i + 1;
        }
        None
    }

    /// The AI's heuristic ranking of `(x, y)`.
    fn rank(&self, x: usize, y: usize) -> (r: i32)
        requires
            grid_ok(self.grid()),
            x < 15,
            y < 15,
        ensures
            r == heuristic(self.grid(), (x as int, y as int)),
    {
        reveal(heuristic);
        let off = self.score_cell(x, y, AI);
        let def = self.score_cell(x, y, PLAYER);
        let xi = x as i32;
        let yi = y as i32;
        let ax = if xi >= 7 {
            xi - 7
        } else {
            7 - xi
        };
        let ay = if yi >= 7 {
            yi - 7
        } else {
            7 - yi
        };
        off + def + (6 - (ax + ay) / 2)
    }

    /// The indices of the cells `cs` of highest heuristic rank; none only
    /// when `cs` is empty.
    fn best_cells(&self, cs: &Vec<(usize, usize)>) -> (ties: Vec<usize>)
        requires
            grid_ok(self.grid()),
            forall|i: int| 0 <= i < cs@.len() ==> (#[trigger] cs@[i]).0 < 15 && cs@[i].1 < 15,
        ensures
            cs@.len() > 0 ==> ties@.len() > 0,
            forall|k: int|
                0 <= k < ties@.len() ==> (#[trigger] ties@[k]) < cs@.len() && forall|j: int|
                    0 <= j < cs@.len() ==> heuristic(self.grid(), #[trigger] cells_view(cs@)[j])
                        <= heuristic(self.grid(), cells_view(cs@)[ties@[k] as int]),
    {
        let ghost g = self.grid();
        let ghost sc = cells_view(cs@);
        let mut ties: Vec<usize> = Vec::new();
        if cs.len() == 0 {
            return ties;
        }
        let mut best: i32 = self.rank(cs[0].0, cs[0].1);
        assert(heuristic(g, sc[0]) == best);
        let mut i: usize = 1;
        while i < cs.len()
            invariant
                g == self.grid(),
                grid_ok(g),
                sc == cells_view(cs@),
                forall|i: int| 0 <= i < cs@.len() ==> (#[trigger] cs@[i]).0 < 15 && cs@[i].1 < 15,
                1 <= i <= cs@.len(),
                exists|j: int| 0 <= j < i && heuristic(g, #[trigger] sc[j]) == best,
                forall|j: int| 0 <= j < i ==> heuristic(g, #[trigger] sc[j]) <= best,
            decreases cs@.len() - i,
        {
            let r = self.rank(cs[i].0, cs[i].1);
            assert(heuristic(g, sc[i as int]) == r);
            if r > best {
                best = r;
            }
            i = i + 1;
        }
        let mut i: usize = 0;
        while i < cs.len()
            invariant
                g == self.grid(),
                grid_ok(g),
                sc == cells_view(cs@),
                forall|i: int| 0 <= i < cs@.len() ==> (#[trigger] cs@[i]).0 < 15 && cs@[i].1 < 15,
                i <= cs@.len(),
                exists|j: int| 0 <= j < cs@.len() && heuristic(g, #[trigger] sc[j]) == best,
                forall|j: int| 0 <= j < cs@.len() ==> heuristic(g, #[trigger] sc[j]) <= best,
                forall|k: int| 0 <= k < ties@.len() ==> (#[trigger] ties@[k]) < i && heuristic(g, sc[ties@[k] as int]) == best,
                (exists|j: int| 0 <= j < i && heuristic(g, #[trigger] sc[j]) == best) ==> ties@.len() > 0,
            decreases cs@.len() - i,
        {
            let r = self.rank(cs[i].0, cs[i].1);
            assert(heuristic(g, sc[i as int]) == r);
            if r == best {
                ties.push(i);
            }
            i = i + 1;
        }
        ties
    }


    /// `new` is `old` after the AI's move: on a finished game nothing
    /// changes; on an empty board the AI takes the center; otherwise it
    /// plays a candidate cell that `ai_choice_ok` allows, or passes when there
    /// is none; afterwards it is the player's turn.
    pub open spec fn ai_moved(new: Gomoku, old: Gomoku) -> bool {
        &&& old.over ==> new == old
        &&& !old.over ==> new.turn == PLAYER
        &&& !old.over && old.total == 0 ==> Gomoku::placed(new, old, 7, 7, AI)
        &&& !old.over && old.total != 0 && candidates(old.grid()).len() == 0 ==> new == (Gomoku { turn: PLAYER, ..old })
        &&& !old.over && old.total != 0 && candidates(old.grid()).len() > 0 ==> exists|i: int|
            #[trigger] ai_choice_ok(old.grid(), candidates(old.grid()), i) && Gomoku::placed(
                new,
                old,
                candidates(old.grid())[i].0,
                candidates(old.grid())[i].1,
                AI,
            )
    }

    /// The AI's move. On a finished game nothing changes. On an empty board
    /// the AI takes the center. Otherwise it picks among the candidate cells
    /// (empty, with a stone within two cells) by `ai_choice_ok`: a winning
    /// cell, else a cell that blocks the player's five, else a cell of highest
    /// heuristic rank (one of those at random). With no candidate it passes.
    /// Afterwards it is the player's turn.
    pub fn ai_place(&mut self)
        requires
            old(self).wf(),
        ensures
            final(self).wf(),
            Gomoku::ai_moved(*final(self), *old(self)),
    {
        if self.over {
            return;
        }
        if self.total == 0 {
            self.place(N / 2, N / 2, AI);
            self.turn = PLAYER;
            return;
        }
        let ghost g = self.grid();
        let cs = self.candidate_cells();
        let ghost sc = cells_view(cs@);
        if cs.len() == 0 {
            self.turn = PLAYER;
            return;
        }
        let idx: usize;
        let own = self.first_winning(&cs, AI);
        match own {
            Some(i) => {
                idx = i;
            },
            None => {
                let block = self.first_winning(&cs, PLAYER);
                match block {
                    Some(i) => {
                        idx = i;
                        assert(!exists|j: int| 0 <= j < sc.len() && wins_at(g, #[trigger] sc[j], AI));
                    },
                    None => {
                        let ties = self.best_cells(&cs);
                        let k = random_below(ties.len());
                        idx = ties[k];
                        assert(!exists|j: int| 0 <= j < sc.len() && wins_at(g, #[trigger] sc[j], AI));
                        assert(!exists|j: int| 0 <= j < sc.len() && wins_at(g, #[trigger] sc[j], PLAYER));
                    },
                }
            },
        }
        assert(ai_choice_ok(g, sc, idx as int));
        let c = cs[idx];
        self.place(c.0, c.1, AI);
        self.turn = PLAYER;
    }

    /// The AI's delay has run out: if the game goes on and the AI was
    /// waiting, it stops waiting and moves.
    pub fn run_ai(&mut self)
        requires
            old(self).wf(),
        ensures
            final(self).wf(),
            old(self).over || !old(self).ai_pending ==> *final(self) == *old(self),
            !old(self).over && old(self).ai_pending ==> Gomoku::ai_moved(
                *final(self),
                Gomoku { ai_pending: false, ..*old(self) },
            ),
    {
        if self.over || !self.ai_pending {
            return;
        }
        self.ai_pending = false;
        self.ai_place();
    }

    /// One key action. Nothing happens while the game is over or the AI is
    /// thinking. Arrows move the cursor within the board; Enter or Space on
    /// the player's turn places the player's stone on an empty cursor cell,
    /// after which (unless that ended the game) the AI's turn begins.
    pub fn handle(&mut self, a: Action)
        requires
            old(self).wf(),
        ensures
            final(self).wf(),
            old(self).over || old(self).ai_pending ==> *final(self) == *old(self),
            !old(self).over && !old(self).ai_pending ==> match a {
                Action::Left => *final(self) == (Gomoku {
                    cx: if old(self).cx > 0 { (old(self).cx - 1) as usize } else { 0 },
                    ..*old(self)
                }),
                Action::Right => *final(self) == (Gomoku {
                    cx: if old(self).cx < 14 { (old(self).cx + 1) as usize } else { 14 },
                    ..*old(self)
                }),
                Action::Up => *final(self) == (Gomoku {
                    cy: if old(self).cy > 0 { (old(self).cy - 1) as usize } else { 0 },
                    ..*old(self)
                }),
                Action::Down => *final(self) == (Gomoku {
                    cy: if old(self).cy < 14 { (old(self).cy + 1) as usize } else { 14 },
                    ..*old(self)
                }),
                Action::Confirm | Action::Space => if old(self).turn == PLAYER
                    && old(self).grid()[old(self).cy as int][old(self).cx as int] is None {
                    Gomoku::placed(
                        (Gomoku { turn: old(self).turn, ai_pending: false, ..*final(self) }),
                        *old(self),
                        old(self).cx as int,
                        old(self).cy as int,
                        PLAYER,
                    ) && (final(self).over ==> final(self).turn == PLAYER && !final(self).ai_pending)
                        && (!final(self).over ==> final(self).turn == AI && final(self).ai_pending)
                } else {
                    *final(self) == *old(self)
                },
                _ => *final(self) == *old(self),
            },
    {
        if self.over || self.ai_pending {
            return;
        }
        match a {
            Action::Left => {
                if self.cx > 0 {
                    self.cx = self.cx - 1;
                }
            },
            Action::Right => {
                if self.cx < N - 1 {
                    self.cx = self.cx + 1;
                }
            },
            Action::Up => {
                if self.cy > 0 {
                    self.cy = self.cy - 1;
                }
            },
            Action::Down => {
                if self.cy < N - 1 {
                    self.cy = self.cy + 1;
                }
            },
            Action::Confirm | Action::Space => {
                if self.turn == PLAYER && self.at(self.cx as i32, self.cy as i32).is_none() {
                    self.place(self.cx, self.cy, PLAYER);
                    if !self.over {
                        self.turn = AI;
                        self.ai_pending = true;
                    }
                }
            },
            _ => {},
        }
    }

    /// Running until the game is over.
    pub fn status(&self) -> (r: Status)
        ensures
            r == (if self.over { Status::Finished } else { Status::Running }),
    {
        if self.over {
            Status::Finished
        } else {
            Status::Running
        }
    }

    /// A draw, or a win or loss for the player.
    pub fn outcome(&self) -> (r: GameOutcome)
        ensures
            r == (if self.draw { GameOutcome::GomokuDraw } else { GameOutcome::Gomoku { win: self.win } }),
    {
        if self.draw {
            GameOutcome::GomokuDraw
        } else {
            GameOutcome::Gomoku { win: self.win }
        }
    }


    /// The status line of the side panel and its color: the result once the
    /// game is over (a draw, a win in green, a loss in red), else whose turn
    /// it is (in white).
    pub fn status_line(&self, t: &Ui) -> (r: (&'static str, u8))
        ensures
            r.0 == (if self.over {
                if self.draw {
                    t.draw
                } else if self.win {
                    t.you_win
                } else {
                    t.you_lose
                }
            } else if self.ai_pending {
                t.ai_thinking
            } else {
                t.your_turn
            }),
            r.1 == (if self.over && !self.draw {
                if self.win {
                    col::GREEN
                } else {
                    col::RED
                }
            } else {
                col::WHITE
            }),
    {
        let txt = if self.over {
            if self.draw {
                t.draw
            } else if self.win {
                t.you_win
            } else {
                t.you_lose
            }
        } else if self.ai_pending {
            t.ai_thinking
        } else {
            t.your_turn
        };
        let fg = if self.over && !self.draw {
            if self.win {
                col::GREEN
            } else {
                col::RED
            }
        } else {
            col::WHITE
        };
        (txt, fg)
    }

    /// Draws the grid at `(ox, oy)`, two columns per position: stones, the
    /// cursor (an empty cursor position blinks with `blink`), grid crosses,
    /// and dashes between positions (see `board_glyph`).
    fn draw_grid(&self, c: &mut Canvas, ox: usize, oy: usize, blink: bool)
        requires
            old(c).wf(),
            self.wf(),
            ox <= usize::MAX / 2,
            oy <= usize::MAX / 2,
        ensures
            drawn_on(*final(c), *old(c)),
            forall|q: int, r: int|
                0 <= q < 15 && 0 <= r < 15 && ox + 2 * q < old(c).width() && oy + r < old(c).height()
                    ==> #[trigger] shown_at(*final(c), ox as int, oy as int, q, r) == board_glyph(
                    self.grid()[r][q],
                    q == self.cx && r == self.cy,
                    blink,
                    shown_at(*old(c), ox as int, oy as int, q, r),
                ),
    {
        let ghost c0 = *c;
        let ghost g = self.grid();
        let black = Color::AnsiValue(col::BLACK);
        let mut r: usize = 0;
        while r < N
            invariant
                self.wf(),
                g == self.grid(),
                ox <= usize::MAX / 2,
                oy <= usize::MAX / 2,
                black == Color::AnsiValue(col::BLACK),
                drawn_on(*c, c0),
                r <= 15,
                forall|q: int, rr: int|
                    0 <= q < 15 && 0 <= rr < 15 && ox + 2 * q < c0.width() && oy + rr < c0.height()
                        ==> #[trigger] shown_at(*c, ox as int, oy as int, q, rr) == if rr < r {
                        board_glyph(g[rr][q], q == self.cx && rr == self.cy, blink, shown_at(c0, ox as int, oy as int, q, rr))
                    } else {
                        shown_at(c0, ox as int, oy as int, q, rr)
                    },
            decreases 15 - r,
        {
            let mut cc: usize = 0;
            while cc < N
                invariant
                    self.wf(),
                    g == self.grid(),
                    ox <= usize::MAX / 2,
                    oy <= usize::MAX / 2,
                    black == Color::AnsiValue(col::BLACK),
                    drawn_on(*c, c0),
                    r < 15,
                    cc <= 15,
                    forall|q: int, rr: int|
                        0 <= q < 15 && 0 <= rr < 15 && ox + 2 * q < c0.width() && oy + rr < c0.height()
                            ==> #[trigger] shown_at(*c, ox as int, oy as int, q, rr) == if rr < r || (rr == r && q < cc) {
                            board_glyph(g[rr][q], q == self.cx && rr == self.cy, blink, shown_at(c0, ox as int, oy as int, q, rr))
                        } else {
                            shown_at(c0, ox as int, oy as int, q, rr)
                        },
                decreases 15 - cc,
            {
                let ghost before = *c;
                let x = ox + cc * 2;
                let y = oy + r;
                let is_cursor = cc == self.cx && r == self.cy;
                let bg = if is_cursor {
                    Color::AnsiValue(col::GRAY)
                } else {
                    black
                };
                let v = self.at(cc as i32, r as i32);
                match v {
                    Some(1) => {
                        c.put(x, y, 'X', Color::AnsiValue(col::GREEN), bg);
                    },
                    Some(2) => {
                        c.put(x, y, 'O', Color::AnsiValue(col::RED), bg);
                    },
                    None => {
                        if is_cursor {
                            let bg2 = if blink {
                                Color::AnsiValue(col::GRAY)
                            } else {
                                Color::AnsiValue(col::DARK_BLUE)
                            };
                            c.put(x, y, '·', Color::AnsiValue(col::YELLOW), bg2);
                        } else {
                            c.put(x, y, '+', Color::AnsiValue(col::DARK_GREEN), black);
                        }
                    },
                    _ => {},
                }
                let ghost mid = *c;
                if cc < N - 1 {
                    c.put(x + 1, y, '-', Color::AnsiValue(col::DARK_GREEN), black);
                }
                proof {
                    assert forall|q: int, rr: int|
                        0 <= q < 15 && 0 <= rr < 15 && ox + 2 * q < c0.width() && oy + rr < c0.height()
                            implies #[trigger] shown_at(*c, ox as int, oy as int, q, rr) == if rr < r || (rr == r && q
                            < cc + 1) {
                            board_glyph(g[rr][q], q == self.cx && rr == self.cy, blink, shown_at(c0, ox as int, oy as int, q, rr))
                        } else {
                            shown_at(c0, ox as int, oy as int, q, rr)
                        } by {
                        assert(shown_at(before, ox as int, oy as int, q, rr) == before.cell(ox + 2 * q, oy + rr));
                        assert(mid.cell(ox + 2 * q, oy + rr) == c.cell(ox + 2 * q, oy + rr));
                        if q == cc && rr == r {
                            assert(v == g[rr][q]);
                        }
                    }
                }
                cc = cc + 1;
            }
            r = r + 1;
        }
    }

    /// Draws the column letters below the grid (on the grid's 17th row, from
    /// column `ox`) and the row numbers, right-aligned in two columns, left
    /// of it (from `number_column(ox)`), over what was there; in the grid's
    /// rows nothing from two columns right of `number_column(ox)` on is
    /// touched.
    fn draw_labels(c: &mut Canvas, ox: usize, oy: usize)
        requires
            old(c).wf(),
            ox <= usize::MAX / 2,
            oy <= usize::MAX / 2,
        ensures
            drawn_on(*final(c), *old(c)),
            forall|i: int, j: int|
                number_column(ox) + 2 <= i < old(c).width() && oy <= j < oy + 15 && j < old(c).height() ==> #[trigger] final(c).cell(
                    i,
                    j,
                ) == old(c).cell(i, j),
            lines_over(*final(c), *old(c), column_letters(oy as int), ox as int),
            lines_over(*final(c), *old(c), row_numbers(oy as int), number_column(ox)),
    {
        let black = Color::AnsiValue(col::BLACK);
        let ghost c0 = *c;
        proof {
            lemma_wrap_column_small(ox);
            lemma_wrap_column_small(ox.saturating_sub(3));
        }
        c.put_str(ox, oy + N + 1, "a b c d e f g h i j k l m n o", Color::AnsiValue(col::GRAY), black);
        let ghost ca = *c;
        let ghost mut ls: Seq<PanelLine> = Seq::empty();
        let mut r: usize = 0;
        while r < N
            invariant
                ox <= usize::MAX / 2,
                oy <= usize::MAX / 2,
                black == Color::AnsiValue(col::BLACK),
                drawn_on(*c, c0),
                drawn_on(ca, c0),
                r <= 15,
                wrap_column(ox.saturating_sub(3)) == number_column(ox),
                ls == row_numbers(oy as int).take(r as int),
                drawn_from(*c, ca, ls, number_column(ox), oy + r),
                forall|i: int, j: int|
                    number_column(ox) + 2 <= i < c0.width() && oy <= j < oy + 15 && j < c0.height() ==> #[trigger] c.cell(i, j)
                        == c0.cell(i, j),
            decreases 15 - r,
        {
            let ghost before = *c;
            let mut n = String::new();
            push_right_aligned(&mut n, dec_string((r + 1) as u64).as_str(), 2);
            proof {
                lemma_dec_chars_len((r + 1) as nat);
                lemma_dec_chars_ascii((r + 1) as nat);
                let d = dec_chars((r + 1) as nat);
                assert forall|k: int| 0 <= k < n@.len() implies (#[trigger] n@[k] as u32) < 128 by {
                    if d.len() < 2 {
                        if k == 0 {
                            assert(n@[k] == ' ');
                        } else {
                            assert(n@[k] == d[k - 1]);
                        }
                    } else {
                        assert(n@[k] == d[k]);
                    }
                }
            }
            c.put_str(ox.saturating_sub(3), oy + r, n.as_str(), Color::AnsiValue(col::GRAY), black);
            proof {
                let l = ((oy + r) as int, n@, col::GRAY);
                assert(n@ =~= pad_left(dec_chars((r + 1) as nat), 2));
                assert(row_numbers(oy as int)[r as int] == l);
                lemma_draw_line(before, *c, ca, ls, l, number_column(ox), (oy + r) as int);
                ls = ls.push(l);
                assert(ls =~= row_numbers(oy as int).take(r + 1));
                {
                    assert forall|i: int, j: int|
                        number_column(ox) + 2 <= i < c0.width() && oy <= j < oy + 15 && j < c0.height() implies #[trigger] c.cell(
                            i,
                            j,
                        ) == c0.cell(i, j) by {
                        assert(before.cell(i, j) == c0.cell(i, j));
                        lemma_put_str_cell_right_ascii(
                            n@,
                            wrap_column(ox.saturating_sub(3)),
                            i,
                            c0.width() as int,
                            Color::AnsiValue(col::GRAY),
                            black,
                            before.cell(i, j),
                        );
                    }
                }
            }
            r = r + 1;
        }
        proof {
            assert(ls =~= row_numbers(oy as int));
            let nl = row_numbers(oy as int);
            assert forall|k: int, i: int|
                0 <= k < nl.len() && 0 <= i < c.width() && 0 <= nl[k].0 < c.height() implies #[trigger] c.cell(i, nl[k].0)
                    == put_str_cell(nl[k].1, number_column(ox), i, c.width() as int, Color::AnsiValue(nl[k].2), Color::AnsiValue(0), c0.cell(i, nl[k].0)) by {
                assert(ls[k] == nl[k]);
                assert(ca.cell(i, nl[k].0) == c0.cell(i, nl[k].0));
            }
            let ll = column_letters(oy as int);
            assert forall|k: int, i: int|
                0 <= k < ll.len() && 0 <= i < c.width() && 0 <= ll[k].0 < c.height() implies #[trigger] c.cell(i, ll[k].0)
                    == put_str_cell(ll[k].1, ox as int, i, c.width() as int, Color::AnsiValue(ll[k].2), Color::AnsiValue(0), c0.cell(i, ll[k].0)) by {
                assert(ll[k] == ll[0]);
                assert(c.cell(i, oy + 16) == ca.cell(i, oy + 16));
            }
        }
    }

    /// Draws the side panel from `(px, oy)`: the title, the stones, `user`'s
    /// record, the status line and key help, each on a row of its own as
    /// `panel_lines` says, over what was there; nothing left of column `px`
    /// is touched.
    fn draw_panel(&self, c: &mut Canvas, px: usize, oy: usize, scores: &ScoreFile, user: &str, t: &Ui)
        requires
            old(c).wf(),
            px <= usize::MAX / 2 + 40,
            oy <= usize::MAX / 2,
        ensures
            drawn_on(*final(c), *old(c)),
            px <= usize::MAX / 2 ==> forall|i: int, j: int|
                0 <= i < px && i < old(c).width() && 0 <= j < old(c).height() ==> #[trigger] final(c).cell(i, j)
                    == old(c).cell(i, j),
            lines_over(*final(c), *old(c), panel_lines(*self, *scores, user@, *t, oy as int), wrap_column(px)),
    {
        let black = Color::AnsiValue(col::BLACK);
        let ghost c0 = *c;
        let ghost colx = wrap_column(px);
        let ghost pl = panel_lines(*self, *scores, user@, *t, oy as int);
        let st = scores.gomoku_stats(user);
        let args = vec![dec_string(st.wins as u64), dec_string(st.losses as u64)];
        let stat = fmt(t.stat_fmt, args.as_slice());
        let (turn_txt, tfg) = self.status_line(t);
        proof {
            assert(texts(args@) =~= seq![dec_chars(st.wins as nat), dec_chars(st.losses as nat)]);
        }
        let rows: [(&str, u8, usize); 5] = [
            (t.gomoku_title, col::YELLOW, 0),
            (t.you_first, col::GREEN, 2),
            (t.ai_stone, col::RED, 3),
            (stat.as_str(), col::CYAN, 5),
            (turn_txt, tfg, 7),
        ];
        let ghost mut ls: Seq<PanelLine> = Seq::empty();
        proof {
            assert(drawn_from(*c, c0, ls, colx, oy as int));
        }
        let mut k: usize = 0;
        while k < 8
            invariant
                k <= 8,
                px <= usize::MAX / 2 + 40,
                oy <= usize::MAX / 2,
                black == Color::AnsiValue(col::BLACK),
                drawn_on(*c, c0),
                rows@.len() == 5,
                forall|m: int| 0 <= m < 5 ==> (#[trigger] rows@[m]).2 <= 7,
                forall|m: int|
                    0 <= m < 5 ==> pl[m] == ((oy + (#[trigger] rows@[m]).2) as int, rows@[m].0@, rows@[m].1),
                forall|m: int| 0 <= m < 3 ==> #[trigger] pl[5 + m] == ((oy + 10 + m) as int, t.gomoku_help@[m]@, col::GRAY),
                pl.len() == 8,
                colx == wrap_column(px),
                ls == pl.take(k as int),
                drawn_from(*c, c0, ls, colx, if k == 0 { oy as int } else { pl[k - 1].0 + 1 }),
                forall|m: int, n: int| 0 <= m < n < 8 ==> #[trigger] pl[m].0 < #[trigger] pl[n].0,
                px <= usize::MAX / 2 ==> forall|i: int, j: int|
                    0 <= i < px && i < c0.width() && 0 <= j < c0.height() ==> #[trigger] c.cell(i, j) == c0.cell(i, j),
            decreases 8 - k,
        {
            let ghost before = *c;
            let (text, fg, dy) = if k < 5 {
                rows[k]
            } else {
                (t.gomoku_help[k - 5], col::GRAY, 10 + (k - 5))
            };
            c.put_str(px, oy + dy, text, Color::AnsiValue(fg), black);
            proof {
                if px <= usize::MAX / 2 {
                    lemma_wrap_column_small(px);
                }
                if k >= 5 {
                    assert(pl[5 + (k - 5)] == ((oy + 10 + (k - 5)) as int, t.gomoku_help@[k - 5]@, col::GRAY));
                }
                assert(pl[k as int] == ((oy + dy) as int, text@, fg));
                if k > 0 {
                    assert(pl[k - 1].0 < pl[k as int].0);
                    if k - 1 < 5 {
                        assert(pl[k - 1] == ((oy + rows@[k - 1].2) as int, rows@[k - 1].0@, rows@[k - 1].1));
                    } else {
                        assert(pl[5 + (k - 6)] == ((oy + 10 + (k - 6)) as int, t.gomoku_help@[k - 6]@, col::GRAY));
                    }
                    assert(pl[k - 1].0 >= 0);
                }
                lemma_draw_line(before, *c, c0, ls, pl[k as int], colx, if k == 0 { oy as int } else { pl[k - 1].0 + 1 });
                ls = ls.push(pl[k as int]);
                assert(ls =~= pl.take(k + 1));
            }
            k = k + 1;
        }
        proof {
            assert(ls =~= pl);
        }
    }

    /// Draws the game: the grid with stones and the cursor (an empty cursor
    /// cell blinks with `now_ms`, the clock in milliseconds), the column
    /// letters and row numbers, and the side panel with the title, the stones,
    /// `user`'s record, the status line and key help. The layout is centred,
    /// or starts at the canvas's edge when the canvas is smaller, and is cut
    /// off at the right and bottom edges. On a canvas of any size a terminal
    /// has, every board position on the canvas and clear of the row numbers
    /// (which take the canvas's first two columns when the grid starts
    /// within three columns of the edge) shows as `board_glyph` says, the side
    /// panel's texts show from three columns right of the grid as
    /// `panel_lines` says, and the column letters and row numbers show where
    /// `column_letters` and `row_numbers` put them.
    pub fn draw(&self, c: &mut Canvas, scores: &ScoreFile, user: &str, t: &Ui, now_ms: u64)
        requires
            old(c).wf(),
            self.wf(),
        ensures
            drawn_on(*final(c), *old(c)),
            ({
                let w = old(c).width() as int;
                let h = old(c).height() as int;
                let ox = board_left(w);
                let oy = board_top(h);
                w <= usize::MAX / 2 ==> forall|q: int, r: int|
                    0 <= q < 15 && 0 <= r < 15 && ox + 2 * q < w && oy + r < h && number_column(ox as usize) + 2 <= ox + 2 * q
                        ==> #[trigger] shown_at(*final(c), ox, oy, q, r)
                        == board_glyph(
                        self.grid()[r][q],
                        q == self.cx && r == self.cy,
                        (now_ms / 350) % 2 == 0,
                        Cell { ch: ' ', fg: Color::AnsiValue(col::BLACK), bg: Color::AnsiValue(col::BLACK) },
                    )
            }),
            ({
                let w = old(c).width() as int;
                let h = old(c).height() as int;
                let ox = board_left(w);
                let oy = board_top(h);
                let px = ox + 33;
                w <= usize::MAX / 2 ==> {
                    &&& lines_shown(*final(c), panel_lines(*self, *scores, user@, *t, oy), px, w)
                    &&& lines_shown(*final(c), column_letters(oy), ox, px)
                    &&& lines_shown(*final(c), row_numbers(oy), number_column(ox as usize), px)
                }
            }),
    {
        let w = c.w();
        let h = c.h();
        let black = Color::AnsiValue(col::BLACK);
        c.fill_rect(0, 0, w, h, ' ', black, black);
        let ox = w.saturating_sub(2 * N + 1) / 2;
        let oy = h.saturating_sub(N) / 2;
        let blink = (now_ms / 350) % 2 == 0;
        let ghost c1 = *c;
        self.draw_grid(c, ox, oy, blink);
        let ghost c2 = *c;
        Self::draw_labels(c, ox, oy);
        let ghost c3 = *c;
        self.draw_panel(c, ox + 2 * N + 3, oy, scores, user, t);
        proof {
            if w <= usize::MAX / 2 {
                let px = (ox + 33) as int;
                lemma_wrap_column_small((ox + 33) as usize);
                lemma_lines_shown(*c, c3, panel_lines(*self, *scores, user@, *t, oy as int), px, w as int);
                lemma_lines_shown(c3, c2, column_letters(oy as int), ox as int, px);
                lemma_lines_shown(c3, c2, row_numbers(oy as int), number_column(ox), px);
                let ll = column_letters(oy as int);
                assert forall|k: int, i: int|
                    0 <= k < ll.len() && 0 <= ll[k].0 < c.height() && ox <= i < ox + spec_str_width(ll[k].1) && i < px && i < c.width()
                        implies #[trigger] c.cell(i, ll[k].0) == c3.cell(i, ll[k].0) by {}
                let nl = row_numbers(oy as int);
                assert forall|k: int, i: int|
                    0 <= k < nl.len() && 0 <= nl[k].0 < c.height() && number_column(ox) <= i < number_column(ox) + spec_str_width(
                        nl[k].1,
                    ) && i < px && i < c.width()
                        implies #[trigger] c.cell(i, nl[k].0) == c3.cell(i, nl[k].0) by {}
            }
            let fill = Cell { ch: ' ', fg: black, bg: black };
            if w <= usize::MAX / 2 {
                assert forall|q: int, r: int|
                    0 <= q < 15 && 0 <= r < 15 && ox + 2 * q < w && oy + r < h && number_column(ox) + 2 <= ox + 2 * q implies #[trigger] shown_at(*c, ox as int, oy as int, q, r)
                        == board_glyph(self.grid()[r][q], q == self.cx && r == self.cy, blink, fill) by {
                    assert(c1.cell(ox + 2 * q, oy + r) == fill);
                    assert(shown_at(c2, ox as int, oy as int, q, r) == c2.cell(ox + 2 * q, oy + r));
                    assert(c3.cell(ox + 2 * q, oy + r) == c2.cell(ox + 2 * q, oy + r));
                    assert(c.cell(ox + 2 * q, oy + r) == c3.cell(ox + 2 * q, oy + r));
                }
            }
        }
    }

}


proof fn lemma_cands_before(g: Grid, k: int)
    requires
        0 <= k <= 225,
    ensures
        forall|i: int|
            0 <= i < cands_before(g, k).len() ==> in_b(#[trigger] cands_before(g, k)[i].0, cands_before(g, k)[i].1)
                && is_candidate(g, cands_before(g, k)[i].0, cands_before(g, k)[i].1),
    decreases k,
{
    if k > 0 {
        lemma_cands_before(g, k - 1);
        let r = cands_before(g, k - 1);
        let c = ((k - 1) % 15, (k - 1) / 15);
        assert(0 <= c.0 < 15 && 0 <= c.1 < 15);
        let out = cands_before(g, k);
        assert forall|i: int| 0 <= i < out.len() implies in_b(#[trigger] out[i].0, out[i].1) && is_candidate(
            g,
            out[i].0,
            out[i].1,
        ) by {
            if i < r.len() {
                assert(out[i] == r[i]);
            } else {
                assert(out[i] == c);
            }
        }
    }
}

/// The AI only ever plays on an empty cell of the board with a stone within
/// two cells: every candidate is one.
pub proof fn ai_moves_to_empty_cells(g: Grid, i: int)
    requires
        0 <= i < candidates(g).len(),
    ensures
        in_b(candidates(g)[i].0, candidates(g)[i].1),
        g[candidates(g)[i].1][candidates(g)[i].0] is None,
        spec_has_neighbor(g, candidates(g)[i].0, candidates(g)[i].1),
{
    lemma_cands_before(g, 225);
    assert(in_b(candidates(g)[i].0, candidates(g)[i].1));
}

/// When the AI cannot win at once but the player could win at some
/// candidate cell, the AI's choice is a cell where the player would have
/// won: it blocks.
pub proof fn ai_blocks_a_winning_threat(g: Grid, cs: Seq<(int, int)>, i: int, j: int)
    requires
        ai_choice_ok(g, cs, i),
        forall|k: int| 0 <= k < cs.len() ==> !wins_at(g, #[trigger] cs[k], AI),
        0 <= j < cs.len(),
        wins_at(g, cs[j], PLAYER),
    ensures
        wins_at(g, cs[i], PLAYER),
{
}

/// Placing a stone that completes five in a row ends the game, a win
/// exactly when the stone is the player's.
pub proof fn five_in_a_row_ends_game(new: Gomoku, old: Gomoku, x: int, y: int, stone: u8)
    requires
        Gomoku::placed(new, old, x, y, stone),
        spec_has_five(new.grid(), x, y, stone),
    ensures
        new.over,
        new.win == (stone == PLAYER),
{
}

/// `g` with `stone` at `(x, y)`.
pub open spec fn put(g: Grid, x: int, y: int, stone: u8) -> Grid {
    g.update(y, g[y].update(x, Some(stone)))
}

/// Some empty cell within two cells of a stone would complete five for
/// `stone`.
pub open spec fn five_within_reach(g: Grid, stone: u8) -> bool {
    exists|a: int, b: int| in_b(a, b) && #[trigger] is_candidate(g, a, b) && spec_has_five(put(g, a, b, stone), a, b, stone)
}

proof fn lemma_run_put(g: Grid, x: int, y: int, dx: int, dy: int, stone: u8, px: int, py: int, k: int, v: u8)
    requires
        grid_ok(g),
        unit_dir(dx, dy),
        k >= 1,
        px == x - k * dx,
        py == y - k * dy,
        in_b(px, py),
    ensures
        run(put(g, px, py, v), x, y, dx, dy, stone) == run(g, x, y, dx, dy, stone),
    decreases steps_left(x, y, dx, dy),
{
    let g2 = put(g, px, py, v);
    if in_b(x, y) {
        assert(k * dx != 0 || k * dy != 0) by (nonlinear_arith)
            requires
                k >= 1,
                dx != 0 || dy != 0,
        ;
        assert(x != px || y != py);
        assert(g2[y][x] == g[y][x]);
        if g[y][x] == Some(stone) {
            assert((k + 1) * dx == k * dx + dx && (k + 1) * dy == k * dy + dy) by (nonlinear_arith);
            lemma_run_put(g, x + dx, y + dy, dx, dy, stone, px, py, k + 1, v);
        }
    }
}

/// A stone at `(x, y)` leaves the lines through it, counted from its
/// neighbours, as they were.
proof fn lemma_line_count_put(g: Grid, x: int, y: int, dx: int, dy: int, stone: u8)
    requires
        grid_ok(g),
        unit_dir(dx, dy),
        in_b(x, y),
    ensures
        line_count(put(g, x, y, stone), x, y, dx, dy, stone) == line_count(g, x, y, dx, dy, stone),
{
    lemma_run_put(g, x + dx, y + dy, dx, dy, stone, x, y, 1, stone);
    lemma_run_put(g, x - dx, y - dy, -dx, -dy, stone, x, y, 1, stone);
}

/// `stone` wins at `(x, y)` exactly when placing it there makes five.
pub proof fn lemma_wins_at_five(g: Grid, x: int, y: int, stone: u8)
    requires
        grid_ok(g),
        in_b(x, y),
    ensures
        wins_at(g, (x, y), stone) == spec_has_five(put(g, x, y, stone), x, y, stone),
{
    lemma_line_count_put(g, x, y, 1, 0, stone);
    lemma_line_count_put(g, x, y, 0, 1, stone);
    lemma_line_count_put(g, x, y, 1, 1, stone);
    lemma_line_count_put(g, x, y, 1, -1, stone);
    let v1 = dir_value(g, x, y, 1, 0, stone);
    let v2 = dir_value(g, x, y, 0, 1, stone);
    let v3 = dir_value(g, x, y, 1, 1, stone);
    let v4 = dir_value(g, x, y, 1, -1, stone);
    assert(v1 >= 1 && v2 >= 1 && v3 >= 1 && v4 >= 1);
    assert(line_count(g, x, y, 1, 0, stone) < 5 ==> v1 <= 100_000);
    assert(line_count(g, x, y, 0, 1, stone) < 5 ==> v2 <= 100_000);
    assert(line_count(g, x, y, 1, 1, stone) < 5 ==> v3 <= 100_000);
    assert(line_count(g, x, y, 1, -1, stone) < 5 ==> v4 <= 100_000);
}

proof fn lemma_candidate_listed(g: Grid, k: int, x: int, y: int)
    requires
        in_b(x, y),
        is_candidate(g, x, y),
        y * 15 + x < k <= 225,
    ensures
        exists|i: int| 0 <= i < cands_before(g, k).len() && cands_before(g, k)[i] == (x, y),
    decreases k,
{
    let r = cands_before(g, k - 1);
    let c = ((k - 1) % 15, (k - 1) / 15);
    if k - 1 == y * 15 + x {
        assert(c == (x, y));
        assert(cands_before(g, k) == r.push(c));
        assert(cands_before(g, k)[r.len() as int] == (x, y));
    } else {
        lemma_candidate_listed(g, k - 1, x, y);
        let i = choose|i: int| 0 <= i < r.len() && r[i] == (x, y);
        if is_candidate(g, c.0, c.1) {
            assert(cands_before(g, k) == r.push(c));
            assert(cands_before(g, k)[i] == r[i]);
        } else {
            assert(cands_before(g, k) == r);
        }
        assert(0 <= i < cands_before(g, k).len() && cands_before(g, k)[i] == (x, y));
    }
}

/// The AI's move on a running game with stones on the board, when some
/// empty cell lies within two cells of a stone: it places one stone, on such
/// a cell, and passes the turn; when some such cell completes five for the
/// AI, the game ends as the AI's; failing that, when some such cell would
/// complete five for the player, the AI's stone takes one of them.
pub proof fn ai_takes_wins_and_blocks(new: Gomoku, old: Gomoku, x0: int, y0: int)
    requires
        old.wf(),
        !old.over,
        old.total > 0,
        Gomoku::ai_moved(new, old),
        in_b(x0, y0),
        is_candidate(old.grid(), x0, y0),
    ensures
        exists|x: int, y: int|
            {
                &&& in_b(x, y)
                &&& #[trigger] is_candidate(old.grid(), x, y)
                &&& Gomoku::placed(new, old, x, y, AI)
                &&& new.turn == PLAYER
                &&& five_within_reach(old.grid(), AI) ==> new.over && !new.win
                &&& !five_within_reach(old.grid(), AI) && five_within_reach(old.grid(), PLAYER) ==> spec_has_five(
                    put(old.grid(), x, y, PLAYER),
                    x,
                    y,
                    PLAYER,
                )
            },
{
    let g = old.grid();
    let cs = candidates(g);
    lemma_candidate_listed(g, 225, x0, y0);
    assert(cs.len() > 0);
    let i = choose|i: int| #[trigger] ai_choice_ok(g, cs, i) && Gomoku::placed(new, old, cs[i].0, cs[i].1, AI);
    assert(0 <= i < cs.len());
    ai_moves_to_empty_cells(g, i);
    let x = cs[i].0;
    let y = cs[i].1;
    assert(is_candidate(g, x, y));
    if five_within_reach(g, AI) {
        let (a, b) = choose|a: int, b: int| in_b(a, b) && #[trigger] is_candidate(g, a, b) && spec_has_five(put(g, a, b, AI), a, b, AI);
        lemma_candidate_listed(g, 225, a, b);
        let j = choose|j: int| 0 <= j < cs.len() && cs[j] == (a, b);
        lemma_wins_at_five(g, a, b, AI);
        assert(wins_at(g, cs[j], AI));
        assert(first_win(g, cs, i, AI));
        lemma_wins_at_five(g, x, y, AI);
        assert(spec_has_five(put(g, x, y, AI), x, y, AI));
    } else if five_within_reach(g, PLAYER) {
        assert forall|j: int| 0 <= j < cs.len() implies !wins_at(g, #[trigger] cs[j], AI) by {
            ai_moves_to_empty_cells(g, j);
            lemma_wins_at_five(g, cs[j].0, cs[j].1, AI);
            if wins_at(g, cs[j], AI) {
                assert(is_candidate(g, cs[j].0, cs[j].1));
            }
        }
        let (a, b) = choose|a: int, b: int| in_b(a, b) && #[trigger] is_candidate(g, a, b) && spec_has_five(
            put(g, a, b, PLAYER),
            a,
            b,
            PLAYER,
        );
        lemma_candidate_listed(g, 225, a, b);
        let j = choose|j: int| 0 <= j < cs.len() && cs[j] == (a, b);
        lemma_wins_at_five(g, a, b, PLAYER);
        assert(wins_at(g, cs[j], PLAYER));
        assert(first_win(g, cs, i, PLAYER));
        lemma_wins_at_five(g, x, y, PLAYER);
    }
    assert(in_b(x, y) && is_candidate(g, x, y) && Gomoku::placed(new, old, x, y, AI));
}

/// The AI's stone on a cell where it wins by score (`wins_at`, a value of
/// at least 1,000,000) makes five, so the game ends and the player has not
/// won.
pub proof fn ai_winning_cell_ends_game(new: Gomoku, old: Gomoku, x: int, y: int)
    requires
        grid_ok(old.grid()),
        in_b(x, y),
        wins_at(old.grid(), (x, y), AI),
        Gomoku::placed(new, old, x, y, AI),
    ensures
        new.over,
        !new.win,
{
    lemma_wins_at_five(old.grid(), x, y, AI);
}

} // verus!
