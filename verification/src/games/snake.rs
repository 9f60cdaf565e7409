//! Snake: eat food to grow; running into a wall or into yourself ends the game.

use vstd::prelude::*;
use vstd::set_lib::*;
use std::collections::VecDeque;
use crate::input::Action;
use crate::games::{GameOutcome, Status};
use crate::rng::random_below;
use crate::canvas::{
    Canvas, Cell, Color, drawn_on, lemma_put_str_cell_covered, lemma_put_str_cell_outside, lemma_wrap_column_small, lines_shown,
    put_str_cell, spec_empty_cell, spec_str_width, str_width, wrap_column,
};
use crate::col;
use crate::lang::{Ui, fmt, texts};
use crate::games::plane::score_text;
use crate::games::breakout::{in_spans, panel_row, text_cols};
use crate::menu::{item_line, item_text};
use crate::score::ScoreFile;
use crate::games::GameId;
use crate::text::{dec_chars, dec_string};

verus! {

/// Board width in cells.
pub const BW: usize = 32;
/// Board height in cells.
pub const BH: usize = 20;

/// A heading.
#[derive(Clone, Copy, PartialEq, Eq, Debug, Structural)]
pub enum Dir {
    Up,
    Down,
    Left,
    Right,
}

/// The reverse heading.
pub open spec fn opposite(d: Dir) -> Dir {
    match d {
        Dir::Up => Dir::Down,
        Dir::Down => Dir::Up,
        Dir::Left => Dir::Right,
        Dir::Right => Dir::Left,
    }
}

/// Up and Down are each other's reverse, as are Left and Right; no heading
/// is its own reverse, and reversing twice gives the heading back. Up moves
/// one row toward the top, Down one row toward the bottom, Left and Right one
/// column either way.
pub proof fn headings_and_their_reverse(c: (usize, usize))
    ensures
        opposite(Dir::Up) == Dir::Down,
        opposite(Dir::Down) == Dir::Up,
        opposite(Dir::Left) == Dir::Right,
        opposite(Dir::Right) == Dir::Left,
        forall|d: Dir| #[trigger] opposite(d) != d && opposite(opposite(d)) == d,
        ahead(c, Dir::Up) == (c.0 as int, c.1 - 1),
        ahead(c, Dir::Down) == (c.0 as int, c.1 + 1),
        ahead(c, Dir::Left) == (c.0 - 1, c.1 as int),
        ahead(c, Dir::Right) == (c.0 + 1, c.1 as int),
{
}

/// A cell on the board.
pub open spec fn on_board(c: (int, int)) -> bool {
    0 <= c.0 < 32 && 0 <= c.1 < 20
}

/// The cell next to `c` in heading `d` (may lie off the board).
pub open spec fn ahead(c: (usize, usize), d: Dir) -> (int, int) {
    match d {
        Dir::Up => (c.0 as int, c.1 - 1),
        Dir::Down => (c.0 as int, c.1 + 1),
        Dir::Left => (c.0 - 1, c.1 as int),
        Dir::Right => (c.0 + 1, c.1 as int),
    }
}

/// Every cell of `s` lies on the board.
pub open spec fn all_on_board(s: Seq<(usize, usize)>) -> bool {
    forall|i: int| 0 <= i < s.len() ==> (#[trigger] s[i]).0 < 32 && s[i].1 < 20
}

/// Some board cell is not in `body`.
pub open spec fn has_free_cell(body: Seq<(usize, usize)>) -> bool {
    exists|x: usize, y: usize| x < 32 && y < 20 && !body.contains((x, y))
}

/// Where food may be after a spawn: a board cell outside `body` when there is
/// one, and otherwise where it was.
pub open spec fn food_spawned(food: (usize, usize), body: Seq<(usize, usize)>, before: (usize, usize)) -> bool {
    if has_free_cell(body) {
        food.0 < 32 && food.1 < 20 && !body.contains(food)
    } else {
        food == before
    }
}

/// Body cell `p` is at board position `(x, y)`.
pub open spec fn at_cell(p: (usize, usize), x: int, y: int) -> bool {
    p.0 == x && p.1 == y
}

/// How column `half` (0 left, 1 right) of board position `(x, y)` shows
/// (each position is two columns wide): the head as a yellow block, the
/// rest of the body as green blocks, the food as a red dot in the left
/// column, else `under`.
pub open spec fn snake_glyph(s: Snake, x: int, y: int, half: int, under: Cell) -> Cell {
    if at_cell(s.body@[0], x, y) {
        Cell { ch: '█', fg: Color::AnsiValue(col::YELLOW), bg: Color::AnsiValue(col::BLACK) }
    } else if exists|k: int| 1 <= k < s.body@.len() && at_cell(s.body@[k], x, y) {
        Cell { ch: '█', fg: Color::AnsiValue(col::GREEN), bg: Color::AnsiValue(col::BLACK) }
    } else if at_cell(s.food, x, y) && half == 0 {
        Cell { ch: '●', fg: Color::AnsiValue(col::RED), bg: Color::AnsiValue(col::BLACK) }
    } else {
        under
    }
}

/// Snake game state (movement timing is kept by the caller).
pub struct Snake {
    /// The body, head first.
    pub body: VecDeque<(usize, usize)>,
    /// Current heading.
    pub dir: Dir,
    /// Heading taken at the next step.
    pub next_dir: Dir,
    pub food: (usize, usize),
    pub score: u32,
    pub paused: bool,
    pub over: bool,
}

/// Distinct board cells number at most 640.
proof fn lemma_cells_bound(s: Seq<(usize, usize)>)
    requires
        s.no_duplicates(),
        all_on_board(s),
    ensures
        s.len() <= 640,
{
    let idx = s.map_values(|c: (usize, usize)| c.1 * 32 + c.0);
    assert forall|i: int, j: int| 0 <= i < idx.len() && 0 <= j < idx.len() && i != j implies idx[i] != idx[j] by {
        let a = s[i];
        let b = s[j];
        assert(a != b);
        assert(a.1 * 32 + a.0 != b.1 * 32 + b.0) by (nonlinear_arith)
            requires
                a.0 < 32,
                b.0 < 32,
                a != b,
        ;
    }
    assert(idx.no_duplicates());
    idx.unique_seq_to_set();
    lemma_int_range(0, 640);
    assert forall|v: int| idx.to_set().contains(v) implies set_int_range(0, 640).contains(v) by {
        let i = choose|i: int| 0 <= i < idx.len() && idx[i] == v;
        let c = s[i];
        assert(c.1 * 32 + c.0 < 640) by (nonlinear_arith)
            requires
                c.0 < 32,
                c.1 < 20,
        ;
    }
    lemma_len_subset(idx.to_set(), set_int_range(0, 640));
}

impl Snake {
    /// Well-formedness: at least four distinct body cells on the board, the
    /// food on the board and off the body (unless the body covers the whole
    /// board, when it lies under the head), and ten points per cell grown.
    pub open spec fn wf(self) -> bool {
        &&& 4 <= self.body@.len()
        &&& all_on_board(self.body@)
        &&& self.body@.no_duplicates()
        &&& self.food.0 < 32 && self.food.1 < 20
        &&& (self.body@.contains(self.food) ==> !has_free_cell(self.body@))
        &&& self.score == 10 * (self.body@.len() - 4)
    }

    /// A new game: a body of four cells heading right in the middle row,
    /// food on a random free cell.
    pub fn new() -> (s: Snake)
        ensures
            s.wf(),
            s.body@ == seq![(14usize, 10usize), (13, 10), (12, 10), (11, 10)],
            s.dir == Dir::Right,
            s.next_dir == Dir::Right,
            s.score == 0,
            !s.paused && !s.over,
    {
        let mut s = Snake {
            body: VecDeque::new(),
            dir: Dir::Right,
            next_dir: Dir::Right,
            food: (0, 0),
            score: 0,
            paused: false,
            over: false,
        };
        let sy = BH / 2;
        let mut i: usize = 0;
        while i < 4
            invariant
                i <= 4,
                sy == 10,
                s.body@.len() == i,
                forall|j: int| 0 <= j < i ==> #[trigger] s.body@[j] == ((14 - j) as usize, 10usize),
                s.dir == Dir::Right && s.next_dir == Dir::Right && s.score == 0 && !s.paused && !s.over,
            decreases 4 - i,
        {
            s.body.push_back((BW / 2 - 2 - i, sy));
            i = i + 1;
        }
        assert(s.body@ =~= seq![(14usize, 10usize), (13, 10), (12, 10), (11, 10)]);
        assert(!s.body@.contains((0usize, 0usize)));
        s.spawn_food();
        s
    }

    /// Whether the body covers `(x, y)`.
    fn occupies(&self, x: usize, y: usize) -> (r: bool)
        ensures
            r == self.body@.contains((x, y)),
    {
        let mut i: usize = 0;
        while i < self.body.len()
            invariant
                i <= self.body@.len(),
                forall|j: int| 0 <= j < i ==> #[trigger] self.body@[j] != (x, y),
            decreases self.body@.len() - i,
        {
            let c = self.body[i];
            if c.0 == x && c.1 == y {
                return true;
            }
            i = i + 1;
        }
        false
    }

    /// Puts the food on a random board cell outside the body, each such cell
    /// equally likely; with no such cell the food stays.
    fn spawn_food(&mut self)
        ensures
            food_spawned(final(self).food, old(self).body@, old(self).food),
            final(self).body == old(self).body,
            final(self).dir == old(self).dir,
            final(self).next_dir == old(self).next_dir,
            final(self).score == old(self).score,
            final(self).paused == old(self).paused,
            final(self).over == old(self).over,
    {
        broadcast use vstd::seq_lib::group_seq_properties;

        let mut free: Vec<(usize, usize)> = Vec::new();
        let mut y: usize = 0;
        while y < BH
            invariant
                y <= 20,
                forall|i: int| 0 <= i < free@.len() ==> (#[trigger] free@[i]).0 < 32 && free@[i].1 < 20
                    && !self.body@.contains(free@[i]),
                forall|a: usize, b: usize| a < 32 && b < y && !self.body@.contains((a, b)) ==> #[trigger] free@.contains((a, b)),
            decreases 20 - y,
        {
            let mut x: usize = 0;
            while x < BW
                invariant
                    y < 20,
                    x <= 32,
                    forall|i: int| 0 <= i < free@.len() ==> (#[trigger] free@[i]).0 < 32 && free@[i].1 < 20
                        && !self.body@.contains(free@[i]),
                    forall|a: usize, b: usize| a < 32 && b < y && !self.body@.contains((a, b)) ==> #[trigger] free@.contains((a, b)),
                    forall|a: usize| a < x && !self.body@.contains((a, y)) ==> #[trigger] free@.contains((a, y)),
                decreases 32 - x,
            {
                let ghost before = free@;
                let occupied = self.occupies(x, y);
                if !occupied {
                    free.push((x, y));
                }
                proof {
                    assert forall|a: usize, b: usize|
                        a < 32 && b < y && !self.body@.contains((a, b)) implies #[trigger] free@.contains((a, b)) by {
                        assert(before.contains((a, b)));
                        let k = choose|k: int| 0 <= k < before.len() && before[k] == (a, b);
                        assert(free@[k] == (a, b));
                    }
                    assert forall|a: usize| a <= x && !self.body@.contains((a, y)) implies #[trigger] free@.contains(
                        (a, y),
                    ) by {
                        if a < x {
                            assert(before.contains((a, y)));
                            let k = choose|k: int| 0 <= k < before.len() && before[k] == (a, y);
                            assert(free@[k] == (a, y));
                        } else {
                            assert(free@[free@.len() - 1] == (a, y));
                        }
                    }
                }
                x = x + 1;
            }
            y = y + 1;
        }
        if free.len() > 0 {
            let k = random_below(free.len());
            self.food = free[k];
        } else {
            assert forall|a: usize, b: usize| a < 32 && b < 20 implies self.body@.contains((a, b)) by {
                if !self.body@.contains((a, b)) {
                    assert(free@.contains((a, b)));
                }
            }
        }
    }

    /// Turns toward `d`, unless `d` is the reverse of the current heading.
    pub fn turn(&mut self, d: Dir)
        ensures
            final(self).next_dir == (if old(self).dir != opposite(d) { d } else { old(self).next_dir }),
            *final(self) == (Snake { next_dir: final(self).next_dir, ..*old(self) }),
    {
        let opp = match d {
            Dir::Up => Dir::Down,
            Dir::Down => Dir::Up,
            Dir::Left => Dir::Right,
            Dir::Right => Dir::Left,
        };
        if self.dir != opp {
            self.next_dir = d;
        }
    }

    /// The snake collides with itself on entering `n`: `n` is in the body,
    /// except the tail's cell, which the tail leaves in the same move unless
    /// the snake grows there (on the food).
    pub open spec fn bites(self, n: (usize, usize)) -> bool {
        self.body@.contains(n) && !(n == self.body@.last() && n != self.food)
    }

    /// One move. The heading becomes `next_dir`. Leaving the board or
    /// biting the body ends the game with the body as it was. Otherwise the
    /// head advances; on the food the snake grows by one cell, scores ten and
    /// the food respawns, and elsewhere the tail follows.
    #[verifier::spinoff_prover]
    #[verifier::rlimit(30)]
    pub fn step(&mut self)
        requires
            old(self).wf(),
        ensures
            final(self).wf(),
            final(self).dir == old(self).next_dir,
            final(self).next_dir == old(self).next_dir,
            final(self).paused == old(self).paused,
            ({
                let o = *old(self);
                let n = ahead(o.body@[0], o.next_dir);
                let nu = (n.0 as usize, n.1 as usize);
                if !on_board(n) || o.bites(nu) {
                    &&& final(self).over
                    &&& final(self).body@ == o.body@
                    &&& final(self).food == o.food
                    &&& final(self).score == o.score
                } else if nu == o.food {
                    &&& final(self).over == o.over
                    &&& final(self).body@ == seq![nu] + o.body@
                    &&& final(self).score == o.score + 10
                    &&& food_spawned(final(self).food, final(self).body@, o.food)
                } else {
                    &&& final(self).over == o.over
                    &&& final(self).body@ == seq![nu] + o.body@.drop_last()
                    &&& final(self).food == o.food
                    &&& final(self).score == o.score
                }
            }),
    {
        let ghost o = *self;
        self.dir = self.next_dir;
        let head = self.body[0];
        let hx = head.0;
        let hy = head.1;
        let nx: usize;
        let ny: usize;
        match self.dir {
            Dir::Up => {
                if hy == 0 {
                    self.over = true;
                    return;
                }
                nx = hx;
                ny = hy - 1;
            },
            Dir::Down => {
                nx = hx;
                ny = hy + 1;
            },
            Dir::Left => {
                if hx == 0 {
                    self.over = true;
                    return;
                }
                nx = hx - 1;
                ny = hy;
            },
            Dir::Right => {
                nx = hx + 1;
                ny = hy;
            },
        }
        if nx >= BW || ny >= BH {
            self.over = true;
            return;
        }
        let eating = nx == self.food.0 && ny == self.food.1;
        let tail = self.body[self.body.len() - 1];
        let at_tail = nx == tail.0 && ny == tail.1;
        if self.occupies(nx, ny) && !(at_tail && !eating) {
            self.over = true;
            return;
        }
        let ghost n = (nx, ny);
        proof {
            // On the body, the new head can only be on the tail's cell, and
            // then the snake does not eat.
            if o.body@.contains(n) {
                assert(at_tail && !eating);
                assert(n == o.body@.last());
            }
        }
        self.body.push_front((nx, ny));
        if eating {
            proof {
                assert(!o.body@.contains(n));
                assert forall|i: int, j: int|
                    0 <= i < self.body@.len() && 0 <= j < self.body@.len() && i != j implies self.body@[i]
                    != self.body@[j] by {
                    if i == 0 {
                        assert(o.body@[j - 1] == self.body@[j]);
                    } else if j == 0 {
                        assert(o.body@[i - 1] == self.body@[i]);
                    }
                }
                lemma_cells_bound(self.body@);
            }
            self.score = self.score + 10;
            self.spawn_food();
        } else {
            let _ = self.body.pop_back();
            proof {
                assert(self.body@ =~= seq![n] + o.body@.drop_last());
                assert forall|k: int| 0 <= k < o.body@.len() - 1 implies o.body@[k] != n by {
                    if o.body@[k] == n {
                        assert(o.body@.contains(n));
                        assert(o.body@[k] == o.body@[o.body@.len() - 1]);
                    }
                }
                assert forall|i: int, j: int|
                    0 <= i < self.body@.len() && 0 <= j < self.body@.len() && i != j implies self.body@[i]
                    != self.body@[j] by {
                    if i == 0 {
                        assert(o.body@[j - 1] == self.body@[j]);
                    } else if j == 0 {
                        assert(o.body@[i - 1] == self.body@[i]);
                    }
                }
                if o.body@.contains(o.food) {
                    // The board is full, so the head moves into the tail's
                    // cell and the body covers the same cells as before.
                    if !o.body@.contains(n) {
                        assert(n.0 < 32 && n.1 < 20 && !o.body@.contains(n));
                        assert(has_free_cell(o.body@));
                    }
                    assert(n == o.body@.last());
                    assert forall|x: usize, y: usize| x < 32 && y < 20 implies #[trigger] self.body@.contains((x, y)) by {
                        assert(o.body@.contains((x, y)));
                        let k = choose|k: int| 0 <= k < o.body@.len() && o.body@[k] == (x, y);
                        if k == o.body@.len() - 1 {
                            assert(self.body@[0] == (x, y));
                        } else {
                            assert(self.body@[k + 1] == (x, y));
                        }
                    }
                    assert(!has_free_cell(self.body@));
                } else if self.body@.contains(o.food) {
                    let k = choose|k: int| 0 <= k < self.body@.len() && self.body@[k] == o.food;
                    assert(o.body@[k - 1] == o.food);
                }
            }
        }
    }

    /// One key action, ignored once the game is over: arrows turn, Space
    /// pauses or resumes.
    pub fn handle(&mut self, a: Action)
        ensures
            old(self).over ==> *final(self) == *old(self),
            !old(self).over ==> match a {
                Action::Up => final(self).next_dir == (if old(self).dir != Dir::Down { Dir::Up } else { old(self).next_dir })
                    && *final(self) == (Snake { next_dir: final(self).next_dir, ..*old(self) }),
                Action::Down => final(self).next_dir == (if old(self).dir != Dir::Up { Dir::Down } else { old(self).next_dir })
                    && *final(self) == (Snake { next_dir: final(self).next_dir, ..*old(self) }),
                Action::Left => final(self).next_dir == (if old(self).dir != Dir::Right { Dir::Left } else { old(self).next_dir })
                    && *final(self) == (Snake { next_dir: final(self).next_dir, ..*old(self) }),
                Action::Right => final(self).next_dir == (if old(self).dir != Dir::Left { Dir::Right } else { old(self).next_dir })
                    && *final(self) == (Snake { next_dir: final(self).next_dir, ..*old(self) }),
                Action::Space => *final(self) == (Snake { paused: !old(self).paused, ..*old(self) }),
                _ => *final(self) == *old(self),
            },
    {
        if self.over {
            return;
        }
        match a {
            Action::Up => self.turn(Dir::Up),
            Action::Down => self.turn(Dir::Down),
            Action::Left => self.turn(Dir::Left),
            Action::Right => self.turn(Dir::Right),
            Action::Space => self.paused = !self.paused,
            _ => {},
        }
    }

    /// Running until the game is over.
    pub fn status(&self) -> (r: Status)
        ensures
            r == (if self.over { Status::Finished } else { Status::Running }),
    {
        if self.over {
            Status::Finished
        } else {
            Status::Running
        }
    }

    /// The score reached.
    pub fn outcome(&self) -> (r: GameOutcome)
        ensures
            r == GameOutcome::Score(self.score),
    {
        GameOutcome::Score(self.score)
    }

    /// Draws the food and then the body on the board whose top-left
    /// position is `(bx, by)`; each position is two columns wide.
    fn draw_board(&self, c: &mut Canvas, bx: usize, by: usize)
        requires
            old(c).wf(),
            bx <= usize::MAX / 2 + 1,
            by <= usize::MAX / 2 + 1,
            self.wf(),
        ensures
            drawn_on(*final(c), *old(c)),
            forall|x: int, hh: int, y: int|
                0 <= x < 32 && 0 <= hh < 2 && 0 <= y < 20 && bx + 2 * x + hh < old(c).width() && by + y < old(c).height()
                    ==> #[trigger] final(c).cell(bx + 2 * x + hh, by + y) == snake_glyph(
                    *self,
                    x,
                    y,
                    hh,
                    old(c).cell(bx + 2 * x + hh, by + y),
                ),
    {
        let ghost c0 = *c;
        let black = Color::AnsiValue(col::BLACK);
        c.put(bx + 2 * self.food.0, by + self.food.1, '●', Color::AnsiValue(col::RED), black);
        let ghost c1 = *c;
        let mut i: usize = 0;
        while i < self.body.len()
            invariant
                self.wf(),
                bx <= usize::MAX / 2 + 1,
                by <= usize::MAX / 2 + 1,
                black == Color::AnsiValue(col::BLACK),
                drawn_on(*c, c0),
                drawn_on(c1, c0),
                i <= self.body@.len(),
                forall|x: int, hh: int, y: int|
                    0 <= x < 32 && 0 <= hh < 2 && 0 <= y < 20 && bx + 2 * x + hh < c0.width() && by + y < c0.height()
                        ==> #[trigger] c.cell(bx + 2 * x + hh, by + y) == if exists|k: int| 0 <= k < i && at_cell(self.body@[k], x, y) {
                        if at_cell(self.body@[0], x, y) {
                            Cell { ch: '█', fg: Color::AnsiValue(col::YELLOW), bg: black }
                        } else {
                            Cell { ch: '█', fg: Color::AnsiValue(col::GREEN), bg: black }
                        }
                    } else {
                        c1.cell(bx + 2 * x + hh, by + y)
                    },
            decreases self.body@.len() - i,
        {
            let ghost before = *c;
            let p = self.body[i];
            let fg = if i == 0 {
                col::YELLOW
            } else {
                col::GREEN
            };
            c.put_block(bx + 2 * p.0, by + p.1, Color::AnsiValue(fg), black);
            proof {
                assert forall|x: int, hh: int, y: int|
                    0 <= x < 32 && 0 <= hh < 2 && 0 <= y < 20 && bx + 2 * x + hh < c0.width() && by + y < c0.height()
                        implies #[trigger] c.cell(bx + 2 * x + hh, by + y) == if exists|k: int| 0 <= k < i + 1 && at_cell(self.body@[k], x, y) {
                        if at_cell(self.body@[0], x, y) {
                            Cell { ch: '█', fg: Color::AnsiValue(col::YELLOW), bg: black }
                        } else {
                            Cell { ch: '█', fg: Color::AnsiValue(col::GREEN), bg: black }
                        }
                    } else {
                        c1.cell(bx + 2 * x + hh, by + y)
                    } by {
                    assert(before.cell(bx + 2 * x + hh, by + y) == before.cell(bx + 2 * x + hh, by + y));
                    if exists|k: int| 0 <= k < i && at_cell(self.body@[k], x, y) {
                        let k = choose|k: int| 0 <= k < i && at_cell(self.body@[k], x, y);
                        assert(0 <= k < i + 1 && at_cell(self.body@[k], x, y));
                    }
                    if at_cell(self.body@[i as int], x, y) {
                        assert(0 <= i < i + 1 && at_cell(self.body@[i as int], x, y));
                        if i > 0 {
                            assert(self.body@[0] != self.body@[i as int]);
                        }
                    }
                }
            }
            i = i + 1;
        }
        proof {
            assert forall|x: int, hh: int, y: int|
                0 <= x < 32 && 0 <= hh < 2 && 0 <= y < 20 && bx + 2 * x + hh < c0.width() && by + y < c0.height()
                    implies #[trigger] c.cell(bx + 2 * x + hh, by + y) == snake_glyph(*self, x, y, hh, c0.cell(bx + 2 * x + hh, by + y)) by {
                assert(c1.cell(bx + 2 * x + hh, by + y) == c1.cell(bx + 2 * x + hh, by + y));
                if exists|k: int| 1 <= k < self.body@.len() && at_cell(self.body@[k], x, y) {
                    let k = choose|k: int| 1 <= k < self.body@.len() && at_cell(self.body@[k], x, y);
                    assert(0 <= k < self.body@.len() && at_cell(self.body@[k], x, y));
                }
                if at_cell(self.body@[0], x, y) {
                    assert(0 <= 0 < self.body@.len() && at_cell(self.body@[0], x, y));
                }
                if exists|k: int| 0 <= k < self.body@.len() && at_cell(self.body@[k], x, y) {
                    let k = choose|k: int| 0 <= k < self.body@.len() && at_cell(self.body@[k], x, y);
                    if k >= 1 {
                        assert(1 <= k < self.body@.len() && at_cell(self.body@[k], x, y));
                    }
                }
            }
        }
    }

    /// The cells the panel's texts take (see `draw_panel`): the title from
    /// the frame's left column and the best record ending at its right edge
    /// on `panel_row(oy)`, and the score from the left column on the row
    /// below.
    pub open spec fn panel_spans(self, scores: ScoreFile, t: Ui, ox: usize, oy: usize) -> Seq<(int, int, int)> {
        let py = panel_row(oy as int);
        let st = score_text(&t, self.score);
        let high = item_text(GameId::Snake, scores, t);
        let hx = wrap_column(
            (if ox + 66 - text_cols(high) < 0 {
                ox + 66 - text_cols(high) + usize::MAX + 1
            } else {
                ox + 66 - text_cols(high)
            }) as usize,
        );
        seq![
            (py, ox as int, ox + spec_str_width(t.snake_title@)),
            (py + 1, ox as int, ox + spec_str_width(st)),
            (py, hx, hx + spec_str_width(high)),
        ]
    }

    /// Draws the panel of a frame at `(ox, oy)`: the title and the best
    /// record on `panel_row(oy)` (two rows above the frame when there is
    /// room), the score on the row below that, the key help two rows below
    /// the frame, and while paused the pause notice centred in the frame ten
    /// rows below its top. Only the cells the texts take (`panel_spans`), the
    /// help's row and, while paused, the notice's row change. The score
    /// shows in green from the frame's left edge; the best record, when it
    /// fits left of the frame's right edge, shows in gray ending there, with
    /// the title in yellow left of it; the help shows in gray from the left
    /// edge; and the notice in yellow.
    fn draw_panel(&self, c: &mut Canvas, ox: usize, oy: usize, scores: &ScoreFile, t: &Ui)
        requires
            old(c).wf(),
            ox <= usize::MAX / 2,
            oy <= usize::MAX / 2,
        ensures
            drawn_on(*final(c), *old(c)),
            forall|i: int, j: int|
                0 <= i < old(c).width() && 0 <= j < old(c).height() && j != oy + 23 && !(self.paused && j == oy + 10) && !in_spans(
                    self.panel_spans(*scores, *t, ox, oy),
                    i,
                    j,
                ) ==> #[trigger] final(c).cell(i, j) == old(c).cell(i, j),
            ({
                let w = old(c).width() as int;
                let py = panel_row(oy as int);
                let high = item_text(GameId::Snake, *scores, *t);
                let hx = ox + 66 - spec_str_width(high);
                let pw = spec_str_width(t.snake_paused@) as int;
                w <= usize::MAX / 2 && 2 * ox <= w ==> {
                    &&& lines_shown(*final(c), seq![(py + 1, score_text(t, self.score), col::GREEN)], ox as int, w)
                    &&& spec_str_width(high) <= ox + 66 ==> lines_shown(*final(c), seq![(py, high, col::GRAY)], hx, w)
                        && lines_shown(*final(c), seq![(py, t.snake_title@, col::YELLOW)], ox as int, hx)
                    &&& lines_shown(*final(c), seq![(oy + 23, t.snake_help@, col::GRAY)], ox as int, w)
                    &&& self.paused && pw <= 66 ==> lines_shown(
                        *final(c),
                        seq![(oy + 10, t.snake_paused@, col::YELLOW)],
                        ox + (66 - pw) / 2,
                        w,
                    )
                }
            }),
    {
        let ghost c2 = *c;
        let w = c.w();
        let black = Color::AnsiValue(col::BLACK);
        let fw = 2 * BW + 2;
        let score_args = vec![dec_string(self.score as u64)];
        let score = fmt(t.score_fmt, score_args.as_slice());
        proof {
            assert(texts(score_args@) =~= seq![dec_chars(self.score as nat)]);
        }
        let high = item_line(GameId::Snake, scores, t);
        let py = oy.saturating_sub(2);
        c.put_str(ox, py, t.snake_title, Color::AnsiValue(col::YELLOW), black);
        let ghost ct = *c;
        c.put_str(ox, py + 1, score.as_str(), Color::AnsiValue(col::GREEN), black);
        let ghost cs = *c;
        let hw = str_width(high.as_str());
        let hx = (ox + fw).wrapping_sub(hw);
        c.put_str(hx, py, high.as_str(), Color::AnsiValue(col::GRAY), black);
        let ghost ch = *c;
        c.put_str(ox, oy + BH + 3, t.snake_help, Color::AnsiValue(col::GRAY), black);
        let ghost c3 = *c;
        let pw = str_width(t.snake_paused);
        let px = ox.wrapping_add(fw.wrapping_sub(pw) / 2);
        if self.paused {
            c.put_str(px, oy + BH / 2, t.snake_paused, Color::AnsiValue(col::YELLOW), black);
        }
        proof {
            let wi = w as int;
            let m = (usize::MAX as int + 1) as nat;
            let gr = Color::AnsiValue(col::GREEN);
            let bl = Color::AnsiValue(0);
            let pyi = panel_row(oy as int);
            assert(py == pyi);
            c2.lemma_nonempty();
            lemma_wrap_column_small(ox);
            let spans = self.panel_spans(*scores, *t, ox, oy);
            assert(hw == text_cols(item_text(GameId::Snake, *scores, *t)));
            assert(wrap_column(hx) == spans[2].1);
            assert forall|i: int, j: int|
                0 <= i < c2.width() && 0 <= j < c2.height() && j != oy + 23 && !(self.paused && j == oy + 10) && !in_spans(spans, i, j)
                    implies #[trigger] c.cell(i, j) == c2.cell(i, j) by {
                if j == pyi {
                    assert(!(spans[0].0 == j && spans[0].1 <= i < spans[0].2));
                    assert(!(spans[2].0 == j && spans[2].1 <= i < spans[2].2));
                    lemma_put_str_cell_outside(t.snake_title@, ox as int, i, wi, Color::AnsiValue(col::YELLOW), black, c2.cell(i, j));
                    lemma_put_str_cell_outside(high@, wrap_column(hx), i, wi, Color::AnsiValue(col::GRAY), black, cs.cell(i, j));
                } else if j == pyi + 1 {
                    assert(!(spans[1].0 == j && spans[1].1 <= i < spans[1].2));
                    lemma_put_str_cell_outside(score@, ox as int, i, wi, Color::AnsiValue(col::GREEN), black, ct.cell(i, j));
                }
            }
            if w <= usize::MAX / 2 && 2 * ox <= w {
                let st = score_text(t, self.score);
                let l = seq![((pyi + 1) as int, st, col::GREEN)];
                assert forall|k: int, i: int|
                    0 <= k < l.len() && 0 <= l[k].0 < c.height() && ox <= i < ox + spec_str_width(l[k].1) && i < wi && i < c.width()
                        implies #[trigger] c.cell(i, l[k].0) == put_str_cell(l[k].1, ox as int, i, c.width() as int, Color::AnsiValue(l[k].2), bl, spec_empty_cell()) by {
                    assert(l[k] == ((pyi + 1) as int, st, col::GREEN));
                    lemma_put_str_cell_covered(st, ox as int, i, wi, gr, bl, ct.cell(i, pyi + 1), spec_empty_cell());
                }
                let high_t = item_text(GameId::Snake, *scores, *t);
                if spec_str_width(high_t) <= ox + 66 {
                    vstd::arithmetic::div_mod::lemma_small_mod(spec_str_width(high_t), m);
                    assert(hw == spec_str_width(high_t));
                    let hxi = ox + 66 - spec_str_width(high_t);
                    assert(hx == hxi);
                    lemma_wrap_column_small(hx);
                    let lh = seq![(pyi as int, high_t, col::GRAY)];
                    assert forall|k: int, i: int|
                        0 <= k < lh.len() && 0 <= lh[k].0 < c.height() && hxi <= i < hxi + spec_str_width(lh[k].1) && i < wi && i < c.width()
                            implies #[trigger] c.cell(i, lh[k].0) == put_str_cell(lh[k].1, hxi, i, c.width() as int, Color::AnsiValue(lh[k].2), bl, spec_empty_cell()) by {
                        assert(lh[k] == (pyi as int, high_t, col::GRAY));
                        lemma_put_str_cell_covered(high_t, hxi, i, wi, Color::AnsiValue(col::GRAY), bl, cs.cell(i, pyi), spec_empty_cell());
                    }
                    let lt = seq![(pyi as int, t.snake_title@, col::YELLOW)];
                    assert forall|k: int, i: int|
                        0 <= k < lt.len() && 0 <= lt[k].0 < c.height() && ox <= i < ox + spec_str_width(lt[k].1) && i < hxi && i < c.width()
                            implies #[trigger] c.cell(i, lt[k].0) == put_str_cell(lt[k].1, ox as int, i, c.width() as int, Color::AnsiValue(lt[k].2), bl, spec_empty_cell()) by {
                        assert(lt[k] == (pyi as int, t.snake_title@, col::YELLOW));
                        lemma_put_str_cell_covered(t.snake_title@, ox as int, i, wi, Color::AnsiValue(col::YELLOW), bl, c2.cell(i, pyi), spec_empty_cell());
                        assert(cs.cell(i, pyi) == ct.cell(i, pyi));
                        assert(ch.cell(i, pyi) == cs.cell(i, pyi));
                    }
                }
                let lq = seq![((oy + 23) as int, t.snake_help@, col::GRAY)];
                assert forall|k: int, i: int|
                    0 <= k < lq.len() && 0 <= lq[k].0 < c.height() && ox <= i < ox + spec_str_width(lq[k].1) && i < wi && i < c.width()
                        implies #[trigger] c.cell(i, lq[k].0) == put_str_cell(lq[k].1, ox as int, i, c.width() as int, Color::AnsiValue(lq[k].2), bl, spec_empty_cell()) by {
                    assert(lq[k] == ((oy + 23) as int, t.snake_help@, col::GRAY));
                    lemma_put_str_cell_covered(t.snake_help@, ox as int, i, wi, Color::AnsiValue(col::GRAY), bl, ch.cell(i, oy + 23), spec_empty_cell());
                }
                let pwi = spec_str_width(t.snake_paused@) as int;
                if self.paused && pwi <= 66 {
                    vstd::arithmetic::div_mod::lemma_small_mod(spec_str_width(t.snake_paused@), m);
                    assert(pw == pwi);
                    let pxi = ox + (66 - pwi) / 2;
                    assert(px == pxi);
                    lemma_wrap_column_small(px);
                    let lp = seq![((oy + 10) as int, t.snake_paused@, col::YELLOW)];
                    assert forall|k: int, i: int|
                        0 <= k < lp.len() && 0 <= lp[k].0 < c.height() && pxi <= i < pxi + spec_str_width(lp[k].1) && i < wi && i < c.width()
                            implies #[trigger] c.cell(i, lp[k].0) == put_str_cell(lp[k].1, pxi, i, c.width() as int, Color::AnsiValue(lp[k].2), bl, spec_empty_cell()) by {
                        assert(lp[k] == ((oy + 10) as int, t.snake_paused@, col::YELLOW));
                        lemma_put_str_cell_covered(t.snake_paused@, pxi, i, wi, Color::AnsiValue(col::YELLOW), bl, c3.cell(i, oy + 10), spec_empty_cell());
                    }
                }
            }
        }
    }

    /// Draws the game: the board in its frame (each board position two
    /// columns wide, for square cells), and the panel: title, score, best
    /// record, key help and, while paused, the pause notice. The frame is
    /// centred, or starts at the canvas's edge when the canvas is smaller,
    /// and is cut off at its right and bottom edges. On a canvas of any size
    /// a terminal has, both columns of every board position that are on the
    /// canvas show as `snake_glyph` says, but for the pause notice's row
    /// while paused, the cells the panel's texts take (`panel_spans`), and
    /// the last column or row of a canvas that cuts the frame there. The
    /// panel's texts show as `draw_panel` says: the title in yellow and the
    /// best record in gray ending at the frame's right edge on
    /// `panel_row(oy)` (two rows above the frame when there is room), the
    /// score in green on the row below, the help in gray two rows below the
    /// frame, and the pause notice in yellow centred in the frame.
    pub fn draw(&self, c: &mut Canvas, scores: &ScoreFile, t: &Ui)
        requires
            old(c).wf(),
            self.wf(),
        ensures
            drawn_on(*final(c), *old(c)),
            ({
                let w = old(c).width() as int;
                let h = old(c).height() as int;
                let ox = if w >= 66 { (w - 66) / 2 } else { 0 };
                let oy = if h >= 22 { (h - 22) / 2 } else { 0 };
                let spans = self.panel_spans(*scores, *t, ox as usize, oy as usize);
                w <= usize::MAX / 2 ==> forall|x: int, hh: int, y: int|
                    0 <= x < 32 && 0 <= hh < 2 && 0 <= y < 20 && ox + 1 + 2 * x + hh < w && oy + 1 + y < h && !(self.paused && y == 9)
                        && !in_spans(spans, ox + 1 + 2 * x + hh, oy + 1 + y) && !((ox + 1 + 2 * x + hh == w - 1 && ox + 65 >= w) || (oy
                        + 1 + y == h - 1 && oy + 21 >= h)) ==> #[trigger] final(c).cell(ox + 1 + 2 * x + hh, oy + 1 + y) == snake_glyph(
                        *self,
                        x,
                        y,
                        hh,
                        Cell { ch: ' ', fg: Color::AnsiValue(col::BLACK), bg: Color::AnsiValue(col::BLACK) },
                    )
            }),
            ({
                let w = old(c).width() as int;
                let h = old(c).height() as int;
                let ox = if w >= 66 { (w - 66) / 2 } else { 0 };
                let oy = if h >= 22 { (h - 22) / 2 } else { 0 };
                let py = panel_row(oy);
                let high = item_text(GameId::Snake, *scores, *t);
                let hx = ox + 66 - spec_str_width(high);
                let pw = spec_str_width(t.snake_paused@) as int;
                w <= usize::MAX / 2 ==> {
                    &&& lines_shown(*final(c), seq![(py + 1, score_text(t, self.score), col::GREEN)], ox, w)
                    &&& spec_str_width(high) <= ox + 66 ==> lines_shown(*final(c), seq![(py, high, col::GRAY)], hx, w)
                        && lines_shown(*final(c), seq![(py, t.snake_title@, col::YELLOW)], ox, hx)
                    &&& lines_shown(*final(c), seq![(oy + 23, t.snake_help@, col::GRAY)], ox, w)
                    &&& self.paused && pw <= 66 ==> lines_shown(
                        *final(c),
                        seq![(oy + 10, t.snake_paused@, col::YELLOW)],
                        ox + (66 - pw) / 2,
                        w,
                    )
                }
            }),
    {
        let w = c.w();
        let h = c.h();
        let black = Color::AnsiValue(col::BLACK);
        c.fill_rect(0, 0, w, h, ' ', black, black);
        let fw = 2 * BW + 2;
        let ox = w.saturating_sub(fw) / 2;
        let oy = h.saturating_sub(BH + 2) / 2;
        c.border(ox, oy, fw, BH + 2, Color::AnsiValue(col::CYAN));
        let ghost c1 = *c;
        self.draw_board(c, ox + 1, oy + 1);
        let ghost c2 = *c;
        self.draw_panel(c, ox, oy, scores, t);
        proof {
            let fill = Cell { ch: ' ', fg: black, bg: black };
            let spans = self.panel_spans(*scores, *t, ox, oy);
            if w <= usize::MAX / 2 {
                assert forall|x: int, hh: int, y: int|
                    0 <= x < 32 && 0 <= hh < 2 && 0 <= y < 20 && ox + 1 + 2 * x + hh < w && oy + 1 + y < h && !(self.paused && y == 9)
                        && !in_spans(spans, ox + 1 + 2 * x + hh, oy + 1 + y) && !((ox + 1 + 2 * x + hh == w - 1 && ox + 65 >= w) || (oy
                        + 1 + y == h - 1 && oy + 21 >= h)) implies #[trigger] c.cell(ox + 1 + 2 * x + hh, oy + 1 + y) == snake_glyph(
                        *self,
                        x,
                        y,
                        hh,
                        fill,
                    ) by {
                    let i = ox + 1 + 2 * x + hh;
                    let j = oy + 1 + y;
                    assert(c1.cell(i, j) == fill);
                    assert(c2.cell(i, j) == snake_glyph(*self, x, y, hh, c1.cell(i, j)));
                    assert(c.cell(i, j) == c2.cell(i, j));
                }
            }
        }
    }

}

} // verus!
