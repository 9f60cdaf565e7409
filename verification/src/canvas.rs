//! Character frame buffer with diff-based flushing to XTerm256 escape codes.

use vstd::prelude::*;
use vstd::string::*;
use vstd::utf8::*;

verus! {

/// Whether a code point lies in one of the full-width (East Asian wide) ranges
/// that the terminal renders in two columns.
pub open spec fn is_wide_cp(cp: u32) -> bool {
    ||| 0x1100 <= cp <= 0x115F
    ||| 0x2E80 <= cp <= 0x303E
    ||| 0x3041 <= cp <= 0x33FF
    ||| 0x3400 <= cp <= 0x4DBF
    ||| 0x4E00 <= cp <= 0x9FFF
    ||| 0xA000 <= cp <= 0xA4CF
    ||| 0xAC00 <= cp <= 0xD7A3
    ||| 0xF900 <= cp <= 0xFAFF
    ||| 0xFE30 <= cp <= 0xFE4F
    ||| 0xFF00 <= cp <= 0xFF60
    ||| 0xFFE0 <= cp <= 0xFFE6
    ||| 0x20000 <= cp <= 0x2FFFD
    ||| 0x30000 <= cp <= 0x3FFFD
}

/// Display width of one character: 2 for full-width CJK, 1 otherwise.
pub open spec fn spec_char_width(c: char) -> nat {
    if (c as u32) < 128 {
        1
    } else if is_wide_cp(c as u32) {
        2
    } else {
        1
    }
}

/// Display width of a character sequence: the sum of its characters' widths.
pub open spec fn spec_str_width(s: Seq<char>) -> nat
    decreases s.len(),
{
    if s.len() == 0 {
        0
    } else {
        spec_str_width(s.drop_last()) + spec_char_width(s.last())
    }
}

/// Estimated terminal column width of a character: full-width CJK counts 2, everything else 1.
pub fn char_width(c: char) -> (w: usize)
    ensures
        w == spec_char_width(c),
        w == 1 || w == 2,
{
    let cp = c as u32;
    if cp < 128 {
        return 1;
    }
    if (0x1100 <= cp && cp <= 0x115F) || (0x2E80 <= cp && cp <= 0x303E) || (0x3041 <= cp && cp
        <= 0x33FF) || (0x3400 <= cp && cp <= 0x4DBF) || (0x4E00 <= cp && cp <= 0x9FFF) || (0xA000
        <= cp && cp <= 0xA4CF) || (0xAC00 <= cp && cp <= 0xD7A3) || (0xF900 <= cp && cp <= 0xFAFF)
        || (0xFE30 <= cp && cp <= 0xFE4F) || (0xFF00 <= cp && cp <= 0xFF60) || (0xFFE0 <= cp && cp
        <= 0xFFE6) || (0x20000 <= cp && cp <= 0x2FFFD) || (0x30000 <= cp && cp <= 0x3FFFD) {
        2
    } else {
        1
    }
}

/// Display width of a string, counting CJK full-width characters as 2 columns
/// (the sum wraps around at `usize::MAX + 1`, which no real string reaches).
pub fn str_width(s: &str) -> (w: usize)
    ensures
        w == (spec_str_width(s@) as int) % (usize::MAX as int + 1),
{
    let n = s.unicode_len();
    let mut total: usize = 0;
    let mut i: usize = 0;
    proof {
        assert(s@.take(0) =~= Seq::<char>::empty());
        vstd::arithmetic::div_mod::lemma_small_mod(0, (usize::MAX as int + 1) as nat);
    }
    while i < n
        invariant
            n == s@.len(),
            i <= n,
            total == (spec_str_width(s@.take(i as int)) as int) % (usize::MAX as int + 1),
        decreases n - i,
    {
        proof {
            assert(s@.take(i as int + 1).drop_last() =~= s@.take(i as int));
        }
        let c = s.get_char(i);
        let cw = char_width(c);
        proof {
            let m = usize::MAX as int + 1;
            let x = spec_str_width(s@.take(i as int)) as int;
            vstd::arithmetic::div_mod::lemma_add_mod_noop(x, cw as int, m);
            vstd::arithmetic::div_mod::lemma_small_mod(cw as nat, m as nat);
            if total + cw < m {
                vstd::arithmetic::div_mod::lemma_small_mod((total + cw) as nat, m as nat);
            } else {
                vstd::arithmetic::div_mod::lemma_mod_add_multiples_vanish(total + cw - m, m);
                vstd::arithmetic::div_mod::lemma_small_mod((total + cw - m) as nat, m as nat);
            }
        }
        total = total.wrapping_add(cw);
        i = i + 1;
    }
    proof {
        assert(s@.take(n as int) =~= s@);
    }
    total
}

/// The XTerm256 index approximating an RGB color: grays map onto the gray ramp
/// (or the cube's black/white corners), other colors onto the 6x6x6 cube. The
/// gray level 248, whose ramp step would pass the last index, takes the
/// lightest gray, 255.
pub open spec fn spec_rgb_to_ansi(r: u8, g: u8, b: u8) -> int {
    if r == g && g == b {
        if r < 8 {
            16
        } else if r > 248 {
            231
        } else if r == 248 {
            255
        } else {
            232 + (r - 8) / 10
        }
    } else {
        16 + 36 * (r * 5 / 255) + 6 * (g * 5 / 255) + (b * 5 / 255)
    }
}

/// Standard RGB to XTerm256 cube approximation.
pub fn rgb_to_ansi(r: u8, g: u8, b: u8) -> (n: u8)
    ensures
        n as int == spec_rgb_to_ansi(r, g, b),
        n >= 16,
{
    let (r, g, b) = (r as u16, g as u16, b as u16);
    if r == g && g == b {
        if r < 8 {
            return 16;
        }
        if r > 248 {
            return 231;
        }
        if r == 248 {
            return 255;
        }
        return (232 + (r - 8) / 10) as u8;
    }
    let ri = r * 5 / 255;
    let gi = g * 5 / 255;
    let bi = b * 5 / 255;
    (16 + 36 * ri + 6 * gi + bi) as u8
}


/// A terminal color, mirroring the terminal library's color model.
#[derive(Clone, Copy, PartialEq, Eq, Debug, Structural)]
pub enum Color {
    Reset,
    Black,
    DarkGrey,
    Red,
    DarkRed,
    Green,
    DarkGreen,
    Yellow,
    DarkYellow,
    Blue,
    DarkBlue,
    Magenta,
    DarkMagenta,
    Cyan,
    DarkCyan,
    White,
    Grey,
    Rgb { r: u8, g: u8, b: u8 },
    AnsiValue(u8),
}

/// The XTerm256 index of a color.
pub open spec fn spec_color_to_ansi(c: Color) -> int {
    match c {
        Color::Reset => 0,
        Color::Black => 0,
        Color::DarkGrey => 8,
        Color::Red => 1,
        Color::DarkRed => 52,
        Color::Green => 2,
        Color::DarkGreen => 22,
        Color::Yellow => 3,
        Color::DarkYellow => 94,
        Color::Blue => 4,
        Color::DarkBlue => 18,
        Color::Magenta => 5,
        Color::DarkMagenta => 53,
        Color::Cyan => 6,
        Color::DarkCyan => 23,
        Color::White => 7,
        Color::Grey => 244,
        Color::AnsiValue(n) => n as int,
        Color::Rgb { r, g, b } => spec_rgb_to_ansi(r, g, b),
    }
}

/// Normalizes any color to its 8-bit XTerm256 index (`Reset` falls back to black).
pub fn color_to_ansi(c: Color) -> (n: u8)
    ensures
        n as int == spec_color_to_ansi(c),
{
    match c {
        Color::Reset => 0,
        Color::Black => 0,
        Color::DarkGrey => 8,
        Color::Red => 1,
        Color::DarkRed => 52,
        Color::Green => 2,
        Color::DarkGreen => 22,
        Color::Yellow => 3,
        Color::DarkYellow => 94,
        Color::Blue => 4,
        Color::DarkBlue => 18,
        Color::Magenta => 5,
        Color::DarkMagenta => 53,
        Color::Cyan => 6,
        Color::DarkCyan => 23,
        Color::White => 7,
        Color::Grey => 244,
        Color::AnsiValue(n) => n,
        Color::Rgb { r, g, b } => rgb_to_ansi(r, g, b),
    }
}

/// One character cell of the frame buffer.
#[derive(Clone, Copy, PartialEq, Eq, Debug, Structural)]
pub struct Cell {
    pub ch: char,
    pub fg: Color,
    pub bg: Color,
}

/// The blank cell: a space in the terminal's default colors.
pub open spec fn spec_empty_cell() -> Cell {
    Cell { ch: ' ', fg: Color::Reset, bg: Color::Reset }
}

impl Cell {
    /// The blank cell: a space in the terminal's default colors.
    pub fn empty() -> (c: Cell)
        ensures
            c == spec_empty_cell(),
    {
        Cell { ch: ' ', fg: Color::Reset, bg: Color::Reset }
    }
}

/// Character canvas: `cur` is the frame being drawn, `prev` the last frame
/// sent to the terminal (for diff flushing). Both are row-major `w * h` grids.
pub struct Canvas {
    w: usize,
    h: usize,
    cur: Vec<Cell>,
    prev: Vec<Cell>,
}

pub proof fn lemma_cell_index(x: int, y: int, w: int, h: int)
    requires
        0 <= x < w,
        0 <= y < h,
    ensures
        0 <= y * w + x < w * h,
        y * w + x + 1 <= w * h,
{
    assert(0 <= y * w) by (nonlinear_arith)
        requires
            0 <= y,
            0 <= w,
    ;
    assert((y + 1) * w <= h * w) by (nonlinear_arith)
        requires
            y + 1 <= h,
            0 <= w,
    ;
    assert((y + 1) * w == y * w + w) by (nonlinear_arith);
    assert(h * w == w * h) by (nonlinear_arith);
}

pub proof fn lemma_cell_index_injective(x1: int, y1: int, x2: int, y2: int, w: int)
    requires
        0 <= x1 < w,
        0 <= x2 < w,
        0 <= y1,
        0 <= y2,
        !(x1 == x2 && y1 == y2),
    ensures
        y1 * w + x1 != y2 * w + x2,
{
    if y1 == y2 {
    } else if y1 < y2 {
        assert(y1 * w + w <= y2 * w) by (nonlinear_arith)
            requires
                y1 < y2,
                0 <= w,
        ;
    } else {
        assert(y2 * w + w <= y1 * w) by (nonlinear_arith)
            requires
                y2 < y1,
                0 <= w,
        ;
    }
}

/// Column step of the diff scan over one cell: full-width glyphs cover two columns.
pub open spec fn glyph_step(c: char) -> int {
    if spec_char_width(c) == 2 {
        2
    } else {
        1
    }
}

impl Canvas {
    /// Well-formedness: both frames are `w * h` row-major grids of cells, at
    /// least one of each. Every canvas built by `new` satisfies it and every
    /// method keeps it.
    pub closed spec fn wf(self) -> bool {
        &&& self.w >= 1
        &&& self.h >= 1
        &&& self.w * self.h <= usize::MAX
        &&& self.cur@.len() == self.w * self.h
        &&& self.prev@.len() == self.w * self.h
    }

    /// The cell of the frame being drawn at column `x`, row `y`.
    pub closed spec fn cell(self, x: int, y: int) -> Cell {
        self.cur@[y * self.w + x]
    }

    /// The cell of the last flushed frame at column `x`, row `y`.
    pub closed spec fn prev_cell(self, x: int, y: int) -> Cell {
        self.prev@[y * self.w + x]
    }

    pub closed spec fn width(self) -> nat {
        self.w as nat
    }

    pub closed spec fn height(self) -> nat {
        self.h as nat
    }

    /// The cells of the frame being drawn, row-major.
    pub closed spec fn frame(self) -> Seq<Cell> {
        self.cur@
    }

    /// The cells of the last flushed frame, row-major.
    pub closed spec fn prev_frame(self) -> Seq<Cell> {
        self.prev@
    }

    /// A well-formed canvas has at least one row and one column, and its
    /// sizes are `usize` values.
    pub proof fn lemma_nonempty(self)
        requires
            self.wf(),
        ensures
            1 <= self.width() <= usize::MAX,
            1 <= self.height() <= usize::MAX,
    {
    }

    /// Width of the canvas in columns.
    pub fn w(&self) -> (r: usize)
        ensures
            r == self.width(),
    {
        self.w
    }

    /// Height of the canvas in rows.
    pub fn h(&self) -> (r: usize)
        ensures
            r == self.height(),
    {
        self.h
    }

    /// The cell at column `x`, row `y` of the frame being drawn, or `None`
    /// outside the canvas.
    pub fn cell_at(&self, x: usize, y: usize) -> (r: Option<Cell>)
        requires
            self.wf(),
        ensures
            r == if x < self.width() && y < self.height() {
                Some(self.cell(x as int, y as int))
            } else {
                None
            },
    {
        if x < self.w && y < self.h {
            proof {
                lemma_cell_index(x as int, y as int, self.w as int, self.h as int);
            }
            Some(self.cur[y * self.w + x])
        } else {
            None
        }
    }

    /// A blank canvas of at least 1x1 cells; both frames start blank.
    pub fn new(w: usize, h: usize) -> (c: Canvas)
        requires
            (if w == 0 { 1 } else { w }) * (if h == 0 { 1 } else { h }) <= usize::MAX,
        ensures
            c.wf(),
            c.width() == if w == 0 { 1 } else { w },
            c.height() == if h == 0 { 1 } else { h },
            forall|k: int| 0 <= k < c.frame().len() ==> #[trigger] c.frame()[k] == spec_empty_cell(),
            forall|k: int|
                0 <= k < c.prev_frame().len() ==> #[trigger] c.prev_frame()[k] == spec_empty_cell(),
    {
        let w = if w == 0 {
            1
        } else {
            w
        };
        let h = if h == 0 {
            1
        } else {
            h
        };
        let cur = vec![Cell::empty(); w * h];
        let prev = vec![Cell::empty(); w * h];
        Canvas { w, h, cur, prev }
    }

    /// Rebuilds the canvas for a new terminal size (forcing a full redraw);
    /// a resize to the current size changes nothing.
    pub fn resize(&mut self, w: usize, h: usize)
        requires
            old(self).wf(),
            (if w == 0 { 1 } else { w }) * (if h == 0 { 1 } else { h }) <= usize::MAX,
        ensures
            final(self).wf(),
            final(self).width() == if w == 0 { 1 } else { w },
            final(self).height() == if h == 0 { 1 } else { h },
            (old(self).width() == final(self).width() && old(self).height() == final(self).height())
                ==> *final(self) == *old(self),
            !(old(self).width() == final(self).width() && old(self).height()
                == final(self).height()) ==> {
                &&& forall|k: int|
                    0 <= k < final(self).frame().len() ==> #[trigger] final(self).frame()[k]
                        == spec_empty_cell()
                &&& forall|k: int|
                    0 <= k < final(self).prev_frame().len() ==> #[trigger] final(self).prev_frame()[k] == spec_empty_cell()
            },
    {
        let w = if w == 0 {
            1
        } else {
            w
        };
        let h = if h == 0 {
            1
        } else {
            h
        };
        if w == self.w && h == self.h {
            return;
        }
        self.w = w;
        self.h = h;
        self.cur = vec![Cell::empty(); w * h];
        self.prev = vec![Cell::empty(); w * h];
    }
    /// Blanks the whole frame being drawn; the last flushed frame is kept.
    pub fn clear(&mut self)
        requires
            old(self).wf(),
        ensures
            final(self).wf(),
            final(self).width() == old(self).width(),
            final(self).height() == old(self).height(),
            final(self).prev_frame() == old(self).prev_frame(),
            forall|k: int|
                0 <= k < final(self).frame().len() ==> #[trigger] final(self).frame()[k]
                    == spec_empty_cell(),
    {
        let n = self.cur.len();
        let mut k: usize = 0;
        while k < n
            invariant
                self.wf(),
                n == self.cur@.len(),
                self.w == old(self).w,
                self.h == old(self).h,
                self.prev == old(self).prev,
                k <= n,
                forall|j: int| 0 <= j < k ==> #[trigger] self.cur@[j] == spec_empty_cell(),
            decreases n - k,
        {
            self.cur.set(k, Cell::empty());
            k = k + 1;
        }
    }

    /// Forces the next flush to redraw the whole frame (e.g. when switching screens).
    pub fn force_redraw(&mut self)
        requires
            old(self).wf(),
        ensures
            final(self).wf(),
            final(self).width() == old(self).width(),
            final(self).height() == old(self).height(),
            final(self).frame() == old(self).frame(),
            forall|k: int|
                0 <= k < final(self).prev_frame().len() ==> #[trigger] final(self).prev_frame()[k]
                    == spec_empty_cell(),
    {
        self.prev = vec![Cell::empty(); self.w * self.h];
    }

    /// Draws one square block: a full block character in the two columns
    /// `x` and `x + 1` (nothing past `usize::MAX`).
    pub fn put_block(&mut self, x: usize, y: usize, fg: Color, bg: Color)
        requires
            old(self).wf(),
        ensures
            final(self).wf(),
            final(self).width() == old(self).width(),
            final(self).height() == old(self).height(),
            final(self).prev_frame() == old(self).prev_frame(),
            forall|i: int, j: int|
                0 <= i < old(self).width() && 0 <= j < old(self).height() ==> #[trigger] final(self).cell(i, j) == if (i == x || i == x + 1) && j == y {
                    Cell { ch: '█', fg, bg }
                } else {
                    old(self).cell(i, j)
                },
    {
        self.put(x, y, '█', fg, bg);
        if x < usize::MAX {
            self.put(x + 1, y, '█', fg, bg);
        }
    }

    /// Writes one cell; coordinates outside the canvas are ignored.
    pub fn put(&mut self, x: usize, y: usize, ch: char, fg: Color, bg: Color)
        requires
            old(self).wf(),
        ensures
            final(self).wf(),
            final(self).width() == old(self).width(),
            final(self).height() == old(self).height(),
            final(self).prev_frame() == old(self).prev_frame(),
            forall|i: int, j: int|
                0 <= i < old(self).width() && 0 <= j < old(self).height() ==> #[trigger] final(self).cell(i, j) == if i == x && j == y {
                    Cell { ch, fg, bg }
                } else {
                    old(self).cell(i, j)
                },
    {
        if x >= self.w || y >= self.h {
            return;
        }
        proof {
            lemma_cell_index(x as int, y as int, self.w as int, self.h as int);
        }
        let idx = y * self.w + x;
        self.cur.set(idx, Cell { ch, fg, bg });
        proof {
            assert forall|i: int, j: int|
                0 <= i < old(self).width() && 0 <= j < old(self).height() implies #[trigger] self.cell(i, j) == if i == x && j == y {
                    Cell { ch, fg, bg }
                } else {
                    old(self).cell(i, j)
                } by {
                lemma_cell_index(i, j, self.w as int, self.h as int);
                if !(i == x && j == y) {
                    lemma_cell_index_injective(i, j, x as int, y as int, self.w as int);
                }
            }
        }
    }
    /// Fills the rectangle `[x, x + w) x [y, y + h)` (clipped to the canvas) with one cell;
    /// a rectangle reaching past `usize::MAX` is clipped like any other.
    pub fn fill_rect(&mut self, x: usize, y: usize, w: usize, h: usize, ch: char, fg: Color, bg: Color)
        requires
            old(self).wf(),
        ensures
            final(self).wf(),
            final(self).width() == old(self).width(),
            final(self).height() == old(self).height(),
            final(self).prev_frame() == old(self).prev_frame(),
            forall|i: int, j: int|
                0 <= i < old(self).width() && 0 <= j < old(self).height() ==> #[trigger] final(self).cell(i, j) == if x <= i < x + w && y <= j < y + h {
                    Cell { ch, fg, bg }
                } else {
                    old(self).cell(i, j)
                },
    {
        let y_end = if y.saturating_add(h) < self.h {
            y + h
        } else {
            self.h
        };
        let x_end = if x.saturating_add(w) < self.w {
            x + w
        } else {
            self.w
        };
        let ghost old_self = *self;
        let mut yy = y;
        while yy < y_end
            invariant
                self.wf(),
                self.width() == old_self.width(),
                self.height() == old_self.height(),
                self.prev_frame() == old_self.prev_frame(),
                y_end <= self.h,
                x_end <= self.w,
                y_end == if y + h < self.h { y + h } else { self.h as int },
                x_end == if x + w < self.w { x + w } else { self.w as int },
                y <= yy,
                yy <= y_end || yy == y,
                forall|i: int, j: int|
                    0 <= i < old_self.width() && 0 <= j < old_self.height() ==> #[trigger] self.cell(i, j) == if x <= i < x + w && y <= j < yy {
                        Cell { ch, fg, bg }
                    } else {
                        old_self.cell(i, j)
                    },
            decreases y_end - yy,
        {
            let mut xx = x;
            while xx < x_end
                invariant
                    self.wf(),
                    self.width() == old_self.width(),
                    self.height() == old_self.height(),
                    self.prev_frame() == old_self.prev_frame(),
                    y_end <= self.h,
                    x_end <= self.w,
                    y_end == if y + h < self.h { y + h } else { self.h as int },
                    x_end == if x + w < self.w { x + w } else { self.w as int },
                    y <= yy < y_end,
                    x <= xx,
                    xx <= x_end || xx == x,
                    forall|i: int, j: int|
                        0 <= i < old_self.width() && 0 <= j < old_self.height() ==> #[trigger] self.cell(i, j) == if (x <= i < x + w && y <= j < yy) || (x <= i < xx && j == yy) {
                            Cell { ch, fg, bg }
                        } else {
                            old_self.cell(i, j)
                        },
                decreases x_end - xx,
            {
                self.put(xx, yy, ch, fg, bg);
                xx = xx + 1;
            }
            yy = yy + 1;
        }
    }

    /// Draws an ASCII frame (`+` corners, `-` edges, `|` sides) of size `w x h`
    /// at `(x, y)`, clipped to the canvas; an empty size draws nothing.
    pub fn border(&mut self, x: usize, y: usize, w: usize, h: usize, fg: Color)
        requires
            old(self).wf(),
        ensures
            final(self).wf(),
            final(self).width() == old(self).width(),
            final(self).height() == old(self).height(),
            final(self).prev_frame() == old(self).prev_frame(),
            w == 0 || h == 0 ==> *final(self) == *old(self),
            w > 0 && h > 0 ==> forall|i: int, j: int|
                0 <= i < old(self).width() && 0 <= j < old(self).height() ==> #[trigger] final(self).cell(i, j) == border_cell(
                    old(self).cell(i, j),
                    i,
                    j,
                    x as int,
                    y as int,
                    spec_min(x + w - 1, old(self).width() - 1),
                    spec_min(y + h - 1, old(self).height() - 1),
                    fg,
                ),
    {
        if w == 0 || h == 0 {
            return;
        }
        let xr0 = x.saturating_add(w - 1);
        let xr = if xr0 < self.w - 1 {
            xr0
        } else {
            self.w - 1
        };
        let yb0 = y.saturating_add(h - 1);
        let yb = if yb0 < self.h - 1 {
            yb0
        } else {
            self.h - 1
        };
        let ghost old_self = *self;
        let mut i = x;
        while i <= xr
            invariant
                self.wf(),
                self.width() == old_self.width(),
                self.height() == old_self.height(),
                self.prev_frame() == old_self.prev_frame(),
                xr < self.w,
                yb < self.h,
                x <= i,
                i <= xr + 1 || i == x,
                forall|a: int, b: int|
                    0 <= a < old_self.width() && 0 <= b < old_self.height() ==> #[trigger] self.cell(a, b) == if (b == y || b == yb) && x <= a < i {
                        Cell { ch: '-', fg, bg: Color::Reset }
                    } else {
                        old_self.cell(a, b)
                    },
            decreases xr + 1 - i,
        {
            self.put(i, y, '-', fg, Color::Reset);
            self.put(i, yb, '-', fg, Color::Reset);
            i = i + 1;
        }
        let ghost mid = *self;
        let mut j = y;
        while j <= yb
            invariant
                self.wf(),
                self.width() == old_self.width(),
                self.height() == old_self.height(),
                self.prev_frame() == old_self.prev_frame(),
                xr < self.w,
                yb < self.h,
                y <= j,
                j <= yb + 1 || j == y,
                mid.width() == old_self.width(),
                mid.height() == old_self.height(),
                forall|a: int, b: int|
                    0 <= a < old_self.width() && 0 <= b < old_self.height() ==> #[trigger] self.cell(a, b) == if (a == x || a == xr) && y <= b < j {
                        Cell { ch: '|', fg, bg: Color::Reset }
                    } else {
                        mid.cell(a, b)
                    },
            decreases yb + 1 - j,
        {
            self.put(x, j, '|', fg, Color::Reset);
            self.put(xr, j, '|', fg, Color::Reset);
            j = j + 1;
        }
        self.put(x, y, '+', fg, Color::Reset);
        self.put(xr, y, '+', fg, Color::Reset);
        self.put(x, yb, '+', fg, Color::Reset);
        self.put(xr, yb, '+', fg, Color::Reset);
    }
    /// Draws a string starting at column `x` of row `y`, one cell per character;
    /// a full-width character also blanks the cell to its right. Columns are taken
    /// as `x as i64` (see `wrap_column`), characters left of column 0 are skipped,
    /// and drawing stops at the right edge.
    pub fn put_str(&mut self, x: usize, y: usize, s: &str, fg: Color, bg: Color)
        requires
            old(self).wf(),
        ensures
            final(self).wf(),
            final(self).width() == old(self).width(),
            final(self).height() == old(self).height(),
            final(self).prev_frame() == old(self).prev_frame(),
            forall|i: int, j: int|
                0 <= i < old(self).width() && 0 <= j < old(self).height() ==> #[trigger] final(self).cell(i, j) == if j == y {
                    put_str_cell(s@, wrap_column(x), i, old(self).width() as int, fg, bg, old(self).cell(i, j))
                } else {
                    old(self).cell(i, j)
                },
            forall|i: int, j: int|
                0 <= i < old(self).width() && 0 <= j < old(self).height() && i < wrap_column(x) ==> #[trigger] final(self).cell(i, j)
                    == old(self).cell(i, j),
    {
        let ghost old_self = *self;
        let ghost W = self.w as int;
        let n = s.unicode_len();
        let xw = x as u128;
        let mut cx: i128 = if xw <= 0x7fff_ffff_ffff_ffff {
            xw as i128
        } else {
            xw as i128 - 0x1_0000_0000_0000_0000i128
        };
        let mut k: usize = 0;
        let mut done = false;
        proof {
            assert(s@.skip(0) =~= s@);
        }
        while k < n && !done
            invariant
                self.wf(),
                self.width() == old_self.width(),
                self.height() == old_self.height(),
                self.prev_frame() == old_self.prev_frame(),
                W == self.w,
                n == s@.len(),
                k <= n,
                cx >= wrap_column(x),
                done ==> cx >= W,
                forall|i: int, j: int|
                    #![trigger self.cell(i, j)]
                    0 <= i < W && 0 <= j < self.height() ==> if j == y {
                        put_str_cell(s@, wrap_column(x), i, W, fg, bg, old_self.cell(i, j))
                            == put_str_cell(s@.skip(k as int), cx as int, i, W, fg, bg, self.cell(i, j))
                    } else {
                        self.cell(i, j) == old_self.cell(i, j)
                    },
            decreases 2 * (n - k) + if done { 0int } else { 1int },
        {
            if cx >= self.w as i128 {
                done = true;
            } else {
                let ch = s.get_char(k);
                let cw = char_width(ch);
                let ghost t = s@.skip(k as int);
                proof {
                    assert(t.drop_first() =~= s@.skip(k + 1));
                    assert(t[0] == ch);
                }
                if cx >= 0 {
                    let cxu = cx as usize;
                    let ghost before = *self;
                    self.put(cxu, y, ch, fg, bg);
                    if cw == 2 && cxu + 1 < self.w {
                        self.put(cxu + 1, y, ' ', fg, bg);
                    }
                    proof {
                        assert forall|i: int, j: int|
                            0 <= i < W && 0 <= j < self.height() && j == y implies #[trigger] put_str_cell(t, cx as int, i, W, fg, bg, before.cell(i, j))
                                == put_str_cell(s@.skip(k + 1), cx + cw, i, W, fg, bg, self.cell(i, j)) by {
                            if i == cx || (cw == 2 && i == cx + 1) {
                                lemma_put_str_cell_left(s@.skip(k + 1), cx + cw, i, W, fg, bg, self.cell(i, j));
                            }
                        }
                    }
                }
                cx = cx + cw as i128;
                k = k + 1;
            }
        }
        proof {
            assert forall|i: int, j: int|
                0 <= i < W && 0 <= j < self.height() && j == y implies put_str_cell(s@.skip(k as int), cx as int, i, W, fg, bg, #[trigger] self.cell(i, j)) == self.cell(i, j) by {
                if !done {
                    assert(s@.skip(k as int).len() == 0);
                }
            }
            assert forall|i: int, j: int|
                0 <= i < old_self.width() && 0 <= j < old_self.height() && i < wrap_column(x) implies #[trigger] self.cell(i, j)
                    == old_self.cell(i, j) by {
                if j == y {
                    lemma_put_str_cell_left(s@, wrap_column(x), i, W, fg, bg, old_self.cell(i, j));
                }
            }
        }
    }
}

/// The column `x as i64` names: values above `i64::MAX` wrap to negative columns.
pub open spec fn wrap_column(x: usize) -> int {
    if x <= 0x7fff_ffff_ffff_ffff {
        x as int
    } else {
        x - 0x1_0000_0000_0000_0000
    }
}

/// What drawing `s` from column `pos` (on a row `w` wide) leaves in column `i`:
/// the character whose position is `i`, the blank right half of a full-width
/// character at `i - 1`, or else the old cell. Characters at negative positions
/// are skipped and drawing stops at the right edge.
pub open spec fn put_str_cell(s: Seq<char>, pos: int, i: int, w: int, fg: Color, bg: Color, old_cell: Cell) -> Cell
    decreases s.len(),
{
    if s.len() == 0 || pos >= w {
        old_cell
    } else if pos >= 0 && i == pos {
        Cell { ch: s[0], fg, bg }
    } else if pos >= 0 && spec_char_width(s[0]) == 2 && i == pos + 1 && pos + 1 < w {
        Cell { ch: ' ', fg, bg }
    } else {
        put_str_cell(s.drop_first(), pos + spec_char_width(s[0]), i, w, fg, bg, old_cell)
    }
}

/// The left column (or top row) of a box `bw` wide centered on a canvas
/// `w` wide: 0 when it does not fit.
pub open spec fn box_left(w: int, bw: int) -> int {
    if w >= bw {
        (w - bw) / 2
    } else {
        0
    }
}

/// The width of a string is that of its first character plus the rest's.
pub proof fn lemma_str_width_first(s: Seq<char>)
    requires
        s.len() > 0,
    ensures
        spec_str_width(s) == spec_char_width(s[0]) + spec_str_width(s.drop_first()),
    decreases s.len(),
{
    if s.len() > 1 {
        lemma_str_width_first(s.drop_last());
        assert(s.drop_last().drop_first() =~= s.drop_first().drop_last());
        assert(s.drop_last()[0] == s[0]);
        assert(s.drop_first().last() == s.last());
        assert(spec_str_width(s) == spec_str_width(s.drop_last()) + spec_char_width(s.last()));
        assert(spec_str_width(s.drop_first()) == spec_str_width(s.drop_first().drop_last()) + spec_char_width(
            s.drop_first().last(),
        ));
    } else {
        assert(s.drop_first().len() == 0);
        assert(s.drop_last().len() == 0);
        assert(s.last() == s[0]);
        assert(spec_str_width(s) == spec_str_width(s.drop_last()) + spec_char_width(s.last()));
    }
}

/// A column that the drawn characters cover does not depend on the cell
/// that was there before.
pub proof fn lemma_put_str_cell_covered(s: Seq<char>, pos: int, i: int, w: int, fg: Color, bg: Color, c1: Cell, c2: Cell)
    requires
        0 <= pos <= i < pos + spec_str_width(s),
        i < w,
    ensures
        put_str_cell(s, pos, i, w, fg, bg, c1) == put_str_cell(s, pos, i, w, fg, bg, c2),
    decreases s.len(),
{
    if s.len() == 0 {
        assert(spec_str_width(s) == 0);
    } else {
        lemma_str_width_first(s);
        if i != pos && !(spec_char_width(s[0]) == 2 && i == pos + 1) {
            lemma_put_str_cell_covered(s.drop_first(), pos + spec_char_width(s[0]), i, w, fg, bg, c1, c2);
        }
    }
}

/// A line of text on a panel: its row, its text and its color (on black).
pub type PanelLine = (int, Seq<char>, u8);

/// Every line of `ls` on a row of the canvas shows its text drawn from
/// column `col` over the cells that `base` had there.
pub open spec fn lines_over(c: Canvas, base: Canvas, ls: Seq<PanelLine>, col: int) -> bool {
    forall|k: int, i: int|
        0 <= k < ls.len() && 0 <= i < c.width() && 0 <= ls[k].0 < c.height() ==> #[trigger] c.cell(i, ls[k].0)
            == put_str_cell(ls[k].1, col, i, c.width() as int, Color::AnsiValue(ls[k].2), Color::AnsiValue(0), base.cell(i, ls[k].0))
}

/// Every line of `ls` on a row of the canvas shows its text drawn from
/// column `col` (on black) in the columns the text covers, left of column
/// `right` and of the canvas's right edge.
pub open spec fn lines_shown(c: Canvas, ls: Seq<PanelLine>, col: int, right: int) -> bool {
    forall|k: int, i: int|
        0 <= k < ls.len() && 0 <= ls[k].0 < c.height() && col <= i < col + spec_str_width(ls[k].1) && i < right && i < c.width()
            ==> #[trigger] c.cell(i, ls[k].0) == put_str_cell(
            ls[k].1,
            col,
            i,
            c.width() as int,
            Color::AnsiValue(ls[k].2),
            Color::AnsiValue(0),
            spec_empty_cell(),
        )
}

/// Lines drawn over any cells show their texts, whatever was there before.
pub proof fn lemma_lines_shown(c: Canvas, base: Canvas, ls: Seq<PanelLine>, col: int, right: int)
    requires
        lines_over(c, base, ls, col),
        0 <= col,
    ensures
        lines_shown(c, ls, col, right),
{
    assert forall|k: int, i: int|
        0 <= k < ls.len() && 0 <= ls[k].0 < c.height() && col <= i < col + spec_str_width(ls[k].1) && i < right && i < c.width()
            implies #[trigger] c.cell(i, ls[k].0) == put_str_cell(
            ls[k].1,
            col,
            i,
            c.width() as int,
            Color::AnsiValue(ls[k].2),
            Color::AnsiValue(0),
            spec_empty_cell(),
        ) by {
        lemma_put_str_cell_covered(
            ls[k].1,
            col,
            i,
            c.width() as int,
            Color::AnsiValue(ls[k].2),
            Color::AnsiValue(0),
            base.cell(i, ls[k].0),
            spec_empty_cell(),
        );
    }
}

/// `c` is `base` with the lines `ls`, all on rows above `top`, drawn from
/// column `col`; from row `top` down nothing has changed.
pub open spec fn drawn_from(c: Canvas, base: Canvas, ls: Seq<PanelLine>, col: int, top: int) -> bool {
    &&& c.width() == base.width()
    &&& c.height() == base.height()
    &&& forall|k: int| 0 <= k < ls.len() ==> 0 <= (#[trigger] ls[k]).0 < top
    &&& lines_over(c, base, ls, col)
    &&& forall|i: int, j: int| 0 <= i < c.width() && top <= j < c.height() ==> #[trigger] c.cell(i, j) == base.cell(i, j)
}

/// Drawing one more line from column `col` on a row at or below `top`
/// keeps the lines drawn so far and adds the new one.
pub proof fn lemma_draw_line(before: Canvas, after: Canvas, base: Canvas, ls: Seq<PanelLine>, l: PanelLine, col: int, top: int)
    requires
        drawn_from(before, base, ls, col, top),
        0 <= top <= l.0,
        after.width() == before.width(),
        after.height() == before.height(),
        forall|i: int, j: int|
            0 <= i < before.width() && 0 <= j < before.height() ==> #[trigger] after.cell(i, j) == if j == l.0 {
                put_str_cell(l.1, col, i, before.width() as int, Color::AnsiValue(l.2), Color::AnsiValue(0), before.cell(i, j))
            } else {
                before.cell(i, j)
            },
    ensures
        drawn_from(after, base, ls.push(l), col, l.0 + 1),
{
    let ls2 = ls.push(l);
    assert forall|k: int| 0 <= k < ls2.len() implies 0 <= (#[trigger] ls2[k]).0 < l.0 + 1 by {
        if k < ls.len() {
            assert(ls2[k] == ls[k]);
        }
    }
    assert forall|k: int, i: int|
        0 <= k < ls2.len() && 0 <= i < after.width() && 0 <= ls2[k].0 < after.height() implies #[trigger] after.cell(i, ls2[k].0)
            == put_str_cell(ls2[k].1, col, i, after.width() as int, Color::AnsiValue(ls2[k].2), Color::AnsiValue(0), base.cell(i, ls2[k].0)) by {
        if k < ls.len() {
            assert(ls2[k] == ls[k]);
            assert(0 <= ls[k].0 < top);
            assert(before.cell(i, ls[k].0) == before.cell(i, ls[k].0));
        } else {
            assert(ls2[k] == l);
            assert(before.cell(i, l.0) == base.cell(i, l.0));
        }
    }
    assert forall|i: int, j: int| 0 <= i < after.width() && l.0 + 1 <= j < after.height() implies #[trigger] after.cell(i, j)
        == base.cell(i, j) by {
        assert(before.cell(i, j) == base.cell(i, j));
    }
}

/// Drawing `s` from `pos` touches only the columns `[pos, pos + width)`.
pub proof fn lemma_put_str_cell_outside(s: Seq<char>, pos: int, i: int, w: int, fg: Color, bg: Color, c: Cell)
    requires
        i < pos || i >= pos + spec_str_width(s),
    ensures
        put_str_cell(s, pos, i, w, fg, bg, c) == c,
    decreases s.len(),
{
    if i < pos {
        lemma_put_str_cell_left(s, pos, i, w, fg, bg, c);
    } else if s.len() > 0 && pos < w {
        lemma_str_width_first(s);
        lemma_put_str_cell_outside(s.drop_first(), pos + spec_char_width(s[0]), i, w, fg, bg, c);
    }
}

/// Characters drawn from `pos` onwards never touch a column left of `pos`.
pub proof fn lemma_put_str_cell_left(s: Seq<char>, pos: int, i: int, w: int, fg: Color, bg: Color, c: Cell)
    requires
        i < pos,
    ensures
        put_str_cell(s, pos, i, w, fg, bg, c) == c,
    decreases s.len(),
{
    if s.len() > 0 && pos < w {
        lemma_put_str_cell_left(s.drop_first(), pos + spec_char_width(s[0]), i, w, fg, bg, c);
    }
}



/// The smaller of two integers.
pub open spec fn spec_min(a: int, b: int) -> int {
    if a < b {
        a
    } else {
        b
    }
}

/// What `border` leaves in cell `(i, j)` for a frame spanning columns `x..=xr`
/// and rows `y..=yb`: corners, then sides, then top/bottom edges, else the old cell.
pub open spec fn border_cell(
    old_cell: Cell,
    i: int,
    j: int,
    x: int,
    y: int,
    xr: int,
    yb: int,
    fg: Color,
) -> Cell {
    if (i == x || i == xr) && (j == y || j == yb) {
        Cell { ch: '+', fg, bg: Color::Reset }
    } else if (i == x || i == xr) && y <= j <= yb {
        Cell { ch: '|', fg, bg: Color::Reset }
    } else if (j == y || j == yb) && x <= i <= xr {
        Cell { ch: '-', fg, bg: Color::Reset }
    } else {
        old_cell
    }
}

/// ASCII digits of `n` in decimal.
pub open spec fn spec_decimal(n: nat) -> Seq<u8>
    decreases n,
{
    if n < 10 {
        seq![(48 + n) as u8]
    } else {
        spec_decimal(n / 10) + seq![(48 + n % 10) as u8]
    }
}

/// Appends the decimal digits of `n`.
pub fn push_decimal(out: &mut Vec<u8>, n: usize)
    ensures
        final(out)@ == old(out)@ + spec_decimal(n as nat),
    decreases n,
{
    if n >= 10 {
        push_decimal(out, n / 10);
    }
    out.push((48 + n % 10) as u8);
    proof {
        if n < 10 {
            assert(n % 10 == n);
        }
    }
}

/// Appends the UTF-8 encoding of one character.
pub fn push_utf8(out: &mut Vec<u8>, c: char)
    ensures
        final(out)@ == old(out)@ + encode_scalar(c as u32),
{
    let v = c as u32;
    if v <= 0x7F {
        out.push((v & 0x7F) as u8);
    } else if v <= 0x7FF {
        out.push(0xC0 | ((v >> 6) & 0x1F) as u8);
        out.push(0x80 | (v & 0x3F) as u8);
    } else if v <= 0xFFFF {
        out.push(0xE0 | ((v >> 12) & 0x0F) as u8);
        out.push(0x80 | ((v >> 6) & 0x3F) as u8);
        out.push(0x80 | (v & 0x3F) as u8);
    } else {
        out.push(0xF0 | ((v >> 18) & 0x7) as u8);
        out.push(0x80 | ((v >> 12) & 0x3F) as u8);
        out.push(0x80 | ((v >> 6) & 0x3F) as u8);
        out.push(0x80 | (v & 0x3F) as u8);
    }
    proof {
        char_is_scalar(c);
    }
}

/// Appends `\x1b[{lead}8;5;{n}m`, where `lead` is the ASCII digit `3`
/// (foreground) or `4` (background).
fn push_color_escape(out: &mut Vec<u8>, lead: u8, n: u8)
    ensures
        final(out)@ == old(out)@ + seq![27u8, 91, lead, 56, 59, 53, 59] + spec_decimal(n as nat)
            + seq![109u8],
{
    let ghost before = out@;
    out.push(27);
    out.push(91);
    out.push(lead);
    out.push(56);
    out.push(59);
    out.push(53);
    out.push(59);
    let ghost mid = out@;
    push_decimal(out, n as usize);
    out.push(109);
    proof {
        assert(mid =~= before + seq![27u8, 91, lead, 56, 59, 53, 59]);
        assert(out@ =~= before + seq![27u8, 91, lead, 56, 59, 53, 59] + spec_decimal(n as nat)
            + seq![109u8]);
    }
}

/// Appends the color escapes that `color_switch` calls for and returns the new state.
fn push_color_switch(out: &mut Vec<u8>, st: ColorState, fg8: u8, bg8: u8) -> (st2: ColorState)
    ensures
        final(out)@ == old(out)@ + color_switch(st, fg8, bg8).0,
        st2 == color_switch(st, fg8, bg8).1,
{
    let ghost before = out@;
    let need_fg = match st.0 {
        Some(v) => v != fg8,
        None => true,
    };
    if need_fg {
        push_color_escape(out, 51, fg8);
    }
    let ghost mid = out@;
    let need_bg = match st.1 {
        Some(v) => v != bg8,
        None => true,
    };
    if need_bg {
        push_color_escape(out, 52, bg8);
    }
    proof {
        let f = if st.0 == Some(fg8) {
            Seq::<u8>::empty()
        } else {
            fg_escape(fg8)
        };
        let b = if st.1 == Some(bg8) {
            Seq::<u8>::empty()
        } else {
            bg_escape(bg8)
        };
        assert(mid =~= before + f);
        assert(out@ =~= mid + b);
        assert(out@ =~= before + (f + b));
    }
    (Some(fg8), Some(bg8))
}

/// Bytes of `\x1b[38;5;{n}m` (set the 256-color foreground).
pub open spec fn fg_escape(n: u8) -> Seq<u8> {
    seq![27u8, 91, 51, 56, 59, 53, 59] + spec_decimal(n as nat) + seq![109u8]
}

/// Bytes of `\x1b[48;5;{n}m` (set the 256-color background).
pub open spec fn bg_escape(n: u8) -> Seq<u8> {
    seq![27u8, 91, 52, 56, 59, 53, 59] + spec_decimal(n as nat) + seq![109u8]
}

/// Bytes of `\x1b[{row};{col}H` (move the cursor, 1-based).
pub open spec fn goto_escape(row: nat, col: nat) -> Seq<u8> {
    seq![27u8, 91] + spec_decimal(row) + seq![59u8] + spec_decimal(col) + seq![72u8]
}

/// Bytes of `\x1b[39m\x1b[49m` (restore the default colors).
pub open spec fn reset_escape() -> Seq<u8> {
    seq![27u8, 91, 51, 57, 109, 27, 91, 52, 57, 109]
}

/// The last foreground / background indexes sent to the terminal.
pub type ColorState = (Option<u8>, Option<u8>);

/// First column at or after `k` whose colors differ from `(fg, bg)`, or the row's end.
pub open spec fn run_end(row: Seq<Cell>, k: int, fg: Color, bg: Color) -> int
    decreases row.len() - k,
{
    if k >= row.len() || row[k].fg != fg || row[k].bg != bg {
        k
    } else {
        run_end(row, k + 1, fg, bg)
    }
}

pub proof fn lemma_glyph_step(c: char)
    ensures
        1 <= glyph_step(c) <= 2,
{
}

pub proof fn lemma_run_end_bounds(row: Seq<Cell>, k: int, fg: Color, bg: Color)
    ensures
        run_end(row, k, fg, bg) >= k,
        k <= row.len() ==> run_end(row, k, fg, bg) <= row.len(),
    decreases row.len() - k,
{
    if !(k >= row.len() || row[k].fg != fg || row[k].bg != bg) {
        lemma_run_end_bounds(row, k + 1, fg, bg);
    }
}

/// UTF-8 text of the glyphs of `row` from column `xi` up to `x2`, skipping the
/// right halves of full-width glyphs.
pub open spec fn run_text(row: Seq<Cell>, xi: int, x2: int) -> Seq<u8>
    decreases x2 + 1 - xi,
{
    if xi >= x2 || xi < 0 || xi >= row.len() {
        Seq::empty()
    } else {
        proof {
            lemma_glyph_step(row[xi].ch);
        }
        encode_scalar(row[xi].ch as u32) + run_text(row, xi + glyph_step(row[xi].ch), x2)
    }
}

/// The XTerm256 index of a color as a byte.
pub open spec fn ansi_index(c: Color) -> u8 {
    spec_color_to_ansi(c) as u8
}

/// Color escapes needed before a run in colors `(fg8, bg8)`, and the new color state.
pub open spec fn color_switch(st: ColorState, fg8: u8, bg8: u8) -> (Seq<u8>, ColorState) {
    let f = if st.0 == Some(fg8) {
        Seq::<u8>::empty()
    } else {
        fg_escape(fg8)
    };
    let b = if st.1 == Some(bg8) {
        Seq::<u8>::empty()
    } else {
        bg_escape(bg8)
    };
    (f + b, (Some(fg8), Some(bg8)))
}

/// Diff output for row `y` from column `x` on: unchanged glyphs are skipped; a
/// changed cell starts a run of same-colored cells that is written after the
/// needed color escapes and a cursor move.
pub open spec fn scan_row(cur: Seq<Cell>, prev: Seq<Cell>, y: nat, x: int, st: ColorState) -> (Seq<u8>, ColorState)
    decreases cur.len() + 1 - x,
{
    if x < 0 || x >= cur.len() || x >= prev.len() {
        (Seq::empty(), st)
    } else if cur[x] == prev[x] {
        proof {
            lemma_glyph_step(cur[x].ch);
        }
        scan_row(cur, prev, y, x + glyph_step(cur[x].ch), st)
    } else {
        let c = cur[x];
        let x2 = run_end(cur, x + 1, c.fg, c.bg);
        let sw = color_switch(st, ansi_index(c.fg), ansi_index(c.bg));
        let here = sw.0 + goto_escape(y + 1, (x + 1) as nat) + run_text(cur, x, x2);
        proof {
            lemma_run_end_bounds(cur, x + 1, c.fg, c.bg);
        }
        let rest = scan_row(cur, prev, y, x2, sw.1);
        (here + rest.0, rest.1)
    }
}

/// Row `y` of a row-major grid `w` wide.
pub open spec fn grid_row(g: Seq<Cell>, w: nat, y: nat) -> Seq<Cell> {
    g.subrange((y * w) as int, (y * w + w) as int)
}

/// Diff output for rows `y..h`.
pub open spec fn scan_rows(cur: Seq<Cell>, prev: Seq<Cell>, w: nat, h: nat, y: nat, st: ColorState) -> (Seq<u8>, ColorState)
    decreases h - y,
{
    if y >= h {
        (Seq::empty(), st)
    } else {
        let r = scan_row(grid_row(cur, w, y), grid_row(prev, w, y), y, 0, st);
        let rest = scan_rows(cur, prev, w, h, y + 1, r.1);
        (r.0 + rest.0, rest.1)
    }
}

/// Everything a flush sends for frame `cur` over the previously shown frame
/// `prev`: the changed runs, then a color reset if any color was set.
pub open spec fn render_diff(cur: Seq<Cell>, prev: Seq<Cell>, w: nat, h: nat) -> Seq<u8> {
    let r = scan_rows(cur, prev, w, h, 0, (None, None));
    r.0 + if r.1.0 is Some || r.1.1 is Some {
        reset_escape()
    } else {
        Seq::empty()
    }
}

impl Canvas {
    /// Appends the glyphs of columns `x..x2` of the row starting at `base`.
    fn push_run_text(&self, out: &mut Vec<u8>, base: usize, x: usize, x2: usize, Ghost(cr): Ghost<Seq<Cell>>)
        requires
            self.wf(),
            base + self.width() <= self.frame().len(),
            cr == self.frame().subrange(base as int, base + self.width()),
            x <= x2 <= self.width(),
        ensures
            final(out)@ == old(out)@ + run_text(cr, x as int, x2 as int),
    {
        let ghost start = out@;
        let mut xi = x;
        while xi < x2
            invariant
                self.wf(),
                base + self.width() <= self.frame().len(),
                cr == self.frame().subrange(base as int, base + self.width()),
                x <= xi <= x2,
                x2 <= self.width(),
                out@.len() >= start.len(),
                out@.subrange(0, start.len() as int) == start,
                run_text(cr, x as int, x2 as int) == out@.skip(start.len() as int)
                    + run_text(cr, xi as int, x2 as int),
            decreases x2 - xi,
        {
            let ghost before_ch = out@;
            let g = self.cur[base + xi];
            assert(cr[xi as int] == g);
            push_utf8(out, g.ch);
            let next = if char_width(g.ch) == 2 && xi + 1 < x2 {
                xi + 2
            } else {
                xi + 1
            };
            proof {
                assert(run_text(cr, xi as int, x2 as int) == encode_scalar(g.ch as u32) + run_text(
                    cr,
                    xi + glyph_step(g.ch),
                    x2 as int,
                ));
                if next != xi + glyph_step(g.ch) {
                    assert(run_text(cr, xi + glyph_step(g.ch), x2 as int) == run_text(cr, next as int, x2 as int));
                }
                assert(out@.skip(start.len() as int) =~= before_ch.skip(start.len() as int)
                    + encode_scalar(g.ch as u32));
                assert(out@.subrange(0, start.len() as int) =~= before_ch.subrange(0, start.len() as int));
            }
            xi = next;
        }
        proof {
            assert(run_text(cr, xi as int, x2 as int) =~= Seq::<u8>::empty());
            assert(out@ =~= start + out@.skip(start.len() as int));
        }
    }

    /// Writes one run of same-colored cells starting at the changed cell `(x, y)`:
    /// the color escapes the state needs, a cursor move, then the glyphs.
    /// Returns the column after the run and the new color state.
    fn emit_run(&self, out: &mut Vec<u8>, y: usize, x: usize, st: ColorState) -> (res: (usize, ColorState))
        requires
            self.wf(),
            y < self.height(),
            x < self.width(),
        ensures
            ({
                let cr = grid_row(self.frame(), self.width(), y as nat);
                let c = cr[x as int];
                let x2 = run_end(cr, x + 1, c.fg, c.bg);
                let sw = color_switch(st, ansi_index(c.fg), ansi_index(c.bg));
                &&& res.0 == x2
                &&& res.1 == sw.1
                &&& final(out)@ == old(out)@ + sw.0 + goto_escape((y + 1) as nat, (x + 1) as nat)
                    + run_text(cr, x as int, x2)
            }),
    {
        let ghost cur = self.cur@;
        let ghost wn = self.w as nat;
        let w = self.w;
        let ghost cr = grid_row(cur, wn, y as nat);
        proof {
            lemma_cell_index((w - 1) as int, y as int, w as int, self.h as int);
        }
        let base = y * w;
        let c = self.cur[base + x];
        assert(cr[x as int] == c);
        let mut x2 = x + 1;
        while x2 < w && self.cur[base + x2].fg == c.fg && self.cur[base + x2].bg == c.bg
            invariant
                self.wf(),
                self.cur@ == cur,
                self.w == w,
                cr == grid_row(cur, wn, y as nat),
                wn == w,
                base == y * w,
                base + w <= cur.len(),
                cur.len() <= usize::MAX,
                x < x2 <= w,
                run_end(cr, x + 1, c.fg, c.bg) == run_end(cr, x2 as int, c.fg, c.bg),
            decreases w - x2,
        {
            x2 = x2 + 1;
        }
        proof {
            lemma_run_end_bounds(cr, x + 1, c.fg, c.bg);
        }
        let fg8 = color_to_ansi(c.fg);
        let bg8 = color_to_ansi(c.bg);
        let st2 = push_color_switch(out, st, fg8, bg8);
        out.push(27);
        out.push(91);
        push_decimal(out, y + 1);
        out.push(59);
        push_decimal(out, x + 1);
        out.push(72);
        self.push_run_text(out, base, x, x2, Ghost(cr));
        (x2, st2)
    }

    /// Diff flush: appends to `out` the escape sequences and text that turn the
    /// previously flushed frame into the current one (only changed runs, see
    /// `render_diff`), then remembers the current frame as flushed.
    pub fn flush(&mut self, out: &mut Vec<u8>)
        requires
            old(self).wf(),
        ensures
            final(self).wf(),
            final(self).width() == old(self).width(),
            final(self).height() == old(self).height(),
            final(self).frame() == old(self).frame(),
            final(self).prev_frame() == old(self).frame(),
            final(out)@ == old(out)@ + render_diff(
                old(self).frame(),
                old(self).prev_frame(),
                old(self).width(),
                old(self).height(),
            ),
    {
        let ghost out0 = out@;
        let ghost cur = self.cur@;
        let ghost prev = self.prev@;
        let w = self.w;
        let h = self.h;
        let ghost wn = w as nat;
        let ghost hn = h as nat;
        let mut st: ColorState = (None, None);
        let mut y: usize = 0;
        proof {
            assert(out@.skip(out0.len() as int) =~= Seq::<u8>::empty());
        }
        while y < h
            invariant
                self.wf(),
                self.w == w,
                self.h == h,
                self.cur@ == cur,
                self.prev@ == prev,
                wn == w,
                hn == h,
                y <= h,
                out@.len() >= out0.len(),
                out@.subrange(0, out0.len() as int) == out0,
                scan_rows(cur, prev, wn, hn, 0, (None, None)).0 == out@.skip(out0.len() as int)
                    + scan_rows(cur, prev, wn, hn, y as nat, st).0,
                scan_rows(cur, prev, wn, hn, 0, (None, None)).1 == scan_rows(cur, prev, wn, hn, y as nat, st).1,
            decreases h - y,
        {
            let ghost row_start = out@;
            let ghost cr = grid_row(cur, wn, y as nat);
            let ghost pr = grid_row(prev, wn, y as nat);
            let ghost st0 = st;
            proof {
                lemma_cell_index((w - 1) as int, y as int, w as int, h as int);
            }
            let base = y * w;
            let mut x: usize = 0;
            proof {
                assert(out@.skip(row_start.len() as int) =~= Seq::<u8>::empty());
            }
            while x < w
                invariant
                    self.wf(),
                    self.w == w,
                    self.h == h,
                    self.cur@ == cur,
                    self.prev@ == prev,
                    wn == w,
                    y < h,
                    base == y * w,
                    base + w <= w * h,
                    cr == grid_row(cur, wn, y as nat),
                    pr == grid_row(prev, wn, y as nat),
                    x <= w,
                    out@.len() >= row_start.len(),
                    out@.subrange(0, row_start.len() as int) == row_start,
                    scan_row(cr, pr, y as nat, 0, st0).0 == out@.skip(row_start.len() as int)
                        + scan_row(cr, pr, y as nat, x as int, st).0,
                    scan_row(cr, pr, y as nat, 0, st0).1 == scan_row(cr, pr, y as nat, x as int, st).1,
                decreases w - x,
            {
                let ghost before = out@;
                let ghost st_before = st;
                let c = self.cur[base + x];
                assert(cr[x as int] == c);
                if c == self.prev[base + x] {
                    assert(pr[x as int] == c);
                    x = if char_width(c.ch) == 2 && x + 1 < w {
                        x + 2
                    } else {
                        x + 1
                    };
                    proof {
                        if x == w {
                            assert(scan_row(cr, pr, y as nat, (w + 1) as int, st) == scan_row(cr, pr, y as nat, w as int, st));
                        }
                    }
                } else {
                    assert(pr[x as int] != c);
                    let r = self.emit_run(out, y, x, st);
                    proof {
                        lemma_run_end_bounds(cr, x + 1, c.fg, c.bg);
                        assert(out@.skip(row_start.len() as int) =~= before.skip(row_start.len() as int)
                            + (out@.skip(before.len() as int)));
                        assert(out@.subrange(0, row_start.len() as int) =~= before.subrange(0, row_start.len() as int));
                    }
                    x = r.0;
                    st = r.1;
                }
            }
            proof {
                assert(scan_row(cr, pr, y as nat, x as int, st).0 =~= Seq::<u8>::empty());
                assert(out@.skip(out0.len() as int) =~= row_start.skip(out0.len() as int) + out@.skip(
                    row_start.len() as int,
                ));
                assert(out@.subrange(0, out0.len() as int) =~= row_start.subrange(0, out0.len() as int));
            }
            y = y + 1;
        }
        proof {
            assert(scan_rows(cur, prev, wn, hn, y as nat, st).0 =~= Seq::<u8>::empty());
            assert(out@.skip(out0.len() as int) =~= scan_rows(cur, prev, wn, hn, 0, (None, None)).0);
        }
        let ghost body = out@;
        if st.0.is_some() || st.1.is_some() {
            out.push(27);
            out.push(91);
            out.push(51);
            out.push(57);
            out.push(109);
            out.push(27);
            out.push(91);
            out.push(52);
            out.push(57);
            out.push(109);
            proof {
                assert(out@ =~= body + reset_escape());
            }
        }
        proof {
            assert(body =~= out0 + body.skip(out0.len() as int));
            assert(out@ =~= out0 + render_diff(cur, prev, wn, hn));
        }
        self.prev = self.cur.clone();
        proof {
            assert(self.prev@ =~= cur);
        }
    }
}

proof fn lemma_scan_row_unchanged(row: Seq<Cell>, y: nat, x: int, st: ColorState)
    ensures
        scan_row(row, row, y, x, st) == (Seq::<u8>::empty(), st),
    decreases row.len() + 1 - x,
{
    if !(x < 0 || x >= row.len()) {
        lemma_glyph_step(row[x].ch);
        lemma_scan_row_unchanged(row, y, x + glyph_step(row[x].ch), st);
    }
}

proof fn lemma_scan_rows_unchanged(g: Seq<Cell>, w: nat, h: nat, y: nat, st: ColorState)
    ensures
        scan_rows(g, g, w, h, y, st) == (Seq::<u8>::empty(), st),
    decreases h - y,
{
    if y < h {
        lemma_scan_row_unchanged(grid_row(g, w, y), y, 0, st);
        lemma_scan_rows_unchanged(g, w, h, y + 1, st);
        assert(Seq::<u8>::empty() + Seq::<u8>::empty() =~= Seq::<u8>::empty());
    }
}

/// A flush sends nothing when the frame equals the last flushed one; since a
/// flush records the frame it sent, flushing twice without drawing in between
/// sends nothing the second time.
pub proof fn flush_of_unchanged_frame_is_empty(c: Canvas)
    requires
        c.wf(),
        c.frame() == c.prev_frame(),
    ensures
        render_diff(c.frame(), c.prev_frame(), c.width(), c.height()) == Seq::<u8>::empty(),
{
    lemma_scan_rows_unchanged(c.frame(), c.width(), c.height(), 0, (None, None));
    assert(Seq::<u8>::empty() + Seq::<u8>::empty() =~= Seq::<u8>::empty());
}


/// `new` is `old` drawn on: still well-formed, the same size, the last
/// flushed frame untouched.
pub open spec fn drawn_on(new: Canvas, old: Canvas) -> bool {
    &&& new.wf()
    &&& new.width() == old.width()
    &&& new.height() == old.height()
    &&& new.prev_frame() == old.prev_frame()
}


/// ASCII characters drawn from `pos` never touch a column at or right of
/// `pos + s.len()`.
pub proof fn lemma_put_str_cell_right_ascii(s: Seq<char>, pos: int, i: int, w: int, fg: Color, bg: Color, c: Cell)
    requires
        forall|k: int| 0 <= k < s.len() ==> (#[trigger] s[k] as u32) < 128,
        i >= pos + s.len(),
    ensures
        put_str_cell(s, pos, i, w, fg, bg, c) == c,
    decreases s.len(),
{
    if s.len() > 0 && pos < w {
        assert(s[0] as u32 == s[0] as u32);
        assert forall|k: int| 0 <= k < s.drop_first().len() implies (#[trigger] s.drop_first()[k] as u32) < 128 by {
            assert(s.drop_first()[k] == s[k + 1]);
        }
        lemma_put_str_cell_right_ascii(s.drop_first(), pos + spec_char_width(s[0]), i, w, fg, bg, c);
    }
}


/// A column in the lower half of `usize` is taken as it is.
pub proof fn lemma_wrap_column_small(x: usize)
    requires
        x <= usize::MAX / 2,
    ensures
        wrap_column(x) == x as int,
{
    assert(usize::MAX <= 0xffff_ffff_ffff_ffff);
}

} // verus!
