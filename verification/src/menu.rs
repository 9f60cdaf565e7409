//! The main menu: five games, then changing the user, then quitting.

use vstd::prelude::*;
use crate::games::{GameId, game_at};
use crate::input::Action;
use crate::lang::{Lang, Ui, filled, fmt, text_of, texts, ui};
use crate::canvas::{Canvas, Cell, Color, drawn_on, lemma_put_str_cell_covered, lemma_wrap_column_small, put_str_cell, spec_empty_cell, spec_str_width, str_width, wrap_column};
use crate::flow::{blank_cell, center_col, row_shows};
use crate::col;
use crate::score::{ScoreFile, StatsView};
use crate::text::{dec_chars, dec_string};

verus! {

/// What the player picked in the main menu.
#[derive(Clone, Copy, PartialEq, Eq, Debug, Structural)]
pub enum MenuChoice {
    Play(GameId),
    ChangeUser,
    Quit,
}

/// Menu entries: the five games, changing the user, quitting.
pub const ITEM_COUNT: usize = 7;

/// The choice behind menu entry `sel`.
pub open spec fn spec_choose(sel: usize) -> MenuChoice {
    if sel <= 4 {
        MenuChoice::Play(game_at(sel as int))
    } else if sel == 5 {
        MenuChoice::ChangeUser
    } else {
        MenuChoice::Quit
    }
}

/// The choice behind menu entry `sel`: a game for 0 to 4, changing the user
/// for 5, quitting otherwise.
pub fn choice_at(sel: usize) -> (c: MenuChoice)
    ensures
        c == spec_choose(sel),
        sel == 0 ==> c == MenuChoice::Play(GameId::Snake),
        sel == 1 ==> c == MenuChoice::Play(GameId::Breakout),
        sel == 2 ==> c == MenuChoice::Play(GameId::Tetris),
        sel == 3 ==> c == MenuChoice::Play(GameId::Plane),
        sel == 4 ==> c == MenuChoice::Play(GameId::Gomoku),
        sel == 5 ==> c == MenuChoice::ChangeUser,
        sel >= 6 ==> c == MenuChoice::Quit,
{
    if sel <= 4 {
        let all = GameId::all();
        MenuChoice::Play(all[sel])
    } else if sel == 5 {
        MenuChoice::ChangeUser
    } else {
        MenuChoice::Quit
    }
}

/// What one key does in the menu: move the selection, or finish with a choice.
#[derive(Clone, Copy, PartialEq, Eq, Debug, Structural)]
pub enum MenuStep {
    Select(usize),
    Done(MenuChoice),
}

/// One key in the menu with entry `sel` selected: Up moves up (stopping at
/// the top), Down moves down (wrapping to the top), Enter or Space picks the
/// entry, ESC/Q quits; anything else (or no key) keeps the selection.
pub fn menu_step(sel: usize, a: Option<Action>) -> (s: MenuStep)
    requires
        sel < 7,
    ensures
        s == match a {
            Some(Action::Up) => MenuStep::Select(if sel > 0 { (sel - 1) as usize } else { 0 }),
            Some(Action::Down) => MenuStep::Select(((sel + 1) % 7) as usize),
            Some(Action::Confirm) | Some(Action::Space) => MenuStep::Done(spec_choose(sel)),
            Some(Action::Cancel) => MenuStep::Done(MenuChoice::Quit),
            _ => MenuStep::Select(sel),
        },
{
    match a {
        Some(Action::Up) => MenuStep::Select(
            if sel > 0 {
                sel - 1
            } else {
                0
            },
        ),
        Some(Action::Down) => MenuStep::Select((sel + 1) % ITEM_COUNT),
        Some(Action::Confirm) | Some(Action::Space) => MenuStep::Done(choice_at(sel)),
        Some(Action::Cancel) => MenuStep::Done(MenuChoice::Quit),
        _ => MenuStep::Select(sel),
    }
}

/// The index of the user with the most Gomoku wins among the first `n` of
/// the table (the first such user on a tie), if any.
pub open spec fn best_gomoku(g: Seq<(Seq<char>, StatsView)>, n: int) -> Option<int>
    decreases n,
{
    if n <= 0 {
        None
    } else {
        match best_gomoku(g, n - 1) {
            Some(b) => if g[n - 1].1.0 > g[b].1.0 {
                Some(n - 1)
            } else {
                Some(b)
            },
            None => Some(n - 1),
        }
    }
}

/// The text beside a game in the menu. For Gomoku: the user with the most
/// wins and their record, or the no-stats text. For the others: the best
/// score and its user, or the no-record text.
pub open spec fn item_text(id: GameId, scores: ScoreFile, t: Ui) -> Seq<char> {
    if id == GameId::Gomoku {
        let g = scores.table();
        match best_gomoku(g, g.len() as int) {
            Some(i) => filled(
                t.record_fmt@,
                seq![dec_chars(g[i].1.0 as nat), dec_chars(g[i].1.1 as nat), g[i].0],
                0,
            ),
            None => t.no_stats@,
        }
    } else {
        let b = scores.board(id.spec_score_key());
        if b.len() > 0 {
            filled(t.best_fmt@, seq![dec_chars(b[0].1 as nat), b[0].0], 0)
        } else {
            t.no_record@
        }
    }
}

/// The text beside game `id` in the menu (see `item_text`).
pub fn item_line(id: GameId, scores: &ScoreFile, t: &Ui) -> (r: String)
    ensures
        r@ == item_text(id, *scores, *t),
{
    match id {
        GameId::Gomoku => {
            let ghost g = scores.table();
            let mut best: Option<usize> = None;
            let mut i: usize = 0;
            while i < scores.gomoku.len()
                invariant
                    g == scores.table(),
                    g.len() == scores.gomoku@.len(),
                    i <= g.len(),
                    best == (match best_gomoku(g, i as int) {
                        Some(b) => Some(b as usize),
                        None => None::<usize>,
                    }),
                    forall|b: int| best_gomoku(g, i as int) == Some(b) ==> 0 <= b < i,
                decreases g.len() - i,
            {
                assert(g[i as int].1.0 == scores.gomoku@[i as int].1.wins);
                let better = match best {
                    Some(b) => {
                        assert(g[b as int].1.0 == scores.gomoku@[b as int].1.wins);
                        scores.gomoku[i].1.wins > scores.gomoku[b].1.wins
                    },
                    None => true,
                };
                if better {
                    best = Some(i);
                }
                i = i + 1;
            }
            match best {
                Some(b) => {
                    let e = &scores.gomoku[b];
                    assert(g[b as int] == (e.0@, e.1@));
                    let args = vec![dec_string(e.1.wins as u64), dec_string(e.1.losses as u64), e.0.clone()];
                    proof {
                        assert(crate::lang::texts(args@) =~= seq![
                            dec_chars(g[b as int].1.0 as nat),
                            dec_chars(g[b as int].1.1 as nat),
                            g[b as int].0,
                        ]);
                    }
                    fmt(t.record_fmt, args.as_slice())
                },
                None => String::from_str(t.no_stats),
            }
        },
        _ => {
            let b = scores.get_vec(id.score_key());
            if b.len() > 0 {
                let e = &b[0];
                let args = vec![dec_string(e.score as u64), e.user.clone()];
                proof {
                    assert(crate::lang::texts(args@) =~= seq![dec_chars(e.score as nat), e.user@]);
                }
                fmt(t.best_fmt, args.as_slice())
            } else {
                String::from_str(t.no_record)
            }
        },
    }
}


/// The name's text of a game in the language of `t`.
pub open spec fn game_name_text(id: GameId, t: Ui) -> Seq<char> {
    match id {
        GameId::Snake => t.game_snake@,
        GameId::Breakout => t.game_breakout@,
        GameId::Tetris => t.game_tetris@,
        GameId::Plane => t.game_plane@,
        GameId::Gomoku => t.game_gomoku@,
    }
}

/// The name of a game in the language of `t`.
pub fn game_name(id: GameId, t: &Ui) -> (r: &'static str)
    ensures
        r == match id {
            GameId::Snake => t.game_snake,
            GameId::Breakout => t.game_breakout,
            GameId::Tetris => t.game_tetris,
            GameId::Plane => t.game_plane,
            GameId::Gomoku => t.game_gomoku,
        },
{
    match id {
        GameId::Snake => t.game_snake,
        GameId::Breakout => t.game_breakout,
        GameId::Tetris => t.game_tetris,
        GameId::Plane => t.game_plane,
        GameId::Gomoku => t.game_gomoku,
    }
}

/// The row of menu entry `sel`: games on every other row from row 4, then
/// changing the user and quitting.
pub open spec fn entry_row(sel: int) -> int {
    if sel < 5 {
        4 + 2 * sel
    } else {
        14 + (sel - 5)
    }
}

/// The marker in front of the selected entry.
pub open spec fn marker_cell() -> Cell {
    Cell { ch: '▶', fg: Color::AnsiValue(col::YELLOW), bg: Color::AnsiValue(col::DARK_BLUE) }
}

/// The number in front of menu entry `k`: `k + 1` and a dot.
pub open spec fn entry_number(k: int) -> Seq<char> {
    dec_chars((k + 1) as nat) + seq!['.']
}

/// The width of game entry `k`'s line: its number, a space, the game's
/// name, two spaces, the text beside it, and four columns of margin.
pub open spec fn game_line_width(k: int, scores: ScoreFile, t: Ui) -> int {
    (spec_str_width(entry_number(k)) + 1 + spec_str_width(game_name_text(game_at(k), t)) + 2 + spec_str_width(
        item_text(game_at(k), scores, t),
    ) + 4) as int
}

/// The left column of a line `lw` wide centred on column `cx`, or column 0
/// when that would lie left of the canvas.
pub open spec fn line_left(cx: int, lw: int) -> int {
    if cx >= lw / 2 {
        cx - lw / 2
    } else {
        0
    }
}

/// The background of a menu entry: dark blue while selected.
pub open spec fn entry_bg(selected: bool) -> Color {
    if selected {
        Color::AnsiValue(col::DARK_BLUE)
    } else {
        Color::AnsiValue(col::BLACK)
    }
}

/// Row `row` of `c` shows `s` drawn from column `pos` in `fg` on `bg`: each
/// column that `s` covers (up to the right edge) holds what drawing `s` puts
/// there.
pub open spec fn text_from(c: Canvas, row: int, s: Seq<char>, pos: int, fg: u8, bg: Color) -> bool {
    forall|i: int|
        pos <= i < pos + spec_str_width(s) && i < c.width() ==> #[trigger] c.cell(i, row) == put_str_cell(
            s,
            pos,
            i,
            c.width() as int,
            Color::AnsiValue(fg),
            bg,
            spec_empty_cell(),
        )
}

/// Row `row` shows game entry `k` centred on column `cx`: its number, the
/// game's name one column after it and the text beside it two columns
/// further, highlighted while `selected`.
pub open spec fn game_entry_shown(c: Canvas, row: int, k: int, selected: bool, scores: ScoreFile, t: Ui, cx: int) -> bool {
    let num = entry_number(k);
    let name = game_name_text(game_at(k), t);
    let x = line_left(cx, game_line_width(k, scores, t));
    let bg = entry_bg(selected);
    let nx = x + 2 + spec_str_width(num) + 1;
    &&& text_from(c, row, num, x + 2, if selected { col::YELLOW } else { col::GRAY }, bg)
    &&& text_from(c, row, name, nx, if selected { col::WHITE } else { col::GREEN }, bg)
    &&& text_from(c, row, item_text(game_at(k), scores, t), nx + spec_str_width(name) + 2, col::GRAY, bg)
}

/// The line of settings entry `k` (0: changing the user, 1: quitting): its
/// number and label, in Chinese followed by the English label.
pub open spec fn setting_text(k: int, l: Lang) -> Seq<char> {
    let t = text_of(l);
    let label = if k == 0 {
        t.change_user@
    } else {
        t.quit@
    };
    let label_en = if k == 0 {
        "Change User"@
    } else {
        "Quit"@
    };
    if l == Lang::Zh {
        filled("{}. {} ({})"@, seq![dec_chars((k + 6) as nat), label, label_en], 0)
    } else {
        filled("{}. {}"@, seq![dec_chars((k + 6) as nat), label_en], 0)
    }
}

/// Row `row` shows settings entry `k` centred on column `cx`, highlighted
/// while `selected`.
pub open spec fn setting_shown(c: Canvas, row: int, k: int, selected: bool, l: Lang, cx: int) -> bool {
    let s = setting_text(k, l);
    text_from(
        c,
        row,
        s,
        line_left(cx, spec_str_width(s) as int) + 2,
        if selected { col::WHITE } else { col::GRAY },
        entry_bg(selected),
    )
}

/// The main menu's row of game entry `k` shows it, selected when `k` is
/// `sel`.
pub open spec fn game_entry_at(c: Canvas, k: int, sel: int, scores: ScoreFile, t: Ui, cx: int) -> bool {
    game_entry_shown(c, entry_row(k), k, k == sel, scores, t, cx)
}

/// The main menu's row of settings entry `k` shows it, selected when
/// `5 + k` is `sel`.
pub open spec fn setting_at(c: Canvas, k: int, sel: int, l: Lang, cx: int) -> bool {
    setting_shown(c, entry_row(5 + k), k, 5 + k == sel, l, cx)
}

/// Draws game entry `k` on row `row` centred on column `cx`: the marker
/// when `selected`, the number, the name, the text beside it, and for the
/// selected entry its description on the row below. Returns the line's left
/// column.
#[verifier::rlimit(60)]
#[verifier::spinoff_prover]
fn draw_game_entry(c: &mut Canvas, row: usize, k: usize, selected: bool, scores: &ScoreFile, t: &Ui, cx: usize) -> (x: usize)
    requires
        old(c).wf(),
        k < 5,
        row < 14,
        cx <= old(c).width() / 2,
        cx < old(c).width(),
    ensures
        drawn_on(*final(c), *old(c)),
        forall|i: int, j: int|
            0 <= i < old(c).width() && 0 <= j < old(c).height() && j != row && j != row + 1 ==> #[trigger] final(c).cell(i, j)
                == old(c).cell(i, j),
        selected && old(c).width() <= usize::MAX / 2 && row < old(c).height() ==> x < old(c).width() && final(c).cell(x as int, row as int)
            == marker_cell(),
        old(c).width() <= usize::MAX / 2 && row < old(c).height() && game_line_width(k as int, *scores, *t) <= usize::MAX / 4
            ==> game_entry_shown(*final(c), row as int, k as int, selected, *scores, *t, cx as int),
{
    let ghost c0 = *c;
    let black = Color::AnsiValue(col::BLACK);
    let w = c.w();
    let all = GameId::all();
    let id = all[k];
    let mut num = String::new();
    crate::text::push_dec(&mut num, (k + 1) as u64);
    crate::text::push_char(&mut num, '.');
    proof {
        assert(num@ =~= entry_number(k as int));
    }
    let name = game_name(id, t);
    let best = item_line(id, scores, t);
    let pad: usize = 2;
    let wn = str_width(num.as_str());
    let wname = str_width(name);
    let wbest = str_width(best.as_str());
    let line_w = wn.saturating_add(1).saturating_add(wname).saturating_add(pad).saturating_add(wbest).saturating_add(4);
    let x = cx.saturating_sub(line_w / 2);
    let bg = if selected {
        Color::AnsiValue(col::DARK_BLUE)
    } else {
        black
    };
    c.fill_rect(x, row, line_w.saturating_add(4), 1, ' ', black, bg);
    let ghost c1 = *c;
    if selected {
        c.put_str(x, row, "▶", Color::AnsiValue(col::YELLOW), bg);
        proof {
            reveal_strlit("▶");
            c0.lemma_nonempty();
            lemma_wrap_column_small(x);
            assert("▶"@.len() == 1 && "▶"@[0] == '▶');
            if row < c0.height() {
                assert(c.cell(x as int, row as int) == put_str_cell("▶"@, x as int, x as int, w as int, Color::AnsiValue(col::YELLOW), bg, c1.cell(x as int, row as int)));
            }
        }
    }
    let ghost c2 = *c;
    let num_x = x + 2;
    c.put_str(num_x, row, num.as_str(), Color::AnsiValue(if selected { col::YELLOW } else { col::GRAY }), bg);
    let ghost c3 = *c;
    let name_x = num_x.saturating_add(wn).saturating_add(1);
    if name_x < w {
        c.put_str(name_x, row, name, Color::AnsiValue(if selected { col::WHITE } else { col::GREEN }), bg);
    }
    let ghost c4 = *c;
    let best_x = name_x.saturating_add(wname).saturating_add(pad);
    if best_x < w {
        c.put_str(best_x, row, best.as_str(), Color::AnsiValue(col::GRAY), bg);
    }
    let ghost c5 = *c;
    let desc = fmt("      {}", vec![String::from_str(id.desc())].as_slice());
    if selected {
        c.put_str(cx.wrapping_sub(str_width(desc.as_str()) / 2), row + 1, desc.as_str(), Color::AnsiValue(col::GRAY), bg);
    }
    proof {
        c0.lemma_nonempty();
        lemma_wrap_column_small(x);
        if selected && w <= usize::MAX / 2 && row < c0.height() {
            lemma_wrap_column_small(num_x);
            assert(c3.cell(x as int, row as int) == c2.cell(x as int, row as int));
            if name_x < w {
                lemma_wrap_column_small(name_x);
            }
            assert(c4.cell(x as int, row as int) == c3.cell(x as int, row as int));
            if best_x < w {
                lemma_wrap_column_small(best_x);
            }
            assert(c5.cell(x as int, row as int) == c4.cell(x as int, row as int));
        }
        let W = w as int;
        let ki = k as int;
        if W <= usize::MAX / 2 && row < c0.height() && game_line_width(ki, *scores, *t) <= usize::MAX / 4 {
            let sn = entry_number(ki);
            let sname = game_name_text(game_at(ki), *t);
            let sbest = item_text(game_at(ki), *scores, *t);
            let m = (usize::MAX as int + 1) as nat;
            vstd::arithmetic::div_mod::lemma_small_mod(spec_str_width(sn), m);
            vstd::arithmetic::div_mod::lemma_small_mod(spec_str_width(sname), m);
            vstd::arithmetic::div_mod::lemma_small_mod(spec_str_width(sbest), m);
            assert(wn == spec_str_width(sn));
            assert(wname == spec_str_width(sname));
            assert(wbest == spec_str_width(sbest));
            assert(line_w == game_line_width(ki, *scores, *t));
            assert(x == line_left(cx as int, line_w as int));
            assert(name_x == x + 2 + wn + 1);
            assert(best_x == name_x + wname + 2);
            let bgc = entry_bg(selected);
            assert(bg == bgc);
            let r = row as int;
            lemma_wrap_column_small(num_x);
            lemma_wrap_column_small(name_x);
            lemma_wrap_column_small(best_x);
            assert forall|i: int| num_x <= i < num_x + wn && i < W implies #[trigger] c.cell(i, r) == put_str_cell(
                sn,
                num_x as int,
                i,
                W,
                Color::AnsiValue(if selected { col::YELLOW } else { col::GRAY }),
                bgc,
                spec_empty_cell(),
            ) by {
                lemma_put_str_cell_covered(
                    sn,
                    num_x as int,
                    i,
                    W,
                    Color::AnsiValue(if selected { col::YELLOW } else { col::GRAY }),
                    bgc,
                    c2.cell(i, r),
                    spec_empty_cell(),
                );
                assert(c4.cell(i, r) == c3.cell(i, r));
                assert(c5.cell(i, r) == c4.cell(i, r));
            }
            assert forall|i: int| name_x <= i < name_x + wname && i < W implies #[trigger] c.cell(i, r) == put_str_cell(
                sname,
                name_x as int,
                i,
                W,
                Color::AnsiValue(if selected { col::WHITE } else { col::GREEN }),
                bgc,
                spec_empty_cell(),
            ) by {
                lemma_put_str_cell_covered(
                    sname,
                    name_x as int,
                    i,
                    W,
                    Color::AnsiValue(if selected { col::WHITE } else { col::GREEN }),
                    bgc,
                    c3.cell(i, r),
                    spec_empty_cell(),
                );
                assert(c5.cell(i, r) == c4.cell(i, r));
            }
            assert forall|i: int| best_x <= i < best_x + wbest && i < W implies #[trigger] c.cell(i, r) == put_str_cell(
                sbest,
                best_x as int,
                i,
                W,
                Color::AnsiValue(col::GRAY),
                bgc,
                spec_empty_cell(),
            ) by {
                lemma_put_str_cell_covered(sbest, best_x as int, i, W, Color::AnsiValue(col::GRAY), bgc, c4.cell(i, r), spec_empty_cell());
            }
        }
    }
    x
}

/// Draws settings entry `k` (0: changing the user, 1: quitting) on row
/// `row` centred on column `cx`, with the marker when `selected`. Returns
/// the line's left column.
fn draw_setting_entry(c: &mut Canvas, row: usize, k: usize, selected: bool, l: Lang, cx: usize) -> (x: usize)
    requires
        old(c).wf(),
        k < 2,
        row < 16,
        cx <= old(c).width() / 2,
        cx < old(c).width(),
    ensures
        drawn_on(*final(c), *old(c)),
        forall|i: int, j: int|
            0 <= i < old(c).width() && 0 <= j < old(c).height() && j != row ==> #[trigger] final(c).cell(i, j) == old(c).cell(i, j),
        selected && old(c).width() <= usize::MAX / 2 && row < old(c).height() ==> x < old(c).width() && final(c).cell(x as int, row as int)
            == marker_cell(),
        old(c).width() <= usize::MAX / 2 && row < old(c).height() && spec_str_width(setting_text(k as int, l)) <= usize::MAX / 4
            ==> setting_shown(*final(c), row as int, k as int, selected, l, cx as int),
{
    let ghost c0 = *c;
    let t = ui(l);
    let black = Color::AnsiValue(col::BLACK);
    let w = c.w();
    let idx = 5 + k;
    let bg = if selected {
        Color::AnsiValue(col::DARK_BLUE)
    } else {
        black
    };
    let label = if k == 0 {
        t.change_user
    } else {
        t.quit
    };
    let label_en = if k == 0 {
        "Change User"
    } else {
        "Quit"
    };
    let line = if l == Lang::Zh {
        let args = vec![dec_string((idx + 1) as u64), String::from_str(label), String::from_str(label_en)];
        let r = fmt("{}. {} ({})", args.as_slice());
        proof {
            assert(texts(args@) =~= seq![dec_chars((k + 6) as nat), label@, label_en@]);
        }
        r
    } else {
        let args = vec![dec_string((idx + 1) as u64), String::from_str(label_en)];
        let r = fmt("{}. {}", args.as_slice());
        proof {
            assert(texts(args@) =~= seq![dec_chars((k + 6) as nat), label_en@]);
        }
        r
    };
    proof {
        assert(line@ == setting_text(k as int, l));
    }
    let lw = str_width(line.as_str());
    let x = cx.saturating_sub(lw / 2);
    c.fill_rect(x, row, lw.saturating_add(4), 1, ' ', black, bg);
    let ghost c1 = *c;
    if selected {
        c.put_str(x, row, "▶", Color::AnsiValue(col::YELLOW), bg);
        proof {
            reveal_strlit("▶");
            c0.lemma_nonempty();
            lemma_wrap_column_small(x);
            assert("▶"@.len() == 1 && "▶"@[0] == '▶');
            if row < c0.height() {
                assert(c.cell(x as int, row as int) == put_str_cell("▶"@, x as int, x as int, w as int, Color::AnsiValue(col::YELLOW), bg, c1.cell(x as int, row as int)));
            }
        }
    }
    let ghost c2 = *c;
    c.put_str(x + 2, row, line.as_str(), Color::AnsiValue(if selected { col::WHITE } else { col::GRAY }), bg);
    proof {
        c0.lemma_nonempty();
        let W = w as int;
        let s = setting_text(k as int, l);
        if W <= usize::MAX / 2 {
            lemma_wrap_column_small((x + 2) as usize);
        }
        if W <= usize::MAX / 2 && row < c0.height() && spec_str_width(s) <= usize::MAX / 4 {
            vstd::arithmetic::div_mod::lemma_small_mod(spec_str_width(s), (usize::MAX as int + 1) as nat);
            assert(lw == spec_str_width(s));
            assert(x == line_left(cx as int, lw as int));
            let bgc = entry_bg(selected);
            assert(bg == bgc);
            let r = row as int;
            let fg = Color::AnsiValue(if selected { col::WHITE } else { col::GRAY });
            assert forall|i: int| x + 2 <= i < x + 2 + lw && i < W implies #[trigger] c.cell(i, r) == put_str_cell(
                s,
                x + 2,
                i,
                W,
                fg,
                bgc,
                spec_empty_cell(),
            ) by {
                lemma_put_str_cell_covered(s, x + 2, i, W, fg, bgc, c2.cell(i, r), spec_empty_cell());
            }
        }
    }
    x
}

/// Draws the main menu in language `l` with entry `sel` highlighted: the
/// title, each game with its best record (the selected one with its
/// description), changing the user and quitting, the current user and key
/// help, the two key-help lines on the third and second rows from the
/// bottom. On a canvas of any width a terminal has, every entry whose row
/// lies above the key help shows: a game's row its number, name and best
/// record, a settings row its line, centred and clipped at the right edge
/// (`game_entry_at`, `setting_at`), and the selected one carries the
/// marker. On a canvas at least 20 rows high the title, the subtitle, the
/// current user (on the row below the entries) and the two key-help lines
/// show centered too.
#[verifier::rlimit(40)]
pub fn draw_menu(c: &mut Canvas, sel: usize, scores: &ScoreFile, user: &str, l: Lang)
    requires
        old(c).wf(),
    ensures
        drawn_on(*final(c), *old(c)),
        sel < 7 && entry_row(sel as int) + 3 < old(c).height() && old(c).width() <= usize::MAX / 2 ==> exists|x: int|
            0 <= x < old(c).width() && #[trigger] final(c).cell(x, entry_row(sel as int)) == marker_cell(),
        ({
            let cx = (old(c).width() / 2) as usize;
            let h = old(c).height() as int;
            let t = text_of(l);
            20 <= h && old(c).width() <= usize::MAX / 2 ==> {
                &&& row_shows(*final(c), 1, t.title@, cx, col::YELLOW, blank_cell())
                &&& row_shows(*final(c), 2, t.subtitle@, cx, col::CYAN, blank_cell())
                &&& row_shows(*final(c), 16, filled(t.player_fmt@, seq![user@], 0), cx, col::CYAN, blank_cell())
                &&& row_shows(*final(c), h - 3, t.menu_help1@, cx, col::GRAY, blank_cell())
                &&& row_shows(*final(c), h - 2, t.menu_help2@, cx, col::GRAY, blank_cell())
            }
        }),
        ({
            let cx = (old(c).width() / 2) as usize;
            let h = old(c).height() as int;
            let t = text_of(l);
            old(c).width() <= usize::MAX / 2 ==> {
                &&& forall|k: int|
                    0 <= k < 5 && game_line_width(k, *scores, t) <= usize::MAX / 4 && entry_row(k) + 3 < h ==> #[trigger] game_entry_at(
                        *final(c),
                        k,
                        sel as int,
                        *scores,
                        t,
                        cx as int,
                    )
                &&& forall|k: int|
                    0 <= k < 2 && spec_str_width(setting_text(k, l)) <= usize::MAX / 4 && entry_row(5 + k) + 3 < h ==> #[trigger] setting_at(
                        *final(c),
                        k,
                        sel as int,
                        l,
                        cx as int,
                    )
            }
        }),
{
    let t = ui(l);
    let black = Color::AnsiValue(col::BLACK);
    c.clear();
    let w = c.w();
    let h = c.h();
    c.fill_rect(0, 0, w, h, ' ', black, black);
    proof {
        c.lemma_nonempty();
    }
    let cx = w / 2;
    let mut row: usize = 1;
    let ghost blank = *c;
    c.put_str(cx.wrapping_sub(str_width(t.title) / 2), row, t.title, Color::AnsiValue(col::YELLOW), black);
    row = row + 1;
    let ghost titled = *c;
    c.put_str(cx.wrapping_sub(str_width(t.subtitle) / 2), row, t.subtitle, Color::AnsiValue(col::CYAN), black);
    row = row + 2;
    let ghost good = sel < 7 && entry_row(sel as int) + 3 < h && w <= usize::MAX / 2;
    let ghost tall = 20 <= h && w <= usize::MAX / 2;
    let ghost wide = w <= usize::MAX / 2;
    proof {
        if tall {
            assert(row_shows(*c, 1, t.title@, cx, col::YELLOW, blank_cell())) by {
                assert forall|i: int| 0 <= i < c.width() implies #[trigger] c.cell(i, 1) == crate::canvas::put_str_cell(
                    t.title@,
                    wrap_column(center_col(cx, t.title@)),
                    i,
                    c.width() as int,
                    Color::AnsiValue(col::YELLOW),
                    Color::AnsiValue(col::BLACK),
                    blank_cell(),
                ) by {
                    assert(blank.cell(i, 1) == blank_cell());
                    assert(c.cell(i, 1) == titled.cell(i, 1));
                }
            }
            assert(row_shows(*c, 2, t.subtitle@, cx, col::CYAN, blank_cell())) by {
                assert forall|i: int| 0 <= i < c.width() implies #[trigger] c.cell(i, 2) == crate::canvas::put_str_cell(
                    t.subtitle@,
                    wrap_column(center_col(cx, t.subtitle@)),
                    i,
                    c.width() as int,
                    Color::AnsiValue(col::CYAN),
                    Color::AnsiValue(col::BLACK),
                    blank_cell(),
                ) by {
                    assert(titled.cell(i, 2) == blank_cell());
                }
            }
        }
    }
    let ghost mut mx: int = 0;
    let mut i: usize = 0;
    while i < 5
        invariant
            i <= 5,
            row == 4 + 2 * i,
            cx == w / 2,
            w == c.width(),
            h == c.height(),
            good == (sel < 7 && entry_row(sel as int) + 3 < h && w <= usize::MAX / 2),
            wide == (w <= usize::MAX / 2),
            w >= 1,
            black == Color::AnsiValue(col::BLACK),
            drawn_on(*c, *old(c)),
            good && sel < i ==> 0 <= mx < w && c.cell(mx, entry_row(sel as int)) == marker_cell(),
            tall == (20 <= h && w <= usize::MAX / 2),
            tall ==> forall|ii: int, j: int| 0 <= ii < w && row <= j < h ==> #[trigger] c.cell(ii, j) == blank_cell(),
            t == text_of(l),
            tall ==> row_shows(*c, 1, t.title@, cx, col::YELLOW, blank_cell()),
            tall ==> row_shows(*c, 2, t.subtitle@, cx, col::CYAN, blank_cell()),
            wide ==> forall|kk: int|
                0 <= kk < i && game_line_width(kk, *scores, t) <= usize::MAX / 4 && entry_row(kk) < h ==> #[trigger] game_entry_at(
                    *c,
                    kk,
                    sel as int,
                    *scores,
                    t,
                    cx as int,
                ),
        decreases 5 - i,
    {
        let ghost before = *c;
        let selected = i == sel;
        let x = draw_game_entry(c, row, i, selected, scores, &t, cx);
        proof {
            if good && selected {
                mx = x as int;
            }
            if good && sel < i {
                assert(c.cell(mx, entry_row(sel as int)) == before.cell(mx, entry_row(sel as int)));
            }
            if wide {
                assert forall|kk: int|
                    0 <= kk < i + 1 && game_line_width(kk, *scores, t) <= usize::MAX / 4 && entry_row(kk) < h implies #[trigger] game_entry_at(*c, kk, sel as int, *scores, t, cx as int) by {
                    if kk < i {
                        assert(game_entry_at(before, kk, sel as int, *scores, t, cx as int));
                        assert forall|ii: int| 0 <= ii < w implies #[trigger] c.cell(ii, entry_row(kk)) == before.cell(ii, entry_row(kk)) by {}
                    }
                }
            }
        }
        row = row + 2;
        i = i + 1;
    }
    let mut k: usize = 0;
    while k < 2
        invariant
            k <= 2,
            row == 14 + k,
            cx == w / 2,
            w == c.width(),
            h == c.height(),
            good == (sel < 7 && entry_row(sel as int) + 3 < h && w <= usize::MAX / 2),
            wide == (w <= usize::MAX / 2),
            w >= 1,
            black == Color::AnsiValue(col::BLACK),
            drawn_on(*c, *old(c)),
            good && sel < 5 + k ==> 0 <= mx < w && c.cell(mx, entry_row(sel as int)) == marker_cell(),
            tall == (20 <= h && w <= usize::MAX / 2),
            tall ==> forall|ii: int, j: int| 0 <= ii < w && row <= j < h ==> #[trigger] c.cell(ii, j) == blank_cell(),
            t == text_of(l),
            tall ==> row_shows(*c, 1, t.title@, cx, col::YELLOW, blank_cell()),
            tall ==> row_shows(*c, 2, t.subtitle@, cx, col::CYAN, blank_cell()),
            wide ==> forall|kk: int|
                0 <= kk < 5 && game_line_width(kk, *scores, t) <= usize::MAX / 4 && entry_row(kk) < h ==> #[trigger] game_entry_at(
                    *c,
                    kk,
                    sel as int,
                    *scores,
                    t,
                    cx as int,
                ),
            wide ==> forall|kk: int|
                0 <= kk < k && spec_str_width(setting_text(kk, l)) <= usize::MAX / 4 && entry_row(5 + kk) < h ==> #[trigger] setting_at(
                    *c,
                    kk,
                    sel as int,
                    l,
                    cx as int,
                ),
        decreases 2 - k,
    {
        let ghost before = *c;
        let selected = 5 + k == sel;
        let x = draw_setting_entry(c, row, k, selected, l, cx);
        proof {
            if good && selected {
                mx = x as int;
            }
            if good && sel < 5 + k {
                assert(c.cell(mx, entry_row(sel as int)) == before.cell(mx, entry_row(sel as int)));
            }
            if wide {
                assert forall|kk: int|
                    0 <= kk < 5 && game_line_width(kk, *scores, t) <= usize::MAX / 4 && entry_row(kk) < h implies #[trigger] game_entry_at(*c, kk, sel as int, *scores, t, cx as int) by {
                    assert(game_entry_at(before, kk, sel as int, *scores, t, cx as int));
                    assert forall|ii: int| 0 <= ii < w implies #[trigger] c.cell(ii, entry_row(kk)) == before.cell(ii, entry_row(kk)) by {}
                }
                assert forall|kk: int|
                    0 <= kk < k + 1 && spec_str_width(setting_text(kk, l)) <= usize::MAX / 4 && entry_row(5 + kk) < h implies #[trigger] setting_at(*c, kk, sel as int, l, cx as int) by {
                    if kk < k {
                        assert(setting_at(before, kk, sel as int, l, cx as int));
                        assert forall|ii: int| 0 <= ii < w implies #[trigger] c.cell(ii, entry_row(5 + kk)) == before.cell(ii, entry_row(5 + kk)) by {}
                    }
                }
            }
        }
        row = row + 1;
        k = k + 1;
    }
    let who_args = vec![String::from_str(user)];
    let who = fmt(t.player_fmt, who_args.as_slice());
    let ghost before_who = *c;
    c.put_str(cx.wrapping_sub(str_width(who.as_str()) / 2), row, who.as_str(), Color::AnsiValue(col::CYAN), black);
    let ghost after_who = *c;
    proof {
        assert(texts(who_args@) =~= seq![user@]);
        if tall {
            assert(row_shows(*c, 16, who@, cx, col::CYAN, blank_cell())) by {
                assert forall|i: int| 0 <= i < c.width() implies #[trigger] c.cell(i, 16) == crate::canvas::put_str_cell(
                    who@,
                    wrap_column(center_col(cx, who@)),
                    i,
                    c.width() as int,
                    Color::AnsiValue(col::CYAN),
                    Color::AnsiValue(col::BLACK),
                    blank_cell(),
                ) by {
                    assert(before_who.cell(i, 16) == blank_cell());
                }
            }
        }
    }
    let ghost entries = *c;
    let hy = h.saturating_sub(3);
    c.put_str(cx.wrapping_sub(str_width(t.menu_help1) / 2), hy, t.menu_help1, Color::AnsiValue(col::GRAY), black);
    let ghost help1 = *c;
    c.put_str(cx.wrapping_sub(str_width(t.menu_help2) / 2), hy + 1, t.menu_help2, Color::AnsiValue(col::GRAY), black);
    proof {
        if good {
            assert(c.cell(mx, entry_row(sel as int)) == marker_cell());
        }
        if wide {
            assert forall|k: int|
                0 <= k < 5 && game_line_width(k, *scores, t) <= usize::MAX / 4 && entry_row(k) + 3 < h implies #[trigger] game_entry_at(*c, k, sel as int, *scores, t, cx as int) by {
                assert(game_entry_at(before_who, k, sel as int, *scores, t, cx as int));
                assert forall|ii: int| 0 <= ii < w implies #[trigger] c.cell(ii, entry_row(k)) == before_who.cell(ii, entry_row(k)) by {
                    assert(after_who.cell(ii, entry_row(k)) == before_who.cell(ii, entry_row(k)));
                    assert(entries.cell(ii, entry_row(k)) == after_who.cell(ii, entry_row(k)));
                    assert(help1.cell(ii, entry_row(k)) == entries.cell(ii, entry_row(k)));
                }
            }
            assert forall|k: int|
                0 <= k < 2 && spec_str_width(setting_text(k, l)) <= usize::MAX / 4 && entry_row(5 + k) + 3 < h implies #[trigger] setting_at(
                    *c,
                    k,
                    sel as int,
                    l,
                    cx as int,
                ) by {
                assert(setting_at(before_who, k, sel as int, l, cx as int));
                assert forall|ii: int| 0 <= ii < w implies #[trigger] c.cell(ii, entry_row(5 + k)) == before_who.cell(ii, entry_row(5 + k)) by {
                    assert(after_who.cell(ii, entry_row(5 + k)) == before_who.cell(ii, entry_row(5 + k)));
                    assert(entries.cell(ii, entry_row(5 + k)) == after_who.cell(ii, entry_row(5 + k)));
                    assert(help1.cell(ii, entry_row(5 + k)) == entries.cell(ii, entry_row(5 + k)));
                }
            }
        }
        if tall {
            assert(row_shows(*c, 16, who@, cx, col::CYAN, blank_cell())) by {
                assert forall|i: int| 0 <= i < c.width() implies #[trigger] c.cell(i, 16) == after_who.cell(i, 16) by {}
            }
            assert(row_shows(*c, 1, t.title@, cx, col::YELLOW, blank_cell())) by {
                assert forall|i: int| 0 <= i < c.width() implies #[trigger] c.cell(i, 1) == after_who.cell(i, 1) by {
                    assert(after_who.cell(i, 1) == before_who.cell(i, 1));
                }
            }
            assert(row_shows(*c, 2, t.subtitle@, cx, col::CYAN, blank_cell())) by {
                assert forall|i: int| 0 <= i < c.width() implies #[trigger] c.cell(i, 2) == after_who.cell(i, 2) by {
                    assert(after_who.cell(i, 2) == before_who.cell(i, 2));
                }
            }
            assert(row_shows(*c, h - 3, t.menu_help1@, cx, col::GRAY, blank_cell())) by {
                assert forall|i: int| 0 <= i < c.width() implies #[trigger] c.cell(i, h - 3) == crate::canvas::put_str_cell(
                    t.menu_help1@,
                    wrap_column(center_col(cx, t.menu_help1@)),
                    i,
                    c.width() as int,
                    Color::AnsiValue(col::GRAY),
                    Color::AnsiValue(col::BLACK),
                    blank_cell(),
                ) by {
                    assert(before_who.cell(i, h - 3) == blank_cell());
                    assert(after_who.cell(i, h - 3) == blank_cell());
                    assert(c.cell(i, h - 3) == help1.cell(i, h - 3));
                }
            }
            assert(row_shows(*c, h - 2, t.menu_help2@, cx, col::GRAY, blank_cell())) by {
                assert forall|i: int| 0 <= i < c.width() implies #[trigger] c.cell(i, h - 2) == crate::canvas::put_str_cell(
                    t.menu_help2@,
                    wrap_column(center_col(cx, t.menu_help2@)),
                    i,
                    c.width() as int,
                    Color::AnsiValue(col::GRAY),
                    Color::AnsiValue(col::BLACK),
                    blank_cell(),
                ) by {
                    assert(before_who.cell(i, h - 2) == blank_cell());
                    assert(after_who.cell(i, h - 2) == blank_cell());
                    assert(help1.cell(i, h - 2) == blank_cell());
                }
            }
        }
    }
}

} // verus!
