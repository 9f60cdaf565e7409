//! User-visible text in two languages, and filling `{}` placeholders.

use vstd::prelude::*;
use crate::text::push_char;

verus! {

/// Display language.
#[derive(Clone, Copy, PartialEq, Eq, Debug, Structural)]
pub enum Lang {
    Zh,
    En,
}

/// The table of every user-visible text; `*_fmt` entries hold `{}`
/// placeholders filled in order by `fmt`.
#[derive(Clone, Copy)]
pub struct Ui {
    pub title: &'static str,
    pub subtitle: &'static str,
    pub change_user: &'static str,
    pub quit: &'static str,
    pub player_fmt: &'static str,
    pub no_record: &'static str,
    pub no_stats: &'static str,
    pub best_fmt: &'static str,
    pub record_fmt: &'static str,
    pub menu_help1: &'static str,
    pub menu_help2: &'static str,
    pub game_snake: &'static str,
    pub game_breakout: &'static str,
    pub game_tetris: &'static str,
    pub game_plane: &'static str,
    pub game_gomoku: &'static str,
    pub desc_snake: &'static str,
    pub desc_breakout: &'static str,
    pub desc_tetris: &'static str,
    pub desc_plane: &'static str,
    pub desc_gomoku: &'static str,
    pub score_fmt: &'static str,
    pub lives_fmt: &'static str,
    pub paused: &'static str,
    pub resume: &'static str,
    pub quit_to_menu: &'static str,
    pub tip_ctrlc: &'static str,
    pub game_over: &'static str,
    pub score_line_fmt: &'static str,
    pub new_record: &'static str,
    pub rank_fmt: &'static str,
    pub you_win: &'static str,
    pub you_lose: &'static str,
    pub draw: &'static str,
    pub record_line_fmt: &'static str,
    pub leaderboard_fmt: &'static str,
    pub lb_header_score: &'static str,
    pub lb_header_gomoku: &'static str,
    pub play_again: &'static str,
    pub set_username: &'static str,
    pub username: &'static str,
    pub username_hint: &'static str,
    pub username_empty: &'static str,
    pub snake_title: &'static str,
    pub snake_help: &'static str,
    pub snake_paused: &'static str,
    pub breakout_title: &'static str,
    pub breakout_help_ready: &'static str,
    pub breakout_help: &'static str,
    pub tetris_title: &'static str,
    pub tetris_sub: &'static str,
    pub lines_fmt: &'static str,
    pub level_fmt: &'static str,
    pub best_short_fmt: &'static str,
    pub next: &'static str,
    pub tetris_help: [&'static str; 5],
    pub plane_title: &'static str,
    pub plane_help: &'static str,
    pub heal_fmt: &'static str,
    pub life_full: &'static str,
    pub gomoku_title: &'static str,
    pub you_first: &'static str,
    pub ai_stone: &'static str,
    pub stat_fmt: &'static str,
    pub ai_thinking: &'static str,
    pub your_turn: &'static str,
    pub gomoku_help: [&'static str; 3],
    pub term_title: &'static str,
    pub err_no_term: &'static str,
    pub err_init_term: &'static str,
}

/// The Chinese texts.
pub open spec fn zh_text() -> Ui {
    Ui {
        title: "◆ 经典游戏合集 ◆",
        subtitle: "CLASSIC GAMES 5-in-1",
        change_user: "设置用户名",
        quit: "退出",
        player_fmt: "玩家: {}",
        no_record: "暂无纪录",
        no_stats: "暂无战绩",
        best_fmt: "最高 {} ({})",
        record_fmt: "胜 {} 负 {}  ({})",
        menu_help1: "↑↓ / HJKL 选择    回车 / 空格 进入    ESC / Q 退出",
        menu_help2: "游戏中: ESC / Q 暂停,  Ctrl+C 随时退出",
        game_snake: "贪吃蛇",
        game_breakout: "打砖块",
        game_tetris: "俄罗斯方块",
        game_plane: "飞机大战",
        game_gomoku: "五子棋",
        desc_snake: "吃食物变长，别撞墙别咬到自己",
        desc_breakout: "接住小球，打碎所有砖块",
        desc_tetris: "消行得分，方块越落越快",
        desc_plane: "移动射击，吃♥医疗包回血",
        desc_gomoku: "五子连珠，人机对战",
        score_fmt: "得分 {}",
        lives_fmt: "生命 {}",
        paused: "已暂停  PAUSED",
        resume: "C / 空格 / 回车  : 继续",
        quit_to_menu: "Q / ESC          : 返回菜单",
        tip_ctrlc: "提示: Ctrl+C 随时退出",
        game_over: "游戏结束",
        score_line_fmt: "本局得分: {}",
        new_record: "★ 新纪录! 最高分 ★",
        rank_fmt: "进入历史第 {} 名",
        you_win: "你赢了！",
        you_lose: "你输了",
        draw: "平局",
        record_line_fmt: "你的战绩: {} 胜 / {} 负",
        leaderboard_fmt: "--- {} 排行榜 ---",
        lb_header_score: "  名次  玩家            分数      时间",
        lb_header_gomoku: "  名次  玩家            胜    负",
        play_again: "[R] 再来一局     [Enter / ESC / Q] 返回菜单",
        set_username: "设置用户名",
        username: "用户名:",
        username_hint: "回车 确定    ESC 取消    (字母/数字/空格/.-_)",
        username_empty: "用户名不能为空",
        snake_title: "贪吃蛇 SNAKE",
        snake_help: "方向键/HJKL 移动   空格 暂停    ESC/Q 菜单",
        snake_paused: "已暂停 (空格继续)",
        breakout_title: "打砖块 BREAKOUT",
        breakout_help_ready: "←→/HL 移动    空格 发球    ♥医疗包+1命    ESC/Q 菜单",
        breakout_help: "←→/HL 移动    ♥医疗包+1命    ESC/Q 菜单",
        tetris_title: "俄罗斯方块",
        tetris_sub: "TETRIS",
        lines_fmt: "行数 {}",
        level_fmt: "等级 {}",
        best_short_fmt: "最高 {}",
        next: "下一个",
        tetris_help: [
            "←→ / HL  左右移动",
            "↑ / K     旋转",
            "↓ / J     加速下落",
            "空格       直落",
            "ESC/Q      暂停",
        ],
        plane_title: "飞机大战 PLANE",
        plane_help: "方向键/HJKL 移动    按住空格 射击    ♥医疗包+1命    ESC/Q 暂停",
        heal_fmt: "♥ 生命 +1",
        life_full: "生命已满",
        gomoku_title: "五子棋 GOMOKU",
        you_first: "你: X (先手)",
        ai_stone: "AI: O",
        stat_fmt: "战绩: {} 胜 / {} 负",
        ai_thinking: "AI 思考中...",
        your_turn: "轮到你 (X)",
        gomoku_help: ["方向键/HJKL 移动", "回车/空格 落子", "ESC/Q 暂停退出"],
        term_title: "Classic Games Collection - 经典游戏合集",
        err_no_term: "错误: 无法进入终端模式，请确认在真实终端（非管道）中运行本程序。",
        err_init_term: "错误: 初始化终端失败: {}",
    }
}

/// The English texts.
pub open spec fn en_text() -> Ui {
    Ui {
        title: "◆ Classic Games Collection ◆",
        subtitle: "CLASSIC GAMES 5-in-1",
        change_user: "Change User",
        quit: "Quit",
        player_fmt: "Player: {}",
        no_record: "No records",
        no_stats: "No record",
        best_fmt: "Best {} ({})",
        record_fmt: "W {} L {}  ({})",
        menu_help1: "↑↓ / HJKL select    Enter / Space start    ESC / Q quit",
        menu_help2: "In game: ESC / Q pause,  Ctrl+C quits anytime",
        game_snake: "Snake",
        game_breakout: "Breakout",
        game_tetris: "Tetris",
        game_plane: "Plane Battle",
        game_gomoku: "Gomoku",
        desc_snake: "Eat food to grow; avoid walls and yourself",
        desc_breakout: "Keep the ball up; smash every brick",
        desc_tetris: "Clear lines; pieces fall faster",
        desc_plane: "Move & shoot; grab ♥ to heal",
        desc_gomoku: "Five in a row, play vs the AI",
        score_fmt: "Score {}",
        lives_fmt: "Lives {}",
        paused: "PAUSED",
        resume: "C / Space / Enter : Resume",
        quit_to_menu: "Q / ESC          : Quit to menu",
        tip_ctrlc: "Tip: Ctrl+C quits anytime",
        game_over: "GAME OVER",
        score_line_fmt: "Score: {}",
        new_record: "★ NEW RECORD! BEST SCORE ★",
        rank_fmt: "Ranked #{}, new entry",
        you_win: "You win!",
        you_lose: "You lose",
        draw: "Draw",
        record_line_fmt: "Your record: {} W / {} L",
        leaderboard_fmt: "--- {} Leaderboard ---",
        lb_header_score: "  Rank  Player            Score     Time",
        lb_header_gomoku: "  Rank  Player            W      L",
        play_again: "[R] Play again     [Enter / ESC / Q] Back to menu",
        set_username: "Set Username",
        username: "Username:",
        username_hint: "Enter OK    ESC cancel    (letters/digits/space/.-_)",
        username_empty: "Username cannot be empty",
        snake_title: "SNAKE",
        snake_help: "Arrows/HJKL move    Space pause    ESC/Q menu",
        snake_paused: "Paused (Space to resume)",
        breakout_title: "BREAKOUT",
        breakout_help_ready: "←→/HL move    Space launch    ♥=+1 life    ESC/Q menu",
        breakout_help: "←→/HL move    ♥=+1 life    ESC/Q menu",
        tetris_title: "TETRIS",
        tetris_sub: "",
        lines_fmt: "Lines {}",
        level_fmt: "Level {}",
        best_short_fmt: "Best {}",
        next: "Next",
        tetris_help: [
            "←→ / HL  Move",
            "↑ / K     Rotate",
            "↓ / J     Soft drop",
            "Space     Hard drop",
            "ESC/Q     Pause",
        ],
        plane_title: "PLANE",
        plane_help: "Arrows/HJKL move    Hold Space shoot    ♥=+1 life    ESC/Q pause",
        heal_fmt: "♥ +1 life",
        life_full: "Life full",
        gomoku_title: "GOMOKU",
        you_first: "You: X (first)",
        ai_stone: "AI: O",
        stat_fmt: "Record: {} W / {} L",
        ai_thinking: "AI thinking...",
        your_turn: "Your turn (X)",
        gomoku_help: ["Arrows/HJKL move", "Enter/Space place", "ESC/Q pause & quit"],
        term_title: "Classic Games Collection",
        err_no_term: "Error: cannot enter terminal mode. Please run in a real terminal (not a pipe).",
        err_init_term: "Error: failed to initialize terminal: {}",
    }
}

/// The texts of a language.
pub open spec fn text_of(l: Lang) -> Ui {
    match l {
        Lang::Zh => zh_text(),
        Lang::En => en_text(),
    }
}

/// The text table of language `l`. In English a won game reads "You win!", a
/// lost one "You lose" and a drawn one "Draw" (in Chinese 你赢了！, 你输了
/// and 平局); the game names, the turn texts and the pause menu's lines are
/// those of the table.
pub fn ui(l: Lang) -> (r: Ui)
    ensures
        r == text_of(l),
        l == Lang::En ==> {
            &&& r.you_win@ == "You win!"@
            &&& r.you_lose@ == "You lose"@
            &&& r.draw@ == "Draw"@
            &&& r.game_over@ == "GAME OVER"@
            &&& r.your_turn@ == "Your turn (X)"@
            &&& r.ai_thinking@ == "AI thinking..."@
            &&& r.resume@ == "C / Space / Enter : Resume"@
            &&& r.quit_to_menu@ == "Q / ESC          : Quit to menu"@
            &&& r.game_snake@ == "Snake"@
            &&& r.game_breakout@ == "Breakout"@
            &&& r.game_tetris@ == "Tetris"@
            &&& r.game_plane@ == "Plane Battle"@
            &&& r.game_gomoku@ == "Gomoku"@
        },
        l == Lang::Zh ==> {
            &&& r.you_win@ == "你赢了！"@
            &&& r.you_lose@ == "你输了"@
            &&& r.draw@ == "平局"@
            &&& r.game_over@ == "游戏结束"@
            &&& r.your_turn@ == "轮到你 (X)"@
            &&& r.ai_thinking@ == "AI 思考中..."@
            &&& r.resume@ == "C / 空格 / 回车  : 继续"@
            &&& r.quit_to_menu@ == "Q / ESC          : 返回菜单"@
            &&& r.game_snake@ == "贪吃蛇"@
            &&& r.game_breakout@ == "打砖块"@
            &&& r.game_tetris@ == "俄罗斯方块"@
            &&& r.game_plane@ == "飞机大战"@
            &&& r.game_gomoku@ == "五子棋"@
        },
        r.you_win@ != r.you_lose@,
        r.you_win@ != r.draw@,
        r.you_lose@ != r.draw@,
{
    proof {
        game_results_read_apart(l);
    }
    match l {
        Lang::Zh => Ui {
            title: "◆ 经典游戏合集 ◆",
            subtitle: "CLASSIC GAMES 5-in-1",
            change_user: "设置用户名",
            quit: "退出",
            player_fmt: "玩家: {}",
            no_record: "暂无纪录",
            no_stats: "暂无战绩",
            best_fmt: "最高 {} ({})",
            record_fmt: "胜 {} 负 {}  ({})",
            menu_help1: "↑↓ / HJKL 选择    回车 / 空格 进入    ESC / Q 退出",
            menu_help2: "游戏中: ESC / Q 暂停,  Ctrl+C 随时退出",
            game_snake: "贪吃蛇",
            game_breakout: "打砖块",
            game_tetris: "俄罗斯方块",
            game_plane: "飞机大战",
            game_gomoku: "五子棋",
            desc_snake: "吃食物变长，别撞墙别咬到自己",
            desc_breakout: "接住小球，打碎所有砖块",
            desc_tetris: "消行得分，方块越落越快",
            desc_plane: "移动射击，吃♥医疗包回血",
            desc_gomoku: "五子连珠，人机对战",
            score_fmt: "得分 {}",
            lives_fmt: "生命 {}",
            paused: "已暂停  PAUSED",
            resume: "C / 空格 / 回车  : 继续",
            quit_to_menu: "Q / ESC          : 返回菜单",
            tip_ctrlc: "提示: Ctrl+C 随时退出",
            game_over: "游戏结束",
            score_line_fmt: "本局得分: {}",
            new_record: "★ 新纪录! 最高分 ★",
            rank_fmt: "进入历史第 {} 名",
            you_win: "你赢了！",
            you_lose: "你输了",
            draw: "平局",
            record_line_fmt: "你的战绩: {} 胜 / {} 负",
            leaderboard_fmt: "--- {} 排行榜 ---",
            lb_header_score: "  名次  玩家            分数      时间",
            lb_header_gomoku: "  名次  玩家            胜    负",
            play_again: "[R] 再来一局     [Enter / ESC / Q] 返回菜单",
            set_username: "设置用户名",
            username: "用户名:",
            username_hint: "回车 确定    ESC 取消    (字母/数字/空格/.-_)",
            username_empty: "用户名不能为空",
            snake_title: "贪吃蛇 SNAKE",
            snake_help: "方向键/HJKL 移动   空格 暂停    ESC/Q 菜单",
            snake_paused: "已暂停 (空格继续)",
            breakout_title: "打砖块 BREAKOUT",
            breakout_help_ready: "←→/HL 移动    空格 发球    ♥医疗包+1命    ESC/Q 菜单",
            breakout_help: "←→/HL 移动    ♥医疗包+1命    ESC/Q 菜单",
            tetris_title: "俄罗斯方块",
            tetris_sub: "TETRIS",
            lines_fmt: "行数 {}",
            level_fmt: "等级 {}",
            best_short_fmt: "最高 {}",
            next: "下一个",
            tetris_help: [
                "←→ / HL  左右移动",
                "↑ / K     旋转",
                "↓ / J     加速下落",
                "空格       直落",
                "ESC/Q      暂停",
            ],
            plane_title: "飞机大战 PLANE",
            plane_help: "方向键/HJKL 移动    按住空格 射击    ♥医疗包+1命    ESC/Q 暂停",
            heal_fmt: "♥ 生命 +1",
            life_full: "生命已满",
            gomoku_title: "五子棋 GOMOKU",
            you_first: "你: X (先手)",
            ai_stone: "AI: O",
            stat_fmt: "战绩: {} 胜 / {} 负",
            ai_thinking: "AI 思考中...",
            your_turn: "轮到你 (X)",
            gomoku_help: ["方向键/HJKL 移动", "回车/空格 落子", "ESC/Q 暂停退出"],
            term_title: "Classic Games Collection - 经典游戏合集",
            err_no_term: "错误: 无法进入终端模式，请确认在真实终端（非管道）中运行本程序。",
            err_init_term: "错误: 初始化终端失败: {}",
        },
        Lang::En => Ui {
            title: "◆ Classic Games Collection ◆",
            subtitle: "CLASSIC GAMES 5-in-1",
            change_user: "Change User",
            quit: "Quit",
            player_fmt: "Player: {}",
            no_record: "No records",
            no_stats: "No record",
            best_fmt: "Best {} ({})",
            record_fmt: "W {} L {}  ({})",
            menu_help1: "↑↓ / HJKL select    Enter / Space start    ESC / Q quit",
            menu_help2: "In game: ESC / Q pause,  Ctrl+C quits anytime",
            game_snake: "Snake",
            game_breakout: "Breakout",
            game_tetris: "Tetris",
            game_plane: "Plane Battle",
            game_gomoku: "Gomoku",
            desc_snake: "Eat food to grow; avoid walls and yourself",
            desc_breakout: "Keep the ball up; smash every brick",
            desc_tetris: "Clear lines; pieces fall faster",
            desc_plane: "Move & shoot; grab ♥ to heal",
            desc_gomoku: "Five in a row, play vs the AI",
            score_fmt: "Score {}",
            lives_fmt: "Lives {}",
            paused: "PAUSED",
            resume: "C / Space / Enter : Resume",
            quit_to_menu: "Q / ESC          : Quit to menu",
            tip_ctrlc: "Tip: Ctrl+C quits anytime",
            game_over: "GAME OVER",
            score_line_fmt: "Score: {}",
            new_record: "★ NEW RECORD! BEST SCORE ★",
            rank_fmt: "Ranked #{}, new entry",
            you_win: "You win!",
            you_lose: "You lose",
            draw: "Draw",
            record_line_fmt: "Your record: {} W / {} L",
            leaderboard_fmt: "--- {} Leaderboard ---",
            lb_header_score: "  Rank  Player            Score     Time",
            lb_header_gomoku: "  Rank  Player            W      L",
            play_again: "[R] Play again     [Enter / ESC / Q] Back to menu",
            set_username: "Set Username",
            username: "Username:",
            username_hint: "Enter OK    ESC cancel    (letters/digits/space/.-_)",
            username_empty: "Username cannot be empty",
            snake_title: "SNAKE",
            snake_help: "Arrows/HJKL move    Space pause    ESC/Q menu",
            snake_paused: "Paused (Space to resume)",
            breakout_title: "BREAKOUT",
            breakout_help_ready: "←→/HL move    Space launch    ♥=+1 life    ESC/Q menu",
            breakout_help: "←→/HL move    ♥=+1 life    ESC/Q menu",
            tetris_title: "TETRIS",
            tetris_sub: "",
            lines_fmt: "Lines {}",
            level_fmt: "Level {}",
            best_short_fmt: "Best {}",
            next: "Next",
            tetris_help: [
                "←→ / HL  Move",
                "↑ / K     Rotate",
                "↓ / J     Soft drop",
                "Space     Hard drop",
                "ESC/Q     Pause",
            ],
            plane_title: "PLANE",
            plane_help: "Arrows/HJKL move    Hold Space shoot    ♥=+1 life    ESC/Q pause",
            heal_fmt: "♥ +1 life",
            life_full: "Life full",
            gomoku_title: "GOMOKU",
            you_first: "You: X (first)",
            ai_stone: "AI: O",
            stat_fmt: "Record: {} W / {} L",
            ai_thinking: "AI thinking...",
            your_turn: "Your turn (X)",
            gomoku_help: ["Arrows/HJKL move", "Enter/Space place", "ESC/Q pause & quit"],
            term_title: "Classic Games Collection",
            err_no_term: "Error: cannot enter terminal mode. Please run in a real terminal (not a pipe).",
            err_init_term: "Error: failed to initialize terminal: {}",
        },
    }
}


/// `t` with its `{}` placeholders replaced in order by `args`, starting with
/// `args[i]`; a placeholder with no argument left becomes empty.
pub open spec fn filled(t: Seq<char>, args: Seq<Seq<char>>, i: int) -> Seq<char>
    decreases t.len(),
{
    if t.len() < 2 {
        t
    } else if t[0] == '{' && t[1] == '}' {
        (if 0 <= i < args.len() {
            args[i]
        } else {
            Seq::empty()
        }) + filled(t.skip(2), args, i + 1)
    } else {
        seq![t[0]] + filled(t.skip(1), args, i)
    }
}

/// The number of `{}` placeholders in `t`, counted left to right without
/// overlap.
pub open spec fn placeholders(t: Seq<char>) -> nat
    decreases t.len(),
{
    if t.len() < 2 {
        0
    } else if t[0] == '{' && t[1] == '}' {
        1 + placeholders(t.skip(2))
    } else {
        placeholders(t.skip(1))
    }
}

/// The texts held by `args`.
pub open spec fn texts(args: Seq<String>) -> Seq<Seq<char>> {
    args.map_values(|a: String| a@)
}

/// Fills the `{}` placeholders of `template` in order with `args`; a
/// placeholder beyond the last argument is dropped.
pub fn fmt(template: &str, args: &[String]) -> (r: String)
    ensures
        r@ == filled(template@, texts(args@), 0),
{
    let n = template.unicode_len();
    let mut out = String::new();
    let mut i: usize = 0;
    let mut k: usize = 0;
    proof {
        assert(template@.skip(0) =~= template@);
    }
    while i < n
        invariant
            n == template@.len(),
            i <= n,
            k <= i,
            out@ + filled(template@.skip(i as int), texts(args@), k as int) == filled(template@, texts(args@), 0),
        decreases n - i,
    {
        let ghost rest = template@.skip(i as int);
        let c = template.get_char(i);
        if c == '{' && i + 1 < n && template.get_char(i + 1) == '}' {
            if k < args.len() {
                out.append(args[k].as_str());
            }
            proof {
                assert(rest.skip(2) =~= template@.skip(i + 2));
                assert(out@ + filled(template@.skip(i + 2), texts(args@), k + 1) =~= filled(template@, texts(args@), 0));
            }
            i = i + 2;
            k = k + 1;
        } else {
            push_char(&mut out, c);
            proof {
                if rest.len() >= 2 {
                    assert(rest.skip(1) =~= template@.skip(i + 1));
                } else {
                    assert(rest =~= seq![c]);
                    assert(template@.skip(i + 1).len() == 0);
                }
                assert(out@ + filled(template@.skip(i + 1), texts(args@), k as int) =~= filled(template@, texts(args@), 0));
            }
            i = i + 1;
        }
    }
    proof {
        assert(template@.skip(n as int).len() == 0);
        assert(out@ =~= filled(template@, texts(args@), 0));
    }
    out
}


/// What `str::to_lowercase` gives for a text: its Unicode lowercase form.
pub uninterp spec fn lowercase(s: Seq<char>) -> Seq<char>;

/// The Unicode lowercase form of `s` (`str::to_lowercase`).
#[verifier::external_body]
fn to_lowercase(s: &str) -> (r: String)
    ensures
        r@ == lowercase(s@),
{
    s.to_lowercase()
}

/// `s` contains "zh".
pub open spec fn has_zh(s: Seq<char>) -> bool {
    exists|i: int| 0 <= i < s.len() - 1 && s[i] == 'z' && #[trigger] s[i + 1] == 'h'
}

/// The language a lowercased locale names: Chinese when it contains "zh",
/// English otherwise.
pub fn lang_of_lowercase(low: &str) -> (l: Lang)
    ensures
        l == (if has_zh(low@) { Lang::Zh } else { Lang::En }),
{
    let n = low.unicode_len();
    let mut i: usize = 0;
    while i < n && i + 1 < n
        invariant
            n == low@.len(),
            i <= n,
            forall|j: int| 0 <= j < i && j < n - 1 ==> !(low@[j] == 'z' && #[trigger] low@[j + 1] == 'h'),
        decreases n - i,
    {
        if low.get_char(i) == 'z' && low.get_char(i + 1) == 'h' {
            return Lang::Zh;
        }
        i = i + 1;
    }
    Lang::En
}

/// The language for a `$LANG` value: Chinese when its lowercase form
/// contains "zh" (so case does not matter), English otherwise.
pub fn lang_from_locale(value: &str) -> (l: Lang)
    ensures
        l == (if has_zh(lowercase(value@)) { Lang::Zh } else { Lang::En }),
{
    let low = to_lowercase(value);
    lang_of_lowercase(low.as_str())
}


/// `s` holds no `{}`.
pub open spec fn free_of_placeholders(s: Seq<char>) -> bool {
    forall|j: int| 0 <= j < s.len() - 1 ==> !(#[trigger] s[j] == '{' && s[j + 1] == '}')
}

/// The template made of `pieces` joined by `{}`: `p0 {} p1 {} ... {} pn`.
pub open spec fn template_of(pieces: Seq<Seq<char>>) -> Seq<char>
    decreases pieces.len(),
{
    if pieces.len() == 0 {
        Seq::empty()
    } else if pieces.len() == 1 {
        pieces[0]
    } else {
        pieces[0] + seq!['{', '}'] + template_of(pieces.drop_first())
    }
}

/// `pieces` joined by the arguments from `args[i]` on, one per gap, an
/// argument that is missing standing as empty: `p0 a_i p1 a_(i+1) ... pn`.
pub open spec fn joined(pieces: Seq<Seq<char>>, args: Seq<Seq<char>>, i: int) -> Seq<char>
    decreases pieces.len(),
{
    if pieces.len() == 0 {
        Seq::empty()
    } else if pieces.len() == 1 {
        pieces[0]
    } else {
        pieces[0] + (if 0 <= i < args.len() {
            args[i]
        } else {
            Seq::empty()
        }) + joined(pieces.drop_first(), args, i + 1)
    }
}

proof fn lemma_filled_plain(a: Seq<char>, args: Seq<Seq<char>>, i: int)
    requires
        free_of_placeholders(a),
    ensures
        filled(a, args, i) == a,
    decreases a.len(),
{
    if a.len() >= 2 {
        assert(!(a[0] == '{' && a[1] == '}'));
        lemma_filled_plain(a.skip(1), args, i);
        assert(seq![a[0]] + a.skip(1) =~= a);
    }
}

proof fn lemma_filled_piece(a: Seq<char>, rest: Seq<char>, args: Seq<Seq<char>>, i: int)
    requires
        free_of_placeholders(a),
    ensures
        filled(a + seq!['{', '}'] + rest, args, i) == a + (if 0 <= i < args.len() {
            args[i]
        } else {
            Seq::empty()
        }) + filled(rest, args, i + 1),
    decreases a.len(),
{
    let t = a + seq!['{', '}'] + rest;
    if a.len() == 0 {
        assert(t =~= seq!['{', '}'] + rest);
        assert(t.skip(2) =~= rest);
        assert(a + (if 0 <= i < args.len() { args[i] } else { Seq::empty() }) =~= (if 0 <= i < args.len() {
            args[i]
        } else {
            Seq::empty()
        }));
    } else {
        if a.len() >= 2 {
            assert(!(a[0] == '{' && a[1] == '}'));
        }
        assert(t[0] == a[0]);
        assert(a.len() == 1 ==> t[1] == '{');
        assert(a.len() >= 2 ==> t[1] == a[1]);
        assert(t.skip(1) =~= a.skip(1) + seq!['{', '}'] + rest);
        lemma_filled_piece(a.skip(1), rest, args, i);
        assert(seq![a[0]] + (a.skip(1) + (if 0 <= i < args.len() { args[i] } else { Seq::empty() }) + filled(
            rest,
            args,
            i + 1,
        )) =~= a + (if 0 <= i < args.len() { args[i] } else { Seq::empty() }) + filled(rest, args, i + 1));
    }
}

proof fn lemma_filled_joined(pieces: Seq<Seq<char>>, args: Seq<Seq<char>>, i: int)
    requires
        forall|k: int| 0 <= k < pieces.len() ==> free_of_placeholders(#[trigger] pieces[k]),
    ensures
        filled(template_of(pieces), args, i) == joined(pieces, args, i),
    decreases pieces.len(),
{
    if pieces.len() == 0 {
    } else if pieces.len() == 1 {
        lemma_filled_plain(pieces[0], args, i);
    } else {
        let rest = pieces.drop_first();
        assert forall|k: int| 0 <= k < rest.len() implies free_of_placeholders(#[trigger] rest[k]) by {
            assert(rest[k] == pieces[k + 1]);
        }
        lemma_filled_joined(rest, args, i + 1);
        assert(free_of_placeholders(pieces[0]));
        lemma_filled_piece(pieces[0], template_of(rest), args, i);
    }
}

/// Filling a template `p0 {} p1 {} ... {} pn`, split left to right so that
/// no piece holds `{}`, gives `p0 a0 p1 a1 ... pn`: the i-th placeholder
/// takes the i-th argument, once and in order, a placeholder past the last
/// argument becomes empty, and arguments past the last placeholder are not
/// used.
pub proof fn fmt_fills_placeholders_in_order(pieces: Seq<Seq<char>>, args: Seq<Seq<char>>)
    requires
        forall|k: int| 0 <= k < pieces.len() ==> free_of_placeholders(#[trigger] pieces[k]),
    ensures
        filled(template_of(pieces), args, 0) == joined(pieces, args, 0),
{
    lemma_filled_joined(pieces, args, 0);
}

/// Both languages' templates hold the same number of `{}` placeholders,
/// the number of values their callers fill in (the heal notice has none).
pub proof fn templates_agree(l: Lang)
    ensures
        placeholders(text_of(l).player_fmt@) == 1,
        placeholders(text_of(l).best_fmt@) == 2,
        placeholders(text_of(l).record_fmt@) == 3,
        placeholders(text_of(l).score_fmt@) == 1,
        placeholders(text_of(l).lives_fmt@) == 1,
        placeholders(text_of(l).score_line_fmt@) == 1,
        placeholders(text_of(l).rank_fmt@) == 1,
        placeholders(text_of(l).record_line_fmt@) == 2,
        placeholders(text_of(l).leaderboard_fmt@) == 1,
        placeholders(text_of(l).lines_fmt@) == 1,
        placeholders(text_of(l).level_fmt@) == 1,
        placeholders(text_of(l).best_short_fmt@) == 1,
        placeholders(text_of(l).heal_fmt@) == 0,
        placeholders(text_of(l).stat_fmt@) == 2,
        placeholders(text_of(l).err_init_term@) == 1,
{
    reveal_strlit("玩家: {}");
    reveal_strlit("Player: {}");
    reveal_strlit("最高 {} ({})");
    reveal_strlit("Best {} ({})");
    reveal_strlit("胜 {} 负 {}  ({})");
    reveal_strlit("W {} L {}  ({})");
    reveal_strlit("得分 {}");
    reveal_strlit("Score {}");
    reveal_strlit("生命 {}");
    reveal_strlit("Lives {}");
    reveal_strlit("本局得分: {}");
    reveal_strlit("Score: {}");
    reveal_strlit("进入历史第 {} 名");
    reveal_strlit("Ranked #{}, new entry");
    reveal_strlit("你的战绩: {} 胜 / {} 负");
    reveal_strlit("Your record: {} W / {} L");
    reveal_strlit("--- {} 排行榜 ---");
    reveal_strlit("--- {} Leaderboard ---");
    reveal_strlit("行数 {}");
    reveal_strlit("Lines {}");
    reveal_strlit("等级 {}");
    reveal_strlit("Level {}");
    reveal_strlit("最高 {}");
    reveal_strlit("Best {}");
    reveal_strlit("♥ 生命 +1");
    reveal_strlit("♥ +1 life");
    reveal_strlit("战绩: {} 胜 / {} 负");
    reveal_strlit("Record: {} W / {} L");
    reveal_strlit("错误: 初始化终端失败: {}");
    reveal_strlit("Error: failed to initialize terminal: {}");
    reveal_with_fuel(placeholders, 45);
}

/// A game's three results read apart in either language: the win, loss and
/// draw texts differ from one another, and the English win text is
/// "You win!" and the loss text "You lose".
pub proof fn game_results_read_apart(l: Lang)
    ensures
        text_of(l).you_win@ != text_of(l).you_lose@,
        text_of(l).you_win@ != text_of(l).draw@,
        text_of(l).you_lose@ != text_of(l).draw@,
        text_of(Lang::En).you_win@ == "You win!"@,
        text_of(Lang::En).you_lose@ == "You lose"@,
        text_of(Lang::Zh).you_win@ == "你赢了！"@,
        text_of(Lang::Zh).you_lose@ == "你输了"@,
{
    reveal_strlit("You win!");
    reveal_strlit("You lose");
    reveal_strlit("Draw");
    reveal_strlit("你赢了！");
    reveal_strlit("你输了");
    reveal_strlit("平局");
    assert("You win!"@[4] == 'w' && "You lose"@[4] == 'l');
    assert("你赢了！"@.len() == 4 && "你输了"@.len() == 3 && "平局"@.len() == 2);
    assert("Draw"@.len() == 4 && "You win!"@.len() == 8);
}

} // verus!
