//! The five games: Snake, Breakout, Tetris, Plane Battle and Gomoku.

pub mod breakout;
pub mod gomoku;
pub mod plane;
pub mod snake;
pub mod tetris;

use vstd::prelude::*;

verus! {

/// Whether a game is still being played.
#[derive(Clone, Copy, PartialEq, Eq, Debug, Structural)]
pub enum Status {
    Running,
    Finished,
}

/// The result of a finished game (for scoring and the summary screen).
#[derive(Clone, Copy, PartialEq, Eq, Debug, Structural)]
pub enum GameOutcome {
    /// A scored game's final score.
    Score(u32),
    /// Gomoku: won or lost.
    Gomoku { win: bool },
    /// Gomoku: a draw (not counted).
    GomokuDraw,
    /// Left mid-game (not scored).
    Quit,
}

/// Game identifiers, also the main menu's choices.
#[derive(Clone, Copy, PartialEq, Eq, Debug, Structural)]
pub enum GameId {
    Snake,
    Breakout,
    Tetris,
    Plane,
    Gomoku,
}

/// The games in menu order.
pub open spec fn game_at(i: int) -> GameId {
    if i == 0 {
        GameId::Snake
    } else if i == 1 {
        GameId::Breakout
    } else if i == 2 {
        GameId::Tetris
    } else if i == 3 {
        GameId::Plane
    } else {
        GameId::Gomoku
    }
}

impl GameId {
    /// All games in menu order.
    pub fn all() -> (r: [GameId; 5])
        ensures
            forall|i: int| 0 <= i < 5 ==> #[trigger] r@[i] == game_at(i),
    {
        [GameId::Snake, GameId::Breakout, GameId::Tetris, GameId::Plane, GameId::Gomoku]
    }

    /// The Chinese name's text.
    pub open spec fn name_text(self) -> Seq<char> {
        match self {
            GameId::Snake => "贪吃蛇"@,
            GameId::Breakout => "打砖块"@,
            GameId::Tetris => "俄罗斯方块"@,
            GameId::Plane => "飞机大战"@,
            GameId::Gomoku => "五子棋"@,
        }
    }

    /// The English name's text.
    pub open spec fn name_en_text(self) -> Seq<char> {
        match self {
            GameId::Snake => "Snake"@,
            GameId::Breakout => "Breakout"@,
            GameId::Tetris => "Tetris"@,
            GameId::Plane => "Plane Battle"@,
            GameId::Gomoku => "Gomoku"@,
        }
    }

    /// Chinese name.
    pub fn name(&self) -> (r: &'static str)
        ensures
            r@ == self.name_text(),
    {
        match self {
            GameId::Snake => "贪吃蛇",
            GameId::Breakout => "打砖块",
            GameId::Tetris => "俄罗斯方块",
            GameId::Plane => "飞机大战",
            GameId::Gomoku => "五子棋",
        }
    }

    /// English name.
    pub fn name_en(&self) -> (r: &'static str)
        ensures
            r@ == self.name_en_text(),
    {
        match self {
            GameId::Snake => "Snake",
            GameId::Breakout => "Breakout",
            GameId::Tetris => "Tetris",
            GameId::Plane => "Plane Battle",
            GameId::Gomoku => "Gomoku",
        }
    }

    /// The key of this game's records in the score file.
    pub open spec fn spec_score_key(&self) -> Seq<char> {
        match *self {
            GameId::Snake => "snake"@,
            GameId::Breakout => "breakout"@,
            GameId::Tetris => "tetris"@,
            GameId::Plane => "plane"@,
            GameId::Gomoku => "gomoku"@,
        }
    }

    /// The key of this game's records in the score file.
    pub fn score_key(&self) -> (r: &'static str)
        ensures
            r@ == self.spec_score_key(),
    {
        match self {
            GameId::Snake => "snake",
            GameId::Breakout => "breakout",
            GameId::Tetris => "tetris",
            GameId::Plane => "plane",
            GameId::Gomoku => "gomoku",
        }
    }

    /// One-line description.
    pub fn desc(&self) -> (r: &'static str)
        ensures
            r@ == match *self {
                GameId::Snake => "吃食物变长，别撞墙别咬到自己"@,
                GameId::Breakout => "接住小球，打碎所有砖块"@,
                GameId::Tetris => "消行得分，方块越落越快"@,
                GameId::Plane => "移动射击，躲避敌机"@,
                GameId::Gomoku => "五子连珠，人机对战"@,
            },
    {
        match self {
            GameId::Snake => "吃食物变长，别撞墙别咬到自己",
            GameId::Breakout => "接住小球，打碎所有砖块",
            GameId::Tetris => "消行得分，方块越落越快",
            GameId::Plane => "移动射击，躲避敌机",
            GameId::Gomoku => "五子连珠，人机对战",
        }
    }
}

} // verus!
