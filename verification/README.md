# Classic Games Collection

Five terminal games in one program — Snake, Breakout, Tetris, Plane Battle
and Gomoku — with a Chinese/English interface (chosen from `$LANG`),
XTerm256 colors, and per-game leaderboards saved in
`~/.classic-games-collection/scores.json`. Snake, Breakout and Tetris draw
each cell two columns wide, so cells are square. In Breakout and Plane
Battle a falling `♥` health pack gives back a life.

The game rules, scoring, leaderboards, key handling, text tables and the
screen drawing are a library proved with Verus. The contracts state the
rules, scores and leaderboards in full; of the screens they state the main
parts (the game fields, the panels' texts, the menu's rows and the
summary), centred and cut off at the canvas's edges on small terminals,
and that drawing stays inside the canvas; the program around it reads the
terminal, keeps the clocks and the floating-point motion of Breakout and
Plane Battle, and saves the scores.

## Layout

- `src/` — the verified library
  - `canvas.rs` — the character frame buffer and its diff flush to ANSI
    escape sequences
  - `text.rs`, `lang.rs` — string helpers, the two text tables and `{}`
    templates
  - `input.rs` — keys to actions
  - `score.rs` — leaderboards, Gomoku records, timestamps
  - `menu.rs`, `flow.rs` — the main menu, pause, summary and user-name
    screens
  - `games/` — Snake, Breakout (wall, score, lives), Tetris, Plane Battle
    (controls, lives, score) and Gomoku with its AI
- `tests/` — tests of the library
- `app/` — the terminal program: event loop, game clocks, the score file

## Keys

Arrows or `H J K L` move, `Space`/`Enter` confirm, `ESC`/`Q` pause or go
back, `C` resumes, `R` plays again on the summary screen, `Ctrl+C` quits.
