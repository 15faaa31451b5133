# snake_tui

A snake game for the terminal. The library (`src/`) holds the game's logic
beside the snake itself, verified with Verus:

- `highscore` — the board of the ten best scores: which score earns a spot,
  and how a submitted entry is ranked (a stable sort by descending score, cut
  to ten), with proofs that the board stays ordered and bounded and that a
  score qualifies exactly when its entry is kept.
- `style` — the `--color` option: named colors, `rainbow`, `party` and
  hyphen-joined gradients, ignoring case and surrounding white space.
- `text` — trimming, comparing and splitting strings by characters.
- `tui` — a renderer that clips drawing to the terminal and queues it, and
  windows that draw relative to their corner (borders, centered text).
- `menus` — the text screens: main menu, game over, name entry, score board.
- `session` — the game loop's decisions: key handling, buffered turns, name
  entry, and when each screen shows.

`app/` is the program around it: command line, keyboard, clock, the score
file, colors computed in floating point, and writing to the terminal.
