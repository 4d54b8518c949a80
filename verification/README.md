# troll_bot

A bot for a two-player troll farming game, written in Verus. Each turn the bot reads the
stocks, the trees and the trolls, gives every troll of its own an objective according to the
phase of the game, and answers one line of commands (`MOVE`, `HARVEST`, `DROP`, `CHOP`,
`MINE`, `PICK`, `PLANT`, `TRAIN`, or `WAIT`).

## Layout

- `src/` — the verified library.
  - `parse`, `text`, `input`, `mapread`: reading the input lines and the map, and writing
    numbers into commands.
  - `fruit`, `troll`, `grid`, `board`, `census`: the game's things and the board.
  - `inventory`, `tactics`, `behaviour`: what a troll can do, and what each role does.
  - `planning`, `strategy`, `round`: the objectives the strategies hand out, and a turn.
  - `guard`: the bounds within which a turn is played, checked at run time.
  - `astar`: a best-first search on the open plane.
  - `util`, `consts`: shared definitions.
  - `laws`: properties that relate several functions.
- `tests/` — tests of the library on concrete values.
- `app/` — the program: reads standard input, calls the library, prints the answers.
