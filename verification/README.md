# sisyphus

A Sokoban solver whose search logic is proved correct with Verus.

The solver runs a forward search by pushes from the start and a reverse
search by pulls from the goals, both best-first on a heuristic estimate, and
stops where they meet. It prunes with dead squares, frozen boxes and
PI-corrals, and hashes positions with Zobrist keys drawn from a seeded
generator.

## Layout

- `src/` is the verified library.
  - `bits`, `moves`, `plist`: bit sets of boxes and squares, moves, and
    fixed-capacity position lists.
  - `text`, `board`, `game`, `levels`: reading levels in the XSB format, the
    board and the game state, pushes and pulls, and the squares the player
    reaches.
  - `reach`, `relaxed`, `heuristic`, `hungarian`, `sort`: distance tables and
    the heuristics that estimate the pushes left (simple, greedy, and the
    Hungarian assignment).
  - `deadlocks`, `corral`: frozen boxes and PI-corral pruning, with the search
    of a corral's pushes.
  - `zobrist`, `pqueue`, `solver`: position keys, the open list, and the
    bidirectional search and the replay of its solution.
- `app/main.rs` is the command-line program: argument handling, reading the
  level file and printing.
- `tests/` holds the tests of the library.

## Usage

```
sisyphus [OPTIONS] <FILE> <LEVEL> [LEVEL_END]
```

Options select the heuristic (`-H simple|greedy|hungarian|null`), the search
direction (`-d forward|reverse|bidirectional`), the node limit (`-n`), turn
off freeze deadlocks, dead squares or PI-corrals, limit the nodes of a corral
search, print the solution (`-p`) or trace a range of node counts (`-t`).
