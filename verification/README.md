# mines_core

The core of a Minesweeper game whose generated boards are meant to be solved
without guessing, written in Verus: the library is verified by Verus, and
all but a few helpers carry a contract that it proves. When generation
succeeds, the finished board is proved reached from its opening by forced
moves alone, and the number of perturbations it returns is the number of
failed rounds before it; generation gives up only once its maximum number of
perturbations is spent.

## Layout

- `src/state/` – cells, the grid and the board (`grid.rs`), with opening,
  flagging, resetting and counting; `render.rs` renders boards and
  constraints as text.
- `src/solver/` – the deduction solver: constraints built from open cells
  (`mod.rs`), the sets of cells and mines they speak of (`sets.rs`), the
  layouts of mines that fit what a board shows and the moves they all force
  (`deduce.rs`), and the solver itself (`st.rs`): single constraints,
  overlapping pairs, and the global count of mines. Every move the solver
  makes is proved forced by what the board shows, in every layout that fits
  it, never read off the mines themselves.
- `src/generator.rs` – the generator: a random board is solved, and wherever
  the solver gets stuck the mines around the stuck part are moved, until the
  solver gets through or the maximum number of perturbations is spent.
- `src/game.rs` – the rules of play on a generated board: opening, flagging,
  chording, winning and losing, and the events a move raises.
- `src/random.rs` – the calls into `rand`, each with the contract the crate's
  documentation gives it.
- `app/` – the Godot extension (`MinesCore` node and a logger) and a console
  run; it converts values and emits signals, and leaves every rule to the
  library.
- `tests/` – scenarios for each part.
