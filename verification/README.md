# cc_core

The rules of a grid puzzle of coloured cubes, written in Verus and proved against
their contracts.

- `common`: points, the eight neighbours of a cell and their bit sets, a union-find
  forest, and tables of races for the cells that several cubes want.
- `model`: cube colours and movements, lookups of occupied cells, conflicts, disjoint
  sets and successors, motions (lists of moves, teams of motions), outlines of cubes,
  and a collection of cubes that links groups of cubes, packs them and takes a turn
  (`Collection::transform`), with a per-turn view of its cubes.
- `refactor`: the same board in another shape: frozen areas, outlines, arenas of
  colours, the rules that stop moving cubes and link the stopped groups of one colour
  (`Collection::perform_stopping`), and those that let touching cubes absorb each other
  (`Collection::absorb`).
- `rule`: frozen cells, items and snapshots of a board and what changed between two.
- `game`: the level format (a map drawn in characters plus commands) and its reader,
  lookups keyed by points, groups of cells with their neighbours, which corners a cell's
  outline draws, and the behaviours that tell a cube where to go each turn.
- `seed`: a level as plain values.

`app/` is a small program that reads level files written in TOML and prints what they
hold.
