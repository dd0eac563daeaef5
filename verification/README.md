# sudoku_tui

A terminal Sudoku game. The library under `src/` holds the game's logic, verified
with Verus:

- `grid`: the board as a mathematical object (cells, rows, columns, boxes,
  candidates, solutions);
- `search`: the depth-first search over candidates and its relation to the
  solutions of a board;
- `logic`: the deductive solver (naked and hidden singles) and why it never
  rules out a solution;
- `sudoku`: the board in play, its moves, hints, solvers and the puzzle
  generator;
- `random`: the random choices, drawn from `rand`;
- `app`: the game session and what each key does.

`app/` is the terminal front end (ratatui and crossterm): it draws the board,
reads keys and the clock, and hands them to the session.
