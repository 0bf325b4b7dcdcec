# bombicat

A cat-finding puzzle game (a minesweeper variant) whose game logic is written in
Verus and proved against its contracts.

## Layout

- `src/` — the verified library
  - `grid.rs`: board geometry, neighbourhoods and counting over cells
  - `solver.rs`: the no-guess solver (flood reveal, local and global deduction
    rules) and its proof that it answers exactly "can logic alone clear this board"
  - `symmetry.rs`: the proof that the solver's answer is the same on the board
    with rows and columns swapped, or mirrored left to right or top to bottom
  - `model.rs`: cells, the board model, random cat placement and candidate boards
  - `game.rs`: the game state machine (clicks, chords, flood opening, win/loss)
  - `editor.rs`: the grid editor and its file representation
  - `settings.rs`, `scores.rs`: difficulty levels and score records
  - `text.rs`: decimal text of numbers and its parsing
  - `ui.rs`: decisions behind the display (face, cell looks, status and LCD text)
- `tests/` — tests of the library on concrete values
- `app/` — the program around the library: window and drawing (egui), files,
  the score database, and parallel board generation
