# neoscim

A terminal spreadsheet with vi-like keys. The sheet, its file format and
the key handling form a library whose behaviour is stated in `requires` /
`ensures` contracts and proved with Verus; a thin program around it reads
the keyboard, draws the screen, evaluates formulas and touches the disk.

## Layout

- `src/` — the verified library
  - `text.rs`: character-level helpers (decimal numbers, splitting, replacing)
  - `refs.rs`: cell references such as `B7` or `$A$0`, column letters
  - `csv.rs`: reading CSV lines and sheet files, escaping fields
  - `cell.rs`: cell contents, reference translation in formulas, colors,
    formatting rules and their one-line form
  - `grid.rs`: the sheet with its history, inserting rows and columns,
    transactions and undo, saving as CSV text
  - `clipboard.rs`: copying and pasting blocks, paste momentum
  - `vars.rs`: `:set` variables and marks
  - `screen.rs`: the window onto the sheet and scrolling
  - `squares.rs`: what each square of the window shows and where
  - `message.rs`, `mode.rs`: the status message, modes and line editor
  - `session.rs`: key and command handling, as a step from state and key
    to new state and an effect for the program to carry out
- `app/` — the program: terminal events, drawing with `ratatui`, formula
  evaluation with `evalexpr`, files and the plotting program
- `tests/` — tests of the library

The library states laws as public proof functions, among them: a cell
reference renders and parses back to itself; a line of plain fields reads
back as those fields; a formatting rule's one-line form reads back as the
rule; undo restores the sheet as it was before the last transaction; and a
sheet of plain text saved as CSV reads back cell by cell.
