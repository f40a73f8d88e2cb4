# rico32

The logic of RICO-32, a fantasy console with a Lua code editor, a command
terminal and cartridges of sprites and scripts, written in Verus and proved
against its contracts.

## Layout

- `src/` — the verified library.
  - `text.rs`: text as lines of characters; inserting, deleting and reading
    ranges, with the lemmas that tie them to the joined text.
  - `history.rs`: per-file undo and redo stacks.
  - `editor.rs`: the code editor (`IDEEngine`): typing, movement and editing
    keys, shortcuts (copy, cut, paste, undo, redo, select all, save),
    scrolling; every command is specified by a function on `EditorView`.
    Columns count characters.
  - `laws.rs`: what undo, redo, cut, copy and the log promise across calls.
  - `files.rs`: the editor's record of the scripts' folder and how it follows
    a listing of that folder.
  - `render.rs`: the editor's and the terminal's screens as lists of drawing
    steps, and the clicks on the editor's file list.
  - `highlight.rs`: Lua syntax highlighting with the `regex` crate.
  - `terminal.rs`: the command terminal (`TerminalEngine`), its commands and
    its log. Its cursor is a byte offset into the typed line's UTF-8 text;
    typing or deleting where that offset falls inside a character fails.
  - `console.rs`: cartridges, help texts and what the console does with the
    terminal's commands.
  - `cartridge.rs`: cartridge files (gzip through `flate2`, base64 text
    through `base64`) and cartridges carried by exported executables.
  - `input.rs`, `screen.rs`, `watch.rs`: keyboard and mouse state, where
    input goes, pixel scaling into the window buffer, and which file changes
    call for saving the scripts.
- `tests/` — tests of the library on concrete values.
- `app/` — the program around the library: cartridge files on disk (with
  `bincode`), the scripts' folder (`walkdir`), the folder watcher (`notify`,
  `notify-debouncer-mini`), and a console session on standard input.
