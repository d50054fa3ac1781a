# Kyde

The core of a git client and code editor, written and verified in Verus, and a command line over
it.

- `src/` is the library. Every function states what it returns or changes, and Verus proves it.
  - `text`, `path`, `buffer`, `collections`, `pathset`, `model`: texts, paths, lines, sets.
  - `highlight`, `runs`, `folds`: languages, colored spans, folding.
  - `editor`, `keys`, `layout`, `paint`: editing and undo, keys, display rows, frames.
  - `diff`, `diffpane`: line and word diffs, and the two panes that show them.
  - `git`, `porcelain`: git operations and what git prints. An operation is a function of the
    replies to its commands so far; it asks for the next command or is done.
  - `markdown`, `mdview`: the Markdown preview.
  - `changes`, `operations`, `workspace`, `finder`, `find`, `history`, `terminals`, `dirlist`,
    `overlays`, `clipboard`, `keymap`, `plugins`: the parts of the program's state.
  - `controller`, `actions`: the program as a whole.
- `app/` runs git, reads and writes files, fetches images, and measures in pixels.
- `tests/` runs the library on concrete values.

What the library takes from other crates stands behind functions whose contracts are not proved.
Each of them says in its comment what it claims.
