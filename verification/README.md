# kwark

A modal terminal text editor with a small embedded scripting language,
kaon. The logic lives in a library verified with Verus; the terminal, file
and evaluation plumbing lives in `app/`.

## Layout

- `src/` — the verified library
  - `text`, `spanned`, `token`, `value`, `error`, `expr`: the data of kaon
    and how it is shown
  - `lex`: source text to tokens, stated exactly over the characters
  - `parse` and `parse/model`: tokens to a syntax tree with error recovery;
    the model states what every step of the parser produces
  - `op_registry`, `engine`, `scope`: operators, argument checks and
    binding, integer arithmetic and comparisons, and nested variable frames
  - `autocomplete`: diagnostics, completions and highlighting of a line
  - `ropes`, `buffer`, `cursor`, `buffer_list`: text buffers kept in a
    `ropey::Rope`, with versions, undo and redo, multiple cursors, and the
    list of open buffers
  - `input`: key chords, their parsing and display (and that a written
    chord parses back), the chord trees of the modes and the stepping
    through them
  - `registration`: what a kaon module declares for registration, read
    from its items as plain values
- `tests/` — tests run against the compiled library
- `app/` — the editor program: terminal loop, file reading, the kaon
  evaluator with its native functions, and the key bindings

## Maps kept as vectors

The operator table, the variable frames, the modes of the input state and
the open buffers are maps keyed by strings. They are kept as vectors of
pairs, searched from the front, with the keys kept distinct by every
insertion: Verus can prove what a `HashMap` does only for keys whose hashing
and equality it models (integers, `bool` and boxes of them), and a `String`
key is not among them.
