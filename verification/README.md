# prolyxena

A library for reading, formatting and restructuring Nix configuration files,
verified with Verus, and the `prolyxena` program around it.

- `src/` is the verified library.
  - `value` holds the expression tree and its model. Attribute sets and
    folders are kept in `AttrMap` and `DirMap`, insertion-ordered maps of the
    library's own: Verus refuses the expression type when it recurses through
    a declared `indexmap::IndexMap`, whose parameters must be declared
    non-recursive.
  - `grammar` states the grammar that `lexer` and `parser` read; `format`
    prints expressions.
  - `sort`, `flattening` and `expanded` restructure expressions and state what
    restructuring twice gives; `sort` also states that sorting orders every
    level and only reorders. `inverse` proves, for expressions whose keys are
    single plain names and whose maps hold no empty attribute set, that
    expanding undoes flattening, and that flattening undoes expanding on
    their flattened forms. Neither holds for every expression: flattening
    `{ a.b = 1; c = 2; a.d = 3; }` after expanding it moves `a.d` up to
    `a.b`.
  - `roundtrip` proves that reading a formatted text gives its value back,
    and that formatting after restructuring is idempotent, for *plain*
    values only: attribute sets and `let` blocks with plain keys (quoted
    parts such as `fileSystems."/"` included), lists of at most one element,
    function heads with plain names (also with `name @` before or `@ name`
    after them), one-argument functions such as `x: x`, integers, decimals in
    printed form, booleans, strings without quotes inside whose braces pair
    up (so interpolations such as `${pkgs.hello}` are covered), names and
    paths, groups, `with`, applications, and operators other than `/` in
    their left-nested form. Other values may not read back: a list of two or
    more elements is read as one application, and `x / y` does not read back
    either.
  - Decimals are kept as their literal text: they are compared and printed
    by that text after removing leading and trailing zeros, which agrees with
    `f64` for literals of up to fifteen significant digits. The program
    rewrites each decimal as its `f64` prints before formatting files.
  - `generate` and `query` insert, remove and find values, and a query finds
    what an insertion stored; `vfs` is the tree of folders and files with its
    laws; `write` plans writing a tree back; `tui` is the state of the
    progress display; `commands`, `output` and `parsing` compute what the
    commands print.
- `app/` is the program: the command line, the file system, the terminal
  display, the spinner, and the texts that need floating point or the
  `Debug` form of `IndexMap` (the printed tree and the loading time, which
  the library keeps as the text it is shown as).
- `tests/` runs the library on concrete inputs.
