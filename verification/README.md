# seabun

The front end of seabun, a small and deliberately informal programming
language: a lexer that turns source text into tokens, and a builder that
turns tokens into a primitive syntax tree of declarations.

## Layout

- `src/def.rs`: tokens, expressions and kinds, and `tokenize`.
- `src/lexer.rs`: the token grammar as a specification (one regular rule per
  token kind, longest match, ties to the higher priority) and the laws of
  the token stream.
- `src/scan.rs`, `src/select.rs`, `src/error_span.rs`: the executable
  matcher: the longest match of each rule, the winning rule, and the extent
  of an error token.
- `src/unicode.rs`, `src/text.rs`, `src/literals.rs`: character classes,
  UTF-8 byte offsets, and the integer and decimal syntaxes.
- `src/aster.rs`, `src/aster/helper/`: the syntax-tree builder, its errors,
  and the reading of single values.
- `src/eco.rs`, `src/unescape.rs`, and `word_character` in `src/unicode.rs`:
  the contracts assumed of the `ecow` and `unescaper` crates and of
  `regex-syntax`'s word-character class (`\w`).
- `app/`: the command-line program, which reads a file, prints the tree and
  reports errors.
