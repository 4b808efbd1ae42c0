# minilang

A small Rust-like language — `i32`, `bool` and `()`, functions, `let`,
`while`, `if`/`else` as expressions, `return` — with every stage of its
implementation verified by Verus.

## Layout

- `src/lexer.rs` — source text to tokens with spans, plus every lexical
  error; `lex_classified` is proved equal to `lex_with`, a definition of
  the token stream over the source's characters and their alphabetic and
  alphanumeric flags, and `lex` supplies the flags from `std`.
- `src/bridge.rs` — the lexer's tokens to the parser's, refusing what the
  grammar does not support.
- `src/parser.rs` — recursive-descent parser; each parsing function is
  proved against a grammar written as spec functions over the token
  sequence.
- `src/typechecker.rs` — two-pass type checker, proved against typing rules
  over the program's view.
- `src/semantics.rs` — a fuel-indexed big-step semantics; `src/interpreter.rs`
  is proved to compute it, and `src/rules.rs` states its rules one by one
  (literals, checked arithmetic, division, lookup, `let`, calls, `main`).
- `src/pipeline.rs` — lex, bridge, parse and check in one call.
- `src/soundness.rs`, `src/fuel.rs`, `src/scoping.rs` — laws of the
  semantics: a program the checker accepts never gets stuck; more fuel
  never changes a finished run; only `let` binds names, and a block drops
  what it declared.
- `app/main.rs` — the command-line runner (file I/O and printing).

