# CodeAtlas

CodeAtlas builds an evidence-backed model of a Rust or Python repository: it scans
and parses the sources, gives every file, symbol and relation a stable identity,
checks that the claims of an answer are supported by evidence, draws diagrams as
self-contained SVG documents, and keeps the state of a workspace in which questions
are asked and answers are read.

## Layout

- `src/` is the verified library. Everything that is decided or computed stands
  there, with its contract; `src/lib.rs` lists the modules. Functions named `law_...`
  state what holds of the library as a whole.
- `tests/` runs the library on concrete values.
- `app/` is ordinary Rust around the library: walking directories, the cache on disk,
  JSON documents, the asynchronous interface of tools and the native window.

## What is taken on trust

The library calls a few functions that are not verified themselves: the SHA-256 of
`sha2`, the parsers of `tree-sitter` with the grammars for Rust and Python, and some
functions of the standard library on strings and characters. Each such call stands
behind a function with a contract in `src/digest.rs`, `src/syntax.rs` or
`src/text.rs`, whose comment says what is claimed.
