# wipple_compiler

A verified core of the front end of the Wipple compiler, written in Verus.

- `src/syntax/` — the syntax tree: ranges, tokens, types, patterns,
  expressions, statements.
- `src/trace.rs`, `src/lines.rs`, `src/source.rs`, `src/text.rs` — node
  identities, spans and facts; line and column lookup; the source text and
  comments shown for a node; decimal and quoted text.
- `src/typecheck/` — types and constraints (`constraints`), the constraints
  each kind of node produces (`nodes`), typed node identities (`id`), the
  union-find table (`unify`), the solver (`checker`), the resulting groups
  (`groups`), how types read (`display`) and a Mermaid flowchart of the
  groups and facts (`debug`).
- `app/` — what stays outside the verified library: serializable copies of
  library types, and providers built from closures.
- `tests/` — tests of the library on concrete values.

The library is verified with Verus; the tests run as ordinary Rust.
