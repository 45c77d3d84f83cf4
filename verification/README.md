# Front end of a small toy language, verified with Verus

The library reads the UTF-8 bytes of a program, splits them into tokens,
parses the tokens into arenas of expressions, statements, top-level items
and type annotations, and checks the types of the program.

- `src/lexer.rs`: tokens and the lexer; `lex` says, as a function on bytes,
  what `tokenize` gives.
- `src/ast.rs`: the parsed program and the interner of identifiers.
- `src/grammar.rs`: what the parser builds, written as functions on a parser
  state (`p_program` for a whole program).
- `src/parser.rs`: the parser; `parse` gives the arenas and the errors that
  `p_program` gives.
- `src/typecheck.rs`: types, the pool of types, scoped bindings and the
  checker; `toplvl_s` says what `check` gives.
- `app/`: the command-line program, which reads a file and prints what the
  library reports.
- `tests/`: scenarios run against the compiled library.
