# lox

A scanner, parser and tree-walking interpreter for a small Lox dialect
(`let`, `print`, `if`/`else`, `while`, blocks, assignment, arithmetic,
comparison, strings and booleans), with its behaviour stated as spec
functions and proved.

- `src/token.rs`: tokens and their models.
- `src/lexer.rs`: the lexical grammar as spec functions, and the scanner
  proved to produce exactly the tokens and errors it describes.
- `src/ast.rs`: expressions and statements, and their models.
- `src/parser.rs`: the grammar as spec functions, and the recursive-descent
  parser proved to produce exactly the tree or error it describes.
- `src/interpreter.rs`: scopes, the evaluation and execution semantics, laws
  about them, and the interpreter proved to follow them. Numbers come from a
  number domain given as functions; `app/` runs programs over `f64`.
- `app/main.rs`: runs a program: scans, parses and interprets it, printing
  diagnostics and the values the program prints.
