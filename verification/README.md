# juan

A small toolchain for the Juan scripting language, written in Verus: each
stage carries a machine-checked contract.

- `src/span.rs` — byte ranges packed into a `u32` (20-bit start, 12-bit length).
- `src/text.rs` — facts about UTF-8 character boundaries.
- `src/tokens.rs`, `src/lexer.rs` — tokens and the lexer, specified by the
  function `lex`, which says which token is read at each position.
- `src/ast.rs` — the syntax tree, stored in a `la_arena` arena.
- `src/parser_spec.rs`, `src/parser.rs` — the parser and the functional
  description of what it yields on every input, including the inputs it
  refuses and those beyond its limits; the tree it builds is a forest whose
  spans nest and whose operators group as precedence and parentheses say.
- `src/bytecode.rs`, `src/chunk_table.rs` — the instruction set, chunks of
  encoded instructions, and a table of named chunks.
- `src/semantics.rs` — the value of an expression and the code it compiles
  to, with the proof that running the code gives the value.
- `src/compiler.rs` — the compiler from parsed modules to chunks.
- `src/value.rs`, `src/vm.rs` — run-time values and the stack machine,
  specified instruction by instruction.
- `app/` — the command-line program: reads `samples/math.juan`, writes the
  compiled chunks under `.jbin/`, runs the `math` chunk and prints its stack.
- `tests/` — tests of each stage and of the whole pipeline.
