# tarqeem_ir

The intermediate representation of the Tarqeem compiler — a three-address
code in SSA form — with its text form and its optimization passes, verified
with Verus.

## Layout

- `src/instruction.rs` — identifiers, types, constants, operators and
  instructions, with their mathematical models.
- `src/program.rs` — basic blocks, functions, classes, the string table and
  modules.
- `src/display.rs`, `src/render.rs`, `src/text.rs` — the text form of the IR.
  Printed IR is a sequence of pieces; a floating-point constant stays a piece
  of its own, holding the bits of the double.
- `src/names.rs` — builder errors, method names, name normalization and enum
  discriminants.
- `src/opt/` — constant folding, dead code elimination, common subexpression
  elimination, inlining, loop analysis and loop passes, and the optimizer that
  runs them by level. Each pass states, over a model of the functions, what it
  produces and what it counts; laws relating the passes stand beside them as
  proof functions.
- `app/` — the floating-point side: writing float constants in decimal, and
  folding operations on two float constants.
- `tests/` — tests of the library.

## What is not here

The builder that lowers the compiler's syntax tree into this IR
(`IrBuilder`, with `new`, `build`, `with_visible_names` and
`build_library`) is not part of this crate: it works on the parser's syntax
tree, the semantic analyser's types and the compiler's error codes, which
live outside this code. Its helpers that need none of them (builder errors
and their messages, method names, name normalization and enum
discriminants) are in `src/names.rs`.
