# lexica

Compiler passes of Lexica, a reversible programming language, with their
behaviour stated in contracts and proved with Verus.

## Layout

- `src/source.rs` – spans, spanned nodes, and decimal text.
- `src/node.rs` – the syntax tree and the names, operators, sizes and types
  that the passes share.
- `src/table.rs` – the `hashbrown` maps and sets that the passes keep their
  scopes in, each operation with the contract of the call it makes.
- `src/basic/` – the graph of basic nodes that a function is lowered to, the
  context that builds it (components, joins, scopes, inversion, flattening),
  and the blocks, branches, items and statements it is made of.
- `src/compiler/exposition/` – the passes over the syntax tree: adding the
  counters that reversal needs (`ReverseExposition`), and giving each
  variable use the generation of its binding while checking that it is bound
  and not dropped (`VariableExposition`).
- `src/compiler/direct/` – the direct translator: a small tree of statements
  (bindings, additions, swaps, drops, loops) translated straight to
  instructions, each element stated exactly.
- `src/compiler/translation/` – the translation to the instructions of the
  target machine: elements and their text, labels, locals, evaluations,
  operations, calls, conditionals, loops, function frames, and the map from
  output lines back to source spans.
- `tests/` – tests on concrete values for the passes and the laws.

## What is not here, and why

The sources this library follows are fragments of several generations of the
compiler, and some parts cannot be carried because what they are written
against is absent or does not agree with the rest:

- Lowering expressions to basic nodes (`basic`, `conditional`, `termination`,
  the patterns, and the lowering of a whole function): written against a
  syntax tree held in an arena of expression keys, with patterns, ascriptions,
  method calls, structure literals and a table of inferred types, none of
  which is present. They also use statements, compounds and projections
  (function calls, unary operations, dereferences) that the basic nodes here
  do not have, and call each other with arguments in an order that does not
  match. The operations they are built from are in `src/basic/context.rs`.
- The older lowering (`compiler/lowering`) and the translator of basic
  functions (`translation/translator.rs` and the files beside it): written
  against an earlier form of the basic nodes (blocks with assignments,
  conditional branches and expressions as values) that is absent.
- Type inference: it works on data types that the tree here does not carry,
  and names its types with `polytype` over the language's identifiers, which
  needs an implementation of `polytype`'s `Name` trait for a type of this
  library; the rules of this project allow no such implementation.
- In the translation helpers: `when_entry`, `when_reverse_entry`,
  `loop_start_condition`, `loop_end_condition` and the assignments by
  mutation need `polarize` and `compose`; `function_drops` needs a
  `drop_frame`; `function_parameters`, `structure_primitives` and
  `function_call_value` need parsing of sizes from data types and the store of
  intrinsics. None of these is present.
- Accessors and plain assignment in the syntax tree: the two exposition passes
  are written against trees that differ here (the variable pass has no arm for
  either), and the tree follows what both share.
