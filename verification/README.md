# resharp

A regex engine with the RE# extensions — conjunction (`&`), negation (`~`) and
the universal wildcard (`_`) — written in Verus. Verus verifies the library's
functions against their contracts; two small trusted wrappers around std
string operations (`String::push` and slicing a `str`) are believed, not
proved.

## Layout

- `src/syntax.rs`: syntax kinds, parsing options, and the concrete syntax tree
  (a pre-order list of start, token and finish events). The tree is held as
  plain values built and walked by verified code: the parser's contract and
  the conversion speak of its events, which a tree library's opaque nodes
  would hide from Verus.
- `src/parser.rs`: the grammar as spec functions, and the parser proved to
  follow it; `src/parse_bounds.rs`: every parse error points into the pattern.
- `src/convert.rs`: the syntax tree to the IR.
- `src/node.rs`, `src/flags.rs`, `src/solver.rs`: the IR arena with its
  well-formedness, node flags, and character set solvers.
- `src/builder.rs`: the normalizing builder and its algebraic laws.
- `src/derivative.rs`: nullability and Brzozowski derivatives.
- `src/semantics.rs`, `src/builder_lang.rs`, `src/derivative_lang.rs`: the
  languages of nodes over words of classes (a singleton matches the classes
  its set contains), the languages the builder's operations produce, and the
  derivative law `L(D_c(R)) = { w | c·w ∈ L(R) }`. The law is proved for
  every node without anchors or lookarounds and for letters that each set
  of the arena holds whole or not at all (as minterms are), wherever none of
  the normalizations that can change a language is applied: merging loops
  in a union across a gap in their iteration counts, flattening a loop over
  a loop across such a gap, and reading the placeholder set that `.` holds
  in a union or intersection.
- `src/printer.rs`: the pretty printer.
- `src/regex.rs`: compiled patterns, derivative-based match search, and the
  order of the matches it reports.
- `app/`: copies of the error types with `Display` and `std::error::Error`.
- `tests/`: tests of the library on concrete values.
