# revset

A small language that selects commits of a repository, with its parser, its
symbol resolution and its evaluation proved in Verus.

- `src/grammar.rs`, `src/expression.rs`: the grammar, and how a text becomes an
  expression.
- `src/resolve.rs`, `src/hexadecimal.rs`: what a symbol stands for.
- `src/revset.rs`: what an expression stands for.
- `src/graph.rs`, `src/positions.rs`, `src/index.rs`, `src/commit.rs`,
  `src/repo.rs`, `src/text.rs`: the data that these work on.
- `src/syntax_properties.rs`, `src/parsed_properties.rs`,
  `src/resolution_properties.rs`, `src/evaluation_properties.rs`: what holds of
  every text, every outcome of parsing, every symbol and every evaluation.
  `src/locality.rs` has the lemmas on the grammar that the first of these needs.
- `app/`: the errors as `std::error::Error`, and calls that test what the library
  asks of its callers.

What is taken on trust is the contract of `hex::decode`, in
`src/hexadecimal.rs`.
