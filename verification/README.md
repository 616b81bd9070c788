# readback

Readback of interaction nets into lambda terms, verified with Verus.

A net is walked from its root, and each port that is entered says what is read there: a lambda,
an application, a variable, a pair, a number and so on. There are two readbacks.

- `non_linear::net_to_term_non_linear` resolves duplications and superpositions where it can. A
  superposition below a duplication with the same label decays to the side from which the
  duplication was entered, and pairs are taken apart by a `let`.
- `linear::net_to_term_linear` keeps duplications and superpositions as terms of the interaction
  calculus. It reads no port twice, so it ends on every net, and it reports whether all binders
  that it met were read.

Both inline definitions that were generated by the compiler and give their binders fresh names,
and both say whether the term is a faithful account of the net.

## Layout

- `src/name.rs`, `src/op.rs`, `src/term.rs`, `src/net.rs`, `src/book.rs`: the data.
- `src/fix_names.rs`: fresh names, and the inlining of generated definitions.
- `src/ports.rs`, `src/state.rs`: what the readers remember.
- `src/reading.rs`: what the readbacks share.
- `src/non_linear.rs`, `src/linear.rs`: the readbacks, each with the function `read` that says
  what a port reads as.
- `src/laws/`: what holds of the readbacks as a whole.
  - `termination`, `readability`: which nets have a readback.
  - `naming`, `renaming`, `refreshing`: how variables are named.
  - `uniqueness`, `variables`, `single_use`: how variables are bound and used.
  - `faithfulness`, `bindings`, `validity`: a valid term depicts the net, and when it is valid.
  - `shape`, `outline`: which terms come out.
  - `agreement`, `labels`: where readbacks give the same.
- `tests/`: examples.
