# terp

Tokenizers and an interpolation parser for a small template language, verified with Verus.

- `src/interp.rs`: the `%{ ... }%` format. `parse_interp` turns a format into nodes,
  `interpolate` evaluates them with a caller's interpolator. The scan is specified as a
  step function (`interp_step`, `spec_parse_interp`); the proofs show that a successful
  parse gives well-nested nodes, with no empty raw text, that print back to the format,
  and that an interpolator writing each key back between `%{` and `}%` rebuilds a format
  without escapes. `node_rows` lays the nodes out for printing.
- `src/algo.rs` and `src/fancy.rs`: two tokenizers for text with escapes, bracketed groups
  and the symbols `@ # $ %`. Each is specified by a step function, runs through the
  generic driver `parse` (`src/driver.rs`), and is proved to give back the source, with
  escapes replaced, when its tokens are written out by `render_tokens`.
  `fancy::fancy_parse_panics` tells, before the call, whether the symbol tokenizer would
  panic on a source (only inside a non-ASCII character); on every other source it succeeds
  exactly when its escapes are known and its brackets balance.
- `src/bracket.rs`: bracket styles, groups and tokenizer errors.
- `src/util.rs`: hex digits (with `byteset`), escape sequences, and checked sub-slicing.
- `src/token.rs`: the data types of the template language.
- `app/`: a sample program, the visitor traits whose default methods call each other,
  and the error types with their messages (`thiserror`).
