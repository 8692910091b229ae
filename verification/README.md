# sparse_maxscore

Block-max MaxScore retrieval over sparse vectors: a library written in Verus,
with proofs of what its functions return.

- `src/` holds the decisions: which documents stay in the top-k set, which terms
  are essential in a window, which candidates can be dropped, which blocks have
  to be loaded, how updates change a stored posting list. `exactness.rs` states
  why pruning loses nothing, `run.rs` that a whole query returns the best `k` by
  exact sum, `storage.rs` that a commit is read back.
- `app/` is the asynchronous index around it. It talks to a block store through
  the traits in `app/ports.rs` and does the `f32` arithmetic.
- `tests/` runs the library on concrete values.

Weights are kept as IEEE 754 bit patterns. The library compares them exactly and
never adds or multiplies; sums and products are handed in. The laws about queries
therefore say what they need of the sums: scores summed exactly, and bounds and
cutoffs that err on the safe side if at all.

Pending updates live in `dashmap` maps. What is taken on trust of that crate is
stated in `src/delta.rs`.
