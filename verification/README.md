# llm_nn

The layers of a small transformer, forward and backward, with what they compute
stated and proved in Verus: attention, embedding, layer normalisation, linear
maps, and the cross entropy of a softmax.

- `src/scalar.rs` is the arithmetic that the layers are written in. `src/term.rs`
  is one such arithmetic: it writes the operations down instead of carrying them
  out.
- `src/tensor.rs` and `src/vector.rs` hold tensors and the operations on rows.
  `src/digit.rs` ties them to the digit layouts of the `digit-layout` crate.
- `src/nn/` holds the layers. Each has a forward and a backward kernel on tensors
  and a struct that runs them in a context. The laws of attention stand in
  `src/nn/attention/laws.rs` and `src/nn/attention/gradients.rs`.
- `src/exact.rs` is arithmetic without rounding. `src/nn/layer_norm_laws.rs`,
  `src/nn/linear_laws.rs`, `src/nn/loss_laws.rs` and `src/nn/attention/reals.rs`
  state what holds of the layers over the reals.
- `src/context.rs` is the context: the path in the model, the shared weights, their
  gradients, and the times of the layers. `src/state.rs` is what it holds, as a
  mathematical value, with the laws of its operations. `src/optimizer.rs` is what
  changes the weights.
- `app/` runs the layers on single precision numbers, with the matrix products of
  the `gemm` crate, and prints the times.
- `tests/` runs the layers on terms and on single precision numbers.
