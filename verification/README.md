# expander_coder

A recursive, systematic, expander-style linear code over the BN254 scalar
field, with its trace verifiers, written in Verus.

Each layer pairs adjacent coordinates of its input, compresses each pair with
two SHA-256-derived coefficients, encodes the half-length vector recursively,
and appends `B * (A * inner)`, where `A` and `B` are sparse matrices built from
sampled left-regular bipartite graphs.

Layout:

- `src/field.rs`: field elements (four little-endian limbs, value taken modulo
  the BN254 scalar prime), the arithmetic done by `ark_bn254::Fr`, and the
  hash-derived projection coefficients.
- `src/graph.rs`, `src/matrix.rs`: graph sampling, sparse matrices built from
  graph edges, and matrix-vector products.
- `src/encoder.rs`: projection, the recursive encoder and the trace recorder,
  specified against `encode_spec` and `trace_spec`; `lemma_encode_linear`
  proves the code linear over the field (`lemma_mat_vec_linear` in
  `src/matrix.rs` does so for sparse products).
- `src/expander.rs`: layer construction for the three coefficient modes.
- `src/experiment.rs`: layer stacks, random inputs and corruptions, and the
  parity verifiers; `lemma_encoded_trace_verifies` proves that every recorded
  trace passes full verification. The random steps each have a counterpart
  that takes what was drawn (`corrupt_with`, `sparse_vector_with`,
  `corrupt_trace_layer_with`, `detect_with`), and the random step is stated
  through it: `run_experiment_trials` counts, for the drawn inputs, shuffles,
  fresh values and rows, the trials whose check of the trace with its
  innermost entry so corrupted passed.
- `src/demo.rs`: the sampling check used by the demo; `compare_at` decides it
  for given coordinates.
- `app/main.rs`: the interactive demo, timing, CSV output and the
  floating-point parameter heuristics.
