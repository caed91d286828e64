# stwo_cuda

Host-side logic of the CUDA backend of the stwo STARK prover, written in Verus
and proved against its contracts.

## Layout

- `src/` — the verified library:
  - `fields.rs`: the base field `M31` and its extensions `CM31` and `QM31`,
    with their arithmetic.
  - `hash.rs`: Blake2s digests, the reduction of digests modulo `P`, node
    hashing of the Merkle hashers, and the Merkle channel's root mixing.
  - `column.rs`: base field, secure field and hash columns, bit reversal of
    columns, and secure columns stored by coordinates.
  - `merkle.rs`: committing to columns layer by layer, the choice of how
    leaves are built, and the Merkle prover.
  - `decommit.rs`: decommitting a Merkle tree at a set of queries.
  - `gkr.rs`: the evaluations of the `eq` polynomial over the hypercube.
  - `simd_domain.rs`: the constraint evaluator for very packed rows of the
    evaluation domain, with its logup bookkeeping and offset row lookups.
  - `assert_eval.rs`: the evaluator that checks constraints at a trace row.
  - `quotient.rs`: the host-side inputs of the quotient kernels.
  - `mem_pool.rs`: the bookkeeping of the device memory pool, as decisions
    that the caller carries out on the device.
  - `dispatch.rs`: which components run their constraint evaluation on the CPU.
  - `bindings.rs`: the plain structures handed to device kernels.
  - `utils.rs`: powers of two, logarithms and bit reversal of indices.
- `tests/` — tests of the library.
- `app/` — the glue that talks to the device and the environment: the CUDA
  entry points, the device memory pools acting on the library's decisions,
  serde forms of the library's types, and optional bench output.
