# kate

Verified helpers of a data availability node, written in Verus.

- `metrics`: a store of block metrics (what work, which block, when it
  started and ended), whole or recorded in two halves, and the clock reading
  they are stamped with.
- `data_lookup`: the lookup index of a block, telling where each
  application's data starts.
- `kate`: the block data matrix (flattening and padding, column extension by
  FFT) and the Kate row commitments and cell proofs over it, with the calls
  into the curve, FFT, KZG and RNG crates behind small trusted items in
  `kate::crypto`.
- `rpc` and `ext_cache`: the proof query of the RPC over an LRU cache of
  extended block data, and its error codes.
- `pallet` and `weights`: the data availability pallet's checks and weights,
  and the BABE equivocation proof weight.

`app/` holds what Verus does not see: the process-wide metric store and
telemetry, the serde and SCALE codec copies of the library's types, and the
RPC plumbing. `tests/` runs the library with the real outside crates.
