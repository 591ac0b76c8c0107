# espresso_core

Verified core logic of an Espresso sequencer node, written in Verus.

- `drb`: the distributed random beacon, an iterated SHA-256 hash chain
  computed with checkpoints from which an interrupted computation resumes,
  and the per-epoch store of results with its garbage collection.
- `election`: stake-weighted leader selection: the stake table sorted by
  `xor(drb, public_key)`, its cumulative stake, and the choice of a leader per
  view from a SHA-512 digest.
- `u256`: 256-bit amounts as 64-bit limbs, with `alloy`'s arithmetic.
- `hashing`: the SHA-2 digests of the `sha2` crate.
- `util`: a bounded deque, and pools of running tasks bounded globally and
  per key.
- `builder`, `request`, `staking`, `ns_proof`: the decisions of the builder
  client, the catchup requests, the stake table version dispatch, and the
  namespace-proof precondition.

`app/` holds the I/O around the library: spawning the storage of DRB
progress, the builder connection loop, request serialization, and the error
types with their `Display` and serde implementations.
