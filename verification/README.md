# mavacs_plus

Hash-based authenticated data structures for verifiable anonymous
credentials, written in Verus and verified.

- `crypto::merkle` — Merkle trees as vector commitments over attribute
  vectors, with zero padding (leaves filled to a power of two) or copy
  padding (odd levels pair their last node with itself): index arithmetic,
  tree building, co-path generation and verification, and the
  `VectorCommitment` trait. Proved: each tree is the padded tree over its
  data, every generated co-path verifies against the root, and every parent
  index is the parent of its children; an opening of the tree's length
  binds the committed value unless SHA3-256 has a collision.
- `chronoforest` — the append-only forest of perfect Merkle trees
  (MerkleSquare) and its digest. Proved: after every append the peaks are the
  roots of perfect trees over consecutive blocks of leaves, tallest first,
  one per one bit of the leaf count; the peak hashes bind the leaves, and
  the order of appends changes them, unless the hash has a collision;
  digests encode and decode losslessly.
- `hash` — 32-byte hashes and the `Hasher` trait, with SHA-256.
- `credential` — credentials as vectors of typed attributes.

SHA-256 and SHA3-256 come from the `sha2` and `sha3` crates; their results
are named, not modelled. `app/` holds the command-line walk-through and the
bincode serialisation of attributes.
