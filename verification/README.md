# minhash_grouping

Groups text records by the MinHash similarity of their two-byte shingles.

- `src/` is the verified library (Verus):
  - `hash.rs`: shingling, token hashing (XXH3), MinHash signatures and their comparison;
  - `score.rs`: similarities as integer fractions, thresholds as counts of matching slots;
  - `noise.rs`: the seeded random noise of the hash functions;
  - `tree.rs`: the grouping tree (leaders on the right spine, members on left chains);
  - `vectortree.rs`: grouping into a vector of groups;
  - `record.rs`, `writer.rs`: the input record and the output file path.
- `app/` is the command-line program: CSV input and output, command-line arguments, and the
  `f32` arithmetic (hash buckets, similarity values, threshold comparisons), which the
  library does not hold.
- `tests/` exercises the library.
