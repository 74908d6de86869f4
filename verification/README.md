# combined_fields

Full-text search over several columns that are scored as one virtual field
(BM25F), written and proved in Verus.

- `src/rounding.rs`, `src/float.rs`, `src/binary.rs`: binary floating point by bit
  pattern, correctly rounded, so that scores are exact values in every contract.
- `src/bounds.rs`: when a sum of scores cannot reach a floor, whatever order it is
  added in.
- `src/scorer.rs`, `src/documents.rs`, `src/mask.rs`: document weights, loaded
  index data, row selections.
- `src/cursor.rs`: postings merged across columns, and cursors over them.
- `src/ranking.rs`: the order of scored documents and the best of them.
- `src/search.rs`: the search that scores every candidate.
- `src/maxscore.rs`: the MAXSCORE scan, which skips candidates that cannot compete.
- `src/advance.rs`: why the scan only moves forward, and what it counts.
- `src/soundness.rs`: why both find the same documents with the same scores.
- `src/selection.rs`: how the result depends on the mask and on the operator.
- `app/`: loading from storage, in ordinary async Rust.
