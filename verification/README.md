# bm25

A library that ranks documents with the BM25 family of scores, written and verified in Verus.

A corpus of texts or of token lists is indexed: terms get numbers, documents get term counts, and
an inverted index lists for every term the documents that hold it. A query is then scored against
all documents, against chosen ones, or for the best ones only.

## Layout

- `src/` is the verified library. `bm25okapi.rs` is the index with its queries; `index.rs`,
  `interning.rs`, `idf.rs`, `scoring.rs`, `ranking.rs` and `optimizations.rs` are the steps it is
  made of; `model.rs` and `score.rs` hold the mathematical model; `laws.rs` and `agreement.rs`
  state and prove what holds of the library as a whole.
- `collections.rs`, `parallel.rs`, `text.rs` and a few functions of `ranking.rs` make the calls into
  `ahash`, `smallvec`, `string-interner`, `rayon` and the standard library. Their contracts are
  trusted.
- `tests/` runs the library.
- `app/` is the Python module around it, with the floating-point formulas.

Scores are the bit patterns of doubles. The library orders them by their bits, and adds them up with
functions that its caller hands over.
