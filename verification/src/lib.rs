//! Ranking of documents with the BM25 family of scores.
//!
//! A corpus is tokenized ([`tokenization`]), its terms are interned ([`interning`]) and counted
//! ([`index`]), and the terms get weights ([`idf`]). Queries are answered from the inverted index
//! or from the documents ([`scoring`]); [`bm25okapi::BM25Okapi`] puts all of it together. What
//! holds of the library as a whole is proved in [`laws`] and [`agreement`]. What the definitions
//! mean is proved in [`text_meaning`], [`index_meaning`], [`score_meaning`] and
//! [`ranking_meaning`].
//!
//! A score is the bit pattern of a double. The arithmetic of doubles is the caller's, and is handed
//! over as functions on bit patterns ([`score`]).
pub mod agreement;
pub mod bm25okapi;
pub mod collections;
pub mod idf;
pub mod index;
pub mod index_meaning;
pub mod interning;
pub mod laws;
pub mod model;
pub mod optimizations;
pub mod parallel;
pub mod ranking;
pub mod ranking_meaning;
pub mod score;
pub mod score_meaning;
pub mod scoring;
pub mod text;
pub mod text_meaning;
pub mod tokenization;
