//! Similar-segment search over a corpus of pre-tokenized text segments.
//!
//! Each segment's tokens are joined into one document string; the corpus of
//! documents is weighted with smoothed tf-idf, and a chosen target document
//! is scored against every other one by cosine similarity. The top five
//! positively-scored candidates, in descending score order, are kept in a
//! result store that each successful query overwrites.
//!
//! All arithmetic is integer arithmetic. The idf factor is held in fixed
//! point (the one approximation in the pipeline, see
//! [`tfidf::idf_fp`]), and from there on everything is exact: a candidate's
//! cosine score is the rational `dot / sqrt(target_norm_sq * norm_sq)`,
//! carried as its numerator and the two squared norms, and candidates are
//! ordered by comparing those rationals exactly. This is what lets the
//! ranking itself be specified and proved: scores are sorted, positive,
//! never the target's own, and nothing kept is outranked by anything
//! dropped. The price is a corpus bound, [`tfidf::MAX_CORPUS_TERMS`] terms,
//! past which the squares would no longer fit machine words; a larger
//! corpus is refused as a distinct vectorization failure.

pub mod text;
pub mod tfidf;
pub mod rank;
pub mod laws;
pub mod store;
