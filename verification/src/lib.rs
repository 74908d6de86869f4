//! Cross-field full-text search: several columns are scored as one virtual
//! field with BM25F, and the best documents are found either by scoring every
//! candidate or by a MAXSCORE scan that skips those that cannot compete.
//!
//! Scores are binary floating-point numbers held by bit pattern, so that every
//! rounding is part of what is proved.
pub mod advance;
pub mod binary;
pub mod bounds;
pub mod cursor;
pub mod documents;
pub mod float;
pub mod mask;
pub mod maxscore;
pub mod meaning;
pub mod ranking;
pub mod rounding;
pub mod scorer;
pub mod search;
pub mod selection;
pub mod soundness;
pub mod weight;
pub mod whole;
