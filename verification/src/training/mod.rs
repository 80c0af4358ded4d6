//! Training sessions on particular corpora.
pub mod mnist;
