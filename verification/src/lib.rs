//! A small distributional-semantics pipeline: build an integer-indexed
//! vocabulary and corpus from text, count word co-occurrence within a window,
//! and prepare the integer groundwork for PPMI reweighting and cosine-based
//! similarity ranking.

pub mod comatrix;
pub mod rank;
pub mod vocab;
pub mod weights;
