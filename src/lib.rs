//! Groups rendered pages into similarity clusters, one tier at a time.
//!
//! Each page contributes a term-frequency vector of its text over the tier's
//! vocabulary and a normalized grayscale histogram of its screenshot. A
//! greedy single pass assigns each page to the existing cluster with the
//! best weighted fusion of cosine and histogram-intersection similarity, or
//! opens a new cluster. All feature values are fixed-point integers in units
//! of `similarity::SCALE`.
use vstd::prelude::*;

pub mod clustering;
pub mod document;
pub mod image_processor;
pub mod similarity;
pub mod tier;
pub mod vectorizer;

verus! {

} // verus!
