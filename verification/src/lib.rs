//! Global pairwise sequence alignment: dynamic-programming matrix engines
//! (simple linear-gap and affine-gap variants), an additive pointer encoding
//! that records every tied optimal predecessor, a multi-path traceback
//! enumerator, and score reporting.

pub mod matrix;
pub mod text;
pub mod pointers;
pub mod dp;
pub mod scoring;
pub mod data;
pub mod base;
pub mod needleman_wunsch;
pub mod gotoh;
pub mod laws;
