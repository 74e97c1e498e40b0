//! Scoring configuration for the alignment engines, and the configuration
//! error raised when an engine's required parameter is absent.

use vstd::prelude::*;

verus! {

/// The general scoring model: an identity reward, a mismatch penalty, a gap
/// penalty, and the optional transpose and extended-gap penalties. The
/// transpose penalty is unused by the current engines; the extended-gap
/// penalty is required by the affine engine.
#[derive(Clone, Copy)]
pub struct Scoring {
    pub identity: usize,
    pub mismatch: usize,
    pub gap: usize,
    pub transpose: Option<usize>,
    pub extended_gap: Option<usize>,
}

/// The scoring model of the affine engine: the extended-gap penalty is
/// mandatory here.
#[derive(Clone, Copy)]
pub struct ExtendedGapScoring {
    pub identity: usize,
    pub mismatch: usize,
    pub gap: usize,
    pub extended_gap: usize,
}

/// A required scoring parameter is missing for the chosen engine.
pub enum ConfigurationError {
    MissingExtendedGap,
}

impl ExtendedGapScoring {
    /// Validates a general scoring model for the affine engine: it succeeds
    /// exactly when the extended-gap penalty is present.
    pub fn from_scoring(scores: &Scoring) -> (r: Result<ExtendedGapScoring, ConfigurationError>)
        ensures
            scores.extended_gap is Some <==> r is Ok,
            r matches Ok(e) ==> {
                &&& e.identity == scores.identity
                &&& e.mismatch == scores.mismatch
                &&& e.gap == scores.gap
                &&& e.extended_gap == scores.extended_gap->0
            },
            r is Err ==> r == Result::<ExtendedGapScoring, ConfigurationError>::Err(
                ConfigurationError::MissingExtendedGap,
            ),
    {
        match scores.extended_gap {
            Some(eg) => Ok(ExtendedGapScoring {
                identity: scores.identity,
                mismatch: scores.mismatch,
                gap: scores.gap,
                extended_gap: eg,
            }),
            None => Err(ConfigurationError::MissingExtendedGap),
        }
    }
}

} // verus!
