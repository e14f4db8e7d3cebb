//! The record of a split analysis: its stage, and the result it ends with.

use vstd::prelude::*;

use crate::measurement::{HitCount, IpNetwork};
use crate::recommend::{PriorityClass, ReProbePriority, SplitRecommendation, ALGO_VERSION};

verus! {

/// The stored outcome of a split analysis.
#[derive(Debug, Clone, Copy, PartialEq, Eq, Structural)]
pub struct SplitAnalysisResult {
    pub class: PriorityClass,
    pub evidence: HitCount,
    /// Whether a split was recommended; none where nothing could be
    /// determined.
    pub should_split: Option<bool>,
    /// The version of the split algorithm that gave the result.
    pub algo_version: i32,
}

impl SplitAnalysisResult {
    /// The result for a recommendation: its class and evidence, whether it
    /// recommends a split, and the current algorithm version.
    pub open spec fn of(rec: SplitRecommendation) -> Self {
        SplitAnalysisResult {
            class: rec.priority_spec().class,
            evidence: rec.priority_spec().supporting_observations,
            should_split: match rec {
                SplitRecommendation::YesSplit { .. } => Some(true),
                SplitRecommendation::NoKeep { .. } => Some(false),
                SplitRecommendation::CannotDetermine { .. } => None,
            },
            algo_version: ALGO_VERSION,
        }
    }

    /// The result for a recommendation.
    pub fn from(it: &SplitRecommendation) -> (res: Self)
        ensures
            res == Self::of(*it),
    {
        let ReProbePriority { class, supporting_observations } = *it.priority();
        let should_split = match it {
            SplitRecommendation::YesSplit { .. } => Some(true),
            SplitRecommendation::NoKeep { .. } => Some(false),
            SplitRecommendation::CannotDetermine { .. } => None,
        };
        SplitAnalysisResult { class, evidence: supporting_observations, should_split, algo_version: ALGO_VERSION }
    }
}

/// How far a split analysis has come.
#[derive(Debug, Clone, Copy, PartialEq, Eq, Structural)]
pub enum Stage {
    Requested,
    PendingTrace,
    Completed,
}

/// A split analysis of a prefix.
#[derive(Debug)]
pub struct SplitAnalysis {
    pub id: i64,
    pub tree_net: IpNetwork,
    /// The id of the trace request it waits for, if any.
    pub pending_follow_up: Option<String>,
    pub result: Option<SplitAnalysisResult>,
}

impl SplitAnalysis {
    /// Completed once it has a result; otherwise waiting for a trace where
    /// one is pending, and just requested where not.
    pub fn stage(&self) -> (res: Stage)
        ensures
            res == (if self.result is Some {
                Stage::Completed
            } else if self.pending_follow_up is Some {
                Stage::PendingTrace
            } else {
                Stage::Requested
            }),
    {
        if self.result.is_some() {
            Stage::Completed
        } else if self.pending_follow_up.is_some() {
            Stage::PendingTrace
        } else {
            Stage::Requested
        }
    }
}

} // verus!
