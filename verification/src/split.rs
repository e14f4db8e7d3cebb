//! What the split analysis of a prefix does with its recommendation.

use vstd::prelude::*;

use crate::confidence::{Confidence, CONFIDENCE_THRESH};
use crate::recommend::SplitRecommendation;

verus! {

/// Whether a prefix is analysed at all.
#[derive(Debug, Clone, Copy, PartialEq, Eq, Structural)]
pub enum Admittance {
    /// It is no longer a leaf of the prefix tree: nothing to do.
    Skip,
    /// All of it is blocked: it is only marked as such.
    MarkBlocked,
    /// It is analysed.
    Analyse,
}

/// A prefix is analysed only while it is a leaf and not blocked as a whole.
pub fn admittance(eligible_for_split: bool, whole_net_blocked: bool) -> (res: Admittance)
    ensures
        res == (if !eligible_for_split {
            Admittance::Skip
        } else if whole_net_blocked {
            Admittance::MarkBlocked
        } else {
            Admittance::Analyse
        }),
{
    if !eligible_for_split {
        Admittance::Skip
    } else if whole_net_blocked {
        Admittance::MarkBlocked
    } else {
        Admittance::Analyse
    }
}

/// What to do with a recommendation.
#[derive(Debug, Clone, Copy, PartialEq, Eq, Structural)]
pub enum SplitDecision {
    /// Split the prefix in two.
    Split,
    /// Keep the prefix; collapse its measurements into a few trees where the
    /// confidence is at its maximum, and check whether it could be merged with
    /// its sibling where the confidence is above 200%.
    Keep { collapse: bool, check_redundancy: bool },
    /// Not confident enough to act.
    Wait,
}

/// Acts on a recommendation once the confidence reaches the threshold: a
/// split is carried out; keeping (or no decision) keeps the prefix,
/// collapsing its measurements at maximum confidence and looking for a
/// redundant sibling above 200%.
pub fn decide(rec: &SplitRecommendation, confidence: Confidence) -> (res: SplitDecision)
    ensures
        res == (if confidence < CONFIDENCE_THRESH {
            SplitDecision::Wait
        } else if *rec is YesSplit {
            SplitDecision::Split
        } else {
            SplitDecision::Keep { collapse: confidence == Confidence::MAX, check_redundancy: confidence > 200 }
        }),
{
    if confidence >= CONFIDENCE_THRESH {
        if rec.should_split() {
            SplitDecision::Split
        } else {
            let collapse = !(confidence < Confidence::MAX);
            SplitDecision::Keep { collapse, check_redundancy: confidence > 200 }
        }
    } else {
        SplitDecision::Wait
    }
}

} // verus!
