//! How confident a split recommendation is: its evidence against the number
//! of observations that the prefix's size calls for.

use vstd::prelude::*;

use crate::recommend::{ReProbePriority, SplitRecommendation};

verus! {

/// Confidence in a recommendation, in percent of what is needed to act on
/// it, up to 255.
pub type Confidence = u8;

/// The confidence from which a recommendation is acted upon.
pub const CONFIDENCE_THRESH: Confidence = 100;

/// The confidence for some observations against a threshold: negative
/// evidence counts as none, the evidence is scaled to percent (saturating at
/// `u32::MAX`), divided by the threshold rounding down, and capped at 255.
pub open spec fn confidence_for(observations: int, thresh: int) -> int {
    let evidence = if observations > 0 {
        observations
    } else {
        0
    };
    let scaled = if evidence * 100 > u32::MAX {
        u32::MAX as int
    } else {
        evidence * 100
    };
    let ratio = scaled / thresh;
    if ratio > 255 {
        255
    } else {
        ratio
    }
}

/// More evidence never lowers the confidence, and a higher threshold never
/// raises it.
pub proof fn lemma_confidence_monotone(o1: int, o2: int, t1: int, t2: int)
    requires
        o1 <= o2,
        0 < t2 <= t1,
    ensures
        confidence_for(o1, t1) <= confidence_for(o2, t2),
{
    let e1 = if o1 > 0 { o1 } else { 0 };
    let e2 = if o2 > 0 { o2 } else { 0 };
    let s1 = if e1 * 100 > u32::MAX { u32::MAX as int } else { e1 * 100 };
    let s2 = if e2 * 100 > u32::MAX { u32::MAX as int } else { e2 * 100 };
    assert(0 <= s1 <= s2);
    vstd::arithmetic::div_mod::lemma_div_is_ordered(s1, s2, t1);
    vstd::arithmetic::div_mod::lemma_div_is_ordered_by_denominator(s2, t2, t1);
}

/// The confidence of a priority's evidence against a threshold of
/// observations.
pub fn rate_with_thresh(prio: &ReProbePriority, thresh: u32) -> (res: Confidence)
    requires
        thresh > 0,
    ensures
        res == confidence_for(prio.supporting_observations as int, thresh as int),
{
    let evidence: u32 = if prio.supporting_observations > 0 {
        prio.supporting_observations as u32
    } else {
        0
    };
    let scaled: u32 = if evidence > u32::MAX / (CONFIDENCE_THRESH as u32) {
        u32::MAX
    } else {
        evidence * (CONFIDENCE_THRESH as u32)
    };
    let ratio: u32 = scaled / thresh;
    if ratio > Confidence::MAX as u32 {
        Confidence::MAX
    } else {
        ratio as Confidence
    }
}

/// The confidence of a recommendation: a split is held against the number of
/// observations that show distinct responses (`split_thresh`), keeping or no
/// decision against the number that show equivalent ones (`keep_thresh`);
/// both numbers depend on the prefix's size.
pub fn rate(split_thresh: u32, keep_thresh: u32, rec: &SplitRecommendation) -> (res: Confidence)
    requires
        split_thresh > 0,
        keep_thresh > 0,
    ensures
        res == confidence_for(
            rec.priority_spec().supporting_observations as int,
            if *rec is YesSplit {
                split_thresh as int
            } else {
                keep_thresh as int
            },
        ),
{
    match rec {
        SplitRecommendation::YesSplit { priority } => rate_with_thresh(priority, split_thresh),
        SplitRecommendation::NoKeep { priority } => rate_with_thresh(priority, keep_thresh),
        SplitRecommendation::CannotDetermine { priority } => rate_with_thresh(priority, keep_thresh),
    }
}

} // verus!
