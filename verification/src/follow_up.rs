//! Turning the follow-ups of an echo analysis into one trace request: with
//! enough confidence in the prefix already, follow-ups are often skipped,
//! and only about a quarter of them is traced.

use rand::Rng;
use vstd::prelude::*;

use crate::confidence::Confidence;
use crate::echo::EchoFollowUp;
use crate::trace::TraceRequestId;

verus! {

/// Follow-ups of an echo analysis of a prefix, and the confidence the prefix
/// had.
#[derive(Debug)]
pub struct FollowUpRequest {
    pub id: TraceRequestId,
    pub confidence: Confidence,
    pub follow_ups: Vec<EchoFollowUp>,
}

/// A request to trace some targets.
#[derive(Debug)]
pub struct TraceRequest {
    pub id: TraceRequestId,
    pub targets: Vec<u128>,
}

/// `rand::Rng::gen_ratio` on the thread's generator: true with a chance of
/// `numerator` in `denominator`; always false for a zero numerator and always
/// true where the two are equal.
#[verifier::external_body]
fn random_ratio(numerator: u32, denominator: u32) -> (res: bool)
    requires
        0 < denominator,
        numerator <= denominator,
    ensures
        numerator == 0 ==> !res,
        numerator == denominator ==> res,
{
    rand::thread_rng().gen_ratio(numerator, denominator)
}

/// The targets of the follow-ups that are kept, in order.
pub open spec fn kept_targets(follow_ups: Seq<EchoFollowUp>, keep: Seq<bool>) -> Seq<u128>
    decreases follow_ups.len(),
{
    if follow_ups.len() == 0 {
        Seq::empty()
    } else {
        let before = kept_targets(follow_ups.drop_last(), keep.take(follow_ups.len() - 1));
        if keep[follow_ups.len() - 1] {
            before + follow_ups.last().targets@
        } else {
            before
        }
    }
}

/// Whether `targets` are those of some choice of the follow-ups, in order.
pub open spec fn some_follow_up_targets(follow_ups: Seq<EchoFollowUp>, targets: Seq<u128>) -> bool {
    exists|keep: Seq<bool>| keep.len() == follow_ups.len() && targets == kept_targets(follow_ups, keep)
}

/// Whether the follow-ups are skipped, given the draws: with more than 100%
/// confidence where the first draw says so, else with more than 60% where the
/// second does.
pub open spec fn skips(confidence: Confidence, full_draw: bool, partial_draw: bool) -> bool {
    (confidence > 100 && full_draw) || (confidence > 60 && partial_draw)
}

/// The targets to trace, given the draws: none where the follow-ups are
/// skipped, else those of the follow-ups kept.
pub open spec fn drawn_targets(
    confidence: Confidence,
    full_draw: bool,
    partial_draw: bool,
    follow_ups: Seq<EchoFollowUp>,
    keep: Seq<bool>,
) -> Seq<u128> {
    if skips(confidence, full_draw, partial_draw) {
        Seq::empty()
    } else {
        kept_targets(follow_ups, keep)
    }
}

/// Whether the follow-ups are skipped, given the draws.
pub fn skip_follow_ups(confidence: Confidence, full_draw: bool, partial_draw: bool) -> (res: bool)
    ensures
        res == skips(confidence, full_draw, partial_draw),
{
    if confidence > 100 && full_draw {
        true
    } else {
        confidence > 60 && partial_draw
    }
}

/// The targets of the follow-ups marked in `keep`, in order.
pub fn kept_follow_up_targets(follow_ups: Vec<EchoFollowUp>, keep: &[bool]) -> (res: Vec<u128>)
    requires
        keep@.len() == follow_ups@.len(),
    ensures
        res@ == kept_targets(follow_ups@, keep@),
{
    let ghost all = follow_ups@;
    let mut targets: Vec<u128> = Vec::new();
    let mut i: usize = 0;
    while i < follow_ups.len()
        invariant
            all == follow_ups@,
            keep@.len() == all.len(),
            i <= all.len(),
            targets@ == kept_targets(all.take(i as int), keep@.take(i as int)),
        decreases all.len() - i,
    {
        let ghost before = targets@;
        if keep[i] {
            targets.extend_from_slice(follow_ups[i].targets.as_slice());
            assert(targets@ =~= before + all[i as int].targets@);
        }
        proof {
            assert(all.take(i + 1).drop_last() =~= all.take(i as int));
            assert(keep@.take(i + 1).take(i as int) =~= keep@.take(i as int));
        }
        i = i + 1;
    }
    proof {
        assert(all.take(i as int) =~= all);
        assert(keep@.take(i as int) =~= keep@);
    }
    targets
}

/// A chance of `numerator` in `denominator`.
#[derive(Debug, Clone, Copy, PartialEq, Eq, Structural)]
pub struct Chance {
    pub numerator: u32,
    pub denominator: u32,
}

impl Chance {
    /// A chance that a draw can be made with: at most one in one.
    pub open spec fn valid(self) -> bool {
        0 < self.denominator && self.numerator <= self.denominator
    }
}

/// The chances with which follow-ups are skipped or kept.
#[derive(Debug, Clone, Copy, PartialEq, Eq, Structural)]
pub struct FollowUpChances {
    /// Skipping all follow-ups of a prefix with more than 100% confidence.
    pub skip_above_full: Chance,
    /// Skipping all follow-ups of a prefix with more than 60% confidence.
    pub skip_above_partial: Chance,
    /// Keeping each follow-up that is not skipped.
    pub keep_each: Chance,
}

/// Two in three, one in five, and one in four.
pub open spec fn follow_up_chances_spec() -> FollowUpChances {
    FollowUpChances {
        skip_above_full: Chance { numerator: 2, denominator: 3 },
        skip_above_partial: Chance { numerator: 1, denominator: 5 },
        keep_each: Chance { numerator: 1, denominator: 4 },
    }
}

/// The chances of follow-up scheduling: with full confidence already, skip
/// the follow-ups in two of three cases; with more than 60% confidence, skip
/// one in five; and keep each follow-up with a chance of one in four.
pub fn follow_up_chances() -> (res: FollowUpChances)
    ensures
        res == follow_up_chances_spec(),
        res.skip_above_full.valid(),
        res.skip_above_partial.valid(),
        res.keep_each.valid(),
{
    FollowUpChances {
        skip_above_full: Chance { numerator: 2, denominator: 3 },
        skip_above_partial: Chance { numerator: 1, denominator: 5 },
        keep_each: Chance { numerator: 1, denominator: 4 },
    }
}

/// One draw per follow-up, each with the given chance.
fn draw_keeps(n: usize, chance: Chance) -> (res: Vec<bool>)
    requires
        chance.valid(),
    ensures
        res@.len() == n,
{
    let mut keep: Vec<bool> = Vec::new();
    let mut i: usize = 0;
    while i < n
        invariant
            i <= n,
            keep@.len() == i,
            chance.valid(),
        decreases n - i,
    {
        keep.push(random_ratio(chance.numerator, chance.denominator));
        i = i + 1;
    }
    keep
}

/// The trace request for some follow-ups, drawn with the chances of
/// [`follow_up_chances`]: with more than 100% confidence the follow-ups are
/// skipped in two of three cases, with more than 60% in one of five; otherwise
/// each follow-up is traced with a chance of one in four.
pub fn flatten_request(req: FollowUpRequest) -> (res: TraceRequest)
    ensures
        res.id == req.id,
        exists|full_draw: bool, partial_draw: bool, keep: Seq<bool>|
            keep.len() == req.follow_ups@.len() && res.targets@ == drawn_targets(
                req.confidence,
                full_draw,
                partial_draw,
                req.follow_ups@,
                keep,
            ),
        req.confidence <= 60 ==> some_follow_up_targets(req.follow_ups@, res.targets@),
{
    let id = req.id;
    let chances = follow_up_chances();
    let full_draw = req.confidence > 100 && random_ratio(
        chances.skip_above_full.numerator,
        chances.skip_above_full.denominator,
    );
    let partial_draw = !full_draw && req.confidence > 60 && random_ratio(
        chances.skip_above_partial.numerator,
        chances.skip_above_partial.denominator,
    );
    let keep = draw_keeps(req.follow_ups.len(), chances.keep_each);
    let targets = if skip_follow_ups(req.confidence, full_draw, partial_draw) {
        Vec::new()
    } else {
        kept_follow_up_targets(req.follow_ups, keep.as_slice())
    };
    proof {
        let fu = req.follow_ups@;
        assert(targets@ == drawn_targets(req.confidence, full_draw, partial_draw, fu, keep@));
        if req.confidence <= 60 {
            assert(keep@.len() == fu.len() && targets@ == kept_targets(fu, keep@));
        }
    }
    TraceRequest { id, targets }
}

} // verus!
