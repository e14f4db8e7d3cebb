//! Whether a prefix should be split in two, judged by how the last-hop routers
//! and the weird responses of its two halves compare, and how much evidence
//! backs that judgement.

use vstd::prelude::*;

use crate::measurement::{weirds_mergeable, HitCount, LhrAddr, MeasurementTree, WeirdItem};
use crate::subnet::{
    diff_spec, is_diff_of, is_lhr_lookup, is_weird_lookup, lists, possible_lhr_diff, possible_weird_diff,
    saturating_add_spec, values_of, Diff, DiffView, LhrDiff, Subnets,
};
use vstd::seq_lib::{commutative_foldl, lemma_fold_left_permutation, lemma_no_dup_in_concat, seq_to_set_distributes_over_add};

verus! {

/// Changes in the split algorithm are versioned so that results of a flawed
/// older version can be invalidated.
pub const ALGO_VERSION: i32 = 120;

/// How urgently a prefix should be probed again, by the kind of evidence that
/// was last found for it.
#[derive(Debug, Clone, Copy, PartialEq, Eq, Structural, Hash)]
pub enum PriorityClass {
    /// Never analysed.
    HighFresh,
    /// The halves share some last-hop routers, and others are seen in one half only.
    HighOverlapping,
    /// The halves have no last-hop router in common.
    HighDisjoint,
    /// The halves have the same routers, but in different proportions.
    MediumSameMulti,
    /// The halves have the same routers in the same proportions.
    MediumSameRatio,
    /// The halves have the same routers, and many of them.
    MediumSameMany,
    /// The halves have the same single router.
    MediumSameSingle,
    /// No routers, and several kinds of weird responses.
    MediumMultiWeird,
    /// No routers, and the same single kind of weird response.
    LowWeird,
    /// No routers and no weird responses.
    LowUnknown,
}

/// The class of a re-probe and how many probes back it.
#[derive(Debug, Clone, Copy, PartialEq, Eq, Structural)]
pub struct ReProbePriority {
    pub class: PriorityClass,
    pub supporting_observations: HitCount,
}

/// What to do with a prefix.
#[derive(Debug, Clone, Copy, PartialEq, Eq, Structural)]
pub enum SplitRecommendation {
    /// Two different subnets have been detected and a split is suggested.
    YesSplit { priority: ReProbePriority },
    /// The two subnets look similar and a split is not suggested.
    NoKeep { priority: ReProbePriority },
    /// No action could be determined.
    CannotDetermine { priority: ReProbePriority },
}

impl SplitRecommendation {
    pub open spec fn priority_spec(self) -> ReProbePriority {
        match self {
            SplitRecommendation::YesSplit { priority } => priority,
            SplitRecommendation::NoKeep { priority } => priority,
            SplitRecommendation::CannotDetermine { priority } => priority,
        }
    }

    /// The priority that comes with the recommendation.
    pub fn priority(&self) -> (res: &ReProbePriority)
        ensures
            *res == self.priority_spec(),
    {
        match self {
            SplitRecommendation::YesSplit { priority } => priority,
            SplitRecommendation::NoKeep { priority } => priority,
            SplitRecommendation::CannotDetermine { priority } => priority,
        }
    }

    /// Whether the recommendation is to split.
    pub fn should_split(&self) -> (res: bool)
        ensures
            res == (*self is YesSplit),
    {
        matches!(self, SplitRecommendation::YesSplit { .. })
    }
}

/// A recommendation to split, with its class and evidence.
pub open spec fn split_rec(class: PriorityClass, observations: int) -> SplitRecommendation {
    SplitRecommendation::YesSplit {
        priority: ReProbePriority { class, supporting_observations: observations as i32 },
    }
}

/// A recommendation to keep, with its class and evidence.
pub open spec fn keep_rec(class: PriorityClass, observations: int) -> SplitRecommendation {
    SplitRecommendation::NoKeep {
        priority: ReProbePriority { class, supporting_observations: observations as i32 },
    }
}

/// No recommendation, with its class and evidence.
pub open spec fn undetermined_rec(class: PriorityClass, observations: int) -> SplitRecommendation {
    SplitRecommendation::CannotDetermine {
        priority: ReProbePriority { class, supporting_observations: observations as i32 },
    }
}

pub open spec fn fits_i32(x: int) -> bool {
    i32::MIN <= x <= i32::MAX
}

/// Hits of a router in both halves, as `LhrDiff::total_hit_count` gives them.
pub open spec fn total_of(d: LhrDiff) -> int {
    saturating_add_spec(d.hit_counts@[0], d.hit_counts@[1]) as int
}

pub open spec fn add_total() -> spec_fn(int, LhrDiff) -> int {
    |acc: int, d: LhrDiff| acc + total_of(d)
}

/// The hits of all routers of a list.
pub open spec fn sum_of_totals(s: Seq<LhrDiff>) -> int {
    s.fold_left(0int, add_total())
}

pub open spec fn keep_most() -> spec_fn(int, LhrDiff) -> int {
    |most: int, d: LhrDiff|
        if total_of(d) > most {
            total_of(d)
        } else {
            most
        }
}

/// The hits of the most popular router of a list, zero for an empty list.
pub open spec fn max_total(s: Seq<LhrDiff>) -> int {
    if s.len() == 0 {
        0
    } else {
        s.fold_left(i32::MIN as int, keep_most())
    }
}

/// A router's hits, halved (rounding down) if it is among the most popular.
pub open spec fn deranked(d: LhrDiff, most: int) -> int {
    if total_of(d) == most {
        total_of(d) / 2
    } else {
        total_of(d)
    }
}

pub open spec fn add_deranked(most: int) -> spec_fn(int, LhrDiff) -> int {
    |acc: int, d: LhrDiff| acc + deranked(d, most)
}

/// The hits of all routers of a list, those of the most popular ones halved.
pub open spec fn sum_deranked(s: Seq<LhrDiff>) -> int {
    s.fold_left(0int, add_deranked(max_total(s)))
}

pub open spec fn add_side(side: int) -> spec_fn(int, LhrDiff) -> int {
    |acc: int, d: LhrDiff| acc + d.hit_counts@[side]
}

/// The hits of all routers of a list in one half.
pub open spec fn side_total(s: Seq<LhrDiff>, side: int) -> int {
    s.fold_left(0int, add_side(side))
}

pub open spec fn add_weird() -> spec_fn(int, WeirdItem) -> int {
    |acc: int, w: WeirdItem| acc + w.hit_count
}

/// The hits of all weird kinds of a list.
pub open spec fn sum_weird(s: Seq<WeirdItem>) -> int {
    s.fold_left(0int, add_weird())
}

/// Division rounding towards zero, as Rust's integer `/` does.
pub open spec fn trunc_div(x: int, d: int) -> int {
    if x == 0 {
        0
    } else if x > 0 && d > 0 {
        x / d
    } else if x < 0 && d < 0 {
        (x * -1) / (d * -1)
    } else if x < 0 {
        ((x * -1) / d) * -1
    } else {
        (x / (d * -1)) * -1
    }
}

/// The share in percent (rounded towards zero) of some hits in a total.
pub open spec fn percent_of(hits: int, total: int) -> int {
    trunc_div(hits * 100, total)
}

/// Shares of a router in the two halves that differ by more than the allowed
/// 15 points, where the router has more than three hits in each half.
pub open spec fn ratio_differs_at(d: LhrDiff, left_total: int, right_total: int) -> bool {
    let left = d.hit_counts@[0] as int;
    let right = d.hit_counts@[1] as int;
    let diff = percent_of(left, left_total) - percent_of(right, right_total);
    &&& left > 3
    &&& right > 3
    &&& (diff > 15 || diff < -15)
}

/// Whether some router of the list is shared in clearly different proportions.
pub open spec fn ratio_differs(s: Seq<LhrDiff>) -> bool {
    exists|k: int|
        0 <= k < s.len() && #[trigger] ratio_differs_at(s[k], side_total(s, 0), side_total(s, 1))
}

/// The recommendation for halves with the same routers, more than one: with
/// five routers or more, a ratio means little and the halves are kept, with a
/// quarter of all hits as evidence; otherwise they are split if some router
/// that has more than three hits in each half takes clearly different shares
/// of the two halves (evidence: all hits, the most popular router's halved),
/// and kept if not (evidence: all hits).
pub open spec fn same_multi_spec(s: Seq<LhrDiff>) -> SplitRecommendation {
    if s.len() >= 5 {
        keep_rec(PriorityClass::MediumSameMany, sum_of_totals(s) / 4)
    } else if ratio_differs(s) {
        split_rec(PriorityClass::MediumSameMulti, sum_deranked(s))
    } else {
        keep_rec(PriorityClass::MediumSameRatio, sum_of_totals(s))
    }
}

/// With fewer than five shared routers and hits in both halves, a router's
/// shares decide a split only where it has more than three hits in both
/// halves: where every such router takes shares (in percent, rounded down)
/// that differ by at most 15 points, the halves are kept as having the same
/// ratio, with all hits as evidence, whatever the routers with three hits or
/// fewer in one half do; and where some such router differs by more, the
/// prefix is split.
pub proof fn lemma_only_significant_shares_split(s: Seq<LhrDiff>)
    requires
        s.len() < 5,
        forall|k: int| 0 <= k < s.len() ==> #[trigger] s[k].hit_counts@[0] >= 0 && s[k].hit_counts@[1] >= 0,
        side_total(s, 0) > 0,
        side_total(s, 1) > 0,
    ensures
        (forall|k: int|
            0 <= k < s.len() && #[trigger] s[k].hit_counts@[0] > 3 && s[k].hit_counts@[1] > 3 ==> -15 <= s[k].hit_counts@[0]
                * 100 / side_total(s, 0) - s[k].hit_counts@[1] * 100 / side_total(s, 1) <= 15)
            ==> same_multi_spec(s) == keep_rec(PriorityClass::MediumSameRatio, sum_of_totals(s)),
        (exists|k: int|
            0 <= k < s.len() && #[trigger] s[k].hit_counts@[0] > 3 && s[k].hit_counts@[1] > 3 && !(-15
                <= s[k].hit_counts@[0] * 100 / side_total(s, 0) - s[k].hit_counts@[1] * 100 / side_total(s, 1)
                <= 15)) ==> same_multi_spec(s) is YesSplit && same_multi_spec(s)->YesSplit_priority.class
            == PriorityClass::MediumSameMulti,
{
    let t0 = side_total(s, 0);
    let t1 = side_total(s, 1);
    assert forall|k: int| 0 <= k < s.len() implies (#[trigger] ratio_differs_at(s[k], t0, t1) <==> (
    s[k].hit_counts@[0] > 3 && s[k].hit_counts@[1] > 3 && !(-15 <= s[k].hit_counts@[0] * 100 / t0
        - s[k].hit_counts@[1] * 100 / t1 <= 15))) by {
        let l = s[k].hit_counts@[0] as int;
        let r = s[k].hit_counts@[1] as int;
        assert(percent_of(l, t0) == l * 100 / t0);
        assert(percent_of(r, t1) == r * 100 / t1);
    }
    if exists|k: int|
        0 <= k < s.len() && #[trigger] s[k].hit_counts@[0] > 3 && s[k].hit_counts@[1] > 3 && !(-15
            <= s[k].hit_counts@[0] * 100 / t0 - s[k].hit_counts@[1] * 100 / t1 <= 15) {
        let k = choose|k: int|
            0 <= k < s.len() && #[trigger] s[k].hit_counts@[0] > 3 && s[k].hit_counts@[1] > 3 && !(-15
                <= s[k].hit_counts@[0] * 100 / t0 - s[k].hit_counts@[1] * 100 / t1 <= 15);
        assert(ratio_differs_at(s[k], t0, t1));
        assert(ratio_differs(s));
    }
}

/// The sums that [`same_multi_spec`] takes fit into `i32`, and neither half
/// has zero hits in all where the shares are compared.
pub open spec fn same_multi_defined(s: Seq<LhrDiff>) -> bool {
    if s.len() >= 5 {
        fits_i32(sum_of_totals(s))
    } else {
        &&& fits_i32(side_total(s, 0))
        &&& fits_i32(side_total(s, 1))
        &&& s.len() > 0 ==> side_total(s, 0) != 0 && side_total(s, 1) != 0
        &&& if ratio_differs(s) {
            fits_i32(sum_deranked(s))
        } else {
            fits_i32(sum_of_totals(s))
        }
    }
}

/// One more step of a left fold over a prefix of a sequence.
proof fn lemma_fold_take<A, B>(s: Seq<A>, i: int, b: B, f: spec_fn(B, A) -> B)
    requires
        0 <= i < s.len(),
    ensures
        s.take(i + 1).fold_left(b, f) == f(s.take(i).fold_left(b, f), s[i]),
{
    assert(s.take(i + 1).drop_last() =~= s.take(i));
}

/// The hits of all routers of a list.
fn sum_lhr_hits(lhrs: &Vec<LhrDiff>) -> (res: HitCount)
    requires
        fits_i32(sum_of_totals(lhrs@)),
    ensures
        res == sum_of_totals(lhrs@),
{
    let mut acc: i128 = 0;
    let mut i: usize = 0;
    while i < lhrs.len()
        invariant
            i <= lhrs@.len(),
            acc == lhrs@.take(i as int).fold_left(0int, add_total()),
            -0x8000_0000 * i <= acc <= 0x8000_0000 * i,
        decreases lhrs@.len() - i,
    {
        proof {
            lemma_fold_take(lhrs@, i as int, 0int, add_total());
        }
        acc = acc + lhrs[i].total_hit_count() as i128;
        i = i + 1;
    }
    proof {
        assert(lhrs@.take(i as int) =~= lhrs@);
    }
    acc as i32
}

/// The hits of the most popular router of a list, zero for an empty list.
fn max_lhr_hits(lhrs: &Vec<LhrDiff>) -> (res: HitCount)
    ensures
        res == max_total(lhrs@),
{
    let mut most: i32 = i32::MIN;
    let mut i: usize = 0;
    while i < lhrs.len()
        invariant
            i <= lhrs@.len(),
            most == lhrs@.take(i as int).fold_left(i32::MIN as int, keep_most()),
        decreases lhrs@.len() - i,
    {
        proof {
            lemma_fold_take(lhrs@, i as int, i32::MIN as int, keep_most());
        }
        let total = lhrs[i].total_hit_count();
        if total > most {
            most = total;
        }
        i = i + 1;
    }
    proof {
        assert(lhrs@.take(i as int) =~= lhrs@);
    }
    if lhrs.len() == 0 {
        0
    } else {
        most
    }
}

/// The hits of all routers of a list, those of the most popular ones halved
/// (rounding down): if only the most popular router had been seen, there
/// would be no reason to split.
fn sum_deranking_most_popular(lhrs: &Vec<LhrDiff>) -> (res: HitCount)
    requires
        fits_i32(sum_deranked(lhrs@)),
    ensures
        res == sum_deranked(lhrs@),
{
    let most_popular_hits = max_lhr_hits(lhrs);
    let ghost f = add_deranked(max_total(lhrs@));
    let mut acc: i128 = 0;
    let mut i: usize = 0;
    while i < lhrs.len()
        invariant
            i <= lhrs@.len(),
            most_popular_hits == max_total(lhrs@),
            f == add_deranked(max_total(lhrs@)),
            acc == lhrs@.take(i as int).fold_left(0int, f),
            -0x8000_0000 * i <= acc <= 0x8000_0000 * i,
        decreases lhrs@.len() - i,
    {
        proof {
            lemma_fold_take(lhrs@, i as int, 0int, f);
        }
        let total = lhrs[i].total_hit_count();
        let counted: i32 = if total == most_popular_hits {
            match total.checked_div_euclid(2) {
                Some(half) => half,
                None => total,
            }
        } else {
            total
        };
        acc = acc + counted as i128;
        i = i + 1;
    }
    proof {
        assert(lhrs@.take(i as int) =~= lhrs@);
    }
    acc as i32
}

/// The hits of all routers of a list in one half.
fn sum_side(lhrs: &Vec<LhrDiff>, side: usize) -> (res: HitCount)
    requires
        side < 2,
        fits_i32(side_total(lhrs@, side as int)),
    ensures
        res == side_total(lhrs@, side as int),
{
    let ghost f = add_side(side as int);
    let mut acc: i128 = 0;
    let mut i: usize = 0;
    while i < lhrs.len()
        invariant
            side < 2,
            i <= lhrs@.len(),
            f == add_side(side as int),
            acc == lhrs@.take(i as int).fold_left(0int, f),
            -0x8000_0000 * i <= acc <= 0x8000_0000 * i,
        decreases lhrs@.len() - i,
    {
        proof {
            lemma_fold_take(lhrs@, i as int, 0int, f);
        }
        acc = acc + lhrs[i].hit_counts[side] as i128;
        i = i + 1;
    }
    proof {
        assert(lhrs@.take(i as int) =~= lhrs@);
    }
    acc as i32
}

/// The hits of all weird kinds of a list.
fn sum_weird_hits(weirds: &Vec<WeirdItem>) -> (res: HitCount)
    requires
        fits_i32(sum_weird(weirds@)),
    ensures
        res == sum_weird(weirds@),
{
    let mut acc: i128 = 0;
    let mut i: usize = 0;
    while i < weirds.len()
        invariant
            i <= weirds@.len(),
            acc == weirds@.take(i as int).fold_left(0int, add_weird()),
            -0x8000_0000 * i <= acc <= 0x8000_0000 * i,
        decreases weirds@.len() - i,
    {
        proof {
            lemma_fold_take(weirds@, i as int, 0int, add_weird());
        }
        acc = acc + weirds[i].hit_count as i128;
        i = i + 1;
    }
    proof {
        assert(weirds@.take(i as int) =~= weirds@);
    }
    acc as i32
}

/// The recommendation from the last-hop routers of the two halves, none if
/// neither half has any: halves with the same single router are kept (its
/// hits as evidence); halves with the same routers are judged by how the
/// routers share the halves; halves that differ in their routers are split,
/// as disjoint if they have none in common, as overlapping if not (evidence:
/// the hits of the shared routers, the most popular one's halved, and those
/// of the routers seen in one half only).
pub open spec fn lhr_recommendation(d: DiffView<LhrDiff>) -> Option<SplitRecommendation> {
    match d {
        DiffView::BothNone => None,
        DiffView::BothSameSingle { shared } => Some(
            keep_rec(PriorityClass::MediumSameSingle, total_of(shared)),
        ),
        DiffView::BothSameMultiple { shared } => Some(same_multi_spec(shared)),
        DiffView::OverlappingOrDisjoint { shared, distinct } => Some(
            split_rec(
                if shared.len() == 0 {
                    PriorityClass::HighDisjoint
                } else {
                    PriorityClass::HighOverlapping
                },
                sum_deranked(shared) + sum_of_totals(distinct),
            ),
        ),
    }
}

/// The sums that [`lhr_recommendation`] takes fit into `i32`.
pub open spec fn lhr_recommendation_defined(d: DiffView<LhrDiff>) -> bool {
    match d {
        DiffView::BothSameMultiple { shared } => same_multi_defined(shared),
        DiffView::OverlappingOrDisjoint { shared, distinct } => {
            &&& fits_i32(sum_deranked(shared))
            &&& fits_i32(sum_of_totals(distinct))
            &&& fits_i32(sum_deranked(shared) + sum_of_totals(distinct))
        },
        _ => true,
    }
}

/// The recommendation from the weird responses of halves without routers:
/// nothing can be determined without weird responses (evidence: the
/// unresponsive probes); halves with the same single kind are kept (its
/// hits); halves with the same kinds, several of them, stay undetermined (all
/// their hits); halves with different kinds are split (the hits of the kinds
/// seen in one half only).
pub open spec fn weird_recommendation(d: DiffView<WeirdItem>, unresponsive: int) -> SplitRecommendation {
    match d {
        DiffView::BothNone => undetermined_rec(PriorityClass::LowUnknown, unresponsive),
        DiffView::BothSameSingle { shared } => keep_rec(PriorityClass::LowWeird, shared.hit_count as int),
        DiffView::BothSameMultiple { shared } => undetermined_rec(
            PriorityClass::MediumMultiWeird,
            sum_weird(shared),
        ),
        DiffView::OverlappingOrDisjoint { shared, distinct } => split_rec(
            PriorityClass::MediumMultiWeird,
            sum_weird(distinct),
        ),
    }
}

/// The sums that [`weird_recommendation`] takes fit into `i32`.
pub open spec fn weird_recommendation_defined(d: DiffView<WeirdItem>, unresponsive: int) -> bool {
    match d {
        DiffView::BothNone => fits_i32(unresponsive),
        DiffView::BothSameSingle { .. } => true,
        DiffView::BothSameMultiple { shared } => fits_i32(sum_weird(shared)),
        DiffView::OverlappingOrDisjoint { distinct, .. } => fits_i32(sum_weird(distinct)),
    }
}

/// Unresponsive probes in both halves together.
pub open spec fn unresponsive_total(subnets: Subnets) -> int {
    subnets.half(0).tree().unresponsive_count + subnets.half(1).tree().unresponsive_count
}

/// Neither half has a last-hop router.
pub open spec fn has_no_lhrs(subnets: Subnets) -> bool {
    &&& subnets.half(0).tree().last_hop_routers@.dom() == Set::<LhrAddr>::empty()
    &&& subnets.half(1).tree().last_hop_routers@.dom() == Set::<LhrAddr>::empty()
}

/// What the recommendation for the halves needs: its sums fit into `i32`
/// whatever order the routers are listed in, and, without routers, the weird
/// hits of both halves add up within `i32`.
pub open spec fn recommend_defined(subnets: Subnets) -> bool {
    &&& forall|d: DiffView<LhrDiff>| #[trigger]
        possible_lhr_diff(subnets, d) ==> lhr_recommendation_defined(d)
    &&& has_no_lhrs(subnets) ==> weirds_mergeable(
        subnets.half(0).tree().weirdness@,
        subnets.half(1).tree().weirdness@,
    )
    &&& has_no_lhrs(subnets) ==> forall|d: DiffView<WeirdItem>| #[trigger]
        possible_weird_diff(subnets, d) ==> weird_recommendation_defined(d, unresponsive_total(subnets))
}

/// Whether `rec` is the recommendation for the halves: the one from their
/// last-hop routers, or, where neither half has any, the one from their weird
/// responses, for some order in which the routers and kinds are listed.
pub open spec fn is_recommendation(subnets: Subnets, rec: SplitRecommendation) -> bool {
    exists|d: DiffView<LhrDiff>|
        #[trigger] possible_lhr_diff(subnets, d) && match lhr_recommendation(d) {
            Some(r) => rec == r,
            None => exists|w: DiffView<WeirdItem>| #[trigger]
                possible_weird_diff(subnets, w) && rec == weird_recommendation(w, unresponsive_total(subnets)),
        }
}

/// A diff that lists no router comes from halves without routers.
proof fn lemma_no_lhrs(subnets: Subnets, d: DiffView<LhrDiff>)
    requires
        possible_lhr_diff(subnets, d),
        d is BothNone,
    ensures
        has_no_lhrs(subnets),
{
    let l = subnets.half(0).tree().last_hop_routers@;
    let r = subnets.half(1).tree().last_hop_routers@;
    let lookup = choose|lookup: Map<LhrAddr, LhrDiff>|
        crate::subnet::is_lhr_lookup(lookup, l, r) && crate::subnet::is_diff_of(d, l.dom(), r.dom(), lookup);
    let (both, left_only, right_only) = choose|both: Seq<LhrAddr>, left_only: Seq<LhrAddr>, right_only: Seq<LhrAddr>|
        lists(both, l.dom().intersect(r.dom())) && lists(left_only, l.dom().difference(r.dom())) && lists(
            right_only,
            r.dom().difference(l.dom()),
        ) && d == diff_spec(values_of(both, lookup), values_of(left_only + right_only, lookup));
    assert(both.len() == 0);
    assert(left_only.len() == 0 && right_only.len() == 0);
    assert forall|k: LhrAddr| !l.dom().contains(k) by {
        if l.dom().contains(k) {
            if r.dom().contains(k) {
                assert(l.dom().intersect(r.dom()).contains(k));
                assert(both.to_set().contains(k));
            } else {
                assert(l.dom().difference(r.dom()).contains(k));
                assert(left_only.to_set().contains(k));
            }
        }
    }
    assert forall|k: LhrAddr| !r.dom().contains(k) by {
        if r.dom().contains(k) {
            if l.dom().contains(k) {
                assert(l.dom().intersect(r.dom()).contains(k));
                assert(both.to_set().contains(k));
            } else {
                assert(r.dom().difference(l.dom()).contains(k));
                assert(right_only.to_set().contains(k));
            }
        }
    }
    assert(l.dom() =~= Set::<LhrAddr>::empty());
    assert(r.dom() =~= Set::<LhrAddr>::empty());
}

proof fn lemma_trunc_div_bound(x: int, d: int)
    requires
        d != 0,
    ensures
        x >= 0 ==> -x <= trunc_div(x, d) <= x,
        x < 0 ==> x <= trunc_div(x, d) <= -x,
{
    if x > 0 && d > 0 {
        assert(0 <= x / d <= x) by (nonlinear_arith)
            requires
                x > 0,
                d > 0,
        ;
    } else if x < 0 && d < 0 {
        let (a, b) = (x * -1, d * -1);
        assert(0 <= a / b <= a) by (nonlinear_arith)
            requires
                a > 0,
                b > 0,
        ;
    } else if x < 0 {
        let a = x * -1;
        assert(0 <= a / d <= a) by (nonlinear_arith)
            requires
                a > 0,
                d > 0,
        ;
    } else if x > 0 {
        let b = d * -1;
        assert(0 <= x / b <= x) by (nonlinear_arith)
            requires
                x > 0,
                b > 0,
        ;
    }
}

/// The share in percent of some hits in a total, rounded towards zero.
fn percent(hits: i32, total: i32) -> (res: i64)
    requires
        total != 0,
    ensures
        res == percent_of(hits as int, total as int),
        -100 * 0x8000_0000 <= res <= 100 * 0x8000_0000,
{
    let scaled = hits as i64 * 100;
    proof {
        lemma_trunc_div_bound(scaled as int, total as int);
    }
    match scaled.checked_div(total as i64) {
        Some(share) => share,
        None => 0,
    }
}

/// The recommendation for halves with the same routers, more than one.
fn rate_same_multi(shared: Vec<LhrDiff>) -> (res: SplitRecommendation)
    requires
        same_multi_defined(shared@),
    ensures
        res == same_multi_spec(shared@),
{
    // Both halves may be served by the same routers in different parts, which
    // would show as different shares; with many routers, the shares say little.
    if shared.len() >= 5 {
        let hits = sum_lhr_hits(&shared);
        let quarter = match hits.checked_div_euclid(4) {
            Some(q) => q,
            None => hits,
        };
        return SplitRecommendation::NoKeep {
            priority: ReProbePriority {
                class: PriorityClass::MediumSameMany,
                supporting_observations: quarter,
            },
        };
    }
    let total_left = sum_side(&shared, 0);
    let total_right = sum_side(&shared, 1);
    // A difference in percentage points that is still taken as the same share.
    let thresh: i64 = 15;
    let ghost s = shared@;
    let mut ratio_is_same = true;
    let mut i: usize = 0;
    while i < shared.len()
        invariant_except_break
            ratio_is_same,
        invariant
            s == shared@,
            s.len() < 5,
            i <= s.len(),
            total_left == side_total(s, 0),
            total_right == side_total(s, 1),
            s.len() > 0 ==> total_left != 0 && total_right != 0,
            thresh == 15,
            forall|k: int| 0 <= k < i ==> !#[trigger] ratio_differs_at(s[k], side_total(s, 0), side_total(s, 1)),
        ensures
            ratio_is_same <==> !ratio_differs(s),
        decreases s.len() - i,
    {
        let left = shared[i].hit_counts[0];
        let right = shared[i].hit_counts[1];
        // Three hits or fewer do not reject the shares of the whole prefix.
        let both_significant = left > 3 && right > 3;
        let left_pct = percent(left, total_left);
        let right_pct = percent(right, total_right);
        let pct_diff = if left_pct >= right_pct {
            left_pct - right_pct
        } else {
            right_pct - left_pct
        };
        if pct_diff > thresh && both_significant {
            assert(ratio_differs_at(s[i as int], side_total(s, 0), side_total(s, 1)));
            ratio_is_same = false;
            break;
        }
        i = i + 1;
    }
    if ratio_is_same {
        SplitRecommendation::NoKeep {
            priority: ReProbePriority {
                class: PriorityClass::MediumSameRatio,
                supporting_observations: sum_lhr_hits(&shared),
            },
        }
    } else {
        SplitRecommendation::YesSplit {
            priority: ReProbePriority {
                class: PriorityClass::MediumSameMulti,
                supporting_observations: sum_deranking_most_popular(&shared),
            },
        }
    }
}

/// Probes of a tree that stayed dark.
fn unresponsive_count_of(tree: &MeasurementTree) -> (count: HitCount)
    ensures
        count == tree.unresponsive_count,
{
    tree.unresponsive_count
}

/// The recommendation for halves without last-hop routers, from their weird
/// responses.
fn recommend_without_lhr_data(subnets: &Subnets) -> (res: SplitRecommendation)
    requires
        weirds_mergeable(subnets.half(0).tree().weirdness@, subnets.half(1).tree().weirdness@),
        forall|d: DiffView<WeirdItem>| #[trigger]
            possible_weird_diff(*subnets, d) ==> weird_recommendation_defined(d, unresponsive_total(*subnets)),
    ensures
        exists|w: DiffView<WeirdItem>| #[trigger]
            possible_weird_diff(*subnets, w) && res == weird_recommendation(w, unresponsive_total(*subnets)),
{
    let diff = subnets.weird_diff();
    let ghost w = diff@;
    assert(weird_recommendation_defined(w, unresponsive_total(*subnets)));
    let res = match diff {
        Diff::BothNone => {
            let unresponsive = subnets.sum_subtrees(unresponsive_count_of);
            SplitRecommendation::CannotDetermine {
                priority: ReProbePriority { class: PriorityClass::LowUnknown, supporting_observations: unresponsive },
            }
        },
        Diff::BothSameSingle { shared } => SplitRecommendation::NoKeep {
            priority: ReProbePriority { class: PriorityClass::LowWeird, supporting_observations: shared.hit_count },
        },
        // Several kinds in both halves might call for a look deeper into the tree.
        Diff::BothSameMultiple { shared } => SplitRecommendation::CannotDetermine {
            priority: ReProbePriority {
                class: PriorityClass::MediumMultiWeird,
                supporting_observations: sum_weird_hits(&shared),
            },
        },
        Diff::OverlappingOrDisjoint { shared: _, distinct } => SplitRecommendation::YesSplit {
            priority: ReProbePriority {
                class: PriorityClass::MediumMultiWeird,
                supporting_observations: sum_weird_hits(&distinct),
            },
        },
    };
    assert(res == weird_recommendation(w, unresponsive_total(*subnets)));
    res
}

/// Recommends whether to split a prefix, given its two halves with their
/// measurements.
pub fn recommend(subnets: &Subnets) -> (res: SplitRecommendation)
    requires
        recommend_defined(*subnets),
    ensures
        is_recommendation(*subnets, res),
{
    let diff = subnets.lhr_diff();
    let ghost d = diff@;
    assert(lhr_recommendation_defined(d));
    match diff {
        Diff::BothNone => {
            proof {
                lemma_no_lhrs(*subnets, d);
            }
            let res = recommend_without_lhr_data(subnets);
            assert(lhr_recommendation(d) is None);
            res
        },
        Diff::BothSameSingle { shared } => SplitRecommendation::NoKeep {
            priority: ReProbePriority {
                class: PriorityClass::MediumSameSingle,
                supporting_observations: shared.total_hit_count(),
            },
        },
        Diff::BothSameMultiple { shared } => rate_same_multi(shared),
        Diff::OverlappingOrDisjoint { shared, distinct } => {
            let class = if shared.is_empty() {
                PriorityClass::HighDisjoint
            } else {
                PriorityClass::HighOverlapping
            };
            // Evidence that there is more than one router: where the sets are
            // the same, beyond the most popular one, and where they differ.
            let deranked = sum_deranking_most_popular(&shared);
            let distinct_hits = sum_lhr_hits(&distinct);
            SplitRecommendation::YesSplit {
                priority: ReProbePriority { class, supporting_observations: deranked + distinct_hits },
            }
        },
    }
}

/// The recommendation for two halves does not depend on the order in which
/// their last-hop routers and weird kinds come out of the maps that hold
/// them: any two recommendations for the same halves are the same.
pub proof fn lemma_recommendation_unique(subnets: Subnets, a: SplitRecommendation, b: SplitRecommendation)
    requires
        is_recommendation(subnets, a),
        is_recommendation(subnets, b),
    ensures
        a == b,
{
    let d1 = choose|d: DiffView<LhrDiff>|
        #[trigger] possible_lhr_diff(subnets, d) && match lhr_recommendation(d) {
            Some(r) => a == r,
            None => exists|w: DiffView<WeirdItem>| #[trigger]
                possible_weird_diff(subnets, w) && a == weird_recommendation(w, unresponsive_total(subnets)),
        };
    let d2 = choose|d: DiffView<LhrDiff>|
        #[trigger] possible_lhr_diff(subnets, d) && match lhr_recommendation(d) {
            Some(r) => b == r,
            None => exists|w: DiffView<WeirdItem>| #[trigger]
                possible_weird_diff(subnets, w) && b == weird_recommendation(w, unresponsive_total(subnets)),
        };
    lemma_lhr_recommendation_unique(subnets, d1, d2);
    if lhr_recommendation(d1) is None {
        let w1 = choose|w: DiffView<WeirdItem>| #[trigger]
            possible_weird_diff(subnets, w) && a == weird_recommendation(w, unresponsive_total(subnets));
        let w2 = choose|w: DiffView<WeirdItem>| #[trigger]
            possible_weird_diff(subnets, w) && b == weird_recommendation(w, unresponsive_total(subnets));
        lemma_weird_recommendation_unique(subnets, w1, w2);
    }
}

/// A left fold over the values of some keys, as a fold over the keys.
pub open spec fn lift<K, V>(f: spec_fn(int, V) -> int, lookup: Map<K, V>) -> spec_fn(int, K) -> int {
    |acc: int, k: K| f(acc, lookup[k])
}

proof fn lemma_fold_values<K, V>(s: Seq<K>, lookup: Map<K, V>, b: int, f: spec_fn(int, V) -> int)
    ensures
        values_of(s, lookup).fold_left(b, f) == s.fold_left(b, lift(f, lookup)),
    decreases s.len(),
{
    if s.len() > 0 {
        lemma_fold_values(s.drop_last(), lookup, b, f);
        assert(values_of(s, lookup).drop_last() =~= values_of(s.drop_last(), lookup));
    }
}

proof fn lemma_fold_values_permute<K, V>(
    s1: Seq<K>,
    s2: Seq<K>,
    lookup: Map<K, V>,
    b: int,
    f: spec_fn(int, V) -> int,
)
    requires
        commutative_foldl(f),
        s1.to_multiset() == s2.to_multiset(),
    ensures
        values_of(s1, lookup).fold_left(b, f) == values_of(s2, lookup).fold_left(b, f),
{
    let g = lift(f, lookup);
    assert forall|x: K, y: K, v: int| #[trigger] g(g(v, x), y) == g(g(v, y), x) by {
        assert(f(f(v, lookup[x]), lookup[y]) == f(f(v, lookup[y]), lookup[x]));
    }
    lemma_fold_values(s1, lookup, b, f);
    lemma_fold_values(s2, lookup, b, f);
    lemma_fold_left_permutation(s1, s2, g, b);
}

/// Two lists of the same set, each without repetition, hold the same
/// elements the same number of times.
proof fn lemma_listings_permute<K>(s1: Seq<K>, s2: Seq<K>, set: Set<K>)
    requires
        lists(s1, set),
        lists(s2, set),
    ensures
        s1.to_multiset() == s2.to_multiset(),
{
    broadcast use vstd::seq_lib::group_to_multiset_ensures;

    s1.lemma_multiset_has_no_duplicates();
    s2.lemma_multiset_has_no_duplicates();
    assert forall|x: K| s1.to_multiset().count(x) == s2.to_multiset().count(x) by {
        assert(s1.to_set().contains(x) == s1.contains(x));
        assert(s2.to_set().contains(x) == s2.contains(x));
        if s1.contains(x) {
            assert(s1.to_multiset().contains(x));
            assert(s2.to_multiset().contains(x));
        }
    }
    assert(s1.to_multiset() =~= s2.to_multiset());
}

/// The keys of one set only followed by those of the other set only list the
/// symmetric difference of the sets.
proof fn lemma_distinct_listing<K>(left_only: Seq<K>, right_only: Seq<K>, l: Set<K>, r: Set<K>)
    requires
        lists(left_only, l.difference(r)),
        lists(right_only, r.difference(l)),
    ensures
        lists(left_only + right_only, l.difference(r).union(r.difference(l))),
{
    assert forall|i: int, j: int|
        0 <= i < left_only.len() && 0 <= j < right_only.len() implies left_only[i] != right_only[j] by {
        assert(left_only.to_set().contains(left_only[i]));
        assert(right_only.to_set().contains(right_only[j]));
    }
    lemma_no_dup_in_concat(left_only, right_only);
    seq_to_set_distributes_over_add(left_only, right_only);
}

/// The data of every router is fixed by the routers of the two halves.
proof fn lemma_lhr_lookup_unique(
    lk1: Map<LhrAddr, LhrDiff>,
    lk2: Map<LhrAddr, LhrDiff>,
    l: Map<LhrAddr, crate::measurement::LhrItem>,
    r: Map<LhrAddr, crate::measurement::LhrItem>,
)
    requires
        is_lhr_lookup(lk1, l, r),
        is_lhr_lookup(lk2, l, r),
    ensures
        lk1 == lk2,
{
    broadcast use vstd::array::group_array_axioms;

    assert forall|k: LhrAddr| #[trigger] lk1.contains_key(k) implies lk1[k] == lk2[k] by {
        assert(lk2.contains_key(k));
        assert(lk1[k].hit_counts@ == lk2[k].hit_counts@);
        assert(lk1[k].hit_counts =~= lk2[k].hit_counts);
    }
    assert(lk1 =~= lk2);
}

/// The hits of every weird kind are fixed by the weird responses of the two
/// halves.
proof fn lemma_weird_lookup_unique(
    lk1: Map<u8, WeirdItem>,
    lk2: Map<u8, WeirdItem>,
    l: Map<u8, WeirdItem>,
    r: Map<u8, WeirdItem>,
)
    requires
        is_weird_lookup(lk1, l, r),
        is_weird_lookup(lk2, l, r),
    ensures
        lk1 == lk2,
{
    assert forall|k: u8| #[trigger] lk1.contains_key(k) implies lk1[k] == lk2[k] by {
        assert(lk2.contains_key(k));
    }
    assert(lk1 =~= lk2);
}

/// The sums over the routers of a list do not depend on the list's order.
proof fn lemma_lhr_specs_permute<K>(s1: Seq<K>, s2: Seq<K>, lookup: Map<K, LhrDiff>)
    requires
        s1.to_multiset() == s2.to_multiset(),
    ensures
        values_of(s1, lookup).len() == values_of(s2, lookup).len(),
        sum_of_totals(values_of(s1, lookup)) == sum_of_totals(values_of(s2, lookup)),
        sum_deranked(values_of(s1, lookup)) == sum_deranked(values_of(s2, lookup)),
        same_multi_spec(values_of(s1, lookup)) == same_multi_spec(values_of(s2, lookup)),
{
    broadcast use vstd::seq_lib::group_to_multiset_ensures;

    let v1 = values_of(s1, lookup);
    let v2 = values_of(s2, lookup);
    assert(s1.to_multiset().len() == s1.len() && s2.to_multiset().len() == s2.len());
    assert(commutative_foldl(add_total()));
    assert(commutative_foldl(keep_most()));
    assert(commutative_foldl(add_side(0)));
    assert(commutative_foldl(add_side(1)));
    lemma_fold_values_permute(s1, s2, lookup, 0int, add_total());
    lemma_fold_values_permute(s1, s2, lookup, i32::MIN as int, keep_most());
    lemma_fold_values_permute(s1, s2, lookup, 0int, add_side(0));
    lemma_fold_values_permute(s1, s2, lookup, 0int, add_side(1));
    let most = max_total(v1);
    assert(max_total(v2) == most);
    assert(commutative_foldl(add_deranked(most)));
    lemma_fold_values_permute(s1, s2, lookup, 0int, add_deranked(most));
    let (t0, t1) = (side_total(v1, 0), side_total(v1, 1));
    assert(side_total(v2, 0) == t0 && side_total(v2, 1) == t1);
    if ratio_differs(v1) {
        let k = choose|k: int| 0 <= k < v1.len() && #[trigger] ratio_differs_at(v1[k], t0, t1);
        assert(s1.contains(s1[k]));
        assert(s1.to_multiset().count(s1[k]) > 0);
        assert(s2.contains(s1[k]));
        let j = choose|j: int| 0 <= j < s2.len() && s2[j] == s1[k];
        assert(v2[j] == v1[k]);
        assert(ratio_differs_at(v2[j], t0, t1));
    }
    if ratio_differs(v2) {
        let k = choose|k: int| 0 <= k < v2.len() && #[trigger] ratio_differs_at(v2[k], t0, t1);
        assert(s2.contains(s2[k]));
        assert(s2.to_multiset().count(s2[k]) > 0);
        assert(s1.contains(s2[k]));
        let j = choose|j: int| 0 <= j < s1.len() && s1[j] == s2[k];
        assert(v1[j] == v2[k]);
        assert(ratio_differs_at(v1[j], t0, t1));
    }
}

/// The single element of a list without repetition is the set's element.
proof fn lemma_single_listing<K>(s1: Seq<K>, s2: Seq<K>, set: Set<K>)
    requires
        lists(s1, set),
        lists(s2, set),
        s1.len() == 1,
        s2.len() == 1,
    ensures
        s1[0] == s2[0],
{
    assert(s1.to_set().contains(s1[0]));
    assert(s2.contains(s1[0]));
}

proof fn lemma_lhr_recommendation_unique(subnets: Subnets, d1: DiffView<LhrDiff>, d2: DiffView<LhrDiff>)
    requires
        possible_lhr_diff(subnets, d1),
        possible_lhr_diff(subnets, d2),
    ensures
        lhr_recommendation(d1) == lhr_recommendation(d2),
{
    broadcast use vstd::seq_lib::group_to_multiset_ensures;

    let l = subnets.half(0).tree().last_hop_routers@;
    let r = subnets.half(1).tree().last_hop_routers@;
    let lk1 = choose|lookup: Map<LhrAddr, LhrDiff>|
        is_lhr_lookup(lookup, l, r) && is_diff_of(d1, l.dom(), r.dom(), lookup);
    let lk2 = choose|lookup: Map<LhrAddr, LhrDiff>|
        is_lhr_lookup(lookup, l, r) && is_diff_of(d2, l.dom(), r.dom(), lookup);
    lemma_lhr_lookup_unique(lk1, lk2, l, r);
    let (b1, lo1, ro1) = choose|both: Seq<LhrAddr>, left_only: Seq<LhrAddr>, right_only: Seq<LhrAddr>|
        lists(both, l.dom().intersect(r.dom())) && lists(left_only, l.dom().difference(r.dom())) && lists(
            right_only,
            r.dom().difference(l.dom()),
        ) && d1 == diff_spec(values_of(both, lk1), values_of(left_only + right_only, lk1));
    let (b2, lo2, ro2) = choose|both: Seq<LhrAddr>, left_only: Seq<LhrAddr>, right_only: Seq<LhrAddr>|
        lists(both, l.dom().intersect(r.dom())) && lists(left_only, l.dom().difference(r.dom())) && lists(
            right_only,
            r.dom().difference(l.dom()),
        ) && d2 == diff_spec(values_of(both, lk2), values_of(left_only + right_only, lk2));
    lemma_listings_permute(b1, b2, l.dom().intersect(r.dom()));
    lemma_distinct_listing(lo1, ro1, l.dom(), r.dom());
    lemma_distinct_listing(lo2, ro2, l.dom(), r.dom());
    lemma_listings_permute(lo1 + ro1, lo2 + ro2, l.dom().difference(r.dom()).union(r.dom().difference(l.dom())));
    lemma_lhr_specs_permute(b1, b2, lk1);
    lemma_lhr_specs_permute(lo1 + ro1, lo2 + ro2, lk1);
    if b1.len() == 1 {
        lemma_single_listing(b1, b2, l.dom().intersect(r.dom()));
    }
}

proof fn lemma_weird_recommendation_unique(subnets: Subnets, w1: DiffView<WeirdItem>, w2: DiffView<WeirdItem>)
    requires
        possible_weird_diff(subnets, w1),
        possible_weird_diff(subnets, w2),
    ensures
        weird_recommendation(w1, unresponsive_total(subnets)) == weird_recommendation(
            w2,
            unresponsive_total(subnets),
        ),
{
    broadcast use vstd::seq_lib::group_to_multiset_ensures;

    let l = subnets.half(0).tree().weirdness@;
    let r = subnets.half(1).tree().weirdness@;
    let lk1 = choose|lookup: Map<u8, WeirdItem>|
        is_weird_lookup(lookup, l, r) && is_diff_of(w1, l.dom(), r.dom(), lookup);
    let lk2 = choose|lookup: Map<u8, WeirdItem>|
        is_weird_lookup(lookup, l, r) && is_diff_of(w2, l.dom(), r.dom(), lookup);
    lemma_weird_lookup_unique(lk1, lk2, l, r);
    let (b1, lo1, ro1) = choose|both: Seq<u8>, left_only: Seq<u8>, right_only: Seq<u8>|
        lists(both, l.dom().intersect(r.dom())) && lists(left_only, l.dom().difference(r.dom())) && lists(
            right_only,
            r.dom().difference(l.dom()),
        ) && w1 == diff_spec(values_of(both, lk1), values_of(left_only + right_only, lk1));
    let (b2, lo2, ro2) = choose|both: Seq<u8>, left_only: Seq<u8>, right_only: Seq<u8>|
        lists(both, l.dom().intersect(r.dom())) && lists(left_only, l.dom().difference(r.dom())) && lists(
            right_only,
            r.dom().difference(l.dom()),
        ) && w2 == diff_spec(values_of(both, lk2), values_of(left_only + right_only, lk2));
    lemma_listings_permute(b1, b2, l.dom().intersect(r.dom()));
    lemma_distinct_listing(lo1, ro1, l.dom(), r.dom());
    lemma_distinct_listing(lo2, ro2, l.dom(), r.dom());
    lemma_listings_permute(lo1 + ro1, lo2 + ro2, l.dom().difference(r.dom()).union(r.dom().difference(l.dom())));
    assert(b1.to_multiset().len() == b1.len() && b2.to_multiset().len() == b2.len());
    assert((lo1 + ro1).to_multiset().len() == (lo1 + ro1).len());
    assert((lo2 + ro2).to_multiset().len() == (lo2 + ro2).len());
    assert(commutative_foldl(add_weird()));
    lemma_fold_values_permute(b1, b2, lk1, 0int, add_weird());
    lemma_fold_values_permute(lo1 + ro1, lo2 + ro2, lk1, 0int, add_weird());
    if b1.len() == 1 {
        lemma_single_listing(b1, b2, l.dom().intersect(r.dom()));
    }
}

} // verus!
