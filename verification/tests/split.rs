use std::collections::{HashMap, HashSet};

use aggregator::confidence::{rate, rate_with_thresh, Confidence};
use aggregator::measurement::{LhrItem, LhrSource, LhrSources, MeasurementTree, WeirdType};
use aggregator::prefix::Ipv6Prefix;
use aggregator::recommend::{recommend, PriorityClass, ReProbePriority, SplitRecommendation};
use aggregator::subnet::{lookup_diff, split_in_halves, Diff, Subnet, Subnets};
use ipnet::Ipv6Net;

const TREE_BASE_NET: &str = "2001:db8::/32";
const TREE_LEFT_NET: &str = "2001:db8:101::/64";
const TREE_RIGHT_NET: &str = "2001:db8:beef::/64";
const TREE_RIGHT_NET_ALT: &str = "2001:db8:b00f::/64";
const TREE_LHR_101: &str = "2001:db8:101::1";
const TREE_LHR_BEEF: &str = "2001:db8:beef::20";

fn net(input: &str) -> Ipv6Prefix {
    let parsed: Ipv6Net = input.parse().expect(input);
    Ipv6Prefix { addr: u128::from(parsed.addr()), len: parsed.prefix_len() }
}

fn addr(input: &str) -> u128 {
    let parsed: Ipv6Net = format!("{}/128", input).parse().expect(input);
    u128::from(parsed.addr())
}

fn gen_tree_with_lhr_101(net_str: &str, hits: i32) -> MeasurementTree {
    let mut tree = MeasurementTree::empty(net(net_str));
    tree.add_lhr_no_sum(addr(TREE_LHR_101), LhrSources::single(LhrSource::UnreachAddr), hits);
    tree
}

fn gen_tree_with_lhr_beef(net_str: &str, hits: i32) -> MeasurementTree {
    let mut tree = MeasurementTree::empty(net(net_str));
    gen_add_lhr_beef(&mut tree, hits);
    tree
}

fn gen_add_lhr_beef(tree: &mut MeasurementTree, hits: i32) {
    gen_add_lhr(tree, TREE_LHR_BEEF, hits);
}

fn gen_add_lhr(tree: &mut MeasurementTree, lhr: &str, hits: i32) {
    tree.add_lhr_no_sum(addr(lhr), LhrSources::single(LhrSource::Trace), hits);
}

fn gen_measurements_complex() -> Vec<MeasurementTree> {
    let left = gen_tree_with_lhr_101(TREE_LEFT_NET, 14);
    let mut first_right = gen_tree_with_lhr_101(TREE_RIGHT_NET, 9);
    gen_add_lhr_beef(&mut first_right, 6);
    let second_right = gen_tree_with_lhr_beef(TREE_RIGHT_NET_ALT, 18);
    vec![left, first_right, second_right]
}

fn subnets_of(measurements: &[MeasurementTree]) -> Subnets {
    let halves = split_in_halves(net(TREE_BASE_NET)).unwrap();
    Subnets::new(halves, measurements).expect("counts fit")
}

fn when_recommend(measurements: Vec<MeasurementTree>) -> SplitRecommendation {
    recommend(&subnets_of(&measurements))
}

fn priority(class: PriorityClass, supporting_observations: i32) -> ReProbePriority {
    ReProbePriority { class, supporting_observations }
}

#[test]
fn same_single_lhr() {
    let measurements = vec![gen_tree_with_lhr_101(TREE_LEFT_NET, 2), gen_tree_with_lhr_101(TREE_RIGHT_NET, 7)];
    let rec = when_recommend(measurements);
    assert_eq!(rec, SplitRecommendation::NoKeep { priority: priority(PriorityClass::MediumSameSingle, 9) });
}

#[test]
fn same_multi_lhr_different_ratio() {
    let mut measurements = vec![
        gen_tree_with_lhr_101(TREE_LEFT_NET, 13),
        gen_tree_with_lhr_101(TREE_RIGHT_NET, 31),
    ];
    for measurement in &mut measurements {
        gen_add_lhr_beef(measurement, 8);
    }
    let rec = when_recommend(measurements);
    // (13+31)/2 + 2*8
    assert_eq!(rec, SplitRecommendation::YesSplit { priority: priority(PriorityClass::MediumSameMulti, 38) });
}

#[test]
fn same_multi_lhr_same_many() {
    let mut measurements = vec![
        gen_tree_with_lhr_101(TREE_LEFT_NET, 12),
        gen_tree_with_lhr_101(TREE_RIGHT_NET, 500),
    ];
    let lhrs = ["2001:db8:baba::1", "2001:db8:baba::2", "2001:db8:baba::3", "2001:db8:baba::4"];
    for lhr in lhrs {
        for tree in measurements.iter_mut() {
            gen_add_lhr(tree, lhr, 4);
        }
    }
    let rec = when_recommend(measurements);
    assert_eq!(rec, SplitRecommendation::NoKeep { priority: priority(PriorityClass::MediumSameMany, 136) });
}

#[test]
fn same_multi_lhr_same_ratio_few_hits_pos() {
    let mut measurements = vec![
        gen_tree_with_lhr_101(TREE_LEFT_NET, 100),
        gen_tree_with_lhr_101(TREE_RIGHT_NET, 170),
    ];
    gen_add_lhr_beef(&mut measurements[0], 100);
    gen_add_lhr_beef(&mut measurements[1], 104);
    let rec = when_recommend(measurements);
    assert_eq!(rec, SplitRecommendation::NoKeep { priority: priority(PriorityClass::MediumSameRatio, 474) });
}

#[test]
fn same_multi_lhr_same_ratio_swapped() {
    let mut measurements = vec![
        gen_tree_with_lhr_101(TREE_LEFT_NET, 104),
        gen_tree_with_lhr_101(TREE_RIGHT_NET, 100),
    ];
    for measurement in &mut measurements {
        gen_add_lhr_beef(measurement, 100);
    }
    let rec = when_recommend(measurements);
    assert_eq!(rec, SplitRecommendation::NoKeep { priority: priority(PriorityClass::MediumSameRatio, 404) });
}

#[test]
fn same_multi_lhr_same_ratio_many_hits_pos() {
    let mut measurements = vec![
        gen_tree_with_lhr_101(TREE_LEFT_NET, 211387),
        gen_tree_with_lhr_101(TREE_RIGHT_NET, 259860),
    ];
    gen_add_lhr_beef(&mut measurements[0], 12576);
    gen_add_lhr_beef(&mut measurements[1], 13342);
    let rec = when_recommend(measurements);
    assert_eq!(rec, SplitRecommendation::NoKeep { priority: priority(PriorityClass::MediumSameRatio, 497165) });
}

#[test]
fn same_multi_lhr_same_ratio_many_hits_neg() {
    let mut measurements = vec![
        gen_tree_with_lhr_101(TREE_LEFT_NET, 211387),
        gen_tree_with_lhr_101(TREE_RIGHT_NET, 283860),
    ];
    gen_add_lhr_beef(&mut measurements[0], 12576);
    gen_add_lhr_beef(&mut measurements[1], 13342);
    let rec = when_recommend(measurements);
    assert_eq!(rec, SplitRecommendation::NoKeep { priority: priority(PriorityClass::MediumSameRatio, 521165) });
}

#[test]
fn same_multi_lhr_same_ratio_abs_percent() {
    let mut measurements = vec![
        gen_tree_with_lhr_101(TREE_LEFT_NET, 151),
        gen_tree_with_lhr_101(TREE_RIGHT_NET, 159),
    ];
    gen_add_lhr_beef(&mut measurements[0], 2672);
    gen_add_lhr_beef(&mut measurements[1], 2834);
    let rec = when_recommend(measurements);
    assert_eq!(rec, SplitRecommendation::NoKeep { priority: priority(PriorityClass::MediumSameRatio, 5816) });
}

#[test]
fn overlapping() {
    let mut measurements = vec![gen_tree_with_lhr_101(TREE_LEFT_NET, 2), gen_tree_with_lhr_101(TREE_RIGHT_NET, 3)];
    gen_add_lhr_beef(&mut measurements[0], 12);
    let rec = when_recommend(measurements);
    // 5/2 + 12
    assert_eq!(rec, SplitRecommendation::YesSplit { priority: priority(PriorityClass::HighOverlapping, 14) });
}

#[test]
fn disjoint() {
    let measurements = vec![
        gen_tree_with_lhr_101(TREE_LEFT_NET, 2),
        gen_tree_with_lhr_beef(TREE_RIGHT_NET, 3),
        gen_tree_with_lhr_beef(TREE_RIGHT_NET_ALT, 3),
    ];
    let rec = when_recommend(measurements);
    assert_eq!(rec, SplitRecommendation::YesSplit { priority: priority(PriorityClass::HighDisjoint, 8) });
}

#[test]
fn recommend_without_any_data_counts_unresponsive() {
    let mut left = MeasurementTree::empty(net(TREE_LEFT_NET));
    left.unresponsive_count = 3;
    let mut right = MeasurementTree::empty(net(TREE_RIGHT_NET));
    right.unresponsive_count = 4;
    let rec = when_recommend(vec![left, right]);
    assert_eq!(rec, SplitRecommendation::CannotDetermine { priority: priority(PriorityClass::LowUnknown, 7) });
    assert!(!rec.should_split());
}

#[test]
fn recommend_same_single_weird_keeps() {
    let mut left = MeasurementTree::empty(net(TREE_LEFT_NET));
    left.add_weird_no_sum(WeirdType::TtlExceededForEcho, 2);
    let mut right = MeasurementTree::empty(net(TREE_RIGHT_NET));
    right.add_weird_no_sum(WeirdType::TtlExceededForEcho, 5);
    let rec = when_recommend(vec![left, right]);
    assert_eq!(rec, SplitRecommendation::NoKeep { priority: priority(PriorityClass::LowWeird, 7) });
}

#[test]
fn recommend_different_weirds_split() {
    let mut left = MeasurementTree::empty(net(TREE_LEFT_NET));
    left.add_weird_no_sum(WeirdType::TtlExceededForEcho, 2);
    left.add_weird_no_sum(WeirdType::UnexpectedIcmpType, 4);
    let mut right = MeasurementTree::empty(net(TREE_RIGHT_NET));
    right.add_weird_no_sum(WeirdType::TtlExceededForEcho, 5);
    right.add_weird_no_sum(WeirdType::DestUnreachOther, 6);
    let rec = when_recommend(vec![left, right]);
    assert_eq!(rec, SplitRecommendation::YesSplit { priority: priority(PriorityClass::MediumMultiWeird, 10) });
    assert!(rec.should_split());
    assert_eq!(rec.priority().class, PriorityClass::MediumMultiWeird);
}

#[test]
fn recommend_same_weirds_undetermined() {
    let mut left = MeasurementTree::empty(net(TREE_LEFT_NET));
    left.add_weird_no_sum(WeirdType::TtlExceededForEcho, 2);
    left.add_weird_no_sum(WeirdType::UnexpectedIcmpType, 4);
    let mut right = MeasurementTree::empty(net(TREE_RIGHT_NET));
    right.add_weird_no_sum(WeirdType::TtlExceededForEcho, 5);
    right.add_weird_no_sum(WeirdType::UnexpectedIcmpType, 1);
    let rec = when_recommend(vec![left, right]);
    assert_eq!(
        rec,
        SplitRecommendation::CannotDetermine { priority: priority(PriorityClass::MediumMultiWeird, 12) }
    );
}

#[test]
fn recommend_does_not_depend_on_insertion_order() {
    let lhrs = ["2001:db8:baba::1", "2001:db8:baba::2", "2001:db8:baba::3"];
    let mut forward = vec![gen_tree_with_lhr_101(TREE_LEFT_NET, 40), gen_tree_with_lhr_101(TREE_RIGHT_NET, 7)];
    let mut backward = vec![gen_tree_with_lhr_101(TREE_LEFT_NET, 40), gen_tree_with_lhr_101(TREE_RIGHT_NET, 7)];
    for (i, lhr) in lhrs.iter().enumerate() {
        gen_add_lhr(&mut forward[0], lhr, 10 + i as i32);
        gen_add_lhr(&mut backward[0], lhrs[lhrs.len() - 1 - i], 12 - i as i32);
    }
    assert_eq!(when_recommend(forward), when_recommend(backward));
}

// Confidence thresholds of observations: 64 for a /64, 65536 for a /24.
#[test]
fn keep_responses_confidence_google_sheet() {
    let cases: [(u32, i32, Confidence); 5] =
        [(64, 4, 6), (64, 32, 50), (64, 64, 100), (64, 678123, 255), (65536, 32768, 50)];
    for (keep_thresh, evidence, expected) in cases {
        let rec = SplitRecommendation::NoKeep { priority: priority(PriorityClass::MediumSameMulti, evidence) };
        let actual = rate(1, keep_thresh, &rec);
        assert_eq!(actual, expected, "threshold {}: expected {}% but got {}%", keep_thresh, expected, actual);
    }
}

#[test]
fn confidence_split_uses_split_threshold() {
    let rec = SplitRecommendation::YesSplit { priority: priority(PriorityClass::HighDisjoint, 30) };
    assert_eq!(rate(60, 1, &rec), 50);
    let negative = priority(PriorityClass::HighDisjoint, -5);
    assert_eq!(rate_with_thresh(&negative, 10), 0);
    let huge = priority(PriorityClass::HighDisjoint, i32::MAX);
    assert_eq!(rate_with_thresh(&huge, 1), 255);
}

#[test]
fn new_empty() {
    let subnets = subnets_of(&[]);
    assert_eq!(subnets.halves().len(), 2);
    assert_eq!(subnets.halves()[0].network, net("2001:db8::/33"));
    assert_eq!(subnets.halves()[1].network, net("2001:db8:8000::/33"));
}

fn then_contains_lhr_101(sub: &Subnet, hit_count: i32) {
    assert_eq!(
        sub.synthetic_tree().last_hop_routers.get(&addr(TREE_LHR_101)),
        Some(&LhrItem { hit_count, sources: LhrSources::single(LhrSource::UnreachAddr) })
    );
}

fn then_contains_lhr_beef(sub: &Subnet, hit_count: i32) {
    assert_eq!(
        sub.synthetic_tree().last_hop_routers.get(&addr(TREE_LHR_BEEF)),
        Some(&LhrItem { hit_count, sources: LhrSources::single(LhrSource::Trace) })
    );
}

fn then_lhr_count(sub: &Subnet, expected: usize) {
    assert_eq!(sub.synthetic_tree().last_hop_routers.len(), expected);
}

#[test]
fn new_check_merge() {
    let relevant_measurements = gen_measurements_complex();
    let subnets = subnets_of(&relevant_measurements);
    let [left, right] = subnets.halves();
    then_contains_lhr_101(left, 14);
    then_contains_lhr_beef(right, 24);
    then_contains_lhr_101(right, 9);
    then_lhr_count(left, 1);
    then_lhr_count(right, 2);
}

#[test]
fn new_check_disjoint() {
    let relevant_measurements = vec![
        gen_tree_with_lhr_101(TREE_LEFT_NET, 2),
        gen_tree_with_lhr_beef(TREE_RIGHT_NET, 3),
        gen_tree_with_lhr_beef(TREE_RIGHT_NET_ALT, 3),
    ];
    let subnets = subnets_of(&relevant_measurements);
    let [left, right] = subnets.halves();
    then_contains_lhr_101(left, 2);
    then_contains_lhr_beef(right, 6);
    then_lhr_count(left, 1);
    then_lhr_count(right, 1);
}

#[test]
fn new_skips_unrelated_tree() {
    let relevant_measurements = vec![gen_tree_with_lhr_101("2001:db9::/64", 5)];
    let subnets = subnets_of(&relevant_measurements);
    let [left, right] = subnets.halves();
    then_lhr_count(left, 0);
    then_lhr_count(right, 0);
}

#[test]
fn diff_from_both_none() {
    let shared: Vec<i32> = vec![];
    let distinct: Vec<i32> = vec![];
    let diff = Diff::from(shared, distinct);
    assert_eq!(diff, Diff::BothNone);
}

#[test]
fn diff_from_disjoint() {
    let shared: Vec<i32> = vec![];
    let distinct: Vec<i32> = vec![12];
    let diff = Diff::from(shared.clone(), distinct.clone());
    assert_eq!(diff, Diff::OverlappingOrDisjoint { shared, distinct });
}

#[test]
fn diff_from_distinct_with_shared() {
    let shared: Vec<i32> = vec![4];
    let distinct: Vec<i32> = vec![12];
    let diff = Diff::from(shared.clone(), distinct.clone());
    assert_eq!(diff, Diff::OverlappingOrDisjoint { shared, distinct });
}

#[test]
fn diff_from_same_single() {
    let shared: Vec<i32> = vec![4];
    let distinct: Vec<i32> = vec![];
    let diff = Diff::from(shared.clone(), distinct.clone());
    assert_eq!(diff, Diff::BothSameSingle { shared: 4 });
}

#[test]
fn diff_from_same_multi() {
    let shared: Vec<i32> = vec![4, 8];
    let distinct: Vec<i32> = vec![];
    let diff = Diff::from(shared.clone(), distinct.clone());
    assert_eq!(diff, Diff::BothSameMultiple { shared });
}

#[test]
fn diff_lookup_both_set() {
    let left_set: HashSet<i32> = vec![4, 8].into_iter().collect();
    let right_set: HashSet<i32> = vec![4, 12].into_iter().collect();
    let mut lookup = HashMap::new();
    lookup.insert(4, "shared");
    lookup.insert(8, "left only");
    lookup.insert(12, "right only");
    let diff = lookup_diff([left_set, right_set], lookup);
    assert_eq!(diff, Diff::OverlappingOrDisjoint { shared: vec!["shared"], distinct: vec!["left only", "right only"] });
}
