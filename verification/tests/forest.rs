use aggregator::adjacent::{AdjacencyError, AdjacentNets};
use aggregator::analysis::{SplitAnalysis, SplitAnalysisResult, Stage};
use aggregator::collapse::{collapse_forest, trees_to_save, CollapseError};
use aggregator::echo::EchoFollowUp;
use aggregator::as_budget::fill_again;
use aggregator::follow_up::{
    flatten_request, follow_up_chances, kept_follow_up_targets, skip_follow_ups, Chance, FollowUpRequest,
};
use aggregator::forest::{ForestError, MeasurementForest, ModifiableTree, ModificationType};
use aggregator::interpretation::Interpretation;
use aggregator::measurement::{IpNetwork, LhrSource, LhrSources, MeasurementTree};
use aggregator::prefix::Ipv6Prefix;
use aggregator::recommend::{PriorityClass, ReProbePriority, SplitRecommendation, ALGO_VERSION};
use aggregator::save::{make_tree, split_changes};
use aggregator::split::{admittance, decide, Admittance, SplitDecision};
use aggregator::subnet::{split_in_halves, SubnetError, Subnets};
use ipnet::Ipv6Net;

fn net(input: &str) -> Ipv6Prefix {
    let parsed: Ipv6Net = input.parse().expect(input);
    Ipv6Prefix { addr: u128::from(parsed.addr()), len: parsed.prefix_len() }
}

fn tree_with_hits(net_str: &str, responsive: i32) -> MeasurementTree {
    let mut tree = MeasurementTree::empty(net(net_str));
    tree.responsive_count = responsive;
    tree
}

fn v6(tree: &MeasurementTree) -> Ipv6Prefix {
    match tree.target_net {
        IpNetwork::V6(n) => n,
        IpNetwork::V4 { .. } => panic!("not v6"),
    }
}

#[test]
fn forest_merges_more_specific_into_container() {
    let trees = vec![
        tree_with_hits("2001:db8::/48", 1),
        tree_with_hits("2001:db8:0:1::/64", 2),
        tree_with_hits("2001:db8:1:1::/64", 4),
    ];
    let forest = MeasurementForest::with_untouched(trees).expect("plants");
    assert_eq!(forest.obsolete_nets, vec![net("2001:db8:0:1::/64")]);
    let nets = forest.to_iter_all_nets();
    assert_eq!(nets, vec![net("2001:db8::/48"), net("2001:db8:1:1::/64")]);
    let out = forest.into_iter_touched();
    assert_eq!(out.len(), 2);
    assert_eq!(out[0].tree.responsive_count, 3);
    assert_eq!(out[0].touched, ModificationType::Untouched);
    assert_eq!(out[1].tree.responsive_count, 4);
    assert_eq!(out[1].touched, ModificationType::Untouched);
}

#[test]
fn forest_insert_marks_changes() {
    let mut forest = MeasurementForest::with_untouched(vec![tree_with_hits("2001:db8::/48", 1)]).unwrap();
    assert!(forest.insert(tree_with_hits("2001:db8:0:1::/64", 2)).unwrap());
    assert!(!forest.insert(tree_with_hits("2001:db9:0:1::/64", 5)).unwrap());
    assert!(forest.insert(tree_with_hits("2001:db9:0:1::/64", 6)).unwrap());
    assert!(!forest.insert(tree_with_hits("2001:db9::/48", 1)).unwrap());
    assert!(forest.obsolete_nets.is_empty());
    let out = forest.into_iter_touched();
    assert_eq!(out.len(), 3);
    assert_eq!(out[0].touched, ModificationType::Updated);
    assert_eq!(out[0].tree.responsive_count, 3);
    assert_eq!(out[1].touched, ModificationType::Inserted);
    assert_eq!(v6(&out[1].tree), net("2001:db9::/48"));
    assert_eq!(out[2].touched, ModificationType::Inserted);
    assert_eq!(out[2].tree.responsive_count, 11);
    assert_eq!(v6(&out[2].tree), net("2001:db9:0:1::/64"));
}

#[test]
fn forest_refuses_too_specific() {
    let mut forest = MeasurementForest::default();
    let res = forest.insert(tree_with_hits("2001:db8::/80", 1));
    assert_eq!(res, Err(ForestError::TooSpecific { net: net("2001:db8::/80") }));
}

#[test]
fn forest_refuses_ipv4() {
    let mut tree = MeasurementTree::empty(net("2001:db8::/48"));
    tree.target_net = IpNetwork::V4 { addr: 0x0a00_0000, len: 8 };
    let res = MeasurementForest::with_untouched(vec![tree]);
    assert!(matches!(res, Err(ForestError::Ipv4Tree)));
}

#[test]
fn collapse_merges_into_subnets_four_bits_longer() {
    let trees = vec![
        tree_with_hits("2001:db8:0:1::/64", 2),
        tree_with_hits("2001:db8:0:2::/64", 3),
        tree_with_hits("2001:db8:1000::/64", 7),
    ];
    let forest = collapse_forest(net("2001:db8::/32"), trees).expect("collapses");
    let nets = forest.to_iter_all_nets();
    assert_eq!(nets.len(), 16);
    assert_eq!(nets[0], net("2001:db8::/36"));
    assert_eq!(nets[1], net("2001:db8:1000::/36"));
    let out = forest.into_iter_touched();
    assert_eq!(out[0].tree.responsive_count, 5);
    assert_eq!(out[1].tree.responsive_count, 7);
    let saved = trees_to_save(out);
    assert_eq!(saved.len(), 2);
}

#[test]
fn collapse_of_long_prefix_goes_to_64() {
    let trees = vec![tree_with_hits("2001:db8:0:1::/64", 2)];
    let forest = collapse_forest(net("2001:db8::/62"), trees).expect("collapses");
    assert_eq!(forest.to_iter_all_nets().len(), 4);
}

#[test]
fn collapse_refuses_too_long() {
    let res = collapse_forest(net("2001:db8::/80"), vec![]);
    assert!(matches!(res, Err(CollapseError::TooLong)));
}

#[test]
fn collapse_reports_forest_error() {
    let res = collapse_forest(net("2001:db8::/32"), vec![tree_with_hits("2001:db9::/96", 1)]);
    assert!(matches!(res, Err(CollapseError::Forest(ForestError::TooSpecific { .. }))));
}

#[test]
fn split_changes_sorts_by_modification() {
    let trees = vec![
        ModifiableTree { tree: tree_with_hits("2001:db8:0:1::/64", 1), touched: ModificationType::Inserted },
        ModifiableTree { tree: tree_with_hits("2001:db8:0:2::/64", 2), touched: ModificationType::Untouched },
        ModifiableTree { tree: tree_with_hits("2001:db8:0:3::/64", 3), touched: ModificationType::Updated },
        ModifiableTree { tree: tree_with_hits("2001:db8:0:4::/64", 4), touched: ModificationType::Inserted },
    ];
    let (inserts, updates) = split_changes(trees);
    assert_eq!(inserts.iter().map(|t| t.responsive_count).collect::<Vec<_>>(), vec![1, 4]);
    assert_eq!(updates.iter().map(|t| t.responsive_count).collect::<Vec<_>>(), vec![3]);
}

#[test]
fn interpretation_drains_to_inserted_trees() {
    let router = 0x2001_0db8_ffff_0000_0000_0000_0000_0001u128;
    let mut interp = Interpretation::default();
    let a = net("2001:db8:0:1::/64").addr;
    interp.register_lhrs(&[a | 1, a | 2], router, LhrSource::Trace);
    interp.count_unresponsive(&[a | 3]);
    let forest = interp.drain_to_measurement_forest().expect("plants");
    assert_eq!(interp.len(), 0);
    let out = forest.into_iter_touched();
    assert_eq!(out.len(), 1);
    assert_eq!(out[0].touched, ModificationType::Inserted);
    assert_eq!(v6(&out[0].tree), net("2001:db8:0:1::/64"));
    assert_eq!(out[0].tree.responsive_count, 2);
    assert_eq!(out[0].tree.unresponsive_count, 1);
    let item = &out[0].tree.last_hop_routers[&router];
    assert_eq!(item.hit_count, 2);
    assert_eq!(item.sources, LhrSources::single(LhrSource::Trace));
}

#[test]
fn make_tree_copies_counts() {
    let mut interp = Interpretation::default();
    let a = net("2001:db8:0:7::/64").addr;
    interp.count_other_responsive(&[a | 1]);
    let (n, prefix) = interp.drain().pop().unwrap();
    let tree = make_tree(n, prefix);
    assert_eq!(tree.responsive_count, 1);
    assert_eq!(tree.target_net, IpNetwork::V6(net("2001:db8:0:7::/64")));
}

#[test]
fn adjacent_nets_of_halves() {
    let lower = AdjacentNets::try_from(net("2001:db8::/33")).unwrap();
    assert_eq!(lower.parent, net("2001:db8::/32"));
    assert_eq!(lower.sibling, net("2001:db8:8000::/33"));
    let upper = AdjacentNets::try_from(net("2001:db8:8000::/33")).unwrap();
    assert_eq!(upper.own, net("2001:db8:8000::/33"));
    assert_eq!(upper.sibling, net("2001:db8::/33"));
}

#[test]
fn adjacent_nets_errors() {
    assert_eq!(AdjacentNets::try_from(net("::/0")), Err(AdjacencyError::NoParent));
    assert_eq!(AdjacentNets::try_from(net("2001:db8::1/33")), Err(AdjacencyError::SeveralSiblings));
}

fn follow_up(targets: Vec<u128>) -> EchoFollowUp {
    EchoFollowUp { targets, for_responsive: true }
}

#[test]
fn kept_targets_follow_keep_marks() {
    let fus = vec![follow_up(vec![1, 2]), follow_up(vec![3]), follow_up(vec![4, 5])];
    assert_eq!(kept_follow_up_targets(fus, &[true, false, true]), vec![1, 2, 4, 5]);
    let fus = vec![follow_up(vec![1, 2])];
    assert!(kept_follow_up_targets(fus, &[false]).is_empty());
}

#[test]
fn skip_follow_ups_by_confidence() {
    assert!(skip_follow_ups(101, true, false));
    assert!(!skip_follow_ups(100, true, false));
    assert!(skip_follow_ups(61, false, true));
    assert!(!skip_follow_ups(60, true, true));
    assert!(!skip_follow_ups(255, false, false));
}

#[test]
fn flatten_request_keeps_id_and_known_targets() {
    for _ in 0..20 {
        let req = FollowUpRequest { id: 7, confidence: 0, follow_ups: vec![follow_up(vec![1, 2]), follow_up(vec![3])] };
        let res = flatten_request(req);
        assert_eq!(res.id, 7);
        let ok = [vec![], vec![1, 2], vec![3], vec![1, 2, 3]];
        assert!(ok.contains(&res.targets));
    }
}

#[test]
fn admittance_cases() {
    assert_eq!(admittance(false, true), Admittance::Skip);
    assert_eq!(admittance(true, true), Admittance::MarkBlocked);
    assert_eq!(admittance(true, false), Admittance::Analyse);
}

fn prio() -> ReProbePriority {
    ReProbePriority { class: PriorityClass::HighDisjoint, supporting_observations: 12 }
}

#[test]
fn decide_on_confidence() {
    let yes = SplitRecommendation::YesSplit { priority: prio() };
    let no = SplitRecommendation::NoKeep { priority: prio() };
    let unsure = SplitRecommendation::CannotDetermine { priority: prio() };
    assert_eq!(decide(&yes, 99), SplitDecision::Wait);
    assert_eq!(decide(&yes, 100), SplitDecision::Split);
    assert_eq!(decide(&no, 150), SplitDecision::Keep { collapse: false, check_redundancy: false });
    assert_eq!(decide(&no, 201), SplitDecision::Keep { collapse: false, check_redundancy: true });
    assert_eq!(decide(&unsure, 255), SplitDecision::Keep { collapse: true, check_redundancy: true });
}

#[test]
fn analysis_result_from_recommendation() {
    let yes = SplitAnalysisResult::from(&SplitRecommendation::YesSplit { priority: prio() });
    assert_eq!(yes.class, PriorityClass::HighDisjoint);
    assert_eq!(yes.evidence, 12);
    assert_eq!(yes.should_split, Some(true));
    assert_eq!(yes.algo_version, ALGO_VERSION);
    let no = SplitAnalysisResult::from(&SplitRecommendation::NoKeep { priority: prio() });
    assert_eq!(no.should_split, Some(false));
    let unsure = SplitAnalysisResult::from(&SplitRecommendation::CannotDetermine { priority: prio() });
    assert_eq!(unsure.should_split, None);
}

#[test]
fn analysis_stages() {
    let mut analysis =
        SplitAnalysis { id: 1, tree_net: IpNetwork::V6(net("2001:db8::/32")), pending_follow_up: None, result: None };
    assert_eq!(analysis.stage(), Stage::Requested);
    analysis.pending_follow_up = Some("trace".to_string());
    assert_eq!(analysis.stage(), Stage::PendingTrace);
    analysis.result = Some(SplitAnalysisResult::from(&SplitRecommendation::NoKeep { priority: prio() }));
    assert_eq!(analysis.stage(), Stage::Completed);
}

#[test]
fn forest_refuses_count_overflow() {
    let mut forest = MeasurementForest::with_untouched(vec![tree_with_hits("2001:db8::/48", i32::MAX)]).unwrap();
    let res = forest.insert(tree_with_hits("2001:db8:0:1::/64", 1));
    assert_eq!(res, Err(ForestError::CountOverflow { net: net("2001:db8:0:1::/64") }));
    let mut forest = MeasurementForest::default();
    assert!(!forest.insert(tree_with_hits("2001:db8:0:2::/64", i32::MAX)).unwrap());
    let res = forest.insert(tree_with_hits("2001:db8:0:2::/64", 1));
    assert_eq!(res, Err(ForestError::CountOverflow { net: net("2001:db8:0:2::/64") }));
    assert_eq!(forest.into_iter_touched()[0].tree.responsive_count, i32::MAX);
}

#[test]
fn subnets_refuse_count_overflow() {
    let halves = split_in_halves(net("2001:db8::/32")).unwrap();
    let trees = vec![tree_with_hits("2001:db8:0:1::/64", i32::MAX), tree_with_hits("2001:db8:0:2::/64", 1)];
    assert!(matches!(Subnets::new(halves, &trees), Err(SubnetError::CountOverflow)));
    let trees = vec![tree_with_hits("2001:db8:0:1::/64", i32::MAX), tree_with_hits("2001:db8:8000::/64", 1)];
    let subnets = Subnets::new(halves, &trees).unwrap();
    assert_eq!(subnets.halves()[0].synthetic_tree.responsive_count, i32::MAX);
    assert_eq!(subnets.halves()[1].synthetic_tree.responsive_count, 1);
}

#[test]
fn follow_up_chances_are_fixed() {
    let chances = follow_up_chances();
    assert_eq!(chances.skip_above_full, Chance { numerator: 2, denominator: 3 });
    assert_eq!(chances.skip_above_partial, Chance { numerator: 1, denominator: 5 });
    assert_eq!(chances.keep_each, Chance { numerator: 1, denominator: 4 });
}

#[test]
fn fill_rounds_are_capped() {
    assert!(fill_again(1, 3, 2));
    assert!(fill_again(4, 3, 2));
    assert!(!fill_again(5, 3, 2));
    assert!(!fill_again(1, 0, 2));
    assert!(!fill_again(1, 3, 0));
}
