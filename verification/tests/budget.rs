use aggregator::as_budget::{admit_prefixes, keep_filling, AsBudgets, SelectedPrefix};
use aggregator::class_budget::{allocate_budgets, allocation_ratio, ClassBudgets};
use aggregator::prefix::Ipv6Prefix;
use aggregator::recommend::PriorityClass;

fn given_availables() -> Vec<(PriorityClass, u64)> {
    vec![(PriorityClass::LowUnknown, 56), (PriorityClass::HighFresh, 2)]
}

#[test]
fn allocate_choice() {
    let cases = vec![
        (1, PriorityClass::HighFresh),
        (16, PriorityClass::HighFresh),
        (25, PriorityClass::HighFresh),
        (26, PriorityClass::LowUnknown),
        (27, PriorityClass::LowUnknown),
    ];
    for (choice, expected) in cases {
        let budgets = ClassBudgets::new(&given_availables());
        let chosen = budgets.choose_by_ratio(choice);
        assert!(chosen.is_some());
        assert_eq!(chosen.unwrap(), expected);
    }
}

#[test]
fn allocate_allocation() {
    let mut budgets = ClassBudgets::new(&given_availables());
    budgets.allocate_by_ratio(27);

    assert_eq!(budgets.get_allocated(&PriorityClass::LowUnknown), Some(1));
    assert_eq!(budgets.get_available(&PriorityClass::LowUnknown), Some(55));
    assert_eq!(budgets.into_budgets().len(), 1);
}

#[test]
fn allocate_now_unavailable() {
    let mut budgets = ClassBudgets::new(&given_availables());
    budgets.allocate_by_ratio(1);
    budgets.allocate_by_ratio(1);
    budgets.allocate_by_ratio(1);

    assert_eq!(budgets.get_allocated(&PriorityClass::HighFresh), Some(2));
    assert_eq!(budgets.get_allocated(&PriorityClass::LowUnknown), Some(1));
    assert!(budgets.get_available(&PriorityClass::HighFresh).is_none());
    assert!(budgets.get_available(&PriorityClass::LowUnknown).is_some());
    assert_eq!(budgets.into_budgets().len(), 2);
}

#[test]
fn choose_beyond_total_ratio_is_none() {
    let budgets = ClassBudgets::new(&given_availables());
    let total = allocation_ratio(&PriorityClass::HighFresh) + allocation_ratio(&PriorityClass::LowUnknown);
    assert_eq!(total, 27);
    assert_eq!(budgets.choose_by_ratio(28), None);
    assert_eq!(budgets.choose_by_ratio(0), Some(PriorityClass::HighFresh));
}

#[test]
fn empty_budgets_choose_nothing() {
    let mut budgets = ClassBudgets::new(&[]);
    assert_eq!(budgets.choose_by_ratio(1), None);
    assert!(!budgets.allocate_next());
    assert!(budgets.is_empty());
}

#[test]
fn allocate_budgets_conserves_and_spends_all() {
    // more prefixes requested than available: everything is allocated
    let budgets = allocate_budgets(&given_availables(), 100);
    let out = budgets.into_budgets();
    assert_eq!(out.len(), 2);
    let total: u64 = out.iter().map(|b| b.allocated as u64).sum();
    assert_eq!(total, 58);
    for b in &out {
        assert_eq!(b.allocated as u64, b.available);
    }
    // ordered by class
    assert_eq!(out[0].class, PriorityClass::HighFresh);
    assert_eq!(out[1].class, PriorityClass::LowUnknown);
}

#[test]
fn allocate_budgets_stops_at_total() {
    let budgets = allocate_budgets(&given_availables(), 10);
    let out = budgets.into_budgets();
    let total: u64 = out.iter().map(|b| b.allocated as u64).sum();
    assert_eq!(total, 10);
    for b in &out {
        assert!(b.allocated as u64 <= b.available);
    }
}

#[test]
fn allocate_budgets_nothing_available() {
    let budgets = allocate_budgets(&[], 10);
    assert!(budgets.is_empty());
    assert!(budgets.into_budgets().is_empty());
}

#[test]
fn allocation_ratio_per_class() {
    assert_eq!(allocation_ratio(&PriorityClass::HighFresh), 25);
    assert_eq!(allocation_ratio(&PriorityClass::LowUnknown), 2);
}

fn net(a: u128) -> Ipv6Prefix {
    Ipv6Prefix { addr: a << 64, len: 64 }
}

#[test]
fn as_budget_exhausts_at_allocation() {
    let mut budgets = AsBudgets::new(2);
    assert!(budgets.try_consume(64500));
    assert!(!budgets.has_exhausted_asns());
    assert!(budgets.try_consume(64500));
    assert!(budgets.has_exhausted_asns());
    assert_eq!(budgets.get_exhausted_asns(), &[64500]);
    assert!(!budgets.try_consume(64500));
    assert!(budgets.try_consume(64501));
    assert_eq!(budgets.get_exhausted_asns(), &[64500]);
}

#[test]
fn as_budget_zero_allocation_refuses_all() {
    let mut budgets = AsBudgets::new(0);
    assert!(!budgets.try_consume(1));
    assert!(!budgets.has_exhausted_asns());
}

#[test]
fn admission_respects_both_limits() {
    let selected = vec![
        SelectedPrefix { net: net(1), asn: 1 },
        SelectedPrefix { net: net(2), asn: 1 },
        SelectedPrefix { net: net(3), asn: 2 },
        SelectedPrefix { net: net(4), asn: 1 },
        SelectedPrefix { net: net(5), asn: 3 },
        SelectedPrefix { net: net(6), asn: 4 },
    ];
    let mut available: u32 = 3;
    let mut budgets = AsBudgets::new(1);
    let admission = admit_prefixes(&selected, &mut available, &mut budgets);
    assert_eq!(admission.admitted, vec![net(1), net(3), net(5)]);
    assert_eq!(admission.suppressed_count, 2);
    assert_eq!(available, 0);
    assert_eq!(budgets.get_exhausted_asns(), &[1, 2, 3]);
    assert!(!keep_filling(admission.suppressed_count, available));
}

#[test]
fn admission_leaves_allocation_when_suppressed() {
    let selected = vec![SelectedPrefix { net: net(1), asn: 7 }, SelectedPrefix { net: net(2), asn: 7 }];
    let mut available: u32 = 5;
    let mut budgets = AsBudgets::new(1);
    let admission = admit_prefixes(&selected, &mut available, &mut budgets);
    assert_eq!(admission.admitted, vec![net(1)]);
    assert_eq!(admission.suppressed_count, 1);
    assert_eq!(available, 4);
    assert!(keep_filling(admission.suppressed_count, available));
    assert!(!keep_filling(0, available));
}
