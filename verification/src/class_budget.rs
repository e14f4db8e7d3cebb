//! How a timer's budget of prefix analyses is shared out among the priority
//! classes: one prefix at a time, to a class drawn at random with a weight
//! per class, among the classes that still have prefixes available.

use std::collections::BTreeMap;

use rand::Rng;
use vstd::prelude::*;

use crate::recommend::PriorityClass;

verus! {

broadcast use vstd::std_specs::btree::group_btree_axioms;

/// The place of a class in the order of classes, most urgent first.
pub open spec fn class_rank(c: PriorityClass) -> u8 {
    match c {
        PriorityClass::HighFresh => 0,
        PriorityClass::HighOverlapping => 1,
        PriorityClass::HighDisjoint => 2,
        PriorityClass::MediumSameMulti => 3,
        PriorityClass::MediumSameRatio => 4,
        PriorityClass::MediumSameMany => 5,
        PriorityClass::MediumSameSingle => 6,
        PriorityClass::MediumMultiWeird => 7,
        PriorityClass::LowWeird => 8,
        PriorityClass::LowUnknown => 9,
    }
}

/// The class at a place in the order of classes.
pub open spec fn class_at(r: int) -> PriorityClass {
    if r <= 0 {
        PriorityClass::HighFresh
    } else if r == 1 {
        PriorityClass::HighOverlapping
    } else if r == 2 {
        PriorityClass::HighDisjoint
    } else if r == 3 {
        PriorityClass::MediumSameMulti
    } else if r == 4 {
        PriorityClass::MediumSameRatio
    } else if r == 5 {
        PriorityClass::MediumSameMany
    } else if r == 6 {
        PriorityClass::MediumSameSingle
    } else if r == 7 {
        PriorityClass::MediumMultiWeird
    } else if r == 8 {
        PriorityClass::LowWeird
    } else {
        PriorityClass::LowUnknown
    }
}

/// The number of classes.
pub const CLASS_COUNT: u8 = 10;

/// Every class has a place below the number of classes, and the class at
/// that place is the class itself.
pub proof fn lemma_rank_roundtrip(c: PriorityClass)
    ensures
        class_rank(c) < CLASS_COUNT,
        class_at(class_rank(c) as int) == c,
{
}

/// Every place below the number of classes is the place of its class.
pub proof fn lemma_place_roundtrip(r: int)
    requires
        0 <= r < CLASS_COUNT,
    ensures
        class_rank(class_at(r)) == r,
{
}

/// The place of a class in the order of classes.
pub fn rank_of(class: &PriorityClass) -> (res: u8)
    ensures
        res == class_rank(*class),
{
    match class {
        PriorityClass::HighFresh => 0,
        PriorityClass::HighOverlapping => 1,
        PriorityClass::HighDisjoint => 2,
        PriorityClass::MediumSameMulti => 3,
        PriorityClass::MediumSameRatio => 4,
        PriorityClass::MediumSameMany => 5,
        PriorityClass::MediumSameSingle => 6,
        PriorityClass::MediumMultiWeird => 7,
        PriorityClass::LowWeird => 8,
        PriorityClass::LowUnknown => 9,
    }
}

/// The class at a place in the order of classes.
pub fn class_of_rank(r: u8) -> (res: PriorityClass)
    requires
        r < CLASS_COUNT,
    ensures
        res == class_at(r as int),
        class_rank(res) == r,
{
    match r {
        0 => PriorityClass::HighFresh,
        1 => PriorityClass::HighOverlapping,
        2 => PriorityClass::HighDisjoint,
        3 => PriorityClass::MediumSameMulti,
        4 => PriorityClass::MediumSameRatio,
        5 => PriorityClass::MediumSameMany,
        6 => PriorityClass::MediumSameSingle,
        7 => PriorityClass::MediumMultiWeird,
        8 => PriorityClass::LowWeird,
        _ => PriorityClass::LowUnknown,
    }
}

/// The weight with which a class is drawn. The classes of halves with the
/// same routers weigh as much as that of the same single router.
pub open spec fn ratio_of(c: PriorityClass) -> int {
    match c {
        PriorityClass::HighFresh => 25,
        PriorityClass::HighOverlapping => 13,
        PriorityClass::HighDisjoint => 12,
        PriorityClass::MediumSameMulti => 23,
        PriorityClass::MediumSameRatio => 13,
        PriorityClass::MediumSameMany => 13,
        PriorityClass::MediumSameSingle => 13,
        PriorityClass::MediumMultiWeird => 10,
        PriorityClass::LowWeird => 2,
        PriorityClass::LowUnknown => 2,
    }
}

/// The weight with which a class is drawn.
pub fn allocation_ratio(class: &PriorityClass) -> (res: u16)
    ensures
        res == ratio_of(*class),
{
    match class {
        PriorityClass::HighFresh => 25,
        PriorityClass::HighOverlapping => 13,
        PriorityClass::HighDisjoint => 12,
        PriorityClass::MediumSameMulti => 23,
        PriorityClass::MediumSameRatio => 13,
        PriorityClass::MediumSameMany => 13,
        PriorityClass::MediumSameSingle => 13,
        PriorityClass::MediumMultiWeird => 10,
        PriorityClass::LowWeird => 2,
        PriorityClass::LowUnknown => 2,
    }
}

/// The weights of the classes with prefixes available, among the first `n`
/// classes.
pub open spec fn ratio_below(avail: Map<PriorityClass, u64>, n: int) -> int
    decreases n,
{
    if n <= 0 {
        0
    } else {
        ratio_below(avail, n - 1) + if avail.contains_key(class_at(n - 1)) {
            ratio_of(class_at(n - 1))
        } else {
            0
        }
    }
}

/// The weights of all classes with prefixes available.
pub open spec fn remaining_ratio(avail: Map<PriorityClass, u64>) -> int {
    ratio_below(avail, CLASS_COUNT as int)
}

/// Class `c` is drawn by `choice`: it is the first class with prefixes
/// available where the weights so far reach `choice`.
pub open spec fn is_chosen(avail: Map<PriorityClass, u64>, choice: int, c: PriorityClass) -> bool {
    &&& avail.contains_key(c)
    &&& ratio_below(avail, class_rank(c) + 1) >= choice
    &&& forall|d: PriorityClass|
        #![trigger avail.contains_key(d)]
        class_rank(d) < class_rank(c) && avail.contains_key(d) ==> ratio_below(avail, class_rank(d) + 1)
            < choice
}

proof fn lemma_ratio_below_bounds(avail: Map<PriorityClass, u64>, n: int)
    ensures
        0 <= ratio_below(avail, n),
        n >= 0 ==> ratio_below(avail, n) <= 25 * n,
    decreases n,
{
    if n > 0 {
        lemma_ratio_below_bounds(avail, n - 1);
    }
}

/// Prefixes available and allocated per class.
pub struct BudgetModel {
    pub available: Map<PriorityClass, u64>,
    pub allocated: Map<PriorityClass, u32>,
}

/// The budgets after one more prefix of class `c` is allocated: the class's
/// allocation grows by one, and it has one prefix less available (none left
/// where it had one or none).
pub open spec fn allocated_to(m: BudgetModel, c: PriorityClass) -> BudgetModel {
    let before = if m.allocated.contains_key(c) {
        m.allocated[c] as int
    } else {
        0
    };
    BudgetModel {
        available: if m.available[c] <= 1 {
            m.available.remove(c)
        } else {
            m.available.insert(c, (m.available[c] - 1) as u64)
        },
        allocated: m.allocated.insert(c, (before + 1) as u32),
    }
}

/// The budget of one class: how many of its prefixes to analyse, and how many
/// it had available.
#[derive(Debug, Clone, Copy, PartialEq, Eq)]
pub struct ClassBudget {
    pub class: PriorityClass,
    pub allocated: u32,
    pub available: u64,
}

/// Prefixes available and allocated per class.
#[derive(Debug)]
pub struct ClassBudgets {
    available_per_class: BTreeMap<u8, u64>,
    allocated_per_class: BTreeMap<u8, u32>,
}

/// The map by class of a map by place in the order of classes.
pub open spec fn by_class<V>(m: Map<u8, V>) -> Map<PriorityClass, V> {
    Map::new(|c: PriorityClass| m.contains_key(class_rank(c)), |c: PriorityClass| m[class_rank(c)])
}

/// Availability per class as listed: a class listed again takes its last
/// number.
pub open spec fn listed_availability(pairs: Seq<(PriorityClass, u64)>) -> Map<PriorityClass, u64>
    decreases pairs.len(),
{
    if pairs.len() == 0 {
        Map::empty()
    } else {
        listed_availability(pairs.drop_last()).insert(pairs.last().0, pairs.last().1)
    }
}

impl ClassBudgets {
    pub closed spec fn model(self) -> BudgetModel {
        BudgetModel { available: by_class(self.available_per_class@), allocated: by_class(self.allocated_per_class@) }
    }

    /// Every key is the place of a class.
    pub closed spec fn wf(self) -> bool {
        &&& forall|r: u8| #[trigger] self.available_per_class@.contains_key(r) ==> r < CLASS_COUNT
        &&& forall|r: u8| #[trigger] self.allocated_per_class@.contains_key(r) ==> r < CLASS_COUNT
    }

    /// Budgets with nothing available and nothing allocated.
    pub fn empty() -> (res: Self)
        ensures
            res.wf(),
            res.model().available == Map::<PriorityClass, u64>::empty(),
            res.model().allocated == Map::<PriorityClass, u32>::empty(),
    {
        let res = ClassBudgets { available_per_class: BTreeMap::new(), allocated_per_class: BTreeMap::new() };
        assert(res.model().available =~= Map::<PriorityClass, u64>::empty());
        assert(res.model().allocated =~= Map::<PriorityClass, u32>::empty());
        res
    }

    /// Budgets with the given prefixes available per class and nothing
    /// allocated yet.
    pub fn new(available_per_class: &[(PriorityClass, u64)]) -> (res: Self)
        ensures
            res.wf(),
            res.model().available == listed_availability(available_per_class@),
            res.model().allocated == Map::<PriorityClass, u32>::empty(),
    {
        let mut res = Self::empty();
        let ghost pairs = available_per_class@;
        let mut i: usize = 0;
        while i < available_per_class.len()
            invariant
                pairs == available_per_class@,
                i <= pairs.len(),
                res.wf(),
                res.model().available == listed_availability(pairs.take(i as int)),
                res.model().allocated == Map::<PriorityClass, u32>::empty(),
            decreases pairs.len() - i,
        {
            let (class, count) = available_per_class[i];
            let r = rank_of(&class);
            let ghost before = res.available_per_class@;
            res.available_per_class.insert(r, count);
            proof {
                assert(pairs.take(i + 1).drop_last() =~= pairs.take(i as int));
                assert(res.model().available =~= listed_availability(pairs.take(i + 1))) by {
                    assert forall|c: PriorityClass| #[trigger] res.model().available.contains_key(c) == listed_availability(
                        pairs.take(i + 1),
                    ).contains_key(c) by {
                        lemma_rank_roundtrip(c);
                        lemma_rank_roundtrip(class);
                    }
                    assert forall|c: PriorityClass| res.model().available.contains_key(c) implies #[trigger] res.model().available[c]
                        == listed_availability(pairs.take(i + 1))[c] by {
                        lemma_rank_roundtrip(c);
                        lemma_rank_roundtrip(class);
                    }
                }
            }
            i = i + 1;
        }
        proof {
            assert(pairs.take(i as int) =~= pairs);
        }
        res
    }

    /// The prefixes allocated to a class, if it received any.
    pub fn get_allocated(&self, class: &PriorityClass) -> (res: Option<u32>)
        ensures
            res == (if self.model().allocated.contains_key(*class) {
                Some(self.model().allocated[*class])
            } else {
                None::<u32>
            }),
    {
        match self.allocated_per_class.get(&rank_of(class)) {
            Some(v) => Some(*v),
            None => None,
        }
    }

    /// The prefixes of a class still available, if it has an entry.
    pub fn get_available(&self, class: &PriorityClass) -> (res: Option<u64>)
        ensures
            res == (if self.model().available.contains_key(*class) {
                Some(self.model().available[*class])
            } else {
                None::<u64>
            }),
    {
        match self.available_per_class.get(&rank_of(class)) {
            Some(v) => Some(*v),
            None => None,
        }
    }

    /// Whether no class received any budget.
    pub fn is_empty(&self) -> (res: bool)
        requires
            self.wf(),
        ensures
            res == (self.model().allocated == Map::<PriorityClass, u32>::empty()),
    {
        let res = self.allocated_per_class.is_empty();
        proof {
            if !res {
                let r = choose|r: u8| self.allocated_per_class@.contains_key(r);
                let c = class_at(r as int);
                lemma_place_roundtrip(r as int);
                assert(self.model().allocated.contains_key(c));
            } else {
                assert(self.model().allocated =~= Map::<PriorityClass, u32>::empty());
            }
        }
        res
    }
}

proof fn lemma_ratio_below_monotone(avail: Map<PriorityClass, u64>, a: int, b: int)
    requires
        a <= b,
    ensures
        ratio_below(avail, a) <= ratio_below(avail, b),
    decreases b - a,
{
    if a < b {
        lemma_ratio_below_monotone(avail, a, b - 1);
    }
}

/// A class with prefixes available adds its weight at its place.
proof fn lemma_ratio_below_step(avail: Map<PriorityClass, u64>, c: PriorityClass)
    ensures
        ratio_below(avail, class_rank(c) + 1) == ratio_below(avail, class_rank(c) as int) + if avail.contains_key(c) {
            ratio_of(c)
        } else {
            0
        },
{
    lemma_rank_roundtrip(c);
}

/// At most one class is drawn by a choice.
pub proof fn lemma_chosen_unique(avail: Map<PriorityClass, u64>, choice: int, a: PriorityClass, b: PriorityClass)
    requires
        is_chosen(avail, choice, a),
        is_chosen(avail, choice, b),
    ensures
        a == b,
{
    lemma_rank_roundtrip(a);
    lemma_rank_roundtrip(b);
}

/// A choice between one and the weights of all classes with prefixes
/// available draws a class.
pub proof fn lemma_chosen_exists(avail: Map<PriorityClass, u64>, choice: int)
    requires
        1 <= choice <= remaining_ratio(avail),
    ensures
        exists|c: PriorityClass| is_chosen(avail, choice, c),
{
    lemma_chosen_exists_below(avail, choice, CLASS_COUNT as int);
}

proof fn lemma_chosen_exists_below(avail: Map<PriorityClass, u64>, choice: int, n: int)
    requires
        0 <= n <= CLASS_COUNT,
        1 <= choice <= ratio_below(avail, n),
    ensures
        exists|c: PriorityClass| class_rank(c) < n && is_chosen(avail, choice, c),
    decreases n,
{
    if ratio_below(avail, n - 1) >= choice {
        lemma_chosen_exists_below(avail, choice, n - 1);
        let c = choose|c: PriorityClass| class_rank(c) < n - 1 && is_chosen(avail, choice, c);
        assert(class_rank(c) < n);
    } else {
        let c = class_at(n - 1);
        lemma_place_roundtrip(n - 1);
        assert(avail.contains_key(c));
        assert forall|d: PriorityClass|
            #![trigger avail.contains_key(d)]
            class_rank(d) < class_rank(c) && avail.contains_key(d) implies ratio_below(avail, class_rank(d) + 1)
            < choice by {
            lemma_ratio_below_monotone(avail, class_rank(d) + 1, n - 1);
        }
        assert(is_chosen(avail, choice, c));
    }
}

/// With prefixes of every class available, the draws from 1 to 126 fall on
/// the classes in their order, each class on as many consecutive draws as it
/// weighs: HighFresh 25, HighOverlapping 13, HighDisjoint 12,
/// MediumSameMulti 23, MediumSameRatio 13, MediumSameMany 13,
/// MediumSameSingle 13, MediumMultiWeird 10, LowWeird 2 and LowUnknown 2.
pub proof fn lemma_draws_by_weight(avail: Map<PriorityClass, u64>, choice: int)
    requires
        forall|c: PriorityClass| #[trigger] avail.contains_key(c),
    ensures
        remaining_ratio(avail) == 126,
        1 <= choice <= 25 ==> is_chosen(avail, choice, PriorityClass::HighFresh),
        26 <= choice <= 38 ==> is_chosen(avail, choice, PriorityClass::HighOverlapping),
        39 <= choice <= 50 ==> is_chosen(avail, choice, PriorityClass::HighDisjoint),
        51 <= choice <= 73 ==> is_chosen(avail, choice, PriorityClass::MediumSameMulti),
        74 <= choice <= 86 ==> is_chosen(avail, choice, PriorityClass::MediumSameRatio),
        87 <= choice <= 99 ==> is_chosen(avail, choice, PriorityClass::MediumSameMany),
        100 <= choice <= 112 ==> is_chosen(avail, choice, PriorityClass::MediumSameSingle),
        113 <= choice <= 122 ==> is_chosen(avail, choice, PriorityClass::MediumMultiWeird),
        123 <= choice <= 124 ==> is_chosen(avail, choice, PriorityClass::LowWeird),
        125 <= choice <= 126 ==> is_chosen(avail, choice, PriorityClass::LowUnknown),
{
    assert(avail.contains_key(PriorityClass::HighFresh));
    assert(avail.contains_key(PriorityClass::HighOverlapping));
    assert(avail.contains_key(PriorityClass::HighDisjoint));
    assert(avail.contains_key(PriorityClass::MediumSameMulti));
    assert(avail.contains_key(PriorityClass::MediumSameRatio));
    assert(avail.contains_key(PriorityClass::MediumSameMany));
    assert(avail.contains_key(PriorityClass::MediumSameSingle));
    assert(avail.contains_key(PriorityClass::MediumMultiWeird));
    assert(avail.contains_key(PriorityClass::LowWeird));
    assert(avail.contains_key(PriorityClass::LowUnknown));
    assert(ratio_below(avail, 0) == 0);
    assert(ratio_below(avail, 1) == 25);
    assert(ratio_below(avail, 2) == 38);
    assert(ratio_below(avail, 3) == 50);
    assert(ratio_below(avail, 4) == 73);
    assert(ratio_below(avail, 5) == 86);
    assert(ratio_below(avail, 6) == 99);
    assert(ratio_below(avail, 7) == 112);
    assert(ratio_below(avail, 8) == 122);
    assert(ratio_below(avail, 9) == 124);
    assert(ratio_below(avail, 10) == 126);
    assert forall|d: PriorityClass| #[trigger] avail.contains_key(d) implies ratio_below(avail, class_rank(d) + 1)
        == ratio_below(avail, class_rank(d) as int) + ratio_of(d) && class_rank(d) < CLASS_COUNT by {
        lemma_rank_roundtrip(d);
    }
}

/// Without any weight left, no class has prefixes available.
pub proof fn lemma_no_ratio_no_class(avail: Map<PriorityClass, u64>)
    requires
        remaining_ratio(avail) == 0,
    ensures
        avail == Map::<PriorityClass, u64>::empty(),
{
    assert forall|c: PriorityClass| !avail.contains_key(c) by {
        if avail.contains_key(c) {
            lemma_rank_roundtrip(c);
            lemma_ratio_below_step(avail, c);
            lemma_ratio_below_bounds(avail, class_rank(c) as int);
            lemma_ratio_below_monotone(avail, class_rank(c) + 1, CLASS_COUNT as int);
        }
    }
    assert(avail =~= Map::<PriorityClass, u64>::empty());
}

proof fn lemma_by_class_insert<V>(m: Map<u8, V>, c: PriorityClass, v: V)
    ensures
        by_class(m.insert(class_rank(c), v)) == by_class(m).insert(c, v),
{
    lemma_rank_roundtrip(c);
    assert forall|d: PriorityClass| #[trigger] by_class(m.insert(class_rank(c), v)).contains_key(d) == by_class(
        m,
    ).insert(c, v).contains_key(d) by {
        lemma_rank_roundtrip(d);
    }
    assert forall|d: PriorityClass| by_class(m.insert(class_rank(c), v)).contains_key(d) implies #[trigger] by_class(
        m.insert(class_rank(c), v),
    )[d] == by_class(m).insert(c, v)[d] by {
        lemma_rank_roundtrip(d);
    }
    assert(by_class(m.insert(class_rank(c), v)) =~= by_class(m).insert(c, v));
}

proof fn lemma_by_class_remove<V>(m: Map<u8, V>, c: PriorityClass)
    ensures
        by_class(m.remove(class_rank(c))) == by_class(m).remove(c),
{
    lemma_rank_roundtrip(c);
    assert forall|d: PriorityClass| #[trigger] by_class(m.remove(class_rank(c))).contains_key(d) == by_class(
        m,
    ).remove(c).contains_key(d) by {
        lemma_rank_roundtrip(d);
    }
    assert(by_class(m.remove(class_rank(c))) =~= by_class(m).remove(c));
}

/// Prefixes allocated to a class so far.
pub open spec fn alloc_of(m: BudgetModel, c: PriorityClass) -> int {
    if m.allocated.contains_key(c) {
        m.allocated[c] as int
    } else {
        0
    }
}

/// Prefixes of a class still available.
pub open spec fn avail_of(m: BudgetModel, c: PriorityClass) -> int {
    if m.available.contains_key(c) {
        m.available[c] as int
    } else {
        0
    }
}

/// Prefixes allocated to the first `n` classes.
pub open spec fn allocated_below(m: BudgetModel, n: int) -> int
    decreases n,
{
    if n <= 0 {
        0
    } else {
        allocated_below(m, n - 1) + alloc_of(m, class_at(n - 1))
    }
}

/// Prefixes allocated to all classes.
pub open spec fn total_allocated(m: BudgetModel) -> int {
    allocated_below(m, CLASS_COUNT as int)
}

/// Allocation only moves prefixes from available to allocated: a class that
/// started with some prefixes available has as many allocated and available
/// together, and classes that were never available have neither.
pub open spec fn conserves(init: Map<PriorityClass, u64>, m: BudgetModel) -> bool {
    &&& forall|c: PriorityClass| #[trigger]
        init.contains_key(c) && init[c] >= 1 ==> alloc_of(m, c) + avail_of(m, c) == init[c]
            && (m.available.contains_key(c) ==> m.available[c] >= 1)
    &&& forall|c: PriorityClass| #[trigger] m.available.contains_key(c) ==> init.contains_key(c)
    &&& forall|c: PriorityClass| #[trigger] m.allocated.contains_key(c) ==> init.contains_key(c)
}

proof fn lemma_allocated_below_step(m: BudgetModel, c: PriorityClass, n: int)
    requires
        m.available.contains_key(c),
        alloc_of(m, c) < u32::MAX,
        n <= CLASS_COUNT,
    ensures
        allocated_below(allocated_to(m, c), n) == allocated_below(m, n) + if class_rank(c) < n {
            1int
        } else {
            0
        },
    decreases n,
{
    lemma_rank_roundtrip(c);
    if n > 0 {
        lemma_allocated_below_step(m, c, n - 1);
        if class_rank(c) == n - 1 {
            assert(class_at(n - 1) == c);
        } else {
            lemma_place_roundtrip_any(n - 1);
        }
    }
}

proof fn lemma_place_roundtrip_any(r: int)
    ensures
        0 <= r < CLASS_COUNT ==> class_rank(class_at(r)) == r,
{
}

/// Each class's allocation is part of the total.
proof fn lemma_alloc_within_total(m: BudgetModel, c: PriorityClass, n: int)
    requires
        0 <= n,
    ensures
        0 <= allocated_below(m, n),
        class_rank(c) < n ==> alloc_of(m, c) <= allocated_below(m, n),
    decreases n,
{
    lemma_rank_roundtrip(c);
    if n > 0 {
        lemma_alloc_within_total(m, c, n - 1);
    }
}

/// One allocation adds one prefix to the total allocated and keeps
/// allocation conservative.
pub proof fn lemma_allocated_to_conserves(init: Map<PriorityClass, u64>, m: BudgetModel, c: PriorityClass)
    requires
        conserves(init, m),
        m.available.contains_key(c),
        alloc_of(m, c) < u32::MAX,
    ensures
        conserves(init, allocated_to(m, c)),
        total_allocated(allocated_to(m, c)) == total_allocated(m) + 1,
{
    lemma_rank_roundtrip(c);
    lemma_allocated_below_step(m, c, CLASS_COUNT as int);
    let n = allocated_to(m, c);
    assert forall|d: PriorityClass| #[trigger]
        init.contains_key(d) && init[d] >= 1 implies alloc_of(n, d) + avail_of(n, d) == init[d] && (
        n.available.contains_key(d) ==> n.available[d] >= 1) by {
        assert(alloc_of(m, d) + avail_of(m, d) == init[d]);
        if d == c {
            assert(m.available[c] >= 1);
            if m.available[c] <= 1 {
                assert(avail_of(n, d) == 0);
                assert(alloc_of(n, d) == alloc_of(m, d) + 1);
            } else {
                assert(avail_of(n, d) == avail_of(m, d) - 1);
                assert(alloc_of(n, d) == alloc_of(m, d) + 1);
            }
        } else {
            assert(alloc_of(n, d) == alloc_of(m, d));
            assert(avail_of(n, d) == avail_of(m, d));
        }
    }
}

/// Shares out a budget of prefix analyses among the classes, one prefix at
/// a time drawn by weight, until the budget is spent or no class has
/// prefixes left.
pub fn allocate_budgets(available_per_class: &[(PriorityClass, u64)], total_prefixes: u32) -> (res: ClassBudgets)
    ensures
        res.wf(),
        conserves(listed_availability(available_per_class@), res.model()),
        total_allocated(res.model()) <= total_prefixes,
        total_allocated(res.model()) < total_prefixes ==> res.model().available == Map::<PriorityClass, u64>::empty(),
{
    if available_per_class.is_empty() {
        let res = ClassBudgets::empty();
        proof {
            assert(total_allocated(res.model()) == 0) by {
                lemma_alloc_within_total(res.model(), PriorityClass::HighFresh, CLASS_COUNT as int);
                lemma_allocated_none(res.model(), CLASS_COUNT as int);
            }
        }
        return res;
    }
    let mut budgets = ClassBudgets::new(available_per_class);
    let ghost init = listed_availability(available_per_class@);
    proof {
        lemma_allocated_none(budgets.model(), CLASS_COUNT as int);
    }
    let mut allocated: u32 = 0;
    let mut exhausted = false;
    while allocated < total_prefixes && !exhausted
        invariant
            budgets.wf(),
            init == listed_availability(available_per_class@),
            conserves(init, budgets.model()),
            total_allocated(budgets.model()) == allocated,
            allocated <= total_prefixes,
            exhausted ==> budgets.model().available == Map::<PriorityClass, u64>::empty(),
        decreases total_prefixes - allocated + if exhausted {
            0int
        } else {
            1
        },
    {
        let ghost before = budgets.model();
        proof {
            assert forall|c: PriorityClass| #[trigger]
                before.allocated.contains_key(c) implies before.allocated[c] < u32::MAX by {
                lemma_rank_roundtrip(c);
                lemma_alloc_within_total(before, c, CLASS_COUNT as int);
            }
        }
        if budgets.allocate_next() {
            proof {
                let c = choose|c: PriorityClass|
                    before.available.contains_key(c) && budgets.model() == allocated_to(before, c);
                lemma_alloc_within_total(before, c, CLASS_COUNT as int);
                lemma_rank_roundtrip(c);
                lemma_allocated_to_conserves(init, before, c);
            }
            allocated = allocated + 1;
        } else {
            exhausted = true;
        }
    }
    budgets
}

proof fn lemma_allocated_none(m: BudgetModel, n: int)
    requires
        m.allocated == Map::<PriorityClass, u32>::empty(),
    ensures
        allocated_below(m, n) == 0,
    decreases n,
{
    if n > 0 {
        lemma_allocated_none(m, n - 1);
    }
}

/// Where a random draw is made: `rand::Rng::gen_range` on the thread's
/// generator for `1..=max`, which gives a number from 1 to `max`.
#[verifier::external_body]
fn random_choice(max: u16) -> (res: u16)
    requires
        max >= 1,
    ensures
        1 <= res <= max,
{
    rand::thread_rng().gen_range(1..=max)
}

impl ClassBudgets {
    /// The first class with prefixes available, in the order of classes,
    /// where the weights so far reach `choice`.
    pub fn choose_by_ratio(&self, choice: u16) -> (res: Option<PriorityClass>)
        requires
            self.wf(),
        ensures
            match res {
                Some(c) => is_chosen(self.model().available, choice as int, c),
                None => forall|c: PriorityClass| !is_chosen(self.model().available, choice as int, c),
            },
    {
        let ghost avail = self.model().available;
        let mut accumulator: u16 = 0;
        let mut r: u8 = 0;
        while r < CLASS_COUNT
            invariant
                r <= CLASS_COUNT,
                avail == self.model().available,
                accumulator == ratio_below(avail, r as int),
                forall|d: PriorityClass|
                    #![trigger avail.contains_key(d)]
                    class_rank(d) < r && avail.contains_key(d) ==> ratio_below(avail, class_rank(d) + 1) < choice,
            decreases CLASS_COUNT - r,
        {
            let class = class_of_rank(r);
            proof {
                lemma_ratio_below_bounds(avail, r + 1);
                lemma_ratio_below_step(avail, class);
            }
            if self.available_per_class.contains_key(&r) {
                assert(avail.contains_key(class));
                accumulator = accumulator + allocation_ratio(&class);
                if accumulator >= choice {
                    return Some(class);
                }
            } else {
                assert(!avail.contains_key(class));
            }
            r = r + 1;
        }
        proof {
            assert forall|c: PriorityClass| !is_chosen(avail, choice as int, c) by {
                lemma_rank_roundtrip(c);
            }
        }
        None
    }

    /// Allocates one more prefix to the class that `choice` draws.
    pub fn allocate_by_ratio(&mut self, choice: u16)
        requires
            old(self).wf(),
            exists|c: PriorityClass| is_chosen(old(self).model().available, choice as int, c),
            forall|c: PriorityClass|
                is_chosen(old(self).model().available, choice as int, c) && #[trigger] old(
                    self,
                ).model().allocated.contains_key(c) ==> old(self).model().allocated[c] < u32::MAX,
        ensures
            final(self).wf(),
            forall|c: PriorityClass|
                is_chosen(old(self).model().available, choice as int, c) ==> final(self).model()
                    == allocated_to(old(self).model(), c),
    {
        let ghost start = self.model();
        let chosen = self.choose_by_ratio(choice).unwrap();
        let r = rank_of(&chosen);
        proof {
            lemma_rank_roundtrip(chosen);
        }
        let before: u32 = match self.allocated_per_class.get(&r) {
            Some(v) => {
                assert(start.allocated.contains_key(chosen));
                *v
            },
            None => 0,
        };
        self.allocated_per_class.insert(r, before + 1);
        let available: u64 = *self.available_per_class.get(&r).unwrap();
        let ghost avail_raw = self.available_per_class@;
        if available <= 1 {
            self.available_per_class.remove(&r);
            proof {
                lemma_by_class_remove(avail_raw, chosen);
            }
        } else {
            self.available_per_class.insert(r, available - 1);
            proof {
                lemma_by_class_insert(avail_raw, chosen, (available - 1) as u64);
            }
        }
        proof {
            lemma_by_class_insert(old(self).allocated_per_class@, chosen, (before + 1) as u32);
            assert forall|c: PriorityClass|
                is_chosen(start.available, choice as int, c) implies self.model() == allocated_to(start, c) by {
                lemma_chosen_unique(start.available, choice as int, c, chosen);
            }
        }
    }

    /// The weights of all classes with prefixes available.
    fn remaining_ratio(&self) -> (res: u16)
        requires
            self.wf(),
        ensures
            res == remaining_ratio(self.model().available),
    {
        let ghost avail = self.model().available;
        let mut sum: u16 = 0;
        let mut r: u8 = 0;
        while r < CLASS_COUNT
            invariant
                r <= CLASS_COUNT,
                avail == self.model().available,
                sum == ratio_below(avail, r as int),
            decreases CLASS_COUNT - r,
        {
            let class = class_of_rank(r);
            proof {
                lemma_ratio_below_bounds(avail, r + 1);
                lemma_ratio_below_step(avail, class);
            }
            if self.available_per_class.contains_key(&r) {
                sum = sum + allocation_ratio(&class);
            }
            r = r + 1;
        }
        sum
    }

    /// Allocates one more prefix to a class drawn at random by weight, among
    /// those with prefixes available; fails where none has any.
    pub fn allocate_next(&mut self) -> (res: bool)
        requires
            old(self).wf(),
            forall|c: PriorityClass| #[trigger]
                old(self).model().allocated.contains_key(c) ==> old(self).model().allocated[c] < u32::MAX,
        ensures
            final(self).wf(),
            res == (old(self).model().available != Map::<PriorityClass, u64>::empty()),
            !res ==> final(self).model() == old(self).model(),
            res ==> exists|c: PriorityClass|
                old(self).model().available.contains_key(c) && final(self).model() == allocated_to(
                    old(self).model(),
                    c,
                ),
    {
        let remaining_ratio = self.remaining_ratio();
        if remaining_ratio == 0 {
            proof {
                lemma_no_ratio_no_class(self.model().available);
            }
            return false;
        }
        let ghost start = self.model();
        let random_choice = random_choice(remaining_ratio);
        proof {
            lemma_chosen_exists(start.available, random_choice as int);
        }
        self.allocate_by_ratio(random_choice);
        proof {
            let c = choose|c: PriorityClass| is_chosen(start.available, random_choice as int, c);
            assert(start.available.contains_key(c));
            assert(self.model() == allocated_to(start, c));
            assert(start.available != Map::<PriorityClass, u64>::empty()) by {
                assert(!Map::<PriorityClass, u64>::empty().contains_key(c));
            }
        }
        true
    }

    /// The budget of every class that received any, in the order of classes,
    /// with the prefixes it had available before allocation.
    pub fn into_budgets(self) -> (res: Vec<ClassBudget>)
        requires
            self.wf(),
            forall|c: PriorityClass| #[trigger]
                self.model().allocated.contains_key(c) ==> avail_of(self.model(), c) + self.model().allocated[c]
                    <= u64::MAX,
        ensures
            forall|i: int|
                #![trigger res@[i]]
                0 <= i < res@.len() ==> {
                    let b = res@[i];
                    &&& self.model().allocated.contains_key(b.class)
                    &&& b.allocated == self.model().allocated[b.class]
                    &&& b.available == avail_of(self.model(), b.class) + b.allocated
                },
            forall|i: int, j: int| 0 <= i < j < res@.len() ==> class_rank(res@[i].class) < class_rank(res@[j].class),
            forall|c: PriorityClass| #[trigger]
                self.model().allocated.contains_key(c) ==> exists|i: int| 0 <= i < res@.len() && res@[i].class == c,
    {
        let ghost m = self.model();
        let mut out: Vec<ClassBudget> = Vec::new();
        let mut r: u8 = 0;
        while r < CLASS_COUNT
            invariant
                r <= CLASS_COUNT,
                m == self.model(),
                forall|c: PriorityClass| #[trigger]
                    m.allocated.contains_key(c) ==> avail_of(m, c) + m.allocated[c] <= u64::MAX,
                forall|i: int|
                    #![trigger out@[i]]
                    0 <= i < out@.len() ==> {
                        let b = out@[i];
                        &&& m.allocated.contains_key(b.class)
                        &&& b.allocated == m.allocated[b.class]
                        &&& b.available == avail_of(m, b.class) + b.allocated
                        &&& class_rank(b.class) < r
                    },
                forall|i: int, j: int| 0 <= i < j < out@.len() ==> class_rank(out@[i].class) < class_rank(out@[j].class),
                forall|c: PriorityClass| #[trigger]
                    m.allocated.contains_key(c) && class_rank(c) < r ==> exists|i: int|
                        0 <= i < out@.len() && out@[i].class == c,
            decreases CLASS_COUNT - r,
        {
            let class = class_of_rank(r);
            match self.allocated_per_class.get(&r) {
                Some(allocated) => {
                    assert(m.allocated.contains_key(class));
                    let available: u64 = match self.available_per_class.get(&r) {
                        Some(a) => *a,
                        None => 0,
                    };
                    let ghost before = out@;
                    out.push(ClassBudget { class, allocated: *allocated, available: available + *allocated as u64 });
                    proof {
                        assert forall|c: PriorityClass| #[trigger]
                            m.allocated.contains_key(c) && class_rank(c) < r + 1 implies exists|i: int|
                            0 <= i < out@.len() && out@[i].class == c by {
                            lemma_rank_roundtrip(c);
                            if class_rank(c) == r {
                                assert(out@[before.len() as int].class == c);
                            } else {
                                let i = choose|i: int| 0 <= i < before.len() && before[i].class == c;
                                assert(out@[i].class == c);
                            }
                        }
                    }
                },
                None => {
                    proof {
                        assert forall|c: PriorityClass| #[trigger]
                            m.allocated.contains_key(c) && class_rank(c) < r + 1 implies exists|i: int|
                            0 <= i < out@.len() && out@[i].class == c by {
                            lemma_rank_roundtrip(c);
                        }
                    }
                },
            }
            r = r + 1;
        }
        proof {
            assert forall|c: PriorityClass| #[trigger] m.allocated.contains_key(c) implies exists|i: int|
                0 <= i < out@.len() && out@[i].class == c by {
                lemma_rank_roundtrip(c);
            }
        }
        out
    }
}

} // verus!
