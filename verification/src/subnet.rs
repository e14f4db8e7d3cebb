//! The two halves of a prefix under analysis, the measurements that fall into
//! each, and how their last-hop routers and weird responses differ.

use std::collections::{HashMap, HashSet};
use std::hash::Hash;

use vstd::prelude::*;
use vstd::std_specs::hash::{obeys_key_model, spec_hash_keys_iter, spec_hash_map_iter};
use vstd::std_specs::iter::IteratorSpec;

use crate::measurement::{
    data_mergeable, empty_data, merged_data, weirds_mergeable, HitCount, IpNetwork, LhrAddr, LhrItem, LhrSources,
    MeasurementTree, TreeData, WeirdItem,
};
use crate::prefix::{is_subnet_listing, Ipv6Prefix};

verus! {

broadcast use vstd::std_specs::hash::group_hash_axioms;

/// How the items of the two halves relate.
#[derive(Debug, PartialEq, Eq)]
#[allow(inconsistent_fields)]
pub enum Diff<I> {
    /// Neither half has any item.
    BothNone,
    /// Both halves have the same single item.
    BothSameSingle { shared: I },
    /// Both halves have the same items, and more than one.
    BothSameMultiple { shared: Vec<I> },
    /// Some items occur in one half only (`distinct`), others in both (`shared`).
    OverlappingOrDisjoint { shared: Vec<I>, distinct: Vec<I> },
}

/// A [`Diff`] with its vectors taken as sequences.
#[allow(inconsistent_fields)]
pub enum DiffView<I> {
    BothNone,
    BothSameSingle { shared: I },
    BothSameMultiple { shared: Seq<I> },
    OverlappingOrDisjoint { shared: Seq<I>, distinct: Seq<I> },
}

impl<I> View for Diff<I> {
    type V = DiffView<I>;

    open spec fn view(&self) -> DiffView<I> {
        match self {
            Diff::BothNone => DiffView::BothNone,
            Diff::BothSameSingle { shared } => DiffView::BothSameSingle { shared: *shared },
            Diff::BothSameMultiple { shared } => DiffView::BothSameMultiple { shared: shared@ },
            Diff::OverlappingOrDisjoint { shared, distinct } => DiffView::OverlappingOrDisjoint {
                shared: shared@,
                distinct: distinct@,
            },
        }
    }
}

/// The diff of the items found in both halves (`shared`) and in one half only
/// (`distinct`).
pub open spec fn diff_spec<I>(shared: Seq<I>, distinct: Seq<I>) -> DiffView<I> {
    if shared.len() == 0 {
        if distinct.len() == 0 {
            DiffView::BothNone
        } else {
            DiffView::OverlappingOrDisjoint { shared: Seq::empty(), distinct }
        }
    } else if distinct.len() == 0 {
        if shared.len() == 1 {
            DiffView::BothSameSingle { shared: shared[0] }
        } else {
            DiffView::BothSameMultiple { shared }
        }
    } else {
        DiffView::OverlappingOrDisjoint { shared, distinct }
    }
}

impl<I> Diff<I> {
    /// Classifies the items found in both halves and those found in one half
    /// only.
    pub fn from(shared: Vec<I>, distinct: Vec<I>) -> (res: Self)
        ensures
            res@ == diff_spec(shared@, distinct@),
    {
        if shared.is_empty() {
            if distinct.is_empty() {
                Diff::BothNone
            } else {
                Diff::OverlappingOrDisjoint { shared: Vec::new(), distinct }
            }
        } else if distinct.is_empty() {
            if shared.len() == 1 {
                let mut shared = shared;
                let only = shared.remove(0);
                Diff::BothSameSingle { shared: only }
            } else {
                Diff::BothSameMultiple { shared }
            }
        } else {
            Diff::OverlappingOrDisjoint { shared, distinct }
        }
    }
}

/// `keys` lists the elements of `set`, each once.
pub open spec fn lists<K>(keys: Seq<K>, set: Set<K>) -> bool {
    keys.no_duplicates() && keys.to_set() == set
}

/// The values of a list of keys.
pub open spec fn values_of<K, I>(keys: Seq<K>, lookup: Map<K, I>) -> Seq<I> {
    keys.map_values(|k: K| lookup[k])
}

/// Whether `d` is a diff of two key sets: the values of the keys in both sets
/// as shared items, and the values of the keys of the first set only followed
/// by those of the second set only as distinct items, each list in some order.
pub open spec fn is_diff_of<K, I>(d: DiffView<I>, left: Set<K>, right: Set<K>, lookup: Map<K, I>) -> bool {
    exists|both: Seq<K>, left_only: Seq<K>, right_only: Seq<K>|
        lists(both, left.intersect(right)) && lists(left_only, left.difference(right)) && lists(
            right_only,
            right.difference(left),
        ) && d == diff_spec(values_of(both, lookup), values_of(left_only + right_only, lookup))
}

/// The diff of two key sets, with the value of each key taken from `lookup`.
/// Keys in both sets give the shared items, keys in one set only the distinct
/// items (those of the first set first). Every key must have a value.
pub fn lookup_diff<K: Hash + Eq, I: Copy>(sets: [HashSet<K>; 2], lookup: HashMap<K, I>) -> (res: Diff<I>)
    requires
        obeys_key_model::<K>(),
        forall|k: K| #[trigger] sets@[0]@.contains(k) ==> lookup@.contains_key(k),
        forall|k: K| #[trigger] sets@[1]@.contains(k) ==> lookup@.contains_key(k),
    ensures
        is_diff_of(res@, sets@[0]@, sets@[1]@, lookup@),
{
    let left_set = &sets[0];
    let right_set = &sets[1];
    let ghost left = left_set@;
    let ghost right = right_set@;
    let ghost lk = lookup@;
    let mut shared: Vec<I> = Vec::new();
    let mut distinct: Vec<I> = Vec::new();
    let ghost mut both: Seq<K> = Seq::empty();
    let ghost mut left_only: Seq<K> = Seq::empty();
    let ghost mut done: Set<K> = Set::empty();
    let ghost ks = spec_hash_keys_iter(left_set).remaining();
    for k in it: left_set.iter()
        invariant
            it.seq() == ks,
            ks == spec_hash_keys_iter(left_set).remaining(),
            left == left_set@,
            right == right_set@,
            lk == lookup@,
            obeys_key_model::<K>(),
            forall|k: K| #[trigger] left.contains(k) ==> lk.contains_key(k),
            done == ks.take(it.index() as int).unref().to_set(),
            both.no_duplicates(),
            left_only.no_duplicates(),
            forall|x: K| #[trigger] both.contains(x) <==> (done.contains(x) && right.contains(x)),
            forall|x: K| #[trigger] left_only.contains(x) <==> (done.contains(x) && !right.contains(x)),
            shared@ == values_of(both, lk),
            distinct@ == values_of(left_only, lk),
    {
        proof {
            assert(ks[it.index()] == k);
            assert(ks.unref().to_set() == left);
            assert(ks.unref()[it.index()] == *k);
            assert(left.contains(*k));
            assert(!done.contains(*k)) by {
                if done.contains(*k) {
                    let m = choose|m: int| 0 <= m < it.index() && *ks[m] == *k;
                    assert(ks[m] == ks[it.index()]);
                }
            }
            let next = ks.take(it.index() + 1).unref();
            assert(next =~= ks.take(it.index() as int).unref().push(*k));
            ks.take(it.index() as int).unref().lemma_push_to_set_commute(*k);
        }
        let value = *lookup.get(k).unwrap();
        if right_set.contains(k) {
            shared.push(value);
            proof {
                assert(!both.contains(*k));
                lemma_push_no_dup(both, *k);
                lemma_push_contains(both, *k);
                both = both.push(*k);
            }
        } else {
            distinct.push(value);
            proof {
                assert(!left_only.contains(*k));
                lemma_push_no_dup(left_only, *k);
                lemma_push_contains(left_only, *k);
                left_only = left_only.push(*k);
            }
        }
        proof {
            done = done.insert(*k);
            assert(shared@ =~= values_of(both, lk));
            assert(distinct@ =~= values_of(left_only, lk));
        }
    }
    proof {
        assert(ks.take(ks.len() as int) =~= ks);
        assert(done == left);
    }
    let ghost mut right_only: Seq<K> = Seq::empty();
    let ghost mut done_right: Set<K> = Set::empty();
    let ghost left_count = distinct@.len();
    let ghost rs = spec_hash_keys_iter(right_set).remaining();
    for k in it: right_set.iter()
        invariant
            it.seq() == rs,
            rs == spec_hash_keys_iter(right_set).remaining(),
            left == left_set@,
            right == right_set@,
            lk == lookup@,
            obeys_key_model::<K>(),
            forall|k: K| #[trigger] right.contains(k) ==> lk.contains_key(k),
            done_right == rs.take(it.index() as int).unref().to_set(),
            right_only.no_duplicates(),
            forall|x: K| #[trigger] right_only.contains(x) <==> (done_right.contains(x) && !left.contains(x)),
            distinct@ == values_of(left_only + right_only, lk),
    {
        proof {
            assert(rs[it.index()] == k);
            assert(rs.unref().to_set() == right);
            assert(rs.unref()[it.index()] == *k);
            assert(right.contains(*k));
            assert(!done_right.contains(*k)) by {
                if done_right.contains(*k) {
                    let m = choose|m: int| 0 <= m < it.index() && *rs[m] == *k;
                    assert(rs[m] == rs[it.index()]);
                }
            }
            let next = rs.take(it.index() + 1).unref();
            assert(next =~= rs.take(it.index() as int).unref().push(*k));
            rs.take(it.index() as int).unref().lemma_push_to_set_commute(*k);
        }
        if !left_set.contains(k) {
            let value = *lookup.get(k).unwrap();
            distinct.push(value);
            proof {
                assert(!right_only.contains(*k));
                lemma_push_no_dup(right_only, *k);
                lemma_push_contains(right_only, *k);
                right_only = right_only.push(*k);
                assert(left_only + right_only =~= (left_only + right_only.drop_last()).push(*k));
            }
        }
        proof {
            done_right = done_right.insert(*k);
            assert(distinct@ =~= values_of(left_only + right_only, lk));
        }
    }
    proof {
        assert(rs.take(rs.len() as int) =~= rs);
        assert(done_right == right);
        assert(both.to_set() =~= left.intersect(right));
        assert(left_only.to_set() =~= left.difference(right));
        assert(right_only.to_set() =~= right.difference(left));
    }
    Diff::from(shared, distinct)
}

/// Whether the network `net` contains the measured network `target`; an IPv4
/// network is never contained.
pub open spec fn net_contains(net: Ipv6Prefix, target: IpNetwork) -> bool {
    match target {
        IpNetwork::V6(p) => net.contains_spec(p),
        IpNetwork::V4 { .. } => false,
    }
}

/// Whether a tree belongs to half `i`: the first half that contains it.
pub open spec fn belongs_to(nets: [Ipv6Prefix; 2], i: int, t: MeasurementTree) -> bool {
    if i == 0 {
        net_contains(nets[0], t.target_net)
    } else {
        i == 1 && !net_contains(nets[0], t.target_net) && net_contains(nets[1], t.target_net)
    }
}

/// The contents of half `i` after merging in, in order, the trees that belong
/// to it.
pub open spec fn collected(nets: [Ipv6Prefix; 2], i: int, trees: Seq<MeasurementTree>) -> TreeData
    decreases trees.len(),
{
    if trees.len() == 0 {
        empty_data()
    } else {
        let prev = collected(nets, i, trees.drop_last());
        if belongs_to(nets, i, trees.last()) {
            merged_data(prev, trees.last().data())
        } else {
            prev
        }
    }
}

/// Whether every merge into half `i` keeps the counts within `i32`.
pub open spec fn collectable(nets: [Ipv6Prefix; 2], i: int, trees: Seq<MeasurementTree>) -> bool
    decreases trees.len(),
{
    if trees.len() == 0 {
        true
    } else {
        collectable(nets, i, trees.drop_last()) && (belongs_to(nets, i, trees.last())
            ==> data_mergeable(collected(nets, i, trees.drop_last()), trees.last().data()))
    }
}

/// Why the measurements could not be sorted into the halves.
#[derive(Debug, Clone, Copy, PartialEq, Eq)]
pub enum SubnetError {
    /// Merging a tree into its half would take a count out of `i32`.
    CountOverflow,
}

/// Where the first `n` trees cannot be collected into half `i`, no list that
/// starts with them can.
proof fn lemma_not_collectable(nets: [Ipv6Prefix; 2], i: int, trees: Seq<MeasurementTree>, n: int)
    requires
        0 <= n <= trees.len(),
        !collectable(nets, i, trees.take(n)),
    ensures
        !collectable(nets, i, trees),
{
    if collectable(nets, i, trees) {
        lemma_collectable_prefix(nets, i, trees, n);
    }
}

/// A router's data in both halves: its hits in each half and all sources.
#[derive(Debug, Clone, Copy, PartialEq, Eq)]
pub struct LhrDiff {
    pub sources: LhrSources,
    /// Hits in the first and in the second half.
    pub hit_counts: [HitCount; 2],
}

/// `i32::saturating_add`.
pub open spec fn saturating_add_spec(a: i32, b: i32) -> i32 {
    if a + b > i32::MAX {
        i32::MAX
    } else if a + b < i32::MIN {
        i32::MIN
    } else {
        (a + b) as i32
    }
}

/// Hits of a router in a map of routers, zero if absent.
pub open spec fn hits_in(m: Map<LhrAddr, LhrItem>, k: LhrAddr) -> HitCount {
    if m.contains_key(k) {
        m[k].hit_count
    } else {
        0
    }
}

/// Sources of a router in a map of routers, none if absent.
pub open spec fn sources_in(m: Map<LhrAddr, LhrItem>, k: LhrAddr) -> LhrSources {
    if m.contains_key(k) {
        m[k].sources
    } else {
        LhrSources::empty_spec()
    }
}

/// Whether `d` is the data of router `k` in halves with the routers `l` and `r`.
pub open spec fn is_lhr_diff_of(
    d: LhrDiff,
    l: Map<LhrAddr, LhrItem>,
    r: Map<LhrAddr, LhrItem>,
    k: LhrAddr,
) -> bool {
    &&& d.hit_counts@ == seq![hits_in(l, k), hits_in(r, k)]
    &&& d.sources == sources_in(l, k).union_spec(sources_in(r, k))
}

/// Whether `lookup` holds the data of every router of either half.
pub open spec fn is_lhr_lookup(
    lookup: Map<LhrAddr, LhrDiff>,
    l: Map<LhrAddr, LhrItem>,
    r: Map<LhrAddr, LhrItem>,
) -> bool {
    &&& forall|k: LhrAddr| #[trigger] lookup.contains_key(k) <==> (l.contains_key(k) || r.contains_key(k))
    &&& forall|k: LhrAddr| #[trigger] lookup.contains_key(k) ==> is_lhr_diff_of(lookup[k], l, r, k)
}

impl LhrDiff {
    /// No hits and no sources.
    pub fn new() -> (res: Self)
        ensures
            res.hit_counts@ == seq![0i32, 0i32],
            res.sources == LhrSources::empty_spec(),
    {
        let res = LhrDiff { sources: LhrSources::empty(), hit_counts: [0, 0] };
        assert(res.hit_counts@ =~= seq![0i32, 0i32]);
        res
    }

    /// Records a router's item of half `subnet_id`: its hits for that half and
    /// its sources.
    pub fn consume(&mut self, subnet_id: usize, item: LhrItem)
        requires
            subnet_id < 2,
        ensures
            final(self).hit_counts@ == old(self).hit_counts@.update(subnet_id as int, item.hit_count),
            final(self).sources == old(self).sources.union_spec(item.sources),
    {
        if subnet_id == 0 {
            self.hit_counts = [item.hit_count, self.hit_counts[1]];
        } else {
            self.hit_counts = [self.hit_counts[0], item.hit_count];
        }
        self.sources.extend(&item.sources);
        assert(self.hit_counts@ =~= old(self).hit_counts@.update(subnet_id as int, item.hit_count));
    }

    /// Hits in both halves together, saturating at `i32::MAX`.
    pub fn total_hit_count(&self) -> (res: HitCount)
        ensures
            res == saturating_add_spec(self.hit_counts@[0], self.hit_counts@[1]),
    {
        saturating_add(self.hit_counts[0], self.hit_counts[1])
    }
}

/// `i32::saturating_add`.
pub fn saturating_add(a: i32, b: i32) -> (res: i32)
    ensures
        res == saturating_add_spec(a, b),
{
    if b > 0 && a > i32::MAX - b {
        i32::MAX
    } else if b < 0 && a < i32::MIN - b {
        i32::MIN
    } else {
        a + b
    }
}

/// The two halves of a prefix: its subnetworks one bit longer, in order;
/// none for a /128.
pub fn split_in_halves(base_net: Ipv6Prefix) -> (res: Option<[Ipv6Prefix; 2]>)
    requires
        base_net.wf(),
    ensures
        base_net.len == 128 ==> res is None,
        base_net.len < 128 ==> res is Some,
        res matches Some(halves) ==> is_subnet_listing(base_net, (base_net.len + 1) as u8, halves@),
{
    if base_net.len >= 128 {
        return None;
    }
    let subnets = base_net.subnets(base_net.len + 1).unwrap();
    proof {
        vstd::arithmetic::power2::lemma2_to64();
    }
    let halves = [subnets[0], subnets[1]];
    assert(halves@ =~= subnets@);
    Some(halves)
}

/// One half of a prefix under analysis.
#[derive(Debug)]
pub struct Subnet {
    pub network: Ipv6Prefix,
    /// All measurement trees found in this subnet, merged into one.
    pub synthetic_tree: MeasurementTree,
}

impl Subnet {
    pub open spec fn tree(self) -> MeasurementTree {
        self.synthetic_tree
    }

    /// A half without measurements.
    pub fn from(network: Ipv6Prefix) -> (res: Self)
        ensures
            res.network == network,
            res.tree().target_net == IpNetwork::V6(network),
            res.tree().data() == empty_data(),
    {
        let synthetic_tree = MeasurementTree::empty(network);
        proof {
            assert(synthetic_tree.data() == empty_data());
        }
        Subnet { network, synthetic_tree }
    }

    /// All measurements of this half, merged into one tree.
    pub fn synthetic_tree(&self) -> (res: &MeasurementTree)
        ensures
            *res == self.tree(),
    {
        &self.synthetic_tree
    }
}

/// The two halves of a prefix under analysis.
#[derive(Debug)]
pub struct Subnets {
    splits: [Subnet; 2],
}

impl Subnets {
    pub closed spec fn half(self, i: int) -> Subnet {
        self.splits[i]
    }

    /// Sorts the measurements into the two halves of a prefix: each tree goes
    /// to the first half that contains its network and is merged into that
    /// half's tree, in the given order; a tree that fits into neither half is
    /// left out.
    /// Where merging a tree into its half would take a count out of `i32`,
    /// this fails.
    pub fn new(split_nets: [Ipv6Prefix; 2], relevant_measurements: &[MeasurementTree]) -> (res: Result<
        Self,
        SubnetError,
    >)
        requires
            split_nets[0].wf(),
            split_nets[1].wf(),
            forall|j: int|
                0 <= j < relevant_measurements@.len() ==> (#[trigger] relevant_measurements@[j]).wf(),
        ensures
            res is Ok <==> (collectable(split_nets, 0, relevant_measurements@) && collectable(
                split_nets,
                1,
                relevant_measurements@,
            )),
            res is Err ==> res == Err::<Self, SubnetError>(SubnetError::CountOverflow),
            res matches Ok(s) ==> forall|i: int|
                0 <= i < 2 ==> (#[trigger] s.half(i)).network == split_nets[i]
                    && s.half(i).tree().target_net == IpNetwork::V6(split_nets[i])
                    && s.half(i).tree().data() == collected(
                    split_nets,
                    i,
                    relevant_measurements@,
                ),
    {
        let ghost trees = relevant_measurements@;
        let mut left = Subnet::from(split_nets[0]);
        let mut right = Subnet::from(split_nets[1]);
        let mut j: usize = 0;
        while j < relevant_measurements.len()
            invariant
                trees == relevant_measurements@,
                j <= trees.len(),
                split_nets[0].wf(),
                split_nets[1].wf(),
                forall|k: int| 0 <= k < trees.len() ==> (#[trigger] trees[k]).wf(),
                collectable(split_nets, 0, trees.take(j as int)),
                collectable(split_nets, 1, trees.take(j as int)),
                left.network == split_nets[0],
                right.network == split_nets[1],
                left.tree().target_net == IpNetwork::V6(split_nets[0]),
                right.tree().target_net == IpNetwork::V6(split_nets[1]),
                left.tree().data() == collected(split_nets, 0, trees.take(j as int)),
                right.tree().data() == collected(split_nets, 1, trees.take(j as int)),
            decreases trees.len() - j,
        {
            let tree = &relevant_measurements[j];
            proof {
                assert(trees.take(j + 1).drop_last() =~= trees.take(j as int));
                assert(trees.take(j + 1).last() == trees[j as int]);
            }
            if tree_in(&split_nets[0], tree) {
                if !left.synthetic_tree.can_merge(tree) {
                    proof {
                        lemma_not_collectable(split_nets, 0, trees, j + 1);
                    }
                    return Err(SubnetError::CountOverflow);
                }
                left.synthetic_tree.merge(tree);
            } else if tree_in(&split_nets[1], tree) {
                if !right.synthetic_tree.can_merge(tree) {
                    proof {
                        lemma_not_collectable(split_nets, 1, trees, j + 1);
                    }
                    return Err(SubnetError::CountOverflow);
                }
                right.synthetic_tree.merge(tree);
            }
            j = j + 1;
        }
        proof {
            assert(trees.take(trees.len() as int) =~= trees);
        }
        Ok(Subnets { splits: [left, right] })
    }
}

/// Whether `d` is how the last-hop routers of the two halves differ, with the
/// routers listed in some order: every router of either half with its hits in
/// each half and all its sources, those seen in both halves as shared items,
/// the others as distinct items.
pub open spec fn possible_lhr_diff(subnets: Subnets, d: DiffView<LhrDiff>) -> bool {
    let l = subnets.half(0).tree().last_hop_routers@;
    let r = subnets.half(1).tree().last_hop_routers@;
    exists|lookup: Map<LhrAddr, LhrDiff>| is_lhr_lookup(lookup, l, r) && is_diff_of(d, l.dom(), r.dom(), lookup)
}

/// Whether `d` is how the weird responses of the two halves differ, with the
/// kinds listed in some order: every kind of either half with its hits in
/// both halves together, those seen in both halves as shared items, the
/// others as distinct items.
pub open spec fn possible_weird_diff(subnets: Subnets, d: DiffView<WeirdItem>) -> bool {
    let l = subnets.half(0).tree().weirdness@;
    let r = subnets.half(1).tree().weirdness@;
    exists|lookup: Map<u8, WeirdItem>| is_weird_lookup(lookup, l, r) && is_diff_of(d, l.dom(), r.dom(), lookup)
}

impl Subnets {
    /// How the last-hop routers of the two halves differ: every router of
    /// either half with its hits in each half and all its sources, split into
    /// routers seen in both halves and routers seen in one half only.
    pub fn lhr_diff(&self) -> (res: Diff<LhrDiff>)
        ensures
            possible_lhr_diff(*self, res@),
    {
        let ghost l = self.half(0).tree().last_hop_routers@;
        let ghost r = self.half(1).tree().last_hop_routers@;
        let mut lookup: HashMap<LhrAddr, LhrDiff> = HashMap::new();
        let mut left_set: HashSet<LhrAddr> = HashSet::new();
        let mut right_set: HashSet<LhrAddr> = HashSet::new();
        collect_lhrs(&self.splits[0].synthetic_tree.last_hop_routers, 0, &mut lookup, &mut left_set);
        let ghost mid = lookup@;
        collect_lhrs(&self.splits[1].synthetic_tree.last_hop_routers, 1, &mut lookup, &mut right_set);
        proof {
            assert(left_set@ =~= l.dom());
            assert(right_set@ =~= r.dom());
            assert forall|k: LhrAddr| #[trigger] lookup@.contains_key(k) implies is_lhr_diff_of(
                lookup@[k],
                l,
                r,
                k,
            ) by {
                if l.contains_key(k) {
                    assert(mid.contains_key(k));
                }
                assert(lookup@[k].hit_counts@ =~= seq![hits_in(l, k), hits_in(r, k)]);
            }
        }
        let ghost lk = lookup@;
        let sets = [left_set, right_set];
        proof {
            assert(sets@[0]@ == l.dom());
            assert(sets@[1]@ == r.dom());
            assert(is_lhr_lookup(lk, l, r));
        }
        let res = lookup_diff(sets, lookup);
        proof {
            assert(is_diff_of(res@, l.dom(), r.dom(), lk));
        }
        res
    }
}

impl Subnets {
    /// The two halves.
    pub fn halves(&self) -> (res: &[Subnet; 2])
        ensures
            res@[0] == self.half(0),
            res@[1] == self.half(1),
    {
        &self.splits
    }

    /// The sum of a count over the merged trees of both halves.
    pub fn sum_subtrees<F: Fn(&MeasurementTree) -> HitCount>(&self, count_fn: F) -> (res: HitCount)
        requires
            count_fn.requires((&self.half(0).tree(),)),
            count_fn.requires((&self.half(1).tree(),)),
            forall|a: HitCount, b: HitCount|
                count_fn.ensures((&self.half(0).tree(),), a) && count_fn.ensures(
                    (&self.half(1).tree(),),
                    b,
                ) ==> i32::MIN <= a + b <= i32::MAX,
        ensures
            exists|a: HitCount, b: HitCount|
                count_fn.ensures((&self.half(0).tree(),), a) && count_fn.ensures(
                    (&self.half(1).tree(),),
                    b,
                ) && res == a + b,
    {
        let mut result: HitCount = 0;
        let first = count_fn(&self.splits[0].synthetic_tree);
        let second = count_fn(&self.splits[1].synthetic_tree);
        result = result + first;
        result = result + second;
        result
    }
}

/// Hits of a kind in a map of weird responses, zero if absent.
pub open spec fn weird_hits_in(m: Map<u8, WeirdItem>, k: u8) -> int {
    if m.contains_key(k) {
        m[k].hit_count as int
    } else {
        0
    }
}

/// Whether `lookup` holds, for every kind of weird response of either half,
/// its hits in both halves together.
pub open spec fn is_weird_lookup(lookup: Map<u8, WeirdItem>, l: Map<u8, WeirdItem>, r: Map<u8, WeirdItem>) -> bool {
    &&& forall|k: u8| #[trigger] lookup.contains_key(k) <==> (l.contains_key(k) || r.contains_key(k))
    &&& forall|k: u8| #[trigger] lookup.contains_key(k) ==> lookup[k].hit_count == weird_hits_in(l, k)
        + weird_hits_in(r, k)
}

impl Subnets {
    /// How the weird responses of the two halves differ: every kind of either
    /// half with its hits in both halves together, split into kinds seen in
    /// both halves and kinds seen in one half only.
    pub fn weird_diff(&self) -> (res: Diff<WeirdItem>)
        requires
            weirds_mergeable(self.half(0).tree().weirdness@, self.half(1).tree().weirdness@),
        ensures
            possible_weird_diff(*self, res@),
    {
        let ghost l = self.half(0).tree().weirdness@;
        let ghost r = self.half(1).tree().weirdness@;
        let mut lookup: HashMap<u8, WeirdItem> = HashMap::new();
        let mut left_set: HashSet<u8> = HashSet::new();
        let mut right_set: HashSet<u8> = HashSet::new();
        collect_weirds(&self.splits[0].synthetic_tree.weirdness, &mut lookup, &mut left_set);
        let ghost mid = lookup@;
        proof {
            assert forall|k: u8| mid.contains_key(k) && r.contains_key(k) implies i32::MIN <= #[trigger] mid[k].hit_count + r[k].hit_count <= i32::MAX by {
                assert(l.contains_key(k) && r.contains_key(k));
                assert(i32::MIN <= l[k].hit_count + r[k].hit_count <= i32::MAX);
            }
        }
        collect_weirds(&self.splits[1].synthetic_tree.weirdness, &mut lookup, &mut right_set);
        let ghost lk = lookup@;
        let sets = [left_set, right_set];
        proof {
            assert(sets@[0]@ =~= l.dom());
            assert(sets@[1]@ =~= r.dom());
            assert forall|k: u8| #[trigger] lk.contains_key(k) implies lk[k].hit_count == weird_hits_in(l, k)
                + weird_hits_in(r, k) by {
                if l.contains_key(k) {
                    assert(mid.contains_key(k));
                }
            }
            assert(is_weird_lookup(lk, l, r));
        }
        let res = lookup_diff(sets, lookup);
        proof {
            assert(is_diff_of(res@, l.dom(), r.dom(), lk));
        }
        res
    }
}

/// Adds the hits of every weird kind of one half to `lookup` and records the
/// kind in `kinds`.
fn collect_weirds(weirds: &HashMap<u8, WeirdItem>, lookup: &mut HashMap<u8, WeirdItem>, kinds: &mut HashSet<u8>)
    requires
        forall|k: u8| old(lookup)@.contains_key(k) && weirds@.contains_key(k) ==> i32::MIN <= #[trigger] old(lookup)@[k].hit_count
            + weirds@[k].hit_count <= i32::MAX,
    ensures
        forall|k: u8| #[trigger] final(lookup)@.contains_key(k) <==> (old(lookup)@.contains_key(k)
            || weirds@.contains_key(k)),
        forall|k: u8| #[trigger] final(lookup)@.contains_key(k) ==> final(lookup)@[k].hit_count == weird_hits_in(old(lookup)@, k) + weird_hits_in(weirds@, k),
        final(kinds)@ == old(kinds)@.union(weirds@.dom()),
{
    let ghost start = lookup@;
    let ghost start_kinds = kinds@;
    let ghost mut done: Set<u8> = Set::empty();
    let entries = weirds.iter();
    let ghost kvs = spec_hash_map_iter(weirds).remaining();
    assert(kvs.no_duplicates());
    for (typ, item) in it: entries
        invariant
            it.seq() == kvs,
            kvs == spec_hash_map_iter(weirds).remaining(),
            kvs.no_duplicates(),
            done == kvs.take(it.index() as int).map_values(|e: (&u8, &WeirdItem)| *e.0).to_set(),
            forall|k: u8| start.contains_key(k) && weirds@.contains_key(k) ==> i32::MIN <= #[trigger] start[k].hit_count
                + weirds@[k].hit_count <= i32::MAX,
            forall|k: u8| #[trigger] lookup@.contains_key(k) <==> (start.contains_key(k) || done.contains(k)),
            forall|k: u8| #[trigger] lookup@.contains_key(k) ==> lookup@[k].hit_count == weird_hits_in(start, k)
                + (if done.contains(k) { weird_hits_in(weirds@, k) } else { 0 }),
            forall|k: u8| #[trigger] done.contains(k) ==> weirds@.contains_key(k),
            kinds@ == start_kinds.union(done),
    {
        proof {
            assert(kvs[it.index()] == (typ, item));
            assert(weirds@.contains_key(*kvs[it.index()].0));
            assert(weirds@.contains_key(*typ) && weirds@[*typ] == *item);
            assert(!done.contains(*typ)) by {
                if done.contains(*typ) {
                    let m = choose|m: int| 0 <= m < it.index() && *kvs[m].0 == *typ;
                    assert(kvs[m] == kvs[it.index()]);
                }
            }
            let next = kvs.take(it.index() + 1).map_values(|e: (&u8, &WeirdItem)| *e.0);
            assert(next =~= kvs.take(it.index() as int).map_values(|e: (&u8, &WeirdItem)| *e.0).push(*typ));
            kvs.take(it.index() as int).map_values(|e: (&u8, &WeirdItem)| *e.0).lemma_push_to_set_commute(*typ);
        }
        let mut entry = match lookup.get(typ) {
            Some(existing) => *existing,
            None => WeirdItem { hit_count: 0 },
        };
        entry.consume_merge(*item);
        lookup.insert(*typ, entry);
        kinds.insert(*typ);
        proof {
            done = done.insert(*typ);
            assert(kinds@ =~= start_kinds.union(done));
        }
    }
    proof {
        let all = kvs.map_values(|e: (&u8, &WeirdItem)| *e.0);
        assert(kvs.take(kvs.len() as int) =~= kvs);
        assert(all.to_set() =~= weirds@.dom()) by {
            assert forall|k: u8| weirds@.contains_key(k) implies all.to_set().contains(k) by {
                assert(kvs.contains((&k, &weirds@[k])));
                let m = choose|m: int| 0 <= m < kvs.len() && kvs[m] == (&k, &weirds@[k]);
                assert(all[m] == k);
            }
        }
    }
}

/// Whether `new` is `prev` (or no data, where absent) after recording `item`
/// for half `i`.
pub open spec fn consumed_from(new: LhrDiff, prev: Option<LhrDiff>, i: int, item: LhrItem) -> bool {
    let prev_hits = match prev {
        Some(p) => p.hit_counts@,
        None => seq![0i32, 0i32],
    };
    let prev_sources = match prev {
        Some(p) => p.sources,
        None => LhrSources::empty_spec(),
    };
    &&& new.hit_counts@ == prev_hits.update(i, item.hit_count)
    &&& new.sources == prev_sources.union_spec(item.sources)
}

/// Records every router of one half in `lookup` and its address in `addrs`.
fn collect_lhrs(
    routers: &HashMap<LhrAddr, LhrItem>,
    subnet_id: usize,
    lookup: &mut HashMap<LhrAddr, LhrDiff>,
    addrs: &mut HashSet<LhrAddr>,
)
    requires
        subnet_id < 2,
        forall|k: LhrAddr| #[trigger] old(lookup)@.contains_key(k) ==> old(lookup)@[k].hit_counts@.len() == 2,
    ensures
        forall|k: LhrAddr| #[trigger] final(lookup)@.contains_key(k) <==> (old(lookup)@.contains_key(k)
            || routers@.contains_key(k)),
        forall|k: LhrAddr| #[trigger] routers@.contains_key(k) ==> consumed_from(
            final(lookup)@[k],
            if old(lookup)@.contains_key(k) { Some(old(lookup)@[k]) } else { None },
            subnet_id as int,
            routers@[k],
        ),
        forall|k: LhrAddr|
            !routers@.contains_key(k) && #[trigger] old(lookup)@.contains_key(k) ==> final(lookup)@[k]
                == old(lookup)@[k],
        forall|k: LhrAddr| #[trigger] final(lookup)@.contains_key(k) ==> final(lookup)@[k].hit_counts@.len() == 2,
        final(addrs)@ == old(addrs)@.union(routers@.dom()),
{
    let ghost start = lookup@;
    let ghost start_addrs = addrs@;
    let ghost mut done: Set<LhrAddr> = Set::empty();
    let entries = routers.iter();
    let ghost kvs = spec_hash_map_iter(routers).remaining();
    assert(kvs.no_duplicates());
    for (addr, item) in it: entries
        invariant
            it.seq() == kvs,
            kvs == spec_hash_map_iter(routers).remaining(),
            kvs.no_duplicates(),
            subnet_id < 2,
            done == kvs.take(it.index() as int).map_values(|e: (&LhrAddr, &LhrItem)| *e.0).to_set(),
            forall|k: LhrAddr| #[trigger] start.contains_key(k) ==> start[k].hit_counts@.len() == 2,
            forall|k: LhrAddr| #[trigger] lookup@.contains_key(k) <==> (start.contains_key(k) || done.contains(k)),
            forall|k: LhrAddr| #[trigger] done.contains(k) ==> routers@.contains_key(k) && consumed_from(
                lookup@[k],
                if start.contains_key(k) { Some(start[k]) } else { None },
                subnet_id as int,
                routers@[k],
            ),
            forall|k: LhrAddr| !done.contains(k) && #[trigger] start.contains_key(k) ==> lookup@[k] == start[k],
            forall|k: LhrAddr| #[trigger] lookup@.contains_key(k) ==> lookup@[k].hit_counts@.len() == 2,
            addrs@ == start_addrs.union(done),
    {
        proof {
            assert(kvs[it.index()] == (addr, item));
            assert(routers@.contains_key(*kvs[it.index()].0));
            assert(routers@.contains_key(*addr) && routers@[*addr] == *item);
            assert(!done.contains(*addr)) by {
                if done.contains(*addr) {
                    let m = choose|m: int| 0 <= m < it.index() && *kvs[m].0 == *addr;
                    assert(kvs[m] == kvs[it.index()]);
                }
            }
            let next = kvs.take(it.index() + 1).map_values(|e: (&LhrAddr, &LhrItem)| *e.0);
            assert(next =~= kvs.take(it.index() as int).map_values(|e: (&LhrAddr, &LhrItem)| *e.0).push(*addr));
            kvs.take(it.index() as int).map_values(|e: (&LhrAddr, &LhrItem)| *e.0).lemma_push_to_set_commute(*addr);
        }
        let mut entry = match lookup.get(addr) {
            Some(existing) => *existing,
            None => LhrDiff::new(),
        };
        entry.consume(subnet_id, *item);
        lookup.insert(*addr, entry);
        addrs.insert(*addr);
        proof {
            done = done.insert(*addr);
            assert(addrs@ =~= start_addrs.union(done));
        }
    }
    proof {
        let all = kvs.map_values(|e: (&LhrAddr, &LhrItem)| *e.0);
        assert(kvs.take(kvs.len() as int) =~= kvs);
        assert(all.to_set() =~= routers@.dom()) by {
            assert forall|k: LhrAddr| routers@.contains_key(k) implies all.to_set().contains(k) by {
                assert(kvs.contains((&k, &routers@[k])));
                let m = choose|m: int| 0 <= m < kvs.len() && kvs[m] == (&k, &routers@[k]);
                assert(all[m] == k);
            }
        }
    }
}

/// Whether the network of a tree lies within a half.
fn tree_in(net: &Ipv6Prefix, tree: &MeasurementTree) -> (res: bool)
    requires
        net.wf(),
        tree.wf(),
    ensures
        res == net_contains(*net, tree.target_net),
{
    match &tree.target_net {
        IpNetwork::V6(p) => {
            if p.len <= 128 {
                net.contains(p)
            } else {
                false
            }
        },
        IpNetwork::V4 { .. } => false,
    }
}

proof fn lemma_collectable_prefix(nets: [Ipv6Prefix; 2], i: int, trees: Seq<MeasurementTree>, n: int)
    requires
        0 <= n <= trees.len(),
        collectable(nets, i, trees),
    ensures
        collectable(nets, i, trees.take(n)),
    decreases trees.len() - n,
{
    if n < trees.len() {
        lemma_collectable_prefix(nets, i, trees, n + 1);
        assert(trees.take(n + 1).drop_last() =~= trees.take(n));
    } else {
        assert(trees.take(n) =~= trees);
    }
}

proof fn lemma_push_contains<K>(s: Seq<K>, x: K)
    ensures
        forall|y: K| #[trigger] s.push(x).contains(y) <==> (s.contains(y) || y == x),
{
    assert forall|y: K| #[trigger] s.push(x).contains(y) <==> (s.contains(y) || y == x) by {
        if s.contains(y) {
            let i = choose|i: int| 0 <= i < s.len() && s[i] == y;
            assert(s.push(x)[i] == y);
        }
        if y == x {
            assert(s.push(x)[s.len() as int] == y);
        }
        if s.push(x).contains(y) {
            let i = choose|i: int| 0 <= i < s.len() + 1 && s.push(x)[i] == y;
            if i < s.len() {
                assert(s[i] == y);
            }
        }
    }
}

proof fn lemma_push_no_dup<K>(s: Seq<K>, x: K)
    requires
        s.no_duplicates(),
        !s.contains(x),
    ensures
        s.push(x).no_duplicates(),
{
    assert forall|i: int, j: int| 0 <= i < s.len() + 1 && 0 <= j < s.len() + 1 && i != j implies s.push(
        x,
    )[i] != s.push(x)[j] by {
        if i == s.len() {
            assert(s[j] == s.push(x)[j]);
        } else if j == s.len() {
            assert(s[i] == s.push(x)[i]);
        }
    }
}

} // verus!
