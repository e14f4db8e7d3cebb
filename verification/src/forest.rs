//! A forest of measurement trees: one tree per /64 network, plus trees for
//! less specific networks into which the trees of their subnetworks are
//! merged. Each tree remembers whether it was changed since it was loaded.

use vstd::prelude::*;

use crate::map64::{spec_net_key, Net64Map, PREFIX_LEN};
use crate::measurement::{data_mergeable, empty_data, merged_data, IpNetwork, MeasurementTree, TreeData};
use crate::prefix::Ipv6Prefix;
use crate::subnet::lists;

verus! {

/// Whether a tree of the forest was changed since it was loaded.
#[derive(Debug, Clone, Copy, PartialEq, Eq, Structural)]
pub enum ModificationType {
    Untouched,
    Inserted,
    Updated,
}

/// A tree of the forest with its modification state.
#[derive(Debug)]
pub struct ModifiableTree {
    pub tree: MeasurementTree,
    pub touched: ModificationType,
}

/// The contents of a [`ModifiableTree`].
pub struct TreeModel {
    pub net: IpNetwork,
    pub data: TreeData,
    pub touched: ModificationType,
}

/// Why a tree could not be planted.
#[derive(Debug, Clone, Copy, PartialEq, Eq)]
pub enum ForestError {
    /// The forest holds IPv6 networks only.
    Ipv4Tree,
    /// Trees for networks longer than /64 are not accepted.
    TooSpecific { net: Ipv6Prefix },
    /// Merging the tree of `net` into the tree that takes it would take a
    /// count out of `i32`.
    CountOverflow { net: Ipv6Prefix },
}

impl ModifiableTree {
    pub open spec fn model(self) -> TreeModel {
        TreeModel { net: self.tree.target_net, data: self.tree.data(), touched: self.touched }
    }

    /// An untouched tree without measurements.
    fn empty(net: Ipv6Prefix) -> (res: Self)
        ensures
            res.model() == (TreeModel { net: IpNetwork::V6(net), data: empty_data(), touched: ModificationType::Untouched }),
    {
        let tree = MeasurementTree::empty(net);
        assert(tree.data() == empty_data());
        ModifiableTree { tree, touched: ModificationType::Untouched }
    }

    /// Merges another tree into this one; a change counts as an update of an
    /// untouched tree where it is to be recorded.
    fn consume_merge(&mut self, other: MeasurementTree, should_touch: bool)
        requires
            old(self).tree.mergeable(other),
        ensures
            final(self).model() == merged_into(old(self).model(), other.data(), should_touch),
    {
        self.tree.merge(&other);
        if should_touch && self.touched == ModificationType::Untouched {
            self.touched = ModificationType::Updated;
        }
    }

    /// The tree's network, which must be IPv6.
    fn expect_ipv6_net(&self) -> (res: Ipv6Prefix)
        requires
            self.tree.target_net is V6,
        ensures
            self.tree.target_net == IpNetwork::V6(res),
    {
        match &self.tree.target_net {
            IpNetwork::V6(net) => *net,
            IpNetwork::V4 { .. } => {
                assert(false);
                Ipv6Prefix { addr: 0, len: 0 }
            },
        }
    }
}

/// A tree after another tree's data was merged into it.
pub open spec fn merged_into(m: TreeModel, data: TreeData, should_touch: bool) -> TreeModel {
    TreeModel {
        net: m.net,
        data: merged_data(m.data, data),
        touched: if should_touch && m.touched == ModificationType::Untouched {
            ModificationType::Updated
        } else {
            m.touched
        },
    }
}

/// The contents of a [`MeasurementForest`].
pub struct ForestModel {
    /// Trees of networks less specific than /64, in order of planting.
    pub merged: Seq<TreeModel>,
    /// Trees of /64 networks by their key.
    pub trees64: Map<u64, TreeModel>,
    /// Networks whose trees were merged into a less specific tree on loading.
    pub obsolete: Set<Ipv6Prefix>,
}

/// Whether network `container` contains the IPv6 network `net`.
pub open spec fn contains_net(container: IpNetwork, net: Ipv6Prefix) -> bool {
    match container {
        IpNetwork::V6(c) => c.contains_spec(net),
        IpNetwork::V4 { .. } => false,
    }
}

/// Tree `i` is the first of the merged trees that contains `net`.
pub open spec fn is_first_container(merged: Seq<TreeModel>, net: Ipv6Prefix, i: int) -> bool {
    &&& 0 <= i < merged.len()
    &&& contains_net(merged[i].net, net)
    &&& forall|j: int| 0 <= j < i ==> !contains_net(#[trigger] merged[j].net, net)
}

/// The modification state of a planted tree.
pub open spec fn planted_state(should_touch: bool) -> ModificationType {
    if should_touch {
        ModificationType::Inserted
    } else {
        ModificationType::Untouched
    }
}

/// The /64 tree that a tree for `net` is merged into: the one there is, or
/// an empty untouched one.
pub open spec fn tree64_base(f: ForestModel, net: Ipv6Prefix) -> TreeModel {
    if f.trees64.contains_key(spec_net_key(net)) {
        f.trees64[spec_net_key(net)]
    } else {
        TreeModel { net: IpNetwork::V6(net), data: empty_data(), touched: ModificationType::Untouched }
    }
}

/// The forest after planting a tree of network `net_of_tree` and contents
/// `data`. An IPv4 tree is refused. A tree that the first containing merged
/// tree can take is merged into it (and where the change is not recorded,
/// its network becomes obsolete). Otherwise a tree longer than /64 is
/// refused, a /64 tree is merged into the /64 tree there, which takes the
/// planted state, and a less specific tree is added to the merged trees. A
/// merge that would take a count out of `i32` is refused.
pub open spec fn inserted(f: ForestModel, net_of_tree: IpNetwork, data: TreeData, should_touch: bool) -> Result<
    ForestModel,
    ForestError,
> {
    match net_of_tree {
        IpNetwork::V4 { .. } => Err(ForestError::Ipv4Tree),
        IpNetwork::V6(net) => if exists|i: int| is_first_container(f.merged, net, i) {
            let i = choose|i: int| is_first_container(f.merged, net, i);
            if !data_mergeable(f.merged[i].data, data) {
                Err(ForestError::CountOverflow { net })
            } else {
            Ok(
                ForestModel {
                    merged: f.merged.update(i, merged_into(f.merged[i], data, should_touch)),
                    trees64: f.trees64,
                    obsolete: if should_touch {
                        f.obsolete
                    } else {
                        f.obsolete.insert(net)
                    },
                },
            )
            }
        } else if net.len > PREFIX_LEN {
            Err(ForestError::TooSpecific { net })
        } else if net.len == PREFIX_LEN {
            let base = tree64_base(f, net);
            if !data_mergeable(base.data, data) {
                Err(ForestError::CountOverflow { net })
            } else {
            Ok(
                ForestModel {
                    merged: f.merged,
                    trees64: f.trees64.insert(
                        spec_net_key(net),
                        TreeModel {
                            net: base.net,
                            data: merged_data(base.data, data),
                            touched: planted_state(should_touch),
                        },
                    ),
                    obsolete: f.obsolete,
                },
            )
            }
        } else {
            Ok(
                ForestModel {
                    merged: f.merged.push(TreeModel { net: net_of_tree, data, touched: planted_state(should_touch) }),
                    trees64: f.trees64,
                    obsolete: f.obsolete,
                },
            )
        },
    }
}

/// Whether a tree for `net_of_tree` finds a tree already there: a less
/// specific tree whose network contains it, or, for a /64 network, the tree of
/// that /64 network.
pub open spec fn already_present(f: ForestModel, net_of_tree: IpNetwork) -> bool {
    match net_of_tree {
        IpNetwork::V6(net) => (exists|i: int| 0 <= i < f.merged.len() && #[trigger] contains_net(f.merged[i].net, net))
            || (net.len == PREFIX_LEN && f.trees64.contains_key(spec_net_key(net))),
        IpNetwork::V4 { .. } => false,
    }
}

/// Some merged tree contains `net` exactly where a first one does.
proof fn lemma_first_container_iff(merged: Seq<TreeModel>, net: Ipv6Prefix)
    ensures
        (exists|i: int| 0 <= i < merged.len() && #[trigger] contains_net(merged[i].net, net)) <==> (exists|i: int|
            is_first_container(merged, net, i)),
    decreases merged.len(),
{
    if merged.len() > 0 {
        let rest = merged.drop_last();
        lemma_first_container_iff(rest, net);
        if exists|i: int| is_first_container(rest, net, i) {
            let i = choose|i: int| is_first_container(rest, net, i);
            assert forall|j: int| 0 <= j < i implies !contains_net(#[trigger] merged[j].net, net) by {
                assert(merged[j] == rest[j]);
            }
            assert(is_first_container(merged, net, i));
        } else if contains_net(merged.last().net, net) {
            assert forall|j: int| 0 <= j < merged.len() - 1 implies !contains_net(#[trigger] merged[j].net, net) by {
                assert(merged[j] == rest[j]);
                if contains_net(merged[j].net, net) {
                    assert(0 <= j < rest.len() && contains_net(rest[j].net, net));
                }
            }
            assert(is_first_container(merged, net, merged.len() - 1));
        } else {
            assert forall|i: int| 0 <= i < merged.len() implies !contains_net(#[trigger] merged[i].net, net) by {
                if i < merged.len() - 1 {
                    assert(merged[i] == rest[i]);
                    if contains_net(merged[i].net, net) {
                        assert(0 <= i < rest.len() && contains_net(rest[i].net, net));
                    }
                }
            }
        }
    }
}

/// The networks and contents of some trees.
pub open spec fn planted_items(trees: Seq<MeasurementTree>) -> Seq<(IpNetwork, TreeData)> {
    trees.map_values(|t: MeasurementTree| (t.target_net, t.data()))
}

/// A forest without trees.
pub open spec fn empty_forest_model() -> ForestModel {
    ForestModel { merged: Seq::empty(), trees64: Map::empty(), obsolete: Set::empty() }
}

/// The forest of stored trees planted untouched, with fresh trees planted
/// after them as changes, or the first refusal.
pub open spec fn merged_forest(existing: Seq<MeasurementTree>, fresh: Seq<MeasurementTree>) -> Result<
    ForestModel,
    ForestError,
> {
    match inserted_all(empty_forest_model(), planted_items(existing), false) {
        Ok(f) => inserted_all(f, planted_items(fresh), true),
        Err(e) => Err(e),
    }
}

/// The forest after planting some trees (given by network and contents) in
/// order, or the first refusal.
pub open spec fn inserted_all(f: ForestModel, items: Seq<(IpNetwork, TreeData)>, should_touch: bool) -> Result<
    ForestModel,
    ForestError,
>
    decreases items.len(),
{
    if items.len() == 0 {
        Ok(f)
    } else {
        match inserted_all(f, items.drop_last(), should_touch) {
            Ok(g) => inserted(g, items.last().0, items.last().1, should_touch),
            Err(e) => Err(e),
        }
    }
}

/// A tree of the forest has a valid IPv6 network.
pub open spec fn tree_net_ok(m: TreeModel) -> bool {
    m.net matches IpNetwork::V6(p) && p.wf()
}

/// Every tree of the forest has a valid IPv6 network.
pub open spec fn forest_wf(f: ForestModel) -> bool {
    &&& forall|i: int| 0 <= i < f.merged.len() ==> tree_net_ok(#[trigger] f.merged[i])
    &&& forall|k: u64| #[trigger] f.trees64.contains_key(k) ==> tree_net_ok(f.trees64[k])
}

/// Planting a tree with a valid network keeps every network valid.
pub proof fn lemma_inserted_wf(f: ForestModel, net_of_tree: IpNetwork, data: TreeData, should_touch: bool)
    requires
        forest_wf(f),
        net_of_tree.wf(),
    ensures
        inserted(f, net_of_tree, data, should_touch) matches Ok(g) ==> forest_wf(g),
{
    if let IpNetwork::V6(net) = net_of_tree {
        if exists|i: int| is_first_container(f.merged, net, i) {
            let i = choose|i: int| is_first_container(f.merged, net, i);
            let g = f.merged.update(i, merged_into(f.merged[i], data, should_touch));
            assert forall|j: int| 0 <= j < g.len() implies tree_net_ok(#[trigger] g[j]) by {
                assert(tree_net_ok(f.merged[j]));
            }
        }
    }
}

/// Measurement trees of a prefix and its subnetworks.
#[derive(Debug)]
pub struct MeasurementForest {
    trees64: Net64Map<ModifiableTree>,
    merged_trees: Vec<ModifiableTree>,
    /// Networks whose trees were merged into a less specific tree on
    /// loading, each once.
    pub obsolete_nets: Vec<Ipv6Prefix>,
}

impl Default for MeasurementForest {
    fn default() -> (res: Self)
        ensures
            res.wf(),
            res.model() == (ForestModel { merged: Seq::empty(), trees64: Map::empty(), obsolete: Set::empty() }),
    {
        let res = MeasurementForest { trees64: Net64Map::default(), merged_trees: Vec::new(), obsolete_nets: Vec::new() };
        assert(res.model().merged =~= Seq::<TreeModel>::empty());
        assert(res.model().trees64 =~= Map::<u64, TreeModel>::empty());
        assert(res.model().obsolete =~= Set::<Ipv6Prefix>::empty());
        res
    }
}

impl MeasurementForest {
    pub closed spec fn model(self) -> ForestModel {
        ForestModel {
            merged: self.merged_trees@.map_values(|t: ModifiableTree| t.model()),
            trees64: self.trees64@.map_values(|t: ModifiableTree| t.model()),
            obsolete: self.obsolete_nets@.to_set(),
        }
    }

    /// Every tree has a valid IPv6 network and no network is obsolete twice.
    pub closed spec fn wf(self) -> bool {
        &&& forest_wf(self.model())
        &&& self.obsolete_nets@.no_duplicates()
    }

    /// A forest of the given trees, merged where one contains another,
    /// recording none of them as changed.
    pub fn with_untouched(trees: Vec<MeasurementTree>) -> (res: Result<Self, ForestError>)
        requires
            forall|i: int| 0 <= i < trees@.len() ==> (#[trigger] trees@[i]).wf(),
        ensures
            match inserted_all(
                ForestModel { merged: Seq::empty(), trees64: Map::empty(), obsolete: Set::empty() },
                planted_items(trees@),
                false,
            ) {
                Ok(f) => res matches Ok(me) && me.wf() && me.model() == f,
                Err(e) => res == Err::<Self, ForestError>(e),
            },
    {
        let mut me = Self::default();
        match me.plant_all(trees, false) {
            Ok(()) => Ok(me),
            Err(e) => Err(e),
        }
    }

    /// Plants some trees in order, stopping at the first refusal.
    fn plant_all(&mut self, trees: Vec<MeasurementTree>, should_touch: bool) -> (res: Result<(), ForestError>)
        requires
            old(self).wf(),
            forall|i: int| 0 <= i < trees@.len() ==> (#[trigger] trees@[i]).wf(),
        ensures
            final(self).wf(),
            match inserted_all(old(self).model(), planted_items(trees@), should_touch) {
                Ok(f) => res is Ok && final(self).model() == f,
                Err(e) => res == Err::<(), ForestError>(e),
            },
    {
        let ghost start = self.model();
        let ghost all = trees@;
        let ghost items = planted_items(all);
        for tree in it: trees
            invariant
                it.seq() == all,
                all == trees@,
                items == planted_items(all),
                start == old(self).model(),
                forall|i: int| 0 <= i < all.len() ==> (#[trigger] all[i]).wf(),
                self.wf(),
                inserted_all(start, items.take(it.index() as int), should_touch) == Ok::<ForestModel, ForestError>(
                    self.model(),
                ),
        {
            let ghost done = it.index() as int;
            proof {
                assert(tree == all[done]);
                assert(items.take(done + 1).drop_last() =~= items.take(done));
                assert(items[done] == (tree.target_net, tree.data()));
            }
            let r = self.insert_with_touch(tree, should_touch);
            match r {
                Ok(_) => {},
                Err(e) => {
                    proof {
                        assert(items.take(done + 1).last() == (tree.target_net, tree.data()));
                        assert(inserted_all(start, items.take(done + 1), should_touch) == Err::<ForestModel, ForestError>(e));
                        lemma_inserted_all_err(start, items, done + 1, should_touch);
                    }
                    return Err(e);
                },
            }
        }
        proof {
            assert(items.take(items.len() as int) =~= items);
        }
        Ok(())
    }

    /// Merges fresh trees into the trees loaded from storage: the loaded trees
    /// are planted untouched, then the fresh ones, recording each change.
    pub fn merge_into_existing(existing: Vec<MeasurementTree>, fresh: Vec<MeasurementTree>) -> (res: Result<
        Self,
        ForestError,
    >)
        requires
            forall|i: int| 0 <= i < existing@.len() ==> (#[trigger] existing@[i]).wf(),
            forall|i: int| 0 <= i < fresh@.len() ==> (#[trigger] fresh@[i]).wf(),
        ensures
            match merged_forest(existing@, fresh@) {
                Ok(f) => res matches Ok(me) && me.wf() && me.model() == f,
                Err(e) => res == Err::<Self, ForestError>(e),
            },
    {
        let mut me = match Self::with_untouched(existing) {
            Ok(me) => me,
            Err(e) => return Err(e),
        };
        match me.plant_all(fresh, true) {
            Ok(()) => Ok(me),
            Err(e) => Err(e),
        }
    }

    /// Plants a tree, recording the change, and tells whether its network or
    /// a network containing it already had a tree.
    pub fn insert(&mut self, tree: MeasurementTree) -> (res: Result<bool, ForestError>)
        requires
            old(self).wf(),
            tree.wf(),
        ensures
            final(self).wf(),
            match inserted(old(self).model(), tree.target_net, tree.data(), true) {
                Ok(f) => res == Ok::<bool, ForestError>(already_present(old(self).model(), tree.target_net))
                    && final(self).model() == f,
                Err(e) => res == Err::<bool, ForestError>(e) && final(self).model() == old(self).model(),
            },
    {
        self.insert_with_touch(tree, true)
    }

    fn insert_with_touch(&mut self, tree: MeasurementTree, should_touch: bool) -> (res: Result<bool, ForestError>)
        requires
            old(self).wf(),
            tree.wf(),
        ensures
            final(self).wf(),
            match inserted(old(self).model(), tree.target_net, tree.data(), should_touch) {
                Ok(f) => res == Ok::<bool, ForestError>(already_present(old(self).model(), tree.target_net))
                    && final(self).model() == f,
                Err(e) => res == Err::<bool, ForestError>(e) && final(self).model() == old(self).model(),
            },
    {
        proof {
            lemma_inserted_wf(self.model(), tree.target_net, tree.data(), should_touch);
        }
        let net = match Self::validate_ipv6(&tree) {
            Ok(net) => net,
            Err(e) => return Err(e),
        };
        let ghost net_of_tree = tree.target_net;
        let ghost data = tree.data();
        let ghost start = self.model();
        proof {
            lemma_first_container_iff(start.merged, net);
        }
        let present = match self.merge_into_existing_or_return(tree, should_touch) {
            Err(e) => return Err(e),
            Ok(Some(my_tree)) => {
                let present64 = if net.len == PREFIX_LEN {
                    self.trees64.contains_net(&net)
                } else {
                    false
                };
                assert(self.trees64@.dom() == start.trees64.dom());
                if present64 {
                    if !self.trees64.index_net(&net).tree.can_merge(&my_tree) {
                        return Err(ForestError::CountOverflow { net });
                    }
                } else if net.len == PREFIX_LEN {
                    assert(!start.trees64.contains_key(spec_net_key(net)));
                    assert(tree64_base(start, net).data == empty_data());
                }
                let r = self.insert_no_merge(net, my_tree, should_touch);
                match r {
                    Ok(()) => {},
                    Err(e) => return Err(e),
                }
                present64
            },
            Ok(None) => {
                if !should_touch {
                    self.insert_obsolete(net);
                }
                true
            },
        };
        Ok(present)
    }

    /// The network of a tree; IPv4 trees are refused.
    fn validate_ipv6(tree: &MeasurementTree) -> (res: Result<Ipv6Prefix, ForestError>)
        ensures
            match tree.target_net {
                IpNetwork::V4 { .. } => res == Err::<Ipv6Prefix, ForestError>(ForestError::Ipv4Tree),
                IpNetwork::V6(net) => res == Ok::<Ipv6Prefix, ForestError>(net),
            },
    {
        match &tree.target_net {
            IpNetwork::V4 { .. } => Err(ForestError::Ipv4Tree),
            IpNetwork::V6(net) => Ok(*net),
        }
    }

    /// Records a network as obsolete, once.
    fn insert_obsolete(&mut self, net: Ipv6Prefix)
        requires
            old(self).obsolete_nets@.no_duplicates(),
        ensures
            final(self).obsolete_nets@.no_duplicates(),
            final(self).obsolete_nets@.to_set() == old(self).obsolete_nets@.to_set().insert(net),
            final(self).trees64@ == old(self).trees64@,
            final(self).merged_trees@ == old(self).merged_trees@,
    {
        let mut i: usize = 0;
        while i < self.obsolete_nets.len()
            invariant
                i <= self.obsolete_nets@.len(),
                self.obsolete_nets@ == old(self).obsolete_nets@,
                self.trees64@ == old(self).trees64@,
                self.merged_trees@ == old(self).merged_trees@,
                old(self).obsolete_nets@.no_duplicates(),
                forall|j: int| 0 <= j < i ==> self.obsolete_nets@[j] != net,
            decreases self.obsolete_nets@.len() - i,
        {
            if self.obsolete_nets[i] == net {
                assert(self.obsolete_nets@.to_set().insert(net) =~= self.obsolete_nets@.to_set());
                return;
            }
            i = i + 1;
        }
        let ghost before = self.obsolete_nets@;
        self.obsolete_nets.push(net);
        proof {
            assert(!before.contains(net));
            before.lemma_push_to_set_commute(net);
        }
    }

    /// Merges the tree into the first merged tree that contains it, or hands
    /// it back where there is none; refuses a merge that would take a count
    /// out of `i32`.
    fn merge_into_existing_or_return(&mut self, tree: MeasurementTree, should_touch: bool) -> (res: Result<
        Option<MeasurementTree>,
        ForestError,
    >)
        requires
            old(self).wf(),
            tree.target_net matches IpNetwork::V6(net) && net.wf(),
        ensures
            final(self).trees64@ == old(self).trees64@,
            final(self).obsolete_nets@ == old(self).obsolete_nets@,
            ({
                let net = tree.target_net->V6_0;
                if exists|i: int| is_first_container(old(self).model().merged, net, i) {
                    let i = choose|i: int| is_first_container(old(self).model().merged, net, i);
                    if data_mergeable(old(self).model().merged[i].data, tree.data()) {
                        &&& res == Ok::<Option<MeasurementTree>, ForestError>(None)
                        &&& final(self).model().merged == old(self).model().merged.update(
                            i,
                            merged_into(old(self).model().merged[i], tree.data(), should_touch),
                        )
                    } else {
                        &&& res == Err::<Option<MeasurementTree>, ForestError>(ForestError::CountOverflow { net })
                        &&& final(self).model() == old(self).model()
                    }
                } else {
                    &&& res == Ok::<Option<MeasurementTree>, ForestError>(Some(tree))
                    &&& final(self).model() == old(self).model()
                }
            }),
    {
        let ghost net = tree.target_net->V6_0;
        let ghost merged = self.model().merged;
        let mut i: usize = 0;
        while i < self.merged_trees.len()
            invariant
                i <= self.merged_trees@.len(),
                merged == self.model().merged,
                self.model() == old(self).model(),
                self.trees64@ == old(self).trees64@,
                self.obsolete_nets@ == old(self).obsolete_nets@,
                self.merged_trees@ == old(self).merged_trees@,
                tree.target_net == IpNetwork::V6(net),
                net.wf(),
                forest_wf(self.model()),
                forall|j: int| 0 <= j < i ==> !contains_net(#[trigger] merged[j].net, net),
            decreases self.merged_trees@.len() - i,
        {
            assert(tree_net_ok(merged[i as int]));
            let candidate = self.merged_trees[i].expect_ipv6_net();
            if candidate.contains(&net_of(&tree)) {
                assert(is_first_container(merged, net, i as int));
                proof {
                    lemma_first_container_unique(merged, net, i as int);
                }
                if !self.merged_trees[i].tree.can_merge(&tree) {
                    return Err(ForestError::CountOverflow { net: net_of(&tree) });
                }
                let mut target = self.merged_trees.remove(i);
                target.consume_merge(tree, should_touch);
                self.merged_trees.insert(i, target);
                proof {
                    assert(self.model().merged =~= merged.update(
                        i as int,
                        merged_into(merged[i as int], tree.data(), should_touch),
                    ));
                }
                return Ok(None);
            }
            i = i + 1;
        }
        proof {
            if exists|j: int| is_first_container(merged, net, j) {
                let j = choose|j: int| is_first_container(merged, net, j);
                assert(!contains_net(merged[j].net, net));
            }
        }
        Ok(Some(tree))
    }

    /// Plants a tree that no merged tree contains.
    fn insert_no_merge(&mut self, net: Ipv6Prefix, tree: MeasurementTree, should_touch: bool) -> (res: Result<
        (),
        ForestError,
    >)
        requires
            old(self).wf(),
            tree.target_net == IpNetwork::V6(net),
            net.wf(),
            net.len == PREFIX_LEN ==> data_mergeable(tree64_base(old(self).model(), net).data, tree.data()),
        ensures
            final(self).wf(),
            final(self).obsolete_nets@ == old(self).obsolete_nets@,
            if net.len > PREFIX_LEN {
                &&& res == Err::<(), ForestError>(ForestError::TooSpecific { net })
                &&& final(self).model() == old(self).model()
            } else if net.len == PREFIX_LEN {
                let base = tree64_base(old(self).model(), net);
                &&& res is Ok
                &&& final(self).model().merged == old(self).model().merged
                &&& final(self).model().trees64 == old(self).model().trees64.insert(
                    spec_net_key(net),
                    TreeModel {
                        net: base.net,
                        data: merged_data(base.data, tree.data()),
                        touched: planted_state(should_touch),
                    },
                )
            } else {
                &&& res is Ok
                &&& final(self).model().merged == old(self).model().merged.push(
                    TreeModel { net: tree.target_net, data: tree.data(), touched: planted_state(should_touch) },
                )
                &&& final(self).model().trees64 == old(self).model().trees64
            },
    {
        let touched = if should_touch {
            ModificationType::Inserted
        } else {
            ModificationType::Untouched
        };
        if net.len > PREFIX_LEN {
            return Err(ForestError::TooSpecific { net });
        } else if net.len == PREFIX_LEN {
            let ghost before = self.trees64@;
            let ghost base = tree64_base(self.model(), net);
            let entry = self.trees64.entry_by_net_or(&net, ModifiableTree::empty(net));
            assert(entry.model() == base);
            entry.touched = touched;
            entry.consume_merge(tree, should_touch);
            proof {
                let m = self.model();
                assert(m.merged == old(self).model().merged);
                assert(m.trees64 =~= old(self).model().trees64.insert(
                    spec_net_key(net),
                    TreeModel {
                        net: base.net,
                        data: merged_data(base.data, tree.data()),
                        touched: planted_state(should_touch),
                    },
                ));
                assert forall|k: u64| #[trigger] m.trees64.contains_key(k) implies tree_net_ok(m.trees64[k]) by {
                    if k != spec_net_key(net) {
                        assert(old(self).model().trees64.contains_key(k));
                    }
                }
            }
        } else {
            let ghost before = self.model().merged;
            self.merged_trees.push(ModifiableTree { tree, touched });
            proof {
                assert(self.model().merged =~= before.push(
                    TreeModel { net: IpNetwork::V6(net), data: tree.data(), touched: planted_state(should_touch) },
                ));
                let m = self.model();
                assert forall|j: int| 0 <= j < m.merged.len() implies tree_net_ok(#[trigger] m.merged[j]) by {
                    if j < before.len() {
                        assert(tree_net_ok(before[j]));
                    }
                }
            }
        }
        Ok(())
    }

    /// All trees, those of less specific networks first, then the /64 trees
    /// in the order of their map.
    pub fn into_iter_touched(self) -> (res: Vec<ModifiableTree>)
        requires
            self.wf(),
        ensures
            res@.len() == self.model().merged.len() + self.model().trees64.len(),
            forall|i: int|
                0 <= i < self.model().merged.len() ==> (#[trigger] res@[i]).model() == self.model().merged[i],
            exists|keys: Seq<u64>|
                lists(keys, self.model().trees64.dom()) && keys.len() == self.model().trees64.len()
                    && forall|j: int|
                    0 <= j < keys.len() ==> (#[trigger] res@[self.model().merged.len() + j]).model()
                        == self.model().trees64[keys[j]],
    {
        let ghost start = self.model();
        let ghost m = self.merged_trees@.len() as int;
        let mut trees64 = self.trees64;
        let mut out = self.merged_trees;
        let drained = trees64.drain();
        let ghost d = drained@;
        let ghost keys = d.map_values(|e: (Ipv6Prefix, ModifiableTree)| spec_net_key(e.0));
        for entry in it: drained
            invariant
                it.seq() == d,
                0 <= m,
                out@.len() == m + it.index(),
                forall|j: int| 0 <= j < m ==> (#[trigger] out@[j]).model() == start.merged[j],
                forall|j: int| 0 <= j < it.index() ==> #[trigger] out@[m + j] == d[j].1,
        {
            let ghost idx = it.index() as int;
            let ghost before = out@;
            assert(entry == d[idx]);
            let (_, tree) = entry;
            out.push(tree);
            assert forall|j: int| 0 <= j < idx + 1 implies #[trigger] out@[m + j] == d[j].1 by {
                if j < idx {
                    assert(before[m + j] == d[j].1);
                }
            }
        }
        proof {
            assert forall|a: int, b: int| 0 <= a < keys.len() && 0 <= b < keys.len() && a != b implies keys[a]
                != keys[b] by {}
            assert(keys.to_set() =~= start.trees64.dom()) by {
                assert forall|k: u64| start.trees64.contains_key(k) implies keys.to_set().contains(k) by {
                    let j = choose|j: int| 0 <= j < d.len() && spec_net_key(d[j].0) == k;
                    assert(keys[j] == k);
                }
            }
            assert(keys.no_duplicates());
            assert(keys.len() == start.trees64.len()) by {
                keys.unique_seq_to_set();
            }
            assert forall|j: int| 0 <= j < keys.len() implies (#[trigger] out@[m + j]).model()
                == start.trees64[keys[j]] by {
                assert(d[j].1.model() == start.trees64[spec_net_key(d[j].0)]);
            }
        }
        out
    }

    /// The networks of all trees, those of less specific networks first,
    /// then those of the /64 trees in the order of their map.
    pub fn to_iter_all_nets(&self) -> (res: Vec<Ipv6Prefix>)
        requires
            self.wf(),
        ensures
            res@.len() == self.model().merged.len() + self.model().trees64.len(),
            forall|i: int|
                0 <= i < self.model().merged.len() ==> self.model().merged[i].net == IpNetwork::V6(
                    #[trigger] res@[i],
                ),
            exists|keys: Seq<u64>|
                lists(keys, self.model().trees64.dom()) && keys.len() == self.model().trees64.len()
                    && forall|j: int|
                    0 <= j < keys.len() ==> self.model().trees64[keys[j]].net == IpNetwork::V6(
                        #[trigger] res@[self.model().merged.len() + j],
                    ),
    {
        let ghost start = self.model();
        let mut out: Vec<Ipv6Prefix> = Vec::new();
        let mut i: usize = 0;
        while i < self.merged_trees.len()
            invariant
                i <= self.merged_trees@.len(),
                start == self.model(),
                forest_wf(start),
                out@.len() == i,
                forall|j: int| 0 <= j < i ==> start.merged[j].net == IpNetwork::V6(#[trigger] out@[j]),
            decreases self.merged_trees@.len() - i,
        {
            assert(tree_net_ok(start.merged[i as int]));
            out.push(self.merged_trees[i].expect_ipv6_net());
            i = i + 1;
        }
        let ghost m = i as int;
        let mut entries = self.trees64.iter();
        let ghost all = entries.remaining();
        let ghost mut n: int = 0;
        while entries.size_hint() > 0
            invariant
                start == self.model(),
                forest_wf(start),
                m == start.merged.len(),
                all.len() == self.trees64@.len(),
                0 <= n,
                n + entries.remaining().len() == all.len(),
                entries.remaining() == all.subrange(n, all.len() as int),
                forall|i: int|
                    #![trigger all[i]]
                    0 <= i < all.len() ==> self.trees64@.contains_key(all[i].0) && self.trees64@[all[i].0]
                        == all[i].1,
                out@.len() == m + n,
                forall|j: int| 0 <= j < m ==> start.merged[j].net == IpNetwork::V6(#[trigger] out@[j]),
                forall|j: int| 0 <= j < n ==> all[j].1.tree.target_net == IpNetwork::V6(#[trigger] out@[m + j]),
            decreases entries.remaining().len(),
        {
            let ghost here = n;
            match entries.next() {
                Some((_, tree)) => {
                    assert(*tree == all[here].1);
                    assert(start.trees64.contains_key(all[here].0));
                    assert(tree_net_ok(start.trees64[all[here].0]));
                    out.push(tree.expect_ipv6_net());
                    proof {
                        n = n + 1;
                        assert(entries.remaining() =~= all.subrange(n, all.len() as int));
                    }
                },
                None => {
                    assert(false);
                },
            }
        }
        proof {
            let keys = all.map_values(|e: (u64, ModifiableTree)| e.0);
            assert(keys.len() == start.trees64.len()) by {
                assert(start.trees64.dom() =~= self.trees64@.dom());
            }
            assert(keys.no_duplicates());
            assert(keys.to_set() =~= start.trees64.dom()) by {
                assert forall|k: u64| start.trees64.contains_key(k) implies keys.to_set().contains(k) by {
                    assert(self.trees64@.contains_key(k));
                    let j = choose|j: int| 0 <= j < all.len() && all[j].0 == k;
                    assert(keys[j] == k);
                }
            }
            assert forall|j: int| 0 <= j < keys.len() implies start.trees64[keys[j]].net == IpNetwork::V6(
                #[trigger] out@[m + j],
            ) by {
                assert(self.trees64@.contains_key(all[j].0));
            }
        }
        out
    }
}

/// The network of an IPv6 tree.
fn net_of(tree: &MeasurementTree) -> (res: Ipv6Prefix)
    requires
        tree.target_net is V6,
    ensures
        tree.target_net == IpNetwork::V6(res),
{
    match &tree.target_net {
        IpNetwork::V6(net) => *net,
        IpNetwork::V4 { .. } => {
            assert(false);
            Ipv6Prefix { addr: 0, len: 0 }
        },
    }
}

proof fn lemma_first_container_unique(merged: Seq<TreeModel>, net: Ipv6Prefix, i: int)
    requires
        is_first_container(merged, net, i),
    ensures
        (choose|j: int| is_first_container(merged, net, j)) == i,
{
    let j = choose|j: int| is_first_container(merged, net, j);
    if j < i {
        assert(!contains_net(merged[j].net, net));
    } else if j > i {
        assert(!contains_net(merged[i].net, net));
    }
}

/// Once a planting is refused, planting more trees stays refused with the
/// same error.
pub proof fn lemma_inserted_all_err(f: ForestModel, trees: Seq<(IpNetwork, TreeData)>, n: int, should_touch: bool)
    requires
        0 < n <= trees.len(),
        inserted_all(f, trees.take(n), should_touch) is Err,
    ensures
        inserted_all(f, trees, should_touch) == inserted_all(f, trees.take(n), should_touch),
    decreases trees.len() - n,
{
    if n < trees.len() {
        assert(trees.drop_last().take(n) =~= trees.take(n));
        lemma_inserted_all_err(f, trees.drop_last(), n, should_touch);
    } else {
        assert(trees.take(n) =~= trees);
    }
}

} // verus!
