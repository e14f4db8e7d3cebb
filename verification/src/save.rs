//! Turning an interpretation into measurement trees, and sorting the trees
//! of a forest into those to insert and those to update.

use std::collections::HashMap;

use vstd::prelude::*;
use vstd::std_specs::hash::spec_hash_map_iter;
use vstd::std_specs::iter::IteratorSpec;

use crate::forest::{ForestError, ForestModel, MeasurementForest, ModifiableTree, ModificationType, TreeModel};
use crate::interpretation::{Interpretation, LastHopRouter, Prefix, PrefixModel, WeirdNode};
use crate::map64::{spec_net_from_key, spec_net_key};
use crate::measurement::{
    empty_data, merged_data, IpNetwork, LhrAddr, LhrItem, MeasurementTree, TreeData, WeirdItem,
};
use crate::prefix::Ipv6Prefix;

verus! {

broadcast use vstd::std_specs::hash::group_hash_axioms;

/// The tree items of the routers of an interpretation.
pub open spec fn lhr_items(m: Map<LhrAddr, LastHopRouter>) -> Map<LhrAddr, LhrItem> {
    m.map_values(|r: LastHopRouter| LhrItem { sources: r.sources, hit_count: r.hit_count })
}

/// The tree items of the weird kinds of an interpretation.
pub open spec fn weird_items(m: Map<u8, WeirdNode>) -> Map<u8, WeirdItem> {
    m.map_values(|w: WeirdNode| WeirdItem { hit_count: w.hit_count })
}

/// The tree contents of what an interpretation holds for a network.
pub open spec fn prefix_data(p: PrefixModel) -> TreeData {
    TreeData {
        responsive: p.responsive,
        unresponsive: p.unresponsive,
        lhrs: lhr_items(p.lhrs),
        weirds: weird_items(p.weirds),
    }
}

/// The measurement tree of a network with what an interpretation holds for it.
pub fn make_tree(net: Ipv6Prefix, entry: Prefix) -> (res: MeasurementTree)
    ensures
        res.target_net == IpNetwork::V6(net),
        res.data() == prefix_data(entry.model()),
{
    let mut tree = MeasurementTree::empty(net);
    let ghost routers = entry.last_hop_routers@;
    let entries = entry.last_hop_routers.iter();
    let ghost kvs = spec_hash_map_iter(&entry.last_hop_routers).remaining();
    assert(kvs.no_duplicates());
    for (addr, router) in it: entries
        invariant
            it.seq() == kvs,
            kvs == spec_hash_map_iter(&entry.last_hop_routers).remaining(),
            routers == entry.last_hop_routers@,
            kvs.no_duplicates(),
            tree.target_net == IpNetwork::V6(net),
            tree.responsive_count == 0,
            tree.unresponsive_count == 0,
            tree.weirdness@ == Map::<u8, WeirdItem>::empty(),
            tree.last_hop_routers@ == lhr_items(
                routers.restrict(kvs.take(it.index() as int).map_values(|e: (&LhrAddr, &LastHopRouter)| *e.0).to_set()),
            ),
    {
        proof {
            assert(kvs[it.index()] == (addr, router));
            assert(routers.contains_key(*kvs[it.index()].0));
        }
        tree.add_lhr_no_sum(*addr, router.sources, router.hit_count);
        proof {
            let next = kvs.take(it.index() + 1).map_values(|e: (&LhrAddr, &LastHopRouter)| *e.0);
            assert(next =~= kvs.take(it.index() as int).map_values(|e: (&LhrAddr, &LastHopRouter)| *e.0).push(*addr));
            kvs.take(it.index() as int).map_values(|e: (&LhrAddr, &LastHopRouter)| *e.0).lemma_push_to_set_commute(*addr);
            assert(tree.last_hop_routers@ =~= lhr_items(routers.restrict(next.to_set())));
        }
    }
    proof {
        let all = kvs.map_values(|e: (&LhrAddr, &LastHopRouter)| *e.0);
        assert(kvs.take(kvs.len() as int) =~= kvs);
        assert(all.to_set() =~= routers.dom()) by {
            assert forall|k: LhrAddr| routers.contains_key(k) implies all.to_set().contains(k) by {
                assert(kvs.contains((&k, &routers[k])));
                let m = choose|m: int| 0 <= m < kvs.len() && kvs[m] == (&k, &routers[k]);
                assert(all[m] == k);
            }
        }
        assert(routers.restrict(all.to_set()) =~= routers);
    }
    let ghost weirds = entry.weird@;
    let wentries = entry.weird.iter();
    let ghost wkvs = spec_hash_map_iter(&entry.weird).remaining();
    assert(wkvs.no_duplicates());
    for (kind, node) in it: wentries
        invariant
            it.seq() == wkvs,
            wkvs == spec_hash_map_iter(&entry.weird).remaining(),
            weirds == entry.weird@,
            wkvs.no_duplicates(),
            tree.target_net == IpNetwork::V6(net),
            tree.responsive_count == 0,
            tree.unresponsive_count == 0,
            tree.last_hop_routers@ == lhr_items(routers),
            tree.weirdness@ == weird_items(
                weirds.restrict(wkvs.take(it.index() as int).map_values(|e: (&u8, &WeirdNode)| *e.0).to_set()),
            ),
    {
        proof {
            assert(wkvs[it.index()] == (kind, node));
            assert(weirds.contains_key(*wkvs[it.index()].0));
        }
        tree.weirdness.insert(*kind, WeirdItem { hit_count: node.hit_count });
        proof {
            let next = wkvs.take(it.index() + 1).map_values(|e: (&u8, &WeirdNode)| *e.0);
            assert(next =~= wkvs.take(it.index() as int).map_values(|e: (&u8, &WeirdNode)| *e.0).push(*kind));
            wkvs.take(it.index() as int).map_values(|e: (&u8, &WeirdNode)| *e.0).lemma_push_to_set_commute(*kind);
            assert(tree.weirdness@ =~= weird_items(weirds.restrict(next.to_set())));
        }
    }
    proof {
        let all = wkvs.map_values(|e: (&u8, &WeirdNode)| *e.0);
        assert(wkvs.take(wkvs.len() as int) =~= wkvs);
        assert(all.to_set() =~= weirds.dom()) by {
            assert forall|k: u8| weirds.contains_key(k) implies all.to_set().contains(k) by {
                assert(wkvs.contains((&k, &weirds[k])));
                let m = choose|m: int| 0 <= m < wkvs.len() && wkvs[m] == (&k, &weirds[k]);
                assert(all[m] == k);
            }
        }
        assert(weirds.restrict(all.to_set()) =~= weirds);
    }
    tree.responsive_count = entry.responsive_count;
    tree.unresponsive_count = entry.unresponsive_count;
    tree
}

/// Merging contents into an empty tree gives the contents.
pub proof fn lemma_merged_into_empty(d: TreeData)
    ensures
        merged_data(empty_data(), d) == d,
{
    assert(merged_data(empty_data(), d).lhrs =~= d.lhrs);
    assert(merged_data(empty_data(), d).weirds =~= d.weirds);
}

/// The forest of what an interpretation holds: one fresh /64 tree per
/// network.
pub open spec fn interpretation_forest(m: Map<u64, PrefixModel>) -> ForestModel {
    ForestModel {
        merged: Seq::empty(),
        trees64: Map::new(
            |k: u64| m.contains_key(k),
            |k: u64|
                TreeModel {
                    net: IpNetwork::V6(spec_net_from_key(k)),
                    data: prefix_data(m[k]),
                    touched: ModificationType::Inserted,
                },
        ),
        obsolete: Set::empty(),
    }
}

impl Interpretation {
    /// Empties the interpretation into a forest of fresh /64 trees.
    pub fn drain_to_measurement_forest(&mut self) -> (res: Result<MeasurementForest, ForestError>)
        ensures
            final(self).model() == Map::<u64, PrefixModel>::empty(),
            res matches Ok(forest) && forest.wf() && forest.model() == interpretation_forest(old(self).model()),
    {
        let ghost start = self.model();
        let entries = self.drain();
        let ghost d = entries@;
        let mut forest = MeasurementForest::default();
        let ghost mut done: Set<u64> = Set::empty();
        proof {
            assert(restricted_forest(start, done).trees64 =~= Map::<u64, TreeModel>::empty());
            assert(d.take(0).map_values(|e: (Ipv6Prefix, Prefix)| spec_net_key(e.0)).to_set() =~= done);
        }
        for entry in it: entries
            invariant
                it.seq() == d,
                d.len() == start.len(),
                forall|i: int|
                    #![trigger d[i]]
                    0 <= i < d.len() ==> d[i].0 == spec_net_from_key(spec_net_key(d[i].0)) && start.contains_key(
                        spec_net_key(d[i].0),
                    ) && d[i].1.model() == start[spec_net_key(d[i].0)],
                forall|i: int, j: int|
                    0 <= i < d.len() && 0 <= j < d.len() && i != j ==> spec_net_key(d[i].0) != spec_net_key(d[j].0),
                done == d.take(it.index() as int).map_values(|e: (Ipv6Prefix, Prefix)| spec_net_key(e.0)).to_set(),
                forest.wf(),
                forest.model() == restricted_forest(start, done),
        {
            let ghost idx = it.index() as int;
            let (net, prefix) = entry;
            proof {
                assert(entry == d[idx]);
                lemma_net_from_key_len(spec_net_key(net));
            }
            let ghost k = spec_net_key(net);
            let tree = make_tree(net, prefix);
            proof {
                assert(!done.contains(k)) by {
                    if done.contains(k) {
                        let keys = d.take(idx).map_values(|e: (Ipv6Prefix, Prefix)| spec_net_key(e.0));
                        let m = choose|m: int| 0 <= m < keys.len() && keys[m] == k;
                        assert(spec_net_key(d[m].0) == spec_net_key(d[idx].0));
                    }
                }
                assert(!forest.model().trees64.contains_key(k));
                assert(forest.model().merged.len() == 0);
                lemma_merged_into_empty(tree.data());
            }
            let r = forest.insert(tree);
            proof {
                let keys = d.take(idx).map_values(|e: (Ipv6Prefix, Prefix)| spec_net_key(e.0));
                let next = d.take(idx + 1).map_values(|e: (Ipv6Prefix, Prefix)| spec_net_key(e.0));
                assert(next =~= keys.push(k));
                keys.lemma_push_to_set_commute(k);
                done = done.insert(k);
                assert(forest.model() == restricted_forest(start, done)) by {
                    assert(forest.model().trees64 =~= restricted_forest(start, done).trees64);
                }
            }
        }
        proof {
            let keys = d.map_values(|e: (Ipv6Prefix, Prefix)| spec_net_key(e.0));
            assert(d.take(d.len() as int) =~= d);
            assert(done =~= start.dom()) by {
                assert forall|k: u64| start.contains_key(k) implies done.contains(k) by {
                    let i = choose|i: int| 0 <= i < d.len() && spec_net_key(d[i].0) == k;
                    assert(keys[i] == k);
                }
            }
            assert(forest.model().trees64 =~= interpretation_forest(start).trees64);
        }
        Ok(forest)
    }
}

/// The forest of what an interpretation holds, for the networks in `done`.
pub open spec fn restricted_forest(m: Map<u64, PrefixModel>, done: Set<u64>) -> ForestModel {
    interpretation_forest(m.restrict(done))
}

proof fn lemma_net_from_key_len(k: u64)
    ensures
        spec_net_from_key(k).len == 64,
        spec_net_from_key(k).wf(),
{
}

/// Trees to write back: the inserted ones and the updated ones, each in
/// order; untouched trees are left out.
pub open spec fn changes(trees: Seq<ModifiableTree>) -> (Seq<MeasurementTree>, Seq<MeasurementTree>)
    decreases trees.len(),
{
    if trees.len() == 0 {
        (Seq::empty(), Seq::empty())
    } else {
        let (ins, upd) = changes(trees.drop_last());
        let t = trees.last();
        match t.touched {
            ModificationType::Untouched => (ins, upd),
            ModificationType::Inserted => (ins.push(t.tree), upd),
            ModificationType::Updated => (ins, upd.push(t.tree)),
        }
    }
}

/// Sorts trees into those to insert and those to update.
pub fn split_changes(trees: Vec<ModifiableTree>) -> (res: (Vec<MeasurementTree>, Vec<MeasurementTree>))
    ensures
        (res.0@, res.1@) == changes(trees@),
{
    let ghost all = trees@;
    let mut inserts: Vec<MeasurementTree> = Vec::new();
    let mut updates: Vec<MeasurementTree> = Vec::new();
    for updated_tree in it: trees
        invariant
            it.seq() == all,
            (inserts@, updates@) == changes(all.take(it.index() as int)),
    {
        proof {
            let k = it.index() as int;
            assert(all.take(k + 1).drop_last() =~= all.take(k));
            assert(updated_tree == all[k]);
        }
        let ModifiableTree { tree, touched } = updated_tree;
        match touched {
            ModificationType::Untouched => {},
            ModificationType::Inserted => inserts.push(tree),
            ModificationType::Updated => updates.push(tree),
        }
    }
    proof {
        assert(all.take(all.len() as int) =~= all);
    }
    (inserts, updates)
}

} // verus!
