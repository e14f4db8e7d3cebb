//! Collapsing the measurements of a prefix that is kept with full confidence:
//! its /64 trees are merged into a few trees, one per subnetwork four bits
//! longer (but not longer than /64).

use vstd::prelude::*;

use crate::forest::{
    empty_forest_model, forest_wf, inserted_all, lemma_inserted_all_err,
    planted_items, ForestError, ForestModel, MeasurementForest, ModifiableTree,
};
use crate::map64::PREFIX_LEN;
use crate::measurement::{empty_data, IpNetwork, MeasurementTree, TreeData};
use crate::prefix::{is_subnet_listing, Ipv6Prefix};

verus! {

/// Why measurements could not be collapsed.
#[derive(Debug, Clone, Copy, PartialEq, Eq)]
pub enum CollapseError {
    /// The prefix is longer than the trees it would be collapsed into.
    TooLong,
    /// A tree could not be planted.
    Forest(ForestError),
}

/// The prefix length of the trees that a prefix's measurements collapse
/// into: four bits longer, but at most /64.
pub open spec fn collapsed_len(len: u8) -> u8 {
    if len + 4 > PREFIX_LEN {
        PREFIX_LEN
    } else {
        (len + 4) as u8
    }
}

/// Empty trees for some networks.
pub open spec fn empty_items(nets: Seq<Ipv6Prefix>) -> Seq<(IpNetwork, TreeData)> {
    nets.map_values(|n: Ipv6Prefix| (IpNetwork::V6(n), empty_data()))
}

/// The measurements of a prefix collapsed into a forest: an empty tree for
/// each subnetwork four bits longer (at most /64) is planted first, then each
/// measurement, so that the measurements merge into those trees.
pub fn collapse_forest(base_net: Ipv6Prefix, relevant_measurements: Vec<MeasurementTree>) -> (res: Result<
    MeasurementForest,
    CollapseError,
>)
    requires
        base_net.wf(),
        forall|i: int| 0 <= i < relevant_measurements@.len() ==> (#[trigger] relevant_measurements@[i]).wf(),
    ensures
        base_net.len > PREFIX_LEN ==> res == Err::<MeasurementForest, CollapseError>(CollapseError::TooLong),
        base_net.len <= PREFIX_LEN ==> exists|subnets: Seq<Ipv6Prefix>|
            is_subnet_listing(base_net, collapsed_len(base_net.len), subnets) && match inserted_all(
                empty_forest_model(),
                empty_items(subnets) + planted_items(relevant_measurements@),
                true,
            ) {
                Ok(f) => res matches Ok(forest) && forest.wf() && forest.model() == f,
                Err(e) => res == Err::<MeasurementForest, CollapseError>(CollapseError::Forest(e)),
            },
{
    let new_prefix_len: u8 = if base_net.len + 4 > PREFIX_LEN {
        PREFIX_LEN
    } else {
        base_net.len + 4
    };
    let subnets = match base_net.subnets(new_prefix_len) {
        Some(subnets) => subnets,
        None => return Err(CollapseError::TooLong),
    };
    let ghost nets = subnets@;
    assert(new_prefix_len == collapsed_len(base_net.len));
    let ghost items = empty_items(nets) + planted_items(relevant_measurements@);
    let ghost start = empty_forest_model();
    let mut forest = MeasurementForest::default();
    let mut i: usize = 0;
    // Pre-fill the less specific trees so that no /64 trees are planted below.
    while i < subnets.len()
        invariant
            nets == subnets@,
            base_net.len <= PREFIX_LEN,
            is_subnet_listing(base_net, collapsed_len(base_net.len), nets),
            i <= nets.len(),
            items == empty_items(nets) + planted_items(relevant_measurements@),
            start == empty_forest_model(),
            forall|j: int| 0 <= j < nets.len() ==> (#[trigger] nets[j]).wf(),
            forest.wf(),
            inserted_all(start, items.take(i as int), true) == Ok::<ForestModel, ForestError>(forest.model()),
        decreases nets.len() - i,
    {
        let tree = MeasurementTree::empty(subnets[i]);
        proof {
            assert(items[i as int] == (IpNetwork::V6(nets[i as int]), empty_data()));
            assert(tree.data() == empty_data());
            assert(items.take(i + 1).drop_last() =~= items.take(i as int));
        }
        let r = forest.insert(tree);
        match r {
            Ok(_) => {},
            Err(e) => {
                proof {
                    lemma_inserted_all_err(start, items, i + 1, true);
                }
                return Err(CollapseError::Forest(e));
            },
        }
        i = i + 1;
    }
    let ghost n = nets.len() as int;
    let ghost trees = relevant_measurements@;
    for tree in it: relevant_measurements
        invariant
            it.seq() == trees,
            trees == relevant_measurements@,
            base_net.len <= PREFIX_LEN,
            is_subnet_listing(base_net, collapsed_len(base_net.len), nets),
            items == empty_items(nets) + planted_items(trees),
            n == nets.len(),
            start == empty_forest_model(),
            forall|j: int| 0 <= j < trees.len() ==> (#[trigger] trees[j]).wf(),
            forest.wf(),
            inserted_all(start, items.take(n + it.index()), true) == Ok::<ForestModel, ForestError>(forest.model()),
    {
        let ghost k = n + it.index();
        proof {
            assert(tree == trees[it.index() as int]);
            assert(items[k] == (tree.target_net, tree.data()));
            assert(items.take(k + 1).drop_last() =~= items.take(k));
        }
        let r = forest.insert(tree);
        match r {
            Ok(_) => {},
            Err(e) => {
                proof {
                    lemma_inserted_all_err(start, items, k + 1, true);
                }
                return Err(CollapseError::Forest(e));
            },
        }
    }
    proof {
        assert(items.take(items.len() as int) =~= items);
    }
    Ok(forest)
}

/// Whether a tree holds any measurement.
pub open spec fn holds_measurements(t: MeasurementTree) -> bool {
    !(t.responsive_count == 0 && t.unresponsive_count == 0 && t.last_hop_routers@.is_empty()
        && t.weirdness@.is_empty())
}

/// The trees that hold any measurement, in order.
pub open spec fn kept_trees(trees: Seq<ModifiableTree>) -> Seq<MeasurementTree>
    decreases trees.len(),
{
    if trees.len() == 0 {
        Seq::empty()
    } else {
        let before = kept_trees(trees.drop_last());
        if holds_measurements(trees.last().tree) {
            before.push(trees.last().tree)
        } else {
            before
        }
    }
}

/// The trees of a forest worth saving: those that hold any measurement.
pub fn trees_to_save(trees: Vec<ModifiableTree>) -> (res: Vec<MeasurementTree>)
    ensures
        res@ == kept_trees(trees@),
{
    let ghost all = trees@;
    let mut out: Vec<MeasurementTree> = Vec::new();
    for it in iter: trees
        invariant
            iter.seq() == all,
            out@ == kept_trees(all.take(iter.index() as int)),
    {
        proof {
            let k = iter.index() as int;
            assert(all.take(k + 1).drop_last() =~= all.take(k));
            assert(it == all[k]);
        }
        if !it.tree.is_empty() {
            out.push(it.tree);
        }
    }
    proof {
        assert(all.take(all.len() as int) =~= all);
    }
    out
}

} // verus!
