//! What a probe response says about the /64 networks it covers: per network,
//! the last-hop routers and weird responses seen, and how many probes were
//! answered or stayed dark.

use std::collections::HashMap;

use vstd::prelude::*;

use crate::map64::{spec_addr_to_key, spec_net_from_key, spec_net_key, Net64Map};
use crate::measurement::{HitCount, LhrAddr, LhrSource, LhrSources, WeirdType};
use crate::prefix::Ipv6Prefix;

verus! {

broadcast use vstd::std_specs::hash::group_hash_axioms;

/// A last-hop router as seen in the responses for one /64 network.
#[derive(Debug, Clone, Copy, PartialEq, Eq)]
pub struct LastHopRouter {
    pub sources: LhrSources,
    pub hit_count: HitCount,
}

impl LastHopRouter {
    /// Not seen yet.
    pub open spec fn empty_spec() -> Self {
        LastHopRouter { sources: LhrSources::empty_spec(), hit_count: 0 }
    }

    /// Seen once more, through `source`.
    pub open spec fn registered(self, source: LhrSource) -> Self {
        LastHopRouter { sources: self.sources.with_spec(source), hit_count: (self.hit_count + 1) as i32 }
    }

    /// Records one more sighting of the router, through `source`.
    pub fn register(&mut self, source: LhrSource)
        requires
            old(self).hit_count < i32::MAX,
        ensures
            *final(self) == old(self).registered(source),
    {
        self.sources.insert(source);
        self.hit_count = self.hit_count + 1;
    }
}

impl Default for LastHopRouter {
    fn default() -> (res: Self)
        ensures
            res == LastHopRouter::empty_spec(),
    {
        LastHopRouter { sources: LhrSources::empty(), hit_count: 0 }
    }
}

/// A kind of weird response as seen for one /64 network.
#[derive(Debug, Clone, Copy, PartialEq, Eq)]
pub struct WeirdNode {
    pub hit_count: HitCount,
}

impl WeirdNode {
    /// Records one more response of this kind.
    pub fn register(&mut self)
        requires
            old(self).hit_count < i32::MAX,
        ensures
            final(self).hit_count == old(self).hit_count + 1,
    {
        self.hit_count = self.hit_count + 1;
    }
}

impl Default for WeirdNode {
    fn default() -> (res: Self)
        ensures
            res.hit_count == 0,
    {
        WeirdNode { hit_count: 0 }
    }
}

/// What the responses say about one /64 network.
#[derive(Debug)]
pub struct Prefix {
    pub last_hop_routers: HashMap<LhrAddr, LastHopRouter>,
    /// Weird responses by the number of their kind.
    pub weird: HashMap<u8, WeirdNode>,
    /// Probes that resulted in any sort of response.
    pub responsive_count: HitCount,
    /// Probes that stayed dark.
    pub unresponsive_count: HitCount,
}

/// The contents of a [`Prefix`].
pub struct PrefixModel {
    pub lhrs: Map<LhrAddr, LastHopRouter>,
    pub weirds: Map<u8, WeirdNode>,
    pub responsive: int,
    pub unresponsive: int,
}

/// A network that nothing has been registered for.
pub open spec fn empty_prefix() -> PrefixModel {
    PrefixModel { lhrs: Map::empty(), weirds: Map::empty(), responsive: 0, unresponsive: 0 }
}

/// One response for a target.
pub enum Registration {
    /// A last-hop router was seen, through `source`.
    Lhr { lhr: LhrAddr, source: LhrSource },
    /// A weird response of the kind numbered `kind`.
    Weird { kind: u8 },
    /// An answer that says nothing more.
    Responsive,
    /// No answer.
    Unresponsive,
}

/// A network's contents after one more response: a router or weird kind
/// gains a hit and the network a responsive probe, or the network gains a
/// responsive or unresponsive probe.
pub open spec fn registered(p: PrefixModel, r: Registration) -> PrefixModel {
    match r {
        Registration::Lhr { lhr, source } => {
            let prev = if p.lhrs.contains_key(lhr) {
                p.lhrs[lhr]
            } else {
                LastHopRouter::empty_spec()
            };
            PrefixModel {
                lhrs: p.lhrs.insert(lhr, prev.registered(source)),
                weirds: p.weirds,
                responsive: p.responsive + 1,
                unresponsive: p.unresponsive,
            }
        },
        Registration::Weird { kind } => {
            let prev = if p.weirds.contains_key(kind) {
                p.weirds[kind].hit_count
            } else {
                0
            };
            PrefixModel {
                lhrs: p.lhrs,
                weirds: p.weirds.insert(kind, WeirdNode { hit_count: (prev + 1) as i32 }),
                responsive: p.responsive + 1,
                unresponsive: p.unresponsive,
            }
        },
        Registration::Responsive => PrefixModel {
            lhrs: p.lhrs,
            weirds: p.weirds,
            responsive: p.responsive + 1,
            unresponsive: p.unresponsive,
        },
        Registration::Unresponsive => PrefixModel {
            lhrs: p.lhrs,
            weirds: p.weirds,
            responsive: p.responsive,
            unresponsive: p.unresponsive + 1,
        },
    }
}

/// The contents for a /64 key, empty where there are none.
pub open spec fn prefix_at(m: Map<u64, PrefixModel>, k: u64) -> PrefixModel {
    if m.contains_key(k) {
        m[k]
    } else {
        empty_prefix()
    }
}

/// The contents after the same response for each target in turn, each
/// registered at the /64 network that holds it.
pub open spec fn registered_all(m: Map<u64, PrefixModel>, targets: Seq<u128>, r: Registration) -> Map<
    u64,
    PrefixModel,
>
    decreases targets.len(),
{
    if targets.len() == 0 {
        m
    } else {
        let before = registered_all(m, targets.drop_last(), r);
        let k = spec_addr_to_key(targets.last());
        before.insert(k, registered(prefix_at(before, k), r))
    }
}

/// No counter of a network's contents exceeds `b`.
pub open spec fn prefix_counts_at_most(p: PrefixModel, b: int) -> bool {
    &&& p.responsive <= b
    &&& p.unresponsive <= b
    &&& forall|a: LhrAddr| #[trigger] p.lhrs.contains_key(a) ==> p.lhrs[a].hit_count <= b
    &&& forall|k: u8| #[trigger] p.weirds.contains_key(k) ==> p.weirds[k].hit_count <= b
}

/// No counter of any network exceeds `b`.
pub open spec fn counts_at_most(m: Map<u64, PrefixModel>, b: int) -> bool {
    forall|k: u64| #[trigger] m.contains_key(k) ==> prefix_counts_at_most(m[k], b)
}

/// Registering one response for each of some targets raises no counter by
/// more than the number of targets.
pub proof fn lemma_registered_all_bound(m: Map<u64, PrefixModel>, targets: Seq<u128>, r: Registration, b: int)
    requires
        0 <= b,
        counts_at_most(m, b),
    ensures
        counts_at_most(registered_all(m, targets, r), b + targets.len()),
    decreases targets.len(),
{
    if targets.len() > 0 {
        let n = targets.len() - 1;
        lemma_registered_all_bound(m, targets.drop_last(), r, b);
        let before = registered_all(m, targets.drop_last(), r);
        let k = spec_addr_to_key(targets.last());
        let p = prefix_at(before, k);
        assert(prefix_counts_at_most(p, b + n));
        let q = registered(p, r);
        assert(prefix_counts_at_most(q, b + n + 1));
        let after = before.insert(k, q);
        assert forall|j: u64| #[trigger] after.contains_key(j) implies prefix_counts_at_most(after[j], b + n + 1) by {
            if j != k {
                assert(prefix_counts_at_most(before[j], b + n));
            }
        }
    }
}

impl Prefix {
    pub open spec fn model(self) -> PrefixModel {
        PrefixModel {
            lhrs: self.last_hop_routers@,
            weirds: self.weird@,
            responsive: self.responsive_count as int,
            unresponsive: self.unresponsive_count as int,
        }
    }

    /// Records a sighting of a last-hop router, through `source`, and the
    /// responsive probe that showed it.
    pub fn register_lhr(&mut self, lhr: LhrAddr, source: LhrSource)
        requires
            prefix_counts_at_most(old(self).model(), i32::MAX - 1),
        ensures
            final(self).model() == registered(old(self).model(), Registration::Lhr { lhr, source }),
    {
        let router = self.last_hop_routers.entry(lhr).or_insert(LastHopRouter::default());
        router.register(source);
        self.responsive_count = self.responsive_count + 1;
    }

    /// Records a weird response and the responsive probe that gave it.
    pub fn register_weird(&mut self, description: WeirdType)
        requires
            prefix_counts_at_most(old(self).model(), i32::MAX - 1),
        ensures
            final(self).model() == registered(old(self).model(), Registration::Weird { kind: description.id_spec() }),
    {
        let node = self.weird.entry(description.id()).or_insert(WeirdNode::default());
        node.register();
        self.responsive_count = self.responsive_count + 1;
    }

    /// Applies one registration.
    fn apply(&mut self, r: &RegistrationOf)
        requires
            prefix_counts_at_most(old(self).model(), i32::MAX - 1),
        ensures
            final(self).model() == registered(old(self).model(), r.spec()),
    {
        match r {
            RegistrationOf::Lhr(lhr, source) => self.register_lhr(*lhr, *source),
            RegistrationOf::Weird(description) => self.register_weird(*description),
            RegistrationOf::Responsive => self.responsive_count = self.responsive_count + 1,
            RegistrationOf::Unresponsive => self.unresponsive_count = self.unresponsive_count + 1,
        }
    }
}

impl Default for Prefix {
    fn default() -> (res: Self)
        ensures
            res.model() == empty_prefix(),
    {
        let res = Prefix {
            last_hop_routers: HashMap::new(),
            weird: HashMap::new(),
            responsive_count: 0,
            unresponsive_count: 0,
        };
        assert(res.model().lhrs =~= Map::empty());
        assert(res.model().weirds =~= Map::empty());
        res
    }
}

/// A [`Registration`] that code can carry out.
enum RegistrationOf {
    Lhr(LhrAddr, LhrSource),
    Weird(WeirdType),
    Responsive,
    Unresponsive,
}

impl RegistrationOf {
    spec fn spec(&self) -> Registration {
        match self {
            RegistrationOf::Lhr(lhr, source) => Registration::Lhr { lhr: *lhr, source: *source },
            RegistrationOf::Weird(description) => Registration::Weird { kind: description.id_spec() },
            RegistrationOf::Responsive => Registration::Responsive,
            RegistrationOf::Unresponsive => Registration::Unresponsive,
        }
    }
}

/// Interpretation of a probe response, per /64 network.
#[derive(Debug)]
pub struct Interpretation {
    store: Net64Map<Prefix>,
}

impl Default for Interpretation {
    fn default() -> (res: Self)
        ensures
            res.model() == Map::<u64, PrefixModel>::empty(),
    {
        let res = Interpretation { store: Net64Map::default() };
        assert(res.model() =~= Map::<u64, PrefixModel>::empty());
        res
    }
}

impl Interpretation {
    /// The contents of every /64 network that something was registered for.
    pub closed spec fn model(self) -> Map<u64, PrefixModel> {
        self.store@.map_values(|p: Prefix| p.model())
    }

    /// Registers the same response for each target.
    fn register_each(&mut self, targets: &[u128], r: RegistrationOf)
        requires
            targets@.len() <= i32::MAX,
            counts_at_most(old(self).model(), i32::MAX - targets@.len()),
        ensures
            final(self).model() == registered_all(old(self).model(), targets@, r.spec()),
    {
        let ghost start = self.model();
        let ghost len = targets@.len() as int;
        let mut i: usize = 0;
        while i < targets.len()
            invariant
                i <= targets@.len(),
                len == targets@.len() <= i32::MAX,
                counts_at_most(start, i32::MAX - len),
                self.model() == registered_all(start, targets@.take(i as int), r.spec()),
            decreases targets@.len() - i,
        {
            let ghost before = self.model();
            let ghost store_before = self.store@;
            let target = targets[i];
            let ghost k = spec_addr_to_key(target);
            proof {
                assert(targets@.take(i + 1).drop_last() =~= targets@.take(i as int));
                lemma_registered_all_bound(start, targets@.take(i as int), r.spec(), i32::MAX - len);
                assert(prefix_counts_at_most(prefix_at(before, k), i32::MAX - 1));
            }
            let prefix = self.store.entry_by_addr_or(target, Prefix::default());
            assert(prefix.model() == prefix_at(before, k));
            prefix.apply(&r);
            proof {
                assert(self.model() =~= before.insert(k, registered(prefix_at(before, k), r.spec())));
            }
            i = i + 1;
        }
        proof {
            assert(targets@.take(i as int) =~= targets@);
        }
    }

    /// Records a sighting of a last-hop router, through `source`, for each
    /// target.
    pub fn register_lhrs(&mut self, targets: &[u128], lhr: LhrAddr, source: LhrSource)
        requires
            targets@.len() <= i32::MAX,
            counts_at_most(old(self).model(), i32::MAX - targets@.len()),
        ensures
            final(self).model() == registered_all(
                old(self).model(),
                targets@,
                Registration::Lhr { lhr, source },
            ),
    {
        self.register_each(targets, RegistrationOf::Lhr(lhr, source));
    }

    /// Records a weird response for each target.
    pub fn register_weirds(&mut self, targets: &[u128], description: WeirdType)
        requires
            targets@.len() <= i32::MAX,
            counts_at_most(old(self).model(), i32::MAX - targets@.len()),
        ensures
            final(self).model() == registered_all(
                old(self).model(),
                targets@,
                Registration::Weird { kind: description.id_spec() },
            ),
    {
        self.register_each(targets, RegistrationOf::Weird(description));
    }

    /// Records an answer that says nothing more for each target.
    pub fn count_other_responsive(&mut self, targets: &[u128])
        requires
            targets@.len() <= i32::MAX,
            counts_at_most(old(self).model(), i32::MAX - targets@.len()),
        ensures
            final(self).model() == registered_all(old(self).model(), targets@, Registration::Responsive),
    {
        self.register_each(targets, RegistrationOf::Responsive);
    }

    /// Records a probe that stayed dark for each target.
    pub fn count_unresponsive(&mut self, targets: &[u128])
        requires
            targets@.len() <= i32::MAX,
            counts_at_most(old(self).model(), i32::MAX - targets@.len()),
        ensures
            final(self).model() == registered_all(old(self).model(), targets@, Registration::Unresponsive),
    {
        self.register_each(targets, RegistrationOf::Unresponsive);
    }

    /// Number of /64 networks that something was registered for.
    pub fn len(&self) -> (res: usize)
        ensures
            res == self.model().len(),
    {
        proof {
            assert(self.model().dom() =~= self.store@.dom());
        }
        self.store.len()
    }

    /// Empties the interpretation and hands out each /64 network once with
    /// its contents.
    pub fn drain(&mut self) -> (res: Vec<(Ipv6Prefix, Prefix)>)
        ensures
            final(self).model() == Map::<u64, PrefixModel>::empty(),
            res@.len() == old(self).model().len(),
            forall|i: int|
                #![trigger res@[i]]
                0 <= i < res@.len() ==> res@[i].0 == spec_net_from_key(spec_net_key(res@[i].0))
                    && old(self).model().contains_key(spec_net_key(res@[i].0))
                    && res@[i].1.model() == old(self).model()[spec_net_key(res@[i].0)],
            forall|k: u64| #[trigger] old(self).model().contains_key(k) ==> exists|i: int|
                0 <= i < res@.len() && spec_net_key(res@[i].0) == k,
            forall|i: int, j: int|
                0 <= i < res@.len() && 0 <= j < res@.len() && i != j ==> spec_net_key(res@[i].0)
                    != spec_net_key(res@[j].0),
    {
        let ghost start = self.store@;
        proof {
            assert(self.model().dom() =~= start.dom());
        }
        let res = self.store.drain();
        proof {
            assert(self.model() =~= Map::<u64, PrefixModel>::empty());
        }
        res
    }
}

} // verus!
