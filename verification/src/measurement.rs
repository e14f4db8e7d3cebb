//! What is known of a network from past probes: its last-hop routers, its
//! weird responses and its counts of responsive and unresponsive probes.

use std::collections::HashMap;

use vstd::prelude::*;
use vstd::std_specs::hash::spec_hash_map_iter;
use vstd::std_specs::iter::IteratorSpec;

use crate::prefix::Ipv6Prefix;

verus! {

broadcast use vstd::std_specs::hash::group_hash_axioms;

/// Number of probes that support an observation.
pub type HitCount = i32;

/// Address of a last-hop router.
pub type LhrAddr = u128;

/// How a last-hop router was seen.
#[derive(Debug, Clone, Copy, PartialEq, Eq, Hash)]
pub enum LhrSource {
    /// As the last responsive hop of a trace.
    Trace,
    /// As the sender of a "no route" destination-unreachable.
    UnreachRoute,
    /// As the sender of an "administratively prohibited" destination-unreachable.
    UnreachAdmin,
    /// As the sender of an "address unreachable" destination-unreachable.
    UnreachAddr,
    /// As the sender of a "port unreachable" destination-unreachable.
    UnreachPort,
}

/// The set of sources through which a last-hop router was seen, one flag per
/// source.
#[derive(Debug, Clone, Copy, PartialEq, Eq, Default)]
pub struct LhrSources {
    pub trace: bool,
    pub unreach_route: bool,
    pub unreach_admin: bool,
    pub unreach_addr: bool,
    pub unreach_port: bool,
}

impl LhrSources {
    /// The sources as a set.
    pub open spec fn set(self) -> Set<LhrSource> {
        Set::new(|s: LhrSource| self.has(s))
    }

    pub open spec fn has(self, s: LhrSource) -> bool {
        match s {
            LhrSource::Trace => self.trace,
            LhrSource::UnreachRoute => self.unreach_route,
            LhrSource::UnreachAdmin => self.unreach_admin,
            LhrSource::UnreachAddr => self.unreach_addr,
            LhrSource::UnreachPort => self.unreach_port,
        }
    }

    pub open spec fn union_spec(self, other: Self) -> Self {
        LhrSources {
            trace: self.trace || other.trace,
            unreach_route: self.unreach_route || other.unreach_route,
            unreach_admin: self.unreach_admin || other.unreach_admin,
            unreach_addr: self.unreach_addr || other.unreach_addr,
            unreach_port: self.unreach_port || other.unreach_port,
        }
    }

    pub open spec fn with_spec(self, s: LhrSource) -> Self {
        match s {
            LhrSource::Trace => LhrSources { trace: true, ..self },
            LhrSource::UnreachRoute => LhrSources { unreach_route: true, ..self },
            LhrSource::UnreachAdmin => LhrSources { unreach_admin: true, ..self },
            LhrSource::UnreachAddr => LhrSources { unreach_addr: true, ..self },
            LhrSource::UnreachPort => LhrSources { unreach_port: true, ..self },
        }
    }

    /// No source at all.
    pub fn empty() -> (res: Self)
        ensures
            res.set() == Set::<LhrSource>::empty(),
            res == (LhrSources {
                trace: false,
                unreach_route: false,
                unreach_admin: false,
                unreach_addr: false,
                unreach_port: false,
            }),
    {
        let res = LhrSources {
            trace: false,
            unreach_route: false,
            unreach_admin: false,
            unreach_addr: false,
            unreach_port: false,
        };
        assert(res.set() =~= Set::<LhrSource>::empty());
        res
    }

    /// Exactly one source.
    pub fn single(s: LhrSource) -> (res: Self)
        ensures
            res == Self::empty_spec().with_spec(s),
            res.set() == Set::<LhrSource>::empty().insert(s),
    {
        let mut res = Self::empty();
        res.insert(s);
        res
    }

    pub open spec fn empty_spec() -> Self {
        LhrSources {
            trace: false,
            unreach_route: false,
            unreach_admin: false,
            unreach_addr: false,
            unreach_port: false,
        }
    }

    /// Adds a source.
    pub fn insert(&mut self, s: LhrSource)
        ensures
            *final(self) == old(self).with_spec(s),
            final(self).set() == old(self).set().insert(s),
    {
        match s {
            LhrSource::Trace => self.trace = true,
            LhrSource::UnreachRoute => self.unreach_route = true,
            LhrSource::UnreachAdmin => self.unreach_admin = true,
            LhrSource::UnreachAddr => self.unreach_addr = true,
            LhrSource::UnreachPort => self.unreach_port = true,
        }
        assert(self.set() =~= old(self).set().insert(s));
    }

    /// Adds all sources of another set.
    pub fn extend(&mut self, other: &Self)
        ensures
            *final(self) == old(self).union_spec(*other),
            final(self).set() == old(self).set().union(other.set()),
    {
        self.trace = self.trace || other.trace;
        self.unreach_route = self.unreach_route || other.unreach_route;
        self.unreach_admin = self.unreach_admin || other.unreach_admin;
        self.unreach_addr = self.unreach_addr || other.unreach_addr;
        self.unreach_port = self.unreach_port || other.unreach_port;
        assert(self.set() =~= old(self).set().union(other.set()));
    }

    /// Whether a source is in the set.
    pub fn contains(&self, s: LhrSource) -> (res: bool)
        ensures
            res == self.has(s),
    {
        match s {
            LhrSource::Trace => self.trace,
            LhrSource::UnreachRoute => self.unreach_route,
            LhrSource::UnreachAdmin => self.unreach_admin,
            LhrSource::UnreachAddr => self.unreach_addr,
            LhrSource::UnreachPort => self.unreach_port,
        }
    }
}

/// A kind of response that does not point at a last-hop router.
#[derive(Debug, Clone, Copy, PartialEq, Eq, Hash)]
pub enum WeirdType {
    /// Destination-unreachable, "source address failed ingress/egress policy".
    DestUnreachFailedEgress,
    /// Destination-unreachable, "reject route to destination".
    DestUnreachRejectRoute,
    /// Destination-unreachable with any other unexpected code.
    DestUnreachOther,
    /// An echo reply from an address other than the probed one.
    DifferentEchoReplySource,
    /// An ICMP type that a probe should not provoke.
    UnexpectedIcmpType,
    /// Time exceeded in answer to an echo request.
    TtlExceededForEcho,
    /// An echo reply to a trace probe that was sent with a limited hop count.
    EchoReplyInTrace,
}

impl WeirdType {
    /// The number under which this kind is stored in maps.
    pub open spec fn id_spec(self) -> u8 {
        match self {
            WeirdType::DestUnreachFailedEgress => 0,
            WeirdType::DestUnreachRejectRoute => 1,
            WeirdType::DestUnreachOther => 2,
            WeirdType::DifferentEchoReplySource => 3,
            WeirdType::UnexpectedIcmpType => 4,
            WeirdType::TtlExceededForEcho => 5,
            WeirdType::EchoReplyInTrace => 6,
        }
    }

    /// The number under which this kind is stored in maps.
    pub fn id(&self) -> (res: u8)
        ensures
            res == self.id_spec(),
    {
        match self {
            WeirdType::DestUnreachFailedEgress => 0,
            WeirdType::DestUnreachRejectRoute => 1,
            WeirdType::DestUnreachOther => 2,
            WeirdType::DifferentEchoReplySource => 3,
            WeirdType::UnexpectedIcmpType => 4,
            WeirdType::TtlExceededForEcho => 5,
            WeirdType::EchoReplyInTrace => 6,
        }
    }
}

/// The last-hop router data of a tree for one router.
#[derive(Debug, Clone, Copy, PartialEq, Eq)]
pub struct LhrItem {
    pub sources: LhrSources,
    pub hit_count: HitCount,
}

/// The data of a tree for one kind of weird response.
#[derive(Debug, Clone, Copy, PartialEq, Eq, Default)]
pub struct WeirdItem {
    pub hit_count: HitCount,
}

impl WeirdItem {
    /// Adds the hits of another item of the same kind.
    pub fn consume_merge(&mut self, other: WeirdItem)
        requires
            old(self).hit_count + other.hit_count <= i32::MAX,
            old(self).hit_count + other.hit_count >= i32::MIN,
        ensures
            final(self).hit_count == old(self).hit_count + other.hit_count,
    {
        self.hit_count = self.hit_count + other.hit_count;
    }
}

/// An IP network as stored with measurements; only IPv6 networks are analysed.
#[derive(Debug, Clone, Copy, PartialEq, Eq)]
pub enum IpNetwork {
    V4 { addr: u32, len: u8 },
    V6(Ipv6Prefix),
}

/// Combination of two last-hop router items for the same router: hits add up,
/// sources are joined.
pub open spec fn merged_lhr(a: LhrItem, b: LhrItem) -> LhrItem {
    LhrItem { sources: a.sources.union_spec(b.sources), hit_count: (a.hit_count + b.hit_count) as i32 }
}

/// Merging router maps loses nothing and invents nothing: a router is in the
/// result exactly when it is in either map, it was seen through exactly the
/// sources it had in either map, and its hits are the sum of its hits in both
/// (a map without the router counting as none).
pub proof fn lemma_merged_lhrs_join(a: Map<LhrAddr, LhrItem>, b: Map<LhrAddr, LhrItem>, k: LhrAddr, s: LhrSource)
    requires
        lhrs_mergeable(a, b),
    ensures
        merged_lhrs(a, b).contains_key(k) <==> (a.contains_key(k) || b.contains_key(k)),
        merged_lhrs(a, b).contains_key(k) ==> (merged_lhrs(a, b)[k].sources.has(s) <==> ((a.contains_key(k)
            && a[k].sources.has(s)) || (b.contains_key(k) && b[k].sources.has(s)))),
        merged_lhrs(a, b).contains_key(k) ==> merged_lhrs(a, b)[k].hit_count == (if a.contains_key(k) {
            a[k].hit_count as int
        } else {
            0
        }) + (if b.contains_key(k) {
            b[k].hit_count as int
        } else {
            0
        }),
{
    if a.contains_key(k) && b.contains_key(k) {
        assert(i32::MIN <= a[k].hit_count + b[k].hit_count <= i32::MAX);
    }
}

/// Two router maps combined: routers of either map, items of routers in both
/// combined.
pub open spec fn merged_lhrs(a: Map<LhrAddr, LhrItem>, b: Map<LhrAddr, LhrItem>) -> Map<
    LhrAddr,
    LhrItem,
> {
    Map::new(
        |k: LhrAddr| a.contains_key(k) || b.contains_key(k),
        |k: LhrAddr|
            if a.contains_key(k) && b.contains_key(k) {
                merged_lhr(a[k], b[k])
            } else if a.contains_key(k) {
                a[k]
            } else {
                b[k]
            },
    )
}

/// Two weird maps combined: kinds of either map, hits of kinds in both added.
pub open spec fn merged_weirds(a: Map<u8, WeirdItem>, b: Map<u8, WeirdItem>) -> Map<u8, WeirdItem> {
    Map::new(
        |k: u8| a.contains_key(k) || b.contains_key(k),
        |k: u8|
            if a.contains_key(k) && b.contains_key(k) {
                WeirdItem { hit_count: (a[k].hit_count + b[k].hit_count) as i32 }
            } else if a.contains_key(k) {
                a[k]
            } else {
                b[k]
            },
    )
}

/// Whether two router maps can be combined without a hit count leaving `i32`.
pub open spec fn lhrs_mergeable(a: Map<LhrAddr, LhrItem>, b: Map<LhrAddr, LhrItem>) -> bool {
    forall|k: LhrAddr|
        a.contains_key(k) && b.contains_key(k) ==> i32::MIN <= #[trigger] a[k].hit_count
            + b[k].hit_count <= i32::MAX
}

/// Whether two weird maps can be combined without a hit count leaving `i32`.
pub open spec fn weirds_mergeable(a: Map<u8, WeirdItem>, b: Map<u8, WeirdItem>) -> bool {
    forall|k: u8|
        a.contains_key(k) && b.contains_key(k) ==> i32::MIN <= #[trigger] a[k].hit_count
            + b[k].hit_count <= i32::MAX
}

/// The contents of a [`MeasurementTree`] apart from its network.
pub struct TreeData {
    pub responsive: int,
    pub unresponsive: int,
    pub lhrs: Map<LhrAddr, LhrItem>,
    pub weirds: Map<u8, WeirdItem>,
}

/// No measurement at all.
pub open spec fn empty_data() -> TreeData {
    TreeData {
        responsive: 0,
        unresponsive: 0,
        lhrs: Map::empty(),
        weirds: Map::empty(),
    }
}

/// The contents of two trees combined.
pub open spec fn merged_data(a: TreeData, b: TreeData) -> TreeData {
    TreeData {
        responsive: a.responsive + b.responsive,
        unresponsive: a.unresponsive + b.unresponsive,
        lhrs: merged_lhrs(a.lhrs, b.lhrs),
        weirds: merged_weirds(a.weirds, b.weirds),
    }
}

/// Whether two contents can be combined without a count leaving `i32`.
pub open spec fn data_mergeable(a: TreeData, b: TreeData) -> bool {
    &&& i32::MIN <= a.responsive + b.responsive <= i32::MAX
    &&& i32::MIN <= a.unresponsive + b.unresponsive <= i32::MAX
    &&& lhrs_mergeable(a.lhrs, b.lhrs)
    &&& weirds_mergeable(a.weirds, b.weirds)
}

/// Measurements of one network.
#[derive(Debug)]
pub struct MeasurementTree {
    pub target_net: IpNetwork,
    /// Probes that resulted in any sort of response.
    pub responsive_count: HitCount,
    /// Probes that stayed dark.
    pub unresponsive_count: HitCount,
    /// Last-hop routers by address.
    pub last_hop_routers: HashMap<LhrAddr, LhrItem>,
    /// Weird responses by kind (see [`WeirdType::id`]).
    pub weirdness: HashMap<u8, WeirdItem>,
}

impl IpNetwork {
    /// A prefix length that fits the address family.
    pub open spec fn wf(self) -> bool {
        match self {
            IpNetwork::V4 { len, .. } => len <= 32,
            IpNetwork::V6(p) => p.wf(),
        }
    }
}

impl MeasurementTree {
    /// The tree's network is a valid network.
    pub open spec fn wf(self) -> bool {
        self.target_net.wf()
    }

    /// The contents of the tree.
    pub open spec fn data(self) -> TreeData {
        TreeData {
            responsive: self.responsive_count as int,
            unresponsive: self.unresponsive_count as int,
            lhrs: self.last_hop_routers@,
            weirds: self.weirdness@,
        }
    }

    /// Whether this tree can absorb another without a count leaving `i32`.
    pub open spec fn mergeable(self, other: MeasurementTree) -> bool {
        &&& i32::MIN <= self.responsive_count + other.responsive_count <= i32::MAX
        &&& i32::MIN <= self.unresponsive_count + other.unresponsive_count <= i32::MAX
        &&& lhrs_mergeable(self.last_hop_routers@, other.last_hop_routers@)
        &&& weirds_mergeable(self.weirdness@, other.weirdness@)
    }

    /// A tree for the network without any measurement.
    pub fn empty(target_net: Ipv6Prefix) -> (res: Self)
        ensures
            res.target_net == IpNetwork::V6(target_net),
            res.responsive_count == 0,
            res.unresponsive_count == 0,
            res.last_hop_routers@ == Map::<LhrAddr, LhrItem>::empty(),
            res.weirdness@ == Map::<u8, WeirdItem>::empty(),
    {
        MeasurementTree {
            target_net: IpNetwork::V6(target_net),
            responsive_count: 0,
            unresponsive_count: 0,
            last_hop_routers: HashMap::new(),
            weirdness: HashMap::new(),
        }
    }

    /// Whether the tree holds no measurement at all.
    pub fn is_empty(&self) -> (res: bool)
        ensures
            res == (self.responsive_count == 0 && self.unresponsive_count == 0
                && self.last_hop_routers@.is_empty() && self.weirdness@.is_empty()),
    {
        self.responsive_count == 0 && self.unresponsive_count == 0
            && self.last_hop_routers.is_empty() && self.weirdness.is_empty()
    }

    /// Sets the data of one router, replacing what was there.
    pub fn add_lhr_no_sum(&mut self, addr: LhrAddr, sources: LhrSources, hit_count: HitCount)
        ensures
            final(self).last_hop_routers@ == old(self).last_hop_routers@.insert(
                addr,
                LhrItem { sources, hit_count },
            ),
            final(self).weirdness@ == old(self).weirdness@,
            final(self).target_net == old(self).target_net,
            final(self).responsive_count == old(self).responsive_count,
            final(self).unresponsive_count == old(self).unresponsive_count,
    {
        self.last_hop_routers.insert(addr, LhrItem { sources, hit_count });
    }

    /// Sets the hits of one kind of weird response, replacing what was there.
    pub fn add_weird_no_sum(&mut self, typ: WeirdType, hit_count: HitCount)
        ensures
            final(self).weirdness@ == old(self).weirdness@.insert(typ.id_spec(), WeirdItem { hit_count }),
            final(self).last_hop_routers@ == old(self).last_hop_routers@,
            final(self).target_net == old(self).target_net,
            final(self).responsive_count == old(self).responsive_count,
            final(self).unresponsive_count == old(self).unresponsive_count,
    {
        self.weirdness.insert(typ.id(), WeirdItem { hit_count });
    }

    /// Adds the measurements of another tree to this one: counts add up, the
    /// items of routers and weird kinds present in both are combined. The
    /// target network stays.
    pub fn merge(&mut self, other: &MeasurementTree)
        requires
            old(self).mergeable(*other),
        ensures
            final(self).target_net == old(self).target_net,
            final(self).responsive_count == old(self).responsive_count + other.responsive_count,
            final(self).unresponsive_count == old(self).unresponsive_count
                + other.unresponsive_count,
            final(self).last_hop_routers@ == merged_lhrs(
                old(self).last_hop_routers@,
                other.last_hop_routers@,
            ),
            final(self).weirdness@ == merged_weirds(old(self).weirdness@, other.weirdness@),
            final(self).data() == merged_data(old(self).data(), other.data()),
    {
        self.responsive_count = self.responsive_count + other.responsive_count;
        self.unresponsive_count = self.unresponsive_count + other.unresponsive_count;
        merge_lhr_maps(&mut self.last_hop_routers, &other.last_hop_routers);
        merge_weird_maps(&mut self.weirdness, &other.weirdness);
    }
}

impl MeasurementTree {
    /// Whether this tree can absorb another without a count leaving `i32`.
    pub fn can_merge(&self, other: &MeasurementTree) -> (res: bool)
        ensures
            res == self.mergeable(*other),
    {
        let r = self.responsive_count as i64 + other.responsive_count as i64;
        let u = self.unresponsive_count as i64 + other.unresponsive_count as i64;
        r >= i32::MIN as i64 && r <= i32::MAX as i64 && u >= i32::MIN as i64 && u <= i32::MAX as i64
            && lhr_maps_fit(&self.last_hop_routers, &other.last_hop_routers) && weird_maps_fit(
            &self.weirdness,
            &other.weirdness,
        )
    }
}

/// Whether every router of both maps keeps its combined hits within `i32`.
fn lhr_maps_fit(mine: &HashMap<LhrAddr, LhrItem>, other: &HashMap<LhrAddr, LhrItem>) -> (res: bool)
    ensures
        res == lhrs_mergeable(mine@, other@),
{
    let entries = other.iter();
    let ghost kvs = spec_hash_map_iter(other).remaining();
    for (addr, item) in it: entries
        invariant
            it.seq() == kvs,
            kvs == spec_hash_map_iter(other).remaining(),
            forall|m: int|
                0 <= m < it.index() ==> #[trigger] mine@.contains_key(*kvs[m].0) ==> i32::MIN <= mine@[*kvs[m].0].hit_count
                    + kvs[m].1.hit_count <= i32::MAX,
    {
        proof {
            assert(kvs[it.index()] == (addr, item));
            assert(other@.contains_key(*addr) && other@[*addr] == *item);
        }
        match mine.get(addr) {
            Some(existing) => {
                let sum = existing.hit_count as i64 + item.hit_count as i64;
                if sum < i32::MIN as i64 || sum > i32::MAX as i64 {
                    assert(mine@.contains_key(*addr) && other@.contains_key(*addr));
                    return false;
                }
            },
            None => {},
        }
    }
    proof {
        assert forall|k: LhrAddr| mine@.contains_key(k) && other@.contains_key(k) implies i32::MIN
            <= #[trigger] mine@[k].hit_count + other@[k].hit_count <= i32::MAX by {
            assert(kvs.contains((&k, &other@[k])));
            let m = choose|m: int| 0 <= m < kvs.len() && kvs[m] == (&k, &other@[k]);
            assert(mine@.contains_key(*kvs[m].0));
        }
    }
    true
}

/// Whether every weird kind of both maps keeps its combined hits within
/// `i32`.
fn weird_maps_fit(mine: &HashMap<u8, WeirdItem>, other: &HashMap<u8, WeirdItem>) -> (res: bool)
    ensures
        res == weirds_mergeable(mine@, other@),
{
    let entries = other.iter();
    let ghost kvs = spec_hash_map_iter(other).remaining();
    for (typ, item) in it: entries
        invariant
            it.seq() == kvs,
            kvs == spec_hash_map_iter(other).remaining(),
            forall|m: int|
                0 <= m < it.index() ==> #[trigger] mine@.contains_key(*kvs[m].0) ==> i32::MIN <= mine@[*kvs[m].0].hit_count
                    + kvs[m].1.hit_count <= i32::MAX,
    {
        proof {
            assert(kvs[it.index()] == (typ, item));
            assert(other@.contains_key(*typ) && other@[*typ] == *item);
        }
        match mine.get(typ) {
            Some(existing) => {
                let sum = existing.hit_count as i64 + item.hit_count as i64;
                if sum < i32::MIN as i64 || sum > i32::MAX as i64 {
                    assert(mine@.contains_key(*typ) && other@.contains_key(*typ));
                    return false;
                }
            },
            None => {},
        }
    }
    proof {
        assert forall|k: u8| mine@.contains_key(k) && other@.contains_key(k) implies i32::MIN
            <= #[trigger] mine@[k].hit_count + other@[k].hit_count <= i32::MAX by {
            assert(kvs.contains((&k, &other@[k])));
            let m = choose|m: int| 0 <= m < kvs.len() && kvs[m] == (&k, &other@[k]);
            assert(mine@.contains_key(*kvs[m].0));
        }
    }
    true
}

fn merge_lhr_maps(mine: &mut HashMap<LhrAddr, LhrItem>, other: &HashMap<LhrAddr, LhrItem>)
    requires
        lhrs_mergeable(old(mine)@, other@),
    ensures
        final(mine)@ == merged_lhrs(old(mine)@, other@),
{
    let ghost start = mine@;
    let entries = other.iter();
    let ghost kvs = spec_hash_map_iter(other).remaining();
    assert(kvs.no_duplicates());
    for (addr, item) in it: entries
        invariant
            it.seq() == kvs,
            kvs == spec_hash_map_iter(other).remaining(),
            kvs.no_duplicates(),
            lhrs_mergeable(start, other@),
            mine@ == merged_lhrs(start, other@.restrict(
                kvs.take(it.index() as int).map_values(|e: (&LhrAddr, &LhrItem)| *e.0).to_set(),
            )),
    {
        let ghost done = kvs.take(it.index() as int).map_values(|e: (&LhrAddr, &LhrItem)| *e.0).to_set();
        proof {
            assert(kvs[it.index()] == (addr, item));
            assert(other@.contains_key(*kvs[it.index()].0));
            assert(other@.contains_key(*addr) && other@[*addr] == *item);
            assert(!done.contains(*addr)) by {
                if done.contains(*addr) {
                    let m = choose|m: int| 0 <= m < it.index() && *kvs[m].0 == *addr;
                    assert(kvs[m] == kvs[it.index()]);
                }
            }
        }
        let merged = match mine.get(addr) {
            Some(existing) => {
                let mut sources = existing.sources;
                sources.extend(&item.sources);
                LhrItem { sources, hit_count: existing.hit_count + item.hit_count }
            },
            None => *item,
        };
        mine.insert(*addr, merged);
        proof {
            let next = kvs.take(it.index() + 1).map_values(|e: (&LhrAddr, &LhrItem)| *e.0);
            assert(next =~= kvs.take(it.index() as int).map_values(|e: (&LhrAddr, &LhrItem)| *e.0).push(*addr));
            kvs.take(it.index() as int).map_values(|e: (&LhrAddr, &LhrItem)| *e.0).lemma_push_to_set_commute(*addr);
            assert(mine@ =~= merged_lhrs(start, other@.restrict(next.to_set())));
        }
    }
    proof {
        let all = kvs.map_values(|e: (&LhrAddr, &LhrItem)| *e.0);
        assert(kvs.take(kvs.len() as int) =~= kvs);
        assert(all.to_set() =~= other@.dom()) by {
            assert forall|k: LhrAddr| other@.contains_key(k) implies all.to_set().contains(k) by {
                assert(kvs.contains((&k, &other@[k])));
                let m = choose|m: int| 0 <= m < kvs.len() && kvs[m] == (&k, &other@[k]);
                assert(all[m] == k);
            }
        }
        assert(other@.restrict(all.to_set()) =~= other@);
    }
}

fn merge_weird_maps(mine: &mut HashMap<u8, WeirdItem>, other: &HashMap<u8, WeirdItem>)
    requires
        weirds_mergeable(old(mine)@, other@),
    ensures
        final(mine)@ == merged_weirds(old(mine)@, other@),
{
    let ghost start = mine@;
    let entries = other.iter();
    let ghost kvs = spec_hash_map_iter(other).remaining();
    assert(kvs.no_duplicates());
    for (typ, item) in it: entries
        invariant
            it.seq() == kvs,
            kvs == spec_hash_map_iter(other).remaining(),
            kvs.no_duplicates(),
            weirds_mergeable(start, other@),
            mine@ == merged_weirds(start, other@.restrict(
                kvs.take(it.index() as int).map_values(|e: (&u8, &WeirdItem)| *e.0).to_set(),
            )),
    {
        let ghost done = kvs.take(it.index() as int).map_values(|e: (&u8, &WeirdItem)| *e.0).to_set();
        proof {
            assert(kvs[it.index()] == (typ, item));
            assert(other@.contains_key(*kvs[it.index()].0));
            assert(other@.contains_key(*typ) && other@[*typ] == *item);
            assert(!done.contains(*typ)) by {
                if done.contains(*typ) {
                    let m = choose|m: int| 0 <= m < it.index() && *kvs[m].0 == *typ;
                    assert(kvs[m] == kvs[it.index()]);
                }
            }
        }
        let merged = match mine.get(typ) {
            Some(existing) => WeirdItem { hit_count: existing.hit_count + item.hit_count },
            None => *item,
        };
        mine.insert(*typ, merged);
        proof {
            let next = kvs.take(it.index() + 1).map_values(|e: (&u8, &WeirdItem)| *e.0);
            assert(next =~= kvs.take(it.index() as int).map_values(|e: (&u8, &WeirdItem)| *e.0).push(*typ));
            kvs.take(it.index() as int).map_values(|e: (&u8, &WeirdItem)| *e.0).lemma_push_to_set_commute(*typ);
            assert(mine@ =~= merged_weirds(start, other@.restrict(next.to_set())));
        }
    }
    proof {
        let all = kvs.map_values(|e: (&u8, &WeirdItem)| *e.0);
        assert(kvs.take(kvs.len() as int) =~= kvs);
        assert(all.to_set() =~= other@.dom()) by {
            assert forall|k: u8| other@.contains_key(k) implies all.to_set().contains(k) by {
                assert(kvs.contains((&k, &other@[k])));
                let m = choose|m: int| 0 <= m < kvs.len() && kvs[m] == (&k, &other@[k]);
                assert(all[m] == k);
            }
        }
        assert(other@.restrict(all.to_set()) =~= other@);
    }
}

} // verus!
