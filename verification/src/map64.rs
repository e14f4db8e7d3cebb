//! A map keyed by /64 networks, stored by a key made from the upper 64 bits
//! of their address.

use nohash_hasher::IntMap;

use vstd::prelude::*;

use crate::intmap::{
    int_map_contains_key, int_map_entries, int_map_entry_or_insert, int_map_get, int_map_len, int_map_new,
    int_map_remove,
};
use crate::prefix::{spec_network, Ipv6Prefix};

verus! {

/// The only prefix length that the map accepts as a key.
pub const PREFIX_LEN: u8 = 64;

/// The mask that keys are xor-ed with: the key of 2001:db8::/64 is
/// 0x2001db8000000.
pub const KEY_MASK: u64 = 0x2003_0da5_b800_0000;

/// The key of an address: its upper 64 bits, xor-ed with [`KEY_MASK`].
pub open spec fn spec_addr_to_key(addr: u128) -> u64 {
    ((addr >> 64u128) as u64) ^ KEY_MASK
}

/// The /64 network of a key: the key xor-ed with [`KEY_MASK`] as upper 64
/// bits.
pub open spec fn spec_net_from_key(key: u64) -> Ipv6Prefix {
    Ipv6Prefix { addr: ((key ^ KEY_MASK) as u128) << 64u128, len: 64 }
}

/// The key of a /64 network: that of its network address.
pub open spec fn spec_net_key(net: Ipv6Prefix) -> u64 {
    spec_addr_to_key(spec_network(net.addr, net.len))
}

/// A map keyed by /64 networks. Currently assumes this exact size, but may
/// be expanded to less-specific (but not more-specific) masks in the future.
#[derive(Debug)]
pub struct Net64Map<V> {
    per_net: IntMap<u64, V>,
}

impl<V> View for Net64Map<V> {
    type V = Map<u64, V>;

    closed spec fn view(&self) -> Map<u64, V> {
        self.per_net@
    }
}

impl<V> Default for Net64Map<V> {
    fn default() -> (res: Self)
        ensures
            res@ == Map::<u64, V>::empty(),
    {
        Net64Map { per_net: int_map_new() }
    }
}

/// The key of a /64 network; only /64 networks have one.
pub fn to_key(net: &Ipv6Prefix) -> (res: u64)
    requires
        net.wf(),
        net.len == PREFIX_LEN,
    ensures
        res == spec_net_key(*net),
{
    addr_to_key(net.network())
}

/// The key of an address: its upper 64 bits, xor-ed with [`KEY_MASK`].
pub fn addr_to_key(addr: u128) -> (res: u64)
    ensures
        res == spec_addr_to_key(addr),
{
    ((addr >> 64u128) as u64) ^ KEY_MASK
}

/// The /64 network that holds an address (the address is kept as given).
pub fn addr_to_net(addr: u128) -> (res: Ipv6Prefix)
    ensures
        res == (Ipv6Prefix { addr, len: 64 }),
{
    match Ipv6Prefix::new(addr, PREFIX_LEN) {
        Some(net) => net,
        None => {
            assert(false);
            Ipv6Prefix { addr, len: PREFIX_LEN }
        },
    }
}

/// The /64 network of a key.
pub fn net_from_key(key: u64) -> (res: Ipv6Prefix)
    ensures
        res == spec_net_from_key(key),
{
    let expanded = (key ^ KEY_MASK) as u128;
    let shifted = expanded << 64u128;
    addr_to_net(shifted)
}

/// Keys and /64 networks correspond one to one: the network of a key has
/// that key, and a /64 network is the network of its key, truncated to its
/// network address.
pub proof fn lemma_key_roundtrip(key: u64, net: Ipv6Prefix)
    requires
        net.len == PREFIX_LEN,
    ensures
        spec_net_key(spec_net_from_key(key)) == key,
        spec_net_from_key(spec_net_key(net)) == (Ipv6Prefix { addr: spec_network(net.addr, net.len), len: 64 }),
{
    lemma_key_of_net_from_key(key);
    let a = net.addr;
    let m = KEY_MASK;
    let upper: u64 = ((a & (u128::MAX << 64u128)) >> 64u128) as u64;
    assert(spec_network(a, 64) == a & (u128::MAX << 64u128));
    assert((upper ^ m) ^ m == upper) by (bit_vector);
    assert(((upper as u128) << 64u128) == a & (u128::MAX << 64u128)) by (bit_vector)
        requires
            upper == ((a & (u128::MAX << 64u128)) >> 64u128) as u64,
    ;
}

/// An address has the key of its /64 network.
pub proof fn lemma_addr_key_is_net_key(addr: u128)
    ensures
        spec_net_key(Ipv6Prefix { addr, len: 64 }) == spec_addr_to_key(addr),
{
    assert(((addr & (u128::MAX << 64u128)) >> 64u128) as u64 == (addr >> 64u128) as u64) by (bit_vector);
    assert(spec_network(addr, 64) == addr & (u128::MAX << 64u128));
}

/// The networks of the map's entries, each with a reference to its value.
pub struct Iter<'a, V> {
    entries: Vec<(u64, &'a V)>,
    next_index: usize,
}

impl<'a, V> Iter<'a, V> {
    #[verifier::type_invariant]
    spec fn inv(self) -> bool {
        self.next_index <= self.entries@.len()
    }

    /// The entries that are still to come, with their keys.
    pub closed spec fn remaining(&self) -> Seq<(u64, V)> {
        self.entries@.subrange(self.next_index as int, self.entries@.len() as int).map_values(
            |e: (u64, &'a V)| (e.0, *e.1),
        )
    }

    /// The next entry: its /64 network and its value.
    pub fn next(&mut self) -> (res: Option<(Ipv6Prefix, &'a V)>)
        ensures
            old(self).remaining().len() == 0 ==> res is None && final(self).remaining().len() == 0,
            old(self).remaining().len() > 0 ==> {
                &&& res matches Some(r) && r.0 == spec_net_from_key(old(self).remaining()[0].0)
                    && *r.1 == old(self).remaining()[0].1
                &&& final(self).remaining() == old(self).remaining().drop_first()
            },
    {
        proof {
            use_type_invariant(&*self);
        }
        if self.next_index >= self.entries.len() {
            return None;
        }
        let (raw_key, value) = self.entries[self.next_index];
        self.next_index = self.next_index + 1;
        proof {
            assert(self.remaining() =~= old(self).remaining().drop_first());
        }
        Some((net_from_key(raw_key), value))
    }

    /// How many entries are still to come.
    pub fn size_hint(&self) -> (res: usize)
        ensures
            res == self.remaining().len(),
    {
        proof {
            use_type_invariant(self);
        }
        if self.next_index >= self.entries.len() {
            0
        } else {
            self.entries.len() - self.next_index
        }
    }
}

impl<V> Net64Map<V> {
    /// Number of /64 networks in the map.
    pub fn len(&self) -> (res: usize)
        ensures
            res == self@.len(),
    {
        int_map_len(&self.per_net)
    }

    /// Whether a /64 network has an entry.
    pub fn contains_net(&self, net: &Ipv6Prefix) -> (res: bool)
        requires
            net.wf(),
            net.len == PREFIX_LEN,
        ensures
            res == self@.contains_key(spec_net_key(*net)),
    {
        int_map_contains_key(&self.per_net, to_key(net))
    }

    /// Every entry once, in the order of the underlying hash map.
    pub fn iter(&self) -> (res: Iter<'_, V>)
        ensures
            res.remaining().len() == self@.len(),
            res.remaining().map_values(|e: (u64, V)| e.0).no_duplicates(),
            forall|i: int|
                #![trigger res.remaining()[i]]
                0 <= i < res.remaining().len() ==> self@.contains_key(res.remaining()[i].0)
                    && self@[res.remaining()[i].0] == res.remaining()[i].1,
            forall|k: u64| #[trigger] self@.contains_key(k) ==> exists|i: int|
                0 <= i < res.remaining().len() && res.remaining()[i].0 == k,
    {
        let entries = int_map_entries(&self.per_net);
        let res = Iter { entries, next_index: 0 };
        proof {
            let rem = res.remaining();
            assert(rem =~= entries@.map_values(|e: (u64, &V)| (e.0, *e.1)));
            assert forall|k: u64| #[trigger] self@.contains_key(k) implies exists|i: int|
                0 <= i < rem.len() && rem[i].0 == k by {
                let i = choose|i: int| 0 <= i < entries@.len() && entries@[i].0 == k;
                assert(rem[i].0 == k);
            }
            let ks = rem.map_values(|e: (u64, V)| e.0);
            assert forall|i: int, j: int| 0 <= i < ks.len() && 0 <= j < ks.len() && i != j implies ks[i]
                != ks[j] by {
                assert(ks[i] == entries@[i].0);
                assert(ks[j] == entries@[j].0);
            }
        }
        res
    }

    /// The value of a /64 network; the network must have an entry.
    pub fn index_net(&self, net: &Ipv6Prefix) -> (res: &V)
        requires
            net.wf(),
            net.len == PREFIX_LEN,
            self@.contains_key(spec_net_key(*net)),
        ensures
            *res == self@[spec_net_key(*net)],
    {
        let key = to_key(net);
        int_map_get(&self.per_net, key).unwrap()
    }

    /// The value of the /64 network that holds an address; it must have an entry.
    pub fn index_addr(&self, addr: u128) -> (res: &V)
        requires
            self@.contains_key(spec_addr_to_key(addr)),
        ensures
            *res == self@[spec_addr_to_key(addr)],
    {
        let key = addr_to_key(addr);
        int_map_get(&self.per_net, key).unwrap()
    }

    /// The value of a /64 network, inserting the given value first where the
    /// network has no entry yet.
    pub fn entry_by_net_or(&mut self, net: &Ipv6Prefix, new_value: V) -> (res: &mut V)
        requires
            net.wf(),
            net.len == PREFIX_LEN,
        ensures
            *res == (if old(self)@.contains_key(spec_net_key(*net)) {
                old(self)@[spec_net_key(*net)]
            } else {
                new_value
            }),
            final(self)@ == old(self)@.insert(spec_net_key(*net), *final(res)),
    {
        let key = to_key(net);
        int_map_entry_or_insert(&mut self.per_net, key, new_value)
    }

    /// The value of the /64 network that holds an address, inserting the
    /// given value first where the network has no entry yet.
    pub fn entry_by_addr_or(&mut self, addr: u128, new_value: V) -> (res: &mut V)
        ensures
            *res == (if old(self)@.contains_key(spec_addr_to_key(addr)) {
                old(self)@[spec_addr_to_key(addr)]
            } else {
                new_value
            }),
            final(self)@ == old(self)@.insert(spec_addr_to_key(addr), *final(res)),
    {
        let net = addr_to_net(addr);
        proof {
            lemma_net_key_of_addr(addr);
        }
        self.entry_by_net_or(&net, new_value)
    }

    /// Empties the map and hands out every entry once, with its /64 network,
    /// in the order of the underlying hash map.
    pub fn drain(&mut self) -> (res: Vec<(Ipv6Prefix, V)>)
        ensures
            final(self)@ == Map::<u64, V>::empty(),
            res@.len() == old(self)@.len(),
            forall|i: int|
                #![trigger res@[i]]
                0 <= i < res@.len() ==> res@[i].0.len == 64 && old(self)@.contains_key(
                    spec_net_key(res@[i].0),
                ) && res@[i].1 == old(self)@[spec_net_key(res@[i].0)] && res@[i].0
                    == spec_net_from_key(spec_net_key(res@[i].0)),
            forall|k: u64| #[trigger] old(self)@.contains_key(k) ==> exists|i: int|
                0 <= i < res@.len() && spec_net_key(res@[i].0) == k,
            forall|i: int, j: int|
                0 <= i < res@.len() && 0 <= j < res@.len() && i != j ==> spec_net_key(res@[i].0)
                    != spec_net_key(res@[j].0),
    {
        let keys = self.keys();
        let ghost start = self@;
        let mut out: Vec<(Ipv6Prefix, V)> = Vec::new();
        let mut i: usize = 0;
        while i < keys.len()
            invariant
                i <= keys@.len(),
                keys@.no_duplicates(),
                keys@.to_set() == start.dom(),
                out@.len() == i,
                self@ == start.remove_keys(keys@.take(i as int).to_set()),
                forall|m: int|
                    #![trigger out@[m]]
                    0 <= m < i ==> out@[m].0 == spec_net_from_key(keys@[m]) && spec_net_key(
                        out@[m].0,
                    ) == keys@[m] && out@[m].1 == start[keys@[m]],
            decreases keys@.len() - i,
        {
            let key = keys[i];
            proof {
                assert(start.dom().contains(key)) by {
                    assert(keys@.contains(key));
                }
                assert(!keys@.take(i as int).contains(key)) by {
                    if keys@.take(i as int).contains(key) {
                        let m = choose|m: int| 0 <= m < i && keys@.take(i as int)[m] == key;
                        assert(keys@[m] == keys@[i as int]);
                    }
                }
            }
            match int_map_remove(&mut self.per_net, key) {
                Some(v) => {
                    let net = net_from_key(key);
                    proof {
                        lemma_key_of_net_from_key(key);
                    }
                    out.push((net, v));
                },
                None => {
                    assert(false);
                },
            }
            proof {
                assert(keys@.take(i + 1) =~= keys@.take(i as int).push(key));
                keys@.take(i as int).lemma_push_to_set_commute(key);
                assert(self@ =~= start.remove_keys(keys@.take(i + 1).to_set()));
            }
            i = i + 1;
        }
        proof {
            assert(keys@.take(keys@.len() as int) =~= keys@);
            assert(self@ =~= Map::<u64, V>::empty());
            assert forall|k: u64| #[trigger] start.contains_key(k) implies exists|m: int|
                0 <= m < out@.len() && spec_net_key(out@[m].0) == k by {
                assert(keys@.to_set().contains(k));
                let m = choose|m: int| 0 <= m < keys@.len() && keys@[m] == k;
                assert(spec_net_key(out@[m].0) == keys@[m]);
            }
            assert forall|a: int, b: int|
                0 <= a < out@.len() && 0 <= b < out@.len() && a != b implies spec_net_key(out@[a].0)
                != spec_net_key(out@[b].0) by {
                assert(spec_net_key(out@[a].0) == keys@[a]);
                assert(spec_net_key(out@[b].0) == keys@[b]);
            }
            assert(start.dom().len() == keys@.len()) by {
                keys@.unique_seq_to_set();
            }
        }
        out
    }

    /// The keys of the map, in the order of the underlying hash map.
    fn keys(&self) -> (res: Vec<u64>)
        ensures
            res@.to_set() == self@.dom(),
            res@.no_duplicates(),
    {
        let entries = int_map_entries(&self.per_net);
        let mut out: Vec<u64> = Vec::new();
        let mut i: usize = 0;
        while i < entries.len()
            invariant
                i <= entries@.len(),
                out@ == entries@.take(i as int).map_values(|e: (u64, &V)| e.0),
            decreases entries@.len() - i,
        {
            out.push(entries[i].0);
            i = i + 1;
            assert(out@ =~= entries@.take(i as int).map_values(|e: (u64, &V)| e.0));
        }
        proof {
            assert(entries@.take(i as int) =~= entries@);
            assert forall|a: int, b: int| 0 <= a < out@.len() && 0 <= b < out@.len() && a != b implies out@[a]
                != out@[b] by {
                assert(out@[a] == entries@[a].0);
                assert(out@[b] == entries@[b].0);
            }
            assert(out@.to_set() =~= self@.dom()) by {
                assert forall|k: u64| self@.contains_key(k) implies out@.to_set().contains(k) by {
                    let j = choose|j: int| 0 <= j < entries@.len() && entries@[j].0 == k;
                    assert(out@[j] == k);
                }
                assert forall|k: u64| out@.to_set().contains(k) implies self@.contains_key(k) by {
                    let j = choose|j: int| 0 <= j < out@.len() && out@[j] == k;
                    assert(entries@[j].0 == k);
                }
            }
        }
        out
    }
}

proof fn lemma_net_key_of_addr(addr: u128)
    ensures
        spec_net_key(Ipv6Prefix { addr, len: 64 }) == spec_addr_to_key(addr),
{
    assert(spec_network(addr, 64) == addr & (u128::MAX << 64u128));
    assert(((addr & (u128::MAX << 64u128)) >> 64u128) as u64 == (addr >> 64u128) as u64)
        by (bit_vector);
}

proof fn lemma_key_of_net_from_key(key: u64)
    ensures
        spec_net_key(spec_net_from_key(key)) == key,
{
    let m = KEY_MASK;
    let x: u64 = key ^ m;
    let a = (x as u128) << 64u128;
    assert(spec_network(a, 64) == a & (u128::MAX << 64u128));
    assert((((x as u128) << 64u128) & (u128::MAX << 64u128)) >> 64u128 == x as u128) by (bit_vector);
    assert(x ^ m == key) by (bit_vector)
        requires
            x == key ^ m,
    ;
}

} // verus!
