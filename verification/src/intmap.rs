//! Hash maps with `u64` keys that use `nohash_hasher`'s identity hasher: the
//! key itself is the hash. The hasher changes how fast the map is, not what
//! it holds, so each operation is stated over the map's contents as std's
//! `HashMap` gives them.

use nohash_hasher::{IntMap, NoHashHasher};
use std::hash::BuildHasherDefault;

use vstd::prelude::*;

verus! {

#[verifier::external_type_specification]
#[verifier::external_body]
#[verifier::reject_recursive_types(T)]
pub struct ExNoHashHasher<T>(NoHashHasher<T>);

#[verifier::external_type_specification]
#[verifier::external_body]
#[verifier::reject_recursive_types(H)]
pub struct ExBuildHasherDefault<H>(BuildHasherDefault<H>);

/// An empty map (`IntMap::default`).
pub(crate) fn int_map_new<V>() -> (m: IntMap<u64, V>)
    ensures
        m@ == Map::<u64, V>::empty(),
{
    IntMap::default()
}

/// `HashMap::len` on an `IntMap`: the number of keys.
#[verifier::external_body]
pub(crate) fn int_map_len<V>(m: &IntMap<u64, V>) -> (res: usize)
    ensures
        res == m@.len(),
{
    m.len()
}

/// `HashMap::contains_key` on an `IntMap`: whether the key has a value.
#[verifier::external_body]
pub(crate) fn int_map_contains_key<V>(m: &IntMap<u64, V>, k: u64) -> (res: bool)
    ensures
        res == m@.contains_key(k),
{
    m.contains_key(&k)
}

/// `HashMap::get` on an `IntMap`: the key's value, if it has one.
#[verifier::external_body]
pub(crate) fn int_map_get<V>(m: &IntMap<u64, V>, k: u64) -> (res: Option<&V>)
    ensures
        match res {
            Some(v) => m@.contains_key(k) && *v == m@[k],
            None => !m@.contains_key(k),
        },
{
    m.get(&k)
}

/// `HashMap::remove` on an `IntMap`: takes the key out, handing back its
/// value if it had one.
#[verifier::external_body]
pub(crate) fn int_map_remove<V>(m: &mut IntMap<u64, V>, k: u64) -> (res: Option<V>)
    ensures
        final(m)@ == old(m)@.remove(k),
        match res {
            Some(v) => old(m)@.contains_key(k) && v == old(m)@[k],
            None => !old(m)@.contains_key(k),
        },
{
    m.remove(&k)
}

/// `HashMap::entry` with `Entry::or_insert` on an `IntMap`: the key's value,
/// given `default` first where it has none.
#[verifier::external_body]
pub(crate) fn int_map_entry_or_insert<V>(m: &mut IntMap<u64, V>, k: u64, default: V) -> (res: &mut V)
    ensures
        *res == (if old(m)@.contains_key(k) {
            old(m)@[k]
        } else {
            default
        }),
        final(m)@ == old(m)@.insert(k, *final(res)),
{
    m.entry(k).or_insert(default)
}

/// `HashMap::iter` on an `IntMap`, collected: every key once with its value,
/// in the map's order.
#[verifier::external_body]
pub(crate) fn int_map_entries<V>(m: &IntMap<u64, V>) -> (res: Vec<(u64, &V)>)
    ensures
        res@.len() == m@.len(),
        forall|i: int|
            #![trigger res@[i]]
            0 <= i < res@.len() ==> m@.contains_key(res@[i].0) && *res@[i].1 == m@[res@[i].0],
        forall|i: int, j: int| 0 <= i < j < res@.len() ==> res@[i].0 != res@[j].0,
        forall|k: u64| #[trigger] m@.contains_key(k) ==> exists|i: int| 0 <= i < res@.len() && res@[i].0 == k,
{
    m.iter().map(|(k, v)| (*k, v)).collect()
}

} // verus!
