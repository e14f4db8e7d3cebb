//! Plain-value model of an IPv6 network (address bits and prefix length) and
//! the calls into `ipnet` that compute on it.

use ipnet::Ipv6Net;
use vstd::prelude::*;

verus! {

/// The netmask of a prefix length, as `ipnet` computes it: all ones shifted
/// left by the number of host bits (zero for a /0).
pub open spec fn spec_netmask(len: u8) -> u128 {
    if len == 0 {
        0
    } else {
        u128::MAX << ((128 - len) as u128)
    }
}

/// The host mask of a prefix length: all ones shifted right by the prefix
/// length (zero for a /128).
pub open spec fn spec_hostmask(len: u8) -> u128 {
    if len >= 128 {
        0
    } else {
        u128::MAX >> (len as u128)
    }
}

/// The first address of the network.
pub open spec fn spec_network(addr: u128, len: u8) -> u128 {
    addr & spec_netmask(len)
}

/// The last address of the network.
pub open spec fn spec_broadcast(addr: u128, len: u8) -> u128 {
    addr | spec_hostmask(len)
}

/// An IPv6 network: an address (not necessarily truncated to the prefix) and a
/// prefix length of at most 128.
#[derive(Clone, Copy, Debug, PartialEq, Eq, Structural, Hash)]
pub struct Ipv6Prefix {
    pub addr: u128,
    pub len: u8,
}

impl Ipv6Prefix {
    pub open spec fn wf(self) -> bool {
        self.len <= 128
    }

    pub open spec fn network_spec(self) -> u128 {
        spec_network(self.addr, self.len)
    }

    pub open spec fn broadcast_spec(self) -> u128 {
        spec_broadcast(self.addr, self.len)
    }

    /// Builds a network from an address and a prefix length; `None` where the
    /// prefix length exceeds 128.
    pub fn new(addr: u128, len: u8) -> (res: Option<Ipv6Prefix>)
        ensures
            res is Some <==> len <= 128,
            res matches Some(p) ==> p.addr == addr && p.len == len,
    {
        ipnet_new(addr, len)
    }

    /// The first address of the network.
    pub fn network(&self) -> (res: u128)
        requires
            self.wf(),
        ensures
            res == self.network_spec(),
    {
        ipnet_network(self.addr, self.len)
    }

    /// Whether `other` lies within this network: its first address is not
    /// below ours and its last address not above ours.
    pub open spec fn contains_spec(self, other: Ipv6Prefix) -> bool {
        self.network_spec() <= other.network_spec() && other.broadcast_spec()
            <= self.broadcast_spec()
    }

    /// Whether `other` lies within this network.
    pub fn contains(&self, other: &Ipv6Prefix) -> (res: bool)
        requires
            self.wf(),
            other.wf(),
        ensures
            res == self.contains_spec(*other),
    {
        ipnet_contains(self.addr, self.len, other.addr, other.len)
    }
}

impl Ipv6Prefix {
    /// The network one bit shorter that contains this one, with its address
    /// truncated; `None` for a /0.
    pub fn supernet(&self) -> (res: Option<Ipv6Prefix>)
        requires
            self.wf(),
        ensures
            self.len == 0 ==> res is None,
            self.len > 0 ==> res == Some(
                (Ipv6Prefix { addr: spec_network(self.addr, (self.len - 1) as u8), len: (self.len - 1) as u8 }),
            ),
    {
        ipnet_supernet(self.addr, self.len)
    }

    /// The subnetworks of this network with a longer prefix length, in order
    /// of their addresses; `None` where the new length is shorter than this
    /// network's or exceeds 128. At most 16 subnetworks are asked for.
    pub fn subnets(&self, new_len: u8) -> (res: Option<Vec<Ipv6Prefix>>)
        requires
            self.wf(),
            new_len <= self.len + 4,
        ensures
            (new_len < self.len || new_len > 128) ==> res is None,
            (self.len <= new_len && new_len <= 128) ==> res is Some,
            res matches Some(v) ==> is_subnet_listing(*self, new_len, v@),
    {
        ipnet_subnets(self.addr, self.len, new_len)
    }
}

/// `v` lists the subnetworks of `net` with prefix length `new_len`, in
/// order: one per multiple of their size, from the network's first address.
pub open spec fn is_subnet_listing(net: Ipv6Prefix, new_len: u8, v: Seq<Ipv6Prefix>) -> bool {
    &&& v.len() == vstd::arithmetic::power2::pow2((new_len - net.len) as nat)
    &&& forall|i: int|
        #![trigger v[i]]
        0 <= i < v.len() ==> v[i].len == new_len && v[i].addr == spec_network(net.addr, net.len) + i
            * vstd::arithmetic::power2::pow2((128 - new_len) as nat)
}

/// `ipnet::Ipv6Net::supernet`: the network one bit shorter, truncated to
/// its network address; none for a /0.
#[verifier::external_body]
fn ipnet_supernet(addr: u128, len: u8) -> (res: Option<Ipv6Prefix>)
    requires
        len <= 128,
    ensures
        len == 0 ==> res is None,
        len > 0 ==> res == Some((Ipv6Prefix { addr: spec_network(addr, (len - 1) as u8), len: (len - 1) as u8 })),
{
    Ipv6Net::new_assert(addr.into(), len).supernet().map(
        |n| Ipv6Prefix { addr: u128::from(n.addr()), len: n.prefix_len() },
    )
}

/// `ipnet::Ipv6Net::subnets`, collected: refused for a shorter or an over-long
/// prefix length, otherwise every subnetwork with the new length from the
/// network address on, in order.
#[verifier::external_body]
fn ipnet_subnets(addr: u128, len: u8, new_len: u8) -> (res: Option<Vec<Ipv6Prefix>>)
    requires
        len <= 128,
        new_len <= len + 4,
    ensures
        (new_len < len || new_len > 128) ==> res is None,
        (len <= new_len && new_len <= 128) ==> res is Some,
        res matches Some(v) ==> is_subnet_listing((Ipv6Prefix { addr, len }), new_len, v@),
{
    match Ipv6Net::new_assert(addr.into(), len).subnets(new_len) {
        Ok(subnets) => Some(subnets.map(|n| Ipv6Prefix { addr: u128::from(n.addr()), len: n.prefix_len() }).collect()),
        Err(_) => None,
    }
}

/// `ipnet::Ipv6Net::new`: fails exactly for prefix lengths above 128, and
/// otherwise keeps the address and the prefix length as given.
#[verifier::external_body]
fn ipnet_new(addr: u128, len: u8) -> (res: Option<Ipv6Prefix>)
    ensures
        res is Some <==> len <= 128,
        res matches Some(p) ==> p.addr == addr && p.len == len,
{
    match Ipv6Net::new(addr.into(), len) {
        Ok(net) => Some(Ipv6Prefix { addr: u128::from(net.addr()), len: net.prefix_len() }),
        Err(_) => None,
    }
}

/// `ipnet::Ipv6Net::network`: the address and-ed with the netmask.
#[verifier::external_body]
fn ipnet_network(addr: u128, len: u8) -> (res: u128)
    requires
        len <= 128,
    ensures
        res == spec_network(addr, len),
{
    u128::from(Ipv6Net::new_assert(addr.into(), len).network())
}

/// `ipnet::Ipv6Net::contains` for a network: the other network's first address
/// is not below ours and its last address not above ours.
#[verifier::external_body]
fn ipnet_contains(addr: u128, len: u8, other_addr: u128, other_len: u8) -> (res: bool)
    requires
        len <= 128,
        other_len <= 128,
    ensures
        res == (spec_network(addr, len) <= spec_network(other_addr, other_len) && spec_broadcast(
            other_addr,
            other_len,
        ) <= spec_broadcast(addr, len)),
{
    let me = Ipv6Net::new_assert(addr.into(), len);
    let other = Ipv6Net::new_assert(other_addr.into(), other_len);
    me.contains(&other)
}

} // verus!
