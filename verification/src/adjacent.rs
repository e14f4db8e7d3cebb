//! The neighbours of a prefix in the prefix tree: the prefix one bit
//! shorter that contains it, and the other half of that prefix.

use vstd::arithmetic::power2::pow2;
use vstd::prelude::*;

use crate::prefix::{spec_network, Ipv6Prefix};

verus! {

/// A prefix with its parent and its sibling.
#[derive(Debug, Clone, Copy, PartialEq, Eq, Structural)]
pub struct AdjacentNets {
    pub own: Ipv6Prefix,
    pub parent: Ipv6Prefix,
    pub sibling: Ipv6Prefix,
}

/// Why a prefix has no neighbours.
#[derive(Debug, Clone, Copy, PartialEq, Eq, Structural)]
pub enum AdjacencyError {
    /// A /0 has no parent.
    NoParent,
    /// Both halves of the parent differ from the prefix, as they do where the
    /// prefix's address is not its network address.
    SeveralSiblings,
    /// Both halves of the parent equal the prefix.
    NoSibling,
}

/// The parent of a prefix: one bit shorter, truncated.
pub open spec fn parent_of(own: Ipv6Prefix) -> Ipv6Prefix {
    Ipv6Prefix { addr: spec_network(own.addr, (own.len - 1) as u8), len: (own.len - 1) as u8 }
}

/// Half `i` of a parent, with the child's prefix length `len`.
pub open spec fn half_of(parent: Ipv6Prefix, len: u8, i: int) -> Ipv6Prefix {
    Ipv6Prefix {
        addr: (spec_network(parent.addr, parent.len) + i * pow2((128 - len) as nat)) as u128,
        len,
    }
}

/// The neighbours of a prefix as the prefix tree sees them: where the prefix
/// is one half of its parent, the sibling is the other half.
pub open spec fn adjacency(own: Ipv6Prefix) -> Result<AdjacentNets, AdjacencyError> {
    if own.len == 0 {
        Err(AdjacencyError::NoParent)
    } else {
        let parent = parent_of(own);
        let first = half_of(parent, own.len, 0);
        let second = half_of(parent, own.len, 1);
        if own == first {
            Ok(AdjacentNets { own, parent, sibling: second })
        } else if own == second {
            Ok(AdjacentNets { own, parent, sibling: first })
        } else {
            Err(AdjacencyError::SeveralSiblings)
        }
    }
}

impl AdjacentNets {
    /// The parent and sibling of a prefix.
    pub fn try_from(value: Ipv6Prefix) -> (res: Result<AdjacentNets, AdjacencyError>)
        requires
            value.wf(),
        ensures
            res == adjacency(value),
    {
        let parent = match value.supernet() {
            Some(parent) => parent,
            None => return Err(AdjacencyError::NoParent),
        };
        let halves = parent.subnets(value.len).unwrap();
        proof {
            vstd::arithmetic::power2::lemma2_to64();
            vstd::arithmetic::power2::lemma_pow2_pos((128 - value.len) as nat);
            assert(halves@[0] == half_of(parent, value.len, 0));
            assert(halves@[1] == half_of(parent, value.len, 1));
        }
        let ghost first = halves@[0];
        let ghost second = halves@[1];
        assert(first != second);
        let mut others: Vec<Ipv6Prefix> = Vec::new();
        let mut i: usize = 0;
        while i < halves.len()
            invariant
                halves@.len() == 2,
                halves@[0] == first,
                halves@[1] == second,
                i <= 2,
                others@ == halves@.take(i as int).filter(|c: Ipv6Prefix| c != value),
            decreases 2 - i,
        {
            let candidate = halves[i];
            proof {
                assert(halves@.take(i + 1).drop_last() =~= halves@.take(i as int));
                reveal_with_fuel(Seq::filter, 1);
            }
            if candidate != value {
                others.push(candidate);
            }
            i = i + 1;
        }
        proof {
            assert(halves@.take(2) =~= halves@);
            assert(halves@.drop_last() =~= seq![first]);
            assert(seq![first].drop_last() =~= Seq::<Ipv6Prefix>::empty());
            reveal_with_fuel(Seq::filter, 3);
        }
        if others.len() > 1 {
            Err(AdjacencyError::SeveralSiblings)
        } else if others.len() == 0 {
            Err(AdjacencyError::NoSibling)
        } else {
            Ok(AdjacentNets { own: value, parent, sibling: others[0] })
        }
    }
}

} // verus!
