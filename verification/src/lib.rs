//! Verified core of the prefix aggregator: IPv6 prefix arithmetic, the ltree
//! path encoding of prefixes, per-/64 bookkeeping of probe responses,
//! measurement forests and the split recommendation for a prefix.

pub mod prefix;
pub mod intmap;
pub mod path;
pub mod map64;
pub mod measurement;
pub mod subnet;
pub mod recommend;
pub mod confidence;
pub mod interpretation;
pub mod echo;
pub mod trace;
pub mod forest;
pub mod class_budget;
pub mod as_budget;
pub mod follow_up;
pub mod analysis;
pub mod split;
pub mod collapse;
pub mod adjacent;
pub mod save;
