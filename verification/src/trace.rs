//! Analysis of a trace response: the last responsive hop towards each target
//! names its last-hop router, or is a weird response.

use vstd::prelude::*;

use crate::echo::{kind_source, kind_to_source, unreach_weird, unreach_weird_of, DestUnreachKind};
use crate::interpretation::{
    counts_at_most, lemma_registered_all_bound, registered_all, Interpretation, PrefixModel, Registration,
};
use crate::measurement::{LhrSource, WeirdType};

verus! {

/// Identifies a trace request and its response.
pub type TraceRequestId = u128;

/// How the last responsive hop of a trace answered.
#[derive(Debug, Clone, Copy, PartialEq, Eq)]
pub enum TraceResponseType {
    DestinationUnreachable { kind: DestUnreachKind },
    EchoReply,
    TimeExceeded,
}

/// The last responsive hop of a trace towards a target.
#[derive(Debug, Clone, Copy, PartialEq, Eq)]
pub struct LastHop {
    pub target_addr: u128,
    pub last_hop_addr: u128,
    pub response_type: TraceResponseType,
    /// The hop limit the answering probe was sent with, if it was limited.
    pub target_ttl: Option<u8>,
}

/// The outcome of a trace towards one target.
#[derive(Debug, Clone, Copy, PartialEq, Eq)]
pub enum TraceOutcome {
    LastResponsiveHop(LastHop),
    NoResponse { target_addr: u128 },
}

/// A trace response: the outcome for each traced target.
#[derive(Debug)]
pub struct TraceResponse {
    pub id: TraceRequestId,
    pub results: Vec<TraceOutcome>,
}

/// What a trace response says, per /64 network.
#[derive(Debug)]
pub struct TraceResult {
    pub id: TraceRequestId,
    pub parent: Interpretation,
}

impl TraceResult {
    fn new(id: TraceRequestId) -> (res: Self)
        ensures
            res.id == id,
            res.parent.model() == Map::<u64, PrefixModel>::empty(),
    {
        TraceResult { id, parent: Interpretation::default() }
    }
}

/// What the last responsive hop means for its target: a time-exceeded names
/// the hop as router seen by trace, a destination-unreachable names it with
/// the code's source (or is weird for codes that name none), and an echo
/// reply is weird: as an answer to a hop-limited probe, or as one from
/// another address.
pub open spec fn hop_registration(hop: LastHop) -> Registration {
    match hop.response_type {
        TraceResponseType::DestinationUnreachable { kind } => match kind_source(kind) {
            Ok(source) => Registration::Lhr { lhr: hop.last_hop_addr, source },
            Err(code) => Registration::Weird { kind: unreach_weird(code).id_spec() },
        },
        TraceResponseType::EchoReply => Registration::Weird {
            kind: if hop.target_ttl is Some {
                WeirdType::EchoReplyInTrace.id_spec()
            } else {
                WeirdType::DifferentEchoReplySource.id_spec()
            },
        },
        TraceResponseType::TimeExceeded => Registration::Lhr { lhr: hop.last_hop_addr, source: LhrSource::Trace },
    }
}

/// The interpretation after the outcome for each target in turn; a target
/// without response counts as unresponsive.
pub open spec fn trace_interpretation(m: Map<u64, PrefixModel>, results: Seq<TraceOutcome>) -> Map<
    u64,
    PrefixModel,
>
    decreases results.len(),
{
    if results.len() == 0 {
        m
    } else {
        let before = trace_interpretation(m, results.drop_last());
        match results.last() {
            TraceOutcome::LastResponsiveHop(hop) => registered_all(
                before,
                seq![hop.target_addr],
                hop_registration(hop),
            ),
            TraceOutcome::NoResponse { target_addr } => registered_all(
                before,
                seq![target_addr],
                Registration::Unresponsive,
            ),
        }
    }
}

/// Registers the last responsive hop towards a target.
fn register_as_lhr(result: &mut TraceResult, hop: &LastHop)
    requires
        counts_at_most(old(result).parent.model(), i32::MAX - 1),
    ensures
        final(result).id == old(result).id,
        final(result).parent.model() == registered_all(
            old(result).parent.model(),
            seq![hop.target_addr],
            hop_registration(*hop),
        ),
{
    let targets = [hop.target_addr];
    assert(targets@ =~= seq![hop.target_addr]);
    let source = match hop.response_type {
        TraceResponseType::DestinationUnreachable { kind } => match kind_to_source(&kind) {
            Ok(source) => source,
            Err(code) => {
                let typ = unreach_weird_of(code);
                result.parent.register_weirds(&targets, typ);
                return;
            },
        },
        TraceResponseType::EchoReply => {
            let weird = if hop.target_ttl.is_some() {
                WeirdType::EchoReplyInTrace
            } else {
                WeirdType::DifferentEchoReplySource
            };
            result.parent.register_weirds(&targets, weird);
            return;
        },
        TraceResponseType::TimeExceeded => LhrSource::Trace,
    };
    result.parent.register_lhrs(&targets, hop.last_hop_addr, source)
}

/// Analyses a trace response: registers the outcome for each target at its
/// /64 network, in order.
pub fn process(model: &TraceResponse) -> (res: TraceResult)
    requires
        model.results@.len() <= i32::MAX,
    ensures
        res.id == model.id,
        res.parent.model() == trace_interpretation(Map::empty(), model.results@),
{
    let ghost results = model.results@;
    let mut result = TraceResult::new(model.id);
    let mut i: usize = 0;
    while i < model.results.len()
        invariant
            results == model.results@,
            results.len() <= i32::MAX,
            i <= results.len(),
            result.id == model.id,
            result.parent.model() == trace_interpretation(Map::empty(), results.take(i as int)),
            counts_at_most(result.parent.model(), i as int),
        decreases results.len() - i,
    {
        proof {
            assert(results.take(i + 1).drop_last() =~= results.take(i as int));
        }
        let ghost before = result.parent.model();
        match &model.results[i] {
            TraceOutcome::LastResponsiveHop(hop) => {
                proof {
                    lemma_registered_all_bound(before, seq![hop.target_addr], hop_registration(*hop), i as int);
                }
                register_as_lhr(&mut result, hop);
            },
            TraceOutcome::NoResponse { target_addr } => {
                let targets = [*target_addr];
                assert(targets@ =~= seq![*target_addr]);
                proof {
                    lemma_registered_all_bound(before, seq![*target_addr], Registration::Unresponsive, i as int);
                }
                result.parent.count_unresponsive(&targets);
            },
        }
        i = i + 1;
    }
    proof {
        assert(results.take(i as int) =~= results);
    }
    result
}

} // verus!
