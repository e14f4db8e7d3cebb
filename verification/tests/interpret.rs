use aggregator::echo::{
    kind_to_source, process as process_echo, unreach_weird_of, DestUnreachKind, EchoProbeResponse, ResponseKey,
    Responses, SplitResult,
};
use aggregator::interpretation::{Interpretation, LastHopRouter, Prefix, WeirdNode};
use aggregator::measurement::{LhrSource, LhrSources, WeirdType};
use aggregator::prefix::Ipv6Prefix;
use aggregator::trace::{process as process_trace, LastHop, TraceOutcome, TraceResponse, TraceResponseType};

const NET_A: u128 = 0x2001_0db8_0000_0001 << 64;
const NET_B: u128 = 0x2001_0db8_0000_0002 << 64;
const ROUTER: u128 = 0x2001_0db8_ffff_0000_0000_0000_0000_0001;

fn drained(mut interp: Interpretation) -> Vec<(Ipv6Prefix, Prefix)> {
    let mut out = interp.drain();
    assert_eq!(interp.len(), 0);
    out.sort_by_key(|(net, _)| net.addr);
    out
}

#[test]
fn last_hop_router_register_counts_and_sources() {
    let mut lhr = LastHopRouter::default();
    lhr.register(LhrSource::Trace);
    lhr.register(LhrSource::UnreachPort);
    lhr.register(LhrSource::Trace);
    assert_eq!(lhr.hit_count, 3);
    assert!(lhr.sources.contains(LhrSource::Trace));
    assert!(lhr.sources.contains(LhrSource::UnreachPort));
    assert!(!lhr.sources.contains(LhrSource::UnreachAddr));
}

#[test]
fn weird_node_register_counts() {
    let mut node = WeirdNode::default();
    node.register();
    node.register();
    assert_eq!(node.hit_count, 2);
}

#[test]
fn prefix_register_lhr_counts_responsive() {
    let mut prefix = Prefix::default();
    prefix.register_lhr(ROUTER, LhrSource::UnreachAddr);
    prefix.register_weird(WeirdType::TtlExceededForEcho);
    assert_eq!(prefix.responsive_count, 2);
    assert_eq!(prefix.unresponsive_count, 0);
    assert_eq!(prefix.last_hop_routers[&ROUTER].hit_count, 1);
    assert_eq!(prefix.weird[&WeirdType::TtlExceededForEcho.id()].hit_count, 1);
}

#[test]
fn interpretation_groups_by_net64() {
    let mut interp = Interpretation::default();
    interp.register_lhrs(&[NET_A | 1, NET_A | 2, NET_B | 3], ROUTER, LhrSource::Trace);
    interp.count_unresponsive(&[NET_A | 5]);
    interp.count_other_responsive(&[NET_B | 7]);
    assert_eq!(interp.len(), 2);
    let out = drained(interp);
    assert_eq!(out[0].0, Ipv6Prefix { addr: NET_A, len: 64 });
    assert_eq!(out[0].1.last_hop_routers[&ROUTER].hit_count, 2);
    assert_eq!(out[0].1.responsive_count, 2);
    assert_eq!(out[0].1.unresponsive_count, 1);
    assert_eq!(out[1].0, Ipv6Prefix { addr: NET_B, len: 64 });
    assert_eq!(out[1].1.responsive_count, 2);
    assert_eq!(out[1].1.last_hop_routers[&ROUTER].hit_count, 1);
}

#[test]
fn kind_to_source_each_kind() {
    assert_eq!(kind_to_source(&DestUnreachKind::NoRoute), Ok(LhrSource::UnreachRoute));
    assert_eq!(kind_to_source(&DestUnreachKind::AdminProhibited), Ok(LhrSource::UnreachAdmin));
    assert_eq!(kind_to_source(&DestUnreachKind::AddressUnreachable), Ok(LhrSource::UnreachAddr));
    assert_eq!(kind_to_source(&DestUnreachKind::PortUnreachable), Ok(LhrSource::UnreachPort));
    assert_eq!(kind_to_source(&DestUnreachKind::Other(5)), Err(5));
}

#[test]
fn unreach_weird_codes() {
    assert_eq!(unreach_weird_of(5), WeirdType::DestUnreachFailedEgress);
    assert_eq!(unreach_weird_of(6), WeirdType::DestUnreachRejectRoute);
    assert_eq!(unreach_weird_of(7), WeirdType::DestUnreachOther);
}

fn responses(key: ResponseKey, targets: Vec<u128>) -> Responses {
    Responses { key, intended_targets: targets }
}

#[test]
fn echo_registers_every_response_kind() {
    let model = EchoProbeResponse {
        splits: vec![SplitResult {
            responses: vec![
                responses(
                    ResponseKey::DestinationUnreachable { kind: DestUnreachKind::AddressUnreachable, from: ROUTER },
                    vec![NET_A | 1, NET_A | 2],
                ),
                responses(
                    ResponseKey::DestinationUnreachable { kind: DestUnreachKind::Other(6), from: ROUTER },
                    vec![NET_A | 3],
                ),
                responses(ResponseKey::EchoReply { different_from: None }, vec![NET_A | 4]),
                responses(ResponseKey::EchoReply { different_from: Some(ROUTER) }, vec![NET_A | 5]),
                responses(ResponseKey::Other { from: ROUTER, description: "x".to_string() }, vec![NET_A | 6]),
                responses(ResponseKey::TimeExceeded { from: ROUTER }, vec![NET_A | 7]),
                responses(ResponseKey::NoResponse, vec![NET_A | 8, NET_B | 9]),
            ],
        }],
    };
    let result = process_echo(&model);
    assert_eq!(result.interpretation().len(), 2);
    let out = drained(result.into_interpretation());
    let a = &out[0].1;
    assert_eq!(a.responsive_count, 7);
    assert_eq!(a.unresponsive_count, 1);
    let lhr = &a.last_hop_routers[&ROUTER];
    assert_eq!(lhr.hit_count, 2);
    assert_eq!(lhr.sources, LhrSources::single(LhrSource::UnreachAddr));
    assert_eq!(a.weird[&WeirdType::DestUnreachRejectRoute.id()].hit_count, 1);
    assert_eq!(a.weird[&WeirdType::DifferentEchoReplySource.id()].hit_count, 1);
    assert_eq!(a.weird[&WeirdType::UnexpectedIcmpType.id()].hit_count, 1);
    assert_eq!(a.weird[&WeirdType::TtlExceededForEcho.id()].hit_count, 1);
    let b = &out[1].1;
    assert_eq!(b.responsive_count, 0);
    assert_eq!(b.unresponsive_count, 1);
}

#[test]
fn echo_follow_up_prefers_responsive_targets() {
    let model = EchoProbeResponse {
        splits: vec![
            SplitResult {
                responses: vec![
                    responses(ResponseKey::NoResponse, vec![NET_A | 1]),
                    responses(ResponseKey::EchoReply { different_from: None }, vec![NET_A | 2]),
                    responses(ResponseKey::NoResponse, vec![NET_A | 3]),
                    responses(ResponseKey::EchoReply { different_from: None }, vec![NET_A | 4]),
                ],
            },
            SplitResult { responses: vec![responses(ResponseKey::NoResponse, vec![NET_B | 1, NET_B | 2])] },
            SplitResult {
                responses: vec![responses(
                    ResponseKey::DestinationUnreachable { kind: DestUnreachKind::NoRoute, from: ROUTER },
                    vec![NET_B | 3],
                )],
            },
        ],
    };
    let result = process_echo(&model);
    assert!(result.needs_follow_up());
    assert_eq!(result.follow_ups.len(), 2);
    assert_eq!(result.follow_ups[0].targets, vec![NET_A | 2, NET_A | 4]);
    assert!(result.follow_ups[0].for_responsive);
    assert_eq!(result.follow_ups[1].targets, vec![NET_B | 1, NET_B | 2]);
    assert!(!result.follow_ups[1].for_responsive);
}

#[test]
fn echo_without_replies_or_silence_needs_no_follow_up() {
    let model = EchoProbeResponse {
        splits: vec![SplitResult {
            responses: vec![responses(ResponseKey::TimeExceeded { from: ROUTER }, vec![NET_A | 1])],
        }],
    };
    let result = process_echo(&model);
    assert!(!result.needs_follow_up());
}

fn hop(target: u128, typ: TraceResponseType, ttl: Option<u8>) -> TraceOutcome {
    TraceOutcome::LastResponsiveHop(LastHop {
        target_addr: target,
        last_hop_addr: ROUTER,
        response_type: typ,
        target_ttl: ttl,
    })
}

#[test]
fn trace_registers_each_outcome() {
    let model = TraceResponse {
        id: 42,
        results: vec![
            hop(NET_A | 1, TraceResponseType::TimeExceeded, Some(3)),
            hop(NET_A | 2, TraceResponseType::DestinationUnreachable { kind: DestUnreachKind::PortUnreachable }, None),
            hop(NET_A | 3, TraceResponseType::DestinationUnreachable { kind: DestUnreachKind::Other(5) }, None),
            hop(NET_A | 4, TraceResponseType::EchoReply, Some(9)),
            hop(NET_B | 5, TraceResponseType::EchoReply, None),
            TraceOutcome::NoResponse { target_addr: NET_B | 6 },
        ],
    };
    let result = process_trace(&model);
    assert_eq!(result.id, 42);
    let out = drained(result.parent);
    let a = &out[0].1;
    assert_eq!(a.responsive_count, 4);
    let lhr = &a.last_hop_routers[&ROUTER];
    assert_eq!(lhr.hit_count, 2);
    assert!(lhr.sources.contains(LhrSource::Trace));
    assert!(lhr.sources.contains(LhrSource::UnreachPort));
    assert_eq!(a.weird[&WeirdType::DestUnreachFailedEgress.id()].hit_count, 1);
    assert_eq!(a.weird[&WeirdType::EchoReplyInTrace.id()].hit_count, 1);
    let b = &out[1].1;
    assert_eq!(b.weird[&WeirdType::DifferentEchoReplySource.id()].hit_count, 1);
    assert_eq!(b.responsive_count, 1);
    assert_eq!(b.unresponsive_count, 1);
}
