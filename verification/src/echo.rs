//! Analysis of an echo probe response: what each group of responses says
//! about the targets' /64 networks, and which targets deserve a follow-up
//! trace.

use vstd::prelude::*;

use crate::interpretation::{
    counts_at_most, lemma_registered_all_bound, registered_all, Interpretation, PrefixModel, Registration,
};
use crate::measurement::{LhrSource, WeirdType};

verus! {

/// The code of a destination-unreachable response.
#[derive(Debug, Clone, Copy, PartialEq, Eq)]
pub enum DestUnreachKind {
    NoRoute,
    AdminProhibited,
    AddressUnreachable,
    PortUnreachable,
    /// Any other code.
    Other(u8),
}

/// What a group of probes was answered with.
#[derive(Debug)]
pub enum ResponseKey {
    DestinationUnreachable { kind: DestUnreachKind, from: u128 },
    EchoReply { different_from: Option<u128> },
    Other { from: u128, description: String },
    NoResponse,
    TimeExceeded { from: u128 },
}

/// The targets whose probes were answered the same way.
#[derive(Debug)]
pub struct Responses {
    pub key: ResponseKey,
    pub intended_targets: Vec<u128>,
}

/// The responses for the probes into one part of a prefix.
#[derive(Debug)]
pub struct SplitResult {
    pub responses: Vec<Responses>,
}

/// An echo probe response: the responses for each part of the probed prefix.
#[derive(Debug)]
pub struct EchoProbeResponse {
    pub splits: Vec<SplitResult>,
}

/// Targets for a follow-up trace; `for_responsive` tells whether they
/// answered the echo probe.
#[derive(Debug)]
pub struct EchoFollowUp {
    pub targets: Vec<u128>,
    pub for_responsive: bool,
}

/// What an echo probe response says: an interpretation per /64 network and
/// the follow-up traces it calls for.
#[derive(Debug)]
pub struct EchoResult {
    pub parent: Interpretation,
    pub follow_ups: Vec<EchoFollowUp>,
}

impl EchoResult {
    pub open spec fn model(self) -> Map<u64, PrefixModel> {
        self.parent.model()
    }

    /// The interpretation per /64 network.
    pub fn interpretation(&self) -> (res: &Interpretation)
        ensures
            res.model() == self.model(),
    {
        &self.parent
    }

    /// The interpretation per /64 network, taking the result apart.
    pub fn into_interpretation(self) -> (res: Interpretation)
        ensures
            res.model() == self.model(),
    {
        self.parent
    }

    /// Whether a follow-up trace is called for.
    pub fn needs_follow_up(&self) -> (res: bool)
        ensures
            res == (self.follow_ups@.len() > 0),
    {
        !self.follow_ups.is_empty()
    }
}

/// The router source of a destination-unreachable code, or the code itself
/// where it names no router.
pub open spec fn kind_source(kind: DestUnreachKind) -> Result<LhrSource, u8> {
    match kind {
        DestUnreachKind::NoRoute => Ok(LhrSource::UnreachRoute),
        DestUnreachKind::AdminProhibited => Ok(LhrSource::UnreachAdmin),
        DestUnreachKind::AddressUnreachable => Ok(LhrSource::UnreachAddr),
        DestUnreachKind::PortUnreachable => Ok(LhrSource::UnreachPort),
        DestUnreachKind::Other(code) => Err(code),
    }
}

/// The router source of a destination-unreachable code, or the code itself
/// where it names no router.
pub fn kind_to_source(kind: &DestUnreachKind) -> (res: Result<LhrSource, u8>)
    ensures
        res == kind_source(*kind),
{
    match kind {
        DestUnreachKind::NoRoute => Ok(LhrSource::UnreachRoute),
        DestUnreachKind::AdminProhibited => Ok(LhrSource::UnreachAdmin),
        DestUnreachKind::AddressUnreachable => Ok(LhrSource::UnreachAddr),
        DestUnreachKind::PortUnreachable => Ok(LhrSource::UnreachPort),
        DestUnreachKind::Other(code) => Err(*code),
    }
}

/// The weird kind of a destination-unreachable code that names no router.
pub open spec fn unreach_weird(code: u8) -> WeirdType {
    if code == 5 {
        WeirdType::DestUnreachFailedEgress
    } else if code == 6 {
        WeirdType::DestUnreachRejectRoute
    } else {
        WeirdType::DestUnreachOther
    }
}

/// The weird kind of a destination-unreachable code that names no router.
pub fn unreach_weird_of(code: u8) -> (res: WeirdType)
    ensures
        res == unreach_weird(code),
{
    match code {
        5 => WeirdType::DestUnreachFailedEgress,
        6 => WeirdType::DestUnreachRejectRoute,
        _ => WeirdType::DestUnreachOther,
    }
}

/// What a response means for each of its targets: a destination-unreachable
/// names a router (or is weird for codes that name none), a plain echo reply
/// counts as responsive, one from another address, an unexpected ICMP type
/// and a time-exceeded are weird, and no response counts as unresponsive.
pub open spec fn response_registration(key: ResponseKey) -> Registration {
    match key {
        ResponseKey::DestinationUnreachable { kind, from } => match kind_source(kind) {
            Ok(source) => Registration::Lhr { lhr: from, source },
            Err(code) => Registration::Weird { kind: unreach_weird(code).id_spec() },
        },
        ResponseKey::EchoReply { different_from } => match different_from {
            None => Registration::Responsive,
            Some(_) => Registration::Weird { kind: WeirdType::DifferentEchoReplySource.id_spec() },
        },
        ResponseKey::Other { .. } => Registration::Weird { kind: WeirdType::UnexpectedIcmpType.id_spec() },
        ResponseKey::NoResponse => Registration::Unresponsive,
        ResponseKey::TimeExceeded { .. } => Registration::Weird { kind: WeirdType::TtlExceededForEcho.id_spec() },
    }
}

/// The interpretation after the responses of one part, in order.
pub open spec fn split_interpretation(m: Map<u64, PrefixModel>, rs: Seq<Responses>) -> Map<u64, PrefixModel>
    decreases rs.len(),
{
    if rs.len() == 0 {
        m
    } else {
        registered_all(
            split_interpretation(m, rs.drop_last()),
            rs.last().intended_targets@,
            response_registration(rs.last().key),
        )
    }
}

/// The interpretation after the responses of all parts, in order.
pub open spec fn echo_interpretation(m: Map<u64, PrefixModel>, splits: Seq<SplitResult>) -> Map<
    u64,
    PrefixModel,
>
    decreases splits.len(),
{
    if splits.len() == 0 {
        m
    } else {
        split_interpretation(echo_interpretation(m, splits.drop_last()), splits.last().responses@)
    }
}

/// Follow-up targets gathered so far, and whether any of them answered.
pub struct Staged {
    pub targets: Seq<u128>,
    pub has_responsive: bool,
}

/// Staging targets that answered: the first answering targets replace the
/// unanswered ones gathered before, later ones are added.
pub open spec fn staged_responsive(s: Staged, targets: Seq<u128>) -> Staged {
    if !s.has_responsive {
        Staged { targets, has_responsive: true }
    } else {
        Staged { targets: s.targets + targets, has_responsive: true }
    }
}

/// Staging targets that stayed dark: kept only while no target answered.
pub open spec fn staged_unresponsive(s: Staged, targets: Seq<u128>) -> Staged {
    if !s.has_responsive {
        Staged { targets: s.targets + targets, has_responsive: false }
    } else {
        s
    }
}

/// The follow-up targets of one part's responses, in order: echo replies
/// stage their targets as answering, no response as dark; other responses
/// stage nothing.
pub open spec fn staged(rs: Seq<Responses>) -> Staged
    decreases rs.len(),
{
    if rs.len() == 0 {
        Staged { targets: Seq::empty(), has_responsive: false }
    } else {
        let before = staged(rs.drop_last());
        match rs.last().key {
            ResponseKey::EchoReply { .. } => staged_responsive(before, rs.last().intended_targets@),
            ResponseKey::NoResponse => staged_unresponsive(before, rs.last().intended_targets@),
            _ => before,
        }
    }
}

/// The follow-ups of all parts that staged any target, in order.
pub open spec fn echo_follow_ups(splits: Seq<SplitResult>) -> Seq<Staged>
    decreases splits.len(),
{
    if splits.len() == 0 {
        Seq::empty()
    } else {
        let before = echo_follow_ups(splits.drop_last());
        let s = staged(splits.last().responses@);
        if s.targets.len() == 0 {
            before
        } else {
            before.push(s)
        }
    }
}

/// The targets of the echo replies among some responses, in order.
pub open spec fn reply_targets(rs: Seq<Responses>) -> Seq<u128>
    decreases rs.len(),
{
    if rs.len() == 0 {
        Seq::empty()
    } else {
        match rs.last().key {
            ResponseKey::EchoReply { .. } => reply_targets(rs.drop_last()) + rs.last().intended_targets@,
            _ => reply_targets(rs.drop_last()),
        }
    }
}

/// The targets of the responses that stayed dark, in order.
pub open spec fn dark_targets(rs: Seq<Responses>) -> Seq<u128>
    decreases rs.len(),
{
    if rs.len() == 0 {
        Seq::empty()
    } else {
        match rs.last().key {
            ResponseKey::NoResponse => dark_targets(rs.drop_last()) + rs.last().intended_targets@,
            _ => dark_targets(rs.drop_last()),
        }
    }
}

/// Once targets that answered are staged, they stay preferred: staging
/// targets that answered always leaves answering targets staged, the first
/// such staging replaces what stayed dark, later ones add to it, and targets
/// that stay dark are no longer taken.
pub proof fn lemma_staging_prefers_responsive(s: Staged, answered: Seq<u128>, dark: Seq<u128>)
    ensures
        staged_responsive(s, answered).has_responsive,
        !s.has_responsive ==> staged_responsive(s, answered).targets == answered,
        s.has_responsive ==> staged_responsive(s, answered).targets == s.targets + answered,
        s.has_responsive ==> staged_unresponsive(s, dark) == s,
        staged_unresponsive(s, dark).has_responsive == s.has_responsive,
{
}

/// Follow-ups prefer targets that answered: where some response of a part is
/// an echo reply, its follow-up holds exactly the targets of the echo replies
/// and none that stayed dark; where none is, it holds the targets that stayed
/// dark.
pub proof fn lemma_follow_up_prefers_responsive(rs: Seq<Responses>)
    ensures
        (exists|i: int| 0 <= i < rs.len() && #[trigger] rs[i].key is EchoReply) ==> staged(rs) == (Staged {
            targets: reply_targets(rs),
            has_responsive: true,
        }),
        (forall|i: int| 0 <= i < rs.len() ==> !(#[trigger] rs[i].key is EchoReply)) ==> staged(rs) == (Staged {
            targets: dark_targets(rs),
            has_responsive: false,
        }),
    decreases rs.len(),
{
    if rs.len() > 0 {
        let init = rs.drop_last();
        lemma_follow_up_prefers_responsive(init);
        if exists|i: int| 0 <= i < init.len() && #[trigger] init[i].key is EchoReply {
            let i = choose|i: int| 0 <= i < init.len() && #[trigger] init[i].key is EchoReply;
            assert(rs[i] == init[i]);
        } else {
            assert forall|i: int| 0 <= i < init.len() implies !(#[trigger] init[i].key is EchoReply) by {}
            assert(reply_targets(init) =~= Seq::<u128>::empty()) by {
                lemma_no_replies(init);
            }
            if !(rs.last().key is EchoReply) {
                assert forall|i: int| 0 <= i < rs.len() implies !(#[trigger] rs[i].key is EchoReply) by {
                    if i < init.len() {
                        assert(rs[i] == init[i]);
                    }
                }
            }
        }
        if exists|i: int| 0 <= i < rs.len() && #[trigger] rs[i].key is EchoReply {
            let i = choose|i: int| 0 <= i < rs.len() && #[trigger] rs[i].key is EchoReply;
            if i < init.len() {
                assert(init[i] == rs[i]);
            }
        }
    }
}

proof fn lemma_no_replies(rs: Seq<Responses>)
    requires
        forall|i: int| 0 <= i < rs.len() ==> !(#[trigger] rs[i].key is EchoReply),
    ensures
        reply_targets(rs) == Seq::<u128>::empty(),
    decreases rs.len(),
{
    if rs.len() > 0 {
        let init = rs.drop_last();
        assert forall|i: int| 0 <= i < init.len() implies !(#[trigger] init[i].key is EchoReply) by {
            assert(init[i] == rs[i]);
        }
        lemma_no_replies(init);
        assert(!(rs[rs.len() - 1].key is EchoReply));
    }
}

/// All targets of one part's responses.
pub open spec fn split_targets(rs: Seq<Responses>) -> int
    decreases rs.len(),
{
    if rs.len() == 0 {
        0
    } else {
        split_targets(rs.drop_last()) + rs.last().intended_targets@.len()
    }
}

/// All targets of all parts.
pub open spec fn echo_targets(splits: Seq<SplitResult>) -> int
    decreases splits.len(),
{
    if splits.len() == 0 {
        0
    } else {
        echo_targets(splits.drop_last()) + split_targets(splits.last().responses@)
    }
}

impl EchoFollowUp {
    pub open spec fn staged(self) -> Staged {
        Staged { targets: self.targets@, has_responsive: self.for_responsive }
    }
}

/// Gathers the targets for a follow-up trace, preferring targets that
/// answered: once one answered, targets that stayed dark are dropped.
struct FollowUpCollector {
    targets: Vec<u128>,
    has_responsive: bool,
}

impl FollowUpCollector {
    spec fn staged(&self) -> Staged {
        Staged { targets: self.targets@, has_responsive: self.has_responsive }
    }

    fn new() -> (res: Self)
        ensures
            res.staged() == (Staged { targets: Seq::empty(), has_responsive: false }),
    {
        FollowUpCollector { targets: Vec::new(), has_responsive: false }
    }

    fn stage_responsive(&mut self, targets: &Vec<u128>)
        ensures
            final(self).staged() == staged_responsive(old(self).staged(), targets@),
    {
        if !self.has_responsive {
            self.targets = targets.clone();
            self.has_responsive = true;
            assert(self.targets@ =~= targets@);
        } else {
            let ghost before = self.targets@;
            self.targets.extend_from_slice(targets.as_slice());
            assert(self.targets@ =~= before + targets@);
        }
    }

    fn stage_unresponsive(&mut self, targets: &Vec<u128>)
        ensures
            final(self).staged() == staged_unresponsive(old(self).staged(), targets@),
    {
        if !self.has_responsive {
            let ghost before = self.targets@;
            self.targets.extend_from_slice(targets.as_slice());
            assert(self.targets@ =~= before + targets@);
        }
    }

    /// The follow-up, if any target was staged.
    fn into_follow_up(self) -> (res: Option<EchoFollowUp>)
        ensures
            self.staged().targets.len() == 0 ==> res is None,
            self.staged().targets.len() > 0 ==> res is Some && res->0.staged() == self.staged(),
    {
        if self.targets.is_empty() {
            None
        } else {
            Some(EchoFollowUp { targets: self.targets, for_responsive: self.has_responsive })
        }
    }
}

/// Registers one group of responses and stages its follow-up targets.
fn process_responses(result: &mut EchoResult, responses: &Responses, follow_up_collector: &mut FollowUpCollector)
    requires
        responses.intended_targets@.len() <= i32::MAX,
        counts_at_most(old(result).model(), i32::MAX - responses.intended_targets@.len()),
    ensures
        final(result).model() == registered_all(
            old(result).model(),
            responses.intended_targets@,
            response_registration(responses.key),
        ),
        final(result).follow_ups@ == old(result).follow_ups@,
        final(follow_up_collector).staged() == match responses.key {
            ResponseKey::EchoReply { .. } => staged_responsive(
                old(follow_up_collector).staged(),
                responses.intended_targets@,
            ),
            ResponseKey::NoResponse => staged_unresponsive(
                old(follow_up_collector).staged(),
                responses.intended_targets@,
            ),
            _ => old(follow_up_collector).staged(),
        },
{
    let targets = responses.intended_targets.as_slice();
    match &responses.key {
        ResponseKey::DestinationUnreachable { kind, from } => match kind_to_source(kind) {
            Ok(source) => result.parent.register_lhrs(targets, *from, source),
            Err(code) => {
                let typ = unreach_weird_of(code);
                result.parent.register_weirds(targets, typ);
            },
        },
        ResponseKey::EchoReply { different_from } => {
            follow_up_collector.stage_responsive(&responses.intended_targets);
            match different_from {
                None => result.parent.count_other_responsive(targets),
                Some(_) => result.parent.register_weirds(targets, WeirdType::DifferentEchoReplySource),
            }
        },
        ResponseKey::Other { .. } => result.parent.register_weirds(targets, WeirdType::UnexpectedIcmpType),
        ResponseKey::NoResponse => {
            follow_up_collector.stage_unresponsive(&responses.intended_targets);
            result.parent.count_unresponsive(targets);
        },
        ResponseKey::TimeExceeded { .. } => result.parent.register_weirds(targets, WeirdType::TtlExceededForEcho),
    }
}

/// Registers the responses of one part and adds its follow-up, if any.
fn process_split(result: &mut EchoResult, split: &SplitResult)
    requires
        0 <= split_targets(split.responses@) <= i32::MAX,
        counts_at_most(old(result).model(), i32::MAX - split_targets(split.responses@)),
    ensures
        final(result).model() == split_interpretation(old(result).model(), split.responses@),
        final(result).follow_ups@.len() <= old(result).follow_ups@.len() + 1,
        forall|i: int| 0 <= i < old(result).follow_ups@.len() ==> #[trigger] final(result).follow_ups@[i]
            == old(result).follow_ups@[i],
        staged(split.responses@).targets.len() == 0 ==> final(result).follow_ups@.len()
            == old(result).follow_ups@.len(),
        staged(split.responses@).targets.len() > 0 ==> final(result).follow_ups@.len()
            == old(result).follow_ups@.len() + 1 && final(result).follow_ups@.last().staged() == staged(
            split.responses@,
        ),
{
    let ghost rs = split.responses@;
    let ghost start = result.model();
    let ghost total = split_targets(rs);
    let mut follow_up_collector = FollowUpCollector::new();
    let mut i: usize = 0;
    proof {
        lemma_split_targets_nonneg(rs);
    }
    while i < split.responses.len()
        invariant
            rs == split.responses@,
            i <= rs.len(),
            total == split_targets(rs) <= i32::MAX,
            counts_at_most(start, i32::MAX - total),
            result.model() == split_interpretation(start, rs.take(i as int)),
            counts_at_most(result.model(), i32::MAX - total + split_targets(rs.take(i as int))),
            split_targets(rs.take(i as int)) <= total,
            result.follow_ups@ == old(result).follow_ups@,
            follow_up_collector.staged() == staged(rs.take(i as int)),
        decreases rs.len() - i,
    {
        let responses = &split.responses[i];
        proof {
            assert(rs.take(i + 1).drop_last() =~= rs.take(i as int));
            lemma_split_targets_prefix(rs, i + 1);
            lemma_split_targets_nonneg(rs.take(i as int));
            lemma_registered_all_bound(
                result.model(),
                responses.intended_targets@,
                response_registration(responses.key),
                i32::MAX - total + split_targets(rs.take(i as int)),
            );
        }
        process_responses(result, responses, &mut follow_up_collector);
        i = i + 1;
    }
    proof {
        assert(rs.take(i as int) =~= rs);
    }
    match follow_up_collector.into_follow_up() {
        Some(follow_up) => result.follow_ups.push(follow_up),
        None => {},
    }
}

proof fn lemma_split_targets_nonneg(rs: Seq<Responses>)
    ensures
        split_targets(rs) >= 0,
    decreases rs.len(),
{
    if rs.len() > 0 {
        lemma_split_targets_nonneg(rs.drop_last());
    }
}

/// The targets of a prefix of the responses are at most all targets.
proof fn lemma_split_targets_prefix(rs: Seq<Responses>, n: int)
    requires
        0 <= n <= rs.len(),
    ensures
        split_targets(rs.take(n)) <= split_targets(rs),
    decreases rs.len() - n,
{
    if n < rs.len() {
        lemma_split_targets_prefix(rs, n + 1);
        assert(rs.take(n + 1).drop_last() =~= rs.take(n));
    } else {
        assert(rs.take(n) =~= rs);
    }
}

proof fn lemma_echo_targets_nonneg(splits: Seq<SplitResult>)
    ensures
        echo_targets(splits) >= 0,
    decreases splits.len(),
{
    if splits.len() > 0 {
        lemma_echo_targets_nonneg(splits.drop_last());
        lemma_split_targets_nonneg(splits.last().responses@);
    }
}

proof fn lemma_echo_targets_prefix(splits: Seq<SplitResult>, n: int)
    requires
        0 <= n <= splits.len(),
    ensures
        echo_targets(splits.take(n)) <= echo_targets(splits),
    decreases splits.len() - n,
{
    if n < splits.len() {
        lemma_echo_targets_prefix(splits, n + 1);
        assert(splits.take(n + 1).drop_last() =~= splits.take(n));
        lemma_split_targets_nonneg(splits.take(n + 1).last().responses@);
    } else {
        assert(splits.take(n) =~= splits);
    }
}

/// Analyses an echo probe response: registers every group of responses of
/// every part at its targets' /64 networks, in order, and collects one
/// follow-up per part that staged any target.
pub fn process(model: &EchoProbeResponse) -> (res: EchoResult)
    requires
        echo_targets(model.splits@) <= i32::MAX,
    ensures
        res.model() == echo_interpretation(Map::empty(), model.splits@),
        res.follow_ups@.len() == echo_follow_ups(model.splits@).len(),
        forall|i: int|
            0 <= i < res.follow_ups@.len() ==> #[trigger] res.follow_ups@[i].staged() == echo_follow_ups(
                model.splits@,
            )[i],
{
    let ghost splits = model.splits@;
    let ghost total = echo_targets(splits);
    let mut result = EchoResult { parent: Interpretation::default(), follow_ups: Vec::new() };
    proof {
        lemma_echo_targets_nonneg(splits);
    }
    let mut i: usize = 0;
    while i < model.splits.len()
        invariant
            splits == model.splits@,
            i <= splits.len(),
            0 <= total == echo_targets(splits) <= i32::MAX,
            result.model() == echo_interpretation(Map::empty(), splits.take(i as int)),
            counts_at_most(result.model(), echo_targets(splits.take(i as int))),
            echo_targets(splits.take(i as int)) <= total,
            result.follow_ups@.len() == echo_follow_ups(splits.take(i as int)).len(),
            forall|j: int|
                0 <= j < result.follow_ups@.len() ==> #[trigger] result.follow_ups@[j].staged()
                    == echo_follow_ups(splits.take(i as int))[j],
        decreases splits.len() - i,
    {
        let split = &model.splits[i];
        let ghost prev = result.follow_ups@;
        proof {
            let before = splits.take(i as int);
            assert(splits.take(i + 1).drop_last() =~= before);
            lemma_echo_targets_prefix(splits, i + 1);
            lemma_echo_targets_nonneg(before);
            lemma_split_targets_nonneg(split.responses@);
            lemma_split_interpretation_bound(result.model(), split.responses@, echo_targets(before));
        }
        process_split(&mut result, split);
        proof {
            let next = echo_follow_ups(splits.take(i + 1));
            assert forall|j: int| 0 <= j < result.follow_ups@.len() implies #[trigger] result.follow_ups@[j].staged()
                == next[j] by {
                if j < prev.len() {
                    assert(result.follow_ups@[j] == prev[j]);
                }
            }
        }
        i = i + 1;
    }
    proof {
        assert(splits.take(i as int) =~= splits);
    }
    result
}

/// Registering one part's responses raises no counter by more than the
/// part's number of targets.
proof fn lemma_split_interpretation_bound(m: Map<u64, PrefixModel>, rs: Seq<Responses>, b: int)
    requires
        0 <= b,
        counts_at_most(m, b),
    ensures
        counts_at_most(split_interpretation(m, rs), b + split_targets(rs)),
    decreases rs.len(),
{
    if rs.len() > 0 {
        lemma_split_interpretation_bound(m, rs.drop_last(), b);
        lemma_split_targets_nonneg(rs.drop_last());
        lemma_registered_all_bound(
            split_interpretation(m, rs.drop_last()),
            rs.last().intended_targets@,
            response_registration(rs.last().key),
            b + split_targets(rs.drop_last()),
        );
    }
}

} // verus!
