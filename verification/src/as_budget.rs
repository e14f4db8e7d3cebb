//! A per-AS limit on the prefixes analysed in one schedule round, and the
//! admission of selected prefixes under a class's allocation and that limit.

use nohash_hasher::IntMap;
use vstd::prelude::*;

use crate::intmap::{int_map_entry_or_insert, int_map_new};
use crate::prefix::Ipv6Prefix;

verus! {

/// An autonomous system number.
pub type AsNumber = u32;

/// How many prefixes each AS may still have analysed in this round.
#[derive(Debug)]
pub struct AsBudgets {
    allocation_per_as: usize,
    consumed_per_as: IntMap<u64, usize>,
    exhausted_asns: Vec<AsNumber>,
}

/// The contents of [`AsBudgets`].
pub struct AsModel {
    /// Prefixes each AS may have analysed.
    pub allocation: int,
    /// Prefixes admitted per AS that asked.
    pub consumed: Map<AsNumber, usize>,
    /// ASes that reached their allocation, in the order they did.
    pub exhausted: Seq<AsNumber>,
}

/// Prefixes admitted for an AS so far.
pub open spec fn consumed_of(m: AsModel, asn: AsNumber) -> int {
    if m.consumed.contains_key(asn) {
        m.consumed[asn] as int
    } else {
        0
    }
}

/// The budgets after an AS asks for one more prefix: admitted while below
/// its allocation, and then recorded as exhausted when it reaches it.
pub open spec fn consumed_once(m: AsModel, asn: AsNumber) -> (AsModel, bool) {
    let before = consumed_of(m, asn);
    if before >= m.allocation {
        (AsModel { allocation: m.allocation, consumed: m.consumed.insert(asn, before as usize), exhausted: m.exhausted }, false)
    } else {
        (
            AsModel {
                allocation: m.allocation,
                consumed: m.consumed.insert(asn, (before + 1) as usize),
                exhausted: if before + 1 == m.allocation {
                    m.exhausted.push(asn)
                } else {
                    m.exhausted
                },
            },
            true,
        )
    }
}

/// No AS has more prefixes than its allocation, and the exhausted ASes are
/// those that reached a non-zero allocation, each once.
pub open spec fn as_model_wf(m: AsModel) -> bool {
    &&& 0 <= m.allocation <= usize::MAX
    &&& forall|a: AsNumber| #[trigger] m.consumed.contains_key(a) ==> m.consumed[a] <= m.allocation
    &&& m.exhausted.no_duplicates()
    &&& forall|a: AsNumber|
        #[trigger] m.exhausted.contains(a) <==> (m.allocation > 0 && consumed_of(m, a) == m.allocation)
}

/// Asking for a prefix keeps every AS within its allocation.
pub proof fn lemma_consumed_once_wf(m: AsModel, asn: AsNumber)
    requires
        as_model_wf(m),
    ensures
        as_model_wf(consumed_once(m, asn).0),
{
    let n = consumed_once(m, asn).0;
    let before = consumed_of(m, asn);
    if m.exhausted.contains(asn) {
        assert(consumed_of(m, asn) == m.allocation);
    }
    if before < m.allocation && before + 1 == m.allocation {
        assert(!m.exhausted.contains(asn));
        assert(n.exhausted == m.exhausted.push(asn));
        assert forall|a: AsNumber| #[trigger] n.exhausted.contains(a) <==> (m.exhausted.contains(a) || a == asn) by {
            if n.exhausted.contains(a) && a != asn {
                let i = choose|i: int| 0 <= i < n.exhausted.len() && n.exhausted[i] == a;
                assert(i < m.exhausted.len());
                assert(m.exhausted[i] == a);
            }
            if m.exhausted.contains(a) {
                let i = choose|i: int| 0 <= i < m.exhausted.len() && m.exhausted[i] == a;
                assert(n.exhausted[i] == a);
            }
            if a == asn {
                assert(n.exhausted[n.exhausted.len() - 1] == asn);
            }
        }
        assert forall|i: int, j: int| 0 <= i < n.exhausted.len() && 0 <= j < n.exhausted.len() && i != j implies n.exhausted[i]
            != n.exhausted[j] by {
            if i == n.exhausted.len() - 1 {
                assert(m.exhausted.contains(n.exhausted[j]) || j == i);
            } else if j == n.exhausted.len() - 1 {
                assert(m.exhausted.contains(n.exhausted[i]));
            }
        }
    }
    assert forall|a: AsNumber| #[trigger] n.exhausted.contains(a) <==> (n.allocation > 0 && consumed_of(n, a)
        == n.allocation) by {
        if a != asn {
            assert(consumed_of(n, a) == consumed_of(m, a));
            if before < m.allocation && before + 1 == m.allocation {
                assert(n.exhausted.contains(a) == m.exhausted.contains(a));
            } else {
                assert(n.exhausted == m.exhausted);
            }
            assert(m.exhausted.contains(a) <==> (m.allocation > 0 && consumed_of(m, a) == m.allocation));
        } else if before >= m.allocation {
            assert(before == m.allocation);
            assert(consumed_of(n, a) == before);
            assert(n.exhausted == m.exhausted);
            assert(m.exhausted.contains(a) <==> (m.allocation > 0 && consumed_of(m, a) == m.allocation));
        } else if before + 1 < m.allocation {
            assert(consumed_of(n, a) == before + 1);
            assert(n.exhausted == m.exhausted);
            assert(m.exhausted.contains(a) <==> (m.allocation > 0 && consumed_of(m, a) == m.allocation));
        } else {
            assert(consumed_of(n, a) == m.allocation);
            assert(n.exhausted.contains(asn));
        }
    }
}

impl AsBudgets {
    pub closed spec fn model(self) -> AsModel {
        AsModel {
            allocation: self.allocation_per_as as int,
            consumed: Map::new(
                |a: AsNumber| self.consumed_per_as@.contains_key(a as u64),
                |a: AsNumber| self.consumed_per_as@[a as u64],
            ),
            exhausted: self.exhausted_asns@,
        }
    }

    /// The model holds, and the map holds only AS numbers.
    pub closed spec fn wf(self) -> bool {
        &&& as_model_wf(self.model())
        &&& forall|k: u64| #[trigger] self.consumed_per_as@.contains_key(k) ==> k <= u32::MAX
    }

    /// Budgets where each AS may have `allocation_per_as` prefixes analysed
    /// and none has had any.
    pub fn new(allocation_per_as: usize) -> (res: Self)
        ensures
            res.wf(),
            res.model().allocation == allocation_per_as,
            res.model().consumed == Map::<AsNumber, usize>::empty(),
            res.model().exhausted == Seq::<AsNumber>::empty(),
    {
        let res = AsBudgets { allocation_per_as, consumed_per_as: int_map_new(), exhausted_asns: Vec::new() };
        assert(res.model().consumed =~= Map::<AsNumber, usize>::empty());
        res
    }

    /// Admits one more prefix of an AS, if the AS is still below its
    /// allocation.
    pub fn try_consume(&mut self, asn: AsNumber) -> (res: bool)
        requires
            old(self).wf(),
        ensures
            final(self).wf(),
            (final(self).model(), res) == consumed_once(old(self).model(), asn),
    {
        let ghost start = self.model();
        proof {
            lemma_consumed_once_wf(start, asn);
        }
        let consumed = int_map_entry_or_insert(&mut self.consumed_per_as, asn as u64, 0);
        assert(*consumed == consumed_of(start, asn));
        let res = if *consumed >= self.allocation_per_as {
            false
        } else {
            *consumed = *consumed + 1;
            if *consumed == self.allocation_per_as {
                self.exhausted_asns.push(asn);
            }
            true
        };
        proof {
            let (n, r) = consumed_once(start, asn);
            assert(self.model().consumed =~= n.consumed) by {
                assert forall|a: AsNumber| #[trigger] self.model().consumed.contains_key(a) == n.consumed.contains_key(a) by {
                    assert((a as u64 == asn as u64) == (a == asn));
                }
                assert forall|a: AsNumber| self.model().consumed.contains_key(a) implies #[trigger] self.model().consumed[a]
                    == n.consumed[a] by {
                    assert((a as u64 == asn as u64) == (a == asn));
                }
            }
        }
        res
    }

    /// Whether some AS reached its allocation.
    pub fn has_exhausted_asns(&self) -> (res: bool)
        ensures
            res == (self.model().exhausted.len() > 0),
    {
        !self.exhausted_asns.is_empty()
    }

    /// The ASes that reached their allocation, in the order they did.
    pub fn get_exhausted_asns(&self) -> (res: &[AsNumber])
        ensures
            res@ == self.model().exhausted,
    {
        self.exhausted_asns.as_slice()
    }
}

/// A prefix selected for analysis, with the AS that announces it.
#[derive(Debug, Clone, Copy, PartialEq, Eq)]
pub struct SelectedPrefix {
    pub net: Ipv6Prefix,
    pub asn: AsNumber,
}

/// The outcome of one round of admission: the admitted prefixes, and how
/// many were held back by their AS's limit alone.
#[derive(Debug)]
pub struct Admission {
    pub admitted: Vec<Ipv6Prefix>,
    pub suppressed_count: u32,
}

/// The state of an admission round.
pub struct AdmissionState {
    pub available: int,
    pub budgets: AsModel,
    pub admitted: Seq<Ipv6Prefix>,
    pub suppressed: int,
}

/// The admission state after the selected prefixes in order: once the
/// class's allocation is spent nothing more is admitted; otherwise a prefix
/// whose AS is below its limit is admitted and spends one slot, and one whose
/// AS is at its limit counts as suppressed.
pub open spec fn admitted_after(s: AdmissionState, selected: Seq<SelectedPrefix>) -> AdmissionState
    decreases selected.len(),
{
    if selected.len() == 0 {
        s
    } else {
        let t = admitted_after(s, selected.drop_last());
        let p = selected.last();
        if t.available == 0 {
            t
        } else {
            let (b, ok) = consumed_once(t.budgets, p.asn);
            if ok {
                AdmissionState {
                    available: t.available - 1,
                    budgets: b,
                    admitted: t.admitted.push(p.net),
                    suppressed: t.suppressed,
                }
            } else {
                AdmissionState { available: t.available, budgets: b, admitted: t.admitted, suppressed: t.suppressed + 1 }
            }
        }
    }
}

proof fn lemma_admitted_after_bounds(s: AdmissionState, selected: Seq<SelectedPrefix>)
    requires
        s.available >= 0,
        s.suppressed >= 0,
        as_model_wf(s.budgets),
    ensures
        0 <= admitted_after(s, selected).available <= s.available,
        s.suppressed <= admitted_after(s, selected).suppressed <= s.suppressed + selected.len(),
        as_model_wf(admitted_after(s, selected).budgets),
        admitted_after(s, selected).budgets.allocation == s.budgets.allocation,
    decreases selected.len(),
{
    if selected.len() > 0 {
        lemma_admitted_after_bounds(s, selected.drop_last());
        let t = admitted_after(s, selected.drop_last());
        lemma_consumed_once_wf(t.budgets, selected.last().asn);
    }
}

/// Admits selected prefixes in order while the class's allocation lasts,
/// each only if its AS is still below its limit.
pub fn admit_prefixes(selected: &[SelectedPrefix], available_allocation: &mut u32, as_budgets: &mut AsBudgets) -> (res: Admission)
    requires
        old(as_budgets).wf(),
        selected@.len() <= u32::MAX,
    ensures
        final(as_budgets).wf(),
        ({
            let s = admitted_after(
                AdmissionState {
                    available: *old(available_allocation) as int,
                    budgets: old(as_budgets).model(),
                    admitted: Seq::empty(),
                    suppressed: 0,
                },
                selected@,
            );
            &&& *final(available_allocation) == s.available
            &&& final(as_budgets).model() == s.budgets
            &&& res.admitted@ == s.admitted
            &&& res.suppressed_count == s.suppressed
        }),
{
    let ghost start = AdmissionState {
        available: *available_allocation as int,
        budgets: as_budgets.model(),
        admitted: Seq::empty(),
        suppressed: 0,
    };
    let mut admitted: Vec<Ipv6Prefix> = Vec::new();
    let mut suppressed_count: u32 = 0;
    let mut i: usize = 0;
    while i < selected.len()
        invariant
            i <= selected@.len() <= u32::MAX,
            as_budgets.wf(),
            start == (AdmissionState {
                available: *old(available_allocation) as int,
                budgets: old(as_budgets).model(),
                admitted: Seq::empty(),
                suppressed: 0,
            }),
            start.available >= 0,
            as_model_wf(start.budgets),
            ({
                let s = admitted_after(start, selected@.take(i as int));
                &&& *available_allocation == s.available
                &&& as_budgets.model() == s.budgets
                &&& admitted@ == s.admitted
                &&& suppressed_count == s.suppressed
            }),
            suppressed_count <= i,
        decreases selected@.len() - i,
    {
        proof {
            assert(selected@.take(i + 1).drop_last() =~= selected@.take(i as int));
            lemma_admitted_after_bounds(start, selected@.take(i as int));
        }
        if *available_allocation == 0 {
            proof {
                lemma_spent_stays(start, selected@, i as int);
                assert(selected@.take(selected@.len() as int) =~= selected@);
            }
            return Admission { admitted, suppressed_count };
        }
        let prefix = selected[i];
        if as_budgets.try_consume(prefix.asn) {
            admitted.push(prefix.net);
            *available_allocation = *available_allocation - 1;
        } else {
            suppressed_count = suppressed_count + 1;
        }
        i = i + 1;
    }
    proof {
        assert(selected@.take(i as int) =~= selected@);
    }
    Admission { admitted, suppressed_count }
}

/// Once the allocation is spent, further prefixes change nothing.
proof fn lemma_spent_stays(s: AdmissionState, selected: Seq<SelectedPrefix>, n: int)
    requires
        0 <= n <= selected.len(),
        admitted_after(s, selected.take(n)).available == 0,
    ensures
        admitted_after(s, selected) == admitted_after(s, selected.take(n)),
    decreases selected.len() - n,
{
    if n < selected.len() {
        assert(selected.drop_last().take(n) =~= selected.take(n));
        lemma_spent_stays(s, selected.drop_last(), n);
    } else {
        assert(selected.take(n) =~= selected);
    }
}

/// Whether a class is worth another round: some prefixes were held back by
/// their AS's limit alone, and the class's allocation is not yet spent.
pub fn keep_filling(suppressed_count: u32, available_allocation: u32) -> (res: bool)
    ensures
        res == (suppressed_count != 0 && available_allocation != 0),
{
    !(suppressed_count == 0 || available_allocation == 0)
}

/// How many rounds of admission a class gets at most.
pub const MAX_FILL_ROUNDS: u32 = 5;

/// Whether a class gets another round of admission after `rounds_done`
/// rounds: only within [`MAX_FILL_ROUNDS`], and only while it is worth one.
pub fn fill_again(rounds_done: u32, suppressed_count: u32, available_allocation: u32) -> (res: bool)
    ensures
        res == (rounds_done < MAX_FILL_ROUNDS && suppressed_count != 0 && available_allocation != 0),
{
    rounds_done < MAX_FILL_ROUNDS && keep_filling(suppressed_count, available_allocation)
}

} // verus!
