//! The mathematical model of a multiplexed timer.
//!
//! A timer is a row of slots, one per event ordinal; each slot holds the
//! pending deadline of its event, if any. One of the pending events is armed:
//! it is the one the single underlying sleep waits for.
use vstd::prelude::*;

verus! {

/// How to handle coalescing deadlines for the same event ordinal.
#[derive(Clone, Copy, PartialEq, Eq, Structural, Debug)]
pub enum CoalesceMode {
    /// Retain the earliest deadline for the event.
    Earliest,
    /// Retain the latest deadline for the event.
    Latest,
}

/// The abstract state of a timer: the pending deadline of each ordinal and
/// the ordinal that is armed, if any.
pub struct TimerState {
    pub deadlines: Seq<Option<u64>>,
    pub armed: Option<nat>,
}

/// Some event has a pending deadline.
pub open spec fn pending(ds: Seq<Option<u64>>) -> bool {
    exists|j: int| 0 <= j < ds.len() && (#[trigger] ds[j]) is Some
}

/// The event `i` is pending and no pending event is due before it.
pub open spec fn is_soonest(ds: Seq<Option<u64>>, i: int) -> bool {
    &&& 0 <= i < ds.len()
    &&& ds[i] is Some
    &&& forall|j: int| 0 <= j < ds.len() && (#[trigger] ds[j]) is Some ==> ds[i]->0 <= ds[j]->0
}

/// The event `i` is a soonest event, and every event with a lower ordinal
/// is due strictly later: `i` is the lowest ordinal among the soonest ones.
pub open spec fn is_first_soonest(ds: Seq<Option<u64>>, i: int) -> bool {
    &&& is_soonest(ds, i)
    &&& forall|j: int| 0 <= j < i && (#[trigger] ds[j]) is Some ==> ds[i]->0 < ds[j]->0
}

/// The lowest ordinal among the events that are due first, if any is pending.
pub open spec fn soonest(ds: Seq<Option<u64>>) -> Option<nat> {
    if exists|i: int| is_first_soonest(ds, i) {
        Some((choose|i: int| is_first_soonest(ds, i)) as nat)
    } else {
        None
    }
}

/// A new deadline for an event that already has `slot` is refused when the
/// kept one already wins under `mode`.
pub open spec fn rejects(slot: Option<u64>, deadline: u64, mode: CoalesceMode) -> bool {
    match slot {
        Some(d) => match mode {
            CoalesceMode::Earliest => d < deadline,
            CoalesceMode::Latest => d > deadline,
        },
        None => false,
    }
}

/// The deadline that an event keeps when `deadline` is coalesced into `slot`.
pub open spec fn coalesce(slot: Option<u64>, deadline: u64, mode: CoalesceMode) -> u64 {
    match slot {
        None => deadline,
        Some(d) => match mode {
            CoalesceMode::Earliest => if d <= deadline { d } else { deadline },
            CoalesceMode::Latest => if d >= deadline { d } else { deadline },
        },
    }
}

impl TimerState {
    /// The armed event is a soonest pending event, and the timer is armed
    /// exactly when some event is pending.
    pub open spec fn wf(self) -> bool {
        match self.armed {
            Some(a) => is_soonest(self.deadlines, a as int),
            None => !pending(self.deadlines),
        }
    }

    /// The deadline the timer waits for, if armed.
    pub open spec fn next_deadline(self) -> Option<u64> {
        match self.armed {
            Some(a) => self.deadlines[a as int],
            None => None,
        }
    }

    /// The state after a request to fire event `o` at `deadline`.
    pub open spec fn after_fire_at(self, o: nat, deadline: u64, mode: CoalesceMode) -> TimerState {
        if rejects(self.deadlines[o as int], deadline, mode) {
            self
        } else {
            let ds = self.deadlines.update(o as int, Some(deadline));
            let armed = match self.next_deadline() {
                None => Some(o),
                Some(cur) => if deadline < cur {
                    Some(o)
                } else if mode == CoalesceMode::Latest && self.armed == Some(o) {
                    soonest(ds)
                } else {
                    self.armed
                },
            };
            TimerState { deadlines: ds, armed }
        }
    }

    /// The state after cancelling event `o`.
    pub open spec fn after_cancel(self, o: nat) -> TimerState {
        if self.deadlines[o as int] is None {
            self
        } else {
            let ds = self.deadlines.update(o as int, None);
            let armed = if self.armed == Some(o) { soonest(ds) } else { self.armed };
            TimerState { deadlines: ds, armed }
        }
    }

    /// The ordinal and deadline of the armed event, which fires next.
    pub open spec fn fired_event(self) -> (nat, u64) {
        (self.armed->0, self.deadlines[self.armed->0 as int]->0)
    }

    /// The events reported by `k` successive firings, in the order they fire.
    pub open spec fn expire_events(self, k: nat) -> Seq<(nat, u64)>
        decreases k,
    {
        if k == 0 {
            Seq::empty()
        } else {
            seq![self.fired_event()] + self.after_expire().expire_events((k - 1) as nat)
        }
    }

    /// The state after `k` successive firings.
    pub open spec fn after_expires(self, k: nat) -> TimerState
        decreases k,
    {
        if k == 0 {
            self
        } else {
            self.after_expire().after_expires((k - 1) as nat)
        }
    }

    /// The state after the armed event has fired.
    pub open spec fn after_expire(self) -> TimerState {
        let ds = self.deadlines.update(self.armed->0 as int, None);
        TimerState { deadlines: ds, armed: soonest(ds) }
    }
}

/// The number of pending events.
pub open spec fn pending_count(ds: Seq<Option<u64>>) -> nat
    decreases ds.len(),
{
    if ds.len() == 0 {
        0
    } else {
        pending_count(ds.drop_last()) + if ds.last() is Some { 1nat } else { 0nat }
    }
}

/// No event is pending exactly when the count of pending events is zero.
pub proof fn lemma_pending_count_zero(ds: Seq<Option<u64>>)
    ensures
        pending_count(ds) == 0 <==> !pending(ds),
    decreases ds.len(),
{
    if ds.len() > 0 {
        let p = ds.drop_last();
        lemma_pending_count_zero(p);
        if pending(p) {
            let j = choose|j: int| 0 <= j < p.len() && (#[trigger] p[j]) is Some;
            assert(ds[j] == p[j]);
        }
        if pending(ds) {
            let j = choose|j: int| 0 <= j < ds.len() && (#[trigger] ds[j]) is Some;
            if j < ds.len() - 1 {
                assert(p[j] == ds[j]);
            }
        }
        if ds.last() is Some {
            assert(ds[ds.len() - 1] is Some);
        }
    }
}

/// Clearing a pending slot lowers the count of pending events by one.
pub proof fn lemma_pending_count_clear(ds: Seq<Option<u64>>, i: int)
    requires
        0 <= i < ds.len(),
        ds[i] is Some,
    ensures
        pending_count(ds.update(i, None)) + 1 == pending_count(ds),
    decreases ds.len(),
{
    let u = ds.update(i, None);
    if i == ds.len() - 1 {
        assert(u.drop_last() =~= ds.drop_last());
    } else {
        assert(u.drop_last() =~= ds.drop_last().update(i, None));
        lemma_pending_count_clear(ds.drop_last(), i);
    }
}

/// The soonest event with the lowest ordinal is unique.
pub proof fn lemma_first_soonest_unique(ds: Seq<Option<u64>>, i: int, j: int)
    requires
        is_first_soonest(ds, i),
        is_first_soonest(ds, j),
    ensures
        i == j,
{
    if i < j {
        assert(ds[i] is Some);
    } else if j < i {
        assert(ds[j] is Some);
    }
}

/// Among the first `n` slots, some event with the lowest ordinal among the
/// soonest ones exists as soon as one of them is pending.
proof fn lemma_first_soonest_prefix(ds: Seq<Option<u64>>, n: int)
    requires
        0 <= n <= ds.len(),
        exists|j: int| 0 <= j < n && (#[trigger] ds[j]) is Some,
    ensures
        exists|i: int| 0 <= i < n && is_first_soonest(ds.take(n), i),
    decreases n,
{
    let p = ds.take(n);
    let q = ds.take(n - 1);
    assert forall|k: int| 0 <= k < n - 1 implies #[trigger] q[k] == p[k] by {}
    if exists|j: int| 0 <= j < n - 1 && (#[trigger] ds[j]) is Some {
        lemma_first_soonest_prefix(ds, n - 1);
        let w = choose|i: int| 0 <= i < n - 1 && is_first_soonest(q, i);
        assert(q[w] == p[w]);
        if ds[n - 1] is Some && ds[n - 1]->0 < q[w]->0 {
            assert(is_first_soonest(p, n - 1)) by {
                assert forall|j: int| 0 <= j < n && (#[trigger] p[j]) is Some
                    implies p[n - 1]->0 <= p[j]->0 by {
                    if j < n - 1 {
                        assert(q[j] == p[j]);
                    }
                }
                assert forall|j: int| 0 <= j < n - 1 && (#[trigger] p[j]) is Some
                    implies p[n - 1]->0 < p[j]->0 by {
                    assert(q[j] == p[j]);
                }
            }
        } else {
            assert(is_first_soonest(p, w)) by {
                assert forall|j: int| 0 <= j < n && (#[trigger] p[j]) is Some
                    implies p[w]->0 <= p[j]->0 by {
                    if j < n - 1 {
                        assert(q[j] == p[j]);
                    }
                }
                assert forall|j: int| 0 <= j < w && (#[trigger] p[j]) is Some
                    implies p[w]->0 < p[j]->0 by {
                    assert(q[j] == p[j]);
                }
            }
        }
    } else {
        assert(ds[n - 1] is Some);
        assert(is_first_soonest(p, n - 1)) by {
            assert forall|j: int| 0 <= j < n && (#[trigger] p[j]) is Some
                implies p[n - 1]->0 <= p[j]->0 by {
                if j < n - 1 {
                    assert(ds[j] is Some);
                }
            }
            assert forall|j: int| 0 <= j < n - 1 && (#[trigger] p[j]) is Some
                implies p[n - 1]->0 < p[j]->0 by {
                assert(ds[j] is Some);
            }
        }
    }
}

/// `soonest` finds an event exactly when one is pending, and the event it
/// finds is the lowest ordinal among the soonest ones.
pub proof fn lemma_soonest(ds: Seq<Option<u64>>)
    ensures
        soonest(ds) is Some <==> pending(ds),
        soonest(ds) matches Some(i) ==> is_first_soonest(ds, i as int),
        forall|i: int| is_first_soonest(ds, i) ==> soonest(ds) == Some(i as nat),
{
    if pending(ds) {
        let j = choose|j: int| 0 <= j < ds.len() && (#[trigger] ds[j]) is Some;
        assert(ds[j] is Some);
        lemma_first_soonest_prefix(ds, ds.len() as int);
        assert(ds.take(ds.len() as int) =~= ds);
    }
    assert forall|i: int| is_first_soonest(ds, i) implies soonest(ds) == Some(i as nat) by {
        let c = choose|k: int| is_first_soonest(ds, k);
        lemma_first_soonest_unique(ds, c, i);
    }
}

} // verus!
