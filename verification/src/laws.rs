//! What holds of the timer across its operations.
use vstd::prelude::*;

use crate::model::{
    is_first_soonest, lemma_pending_count_clear, lemma_pending_count_zero, lemma_soonest,
    pending, pending_count, rejects, soonest, CoalesceMode, TimerState,
};

verus! {

/// A well-formed timer waits for the earliest pending deadline: it has a
/// next deadline exactly when some event is pending, that deadline belongs to
/// a pending event, and no pending event is due before it.
pub proof fn law_waits_for_earliest(s: TimerState)
    requires
        s.wf(),
    ensures
        s.next_deadline() is Some <==> pending(s.deadlines),
        s.next_deadline() is Some <==> s.armed is Some,
        s.next_deadline() matches Some(d) ==> {
            &&& exists|i: int| 0 <= i < s.deadlines.len() && s.deadlines[i] == Some(d)
            &&& forall|j: int| 0 <= j < s.deadlines.len() && (#[trigger] s.deadlines[j]) is Some
                ==> d <= s.deadlines[j]->0
        },
{
    if let Some(a) = s.armed {
        assert(s.deadlines[a as int] is Some);
    }
}

/// Events fire in the order of their deadlines: after the armed event fires,
/// the timer waits for no deadline earlier than the one that fired.
pub proof fn law_expire_in_order(s: TimerState)
    requires
        s.wf(),
        s.armed is Some,
    ensures
        s.after_expire().wf(),
        s.after_expire().next_deadline() matches Some(d) ==> s.next_deadline()->0 <= d,
{
    let t = s.after_expire();
    let a = s.armed->0 as int;
    lemma_soonest(t.deadlines);
    if let Some(n) = t.armed {
        assert(t.deadlines[n as int] is Some);
        assert(s.deadlines[n as int] is Some);
    }
}

/// Letting the timer fire once per pending event reports every pending
/// event, each exactly once with its deadline, in order of deadline, and
/// leaves every slot empty and the timer disarmed.
pub proof fn law_expire_drains_in_order(s: TimerState)
    requires
        s.wf(),
    ensures
        ({
            let k = pending_count(s.deadlines);
            let events = s.expire_events(k);
            let last = s.after_expires(k);
            &&& events.len() == k
            &&& forall|i: nat, x: u64|
                #![trigger events.contains((i, x))]
                (i < s.deadlines.len() && s.deadlines[i as int] == Some(x)) <==> events.contains((i, x))
            &&& forall|m: int, n: int| 0 <= m < n < events.len() ==> events[m].1 <= events[n].1
            &&& forall|m: int, n: int| 0 <= m < n < events.len() ==> events[m].0 != events[n].0
            &&& last.armed is None
            &&& last.deadlines.len() == s.deadlines.len()
            &&& forall|j: int| 0 <= j < last.deadlines.len() ==> (#[trigger] last.deadlines[j]) is None
            &&& last.wf()
        }),
{
    lemma_expire_drains(s, pending_count(s.deadlines));
}

proof fn lemma_expire_drains(s: TimerState, k: nat)
    requires
        s.wf(),
        pending_count(s.deadlines) == k,
    ensures
        ({
            let events = s.expire_events(k);
            let last = s.after_expires(k);
            &&& events.len() == k
            &&& forall|i: nat, x: u64|
                #![trigger events.contains((i, x))]
                (i < s.deadlines.len() && s.deadlines[i as int] == Some(x)) <==> events.contains((i, x))
            &&& forall|m: int, n: int| 0 <= m < n < events.len() ==> events[m].1 <= events[n].1
            &&& forall|m: int, n: int| 0 <= m < n < events.len() ==> events[m].0 != events[n].0
            &&& last.armed is None
            &&& last.deadlines.len() == s.deadlines.len()
            &&& forall|j: int| 0 <= j < last.deadlines.len() ==> (#[trigger] last.deadlines[j]) is None
            &&& last.wf()
        }),
    decreases k,
{
    let ds = s.deadlines;
    lemma_pending_count_zero(ds);
    if k == 0 {
        assert forall|j: int| 0 <= j < ds.len() implies (#[trigger] ds[j]) is None by {
            if ds[j] is Some {
                assert(pending(ds));
            }
        }
        assert forall|i: nat, x: u64|
            #![trigger s.expire_events(k).contains((i, x))]
            (i < ds.len() && ds[i as int] == Some(x)) <==> s.expire_events(k).contains((i, x)) by {
            if i < ds.len() {
                assert(ds[i as int] is None);
            }
        }
    } else {
        let a = s.armed->0 as int;
        let d = ds[a]->0;
        let s1 = s.after_expire();
        let ds1 = s1.deadlines;
        law_expire_in_order(s);
        lemma_pending_count_clear(ds, a);
        lemma_expire_drains(s1, (k - 1) as nat);
        let rest = s1.expire_events((k - 1) as nat);
        let events = s.expire_events(k);
        assert(events == seq![(a as nat, d)] + rest);
        assert(s.after_expires(k) == s1.after_expires((k - 1) as nat));
        assert forall|i: nat, x: u64|
            #![trigger events.contains((i, x))]
            (i < ds.len() && ds[i as int] == Some(x)) <==> events.contains((i, x)) by {
            if i < ds.len() && ds[i as int] == Some(x) {
                if i == a {
                    assert(events[0] == (i, x));
                } else {
                    assert(ds1[i as int] == Some(x));
                    assert(rest.contains((i, x)));
                    let n = choose|n: int| 0 <= n < rest.len() && rest[n] == (i, x);
                    assert(events[n + 1] == (i, x));
                }
            }
            if events.contains((i, x)) {
                let n = choose|n: int| 0 <= n < events.len() && events[n] == (i, x);
                if n > 0 {
                    assert(rest[n - 1] == (i, x));
                    assert(rest.contains((i, x)));
                    assert(ds1[i as int] == Some(x));
                }
            }
        }
        assert forall|m: int, n: int| 0 <= m < n < events.len() implies events[m].1 <= events[n].1
            && events[m].0 != events[n].0 by {
            if m == 0 {
                let (i, x) = rest[n - 1];
                assert(events[n] == rest[n - 1]);
                assert(rest.contains((i, x)));
                assert(ds1[i as int] == Some(x));
                assert(ds[i as int] is Some);
            } else {
                assert(events[m] == rest[m - 1]);
                assert(events[n] == rest[n - 1]);
            }
        }
    }
}

/// Cancelling an event that a request has just given its only deadline
/// restores the pending deadlines and the deadline the timer waits for.
pub proof fn law_cancel_undoes_fire(s: TimerState, o: nat, deadline: u64, mode: CoalesceMode)
    requires
        s.wf(),
        o < s.deadlines.len(),
        s.deadlines[o as int] is None,
    ensures
        s.after_fire_at(o, deadline, mode).after_cancel(o).deadlines == s.deadlines,
        s.after_fire_at(o, deadline, mode).after_cancel(o).next_deadline() == s.next_deadline(),
        s.after_fire_at(o, deadline, mode).after_cancel(o).wf(),
{
    let f = s.after_fire_at(o, deadline, mode);
    let c = f.after_cancel(o);
    assert(f.deadlines[o as int] == Some(deadline));
    assert(c.deadlines =~= s.deadlines);
    lemma_soonest(s.deadlines);
    if f.armed == Some(o) {
        assert(c.armed == soonest(s.deadlines));
        if let Some(a) = s.armed {
            let b = soonest(s.deadlines)->0 as int;
            assert(s.deadlines[a as int] is Some);
            assert(s.deadlines[b] is Some);
        }
    } else {
        assert(c.armed == s.armed);
    }
}

/// Repeating a request to fire an event at a deadline in a mode leaves the
/// timer as the first request left it, and the repeat is taken exactly when
/// the first one was.
pub proof fn law_fire_at_idempotent(s: TimerState, o: nat, deadline: u64, mode: CoalesceMode)
    requires
        s.wf(),
        o < s.deadlines.len(),
    ensures
        s.after_fire_at(o, deadline, mode).after_fire_at(o, deadline, mode)
            == s.after_fire_at(o, deadline, mode),
        s.after_fire_at(o, deadline, mode).wf(),
{
    let f = s.after_fire_at(o, deadline, mode);
    let g = f.after_fire_at(o, deadline, mode);
    let ds = s.deadlines.update(o as int, Some(deadline));
    lemma_soonest(ds);
    if rejects(s.deadlines[o as int], deadline, mode) {
    } else {
        assert(f.deadlines == ds);
        assert(ds.update(o as int, Some(deadline)) =~= ds);
        // the slot of `o` holds `deadline`, so the repeat is taken
        assert(g.deadlines == ds);
        law_fire_at_keeps_wf(s, o, deadline, mode);
        let cur = f.next_deadline()->0;
        assert(f.armed is Some);
        let a = f.armed->0 as int;
        assert(ds[o as int] is Some);
        assert(cur <= deadline);
        if mode == CoalesceMode::Latest && f.armed == Some(o) {
            // `o` is armed after the first request; it is then the first soonest
            match s.next_deadline() {
                None => {
                    assert forall|j: int| 0 <= j < o && (#[trigger] ds[j]) is Some
                        implies ds[o as int]->0 < ds[j]->0 by {
                        assert(s.deadlines[j] is Some);
                    }
                    assert(is_first_soonest(ds, o as int));
                },
                Some(c) => {
                    if deadline < c {
                        let sa = s.armed->0 as int;
                        assert forall|j: int| 0 <= j < o && (#[trigger] ds[j]) is Some
                            implies ds[o as int]->0 < ds[j]->0 by {
                            assert(s.deadlines[j] is Some);
                            assert(s.deadlines[sa] is Some);
                        }
                        assert(is_first_soonest(ds, o as int));
                    } else if s.armed == Some(o) {
                        assert(f.armed == soonest(ds));
                        assert(is_first_soonest(ds, o as int));
                    } else {
                        assert(f.armed == s.armed);
                    }
                },
            }
            assert(soonest(ds) == Some(o));
        }
    }
}

/// Every request to fire an event keeps the timer well formed.
pub proof fn law_fire_at_keeps_wf(s: TimerState, o: nat, deadline: u64, mode: CoalesceMode)
    requires
        s.wf(),
        o < s.deadlines.len(),
    ensures
        s.after_fire_at(o, deadline, mode).wf(),
{
    let ds = s.deadlines.update(o as int, Some(deadline));
    lemma_soonest(ds);
    if !rejects(s.deadlines[o as int], deadline, mode) {
        assert(ds[o as int] is Some);
        match s.next_deadline() {
            None => {
                assert forall|j: int| 0 <= j < ds.len() && (#[trigger] ds[j]) is Some
                    implies deadline <= ds[j]->0 by {
                    if j != o {
                        assert(s.deadlines[j] is Some);
                    }
                }
            },
            Some(c) => {
                let a = s.armed->0 as int;
                if deadline < c {
                    assert forall|j: int| 0 <= j < ds.len() && (#[trigger] ds[j]) is Some
                        implies deadline <= ds[j]->0 by {
                        if j != o {
                            assert(s.deadlines[j] is Some);
                        }
                    }
                } else if mode == CoalesceMode::Latest && s.armed == Some(o) {
                } else {
                    assert forall|j: int| 0 <= j < ds.len() && (#[trigger] ds[j]) is Some
                        implies ds[a]->0 <= ds[j]->0 by {
                        if j != o {
                            assert(s.deadlines[j] is Some);
                        }
                    }
                }
            },
        }
    }
}

/// Cancelling an event keeps the timer well formed.
pub proof fn law_cancel_keeps_wf(s: TimerState, o: nat)
    requires
        s.wf(),
        o < s.deadlines.len(),
    ensures
        s.after_cancel(o).wf(),
{
    let ds = s.deadlines.update(o as int, None);
    lemma_soonest(ds);
    if s.deadlines[o as int] is Some && s.armed != Some(o) {
        let a = s.armed->0 as int;
        assert(s.armed is Some);
        assert forall|j: int| 0 <= j < ds.len() && (#[trigger] ds[j]) is Some
            implies ds[a]->0 <= ds[j]->0 by {
            assert(s.deadlines[j] is Some);
        }
    }
}

} // verus!
