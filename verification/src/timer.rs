//! The timer itself: a fixed row of deadline slots and the armed ordinal.
use vstd::prelude::*;

use crate::model::{
    coalesce, is_first_soonest, lemma_soonest, pending, rejects, soonest, CoalesceMode,
    TimerState,
};

verus! {

/// Timer for a limited set of events that are represented by their ordinals.
///
/// Deadlines are points on a monotonic clock, counted in ticks of the
/// caller's choosing. They are stored in a row of `N` slots indexed by
/// ordinal, so the greatest supported ordinal is `N - 1`. Deadlines for the
/// same event are coalesced, to the earliest or the latest one, as the
/// `CoalesceMode` of each request says. One of the pending events is armed:
/// the one that a single underlying sleep should wait for.
#[derive(Debug)]
pub struct MuxTimer<const N: usize> {
    deadlines: Vec<Option<u64>>,
    armed_ordinal: usize,
}

impl<const N: usize> View for MuxTimer<N> {
    type V = TimerState;

    closed spec fn view(&self) -> TimerState {
        TimerState {
            deadlines: self.deadlines@,
            armed: if self.armed_ordinal < N {
                Some(self.armed_ordinal as nat)
            } else {
                None
            },
        }
    }
}

impl<const N: usize> Default for MuxTimer<N> {
    /// A disarmed timer with no pending event.
    fn default() -> (timer: Self)
        ensures
            timer.wf(),
            timer@.deadlines == Seq::new(N as nat, |i: int| None::<u64>),
            timer@.armed is None,
    {
        let mut deadlines: Vec<Option<u64>> = Vec::new();
        let mut i: usize = 0;
        while i < N
            invariant
                i <= N,
                deadlines@.len() == i,
                forall|j: int| 0 <= j < i ==> (#[trigger] deadlines@[j]) is None,
            decreases N - i,
        {
            deadlines.push(None);
            i = i + 1;
        }
        let timer = MuxTimer { deadlines, armed_ordinal: N };
        assert(timer@.deadlines =~= Seq::new(N as nat, |i: int| None::<u64>));
        timer
    }
}

impl<const N: usize> MuxTimer<N> {
    /// A slot per ordinal, and the model's own invariant.
    pub open spec fn wf(&self) -> bool {
        &&& self@.deadlines.len() == N
        &&& self@.wf()
    }

    /// Fire the timer for event `ordinal` `timeout` ticks after `now`.
    /// Returns `true` if the deadline was taken, `false` if the event already
    /// has a deadline that wins under `coalesce_mode`.
    pub fn fire_after(
        &mut self,
        ordinal: usize,
        now: u64,
        timeout: u64,
        coalesce_mode: CoalesceMode,
    ) -> (taken: bool)
        requires
            old(self).wf(),
            ordinal < N,
            now + timeout <= u64::MAX,
        ensures
            final(self).wf(),
            taken == !rejects(old(self)@.deadlines[ordinal as int], (now + timeout) as u64, coalesce_mode),
            final(self)@ == old(self)@.after_fire_at(ordinal as nat, (now + timeout) as u64, coalesce_mode),
    {
        self.fire_at(ordinal, now + timeout, coalesce_mode)
    }

    /// Fire the timer for event `ordinal` at `deadline`.
    /// Returns `true` if the deadline was taken, `false` if the event already
    /// has a deadline that wins under `coalesce_mode`.
    pub fn fire_at(&mut self, ordinal: usize, deadline: u64, coalesce_mode: CoalesceMode) -> (taken: bool)
        requires
            old(self).wf(),
            ordinal < N,
        ensures
            final(self).wf(),
            taken == !rejects(old(self)@.deadlines[ordinal as int], deadline, coalesce_mode),
            !taken ==> final(self)@ == old(self)@,
            final(self)@ == old(self)@.after_fire_at(ordinal as nat, deadline, coalesce_mode),
            final(self)@.deadlines[ordinal as int] == Some(
                coalesce(old(self)@.deadlines[ordinal as int], deadline, coalesce_mode),
            ),
            forall|j: int| 0 <= j < N && j != ordinal
                ==> #[trigger] final(self)@.deadlines[j] == old(self)@.deadlines[j],
    {
        let slot = self.deadlines[ordinal];
        let refused = match slot {
            Some(d) => match coalesce_mode {
                CoalesceMode::Earliest => d < deadline,
                CoalesceMode::Latest => d > deadline,
            },
            None => false,
        };
        if refused {
            return false;
        }
        let current = self.deadline();
        self.deadlines[ordinal] = Some(deadline);
        let ghost ds = self.deadlines@;
        assert(ds =~= old(self)@.deadlines.update(ordinal as int, Some(deadline)));
        let earlier = match current {
            None => true,
            Some(d) => deadline < d,
        };
        if earlier {
            self.arm(ordinal);
            proof {
                assert forall|j: int| 0 <= j < ds.len() && (#[trigger] ds[j]) is Some
                    implies deadline <= ds[j]->0 by {
                    if j != ordinal {
                        assert(old(self)@.deadlines[j] is Some);
                    }
                }
            }
        } else {
            let latest = match coalesce_mode {
                CoalesceMode::Latest => true,
                CoalesceMode::Earliest => false,
            };
            if latest && self.armed_ordinal == ordinal {
                assert(ds[ordinal as int] is Some);
                if let Some((next, _)) = self.soonest_event() {
                    self.arm(next);
                }
            } else {
                proof {
                    let a = old(self)@.armed->0 as int;
                    assert forall|j: int| 0 <= j < ds.len() && (#[trigger] ds[j]) is Some
                        implies ds[a]->0 <= ds[j]->0 by {
                        if j != ordinal {
                            assert(old(self)@.deadlines[j] is Some);
                        }
                    }
                }
            }
        }
        true
    }

    /// Cancel event `ordinal`. Returns `true` if it had a pending deadline.
    /// The timer becomes disarmed when the last pending event is cancelled.
    pub fn cancel(&mut self, ordinal: usize) -> (had_deadline: bool)
        requires
            old(self).wf(),
            ordinal < N,
        ensures
            final(self).wf(),
            had_deadline == old(self)@.deadlines[ordinal as int] is Some,
            final(self)@ == old(self)@.after_cancel(ordinal as nat),
            final(self)@.deadlines == old(self)@.deadlines.update(ordinal as int, None),
    {
        if self.deadlines[ordinal].is_some() {
            self.deadlines[ordinal] = None;
            let ghost ds = self.deadlines@;
            assert(ds =~= old(self)@.deadlines.update(ordinal as int, None));
            if self.armed_ordinal == ordinal {
                match self.soonest_event() {
                    Some((next, _)) => self.arm(next),
                    None => self.armed_ordinal = N,
                }
            } else {
                proof {
                    let a = old(self)@.armed;
                    if a is Some {
                        let a = a->0 as int;
                        assert forall|j: int| 0 <= j < ds.len() && (#[trigger] ds[j]) is Some
                            implies ds[a]->0 <= ds[j]->0 by {
                            assert(old(self)@.deadlines[j] is Some);
                        }
                    } else {
                        assert(old(self)@.deadlines[ordinal as int] is Some);
                    }
                }
            }
            true
        } else {
            assert(old(self)@.deadlines.update(ordinal as int, None) =~= old(self)@.deadlines);
            false
        }
    }

    /// Whether the timer is armed; it is exactly when an event is pending.
    pub fn is_armed(&self) -> (armed: bool)
        ensures
            armed == self@.armed is Some,
            self.wf() ==> (armed == pending(self@.deadlines)),
    {
        self.armed_ordinal < N
    }

    /// The deadline the timer waits for, if armed.
    pub fn deadline(&self) -> (next: Option<u64>)
        requires
            self.wf(),
        ensures
            next == self@.next_deadline(),
    {
        if self.armed_ordinal < N {
            self.deadlines[self.armed_ordinal]
        } else {
            None
        }
    }

    /// All pending deadlines, indexed by event ordinal.
    pub fn deadlines(&self) -> (slots: &[Option<u64>])
        ensures
            slots@ == self@.deadlines,
    {
        self.deadlines.as_slice()
    }

    /// The armed deadline has passed: the armed event fires. Returns its
    /// ordinal and deadline, clears its slot and arms the soonest event left.
    pub fn expire(&mut self) -> (fired: (usize, u64))
        requires
            old(self).wf(),
            old(self)@.armed is Some,
        ensures
            final(self).wf(),
            fired.0 as nat == old(self)@.armed->0,
            (fired.0 as nat, fired.1) == old(self)@.fired_event(),
            old(self)@.deadlines[fired.0 as int] == Some(fired.1),
            final(self)@ == old(self)@.after_expire(),
            final(self)@.deadlines == old(self)@.deadlines.update(fired.0 as int, None),
            final(self)@.armed matches Some(next) ==> is_first_soonest(final(self)@.deadlines, next as int),
    {
        let fired = self.armed_ordinal;
        self.armed_ordinal = N;
        let deadline = self.deadlines[fired].unwrap();
        self.deadlines[fired] = None;
        assert(self.deadlines@ =~= old(self)@.deadlines.update(fired as int, None));
        if let Some((next, _)) = self.soonest_event() {
            self.arm(next);
        }
        (fired, deadline)
    }

    /// Arm the timer for event `ordinal`.
    fn arm(&mut self, ordinal: usize)
        requires
            ordinal < N,
        ensures
            final(self).deadlines@ == old(self).deadlines@,
            final(self).armed_ordinal == ordinal,
    {
        self.armed_ordinal = ordinal;
    }

    /// The pending event due first, the one with the lowest ordinal among
    /// equals, with its deadline.
    fn soonest_event(&self) -> (event: Option<(usize, u64)>)
        requires
            self@.deadlines.len() == N,
        ensures
            event is None <==> soonest(self@.deadlines) is None,
            event is None <==> !pending(self@.deadlines),
            event matches Some((i, d)) ==> {
                &&& soonest(self@.deadlines) == Some(i as nat)
                &&& is_first_soonest(self@.deadlines, i as int)
                &&& i < N
                &&& self@.deadlines[i as int] == Some(d)
            },
    {
        let ghost ds = self@.deadlines;
        let mut best: Option<(usize, u64)> = None;
        let mut i: usize = 0;
        while i < N
            invariant
                ds == self@.deadlines,
                ds.len() == N,
                i <= N,
                best is None <==> forall|j: int| 0 <= j < i ==> (#[trigger] ds[j]) is None,
                best matches Some((b, bd)) ==> {
                    &&& b < i
                    &&& ds[b as int] == Some(bd)
                    &&& forall|j: int| 0 <= j < i && (#[trigger] ds[j]) is Some ==> bd <= ds[j]->0
                    &&& forall|j: int| 0 <= j < b && (#[trigger] ds[j]) is Some ==> bd < ds[j]->0
                },
            decreases N - i,
        {
            if let Some(d) = self.deadlines[i] {
                let better = match best {
                    None => true,
                    Some((_, bd)) => d < bd,
                };
                if better {
                    best = Some((i, d));
                }
            }
            i = i + 1;
        }
        proof {
            lemma_soonest(ds);
            if best is None {
                assert(!pending(ds));
            } else {
                let (b, _) = best->0;
                assert(is_first_soonest(ds, b as int));
            }
        }
        best
    }
}


} // verus!
