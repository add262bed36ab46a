// Scenarios of the multiplexed timer, with deadlines counted in milliseconds
// from a fixed start.
use tokio_muxt::{CoalesceMode, MuxTimer};

const EVENT_A: usize = 0;
const EVENT_B: usize = 1;
const EVENT_C: usize = 2;

const START: u64 = 10_000;

#[test]
fn firing_order() {
    let mut timer: MuxTimer<3> = MuxTimer::default();

    assert_eq!(timer.deadline(), None);

    assert!(timer.fire_after(EVENT_C, START, 100, CoalesceMode::Earliest));
    assert!(timer.fire_after(EVENT_B, START, 50, CoalesceMode::Earliest));
    assert!(timer.fire_after(EVENT_A, START, 150, CoalesceMode::Earliest));

    let (event, instant_b) = timer.expire();
    assert_eq!(event, EVENT_B);

    let (event, instant_c) = timer.expire();
    assert_eq!(instant_c - instant_b, 50);
    assert_eq!(event, EVENT_C);

    let (event, instant_a) = timer.expire();
    assert_eq!(instant_a - instant_c, 50);
    assert_eq!(event, EVENT_A);

    assert_eq!(timer.deadline(), None);
}

#[test]
fn rearming_earliest() {
    let mut timer: MuxTimer<3> = MuxTimer::default();

    let start = START;
    assert!(timer.fire_after(EVENT_A, start, 100, CoalesceMode::Earliest));
    assert!(!timer.fire_after(EVENT_A, start, 200, CoalesceMode::Earliest));
    assert!(timer.fire_after(EVENT_A, start, 50, CoalesceMode::Earliest));

    let (event, instant) = timer.expire();
    assert_eq!(event, EVENT_A);
    assert_eq!(instant - start, 50);
    assert_eq!(timer.deadline(), None);
}

#[test]
fn rearming_latest() {
    let mut timer: MuxTimer<3> = MuxTimer::default();

    let start = START;
    assert!(timer.fire_after(EVENT_A, start, 100, CoalesceMode::Latest));
    assert!(timer.fire_after(EVENT_A, start, 200, CoalesceMode::Latest));
    assert!(!timer.fire_after(EVENT_A, start, 50, CoalesceMode::Latest));

    let (event, instant) = timer.expire();
    assert_eq!(event, EVENT_A);
    assert_eq!(instant - start, 200);
    assert_eq!(timer.deadline(), None);
}

#[test]
fn rearming_interleaved() {
    let mut timer: MuxTimer<3> = MuxTimer::default();

    let start = START;
    assert!(timer.fire_after(EVENT_A, start, 100, CoalesceMode::Latest));
    assert!(timer.fire_after(EVENT_A, start, 200, CoalesceMode::Latest));
    assert!(!timer.fire_after(EVENT_A, start, 50, CoalesceMode::Latest));

    assert!(timer.fire_after(EVENT_B, start, 1000, CoalesceMode::Earliest));
    assert!(timer.fire_after(EVENT_B, start, 100, CoalesceMode::Earliest));
    assert!(!timer.fire_after(EVENT_B, start, 500, CoalesceMode::Earliest));
    assert!(timer.fire_after(EVENT_B, start, 150, CoalesceMode::Latest));

    let (event, instant) = timer.expire();
    assert_eq!(event, EVENT_B);
    assert_eq!(instant - start, 150);

    let (event, instant) = timer.expire();
    assert_eq!(event, EVENT_A);
    assert_eq!(instant - start, 200);
    assert_eq!(timer.deadline(), None);
}

#[test]
fn rearming_latest_earlier_other_ordinal() {
    let mut timer: MuxTimer<2> = MuxTimer::default();

    let start = START;
    assert!(timer.fire_after(EVENT_A, start, 100, CoalesceMode::Latest));
    assert_eq!(timer.deadline(), Some(start + 100));

    assert!(timer.fire_after(EVENT_B, start, 50, CoalesceMode::Latest));
    assert_eq!(timer.deadline(), Some(start + 50));

    let (event, instant) = timer.expire();
    assert_eq!(event, EVENT_B);
    assert_eq!(instant - start, 50);
}

#[test]
fn cancellation() {
    let mut timer: MuxTimer<3> = MuxTimer::default();

    let start = START;
    assert!(timer.fire_after(EVENT_A, start, 100, CoalesceMode::Latest));
    assert!(timer.fire_after(EVENT_B, start, 1000, CoalesceMode::Latest));

    assert!(timer.is_armed());
    assert!(timer.cancel(EVENT_A));
    assert!(!timer.cancel(EVENT_A));
    assert_eq!(timer.deadline(), Some(start + 1000));

    let (event, _) = timer.expire();
    assert_eq!(event, EVENT_B);
}

#[test]
fn fire_at_respects_deadline() {
    let mut timer: MuxTimer<2> = MuxTimer::default();

    let start = START;
    let deadline = start + 75;
    assert!(timer.fire_at(EVENT_A, deadline, CoalesceMode::Earliest));
    assert_eq!(timer.deadline(), Some(deadline));

    let (event, fired_deadline) = timer.expire();
    assert_eq!(event, EVENT_A);
    assert_eq!(fired_deadline, deadline);
    assert!(!timer.is_armed());
}

#[test]
fn rearming_latest_moves_to_other_ordinal() {
    let mut timer: MuxTimer<2> = MuxTimer::default();

    let start = START;
    assert!(timer.fire_after(EVENT_A, start, 100, CoalesceMode::Latest));
    assert!(timer.fire_after(EVENT_B, start, 120, CoalesceMode::Latest));
    assert_eq!(timer.deadline(), Some(start + 100));

    assert!(timer.fire_after(EVENT_A, start, 200, CoalesceMode::Latest));
    assert_eq!(timer.deadline(), Some(start + 120));

    let (event, instant) = timer.expire();
    assert_eq!(event, EVENT_B);
    assert_eq!(instant - start, 120);
}

#[test]
fn deadlines_cleared_after_fire() {
    let mut timer: MuxTimer<2> = MuxTimer::default();

    let start = START;
    assert!(timer.fire_after(EVENT_A, start, 50, CoalesceMode::Earliest));
    assert!(timer.fire_after(EVENT_B, start, 100, CoalesceMode::Earliest));
    assert!(timer.is_armed());
    assert_eq!(timer.deadlines(), &[Some(start + 50), Some(start + 100)]);

    let (event, _) = timer.expire();
    assert_eq!(event, EVENT_A);
    assert_eq!(timer.deadlines()[EVENT_A], None);
    assert_eq!(timer.deadlines()[EVENT_B], Some(start + 100));

    let (event, _) = timer.expire();
    assert_eq!(event, EVENT_B);
    assert_eq!(timer.deadlines()[EVENT_B], None);
    assert!(!timer.is_armed());
}

#[test]
fn cancel_last_event_disarms() {
    let mut timer: MuxTimer<1> = MuxTimer::default();

    assert!(!timer.is_armed());
    assert!(timer.fire_after(EVENT_A, START, 100, CoalesceMode::Earliest));
    assert!(timer.is_armed());
    assert!(timer.cancel(EVENT_A));
    assert!(!timer.is_armed());
    assert_eq!(timer.deadline(), None);
    assert_eq!(timer.deadlines()[EVENT_A], None);
}
