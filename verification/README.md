# tokio-muxt

A timer that multiplexes a small, fixed set of event deadlines over one
underlying sleep, returning the ordinal and deadline of each event as it fires.
Repeated deadlines for the same event are coalesced to the earliest or the
latest one.

- `src/model.rs`: the abstract state (`TimerState`), what each operation does to it.
- `src/timer.rs`: `MuxTimer<N>`, the verified timer over integer deadlines.
- `src/laws.rs`: properties that hold across operations, proved.
- `app/lib.rs`: the async front-end that drives a tokio `Sleep` from the
  verified timer and converts tokio `Instant`s to and from ticks.
