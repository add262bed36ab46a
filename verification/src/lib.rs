//! A timer that multiplexes a small, fixed set of event deadlines over one
//! underlying sleep.
pub mod model;
pub mod timer;

pub use model::CoalesceMode;
pub use timer::MuxTimer;
pub mod laws;
