//! Measurement toolkit: a repetition tester that runs a block until its best
//! time stops improving, and a scoped profiler that splits a run's time
//! between nested named scopes.
//!
//! Neither part reads a clock by itself: every operation takes the tick
//! reading (and the page-fault count) that the caller sampled, so the whole
//! decision logic is deterministic and verified.

pub mod clock;
pub mod format;
pub mod pointer;
pub mod profiler;
pub mod rep_tester;
pub mod scope_accounting;
pub mod write;

pub use rep_tester::{
    Metrics, Printout, RepTester, Status, TesterView, COUNTER_MAX, MSG_DOUBLE_START,
    MSG_END_WITHOUT_START, MSG_INVALID_END, MSG_INVALID_START, MSG_REINIT, MSG_TIME_TRAVEL,
    MSG_TOO_MANY_TRIALS, PRINT_EVERY,
};
pub use profiler::{
    finish_end_print_root_profile, mark_scope, start_profile, Anchor, Mark, MarkView,
    ProfileReport, Profiler, ProfilerView, ScopeReport, ANCHOR_COUNT,
};
pub use scope_accounting::ScopeEvent;
pub use clock::TimeMeasurer;
pub use pointer::{parse_ptr, ParsedPointer};
pub use write::{write_backwards, write_linear};
pub use format::pretty_print_u64;
