//! Call-hierarchy execution-time profiler: attribution of nested instrumented
//! calls to the outermost call in flight, accumulated per-callable metrics,
//! and the text of the timing report.

pub mod algorithms;
pub mod formatter;
pub mod laws;
pub mod metrics;
pub mod profiler;
pub mod report;
pub mod terminal;
pub mod timer;
