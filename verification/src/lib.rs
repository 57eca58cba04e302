//! Leak tracking for a process-wide allocator: every live allocation is kept
//! with its size and the call stack that made it, in a table of fixed capacity
//! that never grows, so that the bookkeeping never allocates on its own.

pub mod capture;
pub mod laws;
pub mod record;
pub mod snapshot;
pub mod store;
pub mod symbol;
pub mod tracer;

pub use capture::StackBuffer;
pub use record::AllocationRecord;
pub use store::RecordStore;
pub use tracer::{LeakTracer, LeakTracerDefault};
