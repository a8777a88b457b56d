//! A tracing (mark-and-sweep) memory manager for a toy stack-based virtual
//! machine, with two interchangeable heap-store strategies and a verified
//! collector: after every collection, exactly the objects reachable from the
//! root set remain live.

pub mod object;
pub mod heap_model;
pub mod mark_phase;
pub mod arena_gc;
pub mod list_gc;
