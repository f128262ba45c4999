//! Live memory-allocation profiling engine.
//!
//! The crate decodes fixed-layout kernel-probe records into events,
//! tracks per-address allocation state, maintains a call-stack-indexed
//! tree of live bytes per resource category, resolves raw return
//! addresses to symbol names through ELF symbol tables, and answers
//! pruned tree queries.

pub mod event;
pub mod history;
pub mod aggregate;
pub mod table;
pub mod stack;
pub mod report;
pub mod consumer;

use vstd::prelude::*;

verus! {

/// Process-wide dump toggle, independent of the hot event path.
///
/// The flag only decides whether a snapshot is persisted around
/// shutdown; the caller owns the actual sink.
pub struct AtomicState {
    dump: bool,
}

impl AtomicState {
    pub fn new() -> (r: AtomicState)
        ensures
            !r.dump_enabled(),
    {
        AtomicState { dump: false }
    }

    pub closed spec fn dump_enabled(&self) -> bool {
        self.dump
    }

    /// Request that a snapshot be stored at shutdown.
    pub fn enable_dump(&mut self)
        ensures
            final(self).dump_enabled(),
    {
        self.dump = true;
    }

    pub fn is_dump_enabled(&self) -> (r: bool)
        ensures
            r == self.dump_enabled(),
    {
        self.dump
    }
}

} // verus!
