//! The hot-path entry: raw probe records arrive, are decoded and
//! applied; malformed records are counted and dropped, never fatal.

use vstd::prelude::*;
use crate::AtomicState;
use crate::aggregate::{Aggregator, apply_rel};
use crate::event::{decode, spec_decode};
use crate::report::{FrameReport, Reporter, rep_matches, rep_labeled};
use crate::stack::StackResolver;

verus! {

/// Drains the event feed: decodes each record, applies it to the
/// aggregator, and keeps the processed / dropped / lost counters.
pub struct Consumer {
    pub aggregator: Aggregator,
    pub state: AtomicState,
    /// Records decoded and applied.
    pub processed: u64,
    /// Records rejected by the decoder.
    pub dropped: u64,
    /// Records the kernel ring buffer reported as lost.
    pub lost: u64,
    /// The most recently observed pid of the traced process.
    pub pid: Option<u32>,
}

impl Consumer {
    pub open spec fn inv(&self) -> bool {
        self.aggregator.inv()
    }

    pub fn new() -> (r: Consumer)
        ensures
            r.inv(),
            r.processed == 0,
            r.dropped == 0,
            r.lost == 0,
            r.pid is None,
            !r.state.dump_enabled(),
    {
        Consumer {
            aggregator: Aggregator::new(),
            state: AtomicState::new(),
            processed: 0,
            dropped: 0,
            lost: 0,
            pid: None,
        }
    }

    /// One raw record from the ring buffer: decode and apply it, or
    /// count it as dropped when malformed.
    pub fn arrive(&mut self, data: &[u8])
        requires
            old(self).inv(),
        ensures
            final(self).inv(),
            spec_decode(data@) is Ok ==> {
                &&& final(self).processed == if old(self).processed < u64::MAX {
                    old(self).processed + 1
                } else {
                    old(self).processed as int
                }
                &&& final(self).dropped == old(self).dropped
                &&& final(self).pid == Some(spec_decode(data@)->Ok_0.pid)
                &&& apply_rel(
                    old(self).aggregator,
                    final(self).aggregator,
                    spec_decode(data@)->Ok_0,
                )
            },
            spec_decode(data@) is Err ==> {
                &&& final(self).dropped == if old(self).dropped < u64::MAX {
                    old(self).dropped + 1
                } else {
                    old(self).dropped as int
                }
                &&& final(self).processed == old(self).processed
                &&& final(self).aggregator == old(self).aggregator
                &&& final(self).pid == old(self).pid
            },
    {
        match decode(data) {
            Ok(ev) => {
                if self.processed < u64::MAX {
                    self.processed = self.processed + 1;
                }
                self.pid = Some(ev.pid);
                self.aggregator.apply(ev);
            },
            Err(_) => {
                if self.dropped < u64::MAX {
                    self.dropped = self.dropped + 1;
                }
            },
        }
    }

    /// The ring-buffer collaborator reports lost records explicitly;
    /// the consumer only accumulates the count.
    pub fn note_lost(&mut self, n: u64)
        ensures
            final(self).lost == if old(self).lost + n <= u64::MAX {
                old(self).lost + n
            } else {
                u64::MAX as int
            },
            final(self).aggregator == old(self).aggregator,
            final(self).processed == old(self).processed,
            final(self).dropped == old(self).dropped,
            final(self).pid == old(self).pid,
            final(self).state == old(self).state,
    {
        if n <= u64::MAX - self.lost {
            self.lost = self.lost + n;
        } else {
            self.lost = u64::MAX;
        }
    }

    pub fn tracked_pid(&self) -> (r: Option<u32>)
        ensures
            r == self.pid,
    {
        self.pid
    }

    /// Ask for a snapshot to be persisted at shutdown.
    pub fn turn_on_dump(&mut self)
        ensures
            final(self).state.dump_enabled(),
            final(self).aggregator == old(self).aggregator,
    {
        self.state.enable_dump();
    }

    /// The shutdown snapshot: the full (unpruned) tree when a dump
    /// was requested, nothing otherwise. Writing it anywhere is the
    /// caller's business.
    pub fn store_dump(&self, resolver: &StackResolver) -> (r: Option<FrameReport>)
        requires
            self.inv(),
            resolver.wf(),
        ensures
            r is Some <==> self.state.dump_enabled(),
            match r {
                Some(rep) => rep_matches(self.aggregator.history.nodes@, 0, rep, 0) && rep_labeled(
                    *resolver,
                    self.aggregator.history.nodes@,
                    0,
                    rep,
                    0,
                ),
                None => true,
            },
    {
        if self.state.is_dump_enabled() {
            Some(Reporter::tree(&self.aggregator.history, resolver, 0))
        } else {
            None
        }
    }
}

} // verus!
