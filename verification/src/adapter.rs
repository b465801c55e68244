//! Stream adapter: bridges the push channel a subscription task fills into
//! the pull-based, cancel-aware stream the call boundary expects.
//!
//! Each poll has four outcomes: one item produced, source exhausted, no item
//! yet, or cancelled by the consumer. A cancel request wins immediately and
//! the source is no longer consulted. The adapter carries exactly one item
//! of lookahead: a produced item sits in the slot until the consumer takes
//! it, and the source is never asked for more while the slot is full, so
//! items are neither reordered nor dropped while the source is alive.

use vstd::prelude::*;

use crate::live::LiveEvent;

verus! {

/// What one poll of the push source yielded.
pub enum SourcePoll {
    /// The next event, in arrival order.
    Item(LiveEvent),
    /// The channel is closed: the task is gone and nothing more will come.
    Closed,
    /// Nothing yet; the consumer will be woken when something arrives.
    NotReady,
}

/// What the adapter reports to the pull consumer for one poll.
pub enum AdapterOutcome {
    /// One item was produced into the lookahead slot.
    Produced,
    /// The source is exhausted: end of stream.
    EndOfStream,
    /// No item yet: would block.
    WouldBlock,
    /// The consumer asked to stop; polling ends.
    Cancelled,
}

/// The adapter's single-slot lookahead buffer.
pub struct StreamAdapter {
    slot: Option<LiveEvent>,
}

impl StreamAdapter {
    /// The item produced but not yet taken, if any.
    pub closed spec fn spec_slot(&self) -> Option<LiveEvent> {
        self.slot
    }

    /// A fresh adapter with an empty slot.
    pub fn new() -> (r: Self)
        ensures
            r.spec_slot() is None,
    {
        StreamAdapter { slot: None }
    }

    /// One poll: a cancel request is honored before anything else; otherwise
    /// the source's answer maps one-to-one onto the outcome, and a produced
    /// item is held in the slot, unchanged, until taken.
    pub fn step(&mut self, finish: bool, polled: SourcePoll) -> (r: AdapterOutcome)
        requires
            old(self).spec_slot() is None,
        ensures
            finish ==> r is Cancelled && final(self).spec_slot() is None,
            !finish ==> match polled {
                SourcePoll::Item(ev) => r is Produced && final(self).spec_slot() == Some(ev),
                SourcePoll::Closed => r is EndOfStream && final(self).spec_slot() is None,
                SourcePoll::NotReady => r is WouldBlock && final(self).spec_slot() is None,
            },
    {
        if finish {
            return AdapterOutcome::Cancelled;
        }
        match polled {
            SourcePoll::Item(ev) => {
                self.slot = Some(ev);
                AdapterOutcome::Produced
            },
            SourcePoll::Closed => AdapterOutcome::EndOfStream,
            SourcePoll::NotReady => AdapterOutcome::WouldBlock,
        }
    }

    /// Whether an item sits in the slot, not yet taken.
    pub fn has_item(&self) -> (r: bool)
        ensures
            r == (self.spec_slot() is Some),
    {
        self.slot.is_some()
    }

    /// Takes the buffered item, emptying the slot.
    pub fn take_item(&mut self) -> (r: Option<LiveEvent>)
        ensures
            r == old(self).spec_slot(),
            final(self).spec_slot() is None,
    {
        let item = self.slot.take();
        item
    }
}

} // verus!
