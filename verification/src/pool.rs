//! Accounting for the fixed pool of buffers that circulates between the
//! reader and the parser through the two hand-off queues.

use vstd::prelude::*;

verus! {

/// Tracks where the buffers of the pipeline pool are at any instant:
/// waiting in the *free* queue, waiting in the *filled* queue, or held by
/// one of the two tasks. Buffers are created once at startup and recycled
/// for the whole run, so each is always in exactly one of the three places.
pub struct PoolTracker {
    /// Buffers waiting to be refilled by the reader.
    pub free_q: u64,
    /// Buffers full of data, waiting for the parser.
    pub filled_q: u64,
    /// Buffers in the hands of the reader or the parser.
    pub held: u64,
    /// Number of buffers the pool was created with.
    pub size: u64,
}

impl PoolTracker {
    /// Every buffer of the pool is in exactly one place.
    pub open spec fn wf(self) -> bool {
        self.free_q + self.filled_q + self.held == self.size
    }

    /// Buffers currently outside the free queue.
    pub open spec fn outside_free(self) -> int {
        self.filled_q + self.held
    }

    /// All buffers start in the free queue.
    pub fn new(size: u64) -> (r: PoolTracker)
        ensures
            r.wf(),
            r.size == size,
            r.free_q == size,
            r.outside_free() == 0,
    {
        PoolTracker { free_q: size, filled_q: 0, held: 0, size }
    }

    /// The reader takes a buffer from the free queue to refill it.
    pub fn take_free(&mut self)
        requires
            old(self).wf(),
            old(self).free_q > 0,
        ensures
            final(self).wf(),
            final(self).size == old(self).size,
            final(self).free_q == old(self).free_q - 1,
            final(self).held == old(self).held + 1,
            final(self).filled_q == old(self).filled_q,
            final(self).outside_free() <= final(self).size,
    {
        self.free_q = self.free_q - 1;
        self.held = self.held + 1;
    }

    /// The reader hands a refilled buffer to the parser.
    pub fn send_filled(&mut self)
        requires
            old(self).wf(),
            old(self).held > 0,
        ensures
            final(self).wf(),
            final(self).size == old(self).size,
            final(self).held == old(self).held - 1,
            final(self).filled_q == old(self).filled_q + 1,
            final(self).free_q == old(self).free_q,
            final(self).outside_free() <= final(self).size,
    {
        self.held = self.held - 1;
        self.filled_q = self.filled_q + 1;
    }

    /// The parser takes the next filled buffer.
    pub fn take_filled(&mut self)
        requires
            old(self).wf(),
            old(self).filled_q > 0,
        ensures
            final(self).wf(),
            final(self).size == old(self).size,
            final(self).filled_q == old(self).filled_q - 1,
            final(self).held == old(self).held + 1,
            final(self).free_q == old(self).free_q,
            final(self).outside_free() <= final(self).size,
    {
        self.filled_q = self.filled_q - 1;
        self.held = self.held + 1;
    }

    /// The parser returns a drained buffer to the free queue.
    pub fn send_free(&mut self)
        requires
            old(self).wf(),
            old(self).held > 0,
        ensures
            final(self).wf(),
            final(self).size == old(self).size,
            final(self).held == old(self).held - 1,
            final(self).free_q == old(self).free_q + 1,
            final(self).filled_q == old(self).filled_q,
            final(self).outside_free() <= final(self).size,
    {
        self.held = self.held - 1;
        self.free_q = self.free_q + 1;
    }

    /// The memory bound of the pipeline: however the hand-offs interleave,
    /// no more than the pool's `size` buffers ever exist outside the free
    /// queue, so the buffered memory never exceeds `size` times the arena
    /// capacity.
    pub proof fn lemma_bounded_outside(self)
        requires
            self.wf(),
        ensures
            0 <= self.outside_free() <= self.size,
    {
    }
}

} // verus!
