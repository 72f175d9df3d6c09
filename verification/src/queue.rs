//! The pending-chunk queue: an ordered accumulator of finalized chunks
//! that decouples chunk production from chunk consumption.  Its
//! take-all operation moves ownership of the buffered chunks to the
//! caller in one step, without copying their data.

use crate::ChunkWithData;
use vstd::prelude::*;

verus! {

/// Finalized chunks waiting to be handed to the caller, oldest first.
pub struct PendingChunks {
    items: Vec<ChunkWithData>,
}

impl View for PendingChunks {
    type V = Seq<ChunkWithData>;

    closed spec fn view(&self) -> Seq<ChunkWithData> {
        self.items@
    }
}

impl PendingChunks {
    /// An empty queue.
    pub fn new() -> (q: PendingChunks)
        ensures
            q@ == Seq::<ChunkWithData>::empty(),
    {
        PendingChunks { items: Vec::new() }
    }

    /// Append one finalized chunk at the back.
    pub fn push(&mut self, c: ChunkWithData)
        ensures
            final(self)@ == old(self)@.push(c),
    {
        self.items.push(c);
    }

    /// How many chunks wait to be taken.
    pub fn len(&self) -> (n: usize)
        ensures
            n == self@.len(),
    {
        self.items.len()
    }

    /// Move every buffered chunk into `out`, oldest first, replacing
    /// `out`'s previous contents and leaving the queue empty.
    pub fn take_all(&mut self, out: &mut Vec<ChunkWithData>)
        ensures
            final(out)@ == old(self)@,
            final(self)@ == Seq::<ChunkWithData>::empty(),
    {
        out.clear();
        core::mem::swap(&mut self.items, out);
    }
}

} // verus!
