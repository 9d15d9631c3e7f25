//! A batch of table writes and its progress. The table itself may be the
//! kernel's or an image in memory: whoever owns it carries out the write that
//! the batch hands out and tells the batch what came of it.

use vstd::prelude::*;
use crate::fast_path::RelationKey;

verus! {

/// One entry to be written to the table.
#[derive(Clone, Copy, Debug)]
pub struct TableWrite {
    pub key: RelationKey,
    pub value: u8,
}

/// The progress of a batch: which write is next, and which of those tried so
/// far the table did not take. A failed write does not end the batch; the
/// writes after it are still handed out.
pub struct WriteBatch {
    writes: Vec<TableWrite>,
    next: usize,
    failed: Vec<TableWrite>,
}

impl WriteBatch {
    /// The writes of the batch, in the order in which they are handed out.
    pub closed spec fn writes(&self) -> Seq<TableWrite> {
        self.writes@
    }

    /// How many writes have been tried and their outcome recorded.
    pub closed spec fn answered(&self) -> nat {
        self.next as nat
    }

    /// The writes that failed, in the order in which they were tried.
    pub closed spec fn failed(&self) -> Seq<TableWrite> {
        self.failed@
    }

    /// Whether every write has been tried.
    pub open spec fn complete(&self) -> bool {
        self.answered() >= self.writes().len()
    }

    /// A batch of which nothing has been tried yet.
    pub fn new(writes: Vec<TableWrite>) -> (batch: WriteBatch)
        ensures
            batch.writes() == writes@,
            batch.answered() == 0,
            batch.failed() == Seq::<TableWrite>::empty(),
    {
        WriteBatch { writes, next: 0, failed: Vec::new() }
    }

    /// The write to try next, or `None` once every write has been tried.
    pub fn pending(&self) -> (write: Option<TableWrite>)
        ensures
            write == if self.complete() {
                None
            } else {
                Some(self.writes()[self.answered() as int])
            },
    {
        if self.next < self.writes.len() {
            Some(self.writes[self.next])
        } else {
            None
        }
    }

    /// Records what came of the pending write and moves on to the one after
    /// it. A write that was not written is added to the failed ones. Once the
    /// batch is complete there is nothing to record, and nothing changes.
    pub fn record(&mut self, written: bool)
        ensures
            final(self).writes() == old(self).writes(),
            final(self).answered() == if old(self).complete() {
                old(self).answered()
            } else {
                old(self).answered() + 1
            },
            final(self).failed() == if old(self).complete() || written {
                old(self).failed()
            } else {
                old(self).failed().push(old(self).writes()[old(self).answered() as int])
            },
    {
        if self.next < self.writes.len() {
            if !written {
                self.failed.push(self.writes[self.next]);
            }
            self.next = self.next + 1;
        }
    }

    /// Ends the batch and hands out the writes that failed.
    pub fn finish(self) -> (failed: Vec<TableWrite>)
        ensures
            failed@ == self.failed(),
    {
        self.failed
    }
}

} // verus!
