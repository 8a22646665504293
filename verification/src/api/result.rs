//! The batches a query produced, handed out one at a time.
use vstd::prelude::*;
use crate::exec::batch::RecordBatch;

verus! {

/// The batches of a query's result and how many of them were handed out.
pub struct ResultSet {
    batches: Vec<RecordBatch>,
    idx: usize,
}

impl ResultSet {
    /// All the batches of the result, handed out or not.
    pub closed spec fn all(&self) -> Seq<RecordBatch> {
        self.batches@
    }

    /// How many batches were handed out.
    pub closed spec fn position(&self) -> nat {
        self.idx as nat
    }

    pub fn new(batches: Vec<RecordBatch>) -> (r: ResultSet)
        ensures
            r.all() == batches@,
            r.position() == 0,
    {
        ResultSet { batches, idx: 0 }
    }

    /// The next batch not handed out yet, if any.
    pub fn next_batch(&mut self) -> (r: Option<&RecordBatch>)
        ensures
            final(self).all() == old(self).all(),
            old(self).position() < old(self).all().len() ==> r == Some(&old(self).all()[old(self).position() as int])
                && final(self).position() == old(self).position() + 1,
            old(self).position() >= old(self).all().len() ==> r is None && final(self).position() == old(
                self,
            ).position(),
    {
        if self.idx < self.batches.len() {
            let batch = &self.batches[self.idx];
            self.idx = self.idx + 1;
            Some(batch)
        } else {
            None
        }
    }

    /// All the batches of the result, whether handed out or not.
    pub fn collect(self) -> (r: Vec<RecordBatch>)
        ensures
            r@ == self.all(),
    {
        self.batches
    }
}

} // verus!
