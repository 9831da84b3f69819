//! Batching and counting for the bulk text indexer.
//!
//! The indexer buffers documents, hands out full batches to be written, and
//! counts per-document outcomes reported back for each batch written.
use vstd::prelude::*;
use crate::models::place::Place;

verus! {

/// Buffers documents into batches and keeps the counts of written and failed ones.
pub struct BulkIndexer {
    batch_size: usize,
    buffer: Vec<Place>,
    submitted: u64,
    in_flight: u64,
    total_indexed: u64,
    total_errors: u64,
}

impl BulkIndexer {
    /// Every submitted document is buffered, in a batch being written, written, or failed.
    pub closed spec fn wf(&self) -> bool {
        &&& self.batch_size > 0
        &&& self.buffer@.len() < self.batch_size
        &&& self.total_indexed + self.total_errors + self.in_flight + self.buffer@.len() == self.submitted
    }

    pub closed spec fn batch_size_spec(&self) -> nat {
        self.batch_size as nat
    }

    /// Documents handed to `add` so far.
    pub closed spec fn submitted_spec(&self) -> nat {
        self.submitted as nat
    }

    /// Documents in batches handed out and not yet reported.
    pub closed spec fn in_flight_spec(&self) -> nat {
        self.in_flight as nat
    }

    /// Documents waiting in the buffer.
    pub closed spec fn buffered_spec(&self) -> nat {
        self.buffer@.len()
    }

    pub closed spec fn indexed_spec(&self) -> nat {
        self.total_indexed as nat
    }

    pub closed spec fn errors_spec(&self) -> nat {
        self.total_errors as nat
    }

    pub fn new(batch_size: usize) -> (r: BulkIndexer)
        requires
            batch_size > 0,
        ensures
            r.wf(),
            r.batch_size_spec() == batch_size,
            r.submitted_spec() == 0,
            r.in_flight_spec() == 0,
            r.buffered_spec() == 0,
            r.indexed_spec() == 0,
            r.errors_spec() == 0,
    {
        BulkIndexer {
            batch_size,
            buffer: Vec::new(),
            submitted: 0,
            in_flight: 0,
            total_indexed: 0,
            total_errors: 0,
        }
    }

    /// Buffer a document; when the buffer reaches the batch size, the full
    /// batch is handed out to be written.
    pub fn add(&mut self, place: Place) -> (batch: Option<Vec<Place>>)
        requires
            old(self).wf(),
            old(self).submitted_spec() < u64::MAX,
        ensures
            final(self).wf(),
            final(self).submitted_spec() == old(self).submitted_spec() + 1,
            final(self).indexed_spec() == old(self).indexed_spec(),
            final(self).errors_spec() == old(self).errors_spec(),
            final(self).batch_size_spec() == old(self).batch_size_spec(),
            batch.is_some() == (old(self).buffered_spec() + 1 == old(self).batch_size_spec()),
            batch.is_some() ==> batch.unwrap()@.len() == old(self).batch_size_spec()
                && final(self).buffered_spec() == 0
                && final(self).in_flight_spec() == old(self).in_flight_spec() + batch.unwrap()@.len(),
            batch.is_none() ==> final(self).buffered_spec() == old(self).buffered_spec() + 1
                && final(self).in_flight_spec() == old(self).in_flight_spec(),
    {
        self.buffer.push(place);
        self.submitted = self.submitted + 1;
        if self.buffer.len() >= self.batch_size {
            let mut out: Vec<Place> = Vec::new();
            std::mem::swap(&mut out, &mut self.buffer);
            self.in_flight = self.in_flight + out.len() as u64;
            Some(out)
        } else {
            None
        }
    }

    /// Hand out whatever is buffered, for the final write.
    pub fn take_remaining(&mut self) -> (batch: Vec<Place>)
        requires
            old(self).wf(),
        ensures
            final(self).wf(),
            batch@.len() == old(self).buffered_spec(),
            final(self).buffered_spec() == 0,
            final(self).in_flight_spec() == old(self).in_flight_spec() + batch@.len(),
            final(self).submitted_spec() == old(self).submitted_spec(),
            final(self).indexed_spec() == old(self).indexed_spec(),
            final(self).errors_spec() == old(self).errors_spec(),
            final(self).batch_size_spec() == old(self).batch_size_spec(),
    {
        let mut out: Vec<Place> = Vec::new();
        std::mem::swap(&mut out, &mut self.buffer);
        self.in_flight = self.in_flight + out.len() as u64;
        out
    }

    /// Report the outcome of a written batch of `count` documents, `failed` of which were refused.
    pub fn record_batch(&mut self, count: u64, failed: u64)
        requires
            old(self).wf(),
            failed <= count,
            count <= old(self).in_flight_spec(),
        ensures
            final(self).wf(),
            final(self).indexed_spec() == old(self).indexed_spec() + (count - failed),
            final(self).errors_spec() == old(self).errors_spec() + failed,
            final(self).in_flight_spec() == old(self).in_flight_spec() - count,
            final(self).buffered_spec() == old(self).buffered_spec(),
            final(self).submitted_spec() == old(self).submitted_spec(),
            final(self).batch_size_spec() == old(self).batch_size_spec(),
    {
        self.in_flight = self.in_flight - count;
        self.total_indexed = self.total_indexed + (count - failed);
        self.total_errors = self.total_errors + failed;
    }

    /// Current `(indexed, errors)` counts.
    pub fn stats(&self) -> (r: (u64, u64))
        ensures
            r.0 == self.indexed_spec(),
            r.1 == self.errors_spec(),
    {
        (self.total_indexed, self.total_errors)
    }

    /// Final `(indexed, errors)` counts, once every batch has been reported.
    pub fn finish(self) -> (r: (u64, u64))
        requires
            self.wf(),
            self.in_flight_spec() == 0,
            self.buffered_spec() == 0,
        ensures
            r.0 == self.indexed_spec(),
            r.1 == self.errors_spec(),
            r.0 + r.1 == self.submitted_spec(),
    {
        (self.total_indexed, self.total_errors)
    }
}

/// At the end of indexing, with every batch reported, written and failed
/// documents add up to the documents submitted.
pub proof fn law_counts_add_up(b: BulkIndexer)
    requires
        b.wf(),
        b.in_flight_spec() == 0,
        b.buffered_spec() == 0,
    ensures
        b.indexed_spec() + b.errors_spec() == b.submitted_spec(),
{
}

} // verus!
