//! What one copy of a file to several destinations produced: the source read once,
//! hashed while read, written to each destination; one destination failing does not
//! stop the others. The reading, writing and threads are the application's part.

use vstd::prelude::*;
use crate::engine::hasher::{HashAlgorithm, HashValue};

verus! {

/// The size of the chunks the source is read in: 4 MiB.
pub const DEFAULT_CHUNK_SIZE: usize = 4194304;

/// How many chunks may wait for each destination writer.
pub const QUEUE_DEPTH: usize = 4;

/// What happened at one destination.
#[derive(Debug, Clone, PartialEq, Eq)]
pub struct DestinationOutcome {
    pub path: String,
    pub bytes_written: u64,
    pub error: Option<String>,
}

impl DestinationOutcome {
    /// Whether this destination got the whole file.
    pub fn succeeded(&self) -> (r: bool)
        ensures
            r == (self.error is None),
    {
        self.error.is_none()
    }
}

/// What copying one file produced.
#[derive(Debug, Clone)]
pub struct CopyResult {
    pub source_hash: HashValue,
    pub source_bytes_read: u64,
    pub destinations: Vec<DestinationOutcome>,
    pub cancelled: bool,
}

impl CopyResult {
    /// Whether the copy ran to the end and every destination succeeded.
    pub fn all_succeeded(&self) -> (r: bool)
        ensures
            r == (!self.cancelled && forall|i: int| 0 <= i < self.destinations@.len() ==> (#[trigger] self.destinations@[i]).error is None),
    {
        if self.cancelled {
            return false;
        }
        let mut i: usize = 0;
        while i < self.destinations.len()
            invariant
                i <= self.destinations@.len(),
                forall|k: int| 0 <= k < i ==> (#[trigger] self.destinations@[k]).error is None,
            decreases self.destinations@.len() - i,
        {
            if !self.destinations[i].succeeded() {
                return false;
            }
            i = i + 1;
        }
        true
    }

    /// The destinations that failed, in order.
    pub fn failed_destinations(&self) -> (r: Vec<DestinationOutcome>)
        ensures
            r@ == self.destinations@.filter(|d: DestinationOutcome| d.error is Some),
    {
        let mut out: Vec<DestinationOutcome> = Vec::new();
        let mut i: usize = 0;
        while i < self.destinations.len()
            invariant
                i <= self.destinations@.len(),
                out@ == self.destinations@.take(i as int).filter(|d: DestinationOutcome| d.error is Some),
            decreases self.destinations@.len() - i,
        {
            proof {
                assert(self.destinations@.take(i + 1).drop_last() =~= self.destinations@.take(i as int));
                reveal(Seq::filter);
            }
            let d = &self.destinations[i];
            if !d.succeeded() {
                out.push(copy_outcome(d));
            }
            i = i + 1;
        }
        proof {
            assert(self.destinations@.take(self.destinations@.len() as int) =~= self.destinations@);
        }
        out
    }
}

fn copy_outcome(d: &DestinationOutcome) -> (r: DestinationOutcome)
    ensures
        r == *d,
{
    DestinationOutcome {
        path: d.path.clone(),
        bytes_written: d.bytes_written,
        error: match &d.error {
            Some(e) => Some(e.clone()),
            None => None,
        },
    }
}

/// How a copy runs: the hash algorithm, the chunk size and the queue depth.
#[derive(Debug, Clone)]
pub struct PipelineOptions {
    pub algorithm: HashAlgorithm,
    pub chunk_size: usize,
    pub queue_depth: usize,
}

impl Default for PipelineOptions {
    /// xxh64, 4 MiB chunks, four chunks of queue per destination.
    fn default() -> (r: PipelineOptions)
        ensures
            r.algorithm == HashAlgorithm::Xxh64,
            r.chunk_size == DEFAULT_CHUNK_SIZE,
            r.queue_depth == QUEUE_DEPTH,
    {
        PipelineOptions { algorithm: HashAlgorithm::Xxh64, chunk_size: DEFAULT_CHUNK_SIZE, queue_depth: QUEUE_DEPTH }
    }
}

} // verus!
