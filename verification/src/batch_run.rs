//! The decisions of a run over batches of chunks: which batch comes next, when to stop,
//! and the progress to report after each batch.
use vstd::prelude::*;

verus! {

/// How processing one batch ended.
#[derive(Debug, Clone, Copy, PartialEq, Eq, Structural)]
pub enum BatchOutcome {
    /// Every chunk of the batch was processed.
    Completed,
    /// A shutdown request stopped the batch part way.
    Interrupted,
    /// Processing the batch panicked.
    Panicked,
}

/// The progress reported after a completed batch.
#[derive(Debug, Clone, Copy, PartialEq, Eq, Structural)]
pub struct BatchProgress {
    /// The batch's position, counting from 1.
    pub batch_index: usize,
    pub total_batches: usize,
    pub chunks_in_batch: usize,
    pub chunks_completed: usize,
    pub total_chunks: usize,
}

/// What the run does after a batch.
#[derive(Debug, Clone, Copy, PartialEq, Eq, Structural)]
pub enum BatchStep {
    /// Report this progress and go on.
    Progress(BatchProgress),
    /// Stop without an error.
    Stop,
    /// Stop with an error: the batch starting at `start_index` failed.
    Failed { start_index: usize },
}

/// The part `[start, end)` of a list of `len` chunks that batch `(start_index, batch_size)`
/// covers: from its start up to its end or the list's end, or nothing when it starts past
/// the list.
pub fn batch_slice_bounds(start_index: usize, batch_size: usize, len: usize) -> (bounds: (
    usize,
    usize,
))
    requires
        start_index < len ==> start_index + batch_size <= usize::MAX,
    ensures
        start_index < len ==> bounds == (start_index, if start_index + batch_size <= len {
            (start_index + batch_size) as usize
        } else {
            len
        }),
        start_index >= len ==> bounds.0 == bounds.1,
        bounds.0 <= bounds.1 <= len,
{
    if start_index < len {
        let end = if start_index + batch_size <= len {
            start_index + batch_size
        } else {
            len
        };
        (start_index, end)
    } else {
        (0, 0)
    }
}

/// A run over `batch_ranges` (each a first index and a length) of `total_chunks` chunks.
#[derive(Debug, Clone)]
pub struct BatchRun {
    pub batch_ranges: Vec<(usize, usize)>,
    pub total_chunks: usize,
    /// The position of the next batch in `batch_ranges`.
    pub next_batch: usize,
    pub total_chunks_processed: usize,
    /// Whether progress counts each batch's whole range (`true`) or only the chunks it
    /// actually held (`false`).
    pub whole_ranges: bool,
}

impl BatchRun {
    /// A run that has processed nothing yet.
    pub fn new(batch_ranges: Vec<(usize, usize)>, total_chunks: usize, whole_ranges: bool) -> (run:
        Self)
        ensures
            run.batch_ranges == batch_ranges,
            run.total_chunks == total_chunks,
            run.next_batch == 0,
            run.total_chunks_processed == 0,
            run.whole_ranges == whole_ranges,
    {
        BatchRun { batch_ranges, total_chunks, next_batch: 0, total_chunks_processed: 0, whole_ranges }
    }

    /// The next batch to process, or `None` when a shutdown is requested or no batch is
    /// left.
    pub fn next_range(&self, shutdown_requested: bool) -> (next: Option<(usize, usize)>)
        ensures
            next == if shutdown_requested || self.next_batch >= self.batch_ranges.len() {
                None
            } else {
                Some(self.batch_ranges@[self.next_batch as int])
            },
    {
        if shutdown_requested || self.next_batch >= self.batch_ranges.len() {
            None
        } else {
            Some(self.batch_ranges[self.next_batch])
        }
    }

    /// Whether every batch has been processed.
    pub fn is_exhausted(&self) -> (b: bool)
        ensures
            b == (self.next_batch >= self.batch_ranges.len()),
    {
        self.next_batch >= self.batch_ranges.len()
    }

    /// Records how the next batch ended, `chunks_processed` being the number of chunks it
    /// held. A completed batch moves the run on and reports its progress; an interrupted one
    /// stops the run; a panicked one fails it at the batch's first index.
    pub fn finish_batch(&mut self, outcome: BatchOutcome, chunks_processed: usize) -> (step:
        BatchStep)
        requires
            old(self).next_batch < old(self).batch_ranges.len(),
            old(self).whole_ranges ==> old(self).total_chunks_processed
                + old(self).batch_ranges@[old(self).next_batch as int].1 <= usize::MAX,
            old(self).whole_ranges ==> old(self).batch_ranges@[old(self).next_batch as int].0
                + old(self).batch_ranges@[old(self).next_batch as int].1 <= usize::MAX,
            !old(self).whole_ranges ==> old(self).total_chunks_processed + chunks_processed
                <= usize::MAX,
        ensures
            final(self).batch_ranges == old(self).batch_ranges,
            final(self).total_chunks == old(self).total_chunks,
            final(self).whole_ranges == old(self).whole_ranges,
            ({
                let (start, size) = old(self).batch_ranges@[old(self).next_batch as int];
                let added = if old(self).whole_ranges {
                    size
                } else {
                    chunks_processed
                };
                match outcome {
                    BatchOutcome::Completed => {
                        &&& final(self).next_batch == old(self).next_batch + 1
                        &&& final(self).total_chunks_processed == old(self).total_chunks_processed
                            + added
                        &&& step == BatchStep::Progress(
                            BatchProgress {
                                batch_index: (old(self).next_batch + 1) as usize,
                                total_batches: old(self).batch_ranges.len(),
                                chunks_in_batch: added,
                                chunks_completed: if old(self).whole_ranges {
                                    (start + size) as usize
                                } else {
                                    final(self).total_chunks_processed
                                },
                                total_chunks: old(self).total_chunks,
                            },
                        )
                    },
                    BatchOutcome::Interrupted => {
                        &&& final(self).next_batch == old(self).next_batch
                        &&& final(self).total_chunks_processed == old(self).total_chunks_processed
                        &&& step == BatchStep::Stop
                    },
                    BatchOutcome::Panicked => {
                        &&& final(self).next_batch == old(self).next_batch
                        &&& final(self).total_chunks_processed == old(self).total_chunks_processed
                        &&& step == BatchStep::Failed { start_index: start }
                    },
                }
            }),
    {
        let (start, size) = self.batch_ranges[self.next_batch];
        match outcome {
            BatchOutcome::Completed => {
                let added = if self.whole_ranges {
                    size
                } else {
                    chunks_processed
                };
                self.total_chunks_processed = self.total_chunks_processed + added;
                self.next_batch = self.next_batch + 1;
                let chunks_completed = if self.whole_ranges {
                    start + size
                } else {
                    self.total_chunks_processed
                };
                BatchStep::Progress(
                    BatchProgress {
                        batch_index: self.next_batch,
                        total_batches: self.batch_ranges.len(),
                        chunks_in_batch: added,
                        chunks_completed,
                        total_chunks: self.total_chunks,
                    },
                )
            },
            BatchOutcome::Interrupted => BatchStep::Stop,
            BatchOutcome::Panicked => BatchStep::Failed { start_index: start },
        }
    }
}

} // verus!
