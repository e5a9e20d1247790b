//! The bookkeeping of one worker, which fetches one byte range over one
//! connection and turns each read into a chunk event.

use vstd::prelude::*;
use crate::assembler::{Chunk, ChunkEvent};
use crate::error::{DownloadError, Stage};
use crate::range::ByteRange;

verus! {

/// Size of the buffer that one read of a response body fills: 64 KiB.
pub const READ_BUFFER_SIZE: usize = 65536;

/// What a worker does after a read.
#[derive(Debug)]
pub enum FetchStep {
    /// Send this chunk to the assembler and read on.
    Emit(ChunkEvent),
    /// The range has been delivered in full: stop.
    Finished,
}

/// The progress of one worker through its range.
pub struct FetchWorker {
    range: ByteRange,
    next: u64,
    exhausted: bool,
}

impl FetchWorker {
    #[verifier::type_invariant]
    spec fn within_range(&self) -> bool {
        self.range.start <= self.next <= self.range.end
    }

    /// The range that the worker fetches.
    pub closed spec fn spec_range(&self) -> ByteRange {
        self.range
    }

    /// Offset of the next byte that the worker expects.
    pub closed spec fn spec_cursor(&self) -> nat {
        if self.exhausted {
            (self.range.end + 1) as nat
        } else {
            self.next as nat
        }
    }

    /// Number of bytes of the range that have not arrived yet.
    pub closed spec fn spec_owed(&self) -> nat {
        (self.range.end + 1 - self.spec_cursor()) as nat
    }

    /// A worker at the start of `range`.
    pub fn new(range: ByteRange) -> (worker: FetchWorker)
        requires
            range.wf(),
        ensures
            worker.spec_range() == range,
            worker.spec_cursor() == range.start,
            worker.spec_owed() == range.spec_len(),
    {
        FetchWorker { range, next: range.start, exhausted: false }
    }

    /// The range that the worker fetches.
    pub fn range(&self) -> (range: ByteRange)
        ensures
            range == self.spec_range(),
            range.wf(),
            range.start <= self.spec_cursor() <= range.end + 1,
            self.spec_cursor() + self.spec_owed() == range.end + 1,
    {
        proof {
            use_type_invariant(self);
        }
        self.range
    }

    /// Takes the bytes of one read of the response body.
    ///
    /// Bytes within what the range still owes become a chunk event at the
    /// cursor, which then moves on by their number. An empty read ends the
    /// fetch: in success if nothing is owed, as a connection failure
    /// otherwise. More bytes than the range owes mean that the server did
    /// not keep to the range. After a failure the worker is as before.
    pub fn on_read(&mut self, data: Vec<u8>) -> (outcome: Result<FetchStep, DownloadError>)
        ensures
            final(self).spec_range() == old(self).spec_range(),
            old(self).spec_range().start <= old(self).spec_cursor(),
            old(self).spec_cursor() + old(self).spec_owed() == old(self).spec_range().end + 1,
            match outcome {
                Ok(FetchStep::Emit(event)) => {
                    &&& 0 < data@.len() <= old(self).spec_owed()
                    &&& event@ == (Chunk { offset: old(self).spec_cursor(), bytes: data@ })
                    &&& final(self).spec_cursor() == old(self).spec_cursor() + data@.len()
                    &&& final(self).spec_owed() == old(self).spec_owed() - data@.len()
                },
                Ok(FetchStep::Finished) => {
                    &&& data@.len() == 0
                    &&& old(self).spec_owed() == 0
                    &&& final(self).spec_cursor() == old(self).spec_cursor()
                },
                Err(e) => {
                    &&& final(self).spec_cursor() == old(self).spec_cursor()
                    &&& if data@.len() == 0 {
                        &&& old(self).spec_owed() > 0
                        &&& e == (DownloadError::Connection {
                            stage: Stage::Range(old(self).spec_range()),
                        })
                    } else {
                        &&& data@.len() > old(self).spec_owed()
                        &&& e == (DownloadError::ServerCapability {
                            stage: Stage::Range(old(self).spec_range()),
                        })
                    }
                },
            },
    {
        proof {
            use_type_invariant(&*self);
        }
        let len: usize = data.len();
        if len == 0 {
            if self.exhausted {
                return Ok(FetchStep::Finished);
            }
            return Err(DownloadError::Connection { stage: Stage::Range(self.range) });
        }
        if self.exhausted || (len - 1) as u64 > self.range.end - self.next {
            return Err(DownloadError::ServerCapability { stage: Stage::Range(self.range) });
        }
        let offset: u64 = self.next;
        if (len - 1) as u64 == self.range.end - self.next {
            self.exhausted = true;
        } else {
            self.next = self.next + len as u64;
        }
        Ok(FetchStep::Emit(ChunkEvent { offset, bytes: data }))
    }
}

} // verus!
