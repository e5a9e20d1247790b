//! The sequential copy of a whole resource over one connection, used when
//! the resource cannot be fetched in ranges.

use vstd::prelude::*;
use crate::error::{DownloadError, Stage};

verus! {

/// What a stream delivers: its reads put end to end, up to the first empty
/// read.
pub open spec fn streamed(reads: Seq<Vec<u8>>) -> Seq<u8>
    decreases reads.len(),
{
    if reads.len() == 0 || reads[0]@.len() == 0 {
        Seq::<u8>::empty()
    } else {
        reads[0]@ + streamed(reads.drop_first())
    }
}

/// The progress of a sequential copy: the number of bytes appended to the
/// output file so far.
pub struct FallbackStreamer {
    written: u64,
}

impl FallbackStreamer {
    /// Bytes appended so far.
    pub closed spec fn spec_written(&self) -> u64 {
        self.written
    }

    /// A copy that has appended nothing yet.
    pub fn new() -> (streamer: FallbackStreamer)
        ensures
            streamer.spec_written() == 0,
    {
        FallbackStreamer { written: 0 }
    }

    /// Bytes appended so far; after the end of the stream, the size of the
    /// file.
    pub fn written(&self) -> (n: u64)
        ensures
            n == self.spec_written(),
    {
        self.written
    }

    /// Takes the size of one read of the response body. `Ok(true)`: the
    /// bytes read are to be appended to the file, and the copy goes on.
    /// `Ok(false)`: the read was empty, the stream has ended. The copy fails
    /// when the file would grow past what a `u64` can count.
    pub fn on_read(&mut self, bytes_read: usize) -> (outcome: Result<bool, DownloadError>)
        ensures
            match outcome {
                Ok(more) => {
                    &&& more == (bytes_read > 0)
                    &&& final(self).spec_written() == old(self).spec_written() + bytes_read
                },
                Err(e) => {
                    &&& old(self).spec_written() + bytes_read > u64::MAX
                    &&& final(self).spec_written() == old(self).spec_written()
                    &&& e == (DownloadError::Filesystem { stage: Stage::Stream })
                },
            },
    {
        if bytes_read == 0 {
            return Ok(false);
        }
        if bytes_read as u64 > u64::MAX - self.written {
            return Err(DownloadError::Filesystem { stage: Stage::Stream });
        }
        self.written = self.written + bytes_read as u64;
        Ok(true)
    }
}

proof fn lemma_streamed_len(reads: Seq<Vec<u8>>)
    requires
        reads.len() > 0,
    ensures
        streamed(reads).len() >= reads[0]@.len(),
{
}

/// Copies a stream, given as the reads that it answered, into a file held in
/// memory.
pub fn copy(reads: &Vec<Vec<u8>>) -> (outcome: Result<Vec<u8>, DownloadError>)
    ensures
        match outcome {
            Ok(file) => file@ == streamed(reads@),
            Err(e) => streamed(reads@).len() > u64::MAX && e == (DownloadError::Filesystem {
                stage: Stage::Stream,
            }),
        },
{
    let mut file: Vec<u8> = Vec::new();
    let mut streamer = FallbackStreamer::new();
    let mut i: usize = 0;
    assert(reads@.skip(0) =~= reads@);
    while i < reads.len()
        invariant
            i <= reads@.len(),
            streamer.spec_written() == file@.len(),
            streamed(reads@) == file@ + streamed(reads@.skip(i as int)),
        decreases reads@.len() - i,
    {
        let ghost rest = reads@.skip(i as int);
        proof {
            assert(rest[0] == reads@[i as int]);
            assert(rest.drop_first() =~= reads@.skip(i + 1));
            lemma_streamed_len(rest);
        }
        match streamer.on_read(reads[i].len()) {
            Ok(true) => {
                let ghost before = file@;
                file.extend_from_slice(reads[i].as_slice());
                assert(file@ =~= before + reads@[i as int]@);
                assert(streamed(reads@) =~= file@ + streamed(reads@.skip(i + 1)));
            },
            Ok(false) => {
                assert(streamed(reads@) =~= file@);
                return Ok(file);
            },
            Err(e) => {
                return Err(e);
            },
        }
        i = i + 1;
    }
    assert(streamed(reads@) =~= file@);
    Ok(file)
}

} // verus!
