//! Putting a file together from chunks that arrive in any order.
//!
//! The output file is modelled as a sequence of bytes of fixed length, and a
//! chunk as a write at an offset. The assembler itself only counts: it owns
//! the number of bytes still owed and says of every chunk whether it may be
//! written.

use vstd::prelude::*;
use crate::error::DownloadError;

verus! {

/// A contiguous piece of a resource, as a worker delivers it.
#[derive(Clone, Debug, PartialEq, Eq)]
pub struct ChunkEvent {
    /// Offset of the first byte within the resource.
    pub offset: u64,
    /// The bytes.
    pub bytes: Vec<u8>,
}

/// A chunk as a mathematical value.
pub struct Chunk {
    pub offset: nat,
    pub bytes: Seq<u8>,
}

impl View for ChunkEvent {
    type V = Chunk;

    open spec fn view(&self) -> Chunk {
        Chunk { offset: self.offset as nat, bytes: self.bytes@ }
    }
}

impl Chunk {
    /// Whether the chunk lies within a file of `total` bytes.
    pub open spec fn fits(self, total: nat) -> bool {
        self.offset + self.bytes.len() <= total
    }

    /// Whether the chunk holds the byte at offset `p`.
    pub open spec fn covers(self, p: int) -> bool {
        self.offset <= p < self.offset + self.bytes.len()
    }

    /// Whether the chunk holds what `source` holds at the same offsets.
    pub open spec fn slice_of(self, source: Seq<u8>) -> bool {
        &&& self.fits(source.len())
        &&& self.bytes == source.subrange(
            self.offset as int,
            (self.offset + self.bytes.len()) as int,
        )
    }
}

/// The chunks of a list of events.
pub open spec fn chunks_of(events: Seq<ChunkEvent>) -> Seq<Chunk> {
    events.map_values(|e: ChunkEvent| e@)
}

/// A file of `total` zero bytes.
pub open spec fn blank(total: nat) -> Seq<u8> {
    Seq::new(total, |i: int| 0u8)
}

/// `file` after `chunk` is written at its offset. The length of the file
/// stays; of a chunk that does not fit, only what lies within the file is
/// written.
pub open spec fn write_at(file: Seq<u8>, chunk: Chunk) -> Seq<u8> {
    Seq::new(
        file.len(),
        |i: int|
            if chunk.covers(i) {
                chunk.bytes[i - chunk.offset]
            } else {
                file[i]
            },
    )
}

/// `file` after the chunks are written one after the other.
pub open spec fn assembled(file: Seq<u8>, chunks: Seq<Chunk>) -> Seq<u8>
    decreases chunks.len(),
{
    if chunks.len() == 0 {
        file
    } else {
        assembled(write_at(file, chunks[0]), chunks.drop_first())
    }
}

/// Whether one of the chunks holds the byte at offset `p`.
pub open spec fn covered(chunks: Seq<Chunk>, p: int) -> bool {
    exists|k: int| 0 <= k < chunks.len() && (#[trigger] chunks[k]).covers(p)
}

/// What a run of the assembler over `chunks` ends in, for a file that still
/// owes `remaining` bytes: the file once nothing is owed; an integrity
/// error when the chunks run out first, or when a chunk does not fit the
/// file or brings more than is owed.
pub open spec fn spec_run(file: Seq<u8>, remaining: nat, chunks: Seq<Chunk>) -> Result<
    Seq<u8>,
    DownloadError,
>
    decreases chunks.len(),
{
    if remaining == 0 {
        Ok(file)
    } else if chunks.len() == 0 {
        Err(DownloadError::Integrity { missing: remaining as u64 })
    } else if chunks[0].fits(file.len()) && chunks[0].bytes.len() <= remaining {
        spec_run(
            write_at(file, chunks[0]),
            (remaining - chunks[0].bytes.len()) as nat,
            chunks.drop_first(),
        )
    } else {
        Err(DownloadError::Integrity { missing: remaining as u64 })
    }
}

/// The single consumer of chunk events: it knows the size of the file and
/// how many bytes are still owed.
pub struct Assembler {
    total_length: u64,
    remaining: u64,
}

impl Assembler {
    #[verifier::type_invariant]
    spec fn within_total(&self) -> bool {
        self.remaining <= self.total_length
    }

    /// Size of the file.
    pub closed spec fn spec_total_length(&self) -> u64 {
        self.total_length
    }

    /// Bytes still owed.
    pub closed spec fn spec_remaining(&self) -> u64 {
        self.remaining
    }

    /// An assembler for a file of `total_length` bytes, all of them owed.
    pub fn new(total_length: u64) -> (assembler: Assembler)
        ensures
            assembler.spec_total_length() == total_length,
            assembler.spec_remaining() == total_length,
    {
        Assembler { total_length, remaining: total_length }
    }

    /// Size of the file.
    pub fn total_length(&self) -> (n: u64)
        ensures
            n == self.spec_total_length(),
    {
        self.total_length
    }

    /// Bytes still owed.
    pub fn remaining(&self) -> (n: u64)
        ensures
            n == self.spec_remaining(),
            n <= self.spec_total_length(),
    {
        proof {
            use_type_invariant(self);
        }
        self.remaining
    }

    /// Whether every byte has arrived.
    pub fn is_complete(&self) -> (done: bool)
        ensures
            done == (self.spec_remaining() == 0),
    {
        self.remaining == 0
    }

    /// Takes note of a chunk that has arrived. The chunk is accepted if it
    /// lies within the file and brings no more than is owed; then the caller
    /// writes it at its offset, and the answer tells whether the file is
    /// complete. Otherwise nothing changes and the download has failed.
    pub fn accept(&mut self, event: &ChunkEvent) -> (outcome: Result<bool, DownloadError>)
        ensures
            final(self).spec_total_length() == old(self).spec_total_length(),
            match outcome {
                Ok(done) => {
                    &&& event@.fits(old(self).spec_total_length() as nat)
                    &&& event@.bytes.len() <= old(self).spec_remaining()
                    &&& final(self).spec_remaining() == old(self).spec_remaining()
                        - event@.bytes.len()
                    &&& done == (final(self).spec_remaining() == 0)
                },
                Err(e) => {
                    &&& !(event@.fits(old(self).spec_total_length() as nat) && event@.bytes.len()
                        <= old(self).spec_remaining())
                    &&& final(self).spec_remaining() == old(self).spec_remaining()
                    &&& e == (DownloadError::Integrity { missing: old(self).spec_remaining() })
                },
            },
    {
        proof {
            use_type_invariant(&*self);
        }
        let len: u64 = event.bytes.len() as u64;
        if event.offset > self.total_length || len > self.total_length - event.offset || len
            > self.remaining {
            return Err(DownloadError::Integrity { missing: self.remaining });
        }
        self.remaining = self.remaining - len;
        Ok(self.remaining == 0)
    }

    /// Closes the run when no more chunks will come: an integrity error if
    /// bytes are still owed.
    pub fn finish(&self) -> (outcome: Result<(), DownloadError>)
        ensures
            match outcome {
                Ok(_) => self.spec_remaining() == 0,
                Err(e) => self.spec_remaining() > 0 && e == (DownloadError::Integrity {
                    missing: self.spec_remaining(),
                }),
            },
    {
        if self.remaining == 0 {
            Ok(())
        } else {
            Err(DownloadError::Integrity { missing: self.remaining })
        }
    }
}

/// Writes `event` into `file` at its offset.
pub fn write_chunk(file: &mut Vec<u8>, event: &ChunkEvent)
    requires
        event@.fits(old(file)@.len()),
    ensures
        final(file)@ == write_at(old(file)@, event@),
{
    let size: usize = file.len();
    assert(event.offset <= size);
    let start: usize = event.offset as usize;
    let mut i: usize = 0;
    while i < event.bytes.len()
        invariant
            i <= event.bytes@.len(),
            start == event.offset,
            file@.len() == old(file)@.len(),
            file@.len() == size,
            event@.fits(file@.len()),
            forall|p: int|
                0 <= p < file@.len() ==> file@[p] == (if start <= p < start + i {
                    event.bytes@[p - start]
                } else {
                    old(file)@[p]
                }),
        decreases event.bytes@.len() - i,
    {
        file[start + i] = event.bytes[i];
        i = i + 1;
    }
    assert(file@ =~= write_at(old(file)@, event@));
}

/// Runs the assembler over the events of a whole download, with the output
/// file held in memory. The file starts as `total_length` zero bytes; events
/// are taken in order until nothing is owed.
pub fn run(total_length: u64, events: &Vec<ChunkEvent>) -> (outcome: Result<Vec<u8>, DownloadError>)
    requires
        total_length <= usize::MAX,
    ensures
        match outcome {
            Ok(file) => spec_run(blank(total_length as nat), total_length as nat, chunks_of(events@))
                == Ok::<Seq<u8>, DownloadError>(file@),
            Err(e) => spec_run(blank(total_length as nat), total_length as nat, chunks_of(events@))
                == Err::<Seq<u8>, DownloadError>(e),
        },
{
    let mut file: Vec<u8> = vec![0u8; total_length as usize];
    assert(file@ =~= blank(total_length as nat));
    let mut assembler = Assembler::new(total_length);
    let ghost chunks = chunks_of(events@);
    assert(chunks.skip(0) =~= chunks);
    let mut i: usize = 0;
    while !assembler.is_complete()
        invariant
            i <= events@.len(),
            chunks == chunks_of(events@),
            file@.len() == total_length,
            assembler.spec_total_length() == total_length,
            spec_run(blank(total_length as nat), total_length as nat, chunks) == spec_run(
                file@,
                assembler.spec_remaining() as nat,
                chunks.skip(i as int),
            ),
        decreases events@.len() - i,
    {
        if i >= events.len() {
            return match assembler.finish() {
                Ok(_) => Ok(file),
                Err(e) => Err(e),
            };
        }
        proof {
            assert(chunks.skip(i as int)[0] == events@[i as int]@);
            assert(chunks.skip(i as int).drop_first() =~= chunks.skip(i + 1));
        }
        match assembler.accept(&events[i]) {
            Ok(_) => {
                write_chunk(&mut file, &events[i]);
            },
            Err(e) => {
                return Err(e);
            },
        }
        i = i + 1;
    }
    Ok(file)
}

/// Total number of bytes that the chunks bring.
pub open spec fn total_bytes(chunks: Seq<Chunk>) -> nat
    decreases chunks.len(),
{
    if chunks.len() == 0 {
        0
    } else {
        chunks[0].bytes.len() + total_bytes(chunks.drop_first())
    }
}

/// Whether every chunk holds what `source` holds at the same offsets.
pub open spec fn all_slices_of(chunks: Seq<Chunk>, source: Seq<u8>) -> bool {
    forall|k: int| 0 <= k < chunks.len() ==> (#[trigger] chunks[k]).slice_of(source)
}

/// Whether no byte offset is held by two of the chunks.
pub open spec fn pairwise_disjoint(chunks: Seq<Chunk>) -> bool {
    forall|i: int, j: int, p: int|
        0 <= i < chunks.len() && 0 <= j < chunks.len() && i != j ==> !(#[trigger] chunks[i].covers(
            p,
        ) && #[trigger] chunks[j].covers(p))
}

/// How many of the offsets below `n` are held by one of the chunks.
pub open spec fn covered_count(chunks: Seq<Chunk>, n: nat) -> nat
    decreases n,
{
    if n == 0 {
        0
    } else if covered(chunks, n - 1) {
        covered_count(chunks, (n - 1) as nat) + 1
    } else {
        covered_count(chunks, (n - 1) as nat)
    }
}

/// How many of the offsets below `n` the chunk holds.
pub open spec fn overlap(chunk: Chunk, n: nat) -> nat {
    if n <= chunk.offset {
        0
    } else if n >= chunk.offset + chunk.bytes.len() {
        chunk.bytes.len()
    } else {
        (n - chunk.offset) as nat
    }
}

proof fn lemma_covered_split(chunks: Seq<Chunk>, p: int)
    requires
        chunks.len() > 0,
    ensures
        covered(chunks, p) <==> chunks[0].covers(p) || covered(chunks.drop_first(), p),
{
    let rest = chunks.drop_first();
    if covered(chunks, p) {
        let k = choose|k: int| 0 <= k < chunks.len() && (#[trigger] chunks[k]).covers(p);
        if k > 0 {
            assert(rest[k - 1].covers(p));
        }
    }
    if covered(rest, p) {
        let k = choose|k: int| 0 <= k < rest.len() && (#[trigger] rest[k]).covers(p);
        assert(chunks[k + 1].covers(p));
    }
    if chunks[0].covers(p) {
        assert(covered(chunks, p));
    }
}

/// Written chunks of a common source leave, at every offset, the byte of
/// the source where a chunk holds that offset and the byte of the file
/// where none does.
pub proof fn lemma_assembled_bytes(file: Seq<u8>, source: Seq<u8>, chunks: Seq<Chunk>)
    requires
        file.len() == source.len(),
        all_slices_of(chunks, source),
    ensures
        assembled(file, chunks).len() == file.len(),
        forall|p: int|
            0 <= p < file.len() ==> #[trigger] assembled(file, chunks)[p] == (if covered(
                chunks,
                p,
            ) {
                source[p]
            } else {
                file[p]
            }),
    decreases chunks.len(),
{
    if chunks.len() > 0 {
        let first = chunks[0];
        let rest = chunks.drop_first();
        let next = write_at(file, first);
        assert(first.slice_of(source));
        assert forall|k: int| 0 <= k < rest.len() implies (#[trigger] rest[k]).slice_of(
            source,
        ) by {
            assert(rest[k] == chunks[k + 1]);
        }
        lemma_assembled_bytes(next, source, rest);
        assert forall|p: int| 0 <= p < file.len() implies #[trigger] assembled(file, chunks)[p]
            == (if covered(chunks, p) {
            source[p]
        } else {
            file[p]
        }) by {
            lemma_covered_split(chunks, p);
            if first.covers(p) {
                assert(first.bytes[p - first.offset] == source[p]);
            }
        }
    } else {
        assert forall|p: int| 0 <= p < file.len() implies !covered(chunks, p) by {}
    }
}

/// Chunks of a source that between them hold every offset put the source
/// together, whatever the file held before.
pub proof fn lemma_assembly_reproduces_source(file: Seq<u8>, source: Seq<u8>, chunks: Seq<Chunk>)
    requires
        file.len() == source.len(),
        all_slices_of(chunks, source),
        forall|p: int| 0 <= p < source.len() ==> covered(chunks, p),
    ensures
        assembled(file, chunks) == source,
{
    lemma_assembled_bytes(file, source, chunks);
    assert(assembled(file, chunks) =~= source);
}

proof fn lemma_same_members(first: Seq<Chunk>, second: Seq<Chunk>, k: int)
    requires
        first.to_multiset() == second.to_multiset(),
        0 <= k < second.len(),
    ensures
        exists|j: int| 0 <= j < first.len() && first[j] == second[k],
{
    first.to_multiset_ensures();
    second.to_multiset_ensures();
    assert(second.contains(second[k]));
    assert(second.to_multiset().count(second[k]) > 0);
    assert(first.to_multiset().count(second[k]) > 0);
    assert(first.contains(second[k]));
}

/// The order in which chunks of a source arrive does not matter: two runs
/// that write the same chunks, each as often as the other, in whatever
/// order, leave the same file.
pub proof fn lemma_assembly_order_independent(
    file: Seq<u8>,
    source: Seq<u8>,
    first: Seq<Chunk>,
    second: Seq<Chunk>,
)
    requires
        file.len() == source.len(),
        all_slices_of(first, source),
        first.to_multiset() == second.to_multiset(),
    ensures
        assembled(file, first) == assembled(file, second),
{
    assert forall|k: int| 0 <= k < second.len() implies (#[trigger] second[k]).slice_of(
        source,
    ) by {
        lemma_same_members(first, second, k);
    }
    lemma_assembled_bytes(file, source, first);
    lemma_assembled_bytes(file, source, second);
    assert forall|p: int| 0 <= p < file.len() implies covered(first, p) == covered(second, p) by {
        if covered(first, p) {
            let k = choose|k: int| 0 <= k < first.len() && (#[trigger] first[k]).covers(p);
            lemma_same_members(second, first, k);
            let j = choose|j: int| 0 <= j < second.len() && second[j] == first[k];
            assert(second[j].covers(p));
        }
        if covered(second, p) {
            let k = choose|k: int| 0 <= k < second.len() && (#[trigger] second[k]).covers(p);
            lemma_same_members(first, second, k);
            let j = choose|j: int| 0 <= j < first.len() && first[j] == second[k];
            assert(first[j].covers(p));
        }
    }
    assert(assembled(file, first) =~= assembled(file, second));
}

proof fn lemma_covered_count_full(chunks: Seq<Chunk>, n: nat)
    ensures
        covered_count(chunks, n) <= n,
        covered_count(chunks, n) == n ==> forall|p: int| 0 <= p < n ==> covered(chunks, p),
    decreases n,
{
    if n > 0 {
        lemma_covered_count_full(chunks, (n - 1) as nat);
    }
}

proof fn lemma_covered_count_step(chunks: Seq<Chunk>, n: nat)
    requires
        chunks.len() > 0,
        pairwise_disjoint(chunks),
    ensures
        covered_count(chunks, n) == covered_count(chunks.drop_first(), n) + overlap(chunks[0], n),
    decreases n,
{
    if n > 0 {
        let rest = chunks.drop_first();
        let p: int = n - 1;
        lemma_covered_count_step(chunks, (n - 1) as nat);
        lemma_covered_split(chunks, p);
        if chunks[0].covers(p) && covered(rest, p) {
            let k = choose|k: int| 0 <= k < rest.len() && (#[trigger] rest[k]).covers(p);
            assert(chunks[k + 1].covers(p));
            assert(false);
        }
    }
}

proof fn lemma_covered_count_total(chunks: Seq<Chunk>, total: nat)
    requires
        pairwise_disjoint(chunks),
        forall|k: int| 0 <= k < chunks.len() ==> (#[trigger] chunks[k]).fits(total),
    ensures
        covered_count(chunks, total) == total_bytes(chunks),
    decreases chunks.len(),
{
    if chunks.len() == 0 {
        lemma_covered_count_none(chunks, total);
    } else {
        let rest = chunks.drop_first();
        assert forall|k: int| 0 <= k < rest.len() implies (#[trigger] rest[k]).fits(total) by {
            assert(rest[k] == chunks[k + 1]);
        }
        assert(pairwise_disjoint(rest)) by {
            assert forall|i: int, j: int, p: int|
                0 <= i < rest.len() && 0 <= j < rest.len() && i != j implies !(
            #[trigger] rest[i].covers(p) && #[trigger] rest[j].covers(p)) by {
                assert(rest[i] == chunks[i + 1]);
                assert(rest[j] == chunks[j + 1]);
                assert(!(chunks[i + 1].covers(p) && chunks[j + 1].covers(p)));
            }
        }
        lemma_covered_count_total(rest, total);
        lemma_covered_count_step(chunks, total);
        assert(chunks[0].fits(total));
    }
}

proof fn lemma_covered_count_none(chunks: Seq<Chunk>, n: nat)
    requires
        chunks.len() == 0,
    ensures
        covered_count(chunks, n) == 0,
    decreases n,
{
    if n > 0 {
        lemma_covered_count_none(chunks, (n - 1) as nat);
    }
}

/// Chunks that share no offset, lie within `total` bytes and bring `total`
/// bytes between them hold every offset below `total`.
pub proof fn lemma_tiling_covers(chunks: Seq<Chunk>, total: nat)
    requires
        pairwise_disjoint(chunks),
        forall|k: int| 0 <= k < chunks.len() ==> (#[trigger] chunks[k]).fits(total),
        total_bytes(chunks) == total,
    ensures
        forall|p: int| 0 <= p < total ==> covered(chunks, p),
{
    lemma_covered_count_total(chunks, total);
    lemma_covered_count_full(chunks, total);
}

proof fn lemma_empty_chunks_write_nothing(file: Seq<u8>, chunks: Seq<Chunk>)
    requires
        total_bytes(chunks) == 0,
    ensures
        assembled(file, chunks) == file,
    decreases chunks.len(),
{
    if chunks.len() > 0 {
        assert(write_at(file, chunks[0]) =~= file);
        lemma_empty_chunks_write_nothing(file, chunks.drop_first());
    }
}

/// A run over chunks that lie within the file and bring exactly what is
/// owed succeeds, and leaves the file with all of them written.
pub proof fn lemma_run_is_assembly(file: Seq<u8>, remaining: nat, chunks: Seq<Chunk>)
    requires
        forall|k: int| 0 <= k < chunks.len() ==> (#[trigger] chunks[k]).fits(file.len()),
        total_bytes(chunks) == remaining,
    ensures
        spec_run(file, remaining, chunks) == Ok::<Seq<u8>, DownloadError>(
            assembled(file, chunks),
        ),
    decreases chunks.len(),
{
    if remaining == 0 {
        lemma_empty_chunks_write_nothing(file, chunks);
    } else {
        let rest = chunks.drop_first();
        assert(chunks[0].fits(file.len()));
        assert forall|k: int| 0 <= k < rest.len() implies (#[trigger] rest[k]).fits(
            file.len(),
        ) by {
            assert(rest[k] == chunks[k + 1]);
        }
        lemma_run_is_assembly(
            write_at(file, chunks[0]),
            (remaining - chunks[0].bytes.len()) as nat,
            rest,
        );
    }
}

/// Whatever the order in which they arrive, chunks of a source that share
/// no offset and bring as many bytes as the source holds make the run
/// succeed with a file that equals the source byte for byte.
pub proof fn lemma_run_reproduces_source(source: Seq<u8>, chunks: Seq<Chunk>)
    requires
        all_slices_of(chunks, source),
        pairwise_disjoint(chunks),
        total_bytes(chunks) == source.len(),
    ensures
        spec_run(blank(source.len()), source.len(), chunks) == Ok::<Seq<u8>, DownloadError>(
            source,
        ),
{
    let file = blank(source.len());
    assert forall|k: int| 0 <= k < chunks.len() implies (#[trigger] chunks[k]).fits(
        source.len(),
    ) by {
        assert(chunks[k].slice_of(source));
    }
    lemma_run_is_assembly(file, source.len(), chunks);
    lemma_tiling_covers(chunks, source.len());
    lemma_assembly_reproduces_source(file, source, chunks);
}

proof fn lemma_total_bytes_remove(chunks: Seq<Chunk>, j: int)
    requires
        0 <= j < chunks.len(),
    ensures
        total_bytes(chunks) == chunks[j].bytes.len() + total_bytes(chunks.remove(j)),
    decreases chunks.len(),
{
    if j == 0 {
        assert(chunks.remove(0) =~= chunks.drop_first());
    } else {
        let rest = chunks.drop_first();
        lemma_total_bytes_remove(rest, j - 1);
        assert(chunks.remove(j).drop_first() =~= rest.remove(j - 1));
    }
}

proof fn lemma_removed_members(first: Seq<Chunk>, second: Seq<Chunk>, i: int, j: int)
    requires
        first.to_multiset() == second.to_multiset(),
        0 <= i < first.len(),
        0 <= j < second.len(),
        first[i] == second[j],
    ensures
        first.remove(i).to_multiset() == second.remove(j).to_multiset(),
{
    first.to_multiset_ensures();
    second.to_multiset_ensures();
    assert(first.remove(i).to_multiset() =~= first.to_multiset().remove(first[i]));
    assert(second.remove(j).to_multiset() =~= second.to_multiset().remove(second[j]));
}

proof fn lemma_total_bytes_reordered(first: Seq<Chunk>, second: Seq<Chunk>)
    requires
        first.to_multiset() == second.to_multiset(),
    ensures
        total_bytes(first) == total_bytes(second),
    decreases first.len(),
{
    first.to_multiset_ensures();
    second.to_multiset_ensures();
    if first.len() > 0 {
        lemma_same_members(second, first, 0);
        let j = choose|j: int| 0 <= j < second.len() && second[j] == first[0];
        lemma_removed_members(first, second, 0, j);
        lemma_total_bytes_reordered(first.remove(0), second.remove(j));
        lemma_total_bytes_remove(first, 0);
        lemma_total_bytes_remove(second, j);
    }
}

proof fn lemma_twice_in_multiset(chunks: Seq<Chunk>, i: int, j: int)
    requires
        0 <= i < j < chunks.len(),
        chunks[i] == chunks[j],
    ensures
        chunks.to_multiset().count(chunks[i]) >= 2,
{
    let rest = chunks.remove(i);
    chunks.to_multiset_ensures();
    rest.to_multiset_ensures();
    assert(rest[j - 1] == chunks[j]);
    assert(rest.contains(chunks[i]));
    assert(rest.to_multiset().count(chunks[i]) > 0);
    assert(rest.to_multiset() =~= chunks.to_multiset().remove(chunks[i]));
}

proof fn lemma_twice_in_sequence(chunks: Seq<Chunk>, x: Chunk)
    requires
        chunks.to_multiset().count(x) >= 2,
    ensures
        exists|a: int, b: int|
            0 <= a < chunks.len() && 0 <= b < chunks.len() && a != b && chunks[a] == x
                && chunks[b] == x,
{
    chunks.to_multiset_ensures();
    assert(chunks.contains(x));
    let a = choose|a: int| 0 <= a < chunks.len() && chunks[a] == x;
    let rest = chunks.remove(a);
    rest.to_multiset_ensures();
    assert(rest.to_multiset() =~= chunks.to_multiset().remove(chunks[a]));
    assert(rest.to_multiset().count(x) > 0);
    assert(rest.contains(x));
    let r = choose|r: int| 0 <= r < rest.len() && rest[r] == x;
    let b: int = if r < a {
        r
    } else {
        r + 1
    };
    assert(chunks[b] == x);
    assert(a != b);
}

proof fn lemma_disjoint_reordered(first: Seq<Chunk>, second: Seq<Chunk>)
    requires
        first.to_multiset() == second.to_multiset(),
        pairwise_disjoint(first),
    ensures
        pairwise_disjoint(second),
{
    assert forall|i: int, j: int, p: int|
        0 <= i < second.len() && 0 <= j < second.len() && i != j implies !(
    #[trigger] second[i].covers(p) && #[trigger] second[j].covers(p)) by {
        if second[i].covers(p) && second[j].covers(p) {
            if second[i] == second[j] {
                if i < j {
                    lemma_twice_in_multiset(second, i, j);
                } else {
                    lemma_twice_in_multiset(second, j, i);
                }
                lemma_twice_in_sequence(first, second[i]);
                let (a, b) = choose|a: int, b: int|
                    0 <= a < first.len() && 0 <= b < first.len() && a != b && first[a]
                        == second[i] && first[b] == second[i];
                assert(first[a].covers(p) && first[b].covers(p));
            } else {
                lemma_same_members(first, second, i);
                lemma_same_members(first, second, j);
                let a = choose|a: int| 0 <= a < first.len() && first[a] == second[i];
                let b = choose|b: int| 0 <= b < first.len() && first[b] == second[j];
                assert(first[a].covers(p) && first[b].covers(p));
            }
        }
    }
}

/// Order-independence of assembly. Take chunks of a source that share no
/// offset and bring as many bytes as the source holds, and let them arrive
/// in any other order: the run still succeeds, and the file it leaves is the
/// source.
pub proof fn lemma_any_arrival_order_reproduces_source(
    source: Seq<u8>,
    sent: Seq<Chunk>,
    arrived: Seq<Chunk>,
)
    requires
        all_slices_of(sent, source),
        pairwise_disjoint(sent),
        total_bytes(sent) == source.len(),
        sent.to_multiset() == arrived.to_multiset(),
    ensures
        spec_run(blank(source.len()), source.len(), arrived) == Ok::<Seq<u8>, DownloadError>(
            source,
        ),
        spec_run(blank(source.len()), source.len(), arrived) == spec_run(
            blank(source.len()),
            source.len(),
            sent,
        ),
{
    assert forall|k: int| 0 <= k < arrived.len() implies (#[trigger] arrived[k]).slice_of(
        source,
    ) by {
        lemma_same_members(sent, arrived, k);
    }
    lemma_disjoint_reordered(sent, arrived);
    lemma_total_bytes_reordered(sent, arrived);
    lemma_run_reproduces_source(source, sent);
    lemma_run_reproduces_source(source, arrived);
}

} // verus!
