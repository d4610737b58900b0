//! The body of one file as it lies in the data file: the stored chunks, one
//! after the other, with nothing between them.

use vstd::prelude::*;
use vstd::slice::slice_subrange;
use crate::bytes::append_bytes;
use crate::codec::{decompress, decompressed, original_form, CodecError};
use crate::digest::{checksums, crc32_of, sha256_of, Checksums};
use crate::model::{
    chunks_wf, compressed_total, original_total, ChunkInfo, CompressedMethod, FileEntryView,
};
use crate::planner::{
    all_restore, chunk_views, compress_file, contiguous, passthrough_keeps_length,
    planned_chunks, Chunk, ChunkView,
};

verus! {

/// The bytes that the chunks `chunks`, stored as `stored`, stand for: the
/// decompressed chunks, one after the other. `None` where `stored` is not as
/// long as the chunks together, or where a chunk does not decompress to its
/// recorded length.
pub open spec fn unpacked(chunks: Seq<ChunkInfo>, stored: Seq<u8>) -> Option<Seq<u8>>
    decreases chunks.len(),
{
    if chunks.len() == 0 {
        if stored.len() == 0 {
            Some(Seq::empty())
        } else {
            None
        }
    } else {
        let last = chunks.last();
        let cut = stored.len() - last.compressed_length;
        if cut < 0 {
            None
        } else {
            match (
                unpacked(chunks.drop_last(), stored.take(cut)),
                original_form(
                    last.compressed_method,
                    stored.skip(cut),
                    last.original_length as int,
                ),
            ) {
                (Some(front), Some(back)) => Some(front + back),
                _ => None,
            }
        }
    }
}

/// The part of the data file `data` that `entry` points at.
pub open spec fn body_of(entry: FileEntryView, data: Seq<u8>) -> Seq<u8> {
    data.subrange(entry.body_offset as int, entry.body_offset + entry.body_size)
}

/// `entry` tells the truth about the data file `data`: its body lies within
/// the file and is as long as its chunks together, the checksums of the
/// stored chunks are those of the body, and the body unpacks to bytes that
/// are as long as the chunks say and have the checksums of the original.
pub open spec fn entry_sound(entry: FileEntryView, data: Seq<u8>) -> bool {
    &&& entry.wf()
    &&& entry.body_offset + entry.body_size <= data.len()
    &&& entry.info.chunks_crc32 == crc32_of(body_of(entry, data))
    &&& entry.info.chunks_sha256 == sha256_of(body_of(entry, data))
    &&& unpacked(entry.info.chunks, body_of(entry, data)) matches Some(content)
    &&& content.len() == original_total(entry.info.chunks)
    &&& entry.info.original_crc32 == crc32_of(content)
    &&& entry.info.original_sha256 == sha256_of(content)
}

/// Every entry of `entries` tells the truth about the data file `data`.
pub open spec fn all_sound(entries: Seq<FileEntryView>, data: Seq<u8>) -> bool {
    forall|i: int| 0 <= i < entries.len() ==> entry_sound(#[trigger] entries[i], data)
}

/// What an entry says of the data file stays true when the file grows at its
/// end.
pub proof fn lemma_sound_after_append(entry: FileEntryView, data: Seq<u8>, more: Seq<u8>)
    requires
        entry_sound(entry, data),
    ensures
        entry_sound(entry, data + more),
{
    assert(body_of(entry, data + more) == body_of(entry, data));
}

/// Every chunk of `chunks` is stored as it is, and as long as it says.
pub open spec fn all_as_they_are(chunks: Seq<ChunkInfo>) -> bool {
    forall|i: int|
        0 <= i < chunks.len() ==> (#[trigger] chunks[i]).compressed_method
            == CompressedMethod::Passthrough && chunks[i].wf()
}

/// Why a body could not be unpacked.
#[derive(Clone, Copy, Debug, PartialEq, Eq, Structural)]
pub enum UnpackError {
    /// The stored bytes are not as long as the chunks together.
    LengthMismatch,
    /// A chunk did not decompress to its recorded length.
    Codec(CodecError),
}

/// The error of the first chunk of `chunks` that does not decompress to its
/// recorded length, where `stored` holds the chunks one after the other;
/// `None` where every chunk does.
pub open spec fn first_failure(chunks: Seq<ChunkInfo>, stored: Seq<u8>) -> Option<CodecError>
    decreases chunks.len(),
{
    if chunks.len() == 0 {
        None
    } else {
        let last = chunks.last();
        let cut = stored.len() - last.compressed_length;
        match first_failure(chunks.drop_last(), stored.take(cut)) {
            Some(e) => Some(e),
            None => match decompressed(
                last.compressed_method,
                stored.skip(cut),
                last.original_length as int,
            ) {
                Ok(_) => None,
                Err(e) => Some(e),
            },
        }
    }
}

/// What `unpack` makes of a body: `LengthMismatch` where `stored` is not as
/// long as the chunks together, else the error of the first chunk that does
/// not decompress to its recorded length, else the bytes that the body stands
/// for.
pub open spec fn unpack_outcome(chunks: Seq<ChunkInfo>, stored: Seq<u8>) -> Result<
    Seq<u8>,
    UnpackError,
> {
    if stored.len() != compressed_total(chunks) {
        Err(UnpackError::LengthMismatch)
    } else {
        match first_failure(chunks, stored) {
            Some(e) => Err(UnpackError::Codec(e)),
            None => match unpacked(chunks, stored) {
                Some(content) => Ok(content),
                None => Err(UnpackError::LengthMismatch),
            },
        }
    }
}

/// A body unpacks exactly where it is as long as its chunks together and
/// every chunk decompresses to its recorded length.
pub proof fn lemma_unpacks_unless_it_fails(chunks: Seq<ChunkInfo>, stored: Seq<u8>)
    ensures
        unpacked(chunks, stored) is Some <==> stored.len() == compressed_total(chunks)
            && first_failure(chunks, stored) is None,
        unpacked(chunks, stored) is Some <==> unpack_outcome(chunks, stored) is Ok,
        unpacked(chunks, stored) matches Some(content) ==> unpack_outcome(chunks, stored) == Ok::<
            Seq<u8>,
            UnpackError,
        >(content),
    decreases chunks.len(),
{
    if chunks.len() > 0 {
        let cut = stored.len() - chunks.last().compressed_length;
        if cut >= 0 {
            lemma_unpacks_unless_it_fails(chunks.drop_last(), stored.take(cut));
        } else {
            lemma_total_is_no_less(chunks);
        }
    }
}

/// The chunks together are at least as long as the last of them.
proof fn lemma_total_is_no_less(chunks: Seq<ChunkInfo>)
    requires
        chunks.len() > 0,
    ensures
        compressed_total(chunks) >= chunks.last().compressed_length,
{
}

/// A chunk that fails among the first `count` chunks of a body fails in the
/// whole body.
proof fn lemma_failure_stays(chunks: Seq<ChunkInfo>, stored: Seq<u8>, count: int)
    requires
        0 <= count <= chunks.len(),
        stored.len() == compressed_total(chunks),
        first_failure(
            chunks.take(count),
            stored.take(compressed_total(chunks.take(count)) as int),
        ) is Some,
    ensures
        first_failure(chunks, stored) == first_failure(
            chunks.take(count),
            stored.take(compressed_total(chunks.take(count)) as int),
        ),
    decreases chunks.len(),
{
    if count == chunks.len() {
        assert(chunks.take(count) == chunks);
        assert(stored.take(stored.len() as int) == stored);
    } else {
        let front = chunks.drop_last();
        let cut = stored.len() - chunks.last().compressed_length;
        let upto = compressed_total(chunks.take(count)) as int;
        assert(front.take(count) == chunks.take(count));
        crate::model::lemma_compressed_total_take(front, count);
        assert(stored.take(cut).take(upto) == stored.take(upto));
        lemma_failure_stays(front, stored.take(cut), count);
    }
}

/// The bytes that a body stands for: the chunks of `stored`, decompressed and
/// put one after the other.
///
/// Succeeds exactly where `stored` is as long as the chunks together and
/// every chunk decompresses to its recorded length. Fails with
/// `LengthMismatch` exactly where the lengths differ, and otherwise with the
/// error of the first chunk that does not decompress. A body of well-formed
/// chunks that are all stored as they are always unpacks.
pub fn unpack(chunks: &Vec<ChunkInfo>, stored: &[u8]) -> (r: Result<Vec<u8>, UnpackError>)
    ensures
        match unpack_outcome(chunks@, stored@) {
            Ok(content) => r matches Ok(found) && found@ == content,
            Err(e) => r == Err::<Vec<u8>, UnpackError>(e),
        },
        r is Ok <==> unpacked(chunks@, stored@) is Some,
        r matches Ok(content) ==> unpacked(chunks@, stored@) == Some(content@),
        r == Err::<Vec<u8>, UnpackError>(UnpackError::LengthMismatch) <==> stored@.len()
            != compressed_total(chunks@),
        stored@.len() == compressed_total(chunks@) && all_as_they_are(chunks@) ==> r is Ok,
{
    proof {
        lemma_unpacks_unless_it_fails(chunks@, stored@);
        if stored@.len() == compressed_total(chunks@) && all_as_they_are(chunks@) {
            lemma_as_they_are_unpacks(chunks@, stored@);
        }
    }
    // The lengths first: nothing is decompressed from a body of the wrong length.
    let mut total: usize = 0;
    let mut i: usize = 0;
    while i < chunks.len()
        invariant
            i <= chunks@.len(),
            total == compressed_total(chunks@.take(i as int)),
            total <= stored@.len(),
        decreases chunks.len() - i,
    {
        let length = chunks[i].compressed_length as usize;
        proof {
            assert(chunks@.take(i + 1).drop_last() == chunks@.take(i as int));
            crate::model::lemma_compressed_total_take(chunks@, i + 1);
        }
        if length > stored.len() - total {
            proof {
                lemma_unpacks_unless_it_fails(chunks@, stored@);
            }
            return Err(UnpackError::LengthMismatch);
        }
        total = total + length;
        i = i + 1;
    }
    proof {
        assert(chunks@.take(i as int) == chunks@);
    }
    if total != stored.len() {
        return Err(UnpackError::LengthMismatch);
    }
    let mut content: Vec<u8> = Vec::new();
    let mut at: usize = 0;
    let mut i: usize = 0;
    proof {
        assert(stored@.take(0) == Seq::<u8>::empty());
        assert(chunks@.take(0) == Seq::<ChunkInfo>::empty());
    }
    while i < chunks.len()
        invariant
            i <= chunks@.len(),
            at == compressed_total(chunks@.take(i as int)),
            stored@.len() == compressed_total(chunks@),
            stored@.len() <= usize::MAX,
            unpacked(chunks@.take(i as int), stored@.take(at as int)) == Some(content@),
            first_failure(chunks@.take(i as int), stored@.take(at as int)) is None,
        decreases chunks.len() - i,
    {
        let chunk = chunks[i];
        proof {
            assert(chunks@.take(i + 1).drop_last() == chunks@.take(i as int));
            assert(chunks@.take(i + 1).last() == chunk);
            crate::model::lemma_compressed_total_take(chunks@, i + 1);
        }
        let end: usize = at + chunk.compressed_length as usize;
        let part = slice_subrange(stored, at, end);
        proof {
            let front = stored@.take(end as int);
            assert(front.take(at as int) == stored@.take(at as int));
            assert(front.skip(at as int) == part@);
        }
        let mut bytes = match decompress(chunk.compressed_method, part, chunk.original_length) {
            Ok(bytes) => bytes,
            Err(e) => {
                proof {
                    assert(first_failure(chunks@.take(i + 1), stored@.take(end as int)) == Some(e));
                    lemma_failure_stays(chunks@, stored@, i + 1);
                    lemma_unpacks_unless_it_fails(chunks@, stored@);
                }
                return Err(UnpackError::Codec(e));
            },
        };
        content.append(&mut bytes);
        at = end;
        i = i + 1;
    }
    proof {
        assert(chunks@.take(i as int) == chunks@);
        assert(stored@.take(at as int) == stored@);
    }
    Ok(content)
}

/// A body of well-formed chunks that are all stored as they are, and that is
/// as long as they are together, unpacks.
proof fn lemma_as_they_are_unpacks(chunks: Seq<ChunkInfo>, stored: Seq<u8>)
    requires
        stored.len() == compressed_total(chunks),
        all_as_they_are(chunks),
    ensures
        unpacked(chunks, stored) is Some,
    decreases chunks.len(),
{
    if chunks.len() > 0 {
        let cut = stored.len() - chunks.last().compressed_length;
        assert(chunks.last() == chunks[chunks.len() - 1]);
        assert forall|i: int| 0 <= i < chunks.drop_last().len() implies (
        #[trigger] chunks.drop_last()[i]).compressed_method == CompressedMethod::Passthrough
            && chunks.drop_last()[i].wf() by {
            assert(chunks.drop_last()[i] == chunks[i]);
        }
        lemma_as_they_are_unpacks(chunks.drop_last(), stored.take(cut));
    }
}

/// What an index records of `chunk`.
pub open spec fn chunk_info_of(chunk: ChunkView) -> ChunkInfo {
    ChunkInfo {
        compressed_length: chunk.compressed.len() as u32,
        compressed_method: chunk.compressed_method,
        original_length: chunk.original_size as u32,
    }
}

/// What an index records of `chunks`.
pub open spec fn infos_of(chunks: Seq<ChunkView>) -> Seq<ChunkInfo> {
    Seq::new(chunks.len(), |i: int| chunk_info_of(chunks[i]))
}

/// The stored bytes of `chunks`, one chunk after the other.
pub open spec fn stored_of(chunks: Seq<ChunkView>) -> Seq<u8>
    decreases chunks.len(),
{
    if chunks.len() == 0 {
        Seq::empty()
    } else {
        stored_of(chunks.drop_last()) + chunks.last().compressed
    }
}

/// An index can record the lengths of every chunk of `chunks`.
pub open spec fn fits_index(chunks: Seq<ChunkView>) -> bool {
    forall|i: int|
        0 <= i < chunks.len() ==> (#[trigger] chunks[i]).compressed.len() <= u32::MAX
            && chunks[i].original_size <= u32::MAX
}

/// Why a file could not be packed.
#[derive(Clone, Copy, Debug, PartialEq, Eq, Structural)]
pub enum PackError {
    /// A chunk could not be compressed.
    Codec(CodecError),
    /// A chunk, or the data file, is longer than an index can record.
    TooLarge,
    /// The checksums of the original that came with a body are not those of
    /// the body, or not those of the body that a duplicate points at.
    ChecksumMismatch,
    /// A body with the same original was written before, in an archive that
    /// holds every original once.
    AlreadyCommitted,
    /// No body was written for the original of a duplicate.
    MissingTarget,
}

/// The body of one file, ready to be written: the records of its chunks, the
/// stored bytes, and the checksums of the stored bytes and of the original.
pub struct PackedBody {
    chunks: Vec<ChunkInfo>,
    stored: Vec<u8>,
    stored_sums: Checksums,
    original_sums: Checksums,
    content: Ghost<Seq<u8>>,
}

impl PackedBody {
    /// The records of the chunks.
    pub closed spec fn chunks_view(&self) -> Seq<ChunkInfo> {
        self.chunks@
    }

    /// The stored bytes.
    pub closed spec fn stored_view(&self) -> Seq<u8> {
        self.stored@
    }

    /// The checksums that are recorded of the stored bytes.
    pub closed spec fn stored_sums(&self) -> Checksums {
        self.stored_sums
    }

    /// The checksums that are recorded of the original.
    pub closed spec fn original_sums(&self) -> Checksums {
        self.original_sums
    }

    /// The bytes of the file that was packed.
    pub closed spec fn content(&self) -> Seq<u8> {
        self.content@
    }

    /// The records agree with the bytes: every chunk is well formed, the
    /// stored bytes are as long as the chunks together and unpack to the
    /// original, which is as long as the chunks say, and the checksums are
    /// those of the stored bytes and of the original.
    pub open spec fn wf(&self) -> bool {
        &&& chunks_wf(self.chunks_view())
        &&& compressed_total(self.chunks_view()) == self.stored_view().len()
        &&& original_total(self.chunks_view()) == self.content().len()
        &&& unpacked(self.chunks_view(), self.stored_view()) == Some(self.content())
        &&& self.stored_sums().of(self.stored_view())
        &&& self.original_sums().of(self.content())
    }

    /// The records of the chunks.
    pub fn chunks(&self) -> (r: &Vec<ChunkInfo>)
        ensures
            r@ == self.chunks_view(),
    {
        &self.chunks
    }

    /// The bytes to write to the data file.
    pub fn bytes(&self) -> (r: &Vec<u8>)
        ensures
            r@ == self.stored_view(),
    {
        &self.stored
    }

    /// The checksums of the stored bytes.
    pub fn chunks_checksums(&self) -> (r: &Checksums)
        ensures
            *r == self.stored_sums(),
    {
        &self.stored_sums
    }

    /// The checksums of the original.
    pub fn original_checksums(&self) -> (r: &Checksums)
        ensures
            *r == self.original_sums(),
    {
        &self.original_sums
    }
}

/// The records `infos` and the bytes `stored` are those of the first `count`
/// chunks of `chunks`, and they unpack to the part of `input` that those
/// chunks cover.
#[verifier::opaque]
pub open spec fn assembled(
    input: Seq<u8>,
    chunks: Seq<ChunkView>,
    count: int,
    infos: Seq<ChunkInfo>,
    stored: Seq<u8>,
) -> bool {
    &&& 0 <= count <= chunks.len()
    &&& fits_index(chunks.take(count))
    &&& infos == infos_of(chunks.take(count))
    &&& stored == stored_of(chunks.take(count))
    &&& chunks_wf(infos)
    &&& compressed_total(infos) == stored.len()
    &&& 0 <= covered(chunks, count) <= input.len()
    &&& original_total(infos) == covered(chunks, count)
    &&& unpacked(infos, stored) == Some(input.take(covered(chunks, count)))
}

/// Nothing is assembled of no chunks.
proof fn lemma_assembled_none(input: Seq<u8>, chunks: Seq<ChunkView>)
    ensures
        assembled(input, chunks, 0, Seq::empty(), Seq::empty()),
{
    reveal(assembled);
    assert(chunks.take(0) == Seq::<ChunkView>::empty());
    assert(input.take(0) == Seq::<u8>::empty());
    assert(infos_of(chunks.take(0)) == Seq::<ChunkInfo>::empty());
}

/// One more chunk is assembled by adding its record and its bytes.
proof fn lemma_assembled_next(
    input: Seq<u8>,
    chunks: Seq<ChunkView>,
    count: int,
    infos: Seq<ChunkInfo>,
    stored: Seq<u8>,
)
    requires
        assembled(input, chunks, count, infos, stored),
        count < chunks.len(),
        contiguous(chunks, input.len() as int),
        all_restore(chunks, input),
        passthrough_keeps_length(chunks),
        chunks[count].compressed.len() <= u32::MAX,
        chunks[count].original_size <= u32::MAX,
    ensures
        assembled(
            input,
            chunks,
            count + 1,
            infos.push(chunk_info_of(chunks[count])),
            stored + chunks[count].compressed,
        ),
{
    reveal(assembled);
    let chunk = chunks[count];
    let info = chunk_info_of(chunk);
    let next_infos = infos.push(info);
    let next_stored = stored + chunk.compressed;
    let head = chunks.take(count + 1);
    assert(chunk.restores(input));
    assert(head.drop_last() == chunks.take(count));
    assert(head.last() == chunk);
    assert(next_infos == infos_of(head));
    assert(next_infos.drop_last() == infos);
    assert(next_stored.take(stored.len() as int) == stored);
    assert(next_stored.skip(stored.len() as int) == chunk.compressed);
    let before = covered(chunks, count);
    assert(chunk.start == before);
    assert(covered(chunks, count + 1) == chunk.end());
    assert(input.take(before) + input.subrange(chunk.start, chunk.end()) == input.take(
        chunk.end(),
    ));
    assert forall|k: int| 0 <= k < next_infos.len() implies (#[trigger] next_infos[k]).wf() by {
        if k < count {
            assert(infos[k].wf());
        }
    }
    assert forall|k: int| 0 <= k < head.len() implies (#[trigger] head[k]).compressed.len()
        <= u32::MAX && head[k].original_size <= u32::MAX by {
        if k < count {
            assert(chunks.take(count)[k] == head[k]);
        }
    }
}

/// A chunk that an index cannot record is one of all the chunks.
proof fn lemma_does_not_fit(chunks: Seq<ChunkView>, at: int)
    requires
        0 <= at < chunks.len(),
        chunks[at].compressed.len() > u32::MAX || chunks[at].original_size > u32::MAX,
    ensures
        !fits_index(chunks),
{
}

/// The body that the chunks `chunks` of `input` make.
///
/// Fails with `TooLarge` exactly where a chunk is longer than an index can
/// record.
#[verifier::rlimit(50)]
pub fn assemble(input: &[u8], chunks: &Vec<Chunk>) -> (r: Result<PackedBody, PackError>)
    requires
        contiguous(chunk_views(chunks@), input@.len() as int),
        all_restore(chunk_views(chunks@), input@),
        passthrough_keeps_length(chunk_views(chunks@)),
    ensures
        match r {
            Ok(body) => {
                &&& fits_index(chunk_views(chunks@))
                &&& body.wf()
                &&& body.content() == input@
                &&& body.chunks_view() == infos_of(chunk_views(chunks@))
                &&& body.stored_view() == stored_of(chunk_views(chunks@))
            },
            Err(e) => e == PackError::TooLarge && !fits_index(chunk_views(chunks@)),
        },
{
    let ghost views = chunk_views(chunks@);
    let mut infos: Vec<ChunkInfo> = Vec::new();
    let mut stored: Vec<u8> = Vec::new();
    let mut i: usize = 0;
    proof {
        lemma_assembled_none(input@, views);
    }
    while i < chunks.len()
        invariant
            i <= chunks@.len(),
            views == chunk_views(chunks@),
            contiguous(views, input@.len() as int),
            all_restore(views, input@),
            passthrough_keeps_length(views),
            assembled(input@, views, i as int, infos@, stored@),
        decreases chunks.len() - i,
    {
        let chunk = &chunks[i];
        if chunk.compressed.len() > u32::MAX as usize || chunk.original_size > u32::MAX as usize {
            proof {
                lemma_does_not_fit(views, i as int);
            }
            return Err(PackError::TooLarge);
        }
        proof {
            lemma_assembled_next(input@, views, i as int, infos@, stored@);
        }
        infos.push(
            ChunkInfo {
                compressed_length: chunk.compressed.len() as u32,
                compressed_method: chunk.compressed_method,
                original_length: chunk.original_size as u32,
            },
        );
        append_bytes(&mut stored, chunk.compressed.as_slice());
        i = i + 1;
    }
    proof {
        reveal(assembled);
        assert(views.take(i as int) == views);
        assert(input@.take(input@.len() as int) == input@);
    }
    let stored_sums = checksums(stored.as_slice());
    let original_sums = checksums(input);
    Ok(PackedBody { chunks: infos, stored, stored_sums, original_sums, content: Ghost(input@) })
}

/// Where the first `count` chunks of `chunks` end in the file.
pub open spec fn covered(chunks: Seq<ChunkView>, count: int) -> int {
    if count <= 0 || count > chunks.len() {
        0
    } else {
        chunks[count - 1].end()
    }
}

/// The body of the file `input`: its chunks as they were planned, with their
/// records and the checksums.
///
/// Fails with the failure of the Zstandard library exactly where it makes no
/// frame of a range that the plan compresses, and with `TooLarge` exactly
/// where the plan holds a chunk that is longer than an index can record.
/// Otherwise the body is that of the planned chunks.
pub fn pack_body(input: &[u8]) -> (r: Result<PackedBody, PackError>)
    ensures
        match planned_chunks(input@) {
            Ok(plan) => if fits_index(plan) {
                &&& r matches Ok(body)
                &&& body.wf()
                &&& body.content() == input@
                &&& body.chunks_view() == infos_of(plan)
                &&& body.stored_view() == stored_of(plan)
            } else {
                r matches Err(e) && e == PackError::TooLarge
            },
            Err(e) => r matches Err(x) && x == PackError::Codec(e),
        },
{
    match compress_file(input) {
        Ok(chunks) => assemble(input, &chunks),
        Err(e) => Err(PackError::Codec(e)),
    }
}

} // verus!
