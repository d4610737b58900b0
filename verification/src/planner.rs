//! Decides how the body of one file is cut into chunks, and how each chunk is
//! stored.
//!
//! There are two plans. The one that archives are made with uses Zstandard
//! alone: a file of up to 8 MiB, and a larger one whose Zstandard frame is no
//! longer than two strides, is one chunk. Another file is walked in strides
//! of 4 MiB: a stride is taken into the chunk before it where that chunk
//! compressed well and the two together still do, and starts a chunk of its
//! own otherwise.
//!
//! The other plan puts LZ4 first, for archives whose small files are to be
//! read fast: a file of up to 512 KiB is one LZ4 block, and a file of more
//! than 8 MiB is cut into strides of 512 KiB, of which the first is tried
//! with LZ4 and the others with Zstandard.

use vstd::prelude::*;
use vstd::slice::{slice_subrange, slice_to_vec};
use crate::codec::{
    compress, compress_lz4, compress_zstd, failure_of, original_form, stored_form, CodecError,
};
use crate::model::CompressedMethod;

verus! {

/// How many bytes of a file one stride covers.
pub const CHUNK_SIZE: usize = 4 * 1024 * 1024;

/// The largest file that is never cut.
pub const WHOLE_FILE_LIMIT: usize = 8 * 1024 * 1024;

/// Three quarters of a stride: a chunk stored in fewer bytes may take the
/// next stride in.
pub const COALESCE_BELOW: usize = CHUNK_SIZE / 4 * 3;

/// One chunk of a body: where it starts in the file, how many bytes of the
/// file it covers, and the bytes that are stored for it.
#[derive(Clone, Debug, PartialEq, Eq)]
pub struct Chunk {
    pub start: usize,
    pub original_size: usize,
    pub compressed: Vec<u8>,
    pub compressed_method: CompressedMethod,
}

/// A `Chunk` as a mathematical value.
pub struct ChunkView {
    pub start: int,
    pub original_size: int,
    pub compressed: Seq<u8>,
    pub compressed_method: CompressedMethod,
}

impl View for Chunk {
    type V = ChunkView;

    open spec fn view(&self) -> ChunkView {
        ChunkView {
            start: self.start as int,
            original_size: self.original_size as int,
            compressed: self.compressed@,
            compressed_method: self.compressed_method,
        }
    }
}

/// The chunks of `chunks` as mathematical values.
pub open spec fn chunk_views(chunks: Seq<Chunk>) -> Seq<ChunkView> {
    Seq::new(chunks.len(), |i: int| chunks[i]@)
}

impl ChunkView {
    /// The chunk that covers a file from `start` to `end` with the bytes
    /// `stored` under `method`.
    pub open spec fn of(start: int, end: int, stored: Seq<u8>, method: CompressedMethod) -> ChunkView {
        ChunkView {
            start,
            original_size: end - start,
            compressed: stored,
            compressed_method: method,
        }
    }

    /// Where the chunk ends in the file.
    pub open spec fn end(self) -> int {
        self.start + self.original_size
    }

    /// The chunk lies within `input`, and its bytes are what is stored for
    /// that part of `input` under its method.
    pub open spec fn stores(self, input: Seq<u8>) -> bool {
        &&& 0 <= self.start <= self.end() <= input.len()
        &&& stored_form(self.compressed_method, input.subrange(self.start, self.end())) == Some(
            self.compressed,
        )
    }

    /// The bytes of the chunk, decompressed, are that part of `input`.
    pub open spec fn restores(self, input: Seq<u8>) -> bool {
        &&& 0 <= self.start <= self.end() <= input.len()
        &&& original_form(self.compressed_method, self.compressed, self.original_size) == Some(
            input.subrange(self.start, self.end()),
        )
    }

    /// The chunk compressed well enough to take the next stride in.
    pub open spec fn may_grow(self) -> bool {
        self.compressed_method != CompressedMethod::Passthrough && self.compressed.len()
            < COALESCE_BELOW
    }
}

/// Whether a file of `len` bytes whose Zstandard frame has `frame_len` bytes is
/// cut into strides.
pub open spec fn is_cut(len: int, frame_len: int) -> bool {
    len > WHOLE_FILE_LIMIT && frame_len > 2 * CHUNK_SIZE
}

/// The one chunk of a file that is not cut, where `frame` is its Zstandard
/// frame: the frame where that is shorter than the file, the file as it is
/// otherwise.
pub open spec fn whole_chunk(input: Seq<u8>, frame: Seq<u8>) -> ChunkView {
    if frame.len() < input.len() {
        ChunkView::of(0, input.len() as int, frame, CompressedMethod::Zstandard)
    } else {
        ChunkView::of(0, input.len() as int, input, CompressedMethod::Passthrough)
    }
}

/// The chunk of the stride from `start` to `end` whose bytes are `raw`, where
/// `method` made `made` of them: `made` where that is shorter than three
/// quarters of the stride, the stride as it is otherwise.
pub open spec fn tried(
    start: int,
    end: int,
    raw: Seq<u8>,
    method: CompressedMethod,
    made: Seq<u8>,
) -> ChunkView {
    if made.len() < raw.len() / 4 * 3 {
        ChunkView::of(start, end, made, method)
    } else {
        ChunkView::of(start, end, raw, CompressedMethod::Passthrough)
    }
}

/// The chunk that a stride from `start` to `end` starts under `method`; the
/// failure of the library of `method` where it makes nothing of the stride.
pub open spec fn stride_chunk(
    input: Seq<u8>,
    start: int,
    end: int,
    method: CompressedMethod,
) -> Result<ChunkView, CodecError> {
    match stored_form(method, input.subrange(start, end)) {
        Some(made) => Ok(tried(start, end, input.subrange(start, end), method, made)),
        None => Err(failure_of(method)),
    }
}

/// Where the stride that starts at `start` ends in a file of `len` bytes.
pub open spec fn stride_end(len: int, start: int) -> int {
    if len - start > CHUNK_SIZE {
        start + CHUNK_SIZE
    } else {
        len
    }
}

/// The chunks `done` and behind them the chunk that the stride from `start`
/// to `end` starts.
pub open spec fn with_stride(
    input: Seq<u8>,
    done: Seq<ChunkView>,
    start: int,
    end: int,
) -> Result<Seq<ChunkView>, CodecError> {
    match stride_chunk(input, start, end, CompressedMethod::Zstandard) {
        Ok(chunk) => Ok(done.push(chunk)),
        Err(e) => Err(e),
    }
}

/// The chunks after the stride from `start` to `end`, where `done` are the
/// chunks before it. Where the last of them compressed well, it takes the
/// stride in if the Zstandard frame of the two together is shorter than one
/// stride; otherwise the stride starts a chunk. Where the library makes no
/// frame, there are no chunks.
pub open spec fn after_stride(
    input: Seq<u8>,
    done: Seq<ChunkView>,
    start: int,
    end: int,
) -> Result<Seq<ChunkView>, CodecError> {
    if done.len() > 0 && done.last().may_grow() {
        match stored_form(CompressedMethod::Zstandard, input.subrange(done.last().start, end)) {
            Some(frame) => if frame.len() < CHUNK_SIZE {
                Ok(
                    done.drop_last().push(
                        ChunkView::of(done.last().start, end, frame, CompressedMethod::Zstandard),
                    ),
                )
            } else {
                with_stride(input, done, start, end)
            },
            None => Err(CodecError::Zstandard),
        }
    } else {
        with_stride(input, done, start, end)
    }
}

/// The chunks of a file that is cut, where `done` are the chunks of the
/// strides before `start`.
pub open spec fn strides_from(input: Seq<u8>, start: int, done: Seq<ChunkView>) -> Result<
    Seq<ChunkView>,
    CodecError,
>
    decreases input.len() - start,
{
    if 0 <= start < input.len() {
        let end = stride_end(input.len() as int, start);
        match after_stride(input, done, start, end) {
            Ok(next) => strides_from(input, end, next),
            Err(e) => Err(e),
        }
    } else {
        Ok(done)
    }
}

/// The chunks of `input`; the failure of the Zstandard library where it makes
/// no frame of a range that the plan compresses.
pub open spec fn planned_chunks(input: Seq<u8>) -> Result<Seq<ChunkView>, CodecError> {
    match stored_form(CompressedMethod::Zstandard, input) {
        Some(frame) => if is_cut(input.len() as int, frame.len() as int) {
            strides_from(input, 0, Seq::empty())
        } else {
            Ok(seq![whole_chunk(input, frame)])
        },
        None => Err(CodecError::Zstandard),
    }
}

/// The chunks follow each other without a gap, from the start of the file up
/// to `end`.
pub open spec fn contiguous(chunks: Seq<ChunkView>, end: int) -> bool {
    &&& chunks.len() > 0 ==> chunks[0].start == 0
    &&& forall|i: int, j: int|
        0 <= i && j == i + 1 && j < chunks.len() ==> (#[trigger] chunks[j]).start == (
        #[trigger] chunks[i]).end()
    &&& end == if chunks.len() == 0 {
        0
    } else {
        chunks.last().end()
    }
}

/// Every chunk holds what is stored for its part of `input`.
pub open spec fn all_store(chunks: Seq<ChunkView>, input: Seq<u8>) -> bool {
    forall|i: int| 0 <= i < chunks.len() ==> (#[trigger] chunks[i]).stores(input)
}

/// Every chunk decompresses to its part of `input`.
pub open spec fn all_restore(chunks: Seq<ChunkView>, input: Seq<u8>) -> bool {
    forall|i: int| 0 <= i < chunks.len() ==> (#[trigger] chunks[i]).restores(input)
}

/// A chunk that is stored as it is takes as many bytes as it covers.
pub open spec fn passthrough_keeps_length(chunks: Seq<ChunkView>) -> bool {
    forall|i: int|
        0 <= i < chunks.len() && (#[trigger] chunks[i]).compressed_method
            == CompressedMethod::Passthrough ==> chunks[i].compressed.len()
            == chunks[i].original_size
}

/// The chunks are those of `input`: they follow each other from the first
/// byte to the last, each holds what is stored for its part under its method,
/// each decompresses to that part, and one that is stored as it is has the
/// length of its part.
pub open spec fn covers(chunks: Seq<ChunkView>, input: Seq<u8>) -> bool {
    &&& contiguous(chunks, input.len() as int)
    &&& all_store(chunks, input)
    &&& all_restore(chunks, input)
    &&& passthrough_keeps_length(chunks)
}

/// Whether a file of `len` bytes whose Zstandard frame has `frame_len` bytes is
/// cut into strides.
pub fn wants_chunking(len: usize, frame_len: usize) -> (b: bool)
    ensures
        b == is_cut(len as int, frame_len as int),
{
    len > WHOLE_FILE_LIMIT && frame_len > 2 * CHUNK_SIZE
}

/// The one chunk of a file that is not cut, from the file and its Zstandard
/// frame.
pub fn single_chunk(input: &[u8], frame: Vec<u8>) -> (c: Chunk)
    ensures
        c@ == whole_chunk(input@, frame@),
{
    if frame.len() < input.len() {
        Chunk {
            start: 0,
            original_size: input.len(),
            compressed: frame,
            compressed_method: CompressedMethod::Zstandard,
        }
    } else {
        Chunk {
            start: 0,
            original_size: input.len(),
            compressed: slice_to_vec(input),
            compressed_method: CompressedMethod::Passthrough,
        }
    }
}

/// The chunk of a stride, from where the stride begins, the method that was
/// tried, its bytes and what the method made of them.
pub fn tried_chunk(start: usize, method: CompressedMethod, raw: &[u8], made: Vec<u8>) -> (c: Chunk)
    requires
        start + raw@.len() <= usize::MAX,
    ensures
        c@ == tried(start as int, start + raw@.len(), raw@, method, made@),
{
    if made.len() < raw.len() / 4 * 3 {
        Chunk { start, original_size: raw.len(), compressed: made, compressed_method: method }
    } else {
        Chunk {
            start,
            original_size: raw.len(),
            compressed: slice_to_vec(raw),
            compressed_method: CompressedMethod::Passthrough,
        }
    }
}

/// Whether `last` compressed well enough to take the next stride in.
pub fn may_grow(last: &Chunk) -> (b: bool)
    ensures
        b == last@.may_grow(),
{
    match last.compressed_method {
        CompressedMethod::Passthrough => false,
        _ => last.compressed.len() < COALESCE_BELOW,
    }
}

/// Whether a chunk that was grown by a stride is kept: it is where its
/// Zstandard frame, `frame_len` bytes long, is shorter than one stride.
pub fn keeps_grown(frame_len: usize) -> (b: bool)
    ensures
        b == (frame_len < CHUNK_SIZE),
{
    frame_len < CHUNK_SIZE
}

/// The chunks are in step with the first `upto` bytes of `input`: they follow
/// each other from the first byte to `upto`, each holds what is stored for its
/// part under its method, each decompresses to that part, and one that is
/// stored as it is has the length of its part.
#[verifier::opaque]
pub open spec fn in_step(chunks: Seq<ChunkView>, input: Seq<u8>, upto: int) -> bool {
    &&& contiguous(chunks, upto)
    &&& all_store(chunks, input)
    &&& all_restore(chunks, input)
    &&& passthrough_keeps_length(chunks)
}

/// Starts a chunk for the stride from `start` to `end`, tried with `method`.
fn push_stride(
    input: &[u8],
    chunks: &mut Vec<Chunk>,
    start: usize,
    end: usize,
    method: CompressedMethod,
) -> (r: Result<(), CodecError>)
    requires
        start < end <= input@.len(),
        in_step(chunk_views(old(chunks)@), input@, start as int),
    ensures
        match stride_chunk(input@, start as int, end as int, method) {
            Ok(chunk) => {
                &&& r is Ok
                &&& chunk_views(final(chunks)@) == chunk_views(old(chunks)@).push(chunk)
                &&& in_step(chunk_views(final(chunks)@), input@, end as int)
            },
            Err(e) => r == Err::<(), CodecError>(e) && final(chunks)@ == old(chunks)@,
        },
{
    let ghost before = chunk_views(chunks@);
    let raw = slice_subrange(input, start, end);
    let made = match compress(method, raw) {
        Ok(made) => made,
        Err(e) => {
            return Err(e);
        },
    };
    let chunk = tried_chunk(start, method, raw, made);
    chunks.push(chunk);
    proof {
        let fresh = stride_chunk(input@, start as int, end as int, method).unwrap();
        assert(chunk@ == fresh);
        assert(chunk_views(chunks@) == before.push(fresh));
        lemma_push_stride(input@, before, fresh);
    }
    Ok(())
}

/// Takes the stride from `start` to `end` in: into the last chunk where that
/// compressed well and the two together still do, as a chunk of its own
/// otherwise.
fn take_stride(input: &[u8], chunks: &mut Vec<Chunk>, start: usize, end: usize) -> (r: Result<
    (),
    CodecError,
>)
    requires
        start < end <= input@.len(),
        in_step(chunk_views(old(chunks)@), input@, start as int),
    ensures
        match after_stride(input@, chunk_views(old(chunks)@), start as int, end as int) {
            Ok(next) => {
                &&& r is Ok
                &&& chunk_views(final(chunks)@) == next
                &&& in_step(next, input@, end as int)
            },
            Err(e) => r == Err::<(), CodecError>(e),
        },
{
    let ghost before = chunk_views(chunks@);
    let count: usize = chunks.len();
    if count > 0 && may_grow(&chunks[count - 1]) {
        let from: usize = chunks[count - 1].start;
        proof {
            reveal(in_step);
            assert(before[count - 1] == chunks@[count - 1]@);
            assert(before[count - 1].stores(input@));
        }
        let raw = slice_subrange(input, from, end);
        let frame = match compress_zstd(raw) {
            Ok(frame) => frame,
            Err(e) => {
                return Err(e);
            },
        };
        if keeps_grown(frame.len()) {
            let ghost merged = ChunkView::of(
                from as int,
                end as int,
                frame@,
                CompressedMethod::Zstandard,
            );
            chunks.pop();
            chunks.push(
                Chunk {
                    start: from,
                    original_size: end - from,
                    compressed: frame,
                    compressed_method: CompressedMethod::Zstandard,
                },
            );
            proof {
                assert(chunk_views(chunks@) == before.drop_last().push(merged));
                lemma_replace_last(input@, before, merged);
            }
            return Ok(());
        }
    }
    push_stride(input, chunks, start, end, CompressedMethod::Zstandard)
}

/// The chunks of one file.
///
/// Succeeds exactly where the Zstandard library makes a frame of every range
/// that the plan compresses. The chunks that come back are the planned ones:
/// they follow each other from the first byte of `input` to the last, each
/// holds what is stored for its part under its method, each decompresses to
/// that part, and one that is stored as it is has the length of its part.
pub fn compress_file(input: &[u8]) -> (r: Result<Vec<Chunk>, CodecError>)
    ensures
        match planned_chunks(input@) {
            Ok(plan) => {
                &&& r matches Ok(chunks)
                &&& chunk_views(chunks@) == plan
                &&& covers(plan, input@)
            },
            Err(e) => r matches Err(x) && x == e,
        },
{
    let whole = match compress_zstd(input) {
        Ok(frame) => frame,
        Err(e) => {
            return Err(e);
        },
    };
    if !wants_chunking(input.len(), whole.len()) {
        let chunk = single_chunk(input, whole);
        let mut chunks: Vec<Chunk> = Vec::new();
        chunks.push(chunk);
        proof {
            assert(input@.subrange(0, input@.len() as int) == input@);
            assert(chunk_views(chunks@) == seq![chunk@]);
        }
        return Ok(chunks);
    }
    let mut chunks: Vec<Chunk> = Vec::new();
    let mut start: usize = 0;
    proof {
        reveal(in_step);
        assert(chunk_views(chunks@) == Seq::<ChunkView>::empty());
    }
    while start < input.len()
        invariant
            start <= input.len(),
            strides_from(input@, start as int, chunk_views(chunks@)) == planned_chunks(input@),
            in_step(chunk_views(chunks@), input@, start as int),
        decreases input.len() - start,
    {
        let end: usize = if input.len() - start > CHUNK_SIZE {
            start + CHUNK_SIZE
        } else {
            input.len()
        };
        match take_stride(input, &mut chunks, start, end) {
            Ok(_) => {},
            Err(e) => {
                return Err(e);
            },
        }
        start = end;
    }
    proof {
        reveal(in_step);
    }
    Ok(chunks)
}

/// Replacing the last chunk by one that starts where it started keeps the
/// chunks in step with the file.
proof fn lemma_replace_last(input: Seq<u8>, before: Seq<ChunkView>, merged: ChunkView)
    requires
        before.len() > 0,
        in_step(before, input, before.last().end()),
        merged.start == before.last().start,
        merged.compressed_method != CompressedMethod::Passthrough,
        merged.stores(input),
        merged.restores(input),
    ensures
        in_step(before.drop_last().push(merged), input, merged.end()),
{
    reveal(in_step);
    let after = before.drop_last().push(merged);
    assert forall|i: int, j: int| 0 <= i && j == i + 1 && j < after.len() implies (
    #[trigger] after[j]).start == (#[trigger] after[i]).end() by {
        assert(before[j].start == before[i].end());
    }
    assert forall|i: int| 0 <= i < after.len() implies (#[trigger] after[i]).stores(input) by {
        if i < after.len() - 1 {
            assert(before[i].stores(input));
        }
    }
    assert forall|i: int| 0 <= i < after.len() implies (#[trigger] after[i]).restores(input) by {
        if i < after.len() - 1 {
            assert(before[i].restores(input));
        }
    }
    assert forall|i: int|
        0 <= i < after.len() && (#[trigger] after[i]).compressed_method
            == CompressedMethod::Passthrough implies after[i].compressed.len()
        == after[i].original_size by {
        if i < after.len() - 1 {
            assert(before[i].compressed_method == CompressedMethod::Passthrough);
        }
    }
}

/// Adding a chunk that starts where the last one ended keeps the chunks in
/// step with the file.
proof fn lemma_push_stride(input: Seq<u8>, before: Seq<ChunkView>, fresh: ChunkView)
    requires
        in_step(before, input, fresh.start),
        fresh.stores(input),
        fresh.restores(input),
        fresh.compressed_method == CompressedMethod::Passthrough ==> fresh.compressed.len()
            == fresh.original_size,
    ensures
        in_step(before.push(fresh), input, fresh.end()),
{
    reveal(in_step);
    let after = before.push(fresh);
    assert forall|i: int, j: int| 0 <= i && j == i + 1 && j < after.len() implies (
    #[trigger] after[j]).start == (#[trigger] after[i]).end() by {
        if j < before.len() {
            assert(before[j].start == before[i].end());
        }
    }
    assert forall|i: int| 0 <= i < after.len() implies (#[trigger] after[i]).stores(input) by {
        if i < before.len() {
            assert(before[i].stores(input));
        }
    }
    assert forall|i: int| 0 <= i < after.len() implies (#[trigger] after[i]).restores(input) by {
        if i < before.len() {
            assert(before[i].restores(input));
        }
    }
    assert forall|i: int|
        0 <= i < after.len() && (#[trigger] after[i]).compressed_method
            == CompressedMethod::Passthrough implies after[i].compressed.len()
        == after[i].original_size by {
        if i < before.len() {
            assert(before[i].compressed_method == CompressedMethod::Passthrough);
        }
    }
}

/// How many bytes of a file one stride covers where LZ4 comes first.
pub const SMALL_CHUNK_SIZE: usize = 512 * 1024;

/// The method that the stride that starts at `start` is tried with where LZ4
/// comes first: LZ4 for the first stride of a file, Zstandard for every
/// other.
pub open spec fn small_stride_method(start: int) -> CompressedMethod {
    if start == 0 {
        CompressedMethod::Lz4
    } else {
        CompressedMethod::Zstandard
    }
}

/// Where the stride that starts at `start` ends in a file of `len` bytes,
/// where LZ4 comes first.
pub open spec fn small_stride_end(len: int, start: int) -> int {
    if len - start > SMALL_CHUNK_SIZE {
        start + SMALL_CHUNK_SIZE
    } else {
        len
    }
}

/// The chunks of the strides from `start` on, behind the chunks `done`, where
/// LZ4 comes first.
pub open spec fn small_strides_from(input: Seq<u8>, start: int, done: Seq<ChunkView>) -> Result<
    Seq<ChunkView>,
    CodecError,
>
    decreases input.len() - start,
{
    if 0 <= start < input.len() {
        let end = small_stride_end(input.len() as int, start);
        match stride_chunk(input, start, end, small_stride_method(start)) {
            Ok(chunk) => small_strides_from(input, end, done.push(chunk)),
            Err(e) => Err(e),
        }
    } else {
        Ok(done)
    }
}

/// The one chunk of a file that is not cut; the failure of the Zstandard
/// library where it makes no frame of the file.
pub open spec fn whole_file(input: Seq<u8>) -> Result<Seq<ChunkView>, CodecError> {
    match stored_form(CompressedMethod::Zstandard, input) {
        Some(frame) => Ok(seq![whole_chunk(input, frame)]),
        None => Err(CodecError::Zstandard),
    }
}

/// The chunks of `input` where LZ4 comes first: a file of 1 byte to 512 KiB
/// is one LZ4 block where that is shorter; otherwise a file of up to 8 MiB is
/// one chunk, a Zstandard frame where that is shorter; a longer file is cut
/// into strides of 512 KiB. Where a library makes nothing of a range that it
/// is asked for, there are no chunks.
pub open spec fn lz4_first_chunks(input: Seq<u8>) -> Result<Seq<ChunkView>, CodecError> {
    if 0 < input.len() <= SMALL_CHUNK_SIZE {
        match stored_form(CompressedMethod::Lz4, input) {
            Some(block) => if block.len() < input.len() {
                Ok(seq![ChunkView::of(0, input.len() as int, block, CompressedMethod::Lz4)])
            } else {
                whole_file(input)
            },
            None => Err(CodecError::Lz4),
        }
    } else if input.len() <= WHOLE_FILE_LIMIT {
        whole_file(input)
    } else {
        small_strides_from(input, 0, Seq::empty())
    }
}

/// The chunks of one file where LZ4 comes first: the plan for archives whose
/// small files are to be read fast.
///
/// Succeeds exactly where the libraries make something of every range that
/// the plan compresses. The chunks that come back are the planned ones: they
/// follow each other from the first byte of `input` to the last, each holds
/// what is stored for its part under its method, each decompresses to that
/// part, and one that is stored as it is has the length of its part.
pub fn compress_file_lz4_first(input: &[u8]) -> (r: Result<Vec<Chunk>, CodecError>)
    ensures
        match lz4_first_chunks(input@) {
            Ok(plan) => {
                &&& r matches Ok(chunks)
                &&& chunk_views(chunks@) == plan
                &&& covers(plan, input@)
            },
            Err(e) => r matches Err(x) && x == e,
        },
{
    let mut chunks: Vec<Chunk> = Vec::new();
    proof {
        assert(input@.subrange(0, input@.len() as int) == input@);
    }
    if 0 < input.len() && input.len() <= SMALL_CHUNK_SIZE {
        let block = match compress_lz4(input) {
            Ok(block) => block,
            Err(e) => {
                return Err(e);
            },
        };
        if block.len() < input.len() {
            let ghost only = ChunkView::of(
                0,
                input@.len() as int,
                block@,
                CompressedMethod::Lz4,
            );
            chunks.push(
                Chunk {
                    start: 0,
                    original_size: input.len(),
                    compressed: block,
                    compressed_method: CompressedMethod::Lz4,
                },
            );
            proof {
                assert(chunk_views(chunks@) == seq![only]);
            }
            return Ok(chunks);
        }
    }
    if input.len() <= WHOLE_FILE_LIMIT {
        let frame = match compress_zstd(input) {
            Ok(frame) => frame,
            Err(e) => {
                return Err(e);
            },
        };
        let chunk = single_chunk(input, frame);
        chunks.push(chunk);
        proof {
            assert(chunk_views(chunks@) == seq![chunk@]);
        }
        return Ok(chunks);
    }
    let mut start: usize = 0;
    proof {
        reveal(in_step);
        assert(chunk_views(chunks@) == Seq::<ChunkView>::empty());
    }
    while start < input.len()
        invariant
            start <= input.len(),
            small_strides_from(input@, start as int, chunk_views(chunks@)) == lz4_first_chunks(
                input@,
            ),
            in_step(chunk_views(chunks@), input@, start as int),
        decreases input.len() - start,
    {
        let end: usize = if input.len() - start > SMALL_CHUNK_SIZE {
            start + SMALL_CHUNK_SIZE
        } else {
            input.len()
        };
        let method = if start == 0 {
            CompressedMethod::Lz4
        } else {
            CompressedMethod::Zstandard
        };
        match push_stride(input, &mut chunks, start, end, method) {
            Ok(_) => {},
            Err(e) => {
                return Err(e);
            },
        }
        start = end;
    }
    proof {
        reveal(in_step);
    }
    Ok(chunks)
}

} // verus!
