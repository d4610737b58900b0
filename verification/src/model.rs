//! The records of an archive index, and what it means for them to agree with
//! each other.

use vstd::prelude::*;

verus! {

/// How the bytes of one chunk are stored in the data file.
#[derive(Clone, Copy, Debug, PartialEq, Eq, Structural)]
pub enum CompressedMethod {
    /// The chunk is stored as it is.
    Passthrough,
    /// The chunk is one LZ4 block.
    Lz4,
    /// The chunk is one Zstandard frame.
    Zstandard,
}

impl CompressedMethod {
    /// The number that stands for this method in an index.
    pub open spec fn spec_code(self) -> u32 {
        match self {
            CompressedMethod::Passthrough => 0,
            CompressedMethod::Lz4 => 1,
            CompressedMethod::Zstandard => 2,
        }
    }

    /// The method that `code` stands for, if it stands for one.
    pub open spec fn spec_from_code(code: u32) -> Option<CompressedMethod> {
        if code == 0 {
            Some(CompressedMethod::Passthrough)
        } else if code == 1 {
            Some(CompressedMethod::Lz4)
        } else if code == 2 {
            Some(CompressedMethod::Zstandard)
        } else {
            None
        }
    }

    /// The number that stands for this method in an index.
    pub fn code(self) -> (c: u32)
        ensures
            c == self.spec_code(),
            Self::spec_from_code(c) == Some(self),
    {
        match self {
            CompressedMethod::Passthrough => 0,
            CompressedMethod::Lz4 => 1,
            CompressedMethod::Zstandard => 2,
        }
    }

    /// The method that `code` stands for; `None` for a number that stands for
    /// no method.
    pub fn from_code(code: u32) -> (m: Option<CompressedMethod>)
        ensures
            m == Self::spec_from_code(code),
            m matches Some(method) ==> method.spec_code() == code,
    {
        if code == 0 {
            Some(CompressedMethod::Passthrough)
        } else if code == 1 {
            Some(CompressedMethod::Lz4)
        } else if code == 2 {
            Some(CompressedMethod::Zstandard)
        } else {
            None
        }
    }
}

/// A point in time: seconds since the Unix epoch, and nanoseconds within the
/// second.
#[derive(Clone, Copy, Debug, PartialEq, Eq, Structural)]
pub struct Timestamp {
    pub seconds: i64,
    pub nanos: i32,
}

/// One chunk of a file body: how long it is in the data file, how long it is
/// once decompressed, and how it is stored.
#[derive(Clone, Copy, Debug, PartialEq, Eq, Structural)]
pub struct ChunkInfo {
    pub compressed_length: u32,
    pub compressed_method: CompressedMethod,
    pub original_length: u32,
}

impl ChunkInfo {
    /// A chunk that is stored as it is has the same length on both sides.
    pub open spec fn wf(self) -> bool {
        self.compressed_method == CompressedMethod::Passthrough ==> self.compressed_length
            == self.original_length
    }

    /// Decides `wf`.
    pub fn is_wf(&self) -> (b: bool)
        ensures
            b == self.wf(),
    {
        match self.compressed_method {
            CompressedMethod::Passthrough => self.compressed_length == self.original_length,
            _ => true,
        }
    }
}

/// The sum of the stored lengths of `chunks`.
pub open spec fn compressed_total(chunks: Seq<ChunkInfo>) -> nat
    decreases chunks.len(),
{
    if chunks.len() == 0 {
        0
    } else {
        compressed_total(chunks.drop_last()) + chunks.last().compressed_length as nat
    }
}

/// The sum of the decompressed lengths of `chunks`.
pub open spec fn original_total(chunks: Seq<ChunkInfo>) -> nat
    decreases chunks.len(),
{
    if chunks.len() == 0 {
        0
    } else {
        original_total(chunks.drop_last()) + chunks.last().original_length as nat
    }
}

/// Every chunk of `chunks` is well formed.
pub open spec fn chunks_wf(chunks: Seq<ChunkInfo>) -> bool {
    forall|i: int| 0 <= i < chunks.len() ==> (#[trigger] chunks[i]).wf()
}

/// What is recorded of one file.
#[derive(Clone, Debug, PartialEq, Eq)]
pub struct FileInfo {
    /// The path below the input root, with its leading separator.
    pub path: String,
    /// The chunks of the body, in the order in which they are stored.
    pub chunks: Vec<ChunkInfo>,
    /// CRC-32 of the stored chunks, concatenated.
    pub chunks_crc32: u32,
    /// SHA-256 of the stored chunks, concatenated.
    pub chunks_sha256: Vec<u8>,
    /// CRC-32 of the file as it was read.
    pub original_crc32: u32,
    /// SHA-256 of the file as it was read.
    pub original_sha256: Vec<u8>,
    /// When the file was last modified, where that is known.
    pub modified_time: Option<Timestamp>,
    /// Kept for later use; written as 0.
    pub priority: u32,
}

/// A `FileInfo` as a mathematical value.
pub struct FileInfoView {
    pub path: Seq<char>,
    pub chunks: Seq<ChunkInfo>,
    pub chunks_crc32: u32,
    pub chunks_sha256: Seq<u8>,
    pub original_crc32: u32,
    pub original_sha256: Seq<u8>,
    pub modified_time: Option<Timestamp>,
    pub priority: u32,
}

impl View for FileInfo {
    type V = FileInfoView;

    open spec fn view(&self) -> FileInfoView {
        FileInfoView {
            path: self.path@,
            chunks: self.chunks@,
            chunks_crc32: self.chunks_crc32,
            chunks_sha256: self.chunks_sha256@,
            original_crc32: self.original_crc32,
            original_sha256: self.original_sha256@,
            modified_time: self.modified_time,
            priority: self.priority,
        }
    }
}

impl FileInfo {
    /// A copy of this record.
    pub fn duplicate(&self) -> (r: FileInfo)
        ensures
            r@ == self@,
    {
        FileInfo {
            path: self.path.clone(),
            chunks: self.chunks.clone(),
            chunks_crc32: self.chunks_crc32,
            chunks_sha256: self.chunks_sha256.clone(),
            original_crc32: self.original_crc32,
            original_sha256: self.original_sha256.clone(),
            modified_time: self.modified_time,
            priority: self.priority,
        }
    }
}

/// One file of an archive: what is recorded of it, and where its body lies in
/// the data file.
#[derive(Clone, Debug, PartialEq, Eq)]
pub struct FileEntry {
    pub info: FileInfo,
    /// Not used; written as 0.
    pub file_index: u32,
    /// Where in the data file the first chunk begins.
    pub body_offset: u64,
    /// How many bytes of the data file the chunks take, all together.
    pub body_size: u64,
}

/// A `FileEntry` as a mathematical value.
pub struct FileEntryView {
    pub info: FileInfoView,
    pub file_index: u32,
    pub body_offset: u64,
    pub body_size: u64,
}

impl FileEntryView {
    /// The body is as long as its chunks together, and every chunk is well
    /// formed.
    pub open spec fn wf(self) -> bool {
        &&& self.body_size == compressed_total(self.info.chunks)
        &&& chunks_wf(self.info.chunks)
    }
}

impl View for FileEntry {
    type V = FileEntryView;

    open spec fn view(&self) -> FileEntryView {
        FileEntryView {
            info: self.info@,
            file_index: self.file_index,
            body_offset: self.body_offset,
            body_size: self.body_size,
        }
    }
}

impl FileEntry {
    /// The body is as long as its chunks together, and every chunk is well
    /// formed.
    pub open spec fn wf(&self) -> bool {
        self@.wf()
    }

    /// Whether the body is as long as the chunks together.
    pub fn has_stored_length(&self) -> (b: bool)
        ensures
            b == (self.body_size == compressed_total(self.info.chunks@)),
    {
        let mut total: u64 = 0;
        let mut i: usize = 0;
        while i < self.info.chunks.len()
            invariant
                i <= self.info.chunks.len(),
                total == compressed_total(self.info.chunks@.take(i as int)),
                total <= self.body_size,
            decreases self.info.chunks.len() - i,
        {
            let chunk = self.info.chunks[i];
            proof {
                let next = self.info.chunks@.take(i + 1);
                assert(next.drop_last() == self.info.chunks@.take(i as int));
                assert(next.last() == chunk);
                lemma_compressed_total_take(self.info.chunks@, i + 1);
            }
            if chunk.compressed_length as u64 > self.body_size - total {
                return false;
            }
            total = total + chunk.compressed_length as u64;
            i = i + 1;
        }
        proof {
            assert(self.info.chunks@.take(i as int) == self.info.chunks@);
        }
        total == self.body_size
    }

    /// Decides `wf`.
    pub fn is_wf(&self) -> (b: bool)
        ensures
            b == self.wf(),
    {
        let mut total: u64 = 0;
        let mut i: usize = 0;
        while i < self.info.chunks.len()
            invariant
                i <= self.info.chunks.len(),
                total == compressed_total(self.info.chunks@.take(i as int)),
                chunks_wf(self.info.chunks@.take(i as int)),
                total <= self.body_size,
            decreases self.info.chunks.len() - i,
        {
            let chunk = self.info.chunks[i];
            proof {
                let next = self.info.chunks@.take(i + 1);
                assert(next.drop_last() == self.info.chunks@.take(i as int));
                assert(next.last() == chunk);
                lemma_compressed_total_take(self.info.chunks@, i + 1);
            }
            if !chunk.is_wf() {
                proof {
                    assert(!self.info.chunks@[i as int].wf());
                }
                return false;
            }
            if chunk.compressed_length as u64 > self.body_size - total {
                return false;
            }
            total = total + chunk.compressed_length as u64;
            i = i + 1;
            proof {
                let next = self.info.chunks@.take(i as int);
                assert forall|k: int| 0 <= k < next.len() implies (#[trigger] next[k]).wf() by {
                    if k < i - 1 {
                        assert(next[k] == self.info.chunks@.take(i - 1)[k]);
                    }
                }
            }
        }
        proof {
            assert(self.info.chunks@.take(i as int) == self.info.chunks@);
        }
        total == self.body_size
    }
}

/// The sum over a prefix of `chunks` is no more than the sum over all of it.
pub proof fn lemma_compressed_total_take(chunks: Seq<ChunkInfo>, n: int)
    requires
        0 <= n <= chunks.len(),
    ensures
        compressed_total(chunks.take(n)) <= compressed_total(chunks),
    decreases chunks.len() - n,
{
    if n == chunks.len() {
        assert(chunks.take(n) == chunks);
    } else {
        lemma_compressed_total_take(chunks, n + 1);
        assert(chunks.take(n + 1).drop_last() == chunks.take(n));
    }
}

/// The index of an archive: its entries, in the order in which they are
/// written.
#[derive(Clone, Debug, PartialEq, Eq)]
pub struct FileIndexFile {
    pub entries: Vec<FileEntry>,
}

/// The entries of `entries` as mathematical values.
pub open spec fn entry_views(entries: Seq<FileEntry>) -> Seq<FileEntryView> {
    Seq::new(entries.len(), |i: int| entries[i]@)
}

impl View for FileIndexFile {
    type V = Seq<FileEntryView>;

    open spec fn view(&self) -> Seq<FileEntryView> {
        entry_views(self.entries@)
    }
}

} // verus!
