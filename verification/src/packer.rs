//! Keeps the books of one archive while its files are packed: where the data
//! file ends, which originals were seen, which bodies were written, and which
//! files wait for the body of another.
//!
//! The packer does no work on file contents and touches no file. Whoever
//! drives it hashes and compresses outside of it, asks it before compressing
//! (`register`) and after (`commit`), and writes the bytes of every committed
//! body to the data file in the order of the commits.

use vstd::prelude::*;
use vstd::utf8::encode_utf8;
use crate::body::{all_sound, entry_sound, lemma_sound_after_append, PackError, PackedBody};
use crate::bytes::bytes_equal;
use crate::digest_map::DigestMap;
use crate::model::{
    entry_views, FileEntry, FileEntryView, FileIndexFile, FileInfo, FileInfoView, Timestamp,
};
use crate::order::{
    arranged, bytes_le, lemma_lex_total, lemma_lex_transitive, lex_le, rank, sort, Ranking,
};

verus! {

/// What is known of a file before its body is written: where it lies, when
/// it was modified, and the checksums of its contents.
#[derive(Clone, Debug, PartialEq, Eq)]
pub struct PartialFileInfo {
    pub path: String,
    pub modified_time: Option<Timestamp>,
    pub original_crc32: u32,
    pub original_sha256: Vec<u8>,
}

/// A `PartialFileInfo` as a mathematical value.
pub struct PartialFileInfoView {
    pub path: Seq<char>,
    pub modified_time: Option<Timestamp>,
    pub original_crc32: u32,
    pub original_sha256: Seq<u8>,
}

impl View for PartialFileInfo {
    type V = PartialFileInfoView;

    open spec fn view(&self) -> PartialFileInfoView {
        PartialFileInfoView {
            path: self.path@,
            modified_time: self.modified_time,
            original_crc32: self.original_crc32,
            original_sha256: self.original_sha256@,
        }
    }
}

/// The files of `files` as mathematical values.
pub open spec fn partial_views(files: Seq<PartialFileInfo>) -> Seq<PartialFileInfoView> {
    Seq::new(files.len(), |i: int| files[i]@)
}

/// What the packer says of a file before it is compressed.
pub enum Admission {
    /// The original was seen before: the file is noted down and shares the
    /// body of the other at the end. It is not to be packed.
    Duplicate,
    /// The file is to be packed and committed.
    Pack(PartialFileInfo),
}

/// The entry of `file` once `body` is written at `offset`.
pub open spec fn entry_for(file: PartialFileInfoView, body: PackedBody, offset: int) -> FileEntryView {
    FileEntryView {
        info: FileInfoView {
            path: file.path,
            chunks: body.chunks_view(),
            chunks_crc32: body.stored_sums().crc32,
            chunks_sha256: body.stored_sums().sha256@,
            original_crc32: body.original_sums().crc32,
            original_sha256: body.original_sums().sha256@,
            modified_time: file.modified_time,
            priority: 0,
        },
        file_index: 0,
        body_offset: offset as u64,
        body_size: body.stored_view().len() as u64,
    }
}

/// The entry of a duplicate: that of `target`, under the path and the time of
/// `file`.
pub open spec fn resolved(file: PartialFileInfoView, target: FileEntryView) -> FileEntryView {
    FileEntryView {
        info: FileInfoView { path: file.path, modified_time: file.modified_time, ..target.info },
        ..target
    }
}

/// One of `entries` has the original digest `sha256`.
pub open spec fn holds_original(entries: Seq<FileEntryView>, sha256: Seq<u8>) -> bool {
    exists|i: int| 0 <= i < entries.len() && (#[trigger] entries[i]).info.original_sha256 == sha256
}

/// The entry of `entries` that has the original digest `sha256`.
pub open spec fn target_of(entries: Seq<FileEntryView>, sha256: Seq<u8>) -> FileEntryView {
    entries[choose|i: int|
        0 <= i < entries.len() && (#[trigger] entries[i]).info.original_sha256 == sha256]
}

/// No two of `entries` have the same original digest.
pub open spec fn distinct_originals(entries: Seq<FileEntryView>) -> bool {
    forall|i: int, j: int|
        0 <= i < j < entries.len() ==> (#[trigger] entries[i]).info.original_sha256 != (
        #[trigger] entries[j]).info.original_sha256
}

/// The entries of the duplicates `pending`, in their order, each with the
/// body of the entry of `committed` that has its original digest. The first
/// duplicate without such an entry makes it `MissingTarget`; the first whose
/// CRC-32 is not that of its entry makes it `ChecksumMismatch`.
pub open spec fn resolve_all(
    committed: Seq<FileEntryView>,
    pending: Seq<PartialFileInfoView>,
) -> Result<Seq<FileEntryView>, PackError>
    decreases pending.len(),
{
    if pending.len() == 0 {
        Ok(Seq::empty())
    } else {
        match resolve_all(committed, pending.drop_last()) {
            Err(e) => Err(e),
            Ok(front) => {
                let file = pending.last();
                if !holds_original(committed, file.original_sha256) {
                    Err(PackError::MissingTarget)
                } else if target_of(committed, file.original_sha256).info.original_crc32
                    != file.original_crc32 {
                    Err(PackError::ChecksumMismatch)
                } else {
                    Ok(front.push(resolved(file, target_of(committed, file.original_sha256))))
                }
            },
        }
    }
}

/// `a` is no later than `b` when paths are compared byte by byte.
pub open spec fn path_le(a: Seq<char>, b: Seq<char>) -> bool {
    lex_le(encode_utf8(a), encode_utf8(b))
}

/// The entries are in ascending order of their paths, compared byte by byte.
pub open spec fn sorted_by_path(entries: Seq<FileEntryView>) -> bool {
    forall|i: int, j: int|
        0 <= i <= j < entries.len() ==> path_le(
            (#[trigger] entries[i]).info.path,
            (#[trigger] entries[j]).info.path,
        )
}

/// The order of an index as a relation on entries.
pub open spec fn path_order() -> spec_fn(FileEntryView, FileEntryView) -> bool {
    |a: FileEntryView, b: FileEntryView| path_le(a.info.path, b.info.path)
}

/// Entries with the same original share one body: they point at the same
/// place, and record the same chunks.
pub open spec fn shares_bodies(entries: Seq<FileEntryView>) -> bool {
    forall|i: int, j: int|
        0 <= i < entries.len() && 0 <= j < entries.len() && (
        #[trigger] entries[i]).info.original_sha256 == (#[trigger] entries[j]).info.original_sha256
            ==> entries[i].body_offset == entries[j].body_offset && entries[i].body_size
            == entries[j].body_size && entries[i].info.chunks == entries[j].info.chunks
}

/// The order of an index: ascending by path, compared byte by byte.
pub struct ByPath;

impl Ranking<FileEntry> for ByPath {
    open spec fn le(a: FileEntry, b: FileEntry) -> bool {
        path_le(a@.info.path, b@.info.path)
    }

    fn is_le(a: &FileEntry, b: &FileEntry) -> (r: bool) {
        bytes_le(a.info.path.as_str().as_bytes(), b.info.path.as_str().as_bytes())
    }

    proof fn lemma_total(a: FileEntry, b: FileEntry) {
        lemma_lex_total(encode_utf8(a@.info.path), encode_utf8(b@.info.path), 0);
    }

    proof fn lemma_transitive(a: FileEntry, b: FileEntry, c: FileEntry) {
        lemma_lex_transitive(
            encode_utf8(a@.info.path),
            encode_utf8(b@.info.path),
            encode_utf8(c@.info.path),
            0,
        );
    }
}

/// The table knows every entry of `committed` by its original digest, and
/// nothing else.
spec fn table_agrees(table: Map<Seq<u8>, usize>, committed: Seq<FileEntryView>) -> bool {
    &&& forall|i: int|
        0 <= i < committed.len() ==> table.contains_key(
            (#[trigger] committed[i]).info.original_sha256,
        ) && table[committed[i].info.original_sha256] == i
    &&& forall|key: Seq<u8>| #[trigger]
        table.contains_key(key) ==> table[key] < committed.len() && committed[table[key] as int].info.original_sha256
            == key
}

/// A table that agrees with the entries tells which originals they hold, and
/// where.
proof fn lemma_table_finds(table: Map<Seq<u8>, usize>, committed: Seq<FileEntryView>, key: Seq<u8>)
    requires
        table_agrees(table, committed),
    ensures
        distinct_originals(committed),
        holds_original(committed, key) == table.contains_key(key),
        table.contains_key(key) ==> target_of(committed, key) == committed[table[key] as int],
{
    assert forall|i: int, j: int| 0 <= i < j < committed.len() implies (
    #[trigger] committed[i]).info.original_sha256 != (
    #[trigger] committed[j]).info.original_sha256 by {
        assert(table[committed[i].info.original_sha256] == i);
        assert(table[committed[j].info.original_sha256] == j);
    }
    if table.contains_key(key) {
        let at = table[key] as int;
        assert(committed[at].info.original_sha256 == key);
        let found = choose|i: int|
            0 <= i < committed.len() && (#[trigger] committed[i]).info.original_sha256 == key;
        assert(table[committed[found].info.original_sha256] == found);
    }
}

/// The books of one archive.
pub struct Packer {
    dedup: bool,
    data_len: u64,
    known: DigestMap<()>,
    table: DigestMap<usize>,
    pending: Vec<PartialFileInfo>,
    entries: Vec<FileEntry>,
    data: Ghost<Seq<u8>>,
}

impl Packer {
    /// Whether every original is stored once.
    pub closed spec fn dedup(&self) -> bool {
        self.dedup
    }

    /// The bytes of the data file: the committed bodies, in the order of the
    /// commits.
    pub closed spec fn data(&self) -> Seq<u8> {
        self.data@
    }

    /// The entries of the committed bodies, in the order of the commits.
    pub closed spec fn committed(&self) -> Seq<FileEntryView> {
        entry_views(self.entries@)
    }

    /// The duplicates that wait for the end, in the order in which they came.
    pub closed spec fn pending(&self) -> Seq<PartialFileInfoView> {
        partial_views(self.pending@)
    }

    /// The original digests that were seen.
    pub closed spec fn known(&self) -> Set<Seq<u8>> {
        self.known@.dom()
    }

    /// The books are in order.
    pub closed spec fn wf(&self) -> bool {
        &&& self.known.wf()
        &&& self.table.wf()
        &&& self.data@.len() == self.data_len
        &&& all_sound(self.committed(), self.data@)
        &&& self.dedup ==> table_agrees(self.table@, self.committed())
        &&& self.dedup ==> forall|key: Seq<u8>| #[trigger]
            self.table@.contains_key(key) ==> self.known@.contains_key(key)
        &&& !self.dedup ==> self.pending@.len() == 0
    }

    /// Books that are in order say the truth about the data file: every
    /// committed entry is sound, where every original is stored once no two
    /// committed entries have the same original, and elsewhere no duplicate
    /// waits.
    pub proof fn lemma_books(&self)
        requires
            self.wf(),
        ensures
            all_sound(self.committed(), self.data()),
            self.dedup() ==> distinct_originals(self.committed()),
            self.dedup() ==> forall|i: int|
                0 <= i < self.committed().len() ==> self.known().contains(
                    (#[trigger] self.committed()[i]).info.original_sha256,
                ),
            !self.dedup() ==> self.pending().len() == 0,
    {
        if self.dedup {
            lemma_table_finds(self.table@, self.committed(), Seq::empty());
        }
    }

    /// The books of an archive that is empty yet.
    pub fn new(dedup: bool) -> (r: Packer)
        ensures
            r.wf(),
            r.dedup() == dedup,
            r.data() == Seq::<u8>::empty(),
            r.committed() == Seq::<FileEntryView>::empty(),
            r.pending() == Seq::<PartialFileInfoView>::empty(),
            r.known() == Set::<Seq<u8>>::empty(),
    {
        let r = Packer {
            dedup,
            data_len: 0,
            known: DigestMap::new(),
            table: DigestMap::new(),
            pending: Vec::new(),
            entries: Vec::new(),
            data: Ghost(Seq::empty()),
        };
        proof {
            assert(r.committed() =~= Seq::<FileEntryView>::empty());
            assert(r.pending() =~= Seq::<PartialFileInfoView>::empty());
            assert(r.known() =~= Set::<Seq<u8>>::empty());
        }
        r
    }

    /// How long the data file is: where the next body will begin.
    pub fn data_len(&self) -> (r: u64)
        requires
            self.wf(),
        ensures
            r == self.data().len(),
    {
        self.data_len
    }

    /// How many bodies were committed.
    pub fn committed_count(&self) -> (r: usize)
        ensures
            r == self.committed().len(),
    {
        self.entries.len()
    }

    /// How many duplicates wait for the end.
    pub fn pending_count(&self) -> (r: usize)
        ensures
            r == self.pending().len(),
    {
        self.pending.len()
    }

    /// Asks whether `file` is to be packed.
    ///
    /// Where every original is stored once and that of `file` was seen
    /// before, `file` is noted down as a duplicate. Otherwise it is handed
    /// back to be packed, and its original counts as seen from now on.
    pub fn register(&mut self, file: PartialFileInfo) -> (r: Admission)
        requires
            old(self).wf(),
        ensures
            final(self).wf(),
            final(self).dedup() == old(self).dedup(),
            final(self).data() == old(self).data(),
            final(self).committed() == old(self).committed(),
            if old(self).dedup() && old(self).known().contains(file@.original_sha256) {
                &&& r is Duplicate
                &&& final(self).pending() == old(self).pending().push(file@)
                &&& final(self).known() == old(self).known()
            } else {
                &&& r == Admission::Pack(file)
                &&& final(self).pending() == old(self).pending()
                &&& final(self).known() == if old(self).dedup() {
                    old(self).known().insert(file@.original_sha256)
                } else {
                    old(self).known()
                }
            },
    {
        if self.dedup {
            if self.known.contains(file.original_sha256.as_slice()) {
                self.pending.push(file);
                proof {
                    assert(final(self).pending() =~= old(self).pending().push(file@));
                }
                return Admission::Duplicate;
            }
            self.known.insert(file.original_sha256.clone(), ());
            proof {
                assert(final(self).known() =~= old(self).known().insert(file@.original_sha256));
            }
        }
        Admission::Pack(file)
    }

    /// Why `body` cannot be committed for `file`, if it cannot: the checksums
    /// that came with `file` are not those of the body; or every original is
    /// stored once and this one was committed before; or the data file would
    /// grow beyond what an index can record.
    pub open spec fn refusal(&self, file: PartialFileInfoView, body: PackedBody) -> Option<
        PackError,
    > {
        if file.original_crc32 != body.original_sums().crc32 || file.original_sha256
            != body.original_sums().sha256@ {
            Some(PackError::ChecksumMismatch)
        } else if self.dedup() && holds_original(self.committed(), file.original_sha256) {
            Some(PackError::AlreadyCommitted)
        } else if self.data().len() + body.stored_view().len() > u64::MAX {
            Some(PackError::TooLarge)
        } else {
            None
        }
    }

    /// Enters the body of `file` into the books and tells where in the data
    /// file it begins: at the end of what was there. The caller writes the
    /// bytes of `body` there.
    ///
    /// Where the body is refused the books stay as they were.
    pub fn commit(&mut self, file: PartialFileInfo, body: &PackedBody) -> (r: Result<
        u64,
        PackError,
    >)
        requires
            old(self).wf(),
            body.wf(),
        ensures
            final(self).wf(),
            final(self).dedup() == old(self).dedup(),
            final(self).pending() == old(self).pending(),
            match old(self).refusal(file@, *body) {
                Some(e) => {
                    &&& r == Err::<u64, PackError>(e)
                    &&& final(self).data() == old(self).data()
                    &&& final(self).committed() == old(self).committed()
                    &&& final(self).known() == old(self).known()
                },
                None => {
                    &&& r == Ok::<u64, PackError>(old(self).data().len() as u64)
                    &&& final(self).data() == old(self).data() + body.stored_view()
                    &&& final(self).committed() == old(self).committed().push(
                        entry_for(file@, *body, old(self).data().len() as int),
                    )
                    &&& final(self).known() == if old(self).dedup() {
                        old(self).known().insert(file@.original_sha256)
                    } else {
                        old(self).known()
                    }
                },
            },
    {
        let sums = body.original_checksums();
        if file.original_crc32 != sums.crc32 || !bytes_equal(
            file.original_sha256.as_slice(),
            sums.sha256.as_slice(),
        ) {
            return Err(PackError::ChecksumMismatch);
        }
        proof {
            if self.dedup {
                lemma_table_finds(self.table@, self.committed(), file@.original_sha256);
            }
        }
        if self.dedup && self.table.contains(file.original_sha256.as_slice()) {
            return Err(PackError::AlreadyCommitted);
        }
        let length = body.bytes().len() as u64;
        if length > u64::MAX - self.data_len {
            return Err(PackError::TooLarge);
        }
        let offset = self.data_len;
        let stored_sums = body.chunks_checksums();
        let entry = FileEntry {
            info: FileInfo {
                path: file.path,
                chunks: body.chunks().clone(),
                chunks_crc32: stored_sums.crc32,
                chunks_sha256: stored_sums.sha256.clone(),
                original_crc32: sums.crc32,
                original_sha256: sums.sha256.clone(),
                modified_time: file.modified_time,
                priority: 0,
            },
            file_index: 0,
            body_offset: offset,
            body_size: length,
        };
        let ghost before = self.committed();
        let ghost data_before = self.data@;
        let ghost table_before = self.table@;
        let ghost added = entry_for(file@, *body, offset as int);
        assert(entry@ == added);
        proof {
            lemma_commit_sound(before, data_before, *body, added);
        }
        let index = self.entries.len();
        self.entries.push(entry);
        self.data_len = offset + length;
        self.data = Ghost(data_before + body.stored_view());
        if self.dedup {
            self.table.insert(file.original_sha256.clone(), index);
            self.known.insert(file.original_sha256, ());
            proof {
                assert(final(self).known() =~= old(self).known().insert(file@.original_sha256));
                lemma_table_grows(table_before, before, added, index);
            }
        }
        proof {
            assert(final(self).committed() =~= before.push(added));
        }
        Ok(offset)
    }
}

/// The entry of a body that is written at the end of the data file is sound,
/// and so stay the entries that were there.
proof fn lemma_commit_sound(
    committed: Seq<FileEntryView>,
    data: Seq<u8>,
    body: PackedBody,
    added: FileEntryView,
)
    requires
        all_sound(committed, data),
        body.wf(),
        data.len() + body.stored_view().len() <= u64::MAX,
        added.info.chunks == body.chunks_view(),
        added.info.chunks_crc32 == body.stored_sums().crc32,
        added.info.chunks_sha256 == body.stored_sums().sha256@,
        added.info.original_crc32 == body.original_sums().crc32,
        added.info.original_sha256 == body.original_sums().sha256@,
        added.body_offset == data.len(),
        added.body_size == body.stored_view().len(),
    ensures
        all_sound(committed.push(added), data + body.stored_view()),
{
    let grown = data + body.stored_view();
    let all = committed.push(added);
    assert(crate::body::body_of(added, grown) == body.stored_view());
    assert forall|i: int| 0 <= i < all.len() implies entry_sound(#[trigger] all[i], grown) by {
        if i < committed.len() {
            lemma_sound_after_append(committed[i], data, body.stored_view());
        }
    }
}

/// A table that agreed with the entries agrees with them again once the new
/// entry is known by its original digest.
proof fn lemma_table_grows(
    table: Map<Seq<u8>, usize>,
    committed: Seq<FileEntryView>,
    added: FileEntryView,
    index: usize,
)
    requires
        table_agrees(table, committed),
        !table.contains_key(added.info.original_sha256),
        index == committed.len(),
    ensures
        table_agrees(table.insert(added.info.original_sha256, index), committed.push(added)),
{
    let grown = table.insert(added.info.original_sha256, index);
    let all = committed.push(added);
    assert forall|i: int| 0 <= i < all.len() implies grown.contains_key(
        (#[trigger] all[i]).info.original_sha256,
    ) && grown[all[i].info.original_sha256] == i by {
        if i < committed.len() {
            assert(table.contains_key(committed[i].info.original_sha256));
        }
    }
    assert forall|key: Seq<u8>| #[trigger] grown.contains_key(key) implies grown[key] < all.len()
        && all[grown[key] as int].info.original_sha256 == key by {
        if key != added.info.original_sha256 {
            assert(table.contains_key(key));
        }
    }
}

/// `entry` has the body of `other`: the two agree in all but the path and the
/// time of modification.
pub open spec fn same_body(entry: FileEntryView, other: FileEntryView) -> bool {
    entry == resolved(
        PartialFileInfoView {
            path: entry.info.path,
            modified_time: entry.info.modified_time,
            original_crc32: entry.info.original_crc32,
            original_sha256: entry.info.original_sha256,
        },
        other,
    )
}

/// `entry` has the body of one of `committed`.
pub open spec fn has_body_in(entry: FileEntryView, committed: Seq<FileEntryView>) -> bool {
    exists|k: int| 0 <= k < committed.len() && same_body(entry, #[trigger] committed[k])
}

/// Every entry of `entries` has the body of one of `committed`.
pub open spec fn bodies_from(entries: Seq<FileEntryView>, committed: Seq<FileEntryView>) -> bool {
    forall|i: int| 0 <= i < entries.len() ==> has_body_in(#[trigger] entries[i], committed)
}

/// Where the first duplicates cannot be resolved, none can, and for the same
/// reason.
proof fn lemma_resolve_fails_early(
    committed: Seq<FileEntryView>,
    pending: Seq<PartialFileInfoView>,
    n: int,
)
    requires
        0 <= n <= pending.len(),
        resolve_all(committed, pending.take(n)) is Err,
    ensures
        resolve_all(committed, pending) == resolve_all(committed, pending.take(n)),
    decreases pending.len() - n,
{
    if n == pending.len() {
        assert(pending.take(n) == pending);
    } else {
        assert(pending.take(n + 1).drop_last() == pending.take(n));
        lemma_resolve_fails_early(committed, pending, n + 1);
    }
}

/// Duplicates that are resolved have the bodies of committed entries.
proof fn lemma_resolved_bodies(committed: Seq<FileEntryView>, pending: Seq<PartialFileInfoView>)
    requires
        resolve_all(committed, pending) is Ok,
    ensures
        bodies_from(resolve_all(committed, pending).unwrap(), committed),
        resolve_all(committed, pending).unwrap().len() == pending.len(),
    decreases pending.len(),
{
    if pending.len() > 0 {
        lemma_resolved_bodies(committed, pending.drop_last());
        let front = resolve_all(committed, pending.drop_last()).unwrap();
        let file = pending.last();
        let all = resolve_all(committed, pending).unwrap();
        let k = choose|k: int|
            0 <= k < committed.len() && (#[trigger] committed[k]).info.original_sha256
                == file.original_sha256;
        assert(all == front.push(resolved(file, committed[k])));
        assert forall|i: int| 0 <= i < all.len() implies has_body_in(
            #[trigger] all[i],
            committed,
        ) by {
            if i < front.len() {
                assert(has_body_in(front[i], committed));
            } else {
                assert(same_body(all[i], committed[k]));
            }
        }
    }
}

/// An entry with the body of a sound entry is sound.
proof fn lemma_same_body_sound(entry: FileEntryView, other: FileEntryView, data: Seq<u8>)
    requires
        same_body(entry, other),
        entry_sound(other, data),
    ensures
        entry_sound(entry, data),
{
    assert(crate::body::body_of(entry, data) == crate::body::body_of(other, data));
}

/// Entries with the bodies of sound entries are sound, and where no two of
/// those have the same original, entries with the same original share a
/// body.
proof fn lemma_bodies_from(
    entries: Seq<FileEntryView>,
    committed: Seq<FileEntryView>,
    data: Seq<u8>,
)
    requires
        bodies_from(entries, committed),
        all_sound(committed, data),
    ensures
        all_sound(entries, data),
        distinct_originals(committed) ==> shares_bodies(entries),
{
    assert forall|i: int| 0 <= i < entries.len() implies entry_sound(
        #[trigger] entries[i],
        data,
    ) by {
        assert(has_body_in(entries[i], committed));
        let k = choose|k: int|
            0 <= k < committed.len() && same_body(entries[i], #[trigger] committed[k]);
        lemma_same_body_sound(entries[i], committed[k], data);
    }
    if distinct_originals(committed) {
        assert forall|i: int, j: int|
            0 <= i < entries.len() && 0 <= j < entries.len() && (
            #[trigger] entries[i]).info.original_sha256 == (
            #[trigger] entries[j]).info.original_sha256 implies entries[i].body_offset
            == entries[j].body_offset && entries[i].body_size == entries[j].body_size
            && entries[i].info.chunks == entries[j].info.chunks by {
            assert(has_body_in(entries[i], committed));
            assert(has_body_in(entries[j], committed));
            let a = choose|k: int|
                0 <= k < committed.len() && same_body(entries[i], #[trigger] committed[k]);
            let b = choose|k: int|
                0 <= k < committed.len() && same_body(entries[j], #[trigger] committed[k]);
            if a < b {
                assert(committed[a].info.original_sha256 != committed[b].info.original_sha256);
            }
            if b < a {
                assert(committed[b].info.original_sha256 != committed[a].info.original_sha256);
            }
        }
    }
}

/// Every entry has its own body.
proof fn lemma_bodies_from_self(committed: Seq<FileEntryView>)
    ensures
        bodies_from(committed, committed),
{
    assert forall|i: int| 0 <= i < committed.len() implies has_body_in(
        #[trigger] committed[i],
        committed,
    ) by {
        assert(same_body(committed[i], committed[i]));
    }
}

/// Entries that have bodies of `committed`, followed by more of them, have
/// bodies of `committed`.
proof fn lemma_bodies_from_both(
    first: Seq<FileEntryView>,
    second: Seq<FileEntryView>,
    committed: Seq<FileEntryView>,
)
    requires
        bodies_from(first, committed),
        bodies_from(second, committed),
    ensures
        bodies_from(first + second, committed),
{
    let both = first + second;
    assert forall|i: int| 0 <= i < both.len() implies has_body_in(
        #[trigger] both[i],
        committed,
    ) by {
        if i < first.len() {
            assert(has_body_in(first[i], committed));
        } else {
            assert(has_body_in(second[i - first.len()], committed));
        }
    }
}

/// Entries that hold the values of `source`, in another order, have the
/// bodies that those of `source` have.
proof fn lemma_bodies_from_reordered(
    entries: Seq<FileEntryView>,
    source: Seq<FileEntryView>,
    committed: Seq<FileEntryView>,
)
    requires
        entries.to_multiset() == source.to_multiset(),
        bodies_from(source, committed),
    ensures
        bodies_from(entries, committed),
{
    crate::order::lemma_same_values(entries, source);
    assert forall|i: int| 0 <= i < entries.len() implies has_body_in(
        #[trigger] entries[i],
        committed,
    ) by {
        assert(entries.contains(entries[i]));
        assert(source.contains(entries[i]));
        let j = choose|j: int| 0 <= j < source.len() && source[j] == entries[i];
        assert(has_body_in(source[j], committed));
    }
}

impl Packer {
    /// The index of the archive: the committed entries and those of the
    /// duplicates, in ascending order of their paths. Entries with the same
    /// path keep their order: committed entries first, in the order of the
    /// commits.
    ///
    /// Fails where a duplicate cannot be resolved, as `resolve_all` says.
    /// Otherwise the index holds each of those entries once, every entry of
    /// it is sound for the data file, and where every original is stored
    /// once, entries with the same original share a body.
    pub fn finalize(self) -> (r: Result<FileIndexFile, PackError>)
        requires
            self.wf(),
        ensures
            match resolve_all(self.committed(), self.pending()) {
                Err(e) => r == Err::<FileIndexFile, PackError>(e),
                Ok(duplicates) => {
                    &&& r matches Ok(index)
                    &&& index@ == arranged(self.committed() + duplicates, path_order())
                    &&& sorted_by_path(index@)
                    &&& index@.to_multiset() == (self.committed() + duplicates).to_multiset()
                    &&& all_sound(index@, self.data())
                    &&& self.dedup() ==> shares_bodies(index@)
                },
            },
    {
        let ghost committed = self.committed();
        let ghost waiting = self.pending();
        let ghost data = self.data();
        let dedup = self.dedup;
        let table = self.table;
        let pending = self.pending;
        let mut all = self.entries;
        let mut i: usize = 0;
        proof {
            assert(waiting.take(0) == Seq::<PartialFileInfoView>::empty());
            assert(entry_views(all@) =~= committed + Seq::<FileEntryView>::empty());
        }
        while i < pending.len()
            invariant
                i <= pending@.len(),
                committed == self.committed(),
                waiting == self.pending(),
                waiting == partial_views(pending@),
                table.wf(),
                pending@.len() > 0 ==> table_agrees(table@, committed),
                all@.len() == committed.len() + i,
                resolve_all(committed, waiting.take(i as int)) is Ok,
                entry_views(all@) == committed + resolve_all(
                    committed,
                    waiting.take(i as int),
                ).unwrap(),
            decreases pending.len() - i,
        {
            let file = &pending[i];
            let ghost so_far = resolve_all(committed, waiting.take(i as int)).unwrap();
            proof {
                assert(waiting.take(i + 1).drop_last() == waiting.take(i as int));
                assert(waiting.take(i + 1).last() == file@);
                lemma_table_finds(table@, committed, file@.original_sha256);
                lemma_resolved_bodies(committed, waiting.take(i as int));
            }
            let at: usize = match table.get(file.original_sha256.as_slice()) {
                Some(at) => *at,
                None => {
                    proof {
                        lemma_resolve_fails_early(committed, waiting, i + 1);
                    }
                    return Err(PackError::MissingTarget);
                },
            };
            let target = &all[at];
            proof {
                assert(entry_views(all@)[at as int] == committed[at as int]);
                assert(target@ == target_of(committed, file@.original_sha256));
            }
            if target.info.original_crc32 != file.original_crc32 {
                proof {
                    lemma_resolve_fails_early(committed, waiting, i + 1);
                }
                return Err(PackError::ChecksumMismatch);
            }
            let mut info = target.info.duplicate();
            info.path = file.path.clone();
            info.modified_time = file.modified_time;
            let entry = FileEntry {
                info,
                file_index: target.file_index,
                body_offset: target.body_offset,
                body_size: target.body_size,
            };
            proof {
                assert(entry@ == resolved(file@, target@));
            }
            let ghost before = entry_views(all@);
            all.push(entry);
            proof {
                assert(entry_views(all@) =~= before.push(entry@));
                assert(before.push(entry@) =~= committed + so_far.push(entry@));
            }
            i = i + 1;
        }
        proof {
            assert(waiting.take(i as int) == waiting);
        }
        let ghost duplicates = resolve_all(committed, waiting).unwrap();
        let ghost unsorted = all@;
        let sorted = sort::<FileEntry, ByPath>(all);
        let index = FileIndexFile { entries: sorted };
        proof {
            let view_of = |e: FileEntry| e@;
            assert(entry_views(sorted@) =~= sorted@.map_values(view_of));
            assert(entry_views(unsorted) =~= unsorted.map_values(view_of));
            crate::order::lemma_mapped_values(sorted@, unsorted, view_of);
            crate::order::lemma_rank_is_ranking::<FileEntry, ByPath>();
            crate::order::lemma_arranged_mapped(
                unsorted,
                view_of,
                rank::<FileEntry, ByPath>(),
                path_order(),
            );
            assert forall|a: int, b: int| 0 <= a <= b < index@.len() implies path_le(
                (#[trigger] index@[a]).info.path,
                (#[trigger] index@[b]).info.path,
            ) by {
                assert(ByPath::le(sorted@[a], sorted@[b]));
            }
            lemma_resolved_bodies(committed, waiting);
            lemma_bodies_from_self(committed);
            lemma_bodies_from_both(committed, duplicates, committed);
            lemma_bodies_from_reordered(index@, committed + duplicates, committed);
            lemma_bodies_from(index@, committed, data);
            if dedup {
                lemma_table_finds(table@, committed, Seq::empty());
            }
        }
        Ok(index)
    }
}

} // verus!
