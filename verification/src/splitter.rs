//! Splits the entries of one archive over several, so that the archives come
//! out about equally large and every body is stored once.

use vstd::multiset::Multiset;
use vstd::prelude::*;
use crate::digest_map::DigestMap;
use crate::model::{compressed_total, entry_views, ChunkInfo, FileEntry, FileEntryView};
use crate::order::{arranged, rank, reversed, sort, Ranking};

verus! {

/// What one chunk weighs: its stored length, or its original length where no
/// stored length is recorded.
pub open spec fn chunk_weight(chunk: ChunkInfo) -> nat {
    if chunk.compressed_length == 0 {
        chunk.original_length as nat
    } else {
        chunk.compressed_length as nat
    }
}

/// What `chunks` weigh together.
pub open spec fn chunks_weight(chunks: Seq<ChunkInfo>) -> nat
    decreases chunks.len(),
{
    if chunks.len() == 0 {
        0
    } else {
        chunks_weight(chunks.drop_last()) + chunk_weight(chunks.last())
    }
}

/// What an entry weighs: its chunks together.
pub open spec fn entry_weight(entry: FileEntryView) -> nat {
    chunks_weight(entry.info.chunks)
}

/// The first chunks of an entry weigh no more than all of them.
pub proof fn lemma_chunks_weight_take(chunks: Seq<ChunkInfo>, n: int)
    requires
        0 <= n <= chunks.len(),
    ensures
        chunks_weight(chunks.take(n)) <= chunks_weight(chunks),
    decreases chunks.len() - n,
{
    if n == chunks.len() {
        assert(chunks.take(n) == chunks);
    } else {
        lemma_chunks_weight_take(chunks, n + 1);
        assert(chunks.take(n + 1).drop_last() == chunks.take(n));
    }
}

/// Every chunk of `chunks` that has no stored bytes has no original bytes
/// either.
pub open spec fn stored_where_needed(chunks: Seq<ChunkInfo>) -> bool {
    forall|i: int|
        0 <= i < chunks.len() && (#[trigger] chunks[i]).compressed_length == 0
            ==> chunks[i].original_length == 0
}

/// Chunks weigh what they take in the data file, where every chunk that has
/// original bytes has stored bytes.
pub proof fn lemma_weight_is_stored_length(chunks: Seq<ChunkInfo>)
    requires
        stored_where_needed(chunks),
    ensures
        chunks_weight(chunks) == compressed_total(chunks),
    decreases chunks.len(),
{
    if chunks.len() > 0 {
        assert(chunks.last() == chunks[chunks.len() - 1]);
        assert forall|i: int|
            0 <= i < chunks.drop_last().len() && (#[trigger] chunks.drop_last()[i]).compressed_length
                == 0 implies chunks.drop_last()[i].original_length == 0 by {
            assert(chunks.drop_last()[i] == chunks[i]);
        }
        lemma_weight_is_stored_length(chunks.drop_last());
    }
}

/// An entry weighs as much as its body is long, where the body is as long as
/// its chunks together and every chunk that has original bytes has stored
/// bytes. An archive that does not hold its original grows by the length of
/// the body when the entry is added.
pub proof fn lemma_weight_is_body_size(archive: ChunkedFileView, entry: FileEntryView)
    requires
        entry.body_size == compressed_total(entry.info.chunks),
        stored_where_needed(entry.info.chunks),
    ensures
        entry_weight(entry) == entry.body_size,
        !archive.hashes.contains(entry.info.original_sha256) ==> archive.with(entry).size
            == archive.size + entry.body_size,
{
    lemma_weight_is_stored_length(entry.info.chunks);
}

/// What adding an entry does to an archive: the entry comes last, behind the
/// entries that were there; its digest is one of the digests; the archive
/// grows by the weight of the entry where it did not hold the original, and
/// stays as large as it was where it did. So it never shrinks, and never
/// grows by more than the entry weighs.
pub proof fn lemma_added(archive: ChunkedFileView, entry: FileEntryView)
    ensures
        archive.with(entry).entries == archive.entries + seq![entry],
        archive.with(entry).entries.len() == archive.entries.len() + 1,
        archive.with(entry).entries.last() == entry,
        archive.with(entry).hashes.contains(entry.info.original_sha256),
        forall|digest: Seq<u8>|
            archive.hashes.contains(digest) ==> #[trigger] archive.with(entry).hashes.contains(
                digest,
            ),
        !archive.hashes.contains(entry.info.original_sha256) ==> archive.with(entry).size
            == archive.size + entry_weight(entry),
        archive.hashes.contains(entry.info.original_sha256) ==> archive.with(entry).size
            == archive.size,
        archive.size <= archive.with(entry).size <= archive.size + entry_weight(entry),
{
    assert(archive.entries.push(entry) =~= archive.entries + seq![entry]);
}

/// What `entry` weighs; `None` where that is more than a `u64` holds.
pub fn weigh(entry: &FileEntry) -> (w: Option<u64>)
    ensures
        match w {
            Some(weight) => weight == entry_weight(entry@),
            None => entry_weight(entry@) > u64::MAX,
        },
{
    let chunks = &entry.info.chunks;
    let mut total: u64 = 0;
    let mut i: usize = 0;
    while i < chunks.len()
        invariant
            i <= chunks@.len(),
            chunks@ == entry@.info.chunks,
            total == chunks_weight(chunks@.take(i as int)),
        decreases chunks.len() - i,
    {
        let chunk = chunks[i];
        let weight: u32 = if chunk.compressed_length == 0 {
            chunk.original_length
        } else {
            chunk.compressed_length
        };
        proof {
            assert(chunks@.take(i + 1).drop_last() == chunks@.take(i as int));
            assert(chunks@.take(i + 1).last() == chunk);
            lemma_chunks_weight_take(chunks@, i + 1);
        }
        if weight as u64 > u64::MAX - total {
            return None;
        }
        total = total + weight as u64;
        i = i + 1;
    }
    proof {
        assert(chunks@.take(i as int) == chunks@);
    }
    Some(total)
}

/// One of the archives that a split fills: its entries in the order in which
/// they came, the digests of their originals, and the weight of the bodies,
/// each counted once.
pub struct ChunkedFile {
    entries: Vec<FileEntry>,
    well_known_hashes: DigestMap<()>,
    size: u64,
}

/// A `ChunkedFile` as a mathematical value.
pub struct ChunkedFileView {
    pub entries: Seq<FileEntryView>,
    pub hashes: Set<Seq<u8>>,
    pub size: nat,
}

impl ChunkedFileView {
    /// An archive that holds nothing.
    pub open spec fn empty() -> ChunkedFileView {
        ChunkedFileView { entries: Seq::empty(), hashes: Set::empty(), size: 0 }
    }

    /// The archive with `entry` added: the body weighs in unless the archive
    /// holds one with the same original.
    pub open spec fn with(self, entry: FileEntryView) -> ChunkedFileView {
        ChunkedFileView {
            entries: self.entries.push(entry),
            hashes: self.hashes.insert(entry.info.original_sha256),
            size: if self.hashes.contains(entry.info.original_sha256) {
                self.size
            } else {
                self.size + entry_weight(entry)
            },
        }
    }
}

impl View for ChunkedFile {
    type V = ChunkedFileView;

    closed spec fn view(&self) -> ChunkedFileView {
        ChunkedFileView {
            entries: crate::model::entry_views(self.entries@),
            hashes: self.well_known_hashes@.dom(),
            size: self.size as nat,
        }
    }
}

impl ChunkedFile {
    /// The digests are held once each.
    pub closed spec fn wf(&self) -> bool {
        self.well_known_hashes.wf()
    }

    /// An archive that holds nothing.
    pub fn new() -> (r: ChunkedFile)
        ensures
            r.wf(),
            r@ == ChunkedFileView::empty(),
    {
        let r = ChunkedFile { entries: Vec::new(), well_known_hashes: DigestMap::new(), size: 0 };
        proof {
            assert(r@.entries =~= Seq::<FileEntryView>::empty());
            assert(r@.hashes =~= Set::<Seq<u8>>::empty());
        }
        r
    }

    /// Adds `entry`: it comes last, and its digest is one of the digests. Its
    /// body weighs in unless the archive holds one with the same original, so
    /// the archive never shrinks and grows by the weight of the entry at most.
    /// Where every chunk that has original bytes has stored bytes and the body
    /// is as long as its chunks together, a body that weighs in weighs as much
    /// as it is long.
    pub fn add(&mut self, entry: FileEntry)
        requires
            old(self).wf(),
            old(self)@.with(entry@).size <= u64::MAX,
        ensures
            final(self).wf(),
            final(self)@ == old(self)@.with(entry@),
            final(self)@.entries == old(self)@.entries.push(entry@),
            final(self)@.hashes == old(self)@.hashes.insert(entry@.info.original_sha256),
            final(self)@.size == if old(self)@.hashes.contains(entry@.info.original_sha256) {
                old(self)@.size
            } else {
                old(self)@.size + entry_weight(entry@)
            },
            old(self)@.size <= final(self)@.size <= old(self)@.size + entry_weight(entry@),
            !old(self)@.hashes.contains(entry@.info.original_sha256) && entry@.body_size
                == compressed_total(entry@.info.chunks) && stored_where_needed(entry@.info.chunks)
                ==> final(self)@.size == old(self)@.size + entry@.body_size,
    {
        proof {
            if stored_where_needed(entry@.info.chunks) {
                lemma_weight_is_stored_length(entry@.info.chunks);
            }
        }
        if !self.well_known_hashes.contains(entry.info.original_sha256.as_slice()) {
            let weight = weigh(&entry);
            self.well_known_hashes.insert(entry.info.original_sha256.clone(), ());
            self.size = self.size + weight.unwrap();
        }
        self.entries.push(entry);
        proof {
            assert(final(self)@.entries =~= old(self)@.with(entry@).entries);
            assert(final(self)@.hashes =~= old(self)@.with(entry@).hashes);
        }
    }

    /// The entries, in the order in which they were added.
    pub fn entries(&self) -> (r: &Vec<FileEntry>)
        ensures
            crate::model::entry_views(r@) == self@.entries,
    {
        &self.entries
    }

    /// The weight of the bodies, each counted once.
    pub fn size(&self) -> (r: u64)
        ensures
            r == self@.size,
    {
        self.size
    }

    /// The entries, in the order in which they were added.
    pub fn into_entries(self) -> (r: Vec<FileEntry>)
        ensures
            entry_views(r@) == self@.entries,
    {
        self.entries
    }

    /// Whether the archive holds a body with the original digest `sha256`.
    pub fn holds(&self, sha256: &[u8]) -> (r: bool)
        requires
            self.wf(),
        ensures
            r == self@.hashes.contains(sha256@),
    {
        self.well_known_hashes.contains(sha256)
    }
}

/// The archives of `shards` as mathematical values.
pub open spec fn shard_views(shards: Seq<ChunkedFile>) -> Seq<ChunkedFileView> {
    Seq::new(shards.len(), |i: int| shards[i]@)
}

/// Among the first `n` of `shards`, the first that weighs least.
pub open spec fn least_loaded_of(shards: Seq<ChunkedFileView>, n: int) -> int
    decreases n,
{
    if n <= 1 {
        0
    } else {
        let best = least_loaded_of(shards, n - 1);
        if shards[n - 1].size < shards[best].size {
            n - 1
        } else {
            best
        }
    }
}

/// The first of `shards` that weighs least.
pub open spec fn least_loaded(shards: Seq<ChunkedFileView>) -> int {
    least_loaded_of(shards, shards.len() as int)
}

/// The first that weighs least is one of the archives, none weighs less, and
/// none before it weighs as little.
pub proof fn lemma_least_loaded(shards: Seq<ChunkedFileView>, n: int)
    requires
        1 <= n <= shards.len(),
    ensures
        0 <= least_loaded_of(shards, n) < n,
        forall|j: int|
            0 <= j < n ==> shards[least_loaded_of(shards, n)].size <= (#[trigger] shards[j]).size,
        forall|j: int|
            0 <= j < least_loaded_of(shards, n) ==> shards[least_loaded_of(shards, n)].size < (
            #[trigger] shards[j]).size,
    decreases n,
{
    if n > 1 {
        lemma_least_loaded(shards, n - 1);
    }
}

/// How far a split has come: the archives as they are filled, and for every
/// original that was placed the archive that holds it.
pub struct Spread {
    pub shards: Seq<ChunkedFileView>,
    pub seen: Map<Seq<u8>, int>,
}

impl Spread {
    /// Where `entry` goes: to the archive that holds its original, or, where
    /// none does, to the first that weighs least.
    pub open spec fn place_of(self, entry: FileEntryView) -> int {
        if self.seen.contains_key(entry.info.original_sha256) {
            self.seen[entry.info.original_sha256]
        } else {
            least_loaded(self.shards)
        }
    }

    /// The split with `entry` placed.
    pub open spec fn with(self, entry: FileEntryView) -> Spread {
        let k = self.place_of(entry);
        Spread {
            shards: self.shards.update(k, self.shards[k].with(entry)),
            seen: self.seen.insert(entry.info.original_sha256, k),
        }
    }
}

/// The split of the entries `order`, placed one after the other, over `count`
/// archives.
pub open spec fn spread(order: Seq<FileEntryView>, count: nat) -> Spread
    decreases order.len(),
{
    if order.len() == 0 {
        Spread {
            shards: Seq::new(count, |i: int| ChunkedFileView::empty()),
            seen: Map::empty(),
        }
    } else {
        spread(order.drop_last(), count).with(order.last())
    }
}

/// In a split over at least one archive, there are as many archives as were
/// asked for; an original that was placed is held by the archive that is
/// noted for it, and an archive holds only originals that are noted for it.
pub proof fn lemma_spread_shape(order: Seq<FileEntryView>, count: nat)
    requires
        count > 0,
    ensures
        spread(order, count).shards.len() == count,
        forall|key: Seq<u8>| #[trigger]
            spread(order, count).seen.contains_key(key) ==> 0 <= spread(order, count).seen[key]
                < count && spread(order, count).shards[spread(
                order,
                count,
            ).seen[key]].hashes.contains(key),
        forall|k: int, key: Seq<u8>|
            0 <= k < count && (#[trigger] spread(order, count).shards[k]).hashes.contains(key)
                ==> #[trigger] spread(order, count).seen.contains_key(key) && spread(
                order,
                count,
            ).seen[key] == k,
    decreases order.len(),
{
    if order.len() > 0 {
        let before = spread(order.drop_last(), count);
        lemma_spread_shape(order.drop_last(), count);
        lemma_least_loaded(before.shards, count as int);
        let entry = order.last();
        let k = before.place_of(entry);
        let after = spread(order, count);
        assert(after == before.with(entry));
        assert forall|key: Seq<u8>| #[trigger] after.seen.contains_key(key) implies 0
            <= after.seen[key] < count && after.shards[after.seen[key]].hashes.contains(key) by {
            if key != entry.info.original_sha256 {
                assert(before.seen.contains_key(key));
            }
        }
        assert forall|j: int, key: Seq<u8>|
            0 <= j < count && (#[trigger] after.shards[j]).hashes.contains(
                key,
            ) implies #[trigger] after.seen.contains_key(key) && after.seen[key] == j by {
            if key != entry.info.original_sha256 {
                assert(before.shards[j].hashes.contains(key));
            } else if j != k {
                assert(before.shards[j].hashes.contains(key));
            }
        }
    }
}

/// Why entries could not be split.
#[derive(Clone, Copy, Debug, PartialEq, Eq, Structural)]
pub enum SplitError {
    /// There are entries, and no archive to put them in.
    NoShards,
    /// An entry, or an archive, weighs more than a `u64` holds.
    TooLarge,
    /// The body of an entry is not as long as its chunks together.
    BodySizeMismatch,
}

/// The places of `seen` as mathematical integers.
spec fn places(seen: Map<Seq<u8>, usize>) -> Map<Seq<u8>, int> {
    seen.map_values(|k: usize| k as int)
}

/// No archive of `shards` weighs more than a `u64` holds.
pub open spec fn fits(shards: Seq<ChunkedFileView>) -> bool {
    forall|k: int| 0 <= k < shards.len() ==> (#[trigger] shards[k]).size <= u64::MAX
}

/// Places the entries of `order`, one after the other, in `count` archives:
/// an entry whose original was placed goes where that went, another goes to
/// the first archive that weighs least.
///
/// Fails with `NoShards` exactly where there are entries and no archive, and
/// with `TooLarge` exactly where an archive would weigh more than a `u64`
/// holds.
pub fn distribute(order: Vec<FileEntry>, count: usize) -> (r: Result<Vec<ChunkedFile>, SplitError>)
    ensures
        match r {
            Ok(shards) => {
                &&& shard_views(shards@) == spread(entry_views(order@), count as nat).shards
                &&& forall|k: int| 0 <= k < shards@.len() ==> (#[trigger] shards@[k]).wf()
                &&& count > 0 || order@.len() == 0
                &&& fits(spread(entry_views(order@), count as nat).shards)
            },
            Err(e) => if count == 0 {
                e == SplitError::NoShards && order@.len() > 0
            } else {
                e == SplitError::TooLarge && !fits(spread(entry_views(order@), count as nat).shards)
            },
        },
{
    let ghost views = entry_views(order@);
    let entries: usize = order.len();
    let mut shards: Vec<ChunkedFile> = Vec::new();
    let mut made: usize = 0;
    while made < count
        invariant
            made <= count,
            shards@.len() == made,
            forall|k: int| 0 <= k < made ==> (#[trigger] shards@[k]).wf(),
            forall|k: int| 0 <= k < made ==> (#[trigger] shards@[k])@ == ChunkedFileView::empty(),
        decreases count - made,
    {
        shards.push(ChunkedFile::new());
        made = made + 1;
    }
    if count == 0 {
        if entries > 0 {
            return Err(SplitError::NoShards);
        }
        proof {
            assert(shard_views(shards@) =~= spread(views, 0).shards);
        }
        return Ok(shards);
    }
    proof {
        assert(views.take(0) == Seq::<FileEntryView>::empty());
        assert(shard_views(shards@) =~= spread(views.take(0), count as nat).shards);
    }
    // Taken from the end, so the entries are turned round first.
    let mut rest = reversed(order);
    let mut seen: DigestMap<usize> = DigestMap::new();
    let mut i: usize = 0;
    let ghost total = views.len();
    proof {
        assert(places(seen@) =~= Map::<Seq<u8>, int>::empty());
    }
    while rest.len() > 0
        invariant
            count > 0,
            views == entry_views(order@),
            total == views.len(),
            total <= usize::MAX,
            i + rest@.len() == total,
            forall|k: int| 0 <= k < rest@.len() ==> (#[trigger] rest@[k])@ == views[total - 1 - k],
            seen.wf(),
            shards@.len() == count,
            forall|k: int| 0 <= k < count ==> (#[trigger] shards@[k]).wf(),
            shard_views(shards@) == spread(views.take(i as int), count as nat).shards,
            places(seen@) == spread(views.take(i as int), count as nat).seen,
            fits(spread(views.take(i as int), count as nat).shards),
        decreases rest.len(),
    {
        let ghost before = spread(views.take(i as int), count as nat);
        let entry = rest.pop().unwrap();
        proof {
            assert(entry@ == views[i as int]);
            assert(views.take(i + 1).drop_last() == views.take(i as int));
            assert(views.take(i + 1).last() == entry@);
            lemma_spread_shape(views.take(i as int), count as nat);
            lemma_least_loaded(before.shards, count as int);
        }
        let k: usize = match seen.get(entry.info.original_sha256.as_slice()) {
            Some(k) => *k,
            None => lightest(&shards),
        };
        proof {
            let key = entry@.info.original_sha256;
            assert(places(seen@).contains_key(key) == seen@.contains_key(key));
            if seen@.contains_key(key) {
                assert(places(seen@)[key] == seen@[key]);
            }
            assert(k == before.place_of(entry@));
            assert(shards@[k as int]@ == before.shards[k as int]);
        }
        if !shards[k].holds(entry.info.original_sha256.as_slice()) {
            let fitting = match weigh(&entry) {
                Some(weight) => weight <= u64::MAX - shards[k].size(),
                None => false,
            };
            if !fitting {
                proof {
                    let after = spread(views.take(i + 1), count as nat);
                    assert(after.shards[k as int].size > u64::MAX);
                    lemma_spread_grows(views, count as nat, i + 1, k as int);
                    lemma_spread_shape(views, count as nat);
                    assert(spread(views, count as nat).shards[k as int].size > u64::MAX);
                }
                return Err(SplitError::TooLarge);
            }
        }
        let ghost seen_before = seen@;
        seen.insert(entry.info.original_sha256.clone(), k);
        proof {
            assert(places(seen@) =~= places(seen_before).insert(
                entry@.info.original_sha256,
                k as int,
            ));
        }
        let ghost shards_before = shard_views(shards@);
        shards[k].add(entry);
        proof {
            let after = spread(views.take(i + 1), count as nat);
            assert(shard_views(shards@) =~= shards_before.update(
                k as int,
                shards_before[k as int].with(entry@),
            ));
            assert forall|j: int| 0 <= j < after.shards.len() implies (
            #[trigger] after.shards[j]).size <= u64::MAX by {
                if j != k {
                    assert(before.shards[j].size <= u64::MAX);
                }
            }
        }
        i = i + 1;
    }
    proof {
        assert(views.take(i as int) == views);
    }
    Ok(shards)
}

/// The first archive of `shards` that weighs least.
fn lightest(shards: &Vec<ChunkedFile>) -> (k: usize)
    requires
        shards@.len() > 0,
    ensures
        k == least_loaded(shard_views(shards@)),
        k < shards@.len(),
{
    let ghost views = shard_views(shards@);
    let mut best: usize = 0;
    let mut n: usize = 1;
    while n < shards.len()
        invariant
            1 <= n <= shards@.len(),
            views == shard_views(shards@),
            best == least_loaded_of(views, n as int),
            best < n,
        decreases shards.len() - n,
    {
        if shards[n].size() < shards[best].size() {
            best = n;
        }
        n = n + 1;
    }
    best
}

/// An archive never weighs less for more entries being placed.
pub proof fn lemma_spread_grows(order: Seq<FileEntryView>, count: nat, n: int, k: int)
    requires
        count > 0,
        0 <= n <= order.len(),
        0 <= k < count,
    ensures
        spread(order.take(n), count).shards[k].size <= spread(order, count).shards[k].size,
    decreases order.len() - n,
{
    if n == order.len() {
        assert(order.take(n) == order);
    } else {
        lemma_spread_grows(order, count, n + 1, k);
        assert(order.take(n + 1).drop_last() == order.take(n));
        let before = spread(order.take(n), count);
        lemma_spread_shape(order.take(n), count);
        lemma_least_loaded(before.shards, count as int);
    }
}

/// What the archives of `shards` weigh together.
pub open spec fn total_size(shards: Seq<ChunkedFileView>) -> nat
    decreases shards.len(),
{
    if shards.len() == 0 {
        0
    } else {
        total_size(shards.drop_last()) + shards.last().size
    }
}

/// What the heaviest entry of `order` weighs; 0 where there is none.
pub open spec fn largest_weight(order: Seq<FileEntryView>) -> nat
    decreases order.len(),
{
    if order.len() == 0 {
        0
    } else if largest_weight(order.drop_last()) >= entry_weight(order.last()) {
        largest_weight(order.drop_last())
    } else {
        entry_weight(order.last())
    }
}

/// All the entries of `shards`, each as often as the archives hold it.
pub open spec fn all_entries(shards: Seq<ChunkedFileView>) -> Multiset<FileEntryView>
    decreases shards.len(),
{
    if shards.len() == 0 {
        Multiset::empty()
    } else {
        all_entries(shards.drop_last()).add(shards.last().entries.to_multiset())
    }
}

/// Replacing one archive changes the total by what that archive gained.
proof fn lemma_total_after_update(shards: Seq<ChunkedFileView>, k: int, shard: ChunkedFileView)
    requires
        0 <= k < shards.len(),
    ensures
        total_size(shards.update(k, shard)) + shards[k].size == total_size(shards) + shard.size,
    decreases shards.len(),
{
    let after = shards.update(k, shard);
    if k == shards.len() - 1 {
        assert(after.drop_last() == shards.drop_last());
    } else {
        assert(after.drop_last() == shards.drop_last().update(k, shard));
        lemma_total_after_update(shards.drop_last(), k, shard);
    }
}

/// Every archive weighs at least `least`, so together they weigh at least
/// that for each of them.
proof fn lemma_total_at_least(shards: Seq<ChunkedFileView>, least: nat)
    requires
        forall|j: int| 0 <= j < shards.len() ==> least <= (#[trigger] shards[j]).size,
    ensures
        shards.len() * least <= total_size(shards),
    decreases shards.len(),
{
    if shards.len() > 0 {
        let front = shards.drop_last();
        assert forall|j: int| 0 <= j < front.len() implies least <= (#[trigger] front[j]).size by {
            assert(front[j] == shards[j]);
        }
        lemma_total_at_least(front, least);
        assert(shards.len() * least == front.len() * least + least) by (nonlinear_arith)
            requires
                shards.len() == front.len() + 1,
        ;
    }
}

/// Adding an entry to one archive adds it to all the entries.
proof fn lemma_entries_after_add(shards: Seq<ChunkedFileView>, k: int, entry: FileEntryView)
    requires
        0 <= k < shards.len(),
    ensures
        all_entries(shards.update(k, shards[k].with(entry))) == all_entries(shards).insert(entry),
    decreases shards.len(),
{
    broadcast use vstd::multiset::group_multiset_axioms;

    let after = shards.update(k, shards[k].with(entry));
    if k == shards.len() - 1 {
        assert(after.drop_last() == shards.drop_last());
        vstd::seq_lib::to_multiset_build(shards[k].entries, entry);
        assert(all_entries(after) =~= all_entries(shards).insert(entry));
    } else {
        assert(after.drop_last() == shards.drop_last().update(
            k,
            shards.drop_last()[k].with(entry),
        ));
        lemma_entries_after_add(shards.drop_last(), k, entry);
        assert(all_entries(after) =~= all_entries(shards).insert(entry));
    }
}

/// Archives that hold nothing hold no entries and weigh nothing.
proof fn lemma_empty_shards(count: nat)
    ensures
        all_entries(Seq::new(count, |i: int| ChunkedFileView::empty())) == Multiset::<
            FileEntryView,
        >::empty(),
        total_size(Seq::new(count, |i: int| ChunkedFileView::empty())) == 0,
    decreases count,
{
    broadcast use vstd::multiset::group_multiset_axioms;

    let shards = Seq::new(count, |i: int| ChunkedFileView::empty());
    if count > 0 {
        lemma_empty_shards((count - 1) as nat);
        assert(shards.drop_last() == Seq::new((count - 1) as nat, |i: int| ChunkedFileView::empty()));
        vstd::seq_lib::to_multiset_len(shards.last().entries);
        vstd::multiset::lemma_multiset_empty_len(shards.last().entries.to_multiset());
        assert(all_entries(shards) =~= Multiset::<FileEntryView>::empty());
    }
}

/// A split loses no entry and makes none: the archives hold, all together,
/// each entry of `order` as often as `order` does. So the paths of the
/// archives are the paths of `order`, and every entry of `order` is found in
/// an archive with its checksums and its chunks as they were.
pub proof fn lemma_split_keeps_entries(order: Seq<FileEntryView>, count: nat)
    requires
        count > 0,
    ensures
        all_entries(spread(order, count).shards) == order.to_multiset(),
    decreases order.len(),
{
    broadcast use vstd::multiset::group_multiset_axioms;

    if order.len() == 0 {
        lemma_empty_shards(count);
        vstd::seq_lib::to_multiset_len(order);
        vstd::multiset::lemma_multiset_empty_len(order.to_multiset());
    } else {
        let before = spread(order.drop_last(), count);
        lemma_split_keeps_entries(order.drop_last(), count);
        lemma_spread_shape(order.drop_last(), count);
        lemma_least_loaded(before.shards, count as int);
        lemma_entries_after_add(before.shards, before.place_of(order.last()), order.last());
        assert(order == order.drop_last().push(order.last()));
        vstd::seq_lib::to_multiset_build(order.drop_last(), order.last());
    }
}

/// Every archive of a split, less the heaviest entry, weighs no more than
/// its share of the total.
proof fn lemma_share(order: Seq<FileEntryView>, count: nat, k: int)
    requires
        count > 0,
        0 <= k < count,
    ensures
        count * (spread(order, count).shards[k].size - largest_weight(order)) <= total_size(
            spread(order, count).shards,
        ),
    decreases order.len(),
{
    let after = spread(order, count);
    if order.len() == 0 {
        lemma_empty_shards(count);
        assert(count * (0 - 0) == 0) by (nonlinear_arith);
    } else {
        let before = spread(order.drop_last(), count);
        let entry = order.last();
        let place = before.place_of(entry);
        let heaviest_before = largest_weight(order.drop_last());
        let heaviest = largest_weight(order);
        lemma_spread_shape(order.drop_last(), count);
        lemma_least_loaded(before.shards, count as int);
        lemma_share(order.drop_last(), count, k);
        lemma_total_after_update(before.shards, place, before.shards[place].with(entry));
        let size_before = before.shards[k].size as int;
        let size_after = after.shards[k].size as int;
        let total_before = total_size(before.shards) as int;
        let total_after = total_size(after.shards) as int;
        assert(total_before <= total_after);
        assert(heaviest_before <= heaviest);
        if k != place || before.shards[place].hashes.contains(entry.info.original_sha256) {
            assert(size_after == size_before);
            assert(count * (size_after - heaviest) <= count * (size_before - heaviest_before))
                by (nonlinear_arith)
                requires
                    size_after == size_before,
                    heaviest_before <= heaviest,
                    count > 0,
            ;
        } else {
            // The entry went to the archive that weighed least.
            assert(!before.seen.contains_key(entry.info.original_sha256));
            let least = before.shards[place].size;
            lemma_total_at_least(before.shards, least);
            assert(size_after == least + entry_weight(entry));
            assert(entry_weight(entry) <= heaviest);
            assert(count * (size_after - heaviest) <= count * least) by (nonlinear_arith)
                requires
                    size_after - heaviest <= least,
                    count > 0,
            ;
        }
    }
}

/// A split is balanced: no archive weighs more than its share of the total,
/// rounded down, and the heaviest entry together.
pub proof fn lemma_split_is_balanced(order: Seq<FileEntryView>, count: nat, k: int)
    requires
        count > 0,
        0 <= k < count,
    ensures
        spread(order, count).shards[k].size <= total_size(spread(order, count).shards) / count
            + largest_weight(order),
{
    lemma_share(order, count, k);
    let size = spread(order, count).shards[k].size as int;
    let heaviest = largest_weight(order) as int;
    let total = total_size(spread(order, count).shards) as int;
    assert(size - heaviest <= total / (count as int)) by (nonlinear_arith)
        requires
            count * (size - heaviest) <= total,
            count > 0,
    ;
}

/// Entries with the same original lie in the same archive of a split.
pub proof fn lemma_split_keeps_originals_together(
    order: Seq<FileEntryView>,
    count: nat,
    a: int,
    b: int,
    i: int,
    j: int,
)
    requires
        count > 0,
        0 <= a < count,
        0 <= b < count,
        0 <= i < spread(order, count).shards[a].entries.len(),
        0 <= j < spread(order, count).shards[b].entries.len(),
        spread(order, count).shards[a].entries[i].info.original_sha256 == spread(
            order,
            count,
        ).shards[b].entries[j].info.original_sha256,
    ensures
        a == b,
{
    lemma_spread_shape(order, count);
    lemma_shards_know_their_entries(order, count, a, i);
    lemma_shards_know_their_entries(order, count, b, j);
    let split = spread(order, count);
    let key = split.shards[a].entries[i].info.original_sha256;
    assert(split.shards[a].hashes.contains(key));
    assert(split.shards[b].hashes.contains(key));
    assert(split.seen.contains_key(key) && split.seen[key] == a);
    assert(split.seen.contains_key(key) && split.seen[key] == b);
}

/// An archive of a split holds the original of each of its entries.
proof fn lemma_shards_know_their_entries(order: Seq<FileEntryView>, count: nat, k: int, i: int)
    requires
        count > 0,
        0 <= k < count,
        0 <= i < spread(order, count).shards[k].entries.len(),
    ensures
        spread(order, count).shards[k].hashes.contains(
            spread(order, count).shards[k].entries[i].info.original_sha256,
        ),
    decreases order.len(),
{
    if order.len() > 0 {
        let before = spread(order.drop_last(), count);
        lemma_spread_shape(order.drop_last(), count);
        lemma_least_loaded(before.shards, count as int);
        let place = before.place_of(order.last());
        if k != place || i < before.shards[k].entries.len() {
            lemma_shards_know_their_entries(order.drop_last(), count, k, i);
        }
    }
}

/// An entry with its weight.
struct Weighted {
    weight: u64,
    entry: FileEntry,
}

/// The order of a split, backwards: ascending by weight.
struct ByWeight;

impl Ranking<Weighted> for ByWeight {
    closed spec fn le(a: Weighted, b: Weighted) -> bool {
        a.weight <= b.weight
    }

    fn is_le(a: &Weighted, b: &Weighted) -> (r: bool) {
        a.weight <= b.weight
    }

    proof fn lemma_total(a: Weighted, b: Weighted) {
    }

    proof fn lemma_transitive(a: Weighted, b: Weighted, c: Weighted) {
    }
}

/// No entry of `order` weighs more than one before it.
pub open spec fn heaviest_first(order: Seq<FileEntryView>) -> bool {
    forall|i: int, j: int|
        0 <= i <= j < order.len() ==> entry_weight(#[trigger] order[i]) >= entry_weight(
            #[trigger] order[j],
        )
}

/// The order of a split, backwards, as a relation on entries: the lighter
/// may stand before the heavier.
pub open spec fn weight_order() -> spec_fn(FileEntryView, FileEntryView) -> bool {
    |a: FileEntryView, b: FileEntryView| entry_weight(a) <= entry_weight(b)
}

/// The entries in the order in which a split places them: the heaviest
/// first, and of entries of the same weight the one that came last.
pub open spec fn heaviest_first_order(entries: Seq<FileEntryView>) -> Seq<FileEntryView> {
    arranged(entries, weight_order()).reverse()
}

/// An entry of `entries` weighs more than a `u64` holds.
pub open spec fn has_overweight(entries: Seq<FileEntryView>) -> bool {
    exists|i: int| 0 <= i < entries.len() && entry_weight(#[trigger] entries[i]) > u64::MAX
}

/// The weight that is noted with every entry is its weight.
spec fn weighed(entries: Seq<Weighted>) -> bool {
    forall|i: int|
        0 <= i < entries.len() ==> (#[trigger] entries[i]).weight == entry_weight(
            entries[i].entry@,
        )
}

/// The entries of `entries`, without their weights.
spec fn unweighted(entries: Seq<Weighted>) -> Seq<FileEntry> {
    entries.map_values(|w: Weighted| w.entry)
}

/// The entries in the order in which a split places them: the heaviest
/// first, and of entries of the same weight the one that came last.
///
/// What comes back holds each entry of `entries` as often as `entries` does.
/// Fails with `TooLarge` exactly where an entry weighs more than a `u64`
/// holds.
pub fn largest_first(entries: Vec<FileEntry>) -> (r: Result<Vec<FileEntry>, SplitError>)
    ensures
        match r {
            Ok(order) => {
                &&& entry_views(order@) == heaviest_first_order(entry_views(entries@))
                &&& order@.to_multiset() == entries@.to_multiset()
                &&& heaviest_first(entry_views(order@))
                &&& !has_overweight(entry_views(entries@))
            },
            Err(e) => e == SplitError::TooLarge && has_overweight(entry_views(entries@)),
        },
{
    let ghost all = entries@;
    let mut rest = reversed(entries);
    let mut weighted: Vec<Weighted> = Vec::new();
    proof {
        assert(unweighted(weighted@) =~= all.take(0));
    }
    while rest.len() > 0
        invariant
            all == entries@,
            rest@.len() + weighted@.len() == all.len(),
            forall|k: int| 0 <= k < rest@.len() ==> (#[trigger] rest@[k]) == all[all.len() - 1 - k],
            unweighted(weighted@) == all.take(weighted@.len() as int),
            weighed(weighted@),
        decreases rest.len(),
    {
        let ghost done = weighted@;
        let entry = rest.pop().unwrap();
        assert(entry == all[done.len() as int]);
        let weight = match weigh(&entry) {
            Some(weight) => weight,
            None => {
                proof {
                    assert(entry_views(all)[done.len() as int] == entry@);
                }
                return Err(SplitError::TooLarge);
            },
        };
        weighted.push(Weighted { weight, entry });
        proof {
            assert(unweighted(weighted@) =~= all.take(done.len() as int + 1));
        }
    }
    proof {
        assert(all.take(all.len() as int) == all);
        assert forall|i: int| 0 <= i < all.len() implies entry_weight(
            #[trigger] entry_views(all)[i],
        ) <= u64::MAX by {
            assert(weighted@[i].weight == entry_weight(weighted@[i].entry@));
            assert(unweighted(weighted@)[i] == all[i]);
        }
    }
    let ghost unsorted = weighted@;
    let mut sorted = sort::<Weighted, ByWeight>(weighted);
    let ghost ascending = sorted@;
    proof {
        crate::order::lemma_same_values(ascending, unsorted);
        crate::order::lemma_mapped_values(ascending, unsorted, |w: Weighted| w.entry);
        assert forall|i: int| 0 <= i < ascending.len() implies (#[trigger] ascending[i]).weight
            == entry_weight(ascending[i].entry@) by {
            assert(ascending.contains(ascending[i]));
            assert(unsorted.contains(ascending[i]));
        }
    }
    let mut order: Vec<FileEntry> = Vec::new();
    while sorted.len() > 0
        invariant
            sorted@.len() + order@.len() == ascending.len(),
            sorted@ == ascending.take(sorted@.len() as int),
            forall|k: int|
                0 <= k < order@.len() ==> (#[trigger] order@[k]) == ascending[ascending.len() - 1
                    - k].entry,
        decreases sorted.len(),
    {
        let heaviest = sorted.pop().unwrap();
        order.push(heaviest.entry);
    }
    proof {
        assert(order@ =~= unweighted(ascending).reverse());
        unweighted(ascending).lemma_reverse_to_multiset();
        let view_of = |w: Weighted| w.entry@;
        crate::order::lemma_rank_is_ranking::<Weighted, ByWeight>();
        assert forall|i: int, j: int|
            0 <= i < unsorted.len() && 0 <= j < unsorted.len() implies rank::<Weighted, ByWeight>()(
            #[trigger] unsorted[i],
            #[trigger] unsorted[j],
        ) == weight_order()(view_of(unsorted[i]), view_of(unsorted[j])) by {
            assert(unsorted[i].weight == entry_weight(unsorted[i].entry@));
            assert(unsorted[j].weight == entry_weight(unsorted[j].entry@));
        }
        crate::order::lemma_arranged_mapped(
            unsorted,
            view_of,
            rank::<Weighted, ByWeight>(),
            weight_order(),
        );
        assert(unsorted.map_values(view_of) =~= entry_views(all)) by {
            assert forall|i: int| 0 <= i < unsorted.len() implies unsorted.map_values(
                view_of,
            )[i] == entry_views(all)[i] by {
                assert(unweighted(unsorted)[i] == all[i]);
            }
        }
        assert(entry_views(order@) =~= ascending.map_values(view_of).reverse());
        assert forall|i: int, j: int| 0 <= i <= j < order@.len() implies entry_weight(
            #[trigger] entry_views(order@)[i],
        ) >= entry_weight(#[trigger] entry_views(order@)[j]) by {
            let a = ascending.len() - 1 - i;
            let b = ascending.len() - 1 - j;
            assert(ByWeight::le(ascending[b], ascending[a]));
        }
    }
    Ok(order)
}

/// What comes of placing the entries `order` in `count` archives: the
/// archives; `NoShards` where there are entries and no archive; `TooLarge`
/// where an archive would weigh more than a `u64` holds.
pub open spec fn placed_in(order: Seq<FileEntryView>, count: nat) -> Result<
    Seq<ChunkedFileView>,
    SplitError,
> {
    if count == 0 && order.len() > 0 {
        Err(SplitError::NoShards)
    } else if count > 0 && !fits(spread(order, count).shards) {
        Err(SplitError::TooLarge)
    } else {
        Ok(spread(order, count).shards)
    }
}

/// Splits `entries` over `count` archives: the heaviest entry is placed
/// first; an entry whose original was placed goes where that went, another
/// goes to the first archive that weighs least.
///
/// Fails with `TooLarge` where an entry weighs more than a `u64` holds.
/// Otherwise what comes back is what placing the entries comes to, the
/// heaviest first. Where that is a split, it holds every entry as often as
/// `entries` does, and no archive weighs more than its share of the total
/// and the heaviest entry together.
pub fn split_entries(entries: Vec<FileEntry>, count: usize) -> (r: Result<
    Vec<ChunkedFile>,
    SplitError,
>)
    ensures
        has_overweight(entry_views(entries@)) ==> r matches Err(SplitError::TooLarge),
        !has_overweight(entry_views(entries@)) ==> match placed_in(
            heaviest_first_order(entry_views(entries@)),
            count as nat,
        ) {
            Ok(shards) => r matches Ok(made) && shard_views(made@) == shards,
            Err(e) => r matches Err(x) && x == e,
        },
        r matches Ok(made) ==> {
            &&& made@.len() == count
            &&& forall|k: int| 0 <= k < made@.len() ==> (#[trigger] made@[k]).wf()
            &&& count > 0 ==> all_entries(shard_views(made@)) == entry_views(
                entries@,
            ).to_multiset()
            &&& forall|k: int|
                0 <= k < count ==> (#[trigger] shard_views(made@)[k]).size <= total_size(
                    shard_views(made@),
                ) / (count as nat) + largest_weight(entry_views(entries@))
        },
{
    let ghost given = entry_views(entries@);
    let ghost given_entries = entries@;
    let order = match largest_first(entries) {
        Ok(order) => order,
        Err(e) => {
            return Err(e);
        },
    };
    let ghost placed = entry_views(order@);
    proof {
        let view_of = |e: FileEntry| e@;
        assert(entry_views(order@) =~= order@.map_values(view_of));
        assert(given =~= given_entries.map_values(view_of));
        crate::order::lemma_mapped_values(order@, given_entries, view_of);
    }
    let r = distribute(order, count);
    proof {
        if count > 0 {
            lemma_spread_shape(placed, count as nat);
        }
        if r is Ok {
            let made = r.unwrap();
            if count > 0 {
                lemma_split_keeps_entries(placed, count as nat);
                lemma_largest_weight_of_same(placed, given);
                assert forall|k: int| 0 <= k < count implies (#[trigger] shard_views(
                    made@,
                )[k]).size <= total_size(shard_views(made@)) / (count as nat) + largest_weight(
                    given,
                ) by {
                    lemma_split_is_balanced(placed, count as nat, k);
                }
            } else {
                assert(shard_views(made@).len() == 0);
            }
        }
    }
    r
}

/// The heaviest entry weighs at least as much as every entry.
proof fn lemma_largest_weight_bounds(order: Seq<FileEntryView>, i: int)
    requires
        0 <= i < order.len(),
    ensures
        entry_weight(order[i]) <= largest_weight(order),
    decreases order.len(),
{
    if i < order.len() - 1 {
        lemma_largest_weight_bounds(order.drop_last(), i);
    }
}

/// The heaviest entry is one of the entries, where there are any.
proof fn lemma_largest_weight_is_one(order: Seq<FileEntryView>)
    requires
        order.len() > 0,
    ensures
        exists|i: int| 0 <= i < order.len() && entry_weight(#[trigger] order[i]) == largest_weight(
            order,
        ),
    decreases order.len(),
{
    if order.len() == 1 {
        assert(entry_weight(order[0]) == largest_weight(order));
    } else if largest_weight(order.drop_last()) >= entry_weight(order.last()) {
        lemma_largest_weight_is_one(order.drop_last());
        let i = choose|i: int|
            0 <= i < order.drop_last().len() && entry_weight(#[trigger] order.drop_last()[i])
                == largest_weight(order.drop_last());
        assert(entry_weight(order[i]) == largest_weight(order));
    } else {
        assert(entry_weight(order[order.len() - 1]) == largest_weight(order));
    }
}

/// Two sequences that hold the same entries have the same heaviest entry.
proof fn lemma_largest_weight_of_same(a: Seq<FileEntryView>, b: Seq<FileEntryView>)
    requires
        a.to_multiset() == b.to_multiset(),
    ensures
        largest_weight(a) == largest_weight(b),
{
    crate::order::lemma_same_values(a, b);
    if a.len() > 0 {
        lemma_largest_weight_is_one(a);
        lemma_largest_weight_is_one(b);
        let i = choose|i: int| 0 <= i < a.len() && entry_weight(#[trigger] a[i]) == largest_weight(a);
        let j = choose|j: int| 0 <= j < b.len() && entry_weight(#[trigger] b[j]) == largest_weight(b);
        assert(a.contains(a[i]));
        assert(b.contains(a[i]));
        let i2 = choose|k: int| 0 <= k < b.len() && b[k] == a[i];
        lemma_largest_weight_bounds(b, i2);
        assert(b.contains(b[j]));
        assert(a.contains(b[j]));
        let j2 = choose|k: int| 0 <= k < a.len() && a[k] == b[j];
        lemma_largest_weight_bounds(a, j2);
    }
}

} // verus!
