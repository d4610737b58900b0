//! Lays out the data file of a new archive: the body of every original is
//! copied once from the data file that is split, and every entry points at
//! the copy of its original.

use vstd::prelude::*;
use crate::body::{all_sound, body_of, entry_sound};
use crate::digest_map::DigestMap;
use crate::model::{entry_views, FileEntry, FileEntryView};
use crate::order::reversed;
use crate::splitter::{
    lemma_least_loaded, lemma_spread_shape, shard_views, spread, ChunkedFile, ChunkedFileView,
    SplitError,
};

verus! {

/// A run of bytes of the data file that is split, to be put at the end of
/// the data file of a new archive.
#[derive(Clone, Copy, Debug, PartialEq, Eq, Structural)]
pub struct CopyRange {
    pub source_offset: u64,
    pub length: u64,
}

/// How far the layout of one new archive has come: its entries, the runs to
/// copy, where the body of every original lies, and where the data file
/// ends.
pub struct Layout {
    pub entries: Seq<FileEntryView>,
    pub copies: Seq<CopyRange>,
    pub placed: Map<Seq<u8>, u64>,
    pub end: nat,
}

impl Layout {
    /// The layout of an archive that holds nothing.
    pub open spec fn empty() -> Layout {
        Layout { entries: Seq::empty(), copies: Seq::empty(), placed: Map::empty(), end: 0 }
    }

    /// Why `entry` cannot be laid out next, if it cannot: its body is to be
    /// copied, and is not as long as its chunks together, or would make the
    /// data file longer than an index can record.
    pub open spec fn refusal(self, entry: FileEntryView) -> Option<SplitError> {
        if self.placed.contains_key(entry.info.original_sha256) {
            None
        } else if entry.body_size != crate::model::compressed_total(entry.info.chunks) {
            Some(SplitError::BodySizeMismatch)
        } else if self.end + entry.body_size > u64::MAX {
            Some(SplitError::TooLarge)
        } else {
            None
        }
    }

    /// The layout with `entry` laid out next: it points at the body of its
    /// original where the archive has that, and at a copy of its own body, put
    /// at the end of the data file, otherwise.
    pub open spec fn with(self, entry: FileEntryView) -> Layout {
        let key = entry.info.original_sha256;
        if self.placed.contains_key(key) {
            Layout {
                entries: self.entries.push(
                    FileEntryView {
                        info: entry.info,
                        file_index: 0,
                        body_offset: self.placed[key],
                        body_size: entry.body_size,
                    },
                ),
                ..self
            }
        } else {
            Layout {
                entries: self.entries.push(
                    FileEntryView {
                        info: entry.info,
                        file_index: 0,
                        body_offset: self.end as u64,
                        body_size: entry.body_size,
                    },
                ),
                copies: self.copies.push(
                    CopyRange { source_offset: entry.body_offset, length: entry.body_size },
                ),
                placed: self.placed.insert(key, self.end as u64),
                end: self.end + entry.body_size as nat,
            }
        }
    }
}

/// The layout of the new archive that holds `entries`, laid out one after
/// the other; the reason why the first entry that cannot be laid out cannot,
/// where there is one.
pub open spec fn laid_out(entries: Seq<FileEntryView>) -> Result<Layout, SplitError>
    decreases entries.len(),
{
    if entries.len() == 0 {
        Ok(Layout::empty())
    } else {
        match laid_out(entries.drop_last()) {
            Err(e) => Err(e),
            Ok(layout) => match layout.refusal(entries.last()) {
                Some(e) => Err(e),
                None => Ok(layout.with(entries.last())),
            },
        }
    }
}

/// Where the first entries cannot be laid out, none can, and for the same
/// reason.
proof fn lemma_layout_fails_early(entries: Seq<FileEntryView>, n: int)
    requires
        0 <= n <= entries.len(),
        laid_out(entries.take(n)) is Err,
    ensures
        laid_out(entries) == laid_out(entries.take(n)),
    decreases entries.len() - n,
{
    if n == entries.len() {
        assert(entries.take(n) == entries);
    } else {
        assert(entries.take(n + 1).drop_last() == entries.take(n));
        lemma_layout_fails_early(entries, n + 1);
    }
}

/// The layout of one new archive: its entries, and the runs of the old data
/// file that make its data file, in their order.
#[derive(Clone, Debug, PartialEq, Eq)]
pub struct ShardLayout {
    pub entries: Vec<FileEntry>,
    pub copies: Vec<CopyRange>,
}

/// Lays out the new archive that holds `entries`, in their order: the body
/// of every original is copied once, and every entry points at the copy of
/// its original.
///
/// Fails as `laid_out` says: with `BodySizeMismatch` at an entry whose body
/// is to be copied and is not as long as its chunks together, with `TooLarge`
/// where the data file would grow beyond what an index can record.
pub fn lay_out(entries: &Vec<FileEntry>) -> (r: Result<ShardLayout, SplitError>)
    ensures
        match laid_out(entry_views(entries@)) {
            Ok(layout) => {
                &&& r matches Ok(shard)
                &&& entry_views(shard.entries@) == layout.entries
                &&& shard.copies@ == layout.copies
            },
            Err(e) => r matches Err(x) && x == e,
        },
{
    let ghost views = entry_views(entries@);
    let mut out: Vec<FileEntry> = Vec::new();
    let mut copies: Vec<CopyRange> = Vec::new();
    let mut placed: DigestMap<u64> = DigestMap::new();
    let mut end: u64 = 0;
    let mut i: usize = 0;
    proof {
        assert(views.take(0) == Seq::<FileEntryView>::empty());
        assert(entry_views(out@) =~= Layout::empty().entries);
    }
    while i < entries.len()
        invariant
            i <= entries@.len(),
            views == entry_views(entries@),
            placed.wf(),
            laid_out(views.take(i as int)) == Ok::<Layout, SplitError>(
                Layout {
                    entries: entry_views(out@),
                    copies: copies@,
                    placed: placed@,
                    end: end as nat,
                },
            ),
        decreases entries.len() - i,
    {
        let entry = &entries[i];
        let ghost before = laid_out(views.take(i as int)).unwrap();
        proof {
            assert(views.take(i + 1).drop_last() == views.take(i as int));
            assert(views.take(i + 1).last() == entry@);
        }
        let body_offset: u64 = match placed.get(entry.info.original_sha256.as_slice()) {
            Some(offset) => *offset,
            None => {
                if !entry.has_stored_length() {
                    proof {
                        lemma_layout_fails_early(views, i + 1);
                    }
                    return Err(SplitError::BodySizeMismatch);
                }
                if entry.body_size > u64::MAX - end {
                    proof {
                        lemma_layout_fails_early(views, i + 1);
                    }
                    return Err(SplitError::TooLarge);
                }
                let offset = end;
                copies.push(CopyRange { source_offset: entry.body_offset, length: entry.body_size });
                placed.insert(entry.info.original_sha256.clone(), offset);
                end = end + entry.body_size;
                offset
            },
        };
        let ghost out_before = entry_views(out@);
        out.push(
            FileEntry {
                info: entry.info.duplicate(),
                file_index: 0,
                body_offset,
                body_size: entry.body_size,
            },
        );
        proof {
            assert(entry_views(out@) =~= before.with(entry@).entries);
        }
        i = i + 1;
    }
    proof {
        assert(views.take(i as int) == views);
    }
    Ok(ShardLayout { entries: out, copies })
}

/// The bytes that the runs `copies` of `source` make, one after the other.
pub open spec fn copied(source: Seq<u8>, copies: Seq<CopyRange>) -> Seq<u8>
    decreases copies.len(),
{
    if copies.len() == 0 {
        Seq::empty()
    } else {
        copied(source, copies.drop_last()) + source.subrange(
            copies.last().source_offset as int,
            copies.last().source_offset + copies.last().length,
        )
    }
}

/// The body of every entry lies within the data file `data`.
pub open spec fn within(entries: Seq<FileEntryView>, data: Seq<u8>) -> bool {
    forall|i: int|
        0 <= i < entries.len() ==> (#[trigger] entries[i]).body_offset + entries[i].body_size
            <= data.len()
}

/// Entries with the same original have the same stored bytes in `data`.
pub open spec fn same_originals_same_bodies(entries: Seq<FileEntryView>, data: Seq<u8>) -> bool {
    forall|i: int, j: int|
        0 <= i < entries.len() && 0 <= j < entries.len() && (
        #[trigger] entries[i]).info.original_sha256 == (#[trigger] entries[j]).info.original_sha256
            ==> entries[i].body_size == entries[j].body_size && body_of(entries[i], data)
            == body_of(entries[j], data)
}

/// `entry`, laid out as `out` in the data file `data`, is what it was in
/// `source`: the record is the same, the body is as long, lies within the
/// data file and holds the same bytes.
pub open spec fn kept(
    entry: FileEntryView,
    source: Seq<u8>,
    out: FileEntryView,
    data: Seq<u8>,
) -> bool {
    &&& out.info == entry.info
    &&& out.file_index == 0
    &&& out.body_size == entry.body_size
    &&& out.body_offset + out.body_size <= data.len()
    &&& body_of(out, data) == body_of(entry, source)
}

/// The layout `layout` of `entries` keeps every entry, and knows the body of
/// every original that it placed.
spec fn keeps(entries: Seq<FileEntryView>, source: Seq<u8>, layout: Layout) -> bool {
    let data = copied(source, layout.copies);
    &&& layout.entries.len() == entries.len()
    &&& data.len() == layout.end
    &&& forall|i: int|
        0 <= i < entries.len() ==> kept(#[trigger] entries[i], source, layout.entries[i], data)
    &&& forall|i: int|
        0 <= i < entries.len() ==> layout.placed.contains_key(
            (#[trigger] entries[i]).info.original_sha256,
        ) && layout.placed[entries[i].info.original_sha256] == layout.entries[i].body_offset
    &&& forall|key: Seq<u8>| #[trigger]
        layout.placed.contains_key(key) ==> exists|i: int|
            0 <= i < entries.len() && (#[trigger] entries[i]).info.original_sha256 == key
}

proof fn lemma_layout_keeps(entries: Seq<FileEntryView>, source: Seq<u8>)
    requires
        within(entries, source),
        same_originals_same_bodies(entries, source),
        laid_out(entries) is Ok,
    ensures
        keeps(entries, source, laid_out(entries).unwrap()),
    decreases entries.len(),
{
    if entries.len() > 0 {
        let front = entries.drop_last();
        let entry = entries.last();
        let key = entry.info.original_sha256;
        assert forall|i: int, j: int|
            0 <= i < front.len() && 0 <= j < front.len() && (
            #[trigger] front[i]).info.original_sha256 == (
            #[trigger] front[j]).info.original_sha256 implies front[i].body_size
            == front[j].body_size && body_of(front[i], source) == body_of(front[j], source) by {
            assert(front[i] == entries[i] && front[j] == entries[j]);
        }
        assert forall|i: int| 0 <= i < front.len() implies (#[trigger] front[i]).body_offset
            + front[i].body_size <= source.len() by {
            assert(front[i] == entries[i]);
        }
        lemma_layout_keeps(front, source);
        let before = laid_out(front).unwrap();
        let after = laid_out(entries).unwrap();
        assert(after == before.with(entry));
        let data_before = copied(source, before.copies);
        let data = copied(source, after.copies);
        let out = after.entries[entries.len() - 1];
        if before.placed.contains_key(key) {
            let i = choose|i: int|
                0 <= i < front.len() && (#[trigger] front[i]).info.original_sha256 == key;
            assert(front[i] == entries[i]);
            assert(kept(front[i], source, before.entries[i], data_before));
            assert(before.placed[front[i].info.original_sha256] == before.entries[i].body_offset);
            assert(body_of(out, data) == body_of(before.entries[i], data_before));
            assert(kept(entry, source, out, data));
        } else {
            assert(after.copies.drop_last() == before.copies);
            assert(data == data_before + body_of(entry, source));
            assert(body_of(out, data) == body_of(entry, source));
            assert(kept(entry, source, out, data));
        }
        assert forall|i: int| 0 <= i < entries.len() implies kept(
            #[trigger] entries[i],
            source,
            after.entries[i],
            data,
        ) by {
            if i < front.len() {
                assert(front[i] == entries[i]);
                assert(kept(front[i], source, before.entries[i], data_before));
                assert(body_of(after.entries[i], data) == body_of(before.entries[i], data_before));
            }
        }
        assert forall|i: int| 0 <= i < entries.len() implies after.placed.contains_key(
            (#[trigger] entries[i]).info.original_sha256,
        ) && after.placed[entries[i].info.original_sha256] == after.entries[i].body_offset by {
            if i < front.len() {
                assert(front[i] == entries[i]);
                assert(before.placed.contains_key(front[i].info.original_sha256));
            }
        }
        assert forall|k: Seq<u8>| #[trigger] after.placed.contains_key(k) implies exists|i: int|
            0 <= i < entries.len() && (#[trigger] entries[i]).info.original_sha256 == k by {
            if k == key {
                assert(entries[entries.len() - 1].info.original_sha256 == k);
            } else {
                assert(before.placed.contains_key(k));
                let i = choose|i: int|
                    0 <= i < front.len() && (#[trigger] front[i]).info.original_sha256 == k;
                assert(entries[i].info.original_sha256 == k);
            }
        }
    }
}

/// A layout keeps what it lays out: the new archive has an entry for every
/// entry, in the same order and with the same record, and the body that the
/// new entry points at in the new data file holds the bytes that the old
/// entry pointed at in the old one. This holds of an archive in which
/// entries with the same original have the same stored bytes.
pub proof fn lemma_layout_keeps_bodies(entries: Seq<FileEntryView>, source: Seq<u8>)
    requires
        within(entries, source),
        same_originals_same_bodies(entries, source),
        laid_out(entries) is Ok,
    ensures
        laid_out(entries).unwrap().entries.len() == entries.len(),
        forall|i: int|
            0 <= i < entries.len() ==> kept(
                #[trigger] entries[i],
                source,
                laid_out(entries).unwrap().entries[i],
                copied(source, laid_out(entries).unwrap().copies),
            ),
{
    lemma_layout_keeps(entries, source);
}

/// A layout of sound entries is sound: what the new entries say of the new
/// data file is true, so every body still unpacks to bytes with the
/// checksums of its original.
pub proof fn lemma_layout_sound(entries: Seq<FileEntryView>, source: Seq<u8>)
    requires
        all_sound(entries, source),
        same_originals_same_bodies(entries, source),
        laid_out(entries) is Ok,
    ensures
        all_sound(
            laid_out(entries).unwrap().entries,
            copied(source, laid_out(entries).unwrap().copies),
        ),
{
    assert forall|i: int| 0 <= i < entries.len() implies (#[trigger] entries[i]).body_offset
        + entries[i].body_size <= source.len() by {
        assert(entry_sound(entries[i], source));
    }
    lemma_layout_keeps(entries, source);
    let layout = laid_out(entries).unwrap();
    let data = copied(source, layout.copies);
    assert forall|i: int| 0 <= i < layout.entries.len() implies entry_sound(
        #[trigger] layout.entries[i],
        data,
    ) by {
        assert(kept(entries[i], source, layout.entries[i], data));
        assert(entry_sound(entries[i], source));
    }
}

/// The layouts of the new archives of a split, the last archive first, each
/// with its entries in the reverse of the order in which they were placed:
/// the lightest first. The reason why the first of them that cannot be laid
/// out cannot, where there is one.
pub open spec fn finished(shards: Seq<ChunkedFileView>) -> Result<Seq<Layout>, SplitError>
    decreases shards.len(),
{
    if shards.len() == 0 {
        Ok(Seq::empty())
    } else {
        match laid_out(shards.last().entries.reverse()) {
            Err(e) => Err(e),
            Ok(layout) => match finished(shards.drop_last()) {
                Err(e) => Err(e),
                Ok(rest) => Ok(seq![layout] + rest),
            },
        }
    }
}

/// The layouts `done`, followed by those of `rest`.
spec fn finished_after(done: Seq<Layout>, rest: Seq<ChunkedFileView>) -> Result<
    Seq<Layout>,
    SplitError,
> {
    match finished(rest) {
        Ok(layouts) => Ok(done + layouts),
        Err(e) => Err(e),
    }
}

/// The layouts of `shards` as mathematical values.
pub open spec fn layout_views(shards: Seq<ShardLayout>) -> Seq<(Seq<FileEntryView>, Seq<CopyRange>)> {
    Seq::new(shards.len(), |i: int| (entry_views(shards[i].entries@), shards[i].copies@))
}

/// What `layouts` say of the entries and of the runs to copy.
pub open spec fn layout_parts(layouts: Seq<Layout>) -> Seq<(Seq<FileEntryView>, Seq<CopyRange>)> {
    Seq::new(layouts.len(), |i: int| (layouts[i].entries, layouts[i].copies))
}

/// Lays out the new archives of a split: the last archive comes first, and
/// the entries of every archive come in the reverse of the order in which
/// they were placed.
///
/// Fails as `finished` says.
pub fn finish(shards: Vec<ChunkedFile>) -> (r: Result<Vec<ShardLayout>, SplitError>)
    ensures
        match finished(shard_views(shards@)) {
            Ok(layouts) => r matches Ok(made) && layout_views(made@) == layout_parts(layouts),
            Err(e) => r matches Err(x) && x == e,
        },
{
    let ghost all = shard_views(shards@);
    let mut rest = shards;
    let mut made: Vec<ShardLayout> = Vec::new();
    let ghost mut done: Seq<Layout> = Seq::empty();
    proof {
        assert(all.take(all.len() as int) == all);
        if finished(all) is Ok {
            assert(Seq::<Layout>::empty() + finished(all).unwrap() == finished(all).unwrap());
        }
        assert(layout_views(made@) =~= layout_parts(done));
    }
    while rest.len() > 0
        invariant
            rest@.len() <= all.len(),
            all == shard_views(shards@),
            shard_views(rest@) == all.take(rest@.len() as int),
            finished_after(done, all.take(rest@.len() as int)) == finished(all),
            made@.len() == done.len(),
            layout_views(made@) == layout_parts(done),
        decreases rest.len(),
    {
        let ghost remaining = all.take(rest@.len() as int);
        let shard = rest.pop().unwrap();
        proof {
            assert(shard@ == remaining.last());
            assert(shard_views(rest@) =~= all.take(rest@.len() as int));
            assert(remaining.drop_last() == all.take(rest@.len() as int));
        }
        let ascending = reversed(shard.into_entries());
        proof {
            assert(entry_views(ascending@) =~= shard@.entries.reverse());
        }
        let layout = match lay_out(&ascending) {
            Ok(layout) => layout,
            Err(e) => {
                return Err(e);
            },
        };
        let ghost made_before = made@;
        made.push(layout);
        proof {
            let next = laid_out(shard@.entries.reverse()).unwrap();
            let before = done;
            done = done.push(next);
            if finished(remaining.drop_last()) is Ok {
                let tail = finished(remaining.drop_last()).unwrap();
                assert(before + (seq![next] + tail) == done + tail);
            }
            assert forall|k: int| 0 <= k < made@.len() implies layout_views(made@)[k]
                == layout_parts(done)[k] by {
                if k < made_before.len() {
                    assert(layout_views(made_before)[k] == layout_parts(before)[k]);
                } else {
                    assert(made@[k] == layout);
                    assert(done[k] == next);
                    assert(entry_views(layout.entries@) == next.entries);
                }
            }
            assert(layout_views(made@) =~= layout_parts(done));
        }
    }
    proof {
        assert(all.take(0) == Seq::<ChunkedFileView>::empty());
        assert(done + Seq::<Layout>::empty() == done);
    }
    Ok(made)
}

/// Every entry of an archive of a split is one of the entries that were
/// placed.
pub proof fn lemma_shard_entries_were_placed(
    order: Seq<FileEntryView>,
    count: nat,
    k: int,
    i: int,
)
    requires
        count > 0,
        0 <= k < count,
        0 <= i < spread(order, count).shards[k].entries.len(),
    ensures
        order.contains(spread(order, count).shards[k].entries[i]),
    decreases order.len(),
{
    if order.len() > 0 {
        let before = spread(order.drop_last(), count);
        lemma_spread_shape(order.drop_last(), count);
        lemma_least_loaded(before.shards, count as int);
        let place = before.place_of(order.last());
        if k != place || i < before.shards[k].entries.len() {
            lemma_shard_entries_were_placed(order.drop_last(), count, k, i);
            let found = choose|j: int|
                0 <= j < order.drop_last().len() && order.drop_last()[j]
                    == before.shards[k].entries[i];
            assert(order[found] == spread(order, count).shards[k].entries[i]);
        } else {
            assert(order[order.len() - 1] == spread(order, count).shards[k].entries[i]);
        }
    }
}

/// A split keeps the contents of an archive. Of an archive whose entries are
/// sound for its data file, and in which entries with the same original have
/// the same stored bytes, every new archive is sound for its own data file:
/// each of its entries is one of the entries that were split, with the same
/// record, and its body in the new data file holds the bytes that it held in
/// the old one, so that it unpacks to the same contents with the same
/// checksums.
pub proof fn lemma_split_keeps_contents(
    order: Seq<FileEntryView>,
    count: nat,
    source: Seq<u8>,
    k: int,
)
    requires
        count > 0,
        0 <= k < count,
        all_sound(order, source),
        same_originals_same_bodies(order, source),
        laid_out(spread(order, count).shards[k].entries.reverse()) is Ok,
    ensures
        ({
            let given = spread(order, count).shards[k].entries.reverse();
            let layout = laid_out(given).unwrap();
            let data = copied(source, layout.copies);
            &&& all_sound(layout.entries, data)
            &&& layout.entries.len() == given.len()
            &&& forall|i: int|
                0 <= i < given.len() ==> order.contains(#[trigger] given[i]) && kept(
                    given[i],
                    source,
                    layout.entries[i],
                    data,
                )
        }),
{
    let placed = spread(order, count).shards[k].entries;
    let given = placed.reverse();
    assert forall|i: int| 0 <= i < given.len() implies order.contains(#[trigger] given[i]) by {
        lemma_shard_entries_were_placed(order, count, k, placed.len() - 1 - i);
    }
    assert forall|i: int| 0 <= i < given.len() implies entry_sound(#[trigger] given[i], source) by {
        let j = choose|j: int| 0 <= j < order.len() && order[j] == given[i];
        assert(entry_sound(order[j], source));
    }
    assert forall|a: int, b: int|
        0 <= a < given.len() && 0 <= b < given.len() && (
        #[trigger] given[a]).info.original_sha256 == (
        #[trigger] given[b]).info.original_sha256 implies given[a].body_size == given[b].body_size
        && body_of(given[a], source) == body_of(given[b], source) by {
        let x = choose|j: int| 0 <= j < order.len() && order[j] == given[a];
        let y = choose|j: int| 0 <= j < order.len() && order[j] == given[b];
        assert(order[x].info.original_sha256 == order[y].info.original_sha256);
    }
    lemma_layout_sound(given, source);
    lemma_layout_keeps_bodies(given, source);
}

/// In an archive whose entries with the same original share one body, entries
/// with the same original have the same stored bytes.
pub proof fn lemma_shared_bodies_are_the_same(entries: Seq<FileEntryView>, data: Seq<u8>)
    requires
        crate::packer::shares_bodies(entries),
    ensures
        same_originals_same_bodies(entries, data),
{
}

} // verus!
