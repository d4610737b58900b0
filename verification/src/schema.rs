//! The messages of an index, field by field.
//!
//! The fields of every message are numbered from 1 in the order in which the
//! record names them. A number that is 0, and a string or a run of bytes
//! that is empty, is not written; a message that is there is written even
//! where it is empty. A reader takes the fields in the order in which they
//! come: of a field that comes again the last value counts, a message that
//! comes again is taken in on top of what was read of it, and a field that
//! the record does not name is passed over.

use vstd::prelude::*;
use vstd::slice::slice_to_vec;
use vstd::utf8::{decode_utf8, encode_utf8, valid_utf8};
use crate::model::{
    entry_views, ChunkInfo, CompressedMethod, FileEntry, FileEntryView, FileIndexFile, FileInfo,
    FileInfoView, Timestamp,
};
use crate::wire::{
    fields_bytes, fold_fields, lemma_fold_concat, lemma_fold_push, lemma_merged_step, merged,
    put_bytes_field, put_varint_field, take_field, Wire, WireField, WireValue,
};

verus! {

/// The 32 bits of `value` that a field of 32 bits keeps.
pub open spec fn low32(value: int) -> u32 {
    (value % 0x1_0000_0000) as u32
}

/// The number of 64 bits that stands for `value` on the wire.
pub open spec fn unsigned64(value: int) -> int {
    if value >= 0 {
        value
    } else {
        value + 0x1_0000_0000_0000_0000
    }
}

/// The signed number that the 64 bits of `value` stand for.
pub open spec fn signed64(value: int) -> i64 {
    if value < 0x8000_0000_0000_0000 {
        value as i64
    } else {
        (value - 0x1_0000_0000_0000_0000) as i64
    }
}

/// The signed number that the low 32 bits of `value` stand for.
pub open spec fn signed32(value: int) -> i32 {
    if value % 0x1_0000_0000 < 0x8000_0000 {
        (value % 0x1_0000_0000) as i32
    } else {
        (value % 0x1_0000_0000 - 0x1_0000_0000) as i32
    }
}

/// The field for the number `value`: none where it is 0.
pub open spec fn number_field(tag: int, value: int) -> Seq<WireField> {
    if value == 0 {
        Seq::empty()
    } else {
        seq![WireField { tag, value: WireValue::Varint(value) }]
    }
}

/// The field for the bytes `data`: none where there are no bytes.
pub open spec fn bytes_field(tag: int, data: Seq<u8>) -> Seq<WireField> {
    if data.len() == 0 {
        Seq::empty()
    } else {
        seq![WireField { tag, value: WireValue::Bytes(data) }]
    }
}

/// The field for the message whose bytes are `data`.
pub open spec fn message_field(tag: int, data: Seq<u8>) -> WireField {
    WireField { tag, value: WireValue::Bytes(data) }
}

/// A chunk of which nothing was read yet.
pub open spec fn empty_chunk() -> ChunkInfo {
    ChunkInfo {
        compressed_length: 0,
        compressed_method: CompressedMethod::Passthrough,
        original_length: 0,
    }
}

/// `chunk` with `field` taken in.
pub open spec fn chunk_step(chunk: ChunkInfo, field: WireField) -> Option<ChunkInfo> {
    if field.tag == 1 {
        match field.value {
            WireValue::Varint(value) => Some(
                ChunkInfo { compressed_length: low32(value), ..chunk },
            ),
            _ => None,
        }
    } else if field.tag == 2 {
        match field.value {
            WireValue::Varint(value) => match CompressedMethod::spec_from_code(low32(value)) {
                Some(method) => Some(ChunkInfo { compressed_method: method, ..chunk }),
                None => None,
            },
            _ => None,
        }
    } else if field.tag == 3 {
        match field.value {
            WireValue::Varint(value) => Some(ChunkInfo { original_length: low32(value), ..chunk }),
            _ => None,
        }
    } else {
        Some(chunk)
    }
}

/// How a chunk takes a field in.
pub open spec fn chunk_stepper() -> spec_fn(ChunkInfo, WireField) -> Option<ChunkInfo> {
    |chunk: ChunkInfo, field: WireField| chunk_step(chunk, field)
}

/// The fields of `chunk`.
pub open spec fn chunk_fields(chunk: ChunkInfo) -> Seq<WireField> {
    number_field(1, chunk.compressed_length as int) + number_field(
        2,
        chunk.compressed_method.spec_code() as int,
    ) + number_field(3, chunk.original_length as int)
}

/// The message that stands for `chunk`.
pub open spec fn chunk_bytes(chunk: ChunkInfo) -> Seq<u8> {
    fields_bytes(chunk_fields(chunk))
}

/// The chunk that the message `bytes` stands for.
pub open spec fn chunk_of(bytes: Seq<u8>) -> Option<ChunkInfo> {
    merged(chunk_stepper(), empty_chunk(), bytes)
}

/// The time of which nothing was read yet.
pub open spec fn zero_time() -> Timestamp {
    Timestamp { seconds: 0, nanos: 0 }
}

/// `time` with `field` taken in.
pub open spec fn time_step(time: Timestamp, field: WireField) -> Option<Timestamp> {
    if field.tag == 1 {
        match field.value {
            WireValue::Varint(value) => Some(Timestamp { seconds: signed64(value), ..time }),
            _ => None,
        }
    } else if field.tag == 2 {
        match field.value {
            WireValue::Varint(value) => Some(Timestamp { nanos: signed32(value), ..time }),
            _ => None,
        }
    } else {
        Some(time)
    }
}

/// How a time takes a field in.
pub open spec fn time_stepper() -> spec_fn(Timestamp, WireField) -> Option<Timestamp> {
    |time: Timestamp, field: WireField| time_step(time, field)
}

/// The fields of `time`.
pub open spec fn time_fields(time: Timestamp) -> Seq<WireField> {
    number_field(1, unsigned64(time.seconds as int)) + number_field(
        2,
        unsigned64(time.nanos as int),
    )
}

/// The message that stands for `time`.
pub open spec fn time_bytes(time: Timestamp) -> Seq<u8> {
    fields_bytes(time_fields(time))
}

/// The record of a file of which nothing was read yet.
pub open spec fn empty_info() -> FileInfoView {
    FileInfoView {
        path: Seq::empty(),
        chunks: Seq::empty(),
        chunks_crc32: 0,
        chunks_sha256: Seq::empty(),
        original_crc32: 0,
        original_sha256: Seq::empty(),
        modified_time: None,
        priority: 0,
    }
}

/// `info` with `field` taken in.
pub open spec fn info_step(info: FileInfoView, field: WireField) -> Option<FileInfoView> {
    if field.tag == 1 {
        match field.value {
            WireValue::Bytes(data) => if valid_utf8(data) {
                Some(FileInfoView { path: decode_utf8(data), ..info })
            } else {
                None
            },
            _ => None,
        }
    } else if field.tag == 2 {
        match field.value {
            WireValue::Bytes(data) => match chunk_of(data) {
                Some(chunk) => Some(FileInfoView { chunks: info.chunks.push(chunk), ..info }),
                None => None,
            },
            _ => None,
        }
    } else if field.tag == 3 {
        match field.value {
            WireValue::Varint(value) => Some(FileInfoView { chunks_crc32: low32(value), ..info }),
            _ => None,
        }
    } else if field.tag == 4 {
        match field.value {
            WireValue::Bytes(data) => Some(FileInfoView { chunks_sha256: data, ..info }),
            _ => None,
        }
    } else if field.tag == 5 {
        match field.value {
            WireValue::Varint(value) => Some(
                FileInfoView { original_crc32: low32(value), ..info },
            ),
            _ => None,
        }
    } else if field.tag == 6 {
        match field.value {
            WireValue::Bytes(data) => Some(FileInfoView { original_sha256: data, ..info }),
            _ => None,
        }
    } else if field.tag == 7 {
        match field.value {
            WireValue::Bytes(data) => match merged(
                time_stepper(),
                match info.modified_time {
                    Some(time) => time,
                    None => zero_time(),
                },
                data,
            ) {
                Some(time) => Some(FileInfoView { modified_time: Some(time), ..info }),
                None => None,
            },
            _ => None,
        }
    } else if field.tag == 8 {
        match field.value {
            WireValue::Varint(value) => Some(FileInfoView { priority: low32(value), ..info }),
            _ => None,
        }
    } else {
        Some(info)
    }
}

/// How the record of a file takes a field in.
pub open spec fn info_stepper() -> spec_fn(FileInfoView, WireField) -> Option<FileInfoView> {
    |info: FileInfoView, field: WireField| info_step(info, field)
}

/// The fields of `chunks`: one message each.
pub open spec fn chunks_fields(chunks: Seq<ChunkInfo>) -> Seq<WireField> {
    Seq::new(chunks.len(), |i: int| message_field(2, chunk_bytes(chunks[i])))
}

/// The field of the time of modification: a message where there is a time.
pub open spec fn modified_field(time: Option<Timestamp>) -> Seq<WireField> {
    match time {
        Some(time) => seq![message_field(7, time_bytes(time))],
        None => Seq::empty(),
    }
}

/// The fields of `info`.
pub open spec fn info_fields(info: FileInfoView) -> Seq<WireField> {
    bytes_field(1, encode_utf8(info.path)) + chunks_fields(info.chunks) + number_field(
        3,
        info.chunks_crc32 as int,
    ) + bytes_field(4, info.chunks_sha256) + number_field(5, info.original_crc32 as int)
        + bytes_field(6, info.original_sha256) + modified_field(info.modified_time)
        + number_field(8, info.priority as int)
}

/// The message that stands for `info`.
pub open spec fn info_bytes(info: FileInfoView) -> Seq<u8> {
    fields_bytes(info_fields(info))
}

/// What was read of an entry: the record of the file is there once its field
/// came.
pub struct EntryDraft {
    pub info: Option<FileInfoView>,
    pub file_index: u32,
    pub body_offset: u64,
    pub body_size: u64,
}

/// An entry of which nothing was read yet.
pub open spec fn empty_draft() -> EntryDraft {
    EntryDraft { info: None, file_index: 0, body_offset: 0, body_size: 0 }
}

/// `draft` with `field` taken in.
pub open spec fn entry_step(draft: EntryDraft, field: WireField) -> Option<EntryDraft> {
    if field.tag == 1 {
        match field.value {
            WireValue::Bytes(data) => match merged(
                info_stepper(),
                match draft.info {
                    Some(info) => info,
                    None => empty_info(),
                },
                data,
            ) {
                Some(info) => Some(EntryDraft { info: Some(info), ..draft }),
                None => None,
            },
            _ => None,
        }
    } else if field.tag == 2 {
        match field.value {
            WireValue::Varint(value) => Some(EntryDraft { file_index: low32(value), ..draft }),
            _ => None,
        }
    } else if field.tag == 3 {
        match field.value {
            WireValue::Varint(value) => Some(EntryDraft { body_offset: value as u64, ..draft }),
            _ => None,
        }
    } else if field.tag == 4 {
        match field.value {
            WireValue::Varint(value) => Some(EntryDraft { body_size: value as u64, ..draft }),
            _ => None,
        }
    } else {
        Some(draft)
    }
}

/// How an entry takes a field in.
pub open spec fn entry_stepper() -> spec_fn(EntryDraft, WireField) -> Option<EntryDraft> {
    |draft: EntryDraft, field: WireField| entry_step(draft, field)
}

/// The fields of `entry`.
pub open spec fn entry_fields(entry: FileEntryView) -> Seq<WireField> {
    seq![message_field(1, info_bytes(entry.info))] + number_field(2, entry.file_index as int)
        + number_field(3, entry.body_offset as int) + number_field(4, entry.body_size as int)
}

/// The message that stands for `entry`.
pub open spec fn entry_bytes(entry: FileEntryView) -> Seq<u8> {
    fields_bytes(entry_fields(entry))
}

/// The entry that the message `bytes` stands for. There is none where the
/// bytes are no message of an entry, or the record of the file is not in it.
pub open spec fn entry_of(bytes: Seq<u8>) -> Option<FileEntryView> {
    match merged(entry_stepper(), empty_draft(), bytes) {
        Some(draft) => match draft.info {
            Some(info) => Some(
                FileEntryView {
                    info,
                    file_index: draft.file_index,
                    body_offset: draft.body_offset,
                    body_size: draft.body_size,
                },
            ),
            None => None,
        },
        None => None,
    }
}

/// `entries` with `field` taken in.
pub open spec fn index_step(entries: Seq<FileEntryView>, field: WireField) -> Option<
    Seq<FileEntryView>,
> {
    if field.tag == 1 {
        match field.value {
            WireValue::Bytes(data) => match entry_of(data) {
                Some(entry) => Some(entries.push(entry)),
                None => None,
            },
            _ => None,
        }
    } else {
        Some(entries)
    }
}

/// How an index takes a field in.
pub open spec fn index_stepper() -> spec_fn(Seq<FileEntryView>, WireField) -> Option<
    Seq<FileEntryView>,
> {
    |entries: Seq<FileEntryView>, field: WireField| index_step(entries, field)
}

/// The fields of an index with the entries `entries`: one message each.
pub open spec fn index_fields(entries: Seq<FileEntryView>) -> Seq<WireField> {
    Seq::new(entries.len(), |i: int| message_field(1, entry_bytes(entries[i])))
}

/// The message that stands for the index with the entries `entries`.
pub open spec fn index_bytes(entries: Seq<FileEntryView>) -> Seq<u8> {
    fields_bytes(index_fields(entries))
}

/// The entries of the index that the message `bytes` stands for.
pub open spec fn index_of(bytes: Seq<u8>) -> Option<Seq<FileEntryView>> {
    merged(index_stepper(), Seq::empty(), bytes)
}

/// Taking in the field of a number is taking in nothing where the number is
/// 0, and one field otherwise.
pub proof fn lemma_fold_number<A>(
    step: spec_fn(A, WireField) -> Option<A>,
    start: A,
    tag: int,
    value: int,
)
    ensures
        fold_fields(step, start, number_field(tag, value)) == if value == 0 {
            Some(start)
        } else {
            step(start, WireField { tag, value: WireValue::Varint(value) })
        },
{
    if value != 0 {
        lemma_fold_push(
            step,
            start,
            Seq::empty(),
            WireField { tag, value: WireValue::Varint(value) },
        );
        assert(number_field(tag, value) == Seq::<WireField>::empty().push(
            WireField { tag, value: WireValue::Varint(value) },
        ));
    }
}

/// Taking in the field of a run of bytes is taking in nothing where there
/// are no bytes, and one field otherwise.
pub proof fn lemma_fold_bytes<A>(
    step: spec_fn(A, WireField) -> Option<A>,
    start: A,
    tag: int,
    data: Seq<u8>,
)
    ensures
        fold_fields(step, start, bytes_field(tag, data)) == if data.len() == 0 {
            Some(start)
        } else {
            step(start, WireField { tag, value: WireValue::Bytes(data) })
        },
{
    if data.len() != 0 {
        lemma_fold_push(step, start, Seq::empty(), WireField { tag, value: WireValue::Bytes(data) });
        assert(bytes_field(tag, data) == Seq::<WireField>::empty().push(
            WireField { tag, value: WireValue::Bytes(data) },
        ));
    }
}

/// Taking in one field.
pub proof fn lemma_fold_single<A>(
    step: spec_fn(A, WireField) -> Option<A>,
    start: A,
    field: WireField,
)
    ensures
        fold_fields(step, start, seq![field]) == step(start, field),
{
    lemma_fold_push(step, start, Seq::empty(), field);
    assert(seq![field] == Seq::<WireField>::empty().push(field));
}

/// The fields are those of a record: their numbers are ones that a key can
/// hold, their numbers of variable length have 64 bits at most, and none is
/// four or eight bytes.
pub open spec fn plain_fields(fields: Seq<WireField>) -> bool {
    forall|i: int|
        0 <= i < fields.len() ==> 1 <= (#[trigger] fields[i]).tag < 0x2000_0000 && match fields[i].value {
            WireValue::Varint(value) => 0 <= value <= u64::MAX,
            WireValue::Bytes(_) => true,
            _ => false,
        }
}

/// A field is no longer than the fields that it is one of, and the bytes
/// that it holds are no longer than the field.
pub proof fn lemma_field_within(fields: Seq<WireField>, i: int)
    requires
        0 <= i < fields.len(),
    ensures
        fields[i].bytes().len() <= fields_bytes(fields).len(),
        fields[i].value matches WireValue::Bytes(data) ==> data.len() <= fields_bytes(
            fields,
        ).len(),
    decreases fields.len(),
{
    if i < fields.len() - 1 {
        lemma_field_within(fields.drop_last(), i);
    }
}

/// Fields of a record that are no longer than 64 bits can say, all
/// together, can be written.
pub proof fn lemma_plain_fields_wf(fields: Seq<WireField>)
    requires
        plain_fields(fields),
        fields_bytes(fields).len() <= u64::MAX,
    ensures
        crate::wire::fields_wf(fields),
{
    assert forall|i: int| 0 <= i < fields.len() implies (#[trigger] fields[i]).wf() by {
        lemma_field_within(fields, i);
    }
}

/// Two runs of fields of a record are fields of a record.
proof fn lemma_plain_concat(a: Seq<WireField>, b: Seq<WireField>)
    requires
        plain_fields(a),
        plain_fields(b),
    ensures
        plain_fields(a + b),
{
    assert forall|i: int| 0 <= i < (a + b).len() implies 1 <= (#[trigger] (a + b)[i]).tag
        < 0x2000_0000 && match (a + b)[i].value {
        WireValue::Varint(value) => 0 <= value <= u64::MAX,
        WireValue::Bytes(_) => true,
        _ => false,
    } by {
        if i < a.len() {
            assert((a + b)[i] == a[i]);
        } else {
            assert((a + b)[i] == b[i - a.len()]);
        }
    }
}

/// The message of a chunk stands for the chunk.
pub proof fn lemma_chunk_round_trip(chunk: ChunkInfo)
    ensures
        chunk_of(chunk_bytes(chunk)) == Some(chunk),
        crate::wire::fields_wf(chunk_fields(chunk)),
{
    let step = chunk_stepper();
    let first = number_field(1, chunk.compressed_length as int);
    let second = number_field(2, chunk.compressed_method.spec_code() as int);
    let third = number_field(3, chunk.original_length as int);
    let fields = chunk_fields(chunk);
    assert forall|i: int| 0 <= i < fields.len() implies (#[trigger] fields[i]).wf() by {
        if i < first.len() {
            assert(fields[i] == first[i]);
        } else if i < first.len() + second.len() {
            assert(fields[i] == second[i - first.len()]);
        } else {
            assert(fields[i] == third[i - first.len() - second.len()]);
        }
    }
    crate::wire::lemma_fields_round_trip(fields);
    lemma_fold_concat(step, empty_chunk(), first + second, third);
    lemma_fold_concat(step, empty_chunk(), first, second);
    lemma_fold_number(step, empty_chunk(), 1, chunk.compressed_length as int);
    let one = ChunkInfo { compressed_length: chunk.compressed_length, ..empty_chunk() };
    assert(fold_fields(step, empty_chunk(), first) == Some(one));
    lemma_fold_number(step, one, 2, chunk.compressed_method.spec_code() as int);
    let two = ChunkInfo { compressed_method: chunk.compressed_method, ..one };
    assert(fold_fields(step, one, second) == Some(two));
    lemma_fold_number(step, two, 3, chunk.original_length as int);
    assert(fold_fields(step, two, third) == Some(chunk));
}

/// The message of a time stands for the time.
pub proof fn lemma_time_round_trip(time: Timestamp)
    ensures
        merged(time_stepper(), zero_time(), time_bytes(time)) == Some(time),
        crate::wire::fields_wf(time_fields(time)),
{
    let step = time_stepper();
    let seconds = unsigned64(time.seconds as int);
    let nanos = unsigned64(time.nanos as int);
    let first = number_field(1, seconds);
    let second = number_field(2, nanos);
    let fields = time_fields(time);
    assert forall|i: int| 0 <= i < fields.len() implies (#[trigger] fields[i]).wf() by {
        if i < first.len() {
            assert(fields[i] == first[i]);
        } else {
            assert(fields[i] == second[i - first.len()]);
        }
    }
    crate::wire::lemma_fields_round_trip(fields);
    lemma_fold_concat(step, zero_time(), first, second);
    lemma_fold_number(step, zero_time(), 1, seconds);
    let one = Timestamp { seconds: time.seconds, ..zero_time() };
    assert(signed64(seconds) == time.seconds);
    assert(fold_fields(step, zero_time(), first) == Some(one));
    lemma_fold_number(step, one, 2, nanos);
    assert(signed32(nanos) == time.nanos) by {
        let n = time.nanos as int;
        if n < 0 {
            assert((n + 0x1_0000_0000_0000_0000) % 0x1_0000_0000 == n + 0x1_0000_0000) by {
                vstd::arithmetic::div_mod::lemma_fundamental_div_mod_converse(
                    n + 0x1_0000_0000_0000_0000,
                    0x1_0000_0000,
                    0xffff_ffff,
                    n + 0x1_0000_0000,
                );
            }
        }
    }
    assert(fold_fields(step, one, second) == Some(time));
}

/// The fields of chunks are fields of a record.
proof fn lemma_chunks_fields_plain(chunks: Seq<ChunkInfo>)
    ensures
        plain_fields(chunks_fields(chunks)),
{
}

/// Taking in the fields of chunks adds the chunks.
proof fn lemma_fold_chunks(info: FileInfoView, chunks: Seq<ChunkInfo>)
    ensures
        fold_fields(info_stepper(), info, chunks_fields(chunks)) == Some(
            FileInfoView { chunks: info.chunks + chunks, ..info },
        ),
    decreases chunks.len(),
{
    let step = info_stepper();
    if chunks.len() == 0 {
        assert(info.chunks + chunks == info.chunks);
    } else {
        let front = chunks.drop_last();
        let last = chunks.last();
        lemma_fold_chunks(info, front);
        lemma_chunk_round_trip(last);
        assert(chunks_fields(chunks) == chunks_fields(front).push(
            message_field(2, chunk_bytes(last)),
        ));
        lemma_fold_push(step, info, chunks_fields(front), message_field(2, chunk_bytes(last)));
        assert((info.chunks + front).push(last) == info.chunks + chunks);
    }
}

/// The message of the record of a file stands for the record. This holds of
/// a message whose length 64 bits can say.
pub proof fn lemma_info_round_trip(info: FileInfoView)
    requires
        info_bytes(info).len() <= u64::MAX,
    ensures
        merged(info_stepper(), empty_info(), info_bytes(info)) == Some(info),
{
    broadcast use vstd::utf8::encode_utf8_valid_utf8, vstd::utf8::encode_utf8_decode_utf8;

    let step = info_stepper();
    let f1 = bytes_field(1, encode_utf8(info.path));
    let f2 = chunks_fields(info.chunks);
    let f3 = number_field(3, info.chunks_crc32 as int);
    let f4 = bytes_field(4, info.chunks_sha256);
    let f5 = number_field(5, info.original_crc32 as int);
    let f6 = bytes_field(6, info.original_sha256);
    let f7 = modified_field(info.modified_time);
    let f8 = number_field(8, info.priority as int);
    let fields = info_fields(info);
    lemma_chunks_fields_plain(info.chunks);
    lemma_plain_concat(f1, f2);
    lemma_plain_concat(f1 + f2, f3);
    lemma_plain_concat(f1 + f2 + f3, f4);
    lemma_plain_concat(f1 + f2 + f3 + f4, f5);
    lemma_plain_concat(f1 + f2 + f3 + f4 + f5, f6);
    lemma_plain_concat(f1 + f2 + f3 + f4 + f5 + f6, f7);
    lemma_plain_concat(f1 + f2 + f3 + f4 + f5 + f6 + f7, f8);
    lemma_plain_fields_wf(fields);
    crate::wire::lemma_fields_round_trip(fields);
    let a0 = empty_info();
    lemma_fold_concat(step, a0, f1 + f2 + f3 + f4 + f5 + f6 + f7, f8);
    lemma_fold_concat(step, a0, f1 + f2 + f3 + f4 + f5 + f6, f7);
    lemma_fold_concat(step, a0, f1 + f2 + f3 + f4 + f5, f6);
    lemma_fold_concat(step, a0, f1 + f2 + f3 + f4, f5);
    lemma_fold_concat(step, a0, f1 + f2 + f3, f4);
    lemma_fold_concat(step, a0, f1 + f2, f3);
    lemma_fold_concat(step, a0, f1, f2);
    lemma_fold_bytes(step, a0, 1, encode_utf8(info.path));
    let a1 = FileInfoView { path: info.path, ..a0 };
    assert(fold_fields(step, a0, f1) == Some(a1)) by {
        if encode_utf8(info.path).len() == 0 {
            assert(decode_utf8(encode_utf8(info.path)) == info.path);
            assert(decode_utf8(Seq::<u8>::empty()) == Seq::<char>::empty());
            assert(encode_utf8(info.path) == Seq::<u8>::empty());
            assert(info.path == Seq::<char>::empty());
        }
    }
    lemma_fold_chunks(a1, info.chunks);
    let a2 = FileInfoView { chunks: info.chunks, ..a1 };
    assert(a1.chunks + info.chunks == info.chunks);
    assert(fold_fields(step, a1, f2) == Some(a2));
    lemma_fold_number(step, a2, 3, info.chunks_crc32 as int);
    let a3 = FileInfoView { chunks_crc32: info.chunks_crc32, ..a2 };
    assert(fold_fields(step, a2, f3) == Some(a3));
    lemma_fold_bytes(step, a3, 4, info.chunks_sha256);
    let a4 = FileInfoView { chunks_sha256: info.chunks_sha256, ..a3 };
    assert(fold_fields(step, a3, f4) == Some(a4)) by {
        if info.chunks_sha256.len() == 0 {
            assert(info.chunks_sha256 == Seq::<u8>::empty());
        }
    }
    lemma_fold_number(step, a4, 5, info.original_crc32 as int);
    let a5 = FileInfoView { original_crc32: info.original_crc32, ..a4 };
    assert(fold_fields(step, a4, f5) == Some(a5));
    lemma_fold_bytes(step, a5, 6, info.original_sha256);
    let a6 = FileInfoView { original_sha256: info.original_sha256, ..a5 };
    assert(fold_fields(step, a5, f6) == Some(a6)) by {
        if info.original_sha256.len() == 0 {
            assert(info.original_sha256 == Seq::<u8>::empty());
        }
    }
    let a7 = FileInfoView { modified_time: info.modified_time, ..a6 };
    assert(fold_fields(step, a6, f7) == Some(a7)) by {
        match info.modified_time {
            Some(time) => {
                lemma_time_round_trip(time);
                lemma_fold_single(step, a6, message_field(7, time_bytes(time)));
            },
            None => {},
        }
    }
    lemma_fold_number(step, a7, 8, info.priority as int);
    assert(fold_fields(step, a7, f8) == Some(info));
}

/// The message of an entry stands for the entry. This holds of a message
/// whose length 64 bits can say.
pub proof fn lemma_entry_round_trip(entry: FileEntryView)
    requires
        entry_bytes(entry).len() <= u64::MAX,
    ensures
        entry_of(entry_bytes(entry)) == Some(entry),
{
    let step = entry_stepper();
    let f1 = seq![message_field(1, info_bytes(entry.info))];
    let f2 = number_field(2, entry.file_index as int);
    let f3 = number_field(3, entry.body_offset as int);
    let f4 = number_field(4, entry.body_size as int);
    let fields = entry_fields(entry);
    lemma_plain_concat(f1, f2);
    lemma_plain_concat(f1 + f2, f3);
    lemma_plain_concat(f1 + f2 + f3, f4);
    lemma_plain_fields_wf(fields);
    crate::wire::lemma_fields_round_trip(fields);
    assert(fields[0] == message_field(1, info_bytes(entry.info)));
    lemma_field_within(fields, 0);
    lemma_info_round_trip(entry.info);
    let a0 = empty_draft();
    lemma_fold_concat(step, a0, f1 + f2 + f3, f4);
    lemma_fold_concat(step, a0, f1 + f2, f3);
    lemma_fold_concat(step, a0, f1, f2);
    lemma_fold_single(step, a0, message_field(1, info_bytes(entry.info)));
    let a1 = EntryDraft { info: Some(entry.info), ..a0 };
    assert(fold_fields(step, a0, f1) == Some(a1));
    lemma_fold_number(step, a1, 2, entry.file_index as int);
    let a2 = EntryDraft { file_index: entry.file_index, ..a1 };
    assert(fold_fields(step, a1, f2) == Some(a2));
    lemma_fold_number(step, a2, 3, entry.body_offset as int);
    let a3 = EntryDraft { body_offset: entry.body_offset, ..a2 };
    assert(fold_fields(step, a2, f3) == Some(a3));
    lemma_fold_number(step, a3, 4, entry.body_size as int);
    let a4 = EntryDraft { body_size: entry.body_size, ..a3 };
    assert(fold_fields(step, a3, f4) == Some(a4));
}

/// Taking in the fields of entries adds the entries.
proof fn lemma_fold_entries(start: Seq<FileEntryView>, entries: Seq<FileEntryView>)
    requires
        fields_bytes(index_fields(entries)).len() <= u64::MAX,
    ensures
        fold_fields(index_stepper(), start, index_fields(entries)) == Some(start + entries),
    decreases entries.len(),
{
    let step = index_stepper();
    if entries.len() == 0 {
        assert(start + entries == start);
    } else {
        let front = entries.drop_last();
        let last = entries.last();
        let field = message_field(1, entry_bytes(last));
        assert(index_fields(entries) == index_fields(front).push(field));
        assert(index_fields(entries).drop_last() == index_fields(front));
        lemma_field_within(index_fields(entries), entries.len() - 1);
        lemma_fold_entries(start, front);
        lemma_entry_round_trip(last);
        lemma_fold_push(step, start, index_fields(front), field);
        assert((start + front).push(last) == start + entries);
    }
}

/// Written and read again, an index is what it was: the message of an index
/// stands for the entries of the index. This holds of a message whose length
/// 64 bits can say.
pub proof fn lemma_index_round_trip(entries: Seq<FileEntryView>)
    requires
        index_bytes(entries).len() <= u64::MAX,
    ensures
        index_of(index_bytes(entries)) == Some(entries),
{
    let fields = index_fields(entries);
    lemma_plain_fields_wf(fields);
    crate::wire::lemma_fields_round_trip(fields);
    lemma_fold_entries(Seq::empty(), entries);
    assert(Seq::<FileEntryView>::empty() + entries == entries);
}

/// Calls `String::from_utf8`. Claimed of it: it makes a string of bytes that
/// are UTF-8, with the characters that the bytes stand for, and refuses all
/// other bytes.
#[verifier::external_body]
fn string_from_utf8(bytes: Vec<u8>) -> (r: Option<String>)
    ensures
        match r {
            Some(text) => valid_utf8(bytes@) && text@ == decode_utf8(bytes@),
            None => !valid_utf8(bytes@),
        },
{
    String::from_utf8(bytes).ok()
}

/// The bytes of no fields are no bytes, and the bytes of one field are its
/// own.
proof fn lemma_fields_bytes_small(field: WireField)
    ensures
        fields_bytes(Seq::empty()) == Seq::<u8>::empty(),
        fields_bytes(seq![field]) == field.bytes(),
{
    assert(seq![field].drop_last() == Seq::<WireField>::empty());
    assert(seq![field].last() == field);
    assert(fields_bytes(Seq::<WireField>::empty()) == Seq::<u8>::empty());
    assert(fields_bytes(seq![field]) == Seq::<u8>::empty() + field.bytes());
    assert(Seq::<u8>::empty() + field.bytes() == field.bytes());
}

/// Puts the field of the number `value` at the end of `out`: nothing where
/// it is 0.
fn put_number(out: &mut Vec<u8>, tag: u32, value: u64, Ghost(before): Ghost<Seq<WireField>>)
    requires
        1 <= tag < 0x2000_0000,
        old(out)@ == fields_bytes(before),
    ensures
        final(out)@ == fields_bytes(before + number_field(tag as int, value as int)),
{
    let ghost field = WireField { tag: tag as int, value: WireValue::Varint(value as int) };
    proof {
        lemma_fields_bytes_small(field);
        crate::wire::lemma_fields_bytes_concat(before, number_field(tag as int, value as int));
    }
    if value != 0 {
        put_varint_field(out, tag, value);
    } else {
        assert(out@ + Seq::<u8>::empty() == out@);
    }
}

/// Puts the field of the bytes `data` at the end of `out`: nothing where
/// there are no bytes.
fn put_bytes(out: &mut Vec<u8>, tag: u32, data: &[u8], Ghost(before): Ghost<Seq<WireField>>)
    requires
        1 <= tag < 0x2000_0000,
        old(out)@ == fields_bytes(before),
    ensures
        final(out)@ == fields_bytes(before + bytes_field(tag as int, data@)),
{
    let ghost field = WireField { tag: tag as int, value: WireValue::Bytes(data@) };
    proof {
        lemma_fields_bytes_small(field);
        crate::wire::lemma_fields_bytes_concat(before, bytes_field(tag as int, data@));
    }
    if data.len() != 0 {
        put_bytes_field(out, tag, data);
    } else {
        assert(out@ + Seq::<u8>::empty() == out@);
    }
}

/// Puts the field of the message whose bytes are `data` at the end of `out`.
fn put_message(out: &mut Vec<u8>, tag: u32, data: &[u8], Ghost(before): Ghost<Seq<WireField>>)
    requires
        1 <= tag < 0x2000_0000,
        old(out)@ == fields_bytes(before),
    ensures
        final(out)@ == fields_bytes(before.push(message_field(tag as int, data@))),
{
    proof {
        lemma_fields_bytes_small(message_field(tag as int, data@));
        crate::wire::lemma_fields_bytes_concat(before, seq![message_field(tag as int, data@)]);
        assert(before.push(message_field(tag as int, data@)) == before + seq![
            message_field(tag as int, data@),
        ]);
    }
    put_bytes_field(out, tag, data);
}

/// The number of 64 bits that stands for `value` on the wire.
fn to_unsigned64(value: i64) -> (r: u64)
    ensures
        r == unsigned64(value as int),
{
    if value >= 0 {
        value as u64
    } else {
        (value - i64::MIN) as u64 + 0x8000_0000_0000_0000
    }
}

/// The signed number that the 64 bits of `value` stand for.
fn to_signed64(value: u64) -> (r: i64)
    ensures
        r == signed64(value as int),
{
    if value < 0x8000_0000_0000_0000 {
        value as i64
    } else {
        (value - 0x8000_0000_0000_0000) as i64 + i64::MIN
    }
}

/// The signed number that the low 32 bits of `value` stand for.
fn to_signed32(value: u64) -> (r: i32)
    ensures
        r == signed32(value as int),
{
    let low: u64 = value % 0x1_0000_0000;
    if low < 0x8000_0000 {
        low as i32
    } else {
        (low - 0x8000_0000) as i32 + i32::MIN
    }
}

/// The 32 bits of `value` that a field of 32 bits keeps.
fn to_low32(value: u64) -> (r: u32)
    ensures
        r == low32(value as int),
{
    (value % 0x1_0000_0000) as u32
}

/// The message that stands for `chunk`.
pub fn encode_chunk(chunk: &ChunkInfo) -> (r: Vec<u8>)
    ensures
        r@ == chunk_bytes(*chunk),
{
    let mut out: Vec<u8> = Vec::new();
    let ghost none = Seq::<WireField>::empty();
    let ghost first = number_field(1, chunk.compressed_length as int);
    let ghost second = number_field(2, chunk.compressed_method.spec_code() as int);
    proof {
        lemma_fields_bytes_small(message_field(1, Seq::empty()));
        assert(none + first == first);
    }
    put_number(&mut out, 1, chunk.compressed_length as u64, Ghost(none));
    put_number(&mut out, 2, chunk.compressed_method.code() as u64, Ghost(first));
    put_number(&mut out, 3, chunk.original_length as u64, Ghost(first + second));
    out
}

/// The message that stands for `time`.
pub fn encode_time(time: &Timestamp) -> (r: Vec<u8>)
    ensures
        r@ == time_bytes(*time),
{
    let mut out: Vec<u8> = Vec::new();
    let ghost none = Seq::<WireField>::empty();
    let ghost first = number_field(1, unsigned64(time.seconds as int));
    proof {
        lemma_fields_bytes_small(message_field(1, Seq::empty()));
        assert(none + first == first);
    }
    put_number(&mut out, 1, to_unsigned64(time.seconds), Ghost(none));
    put_number(&mut out, 2, to_unsigned64(time.nanos as i64), Ghost(first));
    out
}

/// The message that stands for `info`.
pub fn encode_info(info: &FileInfo) -> (r: Vec<u8>)
    ensures
        r@ == info_bytes(info@),
{
    let mut out: Vec<u8> = Vec::new();
    let ghost none = Seq::<WireField>::empty();
    let ghost f1 = bytes_field(1, encode_utf8(info@.path));
    proof {
        lemma_fields_bytes_small(message_field(1, Seq::empty()));
        assert(none + f1 == f1);
    }
    put_bytes(&mut out, 1, info.path.as_str().as_bytes(), Ghost(none));
    let mut i: usize = 0;
    proof {
        assert(f1 + chunks_fields(info@.chunks.take(0)) == f1);
    }
    while i < info.chunks.len()
        invariant
            i <= info.chunks@.len(),
            f1 == bytes_field(1, encode_utf8(info@.path)),
            out@ == fields_bytes(f1 + chunks_fields(info@.chunks.take(i as int))),
        decreases info.chunks.len() - i,
    {
        let message = encode_chunk(&info.chunks[i]);
        let ghost before = f1 + chunks_fields(info@.chunks.take(i as int));
        put_message(&mut out, 2, message.as_slice(), Ghost(before));
        proof {
            assert(before.push(message_field(2, message@)) == f1 + chunks_fields(
                info@.chunks.take(i + 1),
            ));
        }
        i = i + 1;
    }
    proof {
        assert(info@.chunks.take(i as int) == info@.chunks);
    }
    let ghost f2 = chunks_fields(info@.chunks);
    let ghost f3 = number_field(3, info.chunks_crc32 as int);
    let ghost f4 = bytes_field(4, info.chunks_sha256@);
    let ghost f5 = number_field(5, info.original_crc32 as int);
    let ghost f6 = bytes_field(6, info.original_sha256@);
    let ghost f7 = modified_field(info.modified_time);
    put_number(&mut out, 3, info.chunks_crc32 as u64, Ghost(f1 + f2));
    put_bytes(&mut out, 4, info.chunks_sha256.as_slice(), Ghost(f1 + f2 + f3));
    put_number(&mut out, 5, info.original_crc32 as u64, Ghost(f1 + f2 + f3 + f4));
    put_bytes(&mut out, 6, info.original_sha256.as_slice(), Ghost(f1 + f2 + f3 + f4 + f5));
    let ghost so_far = f1 + f2 + f3 + f4 + f5 + f6;
    match &info.modified_time {
        Some(time) => {
            let message = encode_time(time);
            put_message(&mut out, 7, message.as_slice(), Ghost(so_far));
            proof {
                assert(so_far.push(message_field(7, message@)) == so_far + f7);
            }
        },
        None => {
            proof {
                assert(so_far + f7 == so_far);
            }
        },
    }
    put_number(&mut out, 8, info.priority as u64, Ghost(so_far + f7));
    out
}

/// The message that stands for `entry`.
pub fn encode_entry(entry: &FileEntry) -> (r: Vec<u8>)
    ensures
        r@ == entry_bytes(entry@),
{
    let mut out: Vec<u8> = Vec::new();
    let ghost none = Seq::<WireField>::empty();
    let message = encode_info(&entry.info);
    let ghost f1 = seq![message_field(1, info_bytes(entry@.info))];
    let ghost f2 = number_field(2, entry.file_index as int);
    let ghost f3 = number_field(3, entry.body_offset as int);
    proof {
        lemma_fields_bytes_small(message_field(1, Seq::empty()));
        assert(none.push(message_field(1, message@)) == f1);
    }
    put_message(&mut out, 1, message.as_slice(), Ghost(none));
    put_number(&mut out, 2, entry.file_index as u64, Ghost(f1));
    put_number(&mut out, 3, entry.body_offset, Ghost(f1 + f2));
    put_number(&mut out, 4, entry.body_size, Ghost(f1 + f2 + f3));
    out
}

/// The message that stands for `index`.
pub fn encode_index(index: &FileIndexFile) -> (r: Vec<u8>)
    ensures
        r@ == index_bytes(index@),
{
    let mut out: Vec<u8> = Vec::new();
    let mut i: usize = 0;
    proof {
        lemma_fields_bytes_small(message_field(1, Seq::empty()));
        assert(index_fields(index@.take(0)) == Seq::<WireField>::empty());
    }
    while i < index.entries.len()
        invariant
            i <= index.entries@.len(),
            index@.len() == index.entries@.len(),
            out@ == fields_bytes(index_fields(index@.take(i as int))),
        decreases index.entries.len() - i,
    {
        let message = encode_entry(&index.entries[i]);
        let ghost before = index_fields(index@.take(i as int));
        put_message(&mut out, 1, message.as_slice(), Ghost(before));
        proof {
            assert(index@[i as int] == index.entries@[i as int]@);
            assert(before.push(message_field(1, message@)) == index_fields(
                index@.take(i + 1),
            ));
        }
        i = i + 1;
    }
    proof {
        assert(index@.take(i as int) == index@);
    }
    out
}

/// The chunk that the message `bytes` stands for.
pub fn decode_chunk(bytes: &[u8]) -> (r: Option<ChunkInfo>)
    ensures
        r == chunk_of(bytes@),
{
    let mut chunk = ChunkInfo {
        compressed_length: 0,
        compressed_method: CompressedMethod::Passthrough,
        original_length: 0,
    };
    let mut rest = bytes;
    while rest.len() > 0
        invariant
            merged(chunk_stepper(), chunk, rest@) == chunk_of(bytes@),
        decreases rest@.len(),
    {
        proof {
            lemma_merged_step(chunk_stepper(), chunk, rest@);
        }
        let (tag, value, behind) = match take_field(rest) {
            Some(field) => field,
            None => {
                return None;
            },
        };
        if tag == 1 {
            match value {
                Wire::Varint(number) => {
                    chunk.compressed_length = to_low32(number);
                },
                _ => {
                    return None;
                },
            }
        } else if tag == 2 {
            match value {
                Wire::Varint(number) => match CompressedMethod::from_code(to_low32(number)) {
                    Some(method) => {
                        chunk.compressed_method = method;
                    },
                    None => {
                        return None;
                    },
                },
                _ => {
                    return None;
                },
            }
        } else if tag == 3 {
            match value {
                Wire::Varint(number) => {
                    chunk.original_length = to_low32(number);
                },
                _ => {
                    return None;
                },
            }
        }
        rest = behind;
    }
    proof {
        lemma_merged_step(chunk_stepper(), chunk, rest@);
    }
    Some(chunk)
}

/// `start` with the fields of the message `bytes` taken in.
pub fn merge_time(start: Timestamp, bytes: &[u8]) -> (r: Option<Timestamp>)
    ensures
        r == merged(time_stepper(), start, bytes@),
{
    let mut time = start;
    let mut rest = bytes;
    while rest.len() > 0
        invariant
            merged(time_stepper(), time, rest@) == merged(time_stepper(), start, bytes@),
        decreases rest@.len(),
    {
        proof {
            lemma_merged_step(time_stepper(), time, rest@);
        }
        let (tag, value, behind) = match take_field(rest) {
            Some(field) => field,
            None => {
                return None;
            },
        };
        if tag == 1 {
            match value {
                Wire::Varint(number) => {
                    time.seconds = to_signed64(number);
                },
                _ => {
                    return None;
                },
            }
        } else if tag == 2 {
            match value {
                Wire::Varint(number) => {
                    time.nanos = to_signed32(number);
                },
                _ => {
                    return None;
                },
            }
        }
        rest = behind;
    }
    proof {
        lemma_merged_step(time_stepper(), time, rest@);
    }
    Some(time)
}

/// `start` with the fields of the message `bytes` taken in.
pub fn merge_info(start: FileInfo, bytes: &[u8]) -> (r: Option<FileInfo>)
    ensures
        match r {
            Some(info) => merged(info_stepper(), start@, bytes@) == Some(info@),
            None => merged(info_stepper(), start@, bytes@) is None,
        },
{
    let mut info = start;
    let mut rest = bytes;
    while rest.len() > 0
        invariant
            merged(info_stepper(), info@, rest@) == merged(info_stepper(), start@, bytes@),
        decreases rest@.len(),
    {
        proof {
            lemma_merged_step(info_stepper(), info@, rest@);
        }
        let ghost before = info@;
        let (tag, value, behind) = match take_field(rest) {
            Some(field) => field,
            None => {
                return None;
            },
        };
        let ghost field = WireField { tag: tag as int, value: value@ };
        if tag == 1 {
            match value {
                Wire::Bytes(data) => match string_from_utf8(slice_to_vec(data)) {
                    Some(path) => {
                        info.path = path;
                    },
                    None => {
                        return None;
                    },
                },
                _ => {
                    return None;
                },
            }
        } else if tag == 2 {
            match value {
                Wire::Bytes(data) => match decode_chunk(data) {
                    Some(chunk) => {
                        info.chunks.push(chunk);
                    },
                    None => {
                        return None;
                    },
                },
                _ => {
                    return None;
                },
            }
        } else if tag == 3 {
            match value {
                Wire::Varint(number) => {
                    info.chunks_crc32 = to_low32(number);
                },
                _ => {
                    return None;
                },
            }
        } else if tag == 4 {
            match value {
                Wire::Bytes(data) => {
                    info.chunks_sha256 = slice_to_vec(data);
                },
                _ => {
                    return None;
                },
            }
        } else if tag == 5 {
            match value {
                Wire::Varint(number) => {
                    info.original_crc32 = to_low32(number);
                },
                _ => {
                    return None;
                },
            }
        } else if tag == 6 {
            match value {
                Wire::Bytes(data) => {
                    info.original_sha256 = slice_to_vec(data);
                },
                _ => {
                    return None;
                },
            }
        } else if tag == 7 {
            match value {
                Wire::Bytes(data) => {
                    let known = match info.modified_time {
                        Some(time) => time,
                        None => Timestamp { seconds: 0, nanos: 0 },
                    };
                    match merge_time(known, data) {
                        Some(time) => {
                            info.modified_time = Some(time);
                        },
                        None => {
                            return None;
                        },
                    }
                },
                _ => {
                    return None;
                },
            }
        } else if tag == 8 {
            match value {
                Wire::Varint(number) => {
                    info.priority = to_low32(number);
                },
                _ => {
                    return None;
                },
            }
        }
        proof {
            assert(info_step(before, field) == Some(info@));
        }
        rest = behind;
    }
    proof {
        lemma_merged_step(info_stepper(), info@, rest@);
    }
    Some(info)
}

/// What was read of an entry.
struct Draft {
    info: Option<FileInfo>,
    file_index: u32,
    body_offset: u64,
    body_size: u64,
}

impl View for Draft {
    type V = EntryDraft;

    closed spec fn view(&self) -> EntryDraft {
        EntryDraft {
            info: match self.info {
                Some(info) => Some(info@),
                None => None,
            },
            file_index: self.file_index,
            body_offset: self.body_offset,
            body_size: self.body_size,
        }
    }
}

/// The record of a file of which nothing was read yet.
fn new_info() -> (r: FileInfo)
    ensures
        r@ == empty_info(),
{
    FileInfo {
        path: String::new(),
        chunks: Vec::new(),
        chunks_crc32: 0,
        chunks_sha256: Vec::new(),
        original_crc32: 0,
        original_sha256: Vec::new(),
        modified_time: None,
        priority: 0,
    }
}

/// The entry that the message `bytes` stands for.
pub fn decode_entry(bytes: &[u8]) -> (r: Option<FileEntry>)
    ensures
        match r {
            Some(entry) => entry_of(bytes@) == Some(entry@),
            None => entry_of(bytes@) is None,
        },
{
    let mut draft = Draft { info: None, file_index: 0, body_offset: 0, body_size: 0 };
    let mut rest = bytes;
    while rest.len() > 0
        invariant
            merged(entry_stepper(), draft@, rest@) == merged(
                entry_stepper(),
                empty_draft(),
                bytes@,
            ),
        decreases rest@.len(),
    {
        proof {
            lemma_merged_step(entry_stepper(), draft@, rest@);
        }
        let ghost before = draft@;
        let (tag, value, behind) = match take_field(rest) {
            Some(field) => field,
            None => {
                return None;
            },
        };
        let ghost field = WireField { tag: tag as int, value: value@ };
        if tag == 1 {
            match value {
                Wire::Bytes(data) => {
                    let known = match draft.info {
                        Some(info) => info,
                        None => new_info(),
                    };
                    match merge_info(known, data) {
                        Some(info) => {
                            draft = Draft {
                                info: Some(info),
                                file_index: draft.file_index,
                                body_offset: draft.body_offset,
                                body_size: draft.body_size,
                            };
                        },
                        None => {
                            return None;
                        },
                    }
                },
                _ => {
                    return None;
                },
            }
        } else if tag == 2 {
            match value {
                Wire::Varint(number) => {
                    draft.file_index = to_low32(number);
                },
                _ => {
                    return None;
                },
            }
        } else if tag == 3 {
            match value {
                Wire::Varint(number) => {
                    draft.body_offset = number;
                },
                _ => {
                    return None;
                },
            }
        } else if tag == 4 {
            match value {
                Wire::Varint(number) => {
                    draft.body_size = number;
                },
                _ => {
                    return None;
                },
            }
        }
        proof {
            assert(entry_step(before, field) == Some(draft@));
        }
        rest = behind;
    }
    proof {
        lemma_merged_step(entry_stepper(), draft@, rest@);
    }
    match draft.info {
        Some(info) => Some(
            FileEntry {
                info,
                file_index: draft.file_index,
                body_offset: draft.body_offset,
                body_size: draft.body_size,
            },
        ),
        None => None,
    }
}

/// The index that the message `bytes` stands for.
pub fn decode_index(bytes: &[u8]) -> (r: Option<FileIndexFile>)
    ensures
        match r {
            Some(index) => index_of(bytes@) == Some(index@),
            None => index_of(bytes@) is None,
        },
{
    let mut entries: Vec<FileEntry> = Vec::new();
    let mut rest = bytes;
    proof {
        assert(entry_views(entries@) == Seq::<FileEntryView>::empty());
    }
    while rest.len() > 0
        invariant
            merged(index_stepper(), entry_views(entries@), rest@) == index_of(bytes@),
        decreases rest@.len(),
    {
        proof {
            lemma_merged_step(index_stepper(), entry_views(entries@), rest@);
        }
        let ghost before = entry_views(entries@);
        let (tag, value, behind) = match take_field(rest) {
            Some(field) => field,
            None => {
                return None;
            },
        };
        if tag == 1 {
            match value {
                Wire::Bytes(data) => match decode_entry(data) {
                    Some(entry) => {
                        entries.push(entry);
                        proof {
                            assert(entry_views(entries@) == before.push(entry@));
                        }
                    },
                    None => {
                        return None;
                    },
                },
                _ => {
                    return None;
                },
            }
        }
        rest = behind;
    }
    proof {
        lemma_merged_step(index_stepper(), entry_views(entries@), rest@);
    }
    Some(FileIndexFile { entries })
}

} // verus!
