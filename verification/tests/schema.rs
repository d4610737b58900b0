use mar_archive::model::{
    ChunkInfo, CompressedMethod, FileEntry, FileIndexFile, FileInfo, Timestamp,
};
use mar_archive::schema::{
    decode_chunk, decode_entry, decode_index, encode_chunk, encode_entry, encode_index,
    encode_info, encode_time, merge_info, merge_time,
};
use mar_archive::wire::{
    decode_varint, encode_varint, put_bytes_field, put_varint_field, take_field, Wire,
};
use prost::bytes::{Buf, BufMut};
use prost::encoding::{skip_field, DecodeContext, WireType};
use prost::{DecodeError, Message};

// The messages of an index as the protocol-buffer library sees them, written
// out by hand: what a reader or writer made for this schema does.

#[derive(Clone, Debug, Default, PartialEq)]
struct PChunk {
    compressed_length: u32,
    compressed_method: u32,
    original_length: u32,
}

impl Message for PChunk {
    fn encode_raw(&self, buf: &mut impl BufMut) {
        if self.compressed_length != 0 {
            prost::encoding::uint32::encode(1, &self.compressed_length, buf);
        }
        if self.compressed_method != 0 {
            prost::encoding::uint32::encode(2, &self.compressed_method, buf);
        }
        if self.original_length != 0 {
            prost::encoding::uint32::encode(3, &self.original_length, buf);
        }
    }

    fn merge_field(
        &mut self,
        tag: u32,
        wire_type: WireType,
        buf: &mut impl Buf,
        ctx: DecodeContext,
    ) -> Result<(), DecodeError> {
        match tag {
            1 => prost::encoding::uint32::merge(wire_type, &mut self.compressed_length, buf, ctx),
            2 => prost::encoding::uint32::merge(wire_type, &mut self.compressed_method, buf, ctx),
            3 => prost::encoding::uint32::merge(wire_type, &mut self.original_length, buf, ctx),
            _ => skip_field(wire_type, tag, buf, ctx),
        }
    }

    fn encoded_len(&self) -> usize {
        let mut len = 0;
        if self.compressed_length != 0 {
            len += prost::encoding::uint32::encoded_len(1, &self.compressed_length);
        }
        if self.compressed_method != 0 {
            len += prost::encoding::uint32::encoded_len(2, &self.compressed_method);
        }
        if self.original_length != 0 {
            len += prost::encoding::uint32::encoded_len(3, &self.original_length);
        }
        len
    }

    fn clear(&mut self) {
        *self = PChunk::default();
    }
}

#[derive(Clone, Debug, Default, PartialEq)]
struct PInfo {
    path: String,
    chunks: Vec<PChunk>,
    chunks_crc32: u32,
    chunks_sha256: Vec<u8>,
    original_crc32: u32,
    original_sha256: Vec<u8>,
    modified_time: Option<prost_types::Timestamp>,
    priority: u32,
}

impl Message for PInfo {
    fn encode_raw(&self, buf: &mut impl BufMut) {
        if !self.path.is_empty() {
            prost::encoding::string::encode(1, &self.path, buf);
        }
        prost::encoding::message::encode_repeated(2, &self.chunks, buf);
        if self.chunks_crc32 != 0 {
            prost::encoding::uint32::encode(3, &self.chunks_crc32, buf);
        }
        if !self.chunks_sha256.is_empty() {
            prost::encoding::bytes::encode(4, &self.chunks_sha256, buf);
        }
        if self.original_crc32 != 0 {
            prost::encoding::uint32::encode(5, &self.original_crc32, buf);
        }
        if !self.original_sha256.is_empty() {
            prost::encoding::bytes::encode(6, &self.original_sha256, buf);
        }
        if let Some(time) = &self.modified_time {
            prost::encoding::message::encode(7, time, buf);
        }
        if self.priority != 0 {
            prost::encoding::uint32::encode(8, &self.priority, buf);
        }
    }

    fn merge_field(
        &mut self,
        tag: u32,
        wire_type: WireType,
        buf: &mut impl Buf,
        ctx: DecodeContext,
    ) -> Result<(), DecodeError> {
        match tag {
            1 => prost::encoding::string::merge(wire_type, &mut self.path, buf, ctx),
            2 => prost::encoding::message::merge_repeated(wire_type, &mut self.chunks, buf, ctx),
            3 => prost::encoding::uint32::merge(wire_type, &mut self.chunks_crc32, buf, ctx),
            4 => prost::encoding::bytes::merge(wire_type, &mut self.chunks_sha256, buf, ctx),
            5 => prost::encoding::uint32::merge(wire_type, &mut self.original_crc32, buf, ctx),
            6 => prost::encoding::bytes::merge(wire_type, &mut self.original_sha256, buf, ctx),
            7 => prost::encoding::message::merge(
                wire_type,
                self.modified_time.get_or_insert_with(Default::default),
                buf,
                ctx,
            ),
            8 => prost::encoding::uint32::merge(wire_type, &mut self.priority, buf, ctx),
            _ => skip_field(wire_type, tag, buf, ctx),
        }
    }

    fn encoded_len(&self) -> usize {
        let mut len = 0;
        if !self.path.is_empty() {
            len += prost::encoding::string::encoded_len(1, &self.path);
        }
        len += prost::encoding::message::encoded_len_repeated(2, &self.chunks);
        if self.chunks_crc32 != 0 {
            len += prost::encoding::uint32::encoded_len(3, &self.chunks_crc32);
        }
        if !self.chunks_sha256.is_empty() {
            len += prost::encoding::bytes::encoded_len(4, &self.chunks_sha256);
        }
        if self.original_crc32 != 0 {
            len += prost::encoding::uint32::encoded_len(5, &self.original_crc32);
        }
        if !self.original_sha256.is_empty() {
            len += prost::encoding::bytes::encoded_len(6, &self.original_sha256);
        }
        if let Some(time) = &self.modified_time {
            len += prost::encoding::message::encoded_len(7, time);
        }
        if self.priority != 0 {
            len += prost::encoding::uint32::encoded_len(8, &self.priority);
        }
        len
    }

    fn clear(&mut self) {
        *self = PInfo::default();
    }
}

#[derive(Clone, Debug, Default, PartialEq)]
struct PEntry {
    info: Option<PInfo>,
    file_index: u32,
    body_offset: u64,
    body_size: u64,
}

impl Message for PEntry {
    fn encode_raw(&self, buf: &mut impl BufMut) {
        if let Some(info) = &self.info {
            prost::encoding::message::encode(1, info, buf);
        }
        if self.file_index != 0 {
            prost::encoding::uint32::encode(2, &self.file_index, buf);
        }
        if self.body_offset != 0 {
            prost::encoding::uint64::encode(3, &self.body_offset, buf);
        }
        if self.body_size != 0 {
            prost::encoding::uint64::encode(4, &self.body_size, buf);
        }
    }

    fn merge_field(
        &mut self,
        tag: u32,
        wire_type: WireType,
        buf: &mut impl Buf,
        ctx: DecodeContext,
    ) -> Result<(), DecodeError> {
        match tag {
            1 => prost::encoding::message::merge(
                wire_type,
                self.info.get_or_insert_with(Default::default),
                buf,
                ctx,
            ),
            2 => prost::encoding::uint32::merge(wire_type, &mut self.file_index, buf, ctx),
            3 => prost::encoding::uint64::merge(wire_type, &mut self.body_offset, buf, ctx),
            4 => prost::encoding::uint64::merge(wire_type, &mut self.body_size, buf, ctx),
            _ => skip_field(wire_type, tag, buf, ctx),
        }
    }

    fn encoded_len(&self) -> usize {
        let mut len = 0;
        if let Some(info) = &self.info {
            len += prost::encoding::message::encoded_len(1, info);
        }
        if self.file_index != 0 {
            len += prost::encoding::uint32::encoded_len(2, &self.file_index);
        }
        if self.body_offset != 0 {
            len += prost::encoding::uint64::encoded_len(3, &self.body_offset);
        }
        if self.body_size != 0 {
            len += prost::encoding::uint64::encoded_len(4, &self.body_size);
        }
        len
    }

    fn clear(&mut self) {
        *self = PEntry::default();
    }
}

#[derive(Clone, Debug, Default, PartialEq)]
struct PIndex {
    entries: Vec<PEntry>,
}

impl Message for PIndex {
    fn encode_raw(&self, buf: &mut impl BufMut) {
        prost::encoding::message::encode_repeated(1, &self.entries, buf);
    }

    fn merge_field(
        &mut self,
        tag: u32,
        wire_type: WireType,
        buf: &mut impl Buf,
        ctx: DecodeContext,
    ) -> Result<(), DecodeError> {
        match tag {
            1 => prost::encoding::message::merge_repeated(wire_type, &mut self.entries, buf, ctx),
            _ => skip_field(wire_type, tag, buf, ctx),
        }
    }

    fn encoded_len(&self) -> usize {
        prost::encoding::message::encoded_len_repeated(1, &self.entries)
    }

    fn clear(&mut self) {
        *self = PIndex::default();
    }
}

fn p_chunk(chunk: &ChunkInfo) -> PChunk {
    PChunk {
        compressed_length: chunk.compressed_length,
        compressed_method: chunk.compressed_method.code(),
        original_length: chunk.original_length,
    }
}

fn p_time(time: &Timestamp) -> prost_types::Timestamp {
    prost_types::Timestamp { seconds: time.seconds, nanos: time.nanos }
}

fn p_info(info: &FileInfo) -> PInfo {
    PInfo {
        path: info.path.clone(),
        chunks: info.chunks.iter().map(p_chunk).collect(),
        chunks_crc32: info.chunks_crc32,
        chunks_sha256: info.chunks_sha256.clone(),
        original_crc32: info.original_crc32,
        original_sha256: info.original_sha256.clone(),
        modified_time: info.modified_time.as_ref().map(p_time),
        priority: info.priority,
    }
}

fn p_entry(entry: &FileEntry) -> PEntry {
    PEntry {
        info: Some(p_info(&entry.info)),
        file_index: entry.file_index,
        body_offset: entry.body_offset,
        body_size: entry.body_size,
    }
}

fn p_index(index: &FileIndexFile) -> PIndex {
    PIndex { entries: index.entries.iter().map(p_entry).collect() }
}

fn chunk(compressed_length: u32, method: CompressedMethod, original_length: u32) -> ChunkInfo {
    ChunkInfo { compressed_length, compressed_method: method, original_length }
}

fn empty_info() -> FileInfo {
    FileInfo {
        path: String::new(),
        chunks: Vec::new(),
        chunks_crc32: 0,
        chunks_sha256: Vec::new(),
        original_crc32: 0,
        original_sha256: Vec::new(),
        modified_time: None,
        priority: 0,
    }
}

fn samples() -> Vec<FileEntry> {
    let plain = FileEntry {
        info: FileInfo {
            path: String::from("/dir/a.txt"),
            chunks: vec![
                chunk(300, CompressedMethod::Zstandard, 70_000),
                chunk(4_194_304, CompressedMethod::Passthrough, 4_194_304),
                chunk(1, CompressedMethod::Lz4, u32::MAX),
            ],
            chunks_crc32: 0xdead_beef,
            chunks_sha256: (0..32).collect(),
            original_crc32: 0x0000_0080,
            original_sha256: (100..132).collect(),
            modified_time: Some(Timestamp { seconds: 1_700_000_000, nanos: 123_456_789 }),
            priority: 0,
        },
        file_index: 0,
        body_offset: 12_345_678_901,
        body_size: 4_194_605,
    };
    let empty = FileEntry { info: empty_info(), file_index: 0, body_offset: 0, body_size: 0 };
    let odd = FileEntry {
        info: FileInfo {
            path: String::from("/\u{e9}t\u{e9}/\u{65e5}\u{672c}\u{8a9e}/\u{1f600}"),
            chunks: vec![chunk(0, CompressedMethod::Passthrough, 0)],
            chunks_crc32: u32::MAX,
            chunks_sha256: vec![0],
            original_crc32: 1,
            original_sha256: vec![0xff; 64],
            modified_time: Some(Timestamp { seconds: -1, nanos: -1 }),
            priority: 127,
        },
        file_index: u32::MAX,
        body_offset: u64::MAX,
        body_size: 1 << 63,
    };
    let zero_time = FileEntry {
        info: FileInfo {
            modified_time: Some(Timestamp { seconds: 0, nanos: 0 }),
            priority: 128,
            ..empty_info()
        },
        file_index: 128,
        body_offset: 127,
        body_size: 16_384,
    };
    let extreme_time = FileEntry {
        info: FileInfo {
            modified_time: Some(Timestamp { seconds: i64::MIN, nanos: i32::MIN }),
            ..empty_info()
        },
        ..empty.clone()
    };
    let late = FileEntry {
        info: FileInfo {
            modified_time: Some(Timestamp { seconds: i64::MAX, nanos: i32::MAX }),
            ..empty_info()
        },
        ..empty.clone()
    };
    vec![plain, empty, odd, zero_time, extreme_time, late]
}

#[test]
fn a_chunk_is_written_field_by_field() {
    let bytes = encode_chunk(&chunk(300, CompressedMethod::Zstandard, 70_000));
    // 300 is 0xac 0x02, 70000 is 0xf0 0xa2 0x04.
    assert_eq!(bytes, vec![0x08, 0xac, 0x02, 0x10, 0x02, 0x18, 0xf0, 0xa2, 0x04]);
    assert!(encode_chunk(&chunk(0, CompressedMethod::Passthrough, 0)).is_empty());
    assert_eq!(encode_chunk(&chunk(0, CompressedMethod::Lz4, 0)), vec![0x10, 0x01]);
    assert_eq!(
        encode_chunk(&chunk(u32::MAX, CompressedMethod::Passthrough, 1)),
        vec![0x08, 0xff, 0xff, 0xff, 0xff, 0x0f, 0x18, 0x01]
    );
}

#[test]
fn a_time_is_written_as_the_library_writes_it() {
    for (seconds, nanos) in [
        (0i64, 0i32),
        (1, 1),
        (1_700_000_000, 999_999_999),
        (-1, 0),
        (0, -1),
        (i64::MIN, i32::MIN),
        (i64::MAX, i32::MAX),
        (-62_135_596_800, 5),
    ] {
        let time = Timestamp { seconds, nanos };
        let bytes = encode_time(&time);
        assert_eq!(bytes, p_time(&time).encode_to_vec());
        assert_eq!(merge_time(Timestamp { seconds: 0, nanos: 0 }, &bytes), Some(time));
        let read = prost_types::Timestamp::decode(&bytes[..]).unwrap();
        assert_eq!((read.seconds, read.nanos), (seconds, nanos));
    }
    assert_eq!(
        encode_time(&Timestamp { seconds: -1, nanos: 0 }),
        vec![0x08, 0xff, 0xff, 0xff, 0xff, 0xff, 0xff, 0xff, 0xff, 0xff, 0x01]
    );
}

#[test]
fn an_entry_is_written_as_the_library_writes_it() {
    for entry in samples() {
        assert_eq!(encode_info(&entry.info), p_info(&entry.info).encode_to_vec());
        assert_eq!(encode_entry(&entry), p_entry(&entry).encode_to_vec());
        for c in &entry.info.chunks {
            assert_eq!(encode_chunk(c), p_chunk(c).encode_to_vec());
        }
    }
}

#[test]
fn an_index_is_written_as_the_library_writes_it() {
    let index = FileIndexFile { entries: samples() };
    let bytes = encode_index(&index);
    assert_eq!(bytes, p_index(&index).encode_to_vec());
    assert_eq!(PIndex::decode(&bytes[..]).unwrap(), p_index(&index));
    assert!(encode_index(&FileIndexFile { entries: Vec::new() }).is_empty());
}

#[test]
fn an_index_is_read_as_it_was_written() {
    let index = FileIndexFile { entries: samples() };
    assert_eq!(decode_index(&encode_index(&index)), Some(index.clone()));
    for entry in &index.entries {
        assert_eq!(decode_entry(&encode_entry(entry)), Some(entry.clone()));
        assert_eq!(merge_info(empty_info(), &encode_info(&entry.info)), Some(entry.info.clone()));
        for c in &entry.info.chunks {
            assert_eq!(decode_chunk(&encode_chunk(c)), Some(*c));
        }
    }
    assert_eq!(decode_index(&[]), Some(FileIndexFile { entries: Vec::new() }));
}

#[test]
fn an_index_of_the_library_is_read() {
    let index = FileIndexFile { entries: samples() };
    let bytes = p_index(&index).encode_to_vec();
    assert_eq!(decode_index(&bytes), Some(index));
}

#[test]
fn an_entry_without_the_record_of_its_file_is_refused() {
    let bare = PEntry { info: None, file_index: 1, body_offset: 2, body_size: 3 };
    assert_eq!(decode_entry(&bare.encode_to_vec()), None);
    assert_eq!(decode_entry(&[]), None);
    let index = PIndex { entries: vec![bare] };
    assert_eq!(decode_index(&index.encode_to_vec()), None);
    // An empty record is a record.
    let empty = PEntry { info: Some(PInfo::default()), ..PEntry::default() };
    assert_eq!(empty.encode_to_vec(), vec![0x0a, 0x00]);
    assert_eq!(
        decode_entry(&[0x0a, 0x00]),
        Some(FileEntry { info: empty_info(), file_index: 0, body_offset: 0, body_size: 0 })
    );
}

#[test]
fn a_method_that_is_none_is_refused() {
    assert_eq!(decode_chunk(&[0x10, 0x02]), Some(chunk(0, CompressedMethod::Zstandard, 0)));
    assert_eq!(decode_chunk(&[0x10, 0x03]), None);
    assert_eq!(decode_chunk(&[0x10, 0xff, 0x01]), None);
    // Of a number of more than 32 bits the low 32 count.
    assert_eq!(
        decode_chunk(&[0x10, 0x81, 0x80, 0x80, 0x80, 0x10]),
        Some(chunk(0, CompressedMethod::Lz4, 0))
    );
    let p = PChunk::decode(&[0x10u8, 0x81, 0x80, 0x80, 0x80, 0x10][..]).unwrap();
    assert_eq!(p.compressed_method, 1);
}

#[test]
fn of_a_field_that_comes_again_the_last_counts() {
    assert_eq!(
        decode_chunk(&[0x08, 0x05, 0x18, 0x07, 0x08, 0x06]),
        Some(chunk(6, CompressedMethod::Passthrough, 7))
    );
    assert_eq!(
        PChunk::decode(&[0x08u8, 0x05, 0x18, 0x07, 0x08, 0x06][..]).unwrap(),
        PChunk { compressed_length: 6, compressed_method: 0, original_length: 7 }
    );
    // A message that comes again is taken in on top of what was read.
    let mut bytes = Vec::new();
    put_bytes_field(&mut bytes, 7, &[0x08, 0x05]);
    put_bytes_field(&mut bytes, 2, &[0x08, 0x01]);
    put_bytes_field(&mut bytes, 7, &[0x10, 0x09]);
    put_bytes_field(&mut bytes, 2, &[0x18, 0x02]);
    put_bytes_field(&mut bytes, 1, b"/first");
    put_bytes_field(&mut bytes, 1, b"/second");
    let info = merge_info(empty_info(), &bytes).unwrap();
    assert_eq!(info.modified_time, Some(Timestamp { seconds: 5, nanos: 9 }));
    assert_eq!(
        info.chunks,
        vec![
            chunk(1, CompressedMethod::Passthrough, 0),
            chunk(0, CompressedMethod::Passthrough, 2)
        ]
    );
    assert_eq!(info.path, "/second");
    assert_eq!(p_info(&info), PInfo::decode(&bytes[..]).unwrap());
}

#[test]
fn a_field_that_the_record_does_not_name_is_passed_over() {
    let mut bytes = Vec::new();
    put_varint_field(&mut bytes, 1, 5);
    put_varint_field(&mut bytes, 9, 1234);
    put_bytes_field(&mut bytes, 10, b"whatever");
    bytes.extend_from_slice(&[0x5d, 1, 2, 3, 4]);
    bytes.extend_from_slice(&[0x61, 1, 2, 3, 4, 5, 6, 7, 8]);
    put_varint_field(&mut bytes, 3, 7);
    assert_eq!(decode_chunk(&bytes), Some(chunk(5, CompressedMethod::Passthrough, 7)));
    assert_eq!(
        PChunk::decode(&bytes[..]).unwrap(),
        PChunk { compressed_length: 5, compressed_method: 0, original_length: 7 }
    );
}

#[test]
fn a_field_of_another_kind_is_refused() {
    let mut bytes = Vec::new();
    put_bytes_field(&mut bytes, 1, b"ab");
    assert_eq!(decode_chunk(&bytes), None);
    assert!(PChunk::decode(&bytes[..]).is_err());
    let mut bytes = Vec::new();
    put_varint_field(&mut bytes, 1, 5);
    assert_eq!(merge_info(empty_info(), &bytes), None);
    assert!(PInfo::decode(&bytes[..]).is_err());
    assert_eq!(decode_entry(&bytes), None);
    assert_eq!(decode_index(&bytes), None);
    assert_eq!(merge_time(Timestamp { seconds: 0, nanos: 0 }, &[0x0a, 0x00]), None);
}

#[test]
fn a_path_that_is_not_utf8_is_refused() {
    let mut bytes = Vec::new();
    put_bytes_field(&mut bytes, 1, &[b'/', 0xff, 0xfe]);
    assert_eq!(merge_info(empty_info(), &bytes), None);
    assert!(PInfo::decode(&bytes[..]).is_err());
    let mut bytes = Vec::new();
    put_bytes_field(&mut bytes, 1, "/\u{e9}".as_bytes());
    assert_eq!(merge_info(empty_info(), &bytes).unwrap().path, "/\u{e9}");
    let mut bytes = Vec::new();
    put_bytes_field(&mut bytes, 1, &[b'/', 0xc3]);
    assert_eq!(merge_info(empty_info(), &bytes), None);
}

#[test]
fn a_message_that_is_cut_short_is_refused() {
    let entry = samples().remove(0);
    let bytes = encode_entry(&entry);
    for len in [bytes.len() - 1, bytes.len() / 2, 1] {
        assert_eq!(decode_entry(&bytes[..len]), None);
        assert!(PEntry::decode(&bytes[..len]).is_err());
    }
    assert_eq!(decode_chunk(&[0x08]), None);
    assert_eq!(decode_chunk(&[0x08, 0x80]), None);
    assert_eq!(decode_index(&[0x0a, 0x05, 0x0a]), None);
}

#[test]
fn fields_are_written_with_their_keys() {
    let mut bytes = Vec::new();
    put_varint_field(&mut bytes, 1, 0);
    assert_eq!(bytes, vec![0x08, 0x00]);
    let mut bytes = Vec::new();
    put_varint_field(&mut bytes, 2, 300);
    assert_eq!(bytes, vec![0x10, 0xac, 0x02]);
    let mut bytes = vec![0xaa];
    put_varint_field(&mut bytes, 16, u64::MAX);
    assert_eq!(
        bytes,
        vec![0xaa, 0x80, 0x01, 0xff, 0xff, 0xff, 0xff, 0xff, 0xff, 0xff, 0xff, 0xff, 0x01]
    );
    let mut bytes = Vec::new();
    put_bytes_field(&mut bytes, 4, b"abc");
    assert_eq!(bytes, vec![0x22, 0x03, b'a', b'b', b'c']);
    let mut bytes = Vec::new();
    put_bytes_field(&mut bytes, 0x1fff_ffff, &[]);
    assert_eq!(bytes, vec![0xfa, 0xff, 0xff, 0xff, 0x0f, 0x00]);
}

fn taken(bytes: &[u8]) -> Option<(u32, String, usize)> {
    take_field(bytes).map(|(tag, value, rest)| {
        let value = match value {
            Wire::Varint(v) => format!("varint {}", v),
            Wire::Fixed64(b) => format!("fixed64 {:?}", b),
            Wire::Bytes(b) => format!("bytes {:?}", b),
            Wire::Fixed32(b) => format!("fixed32 {:?}", b),
        };
        (tag, value, rest.len())
    })
}

#[test]
fn fields_are_read_with_their_keys() {
    assert_eq!(taken(&[0x10, 0xac, 0x02, 0x99]), Some((2, String::from("varint 300"), 1)));
    assert_eq!(
        taken(&[0x22, 0x03, b'a', b'b', b'c']),
        Some((4, String::from("bytes [97, 98, 99]"), 0))
    );
    assert_eq!(taken(&[0x22, 0x00]), Some((4, String::from("bytes []"), 0)));
    assert_eq!(
        taken(&[0x0d, 1, 2, 3, 4, 5]),
        Some((1, String::from("fixed32 [1, 2, 3, 4]"), 1))
    );
    assert_eq!(
        taken(&[0x09, 1, 2, 3, 4, 5, 6, 7, 8]),
        Some((1, String::from("fixed64 [1, 2, 3, 4, 5, 6, 7, 8]"), 0))
    );
    // A number may be written longer than it needs to be.
    assert_eq!(taken(&[0x88, 0x00, 0x81, 0x80, 0x00]), Some((1, String::from("varint 1"), 0)));
    assert_eq!(
        taken(&[0x08, 0xff, 0xff, 0xff, 0xff, 0xff, 0xff, 0xff, 0xff, 0xff, 0x01]),
        Some((1, format!("varint {}", u64::MAX), 0))
    );
}

#[test]
fn what_is_no_field_is_refused() {
    assert_eq!(taken(&[]), None);
    // The field 0.
    assert_eq!(taken(&[0x00, 0x00]), None);
    // A number that ends before its last byte.
    assert_eq!(taken(&[0x08, 0x80]), None);
    assert_eq!(taken(&[0x88]), None);
    // A number of more than 64 bits, and one of more than ten bytes.
    assert_eq!(taken(&[0x08, 0xff, 0xff, 0xff, 0xff, 0xff, 0xff, 0xff, 0xff, 0xff, 0x02]), None);
    assert_eq!(
        taken(&[0x08, 0x80, 0x80, 0x80, 0x80, 0x80, 0x80, 0x80, 0x80, 0x80, 0x80, 0x00]),
        None
    );
    // A key of more than 32 bits.
    assert_eq!(taken(&[0x80, 0x80, 0x80, 0x80, 0x10, 0x00]), None);
    // Bytes that are not all there.
    assert_eq!(taken(&[0x22, 0x03, b'a', b'b']), None);
    assert_eq!(taken(&[0x0d, 1, 2, 3]), None);
    assert_eq!(taken(&[0x09, 1, 2, 3, 4, 5, 6, 7]), None);
    // Groups, and kinds of value that are none.
    assert_eq!(taken(&[0x0b, 0x0c]), None);
    assert_eq!(taken(&[0x0c]), None);
    assert_eq!(taken(&[0x0e, 0x00]), None);
    assert_eq!(taken(&[0x0f, 0x00]), None);
}

fn numbers() -> Vec<u64> {
    let mut values: Vec<u64> = vec![0, 1, 127, 128, 129, 300, 16383, 16384, u64::MAX - 1, u64::MAX];
    let mut shift: u32 = 0;
    while shift < 64 {
        values.push(1u64 << shift);
        values.push((1u64 << shift) - 1);
        values.push((1u64 << shift) | 0x55);
        shift += 1;
    }
    values
}

#[test]
fn a_number_is_written_seven_bits_a_byte() {
    let mut out = vec![0xee];
    encode_varint(300, &mut out);
    assert_eq!(out, vec![0xee, 0xac, 0x02]);
    let mut out = Vec::new();
    encode_varint(0, &mut out);
    assert_eq!(out, vec![0x00]);
    let mut out = Vec::new();
    encode_varint(u64::MAX, &mut out);
    assert_eq!(out, vec![0xff, 0xff, 0xff, 0xff, 0xff, 0xff, 0xff, 0xff, 0xff, 0x01]);
}

#[test]
fn a_number_is_written_as_the_library_writes_it() {
    for value in numbers() {
        let mut ours = vec![7u8];
        encode_varint(value, &mut ours);
        let mut theirs = vec![7u8];
        prost::encoding::encode_varint(value, &mut theirs);
        assert_eq!(ours, theirs, "{}", value);
        assert_eq!(ours.len() - 1, prost::encoding::encoded_len_varint(value));
    }
}

#[test]
fn a_number_is_read_with_what_is_behind_it() {
    assert_eq!(decode_varint(&[0xac, 0x02, 0x09, 0x0a]), Some((300, &[0x09u8, 0x0a][..])));
    assert_eq!(decode_varint(&[0x00]), Some((0, &[][..])));
    assert_eq!(decode_varint(&[0x80, 0x00, 0x05]), Some((0, &[0x05u8][..])));
    for value in numbers() {
        let mut bytes = Vec::new();
        encode_varint(value, &mut bytes);
        let count = bytes.len();
        bytes.extend_from_slice(b"rest");
        assert_eq!(decode_varint(&bytes), Some((value, &b"rest"[..])), "{}", value);
        assert_eq!(decode_varint(&bytes[..count - 1]), None, "{}", value);
    }
}

#[test]
fn what_is_no_number_is_refused() {
    assert_eq!(decode_varint(&[]), None);
    assert_eq!(decode_varint(&[0x80]), None);
    assert_eq!(decode_varint(&[0xff, 0xff]), None);
    // Ten bytes, and the tenth holds more than one bit.
    assert_eq!(decode_varint(&[0xff, 0xff, 0xff, 0xff, 0xff, 0xff, 0xff, 0xff, 0xff, 0x02]), None);
    assert_eq!(decode_varint(&[0x80, 0x80, 0x80, 0x80, 0x80, 0x80, 0x80, 0x80, 0x80, 0x7f]), None);
    // Eleven bytes.
    assert_eq!(
        decode_varint(&[0x80, 0x80, 0x80, 0x80, 0x80, 0x80, 0x80, 0x80, 0x80, 0x80, 0x01]),
        None
    );
    assert_eq!(
        decode_varint(&[0x80, 0x80, 0x80, 0x80, 0x80, 0x80, 0x80, 0x80, 0x80, 0x01, 0x33]),
        Some((1u64 << 63, &[0x33u8][..]))
    );
}

fn read_by_the_library(bytes: &[u8]) -> Option<(u64, usize)> {
    let mut rest = bytes;
    match prost::encoding::decode_varint(&mut rest) {
        Ok(value) => Some((value, bytes.len() - rest.len())),
        Err(_) => None,
    }
}

#[test]
fn a_number_is_read_as_the_library_reads_it() {
    let mut cases: Vec<Vec<u8>> = vec![
        vec![],
        vec![0x80],
        vec![0x7f],
        vec![0x80, 0x00],
        vec![0xff, 0xff, 0xff, 0xff, 0xff, 0xff, 0xff, 0xff, 0xff, 0x01],
        vec![0xff, 0xff, 0xff, 0xff, 0xff, 0xff, 0xff, 0xff, 0xff, 0x02],
        vec![0xff, 0xff, 0xff, 0xff, 0xff, 0xff, 0xff, 0xff, 0xff, 0x81],
        vec![0xff, 0xff, 0xff, 0xff, 0xff, 0xff, 0xff, 0xff, 0xff, 0x80, 0x00],
        vec![0xff, 0xff, 0xff, 0xff, 0xff, 0xff, 0xff, 0xff, 0xff],
        vec![0x80, 0x80, 0x80, 0x80, 0x80, 0x80, 0x80, 0x80, 0x80, 0x00, 0x01, 0x02],
    ];
    for value in numbers() {
        let mut bytes = Vec::new();
        prost::encoding::encode_varint(value, &mut bytes);
        cases.push(bytes[..bytes.len() - 1].to_vec());
        let mut longer = bytes.clone();
        longer.extend_from_slice(&[0x91, 0x22, 0x03, 0x84, 0x85, 0x86, 0x87, 0x88, 0x89, 0x8a, 0x0b]);
        cases.push(longer);
        cases.push(bytes);
    }
    for bytes in cases {
        let ours = decode_varint(&bytes).map(|(value, rest)| (value, bytes.len() - rest.len()));
        assert_eq!(ours, read_by_the_library(&bytes), "{:?}", bytes);
    }
}
