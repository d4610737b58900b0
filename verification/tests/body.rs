use mar_archive::body::{assemble, pack_body, unpack, UnpackError};
use mar_archive::codec::CodecError;
use mar_archive::digest::checksums;
use mar_archive::model::{ChunkInfo, CompressedMethod, FileEntry, FileInfo};
use mar_archive::planner::Chunk;

fn text(len: usize) -> Vec<u8> {
    let mut data = Vec::with_capacity(len);
    let mut i: u32 = 0;
    while data.len() < len {
        data.extend_from_slice(format!("line {} of the file\n", i).as_bytes());
        i += 1;
    }
    data.truncate(len);
    data
}

fn info(compressed_length: u32, method: CompressedMethod, original_length: u32) -> ChunkInfo {
    ChunkInfo { compressed_length, compressed_method: method, original_length }
}

#[test]
fn a_packed_body_agrees_with_itself() {
    let data = text(300_000);
    let body = pack_body(&data).unwrap();
    let chunks = body.chunks();
    assert_eq!(chunks.len(), 1);
    assert_eq!(chunks[0].compressed_method, CompressedMethod::Zstandard);
    // The stored bytes are as long as the chunks together.
    let stored: u64 = chunks.iter().map(|c| c.compressed_length as u64).sum();
    assert_eq!(stored, body.bytes().len() as u64);
    // The chunks cover the file.
    let original: u64 = chunks.iter().map(|c| c.original_length as u64).sum();
    assert_eq!(original, data.len() as u64);
    // The checksums are those of the stored bytes, and of the file.
    assert_eq!(*body.chunks_checksums(), checksums(body.bytes()));
    assert_eq!(*body.original_checksums(), checksums(&data));
    // The body unpacks to the file.
    assert_eq!(unpack(chunks, body.bytes()).unwrap(), data);
}

#[test]
fn a_body_that_is_stored_as_it_is_has_the_length_of_the_file() {
    let body = pack_body(b"abcdefgh").unwrap();
    assert_eq!(body.chunks().clone(), vec![info(8, CompressedMethod::Passthrough, 8)]);
    assert_eq!(body.bytes().clone(), b"abcdefgh".to_vec());
    assert_eq!(unpack(body.chunks(), body.bytes()).unwrap(), b"abcdefgh".to_vec());
}

#[test]
fn an_empty_file_has_an_empty_body() {
    let body = pack_body(b"").unwrap();
    assert_eq!(body.chunks().clone(), vec![info(0, CompressedMethod::Passthrough, 0)]);
    assert!(body.bytes().is_empty());
    assert_eq!(*body.original_checksums(), checksums(b""));
    assert_eq!(unpack(body.chunks(), body.bytes()).unwrap(), Vec::<u8>::new());
}

#[test]
fn chunks_are_assembled_in_their_order() {
    let input = b"0123456789";
    let chunks = vec![
        Chunk {
            start: 0,
            original_size: 4,
            compressed: b"0123".to_vec(),
            compressed_method: CompressedMethod::Passthrough,
        },
        Chunk {
            start: 4,
            original_size: 6,
            compressed: b"456789".to_vec(),
            compressed_method: CompressedMethod::Passthrough,
        },
    ];
    let body = assemble(input, &chunks).ok().unwrap();
    assert_eq!(
        body.chunks().clone(),
        vec![
            info(4, CompressedMethod::Passthrough, 4),
            info(6, CompressedMethod::Passthrough, 6)
        ]
    );
    assert_eq!(body.bytes().clone(), input.to_vec());
    assert_eq!(*body.chunks_checksums(), checksums(input));
    assert_eq!(*body.original_checksums(), checksums(input));
}

#[test]
fn unpack_puts_the_chunks_one_after_the_other() {
    let first = text(50_000);
    let second = text(70_000);
    let frame = zstd::encode_all(&first[..], 5).unwrap();
    let block = lz4::block::compress(&second, None, false).unwrap();
    let mut stored = frame.clone();
    stored.extend_from_slice(&block);
    stored.extend_from_slice(b"tail");
    let chunks = vec![
        info(frame.len() as u32, CompressedMethod::Zstandard, first.len() as u32),
        info(block.len() as u32, CompressedMethod::Lz4, second.len() as u32),
        info(4, CompressedMethod::Passthrough, 4),
    ];
    let mut expected = first.clone();
    expected.extend_from_slice(&second);
    expected.extend_from_slice(b"tail");
    assert_eq!(unpack(&chunks, &stored).unwrap(), expected);
}

#[test]
fn unpack_refuses_a_body_of_another_length() {
    let chunks = vec![info(4, CompressedMethod::Passthrough, 4)];
    assert_eq!(unpack(&chunks, b"abc"), Err(UnpackError::LengthMismatch));
    assert_eq!(unpack(&chunks, b"abcde"), Err(UnpackError::LengthMismatch));
    assert_eq!(unpack(&chunks, b"abcd"), Ok(b"abcd".to_vec()));
    assert_eq!(unpack(&Vec::new(), b"x"), Err(UnpackError::LengthMismatch));
    assert_eq!(unpack(&Vec::new(), b""), Ok(Vec::new()));
}

#[test]
fn unpack_refuses_a_chunk_that_does_not_decompress() {
    let chunks = vec![info(4, CompressedMethod::Zstandard, 10)];
    assert_eq!(unpack(&chunks, b"abcd"), Err(UnpackError::Codec(CodecError::Zstandard)));
    let chunks = vec![info(4, CompressedMethod::Passthrough, 5)];
    assert_eq!(unpack(&chunks, b"abcd"), Err(UnpackError::Codec(CodecError::LengthMismatch)));
}

#[test]
fn unpack_fails_as_the_first_chunk_that_does_not_decompress() {
    let chunks = vec![
        info(2, CompressedMethod::Passthrough, 2),
        info(3, CompressedMethod::Lz4, 40),
        info(4, CompressedMethod::Zstandard, 10),
    ];
    assert_eq!(unpack(&chunks, b"ab\xff\xff\xffabcd"), Err(UnpackError::Codec(CodecError::Lz4)));
    let chunks = vec![
        info(4, CompressedMethod::Zstandard, 10),
        info(3, CompressedMethod::Lz4, 40),
        info(2, CompressedMethod::Passthrough, 3),
    ];
    assert_eq!(
        unpack(&chunks, b"abcd\xff\xff\xffab"),
        Err(UnpackError::Codec(CodecError::Zstandard))
    );
    // The lengths come first: nothing is decompressed from a body that is too long.
    assert_eq!(unpack(&chunks, b"abcd\xff\xff\xffabc"), Err(UnpackError::LengthMismatch));
}

#[test]
fn unpack_gives_back_what_was_packed() {
    let input = text(300_000);
    let body = pack_body(&input).unwrap();
    assert_eq!(unpack(body.chunks(), body.bytes()), Ok(input));
}

#[test]
fn an_entry_is_well_formed_where_its_lengths_agree() {
    let entry = |body_size, chunks| FileEntry {
        info: FileInfo {
            path: String::from("/a"),
            chunks,
            chunks_crc32: 0,
            chunks_sha256: Vec::new(),
            original_crc32: 0,
            original_sha256: Vec::new(),
            modified_time: None,
            priority: 0,
        },
        file_index: 0,
        body_offset: 0,
        body_size,
    };
    let chunks = vec![
        info(4, CompressedMethod::Passthrough, 4),
        info(6, CompressedMethod::Zstandard, 60),
    ];
    assert!(entry(10, chunks.clone()).is_wf());
    assert!(entry(10, chunks.clone()).has_stored_length());
    assert!(!entry(11, chunks.clone()).is_wf());
    assert!(!entry(9, chunks.clone()).has_stored_length());
    let uneven = vec![info(4, CompressedMethod::Passthrough, 5)];
    assert!(!entry(4, uneven.clone()).is_wf());
    assert!(entry(4, uneven).has_stored_length());
    assert!(entry(0, Vec::new()).is_wf());
    assert!(info(4, CompressedMethod::Passthrough, 4).is_wf());
    assert!(!info(4, CompressedMethod::Passthrough, 5).is_wf());
    assert!(info(4, CompressedMethod::Lz4, 5).is_wf());
}

#[test]
fn methods_have_their_numbers() {
    assert_eq!(CompressedMethod::Passthrough.code(), 0);
    assert_eq!(CompressedMethod::Lz4.code(), 1);
    assert_eq!(CompressedMethod::Zstandard.code(), 2);
    assert_eq!(CompressedMethod::from_code(0), Some(CompressedMethod::Passthrough));
    assert_eq!(CompressedMethod::from_code(1), Some(CompressedMethod::Lz4));
    assert_eq!(CompressedMethod::from_code(2), Some(CompressedMethod::Zstandard));
    assert_eq!(CompressedMethod::from_code(3), None);
}
