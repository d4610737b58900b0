use mar_archive::codec::decompress;
use mar_archive::model::CompressedMethod;
use mar_archive::planner::{
    compress_file, compress_file_lz4_first, keeps_grown, may_grow, single_chunk, tried_chunk,
    wants_chunking, Chunk, CHUNK_SIZE, COALESCE_BELOW, SMALL_CHUNK_SIZE, WHOLE_FILE_LIMIT,
};

const MIB: usize = 1024 * 1024;

fn noise(len: usize, seed: u64) -> Vec<u8> {
    let mut state = seed;
    let mut out = Vec::with_capacity(len);
    for _ in 0..len {
        state = state.wrapping_mul(6364136223846793005).wrapping_add(1442695040888963407);
        out.push((state >> 33) as u8);
    }
    out
}

fn restored(chunks: &[Chunk]) -> Vec<u8> {
    let mut out = Vec::new();
    for chunk in chunks {
        out.extend(
            decompress(chunk.compressed_method, &chunk.compressed, chunk.original_size as u32)
                .unwrap(),
        );
    }
    out
}

fn assert_tiles(chunks: &[Chunk], len: usize) {
    let mut at = 0;
    for chunk in chunks {
        assert_eq!(chunk.start, at);
        at += chunk.original_size;
        if chunk.compressed_method == CompressedMethod::Passthrough {
            assert_eq!(chunk.compressed.len(), chunk.original_size);
        }
    }
    assert_eq!(at, len);
}

#[test]
fn the_limits_are_what_they_are() {
    assert_eq!(CHUNK_SIZE, 4_194_304);
    assert_eq!(WHOLE_FILE_LIMIT, 8_388_608);
    assert_eq!(COALESCE_BELOW, 3_145_728);
    assert_eq!(SMALL_CHUNK_SIZE, 524_288);
}

#[test]
fn tiny_file_is_one_chunk_as_it_is() {
    let chunks = compress_file(b"abcdefgh").unwrap();
    assert_eq!(chunks.len(), 1);
    assert_eq!(chunks[0].start, 0);
    assert_eq!(chunks[0].original_size, 8);
    // A Zstandard frame of eight bytes is longer than eight bytes.
    assert!(zstd::encode_all(&b"abcdefgh"[..], 22).unwrap().len() >= 8);
    assert_eq!(chunks[0].compressed_method, CompressedMethod::Passthrough);
    assert_eq!(chunks[0].compressed, b"abcdefgh".to_vec());
}

#[test]
fn empty_file_is_one_empty_chunk() {
    let chunks = compress_file(b"").unwrap();
    assert_eq!(chunks.len(), 1);
    assert_eq!(chunks[0].original_size, 0);
    assert_eq!(chunks[0].compressed_method, CompressedMethod::Passthrough);
    assert!(chunks[0].compressed.is_empty());
}

#[test]
fn medium_file_is_one_zstandard_chunk() {
    let data = vec![0u8; MIB];
    let chunks = compress_file(&data).unwrap();
    assert_eq!(chunks.len(), 1);
    assert_eq!(chunks[0].compressed_method, CompressedMethod::Zstandard);
    assert_eq!(chunks[0].original_size, MIB);
    assert!(chunks[0].compressed.len() < 1024);
    assert_eq!(chunks[0].compressed, zstd::encode_all(&data[..], 22).unwrap());
    assert_eq!(zstd::decode_all(&chunks[0].compressed[..]).unwrap(), data);
}

#[test]
fn large_file_that_compresses_well_stays_whole() {
    let mut data = Vec::with_capacity(20 * MIB);
    while data.len() < 20 * MIB {
        data.extend_from_slice(b"abc");
    }
    let chunks = compress_file(&data).unwrap();
    assert_eq!(chunks.len(), 1);
    assert_eq!(chunks[0].compressed_method, CompressedMethod::Zstandard);
    assert_eq!(chunks[0].original_size, data.len());
    assert_eq!(restored(&chunks), data);
}

#[test]
fn large_file_that_does_not_compress_is_cut() {
    let data = noise(8 * MIB + 4096, 7);
    let chunks = compress_file(&data).unwrap();
    assert_eq!(chunks.len(), 3);
    assert_tiles(&chunks, data.len());
    assert_eq!(chunks[0].original_size, CHUNK_SIZE);
    assert_eq!(chunks[1].original_size, CHUNK_SIZE);
    assert_eq!(chunks[2].original_size, 4096);
    for chunk in &chunks {
        assert_eq!(chunk.compressed_method, CompressedMethod::Passthrough);
    }
    assert_eq!(restored(&chunks), data);
}

#[test]
fn a_stride_is_taken_into_a_chunk_that_compressed_well() {
    let mut data = noise(2 * CHUNK_SIZE, 11);
    data.extend(vec![0u8; 2 * CHUNK_SIZE + 100]);
    let chunks = compress_file(&data).unwrap();
    assert_tiles(&chunks, data.len());
    // The noise is stored as it is, stride by stride. The zeros behind it are
    // one chunk: the first stride of them compressed well, and so do all of
    // them together.
    assert_eq!(chunks.len(), 3);
    assert_eq!(chunks[0].compressed_method, CompressedMethod::Passthrough);
    assert_eq!(chunks[0].original_size, CHUNK_SIZE);
    assert_eq!(chunks[1].compressed_method, CompressedMethod::Passthrough);
    assert_eq!(chunks[1].original_size, CHUNK_SIZE);
    assert_eq!(chunks[2].compressed_method, CompressedMethod::Zstandard);
    assert_eq!(chunks[2].start, 2 * CHUNK_SIZE);
    assert_eq!(chunks[2].original_size, 2 * CHUNK_SIZE + 100);
    assert_eq!(chunks[2].compressed, zstd::encode_all(&data[2 * CHUNK_SIZE..], 22).unwrap());
    assert_eq!(restored(&chunks), data);
}

#[test]
fn a_file_is_cut_only_beyond_both_limits() {
    assert!(!wants_chunking(WHOLE_FILE_LIMIT, WHOLE_FILE_LIMIT + 1));
    assert!(!wants_chunking(WHOLE_FILE_LIMIT + 1, 2 * CHUNK_SIZE));
    assert!(wants_chunking(WHOLE_FILE_LIMIT + 1, 2 * CHUNK_SIZE + 1));
    assert!(!wants_chunking(0, 0));
    assert!(!wants_chunking(100 * MIB, 1000));
}

#[test]
fn a_whole_file_is_compressed_where_that_is_shorter() {
    let input = [1u8, 2, 3, 4, 5, 6];
    let chunk = single_chunk(&input, vec![9, 9, 9, 9, 9]);
    assert_eq!(chunk.compressed_method, CompressedMethod::Zstandard);
    assert_eq!(chunk.compressed, vec![9, 9, 9, 9, 9]);
    assert_eq!((chunk.start, chunk.original_size), (0, 6));
    let chunk = single_chunk(&input, vec![9, 9, 9, 9, 9, 9]);
    assert_eq!(chunk.compressed_method, CompressedMethod::Passthrough);
    assert_eq!(chunk.compressed, input.to_vec());
    assert_eq!((chunk.start, chunk.original_size), (0, 6));
}

#[test]
fn a_stride_is_compressed_below_three_quarters() {
    // 10 / 4 * 3 is 6.
    let raw = [7u8; 10];
    let chunk = tried_chunk(40, CompressedMethod::Zstandard, &raw, vec![1; 5]);
    assert_eq!(chunk.compressed_method, CompressedMethod::Zstandard);
    assert_eq!(chunk.compressed, vec![1; 5]);
    assert_eq!((chunk.start, chunk.original_size), (40, 10));
    let chunk = tried_chunk(40, CompressedMethod::Zstandard, &raw, vec![1; 6]);
    assert_eq!(chunk.compressed_method, CompressedMethod::Passthrough);
    assert_eq!(chunk.compressed, raw.to_vec());
    assert_eq!((chunk.start, chunk.original_size), (40, 10));
    // 11 / 4 * 3 is 6 too: the quarter is rounded down first.
    let raw = [7u8; 11];
    let method = |tried| tried_chunk(0, CompressedMethod::Lz4, &raw, tried).compressed_method;
    assert_eq!(method(vec![1; 6]), CompressedMethod::Passthrough);
    assert_eq!(method(vec![1; 5]), CompressedMethod::Lz4);
}

#[test]
fn with_lz4_first_a_small_file_is_one_block() {
    let data = b"small files are read often ".repeat(1000);
    let chunks = compress_file_lz4_first(&data).unwrap();
    assert_eq!(chunks.len(), 1);
    assert_eq!(chunks[0].compressed_method, CompressedMethod::Lz4);
    assert_eq!((chunks[0].start, chunks[0].original_size), (0, data.len()));
    assert_eq!(
        lz4::block::decompress(&chunks[0].compressed, Some(data.len() as i32)).unwrap(),
        data
    );
    assert_eq!(restored(&chunks), data);
}

#[test]
fn with_lz4_first_a_small_file_that_does_not_compress_is_stored_as_it_is() {
    let chunks = compress_file_lz4_first(b"abcdefgh").unwrap();
    assert_eq!(chunks.len(), 1);
    assert_eq!(chunks[0].compressed_method, CompressedMethod::Passthrough);
    assert_eq!(chunks[0].compressed, b"abcdefgh".to_vec());
    let chunks = compress_file_lz4_first(b"").unwrap();
    assert_eq!(chunks.len(), 1);
    assert_eq!(chunks[0].compressed_method, CompressedMethod::Passthrough);
    assert_eq!(chunks[0].original_size, 0);
}

#[test]
fn with_lz4_first_a_medium_file_is_one_zstandard_chunk() {
    let data = vec![0u8; SMALL_CHUNK_SIZE + 1];
    let chunks = compress_file_lz4_first(&data).unwrap();
    assert_eq!(chunks.len(), 1);
    assert_eq!(chunks[0].compressed_method, CompressedMethod::Zstandard);
    assert_eq!(chunks[0].compressed, zstd::encode_all(&data[..], 22).unwrap());
}

#[test]
fn with_lz4_first_a_large_file_is_cut_into_small_strides() {
    let data = vec![3u8; WHOLE_FILE_LIMIT + 100];
    let chunks = compress_file_lz4_first(&data).unwrap();
    assert_eq!(chunks.len(), 17);
    assert_tiles(&chunks, data.len());
    assert_eq!(chunks[0].compressed_method, CompressedMethod::Lz4);
    for chunk in &chunks[1..] {
        assert_eq!(chunk.compressed_method, CompressedMethod::Zstandard);
    }
    for chunk in &chunks[..16] {
        assert_eq!(chunk.original_size, SMALL_CHUNK_SIZE);
    }
    assert_eq!(chunks[16].original_size, 100);
    assert_eq!(restored(&chunks), data);
}

#[test]
fn a_chunk_grows_only_where_it_compressed_well() {
    let chunk = |method, len| Chunk {
        start: 0,
        original_size: CHUNK_SIZE,
        compressed: vec![0; len],
        compressed_method: method,
    };
    assert!(may_grow(&chunk(CompressedMethod::Zstandard, COALESCE_BELOW - 1)));
    assert!(!may_grow(&chunk(CompressedMethod::Zstandard, COALESCE_BELOW)));
    assert!(may_grow(&chunk(CompressedMethod::Lz4, 10)));
    assert!(!may_grow(&chunk(CompressedMethod::Passthrough, 10)));
    assert!(keeps_grown(CHUNK_SIZE - 1));
    assert!(!keeps_grown(CHUNK_SIZE));
}
