use std::io::Write;

use mar_archive::codec::{
    checked_content, compress, compress_lz4, compress_zstd, decompress, decompress_zstd,
    passthrough, CodecError,
};
use mar_archive::digest::{checksums, matches_checksums};
use mar_archive::model::CompressedMethod;

fn sample() -> Vec<u8> {
    let mut data = Vec::new();
    for i in 0..20_000u32 {
        data.extend_from_slice(b"the quick brown fox ");
        data.push((i % 7) as u8);
    }
    data
}

#[test]
fn zstd_frame_is_a_real_frame() {
    let data = sample();
    let frame = compress_zstd(&data).unwrap();
    assert!(frame.len() < data.len());
    assert_ne!(frame, data);
    // The magic number of a Zstandard frame.
    assert_eq!(&frame[..4], &[0x28, 0xb5, 0x2f, 0xfd]);
    assert_eq!(zstd::decode_all(&frame[..]).unwrap(), data);
}

#[test]
fn zstd_frame_is_the_same_every_time() {
    let data = sample();
    assert_eq!(compress_zstd(&data).unwrap(), compress_zstd(&data).unwrap());
    assert_eq!(compress_zstd(&data).unwrap(), zstd::encode_all(&data[..], 22).unwrap());
}

#[test]
fn zstd_frame_is_the_one_that_an_encoder_writes() {
    for len in [0usize, 1, 1000, 200_000, 1_500_000] {
        let data: Vec<u8> = sample().into_iter().cycle().take(len).collect();
        let mut encoder = zstd::Encoder::new(Vec::new(), 22).unwrap();
        encoder.write_all(&data).unwrap();
        let written = encoder.finish().unwrap();
        assert_eq!(compress_zstd(&data).unwrap(), written);
    }
}

#[test]
fn zstd_content_comes_back() {
    let data = sample();
    let frame = zstd::encode_all(&data[..], 3).unwrap();
    assert_eq!(decompress_zstd(&frame).unwrap(), data);
    assert_eq!(decompress(CompressedMethod::Zstandard, &frame, data.len() as u32).unwrap(), data);
}

#[test]
fn zstd_refuses_what_is_no_frame() {
    assert_eq!(decompress_zstd(b"this is no frame at all"), Err(CodecError::Zstandard));
    assert_eq!(
        decompress(CompressedMethod::Zstandard, b"this is no frame at all", 23),
        Err(CodecError::Zstandard)
    );
}

#[test]
fn zstd_content_of_another_length_is_refused() {
    let data = sample();
    let frame = compress_zstd(&data).unwrap();
    assert_eq!(
        decompress(CompressedMethod::Zstandard, &frame, data.len() as u32 + 1),
        Err(CodecError::LengthMismatch)
    );
    let block = compress_lz4(&data).unwrap();
    assert_eq!(
        decompress(CompressedMethod::Lz4, &block, data.len() as u32 + 1),
        Err(CodecError::LengthMismatch)
    );
    assert_eq!(
        decompress(CompressedMethod::Lz4, &block, data.len() as u32 - 1),
        Err(CodecError::Lz4)
    );
}

#[test]
fn lz4_block_is_a_real_block() {
    let data = sample();
    let block = compress_lz4(&data).unwrap();
    assert!(block.len() < data.len());
    assert_ne!(block, data);
    assert_eq!(lz4::block::decompress(&block, Some(data.len() as i32)).unwrap(), data);
    assert_eq!(
        block,
        lz4::block::compress(&data, Some(lz4::block::CompressionMode::HIGHCOMPRESSION(12)), false)
            .unwrap()
    );
}

#[test]
fn no_bytes_are_no_trouble() {
    let lz4 = decompress(CompressedMethod::Lz4, b"", 0);
    assert!(lz4 == Ok(Vec::new()) || lz4 == Err(CodecError::Lz4));
    assert_eq!(decompress(CompressedMethod::Lz4, b"", 5), Err(CodecError::Lz4));
    let zstd = decompress_zstd(b"");
    assert!(zstd == Ok(Vec::new()) || zstd == Err(CodecError::Zstandard));
    let zstd = decompress(CompressedMethod::Zstandard, b"", 5);
    assert!(zstd == Err(CodecError::LengthMismatch) || zstd == Err(CodecError::Zstandard));
}

#[test]
fn lz4_takes_short_inputs() {
    for len in 1..=70usize {
        let data: Vec<u8> = (0..len).map(|i| (i * 37 % 11) as u8).collect();
        let block = compress_lz4(&data).unwrap();
        assert_eq!(decompress(CompressedMethod::Lz4, &block, len as u32).unwrap(), data);
        let same = vec![b'a'; len];
        let block = compress_lz4(&same).unwrap();
        assert_eq!(decompress(CompressedMethod::Lz4, &block, len as u32).unwrap(), same);
    }
}

#[test]
fn lz4_content_comes_back() {
    let data = sample();
    let block = lz4::block::compress(&data, None, false).unwrap();
    assert_eq!(decompress(CompressedMethod::Lz4, &block, data.len() as u32).unwrap(), data);
}

#[test]
fn lz4_refuses_what_is_no_block() {
    assert_eq!(
        decompress(CompressedMethod::Lz4, &[0xff, 0xff, 0xff, 0xff, 0xff], 1000),
        Err(CodecError::Lz4)
    );
    assert_eq!(decompress(CompressedMethod::Lz4, b"abc", u32::MAX), Err(CodecError::Lz4));
}

#[test]
fn passthrough_hands_the_same_bytes_back() {
    let data = sample();
    let same = passthrough(&data).unwrap();
    assert_eq!(same, &data[..]);
    assert_eq!(same.as_ptr(), data.as_ptr());
    assert_eq!(compress(CompressedMethod::Passthrough, &data).unwrap(), data);
    assert_eq!(decompress(CompressedMethod::Passthrough, &data, data.len() as u32).unwrap(), data);
}

#[test]
fn passthrough_of_another_length_is_refused() {
    assert_eq!(
        decompress(CompressedMethod::Passthrough, b"abc", 4),
        Err(CodecError::LengthMismatch)
    );
    assert_eq!(decompress(CompressedMethod::Passthrough, b"", 0).unwrap(), Vec::<u8>::new());
}

#[test]
fn every_codec_round_trips() {
    let data = sample();
    for method in
        [CompressedMethod::Passthrough, CompressedMethod::Lz4, CompressedMethod::Zstandard]
    {
        let stored = compress(method, &data).unwrap();
        assert_eq!(decompress(method, &stored, data.len() as u32).unwrap(), data);
    }
}

#[test]
fn empty_input_round_trips() {
    for method in [CompressedMethod::Passthrough, CompressedMethod::Zstandard] {
        let stored = compress(method, b"").unwrap();
        assert_eq!(decompress(method, &stored, 0).unwrap(), Vec::<u8>::new());
    }
}

#[test]
fn lz4_has_no_block_for_an_empty_input() {
    assert_eq!(compress_lz4(b""), Err(CodecError::Lz4));
    assert_eq!(compress(CompressedMethod::Lz4, b""), Err(CodecError::Lz4));
    // The block that other writers make of an empty input is read.
    assert_eq!(decompress(CompressedMethod::Lz4, &[0], 0).unwrap(), Vec::<u8>::new());
}

#[test]
fn checked_content_holds_the_length_against_the_record() {
    assert_eq!(
        checked_content(CompressedMethod::Zstandard, Some(vec![1, 2, 3]), 3),
        Ok(vec![1, 2, 3])
    );
    assert_eq!(
        checked_content(CompressedMethod::Zstandard, Some(vec![1, 2, 3]), 2),
        Err(CodecError::LengthMismatch)
    );
    assert_eq!(
        checked_content(CompressedMethod::Lz4, Some(vec![1]), 2),
        Err(CodecError::LengthMismatch)
    );
    assert_eq!(checked_content(CompressedMethod::Lz4, None, 0), Err(CodecError::Lz4));
    assert_eq!(checked_content(CompressedMethod::Zstandard, None, 0), Err(CodecError::Zstandard));
    assert_eq!(
        checked_content(CompressedMethod::Passthrough, None, 0),
        Err(CodecError::LengthMismatch)
    );
}

#[test]
fn crc32_is_the_ieee_checksum() {
    assert_eq!(checksums(b"123456789").crc32, 0xcbf4_3926);
    assert_eq!(checksums(b"").crc32, 0);
}

#[test]
fn sha256_is_the_fips_digest() {
    let abc = checksums(b"abc").sha256;
    let expected: [u8; 32] = [
        0xba, 0x78, 0x16, 0xbf, 0x8f, 0x01, 0xcf, 0xea, 0x41, 0x41, 0x40, 0xde, 0x5d, 0xae, 0x22,
        0x23, 0xb0, 0x03, 0x61, 0xa3, 0x96, 0x17, 0x7a, 0x9c, 0xb4, 0x10, 0xff, 0x61, 0xf2, 0x00,
        0x15, 0xad,
    ];
    assert_eq!(abc, expected.to_vec());
    let empty = checksums(b"").sha256;
    assert_eq!(empty.len(), 32);
    assert_eq!(&empty[..4], &[0xe3, 0xb0, 0xc4, 0x42]);
}

#[test]
fn checksums_are_told_apart() {
    let sums = checksums(b"abc");
    assert!(matches_checksums(b"abc", sums.crc32, &sums.sha256));
    assert!(!matches_checksums(b"abd", sums.crc32, &sums.sha256));
    assert!(!matches_checksums(b"abc", sums.crc32 + 1, &sums.sha256));
    let mut other = sums.sha256.clone();
    other[0] ^= 1;
    assert!(!matches_checksums(b"abc", sums.crc32, &other));
}
