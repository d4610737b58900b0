//! The three ways a chunk can be stored: as it is, as one LZ4 block, or as one
//! Zstandard frame. The codecs keep no state between calls.

use vstd::prelude::*;
use vstd::slice::slice_to_vec;
use crate::model::CompressedMethod;

verus! {

/// The Zstandard level that every frame of an archive is written with.
pub const ZSTD_LEVEL: i32 = 22;

/// The LZ4 high-compression level that every block of an archive is written with.
pub const LZ4_LEVEL: i32 = 12;

/// `std::io::Error`, the error that the compression libraries report. Nothing
/// is known of it here.
#[verifier::external_type_specification]
#[verifier::external_body]
pub struct ExIoError(std::io::Error);

/// What `zstd::encode_all` makes of `src` at `level`: the Zstandard frame, or
/// `None` where it fails.
pub uninterp spec fn zstd_frame(src: Seq<u8>, level: int) -> Option<Seq<u8>>;

/// What `zstd::decode_all` finds in `frame`: the content, or `None` where it
/// fails.
pub uninterp spec fn zstd_content(frame: Seq<u8>) -> Option<Seq<u8>>;

/// What `lz4::block::compress` makes of `src` in high-compression mode at
/// `level`, without a size in front: the LZ4 block, or `None` where it fails.
pub uninterp spec fn lz4_block(src: Seq<u8>, level: int) -> Option<Seq<u8>>;

/// What `lz4::block::decompress` finds in `block` when it is told that the
/// content has `size` bytes: the content, or `None` where it fails.
pub uninterp spec fn lz4_content(block: Seq<u8>, size: int) -> Option<Seq<u8>>;

/// Calls `zstd::encode_all` on `src`. Claimed of it: what it returns, a frame
/// or a failure, is a function of the input and the level alone, and the
/// content of a frame that it returns is `src`.
#[verifier::external_body]
fn zstd_encode_all(src: &[u8], level: i32) -> (r: Result<Vec<u8>, std::io::Error>)
    ensures
        match r {
            Ok(frame) => zstd_frame(src@, level as int) == Some(frame@) && zstd_content(frame@)
                == Some(src@),
            Err(_) => zstd_frame(src@, level as int) is None,
        },
{
    zstd::encode_all(src, level)
}

/// Calls `zstd::decode_all` on `frame`. Claimed of it: what it returns, the
/// content or a failure, is a function of the bytes of `frame` alone.
#[verifier::external_body]
fn zstd_decode_all(frame: &[u8]) -> (r: Result<Vec<u8>, std::io::Error>)
    ensures
        match r {
            Ok(content) => zstd_content(frame@) == Some(content@),
            Err(_) => zstd_content(frame@) is None,
        },
{
    zstd::decode_all(frame)
}

/// Calls `lz4::block::compress` on `src`, in high-compression mode at `level`
/// and without a size in front. Claimed of it: what it returns, a block or a
/// failure, is a function of the input and the level alone, and the content
/// of a block that it returns, asked for with the length of `src`, is `src`.
/// It is not called on an empty input, on which the library under it does
/// not return.
#[verifier::external_body]
fn lz4_compress_hc(src: &[u8], level: i32) -> (r: Result<Vec<u8>, std::io::Error>)
    requires
        src@.len() > 0,
    ensures
        match r {
            Ok(block) => lz4_block(src@, level as int) == Some(block@) && lz4_content(
                block@,
                src@.len() as int,
            ) == Some(src@),
            Err(_) => lz4_block(src@, level as int) is None,
        },
{
    lz4::block::compress(src, Some(lz4::block::CompressionMode::HIGHCOMPRESSION(level)), false)
}

/// Calls `lz4::block::decompress` on `block`, telling it that the content has
/// `size` bytes. Claimed of it: what it returns, the content or a failure, is
/// a function of the bytes of `block` and of `size` alone.
#[verifier::external_body]
fn lz4_decompress(block: &[u8], size: i32) -> (r: Result<Vec<u8>, std::io::Error>)
    ensures
        match r {
            Ok(content) => lz4_content(block@, size as int) == Some(content@),
            Err(_) => lz4_content(block@, size as int) is None,
        },
{
    lz4::block::decompress(block, Some(size))
}

/// Why a chunk could not be compressed or decompressed.
#[derive(Clone, Copy, Debug, PartialEq, Eq, Structural)]
pub enum CodecError {
    /// The Zstandard library reported an error.
    Zstandard,
    /// The LZ4 library reported an error, or was not asked: it makes no block
    /// of an empty input or of more than `i32::MAX` bytes, and finds no
    /// content of more than `i32::MAX` bytes.
    Lz4,
    /// The content of a chunk is not as long as its record says.
    LengthMismatch,
}

/// The bytes that are stored for `raw` under `method`; `None` where the
/// library of `method` makes none. The LZ4 library is asked for inputs of 1
/// to `i32::MAX` bytes only.
pub open spec fn stored_form(method: CompressedMethod, raw: Seq<u8>) -> Option<Seq<u8>> {
    match method {
        CompressedMethod::Passthrough => Some(raw),
        CompressedMethod::Lz4 => if 0 < raw.len() <= i32::MAX {
            lz4_block(raw, LZ4_LEVEL as int)
        } else {
            None
        },
        CompressedMethod::Zstandard => zstd_frame(raw, ZSTD_LEVEL as int),
    }
}

/// The content of `stored` under `method`, for a chunk that is recorded as
/// `original_length` bytes long once decompressed; `None` where the library
/// of `method` finds none. The LZ4 library is asked for no more than
/// `i32::MAX` bytes.
pub open spec fn content_of(
    method: CompressedMethod,
    stored: Seq<u8>,
    original_length: int,
) -> Option<Seq<u8>> {
    match method {
        CompressedMethod::Passthrough => Some(stored),
        CompressedMethod::Lz4 => if original_length <= i32::MAX {
            lz4_content(stored, original_length)
        } else {
            None
        },
        CompressedMethod::Zstandard => zstd_content(stored),
    }
}

/// The bytes that `stored` stands for under `method`, for a chunk that is
/// `original_length` bytes long once decompressed: its content, where that
/// is as long as recorded.
pub open spec fn original_form(
    method: CompressedMethod,
    stored: Seq<u8>,
    original_length: int,
) -> Option<Seq<u8>> {
    match content_of(method, stored, original_length) {
        Some(bytes) => if bytes.len() == original_length {
            Some(bytes)
        } else {
            None
        },
        None => None,
    }
}

/// The error that stands for a failure of the library of `method`.
pub open spec fn failure_of(method: CompressedMethod) -> CodecError {
    match method {
        CompressedMethod::Passthrough => CodecError::LengthMismatch,
        CompressedMethod::Lz4 => CodecError::Lz4,
        CompressedMethod::Zstandard => CodecError::Zstandard,
    }
}

/// What `decompress` makes of `stored`: the content where there is content of
/// the recorded length, `LengthMismatch` where the content has another
/// length, and the failure of the library where there is no content.
pub open spec fn decompressed(
    method: CompressedMethod,
    stored: Seq<u8>,
    original_length: int,
) -> Result<Seq<u8>, CodecError> {
    match content_of(method, stored, original_length) {
        Some(bytes) => if bytes.len() == original_length {
            Ok(bytes)
        } else {
            Err(CodecError::LengthMismatch)
        },
        None => Err(failure_of(method)),
    }
}

/// Compresses `src` into one Zstandard frame at level 22.
///
/// Succeeds exactly where the library makes a frame of `src`; the frame that
/// comes back is that frame, and its content is `src`.
pub fn compress_zstd(src: &[u8]) -> (r: Result<Vec<u8>, CodecError>)
    ensures
        match stored_form(CompressedMethod::Zstandard, src@) {
            Some(frame) => r matches Ok(made) && made@ == frame && original_form(
                CompressedMethod::Zstandard,
                frame,
                src@.len() as int,
            ) == Some(src@),
            None => r == Err::<Vec<u8>, CodecError>(CodecError::Zstandard),
        },
{
    match zstd_encode_all(src, ZSTD_LEVEL) {
        Ok(frame) => Ok(frame),
        Err(_) => Err(CodecError::Zstandard),
    }
}

/// The content of the Zstandard frame `frame`.
///
/// Succeeds exactly where the library finds content in `frame`; the bytes
/// that come back are that content.
pub fn decompress_zstd(frame: &[u8]) -> (r: Result<Vec<u8>, CodecError>)
    ensures
        match zstd_content(frame@) {
            Some(content) => r matches Ok(found) && found@ == content,
            None => r == Err::<Vec<u8>, CodecError>(CodecError::Zstandard),
        },
{
    match zstd_decode_all(frame) {
        Ok(content) => Ok(content),
        Err(_) => Err(CodecError::Zstandard),
    }
}

/// Compresses `src` into one LZ4 block, in high-compression mode at level 12
/// and without a size in front.
///
/// Succeeds exactly where the library makes a block of `src`; it is not
/// asked for an empty input or for more than `i32::MAX` bytes. The block that
/// comes back is that block, and its content is `src`.
pub fn compress_lz4(src: &[u8]) -> (r: Result<Vec<u8>, CodecError>)
    ensures
        match stored_form(CompressedMethod::Lz4, src@) {
            Some(block) => r matches Ok(made) && made@ == block && original_form(
                CompressedMethod::Lz4,
                block,
                src@.len() as int,
            ) == Some(src@),
            None => r == Err::<Vec<u8>, CodecError>(CodecError::Lz4),
        },
{
    if src.len() == 0 || src.len() > i32::MAX as usize {
        return Err(CodecError::Lz4);
    }
    match lz4_compress_hc(src, LZ4_LEVEL) {
        Ok(block) => Ok(block),
        Err(_) => Err(CodecError::Lz4),
    }
}

/// Hands `src` back: a chunk that is stored as it is costs nothing.
pub fn passthrough<'a>(src: &'a [u8]) -> (r: Result<&'a [u8], CodecError>)
    ensures
        r == Ok::<&[u8], CodecError>(src),
        stored_form(CompressedMethod::Passthrough, src@) == Some(src@),
{
    Ok(src)
}

/// The bytes to store for `src` under `method`.
///
/// Succeeds exactly where there is a stored form of `src` under `method`;
/// what comes back is that form, and it stands for `src`.
pub fn compress(method: CompressedMethod, src: &[u8]) -> (r: Result<Vec<u8>, CodecError>)
    ensures
        match stored_form(method, src@) {
            Some(stored) => r matches Ok(made) && made@ == stored && original_form(
                method,
                stored,
                src@.len() as int,
            ) == Some(src@),
            None => r == Err::<Vec<u8>, CodecError>(failure_of(method)),
        },
{
    match method {
        CompressedMethod::Passthrough => Ok(slice_to_vec(src)),
        CompressedMethod::Lz4 => compress_lz4(src),
        CompressedMethod::Zstandard => compress_zstd(src),
    }
}

/// What is left of the outcome of a decompression once the length is held
/// against `original_length`: the content where it is that long, and
/// `LengthMismatch` where it is not. No content is a failure of the library
/// of `method`.
pub fn checked_content(
    method: CompressedMethod,
    outcome: Option<Vec<u8>>,
    original_length: u32,
) -> (r: Result<Vec<u8>, CodecError>)
    ensures
        match outcome {
            Some(content) => if content@.len() == original_length {
                r == Ok::<Vec<u8>, CodecError>(content)
            } else {
                r == Err::<Vec<u8>, CodecError>(CodecError::LengthMismatch)
            },
            None => r == Err::<Vec<u8>, CodecError>(failure_of(method)),
        },
{
    match outcome {
        Some(content) => if content.len() == original_length as usize {
            Ok(content)
        } else {
            Err(CodecError::LengthMismatch)
        },
        None => Err(
            match method {
                CompressedMethod::Passthrough => CodecError::LengthMismatch,
                CompressedMethod::Lz4 => CodecError::Lz4,
                CompressedMethod::Zstandard => CodecError::Zstandard,
            },
        ),
    }
}

/// The bytes that `stored` stands for under `method`, for a chunk that is
/// `original_length` bytes long once decompressed.
///
/// Succeeds exactly where `stored` has content of that length. Content of
/// another length gives `LengthMismatch`, no content the failure of the
/// library. The LZ4 library is not asked for more than `i32::MAX` bytes.
pub fn decompress(method: CompressedMethod, stored: &[u8], original_length: u32) -> (r: Result<
    Vec<u8>,
    CodecError,
>)
    ensures
        match decompressed(method, stored@, original_length as int) {
            Ok(content) => r matches Ok(found) && found@ == content,
            Err(e) => r matches Err(x) && x == e,
        },
        r matches Ok(found) ==> original_form(method, stored@, original_length as int) == Some(
            found@,
        ),
{
    let outcome = match method {
        CompressedMethod::Passthrough => Some(slice_to_vec(stored)),
        CompressedMethod::Lz4 => {
            if original_length > i32::MAX as u32 {
                None
            } else {
                match lz4_decompress(stored, original_length as i32) {
                    Ok(content) => Some(content),
                    Err(_) => None,
                }
            }
        },
        CompressedMethod::Zstandard => match zstd_decode_all(stored) {
            Ok(content) => Some(content),
            Err(_) => None,
        },
    };
    checked_content(method, outcome, original_length)
}

} // verus!
