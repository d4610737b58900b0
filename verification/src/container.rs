//! The container of an index file: four bytes that name the format, the
//! lengths of the compressed and of the plain message as big-endian numbers,
//! and the message as one Zstandard frame.

use vstd::prelude::*;
use vstd::slice::slice_subrange;
use crate::bytes::append_bytes;
use crate::codec::{compress_zstd, original_form, stored_form, CodecError};
use crate::model::CompressedMethod;

verus! {

/// How many bytes stand before the frame.
pub const HEADER_LENGTH: usize = 12;

/// The four bytes at the start of every index file: `MARI`.
pub open spec fn magic() -> Seq<u8> {
    seq![0x4d, 0x41, 0x52, 0x49]
}

/// The four bytes of `value`, the most significant first.
pub open spec fn be32(value: u32) -> Seq<u8> {
    seq![
        (value / 0x100_0000) as u8,
        (value / 0x1_0000 % 0x100) as u8,
        (value / 0x100 % 0x100) as u8,
        (value % 0x100) as u8,
    ]
}

/// The number that the four bytes of `bytes` from `at` on stand for, the most
/// significant first.
pub open spec fn from_be32(bytes: Seq<u8>, at: int) -> int {
    bytes[at] * 0x100_0000 + bytes[at + 1] * 0x1_0000 + bytes[at + 2] * 0x100 + bytes[at + 3]
}

/// The index file that holds `frame` as the compressed form of a message of
/// `raw_length` bytes.
pub open spec fn container(frame: Seq<u8>, raw_length: u32) -> Seq<u8> {
    magic() + be32(frame.len() as u32) + be32(raw_length) + frame
}

/// Why an index file could not be read or written.
#[derive(Clone, Copy, Debug, PartialEq, Eq, Structural)]
pub enum IndexError {
    /// The file ends before its header, or before the frame that the header
    /// announces.
    Truncated,
    /// The file does not start with `MARI`.
    BadMagic,
    /// The frame could not be decompressed, or the message not compressed.
    Codec(CodecError),
    /// The message is not as long as the header says.
    LengthMismatch,
    /// The message is no index.
    Malformed,
    /// The message, or its frame, is longer than the header can say.
    TooLarge,
}

/// The frame of the index file `input` and the length that its header
/// announces for the message, or the reason why `input` has none: it is
/// shorter than a header, does not start with `MARI`, or ends before its
/// frame does.
pub open spec fn unsealed(input: Seq<u8>) -> Result<(Seq<u8>, u32), IndexError> {
    if input.len() < 4 {
        Err(IndexError::Truncated)
    } else if input.take(4) != magic() {
        Err(IndexError::BadMagic)
    } else if input.len() < HEADER_LENGTH {
        Err(IndexError::Truncated)
    } else if input.len() - HEADER_LENGTH < from_be32(input, 4) {
        Err(IndexError::Truncated)
    } else {
        Ok(
            (
                input.subrange(HEADER_LENGTH as int, HEADER_LENGTH + from_be32(input, 4)),
                from_be32(input, 8) as u32,
            ),
        )
    }
}

/// Four bytes stand for the number that they were made of.
proof fn lemma_be32_value(value: u32)
    ensures
        from_be32(be32(value), 0) == value,
{
    let b0 = value / 0x100_0000;
    let b1 = value / 0x1_0000 % 0x100;
    let b2 = value / 0x100 % 0x100;
    let b3 = value % 0x100;
    assert(b0 * 0x100_0000 + b1 * 0x1_0000 + b2 * 0x100 + b3 == value) by (bit_vector)
        requires
            b0 == value / 0x100_0000,
            b1 == value / 0x1_0000 % 0x100,
            b2 == value / 0x100 % 0x100,
            b3 == value % 0x100,
    ;
}

/// A container gives back what was put into it.
pub proof fn lemma_container_unseals(frame: Seq<u8>, raw_length: u32)
    requires
        frame.len() <= u32::MAX,
    ensures
        unsealed(container(frame, raw_length)) == Ok::<(Seq<u8>, u32), IndexError>(
            (frame, raw_length),
        ),
{
    let file = container(frame, raw_length);
    let length = frame.len() as u32;
    assert(file.len() == HEADER_LENGTH + frame.len());
    assert(file.take(4) == magic());
    assert(from_be32(file, 4) == length) by {
        lemma_be32_value(length);
        assert(file[4] == be32(length)[0] && file[5] == be32(length)[1] && file[6] == be32(
            length,
        )[2] && file[7] == be32(length)[3]);
    }
    assert(from_be32(file, 8) == raw_length) by {
        lemma_be32_value(raw_length);
        assert(file[8] == be32(raw_length)[0] && file[9] == be32(raw_length)[1] && file[10]
            == be32(raw_length)[2] && file[11] == be32(raw_length)[3]);
    }
    assert(file.subrange(HEADER_LENGTH as int, HEADER_LENGTH + length) == frame);
}

/// Puts the four bytes of `value` at the end of `bytes`, the most significant
/// first.
fn put_be32(bytes: &mut Vec<u8>, value: u32)
    ensures
        final(bytes)@ == old(bytes)@ + be32(value),
{
    bytes.push((value / 0x100_0000) as u8);
    bytes.push((value / 0x1_0000 % 0x100) as u8);
    bytes.push((value / 0x100 % 0x100) as u8);
    bytes.push((value % 0x100) as u8);
    assert(bytes@ =~= old(bytes)@ + be32(value));
}

/// The number that the four bytes of `bytes` from `at` on stand for.
fn get_be32(bytes: &[u8], at: usize) -> (value: u32)
    requires
        at + 4 <= bytes@.len(),
    ensures
        value == from_be32(bytes@, at as int),
{
    let b0 = bytes[at] as u32;
    let b1 = bytes[at + 1] as u32;
    let b2 = bytes[at + 2] as u32;
    let b3 = bytes[at + 3] as u32;
    b0 * 0x100_0000 + b1 * 0x1_0000 + b2 * 0x100 + b3
}

/// The index file that holds `frame` as the compressed form of a message of
/// `raw_length` bytes.
///
/// Fails with `TooLarge` exactly where `frame` is longer than the header can
/// say.
pub fn seal(frame: &[u8], raw_length: u32) -> (r: Result<Vec<u8>, IndexError>)
    ensures
        match r {
            Ok(file) => frame@.len() <= u32::MAX && file@ == container(frame@, raw_length),
            Err(e) => e == IndexError::TooLarge && frame@.len() > u32::MAX,
        },
{
    if frame.len() > u32::MAX as usize {
        return Err(IndexError::TooLarge);
    }
    let mut file: Vec<u8> = Vec::new();
    file.push(0x4d);
    file.push(0x41);
    file.push(0x52);
    file.push(0x49);
    assert(file@ =~= magic());
    put_be32(&mut file, frame.len() as u32);
    put_be32(&mut file, raw_length);
    append_bytes(&mut file, frame);
    Ok(file)
}

/// The frame of the index file `input` and the length that its header
/// announces for the message. Bytes behind the frame are not looked at.
pub fn unseal(input: &[u8]) -> (r: Result<(&[u8], u32), IndexError>)
    ensures
        match unsealed(input@) {
            Ok((frame, raw_length)) => r matches Ok(found) && found.0@ == frame && found.1
                == raw_length,
            Err(e) => r matches Err(x) && x == e,
        },
{
    if input.len() < 4 {
        return Err(IndexError::Truncated);
    }
    if input[0] != 0x4d || input[1] != 0x41 || input[2] != 0x52 || input[3] != 0x49 {
        proof {
            let head = input@.take(4);
            assert(head[0] == input@[0] && head[1] == input@[1] && head[2] == input@[2] && head[3]
                == input@[3]);
        }
        return Err(IndexError::BadMagic);
    }
    assert(input@.take(4) =~= magic());
    if input.len() < HEADER_LENGTH {
        return Err(IndexError::Truncated);
    }
    let compressed_length = get_be32(input, 4);
    let raw_length = get_be32(input, 8);
    if input.len() - HEADER_LENGTH < compressed_length as usize {
        return Err(IndexError::Truncated);
    }
    let frame = slice_subrange(input, HEADER_LENGTH, HEADER_LENGTH + compressed_length as usize);
    Ok((frame, raw_length))
}

/// What `pack_payload` makes of the message `payload`: the failure of the
/// Zstandard library where it makes no frame of the message, `TooLarge` where
/// the message or its frame is longer than the header can say, and otherwise
/// the file that holds the frame behind its header.
pub open spec fn packed_payload(payload: Seq<u8>) -> Result<Seq<u8>, IndexError> {
    match stored_form(CompressedMethod::Zstandard, payload) {
        Some(frame) => if payload.len() <= u32::MAX && frame.len() <= u32::MAX {
            Ok(container(frame, payload.len() as u32))
        } else {
            Err(IndexError::TooLarge)
        },
        None => Err(IndexError::Codec(CodecError::Zstandard)),
    }
}

/// The index file that holds the message `payload`: its Zstandard frame at
/// level 22 behind a header.
///
/// Succeeds exactly where the library makes a frame of the message and
/// neither is longer than the header can say. The file that comes back holds
/// the frame, and the frame the message.
pub fn pack_payload(payload: &[u8]) -> (r: Result<Vec<u8>, IndexError>)
    ensures
        match packed_payload(payload@) {
            Ok(made) => r matches Ok(file) && file@ == made && unpacked_payload(made) == Some(
                payload@,
            ),
            Err(e) => r matches Err(x) && x == e,
        },
{
    let frame = match compress_zstd(payload) {
        Ok(frame) => frame,
        Err(e) => {
            return Err(IndexError::Codec(e));
        },
    };
    if payload.len() > u32::MAX as usize {
        return Err(IndexError::TooLarge);
    }
    let r = seal(frame.as_slice(), payload.len() as u32);
    proof {
        if r is Ok {
            lemma_container_unseals(frame@, payload@.len() as u32);
        }
    }
    r
}

/// The message that the index file `input` holds: the content of its frame,
/// where that has the length that the header announces. `None` where the
/// file has no frame, the frame has no content, or the content has another
/// length.
pub open spec fn unpacked_payload(input: Seq<u8>) -> Option<Seq<u8>> {
    match unsealed(input) {
        Ok((frame, raw_length)) => original_form(
            CompressedMethod::Zstandard,
            frame,
            raw_length as int,
        ),
        Err(_) => None,
    }
}

/// What becomes of an index file once its frame is decompressed: the
/// content, where it has the length `raw_length` that the header announces.
pub fn checked_payload(content: Vec<u8>, raw_length: u32) -> (r: Result<Vec<u8>, IndexError>)
    ensures
        match r {
            Ok(payload) => payload == content && content@.len() == raw_length,
            Err(e) => e == IndexError::LengthMismatch && content@.len() != raw_length,
        },
{
    if content.len() != raw_length as usize {
        return Err(IndexError::LengthMismatch);
    }
    Ok(content)
}

} // verus!
