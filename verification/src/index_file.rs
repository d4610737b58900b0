//! Reading and writing the index file of an archive.

use vstd::prelude::*;
use crate::codec::{zstd_content, CodecError};
use crate::container::{
    checked_payload, container, pack_payload, packed_payload, unpacked_payload, unseal, unsealed,
    IndexError,
};
use crate::model::{FileEntryView, FileIndexFile};
use crate::schema::{decode_index, encode_index, index_bytes, index_of, lemma_index_round_trip};

verus! {

/// The entries of the index that the file `input` holds. There are none where
/// the file has no message, or the message is no index.
pub open spec fn parsed(input: Seq<u8>) -> Option<Seq<FileEntryView>> {
    match unpacked_payload(input) {
        Some(payload) => index_of(payload),
        None => None,
    }
}

/// The index that the content `content` of a frame stands for, where the
/// header of the file announces a message of `raw_length` bytes.
///
/// Fails with `LengthMismatch` exactly where the content has another length,
/// and with `Malformed` exactly where it has that length and is no index.
pub fn read_payload(content: Vec<u8>, raw_length: u32) -> (r: Result<FileIndexFile, IndexError>)
    ensures
        match r {
            Ok(index) => content@.len() == raw_length && index_of(content@) == Some(index@),
            Err(e) => if content@.len() != raw_length {
                e == IndexError::LengthMismatch
            } else {
                e == IndexError::Malformed && index_of(content@) is None
            },
        },
{
    let payload = match checked_payload(content, raw_length) {
        Ok(payload) => payload,
        Err(e) => {
            return Err(e);
        },
    };
    match decode_index(payload.as_slice()) {
        Some(index) => Ok(index),
        None => Err(IndexError::Malformed),
    }
}

/// What `parse_index_file` makes of the file `input`: what `unsealed` says
/// of a file without a frame, the failure of the Zstandard library where the
/// frame has no content, `LengthMismatch` where the content is not as long
/// as the header says, `Malformed` where it is no index, and otherwise the
/// entries of the index.
pub open spec fn read_outcome(input: Seq<u8>) -> Result<Seq<FileEntryView>, IndexError> {
    match unsealed(input) {
        Ok((frame, raw_length)) => match zstd_content(frame) {
            Some(content) => if content.len() != raw_length {
                Err(IndexError::LengthMismatch)
            } else {
                match index_of(content) {
                    Some(entries) => Ok(entries),
                    None => Err(IndexError::Malformed),
                }
            },
            None => Err(IndexError::Codec(CodecError::Zstandard)),
        },
        Err(e) => Err(e),
    }
}

/// Reads the index file `input`.
///
/// Succeeds exactly where the file holds an index, and then gives that
/// index. A file that is too short, does not start with `MARI` or ends before
/// its frame fails as `unsealed` says; one whose frame has no content fails
/// with the failure of the Zstandard library, one whose content is not as
/// long as the header says with `LengthMismatch`, and one whose content is
/// no index with `Malformed`.
pub fn parse_index_file(input: &[u8]) -> (r: Result<FileIndexFile, IndexError>)
    ensures
        match read_outcome(input@) {
            Ok(entries) => r matches Ok(index) && index@ == entries,
            Err(e) => r matches Err(x) && x == e,
        },
        r is Ok <==> parsed(input@) is Some,
        r matches Ok(index) ==> parsed(input@) == Some(index@),
{
    let (frame, raw_length) = match unseal(input) {
        Ok(found) => found,
        Err(e) => {
            return Err(e);
        },
    };
    let content = match crate::codec::decompress_zstd(frame) {
        Ok(content) => content,
        Err(e) => {
            return Err(IndexError::Codec(e));
        },
    };
    read_payload(content, raw_length)
}

/// Writes the index file of `index`: its message as one Zstandard frame at
/// level 22, behind the header.
///
/// Succeeds exactly where the library makes a frame of the message and
/// neither is longer than the header can say; fails with the failure of the
/// Zstandard library exactly where there is no frame. The file that comes
/// back holds the message of `index` and nothing else: read again, it gives
/// the same entries.
pub fn write_index_file(index: &FileIndexFile) -> (r: Result<Vec<u8>, IndexError>)
    ensures
        match packed_payload(index_bytes(index@)) {
            Ok(made) => {
                &&& r matches Ok(file)
                &&& file@ == made
                &&& unpacked_payload(file@) == Some(index_bytes(index@))
                &&& parsed(file@) == Some(index@)
                &&& read_outcome(file@) == Ok::<Seq<FileEntryView>, IndexError>(index@)
            },
            Err(e) => r matches Err(x) && x == e,
        },
{
    let payload = encode_index(index);
    let r = pack_payload(payload.as_slice());
    proof {
        lemma_index_round_trip(index@);
    }
    r
}

/// An index file holds the index that it was made of: where the frame of a
/// file is one whose content is the message of `entries`, the file holds
/// `entries`.
pub proof fn lemma_parse_inverts_write(entries: Seq<FileEntryView>, frame: Seq<u8>)
    requires
        index_bytes(entries).len() <= u32::MAX,
        frame.len() <= u32::MAX,
        zstd_content(frame) == Some(index_bytes(entries)),
    ensures
        parsed(container(frame, index_bytes(entries).len() as u32)) == Some(entries),
        read_outcome(container(frame, index_bytes(entries).len() as u32)) == Ok::<
            Seq<FileEntryView>,
            IndexError,
        >(entries),
{
    crate::container::lemma_container_unseals(frame, index_bytes(entries).len() as u32);
    lemma_index_round_trip(entries);
}

} // verus!
