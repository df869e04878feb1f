//! With which of the changes to a map an extract of it was taken, as the beginning
//! of the extract tells.

use crate::street_diff::bytes_view;
use crate::text::{same_text, text_view};
use osmpbfreader::fileformat::{Blob, BlobHeader};
use osmpbfreader::osmformat::HeaderBlock;
use protobuf::Message;
use std::io::Read;
use vstd::prelude::*;

verus! {

/// The kind and the size of a block.
pub open spec fn header_view(header: Option<(String, i32)>) -> Option<(Seq<char>, i32)> {
    match header {
        Some((kind, size)) => Some((kind@, size)),
        None => None,
    }
}

/// The kind and the size that BlobHeader of the osmpbfreader crate reads from bytes;
/// nothing where it cannot.
pub uninterp spec fn blob_header_in(bytes: Seq<u8>) -> Option<(Seq<char>, i32)>;

/// `BlobHeader::parse_from_bytes` of the osmpbfreader crate, with the kind and the
/// size of what it gives. Which those are for given bytes is not stated.
#[verifier::external_body]
fn blob_header(bytes: &[u8]) -> (header: Option<(String, i32)>)
    ensures
        header_view(header) == blob_header_in(bytes@),
{
    BlobHeader::parse_from_bytes(bytes).ok().map(|header| (header.type_().to_owned(), header.datasize()))
}

/// What a block holds: bytes as they are, and bytes compressed with zlib.
#[derive(Clone, Debug)]
pub struct BlobFields {
    pub raw: Option<Vec<u8>>,
    pub zlib_data: Option<Vec<u8>>,
}

/// What a block holds, as plain values, if it could be read.
pub open spec fn blob_view(blob: Option<BlobFields>) -> Option<(Option<Seq<u8>>, Option<Seq<u8>>)> {
    match blob {
        Some(found) => Some((bytes_view(found.raw), bytes_view(found.zlib_data))),
        None => None,
    }
}

/// What Blob of the osmpbfreader crate reads from bytes: those that are kept as they
/// are, and those that are compressed with zlib; nothing where it cannot.
pub uninterp spec fn blob_in(bytes: Seq<u8>) -> Option<(Option<Seq<u8>>, Option<Seq<u8>>)>;

/// `Blob::parse_from_bytes` of the osmpbfreader crate, with the two fields of what
/// it gives that hold bytes in a known way. Which those are for given bytes is not
/// stated.
#[verifier::external_body]
fn blob_fields(bytes: &[u8]) -> (blob: Option<BlobFields>)
    ensures
        blob_view(blob) == blob_in(bytes@),
{
    Blob::parse_from_bytes(bytes).ok().map(|blob| BlobFields { raw: blob.raw, zlib_data: blob.zlib_data })
}

/// The bytes that ZlibDecoder of the flate2 crate gives for bytes; nothing where it
/// cannot.
pub uninterp spec fn zlib_inflated(bytes: Seq<u8>) -> Option<Seq<u8>>;

/// `ZlibDecoder::new` of the flate2 crate, read to its end. Which bytes it gives for
/// given ones is not stated.
#[verifier::external_body]
fn zlib_inflate(bytes: &[u8]) -> (plain: Option<Vec<u8>>)
    ensures
        bytes_view(plain) == zlib_inflated(bytes@),
{
    let mut plain: Vec<u8> = Vec::new();
    flate2::read::ZlibDecoder::new(bytes).read_to_end(&mut plain).ok().map(|_| plain)
}

/// What the header of an extract says of changes: the second and the number of the
/// last one, and where they are found.
#[derive(Clone, Debug)]
pub struct ReplicationFields {
    pub timestamp: Option<i64>,
    pub sequence_number: Option<i64>,
    pub base_url: Option<String>,
}

/// What the header of an extract says, as plain values.
pub open spec fn fields_view(fields: Option<ReplicationFields>) -> Option<(Option<i64>, Option<i64>, Option<Seq<char>>)> {
    match fields {
        Some(found) => Some((found.timestamp, found.sequence_number, text_view(found.base_url))),
        None => None,
    }
}

/// The second, the number and the address that HeaderBlock of the osmpbfreader crate
/// reads from bytes; nothing where it cannot.
pub uninterp spec fn replication_in(bytes: Seq<u8>) -> Option<(Option<i64>, Option<i64>, Option<Seq<char>>)>;

/// `HeaderBlock::parse_from_bytes` of the osmpbfreader crate, with the fields of
/// what it gives that tell of changes. Which those are for given bytes is not
/// stated.
#[verifier::external_body]
fn replication_fields(bytes: &[u8]) -> (fields: Option<ReplicationFields>)
    ensures
        fields_view(fields) == replication_in(bytes@),
{
    HeaderBlock::parse_from_bytes(bytes).ok().map(|block| ReplicationFields {
        timestamp: block.osmosis_replication_timestamp,
        sequence_number: block.osmosis_replication_sequence_number,
        base_url: block.osmosis_replication_base_url,
    })
}

/// A second since the start of 1970 as chrono writes it; nothing where chrono has no
/// such second.
pub uninterp spec fn rfc3339_of(seconds: i64) -> Option<Seq<char>>;

/// `DateTime::from_timestamp` and `to_rfc3339` of the chrono crate, in UTC. Which
/// text it is for a given second is not stated.
#[verifier::external_body]
fn rfc3339(seconds: i64) -> (text: Option<String>)
    ensures
        text_view(text) == rfc3339_of(seconds),
{
    chrono::DateTime::<chrono::Utc>::from_timestamp(seconds, 0).map(|moment| moment.to_rfc3339())
}

/// Why an extract does not tell with which changes it was taken.
#[derive(Clone, Copy, Debug, PartialEq, Eq, Structural)]
pub enum AnchorError {
    /// The header of the first block cannot be read.
    BadBlobHeader,
    /// The first block is not the header of an extract.
    NotOsmHeader,
    /// The first block cannot be read.
    BadBlob,
    /// The first block is compressed in a way that is not known.
    UnsupportedCompression,
    /// The first block cannot be inflated.
    BadCompression,
    /// The header of the extract cannot be read.
    BadHeaderBlock,
}

/// A number of four bytes, the greatest first.
pub open spec fn big_endian(bytes: Seq<u8>) -> int {
    ((bytes[0] * 256 + bytes[1]) * 256 + bytes[2]) * 256 + bytes[3]
}

/// Reads the length of the header of a block from the four bytes before it.
pub fn read_u32_be(bytes: &[u8]) -> (number: Option<u32>)
    ensures
        number == if bytes@.len() == 4 { Some(big_endian(bytes@) as u32) } else { None },
        bytes@.len() == 4 ==> 0 <= big_endian(bytes@) <= u32::MAX,
{
    if bytes.len() != 4 {
        return None;
    }
    let value: u32 = ((bytes[0] as u32 * 256 + bytes[1] as u32) * 256 + bytes[2] as u32) * 256 + bytes[3] as u32;
    Some(value)
}

/// The size of the first block of an extract, given its header.
pub fn header_blob_size(header: &[u8]) -> (size: Result<usize, AnchorError>)
    ensures
        match blob_header_in(header@) {
            None => size == Err::<usize, AnchorError>(AnchorError::BadBlobHeader),
            Some((kind, length)) => if kind != "OSMHeader"@ {
                size == Err::<usize, AnchorError>(AnchorError::NotOsmHeader)
            } else if length < 0 {
                size == Err::<usize, AnchorError>(AnchorError::BadBlobHeader)
            } else {
                size == Ok::<usize, AnchorError>(length as usize)
            },
        },
{
    match blob_header(header) {
        None => Err(AnchorError::BadBlobHeader),
        Some((kind, length)) => {
            if !same_text(kind.as_str(), "OSMHeader") {
                Err(AnchorError::NotOsmHeader)
            } else if length < 0 {
                Err(AnchorError::BadBlobHeader)
            } else {
                Ok(length as usize)
            }
        },
    }
}

/// With which of the changes an extract was taken.
#[derive(Clone, Debug)]
pub struct StreetPbfReplicationAnchor {
    pub sequence_number: Option<u64>,
    pub timestamp: Option<String>,
    pub base_url: Option<String>,
}

/// The bytes that a block holds, where they can be had: as they are, or inflated.
pub open spec fn block_bytes(blob: Option<(Option<Seq<u8>>, Option<Seq<u8>>)>) -> Result<Seq<u8>, AnchorError> {
    match blob {
        None => Err(AnchorError::BadBlob),
        Some((Some(raw), _)) => Ok(raw),
        Some((None, Some(packed))) => match zlib_inflated(packed) {
            Some(plain) => Ok(plain),
            None => Err(AnchorError::BadCompression),
        },
        Some((None, None)) => Err(AnchorError::UnsupportedCompression),
    }
}

/// The number of a change, as it is counted.
pub open spec fn counted_number(number: Option<i64>) -> Option<u64> {
    match number {
        Some(value) => Some(if value >= 0 { value as u64 } else { (value + 0x1_0000_0000_0000_0000) as u64 }),
        None => None,
    }
}

/// Whether an anchor is what the header of an extract says, given what was written
/// for its second.
pub open spec fn is_anchor(anchor: StreetPbfReplicationAnchor, fields: (Option<i64>, Option<i64>, Option<Seq<char>>), written: Option<Seq<char>>) -> bool {
    &&& anchor.sequence_number == counted_number(fields.1)
    &&& text_view(anchor.timestamp) == written
    &&& text_view(anchor.base_url) == fields.2
}

/// The anchor of what the header of an extract says, given what was written for its
/// second.
pub fn anchor_of_fields(fields: ReplicationFields, written: Option<String>) -> (anchor: StreetPbfReplicationAnchor)
    ensures
        is_anchor(anchor, (fields.timestamp, fields.sequence_number, text_view(fields.base_url)), text_view(written)),
{
    let sequence_number: Option<u64> = match fields.sequence_number {
        Some(value) => if value >= 0 { Some(value as u64) } else { Some((value as i128 + 0x1_0000_0000_0000_0000) as u64) },
        None => None,
    };
    StreetPbfReplicationAnchor { sequence_number: sequence_number, timestamp: written, base_url: fields.base_url }
}

/// Reads with which of the changes an extract was taken from its first block.
pub fn read_pbf_replication_anchor(blob: &[u8]) -> (result: Result<StreetPbfReplicationAnchor, AnchorError>)
    ensures
        match block_bytes(blob_in(blob@)) {
            Err(error) => result == Err::<StreetPbfReplicationAnchor, AnchorError>(error),
            Ok(plain) => match replication_in(plain) {
                None => result == Err::<StreetPbfReplicationAnchor, AnchorError>(AnchorError::BadHeaderBlock),
                Some(fields) => {
                    let written = match fields.0 {
                        Some(seconds) => rfc3339_of(seconds),
                        None => None,
                    };
                    result is Ok && is_anchor(result->Ok_0, fields, written)
                },
            },
        },
{
    let fields: BlobFields = match blob_fields(blob) {
        Some(fields) => fields,
        None => {
            return Err(AnchorError::BadBlob);
        },
    };
    let plain: Vec<u8> = match fields.raw {
        Some(raw) => raw,
        None => match fields.zlib_data {
            Some(packed) => match zlib_inflate(packed.as_slice()) {
                Some(plain) => plain,
                None => {
                    return Err(AnchorError::BadCompression);
                },
            },
            None => {
                return Err(AnchorError::UnsupportedCompression);
            },
        },
    };
    match replication_fields(plain.as_slice()) {
        None => Err(AnchorError::BadHeaderBlock),
        Some(fields) => {
            let written: Option<String> = match fields.timestamp {
                Some(seconds) => rfc3339(seconds),
                None => None,
            };
            Ok(anchor_of_fields(fields, written))
        },
    }
}

} // verus!
