//! Records that are seldom read, kept as a slab of payloads with a direct index:
//! a fixed-size entry for each stop, route and trip, and a directory of shapes.

use crate::model::{RouteRecord, ShapePoint, StopRecord, TripRecord};
use crate::number::Real;
use crate::text::{copy_text, digits_of_width, fixed_digits, joined, text_view};
use crate::text_order::{is_text_order, text_order, text_order_of, texts_view};
use std::collections::HashMap;
use vstd::bytes::{
    lemma_auto_spec_u32_to_from_le_bytes, lemma_auto_spec_u64_to_from_le_bytes, spec_u32_from_le_bytes, spec_u32_to_le_bytes, spec_u64_from_le_bytes,
    spec_u64_to_le_bytes, u32_from_le_bytes, u32_to_le_bytes, u64_from_le_bytes, u64_to_le_bytes,
};
use vstd::hash_map::StringHashMap;
use vstd::prelude::*;
use vstd::slice::slice_subrange;

verus! {

/// The version of the layout.
pub const COLD_STORE_SCHEMA_VERSION: u32 = 2;

/// The bytes of an entry of the index.
pub const INDEX_ENTRY_BYTES: usize = 12;

/// The bytes of the header of the index.
pub const INDEX_HEADER_BYTES: usize = 88;

/// A stop as it is kept.
#[derive(Clone, Debug)]
pub struct ColdStopRecord {
    pub global_id: u64,
    pub feed_id: String,
    pub local_id: String,
    pub id: String,
    pub code: Option<String>,
    pub name: String,
    pub latitude: Option<Real>,
    pub longitude: Option<Real>,
}

/// A route as it is kept.
#[derive(Clone, Debug)]
pub struct ColdRouteRecord {
    pub global_id: u64,
    pub id: String,
    pub short_name: Option<String>,
    pub long_name: Option<String>,
    pub route_type: String,
    pub color: Option<String>,
    pub text_color: Option<String>,
}

/// A trip as it is kept.
#[derive(Clone, Debug)]
pub struct ColdTripRecord {
    pub global_id: u64,
    pub id: String,
    pub headsign: Option<String>,
    pub shape_id: Option<String>,
}

/// The files of a store.
#[derive(Clone, Debug)]
pub struct ColdStorePaths {
    pub data_path: String,
    pub index_path: String,
}

/// What is kept of a stop.
pub fn cold_stop(stop: &StopRecord) -> (record: ColdStopRecord)
    ensures
        record.global_id == stop.global_id,
        record.feed_id@ == stop.feed_id@,
        record.local_id@ == stop.local_id@,
        record.id@ == stop.id@,
        text_view(record.code) == text_view(stop.code),
        record.name@ == stop.name@,
        record.latitude == stop.latitude,
        record.longitude == stop.longitude,
{
    ColdStopRecord {
        global_id: stop.global_id,
        feed_id: stop.feed_id.clone(),
        local_id: stop.local_id.clone(),
        id: stop.id.clone(),
        code: copy_text(&stop.code),
        name: stop.name.clone(),
        latitude: stop.latitude,
        longitude: stop.longitude,
    }
}

/// What is kept of a route.
pub fn cold_route(route: &RouteRecord) -> (record: ColdRouteRecord)
    ensures
        record.global_id == route.global_id,
        record.id@ == route.id@,
        text_view(record.short_name) == text_view(route.short_name),
        text_view(record.long_name) == text_view(route.long_name),
        record.route_type@ == route.route_type@,
        text_view(record.color) == text_view(route.color),
        text_view(record.text_color) == text_view(route.text_color),
{
    ColdRouteRecord {
        global_id: route.global_id,
        id: route.id.clone(),
        short_name: copy_text(&route.short_name),
        long_name: copy_text(&route.long_name),
        route_type: route.route_type.clone(),
        color: copy_text(&route.color),
        text_color: copy_text(&route.text_color),
    }
}

/// What is kept of a trip.
pub fn cold_trip(trip: &TripRecord) -> (record: ColdTripRecord)
    ensures
        record.global_id == trip.global_id,
        record.id@ == trip.id@,
        text_view(record.headsign) == text_view(trip.headsign),
        text_view(record.shape_id) == text_view(trip.shape_id),
{
    ColdTripRecord { global_id: trip.global_id, id: trip.id.clone(), headsign: copy_text(&trip.headsign), shape_id: copy_text(&trip.shape_id) }
}

/// A file in a directory.
pub open spec fn path_in(directory: Seq<char>, file: Seq<char>) -> Seq<char> {
    if directory.len() == 0 {
        file
    } else if directory.last() == '/' {
        directory + file
    } else {
        directory + "/"@ + file
    }
}

fn join_path(directory: &str, file: &str) -> (path: String)
    ensures
        path@ == path_in(directory@, file@),
{
    let chars: Vec<char> = crate::text::chars_of(directory);
    if chars.len() == 0 {
        return file.to_owned();
    }
    let mut path: String = directory.to_owned();
    if chars[chars.len() - 1] != '/' {
        path.append("/");
    }
    path.append(file);
    path
}

/// The name of a file of a generation.
pub open spec fn generation_file(stem: Seq<char>, generation_token: u64, ending: Seq<char>) -> Seq<char> {
    stem + "."@ + fixed_digits(generation_token as int, 16, 16) + ending
}

fn name_file(stem: &str, generation_token: u64, ending: &str) -> (name: String)
    ensures
        name@ == generation_file(stem@, generation_token, ending@),
{
    let mut name: String = joined(stem, ".");
    name.append(digits_of_width(generation_token, 16, 16).as_str());
    name.append(ending);
    name
}

/// The files of the store of a generation, next to a file with a stem.
pub fn cold_store_paths(parent: &str, file_stem: &str, generation_token: u64) -> (paths: ColdStorePaths)
    ensures
        paths.data_path@ == path_in(parent@, generation_file(file_stem@, generation_token, ".hydra.data.bin"@)),
        paths.index_path@ == path_in(parent@, generation_file(file_stem@, generation_token, ".hydra.index.bin"@)),
{
    ColdStorePaths {
        data_path: join_path(parent, name_file(file_stem, generation_token, ".hydra.data.bin").as_str()),
        index_path: join_path(parent, name_file(file_stem, generation_token, ".hydra.index.bin").as_str()),
    }
}

/// What is wrong with a store.
#[derive(Clone, Copy, Debug, PartialEq, Eq, Structural)]
pub enum ColdError {
    /// The index is shorter than its header.
    ShortIndex,
    /// The index does not begin as one.
    BadMagic,
    /// The header says that it has another size.
    HeaderSize(u32),
    /// The layout is of another version.
    SchemaVersion(u32),
    /// A section ends beyond all that can be counted.
    SectionOverflow,
    /// The sections are not in order.
    NotMonotonic,
    /// A section ends behind the index.
    BeyondIndex,
    /// There is no such slot.
    SlotOutOfRange,
    /// An entry does not have the size of one.
    EntrySize,
    /// A range ends beyond all that can be counted.
    RangeOverflow,
    /// A range ends behind the bytes that are there.
    BeyondEnd,
    /// The directory cannot be read.
    BadDirectory,
    /// A payload is longer than an entry can say.
    PayloadTooLong,
}

/// The header of an index.
#[derive(Clone, Copy, Debug, PartialEq, Eq, Structural)]
pub struct HydraIndexHeader {
    pub schema_version: u32,
    pub generation_token: u64,
    pub stop_count: u64,
    pub route_count: u64,
    pub trip_count: u64,
    pub stop_index_offset: u64,
    pub route_index_offset: u64,
    pub trip_index_offset: u64,
    pub shape_directory_offset: u64,
    pub shape_directory_len: u64,
}

/// Where a payload is.
#[derive(Clone, Copy, Debug, PartialEq, Eq, Structural)]
pub struct BlobIndex {
    pub offset: u64,
    pub len: u32,
}

/// The bytes with which an index begins: `HYDRASLB`.
pub open spec fn magic() -> Seq<u8> {
    seq![72u8, 89, 68, 82, 65, 83, 76, 66]
}

fn magic_bytes() -> (bytes: Vec<u8>)
    ensures
        bytes@ == magic(),
{
    let mut bytes: Vec<u8> = Vec::new();
    bytes.push(72);
    bytes.push(89);
    bytes.push(68);
    bytes.push(82);
    bytes.push(65);
    bytes.push(83);
    bytes.push(76);
    bytes.push(66);
    assert(bytes@ =~= magic());
    bytes
}

/// The bytes of a header.
pub open spec fn header_bytes(header: HydraIndexHeader) -> Seq<u8> {
    magic() + spec_u32_to_le_bytes(header.schema_version) + spec_u32_to_le_bytes(88) + spec_u64_to_le_bytes(header.generation_token) + spec_u64_to_le_bytes(
        header.stop_count,
    ) + spec_u64_to_le_bytes(header.route_count) + spec_u64_to_le_bytes(header.trip_count) + spec_u64_to_le_bytes(header.stop_index_offset)
        + spec_u64_to_le_bytes(header.route_index_offset) + spec_u64_to_le_bytes(header.trip_index_offset) + spec_u64_to_le_bytes(header.shape_directory_offset)
        + spec_u64_to_le_bytes(header.shape_directory_len)
}

/// The number in four bytes.
pub open spec fn u32_at(bytes: Seq<u8>, at: int) -> u32 {
    spec_u32_from_le_bytes(bytes.subrange(at, at + 4))
}

/// The number in eight bytes.
pub open spec fn u64_at(bytes: Seq<u8>, at: int) -> u64 {
    spec_u64_from_le_bytes(bytes.subrange(at, at + 8))
}

/// The header that bytes begin with.
pub open spec fn decoded_header(bytes: Seq<u8>) -> Result<HydraIndexHeader, ColdError> {
    if bytes.len() < 88 {
        Err(ColdError::ShortIndex)
    } else if bytes.subrange(0, 8) != magic() {
        Err(ColdError::BadMagic)
    } else if u32_at(bytes, 12) != 88 {
        Err(ColdError::HeaderSize(u32_at(bytes, 12)))
    } else {
        Ok(
            HydraIndexHeader {
                schema_version: u32_at(bytes, 8),
                generation_token: u64_at(bytes, 16),
                stop_count: u64_at(bytes, 24),
                route_count: u64_at(bytes, 32),
                trip_count: u64_at(bytes, 40),
                stop_index_offset: u64_at(bytes, 48),
                route_index_offset: u64_at(bytes, 56),
                trip_index_offset: u64_at(bytes, 64),
                shape_directory_offset: u64_at(bytes, 72),
                shape_directory_len: u64_at(bytes, 80),
            },
        )
    }
}

fn read_u32(bytes: &[u8], at: usize) -> (value: u32)
    requires
        at <= 84,
        at + 4 <= bytes@.len(),
    ensures
        value == u32_at(bytes@, at as int),
{
    u32_from_le_bytes(slice_subrange(bytes, at, at + 4))
}

fn read_u64(bytes: &[u8], at: usize) -> (value: u64)
    requires
        at <= 80,
        at + 8 <= bytes@.len(),
    ensures
        value == u64_at(bytes@, at as int),
{
    u64_from_le_bytes(slice_subrange(bytes, at, at + 8))
}

fn append_bytes(buffer: &mut Vec<u8>, bytes: &[u8])
    ensures
        final(buffer)@ == old(buffer)@ + bytes@,
{
    let ghost before = buffer@;
    let mut i: usize = 0;
    assert(before + bytes@.take(0) =~= before);
    while i < bytes.len()
        invariant
            i <= bytes@.len(),
            buffer@ == before + bytes@.take(i as int),
        decreases bytes@.len() - i,
    {
        buffer.push(bytes[i]);
        i = i + 1;
        assert(buffer@ =~= before + bytes@.take(i as int));
    }
    assert(bytes@.take(i as int) =~= bytes@);
}

fn write_u32(buffer: &mut Vec<u8>, value: u32)
    ensures
        final(buffer)@ == old(buffer)@ + spec_u32_to_le_bytes(value),
{
    let bytes: Vec<u8> = u32_to_le_bytes(value);
    append_bytes(buffer, bytes.as_slice());
}

fn write_u64(buffer: &mut Vec<u8>, value: u64)
    ensures
        final(buffer)@ == old(buffer)@ + spec_u64_to_le_bytes(value),
{
    let bytes: Vec<u8> = u64_to_le_bytes(value);
    append_bytes(buffer, bytes.as_slice());
}

/// Whether sections end beyond all that can be counted.
pub open spec fn sections_overflow(header: HydraIndexHeader) -> bool {
    ||| header.stop_index_offset + header.stop_count * 12 > u64::MAX
    ||| header.route_index_offset + header.route_count * 12 > u64::MAX
    ||| header.trip_index_offset + header.trip_count * 12 > u64::MAX
    ||| header.shape_directory_offset + header.shape_directory_len > u64::MAX
}

/// Whether the sections follow one another.
pub open spec fn sections_ordered(header: HydraIndexHeader) -> bool {
    88 <= header.stop_index_offset <= header.route_index_offset <= header.trip_index_offset <= header.shape_directory_offset
}

/// Whether all sections are within an index.
pub open spec fn sections_within(header: HydraIndexHeader, index_len: int) -> bool {
    &&& header.stop_index_offset + header.stop_count * 12 <= index_len
    &&& header.route_index_offset + header.route_count * 12 <= index_len
    &&& header.trip_index_offset + header.trip_count * 12 <= index_len
    &&& header.shape_directory_offset + header.shape_directory_len <= index_len
}

/// What is wrong with a header.
pub open spec fn header_fault(header: HydraIndexHeader, index_len: int) -> Option<ColdError> {
    if header.schema_version != COLD_STORE_SCHEMA_VERSION {
        Some(ColdError::SchemaVersion(header.schema_version))
    } else if sections_overflow(header) {
        Some(ColdError::SectionOverflow)
    } else if !sections_ordered(header) {
        Some(ColdError::NotMonotonic)
    } else if !sections_within(header, index_len) {
        Some(ColdError::BeyondIndex)
    } else {
        None
    }
}

fn section_end(offset: u64, count: u64) -> (end: Option<u64>)
    ensures
        end is Some <==> offset + count * 12 <= u64::MAX,
        end is Some ==> end->0 == offset + count * 12,
{
    match count.checked_mul(12) {
        Some(bytes) => offset.checked_add(bytes),
        None => {
            assert(count * 12 > u64::MAX);
            None
        },
    }
}

impl HydraIndexHeader {
    /// The bytes of the header.
    pub fn encode(self) -> (bytes: Vec<u8>)
        ensures
            bytes@ == header_bytes(self),
            bytes@.len() == INDEX_HEADER_BYTES,
    {
        let mut buffer: Vec<u8> = magic_bytes();
        write_u32(&mut buffer, self.schema_version);
        write_u32(&mut buffer, 88);
        write_u64(&mut buffer, self.generation_token);
        write_u64(&mut buffer, self.stop_count);
        write_u64(&mut buffer, self.route_count);
        write_u64(&mut buffer, self.trip_count);
        write_u64(&mut buffer, self.stop_index_offset);
        write_u64(&mut buffer, self.route_index_offset);
        write_u64(&mut buffer, self.trip_index_offset);
        write_u64(&mut buffer, self.shape_directory_offset);
        write_u64(&mut buffer, self.shape_directory_len);
        proof {
            lemma_auto_spec_u32_to_from_le_bytes();
            lemma_auto_spec_u64_to_from_le_bytes();
        }
        buffer
    }

    /// The header that bytes begin with.
    pub fn decode(bytes: &[u8]) -> (header: Result<HydraIndexHeader, ColdError>)
        ensures
            header == decoded_header(bytes@),
    {
        if bytes.len() < 88 {
            return Err(ColdError::ShortIndex);
        }
        let expected: Vec<u8> = magic_bytes();
        let mut i: usize = 0;
        while i < 8
            invariant
                i <= 8,
                bytes@.len() >= 88,
                expected@ == magic(),
                forall|k: int| 0 <= k < i ==> bytes@[k] == expected@[k],
            decreases 8 - i,
        {
            if bytes[i] != expected[i] {
                assert(bytes@.subrange(0, 8)[i as int] != magic()[i as int]);
                return Err(ColdError::BadMagic);
            }
            i = i + 1;
        }
        assert(bytes@.subrange(0, 8) =~= magic());
        let size: u32 = read_u32(bytes, 12);
        if size != 88 {
            return Err(ColdError::HeaderSize(size));
        }
        Ok(
            HydraIndexHeader {
                schema_version: read_u32(bytes, 8),
                generation_token: read_u64(bytes, 16),
                stop_count: read_u64(bytes, 24),
                route_count: read_u64(bytes, 32),
                trip_count: read_u64(bytes, 40),
                stop_index_offset: read_u64(bytes, 48),
                route_index_offset: read_u64(bytes, 56),
                trip_index_offset: read_u64(bytes, 64),
                shape_directory_offset: read_u64(bytes, 72),
                shape_directory_len: read_u64(bytes, 80),
            },
        )
    }

    /// Checks the header of an index of a length.
    pub fn validate(&self, index_len: usize) -> (result: Result<(), ColdError>)
        ensures
            match header_fault(*self, index_len as int) {
                Some(error) => result == Err::<(), ColdError>(error),
                None => result == Ok::<(), ColdError>(()),
            },
    {
        if self.schema_version != COLD_STORE_SCHEMA_VERSION {
            return Err(ColdError::SchemaVersion(self.schema_version));
        }
        let index_len: u64 = index_len as u64;
        let stop_end: u64 = match section_end(self.stop_index_offset, self.stop_count) {
            Some(end) => end,
            None => {
                return Err(ColdError::SectionOverflow);
            },
        };
        let route_end: u64 = match section_end(self.route_index_offset, self.route_count) {
            Some(end) => end,
            None => {
                return Err(ColdError::SectionOverflow);
            },
        };
        let trip_end: u64 = match section_end(self.trip_index_offset, self.trip_count) {
            Some(end) => end,
            None => {
                return Err(ColdError::SectionOverflow);
            },
        };
        let shape_end: u64 = match self.shape_directory_offset.checked_add(self.shape_directory_len) {
            Some(end) => end,
            None => {
                return Err(ColdError::SectionOverflow);
            },
        };
        if self.stop_index_offset < 88 || self.route_index_offset < self.stop_index_offset || self.trip_index_offset < self.route_index_offset
            || self.shape_directory_offset < self.trip_index_offset {
            return Err(ColdError::NotMonotonic);
        }
        if stop_end > index_len || route_end > index_len || trip_end > index_len || shape_end > index_len {
            return Err(ColdError::BeyondIndex);
        }
        Ok(())
    }
}

/// A header is read back as it was written, whatever follows it.
pub proof fn headers_are_read_back(header: HydraIndexHeader, rest: Seq<u8>)
    ensures
        decoded_header(header_bytes(header) + rest) == Ok::<HydraIndexHeader, ColdError>(header),
{
    lemma_auto_spec_u32_to_from_le_bytes();
    lemma_auto_spec_u64_to_from_le_bytes();
    let bytes = header_bytes(header) + rest;
    assert(bytes.subrange(0, 8) =~= magic());
    assert(bytes.subrange(8, 12) =~= spec_u32_to_le_bytes(header.schema_version));
    assert(bytes.subrange(12, 16) =~= spec_u32_to_le_bytes(88));
    assert(bytes.subrange(16, 24) =~= spec_u64_to_le_bytes(header.generation_token));
    assert(bytes.subrange(24, 32) =~= spec_u64_to_le_bytes(header.stop_count));
    assert(bytes.subrange(32, 40) =~= spec_u64_to_le_bytes(header.route_count));
    assert(bytes.subrange(40, 48) =~= spec_u64_to_le_bytes(header.trip_count));
    assert(bytes.subrange(48, 56) =~= spec_u64_to_le_bytes(header.stop_index_offset));
    assert(bytes.subrange(56, 64) =~= spec_u64_to_le_bytes(header.route_index_offset));
    assert(bytes.subrange(64, 72) =~= spec_u64_to_le_bytes(header.trip_index_offset));
    assert(bytes.subrange(72, 80) =~= spec_u64_to_le_bytes(header.shape_directory_offset));
    assert(bytes.subrange(80, 88) =~= spec_u64_to_le_bytes(header.shape_directory_len));
}

/// Whether an index is that of a generation: its header can be read and says so.
pub fn is_current(header_prefix: &[u8], generation_token: u64) -> (current: bool)
    ensures
        current == match decoded_header(header_prefix@) {
            Ok(header) => header.schema_version == COLD_STORE_SCHEMA_VERSION && header.generation_token == generation_token,
            Err(_) => false,
        },
{
    match HydraIndexHeader::decode(header_prefix) {
        Ok(header) => header.schema_version == COLD_STORE_SCHEMA_VERSION && header.generation_token == generation_token,
        Err(_) => false,
    }
}

/// The bytes of an entry.
pub open spec fn entry_bytes(blob: BlobIndex) -> Seq<u8> {
    spec_u64_to_le_bytes(blob.offset) + spec_u32_to_le_bytes(blob.len)
}

/// The entry in twelve bytes.
pub open spec fn decoded_entry(bytes: Seq<u8>) -> BlobIndex {
    BlobIndex { offset: u64_at(bytes, 0), len: u32_at(bytes, 8) }
}

impl BlobIndex {
    /// Appends the bytes of the entry.
    pub fn encode_into(self, buffer: &mut Vec<u8>)
        ensures
            final(buffer)@ == old(buffer)@ + entry_bytes(self),
    {
        let ghost before = buffer@;
        write_u64(buffer, self.offset);
        write_u32(buffer, self.len);
        assert(buffer@ =~= before + entry_bytes(self));
    }

    /// The entry in bytes.
    pub fn decode(bytes: &[u8]) -> (blob: Result<BlobIndex, ColdError>)
        ensures
            blob == if bytes@.len() == 12 { Ok::<BlobIndex, ColdError>(decoded_entry(bytes@)) } else { Err::<BlobIndex, ColdError>(ColdError::EntrySize) },
    {
        if bytes.len() != INDEX_ENTRY_BYTES {
            return Err(ColdError::EntrySize);
        }
        Ok(BlobIndex { offset: read_u64(bytes, 0), len: read_u32(bytes, 8) })
    }
}

/// An entry is read back as it was written.
pub proof fn entries_are_read_back(blob: BlobIndex)
    ensures
        entry_bytes(blob).len() == 12,
        decoded_entry(entry_bytes(blob)) == blob,
{
    lemma_auto_spec_u32_to_from_le_bytes();
    lemma_auto_spec_u64_to_from_le_bytes();
    let bytes = entry_bytes(blob);
    assert(bytes.subrange(0, 8) =~= spec_u64_to_le_bytes(blob.offset));
    assert(bytes.subrange(8, 12) =~= spec_u32_to_le_bytes(blob.len));
}

/// A range of bytes.
#[derive(Clone, Copy, Debug, PartialEq, Eq, Structural)]
pub struct ByteRange {
    pub start: usize,
    pub end: usize,
}

/// The range of so many bytes from an offset on.
pub open spec fn range_of(offset: int, len: int, total_len: int) -> Result<ByteRange, ColdError> {
    if offset + len > usize::MAX {
        Err(ColdError::RangeOverflow)
    } else if offset + len > total_len {
        Err(ColdError::BeyondEnd)
    } else {
        Ok(ByteRange { start: offset as usize, end: (offset + len) as usize })
    }
}

/// The range of so many bytes from an offset on.
pub fn byte_range(offset: u64, len: u64, total_len: usize) -> (range: Result<ByteRange, ColdError>)
    ensures
        range == range_of(offset as int, len as int, total_len as int),
{
    if offset > usize::MAX as u64 || len > usize::MAX as u64 {
        return Err(ColdError::RangeOverflow);
    }
    let start: usize = offset as usize;
    match start.checked_add(len as usize) {
        Some(end) => if end > total_len { Err(ColdError::BeyondEnd) } else { Ok(ByteRange { start: start, end: end }) },
        None => Err(ColdError::RangeOverflow),
    }
}

/// The entry of a slot of a section.
pub open spec fn slot_entry(index: Seq<u8>, section_offset: u64, section_len: u64, slot: int) -> Result<BlobIndex, ColdError> {
    if slot >= section_len {
        Err(ColdError::SlotOutOfRange)
    } else if section_offset + slot * 12 > u64::MAX {
        Err(ColdError::SectionOverflow)
    } else {
        match range_of(section_offset + slot * 12, 12, index.len() as int) {
            Ok(range) => Ok(decoded_entry(index.subrange(range.start as int, range.end as int))),
            Err(error) => Err(error),
        }
    }
}

fn read_direct_slot(index: &Vec<u8>, section_offset: u64, section_len: u64, slot: usize) -> (blob: Result<BlobIndex, ColdError>)
    ensures
        blob == slot_entry(index@, section_offset, section_len, slot as int),
{
    let slot: u64 = slot as u64;
    if slot >= section_len {
        return Err(ColdError::SlotOutOfRange);
    }
    let entry_offset: u64 = match section_end(section_offset, slot) {
        Some(offset) => offset,
        None => {
            return Err(ColdError::SectionOverflow);
        },
    };
    match byte_range(entry_offset, 12, index.len()) {
        Ok(range) => BlobIndex::decode(slice_subrange(index.as_slice(), range.start, range.end)),
        Err(error) => Err(error),
    }
}

/// A directory as plain values.
pub open spec fn entries_view(entries: Seq<(String, u64, u32)>) -> Seq<(Seq<char>, u64, u32)> {
    Seq::new(entries.len(), |i: int| (entries[i].0@, entries[i].1, entries[i].2))
}

/// What `bincode::deserialize` reads from bytes as a list of texts with two
/// numbers each; nothing where it fails.
pub uninterp spec fn directory_in(bytes: Seq<u8>) -> Option<Seq<(Seq<char>, u64, u32)>>;

/// The bytes that `bincode::serialize` writes for a list of texts with two numbers
/// each.
pub uninterp spec fn directory_bytes(entries: Seq<(Seq<char>, u64, u32)>) -> Seq<u8>;

/// `bincode::serialize` on a list of texts with two numbers each. Without a limit on
/// the size it refuses no such list; the bytes follow from the list alone, and
/// `bincode::deserialize` reads the list from them.
#[verifier::external_body]
fn serialize_directory(entries: &Vec<(String, u64, u32)>) -> (bytes: Option<Vec<u8>>)
    ensures
        bytes is Some,
        bytes->0@ == directory_bytes(entries_view(entries@)),
        directory_in(bytes->0@) == Some(entries_view(entries@)),
{
    bincode::serialize(entries).ok()
}

/// `bincode::deserialize` into a list of texts with two numbers each: what it
/// reads follows from the bytes alone, and which list it is for given bytes is
/// not stated but for those that `bincode::serialize` gave.
#[verifier::external_body]
fn deserialize_directory(bytes: &[u8]) -> (entries: Option<Vec<(String, u64, u32)>>)
    ensures
        match entries {
            Some(list) => directory_in(bytes@) == Some(entries_view(list@)),
            None => directory_in(bytes@) is None,
        },
{
    bincode::deserialize(bytes).ok()
}

/// Where the shapes of the first `n` entries of a directory are: the last wins.
pub open spec fn directory_map(entries: Seq<(Seq<char>, u64, u32)>, n: int) -> Map<Seq<char>, BlobIndex>
    decreases n,
{
    if n <= 0 {
        Map::empty()
    } else {
        directory_map(entries, n - 1).insert(entries[n - 1].0, BlobIndex { offset: entries[n - 1].1, len: entries[n - 1].2 })
    }
}

fn map_directory(entries: &Vec<(String, u64, u32)>) -> (map: StringHashMap<BlobIndex>)
    ensures
        map@ == directory_map(entries_view(entries@), entries@.len() as int),
{
    let mut map: StringHashMap<BlobIndex> = StringHashMap::new();
    assert(map@ =~= Map::<Seq<char>, BlobIndex>::empty());
    let mut i: usize = 0;
    while i < entries.len()
        invariant
            i <= entries.len(),
            map@ == directory_map(entries_view(entries@), i as int),
        decreases entries.len() - i,
    {
        map.insert(entries[i].0.clone(), BlobIndex { offset: entries[i].1, len: entries[i].2 });
        i = i + 1;
    }
    map
}

/// Where something is read: laid over the store, or in the payloads.
pub enum Stored<T> {
    /// The record that was laid over the store.
    Overlay(T),
    /// The bytes of the payload.
    Payload(ByteRange),
}

/// An open store. The payloads are elsewhere; only how many bytes they have is
/// known.
pub struct ColdStore {
    header: HydraIndexHeader,
    index: Vec<u8>,
    data_len: usize,
    shape_directory: StringHashMap<BlobIndex>,
    stops: HashMap<usize, ColdStopRecord>,
    routes: HashMap<usize, ColdRouteRecord>,
    trips: HashMap<usize, ColdTripRecord>,
    shape_points: StringHashMap<Vec<ShapePoint>>,
}

/// What an open store holds.
pub struct ColdStoreView {
    pub header: HydraIndexHeader,
    pub index: Seq<u8>,
    pub data_len: int,
    pub shape_directory: Map<Seq<char>, BlobIndex>,
    pub stops: Map<usize, ColdStopRecord>,
    pub routes: Map<usize, ColdRouteRecord>,
    pub trips: Map<usize, ColdTripRecord>,
    pub shape_points: Map<Seq<char>, Vec<ShapePoint>>,
}

/// Where a directory is, in an index with a header.
pub open spec fn directory_bytes_of(header: HydraIndexHeader, index: Seq<u8>) -> Seq<u8> {
    index.subrange(header.shape_directory_offset as int, header.shape_directory_offset + header.shape_directory_len)
}

/// Where a payload is that an entry tells of.
pub open spec fn payload_of(entry: Result<BlobIndex, ColdError>, data_len: int) -> Result<ByteRange, ColdError> {
    match entry {
        Ok(blob) => range_of(blob.offset as int, blob.len as int, data_len),
        Err(error) => Err(error),
    }
}

impl ColdStore {
    /// What the store holds.
    pub closed spec fn view(&self) -> ColdStoreView {
        ColdStoreView {
            header: self.header,
            index: self.index@,
            data_len: self.data_len as int,
            shape_directory: self.shape_directory@,
            stops: self.stops@,
            routes: self.routes@,
            trips: self.trips@,
            shape_points: self.shape_points@,
        }
    }

    /// Opens a store by its index, for payloads of so many bytes.
    pub fn open(index: Vec<u8>, data_len: usize) -> (result: Result<ColdStore, ColdError>)
        ensures
            match decoded_header(index@) {
                Err(error) => result == Err::<ColdStore, ColdError>(error),
                Ok(header) => match header_fault(header, index@.len() as int) {
                    Some(error) => result == Err::<ColdStore, ColdError>(error),
                    None => match directory_in(directory_bytes_of(header, index@)) {
                        None => result == Err::<ColdStore, ColdError>(ColdError::BadDirectory),
                        Some(entries) => {
                            &&& result is Ok
                            &&& result->Ok_0@ == (ColdStoreView {
                                header: header,
                                index: index@,
                                data_len: data_len as int,
                                shape_directory: directory_map(entries, entries.len() as int),
                                stops: Map::empty(),
                                routes: Map::empty(),
                                trips: Map::empty(),
                                shape_points: Map::empty(),
                            })
                        },
                    },
                },
            },
    {
        let header: HydraIndexHeader = match HydraIndexHeader::decode(index.as_slice()) {
            Ok(header) => header,
            Err(error) => {
                return Err(error);
            },
        };
        match header.validate(index.len()) {
            Ok(_) => {},
            Err(error) => {
                return Err(error);
            },
        }
        let range: ByteRange = match byte_range(header.shape_directory_offset, header.shape_directory_len, index.len()) {
            Ok(range) => range,
            Err(error) => {
                assert(false);
                return Err(error);
            },
        };
        let entries: Vec<(String, u64, u32)> = match deserialize_directory(slice_subrange(index.as_slice(), range.start, range.end)) {
            Some(entries) => entries,
            None => {
                return Err(ColdError::BadDirectory);
            },
        };
        let shape_directory: StringHashMap<BlobIndex> = map_directory(&entries);
        let store: ColdStore = ColdStore {
            header: header,
            index: index,
            data_len: data_len,
            shape_directory: shape_directory,
            stops: HashMap::new(),
            routes: HashMap::new(),
            trips: HashMap::new(),
            shape_points: StringHashMap::new(),
        };
        proof {
            assert(store@.stops =~= Map::<usize, ColdStopRecord>::empty());
            assert(store@.routes =~= Map::<usize, ColdRouteRecord>::empty());
            assert(store@.trips =~= Map::<usize, ColdTripRecord>::empty());
            assert(store@.shape_points =~= Map::<Seq<char>, Vec<ShapePoint>>::empty());
            assert(entries_view(entries@).len() == entries@.len());
        }
        Ok(store)
    }

    fn read_payload(&self, entry: Result<BlobIndex, ColdError>) -> (range: Result<ByteRange, ColdError>)
        ensures
            range == payload_of(entry, self@.data_len),
    {
        match entry {
            Ok(blob) => byte_range(blob.offset, blob.len as u64, self.data_len),
            Err(error) => Err(error),
        }
    }

    /// Where a stop is read.
    pub fn stop(&self, stop_index: usize) -> (stored: Result<Stored<&ColdStopRecord>, ColdError>)
        ensures
            if self@.stops.dom().contains(stop_index) {
                match stored {
                    Ok(Stored::Overlay(record)) => *record == self@.stops[stop_index],
                    _ => false,
                }
            } else {
                match payload_of(slot_entry(self@.index, self@.header.stop_index_offset, self@.header.stop_count, stop_index as int), self@.data_len) {
                    Ok(range) => match stored {
                        Ok(Stored::Payload(found)) => found == range,
                        _ => false,
                    },
                    Err(error) => match stored {
                        Err(found) => found == error,
                        _ => false,
                    },
                }
            },
    {
        match self.stops.get(&stop_index) {
            Some(record) => {
                return Ok(Stored::Overlay(record));
            },
            None => {},
        }
        match self.read_payload(read_direct_slot(&self.index, self.header.stop_index_offset, self.header.stop_count, stop_index)) {
            Ok(range) => Ok(Stored::Payload(range)),
            Err(error) => Err(error),
        }
    }

    /// Where a route is read.
    pub fn route(&self, route_index: usize) -> (stored: Result<Stored<&ColdRouteRecord>, ColdError>)
        ensures
            if self@.routes.dom().contains(route_index) {
                match stored {
                    Ok(Stored::Overlay(record)) => *record == self@.routes[route_index],
                    _ => false,
                }
            } else {
                match payload_of(slot_entry(self@.index, self@.header.route_index_offset, self@.header.route_count, route_index as int), self@.data_len) {
                    Ok(range) => match stored {
                        Ok(Stored::Payload(found)) => found == range,
                        _ => false,
                    },
                    Err(error) => match stored {
                        Err(found) => found == error,
                        _ => false,
                    },
                }
            },
    {
        match self.routes.get(&route_index) {
            Some(record) => {
                return Ok(Stored::Overlay(record));
            },
            None => {},
        }
        match self.read_payload(read_direct_slot(&self.index, self.header.route_index_offset, self.header.route_count, route_index)) {
            Ok(range) => Ok(Stored::Payload(range)),
            Err(error) => Err(error),
        }
    }

    /// Where a trip is read.
    pub fn trip(&self, trip_index: usize) -> (stored: Result<Stored<&ColdTripRecord>, ColdError>)
        ensures
            if self@.trips.dom().contains(trip_index) {
                match stored {
                    Ok(Stored::Overlay(record)) => *record == self@.trips[trip_index],
                    _ => false,
                }
            } else {
                match payload_of(slot_entry(self@.index, self@.header.trip_index_offset, self@.header.trip_count, trip_index as int), self@.data_len) {
                    Ok(range) => match stored {
                        Ok(Stored::Payload(found)) => found == range,
                        _ => false,
                    },
                    Err(error) => match stored {
                        Err(found) => found == error,
                        _ => false,
                    },
                }
            },
    {
        match self.trips.get(&trip_index) {
            Some(record) => {
                return Ok(Stored::Overlay(record));
            },
            None => {},
        }
        match self.read_payload(read_direct_slot(&self.index, self.header.trip_index_offset, self.header.trip_count, trip_index)) {
            Ok(range) => Ok(Stored::Payload(range)),
            Err(error) => Err(error),
        }
    }

    /// Where the points of a shape are read, if there is such a shape.
    pub fn shape_points(&self, shape_id: &str) -> (stored: Result<Option<Stored<&Vec<ShapePoint>>>, ColdError>)
        ensures
            if self@.shape_points.dom().contains(shape_id@) {
                match stored {
                    Ok(Some(Stored::Overlay(points))) => *points == self@.shape_points[shape_id@],
                    _ => false,
                }
            } else if !self@.shape_directory.dom().contains(shape_id@) {
                match stored {
                    Ok(None) => true,
                    _ => false,
                }
            } else {
                match payload_of(Ok::<BlobIndex, ColdError>(self@.shape_directory[shape_id@]), self@.data_len) {
                    Ok(range) => match stored {
                        Ok(Some(Stored::Payload(found))) => found == range,
                        _ => false,
                    },
                    Err(error) => match stored {
                        Err(found) => found == error,
                        _ => false,
                    },
                }
            },
    {
        match self.shape_points.get(shape_id) {
            Some(points) => {
                return Ok(Some(Stored::Overlay(points)));
            },
            None => {},
        }
        match self.shape_directory.get(shape_id) {
            None => Ok(None),
            Some(blob) => match self.read_payload(Ok(*blob)) {
                Ok(range) => Ok(Some(Stored::Payload(range))),
                Err(error) => Err(error),
            },
        }
    }

    /// Lays a stop over the store.
    pub fn overlay_stop(&mut self, stop_index: usize, record: ColdStopRecord)
        ensures
            final(self)@ == (ColdStoreView { stops: old(self)@.stops.insert(stop_index, record), ..old(self)@ }),
    {
        self.stops.insert(stop_index, record);
    }

    /// Lays a route over the store.
    pub fn overlay_route(&mut self, route_index: usize, record: ColdRouteRecord)
        ensures
            final(self)@ == (ColdStoreView { routes: old(self)@.routes.insert(route_index, record), ..old(self)@ }),
    {
        self.routes.insert(route_index, record);
    }

    /// Lays a trip over the store.
    pub fn overlay_trip(&mut self, trip_index: usize, record: ColdTripRecord)
        ensures
            final(self)@ == (ColdStoreView { trips: old(self)@.trips.insert(trip_index, record), ..old(self)@ }),
    {
        self.trips.insert(trip_index, record);
    }

    /// Lays the points of a shape over the store.
    pub fn overlay_shape_points(&mut self, shape_id: String, points: Vec<ShapePoint>)
        ensures
            final(self)@ == (ColdStoreView { shape_points: old(self)@.shape_points.insert(shape_id@, points), ..old(self)@ }),
    {
        self.shape_points.insert(shape_id, points);
    }

    /// Takes away all that was laid over the store.
    pub fn clear_overlays(&mut self)
        ensures
            final(self)@ == (ColdStoreView { stops: Map::empty(), routes: Map::empty(), trips: Map::empty(), shape_points: Map::empty(), ..old(self)@ }),
    {
        self.stops = HashMap::new();
        self.routes = HashMap::new();
        self.trips = HashMap::new();
        self.shape_points = StringHashMap::new();
        proof {
            assert(self@.stops =~= Map::<usize, ColdStopRecord>::empty());
            assert(self@.routes =~= Map::<usize, ColdRouteRecord>::empty());
            assert(self@.trips =~= Map::<usize, ColdTripRecord>::empty());
            assert(self@.shape_points =~= Map::<Seq<char>, Vec<ShapePoint>>::empty());
        }
    }
}

/// Payloads one after the other.
pub open spec fn joined_payloads(payloads: Seq<Seq<u8>>, n: int) -> Seq<u8>
    decreases n,
{
    if n <= 0 {
        Seq::empty()
    } else {
        joined_payloads(payloads, n - 1) + payloads[n - 1]
    }
}

/// Where a payload is among payloads one after the other.
pub open spec fn blob_at(payloads: Seq<Seq<u8>>, k: int) -> BlobIndex {
    BlobIndex { offset: joined_payloads(payloads, k).len() as u64, len: payloads[k].len() as u32 }
}

/// The entries of the first `n` payloads.
pub open spec fn joined_entries(payloads: Seq<Seq<u8>>, n: int) -> Seq<u8>
    decreases n,
{
    if n <= 0 {
        Seq::empty()
    } else {
        joined_entries(payloads, n - 1) + entry_bytes(blob_at(payloads, n - 1))
    }
}

/// Lists of bytes as sequences.
pub open spec fn payloads_view(payloads: Seq<Vec<u8>>) -> Seq<Seq<u8>> {
    Seq::new(payloads.len(), |i: int| payloads[i]@)
}

/// The payloads of shapes in the order of their ids.
pub open spec fn shapes_in_order(shape_ids: Seq<Seq<char>>, shapes: Seq<Seq<u8>>) -> Seq<Seq<u8>> {
    Seq::new(shape_ids.len(), |i: int| shapes[text_order_of(shape_ids)[i] as int])
}

/// All payloads in the order in which they are kept.
pub open spec fn all_payloads(stops: Seq<Seq<u8>>, routes: Seq<Seq<u8>>, trips: Seq<Seq<u8>>, shapes: Seq<Seq<u8>>) -> Seq<Seq<u8>> {
    stops + routes + trips + shapes
}

/// The directory of shapes whose payloads begin behind `from` others.
pub open spec fn shape_entries(shape_ids: Seq<Seq<char>>, payloads: Seq<Seq<u8>>, from: int, n: int) -> Seq<(Seq<char>, u64, u32)> {
    Seq::new(n as nat, |i: int| (shape_ids[text_order_of(shape_ids)[i] as int], blob_at(payloads, from + i).offset, blob_at(payloads, from + i).len))
}

/// The header of a store.
pub open spec fn built_header(generation_token: u64, stops: int, routes: int, trips: int, directory_len: int) -> HydraIndexHeader {
    HydraIndexHeader {
        schema_version: COLD_STORE_SCHEMA_VERSION,
        generation_token: generation_token,
        stop_count: stops as u64,
        route_count: routes as u64,
        trip_count: trips as u64,
        stop_index_offset: 88,
        route_index_offset: (88 + 12 * stops) as u64,
        trip_index_offset: (88 + 12 * (stops + routes)) as u64,
        shape_directory_offset: (88 + 12 * (stops + routes + trips)) as u64,
        shape_directory_len: directory_len as u64,
    }
}

/// The bytes of a store.
pub struct BuiltStore {
    pub data: Vec<u8>,
    pub index: Vec<u8>,
}

/// Whether a store is that of payloads: the payloads one after the other, and an
/// index with the header, the entries of stops, routes and trips, and a directory
/// that reads as that of the shapes.
pub open spec fn is_store_of(
    store: BuiltStore,
    generation_token: u64,
    stops: Seq<Seq<u8>>,
    routes: Seq<Seq<u8>>,
    trips: Seq<Seq<u8>>,
    shape_ids: Seq<Seq<char>>,
    shapes: Seq<Seq<u8>>,
) -> bool {
    let all = all_payloads(stops, routes, trips, shapes_in_order(shape_ids, shapes));
    let direct = (stops.len() + routes.len() + trips.len()) as int;
    let entries = shape_entries(shape_ids, all, direct, shape_ids.len() as int);
    let directory = directory_bytes(entries);
    &&& store.data@ == joined_payloads(all, all.len() as int)
    &&& store.index@ == header_bytes(built_header(generation_token, stops.len() as int, routes.len() as int, trips.len() as int, directory.len() as int))
        + joined_entries(all, direct) + directory
    &&& directory_in(directory) == Some(entries)
}

/// Whether a payload is longer than an entry can say.
pub open spec fn too_long(payloads: Seq<Seq<u8>>) -> bool {
    exists|i: int| 0 <= i < payloads.len() && (#[trigger] payloads[i]).len() > u32::MAX
}

fn write_blob(data: &mut Vec<u8>, payload: &Vec<u8>) -> (blob: Result<BlobIndex, ColdError>)
    ensures
        match blob {
            Ok(found) => {
                &&& payload@.len() <= u32::MAX
                &&& final(data)@ == old(data)@ + payload@
                &&& found == (BlobIndex { offset: old(data)@.len() as u64, len: payload@.len() as u32 })
            },
            Err(error) => payload@.len() > u32::MAX && error == ColdError::PayloadTooLong,
        },
{
    if payload.len() > 0xFFFF_FFFF {
        return Err(ColdError::PayloadTooLong);
    }
    let blob: BlobIndex = BlobIndex { offset: data.len() as u64, len: payload.len() as u32 };
    append_bytes(data, payload.as_slice());
    Ok(blob)
}

fn write_section(data: &mut Vec<u8>, entries: &mut Vec<u8>, payloads: &Vec<Vec<u8>>, Ghost(all): Ghost<Seq<Seq<u8>>>, Ghost(from): Ghost<int>) -> (result: Result<(), ColdError>)
    requires
        0 <= from,
        from + payloads@.len() <= all.len(),
        all.subrange(from, from + payloads@.len()) == payloads_view(payloads@),
        old(data)@ == joined_payloads(all, from),
        old(entries)@ == joined_entries(all, from),
    ensures
        match result {
            Ok(_) => {
                &&& !too_long(payloads_view(payloads@))
                &&& final(data)@ == joined_payloads(all, from + payloads@.len())
                &&& final(entries)@ == joined_entries(all, from + payloads@.len())
            },
            Err(error) => too_long(payloads_view(payloads@)) && error == ColdError::PayloadTooLong,
        },
{
    let mut i: usize = 0;
    while i < payloads.len()
        invariant
            i <= payloads.len(),
            0 <= from,
            from + payloads@.len() <= all.len(),
            all.subrange(from, from + payloads@.len()) == payloads_view(payloads@),
            forall|k: int| 0 <= k < i ==> (#[trigger] payloads@[k])@.len() <= u32::MAX,
            data@ == joined_payloads(all, from + i),
            entries@ == joined_entries(all, from + i),
        decreases payloads.len() - i,
    {
        assert(all.subrange(from, from + payloads@.len())[i as int] == all[from + i]);
        assert(payloads_view(payloads@)[i as int] == payloads@[i as int]@);
        match write_blob(data, &payloads[i]) {
            Ok(blob) => {
                assert(blob == blob_at(all, from + i));
                blob.encode_into(entries);
            },
            Err(error) => {
                return Err(error);
            },
        }
        i = i + 1;
    }
    proof {
        assert forall|k: int| 0 <= k < payloads_view(payloads@).len() implies (#[trigger] payloads_view(payloads@)[k]).len() <= u32::MAX by {
            assert(payloads@[k]@.len() <= u32::MAX);
        }
    }
    Ok(())
}

proof fn entries_have_length(payloads: Seq<Seq<u8>>, n: int)
    requires
        0 <= n,
    ensures
        joined_entries(payloads, n).len() == 12 * n,
    decreases n,
{
    if n > 0 {
        entries_have_length(payloads, n - 1);
        entries_are_read_back(blob_at(payloads, n - 1));
    }
}

fn blank_header() -> (bytes: Vec<u8>)
    ensures
        bytes@.len() == 88,
{
    let mut bytes: Vec<u8> = Vec::new();
    let mut i: usize = 0;
    while i < INDEX_HEADER_BYTES
        invariant
            i <= 88,
            bytes@.len() == i,
        decreases 88 - i,
    {
        bytes.push(0);
        i = i + 1;
    }
    bytes
}

fn overwrite_head(bytes: &mut Vec<u8>, head: &Vec<u8>)
    requires
        head@.len() <= old(bytes)@.len(),
    ensures
        final(bytes)@ == head@ + old(bytes)@.skip(head@.len() as int),
{
    let ghost before = bytes@;
    let mut i: usize = 0;
    while i < head.len()
        invariant
            i <= head.len(),
            head@.len() <= before.len(),
            bytes@.len() == before.len(),
            forall|k: int| 0 <= k < i ==> bytes@[k] == head@[k],
            forall|k: int| i <= k < before.len() ==> bytes@[k] == before[k],
        decreases head.len() - i,
    {
        bytes.set(i, head[i]);
        i = i + 1;
    }
    assert(bytes@ =~= head@ + before.skip(head@.len() as int));
}

/// Builds a store of payloads. Shapes are kept in the order of their ids.
pub fn build_store(
    generation_token: u64,
    stops: &Vec<Vec<u8>>,
    routes: &Vec<Vec<u8>>,
    trips: &Vec<Vec<u8>>,
    shape_ids: &Vec<String>,
    shapes: &Vec<Vec<u8>>,
) -> (result: Result<BuiltStore, ColdError>)
    requires
        shape_ids@.len() == shapes@.len(),
    ensures
        result is Ok <==> !too_long(payloads_view(stops@)) && !too_long(payloads_view(routes@)) && !too_long(payloads_view(trips@)) && !too_long(
            payloads_view(shapes@),
        ),
        match result {
            Ok(store) => is_store_of(
                store,
                generation_token,
                payloads_view(stops@),
                payloads_view(routes@),
                payloads_view(trips@),
                texts_view(shape_ids@),
                payloads_view(shapes@),
            ),
            Err(error) => error == ColdError::PayloadTooLong,
        },
{
    let order: Vec<usize> = text_order(shape_ids);
    let ghost a = payloads_view(stops@);
    let ghost b = payloads_view(routes@);
    let ghost c = payloads_view(trips@);
    let ghost d = shapes_in_order(texts_view(shape_ids@), payloads_view(shapes@));
    let ghost all = all_payloads(a, b, c, d);
    let ghost direct = (a.len() + b.len() + c.len()) as int;
    let mut data: Vec<u8> = Vec::new();
    let mut entries: Vec<u8> = Vec::new();
    proof {
        assert(data@ =~= joined_payloads(all, 0));
        assert(entries@ =~= joined_entries(all, 0));
        assert(all.subrange(0, a.len() as int) =~= a);
        assert(all.subrange(a.len() as int, (a.len() + b.len()) as int) =~= b);
        assert(all.subrange((a.len() + b.len()) as int, direct) =~= c);
    }
    match write_section(&mut data, &mut entries, stops, Ghost(all), Ghost(0)) {
        Ok(_) => {},
        Err(error) => {
            return Err(error);
        },
    }
    match write_section(&mut data, &mut entries, routes, Ghost(all), Ghost(a.len() as int)) {
        Ok(_) => {},
        Err(error) => {
            return Err(error);
        },
    }
    match write_section(&mut data, &mut entries, trips, Ghost(all), Ghost((a.len() + b.len()) as int)) {
        Ok(_) => {},
        Err(error) => {
            return Err(error);
        },
    }
    let mut directory: Vec<(String, u64, u32)> = Vec::new();
    let mut i: usize = 0;
    assert(entries_view(directory@) =~= shape_entries(texts_view(shape_ids@), all, direct, 0));
    while i < order.len()
        invariant
            i <= order.len(),
            shape_ids@.len() == shapes@.len(),
            is_text_order(texts_view(shape_ids@), order@),
            order@ == text_order_of(texts_view(shape_ids@)),
            d == shapes_in_order(texts_view(shape_ids@), payloads_view(shapes@)),
            all == all_payloads(a, b, c, d),
            direct == a.len() + b.len() + c.len(),
            data@ == joined_payloads(all, direct + i),
            directory@.len() == i,
            entries_view(directory@) == shape_entries(texts_view(shape_ids@), all, direct, i as int),
            forall|k: int| 0 <= k < i ==> (#[trigger] d[k]).len() <= u32::MAX,
        decreases order.len() - i,
    {
        assert(order@[i as int] < texts_view(shape_ids@).len());
        let at: usize = order[i];
        assert(d[i as int] == payloads_view(shapes@)[at as int]);
        assert(all[direct + i] == d[i as int]);
        match write_blob(&mut data, &shapes[at]) {
            Ok(blob) => {
                let ghost before = directory@;
                assert(blob == blob_at(all, direct + i));
                directory.push((shape_ids[at].clone(), blob.offset, blob.len));
                proof {
                    let ids = texts_view(shape_ids@);
                    let longer = shape_entries(ids, all, direct, i + 1);
                    assert(ids[at as int] == shape_ids@[at as int]@);
                    assert(longer[i as int] == (ids[at as int], blob.offset, blob.len));
                    assert forall|k: int| 0 <= k < i implies #[trigger] entries_view(directory@)[k] == longer[k] by {
                        assert(entries_view(before)[k] == shape_entries(ids, all, direct, i as int)[k]);
                        assert(directory@[k] == before[k]);
                    }
                    assert(entries_view(directory@) =~= longer);
                }
            },
            Err(error) => {
                assert(payloads_view(shapes@)[at as int].len() > u32::MAX);
                return Err(error);
            },
        }
        i = i + 1;
    }
    proof {
        crate::text_order::text_order_covers(texts_view(shape_ids@), order@);
        assert forall|k: int| 0 <= k < payloads_view(shapes@).len() implies (#[trigger] payloads_view(shapes@)[k]).len() <= u32::MAX by {
            assert(order@.contains(k as usize));
            let at = choose|at: int| 0 <= at < order@.len() && order@[at] == k as usize;
            assert(d[at].len() <= u32::MAX);
        }
    }
    let written: Vec<u8> = serialize_directory(&directory).unwrap();
    proof {
        entries_have_length(all, a.len() as int);
        entries_have_length(all, (a.len() + b.len()) as int);
        entries_have_length(all, direct);
    }
    let mut index: Vec<u8> = blank_header();
    append_bytes(&mut index, entries.as_slice());
    let shape_directory_offset: u64 = index.len() as u64;
    append_bytes(&mut index, written.as_slice());
    let header: HydraIndexHeader = HydraIndexHeader {
        schema_version: COLD_STORE_SCHEMA_VERSION,
        generation_token: generation_token,
        stop_count: stops.len() as u64,
        route_count: routes.len() as u64,
        trip_count: trips.len() as u64,
        stop_index_offset: 88,
        route_index_offset: 88 + 12 * stops.len() as u64,
        trip_index_offset: 88 + 12 * (stops.len() as u64 + routes.len() as u64),
        shape_directory_offset: shape_directory_offset,
        shape_directory_len: written.len() as u64,
    };
    let head: Vec<u8> = header.encode();
    overwrite_head(&mut index, &head);
    proof {
        let shape_payloads = payloads_view(shapes@);
        assert(index@ =~= header_bytes(header) + joined_entries(all, direct) + written@);
        assert(header == built_header(generation_token, a.len() as int, b.len() as int, c.len() as int, written@.len() as int));
        assert(all.len() == direct + order@.len());
        assert(!too_long(shape_payloads));
        assert(directory_in(written@) == Some(shape_entries(texts_view(shape_ids@), all, direct, texts_view(shape_ids@).len() as int)));
    }
    let store: BuiltStore = BuiltStore { data: data, index: index };
    Ok(store)
}

proof fn payload_is_where_it_was_put(payloads: Seq<Seq<u8>>, n: int, k: int)
    requires
        0 <= k < n,
    ensures
        joined_payloads(payloads, k).len() + payloads[k].len() <= joined_payloads(payloads, n).len(),
        joined_payloads(payloads, n).subrange(joined_payloads(payloads, k).len() as int, (joined_payloads(payloads, k).len() + payloads[k].len()) as int) == payloads[k],
    decreases n,
{
    let from = joined_payloads(payloads, k).len() as int;
    let to = (from + payloads[k].len()) as int;
    let whole = joined_payloads(payloads, n);
    if k == n - 1 {
        assert(whole.subrange(from, to) =~= payloads[k]);
    } else {
        payload_is_where_it_was_put(payloads, n - 1, k);
        assert(whole.subrange(from, to) =~= joined_payloads(payloads, n - 1).subrange(from, to));
    }
}

proof fn entry_is_where_it_was_put(payloads: Seq<Seq<u8>>, n: int, k: int)
    requires
        0 <= k < n,
    ensures
        12 * k + 12 <= joined_entries(payloads, n).len(),
        joined_entries(payloads, n).subrange(12 * k, 12 * k + 12) == entry_bytes(blob_at(payloads, k)),
    decreases n,
{
    entries_have_length(payloads, n);
    entries_have_length(payloads, n - 1);
    entries_are_read_back(blob_at(payloads, n - 1));
    let whole = joined_entries(payloads, n);
    if k == n - 1 {
        assert(whole.subrange(12 * k, 12 * k + 12) =~= entry_bytes(blob_at(payloads, k)));
    } else {
        entry_is_where_it_was_put(payloads, n - 1, k);
        assert(whole.subrange(12 * k, 12 * k + 12) =~= joined_entries(payloads, n - 1).subrange(12 * k, 12 * k + 12));
    }
}

/// The bytes in a range.
pub open spec fn bytes_in(data: Seq<u8>, range: Result<ByteRange, ColdError>) -> Option<Seq<u8>> {
    match range {
        Ok(found) => Some(data.subrange(found.start as int, found.end as int)),
        Err(_) => None,
    }
}

proof fn slot_is_read_back(index: Seq<u8>, header: HydraIndexHeader, all: Seq<Seq<u8>>, direct: int, directory: Seq<u8>, first: int, count: int, slot: int)
    requires
        index == header_bytes(header) + joined_entries(all, direct) + directory,
        index.len() <= usize::MAX,
        0 <= first,
        0 <= slot < count,
        first + count <= direct <= all.len(),
    ensures
        slot_entry(index, (88 + 12 * first) as u64, count as u64, slot) == Ok::<BlobIndex, ColdError>(blob_at(all, first + slot)),
{
    lemma_auto_spec_u32_to_from_le_bytes();
    lemma_auto_spec_u64_to_from_le_bytes();
    entries_have_length(all, direct);
    assert(header_bytes(header).len() == 88);
    let k = first + slot;
    entry_is_where_it_was_put(all, direct, k);
    entries_are_read_back(blob_at(all, k));
    let from = 88 + 12 * k;
    assert(index.subrange(from, from + 12) =~= joined_entries(all, direct).subrange(12 * k, 12 * k + 12));
}

proof fn payload_is_read_back(data: Seq<u8>, all: Seq<Seq<u8>>, k: int)
    requires
        data == joined_payloads(all, all.len() as int),
        data.len() <= usize::MAX,
        0 <= k < all.len(),
        all[k].len() <= u32::MAX,
    ensures
        bytes_in(data, payload_of(Ok::<BlobIndex, ColdError>(blob_at(all, k)), data.len() as int)) == Some(all[k]),
{
    payload_is_where_it_was_put(all, all.len() as int, k);
}

/// A store that was built opens, and each of its slots leads to the payload that
/// was put in it.
pub proof fn stores_are_read_back(
    store: BuiltStore,
    generation_token: u64,
    stops: Seq<Seq<u8>>,
    routes: Seq<Seq<u8>>,
    trips: Seq<Seq<u8>>,
    shape_ids: Seq<Seq<char>>,
    shapes: Seq<Seq<u8>>,
)
    requires
        is_store_of(store, generation_token, stops, routes, trips, shape_ids, shapes),
        store.index@.len() <= usize::MAX,
        store.data@.len() <= usize::MAX,
        !too_long(stops) && !too_long(routes) && !too_long(trips),
    ensures
        decoded_header(store.index@) is Ok,
        ({
            let header = decoded_header(store.index@)->Ok_0;
            let data = store.data@;
            &&& header.generation_token == generation_token
            &&& header_fault(header, store.index@.len() as int) is None
            &&& forall|i: int| 0 <= i < stops.len() ==> bytes_in(
                data,
                payload_of(#[trigger] slot_entry(store.index@, header.stop_index_offset, header.stop_count, i), data.len() as int),
            ) == Some(stops[i])
            &&& forall|i: int| 0 <= i < routes.len() ==> bytes_in(
                data,
                payload_of(#[trigger] slot_entry(store.index@, header.route_index_offset, header.route_count, i), data.len() as int),
            ) == Some(routes[i])
            &&& forall|i: int| 0 <= i < trips.len() ==> bytes_in(
                data,
                payload_of(#[trigger] slot_entry(store.index@, header.trip_index_offset, header.trip_count, i), data.len() as int),
            ) == Some(trips[i])
            &&& directory_in(directory_bytes_of(header, store.index@)) == Some(
                shape_entries(
                    shape_ids,
                    all_payloads(stops, routes, trips, shapes_in_order(shape_ids, shapes)),
                    (stops.len() + routes.len() + trips.len()) as int,
                    shape_ids.len() as int,
                ),
            )
        }),
{
    let all = all_payloads(stops, routes, trips, shapes_in_order(shape_ids, shapes));
    let direct = (stops.len() + routes.len() + trips.len()) as int;
    let directory = directory_bytes(shape_entries(shape_ids, all, direct, shape_ids.len() as int));
    let header = built_header(generation_token, stops.len() as int, routes.len() as int, trips.len() as int, directory.len() as int);
    let index = store.index@;
    let data = store.data@;
    lemma_auto_spec_u32_to_from_le_bytes();
    lemma_auto_spec_u64_to_from_le_bytes();
    assert(index =~= header_bytes(header) + (joined_entries(all, direct) + directory));
    headers_are_read_back(header, joined_entries(all, direct) + directory);
    entries_have_length(all, direct);
    assert(header_bytes(header).len() == 88);
    assert(index.len() == 88 + 12 * direct + directory.len());
    assert(directory_bytes_of(header, index) =~= directory);
    assert forall|i: int| 0 <= i < stops.len() implies bytes_in(data, payload_of(#[trigger] slot_entry(index, header.stop_index_offset, header.stop_count, i), data.len() as int)) == Some(
        stops[i],
    ) by {
        slot_is_read_back(index, header, all, direct, directory, 0, stops.len() as int, i);
        assert(all[i] == stops[i]);
        payload_is_read_back(data, all, i);
    }
    assert forall|i: int| 0 <= i < routes.len() implies bytes_in(data, payload_of(#[trigger] slot_entry(index, header.route_index_offset, header.route_count, i), data.len() as int))
        == Some(routes[i]) by {
        slot_is_read_back(index, header, all, direct, directory, stops.len() as int, routes.len() as int, i);
        assert(all[stops.len() + i] == routes[i]);
        payload_is_read_back(data, all, stops.len() + i);
    }
    assert forall|i: int| 0 <= i < trips.len() implies bytes_in(data, payload_of(#[trigger] slot_entry(index, header.trip_index_offset, header.trip_count, i), data.len() as int)) == Some(
        trips[i],
    ) by {
        slot_is_read_back(index, header, all, direct, directory, (stops.len() + routes.len()) as int, trips.len() as int, i);
        assert(all[stops.len() + routes.len() + i] == trips[i]);
        payload_is_read_back(data, all, stops.len() + routes.len() + i);
    }
}

proof fn directory_has(entries: Seq<(Seq<char>, u64, u32)>, n: int, k: int)
    requires
        0 <= k < n <= entries.len(),
        forall|i: int, j: int| 0 <= i < j < entries.len() ==> entries[i].0 != entries[j].0,
    ensures
        directory_map(entries, n).dom().contains(entries[k].0),
        directory_map(entries, n)[entries[k].0] == (BlobIndex { offset: entries[k].1, len: entries[k].2 }),
    decreases n,
{
    if k < n - 1 {
        directory_has(entries, n - 1, k);
        assert(entries[k].0 != entries[n - 1].0);
    }
}

proof fn directory_has_only(entries: Seq<(Seq<char>, u64, u32)>, n: int, id: Seq<char>)
    requires
        0 <= n <= entries.len(),
        forall|i: int| 0 <= i < entries.len() ==> (#[trigger] entries[i]).0 != id,
    ensures
        !directory_map(entries, n).dom().contains(id),
    decreases n,
{
    if n > 0 {
        directory_has_only(entries, n - 1, id);
    }
}

/// The directory of a store that was built leads from the id of each shape to its
/// payload, and has no other ids.
pub proof fn shapes_are_read_back(
    store: BuiltStore,
    generation_token: u64,
    stops: Seq<Seq<u8>>,
    routes: Seq<Seq<u8>>,
    trips: Seq<Seq<u8>>,
    shape_ids: Seq<Seq<char>>,
    shapes: Seq<Seq<u8>>,
    id: Seq<char>,
)
    requires
        is_store_of(store, generation_token, stops, routes, trips, shape_ids, shapes),
        store.data@.len() <= usize::MAX,
        shape_ids.len() == shapes.len() <= usize::MAX,
        shape_ids.no_duplicates(),
        !too_long(shapes),
    ensures
        ({
            let all = all_payloads(stops, routes, trips, shapes_in_order(shape_ids, shapes));
            let direct = (stops.len() + routes.len() + trips.len()) as int;
            let entries = shape_entries(shape_ids, all, direct, shape_ids.len() as int);
            let map = directory_map(entries, entries.len() as int);
            &&& map.dom().contains(id) <==> shape_ids.contains(id)
            &&& forall|s: int| 0 <= s < shape_ids.len() && id == #[trigger] shape_ids[s] ==> bytes_in(
                store.data@,
                payload_of(Ok::<BlobIndex, ColdError>(map[id]), store.data@.len() as int),
            ) == Some(shapes[s])
        }),
{
    let ordered = shapes_in_order(shape_ids, shapes);
    let all = all_payloads(stops, routes, trips, ordered);
    let direct = (stops.len() + routes.len() + trips.len()) as int;
    let order = text_order_of(shape_ids);
    let entries = shape_entries(shape_ids, all, direct, shape_ids.len() as int);
    let map = directory_map(entries, entries.len() as int);
    crate::text_order::text_order_exists(shape_ids);
    crate::text_order::text_order_covers(shape_ids, order);
    assert forall|i: int, j: int| 0 <= i < j < entries.len() implies entries[i].0 != entries[j].0 by {
        assert(order[i] != order[j]);
        assert(order[i] < shape_ids.len() && order[j] < shape_ids.len());
    }
    if shape_ids.contains(id) {
        let s = choose|s: int| 0 <= s < shape_ids.len() && shape_ids[s] == id;
        assert(order.contains(s as usize));
        let at = choose|at: int| 0 <= at < order.len() && order[at] == s as usize;
        assert(entries[at].0 == id);
        directory_has(entries, entries.len() as int, at);
        assert(all[direct + at] == ordered[at]);
        assert(ordered[at] == shapes[s]);
        payload_is_read_back(store.data@, all, direct + at);
        assert forall|other: int| 0 <= other < shape_ids.len() && id == #[trigger] shape_ids[other] implies bytes_in(
            store.data@,
            payload_of(Ok::<BlobIndex, ColdError>(map[id]), store.data@.len() as int),
        ) == Some(shapes[other]) by {
            assert(other == s);
        }
    } else {
        assert forall|i: int| 0 <= i < entries.len() implies (#[trigger] entries[i]).0 != id by {
            assert(order[i] < shape_ids.len());
            if entries[i].0 == id {
                assert(shape_ids[order[i] as int] == id);
            }
        }
        directory_has_only(entries, entries.len() as int, id);
    }
}

} // verus!
