use std::io::Write;

use alpha_raptor::osc_text::{osc_event, parse_osc_elements, written_place, XmlEvent};
use alpha_raptor::pbf_anchor::{header_blob_size, read_pbf_replication_anchor, read_u32_be, AnchorError};
use alpha_raptor::street_diff::OscEvent;
use alpha_raptor::text::parse_integer;
use osmpbfreader::fileformat::{Blob, BlobHeader};
use osmpbfreader::osmformat::HeaderBlock;
use protobuf::Message;

fn header_block() -> Vec<u8> {
    let mut block = HeaderBlock::new();
    block.set_osmosis_replication_timestamp(1_776_589_200);
    block.set_osmosis_replication_sequence_number(4123);
    block.set_osmosis_replication_base_url("https://download.geofabrik.de/europe/italy-updates".to_owned());
    block.write_to_bytes().unwrap()
}

fn packed(bytes: &[u8]) -> Vec<u8> {
    let mut packer = flate2::write::ZlibEncoder::new(Vec::new(), flate2::Compression::default());
    packer.write_all(bytes).unwrap();
    packer.finish().unwrap()
}

#[test]
fn extracts_tell_with_which_changes_they_were_taken() {
    let mut header = BlobHeader::new();
    header.set_type("OSMHeader".to_owned());
    header.set_datasize(77);
    assert_eq!(header_blob_size(&header.write_to_bytes().unwrap()), Ok(77));

    let mut blob = Blob::new();
    blob.set_zlib_data(packed(&header_block()));
    let anchor = read_pbf_replication_anchor(&blob.write_to_bytes().unwrap()).unwrap();
    assert_eq!(anchor.sequence_number, Some(4123));
    assert_eq!(anchor.timestamp, Some("2026-04-19T09:00:00+00:00".to_owned()));
    assert_eq!(anchor.base_url, Some("https://download.geofabrik.de/europe/italy-updates".to_owned()));

    let mut plain = Blob::new();
    plain.set_raw(header_block());
    assert_eq!(read_pbf_replication_anchor(&plain.write_to_bytes().unwrap()).unwrap().sequence_number, Some(4123));
    assert_eq!(read_u32_be(&[0, 0, 1, 2]), Some(258));
    assert_eq!(read_u32_be(&[1]), None);
}

#[test]
fn extracts_that_tell_nothing_are_refused() {
    let mut other = BlobHeader::new();
    other.set_type("OSMData".to_owned());
    other.set_datasize(5);
    assert_eq!(header_blob_size(&other.write_to_bytes().unwrap()), Err(AnchorError::NotOsmHeader));
    assert_eq!(header_blob_size(&[0xff]), Err(AnchorError::BadBlobHeader));
    let mut negative = BlobHeader::new();
    negative.set_type("OSMHeader".to_owned());
    negative.set_datasize(-1);
    assert_eq!(header_blob_size(&negative.write_to_bytes().unwrap()), Err(AnchorError::BadBlobHeader));

    assert_eq!(read_pbf_replication_anchor(&[0xff]).err(), Some(AnchorError::BadBlob));
    assert_eq!(read_pbf_replication_anchor(&Blob::new().write_to_bytes().unwrap()).err(), Some(AnchorError::UnsupportedCompression));
    let mut broken = Blob::new();
    broken.set_zlib_data(vec![1, 2, 3]);
    assert_eq!(read_pbf_replication_anchor(&broken.write_to_bytes().unwrap()).err(), Some(AnchorError::BadCompression));
    let mut nonsense = Blob::new();
    nonsense.set_raw(vec![0xff]);
    assert_eq!(read_pbf_replication_anchor(&nonsense.write_to_bytes().unwrap()).err(), Some(AnchorError::BadHeaderBlock));
}

#[test]
fn elements_of_changes_are_read() {
    let text = b"<?xml version='1.0'?><osmChange><modify><node id=\"-7\" lat=\"41.5\" lon=\"12.25\"/><way id=\"12\"><nd ref=\"-7\"/><tag k=\"name\" v=\"Via Roma\"/></way></modify></osmChange>";
    let elements = parse_osc_elements(text).unwrap();
    let names: Vec<&str> = elements
        .iter()
        .map(|element| match element {
            XmlEvent::Start(name, _) | XmlEvent::Empty(name, _) | XmlEvent::End(name) => name.as_str(),
            XmlEvent::Other => "",
        })
        .collect();
    assert_eq!(names, vec!["", "osmChange", "modify", "node", "way", "nd", "tag", "way", "modify", "osmChange"]);
    assert_eq!(written_place(&elements[3]), Some(("41.5".to_owned(), "12.25".to_owned())));
    assert_eq!(written_place(&elements[4]), None);
    match osc_event(&elements[3], None) {
        Some(OscEvent::Empty(node)) => assert_eq!((node.id, node.place), (Some(-7), None)),
        _ => panic!("a node stands alone"),
    }
    match osc_event(&elements[6], None) {
        Some(OscEvent::Empty(tag)) => assert_eq!((tag.key.as_deref(), tag.value.as_deref()), (Some("name"), Some("Via Roma"))),
        _ => panic!("a tag stands alone"),
    }
    assert!(osc_event(&elements[0], None).is_none());
    assert!(matches!(osc_event(&elements[7], None), Some(OscEvent::End(name)) if name == "way"));
    assert!(parse_osc_elements(b"<a></b>").is_none());

    let mut packer = flate2::write::GzEncoder::new(Vec::new(), flate2::Compression::default());
    packer.write_all(text).unwrap();
    assert_eq!(parse_osc_elements(&packer.finish().unwrap()).unwrap().len(), elements.len());
}

#[test]
fn numbers_with_signs_are_read() {
    assert_eq!(parse_integer("-12"), Some(-12));
    assert_eq!(parse_integer("+12"), Some(12));
    assert_eq!(parse_integer("-9223372036854775808"), Some(i64::MIN));
    assert_eq!(parse_integer("9223372036854775808"), None);
    for bad in ["", "-", "-+1", "1x", "--1"] {
        assert_eq!(parse_integer(bad), bad.parse::<i64>().ok());
    }
}
