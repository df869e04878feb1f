//! Lists of changes to a map as they are written: the elements of the text, and
//! what is taken from them.

use crate::model::PolylinePoint;
use crate::street_diff::{bytes_view, inflated, is_gzip, maybe_decompress_osc, OscElement, OscEvent};
use crate::text::{parse_integer, parsed_integer, same_text, text_view};
use quick_xml::events::{BytesStart, Event};
use quick_xml::Reader;
use vstd::prelude::*;

verus! {

/// An element of a text, with its name and attributes.
#[derive(Clone, Debug)]
pub enum XmlEvent {
    /// An element that has others in it begins.
    Start(String, Vec<(String, String)>),
    /// An element without others in it.
    Empty(String, Vec<(String, String)>),
    /// An element with others in it ends.
    End(String),
    /// Something else.
    Other,
}

/// An element as plain values.
pub enum XmlEventView {
    Start(Seq<char>, Seq<(Seq<char>, Seq<char>)>),
    Empty(Seq<char>, Seq<(Seq<char>, Seq<char>)>),
    End(Seq<char>),
    Other,
}

/// Attributes as plain values.
pub open spec fn attributes_view(attributes: Seq<(String, String)>) -> Seq<(Seq<char>, Seq<char>)> {
    Seq::new(attributes.len(), |i: int| (attributes[i].0@, attributes[i].1@))
}

impl XmlEvent {
    /// The element as plain values.
    pub open spec fn view(&self) -> XmlEventView {
        match *self {
            XmlEvent::Start(name, attributes) => XmlEventView::Start(name@, attributes_view(attributes@)),
            XmlEvent::Empty(name, attributes) => XmlEventView::Empty(name@, attributes_view(attributes@)),
            XmlEvent::End(name) => XmlEventView::End(name@),
            XmlEvent::Other => XmlEventView::Other,
        }
    }
}

/// Elements as plain values.
pub open spec fn events_view(events: Option<Vec<XmlEvent>>) -> Option<Seq<XmlEventView>> {
    match events {
        Some(list) => Some(Seq::new(list@.len(), |i: int| list@[i]@)),
        None => None,
    }
}

/// The elements that the Reader of the quick_xml crate finds in bytes; nothing
/// where it meets an error.
pub uninterp spec fn elements_in(bytes: Seq<u8>) -> Option<Seq<XmlEventView>>;

/// `Reader::from_reader` of the quick_xml crate over bytes, and its `read_event`
/// up to the end of the text. The elements follow from the bytes alone, in their
/// order; attributes that cannot be read are not among them, and values are as
/// they are written. Which elements those are for given bytes is not stated.
#[verifier::external_body]
fn read_elements(bytes: &[u8]) -> (events: Option<Vec<XmlEvent>>)
    ensures
        events_view(events) == elements_in(bytes@),
{
    let pairs = |e: &BytesStart| e.attributes().flatten().map(|a| (a.key.0.to_owned(), a.value.to_string())).collect();
    let mut reader = Reader::from_reader(bytes);
    let mut events: Vec<XmlEvent> = Vec::new();
    loop {
        events.push(match reader.read_event().ok()? {
            Event::Eof => return Some(events),
            Event::Start(e) => XmlEvent::Start(e.name().0.to_owned(), pairs(&e)),
            Event::Empty(e) => XmlEvent::Empty(e.name().0.to_owned(), pairs(&e)),
            Event::End(e) => XmlEvent::End(e.name().0.to_owned()),
            _ => XmlEvent::Other,
        });
    }
}

/// The elements of a list of changes, inflated first if it is compressed.
pub fn parse_osc_elements(bytes: &[u8]) -> (events: Option<Vec<XmlEvent>>)
    ensures
        events_view(events) == match if is_gzip(bytes@) { inflated(bytes@) } else { Some(bytes@) } {
            Some(plain) => elements_in(plain),
            None => None,
        },
{
    match maybe_decompress_osc(bytes) {
        Some(plain) => {
            assert(bytes_view(Some(plain)) == Some(plain@));
            read_elements(plain.as_slice())
        },
        None => None,
    }
}

/// The first value of an attribute, from the `k`th on.
pub open spec fn attribute_of(attributes: Seq<(Seq<char>, Seq<char>)>, key: Seq<char>, k: int) -> Option<Seq<char>>
    decreases attributes.len() - k,
{
    if k < 0 || k >= attributes.len() {
        None
    } else if attributes[k].0 == key {
        Some(attributes[k].1)
    } else {
        attribute_of(attributes, key, k + 1)
    }
}

/// Finds the first value of an attribute.
pub fn find_attribute(attributes: &Vec<(String, String)>, key: &str) -> (value: Option<String>)
    ensures
        text_view(value) == attribute_of(attributes_view(attributes@), key@, 0),
{
    let ghost shown = attributes_view(attributes@);
    let mut k: usize = 0;
    while k < attributes.len()
        invariant
            k <= attributes@.len(),
            shown == attributes_view(attributes@),
            attribute_of(shown, key@, 0) == attribute_of(shown, key@, k as int),
        decreases attributes.len() - k,
    {
        assert(shown[k as int] == (attributes@[k as int].0@, attributes@[k as int].1@));
        if same_text(attributes[k].0.as_str(), key) {
            return Some(attributes[k].1.clone());
        }
        k = k + 1;
    }
    None
}

/// The number that an attribute gives, if it gives one.
pub open spec fn number_of_attribute(attributes: Seq<(Seq<char>, Seq<char>)>, key: Seq<char>) -> Option<i64> {
    match attribute_of(attributes, key, 0) {
        Some(text) => parsed_integer(text),
        None => None,
    }
}

fn find_number(attributes: &Vec<(String, String)>, key: &str) -> (number: Option<i64>)
    ensures
        number == number_of_attribute(attributes_view(attributes@), key@),
{
    match find_attribute(attributes, key) {
        Some(text) => parse_integer(text.as_str()),
        None => None,
    }
}

/// Whether an element is what its name and attributes give, in a place.
pub open spec fn is_element(element: OscElement, name: Seq<char>, attributes: Seq<(Seq<char>, Seq<char>)>, place: Option<PolylinePoint>) -> bool {
    &&& element.name@ == name
    &&& element.id == number_of_attribute(attributes, "id"@)
    &&& element.reference == number_of_attribute(attributes, "ref"@)
    &&& text_view(element.key) == attribute_of(attributes, "k"@, 0)
    &&& text_view(element.value) == attribute_of(attributes, "v"@, 0)
    &&& element.place == place
}

fn take_element(name: &String, attributes: &Vec<(String, String)>, place: Option<PolylinePoint>) -> (element: OscElement)
    ensures
        is_element(element, name@, attributes_view(attributes@), place),
{
    OscElement {
        name: name.clone(),
        id: find_number(attributes, "id"),
        reference: find_number(attributes, "ref"),
        key: find_attribute(attributes, "k"),
        value: find_attribute(attributes, "v"),
        place: place,
    }
}

/// What a list of changes says with an element, in the place that its coordinates
/// give.
pub fn osc_event(event: &XmlEvent, place: Option<PolylinePoint>) -> (taken: Option<OscEvent>)
    ensures
        match event@ {
            XmlEventView::Start(name, attributes) => match taken {
                Some(OscEvent::Start(element)) => is_element(element, name, attributes, place),
                _ => false,
            },
            XmlEventView::Empty(name, attributes) => match taken {
                Some(OscEvent::Empty(element)) => is_element(element, name, attributes, place),
                _ => false,
            },
            XmlEventView::End(name) => match taken {
                Some(OscEvent::End(ended)) => ended@ == name,
                _ => false,
            },
            XmlEventView::Other => taken is None,
        },
{
    match event {
        XmlEvent::Start(name, attributes) => Some(OscEvent::Start(take_element(name, attributes, place))),
        XmlEvent::Empty(name, attributes) => Some(OscEvent::Empty(take_element(name, attributes, place))),
        XmlEvent::End(name) => Some(OscEvent::End(name.clone())),
        XmlEvent::Other => None,
    }
}

/// The coordinates of an element as they are written, if it has both.
pub fn written_place(event: &XmlEvent) -> (place: Option<(String, String)>)
    ensures
        match event@ {
            XmlEventView::Start(_, attributes) | XmlEventView::Empty(_, attributes) => {
                let lat = attribute_of(attributes, "lat"@, 0);
                let lon = attribute_of(attributes, "lon"@, 0);
                match place {
                    Some((a, b)) => lat == Some(a@) && lon == Some(b@),
                    None => lat is None || lon is None,
                }
            },
            _ => place is None,
        },
{
    match event {
        XmlEvent::Start(_, attributes) | XmlEvent::Empty(_, attributes) => match (find_attribute(attributes, "lat"), find_attribute(attributes, "lon")) {
            (Some(lat), Some(lon)) => Some((lat, lon)),
            _ => None,
        },
        _ => None,
    }
}

} // verus!
