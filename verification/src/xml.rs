//! The XML events that the encryption descriptor is read from.
//!
//! Tokenising XML is left to `quick_xml`; the reader and the elements it hands
//! out are opaque here, and each wrapper converts what it gets into plain
//! values. The decisions taken on those values live in `agile`.

use vstd::prelude::*;

use quick_xml::events::attributes::{AttrError, Attribute, Attributes};
use quick_xml::events::{BytesStart, Event};
use quick_xml::reader::Reader;

verus! {

// ---------------------------------------------------------------------------
// Plain values: what the descriptor parser consumes
// ---------------------------------------------------------------------------

/// One attribute of an element, or the error met while reading it (with the
/// error's message).
pub enum XmlAttribute {
    Attribute { key: Vec<u8>, value: Vec<u8> },
    Malformed(String),
}

/// A self-closing element `<name attr="value" ... />`: its name and, in
/// document order, what the attribute iterator yields for it.
pub struct XmlElement {
    pub name: Vec<u8>,
    pub attributes: Vec<XmlAttribute>,
}

/// One event of an XML document, as far as the descriptor parser cares.
pub enum XmlEvent {
    /// A self-closing element.
    Empty(XmlElement),
    /// The end of the document.
    Eof,
    /// Any other event (start and end tags, text, comments, declarations).
    Other,
    /// The document is not well formed (with the error's message).
    Malformed(String),
}

/// The mathematical view of an attribute.
pub enum AttributeView {
    Attribute { key: Seq<u8>, value: Seq<u8> },
    Malformed(Seq<char>),
}

/// The mathematical view of a self-closing element.
pub struct ElementView {
    pub name: Seq<u8>,
    pub attributes: Seq<AttributeView>,
}

/// The mathematical view of an event.
pub enum EventView {
    Empty(ElementView),
    Eof,
    Other,
    Malformed(Seq<char>),
}

impl View for XmlAttribute {
    type V = AttributeView;

    open spec fn view(&self) -> AttributeView {
        match self {
            XmlAttribute::Attribute { key, value } => AttributeView::Attribute {
                key: key@,
                value: value@,
            },
            XmlAttribute::Malformed(message) => AttributeView::Malformed(message@),
        }
    }
}

impl View for XmlElement {
    type V = ElementView;

    open spec fn view(&self) -> ElementView {
        ElementView { name: self.name@, attributes: self.attributes@.map_values(|a: XmlAttribute| a@) }
    }
}

impl View for XmlEvent {
    type V = EventView;

    open spec fn view(&self) -> EventView {
        match self {
            XmlEvent::Empty(e) => EventView::Empty(e@),
            XmlEvent::Eof => EventView::Eof,
            XmlEvent::Other => EventView::Other,
            XmlEvent::Malformed(message) => EventView::Malformed(message@),
        }
    }
}

// ---------------------------------------------------------------------------
// quick_xml
// ---------------------------------------------------------------------------

#[verifier::external_type_specification]
#[verifier::external_body]
#[verifier::reject_recursive_types(R)]
pub struct ExReader<R>(Reader<R>);

#[verifier::external_type_specification]
#[verifier::external_body]
pub struct ExBytesStart<'a>(BytesStart<'a>);

#[verifier::external_type_specification]
#[verifier::external_body]
pub struct ExAttributes<'a>(Attributes<'a>);

#[verifier::external_type_specification]
#[verifier::external_body]
pub struct ExAttribute<'a>(Attribute<'a>);

#[verifier::external_type_specification]
#[verifier::external_body]
pub struct ExAttrError(AttrError);

/// An event as `quick_xml` hands it out, with the self-closing element still in
/// `quick_xml`'s own form.
pub enum RawXmlEvent<'a> {
    Empty(BytesStart<'a>),
    Eof,
    Other,
    Malformed(String),
}

/// The events that `quick_xml` reads from `text` with a reader made by
/// `Reader::from_str`, up to the end of the document: an error, if one comes,
/// is the last of them.
pub uninterp spec fn xml_event_views(text: Seq<char>) -> Seq<EventView>;

/// The events that a `quick_xml` reader has yet to hand out before the end of
/// the document.
pub uninterp spec fn pending_events(reader: Reader<&[u8]>) -> Seq<EventView>;

/// The name and the attributes (as the attribute iterator yields them) of a
/// self-closing element handed out by `quick_xml`.
pub uninterp spec fn element_view(element: BytesStart) -> ElementView;

/// The items that a `quick_xml` attribute iterator has yet to yield.
pub uninterp spec fn pending_attributes(attributes: Attributes) -> Seq<AttributeView>;

/// The events of a sequence other than `Other`: the ones the descriptor is read from.
pub open spec fn markup_events(events: Seq<EventView>) -> Seq<EventView> {
    events.filter(|e: EventView| !(e is Other))
}

/// Calls `quick_xml::reader::Reader::from_str`. Claimed: the reader has the
/// events of `text` to hand out.
#[verifier::external_body]
pub(crate) fn xml_reader<'a>(text: &'a str) -> (reader: Reader<&'a [u8]>)
    ensures
        pending_events(reader) == xml_event_views(text@),
{
    Reader::from_str(text)
}

/// Calls `Reader::trim_text(true)`. Claimed, as its source shows: only text
/// events change (they are trimmed, and dropped when nothing is left), so
/// the events other than text (`Other`) stay as they were.
#[verifier::external_body]
pub(crate) fn xml_trim_text(reader: &mut Reader<&[u8]>)
    ensures
        markup_events(pending_events(*final(reader))) == markup_events(pending_events(*old(reader))),
{
    reader.trim_text(true);
}

/// Calls `Reader::read_event` and tells its outcomes apart: a self-closing
/// element, the end of the document, any other event, or an error (turned into
/// its message). Claimed, as the source shows: the reader hands out its
/// pending events in order; after the last of them, and after an error, it
/// reports the end of the document.
#[verifier::external_body]
pub(crate) fn xml_next_event<'a>(reader: &mut Reader<&'a [u8]>) -> (event: RawXmlEvent<'a>)
    ensures
        pending_events(*old(reader)).len() == 0 ==> event is Eof && pending_events(*final(reader)).len() == 0,
        pending_events(*old(reader)).len() > 0 ==> {
            &&& pending_events(*final(reader)) == pending_events(*old(reader)).drop_first()
            &&& match event {
                RawXmlEvent::Empty(element) => pending_events(*old(reader))[0] == EventView::Empty(
                    element_view(element),
                ),
                RawXmlEvent::Eof => false,
                RawXmlEvent::Other => pending_events(*old(reader))[0] is Other,
                RawXmlEvent::Malformed(message) => pending_events(*old(reader))[0]
                    == EventView::Malformed(message@) && pending_events(*final(reader)).len() == 0,
            }
        },
{
    match reader.read_event() {
        Ok(Event::Empty(element)) => RawXmlEvent::Empty(element),
        Ok(Event::Eof) => RawXmlEvent::Eof,
        Ok(Event::Start(_)) | Ok(Event::End(_)) | Ok(Event::Text(_)) => RawXmlEvent::Other,
        Ok(Event::CData(_)) | Ok(Event::Comment(_)) | Ok(Event::Decl(_)) => RawXmlEvent::Other,
        Ok(Event::PI(_)) | Ok(Event::DocType(_)) => RawXmlEvent::Other,
        Err(e) => RawXmlEvent::Malformed(format!("{e}")),
    }
}

/// Calls `BytesStart::name` and copies the name's bytes.
#[verifier::external_body]
pub(crate) fn xml_element_name(element: &BytesStart) -> (name: Vec<u8>)
    ensures
        name@ == element_view(*element).name,
{
    element.name().as_ref().to_vec()
}

/// Calls `BytesStart::attributes`. Claimed: the iterator yields the element's
/// attributes.
#[verifier::external_body]
pub(crate) fn xml_attributes<'b>(element: &'b BytesStart) -> (attributes: Attributes<'b>)
    ensures
        pending_attributes(attributes) == element_view(*element).attributes,
{
    element.attributes()
}

/// Calls `Iterator::next` on the attribute iterator of `quick_xml` and copies the
/// attribute's key and raw value, or turns the error into its message. Claimed,
/// as the source shows: the items come in order, and once they are exhausted
/// the iterator (a `FusedIterator`) yields nothing more.
#[verifier::external_body]
pub(crate) fn xml_next_attribute(attributes: &mut Attributes) -> (item: Option<XmlAttribute>)
    ensures
        pending_attributes(*old(attributes)).len() == 0 ==> item is None && pending_attributes(
            *final(attributes),
        ).len() == 0,
        pending_attributes(*old(attributes)).len() > 0 ==> (item matches Some(a) && a@
            == pending_attributes(*old(attributes))[0] && pending_attributes(*final(attributes))
            == pending_attributes(*old(attributes)).drop_first()),
{
    match attributes.next() {
        None => None,
        Some(Ok(attribute)) => Some(
            XmlAttribute::Attribute {
                key: attribute.key.as_ref().to_vec(),
                value: attribute.value.to_vec(),
            },
        ),
        Some(Err(e)) => Some(XmlAttribute::Malformed(format!("{e}"))),
    }
}

/// Reads the attributes of a self-closing element.
fn read_attributes(element: &BytesStart) -> (attributes: Vec<XmlAttribute>)
    ensures
        attributes@.map_values(|a: XmlAttribute| a@) == element_view(*element).attributes,
{
    let mut iter = xml_attributes(element);
    let ghost all = element_view(*element).attributes;
    let mut attributes: Vec<XmlAttribute> = Vec::new();
    loop
        invariant
            all == element_view(*element).attributes,
            all == attributes@.map_values(|a: XmlAttribute| a@) + pending_attributes(iter),
        decreases pending_attributes(iter).len(),
    {
        let ghost before = pending_attributes(iter);
        match xml_next_attribute(&mut iter) {
            None => {
                assert(all =~= attributes@.map_values(|a: XmlAttribute| a@));
                return attributes;
            },
            Some(a) => {
                attributes.push(a);
                assert(attributes@.map_values(|a: XmlAttribute| a@) + pending_attributes(iter) =~= all);
            },
        }
    }
}

/// Reads the events of an XML text with `quick_xml`, with text trimming on,
/// up to the end of the document or the first error.
pub fn xml_events(text: &str) -> (events: Vec<XmlEvent>)
    ensures
        markup_events(events@.map_values(|e: XmlEvent| e@)) == markup_events(xml_event_views(text@)),
{
    let mut reader = xml_reader(text);
    xml_trim_text(&mut reader);
    let ghost all = pending_events(reader);
    let mut events: Vec<XmlEvent> = Vec::new();
    loop
        invariant
            markup_events(all) == markup_events(xml_event_views(text@)),
            all == events@.map_values(|e: XmlEvent| e@) + pending_events(reader),
        decreases pending_events(reader).len(),
    {
        let ghost before = pending_events(reader);
        let ghost seen = events@.map_values(|e: XmlEvent| e@);
        let event = xml_next_event(&mut reader);
        match event {
            RawXmlEvent::Eof => {
                assert(all =~= seen);
                return events;
            },
            RawXmlEvent::Other => {
                events.push(XmlEvent::Other);
            },
            RawXmlEvent::Malformed(message) => {
                events.push(XmlEvent::Malformed(message));
                assert(events@.map_values(|e: XmlEvent| e@) =~= seen.push(before[0]));
                assert(all =~= events@.map_values(|e: XmlEvent| e@));
                return events;
            },
            RawXmlEvent::Empty(element) => {
                let name = xml_element_name(&element);
                let attributes = read_attributes(&element);
                events.push(XmlEvent::Empty(XmlElement { name, attributes }));
            },
        }
        assert(events@.map_values(|e: XmlEvent| e@) =~= seen.push(before[0]));
        assert(events@.map_values(|e: XmlEvent| e@) + pending_events(reader) =~= all);
    }
}

} // verus!
