//! XML text, as far as its elements are read here.

use vstd::prelude::*;
use vstd::utf8::encode_utf8;

verus! {

/// One step of a reader through an XML text.
pub enum XmlEvent {
    /// A start tag; an attribute that is not well-formed is `None`.
    Start { name: Vec<u8>, attributes: Vec<Option<XmlAttribute>> },
    /// The end of the text.
    Eof,
    /// Anything else.
    Other,
}

/// An attribute as it is written.
pub struct XmlAttribute {
    pub key: Vec<u8>,
    pub value: Vec<u8>,
}

/// What an [`XmlEvent`] says; an attribute is its key and its value.
pub enum XmlEventView {
    Start { name: Seq<u8>, attributes: Seq<Option<(Seq<u8>, Seq<u8>)>> },
    Eof,
    Other,
}

/// What an attribute says.
pub open spec fn attribute_view(a: Option<XmlAttribute>) -> Option<(Seq<u8>, Seq<u8>)> {
    match a {
        Some(a) => Some((a.key@, a.value@)),
        None => None,
    }
}

/// What the attributes of a tag say.
pub open spec fn attribute_views(attributes: Seq<Option<XmlAttribute>>) -> Seq<
    Option<(Seq<u8>, Seq<u8>)>,
> {
    attributes.map_values(|a: Option<XmlAttribute>| attribute_view(a))
}

impl View for XmlEvent {
    type V = XmlEventView;

    open spec fn view(&self) -> XmlEventView {
        match self {
            XmlEvent::Start { name, attributes } => XmlEventView::Start {
                name: name@,
                attributes: attribute_views(attributes@),
            },
            XmlEvent::Eof => XmlEventView::Eof,
            XmlEvent::Other => XmlEventView::Other,
        }
    }
}

/// `quick_xml::Reader`, which walks through an XML text.
#[verifier::external_type_specification]
#[verifier::external_body]
#[verifier::reject_recursive_types(R)]
pub struct ExXmlReader<R>(quick_xml::Reader<R>);

/// The text that a reader was made for.
pub uninterp spec fn xml_source(reader: quick_xml::Reader<&[u8]>) -> Seq<char>;

/// The reads made by a reader so far: of an event, `None`; of the text up to an end tag, the name
/// of that tag.
pub uninterp spec fn xml_reads(reader: quick_xml::Reader<&[u8]>) -> Seq<Option<Seq<u8>>>;

/// The event that comes after the given reads of `source`, or why none comes.
pub uninterp spec fn xml_event(source: Seq<char>, reads: Seq<Option<Seq<u8>>>) -> Result<
    XmlEventView,
    Seq<char>,
>;

/// What stands, after the given reads of `source`, before the end tag `name` that closes the
/// element just entered, or why it cannot be read.
pub uninterp spec fn xml_text(
    source: Seq<char>,
    reads: Seq<Option<Seq<u8>>>,
    name: Seq<u8>,
) -> Result<Seq<u8>, Seq<char>>;

/// An attribute value as XML 1.1 normalizes it, with its references resolved, or why it cannot be.
pub uninterp spec fn xml_attribute_value(raw: Seq<u8>) -> Result<Seq<char>, Seq<char>>;

/// A text with its entity and character references resolved, or why they cannot be.
pub uninterp spec fn xml_unescaped(raw: Seq<char>) -> Result<Seq<char>, Seq<char>>;

/// `quick_xml::Reader::from_str`, with white space around texts trimmed by `Config::trim_text`.
/// The reader is at the start of the text.
#[verifier::external_body]
pub(crate) fn open_xml<'a>(xml: &'a str) -> (reader: quick_xml::Reader<&'a [u8]>)
    ensures
        xml_source(reader) == xml@,
        xml_reads(reader) == Seq::<Option<Seq<u8>>>::empty(),
{
    let mut reader = quick_xml::Reader::from_str(xml);
    reader.config_mut().trim_text(true);
    reader
}

/// `quick_xml::Reader::read_event_into`. The event, which depends on the text and on what was read
/// of it, has the name [`xml_event`]. Every read that is followed by an event other than the end of
/// the text has moved the reader forward, by a byte at least. An error is turned into its message.
#[verifier::external_body]
pub(crate) fn next_xml_event(reader: &mut quick_xml::Reader<&[u8]>) -> (event: Result<
    XmlEvent,
    String,
>)
    ensures
        xml_source(*final(reader)) == xml_source(*old(reader)),
        xml_reads(*final(reader)) == xml_reads(*old(reader)).push(None),
        match event {
            Ok(e) => xml_event(xml_source(*old(reader)), xml_reads(*old(reader))) == Ok::<
                XmlEventView,
                Seq<char>,
            >(e@),
            Err(m) => xml_event(xml_source(*old(reader)), xml_reads(*old(reader))) == Err::<
                XmlEventView,
                Seq<char>,
            >(m@),
        },
        event is Ok && !(event->Ok_0 is Eof) ==> xml_reads(*final(reader)).len() <= encode_utf8(
            xml_source(*old(reader)),
        ).len(),
{
    let mut buf = Vec::new();
    match reader.read_event_into(&mut buf).map_err(|e| e.to_string())? {
        quick_xml::events::Event::Start(s) => Ok(XmlEvent::Start {
            name: s.name().as_ref().to_vec(),
            attributes: s.attributes().map(|a| a.ok().map(|a| XmlAttribute {
                key: a.key.as_ref().to_vec(),
                value: a.value.to_vec(),
            })).collect(),
        }),
        quick_xml::events::Event::Eof => Ok(XmlEvent::Eof),
        _ => Ok(XmlEvent::Other),
    }
}

/// `quick_xml::Reader::read_text`: the bytes up to the end tag that closes the element just
/// entered, which is read too. They depend on the text, on what was read of it and on the name of
/// the tag, and have the name [`xml_text`]. Reading them has moved the reader forward, by a byte at
/// least, and so has every read before. An error is turned into its message.
#[verifier::external_body]
pub(crate) fn read_xml_text(reader: &mut quick_xml::Reader<&[u8]>, name: &[u8]) -> (text: Result<
    Vec<u8>,
    String,
>)
    ensures
        xml_source(*final(reader)) == xml_source(*old(reader)),
        xml_reads(*final(reader)) == xml_reads(*old(reader)).push(Some(name@)),
        match text {
            Ok(t) => xml_text(xml_source(*old(reader)), xml_reads(*old(reader)), name@) == Ok::<
                Seq<u8>,
                Seq<char>,
            >(t@),
            Err(m) => xml_text(xml_source(*old(reader)), xml_reads(*old(reader)), name@) == Err::<
                Seq<u8>,
                Seq<char>,
            >(m@),
        },
        text is Ok ==> xml_reads(*final(reader)).len() <= encode_utf8(
            xml_source(*old(reader)),
        ).len(),
{
    match reader.read_text(quick_xml::name::QName(name)) {
        Ok(text) => Ok(text.into_inner().into_owned()),
        Err(e) => Err(e.to_string()),
    }
}

/// `quick_xml::events::attributes::Attribute::normalized_value` for XML 1.1. The outcome, which
/// depends on the raw value alone, has the name [`xml_attribute_value`]. An error is turned into
/// its message.
#[verifier::external_body]
pub(crate) fn normalize_attribute(raw: &[u8]) -> (value: Result<String, String>)
    ensures
        match value {
            Ok(v) => xml_attribute_value(raw@) == Ok::<Seq<char>, Seq<char>>(v@),
            Err(m) => xml_attribute_value(raw@) == Err::<Seq<char>, Seq<char>>(m@),
        },
{
    let attribute = quick_xml::events::attributes::Attribute::from((&[][..], raw));
    match attribute.normalized_value(quick_xml::XmlVersion::Explicit1_1) {
        Ok(value) => Ok(value.into_owned()),
        Err(e) => Err(e.to_string()),
    }
}

/// `quick_xml::escape::unescape`. The outcome, which depends on the text alone, has the name
/// [`xml_unescaped`]. An error is turned into its message.
#[verifier::external_body]
pub(crate) fn unescape_xml(raw: &str) -> (text: Result<String, String>)
    ensures
        match text {
            Ok(t) => xml_unescaped(raw@) == Ok::<Seq<char>, Seq<char>>(t@),
            Err(m) => xml_unescaped(raw@) == Err::<Seq<char>, Seq<char>>(m@),
        },
{
    match quick_xml::escape::unescape(raw) {
        Ok(text) => Ok(text.into_owned()),
        Err(e) => Err(e.to_string()),
    }
}

} // verus!
