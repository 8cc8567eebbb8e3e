//! The tokenizer: the events that the `xml` crate reads from a source.

use vstd::prelude::*;
use crate::tree::AttributeView;
use crate::tree::NameView;
use crate::tree::NamespaceView;
use crate::tree::XmlAttribute;
use crate::tree::XmlName;
use crate::tree::XmlNamespace;
use crate::tree::XmlVersion;
use xml::reader::XmlEvent;

verus! {

/// The events of a source: an `xml::reader::Events` over the bytes of the
/// source, and the event that was read from it last.
#[verifier::external_body]
pub struct EventSource<'a> {
    events: xml::reader::Events<&'a [u8]>,
    current: Option<XmlEvent>,
}

/// `xml::reader::Error`: why a source is not well-formed.
#[verifier::external_type_specification]
#[verifier::external_body]
pub struct ExReaderError(xml::reader::Error);

/// One event of a source, as the tree builder reads it.
#[derive(Debug)]
pub enum ParseEvent {
    StartDocument { version: XmlVersion, encoding: String, standalone: Option<bool> },
    StartElement { name: XmlName, attributes: Vec<XmlAttribute>, namespace: Vec<XmlNamespace> },
    EndElement,
    Characters(String),
    Comment(String),
    CData(String),
    Whitespace(String),
    /// The end of the document, or an event that the tree does not hold.
    Other,
}

/// The mathematical value of a [`ParseEvent`].
pub enum ParseEventView {
    StartDocument { version: XmlVersion, encoding: Seq<char>, standalone: Option<bool> },
    StartElement { name: NameView, attributes: Seq<AttributeView>, namespace: Seq<NamespaceView> },
    EndElement,
    Characters(Seq<char>),
    Comment(Seq<char>),
    CData(Seq<char>),
    Whitespace(Seq<char>),
    Other,
}

impl View for ParseEvent {
    type V = ParseEventView;

    open spec fn view(&self) -> ParseEventView {
        match *self {
            ParseEvent::StartDocument { version, encoding, standalone } => ParseEventView::StartDocument {
                version,
                encoding: encoding@,
                standalone,
            },
            ParseEvent::StartElement { name, attributes, namespace } => ParseEventView::StartElement {
                name: name@,
                attributes: attributes@.map_values(|a: XmlAttribute| a@),
                namespace: namespace@.map_values(|b: XmlNamespace| b@),
            },
            ParseEvent::EndElement => ParseEventView::EndElement,
            ParseEvent::Characters(s) => ParseEventView::Characters(s@),
            ParseEvent::Comment(s) => ParseEventView::Comment(s@),
            ParseEvent::CData(s) => ParseEventView::CData(s@),
            ParseEvent::Whitespace(s) => ParseEventView::Whitespace(s@),
            ParseEvent::Other => ParseEventView::Other,
        }
    }
}

/// What kind of event it is.
#[derive(Clone, Copy, Debug, PartialEq, Eq, Structural)]
pub enum EventKind {
    StartDocument,
    StartElement,
    EndElement,
    Characters,
    Comment,
    CData,
    Whitespace,
    Other,
}

impl ParseEventView {
    /// What kind of event it is.
    pub open spec fn kind(self) -> EventKind {
        match self {
            ParseEventView::StartDocument { .. } => EventKind::StartDocument,
            ParseEventView::StartElement { .. } => EventKind::StartElement,
            ParseEventView::EndElement => EventKind::EndElement,
            ParseEventView::Characters(_) => EventKind::Characters,
            ParseEventView::Comment(_) => EventKind::Comment,
            ParseEventView::CData(_) => EventKind::CData,
            ParseEventView::Whitespace(_) => EventKind::Whitespace,
            ParseEventView::Other => EventKind::Other,
        }
    }

    /// The text that the event holds, if it holds one.
    pub open spec fn text(self) -> Seq<char> {
        match self {
            ParseEventView::Characters(s) => s,
            ParseEventView::Comment(s) => s,
            ParseEventView::CData(s) => s,
            ParseEventView::Whitespace(s) => s,
            _ => Seq::empty(),
        }
    }
}

/// What `xml::reader::EventReader`, with its default configuration, yields
/// for the bytes of a source: its events in order, with nothing in the place
/// of an event where the source is not well-formed there.
pub uninterp spec fn tokens(source: Seq<u8>) -> Seq<Option<ParseEventView>>;

/// What the events of a source have yet to yield.
pub uninterp spec fn pending(events: EventSource) -> Seq<Option<ParseEventView>>;

/// The event that was read last.
pub uninterp spec fn current(events: EventSource) -> ParseEventView;

/// `EventReader::new` and `into_iter`: the iterator over the events of
/// `source`, which has yet to yield all of them.
#[verifier::external_body]
pub(crate) fn read_events<'a>(source: &'a [u8]) -> (events: EventSource<'a>)
    ensures
        pending(events) == tokens(source@),
{
    EventSource { events: xml::reader::EventReader::new(source).into_iter(), current: None }
}

/// `Events::next`: reads the first of the events that are left, if any is,
/// and tells its kind; an error stands for an event that the source does
/// not yield.
#[verifier::external_body]
pub(crate) fn advance(events: &mut EventSource) -> (r: Option<Result<EventKind, xml::reader::Error>>)
    ensures
        pending(*old(events)).len() == 0 ==> r is None && pending(*final(events)) == pending(*old(events)),
        pending(*old(events)).len() > 0 ==> pending(*final(events)) == pending(*old(events)).drop_first() && match r {
            Some(Ok(kind)) => pending(*old(events))[0] == Some(current(*final(events))) && kind == current(*final(events)).kind(),
            Some(Err(_)) => pending(*old(events))[0] is None,
            None => false,
        },
{
    let event = match events.events.next()? { Ok(event) => event, Err(e) => return Some(Err(e)) };
    let kind = match &event {
        XmlEvent::StartDocument { .. } => EventKind::StartDocument,
        XmlEvent::StartElement { .. } => EventKind::StartElement,
        XmlEvent::EndElement { .. } => EventKind::EndElement,
        XmlEvent::Characters(_) => EventKind::Characters,
        XmlEvent::Comment(_) => EventKind::Comment,
        XmlEvent::CData(_) => EventKind::CData,
        XmlEvent::Whitespace(_) => EventKind::Whitespace,
        _ => EventKind::Other,
    };
    events.current = Some(event);
    Some(Ok(kind))
}

/// The text of the event read last: the content of `XmlEvent::Characters`,
/// `Comment`, `CData` or `Whitespace`.
#[verifier::external_body]
pub(crate) fn event_text(events: &EventSource) -> (text: String)
    ensures
        text@ == current(*events).text(),
{
    match &events.current {
        Some(XmlEvent::Characters(s)) | Some(XmlEvent::Comment(s)) => s.clone(),
        Some(XmlEvent::CData(s)) | Some(XmlEvent::Whitespace(s)) => s.clone(),
        _ => String::new(),
    }
}

/// The fields of the `XmlEvent::StartDocument` read last.
#[verifier::external_body]
pub(crate) fn event_declaration(events: &EventSource) -> (r: (XmlVersion, String, Option<bool>))
    requires
        current(*events) is StartDocument,
    ensures
        current(*events) == (ParseEventView::StartDocument { version: r.0, encoding: r.1@, standalone: r.2 }),
{
    match &events.current {
        Some(XmlEvent::StartDocument { version: xml::common::XmlVersion::Version11, encoding, standalone }) => (XmlVersion::Version11, encoding.clone(), *standalone),
        Some(XmlEvent::StartDocument { encoding, standalone, .. }) => (XmlVersion::Version10, encoding.clone(), *standalone),
        _ => (XmlVersion::Version10, String::new(), None),
    }
}

/// The name of the `XmlEvent::StartElement` read last.
#[verifier::external_body]
pub(crate) fn event_name(events: &EventSource) -> (name: XmlName)
    requires
        current(*events) is StartElement,
    ensures
        name@ == current(*events)->StartElement_name,
{
    match &events.current {
        Some(XmlEvent::StartElement { name, .. }) => XmlName { local_name: name.local_name.clone(), namespace: name.namespace.clone(), prefix: name.prefix.clone() },
        _ => XmlName { local_name: String::new(), namespace: None, prefix: None },
    }
}

/// The attributes of the `XmlEvent::StartElement` read last, in order.
#[verifier::external_body]
pub(crate) fn event_attributes(events: &EventSource) -> (attributes: Vec<XmlAttribute>)
    requires
        current(*events) is StartElement,
    ensures
        attributes@.map_values(|a: XmlAttribute| a@) == current(*events)->StartElement_attributes,
{
    match &events.current {
        Some(XmlEvent::StartElement { attributes, .. }) => attributes.iter().map(|a| XmlAttribute {
            name: XmlName { local_name: a.name.local_name.clone(), namespace: a.name.namespace.clone(), prefix: a.name.prefix.clone() },
            value: a.value.clone(),
        }).collect(),
        _ => Vec::new(),
    }
}

/// The namespace bindings of the `XmlEvent::StartElement` read last, in
/// the order of their prefixes.
#[verifier::external_body]
pub(crate) fn event_namespace(events: &EventSource) -> (namespace: Vec<XmlNamespace>)
    requires
        current(*events) is StartElement,
    ensures
        namespace@.map_values(|b: XmlNamespace| b@) == current(*events)->StartElement_namespace,
{
    match &events.current {
        Some(XmlEvent::StartElement { namespace, .. }) => namespace.0.iter().map(|(prefix, uri)| XmlNamespace { prefix: prefix.clone(), uri: uri.clone() }).collect(),
        _ => Vec::new(),
    }
}

/// Reads the first of the events that are left, if any is; an error stands
/// for an event that the source does not yield.
pub(crate) fn next_event(events: &mut EventSource) -> (r: Option<Result<ParseEvent, xml::reader::Error>>)
    ensures
        pending(*old(events)).len() == 0 ==> r is None && pending(*final(events)) == pending(*old(events)),
        pending(*old(events)).len() > 0 ==> pending(*final(events)) == pending(*old(events)).drop_first() && match r {
            Some(Ok(event)) => pending(*old(events))[0] == Some(event@),
            Some(Err(_)) => pending(*old(events))[0] is None,
            None => false,
        },
{
    match advance(events) {
        None => None,
        Some(Err(e)) => Some(Err(e)),
        Some(Ok(kind)) => Some(
            Ok(
                match kind {
                    EventKind::StartDocument => {
                        let (version, encoding, standalone) = event_declaration(events);
                        ParseEvent::StartDocument { version, encoding, standalone }
                    },
                    EventKind::StartElement => ParseEvent::StartElement {
                        name: event_name(events),
                        attributes: event_attributes(events),
                        namespace: event_namespace(events),
                    },
                    EventKind::EndElement => ParseEvent::EndElement,
                    EventKind::Characters => ParseEvent::Characters(event_text(events)),
                    EventKind::Comment => ParseEvent::Comment(event_text(events)),
                    EventKind::CData => ParseEvent::CData(event_text(events)),
                    EventKind::Whitespace => ParseEvent::Whitespace(event_text(events)),
                    EventKind::Other => ParseEvent::Other,
                },
            ),
        ),
    }
}

} // verus!
