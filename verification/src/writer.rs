//! The emitter: the events that the `xml` crate writes as text.

use vstd::prelude::*;
use vstd::utf8::decode_utf8;
use vstd::utf8::valid_utf8;
use crate::tree::AttributeView;
use crate::tree::NameView;
use crate::tree::NamespaceView;
use crate::tree::XmlAttribute;
use crate::tree::XmlName;
use crate::tree::XmlNamespace;
use crate::tree::XmlVersion;
use xml::attribute::Attribute;
use xml::name::Name;
use xml::namespace::Namespace;
use xml::writer::XmlEvent;

verus! {

/// `xml::writer::EventWriter`: the emitter, over the sink it writes to.
#[verifier::external_type_specification]
#[verifier::external_body]
#[verifier::reject_recursive_types(W)]
pub struct ExEventWriter<W>(xml::writer::EventWriter<W>);

/// `xml::writer::Error`: why the emitter refused an event.
#[verifier::external_type_specification]
#[verifier::external_body]
pub struct ExWriterError(xml::writer::Error);

/// `std::string::FromUtf8Error`: why bytes are not a string.
#[verifier::external_type_specification]
#[verifier::external_body]
pub struct ExFromUtf8Error(std::string::FromUtf8Error);

/// One event handed to the emitter.
pub enum WriteEvent {
    StartDocument { version: XmlVersion, encoding: Seq<char>, standalone: Option<bool> },
    StartElement { name: NameView, attributes: Seq<AttributeView>, namespace: Seq<NamespaceView> },
    EndElement { name: NameView },
    Characters(Seq<char>),
    Comment(Seq<char>),
    CData(Seq<char>),
}

/// The events that have been handed to an emitter, in order.
pub uninterp spec fn emitted(w: xml::writer::EventWriter<Vec<u8>>) -> Seq<WriteEvent>;

/// What an emitter was made with: whether it indents, and the text of one
/// level of indentation.
pub uninterp spec fn configured(w: xml::writer::EventWriter<Vec<u8>>) -> (bool, Seq<char>);

/// Whether an emitter was made over an empty sink, with every option but
/// the two of `configured` at its default.
pub uninterp spec fn standard(w: xml::writer::EventWriter<Vec<u8>>) -> bool;

/// The bytes that an emitter made over an empty sink with `pretty` and
/// `indent`, and with every other option at its default, has written once
/// it has been handed `events`.
pub uninterp spec fn rendered(events: Seq<WriteEvent>, pretty: bool, indent: Seq<char>) -> Seq<u8>;

/// Whether the declaration of the document is behind the emitter: it has
/// been handed a document start, or the start of an element or characters,
/// before which it writes the declaration by itself.
pub open spec fn declared(events: Seq<WriteEvent>) -> bool
    decreases events.len(),
{
    if events.len() == 0 {
        false
    } else {
        events.last() is StartDocument || events.last() is StartElement || events.last() is Characters || declared(events.drop_last())
    }
}

/// The names of the elements that are open, outermost first: the start of
/// an element opens it, and the end of an element, accepted or refused,
/// closes the innermost that is open.
pub open spec fn open_names(events: Seq<WriteEvent>) -> Seq<NameView>
    decreases events.len(),
{
    if events.len() == 0 {
        Seq::empty()
    } else {
        let before = open_names(events.drop_last());
        match events.last() {
            WriteEvent::StartElement { name, .. } => before.push(name),
            WriteEvent::EndElement { .. } => if before.len() > 0 {
                before.drop_last()
            } else {
                before
            },
            _ => before,
        }
    }
}

/// `EmitterConfig::create_writer`: an emitter over an empty sink that has
/// been handed nothing, with the indentation set and every other option at
/// its default.
#[verifier::external_body]
pub(crate) fn new_writer(pretty: bool, indent: String) -> (w: xml::writer::EventWriter<Vec<u8>>)
    ensures
        emitted(w) == Seq::<WriteEvent>::empty(),
        configured(w) == (pretty, indent@),
        standard(w),
{
    xml::writer::EmitterConfig::new().perform_indent(pretty).indent_string(indent).create_writer(Vec::new())
}

/// `EventWriter::into_inner`: the bytes in the sink. Of a standard emitter
/// they are what it has written for the events handed to it, and they are
/// UTF-8: everything that the emitter writes is a string.
#[verifier::external_body]
pub(crate) fn into_bytes(w: xml::writer::EventWriter<Vec<u8>>) -> (bytes: Vec<u8>)
    ensures
        standard(w) ==> bytes@ == rendered(emitted(w), configured(w).0, configured(w).1),
        standard(w) ==> valid_utf8(bytes@),
{
    w.into_inner()
}

/// `EventWriter::write` of `XmlEvent::StartDocument`. A standard emitter
/// accepts it exactly where the declaration is not yet behind it.
#[verifier::external_body]
pub(crate) fn write_start_document(w: &mut xml::writer::EventWriter<Vec<u8>>, version: XmlVersion, encoding: &str, standalone: Option<bool>) -> (r: Result<(), xml::writer::Error>)
    ensures
        emitted(*final(w)) == emitted(*old(w)).push(WriteEvent::StartDocument { version, encoding: encoding@, standalone }),
        configured(*final(w)) == configured(*old(w)),
        standard(*final(w)) == standard(*old(w)),
        standard(*old(w)) ==> (r is Ok <==> !declared(emitted(*old(w)))),
{
    let version = match version {
        XmlVersion::Version10 => xml::common::XmlVersion::Version10,
        XmlVersion::Version11 => xml::common::XmlVersion::Version11,
    };
    w.write(XmlEvent::StartDocument { version, encoding: Some(encoding), standalone })
}

/// `EventWriter::write` of `XmlEvent::StartElement`, which no emitter over
/// a vector of bytes refuses. The bindings are handed over as a map from
/// prefix to URI: of two bindings of one prefix the later stays.
#[verifier::external_body]
pub(crate) fn write_start_element(w: &mut xml::writer::EventWriter<Vec<u8>>, name: &XmlName, attributes: &Vec<XmlAttribute>, namespace: &Vec<XmlNamespace>) -> (r: Result<(), xml::writer::Error>)
    ensures
        emitted(*final(w)) == emitted(*old(w)).push(
            WriteEvent::StartElement {
                name: name@,
                attributes: attributes@.map_values(|a: XmlAttribute| a@),
                namespace: namespace@.map_values(|b: XmlNamespace| b@),
            },
        ),
        configured(*final(w)) == configured(*old(w)),
        standard(*final(w)) == standard(*old(w)),
        r is Ok,
{
    let attributes: Vec<Attribute> = attributes.iter().map(|a| Attribute {
        name: Name { local_name: &a.name.local_name, namespace: a.name.namespace.as_deref(), prefix: a.name.prefix.as_deref() },
        value: &a.value,
    }).collect();
    let scope = Namespace(namespace.iter().map(|b| (b.prefix.clone(), b.uri.clone())).collect());
    let name = Name { local_name: &name.local_name, namespace: name.namespace.as_deref(), prefix: name.prefix.as_deref() };
    w.write(XmlEvent::StartElement { name, attributes: attributes.into(), namespace: std::borrow::Cow::Owned(scope) })
}

/// `EventWriter::write` of `XmlEvent::EndElement`. A standard emitter
/// accepts it exactly where an element is open and the innermost that is
/// open has the name given.
#[verifier::external_body]
pub(crate) fn write_end_element(w: &mut xml::writer::EventWriter<Vec<u8>>, name: &XmlName) -> (r: Result<(), xml::writer::Error>)
    ensures
        emitted(*final(w)) == emitted(*old(w)).push(WriteEvent::EndElement { name: name@ }),
        configured(*final(w)) == configured(*old(w)),
        standard(*final(w)) == standard(*old(w)),
        standard(*old(w)) ==> (r is Ok <==> open_names(emitted(*old(w))).len() > 0 && open_names(emitted(*old(w))).last() == name@),
{
    let name = Name { local_name: &name.local_name, namespace: name.namespace.as_deref(), prefix: name.prefix.as_deref() };
    w.write(XmlEvent::EndElement { name: Some(name) })
}

/// `EventWriter::write` of `XmlEvent::Characters`, which no emitter over a
/// vector of bytes refuses.
#[verifier::external_body]
pub(crate) fn write_characters(w: &mut xml::writer::EventWriter<Vec<u8>>, text: &str) -> (r: Result<(), xml::writer::Error>)
    ensures
        emitted(*final(w)) == emitted(*old(w)).push(WriteEvent::Characters(text@)),
        configured(*final(w)) == configured(*old(w)),
        standard(*final(w)) == standard(*old(w)),
        r is Ok,
{
    w.write(XmlEvent::Characters(text))
}

/// `EventWriter::write` of `XmlEvent::Comment`, which no emitter over a
/// vector of bytes refuses.
#[verifier::external_body]
pub(crate) fn write_comment(w: &mut xml::writer::EventWriter<Vec<u8>>, text: &str) -> (r: Result<(), xml::writer::Error>)
    ensures
        emitted(*final(w)) == emitted(*old(w)).push(WriteEvent::Comment(text@)),
        configured(*final(w)) == configured(*old(w)),
        standard(*final(w)) == standard(*old(w)),
        r is Ok,
{
    w.write(XmlEvent::Comment(text))
}

/// `EventWriter::write` of `XmlEvent::CData`, which no emitter over a
/// vector of bytes refuses.
#[verifier::external_body]
pub(crate) fn write_cdata(w: &mut xml::writer::EventWriter<Vec<u8>>, text: &str) -> (r: Result<(), xml::writer::Error>)
    ensures
        emitted(*final(w)) == emitted(*old(w)).push(WriteEvent::CData(text@)),
        configured(*final(w)) == configured(*old(w)),
        standard(*final(w)) == standard(*old(w)),
        r is Ok,
{
    w.write(XmlEvent::CData(text))
}

/// `String::from_utf8`: the string that the bytes encode, where they are
/// valid UTF-8.
#[verifier::external_body]
pub(crate) fn string_from_utf8(bytes: Vec<u8>) -> (r: Result<String, std::string::FromUtf8Error>)
    ensures
        r is Ok <==> valid_utf8(bytes@),
        r matches Ok(s) ==> s@ == decode_utf8(bytes@),
{
    String::from_utf8(bytes)
}

} // verus!
