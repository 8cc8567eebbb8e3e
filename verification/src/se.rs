//! Serialization: from a record to a tree, and from a tree to text.

use vstd::prelude::*;
use vstd::string::StringExecFns;
use vstd::utf8::decode_utf8;
use vstd::utf8::valid_utf8;
use crate::de::tag_of;
use crate::de::variant_tag;
use crate::scalar::decimal;
use crate::scalar::signed_decimal;
use crate::scalar::signed_to_string;
use crate::scalar::unsigned_to_string;
use crate::schema::Attributes;
use crate::schema::BindingKind;
use crate::schema::Field;
use crate::schema::SchemaDescriptor;
use crate::schema::TypeDescriptor;
use crate::tree::AttributeView;
use crate::tree::DocumentView;
use crate::tree::ElementView;
use crate::tree::NameView;
use crate::tree::NodeView;
use crate::tree::XmlAttribute;
use crate::tree::XmlDocument;
use crate::tree::XmlElement;
use crate::tree::XmlName;
use crate::tree::XmlNode;
use crate::tree::XmlVersion;
use crate::tree::elements_view;
use crate::tree::option_text;
use crate::value::FieldValue;
use crate::value::FieldValueView;
use crate::value::Value;
use crate::value::ValueView;
use crate::value::fields_view;
use crate::value::values_view;
use crate::writer::WriteEvent;
use crate::writer::configured;
use crate::writer::declared;
use crate::writer::open_names;
use crate::writer::standard;
use crate::writer::emitted;
use crate::writer::into_bytes;
use crate::writer::new_writer;
use crate::writer::rendered;
use crate::writer::string_from_utf8;
use crate::writer::write_cdata;
use crate::writer::write_characters;
use crate::writer::write_comment;
use crate::writer::write_end_element;
use crate::writer::write_start_document;
use crate::writer::write_start_element;

verus! {

/// The element after the text `s` is written into it: a text grows by it, a
/// node gains a text child, anything else stays as it is.
pub open spec fn put_text(element: ElementView, s: Seq<char>) -> ElementView {
    match element {
        ElementView::Text(t) => ElementView::Text(t + s),
        ElementView::Node(n) => ElementView::Node(NodeView { elements: n.elements.push(ElementView::Text(s)), ..n }),
        _ => element,
    }
}

/// The name that an item called `ident` gives to the element it is written
/// into: the rename or the identifier as local name, and the rule's prefix
/// where it has one.
pub open spec fn tag_name(attrs: Attributes, ident: Seq<char>, name: NameView) -> NameView {
    NameView {
        local_name: match attrs.rename {
            Some(rename) => rename@,
            None => ident,
        },
        namespace: name.namespace,
        prefix: match attrs.prefix {
            Some(prefix) => Some(prefix@),
            None => name.prefix,
        },
    }
}

/// The name of the attribute or child element that a field is written as.
pub open spec fn field_tag(field: Field) -> NameView {
    NameView { local_name: field.spec_local_name(), namespace: None, prefix: option_text(field.attrs.prefix) }
}

/// The element after the value of the type at index `ty` is written into it.
///
/// A string or a number is written as text. A struct that is marked as root
/// names the node; then struct and variant alike write their attributes,
/// their text, their children and their flattened fields, in this order. A
/// variant names the node by its tag; into a text it writes its tag. A value
/// that is not of the type leaves the element as it is.
pub open spec fn se_value(types: Seq<TypeDescriptor>, ty: int, value: ValueView, element: ElementView) -> ElementView
    decreases value, 0int,
{
    if ty < 0 || ty >= types.len() {
        element
    } else {
        match (types[ty], value) {
            (TypeDescriptor::Text, ValueView::Text(s)) => put_text(element, s),
            (TypeDescriptor::Number(_), ValueView::Unsigned(n)) => put_text(element, decimal(n as nat)),
            (TypeDescriptor::Number(_), ValueView::Signed(n)) => put_text(element, signed_decimal(n as int)),
            (TypeDescriptor::Struct(sd), ValueView::Struct(values)) => {
                let named = match element {
                    ElementView::Node(n) => if sd.attrs.root {
                        ElementView::Node(NodeView { name: tag_name(sd.attrs, sd.ident@, n.name), ..n })
                    } else {
                        element
                    },
                    _ => element,
                };
                emit_record(types, sd.fields@, values, named)
            },
            (TypeDescriptor::Enum(ed), ValueView::Variant(v, values)) => if 0 <= v < ed.variants@.len() {
                match element {
                    ElementView::Text(t) => ElementView::Text(t + variant_tag(ed.variants@[v])),
                    ElementView::Node(n) => emit_record(
                        types,
                        ed.variants@[v].fields@,
                        values,
                        ElementView::Node(NodeView { name: tag_name(ed.variants@[v].attrs, ed.variants@[v].ident@, n.name), ..n }),
                    ),
                    _ => element,
                }
            } else {
                element
            },
            _ => element,
        }
    }
}

/// The element after the four passes over the fields of a record.
pub open spec fn emit_record(types: Seq<TypeDescriptor>, fields: Seq<Field>, values: Seq<FieldValueView>, element: ElementView) -> ElementView
    decreases values, values.len() + 1,
{
    let attributed = emit_fields(types, fields, values, element, 0, BindingKind::Attribute);
    let texted = emit_fields(types, fields, values, attributed, 0, BindingKind::Text);
    let filled = emit_fields(types, fields, values, texted, 0, BindingKind::Child);
    emit_fields(types, fields, values, filled, 0, BindingKind::Flatten)
}

/// The element after one pass over the fields from index `from` on: of each
/// field that the pass selects, every value is written, in order; an empty
/// optional field writes nothing.
pub open spec fn emit_fields(
    types: Seq<TypeDescriptor>,
    fields: Seq<Field>,
    values: Seq<FieldValueView>,
    element: ElementView,
    from: int,
    pass: BindingKind,
) -> ElementView
    decreases values, values.len() - from,
{
    if from < 0 || from >= values.len() || from >= fields.len() {
        element
    } else if !pass.spec_selects(fields[from].attrs) {
        emit_fields(types, fields, values, element, from + 1, pass)
    } else {
        let written = match values[from] {
            FieldValueView::Required(v) => emit_value(types, fields[from], v, element, pass),
            FieldValueView::Optional(Some(v)) => emit_value(types, fields[from], v, element, pass),
            FieldValueView::Optional(None) => element,
            FieldValueView::Repeated(vs) => emit_values(types, fields[from], vs, element, 0, pass),
        };
        emit_fields(types, fields, values, written, from + 1, pass)
    }
}

/// The element after the values from index `from` on of a repeated field
/// are written, in order.
pub open spec fn emit_values(types: Seq<TypeDescriptor>, field: Field, vs: Seq<ValueView>, element: ElementView, from: int, pass: BindingKind) -> ElementView
    decreases vs, vs.len() - from,
{
    if from < 0 || from >= vs.len() {
        element
    } else {
        emit_values(types, field, vs, emit_value(types, field, vs[from], element, pass), from + 1, pass)
    }
}

/// The element after one value of a field is written.
///
/// As an attribute, a node gains an attribute with the field's name, whose
/// value is the text that the value writes. As text, a node gains a text
/// child with that text. As a child, a node gains a child node with the
/// field's name, into which the value is written. Flattened, the value is
/// written into the element itself.
pub open spec fn emit_value(types: Seq<TypeDescriptor>, field: Field, v: ValueView, element: ElementView, pass: BindingKind) -> ElementView
    decreases v, 1int,
{
    match pass {
        BindingKind::Flatten => se_value(types, field.target as int, v, element),
        BindingKind::Attribute => match element {
            ElementView::Node(n) => match se_value(types, field.target as int, v, ElementView::Text(Seq::empty())) {
                ElementView::Text(t) => ElementView::Node(
                    NodeView { attributes: n.attributes.push(AttributeView { name: field_tag(field), value: t }), ..n },
                ),
                _ => element,
            },
            _ => element,
        },
        BindingKind::Text => match element {
            ElementView::Node(n) => ElementView::Node(
                NodeView { elements: n.elements.push(se_value(types, field.target as int, v, ElementView::Text(Seq::empty()))), ..n },
            ),
            _ => element,
        },
        BindingKind::Child => match element {
            ElementView::Node(n) => ElementView::Node(
                NodeView {
                    elements: n.elements.push(
                        se_value(
                            types,
                            field.target as int,
                            v,
                            ElementView::Node(NodeView { name: field_tag(field), ..NodeView::empty() }),
                        ),
                    ),
                    ..n
                },
            ),
            _ => element,
        },
    }
}

/// Writes the text `s` into the element.
pub fn write_text(element: &mut XmlElement, s: String)
    ensures
        final(element)@ == put_text(old(element)@, s@),
{
    match element {
        XmlElement::Text(text) => {
            text.append(s.as_str());
        },
        XmlElement::Node(node) => {
            let ghost before = node@;
            node.elements.push(XmlElement::Text(s));
            assert(node@.elements =~= before.elements.push(ElementView::Text(s@)));
        },
        _ => {},
    }
}

/// Gives `name` the tag of an item called `ident` with the rule `attrs`.
pub fn set_tag(attrs: &Attributes, ident: &String, name: &mut XmlName)
    ensures
        final(name)@ == tag_name(*attrs, ident@, old(name)@),
{
    match &attrs.rename {
        Some(rename) => {
            name.local_name = rename.clone();
        },
        None => {
            name.local_name = ident.clone();
        },
    }
    match &attrs.prefix {
        Some(prefix) => {
            name.prefix = Some(prefix.clone());
        },
        None => {},
    }
}

/// The name of the attribute or child element that `field` is written as.
pub fn tag_of_field(field: &Field) -> (name: XmlName)
    ensures
        name@ == field_tag(*field),
{
    XmlName {
        local_name: field.local_name(),
        namespace: None,
        prefix: match &field.attrs.prefix {
            Some(prefix) => Some(prefix.clone()),
            None => None,
        },
    }
}

impl Value {
    /// Writes the value, as one of the type at index `ty` of the schema,
    /// into the element.
    pub fn serialize(&self, schema: &SchemaDescriptor, ty: usize, element: &mut XmlElement)
        ensures
            final(element)@ == se_value(schema.types(), ty as int, self@, old(element)@),
        decreases self, 0int,
    {
        if ty >= schema.len() {
            return ;
        }
        match schema.get(ty) {
            TypeDescriptor::Text => match self {
                Value::Text(s) => write_text(element, s.clone()),
                _ => {},
            },
            TypeDescriptor::Number(_) => match self {
                Value::Unsigned(n) => write_text(element, unsigned_to_string(*n)),
                Value::Signed(n) => write_text(element, signed_to_string(*n)),
                _ => {},
            },
            TypeDescriptor::Struct(sd) => match self {
                Value::Struct(values) => {
                    match element {
                        XmlElement::Node(node) => {
                            if sd.attrs.root {
                                set_tag(&sd.attrs, &sd.ident, &mut node.name);
                            }
                        },
                        _ => {},
                    }
                    write_record(schema, &sd.fields, values, element);
                },
                _ => {},
            },
            TypeDescriptor::Enum(ed) => match self {
                Value::Variant(v, values) => {
                    if *v < ed.variants.len() {
                        let variant = &ed.variants[*v];
                        match element {
                            XmlElement::Text(text) => {
                                text.append(tag_of(variant).as_str());
                                return ;
                            },
                            XmlElement::Node(node) => {
                                set_tag(&variant.attrs, &variant.ident, &mut node.name);
                            },
                            _ => {
                                return ;
                            },
                        }
                        write_record(schema, &variant.fields, values, element);
                    }
                },
                _ => {},
            },
        }
    }
}

/// Writes the fields of a record: the attributes, the text, the children
/// and the flattened fields, in this order.
pub fn write_record(schema: &SchemaDescriptor, fields: &Vec<Field>, values: &Vec<FieldValue>, element: &mut XmlElement)
    ensures
        final(element)@ == emit_record(schema.types(), fields@, fields_view(values@), old(element)@),
    decreases values, values@.len() + 1,
{
    write_fields(schema, fields, values, element, BindingKind::Attribute);
    write_fields(schema, fields, values, element, BindingKind::Text);
    write_fields(schema, fields, values, element, BindingKind::Child);
    write_fields(schema, fields, values, element, BindingKind::Flatten);
}

/// Writes the fields that the pass selects.
pub fn write_fields(schema: &SchemaDescriptor, fields: &Vec<Field>, values: &Vec<FieldValue>, element: &mut XmlElement, pass: BindingKind)
    ensures
        final(element)@ == emit_fields(schema.types(), fields@, fields_view(values@), old(element)@, 0, pass),
    decreases values, values@.len(),
{
    let ghost views = fields_view(values@);
    let n = if values.len() < fields.len() {
        values.len()
    } else {
        fields.len()
    };
    let mut i: usize = 0;
    while i < n
        invariant
            views == fields_view(values@),
            n <= values.len(),
            n <= fields.len(),
            n == values.len() || n == fields.len(),
            i <= n,
            emit_fields(schema.types(), fields@, views, element@, i as int, pass) == emit_fields(
                schema.types(),
                fields@,
                views,
                old(element)@,
                0,
                pass,
            ),
        decreases n - i,
    {
        if pass.selects(&fields[i].attrs) {
            assert(views[i as int] == values@[i as int]@);
            match &values[i] {
                FieldValue::Required(v) => write_value(schema, &fields[i], v, element, pass),
                FieldValue::Optional(Some(v)) => write_value(schema, &fields[i], v, element, pass),
                FieldValue::Optional(None) => {},
                FieldValue::Repeated(vs) => write_values(schema, &fields[i], vs, element, pass),
            }
        }
        i += 1;
    }
}

/// Writes the values of a repeated field, in order.
pub fn write_values(schema: &SchemaDescriptor, field: &Field, vs: &Vec<Value>, element: &mut XmlElement, pass: BindingKind)
    ensures
        final(element)@ == emit_values(schema.types(), *field, values_view(vs@), old(element)@, 0, pass),
    decreases vs, vs@.len(),
{
    let ghost views = values_view(vs@);
    let n = vs.len();
    let mut i: usize = 0;
    while i < n
        invariant
            views == values_view(vs@),
            n == vs.len(),
            i <= n,
            emit_values(schema.types(), *field, views, element@, i as int, pass) == emit_values(
                schema.types(),
                *field,
                views,
                old(element)@,
                0,
                pass,
            ),
        decreases n - i,
    {
        assert(views[i as int] == vs@[i as int]@);
        write_value(schema, field, &vs[i], element, pass);
        i += 1;
    }
}

/// Writes one value of a field.
pub fn write_value(schema: &SchemaDescriptor, field: &Field, v: &Value, element: &mut XmlElement, pass: BindingKind)
    ensures
        final(element)@ == emit_value(schema.types(), *field, v@, old(element)@, pass),
    decreases v, 1int,
{
    match pass {
        BindingKind::Flatten => v.serialize(schema, field.target, element),
        BindingKind::Attribute => match element {
            XmlElement::Node(node) => {
                let mut text = XmlElement::Text(String::new());
                v.serialize(schema, field.target, &mut text);
                match text {
                    XmlElement::Text(value) => {
                        let ghost before = node@;
                        let attr = XmlAttribute { name: tag_of_field(field), value };
                        node.attributes.push(attr);
                        assert(node@.attributes =~= before.attributes.push(attr@));
                    },
                    _ => {},
                }
            },
            _ => {},
        },
        BindingKind::Text => match element {
            XmlElement::Node(node) => {
                let mut text = XmlElement::Text(String::new());
                v.serialize(schema, field.target, &mut text);
                let ghost before = node@;
                let ghost pushed = text@;
                node.elements.push(text);
                assert(node@.elements =~= before.elements.push(pushed));
            },
            _ => {},
        },
        BindingKind::Child => match element {
            XmlElement::Node(node) => {
                let mut inner = XmlNode::empty();
                inner.name = tag_of_field(field);
                let mut child = XmlElement::Node(inner);
                v.serialize(schema, field.target, &mut child);
                let ghost before = node@;
                let ghost pushed = child@;
                node.elements.push(child);
                assert(node@.elements =~= before.elements.push(pushed));
            },
            _ => {},
        },
    }
}

/// How a document is printed.
#[derive(Clone, Copy, Debug, PartialEq, Eq, Structural)]
pub struct SerializeSettings {
    /// The number of spaces of one level of indentation.
    pub indent: u32,
    /// Whether elements are put on lines of their own and indented.
    pub pretty_format: bool,
}

impl Default for SerializeSettings {
    fn default() -> (settings: SerializeSettings)
        ensures
            settings == (SerializeSettings { indent: 4, pretty_format: false }),
    {
        SerializeSettings { indent: 4, pretty_format: false }
    }
}

/// Why a record could not be printed.
#[derive(Debug)]
pub enum SeError {
    /// The emitter refused an event.
    EmitterError(xml::writer::Error),
    /// The emitter's output is not valid UTF-8.
    FromUtf8Error(std::string::FromUtf8Error),
}

/// `n` spaces.
pub open spec fn spaces(n: nat) -> Seq<char> {
    Seq::new(n, |i: int| ' ')
}

/// The text of one level of indentation: `n` spaces.
pub fn indent_string(n: u32) -> (indent: String)
    ensures
        indent@ == spaces(n as nat),
{
    let mut indent = String::new();
    let mut i: u32 = 0;
    while i < n
        invariant
            i <= n,
            indent@ == spaces(i as nat),
        decreases n - i,
    {
        proof {
            reveal_strlit(" ");
            assert(" "@ =~= seq![' ']);
        }
        indent.append(" ");
        i += 1;
        assert(indent@ =~= spaces(i as nat));
    }
    assert(indent@ =~= spaces(n as nat));
    indent
}

/// The events that print an element: a text and white space as characters;
/// a node as its start with name, attributes and namespaces, the events of
/// its children in order, and its end with the same name; a comment and
/// character data as they are.
pub open spec fn element_events(element: ElementView) -> Seq<WriteEvent>
    decreases element,
{
    match element {
        ElementView::Text(s) => seq![WriteEvent::Characters(s)],
        ElementView::Node(n) => seq![WriteEvent::StartElement { name: n.name, attributes: n.attributes, namespace: n.namespace }]
            + content_events(n.elements, 0) + seq![WriteEvent::EndElement { name: n.name }],
        ElementView::Whitespace(s) => seq![WriteEvent::Characters(s)],
        ElementView::Comment(s) => seq![WriteEvent::Comment(s)],
        ElementView::CData(s) => seq![WriteEvent::CData(s)],
    }
}

/// The events that print the elements from index `from` on, in order.
pub open spec fn content_events(elements: Seq<ElementView>, from: int) -> Seq<WriteEvent>
    decreases elements, elements.len() - from,
{
    if from < 0 || from >= elements.len() {
        Seq::empty()
    } else {
        element_events(elements[from]) + content_events(elements, from + 1)
    }
}

/// The events that print a document: its declaration, then its elements.
pub open spec fn document_events(doc: DocumentView) -> Seq<WriteEvent> {
    seq![WriteEvent::StartDocument { version: doc.version, encoding: doc.encoding, standalone: doc.standalone }] + content_events(
        doc.elements,
        0,
    )
}

/// Hands the events of the elements to the emitter, in order, up to and
/// with the first that it refuses. A standard emitter refuses none of them.
fn format_content(w: &mut xml::writer::EventWriter<Vec<u8>>, elements: &Vec<XmlElement>) -> (r: Result<(), xml::writer::Error>)
    ensures
        configured(*final(w)) == configured(*old(w)),
        standard(*final(w)) == standard(*old(w)),
        handed(emitted(*old(w)), emitted(*final(w)), content_events(elements_view(elements@), 0)),
        r is Ok ==> emitted(*final(w)) == emitted(*old(w)) + content_events(elements_view(elements@), 0),
        r is Err ==> emitted(*final(w)).len() > emitted(*old(w)).len(),
        standard(*old(w)) ==> r is Ok,
    decreases elements, elements@.len(),
{
    let ghost views = elements_view(elements@);
    let ghost all = content_events(views, 0);
    let n = elements.len();
    let mut i: usize = 0;
    assert(emitted(*w) + content_events(views, 0) =~= emitted(*old(w)) + content_events(views, 0));
    while i < n
        invariant
            views == elements_view(elements@),
            all == content_events(views, 0),
            n == elements.len(),
            i <= n,
            configured(*w) == configured(*old(w)),
            standard(*w) == standard(*old(w)),
            emitted(*old(w)).len() <= emitted(*w).len(),
            emitted(*w) + content_events(views, i as int) == emitted(*old(w)) + all,
        decreases n - i,
    {
        let ghost before = emitted(*w);
        let ghost events = element_events(views[i as int]);
        let ghost rest = content_events(views, i + 1);
        assert(views[i as int] == elements@[i as int]@);
        match format_xml_element(w, &elements[i]) {
            Ok(()) => {},
            Err(e) => {
                proof {
                    let here = emitted(*w);
                    let taken = here.len() - before.len();
                    assert(events.take(taken) + events.skip(taken) =~= events);
                    assert(here + (events.skip(taken) + rest) =~= before + content_events(views, i as int));
                    lemma_handed(here, events.skip(taken) + rest, emitted(*old(w)), all);
                }
                return Err(e);
            },
        }
        assert(emitted(*w) + content_events(views, i + 1) =~= before + content_events(views, i as int));
        i += 1;
    }
    proof {
        assert(emitted(*w) + content_events(views, n as int) =~= emitted(*w));
        lemma_handed(emitted(*w), content_events(views, n as int), emitted(*old(w)), all);
    }
    Ok(())
}

/// Hands the events of an element to the emitter, in order, up to and with
/// the first that it refuses. A standard emitter refuses none of them, and
/// no emitter refuses an element that is not a node.
pub fn format_xml_element(w: &mut xml::writer::EventWriter<Vec<u8>>, element: &XmlElement) -> (r: Result<(), xml::writer::Error>)
    ensures
        configured(*final(w)) == configured(*old(w)),
        standard(*final(w)) == standard(*old(w)),
        handed(emitted(*old(w)), emitted(*final(w)), element_events(element@)),
        r is Ok ==> emitted(*final(w)) == emitted(*old(w)) + element_events(element@),
        r is Err ==> emitted(*final(w)).len() > emitted(*old(w)).len(),
        standard(*old(w)) || !(element@ is Node) ==> r is Ok,
    decreases element,
{
    let ghost events = element_events(element@);
    match element {
        XmlElement::Text(text) => {
            let r = write_characters(w, text.as_str());
            proof {
                assert(emitted(*w) =~= emitted(*old(w)) + events);
                lemma_handed(emitted(*w), Seq::empty(), emitted(*old(w)), events);
            }
            r
        },
        XmlElement::Node(node) => {
            let ghost start = WriteEvent::StartElement { name: node@.name, attributes: node@.attributes, namespace: node@.namespace };
            let ghost content = content_events(node@.elements, 0);
            let ghost end = WriteEvent::EndElement { name: node@.name };
            assert(events == seq![start] + content + seq![end]);
            match write_start_element(w, &node.name, &node.attributes, &node.namespace) {
                Ok(()) => {},
                Err(e) => {
                    proof {
                        assert(emitted(*w) + (content + seq![end]) =~= emitted(*old(w)) + events);
                        lemma_handed(emitted(*w), content + seq![end], emitted(*old(w)), events);
                    }
                    return Err(e);
                },
            }
            let ghost started = emitted(*w);
            assert(started == emitted(*old(w)).push(start));
            match format_content(w, &node.elements) {
                Ok(()) => {},
                Err(e) => {
                    proof {
                        let here = emitted(*w);
                        let taken = here.len() - started.len();
                        assert(content.take(taken) + content.skip(taken) =~= content);
                        assert(here + (content.skip(taken) + seq![end]) =~= emitted(*old(w)) + events);
                        lemma_handed(here, content.skip(taken) + seq![end], emitted(*old(w)), events);
                    }
                    return Err(e);
                },
            }
            let ghost filled = emitted(*w);
            assert(filled == started + content);
            proof {
                lemma_balanced_content(started, node@.elements, 0);
                assert(started.drop_last() =~= emitted(*old(w)));
                assert(open_names(started) == open_names(emitted(*old(w))).push(node@.name));
            }
            let r = write_end_element(w, &node.name);
            proof {
                assert(emitted(*w) =~= emitted(*old(w)) + events);
                lemma_handed(emitted(*w), Seq::empty(), emitted(*old(w)), events);
            }
            r
        },
        XmlElement::Whitespace(space) => {
            let r = write_characters(w, space.as_str());
            proof {
                assert(emitted(*w) =~= emitted(*old(w)) + events);
                lemma_handed(emitted(*w), Seq::empty(), emitted(*old(w)), events);
            }
            r
        },
        XmlElement::Comment(comment) => {
            let r = write_comment(w, comment.as_str());
            proof {
                assert(emitted(*w) =~= emitted(*old(w)) + events);
                lemma_handed(emitted(*w), Seq::empty(), emitted(*old(w)), events);
            }
            r
        },
        XmlElement::CData(cdata) => {
            let r = write_cdata(w, cdata.as_str());
            proof {
                assert(emitted(*w) =~= emitted(*old(w)) + events);
                lemma_handed(emitted(*w), Seq::empty(), emitted(*old(w)), events);
            }
            r
        },
    }
}

/// Hands the events of a document to the emitter, in order, up to and with
/// the first that it refuses. A standard emitter refuses the first of them
/// where the declaration is behind it already, and none otherwise.
pub fn format_xml(w: &mut xml::writer::EventWriter<Vec<u8>>, doc: &XmlDocument) -> (r: Result<(), xml::writer::Error>)
    ensures
        configured(*final(w)) == configured(*old(w)),
        standard(*final(w)) == standard(*old(w)),
        handed(emitted(*old(w)), emitted(*final(w)), document_events(doc@)),
        r is Ok ==> emitted(*final(w)) == emitted(*old(w)) + document_events(doc@),
        r is Err ==> emitted(*final(w)).len() > emitted(*old(w)).len(),
        standard(*old(w)) ==> (r is Ok <==> !declared(emitted(*old(w)))),
{
    let ghost events = document_events(doc@);
    let ghost content = content_events(doc@.elements, 0);
    match write_start_document(w, doc.version, doc.encoding.as_str(), doc.standalone) {
        Ok(()) => {},
        Err(e) => {
            proof {
                assert(emitted(*w) + content =~= emitted(*old(w)) + events);
                lemma_handed(emitted(*w), content, emitted(*old(w)), events);
            }
            return Err(e);
        },
    }
    let ghost started = emitted(*w);
    let r = format_content(w, &doc.elements);
    proof {
        let here = emitted(*w);
        let taken = here.len() - started.len();
        assert(content.take(taken) + content.skip(taken) =~= content);
        assert(here + content.skip(taken) =~= emitted(*old(w)) + events);
        lemma_handed(here, content.skip(taken), emitted(*old(w)), events);
        if r is Ok {
            assert(here =~= emitted(*old(w)) + events);
        }
    }
    r
}

/// Prints a document: the bytes that a standard emitter writes for its
/// events, which it never refuses. The bytes are UTF-8.
pub fn print(doc: &XmlDocument, settings: &SerializeSettings) -> (r: Result<Vec<u8>, xml::writer::Error>)
    ensures
        r matches Ok(bytes) && bytes@ == rendered(document_events(doc@), settings.pretty_format, spaces(settings.indent as nat))
            && valid_utf8(bytes@),
{
    let mut w = new_writer(settings.pretty_format, indent_string(settings.indent));
    match format_xml(&mut w, doc) {
        Ok(()) => {
            assert(emitted(w) =~= document_events(doc@));
            Ok(into_bytes(w))
        },
        Err(e) => Err(e),
    }
}

/// The document that holds one record: version 1.0, the given encoding, and
/// as only element a node into which the record is written.
pub open spec fn record_document(types: Seq<TypeDescriptor>, ty: int, value: ValueView, encoding: Seq<char>) -> DocumentView {
    DocumentView {
        version: XmlVersion::Version10,
        encoding,
        standalone: None,
        elements: seq![se_value(types, ty, value, ElementView::Node(NodeView::empty()))],
    }
}

/// Writes the record into a fresh node and hands the events of the document
/// that holds it to the emitter, in order, up to and with the first that it
/// refuses. A standard emitter refuses the first of them where the
/// declaration is behind it already, and none otherwise.
pub fn serialize(value: &Value, schema: &SchemaDescriptor, ty: usize, writer: &mut xml::writer::EventWriter<Vec<u8>>, encoding: &str) -> (r: Result<
    (),
    xml::writer::Error,
>)
    ensures
        configured(*final(writer)) == configured(*old(writer)),
        handed(
            emitted(*old(writer)),
            emitted(*final(writer)),
            document_events(record_document(schema.types(), ty as int, value@, encoding@)),
        ),
        r is Ok ==> emitted(*final(writer)) == emitted(*old(writer)) + document_events(
            record_document(schema.types(), ty as int, value@, encoding@),
        ),
        r is Err ==> emitted(*final(writer)).len() > emitted(*old(writer)).len(),
        standard(*final(writer)) == standard(*old(writer)),
        standard(*old(writer)) ==> (r is Ok <==> !declared(emitted(*old(writer)))),
{
    let mut root = XmlElement::Node(XmlNode::empty());
    value.serialize(schema, ty, &mut root);
    let mut elements: Vec<XmlElement> = Vec::new();
    elements.push(root);
    let doc = XmlDocument { version: XmlVersion::Version10, encoding: String::from_str(encoding), standalone: None, elements };
    assert(doc@.elements =~= record_document(schema.types(), ty as int, value@, encoding@).elements);
    assert(doc@ == record_document(schema.types(), ty as int, value@, encoding@));
    format_xml(writer, &doc)
}

/// The bytes of the document that holds the record, printed without
/// indentation. Every record is printed, and the bytes are UTF-8.
pub fn to_bytes(value: &Value, schema: &SchemaDescriptor, ty: usize, encoding: &str) -> (r: Result<Vec<u8>, xml::writer::Error>)
    ensures
        r matches Ok(bytes) && bytes@ == rendered(
            document_events(record_document(schema.types(), ty as int, value@, encoding@)),
            false,
            spaces(4),
        ) && valid_utf8(bytes@),
{
    let settings = SerializeSettings::default();
    let mut writer = new_writer(settings.pretty_format, indent_string(settings.indent));
    match serialize(value, schema, ty, &mut writer, encoding) {
        Ok(()) => {
            assert(emitted(writer) =~= document_events(record_document(schema.types(), ty as int, value@, encoding@)));
            Ok(into_bytes(writer))
        },
        Err(e) => Err(e),
    }
}

/// The outcome of printing, as text: the string that the bytes encode, or
/// the reason why there is none.
pub fn text_of_output(output: Result<Vec<u8>, xml::writer::Error>) -> (r: Result<String, SeError>)
    ensures
        match output {
            Ok(bytes) => if valid_utf8(bytes@) {
                r matches Ok(s) && s@ == decode_utf8(bytes@)
            } else {
                r matches Err(SeError::FromUtf8Error(_))
            },
            Err(_) => r matches Err(SeError::EmitterError(_)),
        },
{
    match output {
        Ok(v8) => match string_from_utf8(v8) {
            Ok(s) => Ok(s),
            Err(e) => Err(SeError::FromUtf8Error(e)),
        },
        Err(e) => Err(SeError::EmitterError(e)),
    }
}

/// The text of the document that holds the record, in UTF-8 and without
/// indentation. Every record is printed.
pub fn to_string(value: &Value, schema: &SchemaDescriptor, ty: usize) -> (r: Result<String, SeError>)
    ensures
        r matches Ok(s) && s@ == decode_utf8(
            rendered(document_events(record_document(schema.types(), ty as int, value@, "UTF-8"@)), false, spaces(4)),
        ),
{
    text_of_output(to_bytes(value, schema, ty, "UTF-8"))
}

/// `now` is `before` with the first of `events` behind it, in order: what an
/// emitter has been handed once some of `events` have gone to it.
pub open spec fn handed(before: Seq<WriteEvent>, now: Seq<WriteEvent>, events: Seq<WriteEvent>) -> bool {
    &&& before.len() <= now.len() <= before.len() + events.len()
    &&& now == before + events.take(now.len() - before.len())
}

/// Where `now`, with `rest` behind it, is `before` with `events` behind it,
/// and is no shorter than `before`, it is `before` with the first of
/// `events` behind it.
pub proof fn lemma_handed(now: Seq<WriteEvent>, rest: Seq<WriteEvent>, before: Seq<WriteEvent>, events: Seq<WriteEvent>)
    requires
        now + rest == before + events,
        before.len() <= now.len(),
    ensures
        handed(before, now, events),
{
    let whole = now + rest;
    assert(whole.len() == now.len() + rest.len());
    assert(whole.len() == before.len() + events.len());
    let taken = now.len() - before.len();
    assert forall|k: int| 0 <= k < now.len() implies now[k] == (before + events.take(taken))[k] by {
        assert(now[k] == whole[k]);
        assert(whole[k] == (before + events)[k]);
    }
    assert(now =~= before + events.take(taken));
}

/// The events of an element leave open what was open: every element that
/// they open, they close.
pub proof fn lemma_balanced_element(before: Seq<WriteEvent>, element: ElementView)
    ensures
        open_names(before + element_events(element)) == open_names(before),
    decreases element,
{
    match element {
        ElementView::Node(n) => {
            let start = WriteEvent::StartElement { name: n.name, attributes: n.attributes, namespace: n.namespace };
            let end = WriteEvent::EndElement { name: n.name };
            let content = content_events(n.elements, 0);
            let started = before.push(start);
            assert(started.drop_last() =~= before);
            lemma_balanced_content(started, n.elements, 0);
            let filled = started + content;
            let closed = filled.push(end);
            assert(closed.drop_last() =~= filled);
            assert(closed =~= before + element_events(element));
        },
        _ => {
            let events = element_events(element);
            assert(before + events =~= before.push(events[0]));
            assert(before.push(events[0]).drop_last() =~= before);
        },
    }
}

/// The events of the elements from index `from` on leave open what was
/// open.
pub proof fn lemma_balanced_content(before: Seq<WriteEvent>, elements: Seq<ElementView>, from: int)
    requires
        0 <= from,
    ensures
        open_names(before + content_events(elements, from)) == open_names(before),
    decreases elements, elements.len() - from,
{
    if from < elements.len() {
        let events = element_events(elements[from]);
        let rest = content_events(elements, from + 1);
        lemma_balanced_element(before, elements[from]);
        lemma_balanced_content(before + events, elements, from + 1);
        assert(before + (events + rest) =~= (before + events) + rest);
    } else {
        assert(before + content_events(elements, from) =~= before);
    }
}

} // verus!
