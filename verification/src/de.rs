//! Deserialization: from a tree to a record.

use vstd::prelude::*;
use vstd::string::StringExecFns;
use vstd::string::StringSliceAdditionalSpecFns;
use crate::matcher::name_matches;
use crate::matcher::owned_name_match;
use crate::reader::EventSource;
use crate::reader::ParseEvent;
use crate::reader::ParseEventView;
use crate::reader::next_event;
use crate::reader::pending;
use crate::reader::read_events;
use crate::reader::tokens;
use crate::scalar::parse_signed;
use crate::scalar::parse_unsigned;
use crate::scalar::signed_from_str;
use crate::scalar::trim;
use crate::scalar::trimmed;
use crate::scalar::unsigned_from_str;
use crate::schema::Field;
use crate::schema::InvalidShape;
use crate::schema::NumberKind;
use crate::schema::SchemaDescriptor;
use crate::schema::Shape;
use crate::schema::TypeDescriptor;
use crate::schema::VariantDescriptor;
use crate::schema::VariantKind;
use crate::tree::AttributeView;
use crate::tree::DocumentView;
use crate::tree::ElementView;
use crate::tree::NameView;
use crate::tree::NodeView;
use crate::tree::XmlAttribute;
use crate::tree::XmlDocument;
use crate::tree::XmlElement;
use crate::tree::XmlName;
use crate::tree::XmlNode;
use crate::tree::elements_view;
use crate::value::FieldValue;
use crate::value::FieldValueView;
use crate::value::Slot;
use crate::value::SlotView;
use crate::value::Value;
use crate::value::ValueView;
use crate::value::bind_slot;
use crate::value::fields_view;
use crate::value::slots_view;
use crate::value::values_view;

verus! {

/// Why a document could not be bound.
#[derive(Debug, PartialEq, Eq)]
pub enum DeError {
    /// The input is not well-formed XML.
    SyntaxError,
    /// The document holds no element.
    EmptyDocument,
    /// The type asked for is not in the schema.
    InvalidShape(InvalidShape),
    /// No value was found for the required field of this name.
    MissingField(String),
    /// No variant of the enum fits the tag or the text.
    NoMatchingVariant,
    /// This text does not write a number of the field's type.
    TypeConversionError(String),
    /// The element is neither a node nor a text.
    UnsupportedElement,
}

/// The mathematical value of an [`DeError`].
pub enum ErrorView {
    SyntaxError,
    EmptyDocument,
    InvalidShape(InvalidShape),
    MissingField(Seq<char>),
    NoMatchingVariant,
    TypeConversionError(Seq<char>),
    UnsupportedElement,
}

impl View for DeError {
    type V = ErrorView;

    open spec fn view(&self) -> ErrorView {
        match *self {
            DeError::SyntaxError => ErrorView::SyntaxError,
            DeError::EmptyDocument => ErrorView::EmptyDocument,
            DeError::InvalidShape(e) => ErrorView::InvalidShape(e),
            DeError::MissingField(name) => ErrorView::MissingField(name@),
            DeError::NoMatchingVariant => ErrorView::NoMatchingVariant,
            DeError::TypeConversionError(text) => ErrorView::TypeConversionError(text@),
            DeError::UnsupportedElement => ErrorView::UnsupportedElement,
        }
    }
}

/// The mathematical value of a deserialization's outcome.
pub open spec fn result_view(r: Result<Value, DeError>) -> Result<ValueView, ErrorView> {
    match r {
        Ok(v) => Ok(v@),
        Err(e) => Err(e@),
    }
}

impl NumberKind {
    /// Whether the type has negative values.
    pub open spec fn spec_signed(self) -> bool {
        match self {
            NumberKind::I8 | NumberKind::I16 | NumberKind::I32 | NumberKind::I64 | NumberKind::I128 | NumberKind::Isize => true,
            _ => false,
        }
    }

    /// The least value of the type.
    pub open spec fn spec_min(self) -> int {
        match self {
            NumberKind::I8 => i8::MIN as int,
            NumberKind::I16 => i16::MIN as int,
            NumberKind::I32 => i32::MIN as int,
            NumberKind::I64 => i64::MIN as int,
            NumberKind::I128 => i128::MIN as int,
            NumberKind::Isize => isize::MIN as int,
            _ => 0,
        }
    }

    /// The greatest value of the type.
    pub open spec fn spec_max(self) -> int {
        match self {
            NumberKind::U8 => u8::MAX as int,
            NumberKind::U16 => u16::MAX as int,
            NumberKind::U32 => u32::MAX as int,
            NumberKind::U64 => u64::MAX as int,
            NumberKind::U128 => u128::MAX as int,
            NumberKind::Usize => usize::MAX as int,
            NumberKind::I8 => i8::MAX as int,
            NumberKind::I16 => i16::MAX as int,
            NumberKind::I32 => i32::MAX as int,
            NumberKind::I64 => i64::MAX as int,
            NumberKind::I128 => i128::MAX as int,
            NumberKind::Isize => isize::MAX as int,
        }
    }

    /// Whether the type has negative values.
    pub fn signed(self) -> (r: bool)
        ensures
            r == self.spec_signed(),
    {
        match self {
            NumberKind::I8 | NumberKind::I16 | NumberKind::I32 | NumberKind::I64 | NumberKind::I128 | NumberKind::Isize => true,
            _ => false,
        }
    }

    /// Whether `n` is a value of the type.
    pub fn holds_unsigned(self, n: u128) -> (r: bool)
        ensures
            r == (!self.spec_signed() && n <= self.spec_max()),
    {
        match self {
            NumberKind::U8 => n <= u8::MAX as u128,
            NumberKind::U16 => n <= u16::MAX as u128,
            NumberKind::U32 => n <= u32::MAX as u128,
            NumberKind::U64 => n <= u64::MAX as u128,
            NumberKind::U128 => true,
            NumberKind::Usize => n <= usize::MAX as u128,
            _ => false,
        }
    }

    /// Whether `n` is a value of the type.
    pub fn holds_signed(self, n: i128) -> (r: bool)
        ensures
            r == (self.spec_signed() && self.spec_min() <= n <= self.spec_max()),
    {
        match self {
            NumberKind::I8 => i8::MIN as i128 <= n && n <= i8::MAX as i128,
            NumberKind::I16 => i16::MIN as i128 <= n && n <= i16::MAX as i128,
            NumberKind::I32 => i32::MIN as i128 <= n && n <= i32::MAX as i128,
            NumberKind::I64 => i64::MIN as i128 <= n && n <= i64::MAX as i128,
            NumberKind::I128 => true,
            NumberKind::Isize => isize::MIN as i128 <= n && n <= isize::MAX as i128,
            _ => false,
        }
    }
}

/// The number of type `kind` that `s` writes, white space at its ends aside.
pub open spec fn number_from_text(kind: NumberKind, s: Seq<char>) -> Result<ValueView, ErrorView> {
    let t = trimmed(s);
    if kind.spec_signed() {
        match parse_signed(t) {
            Some(n) => if kind.spec_min() <= n <= kind.spec_max() {
                Ok(ValueView::Signed(n))
            } else {
                Err(ErrorView::TypeConversionError(t))
            },
            None => Err(ErrorView::TypeConversionError(t)),
        }
    } else {
        match parse_unsigned(t) {
            Some(n) => if n <= kind.spec_max() {
                Ok(ValueView::Unsigned(n))
            } else {
                Err(ErrorView::TypeConversionError(t))
            },
            None => Err(ErrorView::TypeConversionError(t)),
        }
    }
}

/// The slot of a field before anything is bound: empty.
pub open spec fn init_slot(field: Field) -> SlotView {
    if field.ty.spec_has_vec() {
        SlotView::Many(Seq::empty())
    } else {
        SlotView::Single(None)
    }
}

/// The slots of `fields` before anything is bound.
pub open spec fn init_slots(fields: Seq<Field>) -> Seq<SlotView> {
    fields.map_values(|f: Field| init_slot(f))
}

/// The slot after the payload's deserialization ended in `r`. A value is
/// bound. An error ends the bind, but for a text that does not convert, in
/// an optional field marked lenient: that empties the slot.
pub open spec fn bind_result(field: Field, slot: SlotView, r: Result<ValueView, ErrorView>) -> Result<SlotView, ErrorView> {
    match r {
        Ok(v) => Ok(slot.bind(v)),
        Err(e) => if field.attrs.lenient && field.spec_shape() == Shape::Optional && e is TypeConversionError {
            Ok(SlotView::Single(None))
        } else {
            Err(e)
        },
    }
}

/// What a field holds in the end: a required field must have a value.
pub open spec fn finalize_field(field: Field, slot: SlotView) -> Result<FieldValueView, ErrorView> {
    match slot {
        SlotView::Many(vs) => Ok(FieldValueView::Repeated(vs)),
        SlotView::Single(Some(v)) => if field.spec_shape() == Shape::Optional {
            Ok(FieldValueView::Optional(Some(v)))
        } else {
            Ok(FieldValueView::Required(v))
        },
        SlotView::Single(None) => if field.spec_shape() == Shape::Optional {
            Ok(FieldValueView::Optional(None))
        } else {
            Err(ErrorView::MissingField(field.spec_field_name()))
        },
    }
}

/// The fields from index `from` on, behind `done`; the first required field
/// without a value is reported.
pub open spec fn finalize(fields: Seq<Field>, slots: Seq<SlotView>, from: int, done: Seq<FieldValueView>) -> Result<Seq<FieldValueView>, ErrorView>
    decreases fields.len() - from,
{
    if from < 0 || from >= fields.len() {
        Ok(done)
    } else {
        match finalize_field(fields[from], slots[from]) {
            Err(e) => Err(e),
            Ok(v) => finalize(fields, slots, from + 1, done.push(v)),
        }
    }
}

/// The text that selects a unit variant: the rename or the identifier,
/// behind the prefix and a colon where the variant has a prefix.
pub open spec fn variant_tag(v: VariantDescriptor) -> Seq<char> {
    let name = match v.attrs.rename {
        Some(rename) => rename@,
        None => v.ident@,
    };
    match v.attrs.prefix {
        Some(prefix) => prefix@ + seq![':'] + name,
        None => name,
    }
}

/// The first unit variant from index `from` on whose tag is `s`.
pub open spec fn text_dispatch(variants: Seq<VariantDescriptor>, s: Seq<char>, from: int) -> Option<int>
    decreases variants.len() - from,
{
    if from < 0 || from >= variants.len() {
        None
    } else if variants[from].kind == VariantKind::Unit && variant_tag(variants[from]) == s {
        Some(from)
    } else {
        text_dispatch(variants, s, from + 1)
    }
}

/// The first variant from index `from` on whose rule fits `name`.
pub open spec fn node_dispatch(variants: Seq<VariantDescriptor>, name: NameView, from: int) -> Option<int>
    decreases variants.len() - from,
{
    if from < 0 || from >= variants.len() {
        None
    } else if name_matches(Some(variants[from].ident@), variants[from].attrs, name) {
        Some(from)
    } else {
        node_dispatch(variants, name, from + 1)
    }
}

/// The value of the type at index `ty` that the text `s` gives.
///
/// A string is the text itself; a number is parsed. Of a struct, the fields
/// bound to the text and the flattened fields are read from the same text,
/// and the others stay empty. Of an enum, the text selects a unit variant.
pub open spec fn de_text(types: Seq<TypeDescriptor>, ty: int, s: Seq<char>) -> Result<ValueView, ErrorView>
    decreases ty, 2int, 0int,
{
    if ty < 0 || ty >= types.len() {
        Err(ErrorView::InvalidShape(InvalidShape::UnknownType))
    } else {
        match types[ty] {
            TypeDescriptor::Text => Ok(ValueView::Text(s)),
            TypeDescriptor::Number(kind) => number_from_text(kind, s),
            TypeDescriptor::Struct(sd) => match text_fields(types, ty, sd.fields@, s) {
                Ok(values) => Ok(ValueView::Struct(values)),
                Err(e) => Err(e),
            },
            TypeDescriptor::Enum(ed) => match text_dispatch(ed.variants@, s, 0) {
                Some(v) => Ok(ValueView::Variant(v, Seq::empty())),
                None => Err(ErrorView::NoMatchingVariant),
            },
        }
    }
}

/// The fields of a record that is read from a text.
pub open spec fn text_fields(types: Seq<TypeDescriptor>, owner: int, fields: Seq<Field>, s: Seq<char>) -> Result<Seq<FieldValueView>, ErrorView>
    decreases owner, 1int, 0int,
{
    match text_scan(types, owner, fields, s, init_slots(fields), 0, false) {
        Err(e) => Err(e),
        Ok(captured) => match text_scan(types, owner, fields, s, captured, 0, true) {
            Err(e) => Err(e),
            Ok(slots) => finalize(fields, slots, 0, Seq::empty()),
        },
    }
}

/// Binds the text `s` to the fields from index `from` on that are bound to
/// the text, or, with `flatten`, to those that are flattened.
pub open spec fn text_scan(
    types: Seq<TypeDescriptor>,
    owner: int,
    fields: Seq<Field>,
    s: Seq<char>,
    slots: Seq<SlotView>,
    from: int,
    flatten: bool,
) -> Result<Seq<SlotView>, ErrorView>
    decreases owner, 0int, fields.len() - from,
{
    if from < 0 || from >= fields.len() {
        Ok(slots)
    } else {
        let f = fields[from];
        if (if flatten {
            f.attrs.flatten
        } else {
            f.attrs.text
        }) && f.target < owner {
            match bind_result(f, slots[from], de_text(types, f.target as int, s)) {
                Ok(slot) => text_scan(types, owner, fields, s, slots.update(from, slot), from + 1, flatten),
                Err(e) => Err(e),
            }
        } else {
            text_scan(types, owner, fields, s, slots, from + 1, flatten)
        }
    }
}

/// Binds the attribute `attr` to the attribute fields from index `from` on
/// whose rule fits its name.
pub open spec fn attribute_scan(
    types: Seq<TypeDescriptor>,
    fields: Seq<Field>,
    attr: AttributeView,
    slots: Seq<SlotView>,
    from: int,
) -> Result<Seq<SlotView>, ErrorView>
    decreases fields.len() - from,
{
    if from < 0 || from >= fields.len() {
        Ok(slots)
    } else {
        let f = fields[from];
        if f.attrs.attribute && f.spec_matches(attr.name) {
            match bind_result(f, slots[from], de_text(types, f.target as int, attr.value)) {
                Ok(slot) => attribute_scan(types, fields, attr, slots.update(from, slot), from + 1),
                Err(e) => Err(e),
            }
        } else {
            attribute_scan(types, fields, attr, slots, from + 1)
        }
    }
}

/// Binds the attributes from index `from` on, in their stored order.
pub open spec fn attributes_scan(
    types: Seq<TypeDescriptor>,
    fields: Seq<Field>,
    attributes: Seq<AttributeView>,
    slots: Seq<SlotView>,
    from: int,
) -> Result<Seq<SlotView>, ErrorView>
    decreases attributes.len() - from,
{
    if from < 0 || from >= attributes.len() {
        Ok(slots)
    } else {
        match attribute_scan(types, fields, attributes[from], slots, 0) {
            Ok(bound) => attributes_scan(types, fields, attributes, bound, from + 1),
            Err(e) => Err(e),
        }
    }
}

/// The value of the type at index `ty` that the node gives.
///
/// A string is the node's text; a number is parsed from it. A struct is read
/// field by field. Of an enum, the first variant whose rule fits the node's
/// name is taken, and its fields are read from the node.
pub open spec fn de_node(types: Seq<TypeDescriptor>, ty: int, node: NodeView) -> Result<ValueView, ErrorView>
    decreases node, ty, 2int, 0int, 0int,
{
    if ty < 0 || ty >= types.len() {
        Err(ErrorView::InvalidShape(InvalidShape::UnknownType))
    } else {
        match types[ty] {
            TypeDescriptor::Text => Ok(ValueView::Text(node.text())),
            TypeDescriptor::Number(kind) => number_from_text(kind, node.text()),
            TypeDescriptor::Struct(sd) => match node_fields(types, ty, sd.fields@, node) {
                Ok(values) => Ok(ValueView::Struct(values)),
                Err(e) => Err(e),
            },
            TypeDescriptor::Enum(ed) => match node_dispatch(ed.variants@, node.name, 0) {
                None => Err(ErrorView::NoMatchingVariant),
                Some(v) => if ed.variants@[v].kind == VariantKind::Unit {
                    Ok(ValueView::Variant(v, Seq::empty()))
                } else {
                    match node_fields(types, ty, ed.variants@[v].fields@, node) {
                        Ok(values) => Ok(ValueView::Variant(v, values)),
                        Err(e) => Err(e),
                    }
                },
            },
        }
    }
}

/// The fields of a record that is read from a node: first the fields bound
/// to the text, then the flattened fields, then the attributes in their
/// stored order, then the children in document order; at last every
/// required field must have a value.
pub open spec fn node_fields(types: Seq<TypeDescriptor>, owner: int, fields: Seq<Field>, node: NodeView) -> Result<Seq<FieldValueView>, ErrorView>
    decreases node, owner, 1int, 1int, 0int,
{
    match node_slots(types, owner, fields, node) {
        Err(e) => Err(e),
        Ok(slots) => finalize(fields, slots, 0, Seq::empty()),
    }
}

/// What the node binds to the fields of a record, before the required
/// fields are asked for.
pub open spec fn node_slots(types: Seq<TypeDescriptor>, owner: int, fields: Seq<Field>, node: NodeView) -> Result<Seq<SlotView>, ErrorView>
    decreases node, owner, 1int, 0int, 0int,
{
    match text_scan(types, owner, fields, node.text(), init_slots(fields), 0, false) {
        Err(e) => Err(e),
        Ok(captured) => match flatten_scan(types, owner, fields, node, captured, 0) {
            Err(e) => Err(e),
            Ok(flattened) => match attributes_scan(types, fields, node.attributes, flattened, 0) {
                Err(e) => Err(e),
                Ok(attributed) => children_scan(types, owner, fields, node, attributed, 0),
            },
        },
    }
}

/// Reads the flattened fields from index `from` on out of the node itself.
pub open spec fn flatten_scan(
    types: Seq<TypeDescriptor>,
    owner: int,
    fields: Seq<Field>,
    node: NodeView,
    slots: Seq<SlotView>,
    from: int,
) -> Result<Seq<SlotView>, ErrorView>
    decreases node, owner, 0int, fields.len() - from, 0int,
{
    if from < 0 || from >= fields.len() {
        Ok(slots)
    } else {
        let f = fields[from];
        if f.attrs.flatten && f.target < owner {
            match bind_result(f, slots[from], de_node(types, f.target as int, node)) {
                Ok(slot) => flatten_scan(types, owner, fields, node, slots.update(from, slot), from + 1),
                Err(e) => Err(e),
            }
        } else {
            flatten_scan(types, owner, fields, node, slots, from + 1)
        }
    }
}

/// Binds the children from index `from` on, in document order.
pub open spec fn children_scan(
    types: Seq<TypeDescriptor>,
    owner: int,
    fields: Seq<Field>,
    node: NodeView,
    slots: Seq<SlotView>,
    from: int,
) -> Result<Seq<SlotView>, ErrorView>
    decreases node, owner, 0int, node.elements.len() - from, fields.len() + 1,
{
    if from < 0 || from >= node.elements.len() {
        Ok(slots)
    } else {
        match child_scan(types, owner, fields, node, from, slots, 0) {
            Ok(bound) => children_scan(types, owner, fields, node, bound, from + 1),
            Err(e) => Err(e),
        }
    }
}

/// Binds the child at index `child`, if it is a node, to the fields from
/// index `from` on that are bound to a child element and whose rule fits
/// its name.
pub open spec fn child_scan(
    types: Seq<TypeDescriptor>,
    owner: int,
    fields: Seq<Field>,
    node: NodeView,
    child: int,
    slots: Seq<SlotView>,
    from: int,
) -> Result<Seq<SlotView>, ErrorView>
    decreases node, owner, 0int, node.elements.len() - child, fields.len() - from,
{
    if from < 0 || from >= fields.len() || child < 0 || child >= node.elements.len() {
        Ok(slots)
    } else {
        let f = fields[from];
        match node.elements[child] {
            ElementView::Node(c) => if f.attrs.spec_is_child() && f.spec_matches(c.name) {
                match bind_result(f, slots[from], de_node(types, f.target as int, c)) {
                    Ok(slot) => child_scan(types, owner, fields, node, child, slots.update(from, slot), from + 1),
                    Err(e) => Err(e),
                }
            } else {
                child_scan(types, owner, fields, node, child, slots, from + 1)
            },
            _ => Ok(slots),
        }
    }
}

/// The value of the type at index `ty` that the element gives. Only a node
/// and a text can be bound.
pub open spec fn de_element(types: Seq<TypeDescriptor>, ty: int, element: ElementView) -> Result<ValueView, ErrorView> {
    match element {
        ElementView::Text(s) => de_text(types, ty, s),
        ElementView::Node(node) => de_node(types, ty, node),
        _ => Err(ErrorView::UnsupportedElement),
    }
}

/// The value of an option, or the report that the field `name` is missing.
pub fn unwrap_option<T>(op: Option<T>, name: &str) -> (r: Result<T, DeError>)
    ensures
        match op {
            Some(val) => r == Ok::<T, DeError>(val),
            None => r matches Err(e) && e@ == ErrorView::MissingField(name@),
        },
{
    match op {
        Some(val) => Ok(val),
        None => Err(DeError::MissingField(String::from_str(name))),
    }
}

/// Parses a number of type `kind` from `s`, white space at its ends aside.
pub fn number_from_str(kind: NumberKind, s: &str) -> (r: Result<Value, DeError>)
    ensures
        result_view(r) == number_from_text(kind, s@),
{
    let t = trim(s);
    if kind.signed() {
        match signed_from_str(t) {
            Some(n) => if kind.holds_signed(n) {
                Ok(Value::Signed(n))
            } else {
                Err(DeError::TypeConversionError(String::from_str(t)))
            },
            None => Err(DeError::TypeConversionError(String::from_str(t))),
        }
    } else {
        match unsigned_from_str(t) {
            Some(n) => if kind.holds_unsigned(n) {
                Ok(Value::Unsigned(n))
            } else {
                Err(DeError::TypeConversionError(String::from_str(t)))
            },
            None => Err(DeError::TypeConversionError(String::from_str(t))),
        }
    }
}

/// The empty slots of `fields`.
pub fn declare(fields: &Vec<Field>) -> (slots: Vec<Slot>)
    ensures
        slots@.len() == fields@.len(),
        slots_view(slots@) == init_slots(fields@),
{
    let mut slots: Vec<Slot> = Vec::new();
    let n = fields.len();
    let mut i: usize = 0;
    while i < n
        invariant
            n == fields.len(),
            i <= n,
            slots@.len() == i,
            forall|j: int| 0 <= j < i ==> (#[trigger] slots@[j])@ == init_slot(fields@[j]),
        decreases n - i,
    {
        if fields[i].ty.has_vec() {
            let slot = Slot::Many(Vec::new());
            assert(slot@ == SlotView::Many(Seq::empty())) by {
                assert(values_view(Seq::<Value>::empty()) =~= Seq::<ValueView>::empty());
            }
            slots.push(slot);
        } else {
            slots.push(Slot::Single(None));
        }
        i += 1;
    }
    assert(slots_view(slots@) =~= init_slots(fields@));
    slots
}

/// Binds the outcome `r` of a payload's deserialization to the slot at
/// index `i`.
fn bind_outcome(field: &Field, slots: &mut Vec<Slot>, i: usize, r: Result<Value, DeError>) -> (out: Result<(), DeError>)
    requires
        i < old(slots)@.len(),
    ensures
        final(slots)@.len() == old(slots)@.len(),
        match bind_result(*field, slots_view(old(slots)@)[i as int], result_view(r)) {
            Ok(slot) => out is Ok && slots_view(final(slots)@) == slots_view(old(slots)@).update(i as int, slot),
            Err(e) => out matches Err(x) && x@ == e,
        },
{
    match r {
        Ok(v) => {
            bind_slot(slots, i, v);
            Ok(())
        },
        Err(e) => {
            let optional = match field.shape() {
                Shape::Optional => true,
                _ => false,
            };
            let conversion = match &e {
                DeError::TypeConversionError(_) => true,
                _ => false,
            };
            if field.attrs.lenient && optional && conversion {
                slots[i] = Slot::Single(None);
                assert(slots_view(slots@) =~= slots_view(old(slots)@).update(i as int, SlotView::Single(None)));
                Ok(())
            } else {
                Err(e)
            }
        },
    }
}

/// Closes the slots: what each field holds, in the order of the fields, or
/// the first required field that has no value.
fn rebind(fields: &Vec<Field>, slots: Vec<Slot>) -> (r: Result<Vec<FieldValue>, DeError>)
    requires
        slots@.len() == fields@.len(),
    ensures
        match finalize(fields@, slots_view(slots@), 0, Seq::empty()) {
            Ok(values) => r matches Ok(v) && fields_view(v@) == values,
            Err(e) => r matches Err(x) && x@ == e,
        },
{
    let ghost initial = slots_view(slots@);
    let mut pending = slots;
    let mut done: Vec<FieldValue> = Vec::new();
    let n = fields.len();
    let mut i: usize = 0;
    assert(fields_view(done@) =~= Seq::empty());
    while i < n
        invariant
            n == fields.len(),
            n == pending.len(),
            initial == slots_view(slots@),
            initial.len() == n,
            i <= n,
            forall|j: int| i <= j < n ==> (#[trigger] pending@[j])@ == initial[j],
            finalize(fields@, initial, i as int, fields_view(done@)) == finalize(fields@, initial, 0, Seq::empty()),
        decreases n - i,
    {
        let field = &fields[i];
        let optional = match field.shape() {
            Shape::Optional => true,
            _ => false,
        };
        let name = field.field_name();
        let ghost before = fields_view(done@);
        assert(pending@[i as int]@ == initial[i as int]);
        let taken = match &mut pending[i] {
            Slot::Many(values) => {
                let mut taken: Vec<Value> = Vec::new();
                std::mem::swap(values, &mut taken);
                Ok(FieldValue::Repeated(taken))
            },
            Slot::Single(held) => {
                let v = held.take();
                if optional {
                    Ok(FieldValue::Optional(v))
                } else {
                    match unwrap_option(v, name.as_str()) {
                        Ok(v) => Ok(FieldValue::Required(v)),
                        Err(e) => Err(e),
                    }
                }
            },
        };
        let value = match taken {
            Ok(value) => value,
            Err(e) => {
                assert(finalize_field(fields@[i as int], initial[i as int]) == Err::<FieldValueView, ErrorView>(e@));
                return Err(e);
            },
        };
        assert(finalize_field(fields@[i as int], initial[i as int]) == Ok::<FieldValueView, ErrorView>(value@));
        done.push(value);
        assert(fields_view(done@) =~= before.push(value@));
        i += 1;
    }
    Ok(done)
}

/// The text that selects the unit variant `v`.
pub fn tag_of(v: &VariantDescriptor) -> (tag: String)
    ensures
        tag@ == variant_tag(*v),
{
    let mut tag = String::new();
    match &v.attrs.prefix {
        Some(prefix) => {
            tag.append(prefix.as_str());
            proof {
                reveal_strlit(":");
                assert(":"@ =~= seq![':']);
            }
            tag.append(":");
        },
        None => {},
    }
    match &v.attrs.rename {
        Some(rename) => tag.append(rename.as_str()),
        None => tag.append(v.ident.as_str()),
    }
    assert(tag@ =~= variant_tag(*v));
    tag
}

/// The first unit variant whose tag is `s`.
pub fn dispatch_text(variants: &Vec<VariantDescriptor>, s: &str) -> (r: Option<usize>)
    ensures
        match r {
            Some(v) => v < variants@.len() && text_dispatch(variants@, s@, 0) == Some(v as int),
            None => text_dispatch(variants@, s@, 0) is None,
        },
{
    let text = String::from_str(s);
    let n = variants.len();
    let mut i: usize = 0;
    while i < n
        invariant
            n == variants.len(),
            i <= n,
            text@ == s@,
            text_dispatch(variants@, s@, i as int) == text_dispatch(variants@, s@, 0),
        decreases n - i,
    {
        let unit = match variants[i].kind {
            VariantKind::Unit => true,
            _ => false,
        };
        if unit && tag_of(&variants[i]) == text {
            return Some(i);
        }
        i += 1;
    }
    None
}

/// The first variant whose rule fits `name`.
pub fn dispatch_node(variants: &Vec<VariantDescriptor>, name: &XmlName) -> (r: Option<usize>)
    ensures
        match r {
            Some(v) => v < variants@.len() && node_dispatch(variants@, name@, 0) == Some(v as int),
            None => node_dispatch(variants@, name@, 0) is None,
        },
{
    let n = variants.len();
    let mut i: usize = 0;
    while i < n
        invariant
            n == variants.len(),
            i <= n,
            node_dispatch(variants@, name@, i as int) == node_dispatch(variants@, name@, 0),
        decreases n - i,
    {
        if owned_name_match(variants[i].ident.as_str(), &variants[i].attrs, name) {
            return Some(i);
        }
        i += 1;
    }
    None
}

/// Deserializes the type at index `ty` from the text `s`.
pub fn deserialize_text(schema: &SchemaDescriptor, ty: usize, s: &str) -> (r: Result<Value, DeError>)
    ensures
        result_view(r) == de_text(schema.types(), ty as int, s@),
    decreases ty, 2int, 0int,
{
    if ty >= schema.len() {
        return Err(DeError::InvalidShape(InvalidShape::UnknownType));
    }
    match schema.get(ty) {
        TypeDescriptor::Text => Ok(Value::Text(String::from_str(s))),
        TypeDescriptor::Number(kind) => number_from_str(*kind, s),
        TypeDescriptor::Struct(sd) => {
            let mut slots = declare(&sd.fields);
            match scan_text(schema, ty, &sd.fields, s, &mut slots, false) {
                Err(e) => Err(e),
                Ok(()) => match scan_text(schema, ty, &sd.fields, s, &mut slots, true) {
                    Err(e) => Err(e),
                    Ok(()) => match rebind(&sd.fields, slots) {
                        Ok(values) => Ok(Value::Struct(values)),
                        Err(e) => Err(e),
                    },
                },
            }
        },
        TypeDescriptor::Enum(ed) => match dispatch_text(&ed.variants, s) {
            Some(v) => {
                let fields: Vec<FieldValue> = Vec::new();
                assert(fields_view(fields@) =~= Seq::empty());
                Ok(Value::Variant(v, fields))
            },
            None => Err(DeError::NoMatchingVariant),
        },
    }
}

/// Binds the text `s` to the fields that are bound to the text, or, with
/// `flatten`, to those that are flattened.
fn scan_text(schema: &SchemaDescriptor, owner: usize, fields: &Vec<Field>, s: &str, slots: &mut Vec<Slot>, flatten: bool) -> (r: Result<(), DeError>)
    requires
        old(slots)@.len() == fields@.len(),
    ensures
        final(slots)@.len() == fields@.len(),
        match text_scan(schema.types(), owner as int, fields@, s@, slots_view(old(slots)@), 0, flatten) {
            Ok(bound) => r is Ok && slots_view(final(slots)@) == bound,
            Err(e) => r matches Err(x) && x@ == e,
        },
    decreases owner, 0int, fields@.len(),
{
    let n = fields.len();
    let mut i: usize = 0;
    while i < n
        invariant
            n == fields.len(),
            n == slots@.len(),
            i <= n,
            text_scan(schema.types(), owner as int, fields@, s@, slots_view(slots@), i as int, flatten) == text_scan(
                schema.types(),
                owner as int,
                fields@,
                s@,
                slots_view(old(slots)@),
                0,
                flatten,
            ),
        decreases n - i,
    {
        let field = &fields[i];
        let chosen = if flatten {
            field.attrs.flatten
        } else {
            field.attrs.text
        };
        if chosen && field.target < owner {
            let outcome = deserialize_text(schema, field.target, s);
            match bind_outcome(field, slots, i, outcome) {
                Ok(()) => {},
                Err(e) => {
                    return Err(e);
                },
            }
        }
        i += 1;
    }
    Ok(())
}

/// Binds the attribute `attr` to the attribute fields whose rule fits its
/// name.
fn scan_attribute(schema: &SchemaDescriptor, fields: &Vec<Field>, attr: &XmlAttribute, slots: &mut Vec<Slot>) -> (r: Result<(), DeError>)
    requires
        old(slots)@.len() == fields@.len(),
    ensures
        final(slots)@.len() == fields@.len(),
        match attribute_scan(schema.types(), fields@, attr@, slots_view(old(slots)@), 0) {
            Ok(bound) => r is Ok && slots_view(final(slots)@) == bound,
            Err(e) => r matches Err(x) && x@ == e,
        },
{
    let n = fields.len();
    let mut i: usize = 0;
    while i < n
        invariant
            n == fields.len(),
            n == slots@.len(),
            i <= n,
            attribute_scan(schema.types(), fields@, attr@, slots_view(slots@), i as int) == attribute_scan(
                schema.types(),
                fields@,
                attr@,
                slots_view(old(slots)@),
                0,
            ),
        decreases n - i,
    {
        let field = &fields[i];
        if field.attrs.attribute && field.de_owned_name_match(&attr.name) {
            let outcome = deserialize_text(schema, field.target, attr.value.as_str());
            match bind_outcome(field, slots, i, outcome) {
                Ok(()) => {},
                Err(e) => {
                    return Err(e);
                },
            }
        }
        i += 1;
    }
    Ok(())
}

/// Binds the attributes, in their stored order.
fn scan_attributes(schema: &SchemaDescriptor, fields: &Vec<Field>, attributes: &Vec<XmlAttribute>, slots: &mut Vec<Slot>) -> (r: Result<(), DeError>)
    requires
        old(slots)@.len() == fields@.len(),
    ensures
        final(slots)@.len() == fields@.len(),
        match attributes_scan(schema.types(), fields@, attributes@.map_values(|a: XmlAttribute| a@), slots_view(old(slots)@), 0) {
            Ok(bound) => r is Ok && slots_view(final(slots)@) == bound,
            Err(e) => r matches Err(x) && x@ == e,
        },
{
    let ghost views = attributes@.map_values(|a: XmlAttribute| a@);
    let n = attributes.len();
    let mut i: usize = 0;
    while i < n
        invariant
            n == attributes.len(),
            views == attributes@.map_values(|a: XmlAttribute| a@),
            fields@.len() == slots@.len(),
            i <= n,
            attributes_scan(schema.types(), fields@, views, slots_view(slots@), i as int) == attributes_scan(
                schema.types(),
                fields@,
                views,
                slots_view(old(slots)@),
                0,
            ),
        decreases n - i,
    {
        match scan_attribute(schema, fields, &attributes[i], slots) {
            Ok(()) => {},
            Err(e) => {
                return Err(e);
            },
        }
        i += 1;
    }
    Ok(())
}

/// Deserializes the type at index `ty` from a node.
pub fn deserialize_node(schema: &SchemaDescriptor, ty: usize, node: &XmlNode) -> (r: Result<Value, DeError>)
    ensures
        result_view(r) == de_node(schema.types(), ty as int, node@),
    decreases node, ty, 2int, 0int, 0int,
{
    if ty >= schema.len() {
        return Err(DeError::InvalidShape(InvalidShape::UnknownType));
    }
    match schema.get(ty) {
        TypeDescriptor::Text => {
            let mut text = String::new();
            node.text(&mut text);
            assert(text@ =~= node@.text());
            Ok(Value::Text(text))
        },
        TypeDescriptor::Number(kind) => {
            let mut text = String::new();
            node.text(&mut text);
            assert(text@ =~= node@.text());
            number_from_str(*kind, text.as_str())
        },
        TypeDescriptor::Struct(sd) => match node_record(schema, ty, &sd.fields, node) {
            Ok(values) => Ok(Value::Struct(values)),
            Err(e) => Err(e),
        },
        TypeDescriptor::Enum(ed) => match dispatch_node(&ed.variants, &node.name) {
            None => Err(DeError::NoMatchingVariant),
            Some(v) => {
                let unit = match ed.variants[v].kind {
                    VariantKind::Unit => true,
                    _ => false,
                };
                if unit {
                    let fields: Vec<FieldValue> = Vec::new();
                    assert(fields_view(fields@) =~= Seq::empty());
                    Ok(Value::Variant(v, fields))
                } else {
                    match node_record(schema, ty, &ed.variants[v].fields, node) {
                        Ok(values) => Ok(Value::Variant(v, values)),
                        Err(e) => Err(e),
                    }
                }
            },
        },
    }
}

/// Reads the fields of a record from a node.
pub fn node_record(schema: &SchemaDescriptor, owner: usize, fields: &Vec<Field>, node: &XmlNode) -> (r: Result<Vec<FieldValue>, DeError>)
    ensures
        match node_fields(schema.types(), owner as int, fields@, node@) {
            Ok(values) => r matches Ok(v) && fields_view(v@) == values,
            Err(e) => r matches Err(x) && x@ == e,
        },
    decreases node, owner, 1int, 1int, 0int,
{
    let mut slots = declare(fields);
    let mut text = String::new();
    node.text(&mut text);
    assert(text@ =~= node@.text());
    match scan_text(schema, owner, fields, text.as_str(), &mut slots, false) {
        Err(e) => Err(e),
        Ok(()) => match scan_flatten(schema, owner, fields, node, &mut slots) {
            Err(e) => Err(e),
            Ok(()) => match scan_attributes(schema, fields, &node.attributes, &mut slots) {
                Err(e) => Err(e),
                Ok(()) => match scan_children(schema, owner, fields, node, &mut slots) {
                    Err(e) => Err(e),
                    Ok(()) => rebind(fields, slots),
                },
            },
        },
    }
}

/// Reads the flattened fields out of the node itself.
fn scan_flatten(schema: &SchemaDescriptor, owner: usize, fields: &Vec<Field>, node: &XmlNode, slots: &mut Vec<Slot>) -> (r: Result<(), DeError>)
    requires
        old(slots)@.len() == fields@.len(),
    ensures
        final(slots)@.len() == fields@.len(),
        match flatten_scan(schema.types(), owner as int, fields@, node@, slots_view(old(slots)@), 0) {
            Ok(bound) => r is Ok && slots_view(final(slots)@) == bound,
            Err(e) => r matches Err(x) && x@ == e,
        },
    decreases node, owner, 0int, fields@.len(), 0int,
{
    let n = fields.len();
    let mut i: usize = 0;
    while i < n
        invariant
            n == fields.len(),
            n == slots@.len(),
            i <= n,
            flatten_scan(schema.types(), owner as int, fields@, node@, slots_view(slots@), i as int) == flatten_scan(
                schema.types(),
                owner as int,
                fields@,
                node@,
                slots_view(old(slots)@),
                0,
            ),
        decreases n - i,
    {
        let field = &fields[i];
        if field.attrs.flatten && field.target < owner {
            let outcome = deserialize_node(schema, field.target, node);
            match bind_outcome(field, slots, i, outcome) {
                Ok(()) => {},
                Err(e) => {
                    return Err(e);
                },
            }
        }
        i += 1;
    }
    Ok(())
}

/// Binds the children, in document order.
fn scan_children(schema: &SchemaDescriptor, owner: usize, fields: &Vec<Field>, node: &XmlNode, slots: &mut Vec<Slot>) -> (r: Result<(), DeError>)
    requires
        old(slots)@.len() == fields@.len(),
    ensures
        final(slots)@.len() == fields@.len(),
        match children_scan(schema.types(), owner as int, fields@, node@, slots_view(old(slots)@), 0) {
            Ok(bound) => r is Ok && slots_view(final(slots)@) == bound,
            Err(e) => r matches Err(x) && x@ == e,
        },
    decreases node, owner, 0int, node.elements@.len(), fields@.len() + 1,
{
    let n = node.elements.len();
    let mut i: usize = 0;
    while i < n
        invariant
            n == node.elements.len(),
            n == node@.elements.len(),
            fields@.len() == slots@.len(),
            i <= n,
            children_scan(schema.types(), owner as int, fields@, node@, slots_view(slots@), i as int) == children_scan(
                schema.types(),
                owner as int,
                fields@,
                node@,
                slots_view(old(slots)@),
                0,
            ),
        decreases n - i,
    {
        match scan_child(schema, owner, fields, node, i, slots) {
            Ok(()) => {},
            Err(e) => {
                return Err(e);
            },
        }
        i += 1;
    }
    Ok(())
}

/// Binds the child at index `child`, if it is a node, to the fields that
/// are bound to a child element and whose rule fits its name.
fn scan_child(schema: &SchemaDescriptor, owner: usize, fields: &Vec<Field>, node: &XmlNode, child: usize, slots: &mut Vec<Slot>) -> (r: Result<(), DeError>)
    requires
        old(slots)@.len() == fields@.len(),
        child < node.elements@.len(),
    ensures
        final(slots)@.len() == fields@.len(),
        match child_scan(schema.types(), owner as int, fields@, node@, child as int, slots_view(old(slots)@), 0) {
            Ok(bound) => r is Ok && slots_view(final(slots)@) == bound,
            Err(e) => r matches Err(x) && x@ == e,
        },
    decreases node, owner, 0int, node.elements@.len() - child, fields@.len(),
{
    match &node.elements[child] {
        XmlElement::Node(c) => {
            assert(node@.elements[child as int] == ElementView::Node(c@));
            let n = fields.len();
            let mut i: usize = 0;
            while i < n
                invariant
                    n == fields.len(),
                    n == slots@.len(),
                    i <= n,
                    child < node.elements@.len(),
                    node.elements@[child as int] == XmlElement::Node(*c),
                    node@.elements[child as int] == ElementView::Node(c@),
                    child_scan(schema.types(), owner as int, fields@, node@, child as int, slots_view(slots@), i as int) == child_scan(
                        schema.types(),
                        owner as int,
                        fields@,
                        node@,
                        child as int,
                        slots_view(old(slots)@),
                        0,
                    ),
                decreases n - i,
            {
                let field = &fields[i];
                if field.attrs.is_child() && field.de_owned_name_match(&c.name) {
                    let outcome = deserialize_node(schema, field.target, c);
                    match bind_outcome(field, slots, i, outcome) {
                        Ok(()) => {},
                        Err(e) => {
                            return Err(e);
                        },
                    }
                }
                i += 1;
            }
            Ok(())
        },
        _ => {
            assert(!(node@.elements[child as int] is Node));
            Ok(())
        },
    }
}

impl Value {
    /// Deserializes the type at index `ty` of the schema from an element.
    ///
    /// Only a node and a text can be bound; any other element is refused.
    pub fn deserialize(element: &XmlElement, schema: &SchemaDescriptor, ty: usize) -> (r: Result<Value, DeError>)
        ensures
            result_view(r) == de_element(schema.types(), ty as int, element@),
    {
        match element {
            XmlElement::Text(text) => deserialize_text(schema, ty, text.as_str()),
            XmlElement::Node(node) => deserialize_node(schema, ty, node),
            _ => Err(DeError::UnsupportedElement),
        }
    }
}

/// The mathematical value of a tree under construction.
pub struct BuilderView {
    /// The document, once its start has been read.
    pub doc: Option<DocumentView>,
    /// The nodes that are open, outermost first.
    pub stack: Seq<NodeView>,
}

impl BuilderView {
    /// Nothing read yet.
    pub open spec fn empty() -> BuilderView {
        BuilderView { doc: None, stack: Seq::empty() }
    }

    /// The tree after `element` is complete: it becomes the last child of
    /// the innermost open node, or the last top-level element of the
    /// document where no node is open. There must be a document.
    pub open spec fn attach(self, element: ElementView) -> Result<BuilderView, ErrorView> {
        match self.doc {
            None => Err(ErrorView::SyntaxError),
            Some(doc) => if self.stack.len() > 0 {
                let parent = self.stack.last();
                Ok(
                    BuilderView {
                        doc: self.doc,
                        stack: self.stack.update(
                            self.stack.len() - 1,
                            NodeView { elements: parent.elements.push(element), ..parent },
                        ),
                    },
                )
            } else {
                Ok(BuilderView { doc: Some(DocumentView { elements: doc.elements.push(element), ..doc }), stack: self.stack })
            },
        }
    }

    /// The tree after one more event: the start of the document sets the
    /// declaration; the start of an element opens a node; its end closes the
    /// innermost open node and attaches it; text, comments, character data
    /// and white space are attached as they come.
    pub open spec fn step(self, event: ParseEventView) -> Result<BuilderView, ErrorView> {
        match event {
            ParseEventView::StartDocument { version, encoding, standalone } => Ok(
                BuilderView { doc: Some(DocumentView { version, encoding, standalone, elements: Seq::empty() }), stack: self.stack },
            ),
            ParseEventView::StartElement { name, attributes, namespace } => Ok(
                BuilderView { doc: self.doc, stack: self.stack.push(NodeView { name, attributes, namespace, elements: Seq::empty() }) },
            ),
            ParseEventView::EndElement => if self.stack.len() == 0 {
                Err(ErrorView::SyntaxError)
            } else {
                (BuilderView { doc: self.doc, stack: self.stack.drop_last() }).attach(ElementView::Node(self.stack.last()))
            },
            ParseEventView::Characters(s) => self.attach(ElementView::Text(s)),
            ParseEventView::Comment(s) => self.attach(ElementView::Comment(s)),
            ParseEventView::CData(s) => self.attach(ElementView::CData(s)),
            ParseEventView::Whitespace(s) => self.attach(ElementView::Whitespace(s)),
            ParseEventView::Other => Ok(self),
        }
    }

    /// The document at the end of the events.
    pub open spec fn finish(self) -> Result<DocumentView, ErrorView> {
        match self.doc {
            Some(doc) => Ok(doc),
            None => Err(ErrorView::SyntaxError),
        }
    }
}

/// The document that the events from index `from` on complete.
pub open spec fn build_document(items: Seq<Option<ParseEventView>>, from: int, state: BuilderView) -> Result<DocumentView, ErrorView>
    decreases items.len() - from,
{
    if from < 0 || from >= items.len() {
        state.finish()
    } else {
        match items[from] {
            None => Err(ErrorView::SyntaxError),
            Some(event) => match state.step(event) {
                Ok(next) => build_document(items, from + 1, next),
                Err(e) => Err(e),
            },
        }
    }
}

/// A tree under construction.
#[derive(Debug)]
pub struct TreeBuilder {
    pub doc: Option<XmlDocument>,
    pub stack: Vec<XmlNode>,
}

impl View for TreeBuilder {
    type V = BuilderView;

    open spec fn view(&self) -> BuilderView {
        BuilderView {
            doc: match self.doc {
                Some(doc) => Some(doc@),
                None => None,
            },
            stack: self.stack@.map_values(|n: XmlNode| n@),
        }
    }
}

/// Attaches a complete element to the innermost open node, or to the
/// document where no node is open.
pub fn add_element_to_parent(node: XmlElement, stack: &mut Vec<XmlNode>, doc: &mut XmlDocument)
    ensures
        (BuilderView { doc: Some(old(doc)@), stack: old(stack)@.map_values(|n: XmlNode| n@) }).attach(node@) == Ok::<BuilderView, ErrorView>(
            BuilderView { doc: Some(final(doc)@), stack: final(stack)@.map_values(|n: XmlNode| n@) },
        ),
{
    if stack.len() > 0 {
        let idx = stack.len() - 1;
        let ghost parent = stack@[idx as int]@;
        let ghost pushed = node@;
        stack[idx].elements.push(node);
        assert(stack@[idx as int]@.elements =~= parent.elements.push(pushed));
        assert(stack@.map_values(|n: XmlNode| n@) =~= old(stack)@.map_values(|n: XmlNode| n@).update(
            idx as int,
            NodeView { elements: parent.elements.push(pushed), ..parent },
        ));
    } else {
        let ghost before = doc@;
        let ghost pushed = node@;
        doc.elements.push(node);
        assert(doc@.elements =~= before.elements.push(pushed));
    }
}

impl TreeBuilder {
    /// A builder that has read nothing.
    pub fn new() -> (builder: TreeBuilder)
        ensures
            builder@ == BuilderView::empty(),
    {
        let builder = TreeBuilder { doc: None, stack: Vec::new() };
        assert(builder@.stack =~= Seq::empty());
        builder
    }

    /// Takes one more event.
    pub fn apply(&mut self, event: ParseEvent) -> (r: Result<(), DeError>)
        ensures
            match old(self)@.step(event@) {
                Ok(next) => r is Ok && final(self)@ == next,
                Err(e) => r matches Err(x) && x@ == e,
            },
    {
        let element = match event {
            ParseEvent::StartDocument { version, encoding, standalone } => {
                let elements: Vec<XmlElement> = Vec::new();
                assert(elements_view(elements@) =~= Seq::empty());
                self.doc = Some(XmlDocument { version, encoding, standalone, elements });
                return Ok(());
            },
            ParseEvent::StartElement { name, attributes, namespace } => {
                let elements: Vec<XmlElement> = Vec::new();
                assert(elements_view(elements@) =~= Seq::empty());
                let node = XmlNode { name, attributes, namespace, elements };
                self.stack.push(node);
                assert(self@.stack =~= old(self)@.stack.push(node@));
                return Ok(());
            },
            ParseEvent::EndElement => match self.stack.pop() {
                Some(node) => {
                    assert(self@.stack =~= old(self)@.stack.drop_last());
                    XmlElement::Node(node)
                },
                None => {
                    return Err(DeError::SyntaxError);
                },
            },
            ParseEvent::Characters(s) => XmlElement::Text(s),
            ParseEvent::Comment(s) => XmlElement::Comment(s),
            ParseEvent::CData(s) => XmlElement::CData(s),
            ParseEvent::Whitespace(s) => XmlElement::Whitespace(s),
            ParseEvent::Other => {
                return Ok(());
            },
        };
        match &mut self.doc {
            Some(doc) => {
                add_element_to_parent(element, &mut self.stack, doc);
                Ok(())
            },
            None => Err(DeError::SyntaxError),
        }
    }

    /// The document, once the events have ended.
    pub fn finish(self) -> (r: Result<XmlDocument, DeError>)
        ensures
            match self@.finish() {
                Ok(doc) => r matches Ok(d) && d@ == doc,
                Err(e) => r matches Err(x) && x@ == e,
            },
    {
        match self.doc {
            Some(doc) => Ok(doc),
            None => Err(DeError::SyntaxError),
        }
    }
}

/// Builds the document from the events that are left in `events`.
fn parse_xml(events: EventSource) -> (r: Result<XmlDocument, DeError>)
    ensures
        match build_document(pending(events), 0, BuilderView::empty()) {
            Ok(doc) => r matches Ok(d) && d@ == doc,
            Err(e) => r matches Err(x) && x@ == e,
        },
{
    let ghost items = pending(events);
    let mut source = events;
    let mut builder = TreeBuilder::new();
    let ghost mut at: int = 0;
    loop
        invariant
            items == pending(events),
            0 <= at <= items.len(),
            pending(source) == items.skip(at),
            build_document(items, at, builder@) == build_document(items, 0, BuilderView::empty()),
        decreases pending(source).len(),
    {
        match next_event(&mut source) {
            None => {
                return builder.finish();
            },
            Some(Err(_)) => {
                return Err(DeError::SyntaxError);
            },
            Some(Ok(event)) => {
                assert(items.skip(at)[0] == items[at]);
                assert(items.skip(at).drop_first() =~= items.skip(at + 1));
                match builder.apply(event) {
                    Ok(()) => {},
                    Err(e) => {
                        return Err(e);
                    },
                }
                proof {
                    at = at + 1;
                }
            },
        }
    }
}

/// Reads the bytes of an XML document into a tree.
pub fn parse_document(source: &[u8]) -> (r: Result<XmlDocument, DeError>)
    ensures
        match build_document(tokens(source@), 0, BuilderView::empty()) {
            Ok(doc) => r matches Ok(d) && d@ == doc,
            Err(e) => r matches Err(x) && x@ == e,
        },
{
    parse_xml(read_events(source))
}

/// The value that the first top-level element of a document gives.
pub open spec fn de_document(types: Seq<TypeDescriptor>, ty: int, doc: DocumentView) -> Result<ValueView, ErrorView> {
    if doc.elements.len() == 0 {
        Err(ErrorView::EmptyDocument)
    } else {
        de_element(types, ty, doc.elements[0])
    }
}

/// The value that the events of a source give.
pub open spec fn de_events(types: Seq<TypeDescriptor>, ty: int, items: Seq<Option<ParseEventView>>) -> Result<ValueView, ErrorView> {
    match build_document(items, 0, BuilderView::empty()) {
        Ok(doc) => de_document(types, ty, doc),
        Err(e) => Err(e),
    }
}

/// Deserializes the type at index `ty` of the schema from the first
/// top-level element of the document.
pub fn bind_document(doc: &XmlDocument, schema: &SchemaDescriptor, ty: usize) -> (r: Result<Value, DeError>)
    ensures
        result_view(r) == de_document(schema.types(), ty as int, doc@),
{
    if doc.elements.len() == 0 {
        Err(DeError::EmptyDocument)
    } else {
        Value::deserialize(&doc.elements[0], schema, ty)
    }
}

/// Deserializes the type at index `ty` of the schema from the bytes of an
/// XML document.
pub fn from_bytes(source: &[u8], schema: &SchemaDescriptor, ty: usize) -> (r: Result<Value, DeError>)
    ensures
        result_view(r) == de_events(schema.types(), ty as int, tokens(source@)),
{
    match parse_document(source) {
        Ok(doc) => bind_document(&doc, schema, ty),
        Err(e) => Err(e),
    }
}

/// Deserializes the type at index `ty` of the schema from the text of an
/// XML document.
pub fn from_str(xml: &str, schema: &SchemaDescriptor, ty: usize) -> (r: Result<Value, DeError>)
    ensures
        result_view(r) == de_events(schema.types(), ty as int, tokens(xml.spec_bytes())),
{
    from_bytes(xml.as_bytes(), schema, ty)
}

} // verus!
