//! The round trip: a record that is written into a fresh node is read back
//! from it, where the names under which its parts are written are read
//! back without ambiguity.

use vstd::prelude::*;
use crate::de::ErrorView;
use crate::de::attribute_scan;
use crate::de::attributes_scan;
use crate::de::bind_result;
use crate::de::child_scan;
use crate::de::children_scan;
use crate::de::de_node;
use crate::de::de_text;
use crate::de::finalize;
use crate::de::finalize_field;
use crate::de::flatten_scan;
use crate::de::init_slot;
use crate::de::init_slots;
use crate::de::node_dispatch;
use crate::de::node_fields;
use crate::de::node_slots;
use crate::de::number_from_text;
use crate::de::text_dispatch;
use crate::de::text_scan;
use crate::de::variant_tag;
use crate::scalar::decimal;
use crate::scalar::leading_space;
use crate::scalar::signed_decimal;
use crate::scalar::trailing_space;
use crate::scalar::trimmed;
use crate::scalar_lemmas::lemma_signed_round_trip;
use crate::scalar_lemmas::lemma_unsigned_round_trip;
use crate::schema::BindingKind;
use crate::schema::Field;
use crate::schema::NumberKind;
use crate::schema::Shape;
use crate::schema::TypeDescriptor;
use crate::schema::VariantKind;
use crate::se::emit_fields;
use crate::se::emit_record;
use crate::se::emit_value;
use crate::se::emit_values;
use crate::se::field_tag;
use crate::se::se_value;
use crate::se::tag_name;
use crate::se_lemmas::field_written;
use crate::tree::AttributeView;
use crate::tree::ElementView;
use crate::tree::NameView;
use crate::tree::NodeView;
use crate::tree::content_text;
use crate::tree::element_text;
use crate::value::FieldValueView;
use crate::value::SlotView;
use crate::value::ValueView;

verus! {

/// The number is one of the type.
pub open spec fn number_of(kind: NumberKind, v: ValueView) -> bool {
    match v {
        ValueView::Unsigned(n) => !kind.spec_signed() && n <= kind.spec_max(),
        ValueView::Signed(n) => kind.spec_signed() && kind.spec_min() <= n <= kind.spec_max(),
        _ => false,
    }
}

/// The text that a value is written as: a string as it is, a number in
/// decimal, a variant as its tag.
pub open spec fn text_form(types: Seq<TypeDescriptor>, ty: int, v: ValueView) -> Seq<char> {
    match v {
        ValueView::Text(s) => s,
        ValueView::Unsigned(n) => decimal(n as nat),
        ValueView::Signed(n) => signed_decimal(n as int),
        ValueView::Variant(i, _) => if 0 <= ty < types.len() && types[ty] is Enum && 0 <= i < types[ty]->Enum_0.variants@.len() {
            variant_tag(types[ty]->Enum_0.variants@[i])
        } else {
            Seq::empty()
        },
        _ => Seq::empty(),
    }
}

/// The value can stand where a text is bound: it is a string, a number of
/// its type, or a variant without fields whose tag no earlier variant
/// without fields has.
pub open spec fn text_conforms(types: Seq<TypeDescriptor>, ty: int, v: ValueView) -> bool {
    0 <= ty < types.len() && match types[ty] {
        TypeDescriptor::Text => v is Text,
        TypeDescriptor::Number(kind) => number_of(kind, v),
        TypeDescriptor::Struct(_) => false,
        TypeDescriptor::Enum(ed) => match v {
            ValueView::Variant(i, values) => 0 <= i < ed.variants@.len() && values.len() == 0 && text_dispatch(
                ed.variants@,
                variant_tag(ed.variants@[i]),
                0,
            ) == Some(i),
            _ => false,
        },
    }
}

/// The name of a node called `name` after a value is written into it: a
/// struct marked as root and a variant name it, anything else leaves the
/// name.
pub open spec fn written_name(types: Seq<TypeDescriptor>, ty: int, v: ValueView, name: NameView) -> NameView {
    if 0 <= ty < types.len() {
        match (types[ty], v) {
            (TypeDescriptor::Struct(sd), ValueView::Struct(_)) => if sd.attrs.root {
                tag_name(sd.attrs, sd.ident@, name)
            } else {
                name
            },
            (TypeDescriptor::Enum(ed), ValueView::Variant(i, _)) => if 0 <= i < ed.variants@.len() {
                tag_name(ed.variants@[i].attrs, ed.variants@[i].ident@, name)
            } else {
                name
            },
            _ => name,
        }
    } else {
        name
    }
}

/// Among the fields bound to attributes, the field at index `k` and no
/// other fits `name`.
pub open spec fn attribute_fits(fields: Seq<Field>, k: int, name: NameView) -> bool {
    &&& fields[k].spec_matches(name)
    &&& forall|l: int| 0 <= l < fields.len() && l != k ==> !((#[trigger] fields[l]).attrs.attribute && fields[l].spec_matches(name))
}

/// Among the fields bound to child elements, the field at index `k` and no
/// other fits `name`.
pub open spec fn child_fits(fields: Seq<Field>, k: int, name: NameView) -> bool {
    &&& fields[k].spec_matches(name)
    &&& forall|l: int| 0 <= l < fields.len() && l != k ==> !((#[trigger] fields[l]).attrs.spec_is_child() && fields[l].spec_matches(name))
}

/// The attribute that a value is written as.
pub open spec fn attribute_of(types: Seq<TypeDescriptor>, field: Field, v: ValueView) -> AttributeView {
    AttributeView { name: field_tag(field), value: text_form(types, field.target as int, v) }
}

/// The child node that a value of the field is written as.
pub open spec fn child_of(types: Seq<TypeDescriptor>, field: Field, v: ValueView) -> ElementView {
    se_value(types, field.target as int, v, ElementView::Node(NodeView { name: field_tag(field), ..NodeView::empty() }))
}

/// The attributes that the values from index `from` on of a repeated field
/// are written as.
pub open spec fn values_attributes(types: Seq<TypeDescriptor>, field: Field, vs: Seq<ValueView>, from: int) -> Seq<AttributeView>
    decreases vs.len() - from,
{
    if from < 0 || from >= vs.len() {
        Seq::empty()
    } else {
        seq![attribute_of(types, field, vs[from])] + values_attributes(types, field, vs, from + 1)
    }
}

/// The attributes that a field bound to an attribute is written as.
pub open spec fn field_attributes(types: Seq<TypeDescriptor>, field: Field, value: FieldValueView) -> Seq<AttributeView> {
    match value {
        FieldValueView::Required(v) => seq![attribute_of(types, field, v)],
        FieldValueView::Optional(Some(v)) => seq![attribute_of(types, field, v)],
        FieldValueView::Optional(None) => Seq::empty(),
        FieldValueView::Repeated(vs) => values_attributes(types, field, vs, 0),
    }
}

/// The texts that a field bound to the text is written as.
pub open spec fn field_texts(types: Seq<TypeDescriptor>, field: Field, value: FieldValueView) -> Seq<ElementView> {
    match value {
        FieldValueView::Required(v) => seq![ElementView::Text(text_form(types, field.target as int, v))],
        FieldValueView::Optional(Some(v)) => seq![ElementView::Text(text_form(types, field.target as int, v))],
        _ => Seq::empty(),
    }
}

/// The text that a field bound to the text is written as: the text of its
/// value, or nothing where it holds none.
pub open spec fn field_text(types: Seq<TypeDescriptor>, field: Field, value: FieldValueView) -> Seq<char> {
    match value {
        FieldValueView::Required(v) => text_form(types, field.target as int, v),
        FieldValueView::Optional(Some(v)) => text_form(types, field.target as int, v),
        _ => Seq::empty(),
    }
}

/// The child nodes that the values from index `from` on of a repeated
/// field are written as.
pub open spec fn values_children(types: Seq<TypeDescriptor>, field: Field, vs: Seq<ValueView>, from: int) -> Seq<ElementView>
    decreases vs.len() - from,
{
    if from < 0 || from >= vs.len() {
        Seq::empty()
    } else {
        seq![child_of(types, field, vs[from])] + values_children(types, field, vs, from + 1)
    }
}

/// The child nodes that a field bound to child elements is written as.
pub open spec fn field_children(types: Seq<TypeDescriptor>, field: Field, value: FieldValueView) -> Seq<ElementView> {
    match value {
        FieldValueView::Required(v) => seq![child_of(types, field, v)],
        FieldValueView::Optional(Some(v)) => seq![child_of(types, field, v)],
        FieldValueView::Optional(None) => Seq::empty(),
        FieldValueView::Repeated(vs) => values_children(types, field, vs, 0),
    }
}

/// The attributes that the fields from index `from` on are written as.
pub open spec fn record_attributes(types: Seq<TypeDescriptor>, fields: Seq<Field>, values: Seq<FieldValueView>, from: int) -> Seq<AttributeView>
    decreases values.len() - from,
{
    if from < 0 || from >= values.len() || from >= fields.len() {
        Seq::empty()
    } else if fields[from].attrs.attribute {
        field_attributes(types, fields[from], values[from]) + record_attributes(types, fields, values, from + 1)
    } else {
        record_attributes(types, fields, values, from + 1)
    }
}

/// The texts that the fields from index `from` on are written as.
pub open spec fn record_texts(types: Seq<TypeDescriptor>, fields: Seq<Field>, values: Seq<FieldValueView>, from: int) -> Seq<ElementView>
    decreases values.len() - from,
{
    if from < 0 || from >= values.len() || from >= fields.len() {
        Seq::empty()
    } else if fields[from].attrs.text {
        field_texts(types, fields[from], values[from]) + record_texts(types, fields, values, from + 1)
    } else {
        record_texts(types, fields, values, from + 1)
    }
}

/// The child nodes that the fields from index `from` on are written as.
pub open spec fn record_children(types: Seq<TypeDescriptor>, fields: Seq<Field>, values: Seq<FieldValueView>, from: int) -> Seq<ElementView>
    decreases values.len() - from,
{
    if from < 0 || from >= values.len() || from >= fields.len() {
        Seq::empty()
    } else if fields[from].attrs.spec_is_child() {
        field_children(types, fields[from], values[from]) + record_children(types, fields, values, from + 1)
    } else {
        record_children(types, fields, values, from + 1)
    }
}

/// The fields of the struct that a field holds, where it holds one struct:
/// as a required field, or as an optional field that is not empty.
pub open spec fn flattened(value: FieldValueView) -> Option<Seq<FieldValueView>> {
    match value {
        FieldValueView::Required(ValueView::Struct(inner)) => Some(inner),
        FieldValueView::Optional(Some(ValueView::Struct(inner))) => Some(inner),
        _ => None,
    }
}

/// The fields of the struct that a flattened field holds.
pub open spec fn payload_fields(types: Seq<TypeDescriptor>, field: Field) -> Seq<Field> {
    if 0 <= field.target < types.len() && types[field.target as int] is Struct {
        types[field.target as int]->Struct_0.fields@
    } else {
        Seq::empty()
    }
}

/// All the attributes that a record is written as: those of its own
/// fields, then those of the structs that it flattens.
pub open spec fn all_attributes(types: Seq<TypeDescriptor>, fields: Seq<Field>, values: Seq<FieldValueView>) -> Seq<AttributeView>
    decreases values, values.len() + 1,
{
    record_attributes(types, fields, values, 0) + flat_attributes(types, fields, values, 0)
}

/// The attributes that the structs are written as that the fields from
/// index `from` on flatten.
pub open spec fn flat_attributes(types: Seq<TypeDescriptor>, fields: Seq<Field>, values: Seq<FieldValueView>, from: int) -> Seq<AttributeView>
    decreases values, values.len() - from,
{
    if from < 0 || from >= values.len() || from >= fields.len() {
        Seq::empty()
    } else {
        match flattened(values[from]) {
            Some(inner) => if fields[from].attrs.flatten {
                all_attributes(types, payload_fields(types, fields[from]), inner) + flat_attributes(types, fields, values, from + 1)
            } else {
                flat_attributes(types, fields, values, from + 1)
            },
            _ => flat_attributes(types, fields, values, from + 1),
        }
    }
}

/// All the elements that a record is written as: the texts and the child
/// nodes of its own fields, then those of the structs that it flattens.
pub open spec fn all_elements(types: Seq<TypeDescriptor>, fields: Seq<Field>, values: Seq<FieldValueView>) -> Seq<ElementView>
    decreases values, values.len() + 1,
{
    record_texts(types, fields, values, 0) + record_children(types, fields, values, 0) + flat_elements(types, fields, values, 0)
}

/// The elements that the structs are written as that the fields from index
/// `from` on flatten.
pub open spec fn flat_elements(types: Seq<TypeDescriptor>, fields: Seq<Field>, values: Seq<FieldValueView>, from: int) -> Seq<ElementView>
    decreases values, values.len() - from,
{
    if from < 0 || from >= values.len() || from >= fields.len() {
        Seq::empty()
    } else {
        match flattened(values[from]) {
            Some(inner) => if fields[from].attrs.flatten {
                all_elements(types, payload_fields(types, fields[from]), inner) + flat_elements(types, fields, values, from + 1)
            } else {
                flat_elements(types, fields, values, from + 1)
            },
            _ => flat_elements(types, fields, values, from + 1),
        }
    }
}

/// None of the attributes fits a field bound to an attribute, and none of
/// the elements is a node that fits a field bound to a child element.
pub open spec fn own_foreign(fields: Seq<Field>, attributes: Seq<AttributeView>, elements: Seq<ElementView>) -> bool {
    &&& forall|j: int, l: int|
        #![trigger attributes[j], fields[l]]
        0 <= j < attributes.len() && 0 <= l < fields.len() ==> !(fields[l].attrs.attribute && fields[l].spec_matches(attributes[j].name))
    &&& forall|j: int, l: int|
        #![trigger elements[j], fields[l]]
        0 <= j < elements.len() && 0 <= l < fields.len() && elements[j] is Node ==> !(fields[l].attrs.spec_is_child()
            && fields[l].spec_matches(elements[j]->Node_0.name))
}

/// The attributes and the elements are foreign to a record: they fit none
/// of its own fields, and are foreign to the structs that it flattens.
pub open spec fn foreign(
    types: Seq<TypeDescriptor>,
    fields: Seq<Field>,
    values: Seq<FieldValueView>,
    attributes: Seq<AttributeView>,
    elements: Seq<ElementView>,
) -> bool
    decreases values, values.len() + 1,
{
    own_foreign(fields, attributes, elements) && flat_foreign(types, fields, values, attributes, elements, 0)
}

/// The attributes and the elements are foreign to the structs that the
/// fields from index `from` on flatten.
pub open spec fn flat_foreign(
    types: Seq<TypeDescriptor>,
    fields: Seq<Field>,
    values: Seq<FieldValueView>,
    attributes: Seq<AttributeView>,
    elements: Seq<ElementView>,
    from: int,
) -> bool
    decreases values, values.len() - from,
{
    if from < 0 || from >= values.len() || from >= fields.len() {
        true
    } else {
        match flattened(values[from]) {
            Some(inner) => if fields[from].attrs.flatten {
                foreign(types, payload_fields(types, fields[from]), inner, attributes, elements) && flat_foreign(
                    types,
                    fields,
                    values,
                    attributes,
                    elements,
                    from + 1,
                )
            } else {
                flat_foreign(types, fields, values, attributes, elements, from + 1)
            },
            _ => flat_foreign(types, fields, values, attributes, elements, from + 1),
        }
    }
}

/// All the attributes that the struct is written as that the field at
/// index `j` flattens.
pub open spec fn payload_attributes(types: Seq<TypeDescriptor>, fields: Seq<Field>, values: Seq<FieldValueView>, j: int) -> Seq<AttributeView> {
    match flattened(values[j]) {
        Some(inner) => all_attributes(types, payload_fields(types, fields[j]), inner),
        _ => Seq::empty(),
    }
}

/// All the elements that the struct is written as that the field at index
/// `j` flattens.
pub open spec fn payload_elements(types: Seq<TypeDescriptor>, fields: Seq<Field>, values: Seq<FieldValueView>, j: int) -> Seq<ElementView> {
    match flattened(values[j]) {
        Some(inner) => all_elements(types, payload_fields(types, fields[j]), inner),
        _ => Seq::empty(),
    }
}

/// The text that the elements hold, in order.
pub open spec fn written_text(elements: Seq<ElementView>) -> Seq<char> {
    content_text(elements, elements.len() as int)
}

/// The value can stand where a node is bound, in a node called `name`: it
/// is a string, a number of its type, a struct whose fields conform, or a
/// variant that is the first to fit the name it gives the node, without
/// fields or with fields that conform.
pub open spec fn conforms(types: Seq<TypeDescriptor>, ty: int, v: ValueView, name: NameView) -> bool
    decreases v, 0int,
{
    0 <= ty < types.len() && match types[ty] {
        TypeDescriptor::Text => v is Text,
        TypeDescriptor::Number(kind) => number_of(kind, v),
        TypeDescriptor::Struct(sd) => match v {
            ValueView::Struct(values) => record_conforms(types, ty, sd.fields@, values),
            _ => false,
        },
        TypeDescriptor::Enum(ed) => match v {
            ValueView::Variant(i, values) => 0 <= i < ed.variants@.len() && node_dispatch(
                ed.variants@,
                tag_name(ed.variants@[i].attrs, ed.variants@[i].ident@, name),
                0,
            ) == Some(i) && if ed.variants@[i].kind == VariantKind::Unit {
                values.len() == 0
            } else {
                record_conforms(types, ty, ed.variants@[i].fields@, values)
            },
            _ => false,
        },
    }
}

/// The record has one value for each field, and every field conforms.
pub open spec fn record_conforms(types: Seq<TypeDescriptor>, owner: int, fields: Seq<Field>, values: Seq<FieldValueView>) -> bool
    decreases values, values.len() + 1,
{
    values.len() == fields.len() && forall|k: int|
        0 <= k < values.len() ==> field_conforms(types, owner, fields, values, k, #[trigger] values[k])
}

/// The field at index `k` is bound to at most one of attribute, text and
/// flatten, and holds values in the form of its cardinality.
///
/// As an attribute it holds values that can stand for a text, under a
/// name that it alone fits among the attribute fields. As the text it
/// holds one such value, or none where it is lenient and holds numbers (no
/// text is no number, so the field reads as empty); its payload type
/// precedes its own, no other field is bound to the text, and what the
/// child fields and the flattened fields are written as holds no text. As a
/// child, each of its values conforms and is written under a name that it
/// alone fits among the child fields. Flattened, it holds one struct, as a
/// required field or as an optional one, that conforms, is not marked as root, has no field bound to the
/// text, and whose type precedes its own; what that struct is written as
/// is foreign to the fields of the record, and what the record's own
/// fields and the other flattened structs are written as is foreign to
/// that struct.
pub open spec fn field_conforms(
    types: Seq<TypeDescriptor>,
    owner: int,
    fields: Seq<Field>,
    values: Seq<FieldValueView>,
    k: int,
    value: FieldValueView,
) -> bool
    decreases value, 2int,
{
    let f = fields[k];
    &&& 0 <= k < fields.len()
    &&& f.attrs.spec_binding_count() <= 1
    &&& match value {
        FieldValueView::Required(_) => f.spec_shape() == Shape::Required,
        FieldValueView::Optional(_) => f.spec_shape() == Shape::Optional,
        FieldValueView::Repeated(_) => f.spec_shape() == Shape::Repeated,
    }
    &&& if f.attrs.attribute {
        &&& attribute_fits(fields, k, field_tag(f))
        &&& match value {
            FieldValueView::Required(v) => text_conforms(types, f.target as int, v),
            FieldValueView::Optional(Some(v)) => text_conforms(types, f.target as int, v),
            FieldValueView::Optional(None) => true,
            FieldValueView::Repeated(vs) => forall|j: int| 0 <= j < vs.len() ==> text_conforms(types, f.target as int, #[trigger] vs[j]),
        }
    } else if f.attrs.text {
        &&& f.target < owner
        &&& forall|l: int| 0 <= l < fields.len() && l != k ==> !(#[trigger] fields[l]).attrs.text
        &&& written_text(record_children(types, fields, values, 0) + flat_elements(types, fields, values, 0)) == Seq::<char>::empty()
        &&& match value {
            FieldValueView::Required(v) => text_conforms(types, f.target as int, v),
            FieldValueView::Optional(Some(v)) => text_conforms(types, f.target as int, v),
            FieldValueView::Optional(None) => f.attrs.lenient && 0 <= f.target < types.len() && types[f.target as int] is Number,
            FieldValueView::Repeated(_) => false,
        }
    } else if f.attrs.flatten {
        &&& 0 <= f.target < owner
        &&& f.target < types.len()
        &&& match (flattened(value), types[f.target as int]) {
            (Some(inner), TypeDescriptor::Struct(sd)) => {
                &&& !sd.attrs.root
                &&& forall|l: int| 0 <= l < sd.fields@.len() ==> !(#[trigger] sd.fields@[l]).attrs.text
                &&& record_conforms(types, f.target as int, sd.fields@, inner)
                &&& foreign(
                    types,
                    sd.fields@,
                    inner,
                    record_attributes(types, fields, values, 0),
                    record_texts(types, fields, values, 0) + record_children(types, fields, values, 0),
                )
                &&& forall|j: int|
                    0 <= j < fields.len() && j != k && (#[trigger] fields[j]).attrs.flatten ==> foreign(
                        types,
                        sd.fields@,
                        inner,
                        payload_attributes(types, fields, values, j),
                        payload_elements(types, fields, values, j),
                    )
                &&& own_foreign(fields, all_attributes(types, sd.fields@, inner), all_elements(types, sd.fields@, inner))
            },
            _ => false,
        }
    } else {
        match value {
            FieldValueView::Required(v) => value_conforms(types, fields, k, v),
            FieldValueView::Optional(Some(v)) => value_conforms(types, fields, k, v),
            FieldValueView::Optional(None) => true,
            FieldValueView::Repeated(vs) => forall|j: int| 0 <= j < vs.len() ==> value_conforms(types, fields, k, #[trigger] vs[j]),
        }
    }
}

/// A value of the child field at index `k` conforms, and is written under
/// a name that this field alone fits among the child fields.
pub open spec fn value_conforms(types: Seq<TypeDescriptor>, fields: Seq<Field>, k: int, v: ValueView) -> bool
    decreases v, 1int,
{
    &&& conforms(types, fields[k].target as int, v, field_tag(fields[k]))
    &&& child_fits(fields, k, written_name(types, fields[k].target as int, v, field_tag(fields[k])))
}

/// In a record that conforms, every field conforms.
pub proof fn lemma_field_conforms(types: Seq<TypeDescriptor>, owner: int, fields: Seq<Field>, values: Seq<FieldValueView>, k: int)
    requires
        record_conforms(types, owner, fields, values),
        0 <= k < values.len(),
    ensures
        values.len() == fields.len(),
        field_conforms(types, owner, fields, values, k, values[k]),
{
}

/// A value that can stand where a text is bound is written as its text,
/// and read back from it.
pub proof fn lemma_text_round_trip(types: Seq<TypeDescriptor>, ty: int, v: ValueView, t: Seq<char>)
    requires
        text_conforms(types, ty, v),
    ensures
        se_value(types, ty, v, ElementView::Text(t)) == ElementView::Text(t + text_form(types, ty, v)),
        de_text(types, ty, text_form(types, ty, v)) == Ok::<ValueView, ErrorView>(v),
{
    match v {
        ValueView::Unsigned(n) => lemma_unsigned_round_trip(n),
        ValueView::Signed(n) => lemma_signed_round_trip(n),
        ValueView::Variant(i, values) => {
            assert(values =~= Seq::<FieldValueView>::empty());
        },
        _ => {},
    }
}

/// Written as attributes, the values from index `from` on of a repeated
/// field add their attributes to a node.
pub proof fn lemma_attribute_values(types: Seq<TypeDescriptor>, field: Field, vs: Seq<ValueView>, n: NodeView, from: int)
    requires
        0 <= from,
        forall|j: int| 0 <= j < vs.len() ==> text_conforms(types, field.target as int, #[trigger] vs[j]),
    ensures
        emit_values(types, field, vs, ElementView::Node(n), from, BindingKind::Attribute) == ElementView::Node(
            NodeView { attributes: n.attributes + values_attributes(types, field, vs, from), ..n },
        ),
    decreases vs.len() - from,
{
    if from >= vs.len() {
        assert(n.attributes + values_attributes(types, field, vs, from) =~= n.attributes);
    } else {
        let v = vs[from];
        assert(text_conforms(types, field.target as int, v));
        lemma_text_round_trip(types, field.target as int, v, Seq::empty());
        assert(Seq::<char>::empty() + text_form(types, field.target as int, v) =~= text_form(types, field.target as int, v));
        let n1 = NodeView { attributes: n.attributes.push(attribute_of(types, field, v)), ..n };
        assert(emit_value(types, field, v, ElementView::Node(n), BindingKind::Attribute) == ElementView::Node(n1));
        lemma_attribute_values(types, field, vs, n1, from + 1);
        assert(n1.attributes + values_attributes(types, field, vs, from + 1) =~= n.attributes + values_attributes(types, field, vs, from));
    }
}

/// The attribute pass adds the attributes of the fields to a node.
pub proof fn lemma_attribute_pass(
    types: Seq<TypeDescriptor>,
    owner: int,
    fields: Seq<Field>,
    values: Seq<FieldValueView>,
    n: NodeView,
    from: int,
)
    requires
        0 <= from,
        record_conforms(types, owner, fields, values),
    ensures
        emit_fields(types, fields, values, ElementView::Node(n), from, BindingKind::Attribute) == ElementView::Node(
            NodeView { attributes: n.attributes + record_attributes(types, fields, values, from), ..n },
        ),
    decreases values.len() - from,
{
    let element = ElementView::Node(n);
    let rest = record_attributes(types, fields, values, from + 1);
    if from >= values.len() {
        assert(n.attributes + record_attributes(types, fields, values, from) =~= n.attributes);
    } else if !fields[from].attrs.attribute {
        lemma_attribute_pass(types, owner, fields, values, n, from + 1);
    } else {
        let f = fields[from];
        lemma_field_conforms(types, owner, fields, values, from);
        match values[from] {
            FieldValueView::Optional(None) => {
                lemma_attribute_pass(types, owner, fields, values, n, from + 1);
                assert(n.attributes + record_attributes(types, fields, values, from) =~= n.attributes + rest);
            },
            FieldValueView::Repeated(vs) => {
                lemma_attribute_values(types, f, vs, n, 0);
                let n1 = NodeView { attributes: n.attributes + values_attributes(types, f, vs, 0), ..n };
                lemma_attribute_pass(types, owner, fields, values, n1, from + 1);
                assert(n1.attributes + rest =~= n.attributes + record_attributes(types, fields, values, from));
            },
            _ => {
                let v = match values[from] {
                    FieldValueView::Required(v) => v,
                    FieldValueView::Optional(Some(v)) => v,
                    _ => arbitrary(),
                };
                lemma_text_round_trip(types, f.target as int, v, Seq::empty());
                assert(Seq::<char>::empty() + text_form(types, f.target as int, v) =~= text_form(types, f.target as int, v));
                let n1 = NodeView { attributes: n.attributes.push(attribute_of(types, f, v)), ..n };
                assert(emit_value(types, f, v, element, BindingKind::Attribute) == ElementView::Node(n1));
                lemma_attribute_pass(types, owner, fields, values, n1, from + 1);
                assert(n1.attributes + rest =~= n.attributes + record_attributes(types, fields, values, from));
            },
        }
    }
}

/// The text pass adds the texts of the fields to a node.
pub proof fn lemma_text_pass(types: Seq<TypeDescriptor>, owner: int, fields: Seq<Field>, values: Seq<FieldValueView>, n: NodeView, from: int)
    requires
        0 <= from,
        record_conforms(types, owner, fields, values),
    ensures
        emit_fields(types, fields, values, ElementView::Node(n), from, BindingKind::Text) == ElementView::Node(
            NodeView { elements: n.elements + record_texts(types, fields, values, from), ..n },
        ),
    decreases values.len() - from,
{
    let element = ElementView::Node(n);
    let rest = record_texts(types, fields, values, from + 1);
    if from >= values.len() {
        assert(n.elements + record_texts(types, fields, values, from) =~= n.elements);
    } else if !fields[from].attrs.text {
        lemma_text_pass(types, owner, fields, values, n, from + 1);
    } else {
        let f = fields[from];
        lemma_field_conforms(types, owner, fields, values, from);
        match values[from] {
            FieldValueView::Optional(None) => {
                lemma_text_pass(types, owner, fields, values, n, from + 1);
                assert(n.elements + rest =~= n.elements + record_texts(types, fields, values, from));
            },
            FieldValueView::Repeated(_) => {},
            _ => {
                let v = match values[from] {
                    FieldValueView::Required(v) => v,
                    FieldValueView::Optional(Some(v)) => v,
                    _ => arbitrary(),
                };
                lemma_text_round_trip(types, f.target as int, v, Seq::empty());
                assert(Seq::<char>::empty() + text_form(types, f.target as int, v) =~= text_form(types, f.target as int, v));
                let n1 = NodeView { elements: n.elements.push(ElementView::Text(text_form(types, f.target as int, v))), ..n };
                assert(emit_value(types, f, v, element, BindingKind::Text) == ElementView::Node(n1));
                lemma_text_pass(types, owner, fields, values, n1, from + 1);
                assert(n1.elements + rest =~= n.elements + record_texts(types, fields, values, from));
            },
        }
    }
}

/// Written as children, the values from index `from` on of a repeated field
/// add their child nodes to a node.
pub proof fn lemma_child_values(types: Seq<TypeDescriptor>, field: Field, vs: Seq<ValueView>, n: NodeView, from: int)
    requires
        0 <= from,
    ensures
        emit_values(types, field, vs, ElementView::Node(n), from, BindingKind::Child) == ElementView::Node(
            NodeView { elements: n.elements + values_children(types, field, vs, from), ..n },
        ),
    decreases vs.len() - from,
{
    if from >= vs.len() {
        assert(n.elements + values_children(types, field, vs, from) =~= n.elements);
    } else {
        let n1 = NodeView { elements: n.elements.push(child_of(types, field, vs[from])), ..n };
        assert(emit_value(types, field, vs[from], ElementView::Node(n), BindingKind::Child) == ElementView::Node(n1));
        lemma_child_values(types, field, vs, n1, from + 1);
        assert(n1.elements + values_children(types, field, vs, from + 1) =~= n.elements + values_children(types, field, vs, from));
    }
}

/// The child pass adds the child nodes of the fields to a node.
pub proof fn lemma_child_pass(types: Seq<TypeDescriptor>, fields: Seq<Field>, values: Seq<FieldValueView>, n: NodeView, from: int)
    requires
        0 <= from,
        values.len() == fields.len(),
    ensures
        emit_fields(types, fields, values, ElementView::Node(n), from, BindingKind::Child) == ElementView::Node(
            NodeView { elements: n.elements + record_children(types, fields, values, from), ..n },
        ),
    decreases values.len() - from,
{
    let element = ElementView::Node(n);
    let rest = record_children(types, fields, values, from + 1);
    if from >= values.len() {
        assert(n.elements + record_children(types, fields, values, from) =~= n.elements);
    } else if !fields[from].attrs.spec_is_child() {
        lemma_child_pass(types, fields, values, n, from + 1);
    } else {
        let f = fields[from];
        let chunk = field_children(types, f, values[from]);
        let n1 = NodeView { elements: n.elements + chunk, ..n };
        assert(field_written(types, f, values[from], element, BindingKind::Child) == ElementView::Node(n1)) by {
            match values[from] {
                FieldValueView::Required(v) => {
                    assert(n.elements.push(child_of(types, f, v)) =~= n.elements + chunk);
                },
                FieldValueView::Optional(Some(v)) => {
                    assert(n.elements.push(child_of(types, f, v)) =~= n.elements + chunk);
                },
                FieldValueView::Optional(None) => {
                    assert(n.elements =~= n.elements + chunk);
                },
                FieldValueView::Repeated(vs) => {
                    lemma_child_values(types, f, vs, n, 0);
                },
            }
        }
        lemma_child_pass(types, fields, values, n1, from + 1);
        assert(n1.elements + rest =~= n.elements + record_children(types, fields, values, from));
    }
}

/// A node with the given children and nothing else.
pub open spec fn holder(elements: Seq<ElementView>) -> NodeView {
    NodeView { elements, ..NodeView::empty() }
}

/// The scan of one attribute binds nothing where the attribute fits no
/// field from index `from` on.
pub proof fn lemma_attribute_scan_idle(types: Seq<TypeDescriptor>, fields: Seq<Field>, attr: AttributeView, slots: Seq<SlotView>, from: int)
    requires
        0 <= from,
        forall|l: int| from <= l < fields.len() ==> !((#[trigger] fields[l]).attrs.attribute && fields[l].spec_matches(attr.name)),
    ensures
        attribute_scan(types, fields, attr, slots, from) == Ok::<Seq<SlotView>, ErrorView>(slots),
    decreases fields.len() - from,
{
    if from < fields.len() {
        assert(!(fields[from].attrs.attribute && fields[from].spec_matches(attr.name)));
        lemma_attribute_scan_idle(types, fields, attr, slots, from + 1);
    }
}

/// The scan of one attribute that fits the field at index `k` and no other
/// binds the attribute's value to that field.
pub proof fn lemma_attribute_scan_one(
    types: Seq<TypeDescriptor>,
    fields: Seq<Field>,
    attr: AttributeView,
    slots: Seq<SlotView>,
    from: int,
    k: int,
    v: ValueView,
)
    requires
        0 <= from <= k < fields.len(),
        fields[k].attrs.attribute,
        fields[k].spec_matches(attr.name),
        forall|l: int| 0 <= l < fields.len() && l != k ==> !((#[trigger] fields[l]).attrs.attribute && fields[l].spec_matches(attr.name)),
        de_text(types, fields[k].target as int, attr.value) == Ok::<ValueView, ErrorView>(v),
    ensures
        attribute_scan(types, fields, attr, slots, from) == Ok::<Seq<SlotView>, ErrorView>(slots.update(k, slots[k].bind(v))),
    decreases k - from,
{
    if from == k {
        lemma_attribute_scan_idle(types, fields, attr, slots.update(k, slots[k].bind(v)), k + 1);
    } else {
        assert(!(fields[from].attrs.attribute && fields[from].spec_matches(attr.name)));
        lemma_attribute_scan_one(types, fields, attr, slots, from + 1, k, v);
    }
}

/// The scan of a child binds nothing where the child is a node that fits
/// no field from index `from` on.
pub proof fn lemma_child_scan_idle(
    types: Seq<TypeDescriptor>,
    owner: int,
    fields: Seq<Field>,
    node: NodeView,
    child: int,
    slots: Seq<SlotView>,
    from: int,
)
    requires
        0 <= from,
        0 <= child < node.elements.len(),
        node.elements[child] is Node,
        forall|l: int|
            from <= l < fields.len() ==> !((#[trigger] fields[l]).attrs.spec_is_child() && fields[l].spec_matches(
                node.elements[child]->Node_0.name,
            )),
    ensures
        child_scan(types, owner, fields, node, child, slots, from) == Ok::<Seq<SlotView>, ErrorView>(slots),
    decreases fields.len() - from,
{
    if from < fields.len() {
        assert(!(fields[from].attrs.spec_is_child() && fields[from].spec_matches(node.elements[child]->Node_0.name)));
        lemma_child_scan_idle(types, owner, fields, node, child, slots, from + 1);
    }
}

/// The scan of a child node that fits the field at index `k` and no other
/// binds the child's value to that field.
pub proof fn lemma_child_scan_one(
    types: Seq<TypeDescriptor>,
    owner: int,
    fields: Seq<Field>,
    node: NodeView,
    child: int,
    slots: Seq<SlotView>,
    from: int,
    k: int,
    v: ValueView,
)
    requires
        0 <= from <= k < fields.len(),
        0 <= child < node.elements.len(),
        node.elements[child] is Node,
        fields[k].attrs.spec_is_child(),
        fields[k].spec_matches(node.elements[child]->Node_0.name),
        forall|l: int|
            0 <= l < fields.len() && l != k ==> !((#[trigger] fields[l]).attrs.spec_is_child() && fields[l].spec_matches(
                node.elements[child]->Node_0.name,
            )),
        de_node(types, fields[k].target as int, node.elements[child]->Node_0) == Ok::<ValueView, ErrorView>(v),
    ensures
        child_scan(types, owner, fields, node, child, slots, from) == Ok::<Seq<SlotView>, ErrorView>(slots.update(k, slots[k].bind(v))),
    decreases k - from,
{
    if from == k {
        lemma_child_scan_idle(types, owner, fields, node, child, slots.update(k, slots[k].bind(v)), k + 1);
    } else {
        assert(!(fields[from].attrs.spec_is_child() && fields[from].spec_matches(node.elements[child]->Node_0.name)));
        lemma_child_scan_one(types, owner, fields, node, child, slots, from + 1, k, v);
    }
}

/// The scan of a child depends on the child alone, not on the node it
/// stands in.
pub proof fn lemma_child_scan_same(
    types: Seq<TypeDescriptor>,
    owner: int,
    fields: Seq<Field>,
    node1: NodeView,
    child1: int,
    node2: NodeView,
    child2: int,
    slots: Seq<SlotView>,
    from: int,
)
    requires
        0 <= from,
        0 <= child1 < node1.elements.len(),
        0 <= child2 < node2.elements.len(),
        node1.elements[child1] == node2.elements[child2],
    ensures
        child_scan(types, owner, fields, node1, child1, slots, from) == child_scan(types, owner, fields, node2, child2, slots, from),
    decreases fields.len() - from,
{
    if from < fields.len() {
        let f = fields[from];
        match node1.elements[child1] {
            ElementView::Node(c) => {
                if f.attrs.spec_is_child() && f.spec_matches(c.name) {
                    match bind_result(f, slots[from], de_node(types, f.target as int, c)) {
                        Ok(slot) => lemma_child_scan_same(
                            types,
                            owner,
                            fields,
                            node1,
                            child1,
                            node2,
                            child2,
                            slots.update(from, slot),
                            from + 1,
                        ),
                        Err(_) => {},
                    }
                } else {
                    lemma_child_scan_same(types, owner, fields, node1, child1, node2, child2, slots, from + 1);
                }
            },
            _ => {},
        }
    }
}

/// Behind the first list, the scan of two lists of children in a row is
/// the scan of the second.
pub proof fn lemma_children_scan_shift(
    types: Seq<TypeDescriptor>,
    owner: int,
    fields: Seq<Field>,
    node: NodeView,
    xs: Seq<ElementView>,
    ys: Seq<ElementView>,
    slots: Seq<SlotView>,
    j: int,
)
    requires
        0 <= j,
        node.elements == xs + ys,
    ensures
        children_scan(types, owner, fields, node, slots, xs.len() + j) == children_scan(types, owner, fields, holder(ys), slots, j),
    decreases ys.len() - j,
{
    if j < ys.len() {
        lemma_child_scan_same(types, owner, fields, node, xs.len() + j, holder(ys), j, slots, 0);
        match child_scan(types, owner, fields, node, xs.len() + j, slots, 0) {
            Ok(bound) => lemma_children_scan_shift(types, owner, fields, node, xs, ys, bound, j + 1),
            Err(_) => {},
        }
    }
}

/// The scan of two lists of children in a row is the scan of the first,
/// then the scan of the second.
pub proof fn lemma_children_scan_append(
    types: Seq<TypeDescriptor>,
    owner: int,
    fields: Seq<Field>,
    node: NodeView,
    xs: Seq<ElementView>,
    ys: Seq<ElementView>,
    slots: Seq<SlotView>,
    from: int,
)
    requires
        0 <= from <= xs.len(),
        node.elements == xs + ys,
    ensures
        children_scan(types, owner, fields, node, slots, from) == match children_scan(types, owner, fields, holder(xs), slots, from) {
            Ok(mid) => children_scan(types, owner, fields, holder(ys), mid, 0),
            Err(e) => Err(e),
        },
    decreases xs.len() - from,
{
    if from < xs.len() {
        lemma_child_scan_same(types, owner, fields, node, from, holder(xs), from, slots, 0);
        match child_scan(types, owner, fields, node, from, slots, 0) {
            Ok(bound) => lemma_children_scan_append(types, owner, fields, node, xs, ys, bound, from + 1),
            Err(_) => {},
        }
    } else {
        lemma_children_scan_shift(types, owner, fields, node, xs, ys, slots, 0);
    }
}

/// Behind the first list, the scan of two lists of attributes in a row is
/// the scan of the second.
pub proof fn lemma_attributes_scan_shift(
    types: Seq<TypeDescriptor>,
    fields: Seq<Field>,
    xs: Seq<AttributeView>,
    ys: Seq<AttributeView>,
    slots: Seq<SlotView>,
    j: int,
)
    requires
        0 <= j,
    ensures
        attributes_scan(types, fields, xs + ys, slots, xs.len() + j) == attributes_scan(types, fields, ys, slots, j),
    decreases ys.len() - j,
{
    if j < ys.len() {
        assert((xs + ys)[xs.len() + j] == ys[j]);
        match attribute_scan(types, fields, ys[j], slots, 0) {
            Ok(bound) => lemma_attributes_scan_shift(types, fields, xs, ys, bound, j + 1),
            Err(_) => {},
        }
    }
}

/// The scan of two lists of attributes in a row is the scan of the first,
/// then the scan of the second.
pub proof fn lemma_attributes_scan_append(
    types: Seq<TypeDescriptor>,
    fields: Seq<Field>,
    xs: Seq<AttributeView>,
    ys: Seq<AttributeView>,
    slots: Seq<SlotView>,
    from: int,
)
    requires
        0 <= from <= xs.len(),
    ensures
        attributes_scan(types, fields, xs + ys, slots, from) == match attributes_scan(types, fields, xs, slots, from) {
            Ok(mid) => attributes_scan(types, fields, ys, mid, 0),
            Err(e) => Err(e),
        },
    decreases xs.len() - from,
{
    if from < xs.len() {
        assert((xs + ys)[from] == xs[from]);
        match attribute_scan(types, fields, xs[from], slots, 0) {
            Ok(bound) => lemma_attributes_scan_append(types, fields, xs, ys, bound, from + 1),
            Err(_) => {},
        }
    } else {
        lemma_attributes_scan_shift(types, fields, xs, ys, slots, 0);
    }
}

/// Where every slot from index `from` on closes to the value of its field,
/// the fields close to the record.
pub proof fn lemma_finalize_all(fields: Seq<Field>, slots: Seq<SlotView>, values: Seq<FieldValueView>, from: int)
    requires
        0 <= from <= fields.len(),
        values.len() == fields.len(),
        forall|k: int| from <= k < fields.len() ==> finalize_field(#[trigger] fields[k], slots[k]) == Ok::<FieldValueView, ErrorView>(values[k]),
    ensures
        finalize(fields, slots, from, values.take(from)) == Ok::<Seq<FieldValueView>, ErrorView>(values),
    decreases fields.len() - from,
{
    if from < fields.len() {
        assert(finalize_field(fields[from], slots[from]) == Ok::<FieldValueView, ErrorView>(values[from]));
        assert(values.take(from).push(values[from]) =~= values.take(from + 1));
        lemma_finalize_all(fields, slots, values, from + 1);
    } else {
        assert(values.take(from) =~= values);
    }
}

/// Nothing that a field bound to the text is written as is a node.
pub proof fn lemma_texts_are_texts(types: Seq<TypeDescriptor>, fields: Seq<Field>, values: Seq<FieldValueView>, from: int)
    requires
        0 <= from,
    ensures
        forall|j: int|
            0 <= j < record_texts(types, fields, values, from).len() ==> !((#[trigger] record_texts(types, fields, values, from)[j]) is Node),
    decreases values.len() - from,
{
    if from < values.len() && from < fields.len() {
        lemma_texts_are_texts(types, fields, values, from + 1);
    }
}

/// Where no field is bound to the text, nothing is written as a text.
pub proof fn lemma_no_texts(types: Seq<TypeDescriptor>, fields: Seq<Field>, values: Seq<FieldValueView>, from: int)
    requires
        0 <= from,
        forall|l: int| from <= l < fields.len() ==> !(#[trigger] fields[l]).attrs.text,
    ensures
        record_texts(types, fields, values, from) == Seq::<ElementView>::empty(),
    decreases values.len() - from,
{
    if from < values.len() && from < fields.len() {
        assert(!fields[from].attrs.text);
        lemma_no_texts(types, fields, values, from + 1);
    }
}

/// Where the field at index `k` is the only one bound to the text, what
/// it is written as is all that is written as a text.
pub proof fn lemma_single_text(types: Seq<TypeDescriptor>, fields: Seq<Field>, values: Seq<FieldValueView>, from: int, k: int)
    requires
        0 <= from <= k < fields.len(),
        values.len() == fields.len(),
        fields[k].attrs.text,
        forall|l: int| 0 <= l < fields.len() && l != k ==> !(#[trigger] fields[l]).attrs.text,
    ensures
        record_texts(types, fields, values, from) == field_texts(types, fields[k], values[k]),
    decreases k - from,
{
    if from == k {
        lemma_no_texts(types, fields, values, k + 1);
        assert(field_texts(types, fields[k], values[k]) + Seq::<ElementView>::empty() =~= field_texts(types, fields[k], values[k]));
    } else {
        assert(!fields[from].attrs.text);
        lemma_single_text(types, fields, values, from + 1, k);
    }
}

/// The text of the first `n` elements does not depend on what stands
/// behind them.
pub proof fn lemma_text_of_front(front: Seq<ElementView>, back: Seq<ElementView>, n: int)
    requires
        0 <= n <= front.len(),
    ensures
        content_text(front + back, n) == content_text(front, n),
    decreases n,
{
    if n > 0 {
        lemma_text_of_front(front, back, n - 1);
        assert((front + back)[n - 1] == front[n - 1]);
    }
}

/// The text of the elements up to index `n` of the second of two lists in
/// a row is the text of the first list, then that of the second up to `n`.
pub proof fn lemma_text_of_back(front: Seq<ElementView>, back: Seq<ElementView>, n: int)
    requires
        0 <= n <= back.len(),
    ensures
        content_text(front + back, front.len() + n) == written_text(front) + content_text(back, n),
    decreases n,
{
    if n > 0 {
        lemma_text_of_back(front, back, n - 1);
        assert((front + back)[front.len() + n - 1] == back[n - 1]);
        assert(content_text(front + back, front.len() + n) =~= written_text(front) + content_text(back, n));
    } else {
        lemma_text_of_front(front, back, front.len() as int);
        assert(written_text(front) + content_text(back, 0) =~= written_text(front));
    }
}

/// The text of two lists of elements in a row is the text of the first,
/// then the text of the second.
pub proof fn lemma_text_of_both(front: Seq<ElementView>, back: Seq<ElementView>)
    ensures
        written_text(front + back) == written_text(front) + written_text(back),
{
    lemma_text_of_back(front, back, back.len() as int);
}

/// The slot at index `k` closes to the value of its field.
pub open spec fn closes(fields: Seq<Field>, values: Seq<FieldValueView>, slots: Seq<SlotView>, k: int) -> bool {
    finalize_field(fields[k], slots[k]) == Ok::<FieldValueView, ErrorView>(values[k])
}

/// The step of reading in which a field is bound: the text first, then the
/// flattened fields, the attributes, and the children.
pub open spec fn field_phase(field: Field) -> int {
    if field.attrs.text {
        0
    } else if field.attrs.flatten {
        1
    } else if field.attrs.attribute {
        2
    } else {
        3
    }
}

/// In the step `phase`, before the field at index `from`: the fields of
/// the steps before and the fields of this step before index `from` have
/// their values, every other slot is empty.
pub open spec fn state(fields: Seq<Field>, values: Seq<FieldValueView>, slots: Seq<SlotView>, phase: int, from: int) -> bool {
    &&& slots.len() == fields.len()
    &&& forall|k: int|
        0 <= k < fields.len() ==> if field_phase(#[trigger] fields[k]) < phase || (field_phase(fields[k]) == phase && k < from) {
            closes(fields, values, slots, k)
        } else {
            slots[k] == init_slot(fields[k])
        }
}

/// The scan of attributes binds nothing where none of them fits a field
/// bound to an attribute.
pub proof fn lemma_attributes_scan_foreign(
    types: Seq<TypeDescriptor>,
    fields: Seq<Field>,
    attributes: Seq<AttributeView>,
    elements: Seq<ElementView>,
    slots: Seq<SlotView>,
    from: int,
)
    requires
        0 <= from,
        own_foreign(fields, attributes, elements),
    ensures
        attributes_scan(types, fields, attributes, slots, from) == Ok::<Seq<SlotView>, ErrorView>(slots),
    decreases attributes.len() - from,
{
    if from < attributes.len() {
        assert forall|l: int| 0 <= l < fields.len() implies !((#[trigger] fields[l]).attrs.attribute && fields[l].spec_matches(
            attributes[from].name,
        )) by {
            let a = attributes[from];
            let f = fields[l];
        }
        lemma_attribute_scan_idle(types, fields, attributes[from], slots, 0);
        lemma_attributes_scan_foreign(types, fields, attributes, elements, slots, from + 1);
    }
}

/// The scan of children binds nothing where none of them is a node that
/// fits a field bound to a child element.
pub proof fn lemma_children_scan_foreign(
    types: Seq<TypeDescriptor>,
    owner: int,
    fields: Seq<Field>,
    attributes: Seq<AttributeView>,
    node: NodeView,
    slots: Seq<SlotView>,
    from: int,
)
    requires
        0 <= from,
        own_foreign(fields, attributes, node.elements),
    ensures
        children_scan(types, owner, fields, node, slots, from) == Ok::<Seq<SlotView>, ErrorView>(slots),
    decreases node.elements.len() - from,
{
    if from < node.elements.len() {
        if node.elements[from] is Node {
            assert forall|l: int| 0 <= l < fields.len() implies !((#[trigger] fields[l]).attrs.spec_is_child() && fields[l].spec_matches(
                node.elements[from]->Node_0.name,
            )) by {
                let e = node.elements[from];
                let f = fields[l];
            }
            lemma_child_scan_idle(types, owner, fields, node, from, slots, 0);
        } else {
            assert(child_scan(types, owner, fields, node, from, slots, 0) == Ok::<Seq<SlotView>, ErrorView>(slots));
        }
        lemma_children_scan_foreign(types, owner, fields, attributes, node, slots, from + 1);
    }
}

/// What is foreign to the fields, twice, is foreign in a row.
pub proof fn lemma_own_foreign_concat(
    fields: Seq<Field>,
    a1: Seq<AttributeView>,
    e1: Seq<ElementView>,
    a2: Seq<AttributeView>,
    e2: Seq<ElementView>,
)
    requires
        own_foreign(fields, a1, e1),
        own_foreign(fields, a2, e2),
    ensures
        own_foreign(fields, a1 + a2, e1 + e2),
{
    let a = a1 + a2;
    let e = e1 + e2;
    assert forall|j: int, l: int|
        #![trigger a[j], fields[l]]
        0 <= j < a.len() && 0 <= l < fields.len() implies !(fields[l].attrs.attribute && fields[l].spec_matches(a[j].name)) by {
        if j < a1.len() {
            assert(a[j] == a1[j]);
            let x = a1[j];
            let f = fields[l];
        } else {
            assert(a[j] == a2[j - a1.len()]);
            let x = a2[j - a1.len()];
            let f = fields[l];
        }
    }
    assert forall|j: int, l: int|
        #![trigger e[j], fields[l]]
        0 <= j < e.len() && 0 <= l < fields.len() && e[j] is Node implies !(fields[l].attrs.spec_is_child() && fields[l].spec_matches(
            e[j]->Node_0.name,
        )) by {
        if j < e1.len() {
            assert(e[j] == e1[j]);
            let x = e1[j];
            let f = fields[l];
        } else {
            assert(e[j] == e2[j - e1.len()]);
            let x = e2[j - e1.len()];
            let f = fields[l];
        }
    }
}

/// What is foreign to a record, twice, is foreign in a row.
pub proof fn lemma_foreign_concat(
    types: Seq<TypeDescriptor>,
    fields: Seq<Field>,
    values: Seq<FieldValueView>,
    a1: Seq<AttributeView>,
    e1: Seq<ElementView>,
    a2: Seq<AttributeView>,
    e2: Seq<ElementView>,
)
    requires
        foreign(types, fields, values, a1, e1),
        foreign(types, fields, values, a2, e2),
    ensures
        foreign(types, fields, values, a1 + a2, e1 + e2),
    decreases values, values.len() + 1,
{
    lemma_own_foreign_concat(fields, a1, e1, a2, e2);
    lemma_flat_foreign_concat(types, fields, values, a1, e1, a2, e2, 0);
}

/// What is foreign to the flattened structs, twice, is foreign in a row.
pub proof fn lemma_flat_foreign_concat(
    types: Seq<TypeDescriptor>,
    fields: Seq<Field>,
    values: Seq<FieldValueView>,
    a1: Seq<AttributeView>,
    e1: Seq<ElementView>,
    a2: Seq<AttributeView>,
    e2: Seq<ElementView>,
    from: int,
)
    requires
        0 <= from,
        flat_foreign(types, fields, values, a1, e1, from),
        flat_foreign(types, fields, values, a2, e2, from),
    ensures
        flat_foreign(types, fields, values, a1 + a2, e1 + e2, from),
    decreases values, values.len() - from,
{
    if from < values.len() && from < fields.len() {
        match flattened(values[from]) {
            Some(inner) => {
                if fields[from].attrs.flatten {
                    lemma_foreign_concat(types, payload_fields(types, fields[from]), inner, a1, e1, a2, e2);
                }
            },
            _ => {},
        }
        lemma_flat_foreign_concat(types, fields, values, a1, e1, a2, e2, from + 1);
    }
}

/// Nothing is foreign to every record.
pub proof fn lemma_foreign_empty(types: Seq<TypeDescriptor>, fields: Seq<Field>, values: Seq<FieldValueView>)
    ensures
        foreign(types, fields, values, Seq::empty(), Seq::empty()),
    decreases values, values.len() + 1,
{
    lemma_flat_foreign_empty(types, fields, values, 0);
}

/// Nothing is foreign to every flattened struct.
pub proof fn lemma_flat_foreign_empty(types: Seq<TypeDescriptor>, fields: Seq<Field>, values: Seq<FieldValueView>, from: int)
    requires
        0 <= from,
    ensures
        flat_foreign(types, fields, values, Seq::empty(), Seq::empty(), from),
    decreases values, values.len() - from,
{
    if from < values.len() && from < fields.len() {
        match flattened(values[from]) {
            Some(inner) => {
                if fields[from].attrs.flatten {
                    lemma_foreign_empty(types, payload_fields(types, fields[from]), inner);
                }
            },
            _ => {},
        }
        lemma_flat_foreign_empty(types, fields, values, from + 1);
    }
}

/// Texts are foreign to every record.
pub proof fn lemma_foreign_texts(types: Seq<TypeDescriptor>, fields: Seq<Field>, values: Seq<FieldValueView>, texts: Seq<ElementView>)
    requires
        forall|j: int| 0 <= j < texts.len() ==> !((#[trigger] texts[j]) is Node),
    ensures
        own_foreign(fields, Seq::empty(), texts),
{
}

/// A record that conforms is written as its attributes behind those of the
/// node, and its elements behind those of the node.
pub proof fn lemma_record_written(types: Seq<TypeDescriptor>, owner: int, fields: Seq<Field>, values: Seq<FieldValueView>, n: NodeView)
    requires
        record_conforms(types, owner, fields, values),
    ensures
        emit_record(types, fields, values, ElementView::Node(n)) == ElementView::Node(
            NodeView {
                attributes: n.attributes + all_attributes(types, fields, values),
                elements: n.elements + all_elements(types, fields, values),
                ..n
            },
        ),
    decreases values, values.len() + 1,
{
    let attributes = record_attributes(types, fields, values, 0);
    let texts = record_texts(types, fields, values, 0);
    let children = record_children(types, fields, values, 0);
    lemma_attribute_pass(types, owner, fields, values, n, 0);
    let n1 = NodeView { attributes: n.attributes + attributes, ..n };
    lemma_text_pass(types, owner, fields, values, n1, 0);
    let n2 = NodeView { elements: n1.elements + texts, ..n1 };
    lemma_child_pass(types, fields, values, n2, 0);
    let n3 = NodeView { elements: n2.elements + children, ..n2 };
    lemma_flatten_pass(types, owner, fields, values, n3, 0);
    let n4 = NodeView {
        attributes: n3.attributes + flat_attributes(types, fields, values, 0),
        elements: n3.elements + flat_elements(types, fields, values, 0),
        ..n3
    };
    assert(emit_record(types, fields, values, ElementView::Node(n)) == ElementView::Node(n4));
    assert(n4.attributes =~= n.attributes + all_attributes(types, fields, values));
    assert(n4.elements =~= n.elements + all_elements(types, fields, values));
}

/// The flatten pass adds what the flattened structs are written as to a
/// node.
pub proof fn lemma_flatten_pass(types: Seq<TypeDescriptor>, owner: int, fields: Seq<Field>, values: Seq<FieldValueView>, n: NodeView, from: int)
    requires
        0 <= from,
        record_conforms(types, owner, fields, values),
    ensures
        emit_fields(types, fields, values, ElementView::Node(n), from, BindingKind::Flatten) == ElementView::Node(
            NodeView {
                attributes: n.attributes + flat_attributes(types, fields, values, from),
                elements: n.elements + flat_elements(types, fields, values, from),
                ..n
            },
        ),
    decreases values, values.len() - from,
{
    let element = ElementView::Node(n);
    if from >= values.len() {
        assert(n.attributes + flat_attributes(types, fields, values, from) =~= n.attributes);
        assert(n.elements + flat_elements(types, fields, values, from) =~= n.elements);
    } else {
        lemma_field_conforms(types, owner, fields, values, from);
        let f = fields[from];
        if !f.attrs.flatten {
            lemma_flatten_pass(types, owner, fields, values, n, from + 1);
        } else {
            let inner = flattened(values[from])->Some_0;
            let sd = types[f.target as int]->Struct_0;
            assert(payload_fields(types, f) == sd.fields@);
            lemma_record_written(types, f.target as int, sd.fields@, inner, n);
            let n1 = NodeView {
                attributes: n.attributes + all_attributes(types, sd.fields@, inner),
                elements: n.elements + all_elements(types, sd.fields@, inner),
                ..n
            };
            assert(se_value(types, f.target as int, ValueView::Struct(flattened(values[from])->Some_0), element) == emit_record(types, sd.fields@, inner, element));
            assert(emit_value(types, f, ValueView::Struct(flattened(values[from])->Some_0), element, BindingKind::Flatten) == ElementView::Node(n1));
            lemma_flatten_pass(types, owner, fields, values, n1, from + 1);
            assert(n1.attributes + flat_attributes(types, fields, values, from + 1) =~= n.attributes + flat_attributes(
                types,
                fields,
                values,
                from,
            ));
            assert(n1.elements + flat_elements(types, fields, values, from + 1) =~= n.elements + flat_elements(types, fields, values, from));
        }
    }
}

/// The fields of a step that is over are the fields before the next step.
pub proof fn lemma_next_phase(fields: Seq<Field>, values: Seq<FieldValueView>, slots: Seq<SlotView>, phase: int)
    requires
        state(fields, values, slots, phase, fields.len() as int),
    ensures
        state(fields, values, slots, phase + 1, 0),
{
}

/// No text writes no number of any type.
pub proof fn lemma_no_text_is_no_number(kind: NumberKind)
    ensures
        number_from_text(kind, Seq::empty()) is Err,
        number_from_text(kind, Seq::empty())->Err_0 is TypeConversionError,
{
    let none = Seq::<char>::empty();
    assert(leading_space(none) == 0);
    assert(none.skip(0) =~= none);
    assert(trailing_space(none) == 0);
    assert(none.take(0) =~= none);
    assert(trimmed(none) =~= none);
}

/// The scan of the text that the text fields are written as gives the text
/// fields from index `from` on their values.
pub proof fn lemma_text_phase(
    types: Seq<TypeDescriptor>,
    owner: int,
    fields: Seq<Field>,
    values: Seq<FieldValueView>,
    s: Seq<char>,
    slots: Seq<SlotView>,
    from: int,
)
    requires
        0 <= from <= fields.len(),
        record_conforms(types, owner, fields, values),
        state(fields, values, slots, 0, from),
        forall|k: int|
            0 <= k < fields.len() && (#[trigger] fields[k]).attrs.text ==> s == field_text(types, fields[k], values[k]),
    ensures
        text_scan(types, owner, fields, s, slots, from, false) is Ok,
        state(fields, values, text_scan(types, owner, fields, s, slots, from, false)->Ok_0, 0, fields.len() as int),
    decreases fields.len() - from,
{
    if from < fields.len() {
        let f = fields[from];
        lemma_field_conforms(types, owner, fields, values, from);
        assert(slots[from] == init_slot(f));
        if !f.attrs.text {
            lemma_text_phase(types, owner, fields, values, s, slots, from + 1);
        } else {
            assert(s == field_text(types, f, values[from]));
            match values[from] {
                FieldValueView::Optional(None) => {
                    let kind = types[f.target as int]->Number_0;
                    lemma_no_text_is_no_number(kind);
                    assert(s == Seq::<char>::empty());
                    assert(de_text(types, f.target as int, s) == number_from_text(kind, s));
                    assert(f.spec_shape() == Shape::Optional);
                    assert(bind_result(f, slots[from], de_text(types, f.target as int, s)) == Ok::<SlotView, ErrorView>(
                        SlotView::Single(None),
                    ));
                    let mid = slots.update(from, SlotView::Single(None));
                    assert(closes(fields, values, mid, from));
                    assert(state(fields, values, mid, 0, from + 1));
                    lemma_text_phase(types, owner, fields, values, s, mid, from + 1);
                },
                FieldValueView::Repeated(_) => {},
                _ => {
                    let v = match values[from] {
                        FieldValueView::Required(v) => v,
                        FieldValueView::Optional(Some(v)) => v,
                        _ => arbitrary(),
                    };
                    lemma_text_round_trip(types, f.target as int, v, Seq::empty());
                    let mid = slots.update(from, slots[from].bind(v));
                    assert(closes(fields, values, mid, from));
                    assert(state(fields, values, mid, 0, from + 1));
                    lemma_text_phase(types, owner, fields, values, s, mid, from + 1);
                },
            }
        }
    }
}

/// The scan of the attributes that the values from index `j` on of the
/// repeated field at index `k` are written as appends these values to what
/// the field holds.
pub proof fn lemma_attribute_values_phase(types: Seq<TypeDescriptor>, fields: Seq<Field>, k: int, vs: Seq<ValueView>, slots: Seq<SlotView>, j: int)
    requires
        0 <= k < fields.len(),
        slots.len() == fields.len(),
        fields[k].attrs.attribute,
        attribute_fits(fields, k, field_tag(fields[k])),
        forall|i: int| 0 <= i < vs.len() ==> text_conforms(types, fields[k].target as int, #[trigger] vs[i]),
        slots[k] is Many,
        0 <= j <= vs.len(),
    ensures
        attributes_scan(types, fields, values_attributes(types, fields[k], vs, j), slots, 0) == Ok::<Seq<SlotView>, ErrorView>(
            slots.update(k, SlotView::Many(slots[k]->Many_0 + vs.skip(j))),
        ),
    decreases vs.len() - j,
{
    let f = fields[k];
    let held = slots[k]->Many_0;
    if j < vs.len() {
        let a = attribute_of(types, f, vs[j]);
        let rest = values_attributes(types, f, vs, j + 1);
        assert(text_conforms(types, f.target as int, vs[j]));
        lemma_text_round_trip(types, f.target as int, vs[j], Seq::empty());
        lemma_attributes_scan_append(types, fields, seq![a], rest, slots, 0);
        lemma_attribute_scan_one(types, fields, a, slots, 0, k, vs[j]);
        let mid = slots.update(k, slots[k].bind(vs[j]));
        assert(attributes_scan(types, fields, seq![a], slots, 0) == Ok::<Seq<SlotView>, ErrorView>(mid)) by {
            assert(attributes_scan(types, fields, seq![a], mid, 1) == Ok::<Seq<SlotView>, ErrorView>(mid));
        }
        lemma_attribute_values_phase(types, fields, k, vs, mid, j + 1);
        assert(held.push(vs[j]) + vs.skip(j + 1) =~= held + vs.skip(j));
        assert(mid.update(k, SlotView::Many(held.push(vs[j]) + vs.skip(j + 1))) =~= slots.update(k, SlotView::Many(held + vs.skip(j))));
    } else {
        assert(held + vs.skip(j) =~= held);
        assert(slots.update(k, SlotView::Many(held)) =~= slots);
    }
}

/// The scan of the attributes that the fields from index `from` on are
/// written as gives the attribute fields their values.
pub proof fn lemma_attributes_phase(
    types: Seq<TypeDescriptor>,
    owner: int,
    fields: Seq<Field>,
    values: Seq<FieldValueView>,
    slots: Seq<SlotView>,
    from: int,
)
    requires
        0 <= from <= fields.len(),
        record_conforms(types, owner, fields, values),
        state(fields, values, slots, 2, from),
    ensures
        attributes_scan(types, fields, record_attributes(types, fields, values, from), slots, 0) is Ok,
        state(
            fields,
            values,
            attributes_scan(types, fields, record_attributes(types, fields, values, from), slots, 0)->Ok_0,
            2,
            fields.len() as int,
        ),
    decreases fields.len() - from,
{
    if from < fields.len() {
        let f = fields[from];
        let rest = record_attributes(types, fields, values, from + 1);
        lemma_field_conforms(types, owner, fields, values, from);
        if !f.attrs.attribute {
            assert(field_phase(f) != 2);
            lemma_attributes_phase(types, owner, fields, values, slots, from + 1);
        } else {
            assert(field_phase(f) == 2);
            assert(slots[from] == init_slot(f));
            let chunk = field_attributes(types, f, values[from]);
            lemma_attributes_scan_append(types, fields, chunk, rest, slots, 0);
            match values[from] {
                FieldValueView::Optional(None) => {
                    assert(closes(fields, values, slots, from));
                    lemma_attributes_phase(types, owner, fields, values, slots, from + 1);
                },
                FieldValueView::Repeated(vs) => {
                    lemma_attribute_values_phase(types, fields, from, vs, slots, 0);
                    let mid = slots.update(from, SlotView::Many(slots[from]->Many_0 + vs.skip(0)));
                    assert(Seq::<ValueView>::empty() + vs.skip(0) =~= vs);
                    assert(closes(fields, values, mid, from));
                    assert(state(fields, values, mid, 2, from + 1));
                    lemma_attributes_phase(types, owner, fields, values, mid, from + 1);
                },
                _ => {
                    let v = match values[from] {
                        FieldValueView::Required(v) => v,
                        FieldValueView::Optional(Some(v)) => v,
                        _ => arbitrary(),
                    };
                    let a = attribute_of(types, f, v);
                    lemma_text_round_trip(types, f.target as int, v, Seq::empty());
                    lemma_attribute_scan_one(types, fields, a, slots, 0, from, v);
                    let mid = slots.update(from, slots[from].bind(v));
                    assert(attributes_scan(types, fields, chunk, slots, 0) == Ok::<Seq<SlotView>, ErrorView>(mid)) by {
                        assert(attributes_scan(types, fields, chunk, mid, 1) == Ok::<Seq<SlotView>, ErrorView>(mid));
                    }
                    assert(closes(fields, values, mid, from));
                    assert(state(fields, values, mid, 2, from + 1));
                    lemma_attributes_phase(types, owner, fields, values, mid, from + 1);
                },
            }
        }
    }
}

/// What the own fields of a record are written as is foreign to the
/// structs that the fields from index `from` on flatten.
pub proof fn lemma_own_is_foreign(types: Seq<TypeDescriptor>, owner: int, fields: Seq<Field>, values: Seq<FieldValueView>, from: int)
    requires
        0 <= from,
        record_conforms(types, owner, fields, values),
    ensures
        flat_foreign(
            types,
            fields,
            values,
            record_attributes(types, fields, values, 0),
            record_texts(types, fields, values, 0) + record_children(types, fields, values, 0),
            from,
        ),
    decreases values.len() - from,
{
    if from < values.len() {
        lemma_field_conforms(types, owner, fields, values, from);
        lemma_own_is_foreign(types, owner, fields, values, from + 1);
    }
}

/// What the struct is written as that the field at index `j` flattens is
/// foreign to the structs that the fields from index `from` on flatten,
/// where `j` is before `from`.
pub proof fn lemma_earlier_is_foreign(types: Seq<TypeDescriptor>, owner: int, fields: Seq<Field>, values: Seq<FieldValueView>, j: int, from: int)
    requires
        0 <= j < from,
        j < fields.len(),
        fields[j].attrs.flatten,
        record_conforms(types, owner, fields, values),
    ensures
        flat_foreign(types, fields, values, payload_attributes(types, fields, values, j), payload_elements(types, fields, values, j), from),
    decreases values.len() - from,
{
    if from < values.len() {
        lemma_field_conforms(types, owner, fields, values, from);
        lemma_earlier_is_foreign(types, owner, fields, values, j, from + 1);
    }
}

/// What the structs are written as that the fields from index `from` on
/// flatten is foreign to the struct that the field at index `k` flattens,
/// where `k` is before `from`.
pub proof fn lemma_later_is_foreign(types: Seq<TypeDescriptor>, owner: int, fields: Seq<Field>, values: Seq<FieldValueView>, k: int, from: int)
    requires
        0 <= k < from,
        k < fields.len(),
        fields[k].attrs.flatten,
        record_conforms(types, owner, fields, values),
    ensures
        foreign(
            types,
            payload_fields(types, fields[k]),
            flattened(values[k])->Some_0,
            flat_attributes(types, fields, values, from),
            flat_elements(types, fields, values, from),
        ),
    decreases values.len() - from,
{
    lemma_field_conforms(types, owner, fields, values, k);
    let inner = flattened(values[k])->Some_0;
    let pf = payload_fields(types, fields[k]);
    if from < values.len() {
        lemma_later_is_foreign(types, owner, fields, values, k, from + 1);
        lemma_field_conforms(types, owner, fields, values, from);
        if fields[from].attrs.flatten {
            assert(foreign(types, pf, inner, payload_attributes(types, fields, values, from), payload_elements(types, fields, values, from)));
            lemma_foreign_concat(
                types,
                pf,
                inner,
                payload_attributes(types, fields, values, from),
                payload_elements(types, fields, values, from),
                flat_attributes(types, fields, values, from + 1),
                flat_elements(types, fields, values, from + 1),
            );
        }
    } else {
        lemma_foreign_empty(types, pf, inner);
    }
}

/// What the structs are written as that the fields from index `from` on
/// flatten is foreign to the own fields of the record.
pub proof fn lemma_flat_is_foreign(types: Seq<TypeDescriptor>, owner: int, fields: Seq<Field>, values: Seq<FieldValueView>, from: int)
    requires
        0 <= from,
        record_conforms(types, owner, fields, values),
    ensures
        own_foreign(fields, flat_attributes(types, fields, values, from), flat_elements(types, fields, values, from)),
    decreases values.len() - from,
{
    if from < values.len() {
        lemma_field_conforms(types, owner, fields, values, from);
        lemma_flat_is_foreign(types, owner, fields, values, from + 1);
        if fields[from].attrs.flatten {
            lemma_own_foreign_concat(
                fields,
                payload_attributes(types, fields, values, from),
                payload_elements(types, fields, values, from),
                flat_attributes(types, fields, values, from + 1),
                flat_elements(types, fields, values, from + 1),
            );
        }
    }
}

/// A fresh node called `name`.
pub open spec fn fresh(name: NameView) -> NodeView {
    NodeView { name, ..NodeView::empty() }
}

/// A value that conforms and is written into a fresh node is read back
/// from that node, which is then named as the value names it.
pub proof fn lemma_round_trip(types: Seq<TypeDescriptor>, ty: int, v: ValueView, name: NameView)
    requires
        conforms(types, ty, v, name),
    ensures
        se_value(types, ty, v, ElementView::Node(fresh(name))) is Node,
        se_value(types, ty, v, ElementView::Node(fresh(name)))->Node_0.name == written_name(types, ty, v, name),
        de_node(types, ty, se_value(types, ty, v, ElementView::Node(fresh(name)))->Node_0) == Ok::<ValueView, ErrorView>(v),
    decreases v, 0int,
{
    let target = ElementView::Node(fresh(name));
    match types[ty] {
        TypeDescriptor::Struct(sd) => {
            let values = v->Struct_0;
            let named = written_name(types, ty, v, name);
            lemma_fresh_record(types, ty, sd.fields@, values, named);
            assert(se_value(types, ty, v, target) == emit_record(types, sd.fields@, values, ElementView::Node(fresh(named))));
        },
        TypeDescriptor::Enum(ed) => {
            let i = v->Variant_0;
            let values = v->Variant_1;
            let variant = ed.variants@[i];
            let named = written_name(types, ty, v, name);
            assert(se_value(types, ty, v, target) == emit_record(types, variant.fields@, values, ElementView::Node(fresh(named))));
            if variant.kind == VariantKind::Unit {
                assert(values =~= Seq::<FieldValueView>::empty());
                assert(emit_record(types, variant.fields@, values, ElementView::Node(fresh(named))) == ElementView::Node(fresh(named)));
            } else {
                lemma_fresh_record(types, ty, variant.fields@, values, named);
            }
        },
        _ => {
            lemma_text_round_trip(types, ty, v, Seq::empty());
            let s = text_form(types, ty, v);
            let m = NodeView { elements: fresh(name).elements.push(ElementView::Text(s)), ..fresh(name) };
            assert(m.text() =~= s) by {
                assert(content_text(m.elements, 0) =~= Seq::<char>::empty());
                assert(content_text(m.elements, 1) =~= content_text(m.elements, 0) + element_text(m.elements[0]));
            }
        },
    }
}

/// A record that conforms and is written into a fresh node is read back
/// from that node, which keeps its name.
pub proof fn lemma_fresh_record(types: Seq<TypeDescriptor>, owner: int, fields: Seq<Field>, values: Seq<FieldValueView>, name: NameView)
    requires
        record_conforms(types, owner, fields, values),
    ensures
        emit_record(types, fields, values, ElementView::Node(fresh(name))) is Node,
        emit_record(types, fields, values, ElementView::Node(fresh(name)))->Node_0.name == name,
        node_fields(types, owner, fields, emit_record(types, fields, values, ElementView::Node(fresh(name)))->Node_0) == Ok::<
            Seq<FieldValueView>,
            ErrorView,
        >(values),
    decreases values, values.len() + 3,
{
    let start = fresh(name);
    lemma_record_written(types, owner, fields, values, start);
    let m = NodeView {
        attributes: start.attributes + all_attributes(types, fields, values),
        elements: start.elements + all_elements(types, fields, values),
        ..start
    };
    // the text that is captured
    assert forall|k: int| 0 <= k < fields.len() && (#[trigger] fields[k]).attrs.text implies m.text() == field_text(
        types,
        fields[k],
        values[k],
    ) by {
        lemma_field_conforms(types, owner, fields, values, k);
        lemma_single_text(types, fields, values, 0, k);
        let s = field_text(types, fields[k], values[k]);
        let texts = field_texts(types, fields[k], values[k]);
        let others = record_children(types, fields, values, 0) + flat_elements(types, fields, values, 0);
        assert(m.elements =~= texts + others);
        lemma_text_of_both(texts, others);
        assert(written_text(texts) =~= s) by {
            if texts.len() > 0 {
                assert(content_text(texts, 0) =~= Seq::<char>::empty());
                assert(content_text(texts, 1) =~= content_text(texts, 0) + element_text(texts[0]));
            }
        }
        assert(m.text() =~= s);
    }
    lemma_foreign_empty(types, fields, values);
    assert(m.attributes =~= Seq::<AttributeView>::empty() + all_attributes(types, fields, values) + Seq::<AttributeView>::empty());
    assert(m.elements =~= Seq::<ElementView>::empty() + all_elements(types, fields, values) + Seq::<ElementView>::empty());
    lemma_record_reads(types, owner, fields, values, m, Seq::empty(), Seq::empty(), Seq::empty(), Seq::empty());
}

/// A record that conforms is read back from a node that holds what the
/// record is written as, between attributes and elements that are foreign
/// to it, where the text of the node is the text of the record's text
/// field, if it has one.
#[verifier::rlimit(40)]
pub proof fn lemma_record_reads(
    types: Seq<TypeDescriptor>,
    owner: int,
    fields: Seq<Field>,
    values: Seq<FieldValueView>,
    m: NodeView,
    before_attributes: Seq<AttributeView>,
    before_elements: Seq<ElementView>,
    after_attributes: Seq<AttributeView>,
    after_elements: Seq<ElementView>,
)
    requires
        record_conforms(types, owner, fields, values),
        m.attributes == before_attributes + all_attributes(types, fields, values) + after_attributes,
        m.elements == before_elements + all_elements(types, fields, values) + after_elements,
        foreign(types, fields, values, before_attributes, before_elements),
        foreign(types, fields, values, after_attributes, after_elements),
        forall|k: int|
            0 <= k < fields.len() && (#[trigger] fields[k]).attrs.text ==> m.text() == field_text(types, fields[k], values[k]),
    ensures
        node_fields(types, owner, fields, m) == Ok::<Seq<FieldValueView>, ErrorView>(values),
    decreases values, values.len() + 2,
{
    let attributes = record_attributes(types, fields, values, 0);
    let texts = record_texts(types, fields, values, 0);
    let children = record_children(types, fields, values, 0);
    let flat_a = flat_attributes(types, fields, values, 0);
    let flat_e = flat_elements(types, fields, values, 0);
    // the text
    let initial = init_slots(fields);
    assert(state(fields, values, initial, 0, 0));
    lemma_text_phase(types, owner, fields, values, m.text(), initial, 0);
    let captured = text_scan(types, owner, fields, m.text(), initial, 0, false)->Ok_0;
    lemma_next_phase(fields, values, captured, 0);
    // the flattened fields
    lemma_own_is_foreign(types, owner, fields, values, 0);
    lemma_flat_foreign_concat(types, fields, values, before_attributes, before_elements, attributes, texts + children, 0);
    assert(m.attributes =~= (before_attributes + attributes) + flat_a + after_attributes);
    assert(m.elements =~= (before_elements + (texts + children)) + flat_e + after_elements);
    lemma_flatten_phase(
        types,
        owner,
        fields,
        values,
        m,
        before_attributes + attributes,
        before_elements + (texts + children),
        after_attributes,
        after_elements,
        captured,
        0,
    );
    let flattened = flatten_scan(types, owner, fields, m, captured, 0)->Ok_0;
    lemma_next_phase(fields, values, flattened, 1);
    // the attributes
    lemma_flat_is_foreign(types, owner, fields, values, 0);
    lemma_own_foreign_concat(fields, flat_a, flat_e, after_attributes, after_elements);
    assert(m.attributes =~= (before_attributes + attributes) + (flat_a + after_attributes));
    lemma_attributes_scan_append(types, fields, before_attributes + attributes, flat_a + after_attributes, flattened, 0);
    lemma_attributes_scan_append(types, fields, before_attributes, attributes, flattened, 0);
    lemma_attributes_scan_foreign(types, fields, before_attributes, before_elements, flattened, 0);
    lemma_attributes_phase(types, owner, fields, values, flattened, 0);
    let bound = attributes_scan(types, fields, attributes, flattened, 0)->Ok_0;
    lemma_attributes_scan_foreign(types, fields, flat_a + after_attributes, flat_e + after_elements, bound, 0);
    assert(attributes_scan(types, fields, m.attributes, flattened, 0) == Ok::<Seq<SlotView>, ErrorView>(bound));
    lemma_next_phase(fields, values, bound, 2);
    // the children
    lemma_texts_are_texts(types, fields, values, 0);
    lemma_foreign_texts(types, fields, values, texts);
    lemma_own_foreign_concat(fields, before_attributes, before_elements, Seq::empty(), texts);
    let head = before_elements + texts;
    let tail = flat_e + after_elements;
    assert(m.elements =~= (head + children) + tail);
    lemma_children_scan_append(types, owner, fields, m, head + children, tail, bound, 0);
    lemma_children_scan_append(types, owner, fields, holder(head + children), head, children, bound, 0);
    lemma_children_scan_foreign(types, owner, fields, before_attributes + Seq::empty(), holder(head), bound, 0);
    lemma_children_phase(types, owner, fields, values, bound, 0);
    let slots = children_scan(types, owner, fields, holder(children), bound, 0)->Ok_0;
    lemma_children_scan_foreign(types, owner, fields, flat_a + after_attributes, holder(tail), slots, 0);
    assert(children_scan(types, owner, fields, m, bound, 0) == Ok::<Seq<SlotView>, ErrorView>(slots));
    assert(node_slots(types, owner, fields, m) == Ok::<Seq<SlotView>, ErrorView>(slots));
    assert forall|k: int| 0 <= k < fields.len() implies finalize_field(#[trigger] fields[k], slots[k]) == Ok::<FieldValueView, ErrorView>(
        values[k],
    ) by {
        assert(closes(fields, values, slots, k));
    }
    lemma_finalize_all(fields, slots, values, 0);
    assert(values.take(0) =~= Seq::<FieldValueView>::empty());
}

/// The scan of the flattened fields from index `from` on gives them their
/// values, in a node that holds what their structs are written as between
/// attributes and elements that are foreign to these structs.
#[verifier::rlimit(40)]
pub proof fn lemma_flatten_phase(
    types: Seq<TypeDescriptor>,
    owner: int,
    fields: Seq<Field>,
    values: Seq<FieldValueView>,
    m: NodeView,
    before_attributes: Seq<AttributeView>,
    before_elements: Seq<ElementView>,
    after_attributes: Seq<AttributeView>,
    after_elements: Seq<ElementView>,
    slots: Seq<SlotView>,
    from: int,
)
    requires
        0 <= from <= fields.len(),
        record_conforms(types, owner, fields, values),
        state(fields, values, slots, 1, from),
        m.attributes == before_attributes + flat_attributes(types, fields, values, from) + after_attributes,
        m.elements == before_elements + flat_elements(types, fields, values, from) + after_elements,
        flat_foreign(types, fields, values, before_attributes, before_elements, from),
        flat_foreign(types, fields, values, after_attributes, after_elements, from),
    ensures
        flatten_scan(types, owner, fields, m, slots, from) is Ok,
        state(fields, values, flatten_scan(types, owner, fields, m, slots, from)->Ok_0, 1, fields.len() as int),
    decreases values, values.len() - from,
{
    if from < fields.len() {
        let f = fields[from];
        lemma_field_conforms(types, owner, fields, values, from);
        if !f.attrs.flatten {
            assert(field_phase(f) != 1);
            lemma_flatten_phase(
                types,
                owner,
                fields,
                values,
                m,
                before_attributes,
                before_elements,
                after_attributes,
                after_elements,
                slots,
                from + 1,
            );
        } else {
            assert(field_phase(f) == 1);
            assert(slots[from] == init_slot(f));
            let inner = flattened(values[from])->Some_0;
            let sd = types[f.target as int]->Struct_0;
            let own_a = all_attributes(types, sd.fields@, inner);
            let own_e = all_elements(types, sd.fields@, inner);
            let rest_a = flat_attributes(types, fields, values, from + 1);
            let rest_e = flat_elements(types, fields, values, from + 1);
            assert(payload_fields(types, f) == sd.fields@);
            // the struct is read from the node
            lemma_later_is_foreign(types, owner, fields, values, from, from + 1);
            lemma_foreign_concat(types, sd.fields@, inner, rest_a, rest_e, after_attributes, after_elements);
            assert(m.attributes =~= before_attributes + own_a + (rest_a + after_attributes));
            assert(m.elements =~= before_elements + own_e + (rest_e + after_elements));
            lemma_record_reads(
                types,
                f.target as int,
                sd.fields@,
                inner,
                m,
                before_attributes,
                before_elements,
                rest_a + after_attributes,
                rest_e + after_elements,
            );
            assert(de_node(types, f.target as int, m) == Ok::<ValueView, ErrorView>(ValueView::Struct(flattened(values[from])->Some_0)));
            let mid = slots.update(from, slots[from].bind(ValueView::Struct(flattened(values[from])->Some_0)));
            assert(closes(fields, values, mid, from));
            assert(state(fields, values, mid, 1, from + 1));
            // the fields behind it
            lemma_earlier_is_foreign(types, owner, fields, values, from, from + 1);
            lemma_flat_foreign_concat(types, fields, values, before_attributes, before_elements, own_a, own_e, from + 1);
            assert(m.attributes =~= (before_attributes + own_a) + rest_a + after_attributes);
            assert(m.elements =~= (before_elements + own_e) + rest_e + after_elements);
            lemma_flatten_phase(
                types,
                owner,
                fields,
                values,
                m,
                before_attributes + own_a,
                before_elements + own_e,
                after_attributes,
                after_elements,
                mid,
                from + 1,
            );
        }
    }
}

/// The scan of the child nodes that the values from index `j` on of the
/// repeated field at index `k` are written as appends these values to what
/// the field holds.
pub proof fn lemma_values_phase(
    types: Seq<TypeDescriptor>,
    owner: int,
    fields: Seq<Field>,
    k: int,
    vs: Seq<ValueView>,
    slots: Seq<SlotView>,
    j: int,
)
    requires
        0 <= k < fields.len(),
        slots.len() == fields.len(),
        fields[k].attrs.spec_is_child(),
        forall|i: int| 0 <= i < vs.len() ==> value_conforms(types, fields, k, #[trigger] vs[i]),
        slots[k] is Many,
        0 <= j <= vs.len(),
    ensures
        children_scan(types, owner, fields, holder(values_children(types, fields[k], vs, j)), slots, 0) == Ok::<Seq<SlotView>, ErrorView>(
            slots.update(k, SlotView::Many(slots[k]->Many_0 + vs.skip(j))),
        ),
    decreases vs, vs.len() - j,
{
    let f = fields[k];
    let held = slots[k]->Many_0;
    if j < vs.len() {
        let c = child_of(types, f, vs[j]);
        let rest = values_children(types, f, vs, j + 1);
        let node = holder(seq![c] + rest);
        assert(value_conforms(types, fields, k, vs[j]));
        lemma_round_trip(types, f.target as int, vs[j], field_tag(f));
        lemma_children_scan_append(types, owner, fields, node, seq![c], rest, slots, 0);
        let one = holder(seq![c]);
        lemma_child_scan_one(types, owner, fields, one, 0, slots, 0, k, vs[j]);
        let mid = slots.update(k, slots[k].bind(vs[j]));
        assert(children_scan(types, owner, fields, one, slots, 0) == Ok::<Seq<SlotView>, ErrorView>(mid)) by {
            assert(children_scan(types, owner, fields, one, mid, 1) == Ok::<Seq<SlotView>, ErrorView>(mid));
        }
        lemma_values_phase(types, owner, fields, k, vs, mid, j + 1);
        assert(held.push(vs[j]) + vs.skip(j + 1) =~= held + vs.skip(j));
        assert(mid.update(k, SlotView::Many(held.push(vs[j]) + vs.skip(j + 1))) =~= slots.update(k, SlotView::Many(held + vs.skip(j))));
    } else {
        assert(held + vs.skip(j) =~= held);
        assert(slots.update(k, SlotView::Many(held)) =~= slots);
    }
}

/// The scan of the child nodes that the fields from index `from` on are
/// written as gives these fields their values.
#[verifier::rlimit(40)]
pub proof fn lemma_children_phase(
    types: Seq<TypeDescriptor>,
    owner: int,
    fields: Seq<Field>,
    values: Seq<FieldValueView>,
    slots: Seq<SlotView>,
    from: int,
)
    requires
        0 <= from <= fields.len(),
        record_conforms(types, owner, fields, values),
        state(fields, values, slots, 3, from),
    ensures
        children_scan(types, owner, fields, holder(record_children(types, fields, values, from)), slots, 0) is Ok,
        state(
            fields,
            values,
            children_scan(types, owner, fields, holder(record_children(types, fields, values, from)), slots, 0)->Ok_0,
            3,
            fields.len() as int,
        ),
    decreases values, values.len() - from,
{
    if from < fields.len() {
        let f = fields[from];
        let rest = record_children(types, fields, values, from + 1);
        lemma_field_conforms(types, owner, fields, values, from);
        if !f.attrs.spec_is_child() {
            assert(field_phase(f) != 3);
            lemma_children_phase(types, owner, fields, values, slots, from + 1);
        } else {
            assert(field_phase(f) == 3);
            assert(slots[from] == init_slot(f));
            let chunk = field_children(types, f, values[from]);
            lemma_children_scan_append(types, owner, fields, holder(chunk + rest), chunk, rest, slots, 0);
            match values[from] {
                FieldValueView::Optional(None) => {
                    assert(closes(fields, values, slots, from));
                    assert(state(fields, values, slots, 3, from + 1));
                    lemma_children_phase(types, owner, fields, values, slots, from + 1);
                },
                FieldValueView::Repeated(vs) => {
                    lemma_values_phase(types, owner, fields, from, vs, slots, 0);
                    let mid = slots.update(from, SlotView::Many(slots[from]->Many_0 + vs.skip(0)));
                    assert(Seq::<ValueView>::empty() + vs.skip(0) =~= vs);
                    assert(closes(fields, values, mid, from));
                    assert(state(fields, values, mid, 3, from + 1));
                    lemma_children_phase(types, owner, fields, values, mid, from + 1);
                },
                _ => {
                    let v = match values[from] {
                        FieldValueView::Required(v) => v,
                        FieldValueView::Optional(Some(v)) => v,
                        _ => arbitrary(),
                    };
                    assert(value_conforms(types, fields, from, v));
                    lemma_round_trip(types, f.target as int, v, field_tag(f));
                    let one = holder(chunk);
                    lemma_child_scan_one(types, owner, fields, one, 0, slots, 0, from, v);
                    let mid = slots.update(from, slots[from].bind(v));
                    assert(children_scan(types, owner, fields, one, slots, 0) == Ok::<Seq<SlotView>, ErrorView>(mid)) by {
                        assert(children_scan(types, owner, fields, one, mid, 1) == Ok::<Seq<SlotView>, ErrorView>(mid));
                    }
                    assert(closes(fields, values, mid, from));
                    assert(state(fields, values, mid, 3, from + 1));
                    lemma_children_phase(types, owner, fields, values, mid, from + 1);
                },
            }
        }
    }
}

} // verus!
