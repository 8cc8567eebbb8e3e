//! What holds of every schema, record and tree.

use vstd::prelude::*;
use crate::de::ErrorView;
use crate::de::attributes_scan;
use crate::de::de_element;
use crate::de::finalize;
use crate::de::finalize_field;
use crate::de::flatten_scan;
use crate::de::init_slots;
use crate::de::node_fields;
use crate::de::node_slots;
use crate::de::text_scan;
use crate::de_lemmas::lemma_attributes_scan_frame;
use crate::de_lemmas::lemma_children_collect;
use crate::de_lemmas::lemma_finalize_err;
use crate::de_lemmas::lemma_finalize_ok;
use crate::de_lemmas::lemma_flatten_scan_frame;
use crate::de_lemmas::lemma_text_scan_frame;
use crate::de_lemmas::lemma_unbound;
use crate::de_lemmas::matched_values;
use crate::de_lemmas::no_attribute_fits;
use crate::de_lemmas::no_child_fits;
use crate::roundtrip::conforms;
use crate::roundtrip::fresh;
use crate::roundtrip::lemma_round_trip;
use crate::schema::BindingKind;
use crate::schema::Field;
use crate::schema::Shape;
use crate::schema::TypeDescriptor;
use crate::se::emit_fields;
use crate::se::emit_record;
use crate::se::emit_value;
use crate::se::field_tag;
use crate::se::se_value;
use crate::se::tag_name;
use crate::se_lemmas::attribute_at;
use crate::se_lemmas::attribute_behind;
use crate::se_lemmas::attributes_in_order;
use crate::se_lemmas::field_written;
use crate::se_lemmas::lemma_attribute_order;
use crate::se_lemmas::lemma_attribute_pass_keeps_content;
use crate::se_lemmas::lemma_attribute_present;
use crate::se_lemmas::lemma_behind_stays;
use crate::se_lemmas::lemma_extends_trans;
use crate::se_lemmas::lemma_field_extends;
use crate::se_lemmas::lemma_fields_extends;
use crate::se_lemmas::lemma_order_stays;
use crate::se_lemmas::lemma_pass_idle;
use crate::se_lemmas::present;
use crate::tree::ElementView;
use crate::tree::NameView;
use crate::tree::NodeView;
use crate::value::FieldValueView;
use crate::value::SlotView;
use crate::value::ValueView;

verus! {

/// Round trip: a record that conforms to its type is read back from the
/// fresh node that it is written into. A record conforms where it is made
/// of structs and variants whose fields are bound to attributes, to the
/// text, to child elements or flattened, and where every name that a part
/// of it is written under is read back by the field it belongs to, and by
/// no other.
pub proof fn law_round_trip(types: Seq<TypeDescriptor>, ty: int, v: ValueView)
    requires
        conforms(types, ty, v, NameView::empty()),
    ensures
        de_element(types, ty, se_value(types, ty, v, ElementView::Node(NodeView::empty()))) == Ok::<ValueView, ErrorView>(v),
{
    lemma_round_trip(types, ty, v, NameView::empty());
    assert(fresh(NameView::empty()) == NodeView::empty());
}

/// Attributes come out in schema order: where two fields of a record are
/// bound to attributes and hold a value, the node that the record is written
/// into gains the attribute of the earlier field before that of the later.
pub proof fn law_attribute_order(types: Seq<TypeDescriptor>, fields: Seq<Field>, values: Seq<FieldValueView>, n: NodeView, i: int, j: int)
    requires
        0 <= i < j < fields.len(),
        j < values.len(),
        fields[i].attrs.attribute,
        fields[j].attrs.attribute,
        present(values[i]),
        present(values[j]),
    ensures
        attributes_in_order(
            emit_record(types, fields, values, ElementView::Node(n)),
            n.attributes.len() as int,
            field_tag(fields[i]),
            field_tag(fields[j]),
        ),
{
    let element = ElementView::Node(n);
    let attributed = emit_fields(types, fields, values, element, 0, BindingKind::Attribute);
    let texted = emit_fields(types, fields, values, attributed, 0, BindingKind::Text);
    let filled = emit_fields(types, fields, values, texted, 0, BindingKind::Child);
    let flattened = emit_fields(types, fields, values, filled, 0, BindingKind::Flatten);
    lemma_attribute_order(types, fields, values, n, 0, i, j);
    lemma_fields_extends(types, fields, values, attributed, 0, BindingKind::Text);
    lemma_fields_extends(types, fields, values, texted, 0, BindingKind::Child);
    lemma_fields_extends(types, fields, values, filled, 0, BindingKind::Flatten);
    lemma_extends_trans(attributed, texted, filled);
    lemma_extends_trans(attributed, filled, flattened);
    lemma_order_stays(attributed, flattened, n.attributes.len() as int, field_tag(fields[i]), field_tag(fields[j]));
}

/// Attributes come out in schema order, for a struct: the node that a
/// struct is written into gains the attribute of an earlier field before
/// that of a later one.
pub proof fn law_struct_attribute_order(types: Seq<TypeDescriptor>, ty: int, values: Seq<FieldValueView>, n: NodeView, i: int, j: int)
    requires
        0 <= ty < types.len(),
        types[ty] is Struct,
        0 <= i < j < types[ty]->Struct_0.fields@.len(),
        j < values.len(),
        types[ty]->Struct_0.fields@[i].attrs.attribute,
        types[ty]->Struct_0.fields@[j].attrs.attribute,
        present(values[i]),
        present(values[j]),
    ensures
        attributes_in_order(
            se_value(types, ty, ValueView::Struct(values), ElementView::Node(n)),
            n.attributes.len() as int,
            field_tag(types[ty]->Struct_0.fields@[i]),
            field_tag(types[ty]->Struct_0.fields@[j]),
        ),
{
    let sd = types[ty]->Struct_0;
    let named = if sd.attrs.root {
        NodeView { name: tag_name(sd.attrs, sd.ident@, n.name), ..n }
    } else {
        n
    };
    law_attribute_order(types, sd.fields@, values, named, i, j);
}

/// An empty optional field writes nothing: in every pass over the fields,
/// the element is the same as if the pass had begun behind that field.
pub proof fn law_optional_absent_writes_nothing(
    types: Seq<TypeDescriptor>,
    fields: Seq<Field>,
    values: Seq<FieldValueView>,
    element: ElementView,
    i: int,
    pass: BindingKind,
)
    requires
        0 <= i < fields.len(),
        i < values.len(),
        values[i] == FieldValueView::Optional(None),
    ensures
        emit_fields(types, fields, values, element, i, pass) == emit_fields(types, fields, values, element, i + 1, pass),
{
}

/// An optional field that nothing fits is empty: where a field is bound to
/// an attribute or to a child element, and no attribute and no child node
/// of the node fits it, the record that the node gives holds nothing in it.
pub proof fn law_optional_absent_reads_empty(types: Seq<TypeDescriptor>, owner: int, fields: Seq<Field>, node: NodeView, i: int)
    requires
        0 <= i < fields.len(),
        !fields[i].attrs.text,
        !fields[i].attrs.flatten,
        fields[i].spec_shape() == Shape::Optional,
        no_attribute_fits(fields[i], node.attributes, 0),
        no_child_fits(fields[i], node.elements, 0),
    ensures
        node_slots(types, owner, fields, node) matches Ok(slots) ==> finalize_field(fields[i], slots[i]) == Ok::<FieldValueView, ErrorView>(
            FieldValueView::Optional(None),
        ),
        node_fields(types, owner, fields, node) matches Ok(values) ==> values.len() == fields.len() && values[i]
            == FieldValueView::Optional(None),
{
    if node_slots(types, owner, fields, node) is Ok {
        lemma_unbound(types, owner, fields, node, i);
        let slots = node_slots(types, owner, fields, node)->Ok_0;
        if finalize(fields, slots, 0, Seq::empty()) is Ok {
            lemma_finalize_ok(fields, slots, 0, Seq::empty(), i);
        }
    }
}

/// A required field that nothing fits is fatal: where a field is bound to
/// an attribute or to a child element, and no attribute and no child node
/// of the node fits it, the node gives no record. Unless reading the node
/// fails before, the failure names a missing field: this one, or a required
/// field before it.
pub proof fn law_required_absent_is_fatal(types: Seq<TypeDescriptor>, owner: int, fields: Seq<Field>, node: NodeView, i: int)
    requires
        0 <= i < fields.len(),
        !fields[i].attrs.text,
        !fields[i].attrs.flatten,
        fields[i].spec_shape() == Shape::Required,
        no_attribute_fits(fields[i], node.attributes, 0),
        no_child_fits(fields[i], node.elements, 0),
    ensures
        node_fields(types, owner, fields, node) is Err,
        node_slots(types, owner, fields, node) is Ok ==> exists|k: int|
            0 <= k <= i && node_fields(types, owner, fields, node) == Err::<Seq<FieldValueView>, ErrorView>(
                ErrorView::MissingField(#[trigger] fields[k].spec_field_name()),
            ),
{
    if node_slots(types, owner, fields, node) is Ok {
        lemma_unbound(types, owner, fields, node, i);
        let slots = node_slots(types, owner, fields, node)->Ok_0;
        lemma_finalize_err(fields, slots, 0, Seq::empty(), i);
    }
}

/// A repeated field keeps document order: where a field is bound to child
/// elements and holds any number of values, the record that the node gives
/// holds in it the values of the child nodes that fit the field, in the
/// order in which they stand in the node.
pub proof fn law_repeated_keeps_document_order(types: Seq<TypeDescriptor>, owner: int, fields: Seq<Field>, node: NodeView, i: int)
    requires
        0 <= i < fields.len(),
        fields[i].attrs.spec_is_child(),
        fields[i].spec_shape() == Shape::Repeated,
    ensures
        node_fields(types, owner, fields, node) matches Ok(values) ==> values.len() == fields.len() && values[i]
            == FieldValueView::Repeated(matched_values(types, fields[i], node.elements, 0)),
{
    if node_slots(types, owner, fields, node) is Ok {
        let initial = init_slots(fields);
        lemma_text_scan_frame(types, owner, fields, node.text(), initial, 0, false, i);
        let captured = text_scan(types, owner, fields, node.text(), initial, 0, false)->Ok_0;
        lemma_flatten_scan_frame(types, owner, fields, node, captured, 0, i);
        let flattened = flatten_scan(types, owner, fields, node, captured, 0)->Ok_0;
        lemma_attributes_scan_frame(types, fields, node.attributes, flattened, 0, i);
        let attributed = attributes_scan(types, fields, node.attributes, flattened, 0)->Ok_0;
        assert(attributed[i] == SlotView::Many(Seq::empty()));
        lemma_children_collect(types, owner, fields, node, attributed, 0, i);
        let slots = node_slots(types, owner, fields, node)->Ok_0;
        assert(slots[i] == SlotView::Many(matched_values(types, fields[i], node.elements, 0))) by {
            assert(Seq::<ValueView>::empty() + matched_values(types, fields[i], node.elements, 0) =~= matched_values(
                types,
                fields[i],
                node.elements,
                0,
            ));
        }
        if finalize(fields, slots, 0, Seq::empty()) is Ok {
            lemma_finalize_ok(fields, slots, 0, Seq::empty(), i);
        }
    }
}

/// The flatten pass from index `from` on leaves a node with an attribute
/// for the field at index `k` of the struct that the field at index `i`
/// flattens, where that inner field is bound to an attribute and holds a
/// value.
proof fn lemma_flatten_present(
    types: Seq<TypeDescriptor>,
    fields: Seq<Field>,
    values: Seq<FieldValueView>,
    n: NodeView,
    from: int,
    i: int,
    k: int,
)
    requires
        0 <= from <= i < fields.len(),
        i < values.len(),
        fields[i].attrs.flatten,
        values[i] matches FieldValueView::Required(ValueView::Struct(_)),
        0 <= fields[i].target < types.len(),
        types[fields[i].target as int] is Struct,
        0 <= k < types[fields[i].target as int]->Struct_0.fields@.len(),
        k < values[i]->Required_0->Struct_0.len(),
        types[fields[i].target as int]->Struct_0.fields@[k].attrs.attribute,
        present(values[i]->Required_0->Struct_0[k]),
    ensures
        attribute_behind(
            emit_fields(types, fields, values, ElementView::Node(n), from, BindingKind::Flatten),
            n.attributes.len() as int,
            field_tag(types[fields[i].target as int]->Struct_0.fields@[k]),
        ),
    decreases i - from,
{
    let element = ElementView::Node(n);
    let result = emit_fields(types, fields, values, element, from, BindingKind::Flatten);
    let inner = types[fields[i].target as int]->Struct_0;
    let name = field_tag(inner.fields@[k]);
    if from == i {
        let inner_values = values[i]->Required_0->Struct_0;
        let written = emit_value(types, fields[i], values[i]->Required_0, element, BindingKind::Flatten);
        let named = if inner.attrs.root {
            NodeView { name: tag_name(inner.attrs, inner.ident@, n.name), ..n }
        } else {
            n
        };
        assert(written == emit_record(types, inner.fields@, inner_values, ElementView::Node(named)));
        let attributed = emit_fields(types, inner.fields@, inner_values, ElementView::Node(named), 0, BindingKind::Attribute);
        let texted = emit_fields(types, inner.fields@, inner_values, attributed, 0, BindingKind::Text);
        let filled = emit_fields(types, inner.fields@, inner_values, texted, 0, BindingKind::Child);
        lemma_attribute_present(types, inner.fields@, inner_values, named, 0, k);
        lemma_fields_extends(types, inner.fields@, inner_values, attributed, 0, BindingKind::Text);
        lemma_fields_extends(types, inner.fields@, inner_values, texted, 0, BindingKind::Child);
        lemma_fields_extends(types, inner.fields@, inner_values, filled, 0, BindingKind::Flatten);
        lemma_extends_trans(attributed, texted, filled);
        lemma_extends_trans(attributed, filled, written);
        lemma_behind_stays(attributed, written, n.attributes.len() as int, name);
        lemma_fields_extends(types, fields, values, written, from + 1, BindingKind::Flatten);
        lemma_behind_stays(written, result, n.attributes.len() as int, name);
    } else {
        let written = if BindingKind::Flatten.spec_selects(fields[from].attrs) {
            field_written(types, fields[from], values[from], element, BindingKind::Flatten)
        } else {
            element
        };
        if BindingKind::Flatten.spec_selects(fields[from].attrs) {
            lemma_field_extends(types, fields[from], values, from, element, BindingKind::Flatten);
        }
        let n1 = written->Node_0;
        lemma_flatten_present(types, fields, values, n1, from + 1, i, k);
        let at = choose|at: int| n1.attributes.len() <= at && #[trigger] attribute_at(result, at, name);
        assert(n.attributes.len() <= at && attribute_at(result, at, name));
    }
}

/// Flatten merges into the parent: where a field of a record is flattened
/// and holds a struct, and a field of that struct is bound to an attribute
/// and holds a value, the node that the record is written into gains that
/// attribute itself.
pub proof fn law_flatten_merges_into_parent(
    types: Seq<TypeDescriptor>,
    fields: Seq<Field>,
    values: Seq<FieldValueView>,
    n: NodeView,
    i: int,
    k: int,
)
    requires
        0 <= i < fields.len(),
        i < values.len(),
        fields[i].attrs.flatten,
        values[i] matches FieldValueView::Required(ValueView::Struct(_)),
        0 <= fields[i].target < types.len(),
        types[fields[i].target as int] is Struct,
        0 <= k < types[fields[i].target as int]->Struct_0.fields@.len(),
        k < values[i]->Required_0->Struct_0.len(),
        types[fields[i].target as int]->Struct_0.fields@[k].attrs.attribute,
        present(values[i]->Required_0->Struct_0[k]),
    ensures
        attribute_behind(
            emit_record(types, fields, values, ElementView::Node(n)),
            n.attributes.len() as int,
            field_tag(types[fields[i].target as int]->Struct_0.fields@[k]),
        ),
{
    let element = ElementView::Node(n);
    let attributed = emit_fields(types, fields, values, element, 0, BindingKind::Attribute);
    let texted = emit_fields(types, fields, values, attributed, 0, BindingKind::Text);
    let filled = emit_fields(types, fields, values, texted, 0, BindingKind::Child);
    lemma_fields_extends(types, fields, values, element, 0, BindingKind::Attribute);
    lemma_fields_extends(types, fields, values, attributed, 0, BindingKind::Text);
    lemma_fields_extends(types, fields, values, texted, 0, BindingKind::Child);
    lemma_extends_trans(element, attributed, texted);
    lemma_extends_trans(element, texted, filled);
    let n3 = filled->Node_0;
    lemma_flatten_present(types, fields, values, n3, 0, i, k);
    let result = emit_record(types, fields, values, element);
    let name = field_tag(types[fields[i].target as int]->Struct_0.fields@[k]);
    let at = choose|at: int| n3.attributes.len() <= at && #[trigger] attribute_at(result, at, name);
    assert(n.attributes.len() <= at && attribute_at(result, at, name));
}

/// Flatten adds no element of its own: where a flattened field holds a
/// struct that is not marked as root and whose fields are all bound to
/// attributes, writing it leaves the name and the children of the node as
/// they are.
pub proof fn law_flatten_adds_no_child(types: Seq<TypeDescriptor>, field: Field, values: Seq<FieldValueView>, n: NodeView)
    requires
        0 <= field.target < types.len(),
        types[field.target as int] is Struct,
        !types[field.target as int]->Struct_0.attrs.root,
        forall|k: int|
            0 <= k < types[field.target as int]->Struct_0.fields@.len() ==> {
                let attrs = #[trigger] types[field.target as int]->Struct_0.fields@[k].attrs;
                attrs.attribute && !attrs.text && !attrs.flatten
            },
    ensures
        emit_value(types, field, ValueView::Struct(values), ElementView::Node(n), BindingKind::Flatten) matches ElementView::Node(m) && m.name
            == n.name && m.elements == n.elements,
{
    let inner = types[field.target as int]->Struct_0;
    let element = ElementView::Node(n);
    let attributed = emit_fields(types, inner.fields@, values, element, 0, BindingKind::Attribute);
    lemma_attribute_pass_keeps_content(types, inner.fields@, values, n, 0);
    lemma_pass_idle(types, inner.fields@, values, attributed, 0, BindingKind::Text);
    lemma_pass_idle(types, inner.fields@, values, attributed, 0, BindingKind::Child);
    lemma_pass_idle(types, inner.fields@, values, attributed, 0, BindingKind::Flatten);
}

} // verus!
