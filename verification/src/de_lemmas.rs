//! What deserialization leaves alone: a field's slot changes only where
//! something is bound to that field.

use vstd::prelude::*;
use crate::de::ErrorView;
use crate::de::attribute_scan;
use crate::de::attributes_scan;
use crate::de::bind_result;
use crate::de::child_scan;
use crate::de::children_scan;
use crate::de::de_node;
use crate::de::de_text;
use crate::de::finalize;
use crate::de::finalize_field;
use crate::de::flatten_scan;
use crate::de::init_slot;
use crate::de::init_slots;
use crate::de::node_slots;
use crate::de::text_scan;
use crate::schema::Field;
use crate::schema::Shape;
use crate::schema::TypeDescriptor;
use crate::tree::AttributeView;
use crate::tree::ElementView;
use crate::tree::NodeView;
use crate::value::FieldValueView;
use crate::value::SlotView;
use crate::value::ValueView;

verus! {

/// The scan of a text leaves the slot of a field alone that it does not
/// select.
pub proof fn lemma_text_scan_frame(
    types: Seq<TypeDescriptor>,
    owner: int,
    fields: Seq<Field>,
    s: Seq<char>,
    slots: Seq<SlotView>,
    from: int,
    flatten: bool,
    i: int,
)
    requires
        0 <= from,
        0 <= i < fields.len(),
        slots.len() == fields.len(),
        i < from || !(if flatten {
            fields[i].attrs.flatten
        } else {
            fields[i].attrs.text
        }),
        text_scan(types, owner, fields, s, slots, from, flatten) is Ok,
    ensures
        text_scan(types, owner, fields, s, slots, from, flatten)->Ok_0.len() == slots.len(),
        text_scan(types, owner, fields, s, slots, from, flatten)->Ok_0[i] == slots[i],
    decreases fields.len() - from,
{
    if from < fields.len() {
        let f = fields[from];
        if (if flatten {
            f.attrs.flatten
        } else {
            f.attrs.text
        }) && f.target < owner {
            let slot = bind_result(f, slots[from], de_text(types, f.target as int, s))->Ok_0;
            lemma_text_scan_frame(types, owner, fields, s, slots.update(from, slot), from + 1, flatten, i);
        } else {
            lemma_text_scan_frame(types, owner, fields, s, slots, from + 1, flatten, i);
        }
    }
}

/// The scan of the flattened fields leaves the slot of a field alone that
/// is not flattened.
pub proof fn lemma_flatten_scan_frame(
    types: Seq<TypeDescriptor>,
    owner: int,
    fields: Seq<Field>,
    node: NodeView,
    slots: Seq<SlotView>,
    from: int,
    i: int,
)
    requires
        0 <= from,
        0 <= i < fields.len(),
        slots.len() == fields.len(),
        i < from || !fields[i].attrs.flatten,
        flatten_scan(types, owner, fields, node, slots, from) is Ok,
    ensures
        flatten_scan(types, owner, fields, node, slots, from)->Ok_0.len() == slots.len(),
        flatten_scan(types, owner, fields, node, slots, from)->Ok_0[i] == slots[i],
    decreases fields.len() - from,
{
    if from < fields.len() {
        let f = fields[from];
        if f.attrs.flatten && f.target < owner {
            let slot = bind_result(f, slots[from], de_node(types, f.target as int, node))->Ok_0;
            lemma_flatten_scan_frame(types, owner, fields, node, slots.update(from, slot), from + 1, i);
        } else {
            lemma_flatten_scan_frame(types, owner, fields, node, slots, from + 1, i);
        }
    }
}

/// The scan of one attribute leaves the slot of a field alone that the
/// attribute does not fit.
pub proof fn lemma_attribute_scan_frame(
    types: Seq<TypeDescriptor>,
    fields: Seq<Field>,
    attr: AttributeView,
    slots: Seq<SlotView>,
    from: int,
    i: int,
)
    requires
        0 <= from,
        0 <= i < fields.len(),
        slots.len() == fields.len(),
        i < from || !(fields[i].attrs.attribute && fields[i].spec_matches(attr.name)),
        attribute_scan(types, fields, attr, slots, from) is Ok,
    ensures
        attribute_scan(types, fields, attr, slots, from)->Ok_0.len() == slots.len(),
        attribute_scan(types, fields, attr, slots, from)->Ok_0[i] == slots[i],
    decreases fields.len() - from,
{
    if from < fields.len() {
        let f = fields[from];
        if f.attrs.attribute && f.spec_matches(attr.name) {
            let slot = bind_result(f, slots[from], de_text(types, f.target as int, attr.value))->Ok_0;
            lemma_attribute_scan_frame(types, fields, attr, slots.update(from, slot), from + 1, i);
        } else {
            lemma_attribute_scan_frame(types, fields, attr, slots, from + 1, i);
        }
    }
}

/// No attribute from index `from` on fits the field.
pub open spec fn no_attribute_fits(field: Field, attributes: Seq<AttributeView>, from: int) -> bool {
    forall|j: int| from <= j < attributes.len() ==> !(field.attrs.attribute && field.spec_matches(#[trigger] attributes[j].name))
}

/// No child node from index `from` on fits the field.
pub open spec fn no_child_fits(field: Field, elements: Seq<ElementView>, from: int) -> bool {
    forall|j: int|
        from <= j < elements.len() ==> !((#[trigger] elements[j]) is Node && field.attrs.spec_is_child() && field.spec_matches(
            elements[j]->Node_0.name,
        ))
}

/// The scan of the attributes leaves the slot of a field alone that no
/// attribute fits.
pub proof fn lemma_attributes_scan_frame(
    types: Seq<TypeDescriptor>,
    fields: Seq<Field>,
    attributes: Seq<AttributeView>,
    slots: Seq<SlotView>,
    from: int,
    i: int,
)
    requires
        0 <= from,
        0 <= i < fields.len(),
        slots.len() == fields.len(),
        no_attribute_fits(fields[i], attributes, from),
        attributes_scan(types, fields, attributes, slots, from) is Ok,
    ensures
        attributes_scan(types, fields, attributes, slots, from)->Ok_0.len() == slots.len(),
        attributes_scan(types, fields, attributes, slots, from)->Ok_0[i] == slots[i],
    decreases attributes.len() - from,
{
    if from < attributes.len() {
        assert(!(fields[i].attrs.attribute && fields[i].spec_matches(attributes[from].name)));
        lemma_attribute_scan_frame(types, fields, attributes[from], slots, 0, i);
        let bound = attribute_scan(types, fields, attributes[from], slots, 0)->Ok_0;
        lemma_attributes_scan_frame(types, fields, attributes, bound, from + 1, i);
    }
}

/// The scan of one child leaves the slot of a field alone that the child
/// does not fit.
pub proof fn lemma_child_scan_frame(
    types: Seq<TypeDescriptor>,
    owner: int,
    fields: Seq<Field>,
    node: NodeView,
    child: int,
    slots: Seq<SlotView>,
    from: int,
    i: int,
)
    requires
        0 <= from,
        0 <= i < fields.len(),
        slots.len() == fields.len(),
        0 <= child < node.elements.len(),
        i < from || !(node.elements[child] is Node && fields[i].attrs.spec_is_child() && fields[i].spec_matches(
            node.elements[child]->Node_0.name,
        )),
        child_scan(types, owner, fields, node, child, slots, from) is Ok,
    ensures
        child_scan(types, owner, fields, node, child, slots, from)->Ok_0.len() == slots.len(),
        child_scan(types, owner, fields, node, child, slots, from)->Ok_0[i] == slots[i],
    decreases fields.len() - from,
{
    if from < fields.len() {
        let f = fields[from];
        match node.elements[child] {
            ElementView::Node(c) => {
                if f.attrs.spec_is_child() && f.spec_matches(c.name) {
                    let slot = bind_result(f, slots[from], de_node(types, f.target as int, c))->Ok_0;
                    lemma_child_scan_frame(types, owner, fields, node, child, slots.update(from, slot), from + 1, i);
                } else {
                    lemma_child_scan_frame(types, owner, fields, node, child, slots, from + 1, i);
                }
            },
            _ => {},
        }
    }
}

/// The scan of the children leaves the slot of a field alone that no child
/// node fits.
pub proof fn lemma_children_scan_frame(
    types: Seq<TypeDescriptor>,
    owner: int,
    fields: Seq<Field>,
    node: NodeView,
    slots: Seq<SlotView>,
    from: int,
    i: int,
)
    requires
        0 <= from,
        0 <= i < fields.len(),
        slots.len() == fields.len(),
        no_child_fits(fields[i], node.elements, from),
        children_scan(types, owner, fields, node, slots, from) is Ok,
    ensures
        children_scan(types, owner, fields, node, slots, from)->Ok_0.len() == slots.len(),
        children_scan(types, owner, fields, node, slots, from)->Ok_0[i] == slots[i],
    decreases node.elements.len() - from,
{
    if from < node.elements.len() {
        assert(!(node.elements[from] is Node && fields[i].attrs.spec_is_child() && fields[i].spec_matches(
            node.elements[from]->Node_0.name,
        )));
        lemma_child_scan_frame(types, owner, fields, node, from, slots, 0, i);
        let bound = child_scan(types, owner, fields, node, from, slots, 0)->Ok_0;
        lemma_children_scan_frame(types, owner, fields, node, bound, from + 1, i);
    }
}

/// A field that is bound neither to the text nor flattened, and that no
/// attribute and no child node fits, has an empty slot after the node is
/// read.
pub proof fn lemma_unbound(types: Seq<TypeDescriptor>, owner: int, fields: Seq<Field>, node: NodeView, i: int)
    requires
        0 <= i < fields.len(),
        !fields[i].attrs.text,
        !fields[i].attrs.flatten,
        no_attribute_fits(fields[i], node.attributes, 0),
        no_child_fits(fields[i], node.elements, 0),
        node_slots(types, owner, fields, node) is Ok,
    ensures
        node_slots(types, owner, fields, node)->Ok_0.len() == fields.len(),
        node_slots(types, owner, fields, node)->Ok_0[i] == init_slot(fields[i]),
{
    let initial = init_slots(fields);
    lemma_text_scan_frame(types, owner, fields, node.text(), initial, 0, false, i);
    let captured = text_scan(types, owner, fields, node.text(), initial, 0, false)->Ok_0;
    lemma_flatten_scan_frame(types, owner, fields, node, captured, 0, i);
    let flattened = flatten_scan(types, owner, fields, node, captured, 0)->Ok_0;
    lemma_attributes_scan_frame(types, fields, node.attributes, flattened, 0, i);
    let attributed = attributes_scan(types, fields, node.attributes, flattened, 0)->Ok_0;
    lemma_children_scan_frame(types, owner, fields, node, attributed, 0, i);
}

/// Where every field can be closed, the record has one value for each.
pub proof fn lemma_finalize_len(fields: Seq<Field>, slots: Seq<SlotView>, from: int, done: Seq<FieldValueView>)
    requires
        0 <= from <= fields.len(),
        finalize(fields, slots, from, done) is Ok,
    ensures
        finalize(fields, slots, from, done)->Ok_0.len() == done.len() + fields.len() - from,
    decreases fields.len() - from,
{
    if from < fields.len() {
        let v = finalize_field(fields[from], slots[from])->Ok_0;
        lemma_finalize_len(fields, slots, from + 1, done.push(v));
    }
}

/// Where every field can be closed, each field of the record is what its
/// slot closes to.
pub proof fn lemma_finalize_ok(fields: Seq<Field>, slots: Seq<SlotView>, from: int, done: Seq<FieldValueView>, k: int)
    requires
        0 <= from <= k < fields.len(),
        finalize(fields, slots, from, done) is Ok,
    ensures
        finalize(fields, slots, from, done)->Ok_0.len() == done.len() + fields.len() - from,
        finalize_field(fields[k], slots[k]) == Ok::<FieldValueView, ErrorView>(
            finalize(fields, slots, from, done)->Ok_0[done.len() + k - from],
        ),
    decreases fields.len() - from,
{
    let v = finalize_field(fields[from], slots[from])->Ok_0;
    lemma_finalize_len(fields, slots, from, done);
    if k > from {
        lemma_finalize_ok(fields, slots, from + 1, done.push(v), k);
    } else {
        lemma_finalize_keeps(fields, slots, from + 1, done.push(v), done.len() as int);
    }
}

/// Closing the fields keeps what was closed before.
pub proof fn lemma_finalize_keeps(fields: Seq<Field>, slots: Seq<SlotView>, from: int, done: Seq<FieldValueView>, at: int)
    requires
        0 <= from,
        0 <= at < done.len(),
        finalize(fields, slots, from, done) is Ok,
    ensures
        finalize(fields, slots, from, done)->Ok_0.len() >= done.len(),
        finalize(fields, slots, from, done)->Ok_0[at] == done[at],
    decreases fields.len() - from,
{
    if from < fields.len() {
        let v = finalize_field(fields[from], slots[from])->Ok_0;
        lemma_finalize_keeps(fields, slots, from + 1, done.push(v), at);
    }
}

/// Where a field cannot be closed, the record cannot: the first field that
/// cannot be closed is reported as missing.
pub proof fn lemma_finalize_err(fields: Seq<Field>, slots: Seq<SlotView>, from: int, done: Seq<FieldValueView>, i: int)
    requires
        0 <= from <= i < fields.len(),
        finalize_field(fields[i], slots[i]) is Err,
    ensures
        finalize(fields, slots, from, done) is Err,
        exists|k: int| from <= k <= i && finalize(fields, slots, from, done) == Err::<Seq<FieldValueView>, ErrorView>(
            ErrorView::MissingField(#[trigger] fields[k].spec_field_name()),
        ),
    decreases i - from,
{
    match finalize_field(fields[from], slots[from]) {
        Err(e) => {
            assert(e == ErrorView::MissingField(fields[from].spec_field_name()));
        },
        Ok(v) => {
            lemma_finalize_err(fields, slots, from + 1, done.push(v), i);
            let k = choose|k: int| from + 1 <= k <= i && finalize(fields, slots, from + 1, done.push(v)) == Err::<Seq<FieldValueView>, ErrorView>(
                ErrorView::MissingField(#[trigger] fields[k].spec_field_name()),
            );
            assert(from <= k <= i);
        },
    }
}

/// The values that the child nodes from index `from` on give that fit the
/// field, in document order.
pub open spec fn matched_values(types: Seq<TypeDescriptor>, field: Field, elements: Seq<ElementView>, from: int) -> Seq<ValueView>
    decreases elements.len() - from,
{
    if from < 0 || from >= elements.len() {
        Seq::empty()
    } else {
        match elements[from] {
            ElementView::Node(c) => if field.spec_matches(c.name) {
                match de_node(types, field.target as int, c) {
                    Ok(v) => seq![v] + matched_values(types, field, elements, from + 1),
                    Err(_) => matched_values(types, field, elements, from + 1),
                }
            } else {
                matched_values(types, field, elements, from + 1)
            },
            _ => matched_values(types, field, elements, from + 1),
        }
    }
}

/// The slot of a repeated field that is bound to child elements, after one
/// child is scanned: with the child's value at its end where the child is a
/// node that fits the field, and as before otherwise.
pub proof fn lemma_child_scan_binds(
    types: Seq<TypeDescriptor>,
    owner: int,
    fields: Seq<Field>,
    node: NodeView,
    child: int,
    slots: Seq<SlotView>,
    from: int,
    i: int,
)
    requires
        0 <= from <= i < fields.len(),
        slots.len() == fields.len(),
        0 <= child < node.elements.len(),
        fields[i].attrs.spec_is_child(),
        fields[i].spec_shape() == Shape::Repeated,
        child_scan(types, owner, fields, node, child, slots, from) is Ok,
    ensures
        child_scan(types, owner, fields, node, child, slots, from)->Ok_0.len() == slots.len(),
        child_scan(types, owner, fields, node, child, slots, from)->Ok_0[i] == match node.elements[child] {
            ElementView::Node(c) => if fields[i].spec_matches(c.name) {
                slots[i].bind(de_node(types, fields[i].target as int, c)->Ok_0)
            } else {
                slots[i]
            },
            _ => slots[i],
        },
        node.elements[child] is Node && fields[i].spec_matches(node.elements[child]->Node_0.name) ==> de_node(
            types,
            fields[i].target as int,
            node.elements[child]->Node_0,
        ) is Ok,
    decreases fields.len() - from,
{
    let f = fields[from];
    match node.elements[child] {
        ElementView::Node(c) => {
            if f.attrs.spec_is_child() && f.spec_matches(c.name) {
                let slot = bind_result(f, slots[from], de_node(types, f.target as int, c))->Ok_0;
                if from == i {
                    lemma_child_scan_frame(types, owner, fields, node, child, slots.update(from, slot), from + 1, i);
                } else {
                    lemma_child_scan_binds(types, owner, fields, node, child, slots.update(from, slot), from + 1, i);
                }
            } else {
                if from == i {
                    lemma_child_scan_frame(types, owner, fields, node, child, slots, from + 1, i);
                } else {
                    lemma_child_scan_binds(types, owner, fields, node, child, slots, from + 1, i);
                }
            }
        },
        _ => {},
    }
}

/// The slot of a repeated field that is bound to child elements, after the
/// children from index `from` on are scanned: what it held, then the values
/// of the child nodes that fit the field, in document order.
pub proof fn lemma_children_collect(
    types: Seq<TypeDescriptor>,
    owner: int,
    fields: Seq<Field>,
    node: NodeView,
    slots: Seq<SlotView>,
    from: int,
    i: int,
)
    requires
        0 <= from,
        0 <= i < fields.len(),
        slots.len() == fields.len(),
        fields[i].attrs.spec_is_child(),
        fields[i].spec_shape() == Shape::Repeated,
        slots[i] is Many,
        children_scan(types, owner, fields, node, slots, from) is Ok,
    ensures
        children_scan(types, owner, fields, node, slots, from)->Ok_0.len() == slots.len(),
        children_scan(types, owner, fields, node, slots, from)->Ok_0[i] == SlotView::Many(
            slots[i]->Many_0 + matched_values(types, fields[i], node.elements, from),
        ),
    decreases node.elements.len() - from,
{
    let held = slots[i]->Many_0;
    if from < node.elements.len() {
        lemma_child_scan_binds(types, owner, fields, node, from, slots, 0, i);
        let bound = child_scan(types, owner, fields, node, from, slots, 0)->Ok_0;
        lemma_children_collect(types, owner, fields, node, bound, from + 1, i);
        let rest = matched_values(types, fields[i], node.elements, from + 1);
        assert(bound[i]->Many_0 + rest =~= held + matched_values(types, fields[i], node.elements, from)) by {
            match node.elements[from] {
                ElementView::Node(c) => {
                    if fields[i].spec_matches(c.name) {
                        let v = de_node(types, fields[i].target as int, c)->Ok_0;
                        assert(held.push(v) + rest =~= held + (seq![v] + rest));
                    }
                },
                _ => {},
            }
        }
    } else {
        assert(held + matched_values(types, fields[i], node.elements, from) =~= held);
    }
}

} // verus!
