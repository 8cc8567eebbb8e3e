//! What serialization keeps: an element only ever gains content.

use vstd::prelude::*;
use crate::scalar::decimal;
use crate::scalar::signed_decimal;
use crate::schema::BindingKind;
use crate::schema::Field;
use crate::schema::TypeDescriptor;
use crate::se::emit_fields;
use crate::se::emit_record;
use crate::se::emit_value;
use crate::se::emit_values;
use crate::se::field_tag;
use crate::se::put_text;
use crate::se::se_value;
use crate::se::tag_name;
use crate::tree::ElementView;
use crate::tree::NameView;
use crate::tree::NodeView;
use crate::value::FieldValueView;
use crate::value::ValueView;

verus! {

/// `after` is `before` with content added: a text with more text at its end,
/// a node with more attributes and more children at the end of its lists
/// (its name may differ); anything else is unchanged.
pub open spec fn extends(before: ElementView, after: ElementView) -> bool {
    match before {
        ElementView::Text(t) => after matches ElementView::Text(u) && t.is_prefix_of(u),
        ElementView::Node(n) => after matches ElementView::Node(m) && n.attributes.is_prefix_of(m.attributes)
            && n.elements.is_prefix_of(m.elements) && m.namespace == n.namespace,
        _ => after == before,
    }
}

/// Adding content twice is adding content.
pub proof fn lemma_extends_trans(a: ElementView, b: ElementView, c: ElementView)
    requires
        extends(a, b),
        extends(b, c),
    ensures
        extends(a, c),
{
}

/// Writing a text adds content.
pub proof fn lemma_put_text_extends(element: ElementView, s: Seq<char>)
    ensures
        extends(element, put_text(element, s)),
{
}

/// Writing a value adds content.
pub proof fn lemma_se_extends(types: Seq<TypeDescriptor>, ty: int, value: ValueView, element: ElementView)
    ensures
        extends(element, se_value(types, ty, value, element)),
    decreases value, 0int,
{
    if 0 <= ty < types.len() {
        match (types[ty], value) {
            (TypeDescriptor::Text, ValueView::Text(s)) => {
                lemma_put_text_extends(element, s);
            },
            (TypeDescriptor::Number(_), ValueView::Unsigned(n)) => {
                lemma_put_text_extends(element, decimal(n as nat));
            },
            (TypeDescriptor::Number(_), ValueView::Signed(n)) => {
                lemma_put_text_extends(element, signed_decimal(n as int));
            },
            (TypeDescriptor::Struct(sd), ValueView::Struct(values)) => {
                let named = match element {
                    ElementView::Node(n) => if sd.attrs.root {
                        ElementView::Node(NodeView { name: tag_name(sd.attrs, sd.ident@, n.name), ..n })
                    } else {
                        element
                    },
                    _ => element,
                };
                lemma_record_extends(types, sd.fields@, values, named);
                lemma_extends_trans(element, named, emit_record(types, sd.fields@, values, named));
            },
            (TypeDescriptor::Enum(ed), ValueView::Variant(v, values)) => {
                if 0 <= v < ed.variants@.len() {
                    match element {
                        ElementView::Node(n) => {
                            let named = ElementView::Node(
                                NodeView {
                                    name: tag_name(ed.variants@[v].attrs, ed.variants@[v].ident@, n.name),
                                    ..n
                                },
                            );
                            lemma_record_extends(types, ed.variants@[v].fields@, values, named);
                            lemma_extends_trans(element, named, emit_record(types, ed.variants@[v].fields@, values, named));
                        },
                        _ => {},
                    }
                }
            },
            _ => {},
        }
    }
}

/// Writing the fields of a record adds content.
pub proof fn lemma_record_extends(types: Seq<TypeDescriptor>, fields: Seq<Field>, values: Seq<FieldValueView>, element: ElementView)
    ensures
        extends(element, emit_record(types, fields, values, element)),
    decreases values, values.len() + 1,
{
    let attributed = emit_fields(types, fields, values, element, 0, BindingKind::Attribute);
    let texted = emit_fields(types, fields, values, attributed, 0, BindingKind::Text);
    let filled = emit_fields(types, fields, values, texted, 0, BindingKind::Child);
    let flattened = emit_fields(types, fields, values, filled, 0, BindingKind::Flatten);
    lemma_fields_extends(types, fields, values, element, 0, BindingKind::Attribute);
    lemma_fields_extends(types, fields, values, attributed, 0, BindingKind::Text);
    lemma_fields_extends(types, fields, values, texted, 0, BindingKind::Child);
    lemma_fields_extends(types, fields, values, filled, 0, BindingKind::Flatten);
    lemma_extends_trans(element, attributed, texted);
    lemma_extends_trans(element, texted, filled);
    lemma_extends_trans(element, filled, flattened);
}

/// A pass over the fields adds content.
pub proof fn lemma_fields_extends(
    types: Seq<TypeDescriptor>,
    fields: Seq<Field>,
    values: Seq<FieldValueView>,
    element: ElementView,
    from: int,
    pass: BindingKind,
)
    ensures
        extends(element, emit_fields(types, fields, values, element, from, pass)),
    decreases values, values.len() - from,
{
    if from < 0 || from >= values.len() || from >= fields.len() {
    } else if !pass.spec_selects(fields[from].attrs) {
        lemma_fields_extends(types, fields, values, element, from + 1, pass);
    } else {
        let written = field_written(types, fields[from], values[from], element, pass);
        lemma_field_extends(types, fields[from], values, from, element, pass);
        lemma_fields_extends(types, fields, values, written, from + 1, pass);
        lemma_extends_trans(element, written, emit_fields(types, fields, values, written, from + 1, pass));
    }
}

/// The element after the values of one field are written.
pub open spec fn field_written(types: Seq<TypeDescriptor>, field: Field, value: FieldValueView, element: ElementView, pass: BindingKind) -> ElementView {
    match value {
        FieldValueView::Required(v) => emit_value(types, field, v, element, pass),
        FieldValueView::Optional(Some(v)) => emit_value(types, field, v, element, pass),
        FieldValueView::Optional(None) => element,
        FieldValueView::Repeated(vs) => emit_values(types, field, vs, element, 0, pass),
    }
}

/// Writing the values of the field at index `at` adds content.
pub proof fn lemma_field_extends(types: Seq<TypeDescriptor>, field: Field, values: Seq<FieldValueView>, at: int, element: ElementView, pass: BindingKind)
    requires
        0 <= at < values.len(),
    ensures
        extends(element, field_written(types, field, values[at], element, pass)),
    decreases values, 0int,
{
    match values[at] {
        FieldValueView::Required(v) => lemma_value_extends(types, field, v, element, pass),
        FieldValueView::Optional(Some(v)) => lemma_value_extends(types, field, v, element, pass),
        FieldValueView::Optional(None) => {},
        FieldValueView::Repeated(vs) => lemma_values_extends(types, field, vs, element, 0, pass),
    }
}

/// Writing the values of a repeated field adds content.
pub proof fn lemma_values_extends(types: Seq<TypeDescriptor>, field: Field, vs: Seq<ValueView>, element: ElementView, from: int, pass: BindingKind)
    ensures
        extends(element, emit_values(types, field, vs, element, from, pass)),
    decreases vs, vs.len() - from,
{
    if 0 <= from < vs.len() {
        let written = emit_value(types, field, vs[from], element, pass);
        lemma_value_extends(types, field, vs[from], element, pass);
        lemma_values_extends(types, field, vs, written, from + 1, pass);
        lemma_extends_trans(element, written, emit_values(types, field, vs, written, from + 1, pass));
    }
}

/// Writing one value of a field adds content.
pub proof fn lemma_value_extends(types: Seq<TypeDescriptor>, field: Field, v: ValueView, element: ElementView, pass: BindingKind)
    ensures
        extends(element, emit_value(types, field, v, element, pass)),
    decreases v, 1int,
{
    match pass {
        BindingKind::Flatten => lemma_se_extends(types, field.target as int, v, element),
        _ => {},
    }
}

/// The field holds a value: it is required, or optional and not empty.
pub open spec fn present(value: FieldValueView) -> bool {
    value is Required || value matches FieldValueView::Optional(Some(_))
}

/// The attribute at index `at` of the element, a node, is named `name`.
pub open spec fn attribute_at(element: ElementView, at: int, name: NameView) -> bool {
    element matches ElementView::Node(m) && 0 <= at < m.attributes.len() && m.attributes[at].name == name
}

/// The element is a node with an attribute named `name` at index `from` or
/// behind it.
pub open spec fn attribute_behind(element: ElementView, from: int, name: NameView) -> bool {
    exists|at: int| from <= at && #[trigger] attribute_at(element, at, name)
}

/// The element is a node with an attribute named `first` at index `from` or
/// behind it, and one named `second` behind that.
pub open spec fn attributes_in_order(element: ElementView, from: int, first: NameView, second: NameView) -> bool {
    exists|p: int, q: int| from <= p < q && #[trigger] attribute_at(element, p, first) && #[trigger] attribute_at(element, q, second)
}

/// Content that is added leaves the attributes that are there in place.
pub proof fn lemma_attribute_stays(before: ElementView, after: ElementView, at: int, name: NameView)
    requires
        extends(before, after),
        attribute_at(before, at, name),
    ensures
        attribute_at(after, at, name),
{
    let n = before->Node_0;
    let m = after->Node_0;
    assert(m.attributes.subrange(0, n.attributes.len() as int)[at] == m.attributes[at]);
}

/// As an attribute, a value adds one attribute with the field's name to a
/// node, at the end of its attributes.
pub proof fn lemma_attribute_written(types: Seq<TypeDescriptor>, field: Field, v: ValueView, n: NodeView)
    ensures
        attribute_at(emit_value(types, field, v, ElementView::Node(n), BindingKind::Attribute), n.attributes.len() as int, field_tag(field)),
        extends(ElementView::Node(n), emit_value(types, field, v, ElementView::Node(n), BindingKind::Attribute)),
{
    lemma_se_extends(types, field.target as int, v, ElementView::Text(Seq::empty()));
}

/// The attribute pass from index `from` on leaves a node with an attribute
/// for the field at index `j`, where that field is bound to an attribute
/// and holds a value.
pub proof fn lemma_attribute_present(
    types: Seq<TypeDescriptor>,
    fields: Seq<Field>,
    values: Seq<FieldValueView>,
    n: NodeView,
    from: int,
    j: int,
)
    requires
        0 <= from <= j < fields.len(),
        j < values.len(),
        fields[j].attrs.attribute,
        present(values[j]),
    ensures
        extends(ElementView::Node(n), emit_fields(types, fields, values, ElementView::Node(n), from, BindingKind::Attribute)),
        attribute_behind(
            emit_fields(types, fields, values, ElementView::Node(n), from, BindingKind::Attribute),
            n.attributes.len() as int,
            field_tag(fields[j]),
        ),
    decreases j - from,
{
    let element = ElementView::Node(n);
    let result = emit_fields(types, fields, values, element, from, BindingKind::Attribute);
    lemma_fields_extends(types, fields, values, element, from, BindingKind::Attribute);
    if from == j {
        let v = match values[j] {
            FieldValueView::Required(v) => v,
            FieldValueView::Optional(Some(v)) => v,
            _ => arbitrary(),
        };
        let written = emit_value(types, fields[j], v, element, BindingKind::Attribute);
        lemma_attribute_written(types, fields[j], v, n);
        lemma_fields_extends(types, fields, values, written, from + 1, BindingKind::Attribute);
        lemma_attribute_stays(written, result, n.attributes.len() as int, field_tag(fields[j]));
    } else {
        let written = if BindingKind::Attribute.spec_selects(fields[from].attrs) {
            field_written(types, fields[from], values[from], element, BindingKind::Attribute)
        } else {
            element
        };
        if BindingKind::Attribute.spec_selects(fields[from].attrs) {
            lemma_field_extends(types, fields[from], values, from, element, BindingKind::Attribute);
        }
        let n1 = written->Node_0;
        lemma_attribute_present(types, fields, values, n1, from + 1, j);
        let at = choose|at: int| n1.attributes.len() <= at && #[trigger] attribute_at(result, at, field_tag(fields[j]));
        assert(n.attributes.len() <= at && attribute_at(result, at, field_tag(fields[j])));
    }
}

/// The attribute pass from index `from` on leaves a node in which the
/// attribute of the field at index `i` stands before that of the field at
/// index `j`, where `i` is less than `j` and both fields are bound to
/// attributes and hold values.
pub proof fn lemma_attribute_order(
    types: Seq<TypeDescriptor>,
    fields: Seq<Field>,
    values: Seq<FieldValueView>,
    n: NodeView,
    from: int,
    i: int,
    j: int,
)
    requires
        0 <= from <= i < j < fields.len(),
        j < values.len(),
        fields[i].attrs.attribute,
        fields[j].attrs.attribute,
        present(values[i]),
        present(values[j]),
    ensures
        attributes_in_order(
            emit_fields(types, fields, values, ElementView::Node(n), from, BindingKind::Attribute),
            n.attributes.len() as int,
            field_tag(fields[i]),
            field_tag(fields[j]),
        ),
    decreases i - from,
{
    let element = ElementView::Node(n);
    let result = emit_fields(types, fields, values, element, from, BindingKind::Attribute);
    if from == i {
        let v = match values[i] {
            FieldValueView::Required(v) => v,
            FieldValueView::Optional(Some(v)) => v,
            _ => arbitrary(),
        };
        let written = emit_value(types, fields[i], v, element, BindingKind::Attribute);
        lemma_attribute_written(types, fields[i], v, n);
        let n1 = written->Node_0;
        lemma_attribute_present(types, fields, values, n1, from + 1, j);
        let p = n.attributes.len() as int;
        lemma_attribute_stays(written, result, p, field_tag(fields[i]));
        let q = choose|q: int| n1.attributes.len() <= q && #[trigger] attribute_at(result, q, field_tag(fields[j]));
        assert(p < q && attribute_at(result, p, field_tag(fields[i])) && attribute_at(result, q, field_tag(fields[j])));
    } else {
        let written = if BindingKind::Attribute.spec_selects(fields[from].attrs) {
            field_written(types, fields[from], values[from], element, BindingKind::Attribute)
        } else {
            element
        };
        if BindingKind::Attribute.spec_selects(fields[from].attrs) {
            lemma_field_extends(types, fields[from], values, from, element, BindingKind::Attribute);
        }
        let n1 = written->Node_0;
        lemma_attribute_order(types, fields, values, n1, from + 1, i, j);
        let (p, q) = choose|p: int, q: int|
            n1.attributes.len() <= p < q && #[trigger] attribute_at(result, p, field_tag(fields[i])) && #[trigger] attribute_at(
                result,
                q,
                field_tag(fields[j]),
            );
        assert(n.attributes.len() <= p < q && attribute_at(result, p, field_tag(fields[i])) && attribute_at(result, q, field_tag(fields[j])));
    }
}

/// Content that is added leaves attributes that stand in order in order.
pub proof fn lemma_order_stays(before: ElementView, after: ElementView, from: int, first: NameView, second: NameView)
    requires
        extends(before, after),
        attributes_in_order(before, from, first, second),
    ensures
        attributes_in_order(after, from, first, second),
{
    let (p, q) = choose|p: int, q: int| from <= p < q && #[trigger] attribute_at(before, p, first) && #[trigger] attribute_at(before, q, second);
    lemma_attribute_stays(before, after, p, first);
    lemma_attribute_stays(before, after, q, second);
}

/// Content that is added leaves an attribute that is there in place.
pub proof fn lemma_behind_stays(before: ElementView, after: ElementView, from: int, name: NameView)
    requires
        extends(before, after),
        attribute_behind(before, from, name),
    ensures
        attribute_behind(after, from, name),
{
    let at = choose|at: int| from <= at && #[trigger] attribute_at(before, at, name);
    lemma_attribute_stays(before, after, at, name);
}

/// A pass that selects no field from index `from` on leaves the element as
/// it is.
pub proof fn lemma_pass_idle(
    types: Seq<TypeDescriptor>,
    fields: Seq<Field>,
    values: Seq<FieldValueView>,
    element: ElementView,
    from: int,
    pass: BindingKind,
)
    requires
        0 <= from,
        forall|k: int| from <= k < fields.len() ==> !pass.spec_selects(#[trigger] fields[k].attrs),
    ensures
        emit_fields(types, fields, values, element, from, pass) == element,
    decreases values.len() - from,
{
    if from < values.len() && from < fields.len() {
        lemma_pass_idle(types, fields, values, element, from + 1, pass);
    }
}

/// `after` is a node with the name and the children of the node `before`.
pub open spec fn same_content(before: ElementView, after: ElementView) -> bool {
    before is Node && after is Node && after->Node_0.name == before->Node_0.name && after->Node_0.elements
        == before->Node_0.elements
}

/// Written as attributes, the values of a repeated field leave the name and
/// the children of a node as they are.
pub proof fn lemma_attribute_values_keep_content(types: Seq<TypeDescriptor>, field: Field, vs: Seq<ValueView>, n: NodeView, from: int)
    ensures
        same_content(ElementView::Node(n), emit_values(types, field, vs, ElementView::Node(n), from, BindingKind::Attribute)),
    decreases vs.len() - from,
{
    if 0 <= from < vs.len() {
        let written = emit_value(types, field, vs[from], ElementView::Node(n), BindingKind::Attribute);
        lemma_attribute_values_keep_content(types, field, vs, written->Node_0, from + 1);
    }
}

/// The attribute pass leaves the name and the children of a node as they
/// are.
pub proof fn lemma_attribute_pass_keeps_content(
    types: Seq<TypeDescriptor>,
    fields: Seq<Field>,
    values: Seq<FieldValueView>,
    n: NodeView,
    from: int,
)
    ensures
        same_content(ElementView::Node(n), emit_fields(types, fields, values, ElementView::Node(n), from, BindingKind::Attribute)),
    decreases values.len() - from,
{
    let element = ElementView::Node(n);
    if from < 0 || from >= values.len() || from >= fields.len() {
    } else if !BindingKind::Attribute.spec_selects(fields[from].attrs) {
        lemma_attribute_pass_keeps_content(types, fields, values, n, from + 1);
    } else {
        let written = field_written(types, fields[from], values[from], element, BindingKind::Attribute);
        match values[from] {
            FieldValueView::Repeated(vs) => lemma_attribute_values_keep_content(types, fields[from], vs, n, 0),
            _ => {},
        }
        lemma_attribute_pass_keeps_content(types, fields, values, written->Node_0, from + 1);
    }
}

} // verus!
