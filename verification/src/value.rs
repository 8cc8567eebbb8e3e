//! Records: the values that the engine reads from a tree and writes into one.

use vstd::prelude::*;

verus! {

/// A value of a bindable type.
#[derive(Debug, PartialEq, Eq)]
pub enum Value {
    /// A string.
    Text(String),
    /// An integer of an unsigned type.
    Unsigned(u128),
    /// An integer of a signed type.
    Signed(i128),
    /// A struct: its fields in declared order.
    Struct(Vec<FieldValue>),
    /// An enum: the index of the variant, and the variant's fields in
    /// declared order.
    Variant(usize, Vec<FieldValue>),
}

/// What a field holds, by its cardinality.
#[derive(Debug, PartialEq, Eq)]
pub enum FieldValue {
    Required(Value),
    Optional(Option<Value>),
    Repeated(Vec<Value>),
}

/// The mathematical value of a [`Value`].
pub enum ValueView {
    Text(Seq<char>),
    Unsigned(u128),
    Signed(i128),
    Struct(Seq<FieldValueView>),
    Variant(int, Seq<FieldValueView>),
}

/// The mathematical value of a [`FieldValue`].
pub enum FieldValueView {
    Required(ValueView),
    Optional(Option<ValueView>),
    Repeated(Seq<ValueView>),
}

/// The mathematical value of a value.
pub open spec fn value_view(v: Value) -> ValueView
    decreases v,
{
    match v {
        Value::Text(s) => ValueView::Text(s@),
        Value::Unsigned(n) => ValueView::Unsigned(n),
        Value::Signed(n) => ValueView::Signed(n),
        Value::Struct(fields) => ValueView::Struct(fields_view(fields@)),
        Value::Variant(i, fields) => ValueView::Variant(i as int, fields_view(fields@)),
    }
}

/// The mathematical value of what a field holds.
pub open spec fn field_view(f: FieldValue) -> FieldValueView
    decreases f,
{
    match f {
        FieldValue::Required(v) => FieldValueView::Required(value_view(v)),
        FieldValue::Optional(Some(v)) => FieldValueView::Optional(Some(value_view(v))),
        FieldValue::Optional(None) => FieldValueView::Optional(None),
        FieldValue::Repeated(vs) => FieldValueView::Repeated(values_view(vs@)),
    }
}

/// The mathematical values of the values, in order.
pub open spec fn values_view(vs: Seq<Value>) -> Seq<ValueView>
    decreases vs,
{
    Seq::new(vs.len(), |i: int| if 0 <= i < vs.len() { value_view(vs[i]) } else { ValueView::Unsigned(0) })
}

/// The mathematical values of what the fields hold, in order.
pub open spec fn fields_view(fs: Seq<FieldValue>) -> Seq<FieldValueView>
    decreases fs,
{
    Seq::new(fs.len(), |i: int| if 0 <= i < fs.len() { field_view(fs[i]) } else { FieldValueView::Optional(None) })
}

impl View for Value {
    type V = ValueView;

    open spec fn view(&self) -> ValueView {
        value_view(*self)
    }
}

impl View for FieldValue {
    type V = FieldValueView;

    open spec fn view(&self) -> FieldValueView {
        field_view(*self)
    }
}

/// What has been bound to a field so far.
#[derive(Debug)]
pub enum Slot {
    /// The latest value of a required or optional field.
    Single(Option<Value>),
    /// The values of a repeated field, in the order in which they came.
    Many(Vec<Value>),
}

/// The mathematical value of a [`Slot`].
pub enum SlotView {
    Single(Option<ValueView>),
    Many(Seq<ValueView>),
}

impl View for Slot {
    type V = SlotView;

    open spec fn view(&self) -> SlotView {
        match *self {
            Slot::Single(Some(v)) => SlotView::Single(Some(v@)),
            Slot::Single(None) => SlotView::Single(None),
            Slot::Many(vs) => SlotView::Many(values_view(vs@)),
        }
    }
}

/// The mathematical values of the slots, in order.
pub open spec fn slots_view(slots: Seq<Slot>) -> Seq<SlotView> {
    slots.map_values(|s: Slot| s@)
}

impl SlotView {
    /// The slot after `value` came: a repeated field gains it at the end, any
    /// other field holds it in place of what it held.
    pub open spec fn bind(self, value: ValueView) -> SlotView {
        match self {
            SlotView::Single(_) => SlotView::Single(Some(value)),
            SlotView::Many(vs) => SlotView::Many(vs.push(value)),
        }
    }
}

/// Binds `value` to the slot at index `i`.
pub(crate) fn bind_slot(slots: &mut Vec<Slot>, i: usize, value: Value)
    requires
        i < old(slots)@.len(),
    ensures
        final(slots)@.len() == old(slots)@.len(),
        slots_view(final(slots)@) == slots_view(old(slots)@).update(i as int, slots_view(old(slots)@)[i as int].bind(value@)),
{
    let ghost before = slots@[i as int];
    match &mut slots[i] {
        Slot::Single(held) => {
            *held = Some(value);
        },
        Slot::Many(values) => {
            let ghost held = values@;
            values.push(value);
            assert(values_view(values@) =~= values_view(held).push(value@));
        },
    }
    assert(slots@[i as int]@ == before@.bind(value@));
    assert(slots_view(slots@) =~= slots_view(old(slots)@).update(i as int, before@.bind(value@)));
}

} // verus!
