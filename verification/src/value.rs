//! The values that decoding produces.

use vstd::prelude::*;

verus! {

/// A decoded value.
#[derive(Debug, PartialEq, Eq)]
pub enum Value {
    Bool(bool),
    U8(u8),
    U16(u16),
    U32(u32),
    U64(u64),
    U128(u128),
    I8(i8),
    I16(i16),
    I32(i32),
    I64(i64),
    I128(i128),
    Str(String),
    Bytes(Vec<u8>),
    Optional(Option<Box<Value>>),
    /// The content of a unit and of a named type without content.
    Unit,
    /// The elements of a sequence.
    Sequence(Vec<Value>),
    /// The fields of a tuple or of a named struct, in order.
    Tuple(Vec<Value>),
    /// The pairs of a map, in the order of the input.
    Mapping(Vec<(Value, Value)>),
    /// The index of an enum's variant and the content of that variant.
    Variant(u32, Box<Value>),
}

/// A [`Value`] as mathematics: texts are sequences of characters, and
/// collections are sequences.
pub enum SpecValue {
    Bool(bool),
    U8(u8),
    U16(u16),
    U32(u32),
    U64(u64),
    U128(u128),
    I8(i8),
    I16(i16),
    I32(i32),
    I64(i64),
    I128(i128),
    Str(Seq<char>),
    Bytes(Seq<u8>),
    Optional(Option<Box<SpecValue>>),
    Unit,
    Sequence(Seq<SpecValue>),
    Tuple(Seq<SpecValue>),
    Mapping(Seq<(SpecValue, SpecValue)>),
    Variant(u32, Box<SpecValue>),
}

impl View for Value {
    type V = SpecValue;

    open spec fn view(&self) -> SpecValue
        decreases self,
    {
        match self {
            Value::Bool(b) => SpecValue::Bool(*b),
            Value::U8(n) => SpecValue::U8(*n),
            Value::U16(n) => SpecValue::U16(*n),
            Value::U32(n) => SpecValue::U32(*n),
            Value::U64(n) => SpecValue::U64(*n),
            Value::U128(n) => SpecValue::U128(*n),
            Value::I8(n) => SpecValue::I8(*n),
            Value::I16(n) => SpecValue::I16(*n),
            Value::I32(n) => SpecValue::I32(*n),
            Value::I64(n) => SpecValue::I64(*n),
            Value::I128(n) => SpecValue::I128(*n),
            Value::Str(text) => SpecValue::Str(text@),
            Value::Bytes(bytes) => SpecValue::Bytes(bytes@),
            Value::Optional(None) => SpecValue::Optional(None),
            Value::Optional(Some(inner)) => SpecValue::Optional(Some(Box::new((**inner)@))),
            Value::Unit => SpecValue::Unit,
            Value::Sequence(items) => SpecValue::Sequence(values_view(items@)),
            Value::Tuple(items) => SpecValue::Tuple(values_view(items@)),
            Value::Mapping(pairs) => SpecValue::Mapping(pairs_view(pairs@)),
            Value::Variant(index, content) => SpecValue::Variant(*index, Box::new((**content)@)),
        }
    }
}

/// The views of `items`, in order.
pub open spec fn values_view(items: Seq<Value>) -> Seq<SpecValue>
    decreases items,
{
    if items.len() == 0 {
        Seq::empty()
    } else {
        values_view(items.drop_last()).push(items.last()@)
    }
}

/// The views of `pairs`, in order.
pub open spec fn pairs_view(pairs: Seq<(Value, Value)>) -> Seq<(SpecValue, SpecValue)>
    decreases pairs,
{
    if pairs.len() == 0 {
        Seq::empty()
    } else {
        pairs_view(pairs.drop_last()).push((pairs.last().0@, pairs.last().1@))
    }
}

/// The views of a sequence with one more value are the views of the sequence
/// with the view of that value.
pub proof fn lemma_values_view_push(items: Seq<Value>, last: Value)
    ensures
        values_view(items.push(last)) == values_view(items).push(last@),
{
    assert(items.push(last).drop_last() =~= items);
}

/// The views of a sequence of pairs with one more pair are the views of the
/// sequence with the views of that pair.
pub proof fn lemma_pairs_view_push(pairs: Seq<(Value, Value)>, key: Value, value: Value)
    ensures
        pairs_view(pairs.push((key, value))) == pairs_view(pairs).push((key@, value@)),
{
    assert(pairs.push((key, value)).drop_last() =~= pairs);
}

} // verus!
