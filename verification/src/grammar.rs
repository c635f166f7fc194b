//! What the bytes of an input mean under a shape: the format itself, as one
//! function from a shape, the bytes and a nesting budget to the value and the
//! number of bytes it takes, or to the first failure met from left to right.
//! Beside it stands the place where a decoder in memory stops when decoding
//! fails: it takes bytes as it reads them, so what it read before the failure
//! showed is gone from its input. And beside that stands the key of a map
//! inside which decoding fails, where it fails inside one: a decoder that
//! reads from a source records the bytes of a key while it decodes the key,
//! and a failure inside the key leaves that recording behind.

use crate::codec::invalid_variant_text;
use crate::error::Failure;
use crate::shape::Shape;
use crate::value::SpecValue;
use crate::wire::{
    bool_decode, byte_string_decode, byte_string_stop, length_decode, lex_lt, option_tag_decode,
    signed_value, string_decode, string_stop, tag_stop, uint_decode, uint_stop, uleb128_decode,
    uleb128_stop,
};
use vstd::prelude::*;

verus! {

/// The result of decoding: a value with the number of bytes it took, or the
/// failure that stopped the decoder.
pub type Decoded<T> = Result<(T, nat), Failure>;

/// The value of shape `shape` at the start of `bytes`, where `depth` more
/// named containers may be entered.
pub open spec fn decode(shape: Shape, bytes: Seq<u8>, depth: nat) -> Decoded<SpecValue>
    decreases shape, 0nat, 0nat,
{
    match shape {
        Shape::Bool => match bool_decode(bytes) {
            Ok((b, used)) => Ok((SpecValue::Bool(b), used)),
            Err(failure) => Err(failure),
        },
        Shape::U8 => match uint_decode(bytes, 1) {
            Ok((n, used)) => Ok((SpecValue::U8(n as u8), used)),
            Err(failure) => Err(failure),
        },
        Shape::U16 => match uint_decode(bytes, 2) {
            Ok((n, used)) => Ok((SpecValue::U16(n as u16), used)),
            Err(failure) => Err(failure),
        },
        Shape::U32 => match uint_decode(bytes, 4) {
            Ok((n, used)) => Ok((SpecValue::U32(n as u32), used)),
            Err(failure) => Err(failure),
        },
        Shape::U64 => match uint_decode(bytes, 8) {
            Ok((n, used)) => Ok((SpecValue::U64(n as u64), used)),
            Err(failure) => Err(failure),
        },
        Shape::U128 => match uint_decode(bytes, 16) {
            Ok((n, used)) => Ok((SpecValue::U128(n as u128), used)),
            Err(failure) => Err(failure),
        },
        Shape::I8 => match uint_decode(bytes, 1) {
            Ok((n, used)) => Ok((SpecValue::I8(signed_value(n, 1) as i8), used)),
            Err(failure) => Err(failure),
        },
        Shape::I16 => match uint_decode(bytes, 2) {
            Ok((n, used)) => Ok((SpecValue::I16(signed_value(n, 2) as i16), used)),
            Err(failure) => Err(failure),
        },
        Shape::I32 => match uint_decode(bytes, 4) {
            Ok((n, used)) => Ok((SpecValue::I32(signed_value(n, 4) as i32), used)),
            Err(failure) => Err(failure),
        },
        Shape::I64 => match uint_decode(bytes, 8) {
            Ok((n, used)) => Ok((SpecValue::I64(signed_value(n, 8) as i64), used)),
            Err(failure) => Err(failure),
        },
        Shape::I128 => match uint_decode(bytes, 16) {
            Ok((n, used)) => Ok((SpecValue::I128(signed_value(n, 16) as i128), used)),
            Err(failure) => Err(failure),
        },
        Shape::F32 => Err(Failure::NotSupported("deserialize_f32"@)),
        Shape::F64 => Err(Failure::NotSupported("deserialize_f64"@)),
        Shape::Char => Err(Failure::NotSupported("deserialize_char"@)),
        Shape::Str => match string_decode(bytes) {
            Ok((text, used)) => Ok((SpecValue::Str(text), used)),
            Err(failure) => Err(failure),
        },
        Shape::Bytes => match byte_string_decode(bytes) {
            Ok((content, used)) => Ok((SpecValue::Bytes(content), used)),
            Err(failure) => Err(failure),
        },
        Shape::Optional(inner) => decode_option(*inner, bytes, depth),
        Shape::Unit => Ok((SpecValue::Unit, 0)),
        Shape::UnitStruct(name) => decode_unit_struct(name, depth),
        Shape::NewtypeStruct(name, inner) => decode_newtype_struct(name, *inner, bytes, depth),
        Shape::Sequence(element) => decode_seq(*element, bytes, depth),
        Shape::Tuple(fields) => decode_tuple(fields@, bytes, depth),
        Shape::TupleStruct(name, fields) => decode_tuple_struct(name, fields@, bytes, depth),
        Shape::Mapping(entry) => decode_map(*entry, bytes, depth),
        Shape::Struct(name, fields) => decode_tuple_struct(name, fields@, bytes, depth),
        Shape::Enum(name, variants) => decode_enum(name, variants@, bytes, depth),
        Shape::Identifier => match byte_string_decode(bytes) {
            Ok((content, used)) => Ok((SpecValue::Bytes(content), used)),
            Err(failure) => Err(failure),
        },
        Shape::Any => Err(Failure::NotSupported("deserialize_any"@)),
        Shape::IgnoredAny => Err(Failure::NotSupported("deserialize_ignored_any"@)),
    }
}

/// An optional value: a presence tag, then the value where the tag is 1.
pub open spec fn decode_option(inner: Shape, bytes: Seq<u8>, depth: nat) -> Decoded<SpecValue>
    decreases inner, 1nat, 0nat,
{
    match option_tag_decode(bytes) {
        Err(failure) => Err(failure),
        Ok((false, used)) => Ok((SpecValue::Optional(None), used)),
        Ok((true, used)) => match decode(inner, bytes.skip(used as int), depth) {
            Err(failure) => Err(failure),
            Ok((value, more)) => Ok((SpecValue::Optional(Some(Box::new(value))), used + more)),
        },
    }
}

/// A named type without content: it takes no bytes, and one unit of the
/// nesting budget while it is decoded.
pub open spec fn decode_unit_struct(name: &'static str, depth: nat) -> Decoded<SpecValue> {
    if depth == 0 {
        Err(Failure::ExceededContainerDepthLimit(name@))
    } else {
        Ok((SpecValue::Unit, 0))
    }
}

/// A named wrapper: the value inside, decoded with one unit less of budget.
pub open spec fn decode_newtype_struct(
    name: &'static str,
    inner: Shape,
    bytes: Seq<u8>,
    depth: nat,
) -> Decoded<SpecValue>
    decreases inner, 1nat, 0nat,
{
    if depth == 0 {
        Err(Failure::ExceededContainerDepthLimit(name@))
    } else {
        decode(inner, bytes, (depth - 1) as nat)
    }
}

/// `count` values of one shape, one after the other.
pub open spec fn decode_repeated(element: Shape, bytes: Seq<u8>, depth: nat, count: nat) -> Decoded<
    Seq<SpecValue>,
>
    decreases element, 1nat, count,
{
    if count == 0 {
        Ok((Seq::empty(), 0))
    } else {
        match decode(element, bytes, depth) {
            Err(failure) => Err(failure),
            Ok((first, used)) => match decode_repeated(
                element,
                bytes.skip(used as int),
                depth,
                (count - 1) as nat,
            ) {
                Err(failure) => Err(failure),
                Ok((rest, more)) => Ok((seq![first] + rest, used + more)),
            },
        }
    }
}

/// A sequence: a length prefix, then that many values.
pub open spec fn decode_seq(element: Shape, bytes: Seq<u8>, depth: nat) -> Decoded<SpecValue>
    decreases element, 2nat, 0nat,
{
    match length_decode(bytes) {
        Err(failure) => Err(failure),
        Ok((count, used)) => match decode_repeated(element, bytes.skip(used as int), depth, count) {
            Err(failure) => Err(failure),
            Ok((items, more)) => Ok((SpecValue::Sequence(items), used + more)),
        },
    }
}

/// One value of each of `fields`, one after the other.
pub open spec fn decode_fields(fields: Seq<Shape>, bytes: Seq<u8>, depth: nat) -> Decoded<
    Seq<SpecValue>,
>
    decreases fields, 1nat, 0nat,
{
    if fields.len() == 0 {
        Ok((Seq::empty(), 0))
    } else {
        match decode(fields[0], bytes, depth) {
            Err(failure) => Err(failure),
            Ok((first, used)) => match decode_fields(
                fields.drop_first(),
                bytes.skip(used as int),
                depth,
            ) {
                Err(failure) => Err(failure),
                Ok((rest, more)) => Ok((seq![first] + rest, used + more)),
            },
        }
    }
}

/// A tuple: its fields, without a prefix and without a cost in budget.
pub open spec fn decode_tuple(fields: Seq<Shape>, bytes: Seq<u8>, depth: nat) -> Decoded<SpecValue>
    decreases fields, 2nat, 0nat,
{
    match decode_fields(fields, bytes, depth) {
        Err(failure) => Err(failure),
        Ok((items, used)) => Ok((SpecValue::Tuple(items), used)),
    }
}

/// A named tuple or struct: its fields, decoded with one unit less of budget.
pub open spec fn decode_tuple_struct(
    name: &'static str,
    fields: Seq<Shape>,
    bytes: Seq<u8>,
    depth: nat,
) -> Decoded<SpecValue>
    decreases fields, 3nat, 0nat,
{
    if depth == 0 {
        Err(Failure::ExceededContainerDepthLimit(name@))
    } else {
        decode_tuple(fields, bytes, (depth - 1) as nat)
    }
}

/// `count` pairs of a key and a value. The bytes of each key must come
/// strictly after `previous`, the bytes of the key before it.
pub open spec fn decode_entries(
    entry: (Shape, Shape),
    bytes: Seq<u8>,
    depth: nat,
    count: nat,
    previous: Option<Seq<u8>>,
) -> Decoded<Seq<(SpecValue, SpecValue)>>
    decreases entry, 1nat, count,
{
    if count == 0 {
        Ok((Seq::empty(), 0))
    } else {
        match decode(entry.0, bytes, depth) {
            Err(failure) => Err(failure),
            Ok((key, used)) => {
                let key_bytes = bytes.take(used as int);
                if previous is Some && !lex_lt(previous->Some_0, key_bytes) {
                    Err(Failure::NonCanonicalMap)
                } else {
                    match decode(entry.1, bytes.skip(used as int), depth) {
                        Err(failure) => Err(failure),
                        Ok((value, more)) => match decode_entries(
                            entry,
                            bytes.skip((used + more) as int),
                            depth,
                            (count - 1) as nat,
                            Some(key_bytes),
                        ) {
                            Err(failure) => Err(failure),
                            Ok((rest, last)) => Ok(
                                (seq![(key, value)] + rest, used + more + last),
                            ),
                        },
                    }
                }
            },
        }
    }
}

/// A map: a length prefix, then that many pairs with ascending keys.
pub open spec fn decode_map(entry: (Shape, Shape), bytes: Seq<u8>, depth: nat) -> Decoded<
    SpecValue,
>
    decreases entry, 2nat, 0nat,
{
    match length_decode(bytes) {
        Err(failure) => Err(failure),
        Ok((count, used)) => match decode_entries(
            entry,
            bytes.skip(used as int),
            depth,
            count,
            None,
        ) {
            Err(failure) => Err(failure),
            Ok((pairs, more)) => Ok((SpecValue::Mapping(pairs), used + more)),
        },
    }
}

/// The inside of an enum: a variant index, then the content of the variant
/// whose shape stands at that index. An index without a variant cannot be
/// built.
pub open spec fn decode_variant(variants: Seq<Shape>, bytes: Seq<u8>, depth: nat) -> Decoded<
    SpecValue,
>
    decreases variants, 1nat, 0nat,
{
    match uleb128_decode(bytes) {
        Err(failure) => Err(failure),
        Ok((index, used)) => if index >= variants.len() {
            Err(Failure::Custom(invalid_variant_text(index, variants.len() as usize)))
        } else {
            match decode(variants[index as int], bytes.skip(used as int), depth) {
                Err(failure) => Err(failure),
                Ok((content, more)) => Ok(
                    (SpecValue::Variant(index, Box::new(content)), used + more),
                ),
            }
        },
    }
}

/// An enum: its inside, decoded with one unit less of budget.
pub open spec fn decode_enum(
    name: &'static str,
    variants: Seq<Shape>,
    bytes: Seq<u8>,
    depth: nat,
) -> Decoded<SpecValue>
    decreases variants, 2nat, 0nat,
{
    if depth == 0 {
        Err(Failure::ExceededContainerDepthLimit(name@))
    } else {
        decode_variant(variants, bytes, (depth - 1) as nat)
    }
}

/// How many bytes of `bytes` a decoder in memory has taken when decoding a
/// value of shape `shape` from them fails. Of an input that decodes it says
/// nothing.
pub open spec fn stop(shape: Shape, bytes: Seq<u8>, depth: nat) -> nat
    decreases shape, 0nat, 0nat,
{
    match shape {
        Shape::Bool => tag_stop(bytes),
        Shape::U8 | Shape::U16 | Shape::U32 | Shape::U64 | Shape::U128 => uint_stop(bytes),
        Shape::I8 | Shape::I16 | Shape::I32 | Shape::I64 | Shape::I128 => uint_stop(bytes),
        Shape::Str => string_stop(bytes),
        Shape::Bytes | Shape::Identifier => byte_string_stop(bytes),
        Shape::Optional(inner) => stop_option(*inner, bytes, depth),
        Shape::NewtypeStruct(_, inner) => stop_newtype_struct(*inner, bytes, depth),
        Shape::Sequence(element) => stop_seq(*element, bytes, depth),
        Shape::Tuple(fields) => stop_fields(fields@, bytes, depth),
        Shape::TupleStruct(_, fields) => stop_tuple_struct(fields@, bytes, depth),
        Shape::Mapping(entry) => stop_map(*entry, bytes, depth),
        Shape::Struct(_, fields) => stop_tuple_struct(fields@, bytes, depth),
        Shape::Enum(_, variants) => stop_enum(variants@, bytes, depth),
        Shape::Unit | Shape::UnitStruct(_) => 0,
        Shape::F32 | Shape::F64 | Shape::Char | Shape::Any | Shape::IgnoredAny => 0,
    }
}

/// Where decoding an optional value stops: at or behind the tag that is no
/// tag, or where the value inside stops, which lies behind the tag.
pub open spec fn stop_option(inner: Shape, bytes: Seq<u8>, depth: nat) -> nat
    decreases inner, 1nat, 0nat,
{
    match option_tag_decode(bytes) {
        Err(_) => tag_stop(bytes),
        Ok((_, used)) => used + stop(inner, bytes.skip(used as int), depth),
    }
}

/// Where decoding a named wrapper stops: before the first byte where no
/// budget is left, and else where the value inside stops.
pub open spec fn stop_newtype_struct(inner: Shape, bytes: Seq<u8>, depth: nat) -> nat
    decreases inner, 1nat, 0nat,
{
    if depth == 0 {
        0
    } else {
        stop(inner, bytes, (depth - 1) as nat)
    }
}

/// Where decoding `count` values of one shape stops: where the first of them
/// that fails stops, behind all that came before it.
pub open spec fn stop_repeated(element: Shape, bytes: Seq<u8>, depth: nat, count: nat) -> nat
    decreases element, 1nat, count,
{
    if count == 0 {
        0
    } else {
        match decode(element, bytes, depth) {
            Err(_) => stop(element, bytes, depth),
            Ok((_, used)) => used + stop_repeated(
                element,
                bytes.skip(used as int),
                depth,
                (count - 1) as nat,
            ),
        }
    }
}

/// Where decoding a sequence stops: where reading its length prefix stops,
/// or where its elements stop, which lie behind the prefix.
pub open spec fn stop_seq(element: Shape, bytes: Seq<u8>, depth: nat) -> nat
    decreases element, 2nat, 0nat,
{
    match length_decode(bytes) {
        Err(_) => uleb128_stop(bytes),
        Ok((count, used)) => used + stop_repeated(element, bytes.skip(used as int), depth, count),
    }
}

/// Where decoding one value of each of `fields` stops: where the first of
/// them that fails stops, behind all that came before it.
pub open spec fn stop_fields(fields: Seq<Shape>, bytes: Seq<u8>, depth: nat) -> nat
    decreases fields, 1nat, 0nat,
{
    if fields.len() == 0 {
        0
    } else {
        match decode(fields[0], bytes, depth) {
            Err(_) => stop(fields[0], bytes, depth),
            Ok((_, used)) => used + stop_fields(fields.drop_first(), bytes.skip(used as int), depth),
        }
    }
}

/// Where decoding a named tuple or struct stops: before the first byte where
/// no budget is left, and else where its fields stop.
pub open spec fn stop_tuple_struct(fields: Seq<Shape>, bytes: Seq<u8>, depth: nat) -> nat
    decreases fields, 3nat, 0nat,
{
    if depth == 0 {
        0
    } else {
        stop_fields(fields, bytes, (depth - 1) as nat)
    }
}

/// Where decoding `count` pairs stops: where the first key or value that
/// fails stops, or behind the first key that does not come after the key
/// before it.
pub open spec fn stop_entries(
    entry: (Shape, Shape),
    bytes: Seq<u8>,
    depth: nat,
    count: nat,
    previous: Option<Seq<u8>>,
) -> nat
    decreases entry, 1nat, count,
{
    if count == 0 {
        0
    } else {
        match decode(entry.0, bytes, depth) {
            Err(_) => stop(entry.0, bytes, depth),
            Ok((_, used)) => {
                let key_bytes = bytes.take(used as int);
                if previous is Some && !lex_lt(previous->Some_0, key_bytes) {
                    used
                } else {
                    match decode(entry.1, bytes.skip(used as int), depth) {
                        Err(_) => used + stop(entry.1, bytes.skip(used as int), depth),
                        Ok((_, more)) => used + more + stop_entries(
                            entry,
                            bytes.skip((used + more) as int),
                            depth,
                            (count - 1) as nat,
                            Some(key_bytes),
                        ),
                    }
                }
            },
        }
    }
}

/// Where decoding a map stops: where reading its length prefix stops, or
/// where its pairs stop, which lie behind the prefix.
pub open spec fn stop_map(entry: (Shape, Shape), bytes: Seq<u8>, depth: nat) -> nat
    decreases entry, 2nat, 0nat,
{
    match length_decode(bytes) {
        Err(_) => uleb128_stop(bytes),
        Ok((count, used)) => used + stop_entries(
            entry,
            bytes.skip(used as int),
            depth,
            count,
            None,
        ),
    }
}

/// Where decoding the inside of an enum stops: where reading the index
/// stops, behind an index that names no variant, or where the content of the
/// variant stops.
pub open spec fn stop_variant(variants: Seq<Shape>, bytes: Seq<u8>, depth: nat) -> nat
    decreases variants, 1nat, 0nat,
{
    match uleb128_decode(bytes) {
        Err(_) => uleb128_stop(bytes),
        Ok((index, used)) => if index >= variants.len() {
            used
        } else {
            used + stop(variants[index as int], bytes.skip(used as int), depth)
        },
    }
}

/// Where decoding an enum stops: before the first byte where no budget is
/// left, and else where its inside stops.
pub open spec fn stop_enum(variants: Seq<Shape>, bytes: Seq<u8>, depth: nat) -> nat
    decreases variants, 2nat, 0nat,
{
    if depth == 0 {
        0
    } else {
        stop_variant(variants, bytes, (depth - 1) as nat)
    }
}

/// The place `place`, where there is one, moved `by` bytes further on.
pub open spec fn shifted(place: Option<nat>, by: nat) -> Option<nat> {
    match place {
        None => None,
        Some(k) => Some(k + by),
    }
}

/// Where decoding a value of shape `shape` from `bytes` fails inside the key
/// of a map: the place in `bytes` where that key begins, and the innermost
/// such key where keys hold maps. It is `None` where the failure lies in no
/// key. Of an input that decodes, and of a key that is refused for its
/// order, it says nothing.
pub open spec fn failing_key(shape: Shape, bytes: Seq<u8>, depth: nat) -> Option<nat>
    decreases shape, 0nat, 0nat,
{
    match shape {
        Shape::Optional(inner) => failing_key_option(*inner, bytes, depth),
        Shape::NewtypeStruct(_, inner) => failing_key_newtype_struct(*inner, bytes, depth),
        Shape::Sequence(element) => failing_key_seq(*element, bytes, depth),
        Shape::Tuple(fields) => failing_key_fields(fields@, bytes, depth),
        Shape::TupleStruct(_, fields) => failing_key_tuple_struct(fields@, bytes, depth),
        Shape::Mapping(entry) => failing_key_map(*entry, bytes, depth),
        Shape::Struct(_, fields) => failing_key_tuple_struct(fields@, bytes, depth),
        Shape::Enum(_, variants) => failing_key_enum(variants@, bytes, depth),
        _ => None,
    }
}

/// The failing key of an optional value: that of the value inside, which
/// lies behind the tag.
pub open spec fn failing_key_option(inner: Shape, bytes: Seq<u8>, depth: nat) -> Option<nat>
    decreases inner, 1nat, 0nat,
{
    match option_tag_decode(bytes) {
        Ok((true, used)) => shifted(failing_key(inner, bytes.skip(used as int), depth), used),
        _ => None,
    }
}

/// The failing key of a named wrapper: that of the value inside, where the
/// budget lets the decoder get that far.
pub open spec fn failing_key_newtype_struct(inner: Shape, bytes: Seq<u8>, depth: nat) -> Option<
    nat,
>
    decreases inner, 1nat, 0nat,
{
    if depth == 0 {
        None
    } else {
        failing_key(inner, bytes, (depth - 1) as nat)
    }
}

/// The failing key of `count` values of one shape: that of the first of them
/// that fails, which lies behind all that came before it.
pub open spec fn failing_key_repeated(
    element: Shape,
    bytes: Seq<u8>,
    depth: nat,
    count: nat,
) -> Option<nat>
    decreases element, 1nat, count,
{
    if count == 0 {
        None
    } else {
        match decode(element, bytes, depth) {
            Err(_) => failing_key(element, bytes, depth),
            Ok((_, used)) => shifted(
                failing_key_repeated(element, bytes.skip(used as int), depth, (count - 1) as nat),
                used,
            ),
        }
    }
}

/// The failing key of a sequence: that of its elements, which lie behind the
/// length prefix.
pub open spec fn failing_key_seq(element: Shape, bytes: Seq<u8>, depth: nat) -> Option<nat>
    decreases element, 2nat, 0nat,
{
    match length_decode(bytes) {
        Err(_) => None,
        Ok((count, used)) => shifted(
            failing_key_repeated(element, bytes.skip(used as int), depth, count),
            used,
        ),
    }
}

/// The failing key of one value of each of `fields`: that of the first of
/// them that fails, which lies behind all that came before it.
pub open spec fn failing_key_fields(fields: Seq<Shape>, bytes: Seq<u8>, depth: nat) -> Option<nat>
    decreases fields, 1nat, 0nat,
{
    if fields.len() == 0 {
        None
    } else {
        match decode(fields[0], bytes, depth) {
            Err(_) => failing_key(fields[0], bytes, depth),
            Ok((_, used)) => shifted(
                failing_key_fields(fields.drop_first(), bytes.skip(used as int), depth),
                used,
            ),
        }
    }
}

/// The failing key of a named tuple or struct: that of its fields, where the
/// budget lets the decoder get that far.
pub open spec fn failing_key_tuple_struct(fields: Seq<Shape>, bytes: Seq<u8>, depth: nat) -> Option<
    nat,
>
    decreases fields, 3nat, 0nat,
{
    if depth == 0 {
        None
    } else {
        failing_key_fields(fields, bytes, (depth - 1) as nat)
    }
}

/// The failing key of `count` pairs. A key that fails is the failing key
/// itself, unless the failure lies in a key further inside. A value that
/// fails has the failing key that lies inside it, if any.
pub open spec fn failing_key_entries(
    entry: (Shape, Shape),
    bytes: Seq<u8>,
    depth: nat,
    count: nat,
) -> Option<nat>
    decreases entry, 1nat, count,
{
    if count == 0 {
        None
    } else {
        match decode(entry.0, bytes, depth) {
            Err(_) => match failing_key(entry.0, bytes, depth) {
                None => Some(0),
                Some(k) => Some(k),
            },
            Ok((_, used)) => match decode(entry.1, bytes.skip(used as int), depth) {
                Err(_) => shifted(failing_key(entry.1, bytes.skip(used as int), depth), used),
                Ok((_, more)) => shifted(
                    failing_key_entries(
                        entry,
                        bytes.skip((used + more) as int),
                        depth,
                        (count - 1) as nat,
                    ),
                    used + more,
                ),
            },
        }
    }
}

/// The failing key of a map: that of its pairs, which lie behind the length
/// prefix.
pub open spec fn failing_key_map(entry: (Shape, Shape), bytes: Seq<u8>, depth: nat) -> Option<nat>
    decreases entry, 2nat, 0nat,
{
    match length_decode(bytes) {
        Err(_) => None,
        Ok((count, used)) => shifted(
            failing_key_entries(entry, bytes.skip(used as int), depth, count),
            used,
        ),
    }
}

/// The failing key of the inside of an enum: that of the content of the
/// variant, which lies behind the index.
pub open spec fn failing_key_variant(variants: Seq<Shape>, bytes: Seq<u8>, depth: nat) -> Option<
    nat,
>
    decreases variants, 1nat, 0nat,
{
    match uleb128_decode(bytes) {
        Err(_) => None,
        Ok((index, used)) => if index >= variants.len() {
            None
        } else {
            shifted(failing_key(variants[index as int], bytes.skip(used as int), depth), used)
        },
    }
}

/// The failing key of an enum: that of its inside, where the budget lets the
/// decoder get that far.
pub open spec fn failing_key_enum(variants: Seq<Shape>, bytes: Seq<u8>, depth: nat) -> Option<nat>
    decreases variants, 2nat, 0nat,
{
    if depth == 0 {
        None
    } else {
        failing_key_variant(variants, bytes, (depth - 1) as nat)
    }
}

/// What decoding a list gives when `items` were decoded from the first `used`
/// bytes and `tail` is what decoding the rest of the list gives.
pub open spec fn after<T>(items: Seq<T>, used: nat, tail: Decoded<Seq<T>>) -> Decoded<Seq<T>> {
    match tail {
        Err(failure) => Err(failure),
        Ok((rest, more)) => Ok((items + rest, used + more)),
    }
}

/// A whole input: one value of shape `shape` and nothing behind it.
pub open spec fn decode_all(shape: Shape, bytes: Seq<u8>, depth: nat) -> Result<
    SpecValue,
    Failure,
> {
    match decode(shape, bytes, depth) {
        Err(failure) => Err(failure),
        Ok((value, used)) => if used == bytes.len() {
            Ok(value)
        } else {
            Err(Failure::RemainingInput)
        },
    }
}

} // verus!
