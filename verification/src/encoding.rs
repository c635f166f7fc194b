//! The bytes that a value is written as, and the proof that decoding accepts
//! no other bytes for it: what was decoded, written again, is the input.

use crate::grammar::{
    decode, decode_all, decode_entries, decode_enum, decode_fields, decode_map,
    decode_newtype_struct, decode_option, decode_repeated, decode_seq, decode_tuple,
    decode_tuple_struct, decode_variant,
};
use crate::shape::Shape;
use crate::value::SpecValue;
use crate::wire::{
    byte_string_decode, le_value, lemma_le_value_bound, lemma_lex_lt_irreflexive,
    lemma_lex_lt_transitive, lemma_uleb128_decode_canonical, length_decode, lex_lt, pow256,
    signed_value, string_decode, uint_decode, uleb128_decode, uleb128_encode,
};
use vstd::prelude::*;

verus! {

/// The `width` bytes that spell `value` in little-endian order.
pub open spec fn le_bytes(value: nat, width: nat) -> Seq<u8>
    decreases width,
{
    if width == 0 {
        Seq::empty()
    } else {
        seq![(value % 256) as u8] + le_bytes(value / 256, (width - 1) as nat)
    }
}

/// The unsigned integer of `width` bytes with the bit pattern of the signed
/// `value` in two's complement.
pub open spec fn unsigned_pattern(value: int, width: nat) -> nat {
    if value >= 0 {
        value as nat
    } else {
        (value + pow256(width)) as nat
    }
}

/// The bytes that `value` is written as.
pub open spec fn encode(value: SpecValue) -> Seq<u8>
    decreases value,
{
    match value {
        SpecValue::Bool(b) => seq![if b { 1u8 } else { 0u8 }],
        SpecValue::U8(n) => le_bytes(n as nat, 1),
        SpecValue::U16(n) => le_bytes(n as nat, 2),
        SpecValue::U32(n) => le_bytes(n as nat, 4),
        SpecValue::U64(n) => le_bytes(n as nat, 8),
        SpecValue::U128(n) => le_bytes(n as nat, 16),
        SpecValue::I8(n) => le_bytes(unsigned_pattern(n as int, 1), 1),
        SpecValue::I16(n) => le_bytes(unsigned_pattern(n as int, 2), 2),
        SpecValue::I32(n) => le_bytes(unsigned_pattern(n as int, 4), 4),
        SpecValue::I64(n) => le_bytes(unsigned_pattern(n as int, 8), 8),
        SpecValue::I128(n) => le_bytes(unsigned_pattern(n as int, 16), 16),
        SpecValue::Str(text) => uleb128_encode(vstd::utf8::encode_utf8(text).len())
            + vstd::utf8::encode_utf8(text),
        SpecValue::Bytes(bytes) => uleb128_encode(bytes.len()) + bytes,
        SpecValue::Optional(None) => seq![0u8],
        SpecValue::Optional(Some(inner)) => seq![1u8] + encode(*inner),
        SpecValue::Unit => Seq::empty(),
        SpecValue::Sequence(items) => uleb128_encode(items.len()) + encode_each(items),
        SpecValue::Tuple(items) => encode_each(items),
        SpecValue::Mapping(pairs) => uleb128_encode(pairs.len()) + encode_pairs(pairs),
        SpecValue::Variant(index, content) => uleb128_encode(index as nat) + encode(*content),
    }
}

/// The bytes of each of `items`, one after the other.
pub open spec fn encode_each(items: Seq<SpecValue>) -> Seq<u8>
    decreases items,
{
    if items.len() == 0 {
        Seq::empty()
    } else {
        encode(items[0]) + encode_each(items.drop_first())
    }
}

/// The bytes of the key and of the value of each of `pairs`, one after the
/// other.
pub open spec fn encode_pairs(pairs: Seq<(SpecValue, SpecValue)>) -> Seq<u8>
    decreases pairs,
{
    if pairs.len() == 0 {
        Seq::empty()
    } else {
        encode(pairs[0].0) + encode(pairs[0].1) + encode_pairs(pairs.drop_first())
    }
}

/// The first `first + second` bytes are the first `first` and the `second`
/// behind them.
pub proof fn lemma_take_split(bytes: Seq<u8>, first: nat, second: nat)
    requires
        first + second <= bytes.len(),
    ensures
        bytes.take((first + second) as int) == bytes.take(first as int) + bytes.skip(
            first as int,
        ).take(second as int),
{
    assert(bytes.take((first + second) as int) =~= bytes.take(first as int) + bytes.skip(
        first as int,
    ).take(second as int));
}

/// Writing the little-endian integer of some bytes gives these bytes.
pub proof fn lemma_le_bytes_of_le_value(bytes: Seq<u8>)
    ensures
        le_bytes(le_value(bytes), bytes.len()) == bytes,
    decreases bytes.len(),
{
    if bytes.len() > 0 {
        let rest = bytes.drop_first();
        lemma_le_bytes_of_le_value(rest);
        let value = le_value(bytes);
        assert(value == bytes[0] + 256 * le_value(rest));
        assert(value % 256 == bytes[0] as nat);
        assert(value / 256 == le_value(rest));
        assert(le_bytes(value, bytes.len()) =~= bytes);
    } else {
        assert(le_bytes(le_value(bytes), 0) =~= bytes);
    }
}

/// An unsigned integer that was decoded is written as the bytes it took.
pub proof fn lemma_encode_uint(bytes: Seq<u8>, width: nat)
    requires
        uint_decode(bytes, width) is Ok,
    ensures
        uint_decode(bytes, width)->Ok_0.1 <= bytes.len(),
        le_bytes(uint_decode(bytes, width)->Ok_0.0, width) == bytes.take(width as int),
        uint_decode(bytes, width)->Ok_0.0 < pow256(width),
{
    lemma_le_bytes_of_le_value(bytes.take(width as int));
    lemma_le_value_bound(bytes.take(width as int));
}

/// A signed integer that was decoded is written as the bytes it took.
pub proof fn lemma_encode_sint(bytes: Seq<u8>, width: nat)
    requires
        uint_decode(bytes, width) is Ok,
    ensures
        uint_decode(bytes, width)->Ok_0.1 <= bytes.len(),
        le_bytes(
            unsigned_pattern(signed_value(uint_decode(bytes, width)->Ok_0.0, width), width),
            width,
        ) == bytes.take(width as int),
        -pow256(width) <= 2 * signed_value(uint_decode(bytes, width)->Ok_0.0, width) < pow256(width),
{
    lemma_encode_uint(bytes, width);
}

/// A byte string that was decoded is written as the bytes it took.
pub proof fn lemma_encode_byte_string(bytes: Seq<u8>)
    requires
        byte_string_decode(bytes) is Ok,
    ensures
        byte_string_decode(bytes)->Ok_0.1 <= bytes.len(),
        uleb128_encode(byte_string_decode(bytes)->Ok_0.0.len()) + byte_string_decode(
            bytes,
        )->Ok_0.0 == bytes.take(byte_string_decode(bytes)->Ok_0.1 as int),
{
    let (len, used) = length_decode(bytes)->Ok_0;
    lemma_uleb128_decode_canonical(bytes);
    lemma_take_split(bytes, used, len);
    assert(bytes.subrange(used as int, (used + len) as int) =~= bytes.skip(used as int).take(
        len as int,
    ));
}

/// A text that was decoded is written as the bytes it took.
pub proof fn lemma_encode_string(bytes: Seq<u8>)
    requires
        string_decode(bytes) is Ok,
    ensures
        string_decode(bytes)->Ok_0.1 <= bytes.len(),
        uleb128_encode(vstd::utf8::encode_utf8(string_decode(bytes)->Ok_0.0).len())
            + vstd::utf8::encode_utf8(string_decode(bytes)->Ok_0.0) == bytes.take(
            string_decode(bytes)->Ok_0.1 as int,
        ),
{
    let content = byte_string_decode(bytes)->Ok_0.0;
    lemma_encode_byte_string(bytes);
    vstd::utf8::decode_utf8_encode_utf8(content);
}

/// Whether the value of shape `shape` that `bytes` start with, where there
/// is one, is written as exactly the bytes that it took.
pub open spec fn round_trips(shape: Shape, bytes: Seq<u8>, depth: nat) -> bool {
    decode(shape, bytes, depth) is Ok ==> {
        &&& decode(shape, bytes, depth)->Ok_0.1 <= bytes.len()
        &&& encode(decode(shape, bytes, depth)->Ok_0.0) == bytes.take(
            decode(shape, bytes, depth)->Ok_0.1 as int,
        )
    }
}

/// Decoding accepts one encoding only: a value that was decoded is written
/// as exactly the bytes that it took.
pub proof fn lemma_encode_decode(shape: Shape, bytes: Seq<u8>, depth: nat)
    requires
        decode(shape, bytes, depth) is Ok,
    ensures
        decode(shape, bytes, depth)->Ok_0.1 <= bytes.len(),
        encode(decode(shape, bytes, depth)->Ok_0.0) == bytes.take(
            decode(shape, bytes, depth)->Ok_0.1 as int,
        ),
    decreases shape, 0nat, 0nat,
{
    reveal_with_fuel(pow256, 17);
    match shape {
        Shape::Bool => {
            assert(bytes.take(1) =~= seq![bytes[0]]);
            assert(round_trips(shape, bytes, depth));
        },
        Shape::U8 => {
            lemma_encode_uint(bytes, 1);
            assert(round_trips(shape, bytes, depth));
        },
        Shape::U16 => {
            lemma_encode_uint(bytes, 2);
            assert(round_trips(shape, bytes, depth));
        },
        Shape::U32 => {
            lemma_encode_uint(bytes, 4);
            assert(round_trips(shape, bytes, depth));
        },
        Shape::U64 => {
            lemma_encode_uint(bytes, 8);
            assert(round_trips(shape, bytes, depth));
        },
        Shape::U128 => {
            lemma_encode_uint(bytes, 16);
            assert(round_trips(shape, bytes, depth));
        },
        Shape::I8 => {
            lemma_encode_sint(bytes, 1);
            assert(round_trips(shape, bytes, depth));
        },
        Shape::I16 => {
            lemma_encode_sint(bytes, 2);
            assert(round_trips(shape, bytes, depth));
        },
        Shape::I32 => {
            lemma_encode_sint(bytes, 4);
            assert(round_trips(shape, bytes, depth));
        },
        Shape::I64 => {
            lemma_encode_sint(bytes, 8);
            assert(round_trips(shape, bytes, depth));
        },
        Shape::I128 => {
            lemma_encode_sint(bytes, 16);
            assert(round_trips(shape, bytes, depth));
        },
        Shape::Str => {
            lemma_encode_string(bytes);
            assert(round_trips(shape, bytes, depth));
        },
        Shape::Bytes => {
            lemma_encode_byte_string(bytes);
            assert(round_trips(shape, bytes, depth));
        },
        Shape::Identifier => {
            lemma_encode_byte_string(bytes);
            assert(round_trips(shape, bytes, depth));
        },
        Shape::Optional(inner) => {
            lemma_encode_decode_option(*inner, bytes, depth);
            assert(round_trips(shape, bytes, depth));
        },
        Shape::Unit => {
            assert(bytes.take(0) =~= Seq::<u8>::empty());
            assert(round_trips(shape, bytes, depth));
        },
        Shape::UnitStruct(name) => {
            assert(bytes.take(0) =~= Seq::<u8>::empty());
            assert(decode(shape, bytes, depth) == crate::grammar::decode_unit_struct(name, depth));
            assert(round_trips(shape, bytes, depth));
        },
        Shape::NewtypeStruct(name, inner) => {
            lemma_encode_decode_newtype_struct(name, *inner, bytes, depth);
            assert(round_trips(shape, bytes, depth));
        },
        Shape::Sequence(element) => {
            lemma_encode_decode_seq(*element, bytes, depth);
            assert(round_trips(shape, bytes, depth));
        },
        Shape::Tuple(fields) => {
            lemma_encode_decode_tuple(fields@, bytes, depth);
            assert(round_trips(shape, bytes, depth));
        },
        Shape::TupleStruct(name, fields) => {
            lemma_encode_decode_tuple_struct(name, fields@, bytes, depth);
            assert(round_trips(shape, bytes, depth));
        },
        Shape::Mapping(entry) => {
            lemma_encode_decode_map(*entry, bytes, depth);
            assert(round_trips(shape, bytes, depth));
        },
        Shape::Struct(name, fields) => {
            lemma_encode_decode_tuple_struct(name, fields@, bytes, depth);
            assert(round_trips(shape, bytes, depth));
        },
        Shape::Enum(name, variants) => {
            lemma_encode_decode_enum(name, variants@, bytes, depth);
            assert(round_trips(shape, bytes, depth));
        },
        Shape::F32 | Shape::F64 | Shape::Char | Shape::Any | Shape::IgnoredAny => {
            assert(decode(shape, bytes, depth) is Err);
        },
    }
}

/// A named wrapper that was decoded is written as the bytes it took.
pub proof fn lemma_encode_decode_newtype_struct(
    name: &'static str,
    inner: Shape,
    bytes: Seq<u8>,
    depth: nat,
)
    requires
        decode_newtype_struct(name, inner, bytes, depth) is Ok,
    ensures
        decode_newtype_struct(name, inner, bytes, depth)->Ok_0.1 <= bytes.len(),
        encode(decode_newtype_struct(name, inner, bytes, depth)->Ok_0.0) == bytes.take(
            decode_newtype_struct(name, inner, bytes, depth)->Ok_0.1 as int,
        ),
    decreases inner, 1nat, 0nat,
{
    lemma_encode_decode(inner, bytes, (depth - 1) as nat);
}

/// A tuple that was decoded is written as the bytes it took.
pub proof fn lemma_encode_decode_tuple(fields: Seq<Shape>, bytes: Seq<u8>, depth: nat)
    requires
        decode_tuple(fields, bytes, depth) is Ok,
    ensures
        decode_tuple(fields, bytes, depth)->Ok_0.1 <= bytes.len(),
        encode(decode_tuple(fields, bytes, depth)->Ok_0.0) == bytes.take(
            decode_tuple(fields, bytes, depth)->Ok_0.1 as int,
        ),
    decreases fields, 2nat, 0nat,
{
    lemma_encode_decode_fields(fields, bytes, depth);
    let items = decode_fields(fields, bytes, depth)->Ok_0.0;
    assert(encode(SpecValue::Tuple(items)) == encode_each(items));
}

/// A named tuple or struct that was decoded is written as the bytes it took.
pub proof fn lemma_encode_decode_tuple_struct(
    name: &'static str,
    fields: Seq<Shape>,
    bytes: Seq<u8>,
    depth: nat,
)
    requires
        decode_tuple_struct(name, fields, bytes, depth) is Ok,
    ensures
        decode_tuple_struct(name, fields, bytes, depth)->Ok_0.1 <= bytes.len(),
        encode(decode_tuple_struct(name, fields, bytes, depth)->Ok_0.0) == bytes.take(
            decode_tuple_struct(name, fields, bytes, depth)->Ok_0.1 as int,
        ),
    decreases fields, 3nat, 0nat,
{
    lemma_encode_decode_tuple(fields, bytes, (depth - 1) as nat);
}

/// An enum that was decoded is written as the bytes it took.
pub proof fn lemma_encode_decode_enum(
    name: &'static str,
    variants: Seq<Shape>,
    bytes: Seq<u8>,
    depth: nat,
)
    requires
        decode_enum(name, variants, bytes, depth) is Ok,
    ensures
        decode_enum(name, variants, bytes, depth)->Ok_0.1 <= bytes.len(),
        encode(decode_enum(name, variants, bytes, depth)->Ok_0.0) == bytes.take(
            decode_enum(name, variants, bytes, depth)->Ok_0.1 as int,
        ),
    decreases variants, 2nat, 0nat,
{
    lemma_encode_decode_variant(variants, bytes, (depth - 1) as nat);
}

/// An optional value that was decoded is written as the bytes it took.
pub proof fn lemma_encode_decode_option(inner: Shape, bytes: Seq<u8>, depth: nat)
    requires
        decode_option(inner, bytes, depth) is Ok,
    ensures
        decode_option(inner, bytes, depth)->Ok_0.1 <= bytes.len(),
        encode(decode_option(inner, bytes, depth)->Ok_0.0) == bytes.take(
            decode_option(inner, bytes, depth)->Ok_0.1 as int,
        ),
    decreases inner, 1nat, 0nat,
{
    assert(bytes.take(1) =~= seq![bytes[0]]);
    if bytes[0] == 1 {
        let more = decode(inner, bytes.skip(1), depth)->Ok_0.1;
        lemma_encode_decode(inner, bytes.skip(1), depth);
        lemma_take_split(bytes, 1, more);
    }
}

/// A run of values that was decoded is written as the bytes it took.
pub proof fn lemma_encode_decode_repeated(element: Shape, bytes: Seq<u8>, depth: nat, count: nat)
    requires
        decode_repeated(element, bytes, depth, count) is Ok,
    ensures
        decode_repeated(element, bytes, depth, count)->Ok_0.1 <= bytes.len(),
        decode_repeated(element, bytes, depth, count)->Ok_0.0.len() == count,
        encode_each(decode_repeated(element, bytes, depth, count)->Ok_0.0) == bytes.take(
            decode_repeated(element, bytes, depth, count)->Ok_0.1 as int,
        ),
    decreases element, 1nat, count,
{
    if count == 0 {
        assert(bytes.take(0) =~= Seq::<u8>::empty());
    } else {
        let (first, used) = decode(element, bytes, depth)->Ok_0;
        let (rest, more) = decode_repeated(
            element,
            bytes.skip(used as int),
            depth,
            (count - 1) as nat,
        )->Ok_0;
        lemma_encode_decode(element, bytes, depth);
        lemma_encode_decode_repeated(element, bytes.skip(used as int), depth, (count - 1) as nat);
        lemma_take_split(bytes, used, more);
        let items = seq![first] + rest;
        assert(items[0] == first);
        assert(items.drop_first() =~= rest);
    }
}

/// A sequence that was decoded is written as the bytes it took.
pub proof fn lemma_encode_decode_seq(element: Shape, bytes: Seq<u8>, depth: nat)
    requires
        decode_seq(element, bytes, depth) is Ok,
    ensures
        decode_seq(element, bytes, depth)->Ok_0.1 <= bytes.len(),
        encode(decode_seq(element, bytes, depth)->Ok_0.0) == bytes.take(
            decode_seq(element, bytes, depth)->Ok_0.1 as int,
        ),
    decreases element, 2nat, 0nat,
{
    let (count, used) = length_decode(bytes)->Ok_0;
    let more = decode_repeated(element, bytes.skip(used as int), depth, count)->Ok_0.1;
    lemma_uleb128_decode_canonical(bytes);
    lemma_encode_decode_repeated(element, bytes.skip(used as int), depth, count);
    lemma_take_split(bytes, used, more);
}

/// A list of fields that was decoded is written as the bytes it took.
pub proof fn lemma_encode_decode_fields(fields: Seq<Shape>, bytes: Seq<u8>, depth: nat)
    requires
        decode_fields(fields, bytes, depth) is Ok,
    ensures
        decode_fields(fields, bytes, depth)->Ok_0.1 <= bytes.len(),
        encode_each(decode_fields(fields, bytes, depth)->Ok_0.0) == bytes.take(
            decode_fields(fields, bytes, depth)->Ok_0.1 as int,
        ),
    decreases fields, 1nat, 0nat,
{
    if fields.len() == 0 {
        assert(bytes.take(0) =~= Seq::<u8>::empty());
    } else {
        let (first, used) = decode(fields[0], bytes, depth)->Ok_0;
        let (rest, more) = decode_fields(fields.drop_first(), bytes.skip(used as int), depth)->Ok_0;
        lemma_encode_decode(fields[0], bytes, depth);
        lemma_encode_decode_fields(fields.drop_first(), bytes.skip(used as int), depth);
        lemma_take_split(bytes, used, more);
        let items = seq![first] + rest;
        assert(items[0] == first);
        assert(items.drop_first() =~= rest);
    }
}

/// A run of pairs that was decoded is written as the bytes it took.
pub proof fn lemma_encode_decode_entries(
    entry: (Shape, Shape),
    bytes: Seq<u8>,
    depth: nat,
    count: nat,
    previous: Option<Seq<u8>>,
)
    requires
        decode_entries(entry, bytes, depth, count, previous) is Ok,
    ensures
        decode_entries(entry, bytes, depth, count, previous)->Ok_0.1 <= bytes.len(),
        decode_entries(entry, bytes, depth, count, previous)->Ok_0.0.len() == count,
        encode_pairs(decode_entries(entry, bytes, depth, count, previous)->Ok_0.0) == bytes.take(
            decode_entries(entry, bytes, depth, count, previous)->Ok_0.1 as int,
        ),
    decreases entry, 1nat, count,
{
    if count == 0 {
        assert(bytes.take(0) =~= Seq::<u8>::empty());
    } else {
        let (key, used) = decode(entry.0, bytes, depth)->Ok_0;
        let (value, more) = decode(entry.1, bytes.skip(used as int), depth)->Ok_0;
        let (rest, last) = decode_entries(
            entry,
            bytes.skip((used + more) as int),
            depth,
            (count - 1) as nat,
            Some(bytes.take(used as int)),
        )->Ok_0;
        lemma_encode_decode(entry.0, bytes, depth);
        lemma_encode_decode(entry.1, bytes.skip(used as int), depth);
        lemma_encode_decode_entries(
            entry,
            bytes.skip((used + more) as int),
            depth,
            (count - 1) as nat,
            Some(bytes.take(used as int)),
        );
        lemma_take_split(bytes, used, more);
        lemma_take_split(bytes, used + more, last);
        let pairs = seq![(key, value)] + rest;
        assert(pairs[0] == (key, value));
        assert(pairs.drop_first() =~= rest);
    }
}

/// A map that was decoded is written as the bytes it took.
pub proof fn lemma_encode_decode_map(entry: (Shape, Shape), bytes: Seq<u8>, depth: nat)
    requires
        decode_map(entry, bytes, depth) is Ok,
    ensures
        decode_map(entry, bytes, depth)->Ok_0.1 <= bytes.len(),
        encode(decode_map(entry, bytes, depth)->Ok_0.0) == bytes.take(
            decode_map(entry, bytes, depth)->Ok_0.1 as int,
        ),
    decreases entry, 2nat, 0nat,
{
    let (count, used) = length_decode(bytes)->Ok_0;
    let more = decode_entries(entry, bytes.skip(used as int), depth, count, None)->Ok_0.1;
    lemma_uleb128_decode_canonical(bytes);
    lemma_encode_decode_entries(entry, bytes.skip(used as int), depth, count, None);
    lemma_take_split(bytes, used, more);
}

/// The inside of an enum that was decoded is written as the bytes it took.
pub proof fn lemma_encode_decode_variant(variants: Seq<Shape>, bytes: Seq<u8>, depth: nat)
    requires
        decode_variant(variants, bytes, depth) is Ok,
    ensures
        decode_variant(variants, bytes, depth)->Ok_0.1 <= bytes.len(),
        encode(decode_variant(variants, bytes, depth)->Ok_0.0) == bytes.take(
            decode_variant(variants, bytes, depth)->Ok_0.1 as int,
        ),
    decreases variants, 1nat, 0nat,
{
    let (index, used) = uleb128_decode(bytes)->Ok_0;
    let more = decode(variants[index as int], bytes.skip(used as int), depth)->Ok_0.1;
    lemma_uleb128_decode_canonical(bytes);
    lemma_encode_decode(variants[index as int], bytes.skip(used as int), depth);
    lemma_take_split(bytes, used, more);
}

/// Whether the keys of `pairs`, as they are written, come one strictly after
/// the other, and the first of them strictly after `previous`.
pub open spec fn keys_ascend(previous: Option<Seq<u8>>, pairs: Seq<(SpecValue, SpecValue)>) -> bool
    decreases pairs.len(),
{
    if pairs.len() == 0 {
        true
    } else {
        &&& previous is None || lex_lt(previous->Some_0, encode(pairs[0].0))
        &&& keys_ascend(Some(encode(pairs[0].0)), pairs.drop_first())
    }
}

/// The keys of a run of pairs that was decoded come in strictly ascending
/// order of their bytes.
pub proof fn lemma_decoded_entries_ascend(
    entry: (Shape, Shape),
    bytes: Seq<u8>,
    depth: nat,
    count: nat,
    previous: Option<Seq<u8>>,
)
    requires
        decode_entries(entry, bytes, depth, count, previous) is Ok,
    ensures
        keys_ascend(previous, decode_entries(entry, bytes, depth, count, previous)->Ok_0.0),
    decreases count,
{
    if count > 0 {
        let (key, used) = decode(entry.0, bytes, depth)->Ok_0;
        let (value, more) = decode(entry.1, bytes.skip(used as int), depth)->Ok_0;
        let rest = decode_entries(
            entry,
            bytes.skip((used + more) as int),
            depth,
            (count - 1) as nat,
            Some(bytes.take(used as int)),
        )->Ok_0.0;
        lemma_encode_decode(entry.0, bytes, depth);
        lemma_decoded_entries_ascend(
            entry,
            bytes.skip((used + more) as int),
            depth,
            (count - 1) as nat,
            Some(bytes.take(used as int)),
        );
        let pairs = seq![(key, value)] + rest;
        assert(pairs[0] == (key, value));
        assert(pairs.drop_first() =~= rest);
    }
}

/// The keys of a map that was decoded come in strictly ascending order of
/// their bytes.
pub proof fn lemma_decoded_map_ascends(entry: (Shape, Shape), bytes: Seq<u8>, depth: nat)
    requires
        decode_map(entry, bytes, depth) is Ok,
    ensures
        decode_map(entry, bytes, depth)->Ok_0.0 is Mapping,
        keys_ascend(None, decode_map(entry, bytes, depth)->Ok_0.0->Mapping_0),
{
    let (count, used) = length_decode(bytes)->Ok_0;
    lemma_decoded_entries_ascend(entry, bytes.skip(used as int), depth, count, None);
}

/// Keys that ascend are in order however far apart they stand, and so no two
/// of them are the same.
pub proof fn lemma_ascending_keys_differ(
    previous: Option<Seq<u8>>,
    pairs: Seq<(SpecValue, SpecValue)>,
    i: int,
    j: int,
)
    requires
        keys_ascend(previous, pairs),
        0 <= i < j < pairs.len(),
    ensures
        lex_lt(encode(pairs[i].0), encode(pairs[j].0)),
        encode(pairs[i].0) != encode(pairs[j].0),
    decreases j,
{
    let rest = pairs.drop_first();
    let first = Some(encode(pairs[0].0));
    assert(rest[j - 1] == pairs[j]);
    assert(keys_ascend(first, rest));
    assert(lex_lt(encode(pairs[0].0), encode(rest[0].0)));
    if i > 0 {
        assert(rest[i - 1] == pairs[i]);
        lemma_ascending_keys_differ(first, rest, i - 1, j - 1);
    } else {
        assert(rest[0] == pairs[1]);
        if j > 1 {
            lemma_ascending_keys_differ(first, rest, 0, j - 1);
            lemma_lex_lt_transitive(
                encode(pairs[0].0),
                encode(pairs[1].0),
                encode(pairs[j].0),
            );
        }
        lemma_lex_lt_irreflexive(encode(pairs[0].0));
    }
}

/// A whole input that was decoded is written again as that input, byte for
/// byte.
pub proof fn lemma_round_trip(shape: Shape, bytes: Seq<u8>, depth: nat)
    requires
        decode_all(shape, bytes, depth) is Ok,
    ensures
        encode(decode_all(shape, bytes, depth)->Ok_0) == bytes,
{
    lemma_encode_decode(shape, bytes, depth);
    assert(bytes.take(bytes.len() as int) =~= bytes);
}

/// Two inputs that decode to the same value under their shapes are the same
/// input.
pub proof fn lemma_encoding_is_unique(
    shape: Shape,
    bytes: Seq<u8>,
    other_shape: Shape,
    other: Seq<u8>,
    depth: nat,
    other_depth: nat,
)
    requires
        decode_all(shape, bytes, depth) is Ok,
        decode_all(other_shape, other, other_depth) == decode_all(shape, bytes, depth),
    ensures
        other == bytes,
{
    lemma_round_trip(shape, bytes, depth);
    lemma_round_trip(other_shape, other, other_depth);
}

} // verus!
