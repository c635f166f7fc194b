//! What holds of the format as a whole: decoding looks at no byte behind the
//! ones it takes, values that follow one another decode as a list, and a
//! value that is cut short decodes to nothing but the end of the input.

use crate::grammar::{
    decode, decode_entries, decode_enum, decode_fields, decode_map, decode_newtype_struct,
    decode_option, decode_repeated, decode_seq, decode_tuple, decode_tuple_struct, decode_variant,
    failing_key, failing_key_entries, failing_key_fields, failing_key_repeated, shifted,
};
use crate::encoding::{
    lemma_encode_decode, lemma_encode_decode_entries, lemma_encode_decode_fields,
    lemma_encode_decode_map, lemma_encode_decode_option, lemma_encode_decode_repeated,
    lemma_encode_decode_seq, lemma_encode_decode_variant,
};
use crate::error::Failure;
use crate::shape::Shape;
use crate::value::SpecValue;
use crate::wire::{
    bool_decode, byte_string_decode, lemma_continuation_run_bytes, lemma_continuation_run_split,
    lemma_uleb128_decode_prefix, length_decode, lex_lt, option_tag_decode, string_decode,
    uint_decode, uleb128_decode,
};
use vstd::prelude::*;

verus! {

/// Whether `a` and `b` both have `k` bytes and start with the same `k`.
pub open spec fn agree(a: Seq<u8>, b: Seq<u8>, k: nat) -> bool {
    k <= a.len() && k <= b.len() && a.take(k as int) == b.take(k as int)
}

/// Inputs that start alike hold the same byte at every place of that start.
pub proof fn lemma_agree_index(a: Seq<u8>, b: Seq<u8>, k: nat)
    requires
        agree(a, b, k),
    ensures
        forall|i: int| 0 <= i < k ==> a[i] == b[i],
{
    assert forall|i: int| 0 <= i < k implies a[i] == b[i] by {
        assert(a[i] == a.take(k as int)[i]);
        assert(b[i] == b.take(k as int)[i]);
    }
}

/// Inputs that start alike for `first + second` bytes start alike for `first`
/// bytes, and for `second` more behind those.
pub proof fn lemma_agree_split(a: Seq<u8>, b: Seq<u8>, first: nat, second: nat)
    requires
        agree(a, b, first + second),
    ensures
        agree(a, b, first),
        agree(a.skip(first as int), b.skip(first as int), second),
{
    lemma_agree_index(a, b, first + second);
    assert(a.take(first as int) =~= b.take(first as int));
    assert(a.skip(first as int).take(second as int) =~= b.skip(first as int).take(second as int));
}

/// Every input starts like itself with more behind it.
pub proof fn lemma_agree_extended(a: Seq<u8>, more: Seq<u8>)
    ensures
        agree(a, a + more, a.len()),
{
    assert(a.take(a.len() as int) =~= (a + more).take(a.len() as int));
}

/// A truth value depends on the one byte it takes.
pub proof fn lemma_bool_prefix(bytes: Seq<u8>, other: Seq<u8>)
    requires
        bool_decode(bytes) is Ok,
        agree(bytes, other, bool_decode(bytes)->Ok_0.1),
    ensures
        bool_decode(other) == bool_decode(bytes),
{
    lemma_agree_index(bytes, other, 1);
}

/// A presence tag depends on the one byte it takes.
pub proof fn lemma_option_tag_prefix(bytes: Seq<u8>, other: Seq<u8>)
    requires
        option_tag_decode(bytes) is Ok,
        agree(bytes, other, option_tag_decode(bytes)->Ok_0.1),
    ensures
        option_tag_decode(other) == option_tag_decode(bytes),
{
    lemma_agree_index(bytes, other, 1);
}

/// An integer of fixed width depends on the bytes it takes.
pub proof fn lemma_uint_prefix(bytes: Seq<u8>, other: Seq<u8>, width: nat)
    requires
        uint_decode(bytes, width) is Ok,
        agree(bytes, other, uint_decode(bytes, width)->Ok_0.1),
    ensures
        uint_decode(other, width) == uint_decode(bytes, width),
{
}

/// A length prefix depends on the bytes it takes.
pub proof fn lemma_length_prefix(bytes: Seq<u8>, other: Seq<u8>)
    requires
        length_decode(bytes) is Ok,
        agree(bytes, other, length_decode(bytes)->Ok_0.1),
    ensures
        length_decode(other) == length_decode(bytes),
{
    lemma_uleb128_decode_prefix(bytes, other);
}

/// A byte string depends on the bytes it takes.
pub proof fn lemma_byte_string_prefix(bytes: Seq<u8>, other: Seq<u8>)
    requires
        byte_string_decode(bytes) is Ok,
        agree(bytes, other, byte_string_decode(bytes)->Ok_0.1),
    ensures
        byte_string_decode(other) == byte_string_decode(bytes),
{
    let (len, used) = length_decode(bytes)->Ok_0;
    lemma_agree_split(bytes, other, used, len);
    lemma_length_prefix(bytes, other);
    assert(bytes.subrange(used as int, (used + len) as int) =~= bytes.skip(used as int).take(
        len as int,
    ));
    assert(other.subrange(used as int, (used + len) as int) =~= other.skip(used as int).take(
        len as int,
    ));
}

/// A text depends on the bytes it takes.
pub proof fn lemma_string_prefix(bytes: Seq<u8>, other: Seq<u8>)
    requires
        string_decode(bytes) is Ok,
        agree(bytes, other, string_decode(bytes)->Ok_0.1),
    ensures
        string_decode(other) == string_decode(bytes),
{
    lemma_byte_string_prefix(bytes, other);
}

/// Decoding looks at no byte behind the ones it takes: an input that starts
/// with the bytes that a value took decodes to the same value, and takes as
/// many bytes.
pub proof fn lemma_decode_prefix(shape: Shape, bytes: Seq<u8>, other: Seq<u8>, depth: nat)
    requires
        decode(shape, bytes, depth) is Ok,
        agree(bytes, other, decode(shape, bytes, depth)->Ok_0.1),
    ensures
        decode(shape, other, depth) == decode(shape, bytes, depth),
    decreases shape, 0nat, 0nat,
{
    match shape {
        Shape::Bool => lemma_bool_prefix(bytes, other),
        Shape::U8 | Shape::I8 => lemma_uint_prefix(bytes, other, 1),
        Shape::U16 | Shape::I16 => lemma_uint_prefix(bytes, other, 2),
        Shape::U32 | Shape::I32 => lemma_uint_prefix(bytes, other, 4),
        Shape::U64 | Shape::I64 => lemma_uint_prefix(bytes, other, 8),
        Shape::U128 | Shape::I128 => lemma_uint_prefix(bytes, other, 16),
        Shape::Str => lemma_string_prefix(bytes, other),
        Shape::Bytes | Shape::Identifier => lemma_byte_string_prefix(bytes, other),
        Shape::Optional(inner) => lemma_decode_option_prefix(*inner, bytes, other, depth),
        Shape::NewtypeStruct(name, inner) => lemma_decode_newtype_struct_prefix(
            name,
            *inner,
            bytes,
            other,
            depth,
        ),
        Shape::Sequence(element) => lemma_decode_seq_prefix(*element, bytes, other, depth),
        Shape::Tuple(fields) => lemma_decode_tuple_prefix(fields@, bytes, other, depth),
        Shape::TupleStruct(name, fields) => lemma_decode_tuple_struct_prefix(
            name,
            fields@,
            bytes,
            other,
            depth,
        ),
        Shape::Mapping(entry) => lemma_decode_map_prefix(*entry, bytes, other, depth),
        Shape::Struct(name, fields) => lemma_decode_tuple_struct_prefix(
            name,
            fields@,
            bytes,
            other,
            depth,
        ),
        Shape::Enum(name, variants) => lemma_decode_enum_prefix(
            name,
            variants@,
            bytes,
            other,
            depth,
        ),
        _ => {},
    }
}

/// An optional value depends on the bytes it takes.
pub proof fn lemma_decode_option_prefix(inner: Shape, bytes: Seq<u8>, other: Seq<u8>, depth: nat)
    requires
        decode_option(inner, bytes, depth) is Ok,
        agree(bytes, other, decode_option(inner, bytes, depth)->Ok_0.1),
    ensures
        decode_option(inner, other, depth) == decode_option(inner, bytes, depth),
    decreases inner, 1nat, 0nat,
{
    let (present, used) = option_tag_decode(bytes)->Ok_0;
    if present {
        let more = decode(inner, bytes.skip(used as int), depth)->Ok_0.1;
        lemma_agree_split(bytes, other, used, more);
        lemma_option_tag_prefix(bytes, other);
        lemma_decode_prefix(inner, bytes.skip(used as int), other.skip(used as int), depth);
    } else {
        lemma_option_tag_prefix(bytes, other);
    }
}

/// A named wrapper depends on the bytes it takes.
pub proof fn lemma_decode_newtype_struct_prefix(
    name: &'static str,
    inner: Shape,
    bytes: Seq<u8>,
    other: Seq<u8>,
    depth: nat,
)
    requires
        decode_newtype_struct(name, inner, bytes, depth) is Ok,
        agree(bytes, other, decode_newtype_struct(name, inner, bytes, depth)->Ok_0.1),
    ensures
        decode_newtype_struct(name, inner, other, depth) == decode_newtype_struct(
            name,
            inner,
            bytes,
            depth,
        ),
    decreases inner, 1nat, 0nat,
{
    lemma_decode_prefix(inner, bytes, other, (depth - 1) as nat);
}

/// A run of values of one shape depends on the bytes it takes.
pub proof fn lemma_decode_repeated_prefix(
    element: Shape,
    bytes: Seq<u8>,
    other: Seq<u8>,
    depth: nat,
    count: nat,
)
    requires
        decode_repeated(element, bytes, depth, count) is Ok,
        agree(bytes, other, decode_repeated(element, bytes, depth, count)->Ok_0.1),
    ensures
        decode_repeated(element, other, depth, count) == decode_repeated(
            element,
            bytes,
            depth,
            count,
        ),
    decreases element, 1nat, count,
{
    if count > 0 {
        let used = decode(element, bytes, depth)->Ok_0.1;
        let more = decode_repeated(
            element,
            bytes.skip(used as int),
            depth,
            (count - 1) as nat,
        )->Ok_0.1;
        lemma_agree_split(bytes, other, used, more);
        lemma_decode_prefix(element, bytes, other, depth);
        lemma_decode_repeated_prefix(
            element,
            bytes.skip(used as int),
            other.skip(used as int),
            depth,
            (count - 1) as nat,
        );
    }
}

/// A sequence depends on the bytes it takes.
pub proof fn lemma_decode_seq_prefix(element: Shape, bytes: Seq<u8>, other: Seq<u8>, depth: nat)
    requires
        decode_seq(element, bytes, depth) is Ok,
        agree(bytes, other, decode_seq(element, bytes, depth)->Ok_0.1),
    ensures
        decode_seq(element, other, depth) == decode_seq(element, bytes, depth),
    decreases element, 2nat, 0nat,
{
    let (count, used) = length_decode(bytes)->Ok_0;
    let more = decode_repeated(element, bytes.skip(used as int), depth, count)->Ok_0.1;
    lemma_agree_split(bytes, other, used, more);
    lemma_length_prefix(bytes, other);
    lemma_decode_repeated_prefix(
        element,
        bytes.skip(used as int),
        other.skip(used as int),
        depth,
        count,
    );
}

/// A list of fields depends on the bytes it takes.
pub proof fn lemma_decode_fields_prefix(
    fields: Seq<Shape>,
    bytes: Seq<u8>,
    other: Seq<u8>,
    depth: nat,
)
    requires
        decode_fields(fields, bytes, depth) is Ok,
        agree(bytes, other, decode_fields(fields, bytes, depth)->Ok_0.1),
    ensures
        decode_fields(fields, other, depth) == decode_fields(fields, bytes, depth),
    decreases fields, 1nat, 0nat,
{
    if fields.len() > 0 {
        let used = decode(fields[0], bytes, depth)->Ok_0.1;
        let more = decode_fields(fields.drop_first(), bytes.skip(used as int), depth)->Ok_0.1;
        lemma_agree_split(bytes, other, used, more);
        lemma_decode_prefix(fields[0], bytes, other, depth);
        lemma_decode_fields_prefix(
            fields.drop_first(),
            bytes.skip(used as int),
            other.skip(used as int),
            depth,
        );
    }
}

/// A tuple depends on the bytes it takes.
pub proof fn lemma_decode_tuple_prefix(
    fields: Seq<Shape>,
    bytes: Seq<u8>,
    other: Seq<u8>,
    depth: nat,
)
    requires
        decode_tuple(fields, bytes, depth) is Ok,
        agree(bytes, other, decode_tuple(fields, bytes, depth)->Ok_0.1),
    ensures
        decode_tuple(fields, other, depth) == decode_tuple(fields, bytes, depth),
    decreases fields, 2nat, 0nat,
{
    lemma_decode_fields_prefix(fields, bytes, other, depth);
}

/// A named tuple or struct depends on the bytes it takes.
pub proof fn lemma_decode_tuple_struct_prefix(
    name: &'static str,
    fields: Seq<Shape>,
    bytes: Seq<u8>,
    other: Seq<u8>,
    depth: nat,
)
    requires
        decode_tuple_struct(name, fields, bytes, depth) is Ok,
        agree(bytes, other, decode_tuple_struct(name, fields, bytes, depth)->Ok_0.1),
    ensures
        decode_tuple_struct(name, fields, other, depth) == decode_tuple_struct(
            name,
            fields,
            bytes,
            depth,
        ),
    decreases fields, 3nat, 0nat,
{
    lemma_decode_tuple_prefix(fields, bytes, other, (depth - 1) as nat);
}

/// A run of pairs depends on the bytes it takes.
pub proof fn lemma_decode_entries_prefix(
    entry: (Shape, Shape),
    bytes: Seq<u8>,
    other: Seq<u8>,
    depth: nat,
    count: nat,
    previous: Option<Seq<u8>>,
)
    requires
        decode_entries(entry, bytes, depth, count, previous) is Ok,
        agree(bytes, other, decode_entries(entry, bytes, depth, count, previous)->Ok_0.1),
    ensures
        decode_entries(entry, other, depth, count, previous) == decode_entries(
            entry,
            bytes,
            depth,
            count,
            previous,
        ),
    decreases entry, 1nat, count,
{
    if count > 0 {
        let used = decode(entry.0, bytes, depth)->Ok_0.1;
        let more = decode(entry.1, bytes.skip(used as int), depth)->Ok_0.1;
        let last = decode_entries(
            entry,
            bytes.skip((used + more) as int),
            depth,
            (count - 1) as nat,
            Some(bytes.take(used as int)),
        )->Ok_0.1;
        lemma_agree_split(bytes, other, used + more, last);
        lemma_agree_split(bytes, other, used, more);
        lemma_decode_prefix(entry.0, bytes, other, depth);
        lemma_decode_prefix(entry.1, bytes.skip(used as int), other.skip(used as int), depth);
        lemma_decode_entries_prefix(
            entry,
            bytes.skip((used + more) as int),
            other.skip((used + more) as int),
            depth,
            (count - 1) as nat,
            Some(bytes.take(used as int)),
        );
    }
}

/// A map depends on the bytes it takes.
pub proof fn lemma_decode_map_prefix(
    entry: (Shape, Shape),
    bytes: Seq<u8>,
    other: Seq<u8>,
    depth: nat,
)
    requires
        decode_map(entry, bytes, depth) is Ok,
        agree(bytes, other, decode_map(entry, bytes, depth)->Ok_0.1),
    ensures
        decode_map(entry, other, depth) == decode_map(entry, bytes, depth),
    decreases entry, 2nat, 0nat,
{
    let (count, used) = length_decode(bytes)->Ok_0;
    let more = decode_entries(entry, bytes.skip(used as int), depth, count, None)->Ok_0.1;
    lemma_agree_split(bytes, other, used, more);
    lemma_length_prefix(bytes, other);
    lemma_decode_entries_prefix(
        entry,
        bytes.skip(used as int),
        other.skip(used as int),
        depth,
        count,
        None,
    );
}

/// The inside of an enum depends on the bytes it takes.
pub proof fn lemma_decode_variant_prefix(
    variants: Seq<Shape>,
    bytes: Seq<u8>,
    other: Seq<u8>,
    depth: nat,
)
    requires
        decode_variant(variants, bytes, depth) is Ok,
        agree(bytes, other, decode_variant(variants, bytes, depth)->Ok_0.1),
    ensures
        decode_variant(variants, other, depth) == decode_variant(variants, bytes, depth),
    decreases variants, 1nat, 0nat,
{
    let (index, used) = uleb128_decode(bytes)->Ok_0;
    let more = decode(variants[index as int], bytes.skip(used as int), depth)->Ok_0.1;
    lemma_agree_split(bytes, other, used, more);
    lemma_uleb128_decode_prefix(bytes, other);
    lemma_decode_prefix(
        variants[index as int],
        bytes.skip(used as int),
        other.skip(used as int),
        depth,
    );
}

/// An enum depends on the bytes it takes.
pub proof fn lemma_decode_enum_prefix(
    name: &'static str,
    variants: Seq<Shape>,
    bytes: Seq<u8>,
    other: Seq<u8>,
    depth: nat,
)
    requires
        decode_enum(name, variants, bytes, depth) is Ok,
        agree(bytes, other, decode_enum(name, variants, bytes, depth)->Ok_0.1),
    ensures
        decode_enum(name, variants, other, depth) == decode_enum(name, variants, bytes, depth),
    decreases variants, 2nat, 0nat,
{
    lemma_decode_variant_prefix(variants, bytes, other, (depth - 1) as nat);
}

/// The bytes of the key that was decoded last when `count` pairs are decoded
/// from `bytes`, or `previous` where no pair is decoded.
pub open spec fn last_key(
    entry: (Shape, Shape),
    bytes: Seq<u8>,
    depth: nat,
    count: nat,
    previous: Option<Seq<u8>>,
) -> Option<Seq<u8>>
    decreases count,
{
    if count == 0 {
        previous
    } else {
        match decode(entry.0, bytes, depth) {
            Err(_) => None,
            Ok((_, used)) => match decode(entry.1, bytes.skip(used as int), depth) {
                Err(_) => None,
                Ok((_, more)) => last_key(
                    entry,
                    bytes.skip((used + more) as int),
                    depth,
                    (count - 1) as nat,
                    Some(bytes.take(used as int)),
                ),
            },
        }
    }
}

/// A run of values followed by the bytes of one more value of the same shape
/// is a run that is longer by that value.
pub proof fn lemma_decode_repeated_append(
    element: Shape,
    bytes: Seq<u8>,
    more: Seq<u8>,
    depth: nat,
    count: nat,
)
    requires
        decode_repeated(element, bytes, depth, count) is Ok,
        decode_repeated(element, bytes, depth, count)->Ok_0.1 == bytes.len(),
        decode(element, more, depth) is Ok,
        decode(element, more, depth)->Ok_0.1 == more.len(),
    ensures
        decode_repeated(element, bytes + more, depth, count + 1) == Ok::<
            (Seq<SpecValue>, nat),
            Failure,
        >(
            (
                decode_repeated(element, bytes, depth, count)->Ok_0.0.push(
                    decode(element, more, depth)->Ok_0.0,
                ),
                bytes.len() + more.len(),
            ),
        ),
    decreases count,
{
    let all = bytes + more;
    let last = decode(element, more, depth)->Ok_0.0;
    if count == 0 {
        assert(all =~= more);
        assert(more.skip(more.len() as int).len() == 0);
        assert(decode_repeated(element, more.skip(more.len() as int), depth, 0) == Ok::<
            (Seq<SpecValue>, nat),
            Failure,
        >((Seq::empty(), 0)));
        assert(seq![last] + Seq::<SpecValue>::empty() =~= Seq::<SpecValue>::empty().push(last));
    } else {
        let (first, used) = decode(element, bytes, depth)->Ok_0;
        let tail = bytes.skip(used as int);
        let (rest, left) = decode_repeated(element, tail, depth, (count - 1) as nat)->Ok_0;
        lemma_agree_extended(bytes, more);
        lemma_agree_split(bytes, all, used, left);
        lemma_decode_prefix(element, bytes, all, depth);
        assert(all.skip(used as int) =~= tail + more);
        lemma_decode_repeated_append(element, tail, more, depth, (count - 1) as nat);
        assert(seq![first] + rest.push(last) =~= (seq![first] + rest).push(last));
    }
}

/// A list of fields followed by the bytes of one more field is the list
/// that is longer by that field.
pub proof fn lemma_decode_fields_append(
    fields: Seq<Shape>,
    shape: Shape,
    bytes: Seq<u8>,
    more: Seq<u8>,
    depth: nat,
)
    requires
        decode_fields(fields, bytes, depth) is Ok,
        decode_fields(fields, bytes, depth)->Ok_0.1 == bytes.len(),
        decode(shape, more, depth) is Ok,
        decode(shape, more, depth)->Ok_0.1 == more.len(),
    ensures
        decode_fields(fields.push(shape), bytes + more, depth) == Ok::<
            (Seq<SpecValue>, nat),
            Failure,
        >(
            (
                decode_fields(fields, bytes, depth)->Ok_0.0.push(decode(shape, more, depth)->Ok_0.0),
                bytes.len() + more.len(),
            ),
        ),
    decreases fields.len(),
{
    let all = bytes + more;
    let longer = fields.push(shape);
    let last = decode(shape, more, depth)->Ok_0.0;
    if fields.len() == 0 {
        assert(all =~= more);
        assert(longer[0] == shape);
        assert(longer.drop_first() =~= Seq::<Shape>::empty());
        assert(decode_fields(longer.drop_first(), more.skip(more.len() as int), depth) == Ok::<
            (Seq<SpecValue>, nat),
            Failure,
        >((Seq::empty(), 0)));
        assert(seq![last] + Seq::<SpecValue>::empty() =~= Seq::<SpecValue>::empty().push(last));
    } else {
        let (first, used) = decode(fields[0], bytes, depth)->Ok_0;
        let tail = bytes.skip(used as int);
        let (rest, left) = decode_fields(fields.drop_first(), tail, depth)->Ok_0;
        lemma_agree_extended(bytes, more);
        lemma_agree_split(bytes, all, used, left);
        lemma_decode_prefix(fields[0], bytes, all, depth);
        assert(all.skip(used as int) =~= tail + more);
        assert(longer[0] == fields[0]);
        assert(longer.drop_first() =~= fields.drop_first().push(shape));
        lemma_decode_fields_append(fields.drop_first(), shape, tail, more, depth);
        assert(seq![first] + rest.push(last) =~= (seq![first] + rest).push(last));
    }
}

/// The bytes of a key and the bytes of a value behind them are a run of one
/// pair, where the key comes after `previous`; the last key of that run is
/// this key.
pub proof fn lemma_decode_entries_single(
    entry: (Shape, Shape),
    key: Seq<u8>,
    value: Seq<u8>,
    depth: nat,
    previous: Option<Seq<u8>>,
)
    requires
        decode(entry.0, key, depth) is Ok,
        decode(entry.0, key, depth)->Ok_0.1 == key.len(),
        decode(entry.1, value, depth) is Ok,
        decode(entry.1, value, depth)->Ok_0.1 == value.len(),
        previous is None || lex_lt(previous->Some_0, key),
    ensures
        decode_entries(entry, key + value, depth, 1, previous) == Ok::<
            (Seq<(SpecValue, SpecValue)>, nat),
            Failure,
        >(
            (
                seq![(decode(entry.0, key, depth)->Ok_0.0, decode(entry.1, value, depth)->Ok_0.0)],
                key.len() + value.len(),
            ),
        ),
        last_key(entry, key + value, depth, 1, previous) == Some(key),
{
    let all = key + value;
    let pair = (decode(entry.0, key, depth)->Ok_0.0, decode(entry.1, value, depth)->Ok_0.0);
    lemma_agree_extended(key, value);
    lemma_decode_prefix(entry.0, key, all, depth);
    assert(all.take(key.len() as int) =~= key);
    assert(all.skip(key.len() as int) =~= value);
    let behind = all.skip((key.len() + value.len()) as int);
    assert(behind.len() == 0);
    assert(decode_entries(entry, behind, depth, 0, Some(key)) == Ok::<
        (Seq<(SpecValue, SpecValue)>, nat),
        Failure,
    >((Seq::empty(), 0)));
    assert(last_key(entry, behind, depth, 0, Some(key)) == Some(key));
    assert(seq![pair] + Seq::<(SpecValue, SpecValue)>::empty() =~= seq![pair]);
}

/// A run of pairs followed by the bytes of another run, whose keys come
/// after the last key of the first, is the run of the pairs of both; its last
/// key is the last key of the second.
pub proof fn lemma_decode_entries_append(
    entry: (Shape, Shape),
    bytes: Seq<u8>,
    more: Seq<u8>,
    depth: nat,
    count: nat,
    added: nat,
    previous: Option<Seq<u8>>,
)
    requires
        decode_entries(entry, bytes, depth, count, previous) is Ok,
        decode_entries(entry, bytes, depth, count, previous)->Ok_0.1 == bytes.len(),
        decode_entries(
            entry,
            more,
            depth,
            added,
            last_key(entry, bytes, depth, count, previous),
        ) is Ok,
    ensures
        decode_entries(entry, bytes + more, depth, count + added, previous) == Ok::<
            (Seq<(SpecValue, SpecValue)>, nat),
            Failure,
        >(
            (
                decode_entries(entry, bytes, depth, count, previous)->Ok_0.0 + decode_entries(
                    entry,
                    more,
                    depth,
                    added,
                    last_key(entry, bytes, depth, count, previous),
                )->Ok_0.0,
                bytes.len() + decode_entries(
                    entry,
                    more,
                    depth,
                    added,
                    last_key(entry, bytes, depth, count, previous),
                )->Ok_0.1,
            ),
        ),
        last_key(entry, bytes + more, depth, count + added, previous) == last_key(
            entry,
            more,
            depth,
            added,
            last_key(entry, bytes, depth, count, previous),
        ),
    decreases count,
{
    let all = bytes + more;
    let second = decode_entries(
        entry,
        more,
        depth,
        added,
        last_key(entry, bytes, depth, count, previous),
    )->Ok_0;
    if count == 0 {
        assert(all =~= more);
        assert(Seq::<(SpecValue, SpecValue)>::empty() + second.0 =~= second.0);
    } else {
        let (first_key, used) = decode(entry.0, bytes, depth)->Ok_0;
        let (first_value, next) = decode(entry.1, bytes.skip(used as int), depth)->Ok_0;
        let key_bytes = bytes.take(used as int);
        let tail = bytes.skip((used + next) as int);
        let (rest, left) = decode_entries(
            entry,
            tail,
            depth,
            (count - 1) as nat,
            Some(key_bytes),
        )->Ok_0;
        lemma_agree_extended(bytes, more);
        lemma_agree_split(bytes, all, used + next, left);
        lemma_agree_split(bytes, all, used, next);
        lemma_decode_prefix(entry.0, bytes, all, depth);
        lemma_decode_prefix(entry.1, bytes.skip(used as int), all.skip(used as int), depth);
        assert(all.skip((used + next) as int) =~= tail + more);
        assert(all.take(used as int) == key_bytes);
        lemma_decode_entries_append(
            entry,
            tail,
            more,
            depth,
            (count - 1) as nat,
            added,
            Some(key_bytes),
        );
        assert(seq![(first_key, first_value)] + (rest + second.0) =~= (seq![
            (first_key, first_value),
        ] + rest) + second.0);
    }
}

/// A run of values followed by bytes that are no further value of the shape
/// fails as those bytes do, however many values the run should have, and
/// inside the same key, if inside one.
pub proof fn lemma_decode_repeated_fails(
    element: Shape,
    bytes: Seq<u8>,
    more: Seq<u8>,
    depth: nat,
    count: nat,
    total: nat,
)
    requires
        decode_repeated(element, bytes, depth, count) is Ok,
        decode_repeated(element, bytes, depth, count)->Ok_0.1 == bytes.len(),
        decode(element, more, depth) is Err,
        count < total,
    ensures
        decode_repeated(element, bytes + more, depth, total) == Err::<
            (Seq<SpecValue>, nat),
            Failure,
        >(decode(element, more, depth)->Err_0),
        failing_key_repeated(element, bytes + more, depth, total) == shifted(
            failing_key(element, more, depth),
            bytes.len(),
        ),
    decreases count,
{
    let all = bytes + more;
    if count == 0 {
        assert(all =~= more);
    } else {
        let used = decode(element, bytes, depth)->Ok_0.1;
        let tail = bytes.skip(used as int);
        let left = decode_repeated(element, tail, depth, (count - 1) as nat)->Ok_0.1;
        lemma_agree_extended(bytes, more);
        lemma_agree_split(bytes, all, used, left);
        lemma_decode_prefix(element, bytes, all, depth);
        assert(all.skip(used as int) =~= tail + more);
        lemma_decode_repeated_fails(
            element,
            tail,
            more,
            depth,
            (count - 1) as nat,
            (total - 1) as nat,
        );
    }
}

/// The first fields of a list followed by bytes that are no value of the next
/// field fail as those bytes do, and inside the same key, if inside one.
pub proof fn lemma_decode_fields_fails(
    fields: Seq<Shape>,
    bytes: Seq<u8>,
    more: Seq<u8>,
    depth: nat,
    i: nat,
)
    requires
        i < fields.len(),
        decode_fields(fields.take(i as int), bytes, depth) is Ok,
        decode_fields(fields.take(i as int), bytes, depth)->Ok_0.1 == bytes.len(),
        decode(fields[i as int], more, depth) is Err,
    ensures
        decode_fields(fields, bytes + more, depth) == Err::<(Seq<SpecValue>, nat), Failure>(
            decode(fields[i as int], more, depth)->Err_0,
        ),
        failing_key_fields(fields, bytes + more, depth) == shifted(
            failing_key(fields[i as int], more, depth),
            bytes.len(),
        ),
    decreases i,
{
    let all = bytes + more;
    let first = fields.take(i as int);
    if i == 0 {
        assert(first =~= Seq::<Shape>::empty());
        assert(all =~= more);
    } else {
        assert(first[0] == fields[0]);
        assert(first.drop_first() =~= fields.drop_first().take(i - 1));
        assert(fields.drop_first()[i - 1] == fields[i as int]);
        let used = decode(fields[0], bytes, depth)->Ok_0.1;
        let tail = bytes.skip(used as int);
        let left = decode_fields(first.drop_first(), tail, depth)->Ok_0.1;
        lemma_agree_extended(bytes, more);
        lemma_agree_split(bytes, all, used, left);
        lemma_decode_prefix(fields[0], bytes, all, depth);
        assert(all.skip(used as int) =~= tail + more);
        lemma_decode_fields_fails(fields.drop_first(), tail, more, depth, (i - 1) as nat);
    }
}

/// A run of pairs followed by bytes that are no further run of pairs behind
/// its last key fails as those bytes do, and inside the same key, if inside
/// one.
pub proof fn lemma_decode_entries_fails(
    entry: (Shape, Shape),
    bytes: Seq<u8>,
    more: Seq<u8>,
    depth: nat,
    count: nat,
    added: nat,
    previous: Option<Seq<u8>>,
)
    requires
        decode_entries(entry, bytes, depth, count, previous) is Ok,
        decode_entries(entry, bytes, depth, count, previous)->Ok_0.1 == bytes.len(),
        decode_entries(
            entry,
            more,
            depth,
            added,
            last_key(entry, bytes, depth, count, previous),
        ) is Err,
    ensures
        decode_entries(entry, bytes + more, depth, count + added, previous) == Err::<
            (Seq<(SpecValue, SpecValue)>, nat),
            Failure,
        >(
            decode_entries(
                entry,
                more,
                depth,
                added,
                last_key(entry, bytes, depth, count, previous),
            )->Err_0,
        ),
        failing_key_entries(entry, bytes + more, depth, count + added) == shifted(
            failing_key_entries(entry, more, depth, added),
            bytes.len(),
        ),
    decreases count,
{
    let all = bytes + more;
    if count == 0 {
        assert(all =~= more);
    } else {
        let used = decode(entry.0, bytes, depth)->Ok_0.1;
        let next = decode(entry.1, bytes.skip(used as int), depth)->Ok_0.1;
        let key_bytes = bytes.take(used as int);
        let tail = bytes.skip((used + next) as int);
        let left = decode_entries(
            entry,
            tail,
            depth,
            (count - 1) as nat,
            Some(key_bytes),
        )->Ok_0.1;
        lemma_agree_extended(bytes, more);
        lemma_agree_split(bytes, all, used + next, left);
        lemma_agree_split(bytes, all, used, next);
        lemma_decode_prefix(entry.0, bytes, all, depth);
        lemma_decode_prefix(entry.1, bytes.skip(used as int), all.skip(used as int), depth);
        assert(all.skip((used + next) as int) =~= tail + more);
        assert(all.take(used as int) == key_bytes);
        lemma_decode_entries_fails(
            entry,
            tail,
            more,
            depth,
            (count - 1) as nat,
            added,
            Some(key_bytes),
        );
    }
}

/// An input that is cut off behind its first `k` bytes starts like the whole
/// input for these `k`, and what is left of it behind them is what is left of
/// the whole input, cut off as much earlier.
pub proof fn lemma_cut_agrees(bytes: Seq<u8>, n: nat, k: nat)
    requires
        k <= n <= bytes.len(),
    ensures
        agree(bytes, bytes.take(n as int), k),
        bytes.take(n as int).skip(k as int) == bytes.skip(k as int).take(n - k),
{
    assert(bytes.take(k as int) =~= bytes.take(n as int).take(k as int));
    assert(bytes.take(n as int).skip(k as int) =~= bytes.skip(k as int).take(n - k));
}

/// A variable-length integer that is cut short ends early.
pub proof fn lemma_uleb128_truncated(bytes: Seq<u8>, n: nat)
    requires
        uleb128_decode(bytes) is Ok,
        n < uleb128_decode(bytes)->Ok_0.1,
    ensures
        uleb128_decode(bytes.take(n as int)) == Err::<(u32, nat), Failure>(Failure::Eof),
{
    let cut = bytes.take(n as int);
    lemma_continuation_run_bytes(bytes);
    assert forall|j: int| 0 <= j < n implies cut[j] >= 128 by {
        assert(cut[j] == bytes[j]);
    }
    lemma_continuation_run_split(cut, n);
    assert(cut.skip(n as int).len() == 0);
}

/// A byte string that is cut short ends early.
pub proof fn lemma_byte_string_truncated(bytes: Seq<u8>, n: nat)
    requires
        byte_string_decode(bytes) is Ok,
        n < byte_string_decode(bytes)->Ok_0.1,
    ensures
        byte_string_decode(bytes.take(n as int)) == Err::<(Seq<u8>, nat), Failure>(Failure::Eof),
{
    let used = length_decode(bytes)->Ok_0.1;
    if n < used {
        lemma_uleb128_truncated(bytes, n);
    } else {
        lemma_cut_agrees(bytes, n, used);
        lemma_length_prefix(bytes, bytes.take(n as int));
    }
}

/// A value that is cut short ends early: where `bytes` start with a value,
/// fewer of these bytes than the value takes decode to nothing but the
/// failure that the input has ended.
pub proof fn lemma_decode_truncated(shape: Shape, bytes: Seq<u8>, n: nat, depth: nat)
    requires
        decode(shape, bytes, depth) is Ok,
        n < decode(shape, bytes, depth)->Ok_0.1,
    ensures
        decode(shape, bytes.take(n as int), depth) == Err::<(SpecValue, nat), Failure>(
            Failure::Eof,
        ),
    decreases shape, 0nat, 0nat,
{
    lemma_encode_decode(shape, bytes, depth);
    match shape {
        Shape::Str => lemma_byte_string_truncated(bytes, n),
        Shape::Bytes | Shape::Identifier => lemma_byte_string_truncated(bytes, n),
        Shape::Optional(inner) => lemma_decode_option_truncated(*inner, bytes, n, depth),
        Shape::NewtypeStruct(name, inner) => lemma_decode_newtype_struct_truncated(
            name,
            *inner,
            bytes,
            n,
            depth,
        ),
        Shape::Sequence(element) => lemma_decode_seq_truncated(*element, bytes, n, depth),
        Shape::Tuple(fields) => lemma_decode_tuple_truncated(fields@, bytes, n, depth),
        Shape::TupleStruct(name, fields) => lemma_decode_tuple_struct_truncated(
            name,
            fields@,
            bytes,
            n,
            depth,
        ),
        Shape::Mapping(entry) => lemma_decode_map_truncated(*entry, bytes, n, depth),
        Shape::Struct(name, fields) => lemma_decode_tuple_struct_truncated(
            name,
            fields@,
            bytes,
            n,
            depth,
        ),
        Shape::Enum(name, variants) => lemma_decode_enum_truncated(
            name,
            variants@,
            bytes,
            n,
            depth,
        ),
        _ => {},
    }
}

/// An optional value that is cut short ends early.
pub proof fn lemma_decode_option_truncated(inner: Shape, bytes: Seq<u8>, n: nat, depth: nat)
    requires
        decode_option(inner, bytes, depth) is Ok,
        n < decode_option(inner, bytes, depth)->Ok_0.1,
    ensures
        decode_option(inner, bytes.take(n as int), depth) == Err::<(SpecValue, nat), Failure>(
            Failure::Eof,
        ),
    decreases inner, 1nat, 0nat,
{
    if n >= 1 {
        lemma_encode_decode_option(inner, bytes, depth);
        lemma_cut_agrees(bytes, n, 1);
        lemma_option_tag_prefix(bytes, bytes.take(n as int));
        lemma_decode_truncated(inner, bytes.skip(1), (n - 1) as nat, depth);
    }
}

/// A named wrapper that is cut short ends early.
pub proof fn lemma_decode_newtype_struct_truncated(
    name: &'static str,
    inner: Shape,
    bytes: Seq<u8>,
    n: nat,
    depth: nat,
)
    requires
        decode_newtype_struct(name, inner, bytes, depth) is Ok,
        n < decode_newtype_struct(name, inner, bytes, depth)->Ok_0.1,
    ensures
        decode_newtype_struct(name, inner, bytes.take(n as int), depth) == Err::<
            (SpecValue, nat),
            Failure,
        >(Failure::Eof),
    decreases inner, 1nat, 0nat,
{
    lemma_decode_truncated(inner, bytes, n, (depth - 1) as nat);
}

/// A run of values that is cut short ends early.
pub proof fn lemma_decode_repeated_truncated(
    element: Shape,
    bytes: Seq<u8>,
    n: nat,
    depth: nat,
    count: nat,
)
    requires
        decode_repeated(element, bytes, depth, count) is Ok,
        n < decode_repeated(element, bytes, depth, count)->Ok_0.1,
    ensures
        decode_repeated(element, bytes.take(n as int), depth, count) == Err::<
            (Seq<SpecValue>, nat),
            Failure,
        >(Failure::Eof),
    decreases element, 1nat, count,
{
    let used = decode(element, bytes, depth)->Ok_0.1;
    lemma_encode_decode_repeated(element, bytes, depth, count);
    lemma_encode_decode(element, bytes, depth);
    if n < used {
        lemma_decode_truncated(element, bytes, n, depth);
    } else {
        lemma_cut_agrees(bytes, n, used);
        lemma_decode_prefix(element, bytes, bytes.take(n as int), depth);
        lemma_decode_repeated_truncated(
            element,
            bytes.skip(used as int),
            (n - used) as nat,
            depth,
            (count - 1) as nat,
        );
    }
}

/// A sequence that is cut short ends early.
pub proof fn lemma_decode_seq_truncated(element: Shape, bytes: Seq<u8>, n: nat, depth: nat)
    requires
        decode_seq(element, bytes, depth) is Ok,
        n < decode_seq(element, bytes, depth)->Ok_0.1,
    ensures
        decode_seq(element, bytes.take(n as int), depth) == Err::<(SpecValue, nat), Failure>(
            Failure::Eof,
        ),
    decreases element, 2nat, 0nat,
{
    let (count, used) = length_decode(bytes)->Ok_0;
    lemma_encode_decode_seq(element, bytes, depth);
    lemma_encode_decode_repeated(element, bytes.skip(used as int), depth, count);
    if n < used {
        lemma_uleb128_truncated(bytes, n);
    } else {
        lemma_cut_agrees(bytes, n, used);
        lemma_length_prefix(bytes, bytes.take(n as int));
        lemma_decode_repeated_truncated(
            element,
            bytes.skip(used as int),
            (n - used) as nat,
            depth,
            count,
        );
    }
}

/// A list of fields that is cut short ends early.
pub proof fn lemma_decode_fields_truncated(fields: Seq<Shape>, bytes: Seq<u8>, n: nat, depth: nat)
    requires
        decode_fields(fields, bytes, depth) is Ok,
        n < decode_fields(fields, bytes, depth)->Ok_0.1,
    ensures
        decode_fields(fields, bytes.take(n as int), depth) == Err::<
            (Seq<SpecValue>, nat),
            Failure,
        >(Failure::Eof),
    decreases fields, 1nat, 0nat,
{
    let used = decode(fields[0], bytes, depth)->Ok_0.1;
    lemma_encode_decode_fields(fields, bytes, depth);
    lemma_encode_decode(fields[0], bytes, depth);
    if n < used {
        lemma_decode_truncated(fields[0], bytes, n, depth);
    } else {
        lemma_cut_agrees(bytes, n, used);
        lemma_decode_prefix(fields[0], bytes, bytes.take(n as int), depth);
        lemma_decode_fields_truncated(
            fields.drop_first(),
            bytes.skip(used as int),
            (n - used) as nat,
            depth,
        );
    }
}

/// A tuple that is cut short ends early.
pub proof fn lemma_decode_tuple_truncated(fields: Seq<Shape>, bytes: Seq<u8>, n: nat, depth: nat)
    requires
        decode_tuple(fields, bytes, depth) is Ok,
        n < decode_tuple(fields, bytes, depth)->Ok_0.1,
    ensures
        decode_tuple(fields, bytes.take(n as int), depth) == Err::<(SpecValue, nat), Failure>(
            Failure::Eof,
        ),
    decreases fields, 2nat, 0nat,
{
    lemma_decode_fields_truncated(fields, bytes, n, depth);
}

/// A named tuple or struct that is cut short ends early.
pub proof fn lemma_decode_tuple_struct_truncated(
    name: &'static str,
    fields: Seq<Shape>,
    bytes: Seq<u8>,
    n: nat,
    depth: nat,
)
    requires
        decode_tuple_struct(name, fields, bytes, depth) is Ok,
        n < decode_tuple_struct(name, fields, bytes, depth)->Ok_0.1,
    ensures
        decode_tuple_struct(name, fields, bytes.take(n as int), depth) == Err::<
            (SpecValue, nat),
            Failure,
        >(Failure::Eof),
    decreases fields, 3nat, 0nat,
{
    lemma_decode_tuple_truncated(fields, bytes, n, (depth - 1) as nat);
}

/// A run of pairs that is cut short ends early.
pub proof fn lemma_decode_entries_truncated(
    entry: (Shape, Shape),
    bytes: Seq<u8>,
    n: nat,
    depth: nat,
    count: nat,
    previous: Option<Seq<u8>>,
)
    requires
        decode_entries(entry, bytes, depth, count, previous) is Ok,
        n < decode_entries(entry, bytes, depth, count, previous)->Ok_0.1,
    ensures
        decode_entries(entry, bytes.take(n as int), depth, count, previous) == Err::<
            (Seq<(SpecValue, SpecValue)>, nat),
            Failure,
        >(Failure::Eof),
    decreases entry, 1nat, count,
{
    let used = decode(entry.0, bytes, depth)->Ok_0.1;
    let more = decode(entry.1, bytes.skip(used as int), depth)->Ok_0.1;
    let cut = bytes.take(n as int);
    lemma_encode_decode_entries(entry, bytes, depth, count, previous);
    lemma_encode_decode(entry.0, bytes, depth);
    lemma_encode_decode(entry.1, bytes.skip(used as int), depth);
    if n < used {
        lemma_decode_truncated(entry.0, bytes, n, depth);
    } else {
        lemma_cut_agrees(bytes, n, used);
        lemma_decode_prefix(entry.0, bytes, cut, depth);
        assert(cut.take(used as int) == bytes.take(used as int));
        if n < used + more {
            lemma_decode_truncated(entry.1, bytes.skip(used as int), (n - used) as nat, depth);
        } else {
            lemma_cut_agrees(bytes.skip(used as int), (n - used) as nat, more);
            lemma_decode_prefix(entry.1, bytes.skip(used as int), cut.skip(used as int), depth);
            lemma_cut_agrees(bytes, n, used + more);
            lemma_decode_entries_truncated(
                entry,
                bytes.skip((used + more) as int),
                (n - used - more) as nat,
                depth,
                (count - 1) as nat,
                Some(bytes.take(used as int)),
            );
        }
    }
}

/// A map that is cut short ends early.
pub proof fn lemma_decode_map_truncated(entry: (Shape, Shape), bytes: Seq<u8>, n: nat, depth: nat)
    requires
        decode_map(entry, bytes, depth) is Ok,
        n < decode_map(entry, bytes, depth)->Ok_0.1,
    ensures
        decode_map(entry, bytes.take(n as int), depth) == Err::<(SpecValue, nat), Failure>(
            Failure::Eof,
        ),
    decreases entry, 2nat, 0nat,
{
    let (count, used) = length_decode(bytes)->Ok_0;
    lemma_encode_decode_map(entry, bytes, depth);
    lemma_encode_decode_entries(entry, bytes.skip(used as int), depth, count, None);
    if n < used {
        lemma_uleb128_truncated(bytes, n);
    } else {
        lemma_cut_agrees(bytes, n, used);
        lemma_length_prefix(bytes, bytes.take(n as int));
        lemma_decode_entries_truncated(
            entry,
            bytes.skip(used as int),
            (n - used) as nat,
            depth,
            count,
            None,
        );
    }
}

/// The inside of an enum that is cut short ends early.
pub proof fn lemma_decode_variant_truncated(
    variants: Seq<Shape>,
    bytes: Seq<u8>,
    n: nat,
    depth: nat,
)
    requires
        decode_variant(variants, bytes, depth) is Ok,
        n < decode_variant(variants, bytes, depth)->Ok_0.1,
    ensures
        decode_variant(variants, bytes.take(n as int), depth) == Err::<(SpecValue, nat), Failure>(
            Failure::Eof,
        ),
    decreases variants, 1nat, 0nat,
{
    let (index, used) = uleb128_decode(bytes)->Ok_0;
    lemma_encode_decode_variant(variants, bytes, depth);
    lemma_encode_decode(variants[index as int], bytes.skip(used as int), depth);
    if n < used {
        lemma_uleb128_truncated(bytes, n);
    } else {
        lemma_cut_agrees(bytes, n, used);
        lemma_uleb128_decode_prefix(bytes, bytes.take(n as int));
        lemma_decode_truncated(
            variants[index as int],
            bytes.skip(used as int),
            (n - used) as nat,
            depth,
        );
    }
}

/// An enum that is cut short ends early.
pub proof fn lemma_decode_enum_truncated(
    name: &'static str,
    variants: Seq<Shape>,
    bytes: Seq<u8>,
    n: nat,
    depth: nat,
)
    requires
        decode_enum(name, variants, bytes, depth) is Ok,
        n < decode_enum(name, variants, bytes, depth)->Ok_0.1,
    ensures
        decode_enum(name, variants, bytes.take(n as int), depth) == Err::<
            (SpecValue, nat),
            Failure,
        >(Failure::Eof),
    decreases variants, 2nat, 0nat,
{
    lemma_decode_variant_truncated(variants, bytes, n, (depth - 1) as nat);
}

} // verus!
