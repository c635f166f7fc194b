//! The stateless rules of the format as executable functions on bytes that
//! are already at hand. Both decoders read their input and then decide with
//! these.

use crate::error::{Error, Failure};
use crate::wire::{
    base128_value, continuation_run, le_value, lemma_base128_value_push,
    lemma_continuation_run_split, lemma_le_value_bound, lemma_pow256_monotonic, lex_lt, pow128,
    pow256, signed_value, uleb128_decode, uleb128_stop,
};
use vstd::prelude::*;
use vstd::string::StringSliceAdditionalSpecFns;

verus! {

/// `std::str::Utf8Error`: why some bytes are no text. It is passed on unread.
#[verifier::external_type_specification]
#[verifier::external_body]
pub struct ExUtf8Error(std::str::Utf8Error);

/// `std::str::from_utf8`: the bytes as text where they are valid UTF-8, and a
/// failure where they are not. The text is the same bytes, not a copy.
#[verifier::external_body]
fn str_from_utf8<'a>(bytes: &'a [u8]) -> (r: Result<&'a str, std::str::Utf8Error>)
    ensures
        r is Ok <==> vstd::utf8::valid_utf8(bytes@),
        r is Ok ==> r->Ok_0.spec_bytes() == bytes@,
{
    std::str::from_utf8(bytes)
}

/// The text by which `serde` reports the unsigned integer `index` as an
/// invalid value where it was told to expect `variant index 0 <= i < count`,
/// with `count` in decimal. That expectation is the one that the visitor
/// which `serde`'s derive writes for an enum of `count` variants hands over
/// for an index that names none of them. It is part of what is named here:
/// the name stands for the whole message, the expectation included.
pub uninterp spec fn invalid_variant_text(index: u32, count: usize) -> Seq<char>;

/// `serde::de::Error::invalid_value` on `serde::de::value::Error`, called as
/// the visitor that `serde`'s derive writes for an enum of `count` variants
/// calls it: for the unexpected unsigned integer `index` and the expectation
/// `variant index 0 <= i < count`, which the body writes out with `format!`.
/// The result is the message of the failure that `serde` builds from the
/// two, which depends on these two numbers alone.
#[verifier::external_body]
fn invalid_variant_message(index: u32, count: usize) -> (message: String)
    ensures
        message@ == invalid_variant_text(index, count),
{
    let expected = format!("variant index 0 <= i < {}", count);
    let failure: serde::de::value::Error = serde::de::Error::invalid_value(
        serde::de::Unexpected::Unsigned(index as u64),
        &expected.as_str(),
    );
    failure.to_string()
}

/// The failure for a variant index that an enum of `count` variants lacks.
pub fn unknown_variant(index: u32, count: usize) -> (e: Error)
    ensures
        e@ == Failure::Custom(invalid_variant_text(index, count)),
{
    Error::custom(invalid_variant_message(index, count))
}

/// Reads `bytes` as text.
pub fn text_from_bytes<'a>(bytes: &'a [u8]) -> (r: Result<&'a str, Error>)
    ensures
        vstd::utf8::valid_utf8(bytes@) ==> r is Ok && r->Ok_0@ == vstd::utf8::decode_utf8(bytes@),
        !vstd::utf8::valid_utf8(bytes@) ==> r is Err && r->Err_0@ == Failure::Utf8,
{
    match str_from_utf8(bytes) {
        Ok(text) => {
            proof {
                vstd::utf8::encode_utf8_decode_utf8(text@);
            }
            Ok(text)
        },
        Err(_) => Err(Error::Utf8),
    }
}

/// The truth value that `byte` encodes.
pub fn bool_from_byte(byte: u8) -> (r: Result<bool, Error>)
    ensures
        byte == 0 ==> r == Ok::<bool, Error>(false),
        byte == 1 ==> r == Ok::<bool, Error>(true),
        byte > 1 ==> r is Err && r->Err_0@ == Failure::ExpectedBoolean,
{
    if byte == 0 {
        Ok(false)
    } else if byte == 1 {
        Ok(true)
    } else {
        Err(Error::ExpectedBoolean)
    }
}

/// Whether a value follows the presence tag `byte` of an optional value.
pub fn option_tag_from_byte(byte: u8) -> (r: Result<bool, Error>)
    ensures
        byte == 0 ==> r == Ok::<bool, Error>(false),
        byte == 1 ==> r == Ok::<bool, Error>(true),
        byte > 1 ==> r is Err && r->Err_0@ == Failure::ExpectedOption,
{
    if byte == 0 {
        Ok(false)
    } else if byte == 1 {
        Ok(true)
    } else {
        Err(Error::ExpectedOption)
    }
}

/// The little-endian integer that up to sixteen bytes spell.
pub fn le_bytes_value(bytes: &[u8]) -> (value: u128)
    requires
        bytes@.len() <= 16,
    ensures
        value == le_value(bytes@),
{
    let n: usize = bytes.len();
    let mut value: u128 = 0;
    let mut i: usize = n;
    proof {
        assert(bytes@.skip(n as int) =~= Seq::<u8>::empty());
    }
    while i > 0
        invariant
            n == bytes@.len(),
            n <= 16,
            i <= n,
            value == le_value(bytes@.skip(i as int)),
            value < pow256((n - i) as nat),
        decreases i,
    {
        i = i - 1;
        proof {
            let above = bytes@.skip(i as int + 1);
            let here = bytes@.skip(i as int);
            assert(here.drop_first() =~= above);
            assert(here[0] == bytes@[i as int]);
            assert(pow256((n - i) as nat) == 256 * pow256((n - i - 1) as nat));
            lemma_pow256_monotonic((n - i) as nat, 16);
            assert(pow256(16) == 0x1_0000_0000_0000_0000_0000_0000_0000_0000) by {
                reveal_with_fuel(pow256, 17);
            }
        }
        value = value * 256 + bytes[i] as u128;
    }
    proof {
        assert(bytes@.skip(0) =~= bytes@);
    }
    value
}

/// The unsigned 16-bit integer that two bytes spell, low byte first.
pub fn u16_from_le_bytes(bytes: &[u8]) -> (value: u16)
    requires
        bytes@.len() == 2,
    ensures
        value == le_value(bytes@),
{
    proof {
        lemma_le_value_bound(bytes@);
        assert(pow256(2) == 0x1_0000) by {
            reveal_with_fuel(pow256, 3);
        }
    }
    le_bytes_value(bytes) as u16
}

/// The unsigned 32-bit integer that four bytes spell, low byte first.
pub fn u32_from_le_bytes(bytes: &[u8]) -> (value: u32)
    requires
        bytes@.len() == 4,
    ensures
        value == le_value(bytes@),
{
    proof {
        lemma_le_value_bound(bytes@);
        assert(pow256(4) == 0x1_0000_0000) by {
            reveal_with_fuel(pow256, 5);
        }
    }
    le_bytes_value(bytes) as u32
}

/// The unsigned 64-bit integer that eight bytes spell, low byte first.
pub fn u64_from_le_bytes(bytes: &[u8]) -> (value: u64)
    requires
        bytes@.len() == 8,
    ensures
        value == le_value(bytes@),
{
    proof {
        lemma_le_value_bound(bytes@);
        assert(pow256(8) == 0x1_0000_0000_0000_0000) by {
            reveal_with_fuel(pow256, 9);
        }
    }
    le_bytes_value(bytes) as u64
}

/// The unsigned 128-bit integer that sixteen bytes spell, low byte first.
pub fn u128_from_le_bytes(bytes: &[u8]) -> (value: u128)
    requires
        bytes@.len() == 16,
    ensures
        value == le_value(bytes@),
{
    le_bytes_value(bytes)
}

/// The signed integer with the bit pattern of `value`.
pub fn i8_from_u8(value: u8) -> (r: i8)
    ensures
        r == signed_value(value as nat, 1),
{
    proof {
        assert(pow256(1) == 0x100) by {
            reveal_with_fuel(pow256, 2);
        }
    }
    if value < 0x80 {
        value as i8
    } else {
        (value as i16 - 0x100) as i8
    }
}

/// The signed integer with the bit pattern of `value`.
pub fn i16_from_u16(value: u16) -> (r: i16)
    ensures
        r == signed_value(value as nat, 2),
{
    proof {
        assert(pow256(2) == 0x1_0000) by {
            reveal_with_fuel(pow256, 3);
        }
    }
    if value < 0x8000 {
        value as i16
    } else {
        (value as i32 - 0x1_0000) as i16
    }
}

/// The signed integer with the bit pattern of `value`.
pub fn i32_from_u32(value: u32) -> (r: i32)
    ensures
        r == signed_value(value as nat, 4),
{
    proof {
        assert(pow256(4) == 0x1_0000_0000) by {
            reveal_with_fuel(pow256, 5);
        }
    }
    if value < 0x8000_0000 {
        value as i32
    } else {
        (value as i64 - 0x1_0000_0000) as i32
    }
}

/// The signed integer with the bit pattern of `value`.
pub fn i64_from_u64(value: u64) -> (r: i64)
    ensures
        r == signed_value(value as nat, 8),
{
    proof {
        assert(pow256(8) == 0x1_0000_0000_0000_0000) by {
            reveal_with_fuel(pow256, 9);
        }
    }
    if value < 0x8000_0000_0000_0000 {
        value as i64
    } else {
        (value as i128 - 0x1_0000_0000_0000_0000) as i64
    }
}

/// The signed integer with the bit pattern of `value`.
pub fn i128_from_u128(value: u128) -> (r: i128)
    ensures
        r == signed_value(value as nat, 16),
{
    proof {
        assert(pow256(16) == 0x1_0000_0000_0000_0000_0000_0000_0000_0000) by {
            reveal_with_fuel(pow256, 17);
        }
    }
    if value < 0x8000_0000_0000_0000_0000_0000_0000_0000 {
        value as i128
    } else {
        -((u128::MAX - value) as i128) - 1
    }
}

/// How many bytes at the start of `bytes` a decoder reads for a
/// variable-length 32-bit integer, whether it then accepts them or not.
pub fn uleb128_span(bytes: &[u8]) -> (n: usize)
    ensures
        n == uleb128_stop(bytes@),
        n <= bytes@.len(),
        n <= 5,
{
    let mut i: usize = 0;
    while i < 5 && i < bytes.len()
        invariant
            i <= 5,
            i <= bytes@.len(),
            forall|j: int| 0 <= j < i ==> bytes@[j] >= 128,
        decreases 5 - i,
    {
        if bytes[i] < 128 {
            proof {
                lemma_continuation_run_split(bytes@, i as nat);
                assert(bytes@.skip(i as int)[0] == bytes@[i as int]);
            }
            return i + 1;
        }
        i = i + 1;
    }
    proof {
        lemma_continuation_run_split(bytes@, i as nat);
        if i < 5 {
            assert(bytes@.skip(i as int).len() == 0);
        }
    }
    i
}

/// Decodes the variable-length 32-bit integer at the start of `bytes` and says
/// how many bytes it took.
pub fn decode_uleb128(bytes: &[u8]) -> (r: Result<(u32, usize), Error>)
    ensures
        match uleb128_decode(bytes@) {
            Ok((value, used)) => r == Ok::<(u32, usize), Error>((value, used as usize)),
            Err(failure) => r is Err && r->Err_0@ == failure,
        },
{
    let mut value: u64 = 0;
    let mut scale: u64 = 1;
    let mut i: usize = 0;
    proof {
        assert(bytes@.take(0) =~= Seq::<u8>::empty());
        reveal_with_fuel(pow128, 6);
    }
    while i < 5
        invariant
            i <= 5,
            i <= bytes@.len(),
            forall|j: int| 0 <= j < i ==> bytes@[j] >= 128,
            value == base128_value(bytes@.take(i as int)),
            scale == pow128(i as nat),
            value < scale,
        decreases 5 - i,
    {
        if i >= bytes.len() {
            proof {
                lemma_continuation_run_split(bytes@, i as nat);
                assert(bytes@.skip(i as int).len() == 0);
            }
            return Err(Error::Eof);
        }
        let byte = bytes[i];
        let digit = byte % 128;
        proof {
            reveal_with_fuel(pow128, 6);
            lemma_base128_value_push(bytes@.take(i as int), byte);
            assert(bytes@.take(i as int).push(byte) =~= bytes@.take(i as int + 1));
            assert(scale <= 0x1000_0000);
            assert(digit * scale <= 127 * scale) by (nonlinear_arith)
                requires
                    digit <= 127,
            ;
        }
        value = value + (digit as u64) * scale;
        if byte < 128 {
            proof {
                lemma_continuation_run_split(bytes@, i as nat);
                assert(bytes@.skip(i as int)[0] == byte);
                assert(continuation_run(bytes@) == i);
            }
            if i > 0 && digit == 0 {
                return Err(Error::NonCanonicalUleb128Encoding);
            }
            if value > u32::MAX as u64 {
                return Err(Error::IntegerOverflowDuringUleb128Decoding);
            }
            return Ok((value as u32, i + 1));
        }
        scale = scale * 128;
        i = i + 1;
    }
    proof {
        lemma_continuation_run_split(bytes@, 5);
    }
    Err(Error::IntegerOverflowDuringUleb128Decoding)
}

/// Accepts `n` as a length where it is at most `MAX_SEQUENCE_LENGTH`.
pub fn check_length(n: u32) -> (r: Result<usize, Error>)
    ensures
        n <= crate::MAX_SEQUENCE_LENGTH ==> r == Ok::<usize, Error>(n as usize),
        n > crate::MAX_SEQUENCE_LENGTH ==> r is Err && r->Err_0@ == Failure::ExceededMaxLen(
            n as nat,
        ),
{
    let len = n as usize;
    if len > crate::MAX_SEQUENCE_LENGTH {
        Err(Error::ExceededMaxLen(len))
    } else {
        Ok(len)
    }
}

/// Whether `a` comes strictly before `b` in the order of byte strings.
pub fn lex_less(a: &[u8], b: &[u8]) -> (r: bool)
    ensures
        r == lex_lt(a@, b@),
{
    let mut i: usize = 0;
    proof {
        assert(a@.skip(0) =~= a@);
        assert(b@.skip(0) =~= b@);
    }
    while i < a.len() && i < b.len()
        invariant
            i <= a@.len(),
            i <= b@.len(),
            lex_lt(a@, b@) == lex_lt(a@.skip(i as int), b@.skip(i as int)),
        decreases a@.len() - i,
    {
        proof {
            assert(a@.skip(i as int)[0] == a@[i as int]);
            assert(b@.skip(i as int)[0] == b@[i as int]);
            assert(a@.skip(i as int).drop_first() =~= a@.skip(i as int + 1));
            assert(b@.skip(i as int).drop_first() =~= b@.skip(i as int + 1));
        }
        if a[i] != b[i] {
            return a[i] < b[i];
        }
        i = i + 1;
    }
    i < b.len()
}

/// Accepts the bytes of a map key where no key came before it or the
/// previous key's bytes come strictly before its own.
pub fn check_key_order(previous: Option<&[u8]>, key: &[u8]) -> (r: Result<(), Error>)
    ensures
        r is Ok <==> (previous is None || lex_lt(previous->Some_0@, key@)),
        r is Err ==> r->Err_0@ == Failure::NonCanonicalMap,
{
    match previous {
        None => Ok(()),
        Some(earlier) => {
            if lex_less(earlier, key) {
                Ok(())
            } else {
                Err(Error::NonCanonicalMap)
            }
        },
    }
}

} // verus!
