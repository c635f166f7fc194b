//! The byte-level rules of the format, as mathematics: what a run of bytes
//! means as an integer, a length or a truth value, and the order of map keys.

use crate::error::Failure;
use vstd::prelude::*;

verus! {

/// 256 to the power `k`.
pub open spec fn pow256(k: nat) -> nat
    decreases k,
{
    if k == 0 {
        1
    } else {
        256 * pow256((k - 1) as nat)
    }
}

/// 128 to the power `k`.
pub open spec fn pow128(k: nat) -> nat
    decreases k,
{
    if k == 0 {
        1
    } else {
        128 * pow128((k - 1) as nat)
    }
}

/// The unsigned integer that `bytes` spell in little-endian order: the first
/// byte counts units, the next one 256s, and so on.
pub open spec fn le_value(bytes: Seq<u8>) -> nat
    decreases bytes.len(),
{
    if bytes.len() == 0 {
        0
    } else {
        bytes[0] as nat + 256 * le_value(bytes.drop_first())
    }
}

/// The signed integer that the unsigned `value` of `width` bytes stands for in
/// two's complement.
pub open spec fn signed_value(value: nat, width: nat) -> int {
    if 2 * value < pow256(width) {
        value as int
    } else {
        value - pow256(width)
    }
}

/// The little-endian integer of `width` bytes at the start of `bytes`, with
/// the number of bytes it takes.
pub open spec fn uint_decode(bytes: Seq<u8>, width: nat) -> Result<(nat, nat), Failure> {
    if bytes.len() < width {
        Err(Failure::Eof)
    } else {
        Ok((le_value(bytes.take(width as int)), width))
    }
}

/// The truth value at the start of `bytes`.
pub open spec fn bool_decode(bytes: Seq<u8>) -> Result<(bool, nat), Failure> {
    if bytes.len() == 0 {
        Err(Failure::Eof)
    } else if bytes[0] == 0 {
        Ok((false, 1))
    } else if bytes[0] == 1 {
        Ok((true, 1))
    } else {
        Err(Failure::ExpectedBoolean)
    }
}

/// The presence tag of an optional value at the start of `bytes`: `true` when
/// a value follows.
pub open spec fn option_tag_decode(bytes: Seq<u8>) -> Result<(bool, nat), Failure> {
    if bytes.len() == 0 {
        Err(Failure::Eof)
    } else if bytes[0] == 0 {
        Ok((false, 1))
    } else if bytes[0] == 1 {
        Ok((true, 1))
    } else {
        Err(Failure::ExpectedOption)
    }
}

/// The integer whose base-128 digits, least significant first, are the low
/// seven bits of each of `digits`.
pub open spec fn base128_value(digits: Seq<u8>) -> nat
    decreases digits.len(),
{
    if digits.len() == 0 {
        0
    } else {
        (digits[0] % 128) as nat + 128 * base128_value(digits.drop_first())
    }
}

/// How many bytes at the start of `bytes` have their top bit set, that is,
/// announce that another digit follows.
pub open spec fn continuation_run(bytes: Seq<u8>) -> nat
    decreases bytes.len(),
{
    if bytes.len() == 0 || bytes[0] < 128 {
        0
    } else {
        1 + continuation_run(bytes.drop_first())
    }
}

/// The one encoding of `n` that the format accepts: its base-128 digits, least
/// significant first, each but the last with the top bit set, and no more
/// digits than `n` needs.
pub open spec fn uleb128_encode(n: nat) -> Seq<u8>
    decreases n,
{
    if n < 128 {
        seq![n as u8]
    } else {
        seq![(n % 128 + 128) as u8] + uleb128_encode(n / 128)
    }
}

/// The variable-length 32-bit integer at the start of `bytes`, with the number
/// of bytes it takes.
///
/// The integer ends at the first byte without a top bit. It fails when five
/// bytes go by without one, when the input ends before one, when the last
/// digit of several is zero, and when the digits exceed 32 bits.
pub open spec fn uleb128_decode(bytes: Seq<u8>) -> Result<(u32, nat), Failure> {
    let run = continuation_run(bytes);
    let value = base128_value(bytes.take(run as int + 1));
    if run >= 5 {
        Err(Failure::IntegerOverflowDuringUleb128Decoding)
    } else if run >= bytes.len() {
        Err(Failure::Eof)
    } else if run > 0 && bytes[run as int] == 0 {
        Err(Failure::NonCanonicalUleb128Encoding)
    } else if value > u32::MAX {
        Err(Failure::IntegerOverflowDuringUleb128Decoding)
    } else {
        Ok((value as u32, run + 1))
    }
}

/// The length prefix at the start of `bytes`: a variable-length integer that
/// is at most `MAX_SEQUENCE_LENGTH`.
pub open spec fn length_decode(bytes: Seq<u8>) -> Result<(nat, nat), Failure> {
    match uleb128_decode(bytes) {
        Err(failure) => Err(failure),
        Ok((n, used)) => if n > crate::MAX_SEQUENCE_LENGTH {
            Err(Failure::ExceededMaxLen(n as nat))
        } else {
            Ok((n as nat, used))
        },
    }
}

/// The length-prefixed byte string at the start of `bytes`.
pub open spec fn byte_string_decode(bytes: Seq<u8>) -> Result<(Seq<u8>, nat), Failure> {
    match length_decode(bytes) {
        Err(failure) => Err(failure),
        Ok((len, used)) => if bytes.len() < used + len {
            Err(Failure::Eof)
        } else {
            Ok((bytes.subrange(used as int, (used + len) as int), used + len))
        },
    }
}

/// The length-prefixed text string at the start of `bytes`. The prefix counts
/// bytes, and the bytes must be UTF-8.
pub open spec fn string_decode(bytes: Seq<u8>) -> Result<(Seq<char>, nat), Failure> {
    match byte_string_decode(bytes) {
        Err(failure) => Err(failure),
        Ok((content, used)) => if vstd::utf8::valid_utf8(content) {
            Ok((vstd::utf8::decode_utf8(content), used))
        } else {
            Err(Failure::Utf8)
        },
    }
}

/// How many bytes a decoder in memory has taken when it fails to decode a
/// truth value or a presence tag: the byte that holds it, if there is one.
pub open spec fn tag_stop(bytes: Seq<u8>) -> nat {
    if bytes.len() == 0 {
        0
    } else {
        1
    }
}

/// How many bytes a decoder in memory has taken when it fails to decode an
/// integer of fixed width: all that were left, since it takes the bytes of
/// the integer one by one and fails only when it finds no next one.
pub open spec fn uint_stop(bytes: Seq<u8>) -> nat {
    bytes.len()
}

/// How many bytes a decoder reads for a variable-length integer of at most 32
/// bits, whether it then accepts them or not: the bytes that announce a
/// successor, of which it reads no more than five, and the byte behind them
/// where there are fewer than five and the input goes on.
pub open spec fn uleb128_stop(bytes: Seq<u8>) -> nat {
    let run = continuation_run(bytes);
    if run >= 5 {
        5
    } else if run >= bytes.len() {
        bytes.len()
    } else {
        run + 1
    }
}

/// How many bytes a decoder in memory has taken when it fails to decode a
/// byte string: what it read of the length prefix, and nothing of a content
/// that is shorter than the prefix says.
pub open spec fn byte_string_stop(bytes: Seq<u8>) -> nat {
    uleb128_stop(bytes)
}

/// How many bytes a decoder in memory has taken when it fails to decode a
/// text: as for a byte string, and the whole byte string where that is no
/// text.
pub open spec fn string_stop(bytes: Seq<u8>) -> nat {
    match byte_string_decode(bytes) {
        Err(_) => byte_string_stop(bytes),
        Ok((_, used)) => used,
    }
}

/// Whether `a` comes strictly before `b` when byte strings are ordered like
/// words in a dictionary.
pub open spec fn lex_lt(a: Seq<u8>, b: Seq<u8>) -> bool
    decreases a.len(),
{
    if b.len() == 0 {
        false
    } else if a.len() == 0 {
        true
    } else if a[0] != b[0] {
        a[0] < b[0]
    } else {
        lex_lt(a.drop_first(), b.drop_first())
    }
}

/// A little-endian integer of `k` bytes is below 256 to the power `k`.
pub proof fn lemma_le_value_bound(bytes: Seq<u8>)
    ensures
        le_value(bytes) < pow256(bytes.len()),
    decreases bytes.len(),
{
    if bytes.len() > 0 {
        lemma_le_value_bound(bytes.drop_first());
    }
}

/// Powers of 256 grow with the exponent.
pub proof fn lemma_pow256_monotonic(a: nat, b: nat)
    requires
        a <= b,
    ensures
        pow256(a) <= pow256(b),
        pow256(a) >= 1,
    decreases b,
{
    if a < b {
        lemma_pow256_monotonic(a, (b - 1) as nat);
    } else if a > 0 {
        lemma_pow256_monotonic((a - 1) as nat, (a - 1) as nat);
    }
}

/// One more digit on top adds that digit times the matching power of 128.
pub proof fn lemma_base128_value_push(digits: Seq<u8>, digit: u8)
    ensures
        base128_value(digits.push(digit)) == base128_value(digits) + (digit % 128) * pow128(
            digits.len(),
        ),
    decreases digits.len(),
{
    let pushed = digits.push(digit);
    if digits.len() == 0 {
        assert(pushed.drop_first() =~= Seq::<u8>::empty());
        assert(pushed[0] == digit);
        assert(base128_value(pushed.drop_first()) == 0);
        assert(base128_value(digits) == 0);
        assert(pow128(0) == 1);
    } else {
        lemma_base128_value_push(digits.drop_first(), digit);
        assert(pushed.drop_first() =~= digits.drop_first().push(digit));
        assert(pushed[0] == digits[0]);
        let rest = base128_value(digits.drop_first());
        let top = (digit % 128) as nat;
        let scale = pow128((digits.len() - 1) as nat);
        assert(pow128(digits.len()) == 128 * scale);
        assert(base128_value(pushed.drop_first()) == rest + top * scale);
        assert(128 * (rest + top * scale) == 128 * rest + top * (128 * scale))
            by (nonlinear_arith);
    }
}

/// Where the first `i` bytes all announce a successor, the run of such bytes
/// is `i` plus the run that starts after them.
pub proof fn lemma_continuation_run_split(bytes: Seq<u8>, i: nat)
    requires
        i <= bytes.len(),
        forall|j: int| 0 <= j < i ==> bytes[j] >= 128,
    ensures
        continuation_run(bytes) == i + continuation_run(bytes.skip(i as int)),
    decreases i,
{
    if i == 0 {
        assert(bytes.skip(0) =~= bytes);
    } else {
        let tail = bytes.drop_first();
        assert forall|j: int| 0 <= j < i - 1 implies tail[j] >= 128 by {
            assert(tail[j] == bytes[j + 1]);
        }
        lemma_continuation_run_split(tail, (i - 1) as nat);
        assert(tail.skip(i - 1) =~= bytes.skip(i as int));
    }
}

/// Every byte inside the run announces a successor, and the run stops at the
/// end of the input or at a byte that announces none.
pub proof fn lemma_continuation_run_bytes(bytes: Seq<u8>)
    ensures
        continuation_run(bytes) <= bytes.len(),
        forall|j: int| 0 <= j < continuation_run(bytes) ==> bytes[j] >= 128,
        continuation_run(bytes) < bytes.len() ==> bytes[continuation_run(bytes) as int] < 128,
    decreases bytes.len(),
{
    if bytes.len() > 0 && bytes[0] >= 128 {
        let tail = bytes.drop_first();
        lemma_continuation_run_bytes(tail);
        assert forall|j: int| 0 <= j < continuation_run(bytes) implies bytes[j] >= 128 by {
            if j > 0 {
                assert(bytes[j] == tail[j - 1]);
            }
        }
        if continuation_run(bytes) < bytes.len() {
            assert(bytes[continuation_run(bytes) as int] == tail[continuation_run(tail) as int]);
        }
    }
}

/// A decoder reads no more for a variable-length integer than the input
/// holds, and where it accepts the integer it has read just the bytes that
/// the integer takes.
pub proof fn lemma_uleb128_stop(bytes: Seq<u8>)
    ensures
        uleb128_stop(bytes) <= bytes.len(),
        uleb128_stop(bytes) <= 5,
        uleb128_decode(bytes) is Ok ==> uleb128_decode(bytes)->Ok_0.1 == uleb128_stop(bytes),
        length_decode(bytes) is Ok ==> length_decode(bytes)->Ok_0.1 == uleb128_stop(bytes),
{
    lemma_continuation_run_bytes(bytes);
}

/// What the canonical encoding of `n` looks like: it is never empty, only its
/// last byte lacks the top bit, that byte is zero only for `n == 0`, and its
/// digits spell `n`.
pub proof fn lemma_uleb128_encode_shape(n: nat)
    ensures
        uleb128_encode(n).len() >= 1,
        forall|j: int| 0 <= j < uleb128_encode(n).len() - 1 ==> uleb128_encode(n)[j] >= 128,
        uleb128_encode(n).last() < 128,
        uleb128_encode(n).last() == 0 ==> n == 0,
        n == 0 ==> uleb128_encode(n) == seq![0u8],
        base128_value(uleb128_encode(n)) == n,
    decreases n,
{
    let e = uleb128_encode(n);
    if n < 128 {
        assert(e.drop_first() =~= Seq::<u8>::empty());
        assert(base128_value(e.drop_first()) == 0);
        assert(e[0] == n);
    } else {
        let tail = uleb128_encode(n / 128);
        lemma_uleb128_encode_shape(n / 128);
        assert(e.drop_first() =~= tail);
        assert(e[0] == n % 128 + 128);
        assert(e[0] % 128 == n % 128);
        assert forall|j: int| 0 <= j < e.len() - 1 implies e[j] >= 128 by {
            if j > 0 {
                assert(e[j] == tail[j - 1]);
            }
        }
        assert(e.last() == tail.last());
    }
}

/// The canonical encoding of an integer below 128 to the power `k` has at most
/// `k` bytes.
pub proof fn lemma_uleb128_encode_len(n: nat, k: nat)
    requires
        k >= 1,
        n < pow128(k),
    ensures
        uleb128_encode(n).len() <= k,
    decreases n,
{
    if n >= 128 {
        assert(pow128(1) == 128) by {
            reveal_with_fuel(pow128, 2);
        }
        assert(k >= 2);
        lemma_uleb128_encode_len(n / 128, (k - 1) as nat);
    }
}

/// Decoding undoes encoding: the canonical encoding of a 32-bit integer,
/// whatever follows it, decodes to that integer and takes exactly its own
/// bytes.
pub proof fn lemma_uleb128_decode_encode(n: u32, rest: Seq<u8>)
    ensures
        uleb128_decode(uleb128_encode(n as nat) + rest) == Ok::<(u32, nat), Failure>(
            (n, uleb128_encode(n as nat).len()),
        ),
{
    let e = uleb128_encode(n as nat);
    let bytes = e + rest;
    let last = (e.len() - 1) as nat;
    lemma_uleb128_encode_shape(n as nat);
    assert(pow128(5) == 0x8_0000_0000) by {
        reveal_with_fuel(pow128, 6);
    }
    lemma_uleb128_encode_len(n as nat, 5);
    assert forall|j: int| 0 <= j < last implies bytes[j] >= 128 by {
        assert(bytes[j] == e[j]);
    }
    lemma_continuation_run_split(bytes, last);
    assert(bytes.skip(last as int)[0] == e.last());
    assert(continuation_run(bytes) == last);
    assert(bytes.take(last as int + 1) =~= e);
    assert(bytes[last as int] == e.last());
}

/// Only the canonical encoding decodes: where decoding succeeds, the bytes it
/// took are the canonical encoding of the integer it found.
pub proof fn lemma_uleb128_decode_canonical(bytes: Seq<u8>)
    requires
        uleb128_decode(bytes) is Ok,
    ensures
        bytes.take(uleb128_decode(bytes)->Ok_0.1 as int) == uleb128_encode(
            uleb128_decode(bytes)->Ok_0.0 as nat,
        ),
{
    let run = continuation_run(bytes);
    let taken = bytes.take(run as int + 1);
    lemma_continuation_run_bytes(bytes);
    lemma_digits_are_canonical(taken);
}

/// A run of digits of which only the last lacks the top bit, and whose last
/// is not a needless zero, is the canonical encoding of its value.
pub proof fn lemma_digits_are_canonical(digits: Seq<u8>)
    requires
        digits.len() >= 1,
        forall|j: int| 0 <= j < digits.len() - 1 ==> digits[j] >= 128,
        digits.last() < 128,
        digits.len() > 1 ==> digits.last() != 0,
    ensures
        uleb128_encode(base128_value(digits)) == digits,
        digits.last() != 0 ==> base128_value(digits) > 0,
    decreases digits.len(),
{
    let tail = digits.drop_first();
    if digits.len() == 1 {
        assert(tail =~= Seq::<u8>::empty());
        assert(base128_value(tail) == 0);
        assert(uleb128_encode(base128_value(digits)) =~= digits);
    } else {
        assert(tail.last() == digits.last());
        assert forall|j: int| 0 <= j < tail.len() - 1 implies tail[j] >= 128 by {
            assert(tail[j] == digits[j + 1]);
        }
        lemma_digits_are_canonical(tail);
        let value = base128_value(digits);
        let high = base128_value(tail);
        assert(value == (digits[0] % 128) + 128 * high);
        assert(value / 128 == high);
        assert(value % 128 == digits[0] % 128);
        assert(uleb128_encode(value) =~= digits);
    }
}

/// Decoding a variable-length integer looks at no byte behind the ones it
/// takes: an input that starts with the same bytes decodes alike.
pub proof fn lemma_uleb128_decode_prefix(bytes: Seq<u8>, other: Seq<u8>)
    requires
        uleb128_decode(bytes) is Ok,
        other.len() >= uleb128_decode(bytes)->Ok_0.1,
        other.take(uleb128_decode(bytes)->Ok_0.1 as int) == bytes.take(
            uleb128_decode(bytes)->Ok_0.1 as int,
        ),
    ensures
        uleb128_decode(other) == uleb128_decode(bytes),
{
    let used = uleb128_decode(bytes)->Ok_0.1;
    let last = (used - 1) as nat;
    lemma_continuation_run_bytes(bytes);
    assert forall|j: int| 0 <= j < used implies other[j] == bytes[j] by {
        assert(other[j] == other.take(used as int)[j]);
        assert(bytes[j] == bytes.take(used as int)[j]);
    }
    lemma_continuation_run_split(other, last);
    assert(other.skip(last as int)[0] == other[last as int]);
    assert(continuation_run(other) == last);
}

/// What follows a variable-length integer does not change what it decodes
/// to.
pub proof fn lemma_uleb128_decode_extends(bytes: Seq<u8>, more: Seq<u8>)
    requires
        uleb128_decode(bytes) is Ok,
    ensures
        uleb128_decode(bytes + more) == uleb128_decode(bytes),
{
    let used = uleb128_decode(bytes)->Ok_0.1;
    assert((bytes + more).take(used as int) =~= bytes.take(used as int));
    lemma_uleb128_decode_prefix(bytes, bytes + more);
}

/// No byte string comes before itself.
pub proof fn lemma_lex_lt_irreflexive(a: Seq<u8>)
    ensures
        !lex_lt(a, a),
    decreases a.len(),
{
    if a.len() > 0 {
        lemma_lex_lt_irreflexive(a.drop_first());
    }
}

/// The order of byte strings is transitive.
pub proof fn lemma_lex_lt_transitive(a: Seq<u8>, b: Seq<u8>, c: Seq<u8>)
    requires
        lex_lt(a, b),
        lex_lt(b, c),
    ensures
        lex_lt(a, c),
    decreases a.len(),
{
    if a.len() > 0 && a[0] == b[0] && b[0] == c[0] {
        lemma_lex_lt_transitive(a.drop_first(), b.drop_first(), c.drop_first());
    }
}

} // verus!
