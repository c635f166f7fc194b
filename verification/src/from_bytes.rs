//! Decoding from bytes that are all in memory. Nothing is copied while the
//! input is taken apart: byte strings and texts come out as views into it.

use crate::codec::{
    bool_from_byte, check_key_order, check_length, decode_uleb128, i128_from_u128, i16_from_u16,
    i32_from_u32, i64_from_u64, i8_from_u8, option_tag_from_byte, text_from_bytes,
    u128_from_le_bytes, u16_from_le_bytes, u32_from_le_bytes, u64_from_le_bytes, uleb128_span,
    unknown_variant,
};
use crate::encoding::{encode, lemma_round_trip};
use crate::error::{Error, Failure};
use crate::grammar::{
    after, decode, decode_all, decode_entries, decode_enum, decode_fields, decode_map,
    decode_newtype_struct, decode_option, decode_repeated, decode_seq, decode_tuple,
    decode_tuple_struct, decode_unit_struct, decode_variant, stop, stop_entries, stop_enum,
    stop_fields, stop_map, stop_newtype_struct, stop_option, stop_repeated, stop_seq,
    stop_tuple_struct, stop_variant, Decoded,
};
use crate::shape::Shape;
use crate::value::{
    lemma_pairs_view_push, lemma_values_view_push, pairs_view, values_view, SpecValue, Value,
};
use crate::wire::{
    bool_decode, byte_string_decode, byte_string_stop, lemma_uleb128_stop, length_decode, lex_lt,
    string_decode, string_stop, tag_stop, uint_decode, uint_stop, uleb128_decode, uleb128_stop,
};
use vstd::prelude::*;
use vstd::slice::slice_to_vec;

verus! {

/// To drop `a` bytes and then `b` more is to drop `a + b`.
proof fn lemma_skip_twice(bytes: Seq<u8>, a: nat, b: nat)
    ensures
        a + b <= bytes.len() ==> bytes.skip(a as int).skip(b as int) == bytes.skip((a + b) as int),
        bytes.skip(0) == bytes,
{
    if a + b <= bytes.len() {
        assert(bytes.skip(a as int).skip(b as int) =~= bytes.skip((a + b) as int));
    }
    assert(bytes.skip(0) =~= bytes);
}

/// A position in a byte buffer, with the nesting budget that is left.
pub struct Deserializer<'de> {
    input: &'de [u8],
    max_remaining_depth: usize,
}

impl<'de> Deserializer<'de> {
    /// The bytes that have not been consumed.
    pub closed spec fn remaining(&self) -> Seq<u8> {
        self.input@
    }

    /// How many more named containers may be entered.
    pub closed spec fn depth(&self) -> nat {
        self.max_remaining_depth as nat
    }

    /// Whether `after` stands in the input of `before`, `taken` bytes further
    /// on.
    pub open spec fn moved(before: Self, after: Self, taken: nat) -> bool {
        &&& taken <= before.remaining().len()
        &&& after.remaining() == before.remaining().skip(taken as int)
    }

    /// A decoder at the start of `input` that may enter `max_remaining_depth`
    /// named containers inside one another.
    pub fn new(input: &'de [u8], max_remaining_depth: usize) -> (de: Self)
        ensures
            de.remaining() == input@,
            de.depth() == max_remaining_depth,
    {
        Deserializer { input, max_remaining_depth }
    }

    /// Checks that the whole input has been consumed. It is called after a
    /// top-level value was decoded.
    pub fn end(&mut self) -> (r: Result<(), Error>)
        ensures
            *final(self) == *old(self),
            old(self).remaining().len() == 0 ==> r is Ok,
            old(self).remaining().len() > 0 ==> r is Err && r->Err_0@ == Failure::RemainingInput,
    {
        if self.input.len() == 0 {
            Ok(())
        } else {
            Err(Error::RemainingInput)
        }
    }

    /// The next byte, which stays in the input.
    pub fn peek(&mut self) -> (r: Result<u8, Error>)
        ensures
            *final(self) == *old(self),
            old(self).remaining().len() > 0 ==> r == Ok::<u8, Error>(old(self).remaining()[0]),
            old(self).remaining().len() == 0 ==> r is Err && r->Err_0@ == Failure::Eof,
    {
        if self.input.len() == 0 {
            Err(Error::Eof)
        } else {
            Ok(self.input[0])
        }
    }

    /// Consumes the next byte.
    pub fn next(&mut self) -> (r: Result<u8, Error>)
        ensures
            final(self).depth() == old(self).depth(),
            old(self).remaining().len() > 0 ==> r == Ok::<u8, Error>(old(self).remaining()[0])
                && final(self).remaining() == old(self).remaining().skip(1),
            old(self).remaining().len() == 0 ==> r is Err && r->Err_0@ == Failure::Eof
                && *final(self) == *old(self),
    {
        let byte = self.peek()?;
        let input: &'de [u8] = self.input;
        self.input = &input[1..input.len()];
        Ok(byte)
    }

    /// Consumes the next `n` bytes and hands them out as a view into the
    /// input. Where fewer are left, nothing is consumed.
    pub fn take(&mut self, n: usize) -> (r: Result<&'de [u8], Error>)
        ensures
            final(self).depth() == old(self).depth(),
            n <= old(self).remaining().len() ==> r is Ok && r->Ok_0@ == old(self).remaining().take(
                n as int,
            ) && final(self).remaining() == old(self).remaining().skip(n as int),
            n > old(self).remaining().len() ==> r is Err && r->Err_0@ == Failure::Eof
                && *final(self) == *old(self),
    {
        let input: &'de [u8] = self.input;
        if n > input.len() {
            Err(Error::Eof)
        } else {
            self.input = &input[n..input.len()];
            Ok(&input[0..n])
        }
    }

    /// Fills `slice` with the next bytes of the input, which are consumed one
    /// by one. Where the input holds fewer than `slice` has room for, all of
    /// them are consumed and stand at the start of `slice` when the end shows,
    /// and the rest of `slice` is as it was.
    pub fn fill_slice(&mut self, slice: &mut [u8]) -> (r: Result<(), Error>)
        ensures
            final(self).depth() == old(self).depth(),
            final(slice)@.len() == old(slice)@.len(),
            old(slice)@.len() <= old(self).remaining().len() ==> r is Ok && final(slice)@ == old(
                self,
            ).remaining().take(old(slice)@.len() as int) && final(self).remaining() == old(
                self,
            ).remaining().skip(old(slice)@.len() as int),
            old(slice)@.len() > old(self).remaining().len() ==> r is Err && r->Err_0@
                == Failure::Eof && Self::moved(
                *old(self),
                *final(self),
                old(self).remaining().len(),
            ) && final(slice)@ == old(self).remaining() + old(slice)@.skip(
                old(self).remaining().len() as int,
            ),
    {
        let n: usize = slice.len();
        let mut i: usize = 0;
        while i < n
            invariant
                i <= n,
                slice@.len() == n,
                old(slice)@.len() == n,
                self.depth() == old(self).depth(),
                i <= old(self).remaining().len(),
                self.remaining() == old(self).remaining().skip(i as int),
                forall|j: int| 0 <= j < i ==> slice@[j] == old(self).remaining()[j],
                forall|j: int| i <= j < n ==> slice@[j] == old(slice)@[j],
            decreases n - i,
        {
            proof {
                if self.remaining().len() == 0 {
                    assert(slice@ =~= old(self).remaining() + old(slice)@.skip(i as int));
                }
            }
            let byte = self.next()?;
            slice[i] = byte;
            i = i + 1;
        }
        proof {
            assert(slice@ =~= old(self).remaining().take(n as int));
        }
        Ok(())
    }

    /// How many more named containers may be entered.
    pub fn max_remaining_depth(&mut self) -> (depth: usize)
        ensures
            *final(self) == *old(self),
            depth == old(self).depth(),
    {
        self.max_remaining_depth
    }

    /// Takes one unit of the nesting budget for the container `name`, or fails
    /// where none is left.
    pub fn enter_named_container(&mut self, name: &'static str) -> (r: Result<(), Error>)
        ensures
            final(self).remaining() == old(self).remaining(),
            old(self).depth() > 0 ==> r is Ok && final(self).depth() == old(self).depth() - 1,
            old(self).depth() == 0 ==> r is Err && r->Err_0@
                == Failure::ExceededContainerDepthLimit(name@) && final(self).depth() == 0,
    {
        if self.max_remaining_depth == 0 {
            return Err(Error::ExceededContainerDepthLimit(name));
        }
        self.max_remaining_depth = self.max_remaining_depth - 1;
        Ok(())
    }

    /// Gives back the unit of budget that entering a container took.
    pub fn leave_named_container(&mut self)
        requires
            old(self).depth() < usize::MAX,
        ensures
            final(self).remaining() == old(self).remaining(),
            final(self).depth() == old(self).depth() + 1,
    {
        self.max_remaining_depth = self.max_remaining_depth + 1;
    }

    /// Decodes a truth value. A byte that is neither 0 nor 1 is consumed
    /// before it is refused.
    pub fn parse_bool(&mut self) -> (r: Result<bool, Error>)
        ensures
            final(self).depth() == old(self).depth(),
            match bool_decode(old(self).remaining()) {
                Ok((value, used)) => r == Ok::<bool, Error>(value) && final(self).remaining()
                    == old(self).remaining().skip(used as int),
                Err(failure) => r is Err && r->Err_0@ == failure && Self::moved(
                    *old(self),
                    *final(self),
                    tag_stop(old(self).remaining()),
                ),
            },
    {
        proof {
            lemma_skip_twice(self.remaining(), 0, 0);
        }
        let byte = self.next()?;
        bool_from_byte(byte)
    }

    /// Decodes an unsigned integer of one byte.
    pub fn parse_u8(&mut self) -> (r: Result<u8, Error>)
        ensures
            final(self).depth() == old(self).depth(),
            match uint_decode(old(self).remaining(), 1) {
                Ok((value, used)) => r is Ok && r->Ok_0 == value && final(self).remaining() == old(
                    self,
                ).remaining().skip(used as int),
                Err(failure) => r is Err && r->Err_0@ == failure && Self::moved(
                    *old(self),
                    *final(self),
                    uint_stop(old(self).remaining()),
                ),
            },
    {
        proof {
            let bytes = old(self).remaining();
            lemma_skip_twice(bytes, 0, 0);
            if bytes.len() >= 1 {
                assert(bytes.take(1).drop_first() =~= Seq::<u8>::empty());
                assert(crate::wire::le_value(bytes.take(1).drop_first()) == 0);
                assert(bytes.take(1)[0] == bytes[0]);
            }
        }
        self.next()
    }

    /// Decodes an unsigned integer of two bytes. Where fewer are left, they
    /// are consumed before the end shows.
    pub fn parse_u16(&mut self) -> (r: Result<u16, Error>)
        ensures
            final(self).depth() == old(self).depth(),
            match uint_decode(old(self).remaining(), 2) {
                Ok((value, used)) => r is Ok && r->Ok_0 == value && final(self).remaining() == old(
                    self,
                ).remaining().skip(used as int),
                Err(failure) => r is Err && r->Err_0@ == failure && Self::moved(
                    *old(self),
                    *final(self),
                    uint_stop(old(self).remaining()),
                ),
            },
    {
        let mut le_bytes = [0u8;2];
        self.fill_slice(&mut le_bytes)?;
        proof {
            assert(le_bytes@.take(2) =~= le_bytes@);
        }
        Ok(u16_from_le_bytes(&le_bytes))
    }

    /// Decodes an unsigned integer of four bytes. Where fewer are left, they
    /// are consumed before the end shows.
    pub fn parse_u32(&mut self) -> (r: Result<u32, Error>)
        ensures
            final(self).depth() == old(self).depth(),
            match uint_decode(old(self).remaining(), 4) {
                Ok((value, used)) => r is Ok && r->Ok_0 == value && final(self).remaining() == old(
                    self,
                ).remaining().skip(used as int),
                Err(failure) => r is Err && r->Err_0@ == failure && Self::moved(
                    *old(self),
                    *final(self),
                    uint_stop(old(self).remaining()),
                ),
            },
    {
        let mut le_bytes = [0u8;4];
        self.fill_slice(&mut le_bytes)?;
        proof {
            assert(le_bytes@.take(4) =~= le_bytes@);
        }
        Ok(u32_from_le_bytes(&le_bytes))
    }

    /// Decodes an unsigned integer of eight bytes. Where fewer are left, they
    /// are consumed before the end shows.
    pub fn parse_u64(&mut self) -> (r: Result<u64, Error>)
        ensures
            final(self).depth() == old(self).depth(),
            match uint_decode(old(self).remaining(), 8) {
                Ok((value, used)) => r is Ok && r->Ok_0 == value && final(self).remaining() == old(
                    self,
                ).remaining().skip(used as int),
                Err(failure) => r is Err && r->Err_0@ == failure && Self::moved(
                    *old(self),
                    *final(self),
                    uint_stop(old(self).remaining()),
                ),
            },
    {
        let mut le_bytes = [0u8;8];
        self.fill_slice(&mut le_bytes)?;
        proof {
            assert(le_bytes@.take(8) =~= le_bytes@);
        }
        Ok(u64_from_le_bytes(&le_bytes))
    }

    /// Decodes an unsigned integer of sixteen bytes. Where fewer are left, they
    /// are consumed before the end shows.
    pub fn parse_u128(&mut self) -> (r: Result<u128, Error>)
        ensures
            final(self).depth() == old(self).depth(),
            match uint_decode(old(self).remaining(), 16) {
                Ok((value, used)) => r is Ok && r->Ok_0 == value && final(self).remaining() == old(
                    self,
                ).remaining().skip(used as int),
                Err(failure) => r is Err && r->Err_0@ == failure && Self::moved(
                    *old(self),
                    *final(self),
                    uint_stop(old(self).remaining()),
                ),
            },
    {
        let mut le_bytes = [0u8;16];
        self.fill_slice(&mut le_bytes)?;
        proof {
            assert(le_bytes@.take(16) =~= le_bytes@);
        }
        Ok(u128_from_le_bytes(&le_bytes))
    }

    /// Decodes a variable-length integer of at most 32 bits. The bytes that
    /// were read for it are consumed, whether they are accepted or not.
    pub fn parse_u32_from_uleb128(&mut self) -> (r: Result<u32, Error>)
        ensures
            final(self).depth() == old(self).depth(),
            Self::moved(*old(self), *final(self), uleb128_stop(old(self).remaining())),
            match uleb128_decode(old(self).remaining()) {
                Ok((value, used)) => r == Ok::<u32, Error>(value) && final(self).remaining()
                    == old(self).remaining().skip(used as int),
                Err(failure) => r is Err && r->Err_0@ == failure,
            },
    {
        let input: &'de [u8] = self.input;
        let read = uleb128_span(input);
        self.input = &input[read..input.len()];
        proof {
            lemma_uleb128_stop(input@);
        }
        let (value, _) = decode_uleb128(input)?;
        Ok(value)
    }

    /// Decodes a length prefix. The bytes that were read for it are consumed,
    /// also where the length is refused.
    pub fn parse_length(&mut self) -> (r: Result<usize, Error>)
        ensures
            final(self).depth() == old(self).depth(),
            Self::moved(*old(self), *final(self), uleb128_stop(old(self).remaining())),
            match length_decode(old(self).remaining()) {
                Ok((value, used)) => r is Ok && r->Ok_0 == value && final(self).remaining() == old(
                    self,
                ).remaining().skip(used as int),
                Err(failure) => r is Err && r->Err_0@ == failure,
            },
    {
        proof {
            lemma_uleb128_stop(self.remaining());
        }
        let n = self.parse_u32_from_uleb128()?;
        check_length(n)
    }

    /// Decodes a length-prefixed byte string as a view into the input. Where
    /// it fails, what was read of the prefix is consumed and nothing else.
    pub fn parse_bytes_borrowed(&mut self) -> (r: Result<&'de [u8], Error>)
        ensures
            final(self).depth() == old(self).depth(),
            match byte_string_decode(old(self).remaining()) {
                Ok((value, used)) => r is Ok && r->Ok_0@ == value && final(self).remaining() == old(
                    self,
                ).remaining().skip(used as int),
                Err(failure) => r is Err && r->Err_0@ == failure && Self::moved(
                    *old(self),
                    *final(self),
                    byte_string_stop(old(self).remaining()),
                ),
            },
    {
        proof {
            lemma_uleb128_stop(self.remaining());
        }
        let len = self.parse_length()?;
        let ghost used = length_decode(old(self).remaining())->Ok_0.1;
        let slice = self.take(len)?;
        proof {
            let bytes = old(self).remaining();
            assert(bytes.skip(used as int).take(len as int) =~= bytes.subrange(
                used as int,
                (used + len) as int,
            ));
            assert(bytes.skip(used as int).skip(len as int) =~= bytes.skip((used + len) as int));
        }
        Ok(slice)
    }

    /// Decodes a length-prefixed text as a view into the input. Bytes that are
    /// no text are consumed before they are refused.
    pub fn parse_string_borrowed(&mut self) -> (r: Result<&'de str, Error>)
        ensures
            final(self).depth() == old(self).depth(),
            match string_decode(old(self).remaining()) {
                Ok((value, used)) => r is Ok && r->Ok_0@ == value && final(self).remaining() == old(
                    self,
                ).remaining().skip(used as int),
                Err(failure) => r is Err && r->Err_0@ == failure && Self::moved(
                    *old(self),
                    *final(self),
                    string_stop(old(self).remaining()),
                ),
            },
    {
        let slice = self.parse_bytes_borrowed()?;
        text_from_bytes(slice)
    }
}

impl<'de> Deserializer<'de> {
    /// The bytes that have not been consumed, as a view into the input.
    pub fn input(&self) -> (input: &'de [u8])
        ensures
            input@ == self.remaining(),
    {
        self.input
    }

    /// Whether the step from `before` to `after` with the result `r` is the
    /// one that `expected` prescribes: the same value, and the input advanced
    /// by the bytes it took; or the same failure, and the input advanced by
    /// `halt` bytes, which were taken before the failure showed. Either way
    /// the nesting budget is as it was.
    pub open spec fn follows(
        before: Self,
        after: Self,
        r: Result<Value, Error>,
        expected: Decoded<SpecValue>,
        halt: nat,
    ) -> bool {
        &&& after.depth() == before.depth()
        &&& match expected {
            Ok((value, used)) => {
                &&& r is Ok
                &&& r->Ok_0@ == value
                &&& used <= before.remaining().len()
                &&& after.remaining() == before.remaining().skip(used as int)
            },
            Err(failure) => {
                &&& r is Err
                &&& r->Err_0@ == failure
                &&& Self::moved(before, after, halt)
            },
        }
    }

    /// Decodes one value of the given shape.
    pub fn deserialize(&mut self, shape: &Shape) -> (r: Result<Value, Error>)
        ensures
            Self::follows(
                *old(self),
                *final(self),
                r,
                decode(*shape, old(self).remaining(), old(self).depth()),
                stop(*shape, old(self).remaining(), old(self).depth()),
            ),
        decreases shape, 0nat, 0nat,
    {
        proof {
            lemma_skip_twice(self.remaining(), 0, 0);
        }
        match shape {
            Shape::Bool => {
                let value = self.parse_bool()?;
                Ok(Value::Bool(value))
            },
            Shape::U8 => {
                let value = self.parse_u8()?;
                Ok(Value::U8(value))
            },
            Shape::U16 => {
                let value = self.parse_u16()?;
                Ok(Value::U16(value))
            },
            Shape::U32 => {
                let value = self.parse_u32()?;
                Ok(Value::U32(value))
            },
            Shape::U64 => {
                let value = self.parse_u64()?;
                Ok(Value::U64(value))
            },
            Shape::U128 => {
                let value = self.parse_u128()?;
                Ok(Value::U128(value))
            },
            Shape::I8 => {
                let value = self.parse_u8()?;
                Ok(Value::I8(i8_from_u8(value)))
            },
            Shape::I16 => {
                let value = self.parse_u16()?;
                Ok(Value::I16(i16_from_u16(value)))
            },
            Shape::I32 => {
                let value = self.parse_u32()?;
                Ok(Value::I32(i32_from_u32(value)))
            },
            Shape::I64 => {
                let value = self.parse_u64()?;
                Ok(Value::I64(i64_from_u64(value)))
            },
            Shape::I128 => {
                let value = self.parse_u128()?;
                Ok(Value::I128(i128_from_u128(value)))
            },
            Shape::F32 => Err(Error::NotSupported("deserialize_f32")),
            Shape::F64 => Err(Error::NotSupported("deserialize_f64")),
            Shape::Char => Err(Error::NotSupported("deserialize_char")),
            Shape::Str => {
                let text = self.parse_string_borrowed()?;
                Ok(Value::Str(text.to_owned()))
            },
            Shape::Bytes => {
                let bytes = self.parse_bytes_borrowed()?;
                Ok(Value::Bytes(slice_to_vec(bytes)))
            },
            Shape::Optional(inner) => self.deserialize_option(inner),
            Shape::Unit => self.deserialize_unit(),
            Shape::UnitStruct(name) => self.deserialize_unit_struct(name),
            Shape::NewtypeStruct(name, inner) => self.deserialize_newtype_struct(name, inner),
            Shape::Sequence(element) => self.deserialize_seq(element),
            Shape::Tuple(fields) => self.deserialize_tuple(fields),
            Shape::TupleStruct(name, fields) => self.deserialize_tuple_struct(name, fields),
            Shape::Mapping(entry) => self.deserialize_map(entry),
            Shape::Struct(name, fields) => self.deserialize_struct(name, fields),
            Shape::Enum(name, variants) => self.deserialize_enum(name, variants),
            Shape::Identifier => {
                let bytes = self.parse_bytes_borrowed()?;
                Ok(Value::Bytes(slice_to_vec(bytes)))
            },
            Shape::Any => Err(Error::NotSupported("deserialize_any")),
            Shape::IgnoredAny => Err(Error::NotSupported("deserialize_ignored_any")),
        }
    }

    /// Decodes an optional value: a tag byte, then the value where the tag
    /// says that one follows.
    pub fn deserialize_option(&mut self, inner: &Shape) -> (r: Result<Value, Error>)
        ensures
            Self::follows(
                *old(self),
                *final(self),
                r,
                decode_option(*inner, old(self).remaining(), old(self).depth()),
                stop_option(*inner, old(self).remaining(), old(self).depth()),
            ),
        decreases inner, 1nat, 0nat,
    {
        proof {
            let bytes = self.remaining();
            lemma_skip_twice(bytes, 1, stop(*inner, bytes.skip(1), self.depth()));
        }
        let byte = self.next()?;
        let present = option_tag_from_byte(byte)?;
        if present {
            let value = self.deserialize(inner)?;
            proof {
                let bytes = old(self).remaining();
                let more = decode(*inner, bytes.skip(1), old(self).depth())->Ok_0.1;
                assert(bytes.skip(1).skip(more as int) =~= bytes.skip((1 + more) as int));
            }
            Ok(Value::Optional(Some(Box::new(value))))
        } else {
            Ok(Value::Optional(None))
        }
    }

    /// Decodes the value without content, which takes no bytes.
    pub fn deserialize_unit(&mut self) -> (r: Result<Value, Error>)
        ensures
            Self::follows(
                *old(self),
                *final(self),
                r,
                Ok((SpecValue::Unit, 0nat)),
                0nat,
            ),
    {
        proof {
            assert(self.remaining().skip(0) =~= self.remaining());
        }
        Ok(Value::Unit)
    }

    /// Decodes a named type without content.
    pub fn deserialize_unit_struct(&mut self, name: &'static str) -> (r: Result<Value, Error>)
        ensures
            Self::follows(
                *old(self),
                *final(self),
                r,
                decode_unit_struct(name, old(self).depth()),
                0nat,
            ),
    {
        proof {
            lemma_skip_twice(self.remaining(), 0, 0);
        }
        self.enter_named_container(name)?;
        let r = self.deserialize_unit();
        self.leave_named_container();
        r
    }

    /// Decodes a named wrapper around one value.
    pub fn deserialize_newtype_struct(&mut self, name: &'static str, inner: &Shape) -> (r: Result<
        Value,
        Error,
    >)
        ensures
            Self::follows(
                *old(self),
                *final(self),
                r,
                decode_newtype_struct(name, *inner, old(self).remaining(), old(self).depth()),
                stop_newtype_struct(*inner, old(self).remaining(), old(self).depth()),
            ),
        decreases inner, 1nat, 0nat,
    {
        proof {
            lemma_skip_twice(self.remaining(), 0, 0);
        }
        self.enter_named_container(name)?;
        let r = self.deserialize(inner);
        self.leave_named_container();
        r
    }

    /// Decodes a sequence: a length prefix, then that many elements.
    pub fn deserialize_seq(&mut self, element: &Shape) -> (r: Result<Value, Error>)
        ensures
            Self::follows(
                *old(self),
                *final(self),
                r,
                decode_seq(*element, old(self).remaining(), old(self).depth()),
                stop_seq(*element, old(self).remaining(), old(self).depth()),
            ),
        decreases element, 2nat, 0nat,
    {
        proof {
            lemma_uleb128_stop(self.remaining());
        }
        let len = self.parse_length()?;
        let mut seq = SeqDeserializer::new(len);
        let mut items: Vec<Value> = Vec::new();
        let ghost depth = self.depth();
        let ghost start = self.remaining();
        let ghost prefix = length_decode(old(self).remaining())->Ok_0.1;
        let ghost mut consumed: nat = 0;
        proof {
            assert(start.skip(0) =~= start);
            assert(values_view(items@) + Seq::<SpecValue>::empty() =~= Seq::<SpecValue>::empty());
        }
        loop
            invariant
                depth == old(self).depth(),
                length_decode(old(self).remaining()) == Ok::<(nat, nat), Failure>(
                    (len as nat, prefix),
                ),
                prefix <= old(self).remaining().len(),
                start == old(self).remaining().skip(prefix as int),
                self.depth() == depth,
                consumed <= start.len(),
                self.remaining() == start.skip(consumed as int),
                decode_repeated(*element, start, depth, len as nat) == after(
                    values_view(items@),
                    consumed,
                    decode_repeated(*element, self.remaining(), depth, seq.count()),
                ),
                stop_repeated(*element, start, depth, len as nat) == consumed + stop_repeated(
                    *element,
                    self.remaining(),
                    depth,
                    seq.count(),
                ),
            ensures
                seq.count() == 0,
            decreases seq.count(),
        {
            let ghost here = self.remaining();
            let ghost count = seq.count();
            proof {
                let halt = stop(*element, here, depth);
                lemma_skip_twice(start, consumed, halt);
                lemma_skip_twice(old(self).remaining(), prefix, consumed + halt);
            }
            let next = seq.next_element(self, element)?;
            match next {
                None => {
                    break ;
                },
                Some(value) => {
                    proof {
                        let (first, used) = decode(*element, here, depth)->Ok_0;
                        let tail = decode_repeated(
                            *element,
                            here.skip(used as int),
                            depth,
                            (count - 1) as nat,
                        );
                        lemma_values_view_push(items@, value);
                        assert(start.skip(consumed as int).skip(used as int) =~= start.skip(
                            (consumed + used) as int,
                        ));
                        if tail is Ok {
                            assert(values_view(items@) + (seq![first] + tail->Ok_0.0)
                                =~= values_view(items@).push(first) + tail->Ok_0.0);
                        }
                        consumed = consumed + used;
                    }
                    items.push(value);
                },
            }
        }
        proof {
            let bytes = old(self).remaining();
            assert(values_view(items@) + Seq::<SpecValue>::empty() =~= values_view(items@));
            assert(bytes.skip(prefix as int).skip(consumed as int) =~= bytes.skip(
                (prefix + consumed) as int,
            ));
        }
        Ok(Value::Sequence(items))
    }

    /// Decodes the fields of a tuple, one after the other.
    pub fn deserialize_tuple(&mut self, fields: &Vec<Shape>) -> (r: Result<Value, Error>)
        ensures
            Self::follows(
                *old(self),
                *final(self),
                r,
                decode_tuple(fields@, old(self).remaining(), old(self).depth()),
                stop_fields(fields@, old(self).remaining(), old(self).depth()),
            ),
        decreases fields, 2nat, 0nat,
    {
        let mut seq = SeqDeserializer::new(fields.len());
        let mut items: Vec<Value> = Vec::new();
        let ghost depth = self.depth();
        let ghost start = self.remaining();
        let ghost mut consumed: nat = 0;
        let mut i: usize = 0;
        proof {
            assert(start.skip(0) =~= start);
            assert(fields@.skip(0) =~= fields@);
            assert(values_view(items@) + Seq::<SpecValue>::empty() =~= Seq::<SpecValue>::empty());
        }
        while i < fields.len()
            invariant
                i <= fields@.len(),
                seq.count() == fields@.len() - i,
                depth == old(self).depth(),
                start == old(self).remaining(),
                self.depth() == depth,
                consumed <= start.len(),
                self.remaining() == start.skip(consumed as int),
                decode_fields(fields@, start, depth) == after(
                    values_view(items@),
                    consumed,
                    decode_fields(fields@.skip(i as int), self.remaining(), depth),
                ),
                stop_fields(fields@, start, depth) == consumed + stop_fields(
                    fields@.skip(i as int),
                    self.remaining(),
                    depth,
                ),
            decreases fields@.len() - i,
        {
            let ghost here = self.remaining();
            proof {
                assert(fields@.skip(i as int)[0] == fields@[i as int]);
                assert(fields@.skip(i as int).drop_first() =~= fields@.skip(i as int + 1));
                lemma_skip_twice(start, consumed, stop(fields@[i as int], here, depth));
            }
            let next = seq.next_element(self, &fields[i])?;
            match next {
                None => {},
                Some(value) => {
                    proof {
                        let (first, used) = decode(fields@[i as int], here, depth)->Ok_0;
                        let tail = decode_fields(
                            fields@.skip(i as int + 1),
                            here.skip(used as int),
                            depth,
                        );
                        lemma_values_view_push(items@, value);
                        assert(start.skip(consumed as int).skip(used as int) =~= start.skip(
                            (consumed + used) as int,
                        ));
                        if tail is Ok {
                            assert(values_view(items@) + (seq![first] + tail->Ok_0.0)
                                =~= values_view(items@).push(first) + tail->Ok_0.0);
                        }
                        consumed = consumed + used;
                    }
                    items.push(value);
                },
            }
            i = i + 1;
        }
        proof {
            assert(fields@.skip(fields@.len() as int) =~= Seq::<Shape>::empty());
            assert(values_view(items@) + Seq::<SpecValue>::empty() =~= values_view(items@));
        }
        Ok(Value::Tuple(items))
    }

    /// Decodes a named tuple.
    pub fn deserialize_tuple_struct(&mut self, name: &'static str, fields: &Vec<Shape>) -> (r:
        Result<Value, Error>)
        ensures
            Self::follows(
                *old(self),
                *final(self),
                r,
                decode_tuple_struct(name, fields@, old(self).remaining(), old(self).depth()),
                stop_tuple_struct(fields@, old(self).remaining(), old(self).depth()),
            ),
        decreases fields, 3nat, 0nat,
    {
        proof {
            lemma_skip_twice(self.remaining(), 0, 0);
        }
        self.enter_named_container(name)?;
        let r = self.deserialize_tuple(fields);
        self.leave_named_container();
        r
    }

    /// Decodes a named list of fields, in their declared order.
    pub fn deserialize_struct(&mut self, name: &'static str, fields: &Vec<Shape>) -> (r: Result<
        Value,
        Error,
    >)
        ensures
            Self::follows(
                *old(self),
                *final(self),
                r,
                decode_tuple_struct(name, fields@, old(self).remaining(), old(self).depth()),
                stop_tuple_struct(fields@, old(self).remaining(), old(self).depth()),
            ),
        decreases fields, 3nat, 0nat,
    {
        proof {
            lemma_skip_twice(self.remaining(), 0, 0);
        }
        self.enter_named_container(name)?;
        let r = self.deserialize_tuple(fields);
        self.leave_named_container();
        r
    }

    /// Decodes a map: a length prefix, then that many pairs, whose keys must
    /// ascend.
    pub fn deserialize_map(&mut self, entry: &(Shape, Shape)) -> (r: Result<Value, Error>)
        ensures
            Self::follows(
                *old(self),
                *final(self),
                r,
                decode_map(*entry, old(self).remaining(), old(self).depth()),
                stop_map(*entry, old(self).remaining(), old(self).depth()),
            ),
        decreases entry, 2nat, 0nat,
    {
        proof {
            lemma_uleb128_stop(self.remaining());
        }
        let len = self.parse_length()?;
        let mut map = MapDeserializer::new(len);
        let mut pairs: Vec<(Value, Value)> = Vec::new();
        let ghost depth = self.depth();
        let ghost start = self.remaining();
        let ghost prefix = length_decode(old(self).remaining())->Ok_0.1;
        let ghost mut consumed: nat = 0;
        proof {
            assert(start.skip(0) =~= start);
            assert(pairs_view(pairs@) + Seq::<(SpecValue, SpecValue)>::empty() =~= Seq::<
                (SpecValue, SpecValue),
            >::empty());
        }
        loop
            invariant
                depth == old(self).depth(),
                length_decode(old(self).remaining()) == Ok::<(nat, nat), Failure>(
                    (len as nat, prefix),
                ),
                prefix <= old(self).remaining().len(),
                start == old(self).remaining().skip(prefix as int),
                self.depth() == depth,
                consumed <= start.len(),
                self.remaining() == start.skip(consumed as int),
                decode_entries(*entry, start, depth, len as nat, None) == after(
                    pairs_view(pairs@),
                    consumed,
                    decode_entries(
                        *entry,
                        self.remaining(),
                        depth,
                        map.count(),
                        map.previous(),
                    ),
                ),
                stop_entries(*entry, start, depth, len as nat, None) == consumed + stop_entries(
                    *entry,
                    self.remaining(),
                    depth,
                    map.count(),
                    map.previous(),
                ),
            ensures
                map.count() == 0,
            decreases map.count(),
        {
            let ghost here = self.remaining();
            let ghost count = map.count();
            proof {
                let key = decode(entry.0, here, depth);
                let halt = if key is Ok {
                    key->Ok_0.1
                } else {
                    stop(entry.0, here, depth)
                };
                lemma_skip_twice(start, consumed, halt);
                lemma_skip_twice(old(self).remaining(), prefix, consumed + halt);
            }
            let next = map.next_key(self, &entry.0)?;
            match next {
                None => {
                    break ;
                },
                Some(key) => {
                    proof {
                        let used = decode(entry.0, here, depth)->Ok_0.1;
                        let halt = stop(entry.1, here.skip(used as int), depth);
                        lemma_skip_twice(here, used, halt);
                        lemma_skip_twice(start, consumed, used + halt);
                        lemma_skip_twice(old(self).remaining(), prefix, consumed + used + halt);
                    }
                    let value = map.next_value(self, &entry.1)?;
                    proof {
                        let (first, used) = decode(entry.0, here, depth)->Ok_0;
                        let (second, more) = decode(entry.1, here.skip(used as int), depth)->Ok_0;
                        let tail = decode_entries(
                            *entry,
                            here.skip((used + more) as int),
                            depth,
                            (count - 1) as nat,
                            Some(here.take(used as int)),
                        );
                        lemma_pairs_view_push(pairs@, key, value);
                        assert(here.skip(used as int).skip(more as int) =~= here.skip(
                            (used + more) as int,
                        ));
                        assert(start.skip(consumed as int).skip((used + more) as int)
                            =~= start.skip((consumed + used + more) as int));
                        if tail is Ok {
                            assert(pairs_view(pairs@) + (seq![(first, second)] + tail->Ok_0.0)
                                =~= pairs_view(pairs@).push((first, second)) + tail->Ok_0.0);
                        }
                        consumed = consumed + used + more;
                    }
                    pairs.push((key, value));
                },
            }
        }
        proof {
            let bytes = old(self).remaining();
            assert(pairs_view(pairs@) + Seq::<(SpecValue, SpecValue)>::empty() =~= pairs_view(
                pairs@,
            ));
            assert(bytes.skip(prefix as int).skip(consumed as int) =~= bytes.skip(
                (prefix + consumed) as int,
            ));
        }
        Ok(Value::Mapping(pairs))
    }

    /// Decodes the inside of an enum: the index of a variant, then the
    /// content of that variant.
    pub fn deserialize_variant(&mut self, variants: &Vec<Shape>) -> (r: Result<Value, Error>)
        ensures
            Self::follows(
                *old(self),
                *final(self),
                r,
                decode_variant(variants@, old(self).remaining(), old(self).depth()),
                stop_variant(variants@, old(self).remaining(), old(self).depth()),
            ),
        decreases variants, 1nat, 0nat,
    {
        proof {
            lemma_uleb128_stop(self.remaining());
        }
        let index = self.parse_u32_from_uleb128()?;
        if index as usize >= variants.len() {
            return Err(unknown_variant(index, variants.len()));
        }
        proof {
            let bytes = old(self).remaining();
            let used = uleb128_decode(bytes)->Ok_0.1;
            lemma_skip_twice(
                bytes,
                used,
                stop(variants@[index as int], bytes.skip(used as int), self.depth()),
            );
        }
        let content = self.deserialize(&variants[index as usize])?;
        proof {
            let bytes = old(self).remaining();
            let used = uleb128_decode(bytes)->Ok_0.1;
            let more = decode(variants@[index as int], bytes.skip(used as int), old(self).depth())->Ok_0.1;
            assert(bytes.skip(used as int).skip(more as int) =~= bytes.skip((used + more) as int));
        }
        Ok(Value::Variant(index, Box::new(content)))
    }

    /// Decodes an enum.
    pub fn deserialize_enum(&mut self, name: &'static str, variants: &Vec<Shape>) -> (r: Result<
        Value,
        Error,
    >)
        ensures
            Self::follows(
                *old(self),
                *final(self),
                r,
                decode_enum(name, variants@, old(self).remaining(), old(self).depth()),
                stop_enum(variants@, old(self).remaining(), old(self).depth()),
            ),
        decreases variants, 2nat, 0nat,
    {
        proof {
            lemma_skip_twice(self.remaining(), 0, 0);
        }
        self.enter_named_container(name)?;
        let r = self.deserialize_variant(variants);
        self.leave_named_container();
        r
    }

    /// The format is binary: it is not meant to be read by people.
    pub fn is_human_readable(&self) -> (r: bool)
        ensures
            !r,
    {
        false
    }
}

/// The count of the elements of a sequence or tuple that are still to come.
pub struct SeqDeserializer {
    remaining: usize,
}

impl SeqDeserializer {
    /// How many elements are still to come.
    pub closed spec fn count(&self) -> nat {
        self.remaining as nat
    }

    /// A count of `remaining` elements.
    pub fn new(remaining: usize) -> (seq: Self)
        ensures
            seq.count() == remaining,
    {
        SeqDeserializer { remaining }
    }

    /// Counts one element off where one is still to come, and says whether
    /// one was.
    pub fn begin_element(&mut self) -> (more: bool)
        ensures
            more == (old(self).count() > 0),
            more ==> final(self).count() == old(self).count() - 1,
            !more ==> final(self).count() == 0,
    {
        if self.remaining == 0 {
            false
        } else {
            self.remaining = self.remaining - 1;
            true
        }
    }

    /// Decodes the next element from `de`, or says that none is left.
    pub fn next_element<'de>(&mut self, de: &mut Deserializer<'de>, shape: &Shape) -> (r: Result<
        Option<Value>,
        Error,
    >)
        ensures
            old(self).count() == 0 ==> r is Ok && r->Ok_0 is None && *final(de) == *old(de)
                && final(self).count() == 0,
            old(self).count() > 0 ==> {
                &&& final(self).count() == old(self).count() - 1
                &&& final(de).depth() == old(de).depth()
                &&& match decode(*shape, old(de).remaining(), old(de).depth()) {
                    Ok((value, used)) => {
                        &&& r is Ok
                        &&& r->Ok_0 is Some
                        &&& r->Ok_0->Some_0@ == value
                        &&& used <= old(de).remaining().len()
                        &&& final(de).remaining() == old(de).remaining().skip(used as int)
                    },
                    Err(failure) => r is Err && r->Err_0@ == failure && Deserializer::moved(
                        *old(de),
                        *final(de),
                        stop(*shape, old(de).remaining(), old(de).depth()),
                    ),
                }
            },
        decreases shape, 1nat, 0nat,
    {
        if self.begin_element() {
            let value = de.deserialize(shape)?;
            Ok(Some(value))
        } else {
            Ok(None)
        }
    }

    /// How many elements are still to come.
    pub fn size_hint(&self) -> (hint: Option<usize>)
        ensures
            hint == Some(self.count() as usize),
    {
        Some(self.remaining)
    }
}

/// The count of the pairs of a map that are still to come, with the bytes of
/// the key that was decoded last.
pub struct MapDeserializer<'de> {
    remaining: usize,
    previous_key_bytes: Option<&'de [u8]>,
}

impl<'de> MapDeserializer<'de> {
    /// How many pairs are still to come.
    pub closed spec fn count(&self) -> nat {
        self.remaining as nat
    }

    /// The bytes of the key that was decoded last, if one was.
    pub closed spec fn previous(&self) -> Option<Seq<u8>> {
        match self.previous_key_bytes {
            None => None,
            Some(bytes) => Some(bytes@),
        }
    }

    /// A count of `remaining` pairs, before the first key.
    pub fn new(remaining: usize) -> (map: Self)
        ensures
            map.count() == remaining,
            map.previous() is None,
    {
        MapDeserializer { remaining, previous_key_bytes: None }
    }

    /// Hands out the input at the start of the next key, where a pair is
    /// still to come. The pair is counted off only when its key ends and is
    /// accepted.
    pub fn begin_key(&self, de: &Deserializer<'de>) -> (start: Option<&'de [u8]>)
        ensures
            self.count() == 0 ==> start is None,
            self.count() > 0 ==> start is Some && start->Some_0@ == de.remaining(),
    {
        if self.remaining == 0 {
            None
        } else {
            Some(de.input())
        }
    }

    /// Takes the bytes between `start` and the place where `de` stands as the
    /// bytes of a key, and accepts the key where these come strictly after
    /// the bytes of the key before it. An accepted key is counted off and
    /// becomes the key before the next. A key that is refused leaves the
    /// count and the key before it as they were.
    pub fn end_key(&mut self, de: &Deserializer<'de>, start: &'de [u8]) -> (r: Result<(), Error>)
        requires
            old(self).count() > 0,
        ensures
            ({
                let taken = if start@.len() >= de.remaining().len() {
                    start@.len() - de.remaining().len()
                } else {
                    0
                };
                let key = start@.take(taken);
                &&& r is Ok <==> (old(self).previous() is None || lex_lt(
                    old(self).previous()->Some_0,
                    key,
                ))
                &&& r is Ok ==> final(self).count() == old(self).count() - 1
                &&& r is Ok ==> final(self).previous() == Some(key)
                &&& r is Err ==> r->Err_0@ == Failure::NonCanonicalMap && *final(self) == *old(
                    self,
                )
            }),
    {
        let rest = de.input();
        let key_len: usize = if start.len() >= rest.len() {
            start.len() - rest.len()
        } else {
            0
        };
        let key_bytes: &'de [u8] = &start[0..key_len];
        check_key_order(self.previous_key_bytes, key_bytes)?;
        self.remaining = self.remaining - 1;
        self.previous_key_bytes = Some(key_bytes);
        Ok(())
    }

    /// Decodes the next key from `de` and checks that it comes after the key
    /// before it, or says that no pair is left. The pair is counted off, and
    /// its key becomes the key before the next, only where the key is
    /// accepted: after a failure both are as they were. A key that is refused
    /// for its order has been consumed.
    pub fn next_key(&mut self, de: &mut Deserializer<'de>, shape: &Shape) -> (r: Result<
        Option<Value>,
        Error,
    >)
        ensures
            old(self).count() == 0 ==> r is Ok && r->Ok_0 is None && *final(de) == *old(de)
                && *final(self) == *old(self),
            r is Err ==> final(self).count() == old(self).count() && final(self).previous() == old(
                self,
            ).previous(),
            old(self).count() > 0 ==> {
                &&& final(de).depth() == old(de).depth()
                &&& match decode(*shape, old(de).remaining(), old(de).depth()) {
                    Ok((value, used)) => {
                        let key = old(de).remaining().take(used as int);
                        &&& Deserializer::moved(*old(de), *final(de), used)
                        &&& if old(self).previous() is Some && !lex_lt(
                            old(self).previous()->Some_0,
                            key,
                        ) {
                            r is Err && r->Err_0@ == Failure::NonCanonicalMap
                        } else {
                            &&& r is Ok
                            &&& r->Ok_0 is Some
                            &&& r->Ok_0->Some_0@ == value
                            &&& final(self).count() == old(self).count() - 1
                            &&& final(self).previous() == Some(key)
                        }
                    },
                    Err(failure) => r is Err && r->Err_0@ == failure && Deserializer::moved(
                        *old(de),
                        *final(de),
                        stop(*shape, old(de).remaining(), old(de).depth()),
                    ),
                }
            },
        decreases shape, 1nat, 0nat,
    {
        match self.begin_key(de) {
            None => Ok(None),
            Some(start) => {
                let key_value = de.deserialize(shape)?;
                self.end_key(de, start)?;
                Ok(Some(key_value))
            },
        }
    }

    /// Decodes the value that belongs to the key that was decoded last.
    pub fn next_value(&mut self, de: &mut Deserializer<'de>, shape: &Shape) -> (r: Result<
        Value,
        Error,
    >)
        ensures
            *final(self) == *old(self),
            Deserializer::follows(
                *old(de),
                *final(de),
                r,
                decode(*shape, old(de).remaining(), old(de).depth()),
                stop(*shape, old(de).remaining(), old(de).depth()),
            ),
        decreases shape, 1nat, 0nat,
    {
        de.deserialize(shape)
    }

    /// How many pairs are still to come.
    pub fn size_hint(&self) -> (hint: Option<usize>)
        ensures
            hint == Some(self.count() as usize),
    {
        Some(self.remaining)
    }
}

/// Decodes `bytes` as one value of the given shape, with the default nesting
/// budget. The value must take all of `bytes`, and `bytes` are then the one
/// encoding of that value.
pub fn from_bytes(bytes: &[u8], shape: &Shape) -> (r: Result<Value, Error>)
    ensures
        match decode_all(*shape, bytes@, crate::MAX_CONTAINER_DEPTH as nat) {
            Ok(value) => r is Ok && r->Ok_0@ == value,
            Err(failure) => r is Err && r->Err_0@ == failure,
        },
        r is Ok ==> encode(r->Ok_0@) == bytes@,
{
    let mut deserializer = Deserializer::new(bytes, crate::MAX_CONTAINER_DEPTH);
    let value = deserializer.deserialize(shape)?;
    deserializer.end()?;
    proof {
        lemma_round_trip(*shape, bytes@, crate::MAX_CONTAINER_DEPTH as nat);
    }
    Ok(value)
}

} // verus!
