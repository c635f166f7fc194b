//! Decoding from a source that hands its bytes out piece by piece. Nothing
//! is read ahead and nothing is read twice; where the bytes of a value are
//! needed after it was decoded, they are recorded while they are read.

use crate::codec::{
    bool_from_byte, check_length, decode_uleb128, i128_from_u128, i16_from_u16, i32_from_u32,
    i64_from_u64, i8_from_u8, lex_less, option_tag_from_byte, text_from_bytes,
    u128_from_le_bytes, u16_from_le_bytes, u32_from_le_bytes, u64_from_le_bytes, unknown_variant,
};
use crate::encoding::{encode, lemma_encode_decode};
use crate::error::{Error, Failure};
use crate::grammar::{
    decode, decode_entries, decode_enum, decode_fields, decode_map, decode_newtype_struct,
    decode_option, decode_repeated, decode_seq, decode_tuple, decode_tuple_struct,
    decode_unit_struct, decode_variant, failing_key, failing_key_entries, failing_key_enum,
    failing_key_fields, failing_key_map, failing_key_newtype_struct, failing_key_option,
    failing_key_repeated, failing_key_seq, failing_key_tuple_struct, failing_key_variant, shifted,
    Decoded,
};
use crate::shape::Shape;
use crate::theorems::{
    last_key, lemma_agree_extended, lemma_decode_entries_append, lemma_decode_entries_fails,
    lemma_decode_entries_single, lemma_decode_fields_append, lemma_decode_fields_fails,
    lemma_decode_prefix, lemma_decode_repeated_append, lemma_decode_repeated_fails,
    lemma_length_prefix,
};
use crate::value::{
    lemma_pairs_view_push, lemma_values_view_push, pairs_view, values_view, SpecValue, Value,
};
use crate::wire::{
    bool_decode, byte_string_decode, continuation_run, le_value, lemma_continuation_run_split,
    lemma_uleb128_decode_extends, length_decode, lex_lt, string_decode, uint_decode,
    uleb128_decode,
};
use std::io::Read;
use vstd::prelude::*;

verus! {

/// `std::io::Error`: the failure of a byte source. Nothing is known of what
/// it holds but what the functions below ask of it.
#[verifier::external_type_specification]
#[verifier::external_body]
pub struct ExIoError(std::io::Error);

/// `std::io::Read::read`: pulls some bytes from `reader` into the start of
/// `buf` and says how many, which is never more than `buf` holds.
#[verifier::external_body]
fn read_from<R: Read>(reader: &mut R, buf: &mut [u8]) -> (r: Result<usize, std::io::Error>)
    ensures
        final(buf)@.len() == old(buf)@.len(),
        r is Ok ==> r->Ok_0 <= old(buf)@.len(),
{
    reader.read(buf)
}

/// `std::io::Read::read_exact`: fills `buf` from `reader`, or fails.
#[verifier::external_body]
fn read_exact_from<R: Read>(reader: &mut R, buf: &mut [u8]) -> (r: Result<(), std::io::Error>)
    ensures
        final(buf)@.len() == old(buf)@.len(),
{
    reader.read_exact(buf)
}

/// Whether the failure `failure` of a source is of the kind that says the
/// source ended before a buffer was full.
pub uninterp spec fn source_ran_dry(failure: std::io::Error) -> bool;

/// `std::io::Error::kind`: whether the kind of the failure is
/// `UnexpectedEof`, which is what `source_ran_dry` names.
#[verifier::external_body]
fn is_unexpected_eof(failure: &std::io::Error) -> (r: bool)
    ensures
        r == source_ran_dry(*failure),
{
    failure.kind() == std::io::ErrorKind::UnexpectedEof
}

/// `std::io::Error`'s `to_string`: the message of a failure of the source,
/// as it prints itself.
#[verifier::external_body]
fn io_error_message(failure: &std::io::Error) -> String {
    failure.to_string()
}

/// The failure of a decode whose source failed: the end of the input where
/// the source ran dry, and the source's own message otherwise.
pub fn source_failure(ran_dry: bool, message: String) -> (e: Error)
    ensures
        ran_dry ==> e@ == Failure::Eof,
        !ran_dry ==> e@ == Failure::Io(message@),
{
    if ran_dry {
        Error::Eof
    } else {
        Error::Io(message)
    }
}

/// The failure of a decode for the failure `failure` of its source: the end
/// of the input where the source ran dry, and otherwise a failure of the
/// source that carries the source's message.
pub fn error_from_io(failure: std::io::Error) -> (e: Error)
    ensures
        e@.from_source(),
        source_ran_dry(failure) ==> e@ == Failure::Eof,
        !source_ran_dry(failure) ==> e@ is Io,
{
    let ran_dry = is_unexpected_eof(&failure);
    let message = io_error_message(&failure);
    source_failure(ran_dry, message)
}

/// The bytes that `buffer` holds, where there is one.
pub open spec fn bytes_of(buffer: Option<Vec<u8>>) -> Option<Seq<u8>> {
    match buffer {
        None => None,
        Some(bytes) => Some(bytes@),
    }
}

/// A reader that can record the bytes that pass through it.
pub struct TeeReader<'a, R> {
    reader: &'a mut R,
    capture_buffer: Option<Vec<u8>>,
    consumed: Ghost<Seq<u8>>,
    asked: Ghost<nat>,
}

impl<'a, R> TeeReader<'a, R> {
    /// All bytes that were handed out so far.
    pub closed spec fn consumed(&self) -> Seq<u8> {
        self.consumed@
    }

    /// How many bytes the source was asked for in all, whether it gave them
    /// or not.
    pub closed spec fn asked(&self) -> nat {
        self.asked@
    }

    /// The bytes that were handed out since recording began, while it goes
    /// on.
    pub closed spec fn captured(&self) -> Option<Seq<u8>> {
        match self.capture_buffer {
            None => None,
            Some(buffer) => Some(buffer@),
        }
    }

    /// What is recorded after `bytes` more were handed out, where `before`
    /// was recorded until then.
    pub open spec fn recorded(before: Option<Seq<u8>>, bytes: Seq<u8>) -> Option<Seq<u8>> {
        match before {
            None => None,
            Some(earlier) => Some(earlier + bytes),
        }
    }

    /// Wraps `reader`. Nothing has been read, and nothing is recorded.
    pub fn new(reader: &'a mut R) -> (tee: Self)
        ensures
            tee.consumed() == Seq::<u8>::empty(),
            tee.captured() is None,
            tee.asked() == 0,
    {
        TeeReader { reader, capture_buffer: None, consumed: Ghost(Seq::empty()), asked: Ghost(0) }
    }

    /// Begins to record, with nothing recorded yet. A recording that goes on
    /// is cut short and handed out, so that it can be resumed.
    pub fn start_capture(&mut self) -> (suspended: Option<Vec<u8>>)
        ensures
            final(self).consumed() == old(self).consumed(),
            final(self).asked() == old(self).asked(),
            final(self).captured() == Some(Seq::<u8>::empty()),
            bytes_of(suspended) == old(self).captured(),
    {
        let suspended = self.capture_buffer.take();
        self.capture_buffer = Some(Vec::new());
        suspended
    }

    /// Whether recording goes on.
    pub fn is_capturing(&self) -> (capturing: bool)
        ensures
            capturing == (self.captured() is Some),
    {
        self.capture_buffer.is_some()
    }

    /// Ends the recording and hands out what was recorded.
    pub fn take_capture(&mut self) -> (taken: Option<Vec<u8>>)
        ensures
            final(self).consumed() == old(self).consumed(),
            final(self).asked() == old(self).asked(),
            final(self).captured() is None,
            bytes_of(taken) == old(self).captured(),
    {
        self.capture_buffer.take()
    }

    /// Resumes the recording `suspended`, where there is one, with `bytes`
    /// added to it.
    pub fn resume_capture(&mut self, suspended: Option<Vec<u8>>, bytes: &[u8])
        ensures
            final(self).consumed() == old(self).consumed(),
            final(self).asked() == old(self).asked(),
            final(self).captured() == Self::recorded(bytes_of(suspended), bytes@),
    {
        match suspended {
            None => {
                self.capture_buffer = None;
            },
            Some(mut buffer) => {
                let ghost earlier = buffer@;
                buffer.extend_from_slice(bytes);
                proof {
                    assert(buffer@ =~= earlier + bytes@);
                }
                self.capture_buffer = Some(buffer);
            },
        }
    }
}

impl<'a, R: Read> TeeReader<'a, R> {
    /// Records `bytes` where recording goes on.
    fn record(&mut self, bytes: &[u8])
        ensures
            final(self).consumed() == old(self).consumed() + bytes@,
            final(self).asked() == old(self).asked(),
            final(self).captured() == Self::recorded(old(self).captured(), bytes@),
    {
        let taken = self.capture_buffer.take();
        match taken {
            None => {},
            Some(mut buffer) => {
                let ghost earlier = buffer@;
                buffer.extend_from_slice(bytes);
                proof {
                    assert(buffer@ =~= earlier + bytes@);
                }
                self.capture_buffer = Some(buffer);
            },
        }
        self.consumed = Ghost(self.consumed@ + bytes@);
    }

    /// Takes what the source answered when it was asked to put some bytes at
    /// the start of `buf`: it counts the bytes that were asked for, records
    /// the bytes that came, where recording goes on, and passes the answer on
    /// as it is.
    pub fn record_read(&mut self, outcome: Result<usize, std::io::Error>, buf: &[u8]) -> (r:
        Result<usize, std::io::Error>)
        requires
            outcome is Ok ==> outcome->Ok_0 <= buf@.len(),
        ensures
            r == outcome,
            final(self).asked() == old(self).asked() + buf@.len(),
            match outcome {
                Ok(n) => {
                    &&& final(self).consumed() == old(self).consumed() + buf@.take(n as int)
                    &&& final(self).captured() == Self::recorded(
                        old(self).captured(),
                        buf@.take(n as int),
                    )
                },
                Err(_) => final(self).consumed() == old(self).consumed() && final(self).captured()
                    == old(self).captured(),
            },
    {
        self.asked = Ghost((self.asked@ + buf@.len()) as nat);
        match outcome {
            Ok(bytes_read) => {
                self.record(&buf[0..bytes_read]);
                Ok(bytes_read)
            },
            Err(failure) => Err(failure),
        }
    }

    /// Takes what the source answered when it was asked to fill `buf`: it
    /// counts the bytes that were asked for, records `buf` where the source
    /// filled it and recording goes on, and passes the answer on as it is.
    pub fn record_filled(&mut self, outcome: Result<(), std::io::Error>, buf: &[u8]) -> (r: Result<
        (),
        std::io::Error,
    >)
        ensures
            r == outcome,
            final(self).asked() == old(self).asked() + buf@.len(),
            match outcome {
                Ok(_) => {
                    &&& final(self).consumed() == old(self).consumed() + buf@
                    &&& final(self).captured() == Self::recorded(old(self).captured(), buf@)
                },
                Err(_) => final(self).consumed() == old(self).consumed() && final(self).captured()
                    == old(self).captured(),
            },
    {
        self.asked = Ghost((self.asked@ + buf@.len()) as nat);
        match outcome {
            Ok(done) => {
                self.record(buf);
                Ok(done)
            },
            Err(failure) => Err(failure),
        }
    }

    /// Asks the source to put some bytes at the start of `buf`, says how many
    /// came, and records them where recording goes on.
    pub fn read(&mut self, buf: &mut [u8]) -> (r: Result<usize, std::io::Error>)
        ensures
            final(buf)@.len() == old(buf)@.len(),
            final(self).asked() == old(self).asked() + old(buf)@.len(),
            match r {
                Ok(n) => {
                    &&& n <= final(buf)@.len()
                    &&& final(self).consumed() == old(self).consumed() + final(buf)@.take(n as int)
                    &&& final(self).captured() == Self::recorded(
                        old(self).captured(),
                        final(buf)@.take(n as int),
                    )
                },
                Err(_) => final(self).consumed() == old(self).consumed() && final(self).captured()
                    == old(self).captured(),
            },
    {
        let outcome = read_from(self.reader, buf);
        self.record_read(outcome, buf)
    }

    /// Asks the source to fill `buf`, and records the bytes of `buf` where it
    /// did and recording goes on.
    pub fn read_exact(&mut self, buf: &mut [u8]) -> (r: Result<(), std::io::Error>)
        ensures
            final(buf)@.len() == old(buf)@.len(),
            final(self).asked() == old(self).asked() + old(buf)@.len(),
            match r {
                Ok(_) => {
                    &&& final(self).consumed() == old(self).consumed() + final(buf)@
                    &&& final(self).captured() == Self::recorded(old(self).captured(), final(buf)@)
                },
                Err(_) => final(self).consumed() == old(self).consumed() && final(self).captured()
                    == old(self).captured(),
            },
    {
        let outcome = read_exact_from(self.reader, buf);
        self.record_filled(outcome, buf)
    }
}

/// A byte source, with the nesting budget that is left.
pub struct DeserializeReader<'de, R> {
    reader: TeeReader<'de, R>,
    max_remaining_depth: usize,
}

impl<'de, R: Read> DeserializeReader<'de, R> {
    /// All bytes that were read so far.
    pub closed spec fn consumed(&self) -> Seq<u8> {
        self.reader.consumed()
    }

    /// How many bytes the source was asked for in all, whether it gave them
    /// or not.
    pub closed spec fn asked(&self) -> nat {
        self.reader.asked()
    }

    /// The bytes that were read since recording began, while it goes on.
    pub closed spec fn captured(&self) -> Option<Seq<u8>> {
        self.reader.captured()
    }

    /// How many more named containers may be entered.
    pub closed spec fn depth(&self) -> nat {
        self.max_remaining_depth as nat
    }

    /// The bytes that were read between `before` and `after`.
    pub open spec fn read_since(before: Self, after: Self) -> Seq<u8> {
        after.consumed().skip(before.consumed().len() as int)
    }

    /// Whether `after` is `before` with `bytes` more read, and recorded where
    /// recording goes on, and with the same nesting budget.
    pub open spec fn advanced(before: Self, after: Self, bytes: Seq<u8>) -> bool {
        &&& after.depth() == before.depth()
        &&& after.consumed() == before.consumed() + bytes
        &&& after.captured() == TeeReader::<R>::recorded(before.captured(), bytes)
        &&& after.asked() == before.asked() + bytes.len()
    }

    /// Whether `after` differs from `before` in nothing that a decoder
    /// observes.
    pub open spec fn unchanged(before: Self, after: Self) -> bool {
        &&& after.depth() == before.depth()
        &&& after.consumed() == before.consumed()
        &&& after.captured() == before.captured()
        &&& after.asked() == before.asked()
    }

    /// Whether `after` is `before` but for bytes that the source was asked
    /// for and did not give.
    pub open spec fn refused(before: Self, after: Self) -> bool {
        &&& after.depth() == before.depth()
        &&& after.consumed() == before.consumed()
        &&& after.captured() == before.captured()
        &&& after.asked() > before.asked()
    }

    /// Whether `failure` is what the step from `before` to `after` reports
    /// where the bytes that were read in between mean `outcome`, which is a
    /// failure. Where these bytes only end too early, the source was asked
    /// for more and did not give it, and `failure` is the end of the input or
    /// the source's own failure. Otherwise `failure` is what the bytes mean,
    /// and the source was asked for no byte that it did not give. A key that
    /// was refused for its order has taken its recording with it.
    pub open spec fn failed<T>(
        before: Self,
        after: Self,
        failure: Failure,
        outcome: Result<T, Failure>,
    ) -> bool {
        &&& failure.shows(outcome)
        &&& if outcome->Err_0 == Failure::Eof {
            after.asked() > before.asked() + Self::read_since(before, after).len()
        } else {
            after.asked() == before.asked() + Self::read_since(before, after).len()
        }
        &&& failure == Failure::NonCanonicalMap ==> after.captured() is None
    }

    /// Whether all that was read between `before` and `after` was recorded
    /// where recording went on, and nothing else.
    pub open spec fn kept(before: Self, after: Self) -> bool {
        after.captured() == TeeReader::<R>::recorded(
            before.captured(),
            Self::read_since(before, after),
        )
    }

    /// Whether `after` holds the recording that the step from `before` leaves
    /// behind when it fails with `failure`, inside the key that begins at
    /// `key` among the bytes read in between, or inside no key. A failure
    /// inside a key leaves what was read of that key. A failure elsewhere
    /// leaves all that was read, recorded where recording went on. Of a key
    /// that was refused for its order this says nothing.
    pub open spec fn left(before: Self, after: Self, failure: Failure, key: Option<nat>) -> bool {
        failure != Failure::NonCanonicalMap ==> match key {
            None => after.captured() == TeeReader::<R>::recorded(
                before.captured(),
                Self::read_since(before, after),
            ),
            Some(k) => k <= Self::read_since(before, after).len() && after.captured() == Some(
                Self::read_since(before, after).skip(k as int),
            ),
        }
    }

    /// Whether `after` has read all that `before` had read and perhaps more,
    /// with the same nesting budget.
    pub open spec fn extended(before: Self, after: Self) -> bool {
        &&& after.depth() == before.depth()
        &&& after.consumed() == before.consumed() + Self::read_since(before, after)
        &&& after.asked() >= before.asked() + Self::read_since(before, after).len()
    }

    /// Where `after` is `before` with `bytes` more read, `bytes` are what was
    /// read between them.
    pub proof fn lemma_read_since(before: Self, after: Self, bytes: Seq<u8>)
        requires
            Self::advanced(before, after, bytes),
        ensures
            Self::read_since(before, after) == bytes,
            Self::extended(before, after),
    {
        assert((before.consumed() + bytes).skip(before.consumed().len() as int) =~= bytes);
    }

    /// Where nothing changed, nothing was read.
    pub proof fn lemma_advanced_nothing(before: Self, after: Self)
        requires
            Self::unchanged(before, after),
        ensures
            Self::advanced(before, after, Seq::<u8>::empty()),
            Self::read_since(before, after) == Seq::<u8>::empty(),
            Self::extended(before, after),
    {
        assert(before.consumed() + Seq::<u8>::empty() =~= before.consumed());
        if before.captured() is Some {
            let earlier = before.captured()->Some_0;
            assert(earlier + Seq::<u8>::empty() =~= earlier);
        }
        assert(Self::read_since(before, after) =~= Seq::<u8>::empty());
    }

    /// Where the source gave nothing of what it was asked for, nothing was
    /// read.
    pub proof fn lemma_refused(before: Self, after: Self)
        requires
            Self::refused(before, after),
        ensures
            Self::read_since(before, after) == Seq::<u8>::empty(),
            Self::extended(before, after),
    {
        assert(before.consumed() + Seq::<u8>::empty() =~= before.consumed());
        assert(Self::read_since(before, after) =~= Seq::<u8>::empty());
    }

    /// Reading `first` and then `second` is reading `first + second`.
    pub proof fn lemma_advanced_twice(
        before: Self,
        between: Self,
        after: Self,
        first: Seq<u8>,
        second: Seq<u8>,
    )
        requires
            Self::advanced(before, between, first),
            Self::advanced(between, after, second),
        ensures
            Self::advanced(before, after, first + second),
    {
        assert(before.consumed() + first + second =~= before.consumed() + (first + second));
        if before.captured() is Some {
            let earlier = before.captured()->Some_0;
            assert(earlier + first + second =~= earlier + (first + second));
        }
    }

    /// What a failure leaves behind after bytes that were read and recorded
    /// before it is what it leaves behind by itself, with its key moved behind
    /// these bytes.
    pub proof fn lemma_left_later(
        before: Self,
        between: Self,
        after: Self,
        bytes: Seq<u8>,
        failure: Failure,
        key: Option<nat>,
    )
        requires
            Self::advanced(before, between, bytes),
            Self::extended(between, after),
            Self::left(between, after, failure, key),
        ensures
            Self::left(before, after, failure, shifted(key, bytes.len())),
    {
        let chunk = Self::read_since(between, after);
        assert(before.consumed() + bytes + chunk =~= before.consumed() + (bytes + chunk));
        assert((before.consumed() + (bytes + chunk)).skip(before.consumed().len() as int)
            =~= bytes + chunk);
        assert(Self::read_since(before, after) == bytes + chunk);
        if failure != Failure::NonCanonicalMap {
            match key {
                None => {
                    if before.captured() is Some {
                        assert(before.captured()->Some_0 + bytes + chunk
                            =~= before.captured()->Some_0 + (bytes + chunk));
                    }
                },
                Some(k) => {
                    assert(chunk.skip(k as int) =~= (bytes + chunk).skip((k + bytes.len()) as int));
                },
            }
        }
    }

    /// What was read in two steps is what was read in the first and then what
    /// was read in the second.
    pub proof fn lemma_extended_twice(before: Self, between: Self, after: Self)
        requires
            Self::extended(before, between),
            Self::extended(between, after),
        ensures
            Self::extended(before, after),
            Self::read_since(before, after) == Self::read_since(before, between)
                + Self::read_since(between, after),
    {
        let first = Self::read_since(before, between);
        let second = Self::read_since(between, after);
        assert(before.consumed() + first + second =~= before.consumed() + (first + second));
        assert((before.consumed() + (first + second)).skip(before.consumed().len() as int)
            =~= first + second);
    }

    /// A decoder on `reader` that may enter `max_remaining_depth` named
    /// containers inside one another.
    pub fn new(reader: &'de mut R, max_remaining_depth: usize) -> (de: Self)
        ensures
            de.consumed() == Seq::<u8>::empty(),
            de.captured() is None,
            de.asked() == 0,
            de.depth() == max_remaining_depth,
    {
        DeserializeReader { reader: TeeReader::new(reader), max_remaining_depth }
    }

    /// Fills `slice` with the next bytes of the source. Nothing is asked of
    /// the source where `slice` is empty.
    pub fn fill_slice(&mut self, slice: &mut [u8]) -> (r: Result<(), Error>)
        ensures
            final(slice)@.len() == old(slice)@.len(),
            old(slice)@.len() == 0 ==> r is Ok,
            r is Ok ==> Self::advanced(*old(self), *final(self), final(slice)@),
            r is Err ==> r->Err_0@.from_source() && Self::refused(*old(self), *final(self)),
    {
        if slice.len() == 0 {
            proof {
                Self::lemma_advanced_nothing(*old(self), *self);
                assert(slice@ =~= Seq::<u8>::empty());
            }
            return Ok(());
        }
        match self.reader.read_exact(slice) {
            Ok(_) => Ok(()),
            Err(failure) => Err(error_from_io(failure)),
        }
    }

    /// Reads the next byte.
    pub fn next(&mut self) -> (r: Result<u8, Error>)
        ensures
            r is Ok ==> Self::advanced(*old(self), *final(self), seq![r->Ok_0]),
            r is Err ==> r->Err_0@.from_source() && Self::refused(*old(self), *final(self)),
    {
        let mut byte = [0u8;1];
        self.fill_slice(&mut byte)?;
        proof {
            assert(byte@ =~= seq![byte@[0]]);
        }
        Ok(byte[0])
    }

    /// How many more named containers may be entered.
    pub fn max_remaining_depth(&mut self) -> (depth: usize)
        ensures
            Self::unchanged(*old(self), *final(self)),
            depth == old(self).depth(),
    {
        self.max_remaining_depth
    }

    /// Begins to record the bytes that are read. A recording that goes on is
    /// cut short and handed out, so that it can be resumed.
    pub fn start_capture(&mut self) -> (suspended: Option<Vec<u8>>)
        ensures
            final(self).depth() == old(self).depth(),
            final(self).consumed() == old(self).consumed(),
            final(self).asked() == old(self).asked(),
            final(self).captured() == Some(Seq::<u8>::empty()),
            bytes_of(suspended) == old(self).captured(),
    {
        self.reader.start_capture()
    }

    /// Whether the bytes that are read are recorded.
    pub fn is_capturing(&self) -> (capturing: bool)
        ensures
            capturing == (self.captured() is Some),
    {
        self.reader.is_capturing()
    }

    /// Ends the recording and hands out the bytes that were read since it
    /// began.
    pub fn take_capture(&mut self) -> (taken: Option<Vec<u8>>)
        ensures
            final(self).depth() == old(self).depth(),
            final(self).consumed() == old(self).consumed(),
            final(self).asked() == old(self).asked(),
            final(self).captured() is None,
            bytes_of(taken) == old(self).captured(),
    {
        self.reader.take_capture()
    }

    /// Resumes the recording `suspended`, where there is one, with `bytes`
    /// added to it.
    pub fn resume_capture(&mut self, suspended: Option<Vec<u8>>, bytes: &[u8])
        ensures
            final(self).depth() == old(self).depth(),
            final(self).consumed() == old(self).consumed(),
            final(self).asked() == old(self).asked(),
            final(self).captured() == TeeReader::<R>::recorded(bytes_of(suspended), bytes@),
    {
        self.reader.resume_capture(suspended, bytes);
    }

    /// Takes one unit of the nesting budget for the container `name`, or fails
    /// where none is left.
    pub fn enter_named_container(&mut self, name: &'static str) -> (r: Result<(), Error>)
        ensures
            final(self).consumed() == old(self).consumed(),
            final(self).captured() == old(self).captured(),
            final(self).asked() == old(self).asked(),
            old(self).depth() > 0 ==> r is Ok && final(self).depth() == old(self).depth() - 1,
            old(self).depth() == 0 ==> r is Err && r->Err_0@
                == Failure::ExceededContainerDepthLimit(name@) && final(self).depth() == 0,
    {
        if self.max_remaining_depth == 0 {
            return Err(Error::ExceededContainerDepthLimit(name));
        }
        self.max_remaining_depth = self.max_remaining_depth - 1;
        Ok(())
    }

    /// Gives back the unit of budget that entering a container took.
    pub fn leave_named_container(&mut self)
        requires
            old(self).depth() < usize::MAX,
        ensures
            final(self).consumed() == old(self).consumed(),
            final(self).captured() == old(self).captured(),
            final(self).asked() == old(self).asked(),
            final(self).depth() == old(self).depth() + 1,
    {
        self.max_remaining_depth = self.max_remaining_depth + 1;
    }

    /// Decodes a truth value.
    pub fn parse_bool(&mut self) -> (r: Result<bool, Error>)
        ensures
            Self::extended(*old(self), *final(self)),
            Self::kept(*old(self), *final(self)),
            r is Ok ==> Self::advanced(
                *old(self),
                *final(self),
                Self::read_since(*old(self), *final(self)),
            ) && bool_decode(Self::read_since(*old(self), *final(self))) == Ok::<_, Failure>(
                (r->Ok_0, Self::read_since(*old(self), *final(self)).len()),
            ),
            r is Err ==> Self::failed(
                *old(self),
                *final(self),
                r->Err_0@,
                bool_decode(Self::read_since(*old(self), *final(self))),
            ),
    {
        match self.next() {
            Err(failure) => {
                proof {
                    Self::lemma_refused(*old(self), *self);
                }
                Err(failure)
            },
            Ok(byte) => {
                proof {
                    Self::lemma_read_since(*old(self), *self, seq![byte]);
                }
                bool_from_byte(byte)
            },
        }
    }

    /// Decodes an unsigned integer of one byte.
    pub fn parse_u8(&mut self) -> (r: Result<u8, Error>)
        ensures
            Self::extended(*old(self), *final(self)),
            Self::kept(*old(self), *final(self)),
            r is Ok ==> Self::advanced(
                *old(self),
                *final(self),
                Self::read_since(*old(self), *final(self)),
            ) && uint_decode(Self::read_since(*old(self), *final(self)), 1) == Ok::<_, Failure>(
                (r->Ok_0 as nat, Self::read_since(*old(self), *final(self)).len()),
            ),
            r is Err ==> Self::failed(
                *old(self),
                *final(self),
                r->Err_0@,
                uint_decode(Self::read_since(*old(self), *final(self)), 1),
            ),
    {
        match self.next() {
            Err(failure) => {
                proof {
                    Self::lemma_refused(*old(self), *self);
                }
                Err(failure)
            },
            Ok(byte) => {
                proof {
                    Self::lemma_read_since(*old(self), *self, seq![byte]);
                    let bytes = seq![byte];
                    assert(bytes.take(1) =~= bytes);
                    assert(bytes.drop_first() =~= Seq::<u8>::empty());
                    assert(le_value(bytes.drop_first()) == 0);
                }
                Ok(byte)
            },
        }
    }

    /// Decodes an unsigned integer of two bytes.
    pub fn parse_u16(&mut self) -> (r: Result<u16, Error>)
        ensures
            Self::extended(*old(self), *final(self)),
            Self::kept(*old(self), *final(self)),
            r is Ok ==> Self::advanced(
                *old(self),
                *final(self),
                Self::read_since(*old(self), *final(self)),
            ) && uint_decode(Self::read_since(*old(self), *final(self)), 2) == Ok::<_, Failure>(
                (r->Ok_0 as nat, Self::read_since(*old(self), *final(self)).len()),
            ),
            r is Err ==> Self::failed(
                *old(self),
                *final(self),
                r->Err_0@,
                uint_decode(Self::read_since(*old(self), *final(self)), 2),
            ),
    {
        let mut le_bytes = [0u8;2];
        match self.fill_slice(&mut le_bytes) {
            Err(failure) => {
                proof {
                    Self::lemma_refused(*old(self), *self);
                }
                Err(failure)
            },
            Ok(_) => {
                proof {
                    Self::lemma_read_since(*old(self), *self, le_bytes@);
                    assert(le_bytes@.take(2) =~= le_bytes@);
                }
                Ok(u16_from_le_bytes(&le_bytes))
            },
        }
    }

    /// Decodes an unsigned integer of four bytes.
    pub fn parse_u32(&mut self) -> (r: Result<u32, Error>)
        ensures
            Self::extended(*old(self), *final(self)),
            Self::kept(*old(self), *final(self)),
            r is Ok ==> Self::advanced(
                *old(self),
                *final(self),
                Self::read_since(*old(self), *final(self)),
            ) && uint_decode(Self::read_since(*old(self), *final(self)), 4) == Ok::<_, Failure>(
                (r->Ok_0 as nat, Self::read_since(*old(self), *final(self)).len()),
            ),
            r is Err ==> Self::failed(
                *old(self),
                *final(self),
                r->Err_0@,
                uint_decode(Self::read_since(*old(self), *final(self)), 4),
            ),
    {
        let mut le_bytes = [0u8;4];
        match self.fill_slice(&mut le_bytes) {
            Err(failure) => {
                proof {
                    Self::lemma_refused(*old(self), *self);
                }
                Err(failure)
            },
            Ok(_) => {
                proof {
                    Self::lemma_read_since(*old(self), *self, le_bytes@);
                    assert(le_bytes@.take(4) =~= le_bytes@);
                }
                Ok(u32_from_le_bytes(&le_bytes))
            },
        }
    }

    /// Decodes an unsigned integer of eight bytes.
    pub fn parse_u64(&mut self) -> (r: Result<u64, Error>)
        ensures
            Self::extended(*old(self), *final(self)),
            Self::kept(*old(self), *final(self)),
            r is Ok ==> Self::advanced(
                *old(self),
                *final(self),
                Self::read_since(*old(self), *final(self)),
            ) && uint_decode(Self::read_since(*old(self), *final(self)), 8) == Ok::<_, Failure>(
                (r->Ok_0 as nat, Self::read_since(*old(self), *final(self)).len()),
            ),
            r is Err ==> Self::failed(
                *old(self),
                *final(self),
                r->Err_0@,
                uint_decode(Self::read_since(*old(self), *final(self)), 8),
            ),
    {
        let mut le_bytes = [0u8;8];
        match self.fill_slice(&mut le_bytes) {
            Err(failure) => {
                proof {
                    Self::lemma_refused(*old(self), *self);
                }
                Err(failure)
            },
            Ok(_) => {
                proof {
                    Self::lemma_read_since(*old(self), *self, le_bytes@);
                    assert(le_bytes@.take(8) =~= le_bytes@);
                }
                Ok(u64_from_le_bytes(&le_bytes))
            },
        }
    }

    /// Decodes an unsigned integer of sixteen bytes.
    pub fn parse_u128(&mut self) -> (r: Result<u128, Error>)
        ensures
            Self::extended(*old(self), *final(self)),
            Self::kept(*old(self), *final(self)),
            r is Ok ==> Self::advanced(
                *old(self),
                *final(self),
                Self::read_since(*old(self), *final(self)),
            ) && uint_decode(Self::read_since(*old(self), *final(self)), 16) == Ok::<_, Failure>(
                (r->Ok_0 as nat, Self::read_since(*old(self), *final(self)).len()),
            ),
            r is Err ==> Self::failed(
                *old(self),
                *final(self),
                r->Err_0@,
                uint_decode(Self::read_since(*old(self), *final(self)), 16),
            ),
    {
        let mut le_bytes = [0u8;16];
        match self.fill_slice(&mut le_bytes) {
            Err(failure) => {
                proof {
                    Self::lemma_refused(*old(self), *self);
                }
                Err(failure)
            },
            Ok(_) => {
                proof {
                    Self::lemma_read_since(*old(self), *self, le_bytes@);
                    assert(le_bytes@.take(16) =~= le_bytes@);
                }
                Ok(u128_from_le_bytes(&le_bytes))
            },
        }
    }

    /// Decodes a variable-length integer of at most 32 bits. It reads up to
    /// the first byte without a top bit, and no more than five bytes.
    pub fn parse_u32_from_uleb128(&mut self) -> (r: Result<u32, Error>)
        ensures
            Self::extended(*old(self), *final(self)),
            Self::kept(*old(self), *final(self)),
            r is Ok ==> Self::advanced(
                *old(self),
                *final(self),
                Self::read_since(*old(self), *final(self)),
            ) && uleb128_decode(Self::read_since(*old(self), *final(self))) == Ok::<_, Failure>(
                (r->Ok_0, Self::read_since(*old(self), *final(self)).len()),
            ),
            r is Err ==> Self::failed(*old(self), *final(self), r->Err_0@, 
                uleb128_decode(Self::read_since(*old(self), *final(self))),
            ),
    {
        let mut digits = [0u8;5];
        let mut n: usize = 0;
        let mut ended = false;
        proof {
            assert(digits@.take(0) =~= Seq::<u8>::empty());
            Self::lemma_advanced_nothing(*old(self), *self);
        }
        while n < 5 && !ended
            invariant
                n <= 5,
                digits@.len() == 5,
                forall|j: int| 0 <= j < n - 1 ==> digits@[j] >= 128,
                n > 0 ==> (ended <==> digits@[n - 1] < 128),
                n == 0 ==> !ended,
                Self::advanced(*old(self), *self, digits@.take(n as int)),
            decreases 5 - n + (if ended { 0int } else { 1int }),
        {
            let ghost taken = digits@.take(n as int);
            let ghost here = *self;
            let byte = match self.next() {
                Ok(byte) => byte,
                Err(failure) => {
                    proof {
                        Self::lemma_read_since(*old(self), here, taken);
                        assert(Self::read_since(*old(self), *self) == taken);
                        lemma_continuation_run_split(taken, n as nat);
                        assert(taken.skip(n as int).len() == 0);
                    }
                    return Err(failure);
                },
            };
            digits[n] = byte;
            n = n + 1;
            ended = byte < 128;
            proof {
                assert(digits@.take(n as int) =~= taken + seq![byte]);
                Self::lemma_advanced_twice(*old(self), here, *self, taken, seq![byte]);
            }
        }
        let ghost read = digits@.take(n as int);
        proof {
            Self::lemma_read_since(*old(self), *self, read);
            assert(digits@.subrange(0, n as int) =~= read);
            if ended {
                lemma_continuation_run_split(read, (n - 1) as nat);
                assert(read.skip(n - 1)[0] == digits@[n - 1]);
                assert(continuation_run(read) == n - 1);
            } else {
                lemma_continuation_run_split(read, 5);
            }
        }
        let (value, used) = decode_uleb128(&digits[0..n])?;
        Ok(value)
    }

    /// Decodes a length prefix.
    pub fn parse_length(&mut self) -> (r: Result<usize, Error>)
        ensures
            Self::extended(*old(self), *final(self)),
            Self::kept(*old(self), *final(self)),
            r is Ok ==> Self::advanced(
                *old(self),
                *final(self),
                Self::read_since(*old(self), *final(self)),
            ) && length_decode(Self::read_since(*old(self), *final(self))) == Ok::<_, Failure>(
                (r->Ok_0 as nat, Self::read_since(*old(self), *final(self)).len()),
            ),
            r is Err ==> Self::failed(
                *old(self),
                *final(self),
                r->Err_0@,
                length_decode(Self::read_since(*old(self), *final(self))),
            ),
    {
        let n = self.parse_u32_from_uleb128()?;
        check_length(n)
    }

    /// Decodes a length-prefixed byte string into a buffer of its own.
    pub fn parse_vec(&mut self) -> (r: Result<Vec<u8>, Error>)
        ensures
            Self::extended(*old(self), *final(self)),
            Self::kept(*old(self), *final(self)),
            r is Ok ==> Self::advanced(
                *old(self),
                *final(self),
                Self::read_since(*old(self), *final(self)),
            ) && byte_string_decode(Self::read_since(*old(self), *final(self))) == Ok::<_, Failure>(
                (r->Ok_0@, Self::read_since(*old(self), *final(self)).len()),
            ),
            r is Err ==> Self::failed(
                *old(self),
                *final(self),
                r->Err_0@,
                byte_string_decode(Self::read_since(*old(self), *final(self))),
            ),
    {
        let len = self.parse_length()?;
        let ghost middle = *self;
        let ghost prefix = Self::read_since(*old(self), middle);
        let mut output = vec![0u8; len];
        match self.fill_slice(output.as_mut_slice()) {
            Err(failure) => {
                proof {
                    assert(Self::read_since(*old(self), *self) == prefix);
                }
                Err(failure)
            },
            Ok(_) => {
                proof {
                    let content = output@;
                    let all = prefix + content;
                    Self::lemma_advanced_twice(*old(self), middle, *self, prefix, content);
                    Self::lemma_read_since(*old(self), *self, all);
                    lemma_uleb128_decode_extends(prefix, content);
                    assert(all.subrange(prefix.len() as int, (prefix.len() + len) as int)
                        =~= content);
                }
                Ok(output)
            },
        }
    }

    /// Decodes a length-prefixed text into a string of its own.
    pub fn parse_string(&mut self) -> (r: Result<String, Error>)
        ensures
            Self::extended(*old(self), *final(self)),
            Self::kept(*old(self), *final(self)),
            r is Ok ==> Self::advanced(
                *old(self),
                *final(self),
                Self::read_since(*old(self), *final(self)),
            ) && string_decode(Self::read_since(*old(self), *final(self))) == Ok::<_, Failure>(
                (r->Ok_0@, Self::read_since(*old(self), *final(self)).len()),
            ),
            r is Err ==> Self::failed(
                *old(self),
                *final(self),
                r->Err_0@,
                string_decode(Self::read_since(*old(self), *final(self))),
            ),
    {
        let bytes = self.parse_vec()?;
        let text = text_from_bytes(bytes.as_slice())?;
        Ok(text.to_owned())
    }
}

impl<'de, R: Read> DeserializeReader<'de, R> {
    /// Whether the step from `before` to `after` with the result `r` is a
    /// decode from the bytes that were read in between, which mean `outcome`.
    /// Nothing that was read before is lost, and the nesting budget is as it
    /// was. On success `outcome` is the value of `r`, all these bytes belong to
    /// it, and they were recorded where recording goes on. On failure `r`
    /// shows the failure that `outcome` is, and the recording is what a
    /// failure inside the key at `key`, or inside no key, leaves behind.
    pub open spec fn reads(
        before: Self,
        after: Self,
        r: Result<Value, Error>,
        outcome: Decoded<SpecValue>,
        key: Option<nat>,
    ) -> bool {
        &&& Self::extended(before, after)
        &&& match r {
            Ok(value) => {
                &&& Self::advanced(before, after, Self::read_since(before, after))
                &&& outcome == Ok::<(SpecValue, nat), Failure>(
                    (value@, Self::read_since(before, after).len()),
                )
            },
            Err(failure) => {
                &&& Self::failed(before, after, failure@, outcome)
                &&& Self::left(before, after, failure@, key)
            },
        }
    }

    /// Decodes one value of the given shape.
    pub fn deserialize(&mut self, shape: &Shape) -> (r: Result<Value, Error>)
        ensures
            Self::reads(
                *old(self),
                *final(self),
                r,
                decode(*shape, Self::read_since(*old(self), *final(self)), old(self).depth()),
                failing_key(*shape, Self::read_since(*old(self), *final(self)), old(self).depth()),
            ),
        decreases shape, 0nat, 0nat,
    {
        match shape {
            Shape::Bool => {
                let value = self.parse_bool()?;
                Ok(Value::Bool(value))
            },
            Shape::U8 => {
                let value = self.parse_u8()?;
                Ok(Value::U8(value))
            },
            Shape::U16 => {
                let value = self.parse_u16()?;
                Ok(Value::U16(value))
            },
            Shape::U32 => {
                let value = self.parse_u32()?;
                Ok(Value::U32(value))
            },
            Shape::U64 => {
                let value = self.parse_u64()?;
                Ok(Value::U64(value))
            },
            Shape::U128 => {
                let value = self.parse_u128()?;
                Ok(Value::U128(value))
            },
            Shape::I8 => {
                let value = self.parse_u8()?;
                Ok(Value::I8(i8_from_u8(value)))
            },
            Shape::I16 => {
                let value = self.parse_u16()?;
                Ok(Value::I16(i16_from_u16(value)))
            },
            Shape::I32 => {
                let value = self.parse_u32()?;
                Ok(Value::I32(i32_from_u32(value)))
            },
            Shape::I64 => {
                let value = self.parse_u64()?;
                Ok(Value::I64(i64_from_u64(value)))
            },
            Shape::I128 => {
                let value = self.parse_u128()?;
                Ok(Value::I128(i128_from_u128(value)))
            },
            Shape::F32 => {
                proof {
                    Self::lemma_advanced_nothing(*old(self), *self);
                }
                Err(Error::NotSupported("deserialize_f32"))
            },
            Shape::F64 => {
                proof {
                    Self::lemma_advanced_nothing(*old(self), *self);
                }
                Err(Error::NotSupported("deserialize_f64"))
            },
            Shape::Char => {
                proof {
                    Self::lemma_advanced_nothing(*old(self), *self);
                }
                Err(Error::NotSupported("deserialize_char"))
            },
            Shape::Str => {
                let text = self.parse_string()?;
                Ok(Value::Str(text))
            },
            Shape::Bytes => {
                let bytes = self.parse_vec()?;
                Ok(Value::Bytes(bytes))
            },
            Shape::Optional(inner) => self.deserialize_option(inner),
            Shape::Unit => self.deserialize_unit(),
            Shape::UnitStruct(name) => self.deserialize_unit_struct(name),
            Shape::NewtypeStruct(name, inner) => self.deserialize_newtype_struct(name, inner),
            Shape::Sequence(element) => self.deserialize_seq(element),
            Shape::Tuple(fields) => self.deserialize_tuple(fields),
            Shape::TupleStruct(name, fields) => self.deserialize_tuple_struct(name, fields),
            Shape::Mapping(entry) => self.deserialize_map(entry),
            Shape::Struct(name, fields) => self.deserialize_struct(name, fields),
            Shape::Enum(name, variants) => self.deserialize_enum(name, variants),
            Shape::Identifier => {
                let bytes = self.parse_vec()?;
                Ok(Value::Bytes(bytes))
            },
            Shape::Any => {
                proof {
                    Self::lemma_advanced_nothing(*old(self), *self);
                }
                Err(Error::NotSupported("deserialize_any"))
            },
            Shape::IgnoredAny => {
                proof {
                    Self::lemma_advanced_nothing(*old(self), *self);
                }
                Err(Error::NotSupported("deserialize_ignored_any"))
            },
        }
    }

    /// Decodes an optional value: a tag byte, then the value where the tag
    /// says that one follows.
    pub fn deserialize_option(&mut self, inner: &Shape) -> (r: Result<Value, Error>)
        ensures
            Self::reads(
                *old(self),
                *final(self),
                r,
                decode_option(
                    *inner,
                    Self::read_since(*old(self), *final(self)),
                    old(self).depth(),
                ),
                failing_key_option(
                    *inner,
                    Self::read_since(*old(self), *final(self)),
                    old(self).depth(),
                ),
            ),
        decreases inner, 1nat, 0nat,
    {
        let byte = match self.next() {
            Ok(byte) => byte,
            Err(failure) => {
                proof {
                    Self::lemma_refused(*old(self), *self);
                }
                return Err(failure);
            },
        };
        let ghost between = *self;
        let ghost tag = seq![byte];
        proof {
            Self::lemma_read_since(*old(self), between, tag);
        }
        let present = option_tag_from_byte(byte)?;
        if present {
            let r = self.deserialize(inner);
            proof {
                let rest = Self::read_since(between, *self);
                Self::lemma_extended_twice(*old(self), between, *self);
                assert((tag + rest).skip(1) =~= rest);
                if r is Ok {
                    Self::lemma_advanced_twice(*old(self), between, *self, tag, rest);
                } else {
                    Self::lemma_left_later(
                        *old(self),
                        between,
                        *self,
                        tag,
                        r->Err_0@,
                        failing_key(*inner, rest, self.depth()),
                    );
                }
            }
            match r {
                Ok(value) => Ok(Value::Optional(Some(Box::new(value)))),
                Err(failure) => Err(failure),
            }
        } else {
            Ok(Value::Optional(None))
        }
    }

    /// Decodes the value without content, for which nothing is read. It
    /// always succeeds.
    pub fn deserialize_unit(&mut self) -> (r: Result<Value, Error>)
        ensures
            r is Ok,
            r->Ok_0@ == SpecValue::Unit,
            Self::unchanged(*old(self), *final(self)),
            Self::reads(
                *old(self),
                *final(self),
                r,
                Ok((SpecValue::Unit, 0nat)),
                None,
            ),
    {
        proof {
            Self::lemma_advanced_nothing(*old(self), *self);
        }
        Ok(Value::Unit)
    }

    /// Decodes a named type without content. It reads nothing, and succeeds
    /// where the nesting budget is not used up.
    pub fn deserialize_unit_struct(&mut self, name: &'static str) -> (r: Result<Value, Error>)
        ensures
            r is Ok <==> old(self).depth() > 0,
            Self::unchanged(*old(self), *final(self)),
            Self::reads(
                *old(self),
                *final(self),
                r,
                decode_unit_struct(name, old(self).depth()),
                None,
            ),
    {
        match self.enter_named_container(name) {
            Ok(_) => {},
            Err(failure) => {
                proof {
                    Self::lemma_advanced_nothing(*old(self), *self);
                }
                return Err(failure);
            },
        }
        let r = self.deserialize_unit();
        self.leave_named_container();
        proof {
            Self::lemma_advanced_nothing(*old(self), *self);
        }
        r
    }

    /// Decodes a named wrapper around one value.
    pub fn deserialize_newtype_struct(&mut self, name: &'static str, inner: &Shape) -> (r: Result<Value, Error>)
        ensures
            old(self).depth() == 0 ==> r is Err && Self::unchanged(*old(self), *final(self)),
            Self::reads(
                *old(self),
                *final(self),
                r,
                decode_newtype_struct(
                    name,
                    *inner,
                    Self::read_since(*old(self), *final(self)),
                    old(self).depth(),
                ),
                failing_key_newtype_struct(
                    *inner,
                    Self::read_since(*old(self), *final(self)),
                    old(self).depth(),
                ),
            ),
        decreases inner, 1nat, 0nat,
    {
        match self.enter_named_container(name) {
            Ok(_) => {},
            Err(failure) => {
                proof {
                    Self::lemma_advanced_nothing(*old(self), *self);
                }
                return Err(failure);
            },
        }
        let ghost entered = *self;
        let r = self.deserialize(inner);
        let ghost done = *self;
        self.leave_named_container();
        proof {
            assert(Self::read_since(*old(self), *self) == Self::read_since(entered, done));
        }
        r
    }

    /// Decodes a sequence: a length prefix, then that many elements.
    pub fn deserialize_seq(&mut self, element: &Shape) -> (r: Result<Value, Error>)
        ensures
            Self::reads(
                *old(self),
                *final(self),
                r,
                decode_seq(
                    *element,
                    Self::read_since(*old(self), *final(self)),
                    old(self).depth(),
                ),
                failing_key_seq(
                    *element,
                    Self::read_since(*old(self), *final(self)),
                    old(self).depth(),
                ),
            ),
        decreases element, 2nat, 0nat,
    {
        let len = self.parse_length()?;
        let ghost between = *self;
        let ghost prefix = Self::read_since(*old(self), between);
        let ghost depth = self.depth();
        let ghost mut read: Seq<u8> = Seq::empty();
        let mut seq = SeqDeserializer::new(len);
        let mut items: Vec<Value> = Vec::new();
        proof {
            Self::lemma_advanced_nothing(between, *self);
        }
        loop
            invariant
                depth == old(self).depth(),
                Self::advanced(*old(self), between, prefix),
                length_decode(prefix) == Ok::<(nat, nat), Failure>((len as nat, prefix.len())),
                Self::advanced(between, *self, read),
                seq.count() + items@.len() == len,
                decode_repeated(*element, read, depth, items@.len() as nat) == Ok::<
                    (Seq<SpecValue>, nat),
                    Failure,
                >((values_view(items@), read.len())),
            ensures
                seq.count() == 0,
            decreases seq.count(),
        {
            let ghost here = *self;
            match seq.next_element(self, element) {
                Err(failure) => {
                    proof {
                        let chunk = Self::read_since(here, *self);
                        let all = prefix + (read + chunk);
                        Self::lemma_read_since(*old(self), between, prefix);
                        Self::lemma_read_since(between, here, read);
                        Self::lemma_extended_twice(between, here, *self);
                        Self::lemma_extended_twice(*old(self), between, *self);
                        lemma_decode_repeated_fails(
                            *element,
                            read,
                            chunk,
                            depth,
                            items@.len() as nat,
                            len as nat,
                        );
                        lemma_agree_extended(prefix, read + chunk);
                        lemma_length_prefix(prefix, all);
                        assert(all.skip(prefix.len() as int) =~= read + chunk);
                        let key = failing_key(*element, chunk, depth);
                        Self::lemma_left_later(between, here, *self, read, failure@, key);
                        Self::lemma_left_later(
                            *old(self),
                            between,
                            *self,
                            prefix,
                            failure@,
                            shifted(key, read.len()),
                        );
                    }
                    return Err(failure);
                },
                Ok(None) => {
                    break ;
                },
                Ok(Some(value)) => {
                    proof {
                        let chunk = Self::read_since(here, *self);
                        Self::lemma_advanced_twice(between, here, *self, read, chunk);
                        lemma_decode_repeated_append(
                            *element,
                            read,
                            chunk,
                            depth,
                            items@.len() as nat,
                        );
                        lemma_values_view_push(items@, value);
                        read = read + chunk;
                    }
                    items.push(value);
                },
            }
        }
        proof {
            let all = prefix + read;
            Self::lemma_advanced_twice(*old(self), between, *self, prefix, read);
            Self::lemma_read_since(*old(self), *self, all);
            lemma_agree_extended(prefix, read);
            lemma_length_prefix(prefix, all);
            assert(all.skip(prefix.len() as int) =~= read);
        }
        Ok(Value::Sequence(items))
    }

    /// Decodes the fields of a tuple, one after the other.
    pub fn deserialize_tuple(&mut self, fields: &Vec<Shape>) -> (r: Result<Value, Error>)
        ensures
            Self::reads(
                *old(self),
                *final(self),
                r,
                decode_tuple(
                    fields@,
                    Self::read_since(*old(self), *final(self)),
                    old(self).depth(),
                ),
                failing_key_fields(
                    fields@,
                    Self::read_since(*old(self), *final(self)),
                    old(self).depth(),
                ),
            ),
        decreases fields, 2nat, 0nat,
    {
        let ghost depth = self.depth();
        let ghost mut read: Seq<u8> = Seq::empty();
        let mut seq = SeqDeserializer::new(fields.len());
        let mut items: Vec<Value> = Vec::new();
        let mut i: usize = 0;
        proof {
            Self::lemma_advanced_nothing(*old(self), *self);
            assert(fields@.take(0) =~= Seq::<Shape>::empty());
        }
        while i < fields.len()
            invariant
                i <= fields@.len(),
                items@.len() == i,
                seq.count() == fields@.len() - i,
                depth == old(self).depth(),
                Self::advanced(*old(self), *self, read),
                decode_fields(fields@.take(i as int), read, depth) == Ok::<
                    (Seq<SpecValue>, nat),
                    Failure,
                >((values_view(items@), read.len())),
            decreases fields@.len() - i,
        {
            let ghost here = *self;
            match seq.next_element(self, &fields[i]) {
                Err(failure) => {
                    proof {
                        let chunk = Self::read_since(here, *self);
                        Self::lemma_read_since(*old(self), here, read);
                        Self::lemma_extended_twice(*old(self), here, *self);
                        lemma_decode_fields_fails(fields@, read, chunk, depth, i as nat);
                        Self::lemma_left_later(
                            *old(self),
                            here,
                            *self,
                            read,
                            failure@,
                            failing_key(fields@[i as int], chunk, depth),
                        );
                    }
                    return Err(failure);
                },
                Ok(None) => {},
                Ok(Some(value)) => {
                    proof {
                        let chunk = Self::read_since(here, *self);
                        Self::lemma_advanced_twice(*old(self), here, *self, read, chunk);
                        lemma_decode_fields_append(
                            fields@.take(i as int),
                            fields@[i as int],
                            read,
                            chunk,
                            depth,
                        );
                        assert(fields@.take(i as int).push(fields@[i as int]) =~= fields@.take(
                            i as int + 1,
                        ));
                        lemma_values_view_push(items@, value);
                        read = read + chunk;
                    }
                    items.push(value);
                },
            }
            i = i + 1;
        }
        proof {
            assert(fields@.take(fields@.len() as int) =~= fields@);
            Self::lemma_read_since(*old(self), *self, read);
        }
        Ok(Value::Tuple(items))
    }

    /// Decodes a named tuple.
    pub fn deserialize_tuple_struct(&mut self, name: &'static str, fields: &Vec<Shape>) -> (r: Result<Value, Error>)
        ensures
            old(self).depth() == 0 ==> r is Err && Self::unchanged(*old(self), *final(self)),
            Self::reads(
                *old(self),
                *final(self),
                r,
                decode_tuple_struct(
                    name,
                    fields@,
                    Self::read_since(*old(self), *final(self)),
                    old(self).depth(),
                ),
                failing_key_tuple_struct(
                    fields@,
                    Self::read_since(*old(self), *final(self)),
                    old(self).depth(),
                ),
            ),
        decreases fields, 3nat, 0nat,
    {
        match self.enter_named_container(name) {
            Ok(_) => {},
            Err(failure) => {
                proof {
                    Self::lemma_advanced_nothing(*old(self), *self);
                }
                return Err(failure);
            },
        }
        let ghost entered = *self;
        let r = self.deserialize_tuple(fields);
        let ghost done = *self;
        self.leave_named_container();
        proof {
            assert(Self::read_since(*old(self), *self) == Self::read_since(entered, done));
        }
        r
    }

    /// Decodes a named list of fields, in their declared order.
    pub fn deserialize_struct(&mut self, name: &'static str, fields: &Vec<Shape>) -> (r: Result<Value, Error>)
        ensures
            old(self).depth() == 0 ==> r is Err && Self::unchanged(*old(self), *final(self)),
            Self::reads(
                *old(self),
                *final(self),
                r,
                decode_tuple_struct(
                    name,
                    fields@,
                    Self::read_since(*old(self), *final(self)),
                    old(self).depth(),
                ),
                failing_key_tuple_struct(
                    fields@,
                    Self::read_since(*old(self), *final(self)),
                    old(self).depth(),
                ),
            ),
        decreases fields, 3nat, 0nat,
    {
        match self.enter_named_container(name) {
            Ok(_) => {},
            Err(failure) => {
                proof {
                    Self::lemma_advanced_nothing(*old(self), *self);
                }
                return Err(failure);
            },
        }
        let ghost entered = *self;
        let r = self.deserialize_tuple(fields);
        let ghost done = *self;
        self.leave_named_container();
        proof {
            assert(Self::read_since(*old(self), *self) == Self::read_since(entered, done));
        }
        r
    }

    /// Decodes a map: a length prefix, then that many pairs, whose keys must
    /// ascend.
    #[verifier::rlimit(40)]
    pub fn deserialize_map(&mut self, entry: &(Shape, Shape)) -> (r: Result<Value, Error>)
        ensures
            Self::reads(
                *old(self),
                *final(self),
                r,
                decode_map(
                    *entry,
                    Self::read_since(*old(self), *final(self)),
                    old(self).depth(),
                ),
                failing_key_map(
                    *entry,
                    Self::read_since(*old(self), *final(self)),
                    old(self).depth(),
                ),
            ),
        decreases entry, 2nat, 0nat,
    {
        let len = self.parse_length()?;
        let ghost between = *self;
        let ghost prefix = Self::read_since(*old(self), between);
        let ghost depth = self.depth();
        let ghost mut read: Seq<u8> = Seq::empty();
        let mut map = MapDeserializer::new(len);
        let mut pairs: Vec<(Value, Value)> = Vec::new();
        proof {
            Self::lemma_advanced_nothing(between, *self);
        }
        loop
            invariant
                depth == old(self).depth(),
                Self::advanced(*old(self), between, prefix),
                length_decode(prefix) == Ok::<(nat, nat), Failure>((len as nat, prefix.len())),
                Self::advanced(between, *self, read),
                map.count() + pairs@.len() == len,
                decode_entries(*entry, read, depth, pairs@.len() as nat, None) == Ok::<
                    (Seq<(SpecValue, SpecValue)>, nat),
                    Failure,
                >((pairs_view(pairs@), read.len())),
                map.previous() == last_key(*entry, read, depth, pairs@.len() as nat, None),
            ensures
                map.count() == 0,
            decreases map.count(),
        {
            let ghost here = *self;
            let ghost earlier = map.previous();
            let ghost left = map.count();
            match map.next_key(self, &entry.0) {
                Err(failure) => {
                    proof {
                        let chunk = Self::read_since(here, *self);
                        let all = prefix + (read + chunk);
                        Self::lemma_read_since(*old(self), between, prefix);
                        Self::lemma_read_since(between, here, read);
                        Self::lemma_extended_twice(between, here, *self);
                        Self::lemma_extended_twice(*old(self), between, *self);
                        assert(chunk.take(chunk.len() as int) =~= chunk);
                        assert(decode_entries(*entry, chunk, depth, left, earlier) is Err);
                        lemma_decode_entries_fails(
                            *entry,
                            read,
                            chunk,
                            depth,
                            pairs@.len() as nat,
                            left,
                            None,
                        );
                        lemma_agree_extended(prefix, read + chunk);
                        lemma_length_prefix(prefix, all);
                        assert(all.skip(prefix.len() as int) =~= read + chunk);
                        let key = failing_key_entries(*entry, chunk, depth, left);
                        assert(Self::left(here, *self, failure@, key));
                        Self::lemma_left_later(between, here, *self, read, failure@, key);
                        Self::lemma_left_later(
                            *old(self),
                            between,
                            *self,
                            prefix,
                            failure@,
                            shifted(key, read.len()),
                        );
                    }
                    return Err(failure);
                },
                Ok(None) => {
                    break ;
                },
                Ok(Some(key)) => {
                    let ghost middle = *self;
                    let ghost key_bytes = Self::read_since(here, middle);
                    match map.next_value(self, &entry.1) {
                        Err(failure) => {
                            proof {
                                let value_bytes = Self::read_since(middle, *self);
                                let chunk = key_bytes + value_bytes;
                                let all = prefix + (read + chunk);
                                Self::lemma_read_since(*old(self), between, prefix);
                                Self::lemma_read_since(between, here, read);
                                Self::lemma_read_since(here, middle, key_bytes);
                                Self::lemma_extended_twice(here, middle, *self);
                                Self::lemma_extended_twice(between, here, *self);
                                Self::lemma_extended_twice(*old(self), between, *self);
                                lemma_agree_extended(key_bytes, value_bytes);
                                lemma_decode_prefix(entry.0, key_bytes, chunk, depth);
                                assert(chunk.take(key_bytes.len() as int) =~= key_bytes);
                                assert(chunk.skip(key_bytes.len() as int) =~= value_bytes);
                                assert(decode_entries(*entry, chunk, depth, left, earlier) is Err);
                                lemma_decode_entries_fails(
                                    *entry,
                                    read,
                                    chunk,
                                    depth,
                                    pairs@.len() as nat,
                                    left,
                                    None,
                                );
                                lemma_agree_extended(prefix, read + chunk);
                                lemma_length_prefix(prefix, all);
                                assert(all.skip(prefix.len() as int) =~= read + chunk);
                                let inside = failing_key(entry.1, value_bytes, depth);
                                let key = failing_key_entries(*entry, chunk, depth, left);
                                Self::lemma_left_later(
                                    here,
                                    middle,
                                    *self,
                                    key_bytes,
                                    failure@,
                                    inside,
                                );
                                assert(key == shifted(inside, key_bytes.len()));
                                Self::lemma_left_later(between, here, *self, read, failure@, key);
                                Self::lemma_left_later(
                                    *old(self),
                                    between,
                                    *self,
                                    prefix,
                                    failure@,
                                    shifted(key, read.len()),
                                );
                            }
                            return Err(failure);
                        },
                        Ok(value) => {
                            proof {
                                let value_bytes = Self::read_since(middle, *self);
                                let chunk = key_bytes + value_bytes;
                                Self::lemma_advanced_twice(
                                    here,
                                    middle,
                                    *self,
                                    key_bytes,
                                    value_bytes,
                                );
                                Self::lemma_advanced_twice(between, here, *self, read, chunk);
                                lemma_decode_entries_single(
                                    *entry,
                                    key_bytes,
                                    value_bytes,
                                    depth,
                                    earlier,
                                );
                                lemma_decode_entries_append(
                                    *entry,
                                    read,
                                    chunk,
                                    depth,
                                    pairs@.len() as nat,
                                    1,
                                    None,
                                );
                                lemma_pairs_view_push(pairs@, key, value);
                                assert(pairs_view(pairs@) + seq![(key@, value@)] =~= pairs_view(
                                    pairs@,
                                ).push((key@, value@)));
                                read = read + chunk;
                            }
                            pairs.push((key, value));
                        },
                    }
                },
            }
        }
        proof {
            let all = prefix + read;
            Self::lemma_advanced_twice(*old(self), between, *self, prefix, read);
            Self::lemma_read_since(*old(self), *self, all);
            lemma_agree_extended(prefix, read);
            lemma_length_prefix(prefix, all);
            assert(all.skip(prefix.len() as int) =~= read);
        }
        Ok(Value::Mapping(pairs))
    }

    /// Decodes the inside of an enum: the index of a variant, then the
    /// content of that variant.
    pub fn deserialize_variant(&mut self, variants: &Vec<Shape>) -> (r: Result<Value, Error>)
        ensures
            Self::reads(
                *old(self),
                *final(self),
                r,
                decode_variant(
                    variants@,
                    Self::read_since(*old(self), *final(self)),
                    old(self).depth(),
                ),
                failing_key_variant(
                    variants@,
                    Self::read_since(*old(self), *final(self)),
                    old(self).depth(),
                ),
            ),
        decreases variants, 1nat, 0nat,
    {
        let index = self.parse_u32_from_uleb128()?;
        let ghost between = *self;
        let ghost prefix = Self::read_since(*old(self), between);
        if index as usize >= variants.len() {
            return Err(unknown_variant(index, variants.len()));
        }
        let r = self.deserialize(&variants[index as usize]);
        proof {
            let rest = Self::read_since(between, *self);
            let all = prefix + rest;
            Self::lemma_extended_twice(*old(self), between, *self);
            lemma_uleb128_decode_extends(prefix, rest);
            assert(all.skip(prefix.len() as int) =~= rest);
            if r is Ok {
                Self::lemma_advanced_twice(*old(self), between, *self, prefix, rest);
            } else {
                Self::lemma_left_later(
                    *old(self),
                    between,
                    *self,
                    prefix,
                    r->Err_0@,
                    failing_key(variants@[index as int], rest, self.depth()),
                );
            }
        }
        match r {
            Ok(content) => Ok(Value::Variant(index, Box::new(content))),
            Err(failure) => Err(failure),
        }
    }

    /// Decodes an enum.
    pub fn deserialize_enum(&mut self, name: &'static str, variants: &Vec<Shape>) -> (r: Result<Value, Error>)
        ensures
            old(self).depth() == 0 ==> r is Err && Self::unchanged(*old(self), *final(self)),
            Self::reads(
                *old(self),
                *final(self),
                r,
                decode_enum(
                    name,
                    variants@,
                    Self::read_since(*old(self), *final(self)),
                    old(self).depth(),
                ),
                failing_key_enum(
                    variants@,
                    Self::read_since(*old(self), *final(self)),
                    old(self).depth(),
                ),
            ),
        decreases variants, 2nat, 0nat,
    {
        match self.enter_named_container(name) {
            Ok(_) => {},
            Err(failure) => {
                proof {
                    Self::lemma_advanced_nothing(*old(self), *self);
                }
                return Err(failure);
            },
        }
        let ghost entered = *self;
        let r = self.deserialize_variant(variants);
        let ghost done = *self;
        self.leave_named_container();
        proof {
            assert(Self::read_since(*old(self), *self) == Self::read_since(entered, done));
        }
        r
    }

    /// The format is binary: it is not meant to be read by people.
    pub fn is_human_readable(&self) -> (r: bool)
        ensures
            !r,
    {
        false
    }
}

/// The count of the elements of a sequence or tuple that are still to come.
pub struct SeqDeserializer {
    remaining: usize,
}

impl SeqDeserializer {
    /// How many elements are still to come.
    pub closed spec fn count(&self) -> nat {
        self.remaining as nat
    }

    /// A count of `remaining` elements.
    pub fn new(remaining: usize) -> (seq: Self)
        ensures
            seq.count() == remaining,
    {
        SeqDeserializer { remaining }
    }

    /// Counts one element off where one is still to come, and says whether
    /// one was.
    pub fn begin_element(&mut self) -> (more: bool)
        ensures
            more == (old(self).count() > 0),
            more ==> final(self).count() == old(self).count() - 1,
            !more ==> final(self).count() == 0,
    {
        if self.remaining == 0 {
            false
        } else {
            self.remaining = self.remaining - 1;
            true
        }
    }

    /// Decodes the next element from `de`, or says that none is left.
    pub fn next_element<'de, R: Read>(
        &mut self,
        de: &mut DeserializeReader<'de, R>,
        shape: &Shape,
    ) -> (r: Result<Option<Value>, Error>)
        ensures
            old(self).count() == 0 ==> r is Ok && r->Ok_0 is None && *final(de) == *old(de)
                && final(self).count() == 0,
            old(self).count() > 0 ==> {
                &&& final(self).count() == old(self).count() - 1
                &&& DeserializeReader::extended(*old(de), *final(de))
                &&& match r {
                    Ok(found) => {
                        &&& found is Some
                        &&& DeserializeReader::advanced(
                            *old(de),
                            *final(de),
                            DeserializeReader::read_since(*old(de), *final(de)),
                        )
                        &&& decode(
                            *shape,
                            DeserializeReader::read_since(*old(de), *final(de)),
                            old(de).depth(),
                        ) == Ok::<(SpecValue, nat), Failure>(
                            (
                                found->Some_0@,
                                DeserializeReader::read_since(*old(de), *final(de)).len(),
                            ),
                        )
                    },
                    Err(failure) => {
                        &&& DeserializeReader::failed(
                            *old(de),
                            *final(de),
                            failure@,
                            decode(
                                *shape,
                                DeserializeReader::read_since(*old(de), *final(de)),
                                old(de).depth(),
                            ),
                        )
                        &&& DeserializeReader::left(
                            *old(de),
                            *final(de),
                            failure@,
                            failing_key(
                                *shape,
                                DeserializeReader::read_since(*old(de), *final(de)),
                                old(de).depth(),
                            ),
                        )
                    },
                }
            },
        decreases shape, 1nat, 0nat,
    {
        if self.begin_element() {
            let value = de.deserialize(shape)?;
            Ok(Some(value))
        } else {
            Ok(None)
        }
    }

    /// How many elements are still to come.
    pub fn size_hint(&self) -> (hint: Option<usize>)
        ensures
            hint == Some(self.count() as usize),
    {
        Some(self.remaining)
    }
}

/// The count of the pairs of a map that are still to come, with the bytes of
/// the key that was decoded last.
pub struct MapDeserializer {
    remaining: usize,
    previous_key_bytes: Option<Vec<u8>>,
    suspended: Option<Vec<u8>>,
}

impl MapDeserializer {
    /// How many pairs are still to come.
    pub closed spec fn count(&self) -> nat {
        self.remaining as nat
    }

    /// The bytes of the key that was decoded last, if one was.
    pub closed spec fn previous(&self) -> Option<Seq<u8>> {
        bytes_of(self.previous_key_bytes)
    }

    /// The recording that was going on when the key that is being decoded
    /// began, if one was.
    pub closed spec fn suspended(&self) -> Option<Seq<u8>> {
        bytes_of(self.suspended)
    }

    /// A count of `remaining` pairs, before the first key.
    pub fn new(remaining: usize) -> (map: Self)
        ensures
            map.count() == remaining,
            map.previous() is None,
            map.suspended() is None,
    {
        MapDeserializer { remaining, previous_key_bytes: None, suspended: None }
    }

    /// Tells whether a pair is still to come and, where one is, begins to
    /// record the bytes of its key. A recording that goes on is set aside
    /// until the key ends. The pair is counted off only when its key ends and
    /// is accepted.
    pub fn begin_key<'de, R: Read>(&mut self, de: &mut DeserializeReader<'de, R>) -> (more: bool)
        ensures
            more == (old(self).count() > 0),
            final(self).count() == old(self).count(),
            final(self).previous() == old(self).previous(),
            !more ==> *final(de) == *old(de) && final(self).suspended() == old(self).suspended(),
            more ==> {
                &&& final(self).suspended() == old(de).captured()
                &&& final(de).depth() == old(de).depth()
                &&& final(de).consumed() == old(de).consumed()
                &&& final(de).asked() == old(de).asked()
                &&& final(de).captured() == Some(Seq::<u8>::empty())
            },
    {
        if self.remaining == 0 {
            false
        } else {
            self.suspended = de.start_capture();
            true
        }
    }

    /// Takes what was recorded since the key began as the bytes of the key,
    /// and accepts the key where these come strictly after the bytes of the
    /// key before it. An accepted key is counted off and becomes the key
    /// before the next, and the recording that was set aside goes on, with the
    /// bytes of the key added. A key that is refused leaves the count and the
    /// key before it as they were.
    pub fn end_key<'de, R: Read>(&mut self, de: &mut DeserializeReader<'de, R>) -> (r: Result<
        (),
        Error,
    >)
        requires
            old(self).count() > 0,
            old(de).captured() is Some,
        ensures
            final(de).depth() == old(de).depth(),
            final(de).consumed() == old(de).consumed(),
            final(de).asked() == old(de).asked(),
            r is Ok <==> (old(self).previous() is None || lex_lt(
                old(self).previous()->Some_0,
                old(de).captured()->Some_0,
            )),
            r is Ok ==> final(self).count() == old(self).count() - 1 && final(self).previous()
                == old(de).captured() && final(self).suspended() is None && final(de).captured()
                == TeeReader::<R>::recorded(old(self).suspended(), old(de).captured()->Some_0),
            r is Err ==> r->Err_0@ == Failure::NonCanonicalMap && final(de).captured() is None,
            r is Err ==> final(self).count() == old(self).count(),
            r is Err ==> final(self).previous() == old(self).previous(),
            r is Err ==> final(self).suspended() == old(self).suspended(),
    {
        let taken = de.take_capture();
        let key_bytes = taken.unwrap();
        let in_order = match &self.previous_key_bytes {
            None => true,
            Some(previous) => lex_less(previous.as_slice(), key_bytes.as_slice()),
        };
        if !in_order {
            return Err(Error::NonCanonicalMap);
        }
        de.resume_capture(self.suspended.take(), key_bytes.as_slice());
        self.remaining = self.remaining - 1;
        self.previous_key_bytes = Some(key_bytes);
        Ok(())
    }

    /// Decodes the next key from `de` and checks that it comes after the key
    /// before it, or says that no pair is left. It fails as the key does, and
    /// where the key is decoded but does not come after the key before it. The
    /// pair is counted off, and its key becomes the key before the next, only
    /// where the key is accepted: after a failure both are as they were, and
    /// the recording that was set aside for the key stays set aside.
    pub fn next_key<'de, R: Read>(
        &mut self,
        de: &mut DeserializeReader<'de, R>,
        shape: &Shape,
    ) -> (r: Result<Option<Value>, Error>)
        ensures
            old(self).count() == 0 ==> r is Ok && r->Ok_0 is None && *final(de) == *old(de)
                && final(self).count() == 0 && final(self).previous() == old(self).previous(),
            r is Ok && r->Ok_0 is Some ==> final(self).count() == old(self).count() - 1,
            r is Err ==> final(self).count() == old(self).count() && final(self).previous() == old(
                self,
            ).previous(),
            r is Ok && r->Ok_0 is Some ==> final(self).suspended() is None,
            r is Err ==> final(self).suspended() == old(de).captured(),
            old(self).count() > 0 ==> {
                &&& DeserializeReader::extended(*old(de), *final(de))
                &&& match r {
                    Ok(found) => {
                        &&& found is Some
                        &&& DeserializeReader::advanced(
                            *old(de),
                            *final(de),
                            DeserializeReader::read_since(*old(de), *final(de)),
                        )
                        &&& decode(
                            *shape,
                            DeserializeReader::read_since(*old(de), *final(de)),
                            old(de).depth(),
                        ) == Ok::<(SpecValue, nat), Failure>(
                            (
                                found->Some_0@,
                                DeserializeReader::read_since(*old(de), *final(de)).len(),
                            ),
                        )
                        &&& old(self).previous() is None || lex_lt(
                            old(self).previous()->Some_0,
                            DeserializeReader::read_since(*old(de), *final(de)),
                        )
                        &&& final(self).previous() == Some(
                            DeserializeReader::read_since(*old(de), *final(de)),
                        )
                    },
                    Err(failure) => {
                        ||| {
                            &&& DeserializeReader::failed(
                                *old(de),
                                *final(de),
                                failure@,
                                decode(
                                    *shape,
                                    DeserializeReader::read_since(*old(de), *final(de)),
                                    old(de).depth(),
                                ),
                            )
                            &&& DeserializeReader::left(
                                *old(de),
                                *final(de),
                                failure@,
                                match failing_key(
                                    *shape,
                                    DeserializeReader::read_since(*old(de), *final(de)),
                                    old(de).depth(),
                                ) {
                                    None => Some(0nat),
                                    Some(k) => Some(k),
                                },
                            )
                        }
                        ||| {
                            &&& failure@ == Failure::NonCanonicalMap
                            &&& final(de).captured() is None
                            &&& final(de).asked() == old(de).asked() + DeserializeReader::read_since(
                                *old(de),
                                *final(de),
                            ).len()
                            &&& decode(
                                *shape,
                                DeserializeReader::read_since(*old(de), *final(de)),
                                old(de).depth(),
                            ) is Ok
                            &&& decode(
                                *shape,
                                DeserializeReader::read_since(*old(de), *final(de)),
                                old(de).depth(),
                            )->Ok_0.1 == DeserializeReader::read_since(*old(de), *final(de)).len()
                            &&& old(self).previous() is Some
                            &&& !lex_lt(
                                old(self).previous()->Some_0,
                                DeserializeReader::read_since(*old(de), *final(de)),
                            )
                        }
                    },
                }
            },
        decreases shape, 1nat, 0nat,
    {
        if !self.begin_key(de) {
            return Ok(None);
        }
        let ghost begun = *de;
        let r = de.deserialize(shape);
        let ghost decoded = *de;
        proof {
            let read = DeserializeReader::read_since(begun, decoded);
            assert(DeserializeReader::read_since(*old(de), decoded) == read);
            assert(Seq::<u8>::empty() + read =~= read);
            assert(read.skip(0) =~= read);
        }
        let key_value = r?;
        proof {
            let key = DeserializeReader::read_since(begun, decoded);
            assert(Seq::<u8>::empty() + key =~= key);
        }
        self.end_key(de)?;
        Ok(Some(key_value))
    }

    /// Decodes the value that belongs to the key that was decoded last.
    pub fn next_value<'de, R: Read>(
        &mut self,
        de: &mut DeserializeReader<'de, R>,
        shape: &Shape,
    ) -> (r: Result<Value, Error>)
        ensures
            *final(self) == *old(self),
            DeserializeReader::reads(
                *old(de),
                *final(de),
                r,
                decode(
                    *shape,
                    DeserializeReader::read_since(*old(de), *final(de)),
                    old(de).depth(),
                ),
                failing_key(
                    *shape,
                    DeserializeReader::read_since(*old(de), *final(de)),
                    old(de).depth(),
                ),
            ),
        decreases shape, 1nat, 0nat,
    {
        de.deserialize(shape)
    }

    /// How many pairs are still to come.
    pub fn size_hint(&self) -> (hint: Option<usize>)
        ensures
            hint == Some(self.count() as usize),
    {
        Some(self.remaining)
    }
}

/// Decodes one value of the given shape from `reader`, with the default
/// nesting budget. It reads the bytes of the value and no more; they are the
/// one encoding of the value, which decodes to it under the shape. Where it
/// fails, it shows the failure that the bytes it has read decode to.
pub fn from_reader<R: Read>(reader: &mut R, shape: &Shape) -> (r: Result<Value, Error>)
    ensures
        r is Ok ==> decode(*shape, encode(r->Ok_0@), crate::MAX_CONTAINER_DEPTH as nat) == Ok::<
            (SpecValue, nat),
            Failure,
        >((r->Ok_0@, encode(r->Ok_0@).len())),
        r is Err ==> exists|read: Seq<u8>|
            r->Err_0@.shows(#[trigger] decode(*shape, read, crate::MAX_CONTAINER_DEPTH as nat)),
{
    let mut deserializer = DeserializeReader::new(reader, crate::MAX_CONTAINER_DEPTH);
    let ghost before = deserializer;
    let r = deserializer.deserialize(shape);
    proof {
        let read = DeserializeReader::read_since(before, deserializer);
        if r is Ok {
            lemma_encode_decode(*shape, read, crate::MAX_CONTAINER_DEPTH as nat);
            assert(read.take(read.len() as int) =~= read);
        } else {
            assert(r->Err_0@.shows(decode(*shape, read, crate::MAX_CONTAINER_DEPTH as nat)));
        }
    }
    r
}

} // verus!
