use vstd::prelude::*;

verus! {

/// The ways in which decoding can fail.
///
/// Every failure is final: the decoder stops at the first one it meets, going
/// through the input from left to right, and reports it to the caller.
#[derive(Clone, Debug, PartialEq, Eq)]
pub enum Error {
    /// The input ended before a value was complete.
    Eof,
    /// The byte source reported a failure of its own; the text is its message.
    Io(String),
    /// A length prefix is larger than `MAX_SEQUENCE_LENGTH`.
    ExceededMaxLen(usize),
    /// No nesting budget was left when the named container was entered.
    ExceededContainerDepthLimit(&'static str),
    /// A boolean was encoded by a byte other than 0 or 1.
    ExpectedBoolean,
    /// The keys of a map were not in strictly ascending order of their bytes.
    NonCanonicalMap,
    /// The presence tag of an optional value was a byte other than 0 or 1.
    ExpectedOption,
    /// The value that was decoded cannot be built; the text says why.
    Custom(String),
    /// The format has no encoding for what was asked for.
    NotSupported(&'static str),
    /// A top-level value was decoded and bytes were left over.
    RemainingInput,
    /// A text string was not valid UTF-8.
    Utf8,
    /// A variable-length integer was encoded in more bytes than it needs.
    NonCanonicalUleb128Encoding,
    /// A variable-length integer does not fit in 32 bits.
    IntegerOverflowDuringUleb128Decoding,
}

/// What an [`Error`] says, with texts as sequences of characters and sizes as
/// natural numbers.
pub enum Failure {
    Eof,
    Io(Seq<char>),
    ExceededMaxLen(nat),
    ExceededContainerDepthLimit(Seq<char>),
    ExpectedBoolean,
    NonCanonicalMap,
    ExpectedOption,
    Custom(Seq<char>),
    NotSupported(Seq<char>),
    RemainingInput,
    Utf8,
    NonCanonicalUleb128Encoding,
    IntegerOverflowDuringUleb128Decoding,
}

impl View for Error {
    type V = Failure;

    open spec fn view(&self) -> Failure {
        match self {
            Error::Eof => Failure::Eof,
            Error::Io(message) => Failure::Io(message@),
            Error::ExceededMaxLen(len) => Failure::ExceededMaxLen(*len as nat),
            Error::ExceededContainerDepthLimit(name) => Failure::ExceededContainerDepthLimit(
                name@,
            ),
            Error::ExpectedBoolean => Failure::ExpectedBoolean,
            Error::NonCanonicalMap => Failure::NonCanonicalMap,
            Error::ExpectedOption => Failure::ExpectedOption,
            Error::Custom(message) => Failure::Custom(message@),
            Error::NotSupported(what) => Failure::NotSupported(what@),
            Error::RemainingInput => Failure::RemainingInput,
            Error::Utf8 => Failure::Utf8,
            Error::NonCanonicalUleb128Encoding => Failure::NonCanonicalUleb128Encoding,
            Error::IntegerOverflowDuringUleb128Decoding =>
                Failure::IntegerOverflowDuringUleb128Decoding,
        }
    }
}

impl Error {
    /// The failure of a value that cannot be built, for the reason that
    /// `message` gives.
    pub fn custom(message: String) -> (e: Error)
        ensures
            e@ == Failure::Custom(message@),
    {
        Error::Custom(message)
    }
}

impl Failure {
    /// Whether the failure comes from the byte source rather than from the
    /// bytes it delivered.
    pub open spec fn from_source(self) -> bool {
        self is Eof || self is Io
    }

    /// Whether this failure is what a decoder reports where the bytes it has
    /// read mean `outcome`: the failure that these bytes decode to, or, where
    /// they only end too early, also a failure of the source's own.
    pub open spec fn shows<T>(self, outcome: Result<T, Failure>) -> bool {
        &&& outcome is Err
        &&& outcome->Err_0 == self || (outcome->Err_0 == Failure::Eof && self is Io)
    }
}

} // verus!
