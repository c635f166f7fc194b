//! The shapes that a value can be decoded against.

use vstd::prelude::*;

verus! {

/// What kind of value is expected at some point of the input.
///
/// The encoding does not describe itself: the same bytes mean different
/// things under different shapes, so every decode is given one.
#[derive(Debug, PartialEq, Eq)]
pub enum Shape {
    /// A truth value in one byte.
    Bool,
    /// Unsigned integers, little-endian, of one to sixteen bytes.
    U8,
    U16,
    U32,
    U64,
    U128,
    /// Signed integers: the same bytes, read in two's complement.
    I8,
    I16,
    I32,
    I64,
    I128,
    /// Leaf kinds for which the format has no encoding.
    F32,
    F64,
    Char,
    /// Text: a length prefix and that many bytes of UTF-8.
    Str,
    /// Raw bytes: a length prefix and that many bytes.
    Bytes,
    /// A value that may be absent: a presence tag, then the value if present.
    Optional(Box<Shape>),
    /// The value without content.
    Unit,
    /// A named type without content.
    UnitStruct(&'static str),
    /// A named wrapper around one value.
    NewtypeStruct(&'static str, Box<Shape>),
    /// Any number of values of one shape, behind a length prefix.
    Sequence(Box<Shape>),
    /// A fixed list of values, one of each shape, without a prefix.
    Tuple(Vec<Shape>),
    /// A named tuple.
    TupleStruct(&'static str, Vec<Shape>),
    /// Any number of key-value pairs behind a length prefix; the pair holds
    /// the shape of the keys and the shape of the values.
    Mapping(Box<(Shape, Shape)>),
    /// A named list of fields, in their declared order.
    Struct(&'static str, Vec<Shape>),
    /// A named choice: a variant index, then the content of that variant,
    /// whose shape stands at that index.
    Enum(&'static str, Vec<Shape>),
    /// A name of a field or variant; it is encoded like raw bytes.
    Identifier,
    /// A value of unknown shape, which the format cannot decode.
    Any,
    /// A value of unknown shape that is to be skipped, which the format
    /// cannot do either.
    IgnoredAny,
}

} // verus!
