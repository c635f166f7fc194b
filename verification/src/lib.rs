//! Decoder for a compact binary encoding in which every value has exactly one
//! byte representation.

use vstd::prelude::*;

pub mod codec;
pub mod encoding;
pub mod error;
pub mod from_bytes;
pub mod from_reader;
pub mod grammar;
pub mod shape;
pub mod theorems;
pub mod value;
pub mod wire;

pub use error::{Error, Failure};
pub use from_bytes::{from_bytes, Deserializer};
pub use from_reader::{from_reader, DeserializeReader, TeeReader};
pub use shape::Shape;
pub use value::{SpecValue, Value};

verus! {

/// The largest length that a length prefix may announce.
pub const MAX_SEQUENCE_LENGTH: usize = 2147483647;

/// The nesting budget of a decoder that is given none.
pub const MAX_CONTAINER_DEPTH: usize = 500;

} // verus!
