//! A compact binary serialization core: fixed-width scalars, variable-width
//! integers, length-prefixed records and sequences, all decoded from a
//! bounds-checked cursor.
use vstd::prelude::*;

pub mod bytes;
pub mod codec;
pub mod cursor;
pub mod leb128;
pub mod record;
pub mod scalar;
pub mod tagged;
pub mod var_int;

pub use codec::DataType;
pub use cursor::Cursor;
pub use leb128::Leb;
pub use record::{try_collect, LenType, Record};
pub use tagged::{read_variant, write_variant};
pub use var_int::{Family, U15, U22, U29, U30};

verus! {

/// Every way an encode or a decode can fail.
#[derive(Debug, Clone, Copy, PartialEq, Eq, Structural)]
pub enum ErrorKind {
    InsufficientBytes,
    InvalidLength,
    InvalidInput,
    Unsupported,
    InvalidType,
    InvalidData,
    InvalidChar,
    InvalidUtf8,
    IntegerOverflow,
    Other,
}

/// Result of every fallible operation of this library.
pub type Result<T> = core::result::Result<T, ErrorKind>;

} // verus!
