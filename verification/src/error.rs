//! The ways in which a metric file, its name or its rendering can be refused.

use vstd::prelude::*;

verus! {

/// `std::str::Utf8Error` as an opaque value.
#[verifier::external_type_specification]
#[verifier::external_body]
pub struct ExUtf8Error(core::str::Utf8Error);

#[derive(Debug, PartialEq, Eq)]
pub enum MmapError {
    /// A stored name is not UTF-8.
    Utf8(core::str::Utf8Error),
    /// A field reaches past the bytes that hold it.
    OutOfBounds { offset: usize, len: usize },
    /// A name is longer than its length field can say.
    KeyTooLong,
    /// The header claims more bytes than the file has.
    InvalidUsed { used: usize, len: usize },
    /// An entry does not fit the space given for it.
    EntryTooLarge { needed: usize, available: usize },
    /// A string handed over from C holds a NUL byte.
    InvalidCString,
    /// A pointer handed over from C is null.
    NullPointer,
    /// A size leaves the range of its integer type.
    Overflow,
    /// Any other refusal, in words.
    Message(String),
}

/// Adds two sizes.
pub fn checked_add(a: usize, b: usize) -> (r: Result<usize, MmapError>)
    ensures
        a + b <= usize::MAX ==> r == Ok::<usize, MmapError>((a + b) as usize),
        a + b > usize::MAX ==> r == Err::<usize, MmapError>(MmapError::Overflow),
{
    match a.checked_add(b) {
        Some(sum) => Ok(sum),
        None => Err(MmapError::Overflow),
    }
}

} // verus!
