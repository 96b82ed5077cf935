//! Validation of the human-readable I/O buffer size option.
//!
//! The size string itself ("512", "1kb", "3 MiB", ...) is parsed by the
//! `bytesize` crate; this module checks the one rule of its own, that a
//! zero-byte buffer is not allowed.

use vstd::prelude::*;
use std::str::FromStr;

verus! {

/// What `bytesize::ByteSize::from_str` yields for a given string: the byte
/// count it denotes, or nothing when it denotes none.
pub uninterp spec fn byte_size_of(s: Seq<char>) -> Option<u64>;

/// Relies on `bytesize::ByteSize::from_str`: parses a human-readable size
/// into its byte count.  The result depends on the string alone.
#[verifier::external_body]
fn parse_byte_size(s: &str) -> (r: Result<u64, String>)
    ensures
        match r {
            Ok(v) => byte_size_of(s@) == Some(v),
            Err(_) => byte_size_of(s@) is None,
        },
{
    match bytesize::ByteSize::from_str(s) {
        Ok(b) => Ok(b.0),
        Err(e) => Err(e),
    }
}

/// A byte count parsed from a human-readable size string, known not to be
/// zero.
#[derive(Copy, Clone, PartialEq, Eq, PartialOrd, Ord, Hash, Debug)]
pub struct NonZeroByteSize(u64);

impl NonZeroByteSize {
    /// The byte count.
    pub closed spec fn count(&self) -> u64 {
        self.0
    }

    /// Parses a human-readable size, rejecting a zero value.
    pub fn from_str(s: &str) -> (r: Result<NonZeroByteSize, String>)
        ensures
            match r {
                Ok(v) => byte_size_of(s@) == Some(v.count()) && v.count() != 0,
                Err(_) => byte_size_of(s@) is None || byte_size_of(s@) == Some(0u64),
            },
            byte_size_of(s@) matches Some(b) && b != 0 ==> r is Ok,
            byte_size_of(s@) == Some(0u64) ==> (r matches Err(e) && e@ == "0 is not allowed"@),
    {
        match parse_byte_size(s) {
            Ok(v) => {
                if v == 0 {
                    Err("0 is not allowed".to_owned())
                } else {
                    Ok(NonZeroByteSize(v))
                }
            },
            Err(e) => Err(e),
        }
    }

    /// The byte count as a plain integer.
    pub fn get(&self) -> (v: u64)
        ensures
            v == self.count(),
    {
        self.0
    }
}

} // verus!
