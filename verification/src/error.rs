//! The error type shared by URL parsing and response parsing.

use vstd::prelude::*;

verus! {

/// Something could not be parsed: an invalid URL, status line or
/// header line.
#[derive(Debug, PartialEq, Eq, Structural)]
pub struct Error {}

} // verus!
