//! The parts of a parsed URL that a request is built from.

use vstd::prelude::*;

verus! {

/// A URL that has already been taken apart. Neither part is validated here.
#[derive(Debug)]
pub struct ParsedUrl {
    /// The host, as it goes into the `Host` header.
    pub host: String,
    /// The path, as it goes into the request line.
    pub path: String,
}

} // verus!
