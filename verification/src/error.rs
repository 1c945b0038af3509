//! Errors the core can produce while building and signing a request. They
//! arise before any network I/O; transport and endpoint errors belong to
//! the caller that performs the send.
use vstd::prelude::*;

verus! {

#[derive(Debug, Clone, Copy, PartialEq, Eq, Structural)]
pub enum Error {
    /// The request URL's query string is malformed: a percent sign not
    /// followed by two hexadecimal digits.
    BadUrl,
}

} // verus!
