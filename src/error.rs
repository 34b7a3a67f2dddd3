//! Why the price of one ticker could not be had.
use vstd::prelude::*;

verus! {

/// The failure of one price lookup.
#[derive(Debug, Clone, PartialEq, Eq)]
pub enum FetchError {
    /// The request did not complete (name lookup, connection, timeout, TLS).
    Network(String),
    /// The server answered with a status other than 200.
    BadStatus(u16),
    /// The body is not valid UTF-8.
    Decode,
    /// The body holds no price for the ticker.
    NotFound,
}

} // verus!
