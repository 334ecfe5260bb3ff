//! The errors that request parsing and route registration surface.
use vstd::prelude::*;

verus! {

/// Why a request's first line was rejected. Any of these aborts parsing of
/// the request at hand; malformed headers past the first line never do.
#[derive(Debug, PartialEq, Eq, Structural, Clone, Copy)]
pub enum RequestError {
    /// The first line did not split into exactly three space-separated tokens.
    TooManyValues,
    /// The method token was not `GET` or `POST` (case-sensitively).
    BadMethod,
    /// The protocol token was not `HTTP/1.1` (case-insensitively).
    BadProtocol,
}

/// A route pattern that did not compile to a matcher; surfaced once, at
/// registration time, never per request.
#[derive(Debug)]
pub struct FailedToCompileRoute;

} // verus!
