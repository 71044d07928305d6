//! Errors of the library's operations.
use vstd::prelude::*;
use crate::proto::codec;

verus! {

/// Why an operation failed.
#[derive(Debug, Clone)]
pub enum Error {
    /// A message could not be encoded or decoded.
    Protocol(codec::Error),
    /// Any other failure, described in words.
    Other(String),
}

impl From<codec::Error> for Error {
    fn from(e: codec::Error) -> (r: Error) {
        Error::Protocol(e)
    }
}

impl vstd::std_specs::convert::FromSpecImpl<codec::Error> for Error {
    open spec fn obeys_from_spec() -> bool {
        true
    }

    open spec fn from_spec(e: codec::Error) -> Error {
        Error::Protocol(e)
    }
}

/// Whether `e` is the failure described by `msg`.
pub open spec fn is_other(e: Error, msg: Seq<char>) -> bool {
    e matches Error::Other(m) && m@ == msg
}

/// The failure described by `msg`.
pub fn other_err(msg: &str) -> (e: Error)
    ensures
        is_other(e, msg@),
{
    Error::Other(msg.to_owned())
}

} // verus!
