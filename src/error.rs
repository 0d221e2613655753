//! The error a client of the transport sees.
use vstd::prelude::*;
use crate::connection::ConnectionError;

verus! {

/// A client's error.
#[derive(Debug, Clone, Copy, PartialEq, Eq, Structural)]
pub enum Error {
    /// The connection to the server reported an error.
    NetworkErr(ConnectionError),
}

impl From<ConnectionError> for Error {
    fn from(e: ConnectionError) -> (r: Error)
        ensures
            r == Error::NetworkErr(e),
    {
        Error::NetworkErr(e)
    }
}

impl vstd::std_specs::convert::FromSpecImpl<ConnectionError> for Error {
    open spec fn obeys_from_spec() -> bool {
        true
    }

    open spec fn from_spec(v: ConnectionError) -> Error {
        Error::NetworkErr(v)
    }
}

} // verus!
