//! Errors of the analyzer.

use vstd::prelude::*;

verus! {

#[derive(Debug)]
pub enum Error {
    Generic(&'static str),
    IoError(String),
}

impl From<&'static str> for Error {
    fn from(s: &'static str) -> (r: Error)
        ensures
            r == Error::Generic(s),
    {
        Error::Generic(s)
    }
}

impl vstd::std_specs::convert::FromSpecImpl<&'static str> for Error {
    open spec fn obeys_from_spec() -> bool {
        true
    }

    open spec fn from_spec(s: &'static str) -> Error {
        Error::Generic(s)
    }
}

} // verus!
