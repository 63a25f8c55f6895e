//! The library's error type.

use vstd::prelude::*;

use crate::node::kdl::KdlFailure;

verus! {

#[derive(Debug, PartialEq)]
pub enum MogError {
    Simple(char),
    /// A KDL failure, by its message.
    Kdl(String),
    IntegerOverflow(i128),
}

impl From<KdlFailure> for MogError {
    fn from(failure: KdlFailure) -> (e: MogError)
        ensures
            e == MogError::Kdl(failure.display),
    {
        MogError::Kdl(failure.display)
    }
}

impl vstd::std_specs::convert::FromSpecImpl<KdlFailure> for MogError {
    open spec fn obeys_from_spec() -> bool {
        true
    }

    open spec fn from_spec(v: KdlFailure) -> MogError {
        MogError::Kdl(v.display)
    }
}

} // verus!
