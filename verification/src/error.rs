//! Error types raised when a channel's backing store cannot be set up.

use vstd::prelude::*;

verus! {

/// Why a buffer allocation was refused.
#[derive(Clone, Copy, Debug, PartialEq, Eq, Structural)]
pub enum AllocError {
    /// The backing store could not be obtained from the allocator.
    Alloc,
    /// The requested layout is invalid: the dimension product is zero or
    /// does not fit in `usize`.
    Layout,
}

/// Top-level error of the crate.
#[derive(Clone, Copy, Debug, PartialEq, Eq, Structural)]
pub enum Error {
    Alloc(AllocError),
}

impl From<AllocError> for Error {
    fn from(err: AllocError) -> (r: Self) {
        Error::Alloc(err)
    }
}

impl vstd::std_specs::convert::FromSpecImpl<AllocError> for Error {
    open spec fn obeys_from_spec() -> bool {
        true
    }

    open spec fn from_spec(err: AllocError) -> Self {
        Error::Alloc(err)
    }
}

} // verus!
