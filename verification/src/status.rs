//! The outcome of checking a hybrid signature.

use vstd::prelude::*;

verus! {

/// The outcome of checking a hybrid signature.
#[derive(Debug, Clone, Copy, PartialEq, Eq, Structural)]
pub enum SigStatus {
    /// There is no signature, and none is expected.
    NoSignature,
    /// The signature verifies.
    Verified,
    /// The signature is invalid.
    Invalid,
    /// A signature is expected and missing, or there and not expected.
    Unexpected,
}

/// The outcome that a status number stands for.
pub open spec fn status_of(v: i32) -> SigStatus {
    if v == 0 {
        SigStatus::NoSignature
    } else if v == 1 {
        SigStatus::Verified
    } else if v == 2 {
        SigStatus::Invalid
    } else {
        SigStatus::Unexpected
    }
}

impl From<i32> for SigStatus {
    fn from(v: i32) -> (s: SigStatus) {
        match v {
            0 => SigStatus::NoSignature,
            1 => SigStatus::Verified,
            2 => SigStatus::Invalid,
            _ => SigStatus::Unexpected,
        }
    }
}

impl vstd::std_specs::convert::FromSpecImpl<i32> for SigStatus {
    open spec fn obeys_from_spec() -> bool {
        true
    }

    open spec fn from_spec(v: i32) -> SigStatus {
        status_of(v)
    }
}

impl SigStatus {
    /// The status number.
    pub fn number(self) -> (n: i32)
        ensures
            0 <= n <= 3,
            status_of(n) == self,
    {
        match self {
            SigStatus::NoSignature => 0,
            SigStatus::Verified => 1,
            SigStatus::Invalid => 2,
            SigStatus::Unexpected => 3,
        }
    }
}

} // verus!
