//! The ways in which the verification of a certificate fails.
//!
//! Every failure names what went wrong and carries what it takes to find it:
//! the path that was looked up, or the length of the bytes that did not
//! decode. None of them is ever turned into a default value.

use vstd::prelude::*;
use crate::label::Path;
use crate::principal::Principal;

verus! {

/// A failed verification.
#[derive(Debug, Clone, PartialEq, Eq)]
pub enum VerifyError {
    /// The path is known not to be in the tree.
    PathAbsent(Path),
    /// A pruned digest hides whether the path is in the tree.
    PathUnknown(Path),
    /// The tree or the path makes no sense.
    PathError(Path),
    /// The bytes of the delegation, `len` of them, hold no certificate.
    MalformedDelegation { len: usize },
    /// The bytes of the canister ranges, `len` of them, hold no ranges.
    MalformedRanges { len: usize },
    /// The bytes of the time, `len` of them, do not start with a number.
    MalformedTime { len: usize },
    /// The certificate of a delegation carries a delegation of its own.
    NestedDelegation,
    /// No certified range holds the canister.
    SubnetRangeMismatch { canister_id: Principal },
}

/// The mathematical value of a [`VerifyError`].
pub enum Failure {
    PathAbsent(Seq<Seq<u8>>),
    PathUnknown(Seq<Seq<u8>>),
    PathError(Seq<Seq<u8>>),
    MalformedDelegation { len: nat },
    MalformedRanges { len: nat },
    MalformedTime { len: nat },
    NestedDelegation,
    SubnetRangeMismatch { canister_id: Seq<u8> },
}

impl View for VerifyError {
    type V = Failure;

    open spec fn view(&self) -> Failure {
        match self {
            VerifyError::PathAbsent(path) => Failure::PathAbsent(path@),
            VerifyError::PathUnknown(path) => Failure::PathUnknown(path@),
            VerifyError::PathError(path) => Failure::PathError(path@),
            VerifyError::MalformedDelegation { len } => Failure::MalformedDelegation {
                len: *len as nat,
            },
            VerifyError::MalformedRanges { len } => Failure::MalformedRanges { len: *len as nat },
            VerifyError::MalformedTime { len } => Failure::MalformedTime { len: *len as nat },
            VerifyError::NestedDelegation => Failure::NestedDelegation,
            VerifyError::SubnetRangeMismatch { canister_id } => Failure::SubnetRangeMismatch {
                canister_id: canister_id@,
            },
        }
    }
}

} // verus!
