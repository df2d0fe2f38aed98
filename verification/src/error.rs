//! Error kinds of the machine, memory, and tree layers.

use vstd::prelude::*;

verus! {

/// What can go wrong while the machine or its memory runs.
#[derive(Clone, Copy, Debug, PartialEq, Eq, Structural)]
pub enum VmError {
    /// An address range reaches past the memory size, or overflows.
    MemOutOfBound,
    /// The step counter would overflow.
    StepOverflow,
    /// The sparse Merkle tree refused an operation or a proof.
    SmtError,
}

/// The verdicts of the hosted verifier script, one exit code each.  The
/// first four pass through from the hosting syscall surface.
#[derive(Clone, Copy, Debug, PartialEq, Eq, Structural)]
pub enum Error {
    /// A syscall index was out of bounds.
    IndexOutOfBound,
    /// A requested item was missing.
    ItemMissing,
    /// A buffer was too short.
    LengthNotEnough,
    /// A structure failed to decode.
    Encoding,
    /// The witness carried no lock field.
    InvalidWitness,
    /// The step proof would not decode or verify.
    InvalidStepProof,
    /// The script arguments were not exactly two commitments.
    InvalidLockArgs,
    /// The restored machine would not commit.
    VerifierCommit,
    /// The restored machine did not match the expected pre-state.
    MismatchStepCommitment,
    /// The single replayed instruction failed.
    ExecuteNextStep,
    /// The machine after the replayed instruction did not match the
    /// expected post-state.
    MismatchNextStepCommitment,
}

impl Error {
    /// The exit code of each verdict.
    pub open spec fn spec_exit_code(&self) -> i8 {
        match self {
            Error::IndexOutOfBound => 1,
            Error::ItemMissing => 2,
            Error::LengthNotEnough => 3,
            Error::Encoding => 4,
            Error::InvalidWitness => 5,
            Error::InvalidStepProof => 6,
            Error::InvalidLockArgs => 7,
            Error::VerifierCommit => 8,
            Error::MismatchStepCommitment => 9,
            Error::ExecuteNextStep => 10,
            Error::MismatchNextStepCommitment => 11,
        }
    }

    /// The exit code the hosting script returns for this verdict.
    pub fn exit_code(&self) -> (r: i8)
        ensures
            r == self.spec_exit_code(),
    {
        match self {
            Error::IndexOutOfBound => 1,
            Error::ItemMissing => 2,
            Error::LengthNotEnough => 3,
            Error::Encoding => 4,
            Error::InvalidWitness => 5,
            Error::InvalidStepProof => 6,
            Error::InvalidLockArgs => 7,
            Error::VerifierCommit => 8,
            Error::MismatchStepCommitment => 9,
            Error::ExecuteNextStep => 10,
            Error::MismatchNextStepCommitment => 11,
        }
    }
}

} // verus!
