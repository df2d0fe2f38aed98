//! The single-step verifier's decision rules, as the hosting lock script
//! applies them.
//!
//! The script receives two expected commitments in its 64-byte arguments and
//! a step proof in its witness.  It restores a machine from the proof,
//! demands that its commitment equal the expected pre-state, replays one
//! instruction, and demands that the new commitment equal the expected
//! post-state.  Each refusal carries its own exit code.

use vstd::prelude::*;
use vstd::pervasive::unreached;
use vstd::slice::{slice_subrange, slice_to_vec};
use crate::bytes32::Bytes32;
use crate::dissection::sc_same;
use crate::error::Error;
use crate::machine::{StepCommitment, StepProof};

verus! {

/// Decode the step proof out of the witness's lock field: a missing field
/// and an undecodable one are refused apart, each with its own exit code.
pub fn decode_witness_proof(witness_lock: Option<&Vec<u8>>, rbits: u32) -> (r: Result<
    StepProof,
    Error,
>)
    requires
        rbits == 32 || rbits == 64,
    ensures
        match r {
            Ok(p) => witness_lock is Some && StepProof::sp_parse_ok(witness_lock.unwrap()@, rbits)
                && StepProof::sp_parses_to(witness_lock.unwrap()@, rbits, p),
            Err(e) => (witness_lock is None && e == Error::InvalidWitness) || (witness_lock
                is Some && !StepProof::sp_parse_ok(witness_lock.unwrap()@, rbits) && e
                == Error::InvalidStepProof),
        },
{
    match witness_lock {
        None => Err(Error::InvalidWitness),
        Some(bytes) => match StepProof::unpack(bytes, rbits) {
            Some(p) => Ok(p),
            None => Err(Error::InvalidStepProof),
        },
    }
}

/// Split 64-byte script arguments into the expected pre-step and post-step
/// commitments; any other length is refused.
pub fn parse_lock_args(args: &Vec<u8>) -> (r: Result<(Bytes32, Bytes32), Error>)
    ensures
        r is Ok <==> args@.len() == 64,
        match r {
            Ok((pre, post)) => pre@ == args@.subrange(0, 32) && post@ == args@.subrange(32, 64),
            Err(e) => e == Error::InvalidLockArgs,
        },
{
    if args.len() != 64 {
        return Err(Error::InvalidLockArgs);
    }
    let pre_bytes = slice_to_vec(slice_subrange(args.as_slice(), 0, 32));
    let post_bytes = slice_to_vec(slice_subrange(args.as_slice(), 32, 64));
    let pre = match Bytes32::new(pre_bytes) {
        Some(b) => b,
        None => unreached(),
    };
    let post = match Bytes32::new(post_bytes) {
        Some(b) => b,
        None => unreached(),
    };
    Ok((pre, post))
}

/// The two step commitments a proof at `step_num` is held against: the
/// expected pre-state at that step and the expected post-state one step
/// later.  A proof at the last representable step is refused.
pub fn expected_commitments(step_num: u64, pre: Bytes32, post: Bytes32) -> (r: Result<
    (StepCommitment, StepCommitment),
    Error,
>)
    ensures
        r is Ok <==> step_num < u64::MAX,
        match r {
            Ok((e0, e1)) => e0.step_num == step_num && e0.commitment@ == pre@ && e1.step_num
                == step_num + 1 && e1.commitment@ == post@,
            Err(e) => e == Error::InvalidStepProof,
        },
{
    if step_num == u64::MAX {
        return Err(Error::InvalidStepProof);
    }
    Ok(
        (
            StepCommitment { step_num, commitment: pre },
            StepCommitment { step_num: step_num + 1, commitment: post },
        ),
    )
}

/// Refuse unless the restored machine's commitment equals the expected
/// pre-state.
pub fn check_pre_commitment(actual: &StepCommitment, expected: &StepCommitment) -> (r: Result<
    (),
    Error,
>)
    ensures
        r is Ok <==> sc_same(*actual, *expected),
        r is Err ==> r == Result::<(), Error>::Err(Error::MismatchStepCommitment),
{
    if actual.eq(expected) {
        Ok(())
    } else {
        Err(Error::MismatchStepCommitment)
    }
}

/// Refuse unless the commitment after the replayed instruction equals the
/// expected post-state.  The comparison is deliberately against the
/// post-step expectation, the second half of the script arguments.
pub fn check_post_commitment(actual: &StepCommitment, expected: &StepCommitment) -> (r: Result<
    (),
    Error,
>)
    ensures
        r is Ok <==> sc_same(*actual, *expected),
        r is Err ==> r == Result::<(), Error>::Err(Error::MismatchNextStepCommitment),
{
    if actual.eq(expected) {
        Ok(())
    } else {
        Err(Error::MismatchNextStepCommitment)
    }
}

/// The whole judgement once both commitments are computed: the pre-state is
/// held against the first expectation, then the post-state against the
/// second, each mismatch with its own exit code, the pre-state one first.
pub fn check_step_commitments(
    actual_pre: &StepCommitment,
    actual_post: &StepCommitment,
    expected_pre: &StepCommitment,
    expected_post: &StepCommitment,
) -> (r: Result<(), Error>)
    ensures
        r is Ok <==> sc_same(*actual_pre, *expected_pre) && sc_same(*actual_post, *expected_post),
        !sc_same(*actual_pre, *expected_pre) ==> r == Result::<(), Error>::Err(
            Error::MismatchStepCommitment,
        ),
        sc_same(*actual_pre, *expected_pre) && !sc_same(*actual_post, *expected_post) ==> r
            == Result::<(), Error>::Err(Error::MismatchNextStepCommitment),
{
    check_pre_commitment(actual_pre, expected_pre)?;
    check_post_commitment(actual_post, expected_post)?;
    Ok(())
}

} // verus!
