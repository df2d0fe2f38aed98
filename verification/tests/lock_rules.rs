//! The verifier script's argument handling and verdict codes.

use woss::bytes32::Bytes32;
use woss::error::Error;
use woss::lock::{
    check_post_commitment, check_pre_commitment, check_step_commitments, decode_witness_proof,
    expected_commitments, parse_lock_args,
};
use woss::machine::StepCommitment;

fn commitment(step: u64, tag: u64) -> StepCommitment {
    StepCommitment { step_num: step, commitment: Bytes32::from_u64(tag) }
}

#[test]
fn test_malformed_lock_args_exit_with_seven() {
    let args: Vec<u8> = vec![0u8; 63];
    let err = parse_lock_args(&args).unwrap_err();
    assert_eq!(err, Error::InvalidLockArgs);
    assert_eq!(err.exit_code(), 7);

    let args: Vec<u8> = vec![0u8; 65];
    assert_eq!(parse_lock_args(&args).unwrap_err().exit_code(), 7);
    let args: Vec<u8> = Vec::new();
    assert_eq!(parse_lock_args(&args).unwrap_err().exit_code(), 7);
}

#[test]
fn test_lock_args_split_into_two_commitments() {
    let mut args: Vec<u8> = Vec::new();
    for i in 0..64u8 {
        args.push(i);
    }
    let (pre, post) = parse_lock_args(&args).unwrap();
    assert_eq!(pre.to_vec(), (0..32u8).collect::<Vec<u8>>());
    assert_eq!(post.to_vec(), (32..64u8).collect::<Vec<u8>>());
}

#[test]
fn test_expected_commitments_number_adjacent_steps() {
    let (e0, e1) = expected_commitments(41, Bytes32::from_u64(1), Bytes32::from_u64(2)).unwrap();
    assert_eq!(e0.step_num, 41);
    assert_eq!(e1.step_num, 42);
    assert_eq!(e0.commitment.to_u64(), 1);
    assert_eq!(e1.commitment.to_u64(), 2);

    let err = expected_commitments(u64::MAX, Bytes32::zero(), Bytes32::zero()).unwrap_err();
    assert_eq!(err, Error::InvalidStepProof);
    assert_eq!(err.exit_code(), 6);
}

#[test]
fn test_commitment_checks_carry_their_codes() {
    let a = commitment(3, 10);
    let b = commitment(3, 11);

    assert!(check_pre_commitment(&a, &a).is_ok());
    let err = check_pre_commitment(&a, &b).unwrap_err();
    assert_eq!(err, Error::MismatchStepCommitment);
    assert_eq!(err.exit_code(), 9);

    assert!(check_post_commitment(&b, &b).is_ok());
    let err = check_post_commitment(&a, &b).unwrap_err();
    assert_eq!(err, Error::MismatchNextStepCommitment);
    assert_eq!(err.exit_code(), 11);
}

#[test]
fn test_whole_judgement_orders_its_verdicts() {
    let pre = commitment(3, 10);
    let post = commitment(4, 20);
    let other = commitment(4, 30);

    assert!(check_step_commitments(&pre, &post, &pre, &post).is_ok());
    assert_eq!(
        check_step_commitments(&other, &post, &pre, &post).unwrap_err(),
        Error::MismatchStepCommitment,
    );
    assert_eq!(
        check_step_commitments(&pre, &other, &pre, &post).unwrap_err(),
        Error::MismatchNextStepCommitment,
    );
    // A pre-state mismatch wins even when the post-state mismatches too.
    assert_eq!(
        check_step_commitments(&post, &pre, &pre, &post).unwrap_err(),
        Error::MismatchStepCommitment,
    );
}

#[test]
fn test_witness_decoding_verdicts() {
    let err = decode_witness_proof(None, 32).unwrap_err();
    assert_eq!(err, Error::InvalidWitness);
    assert_eq!(err.exit_code(), 5);

    let garbage: Vec<u8> = vec![1, 2, 3];
    let err = decode_witness_proof(Some(&garbage), 32).unwrap_err();
    assert_eq!(err, Error::InvalidStepProof);
    assert_eq!(err.exit_code(), 6);
}

#[test]
fn test_exit_codes_are_stable() {
    assert_eq!(Error::IndexOutOfBound.exit_code(), 1);
    assert_eq!(Error::ItemMissing.exit_code(), 2);
    assert_eq!(Error::LengthNotEnough.exit_code(), 3);
    assert_eq!(Error::Encoding.exit_code(), 4);
    assert_eq!(Error::InvalidWitness.exit_code(), 5);
    assert_eq!(Error::InvalidStepProof.exit_code(), 6);
    assert_eq!(Error::InvalidLockArgs.exit_code(), 7);
    assert_eq!(Error::VerifierCommit.exit_code(), 8);
    assert_eq!(Error::MismatchStepCommitment.exit_code(), 9);
    assert_eq!(Error::ExecuteNextStep.exit_code(), 10);
    assert_eq!(Error::MismatchNextStepCommitment.exit_code(), 11);
}
