//! The dissection game on synthetic traces: narrowing a forged region to
//! its first forged step.

use woss::bytes32::Bytes32;
use woss::dissection::{run_dissection, StepDiffFinder, MAX_STEP_CHUNKS};
use woss::machine::StepCommitment;

fn commitment(step: u64, tag: u64) -> StepCommitment {
    StepCommitment { step_num: step, commitment: Bytes32::from_u64(tag) }
}

/// A trace whose commitment at step `i` encodes `i` itself.
fn genuine_trace(len: u64) -> Vec<StepCommitment> {
    (0..len).map(|i| commitment(i, i + 1)).collect()
}

/// The same trace with every commitment from `start_at` on forged.
fn forge_steps(len: u64, start_at: u64) -> Vec<StepCommitment> {
    (0..len)
        .map(|i| {
            if i < start_at {
                commitment(i, i + 1)
            } else {
                commitment(i, 1_000_000 + i)
            }
        })
        .collect()
}

#[test]
fn test_step_range_spans_endpoints() {
    let finder = StepDiffFinder::new(genuine_trace(10001));
    let range = finder.step_range(0, 10000);
    assert_eq!(range.len(), MAX_STEP_CHUNKS);
    assert_eq!(range[0].step_num, 0);
    assert_eq!(range[MAX_STEP_CHUNKS - 1].step_num, 10000);
    // Stride is (10000 - 0) / 40 + 1 = 251.
    assert_eq!(range[1].step_num, 251);

    let small = finder.step_range(5, 9);
    assert_eq!(small.len(), 5);
    assert_eq!(small[0].step_num, 5);
    assert_eq!(small[4].step_num, 9);
}

#[test]
fn test_diff_step_range_brackets_first_divergence() {
    let truth = StepDiffFinder::new(genuine_trace(101));
    let forged = forge_steps(101, 60);

    // Fewer offers than a full message: the dispute is a single commitment.
    let offers: Vec<StepCommitment> = forged[55..65].to_vec();
    let (start, end) = truth.diff_step_range(&offers);
    assert_eq!(start.step_num, 60);
    assert_eq!(end.step_num, 60);
    assert!(start == end);

    // A full message: the bracket closes around the first divergence.
    let offers: Vec<StepCommitment> = forged[30..70].to_vec();
    let (start, end) = truth.diff_step_range(&offers);
    assert_eq!(start.step_num, 59);
    assert_eq!(end.step_num, 60);
}

#[test]
fn test_dissection_converges_to_forged_step() {
    // A 10,000-step trace forged from step 4,321 on: the alternating game
    // narrows to that step within three rounds.
    let step_count: u64 = 10000;
    let diff_at: u64 = 4321;

    let producer = StepDiffFinder::new(forge_steps(step_count + 1, diff_at));
    let challenger = StepDiffFinder::new(genuine_trace(step_count + 1));

    let mut steps_to_diff = producer.step_range(0, step_count as usize);
    let mut challenger_turn = true;
    let mut rounds = 0u32;
    while steps_to_diff.len() > 1 {
        let next: &StepDiffFinder = if challenger_turn { &challenger } else { &producer };
        let (start, end) = next.diff_step_range(&steps_to_diff);
        rounds += 1;
        steps_to_diff = if start == end {
            vec![start]
        } else {
            next.step_range(start.step_num as usize, end.step_num as usize)
        };
        challenger_turn = !challenger_turn;
    }
    assert_eq!(steps_to_diff[0].step_num, diff_at);
    assert!(rounds <= 3, "narrowed in {} rounds", rounds);
}

#[test]
fn test_run_dissection_finds_forged_step() {
    // The fully verified game over the same forged trace.
    let producer = StepDiffFinder::new(forge_steps(10001, 4321));
    let challenger = StepDiffFinder::new(genuine_trace(10001));
    let narrowed = run_dissection(&producer, &challenger);
    assert_eq!(narrowed.step_num, 4321);

    // A short trace, forged from the first challengeable step on.
    let producer = StepDiffFinder::new(forge_steps(5, 1));
    let challenger = StepDiffFinder::new(genuine_trace(5));
    assert_eq!(run_dissection(&producer, &challenger).step_num, 1);

    // A forgery in the very last step alone.
    let producer = StepDiffFinder::new(forge_steps(300, 299));
    let challenger = StepDiffFinder::new(genuine_trace(300));
    assert_eq!(run_dissection(&producer, &challenger).step_num, 299);
}
