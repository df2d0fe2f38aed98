//! Narrowing a disagreement over a whole trace to a single step.
//!
//! Each party holds the vector of step commitments of its own run.  A party
//! offers up to [`MAX_STEP_CHUNKS`] evenly spaced commitments of a range;
//! the other finds the first offered commitment it does not recognize and
//! answers with the bracket around it.  Alternating shrinks the bracket by
//! a factor of the chunk count per round, until one step is left.

use vstd::prelude::*;
use vstd::pervasive::unreached;
use crate::bytes32::lemma_lex_lt_total;
use crate::machine::StepCommitment;

verus! {

/// The most commitments one dissection message carries.
pub const MAX_STEP_CHUNKS: usize = 40;

/// Whether two step commitments carry the same step and bytes.
pub open spec fn sc_same(a: StepCommitment, b: StepCommitment) -> bool {
    a.step_num == b.step_num && a.commitment@ == b.commitment@
}

/// Whether the two traces agree up to step `d` and disagree from it on: the
/// shape of a trace whose suffix one party forged.
pub open spec fn divergence_at(a: &StepDiffFinder, b: &StepDiffFinder, d: int) -> bool {
    &&& 1 <= d < a.commitments().len()
    &&& forall|i: int|
        0 <= i < d ==> sc_same(#[trigger] a.commitments()[i], b.commitments()[i])
    &&& forall|i: int|
        d <= i < a.commitments().len() ==> !sc_same(
            #[trigger] a.commitments()[i],
            b.commitments()[i],
        )
}

/// Two traces have at most one divergence point, so the step
/// [`run_dissection`] returns is the only one its contract admits.
pub proof fn lemma_divergence_unique(a: &StepDiffFinder, b: &StepDiffFinder, d1: int, d2: int)
    requires
        divergence_at(a, b, d1),
        divergence_at(a, b, d2),
    ensures
        d1 == d2,
{
    if d1 < d2 {
        assert(sc_same(a.commitments()[d1], b.commitments()[d1]));
    }
    if d2 < d1 {
        assert(sc_same(a.commitments()[d2], b.commitments()[d2]));
    }
}

/// One party's view of a run: its full, ordered vector of step commitments.
pub struct StepDiffFinder {
    step_commitments: Vec<StepCommitment>,
}

impl StepDiffFinder {
    /// The commitments the finder was built over.
    pub closed spec fn commitments(&self) -> Seq<StepCommitment> {
        self.step_commitments@
    }

    /// The commitments are strictly ascending, and carry 32-byte words.
    pub open spec fn sorted(&self) -> bool {
        &&& forall|p: int, q: int|
            0 <= p < q < self.commitments().len() ==> (#[trigger] self.commitments()[p]).spec_lt(
                #[trigger] self.commitments()[q],
            )
        &&& forall|i: int|
            0 <= i < self.commitments().len() ==> (
            #[trigger] self.commitments()[i]).commitment@.len() == 32
    }

    /// Whether some held commitment equals `sc`.
    pub open spec fn has(&self, sc: StepCommitment) -> bool {
        exists|j: int|
            0 <= j < self.commitments().len() && sc_same(#[trigger] self.commitments()[j], sc)
    }

    /// The commitment at index `i` is labelled step `i`, as a run from step
    /// zero produces them.
    pub open spec fn indexed(&self) -> bool {
        forall|i: int|
            0 <= i < self.commitments().len() ==> (#[trigger] self.commitments()[i]).step_num == i
    }

    /// How many commitments the finder holds.
    pub fn trace_len(&self) -> (r: usize)
        ensures
            r == self.commitments().len(),
    {
        self.step_commitments.len()
    }

    /// A finder over an ordered commitment vector, as a run produces it.
    pub fn new(step_commitments: Vec<StepCommitment>) -> (r: Self)
        requires
            forall|p: int, q: int|
                0 <= p < q < step_commitments@.len() ==> (
                #[trigger] step_commitments@[p]).spec_lt(#[trigger] step_commitments@[q]),
        ensures
            r.commitments() == step_commitments@,
            r.sorted(),
    {
        let n = step_commitments.len();
        let mut i: usize = 0;
        while i < n
            invariant
                0 <= i <= n,
                n == step_commitments@.len(),
                forall|j: int|
                    0 <= j < i ==> (#[trigger] step_commitments@[j]).commitment@.len() == 32,
            decreases n - i,
        {
            let c = &step_commitments[i];
            proof {
                use_type_invariant(&c.commitment);
            }
            i = i + 1;
        }
        Self { step_commitments }
    }

    /// Whether `sc` is among the held commitments, by binary search.
    fn contains(&self, sc: &StepCommitment) -> (r: bool)
        requires
            self.sorted(),
        ensures
            r == self.has(*sc),
    {
        let mut lo: usize = 0;
        let mut hi: usize = self.step_commitments.len();
        while lo < hi
            invariant
                0 <= lo <= hi <= self.commitments().len(),
                self.sorted(),
                forall|i: int|
                    0 <= i < lo ==> (#[trigger] self.commitments()[i]).spec_lt(*sc),
                forall|i: int|
                    hi <= i < self.commitments().len() ==> sc.spec_lt(
                        #[trigger] self.commitments()[i],
                    ),
            decreases hi - lo,
        {
            let mid = lo + (hi - lo) / 2;
            let c = &self.step_commitments[mid];
            proof {
                use_type_invariant(&sc.commitment);
            }
            if c.lt(sc) {
                proof {
                    assert forall|i: int| 0 <= i < mid + 1 implies (
                    #[trigger] self.commitments()[i]).spec_lt(*sc) by {
                        if i < mid {
                            crate::machine::lemma_sc_lt_trans(
                                self.commitments()[i],
                                self.commitments()[mid as int],
                                *sc,
                            );
                        }
                    }
                }
                lo = mid + 1;
            } else if sc.lt(c) {
                proof {
                    assert forall|i: int|
                        mid <= i < self.commitments().len() implies sc.spec_lt(
                        #[trigger] self.commitments()[i],
                    ) by {
                        if i > mid {
                            crate::machine::lemma_sc_lt_trans(
                                *sc,
                                self.commitments()[mid as int],
                                self.commitments()[i],
                            );
                        }
                    }
                }
                hi = mid;
            } else {
                proof {
                    use_type_invariant(&c.commitment);
                    use_type_invariant(&sc.commitment);
                    lemma_lex_lt_total(c.commitment@, sc.commitment@);
                    assert(sc_same(self.commitments()[mid as int], *sc));
                }
                return true;
            }
        }
        proof {
            assert forall|j: int|
                0 <= j < self.commitments().len() implies !sc_same(
                #[trigger] self.commitments()[j],
                *sc,
            ) by {
                if sc_same(self.commitments()[j], *sc) {
                    lemma_lex_lt_total(self.commitments()[j].commitment@, sc.commitment@);
                }
            }
        }
        false
    }

    /// Bracket the first commitment of `step_commitments` that this party
    /// does not recognize.  With fewer offers than a full message the
    /// dispute has narrowed to that single commitment; otherwise the
    /// commitment just before it closes the bracket.
    pub fn diff_step_range(&self, step_commitments: &Vec<StepCommitment>) -> (r: (
        StepCommitment,
        StepCommitment,
    ))
        requires
            self.sorted(),
            exists|i: int|
                0 <= i < step_commitments@.len() && !self.has(#[trigger] step_commitments@[i]),
            step_commitments@.len() >= MAX_STEP_CHUNKS ==> self.has(step_commitments@[0]),
        ensures
            exists|i: int|
                {
                    &&& 0 <= i < step_commitments@.len()
                    &&& !self.has(#[trigger] step_commitments@[i])
                    &&& forall|j: int| 0 <= j < i ==> self.has(#[trigger] step_commitments@[j])
                    &&& sc_same(r.1, step_commitments@[i])
                    &&& if step_commitments@.len() < MAX_STEP_CHUNKS {
                        sc_same(r.0, step_commitments@[i])
                    } else {
                        i >= 1 && sc_same(r.0, step_commitments@[i - 1])
                    }
                },
    {
        let n = step_commitments.len();
        let mut idx: usize = 0;
        while idx < n
            invariant
                0 <= idx <= n,
                n == step_commitments@.len(),
                self.sorted(),
                exists|i: int|
                    0 <= i < step_commitments@.len() && !self.has(#[trigger] step_commitments@[i]),
                step_commitments@.len() >= MAX_STEP_CHUNKS ==> self.has(step_commitments@[0]),
                forall|j: int| 0 <= j < idx ==> self.has(#[trigger] step_commitments@[j]),
            decreases n - idx,
        {
            if !self.contains(&step_commitments[idx]) {
                proof {
                    assert(!self.has(step_commitments@[idx as int]));
                    assert(forall|j: int|
                        0 <= j < idx ==> self.has(#[trigger] step_commitments@[j]));
                    if n >= MAX_STEP_CHUNKS {
                        assert(idx != 0);
                    }
                }
                let last_diff_step = step_commitments[idx].clone();
                if n < MAX_STEP_CHUNKS {
                    let twin = step_commitments[idx].clone();
                    return (twin, last_diff_step);
                }
                let prev = step_commitments[idx - 1].clone();
                return (prev, last_diff_step);
            }
            idx = idx + 1;
        }
        proof {
            let i0 = choose|i: int|
                0 <= i < step_commitments@.len() && !self.has(#[trigger] step_commitments@[i]);
            assert(self.has(step_commitments@[i0]));
        }
        unreached()
    }

    /// How many commitments a range message carries.
    pub open spec fn chunk_count(start: int, end: int) -> int {
        if end - start + 1 < MAX_STEP_CHUNKS {
            end - start + 1
        } else {
            MAX_STEP_CHUNKS as int
        }
    }

    /// The stride between offered commitments.
    pub open spec fn chunk_stride(start: int, end: int) -> int {
        (end - start) / Self::chunk_count(start, end) + 1
    }

    /// The index the `i`-th offer is taken from: evenly spaced from `start`,
    /// clipped at `end`, the last offer always being `end` itself.
    pub open spec fn chunk_pos(start: int, end: int, i: int) -> int {
        if i == Self::chunk_count(start, end) - 1 {
            end
        } else if start + i * Self::chunk_stride(start, end) < end {
            start + i * Self::chunk_stride(start, end)
        } else {
            end
        }
    }

    /// Every offer of a range message lies inside the range; the first is
    /// the range's start and the last its end.
    pub proof fn lemma_chunk_pos_bounds(start: int, end: int, i: int)
        requires
            0 <= start < end,
            0 <= i < Self::chunk_count(start, end),
        ensures
            start <= Self::chunk_pos(start, end, i) <= end,
            Self::chunk_pos(start, end, 0) == start,
            Self::chunk_pos(start, end, Self::chunk_count(start, end) - 1) == end,
            Self::chunk_stride(start, end) >= 1,
            2 <= Self::chunk_count(start, end),
    {
        let cl = Self::chunk_stride(start, end);
        let c = Self::chunk_count(start, end);
        vstd::arithmetic::div_mod::lemma_div_is_ordered(0, end - start, c);
        vstd::arithmetic::div_mod::lemma_fundamental_div_mod_converse(0, c, 0, 0);
        assert(i * cl >= 0) by (nonlinear_arith)
            requires
                i >= 0,
                cl >= 1,
        ;
        assert(0 * cl == 0) by (nonlinear_arith);
    }

    /// With fewer steps than a full message, the offers are simply every
    /// step of the range in order.
    pub proof fn lemma_chunk_pos_consecutive(start: int, end: int, j: int)
        requires
            0 <= start < end,
            end - start + 1 < MAX_STEP_CHUNKS,
            0 <= j < Self::chunk_count(start, end),
        ensures
            Self::chunk_pos(start, end, j) == start + j,
    {
        let c = Self::chunk_count(start, end);
        vstd::arithmetic::div_mod::lemma_fundamental_div_mod_converse(
            end - start,
            c,
            0,
            end - start,
        );
        assert(Self::chunk_stride(start, end) == 1);
        assert(j * 1 == j) by (nonlinear_arith);
    }

    /// One round shrinks the dispute: consecutive offers of a range message
    /// are at most two strides apart, and the stride is about a fortieth of
    /// the range.  Since [`Self::diff_step_range`] brackets the first
    /// divergence between two consecutive offers, each round of the game
    /// replaces the range `[start, end]` by one of at most
    /// `2 * ((end - start) / chunk_count + 1)` steps, until a single step
    /// remains.
    pub proof fn lemma_offers_shrink(start: int, end: int, i: int)
        requires
            0 <= start < end,
            1 <= i < Self::chunk_count(start, end),
        ensures
            start <= Self::chunk_pos(start, end, i - 1),
            Self::chunk_pos(start, end, i - 1) <= Self::chunk_pos(start, end, i),
            Self::chunk_pos(start, end, i) <= end,
            Self::chunk_pos(start, end, i) - Self::chunk_pos(start, end, i - 1) <= 2
                * Self::chunk_stride(start, end),
    {
        let c = Self::chunk_count(start, end);
        let cl = Self::chunk_stride(start, end);
        let d = end - start;
        vstd::arithmetic::div_mod::lemma_fundamental_div_mod(d, c);
        vstd::arithmetic::div_mod::lemma_mod_bound(d, c);
        assert(c * cl == c * (d / c) + c) by (nonlinear_arith)
            requires
                cl == d / c + 1,
        ;
        assert(c * (d / c) == d - d % c);
        assert(d < c * cl);
        assert(i * cl == (i - 1) * cl + cl) by (nonlinear_arith);
        assert((i - 1) * cl >= 0) by (nonlinear_arith)
            requires
                i >= 1,
                cl >= 1,
        ;
        if i == c - 1 {
            assert((c - 2) * cl == c * cl - 2 * cl) by (nonlinear_arith);
        } else {
            assert(i * cl <= (c - 2) * cl) by (nonlinear_arith)
                requires
                    i <= c - 2,
                    cl >= 1,
            ;
        }
    }

    /// Offer up to [`MAX_STEP_CHUNKS`] evenly spaced commitments spanning
    /// `[start, end]`, the endpoint always included.
    pub fn step_range(&self, start: usize, end: usize) -> (r: Vec<StepCommitment>)
        requires
            start < end,
            end < self.commitments().len(),
        ensures
            r@.len() == Self::chunk_count(start as int, end as int),
            forall|i: int|
                0 <= i < r@.len() ==> sc_same(
                    #[trigger] r@[i],
                    self.commitments()[Self::chunk_pos(start as int, end as int, i)],
                ),
    {
        let total = self.step_commitments.len();
        assert(end < total);
        let chunks: usize = if end - start + 1 < MAX_STEP_CHUNKS {
            end - start + 1
        } else {
            MAX_STEP_CHUNKS
        };
        let chunk_len: usize = (end - start) / chunks + 1;
        let mut position: usize = start;
        let ghost mut stride_total: int = 0;
        let mut range: Vec<StepCommitment> = Vec::new();
        let mut idx: usize = 0;
        while idx < chunks
            invariant
                0 <= idx <= chunks,
                start < end < self.commitments().len(),
                chunks == Self::chunk_count(start as int, end as int),
                chunk_len == Self::chunk_stride(start as int, end as int),
                range@.len() == idx,
                stride_total == idx * chunk_len,
                idx < chunks ==> position == if start + stride_total < end {
                    start + stride_total
                } else {
                    end as int
                },
                forall|i: int|
                    0 <= i < idx ==> sc_same(
                        #[trigger] range@[i],
                        self.commitments()[Self::chunk_pos(start as int, end as int, i)],
                    ),
            decreases chunks - idx,
        {
            if idx == chunks - 1 {
                position = end;
            }
            range.push(self.step_commitments[position].clone());
            proof {
                assert(stride_total + chunk_len == (idx + 1) * chunk_len) by (nonlinear_arith)
                    requires
                        stride_total == idx * chunk_len,
                ;
            }
            if end - position > chunk_len {
                position = position + chunk_len;
            } else {
                position = end;
            }
            proof {
                stride_total = stride_total + chunk_len;
            }
            idx = idx + 1;
        }
        range
    }
}

/// Play the whole dissection game over two traces of the divergence shape:
/// the producer opens with a range message over the full trace, the parties
/// alternate bracketing and re-chunking, and the game ends on a single
/// commitment, which carries exactly the step the traces first diverge at.
/// Each round shrinks the bracket per [`StepDiffFinder::lemma_offers_shrink`].
pub fn run_dissection(producer: &StepDiffFinder, challenger: &StepDiffFinder) -> (r:
    StepCommitment)
    requires
        producer.sorted(),
        challenger.sorted(),
        producer.indexed(),
        challenger.indexed(),
        producer.commitments().len() == challenger.commitments().len(),
        2 <= producer.commitments().len(),
        exists|dd: int| divergence_at(producer, challenger, dd),
    ensures
        divergence_at(producer, challenger, r.step_num as int),
{
    let n = producer.trace_len();
    let ghost d = choose|dd: int| divergence_at(producer, challenger, dd);
    let mut offers = producer.step_range(0, n - 1);
    // The challenger answers the producer's opening message.
    let mut analyzer_is_producer = false;
    let ghost mut s: int = 0;
    let ghost mut e: int = n - 1;
    loop
        invariant
            producer.sorted(),
            challenger.sorted(),
            producer.indexed(),
            challenger.indexed(),
            producer.commitments().len() == challenger.commitments().len(),
            n == producer.commitments().len(),
            2 <= n,
            divergence_at(producer, challenger, d),
            0 <= s < e < n,
            s < d <= e,
            offers@.len() == StepDiffFinder::chunk_count(s, e),
            forall|j: int|
                0 <= j < offers@.len() ==> sc_same(
                    #[trigger] offers@[j],
                    (if analyzer_is_producer {
                        challenger.commitments()
                    } else {
                        producer.commitments()
                    })[StepDiffFinder::chunk_pos(s, e, j)],
                ),
        decreases e - s,
    {
        let analyzer: &StepDiffFinder = if analyzer_is_producer {
            producer
        } else {
            challenger
        };
        let ghost sender = if analyzer_is_producer {
            challenger.commitments()
        } else {
            producer.commitments()
        };
        proof {
            // The last offer is the sender's commitment at the disagreed
            // end, which the analyzer cannot hold; the first is at the
            // agreed start, which it must.
            let c = StepDiffFinder::chunk_count(s, e);
            StepDiffFinder::lemma_chunk_pos_bounds(s, e, c - 1);
            StepDiffFinder::lemma_chunk_pos_bounds(s, e, 0);
            assert(sc_same(offers@[c - 1], sender[e]));
            if analyzer.has(offers@[c - 1]) {
                let k = choose|k: int|
                    0 <= k < analyzer.commitments().len() && sc_same(
                        #[trigger] analyzer.commitments()[k],
                        offers@[c - 1],
                    );
                assert(k == e);
                assert(sc_same(producer.commitments()[e], challenger.commitments()[e]));
            }
            assert(!analyzer.has(offers@[c - 1]));
            assert(sc_same(analyzer.commitments()[s], offers@[0]));
            assert(analyzer.has(offers@[0]));
        }
        let (start, end) = analyzer.diff_step_range(&offers);
        let ghost i = choose|i: int|
            {
                &&& 0 <= i < offers@.len()
                &&& !analyzer.has(#[trigger] offers@[i])
                &&& forall|j: int| 0 <= j < i ==> analyzer.has(#[trigger] offers@[j])
                &&& sc_same(end, offers@[i])
                &&& if offers@.len() < MAX_STEP_CHUNKS {
                    sc_same(start, offers@[i])
                } else {
                    i >= 1 && sc_same(start, offers@[i - 1])
                }
            };
        proof {
            // The bracketed end is a step the parties disagree on.
            StepDiffFinder::lemma_chunk_pos_bounds(s, e, i);
            let pos_i = StepDiffFinder::chunk_pos(s, e, i);
            if sc_same(producer.commitments()[pos_i], challenger.commitments()[pos_i]) {
                assert(sc_same(analyzer.commitments()[pos_i], offers@[i]));
                assert(analyzer.has(offers@[i]));
            }
            assert(pos_i >= d);
            assert(end.step_num == pos_i);
        }
        if offers.len() < MAX_STEP_CHUNKS {
            // Every step of the bracket was offered, so the first offer the
            // analyzer does not hold is exactly the first divergence.
            proof {
                StepDiffFinder::lemma_chunk_pos_consecutive(s, e, i);
                assert(i >= 1) by {
                    StepDiffFinder::lemma_chunk_pos_bounds(s, e, 0);
                    if i == 0 {
                        assert(sc_same(analyzer.commitments()[s], offers@[0]));
                        assert(analyzer.has(offers@[0]));
                    }
                }
                StepDiffFinder::lemma_chunk_pos_consecutive(s, e, i - 1);
                let prev = s + i - 1;
                assert(analyzer.has(offers@[i - 1]));
                let k = choose|k: int|
                    0 <= k < analyzer.commitments().len() && sc_same(
                        #[trigger] analyzer.commitments()[k],
                        offers@[i - 1],
                    );
                assert(k == prev);
                assert(sc_same(producer.commitments()[prev], challenger.commitments()[prev]));
                assert(prev < d);
                assert(s + i == d);
                assert(start.step_num == d);
            }
            return start;
        }
        proof {
            // A full message: the analyzer recognized the offer before the
            // first unrecognized one, so the new bracket is agreed at its
            // start, disagreed at its end, and strictly smaller.
            let c = StepDiffFinder::chunk_count(s, e);
            let pos_i = StepDiffFinder::chunk_pos(s, e, i);
            let pos_p = StepDiffFinder::chunk_pos(s, e, i - 1);
            StepDiffFinder::lemma_offers_shrink(s, e, i);
            assert(analyzer.has(offers@[i - 1]));
            let k = choose|k: int|
                0 <= k < analyzer.commitments().len() && sc_same(
                    #[trigger] analyzer.commitments()[k],
                    offers@[i - 1],
                );
            assert(k == pos_p);
            assert(sc_same(producer.commitments()[pos_p], challenger.commitments()[pos_p]));
            assert(pos_p < d);
            assert(start.step_num == pos_p);
            // The bracket ends cannot coincide: one is held, the other not.
            if pos_p == pos_i {
                assert(sc_same(offers@[i - 1], offers@[i]));
                assert(analyzer.has(offers@[i]));
            }
            assert(pos_p < pos_i);
            // The bracket shrinks: two strides are less than a full range.
            let cl = StepDiffFinder::chunk_stride(s, e);
            assert(offers@.len() == c);
            assert(c == MAX_STEP_CHUNKS);
            assert(e - s >= 39);
            vstd::arithmetic::div_mod::lemma_fundamental_div_mod(e - s, 40);
            vstd::arithmetic::div_mod::lemma_mod_bound(e - s, 40);
            assert(2 * cl < e - s);
            assert(pos_i - pos_p < e - s);
        }
        let new_start = start.step_num as usize;
        let new_end = end.step_num as usize;
        proof {
            s = start.step_num as int;
            e = end.step_num as int;
        }
        offers = analyzer.step_range(new_start, new_end);
        analyzer_is_producer = !analyzer_is_producer;
    }
}

} // verus!
