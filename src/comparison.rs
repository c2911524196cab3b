use vstd::prelude::*;

verus! {

/// How slot scores are turned into a decision.
#[derive(Debug, Clone, Copy, PartialEq, Eq, Structural)]
pub enum DecisionMode {
    /// Allow only when every slot meets its threshold.
    MinMode,
    /// Reserved; decides exactly as `MinMode` does.
    WeightedAvgMode,
}

/// The mode that a wire code names: 0 is `MinMode`, anything else is
/// `WeightedAvgMode`.
pub open spec fn mode_of_code(value: u8) -> DecisionMode {
    if value == 0 {
        DecisionMode::MinMode
    } else {
        DecisionMode::WeightedAvgMode
    }
}

impl From<u8> for DecisionMode {
    fn from(value: u8) -> DecisionMode {
        if value == 0 {
            DecisionMode::MinMode
        } else {
            DecisionMode::WeightedAvgMode
        }
    }
}

impl vstd::std_specs::convert::FromSpecImpl<u8> for DecisionMode {
    open spec fn obeys_from_spec() -> bool {
        true
    }

    open spec fn from_spec(v: u8) -> DecisionMode {
        mode_of_code(v)
    }
}

/// Whether the `f32` with bits `b` is a NaN.
pub open spec fn is_nan_bits(b: u32) -> bool {
    (b & 0x7f80_0000u32) == 0x7f80_0000u32 && (b & 0x007f_ffffu32) != 0
}

/// A number that orders non-NaN `f32` bit patterns as their values are
/// ordered: the magnitude bits, negated for a set sign bit, so that `+0.0`
/// and `-0.0` are equal.
pub open spec fn f32_ordinal(b: u32) -> int {
    if (b & 0x8000_0000u32) != 0 {
        -((b & 0x7fff_ffffu32) as int)
    } else {
        (b & 0x7fff_ffffu32) as int
    }
}

/// `a >= b` on the `f32` values with bits `a` and `b`: false if either is NaN.
pub open spec fn f32_ge(a: u32, b: u32) -> bool {
    !is_nan_bits(a) && !is_nan_bits(b) && f32_ordinal(a) >= f32_ordinal(b)
}

/// Whether `x` replaces `best` as the maximum: `x` is a number and `best` is
/// NaN or smaller.
pub open spec fn beats(x: u32, best: u32) -> bool {
    !is_nan_bits(x) && (is_nan_bits(best) || f32_ordinal(x) > f32_ordinal(best))
}

/// The score of one slot from its per-anchor similarities: 0.0 when there
/// is no anchor, else the largest, the first one on ties.
pub open spec fn slot_score(sims: Seq<u32>) -> u32
    decreases sims.len(),
{
    if sims.len() == 0 {
        0
    } else if sims.len() == 1 {
        sims[0]
    } else {
        let best = slot_score(sims.drop_last());
        if beats(sims.last(), best) {
            sims.last()
        } else {
            best
        }
    }
}

/// ALLOW (1) when every score meets its threshold, else BLOCK (0). Both modes
/// decide alike.
pub open spec fn decision_of(scores: Seq<u32>, thresholds: Seq<u32>) -> u8 {
    if forall|i: int| 0 <= i < 4 ==> f32_ge(#[trigger] scores[i], thresholds[i]) {
        1
    } else {
        0
    }
}

fn is_nan(b: u32) -> (r: bool)
    ensures
        r == is_nan_bits(b),
{
    (b & 0x7f80_0000u32) == 0x7f80_0000u32 && (b & 0x007f_ffffu32) != 0
}

fn ordinal(b: u32) -> (r: i64)
    ensures
        r == f32_ordinal(b),
{
    if (b & 0x8000_0000u32) != 0 {
        -((b & 0x7fff_ffffu32) as i64)
    } else {
        (b & 0x7fff_ffffu32) as i64
    }
}

/// `a >= b` on the `f32` values with bits `a` and `b`.
pub fn f32_bits_ge(a: u32, b: u32) -> (r: bool)
    ensures
        r == f32_ge(a, b),
{
    !is_nan(a) && !is_nan(b) && ordinal(a) >= ordinal(b)
}

/// The score of one slot: the largest per-anchor similarity, 0.0 when there
/// is none.
pub fn max_anchor_similarity(sims: &Vec<u32>) -> (r: u32)
    ensures
        r == slot_score(sims@),
        sims@.len() > 0 ==> sims@.contains(r),
        forall|i: int|
            0 <= i < sims@.len() && !is_nan_bits(#[trigger] sims@[i]) ==> !is_nan_bits(r)
                && f32_ordinal(r) >= f32_ordinal(sims@[i]),
{
    if sims.len() == 0 {
        return 0;
    }
    let mut best = sims[0];
    let mut i: usize = 1;
    assert(sims@.take(1).drop_last() =~= Seq::<u32>::empty());
    while i < sims.len()
        invariant
            1 <= i <= sims@.len(),
            best == slot_score(sims@.take(i as int)),
            sims@.contains(best),
            forall|j: int|
                0 <= j < i && !is_nan_bits(#[trigger] sims@[j]) ==> !is_nan_bits(best)
                    && f32_ordinal(best) >= f32_ordinal(sims@[j]),
        decreases sims@.len() - i,
    {
        let x = sims[i];
        assert(sims@.take(i + 1).drop_last() =~= sims@.take(i as int));
        assert(sims@.take(i + 1).last() == x);
        if !is_nan(x) && (is_nan(best) || ordinal(x) > ordinal(best)) {
            best = x;
        }
        i = i + 1;
    }
    assert(sims@.take(i as int) =~= sims@);
    best
}

/// The decision and the four slot scores.
#[derive(Debug, Clone, Copy, PartialEq, Eq)]
pub struct ComparisonResult {
    /// 0 for BLOCK, 1 for ALLOW.
    pub decision: u8,
    /// Scores of the action, resource, data and risk slots, as `f32` bits.
    pub slice_similarities: [u32; 4],
}

/// Decides from the per-anchor similarities of each slot (action, resource,
/// data, risk; one value per valid anchor) and the per-slot thresholds.
pub fn compare_similarities(
    slot_sims: &Vec<Vec<u32>>,
    thresholds: [u32; 4],
    decision_mode: DecisionMode,
) -> (r: ComparisonResult)
    requires
        slot_sims@.len() == 4,
    ensures
        forall|i: int| 0 <= i < 4 ==> r.slice_similarities[i] == slot_score(#[trigger] slot_sims@[i]@),
        r.decision == decision_of(r.slice_similarities@, thresholds@),
{
    let s0 = max_anchor_similarity(&slot_sims[0]);
    let s1 = max_anchor_similarity(&slot_sims[1]);
    let s2 = max_anchor_similarity(&slot_sims[2]);
    let s3 = max_anchor_similarity(&slot_sims[3]);
    let scores: [u32; 4] = [s0, s1, s2, s3];
    let all_pass = f32_bits_ge(s0, thresholds[0]) && f32_bits_ge(s1, thresholds[1])
        && f32_bits_ge(s2, thresholds[2]) && f32_bits_ge(s3, thresholds[3]);
    let decision: u8 = match decision_mode {
        DecisionMode::MinMode => if all_pass {
            1
        } else {
            0
        },
        DecisionMode::WeightedAvgMode => if all_pass {
            1
        } else {
            0
        },
    };
    proof {
        assert(scores@[0] == s0 && scores@[1] == s1 && scores@[2] == s2 && scores@[3] == s3);
        if !all_pass {
            if !f32_ge(s0, thresholds[0]) {
                assert(!f32_ge(scores@[0], thresholds@[0]));
            } else if !f32_ge(s1, thresholds[1]) {
                assert(!f32_ge(scores@[1], thresholds@[1]));
            } else if !f32_ge(s2, thresholds[2]) {
                assert(!f32_ge(scores@[2], thresholds@[2]));
            } else {
                assert(!f32_ge(scores@[3], thresholds@[3]));
            }
        }
    }
    ComparisonResult { decision, slice_similarities: scores }
}

/// A rule with no valid anchor in any slot blocks every intent whose
/// thresholds are all positive numbers: each slot then scores 0.0.
pub proof fn lemma_empty_rule_blocks(thresholds: Seq<u32>)
    requires
        thresholds.len() == 4,
        forall|i: int|
            0 <= i < 4 ==> !is_nan_bits(#[trigger] thresholds[i]) && f32_ordinal(thresholds[i]) > 0,
    ensures
        decision_of(Seq::new(4, |i: int| slot_score(Seq::<u32>::empty())), thresholds) == 0,
{
    let scores = Seq::new(4, |i: int| slot_score(Seq::<u32>::empty()));
    assert(scores[0] == 0u32);
    assert(f32_ordinal(0u32) == 0) by (bit_vector);
    assert(!f32_ge(scores[0], thresholds[0]));
}

} // verus!
