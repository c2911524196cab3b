use bridge::comparison::{compare_similarities, f32_bits_ge, max_anchor_similarity, DecisionMode};
use bridge::rule_vector::{convert_anchor_block, RuleVector, SLOT_VALUES};

fn cosine(a: &[f32], b: &[f32]) -> f32 {
    let dot: f32 = a.iter().zip(b.iter()).map(|(x, y)| x * y).sum();
    let norm_a = a.iter().map(|x| x * x).sum::<f32>().sqrt();
    let norm_b = b.iter().map(|x| x * x).sum::<f32>().sqrt();
    if norm_a < 1e-8 || norm_b < 1e-8 {
        0.0
    } else {
        (dot / (norm_a * norm_b)).min(1.0).max(-1.0)
    }
}

fn slot_sims(intent_slice: &[f32], anchors: &[u32], count: usize) -> Vec<u32> {
    (0..count)
        .map(|row| {
            let anchor: Vec<f32> = anchors[row * 32..row * 32 + 32]
                .iter()
                .map(|b| f32::from_bits(*b))
                .collect();
            cosine(intent_slice, &anchor).to_bits()
        })
        .collect()
}

fn all_slot_sims(intent: &[f32; 128], rv: &RuleVector) -> Vec<Vec<u32>> {
    vec![
        slot_sims(&intent[0..32], &rv.action_anchors, rv.action_count),
        slot_sims(&intent[32..64], &rv.resource_anchors, rv.resource_count),
        slot_sims(&intent[64..96], &rv.data_anchors, rv.data_count),
        slot_sims(&intent[96..128], &rv.risk_anchors, rv.risk_count),
    ]
}

fn filled(v: f32) -> Vec<u32> {
    vec![v.to_bits(); SLOT_VALUES]
}

#[test]
fn test_max_anchor_similarity_empty() {
    let intent = [1.0f32; 32];
    let anchors = filled(0.0);
    let sims = slot_sims(&intent, &anchors, 0);
    let result = f32::from_bits(max_anchor_similarity(&sims));
    assert_eq!(result, 0.0, "Empty anchor set should fail-closed");
}

#[test]
fn test_max_anchor_similarity_single() {
    let intent = [1.0f32; 32];
    let mut anchors = filled(0.0);
    for v in anchors.iter_mut().take(32) {
        *v = 1.0f32.to_bits();
    }
    let sims = slot_sims(&intent, &anchors, 1);
    let result = f32::from_bits(max_anchor_similarity(&sims));
    assert!((result - 1.0).abs() < 0.01, "Expected ~1.0, got {}", result);
}

#[test]
fn test_decision_mode_min_all_pass() {
    let intent = [0.9f32; 128];
    let rule_vector = RuleVector {
        action_anchors: filled(1.0),
        action_count: 1,
        resource_anchors: filled(1.0),
        resource_count: 1,
        data_anchors: filled(1.0),
        data_count: 1,
        risk_anchors: filled(1.0),
        risk_count: 1,
    };
    let thresholds = [0.85f32.to_bits(); 4];
    let result = compare_similarities(
        &all_slot_sims(&intent, &rule_vector),
        thresholds,
        DecisionMode::MinMode,
    );
    assert_eq!(result.decision, 1, "All slices should pass");
}

#[test]
fn test_decision_mode_min_one_fail() {
    let mut intent = [1.0f32; 128];
    intent[0..32].fill(-1.0);
    let mut action_anchors = filled(0.0);
    for v in action_anchors.iter_mut().take(32) {
        *v = 1.0f32.to_bits();
    }
    let rule_vector = RuleVector {
        action_anchors,
        action_count: 1,
        resource_anchors: filled(1.0),
        resource_count: 1,
        data_anchors: filled(1.0),
        data_count: 1,
        risk_anchors: filled(1.0),
        risk_count: 1,
    };
    let thresholds = [0.85f32.to_bits(); 4];
    let result = compare_similarities(
        &all_slot_sims(&intent, &rule_vector),
        thresholds,
        DecisionMode::MinMode,
    );
    assert_eq!(result.decision, 0, "Should block when one slice fails");
    let s0 = f32::from_bits(result.slice_similarities[0]);
    assert!((s0 + 1.0).abs() < 0.01, "slot 0 should score about -1, got {}", s0);
    for i in 1..4 {
        let s = f32::from_bits(result.slice_similarities[i]);
        assert!((s - 1.0).abs() < 0.01);
    }
}

#[test]
fn weighted_mode_decides_as_min_mode() {
    let sims = vec![vec![0.5f32.to_bits()], vec![0.9f32.to_bits()], vec![0.9f32.to_bits()], vec![0.9f32.to_bits()]];
    let thresholds = [0.85f32.to_bits(); 4];
    let a = compare_similarities(&sims, thresholds, DecisionMode::MinMode);
    let b = compare_similarities(&sims, thresholds, DecisionMode::WeightedAvgMode);
    assert_eq!(a, b);
    assert_eq!(a.decision, 0);
}

#[test]
fn empty_rule_vector_blocks() {
    let intent = [0.3f32; 128];
    let rv = RuleVector::default();
    let result = compare_similarities(&all_slot_sims(&intent, &rv), [0.1f32.to_bits(); 4], DecisionMode::MinMode);
    assert_eq!(result.decision, 0);
    assert_eq!(result.slice_similarities, [0u32; 4]);
}

#[test]
fn max_takes_largest_and_ignores_nan() {
    let sims = vec![0.2f32.to_bits(), f32::NAN.to_bits(), 0.7f32.to_bits(), (-0.9f32).to_bits()];
    assert_eq!(f32::from_bits(max_anchor_similarity(&sims)), 0.7);
    let negatives = vec![(-0.8f32).to_bits(), (-0.3f32).to_bits()];
    assert_eq!(f32::from_bits(max_anchor_similarity(&negatives)), -0.3);
}

#[test]
fn float_order_on_bits() {
    assert!(f32_bits_ge(1.0f32.to_bits(), 0.85f32.to_bits()));
    assert!(!f32_bits_ge(0.5f32.to_bits(), 0.85f32.to_bits()));
    assert!(f32_bits_ge((-0.0f32).to_bits(), 0.0f32.to_bits()));
    assert!(f32_bits_ge((-1.0f32).to_bits(), (-2.0f32).to_bits()));
    assert!(!f32_bits_ge(f32::NAN.to_bits(), 0.0f32.to_bits()));
    assert!(!f32_bits_ge(0.0f32.to_bits(), f32::NAN.to_bits()));
    assert!(f32_bits_ge(f32::INFINITY.to_bits(), f32::MAX.to_bits()));
}

#[test]
fn decision_mode_from_code() {
    assert_eq!(DecisionMode::from(0u8), DecisionMode::MinMode);
    assert_eq!(DecisionMode::from(1u8), DecisionMode::WeightedAvgMode);
    assert_eq!(DecisionMode::from(7u8), DecisionMode::WeightedAvgMode);
}

fn rows(n: usize, width: usize) -> Vec<Vec<u32>> {
    (0..n).map(|r| vec![r as u32; width]).collect()
}

#[test]
fn anchor_block_of_sixteen_rows_is_flattened() {
    let (block, count) = convert_anchor_block("action", &rows(16, 32), 3).unwrap();
    assert_eq!(count, 3);
    assert_eq!(block.len(), SLOT_VALUES);
    assert_eq!(block[0], 0);
    assert_eq!(block[32], 1);
    assert_eq!(block[511], 15);
}

#[test]
fn anchor_block_of_seventeen_rows_is_rejected() {
    assert_eq!(
        convert_anchor_block("action", &rows(17, 32), 16),
        Err(bridge::error::BridgeError::Serialization)
    );
}

#[test]
fn anchor_block_with_too_few_rows_is_rejected() {
    assert!(convert_anchor_block("data", &rows(5, 32), 8).is_err());
    assert!(convert_anchor_block("data", &rows(16, 32), 17).is_err());
    assert!(convert_anchor_block("risk", &rows(16, 31), 1).is_err());
}
