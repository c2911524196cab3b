use bridge::bridge::{Bridge, StorageConfig};
use bridge::codec::{push_rule_vector, push_string, read_rule_vector, read_string};
use bridge::comparison::DecisionMode;
use bridge::error::BridgeError;
use bridge::refresh::{RefreshScheduler, RefreshStats, SchedulerConfig};
use bridge::rule_vector::{RuleVector, SLOT_VALUES};
use bridge::table::RuleFamilyTable;
use bridge::types::{LayerId, RuleDescriptor, RuleFamilyId};
use bridge::warm_storage::WarmStorage;

fn test_config() -> StorageConfig {
    StorageConfig {
        warm_storage_path: "warm.bin".to_string(),
        cold_storage_path: "cold.db".to_string(),
    }
}

fn create_test_bridge() -> Result<Bridge, BridgeError> {
    Bridge::new(test_config(), None)
}

fn rule(id: &str, family: RuleFamilyId, agent: Option<&str>) -> RuleDescriptor {
    RuleDescriptor {
        rule_id: id.to_string(),
        family_id: family,
        agent_id: agent.map(|a| a.to_string()),
        priority: 0,
        thresholds: [0.85f32.to_bits(); 4],
        decision_mode: DecisionMode::MinMode,
    }
}

fn ones_vector(seed: u32) -> RuleVector {
    RuleVector {
        action_anchors: vec![1.0f32.to_bits(); SLOT_VALUES],
        action_count: 1,
        resource_anchors: vec![1.0f32.to_bits(); SLOT_VALUES],
        resource_count: 1,
        data_anchors: vec![1.0f32.to_bits(); SLOT_VALUES],
        data_count: 1,
        risk_anchors: vec![seed; SLOT_VALUES],
        risk_count: 1,
    }
}

#[test]
fn test_bridge_init_with_storage() {
    let bridge = create_test_bridge().unwrap();
    assert_eq!(bridge.table_count(), 14);
    let storage_stats = bridge.storage_stats();
    assert_eq!(storage_stats.hot_rules, 0);
}

#[test]
fn test_hot_cache_lookup_empty() {
    let mut bridge = create_test_bridge().unwrap();
    let result = bridge.get_rule_anchors("non-existent-rule");
    assert!(result.is_none());
}

#[test]
fn test_warm_storage_reload_on_startup() {
    let image = {
        let bridge = Bridge::new(test_config(), None).unwrap();
        let stats = bridge.storage_stats();
        assert_eq!(stats.hot_rules, 0);
        bridge.warm_image().clone()
    };
    let bridge = Bridge::new(test_config(), Some(image)).unwrap();
    let stats = bridge.storage_stats();
    assert_eq!(stats.hot_rules, 0);
}

#[test]
fn test_storage_stats_reflects_hot_cache() {
    let bridge = create_test_bridge().unwrap();
    let stats = bridge.storage_stats();
    assert_eq!(stats.hot_rules, 0);
    assert_eq!(stats.warm_rules, 0);
    assert_eq!(stats.cold_rules, 0);
}

#[test]
fn test_storage_config_defaults() {
    let config = StorageConfig::default();
    assert_eq!(config.warm_storage_path, "./var/data/warm_storage.bin");
    assert_eq!(config.cold_storage_path, "./var/data/cold_storage.db");
}

#[test]
fn test_scheduler_config_defaults() {
    let config = SchedulerConfig::default();
    assert!(config.enabled);
    assert_eq!(config.refresh_interval_secs(), 6 * 60 * 60);
}

#[test]
fn test_scheduler_creation() {
    let config = SchedulerConfig::default();
    assert!(config.enabled);
    assert_eq!(config.refresh_interval_secs(), 21600);
}

#[test]
fn test_scheduler_config_custom() {
    let config = SchedulerConfig { refresh_interval_ms: 3600 * 1000, enabled: false };
    assert!(!config.enabled);
    assert_eq!(config.refresh_interval_secs(), 3600);
}

#[test]
fn test_refresh_stats_creation() {
    let stats = RefreshStats { rules_refreshed: 100, duration_ms: 50, timestamp: 1234567890 };
    assert_eq!(stats.rules_refreshed, 100);
    assert_eq!(stats.duration_ms, 50);
}

#[test]
fn test_warm_storage_create_and_load() {
    let storage = WarmStorage::open(None).unwrap();
    assert!(!storage.image().is_empty());
    assert_eq!(storage.len(), 0);
}

#[test]
fn test_warm_storage_write_and_read() {
    let mut storage = WarmStorage::open(None).unwrap();
    let anchors = vec![("rule-1".to_string(), RuleVector::default())];
    storage.write_anchors(anchors).unwrap();
    let result = storage.get("rule-1").unwrap();
    assert!(result.is_some());
}

#[test]
fn test_bincode_serialization_preserves_counts() {
    let mut written = RuleVector::default();
    written.action_count = 5;
    written.resource_count = 3;
    written.data_count = 7;
    written.risk_count = 2;

    let mut serialized = Vec::new();
    push_rule_vector(&mut serialized, &written);
    let deserialized = read_rule_vector(&serialized, 0).unwrap();

    assert_eq!(written.action_count, deserialized.action_count);
    assert_eq!(written.resource_count, deserialized.resource_count);
    assert_eq!(written.data_count, deserialized.data_count);
    assert_eq!(written.risk_count, deserialized.risk_count);
}

#[test]
fn warm_encoding_matches_bincode_layout() {
    let mut v = RuleVector::default();
    v.action_anchors[0] = 1.5f32.to_bits();
    v.risk_anchors[511] = (-2.0f32).to_bits();
    v.action_count = 1;
    v.risk_count = 16;
    let mut ours = Vec::new();
    push_string(&mut ours, "rule-7");
    push_rule_vector(&mut ours, &v);

    let mut theirs = bincode::serialize(&"rule-7".to_string()).unwrap();
    for (slot, count) in [
        (&v.action_anchors, v.action_count),
        (&v.resource_anchors, v.resource_count),
        (&v.data_anchors, v.data_count),
        (&v.risk_anchors, v.risk_count),
    ] {
        let floats: Vec<f32> = slot.iter().map(|b| f32::from_bits(*b)).collect();
        for row in floats.chunks(32) {
            let row: [f32; 32] = row.try_into().unwrap();
            theirs.extend(bincode::serialize(&row).unwrap());
        }
        theirs.extend(bincode::serialize(&(count as u64)).unwrap());
    }
    assert_eq!(ours, theirs);
    assert_eq!(ours.len(), 8 + 6 + 8224);
}

#[test]
fn read_string_refuses_invalid_utf8() {
    let mut bytes = Vec::new();
    push_string(&mut bytes, "ab");
    bytes[8] = 0xff;
    assert!(read_string(&bytes, 0).is_none());
    let mut good = Vec::new();
    push_string(&mut good, "héllo");
    let (s, end) = read_string(&good, 0).unwrap();
    assert_eq!(s, "héllo");
    assert_eq!(end, good.len());
}

#[test]
fn warm_file_round_trip_keeps_every_entry() {
    let mut storage = WarmStorage::open(None).unwrap();
    let entries = vec![
        ("a".to_string(), ones_vector(1)),
        ("b".to_string(), ones_vector(2)),
        ("c".to_string(), RuleVector::default()),
    ];
    storage.write_anchors(entries.clone()).unwrap();
    assert_eq!(storage.load_anchors().unwrap(), entries);
    let reopened = WarmStorage::open(Some(storage.image().clone())).unwrap();
    assert_eq!(reopened.load_anchors().unwrap(), entries);
    assert_eq!(reopened.get("b").unwrap(), Some(ones_vector(2)));
    assert_eq!(reopened.get("zzz").unwrap(), None);
}

#[test]
fn warm_header_is_the_documented_record() {
    let storage = WarmStorage::open(None).unwrap();
    let image = storage.image();
    let header = std::str::from_utf8(&image[..199]).unwrap();
    assert_eq!(header.trim_end(), "{\"magic\":\"GUAR\",\"version\":1,\"index_offset\":200}");
    assert_eq!(image[199], b'\n');
    assert_eq!(&image[200..], &[0u8; 8]);
}

#[test]
fn warm_file_with_bad_magic_is_a_config_error() {
    let storage = WarmStorage::open(None).unwrap();
    let mut image = storage.image().clone();
    image[11] = b'X';
    assert_eq!(WarmStorage::open(Some(image)).err(), Some(BridgeError::Config));
}

#[test]
fn warm_file_with_truncated_index_is_a_serialization_error() {
    let mut storage = WarmStorage::open(None).unwrap();
    storage.write_anchors(vec![("x".to_string(), RuleVector::default())]).unwrap();
    let mut image = storage.image().clone();
    image.truncate(image.len() - 3);
    assert_eq!(WarmStorage::open(Some(image)).err(), Some(BridgeError::Serialization));
}

#[test]
fn misshapen_anchor_block_is_refused() {
    let mut storage = WarmStorage::open(None).unwrap();
    let mut v = RuleVector::default();
    v.data_anchors.pop();
    assert_eq!(
        storage.write_anchors(vec![("x".to_string(), v.clone())]),
        Err(BridgeError::Serialization)
    );
    let mut bridge = create_test_bridge().unwrap();
    assert_eq!(
        bridge.add_rule_with_anchors(rule("x", RuleFamilyId::InputSchema, None), v),
        Err(BridgeError::Serialization)
    );
    assert_eq!(bridge.version(), 0);
}

#[test]
fn two_rules_same_family_allow() {
    let mut bridge = create_test_bridge().unwrap();
    bridge.add_rule_with_anchors(rule("r1", RuleFamilyId::ToolWhitelist, None), ones_vector(1.0f32.to_bits())).unwrap();
    bridge.add_rule_with_anchors(rule("r2", RuleFamilyId::ToolWhitelist, None), ones_vector(1.0f32.to_bits())).unwrap();
    assert_eq!(bridge.version(), 2);
    let anchors = bridge.get_rule_anchors("r1").unwrap();
    assert_eq!(anchors, ones_vector(1.0f32.to_bits()));
}

#[test]
fn duplicate_rule_id_is_a_conflict() {
    let mut bridge = create_test_bridge().unwrap();
    assert!(bridge.add_rule(rule("dup", RuleFamilyId::ModelPrompt, None)).is_ok());
    assert_eq!(
        bridge.add_rule(rule("dup", RuleFamilyId::ModelPrompt, None)),
        Err(BridgeError::Conflict)
    );
    assert_eq!(
        bridge.add_rule(rule("dup", RuleFamilyId::EgressData, None)),
        Err(BridgeError::Conflict)
    );
    assert_eq!(bridge.version(), 1);
}

#[test]
fn version_counts_successful_mutations() {
    let mut bridge = create_test_bridge().unwrap();
    assert!(bridge.add_rule(rule("a", RuleFamilyId::InputSchema, None)).is_ok());
    assert!(bridge.add_rule(rule("a", RuleFamilyId::InputSchema, None)).is_err());
    assert!(bridge.add_rule(rule("b", RuleFamilyId::PlannerScope, Some("agent-1"))).is_ok());
    assert_eq!(bridge.remove_rule(&RuleFamilyId::InputSchema, "zzz"), Ok(false));
    assert_eq!(bridge.remove_rule(&RuleFamilyId::InputSchema, "a"), Ok(true));
    assert!(bridge.clear_table(&RuleFamilyId::ToolParameter).is_ok());
    bridge.clear_all();
    assert_eq!(bridge.version(), 5);
}

#[test]
fn find_rule_agrees_with_its_table() {
    let mut bridge = create_test_bridge().unwrap();
    let d = rule("g1", RuleFamilyId::RetrievalSource, Some("agent-9"));
    bridge.add_rule(d.clone()).unwrap();
    let found = bridge.find_rule("g1").unwrap();
    let from_table = bridge.get_table(&RuleFamilyId::RetrievalSource).find_rule("g1").unwrap();
    assert_eq!(found, d);
    assert_eq!(from_table, d);
    assert!(bridge.find_rule("nope").is_none());
}

#[test]
fn queries_follow_insertion_order() {
    let mut bridge = create_test_bridge().unwrap();
    let f = RuleFamilyId::SystemPolicy;
    bridge.add_rule(rule("g1", f, None)).unwrap();
    bridge.add_rule(rule("s1", f, Some("agent"))).unwrap();
    bridge.add_rule(rule("g2", f, None)).unwrap();
    bridge.add_rule(rule("s2", f, Some("agent"))).unwrap();
    bridge.add_rule(rule("o1", f, Some("other"))).unwrap();
    let globals: Vec<String> = bridge.query_global(&f).unwrap().into_iter().map(|d| d.rule_id).collect();
    assert_eq!(globals, vec!["g1", "g2"]);
    let scoped: Vec<String> = bridge.query_by_agent(&f, "agent").unwrap().into_iter().map(|d| d.rule_id).collect();
    assert_eq!(scoped, vec!["s1", "s2"]);
    let stats = bridge.stats();
    assert_eq!(stats.total_rules, 5);
    assert_eq!(stats.total_global_rules, 2);
    assert_eq!(stats.total_scoped_rules, 3);
    assert_eq!(stats.tables_with_rules, 1);
    assert_eq!(stats.total_tables, 14);
}

#[test]
fn batch_stops_at_first_conflict() {
    let mut bridge = create_test_bridge().unwrap();
    let batch = vec![
        rule("b1", RuleFamilyId::InputSanitize, None),
        rule("b2", RuleFamilyId::ModelOutput, None),
        rule("b1", RuleFamilyId::EgressData, None),
        rule("b3", RuleFamilyId::ModelOutput, None),
    ];
    assert_eq!(bridge.add_rules_batch(batch), Err(BridgeError::Conflict));
    assert!(bridge.find_rule("b2").is_some());
    assert!(bridge.find_rule("b3").is_none());
    assert_eq!(bridge.version(), 0);
    assert!(bridge.add_rules_batch(vec![rule("b4", RuleFamilyId::SystemIdentity, None)]).is_ok());
}

#[test]
fn table_rejects_other_family() {
    let mut table = RuleFamilyTable::new(RuleFamilyId::ToolParameter);
    assert_eq!(
        table.add_rule(rule("t", RuleFamilyId::ToolWhitelist, None)),
        Err(BridgeError::FamilyMismatch)
    );
    assert_eq!(table.version(), 0);
    assert!(table.add_rule(rule("t", RuleFamilyId::ToolParameter, None)).is_ok());
    assert_eq!(table.version(), 1);
    assert_eq!(table.layer_id(), LayerId::ToolGateway);
}

#[test]
fn staged_version_promotion() {
    let mut bridge = create_test_bridge().unwrap();
    assert_eq!(bridge.promote_staged(), Err(BridgeError::NoStagedVersion));
    bridge.set_staged_version(42);
    assert_eq!(bridge.staged_version(), Some(42));
    assert!(bridge.promote_staged().is_ok());
    assert_eq!(bridge.version(), 42);
    assert_eq!(bridge.staged_version(), None);
}

#[test]
fn reopened_bridge_serves_installed_anchors() {
    let anchors = ones_vector(0.25f32.to_bits());
    let image = {
        let mut bridge = create_test_bridge().unwrap();
        bridge.add_rule_with_anchors(rule("keep", RuleFamilyId::EgressDestination, None), anchors.clone()).unwrap();
        bridge.warm_image().clone()
    };
    let mut reopened = Bridge::new(test_config(), Some(image)).unwrap();
    assert_eq!(reopened.get_rule_anchors("keep"), Some(anchors));
}

#[test]
fn refresh_restores_cleared_hot_cache() {
    let mut bridge = create_test_bridge().unwrap();
    let mut scheduler = RefreshScheduler::new_at(SchedulerConfig { refresh_interval_ms: 50, enabled: true }, 1000);
    for i in 0..3u32 {
        bridge
            .add_rule_with_anchors(rule(&format!("r{}", i), RuleFamilyId::PlannerIntent, None), ones_vector(i))
            .unwrap();
    }
    bridge.clear_hot_cache();
    assert_eq!(bridge.storage_stats().hot_rules, 0);
    assert!(scheduler.start());
    let stats = bridge.refresh_from_warm_at(1000, 1007).unwrap();
    scheduler.record_refresh(true, 1007);
    assert_eq!(stats.rules_refreshed, 3);
    assert_eq!(stats.duration_ms, 7);
    assert_eq!(bridge.storage_stats().hot_rules, 3);
    for i in 0..3u32 {
        assert_eq!(bridge.get_rule_anchors(&format!("r{}", i)), Some(ones_vector(i)));
    }
    assert!(scheduler.last_refresh() > 1000);
    scheduler.record_refresh(false, 5000);
    assert_eq!(scheduler.last_refresh(), 1007);
}

#[test]
fn tables_by_layer_and_stats_order() {
    let bridge = create_test_bridge().unwrap();
    let fams = bridge.get_tables_by_layer(&LayerId::ModelIo);
    assert_eq!(fams, vec![RuleFamilyId::ModelPrompt, RuleFamilyId::ModelOutput]);
    let stats = bridge.table_stats();
    assert_eq!(stats.len(), 14);
    for pair in stats.windows(2) {
        assert!(pair[0].layer_id.layer_num() <= pair[1].layer_id.layer_num());
    }
}

fn cosine(a: &[f32], b: &[f32]) -> f32 {
    let dot: f32 = a.iter().zip(b.iter()).map(|(x, y)| x * y).sum();
    let norm_a = a.iter().map(|x| x * x).sum::<f32>().sqrt();
    let norm_b = b.iter().map(|x| x * x).sum::<f32>().sqrt();
    if norm_a < 1e-8 || norm_b < 1e-8 {
        0.0
    } else {
        (dot / (norm_a * norm_b)).min(1.0).max(-1.0)
    }
}

fn score(intent: &[f32; 128], rv: &RuleVector, thresholds: [f32; 4]) -> bridge::comparison::ComparisonResult {
    let slots = [
        (&rv.action_anchors, rv.action_count),
        (&rv.resource_anchors, rv.resource_count),
        (&rv.data_anchors, rv.data_count),
        (&rv.risk_anchors, rv.risk_count),
    ];
    let sims: Vec<Vec<u32>> = slots
        .iter()
        .enumerate()
        .map(|(s, (anchors, count))| {
            (0..*count)
                .map(|row| {
                    let a: Vec<f32> = anchors[row * 32..row * 32 + 32].iter().map(|b| f32::from_bits(*b)).collect();
                    cosine(&intent[s * 32..s * 32 + 32], &a).to_bits()
                })
                .collect()
        })
        .collect();
    bridge::comparison::compare_similarities(&sims, thresholds.map(f32::to_bits), DecisionMode::MinMode)
}

#[test]
fn installed_rules_allow_matching_intent_and_block_opposite_action() {
    let mut bridge = create_test_bridge().unwrap();
    let ones = ones_vector(1.0f32.to_bits());
    bridge.add_rule_with_anchors(rule("p1", RuleFamilyId::ToolWhitelist, None), ones.clone()).unwrap();
    bridge.add_rule_with_anchors(rule("p2", RuleFamilyId::ToolWhitelist, None), ones.clone()).unwrap();
    for id in ["p1", "p2"] {
        let rv = bridge.get_rule_anchors(id).unwrap();
        let allow = score(&[0.9f32; 128], &rv, [0.85; 4]);
        assert_eq!(allow.decision, 1);
        for s in allow.slice_similarities {
            assert!((f32::from_bits(s) - 1.0).abs() < 1e-3);
        }
        let mut intent = [1.0f32; 128];
        intent[0..32].fill(-1.0);
        let block = score(&intent, &rv, [0.85; 4]);
        assert_eq!(block.decision, 0);
        assert!((f32::from_bits(block.slice_similarities[0]) + 1.0).abs() < 1e-3);
        for s in &block.slice_similarities[1..] {
            assert!((f32::from_bits(*s) - 1.0).abs() < 1e-3);
        }
    }
}

#[test]
fn install_commits_version_only_when_finished() {
    let mut bridge = create_test_bridge().unwrap();
    let before = bridge.warm_image().clone();
    let staged = bridge
        .begin_install(rule("st", RuleFamilyId::InputSchema, None), ones_vector(3))
        .unwrap();
    assert_eq!(bridge.version(), 0);
    assert_eq!(bridge.warm_image(), &before);
    assert_eq!(staged.get("st").unwrap(), Some(ones_vector(3)));
    bridge.finish_install(staged);
    assert_eq!(bridge.version(), 1);
    let reopened = WarmStorage::open(Some(bridge.warm_image().clone())).unwrap();
    assert_eq!(reopened.get("st").unwrap(), Some(ones_vector(3)));
}

#[test]
fn promote_accepts_only_well_formed_blocks() {
    let mut bridge = create_test_bridge().unwrap();
    let mut bad = RuleVector::default();
    bad.risk_anchors.clear();
    assert!(!bridge.promote("cold-bad".to_string(), bad));
    assert_eq!(bridge.get_rule_anchors("cold-bad"), None);
    assert!(bridge.promote("cold-ok".to_string(), ones_vector(5)));
    assert_eq!(bridge.get_rule_anchors("cold-ok"), Some(ones_vector(5)));
}

#[test]
fn table_stats_report_versions_and_scoped_counts() {
    let mut bridge = create_test_bridge().unwrap();
    bridge.add_rule(rule("a1", RuleFamilyId::EgressData, Some("agent"))).unwrap();
    bridge.add_rule(rule("a2", RuleFamilyId::EgressData, None)).unwrap();
    let s = bridge.table_stats();
    let e = s.iter().find(|t| t.family_id == RuleFamilyId::EgressData).unwrap();
    assert_eq!(e.version, 2);
    assert_eq!(e.rule_count, 2);
    assert_eq!(e.global_count, 1);
    assert_eq!(e.scoped_count, 1);
}
