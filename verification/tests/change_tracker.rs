use cadagent::incremental::change_tracker::{
    millis_to_timestamp, Change, ChangeId, ChangeTracker, ChangeTrackerConfig, ChangeType,
};

fn json_text(s: &str) -> serde_json::Value {
    serde_json::Value::String(s.to_string())
}

#[test]
fn test_change_creation() {
    let change = Change::added("test_entity", Some(json_text("test")));
    assert_eq!(change.entity_id, "test_entity");
    assert!(matches!(change.change_type, ChangeType::Added));
}

#[test]
fn test_change_parameter_changed() {
    let change = Change::parameter_changed(
        "entity_1",
        "depth",
        serde_json::Value::from(10.0),
        serde_json::Value::from(20.0),
    );
    assert_eq!(change.entity_id, "entity_1");
    if let ChangeType::ParameterChanged { name } = &change.change_type {
        assert_eq!(name, "depth");
    } else {
        panic!("Expected ParameterChanged variant");
    }
}

#[test]
fn test_change_with_description() {
    let change = Change::added("test", None).with_description("Test description");
    assert_eq!(change.description, Some("Test description".to_string()));
}

#[test]
fn test_change_tracker_new() {
    let tracker = ChangeTracker::new();
    assert_eq!(tracker.change_count(), 0);
    assert!(!tracker.can_undo());
    assert!(!tracker.can_redo());
}

#[test]
fn test_change_tracker_record() {
    let mut tracker = ChangeTracker::new();
    let change = Change::added("entity_1", None);
    tracker.record_change(change);

    assert_eq!(tracker.change_count(), 1);
    assert!(tracker.can_undo());
}

#[test]
fn test_change_tracker_undo_redo() {
    let mut tracker = ChangeTracker::new();

    tracker.record_change(Change::added("entity_1", None));
    tracker.record_change(Change::added("entity_2", None));

    assert_eq!(tracker.change_count(), 2);

    tracker.undo();
    assert_eq!(tracker.change_count(), 1);
    assert!(tracker.can_redo());

    tracker.redo();
    assert_eq!(tracker.change_count(), 2);
}

#[test]
fn test_change_tracker_batch() {
    let mut tracker = ChangeTracker::new();

    tracker.start_batch();
    tracker.record_change(Change::added("entity_1", None));
    tracker.record_change(Change::added("entity_2", None));
    tracker.record_change(Change::added("entity_3", None));

    assert_eq!(tracker.change_count(), 0);

    let ids = tracker.end_batch();
    assert_eq!(ids.len(), 3);
    assert_eq!(tracker.change_count(), 3);
}

#[test]
fn test_change_tracker_cancel_batch() {
    let mut tracker = ChangeTracker::new();

    tracker.start_batch();
    tracker.record_change(Change::added("entity_1", None));
    tracker.cancel_batch();

    assert_eq!(tracker.change_count(), 0);
}

#[test]
fn test_change_tracker_get_changes_for_entity() {
    let mut tracker = ChangeTracker::new();

    tracker.record_change(Change::added("entity_1", None));
    tracker.record_change(Change::geometry_modified("entity_2", None, None));
    tracker.record_change(Change::parameter_changed(
        "entity_1",
        "width",
        serde_json::Value::from(5.0),
        serde_json::Value::from(10.0),
    ));

    let changes = tracker.get_changes_for_entity("entity_1");
    assert_eq!(changes.len(), 2);
}

#[test]
fn test_change_tracker_clear() {
    let mut tracker = ChangeTracker::new();

    tracker.record_change(Change::added("entity_1", None));
    tracker.record_change(Change::added("entity_2", None));

    tracker.clear();

    assert_eq!(tracker.change_count(), 0);
    assert!(!tracker.can_undo());
}

#[test]
fn test_change_tracker_history_limit() {
    let config = ChangeTrackerConfig {
        max_history_size: 5,
        ..Default::default()
    };
    let mut tracker = ChangeTracker::with_config(config);

    for i in 0..10 {
        tracker.record_change(Change::added(&format!("entity_{}", i), None));
    }

    assert_eq!(tracker.change_count(), 5);
}

#[test]
fn test_change_id_generation() {
    let id1 = ChangeId::new();
    let id2 = ChangeId::new();
    assert_ne!(id1, id2);
}

#[test]
fn tracker_doc_example_recent_changes() {
    let mut tracker = ChangeTracker::new();
    tracker.record_change(Change::added("entity_1", None));
    tracker.record_change(Change::geometry_modified("entity_2", None, None));
    let changes = tracker.get_recent_changes(10);
    assert_eq!(changes.len(), 2);
    assert_eq!(changes[0].change.entity_id, "entity_2");
    assert_eq!(changes[1].change.entity_id, "entity_1");
    let undone = tracker.undo().unwrap();
    assert_eq!(undone.change.entity_id, "entity_2");
    assert!(!undone.applied);
}

#[test]
fn tracker_undo_then_redo_restores_record() {
    let mut tracker = ChangeTracker::new();
    let id = tracker.record_change(Change::added("a", None));
    tracker.undo();
    assert_eq!(tracker.change_count(), 0);
    let redone = tracker.redo().unwrap();
    assert_eq!(redone.change.id, id);
    assert!(redone.applied);
    assert!(redone.undoable);
    assert!(tracker.redo().is_none());
    assert!(!tracker.can_redo());
}

#[test]
fn tracker_new_change_forgets_undone_ones() {
    let mut tracker = ChangeTracker::new();
    tracker.record_change(Change::added("a", None));
    tracker.undo();
    assert!(tracker.can_redo());
    tracker.record_change(Change::added("b", None));
    assert!(!tracker.can_redo());
    assert!(tracker.undo().is_some());
    assert!(tracker.undo().is_none());
}

#[test]
fn tracker_history_keeps_newest() {
    let config = ChangeTrackerConfig {
        max_history_size: 2,
        enable_batching: true,
        batch_timeout_ms: 100,
    };
    let mut tracker = ChangeTracker::with_config(config);
    tracker.start_batch();
    for name in ["a", "b", "c"] {
        tracker.record_change(Change::added(name, None));
    }
    let ids = tracker.end_batch();
    assert_eq!(ids.len(), 3);
    let all = tracker.get_all_changes();
    assert_eq!(all.len(), 2);
    assert_eq!(all[0].change.entity_id, "b");
    assert_eq!(all[1].change.entity_id, "c");
    assert_eq!(all[1].change.id, ids[2]);
}

#[test]
fn tracker_batching_disabled_commits_at_once() {
    let config = ChangeTrackerConfig {
        max_history_size: 10,
        enable_batching: false,
        batch_timeout_ms: 0,
    };
    let mut tracker = ChangeTracker::with_config(config);
    tracker.start_batch();
    tracker.record_change(Change::removed("x", Some(json_text("old"))));
    assert_eq!(tracker.change_count(), 1);
    assert!(tracker.end_batch().is_empty());
}

#[test]
fn tracker_latest_change_for_entity() {
    let mut tracker = ChangeTracker::new();
    tracker.record_change(Change::added("e", None));
    tracker.record_change(Change::transform_modified("e", None, Some(json_text("t"))));
    tracker.record_change(Change::added("f", None));
    let latest = tracker.get_latest_change_for_entity("e").unwrap();
    assert_eq!(latest.change.change_type, ChangeType::TransformModified);
    assert!(tracker.get_latest_change_for_entity("zzz").is_none());
}

#[test]
fn tracker_config_defaults() {
    let config = ChangeTrackerConfig::default();
    assert_eq!(config.max_history_size, 1000);
    assert!(config.enable_batching);
    assert_eq!(config.batch_timeout_ms, 100);
    let tracker = ChangeTracker::new();
    assert_eq!(tracker.config().max_history_size, 1000);
}

#[test]
fn timestamp_keeps_low_bits() {
    assert_eq!(millis_to_timestamp(1_700_000_000_000), 1_700_000_000_000);
    assert_eq!(millis_to_timestamp((1u128 << 64) + 5), 5);
}
