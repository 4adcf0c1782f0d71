use cadagent::incremental::{IncrementalUpdaterConfig, UpdateAction, UpdateRecord};
use cadagent::incremental::{DependencyGraphError, IncrementalUpdateError, UpdateStatus};

#[test]
fn test_update_status() {
    let success = UpdateStatus::Success {
        entities_updated: 5,
        elapsed_ms: 100,
    };
    assert!(success.is_success());
    assert!(!success.is_no_changes());

    let no_changes = UpdateStatus::NoChanges;
    assert!(no_changes.is_no_changes());
    assert!(!no_changes.is_success());
}

#[test]
fn partial_status_is_neither() {
    let partial = UpdateStatus::Partial {
        entities_updated: 1,
        entities_failed: 1,
        errors: vec!["x".to_string()],
    };
    assert!(!partial.is_success());
    assert!(!partial.is_no_changes());
}

#[test]
fn dependency_errors_convert() {
    let e: IncrementalUpdateError = DependencyGraphError::NodeNotFound("n".to_string()).into();
    assert!(matches!(
        e,
        IncrementalUpdateError::Dependency(DependencyGraphError::NodeNotFound(_))
    ));
}

use cadagent::incremental::change_tracker::Change;
use cadagent::incremental::updater::IncrementalUpdater;

#[test]
fn test_updater_creation() {
    let updater = IncrementalUpdater::new();
    assert!(updater.config().enable_incremental);
}

#[test]
fn test_updater_record_change() {
    let mut updater = IncrementalUpdater::new();
    let change = Change::added("entity_1", None);
    updater.record_change(change);

    assert_eq!(updater.change_tracker().change_count(), 1);
}

#[test]
fn test_updater_add_dependency() {
    let mut updater = IncrementalUpdater::new();
    updater.add_dependency("B", "A").unwrap();

    assert!(updater.dependency_graph().has_edge("B", "A"));
}

#[test]
fn test_updater_get_affected() {
    let mut updater = IncrementalUpdater::new();
    updater.add_dependency("B", "A").unwrap();
    updater.add_dependency("C", "B").unwrap();

    let affected = updater.get_affected_entities("A");
    assert!(affected.contains(&"B".to_string()));
    assert!(affected.contains(&"C".to_string()));
}

#[test]
fn test_updater_stats() {
    let mut updater = IncrementalUpdater::new();
    updater.add_dependency("B", "A").unwrap();
    updater.add_dependency("C", "B").unwrap();

    let stats = updater.stats();
    assert_eq!(stats.total_entities, 3);
    assert_eq!(stats.total_dependencies, 2);
    assert_eq!(stats.pending_changes, 0);
}

#[test]
fn test_updater_clear() {
    let mut updater = IncrementalUpdater::new();
    updater.record_change(Change::added("entity_1", None));
    updater.add_dependency("B", "A").unwrap();

    updater.clear();

    assert_eq!(updater.change_tracker().change_count(), 0);
    assert_eq!(updater.stats().affected_count, 0);
}

#[test]
fn updater_cache_answers_for_the_entity_asked() {
    let mut updater = IncrementalUpdater::new();
    updater.add_dependency("B", "A").unwrap();
    updater.add_dependency("D", "C").unwrap();
    let first = updater.get_affected_entities("A");
    assert_eq!(first, vec!["B".to_string()]);
    let second = updater.get_affected_entities("C");
    assert_eq!(second, vec!["D".to_string()]);
    assert!(updater.stats().cache_valid);
    assert_eq!(updater.get_affected_entities("C"), vec!["D".to_string()]);
    updater.record_change(Change::added("x", None));
    assert!(!updater.stats().cache_valid);
    assert_eq!(updater.get_affected_entities("C"), vec!["D".to_string()]);
}

#[test]
fn updater_all_affected_includes_changed_entities() {
    let mut updater = IncrementalUpdater::new();
    updater.add_dependency("B", "A").unwrap();
    updater.record_change(Change::added("A", None));
    let mut all = updater.get_all_affected_entities();
    all.sort();
    assert_eq!(all, vec!["A".to_string(), "B".to_string()]);
    assert!(updater.last_update().is_none());
    assert!(updater.update_history().is_empty());
}

#[test]
fn updater_remove_entity() {
    let mut updater = IncrementalUpdater::default();
    updater.add_dependency("B", "A").unwrap();
    updater.remove_entity("A");
    assert!(!updater.dependency_graph().has_node("A"));
    assert_eq!(updater.stats().total_dependencies, 0);
    assert!(updater.dependency_graph_mut().add_dependency("C", "B").is_ok());
    assert_eq!(updater.stats().total_dependencies, 1);
}

#[test]
fn update_order_follows_dependencies() {
    let mut updater = IncrementalUpdater::new();
    updater.add_dependency("C", "B").unwrap();
    updater.add_dependency("B", "A").unwrap();
    updater.add_dependency("E", "D").unwrap();
    updater.record_change(Change::added("A", None));
    assert_eq!(
        updater.update_order(),
        vec!["A".to_string(), "B".to_string(), "C".to_string()]
    );
}

#[test]
fn update_history_keeps_the_newest_records() {
    let mut config = IncrementalUpdaterConfig::default();
    config.max_update_history = 2;
    let mut updater = IncrementalUpdater::with_config(config);
    for k in 0..3u64 {
        updater.record_update(UpdateRecord {
            id: uuid::Uuid::new_v4(),
            timestamp: k,
            status: UpdateStatus::NoChanges,
            updated_entities: Vec::new(),
            trigger_change_id: None,
        });
    }
    let history = updater.update_history();
    assert_eq!(history.len(), 2);
    assert_eq!(history[0].timestamp, 1);
    assert_eq!(updater.last_update().unwrap().timestamp, 2);
    assert_eq!(updater.stats().update_count, 2);
}

#[test]
fn plan_update_with_incremental_off_rebuilds_all() {
    let mut config = IncrementalUpdaterConfig::default();
    config.enable_incremental = false;
    let mut updater = IncrementalUpdater::with_config(config);
    updater.record_change(Change::added("A", None));
    assert_eq!(
        updater.plan_update(5, false),
        UpdateAction::FullRebuild { total_entities: 5 }
    );
    let id = uuid::Uuid::new_v4();
    let action = updater.plan_update(5, false);
    let rec = updater.finish_update(&action, Vec::new(), Vec::new(), 1, id, 7);
    assert!(!rec.status.is_no_changes());
    assert_eq!(rec.status, UpdateStatus::Success { entities_updated: 5, elapsed_ms: 1 });
}

#[test]
fn update_on_a_fresh_updater_records_no_changes() {
    let mut updater = IncrementalUpdater::new();
    assert_eq!(updater.config().max_update_history, 100);
    let action = updater.plan_update(0, false);
    assert_eq!(action, UpdateAction::NoChanges);
    let id = uuid::Uuid::new_v4();
    let rec = updater.finish_update(&action, Vec::new(), Vec::new(), 0, id, 5);
    assert!(rec.status.is_no_changes());
    assert!(rec.updated_entities.is_empty());
    assert_eq!(updater.update_history().len(), 1);
    assert_eq!(updater.last_update().unwrap().id, rec.id);
}

#[test]
fn plan_update_without_changes_does_nothing() {
    let mut updater = IncrementalUpdater::new();
    updater.add_dependency("B", "A").unwrap();
    assert_eq!(updater.plan_update(2, true), UpdateAction::NoChanges);
}

#[test]
fn plan_update_over_threshold_rebuilds_everything() {
    let mut updater = IncrementalUpdater::new();
    updater.add_dependency("B", "A").unwrap();
    updater.record_change(Change::added("A", None));
    assert_eq!(
        updater.plan_update(7, true),
        UpdateAction::FullRebuild { total_entities: 7 }
    );
}

#[test]
fn plan_update_under_threshold_lists_rebuild_order() {
    let mut updater = IncrementalUpdater::new();
    updater.add_dependency("C", "B").unwrap();
    updater.add_dependency("B", "A").unwrap();
    updater.record_change(Change::added("A", None));
    assert_eq!(
        updater.plan_update(10, false),
        UpdateAction::Incremental(vec!["A".to_string(), "B".to_string(), "C".to_string()])
    );
}

#[test]
fn finish_update_success_and_partial() {
    let mut updater = IncrementalUpdater::new();
    let id = uuid::Uuid::new_v4();
    let action = UpdateAction::Incremental(vec!["A".to_string()]);
    let ok = updater.finish_update(&action, vec!["A".to_string()], Vec::new(), 12, id, 99);
    assert_eq!(ok.status, UpdateStatus::Success { entities_updated: 1, elapsed_ms: 12 });
    assert_eq!(ok.updated_entities, vec!["A".to_string()]);
    assert_eq!(ok.id, id);
    assert_eq!(ok.timestamp, 99);
    let partial = updater.finish_update(
        &action,
        vec!["A".to_string()],
        vec!["Failed to update B: gone".to_string()],
        3,
        id,
        100,
    );
    assert_eq!(
        partial.status,
        UpdateStatus::Partial {
            entities_updated: 1,
            entities_failed: 1,
            errors: vec!["Failed to update B: gone".to_string()],
        }
    );
    assert_eq!(updater.update_history().len(), 2);
    assert_eq!(updater.last_update().unwrap().timestamp, 100);
}

#[test]
fn finish_update_full_rebuild_and_no_changes() {
    let mut updater = IncrementalUpdater::new();
    let id = uuid::Uuid::new_v4();
    let full = updater.finish_update(
        &UpdateAction::FullRebuild { total_entities: 4 },
        Vec::new(),
        Vec::new(),
        8,
        id,
        1,
    );
    assert_eq!(full.status, UpdateStatus::Success { entities_updated: 4, elapsed_ms: 8 });
    assert_eq!(full.updated_entities, vec!["[full rebuild]".to_string()]);
    let none2 = updater.finish_update(&UpdateAction::NoChanges, Vec::new(), Vec::new(), 0, id, 3);
    assert_eq!(none2.status, UpdateStatus::NoChanges);
    assert_eq!(updater.update_history().len(), 2);
}
