//! Change tracking and dependency analysis for incremental model updates.

pub mod change_tracker;
pub mod dependency_graph;
pub mod updater;

pub use dependency_graph::{DependencyGraph, DependencyGraphError, GraphView, NodeId};
pub use updater::{
    IncrementalUpdateError, IncrementalUpdater, IncrementalUpdaterConfig, UpdateAction, UpdateRecord, UpdateStatus,
    UpdaterStats,
};
pub use change_tracker::{
    Change, ChangeId, ChangeRecord, ChangeTracker, ChangeTrackerConfig, ChangeType, TrackerView,
};
