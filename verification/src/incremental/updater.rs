//! Incremental updates: which entities a change affects, what an update
//! does about them (nothing, a full rebuild or a rebuild in dependency
//! order), and the records of past updates.

use super::change_tracker::{keep_last, Change, ChangeId, ChangeTracker, ChangeTrackerConfig};
use super::dependency_graph::{is_topological_order, DependencyGraph, DependencyGraphError, GraphView};
use crate::text::{str_eq, str_views};
use uuid::Uuid;
use vstd::prelude::*;

verus! {

/// Errors of incremental updates.
#[derive(Debug)]
pub enum IncrementalUpdateError {
    /// The dependency graph refused an operation.
    Dependency(DependencyGraphError),
    /// The feature tree reported an error.
    FeatureTree(String),
    /// The entity is unknown.
    EntityNotFound(String),
    /// The update failed.
    UpdateFailed(String),
}

impl From<DependencyGraphError> for IncrementalUpdateError {
    fn from(e: DependencyGraphError) -> (r: IncrementalUpdateError) {
        IncrementalUpdateError::Dependency(e)
    }
}

impl vstd::std_specs::convert::FromSpecImpl<DependencyGraphError> for IncrementalUpdateError {
    open spec fn obeys_from_spec() -> bool {
        true
    }

    open spec fn from_spec(e: DependencyGraphError) -> IncrementalUpdateError {
        IncrementalUpdateError::Dependency(e)
    }
}

/// Outcome of an incremental update.
#[derive(Debug, Clone, PartialEq, Eq)]
pub enum UpdateStatus {
    /// Every affected entity was updated.
    Success {
        /// Number of entities updated.
        entities_updated: usize,
        /// Time taken in milliseconds.
        elapsed_ms: u64,
    },
    /// Nothing needed updating.
    NoChanges,
    /// Some entities could not be updated.
    Partial {
        /// Number of entities updated.
        entities_updated: usize,
        /// Number of entities that failed.
        entities_failed: usize,
        /// What went wrong.
        errors: Vec<String>,
    },
}

impl UpdateStatus {
    /// Whether the update succeeded fully.
    pub fn is_success(&self) -> (r: bool)
        ensures
            r == (self is Success),
    {
        matches!(self, UpdateStatus::Success { .. })
    }

    /// Whether nothing needed updating.
    pub fn is_no_changes(&self) -> (r: bool)
        ensures
            r == (self is NoChanges),
    {
        matches!(self, UpdateStatus::NoChanges)
    }
}

/// Counters describing an updater.
#[derive(Debug, Clone)]
pub struct UpdaterStats {
    /// Tracked entities.
    pub total_entities: usize,
    /// Dependencies between them.
    pub total_dependencies: usize,
    /// Changes in the history.
    pub pending_changes: usize,
    /// Updates performed.
    pub update_count: usize,
    /// Whether the cached affected set is valid.
    pub cache_valid: bool,
    /// Entities in the cached affected set.
    pub affected_count: usize,
}

/// Record of one incremental update.
#[derive(Debug, Clone)]
pub struct UpdateRecord {
    /// Update identifier.
    pub id: Uuid,
    /// Milliseconds since the Unix epoch.
    pub timestamp: u64,
    /// Outcome.
    pub status: UpdateStatus,
    /// Entities updated.
    pub updated_entities: Vec<String>,
    /// The change that triggered the update.
    pub trigger_change_id: Option<ChangeId>,
}

/// Settings of an incremental updater.
#[derive(Debug, Clone)]
pub struct IncrementalUpdaterConfig {
    /// Whether dependencies are tracked automatically.
    pub auto_track_dependencies: bool,
    /// Whether updates are incremental.
    pub enable_incremental: bool,
    /// Most update records kept.
    pub max_update_history: usize,
    /// Settings of the change tracker.
    pub change_tracker_config: ChangeTrackerConfig,
}

impl Default for IncrementalUpdaterConfig {
    fn default() -> (c: IncrementalUpdaterConfig)
        ensures
            c.auto_track_dependencies,
            c.enable_incremental,
            c.max_update_history == 100,
            c.change_tracker_config.max_history_size == 1000,
            c.change_tracker_config.enable_batching,
            c.change_tracker_config.batch_timeout_ms == 100,
    {
        IncrementalUpdaterConfig {
            auto_track_dependencies: true,
            enable_incremental: true,
            max_update_history: 100,
            change_tracker_config: ChangeTrackerConfig::default(),
        }
    }
}

/// The nodes a change to `e` affects: those that depend on it, directly or
/// through other nodes.
pub open spec fn affected_by(g: GraphView, e: Seq<char>) -> Set<Seq<char>> {
    Set::new(|x: Seq<char>| g.reaches_plus(false, e, x))
}

/// The entities reported as affected by the changes to `ids`, together
/// with the changed entities themselves.
pub open spec fn affected_union(g: GraphView, ids: Seq<Seq<char>>) -> Set<Seq<char>>
    decreases ids.len(),
{
    if ids.len() == 0 {
        Set::empty()
    } else {
        affected_by(g, ids[0]).insert(ids[0]).union(affected_union(g, ids.skip(1)))
    }
}

/// `r` lists, each once, the affected entities that are nodes of `g`, every
/// one after the affected entities it depends on.
pub open spec fn is_rebuild_order(g: GraphView, affected: Set<Seq<char>>, r: Seq<Seq<char>>) -> bool {
    &&& r.no_duplicates()
    &&& forall|x: Seq<char>| #[trigger] r.contains(x) <==> g.nodes.contains(x) && affected.contains(x)
    &&& forall|k: int, b: Seq<char>|
        0 <= k < r.len() && #[trigger] g.edge(r[k], b) && r.contains(b) ==> exists|p: int| 0 <= p < k && r[p] == b
}

/// What an update is to do, decided from the settings, the affected
/// entities and whether their share of all entities passes the threshold.
#[derive(Debug, Clone, PartialEq, Eq)]
pub enum UpdateAction {
    /// No entity is affected.
    NoChanges,
    /// Rebuild every entity: incremental updates are off, or too many
    /// entities are affected.
    FullRebuild {
        /// Number of entities in the model.
        total_entities: usize,
    },
    /// Rebuild these entities, in this order.
    Incremental(Vec<String>),
}

/// An update outcome with its lists taken as character sequences.
pub enum StatusView {
    Success { entities_updated: usize, elapsed_ms: u64 },
    NoChanges,
    Partial { entities_updated: usize, entities_failed: usize, errors: Seq<Seq<char>> },
}

/// An update record with its lists taken as character sequences.
pub struct RecordView {
    pub id: Uuid,
    pub timestamp: u64,
    pub status: StatusView,
    pub updated_entities: Seq<Seq<char>>,
    pub trigger_change_id: Option<ChangeId>,
}

impl View for UpdateStatus {
    type V = StatusView;

    open spec fn view(&self) -> StatusView {
        match self {
            UpdateStatus::Success { entities_updated, elapsed_ms } => StatusView::Success {
                entities_updated: *entities_updated,
                elapsed_ms: *elapsed_ms,
            },
            UpdateStatus::NoChanges => StatusView::NoChanges,
            UpdateStatus::Partial { entities_updated, entities_failed, errors } => StatusView::Partial {
                entities_updated: *entities_updated,
                entities_failed: *entities_failed,
                errors: str_views(errors@),
            },
        }
    }
}

impl View for UpdateRecord {
    type V = RecordView;

    open spec fn view(&self) -> RecordView {
        RecordView {
            id: self.id,
            timestamp: self.timestamp,
            status: self.status@,
            updated_entities: str_views(self.updated_entities@),
            trigger_change_id: self.trigger_change_id,
        }
    }
}

/// The views of a sequence of update records.
pub open spec fn record_views(s: Seq<UpdateRecord>) -> Seq<RecordView> {
    s.map_values(|r: UpdateRecord| r@)
}

/// The record of an update that carried out `action`, updated the entities
/// `updated`, met the errors `errors` and took `elapsed_ms`: no change when
/// nothing was affected; success with every entity after a full rebuild;
/// after an incremental rebuild, success when there were no errors and a
/// partial outcome with both counts and the errors otherwise.
pub open spec fn update_record(
    action: UpdateAction,
    updated: Seq<Seq<char>>,
    errors: Seq<Seq<char>>,
    elapsed_ms: u64,
    id: Uuid,
    timestamp: u64,
) -> RecordView {
    let (status, list) = match action {
        UpdateAction::NoChanges => (StatusView::NoChanges, Seq::<Seq<char>>::empty()),
        UpdateAction::FullRebuild { total_entities } => (
            StatusView::Success { entities_updated: total_entities, elapsed_ms },
            seq![full_rebuild_marker()],
        ),
        UpdateAction::Incremental(_) => (
            if errors.len() == 0 {
                StatusView::Success { entities_updated: updated.len() as usize, elapsed_ms }
            } else {
                StatusView::Partial {
                    entities_updated: updated.len() as usize,
                    entities_failed: errors.len() as usize,
                    errors,
                }
            },
            updated,
        ),
    };
    RecordView { id, timestamp, status, updated_entities: list, trigger_change_id: None }
}

/// After an incremental rebuild the record lists exactly the entities that
/// were updated, whatever the errors, and counts them; it is a success
/// exactly when there were no errors, and otherwise lists every error.
pub proof fn lemma_incremental_record_lists_updated(
    order: Vec<String>,
    updated: Seq<Seq<char>>,
    errors: Seq<Seq<char>>,
    elapsed_ms: u64,
    id: Uuid,
    timestamp: u64,
)
    requires
        updated.len() <= usize::MAX,
        errors.len() <= usize::MAX,
    ensures
        update_record(UpdateAction::Incremental(order), updated, errors, elapsed_ms, id, timestamp).updated_entities
            == updated,
        match update_record(UpdateAction::Incremental(order), updated, errors, elapsed_ms, id, timestamp).status {
            StatusView::Success { entities_updated, .. } => entities_updated == updated.len() && errors.len() == 0,
            StatusView::Partial { entities_updated, entities_failed, errors: e } => entities_updated == updated.len()
                && entities_failed == errors.len() && e == errors && errors.len() > 0,
            StatusView::NoChanges => false,
        },
{
}

/// A full rebuild is recorded as a success with every entity, and a plan
/// with nothing affected as no change; neither lists an error.
pub proof fn lemma_other_records(total: usize, updated: Seq<Seq<char>>, errors: Seq<Seq<char>>, elapsed_ms: u64, id: Uuid, timestamp: u64)
    ensures
        update_record(UpdateAction::FullRebuild { total_entities: total }, updated, errors, elapsed_ms, id, timestamp).status
            == (StatusView::Success { entities_updated: total, elapsed_ms }),
        update_record(UpdateAction::NoChanges, updated, errors, elapsed_ms, id, timestamp).status is NoChanges,
        update_record(UpdateAction::NoChanges, updated, errors, elapsed_ms, id, timestamp).updated_entities.len() == 0,
{
}

/// The entry listed as updated by a full rebuild.
pub open spec fn full_rebuild_marker() -> Seq<char> {
    "[full rebuild]"@
}

/// Coordinates change tracking and dependency analysis for incremental
/// updates. The answer of the last affected-entity query is cached until a
/// change, a batch start, a new dependency, a removal or `clear`
/// invalidates it.
pub struct IncrementalUpdater {
    change_tracker: ChangeTracker,
    dependency_graph: DependencyGraph,
    config: IncrementalUpdaterConfig,
    update_history: Vec<UpdateRecord>,
    cached_affected: Vec<String>,
    cached_entity: String,
    cache_valid: bool,
}

impl IncrementalUpdater {
    /// The updater's invariant: its tracker and graph are well formed, the
    /// cache lists each entity once and, while valid, holds the entities
    /// affected by a change to the entity it was computed for.
    pub closed spec fn well_formed(&self) -> bool {
        &&& self.change_tracker.well_formed()
        &&& self.dependency_graph.well_formed()
        &&& str_views(self.cached_affected@).no_duplicates()
        &&& self.cache_valid ==> self.cache() == affected_by(self.dependency_graph@, self.cached_entity@)
    }

    /// The change tracker's state.
    pub closed spec fn tracker(&self) -> ChangeTracker {
        self.change_tracker
    }

    /// The dependency graph's state.
    pub closed spec fn graph(&self) -> DependencyGraph {
        self.dependency_graph
    }

    /// Whether the cached affected set is valid.
    pub closed spec fn cache_is_valid(&self) -> bool {
        self.cache_valid
    }

    /// The cached affected set.
    pub closed spec fn cache(&self) -> Set<Seq<char>> {
        str_views(self.cached_affected@).to_set()
    }

    /// The update records, oldest first.
    pub closed spec fn records(&self) -> Seq<UpdateRecord> {
        self.update_history@
    }

    /// The settings.
    pub closed spec fn settings(&self) -> IncrementalUpdaterConfig {
        self.config
    }

    /// An updater with the default settings.
    pub fn new() -> (u: IncrementalUpdater)
        ensures
            u.well_formed(),
            u.tracker()@.history.len() == 0,
            u.graph()@.nodes.len() == 0,
            u.graph()@.edge_total() == 0,
            !u.cache_is_valid(),
            u.settings().enable_incremental,
            u.records() == Seq::<UpdateRecord>::empty(),
            u.settings().auto_track_dependencies,
            u.settings().max_update_history == 100,
            u.settings().change_tracker_config.max_history_size == 1000,
            u.settings().change_tracker_config.enable_batching,
            u.settings().change_tracker_config.batch_timeout_ms == 100,
    {
        IncrementalUpdater::with_config(IncrementalUpdaterConfig::default())
    }

    /// An updater with the given settings.
    pub fn with_config(config: IncrementalUpdaterConfig) -> (u: IncrementalUpdater)
        ensures
            u.well_formed(),
            u.tracker()@ == super::change_tracker::TrackerView::fresh(config.change_tracker_config),
            u.graph()@.nodes.len() == 0,
            u.graph()@.edge_total() == 0,
            !u.cache_is_valid(),
            u.cache().len() == 0,
            u.settings() == config,
            u.records() == Seq::<UpdateRecord>::empty(),
    {
        let tracker = ChangeTracker::with_config(config.change_tracker_config.clone());
        let u = IncrementalUpdater {
            change_tracker: tracker,
            dependency_graph: DependencyGraph::new(),
            config,
            update_history: Vec::new(),
            cached_affected: Vec::new(),
            cached_entity: String::new(),
            cache_valid: false,
        };
        proof {
            assert(str_views(u.cached_affected@) =~= Seq::<Seq<char>>::empty());
            assert(u.cache() =~= Set::<Seq<char>>::empty());
        }
        u
    }

    /// The settings.
    pub fn config(&self) -> (r: &IncrementalUpdaterConfig)
        ensures
            *r == self.settings(),
    {
        &self.config
    }

    /// The change tracker.
    pub fn change_tracker(&self) -> (r: &ChangeTracker)
        ensures
            *r == self.tracker(),
    {
        &self.change_tracker
    }

    /// The dependency graph.
    pub fn dependency_graph(&self) -> (r: &DependencyGraph)
        ensures
            *r == self.graph(),
    {
        &self.dependency_graph
    }

    /// The dependency graph, for changes made directly to it; the cache is
    /// invalidated.
    pub fn dependency_graph_mut(&mut self) -> (r: &mut DependencyGraph)
        ensures
            *r == old(self).graph(),
            final(self).graph() == *final(r),
            final(self).tracker() == old(self).tracker(),
            final(self).cache() == old(self).cache(),
            !final(self).cache_is_valid(),
            final(self).settings() == old(self).settings(),
            final(self).records() == old(self).records(),
    {
        self.cache_valid = false;
        &mut self.dependency_graph
    }

    /// Records a change, invalidating the cache.
    pub fn record_change(&mut self, change: Change) -> (r: ChangeId)
        requires
            old(self).well_formed(),
        ensures
            final(self).well_formed(),
            r == change.id,
            !final(self).cache_is_valid(),
            final(self).graph() == old(self).graph(),
            final(self).cache() == old(self).cache(),
            old(self).tracker()@.config.enable_batching && old(self).tracker()@.in_batch ==> final(self).tracker()@ == (super::change_tracker::TrackerView {
                pending: old(self).tracker()@.pending.push(change),
                ..old(self).tracker()@
            }),
            !(old(self).tracker()@.config.enable_batching && old(self).tracker()@.in_batch) ==> final(self).tracker()@ == old(self).tracker()@.after_commit(seq![change]),
            final(self).settings() == old(self).settings(),
            final(self).records() == old(self).records(),
    {
        self.cache_valid = false;
        self.change_tracker.record_change(change)
    }

    /// Starts a batch of changes, invalidating the cache.
    pub fn start_batch(&mut self)
        requires
            old(self).well_formed(),
        ensures
            final(self).well_formed(),
            !final(self).cache_is_valid(),
            final(self).graph() == old(self).graph(),
            final(self).tracker()@ == (super::change_tracker::TrackerView {
                in_batch: true,
                pending: Seq::empty(),
                ..old(self).tracker()@
            }),
            final(self).settings() == old(self).settings(),
            final(self).records() == old(self).records(),
    {
        self.cache_valid = false;
        self.change_tracker.start_batch();
    }

    /// Commits the batch of changes and returns their identifiers.
    pub fn end_batch(&mut self) -> (ids: Vec<ChangeId>)
        requires
            old(self).well_formed(),
        ensures
            final(self).well_formed(),
            final(self).cache_is_valid() == old(self).cache_is_valid(),
            final(self).cache() == old(self).cache(),
            final(self).graph() == old(self).graph(),
            final(self).tracker()@ == (super::change_tracker::TrackerView {
                in_batch: false,
                pending: Seq::empty(),
                ..old(self).tracker()@
            }).after_commit(old(self).tracker()@.pending),
            ids@ == old(self).tracker()@.pending.map_values(|c: Change| c.id),
            final(self).settings() == old(self).settings(),
            final(self).records() == old(self).records(),
    {
        self.change_tracker.end_batch()
    }

    /// Adds the dependency `from -> to`; on success the cache is
    /// invalidated.
    pub fn add_dependency(&mut self, from: &str, to: &str) -> (r: Result<(), DependencyGraphError>)
        requires
            old(self).well_formed(),
            old(self).graph()@.edge_total() < usize::MAX,
        ensures
            final(self).well_formed(),
            final(self).tracker() == old(self).tracker(),
            final(self).cache() == old(self).cache(),
            r is Err <==> old(self).graph()@.with_node(from@).with_node(to@).reaches(true, to@, from@),
            r is Err ==> final(self).graph()@ == old(self).graph()@.with_node(from@).with_node(to@)
                && final(self).cache_is_valid() == old(self).cache_is_valid(),
            r is Ok ==> final(self).graph()@ == old(self).graph()@.with_node(from@).with_node(
                to@,
            ).add_edge(from@, to@) && !final(self).cache_is_valid(),
            final(self).settings() == old(self).settings(),
            final(self).records() == old(self).records(),
    {
        let ghost g0 = self.dependency_graph@;
        let r = self.dependency_graph.add_dependency(from, to);
        match r {
            Ok(()) => {
                self.cache_valid = false;
                Ok(())
            },
            Err(e) => {
                proof {
                    old(self).dependency_graph.lemma_rows_per_node();
                    let g1 = g0.with_node(from@);
                    assert(g1.adjacency(false).len() == g1.nodes.len());
                    assert forall|x: Seq<char>| #[trigger] affected_by(self.dependency_graph@, self.cached_entity@).contains(x)
                        == affected_by(g0, self.cached_entity@).contains(x) by {
                        g0.lemma_with_node_reaches_plus(false, from@, self.cached_entity@, x);
                        g1.lemma_with_node_reaches_plus(false, to@, self.cached_entity@, x);
                    }
                    assert(affected_by(self.dependency_graph@, self.cached_entity@) =~= affected_by(g0, self.cached_entity@));
                }
                Err(e)
            },
        }
    }

    /// Removes an entity and its dependencies from the graph, invalidating
    /// the cache.
    pub fn remove_entity(&mut self, entity_id: &str)
        requires
            old(self).well_formed(),
        ensures
            final(self).well_formed(),
            final(self).graph()@ == old(self).graph()@.without_node(entity_id@),
            final(self).tracker() == old(self).tracker(),
            !final(self).cache_is_valid(),
            final(self).settings() == old(self).settings(),
            final(self).records() == old(self).records(),
    {
        self.dependency_graph.remove_node(entity_id);
        self.cache_valid = false;
    }

    /// The entities affected by a change to `entity_id`: every entity that
    /// depends on it, directly or through others. The answer is cached, and
    /// given again from the cache for the same entity while it is valid.
    pub fn get_affected_entities(&mut self, entity_id: &str) -> (r: Vec<String>)
        requires
            old(self).well_formed(),
        ensures
            final(self).well_formed(),
            str_views(r@).no_duplicates(),
            str_views(r@).to_set() == affected_by(old(self).graph()@, entity_id@),
            final(self).cache() == str_views(r@).to_set(),
            final(self).cache_is_valid(),
            final(self).graph() == old(self).graph(),
            final(self).tracker() == old(self).tracker(),
            final(self).records() == old(self).records(),
            final(self).settings() == old(self).settings(),
    {
        let ghost g = self.dependency_graph@;
        if self.cache_valid && str_eq(self.cached_entity.as_str(), entity_id) {
            return clone_strings(&self.cached_affected);
        }
        let affected = self.dependency_graph.get_all_dependents(entity_id);
        proof {
            let s = str_views(affected@);
            assert(s.to_set() =~= affected_by(g, entity_id@));
        }
        self.cached_affected = clone_strings(&affected);
        self.cached_entity = entity_id.to_owned();
        self.cache_valid = true;
        affected
    }
}

impl IncrementalUpdater {
    /// The entities affected by the most recent changes (up to 100, newest
    /// first), together with the changed entities themselves; each listed
    /// once.
    pub fn get_all_affected_entities(&mut self) -> (r: Vec<String>)
        requires
            old(self).well_formed(),
        ensures
            final(self).well_formed(),
            str_views(r@).no_duplicates(),
            str_views(r@).to_set() == affected_union(
                old(self).graph()@,
                recent_ids(old(self).tracker()@.history, 100),
            ),
            final(self).graph() == old(self).graph(),
            final(self).tracker() == old(self).tracker(),
            final(self).records() == old(self).records(),
            final(self).settings() == old(self).settings(),
    {
        let ghost g = self.dependency_graph@;
        let ids = {
            let recent = self.change_tracker.get_recent_changes(100);
            let mut ids: Vec<String> = Vec::new();
            let mut k: usize = 0;
            while k < recent.len()
                invariant
                    k <= recent@.len(),
                    ids@.len() == k,
                    forall|m: int| 0 <= m < k ==> (#[trigger] ids@[m])@ == recent@[m].change.entity_id@,
                decreases recent@.len() - k,
            {
                ids.push(recent[k].change.entity_id.clone());
                k = k + 1;
            }
            ids
        };
        let ghost idv = str_views(ids@);
        proof {
            assert(idv =~= recent_ids(self.change_tracker@.history, 100));
            assert(idv.skip(0) =~= idv);
        }
        let mut all: Vec<String> = Vec::new();
        proof {
            assert(str_views(all@).to_set().union(affected_union(g, idv.skip(0)))
                =~= affected_union(g, idv));
        }
        let mut k: usize = 0;
        while k < ids.len()
            invariant
                self.well_formed(),
                g == self.dependency_graph@,
                self.tracker() == old(self).tracker(),
                self.graph() == old(self).graph(),
                self.records() == old(self).records(),
                self.settings() == old(self).settings(),
                idv == str_views(ids@),
                k <= ids@.len(),
                str_views(all@).no_duplicates(),
                str_views(all@).to_set().union(affected_union(g, idv.skip(k as int)))
                    == affected_union(g, idv),
            decreases ids@.len() - k,
        {
            let ghost all0 = str_views(all@).to_set();
            let affected = self.get_affected_entities(ids[k].as_str());
            let ghost a = str_views(affected@).to_set();
            let mut q: usize = 0;
            while q < affected.len()
                invariant
                    q <= affected@.len(),
                    str_views(all@).no_duplicates(),
                    str_views(all@).to_set() == all0.union(str_views(affected@.take(q as int)).to_set()),
                decreases affected@.len() - q,
            {
                add_unique(&mut all, &affected[q]);
                proof {
                    assert(str_views(affected@.take(q + 1)) =~= str_views(affected@.take(q as int)).push(affected@[q as int]@));
                    crate::seqs::lemma_to_set_push(str_views(affected@.take(q as int)), affected@[q as int]@);
                    assert(str_views(all@).to_set() =~= all0.union(str_views(affected@.take(q + 1)).to_set()));
                }
                q = q + 1;
            }
            proof {
                assert(affected@.take(affected@.len() as int) =~= affected@);
            }
            add_unique(&mut all, &ids[k]);
            proof {
                let e = idv[k as int];
                assert(idv.skip(k as int).skip(1) =~= idv.skip(k + 1));
                assert(idv.skip(k as int)[0] == e);
                assert(affected_union(g, idv.skip(k as int)) == a.insert(e).union(
                    affected_union(g, idv.skip(k + 1)),
                ));
                assert(str_views(all@).to_set().union(affected_union(g, idv.skip(k + 1)))
                    =~= all0.union(affected_union(g, idv.skip(k as int))));
            }
            k = k + 1;
        }
        proof {
            assert(idv.skip(ids@.len() as int) =~= Seq::<Seq<char>>::empty());
            assert(str_views(all@).to_set().union(Set::<Seq<char>>::empty()) =~= str_views(all@).to_set());
        }
        all
    }

    /// The affected entities (see `get_all_affected_entities`) that are
    /// nodes of the graph, in the order an incremental update rebuilds
    /// them: each comes after the affected entities it depends on.
    pub fn update_order(&mut self) -> (r: Vec<String>)
        requires
            old(self).well_formed(),
        ensures
            final(self).well_formed(),
            final(self).graph() == old(self).graph(),
            final(self).tracker() == old(self).tracker(),
            final(self).records() == old(self).records(),
            final(self).settings() == old(self).settings(),
            is_rebuild_order(
                old(self).graph()@,
                affected_union(old(self).graph()@, recent_ids(old(self).tracker()@.history, 100)),
                str_views(r@),
            ),
    {
        let ghost g = self.dependency_graph@;
        let affected = self.get_all_affected_entities();
        let ghost aff = str_views(affected@).to_set();
        let order = match self.dependency_graph.topological_sort() {
            Ok(o) => o,
            Err(_) => clone_strings(&affected),
        };
        let ghost ov = str_views(order@);
        let mut out: Vec<String> = Vec::new();
        let mut i: usize = 0;
        while i < order.len()
            invariant
                ov == str_views(order@),
                is_topological_order(g, ov),
                i <= order@.len(),
                str_views(out@).no_duplicates(),
                forall|x: Seq<char>|
                    #[trigger] str_views(out@).contains(x) <==> (exists|p: int|
                        0 <= p < i && ov[p] == x) && aff.contains(x),
                forall|k: int, b: Seq<char>|
                    0 <= k < out@.len() && #[trigger] g.edge(out@[k]@, b) && aff.contains(b)
                        ==> exists|p: int| 0 <= p < k && out@[p]@ == b,
                aff == str_views(affected@).to_set(),
            decreases order@.len() - i,
        {
            let mut found = false;
            let mut q: usize = 0;
            while q < affected.len()
                invariant
                    q <= affected@.len(),
                    i < order@.len(),
                    found <==> exists|m: int| 0 <= m < q && affected@[m]@ == order@[i as int]@,
                decreases affected@.len() - q,
            {
                if str_eq(affected[q].as_str(), order[i].as_str()) {
                    found = true;
                }
                q = q + 1;
            }
            proof {
                assert(ov[i as int] == order@[i as int]@);
                if found {
                    let m = choose|m: int| 0 <= m < affected@.len() && affected@[m]@ == order@[i as int]@;
                    assert(str_views(affected@)[m] == order@[i as int]@);
                } else {
                    assert forall|m: int| 0 <= m < affected@.len() implies str_views(affected@)[m] != ov[i as int] by {
                        assert(str_views(affected@)[m] == affected@[m]@);
                    }
                }
                assert(found == aff.contains(ov[i as int]));
            }
            if found {
                let ghost before = out@;
                let ghost x = ov[i as int];
                proof {
                    if str_views(before).contains(x) {
                        let p = choose|p: int| 0 <= p < i && ov[p] == x;
                        assert(ov[p] == ov[i as int]);
                    }
                }
                out.push(order[i].clone());
                proof {
                    assert(out@[before.len() as int]@ == x);
                    assert(str_views(out@) =~= str_views(before).push(x));
                    assert forall|y: Seq<char>|
                        #[trigger] str_views(out@).contains(y) <==> (exists|p: int|
                            0 <= p < i + 1 && ov[p] == y) && aff.contains(y) by {
                        if y == x {
                            assert(str_views(out@)[before.len() as int] == x);
                        }
                        if str_views(out@).contains(y) && y != x {
                            let j = choose|j: int| 0 <= j < str_views(out@).len() && str_views(out@)[j] == y;
                            assert(str_views(before)[j] == y);
                        }
                        if str_views(before).contains(y) {
                            let j = choose|j: int| 0 <= j < str_views(before).len() && str_views(before)[j] == y;
                            assert(str_views(out@)[j] == y);
                        }
                    }
                    assert forall|k: int, b: Seq<char>|
                        0 <= k < out@.len() && #[trigger] g.edge(out@[k]@, b) && aff.contains(b)
                            implies exists|p: int| 0 <= p < k && out@[p]@ == b by {
                        if k < before.len() {
                            assert(out@[k] == before[k]);
                            let p = choose|p: int| 0 <= p < k && before[p]@ == b;
                            assert(out@[p] == before[p]);
                        } else {
                            assert(out@[k]@ == ov[i as int]);
                            let p2 = choose|p2: int| 0 <= p2 < i && ov[p2] == b;
                            assert(str_views(before).contains(b));
                            let j = choose|j: int| 0 <= j < str_views(before).len() && str_views(before)[j] == b;
                            assert(out@[j] == before[j]);
                        }
                    }
                }
            } else {
                proof {
                    assert forall|y: Seq<char>|
                        #[trigger] str_views(out@).contains(y) <==> (exists|p: int|
                            0 <= p < i + 1 && ov[p] == y) && aff.contains(y) by {
                        if (exists|p: int| 0 <= p < i + 1 && ov[p] == y) && aff.contains(y) {
                            let p = choose|p: int| 0 <= p < i + 1 && ov[p] == y;
                            if p == i {
                                assert(false);
                            }
                        }
                    }
                }
            }
            i = i + 1;
        }
        proof {
            assert forall|x: Seq<char>|
                #[trigger] str_views(out@).contains(x) <==> g.nodes.contains(x) && aff.contains(x) by {
                if str_views(out@).contains(x) {
                    let p = choose|p: int| 0 <= p < i && ov[p] == x;
                    assert(ov[p] == x);
                    assert(ov.contains(x));
                }
                if g.nodes.contains(x) && aff.contains(x) {
                    assert(ov.contains(x));
                    let p = choose|p: int| 0 <= p < ov.len() && ov[p] == x;
                    assert(0 <= p < i && ov[p] == x);
                }
            }
            let rv = str_views(out@);
            assert forall|k: int, b: Seq<char>|
                0 <= k < rv.len() && #[trigger] g.edge(rv[k], b) && rv.contains(b) implies exists|p: int| 0 <= p < k && rv[p] == b by {
                assert(rv[k] == out@[k]@);
                let p = choose|p: int| 0 <= p < k && out@[p]@ == b;
                assert(rv[p] == b);
            }
        }
        out
    }

    /// Decides what an update does. With incremental updates off, every
    /// entity is rebuilt. Otherwise nothing is done when no entity is affected, all
    /// entities are rebuilt when the affected share passes the threshold
    /// (`over_threshold`, measured by the caller against `total_entities`),
    /// and else the affected entities are rebuilt in dependency order.
    pub fn plan_update(&mut self, total_entities: usize, over_threshold: bool) -> (a: UpdateAction)
        requires
            old(self).well_formed(),
        ensures
            final(self).well_formed(),
            final(self).graph() == old(self).graph(),
            final(self).tracker() == old(self).tracker(),
            final(self).records() == old(self).records(),
            final(self).settings() == old(self).settings(),
            !old(self).settings().enable_incremental ==> a == (UpdateAction::FullRebuild { total_entities }),
            old(self).settings().enable_incremental ==> ({
                let g = old(self).graph()@;
                let aff = affected_union(g, recent_ids(old(self).tracker()@.history, 100));
                &&& aff == Set::<Seq<char>>::empty() ==> a is NoChanges
                &&& aff != Set::<Seq<char>>::empty() && over_threshold ==> a == (UpdateAction::FullRebuild {
                    total_entities,
                })
                &&& aff != Set::<Seq<char>>::empty() && !over_threshold ==> (a matches UpdateAction::Incremental(v)
                    && is_rebuild_order(g, aff, str_views(v@)))
            }),
    {
        if !self.config.enable_incremental {
            return UpdateAction::FullRebuild { total_entities };
        }
        let affected = self.get_all_affected_entities();
        if affected.len() == 0 {
            proof {
                assert(str_views(affected@) =~= Seq::<Seq<char>>::empty());
                assert(str_views(affected@).to_set() =~= Set::<Seq<char>>::empty());
            }
            return UpdateAction::NoChanges;
        }
        proof {
            assert(str_views(affected@).to_set().contains(str_views(affected@)[0]));
        }
        if over_threshold {
            return UpdateAction::FullRebuild { total_entities };
        }
        let order = self.update_order();
        UpdateAction::Incremental(order)
    }

    /// Records the outcome of an update that carried out `action` (see
    /// `update_record`) and adds it to the history, which keeps only the
    /// newest `max_update_history` records.
    pub fn finish_update(
        &mut self,
        action: &UpdateAction,
        updated: Vec<String>,
        errors: Vec<String>,
        elapsed_ms: u64,
        id: Uuid,
        timestamp: u64,
    ) -> (rec: UpdateRecord)
        requires
            old(self).well_formed(),
        ensures
            final(self).well_formed(),
            rec@ == update_record(*action, str_views(updated@), str_views(errors@), elapsed_ms, id, timestamp),
            record_views(final(self).records()) == keep_last(
                record_views(old(self).records()).push(rec@),
                old(self).settings().max_update_history as nat,
            ),
            final(self).graph() == old(self).graph(),
            final(self).tracker() == old(self).tracker(),
            final(self).settings() == old(self).settings(),
            final(self).cache_is_valid() == old(self).cache_is_valid(),
            final(self).cache() == old(self).cache(),
    {
        let rec = make_record(action, &updated, &errors, elapsed_ms, id, timestamp);
        let stored = make_record(action, &updated, &errors, elapsed_ms, id, timestamp);
        let ghost s = stored;
        let ghost h0 = self.records();
        self.record_update(stored);
        proof {
            lemma_keep_last_views(h0, s, self.config.max_update_history as nat);
        }
        rec
    }

    /// Appends a record to the update history, keeping only the newest
    /// `max_update_history` records.
    pub fn record_update(&mut self, record: UpdateRecord)
        requires
            old(self).well_formed(),
        ensures
            final(self).well_formed(),
            final(self).records() == keep_last(
                old(self).records().push(record),
                old(self).settings().max_update_history as nat,
            ),
            final(self).graph() == old(self).graph(),
            final(self).tracker() == old(self).tracker(),
            final(self).settings() == old(self).settings(),
            final(self).cache_is_valid() == old(self).cache_is_valid(),
            final(self).cache() == old(self).cache(),
    {
        self.update_history.push(record);
        let ghost h0 = self.update_history@;
        let max = self.config.max_update_history;
        while self.update_history.len() > max
            invariant
                max == self.config.max_update_history,
                self.update_history@.len() <= h0.len(),
                self.update_history@ == h0.subrange(h0.len() - self.update_history@.len(), h0.len() as int),
                self.update_history@.len() >= if h0.len() > max {
                    max as int
                } else {
                    h0.len() as int
                },
                self.change_tracker == old(self).change_tracker,
                self.dependency_graph == old(self).dependency_graph,
                self.config == old(self).config,
                self.cached_affected == old(self).cached_affected,
                self.cached_entity == old(self).cached_entity,
                self.cache_valid == old(self).cache_valid,
            decreases self.update_history@.len(),
        {
            self.update_history.remove(0);
            proof {
                assert(self.update_history@ =~= h0.subrange(h0.len() - self.update_history@.len(), h0.len() as int));
            }
        }
        proof {
            if h0.len() <= max {
                assert(self.update_history@ =~= h0);
            }
        }
    }

    /// Records of past updates, oldest first.
    pub fn update_history(&self) -> (r: &[UpdateRecord])
        ensures
            r@ == self.records(),
    {
        self.update_history.as_slice()
    }

    /// The most recent update record.
    pub fn last_update(&self) -> (r: Option<&UpdateRecord>)
        ensures
            match r {
                Some(rec) => self.records().len() > 0 && *rec == self.records().last(),
                None => self.records().len() == 0,
            },
    {
        let n = self.update_history.len();
        if n == 0 {
            None
        } else {
            Some(&self.update_history[n - 1])
        }
    }

    /// Forgets the recorded changes and the cache; the graph stays.
    pub fn clear(&mut self)
        requires
            old(self).well_formed(),
        ensures
            final(self).well_formed(),
            final(self).tracker()@ == (super::change_tracker::TrackerView {
                history: Seq::empty(),
                redo: Seq::empty(),
                pending: Seq::empty(),
                ..old(self).tracker()@
            }),
            final(self).graph() == old(self).graph(),
            final(self).cache().len() == 0,
            !final(self).cache_is_valid(),
            final(self).settings() == old(self).settings(),
            final(self).records() == old(self).records(),
    {
        self.change_tracker.clear();
        self.cached_affected.clear();
        self.cache_valid = false;
        proof {
            assert(str_views(self.cached_affected@) =~= Seq::<Seq<char>>::empty());
            assert(self.cache() =~= Set::<Seq<char>>::empty());
        }
    }

    /// Counters of the updater.
    pub fn stats(&self) -> (r: UpdaterStats)
        requires
            self.well_formed(),
        ensures
            r.total_entities == self.graph()@.nodes.len(),
            r.total_dependencies == self.graph()@.edge_total(),
            r.pending_changes == self.tracker()@.history.len(),
            r.update_count == self.records().len(),
            r.cache_valid == self.cache_is_valid(),
            r.affected_count == self.cache().len(),
    {
        proof {
            str_views(self.cached_affected@).unique_seq_to_set();
        }
        UpdaterStats {
            total_entities: self.dependency_graph.node_count(),
            total_dependencies: self.dependency_graph.edge_count(),
            pending_changes: self.change_tracker.change_count(),
            update_count: self.update_history.len(),
            cache_valid: self.cache_valid,
            affected_count: self.cached_affected.len(),
        }
    }
}

impl Default for IncrementalUpdater {
    fn default() -> (u: IncrementalUpdater)
        ensures
            u.well_formed(),
            u.graph()@.nodes.len() == 0,
            !u.cache_is_valid(),
            u.records() == Seq::<UpdateRecord>::empty(),
            u.settings().enable_incremental,
            u.settings().max_update_history == 100,
    {
        IncrementalUpdater::new()
    }
}

/// The entity ids of the last `n` history entries, newest first.
pub open spec fn recent_ids(h: Seq<super::change_tracker::ChangeRecord>, n: nat) -> Seq<Seq<char>> {
    let m = if h.len() < n {
        h.len()
    } else {
        n
    };
    Seq::new(m, |k: int| h[h.len() - 1 - k].change.entity_id@)
}

/// Adds `s` to `v` unless it is there already.
fn add_unique(v: &mut Vec<String>, s: &String)
    requires
        str_views(old(v)@).no_duplicates(),
    ensures
        str_views(final(v)@).no_duplicates(),
        str_views(final(v)@).to_set() == str_views(old(v)@).to_set().insert(s@),
{
    let mut k: usize = 0;
    while k < v.len()
        invariant
            k <= v@.len(),
            v@ == old(v)@,
            str_views(v@).no_duplicates(),
            forall|m: int| 0 <= m < k ==> v@[m]@ != s@,
        decreases v@.len() - k,
    {
        if str_eq(v[k].as_str(), s.as_str()) {
            proof {
                assert(str_views(v@)[k as int] == s@);
                assert(str_views(v@).to_set().insert(s@) =~= str_views(v@).to_set());
            }
            return;
        }
        k = k + 1;
    }
    let ghost before = str_views(v@);
    v.push(s.clone());
    proof {
        assert(str_views(v@) =~= before.push(s@));
        assert(!before.contains(s@));
        crate::seqs::lemma_push_no_duplicates(before, s@);
        crate::seqs::lemma_to_set_push(before, s@);
    }
}

/// The record of an update that carried out `action`.
fn make_record(
    action: &UpdateAction,
    updated: &Vec<String>,
    errors: &Vec<String>,
    elapsed_ms: u64,
    id: Uuid,
    timestamp: u64,
) -> (r: UpdateRecord)
    ensures
        r@ == update_record(*action, str_views(updated@), str_views(errors@), elapsed_ms, id, timestamp),
{
    let (status, list) = match action {
        UpdateAction::NoChanges => (UpdateStatus::NoChanges, Vec::new()),
        UpdateAction::FullRebuild { total_entities } => {
            let mut list: Vec<String> = Vec::new();
            list.push(crate::text::owned("[full rebuild]"));
            proof {
                assert(str_views(list@) =~= seq![full_rebuild_marker()]);
            }
            (UpdateStatus::Success { entities_updated: *total_entities, elapsed_ms }, list)
        },
        UpdateAction::Incremental(_) => {
            let list = clone_strings(updated);
            if errors.len() == 0 {
                (UpdateStatus::Success { entities_updated: updated.len(), elapsed_ms }, list)
            } else {
                (
                    UpdateStatus::Partial {
                        entities_updated: updated.len(),
                        entities_failed: errors.len(),
                        errors: clone_strings(errors),
                    },
                    list,
                )
            }
        },
    };
    proof {
        assert(str_views(Seq::<String>::empty()) =~= Seq::<Seq<char>>::empty());
    }
    UpdateRecord { id, timestamp, status, updated_entities: list, trigger_change_id: None }
}

/// Keeping the newest records and taking their views commute.
proof fn lemma_keep_last_views(h: Seq<UpdateRecord>, x: UpdateRecord, m: nat)
    ensures
        record_views(keep_last(h.push(x), m)) == keep_last(record_views(h).push(x@), m),
{
    let a = record_views(keep_last(h.push(x), m));
    let b = keep_last(record_views(h).push(x@), m);
    assert(record_views(h.push(x)) =~= record_views(h).push(x@));
    assert(a =~= b);
}

/// A copy of a vector of strings.
fn clone_strings(v: &Vec<String>) -> (r: Vec<String>)
    ensures
        r@ == v@,
{
    let mut out: Vec<String> = Vec::new();
    let mut k: usize = 0;
    while k < v.len()
        invariant
            k <= v.len(),
            out@ == v@.take(k as int),
        decreases v.len() - k,
    {
        out.push(v[k].clone());
        proof {
            assert(v@.take(k + 1) =~= v@.take(k as int).push(v@[k as int]));
        }
        k = k + 1;
    }
    proof {
        assert(v@.take(v.len() as int) =~= v@);
    }
    out
}

} // verus!
