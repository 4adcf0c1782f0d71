//! Recording of changes to entities, with history, undo/redo and batches.

use crate::text::str_eq;
use std::collections::VecDeque;
use std::time::{Duration, SystemTime, SystemTimeError};
use uuid::Uuid;
use vstd::prelude::*;

verus! {

#[verifier::external_type_specification]
#[verifier::external_body]
pub struct ExUuid(Uuid);

#[verifier::external_type_specification]
#[verifier::external_body]
pub struct ExJsonValue(serde_json::Value);

/// `uuid::Uuid`'s `clone`: `Uuid` is `Copy` and its `Clone` is derived, so
/// the copy is the same identifier.
pub assume_specification[ <Uuid as Clone>::clone ](u: &Uuid) -> (r: Uuid)
    ensures
        r == *u,
;

/// `serde_json::Value`'s derived `clone`. Nothing is claimed of the copy.
pub assume_specification[ <serde_json::Value as Clone>::clone ](v: &serde_json::Value) -> (r:
    serde_json::Value);

#[verifier::external_type_specification]
#[verifier::external_body]
pub struct ExSystemTime(SystemTime);

#[verifier::external_type_specification]
#[verifier::external_body]
pub struct ExSystemTimeError(SystemTimeError);

/// `uuid::Uuid::new_v4`: a fresh random identifier. Nothing is claimed of
/// its value, which comes from a random source.
#[verifier::external_body]
fn random_uuid() -> Uuid {
    Uuid::new_v4()
}

/// `std::time::SystemTime::now`: the current wall-clock time. Nothing is
/// claimed of it.
#[verifier::external_body]
fn system_now() -> SystemTime {
    SystemTime::now()
}

/// `SystemTime::duration_since` with the Unix epoch as the earlier time:
/// how long after the epoch `t` lies, or an error when `t` is earlier. The
/// time is opaque here, so nothing is claimed of which comes back.
#[verifier::external_body]
fn duration_since_epoch(t: SystemTime) -> Result<Duration, SystemTimeError> {
    t.duration_since(std::time::UNIX_EPOCH)
}

/// `Duration::as_millis`: the whole milliseconds of an opaque duration.
#[verifier::external_body]
fn duration_millis(d: &Duration) -> u128 {
    d.as_millis()
}

/// Milliseconds since the Unix epoch, truncated to 64 bits; 0 when the
/// clock reads earlier than the epoch.
pub fn current_timestamp() -> u64 {
    match duration_since_epoch(system_now()) {
        Ok(d) => millis_to_timestamp(duration_millis(&d)),
        Err(_) => 0,
    }
}

/// A millisecond count as stored in a change: its low 64 bits.
pub fn millis_to_timestamp(ms: u128) -> (r: u64)
    ensures
        r == ms % 0x1_0000_0000_0000_0000,
{
    let r = (ms % 0x1_0000_0000_0000_0000) as u64;
    r
}

/// Unique identifier for a change.
#[derive(Debug, Clone, Copy, PartialEq, Eq, Hash)]
pub struct ChangeId(pub Uuid);

impl ChangeId {
    /// A fresh random identifier.
    pub fn new() -> ChangeId {
        ChangeId(random_uuid())
    }
}

impl Default for ChangeId {
    fn default() -> ChangeId {
        ChangeId::new()
    }
}

/// Kind of change.
#[derive(Debug, Clone, PartialEq, Eq)]
pub enum ChangeType {
    /// Entity was added.
    Added,
    /// Entity was removed.
    Removed,
    /// Entity geometry was modified.
    GeometryModified,
    /// A named parameter of the entity changed.
    ParameterChanged { name: String },
    /// Entity transform was modified.
    TransformModified,
    /// Entity visibility changed.
    VisibilityChanged,
    /// Entity material changed.
    MaterialChanged,
    /// Entity suppression state changed.
    SuppressionChanged,
}

/// A change to one entity.
#[derive(Debug, Clone)]
pub struct Change {
    /// Unique change identifier.
    pub id: ChangeId,
    /// Entity that changed.
    pub entity_id: String,
    /// Kind of change.
    pub change_type: ChangeType,
    /// Milliseconds since the Unix epoch when the change was made.
    pub timestamp: u64,
    /// Value before the change, for undo.
    pub old_value: Option<serde_json::Value>,
    /// Value after the change, for redo.
    pub new_value: Option<serde_json::Value>,
    /// Optional description.
    pub description: Option<String>,
}

impl Change {
    /// A change of the given kind to `entity_id`, stamped with a fresh
    /// identifier and the current time.
    pub fn new(
        entity_id: &str,
        change_type: ChangeType,
        old_value: Option<serde_json::Value>,
        new_value: Option<serde_json::Value>,
    ) -> (c: Change)
        ensures
            c.entity_id@ == entity_id@,
            c.change_type == change_type,
            c.old_value == old_value,
            c.new_value == new_value,
            c.description is None,
    {
        let timestamp = current_timestamp();
        Change {
            id: ChangeId::new(),
            entity_id: entity_id.to_owned(),
            change_type,
            timestamp,
            old_value,
            new_value,
            description: None,
        }
    }

    /// An entity addition, with the added value.
    pub fn added(entity_id: &str, value: Option<serde_json::Value>) -> (c: Change)
        ensures
            c.entity_id@ == entity_id@,
            c.change_type == ChangeType::Added,
            c.old_value is None,
            c.new_value == value,
            c.description is None,
    {
        Change::new(entity_id, ChangeType::Added, None, value)
    }

    /// An entity removal, with the removed value.
    pub fn removed(entity_id: &str, old_value: Option<serde_json::Value>) -> (c: Change)
        ensures
            c.entity_id@ == entity_id@,
            c.change_type == ChangeType::Removed,
            c.old_value == old_value,
            c.new_value is None,
            c.description is None,
    {
        Change::new(entity_id, ChangeType::Removed, old_value, None)
    }

    /// A geometry modification.
    pub fn geometry_modified(
        entity_id: &str,
        old_value: Option<serde_json::Value>,
        new_value: Option<serde_json::Value>,
    ) -> (c: Change)
        ensures
            c.entity_id@ == entity_id@,
            c.change_type == ChangeType::GeometryModified,
            c.old_value == old_value,
            c.new_value == new_value,
            c.description is None,
    {
        Change::new(entity_id, ChangeType::GeometryModified, old_value, new_value)
    }

    /// A change of the parameter `param_name` from one value to another.
    pub fn parameter_changed(
        entity_id: &str,
        param_name: &str,
        old_value: serde_json::Value,
        new_value: serde_json::Value,
    ) -> (c: Change)
        ensures
            c.entity_id@ == entity_id@,
            c.change_type matches ChangeType::ParameterChanged { name } && name@ == param_name@,
            c.old_value == Some(old_value),
            c.new_value == Some(new_value),
            c.description is None,
    {
        let timestamp = current_timestamp();
        Change {
            id: ChangeId::new(),
            entity_id: entity_id.to_owned(),
            change_type: ChangeType::ParameterChanged { name: param_name.to_owned() },
            timestamp,
            old_value: Some(old_value),
            new_value: Some(new_value),
            description: None,
        }
    }

    /// A transform modification.
    pub fn transform_modified(
        entity_id: &str,
        old_value: Option<serde_json::Value>,
        new_value: Option<serde_json::Value>,
    ) -> (c: Change)
        ensures
            c.entity_id@ == entity_id@,
            c.change_type == ChangeType::TransformModified,
            c.old_value == old_value,
            c.new_value == new_value,
            c.description is None,
    {
        Change::new(entity_id, ChangeType::TransformModified, old_value, new_value)
    }

    /// The same change with a description.
    pub fn with_description(self, description: &str) -> (c: Change)
        ensures
            c.description matches Some(d) && d@ == description@,
            c.id == self.id,
            c.entity_id == self.entity_id,
            c.change_type == self.change_type,
            c.timestamp == self.timestamp,
            c.old_value == self.old_value,
            c.new_value == self.new_value,
    {
        let mut c = self;
        c.description = Some(description.to_owned());
        c
    }
}

/// A recorded change with its undo state.
#[derive(Debug, Clone)]
pub struct ChangeRecord {
    /// The change.
    pub change: Change,
    /// Whether the change is currently applied.
    pub applied: bool,
    /// Whether the change can be undone.
    pub undoable: bool,
}

impl ChangeRecord {
    /// A record of an applied, undoable change.
    pub fn new(change: Change) -> (r: ChangeRecord)
        ensures
            r == (ChangeRecord { change, applied: true, undoable: true }),
    {
        ChangeRecord { change, applied: true, undoable: true }
    }
}

/// Settings of a change tracker.
#[derive(Debug, Clone, Copy)]
pub struct ChangeTrackerConfig {
    /// Maximum number of changes kept in the history.
    pub max_history_size: usize,
    /// Whether changes recorded between `start_batch` and `end_batch` are
    /// held back and committed together.
    pub enable_batching: bool,
    /// Batch timeout in milliseconds.
    pub batch_timeout_ms: u64,
}

impl Default for ChangeTrackerConfig {
    fn default() -> (c: ChangeTrackerConfig)
        ensures
            c.max_history_size == 1000,
            c.enable_batching,
            c.batch_timeout_ms == 100,
    {
        ChangeTrackerConfig { max_history_size: 1000, enable_batching: true, batch_timeout_ms: 100 }
    }
}

/// The last `m` entries of `s`, or all of them if there are fewer.
pub open spec fn keep_last<A>(s: Seq<A>, m: nat) -> Seq<A> {
    if s.len() > m {
        s.subrange(s.len() - m, s.len() as int)
    } else {
        s
    }
}

/// The record a change gets when it is committed.
pub open spec fn committed(c: Change) -> ChangeRecord {
    ChangeRecord { change: c, applied: true, undoable: true }
}

/// Abstract state of a change tracker.
pub struct TrackerView {
    pub history: Seq<ChangeRecord>,
    pub redo: Seq<ChangeRecord>,
    pub pending: Seq<Change>,
    pub in_batch: bool,
    pub config: ChangeTrackerConfig,
}

impl TrackerView {
    /// The state after the last history entry is undone.
    pub open spec fn after_undo(self) -> TrackerView {
        if self.history.len() == 0 {
            self
        } else {
            let rec = self.history.last();
            TrackerView {
                history: self.history.drop_last(),
                redo: if rec.undoable {
                    self.redo.push(ChangeRecord { applied: false, ..rec })
                } else {
                    self.redo
                },
                ..self
            }
        }
    }

    /// The state after the last undone change is redone.
    pub open spec fn after_redo(self) -> TrackerView {
        if self.redo.len() == 0 {
            self
        } else {
            let rec = self.redo.last();
            TrackerView {
                history: self.history.push(ChangeRecord { applied: true, ..rec }),
                redo: self.redo.drop_last(),
                ..self
            }
        }
    }

    /// The state after `changes` are committed to the history at once.
    pub open spec fn after_commit(self, changes: Seq<Change>) -> TrackerView {
        TrackerView {
            history: keep_last(
                self.history + changes.map_values(|c: Change| committed(c)),
                self.config.max_history_size as nat,
            ),
            redo: Seq::empty(),
            ..self
        }
    }
}

/// Records changes to entities and keeps a bounded history with undo and
/// redo.
pub struct ChangeTracker {
    history: VecDeque<ChangeRecord>,
    redo_stack: VecDeque<ChangeRecord>,
    config: ChangeTrackerConfig,
    pending_batch: Vec<Change>,
    in_batch: bool,
}

impl View for ChangeTracker {
    type V = TrackerView;

    closed spec fn view(&self) -> TrackerView {
        TrackerView {
            history: self.history@,
            redo: self.redo_stack@,
            pending: self.pending_batch@,
            in_batch: self.in_batch,
            config: self.config,
        }
    }
}

impl TrackerView {
    /// What every reachable tracker state satisfies: history entries are
    /// applied, undone entries are not, every entry can be undone, and the
    /// history and the redo stack together hold at most
    /// `max_history_size` records.
    pub open spec fn consistent(self) -> bool {
        &&& forall|k: int| 0 <= k < self.history.len() ==> (#[trigger] self.history[k]).applied
            && self.history[k].undoable
        &&& forall|k: int| 0 <= k < self.redo.len() ==> !(#[trigger] self.redo[k]).applied
            && self.redo[k].undoable
        &&& self.history.len() + self.redo.len() <= self.config.max_history_size
    }

    /// The state right after construction with `config`.
    pub open spec fn fresh(config: ChangeTrackerConfig) -> TrackerView {
        TrackerView {
            history: Seq::empty(),
            redo: Seq::empty(),
            pending: Seq::empty(),
            in_batch: false,
            config,
        }
    }
}

impl ChangeTracker {
    /// The tracker's invariant.
    pub open spec fn well_formed(&self) -> bool {
        self@.consistent()
    }

    /// A tracker with the default settings.
    pub fn new() -> (t: ChangeTracker)
        ensures
            t.well_formed(),
            t@.history.len() == 0,
            t@.redo.len() == 0,
            t@.pending.len() == 0,
            !t@.in_batch,
            t@.config.max_history_size == 1000,
            t@.config.enable_batching,
            t@.config.batch_timeout_ms == 100,
    {
        ChangeTracker::with_config(ChangeTrackerConfig::default())
    }

    /// A tracker with the given settings.
    pub fn with_config(config: ChangeTrackerConfig) -> (t: ChangeTracker)
        ensures
            t.well_formed(),
            t@ == TrackerView::fresh(config),
    {
        let t = ChangeTracker {
            history: VecDeque::new(),
            redo_stack: VecDeque::new(),
            config,
            pending_batch: Vec::new(),
            in_batch: false,
        };
        proof {
            assert(t@ =~= TrackerView::fresh(config));
        }
        t
    }

    /// The settings.
    pub fn config(&self) -> (r: &ChangeTrackerConfig)
        ensures
            *r == self@.config,
    {
        &self.config
    }

    /// Drops the oldest history entries beyond `max_history_size`.
    fn trim_history(&mut self)
        ensures
            final(self)@ == (TrackerView {
                history: keep_last(old(self)@.history, old(self)@.config.max_history_size as nat),
                ..old(self)@
            }),
    {
        let ghost h0 = self.history@;
        let max = self.config.max_history_size;
        while self.history.len() > max
            invariant
                max == self.config.max_history_size,
                self.history@.len() <= h0.len(),
                self.history@ == h0.subrange(h0.len() - self.history@.len(), h0.len() as int),
                self.history@.len() >= if h0.len() > max {
                    max as int
                } else {
                    h0.len() as int
                },
                self.redo_stack@ == old(self).redo_stack@,
                self.pending_batch@ == old(self).pending_batch@,
                self.in_batch == old(self).in_batch,
                self.config == old(self).config,
            decreases self.history@.len(),
        {
            let ghost h1 = self.history@;
            self.history.pop_front();
            proof {
                assert(self.history@ =~= h0.subrange(h0.len() - self.history@.len(), h0.len() as int));
            }
        }
        proof {
            if h0.len() <= max {
                assert(self.history@ =~= h0);
            }
        }
    }

    /// Records a change and returns its identifier. Inside a batch (with
    /// batching enabled) the change waits for `end_batch`; otherwise it is
    /// committed at once, which also forgets the undone changes.
    pub fn record_change(&mut self, change: Change) -> (r: ChangeId)
        requires
            old(self).well_formed(),
        ensures
            final(self).well_formed(),
            r == change.id,
            old(self)@.config.enable_batching && old(self)@.in_batch ==> final(self)@ == (TrackerView {
                pending: old(self)@.pending.push(change),
                ..old(self)@
            }),
            !(old(self)@.config.enable_batching && old(self)@.in_batch) ==> final(self)@ == old(
                self,
            )@.after_commit(seq![change]),
    {
        let change_id = change.id;
        if self.config.enable_batching && self.in_batch {
            self.pending_batch.push(change);
        } else {
            let ghost v0 = self@;
            let record = ChangeRecord::new(change);
            self.history.push_back(record);
            self.redo_stack.clear();
            self.trim_history();
            proof {
                assert(seq![change].map_values(|c: Change| committed(c)) =~= seq![committed(change)]);
                assert(v0.history + seq![committed(change)] =~= v0.history.push(committed(change)));
                assert(self@ =~= v0.after_commit(seq![change]));
            }
        }
        change_id
    }

    /// Starts holding back recorded changes, dropping any still held.
    pub fn start_batch(&mut self)
        requires
            old(self).well_formed(),
        ensures
            final(self).well_formed(),
            final(self)@ == (TrackerView { in_batch: true, pending: Seq::empty(), ..old(self)@ }),
    {
        self.in_batch = true;
        self.pending_batch.clear();
    }

    /// Commits the held-back changes, in the order they were recorded, and
    /// returns their identifiers.
    pub fn end_batch(&mut self) -> (ids: Vec<ChangeId>)
        requires
            old(self).well_formed(),
        ensures
            final(self).well_formed(),
            final(self)@ == (TrackerView { in_batch: false, pending: Seq::empty(), ..old(self)@ }).after_commit(
                old(self)@.pending,
            ),
            ids@ == old(self)@.pending.map_values(|c: Change| c.id),
    {
        self.in_batch = false;
        let ghost p0 = self.pending_batch@;
        let ghost h0 = self.history@;
        let mut ids: Vec<ChangeId> = Vec::new();
        let mut k: usize = 0;
        let n = self.pending_batch.len();
        while self.pending_batch.len() > 0
            invariant
                n == p0.len(),
                k <= n,
                self.pending_batch@ == p0.subrange(k as int, n as int),
                self.history@ == h0 + p0.take(k as int).map_values(|c: Change| committed(c)),
                ids@ == p0.take(k as int).map_values(|c: Change| c.id),
                self.redo_stack@ == old(self).redo_stack@,
                self.config == old(self).config,
                !self.in_batch,
            decreases self.pending_batch@.len(),
        {
            let change = self.pending_batch.remove(0);
            let id = change.id;
            let record = ChangeRecord::new(change);
            self.history.push_back(record);
            ids.push(id);
            proof {
                assert(p0.take(k + 1) =~= p0.take(k as int).push(change));
                assert(p0.take(k + 1).map_values(|c: Change| committed(c)) =~= p0.take(
                    k as int,
                ).map_values(|c: Change| committed(c)).push(committed(change)));
                assert(p0.take(k + 1).map_values(|c: Change| c.id) =~= p0.take(k as int).map_values(
                    |c: Change| c.id,
                ).push(id));
                assert(self.pending_batch@ =~= p0.subrange(k + 1, n as int));
            }
            k = k + 1;
        }
        proof {
            assert(p0.take(n as int) =~= p0);
            assert(self.pending_batch@ =~= Seq::<Change>::empty());
            assert(self.history@ == h0 + p0.map_values(|c: Change| committed(c)));
        }
        self.redo_stack.clear();
        self.trim_history();
        ids
    }

    /// Stops holding back changes and drops those held.
    pub fn cancel_batch(&mut self)
        requires
            old(self).well_formed(),
        ensures
            final(self).well_formed(),
            final(self)@ == (TrackerView { in_batch: false, pending: Seq::empty(), ..old(self)@ }),
    {
        self.in_batch = false;
        self.pending_batch.clear();
    }

    /// Number of changes in the history.
    pub fn change_count(&self) -> (r: usize)
        ensures
            r == self@.history.len(),
    {
        self.history.len()
    }

    /// Up to `count` history entries, most recent first.
    pub fn get_recent_changes(&self, count: usize) -> (r: Vec<&ChangeRecord>)
        ensures
            r@.len() == if count < self@.history.len() {
                count as int
            } else {
                self@.history.len() as int
            },
            forall|k: int| 0 <= k < r@.len() ==> *r@[k] == self@.history[self@.history.len() - 1 - k],
    {
        let n = self.history.len();
        let mut out: Vec<&ChangeRecord> = Vec::new();
        let mut k: usize = 0;
        while k < n && k < count
            invariant
                n == self@.history.len(),
                k <= n,
                k <= count,
                out@.len() == k,
                forall|m: int| 0 <= m < k ==> *out@[m] == self@.history[n - 1 - m],
            decreases n - k,
        {
            out.push(&self.history[n - 1 - k]);
            k = k + 1;
        }
        out
    }

    /// The whole history, oldest first.
    pub fn get_all_changes(&self) -> (r: &VecDeque<ChangeRecord>)
        ensures
            r@ == self@.history,
    {
        &self.history
    }

    /// Undoes the most recent change: it leaves the history for the redo
    /// stack, marked as not applied, and is returned.
    pub fn undo(&mut self) -> (r: Option<&ChangeRecord>)
        requires
            old(self).well_formed(),
        ensures
            final(self).well_formed(),
            final(self)@ == old(self)@.after_undo(),
            r matches Some(rec) ==> *rec == final(self)@.redo.last(),
            r is Some <==> old(self)@.history.len() > 0,
    {
        if let Some(mut record) = self.history.pop_back() {
            if record.undoable {
                record.applied = false;
                self.redo_stack.push_back(record);
                let last = self.redo_stack.len() - 1;
                return Some(&self.redo_stack[last]);
            }
        }
        None
    }

    /// Redoes the most recently undone change: it returns to the history,
    /// marked as applied, and is returned.
    pub fn redo(&mut self) -> (r: Option<&ChangeRecord>)
        requires
            old(self).well_formed(),
        ensures
            final(self).well_formed(),
            final(self)@ == old(self)@.after_redo(),
            r matches Some(rec) ==> *rec == final(self)@.history.last(),
            r is Some <==> old(self)@.redo.len() > 0,
    {
        if let Some(mut record) = self.redo_stack.pop_back() {
            record.applied = true;
            self.history.push_back(record);
            let last = self.history.len() - 1;
            return Some(&self.history[last]);
        }
        None
    }

    /// Whether some history entry can be undone.
    pub fn can_undo(&self) -> (r: bool)
        requires
            self.well_formed(),
        ensures
            r == (exists|k: int| 0 <= k < self@.history.len() && (#[trigger] self@.history[k]).undoable),
            r == (self@.history.len() > 0),
    {
        let n = self.history.len();
        let mut k: usize = n;
        while k > 0
            invariant
                self.well_formed(),
                n == self@.history.len(),
                k <= n,
                forall|m: int| k <= m < n ==> !(#[trigger] self@.history[m]).undoable,
            decreases k,
        {
            if self.history[k - 1].undoable {
                return true;
            }
            k = k - 1;
        }
        proof {
            if n > 0 {
                assert(!self@.history[0].undoable);
            }
        }
        false
    }

    /// Whether some undone change can be redone.
    pub fn can_redo(&self) -> (r: bool)
        ensures
            r == (self@.redo.len() > 0),
    {
        self.redo_stack.len() > 0
    }

    /// Forgets the history, the undone changes and the held-back changes.
    pub fn clear(&mut self)
        requires
            old(self).well_formed(),
        ensures
            final(self).well_formed(),
            final(self)@ == (TrackerView {
                history: Seq::empty(),
                redo: Seq::empty(),
                pending: Seq::empty(),
                ..old(self)@
            }),
    {
        self.history.clear();
        self.redo_stack.clear();
        self.pending_batch.clear();
    }

    /// The history entries about `entity_id`, oldest first.
    pub fn get_changes_for_entity(&self, entity_id: &str) -> (r: Vec<&ChangeRecord>)
        ensures
            r@.map_values(|x: &ChangeRecord| *x) == self@.history.filter(
                |rec: ChangeRecord| rec.change.entity_id@ == entity_id@,
            ),
    {
        let ghost h = self@.history;
        let ghost pred = |rec: ChangeRecord| rec.change.entity_id@ == entity_id@;
        let n = self.history.len();
        let mut out: Vec<&ChangeRecord> = Vec::new();
        let mut k: usize = 0;
        while k < n
            invariant
                n == h.len(),
                h == self@.history,
                k <= n,
                pred == (|rec: ChangeRecord| rec.change.entity_id@ == entity_id@),
                out@.map_values(|x: &ChangeRecord| *x) == h.take(k as int).filter(pred),
            decreases n - k,
        {
            let ghost out0 = out@;
            proof {
                assert(h.take(k + 1) =~= h.take(k as int).push(h[k as int]));
                h.take(k as int).lemma_filter_push(h[k as int], pred);
            }
            let rec = &self.history[k];
            if str_eq(rec.change.entity_id.as_str(), entity_id) {
                out.push(rec);
                proof {
                    assert(out@.map_values(|x: &ChangeRecord| *x) =~= out0.map_values(
                        |x: &ChangeRecord| *x,
                    ).push(*rec));
                }
            }
            k = k + 1;
        }
        proof {
            assert(h.take(n as int) =~= h);
        }
        out
    }

    /// The most recent history entry about `entity_id`.
    pub fn get_latest_change_for_entity(&self, entity_id: &str) -> (r: Option<&ChangeRecord>)
        ensures
            match r {
                Some(rec) => exists|k: int|
                    0 <= k < self@.history.len() && self@.history[k] == *rec
                        && rec.change.entity_id@ == entity_id@ && forall|m: int|
                        k < m < self@.history.len() ==> (#[trigger] self@.history[m]).change.entity_id@
                            != entity_id@,
                None => forall|m: int|
                    0 <= m < self@.history.len() ==> (#[trigger] self@.history[m]).change.entity_id@
                        != entity_id@,
            },
    {
        let n = self.history.len();
        let mut k: usize = n;
        while k > 0
            invariant
                n == self@.history.len(),
                k <= n,
                forall|m: int| k <= m < n ==> (#[trigger] self@.history[m]).change.entity_id@ != entity_id@,
            decreases k,
        {
            let rec = &self.history[k - 1];
            if str_eq(rec.change.entity_id.as_str(), entity_id) {
                return Some(rec);
            }
            k = k - 1;
        }
        None
    }
}

impl Default for ChangeTracker {
    fn default() -> (t: ChangeTracker)
        ensures
            t.well_formed(),
            t@.history.len() == 0,
            t@.redo.len() == 0,
            t@.pending.len() == 0,
            !t@.in_batch,
    {
        ChangeTracker::new()
    }
}

/// Undoing a change and redoing it restores the tracker exactly.
pub proof fn lemma_undo_then_redo(v: TrackerView)
    requires
        v.consistent(),
        v.history.len() > 0,
    ensures
        v.after_undo().after_redo() == v,
{
    let rec = v.history.last();
    assert(ChangeRecord { applied: true, ..ChangeRecord { applied: false, ..rec } } == rec);
    assert(v.after_undo().redo.drop_last() =~= v.redo);
    assert(v.after_undo().history.push(rec) =~= v.history);
}

/// Redoing an undone change and undoing it again restores the tracker
/// exactly.
pub proof fn lemma_redo_then_undo(v: TrackerView)
    requires
        v.consistent(),
        v.redo.len() > 0,
    ensures
        v.after_redo().after_undo() == v,
{
    let rec = v.redo.last();
    assert(ChangeRecord { applied: false, ..ChangeRecord { applied: true, ..rec } } == rec);
    assert(v.after_redo().history.drop_last() =~= v.history);
    assert(v.after_redo().redo.push(rec) =~= v.redo);
}

/// Committing changes leaves nothing to redo and keeps at most
/// `max_history_size` entries, the newest last.
pub proof fn lemma_commit_bounded(v: TrackerView, changes: Seq<Change>)
    requires
        v.consistent(),
    ensures
        v.after_commit(changes).consistent(),
        v.after_commit(changes).redo.len() == 0,
        v.after_commit(changes).history.len() <= v.config.max_history_size,
        changes.len() > 0 && v.config.max_history_size > 0 ==> v.after_commit(changes).history.last()
            == committed(changes.last()),
{
    let all = v.history + changes.map_values(|c: Change| committed(c));
    if changes.len() > 0 && v.config.max_history_size > 0 {
        assert(all.last() == committed(changes.last()));
    }
    assert forall|k: int| 0 <= k < all.len() implies (#[trigger] all[k]).applied && all[k].undoable by {
        if k >= v.history.len() {
            assert(all[k] == committed(changes[k - v.history.len()]));
        }
    }
}

} // verus!
