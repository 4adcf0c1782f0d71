//! Arena allocation of geometry values with allocation statistics.

use bumpalo::Bump;
use vstd::prelude::*;
use vstd::string::StringSliceAdditionalSpecFns;

verus! {

#[verifier::external_type_specification]
#[verifier::external_body]
pub struct ExBump<const MIN_ALIGN: usize>(Bump<MIN_ALIGN>);

/// The allocation limit a `Bump` holds, as `Bump::allocation_limit`
/// reports it.
pub uninterp spec fn bump_limit(b: Bump) -> Option<usize>;

/// `Bump::with_capacity`: an arena with room for at least `capacity` bytes
/// and, as its source shows, no allocation limit.
#[verifier::external_body]
fn bump_with_capacity(capacity: usize) -> (b: Bump)
    ensures
        bump_limit(b) is None,
{
    Bump::with_capacity(capacity)
}

/// `Bump::alloc`: moves `value` into the arena and hands back a mutable
/// reference to it there, which holds `value`. The source panics when a
/// new chunk would pass the allocation limit, so the arena must have none;
/// without a limit it fails only when the machine is out of memory.
#[verifier::external_body]
fn bump_alloc<'a, T>(b: &'a Bump, value: T) -> (r: &'a mut T)
    requires
        bump_limit(*b) is None,
    ensures
        *r == value,
{
    b.alloc(value)
}

/// `Bump::alloc_slice_copy`: copies `slice` into the arena. It panics when
/// a new chunk would pass the allocation limit, so the arena must have none.
#[verifier::external_body]
fn bump_alloc_slice<T: Copy>(b: &Bump, slice: &[T])
    requires
        bump_limit(*b) is None,
{
    b.alloc_slice_copy(slice);
}

/// `Bump::alloc_str`: copies `s` into the arena. It panics when a new chunk
/// would pass the allocation limit, so the arena must have none.
#[verifier::external_body]
fn bump_alloc_str(b: &Bump, s: &str)
    requires
        bump_limit(*b) is None,
{
    b.alloc_str(s);
}

/// `Bump::reset`: frees every allocation, keeping the current chunk. The
/// source leaves the allocation limit untouched.
#[verifier::external_body]
fn bump_reset(b: &mut Bump)
    ensures
        bump_limit(*final(b)) == bump_limit(*old(b)),
{
    b.reset();
}

/// `Bump::allocated_bytes`: bytes allocated in the current chunk. It
/// depends on the allocator's chunk sizes, so nothing is claimed of it.
#[verifier::external_body]
fn bump_allocated_bytes(b: &Bump) -> usize {
    b.allocated_bytes()
}

/// `Bump::chunk_capacity`: room left in the current chunk; nothing is
/// claimed of it.
#[verifier::external_body]
fn bump_chunk_capacity(b: &Bump) -> usize {
    b.chunk_capacity()
}

/// `Bump::allocation_limit`: the limit last set.
#[verifier::external_body]
fn bump_allocation_limit(b: &Bump) -> (r: Option<usize>)
    ensures
        r == bump_limit(*b),
{
    b.allocation_limit()
}

/// `Bump::set_allocation_limit`: replaces the limit.
#[verifier::external_body]
fn bump_set_allocation_limit(b: &mut Bump, limit: Option<usize>)
    ensures
        bump_limit(*final(b)) == limit,
{
    b.set_allocation_limit(limit);
}

/// Capacity of a new arena in bytes (1 MiB).
pub const DEFAULT_ARENA_CAPACITY: usize = 1048576;

/// A value allocated in an arena, borrowed for as long as the arena is.
pub struct ArenaHandle<'a, T> {
    item: &'a mut T,
}

impl<'a, T> ArenaHandle<'a, T> {
    /// The value the handle refers to.
    pub closed spec fn value(&self) -> T {
        *self.item
    }

    /// The value.
    pub fn get(&self) -> (r: &T)
        ensures
            *r == self.value(),
    {
        &*self.item
    }

    /// The value, for changing it.
    pub fn get_mut(&mut self) -> (r: &mut T)
        ensures
            *r == old(self).value(),
            final(self).value() == *final(r),
    {
        &mut *self.item
    }
}

/// Identifier of a value allocated in an arena.
#[derive(Debug, Clone, Copy, PartialEq, Eq, Hash)]
pub struct ArenaId(usize);

impl ArenaId {
    /// The identifier's number.
    pub closed spec fn number(self) -> usize {
        self.0
    }

    /// The identifier with the given number.
    pub fn new(value: usize) -> (id: ArenaId)
        ensures
            id.number() == value,
    {
        ArenaId(value)
    }

    /// The identifier's number.
    pub fn value(&self) -> (r: usize)
        ensures
            r == self.number(),
    {
        self.0
    }

    /// An identifier is its number: two identifiers are equal exactly when
    /// their numbers are.
    pub proof fn lemma_number_identifies(a: ArenaId, b: ArenaId)
        ensures
            (a.number() == b.number()) <==> (a == b),
    {
    }
}

/// Counters of an arena.
#[derive(Debug, Clone)]
pub struct ArenaStats {
    /// Allocations ever made.
    pub total_allocations: usize,
    /// Bytes ever allocated.
    pub total_bytes: usize,
    /// Allocations since the last reset.
    pub current_allocations: usize,
    /// Resets so far.
    pub resets: usize,
}

impl Default for ArenaStats {
    fn default() -> (s: ArenaStats)
        ensures
            s.total_allocations == 0,
            s.total_bytes == 0,
            s.current_allocations == 0,
            s.resets == 0,
    {
        ArenaStats { total_allocations: 0, total_bytes: 0, current_allocations: 0, resets: 0 }
    }
}

/// A bump arena for geometry values: allocation is a pointer bump, and
/// everything is freed at once by `reset`.
pub struct GeometryArena {
    bump: Bump,
    counter: usize,
    stats: ArenaStats,
}

/// How many bytes remain before an arena reaches its limit, or the end of
/// its current chunk when it has none.
pub open spec fn remaining_spec(limit: Option<usize>, chunk_capacity: usize, allocated: usize) -> usize {
    let l = match limit {
        Some(l) => l,
        None => chunk_capacity,
    };
    if l > allocated {
        (l - allocated) as usize
    } else {
        0
    }
}

/// Room left under `limit` (or `chunk_capacity` when there is none) once
/// `allocated` bytes are used, never below zero.
pub fn remaining_from(limit: Option<usize>, chunk_capacity: usize, allocated: usize) -> (r: usize)
    ensures
        r == remaining_spec(limit, chunk_capacity, allocated),
{
    let l = match limit {
        Some(l) => l,
        None => chunk_capacity,
    };
    l.saturating_sub(allocated)
}

impl GeometryArena {
    /// Identifier the next allocation receives.
    pub closed spec fn next_id(&self) -> usize {
        self.counter
    }

    /// The arena's counters.
    pub closed spec fn counters(&self) -> ArenaStats {
        self.stats
    }

    /// The arena's allocation limit.
    pub closed spec fn limit(&self) -> Option<usize> {
        bump_limit(self.bump)
    }

    /// Whether nothing has been allocated in the arena, it has never been
    /// reset and it has no allocation limit.
    pub open spec fn is_fresh(&self) -> bool {
        &&& self.next_id() == 0
        &&& self.counters() == (ArenaStats {
            total_allocations: 0,
            total_bytes: 0,
            current_allocations: 0,
            resets: 0,
        })
        &&& self.limit() is None
    }

    /// An arena of the default capacity.
    pub fn new() -> (a: GeometryArena)
        ensures
            a.next_id() == 0,
            a.counters() == (ArenaStats {
                total_allocations: 0,
                total_bytes: 0,
                current_allocations: 0,
                resets: 0,
            }),
            a.limit() is None,
    {
        GeometryArena::with_capacity(DEFAULT_ARENA_CAPACITY)
    }

    /// An arena with room for at least `capacity` bytes.
    pub fn with_capacity(capacity: usize) -> (a: GeometryArena)
        ensures
            a.next_id() == 0,
            a.counters() == (ArenaStats {
                total_allocations: 0,
                total_bytes: 0,
                current_allocations: 0,
                resets: 0,
            }),
            a.limit() is None,
    {
        GeometryArena { bump: bump_with_capacity(capacity), counter: 0, stats: ArenaStats::default() }
    }

    /// Records one allocation of `bytes` bytes and hands out the next
    /// identifier.
    fn count_allocation(&mut self, bytes: usize) -> (id: ArenaId)
        requires
            old(self).counter < usize::MAX,
            old(self).stats.total_allocations < usize::MAX,
            old(self).stats.current_allocations < usize::MAX,
            old(self).stats.total_bytes + bytes <= usize::MAX,
        ensures
            id.number() == old(self).next_id(),
            final(self).next_id() == old(self).next_id() + 1,
            final(self).counters() == (ArenaStats {
                total_allocations: (old(self).counters().total_allocations + 1) as usize,
                total_bytes: (old(self).counters().total_bytes + bytes) as usize,
                current_allocations: (old(self).counters().current_allocations + 1) as usize,
                ..old(self).counters()
            }),
            final(self).bump == old(self).bump,
    {
        let id = ArenaId::new(self.counter);
        self.counter = self.counter + 1;
        self.stats.total_allocations = self.stats.total_allocations + 1;
        self.stats.total_bytes = self.stats.total_bytes + bytes;
        self.stats.current_allocations = self.stats.current_allocations + 1;
        id
    }

    /// Moves `value` into the arena and returns its identifier. The arena
    /// must have no allocation limit: passing one is a panic of the
    /// allocator.
    pub fn alloc_value<T>(&mut self, value: T) -> (id: ArenaId)
        requires
            old(self).limit() is None,
            old(self).next_id() < usize::MAX,
            old(self).counters().total_allocations < usize::MAX,
            old(self).counters().current_allocations < usize::MAX,
            old(self).counters().total_bytes + vstd::layout::size_of::<T>() <= usize::MAX,
        ensures
            id.number() == old(self).next_id(),
            final(self).next_id() == old(self).next_id() + 1,
            final(self).counters() == (ArenaStats {
                total_allocations: (old(self).counters().total_allocations + 1) as usize,
                total_bytes: (old(self).counters().total_bytes + vstd::layout::size_of::<T>()) as usize,
                current_allocations: (old(self).counters().current_allocations + 1) as usize,
                ..old(self).counters()
            }),
            final(self).limit() == old(self).limit(),
    {
        let bytes = core::mem::size_of::<T>();
        let _ = bump_alloc(&self.bump, value);
        self.count_allocation(bytes)
    }

    /// Moves `value` into the arena and returns a handle to it. Unlike
    /// `alloc`, no identifier is drawn.
    pub fn alloc_with_handle<'a, T>(&'a mut self, value: T) -> (h: ArenaHandle<'a, T>)
        requires
            old(self).limit() is None,
            old(self).counters().total_allocations < usize::MAX,
            old(self).counters().current_allocations < usize::MAX,
            old(self).counters().total_bytes + vstd::layout::size_of::<T>() <= usize::MAX,
        ensures
            h.value() == value,
            final(self).next_id() == old(self).next_id(),
            final(self).counters() == (ArenaStats {
                total_allocations: (old(self).counters().total_allocations + 1) as usize,
                total_bytes: (old(self).counters().total_bytes + vstd::layout::size_of::<T>()) as usize,
                current_allocations: (old(self).counters().current_allocations + 1) as usize,
                ..old(self).counters()
            }),
            final(self).limit() == old(self).limit(),
    {
        let bytes = core::mem::size_of::<T>();
        self.stats.total_allocations = self.stats.total_allocations + 1;
        self.stats.total_bytes = self.stats.total_bytes + bytes;
        self.stats.current_allocations = self.stats.current_allocations + 1;
        ArenaHandle { item: bump_alloc(&self.bump, value) }
    }

    /// Copies `slice` into the arena and returns its identifier.
    pub fn alloc_slice<T: Copy + Clone>(&mut self, slice: &[T]) -> (id: ArenaId)
        requires
            old(self).limit() is None,
            old(self).next_id() < usize::MAX,
            old(self).counters().total_allocations < usize::MAX,
            old(self).counters().current_allocations < usize::MAX,
            old(self).counters().total_bytes + slice@.len() * vstd::layout::size_of::<T>() <= usize::MAX,
        ensures
            id.number() == old(self).next_id(),
            final(self).next_id() == old(self).next_id() + 1,
            final(self).counters() == (ArenaStats {
                total_allocations: (old(self).counters().total_allocations + 1) as usize,
                total_bytes: (old(self).counters().total_bytes + slice@.len() * vstd::layout::size_of::<
                    T,
                >()) as usize,
                current_allocations: (old(self).counters().current_allocations + 1) as usize,
                ..old(self).counters()
            }),
            final(self).limit() == old(self).limit(),
    {
        proof {
            vstd::layout::layout_of_slices::<T>(slice);
        }
        let bytes = core::mem::size_of_val(slice);
        bump_alloc_slice(&self.bump, slice);
        self.count_allocation(bytes)
    }

    /// Copies `s` into the arena and returns its identifier.
    pub fn alloc_str(&mut self, s: &str) -> (id: ArenaId)
        requires
            old(self).limit() is None,
            old(self).next_id() < usize::MAX,
            old(self).counters().total_allocations < usize::MAX,
            old(self).counters().current_allocations < usize::MAX,
            old(self).counters().total_bytes + s.spec_bytes().len() <= usize::MAX,
        ensures
            id.number() == old(self).next_id(),
            final(self).next_id() == old(self).next_id() + 1,
            final(self).counters() == (ArenaStats {
                total_allocations: (old(self).counters().total_allocations + 1) as usize,
                total_bytes: (old(self).counters().total_bytes + s.spec_bytes().len()) as usize,
                current_allocations: (old(self).counters().current_allocations + 1) as usize,
                ..old(self).counters()
            }),
            final(self).limit() == old(self).limit(),
    {
        let bytes = s.as_bytes().len();
        bump_alloc_str(&self.bump, s);
        self.count_allocation(bytes)
    }

    /// Frees every allocation: identifiers start again from 0 and the
    /// current count drops to 0.
    pub fn reset(&mut self)
        requires
            old(self).counters().resets < usize::MAX,
        ensures
            final(self).next_id() == 0,
            final(self).counters() == (ArenaStats {
                resets: (old(self).counters().resets + 1) as usize,
                current_allocations: 0,
                ..old(self).counters()
            }),
            final(self).limit() == old(self).limit(),
    {
        bump_reset(&mut self.bump);
        self.counter = 0;
        self.stats.resets = self.stats.resets + 1;
        self.stats.current_allocations = 0;
    }

    /// Bytes allocated in the current chunk.
    pub fn allocated_bytes(&self) -> usize {
        bump_allocated_bytes(&self.bump)
    }

    /// Room left in the current chunk.
    pub fn capacity(&self) -> usize {
        bump_chunk_capacity(&self.bump)
    }

    /// Room left before the allocation limit, or before the end of the
    /// current chunk when there is no limit.
    pub fn remaining_capacity(&self) -> (r: usize)
        ensures
            exists|chunk: usize, allocated: usize| r == remaining_spec(self.limit(), chunk, allocated),
    {
        let limit = bump_allocation_limit(&self.bump);
        let chunk = bump_chunk_capacity(&self.bump);
        let allocated = bump_allocated_bytes(&self.bump);
        remaining_from(limit, chunk, allocated)
    }

    /// The counters.
    pub fn stats(&self) -> (r: &ArenaStats)
        ensures
            *r == self.counters(),
    {
        &self.stats
    }

    /// Whether nothing was allocated since the last reset.
    pub fn is_empty(&self) -> (r: bool)
        ensures
            r == (self.counters().current_allocations == 0),
    {
        self.stats.current_allocations == 0
    }

    /// Allocations since the last reset.
    pub fn len(&self) -> (r: usize)
        ensures
            r == self.counters().current_allocations,
    {
        self.stats.current_allocations
    }

    /// Sets or clears the allocation limit.
    pub fn set_allocation_limit(&mut self, limit: Option<usize>)
        ensures
            final(self).limit() == limit,
            final(self).next_id() == old(self).next_id(),
            final(self).counters() == old(self).counters(),
    {
        bump_set_allocation_limit(&mut self.bump, limit);
    }
}

impl Default for GeometryArena {
    /// An arena of the default capacity.
    fn default() -> (a: GeometryArena)
        ensures
            a.is_fresh(),
    {
        GeometryArena::new()
    }
}

/// Capacity in bytes of the point, vector and named arenas of a
/// `MultiArena` (256 KiB).
pub const SMALL_ARENA_CAPACITY: usize = 262144;

/// Capacity in bytes of the mesh arena of a `MultiArena` (512 KiB).
pub const MESH_ARENA_CAPACITY: usize = 524288;

/// Separate arenas for points, vectors and meshes, and arenas created on
/// demand under names.
pub struct MultiArena {
    points: GeometryArena,
    vectors: GeometryArena,
    meshes: GeometryArena,
    custom: Vec<(String, GeometryArena)>,
}

/// The first position of `name` among the named arenas.
pub open spec fn find_named(cs: Seq<(Seq<char>, GeometryArena)>, name: Seq<char>) -> Option<int>
    decreases cs.len(),
{
    if cs.len() == 0 {
        None
    } else {
        match find_named(cs.drop_last(), name) {
            Some(i) => Some(i),
            None => if cs.last().0 == name {
                Some(cs.len() - 1)
            } else {
                None
            },
        }
    }
}

proof fn lemma_find_named(cs: Seq<(Seq<char>, GeometryArena)>, name: Seq<char>)
    ensures
        match find_named(cs, name) {
            Some(i) => 0 <= i < cs.len() && cs[i].0 == name && forall|j: int|
                0 <= j < i ==> cs[j].0 != name,
            None => forall|j: int| 0 <= j < cs.len() ==> cs[j].0 != name,
        },
    decreases cs.len(),
{
    if cs.len() > 0 {
        let d = cs.drop_last();
        lemma_find_named(d, name);
        assert forall|j: int| 0 <= j < d.len() implies d[j] == cs[j] by {}
    }
}

/// The named arenas of a list of names and arenas.
pub open spec fn named_view(cv: Seq<(String, GeometryArena)>) -> Seq<(Seq<char>, GeometryArena)> {
    cv.map_values(|p: (String, GeometryArena)| (p.0@, p.1))
}

proof fn lemma_named_update(cv: Seq<(String, GeometryArena)>, k: int)
    requires
        0 <= k < cv.len(),
    ensures
        forall|a: GeometryArena|
            #[trigger] named_view(cv.update(k, (cv[k].0, a))) == named_view(cv).update(k, (cv[k].0@, a)),
{
    assert forall|a: GeometryArena|
        #[trigger] named_view(cv.update(k, (cv[k].0, a))) == named_view(cv).update(k, (cv[k].0@, a)) by {
        assert(named_view(cv.update(k, (cv[k].0, a))) =~= named_view(cv).update(k, (cv[k].0@, a)));
    }
}

/// The arena at position `k` of a list of names and arenas, borrowed for
/// changing it.
fn arena_at(v: &mut Vec<(String, GeometryArena)>, k: usize) -> (r: &mut GeometryArena)
    requires
        k < old(v)@.len(),
    ensures
        *r == old(v)@[k as int].1,
        final(v)@ == old(v)@.update(k as int, (old(v)@[k as int].0, *final(r))),
{
    &mut v[k].1
}

impl MultiArena {
    /// The point arena.
    pub closed spec fn point_arena(&self) -> GeometryArena {
        self.points
    }

    /// The vector arena.
    pub closed spec fn vector_arena(&self) -> GeometryArena {
        self.vectors
    }

    /// The mesh arena.
    pub closed spec fn mesh_arena(&self) -> GeometryArena {
        self.meshes
    }

    /// The named arenas with their names, in the order they were created.
    pub closed spec fn named(&self) -> Seq<(Seq<char>, GeometryArena)> {
        named_view(self.custom@)
    }

    /// The names of the named arenas are distinct.
    pub open spec fn well_formed(&self) -> bool {
        forall|i: int, j: int|
            0 <= i < j < self.named().len() ==> #[trigger] self.named()[i].0
                != #[trigger] self.named()[j].0
    }

    /// Fresh point, vector and mesh arenas and no named ones.
    pub fn new() -> (m: MultiArena)
        ensures
            m.point_arena().is_fresh(),
            m.vector_arena().is_fresh(),
            m.mesh_arena().is_fresh(),
            m.named().len() == 0,
            m.well_formed(),
    {
        let m = MultiArena {
            points: GeometryArena::with_capacity(SMALL_ARENA_CAPACITY),
            vectors: GeometryArena::with_capacity(SMALL_ARENA_CAPACITY),
            meshes: GeometryArena::with_capacity(MESH_ARENA_CAPACITY),
            custom: Vec::new(),
        };
        assert(m.named() =~= Seq::<(Seq<char>, GeometryArena)>::empty());
        m
    }

    /// Moves a point into the point arena and returns its identifier there.
    pub fn alloc_point<T>(&mut self, point: T) -> (id: ArenaId)
        requires
            old(self).point_arena().limit() is None,
            old(self).point_arena().next_id() < usize::MAX,
            old(self).point_arena().counters().total_allocations < usize::MAX,
            old(self).point_arena().counters().current_allocations < usize::MAX,
            old(self).point_arena().counters().total_bytes + vstd::layout::size_of::<T>()
                <= usize::MAX,
        ensures
            id.number() == old(self).point_arena().next_id(),
            final(self).point_arena().next_id() == old(self).point_arena().next_id() + 1,
            final(self).point_arena().counters() == (ArenaStats {
                total_allocations: (old(self).point_arena().counters().total_allocations
                    + 1) as usize,
                total_bytes: (old(self).point_arena().counters().total_bytes
                    + vstd::layout::size_of::<T>()) as usize,
                current_allocations: (old(self).point_arena().counters().current_allocations
                    + 1) as usize,
                ..old(self).point_arena().counters()
            }),
            final(self).point_arena().limit() == old(self).point_arena().limit(),
            final(self).vector_arena() == old(self).vector_arena(),
            final(self).mesh_arena() == old(self).mesh_arena(),
            final(self).named() == old(self).named(),
    {
        self.points.alloc_value(point)
    }

    /// Moves a vector into the vector arena and returns its identifier
    /// there.
    pub fn alloc_vector<T>(&mut self, vector: T) -> (id: ArenaId)
        requires
            old(self).vector_arena().limit() is None,
            old(self).vector_arena().next_id() < usize::MAX,
            old(self).vector_arena().counters().total_allocations < usize::MAX,
            old(self).vector_arena().counters().current_allocations < usize::MAX,
            old(self).vector_arena().counters().total_bytes + vstd::layout::size_of::<T>()
                <= usize::MAX,
        ensures
            id.number() == old(self).vector_arena().next_id(),
            final(self).vector_arena().next_id() == old(self).vector_arena().next_id() + 1,
            final(self).vector_arena().counters() == (ArenaStats {
                total_allocations: (old(self).vector_arena().counters().total_allocations
                    + 1) as usize,
                total_bytes: (old(self).vector_arena().counters().total_bytes
                    + vstd::layout::size_of::<T>()) as usize,
                current_allocations: (old(self).vector_arena().counters().current_allocations
                    + 1) as usize,
                ..old(self).vector_arena().counters()
            }),
            final(self).vector_arena().limit() == old(self).vector_arena().limit(),
            final(self).point_arena() == old(self).point_arena(),
            final(self).mesh_arena() == old(self).mesh_arena(),
            final(self).named() == old(self).named(),
    {
        self.vectors.alloc_value(vector)
    }

    /// Resets every arena: the point, vector and mesh arenas and each named
    /// one.
    pub fn reset_all(&mut self)
        requires
            old(self).point_arena().counters().resets < usize::MAX,
            old(self).vector_arena().counters().resets < usize::MAX,
            old(self).mesh_arena().counters().resets < usize::MAX,
            forall|i: int|
                0 <= i < old(self).named().len() ==> (#[trigger] old(self).named()[i]).1.counters().resets
                    < usize::MAX,
        ensures
            was_reset(old(self).point_arena(), final(self).point_arena()),
            was_reset(old(self).vector_arena(), final(self).vector_arena()),
            was_reset(old(self).mesh_arena(), final(self).mesh_arena()),
            final(self).named().len() == old(self).named().len(),
            forall|i: int|
                0 <= i < old(self).named().len() ==> (#[trigger] final(self).named()[i]).0
                    == old(self).named()[i].0 && was_reset(old(self).named()[i].1, final(self).named()[i].1),
    {
        self.points.reset();
        self.vectors.reset();
        self.meshes.reset();
        let ghost before = self.named();
        let ghost p = self.points;
        let ghost v = self.vectors;
        let ghost m = self.meshes;
        proof {
            assert(before == old(self).named());
        }
        let mut i: usize = 0;
        while i < self.custom.len()
            invariant
                i <= self.custom@.len(),
                self.named().len() == before.len(),
                self.points == p,
                self.vectors == v,
                self.meshes == m,
                forall|k: int| 0 <= k < before.len() ==> (#[trigger] before[k]).1.counters().resets < usize::MAX,
                forall|k: int|
                    0 <= k < i ==> (#[trigger] self.named()[k]).0 == before[k].0 && was_reset(before[k].1, self.named()[k].1),
                forall|k: int| i <= k < before.len() ==> #[trigger] self.named()[k] == before[k],
            decreases self.custom@.len() - i,
        {
            let ghost pre = self.custom@;
            proof {
                assert(self.named()[i as int] == before[i as int]);
                lemma_named_update(pre, i as int);
            }
            let a = arena_at(&mut self.custom, i);
            a.reset();
            proof {
                assert(self.named() == named_view(pre).update(i as int, (pre[i as int].0@, self.custom@[i as int].1)));
            }
            i = i + 1;
        }
    }

    /// The statistics of the point, vector and mesh arenas added up.
    pub fn total_stats(&self) -> (r: ArenaStats)
        requires
            self.point_arena().counters().total_allocations + self.vector_arena().counters().total_allocations
                + self.mesh_arena().counters().total_allocations <= usize::MAX,
            self.point_arena().counters().total_bytes + self.vector_arena().counters().total_bytes
                + self.mesh_arena().counters().total_bytes <= usize::MAX,
            self.point_arena().counters().current_allocations
                + self.vector_arena().counters().current_allocations
                + self.mesh_arena().counters().current_allocations <= usize::MAX,
            self.point_arena().counters().resets + self.vector_arena().counters().resets
                + self.mesh_arena().counters().resets <= usize::MAX,
        ensures
            r.total_allocations == self.point_arena().counters().total_allocations
                + self.vector_arena().counters().total_allocations
                + self.mesh_arena().counters().total_allocations,
            r.total_bytes == self.point_arena().counters().total_bytes
                + self.vector_arena().counters().total_bytes + self.mesh_arena().counters().total_bytes,
            r.current_allocations == self.point_arena().counters().current_allocations
                + self.vector_arena().counters().current_allocations
                + self.mesh_arena().counters().current_allocations,
            r.resets == self.point_arena().counters().resets + self.vector_arena().counters().resets
                + self.mesh_arena().counters().resets,
    {
        let p = self.points.stats();
        let v = self.vectors.stats();
        let m = self.meshes.stats();
        ArenaStats {
            total_allocations: p.total_allocations + v.total_allocations + m.total_allocations,
            total_bytes: p.total_bytes + v.total_bytes + m.total_bytes,
            current_allocations: p.current_allocations + v.current_allocations + m.current_allocations,
            resets: p.resets + v.resets + m.resets,
        }
    }

    /// The arena named `name`, created fresh (with room for 256 KiB) and
    /// added after the others when there is none yet.
    pub fn get_or_create_arena(&mut self, name: &str) -> (r: &mut GeometryArena)
        requires
            old(self).well_formed(),
        ensures
            final(self).well_formed(),
            final(self).point_arena() == old(self).point_arena(),
            final(self).vector_arena() == old(self).vector_arena(),
            final(self).mesh_arena() == old(self).mesh_arena(),
            match find_named(old(self).named(), name@) {
                Some(i) => *r == old(self).named()[i].1 && final(self).named() == old(
                    self,
                ).named().update(i, (name@, *final(r))),
                None => r.is_fresh() && final(self).named() == old(self).named().push(
                    (name@, *final(r)),
                ),
            },
    {
        let ghost cs = self.named();
        proof {
            lemma_find_named(cs, name@);
        }
        let mut i: usize = 0;
        while i < self.custom.len()
            invariant
                cs == self.named(),
                cs == old(self).named(),
                old(self).well_formed(),
                self.points == old(self).points,
                self.vectors == old(self).vectors,
                self.meshes == old(self).meshes,
                i <= self.custom@.len(),
                forall|j: int| 0 <= j < i ==> cs[j].0 != name@,
            decreases self.custom@.len() - i,
        {
            proof {
                assert(cs[i as int].0 == self.custom@[i as int].0@);
            }
            if crate::text::str_eq(self.custom[i].0.as_str(), name) {
                proof {
                    assert(cs[i as int].0 == name@);
                    lemma_find_named(cs, name@);
                    let f = find_named(cs, name@);
                    match f {
                        Some(fi) => {
                            if fi < i {
                                assert(cs[fi].0 != name@);
                            } else if fi > i {
                                assert(cs[i as int].0 != name@);
                            }
                        },
                        None => {
                            assert(cs[i as int].0 != name@);
                        },
                    }
                    assert(f == Some(i as int));
                    lemma_named_update(self.custom@, i as int);
                    assert forall|a: GeometryArena, x: int, y: int|
                        0 <= x < y < cs.len() implies #[trigger] cs.update(i as int, (name@, a))[x].0
                        != #[trigger] cs.update(i as int, (name@, a))[y].0 by {
                        assert(cs[x].0 != cs[y].0);
                    }
                }
                return arena_at(&mut self.custom, i);
            }
            i = i + 1;
        }
        let a = GeometryArena::with_capacity(SMALL_ARENA_CAPACITY);
        let ghost pre = self.custom@;
        self.custom.push((crate::text::owned(name), a));
        let n = self.custom.len() - 1;
        proof {
            assert(named_view(self.custom@) =~= cs.push((name@, a)));
            lemma_named_update(self.custom@, n as int);
            assert forall|b: GeometryArena, x: int, y: int|
                0 <= x < y < cs.len() + 1 implies #[trigger] cs.push((name@, b))[x].0
                != #[trigger] cs.push((name@, b))[y].0 by {
                if y < cs.len() {
                    assert(cs[x].0 != cs[y].0);
                }
            }
            assert(cs.push((name@, a)).update(n as int, (name@, a)) =~= cs.push((name@, a)));
            assert forall|b: GeometryArena| #[trigger] cs.push((name@, a)).update(n as int, (name@, b)) == cs.push((name@, b)) by {
                assert(cs.push((name@, a)).update(n as int, (name@, b)) =~= cs.push((name@, b)));
            }
        }
        arena_at(&mut self.custom, n)
    }
}

/// A named arena is found again under its name: after
/// `get_or_create_arena` hands out (or creates) the arena of `name`, the
/// next lookup of `name` finds it at the same place.
pub proof fn lemma_named_arena_found_again(
    cs: Seq<(Seq<char>, GeometryArena)>,
    name: Seq<char>,
    a: GeometryArena,
)
    ensures
        match find_named(cs, name) {
            Some(i) => find_named(cs.update(i, (name, a)), name) == Some(i),
            None => find_named(cs.push((name, a)), name) == Some(cs.len() as int),
        },
{
    lemma_find_named(cs, name);
    match find_named(cs, name) {
        Some(i) => {
            let u = cs.update(i, (name, a));
            lemma_find_named(u, name);
            let f = find_named(u, name);
            match f {
                Some(j) => {
                    if j < i {
                        assert(u[j] == cs[j]);
                    } else if j > i {
                        assert(u[i].0 == name);
                    }
                },
                None => {
                    assert(u[i].0 == name);
                },
            }
        },
        None => {
            let p = cs.push((name, a));
            assert(p.drop_last() =~= cs);
        },
    }
}

/// Whether `after` is `before` reset: no identifiers drawn, no current
/// allocations, one more reset, the rest of the counters and the limit
/// kept.
pub open spec fn was_reset(before: GeometryArena, after: GeometryArena) -> bool {
    &&& after.next_id() == 0
    &&& after.counters() == (ArenaStats {
        resets: (before.counters().resets + 1) as usize,
        current_allocations: 0,
        ..before.counters()
    })
    &&& after.limit() == before.limit()
}

impl Default for MultiArena {
    /// The same as `MultiArena::new`.
    fn default() -> (m: MultiArena)
        ensures
            m.point_arena().is_fresh(),
            m.vector_arena().is_fresh(),
            m.mesh_arena().is_fresh(),
            m.named().len() == 0,
            m.well_formed(),
    {
        MultiArena::new()
    }
}

} // verus!
