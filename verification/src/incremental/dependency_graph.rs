//! Directed acyclic graph of "depends on" relations between entities.
//!
//! An edge `a -> b` means that `a` depends on `b`: a change to `b` affects
//! `a`. The graph refuses any edge that would close a cycle.

use crate::seqs::{count_in, lemma_count_contains, lemma_count_prefix, lemma_count_push, lemma_count_without, lemma_without_len, lemma_count_update, lemma_push_no_duplicates, lemma_without_contains, lemma_without_no_duplicates,
    lemma_without_push, without};
use crate::text::{occurs_at, str_eq, str_views};
use smallvec::SmallVec;
use vstd::prelude::*;
use vstd::string::StringExecFns;

verus! {

/// Identifier of a node in the dependency graph.
pub type NodeId = String;

/// One adjacency row of the graph: the nodes one node depends on, or the
/// nodes that depend on it, kept inline for the few that most nodes have.
#[verifier::external_body]
pub struct Row {
    items: SmallVec<[NodeId; 4]>,
}

/// The entries of a row, in order.
pub uninterp spec fn row_items(r: Row) -> Seq<NodeId>;

impl View for Row {
    type V = Seq<NodeId>;

    open spec fn view(&self) -> Seq<NodeId> {
        row_items(*self)
    }
}

impl Row {
    /// `SmallVec::new`: an empty row.
    #[verifier::external_body]
    fn new() -> (r: Row)
        ensures
            row_items(r) == Seq::<NodeId>::empty(),
    {
        Row { items: SmallVec::new() }
    }

    /// `SmallVec::len`: the number of entries.
    #[verifier::external_body]
    fn len(&self) -> (r: usize)
        ensures
            r == row_items(*self).len(),
    {
        self.items.len()
    }

    /// Indexing a `SmallVec` (through its slice): the entry at `i`.
    #[verifier::external_body]
    fn get(&self, i: usize) -> (r: &NodeId)
        requires
            i < row_items(*self).len(),
        ensures
            *r == row_items(*self)[i as int],
    {
        &self.items[i]
    }

    /// `SmallVec::push`: appends an entry. Its source panics only when the
    /// length would pass `usize::MAX`, which no row in memory reaches.
    #[verifier::external_body]
    fn push(&mut self, x: NodeId)
        ensures
            row_items(*final(self)) == row_items(*old(self)).push(x),
    {
        self.items.push(x);
    }

    /// `SmallVec::clone`: a row made from the entries' clones; a cloned
    /// `String` equals the original.
    #[verifier::external_body]
    fn duplicate(&self) -> (r: Row)
        ensures
            row_items(r) == row_items(*self),
    {
        Row { items: self.items.clone() }
    }

    /// `SmallVec::into_vec`: the entries as a vector, in order.
    #[verifier::external_body]
    fn into_vec(self) -> (r: Vec<NodeId>)
        ensures
            r@ == row_items(self),
    {
        self.items.into_vec()
    }
}

/// Errors of dependency graph operations.
#[derive(Debug, Clone, PartialEq, Eq)]
pub enum DependencyGraphError {
    /// The requested edge would close a cycle; the nodes involved.
    CircularDependency(Vec<NodeId>),
    /// The node is not in the graph.
    NodeNotFound(NodeId),
    /// The edge is already present.
    EdgeExists(NodeId, NodeId),
}

/// Abstract contents of a dependency graph.
///
/// `dependencies[i]` lists, in insertion order and with repetitions, the nodes
/// that `nodes[i]` depends on; `dependents[i]` lists the nodes that depend on
/// `nodes[i]`.
pub struct GraphView {
    pub nodes: Seq<Seq<char>>,
    pub dependencies: Seq<Seq<Seq<char>>>,
    pub dependents: Seq<Seq<Seq<char>>>,
    pub roots: Seq<Seq<char>>,
    pub leaves: Seq<Seq<char>>,
}

impl GraphView {
    /// The adjacency lists followed forwards (`dependencies`) or backwards
    /// (`dependents`).
    pub open spec fn adjacency(self, forward: bool) -> Seq<Seq<Seq<char>>> {
        if forward {
            self.dependencies
        } else {
            self.dependents
        }
    }

    /// One step from `a` to `b` along the chosen adjacency lists.
    pub open spec fn step(self, forward: bool, a: Seq<char>, b: Seq<char>) -> bool {
        exists|i: int|
            0 <= i < self.nodes.len() && self.nodes[i] == a && #[trigger] self.adjacency(
                forward,
            )[i].contains(b)
    }

    /// `a` depends directly on `b`.
    pub open spec fn edge(self, a: Seq<char>, b: Seq<char>) -> bool {
        self.step(true, a, b)
    }

    /// Position `k` and `k + 1` of `p` are one step apart.
    pub open spec fn linked(self, forward: bool, p: Seq<Seq<char>>, k: int) -> bool {
        self.step(forward, p[k], p[k + 1])
    }

    /// `p` is a non-empty walk along the chosen adjacency lists.
    pub open spec fn is_walk(self, forward: bool, p: Seq<Seq<char>>) -> bool {
        &&& p.len() >= 1
        &&& forall|k: int| 0 <= k < p.len() - 1 ==> #[trigger] self.linked(forward, p, k)
    }

    /// A walk of zero or more steps leads from `a` to `b`.
    pub open spec fn reaches(self, forward: bool, a: Seq<char>, b: Seq<char>) -> bool {
        exists|p: Seq<Seq<char>>| #[trigger]
            self.is_walk(forward, p) && p[0] == a && p.last() == b
    }

    /// A walk of one or more steps leads from `a` to `b`.
    pub open spec fn reaches_plus(self, forward: bool, a: Seq<char>, b: Seq<char>) -> bool {
        exists|p: Seq<Seq<char>>| #[trigger]
            self.is_walk(forward, p) && p.len() >= 2 && p[0] == a && p.last() == b
    }

    /// Some node at one of the positions `starts` reaches `x`.
    pub open spec fn reached(self, forward: bool, starts: Seq<usize>, x: Seq<char>) -> bool {
        exists|k: int|
            0 <= k < starts.len() && #[trigger] self.reaches(forward, self.nodes[starts[k] as int], x)
    }

    pub proof fn lemma_walk_push(self, forward: bool, p: Seq<Seq<char>>, y: Seq<char>)
        requires
            self.is_walk(forward, p),
            self.step(forward, p.last(), y),
        ensures
            self.is_walk(forward, p.push(y)),
    {
        let q = p.push(y);
        assert forall|k: int| 0 <= k < q.len() - 1 implies #[trigger] self.linked(forward, q, k) by {
            if k < p.len() - 1 {
                assert(self.linked(forward, p, k));
                assert(q[k] == p[k] && q[k + 1] == p[k + 1]);
            } else {
                assert(q[k] == p.last() && q[k + 1] == y);
            }
        }
    }

    pub proof fn lemma_reached_step(
        self,
        forward: bool,
        starts: Seq<usize>,
        x: Seq<char>,
        y: Seq<char>,
    )
        requires
            self.reached(forward, starts, x),
            self.step(forward, x, y),
        ensures
            self.reached(forward, starts, y),
    {
        let k = choose|k: int|
            0 <= k < starts.len() && #[trigger] self.reaches(forward, self.nodes[starts[k] as int], x);
        let p = choose|p: Seq<Seq<char>>| #[trigger]
            self.is_walk(forward, p) && p[0] == self.nodes[starts[k] as int] && p.last() == x;
        self.lemma_walk_push(forward, p, y);
        let q = p.push(y);
        assert(q[0] == p[0]);
        assert(self.is_walk(forward, q) && q[0] == self.nodes[starts[k] as int] && q.last() == y);
        assert(self.reaches(forward, self.nodes[starts[k] as int], y));
    }

    pub proof fn lemma_walk_closed(
        self,
        forward: bool,
        p: Seq<Seq<char>>,
        v: spec_fn(Seq<char>) -> bool,
    )
        requires
            self.is_walk(forward, p),
            v(p[0]),
            forall|x: Seq<char>, y: Seq<char>| v(x) && #[trigger] self.step(forward, x, y) ==> v(y),
        ensures
            v(p.last()),
        decreases p.len(),
    {
        if p.len() > 1 {
            let q = p.drop_last();
            assert forall|k: int| 0 <= k < q.len() - 1 implies #[trigger] self.linked(forward, q, k) by {
                assert(self.linked(forward, p, k));
            }
            self.lemma_walk_closed(forward, q, v);
            assert(self.linked(forward, p, p.len() - 2));
        }
    }

    /// The nodes that `id` depends on directly (`forward`) or that depend
    /// on it directly; empty when `id` is not a node.
    pub open spec fn row_of(self, forward: bool, id: Seq<char>) -> Seq<Seq<char>> {
        if self.nodes.contains(id) {
            self.adjacency(forward)[self.nodes.index_of(id)]
        } else {
            Seq::empty()
        }
    }

    /// A walk of one or more steps from node `i` is a step to one of its
    /// neighbours followed by a walk of zero or more steps.
    pub proof fn lemma_reaches_plus_split(self, forward: bool, i: int, x: Seq<char>)
        requires
            self.nodes.no_duplicates(),
            0 <= i < self.nodes.len(),
            self.adjacency(forward).len() == self.nodes.len(),
        ensures
            self.reaches_plus(forward, self.nodes[i], x) <==> exists|b: Seq<char>|
                #[trigger] self.adjacency(forward)[i].contains(b) && self.reaches(forward, b, x),
    {
        if self.reaches_plus(forward, self.nodes[i], x) {
            let p = choose|p: Seq<Seq<char>>| #[trigger]
                self.is_walk(forward, p) && p.len() >= 2 && p[0] == self.nodes[i] && p.last() == x;
            assert(self.linked(forward, p, 0));
            let i2 = choose|i2: int|
                0 <= i2 < self.nodes.len() && self.nodes[i2] == p[0] && #[trigger] self.adjacency(
                    forward,
                )[i2].contains(p[1]);
            assert(i2 == i);
            let q = p.subrange(1, p.len() as int);
            assert forall|k: int| 0 <= k < q.len() - 1 implies #[trigger] self.linked(forward, q, k) by {
                assert(self.linked(forward, p, k + 1));
                assert(q[k] == p[k + 1] && q[k + 1] == p[k + 2]);
            }
            assert(q[0] == p[1] && q.last() == x);
            assert(self.is_walk(forward, q));
            assert(self.reaches(forward, p[1], x));
        }
        if exists|b: Seq<char>| #[trigger]
            self.adjacency(forward)[i].contains(b) && self.reaches(forward, b, x) {
            let b = choose|b: Seq<char>| #[trigger]
                self.adjacency(forward)[i].contains(b) && self.reaches(forward, b, x);
            let p = choose|p: Seq<Seq<char>>| #[trigger]
                self.is_walk(forward, p) && p[0] == b && p.last() == x;
            let q = seq![self.nodes[i]] + p;
            assert(self.step(forward, self.nodes[i], b));
            assert forall|k: int| 0 <= k < q.len() - 1 implies #[trigger] self.linked(forward, q, k) by {
                if k == 0 {
                    assert(q[0] == self.nodes[i] && q[1] == b);
                } else {
                    assert(self.linked(forward, p, k - 1));
                    assert(q[k] == p[k - 1] && q[k + 1] == p[k]);
                }
            }
            assert(q[0] == self.nodes[i] && q.last() == x);
            assert(self.is_walk(forward, q) && q.len() >= 2);
            assert(self.reaches_plus(forward, self.nodes[i], x));
        }
    }

    pub proof fn lemma_reaches_prepend(self, forward: bool, a: Seq<char>, b: Seq<char>, c: Seq<char>)
        requires
            self.step(forward, a, b),
            self.reaches(forward, b, c),
        ensures
            self.reaches(forward, a, c),
    {
        let p = choose|p: Seq<Seq<char>>| #[trigger] self.is_walk(forward, p) && p[0] == b && p.last() == c;
        let q = seq![a] + p;
        assert forall|k: int| 0 <= k < q.len() - 1 implies #[trigger] self.linked(forward, q, k) by {
            if k == 0 {
                assert(q[0] == a && q[1] == b);
            } else {
                assert(self.linked(forward, p, k - 1));
                assert(q[k] == p[k - 1] && q[k + 1] == p[k]);
            }
        }
        assert(q[0] == a && q.last() == c);
        assert(self.is_walk(forward, q));
    }

    pub proof fn lemma_with_node(self, id: Seq<char>, x: Seq<char>)
        ensures
            self.with_node(id).nodes.contains(id),
            self.nodes.contains(x) ==> self.with_node(id).nodes.contains(x),
            self.with_node(id).edge_total() == self.edge_total(),
    {
        if !self.nodes.contains(id) {
            assert(self.with_node(id).dependencies.drop_last() =~= self.dependencies);
            assert(self.with_node(id).nodes[self.nodes.len() as int] == id);
            if self.nodes.contains(x) {
                let k = choose|k: int| 0 <= k < self.nodes.len() && self.nodes[k] == x;
                assert(self.with_node(id).nodes[k] == x);
            }
        }
    }

    /// Adding a node, which has no edges, changes no walk of one or more
    /// steps between any two nodes.
    pub proof fn lemma_with_node_reaches_plus(self, forward: bool, id: Seq<char>, a: Seq<char>, b: Seq<char>)
        requires
            self.adjacency(forward).len() == self.nodes.len(),
        ensures
            self.with_node(id).reaches_plus(forward, a, b) == self.reaches_plus(forward, a, b),
    {
        let h = self.with_node(id);
        if !self.nodes.contains(id) {
            let n = self.nodes.len();
            assert forall|x: Seq<char>, y: Seq<char>| #[trigger] h.step(forward, x, y) == self.step(forward, x, y) by {
                if h.step(forward, x, y) {
                    let i = choose|i: int| 0 <= i < h.nodes.len() && h.nodes[i] == x && #[trigger] h.adjacency(forward)[i].contains(y);
                    if i == n {
                        assert(h.adjacency(forward)[i] =~= Seq::<Seq<char>>::empty());
                    }
                    assert(self.nodes[i] == x && self.adjacency(forward)[i] == h.adjacency(forward)[i]);
                }
                if self.step(forward, x, y) {
                    let i = choose|i: int| 0 <= i < self.nodes.len() && self.nodes[i] == x && #[trigger] self.adjacency(forward)[i].contains(y);
                    assert(h.nodes[i] == x && self.adjacency(forward)[i] == h.adjacency(forward)[i]);
                }
            }
            if h.reaches_plus(forward, a, b) {
                let p = choose|p: Seq<Seq<char>>| #[trigger] h.is_walk(forward, p) && p.len() >= 2 && p[0] == a && p.last() == b;
                assert forall|k: int| 0 <= k < p.len() - 1 implies #[trigger] self.linked(forward, p, k) by {
                    assert(h.linked(forward, p, k));
                    assert(h.step(forward, p[k], p[k + 1]));
                }
                assert(self.is_walk(forward, p));
            }
            if self.reaches_plus(forward, a, b) {
                let p = choose|p: Seq<Seq<char>>| #[trigger] self.is_walk(forward, p) && p.len() >= 2 && p[0] == a && p.last() == b;
                assert forall|k: int| 0 <= k < p.len() - 1 implies #[trigger] h.linked(forward, p, k) by {
                    assert(self.linked(forward, p, k));
                    assert(self.step(forward, p[k], p[k + 1]));
                }
                assert(h.is_walk(forward, p));
            }
        }
    }

    pub proof fn lemma_reaches_self(self, forward: bool, a: Seq<char>)
        ensures
            self.reaches(forward, a, a),
    {
        let p = seq![a];
        assert(self.is_walk(forward, p) && p[0] == a && p.last() == a);
    }

    /// The view after the edge `from -> to` is added to a graph holding both
    /// nodes: `from` stops being a root and `to` stops being a leaf.
    pub open spec fn add_edge(self, from: Seq<char>, to: Seq<char>) -> GraphView {
        let i = self.index_of(from);
        let j = self.index_of(to);
        GraphView {
            nodes: self.nodes,
            dependencies: self.dependencies.update(i, self.dependencies[i].push(to)),
            dependents: self.dependents.update(j, self.dependents[j].push(from)),
            roots: without(self.roots, from),
            leaves: without(self.leaves, to),
        }
    }

    /// Total number of edges.
    pub open spec fn edge_total(self) -> nat {
        total_len(self.dependencies)
    }

    /// The view after `id` is added as a node, if it is not one yet.
    pub open spec fn with_node(self, id: Seq<char>) -> GraphView {
        if self.nodes.contains(id) {
            self
        } else {
            GraphView {
                nodes: self.nodes.push(id),
                dependencies: self.dependencies.push(Seq::empty()),
                dependents: self.dependents.push(Seq::empty()),
                roots: self.roots.push(id),
                leaves: self.leaves.push(id),
            }
        }
    }

    /// The view after node `id` and every edge at it are removed. A former
    /// dependent of `id` left with no dependencies becomes a root, and a
    /// former dependency of `id` left with no dependents becomes a leaf,
    /// each appended in the order of the removed edges.
    pub open spec fn without_node(self, id: Seq<char>) -> GraphView {
        if self.nodes.contains(id) {
            let i = self.index_of(id);
            let nodes = self.nodes.remove(i);
            let dependencies = self.dependencies.remove(i).map_values(|l: Seq<Seq<char>>| without(l, id));
            let dependents = self.dependents.remove(i).map_values(|l: Seq<Seq<char>>| without(l, id));
            GraphView {
                nodes,
                dependencies,
                dependents,
                roots: promote(nodes, dependencies, without(self.roots, id), self.dependents[i]),
                leaves: promote(nodes, dependents, without(self.leaves, id), self.dependencies[i]),
            }
        } else {
            self
        }
    }

    /// Index of node `id` (meaningful when `id` is a node).
    pub open spec fn index_of(self, id: Seq<char>) -> int {
        self.nodes.index_of(id)
    }
}

/// `x` is one of `nodes` and its row in `rows` is empty.
pub open spec fn bare(nodes: Seq<Seq<char>>, rows: Seq<Seq<Seq<char>>>, x: Seq<char>) -> bool {
    nodes.contains(x) && rows[nodes.index_of(x)].len() == 0
}

/// `acc` followed by each entry of `cands`, in order and once, that is a
/// node with an empty row and that is not listed yet.
pub open spec fn promote(
    nodes: Seq<Seq<char>>,
    rows: Seq<Seq<Seq<char>>>,
    acc: Seq<Seq<char>>,
    cands: Seq<Seq<char>>,
) -> Seq<Seq<char>>
    decreases cands.len(),
{
    if cands.len() == 0 {
        acc
    } else {
        let prev = promote(nodes, rows, acc, cands.drop_last());
        let c = cands.last();
        if bare(nodes, rows, c) && !prev.contains(c) {
            prev.push(c)
        } else {
            prev
        }
    }
}

pub proof fn lemma_promote(
    nodes: Seq<Seq<char>>,
    rows: Seq<Seq<Seq<char>>>,
    acc: Seq<Seq<char>>,
    cands: Seq<Seq<char>>,
    x: Seq<char>,
)
    ensures
        acc.contains(x) ==> promote(nodes, rows, acc, cands).contains(x),
        promote(nodes, rows, acc, cands).contains(x) ==> acc.contains(x) || (cands.contains(x) && bare(
            nodes,
            rows,
            x,
        )),
        cands.contains(x) && bare(nodes, rows, x) ==> promote(nodes, rows, acc, cands).contains(x),
        acc.no_duplicates() ==> promote(nodes, rows, acc, cands).no_duplicates(),
    decreases cands.len(),
{
    if cands.len() > 0 {
        let d = cands.drop_last();
        let prev = promote(nodes, rows, acc, d);
        let c = cands.last();
        lemma_promote(nodes, rows, acc, d, x);
        let res = promote(nodes, rows, acc, cands);
        if bare(nodes, rows, c) && !prev.contains(c) {
            assert(res == prev.push(c));
            if prev.contains(x) {
                let k = choose|k: int| 0 <= k < prev.len() && prev[k] == x;
                assert(res[k] == x);
            }
            if x == c {
                assert(res[prev.len() as int] == x);
            }
            if res.contains(x) && x != c {
                let k = choose|k: int| 0 <= k < res.len() && res[k] == x;
                assert(prev[k] == x);
            }
            if acc.no_duplicates() {
                lemma_push_no_duplicates(prev, c);
            }
        }
        if d.contains(x) {
            let k = choose|k: int| 0 <= k < d.len() && d[k] == x;
            assert(cands[k] == x);
        }
        if cands.contains(x) && x != c {
            let k = choose|k: int| 0 <= k < cands.len() && cands[k] == x;
            assert(d[k] == x);
        }
    }
}

proof fn lemma_remove_no_duplicates<A>(s: Seq<A>, i: int)
    requires
        s.no_duplicates(),
        0 <= i < s.len(),
    ensures
        s.remove(i).no_duplicates(),
{
    let t = s.remove(i);
    assert forall|a: int, b: int| 0 <= a < t.len() && 0 <= b < t.len() && a != b implies t[a] != t[b] by {
        let a2 = if a < i { a } else { a + 1 };
        let b2 = if b < i { b } else { b + 1 };
        assert(t[a] == s[a2]);
        assert(t[b] == s[b2]);
    }
}

/// Position of `x` in `v`, if it occurs.
pub(crate) fn position(v: &Vec<String>, x: &str) -> (r: Option<usize>)
    ensures
        match r {
            Some(i) => i < v.len() && v@[i as int]@ == x@,
            None => !str_views(v@).contains(x@),
        },
{
    let mut i: usize = 0;
    while i < v.len()
        invariant
            i <= v.len(),
            forall|k: int| 0 <= k < i ==> v@[k]@ != x@,
        decreases v.len() - i,
    {
        if str_eq(v[i].as_str(), x) {
            return Some(i);
        }
        i = i + 1;
    }
    proof {
        if str_views(v@).contains(x@) {
            let k = choose|k: int| 0 <= k < str_views(v@).len() && str_views(v@)[k] == x@;
            assert(v@[k]@ == x@);
        }
    }
    None
}

/// Appends to `list` each entry of `cands` that is a node with an empty
/// row and that `list` does not hold yet, in order.
fn promote_bare(list: &mut Vec<String>, nodes: &Vec<String>, rows: &Vec<Row>, cands: &Vec<String>)
    requires
        str_views(nodes@).no_duplicates(),
        rows@.len() == nodes@.len(),
    ensures
        str_views(final(list)@) == promote(
            str_views(nodes@),
            rows@.map_values(|l: Row| str_views(l@)),
            str_views(old(list)@),
            str_views(cands@),
        ),
{
    let ghost ns = str_views(nodes@);
    let ghost rs = rows@.map_values(|l: Row| str_views(l@));
    let ghost acc = str_views(list@);
    let mut k: usize = 0;
    while k < cands.len()
        invariant
            ns == str_views(nodes@),
            rs == rows@.map_values(|l: Row| str_views(l@)),
            ns.no_duplicates(),
            rows@.len() == nodes@.len(),
            k <= cands.len(),
            str_views(list@) == promote(ns, rs, acc, str_views(cands@).take(k as int)),
        decreases cands.len() - k,
    {
        let ghost cs = str_views(cands@);
        let ghost l0 = str_views(list@);
        proof {
            assert(cs.take(k as int + 1).drop_last() =~= cs.take(k as int));
            assert(cs.take(k as int + 1).last() == cands@[k as int]@);
        }
        match position(nodes, cands[k].as_str()) {
            Some(j) => {
                proof {
                    assert(ns[j as int] == cands@[k as int]@);
                    assert(ns.index_of(cands@[k as int]@) == j);
                    assert(rs[j as int] == str_views(rows@[j as int]@));
                }
                if rows[j].len() == 0 {
                    match position(list, cands[k].as_str()) {
                        None => {
                            list.push(cands[k].clone());
                            proof {
                                assert(str_views(list@) =~= l0.push(cands@[k as int]@));
                            }
                        },
                        Some(m) => {
                            proof {
                                assert(l0[m as int] == cands@[k as int]@);
                                assert(l0.contains(cands@[k as int]@));
                            }
                        },
                    }
                }
            },
            None => {},
        }
        k = k + 1;
    }
    proof {
        assert(str_views(cands@).take(cands@.len() as int) =~= str_views(cands@));
    }
}

/// `p` reports the cycle that the edge `from -> to` would close in `g`:
/// it starts with `from` and `to`, then follows dependencies from `to`
/// until it is back at `from`.
pub open spec fn closes_cycle(g: GraphView, from: Seq<char>, to: Seq<char>, p: Seq<Seq<char>>) -> bool {
    &&& p.len() >= 2
    &&& p[0] == from
    &&& p[1] == to
    &&& p.last() == from
    &&& g.is_walk(true, p.subrange(1, p.len() as int))
}

/// The strings of `v` that differ from `x`, in order.
fn filtered(v: &Vec<String>, x: &str) -> (r: Vec<String>)
    ensures
        str_views(r@) == without(str_views(v@), x@),
{
    let mut out: Vec<String> = Vec::new();
    let mut k: usize = 0;
    while k < v.len()
        invariant
            k <= v.len(),
            str_views(out@) == without(str_views(v@.take(k as int)), x@),
        decreases v.len() - k,
    {
        let ghost out0 = out@;
        proof {
            assert(v@.take(k as int + 1) =~= v@.take(k as int).push(v@[k as int]));
            assert(str_views(v@.take(k as int + 1)) =~= str_views(v@.take(k as int)).push(v@[k as int]@));
            lemma_without_push(str_views(v@.take(k as int)), v@[k as int]@, x@);
        }
        if !str_eq(v[k].as_str(), x) {
            out.push(v[k].clone());
            proof {
                assert(str_views(out@) =~= str_views(out0).push(v@[k as int]@));
            }
        }
        k = k + 1;
    }
    proof {
        assert(v@.take(v.len() as int) =~= v@);
    }
    out
}

/// The entries of `r` that differ from `x`, in order.
fn filtered_row(r: &Row, x: &str) -> (out: Row)
    ensures
        str_views(out@) == without(str_views(r@), x@),
{
    let mut out = Row::new();
    let mut k: usize = 0;
    proof {
        assert(str_views(out@) =~= Seq::<Seq<char>>::empty());
    }
    while k < r.len()
        invariant
            k <= r@.len(),
            str_views(out@) == without(str_views(r@.take(k as int)), x@),
        decreases r@.len() - k,
    {
        let ghost out0 = out@;
        let e = r.get(k);
        proof {
            assert(r@.take(k as int + 1) =~= r@.take(k as int).push(r@[k as int]));
            assert(str_views(r@.take(k as int + 1)) =~= str_views(r@.take(k as int)).push(r@[k as int]@));
            lemma_without_push(str_views(r@.take(k as int)), r@[k as int]@, x@);
        }
        if !str_eq(e.as_str(), x) {
            out.push(e.clone());
            proof {
                assert(str_views(out@) =~= str_views(out0).push(r@[k as int]@));
            }
        }
        k = k + 1;
    }
    proof {
        assert(r@.take(r@.len() as int) =~= r@);
    }
    out
}

/// Removes every string equal to `x` from `v`, keeping the order of the rest.
fn remove_all(v: &mut Vec<String>, x: &str)
    ensures
        str_views(final(v)@) == without(str_views(old(v)@), x@),
{
    let out = filtered(v, x);
    *v = out;
}

/// Removes every string equal to `x` from each row.
fn remove_all_rows(rows: &mut Vec<Row>, x: &str)
    ensures
        final(rows)@.len() == old(rows)@.len(),
        forall|k: int| 0 <= k < old(rows)@.len() ==> str_views(#[trigger] final(rows)@[k]@) == without(str_views(old(rows)@[k]@), x@),
{
    let mut out: Vec<Row> = Vec::new();
    let mut k: usize = 0;
    while k < rows.len()
        invariant
            k <= rows.len(),
            out@.len() == k,
            forall|m: int| 0 <= m < k ==> str_views(#[trigger] out@[m]@) == without(str_views(rows@[m]@), x@),
        decreases rows.len() - k,
    {
        let row = filtered_row(&rows[k], x);
        out.push(row);
        k = k + 1;
    }
    *rows = out;
}

/// `order` lists every node of `g` once, and each node after every node it
/// depends on.
pub open spec fn is_topological_order(g: GraphView, order: Seq<Seq<char>>) -> bool {
    &&& order.no_duplicates()
    &&& order.len() == g.nodes.len()
    &&& forall|x: Seq<char>| order.contains(x) <==> g.nodes.contains(x)
    &&& forall|k: int, b: Seq<char>|
        0 <= k < order.len() && #[trigger] g.edge(order[k], b) ==> exists|p: int|
            0 <= p < k && order[p] == b
}

/// One edge line of the DOT export.
pub open spec fn dot_line(from: Seq<char>, to: Seq<char>) -> Seq<char> {
    "  \""@ + from + "\" -> \""@ + to + "\";\n"@
}

/// The DOT lines of the edges from `from` to each entry of `row`.
pub open spec fn dot_row(from: Seq<char>, row: Seq<Seq<char>>) -> Seq<char>
    decreases row.len(),
{
    if row.len() == 0 {
        Seq::empty()
    } else {
        dot_row(from, row.drop_last()) + dot_line(from, row.last())
    }
}

/// The DOT lines of every edge, node by node.
pub open spec fn dot_body(nodes: Seq<Seq<char>>, rows: Seq<Seq<Seq<char>>>) -> Seq<char>
    decreases nodes.len(),
{
    if nodes.len() == 0 {
        Seq::empty()
    } else {
        dot_body(nodes.drop_last(), rows.take(nodes.len() - 1)) + dot_row(
            nodes.last(),
            rows[nodes.len() - 1],
        )
    }
}

/// The DOT text of a graph.
pub open spec fn dot_text(g: GraphView) -> Seq<char> {
    "digraph DependencyGraph {\n"@ + dot_body(g.nodes, g.dependencies) + "}"@
}

/// A piece found in `s` is found in `s` with text added before or after it.
pub proof fn lemma_occurs_extend(pre: Seq<char>, s: Seq<char>, post: Seq<char>, pat: Seq<char>, j: int)
    requires
        occurs_at(s, pat, j),
    ensures
        occurs_at(pre + s + post, pat, j + pre.len()),
{
    assert((pre + s + post).subrange(j + pre.len(), j + pre.len() + pat.len()) =~= s.subrange(j, j + pat.len()));
}

proof fn lemma_dot_row_has(from: Seq<char>, row: Seq<Seq<char>>, k: int)
    requires
        0 <= k < row.len(),
    ensures
        exists|j: int| occurs_at(dot_row(from, row), dot_line(from, row[k]), j),
    decreases row.len(),
{
    let d = row.drop_last();
    let line = dot_line(from, row.last());
    if k == row.len() - 1 {
        assert(occurs_at(line, line, 0)) by {
            assert(line.subrange(0, line.len() as int) =~= line);
        }
        lemma_occurs_extend(dot_row(from, d), line, Seq::empty(), line, 0);
        assert(dot_row(from, d) + line + Seq::<char>::empty() =~= dot_row(from, row));
    } else {
        lemma_dot_row_has(from, d, k);
        let j = choose|j: int| occurs_at(dot_row(from, d), dot_line(from, d[k]), j);
        lemma_occurs_extend(Seq::empty(), dot_row(from, d), line, dot_line(from, row[k]), j);
        assert(Seq::<char>::empty() + dot_row(from, d) + line =~= dot_row(from, row));
    }
}

proof fn lemma_dot_body_has(nodes: Seq<Seq<char>>, rows: Seq<Seq<Seq<char>>>, i: int, k: int)
    requires
        rows.len() >= nodes.len(),
        0 <= i < nodes.len(),
        0 <= k < rows[i].len(),
    ensures
        exists|j: int| occurs_at(dot_body(nodes, rows), dot_line(nodes[i], rows[i][k]), j),
    decreases nodes.len(),
{
    let n = nodes.len();
    let prev = dot_body(nodes.drop_last(), rows.take(n - 1));
    let last = dot_row(nodes.last(), rows[n - 1]);
    if i == n - 1 {
        lemma_dot_row_has(nodes.last(), rows[n - 1], k);
        let j = choose|j: int| occurs_at(last, dot_line(nodes[i], rows[i][k]), j);
        lemma_occurs_extend(prev, last, Seq::empty(), dot_line(nodes[i], rows[i][k]), j);
        assert(prev + last + Seq::<char>::empty() =~= dot_body(nodes, rows));
    } else {
        lemma_dot_body_has(nodes.drop_last(), rows.take(n - 1), i, k);
        assert(rows.take(n - 1)[i] == rows[i]);
        let j = choose|j: int| occurs_at(prev, dot_line(nodes[i], rows[i][k]), j);
        lemma_occurs_extend(Seq::empty(), prev, last, dot_line(nodes[i], rows[i][k]), j);
        assert(Seq::<char>::empty() + prev + last =~= dot_body(nodes, rows));
    }
}

/// The DOT export lists every edge: whenever `a` depends on `b`, the text
/// holds the line `  "a" -> "b";`, whichever node `a` is.
pub proof fn lemma_dot_lists_every_edge(g: GraphView, a: Seq<char>, b: Seq<char>)
    requires
        g.dependencies.len() == g.nodes.len(),
        g.edge(a, b),
    ensures
        exists|j: int| occurs_at(dot_text(g), "  \""@ + a + "\" -> \""@ + b + "\";\n"@, j),
{
    let i = choose|i: int| 0 <= i < g.nodes.len() && g.nodes[i] == a && #[trigger] g.adjacency(true)[i].contains(b);
    let k = choose|k: int| 0 <= k < g.dependencies[i].len() && g.dependencies[i][k] == b;
    lemma_dot_body_has(g.nodes, g.dependencies, i, k);
    let line = dot_line(a, b);
    let j = choose|j: int| occurs_at(dot_body(g.nodes, g.dependencies), line, j);
    let head = "digraph DependencyGraph {\n"@;
    lemma_occurs_extend(head, dot_body(g.nodes, g.dependencies), "}"@, line, j);
    assert(line == "  \""@ + a + "\" -> \""@ + b + "\";\n"@);
    assert(head + dot_body(g.nodes, g.dependencies) + "}"@ == dot_text(g));
    assert(occurs_at(dot_text(g), line, j + head.len()));
}

proof fn lemma_count_concat(a: Seq<char>, b: Seq<char>, x: char)
    ensures
        count_in(a + b, x) == count_in(a, x) + count_in(b, x),
    decreases b.len(),
{
    if b.len() > 0 {
        lemma_count_concat(a, b.drop_last(), x);
        assert((a + b).drop_last() =~= a + b.drop_last());
    } else {
        assert(a + b =~= a);
    }
}

proof fn lemma_dot_line_newlines(from: Seq<char>, to: Seq<char>)
    requires
        !from.contains('\n'),
        !to.contains('\n'),
    ensures
        count_in(dot_line(from, to), '\n') == 1,
{
    reveal_strlit("  \"");
    reveal_strlit("\" -> \"");
    reveal_strlit("\";\n");
    let p1 = "  \""@;
    let p2 = "\" -> \""@;
    let p3 = "\";\n"@;
    crate::seqs::lemma_count_contains(from, '\n');
    crate::seqs::lemma_count_contains(to, '\n');
    crate::seqs::lemma_count_contains(p1, '\n');
    crate::seqs::lemma_count_contains(p2, '\n');
    assert(!p1.contains('\n')) by {
        assert(p1 =~= seq![' ', ' ', '"']);
    }
    assert(!p2.contains('\n')) by {
        assert(p2 =~= seq!['"', ' ', '-', '>', ' ', '"']);
    }
    assert(p3 =~= seq!['"', ';', '\n']);
    assert(count_in(p3, '\n') == 1) by {
        reveal_with_fuel(count_in, 4);
        assert(p3.drop_last() =~= seq!['"', ';']);
        assert(p3.drop_last().drop_last() =~= seq!['"']);
        assert(p3.drop_last().drop_last().drop_last() =~= Seq::<char>::empty());
    }
    lemma_count_concat(p1, from, '\n');
    lemma_count_concat(p1 + from, p2, '\n');
    lemma_count_concat(p1 + from + p2, to, '\n');
    lemma_count_concat(p1 + from + p2 + to, p3, '\n');
}

proof fn lemma_dot_row_newlines(from: Seq<char>, row: Seq<Seq<char>>)
    requires
        !from.contains('\n'),
        forall|k: int| 0 <= k < row.len() ==> !(#[trigger] row[k]).contains('\n'),
    ensures
        count_in(dot_row(from, row), '\n') == row.len(),
    decreases row.len(),
{
    if row.len() > 0 {
        lemma_dot_row_newlines(from, row.drop_last());
        lemma_dot_line_newlines(from, row.last());
        lemma_count_concat(dot_row(from, row.drop_last()), dot_line(from, row.last()), '\n');
    }
}

proof fn lemma_dot_body_newlines(nodes: Seq<Seq<char>>, rows: Seq<Seq<Seq<char>>>)
    requires
        rows.len() == nodes.len(),
        forall|i: int| 0 <= i < nodes.len() ==> !(#[trigger] nodes[i]).contains('\n'),
        forall|i: int, k: int| 0 <= i < rows.len() && 0 <= k < rows[i].len() ==> !(#[trigger] rows[i][k]).contains('\n'),
    ensures
        count_in(dot_body(nodes, rows), '\n') == total_len(rows),
    decreases nodes.len(),
{
    let n = nodes.len();
    if n > 0 {
        let rt = rows.take(n - 1);
        assert forall|i: int, k: int| 0 <= i < rt.len() && 0 <= k < rt[i].len() implies !(#[trigger] rt[i][k]).contains('\n') by {
            assert(rt[i] == rows[i]);
        }
        lemma_dot_body_newlines(nodes.drop_last(), rt);
        assert(nodes.last() == nodes[n - 1]);
        assert forall|k: int| 0 <= k < rows[n - 1].len() implies !(#[trigger] rows[n - 1][k]).contains('\n') by {}
        lemma_dot_row_newlines(nodes.last(), rows[n - 1]);
        lemma_count_concat(dot_body(nodes.drop_last(), rt), dot_row(nodes.last(), rows[n - 1]), '\n');
        assert(rows.drop_last() =~= rt);
    }
}

/// The DOT export has one line per edge besides its header: when no node
/// name holds a line break, the text holds exactly `edge_total() + 1` line
/// breaks, so no edge is missing, doubled or invented.
pub proof fn lemma_dot_line_count(g: GraphView)
    requires
        g.dependencies.len() == g.nodes.len(),
        forall|i: int| 0 <= i < g.nodes.len() ==> !(#[trigger] g.nodes[i]).contains('\n'),
        forall|i: int, k: int|
            0 <= i < g.dependencies.len() && 0 <= k < g.dependencies[i].len() ==> !(
            #[trigger] g.dependencies[i][k]).contains('\n'),
    ensures
        count_in(dot_text(g), '\n') == g.edge_total() + 1,
{
    reveal_strlit("digraph DependencyGraph {\n");
    reveal_strlit("}");
    let head = "digraph DependencyGraph {\n"@;
    let body = dot_body(g.nodes, g.dependencies);
    lemma_dot_body_newlines(g.nodes, g.dependencies);
    lemma_count_concat(head, body, '\n');
    lemma_count_concat(head + body, "}"@, '\n');
    assert("}"@ =~= seq!['}']);
    assert(count_in("}"@, '\n') == 0) by {
        reveal_with_fuel(count_in, 2);
        assert("}"@.drop_last() =~= Seq::<char>::empty());
    }
    assert(head.last() == '\n');
    crate::seqs::lemma_count_contains(head.drop_last(), '\n');
    assert(!head.drop_last().contains('\n')) by {
        if head.drop_last().contains('\n') {
            let j = choose|j: int| 0 <= j < head.drop_last().len() && head.drop_last()[j] == '\n';
            assert(head[j] == '\n');
        }
    }
}

/// Sum of the lengths of the inner sequences.
pub open spec fn total_len<A>(s: Seq<Seq<A>>) -> nat
    decreases s.len(),
{
    if s.len() == 0 {
        0
    } else {
        total_len(s.drop_last()) + s.last().len()
    }
}

proof fn lemma_total_len_take<A>(s: Seq<Seq<A>>, k: int)
    requires
        0 <= k < s.len(),
    ensures
        total_len(s.take(k + 1)) == total_len(s.take(k)) + s[k].len(),
        total_len(s.take(k + 1)) <= total_len(s),
    decreases s.len(),
{
    assert(s.take(k + 1).drop_last() =~= s.take(k));
    if k + 1 < s.len() {
        lemma_total_len_take(s.drop_last(), k);
        assert(s.drop_last().take(k + 1) =~= s.take(k + 1));
        assert(s.drop_last().take(k) =~= s.take(k));
    } else {
        assert(s.take(k + 1) =~= s);
    }
}

proof fn lemma_total_len_remove<A>(s: Seq<Seq<A>>, i: int)
    requires
        0 <= i < s.len(),
    ensures
        total_len(s.remove(i)) + s[i].len() == total_len(s),
    decreases s.len(),
{
    if i == s.len() - 1 {
        assert(s.remove(i) =~= s.drop_last());
    } else {
        lemma_total_len_remove(s.drop_last(), i);
        assert(s.remove(i).drop_last() =~= s.drop_last().remove(i));
        assert(s.remove(i).last() == s.last());
    }
}

proof fn lemma_total_len_le<A>(s: Seq<Seq<A>>, t: Seq<Seq<A>>)
    requires
        s.len() == t.len(),
        forall|k: int| 0 <= k < s.len() ==> (#[trigger] s[k]).len() <= t[k].len(),
    ensures
        total_len(s) <= total_len(t),
    decreases s.len(),
{
    if s.len() > 0 {
        lemma_total_len_le(s.drop_last(), t.drop_last());
    }
}

proof fn lemma_total_len_update<A>(s: Seq<Seq<A>>, i: int, t: Seq<A>)
    requires
        0 <= i < s.len(),
    ensures
        total_len(s.update(i, t)) + s[i].len() == total_len(s) + t.len(),
    decreases s.len(),
{
    if i == s.len() - 1 {
        assert(s.update(i, t).drop_last() =~= s.drop_last());
    } else {
        lemma_total_len_update(s.drop_last(), i, t);
        assert(s.update(i, t).drop_last() =~= s.drop_last().update(i, t));
    }
}

/// Number of entries of `s` that are not in `done`.
spec fn unmet(s: Seq<Seq<char>>, done: Seq<Seq<char>>) -> nat
    decreases s.len(),
{
    if s.len() == 0 {
        0
    } else {
        unmet(s.drop_last(), done) + if done.contains(s.last()) {
            0nat
        } else {
            1nat
        }
    }
}

proof fn lemma_unmet_none_done(s: Seq<Seq<char>>)
    ensures
        unmet(s, Seq::empty()) == s.len(),
    decreases s.len(),
{
    if s.len() > 0 {
        lemma_unmet_none_done(s.drop_last());
    }
}

proof fn lemma_unmet_push(s: Seq<Seq<char>>, done: Seq<Seq<char>>, c: Seq<char>)
    requires
        !done.contains(c),
    ensures
        unmet(s, done.push(c)) + count_in(s, c) == unmet(s, done),
    decreases s.len(),
{
    if s.len() > 0 {
        lemma_unmet_push(s.drop_last(), done, c);
        let b = s.last();
        if done.contains(b) {
            let k = choose|k: int| 0 <= k < done.len() && done[k] == b;
            assert(done.push(c)[k] == b);
        }
        if b == c {
            assert(done.push(c)[done.len() as int] == c);
        }
        if done.push(c).contains(b) && b != c {
            let k = choose|k: int| 0 <= k < done.len() + 1 && done.push(c)[k] == b;
            assert(done[k] == b);
        }
    }
}

proof fn lemma_unmet_zero(s: Seq<Seq<char>>, done: Seq<Seq<char>>, b: Seq<char>)
    requires
        unmet(s, done) == 0,
        s.contains(b),
    ensures
        done.contains(b),
    decreases s.len(),
{
    if s.last() != b {
        let k = choose|k: int| 0 <= k < s.len() && s[k] == b;
        assert(s.drop_last()[k] == b);
        lemma_unmet_zero(s.drop_last(), done, b);
    }
}

proof fn lemma_unmet_witness(s: Seq<Seq<char>>, done: Seq<Seq<char>>)
    requires
        unmet(s, done) > 0,
    ensures
        exists|b: Seq<char>| s.contains(b) && !done.contains(b),
    decreases s.len(),
{
    if done.contains(s.last()) {
        lemma_unmet_witness(s.drop_last(), done);
        let b = choose|b: Seq<char>| s.drop_last().contains(b) && !done.contains(b);
        let k = choose|k: int| 0 <= k < s.len() - 1 && s.drop_last()[k] == b;
        assert(s[k] == b);
    } else {
        assert(s[s.len() - 1] == s.last());
    }
}

/// Among the positions below `n` that satisfy `pred`, one of least rank.
proof fn lemma_min_rank(n: int, pred: spec_fn(int) -> bool, rank: spec_fn(int) -> nat, k0: int)
    requires
        0 <= k0 < n,
        pred(k0),
    ensures
        exists|m: int|
            0 <= m < n && #[trigger] pred(m) && forall|k: int| 0 <= k < n && pred(k) ==> rank(m) <= #[trigger] rank(k),
    decreases rank(k0),
{
    if exists|k: int| 0 <= k < n && #[trigger] pred(k) && rank(k) < rank(k0) {
        let k = choose|k: int| 0 <= k < n && #[trigger] pred(k) && rank(k) < rank(k0);
        lemma_min_rank(n, pred, rank, k);
    } else {
        assert(forall|k: int| 0 <= k < n && pred(k) ==> rank(k0) <= #[trigger] rank(k));
    }
}


/// Dependency graph over string-identified nodes.
pub struct DependencyGraph {
    nodes: Vec<NodeId>,
    dependencies: Vec<Row>,
    dependents: Vec<Row>,
    roots: Vec<NodeId>,
    leaves: Vec<NodeId>,
    /// A ranking that strictly decreases along every edge; its existence
    /// is what makes the graph acyclic.
    rank: Ghost<spec_fn(Seq<char>) -> nat>,
}

impl View for DependencyGraph {
    type V = GraphView;

    closed spec fn view(&self) -> GraphView {
        GraphView {
            nodes: str_views(self.nodes@),
            dependencies: self.dependencies@.map_values(|l: Row| str_views(l@)),
            dependents: self.dependents@.map_values(|l: Row| str_views(l@)),
            roots: str_views(self.roots@),
            leaves: str_views(self.leaves@),
        }
    }
}

impl DependencyGraph {
    /// The internal invariant of the graph.
    pub closed spec fn well_formed(&self) -> bool {
        let v = self@;
        let n = v.nodes.len();
        &&& v.nodes.no_duplicates()
        &&& self.dependencies@.len() == n
        &&& self.dependents@.len() == n
        &&& forall|i: int, b: Seq<char>|
            0 <= i < n && #[trigger] v.dependencies[i].contains(b) ==> v.nodes.contains(b)
        &&& forall|i: int, b: Seq<char>|
            0 <= i < n && #[trigger] v.dependents[i].contains(b) ==> v.nodes.contains(b)
        &&& forall|i: int, j: int|
            0 <= i < n && 0 <= j < n ==> #[trigger] count_in(v.dependencies[i], v.nodes[j])
                == #[trigger] count_in(v.dependents[j], v.nodes[i])
        &&& v.roots.no_duplicates()
        &&& v.leaves.no_duplicates()
        &&& forall|x: Seq<char>| #[trigger] v.roots.contains(x) ==> v.nodes.contains(x)
        &&& forall|x: Seq<char>| #[trigger] v.leaves.contains(x) ==> v.nodes.contains(x)
        &&& forall|i: int| 0 <= i < n && #[trigger] v.roots.contains(v.nodes[i]) ==> v.dependencies[i].len() == 0
        &&& forall|i: int| 0 <= i < n && #[trigger] v.leaves.contains(v.nodes[i]) ==> v.dependents[i].len() == 0
        &&& forall|i: int| #![trigger v.dependencies[i]] 0 <= i < n && v.dependencies[i].len() == 0 ==> v.roots.contains(v.nodes[i])
        &&& forall|i: int| #![trigger v.dependents[i]] 0 <= i < n && v.dependents[i].len() == 0 ==> v.leaves.contains(v.nodes[i])
        &&& forall|i: int, b: Seq<char>|
            0 <= i < n && #[trigger] v.dependencies[i].contains(b) ==> (self.rank@)(v.nodes[i])
                > (self.rank@)(b)
        &&& v.edge_total() <= usize::MAX
    }

    /// Creates an empty graph.
    pub fn new() -> (g: Self)
        ensures
            g.well_formed(),
            g@.nodes.len() == 0,
            g@.roots.len() == 0,
            g@.leaves.len() == 0,
            g@.edge_total() == 0,
    {
        let g = DependencyGraph {
            nodes: Vec::new(),
            dependencies: Vec::new(),
            dependents: Vec::new(),
            roots: Vec::new(),
            leaves: Vec::new(),
            rank: Ghost(|s: Seq<char>| 0nat),
        };
        assert(g@.dependencies =~= Seq::empty());
        g
    }

    /// Every node has one row of dependencies and one of dependents.
    pub proof fn lemma_rows_per_node(&self)
        requires
            self.well_formed(),
        ensures
            self@.dependencies.len() == self@.nodes.len(),
            self@.dependents.len() == self@.nodes.len(),
    {
    }

    /// Number of nodes.
    pub fn node_count(&self) -> (r: usize)
        requires
            self.well_formed(),
        ensures
            r == self@.nodes.len(),
    {
        self.nodes.len()
    }

    /// Whether the graph has no nodes.
    pub fn is_empty(&self) -> (r: bool)
        requires
            self.well_formed(),
        ensures
            r == (self@.nodes.len() == 0),
    {
        self.nodes.len() == 0
    }

    /// Index of the node named `id`, if there is one.
    fn find_node(&self, id: &str) -> (r: Option<usize>)
        requires
            self.well_formed(),
        ensures
            match r {
                Some(i) => i < self@.nodes.len() && self@.nodes[i as int] == id@,
                None => !self@.nodes.contains(id@),
            },
    {
        let mut i: usize = 0;
        while i < self.nodes.len()
            invariant
                0 <= i <= self.nodes@.len(),
                forall|k: int| 0 <= k < i ==> self@.nodes[k] != id@,
            decreases self.nodes@.len() - i,
        {
            if str_eq(self.nodes[i].as_str(), id) {
                return Some(i);
            }
            i = i + 1;
        }
        None
    }

    /// Whether `id` is a node of the graph.
    pub fn has_node(&self, node_id: &str) -> (r: bool)
        requires
            self.well_formed(),
        ensures
            r == self@.nodes.contains(node_id@),
    {
        self.find_node(node_id).is_some()
    }

    /// Adds `node_id` as a node with no edges, unless it is one already.
    pub fn add_node(&mut self, node_id: &str)
        requires
            old(self).well_formed(),
        ensures
            final(self).well_formed(),
            final(self)@ == old(self)@.with_node(node_id@),
    {
        if self.find_node(node_id).is_none() {
            let ghost v0 = self@;
            let ghost deps0 = self.dependencies@;
            let ghost dts0 = self.dependents@;
            self.nodes.push(node_id.to_owned());
            self.dependencies.push(Row::new());
            self.dependents.push(Row::new());
            self.roots.push(node_id.to_owned());
            self.leaves.push(node_id.to_owned());
            proof {
                let v = self@;
                let n = v0.nodes.len();
                assert(v.nodes =~= v0.nodes.push(node_id@));
                assert(str_views(Seq::<String>::empty()) =~= Seq::<Seq<char>>::empty());
                assert(self.dependencies@[n as int]@ =~= Seq::<String>::empty());
                assert(self.dependents@[n as int]@ =~= Seq::<String>::empty());
                assert(self.dependencies@.drop_last() =~= deps0);
                assert(v.dependencies =~= v0.dependencies.push(Seq::empty()));
                assert(self.dependents@.drop_last() =~= dts0);
                assert(v.dependents =~= v0.dependents.push(Seq::empty()));
                assert(v.roots =~= v0.roots.push(node_id@));
                assert(v.leaves =~= v0.leaves.push(node_id@));
                assert(v.dependencies.drop_last() =~= v0.dependencies);
                assert forall|i: int, j: int| 0 <= i < n + 1 && 0 <= j < n + 1 implies
                    #[trigger] count_in(v.dependencies[i], v.nodes[j]) == #[trigger] count_in(
                    v.dependents[j], v.nodes[i]) by {
                    if i == n {
                        assert(count_in(v.dependencies[i], v.nodes[j]) == 0);
                        if j < n {
                            lemma_count_contains(v.dependents[j], v.nodes[i]);
                        }
                    } else if j == n {
                        lemma_count_contains(v.dependencies[i], v.nodes[j]);
                    }
                }
                assert forall|x: Seq<char>| #[trigger] v.roots.contains(x) implies v.nodes.contains(x) by {
                    if x != node_id@ {
                        let k = choose|k: int| 0 <= k < v.roots.len() && v.roots[k] == x;
                        assert(v0.roots[k] == x);
                        assert(v0.roots.contains(x));
                        let m = choose|m: int| 0 <= m < v0.nodes.len() && v0.nodes[m] == x;
                        assert(v.nodes[m] == x);
                    } else {
                        assert(v.nodes[n as int] == node_id@);
                    }
                }
                assert forall|x: Seq<char>| #[trigger] v.leaves.contains(x) implies v.nodes.contains(x) by {
                    if x != node_id@ {
                        let k = choose|k: int| 0 <= k < v.leaves.len() && v.leaves[k] == x;
                        assert(v0.leaves[k] == x);
                        assert(v0.leaves.contains(x));
                        let m = choose|m: int| 0 <= m < v0.nodes.len() && v0.nodes[m] == x;
                        assert(v.nodes[m] == x);
                    } else {
                        assert(v.nodes[n as int] == node_id@);
                    }
                }
                assert forall|b: Seq<char>| v0.nodes.contains(b) implies v.nodes.contains(b) by {
                    let m = choose|m: int| 0 <= m < v0.nodes.len() && v0.nodes[m] == b;
                    assert(v.nodes[m] == b);
                }
                assert forall|i: int, b: Seq<char>|
                    0 <= i < n + 1 && #[trigger] v.dependencies[i].contains(b) implies v.nodes.contains(b)
                    && (self.rank@)(v.nodes[i]) > (self.rank@)(b) by {
                    assert(v.dependencies[i] == v0.dependencies[i]);
                    assert(v.nodes[i] == v0.nodes[i]);
                }
                assert forall|i: int, b: Seq<char>|
                    0 <= i < n + 1 && #[trigger] v.dependents[i].contains(b) implies v.nodes.contains(b) by {
                    assert(v.dependents[i] == v0.dependents[i]);
                }
                assert(v.edge_total() == v0.edge_total());
                assert forall|i: int| 0 <= i < n + 1 && #[trigger] v.roots.contains(v.nodes[i]) implies v.dependencies[i].len() == 0 by {
                    if i < n {
                        let k = choose|k: int| 0 <= k < v.roots.len() && v.roots[k] == v.nodes[i];
                        assert(v.nodes[i] == v0.nodes[i]);
                        if k < v0.roots.len() {
                            assert(v0.roots[k] == v0.nodes[i]);
                        } else {
                            assert(v0.nodes.contains(v0.nodes[i]));
                        }
                        assert(v0.roots.contains(v0.nodes[i]));
                    }
                }
                assert forall|i: int| 0 <= i < n + 1 && #[trigger] v.leaves.contains(v.nodes[i]) implies v.dependents[i].len() == 0 by {
                    if i < n {
                        let k = choose|k: int| 0 <= k < v.leaves.len() && v.leaves[k] == v.nodes[i];
                        assert(v.nodes[i] == v0.nodes[i]);
                        if k < v0.leaves.len() {
                            assert(v0.leaves[k] == v0.nodes[i]);
                        } else {
                            assert(v0.nodes.contains(v0.nodes[i]));
                        }
                        assert(v0.leaves.contains(v0.nodes[i]));
                    }
                }
                assert forall|i: int| #![trigger v.dependencies[i]] 0 <= i < n + 1 && v.dependencies[i].len() == 0 implies v.roots.contains(v.nodes[i]) by {
                    if i < n {
                        assert(v.dependencies[i] == v0.dependencies[i]);
                        assert(v0.roots.contains(v0.nodes[i]));
                        let k = choose|k: int| 0 <= k < v0.roots.len() && v0.roots[k] == v0.nodes[i];
                        assert(v.roots[k] == v.nodes[i]);
                    } else {
                        assert(v.roots[v0.roots.len() as int] == v.nodes[i]);
                    }
                }
                assert forall|i: int| #![trigger v.dependents[i]] 0 <= i < n + 1 && v.dependents[i].len() == 0 implies v.leaves.contains(v.nodes[i]) by {
                    if i < n {
                        assert(v.dependents[i] == v0.dependents[i]);
                        assert(v0.leaves.contains(v0.nodes[i]));
                        let k = choose|k: int| 0 <= k < v0.leaves.len() && v0.leaves[k] == v0.nodes[i];
                        assert(v.leaves[k] == v.nodes[i]);
                    } else {
                        assert(v.leaves[v0.leaves.len() as int] == v.nodes[i]);
                    }
                }
                assert(!v0.roots.contains(node_id@));
                assert(!v0.leaves.contains(node_id@));
                lemma_push_no_duplicates(v0.roots, node_id@);
                lemma_push_no_duplicates(v0.leaves, node_id@);
                lemma_push_no_duplicates(v0.nodes, node_id@);
            }
        }
    }

    /// The view's adjacency rows, as stored, line up with the view.
    proof fn lemma_rows(&self, forward: bool, c: int)
        requires
            self.well_formed(),
            0 <= c < self@.nodes.len(),
        ensures
            forward ==> self@.adjacency(forward)[c] == str_views(self.dependencies@[c]@),
            !forward ==> self@.adjacency(forward)[c] == str_views(self.dependents@[c]@),
            forward ==> self@.adjacency(forward)[c].len() == self.dependencies@[c]@.len(),
            !forward ==> self@.adjacency(forward)[c].len() == self.dependents@[c]@.len(),
            self@.nodes[c] == self.nodes@[c]@,
    {
    }

    /// Depth-first search from the nodes at `init`, following dependencies
    /// (`forward`) or dependents. With a `target`, the search stops as soon as
    /// it meets the target; otherwise it marks every node reached.
    fn explore(&self, forward: bool, init: Vec<usize>, target: Option<&str>) -> (r: (
        bool,
        Vec<bool>,
    ))
        requires
            self.well_formed(),
            forall|k: int| 0 <= k < init.len() ==> init[k] < self@.nodes.len(),
        ensures
            r.1.len() == self@.nodes.len(),
            r.0 ==> target is Some,
            target matches Some(t) ==> r.0 == self@.reached(forward, init@, t@),
            !r.0 ==> forall|j: int|
                0 <= j < self@.nodes.len() ==> (r.1[j] <==> self@.reached(
                    forward,
                    init@,
                    self@.nodes[j],
                )),
    {
        let ghost g = self@;
        let n = self.nodes.len();
        let mut marks: Vec<bool> = Vec::new();
        let mut m: usize = 0;
        while m < n
            invariant
                m <= n,
                marks.len() == m,
                forall|j: int| 0 <= j < m ==> !marks[j],
            decreases n - m,
        {
            marks.push(false);
            m = m + 1;
        }
        let mut stack = init;
        proof {
            assert forall|k: int| 0 <= k < stack.len() implies g.reached(
                forward,
                init@,
                g.nodes[stack[k] as int],
            ) by {
                let p = seq![g.nodes[stack[k] as int]];
                assert(g.is_walk(forward, p));
                assert(init@[k] == stack[k]);
                assert(p[0] == g.nodes[init@[k] as int] && p.last() == g.nodes[init@[k] as int]);
                assert(g.reaches(forward, g.nodes[init@[k] as int], g.nodes[stack[k] as int]));
            }
        }
        while stack.len() > 0
            invariant
                self.well_formed(),
                g == self@,
                n == g.nodes.len(),
                marks.len() == n,
                forall|k: int| 0 <= k < init.len() ==> init[k] < n,
                forall|k: int| 0 <= k < stack.len() ==> stack[k] < n,
                forall|k: int|
                    0 <= k < stack.len() ==> g.reached(forward, init@, g.nodes[#[trigger] stack[k] as int]),
                forall|j: int| 0 <= j < n && #[trigger] marks[j] ==> g.reached(forward, init@, g.nodes[j]),
                forall|k: int| 0 <= k < init.len() ==> marks[#[trigger] init[k] as int] || stack@.contains(init[k]),
                forall|j: int, b: Seq<char>|
                    0 <= j < n && marks[j] && #[trigger] g.adjacency(forward)[j].contains(b) ==> exists|i: int|
                        0 <= i < n && g.nodes[i] == b && (marks[i] || stack@.contains(i as usize)),
                target matches Some(t) ==> forall|j: int| 0 <= j < n && #[trigger] marks[j] ==> g.nodes[j] != t@,
            decreases count_in(marks@, false), stack.len(),
        {
            let ghost stack_before = stack@;
            let c = stack.pop().unwrap();
            proof {
                assert(stack@.push(c) =~= stack_before);
                assert forall|x: usize| stack_before.contains(x) && x != c implies stack@.contains(x) by {
                    let k = choose|k: int| 0 <= k < stack_before.len() && stack_before[k] == x;
                    assert(stack@[k] == x);
                }
            }
            if let Some(t) = target {
                if str_eq(self.nodes[c].as_str(), t) {
                    return (true, marks);
                }
            }
            if !marks[c] {
                let ghost marks0 = marks@;
                marks.set(c, true);
                proof {
                    lemma_count_update(marks0, c as int, true, false);
                }
                let row = if forward {
                    &self.dependencies[c]
                } else {
                    &self.dependents[c]
                };
                proof {
                    self.lemma_rows(forward, c as int);
                }
                let ghost marks1 = marks@;
                let mut q: usize = 0;
                while q < row.len()
                    invariant
                        self.well_formed(),
                        g == self@,
                        n == g.nodes.len(),
                        marks@ == marks1,
                        marks.len() == n,
                        c < n,
                        marks[c as int],
                        q <= row@.len(),
                        g.adjacency(forward)[c as int] == str_views(row@),
                        forall|k: int| 0 <= k < stack.len() ==> stack[k] < n,
                        forall|k: int|
                            0 <= k < stack.len() ==> g.reached(forward, init@, g.nodes[#[trigger] stack[k] as int]),
                        forall|j: int| 0 <= j < n && #[trigger] marks[j] ==> g.reached(forward, init@, g.nodes[j]),
                        forall|k: int| 0 <= k < init.len() ==> marks[#[trigger] init[k] as int] || stack@.contains(init[k]),
                        forall|j: int, b: Seq<char>|
                            0 <= j < n && j != c && marks[j] && #[trigger] g.adjacency(forward)[j].contains(b) ==> exists|i: int|
                                0 <= i < n && g.nodes[i] == b && (marks[i] || stack@.contains(i as usize)),
                        forall|p: int| 0 <= p < q ==> exists|i: int|
                                0 <= i < n && g.nodes[i] == #[trigger] str_views(row@)[p] && (marks[i] || stack@.contains(i as usize)),
                    decreases row@.len() - q,
                {
                    let ghost stack0 = stack@;
                    proof {
                        assert(str_views(row@)[q as int] == row@[q as int]@);
                        assert(g.adjacency(forward)[c as int].contains(row@[q as int]@));
                    }
                    let j = self.find_node(row.get(q).as_str()).unwrap();
                    proof {
                        assert(g.step(forward, g.nodes[c as int], g.nodes[j as int]));
                        g.lemma_reached_step(forward, init@, g.nodes[c as int], g.nodes[j as int]);
                    }
                    if !marks[j] {
                        stack.push(j);
                        proof {
                            assert(stack@[stack0.len() as int] == j);
                            assert forall|x: usize| stack0.contains(x) implies stack@.contains(x) by {
                                let k = choose|k: int| 0 <= k < stack0.len() && stack0[k] == x;
                                assert(stack@[k] == x);
                            }
                        }
                    }
                    q = q + 1;
                }
                proof {
                    assert forall|b: Seq<char>| #[trigger] g.adjacency(forward)[c as int].contains(b) implies exists|i: int|
                        0 <= i < n && g.nodes[i] == b && (marks[i] || stack@.contains(i as usize)) by {
                        let p = choose|p: int| 0 <= p < str_views(row@).len() && str_views(row@)[p] == b;
                        assert(exists|i: int|
                                0 <= i < n && g.nodes[i] == #[trigger] str_views(row@)[p] && (marks[i] || stack@.contains(i as usize)));
                    }
                }
            }
        }
        proof {
            let v = |x: Seq<char>| exists|i: int| 0 <= i < n && marks@[i] && g.nodes[i] == x;
            assert forall|x: Seq<char>, y: Seq<char>| v(x) && #[trigger] g.step(forward, x, y) implies v(y) by {
                let i = choose|i: int| 0 <= i < n && marks@[i] && g.nodes[i] == x;
                let i2 = choose|i2: int|
                    0 <= i2 < g.nodes.len() && g.nodes[i2] == x && #[trigger] g.adjacency(forward)[i2].contains(y);
                assert(i2 == i);
                let i3 = choose|i3: int| 0 <= i3 < n && g.nodes[i3] == y && (marks[i3] || stack@.contains(i3 as usize));
                assert(marks@[i3]);
            }
            assert forall|j: int| 0 <= j < n implies (marks[j] <==> g.reached(forward, init@, g.nodes[j])) by {
                if g.reached(forward, init@, g.nodes[j]) {
                    let k = choose|k: int|
                        0 <= k < init@.len() && #[trigger] g.reaches(forward, g.nodes[init@[k] as int], g.nodes[j]);
                    let p = choose|p: Seq<Seq<char>>| #[trigger]
                        g.is_walk(forward, p) && p[0] == g.nodes[init@[k] as int] && p.last() == g.nodes[j];
                    assert(marks[init[k] as int]);
                    assert(v(p[0]));
                    g.lemma_walk_closed(forward, p, v);
                    let i = choose|i: int| 0 <= i < n && marks@[i] && g.nodes[i] == g.nodes[j];
                    assert(i == j);
                }
            }
            if let Some(t) = target {
                if g.reached(forward, init@, t@) {
                    let k = choose|k: int| 0 <= k < init@.len() && #[trigger] g.reaches(forward, g.nodes[init@[k] as int], t@);
                    let p = choose|p: Seq<Seq<char>>| #[trigger]
                        g.is_walk(forward, p) && p[0] == g.nodes[init@[k] as int] && p.last() == t@;
                    assert(marks[init[k] as int]);
                    assert(v(p[0]));
                    g.lemma_walk_closed(forward, p, v);
                }
            }
        }
        (false, marks)
    }

    /// Whether a walk along dependencies leads from `source` to `target`.
    fn can_reach(&self, source: &str, target: &str) -> (r: bool)
        requires
            self.well_formed(),
        ensures
            r == self@.reaches(true, source@, target@),
    {
        let ghost g = self@;
        match self.find_node(source) {
            None => {
                proof {
                    if g.reaches(true, source@, target@) {
                        let p = choose|p: Seq<Seq<char>>| #[trigger]
                            g.is_walk(true, p) && p[0] == source@ && p.last() == target@;
                        if p.len() > 1 {
                            assert(g.linked(true, p, 0));
                        }
                    }
                    if source@ == target@ {
                        let p = seq![source@];
                        assert(g.is_walk(true, p));
                    }
                }
                str_eq(source, target)
            },
            Some(i) => {
                let init = vec![i];
                let r = self.explore(true, init, Some(target));
                proof {
                    if g.reaches(true, source@, target@) {
                        assert(g.reaches(true, g.nodes[init@[0] as int], target@));
                    }
                }
                r.0
            },
        }
    }

    /// The nodes whose positions are marked, in node order.
    fn collect_marked(&self, marks: &Vec<bool>) -> (r: Vec<NodeId>)
        requires
            self.well_formed(),
            marks.len() == self@.nodes.len(),
        ensures
            str_views(r@).no_duplicates(),
            forall|x: Seq<char>|
                str_views(r@).contains(x) <==> exists|j: int|
                    0 <= j < marks.len() && marks[j] && #[trigger] self@.nodes[j] == x,
    {
        let ghost g = self@;
        let mut out: Vec<NodeId> = Vec::new();
        let mut j: usize = 0;
        while j < marks.len()
            invariant
                self.well_formed(),
                g == self@,
                marks.len() == g.nodes.len(),
                j <= marks.len(),
                str_views(out@).no_duplicates(),
                forall|x: Seq<char>|
                    str_views(out@).contains(x) <==> exists|jj: int|
                        0 <= jj < j && marks[jj] && #[trigger] g.nodes[jj] == x,
            decreases marks.len() - j,
        {
            if marks[j] {
                let ghost out0 = str_views(out@);
                out.push(self.nodes[j].clone());
                proof {
                    assert(g.nodes[j as int] == self.nodes@[j as int]@);
                    assert(str_views(out@) =~= out0.push(g.nodes[j as int]));
                    if out0.contains(g.nodes[j as int]) {
                        let jj = choose|jj: int| 0 <= jj < j && marks[jj] && #[trigger] g.nodes[jj] == g.nodes[j as int];
                    }
                    lemma_push_no_duplicates(out0, g.nodes[j as int]);
                    assert forall|x: Seq<char>| str_views(out@).contains(x) <==> exists|jj: int|
                        0 <= jj < j + 1 && marks[jj] && #[trigger] g.nodes[jj] == x by {
                        if str_views(out@).contains(x) && x != g.nodes[j as int] {
                            let k = choose|k: int| 0 <= k < str_views(out@).len() && str_views(out@)[k] == x;
                            assert(out0[k] == x);
                            assert(out0.contains(x));
                        }
                        if exists|jj: int| 0 <= jj < j + 1 && marks[jj] && #[trigger] g.nodes[jj] == x {
                            if x != g.nodes[j as int] {
                                let jj = choose|jj: int| 0 <= jj < j + 1 && marks[jj] && #[trigger] g.nodes[jj] == x;
                                assert(out0.contains(x));
                                let k = choose|k: int| 0 <= k < out0.len() && out0[k] == x;
                                assert(str_views(out@)[k] == x);
                            } else {
                                assert(str_views(out@)[out0.len() as int] == x);
                            }
                        }
                    }
                }
            }
            j = j + 1;
        }
        out
    }

    /// Every node reached from `node_id` by one or more steps, each once.
    fn transitive(&self, node_id: &str, forward: bool) -> (r: Vec<NodeId>)
        requires
            self.well_formed(),
        ensures
            str_views(r@).no_duplicates(),
            forall|x: Seq<char>| str_views(r@).contains(x) <==> self@.reaches_plus(forward, node_id@, x),
    {
        let ghost g = self@;
        match self.find_node(node_id) {
            None => {
                proof {
                    assert(str_views(Seq::<String>::empty()) =~= Seq::<Seq<char>>::empty());
                    assert forall|x: Seq<char>| !g.reaches_plus(forward, node_id@, x) by {
                        if g.reaches_plus(forward, node_id@, x) {
                            let p = choose|p: Seq<Seq<char>>| #[trigger]
                                g.is_walk(forward, p) && p.len() >= 2 && p[0] == node_id@ && p.last() == x;
                            assert(g.linked(forward, p, 0));
                        }
                    }
                }
                Vec::new()
            },
            Some(i) => {
                let row = if forward {
                    &self.dependencies[i]
                } else {
                    &self.dependents[i]
                };
                proof {
                    self.lemma_rows(forward, i as int);
                }
                let mut init: Vec<usize> = Vec::new();
                let mut q: usize = 0;
                while q < row.len()
                    invariant
                        self.well_formed(),
                        g == self@,
                        i < g.nodes.len(),
                        g.adjacency(forward)[i as int] == str_views(row@),
                        q <= row@.len(),
                        init.len() == q,
                        forall|k: int| 0 <= k < q ==> init[k] < g.nodes.len() && g.nodes[#[trigger] init[k] as int]
                            == str_views(row@)[k],
                    decreases row@.len() - q,
                {
                    proof {
                        assert(str_views(row@)[q as int] == row@[q as int]@);
                        assert(g.adjacency(forward)[i as int].contains(row@[q as int]@));
                    }
                    let j = self.find_node(row.get(q).as_str()).unwrap();
                    init.push(j);
                    q = q + 1;
                }
                let r = self.explore(forward, init, None);
                let out = self.collect_marked(&r.1);
                proof {
                    g.lemma_reaches_plus_split(forward, i as int, node_id@);
                    assert forall|x: Seq<char>| str_views(out@).contains(x) <==> g.reaches_plus(forward, node_id@, x) by {
                        g.lemma_reaches_plus_split(forward, i as int, x);
                        if str_views(out@).contains(x) {
                            let j = choose|j: int| 0 <= j < r.1.len() && r.1[j] && #[trigger] g.nodes[j] == x;
                            assert(g.reached(forward, init@, x));
                            let k = choose|k: int|
                                0 <= k < init@.len() && #[trigger] g.reaches(forward, g.nodes[init@[k] as int], x);
                            assert(g.adjacency(forward)[i as int][k] == g.nodes[init@[k] as int]);
                            assert(g.adjacency(forward)[i as int].contains(g.nodes[init@[k] as int]));
                        }
                        if g.reaches_plus(forward, node_id@, x) {
                            let b = choose|b: Seq<char>| #[trigger]
                                g.adjacency(forward)[i as int].contains(b) && g.reaches(forward, b, x);
                            let k = choose|k: int| 0 <= k < g.adjacency(forward)[i as int].len() && g.adjacency(forward)[i as int][k] == b;
                            assert(g.nodes[init@[k] as int] == b);
                            assert(g.reached(forward, init@, x));
                            let p = choose|p: Seq<Seq<char>>| #[trigger]
                                g.is_walk(forward, p) && p[0] == b && p.last() == x;
                            let kk = choose|kk: int| 0 <= kk < g.nodes.len() && g.nodes[kk] == b;
                            assert(g.step(forward, g.nodes[i as int], b));
                            if p.len() > 1 {
                                assert(g.linked(forward, p, p.len() - 2));
                            }
                            let j = choose|j: int| 0 <= j < g.nodes.len() && g.nodes[j] == x;
                            assert(r.1[j]);
                        }
                    }
                }
                out
            },
        }
    }

    /// Every node that `node_id` depends on, directly or through other
    /// nodes, each listed once.
    pub fn get_all_dependencies(&self, node_id: &str) -> (r: Vec<NodeId>)
        requires
            self.well_formed(),
        ensures
            str_views(r@).no_duplicates(),
            forall|x: Seq<char>| str_views(r@).contains(x) <==> self@.reaches_plus(true, node_id@, x),
    {
        self.transitive(node_id, true)
    }

    /// Every node that depends on `node_id`, directly or through other nodes,
    /// each listed once: what a change to `node_id` affects.
    pub fn get_all_dependents(&self, node_id: &str) -> (r: Vec<NodeId>)
        requires
            self.well_formed(),
        ensures
            str_views(r@).no_duplicates(),
            forall|x: Seq<char>| str_views(r@).contains(x) <==> self@.reaches_plus(false, node_id@, x),
    {
        self.transitive(node_id, false)
    }

    /// Along a walk that follows dependencies the rank drops by at least one
    /// per step.
    proof fn lemma_walk_rank(&self, p: Seq<Seq<char>>)
        requires
            self.well_formed(),
            self@.is_walk(true, p),
        ensures
            (self.rank@)(p[0]) >= (self.rank@)(p.last()) + p.len() - 1,
        decreases p.len(),
    {
        let g = self@;
        if p.len() > 1 {
            let q = p.drop_last();
            assert forall|k: int| 0 <= k < q.len() - 1 implies #[trigger] g.linked(true, q, k) by {
                assert(g.linked(true, p, k));
            }
            self.lemma_walk_rank(q);
            assert(g.linked(true, p, p.len() - 2));
            let i = choose|i: int|
                0 <= i < g.nodes.len() && g.nodes[i] == p[p.len() - 2] && #[trigger] g.adjacency(true)[i].contains(
                    p.last(),
                );
        }
    }

    /// A well-formed graph has no cycle: no walk of one or more steps along
    /// dependencies returns to where it started.
    pub proof fn lemma_acyclic(&self, a: Seq<char>)
        requires
            self.well_formed(),
        ensures
            !self@.reaches_plus(true, a, a),
    {
        if self@.reaches_plus(true, a, a) {
            let p = choose|p: Seq<Seq<char>>| #[trigger]
                self@.is_walk(true, p) && p.len() >= 2 && p[0] == a && p.last() == a;
            self.lemma_walk_rank(p);
        }
    }

    /// The cycle that the edge `from -> to` would close, given that `to`
    /// already reaches `from`: `from`, `to`, then at each node the first
    /// dependency that still leads back to `from`, until `from` is reached.
    fn find_cycle_path(&self, from: &str, to: &str) -> (r: Vec<NodeId>)
        requires
            self.well_formed(),
            self@.nodes.contains(to@),
            self@.reaches(true, to@, from@),
        ensures
            closes_cycle(self@, from@, to@, str_views(r@)),
    {
        let ghost g = self@;
        let ghost rank = self.rank@;
        let mut path: Vec<NodeId> = Vec::new();
        path.push(from.to_owned());
        path.push(to.to_owned());
        let mut current = self.find_node(to).unwrap();
        proof {
            let q = str_views(path@).subrange(1, 2);
            assert(q =~= seq![to@]);
            assert(g.is_walk(true, q));
        }
        while !str_eq(self.nodes[current].as_str(), from)
            invariant
                self.well_formed(),
                g == self@,
                rank == self.rank@,
                current < g.nodes.len(),
                str_views(path@).len() >= 2,
                str_views(path@)[0] == from@,
                str_views(path@)[1] == to@,
                str_views(path@).last() == g.nodes[current as int],
                g.is_walk(true, str_views(path@).subrange(1, path@.len() as int)),
                g.reaches(true, g.nodes[current as int], from@),
            decreases rank(g.nodes[current as int]),
        {
            let ghost c = g.nodes[current as int];
            proof {
                let w = choose|w: Seq<Seq<char>>| #[trigger] g.is_walk(true, w) && w[0] == c && w.last() == from@;
                assert(w.len() >= 2);
                assert(g.reaches_plus(true, c, from@));
                g.lemma_reaches_plus_split(true, current as int, from@);
                self.lemma_rows(true, current as int);
            }
            let row = &self.dependencies[current];
            let mut q: usize = 0;
            let mut found = false;
            while q < row.len() && !found
                invariant
                    self.well_formed(),
                    g == self@,
                    current < g.nodes.len(),
                    g.adjacency(true)[current as int] == str_views(row@),
                    q <= row@.len(),
                    found ==> q < row@.len() && g.reaches(true, row@[q as int]@, from@),
                    !found ==> forall|k: int| 0 <= k < q ==> !g.reaches(true, #[trigger] str_views(row@)[k], from@),
                decreases row@.len() - q + (if found { 0int } else { 1int }),
            {
                if self.can_reach(row.get(q).as_str(), from) {
                    found = true;
                } else {
                    proof {
                        assert(str_views(row@)[q as int] == row@[q as int]@);
                    }
                    q = q + 1;
                }
            }
            proof {
                if !found {
                    let b = choose|b: Seq<char>| #[trigger] g.adjacency(true)[current as int].contains(b)
                        && g.reaches(true, b, from@);
                    let k = choose|k: int| 0 <= k < str_views(row@).len() && str_views(row@)[k] == b;
                    assert(false);
                }
                assert(str_views(row@)[q as int] == row@[q as int]@);
                assert(g.adjacency(true)[current as int].contains(row@[q as int]@));
            }
            let next = self.find_node(row.get(q).as_str()).unwrap();
            let ghost p0 = str_views(path@);
            path.push(row.get(q).clone());
            proof {
                let d = g.nodes[next as int];
                assert(str_views(path@) =~= p0.push(d));
                assert(g.step(true, c, d));
                assert(rank(c) > rank(d));
                let w0 = p0.subrange(1, p0.len() as int);
                g.lemma_walk_push(true, w0, d);
                assert(str_views(path@).subrange(1, path@.len() as int) =~= w0.push(d));
            }
            current = next;
        }
        path
    }

    /// Adds the edge `from -> to` ("`from` depends on `to`"), first adding
    /// either node that is missing. The edge is refused, and the graph keeps
    /// the added nodes, when `to` already depends on `from` directly or
    /// through other nodes (or when `from` and `to` are the same node); the
    /// error then holds the cycle the edge would close: `from`, `to`, and the
    /// dependencies leading from `to` back to `from`.
    pub fn add_dependency(&mut self, from: &str, to: &str) -> (r: Result<(), DependencyGraphError>)
        requires
            old(self).well_formed(),
            old(self)@.edge_total() < usize::MAX,
        ensures
            final(self).well_formed(),
            r is Err <==> old(self)@.with_node(from@).with_node(to@).reaches(true, to@, from@),
            r is Err ==> final(self)@ == old(self)@.with_node(from@).with_node(to@),
            r matches Err(e) ==> (e matches DependencyGraphError::CircularDependency(p) && closes_cycle(
                old(self)@.with_node(from@).with_node(to@),
                from@,
                to@,
                str_views(p@),
            )),
            r is Ok ==> final(self)@ == old(self)@.with_node(from@).with_node(to@).add_edge(from@, to@),
    {
        self.add_node(from);
        self.add_node(to);
        proof {
            old(self)@.lemma_with_node(from@, from@);
            old(self)@.with_node(from@).lemma_with_node(to@, from@);
        }
        if self.can_reach(to, from) {
            let p = self.find_cycle_path(from, to);
            return Err(DependencyGraphError::CircularDependency(p));
        }
        let ghost v1 = self@;
        let ghost before = *self;
        let i = self.find_node(from).unwrap();
        let j = self.find_node(to).unwrap();
        let ghost deps1 = self.dependencies@;
        let ghost dts1 = self.dependents@;
        let mut row_i = self.dependencies[i].duplicate();
        row_i.push(to.to_owned());
        self.dependencies.set(i, row_i);
        let mut row_j = self.dependents[j].duplicate();
        row_j.push(from.to_owned());
        self.dependents.set(j, row_j);
        proof {
            assert(str_views(self.dependencies@[i as int]@) =~= v1.dependencies[i as int].push(to@));
            assert(str_views(self.dependents@[j as int]@) =~= v1.dependents[j as int].push(from@));
        }
        remove_all(&mut self.roots, from);
        remove_all(&mut self.leaves, to);
        self.rank = Ghost(
            |x: Seq<char>|
                if v1.reaches(true, x, from@) {
                    (before.rank@)(x) + (before.rank@)(to@) + 1
                } else {
                    (before.rank@)(x)
                },
        );
        proof {
            assert(self@.nodes =~= v1.nodes);
            assert(self@.dependencies =~= v1.dependencies.update(i as int, v1.dependencies[i as int].push(to@)));
            assert(self@.dependents =~= v1.dependents.update(j as int, v1.dependents[j as int].push(from@)));
            self.lemma_add_edge_wf(before, i as int, j as int, from@, to@);
        }
        Ok(())
    }

    proof fn lemma_add_edge_wf(&self, before: DependencyGraph, i: int, j: int, from: Seq<char>, to: Seq<char>)
        requires
            before.well_formed(),
            before@.edge_total() < usize::MAX,
            0 <= i < before@.nodes.len(),
            0 <= j < before@.nodes.len(),
            before@.nodes[i] == from,
            before@.nodes[j] == to,
            !before@.reaches(true, to, from),
            self@.nodes == before@.nodes,
            self.dependencies@.len() == before.dependencies@.len(),
            self.dependents@.len() == before.dependents@.len(),
            self@.dependencies == before@.dependencies.update(i, before@.dependencies[i].push(to)),
            self@.dependents == before@.dependents.update(j, before@.dependents[j].push(from)),
            self@.roots == without(before@.roots, from),
            self@.leaves == without(before@.leaves, to),
            self.rank@ == (|x: Seq<char>|
                if before@.reaches(true, x, from) {
                    (before.rank@)(x) + (before.rank@)(to) + 1
                } else {
                    (before.rank@)(x)
                }),
        ensures
            self.well_formed(),
            self@ == before@.add_edge(from, to),
    {
        let v0 = before@;
        let v = self@;
        let n = v0.nodes.len();
        let r0 = before.rank@;
        let r = self.rank@;
        assert(v0.nodes.index_of(from) == i);
        assert(v0.nodes.index_of(to) == j);
        assert forall|k: int, b: Seq<char>|
            0 <= k < n && #[trigger] v.dependencies[k].contains(b) implies v.nodes.contains(b) && r(
            v.nodes[k],
        ) > r(b) by {
            let row0 = v0.dependencies[k];
            if row0.contains(b) {
                assert(v0.adjacency(true)[k].contains(b));
                assert(v0.step(true, v0.nodes[k], b));
                if v0.reaches(true, b, from) {
                    v0.lemma_reaches_prepend(true, v0.nodes[k], b, from);
                }
            } else {
                assert(k == i);
                let m = choose|m: int| 0 <= m < v.dependencies[k].len() && v.dependencies[k][m] == b;
                if m < row0.len() {
                    assert(row0[m] == b);
                }
                assert(b == to);
                v0.lemma_reaches_self(true, from);
                assert(v0.nodes.contains(to));
            }
        }
        assert forall|k: int, b: Seq<char>|
            0 <= k < n && #[trigger] v.dependents[k].contains(b) implies v.nodes.contains(b) by {
            let row0 = v0.dependents[k];
            if !row0.contains(b) {
                let m = choose|m: int| 0 <= m < v.dependents[k].len() && v.dependents[k][m] == b;
                if m < row0.len() {
                    assert(row0[m] == b);
                }
                assert(b == from);
                assert(v0.nodes.contains(from));
            }
        }
        assert forall|a: int, c: int|
            0 <= a < n && 0 <= c < n implies #[trigger] count_in(v.dependencies[a], v.nodes[c])
            == #[trigger] count_in(v.dependents[c], v.nodes[a]) by {
            assert(count_in(v0.dependencies[a], v0.nodes[c]) == count_in(v0.dependents[c], v0.nodes[a]));
            if a == i {
                lemma_count_push(v0.dependencies[i], to, v0.nodes[c]);
            }
            if c == j {
                lemma_count_push(v0.dependents[j], from, v0.nodes[a]);
            }
        }
        lemma_without_no_duplicates(v0.roots, from);
        lemma_without_no_duplicates(v0.leaves, to);
        assert forall|x: Seq<char>| #[trigger] v.roots.contains(x) implies v.nodes.contains(x) by {
            lemma_without_contains(v0.roots, from, x);
        }
        assert forall|x: Seq<char>| #[trigger] v.leaves.contains(x) implies v.nodes.contains(x) by {
            lemma_without_contains(v0.leaves, to, x);
        }
        assert forall|k: int| 0 <= k < n && #[trigger] v.roots.contains(v.nodes[k]) implies v.dependencies[k].len() == 0 by {
            lemma_without_contains(v0.roots, from, v.nodes[k]);
            assert(k != i);
        }
        assert forall|k: int| 0 <= k < n && #[trigger] v.leaves.contains(v.nodes[k]) implies v.dependents[k].len() == 0 by {
            lemma_without_contains(v0.leaves, to, v.nodes[k]);
            assert(k != j);
        }
        assert forall|k: int| #![trigger v.dependencies[k]] 0 <= k < n && v.dependencies[k].len() == 0 implies v.roots.contains(v.nodes[k]) by {
            assert(k != i);
            assert(v.dependencies[k] == v0.dependencies[k]);
            assert(v0.roots.contains(v0.nodes[k]));
            lemma_without_contains(v0.roots, from, v.nodes[k]);
        }
        assert forall|k: int| #![trigger v.dependents[k]] 0 <= k < n && v.dependents[k].len() == 0 implies v.leaves.contains(v.nodes[k]) by {
            assert(k != j);
            assert(v.dependents[k] == v0.dependents[k]);
            assert(v0.leaves.contains(v0.nodes[k]));
            lemma_without_contains(v0.leaves, to, v.nodes[k]);
        }
        lemma_total_len_update(v0.dependencies, i, v0.dependencies[i].push(to));
    }

    /// Whether `from` depends directly on `to`.
    pub fn has_edge(&self, from: &str, to: &str) -> (r: bool)
        requires
            self.well_formed(),
        ensures
            r == self@.edge(from@, to@),
    {
        let ghost g = self@;
        match self.find_node(from) {
            None => false,
            Some(i) => {
                let row = &self.dependencies[i];
                proof {
                    self.lemma_rows(true, i as int);
                }
                let mut q: usize = 0;
                while q < row.len()
                    invariant
                        self.well_formed(),
                        g == self@,
                        i < g.nodes.len(),
                        g.nodes[i as int] == from@,
                        g.adjacency(true)[i as int] == str_views(row@),
                        q <= row@.len(),
                        forall|k: int| 0 <= k < q ==> str_views(row@)[k] != to@,
                    decreases row@.len() - q,
                {
                    if str_eq(row.get(q).as_str(), to) {
                        proof {
                            assert(str_views(row@)[q as int] == to@);
                            assert(g.adjacency(true)[i as int].contains(to@));
                        }
                        return true;
                    }
                    q = q + 1;
                }
                proof {
                    if g.edge(from@, to@) {
                        let i2 = choose|i2: int|
                            0 <= i2 < g.nodes.len() && g.nodes[i2] == from@ && #[trigger] g.adjacency(true)[i2].contains(to@);
                        assert(i2 == i);
                    }
                }
                false
            },
        }
    }

    /// The stored neighbours of `node_id` in one direction.
    fn row_refs(&self, node_id: &str, forward: bool) -> (r: Vec<&NodeId>)
        requires
            self.well_formed(),
        ensures
            r@.len() == self@.row_of(forward, node_id@).len(),
            forall|k: int| 0 <= k < r@.len() ==> (#[trigger] r@[k])@ == self@.row_of(forward, node_id@)[k],
    {
        let ghost g = self@;
        let mut out: Vec<&NodeId> = Vec::new();
        match self.find_node(node_id) {
            None => {},
            Some(i) => {
                proof {
                    self.lemma_rows(forward, i as int);
                    assert(g.nodes.index_of(node_id@) == i);
                }
                let row = if forward {
                    &self.dependencies[i]
                } else {
                    &self.dependents[i]
                };
                let mut q: usize = 0;
                while q < row.len()
                    invariant
                        q <= row@.len(),
                        out@.len() == q,
                        forall|k: int| 0 <= k < q ==> (#[trigger] out@[k])@ == row@[k]@,
                    decreases row@.len() - q,
                {
                    out.push(&row.get(q));
                    q = q + 1;
                }
            },
        }
        out
    }

    /// The nodes that `node_id` depends on directly, one entry per edge.
    pub fn get_dependencies(&self, node_id: &str) -> (r: Vec<&NodeId>)
        requires
            self.well_formed(),
        ensures
            r@.len() == self@.row_of(true, node_id@).len(),
            forall|k: int| 0 <= k < r@.len() ==> (#[trigger] r@[k])@ == self@.row_of(true, node_id@)[k],
    {
        self.row_refs(node_id, true)
    }

    /// The nodes that depend directly on `node_id`, one entry per edge.
    pub fn get_dependents(&self, node_id: &str) -> (r: Vec<&NodeId>)
        requires
            self.well_formed(),
        ensures
            r@.len() == self@.row_of(false, node_id@).len(),
            forall|k: int| 0 <= k < r@.len() ==> (#[trigger] r@[k])@ == self@.row_of(false, node_id@)[k],
    {
        self.row_refs(node_id, false)
    }

    /// Nodes with no dependencies, each once.
    pub fn roots(&self) -> (r: &Vec<NodeId>)
        requires
            self.well_formed(),
        ensures
            str_views(r@) == self@.roots,
            str_views(r@).no_duplicates(),
            forall|x: Seq<char>| #[trigger] str_views(r@).contains(x) <==> self@.nodes.contains(x)
                && self@.row_of(true, x).len() == 0,
    {
        proof {
            self.lemma_roots_and_leaves_rows();
        }
        &self.roots
    }

    /// Nodes with no dependents, each once.
    pub fn leaves(&self) -> (r: &Vec<NodeId>)
        requires
            self.well_formed(),
        ensures
            str_views(r@) == self@.leaves,
            str_views(r@).no_duplicates(),
            forall|x: Seq<char>| #[trigger] str_views(r@).contains(x) <==> self@.nodes.contains(x)
                && self@.row_of(false, x).len() == 0,
    {
        proof {
            self.lemma_roots_and_leaves_rows();
        }
        &self.leaves
    }

    proof fn lemma_roots_and_leaves_rows(&self)
        requires
            self.well_formed(),
        ensures
            forall|x: Seq<char>| #[trigger] self@.roots.contains(x) <==> self@.nodes.contains(x)
                && self@.row_of(true, x).len() == 0,
            forall|x: Seq<char>| #[trigger] self@.leaves.contains(x) <==> self@.nodes.contains(x)
                && self@.row_of(false, x).len() == 0,
    {
        let g = self@;
        assert forall|x: Seq<char>| #[trigger] g.roots.contains(x) <==> g.nodes.contains(x)
            && g.row_of(true, x).len() == 0 by {
            if g.nodes.contains(x) {
                let k = g.nodes.index_of(x);
                assert(g.nodes[k] == x);
                assert(g.dependencies[k] == g.row_of(true, x));
            }
        }
        assert forall|x: Seq<char>| #[trigger] g.leaves.contains(x) <==> g.nodes.contains(x)
            && g.row_of(false, x).len() == 0 by {
            if g.nodes.contains(x) {
                let k = g.nodes.index_of(x);
                assert(g.nodes[k] == x);
                assert(g.dependents[k] == g.row_of(false, x));
            }
        }
    }

    /// All nodes, in the order they were added.
    pub fn nodes(&self) -> (r: &Vec<NodeId>)
        requires
            self.well_formed(),
        ensures
            str_views(r@) == self@.nodes,
    {
        &self.nodes
    }

    /// Number of edges.
    pub fn edge_count(&self) -> (r: usize)
        requires
            self.well_formed(),
        ensures
            r == self@.edge_total(),
    {
        let ghost lens = self@.dependencies;
        let mut total: usize = 0;
        let mut k: usize = 0;
        while k < self.dependencies.len()
            invariant
                self.well_formed(),
                lens == self@.dependencies,
                k <= self.dependencies@.len(),
                total == total_len(lens.take(k as int)),
            decreases self.dependencies@.len() - k,
        {
            proof {
                lemma_total_len_take(lens, k as int);
                self.lemma_rows(true, k as int);
            }
            total = total + self.dependencies[k].len();
            k = k + 1;
        }
        proof {
            assert(lens.take(k as int) =~= lens);
        }
        total
    }

    /// Removes every node and edge.
    pub fn clear(&mut self)
        ensures
            final(self).well_formed(),
            final(self)@.nodes.len() == 0,
            final(self)@.roots.len() == 0,
            final(self)@.leaves.len() == 0,
            final(self)@.edge_total() == 0,
    {
        self.nodes.clear();
        self.dependencies.clear();
        self.dependents.clear();
        self.roots.clear();
        self.leaves.clear();
        proof {
            assert(self@.dependencies =~= Seq::<Seq<Seq<char>>>::empty());
        }
    }

    /// Removes `node_id` and every edge at it. Returns the nodes it depended
    /// on, then the nodes that depended on it (one entry per edge); nothing
    /// when it is not a node.
    pub fn remove_node(&mut self, node_id: &str) -> (r: Vec<NodeId>)
        requires
            old(self).well_formed(),
        ensures
            final(self).well_formed(),
            final(self)@ == old(self)@.without_node(node_id@),
            str_views(r@) == old(self)@.row_of(true, node_id@) + old(self)@.row_of(false, node_id@),
    {
        let ghost g = self@;
        match self.find_node(node_id) {
            None => {
                proof {
                    assert(str_views(Seq::<String>::empty()) =~= Seq::<Seq<char>>::empty());
                    assert(g.row_of(true, node_id@) + g.row_of(false, node_id@) =~= Seq::<Seq<char>>::empty());
                }
                Vec::new()
            },
            Some(i) => {
                let ghost before = *self;
                proof {
                    assert(g.nodes.index_of(node_id@) == i);
                    self.lemma_rows(true, i as int);
                    self.lemma_rows(false, i as int);
                }
                let mut removed = self.dependencies.remove(i).into_vec();
                let mut incoming = self.dependents.remove(i).into_vec();
                self.nodes.remove(i);
                remove_all_rows(&mut self.dependencies, node_id);
                remove_all_rows(&mut self.dependents, node_id);
                remove_all(&mut self.roots, node_id);
                remove_all(&mut self.leaves, node_id);
                proof {
                    assert(str_views(self.nodes@) =~= g.nodes.remove(i as int));
                    lemma_remove_no_duplicates(g.nodes, i as int);
                }
                promote_bare(&mut self.roots, &self.nodes, &self.dependencies, &incoming);
                promote_bare(&mut self.leaves, &self.nodes, &self.dependents, &removed);
                let ghost removed0 = removed@;
                let ghost incoming0 = incoming@;
                removed.append(&mut incoming);
                proof {
                    assert(str_views(removed@) =~= str_views(removed0) + str_views(incoming0));
                    assert(self@.nodes =~= g.nodes.remove(i as int));
                    assert(self@.dependencies =~= g.dependencies.remove(i as int).map_values(
                        |l: Seq<Seq<char>>| without(l, node_id@),
                    ));
                    assert(self@.dependents =~= g.dependents.remove(i as int).map_values(
                        |l: Seq<Seq<char>>| without(l, node_id@),
                    ));
                    self.lemma_remove_node_wf(before, i as int, node_id@);
                }
                removed
            },
        }
    }

    proof fn lemma_remove_node_wf(&self, before: DependencyGraph, i: int, id: Seq<char>)
        requires
            before.well_formed(),
            0 <= i < before@.nodes.len(),
            before@.nodes[i] == id,
            self.dependencies@.len() == before.dependencies@.len() - 1,
            self.dependents@.len() == before.dependents@.len() - 1,
            self@ == before@.without_node(id),
            self.rank == before.rank,
        ensures
            self.well_formed(),
    {
        let v0 = before@;
        let v = self@;
        let n = v0.nodes.len();
        let r = self.rank@;
        assert(v0.nodes.contains(id));
        assert(v0.nodes.index_of(id) == i);
        v0.nodes.remove_ensures(i);
        v0.dependencies.remove_ensures(i);
        v0.dependents.remove_ensures(i);
        assert(v.nodes.no_duplicates()) by {
            assert forall|a: int, b: int| 0 <= a < n - 1 && 0 <= b < n - 1 && a != b implies v.nodes[a]
                != v.nodes[b] by {
                let a2 = if a < i { a } else { a + 1 };
                let b2 = if b < i { b } else { b + 1 };
                assert(v.nodes[a] == v0.nodes[a2]);
                assert(v.nodes[b] == v0.nodes[b2]);
            }
        }
        assert forall|x: Seq<char>| v0.nodes.contains(x) && x != id implies v.nodes.contains(x) by {
            let m = choose|m: int| 0 <= m < n && v0.nodes[m] == x;
            if m < i {
                assert(v.nodes[m] == x);
            } else {
                assert(m != i);
                assert(v.nodes[m - 1] == x);
            }
        }
        assert forall|k: int, b: Seq<char>|
            0 <= k < n - 1 && #[trigger] v.dependencies[k].contains(b) implies v.nodes.contains(b) && r(
            v.nodes[k],
        ) > r(b) by {
            let k2 = if k < i { k } else { k + 1 };
            assert(v.dependencies[k] == without(v0.dependencies[k2], id));
            lemma_without_contains(v0.dependencies[k2], id, b);
            assert(v.nodes[k] == v0.nodes[k2]);
        }
        assert forall|k: int, b: Seq<char>|
            0 <= k < n - 1 && #[trigger] v.dependents[k].contains(b) implies v.nodes.contains(b) by {
            let k2 = if k < i { k } else { k + 1 };
            assert(v.dependents[k] == without(v0.dependents[k2], id));
            lemma_without_contains(v0.dependents[k2], id, b);
        }
        assert forall|a: int, c: int|
            0 <= a < n - 1 && 0 <= c < n - 1 implies #[trigger] count_in(v.dependencies[a], v.nodes[c])
            == #[trigger] count_in(v.dependents[c], v.nodes[a]) by {
            let a2 = if a < i { a } else { a + 1 };
            let c2 = if c < i { c } else { c + 1 };
            assert(v.nodes[a] == v0.nodes[a2]);
            assert(v.nodes[c] == v0.nodes[c2]);
            assert(v.dependencies[a] == without(v0.dependencies[a2], id));
            assert(v.dependents[c] == without(v0.dependents[c2], id));
            lemma_count_without(v0.dependencies[a2], id, v0.nodes[c2]);
            lemma_count_without(v0.dependents[c2], id, v0.nodes[a2]);
            assert(count_in(v0.dependencies[a2], v0.nodes[c2]) == count_in(v0.dependents[c2], v0.nodes[a2]));
        }
        let ns = v.nodes;
        let ra = without(v0.roots, id);
        let la = without(v0.leaves, id);
        lemma_without_no_duplicates(v0.roots, id);
        lemma_without_no_duplicates(v0.leaves, id);
        assert forall|x: Seq<char>| #[trigger] v.roots.contains(x) implies v.nodes.contains(x) by {
            lemma_promote(ns, v.dependencies, ra, v0.dependents[i], x);
            lemma_without_contains(v0.roots, id, x);
        }
        assert forall|x: Seq<char>| #[trigger] v.leaves.contains(x) implies v.nodes.contains(x) by {
            lemma_promote(ns, v.dependents, la, v0.dependencies[i], x);
            lemma_without_contains(v0.leaves, id, x);
        }
        lemma_promote(ns, v.dependencies, ra, v0.dependents[i], id);
        lemma_promote(ns, v.dependents, la, v0.dependencies[i], id);
        assert forall|k: int| 0 <= k < n - 1 && #[trigger] v.roots.contains(v.nodes[k]) implies v.dependencies[k].len() == 0 by {
            let k2 = if k < i { k } else { k + 1 };
            assert(v.nodes[k] == v0.nodes[k2]);
            lemma_promote(ns, v.dependencies, ra, v0.dependents[i], v.nodes[k]);
            lemma_without_contains(v0.roots, id, v.nodes[k]);
            assert(v.dependencies[k] == without(v0.dependencies[k2], id));
            lemma_without_len(v0.dependencies[k2], id);
            assert(ns.index_of(v.nodes[k]) == k);
        }
        assert forall|k: int| 0 <= k < n - 1 && #[trigger] v.leaves.contains(v.nodes[k]) implies v.dependents[k].len() == 0 by {
            let k2 = if k < i { k } else { k + 1 };
            assert(v.nodes[k] == v0.nodes[k2]);
            lemma_promote(ns, v.dependents, la, v0.dependencies[i], v.nodes[k]);
            lemma_without_contains(v0.leaves, id, v.nodes[k]);
            assert(v.dependents[k] == without(v0.dependents[k2], id));
            lemma_without_len(v0.dependents[k2], id);
            assert(ns.index_of(v.nodes[k]) == k);
        }
        assert forall|k: int| #![trigger v.dependencies[k]] 0 <= k < n - 1 && v.dependencies[k].len() == 0 implies v.roots.contains(v.nodes[k]) by {
            let k2 = if k < i { k } else { k + 1 };
            assert(v.nodes[k] == v0.nodes[k2]);
            assert(k2 != i);
            assert(v.dependencies[k] == without(v0.dependencies[k2], id));
            lemma_promote(ns, v.dependencies, ra, v0.dependents[i], v.nodes[k]);
            assert(ns.index_of(v.nodes[k]) == k);
            if v0.dependencies[k2].len() == 0 {
                assert(v0.roots.contains(v0.nodes[k2]));
                lemma_without_contains(v0.roots, id, v.nodes[k]);
            } else {
                lemma_without_contains(v0.dependencies[k2], id, v0.dependencies[k2][0]);
                assert(v0.dependencies[k2].contains(v0.dependencies[k2][0]));
                assert(v0.dependencies[k2].contains(id));
                lemma_count_contains(v0.dependencies[k2], v0.nodes[i]);
                assert(count_in(v0.dependencies[k2], v0.nodes[i]) == count_in(v0.dependents[i], v0.nodes[k2]));
                lemma_count_contains(v0.dependents[i], v0.nodes[k2]);
            }
        }
        assert forall|k: int| #![trigger v.dependents[k]] 0 <= k < n - 1 && v.dependents[k].len() == 0 implies v.leaves.contains(v.nodes[k]) by {
            let k2 = if k < i { k } else { k + 1 };
            assert(v.nodes[k] == v0.nodes[k2]);
            assert(k2 != i);
            assert(v.dependents[k] == without(v0.dependents[k2], id));
            lemma_promote(ns, v.dependents, la, v0.dependencies[i], v.nodes[k]);
            assert(ns.index_of(v.nodes[k]) == k);
            if v0.dependents[k2].len() == 0 {
                assert(v0.leaves.contains(v0.nodes[k2]));
                lemma_without_contains(v0.leaves, id, v.nodes[k]);
            } else {
                lemma_without_contains(v0.dependents[k2], id, v0.dependents[k2][0]);
                assert(v0.dependents[k2].contains(v0.dependents[k2][0]));
                assert(v0.dependents[k2].contains(id));
                lemma_count_contains(v0.dependents[k2], v0.nodes[i]);
                assert(count_in(v0.dependencies[i], v0.nodes[k2]) == count_in(v0.dependents[k2], v0.nodes[i]));
                lemma_count_contains(v0.dependencies[i], v0.nodes[k2]);
            }
        }
        assert(v.edge_total() <= v0.edge_total()) by {
            lemma_total_len_remove(v0.dependencies, i);
            assert forall|k: int| 0 <= k < n - 1 implies (#[trigger] v.dependencies[k]).len()
                <= v0.dependencies.remove(i)[k].len() by {
                lemma_without_len(v0.dependencies.remove(i)[k], id);
            }
            lemma_total_len_le(v.dependencies, v0.dependencies.remove(i));
        }
    }

    /// Orders all nodes so that every node comes after the nodes it depends
    /// on, which is the order in which they can be rebuilt.
    pub fn topological_sort(&self) -> (r: Result<Vec<NodeId>, DependencyGraphError>)
        requires
            self.well_formed(),
        ensures
            r matches Ok(order) && is_topological_order(self@, str_views(order@)),
    {
        let ghost g = self@;
        let ghost rank = self.rank@;
        let n = self.nodes.len();
        let mut in_degree: Vec<usize> = Vec::new();
        let mut k: usize = 0;
        while k < n
            invariant
                self.well_formed(),
                g == self@,
                n == g.nodes.len(),
                k <= n,
                in_degree.len() == k,
                forall|m: int| 0 <= m < k ==> in_degree[m] == unmet(g.dependencies[m], Seq::empty()),
            decreases n - k,
        {
            proof {
                self.lemma_rows(true, k as int);
                lemma_unmet_none_done(g.dependencies[k as int]);
            }
            in_degree.push(self.dependencies[k].len());
            k = k + 1;
        }
        let mut stack: Vec<usize> = Vec::new();
        k = 0;
        while k < n
            invariant
                n == g.nodes.len(),
                k <= n,
                in_degree.len() == n,
                stack@.no_duplicates(),
                forall|q: int| 0 <= q < stack.len() ==> stack[q] < k && in_degree[#[trigger] stack[q] as int] == 0,
                forall|m: int| 0 <= m < k && in_degree[m] == 0 ==> stack@.contains(m as usize),
            decreases n - k,
        {
            if in_degree[k] == 0 {
                proof {
                    if stack@.contains(k) {
                        let q = choose|q: int| 0 <= q < stack.len() && stack[q] == k;
                    }
                    lemma_push_no_duplicates(stack@, k);
                }
                let ghost stack0 = stack@;
                stack.push(k);
                proof {
                    assert forall|m: int| 0 <= m < k + 1 && in_degree[m] == 0 implies stack@.contains(m as usize) by {
                        if m < k {
                            let q = choose|q: int| 0 <= q < stack0.len() && stack0[q] == m as usize;
                            assert(stack@[q] == m as usize);
                        } else {
                            assert(stack@[stack0.len() as int] == k);
                        }
                    }
                }
            }
            k = k + 1;
        }
        let mut result: Vec<NodeId> = Vec::new();
        let ghost mut idx: Seq<usize> = Seq::empty();
        let ghost mut done: Seq<bool> = Seq::new(n as nat, |m: int| false);
        proof {
            assert(str_views(result@) =~= Seq::<Seq<char>>::empty());
        }
        while stack.len() > 0
            invariant
                self.well_formed(),
                g == self@,
                rank == self.rank@,
                n == g.nodes.len(),
                in_degree.len() == n,
                done.len() == n,
                result@.len() == idx.len(),
                idx.no_duplicates(),
                forall|p: int| 0 <= p < idx.len() ==> idx[p] < n && done[#[trigger] idx[p] as int],
                forall|m: int| 0 <= m < n && done[m] ==> idx.contains(m as usize),
                forall|p: int| 0 <= p < idx.len() ==> str_views(result@)[p] == g.nodes[#[trigger] idx[p] as int],
                forall|p: int, b: Seq<char>|
                    0 <= p < idx.len() && #[trigger] g.dependencies[idx[p] as int].contains(b) ==> exists|q: int|
                        0 <= q < p && str_views(result@)[q] == b,
                forall|m: int| 0 <= m < n ==> in_degree[m] == unmet(g.dependencies[m], str_views(result@)),
                forall|m: int| 0 <= m < n && done[m] ==> in_degree[m] == 0,
                stack@.no_duplicates(),
                forall|q: int| 0 <= q < stack.len() ==> stack[q] < n && !done[#[trigger] stack[q] as int]
                    && in_degree[stack[q] as int] == 0,
                forall|m: int| 0 <= m < n && !done[m] && in_degree[m] == 0 ==> stack@.contains(m as usize),
            decreases count_in(done, false),
        {
            let ghost stack_before = stack@;
            let ghost res0 = str_views(result@);
            let c = stack.pop().unwrap();
            proof {
                assert(stack@.push(c) =~= stack_before);
                self.lemma_processed_fresh(res0, idx, done, c as int);
            }
            result.push(self.nodes[c].clone());
            proof {
                assert(str_views(result@) =~= res0.push(g.nodes[c as int]));
                lemma_count_update(done, c as int, true, false);
                lemma_push_no_duplicates(idx, c);
                assert forall|b: Seq<char>| #[trigger] g.dependencies[c as int].contains(b) implies res0.contains(b) by {
                    lemma_unmet_zero(g.dependencies[c as int], res0, b);
                }
                let idx0 = idx;
                let done0 = done;
                idx = idx.push(c);
                done = done.update(c as int, true);
                assert forall|m: int| 0 <= m < n && done[m] implies idx.contains(m as usize) by {
                    if m == c {
                        assert(idx[idx0.len() as int] == c);
                    } else {
                        assert(done0[m]);
                        let p = choose|p: int| 0 <= p < idx0.len() && idx0[p] == m as usize;
                        assert(idx[p] == m as usize);
                    }
                }
                assert forall|p: int| 0 <= p < idx.len() implies idx[p] < n && done[#[trigger] idx[p] as int] by {
                    if p < idx0.len() {
                        assert(idx[p] == idx0[p]);
                    }
                }
                assert forall|p: int| 0 <= p < idx.len() implies str_views(result@)[p] == g.nodes[#[trigger] idx[p] as int] by {
                    if p < idx0.len() {
                        assert(idx[p] == idx0[p]);
                        assert(str_views(result@)[p] == res0[p]);
                    }
                }
                assert forall|p: int, b: Seq<char>|
                    0 <= p < idx.len() && #[trigger] g.dependencies[idx[p] as int].contains(b) implies exists|q: int|
                        0 <= q < p && str_views(result@)[q] == b by {
                    if p < idx0.len() {
                        assert(idx[p] == idx0[p]);
                        let q = choose|q: int| 0 <= q < p && res0[q] == b;
                        assert(str_views(result@)[q] == b);
                    } else {
                        assert(res0.contains(b));
                        let q = choose|q: int| 0 <= q < res0.len() && res0[q] == b;
                        assert(str_views(result@)[q] == b);
                    }
                }
            }
            let row = &self.dependents[c];
            proof {
                self.lemma_rows(false, c as int);
            }
            let ghost idx1 = idx;
            let ghost done1 = done;
            let mut q: usize = 0;
            while q < row.len()
                invariant
                    self.well_formed(),
                    g == self@,
                    rank == self.rank@,
                    n == g.nodes.len(),
                    in_degree.len() == n,
                    idx == idx1,
                    done == done1,
                    done.len() == n,
                    c < n,
                    done[c as int],
                    g.adjacency(false)[c as int] == str_views(row@),
                    q <= row@.len(),
                    !res0.contains(g.nodes[c as int]),
                    str_views(result@) == res0.push(g.nodes[c as int]),
                    result@.len() == idx.len(),
                    idx.no_duplicates(),
                    forall|p: int| 0 <= p < idx.len() ==> idx[p] < n && done[#[trigger] idx[p] as int],
                    forall|m: int| 0 <= m < n && done[m] ==> idx.contains(m as usize),
                    forall|p: int| 0 <= p < idx.len() ==> str_views(result@)[p] == g.nodes[#[trigger] idx[p] as int],
                    forall|p: int, b: Seq<char>|
                        0 <= p < idx.len() && #[trigger] g.dependencies[idx[p] as int].contains(b) ==> exists|q: int|
                            0 <= q < p && str_views(result@)[q] == b,
                    forall|m: int| 0 <= m < n ==> in_degree[m] + count_in(str_views(row@).take(q as int), g.nodes[m])
                        == unmet(g.dependencies[m], res0),
                    forall|m: int| 0 <= m < n && done[m] ==> in_degree[m] == 0,
                    stack@.no_duplicates(),
                    forall|s: int| 0 <= s < stack.len() ==> stack[s] < n && !done[#[trigger] stack[s] as int]
                        && in_degree[stack[s] as int] == 0,
                    forall|m: int| 0 <= m < n && !done[m] && in_degree[m] == 0 ==> stack@.contains(m as usize),
                decreases row@.len() - q,
            {
                let ghost rv = str_views(row@);
                proof {
                    assert(rv[q as int] == row@[q as int]@);
                    assert(g.dependents[c as int].contains(row@[q as int]@));
                }
                let j = self.find_node(row.get(q).as_str()).unwrap();
                proof {
                    assert(rv.take(q + 1) =~= rv.take(q as int).push(rv[q as int]));
                    assert forall|m: int| 0 <= m < n implies count_in(rv.take(q + 1), g.nodes[m]) == count_in(
                        rv.take(q as int),
                        g.nodes[m],
                    ) + if m == j {
                        1nat
                    } else {
                        0nat
                    } by {
                        lemma_count_push(rv.take(q as int), rv[q as int], g.nodes[m]);
                    }
                    lemma_count_prefix(rv, q + 1, g.nodes[j as int]);
                    assert(count_in(g.dependencies[j as int], g.nodes[c as int]) == count_in(
                        g.dependents[c as int],
                        g.nodes[j as int],
                    ));
                    lemma_unmet_push(g.dependencies[j as int], res0, g.nodes[c as int]);
                    assert(in_degree[j as int] >= 1);
                }
                let d = in_degree[j].saturating_sub(1);
                in_degree.set(j, d);
                if d == 0 {
                    proof {
                        if stack@.contains(j) {
                            let s = choose|s: int| 0 <= s < stack.len() && stack[s] == j;
                        }
                        lemma_push_no_duplicates(stack@, j);
                    }
                    let ghost stack0 = stack@;
                    stack.push(j);
                    proof {
                        assert forall|m: int| 0 <= m < n && !done[m] && in_degree[m] == 0 implies stack@.contains(m as usize) by {
                            if m != j {
                                let s = choose|s: int| 0 <= s < stack0.len() && stack0[s] == m as usize;
                                assert(stack@[s] == m as usize);
                            } else {
                                assert(stack@[stack0.len() as int] == j);
                            }
                        }
                    }
                }
                q = q + 1;
            }
            proof {
                let rv = str_views(row@);
                assert(rv.take(rv.len() as int) =~= rv);
                assert forall|m: int| 0 <= m < n implies in_degree[m] == unmet(g.dependencies[m], str_views(result@)) by {
                    assert(count_in(g.dependencies[m], g.nodes[c as int]) == count_in(
                        g.dependents[c as int],
                        g.nodes[m],
                    ));
                    lemma_unmet_push(g.dependencies[m], res0, g.nodes[c as int]);
                }
            }
        }
        proof {
            self.lemma_topo_complete(idx, done, in_degree@, str_views(result@));
        }
        if result.len() != n {
            return Err(DependencyGraphError::CircularDependency(Vec::new()));
        }
        proof {
            let o = str_views(result@);
            assert(o.no_duplicates()) by {
                assert forall|a: int, b: int| 0 <= a < o.len() && 0 <= b < o.len() && a != b implies o[a] != o[b] by {
                    assert(o[a] == g.nodes[idx[a] as int]);
                    assert(o[b] == g.nodes[idx[b] as int]);
                    assert(idx[a] != idx[b]);
                }
            }
            assert forall|x: Seq<char>| o.contains(x) <==> g.nodes.contains(x) by {
                if o.contains(x) {
                    let p = choose|p: int| 0 <= p < o.len() && o[p] == x;
                    assert(o[p] == g.nodes[idx[p] as int]);
                }
                if g.nodes.contains(x) {
                    let m = choose|m: int| 0 <= m < g.nodes.len() && g.nodes[m] == x;
                    assert(done[m]);
                    let p = choose|p: int| 0 <= p < idx.len() && idx[p] == m as usize;
                    assert(o[p] == g.nodes[idx[p] as int]);
                }
            }
            assert forall|k: int, b: Seq<char>| 0 <= k < o.len() && #[trigger] g.edge(o[k], b) implies exists|p: int|
                0 <= p < k && o[p] == b by {
                let i2 = choose|i2: int|
                    0 <= i2 < g.nodes.len() && g.nodes[i2] == o[k] && #[trigger] g.adjacency(true)[i2].contains(b);
                assert(o[k] == g.nodes[idx[k] as int]);
                assert(i2 == idx[k] as int);
                assert(g.dependencies[idx[k] as int].contains(b));
            }
        }
        Ok(result)
    }

    proof fn lemma_processed_fresh(&self, res: Seq<Seq<char>>, idx: Seq<usize>, done: Seq<bool>, c: int)
        requires
            self.well_formed(),
            done.len() == self@.nodes.len(),
            0 <= c < self@.nodes.len(),
            !done[c],
            res.len() == idx.len(),
            forall|p: int| 0 <= p < idx.len() ==> idx[p] < self@.nodes.len() && done[#[trigger] idx[p] as int],
            forall|p: int| 0 <= p < idx.len() ==> res[p] == self@.nodes[#[trigger] idx[p] as int],
        ensures
            !res.contains(self@.nodes[c]),
    {
        if res.contains(self@.nodes[c]) {
            let p = choose|p: int| 0 <= p < res.len() && res[p] == self@.nodes[c];
            assert(self@.nodes[idx[p] as int] == self@.nodes[c]);
        }
    }

    /// When no unprocessed node is free of unprocessed dependencies, every
    /// node has been processed: otherwise one of least rank would be free.
    proof fn lemma_topo_complete(&self, idx: Seq<usize>, done: Seq<bool>, in_degree: Seq<usize>, res: Seq<Seq<char>>)
        requires
            self.well_formed(),
            self@.nodes.len() <= usize::MAX,
            done.len() == self@.nodes.len(),
            in_degree.len() == self@.nodes.len(),
            res.len() == idx.len(),
            idx.no_duplicates(),
            forall|p: int| 0 <= p < idx.len() ==> idx[p] < self@.nodes.len() && done[#[trigger] idx[p] as int],
            forall|m: int| 0 <= m < self@.nodes.len() && done[m] ==> idx.contains(m as usize),
            forall|p: int| 0 <= p < idx.len() ==> res[p] == self@.nodes[#[trigger] idx[p] as int],
            forall|m: int| 0 <= m < self@.nodes.len() ==> in_degree[m] == unmet(self@.dependencies[m], res),
            forall|m: int| 0 <= m < self@.nodes.len() && !done[m] ==> in_degree[m] != 0,
        ensures
            idx.len() == self@.nodes.len(),
            forall|m: int| 0 <= m < self@.nodes.len() ==> done[m],
    {
        let g = self@;
        let n = g.nodes.len() as int;
        let rank = self.rank@;
        if exists|m: int| 0 <= m < n && !done[m] {
            let m0 = choose|m: int| 0 <= m < n && !done[m];
            let pred = |m: int| !done[m];
            let rk = |m: int| rank(g.nodes[m]);
            lemma_min_rank(n, pred, rk, m0);
            let ms = choose|ms: int|
                0 <= ms < n && #[trigger] pred(ms) && forall|k: int| 0 <= k < n && pred(k) ==> rk(ms) <= #[trigger] rk(k);
            lemma_unmet_witness(g.dependencies[ms], res);
            let b = choose|b: Seq<char>| g.dependencies[ms].contains(b) && !res.contains(b);
            let kb = choose|kb: int| 0 <= kb < n && g.nodes[kb] == b;
            if done[kb] {
                let p = choose|p: int| 0 <= p < idx.len() && idx[p] == kb as usize;
                assert(res[p] == b);
            }
            assert(rk(kb) < rk(ms));
            assert(false);
        }
        let s = idx.map_values(|u: usize| u as int);
        assert(s.no_duplicates()) by {
            assert forall|a: int, b: int| 0 <= a < s.len() && 0 <= b < s.len() && a != b implies s[a] != s[b] by {
                assert(idx[a] != idx[b]);
            }
        }
        s.unique_seq_to_set();
        vstd::set_lib::lemma_int_range(0, n);
        assert(s.to_set() =~= vstd::set_lib::set_int_range(0, n)) by {
            assert forall|m: int| s.to_set().contains(m) <==> vstd::set_lib::set_int_range(0, n).contains(m) by {
                if 0 <= m < n {
                    assert(done[m]);
                    let p = choose|p: int| 0 <= p < idx.len() && idx[p] == m as usize;
                    assert(s[p] == m);
                }
                if s.to_set().contains(m) {
                    let p = choose|p: int| 0 <= p < s.len() && s[p] == m;
                    assert(idx[p] < n);
                }
            }
        }
    }

    /// The graph in Graphviz DOT form, one `"from" -> "to";` line per edge.
    pub fn to_dot(&self) -> (r: String)
        requires
            self.well_formed(),
        ensures
            r@ == dot_text(self@),
    {
        let ghost g = self@;
        let mut dot = "digraph DependencyGraph {\n".to_owned();
        let mut i: usize = 0;
        while i < self.nodes.len()
            invariant
                self.well_formed(),
                g == self@,
                i <= g.nodes.len(),
                dot@ == "digraph DependencyGraph {\n"@ + dot_body(
                    g.nodes.take(i as int),
                    g.dependencies.take(i as int),
                ),
            decreases g.nodes.len() - i,
        {
            let row = &self.dependencies[i];
            proof {
                self.lemma_rows(true, i as int);
            }
            let ghost before = dot@;
            let mut q: usize = 0;
            while q < row.len()
                invariant
                    self.well_formed(),
                    g == self@,
                    i < g.nodes.len(),
                    g.dependencies[i as int] == str_views(row@),
                    q <= row@.len(),
                    dot@ == before + dot_row(g.nodes[i as int], str_views(row@).take(q as int)),
                decreases row@.len() - q,
            {
                proof {
                    assert(str_views(row@).take(q + 1).drop_last() =~= str_views(row@).take(q as int));
                }
                dot.append("  \"");
                dot.append(self.nodes[i].as_str());
                dot.append("\" -> \"");
                dot.append(row.get(q).as_str());
                dot.append("\";\n");
                q = q + 1;
            }
            proof {
                assert(str_views(row@).take(row@.len() as int) =~= str_views(row@));
                assert(g.nodes.take(i + 1).drop_last() =~= g.nodes.take(i as int));
                assert(g.dependencies.take(i + 1).take(i as int) =~= g.dependencies.take(i as int));
            }
            i = i + 1;
        }
        dot.append("}");
        proof {
            assert(g.nodes.take(g.nodes.len() as int) =~= g.nodes);
            assert(g.dependencies.take(g.nodes.len() as int) =~= g.dependencies);
        }
        dot
    }

    /// Once a node is removed, it is no node of the graph and no edge
    /// starts or ends at it.
    pub proof fn lemma_removed_node_is_gone(&self, id: Seq<char>, x: Seq<char>)
        requires
            self.well_formed(),
        ensures
            !self@.without_node(id).nodes.contains(id),
            !self@.without_node(id).edge(x, id),
            !self@.without_node(id).edge(id, x),
    {
        let g = self@;
        let h = g.without_node(id);
        if g.nodes.contains(id) {
            let i = g.nodes.index_of(id);
            g.nodes.remove_ensures(i);
            g.dependencies.remove_ensures(i);
            if h.nodes.contains(id) {
                let k = choose|k: int| 0 <= k < h.nodes.len() && h.nodes[k] == id;
                let k2 = if k < i { k } else { k + 1 };
                assert(g.nodes[k2] == id);
            }
            if h.edge(x, id) {
                let k = choose|k: int|
                    0 <= k < h.nodes.len() && h.nodes[k] == x && #[trigger] h.adjacency(true)[k].contains(id);
                let k2 = if k < i { k } else { k + 1 };
                assert(h.dependencies[k] == without(g.dependencies[k2], id));
                lemma_without_contains(g.dependencies[k2], id, id);
            }
        } else {
            if g.edge(x, id) {
                let k = choose|k: int|
                    0 <= k < g.nodes.len() && g.nodes[k] == x && #[trigger] g.adjacency(true)[k].contains(id);
                assert(g.nodes.contains(id));
            }
        }
    }
    /// An added edge is present: `from` then depends directly on `to`.
    pub proof fn lemma_added_edge_present(&self, from: Seq<char>, to: Seq<char>)
        requires
            self.well_formed(),
            self@.nodes.contains(from),
            self@.nodes.contains(to),
        ensures
            self@.add_edge(from, to).edge(from, to),
            self@.add_edge(from, to).reaches_plus(false, to, from),
    {
        let g = self@;
        let h = g.add_edge(from, to);
        let i = g.index_of(from);
        let j = g.index_of(to);
        assert(h.dependencies[i] == g.dependencies[i].push(to));
        assert(h.dependencies[i][g.dependencies[i].len() as int] == to);
        assert(h.adjacency(true)[i].contains(to));
        assert(h.dependents[j][g.dependents[j].len() as int] == from);
        assert(h.adjacency(false)[j].contains(from));
        let p = seq![to, from];
        assert(h.linked(false, p, 0));
        assert(h.is_walk(false, p));
    }


    /// The roots are exactly the nodes that depend on nothing, and the
    /// leaves exactly the nodes that nothing depends on.
    pub proof fn lemma_roots_and_leaves(&self, x: Seq<char>)
        requires
            self.well_formed(),
        ensures
            self@.roots.contains(x) <==> (self@.nodes.contains(x) && forall|y: Seq<char>| !#[trigger] self@.edge(x, y)),
            self@.leaves.contains(x) <==> (self@.nodes.contains(x) && forall|y: Seq<char>| !#[trigger] self@.edge(y, x)),
    {
        let g = self@;
        self.lemma_roots_and_leaves_rows();
        assert(g.roots.contains(x) == g.roots.contains(x));
        assert(g.leaves.contains(x) == g.leaves.contains(x));
        if g.nodes.contains(x) {
            let k = g.nodes.index_of(x);
            assert(g.nodes[k] == x);
            assert(g.dependencies[k] == g.row_of(true, x));
            assert(g.dependents[k] == g.row_of(false, x));
            if g.dependencies[k].len() == 0 {
                assert forall|y: Seq<char>| !#[trigger] g.edge(x, y) by {
                    if g.edge(x, y) {
                        let i = choose|i: int| 0 <= i < g.nodes.len() && g.nodes[i] == x && #[trigger] g.adjacency(true)[i].contains(y);
                        assert(i == k);
                    }
                }
            } else {
                let y = g.dependencies[k][0];
                assert(g.adjacency(true)[k].contains(y));
                assert(g.edge(x, y));
            }
            if g.dependents[k].len() == 0 {
                assert forall|y: Seq<char>| !#[trigger] g.edge(y, x) by {
                    if g.edge(y, x) {
                        let i = choose|i: int| 0 <= i < g.nodes.len() && g.nodes[i] == y && #[trigger] g.adjacency(true)[i].contains(x);
                        lemma_count_contains(g.dependencies[i], g.nodes[k]);
                        assert(count_in(g.dependencies[i], g.nodes[k]) == count_in(g.dependents[k], g.nodes[i]));
                        lemma_count_contains(g.dependents[k], g.nodes[i]);
                    }
                }
            } else {
                let y = g.dependents[k][0];
                assert(g.dependents[k].contains(y));
                assert(g.nodes.contains(y));
                let i = g.nodes.index_of(y);
                assert(g.nodes[i] == y);
                lemma_count_contains(g.dependents[k], g.nodes[i]);
                assert(count_in(g.dependencies[i], g.nodes[k]) == count_in(g.dependents[k], g.nodes[i]));
                lemma_count_contains(g.dependencies[i], g.nodes[k]);
                assert(g.adjacency(true)[i].contains(x));
                assert(g.edge(y, x));
            }
        }
    }
}

impl Default for DependencyGraph {
    fn default() -> (g: Self)
        ensures
            g.well_formed(),
            g@.nodes.len() == 0,
            g@.roots.len() == 0,
            g@.leaves.len() == 0,
            g@.edge_total() == 0,
    {
        Self::new()
    }
}

} // verus!
