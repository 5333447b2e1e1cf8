//! In-memory directed graph with handle-based access and cycle detection.
//!
//! Nodes live in an arena owned by a [`Graph`]; edges name their targets by
//! identifier. Graphs themselves live in a [`GraphStore`], and a
//! [`NodeHandle`] refers to its graph by slot: once the graph is discarded,
//! every operation through the handle fails with [`GraphError`].

use vstd::prelude::*;

verus! {

/// The node, or the graph that should hold it, cannot be resolved.
#[derive(Debug, PartialEq, Eq, Structural)]
pub struct GraphError;

/// Linear membership test on a vector of identifiers.
fn contains_id(v: &Vec<usize>, x: usize) -> (r: bool)
    ensures
        r == v@.contains(x),
{
    let mut i: usize = 0;
    while i < v.len()
        invariant
            i <= v@.len(),
            forall|j: int| 0 <= j < i ==> v@[j] != x,
        decreases v@.len() - i,
    {
        if v[i] == x {
            return true;
        }
        i = i + 1;
    }
    false
}

/// Position of `x` in `v`, if present.
fn position_of(v: &Vec<usize>, x: usize) -> (r: Option<usize>)
    ensures
        match r {
            Some(i) => i < v@.len() && v@[i as int] == x,
            None => !v@.contains(x),
        },
{
    let mut i: usize = 0;
    while i < v.len()
        invariant
            i <= v@.len(),
            forall|j: int| 0 <= j < i ==> v@[j] != x,
        decreases v@.len() - i,
    {
        if v[i] == x {
            return Some(i);
        }
        i = i + 1;
    }
    None
}

/// Adds `x` to a duplicate-free vector unless it is there; true iff added.
fn insert_id(v: &mut Vec<usize>, x: usize) -> (r: bool)
    requires
        old(v)@.no_duplicates(),
    ensures
        final(v)@.no_duplicates(),
        r == !old(v)@.contains(x),
        final(v)@.to_set() == old(v)@.to_set().insert(x),
        !r ==> final(v)@ == old(v)@,
{
    if contains_id(v, x) {
        proof {
            assert(v@.to_set().insert(x) =~= v@.to_set());
        }
        false
    } else {
        let ghost before = v@;
        v.push(x);
        proof {
            before.lemma_push_to_set_commute(x);
            assert forall|i: int, j: int| 0 <= i < v@.len() && 0 <= j < v@.len() && i != j
                implies v@[i] != v@[j] by {
                if i < before.len() && j < before.len() {
                } else if i == before.len() {
                    assert(before.contains(v@[j]));
                } else {
                    assert(before.contains(v@[i]));
                }
            }
        }
        true
    }
}

/// Removes `x` from a duplicate-free vector; true iff it was there.
fn remove_id(v: &mut Vec<usize>, x: usize) -> (r: bool)
    requires
        old(v)@.no_duplicates(),
    ensures
        final(v)@.no_duplicates(),
        r == old(v)@.contains(x),
        final(v)@.to_set() == old(v)@.to_set().remove(x),
        !r ==> final(v)@ == old(v)@,
{
    match position_of(v, x) {
        Some(i) => {
            let ghost before = v@;
            v.remove(i);
            proof {
                assert(v@ =~= before.remove(i as int));
                assert(before.contains(x));
                assert forall|y: usize| #![auto] v@.to_set().contains(y) == before.to_set().remove(x).contains(y) by {
                    if v@.contains(y) {
                        let k = choose|k: int| 0 <= k < v@.len() && v@[k] == y;
                        if k < i {
                            assert(before[k] == y);
                        } else {
                            assert(before[k + 1] == y);
                        }
                    }
                    if before.contains(y) && y != x {
                        let k = choose|k: int| 0 <= k < before.len() && before[k] == y;
                        if k < i {
                            assert(v@[k] == y);
                        } else {
                            assert(v@[k - 1] == y);
                        }
                    }
                }
                assert(v@.to_set() =~= before.to_set().remove(x));
            }
            true
        },
        None => {
            proof {
                assert(v@.to_set().remove(x) =~= v@.to_set());
            }
            false
        },
    }
}

/// A graph vertex: an integer payload and the identifiers of its edge targets.
pub struct Node {
    value: i32,
    edges: Vec<usize>,
}

impl View for Node {
    type V = Set<usize>;

    /// The set of edge targets.
    closed spec fn view(&self) -> Set<usize> {
        self.edges@.to_set()
    }
}

impl Node {
    /// No target is listed twice.
    pub closed spec fn wf(&self) -> bool {
        self.edges@.no_duplicates()
    }

    /// The payload.
    pub closed spec fn payload(&self) -> i32 {
        self.value
    }

    /// A node holding `value` with no edges.
    pub fn new(value: i32) -> (r: Node)
        ensures
            r.wf(),
            r@ == Set::<usize>::empty(),
            r.payload() == value,
    {
        let r = Node { value, edges: Vec::new() };
        proof {
            assert(r.edges@.to_set() =~= Set::<usize>::empty());
        }
        r
    }

    /// The payload.
    pub fn value(&self) -> (r: i32)
        ensures
            r == self.payload(),
    {
        self.value
    }

    /// Adds an edge to `to`; true iff it was not there before.
    pub fn add_edge(&mut self, to: usize) -> (r: bool)
        requires
            old(self).wf(),
        ensures
            final(self).wf(),
            r == !old(self)@.contains(to),
            final(self)@ == old(self)@.insert(to),
            final(self).payload() == old(self).payload(),
    {
        insert_id(&mut self.edges, to)
    }

    /// Removes the edge to `to`; true iff it was there.
    pub fn remove_edge(&mut self, to: usize) -> (r: bool)
        requires
            old(self).wf(),
        ensures
            final(self).wf(),
            r == old(self)@.contains(to),
            final(self)@ == old(self)@.remove(to),
            final(self).payload() == old(self).payload(),
    {
        remove_id(&mut self.edges, to)
    }

    /// Removes every edge.
    pub fn clear_edges(&mut self)
        ensures
            final(self).wf(),
            final(self)@ == Set::<usize>::empty(),
            final(self).payload() == old(self).payload(),
    {
        self.edges.clear();
        proof {
            assert(self.edges@.to_set() =~= Set::<usize>::empty());
        }
    }
}

/// What adding the edge `from -> to` to `g` returns: whether the edge is
/// new, or an error when `from` names no node.
pub open spec fn add_edge_result(g: Seq<Set<usize>>, from: usize, to: usize) -> Result<bool, GraphError> {
    if from < g.len() {
        Ok(!g[from as int].contains(to))
    } else {
        Err(GraphError)
    }
}

/// `g` with the edge `from -> to` added, when `from` names a node.
pub open spec fn with_edge(g: Seq<Set<usize>>, from: usize, to: usize) -> Seq<Set<usize>> {
    if from < g.len() {
        g.update(from as int, g[from as int].insert(to))
    } else {
        g
    }
}

/// What removing the edge `from -> to` from `g` returns: whether the edge
/// was there, or an error when `from` names no node.
pub open spec fn remove_edge_result(g: Seq<Set<usize>>, from: usize, to: usize) -> Result<bool, GraphError> {
    if from < g.len() {
        Ok(g[from as int].contains(to))
    } else {
        Err(GraphError)
    }
}

/// `g` without the edge `from -> to`, when `from` names a node.
pub open spec fn without_edge(g: Seq<Set<usize>>, from: usize, to: usize) -> Seq<Set<usize>> {
    if from < g.len() {
        g.update(from as int, g[from as int].remove(to))
    } else {
        g
    }
}

/// What clearing the edges of `id` in `g` returns.
pub open spec fn clear_edges_result(g: Seq<Set<usize>>, id: usize) -> Result<(), GraphError> {
    if id < g.len() {
        Ok(())
    } else {
        Err(GraphError)
    }
}

/// `g` with no edges leaving `id`, when `id` names a node.
pub open spec fn cleared(g: Seq<Set<usize>>, id: usize) -> Seq<Set<usize>> {
    if id < g.len() {
        g.update(id as int, Set::empty())
    } else {
        g
    }
}

/// Adding an edge twice: the first call reports whether the edge is new,
/// the second reports it as already there and changes nothing.
pub proof fn lemma_add_edge_idempotent(g: Seq<Set<usize>>, a: usize, b: usize)
    requires
        a < g.len(),
    ensures
        add_edge_result(g, a, b) == Ok::<bool, GraphError>(!g[a as int].contains(b)),
        add_edge_result(with_edge(g, a, b), a, b) == Ok::<bool, GraphError>(false),
        with_edge(with_edge(g, a, b), a, b) == with_edge(g, a, b),
{
    let g1 = with_edge(g, a, b);
    assert(g1[a as int].insert(b) =~= g1[a as int]);
    assert(g1.update(a as int, g1[a as int].insert(b)) =~= g1);
}

/// Removing an edge that is there twice in a row: the first call reports
/// `true`, the second `false`.
pub proof fn lemma_remove_edge_twice(g: Seq<Set<usize>>, a: usize, b: usize)
    requires
        a < g.len(),
        g[a as int].contains(b),
    ensures
        remove_edge_result(g, a, b) == Ok::<bool, GraphError>(true),
        remove_edge_result(without_edge(g, a, b), a, b) == Ok::<bool, GraphError>(false),
{
}

/// After the edges of `a` are cleared, removing any edge from `a` reports
/// that it was not there.
pub proof fn lemma_clear_then_remove(g: Seq<Set<usize>>, a: usize)
    requires
        a < g.len(),
    ensures
        clear_edges_result(g, a) == Ok::<(), GraphError>(()),
        forall|b: usize| remove_edge_result(cleared(g, a), a, b) == Ok::<bool, GraphError>(false),
{
}

/// The registry of a graph's nodes. Identifiers are handed out in order,
/// starting at 0, and never reused: the node with identifier `i` is the
/// `i`-th one added.
pub struct Graph {
    nodes: Vec<Node>,
}

impl View for Graph {
    type V = Seq<Set<usize>>;

    /// For each identifier, the targets of the node's edges.
    closed spec fn view(&self) -> Seq<Set<usize>> {
        Seq::new(self.nodes@.len(), |i: int| self.nodes@[i]@)
    }
}

impl Graph {
    /// Every node is well formed.
    pub closed spec fn wf(&self) -> bool {
        forall|i: int| 0 <= i < self.nodes@.len() ==> #[trigger] self.nodes@[i].wf()
    }

    /// The payloads, by identifier.
    pub closed spec fn payloads(&self) -> Seq<i32> {
        Seq::new(self.nodes@.len(), |i: int| self.nodes@[i].payload())
    }

    /// Whether `id` names a node of this graph.
    pub open spec fn has_node(&self, id: usize) -> bool {
        id < self@.len()
    }

    /// An empty graph.
    pub fn new() -> (r: Graph)
        ensures
            r.wf(),
            r@ == Seq::<Set<usize>>::empty(),
            r.payloads() == Seq::<i32>::empty(),
    {
        let r = Graph { nodes: Vec::new() };
        proof {
            assert(r@ =~= Seq::<Set<usize>>::empty());
            assert(r.payloads() =~= Seq::<i32>::empty());
        }
        r
    }

    /// Adds a node holding `value` and no edges; returns its identifier,
    /// which is greater than every identifier handed out before.
    pub fn add_node(&mut self, value: i32) -> (r: usize)
        requires
            old(self).wf(),
        ensures
            final(self).wf(),
            r == old(self)@.len(),
            final(self)@ == old(self)@.push(Set::<usize>::empty()),
            final(self).payloads() == old(self).payloads().push(value),
            forall|id: usize| old(self).has_node(id) ==> id < r,
            !old(self).has_node(r),
            final(self).has_node(r),
    {
        let id = self.nodes.len();
        let ghost before = *self;
        self.nodes.push(Node::new(value));
        proof {
            assert(self@ =~= before@.push(Set::<usize>::empty()));
            assert(self.payloads() =~= before.payloads().push(value));
        }
        id
    }

    /// Adds the edge `from -> to`. `Ok(true)` if it is new, `Ok(false)` if
    /// it was already there; an error if `from` is not a node. The target
    /// need not be a node yet.
    pub fn add_edge(&mut self, from: usize, to: usize) -> (r: Result<bool, GraphError>)
        requires
            old(self).wf(),
        ensures
            final(self).wf(),
            final(self).payloads() == old(self).payloads(),
            r == add_edge_result(old(self)@, from, to),
            final(self)@ == with_edge(old(self)@, from, to),
    {
        if from < self.nodes.len() {
            let ghost before = *self;
            let added = self.nodes[from].add_edge(to);
            proof {
                assert(self@ =~= before@.update(from as int, before@[from as int].insert(to)));
                assert(self.payloads() =~= before.payloads());
            }
            Ok(added)
        } else {
            Err(GraphError)
        }
    }

    /// Removes the edge `from -> to`. `Ok(true)` if it was there,
    /// `Ok(false)` if not; an error if `from` is not a node.
    pub fn remove_edge(&mut self, from: usize, to: usize) -> (r: Result<bool, GraphError>)
        requires
            old(self).wf(),
        ensures
            final(self).wf(),
            final(self).payloads() == old(self).payloads(),
            r == remove_edge_result(old(self)@, from, to),
            final(self)@ == without_edge(old(self)@, from, to),
    {
        if from < self.nodes.len() {
            let ghost before = *self;
            let removed = self.nodes[from].remove_edge(to);
            proof {
                assert(self@ =~= before@.update(from as int, before@[from as int].remove(to)));
                assert(self.payloads() =~= before.payloads());
            }
            Ok(removed)
        } else {
            Err(GraphError)
        }
    }

    /// Removes every edge leaving `id`; an error if `id` is not a node.
    pub fn clear_edges(&mut self, id: usize) -> (r: Result<(), GraphError>)
        requires
            old(self).wf(),
        ensures
            final(self).wf(),
            final(self).payloads() == old(self).payloads(),
            r == clear_edges_result(old(self)@, id),
            final(self)@ == cleared(old(self)@, id),
    {
        if id < self.nodes.len() {
            let ghost before = *self;
            self.nodes[id].clear_edges();
            proof {
                assert(self@ =~= before@.update(id as int, Set::<usize>::empty()));
                assert(self.payloads() =~= before.payloads());
            }
            Ok(())
        } else {
            Err(GraphError)
        }
    }
}

/// Owner of every graph. A graph lives in a numbered slot until it is
/// discarded; slots are never reused, so a stale slot number resolves to
/// nothing rather than to another graph.
pub struct GraphStore {
    graphs: Vec<Option<Graph>>,
}

impl GraphStore {
    /// The slots: `Some` for a live graph, `None` for a discarded one.
    pub closed spec fn slots(&self) -> Seq<Option<Graph>> {
        self.graphs@
    }

    /// Every live graph is well formed.
    pub open spec fn wf(&self) -> bool {
        forall|i: int| 0 <= i < self.slots().len() && (#[trigger] self.slots()[i]) is Some
            ==> self.slots()[i].unwrap().wf()
    }

    /// Whether slot `g` holds a live graph.
    pub open spec fn live(&self, g: usize) -> bool {
        g < self.slots().len() && self.slots()[g as int] is Some
    }

    /// The graph in slot `g`.
    pub open spec fn graph_at(&self, g: usize) -> Graph {
        self.slots()[g as int].unwrap()
    }

    /// Whether `h` names a node of a live graph.
    pub open spec fn resolves(&self, h: NodeHandle) -> bool {
        self.live(h.slot()) && self.graph_at(h.slot()).has_node(h.node_id())
    }

    /// `after` differs from `self` only in the edges of the graph in slot `g`,
    /// which become `edges`.
    pub open spec fn edges_replaced(&self, after: &GraphStore, g: usize, edges: Seq<Set<usize>>) -> bool {
        &&& after.slots().len() == self.slots().len()
        &&& forall|i: int| 0 <= i < self.slots().len() && i != g ==> after.slots()[i] == self.slots()[i]
        &&& after.live(g)
        &&& after.graph_at(g)@ == edges
        &&& after.graph_at(g).payloads() == self.graph_at(g).payloads()
    }

    /// A store with no graphs.
    pub fn new() -> (r: GraphStore)
        ensures
            r.wf(),
            r.slots() == Seq::<Option<Graph>>::empty(),
    {
        let r = GraphStore { graphs: Vec::new() };
        proof {
            assert(r.slots() =~= Seq::<Option<Graph>>::empty());
        }
        r
    }

    /// Creates an empty graph in a fresh slot and returns the slot.
    pub fn add_graph(&mut self) -> (r: usize)
        requires
            old(self).wf(),
        ensures
            final(self).wf(),
            r == old(self).slots().len(),
            final(self).slots() == old(self).slots().push(Some(final(self).graph_at(r))),
            final(self).graph_at(r)@ == Seq::<Set<usize>>::empty(),
            final(self).graph_at(r).payloads() == Seq::<i32>::empty(),
    {
        let r = self.graphs.len();
        let g = Graph::new();
        self.graphs.push(Some(g));
        r
    }

    /// Whether slot `g` holds a live graph.
    pub fn is_live(&self, g: usize) -> (r: bool)
        ensures
            r == self.live(g),
    {
        g < self.graphs.len() && self.graphs[g].is_some()
    }

    /// Discards the graph in slot `g`; handles into it stop resolving.
    pub fn discard(&mut self, g: usize)
        requires
            old(self).wf(),
        ensures
            final(self).wf(),
            final(self).slots().len() == old(self).slots().len(),
            forall|i: int| 0 <= i < old(self).slots().len() && i != g
                ==> final(self).slots()[i] == old(self).slots()[i],
            !final(self).live(g),
    {
        if g < self.graphs.len() {
            self.graphs.set(g, None);
        }
    }

    /// Adds a node holding `value` to the live graph in slot `g` and returns
    /// a handle to it; an error if the slot holds no live graph.
    pub fn add_node(&mut self, g: usize, value: i32) -> (r: Result<NodeHandle, GraphError>)
        requires
            old(self).wf(),
        ensures
            final(self).wf(),
            old(self).live(g) ==> r is Ok
                && r->Ok_0.slot() == g
                && r->Ok_0.node_id() == old(self).graph_at(g)@.len()
                && final(self).slots().len() == old(self).slots().len()
                && (forall|i: int| 0 <= i < old(self).slots().len() && i != g
                    ==> final(self).slots()[i] == old(self).slots()[i])
                && final(self).live(g)
                && final(self).graph_at(g)@ == old(self).graph_at(g)@.push(Set::<usize>::empty())
                && final(self).graph_at(g).payloads() == old(self).graph_at(g).payloads().push(value),
            !old(self).live(g) ==> r == Err::<NodeHandle, GraphError>(GraphError)
                && final(self).slots() == old(self).slots(),
    {
        if g < self.graphs.len() {
            match &mut self.graphs[g] {
                Some(graph) => {
                    let id = graph.add_node(value);
                    Ok(NodeHandle { id, graph: g })
                },
                None => Err(GraphError),
            }
        } else {
            Err(GraphError)
        }
    }
}

/// Once the graph in a slot is discarded, no handle into it resolves, so
/// adding, removing and clearing edges through such a handle all fail.
pub proof fn lemma_discarded_handle_fails(store: GraphStore, h: NodeHandle)
    requires
        !store.live(h.slot()),
    ensures
        !store.resolves(h),
{
}

/// A copyable reference to a node: its identifier and the slot of its graph.
/// It does not keep the graph alive.
#[derive(Clone, Copy, Debug, PartialEq, Eq, Structural)]
pub struct NodeHandle {
    id: usize,
    graph: usize,
}

impl NodeHandle {
    /// The node's identifier within its graph.
    pub closed spec fn node_id(&self) -> usize {
        self.id
    }

    /// The slot of the node's graph.
    pub closed spec fn slot(&self) -> usize {
        self.graph
    }

    /// The node's identifier within its graph.
    pub fn id(&self) -> (r: usize)
        ensures
            r == self.node_id(),
    {
        self.id
    }

    /// The slot of the node's graph.
    pub fn graph(&self) -> (r: usize)
        ensures
            r == self.slot(),
    {
        self.graph
    }

    /// Creates a graph of its own, holding one node with `value`, and
    /// returns a handle to that node.
    pub fn new(store: &mut GraphStore, value: i32) -> (r: NodeHandle)
        requires
            old(store).wf(),
        ensures
            final(store).wf(),
            r.slot() == old(store).slots().len(),
            r.node_id() == 0,
            final(store).slots() == old(store).slots().push(Some(final(store).graph_at(r.slot()))),
            final(store).graph_at(r.slot())@ == seq![Set::<usize>::empty()],
            final(store).graph_at(r.slot()).payloads() == seq![value],
    {
        let g = store.add_graph();
        let ghost mid = *store;
        let r = store.add_node(g, value);
        match r {
            Ok(h) => {
                proof {
                    assert(store.slots() =~= mid.slots().take(g as int).push(Some(store.graph_at(g))));
                    assert(mid.slots().take(g as int) =~= old(store).slots());
                    assert(store.graph_at(g)@ =~= seq![Set::<usize>::empty()]);
                    assert(store.graph_at(g).payloads() =~= seq![value]);
                }
                h
            },
            Err(_) => {
                proof {
                    assert(false);
                }
                NodeHandle { id: 0, graph: g }
            },
        }
    }

    /// Adds the edge from this node to `to`. Fails if this node's graph is
    /// gone, or if `to` is not a node of that same graph; otherwise `true`
    /// iff the edge is new.
    pub fn add_edge(&self, store: &mut GraphStore, to: NodeHandle) -> (r: Result<bool, GraphError>)
        requires
            old(store).wf(),
        ensures
            final(store).wf(),
            ({
                let ok = old(store).resolves(*self) && to.slot() == self.slot() && old(store).resolves(to);
                let before = old(store).graph_at(self.slot())@;
                &&& ok ==> r == add_edge_result(before, self.node_id(), to.node_id())
                    && old(store).edges_replaced(&*final(store), self.slot(), with_edge(before, self.node_id(), to.node_id()))
                &&& !ok ==> r == Err::<bool, GraphError>(GraphError) && final(store).slots() == old(store).slots()
            }),
    {
        if self.graph != to.graph || self.graph >= store.graphs.len() {
            return Err(GraphError);
        }
        match &mut store.graphs[self.graph] {
            Some(g) => {
                if self.id < g.nodes.len() && to.id < g.nodes.len() {
                    g.add_edge(self.id, to.id)
                } else {
                    Err(GraphError)
                }
            },
            None => Err(GraphError),
        }
    }

    /// Removes the edge from this node to `to`. Fails if this node's graph
    /// is gone, or if `to` is not a node of that same graph; otherwise
    /// `true` iff the edge was there.
    pub fn remove_edge(&self, store: &mut GraphStore, to: &NodeHandle) -> (r: Result<bool, GraphError>)
        requires
            old(store).wf(),
        ensures
            final(store).wf(),
            ({
                let ok = old(store).resolves(*self) && to.slot() == self.slot() && old(store).resolves(*to);
                let before = old(store).graph_at(self.slot())@;
                &&& ok ==> r == remove_edge_result(before, self.node_id(), to.node_id())
                    && old(store).edges_replaced(&*final(store), self.slot(), without_edge(before, self.node_id(), to.node_id()))
                &&& !ok ==> r == Err::<bool, GraphError>(GraphError) && final(store).slots() == old(store).slots()
            }),
    {
        if self.graph != to.graph || self.graph >= store.graphs.len() {
            return Err(GraphError);
        }
        match &mut store.graphs[self.graph] {
            Some(g) => {
                if self.id < g.nodes.len() && to.id < g.nodes.len() {
                    g.remove_edge(self.id, to.id)
                } else {
                    Err(GraphError)
                }
            },
            None => Err(GraphError),
        }
    }

    /// Removes every edge leaving this node. Fails if its graph is gone.
    pub fn clear_edges(&self, store: &mut GraphStore) -> (r: Result<(), GraphError>)
        requires
            old(store).wf(),
        ensures
            final(store).wf(),
            ({
                let before = old(store).graph_at(self.slot())@;
                &&& old(store).resolves(*self) ==> r == Ok::<(), GraphError>(())
                    && old(store).edges_replaced(&*final(store), self.slot(), cleared(before, self.node_id()))
                &&& !old(store).resolves(*self) ==> r == Err::<(), GraphError>(GraphError)
                    && final(store).slots() == old(store).slots()
            }),
    {
        if self.graph >= store.graphs.len() {
            return Err(GraphError);
        }
        match &mut store.graphs[self.graph] {
            Some(g) => {
                if self.id < g.nodes.len() {
                    g.clear_edges(self.id)
                } else {
                    Err(GraphError)
                }
            },
            None => Err(GraphError),
        }
    }
}

/// Whether `g` has an edge from `u` to `v`. An identifier that names no
/// node has no edges.
pub open spec fn edge(g: Seq<Set<usize>>, u: usize, v: usize) -> bool {
    u < g.len() && g[u as int].contains(v)
}

/// `p` is a directed cycle through members of `members`: a nonempty walk
/// whose consecutive entries are joined by edges of `g`, and whose last
/// entry has an edge back to the first.
pub open spec fn is_cycle(g: Seq<Set<usize>>, members: Set<usize>, p: Seq<usize>) -> bool {
    &&& p.len() > 0
    &&& forall|i: int| 0 <= i < p.len() ==> members.contains(#[trigger] p[i])
    &&& forall|i: int| 0 <= i < p.len() - 1 ==> #[trigger] edge(g, p[i], p[i + 1])
    &&& edge(g, p.last(), p[0])
}

/// The subgraph of `g` induced by `members` contains a cycle.
pub open spec fn has_cycle(g: Seq<Set<usize>>, members: Set<usize>) -> bool {
    exists|p: Seq<usize>| is_cycle(g, members, p)
}

/// `p` is a walk through members of `members` along edges of `g`.
pub open spec fn is_walk(g: Seq<Set<usize>>, members: Set<usize>, p: Seq<usize>) -> bool {
    &&& p.len() > 0
    &&& forall|i: int| 0 <= i < p.len() ==> members.contains(#[trigger] p[i])
    &&& forall|i: int| 0 <= i < p.len() - 1 ==> #[trigger] edge(g, p[i], p[i + 1])
}

/// Some cycle among the members can be reached from `u` along member edges.
pub open spec fn cycle_reachable(g: Seq<Set<usize>>, members: Set<usize>, u: usize) -> bool {
    exists|p: Seq<usize>, c: Seq<usize>| #![trigger is_walk(g, members, p), is_cycle(g, members, c)]
        is_walk(g, members, p) && p[0] == u && is_cycle(g, members, c) && p.last() == c[0]
}

/// A walk of at least one edge through members leads from `u` to an entry
/// of `targets`.
pub open spec fn returns_to(g: Seq<Set<usize>>, members: Set<usize>, u: usize, targets: Seq<usize>) -> bool {
    exists|p: Seq<usize>| #![trigger is_walk(g, members, p)]
        is_walk(g, members, p) && p.len() >= 2 && p[0] == u && targets.contains(p.last())
}

/// From `u`, one member edge leads to `v`, and from `v` a cycle is
/// reachable or a walk leads back onto `path.push(u).push(v)`: then from `u`
/// a cycle is reachable or a walk leads back onto `path.push(u)`.
proof fn lemma_extend_back_walk(g: Seq<Set<usize>>, members: Set<usize>, path: Seq<usize>, u: usize, v: usize)
    requires
        members.contains(u),
        members.contains(v),
        edge(g, u, v),
        cycle_reachable(g, members, v) || returns_to(g, members, v, path.push(u).push(v)),
    ensures
        cycle_reachable(g, members, u) || returns_to(g, members, u, path.push(u)),
{
    if cycle_reachable(g, members, v) {
        let (p, c) = choose|p: Seq<usize>, c: Seq<usize>| #![trigger is_walk(g, members, p), is_cycle(g, members, c)]
            is_walk(g, members, p) && p[0] == v && is_cycle(g, members, c) && p.last() == c[0];
        let q = seq![u] + p;
        assert forall|i: int| 0 <= i < q.len() implies members.contains(#[trigger] q[i]) by {
            if i > 0 {
                assert(q[i] == p[i - 1]);
            }
        }
        assert forall|i: int| 0 <= i < q.len() - 1 implies #[trigger] edge(g, q[i], q[i + 1]) by {
            if i > 0 {
                assert(q[i] == p[i - 1] && q[i + 1] == p[i - 1 + 1]);
            }
        }
        assert(is_walk(g, members, q));
        assert(q.last() == p.last());
        assert(cycle_reachable(g, members, u));
    } else {
        let p = choose|p: Seq<usize>| #![trigger is_walk(g, members, p)]
            is_walk(g, members, p) && p.len() >= 2 && p[0] == v && path.push(u).push(v).contains(p.last());
        lemma_push_contains(path.push(u), v);
        if p.last() == v {
            let c = p.drop_last();
            assert forall|i: int| 0 <= i < c.len() implies members.contains(#[trigger] c[i]) by {
                assert(c[i] == p[i]);
            }
            assert forall|i: int| 0 <= i < c.len() - 1 implies #[trigger] edge(g, c[i], c[i + 1]) by {
                assert(c[i] == p[i] && c[i + 1] == p[i + 1]);
            }
            assert(edge(g, p[p.len() - 2], p[p.len() - 2 + 1]));
            assert(is_cycle(g, members, c));
            let w = seq![u, v];
            assert(w[0] == u && w[1] == v);
            assert(edge(g, w[0], w[0int + 1]));
            assert(is_walk(g, members, w));
            assert(cycle_reachable(g, members, u));
        } else {
            let q = seq![u] + p;
            assert forall|i: int| 0 <= i < q.len() implies members.contains(#[trigger] q[i]) by {
                if i > 0 {
                    assert(q[i] == p[i - 1]);
                }
            }
            assert forall|i: int| 0 <= i < q.len() - 1 implies #[trigger] edge(g, q[i], q[i + 1]) by {
                if i > 0 {
                    assert(q[i] == p[i - 1] && q[i + 1] == p[i - 1 + 1]);
                }
            }
            assert(is_walk(g, members, q));
            assert(q.last() == p.last());
            assert(returns_to(g, members, u, path.push(u)));
        }
    }
}

/// `flags` marks, by identifier, exactly those identifiers below its
/// length that `list` holds.
spec fn mirrors(flags: Seq<bool>, list: Seq<usize>) -> bool {
    forall|id: usize| id < flags.len() ==> #[trigger] flags[id as int] == list.contains(id)
}

/// Whether `list` holds `x`: one lookup in `flags` for identifiers it
/// covers, a scan of `list` otherwise.
fn listed(flags: &Vec<bool>, list: &Vec<usize>, x: usize) -> (r: bool)
    requires
        mirrors(flags@, list@),
    ensures
        r == list@.contains(x),
{
    if x < flags.len() {
        flags[x]
    } else {
        contains_id(list, x)
    }
}

/// Flags for the identifiers below `len` that `list` holds.
fn flags_for(len: usize, list: &Vec<usize>) -> (r: Vec<bool>)
    ensures
        r@.len() == len,
        mirrors(r@, list@),
{
    let mut r: Vec<bool> = Vec::new();
    while r.len() < len
        invariant
            r@.len() <= len,
            forall|k: int| 0 <= k < r@.len() ==> !r@[k],
        decreases len - r@.len(),
    {
        r.push(false);
    }
    let mut i: usize = 0;
    while i < list.len()
        invariant
            i <= list@.len(),
            r@.len() == len,
            forall|id: usize| id < len ==> #[trigger] r@[id as int] == list@.subrange(0, i as int).contains(id),
        decreases list@.len() - i,
    {
        let x = list[i];
        proof {
            lemma_push_contains(list@.subrange(0, i as int), x);
            assert(list@.subrange(0, i + 1) =~= list@.subrange(0, i as int).push(x));
        }
        if x < r.len() {
            r.set(x, true);
        }
        i = i + 1;
    }
    proof {
        assert(list@.subrange(0, list@.len() as int) =~= list@);
    }
    r
}

/// Appends `x` to `list` and marks it in `flags`.
fn mark_push(flags: &mut Vec<bool>, list: &mut Vec<usize>, x: usize)
    requires
        mirrors(old(flags)@, old(list)@),
    ensures
        final(list)@ == old(list)@.push(x),
        mirrors(final(flags)@, final(list)@),
{
    let ghost before = list@;
    list.push(x);
    if x < flags.len() {
        flags.set(x, true);
    }
    proof {
        lemma_push_contains(before, x);
    }
}

/// Drops the last entry of a list that holds it once, and unmarks it.
fn mark_pop(flags: &mut Vec<bool>, list: &mut Vec<usize>)
    requires
        mirrors(old(flags)@, old(list)@),
        old(list)@.len() > 0,
        !old(list)@.drop_last().contains(old(list)@.last()),
    ensures
        final(list)@ == old(list)@.drop_last(),
        mirrors(final(flags)@, final(list)@),
{
    let ghost before = list@;
    let last = list.pop().unwrap();
    proof {
        assert(before =~= list@.push(last));
        lemma_push_contains(list@, last);
    }
    if last < flags.len() {
        flags.set(last, false);
    }
}

/// A node the search has finished with: visited, and off the current path.
spec fn done(visited: Seq<usize>, stack: Seq<usize>, x: usize) -> bool {
    visited.contains(x) && !stack.contains(x)
}

/// A duplicate-free sequence drawn from a finite set is no longer than it.
proof fn lemma_distinct_within(s: Seq<usize>, members: Set<usize>)
    requires
        s.no_duplicates(),
        members.finite(),
        forall|x: usize| s.contains(x) ==> members.contains(x),
    ensures
        s.len() <= members.len(),
{
    s.unique_seq_to_set();
    assert(s.to_set().subset_of(members));
    vstd::set_lib::lemma_len_subset(s.to_set(), members);
}

/// What a sequence holds after a push.
proof fn lemma_push_contains(s: Seq<usize>, a: usize)
    ensures
        forall|x: usize| #[trigger] s.push(a).contains(x) <==> (s.contains(x) || x == a),
{
    assert forall|x: usize| #[trigger] s.push(a).contains(x) <==> (s.contains(x) || x == a) by {
        if s.contains(x) {
            let k = choose|k: int| 0 <= k < s.len() && s[k] == x;
            assert(s.push(a)[k] == x);
        }
        if x == a {
            assert(s.push(a)[s.len() as int] == x);
        }
        if s.push(a).contains(x) && x != a {
            let k = choose|k: int| 0 <= k < s.len() + 1 && s.push(a)[k] == x;
            assert(s[k] == x);
        }
    }
}

/// One more fresh member still fits in a finite set of members.
proof fn lemma_push_within(s: Seq<usize>, members: Set<usize>, a: usize)
    requires
        s.no_duplicates(),
        members.finite(),
        forall|x: usize| s.contains(x) ==> members.contains(x),
        members.contains(a),
        !s.contains(a),
    ensures
        s.len() + 1 <= members.len(),
        s.push(a).no_duplicates(),
{
    lemma_push_contains(s, a);
    assert forall|i: int, j: int| 0 <= i < s.len() + 1 && 0 <= j < s.len() + 1 && i != j
        implies s.push(a)[i] != s.push(a)[j] by {
        if i < s.len() && j < s.len() {
        } else if i == s.len() {
            assert(s.contains(s[j]));
        } else {
            assert(s.contains(s[i]));
        }
    }
    lemma_distinct_within(s.push(a), members);
}

/// Along a walk whose edges go strictly down in rank, the `i`-th node is at
/// least `i` below the first.
proof fn lemma_rank_descends(g: Seq<Set<usize>>, members: Set<usize>, rank: Map<usize, nat>, p: Seq<usize>, i: int)
    requires
        is_cycle(g, members, p),
        forall|x: usize| #[trigger] members.contains(x) ==> rank.contains_key(x)
            && forall|v: usize| members.contains(v) && #[trigger] edge(g, x, v) ==> rank[v] < rank[x],
        0 <= i < p.len(),
    ensures
        rank[p[i]] + i <= rank[p[0]],
    decreases i,
{
    if i > 0 {
        lemma_rank_descends(g, members, rank, p, i - 1);
        assert(members.contains(p[i - 1]));
        assert(members.contains(p[i]));
        assert(edge(g, p[i - 1], p[(i - 1) + 1]));
    }
}

/// Members ranked so that every edge between them goes strictly down in
/// rank hold no cycle.
proof fn lemma_ranked_acyclic(g: Seq<Set<usize>>, members: Set<usize>, rank: Map<usize, nat>)
    requires
        forall|x: usize| #[trigger] members.contains(x) ==> rank.contains_key(x)
            && forall|v: usize| members.contains(v) && #[trigger] edge(g, x, v) ==> rank[v] < rank[x],
    ensures
        !has_cycle(g, members),
{
    if has_cycle(g, members) {
        let p = choose|p: Seq<usize>| is_cycle(g, members, p);
        lemma_rank_descends(g, members, rank, p, p.len() - 1);
        assert(members.contains(p[p.len() - 1]));
        assert(members.contains(p[0]));
    }
}

/// Without edges there is no cycle.
proof fn lemma_no_edges_acyclic(members: Set<usize>)
    ensures
        !has_cycle(Seq::<Set<usize>>::empty(), members),
{
    if has_cycle(Seq::<Set<usize>>::empty(), members) {
        let p = choose|p: Seq<usize>| is_cycle(Seq::<Set<usize>>::empty(), members, p);
        assert(edge(Seq::<Set<usize>>::empty(), p.last(), p[0]));
    }
}

/// A set of node identifiers assembled from handles, viewed over the graph
/// they came from. It never owns nodes: changing it leaves the graph alone.
/// Only edges between members count when looking for a cycle.
pub struct SubGraph {
    nodes: Vec<usize>,
    graph: Option<usize>,
}

impl View for SubGraph {
    type V = Set<usize>;

    /// The member identifiers.
    closed spec fn view(&self) -> Set<usize> {
        self.nodes@.to_set()
    }
}

impl SubGraph {
    /// No member is listed twice.
    pub closed spec fn wf(&self) -> bool {
        self.nodes@.no_duplicates()
    }

    /// The slot of the graph that the latest newly added member came from.
    pub closed spec fn bound(&self) -> Option<usize> {
        self.graph
    }

    /// The edges seen from this subgraph: those of its graph while that
    /// graph is live, none otherwise.
    pub open spec fn edges_in(&self, store: &GraphStore) -> Seq<Set<usize>> {
        match self.bound() {
            Some(g) => if store.live(g) {
                store.graph_at(g)@
            } else {
                Seq::empty()
            },
            None => Seq::empty(),
        }
    }

    /// An empty subgraph.
    pub fn new() -> (r: SubGraph)
        ensures
            r.wf(),
            r@ == Set::<usize>::empty(),
            r.bound() is None,
    {
        let r = SubGraph { nodes: Vec::new(), graph: None };
        proof {
            assert(r.nodes@.to_set() =~= Set::<usize>::empty());
        }
        r
    }

    /// Adds the handle's node; true iff it was not a member yet. A new
    /// member binds the subgraph to the handle's graph.
    pub fn add_node(&mut self, node: NodeHandle) -> (r: bool)
        requires
            old(self).wf(),
        ensures
            final(self).wf(),
            r == !old(self)@.contains(node.node_id()),
            final(self)@ == old(self)@.insert(node.node_id()),
            r ==> final(self).bound() == Some(node.slot()),
            !r ==> *final(self) == *old(self),
    {
        if contains_id(&self.nodes, node.id) {
            return false;
        }
        insert_id(&mut self.nodes, node.id);
        self.graph = Some(node.graph);
        true
    }

    /// Removes the handle's node; true iff it was a member. A subgraph that
    /// did not hold it is left exactly as it was.
    pub fn remove_node(&mut self, node: &NodeHandle) -> (r: bool)
        requires
            old(self).wf(),
        ensures
            final(self).wf(),
            r == old(self)@.contains(node.node_id()),
            final(self)@ == old(self)@.remove(node.node_id()),
            final(self).bound() == old(self).bound(),
            !r ==> *final(self) == *old(self),
    {
        if !contains_id(&self.nodes, node.id) {
            return false;
        }
        remove_id(&mut self.nodes, node.id)
    }

    /// The state of a depth-first search over this subgraph's members: the
    /// visited nodes are members, listed once; the current path `stack`
    /// follows edges; every finished node has a rank below `n`, and each
    /// edge from it to a member leads to a finished node of lower rank.
    spec fn search_inv(&self, g: Seq<Set<usize>>, visited: Seq<usize>, stack: Seq<usize>, rank: Map<usize, nat>, n: nat) -> bool {
        &&& visited.no_duplicates()
        &&& forall|x: usize| visited.contains(x) ==> self@.contains(x)
        &&& forall|x: usize| stack.contains(x) ==> visited.contains(x)
        &&& forall|i: int| 0 <= i < stack.len() - 1 ==> #[trigger] edge(g, stack[i], stack[i + 1])
        &&& forall|x: usize| #[trigger] done(visited, stack, x) ==> rank.contains_key(x) && rank[x] < n
            && forall|v: usize| self@.contains(v) && #[trigger] edge(g, x, v) ==> done(visited, stack, v) && rank[v] < rank[x]
    }

    /// Explores from `u`, which extends the current path. `u` must be a
    /// member: only edges between members count, so the search never leaves
    /// them. True when an edge back onto the path closes a cycle; then a
    /// cycle is reachable from `u`, or a walk from `u` leads back onto the
    /// path. Otherwise `u` and everything reachable from it among the
    /// members are finished. Either way `visited` only grows, now holds `u`,
    /// and the path stays within it.
    fn dfs(
        &self,
        g: &Graph,
        u: usize,
        member: &Vec<bool>,
        visited: &mut Vec<usize>,
        seen: &mut Vec<bool>,
        stack: &mut Vec<usize>,
        on_path: &mut Vec<bool>,
        rank: &mut Ghost<Map<usize, nat>>,
        n: &mut Ghost<nat>,
    ) -> (r: bool)
        requires
            self.wf(),
            g.wf(),
            mirrors(member@, self.nodes@),
            mirrors(old(seen)@, old(visited)@),
            mirrors(old(on_path)@, old(stack)@),
            self.search_inv(g@, old(visited)@, old(stack)@, old(rank)@, old(n)@),
            self@.contains(u),
            !old(visited)@.contains(u),
            old(stack)@.len() > 0 ==> edge(g@, old(stack)@.last(), u),
        ensures
            r ==> has_cycle(g@, self@),
            r ==> cycle_reachable(g@, self@, u) || returns_to(g@, self@, u, old(stack)@.push(u)),
            forall|x: usize| old(visited)@.contains(x) ==> final(visited)@.contains(x),
            final(visited)@.contains(u),
            forall|x: usize| final(stack)@.contains(x) ==> final(visited)@.contains(x),
            !r ==> self.search_inv(g@, final(visited)@, final(stack)@, final(rank)@, final(n)@),
            !r ==> final(stack)@ == old(stack)@,
            !r ==> mirrors(final(seen)@, final(visited)@),
            !r ==> mirrors(final(on_path)@, final(stack)@),
            !r ==> final(visited)@.len() > old(visited)@.len(),
            !r ==> forall|x: usize| done(old(visited)@, old(stack)@, x) ==> final(rank)@[x] == old(rank)@[x],
            !r ==> final(n)@ >= old(n)@,
        decreases self@.len() - old(visited)@.len(),
    {
        let ghost vis0 = visited@;
        let ghost st0 = stack@;
        let ghost rank0 = rank@;
        let ghost n0 = n@;
        proof {
            self.nodes@.unique_seq_to_set();
            lemma_push_within(vis0, self@, u);
            lemma_push_contains(vis0, u);
            lemma_push_contains(st0, u);
        }
        mark_push(seen, visited, u);
        mark_push(on_path, stack, u);
        proof {
            assert(stack@ =~= st0.push(u));
            assert(visited@ =~= vis0.push(u));
            assert forall|i: int| 0 <= i < stack@.len() - 1 implies #[trigger] edge(g@, stack@[i], stack@[i + 1]) by {
                if i + 1 < st0.len() {
                    assert(edge(g@, st0[i], st0[i + 1]));
                }
            }
            assert forall|x: usize| #[trigger] done(visited@, stack@, x) implies done(vis0, st0, x) by {
                assert(x != u);
            }
        }
        if u < g.nodes.len() {
            let edges = &g.nodes[u].edges;
            let mut j: usize = 0;
            while j < edges.len()
                invariant
                    self.wf(),
                    g.wf(),
                    u < g@.len(),
                    edges@.to_set() == g@[u as int],
                    self.search_inv(g@, visited@, stack@, rank@, n@),
                    stack@ == st0.push(u),
                    visited@.len() > vis0.len(),
                    visited@.contains(u),
                    !vis0.contains(u),
                    vis0.len() + 1 <= self@.len(),
                    vis0 == old(visited)@,
                    st0 == old(stack)@,
                    mirrors(member@, self.nodes@),
                    mirrors(seen@, visited@),
                    mirrors(on_path@, stack@),
                    forall|x: usize| vis0.contains(x) ==> visited@.contains(x),
                    forall|x: usize| done(vis0, st0, x) ==> rank@[x] == rank0[x],
                    n@ >= n0,
                    j <= edges@.len(),
                    forall|k: int| 0 <= k < j && self@.contains(#[trigger] edges@[k])
                        ==> done(visited@, stack@, edges@[k]) && rank@[edges@[k]] < n@,
                decreases edges@.len() - j,
            {
                let v = edges[j];
                proof {
                    assert(edges@.contains(v));
                    assert(edge(g@, u, v));
                }
                if listed(member, &self.nodes, v) {
                    if !listed(seen, visited, v) {
                        let ghost vis1 = visited@;
                        let ghost st1 = stack@;
                        let ghost rank1 = rank@;
                        let ghost n1 = n@;
                        proof {
                            lemma_push_within(vis1, self@, v);
                            assert(!stack@.contains(v));
                        }
                        if self.dfs(g, v, member, visited, seen, stack, on_path, rank, n) {
                            proof {
                                assert(st1 == st0.push(u));
                                assert(st1.push(v) == st0.push(u).push(v));
                                lemma_extend_back_walk(g@, self@, st0, u, v);
                            }
                            return true;
                        }
                        proof {
                            lemma_push_contains(st0, u);
                            assert forall|x: usize| done(vis0, st0, x) implies rank@[x] == rank0[x] by {
                                assert(done(vis1, stack@, x));
                            }
                            assert forall|k: int| 0 <= k < j + 1 && self@.contains(#[trigger] edges@[k])
                                implies done(visited@, stack@, edges@[k]) && rank@[edges@[k]] < n@ by {
                                if k < j {
                                    assert(done(vis1, stack@, edges@[k]));
                                } else {
                                    assert(edges@[k] == v);
                                    assert(done(visited@, stack@, v));
                                }
                            }
                        }
                    } else if listed(on_path, stack, v) {
                        proof {
                            let k = choose|k: int| 0 <= k < stack@.len() && stack@[k] == v;
                            let p = stack@.subrange(k, stack@.len() as int);
                            assert forall|i: int| 0 <= i < p.len() implies self@.contains(#[trigger] p[i]) by {
                                assert(stack@.contains(stack@[k + i]));
                            }
                            assert forall|i: int| 0 <= i < p.len() - 1 implies #[trigger] edge(g@, p[i], p[i + 1]) by {
                                assert(edge(g@, stack@[k + i], stack@[k + i + 1]));
                            }
                            assert(is_cycle(g@, self@, p));
                            let w = seq![u, v];
                            assert(w[0] == u && w[1] == v);
                            assert(edge(g@, w[0], w[0int + 1]));
                            assert(is_walk(g@, self@, w));
                            assert(returns_to(g@, self@, u, st0.push(u)));
                        }
                        return true;
                    }
                }
                j = j + 1;
            }
        }
        let ghost vis2 = visited@;
        let ghost rank2 = rank@;
        let ghost n2 = n@;
        proof {
            assert(stack@.drop_last() =~= st0);
        }
        mark_pop(on_path, stack);
        *rank = Ghost(rank2.insert(u, n2));
        *n = Ghost(n2 + 1);
        proof {
            assert forall|x: usize| #[trigger] done(visited@, stack@, x) implies rank@.contains_key(x) && rank@[x] < n@
                && forall|v: usize| self@.contains(v) && #[trigger] edge(g@, x, v)
                    ==> done(visited@, stack@, v) && rank@[v] < rank@[x] by {
                if x == u {
                    assert forall|v: usize| self@.contains(v) && #[trigger] edge(g@, x, v)
                        implies done(visited@, stack@, v) && rank@[v] < rank@[x] by {
                        assert(g@[u as int].contains(v));
                        let k = choose|k: int| 0 <= k < g.nodes@[u as int].edges@.len() && g.nodes@[u as int].edges@[k] == v;
                        assert(self@.contains(g.nodes@[u as int].edges@[k]));
                    }
                } else {
                    assert(done(vis2, st0.push(u), x));
                }
            }
            assert forall|x: usize| done(vis0, st0, x) implies rank@[x] == rank0[x] by {
                assert(x != u);
            }
        }
        false
    }

    /// Whether the subgraph induced by the members holds a directed cycle.
    /// Only edges between members count; once the graph is gone there are
    /// no edges, and so no cycle. Each member is explored once, and
    /// membership, visited and on-path tests are flag lookups by identifier
    /// (a scan only for identifiers beyond the graph's nodes).
    pub fn detect_cycle(&self, store: &GraphStore) -> (r: bool)
        requires
            self.wf(),
            store.wf(),
        ensures
            r == has_cycle(self.edges_in(store), self@),
    {
        let slot = match self.graph {
            Some(s) => s,
            None => {
                proof {
                    lemma_no_edges_acyclic(self@);
                }
                return false;
            },
        };
        if slot >= store.graphs.len() || store.graphs[slot].is_none() {
            proof {
                lemma_no_edges_acyclic(self@);
            }
            return false;
        }
        let g = store.graphs[slot].as_ref().unwrap();
        let size = g.nodes.len();
        let member = flags_for(size, &self.nodes);
        let mut visited: Vec<usize> = Vec::new();
        let mut seen = flags_for(size, &visited);
        let mut stack: Vec<usize> = Vec::new();
        let mut on_path = flags_for(size, &stack);
        let mut rank: Ghost<Map<usize, nat>> = Ghost(Map::empty());
        let mut n: Ghost<nat> = Ghost(0);
        let mut i: usize = 0;
        while i < self.nodes.len()
            invariant
                self.wf(),
                g.wf(),
                g@ == self.edges_in(store),
                self.search_inv(g@, visited@, stack@, rank@, n@),
                stack@.len() == 0,
                mirrors(member@, self.nodes@),
                mirrors(seen@, visited@),
                mirrors(on_path@, stack@),
                i <= self.nodes@.len(),
                forall|k: int| 0 <= k < i ==> visited@.contains(#[trigger] self.nodes@[k]),
            decreases self.nodes@.len() - i,
        {
            let x = self.nodes[i];
            if !listed(&seen, &visited, x) {
                proof {
                    assert(self.nodes@.contains(x));
                }
                if self.dfs(g, x, &member, &mut visited, &mut seen, &mut stack, &mut on_path, &mut rank, &mut n) {
                    return true;
                }
            }
            i = i + 1;
        }
        proof {
            assert forall|x: usize| #[trigger] self@.contains(x) implies rank@.contains_key(x)
                && forall|v: usize| self@.contains(v) && #[trigger] edge(g@, x, v) ==> rank@[v] < rank@[x] by {
                let k = choose|k: int| 0 <= k < self.nodes@.len() && self.nodes@[k] == x;
                assert(visited@.contains(self.nodes@[k]));
                assert(done(visited@, stack@, x));
                assert forall|v: usize| self@.contains(v) && #[trigger] edge(g@, x, v) implies rank@[v] < rank@[x] by {}
            }
            lemma_ranked_acyclic(g@, self@, rank@);
        }
        false
    }
}

impl Default for SubGraph {
    /// An empty subgraph.
    fn default() -> (r: SubGraph)
        ensures
            r.wf(),
            r@ == Set::<usize>::empty(),
            r.bound() is None,
    {
        SubGraph::new()
    }
}

} // verus!
