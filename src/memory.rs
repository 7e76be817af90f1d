//! The in-memory storage backend: node and edge maps with adjacency indices.
use std::collections::HashMap;
use vstd::prelude::*;

use crate::error::DeepGraphError;
use crate::graph::{Edge, EdgeId, EdgeView, Node, NodeId, NodeView, PropertyValue, edge_wf, node_wf, prop_get};

verus! {

broadcast use vstd::std_specs::hash::group_hash_axioms;

/// Model of the whole graph: nodes and edges by identifier.
pub struct GraphView {
    pub nodes: Map<u128, NodeView>,
    pub edges: Map<u128, EdgeView>,
}

/// Every entity is stored under its own identifier and every edge joins two
/// stored nodes.
pub open spec fn graph_wf(g: GraphView) -> bool {
    &&& forall|n: u128| #[trigger] g.nodes.contains_key(n) ==> g.nodes[n].id == n && node_wf(g.nodes[n])
    &&& forall|e: u128| #[trigger] g.edges.contains_key(e) ==> {
        &&& g.edges[e].id == e
        &&& edge_wf(g.edges[e])
        &&& g.nodes.contains_key(g.edges[e].from)
        &&& g.nodes.contains_key(g.edges[e].to)
    }
}

/// The edges that remain once every edge touching node `n` is gone.
pub open spec fn detach(edges: Map<u128, EdgeView>, n: u128) -> Map<u128, EdgeView> {
    Map::new(|e: u128| edges.contains_key(e) && edges[e].from != n && edges[e].to != n, |e: u128| edges[e])
}

/// `r` lists, once each, exactly the nodes of `nodes` that `sel` accepts.
pub open spec fn lists_nodes(r: Seq<NodeView>, nodes: Map<u128, NodeView>, sel: spec_fn(NodeView) -> bool) -> bool {
    &&& forall|i: int| 0 <= i < r.len() ==> nodes.contains_key(#[trigger] r[i].id) && nodes[r[i].id] == r[i] && sel(r[i])
    &&& forall|n: u128| nodes.contains_key(n) && sel(#[trigger] nodes[n]) ==> exists|i: int| 0 <= i < r.len() && r[i].id == n
    &&& forall|i: int, j: int| 0 <= i < r.len() && 0 <= j < r.len() && i != j ==> r[i].id != r[j].id
}

/// `r` lists, once each, exactly the edges of `edges` that `sel` accepts.
pub open spec fn lists_edges(r: Seq<EdgeView>, edges: Map<u128, EdgeView>, sel: spec_fn(EdgeView) -> bool) -> bool {
    &&& forall|i: int| 0 <= i < r.len() ==> edges.contains_key(#[trigger] r[i].id) && edges[r[i].id] == r[i] && sel(r[i])
    &&& forall|e: u128| edges.contains_key(e) && sel(#[trigger] edges[e]) ==> exists|i: int| 0 <= i < r.len() && r[i].id == e
    &&& forall|i: int, j: int| 0 <= i < r.len() && 0 <= j < r.len() && i != j ==> r[i].id != r[j].id
}

pub open spec fn node_views(v: Seq<Node>) -> Seq<NodeView> {
    v.map_values(|n: Node| n@)
}

pub open spec fn edge_views(v: Seq<Edge>) -> Seq<EdgeView> {
    v.map_values(|e: Edge| e@)
}

/// Whether the adjacency map lists edge `e` under node `n`.
pub open spec fn adj(m: Map<u128, Vec<u128>>, n: u128, e: u128) -> bool {
    m.contains_key(n) && m[n]@.contains(e)
}

/// Every adjacency list is free of repeats.
pub open spec fn adj_distinct(m: Map<u128, Vec<u128>>) -> bool {
    forall|n: u128| #[trigger] m.contains_key(n) ==> m[n]@.no_duplicates()
}

/// The ids of `v` other than `x`.
fn without(v: &Vec<u128>, x: u128) -> (r: Vec<u128>)
    ensures
        forall|y: u128| r@.contains(y) <==> (v@.contains(y) && y != x),
        v@.no_duplicates() ==> r@.no_duplicates(),
{
    let mut r: Vec<u128> = Vec::new();
    let mut i: usize = 0;
    while i < v.len()
        invariant
            i <= v.len(),
            forall|y: u128| r@.contains(y) <==> (v@.subrange(0, i as int).contains(y) && y != x),
            v@.no_duplicates() ==> r@.no_duplicates(),
        decreases v.len() - i,
    {
        let ghost before = r@;
        if v[i] != x {
            r.push(v[i]);
            proof {
                if v@.no_duplicates() {
                    assert(!v@.subrange(0, i as int).contains(v@[i as int]));
                    assert(!before.contains(v@[i as int]));
                    assert forall|a: int, b: int| 0 <= a < r@.len() && 0 <= b < r@.len() && a != b implies r@[a] != r@[b] by {
                        if a < before.len() && b < before.len() {
                            assert(before[a] != before[b]);
                        } else if a == before.len() {
                            assert(before.contains(r@[b]) || b == a);
                        } else {
                            assert(before.contains(r@[a]) || b == a);
                        }
                    }
                }
            }
        }
        proof {
            let s1 = v@.subrange(0, i + 1);
            let s0 = v@.subrange(0, i as int);
            assert(s1 =~= s0.push(v@[i as int]));
            assert forall|y: u128| r@.contains(y) <==> (s1.contains(y) && y != x) by {
                if s1.contains(y) && y != x {
                    let j = choose|j: int| 0 <= j < s1.len() && s1[j] == y;
                    if j < i {
                        assert(s0[j] == y);
                        assert(s0.contains(y));
                        assert(before.contains(y));
                        let k = choose|k: int| 0 <= k < before.len() && before[k] == y;
                        assert(r@[k] == y);
                    } else {
                        assert(r@[r@.len() - 1] == y);
                    }
                    assert(r@.contains(y));
                }
                if r@.contains(y) {
                    let j = choose|j: int| 0 <= j < r@.len() && r@[j] == y;
                    if j < before.len() {
                        assert(before[j] == y);
                        assert(before.contains(y));
                        assert(s0.contains(y));
                        let k = choose|k: int| 0 <= k < s0.len() && s0[k] == y;
                        assert(s1[k] == y);
                    } else {
                        assert(s1[i as int] == y);
                    }
                    assert(s1.contains(y));
                }
            }
        }
        i = i + 1;
    }
    proof {
        assert(v@.subrange(0, v.len() as int) =~= v@);
    }
    r
}

/// Lists edge `e` under node `n`.
fn adj_add(m: &mut HashMap<u128, Vec<u128>>, n: u128, e: u128)
    requires
        adj_distinct(old(m)@),
        !adj(old(m)@, n, e),
    ensures
        adj_distinct(final(m)@),
        forall|a: u128, b: u128| adj(final(m)@, a, b) <==> (adj(old(m)@, a, b) || (a == n && b == e)),
{
    let mut v = match m.remove(&n) {
        Some(v) => v,
        None => Vec::new(),
    };
    let ghost before = v@;
    v.push(e);
    proof {
        assert forall|y: u128| v@.contains(y) <==> (before.contains(y) || y == e) by {
            if v@.contains(y) {
                let j = choose|j: int| 0 <= j < v@.len() && v@[j] == y;
                if j < before.len() {
                    assert(before[j] == y);
                }
            }
            if before.contains(y) {
                let j = choose|j: int| 0 <= j < before.len() && before[j] == y;
                assert(v@[j] == y);
            }
            if y == e {
                assert(v@[before.len() as int] == y);
            }
        }
        assert(!before.contains(e));
        assert forall|a: int, b: int| 0 <= a < v@.len() && 0 <= b < v@.len() && a != b implies v@[a] != v@[b] by {
            if a < before.len() && b < before.len() {
                assert(before[a] == v@[a] && before[b] == v@[b]);
            } else if a == before.len() {
                assert(before[b] == v@[b]);
            } else {
                assert(before[a] == v@[a]);
            }
        }
    }
    m.insert(n, v);
}

/// Stops listing edge `e` under node `n`.
fn adj_remove(m: &mut HashMap<u128, Vec<u128>>, n: u128, e: u128)
    requires
        adj_distinct(old(m)@),
    ensures
        adj_distinct(final(m)@),
        forall|a: u128, b: u128| adj(final(m)@, a, b) <==> (adj(old(m)@, a, b) && !(a == n && b == e)),
{
    match m.remove(&n) {
        Some(v) => {
            let w = without(&v, e);
            m.insert(n, w);
        },
        None => {},
    }
}

/// The ids of `v` other than `x`, for the ordered id lists.
fn remove_id(v: &mut Vec<u128>, x: u128)
    requires
        old(v)@.no_duplicates(),
    ensures
        final(v)@.no_duplicates(),
        forall|y: u128| final(v)@.contains(y) <==> (old(v)@.contains(y) && y != x),
{
    let w = without(v, x);
    *v = w;
}

/// An in-memory property graph.
pub struct MemoryStorage {
    nodes: HashMap<u128, Node>,
    edges: HashMap<u128, Edge>,
    outgoing: HashMap<u128, Vec<u128>>,
    incoming: HashMap<u128, Vec<u128>>,
    node_order: Vec<u128>,
    edge_order: Vec<u128>,
}

impl View for MemoryStorage {
    type V = GraphView;

    closed spec fn view(&self) -> GraphView {
        GraphView { nodes: self.nodes@.map_values(|n: Node| n@), edges: self.edges@.map_values(|e: Edge| e@) }
    }
}

impl MemoryStorage {
    /// The internal invariant: the model is well formed, the adjacency maps
    /// index exactly the edges by endpoint, and the id lists enumerate the maps.
    pub closed spec fn wf(&self) -> bool {
        &&& graph_wf(self@)
        &&& forall|n: u128, e: u128|
            #[trigger] adj(self.outgoing@, n, e) <==> (self.edges@.contains_key(e) && self.edges@[e]@.from == n)
        &&& forall|n: u128, e: u128|
            #[trigger] adj(self.incoming@, n, e) <==> (self.edges@.contains_key(e) && self.edges@[e]@.to == n)
        &&& adj_distinct(self.outgoing@)
        &&& adj_distinct(self.incoming@)
        &&& self.node_order@.no_duplicates()
        &&& forall|n: u128| #[trigger] self.node_order@.contains(n) <==> self.nodes@.contains_key(n)
        &&& self.edge_order@.no_duplicates()
        &&& forall|e: u128| #[trigger] self.edge_order@.contains(e) <==> self.edges@.contains_key(e)
    }

    /// An empty graph.
    pub fn new() -> (r: MemoryStorage)
        ensures
            r.wf(),
            r@.nodes.is_empty(),
            r@.edges.is_empty(),
    {
        let r = MemoryStorage {
            nodes: HashMap::new(),
            edges: HashMap::new(),
            outgoing: HashMap::new(),
            incoming: HashMap::new(),
            node_order: Vec::new(),
            edge_order: Vec::new(),
        };
        proof {
            assert(r@.nodes =~= Map::empty());
            assert(r@.edges =~= Map::empty());
        }
        r
    }

    proof fn lemma_view(&self)
        ensures
            forall|k: u128| #[trigger] self@.nodes.contains_key(k) <==> self.nodes@.contains_key(k),
            forall|k: u128| #[trigger] self@.edges.contains_key(k) <==> self.edges@.contains_key(k),
            forall|k: u128| self.nodes@.contains_key(k) ==> #[trigger] self@.nodes[k] == self.nodes@[k]@,
            forall|k: u128| self.edges@.contains_key(k) ==> #[trigger] self@.edges[k] == self.edges@[k]@,
    {
    }

    /// The edge ids stored in node `n`'s outgoing adjacency list.
    pub closed spec fn out_list(&self, n: u128) -> Set<u128> {
        Set::new(|e: u128| adj(self.outgoing@, n, e))
    }

    /// The edge ids stored in node `n`'s incoming adjacency list.
    pub closed spec fn in_list(&self, n: u128) -> Set<u128> {
        Set::new(|e: u128| adj(self.incoming@, n, e))
    }

    /// The stored adjacency lists hold exactly the edges by endpoint.
    pub proof fn lemma_adjacency_lists(&self, n: u128, e: u128)
        requires
            self.wf(),
        ensures
            self.out_list(n).contains(e) <==> (self@.edges.contains_key(e) && self@.edges[e].from == n),
            self.in_list(n).contains(e) <==> (self@.edges.contains_key(e) && self@.edges[e].to == n),
    {
        self.lemma_adj(n, e);
    }

    proof fn lemma_adj(&self, n: u128, e: u128)
        requires
            self.wf(),
        ensures
            adj(self.outgoing@, n, e) <==> (self@.edges.contains_key(e) && self@.edges[e].from == n),
            adj(self.incoming@, n, e) <==> (self@.edges.contains_key(e) && self@.edges[e].to == n),
    {
        self.lemma_view();
        assert(adj(self.outgoing@, n, e) <==> (self.edges@.contains_key(e) && self.edges@[e]@.from == n));
        assert(adj(self.incoming@, n, e) <==> (self.edges@.contains_key(e) && self.edges@[e]@.to == n));
    }

    /// A well-formed store has a well-formed model.
    pub proof fn lemma_wf(&self)
        requires
            self.wf(),
        ensures
            graph_wf(self@),
    {
    }

    /// Number of stored nodes.
    pub fn node_count(&self) -> (r: usize)
        requires
            self.wf(),
        ensures
            r == self@.nodes.len(),
    {
        proof {
            assert(self@.nodes.dom() =~= self.nodes@.dom());
            self.lemma_order_len();
        }
        self.node_order.len()
    }

    /// Number of stored edges.
    pub fn edge_count(&self) -> (r: usize)
        requires
            self.wf(),
        ensures
            r == self@.edges.len(),
    {
        proof {
            assert(self@.edges.dom() =~= self.edges@.dom());
            self.lemma_order_len();
        }
        self.edge_order.len()
    }

    proof fn lemma_order_len(&self)
        requires
            self.wf(),
        ensures
            self.node_order@.len() == self.nodes@.dom().len(),
            self.edge_order@.len() == self.edges@.dom().len(),
    {
        self.node_order@.unique_seq_to_set();
        self.edge_order@.unique_seq_to_set();
        assert(self.node_order@.to_set() =~= self.nodes@.dom());
        assert(self.edge_order@.to_set() =~= self.edges@.dom());
    }

    /// Stores a node under its identifier, replacing any node stored there.
    pub fn add_node(&mut self, node: Node) -> (r: Result<NodeId, DeepGraphError>)
        requires
            old(self).wf(),
            node_wf(node@),
        ensures
            final(self).wf(),
            r == Ok::<NodeId, DeepGraphError>(node.id),
            final(self)@.nodes == old(self)@.nodes.insert(node@.id, node@),
            final(self)@.edges == old(self)@.edges,
    {
        let id = node.id;
        if !self.nodes.contains_key(&id.0) {
            let ghost before = self.node_order@;
            self.node_order.push(id.0);
            proof {
                assert forall|a: int, b: int|
                    0 <= a < self.node_order@.len() && 0 <= b < self.node_order@.len() && a != b implies self.node_order@[a]
                    != self.node_order@[b] by {
                    if a < before.len() && b < before.len() {
                        assert(before[a] != before[b]);
                    } else if a == before.len() {
                        assert(before.contains(self.node_order@[b]));
                    } else {
                        assert(before.contains(self.node_order@[a]));
                    }
                }
                assert forall|n: u128| #[trigger] self.node_order@.contains(n) <==> (before.contains(n) || n == id.0) by {
                    if self.node_order@.contains(n) {
                        let j = choose|j: int| 0 <= j < self.node_order@.len() && self.node_order@[j] == n;
                        if j < before.len() {
                            assert(before[j] == n);
                        }
                    }
                    if before.contains(n) {
                        let j = choose|j: int| 0 <= j < before.len() && before[j] == n;
                        assert(self.node_order@[j] == n);
                    }
                    if n == id.0 {
                        assert(self.node_order@[before.len() as int] == n);
                    }
                }
            }
        }
        self.nodes.insert(id.0, node);
        proof {
            assert(self@.nodes =~= old(self)@.nodes.insert(id.0, old(self)@.nodes.insert(id.0, self.nodes@[id.0]@)[id.0]));
            assert(self@.edges =~= old(self)@.edges);
        }
        Ok(id)
    }

    /// The node stored under `id`.
    pub fn get_node(&self, id: NodeId) -> (r: Result<Node, DeepGraphError>)
        requires
            self.wf(),
        ensures
            match r {
                Ok(n) => self@.nodes.contains_key(id.0) && n@ == self@.nodes[id.0],
                Err(e) => !self@.nodes.contains_key(id.0) && e == DeepGraphError::NodeNotFound(id.0),
            },
    {
        match self.nodes.get(&id.0) {
            Some(n) => Ok(n.deep_clone()),
            None => Err(DeepGraphError::NodeNotFound(id.0)),
        }
    }

    /// Replaces a stored node.
    pub fn update_node(&mut self, node: Node) -> (r: Result<(), DeepGraphError>)
        requires
            old(self).wf(),
            node_wf(node@),
        ensures
            final(self).wf(),
            final(self)@.edges == old(self)@.edges,
            old(self)@.nodes.contains_key(node@.id) ==> r is Ok && final(self)@.nodes == old(self)@.nodes.insert(
                node@.id,
                node@,
            ),
            !old(self)@.nodes.contains_key(node@.id) ==> r == Err::<(), DeepGraphError>(
                DeepGraphError::NodeNotFound(node@.id),
            ) && final(self)@ == old(self)@,
    {
        if self.nodes.contains_key(&node.id.0) {
            let _ = self.add_node(node);
            Ok(())
        } else {
            Err(DeepGraphError::NodeNotFound(node.id.0))
        }
    }

    /// The edge stored under `id`.
    pub fn get_edge(&self, id: EdgeId) -> (r: Result<Edge, DeepGraphError>)
        requires
            self.wf(),
        ensures
            match r {
                Ok(e) => self@.edges.contains_key(id.0) && e@ == self@.edges[id.0],
                Err(e) => !self@.edges.contains_key(id.0) && e == DeepGraphError::EdgeNotFound(id.0),
            },
    {
        match self.edges.get(&id.0) {
            Some(e) => Ok(e.deep_clone()),
            None => Err(DeepGraphError::EdgeNotFound(id.0)),
        }
    }

    /// Removes an edge and its adjacency entries.
    pub fn delete_edge(&mut self, id: EdgeId) -> (r: Result<(), DeepGraphError>)
        requires
            old(self).wf(),
        ensures
            final(self).wf(),
            final(self)@.nodes == old(self)@.nodes,
            old(self)@.edges.contains_key(id.0) ==> r is Ok && final(self)@.edges == old(self)@.edges.remove(id.0),
            !old(self)@.edges.contains_key(id.0) ==> r == Err::<(), DeepGraphError>(DeepGraphError::EdgeNotFound(id.0))
                && final(self)@ == old(self)@,
    {
        let e = id.0;
        match self.edges.remove(&e) {
            Some(edge) => {
                let from = edge.from.0;
                let to = edge.to.0;
                adj_remove(&mut self.outgoing, from, e);
                adj_remove(&mut self.incoming, to, e);
                remove_id(&mut self.edge_order, e);
                proof {
                    assert(self@.edges =~= old(self)@.edges.remove(e));
                    assert(self@.nodes =~= old(self)@.nodes);
                    assert forall|n: u128, e2: u128|
                        #[trigger] adj(self.outgoing@, n, e2) <==> (self.edges@.contains_key(e2) && self.edges@[e2]@.from
                            == n) by {
                        assert(adj(old(self).outgoing@, n, e2) <==> (old(self).edges@.contains_key(e2)
                            && old(self).edges@[e2]@.from == n));
                    }
                    assert forall|n: u128, e2: u128|
                        #[trigger] adj(self.incoming@, n, e2) <==> (self.edges@.contains_key(e2) && self.edges@[e2]@.to
                            == n) by {
                        assert(adj(old(self).incoming@, n, e2) <==> (old(self).edges@.contains_key(e2)
                            && old(self).edges@[e2]@.to == n));
                    }
                }
                Ok(())
            },
            None => {
                proof {
                    assert(self.edges@ =~= old(self).edges@);
                }
                Err(DeepGraphError::EdgeNotFound(e))
            },
        }
    }

    /// Stores an edge between two stored nodes, replacing any edge stored
    /// under the same identifier.
    pub fn add_edge(&mut self, edge: Edge) -> (r: Result<EdgeId, DeepGraphError>)
        requires
            old(self).wf(),
            edge_wf(edge@),
        ensures
            final(self).wf(),
            final(self)@.nodes == old(self)@.nodes,
            !old(self)@.nodes.contains_key(edge@.from) ==> r == Err::<EdgeId, DeepGraphError>(
                DeepGraphError::NodeNotFound(edge@.from),
            ) && final(self)@ == old(self)@,
            old(self)@.nodes.contains_key(edge@.from) && !old(self)@.nodes.contains_key(edge@.to) ==> r == Err::<
                EdgeId,
                DeepGraphError,
            >(DeepGraphError::NodeNotFound(edge@.to)) && final(self)@ == old(self)@,
            old(self)@.nodes.contains_key(edge@.from) && old(self)@.nodes.contains_key(edge@.to) ==> r == Ok::<
                EdgeId,
                DeepGraphError,
            >(edge.id) && final(self)@.edges == old(self)@.edges.insert(edge@.id, edge@),
    {
        let eid = edge.id;
        let e = edge.id.0;
        let from = edge.from.0;
        let to = edge.to.0;
        if !self.nodes.contains_key(&from) {
            return Err(DeepGraphError::NodeNotFound(from));
        }
        if !self.nodes.contains_key(&to) {
            return Err(DeepGraphError::NodeNotFound(to));
        }
        if self.edges.contains_key(&e) {
            proof {
                self.lemma_view();
            }
            let _ = self.delete_edge(eid);
            proof {
                self.lemma_view();
                assert(!self@.edges.contains_key(e));
                assert(!self.edges@.contains_key(e));
            }
        }
        let ghost mid = self@;
        let ghost mid_order = self.edge_order@;
        let ghost mid_edges = self.edges@;
        proof {
            self.lemma_view();
            assert(!self.edges@.contains_key(e));
            assert(!adj(self.outgoing@, from, e));
            assert(!adj(self.incoming@, to, e));
            assert(!mid_order.contains(e));
        }
        adj_add(&mut self.outgoing, from, e);
        adj_add(&mut self.incoming, to, e);
        self.edge_order.push(e);
        self.edges.insert(e, edge);
        proof {
            self.lemma_view();
            old(self).lemma_view();
            assert(self@.edges =~= old(self)@.edges.insert(e, self.edges@[e]@));
            assert(self@.edges =~= mid.edges.insert(e, self.edges@[e]@));
            assert(self@.nodes =~= old(self)@.nodes);
            assert forall|a: int, b: int|
                0 <= a < self.edge_order@.len() && 0 <= b < self.edge_order@.len() && a != b implies self.edge_order@[a]
                != self.edge_order@[b] by {
                if a < mid_order.len() && b < mid_order.len() {
                    assert(mid_order[a] != mid_order[b]);
                } else if a == mid_order.len() {
                    assert(mid_order.contains(self.edge_order@[b]));
                } else {
                    assert(mid_order.contains(self.edge_order@[a]));
                }
            }
            assert forall|x: u128| #[trigger] self.edge_order@.contains(x) <==> self.edges@.contains_key(x) by {
                if self.edge_order@.contains(x) {
                    let j = choose|j: int| 0 <= j < self.edge_order@.len() && self.edge_order@[j] == x;
                    if j < mid_order.len() {
                        assert(mid_order[j] == x);
                        assert(mid_order.contains(x));
                        assert(mid_edges.contains_key(x));
                    }
                }
                if x != e && self.edges@.contains_key(x) {
                    assert(mid_order.contains(x));
                    let j = choose|j: int| 0 <= j < mid_order.len() && mid_order[j] == x;
                    assert(self.edge_order@[j] == x);
                }
                if x == e {
                    assert(self.edge_order@[mid_order.len() as int] == x);
                }
            }
        }
        Ok(eid)
    }

    /// Replaces a stored edge.
    pub fn update_edge(&mut self, edge: Edge) -> (r: Result<(), DeepGraphError>)
        requires
            old(self).wf(),
            edge_wf(edge@),
        ensures
            final(self).wf(),
            final(self)@.nodes == old(self)@.nodes,
            !old(self)@.edges.contains_key(edge@.id) ==> r == Err::<(), DeepGraphError>(
                DeepGraphError::EdgeNotFound(edge@.id),
            ) && final(self)@ == old(self)@,
            old(self)@.edges.contains_key(edge@.id) && !old(self)@.nodes.contains_key(edge@.from) ==> r == Err::<
                (),
                DeepGraphError,
            >(DeepGraphError::NodeNotFound(edge@.from)) && final(self)@ == old(self)@,
            old(self)@.edges.contains_key(edge@.id) && old(self)@.nodes.contains_key(edge@.from)
                && !old(self)@.nodes.contains_key(edge@.to) ==> r == Err::<(), DeepGraphError>(
                DeepGraphError::NodeNotFound(edge@.to),
            ) && final(self)@ == old(self)@,
            old(self)@.edges.contains_key(edge@.id) && old(self)@.nodes.contains_key(edge@.from)
                && old(self)@.nodes.contains_key(edge@.to) ==> r is Ok && final(self)@.edges == old(self)@.edges.insert(
                edge@.id,
                edge@,
            ),
    {
        if !self.edges.contains_key(&edge.id.0) {
            return Err(DeepGraphError::EdgeNotFound(edge.id.0));
        }
        match self.add_edge(edge) {
            Ok(_) => Ok(()),
            Err(e) => Err(e),
        }
    }

    /// Removes a node after removing every edge that touches it.
    pub fn delete_node(&mut self, id: NodeId) -> (r: Result<(), DeepGraphError>)
        requires
            old(self).wf(),
        ensures
            final(self).wf(),
            old(self)@.nodes.contains_key(id.0) ==> r is Ok && final(self)@.nodes == old(self)@.nodes.remove(id.0)
                && final(self)@.edges == detach(old(self)@.edges, id.0),
            !old(self)@.nodes.contains_key(id.0) ==> r == Err::<(), DeepGraphError>(DeepGraphError::NodeNotFound(id.0))
                && final(self)@ == old(self)@,
    {
        let n = id.0;
        if !self.nodes.contains_key(&n) {
            return Err(DeepGraphError::NodeNotFound(n));
        }
        let mut incident: Vec<u128> = Vec::new();
        match self.outgoing.get(&n) {
            Some(v) => {
                let mut i: usize = 0;
                while i < v.len()
                    invariant
                        self == old(self),
                        self.wf(),
                        self.outgoing@.contains_key(n) && *v == self.outgoing@[n],
                        i <= v.len(),
                        forall|j: int| 0 <= j < incident@.len() ==> old(self)@.edges.contains_key(#[trigger] incident@[j]) && (old(self)@.edges[incident@[j]].from == n || old(self)@.edges[incident@[j]].to == n),
                        forall|e: u128| v@.subrange(0, i as int).contains(e) ==> incident@.contains(e),
                    decreases v.len() - i,
                {
                    proof {
                        assert(adj(self.outgoing@, n, v@[i as int]));
                        self.lemma_adj(n, v@[i as int]);
                    }
                    let ghost before = incident@;
                    incident.push(v[i]);
                    proof {
                        let s1 = v@.subrange(0, i + 1);
                        let s0 = v@.subrange(0, i as int);
                        assert(s1 =~= s0.push(v@[i as int]));
                        assert forall|e: u128| s1.contains(e) implies incident@.contains(e) by {
                            if e == v@[i as int] {
                                assert(incident@[before.len() as int] == e);
                            } else {
                                let j = choose|j: int| 0 <= j < s1.len() && s1[j] == e;
                                assert(s0[j] == e);
                                assert(s0.contains(e));
                                assert(before.contains(e));
                                let k = choose|k: int| 0 <= k < before.len() && before[k] == e;
                                assert(incident@[k] == e);
                            }
                        }
                    }
                    i = i + 1;
                }
                proof {
                    assert(v@.subrange(0, v.len() as int) =~= v@);
                    assert forall|e: u128| adj(self.outgoing@, n, e) implies incident@.contains(e) by {
                        assert(v@.subrange(0, v.len() as int).contains(e));
                    }
                }
            },
            None => {
                proof {
                    assert forall|e: u128| adj(self.outgoing@, n, e) implies incident@.contains(e) by {}
                }
            },
        }
        let ghost k0 = incident@;
        match self.incoming.get(&n) {
            Some(v) => {
                let mut i: usize = 0;
                while i < v.len()
                    invariant
                        self == old(self),
                        self.wf(),
                        self.incoming@.contains_key(n) && *v == self.incoming@[n],
                        i <= v.len(),
                        incident@.len() >= k0.len(),
                        forall|j: int| 0 <= j < k0.len() ==> incident@[j] == k0[j],
                        forall|j: int| 0 <= j < incident@.len() ==> old(self)@.edges.contains_key(#[trigger] incident@[j]) && (old(self)@.edges[incident@[j]].from == n || old(self)@.edges[incident@[j]].to == n),
                        forall|e: u128| v@.subrange(0, i as int).contains(e) ==> incident@.contains(e),
                    decreases v.len() - i,
                {
                    proof {
                        assert(adj(self.incoming@, n, v@[i as int]));
                        self.lemma_adj(n, v@[i as int]);
                    }
                    let ghost before = incident@;
                    incident.push(v[i]);
                    proof {
                        let s1 = v@.subrange(0, i + 1);
                        let s0 = v@.subrange(0, i as int);
                        assert(s1 =~= s0.push(v@[i as int]));
                        assert forall|e: u128| s1.contains(e) implies incident@.contains(e) by {
                            if e == v@[i as int] {
                                assert(incident@[before.len() as int] == e);
                            } else {
                                let j = choose|j: int| 0 <= j < s1.len() && s1[j] == e;
                                assert(s0[j] == e);
                                assert(s0.contains(e));
                                assert(before.contains(e));
                                let k = choose|k: int| 0 <= k < before.len() && before[k] == e;
                                assert(incident@[k] == e);
                            }
                        }
                    }
                    i = i + 1;
                }
                proof {
                    assert(v@.subrange(0, v.len() as int) =~= v@);
                    assert forall|e: u128| adj(self.incoming@, n, e) implies incident@.contains(e) by {
                        assert(v@.subrange(0, v.len() as int).contains(e));
                    }
                }
            },
            None => {
                proof {
                    assert forall|e: u128| adj(self.incoming@, n, e) implies incident@.contains(e) by {}
                }
            },
        }
        proof {
            old(self).lemma_view();
            assert forall|e: u128| old(self)@.edges.contains_key(e) && (old(self)@.edges[e].from == n || old(self)@.edges[e].to == n)
                implies incident@.contains(e) by {
                if old(self)@.edges[e].from == n {
                    old(self).lemma_adj(n, e);
                    assert(k0.contains(e));
                    let j = choose|j: int| 0 <= j < k0.len() && k0[j] == e;
                    assert(incident@[j] == e);
                } else {
                    old(self).lemma_adj(n, e);
                }
            }
            assert forall|j: int| 0 <= j < incident@.len() implies old(self)@.edges[#[trigger] incident@[j]].from == n
                || old(self)@.edges[incident@[j]].to == n by {
            }
        }
        let mut i: usize = 0;
        while i < incident.len()
            invariant
                self.wf(),
                self@.nodes == old(self)@.nodes,
                i <= incident@.len(),
                forall|j: int| 0 <= j < incident@.len() ==> {
                    let e = #[trigger] incident@[j];
                    old(self)@.edges.contains_key(e) && (old(self)@.edges[e].from == n || old(self)@.edges[e].to == n)
                },
                forall|e: u128| old(self)@.edges.contains_key(e) && (old(self)@.edges[e].from == n || old(self)@.edges[e].to == n)
                    ==> incident@.contains(e),
                forall|e: u128| #[trigger] self@.edges.contains_key(e) ==> old(self)@.edges.contains_key(e) && self@.edges[e] == old(self)@.edges[e],
                forall|e: u128| old(self)@.edges.contains_key(e) && !incident@.subrange(0, i as int).contains(e)
                    ==> #[trigger] self@.edges.contains_key(e),
                forall|e: u128| incident@.subrange(0, i as int).contains(e) ==> !#[trigger] self@.edges.contains_key(e),
            decreases incident.len() - i,
        {
            let e = incident[i];
            let _ = self.delete_edge(EdgeId(e));
            proof {
                let s1 = incident@.subrange(0, i + 1);
                let s0 = incident@.subrange(0, i as int);
                assert(s1 =~= s0.push(e));
                assert forall|x: u128| s1.contains(x) implies !self@.edges.contains_key(x) by {
                    if x != e {
                        let j = choose|j: int| 0 <= j < s1.len() && s1[j] == x;
                        assert(s0[j] == x);
                    }
                }
                assert forall|x: u128| old(self)@.edges.contains_key(x) && !s1.contains(x) implies self@.edges.contains_key(x) by {
                    if s0.contains(x) {
                        let j = choose|j: int| 0 <= j < s0.len() && s0[j] == x;
                        assert(s1[j] == x);
                    }
                    assert(x != e) by {
                        assert(s1[i as int] == e);
                    }
                }
            }
            i = i + 1;
        }
        proof {
            assert(incident@.subrange(0, incident@.len() as int) =~= incident@);
            self.lemma_view();
            assert forall|e: u128| #[trigger] self@.edges.contains_key(e) implies self@.edges[e].from != n
                && self@.edges[e].to != n by {
                if self@.edges[e].from == n || self@.edges[e].to == n {
                    assert(incident@.contains(e));
                }
            }
            assert forall|e: u128| detach(old(self)@.edges, n).contains_key(e) <==> #[trigger] self@.edges.contains_key(e) by {
                if detach(old(self)@.edges, n).contains_key(e) {
                    if incident@.contains(e) {
                        let j = choose|j: int| 0 <= j < incident@.len() && incident@[j] == e;
                        assert(old(self)@.edges[incident@[j]].from == n || old(self)@.edges[incident@[j]].to == n);
                    }
                }
            }
            assert(self@.edges =~= detach(old(self)@.edges, n));
        }
        let ghost st = *self;
        self.nodes.remove(&n);
        self.outgoing.remove(&n);
        self.incoming.remove(&n);
        remove_id(&mut self.node_order, n);
        proof {
            self.lemma_view();
            assert(self@.nodes =~= old(self)@.nodes.remove(n));
            assert(self@.edges =~= st@.edges);
            assert forall|a: u128, b: u128| #[trigger] adj(self.outgoing@, a, b) <==> (self.edges@.contains_key(b)
                && self.edges@[b]@.from == a) by {
                st.lemma_adj(a, b);
                if self.edges@.contains_key(b) {
                    assert(self@.edges.contains_key(b));
                    assert(self@.edges[b].from != n);
                }
            }
            assert forall|a: u128, b: u128| #[trigger] adj(self.incoming@, a, b) <==> (self.edges@.contains_key(b)
                && self.edges@[b]@.to == a) by {
                st.lemma_adj(a, b);
                if self.edges@.contains_key(b) {
                    assert(self@.edges.contains_key(b));
                    assert(self@.edges[b].to != n);
                }
            }
            assert forall|e: u128| #[trigger] self@.edges.contains_key(e) implies self@.nodes.contains_key(self@.edges[e].from)
                && self@.nodes.contains_key(self@.edges[e].to) by {
                assert(old(self)@.edges.contains_key(e));
            }
        }
        Ok(())
    }

    /// Copies of the stored nodes that the filter accepts, in id-list order.
    fn select_nodes(&self, f: &NodeFilter) -> (r: Vec<Node>)
        requires
            self.wf(),
        ensures
            lists_nodes(node_views(r@), self@.nodes, |n: NodeView| f.accepts(n)),
    {
        let mut r: Vec<Node> = Vec::new();
        let mut i: usize = 0;
        proof {
            self.lemma_view();
        }
        while i < self.node_order.len()
            invariant
                self.wf(),
                i <= self.node_order@.len(),
                forall|k: int| 0 <= k < r@.len() ==> {
                    &&& self@.nodes.contains_key(#[trigger] r@[k]@.id)
                    &&& self@.nodes[r@[k]@.id] == r@[k]@
                    &&& f.accepts(r@[k]@)
                    &&& self.node_order@.subrange(0, i as int).contains(r@[k]@.id)
                },
                forall|n: u128| #[trigger] self.node_order@.subrange(0, i as int).contains(n) && f.accepts(self@.nodes[n])
                    ==> exists|k: int| 0 <= k < r@.len() && r@[k]@.id == n,
                forall|a: int, b: int| 0 <= a < r@.len() && 0 <= b < r@.len() && a != b ==> r@[a]@.id != r@[b]@.id,
                forall|k: u128| #[trigger] self@.nodes.contains_key(k) <==> self.nodes@.contains_key(k),
                forall|k: u128| self.nodes@.contains_key(k) ==> #[trigger] self@.nodes[k] == self.nodes@[k]@,
            decreases self.node_order.len() - i,
        {
            let id = self.node_order[i];
            let ghost before = r@;
            let s0 = Ghost(self.node_order@.subrange(0, i as int));
            let s1 = Ghost(self.node_order@.subrange(0, i + 1));
            proof {
                assert(s1@ =~= s0@.push(id));
                assert(self.node_order@.contains(id));
                assert(!s0@.contains(id)) by {
                    if s0@.contains(id) {
                        let j = choose|j: int| 0 <= j < s0@.len() && s0@[j] == id;
                        assert(self.node_order@[j] == self.node_order@[i as int]);
                    }
                }
            }
            match self.nodes.get(&id) {
                Some(node) => {
                    proof {
                        assert(self.nodes@.contains_key(id));
                        assert(self@.nodes.contains_key(id));
                        assert(self@.nodes[id] == node@);
                        assert(node@.id == id);
                    }
                    if f.matches(node) {
                        r.push(node.deep_clone());
                        proof {
                            assert(r@[r@.len() - 1]@ == node@);
                        }
                    }
                },
                None => {
                    proof {
                        assert(!self@.nodes.contains_key(id));
                    }
                },
            }
            proof {
                assert forall|k: int| 0 <= k < r@.len() implies s1@.contains(#[trigger] r@[k]@.id) by {
                    if k < before.len() {
                        assert(r@[k] == before[k]);
                        assert(s0@.contains(before[k]@.id));
                        let j = choose|j: int| 0 <= j < s0@.len() && s0@[j] == r@[k]@.id;
                        assert(s1@[j] == r@[k]@.id);
                    } else {
                        assert(s1@[i as int] == id);
                    }
                }
                assert forall|k: int| 0 <= k < r@.len() implies {
                    &&& self@.nodes.contains_key(#[trigger] r@[k]@.id)
                    &&& self@.nodes[r@[k]@.id] == r@[k]@
                    &&& f.accepts(r@[k]@)
                } by {
                    if k < before.len() {
                        assert(r@[k] == before[k]);
                    }
                }
                assert forall|n: u128| #[trigger] s1@.contains(n) && f.accepts(self@.nodes[n]) implies exists|k: int|
                    0 <= k < r@.len() && r@[k]@.id == n by {
                    if n == id {
                        assert(r@[r@.len() - 1]@.id == n);
                    } else {
                        let j = choose|j: int| 0 <= j < s1@.len() && s1@[j] == n;
                        assert(s0@[j] == n);
                        assert(s0@.contains(n));
                        let k = choose|k: int| 0 <= k < before.len() && before[k]@.id == n;
                        assert(r@[k] == before[k]);
                    }
                }
            }
            i = i + 1;
        }
        proof {
            let all = self.node_order@.subrange(0, self.node_order@.len() as int);
            assert(all =~= self.node_order@);
            let rv = node_views(r@);
            assert forall|k: int| 0 <= k < rv.len() implies #[trigger] rv[k] == r@[k]@ by {}
            assert forall|n: u128| self@.nodes.contains_key(n) && f.accepts(#[trigger] self@.nodes[n]) implies exists|k: int|
                0 <= k < rv.len() && rv[k].id == n by {
                assert(self.nodes@.contains_key(n));
                assert(self.node_order@.contains(n));
                assert(all.contains(n));
                let k = choose|k: int| 0 <= k < r@.len() && r@[k]@.id == n;
                assert(rv[k] == r@[k]@);
            }
        }
        r
    }

    /// Every node that carries `label`.
    pub fn get_nodes_by_label(&self, label: &str) -> (r: Vec<Node>)
        requires
            self.wf(),
        ensures
            lists_nodes(node_views(r@), self@.nodes, |n: NodeView| n.labels.contains(label@)),
    {
        let r = self.select_nodes(&NodeFilter::Label(label));
        proof {
            assert((|n: NodeView| NodeFilter::Label(label).accepts(n)) =~= (|n: NodeView| n.labels.contains(label@)));
        }
        r
    }

    /// Every node whose property `key` equals `value`.
    pub fn get_nodes_by_property(&self, key: &str, value: &PropertyValue) -> (r: Vec<Node>)
        requires
            self.wf(),
        ensures
            lists_nodes(node_views(r@), self@.nodes, |n: NodeView| prop_get(n.props, key@) == Some(value@)),
    {
        let r = self.select_nodes(&NodeFilter::Property(key, value));
        proof {
            assert((|n: NodeView| NodeFilter::Property(key, value).accepts(n)) =~= (|n: NodeView| prop_get(n.props, key@) == Some(value@)));
        }
        r
    }

    /// Every stored node.
    pub fn get_all_nodes(&self) -> (r: Vec<Node>)
        requires
            self.wf(),
        ensures
            lists_nodes(node_views(r@), self@.nodes, |n: NodeView| true),
    {
        let r = self.select_nodes(&NodeFilter::All);
        proof {
            assert((|n: NodeView| NodeFilter::All.accepts(n)) =~= (|n: NodeView| true));
        }
        r
    }

    /// Copies of the stored edges under `ids`, in that order.
    fn edges_of_ids(&self, ids: &Vec<u128>) -> (r: Vec<Edge>)
        requires
            self.wf(),
            forall|k: int| 0 <= k < ids@.len() ==> self@.edges.contains_key(#[trigger] ids@[k]),
        ensures
            r@.len() == ids@.len(),
            forall|k: int| 0 <= k < ids@.len() ==> #[trigger] r@[k]@ == self@.edges[ids@[k]],
    {
        let mut r: Vec<Edge> = Vec::new();
        let mut i: usize = 0;
        proof {
            self.lemma_view();
        }
        while i < ids.len()
            invariant
                self.wf(),
                i <= ids@.len(),
                r@.len() == i,
                forall|k: int| 0 <= k < ids@.len() ==> self@.edges.contains_key(#[trigger] ids@[k]),
                forall|k: int| 0 <= k < i ==> #[trigger] r@[k]@ == self@.edges[ids@[k]],
                forall|k: u128| #[trigger] self@.edges.contains_key(k) <==> self.edges@.contains_key(k),
                forall|k: u128| self.edges@.contains_key(k) ==> #[trigger] self@.edges[k] == self.edges@[k]@,
            decreases ids.len() - i,
        {
            let id = ids[i];
            proof {
                assert(self@.edges.contains_key(ids@[i as int]));
            }
            match self.edges.get(&id) {
                Some(e) => {
                    r.push(e.deep_clone());
                },
                None => {
                    proof {
                        assert(false);
                    }
                },
            }
            i = i + 1;
        }
        r
    }

    /// The listing of `ids` is the listing of the edges that `sel` accepts.
    proof fn lemma_ids_list(&self, ids: Seq<u128>, r: Seq<Edge>, sel: spec_fn(EdgeView) -> bool)
        requires
            ids.no_duplicates(),
            r.len() == ids.len(),
            forall|k: int| 0 <= k < ids.len() ==> self@.edges.contains_key(#[trigger] ids[k]) && sel(self@.edges[ids[k]]),
            forall|k: int| 0 <= k < ids.len() ==> #[trigger] r[k]@ == self@.edges[ids[k]],
            forall|e: u128| self@.edges.contains_key(e) && sel(#[trigger] self@.edges[e]) ==> ids.contains(e),
            graph_wf(self@),
        ensures
            lists_edges(edge_views(r), self@.edges, sel),
    {
        let rv = edge_views(r);
        assert forall|k: int| 0 <= k < rv.len() implies #[trigger] rv[k] == self@.edges[ids[k]] && rv[k].id == ids[k] by {
            assert(rv[k] == r[k]@);
        }
        assert forall|e: u128| self@.edges.contains_key(e) && sel(#[trigger] self@.edges[e]) implies exists|k: int|
            0 <= k < rv.len() && rv[k].id == e by {
            let k = choose|k: int| 0 <= k < ids.len() && ids[k] == e;
            assert(rv[k] == self@.edges[ids[k]]);
        }
        assert forall|a: int, b: int| 0 <= a < rv.len() && 0 <= b < rv.len() && a != b implies rv[a].id != rv[b].id by {
            assert(rv[a] == self@.edges[ids[a]]);
            assert(rv[b] == self@.edges[ids[b]]);
        }
        assert forall|k: int| 0 <= k < rv.len() implies self@.edges.contains_key(#[trigger] rv[k].id) && self@.edges[rv[k].id]
            == rv[k] && sel(rv[k]) by {
            assert(rv[k] == self@.edges[ids[k]]);
        }
    }

    /// Every stored edge.
    pub fn get_all_edges(&self) -> (r: Vec<Edge>)
        requires
            self.wf(),
        ensures
            lists_edges(edge_views(r@), self@.edges, |e: EdgeView| true),
    {
        proof {
            self.lemma_view();
            assert forall|k: int| 0 <= k < self.edge_order@.len() implies self@.edges.contains_key(
                #[trigger] self.edge_order@[k],
            ) by {
                assert(self.edge_order@.contains(self.edge_order@[k]));
            }
        }
        let r = self.edges_of_ids(&self.edge_order);
        proof {
            self.lemma_ids_list(self.edge_order@, r@, |e: EdgeView| true);
        }
        r
    }

    /// Every edge of relationship type `rel_type`.
    pub fn get_edges_by_type(&self, rel_type: &str) -> (r: Vec<Edge>)
        requires
            self.wf(),
        ensures
            lists_edges(edge_views(r@), self@.edges, |e: EdgeView| e.rel_type == rel_type@),
    {
        let ghost sel = |e: EdgeView| e.rel_type == rel_type@;
        let mut ids: Vec<u128> = Vec::new();
        let mut i: usize = 0;
        proof {
            self.lemma_view();
        }
        while i < self.edge_order.len()
            invariant
                self.wf(),
                i <= self.edge_order@.len(),
                sel == (|e: EdgeView| e.rel_type == rel_type@),
                ids@.no_duplicates(),
                forall|k: int| 0 <= k < ids@.len() ==> self@.edges.contains_key(#[trigger] ids@[k]) && sel(self@.edges[ids@[k]])
                    && self.edge_order@.subrange(0, i as int).contains(ids@[k]),
                forall|e: u128| #[trigger] self.edge_order@.subrange(0, i as int).contains(e) && self@.edges.contains_key(e) && sel(self@.edges[e])
                    ==> ids@.contains(e),
                forall|k: u128| #[trigger] self@.edges.contains_key(k) <==> self.edges@.contains_key(k),
                forall|k: u128| self.edges@.contains_key(k) ==> #[trigger] self@.edges[k] == self.edges@[k]@,
            decreases self.edge_order.len() - i,
        {
            let id = self.edge_order[i];
            let ghost s0 = self.edge_order@.subrange(0, i as int);
            let ghost s1 = self.edge_order@.subrange(0, i + 1);
            let ghost before = ids@;
            proof {
                assert(s1 =~= s0.push(id));
                assert(self.edge_order@.contains(id));
                assert(!s0.contains(id)) by {
                    if s0.contains(id) {
                        let j = choose|j: int| 0 <= j < s0.len() && s0[j] == id;
                        assert(self.edge_order@[j] == self.edge_order@[i as int]);
                    }
                }
            }
            match self.edges.get(&id) {
                Some(e) => {
                    proof {
                        assert(self@.edges.contains_key(id));
                        assert(self@.edges[id] == e@);
                    }
                    if crate::graph::str_eq(e.relationship_type.as_str(), rel_type) {
                        ids.push(id);
                        proof {
                            assert(!before.contains(id)) by {
                                if before.contains(id) {
                                    let j = choose|j: int| 0 <= j < before.len() && before[j] == id;
                                    assert(s0.contains(before[j]));
                                }
                            }
                            assert forall|a: int, b: int| 0 <= a < ids@.len() && 0 <= b < ids@.len() && a != b implies ids@[a] != ids@[b] by {
                                if a < before.len() && b < before.len() {
                                } else if a == before.len() {
                                    assert(before.contains(ids@[b]) || b == a);
                                } else {
                                    assert(before.contains(ids@[a]) || b == a);
                                }
                            }
                        }
                    }
                },
                None => {
                    proof {
                        assert(!self@.edges.contains_key(id));
                    }
                },
            }
            proof {
                assert forall|k: int| 0 <= k < ids@.len() implies self@.edges.contains_key(#[trigger] ids@[k]) && sel(self@.edges[ids@[k]])
                    && s1.contains(ids@[k]) by {
                    if k < before.len() {
                        assert(ids@[k] == before[k]);
                        assert(s0.contains(before[k]));
                        let j = choose|j: int| 0 <= j < s0.len() && s0[j] == before[k];
                        assert(s1[j] == before[k]);
                    } else {
                        assert(s1[i as int] == id);
                    }
                }
                assert forall|e: u128| #[trigger] s1.contains(e) && self@.edges.contains_key(e) && sel(self@.edges[e]) implies ids@.contains(e) by {
                    if e == id {
                        assert(ids@[ids@.len() - 1] == e);
                    } else {
                        let j = choose|j: int| 0 <= j < s1.len() && s1[j] == e;
                        assert(s0[j] == e);
                        assert(s0.contains(e));
                        assert(before.contains(e));
                        let k = choose|k: int| 0 <= k < before.len() && before[k] == e;
                        assert(ids@[k] == e);
                    }
                }
            }
            i = i + 1;
        }
        proof {
            assert(self.edge_order@.subrange(0, self.edge_order@.len() as int) =~= self.edge_order@);
            assert forall|e: u128| self@.edges.contains_key(e) && sel(#[trigger] self@.edges[e]) implies ids@.contains(e) by {
                assert(self.edges@.contains_key(e));
                assert(self.edge_order@.contains(e));
            }
        }
        let r = self.edges_of_ids(&ids);
        proof {
            self.lemma_ids_list(ids@, r@, sel);
        }
        r
    }

    /// The edges leaving node `node_id`.
    pub fn get_outgoing_edges(&self, node_id: NodeId) -> (r: Result<Vec<Edge>, DeepGraphError>)
        requires
            self.wf(),
        ensures
            match r {
                Ok(es) => self@.nodes.contains_key(node_id.0) && lists_edges(
                    edge_views(es@),
                    self@.edges,
                    |e: EdgeView| e.from == node_id.0,
                ),
                Err(err) => !self@.nodes.contains_key(node_id.0) && err == DeepGraphError::NodeNotFound(node_id.0),
            },
    {
        self.adjacent_edges(node_id, true)
    }

    /// The edges entering node `node_id`.
    pub fn get_incoming_edges(&self, node_id: NodeId) -> (r: Result<Vec<Edge>, DeepGraphError>)
        requires
            self.wf(),
        ensures
            match r {
                Ok(es) => self@.nodes.contains_key(node_id.0) && lists_edges(
                    edge_views(es@),
                    self@.edges,
                    |e: EdgeView| e.to == node_id.0,
                ),
                Err(err) => !self@.nodes.contains_key(node_id.0) && err == DeepGraphError::NodeNotFound(node_id.0),
            },
    {
        self.adjacent_edges(node_id, false)
    }

    fn adjacent_edges(&self, node_id: NodeId, out: bool) -> (r: Result<Vec<Edge>, DeepGraphError>)
        requires
            self.wf(),
        ensures
            match r {
                Ok(es) => self@.nodes.contains_key(node_id.0) && lists_edges(
                    edge_views(es@),
                    self@.edges,
                    |e: EdgeView| (if out { e.from } else { e.to }) == node_id.0,
                ),
                Err(err) => !self@.nodes.contains_key(node_id.0) && err == DeepGraphError::NodeNotFound(node_id.0),
            },
    {
        let n = node_id.0;
        proof {
            self.lemma_view();
        }
        if !self.nodes.contains_key(&n) {
            return Err(DeepGraphError::NodeNotFound(n));
        }
        let ghost sel = |e: EdgeView| (if out { e.from } else { e.to }) == n;
        let m = if out { &self.outgoing } else { &self.incoming };
        proof {
            assert forall|e: u128| #[trigger] adj(m@, n, e) <==> (self@.edges.contains_key(e) && sel(self@.edges[e])) by {
                self.lemma_adj(n, e);
            }
        }
        match m.get(&n) {
            Some(ids) => {
                proof {
                    assert forall|k: int| 0 <= k < ids@.len() implies self@.edges.contains_key(#[trigger] ids@[k]) && sel(
                        self@.edges[ids@[k]],
                    ) by {
                        assert(adj(m@, n, ids@[k]));
                    }
                    assert forall|e: u128| self@.edges.contains_key(e) && sel(#[trigger] self@.edges[e]) implies ids@.contains(e) by {
                        assert(adj(m@, n, e));
                    }
                }
                let r = self.edges_of_ids(ids);
                proof {
                    self.lemma_ids_list(ids@, r@, sel);
                }
                Ok(r)
            },
            None => {
                let r: Vec<Edge> = Vec::new();
                proof {
                    assert forall|e: u128| self@.edges.contains_key(e) && sel(#[trigger] self@.edges[e]) implies false by {
                        assert(adj(m@, n, e));
                    }
                    assert(edge_views(r@).len() == 0);
                }
                Ok(r)
            },
        }
    }
}

/// Which nodes a scan keeps.
pub enum NodeFilter<'a> {
    All,
    Label(&'a str),
    Property(&'a str, &'a PropertyValue),
}

impl<'a> NodeFilter<'a> {
    pub open spec fn accepts(&self, n: NodeView) -> bool {
        match self {
            NodeFilter::All => true,
            NodeFilter::Label(l) => n.labels.contains(l@),
            NodeFilter::Property(k, v) => prop_get(n.props, k@) == Some(v@),
        }
    }

    /// Whether the filter keeps the node.
    pub fn matches(&self, n: &Node) -> (r: bool)
        requires
            node_wf(n@),
        ensures
            r == self.accepts(n@),
    {
        match self {
            NodeFilter::All => true,
            NodeFilter::Label(l) => n.has_label(l),
            NodeFilter::Property(k, v) => match n.get_property(k) {
                Some(x) => x.equals(v),
                None => false,
            },
        }
    }
}

/// A node stored under a fresh identifier is read back unchanged, and so is
/// an edge: the model after `add_node` (`add_edge`) maps the new id to the
/// entity that `get_node` (`get_edge`) then returns.
pub proof fn law_entity_round_trip(g: GraphView, n: NodeView, e: EdgeView)
    requires
        !g.nodes.contains_key(n.id),
        !g.edges.contains_key(e.id),
    ensures
        g.nodes.insert(n.id, n).contains_key(n.id),
        g.nodes.insert(n.id, n)[n.id] == n,
        g.edges.insert(e.id, e).contains_key(e.id),
        g.edges.insert(e.id, e)[e.id] == e,
{
}

/// Deleting a node removes every edge that touched it, and no remaining edge
/// (hence no adjacency list) refers to the node; the graph stays well formed.
pub proof fn law_cascade(g: GraphView, n: u128)
    requires
        graph_wf(g),
        g.nodes.contains_key(n),
    ensures
        forall|e: u128| g.edges.contains_key(e) && (g.edges[e].from == n || g.edges[e].to == n)
            ==> !#[trigger] detach(g.edges, n).contains_key(e),
        forall|e: u128| #[trigger] detach(g.edges, n).contains_key(e) ==> detach(g.edges, n)[e].from != n
            && detach(g.edges, n)[e].to != n,
        graph_wf(GraphView { nodes: g.nodes.remove(n), edges: detach(g.edges, n) }),
{
}

/// After a node is deleted (the store's edges are the old edges detached
/// from it), no stored adjacency list of any node still holds an edge that
/// touched the deleted node.
pub proof fn law_cascade_lists(s: MemoryStorage, old_edges: Map<u128, EdgeView>, n: u128, m: u128, e: u128)
    requires
        s.wf(),
        s@.edges == detach(old_edges, n),
        old_edges.contains_key(e),
        old_edges[e].from == n || old_edges[e].to == n,
    ensures
        !s.out_list(m).contains(e),
        !s.in_list(m).contains(e),
{
    s.lemma_adjacency_lists(m, e);
}

} // verus!
