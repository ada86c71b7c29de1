use vstd::prelude::*;

use crate::relations::Relation;

verus! {

/// A directed edge of the arena. Endpoints are arena indices; the relation
/// is stored as its fixed byte value, exactly as it travels on the wire.
#[derive(Debug, Clone, Copy, PartialEq, Eq, Structural)]
pub struct Edge {
    /// Arena index of the node the edge leaves.
    pub source: usize,
    /// Arena index of the node the edge points at.
    pub target: usize,
    /// The relation byte (`Relation::spec_byte`).
    pub relation: u8,
}

/// The mathematical snapshot of a graph: the node weights in arena order,
/// the edges in arena order, and the two advisory capacity hints.
#[verifier::ext_equal]
pub struct GraphView {
    /// Node weights, indexed by arena position.
    pub nodes: Seq<u64>,
    /// Edges, indexed by arena position.
    pub edges: Seq<Edge>,
    /// Advisory hint: reserved node storage.
    pub nodes_capacity: int,
    /// Advisory hint: reserved edge storage.
    pub edges_capacity: int,
}

impl GraphView {
    /// Every edge's endpoints name existing nodes.
    pub open spec fn wf(self) -> bool {
        forall|k: int|
            0 <= k < self.edges.len() ==> (#[trigger] self.edges[k]).source < self.nodes.len()
                && self.edges[k].target < self.nodes.len()
    }

    /// The same graph with the node weights replaced.
    pub open spec fn with_nodes(self, nodes: Seq<u64>) -> GraphView {
        GraphView { nodes, ..self }
    }

    /// The same graph with the edges replaced.
    pub open spec fn with_edges(self, edges: Seq<Edge>) -> GraphView {
        GraphView { edges, ..self }
    }
}

/// Some node carries the given weight.
pub open spec fn has_weight(nodes: Seq<u64>, w: u64) -> bool {
    exists|i: int| 0 <= i < nodes.len() && nodes[i] == w
}

/// No two nodes carry the same weight.
pub open spec fn distinct_weights(nodes: Seq<u64>) -> bool {
    forall|i: int, j: int| 0 <= i < j < nodes.len() ==> nodes[i] != nodes[j]
}

/// No two edges agree on (source, target, relation).
pub open spec fn distinct_edges(edges: Seq<Edge>) -> bool {
    forall|i: int, j: int| 0 <= i < j < edges.len() ==> edges[i] != edges[j]
}

/// `add_unique_node` never produces two nodes with equal weight: starting
/// from pairwise-distinct weights, the node list it leaves behind — the old
/// one when the weight is already present, the old one extended by the
/// weight otherwise — is still pairwise distinct.
pub proof fn lemma_unique_node_preserves_distinct(nodes: Seq<u64>, w: u64)
    requires
        distinct_weights(nodes),
    ensures
        distinct_weights(
            if has_weight(nodes, w) {
                nodes
            } else {
                nodes.push(w)
            },
        ),
{
    if !has_weight(nodes, w) {
        let pushed = nodes.push(w);
        assert forall|i: int, j: int| 0 <= i < j < pushed.len() implies pushed[i]
            != pushed[j] by {
            if j < nodes.len() {
                assert(pushed[i] == nodes[i] && pushed[j] == nodes[j]);
            } else {
                assert(pushed[j] == w && pushed[i] == nodes[i]);
            }
        }
    }
}

/// `add_unique_edge` never produces two edges with equal (source, target,
/// relation): starting from pairwise-distinct edges, the edge list it
/// leaves behind — the old one when the edge is already present, the old
/// one extended by it otherwise — is still pairwise distinct.
pub proof fn lemma_unique_edge_preserves_distinct(edges: Seq<Edge>, e: Edge)
    requires
        distinct_edges(edges),
    ensures
        distinct_edges(
            if edges.contains(e) {
                edges
            } else {
                edges.push(e)
            },
        ),
{
    if !edges.contains(e) {
        let pushed = edges.push(e);
        assert forall|i: int, j: int| 0 <= i < j < pushed.len() implies pushed[i]
            != pushed[j] by {
            if j < edges.len() {
                assert(pushed[i] == edges[i] && pushed[j] == edges[j]);
            } else {
                assert(pushed[j] == e && pushed[i] == edges[i]);
            }
        }
    }
}

/// A directed graph representing a Web of Trust: an append-only arena of
/// node weights and directed, relation-tagged edges, plus two advisory
/// capacity hints that affect pre-allocation, never correctness.
#[derive(Debug)]
pub struct WotGraph {
    pub(crate) nodes: Vec<u64>,
    pub(crate) edges: Vec<Edge>,
    pub(crate) nodes_capacity: usize,
    pub(crate) edges_capacity: usize,
}

impl View for WotGraph {
    type V = GraphView;

    closed spec fn view(&self) -> GraphView {
        GraphView {
            nodes: self.nodes@,
            edges: self.edges@,
            nodes_capacity: self.nodes_capacity as int,
            edges_capacity: self.edges_capacity as int,
        }
    }
}

impl WotGraph {
    /// Every edge's endpoints name existing nodes. All constructors
    /// establish this and all insertions preserve it.
    pub open spec fn wf(&self) -> bool {
        self@.wf()
    }

    /// The counts and hints of a real arena always fit the machine's range.
    pub proof fn lemma_view_bounds(&self)
        ensures
            self@.nodes.len() <= usize::MAX,
            self@.edges.len() <= usize::MAX,
            0 <= self@.nodes_capacity <= usize::MAX,
            0 <= self@.edges_capacity <= usize::MAX,
    {
        vstd::std_specs::vec::axiom_spec_len(&self.nodes);
        vstd::std_specs::vec::axiom_spec_len(&self.edges);
    }

    /// Creates a new empty graph.
    pub fn new() -> (g: Self)
        ensures
            g@.nodes == Seq::<u64>::empty(),
            g@.edges == Seq::<Edge>::empty(),
            g@.nodes_capacity == 0,
            g@.edges_capacity == 0,
            g.wf(),
    {
        WotGraph { nodes: Vec::new(), edges: Vec::new(), nodes_capacity: 0, edges_capacity: 0 }
    }

    /// Creates a new empty graph with preallocated capacity for nodes and
    /// edges.
    pub fn with_capacity(nodes: usize, edges: usize) -> (g: Self)
        ensures
            g@.nodes == Seq::<u64>::empty(),
            g@.edges == Seq::<Edge>::empty(),
            g@.nodes_capacity == nodes,
            g@.edges_capacity == edges,
            g.wf(),
    {
        WotGraph {
            nodes: Vec::with_capacity(nodes),
            edges: Vec::with_capacity(edges),
            nodes_capacity: nodes,
            edges_capacity: edges,
        }
    }

    /// Creates a new empty graph that records the given capacity hints but
    /// only pre-allocates the given (already bounded) amounts, so that an
    /// untrusted hint cannot force an outsized reservation.
    pub(crate) fn with_hints_and_reserve(
        nodes_hint: usize,
        edges_hint: usize,
        nodes_reserve: usize,
        edges_reserve: usize,
    ) -> (g: Self)
        ensures
            g@.nodes == Seq::<u64>::empty(),
            g@.edges == Seq::<Edge>::empty(),
            g@.nodes_capacity == nodes_hint,
            g@.edges_capacity == edges_hint,
            g.wf(),
    {
        WotGraph {
            nodes: Vec::with_capacity(nodes_reserve),
            edges: Vec::with_capacity(edges_reserve),
            nodes_capacity: nodes_hint,
            edges_capacity: edges_hint,
        }
    }

    /// The node weights, in arena order.
    pub fn raw_nodes(&self) -> (r: &Vec<u64>)
        ensures
            r@ == self@.nodes,
    {
        &self.nodes
    }

    /// The edges, in arena order.
    pub fn raw_edges(&self) -> (r: &Vec<Edge>)
        ensures
            r@ == self@.edges,
    {
        &self.edges
    }

    /// The advisory capacity hints, as (nodes, edges).
    pub fn capacity(&self) -> (r: (usize, usize))
        ensures
            r.0 == self@.nodes_capacity,
            r.1 == self@.edges_capacity,
    {
        (self.nodes_capacity, self.edges_capacity)
    }

    /// Add a new node. This can duplicate nodes; use
    /// [`WotGraph::add_unique_node`] for no duplicates.
    ///
    /// Returns `None` only when the index space is exhausted.
    pub fn add_node(&mut self, node: u64) -> (r: Option<usize>)
        ensures
            match r {
                Some(i) => old(self)@.nodes.len() < usize::MAX && i == old(self)@.nodes.len()
                    && final(self)@ == old(self)@.with_nodes(old(self)@.nodes.push(node)),
                None => old(self)@.nodes.len() == usize::MAX && final(self)@ == old(self)@,
            },
            old(self).wf() ==> final(self).wf(),
    {
        if self.nodes.len() == usize::MAX {
            return None;
        }
        let i = self.nodes.len();
        self.nodes.push(node);
        proof {
            if old(self).wf() {
                assert forall|k: int|
                    0 <= k < self@.edges.len() implies (#[trigger] self@.edges[k]).source
                    < self@.nodes.len() && self@.edges[k].target < self@.nodes.len() by {
                    assert(old(self)@.edges[k].source < old(self)@.nodes.len());
                }
            }
        }
        Some(i)
    }

    /// The earliest node carrying the given weight, if any.
    fn find_weight(&self, w: u64) -> (r: Option<usize>)
        ensures
            match r {
                Some(i) => i < self@.nodes.len() && self@.nodes[i as int] == w && forall|j: int|
                    0 <= j < i ==> self@.nodes[j] != w,
                None => !has_weight(self@.nodes, w),
            },
    {
        let n = self.nodes.len();
        let mut i: usize = 0;
        while i < n
            invariant
                n == self@.nodes.len(),
                i <= n,
                forall|j: int| 0 <= j < i ==> self@.nodes[j] != w,
            decreases n - i,
        {
            if self.nodes[i] == w {
                return Some(i);
            }
            i += 1;
        }
        None
    }

    /// Add a unique node: if a node with this weight already exists, the
    /// earliest such node is returned and nothing is inserted.
    ///
    /// Returns `None` only when the index space is exhausted.
    pub fn add_unique_node(&mut self, node: u64) -> (r: Option<usize>)
        ensures
            match r {
                Some(i) => if has_weight(old(self)@.nodes, node) {
                    final(self)@ == old(self)@ && i < old(self)@.nodes.len()
                        && old(self)@.nodes[i as int] == node
                        && forall|j: int| 0 <= j < i ==> old(self)@.nodes[j] != node
                } else {
                    old(self)@.nodes.len() < usize::MAX && i == old(self)@.nodes.len()
                        && final(self)@ == old(self)@.with_nodes(old(self)@.nodes.push(node))
                },
                None => !has_weight(old(self)@.nodes, node)
                    && old(self)@.nodes.len() == usize::MAX && final(self)@ == old(self)@,
            },
            old(self).wf() ==> final(self).wf(),
    {
        match self.find_weight(node) {
            Some(i) => Some(i),
            None => self.add_node(node),
        }
    }

    /// Returns the node index for the identity with the given raw public-key
    /// bytes, looked up by its fingerprint. Returns `None` if there is no
    /// match.
    pub fn node_index(&self, pkey: &[u8]) -> (r: Option<usize>)
        ensures
            ({
                let w = crate::utils::fingerprint_of(pkey@);
                match r {
                    Some(i) => i < self@.nodes.len() && self@.nodes[i as int] == w && forall|
                        j: int,
                    | 0 <= j < i ==> self@.nodes[j] != w,
                    None => !has_weight(self@.nodes, w),
                }
            }),
    {
        let w = crate::utils::hash_bytes(pkey);
        self.find_weight(w)
    }

    /// Add a new node for the identity with the given raw public-key bytes:
    /// the node's weight is the identity's 64-bit fingerprint, and an
    /// existing node already carrying it is returned instead.
    ///
    /// Returns `None` only when the index space is exhausted.
    pub fn add_node_pkey(&mut self, pkey: &[u8]) -> (r: Option<usize>)
        ensures
            ({
                let w = crate::utils::fingerprint_of(pkey@);
                match r {
                    Some(i) => if has_weight(old(self)@.nodes, w) {
                        final(self)@ == old(self)@ && i < old(self)@.nodes.len()
                            && old(self)@.nodes[i as int] == w
                            && forall|j: int| 0 <= j < i ==> old(self)@.nodes[j] != w
                    } else {
                        old(self)@.nodes.len() < usize::MAX && i == old(self)@.nodes.len()
                            && final(self)@ == old(self)@.with_nodes(old(self)@.nodes.push(w))
                    },
                    None => !has_weight(old(self)@.nodes, w)
                        && old(self)@.nodes.len() == usize::MAX && final(self)@ == old(self)@,
                }
            }),
            old(self).wf() ==> final(self).wf(),
    {
        let w = crate::utils::hash_bytes(pkey);
        self.add_unique_node(w)
    }

    /// Adds an edge carrying a raw relation byte, exactly as it stands in a
    /// decoded wire record.
    pub(crate) fn add_edge_raw(&mut self, source: usize, target: usize, relation: u8) -> (r:
        Option<usize>)
        requires
            source < old(self)@.nodes.len(),
            target < old(self)@.nodes.len(),
        ensures
            match r {
                Some(i) => old(self)@.edges.len() < usize::MAX && i == old(self)@.edges.len()
                    && final(self)@ == old(self)@.with_edges(
                    old(self)@.edges.push(Edge { source, target, relation }),
                ),
                None => old(self)@.edges.len() == usize::MAX && final(self)@ == old(self)@,
            },
            old(self).wf() ==> final(self).wf(),
    {
        if self.edges.len() == usize::MAX {
            return None;
        }
        let i = self.edges.len();
        self.edges.push(Edge { source, target, relation });
        Some(i)
    }

    /// Adds an edge between the `source` and `target` nodes with the given
    /// relation. This can duplicate edges; use
    /// [`WotGraph::add_unique_edge`] for no duplicates.
    ///
    /// Both endpoints must be valid handles of this arena.
    /// Returns `None` only when the index space is exhausted.
    pub fn add_edge(&mut self, source: usize, target: usize, relation: Relation) -> (r: Option<
        usize,
    >)
        requires
            source < old(self)@.nodes.len(),
            target < old(self)@.nodes.len(),
        ensures
            match r {
                Some(i) => old(self)@.edges.len() < usize::MAX && i == old(self)@.edges.len()
                    && final(self)@ == old(self)@.with_edges(
                    old(self)@.edges.push(
                        Edge { source, target, relation: relation.spec_byte() },
                    ),
                ),
                None => old(self)@.edges.len() == usize::MAX && final(self)@ == old(self)@,
            },
            old(self).wf() ==> final(self).wf(),
    {
        self.add_edge_raw(source, target, relation.as_byte())
    }

    /// Adds a unique edge between the `source` and `target` nodes with the
    /// given relation: if an edge with the same source, target and relation
    /// already exists, the earliest such edge is returned and nothing is
    /// inserted.
    ///
    /// Both endpoints must be valid handles of this arena.
    /// Returns `None` only when the index space is exhausted.
    pub fn add_unique_edge(&mut self, source: usize, target: usize, relation: Relation) -> (r:
        Option<usize>)
        requires
            source < old(self)@.nodes.len(),
            target < old(self)@.nodes.len(),
        ensures
            ({
                let e = Edge { source, target, relation: relation.spec_byte() };
                match r {
                    Some(i) => if old(self)@.edges.contains(e) {
                        final(self)@ == old(self)@ && i < old(self)@.edges.len()
                            && old(self)@.edges[i as int] == e
                            && forall|j: int| 0 <= j < i ==> old(self)@.edges[j] != e
                    } else {
                        old(self)@.edges.len() < usize::MAX && i == old(self)@.edges.len()
                            && final(self)@ == old(self)@.with_edges(old(self)@.edges.push(e))
                    },
                    None => !old(self)@.edges.contains(e) && old(self)@.edges.len() == usize::MAX
                        && final(self)@ == old(self)@,
                }
            }),
            old(self).wf() ==> final(self).wf(),
    {
        let e = Edge { source, target, relation: relation.as_byte() };
        let n = self.edges.len();
        let mut i: usize = 0;
        while i < n
            invariant
                n == self@.edges.len(),
                i <= n,
                e == (Edge { source, target, relation: relation.spec_byte() }),
                forall|j: int| 0 <= j < i ==> self@.edges[j] != e,
            decreases n - i,
        {
            if self.edges[i] == e {
                proof {
                    assert(self@.edges[i as int] == e);
                }
                return Some(i);
            }
            i += 1;
        }
        assert(!self@.edges.contains(e));
        self.add_edge(source, target, relation)
    }
}

} // verus!
