use vstd::prelude::*;
use vstd::set_lib::lemma_int_range;
use vstd::set_lib::lemma_len_subset;
use vstd::set_lib::set_int_range;

use crate::graph::Edge;
use crate::graph::GraphView;
use crate::graph::WotGraph;
use crate::relations::Relation;

verus! {

/// Which edges incident to a node a query looks at.
#[derive(Debug, Clone, Copy, PartialEq, Eq, Structural)]
pub enum Direction {
    /// Edges leaving the node.
    Outgoing,
    /// Edges entering the node.
    Incoming,
}

/// Whether an edge is incident to `source` in the given direction and
/// carries the given relation byte.
pub open spec fn edge_matches(e: Edge, source: int, rel: u8, direction: Direction) -> bool {
    match direction {
        Direction::Outgoing => e.source == source && e.relation == rel,
        Direction::Incoming => e.target == source && e.relation == rel,
    }
}

/// The endpoint a matching edge contributes: its target when looking at
/// outgoing edges, its source when looking at incoming ones.
pub open spec fn matched_neighbor(e: Edge, direction: Direction) -> usize {
    match direction {
        Direction::Outgoing => e.target,
        Direction::Incoming => e.source,
    }
}

/// The neighbors contributed by the first `k` edges, in storage order: for
/// each matching edge, the opposite endpoint.
pub open spec fn matching_neighbors_upto(
    edges: Seq<Edge>,
    source: int,
    rel: u8,
    direction: Direction,
    k: int,
) -> Seq<usize>
    decreases k,
{
    if k <= 0 {
        Seq::empty()
    } else {
        let prev = matching_neighbors_upto(edges, source, rel, direction, k - 1);
        if edge_matches(edges[k - 1], source, rel, direction) {
            prev.push(matched_neighbor(edges[k - 1], direction))
        } else {
            prev
        }
    }
}

/// Exactly the opposite endpoints of the matching edges, in storage order.
pub open spec fn matching_neighbors(
    edges: Seq<Edge>,
    source: int,
    rel: u8,
    direction: Direction,
) -> Seq<usize> {
    matching_neighbors_upto(edges, source, rel, direction, edges.len() as int)
}

proof fn lemma_matching_neighbors_upto_membership(
    edges: Seq<Edge>,
    source: int,
    rel: u8,
    direction: Direction,
    k: int,
    x: usize,
)
    requires
        0 <= k <= edges.len(),
    ensures
        matching_neighbors_upto(edges, source, rel, direction, k).contains(x) <==> exists|j: int|
            0 <= j < k && edge_matches(#[trigger] edges[j], source, rel, direction)
                && matched_neighbor(edges[j], direction) == x,
    decreases k,
{
    if k > 0 {
        lemma_matching_neighbors_upto_membership(edges, source, rel, direction, k - 1, x);
        let prev = matching_neighbors_upto(edges, source, rel, direction, k - 1);
        let cur = matching_neighbors_upto(edges, source, rel, direction, k);
        if edge_matches(edges[k - 1], source, rel, direction) {
            assert(cur == prev.push(matched_neighbor(edges[k - 1], direction)));
            if cur.contains(x) {
                let j = choose|j: int| 0 <= j < cur.len() && cur[j] == x;
                if j < prev.len() {
                    assert(prev[j] == x);
                }
            }
            if matched_neighbor(edges[k - 1], direction) == x {
                assert(cur[cur.len() - 1] == x);
            }
            if prev.contains(x) {
                let j = choose|j: int| 0 <= j < prev.len() && prev[j] == x;
                assert(cur[j] == x);
            }
        }
    }
}

/// Membership in the neighbor list means exactly that some matching edge
/// contributes that endpoint.
pub proof fn lemma_matching_neighbors_membership(
    edges: Seq<Edge>,
    source: int,
    rel: u8,
    direction: Direction,
    x: usize,
)
    ensures
        matching_neighbors(edges, source, rel, direction).contains(x) <==> exists|j: int|
            0 <= j < edges.len() && edge_matches(#[trigger] edges[j], source, rel, direction)
                && matched_neighbor(edges[j], direction) == x,
{
    lemma_matching_neighbors_upto_membership(
        edges,
        source,
        rel,
        direction,
        edges.len() as int,
        x,
    );
}

impl GraphView {
    /// The nodes that have an edge with the given relation byte pointing at
    /// `target`.
    pub open spec fn rel_sources(self, target: int, rel: u8) -> Set<int> {
        Set::new(
            |i: int|
                exists|k: int|
                    0 <= k < self.edges.len() && (#[trigger] self.edges[k]).source == i
                        && self.edges[k].target == target && self.edges[k].relation == rel,
        )
    }

    /// The nodes one Follow edge away from some node of `s`.
    pub open spec fn follow_succs(self, s: Set<int>) -> Set<int> {
        Set::new(
            |j: int|
                exists|k: int|
                    0 <= k < self.edges.len() && s.contains(
                        (#[trigger] self.edges[k]).source as int,
                    ) && self.edges[k].relation == Relation::Follow.spec_byte()
                        && self.edges[k].target == j,
        )
    }

    /// The nodes reachable from `source` along at most `h` Follow edges
    /// (hop 0 is the source itself).
    pub open spec fn reach(self, source: int, h: nat) -> Set<int>
        decreases h,
    {
        if h == 0 {
            set![source]
        } else {
            let prev = self.reach(source, (h - 1) as nat);
            prev.union(self.follow_succs(prev))
        }
    }

    /// What the hop-bounded traversal counts: the nodes within `h`
    /// Follow-hops of `source` that have a `rel` edge pointing at `target`;
    /// 0 when either endpoint is not a node of the graph.
    pub open spec fn hop_count(self, source: int, target: int, rel: u8, h: nat) -> nat {
        if 0 <= source < self.nodes.len() && 0 <= target < self.nodes.len() {
            self.reach(source, h).intersect(self.rel_sources(target, rel)).len()
        } else {
            0
        }
    }
}

/// Follow-successors distribute over set union.
proof fn lemma_succs_union(g: GraphView, a: Set<int>, b: Set<int>)
    ensures
        g.follow_succs(a.union(b)) == g.follow_succs(a).union(g.follow_succs(b)),
{
    assert forall|j: int| g.follow_succs(a.union(b)).contains(j) implies g.follow_succs(
        a,
    ).union(g.follow_succs(b)).contains(j) by {
        let k = choose|k: int|
            0 <= k < g.edges.len() && a.union(b).contains((#[trigger] g.edges[k]).source as int)
                && g.edges[k].relation == Relation::Follow.spec_byte() && g.edges[k].target == j;
        if a.contains(g.edges[k].source as int) {
            assert(g.follow_succs(a).contains(j));
        } else {
            assert(g.follow_succs(b).contains(j));
        }
    }
    assert forall|j: int|
        g.follow_succs(a).union(g.follow_succs(b)).contains(j) implies g.follow_succs(
        a.union(b),
    ).contains(j) by {
        if g.follow_succs(a).contains(j) {
            let k = choose|k: int|
                0 <= k < g.edges.len() && a.contains((#[trigger] g.edges[k]).source as int)
                    && g.edges[k].relation == Relation::Follow.spec_byte() && g.edges[k].target
                    == j;
            assert(a.union(b).contains(g.edges[k].source as int));
            assert(g.follow_succs(a.union(b)).contains(j));
        } else {
            let k = choose|k: int|
                0 <= k < g.edges.len() && b.contains((#[trigger] g.edges[k]).source as int)
                    && g.edges[k].relation == Relation::Follow.spec_byte() && g.edges[k].target
                    == j;
            assert(a.union(b).contains(g.edges[k].source as int));
            assert(g.follow_succs(a.union(b)).contains(j));
        }
    }
    assert(g.follow_succs(a.union(b)) =~= g.follow_succs(a).union(g.follow_succs(b)));
}

/// Allowing one more hop never loses nodes.
proof fn lemma_reach_step(g: GraphView, source: int, h: nat)
    ensures
        g.reach(source, h).subset_of(g.reach(source, (h + 1) as nat)),
{
    assert(g.reach(source, (h + 1) as nat) == g.reach(source, h).union(
        g.follow_succs(g.reach(source, h)),
    ));
}

/// Reachability within a hop bound grows monotonically with the bound.
pub proof fn lemma_reach_monotone(g: GraphView, source: int, h1: nat, h2: nat)
    requires
        h1 <= h2,
    ensures
        g.reach(source, h1).subset_of(g.reach(source, h2)),
    decreases h2 - h1,
{
    if h1 < h2 {
        lemma_reach_monotone(g, source, h1, (h2 - 1) as nat);
        lemma_reach_step(g, source, (h2 - 1) as nat);
    }
}

/// Once one more hop adds nothing, no number of further hops adds anything.
proof fn lemma_reach_stable(g: GraphView, source: int, h: nat, h2: nat)
    requires
        g.reach(source, (h + 1) as nat) == g.reach(source, h),
        h <= h2,
    ensures
        g.reach(source, h2) == g.reach(source, h),
    decreases h2 - h,
{
    if h < h2 {
        assert(g.reach(source, (h + 2) as nat) == g.reach(source, (h + 1) as nat).union(
            g.follow_succs(g.reach(source, (h + 1) as nat)),
        ));
        lemma_reach_stable(g, source, (h + 1) as nat, h2);
    }
}

/// In a well-formed graph every reachable node is an arena index.
proof fn lemma_reach_bounded(g: GraphView, source: int, h: nat)
    requires
        g.wf(),
        0 <= source < g.nodes.len(),
    ensures
        g.reach(source, h).subset_of(set_int_range(0, g.nodes.len() as int)),
    decreases h,
{
    if h > 0 {
        let prev = g.reach(source, (h - 1) as nat);
        lemma_reach_bounded(g, source, (h - 1) as nat);
        assert forall|j: int| g.follow_succs(prev).contains(j) implies 0 <= j
            < g.nodes.len() by {
            let k = choose|k: int|
                0 <= k < g.edges.len() && prev.contains((#[trigger] g.edges[k]).source as int)
                    && g.edges[k].relation == Relation::Follow.spec_byte() && g.edges[k].target
                    == j;
            assert(g.edges[k].target < g.nodes.len());
        }
    }
}

/// The hop-bounded count is non-decreasing in the hop bound, for a fixed
/// source, target and relation.
pub proof fn lemma_hop_count_monotone(
    g: GraphView,
    source: int,
    target: int,
    rel: u8,
    h1: nat,
    h2: nat,
)
    requires
        g.wf(),
        h1 <= h2,
    ensures
        g.hop_count(source, target, rel, h1) <= g.hop_count(source, target, rel, h2),
{
    if 0 <= source < g.nodes.len() && 0 <= target < g.nodes.len() {
        let n = g.nodes.len() as int;
        let s = g.rel_sources(target, rel);
        lemma_reach_monotone(g, source, h1, h2);
        lemma_reach_bounded(g, source, h2);
        lemma_int_range(0, n);
        lemma_len_subset(g.reach(source, h2).intersect(s), set_int_range(0, n));
        lemma_len_subset(
            g.reach(source, h1).intersect(s),
            g.reach(source, h2).intersect(s),
        );
    }
}

/// With a hop bound of zero the count is 1 exactly when a direct `rel` edge
/// from `source` to `target` exists, else 0.
pub proof fn lemma_hop_count_zero(g: GraphView, source: int, target: int, rel: u8)
    requires
        g.wf(),
        0 <= source < g.nodes.len(),
        0 <= target < g.nodes.len(),
    ensures
        g.hop_count(source, target, rel, 0) == if exists|k: int|
            0 <= k < g.edges.len() && (#[trigger] g.edges[k]).source == source
                && g.edges[k].target == target && g.edges[k].relation == rel {
            1nat
        } else {
            0nat
        },
{
    let s = g.rel_sources(target, rel);
    assert(g.reach(source, 0) == set![source]);
    if s.contains(source) {
        assert(set![source].intersect(s) =~= set![source]);
        assert(set![source].len() == 1);
    } else {
        assert(set![source].intersect(s) =~= Set::<int>::empty());
    }
}

/// The set of indices whose entry in a boolean row is set.
pub open spec fn bool_row(v: Seq<bool>) -> Set<int> {
    Set::new(|i: int| 0 <= i < v.len() && v[i])
}

/// The set of indices a worklist holds, duplicates collapsed.
pub open spec fn idx_set(s: Seq<usize>) -> Set<int> {
    Set::new(|i: int| exists|k: int| 0 <= k < s.len() && (#[trigger] s[k]) as int == i)
}

proof fn lemma_idx_set_push(s: Seq<usize>, x: usize)
    ensures
        idx_set(s.push(x)) == idx_set(s).insert(x as int),
{
    let pushed = s.push(x);
    assert forall|i: int| idx_set(pushed).contains(i) implies idx_set(s).insert(
        x as int,
    ).contains(i) by {
        let k = choose|k: int| 0 <= k < pushed.len() && (#[trigger] pushed[k]) as int == i;
        if k < s.len() {
            assert(s[k] as int == i);
        }
    }
    assert forall|i: int| idx_set(s).insert(x as int).contains(i) implies idx_set(
        pushed,
    ).contains(i) by {
        if idx_set(s).contains(i) {
            let k = choose|k: int| 0 <= k < s.len() && (#[trigger] s[k]) as int == i;
            assert(pushed[k] as int == i);
        } else {
            assert(pushed[s.len() as int] as int == i);
        }
    }
    assert(idx_set(s.push(x)) =~= idx_set(s).insert(x as int));
}

proof fn lemma_take_push(s: Seq<usize>, t: int)
    requires
        0 <= t < s.len(),
    ensures
        s.take(t + 1) == s.take(t).push(s[t]),
{
    assert(s.take(t + 1) =~= s.take(t).push(s[t]));
}

/// The Follow-outgoing neighbor list of one node holds exactly its
/// Follow-successors.
proof fn lemma_neighbors_are_succs(g: GraphView, node: usize)
    ensures
        idx_set(
            matching_neighbors(
                g.edges,
                node as int,
                Relation::Follow.spec_byte(),
                Direction::Outgoing,
            ),
        ) == g.follow_succs(set![node as int]),
{
    let rel = Relation::Follow.spec_byte();
    let ns = matching_neighbors(g.edges, node as int, rel, Direction::Outgoing);
    assert forall|i: int| idx_set(ns).contains(i) implies g.follow_succs(
        set![node as int],
    ).contains(i) by {
        let k = choose|k: int| 0 <= k < ns.len() && (#[trigger] ns[k]) as int == i;
        let x = ns[k];
        assert(ns.contains(x));
        lemma_matching_neighbors_membership(g.edges, node as int, rel, Direction::Outgoing, x);
        let j = choose|j: int|
            0 <= j < g.edges.len() && edge_matches(
                #[trigger] g.edges[j],
                node as int,
                rel,
                Direction::Outgoing,
            ) && matched_neighbor(g.edges[j], Direction::Outgoing) == x;
        assert(set![node as int].contains(g.edges[j].source as int));
        assert(g.edges[j].target == i);
    }
    assert forall|i: int| g.follow_succs(set![node as int]).contains(i) implies idx_set(
        ns,
    ).contains(i) by {
        let k = choose|k: int|
            0 <= k < g.edges.len() && set![node as int].contains(
                (#[trigger] g.edges[k]).source as int,
            ) && g.edges[k].relation == rel && g.edges[k].target == i;
        let x = g.edges[k].target;
        assert(edge_matches(g.edges[k], node as int, rel, Direction::Outgoing));
        lemma_matching_neighbors_membership(g.edges, node as int, rel, Direction::Outgoing, x);
        assert(ns.contains(x));
        let kk = choose|kk: int| 0 <= kk < ns.len() && ns[kk] == x;
        assert(ns[kk] as int == i);
    }
    assert(idx_set(ns) =~= g.follow_succs(set![node as int]));
}

/// One breadth-first layer: if the already-visited part together with the
/// frontier is everything within `h` hops, and the visited part's successors
/// are already within `h` hops, then one more hop adds exactly the
/// frontier's successors.
proof fn lemma_frontier_step(g: GraphView, source: int, h: nat, prev: Set<int>, front: Set<int>)
    requires
        prev.union(front) == g.reach(source, h),
        g.follow_succs(prev).subset_of(g.reach(source, h)),
    ensures
        g.reach(source, (h + 1) as nat) == g.reach(source, h).union(g.follow_succs(front)),
{
    let r = g.reach(source, h);
    assert(g.reach(source, (h + 1) as nat) == r.union(g.follow_succs(r)));
    lemma_succs_union(g, prev, front);
    assert(g.follow_succs(r) == g.follow_succs(prev).union(g.follow_succs(front)));
    assert(r.union(g.follow_succs(r)) =~= r.union(g.follow_succs(front)));
}

/// A row of `n` cleared flags.
fn false_row(n: usize) -> (r: Vec<bool>)
    ensures
        r@.len() == n,
        forall|i: int| 0 <= i < n ==> !r@[i],
{
    let mut r: Vec<bool> = Vec::new();
    while r.len() < n
        invariant
            r@.len() <= n,
            forall|i: int| 0 <= i < r@.len() ==> !r@[i],
        decreases n - r@.len(),
    {
        r.push(false);
    }
    r
}

impl WotGraph {
    /// Finds the neighboring nodes of `source` based on the given `relation`
    /// and `direction`.
    ///
    /// For [`Direction::Outgoing`], returns the nodes that `source` has the
    /// relation **to**. For [`Direction::Incoming`], returns the nodes that
    /// have the relation **to** `source`. The result lists the opposite
    /// endpoint of every matching edge, in storage order.
    pub fn neighbors(&self, source: usize, relation: Relation, direction: Direction) -> (r: Vec<
        usize,
    >)
        ensures
            r@ == matching_neighbors(
                self@.edges,
                source as int,
                relation.spec_byte(),
                direction,
            ),
    {
        let rel = relation.as_byte();
        let edges = self.raw_edges();
        let m = edges.len();
        let mut r: Vec<usize> = Vec::new();
        let mut k: usize = 0;
        while k < m
            invariant
                k <= m,
                m == edges@.len(),
                edges@ == self@.edges,
                rel == relation.spec_byte(),
                r@ == matching_neighbors_upto(edges@, source as int, rel, direction, k as int),
            decreases m - k,
        {
            let e = &edges[k];
            let matched = if direction == Direction::Outgoing {
                e.source == source && e.relation == rel
            } else {
                e.target == source && e.relation == rel
            };
            if matched {
                if direction == Direction::Outgoing {
                    r.push(e.target);
                } else {
                    r.push(e.source);
                }
            }
            k += 1;
        }
        r
    }

    /// Counts how many nodes within `max_hops` Follow-hops of `source`
    /// (hop 0 is the source itself) have the given `relation` with the
    /// target. Each node is counted once, however many hops or paths reach
    /// it; the traversal always walks Follow edges, and `relation` only
    /// gates the membership test against the target. Returns 0 when either
    /// endpoint is not a node of this graph.
    pub fn count_neighbors_in_hops(
        &self,
        source: usize,
        target: usize,
        relation: Relation,
        max_hops: u8,
    ) -> (r: usize)
        requires
            self.wf(),
        ensures
            r == self@.hop_count(
                source as int,
                target as int,
                relation.spec_byte(),
                max_hops as nat,
            ),
    {
        let n = self.raw_nodes().len();
        if source >= n || target >= n {
            return 0;
        }
        let rel = relation.as_byte();
        let ghost g = self@;
        let ghost inc_set = g.rel_sources(target as int, rel);

        // Mark every node that has a `rel` edge pointing at `target`.
        let edges = self.raw_edges();
        let m = edges.len();
        let mut incoming = false_row(n);
        let mut any = false;
        let mut k: usize = 0;
        while k < m
            invariant
                k <= m,
                g == self@,
                self.wf(),
                m == g.edges.len(),
                edges@ == g.edges,
                n == g.nodes.len(),
                target < n,
                rel == relation.spec_byte(),
                incoming@.len() == n,
                forall|i: int|
                    0 <= i < n ==> ((#[trigger] incoming@[i]) <==> exists|kk: int|
                        0 <= kk < k && (#[trigger] g.edges[kk]).source == i
                            && g.edges[kk].target == target as int && g.edges[kk].relation
                            == rel),
                any <==> exists|kk: int|
                    0 <= kk < k && (#[trigger] g.edges[kk]).target == target as int
                        && g.edges[kk].relation == rel,
            decreases m - k,
        {
            let e = &edges[k];
            if e.target == target && e.relation == rel {
                let s = e.source;
                proof {
                    assert(g.edges[k as int].source < g.nodes.len());
                }
                incoming[s] = true;
                any = true;
            }
            k += 1;
        }
        proof {
            assert forall|i: int| inc_set.contains(i) implies bool_row(incoming@).contains(
                i,
            ) by {
                let kk = choose|kk: int|
                    0 <= kk < g.edges.len() && (#[trigger] g.edges[kk]).source == i
                        && g.edges[kk].target == target as int && g.edges[kk].relation == rel;
                assert(g.edges[kk].source < g.nodes.len());
            }
            assert(bool_row(incoming@) =~= inc_set);
        }

        // Nothing points at the target with this relation: nothing to count.
        if !any {
            proof {
                assert forall|i: int| !inc_set.contains(i) by {
                    if inc_set.contains(i) {
                        let kk = choose|kk: int|
                            0 <= kk < g.edges.len() && (#[trigger] g.edges[kk]).source == i
                                && g.edges[kk].target == target as int && g.edges[kk].relation
                                == rel;
                        assert(0 <= kk < m && g.edges[kk].target == target as int
                            && g.edges[kk].relation == rel);
                    }
                }
                assert(inc_set =~= Set::<int>::empty());
                assert(g.reach(source as int, max_hops as nat).intersect(inc_set)
                    =~= Set::<int>::empty());
            }
            return 0;
        }

        // With zero hops only the source itself can qualify.
        if max_hops == 0 {
            let hit = incoming[source];
            proof {
                assert(g.reach(source as int, 0) == set![source as int]);
                if hit {
                    assert(bool_row(incoming@).contains(source as int));
                    assert(set![source as int].intersect(inc_set) =~= set![source as int]);
                    assert(set![source as int].len() == 1);
                } else {
                    assert(!bool_row(incoming@).contains(source as int));
                    assert(set![source as int].intersect(inc_set) =~= Set::<int>::empty());
                }
            }
            return if hit {
                1
            } else {
                0
            };
        }

        // Breadth-first expansion along Follow edges, one hop per round.
        let mut visited = false_row(n);
        let mut frontier: Vec<usize> = Vec::new();
        frontier.push(source);
        let mut count: usize = 0;
        let mut hop: u8 = 0;
        proof {
            lemma_idx_set_push(Seq::<usize>::empty(), source);
            assert(idx_set(Seq::<usize>::empty()) =~= Set::<int>::empty());
            assert(bool_row(visited@) =~= Set::<int>::empty());
            assert(idx_set(frontier@) =~= set![source as int]);
            assert(g.reach(source as int, 0) == set![source as int]);
            assert(idx_set(frontier@) =~= g.reach(source as int, 0).difference(
                bool_row(visited@),
            ));
            assert(Set::<int>::empty().intersect(inc_set) =~= Set::<int>::empty());
        }
        loop
            invariant_except_break
                hop <= max_hops,
                g == self@,
                self.wf(),
                n == g.nodes.len(),
                source < n,
                target < n,
                rel == relation.spec_byte(),
                inc_set == g.rel_sources(target as int, rel),
                incoming@.len() == n,
                bool_row(incoming@) == inc_set,
                visited@.len() == n,
                forall|j: int|
                    0 <= j < frontier@.len() ==> (#[trigger] frontier@[j]) < n
                        && !visited@[frontier@[j] as int],
                bool_row(visited@) == if hop == 0 {
                    Set::<int>::empty()
                } else {
                    g.reach(source as int, (hop - 1) as nat)
                },
                idx_set(frontier@) == g.reach(source as int, hop as nat).difference(
                    bool_row(visited@),
                ),
                count == bool_row(visited@).intersect(inc_set).len(),
                count <= n,
            ensures
                count == g.reach(source as int, max_hops as nat).intersect(inc_set).len(),
            decreases max_hops - hop,
        {
            // Visit the frontier: count unvisited members that point at the
            // target.
            let flen = frontier.len();
            let ghost start_visited = bool_row(visited@);
            let mut t: usize = 0;
            while t < flen
                invariant
                    t <= flen,
                    flen == frontier@.len(),
                    g == self@,
                    self.wf(),
                    n == g.nodes.len(),
                    incoming@.len() == n,
                    bool_row(incoming@) == inc_set,
                    visited@.len() == n,
                    forall|j: int| 0 <= j < flen ==> (#[trigger] frontier@[j]) < n,
                    bool_row(visited@) == start_visited.union(
                        idx_set(frontier@.take(t as int)),
                    ),
                    count == bool_row(visited@).intersect(inc_set).len(),
                    count <= n,
                decreases flen - t,
            {
                let node = frontier[t];
                let ghost vrow = bool_row(visited@);
                proof {
                    lemma_take_push(frontier@, t as int);
                    lemma_idx_set_push(frontier@.take(t as int), node);
                }
                if !visited[node] {
                    visited[node] = true;
                    let hit = incoming[node];
                    proof {
                        assert(bool_row(visited@) =~= vrow.insert(node as int));
                        assert(start_visited.union(idx_set(frontier@.take(t as int + 1)))
                            =~= bool_row(visited@));
                        lemma_int_range(0, n as int);
                        assert(vrow.intersect(inc_set).subset_of(set_int_range(0, n as int)));
                        lemma_len_subset(vrow.intersect(inc_set), set_int_range(0, n as int));
                        if hit {
                            assert(inc_set.contains(node as int));
                            assert(bool_row(visited@).intersect(inc_set) =~= vrow.intersect(
                                inc_set,
                            ).insert(node as int));
                            assert(!vrow.intersect(inc_set).contains(node as int));
                            vstd::set::axiom_set_insert_len(vrow.intersect(inc_set), node as int);
                            assert(bool_row(visited@).intersect(inc_set).subset_of(
                                set_int_range(0, n as int),
                            ));
                            lemma_len_subset(
                                bool_row(visited@).intersect(inc_set),
                                set_int_range(0, n as int),
                            );
                        } else {
                            assert(!inc_set.contains(node as int));
                            assert(bool_row(visited@).intersect(inc_set) =~= vrow.intersect(
                                inc_set,
                            ));
                        }
                    }
                    if hit {
                        count += 1;
                    }
                } else {
                    proof {
                        assert(vrow.contains(node as int));
                        assert(start_visited.union(idx_set(frontier@.take(t as int + 1)))
                            =~= bool_row(visited@));
                    }
                }
                t += 1;
            }

            // The visited set is now everything within `hop` hops.
            proof {
                assert(frontier@.take(flen as int) =~= frontier@);
                if hop == 0 {
                    assert(bool_row(visited@) =~= g.reach(source as int, hop as nat));
                } else {
                    lemma_reach_step(g, source as int, (hop - 1) as nat);
                    assert(bool_row(visited@) =~= g.reach(source as int, hop as nat));
                }
            }

            if hop == max_hops {
                break ;
            }
            // Collect the unvisited Follow-successors of the frontier.
            let mut next: Vec<usize> = Vec::new();
            let ghost vnow = bool_row(visited@);
            proof {
                assert(frontier@.take(0) =~= Seq::<usize>::empty());
                assert(idx_set(Seq::<usize>::empty()) =~= Set::<int>::empty());
                assert(g.follow_succs(Set::<int>::empty()) =~= Set::<int>::empty());
                assert(idx_set(next@) =~= g.follow_succs(
                    idx_set(frontier@.take(0)),
                ).difference(vnow));
            }
            let mut t: usize = 0;
            while t < flen
                invariant
                    t <= flen,
                    flen == frontier@.len(),
                    g == self@,
                    self.wf(),
                    n == g.nodes.len(),
                    visited@.len() == n,
                    vnow == bool_row(visited@),
                    forall|j: int| 0 <= j < flen ==> (#[trigger] frontier@[j]) < n,
                    idx_set(next@) == g.follow_succs(
                        idx_set(frontier@.take(t as int)),
                    ).difference(vnow),
                    forall|j: int|
                        0 <= j < next@.len() ==> (#[trigger] next@[j]) < n
                            && !visited@[next@[j] as int],
                decreases flen - t,
            {
                let node = frontier[t];
                let nbrs = self.neighbors(node, Relation::Follow, Direction::Outgoing);
                proof {
                    lemma_neighbors_are_succs(g, node);
                }
                let nlen = nbrs.len();
                let mut q: usize = 0;
                while q < nlen
                    invariant
                        q <= nlen,
                        nlen == nbrs@.len(),
                        g == self@,
                        self.wf(),
                        n == g.nodes.len(),
                        visited@.len() == n,
                        vnow == bool_row(visited@),
                        idx_set(nbrs@) == g.follow_succs(set![node as int]),
                        t < flen,
                        flen == frontier@.len(),
                        idx_set(next@) == g.follow_succs(
                            idx_set(frontier@.take(t as int)),
                        ).union(idx_set(nbrs@.take(q as int))).difference(vnow),
                        forall|j: int|
                            0 <= j < next@.len() ==> (#[trigger] next@[j]) < n
                                && !visited@[next@[j] as int],
                    decreases nlen - q,
                {
                    let x = nbrs[q];
                    proof {
                        assert(idx_set(nbrs@).contains(x as int));
                        let kw = choose|kw: int|
                            0 <= kw < g.edges.len() && set![node as int].contains(
                                (#[trigger] g.edges[kw]).source as int,
                            ) && g.edges[kw].relation == Relation::Follow.spec_byte()
                                && g.edges[kw].target == x as int;
                        assert(g.edges[kw].target < g.nodes.len());
                    }
                    let ghost next_before = next@;
                    if !visited[x] {
                        next.push(x);
                        proof {
                            lemma_idx_set_push(next_before, x);
                        }
                    }
                    proof {
                        lemma_take_push(nbrs@, q as int);
                        lemma_idx_set_push(nbrs@.take(q as int), x);
                        assert(idx_set(next@) =~= g.follow_succs(
                            idx_set(frontier@.take(t as int)),
                        ).union(idx_set(nbrs@.take(q as int + 1))).difference(vnow));
                    }
                    q += 1;
                }
                proof {
                    assert(nbrs@.take(nlen as int) =~= nbrs@);
                    lemma_take_push(frontier@, t as int);
                    lemma_idx_set_push(frontier@.take(t as int), node);
                    lemma_succs_union(g, idx_set(frontier@.take(t as int)), set![node as int]);
                    assert(idx_set(frontier@.take(t as int)).union(set![node as int])
                        =~= idx_set(frontier@.take(t as int + 1)));
                    assert(idx_set(next@) =~= g.follow_succs(
                        idx_set(frontier@.take(t as int + 1)),
                    ).difference(vnow));
                }
                t += 1;
            }

            // One more hop reaches exactly what the new frontier holds, past
            // what is already visited.
            proof {
                assert(frontier@.take(flen as int) =~= frontier@);
                if hop == 0 {
                    assert(start_visited.union(idx_set(frontier@)) =~= g.reach(
                        source as int,
                        hop as nat,
                    ));
                    assert(g.follow_succs(start_visited) =~= Set::<int>::empty());
                } else {
                    lemma_reach_step(g, source as int, (hop - 1) as nat);
                    assert(start_visited.union(idx_set(frontier@)) =~= g.reach(
                        source as int,
                        hop as nat,
                    ));
                    assert(g.reach(source as int, hop as nat) == g.reach(
                        source as int,
                        (hop - 1) as nat,
                    ).union(g.follow_succs(g.reach(source as int, (hop - 1) as nat))));
                }
                lemma_frontier_step(
                    g,
                    source as int,
                    hop as nat,
                    start_visited,
                    idx_set(frontier@),
                );
            }

            if next.len() == 0 {
                proof {
                    assert(idx_set(next@) =~= Set::<int>::empty());
                    assert forall|j: int|
                        g.follow_succs(idx_set(frontier@)).contains(j) implies vnow.contains(
                        j,
                    ) by {
                        assert(!idx_set(next@).contains(j));
                    }
                    lemma_reach_step(g, source as int, hop as nat);
                    assert(g.reach(source as int, (hop + 1) as nat) =~= g.reach(
                        source as int,
                        hop as nat,
                    ));
                    lemma_reach_stable(g, source as int, hop as nat, max_hops as nat);
                }
                break ;
            }
            frontier = next;
            hop += 1;
            proof {
                assert(idx_set(frontier@) =~= g.reach(source as int, hop as nat).difference(
                    bool_row(visited@),
                ));
            }
        }
        count
    }

    /// Counts the trust score between source and target within `max_hops`
    /// distance. The score is (follow count − mute count), where the follow
    /// count is the number of nodes following the target within `max_hops`
    /// of source and the mute count is the number of nodes muting the target
    /// within the same distance; each count is clamped to the signed range
    /// before the subtraction.
    pub fn dump_wot(&self, source: usize, target: usize, max_hops: u8) -> (r: isize)
        requires
            self.wf(),
        ensures
            r == clamp_count(
                self@.hop_count(
                    source as int,
                    target as int,
                    Relation::Follow.spec_byte(),
                    max_hops as nat,
                ),
            ) - clamp_count(
                self@.hop_count(
                    source as int,
                    target as int,
                    Relation::Mute.spec_byte(),
                    max_hops as nat,
                ),
            ),
    {
        let follows = self.count_neighbors_in_hops(source, target, Relation::Follow, max_hops);
        let mutes = self.count_neighbors_in_hops(source, target, Relation::Mute, max_hops);
        let f: isize = if follows > isize::MAX as usize {
            isize::MAX
        } else {
            follows as isize
        };
        let m: isize = if mutes > isize::MAX as usize {
            isize::MAX
        } else {
            mutes as isize
        };
        f - m
    }
}

/// A count clamped to the signed machine range.
pub open spec fn clamp_count(c: nat) -> int {
    if c > isize::MAX {
        isize::MAX as int
    } else {
        c as int
    }
}

} // verus!
