use vstd::prelude::*;

use std::collections::HashMap;
use vstd::bytes::spec_u64_from_le_bytes;
use vstd::bytes::spec_u64_to_le_bytes;
use vstd::bytes::u64_from_le_bytes;
use vstd::bytes::u64_to_le_bytes;
use vstd::slice::slice_index_get;
use vstd::slice::slice_subrange;

use crate::error::Error;
use crate::error::GraphSerializationError;
use crate::graph::Edge;
use crate::graph::GraphView;
use crate::graph::WotGraph;
use crate::graph::has_weight;
use crate::utils;

verus! {

broadcast use vstd::std_specs::hash::group_hash_axioms;

/// An integer clamped into the machine's usize range.
pub open spec fn clamp_usize(x: int) -> usize
    recommends
        x >= 0,
{
    if x > usize::MAX {
        usize::MAX as usize
    } else {
        x as usize
    }
}

/// The 32-byte wire header: the two capacity hints, then the node and edge
/// counts, each as a little-endian 64-bit integer.
pub open spec fn encode_header(g: GraphView) -> Seq<u8> {
    spec_u64_to_le_bytes(g.nodes_capacity as u64) + spec_u64_to_le_bytes(g.edges_capacity as u64)
        + spec_u64_to_le_bytes(g.nodes.len() as u64) + spec_u64_to_le_bytes(g.edges.len() as u64)
}

/// The node section over the first `k` nodes: each weight, little-endian,
/// in arena order.
pub open spec fn encode_nodes(nodes: Seq<u64>, k: int) -> Seq<u8>
    decreases k,
{
    if k <= 0 {
        Seq::empty()
    } else {
        encode_nodes(nodes, k - 1) + spec_u64_to_le_bytes(nodes[k - 1])
    }
}

/// One 17-byte edge record: the source node's weight, the relation byte,
/// then the target node's weight. Edges travel by endpoint weight, not by
/// arena index, so the format does not depend on the arena layout.
pub open spec fn encode_edge(g: GraphView, e: Edge) -> Seq<u8> {
    spec_u64_to_le_bytes(g.nodes[e.source as int]) + seq![e.relation] + spec_u64_to_le_bytes(
        g.nodes[e.target as int],
    )
}

/// The edge section over the first `k` edges, in arena order.
pub open spec fn encode_edges(g: GraphView, k: int) -> Seq<u8>
    decreases k,
{
    if k <= 0 {
        Seq::empty()
    } else {
        encode_edges(g, k - 1) + encode_edge(g, g.edges[k - 1])
    }
}

/// The complete wire image of a graph: header, node weights, edge records,
/// all little-endian.
pub open spec fn encode_spec(g: GraphView) -> Seq<u8> {
    encode_header(g) + encode_nodes(g.nodes, g.nodes.len() as int) + encode_edges(
        g,
        g.edges.len() as int,
    )
}

/// The size an input must have when it declares `n` nodes and `e` edges.
pub open spec fn expected_size(n: int, e: int) -> int {
    32 + 8 * n + 17 * e
}

/// The `i`-th node record of the input: a little-endian weight.
pub open spec fn decoded_weight(bytes: Seq<u8>, i: int) -> u64 {
    spec_u64_from_le_bytes(bytes.subrange(32 + 8 * i, 32 + 8 * i + 8))
}

/// The first `k` node records, in input order.
pub open spec fn decoded_weights(bytes: Seq<u8>, k: int) -> Seq<u64>
    decreases k,
{
    if k <= 0 {
        Seq::empty()
    } else {
        decoded_weights(bytes, k - 1).push(decoded_weight(bytes, k - 1))
    }
}

/// Where the `j`-th edge record starts, after `n` node records.
pub open spec fn edge_base(n: int, j: int) -> int {
    32 + 8 * n + 17 * j
}

/// The source weight of the `j`-th edge record.
pub open spec fn decoded_edge_source(bytes: Seq<u8>, n: int, j: int) -> u64 {
    spec_u64_from_le_bytes(bytes.subrange(edge_base(n, j), edge_base(n, j) + 8))
}

/// The relation byte of the `j`-th edge record.
pub open spec fn decoded_edge_relation(bytes: Seq<u8>, n: int, j: int) -> u8 {
    bytes[edge_base(n, j) + 8]
}

/// The target weight of the `j`-th edge record.
pub open spec fn decoded_edge_target(bytes: Seq<u8>, n: int, j: int) -> u64 {
    spec_u64_from_le_bytes(bytes.subrange(edge_base(n, j) + 9, edge_base(n, j) + 17))
}

/// The index the decoder's lookup table maps a weight to: the last node
/// record carrying it, or -1 when no record does.
pub open spec fn last_index_of(nodes: Seq<u64>, w: u64) -> int
    decreases nodes.len(),
{
    if nodes.len() == 0 {
        -1
    } else if nodes.last() == w {
        nodes.len() - 1
    } else {
        last_index_of(nodes.drop_last(), w)
    }
}

/// A weight resolves through the lookup exactly when some node record
/// carries it, and then to the last record that does.
pub proof fn lemma_last_index_of(nodes: Seq<u64>, w: u64)
    ensures
        has_weight(nodes, w) <==> 0 <= last_index_of(nodes, w) < nodes.len(),
        has_weight(nodes, w) ==> nodes[last_index_of(nodes, w)] == w,
        !has_weight(nodes, w) ==> last_index_of(nodes, w) == -1,
    decreases nodes.len(),
{
    if nodes.len() > 0 {
        if nodes.last() == w {
            assert(nodes[nodes.len() - 1] == w);
        } else {
            lemma_last_index_of(nodes.drop_last(), w);
            if has_weight(nodes, w) {
                let i = choose|i: int| 0 <= i < nodes.len() && nodes[i] == w;
                assert(i < nodes.len() - 1);
                assert(nodes.drop_last()[i] == w);
            }
            if has_weight(nodes.drop_last(), w) {
                let i = choose|i: int|
                    0 <= i < nodes.drop_last().len() && nodes.drop_last()[i] == w;
                assert(nodes[i] == w);
            }
        }
    }
}

/// How one more node record changes the lookup: the new record shadows any
/// earlier one with the same weight and resolves nothing else.
pub proof fn lemma_last_index_push(nodes: Seq<u64>, x: u64, w: u64)
    ensures
        last_index_of(nodes.push(x), w) == if x == w {
            nodes.len() as int
        } else {
            last_index_of(nodes, w)
        },
        has_weight(nodes.push(x), w) <==> (x == w || has_weight(nodes, w)),
{
    let p = nodes.push(x);
    assert(p.last() == x);
    assert(p.drop_last() =~= nodes);
    if x == w {
        assert(p[nodes.len() as int] == w);
    } else {
        if has_weight(p, w) {
            let i = choose|i: int| 0 <= i < p.len() && p[i] == w;
            assert(i < nodes.len());
            assert(nodes[i] == w);
        }
        if has_weight(nodes, w) {
            let i = choose|i: int| 0 <= i < nodes.len() && nodes[i] == w;
            assert(p[i] == w);
        }
    }
}

/// Decoding the first `j` edge records against the decoded node weights:
/// the edges, or the first referenced weight that no node record carries
/// (the source weight is checked before the target weight).
pub open spec fn decode_edges(bytes: Seq<u8>, weights: Seq<u64>, j: int) -> Result<Seq<Edge>, u64>
    decreases j,
{
    if j <= 0 {
        Ok(Seq::empty())
    } else {
        match decode_edges(bytes, weights, j - 1) {
            Err(w) => Err(w),
            Ok(es) => {
                let n = weights.len() as int;
                let sw = decoded_edge_source(bytes, n, j - 1);
                let tw = decoded_edge_target(bytes, n, j - 1);
                if !has_weight(weights, sw) {
                    Err(sw)
                } else if !has_weight(weights, tw) {
                    Err(tw)
                } else {
                    Ok(
                        es.push(
                            Edge {
                                source: last_index_of(weights, sw) as usize,
                                target: last_index_of(weights, tw) as usize,
                                relation: decoded_edge_relation(bytes, n, j - 1),
                            },
                        ),
                    )
                }
            },
        }
    }
}

/// A failure among the first `j` records is the failure of the whole edge
/// section.
proof fn lemma_decode_edges_err(bytes: Seq<u8>, weights: Seq<u64>, j: int, e: int, w: u64)
    requires
        0 <= j <= e,
        decode_edges(bytes, weights, j) == Err::<Seq<Edge>, u64>(w),
    ensures
        decode_edges(bytes, weights, e) == Err::<Seq<Edge>, u64>(w),
    decreases e - j,
{
    if j < e {
        assert(decode_edges(bytes, weights, j + 1) == Err::<Seq<Edge>, u64>(w));
        lemma_decode_edges_err(bytes, weights, j + 1, e, w);
    }
}

/// What decoding an input yields: the graph, or the error, exactly as the
/// importer returns them. Decoding is all-or-nothing; input past the
/// declared records is ignored.
pub open spec fn decode_spec(bytes: Seq<u8>) -> Result<GraphView, GraphSerializationError> {
    if bytes.len() < 32 {
        Err(GraphSerializationError::InsufficientData(32))
    } else {
        let ncap = spec_u64_from_le_bytes(bytes.subrange(0, 8));
        let ecap = spec_u64_from_le_bytes(bytes.subrange(8, 16));
        let n = spec_u64_from_le_bytes(bytes.subrange(16, 24));
        let e = spec_u64_from_le_bytes(bytes.subrange(24, 32));
        if bytes.len() < expected_size(n as int, e as int) {
            Err(
                GraphSerializationError::InsufficientData(
                    clamp_usize(expected_size(n as int, e as int)),
                ),
            )
        } else {
            let weights = decoded_weights(bytes, n as int);
            match decode_edges(bytes, weights, e as int) {
                Err(w) => Err(GraphSerializationError::NodeNotFound(w)),
                Ok(es) => Ok(
                    GraphView {
                        nodes: weights,
                        edges: es,
                        nodes_capacity: clamp_usize(ncap as int) as int,
                        edges_capacity: clamp_usize(ecap as int) as int,
                    },
                ),
            }
        }
    }
}

proof fn lemma_encode_nodes_len(nodes: Seq<u64>, k: int)
    requires
        0 <= k,
    ensures
        encode_nodes(nodes, k).len() == 8 * k,
    decreases k,
{
    vstd::bytes::lemma_auto_spec_u64_to_from_le_bytes();
    if k > 0 {
        lemma_encode_nodes_len(nodes, k - 1);
    }
}

proof fn lemma_encode_edges_len(g: GraphView, k: int)
    requires
        0 <= k,
    ensures
        encode_edges(g, k).len() == 17 * k,
    decreases k,
{
    vstd::bytes::lemma_auto_spec_u64_to_from_le_bytes();
    if k > 0 {
        lemma_encode_edges_len(g, k - 1);
    }
}

proof fn lemma_encode_nodes_index(nodes: Seq<u64>, k: int, i: int)
    requires
        0 <= i < k,
    ensures
        encode_nodes(nodes, k).subrange(8 * i, 8 * i + 8) == spec_u64_to_le_bytes(nodes[i]),
    decreases k,
{
    vstd::bytes::lemma_auto_spec_u64_to_from_le_bytes();
    lemma_encode_nodes_len(nodes, k - 1);
    if i == k - 1 {
        assert(encode_nodes(nodes, k).subrange(8 * i, 8 * i + 8) =~= spec_u64_to_le_bytes(
            nodes[i],
        ));
    } else {
        lemma_encode_nodes_index(nodes, k - 1, i);
        assert(encode_nodes(nodes, k).subrange(8 * i, 8 * i + 8) =~= encode_nodes(
            nodes,
            k - 1,
        ).subrange(8 * i, 8 * i + 8));
    }
}

proof fn lemma_encode_edges_index(g: GraphView, k: int, j: int)
    requires
        0 <= j < k,
    ensures
        encode_edges(g, k).subrange(17 * j, 17 * j + 17) == encode_edge(g, g.edges[j]),
    decreases k,
{
    vstd::bytes::lemma_auto_spec_u64_to_from_le_bytes();
    lemma_encode_edges_len(g, k - 1);
    if j == k - 1 {
        assert(encode_edges(g, k).subrange(17 * j, 17 * j + 17) =~= encode_edge(
            g,
            g.edges[j],
        ));
    } else {
        lemma_encode_edges_index(g, k - 1, j);
        assert(encode_edges(g, k).subrange(17 * j, 17 * j + 17) =~= encode_edges(
            g,
            k - 1,
        ).subrange(17 * j, 17 * j + 17));
    }
}

/// Appends the little-endian image of `x` to the buffer.
fn push_u64_le(buf: &mut Vec<u8>, x: u64)
    ensures
        final(buf)@ == old(buf)@ + spec_u64_to_le_bytes(x),
{
    let bytes = u64_to_le_bytes(x);
    let mut i: usize = 0;
    while i < 8
        invariant
            i <= 8,
            bytes@ == spec_u64_to_le_bytes(x),
            bytes@.len() == 8,
            buf@ == old(buf)@ + bytes@.take(i as int),
        decreases 8 - i,
    {
        buf.push(bytes[i]);
        proof {
            assert(old(buf)@ + bytes@.take(i as int + 1) =~= (old(buf)@ + bytes@.take(
                i as int,
            )).push(bytes@[i as int]));
        }
        i += 1;
    }
    proof {
        assert(bytes@.take(8) =~= bytes@);
    }
}

/// The byte size of the wire image, saturated at the machine limit; used
/// only to pre-allocate the output buffer.
fn export_capacity(n: usize, m: usize) -> (r: usize)
    ensures
        r == clamp_usize(32 + 8 * (n as int) + 17 * (m as int)),
{
    let total: u128 = 32 + 8 * (n as u128) + 17 * (m as u128);
    if total > usize::MAX as u128 {
        usize::MAX
    } else {
        total as usize
    }
}

/// Export the graph nodes and edges in a binary format (little-endian).
///
/// Format:
/// - 8 bytes: nodes capacity hint
/// - 8 bytes: edges capacity hint
/// - 8 bytes: number of nodes N
/// - 8 bytes: number of edges E
/// - N * 8 bytes: node weights
/// - E * 17 bytes: edges (8 bytes source weight, 1 byte relation, 8 bytes
///   target weight)
pub fn export_graph(graph: &WotGraph) -> (r: Vec<u8>)
    requires
        graph.wf(),
    ensures
        r@ == encode_spec(graph@),
{
    let nodes = graph.raw_nodes();
    let edges = graph.raw_edges();
    let caps = graph.capacity();
    let n = nodes.len();
    let m = edges.len();
    let mut buf: Vec<u8> = Vec::with_capacity(export_capacity(n, m));

    // Header.
    push_u64_le(&mut buf, caps.0 as u64);
    push_u64_le(&mut buf, caps.1 as u64);
    push_u64_le(&mut buf, n as u64);
    push_u64_le(&mut buf, m as u64);
    let ghost header = encode_header(graph@);
    proof {
        assert(buf@ =~= header);
    }

    // Node weights.
    let mut i: usize = 0;
    while i < n
        invariant
            i <= n,
            n == nodes@.len(),
            nodes@ == graph@.nodes,
            header == encode_header(graph@),
            buf@ == header + encode_nodes(graph@.nodes, i as int),
        decreases n - i,
    {
        push_u64_le(&mut buf, nodes[i]);
        proof {
            assert(buf@ =~= header + encode_nodes(graph@.nodes, i as int + 1));
        }
        i += 1;
    }
    let ghost nsec = encode_nodes(graph@.nodes, graph@.nodes.len() as int);

    // Edge records.
    let mut j: usize = 0;
    while j < m
        invariant
            j <= m,
            m == edges@.len(),
            edges@ == graph@.edges,
            n == nodes@.len(),
            nodes@ == graph@.nodes,
            graph.wf(),
            header == encode_header(graph@),
            nsec == encode_nodes(graph@.nodes, graph@.nodes.len() as int),
            buf@ == header + nsec + encode_edges(graph@, j as int),
        decreases m - j,
    {
        let e = &edges[j];
        proof {
            assert(graph@.edges[j as int].source < graph@.nodes.len());
        }
        push_u64_le(&mut buf, nodes[e.source]);
        buf.push(e.relation);
        push_u64_le(&mut buf, nodes[e.target]);
        proof {
            assert(buf@ =~= header + nsec + encode_edges(graph@, j as int + 1));
        }
        j += 1;
    }
    proof {
        assert(buf@ =~= encode_spec(graph@));
    }
    buf
}

/// Import a graph from its binary wire image. Decoding is all-or-nothing:
/// on any failure no graph is produced. Input past the declared records is
/// ignored, just as a stream reader would leave it unread.
pub fn import_graph(data: &[u8]) -> (r: Result<WotGraph, Error>)
    ensures
        match r {
            Ok(g) => decode_spec(data@) == Ok::<GraphView, GraphSerializationError>(g@)
                && g.wf(),
            Err(err) => match decode_spec(data@) {
                Err(se) => err == Error::GraphSerializationError(se),
                Ok(_) => false,
            },
        },
{
    let len = data.len();
    if len < 32 {
        return Err(
            Error::GraphSerializationError(GraphSerializationError::InsufficientData(32)),
        );
    }
    // Header.
    let ncap64 = u64_from_le_bytes(slice_subrange(data, 0, 8));
    let ecap64 = u64_from_le_bytes(slice_subrange(data, 8, 16));
    let n64 = u64_from_le_bytes(slice_subrange(data, 16, 24));
    let e64 = u64_from_le_bytes(slice_subrange(data, 24, 32));
    let expected: u128 = 32 + 8 * (n64 as u128) + 17 * (e64 as u128);
    if (len as u128) < expected {
        let needed: usize = if expected > usize::MAX as u128 {
            usize::MAX
        } else {
            expected as usize
        };
        proof {
            assert(needed == clamp_usize(expected_size(n64 as int, e64 as int)));
        }
        return Err(
            Error::GraphSerializationError(GraphSerializationError::InsufficientData(needed)),
        );
    }
    proof {
        assert(len as int >= expected_size(n64 as int, e64 as int));
    }
    let n = n64 as usize;
    let e = e64 as usize;
    // The header's capacity hints are untrusted: store them saturated, and
    // bound the honored pre-allocation by the actual input length.
    let ncap: usize = if ncap64 > usize::MAX as u64 {
        usize::MAX
    } else {
        ncap64 as usize
    };
    let ecap: usize = if ecap64 > usize::MAX as u64 {
        usize::MAX
    } else {
        ecap64 as usize
    };
    let nres: usize = if ncap > len / 8 {
        len / 8
    } else {
        ncap
    };
    let eres: usize = if ecap > len / 17 {
        len / 17
    } else {
        ecap
    };
    let mut graph = WotGraph::with_hints_and_reserve(ncap, ecap, nres, eres);
    let ghost gweights = decoded_weights(data@, n64 as int);

    // Node records, with a weight-to-index lookup table; a later record
    // with the same weight shadows an earlier one.
    let mut table: HashMap<u64, usize> = HashMap::new();
    let mut i: usize = 0;
    while i < n
        invariant
            i <= n,
            n == n64,
            len == data@.len(),
            len as int >= expected_size(n64 as int, e64 as int),
            graph@.nodes == decoded_weights(data@, i as int),
            graph@.nodes.len() == i as int,
            graph@.edges == Seq::<Edge>::empty(),
            graph@.nodes_capacity == ncap as int,
            graph@.edges_capacity == ecap as int,
            forall|w: u64| #[trigger]
                table@.contains_key(w) <==> has_weight(decoded_weights(data@, i as int), w),
            forall|w: u64| #[trigger]
                table@.contains_key(w) ==> table@[w] == last_index_of(
                    decoded_weights(data@, i as int),
                    w,
                ),
        decreases n - i,
    {
        let off = 32 + 8 * i;
        let w = u64_from_le_bytes(slice_subrange(data, off, off + 8));
        let ghost prefix = decoded_weights(data@, i as int);
        let idx: usize;
        match graph.add_node(w) {
            Some(x) => {
                idx = x;
            },
            None => {
                proof {
                    assert(false);
                }
                idx = 0;
            },
        }
        table.insert(w, idx);
        proof {
            assert(w == decoded_weight(data@, i as int));
            assert(decoded_weights(data@, i as int + 1) == prefix.push(w));
            assert forall|ww: u64| #[trigger]
                table@.contains_key(ww) <==> has_weight(
                    decoded_weights(data@, i as int + 1),
                    ww,
                ) by {
                lemma_last_index_push(prefix, w, ww);
            }
            assert forall|ww: u64| #[trigger]
                table@.contains_key(ww) implies table@[ww] == last_index_of(
                decoded_weights(data@, i as int + 1),
                ww,
            ) by {
                lemma_last_index_push(prefix, w, ww);
            }
        }
        i += 1;
    }

    // Edge records: both endpoint weights must resolve through the lookup.
    let mut j: usize = 0;
    while j < e
        invariant
            j <= e,
            e == e64,
            n == n64,
            len == data@.len(),
            len as int >= expected_size(n64 as int, e64 as int),
            n64 == spec_u64_from_le_bytes(data@.subrange(16, 24)),
            e64 == spec_u64_from_le_bytes(data@.subrange(24, 32)),
            gweights == decoded_weights(data@, n64 as int),
            graph@.nodes == gweights,
            graph@.nodes.len() == n as int,
            graph@.nodes_capacity == ncap as int,
            graph@.edges_capacity == ecap as int,
            graph.wf(),
            decode_edges(data@, gweights, j as int) == Ok::<Seq<Edge>, u64>(graph@.edges),
            graph@.edges.len() == j as int,
            forall|w: u64| #[trigger] table@.contains_key(w) <==> has_weight(gweights, w),
            forall|w: u64| #[trigger]
                table@.contains_key(w) ==> table@[w] == last_index_of(gweights, w),
        decreases e - j,
    {
        let base = 32 + 8 * n + 17 * j;
        let sw = u64_from_le_bytes(slice_subrange(data, base, base + 8));
        let relb = *slice_index_get(data, base + 8);
        let tw = u64_from_le_bytes(slice_subrange(data, base + 9, base + 17));
        proof {
            assert(sw == decoded_edge_source(data@, n as int, j as int));
            assert(relb == decoded_edge_relation(data@, n as int, j as int));
            assert(tw == decoded_edge_target(data@, n as int, j as int));
        }
        let sidx: usize;
        match table.get(&sw) {
            Some(x) => {
                sidx = *x;
            },
            None => {
                proof {
                    assert(!has_weight(gweights, sw));
                    assert(decode_edges(data@, gweights, j as int + 1) == Err::<
                        Seq<Edge>,
                        u64,
                    >(sw));
                    lemma_decode_edges_err(data@, gweights, j as int + 1, e as int, sw);
                }
                return Err(
                    Error::GraphSerializationError(GraphSerializationError::NodeNotFound(sw)),
                );
            },
        }
        let tidx: usize;
        match table.get(&tw) {
            Some(x) => {
                tidx = *x;
            },
            None => {
                proof {
                    assert(has_weight(gweights, sw));
                    assert(!has_weight(gweights, tw));
                    assert(decode_edges(data@, gweights, j as int + 1) == Err::<
                        Seq<Edge>,
                        u64,
                    >(tw));
                    lemma_decode_edges_err(data@, gweights, j as int + 1, e as int, tw);
                }
                return Err(
                    Error::GraphSerializationError(GraphSerializationError::NodeNotFound(tw)),
                );
            },
        }
        proof {
            lemma_last_index_of(gweights, sw);
            lemma_last_index_of(gweights, tw);
            assert(sidx == last_index_of(gweights, sw));
            assert(tidx == last_index_of(gweights, tw));
        }
        let ghost edges_before = graph@.edges;
        match graph.add_edge_raw(sidx, tidx, relb) {
            Some(_) => {},
            None => {
                proof {
                    assert(false);
                }
            },
        }
        proof {
            assert(graph@.edges == edges_before.push(
                Edge { source: sidx, target: tidx, relation: relb },
            ));
            assert(decode_edges(data@, gweights, j as int + 1) == Ok::<Seq<Edge>, u64>(graph@.edges));
        }
        j += 1;
    }
    proof {
        let d = decode_spec(data@);
        assert(d matches Ok(gv) && gv =~= graph@);
    }
    Ok(graph)
}

/// A snapshot that a real arena can hold: well-formed edges, and counts
/// and hints within the machine's range. The view of every well-formed
/// [`WotGraph`] satisfies this (see `WotGraph::lemma_view_bounds`).
pub open spec fn representable(g: GraphView) -> bool {
    g.wf() && g.nodes.len() <= usize::MAX && g.edges.len() <= usize::MAX && 0
        <= g.nodes_capacity <= usize::MAX && 0 <= g.edges_capacity <= usize::MAX
}

/// The (source weight, relation byte, target weight) an edge carries.
pub open spec fn edge_triple(g: GraphView, e: Edge) -> (u64, u8, u64) {
    (g.nodes[e.source as int], e.relation, g.nodes[e.target as int])
}

/// Every edge's weight triple, in arena order.
pub open spec fn edge_triples(g: GraphView) -> Seq<(u64, u8, u64)> {
    Seq::new(g.edges.len(), |k: int| edge_triple(g, g.edges[k]))
}

proof fn lemma_decoded_weights_of_encode(g: GraphView, k: int)
    requires
        representable(g),
        0 <= k <= g.nodes.len(),
    ensures
        decoded_weights(encode_spec(g), k) == g.nodes.subrange(0, k),
    decreases k,
{
    vstd::bytes::lemma_auto_spec_u64_to_from_le_bytes();
    let bytes = encode_spec(g);
    let nlen = g.nodes.len() as int;
    lemma_encode_nodes_len(g.nodes, nlen);
    lemma_encode_edges_len(g, g.edges.len() as int);
    assert(encode_header(g).len() == 32);
    if k > 0 {
        lemma_decoded_weights_of_encode(g, k - 1);
        let i = k - 1;
        lemma_encode_nodes_index(g.nodes, nlen, i);
        let nsec = encode_nodes(g.nodes, nlen);
        assert(bytes.subrange(32 + 8 * i, 32 + 8 * i + 8) =~= nsec.subrange(8 * i, 8 * i + 8));
        assert(decoded_weight(bytes, i) == g.nodes[i]);
        assert(decoded_weights(bytes, k) =~= g.nodes.subrange(0, k));
    } else {
        assert(decoded_weights(bytes, 0) =~= g.nodes.subrange(0, 0));
    }
}

proof fn lemma_decode_edges_of_encode(g: GraphView, k: int)
    requires
        representable(g),
        0 <= k <= g.edges.len(),
    ensures
        decode_edges(encode_spec(g), g.nodes, k) matches Ok(es) && es.len() == k && forall|
            j: int,
        |
            0 <= j < k ==> (#[trigger] es[j]).source < g.nodes.len() && es[j].target
                < g.nodes.len() && g.nodes[es[j].source as int] == g.nodes[g.edges[j].source as int]
                && es[j].relation == g.edges[j].relation && g.nodes[es[j].target as int]
                == g.nodes[g.edges[j].target as int],
    decreases k,
{
    vstd::bytes::lemma_auto_spec_u64_to_from_le_bytes();
    let bytes = encode_spec(g);
    let nlen = g.nodes.len() as int;
    let elen = g.edges.len() as int;
    lemma_encode_nodes_len(g.nodes, nlen);
    lemma_encode_edges_len(g, elen);
    assert(encode_header(g).len() == 32);
    if k > 0 {
        lemma_decode_edges_of_encode(g, k - 1);
        let j = k - 1;
        let e = g.edges[j];
        let eb = edge_base(nlen, j);
        lemma_encode_edges_index(g, elen, j);
        let esec = encode_edges(g, elen);
        let chunk = encode_edge(g, e);
        assert(chunk.len() == 17);
        assert forall|x: int| 0 <= x < 17 implies bytes[eb + x] == chunk[x] by {
            assert(esec[17 * j + x] == esec.subrange(17 * j, 17 * j + 17)[x]);
        }
        let sw = g.nodes[e.source as int];
        let tw = g.nodes[e.target as int];
        assert forall|x: int| 0 <= x < 8 implies bytes.subrange(eb, eb + 8)[x]
            == spec_u64_to_le_bytes(sw)[x] by {
            assert(bytes[eb + x] == chunk[x]);
            assert(chunk[x] == spec_u64_to_le_bytes(sw)[x]);
        }
        assert(bytes.subrange(eb, eb + 8) =~= spec_u64_to_le_bytes(sw));
        assert forall|x: int| 0 <= x < 8 implies bytes.subrange(eb + 9, eb + 17)[x]
            == spec_u64_to_le_bytes(tw)[x] by {
            assert(bytes[eb + 9 + x] == chunk[9 + x]);
            assert(chunk[9 + x] == spec_u64_to_le_bytes(tw)[x]);
        }
        assert(bytes.subrange(eb + 9, eb + 17) =~= spec_u64_to_le_bytes(tw));
        assert(decoded_edge_source(bytes, nlen, j) == sw);
        assert(bytes[eb + 8] == chunk[8]);
        assert(chunk[8] == e.relation);
        assert(decoded_edge_relation(bytes, nlen, j) == e.relation);
        assert(decoded_edge_target(bytes, nlen, j) == tw);
        assert(has_weight(g.nodes, sw)) by {
            assert(g.nodes[e.source as int] == sw);
        }
        assert(has_weight(g.nodes, tw)) by {
            assert(g.nodes[e.target as int] == tw);
        }
        lemma_last_index_of(g.nodes, sw);
        lemma_last_index_of(g.nodes, tw);
    }
}

/// Round trip: decoding the bytes that encoding produced succeeds and
/// yields the same node weights in the same order (so an identical weight
/// multiset), edges carrying identical (source weight, relation, target
/// weight) triples in the same order (so an identical triple multiset),
/// and the same capacity hints. The compressed form reduces to this:
/// `export_gzip` guarantees that its output decompresses to exactly
/// `encode_spec`, and `import_gzip` decodes whatever the decompression
/// yields.
pub proof fn lemma_decode_encode_roundtrip(g: GraphView)
    requires
        representable(g),
    ensures
        decode_spec(encode_spec(g)) matches Ok(d) && d.nodes == g.nodes
            && d.nodes.to_multiset() == g.nodes.to_multiset() && edge_triples(d)
            == edge_triples(g) && edge_triples(d).to_multiset() == edge_triples(g).to_multiset()
            && d.nodes_capacity == g.nodes_capacity && d.edges_capacity == g.edges_capacity,
{
    vstd::bytes::lemma_auto_spec_u64_to_from_le_bytes();
    let bytes = encode_spec(g);
    let nlen = g.nodes.len() as int;
    let elen = g.edges.len() as int;
    lemma_encode_nodes_len(g.nodes, nlen);
    lemma_encode_edges_len(g, elen);
    assert(encode_header(g).len() == 32);
    assert(bytes.len() == expected_size(nlen, elen));
    assert(bytes.subrange(0, 8) =~= spec_u64_to_le_bytes(g.nodes_capacity as u64));
    assert(bytes.subrange(8, 16) =~= spec_u64_to_le_bytes(g.edges_capacity as u64));
    assert(bytes.subrange(16, 24) =~= spec_u64_to_le_bytes(g.nodes.len() as u64));
    assert(bytes.subrange(24, 32) =~= spec_u64_to_le_bytes(g.edges.len() as u64));
    lemma_decoded_weights_of_encode(g, nlen);
    assert(g.nodes.subrange(0, nlen) =~= g.nodes);
    lemma_decode_edges_of_encode(g, elen);
    let d = match decode_spec(bytes) {
        Ok(d) => d,
        Err(_) => arbitrary(),
    };
    assert(edge_triples(d) =~= edge_triples(g));
}

proof fn lemma_decoded_weights_len(bytes: Seq<u8>, k: int)
    requires
        0 <= k,
    ensures
        decoded_weights(bytes, k).len() == k,
    decreases k,
{
    if k > 0 {
        lemma_decoded_weights_len(bytes, k - 1);
    }
}

/// Round trip for the compressed form: any bytes that decompress to the
/// encoding of a graph — as `export_gzip`'s output is guaranteed to — decode
/// to the same node weights and the same edge weight triples, which is what
/// `import_gzip` then returns.
pub proof fn lemma_gzip_roundtrip(g: GraphView, z: Seq<u8>)
    requires
        representable(g),
        utils::gunzip_of(z) == Some(encode_spec(g)),
    ensures
        utils::gunzip_of(z) matches Some(b) && decode_spec(b) matches Ok(d) && d.nodes == g.nodes
            && d.nodes.to_multiset() == g.nodes.to_multiset() && edge_triples(d)
            == edge_triples(g) && edge_triples(d).to_multiset() == edge_triples(g).to_multiset(),
{
    lemma_decode_encode_roundtrip(g);
}

/// Decoding fewer than 32 bytes fails with an insufficient-data error
/// asking for the 32-byte header.
pub proof fn lemma_decode_short_input(bytes: Seq<u8>)
    requires
        bytes.len() < 32,
    ensures
        decode_spec(bytes) == Err::<GraphView, GraphSerializationError>(
            GraphSerializationError::InsufficientData(32),
        ),
{
}

/// Decoding a buffer shorter than the `32 + 8N + 17E` bytes its own header
/// declares fails with an insufficient-data error carrying the size that
/// was needed (saturated at the machine limit).
pub proof fn lemma_decode_truncated_input(bytes: Seq<u8>)
    requires
        32 <= bytes.len(),
        bytes.len() < expected_size(
            spec_u64_from_le_bytes(bytes.subrange(16, 24)) as int,
            spec_u64_from_le_bytes(bytes.subrange(24, 32)) as int,
        ),
    ensures
        decode_spec(bytes) == Err::<GraphView, GraphSerializationError>(
            GraphSerializationError::InsufficientData(
                clamp_usize(
                    expected_size(
                        spec_u64_from_le_bytes(bytes.subrange(16, 24)) as int,
                        spec_u64_from_le_bytes(bytes.subrange(24, 32)) as int,
                    ),
                ),
            ),
        ),
{
}

/// Decoding an input whose `j`-th edge record references a weight that no
/// node record carries fails with a node-not-found error carrying that
/// weight: the first offending one, scanning records in order and each
/// record's source weight before its target weight.
pub proof fn lemma_decode_unknown_weight(bytes: Seq<u8>, j: int, w: u64)
    requires
        32 <= bytes.len(),
        ({
            let n = spec_u64_from_le_bytes(bytes.subrange(16, 24)) as int;
            let e = spec_u64_from_le_bytes(bytes.subrange(24, 32)) as int;
            let weights = decoded_weights(bytes, n);
            let sw = decoded_edge_source(bytes, n, j);
            let tw = decoded_edge_target(bytes, n, j);
            bytes.len() >= expected_size(n, e) && 0 <= j < e && decode_edges(bytes, weights, j)
                is Ok && ((!has_weight(weights, sw) && w == sw) || (has_weight(weights, sw)
                && !has_weight(weights, tw) && w == tw))
        }),
    ensures
        decode_spec(bytes) == Err::<GraphView, GraphSerializationError>(
            GraphSerializationError::NodeNotFound(w),
        ),
{
    let n = spec_u64_from_le_bytes(bytes.subrange(16, 24)) as int;
    let e = spec_u64_from_le_bytes(bytes.subrange(24, 32)) as int;
    let weights = decoded_weights(bytes, n);
    lemma_decoded_weights_len(bytes, n);
    assert(decode_edges(bytes, weights, j + 1) == Err::<Seq<Edge>, u64>(w));
    lemma_decode_edges_err(bytes, weights, j + 1, e, w);
}

impl WotGraph {
    /// Imports a graph from bytes. The graph should have been previously
    /// exported using [`WotGraph::export`].
    pub fn import(data: &[u8]) -> (r: Result<Self, Error>)
        ensures
            match r {
                Ok(g) => decode_spec(data@) == Ok::<GraphView, GraphSerializationError>(g@)
                    && g.wf(),
                Err(err) => match decode_spec(data@) {
                    Err(se) => err == Error::GraphSerializationError(se),
                    Ok(_) => false,
                },
            },
    {
        import_graph(data)
    }

    /// Imports a graph from gzip-compressed bytes. The graph should have
    /// been previously exported using [`WotGraph::export_gzip`].
    pub fn import_gzip(data: &[u8]) -> (r: Result<Self, Error>)
        ensures
            match r {
                Ok(g) => match utils::gunzip_of(data@) {
                    Some(b) => decode_spec(b) == Ok::<GraphView, GraphSerializationError>(g@)
                        && g.wf(),
                    None => false,
                },
                Err(err) => match utils::gunzip_of(data@) {
                    None => err == Error::Io,
                    Some(b) => match decode_spec(b) {
                        Err(se) => err == Error::GraphSerializationError(se),
                        Ok(_) => false,
                    },
                },
            },
    {
        match utils::gzip_decompress(data) {
            None => Err(Error::Io),
            Some(bytes) => import_graph(bytes.as_slice()),
        }
    }

    /// Export the graph nodes and edges in a binary format (little-endian);
    /// see [`export_graph`] for the layout.
    pub fn export(&self) -> (r: Result<Vec<u8>, Error>)
        requires
            self.wf(),
        ensures
            match r {
                Ok(v) => v@ == encode_spec(self@),
                Err(_) => false,
            },
    {
        Ok(export_graph(self))
    }

    /// Compresses the graph nodes and edges using gzip and returns the
    /// result: a compressed form of the bytes of [`WotGraph::export`].
    pub fn export_gzip(&self) -> (r: Result<Vec<u8>, Error>)
        requires
            self.wf(),
        ensures
            match r {
                Ok(v) => utils::gunzip_of(v@) == Some(encode_spec(self@)),
                Err(_) => false,
            },
    {
        let plain = export_graph(self);
        Ok(utils::gzip_compress(plain.as_slice()))
    }
}

} // verus!
