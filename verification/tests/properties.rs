use nostr_wot::WotGraph;
use nostr_wot::error::Error;
use nostr_wot::error::GraphSerializationError;
use nostr_wot::relations::Relation;

fn le(x: u64) -> [u8; 8] {
    x.to_le_bytes()
}

fn header(ncap: u64, ecap: u64, n: u64, e: u64) -> Vec<u8> {
    let mut v = Vec::new();
    v.extend_from_slice(&le(ncap));
    v.extend_from_slice(&le(ecap));
    v.extend_from_slice(&le(n));
    v.extend_from_slice(&le(e));
    v
}

#[test]
fn export_bytes_are_exact() {
    let mut graph = WotGraph::with_capacity(3, 4);
    graph.add_node(5).unwrap();
    graph.add_node(6).unwrap();
    graph.add_edge(0, 1, Relation::Mute).unwrap();

    let mut expect = header(3, 4, 2, 1);
    expect.extend_from_slice(&le(5));
    expect.extend_from_slice(&le(6));
    expect.extend_from_slice(&le(5));
    expect.push(1); // the Mute wire byte
    expect.extend_from_slice(&le(6));
    assert_eq!(graph.export().unwrap(), expect);
}

#[test]
fn roundtrip_preserves_weights_and_triples() {
    let mut graph = WotGraph::new();
    // duplicate weights and parallel edges on purpose
    graph.add_node(10).unwrap();
    graph.add_node(20).unwrap();
    graph.add_node(10).unwrap();
    graph.add_edge(0, 1, Relation::Follow).unwrap();
    graph.add_edge(0, 1, Relation::Follow).unwrap();
    graph.add_edge(1, 2, Relation::Mute).unwrap();

    let triples = |g: &WotGraph| -> Vec<(u64, u8, u64)> {
        let nodes = g.raw_nodes();
        let mut ts: Vec<(u64, u8, u64)> = g
            .raw_edges()
            .iter()
            .map(|e| (nodes[e.source], e.relation, nodes[e.target]))
            .collect();
        ts.sort();
        ts
    };

    let imported = WotGraph::import(&graph.export().unwrap()).unwrap();
    assert_eq!(imported.raw_nodes(), graph.raw_nodes());
    assert_eq!(triples(&imported), triples(&graph));

    let gz = WotGraph::import_gzip(&graph.export_gzip().unwrap()).unwrap();
    assert_eq!(gz.raw_nodes(), graph.raw_nodes());
    assert_eq!(triples(&gz), triples(&graph));
}

#[test]
fn short_input_needs_header() {
    let err = WotGraph::import(&[3; 30]).unwrap_err();
    assert_eq!(
        err,
        Error::GraphSerializationError(GraphSerializationError::InsufficientData(32))
    );
}

#[test]
fn truncated_input_reports_declared_size() {
    // The header declares 2 nodes and 1 edge: 32 + 16 + 17 = 65 bytes needed.
    let mut data = header(0, 0, 2, 1);
    data.extend_from_slice(&le(10));
    let err = WotGraph::import(&data).unwrap_err();
    assert_eq!(
        err,
        Error::GraphSerializationError(GraphSerializationError::InsufficientData(65))
    );
}

#[test]
fn unknown_edge_weight_is_reported() {
    // Nodes 10 and 20; one edge referencing the absent weight 99 as target.
    let mut data = header(0, 0, 2, 1);
    data.extend_from_slice(&le(10));
    data.extend_from_slice(&le(20));
    data.extend_from_slice(&le(10));
    data.push(0);
    data.extend_from_slice(&le(99));
    let err = WotGraph::import(&data).unwrap_err();
    assert_eq!(
        err,
        Error::GraphSerializationError(GraphSerializationError::NodeNotFound(99))
    );

    // The source weight is checked first.
    let mut data = header(0, 0, 1, 1);
    data.extend_from_slice(&le(10));
    data.extend_from_slice(&le(77));
    data.push(1);
    data.extend_from_slice(&le(88));
    let err = WotGraph::import(&data).unwrap_err();
    assert_eq!(
        err,
        Error::GraphSerializationError(GraphSerializationError::NodeNotFound(77))
    );
}

#[test]
fn corrupt_gzip_is_an_io_error() {
    let err = WotGraph::import_gzip(&[7; 60]).unwrap_err();
    assert_eq!(err, Error::Io);
}

#[test]
fn gzip_output_is_not_the_plain_image() {
    let mut graph = WotGraph::new();
    graph.add_node(1).unwrap();
    let plain = graph.export().unwrap();
    let packed = graph.export_gzip().unwrap();
    assert_ne!(plain, packed);
    // the plain image is not a gzip stream
    assert!(WotGraph::import_gzip(&plain).is_err());
}

#[test]
fn unique_node_never_duplicates() {
    let mut graph = WotGraph::new();
    graph.add_unique_node(1).unwrap();
    graph.add_unique_node(1).unwrap();
    graph.add_unique_node(2).unwrap();
    assert_eq!(graph.raw_nodes().len(), 2);

    // add_node may duplicate
    let mut graph = WotGraph::new();
    graph.add_node(1).unwrap();
    graph.add_node(1).unwrap();
    graph.add_node(2).unwrap();
    assert_eq!(graph.raw_nodes().len(), 3);
}

#[test]
fn unique_edge_never_duplicates() {
    let mut graph = WotGraph::new();
    let node1 = graph.add_node(1).unwrap();
    let node2 = graph.add_node(2).unwrap();
    graph.add_unique_edge(node1, node2, Relation::Follow).unwrap();
    graph.add_unique_edge(node1, node2, Relation::Follow).unwrap();
    graph.add_unique_edge(node1, node2, Relation::Mute).unwrap();
    assert_eq!(graph.raw_edges().len(), 2);

    // add_edge may duplicate
    let mut graph = WotGraph::new();
    let node1 = graph.add_node(1).unwrap();
    let node2 = graph.add_node(2).unwrap();
    graph.add_edge(node1, node2, Relation::Follow).unwrap();
    graph.add_edge(node1, node2, Relation::Follow).unwrap();
    graph.add_edge(node1, node2, Relation::Mute).unwrap();
    assert_eq!(graph.raw_edges().len(), 3);
}

#[test]
fn zero_hops_counts_exactly_the_direct_edge() {
    let mut graph = WotGraph::new();
    let p1 = graph.add_node(1).unwrap();
    let p2 = graph.add_node(2).unwrap();
    let p3 = graph.add_node(3).unwrap();
    graph.add_edge(p1, p2, Relation::Follow).unwrap();
    graph.add_edge(p3, p2, Relation::Follow).unwrap();

    assert_eq!(graph.count_neighbors_in_hops(p1, p2, Relation::Follow, 0), 1);
    assert_eq!(graph.count_neighbors_in_hops(p1, p2, Relation::Mute, 0), 0);
    assert_eq!(graph.count_neighbors_in_hops(p1, p3, Relation::Follow, 0), 0);
}

#[test]
fn count_is_monotone_in_the_hop_bound() {
    let mut graph = WotGraph::new();
    let p1 = graph.add_node(1).unwrap();
    let p2 = graph.add_node(2).unwrap();
    let p3 = graph.add_node(3).unwrap();
    let p4 = graph.add_node(4).unwrap();
    let p5 = graph.add_node(5).unwrap();
    graph.add_edge(p1, p2, Relation::Follow).unwrap();
    graph.add_edge(p2, p3, Relation::Follow).unwrap();
    graph.add_edge(p3, p4, Relation::Follow).unwrap();
    graph.add_edge(p2, p5, Relation::Follow).unwrap();
    graph.add_edge(p3, p5, Relation::Follow).unwrap();
    graph.add_edge(p4, p5, Relation::Follow).unwrap();

    let mut last = 0;
    for hops in 0..6 {
        let c = graph.count_neighbors_in_hops(p1, p5, Relation::Follow, hops);
        assert!(c >= last);
        last = c;
    }
}

#[test]
fn missing_endpoints_count_zero() {
    let mut graph = WotGraph::new();
    let p1 = graph.add_node(1).unwrap();
    assert_eq!(graph.count_neighbors_in_hops(p1, 9, Relation::Follow, 3), 0);
    assert_eq!(graph.count_neighbors_in_hops(9, p1, Relation::Follow, 3), 0);
    assert_eq!(graph.dump_wot(p1, 9, 3), 0);
}

#[test]
fn fingerprint_lookup_is_consistent() {
    let mut graph = WotGraph::new();
    let key_a = [11u8; 32];
    let key_b = [22u8; 32];
    let a = graph.add_node_pkey(&key_a).unwrap();
    let again = graph.add_node_pkey(&key_a).unwrap();
    assert_eq!(a, again);
    assert_eq!(graph.raw_nodes().len(), 1);

    let b = graph.add_node_pkey(&key_b).unwrap();
    assert_ne!(a, b);
    assert_eq!(graph.node_index(&key_a), Some(a));
    assert_eq!(graph.node_index(&key_b), Some(b));
    assert_eq!(graph.node_index(&[33u8; 32]), None);
}

#[test]
fn capacity_hints_are_advisory_and_survive_export() {
    let graph = WotGraph::with_capacity(7, 9);
    assert_eq!(graph.capacity(), (7, 9));
    let imported = WotGraph::import(&graph.export().unwrap()).unwrap();
    assert_eq!(imported.capacity(), (7, 9));
}

#[test]
fn oversized_capacity_hint_is_harmless() {
    // A crafted header asking for an enormous reservation from a tiny
    // payload must not be honored as an allocation.
    let data = header(u64::MAX, u64::MAX, 0, 0);
    let graph = WotGraph::import(&data).unwrap();
    assert_eq!(graph.raw_nodes().len(), 0);
    assert_eq!(graph.raw_edges().len(), 0);
}

#[test]
fn trailing_bytes_are_ignored() {
    let mut graph = WotGraph::new();
    graph.add_node(42).unwrap();
    let mut data = graph.export().unwrap();
    data.extend_from_slice(&[0xAB, 0xCD]);
    let imported = WotGraph::import(&data).unwrap();
    assert_eq!(imported.raw_nodes().len(), 1);
    assert_eq!(imported.raw_nodes()[0], 42);
}

#[test]
fn decoded_relation_bytes_survive_as_written() {
    // The decoder stores the relation byte as it stands on the wire, even
    // when it is not a known relation.
    let mut data = header(0, 0, 2, 1);
    data.extend_from_slice(&le(1));
    data.extend_from_slice(&le(2));
    data.extend_from_slice(&le(1));
    data.push(7);
    data.extend_from_slice(&le(2));
    let graph = WotGraph::import(&data).unwrap();
    assert_eq!(graph.raw_edges().len(), 1);
    assert_eq!(graph.raw_edges()[0].relation, 7);
}
