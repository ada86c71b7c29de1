use nostr_wot::WotGraph;
use nostr_wot::relations::Relation;

fn pkey(tag: u8) -> [u8; 32] {
    [tag; 32]
}

#[test]
fn direct_follow_no_mute() {
    let mut graph = WotGraph::new();

    let p1 = graph.add_node_pkey(&pkey(1)).unwrap();
    let p2 = graph.add_node_pkey(&pkey(2)).unwrap();

    graph.add_edge(p1, p2, Relation::Follow).unwrap();

    assert_eq!(graph.dump_wot(p1, p2, 1), 1);
    assert_eq!(graph.dump_wot(p1, p2, 2), 1);
}

#[test]
fn direct_mute_no_follow() {
    let mut graph = WotGraph::new();

    let p1 = graph.add_node_pkey(&pkey(1)).unwrap();
    let p2 = graph.add_node_pkey(&pkey(2)).unwrap();

    graph.add_edge(p1, p2, Relation::Mute).unwrap();

    assert_eq!(graph.dump_wot(p1, p2, 1), -1);
    assert_eq!(graph.dump_wot(p1, p2, 2), -1);
}

#[test]
fn direct_follow_and_mute_from_source_should_not_count() {
    let mut graph = WotGraph::new();

    let p1 = graph.add_node_pkey(&pkey(1)).unwrap();
    let p2 = graph.add_node_pkey(&pkey(2)).unwrap();

    graph.add_edge(p1, p2, Relation::Follow).unwrap();
    graph.add_edge(p1, p2, Relation::Mute).unwrap();

    assert_eq!(graph.dump_wot(p1, p2, 1), 0);
    assert_eq!(graph.dump_wot(p1, p2, 2), 0);
}

#[test]
fn indirect_follow_no_mute() {
    let mut graph = WotGraph::new();

    let p1 = graph.add_node_pkey(&pkey(1)).unwrap();
    let p2 = graph.add_node_pkey(&pkey(2)).unwrap();
    let p3 = graph.add_node_pkey(&pkey(3)).unwrap();

    graph.add_edge(p1, p2, Relation::Follow).unwrap();
    graph.add_edge(p2, p3, Relation::Follow).unwrap();

    assert_eq!(graph.dump_wot(p1, p3, 0), 0);
    assert_eq!(graph.dump_wot(p1, p3, 1), 1);
    assert_eq!(graph.dump_wot(p1, p3, 2), 1);
}

#[test]
fn indirect_mute_no_follow() {
    let mut graph = WotGraph::new();

    let p1 = graph.add_node_pkey(&pkey(1)).unwrap();
    let p2 = graph.add_node_pkey(&pkey(2)).unwrap();
    let p3 = graph.add_node_pkey(&pkey(3)).unwrap();

    graph.add_edge(p1, p2, Relation::Follow).unwrap();
    graph.add_edge(p2, p3, Relation::Mute).unwrap();

    assert_eq!(graph.dump_wot(p1, p3, 0), 0);
    assert_eq!(graph.dump_wot(p1, p3, 1), -1);
    assert_eq!(graph.dump_wot(p1, p3, 2), -1);
}

#[test]
fn mixed_follow_and_mute_within_hops() {
    let mut graph = WotGraph::new();

    let p1 = graph.add_node_pkey(&pkey(1)).unwrap();
    let p2 = graph.add_node_pkey(&pkey(2)).unwrap();
    let p3 = graph.add_node_pkey(&pkey(3)).unwrap();
    let p4 = graph.add_node_pkey(&pkey(4)).unwrap();
    let p5 = graph.add_node_pkey(&pkey(5)).unwrap();

    graph.add_edge(p1, p2, Relation::Follow).unwrap();
    graph.add_edge(p2, p5, Relation::Follow).unwrap();

    graph.add_edge(p1, p3, Relation::Follow).unwrap();
    graph.add_edge(p3, p5, Relation::Mute).unwrap();

    graph.add_edge(p1, p4, Relation::Follow).unwrap();
    graph.add_edge(p4, p5, Relation::Follow).unwrap();

    assert_eq!(graph.dump_wot(p1, p5, 0), 0);
    assert_eq!(graph.dump_wot(p1, p5, 1), 1);
    assert_eq!(graph.dump_wot(p1, p5, 2), 1);
    assert_eq!(graph.dump_wot(p1, p5, 3), 1);
}

#[test]
fn multiple_paths_to_same_intermediate_node() {
    let mut graph = WotGraph::new();

    let p1 = graph.add_node_pkey(&pkey(1)).unwrap();
    let p2 = graph.add_node_pkey(&pkey(2)).unwrap();
    let p3 = graph.add_node_pkey(&pkey(3)).unwrap();
    let p4 = graph.add_node_pkey(&pkey(4)).unwrap();

    graph.add_edge(p1, p2, Relation::Follow).unwrap();
    graph.add_edge(p1, p3, Relation::Follow).unwrap();
    graph.add_edge(p3, p2, Relation::Follow).unwrap();
    graph.add_edge(p2, p4, Relation::Follow).unwrap();

    assert_eq!(graph.dump_wot(p1, p4, 0), 0);
    assert_eq!(graph.dump_wot(p1, p4, 1), 1);
    assert_eq!(graph.dump_wot(p1, p4, 2), 1);
    assert_eq!(graph.dump_wot(p1, p4, 3), 1);
}

#[test]
fn no_path_between_source_and_target() {
    let mut graph = WotGraph::new();

    let p1 = graph.add_node_pkey(&pkey(1)).unwrap();
    let p2 = graph.add_node_pkey(&pkey(2)).unwrap();
    let p3 = graph.add_node_pkey(&pkey(3)).unwrap();

    graph.add_edge(p3, p2, Relation::Follow).unwrap();
    graph.add_edge(p3, p1, Relation::Follow).unwrap();
    graph.add_edge(p2, p1, Relation::Follow).unwrap();

    assert_eq!(graph.dump_wot(p1, p2, 1), 0);
    assert_eq!(graph.dump_wot(p1, p2, 2), 0);
    assert_eq!(graph.dump_wot(p1, p2, 5), 0);
}

#[test]
fn max_hops_zero() {
    let mut graph = WotGraph::new();

    let p1 = graph.add_node_pkey(&pkey(1)).unwrap();
    let p2 = graph.add_node_pkey(&pkey(2)).unwrap();
    let p3 = graph.add_node_pkey(&pkey(3)).unwrap();

    graph.add_edge(p1, p2, Relation::Follow).unwrap();
    graph.add_edge(p3, p2, Relation::Follow).unwrap();

    assert_eq!(graph.dump_wot(p1, p2, 0), 1);
}

#[test]
fn multiple_paths_different_relations() {
    let mut graph = WotGraph::new();

    let p1 = graph.add_node_pkey(&pkey(1)).unwrap();
    let p2 = graph.add_node_pkey(&pkey(2)).unwrap();
    let p3 = graph.add_node_pkey(&pkey(3)).unwrap();
    let p4 = graph.add_node_pkey(&pkey(4)).unwrap();
    let p5 = graph.add_node_pkey(&pkey(5)).unwrap();
    let p6 = graph.add_node_pkey(&pkey(6)).unwrap();
    let p7 = graph.add_node_pkey(&pkey(7)).unwrap();

    graph.add_edge(p1, p2, Relation::Follow).unwrap();
    graph.add_edge(p2, p5, Relation::Follow).unwrap(); // +1
    graph.add_edge(p2, p3, Relation::Follow).unwrap();
    graph.add_edge(p3, p5, Relation::Mute).unwrap(); // -1
    graph.add_edge(p3, p4, Relation::Follow).unwrap();
    graph.add_edge(p4, p5, Relation::Follow).unwrap(); // +1
    graph.add_edge(p4, p6, Relation::Follow).unwrap();
    graph.add_edge(p6, p5, Relation::Mute).unwrap(); // -1
    graph.add_edge(p4, p7, Relation::Follow).unwrap();
    graph.add_edge(p7, p5, Relation::Mute).unwrap(); // -1

    assert_eq!(graph.dump_wot(p1, p5, 1), 1); // (+1)
    assert_eq!(graph.dump_wot(p1, p5, 2), 0); // (+1) (-1)
    assert_eq!(graph.dump_wot(p1, p5, 3), 1); // (+1) (-1) (+1)
    assert_eq!(graph.dump_wot(p1, p5, 4), -1); // (+1) (-1) (+1) (-2)
}

#[test]
fn complex_multiple_hops() {
    let mut graph = WotGraph::new();

    let p1 = graph.add_node_pkey(&pkey(1)).unwrap();
    let p2 = graph.add_node_pkey(&pkey(2)).unwrap();
    let p3 = graph.add_node_pkey(&pkey(3)).unwrap();
    let p4 = graph.add_node_pkey(&pkey(4)).unwrap();
    let p5 = graph.add_node_pkey(&pkey(5)).unwrap();
    let p6 = graph.add_node_pkey(&pkey(6)).unwrap();
    let p7 = graph.add_node_pkey(&pkey(7)).unwrap();

    graph.add_edge(p1, p2, Relation::Follow).unwrap();
    graph.add_edge(p2, p7, Relation::Follow).unwrap(); // +1

    graph.add_edge(p1, p3, Relation::Follow).unwrap();
    graph.add_edge(p3, p4, Relation::Follow).unwrap();
    graph.add_edge(p4, p7, Relation::Mute).unwrap(); // -1

    graph.add_edge(p1, p5, Relation::Follow).unwrap();
    graph.add_edge(p5, p7, Relation::Follow).unwrap(); // +1
    graph.add_edge(p5, p6, Relation::Follow).unwrap();
    graph.add_edge(p6, p7, Relation::Follow).unwrap(); // +1

    assert_eq!(graph.dump_wot(p1, p7, 1), 2);
    assert_eq!(graph.dump_wot(p1, p7, 2), 2);
    assert_eq!(graph.dump_wot(p1, p7, 3), 2);
}
