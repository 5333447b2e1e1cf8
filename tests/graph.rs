use rust_examples::graph::{Graph, GraphError, GraphStore, Node, NodeHandle, SubGraph};

fn shared_nodes(store: &mut GraphStore, n: usize) -> Vec<NodeHandle> {
    let g = store.add_graph();
    let mut out = Vec::new();
    for i in 0..n {
        out.push(store.add_node(g, i as i32).unwrap());
    }
    out
}

#[test]
fn add_edge_twice_reports_existing() {
    let mut g = Graph::new();
    let a = g.add_node(1);
    let b = g.add_node(2);
    assert_eq!(g.add_edge(a, b), Ok(true));
    assert_eq!(g.add_edge(a, b), Ok(false));
    assert_eq!(g.add_edge(a, a), Ok(true));
}

#[test]
fn add_edge_from_missing_node_fails() {
    let mut g = Graph::new();
    let a = g.add_node(1);
    assert_eq!(g.add_edge(a + 5, a), Err(GraphError));
    assert_eq!(g.remove_edge(a + 5, a), Err(GraphError));
    assert_eq!(g.clear_edges(a + 5), Err(GraphError));
}

#[test]
fn add_edge_to_unknown_target_is_allowed() {
    let mut g = Graph::new();
    let a = g.add_node(1);
    assert_eq!(g.add_edge(a, 42), Ok(true));
    assert_eq!(g.remove_edge(a, 42), Ok(true));
}

#[test]
fn remove_edge_twice() {
    let mut g = Graph::new();
    let a = g.add_node(1);
    let b = g.add_node(2);
    g.add_edge(a, b).unwrap();
    assert_eq!(g.remove_edge(a, b), Ok(true));
    assert_eq!(g.remove_edge(a, b), Ok(false));
}

#[test]
fn clear_edges_then_remove_finds_nothing() {
    let mut g = Graph::new();
    let a = g.add_node(1);
    let b = g.add_node(2);
    let c = g.add_node(3);
    g.add_edge(a, b).unwrap();
    g.add_edge(a, c).unwrap();
    g.add_edge(a, a).unwrap();
    assert_eq!(g.clear_edges(a), Ok(()));
    assert_eq!(g.remove_edge(a, b), Ok(false));
    assert_eq!(g.remove_edge(a, c), Ok(false));
    assert_eq!(g.remove_edge(a, a), Ok(false));
}

#[test]
fn add_node_ids_increase() {
    let mut g = Graph::new();
    let mut last = g.add_node(0);
    assert_eq!(last, 0);
    for v in 1..20 {
        let id = g.add_node(v);
        assert!(id > last);
        last = id;
    }
    assert_eq!(last, 19);
}

#[test]
fn empty_subgraph_has_no_cycle() {
    let store = GraphStore::new();
    let sub = SubGraph::new();
    assert!(!sub.detect_cycle(&store));
}

#[test]
fn two_node_cycle_is_found() {
    let mut store = GraphStore::new();
    let n = shared_nodes(&mut store, 2);
    assert_eq!(n[0].add_edge(&mut store, n[1]), Ok(true));
    assert_eq!(n[1].add_edge(&mut store, n[0]), Ok(true));
    let mut sub = SubGraph::new();
    assert!(sub.add_node(n[0]));
    assert!(sub.add_node(n[1]));
    assert!(sub.detect_cycle(&store));
}

#[test]
fn chain_has_no_cycle() {
    let mut store = GraphStore::new();
    let n = shared_nodes(&mut store, 3);
    n[0].add_edge(&mut store, n[1]).unwrap();
    n[1].add_edge(&mut store, n[2]).unwrap();
    let mut sub = SubGraph::new();
    for h in &n {
        assert!(sub.add_node(*h));
    }
    assert!(!sub.detect_cycle(&store));
}

#[test]
fn self_loop_is_a_cycle() {
    let mut store = GraphStore::new();
    let n = shared_nodes(&mut store, 1);
    assert_eq!(n[0].add_edge(&mut store, n[0]), Ok(true));
    let mut sub = SubGraph::new();
    sub.add_node(n[0]);
    assert!(sub.detect_cycle(&store));
}

#[test]
fn cycle_leaving_the_subgraph_does_not_count() {
    let mut store = GraphStore::new();
    let n = shared_nodes(&mut store, 3);
    n[0].add_edge(&mut store, n[1]).unwrap();
    n[1].add_edge(&mut store, n[2]).unwrap();
    n[2].add_edge(&mut store, n[0]).unwrap();
    let mut sub = SubGraph::new();
    sub.add_node(n[0]);
    sub.add_node(n[1]);
    assert!(!sub.detect_cycle(&store));
    sub.add_node(n[2]);
    assert!(sub.detect_cycle(&store));
}

#[test]
fn diamond_has_no_cycle() {
    let mut store = GraphStore::new();
    let n = shared_nodes(&mut store, 4);
    n[0].add_edge(&mut store, n[1]).unwrap();
    n[0].add_edge(&mut store, n[2]).unwrap();
    n[1].add_edge(&mut store, n[3]).unwrap();
    n[2].add_edge(&mut store, n[3]).unwrap();
    let mut sub = SubGraph::new();
    for h in n.iter().rev() {
        sub.add_node(*h);
    }
    assert!(!sub.detect_cycle(&store));
    n[3].add_edge(&mut store, n[0]).unwrap();
    assert!(sub.detect_cycle(&store));
}

#[test]
fn discarded_graph_makes_handles_fail() {
    let mut store = GraphStore::new();
    let n = shared_nodes(&mut store, 2);
    n[0].add_edge(&mut store, n[1]).unwrap();
    n[1].add_edge(&mut store, n[0]).unwrap();
    let mut sub = SubGraph::new();
    sub.add_node(n[0]);
    sub.add_node(n[1]);
    assert!(sub.detect_cycle(&store));
    store.discard(n[0].graph());
    assert!(!store.is_live(n[0].graph()));
    assert_eq!(n[0].add_edge(&mut store, n[1]), Err(GraphError));
    assert_eq!(n[0].remove_edge(&mut store, &n[1]), Err(GraphError));
    assert_eq!(n[0].clear_edges(&mut store), Err(GraphError));
    assert!(!sub.detect_cycle(&store));
    assert_eq!(store.add_node(n[0].graph(), 7), Err(GraphError));
}

#[test]
fn independent_handles_cannot_be_joined() {
    let mut store = GraphStore::new();
    let a = NodeHandle::new(&mut store, 1);
    let b = NodeHandle::new(&mut store, 2);
    assert_eq!(a.id(), 0);
    assert_eq!(b.id(), 0);
    assert_ne!(a.graph(), b.graph());
    assert_eq!(a.add_edge(&mut store, b), Err(GraphError));
    assert_eq!(a.remove_edge(&mut store, &b), Err(GraphError));
    assert_eq!(a.add_edge(&mut store, a), Ok(true));
    assert_eq!(a.remove_edge(&mut store, &a), Ok(true));
    assert_eq!(a.clear_edges(&mut store), Ok(()));
}

#[test]
fn handle_edge_operations() {
    let mut store = GraphStore::new();
    let n = shared_nodes(&mut store, 2);
    assert_eq!(n[0].add_edge(&mut store, n[1]), Ok(true));
    assert_eq!(n[0].add_edge(&mut store, n[1]), Ok(false));
    assert_eq!(n[0].remove_edge(&mut store, &n[1]), Ok(true));
    assert_eq!(n[0].remove_edge(&mut store, &n[1]), Ok(false));
    n[0].add_edge(&mut store, n[1]).unwrap();
    assert_eq!(n[0].clear_edges(&mut store), Ok(()));
    assert_eq!(n[0].remove_edge(&mut store, &n[1]), Ok(false));
}

#[test]
fn subgraph_membership() {
    let mut store = GraphStore::new();
    let n = shared_nodes(&mut store, 2);
    let mut sub = SubGraph::new();
    assert!(!sub.remove_node(&n[0]));
    assert!(sub.add_node(n[0]));
    assert!(!sub.add_node(n[0]));
    assert!(!sub.remove_node(&n[1]));
    assert!(sub.remove_node(&n[0]));
    assert!(!sub.remove_node(&n[0]));
}

#[test]
fn removing_absent_member_keeps_cycle_answer() {
    let mut store = GraphStore::new();
    let n = shared_nodes(&mut store, 3);
    n[0].add_edge(&mut store, n[0]).unwrap();
    let mut sub = SubGraph::new();
    sub.add_node(n[0]);
    assert!(!sub.remove_node(&n[2]));
    assert!(sub.detect_cycle(&store));
}

#[test]
fn node_values_and_edges() {
    let mut node = Node::new(9);
    assert_eq!(node.value(), 9);
    assert!(node.add_edge(3));
    assert!(!node.add_edge(3));
    assert!(node.remove_edge(3));
    assert!(!node.remove_edge(3));
    node.add_edge(4);
    node.clear_edges();
    assert!(!node.remove_edge(4));
}

#[test]
fn long_chain_then_closed() {
    let mut store = GraphStore::new();
    let n = shared_nodes(&mut store, 1000);
    for i in 0..999 {
        assert_eq!(n[i].add_edge(&mut store, n[i + 1]), Ok(true));
    }
    let mut sub = SubGraph::new();
    for h in &n {
        sub.add_node(*h);
    }
    assert!(!sub.detect_cycle(&store));
    n[999].add_edge(&mut store, n[500]).unwrap();
    assert!(sub.detect_cycle(&store));
}
