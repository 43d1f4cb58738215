use lib::graph::DiGraph;

fn position(order: &[usize], x: usize) -> usize {
    order.iter().position(|&y| y == x).unwrap()
}

#[test]
fn empty_graph_sorts_to_nothing() {
    let g = DiGraph::new();
    assert!(g.topological_sort_kahn().is_empty());
    assert_eq!(g.in_degree(3), 0);
}

#[test]
fn add_node_is_idempotent() {
    let mut g = DiGraph::new();
    g.add_node(7);
    g.add_node(7);
    assert_eq!(g.topological_sort_kahn(), vec![7]);
    assert_eq!(g.in_degree(7), 0);
}

#[test]
fn in_degree_counts_distinct_predecessors() {
    let mut g = DiGraph::new();
    g.add_edge(1, 3);
    g.add_edge(2, 3);
    g.add_edge(2, 3);
    g.add_edge(3, 4);
    assert_eq!(g.in_degree(3), 2);
    assert_eq!(g.in_degree(4), 1);
    assert_eq!(g.in_degree(1), 0);
    assert_eq!(g.in_degree(100), 0);
}

#[test]
fn chain_sorts_in_edge_order() {
    let mut g = DiGraph::new();
    g.add_edge(1, 2);
    g.add_edge(2, 3);
    g.add_edge(3, 4);
    assert_eq!(g.topological_sort_kahn(), vec![1, 2, 3, 4]);
}

#[test]
fn diamond_order_respects_every_edge() {
    let mut g = DiGraph::new();
    let edges = [(0, 1), (0, 2), (1, 3), (2, 3), (3, 4), (1, 4)];
    for &(u, v) in edges.iter() {
        g.add_edge(u, v);
    }
    let order = g.topological_sort_kahn();
    assert_eq!(order.len(), 5);
    for &(u, v) in edges.iter() {
        assert!(position(&order, u) < position(&order, v));
    }
    assert_eq!(order[0], 0);
    assert_eq!(order[4], 4);
}

#[test]
fn cycle_and_its_descendants_are_left_out() {
    let mut g = DiGraph::new();
    g.add_edge(1, 2);
    g.add_edge(2, 3);
    g.add_edge(3, 2);
    g.add_edge(3, 4);
    g.add_node(5);
    let mut order = g.topological_sort_kahn();
    order.sort();
    assert_eq!(order, vec![1, 5]);
}

#[test]
fn self_loop_is_a_cycle() {
    let mut g = DiGraph::new();
    g.add_edge(6, 6);
    g.add_node(8);
    assert_eq!(g.in_degree(6), 1);
    assert_eq!(g.topological_sort_kahn(), vec![8]);
}

#[test]
fn acyclic_graph_lists_every_node_once() {
    let mut g = DiGraph::new();
    for i in 0..30usize {
        g.add_edge(i, i + 1);
        if i % 3 == 0 {
            g.add_edge(i, i + 5);
        }
    }
    let order = g.topological_sort_kahn();
    assert_eq!(order.len(), 32);
    let mut sorted = order.clone();
    sorted.sort();
    sorted.dedup();
    assert_eq!(sorted.len(), 32);
}

#[test]
fn nodes_without_predecessors_come_first() {
    let mut g = DiGraph::new();
    g.add_edge(5, 1);
    g.add_edge(2, 3);
    g.add_edge(4, 5);
    g.add_edge(3, 1);
    g.add_node(9);
    let order = g.topological_sort_kahn();
    assert_eq!(order.len(), 6);
    let mut first: Vec<usize> = order[..3].to_vec();
    first.sort();
    assert_eq!(first, vec![2, 4, 9]);
    assert_eq!(order[5], 1);
}
