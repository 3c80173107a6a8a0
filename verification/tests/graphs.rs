use schedule_graph::digraph::DiGraph;
use schedule_graph::graph_utils::{order_components, topsort_graph, GraphError};
use schedule_graph::node::{append_nodes, copy_nodes, reversed_nodes, NodeId};
use schedule_graph::schedule_graph::{checked_order, find_self_loop};

fn sys(i: usize) -> NodeId {
    NodeId::System(i)
}

fn set(i: usize) -> NodeId {
    NodeId::SystemSet(i)
}

fn graph_of(nodes: &[NodeId], edges: &[(NodeId, NodeId)]) -> DiGraph {
    let mut g = DiGraph::new();
    for &n in nodes {
        g.add_node(n);
    }
    for &(a, b) in edges {
        g.add_edge(a, b);
    }
    g
}

fn place(order: &[NodeId], n: NodeId) -> usize {
    order.iter().position(|&x| x == n).unwrap()
}

#[test]
fn node_kinds_and_numbers() {
    assert!(sys(3).is_system());
    assert!(!sys(3).is_set());
    assert!(set(4).is_set());
    assert!(!set(4).is_system());
    assert_eq!(sys(3).index(), 3);
    assert_eq!(set(4).index(), 4);
    assert_ne!(sys(1), set(1));
}

#[test]
fn node_lists_are_copied_appended_and_reversed() {
    let list = vec![sys(1), sys(2), set(3)];
    assert_eq!(copy_nodes(&list), list);
    assert_eq!(reversed_nodes(&list), vec![set(3), sys(2), sys(1)]);
    let mut more = vec![sys(9)];
    append_nodes(&mut more, &list);
    assert_eq!(more, vec![sys(9), sys(1), sys(2), set(3)]);
    assert_eq!(reversed_nodes(&Vec::new()), Vec::new());
}

#[test]
fn new_graph_is_empty() {
    let g = DiGraph::new();
    assert_eq!(g.node_count(), 0);
    assert_eq!(g.node_list(), Vec::new());
    assert_eq!(g.successor_list(sys(0)), Vec::new());
    assert_eq!(g.predecessor_list(sys(0)), Vec::new());
    assert!(!g.contains_node(sys(0)));
}

#[test]
fn add_node_keeps_first_place() {
    let mut g = DiGraph::new();
    g.add_node(sys(2));
    g.add_node(sys(1));
    g.add_node(sys(2));
    assert_eq!(g.node_count(), 2);
    assert_eq!(g.node_list(), vec![sys(2), sys(1)]);
    assert!(g.contains_node(sys(1)));
    assert!(!g.contains_node(sys(3)));
}

#[test]
fn add_edge_adds_missing_nodes_source_first() {
    let mut g = DiGraph::new();
    g.add_edge(sys(5), sys(4));
    assert_eq!(g.node_list(), vec![sys(5), sys(4)]);
    assert_eq!(g.successor_list(sys(5)), vec![sys(4)]);
    assert_eq!(g.successor_list(sys(4)), Vec::new());
    assert_eq!(g.predecessor_list(sys(4)), vec![sys(5)]);
}

#[test]
fn add_edge_twice_changes_nothing() {
    let mut g = DiGraph::new();
    g.add_edge(sys(1), sys(2));
    g.add_edge(sys(1), sys(3));
    g.add_edge(sys(1), sys(2));
    assert_eq!(g.node_count(), 3);
    assert_eq!(g.successor_list(sys(1)), vec![sys(2), sys(3)]);
}

#[test]
fn self_loop_shows_in_both_directions() {
    let mut g = DiGraph::new();
    g.add_edge(sys(1), sys(1));
    assert_eq!(g.node_list(), vec![sys(1)]);
    assert_eq!(g.successor_list(sys(1)), vec![sys(1)]);
    assert_eq!(g.predecessor_list(sys(1)), vec![sys(1)]);
}

#[test]
fn remove_node_takes_its_edges_along() {
    let mut g = graph_of(
        &[sys(1), sys(2), sys(3)],
        &[(sys(1), sys(2)), (sys(2), sys(3)), (sys(1), sys(3))],
    );
    assert!(g.remove_node(sys(2)));
    assert!(!g.remove_node(sys(2)));
    let mut nodes = g.node_list();
    nodes.sort();
    assert_eq!(nodes, vec![sys(1), sys(3)]);
    assert_eq!(g.successor_list(sys(1)), vec![sys(3)]);
    assert_eq!(g.successor_list(sys(2)), Vec::new());
    assert_eq!(g.predecessor_list(sys(3)), vec![sys(1)]);
}

#[test]
fn predecessors_are_listed_once_each() {
    let g = graph_of(&[], &[(sys(1), sys(3)), (sys(2), sys(3)), (sys(3), sys(4))]);
    let mut preds = g.predecessor_list(sys(3));
    preds.sort();
    assert_eq!(preds, vec![sys(1), sys(2)]);
}

#[test]
fn components_come_in_reverse_topological_order() {
    let g = graph_of(&[], &[(sys(1), sys(2)), (sys(2), sys(3))]);
    assert_eq!(g.component_list(), vec![vec![sys(3)], vec![sys(2)], vec![sys(1)]]);
}

#[test]
fn components_group_the_nodes_of_a_cycle() {
    let g = graph_of(&[], &[(sys(1), sys(2)), (sys(2), sys(1)), (sys(2), sys(3))]);
    let comps = g.component_list();
    assert_eq!(comps.len(), 2);
    assert_eq!(comps[0], vec![sys(3)]);
    let mut cycle = comps[1].clone();
    cycle.sort();
    assert_eq!(cycle, vec![sys(1), sys(2)]);
}

#[test]
fn order_components_reverses_single_components() {
    let comps = vec![vec![sys(3)], vec![sys(2)], vec![sys(1)]];
    match order_components(&comps) {
        Ok(order) => assert_eq!(order, vec![sys(1), sys(2), sys(3)]),
        Err(_) => panic!("single components are no cycle"),
    }
    match order_components(&Vec::new()) {
        Ok(order) => assert_eq!(order, Vec::new()),
        Err(_) => panic!("no component is no cycle"),
    }
}

#[test]
fn order_components_reports_each_large_component() {
    let comps = vec![
        vec![sys(1), sys(2)],
        vec![sys(3)],
        vec![sys(4), sys(5), sys(6)],
    ];
    match order_components(&comps) {
        Ok(_) => panic!("large components are cycles"),
        Err(GraphError::CycleDetected(groups)) => {
            assert_eq!(groups, vec![vec![sys(1), sys(2)], vec![sys(4), sys(5), sys(6)]]);
        }
    }
}

#[test]
fn topsort_puts_every_edge_forward() {
    let edges = [
        (sys(5), sys(2)),
        (sys(2), sys(7)),
        (sys(5), sys(7)),
        (set(1), sys(2)),
        (sys(7), set(9)),
        (sys(4), set(9)),
    ];
    let g = graph_of(&[sys(0)], &edges);
    let order = match topsort_graph(&g) {
        Ok(order) => order,
        Err(_) => panic!("the graph has no cycle"),
    };
    assert_eq!(order.len(), 7);
    let mut sorted = order.clone();
    sorted.sort();
    sorted.dedup();
    assert_eq!(sorted.len(), 7);
    for &(a, b) in &edges {
        assert!(place(&order, a) < place(&order, b));
    }
}

#[test]
fn topsort_of_a_chain_is_the_chain() {
    let g = graph_of(&[sys(3), sys(2), sys(1)], &[(sys(1), sys(2)), (sys(2), sys(3))]);
    match topsort_graph(&g) {
        Ok(order) => assert_eq!(order, vec![sys(1), sys(2), sys(3)]),
        Err(_) => panic!("a chain has no cycle"),
    }
}

#[test]
fn topsort_detects_a_cycle_of_three() {
    let a = sys(1);
    let b = sys(2);
    let c = sys(3);
    let g = graph_of(&[], &[(a, b), (b, c), (c, a)]);
    match topsort_graph(&g) {
        Ok(_) => panic!("a cycle must be detected"),
        Err(GraphError::CycleDetected(groups)) => {
            assert_eq!(groups.len(), 1);
            let mut group = groups[0].clone();
            group.sort();
            assert_eq!(group, vec![a, b, c]);
        }
    }
}

#[test]
fn topsort_without_edges_orders_all_nodes() {
    let nodes = [sys(4), sys(1), set(2), sys(3), set(0)];
    let g = graph_of(&nodes, &[]);
    let mut order = match topsort_graph(&g) {
        Ok(order) => order,
        Err(_) => panic!("no edge, no cycle"),
    };
    assert_eq!(order.len(), 5);
    order.sort();
    let mut want = nodes.to_vec();
    want.sort();
    assert_eq!(order, want);
}

#[test]
fn topsort_of_the_empty_graph_is_empty() {
    match topsort_graph(&DiGraph::new()) {
        Ok(order) => assert!(order.is_empty()),
        Err(_) => panic!("no node, no cycle"),
    }
}

#[test]
fn topsort_passes_over_a_self_loop() {
    let g = graph_of(&[], &[(sys(1), sys(1)), (sys(1), sys(2))]);
    match topsort_graph(&g) {
        Ok(order) => assert_eq!(order, vec![sys(1), sys(2)]),
        Err(_) => panic!("a self loop is no component of two nodes"),
    }
}

#[test]
fn topsort_names_only_the_cycles() {
    let g = graph_of(
        &[],
        &[
            (sys(1), sys(2)),
            (sys(2), sys(1)),
            (sys(2), sys(3)),
            (sys(4), sys(5)),
            (sys(5), sys(4)),
        ],
    );
    match topsort_graph(&g) {
        Ok(_) => panic!("two cycles must be detected"),
        Err(GraphError::CycleDetected(groups)) => {
            let mut all: Vec<Vec<NodeId>> = groups
                .iter()
                .map(|g| {
                    let mut g = g.clone();
                    g.sort();
                    g
                })
                .collect();
            all.sort();
            assert_eq!(all, vec![vec![sys(1), sys(2)], vec![sys(4), sys(5)]]);
        }
    }
}

#[test]
fn find_self_loop_finds_the_node() {
    let g = graph_of(&[], &[(sys(1), sys(2)), (sys(2), sys(2)), (sys(2), sys(3))]);
    assert_eq!(find_self_loop(&g), Some(sys(2)));
    let h = graph_of(&[], &[(sys(1), sys(2)), (sys(2), sys(3))]);
    assert_eq!(find_self_loop(&h), None);
    assert_eq!(find_self_loop(&DiGraph::new()), None);
}

#[test]
fn checked_order_rejects_a_self_loop() {
    let g = graph_of(&[], &[(sys(1), sys(2)), (sys(2), sys(2))]);
    match checked_order(&g) {
        Ok(_) => panic!("a self loop is a cycle"),
        Err(GraphError::CycleDetected(groups)) => assert_eq!(groups, vec![vec![sys(2)]]),
    }
}

#[test]
fn checked_order_rejects_a_long_cycle() {
    let g = graph_of(&[], &[(sys(1), sys(2)), (sys(2), sys(1))]);
    match checked_order(&g) {
        Ok(_) => panic!("a cycle must be detected"),
        Err(GraphError::CycleDetected(groups)) => {
            assert_eq!(groups.len(), 1);
            assert_eq!(groups[0].len(), 2);
        }
    }
}

#[test]
fn checked_order_accepts_a_graph_without_cycles() {
    let g = graph_of(&[], &[(sys(1), sys(2)), (sys(1), sys(3)), (sys(3), sys(2))]);
    match checked_order(&g) {
        Ok(order) => assert_eq!(order, vec![sys(1), sys(3), sys(2)]),
        Err(_) => panic!("the graph has no cycle"),
    }
}
