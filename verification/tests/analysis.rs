use schedule_graph::digraph::DiGraph;
use schedule_graph::graph_utils::{check_graph, index, row_col, topsort_graph, CheckGraphResults};
use schedule_graph::node::NodeId;

fn sys(i: usize) -> NodeId {
    NodeId::System(i)
}

fn graph_of(nodes: &[NodeId], edges: &[(NodeId, NodeId)]) -> DiGraph {
    let mut g = DiGraph::new();
    for &n in nodes {
        g.add_node(n);
    }
    for &(a, b) in edges {
        g.add_edge(a, b);
    }
    g
}

fn edges_of(g: &DiGraph) -> Vec<(NodeId, NodeId)> {
    let mut edges = Vec::new();
    for a in g.node_list() {
        for b in g.successor_list(a) {
            edges.push((a, b));
        }
    }
    edges.sort();
    edges
}

fn analyse(g: &DiGraph) -> (Vec<NodeId>, CheckGraphResults) {
    let order = match topsort_graph(g) {
        Ok(order) => order,
        Err(_) => panic!("the graph has no cycle"),
    };
    let res = check_graph(g, &order);
    (order, res)
}

#[test]
fn index_is_row_times_columns_plus_column() {
    assert_eq!(index(0, 0, 1), 0);
    assert_eq!(index(2, 3, 5), 13);
    assert_eq!(index(4, 4, 5), 24);
    assert_eq!(index(7, 0, 9), 63);
}

#[test]
fn row_col_undoes_index() {
    assert_eq!(row_col(13, 5), (2, 3));
    assert_eq!(row_col(0, 4), (0, 0));
    assert_eq!(row_col(24, 5), (4, 4));
    for row in 0..6 {
        for col in 0..6 {
            assert_eq!(row_col(index(row, col, 6), 6), (row, col));
        }
    }
}

#[test]
fn default_results_are_empty() {
    let res = CheckGraphResults::default();
    assert_eq!(res.reachable.len(), 0);
    assert!(res.disconnected.is_empty());
    assert!(res.transitive_edges.is_empty());
    assert_eq!(res.transitive_reduction.node_count(), 0);
    assert_eq!(res.transitive_closure.node_count(), 0);
    assert!(!res.connected.contains(sys(0), sys(1)));
}

#[test]
fn empty_graph_gives_empty_results() {
    let g = DiGraph::new();
    let res = check_graph(&g, &Vec::new());
    assert_eq!(res.reachable.len(), 0);
    assert!(res.disconnected.is_empty());
    assert!(res.transitive_edges.is_empty());
    assert_eq!(res.transitive_reduction.node_count(), 0);
    assert_eq!(res.transitive_closure.node_count(), 0);
}

#[test]
fn direct_and_transitive_edge() {
    let a = sys(1);
    let b = sys(2);
    let c = sys(3);
    let g = graph_of(&[], &[(a, b), (b, c), (a, c)]);
    let (order, res) = analyse(&g);
    assert_eq!(order, vec![a, b, c]);
    assert_eq!(edges_of(&res.transitive_reduction), vec![(a, b), (b, c)]);
    assert_eq!(res.transitive_edges, vec![(a, c)]);
    assert!(res.connected.contains(a, b));
    assert!(res.connected.contains(b, c));
    assert!(res.connected.contains(a, c));
    assert!(!res.connected.contains(b, a));
    assert!(!res.connected.contains(c, a));
    assert!(!res.connected.contains(c, b));
    assert!(!res.connected.contains(a, a));
    assert!(res.disconnected.is_empty());
    assert_eq!(edges_of(&res.transitive_closure), vec![(a, b), (a, c), (b, c)]);
    assert_eq!(res.reachable.len(), 9);
    let set: Vec<usize> = res.reachable.ones().collect();
    assert_eq!(set, vec![index(0, 1, 3), index(0, 2, 3), index(1, 2, 3)]);
}

#[test]
fn diagonal_is_left_unset() {
    let g = graph_of(&[], &[(sys(1), sys(2)), (sys(2), sys(3))]);
    let (_, res) = analyse(&g);
    for i in 0..3 {
        assert!(!res.reachable.contains(index(i, i, 3)));
    }
}

#[test]
fn nodes_without_a_path_are_disconnected() {
    let a = sys(1);
    let b = sys(2);
    let c = sys(3);
    let g = graph_of(&[a, b, c], &[(a, b)]);
    let (order, res) = analyse(&g);
    assert!(res.connected.contains(a, b));
    assert!(!res.connected.contains(a, c));
    assert!(!res.connected.contains(c, b));
    assert_eq!(res.disconnected.len(), 2);
    let place = |n: NodeId| order.iter().position(|&x| x == n).unwrap();
    for &(x, y) in &res.disconnected {
        assert!(place(x) < place(y));
        assert!(x == c || y == c);
    }
    assert_ne!(res.disconnected[0], res.disconnected[1]);
    assert!(res.transitive_edges.is_empty());
    assert_eq!(edges_of(&res.transitive_reduction), vec![(a, b)]);
}

#[test]
fn disconnected_pairs_come_row_by_row() {
    let nodes = [sys(1), sys(2), sys(3), sys(4)];
    let g = graph_of(&nodes, &[]);
    let (order, res) = analyse(&g);
    let mut want = Vec::new();
    for i in 0..4 {
        for j in (i + 1)..4 {
            want.push((order[i], order[j]));
        }
    }
    assert_eq!(res.disconnected, want);
    assert_eq!(res.reachable.count_ones(..), 0);
    assert_eq!(res.reachable.len(), 16);
}

#[test]
fn every_pair_is_connected_or_disconnected() {
    let edges = [
        (sys(1), sys(2)),
        (sys(1), sys(3)),
        (sys(2), sys(4)),
        (sys(3), sys(4)),
        (sys(5), sys(4)),
        (sys(1), sys(4)),
    ];
    let g = graph_of(&[sys(6)], &edges);
    let (order, res) = analyse(&g);
    let n = order.len();
    assert_eq!(n, 6);
    let mut connected = 0;
    for i in 0..n {
        for j in (i + 1)..n {
            let pair = (order[i], order[j]);
            let is_connected = res.connected.contains(pair.0, pair.1);
            let is_disconnected = res.disconnected.contains(&pair);
            assert!(is_connected != is_disconnected);
            assert_eq!(is_connected, res.reachable.contains(index(i, j, n)));
            if is_connected {
                connected += 1;
            }
        }
    }
    assert_eq!(connected + res.disconnected.len(), n * (n - 1) / 2);
    assert_eq!(connected, 6);
}

#[test]
fn reduction_of_a_diamond_with_a_shortcut() {
    let edges = [
        (sys(1), sys(2)),
        (sys(1), sys(3)),
        (sys(2), sys(4)),
        (sys(3), sys(4)),
        (sys(1), sys(4)),
    ];
    let g = graph_of(&[], &edges);
    let (order, res) = analyse(&g);
    assert_eq!(
        edges_of(&res.transitive_reduction),
        vec![(sys(1), sys(2)), (sys(1), sys(3)), (sys(2), sys(4)), (sys(3), sys(4))]
    );
    assert_eq!(res.transitive_edges, vec![(sys(1), sys(4))]);
    assert_eq!(
        edges_of(&res.transitive_closure),
        vec![
            (sys(1), sys(2)),
            (sys(1), sys(3)),
            (sys(1), sys(4)),
            (sys(2), sys(4)),
            (sys(3), sys(4))
        ]
    );
    assert_eq!(res.transitive_reduction.node_list(), order);
    assert_eq!(res.transitive_closure.node_list(), order);
    assert_eq!(res.disconnected.len(), 1);
}

#[test]
fn redundant_edges_come_from_the_last_node_on() {
    let edges = [
        (sys(1), sys(2)),
        (sys(2), sys(3)),
        (sys(3), sys(4)),
        (sys(1), sys(3)),
        (sys(1), sys(4)),
        (sys(2), sys(4)),
    ];
    let g = graph_of(&[], &edges);
    let (order, res) = analyse(&g);
    assert_eq!(order, vec![sys(1), sys(2), sys(3), sys(4)]);
    assert_eq!(
        res.transitive_edges,
        vec![(sys(2), sys(4)), (sys(1), sys(3)), (sys(1), sys(4))]
    );
    assert_eq!(
        edges_of(&res.transitive_reduction),
        vec![(sys(1), sys(2)), (sys(2), sys(3)), (sys(3), sys(4))]
    );
    assert_eq!(res.reachable.count_ones(..), 6);
    assert!(res.disconnected.is_empty());
}

#[test]
fn successors_of_the_reduction_follow_the_order() {
    let edges = [(sys(1), sys(4)), (sys(1), sys(3)), (sys(1), sys(2)), (sys(2), sys(9))];
    let g = graph_of(&[], &edges);
    let (order, res) = analyse(&g);
    let place = |n: NodeId| order.iter().position(|&x| x == n).unwrap();
    let succs = res.transitive_reduction.successor_list(sys(1));
    assert_eq!(succs.len(), 3);
    assert!(place(succs[0]) < place(succs[1]));
    assert!(place(succs[1]) < place(succs[2]));
}

#[test]
fn single_node_has_one_unset_bit() {
    let g = graph_of(&[sys(7)], &[]);
    let (order, res) = analyse(&g);
    assert_eq!(order, vec![sys(7)]);
    assert_eq!(res.reachable.len(), 1);
    assert!(!res.reachable.contains(0));
    assert!(res.disconnected.is_empty());
    assert_eq!(res.transitive_reduction.node_list(), vec![sys(7)]);
}

#[test]
fn marks_of_one_node_do_not_reach_the_next() {
    let edges = [(sys(2), sys(3)), (sys(3), sys(4)), (sys(1), sys(4))];
    let g = graph_of(&[sys(1), sys(2), sys(3), sys(4)], &edges);
    let (_, res) = analyse(&g);
    assert!(res.transitive_edges.is_empty());
    assert_eq!(
        edges_of(&res.transitive_reduction),
        vec![(sys(1), sys(4)), (sys(2), sys(3)), (sys(3), sys(4))]
    );
    assert!(res.connected.contains(sys(2), sys(4)));
    assert!(!res.connected.contains(sys(1), sys(3)));
}

#[test]
fn reduction_reaches_what_the_graph_reaches() {
    let edges = [
        (sys(1), sys(2)),
        (sys(2), sys(3)),
        (sys(1), sys(3)),
        (sys(3), sys(4)),
        (sys(1), sys(4)),
        (sys(5), sys(3)),
        (sys(5), sys(4)),
    ];
    let g = graph_of(&[], &edges);
    let (order, res) = analyse(&g);
    let reduced = check_graph(&res.transitive_reduction, &order);
    assert_eq!(edges_of(&reduced.transitive_closure), edges_of(&res.transitive_closure));
    assert_eq!(edges_of(&reduced.transitive_reduction), edges_of(&res.transitive_reduction));
    assert!(reduced.transitive_edges.is_empty());
    assert_eq!(res.transitive_edges.len(), 3);
}

#[test]
fn reduction_needs_each_of_its_edges() {
    let edges = [
        (sys(1), sys(2)),
        (sys(2), sys(3)),
        (sys(1), sys(3)),
        (sys(3), sys(4)),
        (sys(5), sys(3)),
        (sys(5), sys(4)),
    ];
    let g = graph_of(&[], &edges);
    let (order, res) = analyse(&g);
    let kept = edges_of(&res.transitive_reduction);
    assert_eq!(kept.len(), 4);
    for &(a, b) in &kept {
        let fewer: Vec<(NodeId, NodeId)> =
            kept.iter().copied().filter(|&e| e != (a, b)).collect();
        let h = graph_of(&order, &fewer);
        let without = check_graph(&h, &order);
        assert!(res.connected.contains(a, b));
        assert!(!without.connected.contains(a, b));
    }
}
