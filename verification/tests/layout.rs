use schedule_graph::digraph::DiGraph;
use schedule_graph::graph_utils::{topsort_graph, GraphError};
use schedule_graph::layer_graph::LayerGraph;
use schedule_graph::layering::{assign_layers, build_layering_graph, is_top_level};
use schedule_graph::node::NodeId;
use schedule_graph::schedule_graph::schedule_graph_layout;
use schedule_graph::simplify::{fold_single_member, simplify_hierarchy};
use schedule_graph::tables::NameTable;

fn sys(i: usize) -> NodeId {
    NodeId::System(i)
}

fn set(i: usize) -> NodeId {
    NodeId::SystemSet(i)
}

fn graph_of(nodes: &[NodeId], edges: &[(NodeId, NodeId)]) -> DiGraph {
    let mut g = DiGraph::new();
    for &n in nodes {
        g.add_node(n);
    }
    for &(a, b) in edges {
        g.add_edge(a, b);
    }
    g
}

fn nodes_of(g: &DiGraph) -> Vec<NodeId> {
    let mut nodes = g.node_list();
    nodes.sort();
    nodes
}

fn edges_of(g: &DiGraph) -> Vec<(NodeId, NodeId)> {
    let mut edges = Vec::new();
    for a in g.node_list() {
        for b in g.successor_list(a) {
            edges.push((a, b));
        }
    }
    edges.sort();
    edges
}

fn order_of(g: &DiGraph) -> Vec<NodeId> {
    match topsort_graph(g) {
        Ok(order) => order,
        Err(_) => panic!("the graph has no cycle"),
    }
}

fn names_for(systems: &[(usize, &str)], sets: &[(usize, &str)]) -> (NameTable, NameTable) {
    let mut system_names = NameTable::new();
    for &(i, name) in systems {
        system_names.insert(sys(i), name.to_string());
    }
    let mut set_names = NameTable::new();
    for &(i, name) in sets {
        set_names.insert(set(i), name.to_string());
    }
    (system_names, set_names)
}

fn layout_of(
    dependencies: DiGraph,
    hierarchy: DiGraph,
    system_names: &NameTable,
    set_names: &NameTable,
) -> LayerGraph {
    let topsort = order_of(&dependencies);
    match schedule_graph_layout(dependencies, hierarchy, &topsort, system_names, set_names) {
        Ok(graph) => graph,
        Err(_) => panic!("the schedule has no cycle"),
    }
}

fn sorted(mut nodes: Vec<NodeId>) -> Vec<NodeId> {
    nodes.sort();
    nodes
}

#[test]
fn single_member_group_is_folded_away() {
    let pre = sys(1);
    let task_x = sys(2);
    let post = sys(3);
    let group1 = set(1);
    let mut dependencies = graph_of(&[pre, group1, post, task_x], &[(pre, group1), (group1, post)]);
    let mut hierarchy = graph_of(&[pre, group1, post, task_x], &[(group1, task_x)]);
    let topsort = order_of(&dependencies);
    simplify_hierarchy(&mut dependencies, &mut hierarchy, &topsort);
    assert!(!dependencies.contains_node(group1));
    assert!(!hierarchy.contains_node(group1));
    assert_eq!(edges_of(&dependencies), vec![(pre, task_x), (task_x, post)]);
    assert_eq!(nodes_of(&dependencies), vec![pre, task_x, post]);
    assert_eq!(edges_of(&hierarchy), Vec::new());
    assert_eq!(nodes_of(&hierarchy), vec![pre, task_x, post]);
}

#[test]
fn simplifying_twice_is_simplifying_once() {
    let mut dependencies = graph_of(
        &[sys(1), sys(2), sys(3), sys(4), set(1), set(2), set(3)],
        &[(sys(1), set(1)), (set(1), set(2)), (set(2), sys(4)), (set(3), sys(1))],
    );
    let mut hierarchy = graph_of(
        &[sys(1), sys(2), sys(3), sys(4), set(1), set(2), set(3)],
        &[(set(1), sys(2)), (set(2), sys(3)), (set(2), sys(4))],
    );
    let topsort = order_of(&dependencies);
    simplify_hierarchy(&mut dependencies, &mut hierarchy, &topsort);
    let nodes_once = nodes_of(&dependencies);
    let edges_once = edges_of(&dependencies);
    let groups_once = edges_of(&hierarchy);
    assert_eq!(
        edges_once,
        vec![(sys(1), sys(2)), (sys(2), set(2)), (set(2), sys(4)), (set(3), sys(1))]
    );
    assert_eq!(groups_once, vec![(set(2), sys(3)), (set(2), sys(4))]);
    simplify_hierarchy(&mut dependencies, &mut hierarchy, &topsort);
    assert_eq!(nodes_of(&dependencies), nodes_once);
    assert_eq!(edges_of(&dependencies), edges_once);
    assert_eq!(edges_of(&hierarchy), groups_once);
    for group in [set(1), set(2), set(3)] {
        assert_ne!(hierarchy.successor_list(group).len(), 1);
    }
}

#[test]
fn groups_with_no_or_two_members_stay() {
    let mut dependencies = graph_of(&[set(1), set(2), sys(1)], &[(set(1), set(2)), (set(2), sys(1))]);
    let mut hierarchy = graph_of(&[set(1), set(2), sys(1), sys(2), sys(3)], &[(set(2), sys(2)), (set(2), sys(3))]);
    let topsort = order_of(&dependencies);
    simplify_hierarchy(&mut dependencies, &mut hierarchy, &topsort);
    assert_eq!(edges_of(&dependencies), vec![(set(1), set(2)), (set(2), sys(1))]);
    assert_eq!(edges_of(&hierarchy), vec![(set(2), sys(2)), (set(2), sys(3))]);
    assert!(dependencies.contains_node(set(1)));
    assert!(dependencies.contains_node(set(2)));
}

#[test]
fn folding_a_system_changes_nothing() {
    let mut dependencies = graph_of(&[], &[(sys(1), sys(2))]);
    let mut hierarchy = graph_of(&[], &[(sys(1), sys(3))]);
    fold_single_member(&mut dependencies, &mut hierarchy, sys(1));
    assert_eq!(edges_of(&dependencies), vec![(sys(1), sys(2))]);
    assert_eq!(edges_of(&hierarchy), vec![(sys(1), sys(3))]);
}

#[test]
fn folding_adds_the_member_to_the_dependencies() {
    let mut dependencies = graph_of(&[], &[(sys(1), set(1))]);
    let mut hierarchy = graph_of(&[], &[(set(1), sys(9))]);
    fold_single_member(&mut dependencies, &mut hierarchy, set(1));
    assert_eq!(nodes_of(&dependencies), vec![sys(1), sys(9)]);
    assert_eq!(edges_of(&dependencies), vec![(sys(1), sys(9))]);
    assert_eq!(nodes_of(&hierarchy), vec![sys(9)]);
}

#[test]
fn groups_only_of_the_order_are_folded() {
    let mut dependencies = graph_of(&[], &[(sys(1), set(1)), (sys(1), set(2))]);
    let mut hierarchy = graph_of(&[], &[(set(1), sys(5)), (set(2), sys(6))]);
    simplify_hierarchy(&mut dependencies, &mut hierarchy, &vec![set(2)]);
    assert_eq!(edges_of(&dependencies), vec![(sys(1), sys(6)), (sys(1), set(1))]);
    assert_eq!(edges_of(&hierarchy), vec![(set(1), sys(5))]);
}

#[test]
fn top_level_nodes_are_groups_and_free_systems() {
    let hierarchy = graph_of(&[sys(1), sys(2), set(1), set(2)], &[(set(1), sys(2)), (set(2), set(1))]);
    assert!(is_top_level(&hierarchy, sys(1)));
    assert!(!is_top_level(&hierarchy, sys(2)));
    assert!(is_top_level(&hierarchy, set(1)));
    assert!(is_top_level(&hierarchy, set(2)));
    assert!(is_top_level(&hierarchy, sys(77)));
}

#[test]
fn layering_graph_routes_edges_onto_groups() {
    let dependencies = graph_of(
        &[sys(1), sys(2), sys(3), sys(4), set(1)],
        &[(sys(1), sys(2)), (sys(3), sys(4)), (sys(2), sys(3))],
    );
    let hierarchy = graph_of(
        &[sys(1), sys(2), sys(3), sys(4), set(1)],
        &[(set(1), sys(2)), (set(1), sys(3))],
    );
    let topsort = order_of(&dependencies);
    let layering = build_layering_graph(&dependencies, &hierarchy, &topsort);
    assert_eq!(nodes_of(&layering), vec![sys(1), sys(4), set(1)]);
    assert_eq!(edges_of(&layering), vec![(sys(1), set(1)), (set(1), sys(4))]);
}

#[test]
fn layering_graph_of_free_systems_is_the_dependency_graph() {
    let dependencies = graph_of(&[sys(9)], &[(sys(1), sys(2)), (sys(1), sys(3)), (sys(3), sys(2))]);
    let hierarchy = DiGraph::new();
    let topsort = order_of(&dependencies);
    let layering = build_layering_graph(&dependencies, &hierarchy, &topsort);
    assert_eq!(nodes_of(&layering), nodes_of(&dependencies));
    assert_eq!(edges_of(&layering), edges_of(&dependencies));
}

#[test]
fn layering_graph_takes_edges_of_members_and_of_the_group() {
    let dependencies = graph_of(
        &[sys(1), sys(2), sys(3), set(1), set(2)],
        &[(sys(1), sys(3)), (set(1), set(2))],
    );
    let hierarchy = graph_of(
        &[sys(1), sys(2), sys(3), set(1), set(2)],
        &[(set(1), sys(1)), (set(1), sys(2))],
    );
    let topsort = order_of(&dependencies);
    let layering = build_layering_graph(&dependencies, &hierarchy, &topsort);
    assert_eq!(nodes_of(&layering), vec![sys(3), set(1), set(2)]);
    assert_eq!(edges_of(&layering), vec![(set(1), sys(3)), (set(1), set(2))]);
}

#[test]
fn three_free_tasks_share_one_layer() {
    let layering = graph_of(&[sys(1), sys(2), sys(3)], &[]);
    let order = order_of(&layering);
    let layers = assign_layers(&layering, &order);
    assert_eq!(layers.len(), 1);
    assert_eq!(sorted(layers[0].clone()), vec![sys(1), sys(2), sys(3)]);
    assert_eq!(layers[0], order);
}

#[test]
fn a_chain_gives_one_layer_per_task() {
    let layering = graph_of(&[sys(3), sys(1), sys(2)], &[(sys(1), sys(2)), (sys(2), sys(3))]);
    let order = order_of(&layering);
    let layers = assign_layers(&layering, &order);
    assert_eq!(layers, vec![vec![sys(1)], vec![sys(2)], vec![sys(3)]]);
}

#[test]
fn layer_is_one_more_than_the_last_predecessor() {
    let edges = [
        (sys(1), sys(2)),
        (sys(2), sys(3)),
        (sys(1), sys(3)),
        (sys(4), sys(3)),
        (sys(3), sys(5)),
        (sys(4), sys(6)),
    ];
    let layering = graph_of(&[sys(7)], &edges);
    let order = order_of(&layering);
    let layers = assign_layers(&layering, &order);
    assert_eq!(layers.len(), 4);
    assert_eq!(sorted(layers[0].clone()), vec![sys(1), sys(4), sys(7)]);
    assert_eq!(sorted(layers[1].clone()), vec![sys(2), sys(6)]);
    assert_eq!(layers[2], vec![sys(3)]);
    assert_eq!(layers[3], vec![sys(5)]);
    let layer_of = |n: NodeId| layers.iter().position(|l| l.contains(&n)).unwrap();
    for &(a, b) in &edges {
        assert!(layer_of(a) < layer_of(b));
    }
    let place = |n: NodeId| order.iter().position(|&x| x == n).unwrap();
    for layer in &layers {
        for pair in layer.windows(2) {
            assert!(place(pair[0]) < place(pair[1]));
        }
    }
}

#[test]
fn no_node_gives_no_layer() {
    let layering = DiGraph::new();
    let layers = assign_layers(&layering, &Vec::new());
    assert!(layers.is_empty());
}

#[test]
fn layout_of_three_free_tasks() {
    let dependencies = graph_of(&[sys(1), sys(2), sys(3)], &[]);
    let hierarchy = graph_of(&[sys(1), sys(2), sys(3)], &[]);
    let (system_names, set_names) =
        names_for(&[(1, "game::one"), (2, "game::two"), (3, "game::three")], &[]);
    let graph = layout_of(dependencies, hierarchy, &system_names, &set_names);
    assert_eq!(graph.layers.len(), 1);
    assert_eq!(sorted(graph.layers[0].clone()), vec![sys(1), sys(2), sys(3)]);
    assert_eq!(graph.node_name(&sys(1)), "one");
    assert_eq!(graph.node_name(&sys(2)), "two");
    assert_eq!(graph.node_name(&sys(3)), "three");
    assert_eq!(graph.node_edges(&sys(1)), Some(Vec::new()));
}

#[test]
fn layout_of_a_chain() {
    let dependencies = graph_of(&[], &[(sys(1), sys(2)), (sys(2), sys(3))]);
    let hierarchy = graph_of(&[sys(1), sys(2), sys(3)], &[]);
    let (system_names, set_names) = names_for(&[(1, "t::T1"), (2, "t::T2"), (3, "t::T3")], &[]);
    let graph = layout_of(dependencies, hierarchy, &system_names, &set_names);
    assert_eq!(graph.layers, vec![vec![sys(1)], vec![sys(2)], vec![sys(3)]]);
    assert_eq!(graph.node_name(&sys(1)), "T1");
    assert_eq!(graph.node_name(&sys(2)), "T2");
    assert_eq!(graph.node_name(&sys(3)), "T3");
    assert_eq!(graph.node_edges(&sys(1)), Some(vec![sys(2)]));
    assert_eq!(graph.node_edges(&sys(2)), Some(vec![sys(3)]));
    assert_eq!(graph.node_edges(&sys(3)), Some(Vec::new()));
    assert_eq!(graph.node_edges(&sys(4)), None);
}

#[test]
fn layout_shows_only_edges_that_are_not_redundant() {
    let dependencies = graph_of(&[], &[(sys(1), sys(2)), (sys(2), sys(3)), (sys(1), sys(3))]);
    let hierarchy = graph_of(&[sys(1), sys(2), sys(3)], &[]);
    let (system_names, set_names) = names_for(&[(1, "a"), (2, "b"), (3, "c")], &[]);
    let graph = layout_of(dependencies, hierarchy, &system_names, &set_names);
    assert_eq!(graph.layers, vec![vec![sys(1)], vec![sys(2)], vec![sys(3)]]);
    assert_eq!(graph.node_edges(&sys(1)), Some(vec![sys(2)]));
    assert_eq!(graph.node_edges(&sys(2)), Some(vec![sys(3)]));
}

#[test]
fn layout_with_a_group_of_two_and_a_group_of_one() {
    let dependencies = graph_of(
        &[sys(1), sys(2), sys(3), sys(4), set(1), set(2)],
        &[(sys(1), set(1)), (sys(2), sys(3)), (set(1), set(2)), (sys(3), sys(4))],
    );
    let hierarchy = graph_of(
        &[sys(1), sys(2), sys(3), sys(4), set(1), set(2)],
        &[(set(1), sys(2)), (set(1), sys(3)), (set(2), sys(4))],
    );
    let (system_names, set_names) = names_for(
        &[(1, "app::first"), (2, "app::second"), (3, "app::third"), (4, "app::fourth")],
        &[(1, "Physics"), (2, "Single")],
    );
    let graph = layout_of(dependencies, hierarchy, &system_names, &set_names);
    assert_eq!(graph.layers, vec![vec![sys(1)], vec![set(1)], vec![sys(4)]]);
    assert_eq!(graph.node_name(&sys(1)), "first");
    assert_eq!(graph.node_name(&set(1)), "Physics");
    assert_eq!(graph.node_name(&sys(4)), "fourth");
    assert!(graph.node(&set(1)).is_some());
    assert!(!graph.node(&set(2)).is_some());
    assert!(!graph.node(&sys(2)).is_some());
    assert_eq!(graph.node_edges(&sys(1)), Some(vec![set(1)]));
    assert_eq!(graph.node_edges(&set(1)), Some(vec![sys(4)]));
    assert_eq!(graph.node_edges(&sys(4)), Some(Vec::new()));
}

#[test]
fn layout_leaves_out_edges_to_grouped_systems() {
    let dependencies = graph_of(
        &[sys(1), sys(2), sys(3), set(1)],
        &[(sys(1), sys(2)), (sys(2), sys(3))],
    );
    let hierarchy = graph_of(
        &[sys(1), sys(2), sys(3), set(1)],
        &[(set(1), sys(2)), (set(1), sys(3))],
    );
    let (system_names, set_names) =
        names_for(&[(1, "g::a"), (2, "g::b"), (3, "g::c")], &[(1, "Group")]);
    let graph = layout_of(dependencies, hierarchy, &system_names, &set_names);
    assert_eq!(graph.layers, vec![vec![sys(1)], vec![set(1)]]);
    assert_eq!(graph.node_edges(&sys(1)), Some(Vec::new()));
    assert_eq!(graph.node_edges(&set(1)), Some(Vec::new()));
    assert!(graph.node(&sys(2)).is_none());
    assert_eq!(graph.node_edges(&sys(2)), None);
}

#[test]
fn layout_rejects_a_dependency_cycle() {
    let dependencies = graph_of(&[], &[(sys(1), sys(2)), (sys(2), sys(3)), (sys(3), sys(1))]);
    let hierarchy = graph_of(&[sys(1), sys(2), sys(3)], &[]);
    let (system_names, set_names) = names_for(&[(1, "a"), (2, "b"), (3, "c")], &[]);
    let topsort = vec![sys(1), sys(2), sys(3)];
    match schedule_graph_layout(dependencies, hierarchy, &topsort, &system_names, &set_names) {
        Ok(_) => panic!("a cycle must be detected"),
        Err(GraphError::CycleDetected(groups)) => {
            assert_eq!(groups.len(), 1);
            assert_eq!(sorted(groups[0].clone()), vec![sys(1), sys(2), sys(3)]);
        }
    }
}

#[test]
fn layout_rejects_a_self_loop() {
    let dependencies = graph_of(&[], &[(sys(1), sys(2)), (sys(2), sys(2))]);
    let hierarchy = graph_of(&[sys(1), sys(2)], &[]);
    let (system_names, set_names) = names_for(&[(1, "a"), (2, "b")], &[]);
    let topsort = vec![sys(1), sys(2)];
    match schedule_graph_layout(dependencies, hierarchy, &topsort, &system_names, &set_names) {
        Ok(_) => panic!("a self loop is a cycle"),
        Err(GraphError::CycleDetected(groups)) => assert_eq!(groups, vec![vec![sys(2)]]),
    }
}

#[test]
fn layout_rejects_a_cycle_between_groups() {
    let dependencies = graph_of(
        &[sys(1), sys(2), sys(3), sys(4), set(1), set(2)],
        &[(sys(1), sys(3)), (set(2), set(1))],
    );
    let hierarchy = graph_of(
        &[sys(1), sys(2), sys(3), sys(4), set(1), set(2)],
        &[(set(1), sys(1)), (set(1), sys(2)), (set(2), sys(3)), (set(2), sys(4))],
    );
    let (system_names, set_names) =
        names_for(&[(1, "a"), (2, "b"), (3, "c"), (4, "d")], &[(1, "One"), (2, "Two")]);
    let topsort = order_of(&dependencies);
    match schedule_graph_layout(dependencies, hierarchy, &topsort, &system_names, &set_names) {
        Ok(_) => panic!("the groups depend on each other"),
        Err(GraphError::CycleDetected(groups)) => {
            assert_eq!(groups.len(), 1);
            assert_eq!(sorted(groups[0].clone()), vec![set(1), set(2)]);
        }
    }
}

#[test]
fn layout_of_nothing_is_empty() {
    let (system_names, set_names) = names_for(&[], &[]);
    let graph = layout_of(DiGraph::new(), DiGraph::new(), &system_names, &set_names);
    assert!(graph.layers.is_empty());
    assert!(!graph.node(&sys(0)).is_some());
}
