//! From the graphs of a schedule to its layer graph.

use vstd::prelude::*;

use crate::digraph::{views, DiGraph};
use crate::graph_utils::{
    check_graph, cycle_groups, has_long_cycle, is_topological_order, lemma_topological_follows,
    on_one_cycle, topsort_graph, GraphError,
};
use crate::layer_graph::{LayerGraph, LayerNode};
use crate::layering::{
    assign_layers, build_layering_graph, is_layering, is_layering_edge, layering_edges,
    layering_nodes, routes_to, sends, speaks_for,
};
use crate::node::NodeId;
use crate::order::{among, climbs, follows_order, lemma_among_all, lemma_among_step, lemma_push_has};
use crate::reach::{
    is_acyclic, lemma_edge_reaches, lemma_first_step, lemma_reaches_transitive, reaches,
    reduction_of,
};
use crate::shorten_type::{sections_of, shorten_systems, shortest_of};
use crate::simplify::{relation_of, simplified, simplify_hierarchy, Relation};
use crate::tables::NameTable;

verus! {

/// A graph has a cycle exactly where it has a cycle through two nodes or an
/// edge from a node to itself.
pub proof fn lemma_cycle_kinds(edges: Set<(NodeId, NodeId)>)
    ensures
        !is_acyclic(edges) <==> has_long_cycle(edges) || exists|a: NodeId| edges.contains((a, a)),
{
    if !is_acyclic(edges) {
        let a = choose|a: NodeId| reaches(edges, a, a);
        let x = lemma_first_step(edges, a, a);
        if x != a {
            lemma_edge_reaches(edges, a, x);
            assert(on_one_cycle(edges, a, x));
        }
    }
    if has_long_cycle(edges) {
        let (a, b) = choose|a: NodeId, b: NodeId| on_one_cycle(edges, a, b);
        lemma_reaches_transitive(edges, a, b, a);
    }
    if exists|a: NodeId| edges.contains((a, a)) {
        let a = choose|a: NodeId| edges.contains((a, a));
        lemma_edge_reaches(edges, a, a);
    }
}

/// `v` is the first node of the graph with an edge to itself.
pub open spec fn is_first_self_loop(graph: &DiGraph, v: NodeId) -> bool {
    exists|i: int|
        0 <= i < graph.nodes().len() && #[trigger] graph.nodes()[i] == v && graph.has_edge(v, v)
            && forall|k: int| 0 <= k < i ==> !graph.has_edge(#[trigger] graph.nodes()[k], graph.nodes()[k])
}

/// The first node with an edge to itself, where the graph has one.
pub fn find_self_loop(graph: &DiGraph) -> (r: Option<NodeId>)
    requires
        graph.well_formed(),
    ensures
        r is None <==> forall|a: NodeId| !graph.has_edge(a, a),
        r is Some ==> is_first_self_loop(graph, r->0),
{
    let nodes = graph.node_list();
    let mut i: usize = 0;
    while i < nodes.len()
        invariant
            i <= nodes.len(),
            nodes@ == graph.nodes(),
            forall|k: int| 0 <= k < i ==> !graph.has_edge(#[trigger] nodes@[k], nodes@[k]),
        decreases nodes.len() - i,
    {
        let node = nodes[i];
        let succs = graph.successor_list(node);
        let mut j: usize = 0;
        while j < succs.len()
            invariant
                j <= succs.len(),
                i < nodes.len(),
                nodes@ == graph.nodes(),
                node == nodes@[i as int],
                forall|k: int| 0 <= k < i ==> !graph.has_edge(#[trigger] nodes@[k], nodes@[k]),
                succs@ == graph.successors(node),
                forall|k: int| 0 <= k < j ==> succs@[k] != node,
            decreases succs.len() - j,
        {
            if succs[j] == node {
                proof {
                    assert(succs@[j as int] == node);
                    assert(succs@.contains(node));
                    assert(graph.has_edge(node, node));
                    assert(graph.nodes()[i as int] == node);
                }
                return Some(node);
            }
            j += 1;
        }
        i += 1;
    }
    proof {
        assert forall|a: NodeId| !graph.has_edge(a, a) by {
            if graph.has_edge(a, a) {
                assert(graph.has_node(a));
                let k = choose|k: int| 0 <= k < nodes@.len() && nodes@[k] == a;
                assert(!graph.has_edge(nodes@[k], nodes@[k]));
            }
        }
    }
    None
}

/// A topological order of the graph where it has no cycle; else nodes
/// that lie on cycles: the strongly connected components of more than one
/// node, or, where there is none, the first node with an edge to itself.
pub fn checked_order(graph: &DiGraph) -> (r: Result<Vec<NodeId>, GraphError>)
    requires
        graph.well_formed(),
    ensures
        r is Ok <==> is_acyclic(graph.edges()),
        match r {
            Ok(order) => is_topological_order(graph, order@) && order@
                == graph.components().flatten().reverse(),
            Err(GraphError::CycleDetected(groups)) => {
                &&& has_long_cycle(graph.edges()) ==> views(groups@) == cycle_groups(
                    graph.components(),
                )
                &&& !has_long_cycle(graph.edges()) ==> exists|v: NodeId|
                    is_first_self_loop(graph, v) && views(groups@) == seq![seq![v]]
                &&& groups@.len() > 0
                &&& forall|g: int, i: int|
                    0 <= g < groups@.len() && 0 <= i < groups@[g]@.len() ==> reaches(
                        graph.edges(),
                        #[trigger] groups@[g]@[i],
                        groups@[g]@[i],
                    )
            },
        },
{
    proof {
        lemma_cycle_kinds(graph.edges());
    }
    match topsort_graph(graph) {
        Err(GraphError::CycleDetected(groups)) => {
            proof {
                let (a, b) = choose|a: NodeId, b: NodeId| on_one_cycle(graph.edges(), a, b);
                assert forall|g: int, i: int|
                    0 <= g < groups@.len() && 0 <= i < groups@[g]@.len() implies reaches(
                    graph.edges(),
                    #[trigger] groups@[g]@[i],
                    groups@[g]@[i],
                ) by {
                    let j = if i == 0 {
                        1int
                    } else {
                        0int
                    };
                    assert(groups@[g]@.len() > 1);
                    assert(groups@[g]@.no_duplicates());
                    assert(groups@[g]@[i] != groups@[g]@[j]);
                    assert(crate::reach::mutually_reachable(
                        graph.edges(),
                        groups@[g]@[i],
                        groups@[g]@[j],
                    ));
                    lemma_reaches_transitive(
                        graph.edges(),
                        groups@[g]@[i],
                        groups@[g]@[j],
                        groups@[g]@[i],
                    );
                }
            }
            Err(GraphError::CycleDetected(groups))
        },
        Ok(order) => {
            match find_self_loop(graph) {
                Some(node) => {
                    let mut group: Vec<NodeId> = Vec::new();
                    group.push(node);
                    let mut groups: Vec<Vec<NodeId>> = Vec::new();
                    groups.push(group);
                    proof {
                        assert(graph.has_edge(node, node));
                        assert(graph.edges().contains((node, node)));
                        lemma_edge_reaches(graph.edges(), node, node);
                        assert(views(groups@) =~= seq![seq![node]]);
                        assert(is_first_self_loop(graph, node) && views(groups@) == seq![seq![node]]);
                    }
                    Err(GraphError::CycleDetected(groups))
                },
                None => {
                    proof {
                        assert forall|a: NodeId| !graph.edges().contains((a, a)) by {
                            assert(!graph.has_edge(a, a));
                        }
                        assert forall|i: int, j: int|
                            0 <= i < order@.len() && 0 <= j < order@.len()
                                && graph.edges().contains(
                                (#[trigger] order@[i], #[trigger] order@[j]),
                            ) implies i < j by {
                            if i == j {
                                assert(graph.edges().contains((order@[i], order@[i])));
                            }
                        }
                    }
                    Ok(order)
                },
            }
        },
    }
}

/// The layer graph knows the node `n` as it should: a system by the short
/// form of its full name, a system set by its name and with an empty layer
/// graph of its own.
pub open spec fn describes_node(
    node: LayerNode,
    n: NodeId,
    system_names: Map<NodeId, Seq<char>>,
    set_names: Map<NodeId, Seq<char>>,
) -> bool {
    match node {
        LayerNode::System(name) => n is System && name@ == shortest_of(
            sections_of(system_names[n]),
        ),
        LayerNode::SystemSet(name, inner) => {
            &&& n is SystemSet
            &&& name@ == set_names[n]
            &&& inner.layers@.len() == 0
            &&& inner.nodes() == Map::<NodeId, LayerNode>::empty()
            &&& inner.edges() == Map::<NodeId, Seq<NodeId>>::empty()
        },
    }
}

/// `targets` are the edges that the layer graph shows for the node `n`:
/// the successors of `n` in the transitive reduction of the dependencies
/// that are nodes of the layer graph, each once.
pub open spec fn shows_edges(
    targets: Seq<NodeId>,
    n: NodeId,
    dep: Set<(NodeId, NodeId)>,
    shown: Set<NodeId>,
) -> bool {
    &&& targets.no_duplicates()
    &&& forall|y: NodeId| #[trigger]
        targets.contains(y) <==> reduction_of(dep).contains((n, y)) && shown.contains(y)
}

/// `graph` is the layer graph for the simplified dependencies `dep` and
/// hierarchy `hier`: its nodes are the nodes of the layering graph; each
/// stands in the layer that the length of the longest path to it in the
/// layering graph gives, bears its name and has the edges of the
/// transitive reduction of the dependencies that lead to shown nodes.
/// Inside a layer the nodes follow a topological order of the layering
/// graph, and the edges of a node a topological order of the dependencies.
pub open spec fn is_layout(
    graph: LayerGraph,
    dep: Relation,
    hier: Relation,
    system_names: Map<NodeId, Seq<char>>,
    set_names: Map<NodeId, Seq<char>>,
) -> bool {
    let links = layering_edges(dep.edges, hier.edges, dep.nodes);
    let shown = layering_nodes(dep.edges, hier.edges, dep.nodes);
    &&& exists|order: Seq<NodeId>|
        order.to_set() == shown && follows_order(links, order) && #[trigger] is_layering(
            views(graph.layers@),
            links,
            order,
        )
    &&& graph.nodes().dom() == shown
    &&& graph.edges().dom() == shown
    &&& forall|n: NodeId|
        shown.contains(n) ==> describes_node(
            #[trigger] graph.nodes()[n],
            n,
            system_names,
            set_names,
        )
    &&& forall|n: NodeId|
        shown.contains(n) ==> shows_edges(#[trigger] graph.edges()[n], n, dep.edges, shown)
    &&& exists|order: Seq<NodeId>|
        #[trigger] follows_order(dep.edges, order) && forall|n: NodeId|
            shown.contains(n) ==> climbs(order, #[trigger] graph.edges()[n])
}

/// The successors of `node` in the reduction that are nodes of the
/// layering graph, in their order.
fn kept_targets(
    reduction: &DiGraph,
    layering: &DiGraph,
    node: NodeId,
    Ghost(order): Ghost<Seq<NodeId>>,
) -> (targets: Vec<NodeId>)
    requires
        reduction.well_formed(),
        climbs(order, reduction.successors(node)),
    ensures
        targets@.no_duplicates(),
        forall|y: NodeId| #[trigger]
            targets@.contains(y) <==> reduction.has_edge(node, y) && layering.has_node(y),
        climbs(order, targets@),
{
    let succs = reduction.successor_list(node);
    let mut targets: Vec<NodeId> = Vec::new();
    let ghost mut picks: Seq<int> = Seq::empty();
    let mut i: usize = 0;
    while i < succs.len()
        invariant
            i <= succs.len(),
            succs@ == reduction.successors(node),
            succs@.no_duplicates(),
            picks.len() == targets@.len(),
            forall|k: int|
                0 <= k < picks.len() ==> 0 <= #[trigger] picks[k] < i && targets@[k] == succs@[picks[k]]
                    && layering.has_node(targets@[k]),
            forall|k: int, l: int| 0 <= k < l < picks.len() ==> #[trigger] picks[k] < #[trigger] picks[l],
            forall|p: int|
                0 <= p < i && layering.has_node(#[trigger] succs@[p]) ==> targets@.contains(
                    succs@[p],
                ),
        decreases succs.len() - i,
    {
        let ghost before = targets@;
        if layering.contains_node(succs[i]) {
            targets.push(succs[i]);
            proof {
                picks = picks.push(i as int);
                assert forall|p: int|
                    0 <= p < i + 1 && layering.has_node(#[trigger] succs@[p]) implies targets@.contains(
                    succs@[p],
                ) by {
                    lemma_push_has(before, succs@[i as int], succs@[p]);
                }
            }
        }
        i += 1;
    }
    proof {
        assert forall|k: int, l: int|
            0 <= k < targets@.len() && 0 <= l < targets@.len() && k != l implies targets@[k]
            != targets@[l] by {
            if k < l {
                assert(picks[k] < picks[l]);
            } else {
                assert(picks[l] < picks[k]);
            }
        }
        assert forall|y: NodeId| #[trigger]
            targets@.contains(y) <==> reduction.has_edge(node, y) && layering.has_node(y) by {
            if targets@.contains(y) {
                let k = choose|k: int| 0 <= k < targets@.len() && targets@[k] == y;
                assert(succs@[picks[k]] == y);
                assert(succs@.contains(y));
            }
            if reduction.has_edge(node, y) && layering.has_node(y) {
                let p = choose|p: int| 0 <= p < succs@.len() && succs@[p] == y;
                assert(targets@.contains(succs@[p]));
            }
        }
        assert forall|p: int, q: int| 0 <= p < q < targets@.len() implies crate::order::rank(
            order,
            #[trigger] targets@[p],
        ) < crate::order::rank(order, #[trigger] targets@[q]) by {
            assert(picks[p] < picks[q]);
            assert(targets@[p] == succs@[picks[p]]);
            assert(targets@[q] == succs@[picks[q]]);
        }
    }
    targets
}

/// A node of the layering graph is a node of the dependencies or of the
/// hierarchy.
proof fn lemma_layering_nodes_are_known(dependencies: &DiGraph, hierarchy: &DiGraph, x: NodeId)
    requires
        dependencies.well_formed(),
        hierarchy.well_formed(),
        layering_nodes(dependencies.edges(), hierarchy.edges(), dependencies.node_set()).contains(x),
    ensures
        dependencies.has_node(x) || hierarchy.has_node(x),
{
    let dep = dependencies.edges();
    let hier = hierarchy.edges();
    let nodes = dependencies.node_set();
    if !nodes.contains(x) {
        let y = choose|y: NodeId|
            is_layering_edge(dep, hier, nodes, x, y) || is_layering_edge(dep, hier, nodes, y, x);
        assert(is_layering_edge(dep, hier, nodes, y, x));
        let src = choose|src: NodeId| speaks_for(hier, y, src) && sends(dep, hier, y, src, x);
        let child = choose|child: NodeId| dep.contains((src, child)) && routes_to(hier, y, child, x);
        assert(dependencies.has_edge(src, child));
        if x != child {
            assert(hier.contains((x, child)));
            assert(hierarchy.has_edge(x, child));
        }
    }
}

/// A graph that grew out of two others within their nodes has no more
/// nodes than both together.
proof fn lemma_node_count_bound(graph: &DiGraph, first: &DiGraph, second: &DiGraph)
    requires
        graph.well_formed(),
        first.well_formed(),
        second.well_formed(),
        graph.node_set().subset_of(first.node_set().union(second.node_set())),
    ensures
        graph.nodes().len() <= first.nodes().len() + second.nodes().len(),
{
    graph.nodes().unique_seq_to_set();
    first.nodes().unique_seq_to_set();
    second.nodes().unique_seq_to_set();
    vstd::seq_lib::seq_to_set_is_finite(first.nodes());
    vstd::seq_lib::seq_to_set_is_finite(second.nodes());
    let both = first.node_set().union(second.node_set());
    vstd::set_lib::lemma_len_union(first.node_set(), second.node_set());
    vstd::set::axiom_set_union_finite(first.node_set(), second.node_set());
    vstd::set_lib::lemma_len_subset(graph.node_set(), both);
}

/// The layer graph of a schedule, from its dependency graph, its
/// hierarchy graph, an order of the dependency nodes, the full names of the
/// systems and the names of the system sets.
///
/// Groups with a single member are folded into the member, the nodes are
/// sorted, the dependencies reduced to the edges that are not redundant,
/// the top-level nodes laid into layers by the longest path that leads to
/// each, and each shown node gets its name and its edges. A cycle among the
/// simplified dependencies or in the layering graph is an error.
pub fn schedule_graph_layout(
    dependencies: DiGraph,
    hierarchy: DiGraph,
    topsort: &Vec<NodeId>,
    system_names: &NameTable,
    set_names: &NameTable,
) -> (r: Result<LayerGraph, GraphError>)
    requires
        dependencies.well_formed(),
        hierarchy.well_formed(),
        (dependencies.nodes().len() + hierarchy.nodes().len()) * (dependencies.nodes().len()
            + hierarchy.nodes().len()) <= usize::MAX,
        forall|n: NodeId|
            (dependencies.has_node(n) || hierarchy.has_node(n)) && n is System
                ==> system_names.entries().dom().contains(n),
        forall|n: NodeId|
            (dependencies.has_node(n) || hierarchy.has_node(n)) && n is SystemSet
                ==> set_names.entries().dom().contains(n),
    ensures
        ({
            let simple = simplified(relation_of(&dependencies), relation_of(&hierarchy), topsort@);
            let links = layering_edges(simple.0.edges, simple.1.edges, simple.0.nodes);
            &&& r is Ok <==> is_acyclic(simple.0.edges) && is_acyclic(links)
            &&& match r {
                Ok(graph) => is_layout(
                    graph,
                    simple.0,
                    simple.1,
                    system_names.entries(),
                    set_names.entries(),
                ),
                Err(GraphError::CycleDetected(groups)) => {
                    &&& groups@.len() > 0
                    &&& forall|g: int, i: int|
                        0 <= g < groups@.len() && 0 <= i < groups@[g]@.len() ==> reaches(
                            if is_acyclic(simple.0.edges) {
                                links
                            } else {
                                simple.0.edges
                            },
                            #[trigger] groups@[g]@[i],
                            groups@[g]@[i],
                        )
                },
            }
        }),
{
    let ghost dep0 = dependencies;
    let ghost hier0 = hierarchy;
    let ghost simple = simplified(relation_of(&dependencies), relation_of(&hierarchy), topsort@);
    let mut dependencies = dependencies;
    let mut hierarchy = hierarchy;
    simplify_hierarchy(&mut dependencies, &mut hierarchy, topsort);
    let ghost dep = dependencies.edges();
    let ghost hier = hierarchy.edges();
    let ghost nodes = dependencies.node_set();
    let ghost links = layering_edges(dep, hier, nodes);
    let ghost shown = layering_nodes(dep, hier, nodes);
    proof {
        assert(simple.0 == relation_of(&dependencies));
        assert(simple.1 == relation_of(&hierarchy));
    }
    let order = match checked_order(&dependencies) {
        Ok(order) => order,
        Err(error) => {
            return Err(error);
        },
    };
    proof {
        lemma_topological_follows(&dependencies, order@);
        lemma_node_count_bound(&dependencies, &dep0, &hier0);
        let n = order@.len() as int;
        let m = (dep0.nodes().len() + hier0.nodes().len()) as int;
        assert(n * n <= m * m) by (nonlinear_arith)
            requires
                0 <= n <= m,
        ;
        assert(order@.to_set() =~= nodes);
    }
    let info = check_graph(&dependencies, &order);
    let layering = build_layering_graph(&dependencies, &hierarchy, &order);
    proof {
        assert(layering.edges() =~= links);
        assert forall|x: NodeId| #[trigger] layering.has_node(x) <==> shown.contains(x) by {}
    }
    let layer_order = match checked_order(&layering) {
        Ok(layer_order) => layer_order,
        Err(error) => {
            return Err(error);
        },
    };
    let layers = assign_layers(&layering, &layer_order);
    let short_names = shorten_systems(system_names);
    let mut graph = LayerGraph::default();
    let mut i: usize = 0;
    proof {
        lemma_topological_follows(&layering, layer_order@);
        lemma_among_all(layer_order@);
        assert forall|x: NodeId| #[trigger] layer_order@.contains(x) <==> layering.has_node(x) by {}
        assert forall|x: NodeId| layer_order@.to_set().contains(x) <==> shown.contains(x) by {
            assert(layer_order@.contains(x) <==> layering.has_node(x));
        }
        assert(layer_order@.to_set() =~= shown);
    }
    while i < layer_order.len()
        invariant
            i <= layer_order.len(),
            dependencies.well_formed(),
            hierarchy.well_formed(),
            dependencies.node_set().subset_of(dep0.node_set().union(hier0.node_set())),
            hierarchy.node_set().subset_of(hier0.node_set()),
            dep == dependencies.edges(),
            hier == hierarchy.edges(),
            nodes == dependencies.node_set(),
            shown == layering_nodes(dep, hier, nodes),
            forall|x: NodeId| #[trigger] layering.has_node(x) <==> shown.contains(x),
            forall|x: NodeId| #[trigger] layer_order@.contains(x) <==> layering.has_node(x),
            info.describes(dep, order@),
            forall|n: NodeId|
                (dep0.has_node(n) || hier0.has_node(n)) && n is System
                    ==> system_names.entries().dom().contains(n),
            forall|n: NodeId|
                (dep0.has_node(n) || hier0.has_node(n)) && n is SystemSet
                    ==> set_names.entries().dom().contains(n),
            short_names.entries().dom() == system_names.entries().dom(),
            forall|n: NodeId|
                system_names.entries().dom().contains(n) ==> #[trigger] short_names.entries()[n]
                    == shortest_of(sections_of(system_names.entries()[n])),
            graph.layers@.len() == 0,
            forall|x: NodeId|
                graph.nodes().dom().contains(x) <==> among(layer_order@, i as int, x),
            forall|x: NodeId|
                graph.edges().dom().contains(x) <==> among(layer_order@, i as int, x),
            forall|x: NodeId|
                graph.nodes().dom().contains(x) ==> describes_node(
                    #[trigger] graph.nodes()[x],
                    x,
                    system_names.entries(),
                    set_names.entries(),
                ),
            forall|x: NodeId|
                graph.edges().dom().contains(x) ==> shows_edges(
                    #[trigger] graph.edges()[x],
                    x,
                    dep,
                    shown,
                ) && climbs(order@, graph.edges()[x]),
        decreases layer_order.len() - i,
    {
        let node = layer_order[i];
        proof {
            lemma_among_step(layer_order@, i as int);
            assert(layer_order@.contains(node));
            assert(shown.contains(node));
            lemma_layering_nodes_are_known(&dependencies, &hierarchy, node);
            assert(dependencies.node_set().contains(node) || hierarchy.node_set().contains(node));
            assert(dep0.node_set().union(hier0.node_set()).contains(node));
            assert(dep0.has_node(node) || hier0.has_node(node));
        }
        if node.is_system() {
            let name = short_names.get(node).unwrap();
            graph.add_node(node, LayerNode::System(name));
        } else {
            let name = set_names.get(node).unwrap();
            graph.add_node(node, LayerNode::SystemSet(name, LayerGraph::default()));
        }
        let targets = kept_targets(&info.transitive_reduction, &layering, node, Ghost(order@));
        proof {
            assert forall|y: NodeId| #[trigger]
                targets@.contains(y) <==> reduction_of(dep).contains((node, y)) && shown.contains(
                    y,
                ) by {
                assert(layering.has_node(y) <==> shown.contains(y));
                assert(info.transitive_reduction.has_edge(node, y) <==> reduction_of(dep).contains(
                    (node, y),
                ));
            }
        }
        graph.add_edges(node, targets);
        i += 1;
    }
    graph.layers = layers;
    proof {
        lemma_among_all(layer_order@);
        assert(graph.nodes().dom() =~= shown);
        assert(graph.edges().dom() =~= shown);
        assert(follows_order(links, layer_order@));
        assert(is_layering(views(graph.layers@), links, layer_order@));
        assert(follows_order(dep, order@));
        lemma_topological_follows(&layering, layer_order@);
        crate::order::lemma_ordered_is_acyclic(links, layer_order@);
        crate::order::lemma_ordered_is_acyclic(dep, order@);
    }
    Ok(graph)
}

} // verus!
