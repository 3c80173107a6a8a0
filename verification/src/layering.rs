//! The graph over top-level nodes, and the layers of its nodes.

use vstd::prelude::*;

use crate::digraph::{views, DiGraph};
use crate::graph_utils::{is_topological_order, lemma_topological_follows};
use crate::node::NodeId;
use crate::order::{
    among, follows_order, lemma_among_all, lemma_among_step, lemma_push_has, lemma_rank,
    lemma_rank_of_member, rank,
};
use crate::reach::{hop, is_walk};
use crate::tables::{node_numbers, numbers_get, numbers_insert, numbers_new};

verus! {

/// Some group of the hierarchy `hier` holds `n`.
pub open spec fn is_grouped(hier: Set<(NodeId, NodeId)>, n: NodeId) -> bool {
    exists|g: NodeId| hier.contains((g, n))
}

/// `n` is top-level: a group, or a system that no group holds.
pub open spec fn top_level(hier: Set<(NodeId, NodeId)>, n: NodeId) -> bool {
    n is SystemSet || !is_grouped(hier, n)
}

/// The edges of `src` count as edges of the top-level node `n`: `src` is
/// `n` itself, or a member of the group `n`.
pub open spec fn speaks_for(hier: Set<(NodeId, NodeId)>, n: NodeId, src: NodeId) -> bool {
    (src == n && top_level(hier, n)) || (n is SystemSet && hier.contains((n, src)))
}

/// An edge of `n` to `child` shows as an edge to `t`: to `child` itself
/// where it is top-level, else to each group that holds `child`, but never
/// from `n` to itself on that way.
pub open spec fn routes_to(hier: Set<(NodeId, NodeId)>, n: NodeId, child: NodeId, t: NodeId) -> bool {
    if top_level(hier, child) {
        t == child
    } else {
        hier.contains((t, child)) && t != n
    }
}

/// Some dependency edge of `src` shows as an edge from `n` to `t`.
pub open spec fn sends(
    dep: Set<(NodeId, NodeId)>,
    hier: Set<(NodeId, NodeId)>,
    n: NodeId,
    src: NodeId,
    t: NodeId,
) -> bool {
    exists|child: NodeId| dep.contains((src, child)) && routes_to(hier, n, child, t)
}

/// The layering graph has an edge from `n` to `t`: `n` is one of `nodes`,
/// and a dependency edge of `n` or of one of its members shows as an edge
/// to `t`.
pub open spec fn is_layering_edge(
    dep: Set<(NodeId, NodeId)>,
    hier: Set<(NodeId, NodeId)>,
    nodes: Set<NodeId>,
    n: NodeId,
    t: NodeId,
) -> bool {
    nodes.contains(n) && exists|src: NodeId| speaks_for(hier, n, src) && sends(dep, hier, n, src, t)
}

/// The edges of the layering graph for the dependencies `dep`, the
/// hierarchy `hier` and the dependency nodes `nodes`.
pub open spec fn layering_edges(
    dep: Set<(NodeId, NodeId)>,
    hier: Set<(NodeId, NodeId)>,
    nodes: Set<NodeId>,
) -> Set<(NodeId, NodeId)> {
    Set::new(|e: (NodeId, NodeId)| is_layering_edge(dep, hier, nodes, e.0, e.1))
}

/// The nodes of the layering graph: the top-level nodes among `nodes`, and
/// the nodes at the ends of its edges.
pub open spec fn layering_nodes(
    dep: Set<(NodeId, NodeId)>,
    hier: Set<(NodeId, NodeId)>,
    nodes: Set<NodeId>,
) -> Set<NodeId> {
    Set::new(
        |x: NodeId|
            (nodes.contains(x) && top_level(hier, x)) || exists|y: NodeId|
                is_layering_edge(dep, hier, nodes, x, y) || is_layering_edge(dep, hier, nodes, y, x),
    )
}

/// An edge of `g` leads to `x` or from it.
pub open spec fn is_endpoint(g: &DiGraph, x: NodeId) -> bool {
    exists|y: NodeId| g.has_edge(x, y) || g.has_edge(y, x)
}

/// One of the first `c` nodes of `children` shows as an edge of `n` to `t`.
pub open spec fn sends_first(
    hier: Set<(NodeId, NodeId)>,
    n: NodeId,
    children: Seq<NodeId>,
    c: int,
    t: NodeId,
) -> bool {
    exists|p: int| 0 <= p < c && routes_to(hier, n, #[trigger] children[p], t)
}

/// One of the first `m` nodes of `sources` sends an edge from `n` to `t`.
pub open spec fn sends_any(
    dep: Set<(NodeId, NodeId)>,
    hier: Set<(NodeId, NodeId)>,
    n: NodeId,
    sources: Seq<NodeId>,
    m: int,
    t: NodeId,
) -> bool {
    exists|p: int| 0 <= p < m && sends(dep, hier, n, #[trigger] sources[p], t)
}

/// Whether `node` is top-level: a group, or a system that no group holds.
pub fn is_top_level(hierarchy: &DiGraph, node: NodeId) -> (r: bool)
    ensures
        r == top_level(hierarchy.edges(), node),
{
    if node.is_set() {
        return true;
    }
    let groups = hierarchy.predecessor_list(node);
    proof {
        if groups@.len() > 0 {
            assert(groups@.contains(groups@[0]));
            assert(hierarchy.edges().contains((groups@[0], node)));
        }
        if is_grouped(hierarchy.edges(), node) {
            let g = choose|g: NodeId| hierarchy.edges().contains((g, node));
            assert(groups@.contains(g));
        }
    }
    groups.len() == 0
}

/// Gives `node` its edges in the layering graph for the dependency edges
/// of `source`: to each successor that is top-level, and to the groups of
/// each successor that is not, except `node` itself.
fn route_edges(
    layering: &mut DiGraph,
    dependencies: &DiGraph,
    hierarchy: &DiGraph,
    node: NodeId,
    source: NodeId,
)
    requires
        old(layering).well_formed(),
    ensures
        final(layering).well_formed(),
        forall|x: NodeId, y: NodeId| #[trigger]
            final(layering).has_edge(x, y) <==> old(layering).has_edge(x, y) || (x == node && sends(
                dependencies.edges(),
                hierarchy.edges(),
                node,
                source,
                y,
            )),
        forall|x: NodeId| #[trigger]
            final(layering).has_node(x) ==> old(layering).has_node(x) || is_endpoint(
                final(layering),
                x,
            ),
        forall|x: NodeId| old(layering).has_node(x) ==> #[trigger] final(layering).has_node(x),
{
    let ghost hier = hierarchy.edges();
    let ghost dep = dependencies.edges();
    let children = dependencies.successor_list(source);
    let mut c: usize = 0;
    while c < children.len()
        invariant
            c <= children.len(),
            hier == hierarchy.edges(),
            dep == dependencies.edges(),
            children@ == dependencies.successors(source),
            layering.well_formed(),
            forall|x: NodeId, y: NodeId| #[trigger]
                layering.has_edge(x, y) <==> old(layering).has_edge(x, y) || (x == node
                    && sends_first(hier, node, children@, c as int, y)),
            forall|x: NodeId| #[trigger]
                layering.has_node(x) ==> old(layering).has_node(x) || is_endpoint(layering, x),
            forall|x: NodeId| old(layering).has_node(x) ==> #[trigger] layering.has_node(x),
        decreases children.len() - c,
    {
        let child = children[c];
        let ghost before = *layering;
        proof {
            assert forall|y: NodeId|
                sends_first(hier, node, children@, c + 1, y) <==> sends_first(
                    hier,
                    node,
                    children@,
                    c as int,
                    y,
                ) || routes_to(hier, node, child, y) by {
                if sends_first(hier, node, children@, c + 1, y) {
                    let p = choose|p: int|
                        0 <= p < c + 1 && routes_to(hier, node, #[trigger] children@[p], y);
                    if p < c {
                        assert(sends_first(hier, node, children@, c as int, y));
                    }
                }
                if sends_first(hier, node, children@, c as int, y) {
                    let p = choose|p: int|
                        0 <= p < c && routes_to(hier, node, #[trigger] children@[p], y);
                    assert(0 <= p < c + 1);
                }
                if routes_to(hier, node, child, y) {
                    assert(routes_to(hier, node, children@[c as int], y));
                }
            }
        }
        if is_top_level(hierarchy, child) {
            layering.add_edge(node, child);
            proof {
                assert(layering.has_edge(node, child));
                assert forall|x: NodeId| #[trigger] layering.has_node(x) implies old(
                    layering,
                ).has_node(x) || is_endpoint(layering, x) by {
                    if before.has_node(x) && !old(layering).has_node(x) {
                        let y = choose|y: NodeId| before.has_edge(x, y) || before.has_edge(y, x);
                        assert(layering.has_edge(x, y) || layering.has_edge(y, x));
                    }
                }
            }
        } else {
            let sets = hierarchy.predecessor_list(child);
            let mut q: usize = 0;
            proof {
                lemma_among_all(sets@);
            }
            while q < sets.len()
                invariant
                    q <= sets.len(),
                    hier == hierarchy.edges(),
                    !top_level(hier, child),
                    forall|x: NodeId| sets@.contains(x) <==> hierarchy.has_edge(x, child),
                    layering.well_formed(),
                    forall|x: NodeId, y: NodeId| #[trigger]
                        layering.has_edge(x, y) <==> before.has_edge(x, y) || (x == node && y
                            != node && among(sets@, q as int, y)),
                    forall|x: NodeId| #[trigger]
                        layering.has_node(x) ==> old(layering).has_node(x) || is_endpoint(
                            layering,
                            x,
                        ),
                    forall|x: NodeId| old(layering).has_node(x) ==> #[trigger] layering.has_node(x),
                decreases sets.len() - q,
            {
                let set = sets[q];
                let ghost inner = *layering;
                proof {
                    lemma_among_step(sets@, q as int);
                }
                if node != set {
                    layering.add_edge(node, set);
                    proof {
                        assert(layering.has_edge(node, set));
                        assert forall|x: NodeId| #[trigger] layering.has_node(x) implies old(
                            layering,
                        ).has_node(x) || is_endpoint(layering, x) by {
                            if inner.has_node(x) && !old(layering).has_node(x) {
                                let y = choose|y: NodeId|
                                    inner.has_edge(x, y) || inner.has_edge(y, x);
                                assert(layering.has_edge(x, y) || layering.has_edge(y, x));
                            }
                        }
                    }
                }
                q += 1;
            }
            proof {
                lemma_among_all(sets@);
                assert forall|y: NodeId|
                    routes_to(hier, node, child, y) <==> (y != node && among(
                        sets@,
                        q as int,
                        y,
                    )) by {
                    assert(sets@.contains(y) <==> hierarchy.has_edge(y, child));
                    assert(hier.contains((y, child)) <==> hierarchy.has_edge(y, child));
                }
            }
        }
        c += 1;
    }
    proof {
        assert forall|y: NodeId|
            sends_first(hier, node, children@, c as int, y) <==> sends(dep, hier, node, source, y) by {
            if sends_first(hier, node, children@, c as int, y) {
                let p = choose|p: int|
                    0 <= p < c && routes_to(hier, node, #[trigger] children@[p], y);
                assert(children@.contains(children@[p]));
                assert(dependencies.has_edge(source, children@[p]));
                assert(dep.contains((source, children@[p])));
            }
            if sends(dep, hier, node, source, y) {
                let child = choose|child: NodeId|
                    dep.contains((source, child)) && routes_to(hier, node, child, y);
                assert(dependencies.has_edge(source, child));
                let p = choose|p: int| 0 <= p < children@.len() && children@[p] == child;
                assert(routes_to(hier, node, children@[p], y));
            }
        }
    }
}

/// The graph over the top-level nodes: each top-level node of `topsort`
/// is a node, and each dependency edge of such a node, or of a member of
/// such a group, shows as an edge to the top-level node that it arrives at.
pub fn build_layering_graph(dependencies: &DiGraph, hierarchy: &DiGraph, topsort: &Vec<NodeId>) -> (layering:
    DiGraph)
    ensures
        layering.well_formed(),
        forall|x: NodeId, y: NodeId| #[trigger]
            layering.has_edge(x, y) <==> is_layering_edge(
                dependencies.edges(),
                hierarchy.edges(),
                topsort@.to_set(),
                x,
                y,
            ),
        forall|x: NodeId| #[trigger]
            layering.has_node(x) <==> layering_nodes(
                dependencies.edges(),
                hierarchy.edges(),
                topsort@.to_set(),
            ).contains(x),
{
    let ghost hier = hierarchy.edges();
    let ghost dep = dependencies.edges();
    let mut layering = DiGraph::new();
    let mut i: usize = 0;
    proof {
        lemma_among_all(topsort@);
        assert forall|x: NodeId, y: NodeId| !layering.has_edge(x, y) by {
            assert(layering.successors(x) == Seq::<NodeId>::empty());
        }
    }
    while i < topsort.len()
        invariant
            i <= topsort.len(),
            hier == hierarchy.edges(),
            dep == dependencies.edges(),
            layering.well_formed(),
            forall|x: NodeId, y: NodeId| #[trigger]
                layering.has_edge(x, y) <==> among(topsort@, i as int, x) && exists|src: NodeId|
                    speaks_for(hier, x, src) && sends(dep, hier, x, src, y),
            forall|x: NodeId| #[trigger]
                layering.has_node(x) ==> (among(topsort@, i as int, x) && top_level(hier, x))
                    || is_endpoint(&layering, x),
            forall|x: NodeId|
                among(topsort@, i as int, x) && top_level(hier, x) ==> #[trigger] layering.has_node(
                    x,
                ),
        decreases topsort.len() - i,
    {
        let node = topsort[i];
        let ghost start = layering;
        let top = is_top_level(hierarchy, node);
        proof {
            lemma_among_step(topsort@, i as int);
        }
        if top {
            layering.add_node(node);
            route_edges(&mut layering, dependencies, hierarchy, node, node);
        }
        let ghost middle = layering;
        proof {
            assert forall|x: NodeId, y: NodeId| #[trigger]
                middle.has_edge(x, y) <==> start.has_edge(x, y) || (x == node && top && sends(
                    dep,
                    hier,
                    node,
                    node,
                    y,
                )) by {}
            assert forall|x: NodeId| #[trigger] middle.has_node(x) implies (among(
                topsort@,
                i + 1,
                x,
            ) && top_level(hier, x)) || is_endpoint(&middle, x) by {
                if start.has_node(x) && is_endpoint(&start, x) {
                    let y = choose|y: NodeId| start.has_edge(x, y) || start.has_edge(y, x);
                    assert(middle.has_edge(x, y) || middle.has_edge(y, x));
                }
            }
            assert forall|x: NodeId| start.has_node(x) implies #[trigger] middle.has_node(x) by {}
        }
        if node.is_set() {
            let systems = hierarchy.successor_list(node);
            let mut m: usize = 0;
            while m < systems.len()
                invariant
                    m <= systems.len(),
                    hier == hierarchy.edges(),
                    dep == dependencies.edges(),
                    systems@ == hierarchy.successors(node),
                    layering.well_formed(),
                    forall|x: NodeId, y: NodeId| #[trigger]
                        layering.has_edge(x, y) <==> middle.has_edge(x, y) || (x == node
                            && sends_any(dep, hier, node, systems@, m as int, y)),
                    forall|x: NodeId| #[trigger]
                        layering.has_node(x) ==> middle.has_node(x) || is_endpoint(&layering, x),
                    forall|x: NodeId| middle.has_node(x) ==> #[trigger] layering.has_node(x),
                decreases systems.len() - m,
            {
                let ghost inner = layering;
                proof {
                    assert forall|y: NodeId|
                        sends_any(dep, hier, node, systems@, m + 1, y) <==> sends_any(
                            dep,
                            hier,
                            node,
                            systems@,
                            m as int,
                            y,
                        ) || sends(dep, hier, node, systems@[m as int], y) by {
                        if sends_any(dep, hier, node, systems@, m + 1, y) {
                            let p = choose|p: int|
                                0 <= p < m + 1 && sends(dep, hier, node, #[trigger] systems@[p], y);
                            if p < m {
                                assert(sends_any(dep, hier, node, systems@, m as int, y));
                            }
                        }
                        if sends_any(dep, hier, node, systems@, m as int, y) {
                            let p = choose|p: int|
                                0 <= p < m && sends(dep, hier, node, #[trigger] systems@[p], y);
                            assert(0 <= p < m + 1);
                        }
                        if sends(dep, hier, node, systems@[m as int], y) {
                            assert(0 <= m < m + 1 && sends(dep, hier, node, systems@[m as int], y));
                        }
                    }
                }
                route_edges(&mut layering, dependencies, hierarchy, node, systems[m]);
                proof {
                    assert forall|x: NodeId| #[trigger] layering.has_node(x) implies middle.has_node(
                        x,
                    ) || is_endpoint(&layering, x) by {
                        if inner.has_node(x) && is_endpoint(&inner, x) {
                            let y = choose|y: NodeId| inner.has_edge(x, y) || inner.has_edge(y, x);
                            assert(layering.has_edge(x, y) || layering.has_edge(y, x));
                        }
                    }
                    assert forall|x: NodeId| middle.has_node(x) implies #[trigger] layering.has_node(
                        x,
                    ) by {
                        assert(inner.has_node(x));
                    }
                }
                m += 1;
            }
            proof {
                assert forall|y: NodeId|
                    sends_any(dep, hier, node, systems@, m as int, y) <==> exists|src: NodeId|
                        hier.contains((node, src)) && sends(dep, hier, node, src, y) by {
                    if sends_any(dep, hier, node, systems@, m as int, y) {
                        let p = choose|p: int|
                            0 <= p < m && sends(dep, hier, node, #[trigger] systems@[p], y);
                        assert(systems@.contains(systems@[p]));
                        assert(hierarchy.has_edge(node, systems@[p]));
                        assert(hier.contains((node, systems@[p])));
                    }
                    if exists|src: NodeId|
                        hier.contains((node, src)) && sends(dep, hier, node, src, y) {
                        let src = choose|src: NodeId|
                            hier.contains((node, src)) && sends(dep, hier, node, src, y);
                        assert(hierarchy.has_edge(node, src));
                        let p = choose|p: int| 0 <= p < systems@.len() && systems@[p] == src;
                        assert(sends(dep, hier, node, systems@[p], y));
                    }
                }
            }
        }
        proof {
            assert forall|x: NodeId, y: NodeId| #[trigger]
                layering.has_edge(x, y) <==> among(topsort@, i + 1, x) && exists|src: NodeId|
                    speaks_for(hier, x, src) && sends(dep, hier, x, src, y) by {
                let mine = exists|src: NodeId|
                    speaks_for(hier, node, src) && sends(dep, hier, node, src, y);
                let by_members = exists|src: NodeId|
                    hier.contains((node, src)) && sends(dep, hier, node, src, y);
                assert(mine <==> (top && sends(dep, hier, node, node, y)) || (node is SystemSet
                    && by_members)) by {
                    if mine {
                        let src = choose|src: NodeId|
                            speaks_for(hier, node, src) && sends(dep, hier, node, src, y);
                        if src == node && top_level(hier, node) {
                        } else {
                            assert(hier.contains((node, src)) && sends(dep, hier, node, src, y));
                        }
                    }
                    if top && sends(dep, hier, node, node, y) {
                        assert(speaks_for(hier, node, node));
                    }
                    if node is SystemSet && by_members {
                        let src = choose|src: NodeId|
                            hier.contains((node, src)) && sends(dep, hier, node, src, y);
                        assert(speaks_for(hier, node, src));
                    }
                }
                assert(layering.has_edge(x, y) <==> start.has_edge(x, y) || (x == node && mine));
            }
            assert forall|x: NodeId| #[trigger] layering.has_node(x) implies (among(
                topsort@,
                i + 1,
                x,
            ) && top_level(hier, x)) || is_endpoint(&layering, x) by {
                if middle.has_node(x) && is_endpoint(&middle, x) {
                    let y = choose|y: NodeId| middle.has_edge(x, y) || middle.has_edge(y, x);
                    assert(layering.has_edge(x, y) || layering.has_edge(y, x));
                }
            }
            assert forall|x: NodeId|
                among(topsort@, i + 1, x) && top_level(hier, x) implies #[trigger] layering.has_node(
                x,
            ) by {
                if x == node {
                    assert(middle.has_node(node));
                } else {
                    assert(start.has_node(x));
                    assert(middle.has_node(x));
                }
            }
        }
        i += 1;
    }
    proof {
        lemma_among_all(topsort@);
        let nodes = topsort@.to_set();
        assert forall|x: NodeId, y: NodeId| #[trigger]
            layering.has_edge(x, y) <==> is_layering_edge(dep, hier, nodes, x, y) by {
            assert(among(topsort@, i as int, x) <==> topsort@.contains(x));
        }
        assert forall|x: NodeId| #[trigger]
            layering.has_node(x) <==> layering_nodes(dep, hier, nodes).contains(x) by {
            assert(among(topsort@, i as int, x) <==> topsort@.contains(x));
            if is_endpoint(&layering, x) {
                let y = choose|y: NodeId| layering.has_edge(x, y) || layering.has_edge(y, x);
                assert(is_layering_edge(dep, hier, nodes, x, y) || is_layering_edge(
                    dep,
                    hier,
                    nodes,
                    y,
                    x,
                ));
            }
            if layering_nodes(dep, hier, nodes).contains(x) && !(nodes.contains(x) && top_level(
                hier,
                x,
            )) {
                let y = choose|y: NodeId|
                    is_layering_edge(dep, hier, nodes, x, y) || is_layering_edge(
                        dep,
                        hier,
                        nodes,
                        y,
                        x,
                    );
                assert(layering.has_edge(x, y) || layering.has_edge(y, x));
            }
        }
    }
    layering
}

/// Some walk of `d` steps ends at `n`.
pub open spec fn ends_walk(edges: Set<(NodeId, NodeId)>, n: NodeId, d: int) -> bool {
    exists|p: Seq<NodeId>| is_walk(edges, p) && p.last() == n && p.len() == d + 1
}

/// The longest walk that ends at `n` has `d` steps.
pub open spec fn is_depth(edges: Set<(NodeId, NodeId)>, n: NodeId, d: int) -> bool {
    &&& ends_walk(edges, n, d)
    &&& forall|e: int| ends_walk(edges, n, e) ==> e <= d
}

/// `layers` are the layers of the graph with the edges `edges` whose nodes
/// stand in the topological order `order`: each node stands in the layer
/// whose number is the length of the longest walk that ends at the node,
/// the nodes of a layer stand in the order of `order`, and no layer is
/// empty.
pub open spec fn is_layering(
    layers: Seq<Seq<NodeId>>,
    edges: Set<(NodeId, NodeId)>,
    order: Seq<NodeId>,
) -> bool {
    &&& forall|l: int, t: int|
        0 <= l < layers.len() && 0 <= t < layers[l].len() ==> order.contains(
            #[trigger] layers[l][t],
        ) && is_depth(edges, layers[l][t], l)
    &&& forall|n: NodeId|
        order.contains(n) ==> exists|l: int|
            0 <= l < layers.len() && (#[trigger] layers[l]).contains(n)
    &&& forall|l: int, t: int, u: int|
        0 <= l < layers.len() && 0 <= t < u < layers[l].len() ==> rank(
            order,
            #[trigger] layers[l][t],
        ) < rank(order, #[trigger] layers[l][u])
    &&& forall|l: int| 0 <= l < layers.len() ==> (#[trigger] layers[l]).len() > 0
}

/// A walk with one more edge at its end is a walk.
pub proof fn lemma_walk_extend(edges: Set<(NodeId, NodeId)>, p: Seq<NodeId>, b: NodeId)
    requires
        is_walk(edges, p),
        edges.contains((p.last(), b)),
    ensures
        is_walk(edges, p.push(b)),
        p.push(b).last() == b,
{
    let q = p.push(b);
    assert forall|i: int| 0 <= i < q.len() - 1 implies edges.contains(#[trigger] hop(q, i)) by {
        if i < p.len() - 1 {
            assert(hop(q, i) == hop(p, i));
        } else {
            assert(hop(q, i) == (p.last(), b));
        }
    }
}

/// A walk of some steps without its last step is a walk, and its last step
/// is an edge.
pub proof fn lemma_walk_shrink(edges: Set<(NodeId, NodeId)>, p: Seq<NodeId>)
    requires
        is_walk(edges, p),
        p.len() >= 2,
    ensures
        is_walk(edges, p.drop_last()),
        edges.contains((p.drop_last().last(), p.last())),
{
    let q = p.drop_last();
    assert forall|i: int| 0 <= i < q.len() - 1 implies edges.contains(#[trigger] hop(q, i)) by {
        assert(hop(q, i) == hop(p, i));
    }
    assert(hop(p, p.len() - 2) == (q.last(), p.last()));
}

/// The longest walk to a node is one step longer than the longest walk to
/// one of its predecessors, or has no step where it has no predecessor.
pub proof fn lemma_depth_from_predecessors(
    edges: Set<(NodeId, NodeId)>,
    node: NodeId,
    preds: Seq<NodeId>,
    depths: Map<NodeId, usize>,
    layer: int,
)
    requires
        forall|x: NodeId| preds.contains(x) <==> edges.contains((x, node)),
        forall|q: int| 0 <= q < preds.len() ==> is_depth(edges, #[trigger] preds[q], depths[preds[q]] as int),
        forall|q: int| 0 <= q < preds.len() ==> depths[#[trigger] preds[q]] + 1 <= layer,
        preds.len() == 0 ==> layer == 0,
        preds.len() > 0 ==> exists|q: int| 0 <= q < preds.len() && depths[#[trigger] preds[q]] + 1 == layer,
    ensures
        is_depth(edges, node, layer),
{
    if preds.len() == 0 {
        let p = seq![node];
        assert(is_walk(edges, p) && p.last() == node && p.len() == 0 + 1);
    } else {
        let q = choose|q: int| 0 <= q < preds.len() && depths[#[trigger] preds[q]] + 1 == layer;
        let x = preds[q];
        assert(preds.contains(x));
        assert(is_depth(edges, x, depths[x] as int));
        let w = choose|w: Seq<NodeId>|
            is_walk(edges, w) && w.last() == x && w.len() == depths[x] + 1;
        lemma_walk_extend(edges, w, node);
        let p = w.push(node);
        assert(is_walk(edges, p) && p.last() == node && p.len() == layer + 1);
    }
    assert forall|e: int| ends_walk(edges, node, e) implies e <= layer by {
        let p = choose|p: Seq<NodeId>| is_walk(edges, p) && p.last() == node && p.len() == e + 1;
        if e >= 1 {
            lemma_walk_shrink(edges, p);
            let w = p.drop_last();
            let y = w.last();
            assert(preds.contains(y));
            let q = choose|q: int| 0 <= q < preds.len() && preds[q] == y;
            assert(is_depth(edges, preds[q], depths[preds[q]] as int));
            assert(is_walk(edges, w) && w.last() == y && w.len() == (e - 1) + 1);
            assert(ends_walk(edges, y, e - 1));
        }
    }
}

/// The nodes of the first `i` places of `order` stand in `layers`, each in
/// the layer that `depths` gives it, which is its depth.
spec fn placed(
    layers: Seq<Seq<NodeId>>,
    edges: Set<(NodeId, NodeId)>,
    order: Seq<NodeId>,
    depths: Map<NodeId, usize>,
    i: int,
) -> bool {
    &&& forall|l: int, t: int|
        0 <= l < layers.len() && 0 <= t < layers[l].len() ==> order.contains(
            #[trigger] layers[l][t],
        ) && rank(order, layers[l][t]) < i && depths[layers[l][t]] == l
    &&& forall|k: int|
        0 <= k < i ==> depths.dom().contains(#[trigger] order[k]) && is_depth(
            edges,
            order[k],
            depths[order[k]] as int,
        ) && depths[order[k]] <= k && depths[order[k]] < layers.len() && layers[depths[order[k]] as int].contains(
            order[k],
        )
    &&& forall|l: int, t: int, u: int|
        0 <= l < layers.len() && 0 <= t < u < layers[l].len() ==> rank(
            order,
            #[trigger] layers[l][t],
        ) < rank(order, #[trigger] layers[l][u])
    &&& forall|l: int| 0 <= l < layers.len() ==> (#[trigger] layers[l]).len() > 0
}

/// The layers of a graph whose nodes stand in the topological order
/// `order`: a node without an edge into it stands in the first layer, any
/// other node one layer behind the last of its predecessors. The nodes of a
/// layer stand in the order of `order`.
pub fn assign_layers(layering: &DiGraph, order: &Vec<NodeId>) -> (layers: Vec<Vec<NodeId>>)
    requires
        layering.well_formed(),
        is_topological_order(layering, order@),
    ensures
        is_layering(views(layers@), layering.edges(), order@),
{
    let ghost edges = layering.edges();
    let n = order.len();
    let mut depths = numbers_new();
    let mut layers: Vec<Vec<NodeId>> = Vec::new();
    let mut i: usize = 0;
    proof {
        lemma_topological_follows(layering, order@);
    }
    while i < n
        invariant
            i <= n,
            n == order.len(),
            edges == layering.edges(),
            layering.well_formed(),
            follows_order(edges, order@),
            placed(views(layers@), edges, order@, node_numbers(depths), i as int),
        decreases n - i,
    {
        let node = order[i];
        let preds = layering.predecessor_list(node);
        let ghost d0 = node_numbers(depths);
        let ghost rows0 = views(layers@);
        let mut layer: usize = 0;
        let mut j: usize = 0;
        proof {
            lemma_rank(order@, i as int);
            assert forall|q: int| 0 <= q < preds@.len() implies order@.contains(#[trigger] preds@[q])
                && rank(order@, preds@[q]) < i by {
                assert(preds@.contains(preds@[q]));
                assert(layering.has_edge(preds@[q], node));
                assert(edges.contains((preds@[q], node)));
            }
        }
        while j < preds.len()
            invariant
                j <= preds.len(),
                i < n,
                n == order.len(),
                d0 == node_numbers(depths),
                placed(rows0, edges, order@, d0, i as int),
                forall|q: int|
                    0 <= q < preds@.len() ==> order@.contains(#[trigger] preds@[q]) && rank(
                        order@,
                        preds@[q],
                    ) < i,
                forall|q: int| 0 <= q < j ==> d0[#[trigger] preds@[q]] + 1 <= layer,
                j == 0 ==> layer == 0,
                j > 0 ==> exists|q: int| 0 <= q < j && d0[#[trigger] preds@[q]] + 1 == layer,
                layer <= i,
                layer <= rows0.len(),
            decreases preds.len() - j,
        {
            let pred = preds[j];
            proof {
                lemma_rank_of_member(order@, pred);
                let k = rank(order@, pred);
                assert(d0.dom().contains(order@[k]));
            }
            let parent = numbers_get(&depths, pred).unwrap();
            if parent + 1 > layer {
                layer = parent + 1;
            }
            j += 1;
        }
        proof {
            assert forall|q: int| 0 <= q < preds@.len() implies is_depth(
                edges,
                #[trigger] preds@[q],
                d0[preds@[q]] as int,
            ) by {
                lemma_rank_of_member(order@, preds@[q]);
                let k = rank(order@, preds@[q]);
                assert(d0.dom().contains(order@[k]));
            }
            assert forall|x: NodeId| preds@.contains(x) <==> edges.contains((x, node)) by {
                assert(preds@.contains(x) <==> layering.has_edge(x, node));
            }
            lemma_depth_from_predecessors(edges, node, preds@, d0, layer as int);
        }
        numbers_insert(&mut depths, node, layer);
        if layer >= layers.len() {
            layers.push(Vec::new());
        }
        let ghost rows1 = views(layers@);
        layers[layer].push(node);
        proof {
            let rows = views(layers@);
            let d = node_numbers(depths);
            assert(rows.len() == rows1.len());
            assert(rows[layer as int] == rows1[layer as int].push(node));
            assert forall|l: int| 0 <= l < rows.len() && l != layer implies rows[l] == rows1[l] by {}
            assert forall|l: int| 0 <= l < rows0.len() implies rows1[l] == rows0[l] by {}
            assert forall|l: int, t: int| 0 <= l < rows.len() && 0 <= t < rows[l].len() implies (
            order@.contains(#[trigger] rows[l][t]) && rank(order@, rows[l][t]) < i + 1 && d[rows[l][t]]
                == l) by {
                if l == layer && t == rows[l].len() - 1 {
                    assert(rows[l][t] == node);
                } else {
                    assert(rows[l][t] == rows0[l][t]);
                }
            }
            assert forall|k: int| 0 <= k < i + 1 implies d.dom().contains(#[trigger] order@[k])
                && is_depth(edges, order@[k], d[order@[k]] as int) && d[order@[k]] <= k && d[order@[k]]
                < rows.len() && rows[d[order@[k]] as int].contains(order@[k]) by {
                if k < i {
                    assert(order@[k] != node);
                    let l = d0[order@[k]] as int;
                    assert(rows0[l].contains(order@[k]));
                    if l == layer {
                        lemma_push_has(rows1[l], node, order@[k]);
                    }
                } else {
                    lemma_push_has(rows1[layer as int], node, node);
                }
            }
            assert forall|l: int, t: int, u: int|
                0 <= l < rows.len() && 0 <= t < u < rows[l].len() implies rank(
                order@,
                #[trigger] rows[l][t],
            ) < rank(order@, #[trigger] rows[l][u]) by {
                if l == layer && u == rows[l].len() - 1 {
                    assert(rows[l][u] == node);
                    assert(rows[l][t] == rows0[l][t]);
                } else {
                    assert(rows[l][t] == rows0[l][t]);
                    assert(rows[l][u] == rows0[l][u]);
                }
            }
            assert forall|l: int| 0 <= l < rows.len() implies (#[trigger] rows[l]).len() > 0 by {
                if l != layer {
                    assert(rows[l] == rows0[l]);
                }
            }
        }
        i += 1;
    }
    proof {
        let rows = views(layers@);
        let d = node_numbers(depths);
        assert forall|x: NodeId| order@.contains(x) implies exists|l: int|
            0 <= l < rows.len() && (#[trigger] rows[l]).contains(x) by {
            lemma_rank_of_member(order@, x);
            let k = rank(order@, x);
            assert(rows[d[order@[k]] as int].contains(order@[k]));
        }
        assert forall|l: int, t: int| 0 <= l < rows.len() && 0 <= t < rows[l].len() implies order@.contains(
            #[trigger] rows[l][t],
        ) && is_depth(edges, rows[l][t], l) by {
            let x = rows[l][t];
            lemma_rank_of_member(order@, x);
            let k = rank(order@, x);
            assert(is_depth(edges, order@[k], d[order@[k]] as int));
        }
    }
    layers
}

} // verus!
