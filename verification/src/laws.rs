//! What holds of the analysis of every graph.

use vstd::prelude::*;

use crate::graph_utils::{is_disconnected_pair, pair_before, CheckGraphResults};
use crate::layering::{
    ends_walk, is_depth, is_layering, lemma_walk_extend, lemma_walk_shrink,
};
use crate::node::NodeId;
use crate::reach::is_walk;
use crate::simplify::{is_sole_member, is_trivial_group, simplified, Relation};
use crate::order::{follows_order, lemma_rank, lemma_reaches_later, rank};
use crate::reach::{
    is_redundant, lemma_edge_reaches, lemma_first_step, lemma_reaches_monotone,
    lemma_reaches_transitive, reaches, reduction_of,
};

verus! {

/// Every pair of two nodes, the earlier first, is either connected or
/// disconnected, never both; the list of disconnected pairs names no pair
/// twice; and nothing else is in either part.
pub proof fn lemma_pairs_are_partitioned(
    res: &CheckGraphResults,
    edges: Set<(NodeId, NodeId)>,
    order: Seq<NodeId>,
)
    requires
        follows_order(edges, order),
        res.describes(edges, order),
    ensures
        forall|i: int, j: int|
            0 <= i < j < order.len() ==> (res.connected.items().contains(
                (#[trigger] order[i], #[trigger] order[j]),
            ) <==> !res.disconnected@.contains((order[i], order[j]))),
        res.disconnected@.no_duplicates(),
        forall|p: (NodeId, NodeId)| #[trigger]
            res.connected.items().contains(p) ==> order.contains(p.0) && order.contains(p.1)
                && rank(order, p.0) < rank(order, p.1),
        forall|p: (NodeId, NodeId)| #[trigger]
            res.disconnected@.contains(p) ==> order.contains(p.0) && order.contains(p.1) && rank(
                order,
                p.0,
            ) < rank(order, p.1),
{
    let apart = res.disconnected@;
    assert forall|i: int, j: int| 0 <= i < j < order.len() implies (res.connected.items().contains(
        (#[trigger] order[i], #[trigger] order[j]),
    ) <==> !apart.contains((order[i], order[j]))) by {
        let p = (order[i], order[j]);
        lemma_rank(order, i);
        lemma_rank(order, j);
        if apart.contains(p) {
            let t = choose|t: int| 0 <= t < apart.len() && apart[t] == p;
            assert(is_disconnected_pair(edges, order, apart[t]));
        }
        if !reaches(edges, p.0, p.1) {
            assert(is_disconnected_pair(edges, order, p));
        }
    }
    assert forall|t: int, u: int| 0 <= t < apart.len() && 0 <= u < apart.len() && t != u implies apart[t]
        != apart[u] by {
        if t < u {
            assert(pair_before(order, apart[t], apart[u]));
        } else {
            assert(pair_before(order, apart[u], apart[t]));
        }
    }
    assert forall|p: (NodeId, NodeId)| #[trigger]
        res.connected.items().contains(p) implies order.contains(p.0) && order.contains(p.1)
        && rank(order, p.0) < rank(order, p.1) by {
        assert(res.connected.items().contains((p.0, p.1)));
        lemma_reaches_later(edges, order, p.0, p.1);
    }
    assert forall|p: (NodeId, NodeId)| #[trigger] apart.contains(p) implies order.contains(p.0)
        && order.contains(p.1) && rank(order, p.0) < rank(order, p.1) by {
        let t = choose|t: int| 0 <= t < apart.len() && apart[t] == p;
        assert(is_disconnected_pair(edges, order, apart[t]));
    }
}

/// The graphs that the analysis returns are the transitive reduction and
/// the transitive closure of the graph: the first has the edges that are
/// not redundant, the second an edge for every path.
pub proof fn lemma_results_are_reduction_and_closure(
    res: &CheckGraphResults,
    edges: Set<(NodeId, NodeId)>,
    order: Seq<NodeId>,
)
    requires
        res.describes(edges, order),
    ensures
        res.transitive_reduction.edges() == reduction_of(edges),
        forall|a: NodeId, b: NodeId|
            res.transitive_closure.edges().contains((a, b)) <==> reaches(edges, a, b),
        forall|a: NodeId, b: NodeId|
            res.transitive_edges@.contains((a, b)) <==> edges.contains((a, b)) && !reduction_of(
                edges,
            ).contains((a, b)),
{
    assert forall|e: (NodeId, NodeId)|
        res.transitive_reduction.edges().contains(e) <==> reduction_of(edges).contains(e) by {
        assert(res.transitive_reduction.has_edge(e.0, e.1) <==> edges.contains((e.0, e.1))
            && !is_redundant(edges, e.0, e.1));
    }
    assert(res.transitive_reduction.edges() =~= reduction_of(edges));
    assert forall|a: NodeId, b: NodeId|
        res.transitive_closure.edges().contains((a, b)) <==> reaches(edges, a, b) by {
        assert(res.transitive_closure.has_edge(a, b) <==> reaches(edges, a, b));
    }
    let extra = res.transitive_edges@;
    assert forall|a: NodeId, b: NodeId|
        extra.contains((a, b)) <==> edges.contains((a, b)) && !reduction_of(edges).contains(
            (a, b),
        ) by {
        if extra.contains((a, b)) {
            let t = choose|t: int| 0 <= t < extra.len() && extra[t] == (a, b);
            assert(is_redundant(edges, extra[t].0, extra[t].1));
        }
        if edges.contains((a, b)) && !reduction_of(edges).contains((a, b)) {
            assert(is_redundant(edges, a, b));
        }
    }
}

/// In a graph whose edges follow an order, what a node reaches along all
/// edges it reaches along the edges that are not redundant.
pub proof fn lemma_reduction_reaches(
    edges: Set<(NodeId, NodeId)>,
    order: Seq<NodeId>,
    a: NodeId,
    b: NodeId,
)
    requires
        follows_order(edges, order),
        reaches(edges, a, b),
    ensures
        reaches(reduction_of(edges), a, b),
    decreases rank(order, b) - rank(order, a),
{
    let kept = reduction_of(edges);
    lemma_reaches_later(edges, order, a, b);
    let x = lemma_first_step(edges, a, b);
    if x == b {
        if is_redundant(edges, a, b) {
            let y = choose|y: NodeId| edges.contains((a, y)) && reaches(edges, y, b);
            lemma_edge_reaches(edges, a, y);
            lemma_reaches_later(edges, order, a, y);
            lemma_reaches_later(edges, order, y, b);
            lemma_reduction_reaches(edges, order, a, y);
            lemma_reduction_reaches(edges, order, y, b);
            lemma_reaches_transitive(kept, a, y, b);
        } else {
            assert(kept.contains((a, b)));
            lemma_edge_reaches(kept, a, b);
        }
    } else {
        lemma_edge_reaches(edges, a, x);
        lemma_reaches_later(edges, order, a, x);
        lemma_reaches_later(edges, order, x, b);
        lemma_reduction_reaches(edges, order, a, x);
        lemma_reduction_reaches(edges, order, x, b);
        lemma_reaches_transitive(kept, a, x, b);
    }
}

/// The transitive reduction of a graph whose edges follow an order has the
/// reachability of the graph.
pub proof fn lemma_reduction_keeps_reachability(edges: Set<(NodeId, NodeId)>, order: Seq<NodeId>)
    requires
        follows_order(edges, order),
    ensures
        forall|a: NodeId, b: NodeId|
            reaches(reduction_of(edges), a, b) <==> reaches(edges, a, b),
{
    let kept = reduction_of(edges);
    assert forall|a: NodeId, b: NodeId| reaches(kept, a, b) <==> reaches(edges, a, b) by {
        if reaches(kept, a, b) {
            lemma_reaches_monotone(kept, edges, a, b);
        }
        if reaches(edges, a, b) {
            lemma_reduction_reaches(edges, order, a, b);
        }
    }
}

/// Every graph with the reachability of `edges` holds each edge of the
/// transitive reduction, so none has fewer edges.
pub proof fn lemma_reduction_is_least(edges: Set<(NodeId, NodeId)>, other: Set<(NodeId, NodeId)>)
    requires
        forall|a: NodeId, b: NodeId| reaches(other, a, b) <==> reaches(edges, a, b),
    ensures
        reduction_of(edges).subset_of(other),
        other.finite() ==> reduction_of(edges).len() <= other.len(),
{
    let kept = reduction_of(edges);
    assert forall|e: (NodeId, NodeId)| kept.contains(e) implies other.contains(e) by {
        let (a, b) = e;
        lemma_edge_reaches(edges, a, b);
        assert(reaches(other, a, b));
        let x = lemma_first_step(other, a, b);
        if x != b {
            lemma_edge_reaches(other, a, x);
            assert(reaches(edges, a, x));
            assert(reaches(edges, x, b));
            let y = lemma_first_step(edges, a, x);
            if y != x {
                lemma_reaches_transitive(edges, y, x, b);
            }
            assert(edges.contains((a, y)) && reaches(edges, y, b));
            assert(is_redundant(edges, a, b));
        }
    }
    if other.finite() {
        vstd::set_lib::lemma_len_subset(kept, other);
    }
}

/// Without one of its edges the transitive reduction no longer leads from
/// that edge's source to its target.
pub proof fn lemma_reduction_needs_each_edge(edges: Set<(NodeId, NodeId)>, a: NodeId, b: NodeId)
    requires
        reduction_of(edges).contains((a, b)),
    ensures
        reaches(reduction_of(edges), a, b),
        !reaches(reduction_of(edges).remove((a, b)), a, b),
{
    let kept = reduction_of(edges);
    let fewer = kept.remove((a, b));
    lemma_edge_reaches(kept, a, b);
    if reaches(fewer, a, b) {
        let x = lemma_first_step(fewer, a, b);
        assert(x != b);
        assert(fewer.subset_of(edges));
        lemma_reaches_monotone(fewer, edges, x, b);
        assert(edges.contains((a, x)) && reaches(edges, x, b));
        assert(is_redundant(edges, a, b));
    }
}

/// Containment is one level deep: only groups have members, and every
/// member is a system.
pub open spec fn is_one_level(hier: Set<(NodeId, NodeId)>) -> bool {
    forall|g: NodeId, m: NodeId| #[trigger] hier.contains((g, m)) ==> g is SystemSet && m is System
}

/// After a pass over `order` a one-level hierarchy has lost the edges of
/// the groups of `order` that had exactly one member, and no others.
pub proof fn lemma_hierarchy_after_pass(dep: Relation, hier: Relation, order: Seq<NodeId>)
    requires
        is_one_level(hier.edges),
    ensures
        forall|e: (NodeId, NodeId)| #[trigger]
            simplified(dep, hier, order).1.edges.contains(e) <==> hier.edges.contains(e) && !(
            order.contains(e.0) && is_trivial_group(hier.edges, e.0)),
    decreases order.len(),
{
    let after = simplified(dep, hier, order).1.edges;
    if order.len() == 0 {
    } else {
        let pre = order.drop_last();
        let g = order.last();
        let before = simplified(dep, hier, pre);
        let h1 = before.1.edges;
        lemma_hierarchy_after_pass(dep, hier, pre);
        assert forall|x: NodeId| order.contains(x) <==> pre.contains(x) || x == g by {
            if order.contains(x) {
                let i = choose|i: int| 0 <= i < order.len() && order[i] == x;
                if i < pre.len() {
                    assert(pre[i] == x);
                }
            }
            if pre.contains(x) {
                let i = choose|i: int| 0 <= i < pre.len() && pre[i] == x;
                assert(order[i] == x);
            }
            assert(order[order.len() - 1] == g);
        }
        assert(is_trivial_group(h1, g) <==> is_trivial_group(hier.edges, g) && !pre.contains(g)) by {
            if is_trivial_group(h1, g) {
                let m = choose|m: NodeId| is_sole_member(h1, g, m);
                assert(h1.contains((g, m)));
                assert forall|x: NodeId| hier.edges.contains((g, x)) implies x == m by {
                    assert(h1.contains((g, x)));
                }
                assert(is_sole_member(hier.edges, g, m));
            }
            if is_trivial_group(hier.edges, g) && !pre.contains(g) {
                let m = choose|m: NodeId| is_sole_member(hier.edges, g, m);
                assert(h1.contains((g, m)));
                assert forall|x: NodeId| h1.contains((g, x)) implies x == m by {
                    assert(hier.edges.contains((g, x)));
                }
                assert(is_sole_member(h1, g, m));
            }
        }
        assert forall|e: (NodeId, NodeId)| #[trigger]
            after.contains(e) <==> hier.edges.contains(e) && !(order.contains(e.0)
                && is_trivial_group(hier.edges, e.0)) by {
            assert(h1.contains(e) <==> hier.edges.contains(e) && !(pre.contains(e.0)
                && is_trivial_group(hier.edges, e.0)));
            if is_trivial_group(h1, g) {
                assert(after.contains(e) <==> e.0 != g && e.1 != g && h1.contains(e));
                if hier.edges.contains(e) && e.1 == g {
                    assert(hier.edges.contains((e.0, e.1)));
                }
            } else {
                assert(after == h1);
            }
        }
    }
}

/// A pass over nodes of which none is a group with exactly one member
/// changes nothing.
pub proof fn lemma_pass_without_trivial_groups(dep: Relation, hier: Relation, order: Seq<NodeId>)
    requires
        forall|g: NodeId| order.contains(g) ==> !is_trivial_group(hier.edges, g),
    ensures
        simplified(dep, hier, order) == (dep, hier),
    decreases order.len(),
{
    if order.len() > 0 {
        let pre = order.drop_last();
        assert forall|g: NodeId| pre.contains(g) implies !is_trivial_group(hier.edges, g) by {
            let i = choose|i: int| 0 <= i < pre.len() && pre[i] == g;
            assert(order[i] == g);
            assert(order.contains(g));
        }
        lemma_pass_without_trivial_groups(dep, hier, pre);
        assert(order.contains(order.last())) by {
            assert(order[order.len() - 1] == order.last());
        }
    }
}

/// Simplifying twice is simplifying once: after a pass over `order` no
/// group of `order` has exactly one member, and a second pass over `order`
/// changes nothing. This holds where containment is one level deep.
pub proof fn lemma_simplify_is_idempotent(dep: Relation, hier: Relation, order: Seq<NodeId>)
    requires
        is_one_level(hier.edges),
    ensures
        forall|g: NodeId|
            order.contains(g) ==> !is_trivial_group(simplified(dep, hier, order).1.edges, g),
        simplified(simplified(dep, hier, order).0, simplified(dep, hier, order).1, order)
            == simplified(dep, hier, order),
{
    let once = simplified(dep, hier, order);
    let h = once.1.edges;
    lemma_hierarchy_after_pass(dep, hier, order);
    assert forall|g: NodeId| order.contains(g) implies !is_trivial_group(h, g) by {
        if is_trivial_group(h, g) {
            let m = choose|m: NodeId| is_sole_member(h, g, m);
            assert(h.contains((g, m)));
            assert forall|x: NodeId| hier.edges.contains((g, x)) implies x == m by {
                assert(h.contains((g, x)));
            }
            assert(is_sole_member(hier.edges, g, m));
            assert(false);
        }
    }
    lemma_pass_without_trivial_groups(once.0, once.1, order);
}

/// An edge leads from a node to a node of greater depth, so to a later
/// layer.
pub proof fn lemma_layers_rise_along_edges(
    edges: Set<(NodeId, NodeId)>,
    a: NodeId,
    b: NodeId,
    layer_a: int,
    layer_b: int,
)
    requires
        edges.contains((a, b)),
        is_depth(edges, a, layer_a),
        is_depth(edges, b, layer_b),
    ensures
        layer_a < layer_b,
{
    let w = choose|w: Seq<NodeId>| is_walk(edges, w) && w.last() == a && w.len() == layer_a + 1;
    lemma_walk_extend(edges, w, b);
    let p = w.push(b);
    assert(is_walk(edges, p) && p.last() == b && p.len() == (layer_a + 1) + 1);
    assert(ends_walk(edges, b, layer_a + 1));
}

/// A node without an edge into it has depth 0: it stands in the first
/// layer.
pub proof fn lemma_source_is_in_first_layer(edges: Set<(NodeId, NodeId)>, n: NodeId, layer: int)
    requires
        forall|x: NodeId| !edges.contains((x, n)),
        is_depth(edges, n, layer),
    ensures
        layer == 0,
{
    let w = choose|w: Seq<NodeId>| is_walk(edges, w) && w.last() == n && w.len() == layer + 1;
    if layer >= 1 {
        lemma_walk_shrink(edges, w);
    }
}

/// The number of the last layer is the length of the longest walk of the
/// graph: some walk has that many steps, and no walk that ends at a node of
/// the graph has more.
pub proof fn lemma_last_layer_is_longest_walk(
    layers: Seq<Seq<NodeId>>,
    edges: Set<(NodeId, NodeId)>,
    order: Seq<NodeId>,
)
    requires
        is_layering(layers, edges, order),
        layers.len() > 0,
    ensures
        exists|p: Seq<NodeId>| is_walk(edges, p) && p.len() == layers.len(),
        forall|p: Seq<NodeId>|
            is_walk(edges, p) && order.contains(p.last()) ==> p.len() <= layers.len(),
{
    let last = layers.len() - 1;
    assert(layers[last].len() > 0);
    let n = layers[last][0];
    assert(is_depth(edges, n, last));
    let w = choose|w: Seq<NodeId>| is_walk(edges, w) && w.last() == n && w.len() == last + 1;
    assert(is_walk(edges, w) && w.len() == layers.len());
    assert forall|p: Seq<NodeId>| is_walk(edges, p) && order.contains(p.last()) implies p.len()
        <= layers.len() by {
        let x = p.last();
        let l = choose|l: int| 0 <= l < layers.len() && (#[trigger] layers[l]).contains(x);
        let t = choose|t: int| 0 <= t < layers[l].len() && layers[l][t] == x;
        assert(is_depth(edges, layers[l][t], l));
        assert(ends_walk(edges, x, p.len() - 1));
    }
}

} // verus!
