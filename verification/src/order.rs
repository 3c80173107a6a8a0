//! Places in an order of nodes, and graphs whose edges follow such an order.

use vstd::prelude::*;

use crate::digraph::DiGraph;
use crate::node::NodeId;
use crate::reach::{is_redundant, lemma_first_step, lemma_reaches_climbs, lemma_step_then_reaches, reaches};

verus! {

/// The place of `x` in `order`.
pub open spec fn rank(order: Seq<NodeId>, x: NodeId) -> int {
    choose|i: int| 0 <= i < order.len() && order[i] == x
}

/// In an order without duplicates the node at a place has that place.
pub proof fn lemma_rank(order: Seq<NodeId>, i: int)
    requires
        order.no_duplicates(),
        0 <= i < order.len(),
    ensures
        rank(order, order[i]) == i,
{
}

/// A node of the order stands at its place.
pub proof fn lemma_rank_of_member(order: Seq<NodeId>, x: NodeId)
    requires
        order.contains(x),
    ensures
        0 <= rank(order, x) < order.len(),
        order[rank(order, x)] == x,
{
}

/// Every edge of `edges` runs between nodes of `order`, from a node to one
/// that stands later, and `order` lists no node twice.
pub open spec fn follows_order(edges: Set<(NodeId, NodeId)>, order: Seq<NodeId>) -> bool {
    &&& order.no_duplicates()
    &&& forall|a: NodeId, b: NodeId| #[trigger]
        edges.contains((a, b)) ==> order.contains(a) && order.contains(b) && rank(order, a) < rank(
            order,
            b,
        )
}

/// The nodes of `s` stand in `order`, each later than the one before.
pub open spec fn climbs(order: Seq<NodeId>, s: Seq<NodeId>) -> bool {
    forall|p: int, q: int|
        0 <= p < q < s.len() ==> rank(order, #[trigger] s[p]) < rank(order, #[trigger] s[q])
}

/// `g` has the nodes of `order` in that order and the edges `edges`, and
/// lists the successors of each node in the order of `order`.
pub open spec fn mirrors(g: &DiGraph, edges: Set<(NodeId, NodeId)>, order: Seq<NodeId>) -> bool {
    &&& g.well_formed()
    &&& g.nodes() == order
    &&& forall|a: NodeId, b: NodeId| #[trigger] g.has_edge(a, b) <==> edges.contains((a, b))
    &&& forall|a: NodeId| climbs(order, #[trigger] g.successors(a))
}

/// Along edges that follow an order a node reaches only later nodes.
pub proof fn lemma_reaches_later(
    edges: Set<(NodeId, NodeId)>,
    order: Seq<NodeId>,
    a: NodeId,
    b: NodeId,
)
    requires
        follows_order(edges, order),
        reaches(edges, a, b),
    ensures
        order.contains(a),
        order.contains(b),
        rank(order, a) < rank(order, b),
{
    let x = lemma_first_step(edges, a, b);
    let y = crate::reach::lemma_last_step(edges, a, b);
    assert(edges.contains((a, x)));
    assert(edges.contains((y, b)));
    lemma_reaches_climbs(edges, |n: NodeId| rank(order, n), a, b);
}

/// Edges that follow an order have no cycle.
pub proof fn lemma_ordered_is_acyclic(edges: Set<(NodeId, NodeId)>, order: Seq<NodeId>)
    requires
        follows_order(edges, order),
    ensures
        crate::reach::is_acyclic(edges),
{
    assert forall|a: NodeId| !reaches(edges, a, a) by {
        if reaches(edges, a, a) {
            lemma_reaches_later(edges, order, a, a);
        }
    }
}

/// `y` is among the first `k` nodes of `s`.
pub open spec fn among(s: Seq<NodeId>, k: int, y: NodeId) -> bool {
    exists|p: int| 0 <= p < k && #[trigger] s[p] == y
}

/// The first `k + 1` nodes are the first `k` and the next.
pub proof fn lemma_among_step(s: Seq<NodeId>, k: int)
    requires
        0 <= k < s.len(),
    ensures
        forall|y: NodeId| among(s, k + 1, y) <==> among(s, k, y) || s[k] == y,
        s.no_duplicates() ==> !among(s, k, s[k]),
{
    assert forall|y: NodeId| among(s, k + 1, y) <==> among(s, k, y) || s[k] == y by {
        if among(s, k + 1, y) {
            let p = choose|p: int| 0 <= p < k + 1 && #[trigger] s[p] == y;
            if p < k {
                assert(among(s, k, y));
            }
        }
        if among(s, k, y) {
            let p = choose|p: int| 0 <= p < k && #[trigger] s[p] == y;
            assert(0 <= p < k + 1 && s[p] == y);
        }
        if s[k] == y {
            assert(0 <= k < k + 1 && s[k] == y);
        }
    }
    if s.no_duplicates() && among(s, k, s[k]) {
        let p = choose|p: int| 0 <= p < k && #[trigger] s[p] == s[k];
        assert(false);
    }
}

/// All nodes of a list are among its first nodes when all are counted.
pub proof fn lemma_among_all(s: Seq<NodeId>)
    ensures
        forall|y: NodeId| among(s, s.len() as int, y) <==> s.contains(y),
        forall|y: NodeId| !among(s, 0, y),
{
    assert forall|y: NodeId| among(s, s.len() as int, y) <==> s.contains(y) by {
        if among(s, s.len() as int, y) {
            let p = choose|p: int| 0 <= p < s.len() && #[trigger] s[p] == y;
            assert(s[p] == y);
        }
        if s.contains(y) {
            let p = choose|p: int| 0 <= p < s.len() && s[p] == y;
            assert(0 <= p < s.len() && s[p] == y);
        }
    }
}

/// A list that climbs and gets a later node at its end still climbs.
pub proof fn lemma_climbs_push(order: Seq<NodeId>, s: Seq<NodeId>, v: NodeId)
    requires
        climbs(order, s),
        forall|p: int| 0 <= p < s.len() ==> rank(order, #[trigger] s[p]) < rank(order, v),
    ensures
        climbs(order, s.push(v)),
{
    let t = s.push(v);
    assert forall|p: int, q: int| 0 <= p < q < t.len() implies rank(order, #[trigger] t[p]) < rank(
        order,
        #[trigger] t[q],
    ) by {
        assert(t[p] == s[p]);
        if q < s.len() {
            assert(t[q] == s[q]);
        }
    }
}

/// A list with one more item at its end holds that item and what it held.
pub proof fn lemma_push_has<T>(s: Seq<T>, v: T, y: T)
    ensures
        s.push(v).contains(y) <==> s.contains(y) || y == v,
{
    let t = s.push(v);
    if s.contains(y) {
        let i = choose|i: int| 0 <= i < s.len() && s[i] == y;
        assert(t[i] == y);
    }
    if y == v {
        assert(t[s.len() as int] == y);
    }
}

/// What an earlier successor reaches lies below the earlier successors.
pub proof fn lemma_strictly_below_is_below(
    edges: Set<(NodeId, NodeId)>,
    firsts: Seq<NodeId>,
    k: int,
    y: NodeId,
)
    requires
        strictly_below(edges, firsts, k, y),
    ensures
        below(edges, firsts, k, y),
{
    let p = choose|p: int| 0 <= p < k && reaches(edges, #[trigger] firsts[p], y);
    assert(firsts[p] == y || reaches(edges, firsts[p], y));
}

/// Some node among the first `k` of `firsts` is `y` or reaches `y`.
pub open spec fn below(edges: Set<(NodeId, NodeId)>, firsts: Seq<NodeId>, k: int, y: NodeId) -> bool {
    exists|p: int| 0 <= p < k && (#[trigger] firsts[p] == y || reaches(edges, firsts[p], y))
}

/// Some node among the first `k` of `firsts` reaches `y`.
pub open spec fn strictly_below(
    edges: Set<(NodeId, NodeId)>,
    firsts: Seq<NodeId>,
    k: int,
    y: NodeId,
) -> bool {
    exists|p: int| 0 <= p < k && reaches(edges, #[trigger] firsts[p], y)
}

/// `succs` lists the successors of `a` along `edges` in the order of `order`, each once.
pub open spec fn lists_successors(
    edges: Set<(NodeId, NodeId)>,
    order: Seq<NodeId>,
    a: NodeId,
    succs: Seq<NodeId>,
) -> bool {
    &&& succs.no_duplicates()
    &&& climbs(order, succs)
    &&& forall|y: NodeId| succs.contains(y) <==> edges.contains((a, y))
}

/// The `k`-th successor of `a` is reached from an earlier successor exactly
/// where the edge to it is redundant.
pub proof fn lemma_redundant_edge(
    edges: Set<(NodeId, NodeId)>,
    order: Seq<NodeId>,
    a: NodeId,
    succs: Seq<NodeId>,
    k: int,
)
    requires
        follows_order(edges, order),
        lists_successors(edges, order, a, succs),
        0 <= k < succs.len(),
    ensures
        strictly_below(edges, succs, k, succs[k]) <==> is_redundant(edges, a, succs[k]),
{
    let b = succs[k];
    assert(succs.contains(b));
    if strictly_below(edges, succs, k, b) {
        let p = choose|p: int| 0 <= p < k && reaches(edges, #[trigger] succs[p], b);
        assert(succs.contains(succs[p]));
        assert(edges.contains((a, succs[p])));
    }
    if is_redundant(edges, a, b) {
        let x = choose|x: NodeId| edges.contains((a, x)) && reaches(edges, x, b);
        assert(succs.contains(x));
        let m = choose|m: int| 0 <= m < succs.len() && succs[m] == x;
        lemma_reaches_later(edges, order, x, b);
        if m > k {
            assert(rank(order, succs[k]) < rank(order, succs[m]));
        }
        assert(m < k);
        assert(reaches(edges, succs[m], b));
    }
}

/// Past a successor that an earlier one reaches, nothing new lies below.
pub proof fn lemma_below_skip(edges: Set<(NodeId, NodeId)>, firsts: Seq<NodeId>, k: int)
    requires
        0 <= k < firsts.len(),
        strictly_below(edges, firsts, k, firsts[k]),
    ensures
        forall|y: NodeId| below(edges, firsts, k + 1, y) <==> below(edges, firsts, k, y),
        forall|y: NodeId|
            strictly_below(edges, firsts, k + 1, y) <==> strictly_below(edges, firsts, k, y),
{
    let b = firsts[k];
    let w = choose|p: int| 0 <= p < k && reaches(edges, #[trigger] firsts[p], b);
    assert forall|y: NodeId| below(edges, firsts, k + 1, y) <==> below(edges, firsts, k, y) by {
        if below(edges, firsts, k + 1, y) {
            let p = choose|p: int|
                0 <= p < k + 1 && (#[trigger] firsts[p] == y || reaches(edges, firsts[p], y));
            if p == k {
                if b != y {
                    crate::reach::lemma_reaches_transitive(edges, firsts[w], b, y);
                }
                assert(firsts[w] == y || reaches(edges, firsts[w], y));
            } else {
                assert(firsts[p] == y || reaches(edges, firsts[p], y));
            }
        }
        if below(edges, firsts, k, y) {
            let p = choose|p: int|
                0 <= p < k && (#[trigger] firsts[p] == y || reaches(edges, firsts[p], y));
            assert(0 <= p < k + 1);
        }
    }
    assert forall|y: NodeId|
        strictly_below(edges, firsts, k + 1, y) <==> strictly_below(edges, firsts, k, y) by {
        if strictly_below(edges, firsts, k + 1, y) {
            let p = choose|p: int| 0 <= p < k + 1 && reaches(edges, #[trigger] firsts[p], y);
            if p == k {
                crate::reach::lemma_reaches_transitive(edges, firsts[w], b, y);
                assert(reaches(edges, firsts[w], y));
            } else {
                assert(reaches(edges, firsts[p], y));
            }
        }
        if strictly_below(edges, firsts, k, y) {
            let p = choose|p: int| 0 <= p < k && reaches(edges, #[trigger] firsts[p], y);
            assert(0 <= p < k + 1);
        }
    }
}

/// Past any successor, what lies below is what lay below before, the
/// successor itself and what it reaches.
pub proof fn lemma_below_step(edges: Set<(NodeId, NodeId)>, firsts: Seq<NodeId>, k: int)
    requires
        0 <= k < firsts.len(),
    ensures
        forall|y: NodeId|
            below(edges, firsts, k + 1, y) <==> (below(edges, firsts, k, y) || firsts[k] == y
                || reaches(edges, firsts[k], y)),
        forall|y: NodeId|
            strictly_below(edges, firsts, k + 1, y) <==> (strictly_below(edges, firsts, k, y)
                || reaches(edges, firsts[k], y)),
{
    assert forall|y: NodeId|
        below(edges, firsts, k + 1, y) <==> (below(edges, firsts, k, y) || firsts[k] == y
            || reaches(edges, firsts[k], y)) by {
        if below(edges, firsts, k + 1, y) {
            let p = choose|p: int|
                0 <= p < k + 1 && (#[trigger] firsts[p] == y || reaches(edges, firsts[p], y));
            if p < k {
                assert(firsts[p] == y || reaches(edges, firsts[p], y));
            }
        }
        if below(edges, firsts, k, y) {
            let p = choose|p: int|
                0 <= p < k && (#[trigger] firsts[p] == y || reaches(edges, firsts[p], y));
            assert(0 <= p < k + 1);
        }
        if firsts[k] == y || reaches(edges, firsts[k], y) {
            assert(0 <= k < k + 1 && (firsts[k] == y || reaches(edges, firsts[k], y)));
        }
    }
    assert forall|y: NodeId|
        strictly_below(edges, firsts, k + 1, y) <==> (strictly_below(edges, firsts, k, y)
            || reaches(edges, firsts[k], y)) by {
        if strictly_below(edges, firsts, k + 1, y) {
            let p = choose|p: int| 0 <= p < k + 1 && reaches(edges, #[trigger] firsts[p], y);
            if p < k {
                assert(reaches(edges, firsts[p], y));
            }
        }
        if strictly_below(edges, firsts, k, y) {
            let p = choose|p: int| 0 <= p < k && reaches(edges, #[trigger] firsts[p], y);
            assert(0 <= p < k + 1);
        }
        if reaches(edges, firsts[k], y) {
            assert(0 <= k < k + 1 && reaches(edges, firsts[k], y));
        }
    }
}

/// What lies below all successors of `a` is what `a` reaches.
pub proof fn lemma_below_all(
    edges: Set<(NodeId, NodeId)>,
    order: Seq<NodeId>,
    a: NodeId,
    succs: Seq<NodeId>,
)
    requires
        lists_successors(edges, order, a, succs),
    ensures
        forall|y: NodeId| below(edges, succs, succs.len() as int, y) <==> reaches(edges, a, y),
{
    let k = succs.len() as int;
    assert forall|y: NodeId| below(edges, succs, k, y) <==> reaches(edges, a, y) by {
        if below(edges, succs, k, y) {
            let p = choose|p: int|
                0 <= p < k && (#[trigger] succs[p] == y || reaches(edges, succs[p], y));
            assert(succs.contains(succs[p]));
            lemma_step_then_reaches(edges, a, succs[p], y);
        }
        if reaches(edges, a, y) {
            let x = lemma_first_step(edges, a, y);
            assert(succs.contains(x));
            let p = choose|p: int| 0 <= p < succs.len() && succs[p] == x;
            assert(succs[p] == y || reaches(edges, succs[p], y));
        }
    }
}

} // verus!
