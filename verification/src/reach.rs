//! Walks and reachability over a set of edges.

use vstd::prelude::*;

use crate::node::NodeId;

verus! {

/// The `i`-th step of the walk `p`: the pair of its `i`-th node and the next.
pub open spec fn hop(p: Seq<NodeId>, i: int) -> (NodeId, NodeId) {
    (p[i], p[i + 1])
}

/// `p` walks along `edges`: it has a node, and each step of it is an edge.
pub open spec fn is_walk(edges: Set<(NodeId, NodeId)>, p: Seq<NodeId>) -> bool {
    &&& p.len() >= 1
    &&& forall|i: int| 0 <= i < p.len() - 1 ==> edges.contains(#[trigger] hop(p, i))
}

/// `p` is a walk along `edges` of at least one step that starts at `a` and
/// ends at `b`.
pub open spec fn walks_between(edges: Set<(NodeId, NodeId)>, p: Seq<NodeId>, a: NodeId, b: NodeId) -> bool {
    &&& is_walk(edges, p)
    &&& p.len() >= 2
    &&& p.first() == a
    &&& p.last() == b
}

/// `b` can be reached from `a` along one or more of `edges`.
pub open spec fn reaches(edges: Set<(NodeId, NodeId)>, a: NodeId, b: NodeId) -> bool {
    exists|p: Seq<NodeId>| walks_between(edges, p, a, b)
}

/// `a` and `b` are the same node or each can be reached from the other.
pub open spec fn mutually_reachable(edges: Set<(NodeId, NodeId)>, a: NodeId, b: NodeId) -> bool {
    a == b || (reaches(edges, a, b) && reaches(edges, b, a))
}

/// The edge from `a` to `b` is redundant: `b` can also be reached from `a`
/// through some other node.
pub open spec fn is_redundant(edges: Set<(NodeId, NodeId)>, a: NodeId, b: NodeId) -> bool {
    &&& edges.contains((a, b))
    &&& exists|x: NodeId| edges.contains((a, x)) && reaches(edges, x, b)
}

/// No node can be reached from itself.
pub open spec fn is_acyclic(edges: Set<(NodeId, NodeId)>) -> bool {
    forall|a: NodeId| !reaches(edges, a, a)
}

/// The edges of `edges` that are not redundant.
pub open spec fn reduction_of(edges: Set<(NodeId, NodeId)>) -> Set<(NodeId, NodeId)> {
    Set::new(|e: (NodeId, NodeId)| edges.contains(e) && !is_redundant(edges, e.0, e.1))
}

/// An edge is a walk of one step.
pub proof fn lemma_edge_reaches(edges: Set<(NodeId, NodeId)>, a: NodeId, b: NodeId)
    requires
        edges.contains((a, b)),
    ensures
        reaches(edges, a, b),
{
    let p = seq![a, b];
    assert forall|i: int| 0 <= i < p.len() - 1 implies edges.contains(#[trigger] hop(p, i)) by {
        assert(hop(p, 0) == (a, b));
    }
    assert(walks_between(edges, p, a, b));
}

/// Two walks that meet make one walk.
pub proof fn lemma_reaches_transitive(edges: Set<(NodeId, NodeId)>, a: NodeId, b: NodeId, c: NodeId)
    requires
        reaches(edges, a, b),
        reaches(edges, b, c),
    ensures
        reaches(edges, a, c),
{
    let p = choose|p: Seq<NodeId>| walks_between(edges, p, a, b);
    let q = choose|q: Seq<NodeId>| walks_between(edges, q, b, c);
    let r = p + q.drop_first();
    assert forall|i: int| 0 <= i < r.len() - 1 implies edges.contains(#[trigger] hop(r, i)) by {
        if i < p.len() - 1 {
            assert(hop(r, i) == hop(p, i));
        } else {
            let j = i - p.len() + 1;
            assert(r[i] == q[j]);
            assert(r[i + 1] == q[j + 1]);
            assert(hop(r, i) == hop(q, j));
        }
    }
    assert(r.last() == q.last());
    assert(walks_between(edges, r, a, c));
}

/// An edge in front of a walk makes a longer walk.
pub proof fn lemma_step_then_reaches(edges: Set<(NodeId, NodeId)>, a: NodeId, b: NodeId, c: NodeId)
    requires
        edges.contains((a, b)),
        b == c || reaches(edges, b, c),
    ensures
        reaches(edges, a, c),
{
    lemma_edge_reaches(edges, a, b);
    if b != c {
        lemma_reaches_transitive(edges, a, b, c);
    }
}

/// A walk begins with an edge, after which it has arrived or goes on.
pub proof fn lemma_first_step(edges: Set<(NodeId, NodeId)>, a: NodeId, c: NodeId) -> (b: NodeId)
    requires
        reaches(edges, a, c),
    ensures
        edges.contains((a, b)),
        b == c || reaches(edges, b, c),
{
    let p = choose|p: Seq<NodeId>| walks_between(edges, p, a, c);
    assert(hop(p, 0) == (p[0], p[1]));
    let b = p[1];
    if p.len() > 2 {
        let q = p.drop_first();
        assert forall|i: int| 0 <= i < q.len() - 1 implies edges.contains(#[trigger] hop(q, i)) by {
            assert(hop(q, i) == hop(p, i + 1));
        }
        assert(walks_between(edges, q, b, c));
    }
    b
}

/// A walk ends with an edge, before which it has not left or has come some way.
pub proof fn lemma_last_step(edges: Set<(NodeId, NodeId)>, a: NodeId, c: NodeId) -> (b: NodeId)
    requires
        reaches(edges, a, c),
    ensures
        edges.contains((b, c)),
        a == b || reaches(edges, a, b),
{
    let p = choose|p: Seq<NodeId>| walks_between(edges, p, a, c);
    let n = p.len() as int;
    assert(hop(p, n - 2) == (p[n - 2], p[n - 1]));
    let b = p[n - 2];
    if p.len() > 2 {
        let q = p.drop_last();
        assert forall|i: int| 0 <= i < q.len() - 1 implies edges.contains(#[trigger] hop(q, i)) by {
            assert(hop(q, i) == hop(p, i));
        }
        assert(walks_between(edges, q, a, b));
    }
    b
}

/// A walk along some edges is a walk along more edges.
pub proof fn lemma_reaches_monotone(
    small: Set<(NodeId, NodeId)>,
    large: Set<(NodeId, NodeId)>,
    a: NodeId,
    b: NodeId,
)
    requires
        small.subset_of(large),
        reaches(small, a, b),
    ensures
        reaches(large, a, b),
{
    let p = choose|p: Seq<NodeId>| walks_between(small, p, a, b);
    assert forall|i: int| 0 <= i < p.len() - 1 implies large.contains(#[trigger] hop(p, i)) by {
        assert(small.contains(hop(p, i)));
    }
    assert(walks_between(large, p, a, b));
}

/// Where every edge leads to a higher rank, so does every walk.
pub proof fn lemma_walk_climbs(
    edges: Set<(NodeId, NodeId)>,
    rank: spec_fn(NodeId) -> int,
    p: Seq<NodeId>,
)
    requires
        is_walk(edges, p),
        p.len() >= 2,
        forall|a: NodeId, b: NodeId| #[trigger] edges.contains((a, b)) ==> rank(a) < rank(b),
    ensures
        rank(p.first()) < rank(p.last()),
    decreases p.len(),
{
    assert(hop(p, 0) == (p[0], p[1]));
    assert(edges.contains((p[0], p[1])));
    if p.len() > 2 {
        let q = p.drop_first();
        assert forall|i: int| 0 <= i < q.len() - 1 implies edges.contains(#[trigger] hop(q, i)) by {
            assert(hop(q, i) == hop(p, i + 1));
        }
        lemma_walk_climbs(edges, rank, q);
    }
}

/// Where every edge leads to a higher rank, a node reaches only nodes of
/// higher rank.
pub proof fn lemma_reaches_climbs(
    edges: Set<(NodeId, NodeId)>,
    rank: spec_fn(NodeId) -> int,
    a: NodeId,
    b: NodeId,
)
    requires
        reaches(edges, a, b),
        forall|x: NodeId, y: NodeId| #[trigger] edges.contains((x, y)) ==> rank(x) < rank(y),
    ensures
        rank(a) < rank(b),
{
    let p = choose|p: Seq<NodeId>| walks_between(edges, p, a, b);
    lemma_walk_climbs(edges, rank, p);
}

} // verus!
