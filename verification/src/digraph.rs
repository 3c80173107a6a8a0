//! A directed graph over node identifiers, kept in petgraph's `DiGraphMap`.

use bevy::utils::petgraph::algo::tarjan_scc;
use bevy::utils::petgraph::graphmap::GraphMap;
use bevy::utils::petgraph::{Directed, Direction};
use std::collections::hash_map::RandomState;
use std::hash::BuildHasher;
use vstd::prelude::*;

use crate::node::NodeId;
use crate::reach::mutually_reachable;

verus! {

/// petgraph's `GraphMap`, opaque to the verifier.
#[verifier::external_type_specification]
#[verifier::external_body]
#[verifier::reject_recursive_types(N)]
#[verifier::reject_recursive_types(E)]
#[verifier::reject_recursive_types(Ty)]
#[verifier::reject_recursive_types(S)]
pub struct ExGraphMap<N, E, Ty, S: BuildHasher>(GraphMap<N, E, Ty, S>);

/// petgraph's marker for directed graphs.
#[verifier::external_type_specification]
#[verifier::external_body]
pub struct ExDirected(Directed);

/// petgraph's edge direction, `Outgoing` or `Incoming`.
#[verifier::external_type_specification]
pub struct ExDirection(Direction);

/// The graph type that the library keeps its graphs in: petgraph's
/// `DiGraphMap` over node identifiers, without edge weights. The graph
/// finds a node by the `Hash` and `Eq` that `NodeId` derives; what is
/// stated of it below takes those to tell two identifiers apart exactly
/// where they differ.
pub type NodeGraph = GraphMap<NodeId, (), Directed, RandomState>;

/// The nodes of a `GraphMap`, in the order in which it walks them.
pub uninterp spec fn graph_nodes(g: NodeGraph) -> Seq<NodeId>;

/// For each node of a `GraphMap` the targets of its outgoing edges, in the
/// order in which the graph walks them.
pub uninterp spec fn graph_successors(g: NodeGraph) -> Map<
    NodeId,
    Seq<NodeId>,
>;

/// The entry of `a` in `links`, empty where there is none.
pub open spec fn links_of(links: Map<NodeId, Seq<NodeId>>, a: NodeId) -> Seq<NodeId> {
    if links.dom().contains(a) {
        links[a]
    } else {
        Seq::empty()
    }
}

/// `nodes` with `n` at its end unless it is there already.
pub open spec fn with_node(nodes: Seq<NodeId>, n: NodeId) -> Seq<NodeId> {
    if nodes.contains(n) {
        nodes
    } else {
        nodes.push(n)
    }
}

/// `links` with an empty entry for `n` unless it has one already.
pub open spec fn with_entry(links: Map<NodeId, Seq<NodeId>>, n: NodeId) -> Map<
    NodeId,
    Seq<NodeId>,
> {
    if links.dom().contains(n) {
        links
    } else {
        links.insert(n, Seq::empty())
    }
}

/// `GraphMap::new`: a graph without nodes and edges.
#[verifier::external_body]
fn graph_new() -> (g: NodeGraph)
    ensures
        graph_nodes(g) == Seq::<NodeId>::empty(),
        graph_successors(g) == (Map::<NodeId, Seq<NodeId>>::empty()),
{
    GraphMap::new()
}

/// `GraphMap::node_count`: the number of nodes.
#[verifier::external_body]
fn graph_node_count(g: &NodeGraph) -> (n: usize)
    ensures
        n == graph_nodes(*g).len(),
{
    g.node_count()
}

/// `GraphMap::add_node`: a node that is new goes behind the others, with no
/// edges; one that is there already changes nothing.
#[verifier::external_body]
fn graph_add_node(g: &mut NodeGraph, n: NodeId)
    ensures
        graph_nodes(*final(g)) == with_node(graph_nodes(*old(g)), n),
        graph_successors(*final(g)) == with_entry(graph_successors(*old(g)), n),
{
    g.add_node(n);
}

/// `GraphMap::add_edge`: an edge that is there already changes nothing. A new
/// one first adds `a`, then `b`, behind the other nodes where they are
/// missing, and puts `b` behind the other successors of `a`.
#[verifier::external_body]
fn graph_add_edge(g: &mut NodeGraph, a: NodeId, b: NodeId)
    ensures
        links_of(graph_successors(*old(g)), a).contains(b) ==> {
            &&& graph_nodes(*final(g)) == graph_nodes(*old(g))
            &&& graph_successors(*final(g)) == graph_successors(*old(g))
        },
        !links_of(graph_successors(*old(g)), a).contains(b) ==> {
            &&& graph_nodes(*final(g)) == with_node(with_node(graph_nodes(*old(g)), a), b)
            &&& graph_successors(*final(g)) == with_entry(graph_successors(*old(g)), b).insert(
                a,
                links_of(graph_successors(*old(g)), a).push(b),
            )
        },
{
    g.add_edge(a, b, ());
}

/// `GraphMap::remove_node`: says whether `n` was a node. The node leaves
/// with every edge from or to it; the other nodes and edges stay, in an
/// order that is left open here.
#[verifier::external_body]
fn graph_remove_node(g: &mut NodeGraph, n: NodeId) -> (found:
    bool)
    ensures
        found == graph_nodes(*old(g)).contains(n),
        !found ==> graph_nodes(*final(g)) == graph_nodes(*old(g)) && graph_successors(*final(g))
            == graph_successors(*old(g)),
        graph_nodes(*final(g)).no_duplicates(),
        graph_nodes(*final(g)).to_set() == graph_nodes(*old(g)).to_set().remove(n),
        graph_successors(*final(g)).dom() == graph_successors(*old(g)).dom().remove(n),
        forall|x: NodeId|
            x != n && graph_successors(*old(g)).dom().contains(x) ==> {
                &&& (#[trigger] graph_successors(*final(g))[x]).no_duplicates()
                &&& graph_successors(*final(g))[x].to_set() == graph_successors(
                    *old(g),
                )[x].to_set().remove(n)
            },
{
    g.remove_node(n)
}

/// `GraphMap::neighbors_directed`: for `Outgoing` the successors of `a` in
/// the graph's order; for `Incoming` each node with an edge to `a`, once.
#[verifier::external_body]
fn graph_neighbors(g: &NodeGraph, a: NodeId, dir: Direction) -> (v:
    Vec<NodeId>)
    ensures
        dir is Outgoing ==> v@ == links_of(graph_successors(*g), a),
        dir is Incoming ==> v@.no_duplicates() && forall|x: NodeId|
            v@.contains(x) <==> links_of(graph_successors(*g), x).contains(a),
{
    g.neighbors_directed(a, dir).collect()
}

/// `GraphMap::contains_node`: whether `n` is a node of the graph.
#[verifier::external_body]
fn graph_contains_node(g: &NodeGraph, n: NodeId) -> (r: bool)
    ensures
        r == graph_nodes(*g).contains(n),
{
    g.contains_node(n)
}

/// `GraphMap::nodes`: the nodes in the graph's order.
#[verifier::external_body]
fn graph_node_list(g: &NodeGraph) -> (v: Vec<NodeId>)
    ensures
        v@ == graph_nodes(*g),
{
    g.nodes().collect()
}

/// The edges that `links` lists: the pairs of a node and one of its entries.
pub open spec fn link_edges(links: Map<NodeId, Seq<NodeId>>) -> Set<(NodeId, NodeId)> {
    Set::new(|e: (NodeId, NodeId)| links_of(links, e.0).contains(e.1))
}

/// The views of a vector's vectors.
pub open spec fn views(v: Seq<Vec<NodeId>>) -> Seq<Seq<NodeId>> {
    Seq::new(v.len(), |i: int| v[i]@)
}

/// `comps` lists the strongly connected components of the graph with the
/// nodes `nodes` and the edges `edges`, each before every component that has
/// an edge into it: no component is empty; every node stands in one
/// component, once; two nodes share
/// a component where each reaches the other, and only there; no edge leads
/// from a component to a later one.
pub open spec fn is_component_order(
    nodes: Seq<NodeId>,
    edges: Set<(NodeId, NodeId)>,
    comps: Seq<Seq<NodeId>>,
) -> bool {
    &&& forall|i: int| 0 <= i < comps.len() ==> (#[trigger] comps[i]).len() > 0
    &&& forall|i: int, j: int|
        0 <= i < comps.len() && 0 <= j < comps[i].len() ==> nodes.contains(#[trigger] comps[i][j])
    &&& forall|n: NodeId|
        nodes.contains(n) ==> exists|i: int, j: int|
            0 <= i < comps.len() && 0 <= j < comps[i].len() && #[trigger] comps[i][j] == n
    &&& forall|i: int, j: int, k: int, l: int|
        0 <= i < comps.len() && 0 <= j < comps[i].len() && 0 <= k < comps.len() && 0 <= l
            < comps[k].len() && #[trigger] comps[i][j] == #[trigger] comps[k][l] ==> i == k && j
            == l
    &&& forall|i: int, j: int, k: int, l: int|
        0 <= i < comps.len() && 0 <= j < comps[i].len() && 0 <= k < comps.len() && 0 <= l
            < comps[k].len() ==> (i == k <==> mutually_reachable(
            edges,
            #[trigger] comps[i][j],
            #[trigger] comps[k][l],
        ))
    &&& forall|i: int, j: int, k: int, l: int|
        0 <= i < comps.len() && 0 <= j < comps[i].len() && 0 <= k < comps.len() && 0 <= l
            < comps[k].len() && edges.contains((#[trigger] comps[i][j], #[trigger] comps[k][l]))
            ==> k <= i
}

/// What petgraph's `tarjan_scc` returns for a graph with these nodes and
/// successors.
pub uninterp spec fn tarjan_components(nodes: Seq<NodeId>, successors: Map<NodeId, Seq<NodeId>>) -> Seq<Seq<NodeId>>;

/// `petgraph::algo::tarjan_scc`: the strongly connected components of the
/// graph in reverse topological order, the order inside a component left
/// open. The result depends on the graph's nodes and successors alone.
#[verifier::external_body]
fn graph_components(g: &NodeGraph) -> (comps: Vec<Vec<NodeId>>)
    ensures
        views(comps@) == tarjan_components(graph_nodes(*g), graph_successors(*g)),
        is_component_order(graph_nodes(*g), link_edges(graph_successors(*g)), views(comps@)),
{
    tarjan_scc(g)
}

/// A directed graph over node identifiers without parallel edges.
pub struct DiGraph {
    inner: NodeGraph,
}

impl DiGraph {
    /// The nodes, in the order in which the graph walks them.
    pub closed spec fn nodes(&self) -> Seq<NodeId> {
        graph_nodes(self.inner)
    }

    /// The targets of the edges that leave `a`, in the order in which the
    /// graph walks them; empty where `a` is no node.
    pub closed spec fn successors(&self, a: NodeId) -> Seq<NodeId> {
        links_of(graph_successors(self.inner), a)
    }

    /// The strongly connected components in the order in which the graph's
    /// search finds them.
    pub closed spec fn components(&self) -> Seq<Seq<NodeId>> {
        tarjan_components(graph_nodes(self.inner), graph_successors(self.inner))
    }

    /// Whether `a` is a node of the graph.
    pub open spec fn has_node(&self, a: NodeId) -> bool {
        self.nodes().contains(a)
    }

    /// Whether the graph has an edge from `a` to `b`.
    pub open spec fn has_edge(&self, a: NodeId, b: NodeId) -> bool {
        self.successors(a).contains(b)
    }

    /// The nodes as a set.
    pub open spec fn node_set(&self) -> Set<NodeId> {
        self.nodes().to_set()
    }

    /// The edges as a set of pairs, source first.
    pub open spec fn edges(&self) -> Set<(NodeId, NodeId)> {
        Set::new(|e: (NodeId, NodeId)| self.has_edge(e.0, e.1))
    }

    /// No node and no successor is listed twice, and edges run between nodes.
    pub open spec fn well_formed(&self) -> bool {
        &&& self.nodes().no_duplicates()
        &&& forall|a: NodeId| (#[trigger] self.successors(a)).no_duplicates()
        &&& forall|a: NodeId, b: NodeId| #[trigger]
            self.has_edge(a, b) ==> self.has_node(a) && self.has_node(b)
    }

    /// A graph without nodes and edges.
    pub fn new() -> (g: DiGraph)
        ensures
            g.well_formed(),
            g.nodes() == Seq::<NodeId>::empty(),
            forall|a: NodeId| #[trigger] g.successors(a) == Seq::<NodeId>::empty(),
    {
        DiGraph { inner: graph_new() }
    }

    /// The number of nodes.
    pub fn node_count(&self) -> (n: usize)
        ensures
            n == self.nodes().len(),
    {
        graph_node_count(&self.inner)
    }

    /// Adds the node `n` behind the others, unless it is there already.
    pub fn add_node(&mut self, n: NodeId)
        requires
            old(self).well_formed(),
        ensures
            final(self).well_formed(),
            final(self).nodes() == with_node(old(self).nodes(), n),
            forall|a: NodeId| #[trigger] final(self).successors(a) == old(self).successors(a),
            forall|a: NodeId, b: NodeId| #[trigger]
                final(self).has_edge(a, b) == old(self).has_edge(a, b),
            final(self).node_set() == old(self).node_set().insert(n),
            forall|x: NodeId| #[trigger] final(self).has_node(x) <==> old(self).has_node(x) || x == n,
    {
        graph_add_node(&mut self.inner, n);
        proof {
            lemma_with_node(old(self).nodes(), n);
            assert(self.node_set() =~= old(self).node_set().insert(n));
            assert forall|a: NodeId| #[trigger] self.successors(a) == old(self).successors(a) by {}
            assert forall|a: NodeId, b: NodeId| #[trigger] self.has_edge(a, b) implies self.has_node(
                a,
            ) && self.has_node(b) by {
                assert(old(self).has_edge(a, b));
            }
        }
    }

    /// Adds the edge from `a` to `b` unless it is there already. A new edge
    /// first adds `a`, then `b`, behind the other nodes where they are
    /// missing, and puts `b` behind the other successors of `a`.
    pub fn add_edge(&mut self, a: NodeId, b: NodeId)
        requires
            old(self).well_formed(),
        ensures
            final(self).well_formed(),
            final(self).nodes() == if old(self).has_edge(a, b) {
                old(self).nodes()
            } else {
                with_node(with_node(old(self).nodes(), a), b)
            },
            forall|x: NodeId| #[trigger]
                final(self).successors(x) == if x == a && !old(self).has_edge(a, b) {
                    old(self).successors(a).push(b)
                } else {
                    old(self).successors(x)
                },
            forall|x: NodeId, y: NodeId| #[trigger]
                final(self).has_edge(x, y) <==> old(self).has_edge(x, y) || (x == a && y == b),
            final(self).node_set() == old(self).node_set().insert(a).insert(b),
            forall|x: NodeId| #[trigger]
                final(self).has_node(x) <==> old(self).has_node(x) || x == a || x == b,
    {
        graph_add_edge(&mut self.inner, a, b);
        proof {
            let before = old(self).nodes();
            lemma_with_node(before, a);
            lemma_with_node(with_node(before, a), b);
            if old(self).has_edge(a, b) {
                assert(old(self).has_node(a) && old(self).has_node(b));
            }
            assert forall|x: NodeId| #[trigger]
                self.has_node(x) <==> old(self).has_node(x) || x == a || x == b by {}
            assert(self.node_set() =~= old(self).node_set().insert(a).insert(b));
            assert forall|x: NodeId, y: NodeId| #[trigger]
                self.has_edge(x, y) <==> old(self).has_edge(x, y) || (x == a && y == b) by {
                crate::order::lemma_push_has(old(self).successors(a), b, y);
            }
            assert forall|x: NodeId| #[trigger]
                self.successors(x) == if x == a && !old(self).has_edge(a, b) {
                    old(self).successors(a).push(b)
                } else {
                    old(self).successors(x)
                } by {}
            assert forall|x: NodeId| (#[trigger] self.successors(x)).no_duplicates() by {
                assert(old(self).successors(x).no_duplicates());
            }
            assert forall|x: NodeId, y: NodeId| #[trigger] self.has_edge(x, y) implies self.has_node(
                x,
            ) && self.has_node(y) by {
                if old(self).has_edge(x, y) {
                    assert(old(self).has_node(x) && old(self).has_node(y));
                } else {
                    assert(x == a && y == b);
                }
            }
        }
    }

    /// Removes the node `n` with every edge from or to it, and says whether
    /// it was a node. The order of the nodes and successors that stay is
    /// left open.
    pub fn remove_node(&mut self, n: NodeId) -> (found: bool)
        requires
            old(self).well_formed(),
        ensures
            final(self).well_formed(),
            found == old(self).has_node(n),
            final(self).node_set() == old(self).node_set().remove(n),
            forall|x: NodeId, y: NodeId| #[trigger]
                final(self).has_edge(x, y) <==> old(self).has_edge(x, y) && x != n && y != n,
            !found ==> final(self).nodes() == old(self).nodes() && forall|x: NodeId| #[trigger]
                final(self).successors(x) == old(self).successors(x),
    {
        let found = graph_remove_node(&mut self.inner, n);
        proof {
            let before = graph_successors(old(self).inner);
            let after = graph_successors(self.inner);
            assert forall|x: NodeId, y: NodeId| #[trigger]
                self.has_edge(x, y) <==> old(self).has_edge(x, y) && x != n && y != n by {
                if x != n && before.dom().contains(x) {
                    assert(after.dom().contains(x));
                    assert(after[x].to_set().contains(y) <==> before[x].to_set().remove(
                        n,
                    ).contains(y));
                } else if x != n {
                    assert(!after.dom().contains(x));
                } else {
                    assert(!after.dom().contains(x));
                    if found {
                    } else {
                        assert(!old(self).has_node(n));
                        if old(self).has_edge(n, y) {
                            assert(old(self).has_node(n));
                        }
                    }
                }
            }
            assert forall|x: NodeId| (#[trigger] self.successors(x)).no_duplicates() by {
                if x != n && before.dom().contains(x) {
                    assert(after.dom().contains(x));
                } else {
                    assert(old(self).successors(x).no_duplicates());
                }
            }
            assert forall|x: NodeId, y: NodeId| #[trigger] self.has_edge(x, y) implies self.has_node(
                x,
            ) && self.has_node(y) by {
                assert(old(self).has_edge(x, y));
                assert(old(self).has_node(x) && old(self).has_node(y));
                assert(old(self).node_set().remove(n).contains(x));
                assert(old(self).node_set().remove(n).contains(y));
                assert(self.node_set().contains(x));
                assert(self.node_set().contains(y));
            }
        }
        found
    }

    /// Whether `n` is a node of the graph.
    pub fn contains_node(&self, n: NodeId) -> (r: bool)
        ensures
            r == self.has_node(n),
    {
        graph_contains_node(&self.inner, n)
    }

    /// The nodes in the graph's order.
    pub fn node_list(&self) -> (v: Vec<NodeId>)
        ensures
            v@ == self.nodes(),
    {
        graph_node_list(&self.inner)
    }

    /// The targets of the edges that leave `a`, in the graph's order.
    pub fn successor_list(&self, a: NodeId) -> (v: Vec<NodeId>)
        ensures
            v@ == self.successors(a),
    {
        graph_neighbors(&self.inner, a, Direction::Outgoing)
    }

    /// The sources of the edges that lead to `a`, each once.
    pub fn predecessor_list(&self, a: NodeId) -> (v: Vec<NodeId>)
        ensures
            v@.no_duplicates(),
            forall|x: NodeId| v@.contains(x) <==> self.has_edge(x, a),
    {
        graph_neighbors(&self.inner, a, Direction::Incoming)
    }

    /// The strongly connected components, each before every component that
    /// has an edge into it.
    pub fn component_list(&self) -> (comps: Vec<Vec<NodeId>>)
        ensures
            views(comps@) == self.components(),
            is_component_order(self.nodes(), self.edges(), views(comps@)),
    {
        let comps = graph_components(&self.inner);
        proof {
            assert(self.edges() =~= link_edges(graph_successors(self.inner)));
        }
        comps
    }
}

/// Adding a node once keeps a list free of duplicates.
pub proof fn lemma_with_node(nodes: Seq<NodeId>, n: NodeId)
    requires
        nodes.no_duplicates(),
    ensures
        with_node(nodes, n).no_duplicates(),
        with_node(nodes, n).contains(n),
        forall|x: NodeId| nodes.contains(x) ==> with_node(nodes, n).contains(x),
        forall|x: NodeId| with_node(nodes, n).contains(x) ==> x == n || nodes.contains(x),
{
    let r = with_node(nodes, n);
    if nodes.contains(n) {
    } else {
        assert(r[nodes.len() as int] == n);
        assert forall|x: NodeId| nodes.contains(x) implies r.contains(x) by {
            let i = choose|i: int| 0 <= i < nodes.len() && nodes[i] == x;
            assert(r[i] == x);
        }
    }
}

} // verus!
