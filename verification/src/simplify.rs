//! Folds groups with a single member into that member.

use vstd::prelude::*;

use crate::digraph::DiGraph;
use crate::node::NodeId;
use crate::order::{among, lemma_among_all, lemma_among_step};

verus! {

/// A graph as a set of nodes and a set of edges.
#[verifier::ext_equal]
pub struct Relation {
    /// The nodes.
    pub nodes: Set<NodeId>,
    /// The edges, source first.
    pub edges: Set<(NodeId, NodeId)>,
}

/// The nodes and edges of `g`.
pub open spec fn relation_of(g: &DiGraph) -> Relation {
    Relation { nodes: g.node_set(), edges: g.edges() }
}

/// `m` is the one member of the group `g` in the hierarchy `hier`.
pub open spec fn is_sole_member(hier: Set<(NodeId, NodeId)>, g: NodeId, m: NodeId) -> bool {
    &&& hier.contains((g, m))
    &&& forall|x: NodeId| hier.contains((g, x)) ==> x == m
}

/// `g` is a group with exactly one member.
pub open spec fn is_trivial_group(hier: Set<(NodeId, NodeId)>, g: NodeId) -> bool {
    g is SystemSet && exists|m: NodeId| is_sole_member(hier, g, m)
}

/// The one member of the group `g`.
pub open spec fn sole_member(hier: Set<(NodeId, NodeId)>, g: NodeId) -> NodeId {
    choose|m: NodeId| is_sole_member(hier, g, m)
}

/// Some dependency edge leads to `g` or from it.
pub open spec fn is_touched(dep: Set<(NodeId, NodeId)>, g: NodeId) -> bool {
    exists|x: NodeId| dep.contains((x, g)) || dep.contains((g, x))
}

/// The dependencies after the group `g` with the one member `m` was folded
/// into it: each edge into `g` leads into `m`, each edge out of `g` comes
/// out of `m`, and `g` is gone with its edges.
pub open spec fn folded_dependencies(dep: Relation, g: NodeId, m: NodeId) -> Relation {
    Relation {
        nodes: (if is_touched(dep.edges, g) {
            dep.nodes.insert(m)
        } else {
            dep.nodes
        }).remove(g),
        edges: Set::new(
            |e: (NodeId, NodeId)|
                e.0 != g && e.1 != g && (dep.edges.contains(e) || (e.1 == m && dep.edges.contains(
                    (e.0, g),
                )) || (e.0 == m && dep.edges.contains((g, e.1)))),
        ),
    }
}

/// The relation without the node `g` and the edges from or to it.
pub open spec fn without_node(r: Relation, g: NodeId) -> Relation {
    Relation {
        nodes: r.nodes.remove(g),
        edges: Set::new(|e: (NodeId, NodeId)| e.0 != g && e.1 != g && r.edges.contains(e)),
    }
}

/// The dependencies and the hierarchy after the node `g` was looked at: a
/// group with exactly one member is folded into that member and leaves both
/// graphs; any other node changes nothing.
pub open spec fn fold_group(dep: Relation, hier: Relation, g: NodeId) -> (Relation, Relation) {
    if is_trivial_group(hier.edges, g) {
        (folded_dependencies(dep, g, sole_member(hier.edges, g)), without_node(hier, g))
    } else {
        (dep, hier)
    }
}

/// The dependencies and the hierarchy after the nodes of `order` were
/// looked at one after the other.
pub open spec fn simplified(dep: Relation, hier: Relation, order: Seq<NodeId>) -> (
    Relation,
    Relation,
)
    decreases order.len(),
{
    if order.len() == 0 {
        (dep, hier)
    } else {
        let before = simplified(dep, hier, order.drop_last());
        fold_group(before.0, before.1, order.last())
    }
}

/// Looks at one node: where it is a group with exactly one member, every
/// dependency edge into the group is led into the member, every edge out of
/// it out of the member, and the group leaves both graphs.
pub fn fold_single_member(dependencies: &mut DiGraph, hierarchy: &mut DiGraph, node: NodeId)
    requires
        old(dependencies).well_formed(),
        old(hierarchy).well_formed(),
    ensures
        final(dependencies).well_formed(),
        final(hierarchy).well_formed(),
        relation_of(final(dependencies)) == fold_group(
            relation_of(old(dependencies)),
            relation_of(old(hierarchy)),
            node,
        ).0,
        relation_of(final(hierarchy)) == fold_group(
            relation_of(old(dependencies)),
            relation_of(old(hierarchy)),
            node,
        ).1,
        final(dependencies).node_set().subset_of(
            old(dependencies).node_set().union(old(hierarchy).node_set()),
        ),
        final(hierarchy).node_set().subset_of(old(hierarchy).node_set()),
{
    let ghost dep0 = *dependencies;
    let ghost hier0 = *hierarchy;
    if !node.is_set() {
        return ;
    }
    let systems = hierarchy.successor_list(node);
    if systems.len() != 1 {
        proof {
            if is_trivial_group(hier0.edges(), node) {
                let m = sole_member(hier0.edges(), node);
                assert(hier0.edges().contains((node, m)));
                assert(systems@.contains(m));
                if systems.len() > 1 {
                    assert(systems@.contains(systems@[0]));
                    assert(systems@.contains(systems@[1]));
                    assert(hier0.edges().contains((node, systems@[0])));
                    assert(hier0.edges().contains((node, systems@[1])));
                }
            }
        }
        return ;
    }
    let system_node = systems[0];
    proof {
        assert(systems@.contains(system_node));
        assert(hier0.edges().contains((node, system_node)));
        assert forall|x: NodeId| hier0.edges().contains((node, x)) implies x == system_node by {
            assert(systems@.contains(x));
        }
        assert(is_sole_member(hier0.edges(), node, system_node));
        assert(sole_member(hier0.edges(), node) == system_node);
        assert(hier0.has_node(system_node));
    }
    let incoming = dependencies.predecessor_list(node);
    let outgoing = dependencies.successor_list(node);
    let mut i: usize = 0;
    proof {
        lemma_among_all(incoming@);
        lemma_among_all(outgoing@);
    }
    while i < incoming.len()
        invariant
            i <= incoming.len(),
            dep0.well_formed(),
            forall|x: NodeId| incoming@.contains(x) <==> dep0.has_edge(x, node),
            dependencies.well_formed(),
            forall|x: NodeId, y: NodeId| #[trigger]
                dependencies.has_edge(x, y) <==> dep0.has_edge(x, y) || (y == system_node && among(
                    incoming@,
                    i as int,
                    x,
                )),
            dependencies.node_set() == if i > 0 {
                dep0.node_set().insert(system_node)
            } else {
                dep0.node_set()
            },
        decreases incoming.len() - i,
    {
        proof {
            lemma_among_step(incoming@, i as int);
            assert(incoming@.contains(incoming@[i as int]));
            assert(dep0.has_edge(incoming@[i as int], node));
            assert(dep0.has_node(incoming@[i as int]));
        }
        dependencies.add_edge(incoming[i], system_node);
        proof {
            assert(dependencies.node_set() =~= dep0.node_set().insert(system_node));
        }
        i += 1;
    }
    let mut j: usize = 0;
    while j < outgoing.len()
        invariant
            j <= outgoing.len(),
            i == incoming.len(),
            dep0.well_formed(),
            forall|y: NodeId| outgoing@.contains(y) <==> dep0.has_edge(node, y),
            dependencies.well_formed(),
            forall|x: NodeId, y: NodeId| #[trigger]
                dependencies.has_edge(x, y) <==> dep0.has_edge(x, y) || (y == system_node && among(
                    incoming@,
                    i as int,
                    x,
                )) || (x == system_node && among(outgoing@, j as int, y)),
            dependencies.node_set() == if i > 0 || j > 0 {
                dep0.node_set().insert(system_node)
            } else {
                dep0.node_set()
            },
        decreases outgoing.len() - j,
    {
        proof {
            lemma_among_step(outgoing@, j as int);
            assert(outgoing@.contains(outgoing@[j as int]));
            assert(dep0.has_edge(node, outgoing@[j as int]));
            assert(dep0.has_node(outgoing@[j as int]));
        }
        dependencies.add_edge(system_node, outgoing[j]);
        proof {
            assert(dependencies.node_set() =~= dep0.node_set().insert(system_node));
        }
        j += 1;
    }
    let ghost dep1 = *dependencies;
    dependencies.remove_node(node);
    hierarchy.remove_node(node);
    proof {
        let want = folded_dependencies(relation_of(&dep0), node, system_node);
        let got = relation_of(dependencies);
        assert(is_touched(dep0.edges(), node) <==> (i > 0 || j > 0)) by {
            if is_touched(dep0.edges(), node) {
                let x = choose|x: NodeId|
                    dep0.edges().contains((x, node)) || dep0.edges().contains((node, x));
                if dep0.edges().contains((x, node)) {
                    assert(incoming@.contains(x));
                } else {
                    assert(outgoing@.contains(x));
                }
            }
            if i > 0 {
                assert(incoming@.contains(incoming@[0]));
                assert(dep0.edges().contains((incoming@[0], node)));
            }
            if j > 0 {
                assert(outgoing@.contains(outgoing@[0]));
                assert(dep0.edges().contains((node, outgoing@[0])));
            }
        }
        assert(got.nodes =~= want.nodes);
        assert forall|e: (NodeId, NodeId)| got.edges.contains(e) <==> want.edges.contains(e) by {
            assert(dependencies.has_edge(e.0, e.1) <==> dep1.has_edge(e.0, e.1) && e.0 != node
                && e.1 != node);
            assert(among(incoming@, i as int, e.0) <==> incoming@.contains(e.0));
            assert(among(outgoing@, j as int, e.1) <==> outgoing@.contains(e.1));
            assert(dep0.edges().contains((e.0, node)) <==> dep0.has_edge(e.0, node));
            assert(dep0.edges().contains((node, e.1)) <==> dep0.has_edge(node, e.1));
        }
        assert(got.edges =~= want.edges);
        assert(got =~= want);
        let want_h = without_node(relation_of(&hier0), node);
        let got_h = relation_of(hierarchy);
        assert(got_h.nodes =~= want_h.nodes);
        assert forall|e: (NodeId, NodeId)| got_h.edges.contains(e) <==> want_h.edges.contains(
            e,
        ) by {
            assert(hierarchy.has_edge(e.0, e.1) <==> hier0.has_edge(e.0, e.1) && e.0 != node
                && e.1 != node);
        }
        assert(got_h.edges =~= want_h.edges);
        assert(got_h =~= want_h);
    }
}

/// Folds every group with exactly one member into that member: each
/// dependency edge that leads into such a group is led into the member,
/// each edge that comes out of it comes out of the member, and the group
/// leaves the dependencies and the hierarchy. The nodes of `topsort` are
/// looked at once each, in their order; other nodes stay as they are.
pub fn simplify_hierarchy(dependencies: &mut DiGraph, hierarchy: &mut DiGraph, topsort: &Vec<NodeId>)
    requires
        old(dependencies).well_formed(),
        old(hierarchy).well_formed(),
    ensures
        final(dependencies).well_formed(),
        final(hierarchy).well_formed(),
        relation_of(final(dependencies)) == simplified(
            relation_of(old(dependencies)),
            relation_of(old(hierarchy)),
            topsort@,
        ).0,
        relation_of(final(hierarchy)) == simplified(
            relation_of(old(dependencies)),
            relation_of(old(hierarchy)),
            topsort@,
        ).1,
        final(dependencies).node_set().subset_of(
            old(dependencies).node_set().union(old(hierarchy).node_set()),
        ),
        final(hierarchy).node_set().subset_of(old(hierarchy).node_set()),
{
    let ghost dep0 = relation_of(dependencies);
    let ghost hier0 = relation_of(hierarchy);
    let mut i: usize = 0;
    proof {
        assert(topsort@.take(0) =~= Seq::<NodeId>::empty());
    }
    while i < topsort.len()
        invariant
            i <= topsort.len(),
            dep0 == relation_of(old(dependencies)),
            hier0 == relation_of(old(hierarchy)),
            dependencies.well_formed(),
            hierarchy.well_formed(),
            relation_of(dependencies) == simplified(dep0, hier0, topsort@.take(i as int)).0,
            relation_of(hierarchy) == simplified(dep0, hier0, topsort@.take(i as int)).1,
            dependencies.node_set().subset_of(dep0.nodes.union(hier0.nodes)),
            hierarchy.node_set().subset_of(hier0.nodes),
        decreases topsort.len() - i,
    {
        proof {
            assert(topsort@.take(i + 1).drop_last() =~= topsort@.take(i as int));
            assert(topsort@.take(i + 1).last() == topsort@[i as int]);
        }
        fold_single_member(dependencies, hierarchy, topsort[i]);
        i += 1;
    }
    proof {
        assert(topsort@.take(i as int) =~= topsort@);
    }
}

} // verus!
