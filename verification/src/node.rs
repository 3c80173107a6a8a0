//! Identifiers of the nodes of a schedule.

use vstd::prelude::*;

verus! {

/// Names one node of a schedule: a system (a single task) or a system set
/// (a named group of systems).
#[derive(Clone, Copy, Debug, PartialEq, Eq, Structural, Hash, PartialOrd, Ord)]
pub enum NodeId {
    /// A system, by its number.
    System(usize),
    /// A system set, by its number.
    SystemSet(usize),
}

impl NodeId {
    /// The number inside the identifier.
    pub open spec fn spec_index(self) -> usize {
        match self {
            NodeId::System(i) => i,
            NodeId::SystemSet(i) => i,
        }
    }

    /// Whether the node is a system.
    pub fn is_system(&self) -> (r: bool)
        ensures
            r == (*self is System),
    {
        match self {
            NodeId::System(_) => true,
            NodeId::SystemSet(_) => false,
        }
    }

    /// Whether the node is a system set.
    pub fn is_set(&self) -> (r: bool)
        ensures
            r == (*self is SystemSet),
    {
        match self {
            NodeId::System(_) => false,
            NodeId::SystemSet(_) => true,
        }
    }

    /// The number inside the identifier.
    pub fn index(&self) -> (r: usize)
        ensures
            r == self.spec_index(),
    {
        match self {
            NodeId::System(i) => *i,
            NodeId::SystemSet(i) => *i,
        }
    }
}

/// A copy of `nodes`.
pub fn copy_nodes(nodes: &Vec<NodeId>) -> (r: Vec<NodeId>)
    ensures
        r@ == nodes@,
{
    let mut r: Vec<NodeId> = Vec::new();
    append_nodes(&mut r, nodes);
    r
}

/// Puts the nodes of `more` behind those of `nodes`, in their order.
pub fn append_nodes(nodes: &mut Vec<NodeId>, more: &Vec<NodeId>)
    ensures
        final(nodes)@ == old(nodes)@ + more@,
{
    let mut i: usize = 0;
    while i < more.len()
        invariant
            i <= more.len(),
            nodes@ == old(nodes)@ + more@.take(i as int),
        decreases more.len() - i,
    {
        nodes.push(more[i]);
        i += 1;
        assert(nodes@ =~= old(nodes)@ + more@.take(i as int));
    }
    assert(more@.take(i as int) =~= more@);
}

/// The nodes of `nodes` from the last to the first.
pub fn reversed_nodes(nodes: &Vec<NodeId>) -> (r: Vec<NodeId>)
    ensures
        r@ == nodes@.reverse(),
{
    let mut r: Vec<NodeId> = Vec::new();
    let n = nodes.len();
    let mut i: usize = 0;
    while i < n
        invariant
            i <= n,
            n == nodes.len(),
            r.len() == i,
            forall|k: int| 0 <= k < i ==> r[k] == nodes[n - 1 - k],
        decreases n - i,
    {
        r.push(nodes[n - 1 - i]);
        i += 1;
    }
    assert(r@ =~= nodes@.reverse());
    r
}

} // verus!
