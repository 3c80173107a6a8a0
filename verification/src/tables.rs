//! Hash tables keyed by node identifiers, kept in bevy's `HashMap` and
//! `HashSet`.

use bevy::utils::{HashMap, HashSet};
use vstd::prelude::*;

use crate::layer_graph::LayerNode;
use crate::node::NodeId;

verus! {

/// A number for each of some nodes, in a `bevy::utils::HashMap`.
#[verifier::external_body]
pub struct NodeNumbers {
    inner: HashMap<NodeId, usize>,
}

/// The nodes that a `NodeNumbers` has a number for, each with its number.
pub uninterp spec fn node_numbers(m: NodeNumbers) -> Map<NodeId, usize>;

/// `HashMap::new`: a table without entries.
#[verifier::external_body]
pub(crate) fn numbers_new() -> (m: NodeNumbers)
    ensures
        node_numbers(m) == (Map::<NodeId, usize>::empty()),
{
    NodeNumbers { inner: HashMap::new() }
}

/// `HashMap::with_capacity`: a table without entries. The crate panics
/// where room for `capacity` entries takes more bytes than an allocation
/// can have; a capacity whose square fits `usize` is far from that.
#[verifier::external_body]
pub(crate) fn numbers_with_capacity(capacity: usize) -> (m: NodeNumbers)
    requires
        capacity * capacity <= usize::MAX,
    ensures
        node_numbers(m) == (Map::<NodeId, usize>::empty()),
{
    NodeNumbers { inner: HashMap::with_capacity(capacity) }
}

/// `HashMap::insert`: gives `node` the number `number`, in place of the one
/// it had.
#[verifier::external_body]
pub(crate) fn numbers_insert(m: &mut NodeNumbers, node: NodeId, number: usize)
    ensures
        node_numbers(*final(m)) == node_numbers(*old(m)).insert(node, number),
{
    m.inner.insert(node, number);
}

/// `HashMap::get`: the number of `node`, where it has one.
#[verifier::external_body]
pub(crate) fn numbers_get(m: &NodeNumbers, node: NodeId) -> (r: Option<usize>)
    ensures
        r == if node_numbers(*m).dom().contains(node) {
            Some(node_numbers(*m)[node])
        } else {
            None
        },
{
    m.inner.get(&node).copied()
}

/// A set of pairs of nodes, in a `bevy::utils::HashSet`.
#[verifier::external_body]
pub struct PairSet {
    inner: HashSet<(NodeId, NodeId)>,
}

/// The pairs that a `PairSet` holds.
pub uninterp spec fn pair_set_items(s: PairSet) -> Set<(NodeId, NodeId)>;

/// `HashSet::new`: a set without items.
#[verifier::external_body]
pub(crate) fn pairs_new() -> (s: PairSet)
    ensures
        pair_set_items(s) == (Set::<(NodeId, NodeId)>::empty()),
{
    PairSet { inner: HashSet::new() }
}

/// `HashSet::insert`: adds the pair to the set.
#[verifier::external_body]
pub(crate) fn pairs_insert(s: &mut PairSet, a: NodeId, b: NodeId)
    ensures
        pair_set_items(*final(s)) == pair_set_items(*old(s)).insert((a, b)),
{
    s.inner.insert((a, b));
}

/// `HashSet::contains`: whether the set holds the pair.
#[verifier::external_body]
pub(crate) fn pairs_contains(s: &PairSet, a: NodeId, b: NodeId) -> (r: bool)
    ensures
        r == pair_set_items(*s).contains((a, b)),
{
    s.inner.contains(&(a, b))
}

impl PairSet {
    /// The pairs of the set.
    pub open spec fn items(&self) -> Set<(NodeId, NodeId)> {
        pair_set_items(*self)
    }

    /// Whether the set holds the pair of `a` and `b`, in this order.
    pub fn contains(&self, a: NodeId, b: NodeId) -> (r: bool)
        ensures
            r == self.items().contains((a, b)),
    {
        pairs_contains(self, a, b)
    }
}

/// A name for each of some nodes, in a `bevy::utils::HashMap`.
#[verifier::external_body]
#[derive(Debug)]
pub struct NameTable {
    inner: HashMap<NodeId, String>,
}

/// The nodes that a `NameTable` has a name for, each with its name.
pub uninterp spec fn name_table_entries(t: NameTable) -> Map<NodeId, Seq<char>>;

/// `HashMap::new`: a table without entries.
#[verifier::external_body]
pub(crate) fn names_new() -> (t: NameTable)
    ensures
        name_table_entries(t) == (Map::<NodeId, Seq<char>>::empty()),
{
    NameTable { inner: HashMap::new() }
}

/// `HashMap::insert`: gives `node` the name `name`, in place of the one it
/// had.
#[verifier::external_body]
pub(crate) fn names_insert(t: &mut NameTable, node: NodeId, name: String)
    ensures
        name_table_entries(*final(t)) == name_table_entries(*old(t)).insert(node, name@),
{
    t.inner.insert(node, name);
}

/// `HashMap::get`: the name of `node`, where it has one.
#[verifier::external_body]
pub(crate) fn names_get<'a>(t: &'a NameTable, node: NodeId) -> (r: Option<&'a String>)
    ensures
        r is Some <==> name_table_entries(*t).dom().contains(node),
        r is Some ==> r->0@ == name_table_entries(*t)[node],
{
    t.inner.get(&node)
}

/// `HashMap::iter`: every entry of the table once, in an order that is
/// left open.
#[verifier::external_body]
pub(crate) fn names_list(t: &NameTable) -> (r: Vec<(NodeId, String)>)
    ensures
        forall|i: int|
            0 <= i < r@.len() ==> name_table_entries(*t).dom().contains((#[trigger] r@[i]).0)
                && name_table_entries(*t)[r@[i].0] == r@[i].1@,
        forall|n: NodeId|
            name_table_entries(*t).dom().contains(n) ==> exists|i: int|
                0 <= i < r@.len() && (#[trigger] r@[i]).0 == n,
        forall|i: int, j: int|
            0 <= i < j < r@.len() ==> (#[trigger] r@[i]).0 != (#[trigger] r@[j]).0,
{
    t.inner.iter().map(|(node, name)| (*node, name.clone())).collect()
}

impl NameTable {
    /// The names of the table by node.
    pub open spec fn entries(&self) -> Map<NodeId, Seq<char>> {
        name_table_entries(*self)
    }

    /// A table without names.
    pub fn new() -> (t: NameTable)
        ensures
            t.entries() == Map::<NodeId, Seq<char>>::empty(),
    {
        names_new()
    }

    /// Gives `node` the name `name`, in place of the one it had.
    pub fn insert(&mut self, node: NodeId, name: String)
        ensures
            final(self).entries() == old(self).entries().insert(node, name@),
    {
        names_insert(self, node, name)
    }

    /// The name of `node`, where it has one.
    pub fn get(&self, node: NodeId) -> (r: Option<String>)
        ensures
            r is Some <==> self.entries().dom().contains(node),
            r is Some ==> r->0@ == self.entries()[node],
    {
        match names_get(self, node) {
            Some(name) => Some(name.clone()),
            None => None,
        }
    }
}

/// The node of a layer graph for each of some identifiers, in a
/// `bevy::utils::HashMap`.
#[verifier::external_body]
#[derive(Debug)]
pub struct NodeTable {
    inner: HashMap<NodeId, LayerNode>,
}

/// The identifiers that a `NodeTable` has a node for, each with its node.
pub uninterp spec fn node_table_entries(t: NodeTable) -> Map<NodeId, LayerNode>;

/// `HashMap::new`: a table without entries.
#[verifier::external_body]
pub(crate) fn nodes_new() -> (t: NodeTable)
    ensures
        node_table_entries(t) == (Map::<NodeId, LayerNode>::empty()),
{
    NodeTable { inner: HashMap::new() }
}

/// `HashMap::insert`: puts `node` under `id`, in place of what was there.
#[verifier::external_body]
pub(crate) fn nodes_insert(t: &mut NodeTable, id: NodeId, node: LayerNode)
    ensures
        node_table_entries(*final(t)) == node_table_entries(*old(t)).insert(id, node),
{
    t.inner.insert(id, node);
}

/// `HashMap::get`: the node under `id`, where there is one.
#[verifier::external_body]
pub(crate) fn nodes_get<'a>(t: &'a NodeTable, id: NodeId) -> (r: Option<&'a LayerNode>)
    ensures
        r is Some <==> node_table_entries(*t).dom().contains(id),
        r is Some ==> *r->0 == node_table_entries(*t)[id],
{
    t.inner.get(&id)
}

/// A list of nodes for each of some identifiers, in a
/// `bevy::utils::HashMap`.
#[verifier::external_body]
#[derive(Debug)]
pub struct EdgeTable {
    inner: HashMap<NodeId, Vec<NodeId>>,
}

/// The identifiers that an `EdgeTable` has a list for, each with its list.
pub uninterp spec fn edge_table_entries(t: EdgeTable) -> Map<NodeId, Seq<NodeId>>;

/// `HashMap::new`: a table without entries.
#[verifier::external_body]
pub(crate) fn edges_new() -> (t: EdgeTable)
    ensures
        edge_table_entries(t) == (Map::<NodeId, Seq<NodeId>>::empty()),
{
    EdgeTable { inner: HashMap::new() }
}

/// `HashMap::insert`: puts `targets` under `id`, in place of what was
/// there.
#[verifier::external_body]
pub(crate) fn edges_insert(t: &mut EdgeTable, id: NodeId, targets: Vec<NodeId>)
    ensures
        edge_table_entries(*final(t)) == edge_table_entries(*old(t)).insert(id, targets@),
{
    t.inner.insert(id, targets);
}

/// `HashMap::get`: the list under `id`, where there is one.
#[verifier::external_body]
pub(crate) fn edges_get<'a>(t: &'a EdgeTable, id: NodeId) -> (r: Option<&'a Vec<NodeId>>)
    ensures
        r is Some <==> edge_table_entries(*t).dom().contains(id),
        r is Some ==> r->0@ == edge_table_entries(*t)[id],
{
    t.inner.get(&id)
}

} // verus!
