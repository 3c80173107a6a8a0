//! The layered graph that the analysis hands to whoever draws it.

use vstd::prelude::*;

use crate::node::{copy_nodes, NodeId};
use crate::tables::{
    edge_table_entries, edges_get, edges_insert, edges_new, node_table_entries, nodes_get,
    nodes_insert, nodes_new, EdgeTable, NodeTable,
};

verus! {

/// What a layer graph knows of one node.
#[derive(Debug)]
pub enum LayerNode {
    /// A system, with its label.
    System(String),
    /// A system set, with its label and the layer graph of what it holds.
    SystemSet(String, LayerGraph),
}

impl LayerNode {
    /// The label of the node.
    pub open spec fn label(self) -> Seq<char> {
        match self {
            LayerNode::System(name) => name@,
            LayerNode::SystemSet(name, _) => name@,
        }
    }
}

/// Layers of nodes, each node with its label and the nodes that its edges
/// lead to.
#[derive(Debug)]
pub struct LayerGraph {
    /// What the graph knows of each node.
    pub nodes: NodeTable,
    /// The layers from the first to the last, each a list of nodes.
    pub layers: Vec<Vec<NodeId>>,
    /// The targets of the edges of each node.
    pub edges: EdgeTable,
}

impl LayerGraph {
    /// What the graph knows of its nodes, by identifier.
    pub open spec fn nodes(&self) -> Map<NodeId, LayerNode> {
        node_table_entries(self.nodes)
    }

    /// The targets of the edges of each node, by identifier.
    pub open spec fn edges(&self) -> Map<NodeId, Seq<NodeId>> {
        edge_table_entries(self.edges)
    }

    /// Puts `node` under `node_id`, in place of what was there.
    pub fn add_node(&mut self, node_id: NodeId, node: LayerNode)
        ensures
            final(self).nodes() == old(self).nodes().insert(node_id, node),
            final(self).edges() == old(self).edges(),
            final(self).layers == old(self).layers,
    {
        nodes_insert(&mut self.nodes, node_id, node);
    }

    /// Makes `edges` the targets of the edges of `node_id`.
    pub fn add_edges(&mut self, node_id: NodeId, edges: Vec<NodeId>)
        ensures
            final(self).edges() == old(self).edges().insert(node_id, edges@),
            final(self).nodes() == old(self).nodes(),
            final(self).layers == old(self).layers,
    {
        edges_insert(&mut self.edges, node_id, edges);
    }

    /// The label of the node `node_id`, which the graph must know.
    pub fn node_name(&self, node_id: &NodeId) -> (name: String)
        requires
            self.nodes().dom().contains(*node_id),
        ensures
            name@ == self.nodes()[*node_id].label(),
    {
        match nodes_get(&self.nodes, *node_id).unwrap() {
            LayerNode::System(name) => name.clone(),
            LayerNode::SystemSet(name, _graph) => name.clone(),
        }
    }

    /// The targets of the edges of `node_id`, where the graph has them.
    pub fn node_edges(&self, node_id: &NodeId) -> (targets: Option<Vec<NodeId>>)
        ensures
            targets is Some <==> self.edges().dom().contains(*node_id),
            targets is Some ==> targets->0@ == self.edges()[*node_id],
    {
        match edges_get(&self.edges, *node_id) {
            Some(targets) => Some(copy_nodes(targets)),
            None => None,
        }
    }

    /// What the graph knows of the node `node_id`, where it knows it.
    pub fn node(&self, node_id: &NodeId) -> (node: Option<&LayerNode>)
        ensures
            node is Some <==> self.nodes().dom().contains(*node_id),
            node is Some ==> *node->0 == self.nodes()[*node_id],
    {
        nodes_get(&self.nodes, *node_id)
    }
}

impl Default for LayerGraph {
    /// A graph without layers, nodes and edges.
    fn default() -> (g: Self)
        ensures
            g.nodes() == Map::<NodeId, LayerNode>::empty(),
            g.edges() == Map::<NodeId, Seq<NodeId>>::empty(),
            g.layers@.len() == 0,
    {
        LayerGraph { nodes: nodes_new(), layers: Vec::new(), edges: edges_new() }
    }
}

} // verus!
