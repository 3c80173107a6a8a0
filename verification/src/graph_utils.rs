//! Topological order with cycle detection, and the reachability analysis of
//! an ordered graph.

use fixedbitset::FixedBitSet;
use vstd::prelude::*;

use crate::bits::{
    bitset_bits, bitset_clear, bitset_contains, bitset_insert, bitset_new, bitset_with_capacity,
};
use crate::digraph::{is_component_order, views, DiGraph};
use crate::node::{append_nodes, copy_nodes, reversed_nodes, NodeId};
use crate::order::{
    lemma_push_has, lemma_strictly_below_is_below, among, lemma_among_all, lemma_among_step, lemma_climbs_push, below, climbs, follows_order, lemma_below_all, lemma_below_skip, lemma_below_step, lemma_rank,
    lemma_rank_of_member, lemma_reaches_later, lemma_redundant_edge, lists_successors, mirrors,
    rank, strictly_below,
};
use crate::reach::{
    is_acyclic, is_redundant, lemma_first_step, lemma_last_step, lemma_reaches_transitive,
    mutually_reachable, reaches,
};
use crate::tables::{
    node_numbers, numbers_get, numbers_insert, numbers_with_capacity, pairs_insert, pairs_new,
    NodeNumbers, PairSet,
};

verus! {

/// Why a graph could not be analysed.
#[derive(Debug)]
pub enum GraphError {
    /// The graph has cycles. The value lists each strongly connected
    /// component of more than one node.
    CycleDetected(Vec<Vec<NodeId>>),
}

/// `order` lists each node of `graph` once and nothing else.
pub open spec fn lists_nodes_once(graph: &DiGraph, order: Seq<NodeId>) -> bool {
    &&& order.no_duplicates()
    &&& forall|n: NodeId| order.contains(n) <==> graph.has_node(n)
}

/// Every edge between two places of `order` leads to a later place.
pub open spec fn edges_lead_forward(edges: Set<(NodeId, NodeId)>, order: Seq<NodeId>) -> bool {
    forall|i: int, j: int|
        0 <= i < order.len() && 0 <= j < order.len() && edges.contains(
            (#[trigger] order[i], #[trigger] order[j]),
        ) ==> i < j
}

/// Every edge between two different nodes of `order` leads to a later place.
pub open spec fn edges_lead_onward(edges: Set<(NodeId, NodeId)>, order: Seq<NodeId>) -> bool {
    forall|i: int, j: int|
        0 <= i < order.len() && 0 <= j < order.len() && i != j && edges.contains(
            (#[trigger] order[i], #[trigger] order[j]),
        ) ==> i < j
}

/// `order` is a topological order of `graph`: it lists each node once, and
/// every edge leads from a node to one that stands later.
pub open spec fn is_topological_order(graph: &DiGraph, order: Seq<NodeId>) -> bool {
    &&& lists_nodes_once(graph, order)
    &&& edges_lead_forward(graph.edges(), order)
}

/// `a` and `b` are two nodes on one cycle.
pub open spec fn on_one_cycle(edges: Set<(NodeId, NodeId)>, a: NodeId, b: NodeId) -> bool {
    a != b && reaches(edges, a, b) && reaches(edges, b, a)
}

/// Some cycle of the graph runs through more than one node.
pub open spec fn has_long_cycle(edges: Set<(NodeId, NodeId)>) -> bool {
    exists|a: NodeId, b: NodeId| on_one_cycle(edges, a, b)
}

/// The components of more than one node, in their order.
pub open spec fn cycle_groups(comps: Seq<Seq<NodeId>>) -> Seq<Seq<NodeId>> {
    comps.filter(|c: Seq<NodeId>| c.len() > 1)
}

/// The components that `order_components` turns into an order: none has
/// more than one node.
pub open spec fn all_single(comps: Seq<Seq<NodeId>>) -> bool {
    forall|i: int| 0 <= i < comps.len() ==> (#[trigger] comps[i]).len() <= 1
}

/// Turns strongly connected components, listed in reverse topological
/// order, into a topological order: where no component has more than one
/// node, the nodes of all components from the last component to the first.
/// Otherwise the components of more than one node are the error.
pub fn order_components(comps: &Vec<Vec<NodeId>>) -> (r: Result<Vec<NodeId>, GraphError>)
    ensures
        r is Ok <==> all_single(views(comps@)),
        match r {
            Ok(order) => order@ == views(comps@).flatten().reverse(),
            Err(GraphError::CycleDetected(groups)) => views(groups@) == cycle_groups(
                views(comps@),
            ),
        },
{
    let ghost all = views(comps@);
    let mut sorted: Vec<NodeId> = Vec::new();
    let mut groups: Vec<Vec<NodeId>> = Vec::new();
    let mut i: usize = 0;
    proof {
        reveal(Seq::filter);
        assert(all.take(0) =~= Seq::<Seq<NodeId>>::empty());
        assert(views(groups@) =~= cycle_groups(all.take(0)));
    }
    while i < comps.len()
        invariant
            i <= comps.len(),
            all == views(comps@),
            sorted@ == all.take(i as int).flatten(),
            views(groups@) == cycle_groups(all.take(i as int)),
            groups@.len() == 0 <==> all_single(all.take(i as int)),
        decreases comps.len() - i,
    {
        let ghost before = all.take(i as int);
        let ghost now = all.take(i + 1);
        let ghost old_groups = views(groups@);
        proof {
            reveal(Seq::filter);
            assert(now.drop_last() =~= before);
            assert(now.last() == comps@[i as int]@);
            assert(now =~= before.push(comps@[i as int]@));
            before.lemma_flatten_push(comps@[i as int]@);
        }
        if comps[i].len() > 1 {
            groups.push(copy_nodes(&comps[i]));
            proof {
                assert(views(groups@) =~= old_groups.push(comps@[i as int]@));
                assert(now[i as int].len() > 1);
            }
        } else {
            proof {
                assert(views(groups@) =~= old_groups);
                if all_single(before) {
                    assert forall|k: int| 0 <= k < now.len() implies (#[trigger] now[k]).len()
                        <= 1 by {
                        if k < i {
                            assert(now[k] == before[k]);
                        }
                    }
                } else {
                    let k = choose|k: int| 0 <= k < before.len() && (#[trigger] before[k]).len() > 1;
                    assert(now[k] == before[k]);
                }
            }
        }
        append_nodes(&mut sorted, &comps[i]);
        i += 1;
    }
    proof {
        assert(all.take(i as int) =~= all);
    }
    if groups.len() == 0 {
        Ok(reversed_nodes(&sorted))
    } else {
        Err(GraphError::CycleDetected(groups))
    }
}

/// The flattened list of components of one node each holds the node of the
/// `i`-th component at its `i`-th place.
pub proof fn lemma_flatten_single(comps: Seq<Seq<NodeId>>)
    requires
        forall|i: int| 0 <= i < comps.len() ==> (#[trigger] comps[i]).len() == 1,
    ensures
        comps.flatten().len() == comps.len(),
        forall|i: int| 0 <= i < comps.len() ==> comps.flatten()[i] == (#[trigger] comps[i])[0],
    decreases comps.len(),
{
    if comps.len() == 0 {
        assert(comps.flatten() =~= Seq::<NodeId>::empty());
    } else {
        let front = comps.drop_last();
        assert forall|i: int| 0 <= i < front.len() implies (#[trigger] front[i]).len() == 1 by {
            assert(front[i] == comps[i]);
        }
        lemma_flatten_single(front);
        assert(comps =~= front.push(comps.last()));
        front.lemma_flatten_push(comps.last());
        assert forall|i: int| 0 <= i < comps.len() implies comps.flatten()[i] == (
        #[trigger] comps[i])[0] by {
            if i < front.len() {
                assert(front[i] == comps[i]);
            }
        }
    }
}

/// A node that reaches another or is reached by one is a node of the graph.
pub proof fn lemma_reaches_between_nodes(graph: &DiGraph, a: NodeId, b: NodeId)
    requires
        graph.well_formed(),
        reaches(graph.edges(), a, b),
    ensures
        graph.has_node(a),
        graph.has_node(b),
{
    let x = lemma_first_step(graph.edges(), a, b);
    assert(graph.has_edge(a, x));
    let y = lemma_last_step(graph.edges(), a, b);
    assert(graph.has_edge(y, b));
}

/// Components of one node each, read from the last to the first, are an
/// order of the nodes in which every edge between two nodes leads onward.
pub proof fn lemma_single_components_order(graph: &DiGraph, comps: Seq<Seq<NodeId>>)
    requires
        graph.well_formed(),
        is_component_order(graph.nodes(), graph.edges(), comps),
        all_single(comps),
    ensures
        lists_nodes_once(graph, comps.flatten().reverse()),
        edges_lead_onward(graph.edges(), comps.flatten().reverse()),
        !has_long_cycle(graph.edges()),
{
    let flat = comps.flatten();
    let order = flat.reverse();
    let n = comps.len() as int;
    assert forall|i: int| 0 <= i < comps.len() implies (#[trigger] comps[i]).len() == 1 by {}
    lemma_flatten_single(comps);
    assert forall|i: int| 0 <= i < n implies #[trigger] order[i] == comps[n - 1 - i][0] by {}
    assert forall|i: int, j: int| 0 <= i < order.len() && 0 <= j < order.len() && i != j implies order[i]
        != order[j] by {
        assert(order[i] == comps[n - 1 - i][0]);
        assert(order[j] == comps[n - 1 - j][0]);
    }
    assert forall|x: NodeId| order.contains(x) <==> graph.has_node(x) by {
        if order.contains(x) {
            let i = choose|i: int| 0 <= i < order.len() && order[i] == x;
            assert(order[i] == comps[n - 1 - i][0]);
        }
        if graph.has_node(x) {
            let (i, j) = choose|i: int, j: int|
                0 <= i < comps.len() && 0 <= j < comps[i].len() && #[trigger] comps[i][j] == x;
            assert(order[n - 1 - i] == comps[i][0]);
        }
    }
    assert forall|i: int, j: int|
        0 <= i < order.len() && 0 <= j < order.len() && i != j && graph.edges().contains(
            (#[trigger] order[i], #[trigger] order[j]),
        ) implies i < j by {
        assert(order[i] == comps[n - 1 - i][0]);
        assert(order[j] == comps[n - 1 - j][0]);
    }
    if has_long_cycle(graph.edges()) {
        let (a, b) = choose|a: NodeId, b: NodeId| on_one_cycle(graph.edges(), a, b);
        lemma_reaches_between_nodes(graph, a, b);
        let (i, j) = choose|i: int, j: int|
            0 <= i < comps.len() && 0 <= j < comps[i].len() && #[trigger] comps[i][j] == a;
        let (k, l) = choose|k: int, l: int|
            0 <= k < comps.len() && 0 <= l < comps[k].len() && #[trigger] comps[k][l] == b;
        assert(mutually_reachable(graph.edges(), comps[i][j], comps[k][l]));
        assert(i == k);
    }
}

/// A component of more than one node lies on a cycle, and every node on a
/// cycle through another node stands in such a component.
pub proof fn lemma_cycle_groups(graph: &DiGraph, comps: Seq<Seq<NodeId>>)
    requires
        graph.well_formed(),
        is_component_order(graph.nodes(), graph.edges(), comps),
    ensures
        !all_single(comps) ==> has_long_cycle(graph.edges()),
        forall|g: int| 0 <= g < cycle_groups(comps).len() ==> (#[trigger] cycle_groups(comps)[g]).len() > 1,
        forall|g: int| 0 <= g < cycle_groups(comps).len() ==> (#[trigger] cycle_groups(comps)[g]).no_duplicates(),
        forall|g: int, i: int, j: int|
            0 <= g < cycle_groups(comps).len() && 0 <= i < cycle_groups(comps)[g].len() && 0 <= j
                < cycle_groups(comps)[g].len() ==> mutually_reachable(
                graph.edges(),
                #[trigger] cycle_groups(comps)[g][i],
                #[trigger] cycle_groups(comps)[g][j],
            ),
        forall|a: NodeId, b: NodeId|
            on_one_cycle(graph.edges(), a, b) ==> exists|g: int, i: int|
                0 <= g < cycle_groups(comps).len() && 0 <= i < cycle_groups(comps)[g].len()
                    && #[trigger] cycle_groups(comps)[g][i] == a,
{
    let pred = |c: Seq<NodeId>| c.len() > 1;
    let groups = cycle_groups(comps);
    let edges = graph.edges();
    broadcast use vstd::seq_lib::group_filter_ensures;

    if !all_single(comps) {
        let k = choose|k: int| 0 <= k < comps.len() && (#[trigger] comps[k]).len() > 1;
        assert(mutually_reachable(edges, comps[k][0], comps[k][1]));
        assert(on_one_cycle(edges, comps[k][0], comps[k][1]));
    }
    assert forall|g: int| 0 <= g < groups.len() implies (#[trigger] groups[g]).len() > 1 by {
        assert(pred(groups[g]));
    }
    assert forall|g: int| 0 <= g < groups.len() implies (#[trigger] groups[g]).no_duplicates() by {
        assert(groups.contains(groups[g]));
        comps.lemma_filter_contains_rev(pred, groups[g]);
        let k = choose|k: int| 0 <= k < comps.len() && comps[k] == groups[g];
        assert forall|i: int, j: int|
            0 <= i < groups[g].len() && 0 <= j < groups[g].len() && i != j implies groups[g][i]
            != groups[g][j] by {
            if comps[k][i] == comps[k][j] {
                assert(i == j);
            }
        }
    }
    assert forall|g: int, i: int, j: int|
        0 <= g < groups.len() && 0 <= i < groups[g].len() && 0 <= j
            < groups[g].len() implies mutually_reachable(
        edges,
        #[trigger] groups[g][i],
        #[trigger] groups[g][j],
    ) by {
        assert(groups.contains(groups[g]));
        comps.lemma_filter_contains_rev(pred, groups[g]);
        let k = choose|k: int| 0 <= k < comps.len() && comps[k] == groups[g];
        assert(mutually_reachable(edges, comps[k][i], comps[k][j]));
    }
    assert forall|a: NodeId, b: NodeId| on_one_cycle(edges, a, b) implies exists|g: int, i: int|
        0 <= g < groups.len() && 0 <= i < groups[g].len() && #[trigger] groups[g][i] == a by {
        lemma_reaches_between_nodes(graph, a, b);
        let (i, j) = choose|i: int, j: int|
            0 <= i < comps.len() && 0 <= j < comps[i].len() && #[trigger] comps[i][j] == a;
        let (k, l) = choose|k: int, l: int|
            0 <= k < comps.len() && 0 <= l < comps[k].len() && #[trigger] comps[k][l] == b;
        assert(mutually_reachable(edges, comps[i][j], comps[k][l]));
        assert(i == k);
        assert(j != l);
        assert(pred(comps[i]));
        assert(groups.contains(comps[i]));
        let g = choose|g: int| 0 <= g < groups.len() && groups[g] == comps[i];
        assert(groups[g][j] == a);
    }
}

/// A graph without cycles has no edge from a node to itself and no cycle
/// through two nodes.
pub proof fn lemma_acyclic_has_no_cycle(edges: Set<(NodeId, NodeId)>)
    requires
        is_acyclic(edges),
    ensures
        !has_long_cycle(edges),
        forall|a: NodeId| !edges.contains((a, a)),
{
    if has_long_cycle(edges) {
        let (a, b) = choose|a: NodeId, b: NodeId| on_one_cycle(edges, a, b);
        lemma_reaches_transitive(edges, a, b, a);
    }
    assert forall|a: NodeId| !edges.contains((a, a)) by {
        if edges.contains((a, a)) {
            crate::reach::lemma_edge_reaches(edges, a, a);
        }
    }
}

/// A topological order of the graph, or the cycles that stand in its way.
///
/// The strongly connected components come from the graph's search, in
/// reverse topological order. Where each has one node they are read from
/// the last to the first. A component of more than one node is a cycle: the
/// error lists all such components. An edge from a node to itself is no
/// such component and does not stop the sort.
pub fn topsort_graph(graph: &DiGraph) -> (r: Result<Vec<NodeId>, GraphError>)
    requires
        graph.well_formed(),
    ensures
        r is Err <==> has_long_cycle(graph.edges()),
        match r {
            Ok(order) => {
                &&& order@ == graph.components().flatten().reverse()
                &&& lists_nodes_once(graph, order@)
                &&& edges_lead_onward(graph.edges(), order@)
            },
            Err(GraphError::CycleDetected(groups)) => {
                &&& views(groups@) == cycle_groups(graph.components())
                &&& forall|g: int| 0 <= g < groups@.len() ==> (#[trigger] groups@[g])@.len() > 1
                &&& forall|g: int| 0 <= g < groups@.len() ==> (#[trigger] groups@[g])@.no_duplicates()
                &&& forall|g: int, i: int, j: int|
                    0 <= g < groups@.len() && 0 <= i < groups@[g]@.len() && 0 <= j
                        < groups@[g]@.len() ==> mutually_reachable(
                        graph.edges(),
                        #[trigger] groups@[g]@[i],
                        #[trigger] groups@[g]@[j],
                    )
                &&& forall|a: NodeId, b: NodeId|
                    on_one_cycle(graph.edges(), a, b) ==> exists|g: int, i: int|
                        0 <= g < groups@.len() && 0 <= i < groups@[g]@.len()
                            && #[trigger] groups@[g]@[i] == a
            },
        },
        is_acyclic(graph.edges()) ==> r is Ok && is_topological_order(graph, r->Ok_0@),
{
    let comps = graph.component_list();
    let r = order_components(&comps);
    proof {
        let all = views(comps@);
        lemma_cycle_groups(graph, all);
        if all_single(all) {
            lemma_single_components_order(graph, all);
        }
        if is_acyclic(graph.edges()) {
            lemma_acyclic_has_no_cycle(graph.edges());
        }
        if r is Err {
            {
                let groups = r->Err_0->0;
                let gs = views(groups@);
                assert forall|g: int| 0 <= g < groups@.len() implies (#[trigger] groups@[g])@.len()
                    > 1 by {
                    assert(gs[g] == groups@[g]@);
                }
                assert forall|g: int| 0 <= g < groups@.len() implies (
                #[trigger] groups@[g])@.no_duplicates() by {
                    assert(gs[g] == groups@[g]@);
                    assert(gs[g].no_duplicates());
                }
                assert forall|g: int, i: int, j: int|
                    0 <= g < groups@.len() && 0 <= i < groups@[g]@.len() && 0 <= j
                        < groups@[g]@.len() implies mutually_reachable(
                    graph.edges(),
                    #[trigger] groups@[g]@[i],
                    #[trigger] groups@[g]@[j],
                ) by {
                    assert(gs[g] == groups@[g]@);
                    assert(mutually_reachable(graph.edges(), gs[g][i], gs[g][j]));
                }
                assert forall|a: NodeId, b: NodeId|
                    on_one_cycle(graph.edges(), a, b) implies exists|g: int, i: int|
                    0 <= g < groups@.len() && 0 <= i < groups@[g]@.len()
                        && #[trigger] groups@[g]@[i] == a by {
                    let (g, i) = choose|g: int, i: int|
                        0 <= g < gs.len() && 0 <= i < gs[g].len() && #[trigger] gs[g][i] == a;
                    assert(gs[g] == groups@[g]@);
                    assert(groups@[g]@[i] == a);
                }
            }
        }
    }
    r
}

/// The place of the bit for row `row` and column `col` in a matrix of
/// `num_cols` columns that is stored row by row.
pub open spec fn cell(row: int, col: int, num_cols: int) -> int {
    row * num_cols + col
}

/// The bit for row `i` and column `j` of a square matrix of `n` rows.
pub open spec fn bit_at(bits: Seq<bool>, i: int, j: int, n: int) -> bool {
    bits[cell(i, j, n)]
}

/// The cells of a square matrix lie inside it.
pub proof fn lemma_cell_bounds(i: int, j: int, n: int)
    requires
        0 <= i < n,
        0 <= j < n,
    ensures
        0 <= i * n <= cell(i, j, n) < n * n,
        cell(i, j, n) < (i + 1) * n,
        (i + 1) * n == i * n + n,
{
    assert(0 <= i * n && i * n + n <= n * n && (i + 1) * n == i * n + n) by (nonlinear_arith)
        requires
            0 <= i < n,
    ;
}

/// Two cells at one place are one cell.
pub proof fn lemma_cell_injective(i: int, j: int, k: int, l: int, n: int)
    requires
        0 <= j < n,
        0 <= l < n,
        cell(i, j, n) == cell(k, l, n),
    ensures
        i == k,
        j == l,
{
    assert(i == k) by (nonlinear_arith)
        requires
            i * n + j == k * n + l,
            0 <= j < n,
            0 <= l < n,
    ;
}

/// The place of a cell gives back its row and column.
pub proof fn lemma_cell_row_col(i: int, j: int, n: int)
    requires
        0 <= i,
        0 <= j < n,
    ensures
        cell(i, j, n) / n == i,
        cell(i, j, n) % n == j,
{
    vstd::arithmetic::div_mod::lemma_fundamental_div_mod_converse(cell(i, j, n), n, i, j);
}

/// The place of the bit for `row` and `col` in a matrix of `num_cols`
/// columns.
pub fn index(row: usize, col: usize, num_cols: usize) -> (r: usize)
    requires
        col < num_cols,
        row * num_cols + col <= usize::MAX,
    ensures
        r == cell(row as int, col as int, num_cols as int),
{
    assert(0 <= row * num_cols) by (nonlinear_arith)
        requires
            0 <= row,
            0 <= num_cols,
    ;
    (row * num_cols) + col
}

/// The row and the column of the bit at place `index` in a matrix of
/// `num_cols` columns.
pub fn row_col(index: usize, num_cols: usize) -> (r: (usize, usize))
    requires
        num_cols > 0,
    ensures
        r.0 == index as int / num_cols as int,
        r.1 == index as int % num_cols as int,
{
    (index / num_cols, index % num_cols)
}

/// `m` gives each node of `order` its place.
pub open spec fn numbered(m: Map<NodeId, usize>, order: Seq<NodeId>) -> bool {
    forall|i: int|
        0 <= i < order.len() ==> m.dom().contains(#[trigger] order[i]) && m[order[i]] == i
}

/// In the graph the pair's first node stands before the second and does
/// not reach it.
pub open spec fn is_disconnected_pair(
    edges: Set<(NodeId, NodeId)>,
    order: Seq<NodeId>,
    p: (NodeId, NodeId),
) -> bool {
    &&& order.contains(p.0)
    &&& order.contains(p.1)
    &&& rank(order, p.0) < rank(order, p.1)
    &&& !reaches(edges, p.0, p.1)
}

/// The pair `p` is met before the pair `q` when the pairs are walked row by
/// row: by the first node's place, then by the second's.
pub open spec fn pair_before(order: Seq<NodeId>, p: (NodeId, NodeId), q: (NodeId, NodeId)) -> bool {
    rank(order, p.0) < rank(order, q.0) || (p.0 == q.0 && rank(order, p.1) < rank(order, q.1))
}

/// The edge `p` is met before the edge `q` when the nodes are walked from
/// the last to the first and the successors of each from the first to the
/// last.
pub open spec fn edge_before(order: Seq<NodeId>, p: (NodeId, NodeId), q: (NodeId, NodeId)) -> bool {
    rank(order, p.0) > rank(order, q.0) || (p.0 == q.0 && rank(order, p.1) < rank(order, q.1))
}

/// What the analysis of a graph found.
pub struct CheckGraphResults {
    /// The reachability matrix, row by row: the bit for a row and a column
    /// is set where the row's node reaches the column's node.
    pub reachable: FixedBitSet,
    /// The pairs of nodes with a path from the first to the second.
    pub connected: PairSet,
    /// The pairs of nodes, the earlier node first, without a path between
    /// them.
    pub disconnected: Vec<(NodeId, NodeId)>,
    /// The edges that are redundant because a longer path exists.
    pub transitive_edges: Vec<(NodeId, NodeId)>,
    /// The graph without its redundant edges.
    pub transitive_reduction: DiGraph,
    /// The graph with an edge for every path.
    pub transitive_closure: DiGraph,
}

impl CheckGraphResults {
    /// The results are those of the graph with the edges `edges` whose
    /// nodes stand in the topological order `order`.
    pub open spec fn describes(&self, edges: Set<(NodeId, NodeId)>, order: Seq<NodeId>) -> bool {
        let n = order.len() as int;
        let bits = bitset_bits(self.reachable);
        let apart = self.disconnected@;
        let extra = self.transitive_edges@;
        &&& bits.len() == n * n
        &&& forall|i: int, j: int|
            0 <= i < n && 0 <= j < n ==> (#[trigger] bit_at(bits, i, j, n) <==> reaches(
                edges,
                order[i],
                order[j],
            ))
        &&& forall|a: NodeId, b: NodeId| #[trigger]
            self.connected.items().contains((a, b)) <==> reaches(edges, a, b)
        &&& forall|t: int| 0 <= t < apart.len() ==> is_disconnected_pair(edges, order, #[trigger] apart[t])
        &&& forall|p: (NodeId, NodeId)| #[trigger]
            is_disconnected_pair(edges, order, p) ==> apart.contains(p)
        &&& forall|t: int, u: int|
            0 <= t < u < apart.len() ==> pair_before(order, #[trigger] apart[t], #[trigger] apart[u])
        &&& forall|t: int| 0 <= t < extra.len() ==> is_redundant(edges, (#[trigger] extra[t]).0, extra[t].1)
        &&& forall|a: NodeId, b: NodeId| #[trigger]
            is_redundant(edges, a, b) ==> extra.contains((a, b))
        &&& forall|t: int, u: int|
            0 <= t < u < extra.len() ==> edge_before(order, #[trigger] extra[t], #[trigger] extra[u])
        &&& self.transitive_reduction.well_formed()
        &&& self.transitive_reduction.nodes() == order
        &&& forall|a: NodeId, b: NodeId| #[trigger]
            self.transitive_reduction.has_edge(a, b) <==> edges.contains((a, b)) && !is_redundant(
                edges,
                a,
                b,
            )
        &&& forall|a: NodeId| climbs(order, #[trigger] self.transitive_reduction.successors(a))
        &&& self.transitive_closure.well_formed()
        &&& self.transitive_closure.nodes() == order
        &&& forall|a: NodeId, b: NodeId| #[trigger]
            self.transitive_closure.has_edge(a, b) <==> reaches(edges, a, b)
    }
}

impl Default for CheckGraphResults {
    /// The results for the graph without nodes: nothing in any part.
    fn default() -> (r: Self)
        ensures
            bitset_bits(r.reachable).len() == 0,
            r.connected.items() == Set::<(NodeId, NodeId)>::empty(),
            r.disconnected@.len() == 0,
            r.transitive_edges@.len() == 0,
            r.transitive_reduction.well_formed(),
            r.transitive_reduction.nodes().len() == 0,
            r.transitive_reduction.edges() == Set::<(NodeId, NodeId)>::empty(),
            r.transitive_closure.well_formed(),
            r.transitive_closure.nodes().len() == 0,
            r.transitive_closure.edges() == Set::<(NodeId, NodeId)>::empty(),
    {
        let r = CheckGraphResults {
            reachable: bitset_new(),
            connected: pairs_new(),
            disconnected: Vec::new(),
            transitive_edges: Vec::new(),
            transitive_reduction: DiGraph::new(),
            transitive_closure: DiGraph::new(),
        };
        proof {
            lemma_no_edges(&r.transitive_reduction);
            lemma_no_edges(&r.transitive_closure);
        }
        r
    }
}

/// A graph whose nodes have no successors has no edges.
pub proof fn lemma_no_edges(g: &DiGraph)
    requires
        forall|a: NodeId| #[trigger] g.successors(a) == Seq::<NodeId>::empty(),
    ensures
        g.edges() == Set::<(NodeId, NodeId)>::empty(),
        forall|a: NodeId, b: NodeId| !g.has_edge(a, b),
{
    assert forall|a: NodeId, b: NodeId| !g.has_edge(a, b) by {
        assert(g.successors(a) == Seq::<NodeId>::empty());
    }
    assert(g.edges() =~= Set::<(NodeId, NodeId)>::empty());
}

/// A topological order of a graph is an order that its edges follow.
pub proof fn lemma_topological_follows(graph: &DiGraph, order: Seq<NodeId>)
    requires
        graph.well_formed(),
        is_topological_order(graph, order),
    ensures
        follows_order(graph.edges(), order),
        order.len() == graph.nodes().len(),
{
    let edges = graph.edges();
    assert forall|a: NodeId, b: NodeId| #[trigger] edges.contains((a, b)) implies order.contains(a)
        && order.contains(b) && rank(order, a) < rank(order, b) by {
        assert(graph.has_edge(a, b));
        assert(graph.has_node(a) && graph.has_node(b));
        lemma_rank_of_member(order, a);
        lemma_rank_of_member(order, b);
        let i = rank(order, a);
        let j = rank(order, b);
        assert(edges.contains((order[i], order[j])));
    }
    order.unique_seq_to_set();
    graph.nodes().unique_seq_to_set();
    assert(order.to_set() =~= graph.nodes().to_set());
}

/// A graph with the nodes of `nodes`, in their order, and no edges.
fn graph_of_nodes(nodes: &Vec<NodeId>) -> (g: DiGraph)
    requires
        nodes@.no_duplicates(),
    ensures
        g.well_formed(),
        g.nodes() == nodes@,
        forall|a: NodeId| #[trigger] g.successors(a) == Seq::<NodeId>::empty(),
{
    let mut g = DiGraph::new();
    let mut i: usize = 0;
    while i < nodes.len()
        invariant
            i <= nodes.len(),
            nodes@.no_duplicates(),
            g.well_formed(),
            g.nodes() == nodes@.take(i as int),
            forall|a: NodeId| #[trigger] g.successors(a) == Seq::<NodeId>::empty(),
        decreases nodes.len() - i,
    {
        proof {
            if nodes@.take(i as int).contains(nodes@[i as int]) {
                let k = choose|k: int| 0 <= k < i && nodes@.take(i as int)[k] == nodes@[i as int];
                assert(nodes@[k] == nodes@[i as int]);
            }
            assert(nodes@.take(i + 1) =~= nodes@.take(i as int).push(nodes@[i as int]));
        }
        g.add_node(nodes[i]);
        i += 1;
    }
    proof {
        assert(nodes@.take(i as int) =~= nodes@);
    }
    g
}

/// The places of the nodes of `order`, and a copy of `graph` that lists the
/// nodes in that order and the successors of each node in that order.
fn ordered_copy(graph: &DiGraph, order: &Vec<NodeId>) -> (r: (NodeNumbers, DiGraph))
    requires
        graph.well_formed(),
        is_topological_order(graph, order@),
        order@.len() * order@.len() <= usize::MAX,
    ensures
        numbered(node_numbers(r.0), order@),
        mirrors(&r.1, graph.edges(), order@),
{
    let ghost edges = graph.edges();
    let n = order.len();
    let mut numbers = numbers_with_capacity(n);
    let mut sorted = DiGraph::new();
    let mut i: usize = 0;
    proof {
        lemma_topological_follows(graph, order@);
        lemma_no_edges(&sorted);
        assert(order@.take(0) =~= Seq::<NodeId>::empty());
    }
    while i < n
        invariant
            i <= n,
            n == order.len(),
            edges == graph.edges(),
            graph.well_formed(),
            follows_order(edges, order@),
            sorted.well_formed(),
            sorted.nodes() == order@.take(i as int),
            forall|a: NodeId, b: NodeId| #[trigger]
                sorted.has_edge(a, b) <==> edges.contains((a, b)) && rank(order@, b) < i,
            forall|a: NodeId| climbs(order@, #[trigger] sorted.successors(a)),
            forall|k: int|
                0 <= k < i ==> node_numbers(numbers).dom().contains(#[trigger] order@[k])
                    && node_numbers(numbers)[order@[k]] == k,
        decreases n - i,
    {
        let node = order[i];
        let ghost numbers_before = node_numbers(numbers);
        numbers_insert(&mut numbers, node, i);
        proof {
            lemma_rank(order@, i as int);
            assert forall|k: int| 0 <= k < i + 1 implies node_numbers(numbers).dom().contains(
                #[trigger] order@[k],
            ) && node_numbers(numbers)[order@[k]] == k by {
                if k < i {
                    assert(numbers_before.dom().contains(order@[k]));
                    assert(order@[k] != node);
                }
            }
            if order@.take(i as int).contains(node) {
                let k = choose|k: int| 0 <= k < i && order@.take(i as int)[k] == node;
                assert(order@[k] == node);
            }
            assert(order@.take(i + 1) =~= order@.take(i as int).push(node));
        }
        sorted.add_node(node);
        let preds = graph.predecessor_list(node);
        let mut j: usize = 0;
        proof {
            lemma_among_all(preds@);
        }
        while j < preds.len()
            invariant
                j <= preds.len(),
                i < n,
                n == order.len(),
                node == order@[i as int],
                rank(order@, node) == i,
                edges == graph.edges(),
                follows_order(edges, order@),
                preds@.no_duplicates(),
                forall|x: NodeId| preds@.contains(x) <==> graph.has_edge(x, node),
                sorted.well_formed(),
                sorted.nodes() == order@.take(i + 1),
                forall|a: NodeId, b: NodeId| #[trigger]
                    sorted.has_edge(a, b) <==> edges.contains((a, b)) && (rank(order@, b) < i || (b
                        == node && among(preds@, j as int, a))),
                forall|a: NodeId| climbs(order@, #[trigger] sorted.successors(a)),
            decreases preds.len() - j,
        {
            let pred = preds[j];
            let ghost before = sorted;
            proof {
                lemma_among_step(preds@, j as int);
                assert(preds@.contains(pred));
                assert(edges.contains((pred, node)));
                lemma_rank_of_member(order@, pred);
                let rp = rank(order@, pred);
                assert(order@.take(i + 1)[rp] == pred);
                assert(order@.take(i + 1)[i as int] == node);
                assert(sorted.has_node(pred) && sorted.has_node(node));
                assert(!sorted.has_edge(pred, node));
            }
            sorted.add_edge(pred, node);
            proof {
                assert(sorted.nodes() == before.nodes());
                assert forall|a: NodeId| climbs(order@, #[trigger] sorted.successors(a)) by {
                    if a == pred {
                        let old_s = before.successors(a);
                        assert(climbs(order@, old_s));
                        assert forall|p: int| 0 <= p < old_s.len() implies rank(
                            order@,
                            #[trigger] old_s[p],
                        ) < rank(order@, node) by {
                            assert(old_s.contains(old_s[p]));
                            assert(before.has_edge(a, old_s[p]));
                        }
                        lemma_climbs_push(order@, old_s, node);
                    } else {
                        assert(sorted.successors(a) == before.successors(a));
                    }
                }
            }
            j += 1;
        }
        proof {
            lemma_among_all(preds@);
            assert forall|a: NodeId, b: NodeId| #[trigger]
                sorted.has_edge(a, b) <==> edges.contains((a, b)) && rank(order@, b) < i + 1 by {
                if edges.contains((a, b)) {
                    lemma_rank_of_member(order@, b);
                    if rank(order@, b) == i {
                        assert(b == node);
                        assert(graph.has_edge(a, node));
                        assert(preds@.contains(a));
                    }
                }
            }
        }
        i += 1;
    }
    proof {
        assert(order@.take(i as int) =~= order@);
        assert forall|a: NodeId, b: NodeId| #[trigger]
            sorted.has_edge(a, b) <==> edges.contains((a, b)) by {
            if edges.contains((a, b)) {
                lemma_rank_of_member(order@, b);
            }
        }
    }
    (numbers, sorted)
}

/// Setting the bit of one cell changes that cell and no other.
proof fn lemma_set_bit(bits: Seq<bool>, i0: int, j0: int, n: int)
    requires
        bits.len() == n * n,
        0 <= i0 < n,
        0 <= j0 < n,
    ensures
        0 <= cell(i0, j0, n) < n * n,
        forall|i: int, j: int|
            0 <= i < n && 0 <= j < n ==> (#[trigger] bit_at(
                bits.update(cell(i0, j0, n), true),
                i,
                j,
                n,
            ) <==> bit_at(bits, i, j, n) || (i == i0 && j == j0)),
{
    lemma_cell_bounds(i0, j0, n);
    assert forall|i: int, j: int| 0 <= i < n && 0 <= j < n implies (#[trigger] bit_at(
        bits.update(cell(i0, j0, n), true),
        i,
        j,
        n,
    ) <==> bit_at(bits, i, j, n) || (i == i0 && j == j0)) by {
        lemma_cell_bounds(i, j, n);
        if cell(i, j, n) == cell(i0, j0, n) {
            lemma_cell_injective(i, j, i0, j0, n);
        }
    }
}

/// The closure while the nodes from place `r` on are done and the first
/// `k` successors `succs` of the node `a` before them: it has an edge for
/// every path from a node that is done, and from `a` to what lies below
/// those successors.
spec fn closure_ok(
    g: &DiGraph,
    edges: Set<(NodeId, NodeId)>,
    order: Seq<NodeId>,
    r: int,
    a: NodeId,
    succs: Seq<NodeId>,
    k: int,
) -> bool {
    &&& g.well_formed()
    &&& g.nodes() == order
    &&& forall|x: NodeId, y: NodeId| #[trigger]
        g.has_edge(x, y) <==> (rank(order, x) >= r && reaches(edges, x, y)) || (x == a && below(
            edges,
            succs,
            k,
            y,
        ))
}

/// The reduction at the same moment: the edges that are not redundant,
/// from the nodes that are done and from `a` to its first `k` successors.
spec fn reduction_ok(
    g: &DiGraph,
    edges: Set<(NodeId, NodeId)>,
    order: Seq<NodeId>,
    r: int,
    a: NodeId,
    succs: Seq<NodeId>,
    k: int,
) -> bool {
    &&& g.well_formed()
    &&& g.nodes() == order
    &&& forall|x: NodeId, y: NodeId| #[trigger]
        g.has_edge(x, y) <==> edges.contains((x, y)) && !is_redundant(edges, x, y) && (rank(
            order,
            x,
        ) >= r || (x == a && among(succs, k, y)))
    &&& forall|x: NodeId| climbs(order, #[trigger] g.successors(x))
}

/// The reachability matrix at the same moment.
spec fn matrix_ok(
    bits: Seq<bool>,
    edges: Set<(NodeId, NodeId)>,
    order: Seq<NodeId>,
    r: int,
    succs: Seq<NodeId>,
    k: int,
) -> bool {
    let n = order.len() as int;
    &&& bits.len() == n * n
    &&& forall|i: int, j: int|
        0 <= i < n && 0 <= j < n ==> (#[trigger] bit_at(bits, i, j, n) <==> (i >= r && reaches(
            edges,
            order[i],
            order[j],
        )) || (i == r - 1 && below(edges, succs, k, order[j])))
}

/// The marks at the same moment: on what the first `k` successors reach.
spec fn seen_ok(
    seen: Seq<bool>,
    edges: Set<(NodeId, NodeId)>,
    order: Seq<NodeId>,
    succs: Seq<NodeId>,
    k: int,
) -> bool {
    &&& seen.len() == order.len()
    &&& forall|j: int|
        0 <= j < order.len() ==> (#[trigger] seen[j] <==> strictly_below(edges, succs, k, order[j]))
}

/// The redundant edge `p` has been met at that moment.
spec fn met(
    edges: Set<(NodeId, NodeId)>,
    order: Seq<NodeId>,
    r: int,
    a: NodeId,
    succs: Seq<NodeId>,
    k: int,
    p: (NodeId, NodeId),
) -> bool {
    is_redundant(edges, p.0, p.1) && (rank(order, p.0) >= r || (p.0 == a && among(succs, k, p.1)))
}

/// The list of redundant edges at the same moment.
spec fn extra_ok(
    extra: Seq<(NodeId, NodeId)>,
    edges: Set<(NodeId, NodeId)>,
    order: Seq<NodeId>,
    r: int,
    a: NodeId,
    succs: Seq<NodeId>,
    k: int,
) -> bool {
    &&& forall|t: int| 0 <= t < extra.len() ==> met(edges, order, r, a, succs, k, #[trigger] extra[t])
    &&& forall|p: (NodeId, NodeId)| #[trigger]
        met(edges, order, r, a, succs, k, p) ==> extra.contains(p)
    &&& forall|t: int, u: int|
        0 <= t < u < extra.len() ==> edge_before(order, #[trigger] extra[t], #[trigger] extra[u])
}

/// Gives `a` an edge in the closure to every node that `b` has one to and
/// that bears no mark yet, marks those nodes, and sets their bits in the
/// row of `a`.
fn mark_descendants(
    closure: &mut DiGraph,
    reachable: &mut FixedBitSet,
    visited: &mut FixedBitSet,
    numbers: &NodeNumbers,
    a: NodeId,
    index_a: usize,
    b: NodeId,
    n: usize,
    Ghost(order): Ghost<Seq<NodeId>>,
)
    requires
        order.no_duplicates(),
        n == order.len(),
        n * n <= usize::MAX,
        index_a < n,
        order[index_a as int] == a,
        numbered(node_numbers(*numbers), order),
        old(closure).well_formed(),
        old(closure).nodes() == order,
        bitset_bits(*old(reachable)).len() == n * n,
        bitset_bits(*old(visited)).len() == n,
    ensures
        final(closure).well_formed(),
        final(closure).nodes() == order,
        forall|x: NodeId, y: NodeId| #[trigger]
            final(closure).has_edge(x, y) <==> old(closure).has_edge(x, y) || (x == a && old(
                closure,
            ).has_edge(b, y) && !bitset_bits(*old(visited))[rank(order, y)]),
        bitset_bits(*final(reachable)).len() == n * n,
        forall|i: int, j: int|
            0 <= i < n && 0 <= j < n ==> (#[trigger] bit_at(
                bitset_bits(*final(reachable)),
                i,
                j,
                n as int,
            ) <==> bit_at(bitset_bits(*old(reachable)), i, j, n as int) || (i == index_a && old(
                closure,
            ).has_edge(b, order[j]) && !bitset_bits(*old(visited))[j])),
        bitset_bits(*final(visited)).len() == n,
        forall|j: int|
            0 <= j < n ==> (#[trigger] bitset_bits(*final(visited))[j] <==> bitset_bits(
                *old(visited),
            )[j] || old(closure).has_edge(b, order[j])),
{
    let ghost bits0 = bitset_bits(*reachable);
    let ghost seen0 = bitset_bits(*visited);
    let successors = closure.successor_list(b);
    let mut m: usize = 0;
    proof {
        lemma_among_all(successors@);
        assert forall|y: NodeId| successors@.contains(y) implies order.contains(y) by {
            assert(closure.has_edge(b, y));
        }
    }
    while m < successors.len()
        invariant
            m <= successors.len(),
            order.no_duplicates(),
            n == order.len(),
            n * n <= usize::MAX,
            index_a < n,
            order[index_a as int] == a,
            numbered(node_numbers(*numbers), order),
            successors@ == old(closure).successors(b),
            successors@.no_duplicates(),
            forall|y: NodeId| successors@.contains(y) ==> order.contains(y),
            bits0 == bitset_bits(*old(reachable)),
            seen0 == bitset_bits(*old(visited)),
            seen0.len() == n,
            closure.well_formed(),
            closure.nodes() == order,
            forall|x: NodeId, y: NodeId| #[trigger]
                closure.has_edge(x, y) <==> old(closure).has_edge(x, y) || (x == a && among(
                    successors@,
                    m as int,
                    y,
                ) && !seen0[rank(order, y)]),
            bitset_bits(*reachable).len() == n * n,
            forall|i: int, j: int|
                0 <= i < n && 0 <= j < n ==> (#[trigger] bit_at(
                    bitset_bits(*reachable),
                    i,
                    j,
                    n as int,
                ) <==> bit_at(bits0, i, j, n as int) || (i == index_a && among(
                    successors@,
                    m as int,
                    order[j],
                ) && !seen0[j])),
            bitset_bits(*visited).len() == n,
            forall|j: int|
                0 <= j < n ==> (#[trigger] bitset_bits(*visited)[j] <==> seen0[j] || among(
                    successors@,
                    m as int,
                    order[j],
                )),
        decreases successors.len() - m,
    {
        let c = successors[m];
        proof {
            lemma_among_step(successors@, m as int);
            assert(successors@.contains(c));
            lemma_rank_of_member(order, c);
            assert forall|j: int| 0 <= j < n implies (order[j] == c <==> j == rank(order, c)) by {
                lemma_rank(order, j);
            }
        }
        let index_c = numbers_get(numbers, c).unwrap();
        let ghost bits1 = bitset_bits(*reachable);
        let ghost seen1 = bitset_bits(*visited);
        let ghost closure1 = *closure;
        if !bitset_contains(visited, index_c) {
            bitset_insert(visited, index_c);
            proof {
                assert(closure.has_node(a));
                assert(closure.has_node(c));
            }
            closure.add_edge(a, c);
            proof {
                lemma_set_bit(bits1, index_a as int, index_c as int, n as int);
            }
            let place = index(index_a, index_c, n);
            bitset_insert(reachable, place);
            proof {
                assert(!seen0[index_c as int]);
                assert forall|x: NodeId, y: NodeId| #[trigger]
                    closure.has_edge(x, y) <==> old(closure).has_edge(x, y) || (x == a && among(
                        successors@,
                        m + 1,
                        y,
                    ) && !seen0[rank(order, y)]) by {
                    assert(closure.has_edge(x, y) <==> closure1.has_edge(x, y) || (x == a && y
                        == c));
                }
                assert forall|i: int, j: int| 0 <= i < n && 0 <= j < n implies (#[trigger] bit_at(
                    bitset_bits(*reachable),
                    i,
                    j,
                    n as int,
                ) <==> bit_at(bits0, i, j, n as int) || (i == index_a && among(
                    successors@,
                    m + 1,
                    order[j],
                ) && !seen0[j])) by {
                    assert(bit_at(bitset_bits(*reachable), i, j, n as int) <==> bit_at(
                        bits1,
                        i,
                        j,
                        n as int,
                    ) || (i == index_a && j == index_c));
                }
            }
        } else {
            proof {
                assert(seen1[index_c as int]);
                assert forall|x: NodeId, y: NodeId| #[trigger]
                    closure.has_edge(x, y) <==> old(closure).has_edge(x, y) || (x == a && among(
                        successors@,
                        m + 1,
                        y,
                    ) && !seen0[rank(order, y)]) by {}
                assert forall|i: int, j: int| 0 <= i < n && 0 <= j < n implies (#[trigger] bit_at(
                    bitset_bits(*reachable),
                    i,
                    j,
                    n as int,
                ) <==> bit_at(bits0, i, j, n as int) || (i == index_a && among(
                    successors@,
                    m + 1,
                    order[j],
                ) && !seen0[j])) by {}
            }
        }
        m += 1;
    }
    proof {
        lemma_among_all(successors@);
        assert forall|x: NodeId, y: NodeId| #[trigger]
            closure.has_edge(x, y) <==> old(closure).has_edge(x, y) || (x == a && old(
                closure,
            ).has_edge(b, y) && !seen0[rank(order, y)]) by {}
    }
}

/// A node that stands for none where no node is being worked on.
spec fn no_node() -> NodeId {
    NodeId::System(0)
}

/// Works through the successors of the node `a`, which stands before the
/// nodes that are done: an edge to a successor without a mark goes to the
/// reduction and the closure, and what the successor reaches is marked; an
/// edge to a marked successor is redundant.
fn reduce_node(
    reduction: &mut DiGraph,
    closure: &mut DiGraph,
    reachable: &mut FixedBitSet,
    visited: &mut FixedBitSet,
    transitive_edges: &mut Vec<(NodeId, NodeId)>,
    sorted: &DiGraph,
    numbers: &NodeNumbers,
    a: NodeId,
    n: usize,
    Ghost(edges): Ghost<Set<(NodeId, NodeId)>>,
    Ghost(order): Ghost<Seq<NodeId>>,
    Ghost(r): Ghost<int>,
)
    requires
        follows_order(edges, order),
        n == order.len(),
        n * n <= usize::MAX,
        1 <= r <= n,
        a == order[r - 1],
        numbered(node_numbers(*numbers), order),
        mirrors(sorted, edges, order),
        closure_ok(old(closure), edges, order, r, no_node(), Seq::empty(), 0),
        reduction_ok(old(reduction), edges, order, r, no_node(), Seq::empty(), 0),
        matrix_ok(bitset_bits(*old(reachable)), edges, order, r, Seq::empty(), 0),
        seen_ok(bitset_bits(*old(visited)), edges, order, Seq::empty(), 0),
        extra_ok(old(transitive_edges)@, edges, order, r, no_node(), Seq::empty(), 0),
    ensures
        closure_ok(final(closure), edges, order, r - 1, no_node(), Seq::empty(), 0),
        reduction_ok(final(reduction), edges, order, r - 1, no_node(), Seq::empty(), 0),
        matrix_ok(bitset_bits(*final(reachable)), edges, order, r - 1, Seq::empty(), 0),
        seen_ok(bitset_bits(*final(visited)), edges, order, Seq::empty(), 0),
        extra_ok(final(transitive_edges)@, edges, order, r - 1, no_node(), Seq::empty(), 0),
{
    proof {
        lemma_rank(order, r - 1);
    }
    let index_a = numbers_get(numbers, a).unwrap();
    let succs = sorted.successor_list(a);
    proof {
        assert forall|y: NodeId| succs@.contains(y) <==> edges.contains((a, y)) by {
            assert(sorted.has_edge(a, y) <==> edges.contains((a, y)));
        }
        assert(lists_successors(edges, order, a, succs@));
        lemma_among_all(succs@);
        lemma_among_all(Seq::<NodeId>::empty());
        assert(closure_ok(closure, edges, order, r, a, succs@, 0));
        assert(reduction_ok(reduction, edges, order, r, a, succs@, 0));
        assert(matrix_ok(bitset_bits(*reachable), edges, order, r, succs@, 0));
        assert(seen_ok(bitset_bits(*visited), edges, order, succs@, 0));
        assert forall|p: (NodeId, NodeId)|
            met(edges, order, r, a, succs@, 0, p) <==> met(
                edges,
                order,
                r,
                no_node(),
                Seq::empty(),
                0,
                p,
            ) by {}
        assert(extra_ok(transitive_edges@, edges, order, r, a, succs@, 0));
    }
    let mut k: usize = 0;
    while k < succs.len()
        invariant
            k <= succs.len(),
            follows_order(edges, order),
            n == order.len(),
            n * n <= usize::MAX,
            1 <= r <= n,
            a == order[r - 1],
            index_a == r - 1,
            rank(order, a) == r - 1,
            numbered(node_numbers(*numbers), order),
            lists_successors(edges, order, a, succs@),
            closure_ok(closure, edges, order, r, a, succs@, k as int),
            reduction_ok(reduction, edges, order, r, a, succs@, k as int),
            matrix_ok(bitset_bits(*reachable), edges, order, r, succs@, k as int),
            seen_ok(bitset_bits(*visited), edges, order, succs@, k as int),
            extra_ok(transitive_edges@, edges, order, r, a, succs@, k as int),
        decreases succs.len() - k,
    {
        let b = succs[k];
        proof {
            assert(succs@.contains(b));
            assert(edges.contains((a, b)));
            lemma_rank_of_member(order, b);
            lemma_redundant_edge(edges, order, a, succs@, k as int);
            lemma_among_step(succs@, k as int);
            assert forall|j: int| 0 <= j < n implies (order[j] == b <==> j == rank(order, b)) by {
                lemma_rank(order, j);
            }
        }
        let index_b = numbers_get(numbers, b).unwrap();
        let ghost reduction0 = *reduction;
        let ghost closure0 = *closure;
        let ghost bits0 = bitset_bits(*reachable);
        let ghost seen0 = bitset_bits(*visited);
        let ghost extra0 = transitive_edges@;
        if !bitset_contains(visited, index_b) {
            proof {
                assert(!strictly_below(edges, succs@, k as int, b));
                assert(!is_redundant(edges, a, b));
                assert(reduction.has_node(a) && reduction.has_node(b));
                assert(closure.has_node(a) && closure.has_node(b));
                assert(!reduction.has_edge(a, b));
            }
            reduction.add_edge(a, b);
            closure.add_edge(a, b);
            proof {
                lemma_set_bit(bits0, index_a as int, index_b as int, n as int);
            }
            let place = index(index_a, index_b, n);
            bitset_insert(reachable, place);
            let ghost closure1 = *closure;
            let ghost bits1 = bitset_bits(*reachable);
            mark_descendants(
                closure,
                reachable,
                visited,
                numbers,
                a,
                index_a,
                b,
                n,
                Ghost(order),
            );
            proof {
                lemma_below_step(edges, succs@, k as int);
                assert forall|y: NodeId| closure1.has_edge(b, y) <==> reaches(edges, b, y) by {
                    assert(closure1.has_edge(b, y) <==> closure0.has_edge(b, y) || (b == a && y
                        == b));
                    assert(closure0.has_edge(b, y) <==> (rank(order, b) >= r && reaches(
                        edges,
                        b,
                        y,
                    )) || (b == a && below(edges, succs@, k as int, y)));
                }
                assert forall|x: NodeId, y: NodeId| #[trigger]
                    closure.has_edge(x, y) <==> (rank(order, x) >= r && reaches(edges, x, y)) || (x
                        == a && below(edges, succs@, k + 1, y)) by {
                    assert(closure.has_edge(x, y) <==> closure1.has_edge(x, y) || (x == a
                        && closure1.has_edge(b, y) && !seen0[rank(order, y)]));
                    assert(closure1.has_edge(x, y) <==> closure0.has_edge(x, y) || (x == a && y
                        == b));
                    assert(closure0.has_edge(x, y) <==> (rank(order, x) >= r && reaches(
                        edges,
                        x,
                        y,
                    )) || (x == a && below(edges, succs@, k as int, y)));
                    if x == a && reaches(edges, b, y) && seen0[rank(order, y)] {
                        lemma_reaches_later(edges, order, b, y);
                        lemma_rank_of_member(order, y);
                        lemma_strictly_below_is_below(edges, succs@, k as int, y);
                    }
                }
                assert(closure_ok(closure, edges, order, r, a, succs@, k + 1));
                assert forall|i: int, j: int| 0 <= i < n && 0 <= j < n implies (#[trigger] bit_at(
                    bitset_bits(*reachable),
                    i,
                    j,
                    n as int,
                ) <==> (i >= r && reaches(edges, order[i], order[j])) || (i == r - 1 && below(
                    edges,
                    succs@,
                    k + 1,
                    order[j],
                ))) by {
                    assert(bit_at(bitset_bits(*reachable), i, j, n as int) <==> bit_at(
                        bits1,
                        i,
                        j,
                        n as int,
                    ) || (i == index_a && closure1.has_edge(b, order[j]) && !seen0[j]));
                    assert(bit_at(bits1, i, j, n as int) <==> bit_at(bits0, i, j, n as int) || (i
                        == index_a && j == index_b));
                    assert(bit_at(bits0, i, j, n as int) <==> (i >= r && reaches(
                        edges,
                        order[i],
                        order[j],
                    )) || (i == r - 1 && below(edges, succs@, k as int, order[j])));
                    if i == r - 1 && reaches(edges, b, order[j]) && seen0[j] {
                        lemma_strictly_below_is_below(edges, succs@, k as int, order[j]);
                    }
                }
                assert(matrix_ok(bitset_bits(*reachable), edges, order, r, succs@, k + 1));
                assert forall|j: int| 0 <= j < order.len() implies (#[trigger] bitset_bits(
                    *visited,
                )[j] <==> strictly_below(edges, succs@, k + 1, order[j])) by {
                    assert(bitset_bits(*visited)[j] <==> seen0[j] || closure1.has_edge(
                        b,
                        order[j],
                    ));
                }
                assert(seen_ok(bitset_bits(*visited), edges, order, succs@, k + 1));
                assert forall|x: NodeId| climbs(order, #[trigger] reduction.successors(x)) by {
                    if x == a {
                        let old_s = reduction0.successors(a);
                        assert(climbs(order, old_s));
                        assert forall|p: int| 0 <= p < old_s.len() implies rank(
                            order,
                            #[trigger] old_s[p],
                        ) < rank(order, b) by {
                            assert(old_s.contains(old_s[p]));
                            assert(reduction0.has_edge(a, old_s[p]));
                            let w = choose|w: int| 0 <= w < k && #[trigger] succs@[w] == old_s[p];
                            assert(rank(order, succs@[w]) < rank(order, succs@[k as int]));
                        }
                        lemma_climbs_push(order, old_s, b);
                    } else {
                        assert(reduction.successors(x) == reduction0.successors(x));
                    }
                }
                assert forall|x: NodeId, y: NodeId| #[trigger]
                    reduction.has_edge(x, y) <==> edges.contains((x, y)) && !is_redundant(
                        edges,
                        x,
                        y,
                    ) && (rank(order, x) >= r || (x == a && among(succs@, k + 1, y))) by {
                    assert(reduction.has_edge(x, y) <==> reduction0.has_edge(x, y) || (x == a && y
                        == b));
                }
                assert(reduction_ok(reduction, edges, order, r, a, succs@, k + 1));
                let extra = transitive_edges@;
                assert forall|t: int| 0 <= t < extra.len() implies met(
                    edges,
                    order,
                    r,
                    a,
                    succs@,
                    k + 1,
                    #[trigger] extra[t],
                ) by {
                    assert(met(edges, order, r, a, succs@, k as int, extra[t]));
                }
                assert forall|p: (NodeId, NodeId)| #[trigger]
                    met(edges, order, r, a, succs@, k + 1, p) implies extra.contains(p) by {
                    assert(met(edges, order, r, a, succs@, k as int, p));
                }
                assert(extra_ok(transitive_edges@, edges, order, r, a, succs@, k + 1));
            }
        } else {
            transitive_edges.push((a, b));
            proof {
                assert(strictly_below(edges, succs@, k as int, b));
                assert(is_redundant(edges, a, b));
                lemma_below_skip(edges, succs@, k as int);
                assert(closure_ok(closure, edges, order, r, a, succs@, k + 1));
                assert(matrix_ok(bitset_bits(*reachable), edges, order, r, succs@, k + 1));
                assert(seen_ok(bitset_bits(*visited), edges, order, succs@, k + 1));
                assert(reduction_ok(reduction, edges, order, r, a, succs@, k + 1));
                let extra = transitive_edges@;
                assert(extra == extra0.push((a, b)));
                assert forall|t: int| 0 <= t < extra.len() implies met(
                    edges,
                    order,
                    r,
                    a,
                    succs@,
                    k + 1,
                    #[trigger] extra[t],
                ) by {
                    if t < extra0.len() {
                        assert(extra[t] == extra0[t]);
                        assert(met(edges, order, r, a, succs@, k as int, extra0[t]));
                    }
                }
                assert forall|p: (NodeId, NodeId)| #[trigger]
                    met(edges, order, r, a, succs@, k + 1, p) implies extra.contains(p) by {
                    lemma_push_has(extra0, (a, b), p);
                    if p != (a, b) {
                        assert(met(edges, order, r, a, succs@, k as int, p));
                        assert(extra0.contains(p));
                    }
                }
                assert forall|t: int, u: int| 0 <= t < u < extra.len() implies edge_before(
                    order,
                    #[trigger] extra[t],
                    #[trigger] extra[u],
                ) by {
                    assert(extra[t] == extra0[t]);
                    if u < extra0.len() {
                        assert(extra[u] == extra0[u]);
                    } else {
                        assert(met(edges, order, r, a, succs@, k as int, extra0[t]));
                        if extra0[t].0 == a && among(succs@, k as int, extra0[t].1) {
                            let w = choose|w: int|
                                0 <= w < k && #[trigger] succs@[w] == extra0[t].1;
                            assert(rank(order, succs@[w]) < rank(order, succs@[k as int]));
                        }
                    }
                }
                assert(extra_ok(transitive_edges@, edges, order, r, a, succs@, k + 1));
            }
        }
        k += 1;
    }
    bitset_clear(visited);
    proof {
        let len = succs@.len() as int;
        lemma_below_all(edges, order, a, succs@);
        lemma_among_all(succs@);
        lemma_among_all(Seq::<NodeId>::empty());
        assert forall|x: NodeId, y: NodeId| #[trigger]
            closure.has_edge(x, y) <==> (rank(order, x) >= r - 1 && reaches(edges, x, y)) || (x
                == no_node() && below(edges, Seq::empty(), 0, y)) by {
            assert(closure.has_edge(x, y) <==> (rank(order, x) >= r && reaches(edges, x, y)) || (x
                == a && below(edges, succs@, len, y)));
            if reaches(edges, x, y) {
                lemma_reaches_later(edges, order, x, y);
                lemma_rank_of_member(order, x);
            }
        }
        assert(closure_ok(closure, edges, order, r - 1, no_node(), Seq::empty(), 0));
        assert forall|x: NodeId, y: NodeId| #[trigger]
            reduction.has_edge(x, y) <==> edges.contains((x, y)) && !is_redundant(edges, x, y) && (
            rank(order, x) >= r - 1 || (x == no_node() && among(Seq::empty(), 0, y))) by {
            assert(reduction.has_edge(x, y) <==> edges.contains((x, y)) && !is_redundant(
                edges,
                x,
                y,
            ) && (rank(order, x) >= r || (x == a && among(succs@, len, y))));
            assert(among(succs@, len, y) <==> succs@.contains(y));
            assert(succs@.contains(y) <==> edges.contains((a, y)));
            assert(!among(Seq::<NodeId>::empty(), 0, y));
            if edges.contains((x, y)) {
                lemma_rank_of_member(order, x);
            }
        }
        assert(reduction_ok(reduction, edges, order, r - 1, no_node(), Seq::empty(), 0));
        assert(matrix_ok(bitset_bits(*reachable), edges, order, r - 1, Seq::empty(), 0));
        assert(seen_ok(bitset_bits(*visited), edges, order, Seq::empty(), 0));
        let extra = transitive_edges@;
        assert forall|p: (NodeId, NodeId)|
            met(edges, order, r, a, succs@, len, p) <==> #[trigger] met(
                edges,
                order,
                r - 1,
                no_node(),
                Seq::empty(),
                0,
                p,
            ) by {
            assert(among(succs@, len, p.1) <==> succs@.contains(p.1));
            assert(succs@.contains(p.1) <==> edges.contains((a, p.1)));
            assert(!among(Seq::<NodeId>::empty(), 0, p.1));
            if is_redundant(edges, p.0, p.1) {
                assert(edges.contains((p.0, p.1)));
                lemma_rank_of_member(order, p.0);
            }
        }
        assert forall|t: int| 0 <= t < extra.len() implies met(
            edges,
            order,
            r - 1,
            no_node(),
            Seq::empty(),
            0,
            #[trigger] extra[t],
        ) by {
            assert(met(edges, order, r, a, succs@, len, extra[t]));
        }
        assert forall|p: (NodeId, NodeId)| #[trigger]
            met(edges, order, r - 1, no_node(), Seq::empty(), 0, p) implies extra.contains(p) by {
            assert(met(edges, order, r, a, succs@, len, p));
        }
        assert(extra_ok(transitive_edges@, edges, order, r - 1, no_node(), Seq::empty(), 0));
    }
}

/// The pair `p` lies in a row before row `i`, or in row `i` before
/// column `j`.
spec fn scanned(order: Seq<NodeId>, i: int, j: int, p: (NodeId, NodeId)) -> bool {
    rank(order, p.0) < i || (rank(order, p.0) == i && rank(order, p.1) < j)
}

/// Walks the matrix above its diagonal row by row and parts the pairs of
/// nodes into those with a path from the first to the second and those
/// without.
fn partition_pairs(
    reachable: &FixedBitSet,
    order: &Vec<NodeId>,
    Ghost(edges): Ghost<Set<(NodeId, NodeId)>>,
) -> (r: (PairSet, Vec<(NodeId, NodeId)>))
    requires
        follows_order(edges, order@),
        order@.len() >= 1,
        order@.len() * order@.len() <= usize::MAX,
        matrix_ok(bitset_bits(*reachable), edges, order@, 0, Seq::empty(), 0),
    ensures
        forall|a: NodeId, b: NodeId| #[trigger]
            r.0.items().contains((a, b)) <==> reaches(edges, a, b),
        forall|t: int|
            0 <= t < r.1@.len() ==> is_disconnected_pair(edges, order@, #[trigger] r.1@[t]),
        forall|p: (NodeId, NodeId)| #[trigger]
            is_disconnected_pair(edges, order@, p) ==> r.1@.contains(p),
        forall|t: int, u: int|
            0 <= t < u < r.1@.len() ==> pair_before(order@, #[trigger] r.1@[t], #[trigger] r.1@[u]),
{
    let n = order.len();
    let ghost bits = bitset_bits(*reachable);
    let mut connected = pairs_new();
    let mut disconnected: Vec<(NodeId, NodeId)> = Vec::new();
    let mut i: usize = 0;
    proof {
        assert forall|a: NodeId, b: NodeId| reaches(edges, a, b) implies !scanned(
            order@,
            0,
            0,
            (a, b),
        ) by {
            lemma_reaches_later(edges, order@, a, b);
            lemma_rank_of_member(order@, a);
            lemma_rank_of_member(order@, b);
        }
        assert forall|p: (NodeId, NodeId)| is_disconnected_pair(edges, order@, p) implies !scanned(
            order@,
            0,
            0,
            p,
        ) by {
            lemma_rank_of_member(order@, p.0);
            lemma_rank_of_member(order@, p.1);
        }
    }
    while i < n - 1
        invariant
            i <= n - 1,
            n == order.len(),
            n >= 1,
            n * n <= usize::MAX,
            follows_order(edges, order@),
            bits == bitset_bits(*reachable),
            matrix_ok(bits, edges, order@, 0, Seq::empty(), 0),
            forall|a: NodeId, b: NodeId| #[trigger]
                connected.items().contains((a, b)) <==> reaches(edges, a, b) && scanned(
                    order@,
                    i as int,
                    0,
                    (a, b),
                ),
            forall|t: int|
                0 <= t < disconnected@.len() ==> is_disconnected_pair(
                    edges,
                    order@,
                    #[trigger] disconnected@[t],
                ) && scanned(order@, i as int, 0, disconnected@[t]),
            forall|p: (NodeId, NodeId)| #[trigger]
                is_disconnected_pair(edges, order@, p) && scanned(order@, i as int, 0, p)
                    ==> disconnected@.contains(p),
            forall|t: int, u: int|
                0 <= t < u < disconnected@.len() ==> pair_before(
                    order@,
                    #[trigger] disconnected@[t],
                    #[trigger] disconnected@[u],
                ),
        decreases n - 1 - i,
    {
        proof {
            lemma_cell_bounds(i as int, i + 1, n as int);
            lemma_cell_bounds(i as int, n - 1, n as int);
            lemma_rank(order@, i as int);
            assert forall|p: (NodeId, NodeId)| scanned(order@, i as int, 0, p) implies #[trigger] scanned(
                order@,
                i as int,
                i + 1,
                p,
            ) by {}
            assert forall|p: (NodeId, NodeId)|
                is_disconnected_pair(edges, order@, p) && #[trigger] scanned(
                    order@,
                    i as int,
                    i + 1,
                    p,
                ) implies scanned(order@, i as int, 0, p) by {}
            assert forall|a: NodeId, b: NodeId|
                reaches(edges, a, b) && #[trigger] scanned(
                    order@,
                    i as int,
                    i + 1,
                    (a, b),
                ) implies scanned(order@, i as int, 0, (a, b)) by {
                lemma_reaches_later(edges, order@, a, b);
            }
        }
        let first = index(i, i + 1, n);
        let last = index(i, n - 1, n);
        let mut place = first;
        while place <= last
            invariant
                i < n - 1,
                n == order.len(),
                n * n <= usize::MAX,
                follows_order(edges, order@),
                bits == bitset_bits(*reachable),
                matrix_ok(bits, edges, order@, 0, Seq::empty(), 0),
                first == cell(i as int, i + 1, n as int),
                last == cell(i as int, n - 1, n as int),
                last < n * n,
                first <= place <= last + 1,
                forall|a: NodeId, b: NodeId| #[trigger]
                    connected.items().contains((a, b)) <==> reaches(edges, a, b) && scanned(
                        order@,
                        i as int,
                        place - i * n,
                        (a, b),
                    ),
                forall|t: int|
                    0 <= t < disconnected@.len() ==> is_disconnected_pair(
                        edges,
                        order@,
                        #[trigger] disconnected@[t],
                    ) && scanned(order@, i as int, place - i * n, disconnected@[t]),
                forall|p: (NodeId, NodeId)| #[trigger]
                    is_disconnected_pair(edges, order@, p) && scanned(
                        order@,
                        i as int,
                        place - i * n,
                        p,
                    ) ==> disconnected@.contains(p),
                forall|t: int, u: int|
                    0 <= t < u < disconnected@.len() ==> pair_before(
                        order@,
                        #[trigger] disconnected@[t],
                        #[trigger] disconnected@[u],
                    ),
            decreases last + 1 - place,
        {
            let ghost j = place - i * n;
            proof {
                assert(place == cell(i as int, j, n as int));
                lemma_cell_row_col(i as int, j, n as int);
                lemma_rank(order@, i as int);
                lemma_rank(order@, j);
            }
            let (a, b) = row_col(place, n);
            let pair = (order[a], order[b]);
            let ghost items0 = connected.items();
            let ghost apart0 = disconnected@;
            proof {
                assert(bit_at(bits, i as int, j, n as int) <==> reaches(
                    edges,
                    order@[i as int],
                    order@[j],
                ));
                assert forall|p: (NodeId, NodeId)|
                    order@.contains(p.0) && order@.contains(p.1) implies (#[trigger] scanned(
                        order@,
                        i as int,
                        j + 1,
                        p,
                    ) <==> scanned(order@, i as int, j, p) || p == pair) by {
                    lemma_rank_of_member(order@, p.0);
                    lemma_rank_of_member(order@, p.1);
                }
            }
            if bitset_contains(reachable, place) {
                pairs_insert(&mut connected, pair.0, pair.1);
                proof {
                    assert forall|x: NodeId, y: NodeId| #[trigger]
                        connected.items().contains((x, y)) <==> reaches(edges, x, y) && scanned(
                            order@,
                            i as int,
                            j + 1,
                            (x, y),
                        ) by {
                        assert(connected.items().contains((x, y)) <==> items0.contains((x, y))
                            || (x, y) == pair);
                        if reaches(edges, x, y) {
                            lemma_reaches_later(edges, order@, x, y);
                        }
                    }
                    assert forall|p: (NodeId, NodeId)| #[trigger]
                        is_disconnected_pair(edges, order@, p) && scanned(
                            order@,
                            i as int,
                            j + 1,
                            p,
                        ) implies disconnected@.contains(p) by {
                        assert(scanned(order@, i as int, j, p));
                    }
                }
            } else {
                disconnected.push(pair);
                proof {
                    let apart = disconnected@;
                    assert forall|x: NodeId, y: NodeId| #[trigger]
                        connected.items().contains((x, y)) <==> reaches(edges, x, y) && scanned(
                            order@,
                            i as int,
                            j + 1,
                            (x, y),
                        ) by {
                        if reaches(edges, x, y) {
                            lemma_reaches_later(edges, order@, x, y);
                        }
                    }
                    assert(order@.contains(pair.0) && order@.contains(pair.1));
                    assert(is_disconnected_pair(edges, order@, pair));
                    assert forall|t: int| 0 <= t < apart.len() implies is_disconnected_pair(
                        edges,
                        order@,
                        #[trigger] apart[t],
                    ) && scanned(order@, i as int, j + 1, apart[t]) by {
                        if t < apart0.len() {
                            assert(apart[t] == apart0[t]);
                            assert(scanned(order@, i as int, j, apart0[t]));
                        }
                    }
                    assert forall|p: (NodeId, NodeId)| #[trigger]
                        is_disconnected_pair(edges, order@, p) && scanned(
                            order@,
                            i as int,
                            j + 1,
                            p,
                        ) implies apart.contains(p) by {
                        lemma_push_has(apart0, pair, p);
                        if p != pair {
                            assert(scanned(order@, i as int, j, p));
                            assert(apart0.contains(p));
                        }
                    }
                    assert forall|t: int, u: int| 0 <= t < u < apart.len() implies pair_before(
                        order@,
                        #[trigger] apart[t],
                        #[trigger] apart[u],
                    ) by {
                        assert(apart[t] == apart0[t]);
                        if u < apart0.len() {
                            assert(apart[u] == apart0[u]);
                        } else {
                            assert(scanned(order@, i as int, j, apart0[t]));
                            assert(is_disconnected_pair(edges, order@, apart0[t]));
                            lemma_rank_of_member(order@, apart0[t].0);
                        }
                    }
                }
            }
            place += 1;
        }
        proof {
            assert(place - i * n == n);
            assert forall|a: NodeId, b: NodeId| #[trigger]
                connected.items().contains((a, b)) <==> reaches(edges, a, b) && scanned(
                    order@,
                    i + 1,
                    0,
                    (a, b),
                ) by {
                if reaches(edges, a, b) {
                    lemma_reaches_later(edges, order@, a, b);
                    lemma_rank_of_member(order@, b);
                }
            }
            assert forall|t: int| 0 <= t < disconnected@.len() implies is_disconnected_pair(
                edges,
                order@,
                #[trigger] disconnected@[t],
            ) && scanned(order@, i + 1, 0, disconnected@[t]) by {
                assert(scanned(order@, i as int, n as int, disconnected@[t]));
            }
            assert forall|p: (NodeId, NodeId)| #[trigger]
                is_disconnected_pair(edges, order@, p) && scanned(
                    order@,
                    i + 1,
                    0,
                    p,
                ) implies disconnected@.contains(p) by {
                lemma_rank_of_member(order@, p.1);
                assert(scanned(order@, i as int, n as int, p));
            }
        }
        i += 1;
    }
    proof {
        assert forall|a: NodeId, b: NodeId| #[trigger]
            connected.items().contains((a, b)) <==> reaches(edges, a, b) by {
            if reaches(edges, a, b) {
                lemma_reaches_later(edges, order@, a, b);
                lemma_rank_of_member(order@, b);
            }
        }
        assert forall|p: (NodeId, NodeId)| #[trigger]
            is_disconnected_pair(edges, order@, p) implies disconnected@.contains(p) by {
            lemma_rank_of_member(order@, p.1);
            assert(scanned(order@, i as int, 0, p));
        }
    }
    (connected, disconnected)
}

/// Analyses a graph whose nodes stand in the topological order
/// `topological_order`: which node reaches which, which edges are
/// redundant, what is left without them, and which pairs of nodes no path
/// joins.
///
/// The nodes are worked through from the last to the first, the successors
/// of each from the first to the last. A successor that no earlier
/// successor reaches keeps its edge; what it reaches is marked and reached
/// from the node too. An edge to a marked successor is redundant.
pub fn check_graph(graph: &DiGraph, topological_order: &Vec<NodeId>) -> (res: CheckGraphResults)
    requires
        graph.well_formed(),
        is_topological_order(graph, topological_order@),
        topological_order@.len() * topological_order@.len() <= usize::MAX,
    ensures
        res.describes(graph.edges(), topological_order@),
{
    let ghost edges = graph.edges();
    let ghost order = topological_order@;
    proof {
        lemma_topological_follows(graph, order);
    }
    let n = graph.node_count();
    if n == 0 {
        let res = CheckGraphResults::default();
        proof {
            assert(res.transitive_reduction.nodes() =~= order);
            assert(res.transitive_closure.nodes() =~= order);
            assert(order.len() * order.len() == 0) by (nonlinear_arith)
                requires
                    order.len() == 0,
            ;
            assert forall|a: NodeId, b: NodeId| !reaches(edges, a, b) by {
                if reaches(edges, a, b) {
                    lemma_reaches_later(edges, order, a, b);
                }
            }
            assert forall|a: NodeId, b: NodeId| !res.transitive_reduction.has_edge(a, b) by {
                assert(!res.transitive_reduction.edges().contains((a, b)));
            }
            assert forall|a: NodeId, b: NodeId| !res.transitive_closure.has_edge(a, b) by {
                assert(!res.transitive_closure.edges().contains((a, b)));
            }
            assert forall|a: NodeId| climbs(
                order,
                #[trigger] res.transitive_reduction.successors(a),
            ) by {
                let s = res.transitive_reduction.successors(a);
                if s.len() > 0 {
                    assert(s.contains(s[0]));
                    assert(res.transitive_reduction.has_edge(a, s[0]));
                }
            }
            assert forall|a: NodeId, b: NodeId| !is_redundant(edges, a, b) by {
                if is_redundant(edges, a, b) {
                    assert(edges.contains((a, b)));
                    assert(order.contains(a));
                }
            }
            assert forall|p: (NodeId, NodeId)| !is_disconnected_pair(edges, order, p) by {}
            assert forall|a: NodeId, b: NodeId| !edges.contains((a, b)) by {
                if edges.contains((a, b)) {
                    assert(order.contains(a));
                }
            }
        }
        return res;
    }
    let (numbers, sorted) = ordered_copy(graph, topological_order);
    let mut reachable = bitset_with_capacity(n * n);
    let mut transitive_edges: Vec<(NodeId, NodeId)> = Vec::new();
    let nodes = sorted.node_list();
    let mut transitive_reduction = graph_of_nodes(&nodes);
    let mut transitive_closure = graph_of_nodes(&nodes);
    let mut visited = bitset_with_capacity(n);
    proof {
        lemma_no_edges(&transitive_reduction);
        lemma_no_edges(&transitive_closure);
        lemma_among_all(Seq::<NodeId>::empty());
        assert forall|x: NodeId, y: NodeId| !(rank(order, x) >= n && reaches(edges, x, y)) by {
            if reaches(edges, x, y) {
                lemma_reaches_later(edges, order, x, y);
                lemma_rank_of_member(order, x);
            }
        }
        assert forall|x: NodeId, y: NodeId| !(rank(order, x) >= n && edges.contains((x, y))) by {
            if edges.contains((x, y)) {
                lemma_rank_of_member(order, x);
            }
        }
        assert(closure_ok(&transitive_closure, edges, order, n as int, no_node(), Seq::empty(), 0));
        assert forall|x: NodeId| climbs(order, #[trigger] transitive_reduction.successors(x)) by {}
        assert(reduction_ok(
            &transitive_reduction,
            edges,
            order,
            n as int,
            no_node(),
            Seq::empty(),
            0,
        ));
        assert forall|i: int, j: int| 0 <= i < n && 0 <= j < n implies !#[trigger] bit_at(
            bitset_bits(reachable),
            i,
            j,
            n as int,
        ) by {
            lemma_cell_bounds(i, j, n as int);
        }
        assert(matrix_ok(bitset_bits(reachable), edges, order, n as int, Seq::empty(), 0));
        assert(seen_ok(bitset_bits(visited), edges, order, Seq::empty(), 0));
        assert forall|p: (NodeId, NodeId)|
            !#[trigger] met(edges, order, n as int, no_node(), Seq::empty(), 0, p) by {
            if is_redundant(edges, p.0, p.1) {
                assert(edges.contains((p.0, p.1)));
            }
        }
        assert(extra_ok(transitive_edges@, edges, order, n as int, no_node(), Seq::empty(), 0));
    }
    let mut r: usize = n;
    while r > 0
        invariant
            r <= n,
            n == order.len(),
            n >= 1,
            n * n <= usize::MAX,
            nodes@ == order,
            follows_order(edges, order),
            numbered(node_numbers(numbers), order),
            mirrors(&sorted, edges, order),
            closure_ok(&transitive_closure, edges, order, r as int, no_node(), Seq::empty(), 0),
            reduction_ok(&transitive_reduction, edges, order, r as int, no_node(), Seq::empty(), 0),
            matrix_ok(bitset_bits(reachable), edges, order, r as int, Seq::empty(), 0),
            seen_ok(bitset_bits(visited), edges, order, Seq::empty(), 0),
            extra_ok(transitive_edges@, edges, order, r as int, no_node(), Seq::empty(), 0),
        decreases r,
    {
        let a = nodes[r - 1];
        reduce_node(
            &mut transitive_reduction,
            &mut transitive_closure,
            &mut reachable,
            &mut visited,
            &mut transitive_edges,
            &sorted,
            &numbers,
            a,
            n,
            Ghost(edges),
            Ghost(order),
            Ghost(r as int),
        );
        r -= 1;
    }
    let (connected, disconnected) = partition_pairs(&reachable, topological_order, Ghost(edges));
    let res = CheckGraphResults {
        reachable,
        connected,
        disconnected,
        transitive_edges,
        transitive_reduction,
        transitive_closure,
    };
    proof {
        lemma_among_all(Seq::<NodeId>::empty());
        let extra = res.transitive_edges@;
        assert forall|a: NodeId, b: NodeId| #[trigger]
            res.transitive_closure.has_edge(a, b) <==> reaches(edges, a, b) by {
            if reaches(edges, a, b) {
                lemma_reaches_later(edges, order, a, b);
                lemma_rank_of_member(order, a);
            }
        }
        assert forall|a: NodeId, b: NodeId| #[trigger]
            res.transitive_reduction.has_edge(a, b) <==> edges.contains((a, b)) && !is_redundant(
                edges,
                a,
                b,
            ) by {
            if edges.contains((a, b)) {
                lemma_rank_of_member(order, a);
            }
        }
        assert forall|t: int| 0 <= t < extra.len() implies is_redundant(
            edges,
            (#[trigger] extra[t]).0,
            extra[t].1,
        ) by {
            assert(met(edges, order, 0, no_node(), Seq::empty(), 0, extra[t]));
        }
        assert forall|a: NodeId, b: NodeId| #[trigger]
            is_redundant(edges, a, b) implies extra.contains((a, b)) by {
            assert(edges.contains((a, b)));
            lemma_rank_of_member(order, a);
            assert(met(edges, order, 0, no_node(), Seq::empty(), 0, (a, b)));
        }
    }
    res
}

} // verus!
