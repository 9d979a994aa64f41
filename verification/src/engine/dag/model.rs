//! The mathematical model of a dependency graph: adjacency lists as
//! sequences, walks, cycles and topological orders.

use vstd::prelude::*;

verus! {

/// The neighbours of one node, as mathematical sequences.
pub struct NodeView {
    /// The direct dependencies of the node, in the order they were declared.
    pub in_neighbors: Seq<u64>,
    /// The direct dependents of the node, in the order they were declared.
    pub out_neighbors: Seq<u64>,
}

/// A graph as a map from each node to its neighbours.
pub type GraphView = Map<u64, NodeView>;

/// A node without neighbours.
pub open spec fn isolated() -> NodeView {
    NodeView { in_neighbors: Seq::empty(), out_neighbors: Seq::empty() }
}

/// The graph has the edge `from -> to`: `to` depends on `from`.
pub open spec fn has_edge(g: GraphView, from: u64, to: u64) -> bool {
    g.contains_key(from) && g[from].out_neighbors.contains(to)
}

/// The edges of the graph, each a pair (dependency, dependent).
pub open spec fn edges(g: GraphView) -> Set<(u64, u64)> {
    Set::new(|e: (u64, u64)| has_edge(g, e.0, e.1))
}

/// The adjacency lists of `node` are free of duplicates and of `node`
/// itself, and name only nodes of the graph.
pub open spec fn node_well_formed(g: GraphView, node: u64) -> bool {
    &&& g[node].in_neighbors.no_duplicates()
    &&& g[node].out_neighbors.no_duplicates()
    &&& !g[node].in_neighbors.contains(node)
    &&& !g[node].out_neighbors.contains(node)
    &&& forall|n: u64| #[trigger] g[node].in_neighbors.contains(n) ==> g.contains_key(n)
    &&& forall|n: u64| #[trigger] g[node].out_neighbors.contains(n) ==> g.contains_key(n)
}

/// The invariant of every graph that the builder holds: finitely many
/// nodes, well-formed adjacency lists, and `b` among the out-neighbours of
/// `a` exactly when `a` is among the in-neighbours of `b`.
pub open spec fn well_formed(g: GraphView) -> bool {
    &&& g.dom().finite()
    &&& forall|a: u64| #[trigger] g.contains_key(a) ==> node_well_formed(g, a)
    &&& forall|a: u64, b: u64|
        #![trigger g[a].out_neighbors.contains(b)]
        #![trigger g[b].in_neighbors.contains(a)]
        g.contains_key(a) && g.contains_key(b) ==> (g[a].out_neighbors.contains(b)
            <==> g[b].in_neighbors.contains(a))
}

/// The graph after `node` was added: unchanged where the node is present.
pub open spec fn with_node(g: GraphView, node: u64) -> GraphView {
    if g.contains_key(node) {
        g
    } else {
        g.insert(node, isolated())
    }
}

/// The graph after the edge `from -> to` was added. A self-edge and an edge
/// that is already present leave the graph as it is; otherwise missing
/// endpoints are created, `to` is appended to the out-neighbours of `from`
/// and `from` to the in-neighbours of `to`.
pub open spec fn with_edge(g: GraphView, from: u64, to: u64) -> GraphView {
    if from == to || has_edge(g, from, to) {
        g
    } else {
        let g1 = with_node(g, from);
        let g2 = g1.insert(
            from,
            NodeView {
                in_neighbors: g1[from].in_neighbors,
                out_neighbors: g1[from].out_neighbors.push(to),
            },
        );
        let g3 = with_node(g2, to);
        g3.insert(
            to,
            NodeView {
                in_neighbors: g3[to].in_neighbors.push(from),
                out_neighbors: g3[to].out_neighbors,
            },
        )
    }
}

/// The graph after each of `nodes` was added in turn.
pub open spec fn with_nodes(g: GraphView, nodes: Seq<u64>) -> GraphView
    decreases nodes.len(),
{
    if nodes.len() == 0 {
        g
    } else {
        with_node(with_nodes(g, nodes.drop_last()), nodes.last())
    }
}

/// The graph after each of `list` was added in turn as an edge from its
/// first component to its second.
pub open spec fn with_edges(g: GraphView, list: Seq<(u64, u64)>) -> GraphView
    decreases list.len(),
{
    if list.len() == 0 {
        g
    } else {
        with_edge(with_edges(g, list.drop_last()), list.last().0, list.last().1)
    }
}

/// The graph that results from adding `nodes` and then the edges `list` to
/// the empty graph.
pub open spec fn graph_of(nodes: Seq<u64>, list: Seq<(u64, u64)>) -> GraphView {
    with_edges(with_nodes(Map::empty(), nodes), list)
}

/// `node` is an end of one of the edges of `list` that do not lead from a
/// node to itself.
pub open spec fn is_end(list: Seq<(u64, u64)>, node: u64) -> bool {
    exists|k: int|
        0 <= k < list.len() && (#[trigger] list[k]).0 != list[k].1 && (list[k].0 == node
            || list[k].1 == node)
}

/// Position `i` of `path` is followed by one of its dependents.
pub open spec fn steps(g: GraphView, path: Seq<u64>, i: int) -> bool {
    has_edge(g, path[i], path[i + 1])
}

/// `path` leads through nodes of the graph, along an edge from each to
/// the next.
pub open spec fn is_walk(g: GraphView, path: Seq<u64>) -> bool {
    &&& path.len() >= 1
    &&& forall|i: int| 0 <= i < path.len() ==> g.contains_key(#[trigger] path[i])
    &&& forall|i: int| 0 <= i < path.len() - 1 ==> #[trigger] steps(g, path, i)
}

/// `path` is a walk of at least one edge that ends where it starts.
pub open spec fn is_cycle(g: GraphView, path: Seq<u64>) -> bool {
    &&& is_walk(g, path)
    &&& path.len() >= 2
    &&& path.first() == path.last()
}

/// Some node of the graph depends, directly or not, on itself.
pub open spec fn has_cycle(g: GraphView) -> bool {
    exists|path: Seq<u64>| is_cycle(g, path)
}

/// Position `i` of `path` is followed by another node, along an edge of
/// `list`.
pub open spec fn follows(list: Seq<(u64, u64)>, path: Seq<u64>, i: int) -> bool {
    path[i] != path[i + 1] && list.contains((path[i], path[i + 1]))
}

/// `path` follows edges of `list`, none of them from a node to itself,
/// and ends where it starts.
pub open spec fn follows_in_circle(list: Seq<(u64, u64)>, path: Seq<u64>) -> bool {
    &&& path.len() >= 2
    &&& path.first() == path.last()
    &&& forall|i: int| 0 <= i < path.len() - 1 ==> #[trigger] follows(list, path, i)
}

/// The place of `node` in `order`.
pub open spec fn position(order: Seq<u64>, node: u64) -> int {
    choose|i: int| 0 <= i < order.len() && order[i] == node
}

/// Every in-neighbour of `order[i]` stands before position `i`.
pub open spec fn dependencies_first(g: GraphView, order: Seq<u64>, i: int) -> bool {
    forall|n: u64| #[trigger]
        g[order[i]].in_neighbors.contains(n) ==> order.take(i).contains(n)
}

/// `order` names nodes of the graph, none twice, each after all of its
/// in-neighbours.
pub open spec fn is_partial_order(g: GraphView, order: Seq<u64>) -> bool {
    &&& order.no_duplicates()
    &&& forall|i: int| 0 <= i < order.len() ==> g.contains_key(#[trigger] order[i])
    &&& forall|i: int| 0 <= i < order.len() ==> #[trigger] dependencies_first(g, order, i)
}

/// `order` holds every node of the graph exactly once, and each edge leads
/// from an earlier position to a later one.
pub open spec fn is_topological_order(g: GraphView, order: Seq<u64>) -> bool {
    &&& order.no_duplicates()
    &&& forall|n: u64|
        #![trigger order.contains(n)]
        #![trigger g.contains_key(n)]
        order.contains(n) <==> g.contains_key(n)
    &&& forall|i: int, j: int|
        #![trigger has_edge(g, order[i], order[j])]
        0 <= i < order.len() && 0 <= j < order.len() && has_edge(g, order[i], order[j]) ==> i
            < j
}

/// The in-neighbours of `node` that are not in `done`.
pub open spec fn pending(g: GraphView, done: Set<u64>, node: u64) -> Set<u64> {
    g[node].in_neighbors.to_set().difference(done)
}

} // verus!
