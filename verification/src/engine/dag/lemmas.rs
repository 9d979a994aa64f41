//! Facts about the graph model.

use super::model::{
    dependencies_first, edges, follows, follows_in_circle, graph_of, has_cycle, has_edge,
    is_cycle, is_end, is_partial_order, is_topological_order, is_walk, node_well_formed, pending,
    position, steps, well_formed, with_edge, with_node, GraphView,
};
use vstd::prelude::*;
use vstd::set_lib::lemma_len_subset;

verus! {

/// What a sequence holds after a push.
pub proof fn lemma_push_contains(s: Seq<u64>, last: u64, n: u64)
    ensures
        s.push(last).contains(n) <==> (s.contains(n) || last == n),
{
    if s.contains(n) {
        let i = choose|i: int| 0 <= i < s.len() && s[i] == n;
        assert(s.push(last)[i] == n);
    }
    if last == n {
        assert(s.push(last)[s.len() as int] == n);
    }
}

/// A push of a new element keeps a sequence free of duplicates.
pub proof fn lemma_push_no_duplicates(s: Seq<u64>, last: u64)
    requires
        s.no_duplicates(),
        !s.contains(last),
    ensures
        s.push(last).no_duplicates(),
{
}

/// Adding a node keeps a graph well formed.
pub proof fn lemma_with_node_well_formed(g: GraphView, node: u64)
    requires
        well_formed(g),
    ensures
        well_formed(with_node(g, node)),
{
}

/// Adding an edge keeps a graph well formed.
pub proof fn lemma_with_edge_well_formed(g: GraphView, from: u64, to: u64)
    requires
        well_formed(g),
    ensures
        well_formed(with_edge(g, from, to)),
{
    if from == to || has_edge(g, from, to) {
        return ;
    }
    let h = with_edge(g, from, to);
    let g1 = with_node(g, from);
    let g3 = with_node(g1, to);
    lemma_with_node_well_formed(g, from);
    lemma_with_node_well_formed(g1, to);
    lemma_push_no_duplicates(g3[from].out_neighbors, to);
    lemma_push_no_duplicates(g3[to].in_neighbors, from);
    assert forall|n: u64|
        h[from].out_neighbors.contains(n) <==> (g3[from].out_neighbors.contains(n) || n
            == to) by {
        lemma_push_contains(g3[from].out_neighbors, to, n);
    }
    assert forall|n: u64|
        h[to].in_neighbors.contains(n) <==> (g3[to].in_neighbors.contains(n) || n == from) by {
        lemma_push_contains(g3[to].in_neighbors, from, n);
    }
}

/// Adding an edge a second time changes nothing.
pub proof fn lemma_with_edge_idempotent(g: GraphView, from: u64, to: u64)
    ensures
        with_edge(with_edge(g, from, to), from, to) == with_edge(g, from, to),
{
    if from != to && !has_edge(g, from, to) {
        lemma_push_contains(with_node(g, from)[from].out_neighbors, to, to);
    }
}

/// An edge from a node to itself is never added.
pub proof fn lemma_self_edge_ignored(g: GraphView, node: u64)
    ensures
        with_edge(g, node, node) == g,
{
}

/// The edges of a graph after one was added: those it had, and the new
/// one unless it leads from a node to itself.
pub proof fn lemma_with_edge_edges(g: GraphView, from: u64, to: u64, a: u64, b: u64)
    ensures
        has_edge(with_edge(g, from, to), a, b) <==> (has_edge(g, a, b) || (from != to && a == from
            && b == to)),
{
    if from != to && !has_edge(g, from, to) {
        lemma_push_contains(with_node(g, from)[from].out_neighbors, to, b);
    }
}

/// The nodes of a well-formed graph after an edge was added: those it had,
/// and the ends of the edge unless it leads from a node to itself.
pub proof fn lemma_with_edge_nodes(g: GraphView, from: u64, to: u64, n: u64)
    requires
        well_formed(g),
    ensures
        with_edge(g, from, to).contains_key(n) <==> (g.contains_key(n) || (from != to && (n
            == from || n == to))),
{
}

/// The ends of a list of edges after one more was appended.
pub proof fn lemma_is_end_push(list: Seq<(u64, u64)>, last: (u64, u64), node: u64)
    ensures
        is_end(list.push(last), node) <==> (is_end(list, node) || (last.0 != last.1 && (last.0
            == node || last.1 == node))),
{
    let longer = list.push(last);
    if is_end(list, node) {
        let k = choose|k: int|
            0 <= k < list.len() && (#[trigger] list[k]).0 != list[k].1 && (list[k].0 == node
                || list[k].1 == node);
        assert(longer[k] == list[k]);
    }
    if last.0 != last.1 && (last.0 == node || last.1 == node) {
        assert(longer[list.len() as int] == last);
    }
}

/// What a sequence of pairs holds after a push.
proof fn lemma_push_contains_pair(list: Seq<(u64, u64)>, last: (u64, u64), pair: (u64, u64))
    ensures
        list.push(last).contains(pair) <==> (list.contains(pair) || last == pair),
{
    if list.contains(pair) {
        let i = choose|i: int| 0 <= i < list.len() && list[i] == pair;
        assert(list.push(last)[i] == pair);
    }
    if last == pair {
        assert(list.push(last)[list.len() as int] == pair);
    }
}

/// The graph of `nodes` and `list` is well formed; its nodes are `nodes`
/// and the ends of the edges that do not lead from a node to itself; and
/// those edges are its edges.
pub proof fn lemma_graph_of_edges(nodes: Seq<u64>, list: Seq<(u64, u64)>)
    ensures
        well_formed(graph_of(nodes, list)),
        forall|n: u64| #[trigger]
            graph_of(nodes, list).contains_key(n) <==> (nodes.contains(n) || is_end(list, n)),
        forall|a: u64, b: u64| #[trigger]
            has_edge(graph_of(nodes, list), a, b) <==> (a != b && list.contains((a, b))),
    decreases list.len(), nodes.len(),
{
    let g = graph_of(nodes, list);
    if list.len() > 0 {
        let rest = list.drop_last();
        let (from, to) = list.last();
        let before = graph_of(nodes, rest);
        lemma_graph_of_edges(nodes, rest);
        lemma_with_edge_well_formed(before, from, to);
        assert(list =~= rest.push(list.last()));
        assert forall|n: u64| g.contains_key(n) <==> (nodes.contains(n) || is_end(list, n)) by {
            lemma_with_edge_nodes(before, from, to, n);
            lemma_is_end_push(rest, list.last(), n);
        }
        assert forall|a: u64, b: u64| has_edge(g, a, b) <==> (a != b && list.contains((a, b))) by {
            lemma_with_edge_edges(before, from, to, a, b);
            lemma_push_contains_pair(rest, list.last(), (a, b));
        }
    } else if nodes.len() > 0 {
        let rest = nodes.drop_last();
        let before = graph_of(rest, list);
        lemma_graph_of_edges(rest, list);
        lemma_with_node_well_formed(before, nodes.last());
        assert(nodes =~= rest.push(nodes.last()));
        assert forall|n: u64| g.contains_key(n) <==> nodes.contains(n) by {
            lemma_push_contains(rest, nodes.last(), n);
        }
        assert forall|a: u64, b: u64| !has_edge(g, a, b) by {
            assert(!has_edge(before, a, b));
        }
    }
}

/// The edges of the graph of `nodes` and `list` are the edges of `list`
/// without those that lead from a node to itself, and no node has one of
/// them twice among its out-neighbours.
pub proof fn lemma_edge_set_of_edges(nodes: Seq<u64>, list: Seq<(u64, u64)>)
    ensures
        edges(graph_of(nodes, list)) == list.to_set().filter(|e: (u64, u64)| e.0 != e.1),
        forall|node: u64| #[trigger]
            graph_of(nodes, list).contains_key(node) ==> graph_of(
                nodes,
                list,
            )[node].out_neighbors.no_duplicates(),
{
    let g = graph_of(nodes, list);
    lemma_graph_of_edges(nodes, list);
    assert forall|e: (u64, u64)|
        edges(g).contains(e) <==> list.to_set().filter(|e: (u64, u64)| e.0 != e.1).contains(
            e,
        ) by {
        assert(has_edge(g, e.0, e.1) <==> (e.0 != e.1 && list.contains((e.0, e.1))));
    }
    assert(edges(g) =~= list.to_set().filter(|e: (u64, u64)| e.0 != e.1));
}

/// The graph of `nodes` and `list` has a cycle exactly when some closed
/// walk follows edges of `list`, none of them from a node to itself.
pub proof fn lemma_cycle_follows_edges(nodes: Seq<u64>, list: Seq<(u64, u64)>)
    ensures
        has_cycle(graph_of(nodes, list)) <==> exists|path: Seq<u64>| follows_in_circle(list, path),
{
    let g = graph_of(nodes, list);
    lemma_graph_of_edges(nodes, list);
    if has_cycle(g) {
        let path = choose|path: Seq<u64>| is_cycle(g, path);
        assert forall|i: int| 0 <= i < path.len() - 1 implies #[trigger] follows(list, path, i) by {
            assert(steps(g, path, i));
        }
        assert(follows_in_circle(list, path));
    }
    if exists|path: Seq<u64>| follows_in_circle(list, path) {
        let path = choose|path: Seq<u64>| follows_in_circle(list, path);
        assert forall|i: int| 0 <= i < path.len() - 1 implies #[trigger] steps(g, path, i) by {
            assert(follows(list, path, i));
        }
        assert forall|i: int| 0 <= i < path.len() implies g.contains_key(#[trigger] path[i]) by {
            if i < path.len() - 1 {
                assert(steps(g, path, i));
            } else {
                assert(steps(g, path, 0));
            }
        }
        assert(is_cycle(g, path));
    }
}

/// With nothing done, as many in-neighbours are pending as the node has.
pub proof fn lemma_pending_initial(g: GraphView, node: u64)
    requires
        well_formed(g),
        g.contains_key(node),
    ensures
        pending(g, Set::empty(), node).len() == g[node].in_neighbors.len(),
{
    g[node].in_neighbors.unique_seq_to_set();
    assert(pending(g, Set::empty(), node) =~= g[node].in_neighbors.to_set());
}

/// The pending in-neighbours of a node are finitely many.
pub proof fn lemma_pending_finite(g: GraphView, done: Set<u64>, node: u64)
    ensures
        pending(g, done, node).finite(),
{
    vstd::seq_lib::seq_to_set_is_finite(g[node].in_neighbors);
}

/// Marking `finished` as done takes it out of the pending in-neighbours of
/// each of its dependents, and changes nothing for the other nodes.
pub proof fn lemma_pending_step(g: GraphView, done: Set<u64>, finished: u64, node: u64)
    requires
        !done.contains(finished),
    ensures
        g[node].in_neighbors.contains(finished) ==> pending(g, done, node).len() >= 1 && pending(
            g,
            done.insert(finished),
            node,
        ).len() == pending(g, done, node).len() - 1,
        !g[node].in_neighbors.contains(finished) ==> pending(g, done.insert(finished), node)
            == pending(g, done, node),
{
    lemma_pending_finite(g, done, node);
    assert(pending(g, done.insert(finished), node) =~= pending(g, done, node).remove(finished));
}

/// No in-neighbour is pending exactly when all of them are done.
pub proof fn lemma_pending_none(g: GraphView, done: Set<u64>, node: u64)
    ensures
        pending(g, done, node).len() == 0 <==> (forall|n: u64| #[trigger]
            g[node].in_neighbors.contains(n) ==> done.contains(n)),
{
    lemma_pending_finite(g, done, node);
    if pending(g, done, node).len() == 0 {
        assert forall|n: u64| #[trigger] g[node].in_neighbors.contains(n) implies done.contains(
            n,
        ) by {
            if !done.contains(n) {
                assert(pending(g, done, node).contains(n));
            }
        }
    } else {
        vstd::set::axiom_set_choose_len(pending(g, done, node));
    }
}

/// A duplicate-free sequence of nodes of a graph is no longer than the
/// graph has nodes.
pub proof fn lemma_distinct_nodes_bounded(g: GraphView, nodes: Seq<u64>)
    requires
        g.dom().finite(),
        nodes.no_duplicates(),
        forall|i: int| 0 <= i < nodes.len() ==> g.contains_key(#[trigger] nodes[i]),
    ensures
        nodes.len() <= g.dom().len(),
{
    nodes.unique_seq_to_set();
    lemma_len_subset(nodes.to_set(), g.dom());
}

/// In an order that puts dependencies first, every edge leads forward.
pub proof fn lemma_edges_lead_forward(g: GraphView, order: Seq<u64>, i: int, j: int)
    requires
        well_formed(g),
        is_partial_order(g, order),
        0 <= i < order.len(),
        0 <= j < order.len(),
        has_edge(g, order[i], order[j]),
    ensures
        i < j,
{
    assert(dependencies_first(g, order, j));
}

/// Along a walk through ordered nodes the positions grow.
proof fn lemma_walk_climbs(g: GraphView, order: Seq<u64>, path: Seq<u64>, k: int)
    requires
        well_formed(g),
        is_partial_order(g, order),
        forall|n: u64| g.contains_key(n) ==> order.contains(n),
        is_walk(g, path),
        0 <= k < path.len(),
    ensures
        g.contains_key(path[k]),
        position(order, path[0]) + k <= position(order, path[k]),
    decreases k,
{
    if k > 0 {
        lemma_walk_climbs(g, order, path, k - 1);
        assert(steps(g, path, k - 1));
        let a = path[k - 1];
        let b = path[k];
        assert(order.contains(a));
        assert(order.contains(b));
        lemma_edges_lead_forward(g, order, position(order, a), position(order, b));
    }
}

/// In a topological order of a well-formed graph, a dependency stands
/// before each of its dependents.
pub proof fn lemma_dependency_comes_first(
    g: GraphView,
    order: Seq<u64>,
    dependency: u64,
    dependent: u64,
)
    requires
        well_formed(g),
        is_topological_order(g, order),
        has_edge(g, dependency, dependent),
    ensures
        order.contains(dependency),
        order.contains(dependent),
        position(order, dependency) < position(order, dependent),
{
    assert(order.contains(dependency));
    assert(order.contains(dependent));
}

/// An order of all nodes that puts dependencies first is a topological
/// order, and a graph that has one has no cycle.
pub proof fn lemma_order_excludes_cycles(g: GraphView, order: Seq<u64>)
    requires
        well_formed(g),
        is_partial_order(g, order),
        forall|n: u64| g.contains_key(n) ==> order.contains(n),
    ensures
        is_topological_order(g, order),
        !has_cycle(g),
{
    assert forall|i: int, j: int|
        0 <= i < order.len() && 0 <= j < order.len() && has_edge(
            g,
            order[i],
            order[j],
        ) implies i < j by {
        lemma_edges_lead_forward(g, order, i, j);
    }
    if has_cycle(g) {
        let path = choose|path: Seq<u64>| is_cycle(g, path);
        lemma_walk_climbs(g, order, path, path.len() - 1);
    }
}

/// The node reached from `start` by going `hops` times to a pending
/// in-neighbour.
spec fn ancestor(g: GraphView, done: Set<u64>, start: u64, hops: nat) -> u64
    decreases hops,
{
    if hops == 0 {
        start
    } else {
        pending(g, done, ancestor(g, done, start, (hops - 1) as nat)).choose()
    }
}

/// Where every node that is not done has a pending in-neighbour, the
/// ancestors of such a node are not done either, and each has an edge to
/// the one before it.
proof fn lemma_ancestors_stay_pending(g: GraphView, done: Set<u64>, start: u64, hops: nat)
    requires
        well_formed(g),
        g.contains_key(start),
        !done.contains(start),
        forall|n: u64|
            g.contains_key(n) && !done.contains(n) ==> #[trigger] pending(g, done, n).len() > 0,
    ensures
        g.contains_key(ancestor(g, done, start, hops)),
        !done.contains(ancestor(g, done, start, hops)),
        hops > 0 ==> has_edge(
            g,
            ancestor(g, done, start, hops),
            ancestor(g, done, start, (hops - 1) as nat),
        ),
    decreases hops,
{
    if hops > 0 {
        let before = (hops - 1) as nat;
        lemma_ancestors_stay_pending(g, done, start, before);
        let child = ancestor(g, done, start, before);
        lemma_pending_finite(g, done, child);
        vstd::set::axiom_set_choose_len(pending(g, done, child));
    }
}

/// Where some node is not done, and every node that is not done has a
/// pending in-neighbour, the graph has a cycle.
pub proof fn lemma_stuck_node_lies_behind_cycle(g: GraphView, done: Set<u64>, stuck: u64)
    requires
        well_formed(g),
        g.contains_key(stuck),
        !done.contains(stuck),
        forall|n: u64|
            g.contains_key(n) && !done.contains(n) ==> #[trigger] pending(g, done, n).len() > 0,
    ensures
        has_cycle(g),
{
    let count = g.dom().len() + 1;
    let trail = Seq::new(count, |k: int| ancestor(g, done, stuck, k as nat));
    assert forall|k: int| 0 <= k < trail.len() implies g.contains_key(#[trigger] trail[k]) by {
        lemma_ancestors_stay_pending(g, done, stuck, k as nat);
    }
    assert(!trail.no_duplicates()) by {
        if trail.no_duplicates() {
            lemma_distinct_nodes_bounded(g, trail);
        }
    }
    let (i, j) = choose|i: int, j: int|
        0 <= i < trail.len() && 0 <= j < trail.len() && i != j && trail[i] == trail[j];
    let (low, high) = if i < j {
        (i, j)
    } else {
        (j, i)
    };
    let path = Seq::new((high - low + 1) as nat, |t: int| trail[high - t]);
    assert forall|t: int| 0 <= t < path.len() - 1 implies #[trigger] steps(g, path, t) by {
        lemma_ancestors_stay_pending(g, done, stuck, (high - t) as nat);
    }
    assert(is_cycle(g, path));
}

} // verus!
