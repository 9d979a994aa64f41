//! Facts about the model of an engine.

use super::dag::lemmas::lemma_graph_of_edges;
use super::dag::model::{has_edge, is_end, is_topological_order, node_well_formed, well_formed};
use super::model::{
    declared_edges, declared_graph, declared_ids, dependency_edges, depends, mentions,
    ready_dependencies, spawned, starts, EngineView,
};
use super::Declaration;
use std::collections::HashMap;
use vstd::prelude::*;

verus! {

/// The edges that declarations ask for lead to each declaring task from
/// the dependencies that it names.
pub proof fn lemma_declared_edges(declarations: Seq<Declaration>, from: u64, to: u64)
    ensures
        declared_edges(declarations).contains((from, to)) <==> depends(declarations, to, from),
    decreases declarations.len(),
{
    if declarations.len() > 0 {
        let rest = declarations.drop_last();
        let last = declarations.last();
        let earlier = declared_edges(rest);
        let wanted = dependency_edges(last);
        lemma_declared_edges(rest, from, to);
        if earlier.contains((from, to)) {
            let i = choose|i: int| 0 <= i < earlier.len() && earlier[i] == (from, to);
            assert((earlier + wanted)[i] == (from, to));
        }
        if wanted.contains((from, to)) {
            let i = choose|i: int| 0 <= i < wanted.len() && wanted[i] == (from, to);
            assert((earlier + wanted)[earlier.len() + i] == (from, to));
        }
        if depends(declarations, to, from) {
            let k = choose|k: int|
                0 <= k < declarations.len() && (#[trigger] declarations[k]).id == to
                    && declarations[k].dependencies@.contains(from);
            if k < rest.len() {
                assert(rest[k] == declarations[k]);
            } else {
                let i = choose|i: int|
                    0 <= i < last.dependencies@.len() && last.dependencies@[i] == from;
                assert(wanted[i] == (from, to));
            }
        }
    }
}

/// The graph that declarations describe is well formed. Its nodes are the
/// declaring tasks and the dependencies that they name; it has an edge to
/// each declaring task from each dependency that the task names, but for
/// the task itself.
pub proof fn lemma_declared_graph(declarations: Seq<Declaration>)
    ensures
        well_formed(declared_graph(declarations)),
        forall|node: u64| #[trigger]
            declared_graph(declarations).contains_key(node) <==> mentions(declarations, node),
        forall|from: u64, to: u64| #[trigger]
            has_edge(declared_graph(declarations), from, to) <==> (from != to && depends(
                declarations,
                to,
                from,
            )),
{
    let ids = declared_ids(declarations);
    let list = declared_edges(declarations);
    let g = declared_graph(declarations);
    lemma_graph_of_edges(ids, list);
    assert forall|from: u64, to: u64|
        has_edge(g, from, to) <==> (from != to && depends(declarations, to, from)) by {
        lemma_declared_edges(declarations, from, to);
    }
    assert forall|node: u64| g.contains_key(node) <==> mentions(declarations, node) by {
        if is_end(list, node) {
            let i = choose|i: int|
                0 <= i < list.len() && (#[trigger] list[i]).0 != list[i].1 && (list[i].0 == node
                    || list[i].1 == node);
            lemma_declared_edges(declarations, list[i].0, list[i].1);
        }
        if mentions(declarations, node) {
            let k = choose|k: int|
                0 <= k < declarations.len() && ((#[trigger] declarations[k]).id == node
                    || declarations[k].dependencies@.contains(node));
            if declarations[k].id == node {
                assert(ids[k] == node);
            } else {
                let id = declarations[k].id;
                lemma_declared_edges(declarations, node, id);
            }
        }
    }
}

/// A dependency for which a task is registered is among the dependencies
/// whose handles its dependent is given, whatever the store held before
/// the run.
pub proof fn lemma_dependency_is_ready<T>(
    engine: EngineView<T>,
    before: Set<u64>,
    dependency: u64,
    dependent: u64,
)
    requires
        well_formed(engine.graph),
        has_edge(engine.graph, dependency, dependent),
        engine.tasks.contains_key(dependency),
    ensures
        ready_dependencies(engine.graph, dependent, before.union(engine.tasks.dom())).contains(
            dependency,
        ),
{
}

/// Before the node at `position` is started, its in-neighbours that have
/// an entry are those that had one before the run or have a task.
pub(crate) proof fn lemma_inputs_are_settled<T, V>(
    engine: EngineView<T>,
    order: Seq<u64>,
    position: int,
    before: Map<u64, V>,
    now: Map<u64, V>,
)
    requires
        is_topological_order(engine.graph, order),
        well_formed(engine.graph),
        0 <= position < order.len(),
        forall|node: u64|
            #![trigger now.contains_key(node)]
            now.contains_key(node) <==> (before.contains_key(node) || (starts(engine, node)
                && order.take(position).contains(node))),
    ensures
        ready_dependencies(engine.graph, order[position], now.dom()) == ready_dependencies(
            engine.graph,
            order[position],
            before.dom().union(engine.tasks.dom()),
        ),
        forall|dependency: u64|
            engine.graph[order[position]].in_neighbors.contains(dependency)
                ==> order.take(position).contains(dependency),
{
    let g = engine.graph;
    let node = order[position];
    assert(order.contains(node));
    assert forall|dependency: u64| g[node].in_neighbors.contains(dependency) implies order.take(
        position,
    ).contains(dependency) by {
        assert(order.contains(dependency));
        let j = choose|j: int| 0 <= j < order.len() && order[j] == dependency;
        assert(has_edge(g, order[j], order[position]));
        assert(order.take(position)[j] == dependency);
    }
}

/// Starting the node at `position` leaves what was said of the nodes
/// started before it as it was.
pub(crate) proof fn lemma_spawned_stays<T, V: Clone, F: Fn(&T, HashMap<u64, V>) -> V>(
    engine: EngineView<T>,
    spawn: F,
    order: Seq<u64>,
    position: int,
    before: Map<u64, V>,
    earlier: Map<u64, V>,
    now: Map<u64, V>,
    node: u64,
)
    requires
        is_topological_order(engine.graph, order),
        well_formed(engine.graph),
        0 <= position < order.len(),
        order.take(position).contains(node),
        starts(engine, node),
        spawned(engine, spawn, before, earlier, node),
        forall|n: u64|
            #![trigger now[n]]
            n != order[position] && earlier.contains_key(n) ==> now[n] == earlier[n],
        forall|n: u64|
            #![trigger earlier.contains_key(n)]
            earlier.contains_key(n) <==> (before.contains_key(n) || (starts(engine, n)
                && order.take(position).contains(n))),
    ensures
        spawned(engine, spawn, before, now, node),
{
    let g = engine.graph;
    let j = choose|j: int| 0 <= j < position && order.take(position)[j] == node;
    let inputs = choose|inputs: HashMap<u64, V>|
        {
            &&& #[trigger] call_ensures(spawn, (&engine.tasks[node], inputs), earlier[node])
            &&& inputs@.dom() == ready_dependencies(
                g,
                node,
                before.dom().union(engine.tasks.dom()),
            )
            &&& forall|dependency: u64|
                inputs@.contains_key(dependency) ==> cloned(
                    earlier[dependency],
                    #[trigger] inputs@[dependency],
                )
        };
    assert forall|dependency: u64| inputs@.contains_key(dependency) implies cloned(
        now[dependency],
        #[trigger] inputs@[dependency],
    ) by {
        assert(order.contains(dependency));
        let k = choose|k: int| 0 <= k < order.len() && order[k] == dependency;
        assert(has_edge(g, order[k], order[j]));
        assert(order.take(position)[k] == dependency);
    }
    assert(call_ensures(spawn, (&engine.tasks[node], inputs), now[node]));
}

} // verus!
