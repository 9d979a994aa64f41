//! The model of an engine: the graph that declarations describe, and what
//! a run does to the result store.

use super::dag::model::{graph_of, GraphView};
use super::Declaration;
use crate::task::{declares, Task};
use std::collections::HashMap;
use vstd::prelude::*;

verus! {

/// The graph and the tasks of an engine.
pub struct EngineView<T> {
    pub graph: GraphView,
    pub tasks: Map<u64, T>,
}

/// The identifiers of the declaring tasks, in order.
pub open spec fn declared_ids(declarations: Seq<Declaration>) -> Seq<u64> {
    declarations.map_values(|declaration: Declaration| declaration.id)
}

/// The edges that one declaration asks for: from each dependency to the
/// declaring task.
pub open spec fn dependency_edges(declaration: Declaration) -> Seq<(u64, u64)> {
    declaration.dependencies@.map_values(|dependency: u64| (dependency, declaration.id))
}

/// The edges that the declarations ask for, in order.
pub open spec fn declared_edges(declarations: Seq<Declaration>) -> Seq<(u64, u64)>
    decreases declarations.len(),
{
    if declarations.len() == 0 {
        Seq::empty()
    } else {
        declared_edges(declarations.drop_last()) + dependency_edges(declarations.last())
    }
}

/// The graph that the declarations describe: a node for each declaring
/// task, then an edge for each declared dependency.
pub open spec fn declared_graph(declarations: Seq<Declaration>) -> GraphView {
    graph_of(declared_ids(declarations), declared_edges(declarations))
}

/// Each registered task was asked once, and `declarations` is what the
/// tasks answered.
pub open spec fn answers<T: Task>(tasks: Map<u64, T>, declarations: Seq<Declaration>) -> bool {
    &&& declared_ids(declarations).no_duplicates()
    &&& forall|id: u64|
        #![trigger declared_ids(declarations).contains(id)]
        #![trigger tasks.contains_key(id)]
        declared_ids(declarations).contains(id) <==> tasks.contains_key(id)
    &&& forall|i: int|
        0 <= i < declarations.len() ==> declares(
            tasks[(#[trigger] declarations[i]).id],
            declarations[i].dependencies@,
        )
}

/// Some declaration of `task` names `dependency`.
pub open spec fn depends(declarations: Seq<Declaration>, task: u64, dependency: u64) -> bool {
    exists|k: int|
        0 <= k < declarations.len() && (#[trigger] declarations[k]).id == task
            && declarations[k].dependencies@.contains(dependency)
}

/// `node` declares, or is named as a dependency by some declaration.
pub open spec fn mentions(declarations: Seq<Declaration>, node: u64) -> bool {
    exists|k: int|
        0 <= k < declarations.len() && ((#[trigger] declarations[k]).id == node
            || declarations[k].dependencies@.contains(node))
}

/// The in-neighbours of `node` that are in `published`; none for a node
/// that the graph does not have.
pub open spec fn ready_dependencies(g: GraphView, node: u64, published: Set<u64>) -> Set<u64> {
    Set::new(
        |dependency: u64|
            g.contains_key(node) && g[node].in_neighbors.contains(dependency)
                && published.contains(dependency),
    )
}

/// A run starts `node`: it is in the graph and a task is registered for it.
pub open spec fn starts<T>(engine: EngineView<T>, node: u64) -> bool {
    engine.graph.contains_key(node) && engine.tasks.contains_key(node)
}

/// The entry of `node` after a run is what `spawn` made of its task and of
/// the handles of its dependencies: one handle, a clone of the entry after
/// the run, for each in-neighbour that had an entry before the run or has
/// a task of its own. An in-neighbour with neither is left out.
pub open spec fn spawned<T, V: Clone, F: Fn(&T, HashMap<u64, V>) -> V>(
    engine: EngineView<T>,
    spawn: F,
    before: Map<u64, V>,
    after: Map<u64, V>,
    node: u64,
) -> bool {
    exists|inputs: HashMap<u64, V>|
        {
            &&& #[trigger] call_ensures(spawn, (&engine.tasks[node], inputs), after[node])
            &&& inputs@.dom() == ready_dependencies(
                engine.graph,
                node,
                before.dom().union(engine.tasks.dom()),
            )
            &&& forall|dependency: u64|
                inputs@.contains_key(dependency) ==> cloned(
                    after[dependency],
                    #[trigger] inputs@[dependency],
                )
        }
}

} // verus!
