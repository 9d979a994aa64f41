//! The engine: a validated dependency graph together with the tasks that
//! were registered for its nodes, and the builder that derives the graph
//! from what the tasks declare.

use crate::context::Context;
use crate::task::{declares, identifies, Task};
use std::collections::HashMap;
use std::sync::Arc;
use vstd::prelude::*;

pub mod dag;
pub mod lemmas;
pub mod model;

use dag::kahn::keys_of;
use dag::lemmas::lemma_push_contains;
use dag::model::{has_cycle, is_topological_order, well_formed, with_edges, with_nodes, NodeView};
use dag::{share, BuildDagError, Dag, Edge};
use lemmas::{lemma_inputs_are_settled, lemma_spawned_stays};
use model::{
    answers, declared_edges, declared_graph, declared_ids, dependency_edges, ready_dependencies,
    spawned, starts, EngineView,
};

verus! {

/// What one task declared: its identifier and those of the tasks that it
/// depends on.
#[derive(Debug)]
pub struct Declaration {
    pub id: u64,
    pub dependencies: Vec<u64>,
}

/// Why the graph of an engine was refused.
#[derive(Clone, Copy, Debug, PartialEq, Eq, Structural)]
enum EngineErrorKind {
    DagBuildFailed(BuildDagError),
}

/// The engine could not be built.
#[derive(Clone, Copy, Debug, PartialEq, Eq, Structural)]
pub struct BuildEngineError {
    kind: EngineErrorKind,
}

impl BuildEngineError {
    /// The failure of the graph that lies behind this error.
    pub closed spec fn cause(&self) -> BuildDagError {
        match self.kind {
            EngineErrorKind::DagBuildFailed(cause) => cause,
        }
    }

    /// The error of an engine whose graph was refused for `cause`.
    pub fn new(cause: BuildDagError) -> (error: Self)
        ensures
            error.cause() == cause,
    {
        Self { kind: EngineErrorKind::DagBuildFailed(cause) }
    }

    /// What went wrong, in words.
    pub fn message(&self) -> (text: String)
        ensures
            text@ == "failed to build DAG"@,
    {
        "failed to build DAG".to_owned()
    }

    /// The failure of the graph that lies behind this error.
    pub fn source(&self) -> (cause: BuildDagError)
        ensures
            cause == self.cause(),
    {
        match self.kind {
            EngineErrorKind::DagBuildFailed(cause) => cause,
        }
    }
}

/// A validated dependency graph and the tasks registered for its nodes.
/// Neither changes once the engine is built.
pub struct Engine<T> {
    dag: Dag,
    tasks: Arc<HashMap<u64, T>>,
}

impl<T> Engine<T> {
    /// The graph and the tasks of the engine.
    pub closed spec fn view(&self) -> EngineView<T> {
        EngineView { graph: self.dag@, tasks: (*self.tasks)@ }
    }

    /// The invariant of an engine: its graph is well formed and has no
    /// cycle.
    pub open spec fn wf(&self) -> bool {
        well_formed(self@.graph) && !has_cycle(self@.graph)
    }

    /// An engine without nodes and without tasks.
    pub fn new() -> (engine: Self)
        ensures
            engine.wf(),
            engine@.graph == Map::<u64, NodeView>::empty(),
            engine@.tasks == Map::<u64, T>::empty(),
    {
        Self { dag: Dag::new(), tasks: Arc::new(HashMap::new()) }
    }

    /// A builder without tasks.
    pub fn builder() -> (builder: EngineBuilder<T>)
        ensures
            builder@ == Map::<u64, T>::empty(),
    {
        EngineBuilder::new()
    }

    /// The graph of the engine.
    pub fn dag(&self) -> (dag: &Dag)
        ensures
            dag@ == self@.graph,
            self.wf() ==> dag.wf(),
    {
        &self.dag
    }

    /// The task registered under `id`, if there is one.
    pub fn task(&self, id: &u64) -> (task: Option<&T>)
        ensures
            match task {
                Some(found) => self@.tasks.contains_key(*id) && *found == self@.tasks[*id],
                None => !self@.tasks.contains_key(*id),
            },
    {
        self.tasks.get(id)
    }

    /// The order in which a run starts the nodes: every node once, each
    /// after all the nodes that it depends on.
    pub fn schedule(&self) -> (order: Vec<u64>)
        requires
            self.wf(),
        ensures
            is_topological_order(self@.graph, order@),
    {
        self.dag.topological_order()
    }

    /// The handles that the task of `node` would be given now: a clone of
    /// the entry of each in-neighbour that has one in `context`.
    pub fn inputs<V: Clone>(&self, node: &u64, context: &Context<V>) -> (inputs: HashMap<u64, V>)
        ensures
            inputs@.dom() == ready_dependencies(self@.graph, *node, context@.dom()),
            forall|dependency: u64|
                inputs@.contains_key(dependency) ==> cloned(
                    context@[dependency],
                    #[trigger] inputs@[dependency],
                ),
    {
        let mut inputs: HashMap<u64, V> = HashMap::new();
        let graph = self.dag.graph();
        match graph.get(node) {
            Some(data) => {
                let mut k: usize = 0;
                while k < data.in_neighbors.len()
                    invariant
                        k <= data.in_neighbors.len(),
                        forall|dependency: u64|
                            inputs@.contains_key(dependency) <==> (data.in_neighbors@.take(
                                k as int,
                            ).contains(dependency) && context@.contains_key(dependency)),
                        forall|dependency: u64|
                            inputs@.contains_key(dependency) ==> cloned(
                                context@[dependency],
                                #[trigger] inputs@[dependency],
                            ),
                    decreases data.in_neighbors.len() - k,
                {
                    let dependency = data.in_neighbors[k];
                    proof {
                        let seen = data.in_neighbors@.take(k as int);
                        assert(data.in_neighbors@.take(k + 1) =~= seen.push(dependency));
                        assert forall|n: u64|
                            seen.push(dependency).contains(n) <==> (seen.contains(n) || n
                                == dependency) by {
                            lemma_push_contains(seen, dependency, n);
                        }
                    }
                    match context.get(&dependency) {
                        Some(handle) => {
                            inputs.insert(dependency, handle.clone());
                        },
                        None => {},
                    }
                    k += 1;
                }
                proof {
                    assert(data.in_neighbors@.take(k as int) =~= data.in_neighbors@);
                }
            },
            None => {},
        }
        inputs
    }

    /// Starts the task of every node, each after the tasks of the nodes
    /// that it depends on: `spawn` makes the handle of a task from the
    /// task and the handles of its dependencies, and the handle is stored
    /// in `context` under the node before the next node is looked at.
    /// Returns the nodes in the order in which they were looked at.
    pub fn run<V: Clone, F: Fn(&T, HashMap<u64, V>) -> V>(
        &self,
        context: &mut Context<V>,
        spawn: F,
    ) -> (order: Vec<u64>)
        requires
            self.wf(),
            forall|node: u64, inputs: HashMap<u64, V>|
                starts(self@, node) ==> #[trigger] call_requires(
                    spawn,
                    (&self@.tasks[node], inputs),
                ),
        ensures
            is_topological_order(self@.graph, order@),
            forall|node: u64|
                #![trigger final(context)@.contains_key(node)]
                final(context)@.contains_key(node) <==> (old(context)@.contains_key(node)
                    || starts(self@, node)),
            forall|node: u64|
                #![trigger final(context)@[node]]
                old(context)@.contains_key(node) && !starts(self@, node) ==> final(context)@[node]
                    == old(context)@[node],
            forall|node: u64|
                #![trigger starts(self@, node)]
                starts(self@, node) ==> spawned(
                    self@,
                    spawn,
                    old(context)@,
                    final(context)@,
                    node,
                ),
    {
        let order = self.schedule();
        let ghost engine = self@;
        let ghost before = old(context)@;
        let mut i: usize = 0;
        while i < order.len()
            invariant
                i <= order.len(),
                engine == self@,
                well_formed(engine.graph),
                is_topological_order(engine.graph, order@),
                forall|node: u64, inputs: HashMap<u64, V>|
                    starts(engine, node) ==> #[trigger] call_requires(
                        spawn,
                        (&engine.tasks[node], inputs),
                    ),
                forall|node: u64|
                    #![trigger context@.contains_key(node)]
                    context@.contains_key(node) <==> (before.contains_key(node) || (starts(
                        engine,
                        node,
                    ) && order@.take(i as int).contains(node))),
                forall|node: u64|
                    #![trigger context@[node]]
                    before.contains_key(node) && !(starts(engine, node) && order@.take(
                        i as int,
                    ).contains(node)) ==> context@[node] == before[node],
                forall|node: u64|
                    #![trigger starts(engine, node)]
                    starts(engine, node) && order@.take(i as int).contains(node) ==> spawned(
                        engine,
                        spawn,
                        before,
                        context@,
                        node,
                    ),
            decreases order.len() - i,
        {
            let node = order[i];
            let ghost earlier = context@;
            let ghost seen = order@.take(i as int);
            proof {
                assert(order@.take(i + 1) =~= seen.push(node));
                assert forall|n: u64| seen.push(node).contains(n) <==> (seen.contains(n) || n
                    == node) by {
                    lemma_push_contains(seen, node, n);
                }
                assert(order@.contains(node));
            }
            match self.tasks.get(&node) {
                Some(task) => {
                    let inputs = self.inputs(&node, context);
                    let handle = spawn(task, inputs);
                    context.set(node, handle);
                    proof {
                        lemma_inputs_are_settled(engine, order@, i as int, before, earlier);
                        assert(spawned(engine, spawn, before, context@, node)) by {
                            assert(call_ensures(
                                spawn,
                                (&engine.tasks[node], inputs),
                                context@[node],
                            ));
                        }
                        assert forall|n: u64|
                            starts(engine, n) && seen.contains(n) implies spawned(
                            engine,
                            spawn,
                            before,
                            context@,
                            n,
                        ) by {
                            lemma_spawned_stays(
                                engine,
                                spawn,
                                order@,
                                i as int,
                                before,
                                earlier,
                                context@,
                                n,
                            );
                        }
                    }
                },
                None => {},
            }
            i += 1;
        }
        proof {
            assert(order@.take(i as int) =~= order@);
        }
        order
    }
}

impl<T> Clone for Engine<T> {
    fn clone(&self) -> (engine: Self)
        ensures
            engine@ == self@,
            engine.wf() == self.wf(),
    {
        Self { dag: self.dag.clone(), tasks: share(&self.tasks) }
    }
}

impl<T> Default for Engine<T> {
    fn default() -> (engine: Self)
        ensures
            engine.wf(),
            engine@.graph == Map::<u64, NodeView>::empty(),
            engine@.tasks == Map::<u64, T>::empty(),
    {
        Self::new()
    }
}

/// Collects the tasks of an engine, each under its identifier.
pub struct EngineBuilder<T> {
    tasks: HashMap<u64, T>,
}

impl<T> EngineBuilder<T> {
    /// The registered tasks.
    pub closed spec fn view(&self) -> Map<u64, T> {
        self.tasks@
    }

    /// A builder without tasks.
    pub fn new() -> (builder: Self)
        ensures
            builder@ == Map::<u64, T>::empty(),
    {
        Self { tasks: HashMap::new() }
    }

    /// Whether a task is registered under `id`.
    pub fn exists_task_by_id(&self, id: &u64) -> (found: bool)
        ensures
            found == self@.contains_key(*id),
    {
        self.tasks.contains_key(id)
    }

    /// Takes out the task that is registered under `id`, if there is one.
    pub fn remove_task_by_id(&mut self, id: &u64) -> (ret: &mut Self)
        ensures
            ret@ == old(self)@.remove(*id),
            *final(self) == *final(ret),
    {
        self.tasks.remove(id);
        self
    }

    /// Whether a task is registered under the identifier of `task`.
    pub fn exists_task<U: Task>(&self, task: &U) -> (found: bool)
        ensures
            exists|id: u64| identifies(*task, id) && found == self@.contains_key(id),
    {
        let id = task.id();
        let found = self.exists_task_by_id(&id);
        assert(identifies(*task, id) && found == self@.contains_key(id));
        found
    }

    /// Takes out the task that is registered under the identifier of
    /// `task`, if there is one.
    pub fn remove_task<U: Task>(&mut self, task: &U) -> (ret: &mut Self)
        ensures
            exists|id: u64| identifies(*task, id) && ret@ == old(self)@.remove(id),
            *final(self) == *final(ret),
    {
        let id = task.id();
        let ret = self.remove_task_by_id(&id);
        assert(identifies(*task, id) && ret@ == old(self)@.remove(id));
        ret
    }

    /// Registers `task` under `id`, in place of a task that was registered
    /// under it before.
    pub fn add_task_by_id(&mut self, id: u64, task: T) -> (ret: &mut Self)
        ensures
            ret@ == old(self)@.insert(id, task),
            *final(self) == *final(ret),
    {
        self.tasks.insert(id, task);
        self
    }

    /// Builds the engine from the registered tasks and from what they
    /// declared: the graph gets a node for each declaring task and an edge
    /// for each declared dependency, and is refused if it has a cycle.
    pub fn build_from(self, declarations: &Vec<Declaration>) -> (result: Result<
        Engine<T>,
        BuildEngineError,
    >)
        ensures
            built(self@, declarations@, result),
    {
        let ghost list = declarations@;
        let ghost ids = declared_ids(list);
        let ghost nodes = with_nodes(Map::empty(), ids);
        let mut builder = Dag::builder();
        let mut i: usize = 0;
        while i < declarations.len()
            invariant
                i <= declarations.len(),
                list == declarations@,
                ids == declared_ids(list),
                builder.wf(),
                builder@ == with_nodes(Map::empty(), ids.take(i as int)),
            decreases declarations.len() - i,
        {
            proof {
                assert(ids.take(i + 1).drop_last() =~= ids.take(i as int));
            }
            builder.add_node(declarations[i].id);
            i += 1;
        }
        proof {
            assert(ids.take(i as int) =~= ids);
        }
        let mut i: usize = 0;
        while i < declarations.len()
            invariant
                i <= declarations.len(),
                list == declarations@,
                builder.wf(),
                builder@ == with_edges(nodes, declared_edges(list.take(i as int))),
            decreases declarations.len() - i,
        {
            let declaration = &declarations[i];
            let ghost earlier = declared_edges(list.take(i as int));
            let ghost wanted = dependency_edges(*declaration);
            let mut j: usize = 0;
            while j < declaration.dependencies.len()
                invariant
                    j <= declaration.dependencies.len(),
                    wanted == dependency_edges(*declaration),
                    builder.wf(),
                    builder@ == with_edges(nodes, earlier + wanted.take(j as int)),
                decreases declaration.dependencies.len() - j,
            {
                proof {
                    assert((earlier + wanted.take(j + 1)).drop_last() =~= earlier + wanted.take(
                        j as int,
                    ));
                }
                builder.add_edge(Edge::new(declaration.dependencies[j], declaration.id));
                j += 1;
            }
            proof {
                assert(wanted.take(j as int) =~= wanted);
                assert(list.take(i + 1).drop_last() =~= list.take(i as int));
            }
            i += 1;
        }
        proof {
            assert(list.take(i as int) =~= list);
        }
        match builder.build() {
            Ok(dag) => Ok(Engine { dag, tasks: Arc::new(self.tasks) }),
            Err(cause) => Err(BuildEngineError::new(cause)),
        }
    }
}

/// How `build_from` ends: with an engine that holds the declared graph and
/// the registered tasks where that graph has no cycle, and otherwise
/// with an error whose cause is the cycle.
pub open spec fn built<T>(
    tasks: Map<u64, T>,
    declarations: Seq<Declaration>,
    result: Result<Engine<T>, BuildEngineError>,
) -> bool {
    match result {
        Ok(engine) => {
            &&& !has_cycle(declared_graph(declarations))
            &&& engine.wf()
            &&& engine@.graph == declared_graph(declarations)
            &&& engine@.tasks == tasks
        },
        Err(error) => {
            &&& has_cycle(declared_graph(declarations))
            &&& error.cause() == BuildDagError::Cycle
        },
    }
}

impl<T: Task> EngineBuilder<T> {
    /// Registers `task` under its identifier, in place of a task that was
    /// registered under it before.
    pub fn add_task(&mut self, task: T) -> (ret: &mut Self)
        ensures
            exists|id: u64| identifies(task, id) && ret@ == old(self)@.insert(id, task),
            *final(self) == *final(ret),
    {
        let id = task.id();
        let ret = self.add_task_by_id(id, task);
        assert(identifies(task, id) && ret@ == old(self)@.insert(id, task));
        ret
    }

    /// Asks each registered task for its dependencies.
    pub fn declarations(&self) -> (declarations: Vec<Declaration>)
        ensures
            answers(self@, declarations@),
    {
        let ids = keys_of(&self.tasks);
        let mut declarations: Vec<Declaration> = Vec::new();
        let mut i: usize = 0;
        while i < ids.len()
            invariant
                i <= ids.len(),
                ids@.no_duplicates(),
                forall|n: u64| ids@.contains(n) <==> self.tasks@.contains_key(n),
                declarations.len() == i,
                declared_ids(declarations@) == ids@.take(i as int),
                forall|k: int|
                    0 <= k < declarations.len() ==> declares(
                        self@[(#[trigger] declarations[k]).id],
                        declarations[k].dependencies@,
                    ),
            decreases ids.len() - i,
        {
            let id = ids[i];
            assert(ids@.contains(id));
            let task = self.tasks.get(&id).unwrap();
            let dependencies = task.dependencies();
            declarations.push(Declaration { id, dependencies });
            i += 1;
        }
        proof {
            assert(ids@.take(i as int) =~= ids@);
        }
        declarations
    }

    /// Builds the engine: asks each registered task for its dependencies
    /// and goes on as `build_from` does.
    pub fn build(self) -> (result: Result<Engine<T>, BuildEngineError>)
        ensures
            exists|declarations: Seq<Declaration>| #[trigger]
                answers(self@, declarations) && built(self@, declarations, result),
    {
        let declarations = self.declarations();
        self.build_from(&declarations)
    }
}

impl<T> Default for EngineBuilder<T> {
    fn default() -> (builder: Self)
        ensures
            builder@ == Map::<u64, T>::empty(),
    {
        Self::new()
    }
}

} // verus!
