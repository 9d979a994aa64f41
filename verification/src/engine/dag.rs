//! Directed graphs of task identifiers: a builder that keeps the adjacency
//! lists consistent, and the validated, immutable graph it produces.

use std::collections::HashMap;
use std::sync::Arc;
use vstd::prelude::*;

pub(crate) mod kahn;
pub mod lemmas;
pub mod model;

use kahn::walk;
use lemmas::{
    lemma_order_excludes_cycles, lemma_stuck_node_lies_behind_cycle, lemma_with_edge_well_formed,
    lemma_with_node_well_formed,
};
use model::{
    has_cycle, is_cycle, is_topological_order, isolated, pending, steps, well_formed, with_edge,
    with_node, GraphView, NodeView,
};

verus! {

/// A directed edge: `to` depends on `from`.
#[derive(Clone, Copy, Debug)]
pub struct Edge {
    pub from: u64,
    pub to: u64,
}

impl Edge {
    /// The edge that makes `to` depend on `from`.
    pub fn new(from: u64, to: u64) -> (edge: Self)
        ensures
            edge.from == from,
            edge.to == to,
    {
        Self { from, to }
    }
}

impl Default for Edge {
    fn default() -> (edge: Self)
        ensures
            edge.from == 0,
            edge.to == 0,
    {
        Self { from: 0, to: 0 }
    }
}

/// The direct dependencies and the direct dependents of one node.
#[derive(Debug)]
pub struct NodeData {
    pub in_neighbors: Vec<u64>,
    pub out_neighbors: Vec<u64>,
}

impl View for NodeData {
    type V = NodeView;

    open spec fn view(&self) -> NodeView {
        NodeView { in_neighbors: self.in_neighbors@, out_neighbors: self.out_neighbors@ }
    }
}

impl NodeData {
    /// The data of a node without neighbours.
    pub fn new() -> (data: Self)
        ensures
            data@ == isolated(),
    {
        Self::from(Vec::new(), Vec::new())
    }

    /// The data of a node with the given neighbours.
    pub fn from(in_neighbors: Vec<u64>, out_neighbors: Vec<u64>) -> (data: Self)
        ensures
            data.in_neighbors == in_neighbors,
            data.out_neighbors == out_neighbors,
    {
        Self { in_neighbors, out_neighbors }
    }
}

impl Clone for NodeData {
    fn clone(&self) -> (data: Self)
        ensures
            data@ == self@,
    {
        let in_neighbors = self.in_neighbors.clone();
        let out_neighbors = self.out_neighbors.clone();
        Self { in_neighbors, out_neighbors }
    }
}

impl Default for NodeData {
    fn default() -> (data: Self)
        ensures
            data@ == isolated(),
    {
        Self::new()
    }
}

/// The model of an adjacency map: each node with the view of its data.
pub open spec fn graph_view(graph: Map<u64, NodeData>) -> GraphView {
    graph.map_values(|data: NodeData| data@)
}

/// Collects nodes and edges into a graph whose adjacency lists stay
/// consistent with each other.
#[derive(Debug)]
pub struct DagBuilder {
    graph: HashMap<u64, NodeData>,
}

impl DagBuilder {
    /// The graph collected so far.
    pub closed spec fn view(&self) -> GraphView {
        graph_view(self.graph@)
    }

    /// The invariant of the builder: its graph is well formed.
    pub open spec fn wf(&self) -> bool {
        well_formed(self@)
    }

    /// A builder without nodes.
    pub fn new() -> (builder: Self)
        ensures
            builder.wf(),
            builder@ == Map::<u64, NodeView>::empty(),
    {
        let builder = Self { graph: HashMap::new() };
        builder
    }

    /// Makes sure that `node` is in the graph; a node that is present keeps
    /// its neighbours.
    pub fn add_node(&mut self, node: u64) -> (ret: &mut Self)
        requires
            old(self).wf(),
        ensures
            ret.wf(),
            ret@ == with_node(old(self)@, node),
            *final(self) == *final(ret),
    {
        self.graph.entry(node).or_insert(NodeData::new());
        proof {
            lemma_with_node_well_formed(old(self)@, node);
            assert(self@ =~= with_node(old(self)@, node));
        }
        self
    }

    /// Declares that `edge.to` depends on `edge.from`. A self-edge and an
    /// edge that is already present change nothing.
    pub fn add_edge(&mut self, edge: Edge) -> (ret: &mut Self)
        requires
            old(self).wf(),
        ensures
            ret.wf(),
            ret@ == with_edge(old(self)@, edge.from, edge.to),
            *final(self) == *final(ret),
    {
        let from = edge.from;
        let to = edge.to;
        if from == to {
            return self;
        }
        let present = match self.graph.get(&from) {
            Some(data) => contains(&data.out_neighbors, to),
            None => false,
        };
        if present {
            return self;
        }
        self.graph.entry(from).or_insert(NodeData::new()).out_neighbors.push(to);
        self.graph.entry(to).or_insert(NodeData::new()).in_neighbors.push(from);
        proof {
            lemma_with_edge_well_formed(old(self)@, from, to);
            assert(self@ =~= with_edge(old(self)@, from, to));
        }
        self
    }

    /// Validates the graph: it becomes a `Dag` unless it has a cycle. The
    /// graph itself is handed on unchanged.
    pub fn build(self) -> (result: Result<Dag, BuildDagError>)
        requires
            self.wf(),
        ensures
            match result {
                Ok(dag) => !has_cycle(self@) && dag.wf() && dag@ == self@,
                Err(error) => has_cycle(self@) && error == BuildDagError::Cycle,
            },
    {
        let (order, degrees) = walk(&self.graph);
        let ghost g = self@;
        let ghost done = order@.to_set();
        if any_positive(&degrees) {
            proof {
                let stuck = choose|n: u64| degrees@.contains_key(n) && degrees@[n] > 0;
                lemma_stuck_node_lies_behind_cycle(g, done, stuck);
            }
            return Err(BuildDagError::Cycle);
        }
        proof {
            lemma_order_excludes_cycles(g, order@);
        }
        Ok(Dag { graph: Arc::new(self.graph) })
    }
}

impl Clone for DagBuilder {
    fn clone(&self) -> (builder: Self)
        ensures
            builder@ == self@,
            builder.wf() == self.wf(),
    {
        Self { graph: self.graph.clone() }
    }
}

impl Default for DagBuilder {
    fn default() -> (builder: Self)
        ensures
            builder.wf(),
            builder@ == Map::<u64, NodeView>::empty(),
    {
        Self::new()
    }
}

/// Why a graph was refused.
#[derive(Clone, Copy, Debug, PartialEq, Eq, Structural)]
pub enum BuildDagError {
    /// Some node depends, directly or not, on itself.
    Cycle,
}

impl BuildDagError {
    /// What went wrong, in words.
    pub fn message(&self) -> (text: String)
        ensures
            text@ == "cycle detected in directed graph"@,
    {
        "cycle detected in directed graph".to_owned()
    }
}

/// A validated graph: well formed and free of cycles. It is never changed
/// after it was built, and can be shared.
#[derive(Debug)]
pub struct Dag {
    graph: Arc<HashMap<u64, NodeData>>,
}

impl Dag {
    /// The adjacency of the graph.
    pub closed spec fn view(&self) -> GraphView {
        graph_view((*self.graph)@)
    }

    /// The invariant of a validated graph: it is well formed and has no
    /// cycle.
    pub open spec fn wf(&self) -> bool {
        well_formed(self@) && !has_cycle(self@)
    }

    /// The graph without nodes.
    pub fn new() -> (dag: Self)
        ensures
            dag.wf(),
            dag@ == Map::<u64, NodeView>::empty(),
    {
        let dag = Self { graph: Arc::new(HashMap::new()) };
        dag
    }

    /// The adjacency map of the graph, shared with this `Dag`.
    pub fn graph(&self) -> (graph: Arc<HashMap<u64, NodeData>>)
        ensures
            graph_view(graph@) == self@,
    {
        share(&self.graph)
    }

    /// The nodes of the graph, each once, every node after all the nodes
    /// that it depends on.
    pub fn topological_order(&self) -> (order: Vec<u64>)
        requires
            self.wf(),
        ensures
            is_topological_order(self@, order@),
    {
        let (order, _) = walk(&self.graph);
        proof {
            let g = self@;
            let done = order@.to_set();
            assert forall|n: u64| g.contains_key(n) implies order@.contains(n) by {
                if !order@.contains(n) {
                    lemma_stuck_node_lies_behind_cycle(g, done, n);
                }
            }
            lemma_order_excludes_cycles(g, order@);
        }
        order
    }

    /// A builder without nodes.
    pub fn builder() -> (builder: DagBuilder)
        ensures
            builder.wf(),
            builder@ == Map::<u64, NodeView>::empty(),
    {
        DagBuilder::new()
    }
}

impl Clone for Dag {
    fn clone(&self) -> (dag: Self)
        ensures
            dag@ == self@,
            dag.wf() == self.wf(),
    {
        Self { graph: share(&self.graph) }
    }
}

impl Default for Dag {
    fn default() -> (dag: Self)
        ensures
            dag.wf(),
            dag@ == Map::<u64, NodeView>::empty(),
    {
        Self::new()
    }
}

/// Whether `list` holds `node`.
fn contains(list: &Vec<u64>, node: u64) -> (found: bool)
    ensures
        found == list@.contains(node),
{
    let mut i: usize = 0;
    while i < list.len()
        invariant
            i <= list.len(),
            !list@.take(i as int).contains(node),
        decreases list.len() - i,
    {
        if list[i] == node {
            return true;
        }
        i += 1;
    }
    assert(list@.take(list.len() as int) =~= list@);
    false
}

/// Whether some node is left with a positive count.
fn any_positive(degrees: &HashMap<u64, usize>) -> (found: bool)
    ensures
        found <==> exists|n: u64| degrees@.contains_key(n) && degrees@[n] > 0,
{
    for degree in it: degrees.values()
        invariant
            it.seq().unref().to_set() == degrees@.values(),
            forall|i: int| 0 <= i < it.index() ==> *it.seq()[i] == 0,
        ensures
            forall|value: usize| degrees@.values().contains(value) ==> value == 0,
    {
        if *degree > 0 {
            proof {
                let value = it.seq().unref()[it.index() as int];
                assert(it.seq().unref().to_set().contains(value));
            }
            return true;
        }
    }
    assert forall|n: u64| degrees@.contains_key(n) implies degrees@[n] == 0 by {
        assert(degrees@.values().contains(degrees@[n]));
    }
    false
}

/// `Arc::clone` hands out one more pointer to the same allocation: the new
/// `Arc` holds the value that the given one holds.
#[verifier::external_body]
pub(crate) fn share<T>(shared: &Arc<T>) -> (other: Arc<T>)
    ensures
        other == *shared,
{
    Arc::clone(shared)
}

} // verus!
