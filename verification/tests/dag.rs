use dag_flow::engine::dag::{BuildDagError, Dag, DagBuilder, Edge, NodeData};
use std::sync::Arc;

fn position(order: &[u64], node: u64) -> usize {
    order.iter().position(|&n| n == node).unwrap()
}

#[test]
fn edge_new_keeps_its_ends() {
    let edge = Edge::new(3, 8);
    assert_eq!(edge.from, 3);
    assert_eq!(edge.to, 8);
}

#[test]
fn edge_default_joins_zero_to_zero() {
    let edge = Edge::default();
    assert_eq!(edge.from, 0);
    assert_eq!(edge.to, 0);
}

#[test]
fn node_data_new_has_no_neighbors() {
    let data = NodeData::new();
    assert!(data.in_neighbors.is_empty());
    assert!(data.out_neighbors.is_empty());
    let data = NodeData::default();
    assert!(data.in_neighbors.is_empty());
    assert!(data.out_neighbors.is_empty());
}

#[test]
fn node_data_from_keeps_both_lists() {
    let data = NodeData::from(vec![1, 2], vec![3]);
    assert_eq!(data.in_neighbors, vec![1, 2]);
    assert_eq!(data.out_neighbors, vec![3]);
    let copy = data.clone();
    assert_eq!(copy.in_neighbors, vec![1, 2]);
    assert_eq!(copy.out_neighbors, vec![3]);
}

#[test]
fn empty_builder_builds_an_empty_graph() {
    let dag = DagBuilder::new().build().unwrap();
    assert!(dag.graph().is_empty());
    assert!(dag.topological_order().is_empty());
    let dag = DagBuilder::default().build().unwrap();
    assert!(dag.graph().is_empty());
}

#[test]
fn new_dag_is_empty() {
    assert!(Dag::new().graph().is_empty());
    assert!(Dag::default().graph().is_empty());
    assert!(Dag::new().topological_order().is_empty());
}

#[test]
fn add_node_adds_an_isolated_node() {
    let mut builder = Dag::builder();
    builder.add_node(5);
    let dag = builder.build().unwrap();
    let graph = dag.graph();
    assert_eq!(graph.len(), 1);
    assert!(graph[&5].in_neighbors.is_empty());
    assert!(graph[&5].out_neighbors.is_empty());
}

#[test]
fn add_node_keeps_the_neighbors_of_a_present_node() {
    let mut builder = Dag::builder();
    builder.add_edge(Edge::new(1, 2)).add_node(1).add_node(2);
    let dag = builder.build().unwrap();
    let graph = dag.graph();
    assert_eq!(graph.len(), 2);
    assert_eq!(graph[&1].out_neighbors, vec![2]);
    assert_eq!(graph[&2].in_neighbors, vec![1]);
}

#[test]
fn add_edge_creates_missing_ends() {
    let mut builder = Dag::builder();
    builder.add_edge(Edge::new(7, 9));
    let dag = builder.build().unwrap();
    let graph = dag.graph();
    assert_eq!(graph.len(), 2);
    assert!(graph[&7].in_neighbors.is_empty());
    assert_eq!(graph[&7].out_neighbors, vec![9]);
    assert_eq!(graph[&9].in_neighbors, vec![7]);
    assert!(graph[&9].out_neighbors.is_empty());
}

#[test]
fn add_edge_appends_in_the_order_of_the_calls() {
    let mut builder = Dag::builder();
    builder
        .add_edge(Edge::new(1, 4))
        .add_edge(Edge::new(1, 2))
        .add_edge(Edge::new(1, 3))
        .add_edge(Edge::new(3, 4))
        .add_edge(Edge::new(2, 4));
    let dag = builder.build().unwrap();
    let graph = dag.graph();
    assert_eq!(graph[&1].out_neighbors, vec![4, 2, 3]);
    assert_eq!(graph[&4].in_neighbors, vec![1, 3, 2]);
}

#[test]
fn add_edge_twice_is_add_edge_once() {
    let mut once = Dag::builder();
    once.add_edge(Edge::new(1, 2));
    let mut twice = Dag::builder();
    twice.add_edge(Edge::new(1, 2)).add_edge(Edge::new(1, 2));
    let once = once.build().unwrap().graph();
    let twice = twice.build().unwrap().graph();
    assert_eq!(once.len(), twice.len());
    for node in [1, 2] {
        assert_eq!(once[&node].in_neighbors, twice[&node].in_neighbors);
        assert_eq!(once[&node].out_neighbors, twice[&node].out_neighbors);
    }
    assert_eq!(twice[&1].out_neighbors, vec![2]);
    assert_eq!(twice[&2].in_neighbors, vec![1]);
}

#[test]
fn self_edge_never_changes_the_graph() {
    let mut builder = Dag::builder();
    builder.add_edge(Edge::new(4, 4));
    assert!(builder.clone().build().unwrap().graph().is_empty());
    builder.add_edge(Edge::new(4, 5)).add_edge(Edge::new(4, 4)).add_edge(Edge::new(5, 5));
    let dag = builder.build().unwrap();
    let graph = dag.graph();
    assert_eq!(graph.len(), 2);
    assert!(graph[&4].in_neighbors.is_empty());
    assert_eq!(graph[&4].out_neighbors, vec![5]);
    assert_eq!(graph[&5].in_neighbors, vec![4]);
    assert!(graph[&5].out_neighbors.is_empty());
}

#[test]
fn adjacency_matches_the_declared_edges() {
    let declared = [(1, 2), (2, 3), (1, 2), (3, 3), (1, 3), (4, 3), (2, 3)];
    let mut builder = Dag::builder();
    builder.add_node(6);
    for (from, to) in declared {
        builder.add_edge(Edge::new(from, to));
    }
    let dag = builder.build().unwrap();
    let graph = dag.graph();
    let mut nodes: Vec<u64> = graph.keys().copied().collect();
    nodes.sort();
    assert_eq!(nodes, vec![1, 2, 3, 4, 6]);
    assert_eq!(graph[&1].out_neighbors, vec![2, 3]);
    assert_eq!(graph[&2].out_neighbors, vec![3]);
    assert!(graph[&3].out_neighbors.is_empty());
    assert_eq!(graph[&4].out_neighbors, vec![3]);
    assert!(graph[&6].out_neighbors.is_empty());
    assert!(graph[&1].in_neighbors.is_empty());
    assert_eq!(graph[&2].in_neighbors, vec![1]);
    assert_eq!(graph[&3].in_neighbors, vec![2, 1, 4]);
    assert!(graph[&4].in_neighbors.is_empty());
    assert!(graph[&6].in_neighbors.is_empty());
    for (node, data) in graph.iter() {
        for out in &data.out_neighbors {
            assert!(graph[out].in_neighbors.contains(node));
        }
        for dependency in &data.in_neighbors {
            assert!(graph[dependency].out_neighbors.contains(node));
        }
    }
}

#[test]
fn chain_builds() {
    let mut builder = Dag::builder();
    builder.add_node(1).add_edge(Edge::new(1, 2)).add_edge(Edge::new(2, 3));
    let dag = builder.build().unwrap();
    let graph = dag.graph();
    assert_eq!(graph[&1].out_neighbors, vec![2]);
    assert_eq!(graph[&2].in_neighbors, vec![1]);
    assert_eq!(graph[&3].in_neighbors, vec![2]);
    assert_eq!(dag.topological_order(), vec![1, 2, 3]);
}

#[test]
fn cycle_of_three_is_refused() {
    let mut builder = DagBuilder::new();
    builder.add_edge(Edge::new(1, 2)).add_edge(Edge::new(2, 3)).add_edge(Edge::new(3, 1));
    let error = builder.build().unwrap_err();
    assert_eq!(error, BuildDagError::Cycle);
    assert_eq!(error.message(), "cycle detected in directed graph");
}

#[test]
fn cycle_of_two_is_refused() {
    let mut builder = DagBuilder::new();
    builder.add_edge(Edge::new(1, 2)).add_edge(Edge::new(2, 1));
    assert_eq!(builder.build().unwrap_err(), BuildDagError::Cycle);
}

#[test]
fn cycle_behind_sound_nodes_is_refused() {
    let mut builder = DagBuilder::new();
    builder
        .add_node(9)
        .add_edge(Edge::new(1, 2))
        .add_edge(Edge::new(2, 3))
        .add_edge(Edge::new(3, 4))
        .add_edge(Edge::new(4, 2))
        .add_edge(Edge::new(4, 5));
    assert_eq!(builder.build().unwrap_err(), BuildDagError::Cycle);
}

#[test]
fn diamond_is_ordered_along_its_edges() {
    let edges = [(1, 2), (1, 3), (2, 4), (3, 4), (4, 5), (1, 5)];
    let mut builder = Dag::builder();
    for (from, to) in edges {
        builder.add_edge(Edge::new(from, to));
    }
    builder.add_node(6);
    let dag = builder.build().unwrap();
    let order = dag.topological_order();
    let mut sorted = order.clone();
    sorted.sort();
    assert_eq!(sorted, vec![1, 2, 3, 4, 5, 6]);
    for (from, to) in edges {
        assert!(position(&order, from) < position(&order, to));
    }
}

#[test]
fn graph_is_shared_not_copied() {
    let mut builder = Dag::builder();
    builder.add_edge(Edge::new(1, 2));
    let dag = builder.build().unwrap();
    let first = dag.graph();
    let second = dag.graph();
    assert!(Arc::ptr_eq(&first, &second));
    let copy = dag.clone();
    assert!(Arc::ptr_eq(&first, &copy.graph()));
    assert_eq!(copy.graph()[&1].out_neighbors, vec![2]);
}

#[test]
fn builder_clone_goes_its_own_way() {
    let mut builder = Dag::builder();
    builder.add_edge(Edge::new(1, 2));
    let mut copy = builder.clone();
    copy.add_edge(Edge::new(2, 1));
    assert_eq!(copy.build().unwrap_err(), BuildDagError::Cycle);
    let dag = builder.build().unwrap();
    assert_eq!(dag.graph()[&2].in_neighbors, vec![1]);
    assert!(dag.graph()[&2].out_neighbors.is_empty());
}

/// Whether edges, none of them from a node to itself, lead from `from` to
/// `to`.
fn reaches(edges: &[(u64, u64)], from: u64, to: u64, seen: &mut Vec<u64>) -> bool {
    for &(a, b) in edges {
        if a == from && a != b {
            if b == to {
                return true;
            }
            if !seen.contains(&b) {
                seen.push(b);
                if reaches(edges, b, to, seen) {
                    return true;
                }
            }
        }
    }
    false
}

/// Whether the edges, but for those from a node to itself, close a circle.
fn closes_a_circle(edges: &[(u64, u64)]) -> bool {
    edges.iter().any(|&(a, _)| reaches(edges, a, a, &mut Vec::new()))
}

/// A sequence of numbers that looks scattered and is the same at every run.
fn scattered(seed: u64, count: usize) -> Vec<u64> {
    let mut state = seed.wrapping_mul(6364136223846793005).wrapping_add(1442695040888963407);
    let mut numbers = Vec::new();
    for _ in 0..count {
        state = state.wrapping_mul(6364136223846793005).wrapping_add(1442695040888963407);
        numbers.push(state >> 33);
    }
    numbers
}

#[test]
fn build_fails_exactly_on_circles() {
    let mut refused = 0;
    let mut accepted = 0;
    for seed in 0..400 {
        let numbers = scattered(seed, 16);
        let nodes = 2 + numbers[0] % 6;
        let count = (numbers[1] % 7) as usize;
        let edges: Vec<(u64, u64)> = (0..count)
            .map(|i| (numbers[2 + 2 * i] % nodes, numbers[3 + 2 * i] % nodes))
            .collect();
        let mut builder = Dag::builder();
        for &(from, to) in &edges {
            builder.add_edge(Edge::new(from, to));
        }
        match builder.build() {
            Err(error) => {
                assert_eq!(error, BuildDagError::Cycle);
                assert!(closes_a_circle(&edges));
                refused += 1;
            }
            Ok(dag) => {
                assert!(!closes_a_circle(&edges));
                accepted += 1;
                let graph = dag.graph();
                let order = dag.topological_order();
                assert_eq!(order.len(), graph.len());
                for &(from, to) in &edges {
                    if from != to {
                        let outs = &graph[&from].out_neighbors;
                        let ins = &graph[&to].in_neighbors;
                        assert_eq!(outs.iter().filter(|&&n| n == to).count(), 1);
                        assert_eq!(ins.iter().filter(|&&n| n == from).count(), 1);
                        assert!(position(&order, from) < position(&order, to));
                    }
                }
                for (node, data) in graph.iter() {
                    for out in &data.out_neighbors {
                        assert!(edges.contains(&(*node, *out)));
                    }
                    for dependency in &data.in_neighbors {
                        assert!(edges.contains(&(*dependency, *node)));
                    }
                    assert!(edges.iter().any(|&(a, b)| a != b && (a == *node || b == *node)));
                }
            }
        }
    }
    assert!(refused > 20);
    assert!(accepted > 20);
}
