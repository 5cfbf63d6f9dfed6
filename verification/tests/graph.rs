use std::collections::HashSet;

use taudio::id::NumericId;
use taudio::pipeline::{Graph, NodeId};

fn n(k: usize) -> NodeId {
    NodeId::from_index(k - 1)
}

fn adj(ks: &[usize]) -> Vec<NodeId> {
    ks.iter().map(|&k| n(k)).collect()
}

fn edge(a: usize, b: usize) -> (NodeId, NodeId) {
    (n(a), n(b))
}

fn is_valid_topo_order(ord: &[NodeId], g: &Graph) -> bool {
    for (from, to) in g.edges() {
        let from_index = ord.iter().position(|&x| x == from);
        let to_index = ord.iter().position(|&x| x == to);

        match (from_index, to_index) {
            (Some(from_index), Some(to_index)) => {
                if from_index >= to_index {
                    return false;
                }
            }
            _ => return false,
        }
    }

    true
}

#[test]
fn edges() {
    let graph = Graph::from_adjacency(vec![adj(&[2, 3, 4]), adj(&[3]), adj(&[]), adj(&[1])]);

    let expected: HashSet<_> =
        [edge(1, 2), edge(2, 3), edge(1, 3), edge(1, 4), edge(4, 1)].into_iter().collect();

    let got: HashSet<_> = graph.edges().into_iter().collect();

    assert_eq!(expected, got);
}

#[test]
fn from_edges() {
    let graph = Graph::from_edges(vec![edge(1, 2), edge(4, 3), edge(2, 4)]);

    assert_eq!(graph.into_adjacency(), vec![adj(&[2]), adj(&[4]), adj(&[]), adj(&[3])]);
}

#[test]
fn transpose() {
    let g = Graph::from_adjacency(vec![adj(&[2, 3]), adj(&[3]), adj(&[1, 2])]);

    let h = g.transpose();

    assert_eq!(h.into_adjacency(), vec![adj(&[3]), adj(&[1, 3]), adj(&[1, 2])]);
}

#[test]
fn toposort() {
    let g = Graph::from_adjacency(vec![
        adj(&[3, 5, 6]),
        adj(&[5, 6]),
        adj(&[4, 5]),
        adj(&[]),
        adj(&[6]),
        adj(&[]),
    ]);

    let ord = g.toposort().expect("topological order must exist");

    assert!(is_valid_topo_order(&ord, &g));
}

#[test]
fn toposort_cycle() {
    let g = Graph::from_adjacency(vec![
        adj(&[3, 5, 6]),
        adj(&[5, 6]),
        adj(&[4, 5]),
        adj(&[]),
        adj(&[6]),
        adj(&[1]),
    ]);

    assert!(g.toposort().is_none());
}

#[test]
fn edge_list_is_in_adjacency_order() {
    let graph = Graph::from_adjacency(vec![adj(&[2, 3]), adj(&[]), adj(&[1])]);
    assert_eq!(graph.edges(), vec![edge(1, 2), edge(1, 3), edge(3, 1)]);
    assert_eq!(graph.count_edges(), 3);
    assert_eq!(graph.len(), 3);
    assert_eq!(graph.neighbors(n(1)), &adj(&[2, 3]));
}

#[test]
fn from_edges_of_nothing_is_empty() {
    let graph = Graph::from_edges(vec![]);
    assert_eq!(graph.len(), 0);
    assert_eq!(graph.toposort(), Some(vec![]));
}

#[test]
fn transposing_twice_gives_the_graph_back() {
    let g = Graph::from_adjacency(vec![adj(&[2, 3]), adj(&[3]), adj(&[1, 2])]);
    let back = g.transpose().transpose();
    assert_eq!(back.into_adjacency(), vec![adj(&[2, 3]), adj(&[3]), adj(&[1, 2])]);
}

#[test]
fn toposort_of_a_chain_is_the_chain() {
    let g = Graph::from_adjacency(vec![adj(&[2]), adj(&[3]), adj(&[])]);
    assert_eq!(g.toposort(), Some(vec![n(1), n(2), n(3)]));
    assert_eq!(g.toposort_acyclic(), vec![n(1), n(2), n(3)]);
}

#[test]
fn self_loop_is_a_cycle() {
    let g = Graph::from_adjacency(vec![adj(&[1])]);
    assert!(g.toposort().is_none());
}

#[test]
fn transpose_keeps_repeated_edges() {
    let g = Graph::from_adjacency(vec![adj(&[2, 2, 3]), adj(&[]), adj(&[1])]);
    let h = g.transpose();
    assert_eq!(h.edges(), vec![edge(1, 3), edge(2, 1), edge(2, 1), edge(3, 1)]);
    assert_eq!(h.count_edges(), h.edges().len());
    let back = h.transpose();
    assert_eq!(back.into_adjacency(), vec![adj(&[2, 2, 3]), adj(&[]), adj(&[1])]);
}

#[test]
fn from_edges_keeps_repeated_edges() {
    let g = Graph::from_edges(vec![edge(1, 2), edge(2, 3), edge(2, 3), edge(4, 3)]);
    assert_eq!(g.count_edges(), 4);
    assert_eq!(g.edges().len(), g.count_edges());
}
