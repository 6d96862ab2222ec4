use autodiff_checkpoint::checkpoint::base::{Checkpoint, RetroForward};
use autodiff_checkpoint::graph::base::{Graph, Step};
use autodiff_checkpoint::node::{Node, NodeID, NodeRef};
use std::sync::Arc;

type Replay = dyn RetroForward<i64>;
type AnyStep = dyn Step<Value = i64, Replay = Replay, Gradients = Vec<u64>>;

/// A step that records that it ran.
#[derive(Debug)]
struct Mark {
    node: NodeRef,
}

impl Step for Mark {
    type Value = i64;
    type Replay = Replay;
    type Gradients = Vec<u64>;

    fn step(self: Box<Self>, grads: &mut Vec<u64>, _checkpointer: &mut Checkpoint<i64, Replay>) {
        grads.push(self.node.id.value);
    }

    fn node(&self) -> NodeRef {
        self.node.clone()
    }
}

fn mark(value: u64, parents: &[u64]) -> Box<AnyStep> {
    let parents = parents.iter().map(|p| NodeID::new(*p)).collect();
    Box::new(Mark { node: Arc::new(Node::new(NodeID::new(value), parents)) })
}

fn graph_of(values: &[u64]) -> Graph<AnyStep> {
    let mut graph = Graph::new();
    for value in values {
        graph = graph.register(&NodeID::new(*value), mark(*value, &[]));
    }
    graph
}

fn sorted_keys(graph: Graph<AnyStep>) -> Vec<u64> {
    let mut keys: Vec<u64> = graph.steps().keys().copied().collect();
    keys.sort();
    keys
}

#[test]
fn new_graph_holds_no_step() {
    let graph: Graph<AnyStep> = Graph::new();
    assert!(graph.steps().is_empty());
    let graph: Graph<AnyStep> = Graph::default();
    assert!(graph.steps().is_empty());
    let graph: Graph<AnyStep> = Graph::default();
    assert_eq!(graph.checkpointing_actions_own().len(), 0);
}

#[test]
fn registered_steps_come_out_under_their_nodes() {
    let graph = graph_of(&[1, 2, 3]);
    let steps = graph.steps();
    assert_eq!(steps.len(), 3);
    for value in [1u64, 2, 3] {
        assert_eq!(steps.get(&value).unwrap().node().id, NodeID::new(value));
    }
}

#[test]
fn steps_are_drained_once() {
    let graph = graph_of(&[1, 2]);
    let other = graph.clone();
    assert_eq!(sorted_keys(graph), vec![1, 2]);
    assert!(other.steps().is_empty());
}

#[test]
fn handles_share_their_storage() {
    let graph = graph_of(&[1]);
    let other = graph.clone();
    let _graph = graph.register(&NodeID::new(2), mark(2, &[1]));
    assert_eq!(sorted_keys(other), vec![1, 2]);
}

#[test]
fn merging_a_graph_with_itself_changes_nothing() {
    let graph = graph_of(&[1, 2]);
    let other = graph.clone();
    let merged = graph.merge(other);
    assert_eq!(sorted_keys(merged), vec![1, 2]);
}

#[test]
fn merging_unites_the_steps_and_drains_the_other_graph() {
    let a = graph_of(&[1, 2, 3]);
    let b = graph_of(&[4]);
    let b_too = b.clone();
    let merged = a.merge(b);
    assert_eq!(sorted_keys(merged), vec![1, 2, 3, 4]);
    assert!(b_too.steps().is_empty());
}

#[test]
fn merging_in_either_grouping_gives_the_same_steps() {
    let left = graph_of(&[1, 2]).merge(graph_of(&[3])).merge(graph_of(&[4, 5, 6]));
    let right = graph_of(&[1, 2]).merge(graph_of(&[3]).merge(graph_of(&[4, 5, 6])));
    assert_eq!(sorted_keys(left), vec![1, 2, 3, 4, 5, 6]);
    assert_eq!(sorted_keys(right), vec![1, 2, 3, 4, 5, 6]);
}
