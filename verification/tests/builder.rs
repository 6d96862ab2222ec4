use autodiff_checkpoint::checkpoint::base::{Checkpoint, InnerStates, RetroForward};
use autodiff_checkpoint::checkpoint::builder::build_checkpointer;
use autodiff_checkpoint::checkpoint::state::State;
use autodiff_checkpoint::graph::base::{CheckpointingAction, CheckpointingActions, Graph, Step};
use autodiff_checkpoint::graph::steps::NodeSteps;
use autodiff_checkpoint::node::{Node, NodeID, NodeRef};
use std::collections::HashMap;
use std::sync::Arc;

type Replay = dyn RetroForward<i64>;
type AnyStep = dyn Step<Value = i64, Replay = Replay, Gradients = ()>;
type Action = CheckpointingAction<i64, Replay>;

/// Stores a fixed value under its node.
struct Constant {
    out: NodeID,
    value: i64,
}

impl RetroForward<i64> for Constant {
    fn input_nodes(&self) -> Vec<NodeID> {
        Vec::new()
    }

    fn forward(&self, states: &mut InnerStates<i64>) {
        let n_required = states.get_ref(&self.out).unwrap().n_required();
        states.insert(self.out, State::Computed { state_content: self.value, n_required });
    }
}

struct Idle {
    node: NodeRef,
}

impl Step for Idle {
    type Value = i64;
    type Replay = Replay;
    type Gradients = ();

    fn step(self: Box<Self>, _grads: &mut (), _checkpointer: &mut Checkpoint<i64, Replay>) {}

    fn node(&self) -> NodeRef {
        self.node.clone()
    }
}

fn id(value: u64) -> NodeID {
    NodeID::new(value)
}

fn node(value: u64, parents: &[u64]) -> NodeRef {
    Arc::new(Node::new(id(value), parents.iter().map(|p| id(*p)).collect()))
}

fn retain(value: u64, content: i64) -> Action {
    CheckpointingAction::Computed { node_ref: node(value, &[]), state_content: content }
}

fn recompute(value: u64, content: i64) -> Action {
    CheckpointingAction::Recompute {
        node_ref: node(value, &[]),
        retro_forward: Box::new(Constant { out: id(value), value: content }),
    }
}

fn steps(edges: &[(u64, &[u64])]) -> NodeSteps<AnyStep> {
    let mut steps: NodeSteps<AnyStep> = HashMap::new();
    for (value, parents) in edges {
        steps.insert(*value, Box::new(Idle { node: node(*value, parents) }));
    }
    steps
}

fn computed(checkpoint: &Checkpoint<i64, Replay>, value: u64) -> Option<(i64, usize)> {
    match checkpoint.state(&id(value)) {
        Some(State::Computed { state_content, n_required }) => Some((*state_content, *n_required)),
        _ => None,
    }
}

fn pending(checkpoint: &Checkpoint<i64, Replay>, value: u64) -> Option<usize> {
    match checkpoint.state(&id(value)) {
        Some(State::Recompute { n_required }) => Some(*n_required),
        _ => None,
    }
}

#[test]
fn main_action_wins_over_backup_action() {
    let checkpoint =
        build_checkpointer::<AnyStep>(vec![retain(1, 10)], vec![recompute(1, 99)], &steps(&[]));
    assert_eq!(computed(&checkpoint, 1), Some((10, 1)));

    let mut checkpoint = build_checkpointer::<AnyStep>(
        vec![recompute(1, 10)],
        vec![retain(1, 99)],
        &steps(&[(1, &[])]),
    );
    assert_eq!(pending(&checkpoint, 1), Some(1));
    assert_eq!(checkpoint.get(id(1)), 10);
}

#[test]
fn backup_action_decides_nodes_without_main_action() {
    let mut checkpoint = build_checkpointer::<AnyStep>(
        vec![retain(1, 10)],
        vec![recompute(2, 5), retain(3, 6), retain(1, 0)],
        &steps(&[(1, &[]), (2, &[]), (3, &[])]),
    );
    assert_eq!(computed(&checkpoint, 1), Some((10, 1)));
    assert_eq!(pending(&checkpoint, 2), Some(1));
    assert_eq!(computed(&checkpoint, 3), Some((6, 1)));
    assert_eq!(checkpoint.get(id(2)), 5);
    assert!(checkpoint.state(&id(4)).is_none());
}

#[test]
fn first_registered_action_is_the_one_applied() {
    let checkpoint = build_checkpointer::<AnyStep>(
        vec![retain(1, 10), recompute(1, 20), retain(1, 30)],
        vec![recompute(2, 1), retain(2, 2)],
        &steps(&[]),
    );
    assert_eq!(computed(&checkpoint, 1), Some((10, 3)));
    assert_eq!(pending(&checkpoint, 2), Some(2));
}

#[test]
fn node_is_expected_as_often_as_it_was_registered() {
    let mut checkpoint = build_checkpointer::<AnyStep>(
        vec![recompute(3, 42), retain(1, 20), recompute(3, 42), retain(2, 22)],
        vec![retain(3, 0), retain(3, 0), retain(3, 0)],
        &steps(&[(3, &[])]),
    );
    assert_eq!(pending(&checkpoint, 3), Some(2));
    assert_eq!(computed(&checkpoint, 1), Some((20, 1)));
    assert_eq!(computed(&checkpoint, 2), Some((22, 1)));
    assert_eq!(checkpoint.get(id(3)), 42);
    assert_eq!(computed(&checkpoint, 3), Some((42, 1)));
    assert_eq!(checkpoint.get(id(3)), 42);
    assert!(checkpoint.state(&id(3)).is_none());
}

#[test]
fn no_action_gives_an_empty_store() {
    let checkpoint = build_checkpointer::<AnyStep>(vec![], vec![], &steps(&[(1, &[])]));
    assert!(checkpoint.state(&id(1)).is_none());
}

#[test]
fn tree_is_made_from_the_steps() {
    let mut checkpoint = build_checkpointer::<AnyStep>(
        vec![retain(1, 3), recompute(2, 4), recompute(3, 5)],
        vec![],
        &steps(&[(1, &[]), (2, &[1]), (3, &[2, 1])]),
    );
    assert_eq!(checkpoint.topological_sort(id(3)), vec![id(1), id(2), id(1), id(3)]);
    assert_eq!(checkpoint.get(id(3)), 5);
}

#[test]
fn graph_hands_its_actions_to_the_checkpointer_once() {
    let graph: Graph<AnyStep> = Graph::new();
    let graph = graph.register(&id(1), Box::new(Idle { node: node(1, &[]) }));
    graph.extend_checkpointing_actions(CheckpointingActions::new(vec![retain(1, 8)], vec![]));
    graph.extend_checkpointing_actions(CheckpointingActions::new(
        vec![retain(1, 9)],
        vec![recompute(2, 7)],
    ));

    let checkpoint = graph.build_checkpointer();
    assert_eq!(computed(&checkpoint, 1), Some((8, 2)));
    assert_eq!(pending(&checkpoint, 2), Some(1));

    let again = graph.build_checkpointer();
    assert!(again.state(&id(1)).is_none());
    assert!(again.state(&id(2)).is_none());
    assert_eq!(graph.steps().len(), 1);
}

#[test]
fn merged_graphs_pool_their_actions() {
    let a: Graph<AnyStep> = Graph::new();
    a.extend_checkpointing_actions(CheckpointingActions::new(
        vec![retain(1, 1), retain(2, 2)],
        vec![retain(3, 3)],
    ));
    let b: Graph<AnyStep> = Graph::new();
    b.extend_checkpointing_actions(CheckpointingActions::new(vec![retain(1, 100)], vec![]));

    let actions = a.merge(b).checkpointing_actions_own();
    let main: Vec<u64> = actions.main_actions.iter().map(|a| a.id().value).collect();
    let backup: Vec<u64> = actions.backup_actions.iter().map(|a| a.id().value).collect();
    assert_eq!(main, vec![1, 2, 1]);
    assert_eq!(backup, vec![3]);
    assert_eq!(actions.len(), 4);
}
