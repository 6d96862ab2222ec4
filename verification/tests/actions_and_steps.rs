use autodiff_checkpoint::checkpoint::base::{Checkpoint, RetroForward};
use autodiff_checkpoint::graph::base::{CheckpointingAction, CheckpointingActions, Step};
use autodiff_checkpoint::graph::steps::{
    drain_steps, extend_steps, merge_steps, node_numbers, NodeSteps,
};
use autodiff_checkpoint::node::{Node, NodeID, NodeRef};
use std::collections::HashMap;
use std::sync::Arc;

type Replay = dyn RetroForward<i64>;
type AnyStep = dyn Step<Value = i64, Replay = Replay, Gradients = ()>;
type Actions = CheckpointingActions<i64, Replay>;

/// A step that carries a label, to tell steps of one node apart.
struct Labelled {
    node: NodeRef,
}

impl Step for Labelled {
    type Value = i64;
    type Replay = Replay;
    type Gradients = ();

    fn step(self: Box<Self>, _grads: &mut (), _checkpointer: &mut Checkpoint<i64, Replay>) {}

    fn node(&self) -> NodeRef {
        self.node.clone()
    }
}

fn steps(label: u64, values: &[u64]) -> NodeSteps<AnyStep> {
    let mut steps: NodeSteps<AnyStep> = HashMap::new();
    for value in values {
        let node = Arc::new(Node::new(NodeID::new(*value), vec![NodeID::new(label)]));
        steps.insert(*value, Box::new(Labelled { node }));
    }
    steps
}

/// The `(node, label)` pairs of a map, in the order of the nodes.
fn labels(steps: &NodeSteps<AnyStep>) -> Vec<(u64, u64)> {
    let mut labels: Vec<(u64, u64)> =
        steps.iter().map(|(k, s)| (*k, s.node().parents[0].value)).collect();
    labels.sort();
    labels
}

fn retain(value: u64, content: i64) -> CheckpointingAction<i64, Replay> {
    CheckpointingAction::Computed {
        node_ref: Arc::new(Node::new(NodeID::new(value), vec![])),
        state_content: content,
    }
}

fn actions(main: &[(u64, i64)], backup: &[(u64, i64)]) -> Actions {
    CheckpointingActions::new(
        main.iter().map(|(v, c)| retain(*v, *c)).collect(),
        backup.iter().map(|(v, c)| retain(*v, *c)).collect(),
    )
}

fn contents(actions: &[CheckpointingAction<i64, Replay>]) -> Vec<(u64, i64)> {
    actions
        .iter()
        .map(|a| match a {
            CheckpointingAction::Computed { node_ref, state_content } => {
                (node_ref.id.value, *state_content)
            }
            CheckpointingAction::Recompute { node_ref, .. } => (node_ref.id.value, -1),
        })
        .collect()
}

#[test]
fn actions_extend_appends_within_each_partition() {
    let mut first = actions(&[(1, 10), (2, 20)], &[(3, 30)]);
    first.extend(actions(&[(1, 11)], &[(4, 40), (3, 31)]));
    assert_eq!(contents(&first.main_actions), vec![(1, 10), (2, 20), (1, 11)]);
    assert_eq!(contents(&first.backup_actions), vec![(3, 30), (4, 40), (3, 31)]);
    assert_eq!(first.len(), 6);
}

#[test]
fn actions_len_counts_both_partitions() {
    assert_eq!(Actions::default().len(), 0);
    assert_eq!(actions(&[(1, 1)], &[]).len(), 1);
    assert_eq!(actions(&[], &[(1, 1), (2, 2)]).len(), 2);
    assert_eq!(actions(&[(5, 5), (6, 6)], &[(7, 7)]).len(), 3);
}

#[test]
fn actions_drain_leaves_none() {
    let mut held = actions(&[(1, 1)], &[(2, 2)]);
    let drained = held.drain();
    assert_eq!(contents(&drained.main_actions), vec![(1, 1)]);
    assert_eq!(contents(&drained.backup_actions), vec![(2, 2)]);
    assert_eq!(held.len(), 0);
    assert_eq!(held.drain().len(), 0);
}

#[test]
fn actions_merge_puts_the_larger_side_first() {
    let mut larger = actions(&[(1, 1), (2, 2)], &[(3, 3)]);
    larger.merge(actions(&[(4, 4)], &[(5, 5)]));
    assert_eq!(contents(&larger.main_actions), vec![(1, 1), (2, 2), (4, 4)]);
    assert_eq!(contents(&larger.backup_actions), vec![(3, 3), (5, 5)]);

    let mut smaller = actions(&[(4, 4)], &[]);
    smaller.merge(actions(&[(1, 1), (2, 2)], &[(3, 3)]));
    assert_eq!(contents(&smaller.main_actions), vec![(1, 1), (2, 2), (4, 4)]);
    assert_eq!(contents(&smaller.backup_actions), vec![(3, 3)]);

    let mut equal = actions(&[(1, 1)], &[]);
    equal.merge(actions(&[], &[(2, 2)]));
    assert_eq!(contents(&equal.main_actions), vec![(1, 1)]);
    assert_eq!(contents(&equal.backup_actions), vec![(2, 2)]);

    let mut tie = actions(&[(1, 1)], &[]);
    tie.merge(actions(&[(2, 2)], &[]));
    assert_eq!(contents(&tie.main_actions), vec![(2, 2), (1, 1)]);
}

#[test]
fn steps_drain_leaves_the_map_empty() {
    let mut map = steps(0, &[1, 2, 3]);
    let drained = drain_steps(&mut map);
    assert_eq!(labels(&drained), vec![(1, 0), (2, 0), (3, 0)]);
    assert!(map.is_empty());
    assert!(drain_steps(&mut map).is_empty());
}

#[test]
fn steps_extend_prefers_the_incoming_step() {
    let mut into = steps(0, &[1, 2]);
    extend_steps(&mut into, steps(9, &[2, 3]));
    assert_eq!(labels(&into), vec![(1, 0), (2, 9), (3, 9)]);
}

#[test]
fn steps_merge_folds_the_smaller_map_into_the_larger() {
    let mut larger = steps(1, &[1, 2, 3]);
    merge_steps(&mut larger, steps(2, &[3, 4]));
    assert_eq!(labels(&larger), vec![(1, 1), (2, 1), (3, 2), (4, 2)]);

    let mut smaller = steps(1, &[3]);
    merge_steps(&mut smaller, steps(2, &[3, 4]));
    assert_eq!(labels(&smaller), vec![(3, 1), (4, 2)]);

    let mut equal = steps(1, &[5, 6]);
    merge_steps(&mut equal, steps(2, &[6, 7]));
    assert_eq!(labels(&equal), vec![(5, 1), (6, 1), (7, 2)]);
}

#[test]
fn steps_merge_of_disjoint_maps_is_associative() {
    let mut left = steps(1, &[1, 2]);
    merge_steps(&mut left, steps(2, &[3]));
    merge_steps(&mut left, steps(3, &[4, 5, 6]));

    let mut inner = steps(2, &[3]);
    merge_steps(&mut inner, steps(3, &[4, 5, 6]));
    let mut right = steps(1, &[1, 2]);
    merge_steps(&mut right, inner);

    assert_eq!(labels(&left), labels(&right));
    assert_eq!(labels(&left), vec![(1, 1), (2, 1), (3, 2), (4, 3), (5, 3), (6, 3)]);
}

#[test]
fn node_numbers_lists_each_key_once() {
    let mut numbers = node_numbers(&steps(0, &[8, 3, 5]));
    numbers.sort();
    assert_eq!(numbers, vec![3, 5, 8]);
    assert!(node_numbers(&steps(0, &[])).is_empty());
}
