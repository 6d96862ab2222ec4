use autodiff_checkpoint::checkpoint::base::{
    Checkpoint, InnerStates, NodeTree, RetroForward, RetroForwards,
};
use autodiff_checkpoint::checkpoint::error::CheckpointError;
use autodiff_checkpoint::checkpoint::replay::Replay;
use autodiff_checkpoint::checkpoint::state::State;
use autodiff_checkpoint::node::{Node, NodeID};
use std::sync::atomic::{AtomicUsize, Ordering};
use std::sync::Arc;

type AnyReplay = dyn RetroForward<i64>;

/// Adds up the values of its inputs and counts how often it ran.
struct Sum {
    out: NodeID,
    inputs: Vec<NodeID>,
    runs: Arc<AtomicUsize>,
}

impl RetroForward<i64> for Sum {
    fn input_nodes(&self) -> Vec<NodeID> {
        self.inputs.clone()
    }

    fn forward(&self, states: &mut InnerStates<i64>) {
        self.runs.fetch_add(1, Ordering::SeqCst);
        let mut total = 0;
        for input in &self.inputs {
            total += states.get_owned_and_downcasted(input);
        }
        let n_required = states.get_ref(&self.out).unwrap().n_required();
        states.insert(self.out, State::Computed { state_content: total, n_required });
    }
}

fn id(value: u64) -> NodeID {
    NodeID::new(value)
}

fn ids(values: &[u64]) -> Vec<NodeID> {
    values.iter().map(|v| id(*v)).collect()
}

/// Builds an engine from `(node, parents)` edges, `(node, value, n_required)`
/// retained values and `(node, n_required)` pending nodes that add up their
/// parents.
fn engine(
    edges: &[(u64, &[u64])],
    retained: &[(u64, i64, usize)],
    pending: &[(u64, usize)],
    runs: &Arc<AtomicUsize>,
) -> Checkpoint<i64, AnyReplay> {
    let mut tree = NodeTree::default();
    for (node, parents) in edges {
        tree.insert(id(*node), Arc::new(Node::new(id(*node), ids(parents))));
    }
    let mut states = InnerStates::default();
    let mut replays: RetroForwards<i64, AnyReplay> = RetroForwards::default();
    for (node, n_required) in pending {
        let parents = edges.iter().find(|(n, _)| n == node).unwrap().1;
        states.insert(id(*node), State::Recompute { n_required: *n_required });
        let runs = runs.clone();
        let sum = move |values: Vec<i64>| -> i64 {
            runs.fetch_add(1, Ordering::SeqCst);
            values.iter().sum()
        };
        replays.insert(id(*node), Box::new(Replay::new(id(*node), ids(parents), sum)));
    }
    let mut checkpoint = Checkpoint::new(states, replays, tree);
    for (node, value, n_required) in retained {
        checkpoint.insert_pre_computed(
            id(*node),
            State::Computed { state_content: *value, n_required: *n_required },
        );
    }
    checkpoint
}

fn computed(checkpoint: &Checkpoint<i64, AnyReplay>, node: u64) -> Option<(i64, usize)> {
    match checkpoint.state(&id(node)) {
        Some(State::Computed { state_content, n_required }) => Some((*state_content, *n_required)),
        _ => None,
    }
}

fn pending(checkpoint: &Checkpoint<i64, AnyReplay>, node: u64) -> Option<usize> {
    match checkpoint.state(&id(node)) {
        Some(State::Recompute { n_required }) => Some(*n_required),
        _ => None,
    }
}

#[test]
fn shared_recompute_node_is_replayed_once() {
    let runs = Arc::new(AtomicUsize::new(0));
    let mut checkpoint = engine(
        &[(1, &[]), (2, &[]), (3, &[1, 2])],
        &[(1, 20, 1), (2, 22, 1)],
        &[(3, 2)],
        &runs,
    );
    assert_eq!(pending(&checkpoint, 3), Some(2));
    assert_eq!(checkpoint.topological_sort(id(3)), ids(&[1, 2, 3]));

    let first = checkpoint.get(id(3));
    assert_eq!(first, 42);
    assert_eq!(runs.load(Ordering::SeqCst), 1);
    assert_eq!(computed(&checkpoint, 3), Some((42, 1)));
    assert!(checkpoint.state(&id(1)).is_none());
    assert!(checkpoint.state(&id(2)).is_none());
    assert_eq!(checkpoint.topological_sort(id(3)), ids(&[3]));

    let second = checkpoint.get(id(3));
    assert_eq!(second, 42);
    assert_eq!(runs.load(Ordering::SeqCst), 1);
    assert!(checkpoint.state(&id(3)).is_none());
    assert_eq!(checkpoint.try_get(id(3)), Err(CheckpointError::NodeNotFound(id(3))));
}

#[test]
fn node_that_was_never_stored_is_not_found() {
    let runs = Arc::new(AtomicUsize::new(0));
    let mut checkpoint = engine(&[(1, &[])], &[(1, 7, 1)], &[], &runs);
    assert!(checkpoint.state(&id(5)).is_none());
    let error = checkpoint.try_get(id(5)).unwrap_err();
    assert_eq!(error, CheckpointError::NodeNotFound(id(5)));
    assert_eq!(error.node(), id(5));
    assert_eq!(checkpoint.try_topological_sort(id(5)), Err(CheckpointError::NodeNotFound(id(5))));
    assert_eq!(computed(&checkpoint, 1), Some((7, 1)));
    assert_eq!(checkpoint.try_get(id(1)), Ok(7));
}

#[test]
fn node_that_was_read_too_often_is_not_found() {
    let runs = Arc::new(AtomicUsize::new(0));
    let mut checkpoint = engine(&[(1, &[])], &[(1, 7, 2)], &[], &runs);
    assert_eq!(checkpoint.try_get(id(1)), Ok(7));
    assert_eq!(checkpoint.try_get(id(1)), Ok(7));
    assert_eq!(checkpoint.try_get(id(1)), Err(CheckpointError::NodeNotFound(id(1))));
}

#[test]
fn missing_ancestor_is_named() {
    // 3 is pending over 1 and 2, and 2 was never stored.
    let runs = Arc::new(AtomicUsize::new(0));
    let mut checkpoint =
        engine(&[(1, &[]), (2, &[]), (3, &[1, 2])], &[(1, 5, 1)], &[(3, 1)], &runs);
    assert_eq!(checkpoint.try_get(id(3)), Err(CheckpointError::NodeNotFound(id(2))));
    assert_eq!(runs.load(Ordering::SeqCst), 0);
    assert_eq!(computed(&checkpoint, 1), Some((5, 1)));
    assert_eq!(pending(&checkpoint, 3), Some(1));
}

#[test]
fn pending_node_without_edges_is_named() {
    let runs = Arc::new(AtomicUsize::new(0));
    let mut states: InnerStates<i64> = InnerStates::default();
    states.insert(id(4), State::Recompute { n_required: 1 });
    let mut checkpoint: Checkpoint<i64, AnyReplay> =
        Checkpoint::new(states, RetroForwards::default(), NodeTree::default());
    assert_eq!(checkpoint.try_get(id(4)), Err(CheckpointError::ParentsNotFound(id(4))));
    assert_eq!(
        checkpoint.try_topological_sort(id(4)),
        Err(CheckpointError::ParentsNotFound(id(4)))
    );
    assert_eq!(runs.load(Ordering::SeqCst), 0);
}

#[test]
fn pending_node_without_replay_is_named() {
    // 2 is pending over 1 and has a procedure; 1 is pending and has none.
    let runs = Arc::new(AtomicUsize::new(0));
    let mut tree = NodeTree::default();
    tree.insert(id(1), Arc::new(Node::new(id(1), vec![])));
    tree.insert(id(2), Arc::new(Node::new(id(2), ids(&[1]))));
    let mut states: InnerStates<i64> = InnerStates::default();
    states.insert(id(1), State::Recompute { n_required: 1 });
    states.insert(id(2), State::Recompute { n_required: 1 });
    let mut replays: RetroForwards<i64, AnyReplay> = RetroForwards::default();
    replays.insert(id(2), Box::new(Sum { out: id(2), inputs: ids(&[1]), runs: runs.clone() }));
    assert!(replays.contains(&id(2)));
    assert!(!replays.contains(&id(1)));
    assert!(tree.contains(&id(1)));
    assert!(!tree.contains(&id(3)));
    let mut checkpoint = Checkpoint::new(states, replays, tree);

    assert_eq!(checkpoint.try_topological_sort(id(2)), Ok(ids(&[1, 2])));
    assert_eq!(checkpoint.try_get(id(2)), Err(CheckpointError::RetroForwardNotFound(id(1))));
    assert_eq!(runs.load(Ordering::SeqCst), 0);
    assert_eq!(pending(&checkpoint, 1), Some(1));
    assert_eq!(pending(&checkpoint, 2), Some(1));
}

#[test]
fn value_is_read_as_often_as_it_is_expected() {
    let runs = Arc::new(AtomicUsize::new(0));
    let mut checkpoint = engine(&[(1, &[])], &[(1, 9, 3)], &[], &runs);
    assert_eq!(checkpoint.get(id(1)), 9);
    assert_eq!(computed(&checkpoint, 1), Some((9, 2)));
    assert_eq!(checkpoint.get(id(1)), 9);
    assert_eq!(computed(&checkpoint, 1), Some((9, 1)));
    assert_eq!(checkpoint.get(id(1)), 9);
    assert!(checkpoint.state(&id(1)).is_none());
    assert_eq!(runs.load(Ordering::SeqCst), 0);
}

#[test]
fn pending_ancestors_are_replayed_parents_first() {
    // 1 and 2 are retained; 3 = 1 + 2 and 4 = 3 + 2 are pending.
    let runs = Arc::new(AtomicUsize::new(0));
    let mut checkpoint = engine(
        &[(1, &[]), (2, &[]), (3, &[1, 2]), (4, &[3, 2])],
        &[(1, 1, 1), (2, 10, 2)],
        &[(3, 1), (4, 1)],
        &runs,
    );
    let order = checkpoint.topological_sort(id(4));
    assert_eq!(order, ids(&[1, 2, 3, 2, 4]));
    for (at, node) in order.iter().enumerate() {
        let parents: &[u64] = match node.value {
            3 => &[1, 2],
            4 => &[3, 2],
            _ => &[],
        };
        for parent in parents {
            assert!(order[..at].contains(&id(*parent)));
        }
    }

    assert_eq!(checkpoint.get(id(4)), 11 + 10);
    assert_eq!(runs.load(Ordering::SeqCst), 2);
    for node in 1..=4 {
        assert!(checkpoint.state(&id(node)).is_none());
    }
}

#[test]
fn pending_node_behind_two_pending_nodes_is_replayed_once() {
    // 3 = 1 + 2 is pending, and so are 4 and 5, which both read 3.
    let runs = Arc::new(AtomicUsize::new(0));
    let mut checkpoint = engine(
        &[(1, &[]), (2, &[]), (3, &[1, 2]), (4, &[3]), (5, &[3])],
        &[(1, 1, 1), (2, 10, 1)],
        &[(3, 2), (4, 1), (5, 1)],
        &runs,
    );
    assert_eq!(checkpoint.topological_sort(id(4)), ids(&[1, 2, 3, 4]));
    assert_eq!(checkpoint.get(id(4)), 11);
    assert_eq!(runs.load(Ordering::SeqCst), 2);
    assert_eq!(computed(&checkpoint, 3), Some((11, 1)));

    assert_eq!(checkpoint.topological_sort(id(5)), ids(&[3, 5]));
    assert_eq!(checkpoint.get(id(5)), 11);
    assert_eq!(runs.load(Ordering::SeqCst), 3);
    for node in 1..=5 {
        assert!(checkpoint.state(&id(node)).is_none());
    }
}

#[test]
fn node_used_up_before_its_step_is_named() {
    // 5 reads 3 and 4, and 4 reads 3: the walk comes to the parents of 3 twice,
    // and 1 is used up when it comes to it again.
    let runs = Arc::new(AtomicUsize::new(0));
    let mut checkpoint = engine(
        &[(1, &[]), (2, &[]), (3, &[1, 2]), (4, &[3, 2]), (5, &[3, 4])],
        &[(1, 1, 1), (2, 10, 2)],
        &[(3, 2), (4, 1), (5, 1)],
        &runs,
    );
    assert_eq!(checkpoint.try_topological_sort(id(5)), Ok(ids(&[1, 2, 3, 1, 2, 3, 2, 4, 5])));
    assert_eq!(checkpoint.try_get(id(5)), Err(CheckpointError::NodeNotFound(id(1))));
    // The steps before that have been taken: 3 is stored, 2 was read once.
    assert_eq!(runs.load(Ordering::SeqCst), 1);
    assert_eq!(computed(&checkpoint, 3), Some((11, 2)));
    assert_eq!(computed(&checkpoint, 2), Some((10, 1)));
    assert!(checkpoint.state(&id(1)).is_none());
    assert_eq!(pending(&checkpoint, 4), Some(1));
}

#[test]
fn replay_that_cannot_read_its_inputs_is_named() {
    // 3 reads 1 twice, and 1 is expected once.
    let runs = Arc::new(AtomicUsize::new(0));
    let mut checkpoint =
        engine(&[(1, &[]), (3, &[1, 1])], &[(1, 4, 1)], &[(3, 1)], &runs);
    assert_eq!(checkpoint.try_get(id(3)), Err(CheckpointError::InputsNotFound(id(3))));
    assert_eq!(runs.load(Ordering::SeqCst), 0);
    assert_eq!(computed(&checkpoint, 1), Some((4, 1)));
    assert_eq!(pending(&checkpoint, 3), Some(1));

    // With a second read expected it is resolved.
    let mut checkpoint =
        engine(&[(1, &[]), (3, &[1, 1])], &[(1, 4, 2)], &[(3, 1)], &runs);
    assert_eq!(checkpoint.try_get(id(3)), Ok(8));
}

#[test]
fn node_of_which_no_read_is_expected_is_named() {
    let runs = Arc::new(AtomicUsize::new(0));
    let mut checkpoint = engine(&[(1, &[])], &[(1, 4, 0)], &[], &runs);
    assert_eq!(checkpoint.try_get(id(1)), Err(CheckpointError::NotExpected(id(1))));
    assert_eq!(computed(&checkpoint, 1), Some((4, 0)));

    let mut checkpoint = engine(&[(1, &[]), (2, &[1])], &[(1, 4, 1)], &[(2, 0)], &runs);
    assert_eq!(checkpoint.try_get(id(2)), Err(CheckpointError::NotExpected(id(2))));
    assert_eq!(runs.load(Ordering::SeqCst), 1);
    assert_eq!(computed(&checkpoint, 2), Some((4, 0)));
    assert!(checkpoint.state(&id(1)).is_none());
}

#[test]
fn store_tells_which_reads_can_be_made() {
    let mut states: InnerStates<i64> = InnerStates::default();
    states.insert(id(1), State::Computed { state_content: 1, n_required: 2 });
    states.insert(id(2), State::Computed { state_content: 2, n_required: 1 });
    states.insert(id(3), State::Recompute { n_required: 5 });
    states.insert(id(4), State::Computed { state_content: 4, n_required: 0 });
    assert!(states.can_read_all(&ids(&[])));
    assert!(states.can_read_all(&ids(&[1, 2, 1])));
    assert!(!states.can_read_all(&ids(&[1, 2, 1, 1])));
    assert!(!states.can_read_all(&ids(&[2, 2])));
    assert!(!states.can_read_all(&ids(&[3])));
    assert!(!states.can_read_all(&ids(&[4])));
    assert!(!states.can_read_all(&ids(&[1, 9])));
}

#[test]
fn registry_tells_the_inputs_of_a_procedure() {
    let runs = Arc::new(AtomicUsize::new(0));
    let mut replays: RetroForwards<i64, AnyReplay> = RetroForwards::default();
    replays.insert(id(2), Box::new(Sum { out: id(2), inputs: ids(&[1, 7]), runs: runs.clone() }));
    replays.insert(id(3), Box::new(Replay::new(id(3), ids(&[2, 2]), |v: Vec<i64>| v[0])));
    assert_eq!(replays.inputs(&id(2)), Some(ids(&[1, 7])));
    assert_eq!(replays.inputs(&id(3)), Some(ids(&[2, 2])));
    assert_eq!(replays.inputs(&id(4)), None);
}

#[test]
fn stored_node_ends_the_walk() {
    // 2 is pending over 1, but 3 is stored: asking for 3 replays nothing.
    let runs = Arc::new(AtomicUsize::new(0));
    let mut checkpoint = engine(
        &[(1, &[]), (2, &[1]), (3, &[2])],
        &[(1, 4, 1), (3, 8, 1)],
        &[(2, 1)],
        &runs,
    );
    assert_eq!(checkpoint.topological_sort(id(3)), ids(&[3]));
    assert_eq!(checkpoint.get(id(3)), 8);
    assert_eq!(runs.load(Ordering::SeqCst), 0);
    assert_eq!(pending(&checkpoint, 2), Some(1));
    assert_eq!(computed(&checkpoint, 1), Some((4, 1)));
}

#[test]
fn replay_hands_the_inputs_over_in_order() {
    let mut states: InnerStates<String> = InnerStates::default();
    states.insert(id(1), State::Computed { state_content: "a".to_string(), n_required: 2 });
    states.insert(id(2), State::Computed { state_content: "b".to_string(), n_required: 1 });
    states.insert(id(3), State::Recompute { n_required: 4 });
    let join = |values: Vec<String>| -> String { values.join("-") };
    let replay = Replay::new(id(3), ids(&[2, 1, 1]), join);
    replay.forward(&mut states);
    assert!(states.get_ref(&id(1)).is_none());
    assert!(states.get_ref(&id(2)).is_none());
    assert_eq!(states.get_ref(&id(3)).unwrap().n_required(), 4);
    assert_eq!(states.get_ref(&id(3)).unwrap().get_state_content(), "b-a-a");
}

#[test]
fn maps_are_taken_over_by_the_constructors() {
    let mut states = std::collections::HashMap::new();
    states.insert(1u64, State::Computed { state_content: 7i64, n_required: 1 });
    let mut nodes = std::collections::HashMap::new();
    nodes.insert(1u64, Arc::new(Node::new(id(1), ids(&[4, 5]))));
    let mut procedures: std::collections::HashMap<u64, Box<AnyReplay>> =
        std::collections::HashMap::new();
    procedures.insert(2u64, Box::new(Replay::new(id(2), ids(&[1]), |v: Vec<i64>| v[0])));

    let states = InnerStates::new(states);
    let tree = NodeTree::new(nodes);
    let replays: RetroForwards<i64, AnyReplay> = RetroForwards::new(procedures);
    assert_eq!(states.get_ref(&id(1)).unwrap().n_required(), 1);
    assert!(states.get_ref(&id(2)).is_none());
    assert_eq!(tree.parents(&id(1)), ids(&[4, 5]));
    assert!(replays.contains(&id(2)));
    assert!(!replays.contains(&id(1)));
}

#[test]
fn store_insert_overwrites() {
    let mut states: InnerStates<i64> = InnerStates::default();
    assert!(states.get_ref(&id(1)).is_none());
    states.insert(id(1), State::Recompute { n_required: 4 });
    states.insert(id(1), State::Computed { state_content: 3, n_required: 2 });
    match states.get_ref(&id(1)) {
        Some(State::Computed { state_content, n_required }) => {
            assert_eq!((*state_content, *n_required), (3, 2));
        }
        _ => panic!("the later state is stored"),
    }
}

#[test]
fn store_read_counts_down_and_removes() {
    let mut states: InnerStates<String> = InnerStates::default();
    states.insert(id(7), State::Computed { state_content: "v".to_string(), n_required: 2 });
    assert_eq!(states.get_owned_and_downcasted(&id(7)), "v");
    assert_eq!(states.get_ref(&id(7)).unwrap().n_required(), 1);
    assert_eq!(states.get_ref(&id(7)).unwrap().get_state_content(), "v");
    assert_eq!(states.get_owned_and_downcasted(&id(7)), "v");
    assert!(states.get_ref(&id(7)).is_none());
}

#[test]
fn registry_forward_leaves_stored_nodes_alone() {
    let runs = Arc::new(AtomicUsize::new(0));
    let mut states: InnerStates<i64> = InnerStates::default();
    states.insert(id(1), State::Computed { state_content: 5, n_required: 1 });
    states.insert(id(2), State::Computed { state_content: 6, n_required: 1 });
    let mut replays: RetroForwards<i64, AnyReplay> = RetroForwards::default();
    replays.insert(id(2), Box::new(Sum { out: id(2), inputs: ids(&[1]), runs: runs.clone() }));

    replays.forward(&id(2), &mut states);
    assert_eq!(runs.load(Ordering::SeqCst), 0);
    assert_eq!(states.get_ref(&id(1)).unwrap().n_required(), 1);

    states.insert(id(2), State::Recompute { n_required: 3 });
    replays.forward(&id(2), &mut states);
    assert_eq!(runs.load(Ordering::SeqCst), 1);
    assert!(states.get_ref(&id(1)).is_none());
    match states.get_ref(&id(2)) {
        Some(State::Computed { state_content, n_required }) => {
            assert_eq!((*state_content, *n_required), (5, 3));
        }
        _ => panic!("the node is stored after its replay"),
    }
}

#[test]
fn registry_insert_replaces_the_procedure() {
    let first = Arc::new(AtomicUsize::new(0));
    let second = Arc::new(AtomicUsize::new(0));
    let mut states: InnerStates<i64> = InnerStates::default();
    states.insert(id(1), State::Recompute { n_required: 1 });
    let mut replays: RetroForwards<i64, AnyReplay> = RetroForwards::default();
    replays.insert(id(1), Box::new(Sum { out: id(1), inputs: vec![], runs: first.clone() }));
    replays.insert(id(1), Box::new(Sum { out: id(1), inputs: vec![], runs: second.clone() }));
    replays.forward(&id(1), &mut states);
    assert_eq!(first.load(Ordering::SeqCst), 0);
    assert_eq!(second.load(Ordering::SeqCst), 1);
}

#[test]
fn tree_gives_parents_in_order() {
    let mut tree = NodeTree::default();
    tree.insert(id(9), Arc::new(Node::new(id(9), ids(&[4, 2, 4]))));
    assert_eq!(tree.parents(&id(9)), ids(&[4, 2, 4]));
    tree.insert(id(9), Arc::new(Node::new(id(9), ids(&[1]))));
    assert_eq!(tree.parents(&id(9)), ids(&[1]));
}

#[test]
fn state_counts_expected_reads() {
    let pending: State<i64> = State::Recompute { n_required: 6 };
    let stored = State::Computed { state_content: 1i64, n_required: 0 };
    assert_eq!(pending.n_required(), 6);
    assert_eq!(stored.n_required(), 0);
    assert_eq!(*stored.get_state_content(), 1);
}
