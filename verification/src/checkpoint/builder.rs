//! From the decisions of the forward pass to the engine of the backward pass.
use crate::checkpoint::base::{Checkpoint, InnerStates, NodeTree, RetroForward, RetroForwards};
use crate::checkpoint::state::State;
use crate::graph::base::{CheckpointingAction, Step};
use crate::graph::steps::{node_numbers, NodeSteps};
use crate::node::{by_node, NodeID};
use std::collections::HashMap;
use vstd::prelude::*;

verus! {

broadcast use vstd::std_specs::hash::group_hash_axioms;

/// Number of decisions about `node` among `actions`.
pub open spec fn registrations<V, R: RetroForward<V> + ?Sized>(
    actions: Seq<CheckpointingAction<V, R>>,
    node: NodeID,
) -> nat
    decreases actions.len(),
{
    if actions.len() == 0 {
        0
    } else if actions.last().node() == node {
        registrations(actions.drop_last(), node) + 1
    } else {
        registrations(actions.drop_last(), node)
    }
}

/// The first decision about `node` among `actions`.
pub open spec fn first_about<V, R: RetroForward<V> + ?Sized>(
    actions: Seq<CheckpointingAction<V, R>>,
    node: NodeID,
) -> Option<CheckpointingAction<V, R>>
    decreases actions.len(),
{
    if actions.len() == 0 {
        None
    } else {
        match first_about(actions.drop_last(), node) {
            Some(action) => Some(action),
            None => if actions.last().node() == node {
                Some(actions.last())
            } else {
                None
            },
        }
    }
}

/// The state in which a decision puts its node, when `reads` reads of the
/// node are expected.
pub open spec fn state_from<V, R: RetroForward<V> + ?Sized>(
    action: CheckpointingAction<V, R>,
    reads: nat,
) -> State<V> {
    match action {
        CheckpointingAction::Computed { state_content, .. } => State::Computed {
            state_content,
            n_required: reads as usize,
        },
        CheckpointingAction::Recompute { .. } => State::Recompute { n_required: reads as usize },
    }
}

/// The store after `actions` were applied in order, each to its node unless
/// the node was decided before. A node is expected to be read as often as
/// `counted` holds decisions about it.
pub open spec fn applied_states<V, R: RetroForward<V> + ?Sized>(
    states: Map<NodeID, State<V>>,
    actions: Seq<CheckpointingAction<V, R>>,
    counted: Seq<CheckpointingAction<V, R>>,
) -> Map<NodeID, State<V>>
    decreases actions.len(),
{
    if actions.len() == 0 {
        states
    } else {
        let before = applied_states(states, actions.drop_last(), counted);
        let node = actions.last().node();
        if before.contains_key(node) {
            before
        } else {
            before.insert(node, state_from(actions.last(), registrations(counted, node)))
        }
    }
}

/// The registry after `actions` were applied in order to a store that held
/// `states`: each decision to recompute a node that was not decided before
/// registers its procedure.
pub open spec fn applied_replays<V, R: RetroForward<V> + ?Sized>(
    states: Map<NodeID, State<V>>,
    replays: Map<NodeID, Box<R>>,
    actions: Seq<CheckpointingAction<V, R>>,
    counted: Seq<CheckpointingAction<V, R>>,
) -> Map<NodeID, Box<R>>
    decreases actions.len(),
{
    if actions.len() == 0 {
        replays
    } else {
        let before = applied_replays(states, replays, actions.drop_last(), counted);
        let decided = applied_states(states, actions.drop_last(), counted);
        match actions.last() {
            CheckpointingAction::Recompute { node_ref, retro_forward } => if decided.contains_key(
                node_ref.id,
            ) {
                before
            } else {
                before.insert(node_ref.id, retro_forward)
            },
            CheckpointingAction::Computed { .. } => before,
        }
    }
}

/// The store that the decisions of a forward pass lead to: the definite ones
/// are applied first, the others afterwards, to the nodes that are left.
pub open spec fn decided_states<V, R: RetroForward<V> + ?Sized>(
    main: Seq<CheckpointingAction<V, R>>,
    backup: Seq<CheckpointingAction<V, R>>,
) -> Map<NodeID, State<V>> {
    applied_states(applied_states(Map::empty(), main, main), backup, backup)
}

/// The registry that the decisions of a forward pass lead to.
pub open spec fn decided_replays<V, R: RetroForward<V> + ?Sized>(
    main: Seq<CheckpointingAction<V, R>>,
    backup: Seq<CheckpointingAction<V, R>>,
) -> Map<NodeID, Box<R>> {
    applied_replays(
        applied_states(Map::empty(), main, main),
        applied_replays(Map::empty(), Map::empty(), main, main),
        backup,
        backup,
    )
}

/// The edges of a graph: for each node that has a step, the parents that the
/// step names.
pub open spec fn tree_of<S: Step + ?Sized>(steps: Map<u64, Box<S>>) -> Map<NodeID, Seq<NodeID>> {
    by_node(steps).map_values(|step: Box<S>| step.place().parents@)
}

/// How often each node is decided about in `actions`.
fn count_registrations<V, R: RetroForward<V> + ?Sized>(
    actions: &Vec<CheckpointingAction<V, R>>,
) -> (counts: HashMap<u64, usize>)
    ensures
        forall|node: NodeID|
            registrations(actions@, node) > 0 <==> #[trigger] counts@.contains_key(node.value),
        forall|node: NodeID|
            #[trigger] counts@.contains_key(node.value) ==> counts@[node.value] == registrations(
                actions@,
                node,
            ),
{
    let mut counts: HashMap<u64, usize> = HashMap::new();
    let mut i: usize = 0;
    while i < actions.len()
        invariant
            i <= actions.len(),
            forall|node: NodeID|
                registrations(actions@.take(i as int), node) > 0 <==> #[trigger] counts@.contains_key(
                    node.value,
                ),
            forall|node: NodeID|
                #[trigger] counts@.contains_key(node.value) ==> counts@[node.value]
                    == registrations(actions@.take(i as int), node),
            forall|node: NodeID| #[trigger] registrations(actions@.take(i as int), node) <= i,
        decreases actions.len() - i,
    {
        let id = actions[i].id();
        proof {
            assert(actions@.take(i + 1).drop_last() =~= actions@.take(i as int));
            assert(actions@.take(i + 1).last() == actions@[i as int]);
            assert(counts@.contains_key(id.value) ==> counts@[id.value] <= i);
        }
        let seen = match counts.get(&id.value) {
            Some(count) => *count,
            None => 0,
        };
        counts.insert(id.value, seen + 1);
        proof {
            assert forall|node: NodeID| #[trigger]
                registrations(actions@.take(i + 1), node) <= i + 1 by {
                assert(registrations(actions@.take(i as int), node) <= i);
            }
            assert forall|node: NodeID|
                registrations(actions@.take(i + 1), node) > 0 <==> #[trigger] counts@.contains_key(
                    node.value,
                ) by {
                if node != id {
                    assert(node.value != id.value);
                }
            }
            assert forall|node: NodeID| #[trigger]
                counts@.contains_key(node.value) implies counts@[node.value] == registrations(
                actions@.take(i + 1),
                node,
            ) by {
                if node != id {
                    assert(node.value != id.value);
                }
            }
        }
        i += 1;
    }
    proof {
        assert(actions@.take(i as int) =~= actions@);
    }
    counts
}

/// Applies the decisions in order, each to its node unless the node is
/// decided already.
fn apply_actions<V, R: RetroForward<V> + ?Sized>(
    actions: Vec<CheckpointingAction<V, R>>,
    states: &mut InnerStates<V>,
    replays: &mut RetroForwards<V, R>,
)
    ensures
        final(states)@ == applied_states(old(states)@, actions@, actions@),
        final(replays)@ == applied_replays(old(states)@, old(replays)@, actions@, actions@),
{
    let counts = count_registrations(&actions);
    let ghost all = actions@;
    let ghost first_states = states@;
    let ghost first_replays = replays@;
    for action in iter: actions
        invariant
            all == iter.seq(),
            states@ == applied_states(first_states, all.take(iter.index() as int), all),
            replays@ == applied_replays(
                first_states,
                first_replays,
                all.take(iter.index() as int),
                all,
            ),
            forall|node: NodeID|
                registrations(all, node) > 0 <==> #[trigger] counts@.contains_key(node.value),
            forall|node: NodeID|
                #[trigger] counts@.contains_key(node.value) ==> counts@[node.value]
                    == registrations(all, node),
    {
        proof {
            assert(all.take(iter.index() + 1).drop_last() =~= all.take(iter.index() as int));
            assert(all.take(iter.index() + 1).last() == action);
            lemma_registered(all, iter.index() as int);
        }
        let id = action.id();
        if states.get_ref(&id).is_none() {
            let n_required = match counts.get(&id.value) {
                Some(count) => *count,
                None => 0,
            };
            match action {
                CheckpointingAction::Computed { node_ref: _, state_content } => {
                    states.insert(id, State::Computed { state_content, n_required });
                },
                CheckpointingAction::Recompute { node_ref: _, retro_forward } => {
                    states.insert(id, State::Recompute { n_required });
                    replays.insert(id, retro_forward);
                },
            }
        }
    }
    proof {
        assert(all.take(all.len() as int) =~= all);
    }
}

/// A node that a decision is about is decided about at least once.
proof fn lemma_registered<V, R: RetroForward<V> + ?Sized>(
    actions: Seq<CheckpointingAction<V, R>>,
    at: int,
)
    requires
        0 <= at < actions.len(),
    ensures
        registrations(actions, actions[at].node()) > 0,
    decreases actions.len(),
{
    if at < actions.len() - 1 {
        lemma_registered(actions.drop_last(), at);
    }
}

/// Whether a decision to recompute a node brings a procedure that computes
/// that node.
pub open spec fn procedure_matches<V, R: RetroForward<V> + ?Sized>(
    action: CheckpointingAction<V, R>,
) -> bool {
    match action {
        CheckpointingAction::Recompute { node_ref, retro_forward } => retro_forward.node()
            == node_ref.id,
        CheckpointingAction::Computed { .. } => true,
    }
}

/// Whether each decision to recompute a node brings a procedure that
/// computes that node.
pub open spec fn procedures_match<V, R: RetroForward<V> + ?Sized>(
    actions: Seq<CheckpointingAction<V, R>>,
) -> bool {
    forall|i: int| 0 <= i < actions.len() ==> procedure_matches(#[trigger] actions[i])
}

/// Records the place of every node that has a step.
fn make_tree<S: Step + ?Sized>(graph: &NodeSteps<S>) -> (tree: NodeTree)
    ensures
        tree@ == tree_of(graph@),
{
    let numbers = node_numbers(graph);
    let mut tree = NodeTree::default();
    let mut i: usize = 0;
    proof {
        assert(tree_of(graph@.restrict(numbers@.take(0).to_set())) =~= Map::<
            NodeID,
            Seq<NodeID>,
        >::empty());
    }
    while i < numbers.len()
        invariant
            i <= numbers.len(),
            numbers@.to_set() == graph@.dom(),
            tree@ == tree_of(graph@.restrict(numbers@.take(i as int).to_set())),
        decreases numbers.len() - i,
    {
        let number = numbers[i];
        let ghost done = numbers@.take(i as int);
        proof {
            assert(numbers@.take(i + 1) =~= done.push(number));
            assert(numbers@.to_set().contains(numbers@[i as int]));
            done.lemma_push_to_set_commute(number);
        }
        match graph.get(&number) {
            Some(step) => {
                let node = step.node();
                tree.insert(NodeID { value: number }, node);
                proof {
                    assert(tree@ =~= tree_of(graph@.restrict(done.to_set().insert(number))));
                }
            },
            None => {},
        }
        i += 1;
    }
    proof {
        assert(numbers@.take(i as int) =~= numbers@);
        assert(graph@.restrict(graph@.dom()) =~= graph@);
    }
    tree
}

/// Builds the engine of a backward pass from the decisions of the forward
/// pass and the steps of its graph: the definite decisions are applied
/// first, each to its node unless an earlier one decided it; the others are
/// applied afterwards, to the nodes that are left. A node is expected to be
/// read as often as the decisions that settled it name it.
pub fn build_checkpointer<S: Step + ?Sized>(
    main_actions: Vec<CheckpointingAction<S::Value, S::Replay>>,
    backup_actions: Vec<CheckpointingAction<S::Value, S::Replay>>,
    graph: &NodeSteps<S>,
) -> (checkpoint: Checkpoint<S::Value, S::Replay>)
    ensures
        checkpoint.states() == decided_states(main_actions@, backup_actions@),
        checkpoint.replays() == decided_replays(main_actions@, backup_actions@),
        checkpoint.tree() == tree_of(graph@),
        procedures_match(main_actions@) && procedures_match(backup_actions@) ==> checkpoint.wf(),
{
    let node_tree = make_tree(graph);
    let mut states: InnerStates<S::Value> = InnerStates::default();
    let mut replays: RetroForwards<S::Value, S::Replay> = RetroForwards::default();
    proof {
        if procedures_match(main_actions@) && procedures_match(backup_actions@) {
            lemma_procedures_stay_matched(
                Map::empty(),
                Map::empty(),
                main_actions@,
                main_actions@,
            );
            lemma_procedures_stay_matched(
                applied_states(Map::empty(), main_actions@, main_actions@),
                applied_replays(Map::empty(), Map::empty(), main_actions@, main_actions@),
                backup_actions@,
                backup_actions@,
            );
        }
    }
    apply_actions(main_actions, &mut states, &mut replays);
    apply_actions(backup_actions, &mut states, &mut replays);
    Checkpoint::new(states, replays, node_tree)
}

/// Applying decisions whose procedures compute their nodes keeps every
/// procedure under the node that it computes.
proof fn lemma_procedures_stay_matched<V, R: RetroForward<V> + ?Sized>(
    states: Map<NodeID, State<V>>,
    replays: Map<NodeID, Box<R>>,
    actions: Seq<CheckpointingAction<V, R>>,
    counted: Seq<CheckpointingAction<V, R>>,
)
    requires
        procedures_match(actions),
        forall|id: NodeID| #[trigger] replays.contains_key(id) ==> replays[id].node() == id,
    ensures
        forall|id: NodeID| #[trigger]
            applied_replays(states, replays, actions, counted).contains_key(id) ==> applied_replays(
                states,
                replays,
                actions,
                counted,
            )[id].node() == id,
    decreases actions.len(),
{
    if actions.len() > 0 {
        assert forall|i: int| 0 <= i < actions.drop_last().len() implies procedure_matches(
            #[trigger] actions.drop_last()[i],
        ) by {
            assert(actions.drop_last()[i] == actions[i]);
        }
        lemma_procedures_stay_matched(states, replays, actions.drop_last(), counted);
        assert(procedure_matches(actions[actions.len() - 1]));
        let before = applied_replays(states, replays, actions.drop_last(), counted);
        let after = applied_replays(states, replays, actions, counted);
        assert forall|id: NodeID| #[trigger] after.contains_key(id) implies after[id].node()
            == id by {
            if before.contains_key(id) && after[id] == before[id] {
            }
        }
    }
}

/// A node that is decided stays as it is when further decisions are applied.
pub proof fn lemma_decided_nodes_stay<V, R: RetroForward<V> + ?Sized>(
    states: Map<NodeID, State<V>>,
    replays: Map<NodeID, Box<R>>,
    actions: Seq<CheckpointingAction<V, R>>,
    counted: Seq<CheckpointingAction<V, R>>,
    node: NodeID,
)
    requires
        states.contains_key(node),
    ensures
        applied_states(states, actions, counted).contains_key(node),
        applied_states(states, actions, counted)[node] == states[node],
        applied_replays(states, replays, actions, counted).contains_key(node)
            == replays.contains_key(node),
        replays.contains_key(node) ==> applied_replays(states, replays, actions, counted)[node]
            == replays[node],
    decreases actions.len(),
{
    if actions.len() > 0 {
        lemma_decided_nodes_stay(states, replays, actions.drop_last(), counted, node);
    }
}

/// A node that is not decided is decided by the first of the decisions about
/// it, if there is one, and stays undecided if there is none.
pub proof fn lemma_first_decision_counts<V, R: RetroForward<V> + ?Sized>(
    states: Map<NodeID, State<V>>,
    replays: Map<NodeID, Box<R>>,
    actions: Seq<CheckpointingAction<V, R>>,
    counted: Seq<CheckpointingAction<V, R>>,
    node: NodeID,
)
    requires
        !states.contains_key(node),
        !replays.contains_key(node),
    ensures
        applied_states(states, actions, counted).contains_key(node) == first_about(
            actions,
            node,
        ) is Some,
        first_about(actions, node) matches Some(action) ==> {
            &&& applied_states(states, actions, counted)[node] == state_from(
                action,
                registrations(counted, node),
            )
            &&& action.node() == node
        },
        applied_replays(states, replays, actions, counted).contains_key(node) == (first_about(
            actions,
            node,
        ) matches Some(action) && action is Recompute),
        first_about(actions, node) matches Some(
            CheckpointingAction::Recompute { retro_forward, .. },
        ) ==> applied_replays(states, replays, actions, counted)[node] == retro_forward,
    decreases actions.len(),
{
    if actions.len() > 0 {
        lemma_first_decision_counts(states, replays, actions.drop_last(), counted, node);
    }
}

/// A definite decision about a node settles it, whatever the other decisions
/// say: the node's state and procedure are those of the first definite
/// decision about it, and it is expected as often as definite decisions name
/// it.
pub proof fn lemma_main_wins_over_backup<V, R: RetroForward<V> + ?Sized>(
    main: Seq<CheckpointingAction<V, R>>,
    backup: Seq<CheckpointingAction<V, R>>,
    node: NodeID,
)
    requires
        first_about(main, node) is Some,
    ensures
        decided_states(main, backup).contains_key(node),
        decided_states(main, backup)[node] == state_from(
            first_about(main, node).unwrap(),
            registrations(main, node),
        ),
        decided_states(main, backup)[node] == decided_states(main, Seq::empty())[node],
        decided_replays(main, backup).contains_key(node) == first_about(
            main,
            node,
        ).unwrap() is Recompute,
        first_about(main, node) matches Some(
            CheckpointingAction::Recompute { retro_forward, .. },
        ) ==> decided_replays(main, backup)[node] == retro_forward,
{
    let after_main = applied_states(Map::<NodeID, State<V>>::empty(), main, main);
    let replays_after_main = applied_replays(
        Map::<NodeID, State<V>>::empty(),
        Map::<NodeID, Box<R>>::empty(),
        main,
        main,
    );
    lemma_first_decision_counts(Map::empty(), Map::empty(), main, main, node);
    lemma_decided_nodes_stay(after_main, replays_after_main, backup, backup, node);
    lemma_decided_nodes_stay(
        after_main,
        replays_after_main,
        Seq::<CheckpointingAction<V, R>>::empty(),
        Seq::<CheckpointingAction<V, R>>::empty(),
        node,
    );
}

/// A node without a definite decision is settled by the first of the other
/// decisions about it, and is not in the store if there is none.
pub proof fn lemma_backup_settles_the_rest<V, R: RetroForward<V> + ?Sized>(
    main: Seq<CheckpointingAction<V, R>>,
    backup: Seq<CheckpointingAction<V, R>>,
    node: NodeID,
)
    requires
        first_about(main, node) is None,
    ensures
        decided_states(main, backup).contains_key(node) == first_about(backup, node) is Some,
        first_about(backup, node) matches Some(action) ==> decided_states(main, backup)[node]
            == state_from(action, registrations(backup, node)),
        decided_replays(main, backup).contains_key(node) == (first_about(
            backup,
            node,
        ) matches Some(action) && action is Recompute),
{
    let after_main = applied_states(Map::<NodeID, State<V>>::empty(), main, main);
    let replays_after_main = applied_replays(
        Map::<NodeID, State<V>>::empty(),
        Map::<NodeID, Box<R>>::empty(),
        main,
        main,
    );
    lemma_first_decision_counts(Map::empty(), Map::empty(), main, main, node);
    lemma_first_decision_counts(after_main, replays_after_main, backup, backup, node);
}

} // verus!
