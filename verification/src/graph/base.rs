//! Backward steps, retention decisions, and the shared graph that holds both.
use crate::checkpoint::base::{Checkpoint, RetroForward};
use crate::checkpoint::builder::{build_checkpointer, decided_replays, decided_states, tree_of};
use crate::checkpoint::model::{resolved_all, shapes};
use crate::graph::steps::{drain_steps, drained_steps, merge_steps, merged_steps, NodeSteps};
use crate::node::{Node, NodeID, NodeRef};
use crate::sync::{guarded, lock, new_mutex, same_storage, share, sole_owner, unlocked};
use spin::Mutex;
use std::collections::HashMap;
use std::sync::Arc;
use vstd::prelude::*;

verus! {

/// Backward step for reverse mode autodiff.
pub trait Step: Send + Sync {
    /// The values that the forward pass leaves for the backward pass.
    type Value;

    /// The replay procedures of the graph that the step belongs to.
    type Replay: RetroForward<Self::Value> + ?Sized;

    /// The accumulator of gradients.
    type Gradients;

    /// The place of the step's node in the graph.
    open spec fn place(&self) -> Node {
        arbitrary()
    }

    /// The nodes whose outputs the step asks the checkpointer for, in the
    /// order in which it asks.
    open spec fn reads(&self) -> Seq<NodeID> {
        arbitrary()
    }

    /// Executes the step and consumes it.
    fn step(
        self: Box<Self>,
        grads: &mut Self::Gradients,
        checkpointer: &mut Checkpoint<Self::Value, Self::Replay>,
    )
        requires
            old(checkpointer).can_get_all(self.reads()),
        ensures
            shapes(final(checkpointer).states()) == resolved_all(
                shapes(old(checkpointer).states()),
                old(checkpointer).tree(),
                old(checkpointer).inputs_of(),
                self.reads(),
            ),
            final(checkpointer).tree() == old(checkpointer).tree(),
            final(checkpointer).replays() == old(checkpointer).replays(),
    ;

    /// The node associated to the step.
    fn node(&self) -> (node: NodeRef)
        ensures
            *node == self.place(),
    ;
}

/// A backward step behind a pointer.
pub type StepBoxed<S: ?Sized> = Box<S>;

/// What an operation of the forward pass decides about the output of a node.
#[verifier::reject_recursive_types(V)]
#[verifier::reject_recursive_types(R)]
pub enum CheckpointingAction<V, R: RetroForward<V> + ?Sized> {
    /// The output is retained.
    Computed { node_ref: NodeRef, state_content: V },
    /// The output is recomputed on demand, by the given procedure.
    Recompute { node_ref: NodeRef, retro_forward: Box<R> },
}

impl<V, R: RetroForward<V> + ?Sized> CheckpointingAction<V, R> {
    /// The node that the decision is about.
    pub open spec fn node(self) -> NodeID {
        match self {
            CheckpointingAction::Computed { node_ref, .. } => node_ref.id,
            CheckpointingAction::Recompute { node_ref, .. } => node_ref.id,
        }
    }

    /// The node that the decision is about.
    pub fn id(&self) -> (id: NodeID)
        ensures
            id == self.node(),
    {
        match self {
            CheckpointingAction::Computed { node_ref, .. } => node_ref.id,
            CheckpointingAction::Recompute { node_ref, .. } => node_ref.id,
        }
    }
}

/// The decisions that a graph has gathered: the definite ones, and those that
/// count only for nodes without a definite one.
#[verifier::reject_recursive_types(V)]
#[verifier::reject_recursive_types(R)]
pub struct CheckpointingActions<V, R: RetroForward<V> + ?Sized> {
    pub main_actions: Vec<CheckpointingAction<V, R>>,
    pub backup_actions: Vec<CheckpointingAction<V, R>>,
}

impl<V, R: RetroForward<V> + ?Sized> Default for CheckpointingActions<V, R> {
    fn default() -> (actions: Self)
        ensures
            actions.main_actions@ == Seq::<CheckpointingAction<V, R>>::empty(),
            actions.backup_actions@ == Seq::<CheckpointingAction<V, R>>::empty(),
    {
        CheckpointingActions { main_actions: Vec::new(), backup_actions: Vec::new() }
    }
}

impl<V, R: RetroForward<V> + ?Sized> CheckpointingActions<V, R> {
    /// Number of decisions, definite or not.
    pub open spec fn total(&self) -> nat {
        self.main_actions@.len() + self.backup_actions@.len()
    }

    /// The decisions of `self` followed by those of `other`, the definite ones
    /// and the others apart.
    pub open spec fn followed_by(self, other: Self) -> (Seq<CheckpointingAction<V, R>>, Seq<
        CheckpointingAction<V, R>,
    >) {
        (
            self.main_actions@ + other.main_actions@,
            self.backup_actions@ + other.backup_actions@,
        )
    }

    /// The decisions of two graphs in one: those of the graph with more
    /// decisions first, and those of `other` first where they have equally
    /// many.
    pub open spec fn merged_with(self, other: Self) -> (Seq<CheckpointingAction<V, R>>, Seq<
        CheckpointingAction<V, R>,
    >) {
        if self.total() > other.total() {
            self.followed_by(other)
        } else {
            other.followed_by(self)
        }
    }

    /// The given decisions.
    pub fn new(
        main_actions: Vec<CheckpointingAction<V, R>>,
        backup_actions: Vec<CheckpointingAction<V, R>>,
    ) -> (actions: Self)
        ensures
            actions.main_actions@ == main_actions@,
            actions.backup_actions@ == backup_actions@,
    {
        CheckpointingActions { main_actions, backup_actions }
    }

    /// Appends the decisions of `other`, in their order, after those that are
    /// there: definite ones after definite ones, the others after the others.
    pub fn extend(&mut self, other: CheckpointingActions<V, R>)
        ensures
            final(self).both() == old(self).followed_by(other),
    {
        let mut other = other;
        self.main_actions.append(&mut other.main_actions);
        self.backup_actions.append(&mut other.backup_actions);
    }

    /// Number of decisions, definite or not.
    pub fn len(&self) -> (len: usize)
        requires
            self.total() <= usize::MAX,
        ensures
            len == self.total(),
    {
        self.main_actions.len() + self.backup_actions.len()
    }

    /// Whether `self` holds more decisions than `other`.
    fn outnumbers(&self, other: &Self) -> (more: bool)
        ensures
            more == (self.total() > other.total()),
    {
        let mine = self.main_actions.len() as u128 + self.backup_actions.len() as u128;
        let theirs = other.main_actions.len() as u128 + other.backup_actions.len() as u128;
        mine > theirs
    }

    /// The decisions, the definite ones and the others apart.
    pub open spec fn both(self) -> (Seq<CheckpointingAction<V, R>>, Seq<CheckpointingAction<V, R>>) {
        (self.main_actions@, self.backup_actions@)
    }

    /// Takes every decision out and leaves none.
    pub fn drain(&mut self) -> (drained: CheckpointingActions<V, R>)
        ensures
            (final(self).both(), drained.both()) == drained_actions(old(self).both()),
    {
        let mut actions = CheckpointingActions {
            main_actions: Vec::new(),
            backup_actions: Vec::new(),
        };
        std::mem::swap(self, &mut actions);
        actions
    }

    /// Folds the decisions of the graph that has fewer into those of the graph
    /// that has more, and leaves the result in `self`.
    pub fn merge(&mut self, other: CheckpointingActions<V, R>)
        ensures
            final(self).both() == old(self).merged_with(other),
    {
        let mut other = other;
        if self.outnumbers(&other) {
            self.extend(other);
        } else {
            let checkpointing_drain = self.drain();
            other.extend(checkpointing_drain);
            std::mem::swap(self, &mut other);
        }
    }
}

/// What draining leaves of the decisions `found`, and what it hands out:
/// none, and all of them.
pub open spec fn drained_actions<V, R: RetroForward<V> + ?Sized>(
    found: (Seq<CheckpointingAction<V, R>>, Seq<CheckpointingAction<V, R>>),
) -> (
    (Seq<CheckpointingAction<V, R>>, Seq<CheckpointingAction<V, R>>),
    (Seq<CheckpointingAction<V, R>>, Seq<CheckpointingAction<V, R>>),
) {
    ((Seq::empty(), Seq::empty()), found)
}

/// Whether `out` is what `func` hands out when it is run on the steps that
/// some storage holds.
pub open spec fn ran_on_steps<S: ?Sized, T, F: FnOnce(&mut NodeSteps<S>) -> T>(
    func: F,
    out: T,
) -> bool {
    exists|map: &mut NodeSteps<S>| call_ensures(func, (map,), out)
}

/// Whether `out` is what `func` hands out when it is run on the decisions
/// that some storage holds.
pub open spec fn ran_on_actions<
    V,
    R: RetroForward<V> + ?Sized,
    T,
    F: FnOnce(&mut CheckpointingActions<V, R>) -> T,
>(func: F, out: T) -> bool {
    exists|actions: &mut CheckpointingActions<V, R>| call_ensures(func, (actions,), out)
}

/// Graph data structure.
///
/// The graph contains the [node steps](Step), which can be accessed by node,
/// and the retention decisions of the forward pass. Handles made by `clone`
/// share one storage: what one of them registers, merges or drains, the
/// others see. A handle that is alone changes its storage in place; one that
/// is not takes the storage's lock for the time of the one change.
///
/// What a handle finds in its storage is therefore not known to the caller's
/// proof. The functions of [`crate::graph::steps`] and the methods of
/// [`CheckpointingActions`] state what each change does to what it finds.
#[verifier::reject_recursive_types(S)]
pub struct Graph<S: Step + ?Sized> {
    steps: Arc<Mutex<NodeSteps<S>>>,
    checkpointing_actions: Arc<Mutex<CheckpointingActions<S::Value, S::Replay>>>,
}

impl<S: Step + ?Sized> Clone for Graph<S> {
    /// One more handle to the same storage.
    fn clone(&self) -> (other: Self) {
        Graph {
            steps: share(&self.steps),
            checkpointing_actions: share(&self.checkpointing_actions),
        }
    }
}

impl<S: Step + ?Sized> Default for Graph<S> {
    /// A graph with a storage of its own that holds nothing.
    fn default() -> (graph: Self) {
        Graph::new()
    }
}

impl<S: Step + ?Sized> Graph<S> {
    /// Create a new graph.
    pub fn new() -> (graph: Self) {
        Graph {
            steps: Arc::new(new_mutex(HashMap::new())),
            checkpointing_actions: Arc::new(new_mutex(CheckpointingActions::default())),
        }
    }

    /// Get all the steps for the graph.
    ///
    /// The graph is consumed, and the storage that it may share with other
    /// graphs is left empty: a graph is meant to be used for one backward
    /// pass, and keeping the steps would keep their tensors alive.
    pub fn steps(self) -> (steps: NodeSteps<S>)
        ensures
            exists|found: Map<u64, Box<S>>| steps@ == #[trigger] drained_steps(found).1,
    {
        let take = |map: &mut NodeSteps<S>| -> (drained: NodeSteps<S>)
            ensures
                (final(map)@, drained@) == drained_steps(old(map)@),
            { drain_steps(map) };
        let (_, steps) = self.execute_mut_steps(take);
        proof {
            let map = choose|map: &mut NodeSteps<S>| call_ensures(take, (map,), steps);
            assert(steps@ == drained_steps((*map)@).1);
        }
        steps
    }

    /// Register a new step into the graph.
    pub fn register(self, id: &NodeID, ops: StepBoxed<S>) -> (graph: Self)
        ensures
            exists|map: &mut NodeSteps<S>|
                (*final(map))@ == #[trigger] (*map)@.insert(id.value, ops),
    {
        let number = id.value;
        let add = move |map: &mut NodeSteps<S>|
            ensures
                final(map)@ == old(map)@.insert(number, ops),
            {
                map.insert(number, ops);
            };
        let (graph, done) = self.execute_mut_steps(add);
        proof {
            let map = choose|map: &mut NodeSteps<S>| call_ensures(add, (map,), done);
            assert((*final(map))@ == (*map)@.insert(id.value, ops));
        }
        graph
    }

    /// Merge two graphs.
    ///
    /// Where both lead to the same storage, the graph is handed back as it
    /// is. Where they do not, `other` is drained, and what it held is folded
    /// into the storage of `self`.
    pub fn merge(self, other: Self) -> (graph: Self)
        ensures
            graph == self || {
                &&& exists|map1: &mut NodeSteps<S>, map2: Map<u64, Box<S>>|
                    (*final(map1))@ == #[trigger] merged_steps((*map1)@, map2)
                &&& exists|
                    actions1: &mut CheckpointingActions<S::Value, S::Replay>,
                    actions2: CheckpointingActions<S::Value, S::Replay>,
                |
                    (*final(actions1)).both() == #[trigger] (*actions1).merged_with(actions2)
            },
    {
        if same_storage(&self.steps, &other.steps) {
            return self;
        }
        self.merge_different(other)
    }

    /// Runs `func` once on the steps of the storage: in place where this
    /// handle is the only one, under the storage's lock where it is not.
    /// Hands back the graph, and what `func` handed out for the steps that
    /// it found.
    fn execute_mut_steps<T, F: FnOnce(&mut NodeSteps<S>) -> T>(self, func: F) -> (done: (Self, T))
        requires
            forall|map: &mut NodeSteps<S>| call_requires(func, (map,)),
        ensures
            ran_on_steps(func, done.1),
    {
        let mut this = self;
        let out = match sole_owner(&mut this.steps) {
            Some(mutex) => {
                let map = unlocked(mutex);
                let out = func(map);
                assert(ran_on_steps(func, out));
                out
            },
            None => {
                // Only lock when there are multiple references to the graph.
                let mut guard = lock(&this.steps);
                let map = guarded(&mut guard);
                let out = func(map);
                assert(ran_on_steps(func, out));
                out
            },
        };
        (this, out)
    }

    /// Merges two graphs that do not share their storage: drains `other`, and
    /// folds what it held into the storage of `self`.
    fn merge_different(self, other: Self) -> (graph: Self)
        ensures
            exists|map1: &mut NodeSteps<S>, map2: Map<u64, Box<S>>|
                (*final(map1))@ == #[trigger] merged_steps((*map1)@, map2),
            exists|
                actions1: &mut CheckpointingActions<S::Value, S::Replay>,
                actions2: CheckpointingActions<S::Value, S::Replay>,
            |
                (*final(actions1)).both() == #[trigger] (*actions1).merged_with(actions2),
    {
        let map2 = other.clone().steps();
        let actions2 = other.checkpointing_actions_own();
        let ghost steps2 = map2@;
        let ghost decisions2 = actions2;
        let fold_steps = move |map1: &mut NodeSteps<S>|
            ensures
                final(map1)@ == merged_steps(old(map1)@, map2@),
            {
                merge_steps(map1, map2);
            };
        let fold_actions = move |actions1: &mut CheckpointingActions<S::Value, S::Replay>|
            ensures
                final(actions1).both() == old(actions1).merged_with(actions2),
            {
                actions1.merge(actions2);
            };
        let (graph, folded) = self.execute_mut_steps(fold_steps);
        let (graph, pooled) = graph.execute_mut_checkpointing_actions(fold_actions);
        proof {
            let map1 = choose|map1: &mut NodeSteps<S>| call_ensures(fold_steps, (map1,), folded);
            assert((*final(map1))@ == merged_steps((*map1)@, steps2));
            let actions1 = choose|actions1: &mut CheckpointingActions<S::Value, S::Replay>|
                call_ensures(fold_actions, (actions1,), pooled);
            assert((*final(actions1)).both() == (*actions1).merged_with(decisions2));
        }
        graph
    }

    /// Takes the decisions out of the graph's storage and leaves none there.
    /// The graph is consumed.
    pub fn checkpointing_actions_own(self) -> (actions: CheckpointingActions<S::Value, S::Replay>)
        ensures
            exists|found: (
                Seq<CheckpointingAction<S::Value, S::Replay>>,
                Seq<CheckpointingAction<S::Value, S::Replay>>,
            )|
                actions.both() == #[trigger] drained_actions(found).1,
    {
        let take = |checkpointing_actions: &mut CheckpointingActions<S::Value, S::Replay>| -> (drained:
            CheckpointingActions<S::Value, S::Replay>)
            ensures
                (final(checkpointing_actions).both(), drained.both()) == drained_actions(
                    old(checkpointing_actions).both(),
                ),
            { checkpointing_actions.drain() };
        let (_, actions) = self.execute_mut_checkpointing_actions(take);
        proof {
            let found = choose|found: &mut CheckpointingActions<S::Value, S::Replay>|
                call_ensures(take, (found,), actions);
            assert(actions.both() == drained_actions((*found).both()).1);
        }
        actions
    }

    /// Runs `func` once on the decisions of the storage: in place where this
    /// handle is the only one, under the storage's lock where it is not.
    /// Hands back the graph, and what `func` handed out for the decisions
    /// that it found.
    fn execute_mut_checkpointing_actions<
        T,
        F: FnOnce(&mut CheckpointingActions<S::Value, S::Replay>) -> T,
    >(self, func: F) -> (done: (Self, T))
        requires
            forall|actions: &mut CheckpointingActions<S::Value, S::Replay>|
                call_requires(func, (actions,)),
        ensures
            ran_on_actions(func, done.1),
    {
        let mut this = self;
        let out = match sole_owner(&mut this.checkpointing_actions) {
            Some(mutex) => {
                let actions = unlocked(mutex);
                let out = func(actions);
                assert(ran_on_actions(func, out));
                out
            },
            None => {
                // Only lock when there are multiple references to the graph.
                let mut guard = lock(&this.checkpointing_actions);
                let actions = guarded(&mut guard);
                let out = func(actions);
                assert(ran_on_actions(func, out));
                out
            },
        };
        (this, out)
    }

    /// Takes the decisions out of the graph's storage and builds from them,
    /// and from the steps that the storage holds, the engine of a backward
    /// pass. The steps stay in the storage.
    pub fn build_checkpointer(&self) -> (checkpoint: Checkpoint<S::Value, S::Replay>)
        ensures
            exists|
                main: Seq<CheckpointingAction<S::Value, S::Replay>>,
                backup: Seq<CheckpointingAction<S::Value, S::Replay>>,
                steps: Map<u64, Box<S>>,
            |
                {
                    &&& checkpoint.states() == #[trigger] decided_states(main, backup)
                    &&& checkpoint.replays() == decided_replays(main, backup)
                    &&& checkpoint.tree() == #[trigger] tree_of(steps)
                },
    {
        let mut guard = lock(&self.checkpointing_actions);
        let actions = guarded(&mut guard);
        let owned = actions.drain();
        let mut steps_guard = lock(&self.steps);
        let steps = guarded(&mut steps_guard);
        let ghost main = owned.main_actions@;
        let ghost backup = owned.backup_actions@;
        let ghost found = steps@;
        let checkpoint = build_checkpointer(owned.main_actions, owned.backup_actions, steps);
        proof {
            assert(checkpoint.states() == decided_states(main, backup));
            assert(checkpoint.tree() == tree_of(found));
        }
        checkpoint
    }

    /// Appends decisions to those of the graph's storage.
    pub fn extend_checkpointing_actions(
        &self,
        checkpointing_actions: CheckpointingActions<S::Value, S::Replay>,
    )
        ensures
            exists|actions: &mut CheckpointingActions<S::Value, S::Replay>|
                (*final(actions)).both() == #[trigger] (*actions).followed_by(
                    checkpointing_actions,
                ),
    {
        let mut guard = lock(&self.checkpointing_actions);
        let actions = guarded(&mut guard);
        let ghost found = *actions;
        actions.extend(checkpointing_actions);
        proof {
            assert(actions.both() == found.followed_by(checkpointing_actions));
        }
    }
}

} // verus!
