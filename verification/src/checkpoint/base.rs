//! The store, the registry of replay procedures, the edge map, and the engine
//! that resolves a node's value from them.
use crate::checkpoint::laws::{
    lemma_nothing_is_resolved_when_something_is_missing, lemma_order_holds_ancestors,
    lemma_order_puts_parents_first, lemma_steps_keep_other_pending_nodes,
};
use crate::checkpoint::model::{
    acyclic, can_consume, can_consume_all, can_forward, can_forward_all, can_replay, can_resolve,
    can_resolve_all, consume, failure, first_without_replay, forwarded, forwarded_all, is_ranking,
    kept, left_by_failure, lemma_blocked, lemma_blocked_at, lemma_consume_all_keeps,
    lemma_readable, lemma_shapes_consume, lemma_shapes_consume_all, lemma_shapes_replayed,
    missing, obstacle, occurrences, order, order_parents, ranking, readable, readable_at, replayed,
    resolved,
    shapes,
};
use crate::checkpoint::error::CheckpointError;
use crate::checkpoint::state::State;
use crate::node::{by_node, lemma_by_node_empty, lemma_by_node_insert, lemma_by_node_remove};
use crate::node::{NodeID, NodeRef};
use std::collections::HashMap;
use std::marker::PhantomData;
use vstd::prelude::*;

verus! {

broadcast use vstd::std_specs::hash::group_hash_axioms;

/// The forward function of a node as the backward pass calls it: it reads its
/// inputs from the store and writes its output there.
pub trait RetroForward<V> {
    /// The node whose output this procedure computes.
    open spec fn node(&self) -> NodeID {
        arbitrary()
    }

    /// The nodes whose values this procedure reads, in the order in which it
    /// reads them.
    open spec fn inputs(&self) -> Seq<NodeID> {
        arbitrary()
    }

    /// Whether `content` is an output that the procedure may store when it
    /// finds the store `before`. A procedure that does not say what it
    /// computes may store any value.
    open spec fn computes(&self, before: Map<NodeID, State<V>>, content: V) -> bool {
        true
    }

    /// The nodes whose values this procedure reads, in the order in which it
    /// reads them.
    fn input_nodes(&self) -> (ids: Vec<NodeID>)
        ensures
            ids@ == self.inputs(),
    ;

    /// Reads each input once, and stores the output under the node as a value
    /// that is expected as often as the pending node was.
    fn forward(&self, states: &mut InnerStates<V>)
        requires
            can_replay(old(states)@, self.inputs(), self.node()),
        ensures
            final(states)@.contains_key(self.node()),
            final(states)@[self.node()] is Computed,
            final(states)@ == replayed(
                old(states)@,
                self.inputs(),
                self.node(),
                final(states)@[self.node()]->state_content,
            ),
            self.computes(old(states)@, final(states)@[self.node()]->state_content),
    ;
}

/// Whether every procedure stands under the node that it computes.
pub open spec fn in_place<V, R: RetroForward<V> + ?Sized>(replays: Map<NodeID, Box<R>>) -> bool {
    forall|id: NodeID| #[trigger] replays.contains_key(id) ==> replays[id].node() == id
}

/// Whether `after` is the store that the step of a resolution at `node` may
/// make of `before`: a pending node is replayed by its procedure, which
/// reads its inputs and stores an output that it computes from `before`; any
/// other store is left alone.
pub open spec fn step_taken<V, R: RetroForward<V> + ?Sized>(
    replays: Map<NodeID, Box<R>>,
    before: Map<NodeID, State<V>>,
    node: NodeID,
    after: Map<NodeID, State<V>>,
) -> bool {
    if before.contains_key(node) && before[node] is Recompute {
        &&& can_consume_all(before, replays[node].inputs())
        &&& after.contains_key(node)
        &&& after[node] is Computed
        &&& after == replayed(before, replays[node].inputs(), node, after[node]->state_content)
        &&& replays[node].computes(before, after[node]->state_content)
    } else {
        after == before
    }
}

/// Whether `stores` are the stores of a run of the steps at `ids` from
/// `start` to `end`: the store before the first step, and the store after
/// each step.
pub open spec fn is_run<V, R: RetroForward<V> + ?Sized>(
    replays: Map<NodeID, Box<R>>,
    start: Map<NodeID, State<V>>,
    ids: Seq<NodeID>,
    end: Map<NodeID, State<V>>,
    stores: Seq<Map<NodeID, State<V>>>,
) -> bool {
    &&& stores.len() == ids.len() + 1
    &&& stores[0] == start
    &&& stores[ids.len() as int] == end
    &&& forall|i: int|
        0 <= i < ids.len() ==> #[trigger] step_taken(replays, stores[i], ids[i], stores[i + 1])
}

/// Whether `end` is a store that the steps at `ids`, taken one after the
/// other, may make of `start`.
pub open spec fn steps_taken<V, R: RetroForward<V> + ?Sized>(
    replays: Map<NodeID, Box<R>>,
    start: Map<NodeID, State<V>>,
    ids: Seq<NodeID>,
    end: Map<NodeID, State<V>>,
) -> bool {
    exists|stores: Seq<Map<NodeID, State<V>>>| is_run(replays, start, ids, end, stores)
}

/// A run with one more step: the stores of the run so far, and the store
/// after the step.
pub proof fn lemma_one_more_step<V, R: RetroForward<V> + ?Sized>(
    replays: Map<NodeID, Box<R>>,
    start: Map<NodeID, State<V>>,
    ids: Seq<NodeID>,
    mid: Map<NodeID, State<V>>,
    end: Map<NodeID, State<V>>,
    stores: Seq<Map<NodeID, State<V>>>,
)
    requires
        ids.len() > 0,
        is_run(replays, start, ids.drop_last(), mid, stores),
        step_taken(replays, mid, ids.last(), end),
    ensures
        is_run(replays, start, ids, end, stores.push(end)),
        steps_taken(replays, start, ids, end),
{
    let longer = stores.push(end);
    assert forall|i: int| 0 <= i < ids.len() implies #[trigger] step_taken(
        replays,
        longer[i],
        ids[i],
        longer[i + 1],
    ) by {
        if i < ids.len() - 1 {
            assert(step_taken(replays, stores[i], ids.drop_last()[i], stores[i + 1]));
        }
    }
    assert(is_run(replays, start, ids, end, longer));
}

/// A step creates no entry and changes no stored value.
pub proof fn lemma_step_keeps_values<V, R: RetroForward<V> + ?Sized>(
    replays: Map<NodeID, Box<R>>,
    before: Map<NodeID, State<V>>,
    node: NodeID,
    after: Map<NodeID, State<V>>,
)
    requires
        step_taken(replays, before, node, after),
    ensures
        kept(before, after),
{
    if before.contains_key(node) && before[node] is Recompute {
        assert forall|id: NodeID| #[trigger] after.contains_key(id) implies {
            &&& before.contains_key(id)
            &&& before[id] is Computed ==> after[id] is Computed && after[id]->state_content
                == before[id]->state_content
        } by {
            lemma_consume_all_keeps(before, replays[node].inputs(), id);
        }
    }
}

/// In a run, a value that is stored stays the same for as long as it is
/// stored: what a later replay reads for a node is what an earlier replay
/// read for it, and what the node's own replay computed.
pub proof fn lemma_run_keeps_values<V, R: RetroForward<V> + ?Sized>(
    replays: Map<NodeID, Box<R>>,
    start: Map<NodeID, State<V>>,
    ids: Seq<NodeID>,
    end: Map<NodeID, State<V>>,
    stores: Seq<Map<NodeID, State<V>>>,
    i: int,
    j: int,
)
    requires
        is_run(replays, start, ids, end, stores),
        0 <= i <= j <= ids.len(),
    ensures
        kept(stores[i], stores[j]),
    decreases j - i,
{
    if i < j {
        lemma_run_keeps_values(replays, start, ids, end, stores, i, j - 1);
        let k = j - 1;
        assert(step_taken(replays, stores[k], ids[k], stores[k + 1]));
        lemma_step_keeps_values(replays, stores[k], ids[k], stores[k + 1]);
    }
}

/// Links each node to its replay procedure.
#[verifier::reject_recursive_types(V)]
#[verifier::reject_recursive_types(R)]
pub struct RetroForwards<V, R: RetroForward<V> + ?Sized> {
    map: HashMap<u64, Box<R>>,
    marker: PhantomData<V>,
}

impl<V, R: RetroForward<V> + ?Sized> View for RetroForwards<V, R> {
    type V = Map<NodeID, Box<R>>;

    closed spec fn view(&self) -> Map<NodeID, Box<R>> {
        by_node(self.map@)
    }
}

impl<V, R: RetroForward<V> + ?Sized> Default for RetroForwards<V, R> {
    /// A registry without procedures.
    fn default() -> (registry: Self)
        ensures
            registry@ == Map::<NodeID, Box<R>>::empty(),
            registry.wf(),
    {
        proof {
            lemma_by_node_empty::<Box<R>>();
        }
        RetroForwards { map: HashMap::new(), marker: PhantomData }
    }
}

impl<V, R: RetroForward<V> + ?Sized> RetroForwards<V, R> {
    /// The inputs that each registered procedure reads.
    pub open spec fn inputs_of(&self) -> Map<NodeID, Seq<NodeID>> {
        self@.map_values(|r: Box<R>| r.inputs())
    }

    /// Whether every procedure is registered under the node that it computes.
    pub open spec fn wf(&self) -> bool {
        in_place(self@)
    }

    /// The registry of the procedures of `map`, each under the node whose
    /// number it stands under.
    pub fn new(map: HashMap<u64, Box<R>>) -> (registry: RetroForwards<V, R>)
        ensures
            registry@ == by_node(map@),
    {
        RetroForwards { map, marker: PhantomData }
    }

    /// Replays the node if it is pending, and does nothing if its value is
    /// stored.
    pub fn forward(&self, node_id: &NodeID, inner_states: &mut InnerStates<V>)
        requires
            old(inner_states)@.contains_key(*node_id),
            old(inner_states)@[*node_id] is Recompute ==> {
                &&& self@.contains_key(*node_id)
                &&& self@[*node_id].node() == *node_id
                &&& can_consume_all(old(inner_states)@, self@[*node_id].inputs())
            },
        ensures
            old(inner_states)@[*node_id] is Computed ==> final(inner_states)@ == old(inner_states)@,
            old(inner_states)@[*node_id] is Recompute ==> {
                &&& final(inner_states)@.contains_key(*node_id)
                &&& final(inner_states)@[*node_id] is Computed
                &&& final(inner_states)@ == replayed(
                    old(inner_states)@,
                    self@[*node_id].inputs(),
                    *node_id,
                    final(inner_states)@[*node_id]->state_content,
                )
                &&& self@[*node_id].computes(
                    old(inner_states)@,
                    final(inner_states)@[*node_id]->state_content,
                )
            },
    {
        let pending = match inner_states.get_ref(node_id) {
            Some(State::Recompute { .. }) => true,
            Some(State::Computed { .. }) => false,
            None => vstd::pervasive::unreached(),
        };
        if pending {
            match self.map.get(&node_id.value) {
                Some(retro_forward) => {
                    retro_forward.forward(inner_states);
                },
                None => vstd::pervasive::unreached(),
            }
        }
    }

    /// Whether a replay procedure is registered for the node.
    pub fn contains(&self, node_id: &NodeID) -> (found: bool)
        ensures
            found == self@.contains_key(*node_id),
    {
        self.map.contains_key(&node_id.value)
    }

    /// The nodes that the replay procedure of the node reads, in order, if
    /// one is registered for it.
    pub fn inputs(&self, node_id: &NodeID) -> (ids: Option<Vec<NodeID>>)
        ensures
            match ids {
                Some(ids) => self@.contains_key(*node_id) && ids@ == self@[*node_id].inputs(),
                None => !self@.contains_key(*node_id),
            },
    {
        match self.map.get(&node_id.value) {
            Some(retro_forward) => Some(retro_forward.input_nodes()),
            None => None,
        }
    }

    /// Registers a replay procedure for a node, in place of an earlier one.
    pub fn insert(&mut self, node_id: NodeID, retro_forward: Box<R>)
        ensures
            final(self)@ == old(self)@.insert(node_id, retro_forward),
            old(self).wf() && retro_forward.node() == node_id ==> final(self).wf(),
    {
        proof {
            lemma_by_node_insert(self.map@, node_id, retro_forward);
        }
        self.map.insert(node_id.value, retro_forward);
        proof {
            if old(self).wf() && retro_forward.node() == node_id {
                assert forall|id: NodeID| #[trigger] self@.contains_key(id) implies self@[id].node()
                    == id by {
                    if id != node_id {
                        assert(old(self)@.contains_key(id));
                    }
                }
            }
        }
    }
}

/// Links each node to the current state of its output.
pub struct InnerStates<V> {
    map: HashMap<u64, State<V>>,
}

impl<V> View for InnerStates<V> {
    type V = Map<NodeID, State<V>>;

    closed spec fn view(&self) -> Map<NodeID, State<V>> {
        by_node(self.map@)
    }
}

impl<V> Default for InnerStates<V> {
    /// A store without entries.
    fn default() -> (states: Self)
        ensures
            states@ == Map::<NodeID, State<V>>::empty(),
    {
        proof {
            lemma_by_node_empty::<State<V>>();
        }
        InnerStates { map: HashMap::new() }
    }
}

impl<V> InnerStates<V> {
    /// The store of the states of `map`, each under the node whose number it
    /// stands under.
    pub fn new(map: HashMap<u64, State<V>>) -> (states: InnerStates<V>)
        ensures
            states@ == by_node(map@),
    {
        InnerStates { map }
    }

    /// Hands out the value stored for the node and counts the read: the
    /// entry's count goes down by one, and the entry leaves the store with its
    /// last expected read. While further reads are expected the caller gets a
    /// clone and the store keeps the value.
    pub fn get_owned_and_downcasted(&mut self, node_id: &NodeID) -> (content: V) where V: Clone
        requires
            can_consume(old(self)@, *node_id),
        ensures
            final(self)@ == consume(old(self)@, *node_id),
            cloned(old(self)@[*node_id]->state_content, content),
            old(self)@[*node_id].required() == 1 ==> content == old(self)@[*node_id]->state_content,
    {
        proof {
            lemma_by_node_remove(self.map@, *node_id);
        }
        let ghost before = self.map@;
        match self.map.remove(&node_id.value) {
            Some(State::Computed { state_content, n_required }) => {
                let remaining_n_required = n_required - 1;
                if remaining_n_required > 0 {
                    let content = state_content.clone();
                    let new_stored_state = State::Computed {
                        state_content,
                        n_required: remaining_n_required,
                    };
                    proof {
                        lemma_by_node_insert(self.map@, *node_id, new_stored_state);
                        assert(before.remove(node_id.value).insert(node_id.value, new_stored_state)
                            =~= before.insert(node_id.value, new_stored_state));
                    }
                    self.map.insert(node_id.value, new_stored_state);
                    content
                } else {
                    state_content
                }
            },
            _ => vstd::pervasive::unreached(),
        }
    }

    /// Whether the nodes can be read one after the other, in order: whether
    /// each is stored, and expected more often than it stands earlier in
    /// `ids`.
    pub fn can_read_all(&self, ids: &Vec<NodeID>) -> (can: bool)
        ensures
            can == can_consume_all(self@, ids@),
    {
        proof {
            lemma_readable(self@, ids@);
        }
        let mut k: usize = 0;
        while k < ids.len()
            invariant
                k <= ids.len(),
                can_consume_all(self@, ids@) == readable(self@, ids@),
                forall|at: int| 0 <= at < k ==> #[trigger] readable_at(self@, ids@, at),
            decreases ids.len() - k,
        {
            let id = ids[k];
            let ghost earlier_ids = ids@.take(k as int);
            let mut earlier: usize = 0;
            let mut j: usize = 0;
            while j < k
                invariant
                    j <= k,
                    k < ids.len(),
                    earlier_ids == ids@.take(k as int),
                    earlier == occurrences(earlier_ids.take(j as int), id),
                    earlier <= j,
                decreases k - j,
            {
                proof {
                    assert(earlier_ids.take(j + 1).drop_last() =~= earlier_ids.take(j as int));
                    assert(earlier_ids.take(j + 1).last() == ids@[j as int]);
                }
                if ids[j].value == id.value {
                    earlier += 1;
                }
                j += 1;
            }
            proof {
                assert(earlier_ids.take(k as int) =~= earlier_ids);
            }
            let enough = match self.get_ref(&id) {
                Some(State::Computed { n_required, .. }) => *n_required > earlier,
                _ => false,
            };
            assert(enough == readable_at(self@, ids@, k as int));
            if !enough {
                return false;
            }
            k += 1;
        }
        true
    }

    /// The state of the node, without reading its value.
    pub fn get_ref(&self, node_id: &NodeID) -> (state: Option<&State<V>>)
        ensures
            match state {
                Some(s) => self@.contains_key(*node_id) && *s == self@[*node_id],
                None => !self@.contains_key(*node_id),
            },
    {
        self.map.get(&node_id.value)
    }

    /// Stores a state for the node, in place of an earlier one.
    pub fn insert(&mut self, node_id: NodeID, state: State<V>)
        ensures
            final(self)@ == old(self)@.insert(node_id, state),
    {
        proof {
            lemma_by_node_insert(self.map@, node_id, state);
        }
        self.map.insert(node_id.value, state);
    }
}

/// Links each node to its place in the graph.
pub struct NodeTree {
    map: HashMap<u64, NodeRef>,
}

impl View for NodeTree {
    type V = Map<NodeID, Seq<NodeID>>;

    /// The parents of each node, in order.
    closed spec fn view(&self) -> Map<NodeID, Seq<NodeID>> {
        by_node(self.map@).map_values(|node: NodeRef| node.parents@)
    }
}

impl Default for NodeTree {
    /// An edge map without nodes.
    fn default() -> (tree: Self)
        ensures
            tree@ == Map::<NodeID, Seq<NodeID>>::empty(),
    {
        proof {
            lemma_by_node_empty::<NodeRef>();
            assert(Map::<NodeID, NodeRef>::empty().map_values(|node: NodeRef| node.parents@)
                =~= Map::<NodeID, Seq<NodeID>>::empty());
        }
        NodeTree { map: HashMap::new() }
    }
}

impl NodeTree {
    /// The edge map of the nodes of `map`, each under the node whose number
    /// it stands under.
    pub fn new(map: HashMap<u64, NodeRef>) -> (tree: NodeTree)
        ensures
            tree@ == by_node(map@).map_values(|node: NodeRef| node.parents@),
    {
        NodeTree { map }
    }

    /// Whether the map holds the parents of the node.
    pub fn contains(&self, node_id: &NodeID) -> (found: bool)
        ensures
            found == self@.contains_key(*node_id),
    {
        self.map.contains_key(&node_id.value)
    }

    /// The parents of the node, in order.
    pub fn parents(&self, node_id: &NodeID) -> (parents: Vec<NodeID>)
        requires
            self@.contains_key(*node_id),
        ensures
            parents@ == self@[*node_id],
    {
        match self.map.get(&node_id.value) {
            Some(node) => {
                let mut parents: Vec<NodeID> = Vec::new();
                let mut i: usize = 0;
                while i < node.parents.len()
                    invariant
                        i <= node.parents.len(),
                        parents@ == node.parents@.take(i as int),
                    decreases node.parents.len() - i,
                {
                    parents.push(node.parents[i]);
                    proof {
                        assert(node.parents@.take(i + 1) =~= node.parents@.take(i as int).push(
                            node.parents@[i as int],
                        ));
                    }
                    i += 1;
                }
                proof {
                    assert(node.parents@.take(i as int) =~= node.parents@);
                }
                parents
            },
            None => vstd::pervasive::unreached(),
        }
    }

    /// Records the node's place in the graph, in place of an earlier one.
    pub fn insert(&mut self, node_id: NodeID, node_ref: NodeRef)
        ensures
            final(self)@ == old(self)@.insert(node_id, node_ref.parents@),
    {
        proof {
            lemma_by_node_insert(self.map@, node_id, node_ref);
            assert(by_node(self.map@).insert(node_id, node_ref).map_values(
                |node: NodeRef| node.parents@,
            ) =~= by_node(self.map@).map_values(|node: NodeRef| node.parents@).insert(
                node_id,
                node_ref.parents@,
            ));
        }
        self.map.insert(node_id.value, node_ref);
    }
}

/// Fetches the output of a node during a backward pass, from the store where
/// it was retained, or by replaying the nodes that were not.
#[verifier::reject_recursive_types(V)]
#[verifier::reject_recursive_types(R)]
pub struct Checkpoint<V, R: RetroForward<V> + ?Sized> {
    inner_states: InnerStates<V>,
    retro_forwards: RetroForwards<V, R>,
    node_tree: NodeTree,
}

impl<V, R: RetroForward<V> + ?Sized> Checkpoint<V, R> {
    /// The store.
    pub closed spec fn states(&self) -> Map<NodeID, State<V>> {
        self.inner_states@
    }

    /// The registered replay procedures.
    pub closed spec fn replays(&self) -> Map<NodeID, Box<R>> {
        self.retro_forwards@
    }

    /// The parents of each node.
    pub closed spec fn tree(&self) -> Map<NodeID, Seq<NodeID>> {
        self.node_tree@
    }

    /// The inputs that each registered replay procedure reads.
    pub open spec fn inputs_of(&self) -> Map<NodeID, Seq<NodeID>> {
        self.replays().map_values(|r: Box<R>| r.inputs())
    }

    /// Whether every replay procedure is registered under the node that it
    /// computes.
    pub open spec fn wf(&self) -> bool {
        in_place(self.replays())
    }

    /// Whether the node can be resolved and read.
    pub open spec fn can_get(&self, node_id: NodeID) -> bool {
        &&& self.wf()
        &&& can_resolve(shapes(self.states()), self.tree(), self.inputs_of(), node_id)
    }

    /// Whether the nodes can be resolved and read one after the other.
    pub open spec fn can_get_all(&self, nodes: Seq<NodeID>) -> bool {
        &&& self.wf()
        &&& can_resolve_all(shapes(self.states()), self.tree(), self.inputs_of(), nodes)
    }

    /// The engine over a store, a registry and an edge map.
    pub fn new(
        inner_states: InnerStates<V>,
        retro_forwards: RetroForwards<V, R>,
        node_tree: NodeTree,
    ) -> (checkpoint: Checkpoint<V, R>)
        ensures
            checkpoint.states() == inner_states@,
            checkpoint.replays() == retro_forwards@,
            checkpoint.tree() == node_tree@,
            checkpoint.wf() == retro_forwards.wf(),
    {
        Checkpoint { inner_states, retro_forwards, node_tree }
    }

    /// The state of the node, without reading its value.
    pub fn state(&self, node_id: &NodeID) -> (state: Option<&State<V>>)
        ensures
            match state {
                Some(s) => self.states().contains_key(*node_id) && *s == self.states()[*node_id],
                None => !self.states().contains_key(*node_id),
            },
    {
        self.inner_states.get_ref(node_id)
    }

    /// Whether `content` is a clone of the value that the replay procedure of
    /// the node computed when the steps at the earlier nodes of the order
    /// were taken, and whether that value is the one that stays stored where
    /// further reads of the node are expected.
    pub open spec fn replayed_to(&self, after: &Self, node_id: NodeID, content: V) -> bool where
        V: Clone,
     {
        exists|before: Map<NodeID, State<V>>, value: V|
            {
                &&& shapes(before) == forwarded_all(
                    shapes(self.states()),
                    self.inputs_of(),
                    order(shapes(self.states()), self.tree(), node_id).unwrap().drop_last(),
                )
                &&& kept(self.states(), before)
                &&& #[trigger] self.replays()[node_id].computes(before, value)
                &&& cloned(value, content)
                &&& after.states().contains_key(node_id) ==> after.states()[node_id]->state_content
                    == value
            }
    }

    /// Whether the store of `after` is what a read of the node leaves of a
    /// store that the steps of the node's order may make, and `content` a
    /// clone of the value that that store holds for the node.
    pub open spec fn read_after_steps(&self, after: &Self, node_id: NodeID, content: V) -> bool where
        V: Clone,
     {
        exists|stored: Map<NodeID, State<V>>|
            {
                &&& #[trigger] steps_taken(
                    self.replays(),
                    self.states(),
                    order(shapes(self.states()), self.tree(), node_id).unwrap(),
                    stored,
                )
                &&& can_consume(stored, node_id)
                &&& after.states() == consume(stored, node_id)
                &&& cloned(stored[node_id]->state_content, content)
            }
    }

    /// What a call of [`Checkpoint::get`] does to the engine and hands out.
    pub open spec fn got(&self, after: &Self, node_id: NodeID, content: V) -> bool where V: Clone {
        &&& shapes(after.states()) == resolved(
            shapes(self.states()),
            self.tree(),
            self.inputs_of(),
            node_id,
        )
        &&& after.tree() == self.tree()
        &&& after.replays() == self.replays()
        &&& kept(self.states(), after.states())
        &&& self.read_after_steps(after, node_id, content)
        &&& self.states()[node_id] is Computed ==> cloned(
            self.states()[node_id]->state_content,
            content,
        )
        &&& self.states()[node_id] is Recompute ==> self.replayed_to(after, node_id, content)
        &&& after.states().contains_key(node_id) ==> cloned(
            after.states()[node_id]->state_content,
            content,
        )
    }

    /// Gives the output of the node: replays its pending ancestors, parents
    /// before children, then the node itself if it is pending, and reads it.
    ///
    /// The store changes as [`resolved`] says. No value that was stored
    /// before changes. The output is a clone of the value that was stored for
    /// the node, or of the value that the node's replay procedure computed,
    /// and of the one that stays stored for it where further reads are
    /// expected.
    pub fn get(&mut self, node_id: NodeID) -> (content: V) where V: Clone
        requires
            old(self).can_get(node_id),
        ensures
            old(self).got(final(self), node_id, content),
            final(self).wf(),
    {
        match self.try_get(node_id) {
            Ok(content) => content,
            Err(_) => vstd::pervasive::unreached(),
        }
    }

    /// Gives the output of the node as [`Checkpoint::get`] does, unless the
    /// node cannot be resolved: then the result says why not, and at which
    /// node. Where something is missing before any step is taken, the store
    /// stays as it is; where a step cannot be taken, or no read of the node
    /// is expected, the steps before that have been taken.
    pub fn try_get(&mut self, node_id: NodeID) -> (result: Result<V, CheckpointError>) where
        V: Clone,

        requires
            old(self).wf(),
            acyclic(old(self).tree()),
        ensures
            final(self).wf(),
            final(self).tree() == old(self).tree(),
            final(self).replays() == old(self).replays(),
            kept(old(self).states(), final(self).states()),
            match result {
                Ok(content) => {
                    &&& old(self).can_get(node_id)
                    &&& old(self).got(final(self), node_id, content)
                },
                Err(error) => {
                    &&& !old(self).can_get(node_id)
                    &&& failure(
                        shapes(old(self).states()),
                        old(self).tree(),
                        old(self).inputs_of(),
                        node_id,
                    ) == Some(error)
                    &&& shapes(final(self).states()) == left_by_failure(
                        shapes(old(self).states()),
                        old(self).tree(),
                        old(self).inputs_of(),
                        node_id,
                    )
                },
            },
    {
        let ghost start = self.inner_states@;
        let ghost tree = self.tree();
        let ghost inputs_of = self.inputs_of();
        let sorted = match self.try_topological_sort(node_id) {
            Err(error) => {
                proof {
                    lemma_nothing_is_resolved_when_something_is_missing(
                        shapes(start),
                        tree,
                        inputs_of,
                        node_id,
                    );
                }
                return Err(error);
            },
            Ok(sorted) => sorted,
        };
        match self.find_pending_without_replay(&sorted) {
            Some(pending) => {
                proof {
                    lemma_nothing_is_resolved_when_something_is_missing(
                        shapes(start),
                        tree,
                        inputs_of,
                        node_id,
                    );
                }
                return Err(CheckpointError::RetroForwardNotFound(pending));
            },
            None => {},
        }
        proof {
            lemma_order_puts_parents_first(shapes(start), tree, node_id);
            lemma_order_holds_ancestors(shapes(start), tree, node_id);
        }
        let ancestors = sorted.len() - 1;
        let mut i: usize = 0;
        let ghost mut run = seq![start];
        proof {
            assert(sorted@.take(0).len() == 0);
        }
        while i < ancestors
            invariant
                i <= ancestors,
                ancestors == sorted.len() - 1,
                self.wf(),
                self.tree() == tree,
                self.replays() == old(self).replays(),
                old(self).tree() == tree,
                old(self).inputs_of() == inputs_of,
                inputs_of == self.inputs_of(),
                start == old(self).states(),
                acyclic(tree),
                missing(shapes(start), tree, inputs_of, node_id) is None,
                order(shapes(start), tree, node_id) == Ok::<Seq<NodeID>, CheckpointError>(sorted@),
                can_forward_all(shapes(start), inputs_of, sorted@.take(i as int)),
                shapes(self.inner_states@) == forwarded_all(
                    shapes(start),
                    inputs_of,
                    sorted@.take(i as int),
                ),
                kept(start, self.inner_states@),
                is_run(
                    old(self).replays(),
                    start,
                    sorted@.take(i as int),
                    self.inner_states@,
                    run,
                ),
            decreases ancestors - i,
        {
            let ghost before = self.inner_states@;
            let node = sorted[i];
            proof {
                assert(sorted@.take(i + 1).drop_last() =~= sorted@.take(i as int));
                assert(sorted@.take(i + 1).last() == node);
            }
            match self.try_step(&node) {
                Err(error) => {
                    proof {
                        lemma_blocked_at(shapes(start), inputs_of, sorted@, i as int);
                        lemma_blocked(shapes(start), inputs_of, sorted@);
                    }
                    return Err(error);
                },
                Ok(()) => {},
            }
            proof {
                lemma_one_more_step(
                    old(self).replays(),
                    start,
                    sorted@.take(i + 1),
                    before,
                    self.inner_states@,
                    run,
                );
                run = run.push(self.inner_states@);
            }
            i += 1;
        }
        let ghost before = self.inner_states@;
        proof {
            assert(sorted@.take(ancestors as int) =~= sorted@.drop_last());
            assert(sorted@.take(sorted@.len() as int) =~= sorted@);
            assert(sorted@[ancestors as int] == node_id);
        }
        match self.try_step(&node_id) {
            Err(error) => {
                proof {
                    lemma_blocked_at(shapes(start), inputs_of, sorted@, ancestors as int);
                    lemma_blocked(shapes(start), inputs_of, sorted@);
                }
                return Err(error);
            },
            Ok(()) => {},
        }
        proof {
            lemma_blocked(shapes(start), inputs_of, sorted@);
            lemma_shapes_consume(self.inner_states@, node_id);
        }
        let expected = match self.inner_states.get_ref(&node_id) {
            Some(State::Computed { n_required, .. }) => *n_required >= 1,
            _ => false,
        };
        if !expected {
            return Err(CheckpointError::NotExpected(node_id));
        }
        let ghost stored = self.inner_states@;
        let content = self.inner_states.get_owned_and_downcasted(&node_id);
        proof {
            lemma_one_more_step(old(self).replays(), start, sorted@, before, stored, run);
            assert(old(self).read_after_steps(self, node_id, content));
            if start[node_id] is Recompute {
                assert forall|at: int| 0 <= at < sorted@.drop_last().len() implies sorted@.drop_last()[at]
                    != node_id by {
                    assert(sorted@[at] == sorted@.drop_last()[at]);
                }
                lemma_steps_keep_other_pending_nodes(
                    shapes(start),
                    inputs_of,
                    sorted@.drop_last(),
                    node_id,
                );
                assert(before[node_id] is Recompute);
                assert(old(self).replays()[node_id].computes(
                    before,
                    stored[node_id]->state_content,
                ));
                assert(old(self).replayed_to(self, node_id, content));
            } else {
                assert(before[node_id] is Computed);
            }
        }
        Ok(content)
    }

    /// Takes the step of a resolution at the node, if it can be taken: a
    /// pending node is replayed, a stored one is left alone.
    fn try_step(&mut self, node: &NodeID) -> (taken: Result<(), CheckpointError>)
        requires
            old(self).wf(),
        ensures
            final(self).wf(),
            final(self).tree() == old(self).tree(),
            final(self).replays() == old(self).replays(),
            kept(old(self).states(), final(self).states()),
            match taken {
                Ok(()) => {
                    &&& step_taken(
                        old(self).replays(),
                        old(self).states(),
                        *node,
                        final(self).states(),
                    )
                    &&& can_forward(shapes(old(self).states()), old(self).inputs_of(), *node)
                    &&& shapes(final(self).states()) == forwarded(
                        shapes(old(self).states()),
                        old(self).inputs_of(),
                        *node,
                    )
                    &&& old(self).states()[*node] is Computed ==> final(self).states() == old(
                        self,
                    ).states()
                    &&& old(self).states()[*node] is Recompute ==> {
                        &&& final(self).states().contains_key(*node)
                        &&& final(self).states()[*node] is Computed
                        &&& old(self).replays()[*node].computes(
                            old(self).states(),
                            final(self).states()[*node]->state_content,
                        )
                    }
                },
                Err(error) => {
                    &&& !can_forward(shapes(old(self).states()), old(self).inputs_of(), *node)
                    &&& error == obstacle(
                        shapes(old(self).states()),
                        old(self).inputs_of(),
                        *node,
                    )
                    &&& final(self).states() == old(self).states()
                },
            },
    {
        let ghost before = self.inner_states@;
        let pending = match self.inner_states.get_ref(node) {
            None => {
                return Err(CheckpointError::NodeNotFound(*node));
            },
            Some(State::Computed { .. }) => false,
            Some(State::Recompute { .. }) => true,
        };
        if !pending {
            return Ok(());
        }
        let inputs = match self.retro_forwards.inputs(node) {
            None => {
                return Err(CheckpointError::RetroForwardNotFound(*node));
            },
            Some(inputs) => inputs,
        };
        proof {
            lemma_shapes_consume_all(before, inputs@);
        }
        if !self.inner_states.can_read_all(&inputs) {
            return Err(CheckpointError::InputsNotFound(*node));
        }
        self.retro_forwards.forward(node, &mut self.inner_states);
        proof {
            let content = self.inner_states@[*node]->state_content;
            lemma_shapes_replayed(before, inputs@, *node, content);
            assert forall|id: NodeID| #[trigger] self.inner_states@.contains_key(id) implies {
                &&& before.contains_key(id)
                &&& before[id] is Computed ==> self.inner_states@[id] is Computed
                    && self.inner_states@[id]->state_content == before[id]->state_content
            } by {
                lemma_consume_all_keeps(before, inputs@, id);
            }
        }
        Ok(())
    }

    /// The first node of `sorted` that is pending and has no replay
    /// procedure.
    fn find_pending_without_replay(&self, sorted: &Vec<NodeID>) -> (found: Option<NodeID>)
        ensures
            found == first_without_replay(shapes(self.states()), self.inputs_of(), sorted@),
    {
        let mut i: usize = 0;
        while i < sorted.len()
            invariant
                i <= sorted.len(),
                first_without_replay(
                    shapes(self.states()),
                    self.inputs_of(),
                    sorted@.take(i as int),
                ) is None,
            decreases sorted.len() - i,
        {
            let node = sorted[i];
            proof {
                assert(sorted@.take(i + 1).drop_last() =~= sorted@.take(i as int));
                assert(sorted@.take(i + 1).last() == node);
            }
            let pending = match self.inner_states.get_ref(&node) {
                Some(State::Recompute { .. }) => true,
                _ => false,
            };
            if pending && !self.retro_forwards.contains(&node) {
                proof {
                    lemma_first_without_replay_stays(
                        shapes(self.states()),
                        self.inputs_of(),
                        sorted@,
                        i + 1,
                    );
                }
                return Some(node);
            }
            i += 1;
        }
        proof {
            assert(sorted@.take(i as int) =~= sorted@);
        }
        None
    }

    /// Stores a retained value for the node. This is the actual checkpointing.
    pub fn insert_pre_computed(&mut self, node_id: NodeID, state: State<V>)
        requires
            state is Computed,
        ensures
            final(self).states() == old(self).states().insert(node_id, state),
            final(self).tree() == old(self).tree(),
            final(self).replays() == old(self).replays(),
    {
        self.inner_states.insert(node_id, state);
    }

    /// Sorts the pending ancestors of the node so that all parents come before
    /// their children. A stored node ends the walk: it stands in the order
    /// itself, its ancestors do not.
    pub fn topological_sort(&self, node_id: NodeID) -> (sorted: Vec<NodeID>)
        requires
            acyclic(self.tree()),
            order(shapes(self.states()), self.tree(), node_id) is Ok,
        ensures
            sorted@ == order(shapes(self.states()), self.tree(), node_id).unwrap(),
    {
        match self.try_topological_sort(node_id) {
            Ok(sorted) => sorted,
            Err(_) => vstd::pervasive::unreached(),
        }
    }

    /// Sorts the pending ancestors of the node as
    /// [`Checkpoint::topological_sort`] does, unless the walk comes to a node
    /// that is not in the store, or to a pending node whose parents the edge
    /// map does not hold: then the result is the first such node.
    pub fn try_topological_sort(&self, node_id: NodeID) -> (sorted: Result<
        Vec<NodeID>,
        CheckpointError,
    >)
        requires
            acyclic(self.tree()),
        ensures
            match sorted {
                Ok(ids) => order(shapes(self.states()), self.tree(), node_id) == Ok::<
                    Seq<NodeID>,
                    CheckpointError,
                >(ids@),
                Err(error) => order(shapes(self.states()), self.tree(), node_id) == Err::<
                    Seq<NodeID>,
                    CheckpointError,
                >(error),
            },
        decreases ranking(self.tree())(node_id),
    {
        match self.inner_states.get_ref(&node_id) {
            None => Err(CheckpointError::NodeNotFound(node_id)),
            Some(State::Computed { .. }) => {
                let mut sorted: Vec<NodeID> = Vec::new();
                sorted.push(node_id);
                Ok(sorted)
            },
            Some(State::Recompute { .. }) => {
                if !self.node_tree.contains(&node_id) {
                    return Err(CheckpointError::ParentsNotFound(node_id));
                }
                let mut sorted: Vec<NodeID> = Vec::new();
                let parents = self.node_tree.parents(&node_id);
                let mut k: usize = 0;
                while k < parents.len()
                    invariant
                        k <= parents.len(),
                        acyclic(self.tree()),
                        self.states().contains_key(node_id),
                        self.states()[node_id] is Recompute,
                        self.tree().contains_key(node_id),
                        parents@ == self.tree()[node_id],
                        order_parents(shapes(self.states()), self.tree(), node_id, k as nat) == Ok::<
                            Seq<NodeID>,
                            CheckpointError,
                        >(sorted@),
                    decreases parents.len() - k,
                {
                    proof {
                        assert(is_ranking(self.tree(), ranking(self.tree())));
                    }
                    match self.try_topological_sort(parents[k]) {
                        Ok(more) => {
                            let mut more = more;
                            sorted.append(&mut more);
                        },
                        Err(error) => {
                            proof {
                                assert(order_parents(
                                    shapes(self.states()),
                                    self.tree(),
                                    node_id,
                                    (k + 1) as nat,
                                ) == Err::<Seq<NodeID>, CheckpointError>(error));
                                lemma_order_parents_stays_missing(
                                    shapes(self.states()),
                                    self.tree(),
                                    node_id,
                                    parents@.len(),
                                    (k + 1) as nat,
                                );
                            }
                            return Err(error);
                        },
                    }
                    k += 1;
                }
                sorted.push(node_id);
                Ok(sorted)
            },
        }
    }
}

/// Where something is missing for the first `k` parents, the same is missing
/// for the first `n >= k`.
pub proof fn lemma_order_parents_stays_missing(
    m: Map<NodeID, State<()>>,
    tree: Map<NodeID, Seq<NodeID>>,
    node: NodeID,
    n: nat,
    k: nat,
)
    requires
        acyclic(tree),
        tree.contains_key(node),
        k <= n <= tree[node].len(),
        order_parents(m, tree, node, k) is Err,
    ensures
        order_parents(m, tree, node, n) == order_parents(m, tree, node, k),
    decreases n,
{
    if k < n {
        lemma_order_parents_stays_missing(m, tree, node, (n - 1) as nat, k);
    }
}

/// A pending node without a replay procedure that is the first among the
/// first `k` of `ids` is the first among all of them.
pub proof fn lemma_first_without_replay_stays(
    m: Map<NodeID, State<()>>,
    inputs_of: Map<NodeID, Seq<NodeID>>,
    ids: Seq<NodeID>,
    k: int,
)
    requires
        0 <= k <= ids.len(),
        first_without_replay(m, inputs_of, ids.take(k)) is Some,
    ensures
        first_without_replay(m, inputs_of, ids) == first_without_replay(m, inputs_of, ids.take(k)),
    decreases ids.len(),
{
    if k < ids.len() {
        assert(ids.drop_last().take(k) =~= ids.take(k));
        lemma_first_without_replay_stays(m, inputs_of, ids.drop_last(), k);
    } else {
        assert(ids.take(k) =~= ids);
    }
}

} // verus!
