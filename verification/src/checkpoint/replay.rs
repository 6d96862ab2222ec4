//! A replay procedure made of a list of inputs and a function of their
//! values.
use crate::checkpoint::base::{InnerStates, RetroForward};
use crate::checkpoint::model::{
    can_replay, consume_all, lemma_can_consume_prefix, lemma_consume_all_keeps,
};
use crate::checkpoint::state::State;
use crate::node::NodeID;
use std::marker::PhantomData;
use vstd::prelude::*;

verus! {

/// The replay procedure of a node whose output is a function of the values
/// of other nodes: it reads those values from the store, in order, hands them
/// to the function, and stores what the function returns.
#[verifier::reject_recursive_types(V)]
#[verifier::reject_recursive_types(F)]
pub struct Replay<V, F: Fn(Vec<V>) -> V> {
    node: NodeID,
    inputs: Vec<NodeID>,
    compute: F,
    marker: PhantomData<V>,
}

impl<V, F: Fn(Vec<V>) -> V> Replay<V, F> {
    /// Whether the function takes every list of as many values as there are
    /// inputs.
    #[verifier::type_invariant]
    pub closed spec fn takes_its_inputs(self) -> bool {
        forall|values: Vec<V>|
            values@.len() == self.inputs@.len() ==> call_requires(self.compute, (values,))
    }

    /// The node that the procedure computes.
    pub closed spec fn out(&self) -> NodeID {
        self.node
    }

    /// The nodes that the procedure reads, in order.
    pub closed spec fn reads(&self) -> Seq<NodeID> {
        self.inputs@
    }

    /// The function that computes the output from the values of the inputs.
    pub closed spec fn function(&self) -> F {
        self.compute
    }

    /// The procedure that computes `node` from `inputs` by `compute`.
    pub fn new(node: NodeID, inputs: Vec<NodeID>, compute: F) -> (replay: Self)
        requires
            forall|values: Vec<V>| values@.len() == inputs@.len() ==> call_requires(compute, (values,)),
        ensures
            replay.out() == node,
            replay.reads() == inputs@,
            replay.function() == compute,
    {
        Replay { node, inputs, compute, marker: PhantomData }
    }
}

impl<V: Clone, F: Fn(Vec<V>) -> V> RetroForward<V> for Replay<V, F> {
    open spec fn node(&self) -> NodeID {
        self.out()
    }

    open spec fn inputs(&self) -> Seq<NodeID> {
        self.reads()
    }

    /// The output is what the function returns for clones of the values that
    /// the store holds for the inputs.
    open spec fn computes(&self, before: Map<NodeID, State<V>>, content: V) -> bool {
        exists|values: Vec<V>|
            {
                &&& values@.len() == self.reads().len()
                &&& forall|i: int|
                    0 <= i < values@.len() ==> cloned(
                        before[self.reads()[i]]->state_content,
                        #[trigger] values@[i],
                    )
                &&& call_ensures(self.function(), (values,), content)
            }
    }

    fn input_nodes(&self) -> (ids: Vec<NodeID>) {
        let mut ids: Vec<NodeID> = Vec::new();
        let mut i: usize = 0;
        while i < self.inputs.len()
            invariant
                i <= self.inputs.len(),
                ids@ == self.inputs@.take(i as int),
            decreases self.inputs.len() - i,
        {
            ids.push(self.inputs[i]);
            proof {
                assert(self.inputs@.take(i + 1) =~= self.inputs@.take(i as int).push(
                    self.inputs@[i as int],
                ));
            }
            i += 1;
        }
        proof {
            assert(self.inputs@.take(i as int) =~= self.inputs@);
        }
        ids
    }

    fn forward(&self, states: &mut InnerStates<V>) {
        proof {
            use_type_invariant(self);
        }
        let ghost start = states@;
        let mut values: Vec<V> = Vec::new();
        let mut i: usize = 0;
        while i < self.inputs.len()
            invariant
                i <= self.inputs.len(),
                values@.len() == i,
                can_replay(start, self.inputs@, self.node),
                states@ == consume_all(start, self.inputs@.take(i as int)),
                forall|j: int|
                    0 <= j < i ==> cloned(
                        start[self.inputs@[j]]->state_content,
                        #[trigger] values@[j],
                    ),
            decreases self.inputs.len() - i,
        {
            proof {
                lemma_can_consume_prefix(start, self.inputs@, i + 1);
                assert(self.inputs@.take(i + 1).drop_last() =~= self.inputs@.take(i as int));
                lemma_consume_all_keeps(start, self.inputs@.take(i as int), self.inputs@[i as int]);
            }
            let value = states.get_owned_and_downcasted(&self.inputs[i]);
            values.push(value);
            i += 1;
        }
        proof {
            assert(self.inputs@.take(i as int) =~= self.inputs@);
            lemma_consume_all_keeps(start, self.inputs@, self.node);
        }
        let n_required = match states.get_ref(&self.node) {
            Some(state) => state.n_required(),
            None => vstd::pervasive::unreached(),
        };
        let ghost read = values;
        let state_content = (self.compute)(values);
        proof {
            assert(call_ensures(self.compute, (read,), state_content));
        }
        states.insert(self.node, State::Computed { state_content, n_required });
    }
}

} // verus!
