//! The state of one node's output, and the rules by which reads use it up.
use vstd::prelude::*;

verus! {

/// What the store holds for one node: either a value, or the promise that the
/// value can be recomputed. Both carry the number of reads still expected.
pub enum State<V> {
    /// The value is not stored and has to be replayed from the node's parents.
    Recompute { n_required: usize },
    /// The value is stored.
    Computed { state_content: V, n_required: usize },
}

impl<V> State<V> {
    /// Number of reads still expected.
    pub open spec fn required(self) -> nat {
        match self {
            State::Recompute { n_required } => n_required as nat,
            State::Computed { n_required, .. } => n_required as nat,
        }
    }

    /// The same state after one read.
    pub open spec fn after_read(self) -> State<V> {
        match self {
            State::Recompute { n_required } => State::Recompute {
                n_required: (n_required - 1) as usize,
            },
            State::Computed { state_content, n_required } => State::Computed {
                state_content,
                n_required: (n_required - 1) as usize,
            },
        }
    }

    /// The state with its value forgotten: the tag and the count alone.
    pub open spec fn shape(self) -> State<()> {
        match self {
            State::Recompute { n_required } => State::Recompute { n_required },
            State::Computed { n_required, .. } => State::Computed { state_content: (), n_required },
        }
    }

    /// Number of reads still expected.
    pub fn n_required(&self) -> (n: usize)
        ensures
            n == self.required(),
    {
        match self {
            State::Recompute { n_required } => *n_required,
            State::Computed { n_required, .. } => *n_required,
        }
    }

    /// The stored value.
    pub fn get_state_content(&self) -> (content: &V)
        requires
            self is Computed,
        ensures
            *content == self->state_content,
    {
        match self {
            State::Computed { state_content, .. } => state_content,
            State::Recompute { .. } => vstd::pervasive::unreached(),
        }
    }
}

} // verus!
