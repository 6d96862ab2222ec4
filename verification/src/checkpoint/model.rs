//! The mathematical model of the store and of a resolution.
//!
//! A store is a map from nodes to [`State`]s. Reads use entries up
//! ([`consume`]), a replay procedure uses up its inputs and writes its node
//! ([`replayed`]), and resolving a node replays its pending ancestors in
//! [`order`] before the node itself is read ([`resolved`]).
//!
//! What a replay procedure computes is its own business, so the functions that
//! describe a whole resolution work on the store with its values forgotten
//! ([`shapes`]): tags and counts evolve in one way only.
use crate::checkpoint::error::CheckpointError;
use crate::checkpoint::state::State;
use crate::node::NodeID;
use vstd::prelude::*;

verus! {

/// A store whose values are forgotten.
pub open spec fn shapes<V>(m: Map<NodeID, State<V>>) -> Map<NodeID, State<()>> {
    m.map_values(|s: State<V>| s.shape())
}

/// Whether `id` can be read: it is stored as a value that is still expected.
pub open spec fn can_consume<V>(m: Map<NodeID, State<V>>, id: NodeID) -> bool {
    &&& m.contains_key(id)
    &&& m[id] is Computed
    &&& m[id].required() >= 1
}

/// The store after one read of `id`: the count goes down by one, and the
/// entry leaves with its last expected read.
pub open spec fn consume<V>(m: Map<NodeID, State<V>>, id: NodeID) -> Map<NodeID, State<V>> {
    if m[id].required() > 1 {
        m.insert(id, m[id].after_read())
    } else {
        m.remove(id)
    }
}

/// Whether `ids` can be read one after the other, in order.
pub open spec fn can_consume_all<V>(m: Map<NodeID, State<V>>, ids: Seq<NodeID>) -> bool
    decreases ids.len(),
{
    if ids.len() == 0 {
        true
    } else {
        &&& can_consume_all(m, ids.drop_last())
        &&& can_consume(consume_all(m, ids.drop_last()), ids.last())
    }
}

/// The store after `ids` were read one after the other, in order.
pub open spec fn consume_all<V>(m: Map<NodeID, State<V>>, ids: Seq<NodeID>) -> Map<
    NodeID,
    State<V>,
>
    decreases ids.len(),
{
    if ids.len() == 0 {
        m
    } else {
        consume(consume_all(m, ids.drop_last()), ids.last())
    }
}

/// Whether `node` can be replayed from `inputs`: it is pending, and its inputs
/// can be read in order.
pub open spec fn can_replay<V>(m: Map<NodeID, State<V>>, inputs: Seq<NodeID>, node: NodeID) -> bool {
    &&& m.contains_key(node)
    &&& m[node] is Recompute
    &&& can_consume_all(m, inputs)
}

/// The store after `node` was replayed from `inputs` and got `content`: the
/// inputs are read, and the node is stored with the count it had.
pub open spec fn replayed<V>(
    m: Map<NodeID, State<V>>,
    inputs: Seq<NodeID>,
    node: NodeID,
    content: V,
) -> Map<NodeID, State<V>> {
    consume_all(m, inputs).insert(
        node,
        State::Computed { state_content: content, n_required: m[node].required() as usize },
    )
}

/// Whether one step of a resolution can be taken at `id`: the node is in the
/// store, and if it is pending, a replay procedure is registered for it whose
/// inputs can be read.
pub open spec fn can_forward(
    m: Map<NodeID, State<()>>,
    inputs_of: Map<NodeID, Seq<NodeID>>,
    id: NodeID,
) -> bool {
    &&& m.contains_key(id)
    &&& m[id] is Recompute ==> inputs_of.contains_key(id) && can_consume_all(m, inputs_of[id])
}

/// The store after one step of a resolution at `id`: a pending node is
/// replayed, a stored one is left alone.
pub open spec fn forwarded(
    m: Map<NodeID, State<()>>,
    inputs_of: Map<NodeID, Seq<NodeID>>,
    id: NodeID,
) -> Map<NodeID, State<()>> {
    if m[id] is Recompute {
        replayed(m, inputs_of[id], id, ())
    } else {
        m
    }
}

/// Whether the steps at `ids` can be taken one after the other.
pub open spec fn can_forward_all(
    m: Map<NodeID, State<()>>,
    inputs_of: Map<NodeID, Seq<NodeID>>,
    ids: Seq<NodeID>,
) -> bool
    decreases ids.len(),
{
    if ids.len() == 0 {
        true
    } else {
        &&& can_forward_all(m, inputs_of, ids.drop_last())
        &&& can_forward(forwarded_all(m, inputs_of, ids.drop_last()), inputs_of, ids.last())
    }
}

/// The store after the steps at `ids` were taken one after the other.
pub open spec fn forwarded_all(
    m: Map<NodeID, State<()>>,
    inputs_of: Map<NodeID, Seq<NodeID>>,
    ids: Seq<NodeID>,
) -> Map<NodeID, State<()>>
    decreases ids.len(),
{
    if ids.len() == 0 {
        m
    } else {
        forwarded(forwarded_all(m, inputs_of, ids.drop_last()), inputs_of, ids.last())
    }
}

/// The nodes that the steps at `ids` replay, in the order in which they do.
pub open spec fn replays_of(
    m: Map<NodeID, State<()>>,
    inputs_of: Map<NodeID, Seq<NodeID>>,
    ids: Seq<NodeID>,
) -> Seq<NodeID>
    decreases ids.len(),
{
    if ids.len() == 0 {
        Seq::empty()
    } else {
        let before = replays_of(m, inputs_of, ids.drop_last());
        if forwarded_all(m, inputs_of, ids.drop_last())[ids.last()] is Recompute {
            before.push(ids.last())
        } else {
            before
        }
    }
}

/// Whether `rank` grows along every edge of `tree`, from parent to child.
pub open spec fn is_ranking(tree: Map<NodeID, Seq<NodeID>>, rank: spec_fn(NodeID) -> nat) -> bool {
    forall|n: NodeID, i: int|
        tree.contains_key(n) && 0 <= i < tree[n].len() ==> rank(#[trigger] tree[n][i]) < rank(n)
}

/// Whether `tree` has no cycle.
pub open spec fn acyclic(tree: Map<NodeID, Seq<NodeID>>) -> bool {
    exists|rank: spec_fn(NodeID) -> nat| is_ranking(tree, rank)
}

/// A rank that grows along every edge of an acyclic `tree`.
pub open spec fn ranking(tree: Map<NodeID, Seq<NodeID>>) -> spec_fn(NodeID) -> nat {
    choose|rank: spec_fn(NodeID) -> nat| is_ranking(tree, rank)
}

/// The order in which a resolution of `node` takes its steps: for a pending
/// node, the orders of its parents one after the other, then the node; for a
/// stored node, the node alone. Where the walk reaches a node that is not in
/// the store, or a pending node whose parents the edge map does not hold,
/// there is no order: the result is the first such node that the walk comes
/// to.
pub open spec fn order(
    m: Map<NodeID, State<()>>,
    tree: Map<NodeID, Seq<NodeID>>,
    node: NodeID,
) -> Result<Seq<NodeID>, CheckpointError>
    decreases ranking(tree)(node), tree[node].len() + 1,
    when acyclic(tree)
{
    if !m.contains_key(node) {
        Err(CheckpointError::NodeNotFound(node))
    } else if m[node] is Computed {
        Ok(seq![node])
    } else if !tree.contains_key(node) {
        Err(CheckpointError::ParentsNotFound(node))
    } else {
        match order_parents(m, tree, node, tree[node].len()) {
            Ok(before) => Ok(before.push(node)),
            Err(missing) => Err(missing),
        }
    }
}

/// The orders of the first `k` parents of `node`, one after the other.
pub open spec fn order_parents(
    m: Map<NodeID, State<()>>,
    tree: Map<NodeID, Seq<NodeID>>,
    node: NodeID,
    k: nat,
) -> Result<Seq<NodeID>, CheckpointError>
    decreases ranking(tree)(node), k,
    when acyclic(tree) && tree.contains_key(node) && k <= tree[node].len()
{
    if k == 0 {
        Ok(Seq::empty())
    } else {
        match order_parents(m, tree, node, (k - 1) as nat) {
            Err(missing) => Err(missing),
            Ok(before) => match order(m, tree, tree[node][k - 1]) {
                Err(missing) => Err(missing),
                Ok(last) => Ok(before + last),
            },
        }
    }
}

/// The first node of `ids` that is pending in `m` and has no replay
/// procedure.
pub open spec fn first_without_replay(
    m: Map<NodeID, State<()>>,
    inputs_of: Map<NodeID, Seq<NodeID>>,
    ids: Seq<NodeID>,
) -> Option<NodeID>
    decreases ids.len(),
{
    if ids.len() == 0 {
        None
    } else {
        match first_without_replay(m, inputs_of, ids.drop_last()) {
            Some(node) => Some(node),
            None => if m.contains_key(ids.last()) && m[ids.last()] is Recompute
                && !inputs_of.contains_key(ids.last()) {
                Some(ids.last())
            } else {
                None
            },
        }
    }
}

/// What a resolution of `node` finds missing, if anything: a node of the
/// walk that is not in the store, a pending node whose parents the edge map
/// does not hold, or, if the walk ends, the first pending node of its order
/// that has no replay procedure.
pub open spec fn missing(
    m: Map<NodeID, State<()>>,
    tree: Map<NodeID, Seq<NodeID>>,
    inputs_of: Map<NodeID, Seq<NodeID>>,
    node: NodeID,
) -> Option<CheckpointError> {
    match order(m, tree, node) {
        Err(missing) => Some(missing),
        Ok(ids) => match first_without_replay(m, inputs_of, ids) {
            Some(pending) => Some(CheckpointError::RetroForwardNotFound(pending)),
            None => None,
        },
    }
}

/// The first place of `ids` at which the step cannot be taken.
pub open spec fn blocked(
    m: Map<NodeID, State<()>>,
    inputs_of: Map<NodeID, Seq<NodeID>>,
    ids: Seq<NodeID>,
) -> Option<int>
    decreases ids.len(),
{
    if ids.len() == 0 {
        None
    } else {
        match blocked(m, inputs_of, ids.drop_last()) {
            Some(at) => Some(at),
            None => if can_forward(
                forwarded_all(m, inputs_of, ids.drop_last()),
                inputs_of,
                ids.last(),
            ) {
                None
            } else {
                Some(ids.len() - 1)
            },
        }
    }
}

/// Why the step at `id` cannot be taken in the store `m`.
pub open spec fn obstacle(
    m: Map<NodeID, State<()>>,
    inputs_of: Map<NodeID, Seq<NodeID>>,
    id: NodeID,
) -> CheckpointError {
    if !m.contains_key(id) {
        CheckpointError::NodeNotFound(id)
    } else if !inputs_of.contains_key(id) {
        CheckpointError::RetroForwardNotFound(id)
    } else {
        CheckpointError::InputsNotFound(id)
    }
}

/// Why `node` cannot be resolved, if it cannot: what is missing before any
/// step is taken, or why the first step that cannot be taken cannot, or that
/// no read of the node is expected once all steps are taken.
pub open spec fn failure(
    m: Map<NodeID, State<()>>,
    tree: Map<NodeID, Seq<NodeID>>,
    inputs_of: Map<NodeID, Seq<NodeID>>,
    node: NodeID,
) -> Option<CheckpointError> {
    match missing(m, tree, inputs_of, node) {
        Some(error) => Some(error),
        None => {
            let ids = order(m, tree, node).unwrap();
            match blocked(m, inputs_of, ids) {
                Some(at) => Some(obstacle(forwarded_all(m, inputs_of, ids.take(at)), inputs_of, ids[at])),
                None => if can_consume(forwarded_all(m, inputs_of, ids), node) {
                    None
                } else {
                    Some(CheckpointError::NotExpected(node))
                },
            }
        },
    }
}

/// The store that a resolution of `node` leaves where it fails: the store as
/// it was where something is missing before any step is taken, and else the
/// store after the steps that could be taken.
pub open spec fn left_by_failure(
    m: Map<NodeID, State<()>>,
    tree: Map<NodeID, Seq<NodeID>>,
    inputs_of: Map<NodeID, Seq<NodeID>>,
    node: NodeID,
) -> Map<NodeID, State<()>> {
    match missing(m, tree, inputs_of, node) {
        Some(error) => m,
        None => {
            let ids = order(m, tree, node).unwrap();
            match blocked(m, inputs_of, ids) {
                Some(at) => forwarded_all(m, inputs_of, ids.take(at)),
                None => forwarded_all(m, inputs_of, ids),
            }
        },
    }
}

/// Whether `after` holds no entry that `before` does not hold, and every value
/// that `before` holds for an entry of `after`.
pub open spec fn kept<V>(before: Map<NodeID, State<V>>, after: Map<NodeID, State<V>>) -> bool {
    forall|id: NodeID| #[trigger]
        after.contains_key(id) ==> {
            &&& before.contains_key(id)
            &&& before[id] is Computed ==> after[id] is Computed && after[id]->state_content
                == before[id]->state_content
        }
}

/// How often `id` stands in `ids`.
pub open spec fn occurrences(ids: Seq<NodeID>, id: NodeID) -> nat
    decreases ids.len(),
{
    if ids.len() == 0 {
        0
    } else if ids.last() == id {
        occurrences(ids.drop_last(), id) + 1
    } else {
        occurrences(ids.drop_last(), id)
    }
}

/// Whether the node at the place `k` of `ids` is stored and expected more
/// often than it stands earlier in `ids`.
pub open spec fn readable_at<V>(m: Map<NodeID, State<V>>, ids: Seq<NodeID>, k: int) -> bool {
    &&& m.contains_key(ids[k])
    &&& m[ids[k]] is Computed
    &&& m[ids[k]].required() > occurrences(ids.take(k), ids[k])
}

/// Whether each of `ids` is stored and expected more often than it stands
/// earlier in `ids`.
pub open spec fn readable<V>(m: Map<NodeID, State<V>>, ids: Seq<NodeID>) -> bool {
    forall|k: int| 0 <= k < ids.len() ==> #[trigger] readable_at(m, ids, k)
}

/// Whether `node` can be resolved: the walk over its pending ancestors ends,
/// every step of it can be taken, and the node can be read afterwards.
pub open spec fn can_resolve(
    m: Map<NodeID, State<()>>,
    tree: Map<NodeID, Seq<NodeID>>,
    inputs_of: Map<NodeID, Seq<NodeID>>,
    node: NodeID,
) -> bool {
    &&& acyclic(tree)
    &&& order(m, tree, node) is Ok
    &&& can_forward_all(m, inputs_of, order(m, tree, node).unwrap())
    &&& can_consume(forwarded_all(m, inputs_of, order(m, tree, node).unwrap()), node)
}

/// The store after `node` was resolved and read.
pub open spec fn resolved(
    m: Map<NodeID, State<()>>,
    tree: Map<NodeID, Seq<NodeID>>,
    inputs_of: Map<NodeID, Seq<NodeID>>,
    node: NodeID,
) -> Map<NodeID, State<()>> {
    consume(forwarded_all(m, inputs_of, order(m, tree, node).unwrap()), node)
}

/// Whether `nodes` can be resolved and read one after the other.
pub open spec fn can_resolve_all(
    m: Map<NodeID, State<()>>,
    tree: Map<NodeID, Seq<NodeID>>,
    inputs_of: Map<NodeID, Seq<NodeID>>,
    nodes: Seq<NodeID>,
) -> bool
    decreases nodes.len(),
{
    if nodes.len() == 0 {
        true
    } else {
        &&& can_resolve_all(m, tree, inputs_of, nodes.drop_last())
        &&& can_resolve(
            resolved_all(m, tree, inputs_of, nodes.drop_last()),
            tree,
            inputs_of,
            nodes.last(),
        )
    }
}

/// The store after `nodes` were resolved and read one after the other.
pub open spec fn resolved_all(
    m: Map<NodeID, State<()>>,
    tree: Map<NodeID, Seq<NodeID>>,
    inputs_of: Map<NodeID, Seq<NodeID>>,
    nodes: Seq<NodeID>,
) -> Map<NodeID, State<()>>
    decreases nodes.len(),
{
    if nodes.len() == 0 {
        m
    } else {
        resolved(resolved_all(m, tree, inputs_of, nodes.drop_last()), tree, inputs_of, nodes.last())
    }
}

/// Forgetting the values changes nothing about which reads can be made, and
/// commutes with making them.
pub proof fn lemma_shapes_consume<V>(m: Map<NodeID, State<V>>, id: NodeID)
    ensures
        can_consume(shapes(m), id) == can_consume(m, id),
        can_consume(m, id) ==> shapes(consume(m, id)) == consume(shapes(m), id),
{
    if can_consume(m, id) {
        assert(shapes(consume(m, id)) =~= consume(shapes(m), id));
    }
}

/// Forgetting the values changes nothing about which runs of reads can be
/// made, and commutes with making them.
pub proof fn lemma_shapes_consume_all<V>(m: Map<NodeID, State<V>>, ids: Seq<NodeID>)
    ensures
        can_consume_all(shapes(m), ids) == can_consume_all(m, ids),
        can_consume_all(m, ids) ==> shapes(consume_all(m, ids)) == consume_all(shapes(m), ids),
    decreases ids.len(),
{
    if ids.len() > 0 {
        lemma_shapes_consume_all(m, ids.drop_last());
        if can_consume_all(m, ids.drop_last()) {
            lemma_shapes_consume(consume_all(m, ids.drop_last()), ids.last());
        }
    }
}

/// Forgetting the values commutes with a replay.
pub proof fn lemma_shapes_replayed<V>(
    m: Map<NodeID, State<V>>,
    inputs: Seq<NodeID>,
    node: NodeID,
    content: V,
)
    requires
        can_replay(m, inputs, node),
    ensures
        can_replay(shapes(m), inputs, node),
        shapes(replayed(m, inputs, node, content)) == replayed(shapes(m), inputs, node, ()),
{
    lemma_shapes_consume_all(m, inputs);
    assert(shapes(replayed(m, inputs, node, content)) =~= replayed(shapes(m), inputs, node, ()));
}

/// A read leaves every other entry as it was, and the values of all entries.
pub proof fn lemma_consume_keeps<V>(m: Map<NodeID, State<V>>, id: NodeID, other: NodeID)
    requires
        can_consume(m, id),
    ensures
        consume(m, id).contains_key(other) ==> m.contains_key(other),
        other != id ==> (consume(m, id).contains_key(other) <==> m.contains_key(other)),
        other != id && m.contains_key(other) ==> consume(m, id)[other] == m[other],
        consume(m, id).contains_key(id) ==> consume(m, id)[id] == m[id].after_read(),
{
}

/// A run of reads creates no entry, turns no pending node into a stored one,
/// and changes no stored value.
pub proof fn lemma_consume_all_keeps<V>(m: Map<NodeID, State<V>>, ids: Seq<NodeID>, other: NodeID)
    requires
        can_consume_all(m, ids),
    ensures
        consume_all(m, ids).contains_key(other) ==> {
            &&& m.contains_key(other)
            &&& consume_all(m, ids)[other] is Computed == m[other] is Computed
            &&& m[other] is Computed ==> consume_all(m, ids)[other]->state_content
                == m[other]->state_content
            &&& m[other] is Recompute ==> consume_all(m, ids)[other] == m[other]
        },
        m.contains_key(other) && m[other] is Recompute ==> consume_all(m, ids).contains_key(other),
    decreases ids.len(),
{
    if ids.len() > 0 {
        lemma_consume_all_keeps(m, ids.drop_last(), other);
        lemma_consume_keeps(consume_all(m, ids.drop_last()), ids.last(), other);
    }
}

/// Reads that can be made one after the other can be made up to any point.
pub proof fn lemma_can_consume_prefix<V>(m: Map<NodeID, State<V>>, ids: Seq<NodeID>, k: int)
    requires
        can_consume_all(m, ids),
        0 <= k <= ids.len(),
    ensures
        can_consume_all(m, ids.take(k)),
    decreases ids.len(),
{
    if k == ids.len() {
        assert(ids.take(k) =~= ids);
    } else {
        assert(ids.drop_last().take(k) =~= ids.take(k));
        lemma_can_consume_prefix(m, ids.drop_last(), k);
    }
}

/// What a run of reads leaves of one node: a node that is read `c > 0`
/// times was stored and expected at least `c` times, and stays, expected `c`
/// times less, unless it was expected `c` times; a node that is not read
/// stays as it is.
pub proof fn lemma_reads_count<V>(m: Map<NodeID, State<V>>, ids: Seq<NodeID>, id: NodeID)
    requires
        can_consume_all(m, ids),
    ensures
        occurrences(ids, id) == 0 ==> {
            &&& consume_all(m, ids).contains_key(id) == m.contains_key(id)
            &&& m.contains_key(id) ==> consume_all(m, ids)[id] == m[id]
        },
        occurrences(ids, id) > 0 ==> {
            &&& m.contains_key(id)
            &&& m[id] is Computed
            &&& m[id].required() >= occurrences(ids, id)
            &&& consume_all(m, ids).contains_key(id) == (m[id].required() > occurrences(ids, id))
            &&& consume_all(m, ids).contains_key(id) ==> {
                &&& consume_all(m, ids)[id] is Computed
                &&& consume_all(m, ids)[id].required() == m[id].required() - occurrences(ids, id)
            }
        },
    decreases ids.len(),
{
    if ids.len() > 0 {
        lemma_reads_count(m, ids.drop_last(), id);
        lemma_consume_keeps(consume_all(m, ids.drop_last()), ids.last(), id);
    }
}

/// A run of reads can be made exactly where each of the nodes is stored and
/// expected more often than it was read before.
pub proof fn lemma_readable<V>(m: Map<NodeID, State<V>>, ids: Seq<NodeID>)
    ensures
        can_consume_all(m, ids) == readable(m, ids),
    decreases ids.len(),
{
    if ids.len() > 0 {
        let before = ids.drop_last();
        let last = ids.last();
        let end = ids.len() - 1;
        lemma_readable(m, before);
        assert(ids.take(end) =~= before);
        assert forall|k: int| 0 <= k < before.len() implies readable_at(m, ids, k) == readable_at(
            m,
            before,
            k,
        ) by {
            assert(ids.take(k) =~= before.take(k));
            assert(ids[k] == before[k]);
        }
        if can_consume_all(m, before) {
            lemma_reads_count(m, before, last);
            assert(can_consume(consume_all(m, before), last) == readable_at(m, ids, end));
            if can_consume_all(m, ids) {
                assert forall|k: int| 0 <= k < ids.len() implies #[trigger] readable_at(
                    m,
                    ids,
                    k,
                ) by {
                    if k < end {
                        assert(readable_at(m, before, k));
                    }
                }
            } else {
                assert(!readable_at(m, ids, end));
            }
        } else {
            if readable(m, ids) {
                assert forall|k: int| 0 <= k < before.len() implies #[trigger] readable_at(
                    m,
                    before,
                    k,
                ) by {
                    assert(readable_at(m, ids, k));
                }
            }
        }
    }
}

/// No step is blocked exactly where all steps can be taken; a blocked step
/// is the first that cannot be taken.
pub proof fn lemma_blocked(
    m: Map<NodeID, State<()>>,
    inputs_of: Map<NodeID, Seq<NodeID>>,
    ids: Seq<NodeID>,
)
    ensures
        blocked(m, inputs_of, ids) is None == can_forward_all(m, inputs_of, ids),
        blocked(m, inputs_of, ids) matches Some(at) ==> {
            &&& 0 <= at < ids.len()
            &&& can_forward_all(m, inputs_of, ids.take(at))
            &&& !can_forward(forwarded_all(m, inputs_of, ids.take(at)), inputs_of, ids[at])
        },
    decreases ids.len(),
{
    if ids.len() > 0 {
        let before = ids.drop_last();
        lemma_blocked(m, inputs_of, before);
        match blocked(m, inputs_of, before) {
            Some(at) => {
                assert(before.take(at) =~= ids.take(at));
            },
            None => {
                assert(ids.take(ids.len() - 1) =~= before);
            },
        }
    }
}

/// The step that cannot be taken after steps that could is the blocked one.
pub proof fn lemma_blocked_at(
    m: Map<NodeID, State<()>>,
    inputs_of: Map<NodeID, Seq<NodeID>>,
    ids: Seq<NodeID>,
    at: int,
)
    requires
        0 <= at < ids.len(),
        can_forward_all(m, inputs_of, ids.take(at)),
        !can_forward(forwarded_all(m, inputs_of, ids.take(at)), inputs_of, ids[at]),
    ensures
        blocked(m, inputs_of, ids) == Some(at),
    decreases ids.len(),
{
    let before = ids.drop_last();
    if at < ids.len() - 1 {
        assert(before.take(at) =~= ids.take(at));
        lemma_blocked_at(m, inputs_of, before, at);
    } else {
        assert(ids.take(at) =~= before);
        lemma_blocked(m, inputs_of, before);
    }
}

} // verus!
