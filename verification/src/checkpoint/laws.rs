//! What holds of every store and every resolution.
use crate::checkpoint::model::{
    acyclic, can_consume, can_consume_all, can_forward, can_forward_all, can_resolve,
    consume, failure, lemma_blocked,
    consume_all, first_without_replay, forwarded, forwarded_all, is_ranking,
    lemma_consume_all_keeps, missing, order, order_parents, ranking, replays_of, resolved,
};
use crate::checkpoint::error::CheckpointError;
use crate::checkpoint::state::State;
use crate::node::NodeID;
use vstd::prelude::*;

verus! {

/// `count` reads of `id`, one after the other.
pub open spec fn repeated(id: NodeID, count: nat) -> Seq<NodeID> {
    Seq::new(count, |i: int| id)
}

/// A value that is expected `k` times can be read `k` times and no more. After
/// `j < k` reads it is still stored, unchanged, and expected `k - j` times;
/// the `k`-th read takes it out of the store.
pub proof fn lemma_reads_use_up_the_count<V>(m: Map<NodeID, State<V>>, id: NodeID, j: nat)
    requires
        m.contains_key(id),
        m[id] is Computed,
    ensures
        j <= m[id].required() ==> can_consume_all(m, repeated(id, j)),
        j < m[id].required() ==> {
            &&& consume_all(m, repeated(id, j)).contains_key(id)
            &&& consume_all(m, repeated(id, j))[id] is Computed
            &&& consume_all(m, repeated(id, j))[id]->state_content == m[id]->state_content
            &&& consume_all(m, repeated(id, j))[id].required() == m[id].required() - j
        },
        j == m[id].required() && j >= 1 ==> !consume_all(m, repeated(id, j)).contains_key(id),
        j > m[id].required() ==> !can_consume_all(m, repeated(id, j)),
    decreases j,
{
    if j > 0 {
        let before = (j - 1) as nat;
        assert(repeated(id, j).drop_last() =~= repeated(id, before));
        assert(repeated(id, j).last() == id);
        lemma_reads_use_up_the_count(m, id, before);
        if before > m[id].required() {
            assert(!can_consume_all(m, repeated(id, before)));
        } else if before == m[id].required() {
            if before >= 1 {
                assert(!can_consume(consume_all(m, repeated(id, before)), id));
            } else {
                assert(repeated(id, before) =~= Seq::<NodeID>::empty());
                assert(!can_consume(m, id));
            }
        }
    } else {
        assert(repeated(id, j) =~= Seq::<NodeID>::empty());
    }
}

/// Whether `target` stands in `ids` before the place `i`.
pub open spec fn stands_before(ids: Seq<NodeID>, i: int, target: NodeID) -> bool {
    exists|before: int| 0 <= before < i && #[trigger] ids[before] == target
}

/// Whether, in `ids`, every parent of a node that is pending in `m` stands
/// before that node.
pub open spec fn parents_first(
    m: Map<NodeID, State<()>>,
    tree: Map<NodeID, Seq<NodeID>>,
    ids: Seq<NodeID>,
) -> bool {
    forall|i: int, j: int|
        0 <= i < ids.len() && m[ids[i]] is Recompute && 0 <= j < tree[ids[i]].len()
            ==> #[trigger] stands_before(ids, i, tree[ids[i]][j])
}

/// Two orders in which parents come first stay so when one follows the other.
proof fn lemma_parents_first_concat(
    m: Map<NodeID, State<()>>,
    tree: Map<NodeID, Seq<NodeID>>,
    a: Seq<NodeID>,
    b: Seq<NodeID>,
)
    requires
        parents_first(m, tree, a),
        parents_first(m, tree, b),
    ensures
        parents_first(m, tree, a + b),
{
    let s = a + b;
    assert forall|i: int, j: int|
        0 <= i < s.len() && m[s[i]] is Recompute && 0 <= j < tree[s[i]].len()
        implies #[trigger] stands_before(s, i, tree[s[i]][j]) by {
        if i < a.len() {
            assert(s[i] == a[i]);
            assert(stands_before(a, i, tree[a[i]][j]));
            let before = choose|before: int| 0 <= before < i && #[trigger] a[before] == tree[a[i]][j];
            assert(s[before] == a[before]);
        } else {
            let at = i - a.len();
            assert(s[i] == b[at]);
            assert(stands_before(b, at, tree[b[at]][j]));
            let before = choose|before: int|
                0 <= before < at && #[trigger] b[before] == tree[b[at]][j];
            assert(s[before + a.len()] == b[before]);
        }
    }
}

/// The order of a node ends with the node, holds only nodes of the store, and
/// has every parent of a pending node before that node.
pub proof fn lemma_order_puts_parents_first(
    m: Map<NodeID, State<()>>,
    tree: Map<NodeID, Seq<NodeID>>,
    node: NodeID,
)
    requires
        acyclic(tree),
        order(m, tree, node) is Ok,
    ensures
        order(m, tree, node).unwrap().len() >= 1,
        order(m, tree, node).unwrap().last() == node,
        parents_first(m, tree, order(m, tree, node).unwrap()),
        forall|i: int|
            0 <= i < order(m, tree, node).unwrap().len() ==> m.contains_key(
                #[trigger] order(m, tree, node).unwrap()[i],
            ),
    decreases ranking(tree)(node), tree[node].len() + 1,
{
    let s = order(m, tree, node).unwrap();
    if m[node] is Computed {
        assert(s =~= seq![node]);
    } else {
        let before = order_parents(m, tree, node, tree[node].len()).unwrap();
        lemma_order_parents_puts_parents_first(m, tree, node, tree[node].len());
        assert(s =~= before.push(node));
        assert forall|i: int, j: int|
            0 <= i < s.len() && m[s[i]] is Recompute && 0 <= j < tree[s[i]].len()
            implies #[trigger] stands_before(s, i, tree[s[i]][j]) by {
            if i < before.len() {
                assert(s[i] == before[i]);
                assert(stands_before(before, i, tree[before[i]][j]));
                let at = choose|at: int|
                    0 <= at < i && #[trigger] before[at] == tree[before[i]][j];
                assert(s[at] == before[at]);
            } else {
                let at = choose|at: int|
                    0 <= at < before.len() && #[trigger] before[at] == tree[node][j];
                assert(s[at] == before[at]);
            }
        }
    }
}

/// The orders of the first `k` parents of a node, one after the other, hold
/// each of those parents and only nodes of the store, and have every parent of
/// a pending node before that node.
pub proof fn lemma_order_parents_puts_parents_first(
    m: Map<NodeID, State<()>>,
    tree: Map<NodeID, Seq<NodeID>>,
    node: NodeID,
    k: nat,
)
    requires
        acyclic(tree),
        tree.contains_key(node),
        k <= tree[node].len(),
        order_parents(m, tree, node, k) is Ok,
    ensures
        parents_first(m, tree, order_parents(m, tree, node, k).unwrap()),
        forall|j: int|
            0 <= j < k ==> exists|at: int|
                0 <= at < order_parents(m, tree, node, k).unwrap().len()
                    && #[trigger] order_parents(m, tree, node, k).unwrap()[at]
                    == #[trigger] tree[node][j],
        forall|i: int|
            0 <= i < order_parents(m, tree, node, k).unwrap().len() ==> m.contains_key(
                #[trigger] order_parents(m, tree, node, k).unwrap()[i],
            ),
    decreases ranking(tree)(node), k,
{
    let s = order_parents(m, tree, node, k).unwrap();
    if k > 0 {
        let parent = tree[node][k - 1];
        assert(is_ranking(tree, ranking(tree)));
        let before = order_parents(m, tree, node, (k - 1) as nat).unwrap();
        let last = order(m, tree, parent).unwrap();
        lemma_order_parents_puts_parents_first(m, tree, node, (k - 1) as nat);
        lemma_order_puts_parents_first(m, tree, parent);
        lemma_parents_first_concat(m, tree, before, last);
        assert(s == before + last);
        assert forall|j: int| 0 <= j < k implies exists|at: int|
            0 <= at < s.len() && #[trigger] s[at] == #[trigger] tree[node][j] by {
            if j < k - 1 {
                let at = choose|at: int|
                    0 <= at < before.len() && #[trigger] before[at] == tree[node][j];
                assert(s[at] == before[at]);
            } else {
                let at = before.len() + last.len() - 1;
                assert(s[at] == last[last.len() - 1]);
            }
        }
        assert forall|i: int| 0 <= i < s.len() implies m.contains_key(#[trigger] s[i]) by {
            if i < before.len() {
                assert(s[i] == before[i]);
            } else {
                assert(s[i] == last[i - before.len()]);
            }
        }
    }
}

/// Every node of an order but the last is a proper ancestor of the node that
/// the order is for.
pub proof fn lemma_order_holds_ancestors(
    m: Map<NodeID, State<()>>,
    tree: Map<NodeID, Seq<NodeID>>,
    node: NodeID,
)
    requires
        acyclic(tree),
        order(m, tree, node) is Ok,
    ensures
        forall|i: int|
            0 <= i < order(m, tree, node).unwrap().len() - 1 ==> ranking(tree)(
                #[trigger] order(m, tree, node).unwrap()[i],
            ) < ranking(tree)(node),
    decreases ranking(tree)(node), tree[node].len() + 1,
{
    let s = order(m, tree, node).unwrap();
    if m[node] is Computed {
        assert(s =~= seq![node]);
    } else {
        let before = order_parents(m, tree, node, tree[node].len()).unwrap();
        lemma_order_parents_holds_ancestors(m, tree, node, tree[node].len());
        assert(s =~= before.push(node));
        assert forall|i: int| 0 <= i < s.len() - 1 implies ranking(tree)(#[trigger] s[i]) < ranking(
            tree,
        )(node) by {
            assert(s[i] == before[i]);
        }
    }
}

/// Every node in the orders of a node's parents is a proper ancestor of the
/// node.
pub proof fn lemma_order_parents_holds_ancestors(
    m: Map<NodeID, State<()>>,
    tree: Map<NodeID, Seq<NodeID>>,
    node: NodeID,
    k: nat,
)
    requires
        acyclic(tree),
        tree.contains_key(node),
        k <= tree[node].len(),
        order_parents(m, tree, node, k) is Ok,
    ensures
        forall|i: int|
            0 <= i < order_parents(m, tree, node, k).unwrap().len() ==> ranking(tree)(
                #[trigger] order_parents(m, tree, node, k).unwrap()[i],
            ) < ranking(tree)(node),
    decreases ranking(tree)(node), k,
{
    let s = order_parents(m, tree, node, k).unwrap();
    if k > 0 {
        let parent = tree[node][k - 1];
        assert(is_ranking(tree, ranking(tree)));
        let before = order_parents(m, tree, node, (k - 1) as nat).unwrap();
        let last = order(m, tree, parent).unwrap();
        lemma_order_parents_holds_ancestors(m, tree, node, (k - 1) as nat);
        lemma_order_holds_ancestors(m, tree, parent);
        lemma_order_puts_parents_first(m, tree, parent);
        assert(s == before + last);
        assert forall|i: int| 0 <= i < s.len() implies ranking(tree)(#[trigger] s[i]) < ranking(
            tree,
        )(node) by {
            if i < before.len() {
                assert(s[i] == before[i]);
            } else {
                assert(s[i] == last[i - before.len()]);
            }
        }
    }
}

/// The steps at `ids` leave a pending node alone that is not among them, and
/// replay only nodes that are among them.
pub proof fn lemma_steps_keep_other_pending_nodes(
    m: Map<NodeID, State<()>>,
    inputs_of: Map<NodeID, Seq<NodeID>>,
    ids: Seq<NodeID>,
    node: NodeID,
)
    requires
        can_forward_all(m, inputs_of, ids),
        m.contains_key(node),
        m[node] is Recompute,
        !ids.contains(node),
    ensures
        forwarded_all(m, inputs_of, ids).contains_key(node),
        forwarded_all(m, inputs_of, ids)[node] == m[node],
        !replays_of(m, inputs_of, ids).contains(node),
    decreases ids.len(),
{
    if ids.len() > 0 {
        let before = ids.drop_last();
        let at = ids.last();
        assert(ids[ids.len() - 1] == at);
        assert forall|i: int| 0 <= i < before.len() implies before[i] != node by {
            assert(ids[i] == before[i]);
        }
        lemma_steps_keep_other_pending_nodes(m, inputs_of, before, node);
        let mid = forwarded_all(m, inputs_of, before);
        if mid[at] is Recompute {
            lemma_consume_all_keeps(mid, inputs_of[at], node);
        }
        let earlier = replays_of(m, inputs_of, before);
        assert forall|i: int|
            0 <= i < replays_of(m, inputs_of, ids).len() implies replays_of(m, inputs_of, ids)[i]
            != node by {
            if i < earlier.len() {
                assert(earlier[i] != node);
            }
        }
    }
}

/// A pending node that is expected more than once is replayed once: the
/// resolution that serves its first read replays it, as its last step, and
/// leaves it stored with one read less expected; the resolution that serves
/// the next read finds it stored, takes the one step that changes nothing, and
/// replays no node.
pub proof fn lemma_shared_node_is_replayed_once(
    m: Map<NodeID, State<()>>,
    tree: Map<NodeID, Seq<NodeID>>,
    inputs_of: Map<NodeID, Seq<NodeID>>,
    node: NodeID,
)
    requires
        can_resolve(m, tree, inputs_of, node),
        m[node] is Recompute,
        m[node].required() >= 2,
    ensures
        ({
            let first = replays_of(m, inputs_of, order(m, tree, node).unwrap());
            &&& first.len() >= 1
            &&& first.last() == node
            &&& !first.drop_last().contains(node)
        }),
        ({
            let after = resolved(m, tree, inputs_of, node);
            &&& after.contains_key(node)
            &&& after[node] == State::Computed {
                state_content: (),
                n_required: (m[node].required() - 1) as usize,
            }
            &&& can_resolve(after, tree, inputs_of, node)
            &&& order(after, tree, node) == Ok::<Seq<NodeID>, CheckpointError>(seq![node])
            &&& forwarded_all(after, inputs_of, seq![node]) == after
            &&& replays_of(after, inputs_of, seq![node]) == Seq::<NodeID>::empty()
        }),
{
    let s = order(m, tree, node).unwrap();
    let before = order_parents(m, tree, node, tree[node].len()).unwrap();
    assert(s =~= before.push(node));
    assert(s.drop_last() =~= before);
    lemma_order_holds_ancestors(m, tree, node);
    assert forall|i: int| 0 <= i < before.len() implies before[i] != node by {
        assert(s[i] == before[i]);
    }
    lemma_steps_keep_other_pending_nodes(m, inputs_of, before, node);
    let mid = forwarded_all(m, inputs_of, before);
    assert(can_forward(mid, inputs_of, node));
    lemma_consume_all_keeps(mid, inputs_of[node], node);
    let first = replays_of(m, inputs_of, s);
    assert(first == replays_of(m, inputs_of, before).push(node));
    assert(first.drop_last() =~= replays_of(m, inputs_of, before));

    let after = resolved(m, tree, inputs_of, node);
    let one = seq![node];
    assert(one.drop_last() =~= Seq::<NodeID>::empty());
    assert(one.last() == node);
    assert(forwarded_all(after, inputs_of, one.drop_last()) == after);
    assert(can_forward_all(after, inputs_of, one.drop_last()));
    assert(forwarded(after, inputs_of, node) == after);
    assert(replays_of(after, inputs_of, one.drop_last()) == Seq::<NodeID>::empty());
}

/// A node that is not in the store cannot be resolved: neither one that was
/// never put there, nor one that was read as often as it was expected.
pub proof fn lemma_absent_node_cannot_be_resolved(
    m: Map<NodeID, State<()>>,
    tree: Map<NodeID, Seq<NodeID>>,
    inputs_of: Map<NodeID, Seq<NodeID>>,
    node: NodeID,
)
    requires
        !m.contains_key(node),
    ensures
        !can_resolve(m, tree, inputs_of, node),
{
}

/// Reading a node for the last time it is expected leaves a store in which
/// it cannot be resolved again.
pub proof fn lemma_no_read_beyond_the_count(
    m: Map<NodeID, State<()>>,
    tree: Map<NodeID, Seq<NodeID>>,
    inputs_of: Map<NodeID, Seq<NodeID>>,
    node: NodeID,
)
    requires
        can_resolve(m, tree, inputs_of, node),
        forwarded_all(m, inputs_of, order(m, tree, node).unwrap())[node].required() == 1,
    ensures
        !resolved(m, tree, inputs_of, node).contains_key(node),
        !can_resolve(resolved(m, tree, inputs_of, node), tree, inputs_of, node),
{
}

/// Where a pending node of `ids` has no replay procedure, the steps at `ids`
/// cannot all be taken.
pub proof fn lemma_pending_node_needs_a_replay(
    m: Map<NodeID, State<()>>,
    inputs_of: Map<NodeID, Seq<NodeID>>,
    ids: Seq<NodeID>,
)
    requires
        first_without_replay(m, inputs_of, ids) is Some,
    ensures
        !can_forward_all(m, inputs_of, ids),
    decreases ids.len(),
{
    if ids.len() > 0 {
        let before = ids.drop_last();
        if first_without_replay(m, inputs_of, before) is Some {
            lemma_pending_node_needs_a_replay(m, inputs_of, before);
        } else if can_forward_all(m, inputs_of, before) {
            let node = ids.last();
            if before.contains(node) {
                let at = choose|at: int| 0 <= at < before.len() && before[at] == node;
                lemma_first_without_replay_finds(m, inputs_of, before, at);
            } else {
                lemma_steps_keep_other_pending_nodes(m, inputs_of, before, node);
            }
        }
    }
}

/// A pending node of `ids` that has no replay procedure is found, or one
/// before it.
proof fn lemma_first_without_replay_finds(
    m: Map<NodeID, State<()>>,
    inputs_of: Map<NodeID, Seq<NodeID>>,
    ids: Seq<NodeID>,
    at: int,
)
    requires
        0 <= at < ids.len(),
        m.contains_key(ids[at]),
        m[ids[at]] is Recompute,
        !inputs_of.contains_key(ids[at]),
    ensures
        first_without_replay(m, inputs_of, ids) is Some,
    decreases ids.len(),
{
    if at < ids.len() - 1 {
        lemma_first_without_replay_finds(m, inputs_of, ids.drop_last(), at);
    }
}

/// Where something is missing, the node cannot be resolved.
pub proof fn lemma_nothing_is_resolved_when_something_is_missing(
    m: Map<NodeID, State<()>>,
    tree: Map<NodeID, Seq<NodeID>>,
    inputs_of: Map<NodeID, Seq<NodeID>>,
    node: NodeID,
)
    requires
        missing(m, tree, inputs_of, node) is Some,
    ensures
        !can_resolve(m, tree, inputs_of, node),
{
    if order(m, tree, node) is Ok {
        lemma_pending_node_needs_a_replay(m, inputs_of, order(m, tree, node).unwrap());
    }
}

/// A graph in which every parent has a smaller number than its child has no
/// cycle. Graphs whose nodes are numbered as they are made are such graphs.
pub proof fn lemma_numbered_graph_is_acyclic(tree: Map<NodeID, Seq<NodeID>>)
    requires
        forall|n: NodeID, i: int|
            tree.contains_key(n) && 0 <= i < tree[n].len() ==> (#[trigger] tree[n][i]).value
                < n.value,
    ensures
        acyclic(tree),
{
    let rank = |n: NodeID| n.value as nat;
    assert(is_ranking(tree, rank));
}

/// A stored value that is still expected can be resolved wherever the graph
/// has no cycle: no node is replayed, and the value is read.
pub proof fn lemma_stored_node_can_be_resolved(
    m: Map<NodeID, State<()>>,
    tree: Map<NodeID, Seq<NodeID>>,
    inputs_of: Map<NodeID, Seq<NodeID>>,
    node: NodeID,
)
    requires
        acyclic(tree),
        can_consume(m, node),
    ensures
        can_resolve(m, tree, inputs_of, node),
        resolved(m, tree, inputs_of, node) == consume(m, node),
        replays_of(m, inputs_of, order(m, tree, node).unwrap()) == Seq::<NodeID>::empty(),
{
    let one = seq![node];
    assert(order(m, tree, node) == Ok::<Seq<NodeID>, CheckpointError>(one));
    assert(one.drop_last() =~= Seq::<NodeID>::empty());
    assert(one.last() == node);
    assert(forwarded_all(m, inputs_of, one.drop_last()) == m);
    assert(can_forward_all(m, inputs_of, one.drop_last()));
    assert(forwarded(m, inputs_of, node) == m);
    assert(replays_of(m, inputs_of, one.drop_last()) == Seq::<NodeID>::empty());
}

/// Where the first `k` parents of a node are stored, their orders are the
/// parents themselves, and the steps at them change nothing.
proof fn lemma_stored_parents_are_their_own_order(
    m: Map<NodeID, State<()>>,
    tree: Map<NodeID, Seq<NodeID>>,
    inputs_of: Map<NodeID, Seq<NodeID>>,
    node: NodeID,
    k: nat,
)
    requires
        acyclic(tree),
        tree.contains_key(node),
        k <= tree[node].len(),
        forall|i: int|
            0 <= i < k ==> m.contains_key(#[trigger] tree[node][i]) && m[tree[node][i]] is Computed,
    ensures
        order_parents(m, tree, node, k) == Ok::<Seq<NodeID>, CheckpointError>(
            tree[node].take(k as int),
        ),
        can_forward_all(m, inputs_of, tree[node].take(k as int)),
        forwarded_all(m, inputs_of, tree[node].take(k as int)) == m,
        replays_of(m, inputs_of, tree[node].take(k as int)) == Seq::<NodeID>::empty(),
    decreases k,
{
    let parents = tree[node];
    if k == 0 {
        assert(parents.take(0) =~= Seq::<NodeID>::empty());
    } else {
        lemma_stored_parents_are_their_own_order(m, tree, inputs_of, node, (k - 1) as nat);
        let parent = parents[k - 1];
        assert(m.contains_key(parent) && m[parent] is Computed);
        assert(order(m, tree, parent) == Ok::<Seq<NodeID>, CheckpointError>(seq![parent]));
        assert(parents.take(k - 1) + seq![parent] =~= parents.take(k as int));
        assert(parents.take(k as int).drop_last() =~= parents.take(k - 1));
        assert(parents.take(k as int).last() == parent);
    }
}

/// A pending node whose parents are all stored can be resolved where it has
/// a replay procedure whose inputs can be read, and is itself expected: the
/// steps at its parents change nothing, the node is replayed, and it is read.
pub proof fn lemma_node_over_stored_parents_can_be_resolved(
    m: Map<NodeID, State<()>>,
    tree: Map<NodeID, Seq<NodeID>>,
    inputs_of: Map<NodeID, Seq<NodeID>>,
    node: NodeID,
)
    requires
        acyclic(tree),
        m.contains_key(node),
        m[node] is Recompute,
        m[node].required() >= 1,
        tree.contains_key(node),
        forall|i: int|
            0 <= i < tree[node].len() ==> m.contains_key(#[trigger] tree[node][i])
                && m[tree[node][i]] is Computed,
        inputs_of.contains_key(node),
        can_consume_all(m, inputs_of[node]),
    ensures
        can_resolve(m, tree, inputs_of, node),
        order(m, tree, node) == Ok::<Seq<NodeID>, CheckpointError>(tree[node].push(node)),
        forwarded_all(m, inputs_of, tree[node]) == m,
        replays_of(m, inputs_of, tree[node].push(node)) == seq![node],
        resolved(m, tree, inputs_of, node) == consume(
            consume_all(m, inputs_of[node]).insert(
                node,
                State::Computed { state_content: (), n_required: m[node].required() as usize },
            ),
            node,
        ),
{
    let parents = tree[node];
    lemma_stored_parents_are_their_own_order(m, tree, inputs_of, node, parents.len());
    assert(parents.take(parents.len() as int) =~= parents);
    let s = parents.push(node);
    assert(s.drop_last() =~= parents);
    assert(s.last() == node);
    assert(can_forward(m, inputs_of, node));
    assert(replays_of(m, inputs_of, s) =~= seq![node]);
}

/// Whether `node` is in the store `m` without a value.
pub open spec fn is_pending(m: Map<NodeID, State<()>>, node: NodeID) -> bool {
    m.contains_key(node) && m[node] is Recompute
}

/// One step makes no node pending, and leaves the node at which it is taken
/// stored.
proof fn lemma_step_makes_no_node_pending(
    m: Map<NodeID, State<()>>,
    inputs_of: Map<NodeID, Seq<NodeID>>,
    at: NodeID,
    node: NodeID,
)
    requires
        can_forward(m, inputs_of, at),
    ensures
        !is_pending(m, node) ==> !is_pending(forwarded(m, inputs_of, at), node),
        !is_pending(forwarded(m, inputs_of, at), at),
{
    if m[at] is Recompute {
        lemma_consume_all_keeps(m, inputs_of[at], node);
        lemma_consume_all_keeps(m, inputs_of[at], at);
    }
}

/// Steps make no node pending: a node that is stored, or not in the store,
/// is not pending afterwards.
pub proof fn lemma_steps_make_no_node_pending(
    m: Map<NodeID, State<()>>,
    inputs_of: Map<NodeID, Seq<NodeID>>,
    ids: Seq<NodeID>,
    node: NodeID,
)
    requires
        can_forward_all(m, inputs_of, ids),
        !is_pending(m, node),
    ensures
        !is_pending(forwarded_all(m, inputs_of, ids), node),
    decreases ids.len(),
{
    if ids.len() > 0 {
        lemma_steps_make_no_node_pending(m, inputs_of, ids.drop_last(), node);
        lemma_step_makes_no_node_pending(
            forwarded_all(m, inputs_of, ids.drop_last()),
            inputs_of,
            ids.last(),
            node,
        );
    }
}

/// A node that the steps replay was pending before them and is not pending
/// after them.
pub proof fn lemma_replayed_nodes_were_pending(
    m: Map<NodeID, State<()>>,
    inputs_of: Map<NodeID, Seq<NodeID>>,
    ids: Seq<NodeID>,
    node: NodeID,
)
    requires
        can_forward_all(m, inputs_of, ids),
        replays_of(m, inputs_of, ids).contains(node),
    ensures
        is_pending(m, node),
        !is_pending(forwarded_all(m, inputs_of, ids), node),
    decreases ids.len(),
{
    if ids.len() > 0 {
        let before = ids.drop_last();
        let mid = forwarded_all(m, inputs_of, before);
        let earlier = replays_of(m, inputs_of, before);
        let all = replays_of(m, inputs_of, ids);
        let at = choose|at: int| 0 <= at < all.len() && all[at] == node;
        if at < earlier.len() {
            assert(earlier[at] == node);
            lemma_replayed_nodes_were_pending(m, inputs_of, before, node);
            lemma_step_makes_no_node_pending(mid, inputs_of, ids.last(), node);
        } else {
            assert(node == ids.last());
            if !is_pending(m, node) {
                lemma_steps_make_no_node_pending(m, inputs_of, before, node);
            }
            lemma_step_makes_no_node_pending(mid, inputs_of, ids.last(), node);
        }
    }
}

/// No node is replayed twice: not in one resolution, and not in a later one,
/// since the node is not pending after its replay.
pub proof fn lemma_each_node_is_replayed_at_most_once(
    m: Map<NodeID, State<()>>,
    inputs_of: Map<NodeID, Seq<NodeID>>,
    ids: Seq<NodeID>,
)
    requires
        can_forward_all(m, inputs_of, ids),
    ensures
        replays_of(m, inputs_of, ids).no_duplicates(),
    decreases ids.len(),
{
    if ids.len() > 0 {
        let before = ids.drop_last();
        let earlier = replays_of(m, inputs_of, before);
        lemma_each_node_is_replayed_at_most_once(m, inputs_of, before);
        if earlier.contains(ids.last()) {
            lemma_replayed_nodes_were_pending(m, inputs_of, before, ids.last());
        }
    }
}

/// After the step at a node, the node is not pending, whatever steps follow.
pub proof fn lemma_node_is_not_pending_after_its_step(
    m: Map<NodeID, State<()>>,
    inputs_of: Map<NodeID, Seq<NodeID>>,
    ids: Seq<NodeID>,
    at: int,
    k: int,
)
    requires
        0 <= at < k <= ids.len(),
        can_forward_all(m, inputs_of, ids.take(k)),
    ensures
        !is_pending(forwarded_all(m, inputs_of, ids.take(k)), ids[at]),
    decreases k,
{
    let upto = ids.take(k);
    assert(upto.drop_last() =~= ids.take(k - 1));
    assert(upto.last() == ids[k - 1]);
    let mid = forwarded_all(m, inputs_of, ids.take(k - 1));
    if at < k - 1 {
        lemma_node_is_not_pending_after_its_step(m, inputs_of, ids, at, k - 1);
    }
    lemma_step_makes_no_node_pending(mid, inputs_of, ids[k - 1], ids[at]);
}

/// When a node is replayed, none of its parents is pending: the step at each
/// of them was taken before, so each is stored, or was stored and is used
/// up. Those that the replay procedure reads are stored, since the step can
/// be taken.
pub proof fn lemma_parents_are_resolved_when_a_node_is_replayed(
    m: Map<NodeID, State<()>>,
    tree: Map<NodeID, Seq<NodeID>>,
    inputs_of: Map<NodeID, Seq<NodeID>>,
    node: NodeID,
    at: int,
)
    requires
        acyclic(tree),
        order(m, tree, node) is Ok,
        0 <= at < order(m, tree, node).unwrap().len(),
        can_forward_all(m, inputs_of, order(m, tree, node).unwrap().take(at + 1)),
        is_pending(
            forwarded_all(m, inputs_of, order(m, tree, node).unwrap().take(at)),
            order(m, tree, node).unwrap()[at],
        ),
    ensures
        forall|j: int|
            0 <= j < tree[order(m, tree, node).unwrap()[at]].len() ==> !is_pending(
                forwarded_all(m, inputs_of, order(m, tree, node).unwrap().take(at)),
                #[trigger] tree[order(m, tree, node).unwrap()[at]][j],
            ),
        can_consume_all(
            forwarded_all(m, inputs_of, order(m, tree, node).unwrap().take(at)),
            inputs_of[order(m, tree, node).unwrap()[at]],
        ),
{
    let ids = order(m, tree, node).unwrap();
    let child = ids[at];
    let mid = forwarded_all(m, inputs_of, ids.take(at));
    assert(ids.take(at + 1).drop_last() =~= ids.take(at));
    assert(ids.take(at + 1).last() == child);
    assert(can_forward_all(m, inputs_of, ids.take(at)));
    assert(can_forward(mid, inputs_of, child));
    if !is_pending(m, child) {
        lemma_steps_make_no_node_pending(m, inputs_of, ids.take(at), child);
    }
    lemma_order_puts_parents_first(m, tree, node);
    assert forall|j: int| 0 <= j < tree[child].len() implies !is_pending(
        mid,
        #[trigger] tree[child][j],
    ) by {
        assert(stands_before(ids, at, tree[ids[at]][j]));
        let before = choose|before: int| 0 <= before < at && #[trigger] ids[before] == tree[child][j];
        lemma_node_is_not_pending_after_its_step(m, inputs_of, ids, before, at);
    }
}

/// A node can be resolved exactly where no failure is named for it.
pub proof fn lemma_failure_is_named_exactly_when_the_node_cannot_be_resolved(
    m: Map<NodeID, State<()>>,
    tree: Map<NodeID, Seq<NodeID>>,
    inputs_of: Map<NodeID, Seq<NodeID>>,
    node: NodeID,
)
    requires
        acyclic(tree),
    ensures
        failure(m, tree, inputs_of, node) is None == can_resolve(m, tree, inputs_of, node),
{
    if missing(m, tree, inputs_of, node) is Some {
        lemma_nothing_is_resolved_when_something_is_missing(m, tree, inputs_of, node);
    } else {
        lemma_blocked(m, inputs_of, order(m, tree, node).unwrap());
    }
}

} // verus!
