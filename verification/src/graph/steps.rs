//! The map from nodes to their backward steps, and what a merge does to it.
use std::collections::HashMap;
use vstd::prelude::*;
use vstd::std_specs::iter::IteratorSpec;

verus! {

broadcast use vstd::std_specs::hash::group_hash_axioms;

/// The backward steps of a graph, each under the number of its node.
pub type NodeSteps<S: ?Sized> = HashMap<u64, Box<S>>;

/// The numbers under which a map holds steps, each once.
pub fn node_numbers<S: ?Sized>(map: &NodeSteps<S>) -> (numbers: Vec<u64>)
    ensures
        numbers@.no_duplicates(),
        numbers@.to_set() == map@.dom(),
{
    let mut numbers: Vec<u64> = Vec::new();
    let ghost all = map.keys().remaining().unref();
    for number in iter: map.keys()
        invariant
            all == iter.seq().unref(),
            numbers@ == all.take(iter.index() as int),
    {
        proof {
            assert(all.take(iter.index() + 1) =~= all.take(iter.index() as int).push(*number));
        }
        numbers.push(*number);
    }
    proof {
        assert(all.take(all.len() as int) =~= all);
        assert forall|i: int, j: int|
            0 <= i < all.len() && 0 <= j < all.len() && i != j implies all[i] != all[j] by {
            let refs = map.keys().remaining();
            assert(refs[i] != refs[j]);
        }
    }
    numbers
}

/// What draining leaves in a map, and what it hands out: nothing, and all
/// that the map held.
pub open spec fn drained_steps<S: ?Sized>(map: Map<u64, Box<S>>) -> (Map<u64, Box<S>>, Map<
    u64,
    Box<S>,
>) {
    (Map::empty(), map)
}

/// Takes every step out of the map and leaves it empty.
pub fn drain_steps<S: ?Sized>(map: &mut NodeSteps<S>) -> (drained: NodeSteps<S>)
    ensures
        (final(map)@, drained@) == drained_steps(old(map)@),
{
    let mut map_drain: NodeSteps<S> = HashMap::new();
    std::mem::swap(map, &mut map_drain);
    map_drain
}

/// Moves every step of `from` into `into`. Where both hold a step for a
/// node, that of `from` stays.
pub fn extend_steps<S: ?Sized>(into: &mut NodeSteps<S>, from: NodeSteps<S>)
    ensures
        final(into)@ == old(into)@.union_prefer_right(from@),
{
    let numbers = node_numbers(&from);
    let mut from = from;
    let ghost start = into@;
    let ghost source = from@;
    let mut i: usize = 0;
    while i < numbers.len()
        invariant
            i <= numbers.len(),
            numbers@.no_duplicates(),
            numbers@.to_set() == source.dom(),
            from@ == source.remove_keys(numbers@.take(i as int).to_set()),
            into@ == start.union_prefer_right(source.restrict(numbers@.take(i as int).to_set())),
        decreases numbers.len() - i,
    {
        let number = numbers[i];
        let ghost done = numbers@.take(i as int);
        proof {
            assert(numbers@.take(i + 1) =~= done.push(number));
            assert(numbers@.to_set().contains(numbers@[i as int]));
            assert(!done.to_set().contains(number)) by {
                if done.to_set().contains(number) {
                    let at = choose|at: int| 0 <= at < done.len() && done[at] == number;
                    assert(numbers@[at] == numbers@[i as int]);
                }
            }
            done.lemma_push_to_set_commute(number);
        }
        match from.remove(&number) {
            Some(step) => {
                into.insert(number, step);
            },
            None => {},
        }
        proof {
            assert(from@ =~= source.remove_keys(done.to_set().insert(number)));
            assert(into@ =~= start.union_prefer_right(
                source.restrict(done.to_set().insert(number)),
            ));
        }
        i += 1;
    }
    proof {
        assert(numbers@.take(i as int) =~= numbers@);
        assert(source.restrict(source.dom()) =~= source);
    }
}

/// The steps of two maps in one. Where both hold a step for a node, that of
/// the map with fewer steps stays, and that of the first where they hold
/// equally many.
pub open spec fn merged_steps<S: ?Sized>(first: Map<u64, Box<S>>, second: Map<u64, Box<S>>) -> Map<
    u64,
    Box<S>,
> {
    if first.len() > second.len() {
        first.union_prefer_right(second)
    } else {
        second.union_prefer_right(first)
    }
}

/// Folds the smaller of two maps into the larger and leaves the result in
/// `map1`.
pub fn merge_steps<S: ?Sized>(map1: &mut NodeSteps<S>, map2: NodeSteps<S>)
    ensures
        final(map1)@ == merged_steps(old(map1)@, map2@),
{
    let mut map2 = map2;
    if map1.len() > map2.len() {
        extend_steps(map1, map2);
    } else {
        let map_drain = drain_steps(map1);
        extend_steps(&mut map2, map_drain);
        std::mem::swap(map1, &mut map2);
    }
}

/// For maps that share no node, the order in which they are merged does not
/// matter: merging the first with the second and then with the third gives
/// the steps that merging the first with the merge of the other two gives.
pub proof fn lemma_merge_is_associative<S: ?Sized>(
    a: Map<u64, Box<S>>,
    b: Map<u64, Box<S>>,
    c: Map<u64, Box<S>>,
)
    requires
        a.dom().disjoint(b.dom()),
        a.dom().disjoint(c.dom()),
        b.dom().disjoint(c.dom()),
    ensures
        merged_steps(merged_steps(a, b), c) == merged_steps(a, merged_steps(b, c)),
        merged_steps(a, b) == merged_steps(b, a),
        merged_steps(merged_steps(a, b), c).dom() == a.dom().union(b.dom()).union(c.dom()),
{
    assert(a.union_prefer_right(b) =~= b.union_prefer_right(a));
    assert(b.union_prefer_right(c) =~= c.union_prefer_right(b));
    let ab = a.union_prefer_right(b);
    let bc = b.union_prefer_right(c);
    assert(ab.union_prefer_right(c) =~= c.union_prefer_right(ab));
    assert(a.union_prefer_right(bc) =~= bc.union_prefer_right(a));
    assert(ab.union_prefer_right(c) =~= a.union_prefer_right(bc));
    assert(ab.union_prefer_right(c).dom() =~= a.dom().union(b.dom()).union(c.dom()));
}

/// A map that was drained holds nothing: draining it again hands out no
/// step.
pub proof fn lemma_drained_once<S: ?Sized>(map: Map<u64, Box<S>>)
    ensures
        drained_steps(map).1 == map,
        drained_steps(drained_steps(map).0).1 == Map::<u64, Box<S>>::empty(),
{
}

} // verus!
