//! Two indices that hold the same edges, one by source, one by
//! destination.

use vstd::prelude::*;
use crate::index::compact::values_for;
use crate::index::unsorted::{stamped, Update};
use crate::index::{due_diff, remaining, seen_diff, Index, Visible};
use crate::weights::{
    lemma_sum_by_agree, lemma_sum_by_concat, lemma_sum_by_rearranged, lemma_wrap_add, occurrences,
    sum_by, wrap,
};

verus! {

/// The diff of an update if it is about `(key, value)` and made at a time
/// that `when` admits, else nothing.
pub open spec fn timed_diff(key: u32, value: u32, when: spec_fn(u64) -> bool) -> spec_fn(
    Update,
) -> int {
    |u: Update| if u.0 == key && u.1 == value && when(u.2) { u.3 as int } else { 0 }
}

/// The updates with source and destination exchanged.
pub open spec fn turned(updates: Seq<((u32, u32), i32)>) -> Seq<((u32, u32), i32)> {
    updates.map_values(|u: ((u32, u32), i32)| ((u.0.1, u.0.0), u.1))
}

/// The edges with source and destination exchanged.
pub open spec fn turned_pairs(edges: Seq<(u32, u32)>) -> Seq<(u32, u32)> {
    edges.map_values(|e: (u32, u32)| (e.1, e.0))
}

/// One for the pair `(key, value)`, nothing for another.
pub open spec fn one_pair(key: u32, value: u32) -> spec_fn((u32, u32)) -> int {
    |p: (u32, u32)| if p.0 == key && p.1 == value { 1int } else { 0 }
}

/// The two indices hold the same pairs, turned round: what the first holds
/// for a value under a key, in each of its layers and at whatever times,
/// the second holds for the key under the value.
pub open spec fn twins(forward: Index, reverse: Index) -> bool {
    &&& forall|k: u32, v: u32|
        #[trigger] occurrences(forward.base(k), v) == occurrences(reverse.base(v), k)
    &&& forall|k: u32, v: u32| #[trigger] forward.committed(k, v) == reverse.committed(v, k)
    &&& forall|k: u32, v: u32, when: spec_fn(u64) -> bool|
        sum_by(forward.pending(), #[trigger] timed_diff(k, v, when)) == sum_by(
            reverse.pending(),
            timed_diff(v, k, when),
        )
}

/// Twins give a pair and the pair turned round the same weight.
pub proof fn lemma_twins_weigh_alike(
    forward: Index,
    reverse: Index,
    key: u32,
    value: u32,
    valid: Visible,
)
    requires
        twins(forward, reverse),
    ensures
        forward.weight(key, value, valid) == reverse.weight(value, key, valid),
        forward.accumulated(key, value, valid) == reverse.accumulated(value, key, valid),
{
    let when = |t: u64| valid.admits(t);
    assert(occurrences(forward.base(key), value) == occurrences(reverse.base(value), key));
    assert(forward.committed(key, value) == reverse.committed(value, key));
    lemma_sum_by_agree(
        forward.pending(),
        seen_diff(key, value, valid),
        timed_diff(key, value, when),
    );
    lemma_sum_by_agree(
        reverse.pending(),
        seen_diff(value, key, valid),
        timed_diff(value, key, when),
    );
}

/// How often the values of a key hold a value is how often the pairs hold
/// the pair.
pub proof fn lemma_values_count(pairs: Seq<(u32, u32)>, key: u32, value: u32)
    ensures
        occurrences(values_for(pairs, key), value) == sum_by(pairs, one_pair(key, value)),
    decreases pairs.len(),
{
    if pairs.len() > 0 {
        lemma_values_count(pairs.drop_last(), key, value);
        if pairs.last().0 == key {
            crate::weights::lemma_sum_by_push(
                values_for(pairs.drop_last(), key),
                pairs.last().1,
                crate::weights::one_at(value),
            );
        }
    }
}

/// Pairs turned round hold a pair as often as the pairs hold it turned
/// round.
pub proof fn lemma_turned_count(pairs: Seq<(u32, u32)>, key: u32, value: u32)
    ensures
        sum_by(turned_pairs(pairs), one_pair(value, key)) == sum_by(pairs, one_pair(key, value)),
    decreases pairs.len(),
{
    if pairs.len() > 0 {
        lemma_turned_count(pairs.drop_last(), key, value);
        assert(turned_pairs(pairs).drop_last() =~= turned_pairs(pairs.drop_last()));
    }
}

/// A batch turned round adds to a pair turned round what the batch adds to
/// the pair.
pub proof fn lemma_turned_batch(
    batch: Seq<((u32, u32), i32)>,
    time: u64,
    key: u32,
    value: u32,
    when: spec_fn(u64) -> bool,
)
    ensures
        sum_by(stamped(turned(batch), time), timed_diff(value, key, when)) == sum_by(
            stamped(batch, time),
            timed_diff(key, value, when),
        ),
    decreases batch.len(),
{
    if batch.len() > 0 {
        lemma_turned_batch(batch.drop_last(), time, key, value, when);
        assert(stamped(turned(batch), time).drop_last() =~= stamped(
            turned(batch.drop_last()),
            time,
        ));
        assert(stamped(batch, time).drop_last() =~= stamped(batch.drop_last(), time));
    }
}

/// What stays behind after a commit adds what the later updates add.
pub proof fn lemma_remaining_timed(
    updates: Seq<Update>,
    time: u64,
    key: u32,
    value: u32,
    when: spec_fn(u64) -> bool,
)
    ensures
        sum_by(remaining(updates, time), timed_diff(key, value, when)) == sum_by(
            updates,
            timed_diff(key, value, |t: u64| when(t) && t > time),
        ),
    decreases updates.len(),
{
    if updates.len() > 0 {
        lemma_remaining_timed(updates.drop_last(), time, key, value, when);
        let last = updates.last();
        if last.2 > time && last.3 != 0 {
            assert(remaining(updates, time).drop_last() =~= remaining(
                updates.drop_last(),
                time,
            ));
        }
    }
}

/// Indices without any pair are twins.
pub proof fn lemma_twins_empty(forward: Index, reverse: Index)
    requires
        forward.is_empty(),
        reverse.is_empty(),
    ensures
        twins(forward, reverse),
{
    assert forall|k: u32, v: u32|
        #[trigger] occurrences(forward.base(k), v) == occurrences(reverse.base(v), k) by {
        forward.lemma_empty_base(k);
        reverse.lemma_empty_base(v);
    }
    assert(forward.pending() =~= Seq::empty());
    assert(reverse.pending() =~= Seq::empty());
}

/// Indices whose bases hold the pairs and the pairs turned round, and
/// nothing else, are twins.
pub proof fn lemma_twins_loaded(
    forward: Index,
    reverse: Index,
    pairs: Seq<(u32, u32)>,
    sorted: Seq<(u32, u32)>,
    back: Seq<(u32, u32)>,
)
    requires
        forward.edges() == Map::<u32, crate::index::edge_list::EdgeList>::empty(),
        reverse.edges() == Map::<u32, crate::index::edge_list::EdgeList>::empty(),
        forward.pending().len() == 0,
        reverse.pending().len() == 0,
        sorted.to_multiset() == pairs.to_multiset(),
        back.to_multiset() == turned_pairs(pairs).to_multiset(),
        forall|key: u32| #[trigger] forward.base(key) == values_for(sorted, key),
        forall|key: u32| #[trigger] reverse.base(key) == values_for(back, key),
    ensures
        twins(forward, reverse),
{
    assert forall|k: u32, v: u32|
        #[trigger] occurrences(forward.base(k), v) == occurrences(reverse.base(v), k) by {
        lemma_values_count(sorted, k, v);
        lemma_values_count(back, v, k);
        lemma_sum_by_rearranged(sorted, pairs, one_pair(k, v));
        lemma_sum_by_rearranged(back, turned_pairs(pairs), one_pair(v, k));
        lemma_turned_count(pairs, k, v);
    }
    assert(forward.pending() =~= Seq::empty());
    assert(reverse.pending() =~= Seq::empty());
}

/// Twins that take a batch and the batch turned round stay twins.
pub proof fn lemma_twins_updated(
    forward: Index,
    reverse: Index,
    now_forward: Index,
    now_reverse: Index,
    batch: Seq<((u32, u32), i32)>,
    time: u64,
)
    requires
        twins(forward, reverse),
        now_forward.compact() == forward.compact(),
        now_forward.edges() == forward.edges(),
        now_reverse.compact() == reverse.compact(),
        now_reverse.edges() == reverse.edges(),
        now_forward.pending().to_multiset() == (forward.pending() + stamped(
            batch,
            time,
        )).to_multiset(),
        now_reverse.pending().to_multiset() == (reverse.pending() + stamped(
            turned(batch),
            time,
        )).to_multiset(),
    ensures
        twins(now_forward, now_reverse),
{
    assert forall|k: u32, v: u32|
        #[trigger] occurrences(now_forward.base(k), v) == occurrences(now_reverse.base(v), k) by {
        assert(occurrences(forward.base(k), v) == occurrences(reverse.base(v), k));
    }
    assert forall|k: u32, v: u32| #[trigger]
        now_forward.committed(k, v) == now_reverse.committed(v, k) by {
        assert(forward.committed(k, v) == reverse.committed(v, k));
    }
    assert forall|k: u32, v: u32, when: spec_fn(u64) -> bool|
        sum_by(now_forward.pending(), #[trigger] timed_diff(k, v, when)) == sum_by(
            now_reverse.pending(),
            timed_diff(v, k, when),
        ) by {
        let there = stamped(batch, time);
        let back = stamped(turned(batch), time);
        lemma_sum_by_rearranged(
            now_forward.pending(),
            forward.pending() + there,
            timed_diff(k, v, when),
        );
        lemma_sum_by_concat(forward.pending(), there, timed_diff(k, v, when));
        lemma_sum_by_rearranged(
            now_reverse.pending(),
            reverse.pending() + back,
            timed_diff(v, k, when),
        );
        lemma_sum_by_concat(reverse.pending(), back, timed_diff(v, k, when));
        lemma_turned_batch(batch, time, k, v, when);
        assert(sum_by(forward.pending(), timed_diff(k, v, when)) == sum_by(
            reverse.pending(),
            timed_diff(v, k, when),
        ));
    }
}

/// Twins that are merged to the same time stay twins.
pub proof fn lemma_twins_merged(
    forward: Index,
    reverse: Index,
    now_forward: Index,
    now_reverse: Index,
    time: u64,
)
    requires
        twins(forward, reverse),
        now_forward.merged(forward, time),
        now_reverse.merged(reverse, time),
    ensures
        twins(now_forward, now_reverse),
{
    assert forall|k: u32, v: u32|
        #[trigger] occurrences(now_forward.base(k), v) == occurrences(now_reverse.base(v), k) by {
        assert(occurrences(forward.base(k), v) == occurrences(reverse.base(v), k));
    }
    assert forall|k: u32, v: u32| #[trigger]
        now_forward.committed(k, v) == now_reverse.committed(v, k) by {
        let due = |t: u64| t <= time;
        assert(forward.committed(k, v) == reverse.committed(v, k));
        lemma_sum_by_agree(forward.pending(), due_diff(k, v, time), timed_diff(k, v, due));
        lemma_sum_by_agree(reverse.pending(), due_diff(v, k, time), timed_diff(v, k, due));
        assert(sum_by(forward.pending(), timed_diff(k, v, due)) == sum_by(
            reverse.pending(),
            timed_diff(v, k, due),
        ));
    }
    assert forall|k: u32, v: u32, when: spec_fn(u64) -> bool|
        sum_by(now_forward.pending(), #[trigger] timed_diff(k, v, when)) == sum_by(
            now_reverse.pending(),
            timed_diff(v, k, when),
        ) by {
        let later = |t: u64| when(t) && t > time;
        lemma_remaining_timed(forward.pending(), time, k, v, when);
        lemma_remaining_timed(reverse.pending(), time, v, k, when);
        assert(sum_by(forward.pending(), timed_diff(k, v, later)) == sum_by(
            reverse.pending(),
            timed_diff(v, k, later),
        ));
    }
}

/// Indices that agree with twins are twins.
pub proof fn lemma_twins_agree(
    forward: Index,
    reverse: Index,
    now_forward: Index,
    now_reverse: Index,
)
    requires
        twins(forward, reverse),
        now_forward.agrees(forward),
        now_reverse.agrees(reverse),
    ensures
        twins(now_forward, now_reverse),
{
    assert forall|k: u32, v: u32|
        #[trigger] occurrences(now_forward.base(k), v) == occurrences(now_reverse.base(v), k) by {
        assert(occurrences(forward.base(k), v) == occurrences(reverse.base(v), k));
    }
    assert forall|k: u32, v: u32| #[trigger]
        now_forward.committed(k, v) == now_reverse.committed(v, k) by {
        assert(forward.committed(k, v) == reverse.committed(v, k));
        assert(now_forward.committed(k, v) == forward.committed(k, v));
        assert(now_reverse.committed(v, k) == reverse.committed(v, k));
    }
    assert forall|k: u32, v: u32, when: spec_fn(u64) -> bool|
        sum_by(now_forward.pending(), #[trigger] timed_diff(k, v, when)) == sum_by(
            now_reverse.pending(),
            timed_diff(v, k, when),
        ) by {
        assert(sum_by(forward.pending(), timed_diff(k, v, when)) == sum_by(
            reverse.pending(),
            timed_diff(v, k, when),
        ));
    }
}

} // verus!
