//! What holds of the index across several of its operations.

use vstd::prelude::*;
use crate::index::unsorted::{stamped, Update};
use crate::index::{due_diff, one_for, positive, remaining, seen_diff, Index, Visible};
use crate::flatten::lemma_flat_map_contains;
use crate::join::{best, chosen_for, extends, extensions, filtered, joined, Extender};
use crate::motif::{spread, stage_all, stage_one, Binding};
use crate::motif::Node;
use crate::order::{ascending, first_at, strictly_ascending};
use crate::weights::lemma_occurrences;
use crate::weights::{
    by_value, lemma_sum_below_add, lemma_sum_below_agree, lemma_sum_below_le,
    lemma_sum_below_zero, lemma_sum_by_agree, lemma_sum_by_concat, lemma_sum_by_le,
    lemma_sum_by_ones, lemma_sum_by_rearranged, lemma_sum_by_value, lemma_wrap_add,
    lemma_wrap_fits, occurrences, one_at, part_of, sum_below, sum_by, wrap,
};

verus! {

/// What survives an intersection strictly ascends, holds values of positive
/// accumulated weight only, and ends no later than the list it was taken
/// from.
pub proof fn lemma_survivors_ascend(index: Index, list: Seq<u32>, key: u32, valid: Visible)
    requires
        ascending(list),
    ensures
        strictly_ascending(index.survivors(list, key, valid)),
        forall|i: int|
            0 <= i < index.survivors(list, key, valid).len() ==> index.accumulated(
                key,
                #[trigger] index.survivors(list, key, valid)[i],
                valid,
            ) > 0,
        forall|i: int|
            0 <= i < index.survivors(list, key, valid).len() ==> #[trigger] index.survivors(
                list,
                key,
                valid,
            )[i] <= list.last(),
    decreases list.len(),
{
    if list.len() > 0 {
        let rest = list.drop_last();
        lemma_survivors_ascend(index, rest, key, valid);
        let kept = index.survivors(rest, key, valid);
        if rest.len() > 0 {
            assert(rest.last() == list[list.len() - 2]);
            assert(list[list.len() - 2] <= list[list.len() - 1]);
        }
    }
}

/// An intersection leaves a list of distinct values of positive accumulated
/// weight as it is.
pub proof fn lemma_survivors_fixed(index: Index, list: Seq<u32>, key: u32, valid: Visible)
    requires
        strictly_ascending(list),
        forall|i: int| 0 <= i < list.len() ==> index.accumulated(key, #[trigger] list[i], valid) > 0,
    ensures
        index.survivors(list, key, valid) == list,
    decreases list.len(),
{
    if list.len() > 0 {
        let rest = list.drop_last();
        assert forall|i: int| 0 <= i < rest.len() implies index.accumulated(
            key,
            #[trigger] rest[i],
            valid,
        ) > 0 by {
            assert(rest[i] == list[i]);
        }
        lemma_survivors_fixed(index, rest, key, valid);
        assert(index.accumulated(key, list[list.len() - 1], valid) > 0);
        if list.len() > 1 {
            assert(list[list.len() - 2] < list[list.len() - 1]);
        }
        assert(first_at(list, list.len() - 1));
        assert(rest.push(list.last()) =~= list);
    }
}

/// `intersect` is idempotent: what survives one intersection survives a
/// second one with the same key and the same view of the updates, whole.
pub proof fn lemma_intersect_idempotent(index: Index, list: Seq<u32>, key: u32, valid: Visible)
    requires
        ascending(list),
    ensures
        index.survivors(index.survivors(list, key, valid), key, valid) == index.survivors(
            list,
            key,
            valid,
        ),
{
    lemma_survivors_ascend(index, list, key, valid);
    lemma_survivors_fixed(index, index.survivors(list, key, valid), key, valid);
}

/// The diffs that a query sees are those committed up to `time` and those
/// it sees of what stays behind, if it sees everything up to `time`.
pub proof fn lemma_seen_splits(
    updates: Seq<Update>,
    time: u64,
    key: u32,
    value: u32,
    valid: Visible,
)
    requires
        valid.covers(time),
    ensures
        sum_by(updates, seen_diff(key, value, valid)) == sum_by(
            updates,
            due_diff(key, value, time),
        ) + sum_by(remaining(updates, time), seen_diff(key, value, valid)),
    decreases updates.len(),
{
    if updates.len() > 0 {
        lemma_seen_splits(updates.drop_last(), time, key, value, valid);
        let last = updates.last();
        if last.2 > time && last.3 != 0 {
            assert(remaining(updates, time).drop_last() =~= remaining(
                updates.drop_last(),
                time,
            ));
        }
    }
}

/// `merge_to` preserves the accumulated weights for every query that sees
/// all updates up to the time merged to: a query at a later time, or at
/// that time if it sees the updates made at its own time.
pub proof fn lemma_merge_keeps_weights(
    before: Index,
    after: Index,
    time: u64,
    key: u32,
    value: u32,
    valid: Visible,
)
    requires
        after.merged(before, time),
        valid.covers(time),
    ensures
        after.accumulated(key, value, valid) == before.accumulated(key, value, valid),
{
    lemma_seen_splits(before.pending(), time, key, value, valid);
    let due = sum_by(before.pending(), due_diff(key, value, time));
    let rest = sum_by(after.pending(), seen_diff(key, value, valid));
    assert(after.committed(key, value) == crate::weights::wrap(
        before.committed(key, value) + due,
    ));
    lemma_wrap_add(
        before.committed(key, value) + due,
        crate::weights::occurrences(before.base(key), value) + rest,
    );
}

/// `merge_to` preserves what is proposed to every query that sees all
/// updates up to the time merged to.
pub proof fn lemma_merge_keeps_proposals(
    before: Index,
    after: Index,
    time: u64,
    list: Seq<u32>,
    key: u32,
    valid: Visible,
)
    requires
        after.merged(before, time),
        valid.covers(time),
    ensures
        after.is_proposal(list, key, valid) == before.is_proposal(list, key, valid),
{
    assert forall|v: u32|
        #[trigger] after.accumulated(key, v, valid) == before.accumulated(key, v, valid) by {
        lemma_merge_keeps_weights(before, after, time, key, v, valid);
    }
}

/// `merge_to` preserves what survives an intersection for every query that
/// sees all updates up to the time merged to.
pub proof fn lemma_merge_keeps_survivors(
    before: Index,
    after: Index,
    time: u64,
    list: Seq<u32>,
    key: u32,
    valid: Visible,
)
    requires
        after.merged(before, time),
        valid.covers(time),
    ensures
        after.survivors(list, key, valid) == before.survivors(list, key, valid),
    decreases list.len(),
{
    if list.len() > 0 {
        lemma_merge_keeps_survivors(before, after, time, list.drop_last(), key, valid);
        lemma_merge_keeps_weights(before, after, time, key, list.last(), valid);
    }
}

/// The committed weight of each value under `key`.
pub open spec fn committed_at(index: Index, key: u32) -> spec_fn(u32) -> int {
    |v: u32| index.committed(key, v) as int
}

/// The number of timed updates of `key`.
pub open spec fn waiting(index: Index, key: u32) -> int {
    sum_by(index.pending(), one_for(key))
}

/// What the base and the committed updates hold for `key` is a set of
/// values counted without wrapping, and each timed update of the key adds
/// or removes one value:
/// no value has a negative weight before the timed updates, the tally of
/// the committed diffs is the sum of the committed weights, the estimate
/// fits, and no timed update of the key has a diff beyond one.
pub open spec fn counts_values(index: Index, key: u32) -> bool {
    &&& forall|v: u32|
        0 <= #[trigger] occurrences(index.base(key), v) + index.committed(key, v)
    &&& forall|i: int|
        0 <= i < index.pending().len() && (#[trigger] index.pending()[i]).0 == key ==> -1
            <= index.pending()[i].3 <= 1
    &&& index.tally(key) == sum_below(committed_at(index, key), 0x1_0000_0000)
    &&& index.base(key).len() + index.tally(key) + waiting(index, key) <= u64::MAX
}

/// An index that holds its pairs in the base alone counts the values of
/// every key without wrapping.
pub proof fn lemma_base_counts_values(index: Index, key: u32)
    requires
        index.wf(),
        index.edges() == Map::<u32, crate::index::edge_list::EdgeList>::empty(),
        index.pending().len() == 0,
    ensures
        counts_values(index, key),
{
    index.compact().lemma_base_fits(key);
    assert forall|v: u32| 0 <= #[trigger] occurrences(index.base(key), v) + index.committed(
        key,
        v,
    ) by {
        lemma_occurrences(index.base(key), v);
    }
    lemma_sum_below_zero(0x1_0000_0000);
    lemma_sum_below_agree(committed_at(index, key), |v: u32| 0int, 0x1_0000_0000);
    assert(index.pending() =~= Seq::empty());
}

/// An index that counts the values of a key without wrapping still does
/// when it takes a batch of updates that each add or remove one value,
/// where the estimate still fits.
pub proof fn lemma_update_counts_values(
    before: Index,
    after: Index,
    batch: Seq<((u32, u32), i32)>,
    time: u64,
    key: u32,
)
    requires
        counts_values(before, key),
        after.compact() == before.compact(),
        after.edges() == before.edges(),
        after.pending().to_multiset() == (before.pending() + stamped(batch, time)).to_multiset(),
        forall|i: int| 0 <= i < batch.len() ==> -1 <= (#[trigger] batch[i]).1 <= 1,
        before.base(key).len() + before.tally(key) + waiting(before, key) + batch.len()
            <= u64::MAX,
    ensures
        counts_values(after, key),
{
    broadcast use vstd::seq_lib::group_to_multiset_ensures;

    let all = before.pending() + stamped(batch, time);
    assert forall|i: int|
        0 <= i < after.pending().len() && (#[trigger] after.pending()[i]).0 == key implies -1
        <= after.pending()[i].3 <= 1 by {
        let u = after.pending()[i];
        assert(after.pending().contains(u));
        assert(after.pending().to_multiset().count(u) > 0);
        assert(all.contains(u));
        let j = choose|j: int| 0 <= j < all.len() && all[j] == u;
        if j < before.pending().len() {
            assert(before.pending()[j] == u);
        } else {
            assert(stamped(batch, time)[j - before.pending().len()] == u);
            assert(batch[j - before.pending().len()].1 == u.3);
        }
    }
    lemma_sum_by_rearranged(after.pending(), all, one_for(key));
    lemma_sum_by_concat(before.pending(), stamped(batch, time), one_for(key));
    lemma_sum_by_le(stamped(batch, time), one_for(key), |u: Update| 1int);
    lemma_sum_by_ones(stamped(batch, time), |u: Update| 1int);
    assert forall|v: u32|
        0 <= #[trigger] occurrences(after.base(key), v) + after.committed(key, v) by {
        assert(0 <= occurrences(before.base(key), v) + before.committed(key, v));
    }
    lemma_sum_below_agree(committed_at(after, key), committed_at(before, key), 0x1_0000_0000);
}

/// The length of a list is the sum, over all values, of how often it holds
/// each.
pub proof fn lemma_length_by_value(list: Seq<u32>)
    ensures
        list.len() == sum_below(|v: u32| occurrences(list, v), 0x1_0000_0000),
{
    let same = |x: u32| x;
    let one = |x: u32| 1int;
    lemma_sum_by_ones(list, one);
    lemma_sum_by_value(list, same, one);
    assert forall|v: u32| #[trigger] by_value(list, same, one)(v) == occurrences(list, v) by {
        lemma_sum_by_agree(list, part_of(same, one, v), one_at(v));
    }
    lemma_sum_below_agree(
        by_value(list, same, one),
        |v: u32| occurrences(list, v),
        0x1_0000_0000,
    );
}

/// The timed updates of `key` for the value `v`.
pub open spec fn waiting_at(index: Index, key: u32) -> spec_fn(u32) -> int {
    by_value(index.pending(), |u: crate::index::unsorted::Update| u.1, one_for(key))
}

/// The diffs that a query sees for a value are no more, in sum, than the
/// timed updates for the value, if none of them has a diff beyond one.
pub proof fn lemma_seen_bounded(
    updates: Seq<crate::index::unsorted::Update>,
    key: u32,
    value: u32,
    valid: Visible,
)
    requires
        forall|i: int|
            0 <= i < updates.len() && (#[trigger] updates[i]).0 == key ==> -1 <= updates[i].3 <= 1,
    ensures
        -sum_by(updates, part_of(|u: crate::index::unsorted::Update| u.1, one_for(key), value))
            <= sum_by(updates, seen_diff(key, value, valid)) <= sum_by(
            updates,
            part_of(|u: crate::index::unsorted::Update| u.1, one_for(key), value),
        ),
    decreases updates.len(),
{
    if updates.len() > 0 {
        let rest = updates.drop_last();
        assert forall|i: int| 0 <= i < rest.len() && (#[trigger] rest[i]).0 == key implies -1
            <= rest[i].3 <= 1 by {
            assert(rest[i] == updates[i]);
        }
        lemma_seen_bounded(rest, key, value, valid);
        assert(updates[updates.len() - 1] == updates.last());
    }
}

/// Where no update is of `key`, a query sees no diff for any value of it.
pub proof fn lemma_none_waiting(
    updates: Seq<crate::index::unsorted::Update>,
    key: u32,
    value: u32,
    valid: Visible,
)
    requires
        sum_by(updates, one_for(key)) == 0,
    ensures
        sum_by(updates, seen_diff(key, value, valid)) == 0,
        sum_by(updates, part_of(|u: crate::index::unsorted::Update| u.1, one_for(key), value))
            == 0,
    decreases updates.len(),
{
    if updates.len() > 0 {
        let rest = updates.drop_last();
        crate::weights::lemma_sum_by_nonnegative(rest, one_for(key));
        lemma_none_waiting(rest, key, value, valid);
    }
}

/// `count` is a correct upper bound on what `propose` gives: for a key
/// whose values are counted without wrapping, the index estimates no fewer
/// values than it proposes to any query, and exactly as many if no timed
/// update of the key is waiting and no weight is beyond the largest number.
pub proof fn lemma_estimate_bounds_proposal(index: Index, key: u32, valid: Visible)
    requires
        counts_values(index, key),
    ensures
        index.proposal(key, valid).len() <= index.estimate(key),
        waiting(index, key) == 0 && (forall|v: u32|
            #[trigger] occurrences(index.base(key), v) + index.committed(key, v) <= i32::MAX)
            ==> index.proposal(key, valid).len() == index.estimate(key),
{
    let all = 0x1_0000_0000int;
    let proposed = index.proposal(key, valid);
    let base = index.base(key);
    let one = |u: crate::index::unsorted::Update| u.1;
    index.lemma_proposal(key, valid);
    lemma_length_by_value(proposed);
    lemma_length_by_value(base);
    lemma_sum_by_value(index.pending(), one, one_for(key));
    let in_proposal = |v: u32| occurrences(proposed, v);
    let in_base = |v: u32| occurrences(base, v);
    let in_committed = committed_at(index, key);
    let in_waiting = waiting_at(index, key);
    let settled = |v: u32| in_base(v) + in_committed(v);
    let held = |v: u32| settled(v) + in_waiting(v);
    assert forall|v: u32| #[trigger] in_proposal(v) <= held(v) by {
        lemma_seen_bounded(index.pending(), key, v, valid);
        let seen = sum_by(index.pending(), seen_diff(key, v, valid));
        let weight = index.weight(key, v, valid);
        assert(weight == occurrences(base, v) + index.committed(key, v) + seen);
        assert(occurrences(proposed, v) == positive(wrap(weight)));
        assert(0 <= occurrences(base, v) + index.committed(key, v));
        if i32::MIN <= weight <= i32::MAX {
            lemma_wrap_fits(weight);
        }
    }
    lemma_sum_below_le(in_proposal, held, all);
    lemma_sum_below_add(in_base, in_committed, settled, all);
    lemma_sum_below_add(settled, in_waiting, held, all);
    let total = index.base(key).len() + index.tally(key) + waiting(index, key);
    assert(sum_below(held, all) == total);
    assert(0 <= proposed.len() <= total);
    assert(index.estimate(key) == total);
    if waiting(index, key) == 0 && (forall|v: u32|
        #[trigger] occurrences(index.base(key), v) + index.committed(key, v) <= i32::MAX) {
        assert forall|v: u32| #[trigger] in_proposal(v) == held(v) by {
            lemma_none_waiting(index.pending(), key, v, valid);
            let weight = index.weight(key, v, valid);
            assert(weight == occurrences(base, v) + index.committed(key, v));
            assert(0 <= occurrences(index.base(key), v) + index.committed(key, v) <= i32::MAX);
            lemma_wrap_fits(weight);
        }
        lemma_sum_below_agree(in_proposal, held, all);
    }
}

/// A value is proposed exactly if its accumulated weight is positive.
pub proof fn lemma_proposal_holds(index: Index, key: u32, valid: Visible, value: u32)
    ensures
        index.proposal(key, valid).contains(value) <==> index.accumulated(key, value, valid) > 0,
{
    index.lemma_proposal(key, valid);
    lemma_occurrences(index.proposal(key, valid), value);
    assert(occurrences(index.proposal(key, valid), value) == positive(
        index.accumulated(key, value, valid),
    ));
}

/// A value survives an intersection exactly if the list holds it and its
/// accumulated weight is positive.
pub proof fn lemma_survivors_hold(
    index: Index,
    list: Seq<u32>,
    key: u32,
    valid: Visible,
    value: u32,
)
    requires
        ascending(list),
    ensures
        index.survivors(list, key, valid).contains(value) <==> list.contains(value)
            && index.accumulated(key, value, valid) > 0,
    decreases list.len(),
{
    let kept = index.survivors(list, key, valid);
    if list.len() > 0 {
        let rest = list.drop_last();
        let last = list.last();
        let before = index.survivors(rest, key, valid);
        assert forall|i: int, j: int| 0 <= i <= j < rest.len() implies rest[i] <= rest[j] by {
            assert(list[i] <= list[j]);
        }
        lemma_survivors_hold(index, rest, key, valid, value);
        if kept.contains(value) {
            let at = choose|i: int| 0 <= i < kept.len() && kept[i] == value;
            if at < before.len() {
                assert(before[at] == value);
                assert(before.contains(value));
                let i = choose|i: int| 0 <= i < rest.len() && rest[i] == value;
                assert(list[i] == value);
            } else {
                assert(value == last);
                assert(list[list.len() - 1] == value);
            }
        }
        if list.contains(value) && index.accumulated(key, value, valid) > 0 {
            let i = choose|i: int| 0 <= i < list.len() && list[i] == value;
            if i < rest.len() {
                assert(rest[i] == value);
                assert(before.contains(value));
                let at = choose|j: int| 0 <= j < before.len() && before[j] == value;
                assert(kept[at] == value);
            } else if first_at(list, list.len() - 1) {
                assert(kept[kept.len() - 1] == value);
            } else {
                assert(rest[rest.len() - 1] == value);
                assert(before.contains(value));
                let at = choose|j: int| 0 <= j < before.len() && before[j] == value;
                assert(kept[at] == value);
            }
        }
    }
}

/// Every extender among the first `upto`, but for the one at `chosen`,
/// holds `value` with positive weight for a prefix of these nodes.
pub open spec fn admitted_upto(
    indices: Seq<Index>,
    extenders: Seq<Extender>,
    nodes: Seq<Node>,
    value: u32,
    chosen: int,
    upto: int,
    time: u64,
) -> bool {
    forall|e: int|
        0 <= e < upto && e != chosen ==> admits(indices, #[trigger] extenders[e], nodes, value, time)
}

/// The extender holds `value` with positive weight for a prefix of these
/// nodes.
pub open spec fn admits(
    indices: Seq<Index>,
    extender: Extender,
    nodes: Seq<Node>,
    value: u32,
    time: u64,
) -> bool {
    indices[extender.source as int].accumulated(
        nodes[extender.attribute as int],
        value,
        extender.valid(time),
    ) > 0
}

/// What the extenders leave of an ascending list ascends, and holds a
/// value exactly if the list holds it and each of them admits it.
pub proof fn lemma_filtered_holds(
    indices: Seq<Index>,
    extenders: Seq<Extender>,
    nodes: Seq<Node>,
    list: Seq<u32>,
    value: u32,
    chosen: int,
    upto: int,
    time: u64,
)
    requires
        ascending(list),
        0 <= upto <= extenders.len(),
    ensures
        ascending(filtered(indices, extenders, nodes, list, chosen, upto, time)),
        filtered(indices, extenders, nodes, list, chosen, upto, time).contains(value)
            <==> list.contains(value) && admitted_upto(
            indices,
            extenders,
            nodes,
            value,
            chosen,
            upto,
            time,
        ),
    decreases upto,
{
    if upto > 0 {
        lemma_filtered_holds(indices, extenders, nodes, list, value, chosen, upto - 1, time);
        let left = filtered(indices, extenders, nodes, list, chosen, upto - 1, time);
        let e = extenders[upto - 1];
        if upto - 1 != chosen {
            let index = indices[e.source as int];
            let key = nodes[e.attribute as int];
            lemma_survivors_hold(index, left, key, e.valid(time), value);
            lemma_survivors_ascend(index, left, key, e.valid(time));
            let kept = index.survivors(left, key, e.valid(time));
            assert forall|i: int, j: int| 0 <= i <= j < kept.len() implies kept[i] <= kept[j] by {
                if i < j {
                    assert(kept[i] < kept[j]);
                }
            }
            assert(admits(indices, extenders[upto - 1], nodes, value, time) == (
            index.accumulated(key, value, e.valid(time)) > 0));
        }
    }
}

/// One layer of the generic join: whichever extender proposes, the
/// extensions of a prefix are the values that every extender holds with
/// positive accumulated weight for it.
pub proof fn lemma_extensions_are_common(
    indices: Seq<Index>,
    extenders: Seq<Extender>,
    nodes: Seq<Node>,
    chosen: int,
    time: u64,
    value: u32,
)
    requires
        0 <= chosen < extenders.len(),
    ensures
        extensions(indices, extenders, nodes, chosen, time).contains(value) <==> forall|e: int|
            0 <= e < extenders.len() ==> admits(indices, #[trigger] extenders[e], nodes, value, time),
{
    let proposer = extenders[chosen];
    let index = indices[proposer.source as int];
    let key = nodes[proposer.attribute as int];
    let list = proposer.proposal(indices, nodes, time);
    index.lemma_proposal(key, proposer.valid(time));
    lemma_proposal_holds(index, key, proposer.valid(time), value);
    lemma_filtered_holds(
        indices,
        extenders,
        nodes,
        list,
        value,
        chosen,
        extenders.len() as int,
        time,
    );
    assert(admits(indices, extenders[chosen], nodes, value, time) == list.contains(value));
}

/// The least estimate is positive where every estimate is.
pub proof fn lemma_best_positive(
    indices: Seq<Index>,
    extenders: Seq<Extender>,
    nodes: Seq<Node>,
    upto: int,
)
    requires
        0 <= upto <= extenders.len(),
        forall|e: int| 0 <= e < upto ==> (#[trigger] extenders[e]).estimate(indices, nodes) > 0,
    ensures
        best(indices, extenders, nodes, upto).0 > 0,
        0 <= best(indices, extenders, nodes, upto).1 < upto || upto == 0,
    decreases upto,
{
    if upto > 0 {
        lemma_best_positive(indices, extenders, nodes, upto - 1);
        assert(extenders[upto - 1].estimate(indices, nodes) > 0);
    }
}

/// Each extender counts the values of its key for a prefix of these nodes
/// without wrapping.
pub open spec fn all_count_values(
    indices: Seq<Index>,
    extenders: Seq<Extender>,
    nodes: Seq<Node>,
) -> bool {
    forall|e: int|
        0 <= e < extenders.len() ==> counts_values(
            indices[(#[trigger] extenders[e]).source as int],
            nodes[extenders[e].attribute as int],
        )
}

/// A prefix is extended exactly by the values that every extender admits:
/// it is extended if there is such a value, and its extensions are such
/// values all. This holds where the extenders count their values without
/// wrapping, so that no estimate is zero where there is an extension.
pub proof fn lemma_joined_is_common(
    indices: Seq<Index>,
    extenders: Seq<Extender>,
    nodes: Seq<Node>,
    time: u64,
    value: u32,
)
    requires
        extenders.len() > 0,
        all_count_values(indices, extenders, nodes),
    ensures
        extends(indices, extenders, nodes, time) && joined(
            indices,
            extenders,
            nodes,
            time,
        ).contains(value) <==> forall|e: int|
            0 <= e < extenders.len() ==> admits(indices, #[trigger] extenders[e], nodes, value, time),
{
    let count = extenders.len() as int;
    let everyone = forall|e: int|
        0 <= e < extenders.len() ==> admits(indices, #[trigger] extenders[e], nodes, value, time);
    if everyone {
        assert forall|e: int| 0 <= e < count implies (#[trigger] extenders[e]).estimate(
            indices,
            nodes,
        ) > 0 by {
            let extender = extenders[e];
            let index = indices[extender.source as int];
            let key = nodes[extender.attribute as int];
            assert(admits(indices, extenders[e], nodes, value, time));
            lemma_proposal_holds(index, key, extender.valid(time), value);
            lemma_estimate_bounds_proposal(index, key, extender.valid(time));
            let proposed = index.proposal(key, extender.valid(time));
            let at = choose|i: int| 0 <= i < proposed.len() && proposed[i] == value;
        }
        lemma_best_positive(indices, extenders, nodes, count);
    }
    let chosen = chosen_for(indices, extenders, nodes);
    if count > 1 {
        crate::join::lemma_best_ident(indices, extenders, nodes, count);
    }
    lemma_extensions_are_common(indices, extenders, nodes, chosen, time, value);
    let list = extensions(indices, extenders, nodes, chosen, time);
    if list.contains(value) {
        let at = choose|i: int| 0 <= i < list.len() && list[i] == value;
    }
}

/// What one stage makes of a binding: the binding with one more node, for
/// each node that every extender of the stage admits for it.
pub proof fn lemma_stage_one_holds(
    indices: Seq<Index>,
    extenders: Seq<Extender>,
    time: u64,
    row: Binding,
    longer: Binding,
)
    requires
        extenders.len() > 0,
        all_count_values(indices, extenders, row.0),
    ensures
        stage_one(indices, extenders, time)(row).contains(longer) <==> {
            &&& longer.1 == row.1
            &&& longer.0.len() == row.0.len() + 1
            &&& longer.0.drop_last() == row.0
            &&& forall|e: int|
                0 <= e < extenders.len() ==> admits(
                    indices,
                    #[trigger] extenders[e],
                    row.0,
                    longer.0.last(),
                    time,
                )
        },
{
    let made = stage_one(indices, extenders, time)(row);
    let list = joined(indices, extenders, row.0, time);
    if made.contains(longer) {
        let at = choose|k: int| 0 <= k < made.len() && made[k] == longer;
        assert(made == spread(row.0, list, row.1));
        assert(longer.0 == row.0.push(list[at]));
        assert(longer.0.drop_last() =~= row.0);
        assert(list.contains(list[at]));
        lemma_joined_is_common(indices, extenders, row.0, time, longer.0.last());
    }
    if longer.1 == row.1 && longer.0.len() == row.0.len() + 1 && longer.0.drop_last() == row.0
        && (forall|e: int|
        0 <= e < extenders.len() ==> admits(
            indices,
            #[trigger] extenders[e],
            row.0,
            longer.0.last(),
            time,
        )) {
        lemma_joined_is_common(indices, extenders, row.0, time, longer.0.last());
        let at = choose|k: int| 0 <= k < list.len() && list[k] == longer.0.last();
        assert(made == spread(row.0, list, row.1));
        assert(row.0.push(list[at]) =~= longer.0);
        assert(made[at] == longer);
    }
}

/// What one stage makes of a batch: each binding of the batch with one
/// more node, for each node that every extender of the stage admits for it.
pub proof fn lemma_stage_holds(
    indices: Seq<Index>,
    extenders: Seq<Extender>,
    rows: Seq<Binding>,
    time: u64,
    longer: Binding,
)
    requires
        extenders.len() > 0,
        forall|i: int|
            0 <= i < rows.len() ==> all_count_values(indices, extenders, (#[trigger] rows[i]).0),
    ensures
        stage_all(indices, extenders, rows, time).contains(longer) <==> {
            &&& longer.0.len() > 0
            &&& rows.contains((longer.0.drop_last(), longer.1))
            &&& forall|e: int|
                0 <= e < extenders.len() ==> admits(
                    indices,
                    #[trigger] extenders[e],
                    longer.0.drop_last(),
                    longer.0.last(),
                    time,
                )
        },
{
    let f = stage_one(indices, extenders, time);
    lemma_flat_map_contains(rows, f, longer);
    if stage_all(indices, extenders, rows, time).contains(longer) {
        let i = choose|i: int| 0 <= i < rows.len() && #[trigger] f(rows[i]).contains(longer);
        lemma_stage_one_holds(indices, extenders, time, rows[i], longer);
        assert(rows[i] == (longer.0.drop_last(), longer.1));
    }
    if longer.0.len() > 0 && rows.contains((longer.0.drop_last(), longer.1)) && (forall|e: int|
        0 <= e < extenders.len() ==> admits(
            indices,
            #[trigger] extenders[e],
            longer.0.drop_last(),
            longer.0.last(),
            time,
        )) {
        let row = (longer.0.drop_last(), longer.1);
        let i = choose|i: int| 0 <= i < rows.len() && rows[i] == row;
        lemma_stage_one_holds(indices, extenders, time, rows[i], longer);
        assert(f(rows[i]).contains(longer));
    }
}

} // verus!
