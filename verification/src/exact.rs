//! How often the changes of the instances of a motif are found.
//!
//! Where no edge counts more than once and no update stands twice, the
//! changes that are found through a relation hold no binding twice. The
//! changes found through all relations together then hold each instance
//! that the updates make once more as gained than as lost, and each that
//! they break once more as lost than as gained.

use vstd::prelude::*;
use vstd::seq_lib::lemma_multiset_commutative;
use crate::delta::{
    both_count_values, changes, found, is_instance, lemma_motif_change, lemma_order_at,
    lemma_order_start, lemma_staged_holds, lemma_stages, lemma_stages_constrained,
    lemma_twins_mirror, mirrors, one_if, present, simple,
};
use crate::mirror::lemma_twins_weigh_alike;
use crate::weights::{lemma_wrap_fits, sum_by};
use crate::flatten::lemma_flat_map_distinct;
use crate::index::unsorted::stamped;
use crate::index::{seen_diff, Index, Visible};
use crate::join::{extends, extensions, filtered, joined, lemma_best_ident, Extender};
use crate::laws::lemma_survivors_ascend;
use crate::motif::{
    arrange_by, arranged, attribute_order, bindings, derivative, followed, largest,
    lemma_stage_sources, GraphStreamIndex,
    place, places, plannable, sources, spread, stage_all, stage_extenders, stage_one, staged,
    stages, Binding, Edge, Node,
};
use crate::order::{ascending, strictly_ascending};

verus! {

/// No edge counts more than once in any of the indices, for a query at
/// `time`.
pub open spec fn single(indices: Seq<Index>, time: u64) -> bool {
    forall|w: int, key: u32, value: u32, fresh: bool|
        0 <= w < indices.len() ==> #[trigger] indices[w].accumulated(
            key,
            value,
            Visible { time, inclusive: fresh },
        ) <= 1
}

/// What is proposed for a key holds no value twice, where no value counts
/// more than once.
pub proof fn lemma_proposed_strict(index: Index, key: u32, valid: Visible, upto: int)
    requires
        forall|v: u32| #[trigger] index.accumulated(key, v, valid) <= 1,
        0 <= upto <= 0x1_0000_0000,
    ensures
        strictly_ascending(index.proposed_below(key, valid, upto)),
        forall|i: int|
            0 <= i < index.proposed_below(key, valid, upto).len() ==> #[trigger] index.proposed_below(
                key,
                valid,
                upto,
            )[i] < upto,
    decreases upto,
{
    if upto > 0 {
        lemma_proposed_strict(index, key, valid, upto - 1);
        let value = (upto - 1) as u32;
        assert(index.accumulated(key, value, valid) <= 1);
    }
}

/// What the extenders leave of a list without a value twice holds no
/// value twice.
pub proof fn lemma_filtered_strict(
    indices: Seq<Index>,
    extenders: Seq<Extender>,
    nodes: Seq<Node>,
    list: Seq<u32>,
    chosen: int,
    upto: int,
    time: u64,
)
    requires
        strictly_ascending(list),
        0 <= upto <= extenders.len(),
    ensures
        strictly_ascending(filtered(indices, extenders, nodes, list, chosen, upto, time)),
    decreases upto,
{
    if upto > 0 {
        lemma_filtered_strict(indices, extenders, nodes, list, chosen, upto - 1, time);
        let left = filtered(indices, extenders, nodes, list, chosen, upto - 1, time);
        if upto - 1 != chosen {
            let e = extenders[upto - 1];
            assert(ascending(left)) by {
                assert forall|i: int, j: int| 0 <= i <= j < left.len() implies left[i]
                    <= left[j] by {
                    if i < j {
                        assert(left[i] < left[j]);
                    }
                }
            }
            lemma_survivors_ascend(
                indices[e.source as int],
                left,
                nodes[e.attribute as int],
                e.valid(time),
            );
        }
    }
}

/// The extensions of a prefix hold no node twice, where no edge counts
/// more than once.
pub proof fn lemma_joined_strict(
    indices: Seq<Index>,
    extenders: Seq<Extender>,
    nodes: Seq<Node>,
    time: u64,
)
    requires
        extenders.len() > 0,
        single(indices, time),
        forall|e: int| 0 <= e < extenders.len() ==> (#[trigger] extenders[e]).source < indices.len(),
    ensures
        strictly_ascending(joined(indices, extenders, nodes, time)),
{
    lemma_best_ident(indices, extenders, nodes, extenders.len() as int);
    let chosen: int = if extenders.len() == 1 {
        0
    } else {
        crate::join::best(indices, extenders, nodes, extenders.len() as int).1 as int
    };
    assert(joined(indices, extenders, nodes, time) == extensions(
        indices,
        extenders,
        nodes,
        chosen,
        time,
    ));
    let by = extenders[chosen];
    let index = indices[by.source as int];
    let key = nodes[by.attribute as int];
    assert forall|v: u32| #[trigger] index.accumulated(key, v, by.valid(time)) <= 1 by {
        assert(indices[by.source as int].accumulated(
            key,
            v,
            Visible { time, inclusive: by.inclusive },
        ) <= 1);
    }
    lemma_proposed_strict(index, key, by.valid(time), 0x1_0000_0000);
    lemma_filtered_strict(
        indices,
        extenders,
        nodes,
        by.proposal(indices, nodes, time),
        chosen,
        extenders.len() as int,
        time,
    );
}

/// A binding spread over a list has the nodes of the binding, one node
/// more, and its diff.
pub proof fn lemma_spread_holds(nodes: Seq<Node>, list: Seq<u32>, diff: i32, longer: Binding)
    requires
        spread(nodes, list, diff).contains(longer),
    ensures
        longer.1 == diff,
        longer.0.len() == nodes.len() + 1,
        longer.0.drop_last() == nodes,
{
    let k = choose|k: int|
        0 <= k < spread(nodes, list, diff).len() && spread(nodes, list, diff)[k] == longer;
    assert(longer.0 == nodes.push(list[k]));
    assert(longer.0.drop_last() =~= nodes);
}

/// A binding spread over a list without a value twice gives no binding
/// twice.
pub proof fn lemma_spread_distinct(nodes: Seq<Node>, list: Seq<u32>, diff: i32)
    requires
        strictly_ascending(list),
    ensures
        spread(nodes, list, diff).no_duplicates(),
{
    let all = spread(nodes, list, diff);
    assert forall|i: int, j: int| 0 <= i < all.len() && 0 <= j < all.len() && i != j implies all[i]
        != all[j] by {
        assert(all[i].0.last() == list[i]);
        assert(all[j].0.last() == list[j]);
        if i < j {
            assert(list[i] < list[j]);
        } else {
            assert(list[j] < list[i]);
        }
    }
}

/// A stage makes no binding twice of a batch that holds none twice, where
/// no edge counts more than once.
pub proof fn lemma_stage_distinct(
    indices: Seq<Index>,
    extenders: Seq<Extender>,
    rows: Seq<Binding>,
    time: u64,
)
    requires
        rows.no_duplicates(),
        single(indices, time),
        forall|e: int| 0 <= e < extenders.len() ==> (#[trigger] extenders[e]).source < indices.len(),
    ensures
        stage_all(indices, extenders, rows, time).no_duplicates(),
{
    let f = stage_one(indices, extenders, time);
    assert forall|i: int| 0 <= i < rows.len() implies (#[trigger] f(rows[i])).no_duplicates() by {
        if extenders.len() > 0 && extends(indices, extenders, rows[i].0, time) {
            lemma_joined_strict(indices, extenders, rows[i].0, time);
            lemma_spread_distinct(
                rows[i].0,
                joined(indices, extenders, rows[i].0, time),
                rows[i].1,
            );
        }
    }
    assert forall|i: int, j: int, y: Binding|
        0 <= i < j < rows.len() && #[trigger] f(rows[i]).contains(y) implies !#[trigger] f(
        rows[j],
    ).contains(y) by {
        if f(rows[j]).contains(y) {
            lemma_spread_holds(
                rows[i].0,
                joined(indices, extenders, rows[i].0, time),
                rows[i].1,
                y,
            );
            lemma_spread_holds(
                rows[j].0,
                joined(indices, extenders, rows[j].0, time),
                rows[j].1,
                y,
            );
            assert(rows[i] == rows[j]);
        }
    }
    lemma_flat_map_distinct(rows, f);
}

/// The stages of a plan make no binding twice of a batch that holds none
/// twice, where no edge counts more than once.
pub proof fn lemma_staged_distinct(
    indices: Seq<Index>,
    relations: Seq<(usize, usize)>,
    source: int,
    rows: Seq<Binding>,
    time: u64,
    upto: int,
)
    requires
        rows.no_duplicates(),
        indices.len() == 2,
        single(indices, time),
    ensures
        staged(indices, relations, source, rows, time, upto).no_duplicates(),
    decreases upto,
{
    if upto > 0 {
        lemma_staged_distinct(indices, relations, source, rows, time, upto - 1);
        lemma_stage_sources(relations, source, upto - 1);
        lemma_stage_distinct(
            indices,
            stage_extenders(relations, source, upto - 1),
            staged(indices, relations, source, rows, time, upto - 1),
            time,
        );
    }
}

/// The nodes of a binding of all attributes are found again from the
/// binding in the order of the attributes.
pub proof fn lemma_arranged_back(
    relations: Seq<(usize, usize)>,
    source: int,
    nodes: Seq<Node>,
    p: int,
)
    requires
        0 <= source < relations.len(),
        plannable(relations, source),
        nodes.len() == largest(relations) + 1,
        0 <= p <= largest(relations),
    ensures
        attribute_order(relations, source)[p] <= largest(relations),
        arranged(places(relations, source), nodes)[attribute_order(relations, source)[p] as int]
            == nodes[p],
{
    lemma_order_start(relations, source);
    lemma_order_at(relations, source, p);
    let order = attribute_order(relations, source);
    let a = order[p];
    assert(place(order, a) == p);
    assert(places(relations, source)[a as int] == p as usize);
}

/// The changes found through a relation hold no binding twice, where no
/// update stands twice and no edge counts more than once.
pub proof fn lemma_derivative_distinct(
    indices: Seq<Index>,
    relations: Seq<(usize, usize)>,
    source: int,
    updates: Seq<(Edge, i32)>,
    time: u64,
)
    requires
        relations.len() <= usize::MAX,
        0 <= source < relations.len(),
        plannable(relations, source),
        both_count_values(indices),
        single(indices, time),
        updates.no_duplicates(),
    ensures
        derivative(indices, relations, source, updates, time).no_duplicates(),
{
    let rows = sources(updates);
    assert forall|i: int, j: int|
        0 <= i < rows.len() && 0 <= j < rows.len() && i != j implies rows[i] != rows[j] by {
        if rows[i] == rows[j] {
            assert(rows[i].0[0] == updates[i].0.0 && rows[i].0[1] == updates[i].0.1);
            assert(rows[j].0[0] == updates[j].0.0 && rows[j].0[1] == updates[j].0.1);
            assert(updates[i] == updates[j]);
        }
    }
    let count = stages(relations, source);
    lemma_stages(relations, source);
    lemma_stages_constrained(relations, source);
    lemma_staged_distinct(indices, relations, source, rows, time, count);
    let all = staged(indices, relations, source, rows, time, count);
    let arrange = arrange_by(places(relations, source));
    let out = derivative(indices, relations, source, updates, time);
    assert forall|i: int, j: int|
        0 <= i < out.len() && 0 <= j < out.len() && i != j implies out[i] != out[j] by {
        if out[i] == out[j] {
            assert(all.contains(all[i]));
            assert(all.contains(all[j]));
            lemma_staged_holds(indices, relations, source, rows, time, count, all[i]);
            lemma_staged_holds(indices, relations, source, rows, time, count, all[j]);
            assert(out[i] == arrange(all[i]));
            assert(out[j] == arrange(all[j]));
            assert forall|p: int| 0 <= p <= largest(relations) implies all[i].0[p]
                == all[j].0[p] by {
                lemma_arranged_back(relations, source, all[i].0, p);
                lemma_arranged_back(relations, source, all[j].0, p);
            }
            assert(all[i].0 =~= all[j].0);
            assert(all[i] == all[j]);
        }
    }
}

/// A sequence without an element twice holds an element once or not at
/// all.
pub proof fn lemma_count_distinct<A>(s: Seq<A>, x: A)
    requires
        s.no_duplicates(),
    ensures
        s.to_multiset().count(x) == one_if(s.contains(x)),
{
    broadcast use vstd::seq_lib::group_to_multiset_ensures;

    s.lemma_multiset_has_no_duplicates();
    if s.contains(x) {
        assert(s.to_multiset().contains(x));
    }
}

/// How often a binding is among the changes found through the first
/// `upto` relations as gained, less how often as lost, is how often a
/// relation finds it as gained, less how often one finds it as lost.
pub proof fn lemma_followed_counts(
    indices: Seq<Index>,
    relations: Seq<(usize, usize)>,
    updates: Seq<(Edge, i32)>,
    time: u64,
    binding: Seq<Node>,
    upto: int,
)
    requires
        relations.len() <= usize::MAX,
        0 <= upto <= relations.len(),
        simple(relations),
        both_count_values(indices),
        single(indices, time),
        updates.no_duplicates(),
    ensures
        followed(indices, relations, updates, time, upto).to_multiset().count((binding, 1i32))
            - followed(indices, relations, updates, time, upto).to_multiset().count(
            (binding, -1i32),
        ) == found(indices, relations, updates, time, binding, upto),
    decreases upto,
{
    if upto > 0 {
        lemma_followed_counts(indices, relations, updates, time, binding, upto - 1);
        let before = followed(indices, relations, updates, time, upto - 1);
        let here = derivative(indices, relations, upto - 1, updates, time);
        assert(plannable(relations, upto - 1));
        lemma_derivative_distinct(indices, relations, upto - 1, updates, time);
        lemma_count_distinct(here, (binding, 1i32));
        lemma_count_distinct(here, (binding, -1i32));
        lemma_multiset_commutative(before, here);
    } else {
        assert(followed(indices, relations, updates, time, upto).to_multiset().count(
            (binding, 1i32),
        ) == 0) by {
            broadcast use vstd::seq_lib::group_to_multiset_ensures;

        }
        assert(followed(indices, relations, updates, time, upto).to_multiset().count(
            (binding, -1i32),
        ) == 0) by {
            broadcast use vstd::seq_lib::group_to_multiset_ensures;

        }
    }
}

/// The changes of a motif are the changes of its instances.
///
/// Among the changes that the updates of `time` bring about, found
/// through all relations of the motif, a binding of all attributes stands
/// once more as gained than as lost if it is an instance in the graph
/// with the updates and none in the graph without them; once more as lost
/// than as gained if it is the other way round; and as often as gained as
/// lost if the updates leave it what it was.
///
/// This holds for a motif that can be planned from each relation, without
/// self loops and without two relations between the same two attributes,
/// where the updates are the changes of the graph at `time` and none
/// stands twice, no edge counts more than once, the reverse index mirrors
/// the forward index, and both count their values without wrapping.
pub proof fn lemma_motif_counted(
    indices: Seq<Index>,
    relations: Seq<(usize, usize)>,
    updates: Seq<(Edge, i32)>,
    time: u64,
    binding: Seq<Node>,
)
    requires
        relations.len() <= usize::MAX,
        simple(relations),
        both_count_values(indices),
        mirrors(indices),
        single(indices, time),
        changes(indices, updates, time),
        updates.no_duplicates(),
        binding.len() == largest(relations) + 1,
    ensures
        followed(
            indices,
            relations,
            updates,
            time,
            relations.len() as int,
        ).to_multiset().count((binding, 1i32)) - followed(
            indices,
            relations,
            updates,
            time,
            relations.len() as int,
        ).to_multiset().count((binding, -1i32)) == one_if(
            is_instance(indices, relations, true, time, binding),
        ) - one_if(is_instance(indices, relations, false, time, binding)),
{
    lemma_followed_counts(indices, relations, updates, time, binding, relations.len() as int);
    lemma_motif_change(indices, relations, updates, time, binding);
}

/// What is answered for a batch of updates is the change of the instances
/// of the motif.
///
/// Where `out` holds the changes that `track_motif` gives for the updates
/// of `time`, once they are in a mirrored graph, a binding of all
/// attributes stands in it once more as gained than as lost if the updates
/// make it an instance, once more as lost than as gained if they break it,
/// and as often as gained as lost if they leave it what it was.
pub proof fn lemma_motif_answer(
    graph: GraphStreamIndex,
    relations: Seq<(usize, usize)>,
    updates: Seq<(Edge, i32)>,
    time: u64,
    out: Seq<(Vec<Node>, i32)>,
    binding: Seq<Node>,
)
    requires
        relations.len() <= usize::MAX,
        simple(relations),
        graph.mirrored(),
        both_count_values(graph.indices()),
        single(graph.indices(), time),
        changes(graph.indices(), updates, time),
        updates.no_duplicates(),
        binding.len() == largest(relations) + 1,
        bindings(out).to_multiset() == followed(
            graph.indices(),
            relations,
            updates,
            time,
            relations.len() as int,
        ).to_multiset(),
    ensures
        bindings(out).to_multiset().count((binding, 1i32)) - bindings(out).to_multiset().count(
            (binding, -1i32),
        ) == one_if(is_instance(graph.indices(), relations, true, time, binding)) - one_if(
            is_instance(graph.indices(), relations, false, time, binding),
        ),
{
    lemma_twins_mirror(graph.indices());
    lemma_motif_counted(graph.indices(), relations, updates, time, binding);
}

/// The graph holds each edge once or not at all, as a query at `time`
/// sees the forward index, and no update made at `time` is in it yet.
pub open spec fn settled(forward: Index, time: u64) -> bool {
    forall|k: u32, v: u32|
        0 <= #[trigger] forward.weight(k, v, Visible { time, inclusive: false }) <= 1
            && forward.weight(k, v, Visible { time, inclusive: true }) == forward.weight(
            k,
            v,
            Visible { time, inclusive: false },
        )
}

/// The updates change a graph of single edges: no two of them are to the
/// same edge, and each adds an edge that the graph lacks or removes one
/// that it has.
pub open spec fn normal(forward: Index, updates: Seq<(Edge, i32)>, time: u64) -> bool {
    &&& forall|i: int, j: int|
        0 <= i < j < updates.len() ==> (#[trigger] updates[i]).0 != (#[trigger] updates[j]).0
    &&& forall|i: int|
        0 <= i < updates.len() ==> {
            let held = forward.weight(
                (#[trigger] updates[i]).0.0,
                updates[i].0.1,
                Visible { time, inclusive: false },
            );
            (updates[i].1 == 1 && held == 0) || (updates[i].1 == -1 && held == 1)
        }
}

/// What a batch without two updates to the same edge adds to an edge at
/// its time: the diff of its update to the edge, if it has one, for a
/// query that sees the time, and nothing for one that does not.
pub proof fn lemma_batch_adds(updates: Seq<(Edge, i32)>, time: u64, k: u32, v: u32)
    requires
        forall|i: int, j: int|
            0 <= i < j < updates.len() ==> (#[trigger] updates[i]).0 != (#[trigger] updates[j]).0,
    ensures
        sum_by(stamped(updates, time), seen_diff(k, v, Visible { time, inclusive: false })) == 0,
        forall|i: int|
            0 <= i < updates.len() && (#[trigger] updates[i]).0 == (k, v) ==> sum_by(
                stamped(updates, time),
                seen_diff(k, v, Visible { time, inclusive: true }),
            ) == updates[i].1,
        (forall|i: int| 0 <= i < updates.len() ==> (#[trigger] updates[i]).0 != (k, v)) ==> sum_by(
            stamped(updates, time),
            seen_diff(k, v, Visible { time, inclusive: true }),
        ) == 0,
    decreases updates.len(),
{
    if updates.len() > 0 {
        let rest = updates.drop_last();
        let last = updates.last();
        let fresh = seen_diff(k, v, Visible { time, inclusive: true });
        assert forall|i: int, j: int| 0 <= i < j < rest.len() implies (#[trigger] rest[i]).0 != (
        #[trigger] rest[j]).0 by {
            assert(updates[i].0 != updates[j].0);
        }
        lemma_batch_adds(rest, time, k, v);
        assert(stamped(updates, time).drop_last() =~= stamped(rest, time));
        assert(stamped(updates, time).last() == (last.0.0, last.0.1, time, last.1));
        if last.0 == (k, v) {
            assert forall|i: int| 0 <= i < rest.len() implies (#[trigger] rest[i]).0 != (k, v) by {
                assert(updates[i].0 != updates[updates.len() - 1].0);
            }
            assert(sum_by(stamped(updates, time), fresh) == last.1);
            assert forall|i: int| 0 <= i < updates.len() && (#[trigger] updates[i]).0 == (
                k,
                v,
            ) implies sum_by(stamped(updates, time), fresh) == updates[i].1 by {
                if i < updates.len() - 1 {
                    assert(updates[i].0 != updates[updates.len() - 1].0);
                }
            }
        } else {
            assert(sum_by(stamped(updates, time), fresh) == sum_by(stamped(rest, time), fresh));
            assert forall|i: int| 0 <= i < updates.len() && (#[trigger] updates[i]).0 == (
                k,
                v,
            ) implies sum_by(stamped(updates, time), fresh) == updates[i].1 by {
                assert(rest[i] == updates[i]);
            }
            if forall|i: int| 0 <= i < updates.len() ==> (#[trigger] updates[i]).0 != (k, v) {
                assert forall|i: int| 0 <= i < rest.len() implies (#[trigger] rest[i]).0 != (
                    k,
                    v,
                ) by {
                    assert(rest[i] == updates[i]);
                }
            }
        }
    }
}

/// What the updates make of one edge: it is held once or not at all
/// before and after, gained exactly if an update adds it, and lost exactly
/// if an update removes it.
pub proof fn lemma_edge_changes(
    before: Index,
    after: Index,
    updates: Seq<(Edge, i32)>,
    time: u64,
    src: Node,
    dst: Node,
)
    requires
        forall|k: u32, v: u32, valid: Visible| #[trigger]
            after.weight(k, v, valid) == before.weight(k, v, valid) + sum_by(
                stamped(updates, time),
                seen_diff(k, v, valid),
            ),
        settled(before, time),
        normal(before, updates, time),
    ensures
        0 <= after.accumulated(src, dst, Visible { time, inclusive: false }) <= 1,
        0 <= after.accumulated(src, dst, Visible { time, inclusive: true }) <= 1,
        updates.contains(((src, dst), 1i32)) <==> after.accumulated(
            src,
            dst,
            Visible { time, inclusive: true },
        ) > 0 && after.accumulated(src, dst, Visible { time, inclusive: false }) <= 0,
        updates.contains(((src, dst), -1i32)) <==> after.accumulated(
            src,
            dst,
            Visible { time, inclusive: false },
        ) > 0 && after.accumulated(src, dst, Visible { time, inclusive: true }) <= 0,
{
    let stale = Visible { time, inclusive: false };
    let fresh = Visible { time, inclusive: true };
    let held = before.weight(src, dst, stale);
    let added = sum_by(stamped(updates, time), seen_diff(src, dst, fresh));
    lemma_batch_adds(updates, time, src, dst);
    assert(0 <= held <= 1 && before.weight(src, dst, fresh) == held);
    assert(after.weight(src, dst, stale) == held);
    assert(after.weight(src, dst, fresh) == held + added);
    if exists|i: int| 0 <= i < updates.len() && (#[trigger] updates[i]).0 == (src, dst) {
        let i = choose|i: int| 0 <= i < updates.len() && (#[trigger] updates[i]).0 == (src, dst);
        assert(added == updates[i].1);
        assert(updates[i].0.0 == src && updates[i].0.1 == dst);
        assert((updates[i].1 == 1 && held == 0) || (updates[i].1 == -1 && held == 1));
        assert(updates[i] == ((src, dst), updates[i].1));
        assert(updates.contains(updates[i]));
        assert forall|j: int| 0 <= j < updates.len() && (#[trigger] updates[j]).0 == (
            src,
            dst,
        ) implies updates[j].1 == updates[i].1 by {}
    } else {
        assert(added == 0);
    }
    lemma_wrap_fits(held);
    lemma_wrap_fits(held + added);
    if updates.contains(((src, dst), 1i32)) {
        let j = choose|j: int| 0 <= j < updates.len() && updates[j] == ((src, dst), 1i32);
        assert(updates[j].0 == (src, dst));
    }
    if updates.contains(((src, dst), -1i32)) {
        let j = choose|j: int| 0 <= j < updates.len() && updates[j] == ((src, dst), -1i32);
        assert(updates[j].0 == (src, dst));
    }
}

/// Updates that change a graph of single edges are the changes of the
/// graph.
///
/// Where a mirrored graph holds each edge once or not at all, and takes
/// at `time` a batch of updates that each add an edge that it lacks or
/// remove one that it has, no two to the same edge, the graph still holds
/// each edge once or not at all, and the updates are what it gains and
/// loses at `time`.
pub proof fn lemma_update_changes(
    before: GraphStreamIndex,
    after: GraphStreamIndex,
    updates: Seq<(Edge, i32)>,
    time: u64,
)
    requires
        after.indices().len() == 2,
        after.mirrored(),
        forall|k: u32, v: u32, valid: Visible| #[trigger]
            after.forward().weight(k, v, valid) == before.forward().weight(k, v, valid) + sum_by(
                stamped(updates, time),
                seen_diff(k, v, valid),
            ),
        settled(before.forward(), time),
        normal(before.forward(), updates, time),
    ensures
        changes(after.indices(), updates, time),
        single(after.indices(), time),
        updates.no_duplicates(),
{
    let indices = after.indices();
    assert forall|src: Node, dst: Node|
        (#[trigger] updates.contains(((src, dst), 1i32)) <==> present(
            indices,
            true,
            time,
            src,
            dst,
        ) && !present(indices, false, time, src, dst)) && (updates.contains(((src, dst), -1i32))
            <==> present(indices, false, time, src, dst) && !present(
            indices,
            true,
            time,
            src,
            dst,
        )) by {
        lemma_edge_changes(before.forward(), after.forward(), updates, time, src, dst);
    }
    assert forall|w: int, key: u32, value: u32, fresh: bool| 0 <= w < indices.len() implies #[trigger]
        indices[w].accumulated(key, value, Visible { time, inclusive: fresh }) <= 1 by {
        if w == 0 {
            lemma_edge_changes(before.forward(), after.forward(), updates, time, key, value);
        } else {
            lemma_twins_weigh_alike(
                after.forward(),
                after.reverse(),
                value,
                key,
                Visible { time, inclusive: fresh },
            );
            lemma_edge_changes(before.forward(), after.forward(), updates, time, value, key);
        }
    }
    assert forall|i: int, j: int|
        0 <= i < updates.len() && 0 <= j < updates.len() && i != j implies updates[i]
        != updates[j] by {
        if i < j {
            assert(updates[i].0 != updates[j].0);
        } else {
            assert(updates[j].0 != updates[i].0);
        }
    }
}

} // verus!
