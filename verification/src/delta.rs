//! What the changes that are found through one relation of a motif are.

use vstd::prelude::*;
use crate::extender::{lemma_reorders_all, selects};
use crate::index::reorders;
use crate::index::{Index, Visible};
use crate::mirror::{lemma_twins_weigh_alike, twins};
use crate::laws::{admits, all_count_values, counts_values, lemma_stage_holds};
use crate::motif::{
    adjacent, attribute_order, constraints_of, extender_of, grown, largest,
    lemma_first, lemma_largest, lemma_place, next_attribute, place, plannable, relabeled, relates,
    arrange_by, arranged, derivative, places, sources, stage_extenders, staged, stages, Binding,
    Edge, Node,
};

verus! {

/// No entry stands twice.
pub open spec fn distinct(s: Seq<usize>) -> bool {
    forall|i: int, j: int| 0 <= i < j < s.len() ==> s[i] != s[j]
}

/// Some relation names `x`.
pub open spec fn is_attribute(relations: Seq<(usize, usize)>, x: usize) -> bool {
    exists|i: int|
        0 <= i < relations.len() && ((#[trigger] relations[i]).0 == x || relations[i].1 == x)
}

/// Every entry is named by a relation.
pub open spec fn all_attributes(relations: Seq<(usize, usize)>, s: Seq<usize>) -> bool {
    forall|p: int| 0 <= p < s.len() ==> is_attribute(relations, #[trigger] s[p])
}

/// Growth keeps the entries distinct and adds attributes of the relations
/// only.
pub proof fn lemma_grown(relations: Seq<(usize, usize)>, active: Seq<usize>, steps: nat)
    requires
        distinct(active),
        all_attributes(relations, active),
    ensures
        distinct(grown(relations, active, steps)),
        all_attributes(relations, grown(relations, active, steps)),
        grown(relations, active, steps).len() >= active.len(),
        grown(relations, active, steps).take(active.len() as int) == active,
        forall|p: int|
            active.len() <= p < grown(relations, active, steps).len() ==> adjacent(
                relations,
                grown(relations, active, steps).take(p),
                #[trigger] grown(relations, active, steps)[p],
            ),
    decreases steps,
{
    let all = grown(relations, active, steps);
    if steps == 0 || next_attribute(relations, active).is_none() {
        assert(all.take(active.len() as int) =~= active);
    }
    if steps > 0 {
        match next_attribute(relations, active) {
            Some(x) => {
                assert(adjacent(relations, active, x));
                let more = active.push(x);
                let i = choose|i: int|
                    0 <= i < relations.len() && #[trigger] relates(relations[i], active, x);
                assert(relations[i].0 == x || relations[i].1 == x);
                assert forall|a: int, b: int| 0 <= a < b < more.len() implies more[a]
                    != more[b] by {
                    if b == active.len() {
                        assert(active.contains(active[a]));
                    } else {
                        assert(active[a] != active[b]);
                    }
                }
                assert forall|p: int| 0 <= p < more.len() implies is_attribute(
                    relations,
                    #[trigger] more[p],
                ) by {
                    if p < active.len() {
                        assert(is_attribute(relations, active[p]));
                    }
                }
                lemma_grown(relations, more, (steps - 1) as nat);
                assert(all.take(more.len() as int) == more);
                assert(all.take(active.len() as int) =~= active) by {
                    assert forall|k: int| 0 <= k < active.len() implies all[k] == active[k] by {
                        assert(all.take(more.len() as int)[k] == more[k]);
                    }
                }
                assert forall|p: int| active.len() <= p < all.len() implies adjacent(
                    relations,
                    all.take(p),
                    #[trigger] all[p],
                ) by {
                    if p == active.len() {
                        assert(all.take(more.len() as int)[p] == more[p]);
                        assert(all.take(p) =~= active);
                    }
                }
            },
            None => {},
        }
    }
}

/// Distinct numbers below a bound are no more than the bound.
pub proof fn lemma_distinct_bounded(s: Seq<int>, n: int)
    requires
        0 <= n,
        selects(s, n),
    ensures
        s.len() <= n,
{
    if s.len() > n {
        let first = s.take(n);
        assert(reorders(first, n)) by {
            assert forall|i: int| 0 <= i < n implies 0 <= #[trigger] first[i] < n by {
                assert(first[i] == s[i]);
            }
            assert forall|i: int, j: int| 0 <= i < j < n implies #[trigger] first[i]
                != #[trigger] first[j] by {
                assert(first[i] == s[i] && first[j] == s[j]);
            }
        }
        let extra = s[n];
        assert(0 <= extra < n);
        lemma_reorders_all(first, n, extra);
        let j = choose|j: int| 0 <= j < first.len() && first[j] == extra;
        assert(s[j] == s[n]);
    }
}

/// The order of a relation that can be planned names each attribute up to
/// the largest once, at its place.
pub proof fn lemma_order(relations: Seq<(usize, usize)>, source: int)
    requires
        0 <= source < relations.len(),
        plannable(relations, source),
    ensures
        attribute_order(relations, source).len() == largest(relations) + 1,
        distinct(attribute_order(relations, source)),
        attribute_order(relations, source).len() >= 2,
        forall|p: int|
            0 <= p < attribute_order(relations, source).len() ==> (#[trigger] attribute_order(
                relations,
                source,
            )[p]) <= largest(relations) && place(
                attribute_order(relations, source),
                attribute_order(relations, source)[p],
            ) == p && is_attribute(relations, attribute_order(relations, source)[p]),
        forall|a: usize|
            a <= largest(relations) ==> 0 <= #[trigger] place(
                attribute_order(relations, source),
                a,
            ) < attribute_order(relations, source).len() && attribute_order(
                relations,
                source,
            )[place(attribute_order(relations, source), a)] == a,
{
    reveal(attribute_order);
    let order = attribute_order(relations, source);
    let start = seq![relations[source].0, relations[source].1];
    let n = largest(relations) + 1;
    lemma_largest_bounded(relations, usize::MAX as int);
    assert(distinct(start));
    assert(all_attributes(relations, start)) by {
        assert forall|p: int| 0 <= p < start.len() implies is_attribute(
            relations,
            #[trigger] start[p],
        ) by {
            assert(relations[source].0 == start[p] || relations[source].1 == start[p]);
        }
    }
    lemma_grown(relations, start, relations.len());
    assert forall|p: int| 0 <= p < order.len() implies (#[trigger] order[p]) <= largest(
        relations,
    ) && place(order, order[p]) == p by {
        assert(is_attribute(relations, order[p]));
        let i = choose|i: int|
            0 <= i < relations.len() && ((#[trigger] relations[i]).0 == order[p]
                || relations[i].1 == order[p]);
        lemma_largest(relations, i);
        assert forall|j: int| 0 <= j < p implies order[j] != order[p] by {}
        lemma_place(order, order[p], p);
    }
    assert forall|a: usize| a <= largest(relations) implies 0 <= #[trigger] place(order, a)
        < order.len() && order[place(order, a)] == a by {
        assert(order.contains(a));
        let at = choose|at: int| 0 <= at < order.len() && order[at] == a;
        lemma_first(order, a, at);
    }
    let as_numbers = Seq::new(order.len(), |p: int| order[p] as int);
    assert(selects(as_numbers, n)) by {
        assert forall|i: int, j: int| 0 <= i < j < as_numbers.len() implies #[trigger] as_numbers[i]
            != #[trigger] as_numbers[j] by {
            assert(order[i] != order[j]);
        }
    }
    lemma_largest(relations, source);
    lemma_distinct_bounded(as_numbers, n);
    let places = Seq::new(n as nat, |a: int| place(order, a as usize));
    assert(selects(places, order.len() as int)) by {
        assert forall|i: int, j: int| 0 <= i < j < places.len() implies #[trigger] places[i]
            != #[trigger] places[j] by {
            let a = i as usize;
            let b = j as usize;
            assert(a <= largest(relations) && b <= largest(relations));
            assert(order[place(order, a)] == a);
            assert(order[place(order, b)] == b);
        }
        assert forall|i: int| 0 <= i < places.len() implies 0 <= #[trigger] places[i]
            < order.len() by {
            let a = i as usize;
            assert(a <= largest(relations));
            assert(0 <= place(order, a) < order.len());
        }
    }
    lemma_distinct_bounded(places, order.len() as int);
    assert(relations[source].0 != relations[source].1);
    assert(order.contains(relations[source].0));
    assert(order.contains(relations[source].1));
    if order.len() < 2 {
        let a = choose|at: int| 0 <= at < order.len() && order[at] == relations[source].0;
        let b = choose|at: int| 0 <= at < order.len() && order[at] == relations[source].1;
        assert(a == 0 && b == 0);
    }
}

/// The order starts with the two attributes of the source relation and
/// has a place for each attribute up to the largest.
pub proof fn lemma_order_start(relations: Seq<(usize, usize)>, source: int)
    requires
        0 <= source < relations.len(),
        plannable(relations, source),
    ensures
        attribute_order(relations, source).len() == largest(relations) + 1,
        largest(relations) >= 1,
        largest(relations) <= usize::MAX,
        attribute_order(relations, source)[0] == relations[source].0,
        attribute_order(relations, source)[1] == relations[source].1,
        place(attribute_order(relations, source), relations[source].0) == 0,
        place(attribute_order(relations, source), relations[source].1) == 1,
{
    reveal(attribute_order);
    let order = attribute_order(relations, source);
    let start = seq![relations[source].0, relations[source].1];
    lemma_order(relations, source);
    lemma_largest_bounded(relations, usize::MAX as int);
    assert(distinct(start));
    assert(all_attributes(relations, start)) by {
        assert forall|p: int| 0 <= p < start.len() implies is_attribute(
            relations,
            #[trigger] start[p],
        ) by {
            assert(relations[source].0 == start[p] || relations[source].1 == start[p]);
        }
    }
    lemma_grown(relations, start, relations.len());
    assert(order.take(2)[0] == start[0]);
    assert(order.take(2)[1] == start[1]);
    assert(place(order, order[0]) == 0);
    assert(place(order, order[1]) == 1);
}

/// The attribute at a place of the order has that place.
pub proof fn lemma_order_at(relations: Seq<(usize, usize)>, source: int, p: int)
    requires
        0 <= source < relations.len(),
        plannable(relations, source),
        0 <= p <= largest(relations),
    ensures
        attribute_order(relations, source)[p] <= largest(relations),
        place(attribute_order(relations, source), attribute_order(relations, source)[p]) == p,
{
    lemma_order(relations, source);
    let order = attribute_order(relations, source);
    assert(order[p] <= largest(relations) && place(order, order[p]) == p);
}

/// An attribute up to the largest stands at its place in the order.
pub proof fn lemma_order_place(relations: Seq<(usize, usize)>, source: int, a: usize)
    requires
        0 <= source < relations.len(),
        plannable(relations, source),
        a <= largest(relations),
    ensures
        0 <= place(attribute_order(relations, source), a) <= largest(relations),
        attribute_order(relations, source)[place(attribute_order(relations, source), a)] == a,
{
    lemma_order(relations, source);
    let order = attribute_order(relations, source);
    assert(0 <= place(order, a) < order.len() && order[place(order, a)] == a);
}

/// An attribute behind the first two of the order is related to one
/// before it: some relation has it at one end, and at the other end an
/// attribute with an earlier place.
pub proof fn lemma_order_bound(relations: Seq<(usize, usize)>, source: int, p: int) -> (found: (
    int,
    int,
))
    requires
        0 <= source < relations.len(),
        plannable(relations, source),
        2 <= p <= largest(relations),
    ensures
        0 <= found.0 < relations.len(),
        0 <= found.1 < p,
        (relations[found.0].0 == attribute_order(relations, source)[p] && relations[found.0].1
            == attribute_order(relations, source)[found.1]) || (relations[found.0].1
            == attribute_order(relations, source)[p] && relations[found.0].0 == attribute_order(
            relations,
            source,
        )[found.1]),
{
    reveal(attribute_order);
    let order = attribute_order(relations, source);
    let start = seq![relations[source].0, relations[source].1];
    lemma_order_start(relations, source);
    assert(distinct(start));
    assert(all_attributes(relations, start)) by {
        assert forall|k: int| 0 <= k < start.len() implies is_attribute(
            relations,
            #[trigger] start[k],
        ) by {
            assert(relations[source].0 == start[k] || relations[source].1 == start[k]);
        }
    }
    lemma_grown(relations, start, relations.len());
    assert(adjacent(relations, order.take(p), order[p]));
    let i = choose|i: int|
        0 <= i < relations.len() && #[trigger] relates(relations[i], order.take(p), order[p]);
    let other = if relations[i].0 == order[p] && order.take(p).contains(relations[i].1) {
        relations[i].1
    } else {
        relations[i].0
    };
    assert(order.take(p).contains(other));
    let q = choose|q: int| 0 <= q < order.take(p).len() && order.take(p)[q] == other;
    assert(order[q] == other);
    (i, q)
}

/// The relations with their attributes replaced by their places.
pub proof fn lemma_relabeled_at(relations: Seq<(usize, usize)>, source: int, i: int)
    requires
        0 <= source < relations.len(),
        plannable(relations, source),
        0 <= i < relations.len(),
    ensures
        relabeled(relations, attribute_order(relations, source))[i].0 == place(
            attribute_order(relations, source),
            relations[i].0,
        ),
        relabeled(relations, attribute_order(relations, source))[i].1 == place(
            attribute_order(relations, source),
            relations[i].1,
        ),
        0 <= place(attribute_order(relations, source), relations[i].0) <= largest(relations),
        0 <= place(attribute_order(relations, source), relations[i].1) <= largest(relations),
        attribute_order(relations, source)[place(
            attribute_order(relations, source),
            relations[i].0,
        )] == relations[i].0,
        attribute_order(relations, source)[place(
            attribute_order(relations, source),
            relations[i].1,
        )] == relations[i].1,
{
    lemma_largest(relations, i);
    lemma_largest_bounded(relations, usize::MAX as int);
    lemma_order_place(relations, source, relations[i].0);
    lemma_order_place(relations, source, relations[i].1);
}

/// The largest attribute is no larger than a bound on all attributes.
pub proof fn lemma_largest_bounded(relations: Seq<(usize, usize)>, bound: int)
    requires
        0 <= bound,
        forall|i: int|
            0 <= i < relations.len() ==> (#[trigger] relations[i]).0 <= bound && relations[i].1
                <= bound,
    ensures
        largest(relations) <= bound,
    decreases relations.len(),
{
    if relations.len() > 0 {
        assert forall|i: int| 0 <= i < relations.drop_last().len() implies (
        #[trigger] relations.drop_last()[i]).0 <= bound && relations.drop_last()[i].1 <= bound by {
            assert(relations.drop_last()[i] == relations[i]);
        }
        lemma_largest_bounded(relations.drop_last(), bound);
        assert(relations[relations.len() - 1].0 <= bound);
    }
}

/// A plan has one stage for each attribute behind the first two.
pub proof fn lemma_stages(relations: Seq<(usize, usize)>, source: int)
    requires
        0 <= source < relations.len(),
        plannable(relations, source),
    ensures
        stages(relations, source) == largest(relations) - 1,
        largest(relabeled(relations, attribute_order(relations, source))) == largest(relations),
{
    let order = attribute_order(relations, source);
    let renamed = relabeled(relations, order);
    let n = largest(relations) + 1;
    lemma_order(relations, source);
    lemma_largest_bounded(relations, usize::MAX as int);
    assert forall|i: int| 0 <= i < renamed.len() implies (#[trigger] renamed[i]).0 <= n - 1
        && renamed[i].1 <= n - 1 by {
        lemma_largest(relations, i);
        assert(0 <= place(order, relations[i].0) < order.len());
        assert(0 <= place(order, relations[i].1) < order.len());
    }
    lemma_largest_bounded(renamed, n - 1);
    let last = order[n - 1];
    assert(is_attribute(relations, last));
    let i = choose|i: int|
        0 <= i < relations.len() && ((#[trigger] relations[i]).0 == last || relations[i].1
            == last);
    assert(place(order, last) == n - 1);
    lemma_largest(renamed, i);
    assert(renamed[i] == (
        place(order, relations[i].0) as usize,
        place(order, relations[i].1) as usize,
    ));
}

/// The relation at `index` puts the constraint `c` on `attribute`.
pub open spec fn constrains(
    relation: (usize, usize),
    index: int,
    attribute: usize,
    source_index: usize,
    c: (usize, bool, bool),
) -> bool {
    ||| relation.0 == attribute && relation.1 < attribute && c == (
        relation.1,
        false,
        index < source_index,
    )
    ||| relation.1 == attribute && relation.0 < attribute && c == (
        relation.0,
        true,
        index < source_index,
    )
}

/// The constraints on an attribute are those that the relations put on it.
pub proof fn lemma_constraints(
    relations: Seq<(usize, usize)>,
    attribute: usize,
    source_index: usize,
    upto: int,
    c: (usize, bool, bool),
)
    requires
        0 <= upto <= relations.len(),
    ensures
        constraints_of(relations, attribute, source_index, upto).contains(c) <==> exists|i: int|
            0 <= i < upto && constrains(#[trigger] relations[i], i, attribute, source_index, c),
    decreases upto,
{
    let all = constraints_of(relations, attribute, source_index, upto);
    if upto > 0 {
        lemma_constraints(relations, attribute, source_index, upto - 1, c);
        let rest = constraints_of(relations, attribute, source_index, upto - 1);
        let (src, dst) = relations[upto - 1];
        let prior = upto - 1 < source_index;
        let reverse = if src == attribute && dst < attribute {
            rest.push((dst, false, prior))
        } else {
            rest
        };
        if all.contains(c) {
            let at = choose|k: int| 0 <= k < all.len() && all[k] == c;
            if at < rest.len() {
                assert(rest[at] == c);
                assert(rest.contains(c));
            } else {
                assert(constrains(relations[upto - 1], upto - 1, attribute, source_index, c));
            }
        }
        if exists|i: int|
            0 <= i < upto && constrains(#[trigger] relations[i], i, attribute, source_index, c) {
            let i = choose|i: int|
                0 <= i < upto && constrains(
                    #[trigger] relations[i],
                    i,
                    attribute,
                    source_index,
                    c,
                );
            if i < upto - 1 {
                assert(rest.contains(c));
                let at = choose|k: int| 0 <= k < rest.len() && rest[k] == c;
                assert(reverse[at] == c);
                assert(all[at] == c);
            } else {
                if src == attribute && dst < attribute && c == (dst, false, prior) {
                    assert(reverse[rest.len() as int] == c);
                    assert(all[rest.len() as int] == c);
                } else {
                    assert(all[all.len() - 1] == c);
                }
            }
        }
    }
}

/// The binding admits what the first `upto` stages of the plan ask for:
/// each node behind the first two is admitted by every extender of its
/// stage, for the nodes before it.
pub open spec fn follows_plan(
    indices: Seq<Index>,
    relations: Seq<(usize, usize)>,
    source: int,
    nodes: Seq<Node>,
    time: u64,
    upto: int,
) -> bool {
    forall|s: int, e: int|
        0 <= s < upto && 0 <= e < stage_extenders(relations, source, s).len() ==> admits(
            indices,
            #[trigger] stage_extenders(relations, source, s)[e],
            nodes.take(s + 2),
            nodes[s + 2],
            time,
        )
}

/// Both indices count the values of every key without wrapping.
pub open spec fn both_count_values(indices: Seq<Index>) -> bool {
    &&& indices.len() == 2
    &&& forall|key: u32| #[trigger] counts_values(indices[0], key)
    &&& forall|key: u32| #[trigger] counts_values(indices[1], key)
}

/// Each of the first `upto` stages has an extender.
pub open spec fn stages_constrained(relations: Seq<(usize, usize)>, source: int, upto: int) -> bool {
    forall|s: int| 0 <= s < upto ==> (#[trigger] stage_extenders(relations, source, s)).len() > 0
}

/// What the bindings are after some stages: the bindings of the batch,
/// each with one more node for each stage, such that the plan is followed.
pub proof fn lemma_staged_holds(
    indices: Seq<Index>,
    relations: Seq<(usize, usize)>,
    source: int,
    rows: Seq<Binding>,
    time: u64,
    upto: int,
    row: Binding,
)
    requires
        0 <= upto,
        both_count_values(indices),
        stages_constrained(relations, source, upto),
        forall|i: int| 0 <= i < rows.len() ==> (#[trigger] rows[i]).0.len() == 2,
    ensures
        staged(indices, relations, source, rows, time, upto).contains(row) <==> {
            &&& row.0.len() == upto + 2
            &&& rows.contains((row.0.take(2), row.1))
            &&& follows_plan(indices, relations, source, row.0, time, upto)
        },
    decreases upto,
{
    let all = staged(indices, relations, source, rows, time, upto);
    if upto == 0 {
        if all.contains(row) {
            let i = choose|i: int| 0 <= i < rows.len() && rows[i] == row;
            assert(row.0.take(2) =~= row.0);
        }
        if row.0.len() == 2 && rows.contains((row.0.take(2), row.1)) {
            assert(row.0.take(2) =~= row.0);
        }
    } else {
        let extenders = stage_extenders(relations, source, upto - 1);
        let before = staged(indices, relations, source, rows, time, upto - 1);
        let shorter = (row.0.drop_last(), row.1);
        assert(extenders.len() > 0);
        assert forall|i: int| 0 <= i < before.len() implies all_count_values(
            indices,
            extenders,
            (#[trigger] before[i]).0,
        ) by {
            assert forall|e: int| 0 <= e < extenders.len() implies counts_values(
                indices[(#[trigger] extenders[e]).source as int],
                before[i].0[extenders[e].attribute as int],
            ) by {
                crate::motif::lemma_stage_sources(relations, source, upto - 1);
            }
        }
        lemma_stage_holds(indices, extenders, before, time, row);
        lemma_staged_holds(indices, relations, source, rows, time, upto - 1, shorter);
        if row.0.len() == upto + 2 {
            assert(row.0.drop_last().take(2) =~= row.0.take(2));
            assert(row.0.take(upto + 1) =~= row.0.drop_last());
            if follows_plan(indices, relations, source, row.0, time, upto) {
                assert(follows_plan(indices, relations, source, shorter.0, time, upto - 1)) by {
                    assert forall|s: int, e: int|
                        0 <= s < upto - 1 && 0 <= e < stage_extenders(
                            relations,
                            source,
                            s,
                        ).len() implies admits(
                        indices,
                        #[trigger] stage_extenders(relations, source, s)[e],
                        shorter.0.take(s + 2),
                        shorter.0[s + 2],
                        time,
                    ) by {
                        assert(row.0.drop_last().take(s + 2) =~= row.0.take(s + 2));
                        assert(admits(
                            indices,
                            stage_extenders(relations, source, s)[e],
                            row.0.take(s + 2),
                            row.0[s + 2],
                            time,
                        ));
                    }
                }
                assert forall|e: int| 0 <= e < extenders.len() implies admits(
                    indices,
                    #[trigger] extenders[e],
                    row.0.drop_last(),
                    row.0.last(),
                    time,
                ) by {
                    assert(admits(
                        indices,
                        stage_extenders(relations, source, upto - 1)[e],
                        row.0.take(upto - 1 + 2),
                        row.0[upto - 1 + 2],
                        time,
                    ));
                }
            }
            if follows_plan(indices, relations, source, shorter.0, time, upto - 1) && (forall|
                e: int,
            |
                0 <= e < extenders.len() ==> admits(
                    indices,
                    #[trigger] extenders[e],
                    row.0.drop_last(),
                    row.0.last(),
                    time,
                )) {
                assert forall|s: int, e: int|
                    0 <= s < upto && 0 <= e < stage_extenders(
                        relations,
                        source,
                        s,
                    ).len() implies admits(
                    indices,
                    #[trigger] stage_extenders(relations, source, s)[e],
                    row.0.take(s + 2),
                    row.0[s + 2],
                    time,
                ) by {
                    if s < upto - 1 {
                        assert(row.0.drop_last().take(s + 2) =~= row.0.take(s + 2));
                        assert(admits(
                            indices,
                            stage_extenders(relations, source, s)[e],
                            shorter.0.take(s + 2),
                            shorter.0[s + 2],
                            time,
                        ));
                    } else {
                        assert(admits(indices, extenders[e], row.0.drop_last(), row.0.last(), time));
                    }
                }
            }
        }
    }
}

/// The edge from `src` to `dst` is in the graph that a query at `time`
/// sees: with the updates made at `time` if `fresh`, without them if not.
pub open spec fn present(indices: Seq<Index>, fresh: bool, time: u64, src: Node, dst: Node) -> bool {
    indices[0].accumulated(src, dst, Visible { time, inclusive: fresh }) > 0
}

/// The reverse index holds the edges of the forward index, turned round.
pub open spec fn mirrors(indices: Seq<Index>) -> bool {
    forall|src: Node, dst: Node, valid: Visible|
        #[trigger] indices[1].accumulated(dst, src, valid) > 0 <==> indices[0].accumulated(
            src,
            dst,
            valid,
        ) > 0
}

/// Twin indices mirror each other at every query.
pub proof fn lemma_twins_mirror(indices: Seq<Index>)
    requires
        indices.len() == 2,
        twins(indices[0], indices[1]),
    ensures
        mirrors(indices),
{
    assert forall|src: Node, dst: Node, valid: Visible|
        #[trigger] indices[1].accumulated(dst, src, valid) > 0 <==> indices[0].accumulated(
            src,
            dst,
            valid,
        ) > 0 by {
        lemma_twins_weigh_alike(indices[0], indices[1], src, dst, valid);
    }
}

/// The relation at `source` is the only one between its two attributes,
/// and no other relation relates an attribute to itself.
pub open spec fn simple_from(relations: Seq<(usize, usize)>, source: int) -> bool {
    forall|i: int|
        0 <= i < relations.len() && i != source ==> (#[trigger] relations[i]).0 != relations[i].1
            && !((relations[i].0 == relations[source].0 || relations[i].0
            == relations[source].1) && (relations[i].1 == relations[source].0 || relations[i].1
            == relations[source].1))
}

/// The nodes, bound in the order of the plan, meet every relation but the
/// one at `source`: in the graph with the updates of `time` for the
/// relations before it, in the graph without them for those behind it.
pub open spec fn meets_relations(
    indices: Seq<Index>,
    relations: Seq<(usize, usize)>,
    source: int,
    nodes: Seq<Node>,
    time: u64,
) -> bool {
    let order = attribute_order(relations, source);
    forall|i: int|
        0 <= i < relations.len() && i != source ==> present(
            indices,
            i < source,
            time,
            nodes[place(order, (#[trigger] relations[i]).0)],
            nodes[place(order, relations[i].1)],
        )
}

/// Every stage of a plan has an extender.
pub proof fn lemma_stages_constrained(relations: Seq<(usize, usize)>, source: int)
    requires
        relations.len() <= usize::MAX,
        0 <= source < relations.len(),
        plannable(relations, source),
    ensures
        stages_constrained(relations, source, largest(relations) - 1),
{
    assert forall|s: int| 0 <= s < largest(relations) - 1 implies (#[trigger] stage_extenders(
        relations,
        source,
        s,
    )).len() > 0 by {
        lemma_stage_constrained(relations, source, s);
    }
}

/// A stage of a plan has an extender.
proof fn lemma_stage_constrained(relations: Seq<(usize, usize)>, source: int, s: int)
    requires
        relations.len() <= usize::MAX,
        0 <= source < relations.len(),
        plannable(relations, source),
        0 <= s < largest(relations) - 1,
    ensures
        stage_extenders(relations, source, s).len() > 0,
{
    let order = attribute_order(relations, source);
    let renamed = relabeled(relations, order);
    let x = s + 2;
    lemma_order_start(relations, source);
    let (i, q) = lemma_order_bound(relations, source, x);
    lemma_order_at(relations, source, x);
    lemma_order_at(relations, source, q);
    lemma_relabeled_at(relations, source, i);
    let c = if relations[i].0 == order[x] && relations[i].1 == order[q] {
        (q as usize, false, i < source)
    } else {
        (q as usize, true, i < source)
    };
    assert(constrains(renamed[i], i, x as usize, source as usize, c));
    lemma_constraints(renamed, x as usize, source as usize, relations.len() as int, c);
    let all = constraints_of(renamed, x as usize, source as usize, relations.len() as int);
    let at = choose|k: int| 0 <= k < all.len() && all[k] == c;
}

/// What the extender that a relation asks for admits: the edge of the
/// relation between the nodes at the places of its attributes.
proof fn lemma_relation_admitted(
    indices: Seq<Index>,
    relations: Seq<(usize, usize)>,
    source: int,
    nodes: Seq<Node>,
    time: u64,
    i: int,
    x: int,
    c: (usize, bool, bool),
)
    requires
        relations.len() <= usize::MAX,
        0 <= source < relations.len(),
        plannable(relations, source),
        indices.len() == 2,
        mirrors(indices),
        nodes.len() == largest(relations) + 1,
        0 <= i < relations.len(),
        2 <= x <= largest(relations),
        constrains(
            relabeled(relations, attribute_order(relations, source))[i],
            i,
            x as usize,
            source as usize,
            c,
        ),
    ensures
        admits(indices, extender_of(c), nodes.take(x), nodes[x], time) <==> present(
            indices,
            i < source,
            time,
            nodes[place(attribute_order(relations, source), relations[i].0)],
            nodes[place(attribute_order(relations, source), relations[i].1)],
        ),
{
    lemma_order_start(relations, source);
    lemma_relabeled_at(relations, source, i);
    assert(nodes.take(x)[c.0 as int] == nodes[c.0 as int]);
}

/// To follow the plan is to meet the relations: the extenders of the
/// stages admit the nodes of a binding exactly if the binding meets every
/// relation but the one at `source`.
pub proof fn lemma_plan_is_relations(
    indices: Seq<Index>,
    relations: Seq<(usize, usize)>,
    source: int,
    nodes: Seq<Node>,
    time: u64,
)
    requires
        relations.len() <= usize::MAX,
        0 <= source < relations.len(),
        plannable(relations, source),
        simple_from(relations, source),
        indices.len() == 2,
        mirrors(indices),
        nodes.len() == largest(relations) + 1,
    ensures
        follows_plan(indices, relations, source, nodes, time, largest(relations) - 1)
            <==> meets_relations(indices, relations, source, nodes, time),
{
    let order = attribute_order(relations, source);
    let renamed = relabeled(relations, order);
    if follows_plan(indices, relations, source, nodes, time, largest(relations) - 1) {
        assert forall|i: int| 0 <= i < relations.len() && i != source implies present(
            indices,
            i < source,
            time,
            nodes[place(order, (#[trigger] relations[i]).0)],
            nodes[place(order, relations[i].1)],
        ) by {
            lemma_plan_meets(indices, relations, source, nodes, time, i);
        }
    }
    if meets_relations(indices, relations, source, nodes, time) {
        assert forall|s: int, e: int|
            0 <= s < largest(relations) - 1 && 0 <= e < stage_extenders(
                relations,
                source,
                s,
            ).len() implies admits(
            indices,
            #[trigger] stage_extenders(relations, source, s)[e],
            nodes.take(s + 2),
            nodes[s + 2],
            time,
        ) by {
            let x = s + 2;
            let all = constraints_of(renamed, x as usize, source as usize, relations.len() as int);
            let c = all[e];
            assert(stage_extenders(relations, source, s)[e] == extender_of(c));
            assert(all.contains(c));
            lemma_constraints(renamed, x as usize, source as usize, relations.len() as int, c);
            let i = choose|i: int|
                0 <= i < relations.len() && constrains(
                    #[trigger] renamed[i],
                    i,
                    x as usize,
                    source as usize,
                    c,
                );
            lemma_order_start(relations, source);
            lemma_relabeled_at(relations, source, source);
            assert(i != source);
            lemma_relation_admitted(indices, relations, source, nodes, time, i, x, c);
            assert(present(
                indices,
                i < source,
                time,
                nodes[place(order, relations[i].0)],
                nodes[place(order, relations[i].1)],
            ));
        }
    }
}

/// A binding that follows the plan meets the relation at `i`.
proof fn lemma_plan_meets(
    indices: Seq<Index>,
    relations: Seq<(usize, usize)>,
    source: int,
    nodes: Seq<Node>,
    time: u64,
    i: int,
)
    requires
        relations.len() <= usize::MAX,
        0 <= source < relations.len(),
        plannable(relations, source),
        simple_from(relations, source),
        indices.len() == 2,
        mirrors(indices),
        nodes.len() == largest(relations) + 1,
        0 <= i < relations.len(),
        i != source,
        follows_plan(indices, relations, source, nodes, time, largest(relations) - 1),
    ensures
        present(
            indices,
            i < source,
            time,
            nodes[place(attribute_order(relations, source), relations[i].0)],
            nodes[place(attribute_order(relations, source), relations[i].1)],
        ),
{
    let order = attribute_order(relations, source);
    let renamed = relabeled(relations, order);
    lemma_order_start(relations, source);
    lemma_relabeled_at(relations, source, i);
    let pa = place(order, relations[i].0);
    let pb = place(order, relations[i].1);
    assert(pa != pb);
    let x = if pa < pb {
        pb
    } else {
        pa
    };
    assert(x >= 2) by {
        if x < 2 {
            assert(pa <= 1 && pb <= 1);
        }
    }
    let c = if pa < pb {
        (pa as usize, true, i < source)
    } else {
        (pb as usize, false, i < source)
    };
    assert(constrains(renamed[i], i, x as usize, source as usize, c));
    lemma_constraints(renamed, x as usize, source as usize, relations.len() as int, c);
    let all = constraints_of(renamed, x as usize, source as usize, relations.len() as int);
    let at = choose|k: int| 0 <= k < all.len() && all[k] == c;
    let extenders = stage_extenders(relations, source, x - 2);
    assert(extenders[at] == extender_of(c));
    assert(admits(indices, extenders[at], nodes.take(x - 2 + 2), nodes[x - 2 + 2], time));
    lemma_relation_admitted(indices, relations, source, nodes, time, i, x, c);
}

/// The binding, in the order of the attributes, is an instance of the
/// motif through the relation at `source`: it binds each attribute up to
/// the largest, and meets every relation but that at `source`, those before
/// it in the graph with the updates of `time`, those behind it in the graph
/// without them.
pub open spec fn instance_through(
    indices: Seq<Index>,
    relations: Seq<(usize, usize)>,
    source: int,
    binding: Seq<Node>,
    time: u64,
) -> bool {
    &&& binding.len() == largest(relations) + 1
    &&& forall|i: int|
        0 <= i < relations.len() && i != source ==> present(
            indices,
            i < source,
            time,
            binding[(#[trigger] relations[i]).0 as int],
            binding[relations[i].1 as int],
        )
}

/// Some update with this diff is to the edge that the binding has at the
/// relation at `source`.
pub open spec fn updated_at(
    relations: Seq<(usize, usize)>,
    source: int,
    updates: Seq<(Edge, i32)>,
    binding: Seq<Node>,
    diff: i32,
) -> bool {
    exists|u: int|
        0 <= u < updates.len() && #[trigger] updates[u] == (
            (binding[relations[source].0 as int], binding[relations[source].1 as int]),
            diff,
        )
}

/// The changes that are found through one relation of a motif.
///
/// The derivative for the relation at `source` holds a binding with a diff
/// exactly if some update with that diff is to the edge that the binding
/// has at the relation, and the binding meets all other relations: those
/// before `source` in the graph with the updates of `time`, those behind
/// it in the graph without them. So an instance that the updates of
/// `time` touch at several relations is met with the new graph before and
/// the old graph behind each of them.
///
/// This holds for a motif that can be planned from the relation and that
/// has no other relation between its two attributes and no self loop,
/// where the reverse index mirrors the forward index and both count their
/// values without wrapping.
pub proof fn lemma_derivative_holds(
    indices: Seq<Index>,
    relations: Seq<(usize, usize)>,
    source: int,
    updates: Seq<(Edge, i32)>,
    time: u64,
    binding: Seq<Node>,
    diff: i32,
)
    requires
        relations.len() <= usize::MAX,
        0 <= source < relations.len(),
        plannable(relations, source),
        simple_from(relations, source),
        both_count_values(indices),
        mirrors(indices),
    ensures
        derivative(indices, relations, source, updates, time).contains((binding, diff))
            <==> updated_at(relations, source, updates, binding, diff) && instance_through(
            indices,
            relations,
            source,
            binding,
            time,
        ),
{
    let order = attribute_order(relations, source);
    let n = largest(relations) + 1;
    let start = seq![relations[source].0, relations[source].1];
    let spots = places(relations, source);
    let arrange = arrange_by(spots);
    let rows = sources(updates);
    let count = stages(relations, source);
    let bound = staged(indices, relations, source, rows, time, count);
    let all = derivative(indices, relations, source, updates, time);
    lemma_order(relations, source);
    lemma_order_start(relations, source);
    lemma_stages(relations, source);
    lemma_stages_constrained(relations, source);
    lemma_largest(relations, source);
    assert(all == bound.map_values(arrange));
    if all.contains((binding, diff)) {
        let at = choose|k: int| 0 <= k < all.len() && all[k] == (binding, diff);
        let row = bound[at];
        assert(bound.contains(row));
        assert(arrange(row) == (binding, diff));
        lemma_staged_holds(indices, relations, source, rows, time, count, row);
        let nodes = row.0;
        lemma_plan_is_relations(indices, relations, source, nodes, time);
        let u = choose|u: int| 0 <= u < rows.len() && rows[u] == (nodes.take(2), row.1);
        assert(rows[u] == (seq![updates[u].0.0, updates[u].0.1], updates[u].1));
        assert(nodes.take(2)[0] == updates[u].0.0);
        assert(nodes.take(2)[1] == updates[u].0.1);
        assert(binding == arranged(spots, nodes));
        assert forall|a: usize| a <= largest(relations) implies binding[a as int]
            == nodes[place(order, a)] by {
            assert(spots[a as int] == place(order, a) as usize);
        }
        assert(updates[u] == (
            (binding[relations[source].0 as int], binding[relations[source].1 as int]),
            diff,
        ));
        assert forall|i: int| 0 <= i < relations.len() && i != source implies present(
            indices,
            i < source,
            time,
            binding[(#[trigger] relations[i]).0 as int],
            binding[relations[i].1 as int],
        ) by {
            lemma_largest(relations, i);
        }
    }
    if updated_at(relations, source, updates, binding, diff) && instance_through(
        indices,
        relations,
        source,
        binding,
        time,
    ) {
        let u = choose|u: int|
            0 <= u < updates.len() && #[trigger] updates[u] == (
                (binding[relations[source].0 as int], binding[relations[source].1 as int]),
                diff,
            );
        let nodes = Seq::new(n as nat, |p: int| binding[order[p] as int]);
        let row = (nodes, diff);
        assert forall|a: usize| a <= largest(relations) implies binding[a as int]
            == nodes[place(order, a)] by {}
        assert(arranged(spots, nodes) =~= binding) by {
            assert forall|a: int| 0 <= a < n implies arranged(spots, nodes)[a] == binding[a] by {
                let attribute = a as usize;
                assert(spots[a] == place(order, attribute) as usize);
                assert(binding[attribute as int] == nodes[place(order, attribute)]);
            }
        }
        assert(nodes.take(2) =~= seq![updates[u].0.0, updates[u].0.1]);
        assert(rows[u] == (nodes.take(2), diff));
        assert(rows.contains((nodes.take(2), diff)));
        assert(meets_relations(indices, relations, source, nodes, time)) by {
            assert forall|i: int| 0 <= i < relations.len() && i != source implies present(
                indices,
                i < source,
                time,
                nodes[place(order, (#[trigger] relations[i]).0)],
                nodes[place(order, relations[i].1)],
            ) by {
                lemma_largest(relations, i);
            }
        }
        lemma_plan_is_relations(indices, relations, source, nodes, time);
        lemma_staged_holds(indices, relations, source, rows, time, count, row);
        let at = choose|k: int| 0 <= k < bound.len() && bound[k] == row;
        assert(all[at] == arrange(row));
    }
}

/// The binding is an instance of the motif in the graph that a query at
/// `time` sees, with the updates of `time` if `fresh`, without them if not:
/// it binds each attribute up to the largest and has the edge of every
/// relation.
pub open spec fn is_instance(
    indices: Seq<Index>,
    relations: Seq<(usize, usize)>,
    fresh: bool,
    time: u64,
    binding: Seq<Node>,
) -> bool {
    &&& binding.len() == largest(relations) + 1
    &&& forall|i: int|
        0 <= i < relations.len() ==> present(
            indices,
            fresh,
            time,
            binding[(#[trigger] relations[i]).0 as int],
            binding[relations[i].1 as int],
        )
}

/// The binding has the edges of the relations before `upto` in the graph
/// with the updates of `time`, and those of the relations from `upto` on
/// in the graph without them.
pub open spec fn is_between(
    indices: Seq<Index>,
    relations: Seq<(usize, usize)>,
    upto: int,
    time: u64,
    binding: Seq<Node>,
) -> bool {
    &&& binding.len() == largest(relations) + 1
    &&& forall|i: int|
        0 <= i < relations.len() ==> present(
            indices,
            i < upto,
            time,
            binding[(#[trigger] relations[i]).0 as int],
            binding[relations[i].1 as int],
        )
}

/// One if the condition holds, zero if not.
pub open spec fn one_if(condition: bool) -> int {
    if condition {
        1
    } else {
        0
    }
}

/// How often the binding is found as gained, less how often it is found as
/// lost, through the first `upto` relations of the motif: once for each
/// relation whose derivative holds it with diff one, less once for each
/// whose derivative holds it with diff minus one.
pub open spec fn found(
    indices: Seq<Index>,
    relations: Seq<(usize, usize)>,
    updates: Seq<(Edge, i32)>,
    time: u64,
    binding: Seq<Node>,
    upto: int,
) -> int
    decreases upto,
{
    if upto <= 0 {
        0
    } else {
        found(indices, relations, updates, time, binding, upto - 1) + one_if(
            derivative(indices, relations, upto - 1, updates, time).contains((binding, 1i32)),
        ) - one_if(
            derivative(indices, relations, upto - 1, updates, time).contains((binding, -1i32)),
        )
    }
}

/// The updates are the changes of the graph at `time`: an edge has an
/// update with diff one exactly if it is in the graph with the updates of
/// `time` and not in the graph without them, and an update with diff minus
/// one exactly if it is the other way round.
pub open spec fn changes(indices: Seq<Index>, updates: Seq<(Edge, i32)>, time: u64) -> bool {
    forall|src: Node, dst: Node|
        (#[trigger] updates.contains(((src, dst), 1i32)) <==> present(
            indices,
            true,
            time,
            src,
            dst,
        ) && !present(indices, false, time, src, dst)) && (updates.contains(((src, dst), -1i32))
            <==> present(indices, false, time, src, dst) && !present(
            indices,
            true,
            time,
            src,
            dst,
        ))
}

/// The motif can be planned from each of its relations, has no two
/// relations between the same two attributes, and no self loop.
pub open spec fn simple(relations: Seq<(usize, usize)>) -> bool {
    forall|r: int|
        0 <= r < relations.len() ==> #[trigger] plannable(relations, r) && simple_from(relations, r)
}

/// What is found through one relation moves the binding from the graph
/// that is new before the relation to the graph that is new up to it.
proof fn lemma_found_step(
    indices: Seq<Index>,
    relations: Seq<(usize, usize)>,
    updates: Seq<(Edge, i32)>,
    time: u64,
    binding: Seq<Node>,
    r: int,
)
    requires
        relations.len() <= usize::MAX,
        0 <= r < relations.len(),
        simple(relations),
        both_count_values(indices),
        mirrors(indices),
        changes(indices, updates, time),
        binding.len() == largest(relations) + 1,
    ensures
        one_if(derivative(indices, relations, r, updates, time).contains((binding, 1i32)))
            - one_if(derivative(indices, relations, r, updates, time).contains((binding, -1i32)))
            == one_if(is_between(indices, relations, r + 1, time, binding)) - one_if(
            is_between(indices, relations, r, time, binding),
        ),
{
    assert(plannable(relations, r) && simple_from(relations, r));
    lemma_derivative_holds(indices, relations, r, updates, time, binding, 1i32);
    lemma_derivative_holds(indices, relations, r, updates, time, binding, -1i32);
    let src = binding[relations[r].0 as int];
    let dst = binding[relations[r].1 as int];
    let newer = present(indices, true, time, src, dst);
    let older = present(indices, false, time, src, dst);
    let rest = instance_through(indices, relations, r, binding, time);
    assert(updated_at(relations, r, updates, binding, 1i32) == updates.contains(((src, dst), 1i32)))
        by {
        if updates.contains(((src, dst), 1i32)) {
            let u = choose|u: int| 0 <= u < updates.len() && updates[u] == ((src, dst), 1i32);
            assert(updates[u] == ((src, dst), 1i32));
        }
    }
    assert(updated_at(relations, r, updates, binding, -1i32) == updates.contains(
        ((src, dst), -1i32),
    )) by {
        if updates.contains(((src, dst), -1i32)) {
            let u = choose|u: int| 0 <= u < updates.len() && updates[u] == ((src, dst), -1i32);
            assert(updates[u] == ((src, dst), -1i32));
        }
    }
    assert(updates.contains(((src, dst), 1i32)) == (newer && !older));
    assert(updates.contains(((src, dst), -1i32)) == (older && !newer));
    assert(is_between(indices, relations, r + 1, time, binding) == (rest && newer)) by {
        if rest && newer {
            assert forall|i: int| 0 <= i < relations.len() implies present(
                indices,
                i < r + 1,
                time,
                binding[(#[trigger] relations[i]).0 as int],
                binding[relations[i].1 as int],
            ) by {
                if i != r {
                    assert((i < r + 1) == (i < r));
                }
            }
        }
        if is_between(indices, relations, r + 1, time, binding) {
            assert forall|i: int| 0 <= i < relations.len() && i != r implies present(
                indices,
                i < r,
                time,
                binding[(#[trigger] relations[i]).0 as int],
                binding[relations[i].1 as int],
            ) by {
                assert((i < r + 1) == (i < r));
            }
            assert(present(
                indices,
                r < r + 1,
                time,
                binding[relations[r].0 as int],
                binding[relations[r].1 as int],
            ));
        }
    }
    assert(is_between(indices, relations, r, time, binding) == (rest && older)) by {
        if is_between(indices, relations, r, time, binding) {
            assert(present(
                indices,
                r < r,
                time,
                binding[relations[r].0 as int],
                binding[relations[r].1 as int],
            ));
        }
    }
}

/// What is found through the first relations moves the binding from the
/// graph without the updates to the graph that is new before `upto`.
proof fn lemma_found_upto(
    indices: Seq<Index>,
    relations: Seq<(usize, usize)>,
    updates: Seq<(Edge, i32)>,
    time: u64,
    binding: Seq<Node>,
    upto: int,
)
    requires
        relations.len() <= usize::MAX,
        0 <= upto <= relations.len(),
        simple(relations),
        both_count_values(indices),
        mirrors(indices),
        changes(indices, updates, time),
        binding.len() == largest(relations) + 1,
    ensures
        found(indices, relations, updates, time, binding, upto) == one_if(
            is_between(indices, relations, upto, time, binding),
        ) - one_if(is_between(indices, relations, 0, time, binding)),
    decreases upto,
{
    if upto > 0 {
        lemma_found_upto(indices, relations, updates, time, binding, upto - 1);
        lemma_found_step(indices, relations, updates, time, binding, upto - 1);
    }
}

/// The derivatives of a motif find the change of its instances.
///
/// A binding of all attributes is found, through all relations of the
/// motif together, once more as gained than as lost if it is an instance
/// in the graph with the updates of `time` and none in the graph without
/// them; once more as lost than as gained if it is the other way round;
/// and as often as gained as lost if the updates leave it what it was, an
/// instance or none. So each instance that the updates make or break is
/// counted once, whatever the number of its edges that they touch.
///
/// This holds for a motif that can be planned from each relation, without
/// self loops and without two relations between the same two attributes,
/// where the updates are the changes of the graph at `time`, the reverse
/// index mirrors the forward index, and both count their values without
/// wrapping.
pub proof fn lemma_motif_change(
    indices: Seq<Index>,
    relations: Seq<(usize, usize)>,
    updates: Seq<(Edge, i32)>,
    time: u64,
    binding: Seq<Node>,
)
    requires
        relations.len() <= usize::MAX,
        simple(relations),
        both_count_values(indices),
        mirrors(indices),
        changes(indices, updates, time),
        binding.len() == largest(relations) + 1,
    ensures
        found(indices, relations, updates, time, binding, relations.len() as int) == one_if(
            is_instance(indices, relations, true, time, binding),
        ) - one_if(is_instance(indices, relations, false, time, binding)),
{
    lemma_found_upto(indices, relations, updates, time, binding, relations.len() as int);
    assert(is_between(indices, relations, relations.len() as int, time, binding) == is_instance(
        indices,
        relations,
        true,
        time,
        binding,
    ));
    assert(is_between(indices, relations, 0, time, binding) == is_instance(
        indices,
        relations,
        false,
        time,
        binding,
    ));
}

} // verus!
