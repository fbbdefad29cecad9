//! Planning the extension stages of a graph motif.
//!
//! A graph motif is a small graph on nodes which each correspond to an
//! attribute. An instance of a motif in a larger graph is a binding of graph
//! nodes to these attributes, so that for each edge of the motif the edge
//! between the bound nodes exists in the graph. The triangle is the motif on
//! attributes `0`, `1`, `2` with the edges `(0, 1)`, `(0, 2)`, `(1, 2)`.
//!
//! To follow the changes of one relation of the motif, its two attributes
//! are bound first; the planner orders the others so that each is bound
//! through a relation to one before it, and lists for each the relations
//! that constrain it.

use vstd::multiset::Multiset;
use vstd::prelude::*;
use crate::extender::merge_sorter::{Chunk, MergeSorter};
use crate::index::compact::values_for;
use crate::index::unsorted::stamped;
use crate::index::{joined as joined_pairs, seen_diff, Index, Visible};
use crate::mirror::{
    lemma_twins_agree, lemma_twins_empty, lemma_twins_loaded, lemma_twins_merged,
    lemma_twins_updated, turned, turned_pairs, twins,
};
use crate::weights::sum_by;
use crate::flatten::{
    flat_map, lemma_flat_map_agree, lemma_flat_map_alike, lemma_flat_map_nothing,
    lemma_flat_map_picked, lemma_flat_map_push, lemma_flat_map_rearranged, picked,
};
use crate::join::{
    all_agree, all_wf, extend, extends, joined, joins, lemma_agree_joined, lemma_agree_trans,
    Extender, IndexNode,
};
use crate::order::lemma_map_rearranged;

verus! {

/// A node of the graph.
pub type Node = u32;

/// An edge of the graph: source and destination.
pub type Edge = (Node, Node);

/// Why a motif cannot be planned from a relation.
#[derive(Clone, Copy, Debug, PartialEq, Eq)]
pub enum MotifError {
    /// Some attribute is not reached from the source relation through the
    /// relations of the motif.
    Disconnected,
    /// The source relation relates an attribute to itself.
    SelfLoop,
}

/// The largest attribute that the relations name; zero if there are none.
pub open spec fn largest(relations: Seq<(usize, usize)>) -> int
    decreases relations.len(),
{
    if relations.len() == 0 {
        0
    } else {
        let rest = largest(relations.drop_last());
        let (src, dst) = relations.last();
        if rest >= src && rest >= dst {
            rest
        } else if src >= dst {
            src as int
        } else {
            dst as int
        }
    }
}

/// The relation relates `x` to an attribute in `active`.
pub open spec fn relates(relation: (usize, usize), active: Seq<usize>, x: usize) -> bool {
    (relation.0 == x && active.contains(relation.1)) || (relation.1 == x && active.contains(
        relation.0,
    ))
}

/// `x` can be bound next: it is not in `active`, and some relation relates
/// it to an attribute in `active`.
pub open spec fn adjacent(relations: Seq<(usize, usize)>, active: Seq<usize>, x: usize) -> bool {
    &&& !active.contains(x)
    &&& exists|i: int| 0 <= i < relations.len() && #[trigger] relates(relations[i], active, x)
}

/// `x` is the smallest attribute that can be bound next.
pub open spec fn least_adjacent(
    relations: Seq<(usize, usize)>,
    active: Seq<usize>,
    x: usize,
) -> bool {
    &&& adjacent(relations, active, x)
    &&& forall|y: usize| adjacent(relations, active, y) ==> x <= y
}

/// The attribute to bind next: the smallest of those that a relation
/// relates to a bound one, if there is any.
pub open spec fn next_attribute(relations: Seq<(usize, usize)>, active: Seq<usize>) -> Option<
    usize,
> {
    if exists|x: usize| least_adjacent(relations, active, x) {
        Some(choose|x: usize| least_adjacent(relations, active, x))
    } else {
        None
    }
}

/// `active` after up to `steps` more attributes have been bound.
pub open spec fn grown(relations: Seq<(usize, usize)>, active: Seq<usize>, steps: nat) -> Seq<
    usize,
>
    decreases steps,
{
    if steps == 0 {
        active
    } else {
        match next_attribute(relations, active) {
            Some(x) => grown(relations, active.push(x), (steps - 1) as nat),
            None => active,
        }
    }
}

/// The order in which the attributes are bound when the relation at
/// `source` changes: its two attributes first, then, one at a time, the
/// smallest attribute that a relation relates to one already bound.
#[verifier::opaque]
pub open spec fn attribute_order(relations: Seq<(usize, usize)>, source: int) -> Seq<usize> {
    grown(relations, seq![relations[source].0, relations[source].1], relations.len())
}

/// Tests whether `active` holds `x`.
fn bound(active: &Vec<usize>, x: usize) -> (found: bool)
    ensures
        found == active@.contains(x),
{
    let mut i: usize = 0;
    while i < active.len()
        invariant
            i <= active.len(),
            forall|j: int| 0 <= j < i ==> active[j] != x,
        decreases active.len() - i,
    {
        if active[i] == x {
            return true;
        }
        i += 1;
    }
    false
}

/// The position of `x` in `active`.
fn position(active: &Vec<usize>, x: usize) -> (at: usize)
    requires
        active@.contains(x),
    ensures
        at < active.len(),
        at == place(active@, x),
{
    let mut i: usize = 0;
    while i < active.len()
        invariant
            i <= active.len(),
            active@.contains(x),
            forall|j: int| 0 <= j < i ==> active[j] != x,
        decreases active.len() - i,
    {
        if active[i] == x {
            proof {
                lemma_place(active@, x, i as int);
            }
            return i;
        }
        i += 1;
    }
    proof {
        let j = choose|j: int| 0 <= j < active@.len() && active@[j] == x;
        assert(active[j] != x);
    }
    0
}

/// The first position of `x` in `order`.
#[verifier::opaque]
pub open spec fn place(order: Seq<usize>, x: usize) -> int {
    choose|at: int|
        0 <= at < order.len() && order[at] == x && forall|j: int| 0 <= j < at ==> order[j] != x
}

/// An attribute that occurs has a first position.
pub proof fn lemma_first(order: Seq<usize>, x: usize, at: int)
    requires
        0 <= at < order.len(),
        order[at] == x,
    ensures
        0 <= place(order, x) <= at,
        order[place(order, x)] == x,
        forall|j: int| 0 <= j < place(order, x) ==> order[j] != x,
    decreases at,
{
    reveal(place);
    if exists|j: int| 0 <= j < at && order[j] == x {
        let j = choose|j: int| 0 <= j < at && order[j] == x;
        lemma_first(order, x, j);
    } else {
        lemma_place(order, x, at);
    }
}

/// The first position of an attribute is one position only.
pub proof fn lemma_place(order: Seq<usize>, x: usize, at: int)
    requires
        0 <= at < order.len(),
        order[at] == x,
        forall|j: int| 0 <= j < at ==> order[j] != x,
    ensures
        place(order, x) == at,
{
    reveal(place);
    let chosen = place(order, x);
    if chosen < at {
        assert(order[chosen] != x);
    } else if at < chosen {
        assert(order[at] != x);
    }
}

/// The smallest attribute that a relation relates to a bound one.
fn smallest_adjacent(relations: &[(usize, usize)], active: &Vec<usize>) -> (next: Option<usize>)
    ensures
        next == next_attribute(relations@, active@),
{
    let mut best: Option<usize> = None;
    let mut i: usize = 0;
    while i < relations.len()
        invariant
            i <= relations.len(),
            match best {
                Some(x) => adjacent(relations@, active@, x),
                None => true,
            },
            forall|j: int, y: usize|
                0 <= j < i && !active@.contains(y) && #[trigger] relates(
                    relations@[j],
                    active@,
                    y,
                ) ==> best.is_some() && best.unwrap() <= y,
        decreases relations.len() - i,
    {
        let (src, dst) = relations[i];
        let has_src = bound(active, src);
        let has_dst = bound(active, dst);
        let ghost before = best;
        proof {
            assert(relations@[i as int] == (src, dst));
        }
        if has_src && !has_dst {
            let better = match best {
                Some(x) => dst < x,
                None => true,
            };
            if better {
                best = Some(dst);
            }
        }
        if has_dst && !has_src {
            let better = match best {
                Some(x) => src < x,
                None => true,
            };
            if better {
                best = Some(src);
            }
        }
        proof {
            if has_src && !has_dst {
                assert(relates(relations@[i as int], active@, dst));
            }
            if has_dst && !has_src {
                assert(relates(relations@[i as int], active@, src));
            }
            assert forall|j: int, y: usize|
                0 <= j < i + 1 && !active@.contains(y) && #[trigger] relates(
                    relations@[j],
                    active@,
                    y,
                ) implies best.is_some() && best.unwrap() <= y by {
                if j < i {
                    assert(before.is_some() && before.unwrap() <= y);
                }
            }
        }
        i += 1;
    }
    proof {
        match best {
            Some(x) => {
                assert forall|y: usize| adjacent(relations@, active@, y) implies x <= y by {
                    let j = choose|j: int|
                        0 <= j < relations@.len() && #[trigger] relates(
                            relations@[j],
                            active@,
                            y,
                        );
                    assert(relates(relations@[j], active@, y));
                }
                assert(least_adjacent(relations@, active@, x));
                let chosen = choose|z: usize| least_adjacent(relations@, active@, z);
                assert(chosen <= x && x <= chosen);
            },
            None => {
                assert forall|y: usize| !least_adjacent(relations@, active@, y) by {
                    if adjacent(relations@, active@, y) {
                        let j = choose|j: int|
                            0 <= j < relations@.len() && #[trigger] relates(
                                relations@[j],
                                active@,
                                y,
                            );
                        assert(relates(relations@[j], active@, y));
                    }
                }
            },
        }
    }
    best
}

/// The largest attribute that the relations name.
fn largest_attribute(relations: &[(usize, usize)]) -> (most: usize)
    ensures
        most == largest(relations@),
        forall|i: int| 0 <= i < relations.len() ==> relations[i].0 <= most && relations[i].1 <= most,
        most == 0 || exists|i: int|
            0 <= i < relations.len() && ((#[trigger] relations[i]).0 == most || relations[i].1
                == most),
{
    let mut most: usize = 0;
    let mut i: usize = 0;
    proof {
        assert(relations@.take(0) =~= Seq::empty());
    }
    while i < relations.len()
        invariant
            i <= relations.len(),
            most == largest(relations@.take(i as int)),
            forall|j: int| 0 <= j < i ==> relations[j].0 <= most && relations[j].1 <= most,
            most == 0 || exists|j: int|
                0 <= j < i && ((#[trigger] relations[j]).0 == most || relations[j].1 == most),
        decreases relations.len() - i,
    {
        let (src, dst) = relations[i];
        proof {
            assert(relations@.take(i + 1).drop_last() =~= relations@.take(i as int));
            assert(relations@.take(i + 1).last() == relations[i as int]);
        }
        if most < src {
            most = src;
        }
        if most < dst {
            most = dst;
        }
        proof {
            if most == src || most == dst {
                assert(relations[i as int].0 == most || relations[i as int].1 == most);
            }
        }
        i += 1;
    }
    proof {
        assert(relations@.take(relations.len() as int) =~= relations@);
    }
    most
}

/// Orders the attributes of a motif for the changes of one relation.
///
/// The two attributes of the relation at `relation_index` come first. Then,
/// one at a time, comes the smallest attribute that a relation relates to
/// one already in the order. The motif is rejected as disconnected if this
/// leaves out an attribute between zero and the largest one named, and as a
/// self loop if the relation relates an attribute to itself.
///
/// Returns the order, the position of each attribute in it, and the
/// relations with each attribute replaced by its position.
pub fn order_attributes(relation_index: usize, relations: &[(usize, usize)]) -> (result: Result<
    (Vec<usize>, Vec<usize>, Vec<(usize, usize)>),
    MotifError,
>)
    requires
        relation_index < relations.len(),
        forall|i: int| 0 <= i < relations.len() ==> relations[i].0 < usize::MAX && relations[i].1
            < usize::MAX,
    ensures
        match result {
            Ok((active, relabel, relabeled)) => {
                &&& relations[relation_index as int].0 != relations[relation_index as int].1
                &&& active@ == attribute_order(relations@, relation_index as int)
                &&& relabel@.len() == largest(relations@) + 1
                &&& forall|a: int|
                    0 <= a < relabel@.len() ==> (#[trigger] relabel[a]) < active@.len()
                        && active[relabel[a] as int] == a && relabel[a] == place(
                        active@,
                        a as usize,
                    )
                &&& relabeled@.len() == relations.len()
                &&& forall|i: int|
                    0 <= i < relations.len() ==> #[trigger] relabeled[i] == (
                        relabel[relations[i].0 as int],
                        relabel[relations[i].1 as int],
                    )
            },
            Err(MotifError::SelfLoop) => relations[relation_index as int].0
                == relations[relation_index as int].1,
            Err(MotifError::Disconnected) => {
                &&& relations[relation_index as int].0 != relations[relation_index as int].1
                &&& exists|a: usize|
                    a <= largest(relations@) && !attribute_order(
                        relations@,
                        relation_index as int,
                    ).contains(a)
            },
        },
{
    // 1. Determine an order on the attributes.
    //    The order may not introduce an attribute until it is constrained by at least one
    //    relation to an existing attribute.
    let (first, second) = relations[relation_index];
    if first == second {
        return Err(MotifError::SelfLoop);
    }
    let mut active: Vec<usize> = Vec::new();
    active.push(first);
    active.push(second);
    proof {
        reveal(attribute_order);
        assert(active@ =~= seq![first, second]);
    }
    let limit = relations.len();
    let mut steps: usize = 0;
    let mut done = false;
    while !done && steps < limit
        invariant
            limit == relations.len(),
            steps <= limit,
            grown(relations@, active@, (limit - steps) as nat) == attribute_order(
                relations@,
                relation_index as int,
            ),
            done ==> grown(relations@, active@, (limit - steps) as nat) == active@,
        decreases limit - steps + if done { 0int } else { 1 },
    {
        match smallest_adjacent(relations, &active) {
            Some(x) => {
                active.push(x);
                steps += 1;
            },
            None => {
                done = true;
            },
        }
    }
    let most = largest_attribute(relations);
    proof {
        if most != 0 {
            let i = choose|i: int|
                0 <= i < relations.len() && ((#[trigger] relations[i]).0 == most || relations[i].1
                    == most);
            assert(relations[i].0 < usize::MAX && relations[i].1 < usize::MAX);
        }
        assert(active@ == attribute_order(relations@, relation_index as int));
    }
    let count = most + 1;

    // 2. Re-map each of the relations to treat attributes in order.
    let mut relabel: Vec<usize> = Vec::new();
    let mut attribute: usize = 0;
    while attribute < count
        invariant
            count == most + 1,
            most == largest(relations@),
            relation_index < relations.len(),
            relations[relation_index as int].0 != relations[relation_index as int].1,
            active@ == attribute_order(relations@, relation_index as int),
            attribute <= count,
            relabel@.len() == attribute,
            forall|a: int|
                0 <= a < attribute ==> (#[trigger] relabel[a]) < active@.len()
                    && active[relabel[a] as int] == a && relabel[a] == place(active@, a as usize),
        decreases count - attribute,
    {
        if !bound(&active, attribute) {
            return Err(MotifError::Disconnected);
        }
        let at = position(&active, attribute);
        proof {
            let chosen = place(active@, attribute);
            assert(exists|j: int| 0 <= j < active@.len() && active@[j] == attribute);
            let j = choose|j: int| 0 <= j < active@.len() && active@[j] == attribute;
            lemma_first(active@, attribute, j);
        }
        relabel.push(at);
        attribute += 1;
    }
    let mut relabeled: Vec<(usize, usize)> = Vec::new();
    let mut i: usize = 0;
    while i < relations.len()
        invariant
            i <= relations.len(),
            relabel@.len() == most + 1,
            forall|j: int|
                0 <= j < relations.len() ==> relations[j].0 <= most && relations[j].1 <= most,
            relabeled@.len() == i,
            forall|j: int|
                0 <= j < i ==> #[trigger] relabeled[j] == (
                    relabel[relations[j].0 as int],
                    relabel[relations[j].1 as int],
                ),
        decreases relations.len() - i,
    {
        let (src, dst) = relations[i];
        relabeled.push((relabel[src], relabel[dst]));
        i += 1;
    }

    // 3. Return the attribute order, the relabeling, and the relabeled relations
    Ok((active, relabel, relabeled))
}

/// The constraints that the first `upto` relations put on `attribute`: one
/// for each relation that relates it to an attribute bound before it.
pub open spec fn constraints_of(
    relations: Seq<(usize, usize)>,
    attribute: usize,
    source_index: usize,
    upto: int,
) -> Seq<(usize, bool, bool)>
    decreases upto,
{
    if upto <= 0 {
        Seq::empty()
    } else {
        let rest = constraints_of(relations, attribute, source_index, upto - 1);
        let (src, dst) = relations[upto - 1];
        let prior = upto - 1 < source_index;
        let reverse = if src == attribute && dst < attribute {
            rest.push((dst, false, prior))
        } else {
            rest
        };
        if dst == attribute && src < attribute {
            reverse.push((src, true, prior))
        } else {
            reverse
        }
    }
}

/// Determines constraints on each of a sequence of attributes.
///
/// Given relations on attributes, presumed to be introduced in increasing
/// order, this identifies for each attribute but the first two the
/// constraints on it, in the order of the relations, as triples of
///    1. a prior attribute,
///    2. which index is required (forward: true, reverse: false), and
///    3. whether the relation comes before `source_index`.
/// The forward index is required where the prior attribute is the first of
/// its relation.
pub fn plan_query(relations: &[(usize, usize)], source_index: usize) -> (plan: Vec<
    Vec<(usize, bool, bool)>,
>)
    requires
        forall|i: int| 0 <= i < relations.len() ==> relations[i].0 < usize::MAX && relations[i].1
            < usize::MAX,
    ensures
        largest(relations@) >= 2 ==> plan@.len() == largest(relations@) - 1,
        largest(relations@) < 2 ==> plan@.len() == 0,
        forall|a: int|
            0 <= a < plan@.len() ==> (#[trigger] plan[a])@ == constraints_of(
                relations@,
                (a + 2) as usize,
                source_index,
                relations.len() as int,
            ),
{
    let most = largest_attribute(relations);
    proof {
        if most != 0 {
            let i = choose|i: int|
                0 <= i < relations.len() && ((#[trigger] relations[i]).0 == most || relations[i].1
                    == most);
            assert(relations[i].0 < usize::MAX && relations[i].1 < usize::MAX);
        }
    }
    let attributes = most + 1;

    // for each attribute, determine relations constraining that attribute.
    let mut plan: Vec<Vec<(usize, bool, bool)>> = Vec::new();
    let mut attribute: usize = 2;
    while attribute < attributes
        invariant
            attributes == largest(relations@) + 1,
            2 <= attribute,
            attribute <= attributes || attribute == 2,
            plan@.len() == attribute - 2,
            forall|a: int|
                0 <= a < plan@.len() ==> (#[trigger] plan[a])@ == constraints_of(
                    relations@,
                    (a + 2) as usize,
                    source_index,
                    relations.len() as int,
                ),
        decreases attributes - attribute,
    {
        let mut constraints: Vec<(usize, bool, bool)> = Vec::new();
        let mut index: usize = 0;
        while index < relations.len()
            invariant
                index <= relations.len(),
                constraints@ == constraints_of(
                    relations@,
                    attribute,
                    source_index,
                    index as int,
                ),
            decreases relations.len() - index,
        {
            let (src, dst) = relations[index];
            // if src is our attribute and dst is already bound ...
            if src == attribute && dst < attribute {
                constraints.push((dst, false, index < source_index));
            }
            // if dst is our attribute and src is already bound ...
            if dst == attribute && src < attribute {
                constraints.push((src, true, index < source_index));
            }
            index += 1;
        }
        plan.push(constraints);
        attribute += 1;
    }
    plan
}

/// Every constraint on an attribute names an attribute before it.
pub proof fn lemma_constraints_before(
    relations: Seq<(usize, usize)>,
    attribute: usize,
    source_index: usize,
    upto: int,
)
    requires
        upto <= relations.len(),
    ensures
        forall|i: int|
            0 <= i < constraints_of(relations, attribute, source_index, upto).len() ==> (
            #[trigger] constraints_of(relations, attribute, source_index, upto)[i]).0 < attribute,
    decreases upto,
{
    if upto > 0 {
        lemma_constraints_before(relations, attribute, source_index, upto - 1);
        let all = constraints_of(relations, attribute, source_index, upto);
        let rest = constraints_of(relations, attribute, source_index, upto - 1);
        let (src, dst) = relations[upto - 1];
        let prior = upto - 1 < source_index;
        let reverse = if src == attribute && dst < attribute {
            rest.push((dst, false, prior))
        } else {
            rest
        };
        assert forall|i: int| 0 <= i < all.len() implies (#[trigger] all[i]).0 < attribute by {
            if i < rest.len() {
                assert(all[i] == rest[i]);
            } else if i < reverse.len() {
                assert(all[i] == reverse[i]);
            }
        }
    }
}

/// The relation at `source` can be planned: it relates two attributes, and
/// the order from it reaches every attribute up to the largest.
pub open spec fn plannable(relations: Seq<(usize, usize)>, source: int) -> bool {
    &&& relations[source].0 != relations[source].1
    &&& forall|a: usize|
        a <= largest(relations) ==> attribute_order(relations, source).contains(a)
}

/// The extender that a constraint `(attribute, is_forward, is_prior)` asks
/// for: the forward index is the first, the reverse index the second, and a
/// prior relation sees the updates of the time of the query.
pub open spec fn extender_of(constraint: (usize, bool, bool)) -> Extender {
    Extender {
        source: if constraint.1 {
            0
        } else {
            1
        },
        attribute: constraint.0,
        inclusive: constraint.2,
    }
}

/// A binding of nodes to the first attributes of a motif, with a diff.
pub type Binding = (Seq<Node>, i32);

/// The rows as bindings.
pub open spec fn bindings(rows: Seq<(Vec<Node>, i32)>) -> Seq<Binding> {
    rows.map_values(|row: (Vec<Node>, i32)| (row.0@, row.1))
}

/// Each row binds `width` nodes.
pub open spec fn all_wide(rows: Seq<(Vec<Node>, i32)>, width: int) -> bool {
    forall|i: int| 0 <= i < rows.len() ==> (#[trigger] rows[i]).0@.len() == width
}

/// The extenders that the constraints on an attribute ask for.
pub open spec fn extenders_of(plan: Seq<(usize, bool, bool)>) -> Seq<Extender> {
    plan.map_values(|constraint: (usize, bool, bool)| extender_of(constraint))
}

/// The binding with each node of `list` behind it.
pub open spec fn spread(nodes: Seq<Node>, list: Seq<u32>, diff: i32) -> Seq<Binding> {
    Seq::new(list.len(), |k: int| (nodes.push(list[k]), diff))
}

/// A row with its extensions as bindings: the prefix with each extension
/// behind it.
pub open spec fn spread_row() -> spec_fn((Vec<Node>, Vec<u32>, i32)) -> Seq<Binding> {
    |row: (Vec<Node>, Vec<u32>, i32)| spread(row.0@, row.1@, row.2)
}

/// What one stage makes of a binding: the binding with each of its
/// extensions behind it, and nothing if it is not extended.
pub open spec fn stage_one(indices: Seq<Index>, extenders: Seq<Extender>, time: u64) -> spec_fn(
    Binding,
) -> Seq<Binding> {
    |row: Binding|
        if extenders.len() > 0 && extends(indices, extenders, row.0, time) {
            spread(row.0, joined(indices, extenders, row.0, time), row.1)
        } else {
            Seq::empty()
        }
}

/// What one stage makes of a batch of bindings.
pub open spec fn stage_all(
    indices: Seq<Index>,
    extenders: Seq<Extender>,
    rows: Seq<Binding>,
    time: u64,
) -> Seq<Binding> {
    flat_map(rows, stage_one(indices, extenders, time))
}

/// The relations with each attribute replaced by its place in `order`.
pub open spec fn relabeled(relations: Seq<(usize, usize)>, order: Seq<usize>) -> Seq<
    (usize, usize),
> {
    relations.map_values(
        |r: (usize, usize)| (place(order, r.0) as usize, place(order, r.1) as usize),
    )
}

/// The extenders of the stage that binds the attribute at place
/// `stage + 2` of the order from the relation at `source`.
pub open spec fn stage_extenders(relations: Seq<(usize, usize)>, source: int, stage: int) -> Seq<
    Extender,
> {
    extenders_of(
        constraints_of(
            relabeled(relations, attribute_order(relations, source)),
            (stage + 2) as usize,
            source as usize,
            relations.len() as int,
        ),
    )
}

/// The bindings after the first `stages` stages.
pub open spec fn staged(
    indices: Seq<Index>,
    relations: Seq<(usize, usize)>,
    source: int,
    rows: Seq<Binding>,
    time: u64,
    stages: int,
) -> Seq<Binding>
    decreases stages,
{
    if stages <= 0 {
        rows
    } else {
        stage_all(
            indices,
            stage_extenders(relations, source, stages - 1),
            staged(indices, relations, source, rows, time, stages - 1),
            time,
        )
    }
}

/// The updates of the source relation as bindings of its two attributes.
pub open spec fn sources(updates: Seq<(Edge, i32)>) -> Seq<Binding> {
    updates.map_values(|u: (Edge, i32)| (seq![u.0.0, u.0.1], u.1))
}

/// The nodes in the order of the attributes: at each attribute the node
/// that stands at the place of the attribute, or zero if there is none.
pub open spec fn arranged(places: Seq<usize>, nodes: Seq<Node>) -> Seq<Node> {
    Seq::new(
        places.len(),
        |a: int|
            if places[a] < nodes.len() {
                nodes[places[a] as int]
            } else {
                0
            },
    )
}

/// The place of each attribute up to the largest in the order from the
/// relation at `source`.
pub open spec fn places(relations: Seq<(usize, usize)>, source: int) -> Seq<usize> {
    Seq::new(
        (largest(relations) + 1) as nat,
        |a: int| place(attribute_order(relations, source), a as usize) as usize,
    )
}

/// The number of stages that bind the attributes behind the first two.
pub open spec fn stages(relations: Seq<(usize, usize)>, source: int) -> int {
    let most = largest(relabeled(relations, attribute_order(relations, source)));
    if most >= 2 {
        most - 1
    } else {
        0
    }
}

/// The changes to the instances of the motif that the updates to the
/// relation at `source` bring about, as a query at `time` sees the indices:
/// each update is extended, stage by stage, by the nodes that all
/// constraints of the stage admit, and the nodes are put in the order of
/// the attributes.
pub open spec fn derivative(
    indices: Seq<Index>,
    relations: Seq<(usize, usize)>,
    source: int,
    updates: Seq<(Edge, i32)>,
    time: u64,
) -> Seq<Binding> {
    staged(
        indices,
        relations,
        source,
        sources(updates),
        time,
        stages(relations, source),
    ).map_values(arrange_by(places(relations, source)))
}

/// The changes that the updates bring about through the first `upto`
/// relations of the motif.
pub open spec fn followed(
    indices: Seq<Index>,
    relations: Seq<(usize, usize)>,
    updates: Seq<(Edge, i32)>,
    time: u64,
    upto: int,
) -> Seq<Binding>
    decreases upto,
{
    if upto <= 0 {
        Seq::empty()
    } else {
        followed(indices, relations, updates, time, upto - 1) + derivative(
            indices,
            relations,
            upto - 1,
            updates,
            time,
        )
    }
}

/// Indices that agree make the same of a batch in one stage.
pub proof fn lemma_agree_stage(
    a: Seq<Index>,
    b: Seq<Index>,
    extenders: Seq<Extender>,
    rows: Seq<Binding>,
    time: u64,
)
    requires
        all_agree(a, b),
        forall|e: int| 0 <= e < extenders.len() ==> (#[trigger] extenders[e]).source < a.len(),
    ensures
        stage_all(a, extenders, rows, time) == stage_all(b, extenders, rows, time),
{
    let f = stage_one(a, extenders, time);
    let g = stage_one(b, extenders, time);
    assert forall|i: int| 0 <= i < rows.len() implies f(#[trigger] rows[i]) == g(rows[i]) by {
        if extenders.len() > 0 {
            lemma_agree_joined(a, b, extenders, rows[i].0, time);
        }
    }
    lemma_flat_map_agree(rows, f, g);
}

/// Every extender of a stage consults the forward or the reverse index.
pub proof fn lemma_stage_sources(relations: Seq<(usize, usize)>, source: int, stage: int)
    ensures
        forall|e: int|
            0 <= e < stage_extenders(relations, source, stage).len() ==> (
            #[trigger] stage_extenders(relations, source, stage)[e]).source < 2,
{
}

/// Indices that agree make the same of a batch through the stages.
pub proof fn lemma_agree_staged(
    a: Seq<Index>,
    b: Seq<Index>,
    relations: Seq<(usize, usize)>,
    source: int,
    rows: Seq<Binding>,
    time: u64,
    upto: int,
)
    requires
        all_agree(a, b),
        a.len() == 2,
    ensures
        staged(a, relations, source, rows, time, upto) == staged(
            b,
            relations,
            source,
            rows,
            time,
            upto,
        ),
    decreases upto,
{
    if upto > 0 {
        lemma_agree_staged(a, b, relations, source, rows, time, upto - 1);
        lemma_stage_sources(relations, source, upto - 1);
        lemma_agree_stage(
            a,
            b,
            stage_extenders(relations, source, upto - 1),
            staged(a, relations, source, rows, time, upto - 1),
            time,
        );
    }
}

/// Indices that agree follow a motif alike.
pub proof fn lemma_agree_followed(
    a: Seq<Index>,
    b: Seq<Index>,
    relations: Seq<(usize, usize)>,
    updates: Seq<(Edge, i32)>,
    time: u64,
    upto: int,
)
    requires
        all_agree(a, b),
        a.len() == 2,
    ensures
        followed(a, relations, updates, time, upto) == followed(b, relations, updates, time, upto),
    decreases upto,
{
    if upto > 0 {
        lemma_agree_followed(a, b, relations, updates, time, upto - 1);
        lemma_agree_staged(
            a,
            b,
            relations,
            upto - 1,
            sources(updates),
            time,
            stages(relations, upto - 1),
        );
    }
}

/// No attribute of a relation is larger than the largest.
pub proof fn lemma_largest(relations: Seq<(usize, usize)>, i: int)
    requires
        0 <= i < relations.len(),
    ensures
        relations[i].0 <= largest(relations),
        relations[i].1 <= largest(relations),
    decreases relations.len(),
{
    if i < relations.len() - 1 {
        lemma_largest(relations.drop_last(), i);
    }
}

/// A copy of `prefix` with `node` behind it.
fn with_node(prefix: &Vec<Node>, node: Node) -> (longer: Vec<Node>)
    ensures
        longer@ == prefix@.push(node),
{
    let mut longer: Vec<Node> = Vec::new();
    let mut i: usize = 0;
    while i < prefix.len()
        invariant
            i <= prefix.len(),
            longer@ == prefix@.take(i as int),
        decreases prefix.len() - i,
    {
        longer.push(prefix[i]);
        proof {
            assert(prefix@.take(i + 1) =~= prefix@.take(i as int).push(prefix[i as int]));
        }
        i += 1;
    }
    proof {
        assert(prefix@.take(prefix.len() as int) =~= prefix@);
    }
    longer.push(node);
    longer
}

/// The forward and the reverse index of a graph that changes: the first
/// keyed by the source of an edge, the second by its destination.
pub struct GraphStreamIndex {
    indices: Vec<Index>,
}

impl GraphStreamIndex {
    /// The two indices, the forward one first.
    pub closed spec fn indices(&self) -> Seq<Index> {
        self.indices@
    }

    /// The index keyed by the source of an edge.
    pub open spec fn forward(&self) -> Index {
        self.indices()[0]
    }

    /// The index keyed by the destination of an edge.
    pub open spec fn reverse(&self) -> Index {
        self.indices()[1]
    }

    /// There are two indices, each in order.
    pub open spec fn wf(&self) -> bool {
        self.indices().len() == 2 && all_wf(self.indices())
    }

    /// The reverse index holds what the forward index holds, source and
    /// destination exchanged.
    pub open spec fn mirrored(&self) -> bool {
        twins(self.forward(), self.reverse())
    }

    /// The indices of a graph without edges.
    pub fn new() -> (graph: Self)
        ensures
            graph.wf(),
            graph.forward().is_empty(),
            graph.reverse().is_empty(),
            graph.mirrored(),
    {
        let mut indices: Vec<Index> = Vec::new();
        indices.push(Index::new());
        indices.push(Index::new());
        proof {
            lemma_twins_empty(indices@[0], indices@[1]);
        }
        GraphStreamIndex { indices }
    }

    /// The indices of a graph with the edges `initially`: the forward index
    /// holds them as they are, the reverse index with source and
    /// destination exchanged.
    pub fn from(initially: Vec<Edge>) -> (graph: Self)
        ensures
            graph.wf(),
            graph.forward().edges() == Map::<u32, crate::index::edge_list::EdgeList>::empty(),
            graph.forward().pending().len() == 0,
            graph.reverse().edges() == Map::<u32, crate::index::edge_list::EdgeList>::empty(),
            graph.reverse().pending().len() == 0,
            exists|sorted: Seq<(u32, u32)>|
                #![trigger sorted.to_multiset()]
                sorted.to_multiset() == initially@.to_multiset() && forall|key: u32|
                    #[trigger] graph.forward().base(key) == values_for(sorted, key),
            exists|sorted: Seq<(u32, u32)>|
                #![trigger sorted.to_multiset()]
                sorted.to_multiset() == turned_pairs(initially@).to_multiset() && forall|key: u32|
                    #[trigger] graph.reverse().base(key) == values_for(sorted, key),
            graph.mirrored(),
    {
        let mut turned: Vec<Edge> = Vec::new();
        let mut i: usize = 0;
        while i < initially.len()
            invariant
                i <= initially.len(),
                turned@ == turned_pairs(initially@.take(i as int)),
            decreases initially.len() - i,
        {
            let (src, dst) = initially[i];
            turned.push((dst, src));
            proof {
                assert(initially@.take(i + 1) =~= initially@.take(i as int).push(
                    initially[i as int],
                ));
                assert(turned@ =~= turned_pairs(initially@.take(i + 1)));
            }
            i += 1;
        }
        proof {
            assert(initially@.take(initially.len() as int) =~= initially@);
        }
        let graph = GraphStreamIndex::from_separately(initially, turned);
        proof {
            let sorted = choose|sorted: Seq<(u32, u32)>|
                #![trigger sorted.to_multiset()]
                sorted.to_multiset() == initially@.to_multiset() && forall|key: u32|
                    #[trigger] graph.forward().base(key) == values_for(sorted, key);
            let back = choose|sorted: Seq<(u32, u32)>|
                #![trigger sorted.to_multiset()]
                sorted.to_multiset() == turned_pairs(initially@).to_multiset() && forall|key: u32|
                    #[trigger] graph.reverse().base(key) == values_for(sorted, key);
            lemma_twins_loaded(graph.forward(), graph.reverse(), initially@, sorted, back);
        }
        graph
    }

    /// The indices of a graph whose forward index holds the pairs
    /// `initially_f` and whose reverse index holds the pairs `initially_r`,
    /// each as `(key, value)`.
    pub fn from_separately(initially_f: Vec<Edge>, initially_r: Vec<Edge>) -> (graph: Self)
        ensures
            graph.wf(),
            graph.forward().edges() == Map::<u32, crate::index::edge_list::EdgeList>::empty(),
            graph.forward().pending().len() == 0,
            graph.reverse().edges() == Map::<u32, crate::index::edge_list::EdgeList>::empty(),
            graph.reverse().pending().len() == 0,
            exists|sorted: Seq<(u32, u32)>|
                #![trigger sorted.to_multiset()]
                sorted.to_multiset() == initially_f@.to_multiset() && forall|key: u32|
                    #[trigger] graph.forward().base(key) == values_for(sorted, key),
            exists|sorted: Seq<(u32, u32)>|
                #![trigger sorted.to_multiset()]
                sorted.to_multiset() == initially_r@.to_multiset() && forall|key: u32|
                    #[trigger] graph.reverse().base(key) == values_for(sorted, key),
    {
        let forward = GraphStreamIndex::load(initially_f);
        let reverse = GraphStreamIndex::load(initially_r);
        let mut indices: Vec<Index> = Vec::new();
        indices.push(forward);
        indices.push(reverse);
        GraphStreamIndex { indices }
    }

    /// An index whose base holds the pairs, sorted.
    fn load(pairs: Vec<(u32, u32)>) -> (index: Index)
        ensures
            index.wf(),
            index.edges() == Map::<u32, crate::index::edge_list::EdgeList>::empty(),
            index.pending().len() == 0,
            exists|sorted: Seq<(u32, u32)>|
                #![trigger sorted.to_multiset()]
                sorted.to_multiset() == pairs@.to_multiset() && forall|key: u32|
                    #[trigger] index.base(key) == values_for(sorted, key),
    {
        let mut index = Index::new();
        let mut sorter = MergeSorter::new();
        let mut batch = pairs;
        sorter.push(&mut batch);
        let ghost filled = sorter;
        let mut sorted: Vec<Chunk> = Vec::new();
        sorter.finish_into(&mut sorted);
        proof {
            assert(joined_pairs(Seq::<Chunk>::empty()) =~= Seq::empty());
            assert(Multiset::<(u32, u32)>::empty().add(pairs@.to_multiset())
                =~= pairs@.to_multiset());
            if sorted@.len() == 0 {
                assert(joined_pairs(sorted@) =~= Seq::empty());
            }
        }
        let ghost arranged = joined_pairs(sorted@);
        if sorted.len() > 0 {
            index.initialize(&mut sorted);
        } else {
            proof {
                assert forall|key: u32| #[trigger] index.base(key) == values_for(arranged, key) by {
                    index.lemma_empty_base(key);
                }
                assert(arranged.to_multiset() == pairs@.to_multiset()) by {
                    broadcast use vstd::seq_lib::group_to_multiset_ensures;

                    if filled.lists().len() == 0 {
                        assert(filled.contents() == Multiset::<(u32, u32)>::empty());
                        assert(arranged.to_multiset().len() == 0);
                        assert(arranged.to_multiset() =~= Multiset::<(u32, u32)>::empty());
                    }
                }
            }
        }
        index
    }

    /// Introduces a batch of updates to the edges at `time`, in both
    /// indices: as they are in the forward index, source and destination
    /// exchanged in the reverse index. Every query that sees `time` sees
    /// them.
    pub fn update(&mut self, time: u64, updates: &Vec<(Edge, i32)>)
        requires
            old(self).wf(),
        ensures
            final(self).wf(),
            final(self).forward().compact() == old(self).forward().compact(),
            final(self).forward().edges() == old(self).forward().edges(),
            final(self).reverse().compact() == old(self).reverse().compact(),
            final(self).reverse().edges() == old(self).reverse().edges(),
            final(self).forward().pending().to_multiset() == (old(self).forward().pending()
                + stamped(updates@, time)).to_multiset(),
            final(self).reverse().pending().to_multiset() == (old(self).reverse().pending()
                + stamped(turned(updates@), time)).to_multiset(),
            forall|k: u32, v: u32, valid: Visible| #[trigger]
                final(self).forward().weight(k, v, valid) == old(self).forward().weight(
                    k,
                    v,
                    valid,
                ) + sum_by(stamped(updates@, time), seen_diff(k, v, valid)),
            forall|k: u32, v: u32, valid: Visible| #[trigger]
                final(self).reverse().weight(k, v, valid) == old(self).reverse().weight(
                    k,
                    v,
                    valid,
                ) + sum_by(stamped(turned(updates@), time), seen_diff(k, v, valid)),
            old(self).mirrored() ==> final(self).mirrored(),
    {
        let mut there: Vec<(Edge, i32)> = Vec::new();
        let mut back: Vec<(Edge, i32)> = Vec::new();
        let mut i: usize = 0;
        while i < updates.len()
            invariant
                i <= updates.len(),
                there@ == updates@.take(i as int),
                back@ == turned(updates@.take(i as int)),
            decreases updates.len() - i,
        {
            let ((src, dst), diff) = updates[i];
            there.push(((src, dst), diff));
            back.push(((dst, src), diff));
            proof {
                assert(updates@.take(i + 1) =~= updates@.take(i as int).push(updates[i as int]));
                assert(back@ =~= turned(updates@.take(i + 1)));
            }
            i += 1;
        }
        proof {
            assert(updates@.take(updates.len() as int) =~= updates@);
            assert(self.indices()[0].wf());
            assert(self.indices()[1].wf());
        }
        self.indices[0].update(time, &mut there);
        self.indices[1].update(time, &mut back);
        proof {
            if old(self).mirrored() {
                lemma_twins_updated(
                    old(self).forward(),
                    old(self).reverse(),
                    self.forward(),
                    self.reverse(),
                    updates@,
                    time,
                );
            }
        }
    }

    /// Merges both indices up to `time`, compacting their representations.
    pub fn merge_to(&mut self, time: &u64)
        requires
            old(self).wf(),
        ensures
            final(self).wf(),
            final(self).forward().merged(old(self).forward(), *time),
            final(self).reverse().merged(old(self).reverse(), *time),
            old(self).mirrored() ==> final(self).mirrored(),
    {
        proof {
            assert(self.indices()[0].wf());
            assert(self.indices()[1].wf());
        }
        self.indices[0].merge_to(time);
        self.indices[1].merge_to(time);
        proof {
            if old(self).mirrored() {
                lemma_twins_merged(
                    old(self).forward(),
                    old(self).reverse(),
                    self.forward(),
                    self.reverse(),
                    *time,
                );
            }
        }
    }
}

impl GraphStreamIndex {
    /// A graph whose indices agree with those of a mirrored graph is
    /// mirrored.
    pub proof fn lemma_agree_mirrored(&self, before: GraphStreamIndex)
        requires
            before.indices().len() == 2,
            all_agree(self.indices(), before.indices()),
            before.mirrored(),
        ensures
            self.mirrored(),
    {
        assert(self.indices()[0].agrees(before.indices()[0]));
        assert(self.indices()[1].agrees(before.indices()[1]));
        lemma_twins_agree(before.forward(), before.reverse(), self.forward(), self.reverse());
    }

    /// Extends each prefix by the nodes that all constraints of a plan
    /// admit. A constraint `(attribute, is_forward, is_prior)` asks for the
    /// extensions of the node at `attribute` in the forward or the reverse
    /// index, as a query at `time` sees them: with the updates made at
    /// `time` if the relation is a prior one, without them if it is not.
    pub fn extend_attribute(
        &mut self,
        stream: Vec<(Vec<Node>, i32)>,
        plan: &[(usize, bool, bool)],
        time: u64,
    ) -> (out: Vec<(Vec<Node>, Vec<Node>, i32)>)
        requires
            old(self).wf(),
            forall|c: int, i: int|
                0 <= c < plan.len() && 0 <= i < stream.len() ==> (#[trigger] plan[c]).0 < (
                #[trigger] stream[i]).0@.len(),
        ensures
            final(self).wf(),
            all_agree(final(self).indices(), old(self).indices()),
            plan.len() == 0 ==> out@.len() == 0,
            plan.len() > 0 ==> exists|origin: Seq<int>|
                joins(final(self).indices(), extenders_of(plan@), stream@, out@, origin, time),
            old(self).mirrored() ==> final(self).mirrored(),
    {
        let mut extenders: Vec<Extender> = Vec::new();
        let mut c: usize = 0;
        while c < plan.len()
            invariant
                c <= plan.len(),
                extenders@ == extenders_of(plan@.take(c as int)),
            decreases plan.len() - c,
        {
            let (attribute, is_forward, prior) = plan[c];
            let source: usize = if is_forward {
                0
            } else {
                1
            };
            extenders.push(Extender { source, attribute, inclusive: prior });
            proof {
                assert(plan@.take(c + 1) =~= plan@.take(c as int).push(plan[c as int]));
                assert(extenders@ =~= extenders_of(plan@.take(c + 1)));
            }
            c += 1;
        }
        proof {
            assert(plan@.take(plan.len() as int) =~= plan@);
            assert forall|e: int, i: int|
                0 <= e < extenders.len() && 0 <= i < stream.len() implies (
            #[trigger] extenders@[e]).fits(self.indices(), (#[trigger] stream[i]).0.nodes()) by {
                assert(extenders@[e] == extender_of(plan[e]));
                assert(plan[e].0 < stream[i].0@.len());
            }
            assert forall|e: int| 0 <= e < extenders.len() implies (
            #[trigger] extenders@[e]).source < self.indices().len() by {
                assert(extenders@[e] == extender_of(plan[e]));
            }
        }
        let out = extend(&mut self.indices, stream, extenders.as_slice(), time);
        proof {
            if old(self).mirrored() {
                self.lemma_agree_mirrored(*old(self));
            }
        }
        out
    }

    /// One stage of the plan: each prefix with each of its extensions
    /// behind it.
    fn stage(&mut self, stream: Vec<(Vec<Node>, i32)>, plan: &[(usize, bool, bool)], time: u64) -> (out:
        Vec<(Vec<Node>, i32)>)
        requires
            old(self).wf(),
            forall|c: int, i: int|
                0 <= c < plan.len() && 0 <= i < stream.len() ==> (#[trigger] plan[c]).0 < (
                #[trigger] stream[i]).0@.len(),
        ensures
            final(self).wf(),
            all_agree(final(self).indices(), old(self).indices()),
            bindings(out@).to_multiset() == stage_all(
                old(self).indices(),
                extenders_of(plan@),
                bindings(stream@),
                time,
            ).to_multiset(),
            forall|width: int| #[trigger] all_wide(stream@, width) ==> all_wide(out@, width + 1),
    {
        let ghost given = self.indices();
        let ghost extenders = extenders_of(plan@);
        let rows = self.extend_attribute(stream, plan, time);
        let ghost now = self.indices();
        let mut out: Vec<(Vec<Node>, i32)> = Vec::new();
        let ghost wide = spread_row();
        let ghost origin = if plan.len() > 0 {
            choose|origin: Seq<int>| joins(now, extenders, stream@, rows@, origin, time)
        } else {
            Seq::<int>::empty()
        };
        let count = rows.len();
        let mut j: usize = 0;
        proof {
            assert(rows@.take(0) =~= Seq::empty());
            assert(bindings(out@) =~= flat_map(rows@.take(0), wide));
        }
        while j < count
            invariant
                count == rows.len(),
                j <= count,
                wide == spread_row(),
                bindings(out@) == flat_map(rows@.take(j as int), wide),
                forall|n: int|
                    0 <= n < out.len() ==> exists|m: int|
                        0 <= m < j && (#[trigger] out[n]).0@.len() == rows[m].0@.len() + 1,
            decreases count - j,
        {
            let size = rows[j].1.len();
            let mut k: usize = 0;
            let ghost before = bindings(out@);
            proof {
                assert(wide(rows[j as int]) == spread(
                    rows[j as int].0@,
                    rows[j as int].1@,
                    rows[j as int].2,
                ));
                assert(wide(rows[j as int]).take(0) =~= Seq::empty());
                assert(bindings(out@) =~= before + wide(rows[j as int]).take(0));
            }
            while k < size
                invariant
                    j < rows.len(),
                    size == rows[j as int].1@.len(),
                    k <= size,
                    wide == spread_row(),
                    bindings(out@) == before + wide(rows[j as int]).take(k as int),
                    forall|n: int|
                        0 <= n < out.len() ==> exists|m: int|
                            0 <= m < j + 1 && (#[trigger] out[n]).0@.len() == rows[m].0@.len() + 1,
                decreases size - k,
            {
                let longer = with_node(&rows[j].0, rows[j].1[k]);
                let ghost held = out@;
                out.push((longer, rows[j].2));
                proof {
                    let all = wide(rows[j as int]);
                    assert(all == spread(rows[j as int].0@, rows[j as int].1@, rows[j as int].2));
                    assert(all.len() == size);
                    assert(all[k as int] == (longer@, rows[j as int].2));
                    assert(all.take(k + 1) =~= all.take(k as int).push(all[k as int]));
                    assert(bindings(out@) =~= bindings(held).push((longer@, rows[j as int].2)));
                    assert(bindings(out@) =~= before + all.take(k + 1));
                    assert forall|n: int| 0 <= n < out.len() implies exists|m: int|
                        0 <= m < j + 1 && (#[trigger] out[n]).0@.len() == rows[m].0@.len() + 1 by {
                        if n < held.len() {
                            assert(out[n] == held[n]);
                            let m = choose|m: int|
                                0 <= m < j + 1 && held[n].0@.len() == rows[m].0@.len() + 1;
                            assert(out[n].0@.len() == rows[m].0@.len() + 1);
                        } else {
                            assert(out[n].0@.len() == rows[j as int].0@.len() + 1);
                        }
                    }
                }
                k += 1;
            }
            proof {
                let all = wide(rows[j as int]);
                assert(all == spread(rows[j as int].0@, rows[j as int].1@, rows[j as int].2));
                assert(all.len() == size);
                assert(all.take(size as int) =~= all);
                assert(rows@.take(j + 1) =~= rows@.take(j as int).push(rows[j as int]));
                lemma_flat_map_push(rows@.take(j as int), rows[j as int], wide);
            }
            j += 1;
        }
        proof {
            assert(rows@.take(count as int) =~= rows@);
            let input = bindings(stream@);
            let late = stage_one(now, extenders, time);
            if plan.len() > 0 {
                assert(joins(now, extenders, stream@, rows@, origin, time));
                let chosen = picked(input, origin);
                assert forall|n: int| 0 <= n < chosen.len() implies late(#[trigger] chosen[n])
                    == wide(rows@[n]) by {
                    let was = stream@[origin[n]];
                    assert(chosen[n] == (was.0@, was.1));
                    assert(rows@[n].0 == was.0);
                }
                lemma_flat_map_alike(chosen, late, rows@, wide);
                assert forall|i: int| 0 <= i < input.len() && !origin.contains(i) implies late(
                    #[trigger] input[i],
                ).len() == 0 by {
                    assert(!extends(now, extenders, stream@[i].0.nodes(), time));
                }
                lemma_flat_map_picked(input, origin, late);
            } else {
                assert forall|i: int| 0 <= i < input.len() implies late(#[trigger] input[i]).len()
                    == 0 by {}
                lemma_flat_map_nothing(input, late);
                assert(flat_map(rows@, wide) =~= flat_map(input, late));
            }
            assert forall|e: int| 0 <= e < extenders.len() implies (
            #[trigger] extenders[e]).source < now.len() by {
                assert(extenders[e] == extender_of(plan[e]));
            }
            lemma_agree_stage(now, given, extenders, input, time);
            assert forall|width: int| #[trigger] all_wide(stream@, width) implies all_wide(
                out@,
                width + 1,
            ) by {
                assert forall|n: int| 0 <= n < out.len() implies (#[trigger] out@[n]).0@.len()
                    == width + 1 by {
                    let m = choose|m: int|
                        0 <= m < count && out[n].0@.len() == rows[m].0@.len() + 1;
                    if plan.len() > 0 {
                        assert(rows@[m].0 == stream@[origin[m]].0);
                        assert(stream@[origin[m]].0@.len() == width);
                    }
                }
            }
        }
        out
    }
}

/// The updates as rows that bind the two attributes of their relation.
fn source_rows(updates: &Vec<(Edge, i32)>) -> (stream: Vec<(Vec<Node>, i32)>)
    ensures
        bindings(stream@) == sources(updates@),
        all_wide(stream@, 2),
{
    let mut stream: Vec<(Vec<Node>, i32)> = Vec::new();
    let mut i: usize = 0;
    while i < updates.len()
        invariant
            i <= updates.len(),
            stream@.len() == i,
            forall|n: int|
                0 <= n < i ==> (#[trigger] stream@[n]).0@ == seq![updates[n].0.0, updates[n].0.1]
                    && stream@[n].1 == updates[n].1,
        decreases updates.len() - i,
    {
        let ((src, dst), diff) = updates[i];
        let mut pair: Vec<Node> = Vec::new();
        pair.push(src);
        pair.push(dst);
        proof {
            assert(pair@ =~= seq![src, dst]);
        }
        stream.push((pair, diff));
        i += 1;
    }
    proof {
        assert(bindings(stream@) =~= sources(updates@));
    }
    stream
}

/// The rows with their nodes in the order of the attributes.
fn arrange_rows(stream: &Vec<(Vec<Node>, i32)>, relabel: &Vec<usize>) -> (out: Vec<
    (Vec<Node>, i32),
>)
    ensures
        bindings(out@) == bindings(stream@).map_values(arrange_by(relabel@)),
{
    let mut out: Vec<(Vec<Node>, i32)> = Vec::new();
    let total = stream.len();
    let mut j: usize = 0;
    while j < total
        invariant
            total == stream.len(),
            j <= total,
            out@.len() == j,
            forall|n: int|
                0 <= n < j ==> (#[trigger] out@[n]).0@ == arranged(relabel@, stream[n].0@)
                    && out@[n].1 == stream[n].1,
        decreases total - j,
    {
        let mut nodes: Vec<Node> = Vec::new();
        let mut a: usize = 0;
        while a < relabel.len()
            invariant
                j < stream.len(),
                a <= relabel.len(),
                nodes@ == arranged(relabel@, stream[j as int].0@).take(a as int),
            decreases relabel.len() - a,
        {
            let at = relabel[a];
            let node = if at < stream[j].0.len() {
                stream[j].0[at]
            } else {
                0
            };
            nodes.push(node);
            proof {
                let whole = arranged(relabel@, stream[j as int].0@);
                assert(whole.take(a + 1) =~= whole.take(a as int).push(whole[a as int]));
            }
            a += 1;
        }
        proof {
            let whole = arranged(relabel@, stream[j as int].0@);
            assert(whole.take(relabel.len() as int) =~= whole);
        }
        out.push((nodes, stream[j].1));
        j += 1;
    }
    proof {
        assert(bindings(out@) =~= bindings(stream@).map_values(arrange_by(relabel@)));
    }
    out
}

impl GraphStreamIndex {
    /// The changes to the instances of a motif that the updates to one of
    /// its relations bring about.
    ///
    /// The updates at `time` must be in both indices already. Each update
    /// binds the two attributes of the relation at `relation`. The other
    /// attributes are bound stage by stage, in the order that the planner
    /// gives: a binding is extended by the nodes that all relations to the
    /// attributes bound before admit, as a query at `time` sees them. The
    /// relations before `relation` are seen with the updates made at
    /// `time`, those behind it without them. The result holds each binding
    /// in the order of the attributes, with the diff of its update, in no
    /// particular order.
    #[verifier::rlimit(50)]
    pub fn relation_update(
        &mut self,
        relation: usize,
        relations: &[(usize, usize)],
        time: u64,
        updates: &Vec<(Edge, i32)>,
    ) -> (result: Result<Vec<(Vec<Node>, i32)>, MotifError>)
        requires
            old(self).wf(),
            relation < relations.len(),
            forall|i: int|
                0 <= i < relations.len() ==> relations[i].0 < usize::MAX && relations[i].1
                    < usize::MAX,
        ensures
            final(self).wf(),
            all_agree(final(self).indices(), old(self).indices()),
            match result {
                Ok(out) => {
                    &&& plannable(relations@, relation as int)
                    &&& bindings(out@).to_multiset() == derivative(
                        old(self).indices(),
                        relations@,
                        relation as int,
                        updates@,
                        time,
                    ).to_multiset()
                },
                Err(_) => !plannable(relations@, relation as int),
            },
            result == Err::<Vec<(Vec<Node>, i32)>, MotifError>(MotifError::SelfLoop)
                <==> relations[relation as int].0 == relations[relation as int].1,
            old(self).mirrored() ==> final(self).mirrored(),
    {
        let ghost given = self.indices();
        proof {
            assert forall|w: int| 0 <= w < given.len() implies (#[trigger] given[w]).agrees(
                given[w],
            ) by {}
        }
        // we need to determine an order on the attributes that ensures that each are bound by
        // preceding attributes.
        let (attrs, relabel, relations_in_order) = match order_attributes(relation, relations) {
            Ok(ordered) => ordered,
            Err(error) => {
                proof {
                    if relations[relation as int].0 != relations[relation as int].1 {
                        let a = choose|a: usize|
                            a <= largest(relations@) && !attribute_order(
                                relations@,
                                relation as int,
                            ).contains(a);
                        assert(!plannable(relations@, relation as int));
                    }
                }
                return Err(error);
            },
        };
        let ghost order = attribute_order(relations@, relation as int);
        proof {
            assert forall|a: usize| a <= largest(relations@) implies order.contains(a) by {
                assert(attrs[relabel[a as int] as int] == a);
            }
            assert(relations_in_order@ =~= relabeled(relations@, order)) by {
                assert forall|i: int| 0 <= i < relations.len() implies relations_in_order@[i]
                    == relabeled(relations@, order)[i] by {
                    lemma_largest(relations@, i);
                    let r = relations@[i];
                    assert(relabel[r.0 as int] == place(order, r.0));
                    assert(relabel[r.1 as int] == place(order, r.1));
                }
            }
            assert forall|i: int| 0 <= i < relations_in_order.len() implies relations_in_order[i].0
                < usize::MAX && relations_in_order[i].1 < usize::MAX by {
                lemma_largest(relations@, i);
                let r = relations@[i];
                assert(relations_in_order[i] == (relabel[r.0 as int], relabel[r.1 as int]));
                assert(relabel[r.0 as int] < attrs@.len());
                assert(relabel[r.1 as int] < attrs@.len());
                assert(attrs@.len() == attrs.len());
            }
            assert(relabel@ =~= places(relations@, relation as int));
        }
        let query_plan = plan_query(relations_in_order.as_slice(), relation);

        let mut stream = source_rows(updates);

        let count = query_plan.len();
        let mut done: usize = 0;
        while done < count
            invariant
                count == query_plan.len(),
                count == stages(relations@, relation as int),
                done <= count,
                self.wf(),
                all_agree(self.indices(), given),
                given.len() == 2,
                relations_in_order@ == relabeled(relations@, order),
                order == attribute_order(relations@, relation as int),
                forall|a: int|
                    0 <= a < query_plan@.len() ==> (#[trigger] query_plan[a])@ == constraints_of(
                        relations_in_order@,
                        (a + 2) as usize,
                        relation,
                        relations_in_order.len() as int,
                    ),
                relations_in_order.len() == relations.len(),
                all_wide(stream@, done + 2),
                bindings(stream@).to_multiset() == staged(
                    given,
                    relations@,
                    relation as int,
                    sources(updates@),
                    time,
                    done as int,
                ).to_multiset(),
            decreases count - done,
        {
            let ghost entered = self.indices();
            let ghost before = bindings(stream@);
            let ghost extenders = stage_extenders(relations@, relation as int, done as int);
            proof {
                lemma_constraints_before(
                    relations_in_order@,
                    (done + 2) as usize,
                    relation,
                    relations_in_order.len() as int,
                );
                assert(extenders_of(query_plan[done as int]@) == extenders);
            }
            stream = self.stage(stream, query_plan[done].as_slice(), time);
            proof {
                lemma_agree_trans(self.indices(), entered, given);
                lemma_stage_sources(relations@, relation as int, done as int);
                lemma_agree_stage(entered, given, extenders, before, time);
                lemma_flat_map_rearranged(
                    before,
                    staged(
                        given,
                        relations@,
                        relation as int,
                        sources(updates@),
                        time,
                        done as int,
                    ),
                    stage_one(given, extenders, time),
                );
            }
            done += 1;
        }

        // undo the attribute re-ordering.
        let ghost arrange = arrange_by(relabel@);
        let out = arrange_rows(&stream, &relabel);
        proof {
            lemma_map_rearranged(
                bindings(stream@),
                staged(given, relations@, relation as int, sources(updates@), time, count as int),
                arrange,
            );
            assert(derivative(given, relations@, relation as int, updates@, time) =~= staged(
                given,
                relations@,
                relation as int,
                sources(updates@),
                time,
                count as int,
            ).map_values(arrange));
            if old(self).mirrored() {
                self.lemma_agree_mirrored(*old(self));
            }
        }
        Ok(out)
    }

    /// The changes to the instances of a motif that a batch of updates to
    /// the edges brings about: those that it brings about through each of
    /// the relations of the motif, one after the other.
    ///
    /// The updates at `time` must be in both indices already. Each instance
    /// is counted through one relation only: through the first relation at
    /// which an update meets it.
    pub fn track_motif(
        &mut self,
        description: &[(usize, usize)],
        time: u64,
        updates: &Vec<(Edge, i32)>,
    ) -> (result: Result<Vec<(Vec<Node>, i32)>, MotifError>)
        requires
            old(self).wf(),
            forall|i: int|
                0 <= i < description.len() ==> description[i].0 < usize::MAX && description[i].1
                    < usize::MAX,
        ensures
            final(self).wf(),
            all_agree(final(self).indices(), old(self).indices()),
            match result {
                Ok(out) => {
                    &&& forall|r: int|
                        0 <= r < description.len() ==> #[trigger] plannable(description@, r)
                    &&& bindings(out@).to_multiset() == followed(
                        old(self).indices(),
                        description@,
                        updates@,
                        time,
                        description.len() as int,
                    ).to_multiset()
                },
                Err(error) => exists|r: int|
                    0 <= r < description.len() && !#[trigger] plannable(description@, r) && (
                    forall|before: int| 0 <= before < r ==> #[trigger] plannable(description@, before))
                        && (error == MotifError::SelfLoop <==> description[r].0
                        == description[r].1),
            },
            old(self).mirrored() ==> final(self).mirrored(),
    {
        let ghost given = self.indices();
        proof {
            assert forall|w: int| 0 <= w < given.len() implies (#[trigger] given[w]).agrees(
                given[w],
            ) by {}
        }
        let mut result: Vec<(Vec<Node>, i32)> = Vec::new();
        let mut relation: usize = 0;
        proof {
            assert(bindings(result@) =~= followed(given, description@, updates@, time, 0));
        }
        while relation < description.len()
            invariant
                relation <= description.len(),
                self.wf(),
                given.len() == 2,
                given == old(self).indices(),
                all_agree(self.indices(), given),
                forall|i: int|
                    0 <= i < description.len() ==> description[i].0 < usize::MAX
                        && description[i].1 < usize::MAX,
                forall|r: int| 0 <= r < relation ==> #[trigger] plannable(description@, r),
                bindings(result@).to_multiset() == followed(
                    given,
                    description@,
                    updates@,
                    time,
                    relation as int,
                ).to_multiset(),
            decreases description.len() - relation,
        {
            let ghost entered = self.indices();
            let ghost held = bindings(result@);
            match self.relation_update(relation, description, time, updates) {
                Ok(changes) => {
                    let mut changes = changes;
                    let ghost more = bindings(changes@);
                    result.append(&mut changes);
                    proof {
                        lemma_agree_trans(self.indices(), entered, given);
                        lemma_agree_staged(
                            entered,
                            given,
                            description@,
                            relation as int,
                            sources(updates@),
                            time,
                            stages(description@, relation as int),
                        );
                        assert(bindings(result@) =~= held + more);
                        vstd::seq_lib::lemma_multiset_commutative(held, more);
                        vstd::seq_lib::lemma_multiset_commutative(
                            followed(given, description@, updates@, time, relation as int),
                            derivative(given, description@, relation as int, updates@, time),
                        );
                    }
                },
                Err(error) => {
                    proof {
                        assert(all_agree(self.indices(), entered));
                        assert(all_agree(entered, given));
                        lemma_agree_trans(self.indices(), entered, given);
                        assert(!plannable(description@, relation as int));
                        assert(given == old(self).indices());
                        if old(self).mirrored() {
                            self.lemma_agree_mirrored(*old(self));
                        }
                    }
                    return Err(error);
                },
            }
            relation += 1;
        }
        proof {
            if old(self).mirrored() {
                self.lemma_agree_mirrored(*old(self));
            }
        }
        Ok(result)
    }
}

/// Puts the nodes of a binding in the order of the attributes.
pub open spec fn arrange_by(places: Seq<usize>) -> spec_fn(Binding) -> Binding {
    |row: Binding| (arranged(places, row.0), row.1)
}

} // verus!
