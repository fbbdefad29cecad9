//! One layer of a generic join: a batch of prefixes is extended by one
//! attribute.
//!
//! Each extender stands for a relation that constrains the new attribute.
//! Every prefix is given to the extender that estimates the fewest
//! extensions for it. That extender proposes the extensions, and the
//! others restrict them, one after the other.

use vstd::prelude::*;
use crate::extender::{composed, lemma_composed, selects, IndexExtender};
use crate::laws::lemma_survivors_ascend;
use crate::index::{Index, Visible};
use crate::motif::Node;
use crate::order::ascending;

verus! {

/// A prefix whose nodes can be read by position.
pub trait IndexNode {
    /// The nodes of the prefix.
    spec fn nodes(&self) -> Seq<Node>;

    /// Reads the node at `index`.
    fn index(&self, index: usize) -> (node: Node)
        requires
            index < self.nodes().len(),
        ensures
            node == self.nodes()[index as int],
    ;
}

impl IndexNode for Vec<Node> {
    open spec fn nodes(&self) -> Seq<Node> {
        self@
    }

    fn index(&self, index: usize) -> (node: Node) {
        self[index]
    }
}

impl IndexNode for [Node; 2] {
    open spec fn nodes(&self) -> Seq<Node> {
        self@
    }

    fn index(&self, index: usize) -> (node: Node) {
        self[index]
    }
}

/// An extender of a join: the index that it consults, the position of the
/// node of a prefix that is its key, and whether a query sees the updates
/// made at its own time.
#[derive(Clone, Copy, Debug)]
pub struct Extender {
    /// Which of the indices the extender consults.
    pub source: usize,
    /// The position in a prefix of the node that is the key.
    pub attribute: usize,
    /// Whether a query sees the updates made at its own time.
    pub inclusive: bool,
}

impl Extender {
    /// What a query at `time` sees.
    pub open spec fn valid(&self, time: u64) -> Visible {
        Visible { time, inclusive: self.inclusive }
    }

    /// The extender can be used with these indices and this prefix.
    pub open spec fn fits(&self, indices: Seq<Index>, nodes: Seq<Node>) -> bool {
        self.source < indices.len() && self.attribute < nodes.len()
    }

    /// The number of extensions that the extender estimates for `prefix`.
    pub open spec fn estimate(&self, indices: Seq<Index>, nodes: Seq<Node>) -> u64 {
        indices[self.source as int].estimate(nodes[self.attribute as int])
    }

    /// What the extender proposes for a prefix of these nodes.
    pub open spec fn proposal(&self, indices: Seq<Index>, nodes: Seq<Node>, time: u64) -> Seq<u32> {
        indices[self.source as int].proposal(nodes[self.attribute as int], self.valid(time))
    }

    /// What the extender leaves of `list` for a prefix of these nodes.
    pub open spec fn survivors(
        &self,
        indices: Seq<Index>,
        nodes: Seq<Node>,
        list: Seq<u32>,
        time: u64,
    ) -> Seq<u32> {
        indices[self.source as int].survivors(list, nodes[self.attribute as int], self.valid(time))
    }
}

/// The extender that `extend` gives a prefix to: the one with the least
/// estimate, or the only one.
pub open spec fn chosen_for(indices: Seq<Index>, extenders: Seq<Extender>, nodes: Seq<Node>) -> int {
    if extenders.len() == 1 {
        0
    } else {
        best(indices, extenders, nodes, extenders.len() as int).1 as int
    }
}

/// The least estimate among the first `upto` extenders, and the first
/// extender that gives it. With no extender the estimate is the largest
/// number and the extender the first.
pub open spec fn best(
    indices: Seq<Index>,
    extenders: Seq<Extender>,
    nodes: Seq<Node>,
    upto: int,
) -> (u64, u64)
    decreases upto,
{
    if upto <= 0 {
        (u64::MAX, 0)
    } else {
        let (count, ident) = best(indices, extenders, nodes, upto - 1);
        let estimate = extenders[upto - 1].estimate(indices, nodes);
        if estimate < count {
            (estimate, (upto - 1) as u64)
        } else {
            (count, ident)
        }
    }
}

/// What the first `upto` extenders but the one at `chosen` leave of `list`,
/// each restricting what the one before it left.
pub open spec fn filtered(
    indices: Seq<Index>,
    extenders: Seq<Extender>,
    nodes: Seq<Node>,
    list: Seq<u32>,
    chosen: int,
    upto: int,
    time: u64,
) -> Seq<u32>
    decreases upto,
{
    if upto <= 0 {
        list
    } else {
        let left = filtered(indices, extenders, nodes, list, chosen, upto - 1, time);
        if upto - 1 == chosen {
            left
        } else {
            extenders[upto - 1].survivors(indices, nodes, left, time)
        }
    }
}

/// The extensions of `prefix` by the extender at `chosen`: what it
/// proposes, restricted by all others.
pub open spec fn extensions(
    indices: Seq<Index>,
    extenders: Seq<Extender>,
    nodes: Seq<Node>,
    chosen: int,
    time: u64,
) -> Seq<u32> {
    filtered(
        indices,
        extenders,
        nodes,
        extenders[chosen].proposal(indices, nodes, time),
        chosen,
        extenders.len() as int,
        time,
    )
}

/// The prefix is extended: some extender estimates extensions for it, and
/// the extender with the least estimate proposes some that the others leave.
/// A single extender is not asked for an estimate.
pub open spec fn extends(
    indices: Seq<Index>,
    extenders: Seq<Extender>,
    nodes: Seq<Node>,
    time: u64,
) -> bool {
    if extenders.len() == 1 {
        extensions(indices, extenders, nodes, 0, time).len() > 0
    } else {
        let (count, ident) = best(indices, extenders, nodes, extenders.len() as int);
        count > 0 && extensions(indices, extenders, nodes, ident as int, time).len() > 0
    }
}

/// The extensions of a prefix that is extended.
pub open spec fn joined(
    indices: Seq<Index>,
    extenders: Seq<Extender>,
    nodes: Seq<Node>,
    time: u64,
) -> Seq<u32> {
    if extenders.len() == 1 {
        extensions(indices, extenders, nodes, 0, time)
    } else {
        let (count, ident) = best(indices, extenders, nodes, extenders.len() as int);
        extensions(indices, extenders, nodes, ident as int, time)
    }
}

/// What `extend` makes of a batch: the prefixes at `origin`, each with its
/// extensions and its diff; the prefixes left out are not extended.
pub open spec fn joins<P: IndexNode>(
    indices: Seq<Index>,
    extenders: Seq<Extender>,
    before: Seq<(P, i32)>,
    after: Seq<(P, Vec<u32>, i32)>,
    origin: Seq<int>,
    time: u64,
) -> bool {
    &&& selects(origin, before.len() as int)
    &&& origin.len() == after.len()
    &&& forall|j: int|
        0 <= j < after.len() ==> {
            let was = before[origin[j]];
            &&& (#[trigger] after[j]).0 == was.0
            &&& after[j].2 == was.1
            &&& extends(indices, extenders, was.0.nodes(), time)
            &&& after[j].1@ == joined(indices, extenders, was.0.nodes(), time)
        }
    &&& forall|i: int|
        0 <= i < before.len() && !origin.contains(i) ==> !extends(
            indices,
            extenders,
            (#[trigger] before[i]).0.nodes(),
            time,
        )
}

/// The indices of `a` answer every query as those of `b`.
pub open spec fn all_agree(a: Seq<Index>, b: Seq<Index>) -> bool {
    &&& a.len() == b.len()
    &&& forall|w: int| 0 <= w < a.len() ==> (#[trigger] a[w]).agrees(b[w])
}

/// Each index is in order.
pub open spec fn all_wf(indices: Seq<Index>) -> bool {
    forall|w: int| 0 <= w < indices.len() ==> (#[trigger] indices[w]).wf()
}

/// Agreement carries over.
pub proof fn lemma_agree_trans(a: Seq<Index>, b: Seq<Index>, c: Seq<Index>)
    requires
        all_agree(a, b),
        all_agree(b, c),
    ensures
        all_agree(a, c),
{
    assert forall|w: int| 0 <= w < a.len() implies (#[trigger] a[w]).agrees(c[w]) by {
        assert(a[w].agrees(b[w]));
        assert(b[w].agrees(c[w]));
        assert forall|k: u32, v: u32| #[trigger] a[w].committed(k, v) == c[w].committed(k, v) by {
            assert(b[w].committed(k, v) == c[w].committed(k, v));
        }
        assert forall|k: u32| #[trigger] a[w].tally(k) == c[w].tally(k) by {
            assert(b[w].tally(k) == c[w].tally(k));
        }
    }
}

/// Indices that agree give the same estimates.
pub proof fn lemma_agree_best(
    a: Seq<Index>,
    b: Seq<Index>,
    extenders: Seq<Extender>,
    nodes: Seq<Node>,
    upto: int,
)
    requires
        all_agree(a, b),
        0 <= upto <= extenders.len(),
        forall|e: int| 0 <= e < extenders.len() ==> (#[trigger] extenders[e]).source < a.len(),
    ensures
        best(a, extenders, nodes, upto) == best(b, extenders, nodes, upto),
    decreases upto,
{
    if upto > 0 {
        lemma_agree_best(a, b, extenders, nodes, upto - 1);
        let e = extenders[upto - 1];
        assert(a[e.source as int].agrees(b[e.source as int]));
        let key = nodes[e.attribute as int];
        assert(a[e.source as int].tally(key) == b[e.source as int].tally(key));
    }
}

/// Indices that agree leave the same of a list.
pub proof fn lemma_agree_filtered(
    a: Seq<Index>,
    b: Seq<Index>,
    extenders: Seq<Extender>,
    nodes: Seq<Node>,
    list: Seq<u32>,
    chosen: int,
    upto: int,
    time: u64,
)
    requires
        all_agree(a, b),
        0 <= upto <= extenders.len(),
        forall|e: int| 0 <= e < extenders.len() ==> (#[trigger] extenders[e]).source < a.len(),
    ensures
        filtered(a, extenders, nodes, list, chosen, upto, time) == filtered(
            b,
            extenders,
            nodes,
            list,
            chosen,
            upto,
            time,
        ),
    decreases upto,
{
    if upto > 0 {
        lemma_agree_filtered(a, b, extenders, nodes, list, chosen, upto - 1, time);
        let e = extenders[upto - 1];
        assert(a[e.source as int].agrees(b[e.source as int]));
        a[e.source as int].lemma_agrees_survivors(
            b[e.source as int],
            filtered(a, extenders, nodes, list, chosen, upto - 1, time),
            nodes[e.attribute as int],
            e.valid(time),
        );
    }
}

/// Indices that agree extend a prefix alike.
pub proof fn lemma_agree_extensions(
    a: Seq<Index>,
    b: Seq<Index>,
    extenders: Seq<Extender>,
    nodes: Seq<Node>,
    chosen: int,
    time: u64,
)
    requires
        all_agree(a, b),
        0 <= chosen < extenders.len(),
        forall|e: int| 0 <= e < extenders.len() ==> (#[trigger] extenders[e]).source < a.len(),
    ensures
        extensions(a, extenders, nodes, chosen, time) == extensions(
            b,
            extenders,
            nodes,
            chosen,
            time,
        ),
{
    let e = extenders[chosen];
    let key = nodes[e.attribute as int];
    assert(a[e.source as int].agrees(b[e.source as int]));
    a[e.source as int].lemma_agrees_proposal(b[e.source as int], key, e.valid(time));
    lemma_agree_filtered(
        a,
        b,
        extenders,
        nodes,
        e.proposal(a, nodes, time),
        chosen,
        extenders.len() as int,
        time,
    );
}

/// Indices that agree extend the same prefixes, and alike.
pub proof fn lemma_agree_joined(
    a: Seq<Index>,
    b: Seq<Index>,
    extenders: Seq<Extender>,
    nodes: Seq<Node>,
    time: u64,
)
    requires
        all_agree(a, b),
        extenders.len() > 0,
        forall|e: int| 0 <= e < extenders.len() ==> (#[trigger] extenders[e]).source < a.len(),
    ensures
        extends(a, extenders, nodes, time) == extends(b, extenders, nodes, time),
        joined(a, extenders, nodes, time) == joined(b, extenders, nodes, time),
{
    lemma_agree_best(a, b, extenders, nodes, extenders.len() as int);
    lemma_best_ident(a, extenders, nodes, extenders.len() as int);
    lemma_agree_extensions(a, b, extenders, nodes, chosen_for(a, extenders, nodes), time);
}

/// The extender with the least estimate is one of the extenders.
pub proof fn lemma_best_ident(
    indices: Seq<Index>,
    extenders: Seq<Extender>,
    nodes: Seq<Node>,
    upto: int,
)
    requires
        0 < upto,
    ensures
        best(indices, extenders, nodes, upto).1 < upto,
    decreases upto,
{
    if upto > 1 {
        lemma_best_ident(indices, extenders, nodes, upto - 1);
    } else {
        assert(best(indices, extenders, nodes, 0) == (u64::MAX, 0u64));
    }
}

/// Nothing is left of an empty list.
pub proof fn lemma_filtered_empty(
    indices: Seq<Index>,
    extenders: Seq<Extender>,
    nodes: Seq<Node>,
    list: Seq<u32>,
    chosen: int,
    from: int,
    upto: int,
    time: u64,
)
    requires
        0 <= from <= upto,
        filtered(indices, extenders, nodes, list, chosen, from, time).len() == 0,
    ensures
        filtered(indices, extenders, nodes, list, chosen, upto, time).len() == 0,
    decreases upto - from,
{
    if from < upto {
        lemma_filtered_empty(indices, extenders, nodes, list, chosen, from, upto - 1, time);
    }
}

/// Proposes with the extender at `chosen` for each prefix and lets all
/// other extenders restrict what it proposed. The prefixes that are left
/// without extensions are dropped; the second result names the positions of
/// the others.
fn complete<P: IndexNode>(
    indices: &mut Vec<Index>,
    part: Vec<(P, i32)>,
    extenders: &[Extender],
    chosen: usize,
    time: u64,
) -> (out: (Vec<(P, Vec<u32>, i32)>, Ghost<Seq<int>>))
    requires
        all_wf(old(indices)@),
        chosen < extenders.len(),
        forall|e: int, i: int|
            0 <= e < extenders.len() && 0 <= i < part.len() ==> (#[trigger] extenders[e]).fits(
                old(indices)@,
                (#[trigger] part[i]).0.nodes(),
            ),
        forall|e: int| 0 <= e < extenders.len() ==> (#[trigger] extenders[e]).source < old(indices).len(),
    ensures
        all_wf(final(indices)@),
        all_agree(final(indices)@, old(indices)@),
        selects(out.1@, part.len() as int),
        out.1@.len() == out.0@.len(),
        forall|j: int|
            0 <= j < out.0@.len() ==> {
                let was = part[out.1@[j]];
                &&& (#[trigger] out.0[j]).0 == was.0
                &&& out.0[j].2 == was.1
                &&& out.0[j].1@.len() > 0
                &&& out.0[j].1@ == extensions(old(indices)@, extenders@, was.0.nodes(), chosen as int, time)
            },
        forall|i: int|
            0 <= i < part.len() && !out.1@.contains(i) ==> extensions(
                old(indices)@,
                extenders@,
                (#[trigger] part[i]).0.nodes(),
                chosen as int,
                time,
            ).len() == 0,
{
    let ghost given = indices@;
    let count = extenders.len();
    let proposer = extenders[chosen];
    let attribute = proposer.attribute;
    let logic = |p: &P| -> (k: u32)
        requires
            attribute < p.nodes().len(),
        ensures
            k == p.nodes()[attribute as int],
        { p.index(attribute) };
    let extender = IndexExtender { source: proposer.source, logic, inclusive: proposer.inclusive };
    proof {
        assert forall|i: int| 0 <= i < part.len() implies call_requires(
            extender.logic,
            (&(#[trigger] part[i]).0,),
        ) by {
            assert(extenders[chosen as int].fits(given, part[i].0.nodes()));
        }
        assert(given[proposer.source as int].wf());
    }
    let ghost source = proposer.source as int;
    let mut rows = extender.propose(&mut indices[proposer.source], part, time);
    let ghost mut origin = Seq::<int>::empty();
    proof {
        let now = indices@[source];
        let (first, keys) = choose|origin: Seq<int>, keys: Seq<u32>|
            extender.proposes(now, part@, rows@, origin, keys, time);
        origin = first;
        assert forall|w: int| 0 <= w < indices@.len() implies (#[trigger] indices@[w]).agrees(
            given[w],
        ) && indices@[w].wf() by {
            if w != source {
                assert(indices@[w] == given[w]);
                assert(given[w].wf());
            }
        }
        assert forall|j: int| 0 <= j < rows@.len() implies {
            let was = part[origin[j]];
            &&& (#[trigger] rows[j]).0 == was.0
            &&& rows[j].2 == was.1
            &&& rows[j].1@.len() > 0
            &&& ascending(rows[j].1@)
            &&& rows[j].1@ == filtered(
                given,
                extenders@,
                was.0.nodes(),
                proposer.proposal(given, was.0.nodes(), time),
                chosen as int,
                0,
                time,
            )
        } by {
            let key = keys[j];
            assert(call_ensures(extender.logic, (&part@[origin[j]].0,), key));
            now.lemma_proposal_unique(rows@[j].1@, key, extender.valid(time));
            now.lemma_agrees_proposal(given[source], key, extender.valid(time));
        }
        assert forall|i: int| 0 <= i < part.len() && !origin.contains(i) implies filtered(
            given,
            extenders@,
            (#[trigger] part@[i]).0.nodes(),
            proposer.proposal(given, part@[i].0.nodes(), time),
            chosen as int,
            0,
            time,
        ).len() == 0 by {
            assert(extender.proposes_none(now, part@[i], time));
            let key = choose|key: u32|
                #[trigger] call_ensures(extender.logic, (&part@[i].0,), key) && now.is_proposal(
                    Seq::empty(),
                    key,
                    extender.valid(time),
                );
            now.lemma_proposal_unique(Seq::empty(), key, extender.valid(time));
            now.lemma_agrees_proposal(given[source], key, extender.valid(time));
        }
    }
    let mut other: usize = 0;
    while other < count
        invariant
            count == extenders.len(),
            other <= count,
            chosen < count,
            proposer == extenders[chosen as int],
            indices@.len() == given.len(),
            forall|e: int| 0 <= e < extenders.len() ==> (#[trigger] extenders[e]).source < given.len(),
            all_wf(indices@),
            all_agree(indices@, given),
            forall|e: int, i: int|
                0 <= e < extenders.len() && 0 <= i < part.len() ==> (#[trigger] extenders[e]).fits(
                    given,
                    (#[trigger] part[i]).0.nodes(),
                ),
            selects(origin, part.len() as int),
            origin.len() == rows@.len(),
            forall|j: int|
                0 <= j < rows@.len() ==> {
                    let was = part[origin[j]];
                    &&& (#[trigger] rows[j]).0 == was.0
                    &&& rows[j].2 == was.1
                    &&& rows[j].1@.len() > 0
                    &&& ascending(rows[j].1@)
                    &&& rows[j].1@ == filtered(
                        given,
                        extenders@,
                        was.0.nodes(),
                        proposer.proposal(given, was.0.nodes(), time),
                        chosen as int,
                        other as int,
                        time,
                    )
                },
            forall|i: int|
                0 <= i < part.len() && !origin.contains(i) ==> filtered(
                    given,
                    extenders@,
                    (#[trigger] part[i]).0.nodes(),
                    proposer.proposal(given, part[i].0.nodes(), time),
                    chosen as int,
                    other as int,
                    time,
                ).len() == 0,
        decreases count - other,
    {
        if other != chosen {
            let current = extenders[other];
            let attribute = current.attribute;
            let logic = |p: &P| -> (k: u32)
                requires
                    attribute < p.nodes().len(),
                ensures
                    k == p.nodes()[attribute as int],
                { p.index(attribute) };
            let extender = IndexExtender {
                source: current.source,
                logic,
                inclusive: current.inclusive,
            };
            let ghost source = current.source as int;
            let ghost before = rows@;
            let ghost held = origin;
            proof {
                assert forall|i: int| 0 <= i < rows@.len() implies call_requires(
                    extender.logic,
                    (&(#[trigger] rows@[i]).0,),
                ) by {
                    assert(extenders[other as int].fits(given, part[held[i]].0.nodes()));
                }
                assert(extenders[other as int].source < given.len());
                assert(indices@[source].wf());
            }
            {
                let ghost entered = indices@;
                extender.intersect(&mut indices[current.source], &mut rows, time);
                proof {
                    let now = indices@[source];
                    let (next, keys) = choose|origin: Seq<int>, keys: Seq<u32>|
                        extender.intersects(now, before, rows@, origin, keys, time);
                    origin = composed(held, next);
                    lemma_composed(held, next, part.len() as int);
                    assert forall|w: int| 0 <= w < indices@.len() implies (
                    #[trigger] indices@[w]).agrees(given[w]) && indices@[w].wf() by {
                        assert(entered[w].agrees(given[w]));
                        if w != source {
                            assert(indices@[w] == entered[w]);
                            assert(entered[w].wf());
                        } else {
                            assert(now.agrees(entered[w]));
                            assert forall|k: u32, v: u32| #[trigger]
                                now.committed(k, v) == given[w].committed(k, v) by {
                                assert(entered[w].committed(k, v) == given[w].committed(k, v));
                            }
                            assert forall|k: u32| #[trigger] now.tally(k) == given[w].tally(k) by {
                                assert(entered[w].tally(k) == given[w].tally(k));
                            }
                        }
                    }
                    assert forall|j: int| 0 <= j < rows@.len() implies {
                        let was = part[origin[j]];
                        &&& (#[trigger] rows[j]).0 == was.0
                        &&& rows[j].2 == was.1
                        &&& rows[j].1@.len() > 0
                        &&& ascending(rows[j].1@)
                        &&& rows[j].1@ == filtered(
                            given,
                            extenders@,
                            was.0.nodes(),
                            proposer.proposal(given, was.0.nodes(), time),
                            chosen as int,
                            other + 1,
                            time,
                        )
                    } by {
                        let m = next[j];
                        let key = keys[j];
                        assert(call_ensures(extender.logic, (&before[m].0,), key));
                        assert(now.intersected(before[m], rows@[j], key, extender.valid(time)));
                        now.lemma_agrees_survivors(
                            given[source],
                            before[m].1@,
                            key,
                            extender.valid(time),
                        );
                        lemma_survivors_ascend(now, before[m].1@, key, extender.valid(time));
                        assert(origin[j] == held[m]);
                    }
                    assert forall|i: int|
                        0 <= i < part.len() && !origin.contains(i) implies filtered(
                        given,
                        extenders@,
                        (#[trigger] part[i]).0.nodes(),
                        proposer.proposal(given, part[i].0.nodes(), time),
                        chosen as int,
                        other + 1,
                        time,
                    ).len() == 0 by {
                        if held.contains(i) {
                            let m = choose|m: int|
                                0 <= m < held.len() && held[m] == i && !next.contains(m);
                            assert(extender.intersects_none(now, before[m], time));
                            let key = choose|key: u32|
                                #[trigger] call_ensures(extender.logic, (&before[m].0,), key)
                                    && now.survivors(before[m].1@, key, extender.valid(time)).len()
                                    == 0;
                            now.lemma_agrees_survivors(
                                given[source],
                                before[m].1@,
                                key,
                                extender.valid(time),
                            );
                        } else {
                            lemma_filtered_empty(
                                given,
                                extenders@,
                                part[i].0.nodes(),
                                proposer.proposal(given, part[i].0.nodes(), time),
                                chosen as int,
                                other as int,
                                other + 1,
                                time,
                            );
                        }
                    }
                }
            }
        }
        other += 1;
    }
    (rows, Ghost(origin))
}

/// Labels each prefix with the least estimate of its extensions and the
/// extender that gives it. The prefixes whose estimate is zero are
/// dropped; the second result names the positions of the others.
fn label<P: IndexNode>(indices: &Vec<Index>, prefixes: Vec<(P, i32)>, extenders: &[Extender]) -> (out:
    (Vec<(P, u64, u64, i32)>, Ghost<Seq<int>>))
    requires
        all_wf(indices@),
        forall|e: int, i: int|
            0 <= e < extenders.len() && 0 <= i < prefixes.len() ==> (#[trigger] extenders[e]).fits(
                indices@,
                (#[trigger] prefixes[i]).0.nodes(),
            ),
        forall|e: int| 0 <= e < extenders.len() ==> (#[trigger] extenders[e]).source < indices.len(),
    ensures
        selects(out.1@, prefixes.len() as int),
        out.1@.len() == out.0@.len(),
        forall|j: int|
            0 <= j < out.0@.len() ==> {
                let was = prefixes[out.1@[j]];
                &&& (#[trigger] out.0[j]).0 == was.0
                &&& out.0[j].3 == was.1
                &&& out.0[j].1 > 0
                &&& (out.0[j].1, out.0[j].2) == best(
                    indices@,
                    extenders@,
                    was.0.nodes(),
                    extenders.len() as int,
                )
            },
        forall|i: int|
            0 <= i < prefixes.len() && !out.1@.contains(i) ==> best(
                indices@,
                extenders@,
                (#[trigger] prefixes[i]).0.nodes(),
                extenders.len() as int,
            ).0 == 0,
{
    let mut rows: Vec<(P, u64, u64, i32)> = Vec::new();
    for pair in it: prefixes
        invariant
            it.seq() == prefixes@,
            rows@.len() == it.index(),
            forall|i: int|
                0 <= i < rows@.len() ==> (#[trigger] rows[i]).0 == prefixes[i].0 && rows[i].3
                    == prefixes[i].1 && rows[i].1 == u64::MAX && rows[i].2 == 0,
    {
        rows.push((pair.0, u64::MAX, 0, pair.1));
    }
    let ghost mut origin = Seq::new(prefixes.len() as nat, |i: int| i);
    let count = extenders.len();
    let mut which: usize = 0;
    proof {
        assert forall|i: int| 0 <= i < prefixes.len() implies origin.contains(i) by {
            assert(origin[i] == i);
        }
    }
    while which < count
        invariant
            count == extenders.len(),
            which <= count,
            all_wf(indices@),
            forall|e: int, i: int|
                0 <= e < extenders.len() && 0 <= i < prefixes.len() ==> (
                #[trigger] extenders[e]).fits(indices@, (#[trigger] prefixes[i]).0.nodes()),
            forall|e: int|
                0 <= e < extenders.len() ==> (#[trigger] extenders[e]).source < indices.len(),
            selects(origin, prefixes.len() as int),
            origin.len() == rows@.len(),
            forall|j: int|
                0 <= j < rows@.len() ==> {
                    let was = prefixes[origin[j]];
                    &&& (#[trigger] rows[j]).0 == was.0
                    &&& rows[j].3 == was.1
                    &&& rows[j].1 > 0
                    &&& (rows[j].1, rows[j].2) == best(indices@, extenders@, was.0.nodes(), which as int)
                },
            forall|i: int|
                0 <= i < prefixes.len() && !origin.contains(i) ==> best(
                    indices@,
                    extenders@,
                    (#[trigger] prefixes[i]).0.nodes(),
                    which as int,
                ).0 == 0,
        decreases count - which,
    {
        let current = extenders[which];
        let attribute = current.attribute;
        let logic = |p: &P| -> (k: u32)
            requires
                attribute < p.nodes().len(),
            ensures
                k == p.nodes()[attribute as int],
            { p.index(attribute) };
        let extender = IndexExtender { source: current.source, logic, inclusive: current.inclusive };
        let ghost before = rows@;
        let ghost held = origin;
        proof {
            assert forall|i: int| 0 <= i < rows@.len() implies call_requires(
                extender.logic,
                (&(#[trigger] rows@[i]).0,),
            ) by {
                assert(extenders[which as int].fits(indices@, prefixes[held[i]].0.nodes()));
            }
            assert(extenders[which as int].source < indices.len());
            assert(indices@[current.source as int].wf());
        }
        let ident = which as u64;
        extender.count(&indices[current.source], &mut rows, ident);
        proof {
            let index = indices@[current.source as int];
            let (next, keys) = choose|origin: Seq<int>, keys: Seq<u32>|
                extender.counts(index, before, rows@, origin, keys, ident);
            origin = composed(held, next);
            lemma_composed(held, next, prefixes.len() as int);
            assert forall|j: int| 0 <= j < rows@.len() implies {
                let was = prefixes[origin[j]];
                &&& (#[trigger] rows[j]).0 == was.0
                &&& rows[j].3 == was.1
                &&& rows[j].1 > 0
                &&& (rows[j].1, rows[j].2) == best(indices@, extenders@, was.0.nodes(), which + 1)
            } by {
                let m = next[j];
                let key = keys[j];
                assert(call_ensures(extender.logic, (&before[m].0,), key));
                assert(index.counted(before[m], rows@[j], key, ident));
                assert(origin[j] == held[m]);
                assert((before[m].1, before[m].2) == best(
                    indices@,
                    extenders@,
                    prefixes[held[m]].0.nodes(),
                    which as int,
                ));
            }
            assert forall|i: int| 0 <= i < prefixes.len() && !origin.contains(i) implies best(
                indices@,
                extenders@,
                (#[trigger] prefixes[i]).0.nodes(),
                which + 1,
            ).0 == 0 by {
                if held.contains(i) {
                    let m = choose|m: int| 0 <= m < held.len() && held[m] == i && !next.contains(m);
                    assert(extender.counts_none(index, before[m]));
                    let key = choose|key: u32|
                        #[trigger] call_ensures(extender.logic, (&before[m].0,), key) && (
                        index.estimate(key) == 0 || before[m].1 == 0);
                    assert((before[m].1, before[m].2) == best(
                        indices@,
                        extenders@,
                        prefixes[held[m]].0.nodes(),
                        which as int,
                    ));
                }
            }
        }
        which += 1;
    }
    (rows, Ghost(origin))
}

/// Parts the labeled prefixes by the extender that each is labeled with.
/// The second result names, for each part, the positions of its prefixes.
fn partition<P>(rows: Vec<(P, u64, u64, i32)>, parts: usize) -> (out: (
    Vec<Vec<(P, i32)>>,
    Ghost<Seq<Seq<int>>>,
))
    requires
        forall|i: int| 0 <= i < rows.len() ==> (#[trigger] rows[i]).2 < parts,
    ensures
        out.0@.len() == parts,
        out.1@.len() == parts,
        forall|c: int|
            0 <= c < parts ==> {
                &&& selects(#[trigger] out.1@[c], rows.len() as int)
                &&& out.1@[c].len() == out.0[c]@.len()
                &&& forall|j: int|
                    0 <= j < out.0[c]@.len() ==> {
                        let was = rows[out.1@[c][j]];
                        &&& (#[trigger] out.0[c][j]).0 == was.0
                        &&& out.0[c][j].1 == was.3
                        &&& was.2 == c
                    }
            },
        forall|i: int| 0 <= i < rows.len() ==> out.1@[(#[trigger] rows[i]).2 as int].contains(i),
{
    let mut lists: Vec<Vec<(P, i32)>> = Vec::new();
    let mut c: usize = 0;
    while c < parts
        invariant
            c <= parts,
            lists@.len() == c,
            forall|k: int| 0 <= k < c ==> (#[trigger] lists[k])@.len() == 0,
        decreases parts - c,
    {
        lists.push(Vec::new());
        c += 1;
    }
    let ghost mut origins = Seq::new(parts as nat, |c: int| Seq::<int>::empty());
    for row in it: rows
        invariant
            it.seq() == rows@,
            lists@.len() == parts,
            origins.len() == parts,
            forall|i: int| 0 <= i < rows.len() ==> (#[trigger] rows[i]).2 < parts,
            forall|c: int|
                0 <= c < parts ==> {
                    &&& (#[trigger] origins[c]).len() == lists[c]@.len()
                    &&& forall|j: int| 0 <= j < origins[c].len() ==> 0 <= #[trigger] origins[c][j] < it.index()
                    &&& forall|a: int, b: int|
                        0 <= a < b < origins[c].len() ==> #[trigger] origins[c][a]
                            < #[trigger] origins[c][b]
                    &&& forall|j: int|
                        0 <= j < lists[c]@.len() ==> {
                            let was = rows[origins[c][j]];
                            &&& (#[trigger] lists[c][j]).0 == was.0
                            &&& lists[c][j].1 == was.3
                            &&& was.2 == c
                        }
                },
            forall|i: int| 0 <= i < it.index() ==> origins[(#[trigger] rows[i]).2 as int].contains(i),
    {
        let ghost at = it.index() as int;
        let ghost before = origins;
        let ghost held = lists@;
        let part = row.2 as usize;
        proof {
            assert(rows[at].2 < parts);
        }
        lists[part].push((row.0, row.3));
        proof {
            origins = origins.update(part as int, origins[part as int].push(at));
            assert forall|c: int| 0 <= c < parts implies {
                &&& (#[trigger] origins[c]).len() == lists[c]@.len()
                &&& forall|j: int| 0 <= j < origins[c].len() ==> 0 <= #[trigger] origins[c][j] < at + 1
                &&& forall|a: int, b: int|
                    0 <= a < b < origins[c].len() ==> #[trigger] origins[c][a]
                        < #[trigger] origins[c][b]
                &&& forall|j: int|
                    0 <= j < lists[c]@.len() ==> {
                        let was = rows[origins[c][j]];
                        &&& (#[trigger] lists[c][j]).0 == was.0
                        &&& lists[c][j].1 == was.3
                        &&& was.2 == c
                    }
            } by {
                assert(before[c].len() == held[c]@.len());
                if c != part {
                    assert(lists[c] == held[c]);
                    assert forall|j: int| 0 <= j < lists[c]@.len() implies {
                        let was = rows[origins[c][j]];
                        &&& (#[trigger] lists[c][j]).0 == was.0
                        &&& lists[c][j].1 == was.3
                        &&& was.2 == c
                    } by {
                        assert(lists[c][j] == held[c][j]);
                    }
                } else {
                    assert forall|j: int| 0 <= j < lists[c]@.len() implies {
                        let was = rows[origins[c][j]];
                        &&& (#[trigger] lists[c][j]).0 == was.0
                        &&& lists[c][j].1 == was.3
                        &&& was.2 == c
                    } by {
                        if j < held[c]@.len() {
                            assert(lists[c][j] == held[c][j]);
                        }
                    }
                }
            }
            assert forall|i: int| 0 <= i < at + 1 implies origins[(#[trigger] rows[i]).2 as int].contains(
                i,
            ) by {
                let c = rows[i].2 as int;
                if i < at {
                    let j = choose|j: int| 0 <= j < before[c].len() && before[c][j] == i;
                    assert(origins[c][j] == i);
                } else {
                    assert(origins[c][origins[c].len() - 1] == i);
                }
            }
        }
    }
    (lists, Ghost(origins))
}

/// Extends a batch of prefixes by one attribute.
///
/// With several extenders, each prefix is labeled with the least number of
/// extensions that an extender estimates for it, and dropped if that is
/// zero. The extender that gave the estimate proposes its extensions, and
/// the other extenders restrict them in turn. A single extender proposes
/// without being asked for an estimate. Prefixes that are left without
/// extensions are dropped. With no extender nothing is returned.
///
/// The indices answer every query as before.
pub fn extend<P: IndexNode>(
    indices: &mut Vec<Index>,
    prefixes: Vec<(P, i32)>,
    extenders: &[Extender],
    time: u64,
) -> (out: Vec<(P, Vec<u32>, i32)>)
    requires
        all_wf(old(indices)@),
        forall|e: int, i: int|
            0 <= e < extenders.len() && 0 <= i < prefixes.len() ==> (#[trigger] extenders[e]).fits(
                old(indices)@,
                (#[trigger] prefixes[i]).0.nodes(),
            ),
        forall|e: int| 0 <= e < extenders.len() ==> (#[trigger] extenders[e]).source < old(indices).len(),
    ensures
        all_wf(final(indices)@),
        all_agree(final(indices)@, old(indices)@),
        extenders.len() == 0 ==> out@.len() == 0,
        extenders.len() > 0 ==> exists|origin: Seq<int>|
            joins(final(indices)@, extenders@, prefixes@, out@, origin, time),
{
    let ghost given = indices@;
    let count = extenders.len();
    if count == 0 {
        proof {
            assert forall|w: int| 0 <= w < indices@.len() implies (#[trigger] indices@[w]).agrees(
                given[w],
            ) by {}
        }
        return Vec::new();
    }
    let mut results: Vec<(P, Vec<u32>, i32)> = Vec::new();
    let ghost mut origin = Seq::<int>::empty();
    if count == 1 {
        let (rows, Ghost(kept)) = complete(indices, prefixes, extenders, 0, time);
        results = rows;
        proof {
            origin = kept;
            assert forall|i: int| 0 <= i < prefixes.len() implies outcome(
                given,
                extenders@,
                prefixes@,
                results@,
                origin,
                i,
                time,
            ) by {
                if origin.contains(i) {
                    let j = choose|j: int| 0 <= j < origin.len() && origin[j] == i;
                    assert(results[j].0 == prefixes[origin[j]].0);
                }
            }
        }
    } else {
        let (labeled, Ghost(alive)) = label(indices, prefixes, extenders);
        proof {
            assert forall|i: int| 0 <= i < labeled.len() implies (#[trigger] labeled[i]).2
                < count by {
                lemma_best_ident(given, extenders@, prefixes[alive[i]].0.nodes(), count as int);
            }
        }
        let (parts, Ghost(origins)) = partition(labeled, count);
        let mut chosen: usize = 0;
        for part in it: parts
            invariant
                it.seq() == parts@,
                chosen == it.index(),
                count == extenders.len(),
                count >= 2,
                count == parts@.len(),
                origins.len() == count,
                indices@.len() == given.len(),
                all_wf(indices@),
                all_agree(indices@, given),
                forall|e: int, i: int|
                    0 <= e < extenders.len() && 0 <= i < prefixes.len() ==> (
                    #[trigger] extenders[e]).fits(given, (#[trigger] prefixes[i]).0.nodes()),
                forall|e: int|
                    0 <= e < extenders.len() ==> (#[trigger] extenders[e]).source < given.len(),
                selects(alive, prefixes.len() as int),
                alive.len() == labeled@.len(),
                forall|j: int|
                    0 <= j < labeled@.len() ==> {
                        let was = prefixes[alive[j]];
                        &&& (#[trigger] labeled[j]).0 == was.0
                        &&& labeled[j].3 == was.1
                        &&& labeled[j].1 > 0
                        &&& labeled[j].2 < count
                        &&& (labeled[j].1, labeled[j].2) == best(
                            given,
                            extenders@,
                            was.0.nodes(),
                            count as int,
                        )
                    },
                forall|c: int|
                    0 <= c < count ==> {
                        &&& selects(#[trigger] origins[c], labeled.len() as int)
                        &&& origins[c].len() == parts[c]@.len()
                        &&& forall|j: int|
                            0 <= j < parts[c]@.len() ==> {
                                let was = labeled[origins[c][j]];
                                &&& (#[trigger] parts[c][j]).0 == was.0
                                &&& parts[c][j].1 == was.3
                                &&& was.2 == c
                            }
                    },
                forall|m: int|
                    0 <= m < labeled.len() ==> origins[(#[trigger] labeled[m]).2 as int].contains(m),
                selects(origin, prefixes.len() as int),
                origin.len() == results@.len(),
                forall|j: int|
                    0 <= j < origin.len() ==> alive.contains(#[trigger] origin[j]) && best(
                        given,
                        extenders@,
                        prefixes[origin[j]].0.nodes(),
                        count as int,
                    ).1 < chosen,
                forall|m: int|
                    0 <= m < labeled@.len() && (#[trigger] labeled[m]).2 < chosen ==> outcome(
                        given,
                        extenders@,
                        prefixes@,
                        results@,
                        origin,
                        alive[m],
                        time,
                    ),
        {
            let ghost entered = indices@;
            let ghost held = origin;
            let ghost before = results@;
            let ghost local = origins[chosen as int];
            proof {
                assert(part == parts[chosen as int]);
                assert forall|e: int, i: int|
                    0 <= e < extenders.len() && 0 <= i < part.len() implies (
                #[trigger] extenders[e]).fits(entered, (#[trigger] part[i]).0.nodes()) by {
                    let m = local[i];
                    assert(parts[chosen as int][i].0 == labeled[m].0);
                    assert(labeled[m].0 == prefixes[alive[m]].0);
                    assert(extenders[e].fits(given, prefixes[alive[m]].0.nodes()));
                }
            }
            let (mut rows, Ghost(kept)) = complete(indices, part, extenders, chosen, time);
            let ghost added = rows@;
            results.append(&mut rows);
            proof {
                let more = Seq::new(kept.len(), |j: int| alive[local[kept[j]]]);
                origin = held + more;
                assert forall|w: int| 0 <= w < indices@.len() implies (
                #[trigger] indices@[w]).agrees(given[w]) by {
                    assert(indices@[w].agrees(entered[w]));
                    assert(entered[w].agrees(given[w]));
                    assert forall|k: u32, v: u32| #[trigger]
                        indices@[w].committed(k, v) == given[w].committed(k, v) by {
                        assert(entered[w].committed(k, v) == given[w].committed(k, v));
                    }
                    assert forall|k: u32| #[trigger]
                        indices@[w].tally(k) == given[w].tally(k) by {
                        assert(entered[w].tally(k) == given[w].tally(k));
                    }
                }
                assert forall|j: int| 0 <= j < more.len() implies alive.contains(
                    #[trigger] more[j],
                ) && best(given, extenders@, prefixes[more[j]].0.nodes(), count as int).1 == chosen && 0
                    <= more[j] < prefixes.len() by {
                    let m = local[kept[j]];
                    assert(labeled[m].2 == chosen) by {
                        assert(parts[chosen as int][kept[j]].0 == labeled[m].0);
                    }
                    assert(alive[m] == more[j]);
                }
                assert forall|j: int| 0 <= j < origin.len() implies alive.contains(
                    #[trigger] origin[j],
                ) && best(given, extenders@, prefixes[origin[j]].0.nodes(), count as int).1 < chosen + 1
                    && 0 <= origin[j] < prefixes.len() by {
                    if j < held.len() {
                        assert(origin[j] == held[j]);
                    } else {
                        assert(origin[j] == more[j - held.len()]);
                    }
                }
                assert forall|a: int, b: int| 0 <= a < b < origin.len() implies #[trigger] origin[a]
                    != #[trigger] origin[b] by {
                    if b < held.len() {
                        assert(held[a] != held[b]);
                    } else if a >= held.len() {
                        let ja = a - held.len();
                        let jb = b - held.len();
                        assert(origin[a] == more[ja] && origin[b] == more[jb]);
                        assert(kept[ja] != kept[jb]);
                        lemma_distinct(local, kept[ja], kept[jb]);
                        lemma_distinct(alive, local[kept[ja]], local[kept[jb]]);
                    } else {
                        assert(origin[a] == held[a]);
                        assert(origin[b] == more[b - held.len()]);
                    }
                }
                assert forall|m: int|
                    0 <= m < labeled@.len() && (#[trigger] labeled[m]).2 < chosen + 1 implies outcome(
                    given,
                    extenders@,
                    prefixes@,
                    results@,
                    origin,
                    alive[m],
                    time,
                ) by {
                    let i = alive[m];
                    let was = prefixes[i];
                    if labeled[m].2 < chosen {
                        assert(outcome(given, extenders@, prefixes@, before, held, i, time));
                        if held.contains(i) {
                            let j = choose|j: int|
                                0 <= j < held.len() && held[j] == i && before[j].0 == was.0
                                    && before[j].2 == was.1 && before[j].1@ == joined(
                                    given,
                                    extenders@,
                                    was.0.nodes(),
                                    time,
                                );
                            assert(origin[j] == i);
                            assert(results[j] == before[j]);
                        } else {
                            if origin.contains(i) {
                                let j = choose|j: int| 0 <= j < origin.len() && origin[j] == i;
                                assert(origin[j] == more[j - held.len()]);
                            }
                        }
                    } else {
                        // the prefix was given to this extender
                        assert(origins[chosen as int].contains(m));
                        let k = choose|k: int| 0 <= k < local.len() && local[k] == m;
                        assert(part[k].0 == labeled[m].0);
                        assert(labeled[m].0 == was.0);
                        lemma_agree_extensions(
                            entered,
                            given,
                            extenders@,
                            was.0.nodes(),
                            chosen as int,
                            time,
                        );
                        assert(chosen_for(given, extenders@, was.0.nodes()) == chosen);
                        if kept.contains(k) {
                            let j = choose|j: int| 0 <= j < kept.len() && kept[j] == k;
                            assert(more[j] == i);
                            assert(origin[held.len() + j] == i);
                            assert(results[held.len() + j] == added[j]);
                            assert(added[j].0 == part[kept[j]].0);
                        } else {
                            if origin.contains(i) {
                                let j = choose|j: int| 0 <= j < origin.len() && origin[j] == i;
                                if j < held.len() {
                                    assert(held[j] == i);
                                } else {
                                    let jj = j - held.len();
                                    assert(more[jj] == alive[m]);
                                    lemma_distinct(alive, local[kept[jj]], m);
                                    lemma_distinct(local, kept[jj], k);
                                }
                            }
                        }
                    }
                }
            }
            chosen += 1;
        }
        proof {
            assert forall|i: int| 0 <= i < prefixes.len() implies outcome(
                given,
                extenders@,
                prefixes@,
                results@,
                origin,
                i,
                time,
            ) by {
                if alive.contains(i) {
                    let m = choose|m: int| 0 <= m < alive.len() && alive[m] == i;
                    assert(labeled[m].2 < count);
                } else {
                    if origin.contains(i) {
                        let j = choose|j: int| 0 <= j < origin.len() && origin[j] == i;
                        assert(alive.contains(origin[j]));
                    }
                }
            }
        }
    }
    proof {
        lemma_outcomes(given, indices@, extenders@, prefixes@, results@, origin, time);
    }
    results
}

/// What became of the prefix at `i`: it is extended and stands in `after`
/// with its extensions, at a position that `origin` names, or it is not
/// extended and `origin` does not name it.
pub open spec fn outcome<P: IndexNode>(
    indices: Seq<Index>,
    extenders: Seq<Extender>,
    before: Seq<(P, i32)>,
    after: Seq<(P, Vec<u32>, i32)>,
    origin: Seq<int>,
    i: int,
    time: u64,
) -> bool {
    let was = before[i];
    if origin.contains(i) {
        &&& extends(indices, extenders, was.0.nodes(), time)
        &&& exists|j: int|
            0 <= j < origin.len() && origin[j] == i && after[j].0 == was.0 && after[j].2 == was.1
                && after[j].1@ == joined(indices, extenders, was.0.nodes(), time)
    } else {
        !extends(indices, extenders, was.0.nodes(), time)
    }
}

/// Positions that are named once only differ.
proof fn lemma_distinct(origin: Seq<int>, a: int, b: int)
    requires
        0 <= a < origin.len(),
        0 <= b < origin.len(),
        a != b,
        forall|i: int, j: int|
            0 <= i < j < origin.len() ==> #[trigger] origin[i] != #[trigger] origin[j],
    ensures
        origin[a] != origin[b],
{
    if a < b {
        assert(origin[a] != origin[b]);
    } else {
        assert(origin[b] != origin[a]);
    }
}

/// The outcomes of all prefixes, told of indices that agree with those
/// they were found with.
proof fn lemma_outcomes<P: IndexNode>(
    given: Seq<Index>,
    now: Seq<Index>,
    extenders: Seq<Extender>,
    before: Seq<(P, i32)>,
    after: Seq<(P, Vec<u32>, i32)>,
    origin: Seq<int>,
    time: u64,
)
    requires
        all_agree(now, given),
        extenders.len() > 0,
        forall|e: int| 0 <= e < extenders.len() ==> (#[trigger] extenders[e]).source < given.len(),
        selects(origin, before.len() as int),
        origin.len() == after.len(),
        forall|i: int|
            0 <= i < before.len() ==> #[trigger] outcome(
                given,
                extenders,
                before,
                after,
                origin,
                i,
                time,
            ),
    ensures
        joins(now, extenders, before, after, origin, time),
{
    assert forall|w: int| 0 <= w < given.len() implies (#[trigger] given[w]).agrees(now[w]) by {
        assert(now[w].agrees(given[w]));
    }
    assert forall|j: int| 0 <= j < after.len() implies {
        let was = before[origin[j]];
        &&& (#[trigger] after[j]).0 == was.0
        &&& after[j].2 == was.1
        &&& extends(now, extenders, was.0.nodes(), time)
        &&& after[j].1@ == joined(now, extenders, was.0.nodes(), time)
    } by {
        let i = origin[j];
        assert(origin.contains(i));
        assert(outcome(given, extenders, before, after, origin, i, time));
        let at = choose|at: int|
            0 <= at < origin.len() && origin[at] == i && after[at].0 == before[i].0
                && after[at].2 == before[i].1 && after[at].1@ == joined(
                given,
                extenders,
                before[i].0.nodes(),
                time,
            );
        if at != j {
            lemma_distinct(origin, at, j);
        }
        lemma_agree_joined(given, now, extenders, before[i].0.nodes(), time);
    }
    assert forall|i: int| 0 <= i < before.len() && !origin.contains(i) implies !extends(
        now,
        extenders,
        (#[trigger] before[i]).0.nodes(),
        time,
    ) by {
        assert(outcome(given, extenders, before, after, origin, i, time));
        lemma_agree_joined(given, now, extenders, before[i].0.nodes(), time);
    }
}

} // verus!
