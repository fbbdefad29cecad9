//! Plain set intersection on sorted adjacency lists, the baseline that the
//! incremental joins are held against.

use vstd::prelude::*;
use crate::graph::{common, GraphTrait, GraphVector};
use crate::order::ascending;
use crate::{advance, advanced};

verus! {

/// The number of values in `list` below `bound`.
pub open spec fn below(list: Seq<u32>, bound: int) -> int
    decreases list.len(),
{
    if list.len() == 0 {
        0
    } else {
        below(list.drop_last(), bound) + if list.last() < bound {
            1int
        } else {
            0
        }
    }
}

/// There are no more values below a bound than values.
pub proof fn lemma_below_bounded(list: Seq<u32>, bound: int)
    ensures
        0 <= below(list, bound) <= list.len(),
    decreases list.len(),
{
    if list.len() > 0 {
        lemma_below_bounded(list.drop_last(), bound);
    }
}

/// A graph with, for each node, the number of its neighbors below it.
pub struct GraphMap {
    map: GraphVector,
    reverse: Vec<u32>,
}

impl GraphMap {
    /// The graph.
    pub closed spec fn graph(&self) -> GraphVector {
        self.map
    }

    /// For each node the number of its neighbors below it.
    pub closed spec fn lower(&self) -> Seq<u32> {
        self.reverse@
    }

    /// The graph is in order, and the count of each node is the number of
    /// its neighbors below it.
    pub open spec fn wf(&self) -> bool {
        &&& self.graph().wf()
        &&& self.lower().len() == self.graph().node_count()
        &&& self.graph().node_count() <= u32::MAX
        &&& forall|node: int|
            0 <= node < self.lower().len() ==> #[trigger] self.lower()[node] == below(
                self.graph().neighbors(node as nat),
                node,
            )
    }

    /// Counts for each node of `map` the neighbors below it. The graph must
    /// be in order, and its nodes and the neighbors of each of them no more
    /// than `u32::MAX`.
    pub fn new(map: GraphVector) -> (graph: Self)
        requires
            map.wf(),
            map.node_count() <= u32::MAX,
            forall|node: nat| #[trigger] map.neighbors(node).len() <= u32::MAX,
        ensures
            graph.wf(),
            graph.graph() == map,
    {
        let count = map.nodes();
        let mut reverse: Vec<u32> = Vec::new();
        let mut node: usize = 0;
        while node < count
            invariant
                map.wf(),
                count == map.node_count(),
                node <= count,
                reverse@.len() == node,
                forall|n: nat| #[trigger] map.neighbors(n).len() <= u32::MAX,
                forall|n: int|
                    0 <= n < node ==> #[trigger] reverse@[n] == below(map.neighbors(n as nat), n),
            decreases count - node,
        {
            let targets = map.edges(node);
            let mut lower: u32 = 0;
            let mut i: usize = 0;
            proof {
                assert(targets@.take(0) =~= Seq::empty());
                assert(map.neighbors(node as nat).len() <= u32::MAX);
            }
            while i < targets.len()
                invariant
                    i <= targets.len(),
                    targets@.len() <= u32::MAX,
                    lower == below(targets@.take(i as int), node as int),
                decreases targets.len() - i,
            {
                proof {
                    assert(targets@.take(i + 1).drop_last() =~= targets@.take(i as int));
                    assert(targets@.take(i + 1).last() == targets[i as int]);
                    lemma_below_bounded(targets@.take(i as int), node as int);
                }
                if (targets[i] as usize) < node {
                    lower += 1;
                }
                i += 1;
            }
            proof {
                assert(targets@.take(targets.len() as int) =~= targets@);
            }
            reverse.push(lower);
            node += 1;
        }
        GraphMap { map, reverse }
    }

    /// The number of nodes.
    pub fn nodes(&self) -> (count: u32)
        requires
            self.wf(),
        ensures
            count == self.graph().node_count(),
    {
        self.map.nodes() as u32
    }

    /// The neighbors of `node`.
    pub fn edges(&self, node: u32) -> (targets: &[u32])
        requires
            self.wf(),
        ensures
            targets@ == self.graph().neighbors(node as nat),
    {
        self.map.edges(node as usize)
    }

    /// The neighbors of `node` but for as many of the first as there are
    /// neighbors below it: in ascending neighbors, those not below `node`.
    pub fn forward(&self, node: u32) -> (targets: &[u32])
        requires
            self.wf(),
            node < self.graph().node_count(),
        ensures
            below(self.graph().neighbors(node as nat), node as int) <= self.graph().neighbors(
                node as nat,
            ).len(),
            targets@ == self.graph().neighbors(node as nat).subrange(
                below(self.graph().neighbors(node as nat), node as int),
                self.graph().neighbors(node as nat).len() as int,
            ),
    {
        let targets = self.map.edges(node as usize);
        proof {
            lemma_below_bounded(targets@, node as int);
            assert(self.lower()[node as int] == below(targets@, node as int));
        }
        let skip = self.reverse[node as usize] as usize;
        &targets[skip..targets.len()]
    }
}

/// The values that both ascending lists hold: the values of the shorter
/// list that the longer one holds too, in their order. Where one list is
/// far shorter than the other, its values are looked up by exponential
/// search; else the two are walked together.
pub fn intersect_and(aaa: &[u32], bbb: &[u32]) -> (both: Vec<u32>)
    requires
        ascending(aaa@),
        ascending(bbb@),
    ensures
        both@ == if aaa@.len() > bbb@.len() {
            common(bbb@, aaa@)
        } else {
            common(aaa@, bbb@)
        },
    decreases
            if aaa@.len() > bbb@.len() {
                1int
            } else {
                0
            },
{
    if aaa.len() > bbb.len() {
        return intersect_and(bbb, aaa);
    }
    let galloping = aaa.len() < bbb.len() / 16;
    let mut both: Vec<u32> = Vec::new();
    let mut rest = bbb;
    let mut i: usize = 0;
    proof {
        assert(aaa@.take(0) =~= Seq::empty());
        assert(rest@ =~= bbb@.subrange(0, bbb@.len() as int));
    }
    while i < aaa.len()
        invariant
            i <= aaa.len(),
            ascending(aaa@),
            ascending(bbb@),
            rest@.len() <= bbb@.len(),
            rest@ == bbb@.subrange(bbb@.len() - rest@.len(), bbb@.len() as int),
            forall|j: int| 0 <= j < bbb@.len() - rest@.len() ==> i > 0 && bbb[j] < aaa[i - 1],
            both@ == common(aaa@.take(i as int), bbb@),
        decreases aaa.len() - i,
    {
        let a = aaa[i];
        let ghost before = rest@;
        let ghost skipped = bbb@.len() - before.len();
        if galloping {
            rest = gallop_ge(rest, &a);
        } else {
            while rest.len() > 0 && rest[0] < a
                invariant
                    rest@.len() <= before.len(),
                    rest@ == before.subrange(before.len() - rest@.len(), before.len() as int),
                    forall|j: int| 0 <= j < before.len() - rest@.len() ==> before[j] < a,
                decreases rest.len(),
            {
                let ghost was = rest@;
                rest = &rest[1..rest.len()];
                proof {
                    assert(rest@ =~= before.subrange(
                        before.len() - rest@.len(),
                        before.len() as int,
                    ));
                    assert forall|j: int| 0 <= j < before.len() - rest@.len() implies before[j]
                        < a by {
                        if j == before.len() - was.len() {
                            assert(was[0] == before[j]);
                        }
                    }
                }
            }
        }
        let found = rest.len() > 0 && rest[0] == a;
        proof {
            let pool = bbb@;
            let offset = pool.len() - rest@.len();
            assert(rest@ =~= pool.subrange(offset, pool.len() as int));
            assert forall|j: int| 0 <= j < offset implies pool[j] < a by {
                if j < skipped {
                    assert(pool[j] < aaa[i - 1]);
                    assert(aaa[i - 1] <= aaa[i as int]);
                } else {
                    assert(before[j - skipped] == pool[j]);
                }
            }
            if rest@.len() > 0 {
                assert(rest@[0] == pool[offset]);
            }
            if found {
                assert(pool[offset] == a);
            } else {
                if pool.contains(a) {
                    let j = choose|j: int| 0 <= j < pool.len() && pool[j] == a;
                    assert(j >= offset);
                    assert(pool[offset] <= pool[j]);
                    assert(false);
                }
            }
            assert(aaa@.take(i + 1).drop_last() =~= aaa@.take(i as int));
            assert(aaa@.take(i + 1).last() == a);
        }
        if found {
            both.push(a);
        }
        i += 1;
    }
    proof {
        assert(aaa@.take(aaa.len() as int) =~= aaa@);
    }
    both
}

/// Advances `slice` to start at its first element that is at least `value`,
/// by exponential search.
pub fn gallop_ge<'a>(slice: &'a [u32], value: &u32) -> (rest: &'a [u32])
    requires
        ascending(slice@),
    ensures
        rest@.len() <= slice@.len(),
        rest@ == slice@.subrange(slice@.len() - rest@.len(), slice@.len() as int),
        forall|i: int| 0 <= i < slice@.len() - rest@.len() ==> slice[i] < *value,
        rest@.len() > 0 ==> rest[0] >= *value,
{
    let bound = *value;
    let before = |x: &u32| -> (b: bool)
        ensures
            b == (*x < bound),
        { *x < bound };
    let skip = advance(slice, before);
    proof {
        let p = |x: u32| x < bound;
        assert(advanced(before, p, slice@, skip as int));
        assert forall|i: int| 0 <= i < skip implies slice[i] < bound by {
            assert(p(slice@[i]));
        }
        if skip < slice.len() {
            assert(!p(slice@[skip as int]));
        }
    }
    &slice[skip..slice.len()]
}

/// Advances `slice` to start at its first element that is greater than
/// `value`, by exponential search.
pub fn gallop_gt<'a>(slice: &'a [u32], value: &u32) -> (rest: &'a [u32])
    requires
        ascending(slice@),
    ensures
        rest@.len() <= slice@.len(),
        rest@ == slice@.subrange(slice@.len() - rest@.len(), slice@.len() as int),
        forall|i: int| 0 <= i < slice@.len() - rest@.len() ==> slice[i] <= *value,
        rest@.len() > 0 ==> rest[0] > *value,
{
    let bound = *value;
    let upto = |x: &u32| -> (b: bool)
        ensures
            b == (*x <= bound),
        { *x <= bound };
    let skip = advance(slice, upto);
    proof {
        let p = |x: u32| x <= bound;
        assert(advanced(upto, p, slice@, skip as int));
        assert forall|i: int| 0 <= i < skip implies slice[i] <= bound by {
            assert(p(slice@[i]));
        }
        if skip < slice.len() {
            assert(!p(slice@[skip as int]));
        }
    }
    &slice[skip..slice.len()]
}

} // verus!
