//! A static graph in adjacency form, and its use as a prefix extender.

use vstd::prelude::*;
use crate::order::ascending;
use crate::{advance, advanced};

verus! {

/// The elements of `list` that `pool` holds, in their order.
pub open spec fn common(list: Seq<u32>, pool: Seq<u32>) -> Seq<u32>
    decreases list.len(),
{
    if list.len() == 0 {
        Seq::empty()
    } else if pool.contains(list.last()) {
        common(list.drop_last(), pool).push(list.last())
    } else {
        common(list.drop_last(), pool)
    }
}

/// Advances `slice` to start at its first element that is not below
/// `value`, by exponential search.
pub fn gallop<'a>(slice: &'a [u32], value: &u32) -> (rest: &'a [u32])
    requires
        ascending(slice@),
    ensures
        rest@.len() <= slice@.len(),
        rest@ == slice@.subrange(slice@.len() - rest@.len(), slice@.len() as int),
        forall|i: int| 0 <= i < slice@.len() - rest@.len() ==> slice[i] < *value,
        rest@.len() > 0 ==> rest[0] >= *value,
{
    let bound = *value;
    let below = |x: &u32| -> (b: bool)
        ensures
            b == (*x < bound),
        { *x < bound };
    let skip = advance(slice, below);
    proof {
        let p = |x: u32| x < bound;
        assert(advanced(below, p, slice@, skip as int));
        assert forall|i: int| 0 <= i < skip implies slice[i] < bound by {
            assert(p(slice@[i]));
        }
        if skip < slice.len() {
            assert(!p(slice@[skip as int]));
        }
    }
    &slice[skip..slice.len()]
}

/// A graph that gives the neighbors of each node.
pub trait GraphTrait {
    /// The graph is in order: every node has its list of neighbors.
    spec fn wf(&self) -> bool;

    /// The number of nodes.
    spec fn node_count(&self) -> nat;

    /// The neighbors of `node`; none for a node that the graph does not
    /// have.
    spec fn neighbors(&self, node: nat) -> Seq<u32>;

    /// The number of nodes.
    fn nodes(&self) -> (count: usize)
        requires
            self.wf(),
        ensures
            count == self.node_count(),
    ;

    /// The neighbors of `node`.
    fn edges(&self, node: usize) -> (targets: &[u32])
        requires
            self.wf(),
        ensures
            targets@ == self.neighbors(node as nat),
    ;
}

/// A graph in two lists: for each node the offset at which its neighbors
/// start, and the neighbors of all nodes. The neighbors of a node end where
/// those of the next node start, so the last entry of `nodes` stands for no
/// node: it ends the neighbors of the last one.
pub struct GraphVector {
    /// The offset of the first neighbor of each node.
    pub nodes: Vec<u64>,
    /// The neighbors of all nodes, node after node.
    pub edges: Vec<u32>,
}

impl GraphVector {
    /// The offsets ascend and lie within the list of neighbors.
    pub open spec fn offsets_ok(&self) -> bool {
        &&& forall|i: int, j: int| 0 <= i <= j < self.nodes@.len() ==> self.nodes[i] <= self.nodes[j]
        &&& forall|i: int| 0 <= i < self.nodes@.len() ==> self.nodes[i] <= self.edges@.len()
    }

    /// Tests whether the offsets ascend and lie within the list of
    /// neighbors, which `nodes` and `edges` ask of the graph.
    pub fn check(&self) -> (ok: bool)
        ensures
            ok == self.offsets_ok(),
    {
        let count = self.nodes.len();
        let limit = self.edges.len();
        let mut i: usize = 0;
        while i < count
            invariant
                count == self.nodes.len(),
                limit == self.edges.len(),
                i <= count,
                forall|a: int, b: int| 0 <= a <= b < i ==> self.nodes[a] <= self.nodes[b],
                forall|a: int| 0 <= a < i ==> self.nodes[a] <= limit,
            decreases count - i,
        {
            if self.nodes[i] > limit as u64 {
                return false;
            }
            if i > 0 && self.nodes[i - 1] > self.nodes[i] {
                return false;
            }
            proof {
                assert forall|a: int, b: int| 0 <= a <= b < i + 1 implies self.nodes[a]
                    <= self.nodes[b] by {
                    if b == i && a < i {
                        assert(self.nodes[a] <= self.nodes[i - 1]);
                    }
                }
            }
            i += 1;
        }
        true
    }
}

impl GraphTrait for GraphVector {
    open spec fn wf(&self) -> bool {
        self.offsets_ok()
    }

    open spec fn node_count(&self) -> nat {
        self.nodes@.len()
    }

    open spec fn neighbors(&self, node: nat) -> Seq<u32> {
        if node + 1 < self.nodes@.len() {
            self.edges@.subrange(self.nodes[node as int] as int, self.nodes[node as int + 1] as int)
        } else {
            Seq::empty()
        }
    }

    fn nodes(&self) -> (count: usize) {
        self.nodes.len()
    }

    fn edges(&self, node: usize) -> (targets: &[u32]) {
        let count = self.nodes.len();
        if count > 0 && node < count - 1 {
            let total = self.edges.len();
            proof {
                assert(self.nodes[node as int] <= self.nodes[node + 1]);
                assert(self.nodes[node + 1] <= self.edges@.len());
                assert(self.edges@.len() == total);
            }
            let start = self.nodes[node] as usize;
            let limit = self.nodes[node + 1] as usize;
            &self.edges[start..limit]
        } else {
            &self.edges[0..0]
        }
    }
}

/// A graph as an extender of prefixes: `logic` gives the node of a prefix,
/// whose neighbors extend it.
pub struct GraphExtender<G: GraphTrait, L> {
    /// The graph.
    pub graph: G,
    /// The node of a prefix.
    pub logic: L,
}

/// Makes a graph an extender of prefixes.
pub trait GraphExtenderExt: GraphTrait + Sized {
    /// The graph as an extender of the prefixes whose node `logic` gives.
    fn extend_using<L>(self, logic: L) -> (extender: GraphExtender<Self, L>)
        ensures
            extender.graph == self,
            extender.logic == logic,
    ;
}

impl<G: GraphTrait> GraphExtenderExt for G {
    fn extend_using<L>(self, logic: L) -> (extender: GraphExtender<G, L>) {
        GraphExtender { graph: self, logic }
    }
}

impl<G: GraphTrait, L> GraphExtender<G, L> {
    /// The number of extensions of `prefix`: the neighbors of its node, which
    /// is taken as a `usize`.
    pub fn count<P>(&self, prefix: &P) -> (count: u64) where L: Fn(&P) -> u64
        requires
            self.graph.wf(),
            call_requires(self.logic, (prefix,)),
        ensures
            exists|node: u64|
                call_ensures(self.logic, (prefix,), node) && count == self.graph.neighbors(
                    (node as usize) as nat,
                ).len(),
    {
        let node = (self.logic)(prefix);
        let targets = self.graph.edges(#[verifier::truncate] (node as usize));
        targets.len() as u64
    }

    /// The extensions of `prefix`: the neighbors of its node.
    pub fn propose<P>(&self, prefix: &P) -> (list: Vec<u32>) where L: Fn(&P) -> u64
        requires
            self.graph.wf(),
            call_requires(self.logic, (prefix,)),
        ensures
            exists|node: u64|
                call_ensures(self.logic, (prefix,), node) && list@ == self.graph.neighbors(
                    (node as usize) as nat,
                ),
    {
        let node = (self.logic)(prefix);
        let targets = self.graph.edges(#[verifier::truncate] (node as usize));
        let mut list: Vec<u32> = Vec::new();
        let mut i: usize = 0;
        while i < targets.len()
            invariant
                i <= targets.len(),
                list@ == targets@.take(i as int),
            decreases targets.len() - i,
        {
            list.push(targets[i]);
            proof {
                assert(targets@.take(i + 1) =~= targets@.take(i as int).push(targets[i as int]));
            }
            i += 1;
        }
        proof {
            assert(targets@.take(targets.len() as int) =~= targets@);
        }
        list
    }

    /// Restricts `list` to the neighbors of the node of `prefix`. Both
    /// ascend. Where the list is short against the neighbors, each of its
    /// values is looked up by exponential search; else the neighbors are
    /// walked along with the list.
    pub fn intersect<P>(&self, prefix: &P, list: &mut Vec<u32>) where L: Fn(&P) -> u64
        requires
            self.graph.wf(),
            call_requires(self.logic, (prefix,)),
            ascending(old(list)@),
            forall|node: nat| ascending(#[trigger] self.graph.neighbors(node)),
        ensures
            exists|node: u64|
                call_ensures(self.logic, (prefix,), node) && final(list)@ == common(
                    old(list)@,
                    self.graph.neighbors((node as usize) as nat),
                ),
    {
        let node = (self.logic)(prefix);
        let targets = self.graph.edges(#[verifier::truncate] (node as usize));
        let ghost pool = self.graph.neighbors((node as usize) as nat);
        let galloping = list.len() < targets.len() / 4;
        let mut kept: Vec<u32> = Vec::new();
        let mut slice = targets;
        let count = list.len();
        let mut i: usize = 0;
        proof {
            assert(list@.take(0) =~= Seq::empty());
            assert(slice@ =~= pool.subrange(0, pool.len() as int));
        }
        while i < count
            invariant
                count == list.len(),
                i <= count,
                ascending(list@),
                ascending(pool),
                slice@.len() <= pool.len(),
                slice@ == pool.subrange(pool.len() - slice@.len(), pool.len() as int),
                forall|j: int| 0 <= j < pool.len() - slice@.len() ==> i > 0 && pool[j] < list[i - 1],
                kept@ == common(list@.take(i as int), pool),
            decreases count - i,
        {
            let value = list[i];
            let ghost before = slice@;
            let ghost skipped = pool.len() - before.len();
            if galloping {
                slice = gallop(slice, &value);
            } else {
                while slice.len() > 0 && slice[0] < value
                    invariant
                        slice@.len() <= before.len(),
                        slice@ == before.subrange(
                            before.len() - slice@.len(),
                            before.len() as int,
                        ),
                        forall|j: int| 0 <= j < before.len() - slice@.len() ==> before[j] < value,
                    decreases slice.len(),
                {
                    let ghost was = slice@;
                    slice = &slice[1..slice.len()];
                    proof {
                        assert(slice@ =~= before.subrange(
                            before.len() - slice@.len(),
                            before.len() as int,
                        ));
                        assert forall|j: int| 0 <= j < before.len() - slice@.len() implies before[j]
                            < value by {
                            if j == before.len() - was.len() {
                                assert(was[0] == before[j]);
                            }
                        }
                    }
                }
            }
            let found = slice.len() > 0 && slice[0] == value;
            proof {
                let offset = pool.len() - slice@.len();
                assert(slice@ =~= pool.subrange(offset, pool.len() as int));
                assert forall|j: int| 0 <= j < offset implies pool[j] < value by {
                    if j < skipped {
                        assert(pool[j] < list[i - 1]);
                        assert(list[i - 1] <= list[i as int]);
                    } else {
                        assert(before[j - skipped] == pool[j]);
                    }
                }
                if slice@.len() > 0 {
                    assert(slice@[0] == pool[offset]);
                }
                if found {
                    assert(pool[offset] == value);
                } else {
                    if pool.contains(value) {
                        let j = choose|j: int| 0 <= j < pool.len() && pool[j] == value;
                        assert(j >= offset);
                        assert(pool[offset] <= pool[j]);
                        assert(false);
                    }
                }
                assert(list@.take(i + 1).drop_last() =~= list@.take(i as int));
                assert(list@.take(i + 1).last() == value);
            }
            if found {
                kept.push(value);
            }
            // a value of the list that is found again is looked up from here again
            proof {
                assert forall|j: int| 0 <= j < pool.len() - slice@.len() implies pool[j]
                    < list[i as int] by {}
            }
            i += 1;
        }
        proof {
            assert(list@.take(count as int) =~= list@);
        }
        *list = kept;
    }
}

/// Record-by-record prefix extension: what a generic join asks of a
/// relation, one prefix at a time.
pub trait PrefixExtender<P> {
    /// The extender can answer for `prefix`.
    spec fn answers(&self, prefix: &P) -> bool;

    /// `list` is what the relation holds for `prefix`, in ascending order.
    spec fn holds_for(&self, prefix: &P, list: Seq<u32>) -> bool;

    /// The number of extensions of `prefix`.
    fn count(&self, prefix: &P) -> (count: u64)
        requires
            self.answers(prefix),
        ensures
            exists|list: Seq<u32>| #[trigger] self.holds_for(prefix, list) && count == list.len(),
    ;

    /// The extensions of `prefix`.
    fn propose(&self, prefix: &P) -> (list: Vec<u32>)
        requires
            self.answers(prefix),
        ensures
            self.holds_for(prefix, list@),
    ;

    /// Restricts the ascending `list` to the extensions of `prefix`.
    fn intersect(&self, prefix: &P, list: &mut Vec<u32>)
        requires
            self.answers(prefix),
            ascending(old(list)@),
        ensures
            exists|pool: Seq<u32>|
                #[trigger] self.holds_for(prefix, pool) && final(list)@ == common(old(list)@, pool),
    ;
}

impl<P, G: GraphTrait, L: Fn(&P) -> u64> PrefixExtender<P> for GraphExtender<G, L> {
    open spec fn answers(&self, prefix: &P) -> bool {
        &&& self.graph.wf()
        &&& call_requires(self.logic, (prefix,))
        &&& forall|node: nat| ascending(#[trigger] self.graph.neighbors(node))
    }

    open spec fn holds_for(&self, prefix: &P, list: Seq<u32>) -> bool {
        exists|node: u64|
            call_ensures(self.logic, (prefix,), node) && list == self.graph.neighbors(
                (node as usize) as nat,
            )
    }

    fn count(&self, prefix: &P) -> (count: u64) {
        let count = GraphExtender::count(self, prefix);
        proof {
            let node = choose|node: u64|
                call_ensures(self.logic, (prefix,), node) && count == self.graph.neighbors(
                    (node as usize) as nat,
                ).len();
            assert(self.holds_for(prefix, self.graph.neighbors((node as usize) as nat)));
        }
        count
    }

    fn propose(&self, prefix: &P) -> (list: Vec<u32>) {
        GraphExtender::propose(self, prefix)
    }

    fn intersect(&self, prefix: &P, list: &mut Vec<u32>) {
        GraphExtender::intersect(self, prefix, list);
        proof {
            let node = choose|node: u64|
                call_ensures(self.logic, (prefix,), node) && list@ == common(
                    old(list)@,
                    self.graph.neighbors((node as usize) as nat),
                );
            assert(self.holds_for(prefix, self.graph.neighbors((node as usize) as nat)));
        }
    }
}

} // verus!
