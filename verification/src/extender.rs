//! An index as an extender of prefixes.
//!
//! An extender reads the key of a prefix and says what a query at some time
//! may see of the index: the updates before that time, or those up to and
//! including it. With these it counts, proposes and intersects the
//! extensions of a batch of prefixes, and drops the prefixes that are left
//! with nothing.

use std::collections::HashMap;
use vstd::multiset::Multiset;
use vstd::prelude::*;
use vstd::std_specs::hash::*;
use crate::extender::merge_sorter::{Chunk, MergeSorter};
use crate::index::compact::{pairs_ascend, values_for};
use crate::index::unsorted::stamped;
use crate::index::{joined, reorders, seen_diff, Index, Visible};
use crate::weights::sum_by;

pub mod merge_sorter;

use crate::order::ascending;

verus! {

/// `origin` names positions below `n`, none of them twice.
pub open spec fn selects(origin: Seq<int>, n: int) -> bool {
    &&& forall|j: int| 0 <= j < origin.len() ==> 0 <= #[trigger] origin[j] < n
    &&& forall|i: int, j: int|
        0 <= i < j < origin.len() ==> #[trigger] origin[i] != #[trigger] origin[j]
}

/// The positions that are kept when a rearrangement by `perm` is followed
/// by a choice of the positions `kept`.
pub open spec fn composed(perm: Seq<int>, kept: Seq<int>) -> Seq<int> {
    Seq::new(kept.len(), |j: int| perm[kept[j]])
}

/// Choosing from a rearrangement names no position twice.
pub proof fn lemma_composed(perm: Seq<int>, kept: Seq<int>, n: int)
    requires
        selects(perm, n),
        selects(kept, perm.len() as int),
    ensures
        selects(composed(perm, kept), n),
        forall|i: int|
            0 <= i < n && !composed(perm, kept).contains(i) ==> !perm.contains(i) || exists|
                m: int,
            |
                0 <= m < perm.len() && perm[m] == i && !kept.contains(m),
{
    let both = composed(perm, kept);
    assert forall|i: int, j: int| 0 <= i < j < both.len() implies #[trigger] both[i]
        != #[trigger] both[j] by {
        assert(kept[i] != kept[j]);
        if kept[i] < kept[j] {
            assert(perm[kept[i]] != perm[kept[j]]);
        } else {
            assert(perm[kept[j]] != perm[kept[i]]);
        }
    }
    assert forall|i: int| 0 <= i < n && !both.contains(i) && perm.contains(i) implies exists|
        m: int,
    |
        0 <= m < perm.len() && perm[m] == i && !kept.contains(m) by {
        let m = choose|m: int| 0 <= m < perm.len() && perm[m] == i;
        if kept.contains(m) {
            let j = choose|j: int| 0 <= j < kept.len() && kept[j] == m;
            assert(both[j] == i);
        }
    }
}

/// A rearrangement names every position.
pub proof fn lemma_reorders_all(perm: Seq<int>, n: int, i: int)
    requires
        reorders(perm, n),
        0 <= i < n,
    ensures
        perm.contains(i),
    decreases n, (if i == n - 1 { 0int } else { 1 }),
{
    let last = n - 1;
    if !perm.contains(i) {
        if i == last {
            // every entry is below `last`: without its last entry, `perm`
            // rearranges the positions below `last` and leaves out the
            // entry dropped.
            let rest = perm.drop_last();
            let dropped = perm[last];
            assert(perm.contains(dropped));
            if n >= 2 {
                assert forall|j: int| 0 <= j < rest.len() implies 0 <= #[trigger] rest[j]
                    < last by {
                    assert(rest[j] == perm[j]);
                    assert(perm.contains(perm[j]));
                }
                assert forall|a: int, b: int| 0 <= a < b < rest.len() implies #[trigger] rest[a]
                    != #[trigger] rest[b] by {
                    assert(rest[a] == perm[a] && rest[b] == perm[b]);
                }
                lemma_reorders_all(rest, last, dropped);
                let j = choose|j: int| 0 <= j < rest.len() && rest[j] == dropped;
                assert(perm[j] == perm[last]);
            }
        } else {
            // put `i` in the place of `last`: what results leaves out `last`.
            let moved = Seq::new(
                perm.len(),
                |j: int|
                    if perm[j] == last {
                        i
                    } else {
                        perm[j]
                    },
            );
            assert forall|a: int, b: int| 0 <= a < b < moved.len() implies #[trigger] moved[a]
                != #[trigger] moved[b] by {
                assert(perm[a] != perm[b]);
                assert(perm.contains(perm[a]));
                assert(perm.contains(perm[b]));
            }
            lemma_reorders_all(moved, n, last);
            let j = choose|j: int| 0 <= j < moved.len() && moved[j] == last;
            assert(perm[j] == last || moved[j] == perm[j]);
        }
    }
}

/// Keeps the rows whose count is positive. The result names the positions
/// of the rows kept.
fn drop_zero_counts<P>(data: &mut Vec<(P, u64, u64, i32)>) -> (kept: Ghost<Seq<int>>)
    ensures
        selects(kept@, old(data)@.len() as int),
        forall|i: int, j: int|
            0 <= i < j < kept@.len() ==> #[trigger] kept@[i] < #[trigger] kept@[j],
        kept@.len() == final(data)@.len(),
        forall|j: int| 0 <= j < final(data)@.len() ==> #[trigger] final(data)[j] == old(data)[kept@[j]],
        forall|j: int| 0 <= j < final(data)@.len() ==> (#[trigger] final(data)[j]).1 > 0,
        forall|i: int|
            0 <= i < old(data)@.len() && !kept@.contains(i) ==> (#[trigger] old(data)[i]).1 == 0,
{
    let mut rows: Vec<(P, u64, u64, i32)> = Vec::new();
    std::mem::swap(data, &mut rows);
    let ghost kept = Seq::<int>::empty();
    for row in it: rows
        invariant
            it.seq() == old(data)@,
            kept.len() == data@.len(),
            forall|j: int| 0 <= j < kept.len() ==> 0 <= #[trigger] kept[j] < it.index(),
            forall|i: int, j: int| 0 <= i < j < kept.len() ==> #[trigger] kept[i] < #[trigger] kept[j],
            forall|j: int| 0 <= j < data@.len() ==> #[trigger] data[j] == old(data)[kept[j]],
            forall|j: int| 0 <= j < data@.len() ==> (#[trigger] data[j]).1 > 0,
            forall|i: int|
                0 <= i < it.index() && !kept.contains(i) ==> (#[trigger] old(data)[i]).1 == 0,
    {
        let ghost at = it.index() as int;
        let ghost before = kept;
        if row.1 > 0 {
            data.push(row);
            proof {
                kept = kept.push(at);
                assert(kept[kept.len() - 1] == at);
            }
        }
        proof {
            assert forall|i: int| 0 <= i < at + 1 && !kept.contains(i) implies (
            #[trigger] old(data)[i]).1 == 0 by {
                if i < at {
                    if before.contains(i) {
                        let j = choose|j: int| 0 <= j < before.len() && before[j] == i;
                        assert(kept[j] == i);
                    }
                }
            }
        }
    }
    Ghost(kept)
}

/// Keeps the rows that have extensions. The result names the positions of
/// the rows kept.
fn drop_empty<P>(data: &mut Vec<(P, Vec<u32>, i32)>) -> (kept: Ghost<Seq<int>>)
    ensures
        selects(kept@, old(data)@.len() as int),
        forall|i: int, j: int|
            0 <= i < j < kept@.len() ==> #[trigger] kept@[i] < #[trigger] kept@[j],
        kept@.len() == final(data)@.len(),
        forall|j: int| 0 <= j < final(data)@.len() ==> #[trigger] final(data)[j] == old(data)[kept@[j]],
        forall|j: int| 0 <= j < final(data)@.len() ==> (#[trigger] final(data)[j]).1@.len() > 0,
        forall|i: int|
            0 <= i < old(data)@.len() && !kept@.contains(i) ==> (#[trigger] old(data)[i]).1@.len()
                == 0,
{
    let mut rows: Vec<(P, Vec<u32>, i32)> = Vec::new();
    std::mem::swap(data, &mut rows);
    let ghost kept = Seq::<int>::empty();
    for row in it: rows
        invariant
            it.seq() == old(data)@,
            kept.len() == data@.len(),
            forall|j: int| 0 <= j < kept.len() ==> 0 <= #[trigger] kept[j] < it.index(),
            forall|i: int, j: int| 0 <= i < j < kept.len() ==> #[trigger] kept[i] < #[trigger] kept[j],
            forall|j: int| 0 <= j < data@.len() ==> #[trigger] data[j] == old(data)[kept[j]],
            forall|j: int| 0 <= j < data@.len() ==> (#[trigger] data[j]).1@.len() > 0,
            forall|i: int|
                0 <= i < it.index() && !kept.contains(i) ==> (#[trigger] old(data)[i]).1@.len()
                    == 0,
    {
        let ghost at = it.index() as int;
        let ghost before = kept;
        if row.1.len() > 0 {
            data.push(row);
            proof {
                kept = kept.push(at);
                assert(kept[kept.len() - 1] == at);
            }
        }
        proof {
            assert forall|i: int| 0 <= i < at + 1 && !kept.contains(i) implies (
            #[trigger] old(data)[i]).1@.len() == 0 by {
                if i < at {
                    if before.contains(i) {
                        let j = choose|j: int| 0 <= j < before.len() && before[j] == i;
                        assert(kept[j] == i);
                    }
                }
            }
        }
    }
    Ghost(kept)
}

/// A view of an index for prefixes of one kind: `logic` gives the key of a
/// prefix, and a query sees the updates made before its time or, if
/// `inclusive`, those made at its time too.
pub struct IndexExtender<L> {
    /// Which of the indices of a join the extender consults.
    pub source: usize,
    /// The key of a prefix.
    pub logic: L,
    /// Whether a query sees the updates made at its own time.
    pub inclusive: bool,
}

impl<L> IndexExtender<L> {
    /// What a query at `time` sees.
    pub open spec fn valid(&self, time: u64) -> Visible {
        Visible { time, inclusive: self.inclusive }
    }

    /// What `count` makes of a batch: the rows at `origin`, in ascending
    /// order of their keys, each counted; a row that is left out would
    /// have come out with count zero.
    pub open spec fn counts<P>(
        &self,
        index: Index,
        before: Seq<(P, u64, u64, i32)>,
        after: Seq<(P, u64, u64, i32)>,
        origin: Seq<int>,
        keys: Seq<u32>,
        ident: u64,
    ) -> bool where L: Fn(&P) -> u32 {
        &&& selects(origin, before.len() as int)
        &&& origin.len() == after.len()
        &&& keys.len() == after.len()
        &&& ascending(keys)
        &&& forall|j: int|
            0 <= j < after.len() ==> {
                &&& call_ensures(self.logic, (&before[origin[j]].0,), #[trigger] keys[j])
                &&& index.counted(before[origin[j]], after[j], keys[j], ident)
                &&& after[j].1 > 0
            }
        &&& forall|i: int|
            0 <= i < before.len() && !origin.contains(i) ==> #[trigger] self.counts_none(
                index,
                before[i],
            )
    }

    /// The row would come out of `count` with count zero.
    pub open spec fn counts_none<P>(&self, index: Index, row: (P, u64, u64, i32)) -> bool where
        L: Fn(&P) -> u32,
     {
        exists|key: u32|
            #[trigger] call_ensures(self.logic, (&row.0,), key) && (index.estimate(key) == 0
                || row.1 == 0)
    }

    /// Updates each prefix with the count of extensions that the index
    /// estimates for it, if that is less than the count it has, and drops
    /// the prefixes whose count is zero.
    pub fn count<P>(&self, index: &Index, data: &mut Vec<(P, u64, u64, i32)>, ident: u64) where
        L: Fn(&P) -> u32,

        requires
            index.wf(),
            forall|i: int|
                0 <= i < old(data).len() ==> call_requires(
                    self.logic,
                    (&(#[trigger] old(data)[i]).0,),
                ),
        ensures
            exists|origin: Seq<int>, keys: Seq<u32>|
                self.counts(*index, old(data)@, final(data)@, origin, keys, ident),
    {
        let valid = Visible { time: 0, inclusive: self.inclusive };
        index.count(data, &self.logic, &valid, ident);
        let ghost counted = data@;
        let ghost (perm, all_keys) = choose|perm: Seq<int>, keys: Seq<u32>|
            index.counts(old(data)@, counted, perm, keys, self.logic, ident);
        let Ghost(kept) = drop_zero_counts(data);
        proof {
            let origin = composed(perm, kept);
            let keys = Seq::new(kept.len(), |j: int| all_keys[kept[j]]);
            lemma_composed(perm, kept, old(data)@.len() as int);
            assert forall|a: int, b: int| 0 <= a <= b < keys.len() implies keys[a] <= keys[b] by {
                if a < b {
                    assert(kept[a] != kept[b]);
                    assert(kept[a] < kept[b]) by {
                        lemma_kept_ascends(kept, a, b);
                    }
                }
            }
            assert forall|i: int|
                0 <= i < old(data)@.len() && !origin.contains(i) implies #[trigger] self.counts_none(
                *index,
                old(data)@[i],
            ) by {
                lemma_reorders_all(perm, perm.len() as int, i);
                let m = choose|m: int| 0 <= m < perm.len() && perm[m] == i && !kept.contains(m);
                assert(counted[m].1 == 0);
                assert(index.counted(old(data)@[perm[m]], counted[m], all_keys[m], ident));
                assert(call_ensures(self.logic, (&old(data)@[i].0,), all_keys[m]));
            }
            assert forall|j: int| 0 <= j < data@.len() implies {
                &&& call_ensures(self.logic, (&old(data)@[origin[j]].0,), #[trigger] keys[j])
                &&& index.counted(old(data)@[origin[j]], data@[j], keys[j], ident)
                &&& data@[j].1 > 0
            } by {
                assert(data@[j] == counted[kept[j]]);
                assert(keys[j] == all_keys[kept[j]]);
            }
            assert(selects(origin, old(data)@.len() as int));
            assert(origin.len() == data@.len());
            assert(keys.len() == data@.len());
            assert(ascending(keys));
            assert(self.counts(*index, old(data)@, data@, origin, keys, ident));
        }
    }

    /// What `propose` makes of a batch: the rows at `origin`, in ascending
    /// order of their keys, each with what the index proposes for its key;
    /// for a row that is left out the index proposes nothing.
    pub open spec fn proposes<P>(
        &self,
        index: Index,
        before: Seq<(P, i32)>,
        after: Seq<(P, Vec<u32>, i32)>,
        origin: Seq<int>,
        keys: Seq<u32>,
        time: u64,
    ) -> bool where L: Fn(&P) -> u32 {
        &&& selects(origin, before.len() as int)
        &&& origin.len() == after.len()
        &&& keys.len() == after.len()
        &&& ascending(keys)
        &&& forall|j: int|
            0 <= j < after.len() ==> {
                &&& call_ensures(self.logic, (&before[origin[j]].0,), #[trigger] keys[j])
                &&& after[j].0 == before[origin[j]].0
                &&& after[j].2 == before[origin[j]].1
                &&& index.is_proposal(after[j].1@, keys[j], self.valid(time))
                &&& after[j].1@.len() > 0
            }
        &&& forall|i: int|
            0 <= i < before.len() && !origin.contains(i) ==> #[trigger] self.proposes_none(
                index,
                before[i],
                time,
            )
    }

    /// The index proposes nothing for the row.
    pub open spec fn proposes_none<P>(&self, index: Index, row: (P, i32), time: u64) -> bool where
        L: Fn(&P) -> u32,
     {
        exists|key: u32|
            #[trigger] call_ensures(self.logic, (&row.0,), key) && index.is_proposal(
                Seq::empty(),
                key,
                self.valid(time),
            )
    }

    /// Proposes for each prefix the extensions that the index holds for its
    /// key, as a query at `time` sees them, and drops the prefixes without
    /// extensions.
    pub fn propose<P>(&self, index: &mut Index, data: Vec<(P, i32)>, time: u64) -> (out: Vec<
        (P, Vec<u32>, i32),
    >) where L: Fn(&P) -> u32
        requires
            old(index).wf(),
            forall|i: int| 0 <= i < data.len() ==> call_requires(self.logic, (&(#[trigger] data[i]).0,)),
        ensures
            final(index).wf(),
            final(index).agrees(*old(index)),
            exists|origin: Seq<int>, keys: Seq<u32>|
                self.proposes(*final(index), data@, out@, origin, keys, time),
    {
        let valid = Visible { time, inclusive: self.inclusive };
        let mut rows: Vec<(P, Vec<u32>, i32)> = Vec::new();
        for pair in it: data
            invariant
                it.seq() == data@,
                rows@.len() == it.index(),
                forall|i: int|
                    0 <= i < rows@.len() ==> (#[trigger] rows[i]).0 == data[i].0 && rows[i].2
                        == data[i].1 && rows[i].1@.len() == 0,
        {
            rows.push((pair.0, Vec::new(), pair.1));
        }
        let ghost given = rows@;
        index.propose(&mut rows, &self.logic, &valid);
        let ghost proposed = rows@;
        let ghost (perm, all_keys) = choose|perm: Seq<int>, keys: Seq<u32>|
            index.proposes(given, proposed, perm, keys, self.logic, valid);
        let Ghost(kept) = drop_empty(&mut rows);
        proof {
            let origin = composed(perm, kept);
            let keys = Seq::new(kept.len(), |j: int| all_keys[kept[j]]);
            lemma_composed(perm, kept, data@.len() as int);
            assert forall|a: int, b: int| 0 <= a <= b < keys.len() implies keys[a] <= keys[b] by {
                if a < b {
                    lemma_kept_ascends(kept, a, b);
                }
            }
            assert forall|i: int|
                0 <= i < data@.len() && !origin.contains(i) implies #[trigger] self.proposes_none(
                *index,
                data@[i],
                time,
            ) by {
                lemma_reorders_all(perm, perm.len() as int, i);
                let m = choose|m: int| 0 <= m < perm.len() && perm[m] == i && !kept.contains(m);
                assert(proposed[m].1@.len() == 0);
                assert(index.proposed(given[perm[m]], proposed[m], all_keys[m], valid));
                assert(call_ensures(self.logic, (&data@[i].0,), all_keys[m]));
                assert(proposed[m].1@.subrange(0, 0) =~= Seq::<u32>::empty());
            }
            assert forall|j: int| 0 <= j < rows@.len() implies {
                &&& call_ensures(self.logic, (&data@[origin[j]].0,), #[trigger] keys[j])
                &&& rows@[j].0 == data@[origin[j]].0
                &&& rows@[j].2 == data@[origin[j]].1
                &&& index.is_proposal(rows@[j].1@, keys[j], self.valid(time))
                &&& rows@[j].1@.len() > 0
            } by {
                let m = kept[j];
                assert(rows@[j] == proposed[m]);
                assert(keys[j] == all_keys[m]);
                assert(index.proposed(given[perm[m]], proposed[m], all_keys[m], valid));
                assert(proposed[m].1@.subrange(0, proposed[m].1@.len() as int) =~= proposed[m].1@);
            }
            assert(self.proposes(*index, data@, rows@, origin, keys, time));
        }
        rows
    }

    /// What `intersect` makes of a batch: the rows at `origin`, in
    /// ascending order of their keys, each with the extensions that
    /// survive; of a row that is left out none survives.
    pub open spec fn intersects<P>(
        &self,
        index: Index,
        before: Seq<(P, Vec<u32>, i32)>,
        after: Seq<(P, Vec<u32>, i32)>,
        origin: Seq<int>,
        keys: Seq<u32>,
        time: u64,
    ) -> bool where L: Fn(&P) -> u32 {
        &&& selects(origin, before.len() as int)
        &&& origin.len() == after.len()
        &&& keys.len() == after.len()
        &&& ascending(keys)
        &&& forall|j: int|
            0 <= j < after.len() ==> {
                &&& call_ensures(self.logic, (&before[origin[j]].0,), #[trigger] keys[j])
                &&& index.intersected(before[origin[j]], after[j], keys[j], self.valid(time))
                &&& after[j].1@.len() > 0
            }
        &&& forall|i: int|
            0 <= i < before.len() && !origin.contains(i) ==> #[trigger] self.intersects_none(
                index,
                before[i],
                time,
            )
    }

    /// None of the extensions of the row survives.
    pub open spec fn intersects_none<P>(
        &self,
        index: Index,
        row: (P, Vec<u32>, i32),
        time: u64,
    ) -> bool where L: Fn(&P) -> u32 {
        exists|key: u32|
            #[trigger] call_ensures(self.logic, (&row.0,), key) && index.survivors(
                row.1@,
                key,
                self.valid(time),
            ).len() == 0
    }

    /// Restricts the extensions of each prefix, which ascend, to those that
    /// the index holds for its key, as a query at `time` sees them, and
    /// drops the prefixes that are left without extensions.
    pub fn intersect<P>(&self, index: &mut Index, data: &mut Vec<(P, Vec<u32>, i32)>, time: u64) where
        L: Fn(&P) -> u32,

        requires
            old(index).wf(),
            forall|i: int|
                0 <= i < old(data).len() ==> call_requires(
                    self.logic,
                    (&(#[trigger] old(data)[i]).0,),
                ),
            forall|i: int| 0 <= i < old(data).len() ==> ascending((#[trigger] old(data)[i]).1@),
        ensures
            final(index).wf(),
            final(index).agrees(*old(index)),
            exists|origin: Seq<int>, keys: Seq<u32>|
                self.intersects(*final(index), old(data)@, final(data)@, origin, keys, time),
    {
        let valid = Visible { time, inclusive: self.inclusive };
        index.intersect(data, &self.logic, &valid);
        let ghost filtered = data@;
        let ghost (perm, all_keys) = choose|perm: Seq<int>, keys: Seq<u32>|
            index.intersects(old(data)@, filtered, perm, keys, self.logic, valid);
        let Ghost(kept) = drop_empty(data);
        proof {
            let origin = composed(perm, kept);
            let keys = Seq::new(kept.len(), |j: int| all_keys[kept[j]]);
            lemma_composed(perm, kept, old(data)@.len() as int);
            assert forall|a: int, b: int| 0 <= a <= b < keys.len() implies keys[a] <= keys[b] by {
                if a < b {
                    lemma_kept_ascends(kept, a, b);
                }
            }
            assert forall|i: int|
                0 <= i < old(data)@.len() && !origin.contains(i) implies #[trigger] self.intersects_none(
                *index,
                old(data)@[i],
                time,
            ) by {
                lemma_reorders_all(perm, perm.len() as int, i);
                let m = choose|m: int| 0 <= m < perm.len() && perm[m] == i && !kept.contains(m);
                assert(filtered[m].1@.len() == 0);
                assert(index.intersected(old(data)@[perm[m]], filtered[m], all_keys[m], valid));
                assert(call_ensures(self.logic, (&old(data)@[i].0,), all_keys[m]));
            }
            assert forall|j: int| 0 <= j < data@.len() implies {
                &&& call_ensures(self.logic, (&old(data)@[origin[j]].0,), #[trigger] keys[j])
                &&& index.intersected(
                    old(data)@[origin[j]],
                    data@[j],
                    keys[j],
                    self.valid(time),
                )
                &&& data@[j].1@.len() > 0
            } by {
                let m = kept[j];
                assert(data@[j] == filtered[m]);
                assert(keys[j] == all_keys[m]);
                assert(index.intersected(old(data)@[perm[m]], filtered[m], all_keys[m], valid));
            }
            assert(self.intersects(*index, old(data)@, data@, origin, keys, time));
        }
    }
}

/// Positions that were kept in passing ascend.
proof fn lemma_kept_ascends(kept: Seq<int>, a: int, b: int)
    requires
        0 <= a < b < kept.len(),
        forall|i: int, j: int| 0 <= i < j < kept.len() ==> #[trigger] kept[i] < #[trigger] kept[j],
    ensures
        kept[a] < kept[b],
{
}

/// A query at `time` can be answered: no update at `time` or before it is
/// still to come, as `frontier`, the earliest time that may still bring
/// updates, lies behind it or is none.
pub open spec fn absorbed(frontier: Option<u64>, time: u64) -> bool {
    match frontier {
        None => true,
        Some(earliest) => time < earliest,
    }
}

/// Tests whether a query at `time` can be answered.
pub fn is_absorbed(frontier: &Option<u64>, time: u64) -> (ready: bool)
    ensures
        ready == absorbed(*frontier, time),
{
    match frontier {
        None => true,
        Some(earliest) => time < *earliest,
    }
}

/// An update to a pair: the pair and a diff.
pub type EdgeUpdate = ((u32, u32), i32);

/// An index that is materialized from streamed batches.
///
/// The pairs of the initial batches are sorted as they arrive and become
/// the base of the index at the first notification. The updates are kept
/// by their time until the time is notified: then they are given to the
/// index.
pub struct IndexStream {
    /// The index itself.
    pub index: Index,
    /// The updates that wait for their time.
    pub map: HashMap<u64, Vec<EdgeUpdate>>,
    /// The sorter of the initial pairs, until they are loaded.
    pub sorter: Option<MergeSorter>,
}

impl IndexStream {
    /// The updates that wait, by their time.
    pub open spec fn waiting(&self) -> Map<u64, Vec<EdgeUpdate>> {
        self.map@
    }

    /// The updates that wait for `time`.
    pub open spec fn waiting_for(&self, time: u64) -> Seq<EdgeUpdate> {
        if self.waiting().contains_key(time) {
            self.waiting()[time]@
        } else {
            Seq::empty()
        }
    }

    /// The initial pairs are still being taken.
    pub open spec fn loading(&self) -> bool {
        self.sorter.is_some()
    }

    /// The sorter of the initial pairs.
    pub open spec fn loader(&self) -> MergeSorter {
        self.sorter.unwrap()
    }

    /// The index is in order, and it holds nothing while the initial pairs
    /// are being taken.
    pub open spec fn wf(&self) -> bool {
        &&& self.index.wf()
        &&& self.loading() ==> self.loader().wf() && self.index.is_empty()
    }

    /// An index stream that has seen nothing.
    pub fn new() -> (stream: Self)
        ensures
            stream.wf(),
            stream.loading(),
            stream.index.is_empty(),
            stream.waiting() == Map::<u64, Vec<EdgeUpdate>>::empty(),
            stream.loader().lists().len() == 0,
    {
        IndexStream { index: Index::new(), map: HashMap::new(), sorter: Some(MergeSorter::new()) }
    }

    /// Takes a batch of updates at `time`, which waits until the time is
    /// notified. The batch is left empty. A notification at `time` is to be
    /// asked for.
    pub fn updates(&mut self, time: u64, data: &mut Vec<EdgeUpdate>)
        requires
            old(self).wf(),
        ensures
            final(self).wf(),
            final(self).index == old(self).index,
            final(self).loading() == old(self).loading(),
            final(self).loading() ==> final(self).loader() == old(self).loader(),
            final(data)@.len() == 0,
            final(self).waiting_for(time) == old(self).waiting_for(time) + old(data)@,
            forall|other: u64|
                other != time ==> #[trigger] final(self).waiting_for(other) == old(
                    self,
                ).waiting_for(other),
    {
        broadcast use group_hash_axioms;

        let mut list = match self.map.remove(&time) {
            Some(list) => list,
            None => Vec::new(),
        };
        list.append(data);
        self.map.insert(time, list);
        proof {
            assert forall|other: u64| other != time implies #[trigger] self.waiting_for(other)
                == old(self).waiting_for(other) by {}
        }
    }

    /// Takes a batch of initial pairs. While the initial pairs are still
    /// taken, the batch is left empty and a notification is to be asked
    /// for; after they are loaded the batch is ignored.
    pub fn initially(&mut self, data: &mut Chunk) -> (taken: bool)
        requires
            old(self).wf(),
        ensures
            final(self).wf(),
            final(self).index == old(self).index,
            final(self).waiting() == old(self).waiting(),
            final(self).loading() == old(self).loading(),
            taken == old(self).loading(),
            taken ==> final(data)@.len() == 0 && final(self).loader().contents() == old(
                self,
            ).loader().contents().add(old(data)@.to_multiset()),
            !taken ==> *final(data) == *old(data),
    {
        match self.sorter.take() {
            Some(sorter) => {
                let mut sorter = sorter;
                sorter.push(data);
                self.sorter = Some(sorter);
                true
            },
            None => false,
        }
    }

    /// What the first notification makes of the initial pairs: the base
    /// holds them, sorted.
    pub open spec fn loaded(&self, pairs: Multiset<(u32, u32)>) -> bool {
        exists|sorted: Seq<(u32, u32)>|
            #![trigger pairs_ascend(sorted)]
            pairs_ascend(sorted) && sorted.to_multiset() == pairs && forall|key: u32|
                #[trigger] self.index.base(key) == values_for(sorted, key)
    }

    /// Acts on the notification of `time`.
    ///
    /// At the first notification the initial pairs become the base of the
    /// index. The updates that wait for `time` are given to the index: every
    /// query that sees `time` sees them.
    pub fn notified(&mut self, time: u64)
        requires
            old(self).wf(),
        ensures
            final(self).wf(),
            !final(self).loading(),
            old(self).loading() && old(self).loader().lists().len() > 0 ==> final(self).loaded(
                old(self).loader().contents(),
            ),
            !old(self).loading() || old(self).loader().lists().len() == 0 ==> final(self).index.compact() == old(self).index.compact(),
            final(self).index.edges() == old(self).index.edges(),
            final(self).waiting_for(time).len() == 0,
            forall|other: u64|
                other != time ==> #[trigger] final(self).waiting_for(other) == old(
                    self,
                ).waiting_for(other),
            forall|k: u32, v: u32, valid: Visible| #[trigger]
                final(self).index.weight(k, v, valid) - sum_by(
                    stamped(old(self).waiting_for(time), time),
                    seen_diff(k, v, valid),
                ) == occurrences_in_base(final(self).index, k, v) + old(self).index.committed(k, v)
                    + sum_by(old(self).index.pending(), seen_diff(k, v, valid)),
    {
        broadcast use group_hash_axioms;

        // initialize if this is the first time
        let ghost mut witness = Seq::<(u32, u32)>::empty();
        match self.sorter.take() {
            Some(sorter) => {
                let mut sorter = sorter;
                let mut sorted: Vec<Chunk> = Vec::new();
                let ghost loader = sorter;
                sorter.finish_into(&mut sorted);
                proof {
                    witness = joined(sorted@);
                }
                if sorted.len() > 0 {
                    self.index.initialize(&mut sorted);
                } else {
                    proof {
                        assert(joined(sorted@) =~= Seq::<(u32, u32)>::empty());
                        assert forall|key: u32| #[trigger]
                            self.index.base(key) == values_for(witness, key) by {
                            self.index.lemma_empty_base(key);
                        }
                    }
                }
            },
            None => {},
        }
        proof {
            if old(self).loading() && old(self).loader().lists().len() > 0 {
                assert(pairs_ascend(witness));
                assert(witness.to_multiset() == old(self).loader().contents());
                assert(forall|key: u32| #[trigger]
                    self.index.base(key) == values_for(witness, key));
            }
        }
        let ghost loaded = self.index;
        // push updates if updates exist
        match self.map.remove(&time) {
            Some(list) => {
                let mut list = list;
                self.index.update(time, &mut list);
            },
            None => {
                proof {
                    assert(stamped(Seq::<EdgeUpdate>::empty(), time) =~= Seq::empty());
                }
            },
        }
        proof {
            if old(self).loading() && old(self).loader().lists().len() > 0 {
                assert(self.index.compact() == loaded.compact());
                assert forall|key: u32| #[trigger]
                    self.index.base(key) == values_for(witness, key) by {
                    assert(loaded.base(key) == values_for(witness, key));
                }
                assert(pairs_ascend(witness));
                assert(self.loaded(old(self).loader().contents()));
            }
            assert forall|other: u64| other != time implies #[trigger] self.waiting_for(other)
                == old(self).waiting_for(other) by {}
            assert forall|k: u32, v: u32, valid: Visible| #[trigger]
                self.index.weight(k, v, valid) - sum_by(
                    stamped(old(self).waiting_for(time), time),
                    seen_diff(k, v, valid),
                ) == occurrences_in_base(self.index, k, v) + old(self).index.committed(k, v)
                    + sum_by(old(self).index.pending(), seen_diff(k, v, valid)) by {
                assert(self.index.weight(k, v, valid) == loaded.weight(k, v, valid) + sum_by(
                    stamped(old(self).waiting_for(time), time),
                    seen_diff(k, v, valid),
                ));
            }
        }
    }
}

/// How often the base of the index holds `value` under `key`.
pub open spec fn occurrences_in_base(index: Index, key: u32, value: u32) -> int {
    crate::weights::occurrences(index.base(key), value)
}

/// The batches that wait for a time, in the order in which they came.
pub type Waiting<R> = (u64, Vec<Vec<R>>);

/// The number of prefixes that one time is given to propose for before the
/// others have their turn.
pub const PROPOSE_EFFORT: usize = 4096;

/// The entries of `entries` whose time can be answered, in their order.
pub open spec fn ready<R>(entries: Seq<Waiting<R>>, frontier: Option<u64>) -> Seq<Waiting<R>>
    decreases entries.len(),
{
    if entries.len() == 0 {
        Seq::empty()
    } else if absorbed(frontier, entries.last().0) {
        ready(entries.drop_last(), frontier).push(entries.last())
    } else {
        ready(entries.drop_last(), frontier)
    }
}

/// The entries of `entries` whose time cannot be answered yet, in their
/// order.
pub open spec fn blocked<R>(entries: Seq<Waiting<R>>, frontier: Option<u64>) -> Seq<Waiting<R>>
    decreases entries.len(),
{
    if entries.len() == 0 {
        Seq::empty()
    } else if absorbed(frontier, entries.last().0) {
        blocked(entries.drop_last(), frontier)
    } else {
        blocked(entries.drop_last(), frontier).push(entries.last())
    }
}

/// The place of `time` among the entries, if it has one.
pub open spec fn place_of<R>(entries: Seq<Waiting<R>>, time: u64) -> Option<int> {
    if exists|i: int| 0 <= i < entries.len() && #[trigger] entries[i].0 == time {
        Some(choose|i: int| 0 <= i < entries.len() && #[trigger] entries[i].0 == time)
    } else {
        None
    }
}

/// The batches of prefixes that wait until the index has absorbed the
/// updates of their time.
///
/// A batch at a time may be answered only once no update at that time or
/// before it is still to come: until then an answer would miss updates
/// that it ought to see.
pub struct Stash<R> {
    /// The batches that wait, by their time. No time stands twice.
    pub entries: Vec<Waiting<R>>,
}

impl<R> Stash<R> {
    /// No time stands twice.
    pub open spec fn wf(&self) -> bool {
        forall|i: int, j: int|
            0 <= i < j < self.entries@.len() ==> (#[trigger] self.entries@[i]).0 != (
            #[trigger] self.entries@[j]).0
    }

    /// A stash of nothing.
    pub fn new() -> (stash: Self)
        ensures
            stash.wf(),
            stash.entries@.len() == 0,
    {
        Stash { entries: Vec::new() }
    }

    /// Stashes a batch at `time`, behind the batches that wait for that
    /// time already.
    pub fn push(&mut self, time: u64, batch: Vec<R>)
        requires
            old(self).wf(),
        ensures
            final(self).wf(),
            match place_of(old(self).entries@, time) {
                Some(at) => {
                    &&& final(self).entries@.len() == old(self).entries@.len()
                    &&& final(self).entries@[at].0 == time
                    &&& final(self).entries@[at].1@ == old(self).entries@[at].1@.push(batch)
                    &&& forall|i: int|
                        0 <= i < old(self).entries@.len() && i != at ==> #[trigger] final(self).entries@[i]
                            == old(self).entries@[i]
                },
                None => {
                    &&& final(self).entries@.len() == old(self).entries@.len() + 1
                    &&& final(self).entries@.last().0 == time
                    &&& final(self).entries@.last().1@ == seq![batch]
                    &&& final(self).entries@.drop_last() == old(self).entries@
                },
            },
    {
        let count = self.entries.len();
        let mut i: usize = 0;
        while i < count
            invariant
                count == self.entries.len(),
                i <= count,
                *self == *old(self),
                self.wf(),
                forall|j: int| 0 <= j < i ==> (#[trigger] self.entries@[j]).0 != time,
            decreases count - i,
        {
            if self.entries[i].0 == time {
                proof {
                    assert(old(self).entries@[i as int].0 == time);
                    let at = place_of(old(self).entries@, time).unwrap();
                    if at < i {
                        assert(self.entries@[at].0 != time);
                    } else if at > i {
                        assert(self.entries@[i as int].0 != self.entries@[at].0);
                    }
                }
                self.entries[i].1.push(batch);
                proof {
                    assert forall|a: int, b: int| 0 <= a < b < self.entries@.len() implies (
                    #[trigger] self.entries@[a]).0 != (#[trigger] self.entries@[b]).0 by {
                        assert(old(self).entries@[a].0 != old(self).entries@[b].0);
                        if a != i {
                            assert(self.entries@[a] == old(self).entries@[a]);
                        }
                        if b != i {
                            assert(self.entries@[b] == old(self).entries@[b]);
                        }
                    }
                }
                return ;
            }
            i += 1;
        }
        proof {
            assert(place_of(old(self).entries@, time).is_none());
        }
        let mut batches: Vec<Vec<R>> = Vec::new();
        batches.push(batch);
        self.entries.push((time, batches));
        proof {
            assert(self.entries@.drop_last() =~= old(self).entries@);
            assert(self.entries@.last().1@ =~= seq![batch]);
        }
    }

    /// Hands out the batches whose time can be answered, given the earliest
    /// time that may still bring updates, and keeps the others.
    pub fn release(&mut self, frontier: Option<u64>) -> (out: Vec<Waiting<R>>)
        requires
            old(self).wf(),
        ensures
            final(self).wf(),
            out@ == ready(old(self).entries@, frontier),
            final(self).entries@ == blocked(old(self).entries@, frontier),
            forall|i: int| 0 <= i < out@.len() ==> absorbed(frontier, (#[trigger] out@[i]).0),
            forall|i: int|
                0 <= i < final(self).entries@.len() ==> !absorbed(
                    frontier,
                    (#[trigger] final(self).entries@[i]).0,
                ),
    {
        let mut all: Vec<Waiting<R>> = Vec::new();
        std::mem::swap(&mut self.entries, &mut all);
        let mut out: Vec<Waiting<R>> = Vec::new();
        let ghost mut origin = Seq::<int>::empty();
        for entry in it: all
            invariant
                it.seq() == old(self).entries@,
                out@ == ready(old(self).entries@.take(it.index() as int), frontier),
                self.entries@ == blocked(old(self).entries@.take(it.index() as int), frontier),
                forall|i: int| 0 <= i < out@.len() ==> absorbed(frontier, (#[trigger] out@[i]).0),
                forall|i: int|
                    0 <= i < self.entries@.len() ==> !absorbed(
                        frontier,
                        (#[trigger] self.entries@[i]).0,
                    ),
                origin.len() == self.entries@.len(),
                forall|i: int|
                    0 <= i < origin.len() ==> 0 <= #[trigger] origin[i] < it.index()
                        && self.entries@[i] == old(self).entries@[origin[i]],
                forall|i: int, j: int|
                    0 <= i < j < origin.len() ==> #[trigger] origin[i] < #[trigger] origin[j],
        {
            proof {
                let next = old(self).entries@.take(it.index() + 1);
                assert(next.drop_last() =~= old(self).entries@.take(it.index() as int));
                assert(next.last() == entry);
            }
            if is_absorbed(&frontier, entry.0) {
                out.push(entry);
            } else {
                self.entries.push(entry);
                proof {
                    origin = origin.push(it.index() as int);
                }
            }
        }
        proof {
            assert(old(self).entries@.take(old(self).entries@.len() as int) =~= old(
                self,
            ).entries@);
            assert forall|i: int, j: int| 0 <= i < j < self.entries@.len() implies (
            #[trigger] self.entries@[i]).0 != (#[trigger] self.entries@[j]).0 by {
                assert(origin[i] < origin[j]);
            }
        }
        out
    }

    /// Whether batches wait for `time`.
    pub fn waits_for(&self, time: u64) -> (found: bool)
        ensures
            found == place_of(self.entries@, time).is_some(),
    {
        let mut i: usize = 0;
        while i < self.entries.len()
            invariant
                i <= self.entries.len(),
                forall|j: int| 0 <= j < i ==> (#[trigger] self.entries@[j]).0 != time,
            decreases self.entries.len() - i,
        {
            if self.entries[i].0 == time {
                return true;
            }
            i += 1;
        }
        false
    }

    /// Hands out, for each time that can be answered, the newest batches
    /// that `effort` pays for, and keeps the rest of them and the batches
    /// of the other times. Each time has the whole effort for itself.
    pub fn release_within(&mut self, frontier: Option<u64>, effort: usize) -> (out: Vec<Waiting<R>>)
        requires
            old(self).wf(),
        ensures
            final(self).wf(),
            shapes(out@) == drawn(old(self).entries@, frontier, effort as nat),
            shapes(final(self).entries@) == deferred(old(self).entries@, frontier, effort as nat),
    {
        let mut all: Vec<Waiting<R>> = Vec::new();
        std::mem::swap(&mut self.entries, &mut all);
        let mut out: Vec<Waiting<R>> = Vec::new();
        let ghost mut origin = Seq::<int>::empty();
        for entry in it: all
            invariant
                it.seq() == old(self).entries@,
                shapes(out@) == drawn(
                    old(self).entries@.take(it.index() as int),
                    frontier,
                    effort as nat,
                ),
                shapes(self.entries@) == deferred(
                    old(self).entries@.take(it.index() as int),
                    frontier,
                    effort as nat,
                ),
                origin.len() == self.entries@.len(),
                forall|i: int|
                    0 <= i < origin.len() ==> 0 <= #[trigger] origin[i] < it.index()
                        && self.entries@[i].0 == old(self).entries@[origin[i]].0,
                forall|i: int, j: int|
                    0 <= i < j < origin.len() ==> #[trigger] origin[i] < #[trigger] origin[j],
        {
            let ghost gone = shapes(out@);
            let ghost stayed = shapes(self.entries@);
            proof {
                let next = old(self).entries@.take(it.index() + 1);
                assert(next.drop_last() =~= old(self).entries@.take(it.index() as int));
                assert(next.last() == entry);
            }
            let (time, batches) = entry;
            if is_absorbed(&frontier, time) {
                let mut batches = batches;
                let taken = draw(&mut batches, effort);
                out.push((time, taken));
                proof {
                    assert(shapes(out@) =~= gone.push((time, taken@)));
                }
                if batches.len() > 0 {
                    self.entries.push((time, batches));
                    proof {
                        origin = origin.push(it.index() as int);
                        assert(shapes(self.entries@) =~= stayed.push((time, batches@)));
                    }
                }
            } else {
                self.entries.push((time, batches));
                proof {
                    origin = origin.push(it.index() as int);
                    assert(shapes(self.entries@) =~= stayed.push((time, batches@)));
                }
            }
        }
        proof {
            assert(old(self).entries@.take(old(self).entries@.len() as int) =~= old(
                self,
            ).entries@);
            assert forall|i: int, j: int| 0 <= i < j < self.entries@.len() implies (
            #[trigger] self.entries@[i]).0 != (#[trigger] self.entries@[j]).0 by {
                assert(origin[i] < origin[j]);
            }
        }
        out
    }
}

/// Each entry as its time and the batches that wait for it.
pub open spec fn shapes<R>(entries: Seq<Waiting<R>>) -> Seq<(u64, Seq<Vec<R>>)> {
    entries.map_values(|e: Waiting<R>| (e.0, e.1@))
}

/// What is left of an effort once a batch has been paid for.
pub open spec fn left_after(effort: nat, length: nat) -> nat {
    if length > effort {
        0
    } else {
        (effort - length) as nat
    }
}

/// How many of the batches, from the newest back, an effort pays for: a
/// batch is paid for while effort is left, and takes as much of the effort
/// as it holds prefixes.
pub open spec fn paid<R>(batches: Seq<Vec<R>>, effort: nat) -> nat
    decreases batches.len(),
{
    if batches.len() == 0 || effort == 0 {
        0
    } else {
        1 + paid(batches.drop_last(), left_after(effort, batches.last()@.len()))
    }
}

/// The batches that an effort pays for, the newest first.
pub open spec fn handed<R>(batches: Seq<Vec<R>>, effort: nat) -> Seq<Vec<R>> {
    Seq::new(paid(batches, effort), |i: int| batches[batches.len() - 1 - i])
}

/// The batches that an effort does not pay for, in their order.
pub open spec fn unpaid<R>(batches: Seq<Vec<R>>, effort: nat) -> Seq<Vec<R>> {
    batches.take(batches.len() - paid(batches, effort))
}

/// What is handed out within an effort: for each time that can be answered
/// the batches that the effort pays for.
pub open spec fn drawn<R>(entries: Seq<Waiting<R>>, frontier: Option<u64>, effort: nat) -> Seq<
    (u64, Seq<Vec<R>>),
>
    decreases entries.len(),
{
    if entries.len() == 0 {
        Seq::empty()
    } else if absorbed(frontier, entries.last().0) {
        drawn(entries.drop_last(), frontier, effort).push(
            (entries.last().0, handed(entries.last().1@, effort)),
        )
    } else {
        drawn(entries.drop_last(), frontier, effort)
    }
}

/// What stays behind: the batches of the times that cannot be answered
/// yet, and of the others those that the effort does not pay for, where
/// there are any.
pub open spec fn deferred<R>(entries: Seq<Waiting<R>>, frontier: Option<u64>, effort: nat) -> Seq<
    (u64, Seq<Vec<R>>),
>
    decreases entries.len(),
{
    if entries.len() == 0 {
        Seq::empty()
    } else {
        let rest = deferred(entries.drop_last(), frontier, effort);
        let last = entries.last();
        if !absorbed(frontier, last.0) {
            rest.push((last.0, last.1@))
        } else if unpaid(last.1@, effort).len() > 0 {
            rest.push((last.0, unpaid(last.1@, effort)))
        } else {
            rest
        }
    }
}

/// No more batches are paid for than there are.
pub proof fn lemma_paid_bounded<R>(batches: Seq<Vec<R>>, effort: nat)
    ensures
        paid(batches, effort) <= batches.len(),
    decreases batches.len(),
{
    if batches.len() > 0 && effort > 0 {
        lemma_paid_bounded(batches.drop_last(), left_after(effort, batches.last()@.len()));
    }
}

/// Takes from the end of `batches` what `effort` pays for.
fn draw<R>(batches: &mut Vec<Vec<R>>, effort: usize) -> (out: Vec<Vec<R>>)
    ensures
        out@ == handed(old(batches)@, effort as nat),
        final(batches)@ == unpaid(old(batches)@, effort as nat),
{
    let mut out: Vec<Vec<R>> = Vec::new();
    let mut effort: usize = effort;
    let ghost whole = batches@;
    let ghost budget = effort as nat;
    while batches.len() > 0 && effort > 0
        invariant
            out@.len() + paid(batches@, effort as nat) == paid(whole, budget),
            out@.len() <= whole.len(),
            batches@ == whole.take(whole.len() - out@.len()),
            forall|i: int| 0 <= i < out@.len() ==> #[trigger] out@[i] == whole[whole.len() - 1 - i],
        decreases batches.len(),
    {
        let ghost before = batches@;
        let list = batches.pop().unwrap();
        proof {
            assert(batches@ =~= before.drop_last());
            assert(list == whole[whole.len() - 1 - out@.len()]);
        }
        effort = if list.len() > effort {
            0
        } else {
            effort - list.len()
        };
        out.push(list);
        proof {
            assert(batches@ =~= whole.take(whole.len() - out@.len()));
        }
    }
    proof {
        lemma_paid_bounded(whole, budget);
        assert(paid(batches@, effort as nat) == 0);
        assert(out@ =~= handed(whole, budget));
    }
    out
}

} // verus!
