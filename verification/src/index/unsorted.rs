//! The updates that are not committed yet, each with its time, sorted by
//! key and value.

use vstd::prelude::*;
use crate::order::{ascending_by, filed_under, sort_from, Keyed};
use crate::{advance, advanced};

verus! {

/// An update: key, value, time and diff.
pub type Update = (u32, u32, u64, i32);

/// The updates of a batch, each stamped with `time`.
pub open spec fn stamped(batch: Seq<((u32, u32), i32)>, time: u64) -> Seq<Update> {
    batch.map_values(|b: ((u32, u32), i32)| (b.0.0, b.0.1, time, b.1))
}

/// Updates that ascend by key and value ascend by key.
pub proof fn lemma_keys_ascend(updates: Seq<Update>, i: int, j: int)
    requires
        ascending_by(updates),
        0 <= i <= j < updates.len(),
    ensures
        updates[i].0 < updates[j].0 || (updates[i].0 == updates[j].0 && updates[i].1
            <= updates[j].1),
{
    assert(updates[i].key_spec() <= updates[j].key_spec());
}

/// The uncommitted updates of an index.
pub struct Unsorted {
    /// The updates in ascending order of key and value.
    pub updates: Vec<Update>,
}

impl Unsorted {
    /// The updates ascend by key, and by value under one key.
    pub open spec fn wf(&self) -> bool {
        ascending_by(self.updates@)
    }

    /// Allocates an empty buffer.
    pub fn new() -> (buffer: Self)
        ensures
            buffer.wf(),
            buffer.updates@.len() == 0,
    {
        Unsorted { updates: Vec::new() }
    }

    /// Reveals the updates of `key`, starting the search at `key_cursor`
    /// and moving it behind them.
    ///
    /// The updates returned are those between the two positions that the
    /// contract fixes: before them, from the cursor on, lie smaller keys
    /// only, behind them larger keys only.
    pub fn values_from<'a>(&'a self, key: &u32, key_cursor: &mut usize) -> (values: &'a [Update])
        requires
            self.wf(),
            *old(key_cursor) <= self.updates.len(),
        ensures
            *old(key_cursor) <= *final(key_cursor) - values@.len(),
            *final(key_cursor) <= self.updates.len(),
            values@ == self.updates@.subrange(
                *final(key_cursor) - values@.len(),
                *final(key_cursor) as int,
            ),
            forall|i: int|
                *old(key_cursor) <= i < *final(key_cursor) - values@.len() ==> (
                #[trigger] self.updates[i]).0 < *key,
            forall|i: int|
                *final(key_cursor) - values@.len() <= i < *final(key_cursor) ==> (
                #[trigger] self.updates[i]).0 == *key,
            forall|i: int|
                *final(key_cursor) <= i < self.updates.len() ==> (#[trigger] self.updates[i]).0
                    > *key,
    {
        let count = self.updates.len();
        let start = *key_cursor;
        let wanted = *key;
        let below = |x: &Update| -> (b: bool)
            ensures
                b == (x.0 < wanted),
            { x.0 < wanted };
        let rest = &self.updates[start..count];
        let skip = advance(rest, below);
        proof {
            let p = |x: Update| x.0 < wanted;
            assert forall|i: int, j: int| 0 <= i <= j < rest@.len() && p(
                #[trigger] rest@[j],
            ) implies p(#[trigger] rest@[i]) by {
                lemma_keys_ascend(self.updates@, start + i, start + j);
            }
            assert(advanced(below, p, rest@, skip as int));
            assert forall|i: int| start <= i < start + skip implies (
            #[trigger] self.updates[i]).0 < wanted by {
                assert(p(rest@[i - start]));
            }
            assert forall|i: int| start + skip <= i < count implies (
            #[trigger] self.updates[i]).0 >= wanted by {
                assert(!p(rest@[i - start]));
            }
        }
        let first = start + skip;
        let upto = |x: &Update| -> (b: bool)
            ensures
                b == (x.0 <= wanted),
            { x.0 <= wanted };
        let rest = &self.updates[first..count];
        let step = advance(rest, upto);
        proof {
            let p = |x: Update| x.0 <= wanted;
            assert forall|i: int, j: int| 0 <= i <= j < rest@.len() && p(
                #[trigger] rest@[j],
            ) implies p(#[trigger] rest@[i]) by {
                lemma_keys_ascend(self.updates@, first + i, first + j);
            }
            assert(advanced(upto, p, rest@, step as int));
            assert forall|i: int| first <= i < first + step implies (
            #[trigger] self.updates[i]).0 == wanted by {
                assert(p(rest@[i - first]));
            }
            assert forall|i: int| first + step <= i < count implies (
            #[trigger] self.updates[i]).0 > wanted by {
                assert(!p(rest@[i - first]));
            }
        }
        *key_cursor = first + step;
        &self.updates[first..first + step]
    }

    /// Adds the updates of `batch`, each at `time`, and sorts all updates
    /// by key and value again. The batch is left empty.
    pub fn extend(&mut self, time: u64, batch: &mut Vec<((u32, u32), i32)>)
        ensures
            final(batch)@.len() == 0,
            final(self).wf(),
            final(self).updates@.to_multiset() == (old(self).updates@ + stamped(
                old(batch)@,
                time,
            )).to_multiset(),
            forall|k: u64|
                filed_under(final(self).updates@, k) == #[trigger] filed_under(
                    old(self).updates@ + stamped(old(batch)@, time),
                    k,
                ),
    {
        let count = batch.len();
        let mut i: usize = 0;
        while i < count
            invariant
                count == batch.len(),
                i <= count,
                *batch == *old(batch),
                self.updates@ == old(self).updates@ + stamped(batch@, time).take(i as int),
            decreases count - i,
        {
            let ((key, val), diff) = batch[i];
            self.updates.push((key, val, time, diff));
            proof {
                assert(stamped(batch@, time).take(i + 1) =~= stamped(batch@, time).take(
                    i as int,
                ).push((key, val, time, diff)));
            }
            i += 1;
        }
        batch.clear();
        proof {
            assert(stamped(old(batch)@, time).take(count as int) =~= stamped(old(batch)@, time));
        }
        let ghost joined = self.updates@;
        sort_from(&mut self.updates, 0);
        proof {
            assert(self.updates@.subrange(0, self.updates@.len() as int) =~= self.updates@);
            assert(joined.subrange(0, joined.len() as int) =~= joined);
        }
    }
}

} // verus!
