//! The immutable base of an index: for each key a sorted slice of values.

use vstd::prelude::*;
use crate::order::ascending;
use crate::{advance, advanced};

verus! {

/// The values that `pairs` holds for `key`, in their order.
pub open spec fn values_for(pairs: Seq<(u32, u32)>, key: u32) -> Seq<u32>
    decreases pairs.len(),
{
    if pairs.len() == 0 {
        Seq::empty()
    } else if pairs.last().0 == key {
        values_for(pairs.drop_last(), key).push(pairs.last().1)
    } else {
        values_for(pairs.drop_last(), key)
    }
}

/// The pairs ascend by key, and by value under one key.
pub open spec fn pairs_ascend(pairs: Seq<(u32, u32)>) -> bool {
    forall|i: int, j: int|
        0 <= i <= j < pairs.len() ==> pairs[i].0 < pairs[j].0 || (pairs[i].0 == pairs[j].0
            && pairs[i].1 <= pairs[j].1)
}

/// Where the values of the key at `i` start.
pub open spec fn slice_start(keys: Seq<(u32, usize)>, i: int) -> int {
    if i <= 0 {
        0
    } else {
        keys[i - 1].1 as int
    }
}

/// The values of the key at `i`.
pub open spec fn slice_at(keys: Seq<(u32, usize)>, vals: Seq<u32>, i: int) -> Seq<u32> {
    vals.subrange(slice_start(keys, i), keys[i].1 as int)
}

/// A compact layout of `(key, value)` pairs: the keys in ascending order,
/// each with the offset at which its values end, and all values in one list.
pub struct CompactIndex {
    keys: Vec<(u32, usize)>,
    vals: Vec<u32>,
}

impl CompactIndex {
    /// The keys, each with the end of its values.
    pub closed spec fn keys(&self) -> Seq<(u32, usize)> {
        self.keys@
    }

    /// The values of all keys, key after key.
    pub closed spec fn vals(&self) -> Seq<u32> {
        self.vals@
    }

    /// The keys strictly ascend, each has at least one value, the values
    /// of each ascend, and the offsets cover the values exactly.
    #[verifier::opaque]
    pub open spec fn wf(&self) -> bool {
        let keys = self.keys();
        let vals = self.vals();
        &&& forall|i: int, j: int| 0 <= i < j < keys.len() ==> keys[i].0 < keys[j].0
        &&& forall|i: int|
            0 <= i < keys.len() ==> slice_start(keys, i) < (#[trigger] keys[i]).1 <= vals.len()
        &&& keys.len() == 0 ==> vals.len() == 0
        &&& keys.len() > 0 ==> keys.last().1 == vals.len()
        &&& forall|i: int| 0 <= i < keys.len() ==> ascending(#[trigger] slice_at(keys, vals, i))
    }

    /// The index holds `key`.
    pub open spec fn has(&self, key: u32) -> bool {
        exists|i: int| 0 <= i < self.keys().len() && #[trigger] self.keys()[i].0 == key
    }

    /// The position of `key` among the keys.
    pub open spec fn place(&self, key: u32) -> int {
        choose|i: int| 0 <= i < self.keys().len() && #[trigger] self.keys()[i].0 == key
    }

    /// The values of `key` in ascending order; none for a key that the index
    /// does not hold.
    pub open spec fn base(&self, key: u32) -> Seq<u32> {
        if self.has(key) {
            slice_at(self.keys(), self.vals(), self.place(key))
        } else {
            Seq::empty()
        }
    }

    /// `key` lies at `cursor` or behind it.
    pub open spec fn ahead(&self, key: u32, cursor: int) -> bool {
        exists|i: int| cursor <= i < self.keys().len() && #[trigger] self.keys()[i].0 == key
    }

    /// The index holds nothing.
    pub open spec fn is_empty(&self) -> bool {
        self.keys().len() == 0 && self.vals().len() == 0
    }

    /// The keys strictly ascend.
    pub proof fn lemma_keys_ascend(&self, i: int, j: int)
        requires
            self.wf(),
            0 <= i < j < self.keys().len(),
        ensures
            self.keys()[i].0 < self.keys()[j].0,
    {
        reveal(CompactIndex::wf);
    }

    /// The values of the key at `i` are at least one, and lie within the
    /// list of values.
    pub proof fn lemma_slice_bounds(&self, i: int)
        requires
            self.wf(),
            0 <= i < self.keys().len(),
        ensures
            0 <= slice_start(self.keys(), i) < self.keys()[i].1 <= self.vals().len(),
    {
        reveal(CompactIndex::wf);
        if i > 0 {
            assert(0 <= slice_start(self.keys(), i - 1) < self.keys()[i - 1].1);
        }
    }

    /// The values of the key found at `i` are the values of that key.
    pub proof fn lemma_base_at(&self, i: int)
        requires
            self.wf(),
            0 <= i < self.keys().len(),
        ensures
            self.has(self.keys()[i].0),
            self.base(self.keys()[i].0) == slice_at(self.keys(), self.vals(), i),
            ascending(self.base(self.keys()[i].0)),
    {
        reveal(CompactIndex::wf);
        let key = self.keys()[i].0;
        let j = self.place(key);
        if j < i {
            assert(self.keys()[j].0 < self.keys()[i].0);
        } else if i < j {
            assert(self.keys()[i].0 < self.keys()[j].0);
        }
    }

    /// The values of a key are in ascending order.
    pub proof fn lemma_base_ascends(&self, key: u32)
        requires
            self.wf(),
        ensures
            ascending(self.base(key)),
    {
        if self.has(key) {
            self.lemma_base_at(self.place(key));
        }
    }

    /// The values of a key are no more than a list can hold.
    pub proof fn lemma_base_fits(&self, key: u32)
        requires
            self.wf(),
        ensures
            self.base(key).len() <= usize::MAX,
    {
        if self.has(key) {
            self.lemma_slice_bounds(self.place(key));
        }
    }

    /// Allocates a new `CompactIndex`.
    pub fn new() -> (index: Self)
        ensures
            index.wf(),
            index.is_empty(),
            forall|key: u32| index.base(key) == Seq::<u32>::empty(),
    {
        reveal(CompactIndex::wf);
        CompactIndex { keys: Vec::new(), vals: Vec::new() }
    }

    /// Loads a `CompactIndex` from an ordered sequence of key-value pairs,
    /// `length` of them. What the index held before is dropped.
    pub fn load(&mut self, length: usize, pairs: Vec<(u32, u32)>)
        requires
            length == pairs.len(),
            pairs_ascend(pairs@),
        ensures
            final(self).wf(),
            final(self).vals().len() == length,
            forall|key: u32| #[trigger] final(self).base(key) == values_for(pairs@, key),
    {
        self.keys.clear();
        self.vals.clear();
        self.vals.reserve(length);
        let mut n: usize = 0;
        proof {
            reveal(CompactIndex::wf);
            assert(pairs@.take(0) =~= Seq::empty());
        }
        while n < length
            invariant
                length == pairs.len(),
                n <= length,
                pairs_ascend(pairs@),
                self.wf(),
                self.vals@.len() == n,
                n > 0 ==> self.keys@.len() > 0 && self.keys@.last().0 == pairs[n - 1].0
                    && self.vals@.last() == pairs[n - 1].1,
                forall|i: int|
                    0 <= i < self.keys@.len() ==> #[trigger] slice_at(self.keys@, self.vals@, i)
                        == values_for(pairs@.take(n as int), self.keys@[i].0),
                forall|key: u32|
                    !self.has(key) ==> #[trigger] values_for(pairs@.take(n as int), key)
                        == Seq::<u32>::empty(),
            decreases length - n,
        {
            let (key, val) = pairs[n];
            let ghost keys = self.keys@;
            let ghost vals = self.vals@;
            let ghost seen = pairs@.take(n as int);
            let ghost old_self = *self;
            proof {
                reveal(CompactIndex::wf);
                assert(pairs@.take(n + 1).drop_last() =~= seen);
                assert(pairs@.take(n + 1).last() == (key, val));
            }
            self.vals.push(val);
            let count = self.keys.len();
            if count > 0 && self.keys[count - 1].0 == key {
                self.keys[count - 1].1 = self.vals.len();
                proof {
                    let now = self.keys@;
                    assert forall|i: int| 0 <= i < now.len() implies #[trigger] slice_at(
                        now,
                        self.vals@,
                        i,
                    ) == values_for(pairs@.take(n + 1), now[i].0) by {
                        if i < count - 1 {
                            assert(slice_at(now, self.vals@, i) =~= slice_at(keys, vals, i));
                            assert(keys[i].0 < keys[count - 1].0);
                        } else {
                            assert(slice_at(now, self.vals@, i) =~= slice_at(keys, vals, i).push(
                                val,
                            ));
                        }
                    }
                    assert forall|i: int| 0 <= i < now.len() implies ascending(
                        #[trigger] slice_at(now, self.vals@, i),
                    ) by {
                        if i < count - 1 {
                            assert(slice_at(now, self.vals@, i) =~= slice_at(keys, vals, i));
                        } else {
                            let before = slice_at(keys, vals, i);
                            assert(ascending(before));
                            assert(slice_at(now, self.vals@, i) =~= before.push(val));
                            assert(before.last() == vals.last());
                        }
                    }
                    assert forall|other: u32| !self.has(other) implies #[trigger] values_for(
                        pairs@.take(n + 1),
                        other,
                    ) == Seq::<u32>::empty() by {
                        if old_self.has(other) {
                            let i = old_self.place(other);
                            assert(self.keys()[i].0 == other);
                        }
                        assert(self.keys()[count - 1].0 == key);
                        assert(values_for(seen, other) == Seq::<u32>::empty());
                    }
                    assert forall|i: int| 0 <= i < now.len() implies slice_start(now, i) < (
                    #[trigger] now[i]).1 <= self.vals@.len() by {
                        if i < count - 1 {
                            assert(slice_start(keys, i) < keys[i].1);
                        } else {
                            assert(slice_start(keys, i) < keys[i].1);
                        }
                    }
                }
            } else {
                self.keys.push((key, self.vals.len()));
                proof {
                    let now = self.keys@;
                    assert forall|i: int| 0 <= i < keys.len() implies keys[i].0 < key by {
                        assert(keys[i].0 <= keys[count - 1].0);
                        assert(pairs[n - 1].0 <= pairs[n as int].0);
                    }
                    assert(!old_self.has(key));
                    assert forall|i: int| 0 <= i < now.len() implies #[trigger] slice_at(
                        now,
                        self.vals@,
                        i,
                    ) == values_for(pairs@.take(n + 1), now[i].0) by {
                        if i < count {
                            assert(slice_at(now, self.vals@, i) =~= slice_at(keys, vals, i));
                            assert(keys[i].0 < key);
                        } else {
                            assert(slice_at(now, self.vals@, i) =~= Seq::<u32>::empty().push(
                                val,
                            ));
                            assert(values_for(seen, key) == Seq::<u32>::empty());
                        }
                    }
                    assert forall|i: int| 0 <= i < now.len() implies ascending(
                        #[trigger] slice_at(now, self.vals@, i),
                    ) by {
                        if i < count {
                            assert(slice_at(now, self.vals@, i) =~= slice_at(keys, vals, i));
                        } else {
                            assert(slice_at(now, self.vals@, i) =~= Seq::<u32>::empty().push(
                                val,
                            ));
                        }
                    }
                    assert forall|other: u32| !self.has(other) implies #[trigger] values_for(
                        pairs@.take(n + 1),
                        other,
                    ) == Seq::<u32>::empty() by {
                        if old_self.has(other) {
                            let i = old_self.place(other);
                            assert(self.keys()[i].0 == other);
                        }
                        assert(self.keys()[count as int].0 == key);
                        assert(values_for(seen, other) == Seq::<u32>::empty());
                    }
                    assert forall|i: int| 0 <= i < now.len() implies slice_start(now, i) < (
                    #[trigger] now[i]).1 <= self.vals@.len() by {
                        if i < count {
                            assert(slice_start(keys, i) < keys[i].1);
                        }
                    }
                }
            }
            n += 1;
        }
        proof {
            assert(pairs@.take(length as int) =~= pairs@);
            assert forall|key: u32| #[trigger] self.base(key) == values_for(pairs@, key) by {
                if self.has(key) {
                    self.lemma_base_at(self.place(key));
                }
            }
        }
    }

    /// Reveals the values of `key`, starting the search at `key_cursor` and
    /// moving it on.
    ///
    /// The cursor serves a batch of queries in ascending key order: it is
    /// left behind the keys up to `key`, so the values are found if `key`
    /// lies at the cursor or behind it, and nothing is returned if it does
    /// not.
    pub fn values_from<'a>(&'a self, key: &u32, key_cursor: &mut usize) -> (values: &'a [u32])
        requires
            self.wf(),
        ensures
            *old(key_cursor) >= self.keys().len() ==> *final(key_cursor) == *old(key_cursor)
                && values@.len() == 0,
            *old(key_cursor) <= *final(key_cursor),
            *old(key_cursor) <= self.keys().len() ==> *final(key_cursor) <= self.keys().len(),
            forall|i: int|
                *old(key_cursor) <= i < *final(key_cursor) ==> (#[trigger] self.keys()[i]).0
                    <= *key,
            forall|i: int|
                *final(key_cursor) <= i < self.keys().len() ==> (#[trigger] self.keys()[i]).0
                    > *key,
            self.ahead(*key, *old(key_cursor) as int) ==> values@ == self.base(*key),
            !self.ahead(*key, *old(key_cursor) as int) ==> values@.len() == 0,
    {
        let count = self.keys.len();
        let start = *key_cursor;
        if start < count {
            let wanted = *key;
            let below = |x: &(u32, usize)| -> (b: bool)
                ensures
                    b == (x.0 < wanted),
                { x.0 < wanted };
            let rest = &self.keys[start..count];
            let step = advance(rest, below);
            proof {
                let p = |x: (u32, usize)| x.0 < wanted;
                assert forall|i: int, j: int| 0 <= i <= j < rest@.len() && p(
                    #[trigger] rest@[j],
                ) implies p(#[trigger] rest@[i]) by {
                    if i < j {
                        self.lemma_keys_ascend(start + i, start + j);
                    }
                }
                assert(advanced(below, p, rest@, step as int));
                assert forall|i: int| start <= i < start + step implies (
                #[trigger] self.keys()[i]).0 < wanted by {
                    assert(p(rest@[i - start]));
                }
                assert forall|i: int| start + step <= i < count implies (
                #[trigger] self.keys()[i]).0 >= wanted by {
                    assert(!p(rest@[i - start]));
                }
            }
            let found = start + step;
            if found < count && self.keys[found].0 == wanted {
                let lower = if found == 0 {
                    0
                } else {
                    self.keys[found - 1].1
                };
                let upper = self.keys[found].1;
                proof {
                    self.lemma_base_at(found as int);
                    self.lemma_slice_bounds(found as int);
                    assert(self.ahead(wanted, start as int));
                    assert forall|i: int| found + 1 <= i < count implies (
                    #[trigger] self.keys()[i]).0 > wanted by {
                        self.lemma_keys_ascend(found as int, i);
                    }
                }
                *key_cursor = found + 1;
                &self.vals[lower..upper]
            } else {
                proof {
                    if self.ahead(wanted, start as int) {
                        let i = choose|i: int|
                            start <= i < self.keys().len() && #[trigger] self.keys()[i].0
                                == wanted;
                        if i < found {
                            assert(self.keys()[i].0 < wanted);
                        } else {
                            assert(self.keys()[i].0 >= wanted);
                            if found < i {
                                self.lemma_keys_ascend(found as int, i);
                            }
                        }
                        assert(false);
                    }
                    assert forall|i: int| found <= i < count implies (
                    #[trigger] self.keys()[i]).0 > wanted by {
                        if found < i {
                            self.lemma_keys_ascend(found as int, i);
                        }
                    }
                }
                *key_cursor = found;
                &self.vals[0..0]
            }
        } else {
            proof {
                if self.ahead(*key, start as int) {
                    let i = choose|i: int|
                        start <= i < self.keys().len() && #[trigger] self.keys()[i].0 == *key;
                    assert(false);
                }
            }
            &self.vals[0..0]
        }
    }
}

} // verus!
