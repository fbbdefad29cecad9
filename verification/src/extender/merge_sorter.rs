//! Sorting pairs that arrive in batches, by merging sorted lists of chunks.

use std::collections::VecDeque;
use vstd::prelude::*;
use vstd::multiset::Multiset;
use vstd::seq_lib::*;
use crate::index::compact::pairs_ascend;
use crate::index::joined;
use crate::order::{lemma_map_rearranged, sort_from, Keyed};

verus! {

/// A list of pairs, a part of a longer list.
pub type Chunk = Vec<(u32, u32)>;

/// The number of pairs in a chunk that a merge fills.
pub const CHUNK: usize = 1024;

/// A queue that hands out the elements of a list from its front.
pub struct VecQueue<T> {
    list: VecDeque<T>,
}

impl<T> View for VecQueue<T> {
    type V = Seq<T>;

    /// The elements that are left, the next one first.
    closed spec fn view(&self) -> Seq<T> {
        self.list@
    }
}

impl<T> VecQueue<T> {
    /// A queue of nothing.
    pub fn new() -> (queue: Self)
        ensures
            queue@.len() == 0,
    {
        VecQueue { list: VecDeque::new() }
    }

    /// Takes the next element.
    pub fn pop(&mut self) -> (element: T)
        requires
            old(self)@.len() > 0,
        ensures
            element == old(self)@[0],
            final(self)@ == old(self)@.drop_first(),
    {
        let element = self.list.pop_front();
        proof {
            assert(old(self)@.subrange(1, old(self)@.len() as int) =~= old(self)@.drop_first());
        }
        element.unwrap()
    }

    /// Looks at the next element.
    pub fn peek(&self) -> (element: &T)
        requires
            self@.len() > 0,
        ensures
            *element == self@[0],
    {
        &self.list[0]
    }

    /// A queue of the elements of `list`, in their order.
    pub fn from(list: Vec<T>) -> (queue: Self)
        ensures
            queue@ == list@,
    {
        let mut queue: VecDeque<T> = VecDeque::new();
        for element in it: list
            invariant
                it.seq() == list@,
                queue@ == list@.take(it.index() as int),
        {
            queue.push_back(element);
            proof {
                assert(list@.take(it.index() + 1) =~= list@.take(it.index() as int).push(element));
            }
        }
        proof {
            assert(list@.take(list@.len() as int) =~= list@);
        }
        VecQueue { list: queue }
    }

    /// An empty list, once all elements are taken.
    pub fn done(self) -> (list: Vec<T>)
        requires
            self@.len() == 0,
        ensures
            list@.len() == 0,
    {
        Vec::new()
    }

    /// The number of elements that are left.
    pub fn len(&self) -> (count: usize)
        ensures
            count == self@.len(),
    {
        self.list.len()
    }

    /// Whether no element is left.
    pub fn is_empty(&self) -> (empty: bool)
        ensures
            empty == (self@.len() == 0),
    {
        self.list.len() == 0
    }
}

/// The pair as one number that orders as the pair does.
pub open spec fn pack(pair: (u32, u32)) -> u64 {
    (pair.0 as u64 * 0x1_0000_0000 + pair.1 as u64) as u64
}

/// The pair that a number stands for.
pub open spec fn unpack(packed: u64) -> (u32, u32) {
    ((packed / 0x1_0000_0000) as u32, (packed % 0x1_0000_0000) as u32)
}

/// `a` comes before `b`: its key is smaller, or its value under the same
/// key.
pub open spec fn before(a: (u32, u32), b: (u32, u32)) -> bool {
    a.0 < b.0 || (a.0 == b.0 && a.1 < b.1)
}

/// Tests whether `a` comes before `b`.
pub fn less(a: &(u32, u32), b: &(u32, u32)) -> (result: bool)
    ensures
        result == before(*a, *b),
{
    a.0 < b.0 || (a.0 == b.0 && a.1 < b.1)
}

/// The chunks hold pairs, and their pairs ascend from chunk to chunk.
pub open spec fn sorted_chunks(list: Seq<Chunk>) -> bool {
    &&& pairs_ascend(joined(list))
    &&& forall|i: int| 0 <= i < list.len() ==> (#[trigger] list[i])@.len() > 0
}

/// The pairs of a list of chunks with one more chunk.
pub proof fn lemma_joined_push(list: Seq<Chunk>, chunk: Chunk)
    ensures
        joined(list.push(chunk)) == joined(list) + chunk@,
{
    assert(list.push(chunk).drop_last() =~= list);
}

/// The pairs of a list of chunks start with those of its first chunk.
pub proof fn lemma_joined_front(list: Seq<Chunk>)
    requires
        list.len() > 0,
    ensures
        joined(list) == list[0]@ + joined(list.drop_first()),
    decreases list.len(),
{
    if list.len() == 1 {
        assert(list.drop_last() =~= Seq::empty());
        assert(list.drop_first() =~= Seq::empty());
        assert(joined(list.drop_last()) =~= Seq::empty());
        assert(joined(list.drop_first()) =~= Seq::empty());
        assert(list.last() == list[0]);
        assert(joined(list) =~= list[0]@);
        assert(list[0]@ + joined(list.drop_first()) =~= list[0]@);
    } else {
        lemma_joined_front(list.drop_last());
        assert(list.drop_last().drop_first() =~= list.drop_first().drop_last());
        assert(list.drop_first().last() == list.last());
        assert(joined(list) =~= list[0]@ + joined(list.drop_first()));
    }
}

/// Sorts the pairs of a chunk by key and value.
fn sort_chunk(batch: &mut Chunk)
    ensures
        pairs_ascend(final(batch)@),
        final(batch)@.to_multiset() == old(batch)@.to_multiset(),
        final(batch)@.len() == old(batch)@.len(),
{
    let count = batch.len();
    let mut packed: Vec<u64> = Vec::new();
    let mut i: usize = 0;
    while i < count
        invariant
            count == batch.len(),
            *batch == *old(batch),
            i <= count,
            packed@ == batch@.take(i as int).map_values(|p: (u32, u32)| pack(p)),
        decreases count - i,
    {
        let (key, val) = batch[i];
        packed.push(key as u64 * 0x1_0000_0000 + val as u64);
        proof {
            assert(batch@.take(i + 1) =~= batch@.take(i as int).push((key, val)));
            assert(packed@ =~= batch@.take(i + 1).map_values(|p: (u32, u32)| pack(p)));
        }
        i += 1;
    }
    let ghost given = packed@;
    sort_from(&mut packed, 0);
    proof {
        assert(batch@.take(count as int) =~= batch@);
        assert(packed@.subrange(0, count as int) =~= packed@);
        assert(given.subrange(0, count as int) =~= given);
    }
    batch.clear();
    let mut i: usize = 0;
    while i < count
        invariant
            count == packed.len(),
            i <= count,
            batch@ == packed@.take(i as int).map_values(|x: u64| unpack(x)),
        decreases count - i,
    {
        let x = packed[i];
        batch.push(((x / 0x1_0000_0000) as u32, (x % 0x1_0000_0000) as u32));
        proof {
            assert(packed@.take(i + 1) =~= packed@.take(i as int).push(x));
            assert(batch@ =~= packed@.take(i + 1).map_values(|x: u64| unpack(x)));
        }
        i += 1;
    }
    proof {
        assert(packed@.take(count as int) =~= packed@);
        let packs = |p: (u32, u32)| pack(p);
        let unpacks = |x: u64| unpack(x);
        lemma_map_rearranged(packed@, given, unpacks);
        assert(given.map_values(unpacks) =~= old(batch)@) by {
            assert forall|n: int| 0 <= n < given.len() implies given.map_values(unpacks)[n] == old(
                batch,
            )@[n] by {
                let p = old(batch)@[n];
                assert(given[n] == pack(p));
                assert(unpack(pack(p)) == p);
            }
        }
        assert forall|a: int, b: int| 0 <= a <= b < batch@.len() implies batch@[a].0 < batch@[b].0
            || (batch@[a].0 == batch@[b].0 && batch@[a].1 <= batch@[b].1) by {
            assert(packed@[a].key_spec() <= packed@[b].key_spec());
        }
    }
}

/// A sorter of pairs that arrive in batches.
///
/// Each batch is sorted and queued as a list of one chunk. Lists are merged
/// while the newest is at least half as long as the one before it, so the
/// lengths at least double down the queue.
pub struct MergeSorter {
    /// The sorted lists of chunks.
    queue: Vec<Vec<Chunk>>,
    /// Empty chunks to fill.
    stash: Vec<Chunk>,
}

impl MergeSorter {
    /// The sorted lists, the newest last.
    pub closed spec fn lists(&self) -> Seq<Vec<Chunk>> {
        self.queue@
    }

    /// The empty chunks that are kept to be filled.
    pub closed spec fn spare(&self) -> Seq<Chunk> {
        self.stash@
    }

    /// Each list is sorted, and the spare chunks are empty.
    pub open spec fn wf(&self) -> bool {
        &&& forall|i: int| 0 <= i < self.lists().len() ==> sorted_chunks((#[trigger] self.lists()[i])@)
        &&& forall|i: int| 0 <= i < self.spare().len() ==> (#[trigger] self.spare()[i])@.len() == 0
    }

    /// The pairs of the first `upto` lists.
    pub open spec fn held(&self, upto: int) -> Multiset<(u32, u32)>
        decreases upto,
    {
        if upto <= 0 {
            Multiset::empty()
        } else {
            self.held(upto - 1).add(joined(self.lists()[upto - 1]@).to_multiset())
        }
    }

    /// The pairs that the sorter holds.
    pub open spec fn contents(&self) -> Multiset<(u32, u32)> {
        self.held(self.lists().len() as int)
    }

    /// A sorter that holds nothing.
    pub fn new() -> (sorter: Self)
        ensures
            sorter.wf(),
            sorter.lists().len() == 0,
            sorter.contents() == Multiset::<(u32, u32)>::empty(),
    {
        MergeSorter { queue: Vec::new(), stash: Vec::new() }
    }

    /// An empty chunk: a spare one if there is any.
    pub fn _empty(&mut self) -> (chunk: Chunk)
        requires
            old(self).wf(),
        ensures
            final(self).wf(),
            final(self).lists() == old(self).lists(),
            chunk@.len() == 0,
    {
        let chunk = match self.stash.pop() {
            Some(chunk) => chunk,
            None => Vec::new(),
        };
        proof {
            if old(self).spare().len() > 0 {
                assert(old(self).spare()[old(self).spare().len() - 1]@.len() == 0);
            }
            assert forall|i: int| 0 <= i < self.spare().len() implies (
            #[trigger] self.spare()[i])@.len() == 0 by {
                assert(self.spare()[i] == old(self).spare()[i]);
            }
            assert forall|i: int| 0 <= i < self.lists().len() implies sorted_chunks(
                (#[trigger] self.lists()[i])@,
            ) by {
                assert(self.lists()[i] == old(self).lists()[i]);
            }
        }
        chunk
    }

    /// Sorts the batches of `list`, together with what the sorter holds, into
    /// one sorted list of chunks. The sorter is left holding nothing.
    pub fn _sort(&mut self, list: &mut Vec<Chunk>)
        requires
            old(self).wf(),
        ensures
            final(self).wf(),
            final(self).lists().len() == 0,
            sorted_chunks(final(list)@),
            joined(final(list)@).to_multiset() == old(self).contents().add(
                joined(old(list)@).to_multiset(),
            ),
    {
        let mut batches: Vec<Chunk> = Vec::new();
        std::mem::swap(list, &mut batches);
        proof {
            assert(batches@.take(0) =~= Seq::empty());
            assert(joined(batches@.take(0)) =~= Seq::empty());
            assert(joined(batches@.take(0)).to_multiset() =~= Multiset::<(u32, u32)>::empty()) by {
                broadcast use group_to_multiset_ensures;

            }
            assert(self.contents() =~= old(self).contents().add(
                joined(batches@.take(0)).to_multiset(),
            ));
        }
        for batch in it: batches
            invariant
                it.seq() == batches@,
                batches@ == old(list)@,
                list@.len() == 0,
                self.wf(),
                self.contents() == old(self).contents().add(
                    joined(batches@.take(it.index() as int)).to_multiset(),
                ),
        {
            let mut batch = batch;
            let ghost seen = batches@.take(it.index() as int);
            proof {
                assert(batches@.take(it.index() + 1) =~= seen.push(batch));
                lemma_joined_push(seen, batch);
                lemma_multiset_commutative(joined(seen), batch@);
            }
            self.push(&mut batch);
            proof {
                assert(self.contents() =~= old(self).contents().add(
                    joined(batches@.take(it.index() + 1)).to_multiset(),
                ));
            }
        }
        proof {
            assert(batches@.take(batches@.len() as int) =~= batches@);
        }
        let ghost filled = *self;
        self.finish_into(list);
        proof {
            if filled.lists().len() == 0 {
                assert(filled.contents() == Multiset::<(u32, u32)>::empty());
                assert(joined(list@) =~= Seq::empty());
                assert(joined(list@).to_multiset() =~= Multiset::<(u32, u32)>::empty()) by {
                    broadcast use group_to_multiset_ensures;

                }
            }
        }
    }

    /// Takes the pairs of `batch`, which is left empty, sorts them and
    /// queues them.
    pub fn push(&mut self, batch: &mut Chunk)
        requires
            old(self).wf(),
        ensures
            final(self).wf(),
            final(batch)@.len() == 0,
            final(self).contents() == old(self).contents().add(old(batch)@.to_multiset()),
    {
        let mut taken: Chunk = self._empty();
        std::mem::swap(batch, &mut taken);
        if taken.len() > 0 {
            sort_chunk(&mut taken);
            let mut list: Vec<Chunk> = Vec::new();
            list.push(taken);
            proof {
                lemma_joined_push(Seq::empty(), taken);
                assert(list@ =~= Seq::<Chunk>::empty().push(taken));
                assert(joined(Seq::<Chunk>::empty()) =~= Seq::empty());
                assert(joined(list@) =~= taken@);
            }
            let ghost emptied = *self;
            self.queue.push(list);
            proof {
                let n = old(self).lists().len() as int;
                self.lemma_held_unchanged(*old(self), n);
                assert forall|i: int| 0 <= i < self.lists().len() implies sorted_chunks(
                    (#[trigger] self.lists()[i])@,
                ) by {
                    if i < n {
                        assert(self.lists()[i] == old(self).lists()[i]);
                    } else {
                        assert(self.lists()[i] == list);
                        assert(list@[0] == taken);
                    }
                }
                assert forall|i: int| 0 <= i < self.spare().len() implies (
                #[trigger] self.spare()[i])@.len() == 0 by {
                    assert(self.spare()[i] == emptied.spare()[i]);
                }
                assert(self.held(n + 1) == self.held(n).add(joined(self.lists()[n]@).to_multiset()));
                assert(self.contents() =~= old(self).contents().add(old(batch)@.to_multiset()));
            }
            self.settle();
        } else {
            proof {
                assert(old(batch)@.to_multiset() =~= Multiset::<(u32, u32)>::empty()) by {
                    broadcast use group_to_multiset_ensures;

                }
                self.lemma_held_unchanged(*old(self), old(self).lists().len() as int);
                assert(self.contents() =~= old(self).contents().add(old(batch)@.to_multiset()));
            }
        }
    }

    /// The pairs of the first lists are those of a sorter with the same
    /// first lists.
    pub proof fn lemma_held_unchanged(&self, other: MergeSorter, upto: int)
        requires
            0 <= upto <= self.lists().len(),
            upto <= other.lists().len(),
            forall|i: int| 0 <= i < upto ==> self.lists()[i] == other.lists()[i],
        ensures
            self.held(upto) == other.held(upto),
        decreases upto,
    {
        if upto > 0 {
            self.lemma_held_unchanged(other, upto - 1);
        }
    }

    /// The newest list is less than half as long as the one before it, if
    /// there is one before it.
    pub open spec fn settled(&self) -> bool {
        self.lists().len() < 2 || self.lists()[self.lists().len() - 1]@.len() < self.lists()[self.lists().len()
            - 2]@.len() / 2
    }

    /// Merges the newest list into the one before it while it is at least
    /// half as long. Afterwards the sorter is settled. It holds the pairs
    /// that it held, in no more lists; the lists before the newest one are
    /// lists that it had, in their places; and if no list was merged, all
    /// lists are as they were.
    fn settle(&mut self)
        requires
            old(self).wf(),
        ensures
            final(self).wf(),
            final(self).contents() == old(self).contents(),
            final(self).settled(),
            final(self).lists().len() <= old(self).lists().len(),
            old(self).lists().len() > 0 ==> final(self).lists().len() > 0,
            forall|i: int|
                0 <= i < final(self).lists().len() - 1 ==> #[trigger] final(self).lists()[i] == old(
                    self,
                ).lists()[i],
            old(self).settled() ==> final(self).lists() == old(self).lists(),
            !old(self).settled() ==> final(self).lists().len() < old(self).lists().len(),
    {
        while self.queue.len() > 1 && self.queue[self.queue.len() - 1].len() >= self.queue[
            self.queue.len() - 2].len() / 2
            invariant
                self.wf(),
                self.contents() == old(self).contents(),
                self.lists().len() <= old(self).lists().len(),
                old(self).lists().len() > 0 ==> self.lists().len() > 0,
                forall|i: int|
                    0 <= i < self.lists().len() - 1 ==> #[trigger] self.lists()[i] == old(
                        self,
                    ).lists()[i],
                self.lists().len() == old(self).lists().len() ==> self.lists() == old(self).lists(),
                self.lists().len() < old(self).lists().len() ==> !old(self).settled(),
            decreases self.queue.len(),
        {
            proof {
                assert(!self.settled());
            }
            self.merge_last();
        }
    }

    /// Merges the two newest lists into one.
    fn merge_last(&mut self)
        requires
            old(self).wf(),
            old(self).lists().len() >= 2,
        ensures
            final(self).wf(),
            final(self).lists().len() == old(self).lists().len() - 1,
            final(self).contents() == old(self).contents(),
            forall|i: int|
                0 <= i < old(self).lists().len() - 2 ==> #[trigger] final(self).lists()[i] == old(
                    self,
                ).lists()[i],
    {
        let ghost count = self.queue@.len() as int;
        let list1 = match self.queue.pop() {
            Some(list) => list,
            None => Vec::new(),
        };
        let list2 = match self.queue.pop() {
            Some(list) => list,
            None => Vec::new(),
        };
        proof {
            assert(list1 == old(self).lists()[count - 1]);
            assert(list2 == old(self).lists()[count - 2]);
            assert(sorted_chunks(old(self).lists()[count - 1]@));
            assert(sorted_chunks(old(self).lists()[count - 2]@));
            assert forall|i: int| 0 <= i < self.stash@.len() implies (
            #[trigger] self.stash[i])@.len() == 0 by {
                assert(old(self).spare()[i]@.len() == 0);
            }
        }
        let merged = MergeSorter::merge_by(&mut self.stash, list1, list2);
        self.queue.push(merged);
        proof {
            assert forall|i: int| 0 <= i < self.lists().len() implies sorted_chunks(
                (#[trigger] self.lists()[i])@,
            ) by {
                if i < count - 2 {
                    assert(self.lists()[i] == old(self).lists()[i]);
                    assert(sorted_chunks(old(self).lists()[i]@));
                }
            }
            assert forall|i: int| 0 <= i < self.spare().len() implies (
            #[trigger] self.spare()[i])@.len() == 0 by {
                assert(self.stash[i]@.len() == 0);
            }
            self.lemma_held_unchanged(*old(self), count - 2);
            assert(old(self).held(count - 1) == old(self).held(count - 2).add(
                joined(list2@).to_multiset(),
            ));
            assert(old(self).held(count) == old(self).held(count - 1).add(
                joined(list1@).to_multiset(),
            ));
            assert(self.held(count - 1) == self.held(count - 2).add(joined(merged@).to_multiset()));
            assert(self.contents() =~= old(self).contents());
        }
    }

    /// Queues a sorted list of chunks, after the lists that are shorter
    /// have been merged.
    pub fn _push_list(&mut self, list: Vec<Chunk>)
        requires
            old(self).wf(),
            sorted_chunks(list@),
        ensures
            final(self).wf(),
            final(self).contents() == old(self).contents().add(joined(list@).to_multiset()),
    {
        while self.queue.len() > 1 && self.queue[self.queue.len() - 1].len() < list.len()
            invariant
                self.wf(),
                self.contents() == old(self).contents(),
            decreases self.queue.len(),
        {
            self.merge_last();
        }
        let ghost before = *self;
        self.queue.push(list);
        proof {
            let n = before.lists().len() as int;
            self.lemma_held_unchanged(before, n);
            assert forall|i: int| 0 <= i < self.lists().len() implies sorted_chunks(
                (#[trigger] self.lists()[i])@,
            ) by {
                if i < n {
                    assert(self.lists()[i] == before.lists()[i]);
                }
            }
            assert forall|i: int| 0 <= i < self.spare().len() implies (
            #[trigger] self.spare()[i])@.len() == 0 by {
                assert(self.spare()[i] == before.spare()[i]);
            }
            assert(self.held(n + 1) == self.held(n).add(joined(self.lists()[n]@).to_multiset()));
        }
    }

    /// Merges all lists into one and hands it over in `target`. A sorter
    /// that holds no list leaves `target` as it is.
    pub fn finish_into(&mut self, target: &mut Vec<Chunk>)
        requires
            old(self).wf(),
        ensures
            final(self).wf(),
            final(self).lists().len() == 0,
            old(self).lists().len() == 0 ==> *final(target) == *old(target),
            old(self).lists().len() > 0 ==> sorted_chunks(final(target)@) && joined(
                final(target)@,
            ).to_multiset() == old(self).contents(),
    {
        while self.queue.len() > 1
            invariant
                self.wf(),
                self.contents() == old(self).contents(),
                old(self).lists().len() > 0 ==> self.lists().len() > 0,
                old(self).lists().len() == 0 ==> self.lists().len() == 0,
            decreases self.queue.len(),
        {
            self.merge_last();
        }
        let ghost merged = *self;
        match self.queue.pop() {
            Some(last) => {
                let mut last = last;
                proof {
                    assert(self.lists().len() == 0);
                    assert(last == merged.lists()[0]);
                    assert(sorted_chunks(merged.lists()[0]@));
                    let whole = joined(last@).to_multiset();
                    assert(merged.held(0) == Multiset::<(u32, u32)>::empty());
                    assert(merged.held(1) == merged.held(0).add(whole));
                    assert(Multiset::<(u32, u32)>::empty().add(whole) =~= whole);
                }
                std::mem::swap(&mut last, target);
            },
            None => {},
        }
        proof {
            assert forall|i: int| 0 <= i < self.spare().len() implies (
            #[trigger] self.spare()[i])@.len() == 0 by {
                assert(self.spare()[i] == merged.spare()[i]);
            }
        }
    }

    /// Merges two sorted lists of chunks into one sorted list. The chunks
    /// of the result that the merge fills hold `CHUNK` pairs each, but for
    /// the last.
    pub fn merge_by(stash: &mut Vec<Chunk>, list1: Vec<Chunk>, list2: Vec<Chunk>) -> (output: Vec<
        Chunk,
    >)
        requires
            sorted_chunks(list1@),
            sorted_chunks(list2@),
            forall|i: int| 0 <= i < old(stash)@.len() ==> (#[trigger] old(stash)[i])@.len() == 0,
        ensures
            sorted_chunks(output@),
            joined(output@).to_multiset() == joined(list1@).to_multiset().add(
                joined(list2@).to_multiset(),
            ),
            forall|i: int| 0 <= i < final(stash)@.len() ==> (#[trigger] final(stash)[i])@.len() == 0,
    {
        let mut output: Vec<Chunk> = Vec::new();
        let mut result: Chunk = Vec::new();
        let ghost total = joined(list1@).to_multiset().add(joined(list2@).to_multiset());
        let ghost mut rem1 = joined(list1@);
        let ghost mut rem2 = joined(list2@);

        let mut list1 = VecQueue::from(list1);
        let mut list2 = VecQueue::from(list2);
        let mut head1: VecQueue<(u32, u32)> = VecQueue::new();
        let mut head2: VecQueue<(u32, u32)> = VecQueue::new();
        if !list1.is_empty() {
            proof {
                lemma_joined_front(list1@);
            }
            head1 = VecQueue::from(list1.pop());
        }
        if !list2.is_empty() {
            proof {
                lemma_joined_front(list2@);
            }
            head2 = VecQueue::from(list2.pop());
        }
        proof {
            assert(joined(Seq::<Chunk>::empty()) =~= Seq::empty());
            assert(joined(output@) + result@ =~= Seq::empty());
            assert(rem1 =~= head1@ + joined(list1@));
            assert(rem2 =~= head2@ + joined(list2@));
            broadcast use group_to_multiset_ensures;

            assert(Seq::<(u32, u32)>::empty().to_multiset().add(rem1.to_multiset()).add(
                rem2.to_multiset(),
            ) =~= total);
        }

        // while we have valid data in each input, merge.
        while !head1.is_empty() && !head2.is_empty()
            invariant
                merging(output@, result@, rem1, rem2, total),
                rem1 == head1@ + joined(list1@),
                rem2 == head2@ + joined(list2@),
                forall|i: int| 0 <= i < list1@.len() ==> (#[trigger] list1@[i])@.len() > 0,
                forall|i: int| 0 <= i < list2@.len() ==> (#[trigger] list2@[i])@.len() > 0,
                head1@.len() == 0 ==> list1@.len() == 0,
                head2@.len() == 0 ==> list2@.len() == 0,
                result@.len() < CHUNK,
                forall|i: int| 0 <= i < stash@.len() ==> (#[trigger] stash[i])@.len() == 0,
            decreases rem1.len() + rem2.len(),
        {
            let ghost entered = rem1.len() + rem2.len();
            while result.len() < CHUNK && head1.len() > 0 && head2.len() > 0
                invariant
                    merging(output@, result@, rem1, rem2, total),
                    rem1 == head1@ + joined(list1@),
                    rem2 == head2@ + joined(list2@),
                    result@.len() <= CHUNK,
                    rem1.len() + rem2.len() <= entered,
                    rem1.len() + rem2.len() < entered || (result@.len() < CHUNK && head1@.len() > 0
                        && head2@.len() > 0),
                    forall|i: int| 0 <= i < list1@.len() ==> (#[trigger] list1@[i])@.len() > 0,
                    forall|i: int| 0 <= i < list2@.len() ==> (#[trigger] list2@[i])@.len() > 0,
                    forall|i: int| 0 <= i < stash@.len() ==> (#[trigger] stash[i])@.len() == 0,
                decreases rem1.len() + rem2.len(),
            {
                let ghost flat = joined(output@) + result@;
                if less(head1.peek(), head2.peek()) {
                    let next = head1.pop();
                    result.push(next);
                    proof {
                        lemma_merge_step(flat, rem1, rem2, total);
                        rem1 = rem1.drop_first();
                        assert(rem1 =~= head1@ + joined(list1@));
                        assert(joined(output@) + result@ =~= flat.push(next));
                    }
                } else {
                    let next = head2.pop();
                    result.push(next);
                    proof {
                        assert(flat.to_multiset().add(rem2.to_multiset()).add(rem1.to_multiset())
                            =~= flat.to_multiset().add(rem1.to_multiset()).add(
                            rem2.to_multiset(),
                        ));
                        lemma_merge_step(flat, rem2, rem1, total);
                        rem2 = rem2.drop_first();
                        assert(rem2 =~= head2@ + joined(list2@));
                        assert(joined(output@) + result@ =~= flat.push(next));
                        assert(flat.push(next).to_multiset().add(rem1.to_multiset()).add(
                            rem2.to_multiset(),
                        ) =~= flat.push(next).to_multiset().add(rem2.to_multiset()).add(
                            rem1.to_multiset(),
                        ));
                    }
                }
            }

            if result.len() == CHUNK {
                let ghost flat = joined(output@) + result@;
                proof {
                    lemma_joined_push(output@, result);
                }
                output.push(result);
                result = match stash.pop() {
                    Some(chunk) => chunk,
                    None => Vec::new(),
                };
                proof {
                    assert(joined(output@) + result@ =~= flat);
                }
            }
            if head1.is_empty() {
                let done1 = head1.done();
                stash.push(done1);
                if !list1.is_empty() {
                    proof {
                        lemma_joined_front(list1@);
                    }
                    let ghost before = list1@;
                    head1 = VecQueue::from(list1.pop());
                    proof {
                        assert(rem1 =~= head1@ + joined(list1@));
                        assert forall|i: int| 0 <= i < list1@.len() implies (
                        #[trigger] list1@[i])@.len() > 0 by {
                            assert(list1@[i] == before[i + 1]);
                        }
                    }
                } else {
                    head1 = VecQueue::new();
                    proof {
                        assert(rem1 =~= head1@ + joined(list1@));
                    }
                }
            }
            if head2.is_empty() {
                let done2 = head2.done();
                stash.push(done2);
                if !list2.is_empty() {
                    proof {
                        lemma_joined_front(list2@);
                    }
                    let ghost before = list2@;
                    head2 = VecQueue::from(list2.pop());
                    proof {
                        assert(rem2 =~= head2@ + joined(list2@));
                        assert forall|i: int| 0 <= i < list2@.len() implies (
                        #[trigger] list2@[i])@.len() > 0 by {
                            assert(list2@[i] == before[i + 1]);
                        }
                    }
                } else {
                    head2 = VecQueue::new();
                    proof {
                        assert(rem2 =~= head2@ + joined(list2@));
                    }
                }
            }
        }

        let ghost flat = joined(output@) + result@;
        if result.len() > 0 {
            proof {
                lemma_joined_push(output@, result);
            }
            output.push(result);
        } else {
            proof {
                assert(flat =~= joined(output@));
            }
            stash.push(result);
        }
        proof {
            assert(joined(output@) =~= flat);
            assert(rem1.len() == 0 || rem2.len() == 0);
        }

        if !head1.is_empty() {
            let mut rest: Chunk = match stash.pop() {
                Some(chunk) => chunk,
                None => Vec::new(),
            };
            let ghost first = head1@;
            proof {
                assert(rest@ =~= first.take(0));
            }
            while !head1.is_empty()
                invariant
                    first == rest@ + head1@,
                decreases head1@.len(),
            {
                let next = head1.pop();
                rest.push(next);
                proof {
                    assert(first =~= rest@ + head1@);
                }
            }
            proof {
                assert(rest@ =~= first);
                lemma_joined_push(output@, rest);
            }
            output.push(rest);
        }
        let ghost rest1 = joined(list1@);
        proof {
            assert(joined(output@) + rest1 =~= flat + rem1);
        }
        while !list1.is_empty()
            invariant
                joined(output@) + joined(list1@) == flat + rem1,
                forall|i: int| 0 <= i < list1@.len() ==> (#[trigger] list1@[i])@.len() > 0,
                forall|i: int| 0 <= i < output@.len() ==> (#[trigger] output@[i])@.len() > 0,
            decreases list1@.len(),
        {
            proof {
                lemma_joined_front(list1@);
            }
            let ghost before = list1@;
            let ghost held = joined(output@);
            let chunk = list1.pop();
            proof {
                lemma_joined_push(output@, chunk);
                assert forall|i: int| 0 <= i < list1@.len() implies (#[trigger] list1@[i])@.len()
                    > 0 by {
                    assert(list1@[i] == before[i + 1]);
                }
                assert(held + chunk@ + joined(list1@) =~= held + (chunk@ + joined(list1@)));
            }
            output.push(chunk);
        }
        let ghost flat1 = joined(output@);
        proof {
            assert(joined(Seq::<Chunk>::empty()) =~= Seq::empty());
            assert(list1@ =~= Seq::<Chunk>::empty());
            assert(flat1 =~= flat + rem1);
        }

        if !head2.is_empty() {
            let mut rest: Chunk = match stash.pop() {
                Some(chunk) => chunk,
                None => Vec::new(),
            };
            let ghost first = head2@;
            proof {
                assert(rest@ =~= first.take(0));
            }
            while !head2.is_empty()
                invariant
                    first == rest@ + head2@,
                decreases head2@.len(),
            {
                let next = head2.pop();
                rest.push(next);
                proof {
                    assert(first =~= rest@ + head2@);
                }
            }
            proof {
                assert(rest@ =~= first);
                lemma_joined_push(output@, rest);
            }
            output.push(rest);
        }
        proof {
            assert(joined(output@) + joined(list2@) =~= flat1 + rem2);
        }
        while !list2.is_empty()
            invariant
                joined(output@) + joined(list2@) == flat1 + rem2,
                forall|i: int| 0 <= i < list2@.len() ==> (#[trigger] list2@[i])@.len() > 0,
                forall|i: int| 0 <= i < output@.len() ==> (#[trigger] output@[i])@.len() > 0,
            decreases list2@.len(),
        {
            proof {
                lemma_joined_front(list2@);
            }
            let ghost before = list2@;
            let ghost held = joined(output@);
            let chunk = list2.pop();
            proof {
                lemma_joined_push(output@, chunk);
                assert forall|i: int| 0 <= i < list2@.len() implies (#[trigger] list2@[i])@.len()
                    > 0 by {
                    assert(list2@[i] == before[i + 1]);
                }
                assert(held + chunk@ + joined(list2@) =~= held + (chunk@ + joined(list2@)));
            }
            output.push(chunk);
        }
        proof {
            assert(joined(Seq::<Chunk>::empty()) =~= Seq::empty());
            assert(list2@ =~= Seq::<Chunk>::empty());
            assert(joined(output@) =~= flat + rem1 + rem2);
            lemma_merged(flat, rem1, rem2, total);
        }
        output
    }
}

/// What a merge holds between two steps: the pairs merged so far ascend
/// and come before those that are left of either list, which ascend too;
/// together they are the pairs of both lists. The chunks filled hold pairs.
pub open spec fn merging(
    output: Seq<Chunk>,
    result: Seq<(u32, u32)>,
    rem1: Seq<(u32, u32)>,
    rem2: Seq<(u32, u32)>,
    total: Multiset<(u32, u32)>,
) -> bool {
    let flat = joined(output) + result;
    &&& pairs_ascend(flat)
    &&& pairs_ascend(rem1)
    &&& pairs_ascend(rem2)
    &&& flat.len() > 0 && rem1.len() > 0 ==> !before(rem1[0], flat.last())
    &&& flat.len() > 0 && rem2.len() > 0 ==> !before(rem2[0], flat.last())
    &&& flat.to_multiset().add(rem1.to_multiset()).add(rem2.to_multiset()) == total
    &&& forall|i: int| 0 <= i < output.len() ==> (#[trigger] output[i])@.len() > 0
}

/// One step of a merge: the first pair of `from` is moved behind the pairs
/// merged so far, if it does not come after the first pair of `other`.
proof fn lemma_merge_step(
    flat: Seq<(u32, u32)>,
    from: Seq<(u32, u32)>,
    other: Seq<(u32, u32)>,
    total: Multiset<(u32, u32)>,
)
    requires
        pairs_ascend(flat),
        pairs_ascend(from),
        pairs_ascend(other),
        from.len() > 0,
        other.len() > 0,
        !before(other[0], from[0]) || !before(from[0], other[0]),
        flat.len() > 0 ==> !before(from[0], flat.last()),
        flat.len() > 0 ==> !before(other[0], flat.last()),
        flat.to_multiset().add(from.to_multiset()).add(other.to_multiset()) == total,
    ensures
        pairs_ascend(from.drop_first()),
        flat.push(from[0]).to_multiset().add(from.drop_first().to_multiset()).add(
            other.to_multiset(),
        ) == total,
        !before(other[0], from[0]) ==> pairs_ascend(flat.push(from[0])),
        from.len() > 1 ==> !before(from[1], from[0]),
{
    broadcast use group_to_multiset_ensures;

    let next = from[0];
    let rest = from.drop_first();
    assert forall|a: int, b: int| 0 <= a <= b < rest.len() implies rest[a].0 < rest[b].0 || (
    rest[a].0 == rest[b].0 && rest[a].1 <= rest[b].1) by {
        assert(from[a + 1].0 < from[b + 1].0 || (from[a + 1].0 == from[b + 1].0 && from[a + 1].1
            <= from[b + 1].1));
    }
    assert(from =~= seq![next] + rest);
    lemma_multiset_commutative(seq![next], rest);
    assert(seq![next].to_multiset() =~= Multiset::empty().insert(next)) by {
        assert(seq![next] =~= Seq::empty().push(next));
    }
    assert(flat.push(next).to_multiset().add(rest.to_multiset()).add(other.to_multiset())
        =~= total);
    if !before(other[0], from[0]) {
        let grown = flat.push(next);
        assert forall|a: int, b: int| 0 <= a <= b < grown.len() implies grown[a].0 < grown[b].0
            || (grown[a].0 == grown[b].0 && grown[a].1 <= grown[b].1) by {
            if b == flat.len() && a < b {
                assert(flat[a].0 < flat[flat.len() - 1].0 || (flat[a].0 == flat[flat.len() - 1].0
                    && flat[a].1 <= flat[flat.len() - 1].1));
            }
        }
    }
    if from.len() > 1 {
        assert(from[0].0 < from[1].0 || (from[0].0 == from[1].0 && from[0].1 <= from[1].1));
    }
}

/// The end of a merge: with one list used up, what is left of the other
/// follows the pairs merged.
proof fn lemma_merged(
    flat: Seq<(u32, u32)>,
    rem1: Seq<(u32, u32)>,
    rem2: Seq<(u32, u32)>,
    total: Multiset<(u32, u32)>,
)
    requires
        pairs_ascend(flat),
        pairs_ascend(rem1),
        pairs_ascend(rem2),
        rem1.len() == 0 || rem2.len() == 0,
        flat.len() > 0 && rem1.len() > 0 ==> !before(rem1[0], flat.last()),
        flat.len() > 0 && rem2.len() > 0 ==> !before(rem2[0], flat.last()),
        flat.to_multiset().add(rem1.to_multiset()).add(rem2.to_multiset()) == total,
    ensures
        pairs_ascend(flat + rem1 + rem2),
        (flat + rem1 + rem2).to_multiset() == total,
{
    broadcast use group_to_multiset_ensures;

    lemma_multiset_commutative(flat, rem1);
    lemma_multiset_commutative(flat + rem1, rem2);
    let rest = rem1 + rem2;
    assert(flat + rem1 + rem2 =~= flat + rest);
    assert(rest =~= if rem1.len() == 0 {
        rem2
    } else {
        rem1
    });
    let all = flat + rest;
    assert forall|a: int, b: int| 0 <= a <= b < all.len() implies all[a].0 < all[b].0 || (all[a].0
        == all[b].0 && all[a].1 <= all[b].1) by {
        if b < flat.len() {
            assert(flat[a].0 < flat[b].0 || (flat[a].0 == flat[b].0 && flat[a].1 <= flat[b].1));
        } else if a >= flat.len() {
            let x = a - flat.len();
            let y = b - flat.len();
            assert(rest[x].0 < rest[y].0 || (rest[x].0 == rest[y].0 && rest[x].1 <= rest[y].1));
        } else {
            let y = b - flat.len();
            assert(flat[a].0 < flat[flat.len() - 1].0 || (flat[a].0 == flat[flat.len() - 1].0
                && flat[a].1 <= flat[flat.len() - 1].1));
            assert(rest[0].0 < rest[y].0 || (rest[0].0 == rest[y].0 && rest[0].1 <= rest[y].1));
        }
    }
}

} // verus!
