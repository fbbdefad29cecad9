//! The multiversion index and the three layers it is made of.
//!
//! An `Index` holds a relation of `(key, value)` pairs in three layers: an
//! immutable base, the committed updates of each key, and the updates that
//! still carry their time. A query names a key and what it may see of the
//! timed updates; the answer is taken from the accumulated weight of each
//! value, the sum of what the three layers hold for it.

use std::collections::HashMap;
use vstd::prelude::*;
use vstd::std_specs::hash::*;
use crate::{advance, advanced};
use crate::index::compact::{values_for, pairs_ascend, CompactIndex};
use crate::index::edge_list::{lemma_run_weight, EdgeList};
use crate::index::unsorted::{lemma_keys_ascend, stamped, Unsorted, Update};
use crate::order::{ascending, ascending_by, first_at, lemma_rearranged, sort_from, Keyed};
use crate::weights::{
    diff_at, lemma_sum_by_block, lemma_sum_by_concat, lemma_sum_by_ones, lemma_sum_by_push,
    lemma_sum_by_rearranged, lemma_sum_by_split, lemma_sum_by_zero, lemma_wrap64_fits,
    lemma_wrap64_shift, lemma_wrap_add, lemma_wrap_fits, lemma_wrapping_add, occurrences, one_at,
    sum_by, weight_of, wrap, wrap64,
};

pub mod compact;
pub mod edge_list;
pub mod unsorted;

verus! {

/// What a query sees of the updates that still carry their time: those
/// before its time, or those up to and including it.
#[derive(Clone, Copy, Debug)]
pub struct Visible {
    /// The time of the query.
    pub time: u64,
    /// Whether updates at the time of the query itself are seen.
    pub inclusive: bool,
}

impl Visible {
    /// The query sees an update made at `at`.
    pub open spec fn admits(&self, at: u64) -> bool {
        if self.inclusive {
            at <= self.time
        } else {
            at < self.time
        }
    }

    /// The query sees every update made at `time` or before.
    pub open spec fn covers(&self, time: u64) -> bool {
        time < self.time || (self.inclusive && time == self.time)
    }

    /// A query that sees the updates strictly before `time`.
    pub fn before(time: u64) -> (valid: Self)
        ensures
            valid.time == time,
            !valid.inclusive,
    {
        Visible { time, inclusive: false }
    }

    /// A query that sees the updates up to and including `time`.
    pub fn up_to(time: u64) -> (valid: Self)
        ensures
            valid.time == time,
            valid.inclusive,
    {
        Visible { time, inclusive: true }
    }

    /// Tests whether the query sees an update made at `at`.
    pub fn test(&self, at: &u64) -> (seen: bool)
        ensures
            seen == self.admits(*at),
    {
        if self.inclusive {
            *at <= self.time
        } else {
            *at < self.time
        }
    }
}

/// The diff of an update if it is about `(key, value)` and seen by `valid`,
/// else nothing.
pub open spec fn seen_diff(key: u32, value: u32, valid: Visible) -> spec_fn(Update) -> int {
    |u: Update| if u.0 == key && u.1 == value && valid.admits(u.2) { u.3 as int } else { 0 }
}

/// One for an update of `key`, nothing for another.
pub open spec fn one_for(key: u32) -> spec_fn(Update) -> int {
    |u: Update| if u.0 == key { 1int } else { 0 }
}

/// The diff of an update if it is about `(key, value)` and made at `time`
/// or before, else nothing.
pub open spec fn due_diff(key: u32, value: u32, time: u64) -> spec_fn(Update) -> int {
    |u: Update| if u.0 == key && u.1 == value && u.2 <= time { u.3 as int } else { 0 }
}

/// The diff of an update if it is about `key` and made at `time` or
/// before, else nothing.
pub open spec fn due_total(key: u32, time: u64) -> spec_fn(Update) -> int {
    |u: Update| if u.0 == key && u.2 <= time { u.3 as int } else { 0 }
}

/// The updates that stay behind when those made at `time` or before are
/// committed: the later ones, in their order, but for those of diff zero.
pub open spec fn remaining(updates: Seq<Update>, time: u64) -> Seq<Update>
    decreases updates.len(),
{
    if updates.len() == 0 {
        Seq::empty()
    } else if updates.last().2 > time && updates.last().3 != 0 {
        remaining(updates.drop_last(), time).push(updates.last())
    } else {
        remaining(updates.drop_last(), time)
    }
}

/// What stays behind of ascending updates ascends.
pub proof fn lemma_remaining_ascends(updates: Seq<Update>, time: u64)
    requires
        ascending_by(updates),
    ensures
        ascending_by(remaining(updates, time)),
        forall|i: int|
            0 <= i < remaining(updates, time).len() ==> (#[trigger] remaining(
                updates,
                time,
            )[i]).key_spec() <= updates.last().key_spec(),
    decreases updates.len(),
{
    if updates.len() > 0 {
        let rest = updates.drop_last();
        assert forall|i: int, j: int| 0 <= i <= j < rest.len() implies (
        #[trigger] rest[i]).key_spec() <= (#[trigger] rest[j]).key_spec() by {
            assert(updates[i].key_spec() <= updates[j].key_spec());
        }
        lemma_remaining_ascends(rest, time);
        let kept = remaining(rest, time);
        assert forall|i: int| 0 <= i < kept.len() implies (#[trigger] kept[i]).key_spec()
            <= updates.last().key_spec() by {
            assert(kept[i].key_spec() <= rest.last().key_spec());
            assert(updates[rest.len() - 1].key_spec() <= updates[updates.len() - 1].key_spec());
        }
    }
}

/// The weight if it is positive, else nothing.
pub open spec fn positive(weight: i32) -> int {
    if weight > 0 {
        weight as int
    } else {
        0
    }
}

/// The pairs of all batches, batch after batch.
pub open spec fn joined(batches: Seq<Vec<(u32, u32)>>) -> Seq<(u32, u32)>
    decreases batches.len(),
{
    if batches.len() == 0 {
        Seq::empty()
    } else {
        joined(batches.drop_last()) + batches.last()@
    }
}

/// `perm` names every position below `n` once.
pub open spec fn reorders(perm: Seq<int>, n: int) -> bool {
    &&& perm.len() == n
    &&& forall|i: int| 0 <= i < n ==> 0 <= #[trigger] perm[i] < n
    &&& forall|i: int, j: int| 0 <= i < j < n ==> #[trigger] perm[i] != #[trigger] perm[j]
}

/// A row of a batch of queries: a prefix, and what is recorded for it.
pub trait Row {
    /// The prefix of the row.
    type Prefix;

    /// The prefix of the row.
    spec fn prefix_spec(&self) -> Self::Prefix;

    /// Borrows the prefix.
    fn prefix(&self) -> (prefix: &Self::Prefix)
        ensures
            *prefix == self.prefix_spec(),
    ;
}

/// A prefix with the best count found so far, the extender that gave it,
/// and a diff.
impl<P> Row for (P, u64, u64, i32) {
    type Prefix = P;

    open spec fn prefix_spec(&self) -> P {
        self.0
    }

    fn prefix(&self) -> (prefix: &P) {
        &self.0
    }
}

/// A prefix with its extensions and a diff.
impl<P> Row for (P, Vec<u32>, i32) {
    type Prefix = P;

    open spec fn prefix_spec(&self) -> P {
        self.0
    }

    fn prefix(&self) -> (prefix: &P) {
        &self.0
    }
}

/// Takes the rows out of `data` and returns them with their keys, in
/// ascending order of the keys. The second result names, for each row
/// returned, its position in `data`.
fn by_key<R: Row, F: Fn(&R::Prefix) -> u32>(data: &mut Vec<R>, func: &F) -> (out: (
    Vec<(u32, R)>,
    Ghost<Seq<int>>,
))
    requires
        forall|i: int|
            0 <= i < old(data).len() ==> call_requires(
                *func,
                (&(#[trigger] old(data)[i]).prefix_spec(),),
            ),
    ensures
        final(data)@.len() == 0,
        reorders(out.1@, old(data).len() as int),
        out.0@.len() == old(data).len(),
        forall|i: int|
            0 <= i < out.0.len() ==> (#[trigger] out.0[i]).1 == old(data)[out.1@[i]]
                && call_ensures(*func, (&old(data)[out.1@[i]].prefix_spec(),), out.0[i].0),
        forall|i: int, j: int| 0 <= i <= j < out.0.len() ==> out.0[i].0 <= out.0[j].0,
{
    let mut rows: Vec<R> = Vec::new();
    std::mem::swap(data, &mut rows);
    let mut keyed: Vec<(u32, R)> = Vec::new();
    for row in it: rows
        invariant
            it.seq() == old(data)@,
            keyed.len() == it.index(),
            forall|i: int|
                0 <= i < old(data).len() ==> call_requires(
                    *func,
                    (&(#[trigger] old(data)[i]).prefix_spec(),),
                ),
            forall|i: int|
                0 <= i < keyed.len() ==> (#[trigger] keyed[i]).1 == old(data)[i] && call_ensures(
                    *func,
                    (&old(data)[i].prefix_spec(),),
                    keyed[i].0,
                ),
    {
        let key = func(row.prefix());
        keyed.push((key, row));
    }
    let ghost attached = keyed@;
    sort_from(&mut keyed, 0);
    let ghost perm = Seq::<int>::empty();
    proof {
        assert(keyed@.subrange(0, keyed@.len() as int) =~= keyed@);
        assert(attached.subrange(0, attached.len() as int) =~= attached);
        perm = lemma_rearranged(attached, keyed@);
        assert forall|i: int, j: int| 0 <= i <= j < keyed.len() implies keyed[i].0
            <= keyed[j].0 by {
            assert(keyed@[i].key_spec() <= keyed@[j].key_spec());
        }
        assert forall|i: int| 0 <= i < keyed.len() implies (#[trigger] keyed[i]).1 == old(
            data,
        )[perm[i]] && call_ensures(*func, (&old(data)[perm[i]].prefix_spec(),), keyed[i].0) by {
            assert(keyed@[i] == attached[perm[i]]);
        }
    }
    (keyed, Ghost(perm))
}

/// Puts the rows back into `data`, in their order.
fn unkeyed<R>(keyed: Vec<(u32, R)>, data: &mut Vec<R>)
    requires
        old(data)@.len() == 0,
    ensures
        final(data)@.len() == keyed@.len(),
        forall|i: int| 0 <= i < keyed@.len() ==> #[trigger] final(data)[i] == keyed[i].1,
{
    for pair in it: keyed
        invariant
            it.seq() == keyed@,
            data@.len() == it.index(),
            forall|i: int| 0 <= i < data@.len() ==> #[trigger] data[i] == keyed[i].1,
    {
        data.push(pair.1);
    }
}

/// Sorts the staged entries by value and lists the values whose diffs sum
/// to a positive weight, in ascending order, each as often as its weight.
fn positive_values(staged: &mut Vec<(u32, i32)>) -> (list: Vec<u32>)
    ensures
        ascending(list@),
        forall|v: u32| #[trigger]
            occurrences(list@, v) == positive(wrap(weight_of(old(staged)@, v))),
{
    let mut list: Vec<u32> = Vec::new();
    let len = staged.len();
    sort_from(staged, 0);
    let ghost sorted = staged@;
    proof {
        assert(sorted.subrange(0, len as int) =~= sorted);
        assert(old(staged)@.subrange(0, len as int) =~= old(staged)@);
        assert forall|a: int, b: int| 0 <= a <= b < len implies sorted[a].0 <= sorted[b].0 by {
            assert(sorted[a].key_spec() <= sorted[b].key_spec());
        }
        assert forall|v: u32| #[trigger]
            occurrences(list@, v) == positive(wrap(weight_of(sorted.subrange(0, 0), v))) by {
            lemma_wrap_fits(0);
        }
    }
    let mut i: usize = 0;
    while i < len
        invariant
            sorted == staged@,
            len == staged.len(),
            i <= len,
            forall|a: int, b: int| 0 <= a <= b < len ==> sorted[a].0 <= sorted[b].0,
            0 < i < len ==> sorted[i - 1].0 < sorted[i as int].0,
            ascending(list@),
            i == 0 ==> list@.len() == 0,
            forall|j: int| 0 <= j < list@.len() ==> i > 0 && list@[j] <= sorted[i - 1].0,
            forall|v: u32| #[trigger]
                occurrences(list@, v) == positive(
                    wrap(weight_of(sorted.subrange(0, i as int), v)),
                ),
        decreases len - i,
    {
        let value = staged[i].0;
        let start = i;
        let mut sum: i32 = 0;
        proof {
            lemma_wrap_fits(0);
            assert(sorted.subrange(start as int, i as int) =~= Seq::empty());
        }
        while i < len && staged[i].0 == value
            invariant
                sorted == staged@,
                len == staged.len(),
                start <= i <= len,
                i > start || (i < len && staged[i as int].0 == value),
                forall|j: int| start <= j < i ==> sorted[j].0 == value,
                sum == wrap(weight_of(sorted.subrange(start as int, i as int), value)),
            decreases len - i,
        {
            proof {
                let group = sorted.subrange(start as int, i as int);
                assert(sorted.subrange(start as int, i + 1) =~= group.push(sorted[i as int]));
                lemma_sum_by_push(group, sorted[i as int], diff_at(value));
                lemma_wrapping_add(sum, sorted[i as int].1);
                lemma_wrap_add(weight_of(group, value), sorted[i as int].1 as int);
            }
            sum = sum.wrapping_add(staged[i].1);
            i += 1;
        }
        let ghost listed = list@;
        let mut n: i32 = 0;
        while n < sum
            invariant
                0 <= n,
                sum > 0 ==> n <= sum,
                sum <= 0 ==> n == 0,
                list@ == listed + Seq::new(n as nat, |k: int| value),
            decreases sum - n,
        {
            list.push(value);
            n += 1;
            proof {
                assert(list@ =~= listed + Seq::new(n as nat, |k: int| value));
            }
        }
        proof {
            let copies = Seq::new(n as nat, |k: int| value);
            let head = sorted.subrange(0, start as int);
            let group = sorted.subrange(start as int, i as int);
            let seen = sorted.subrange(0, i as int);
            assert(seen.subrange(0, start as int) =~= head);
            assert(seen.subrange(start as int, i as int) =~= group);
            assert forall|j: int| 0 <= j < head.len() implies head[j].0 < value by {
                assert(head[j] == sorted[j]);
                assert(sorted[j].0 <= sorted[start - 1].0);
            }
            assert forall|v: u32| #[trigger]
                occurrences(list@, v) == positive(wrap(weight_of(seen, v))) by {
                lemma_sum_by_concat(listed, copies, one_at(v));
                lemma_sum_by_split(seen, start as int, diff_at(v));
                assert(occurrences(listed, v) == positive(wrap(weight_of(head, v))));
                if v == value {
                    lemma_sum_by_ones(copies, one_at(v));
                    assert forall|j: int| 0 <= j < head.len() implies diff_at(v)(
                        #[trigger] head[j],
                    ) == 0 by {
                        assert(head[j].0 < value);
                    }
                    lemma_sum_by_zero(head, diff_at(v));
                    lemma_wrap_fits(0);
                    assert(occurrences(listed, v) == 0);
                    assert(n == positive(sum));
                    assert(weight_of(seen, v) == weight_of(group, v));
                } else {
                    lemma_sum_by_zero(copies, one_at(v));
                    assert forall|j: int| 0 <= j < group.len() implies diff_at(v)(
                        #[trigger] group[j],
                    ) == 0 by {
                        assert(group[j] == sorted[start + j]);
                    }
                    lemma_sum_by_zero(group, diff_at(v));
                }
            }
            assert(ascending(list@)) by {
                assert forall|a: int, b: int| 0 <= a <= b < list@.len() implies list@[a]
                    <= list@[b] by {
                    if b >= listed.len() {
                        if a < listed.len() {
                            assert(listed[a] <= sorted[start - 1].0);
                            assert(head[start - 1].0 < value);
                        }
                    } else {
                        assert(listed[a] <= listed[b]);
                    }
                }
            }
            assert forall|j: int| 0 <= j < list@.len() implies i > 0 && list@[j] <= sorted[i
                - 1].0 by {
                if j < listed.len() {
                    assert(listed[j] <= sorted[start - 1].0);
                    assert(sorted[start - 1].0 <= sorted[i - 1].0);
                }
            }
            if i < len {
                assert(sorted[i - 1].0 <= sorted[i as int].0);
            }
        }
    }
    proof {
        lemma_sum_by_rearranged_all(sorted, old(staged)@);
    }
    list
}

/// Entries in another order have the same weights.
proof fn lemma_sum_by_rearranged_all(a: Seq<(u32, i32)>, b: Seq<(u32, i32)>)
    requires
        a.to_multiset() == b.to_multiset(),
    ensures
        forall|v: u32| #[trigger] weight_of(a, v) == weight_of(b, v),
{
    assert forall|v: u32| #[trigger] weight_of(a, v) == weight_of(b, v) by {
        lemma_sum_by_rearranged(a, b, diff_at(v));
    }
}

/// Appends the values of `extension` to the extensions of the row.
fn extend_row<P>(row: &mut (P, Vec<u32>, i32), extension: &Vec<u32>)
    ensures
        final(row).0 == old(row).0,
        final(row).2 == old(row).2,
        final(row).1@ == old(row).1@ + extension@,
{
    let count = extension.len();
    let mut j: usize = 0;
    proof {
        assert(row.1@ =~= old(row).1@ + extension@.take(0));
    }
    while j < count
        invariant
            count == extension.len(),
            j <= count,
            row.0 == old(row).0,
            row.2 == old(row).2,
            row.1@ == old(row).1@ + extension@.take(j as int),
        decreases count - j,
    {
        row.1.push(extension[j]);
        j += 1;
        proof {
            assert(row.1@ =~= old(row).1@ + extension@.take(j as int));
        }
    }
    proof {
        assert(extension@.take(count as int) =~= extension@);
    }
}

/// Adds to each count the number of times that the base holds the value at
/// that position of `list`. Of equal values in `list` only the first is
/// counted.
fn add_base(base: &[u32], list: &Vec<u32>, temp: &mut Vec<i32>)
    requires
        ascending(base@),
        ascending(list@),
        old(temp).len() == list.len(),
    ensures
        final(temp).len() == list.len(),
        forall|i: int|
            0 <= i < list.len() ==> #[trigger] final(temp)[i] == wrap(
                old(temp)[i] + if first_at(list@, i) {
                    occurrences(base@, list[i])
                } else {
                    0
                },
            ),
{
    let count = list.len();
    let size = base.len();
    let mut c_cursor: usize = 0;
    let mut i: usize = 0;
    while i < count
        invariant
            count == list.len(),
            size == base.len(),
            temp.len() == count,
            i <= count,
            c_cursor <= size,
            old(temp).len() == count,
            ascending(base@),
            ascending(list@),
            forall|j: int| 0 <= j < c_cursor ==> i > 0 && base[j] <= list[i - 1],
            forall|j: int| c_cursor <= j < size && i > 0 ==> base[j] > list[i - 1],
            forall|n: int| i <= n < count ==> temp[n] == old(temp)[n],
            forall|n: int|
                0 <= n < i ==> #[trigger] temp[n] == wrap(
                    old(temp)[n] + if first_at(list@, n) {
                        occurrences(base@, list[n])
                    } else {
                        0
                    },
                ),
        decreases count - i,
    {
        let proposal = list[i];
        // move c_cursor to where `proposal` would start ..
        let below = |x: &u32| -> (b: bool)
            ensures
                b == (*x < proposal),
            { *x < proposal };
        let rest = &base[c_cursor..size];
        let step = advance(rest, below);
        proof {
            let p = |x: u32| x < proposal;
            assert(advanced(below, p, rest@, step as int));
            assert forall|j: int| c_cursor <= j < c_cursor + step implies base[j] < proposal by {
                assert(p(rest@[j - c_cursor]));
            }
            assert forall|j: int| c_cursor + step <= j < size implies base[j] >= proposal by {
                assert(!p(rest@[j - c_cursor]));
            }
            if i > 0 {
                assert(list[i - 1] <= list[i as int]);
            }
            lemma_wrap_fits(temp[i as int] as int);
        }
        c_cursor += step;
        let start = c_cursor;
        while c_cursor < size && base[c_cursor] == proposal
            invariant
                size == base.len(),
                temp.len() == count,
                i < count,
                start <= c_cursor <= size,
                old(temp).len() == count,
                forall|j: int| start <= j < c_cursor ==> base[j] == proposal,
                forall|n: int| 0 <= n < count && n != i ==> temp[n] == old(temp)[n] || n < i,
                forall|n: int| i < n < count ==> temp[n] == old(temp)[n],
                forall|n: int|
                    0 <= n < i ==> #[trigger] temp[n] == wrap(
                        old(temp)[n] + if first_at(list@, n) {
                            occurrences(base@, list[n])
                        } else {
                            0
                        },
                    ),
                temp[i as int] == wrap(old(temp)[i as int] + (c_cursor - start)),
            decreases size - c_cursor,
        {
            proof {
                lemma_wrapping_add(temp[i as int], 1);
                lemma_wrap_add(old(temp)[i as int] + (c_cursor - start), 1);
            }
            let sum = temp[i].wrapping_add(1);
            temp[i] = sum;
            c_cursor += 1;
        }
        proof {
            assert forall|j: int| c_cursor <= j < size implies base[j] > proposal by {
                assert(base[c_cursor as int] <= base[j]);
            }
            if first_at(list@, i as int) {
                let f = one_at(proposal);
                assert forall|j: int| 0 <= j < start implies f(#[trigger] base@[j]) == 0 by {
                    if j < start - step {
                        assert(base[j] <= list[i - 1]);
                    }
                }
                lemma_sum_by_block(base@, start as int, c_cursor as int, f);
                lemma_sum_by_ones(base@.subrange(start as int, c_cursor as int), f);
            } else {
                assert(list[i - 1] == proposal);
                assert(step == 0) by {
                    if step > 0 {
                        assert(base[start - step] < proposal);
                    }
                }
                assert(c_cursor == start) by {
                    if c_cursor > start {
                        assert(base[start as int] == proposal);
                    }
                }
            }
        }
        i += 1;
    }
}

/// The updates are all of `key`, and their values ascend.
pub open spec fn values_ascend(updates: Seq<Update>, key: u32) -> bool {
    &&& forall|n: int| 0 <= n < updates.len() ==> (#[trigger] updates[n]).0 == key
    &&& forall|a: int, b: int| 0 <= a <= b < updates.len() ==> updates[a].1 <= updates[b].1
}

/// Adds to each count the diffs of the updates that `valid` sees for the
/// value at that position of `list`. Of equal values in `list` only the
/// first is counted.
fn add_pending(
    updates: &[Update],
    key: u32,
    list: &Vec<u32>,
    valid: &Visible,
    temp: &mut Vec<i32>,
)
    requires
        values_ascend(updates@, key),
        ascending(list@),
        old(temp).len() == list.len(),
    ensures
        final(temp).len() == list.len(),
        forall|i: int|
            0 <= i < list.len() ==> #[trigger] final(temp)[i] == wrap(
                old(temp)[i] + if first_at(list@, i) {
                    sum_by(updates@, seen_diff(key, list[i], *valid))
                } else {
                    0
                },
            ),
{
    let count = list.len();
    let size = updates.len();
    let mut d_cursor: usize = 0;
    let mut i: usize = 0;
    while i < count
        invariant
            count == list.len(),
            size == updates.len(),
            temp.len() == count,
            i <= count,
            d_cursor <= size,
            old(temp).len() == count,
            values_ascend(updates@, key),
            ascending(list@),
            forall|j: int| 0 <= j < d_cursor ==> i > 0 && updates[j].1 <= list[i - 1],
            forall|j: int| d_cursor <= j < size && i > 0 ==> updates[j].1 > list[i - 1],
            forall|n: int| i <= n < count ==> temp[n] == old(temp)[n],
            forall|n: int|
                0 <= n < i ==> #[trigger] temp[n] == wrap(
                    old(temp)[n] + if first_at(list@, n) {
                        sum_by(updates@, seen_diff(key, list[n], *valid))
                    } else {
                        0
                    },
                ),
        decreases count - i,
    {
        let proposal = list[i];
        let ghost f = seen_diff(key, proposal, *valid);
        // move d_cursor to where `proposal` would start ..
        let below = |x: &Update| -> (b: bool)
            ensures
                b == (x.1 < proposal),
            { x.1 < proposal };
        let rest = &updates[d_cursor..size];
        let step = advance(rest, below);
        proof {
            let p = |x: Update| x.1 < proposal;
            assert forall|a: int, b: int| 0 <= a <= b < rest@.len() && p(
                #[trigger] rest@[b],
            ) implies p(#[trigger] rest@[a]) by {
                assert(updates[d_cursor + a].1 <= updates[d_cursor + b].1);
            }
            assert(advanced(below, p, rest@, step as int));
            assert forall|j: int| d_cursor <= j < d_cursor + step implies updates[j].1
                < proposal by {
                assert(p(rest@[j - d_cursor]));
            }
            assert forall|j: int| d_cursor + step <= j < size implies updates[j].1
                >= proposal by {
                assert(!p(rest@[j - d_cursor]));
            }
            if i > 0 {
                assert(list[i - 1] <= list[i as int]);
            }
            lemma_wrap_fits(temp[i as int] as int);
            assert(updates@.subrange(d_cursor + step, d_cursor + step) =~= Seq::empty());
        }
        d_cursor += step;
        let start = d_cursor;
        while d_cursor < size && updates[d_cursor].1 == proposal
            invariant
                size == updates.len(),
                temp.len() == count,
                i < count,
                start <= d_cursor <= size,
                old(temp).len() == count,
                values_ascend(updates@, key),
                f == seen_diff(key, proposal, *valid),
                forall|j: int| start <= j < d_cursor ==> updates[j].1 == proposal,
                forall|n: int| i < n < count ==> temp[n] == old(temp)[n],
                forall|n: int|
                    0 <= n < i ==> #[trigger] temp[n] == wrap(
                        old(temp)[n] + if first_at(list@, n) {
                            sum_by(updates@, seen_diff(key, list[n], *valid))
                        } else {
                            0
                        },
                    ),
                temp[i as int] == wrap(
                    old(temp)[i as int] + sum_by(
                        updates@.subrange(start as int, d_cursor as int),
                        f,
                    ),
                ),
            decreases size - d_cursor,
        {
            let (_, _, time, diff) = updates[d_cursor];
            proof {
                let block = updates@.subrange(start as int, d_cursor as int);
                let update = updates@[d_cursor as int];
                assert(updates@.subrange(start as int, d_cursor + 1) =~= block.push(update));
                lemma_sum_by_push(block, update, f);
                lemma_wrapping_add(temp[i as int], diff);
                lemma_wrap_add(old(temp)[i as int] + sum_by(block, f), diff as int);
            }
            if valid.test(&time) {
                let sum = temp[i].wrapping_add(diff);
                temp[i] = sum;
            }
            d_cursor += 1;
        }
        proof {
            assert forall|j: int| d_cursor <= j < size implies updates[j].1 > proposal by {
                assert(updates[d_cursor as int].1 <= updates[j].1);
            }
            if first_at(list@, i as int) {
                assert forall|j: int| 0 <= j < start implies f(#[trigger] updates@[j]) == 0 by {
                    if j < start - step {
                        assert(updates[j].1 <= list[i - 1]);
                    }
                }
                lemma_sum_by_block(updates@, start as int, d_cursor as int, f);
            } else {
                assert(list[i - 1] == proposal);
                assert(step == 0) by {
                    if step > 0 {
                        assert(updates[start - step].1 < proposal);
                    }
                }
                assert(d_cursor == start) by {
                    if d_cursor > start {
                        assert(updates[start as int].1 == proposal);
                    }
                }
            }
        }
        i += 1;
    }
}

/// A multiversion multimap from keys to values.
pub struct Index {
    /// The base: for each key a sorted list of values, each of weight one.
    compact: CompactIndex,
    /// The committed updates of each key.
    edges: HashMap<u32, EdgeList>,
    /// The updates that still carry their time.
    diffs: Unsorted,
}

impl Index {
    /// The base layer.
    pub closed spec fn compact(&self) -> CompactIndex {
        self.compact
    }

    /// The committed updates, key by key.
    pub closed spec fn edges(&self) -> Map<u32, EdgeList> {
        self.edges@
    }

    /// The updates that still carry their time, in ascending order of key
    /// and value.
    pub closed spec fn pending(&self) -> Seq<Update> {
        self.diffs.updates@
    }

    /// Each layer is in order.
    pub open spec fn wf(&self) -> bool {
        &&& self.compact().wf()
        &&& forall|k: u32| self.edges().contains_key(k) ==> (#[trigger] self.edges()[k]).wf()
        &&& ascending_by(self.pending())
    }

    /// The values that the base holds for `key`, in ascending order.
    pub open spec fn base(&self, key: u32) -> Seq<u32> {
        self.compact().base(key)
    }

    /// The weight that the committed updates give `value` under `key`.
    pub open spec fn committed(&self, key: u32, value: u32) -> i32 {
        if self.edges().contains_key(key) {
            self.edges()[key].net(value)
        } else {
            0
        }
    }

    /// The sum of the diffs committed under `key`, wrapped.
    pub open spec fn tally(&self, key: u32) -> i32 {
        if self.edges().contains_key(key) {
            self.edges()[key].tally()
        } else {
            0
        }
    }

    /// The sum of what the three layers hold for `value` under `key`, as
    /// seen by `valid`.
    pub open spec fn weight(&self, key: u32, value: u32, valid: Visible) -> int {
        occurrences(self.base(key), value) + self.committed(key, value) + sum_by(
            self.pending(),
            seen_diff(key, value, valid),
        )
    }

    /// The accumulated weight of `value` under `key`, as seen by `valid`.
    pub open spec fn accumulated(&self, key: u32, value: u32, valid: Visible) -> i32 {
        wrap(self.weight(key, value, valid))
    }

    /// The number of values that `key` is estimated to have: those of the
    /// base, the sum of the committed diffs, and one for each update that
    /// still carries its time, whether a query sees it or not.
    pub open spec fn estimate(&self, key: u32) -> u64 {
        wrap64(self.base(key).len() + self.tally(key) + sum_by(self.pending(), one_for(key)))
    }

    /// `list` is what the index proposes for `key`: the values of positive
    /// accumulated weight in ascending order, each as often as its weight.
    pub open spec fn is_proposal(&self, list: Seq<u32>, key: u32, valid: Visible) -> bool {
        &&& ascending(list)
        &&& forall|v: u32|
            #[trigger] occurrences(list, v) == positive(self.accumulated(key, v, valid))
    }

    /// The values below `upto` of positive accumulated weight under `key`,
    /// in ascending order, each as often as its weight.
    pub open spec fn proposed_below(&self, key: u32, valid: Visible, upto: int) -> Seq<u32>
        decreases upto,
    {
        if upto <= 0 {
            Seq::empty()
        } else {
            let value = (upto - 1) as u32;
            self.proposed_below(key, valid, upto - 1) + Seq::new(
                positive(self.accumulated(key, value, valid)) as nat,
                |i: int| value,
            )
        }
    }

    /// What the index proposes for `key`: the values of positive
    /// accumulated weight in ascending order, each as often as its weight.
    pub open spec fn proposal(&self, key: u32, valid: Visible) -> Seq<u32> {
        self.proposed_below(key, valid, 0x1_0000_0000)
    }

    /// What remains of the ascending `list` when it is intersected with
    /// the values of `key`: of each value its first element, if the
    /// accumulated weight of the value is positive.
    pub open spec fn survivors(&self, list: Seq<u32>, key: u32, valid: Visible) -> Seq<u32>
        decreases list.len(),
    {
        if list.len() == 0 {
            Seq::empty()
        } else {
            let rest = self.survivors(list.drop_last(), key, valid);
            if first_at(list, list.len() - 1) && self.accumulated(key, list.last(), valid) > 0 {
                rest.push(list.last())
            } else {
                rest
            }
        }
    }

    /// The two indices answer every query alike.
    pub open spec fn agrees(&self, other: Index) -> bool {
        &&& self.compact() == other.compact()
        &&& self.pending() == other.pending()
        &&& forall|k: u32, v: u32| #[trigger] self.committed(k, v) == other.committed(k, v)
        &&& forall|k: u32| #[trigger] self.tally(k) == other.tally(k)
    }

    /// The index holds nothing in any layer.
    pub open spec fn is_empty(&self) -> bool {
        &&& self.compact().is_empty()
        &&& self.edges() == Map::<u32, EdgeList>::empty()
        &&& self.pending().len() == 0
    }

    /// Everything before the cursors belongs to keys below `key`.
    pub open spec fn cursors_below(&self, key: u32, c: usize, d: usize) -> bool {
        &&& c <= self.compact().keys().len()
        &&& d <= self.pending().len()
        &&& forall|i: int| 0 <= i < c ==> (#[trigger] self.compact().keys()[i]).0 < key
        &&& forall|i: int| 0 <= i < d ==> (#[trigger] self.pending()[i]).0 < key
    }

    /// Everything before the cursors belongs to keys up to `key`.
    pub open spec fn cursors_upto(&self, key: u32, c: usize, d: usize) -> bool {
        &&& c <= self.compact().keys().len()
        &&& d <= self.pending().len()
        &&& forall|i: int| 0 <= i < c ==> (#[trigger] self.compact().keys()[i]).0 <= key
        &&& forall|i: int| 0 <= i < d ==> (#[trigger] self.pending()[i]).0 <= key
    }

    /// What `count` does to a row whose prefix has key `key`: the estimate
    /// and `ident` replace what the row records if the estimate is smaller.
    pub open spec fn counted<P>(
        &self,
        was: (P, u64, u64, i32),
        now: (P, u64, u64, i32),
        key: u32,
        ident: u64,
    ) -> bool {
        &&& now.0 == was.0
        &&& now.3 == was.3
        &&& if self.estimate(key) < was.1 {
            now.1 == self.estimate(key) && now.2 == ident
        } else {
            now.1 == was.1 && now.2 == was.2
        }
    }

    /// What `count` does to a batch: the rows come out in ascending order
    /// of their keys, `keys`, the row at `i` being the one that stood at
    /// `perm[i]`, counted.
    pub open spec fn counts<P, F: Fn(&P) -> u32>(
        &self,
        before: Seq<(P, u64, u64, i32)>,
        after: Seq<(P, u64, u64, i32)>,
        perm: Seq<int>,
        keys: Seq<u32>,
        func: F,
        ident: u64,
    ) -> bool {
        &&& reorders(perm, before.len() as int)
        &&& after.len() == before.len()
        &&& keys.len() == before.len()
        &&& ascending(keys)
        &&& forall|i: int|
            0 <= i < after.len() ==> call_ensures(func, (&before[perm[i]].0,), #[trigger] keys[i])
                && self.counted(before[perm[i]], after[i], keys[i], ident)
    }

    /// What `propose` does to a row whose prefix has key `key`: the
    /// proposal for the key is appended to its extensions.
    pub open spec fn proposed<P>(
        &self,
        was: (P, Vec<u32>, i32),
        now: (P, Vec<u32>, i32),
        key: u32,
        valid: Visible,
    ) -> bool {
        &&& now.0 == was.0
        &&& now.2 == was.2
        &&& now.1@.len() >= was.1@.len()
        &&& now.1@.subrange(0, was.1@.len() as int) == was.1@
        &&& self.is_proposal(
            now.1@.subrange(was.1@.len() as int, now.1@.len() as int),
            key,
            valid,
        )
    }

    /// What `propose` does to a batch: the rows come out in ascending order
    /// of their keys, `keys`, the row at `i` being the one that stood at
    /// `perm[i]`, with the proposal for its key appended.
    pub open spec fn proposes<P, F: Fn(&P) -> u32>(
        &self,
        before: Seq<(P, Vec<u32>, i32)>,
        after: Seq<(P, Vec<u32>, i32)>,
        perm: Seq<int>,
        keys: Seq<u32>,
        func: F,
        valid: Visible,
    ) -> bool {
        &&& reorders(perm, before.len() as int)
        &&& after.len() == before.len()
        &&& keys.len() == before.len()
        &&& ascending(keys)
        &&& forall|i: int|
            0 <= i < after.len() ==> call_ensures(func, (&before[perm[i]].0,), #[trigger] keys[i])
                && self.proposed(before[perm[i]], after[i], keys[i], valid)
    }

    /// What is proposed below a bound ascends, stays below the bound, and
    /// holds each value below it as often as its weight, if that is
    /// positive.
    pub proof fn lemma_proposed_below(&self, key: u32, valid: Visible, upto: int)
        requires
            0 <= upto <= 0x1_0000_0000,
        ensures
            ascending(self.proposed_below(key, valid, upto)),
            forall|i: int|
                0 <= i < self.proposed_below(key, valid, upto).len() ==> (
                #[trigger] self.proposed_below(key, valid, upto)[i]) < upto,
            forall|v: u32|
                #[trigger] occurrences(self.proposed_below(key, valid, upto), v) == if v < upto {
                    positive(self.accumulated(key, v, valid))
                } else {
                    0
                },
        decreases upto,
    {
        let all = self.proposed_below(key, valid, upto);
        if upto > 0 {
            self.lemma_proposed_below(key, valid, upto - 1);
            let value = (upto - 1) as u32;
            let rest = self.proposed_below(key, valid, upto - 1);
            let copies = Seq::new(
                positive(self.accumulated(key, value, valid)) as nat,
                |i: int| value,
            );
            assert(all == rest + copies);
            assert forall|v: u32| #[trigger]
                occurrences(all, v) == if v < upto {
                    positive(self.accumulated(key, v, valid))
                } else {
                    0
                } by {
                lemma_sum_by_concat(rest, copies, one_at(v));
                assert(occurrences(rest, v) == if v < upto - 1 {
                    positive(self.accumulated(key, v, valid))
                } else {
                    0
                });
                if v == value {
                    assert forall|i: int| 0 <= i < copies.len() implies one_at(v)(
                        #[trigger] copies[i],
                    ) == 1 by {}
                    lemma_sum_by_ones(copies, one_at(v));
                } else {
                    assert forall|i: int| 0 <= i < copies.len() implies one_at(v)(
                        #[trigger] copies[i],
                    ) == 0 by {}
                    lemma_sum_by_zero(copies, one_at(v));
                }
            }
            assert forall|i: int, j: int| 0 <= i <= j < all.len() implies all[i] <= all[j] by {
                if j < rest.len() {
                    assert(rest[i] <= rest[j]);
                } else if i < rest.len() {
                    assert(rest[i] < upto - 1);
                }
            }
        } else {
            assert forall|v: u32| #[trigger] occurrences(all, v) == 0 by {}
        }
    }

    /// The proposal is a proposal: it ascends and holds each value as
    /// often as its accumulated weight, if that is positive.
    pub proof fn lemma_proposal(&self, key: u32, valid: Visible)
        ensures
            self.is_proposal(self.proposal(key, valid), key, valid),
    {
        self.lemma_proposed_below(key, valid, 0x1_0000_0000);
    }

    /// There is one proposal only.
    pub proof fn lemma_proposal_unique(&self, list: Seq<u32>, key: u32, valid: Visible)
        requires
            self.is_proposal(list, key, valid),
        ensures
            list == self.proposal(key, valid),
    {
        self.lemma_proposal(key, valid);
        let other = self.proposal(key, valid);
        assert forall|v: u32| #[trigger] occurrences(list, v) == occurrences(other, v) by {}
        crate::order::lemma_same_occurrences(list, other);
    }

    /// Indices that agree propose the same.
    pub proof fn lemma_agrees_proposal(&self, other: Index, key: u32, valid: Visible)
        requires
            self.agrees(other),
        ensures
            self.proposal(key, valid) == other.proposal(key, valid),
    {
        self.lemma_proposal(key, valid);
        let list = self.proposal(key, valid);
        assert forall|v: u32| #[trigger]
            occurrences(list, v) == positive(other.accumulated(key, v, valid)) by {
            self.lemma_agrees_weight(other, key, v, valid);
        }
        other.lemma_proposal_unique(list, key, valid);
    }

    /// An index that holds nothing has no value for any key.
    pub proof fn lemma_empty_base(&self, key: u32)
        requires
            self.is_empty(),
        ensures
            self.base(key) == Seq::<u32>::empty(),
    {
        if self.compact().has(key) {
            let i = self.compact().place(key);
            assert(self.compact().keys()[i].0 == key);
        }
    }

    /// Indices that agree give every value the same weight.
    pub proof fn lemma_agrees_weight(&self, other: Index, key: u32, value: u32, valid: Visible)
        requires
            self.agrees(other),
        ensures
            self.weight(key, value, valid) == other.weight(key, value, valid),
            self.accumulated(key, value, valid) == other.accumulated(key, value, valid),
    {
        assert(self.committed(key, value) == other.committed(key, value));
    }

    /// What `intersect` does to a row whose prefix has key `key`: of its
    /// extensions those survive that the index holds for the key.
    pub open spec fn intersected<P>(
        &self,
        was: (P, Vec<u32>, i32),
        now: (P, Vec<u32>, i32),
        key: u32,
        valid: Visible,
    ) -> bool {
        &&& now.0 == was.0
        &&& now.2 == was.2
        &&& now.1@ == self.survivors(was.1@, key, valid)
    }

    /// What `intersect` does to a batch: the rows come out in ascending
    /// order of their keys, `keys`, the row at `i` being the one that stood
    /// at `perm[i]`, intersected.
    pub open spec fn intersects<P, F: Fn(&P) -> u32>(
        &self,
        before: Seq<(P, Vec<u32>, i32)>,
        after: Seq<(P, Vec<u32>, i32)>,
        perm: Seq<int>,
        keys: Seq<u32>,
        func: F,
        valid: Visible,
    ) -> bool {
        &&& reorders(perm, before.len() as int)
        &&& after.len() == before.len()
        &&& keys.len() == before.len()
        &&& ascending(keys)
        &&& forall|i: int|
            0 <= i < after.len() ==> call_ensures(func, (&before[perm[i]].0,), #[trigger] keys[i])
                && self.intersected(before[perm[i]], after[i], keys[i], valid)
    }

    /// Indices that agree let the same extensions survive.
    pub proof fn lemma_agrees_survivors(
        &self,
        other: Index,
        list: Seq<u32>,
        key: u32,
        valid: Visible,
    )
        requires
            self.agrees(other),
        ensures
            self.survivors(list, key, valid) == other.survivors(list, key, valid),
        decreases list.len(),
    {
        if list.len() > 0 {
            self.lemma_agrees_survivors(other, list.drop_last(), key, valid);
            self.lemma_agrees_weight(other, key, list.last(), valid);
        }
    }

    /// What `merge_to` leaves of `before`: the base as it was, the updates
    /// made at `time` or before added to the committed weights, and the
    /// later updates still with their times.
    pub open spec fn merged(&self, before: Index, time: u64) -> bool {
        &&& self.compact() == before.compact()
        &&& self.pending() == remaining(before.pending(), time)
        &&& forall|k: u32, v: u32| #[trigger]
            self.committed(k, v) == wrap(
                before.committed(k, v) + sum_by(before.pending(), due_diff(k, v, time)),
            )
        &&& forall|k: u32| #[trigger]
            self.tally(k) == wrap(before.tally(k) + sum_by(before.pending(), due_total(k, time)))
    }

    /// Allocates a new empty index.
    pub fn new() -> (index: Self)
        ensures
            index.wf(),
            index.is_empty(),
    {
        Index { compact: CompactIndex::new(), edges: HashMap::new(), diffs: Unsorted::new() }
    }

    /// Introduces a collection of updates at `time`.
    ///
    /// The updates are reflected in all queries that see `time`: the weight
    /// of each value grows by the diffs of the batch that the query sees.
    /// The batch is left empty.
    pub fn update(&mut self, time: u64, updates: &mut Vec<((u32, u32), i32)>)
        requires
            old(self).wf(),
        ensures
            final(self).wf(),
            final(updates)@.len() == 0,
            final(self).compact() == old(self).compact(),
            final(self).edges() == old(self).edges(),
            final(self).pending().to_multiset() == (old(self).pending() + stamped(
                old(updates)@,
                time,
            )).to_multiset(),
            forall|k: u32, v: u32, valid: Visible| #[trigger]
                final(self).weight(k, v, valid) == old(self).weight(k, v, valid) + sum_by(
                    stamped(old(updates)@, time),
                    seen_diff(k, v, valid),
                ),
    {
        self.diffs.extend(time, updates);
        proof {
            assert(self.compact().wf());
            assert(ascending_by(self.pending()));
            assert(self.edges() == old(self).edges());
            assert forall|k: u32| self.edges().contains_key(k) implies (
            #[trigger] self.edges()[k]).wf() by {
                assert(old(self).edges()[k].wf());
            }
            let added = stamped(old(updates)@, time);
            assert forall|k: u32, v: u32, valid: Visible| #[trigger]
                self.weight(k, v, valid) == old(self).weight(k, v, valid) + sum_by(
                    added,
                    seen_diff(k, v, valid),
                ) by {
                let f = seen_diff(k, v, valid);
                lemma_sum_by_rearranged(self.pending(), old(self).pending() + added, f);
                lemma_sum_by_concat(old(self).pending(), added, f);
            }
        }
    }

    /// Sets the base: the pairs of all batches, which ascend by key and by
    /// value under one key. Only an index that holds nothing can be
    /// initialized. The batches are left empty.
    pub fn initialize(&mut self, initial: &mut Vec<Vec<(u32, u32)>>)
        requires
            old(self).wf(),
            old(self).is_empty(),
            pairs_ascend(joined(old(initial)@)),
        ensures
            final(self).wf(),
            final(initial)@.len() == 0,
            final(self).edges() == old(self).edges(),
            final(self).pending() == old(self).pending(),
            forall|key: u32| #[trigger]
                final(self).base(key) == values_for(joined(old(initial)@), key),
    {
        let mut flat: Vec<(u32, u32)> = Vec::new();
        let batches = initial.len();
        let mut b: usize = 0;
        proof {
            assert(initial@.take(0) =~= Seq::empty());
        }
        while b < batches
            invariant
                batches == initial.len(),
                b <= batches,
                *initial == *old(initial),
                flat@ == joined(initial@.take(b as int)),
            decreases batches - b,
        {
            let size = initial[b].len();
            let mut i: usize = 0;
            let ghost before = flat@;
            while i < size
                invariant
                    b < initial.len(),
                    size == initial[b as int].len(),
                    i <= size,
                    flat@ == before + initial[b as int]@.take(i as int),
                decreases size - i,
            {
                flat.push(initial[b][i]);
                proof {
                    assert(initial[b as int]@.take(i + 1) =~= initial[b as int]@.take(
                        i as int,
                    ).push(initial[b as int]@[i as int]));
                }
                i += 1;
            }
            proof {
                assert(initial[b as int]@.take(size as int) =~= initial[b as int]@);
                assert(initial@.take(b + 1).drop_last() =~= initial@.take(b as int));
            }
            b += 1;
        }
        proof {
            assert(initial@.take(batches as int) =~= initial@);
        }
        initial.clear();
        self.compact.load(flat.len(), flat);
    }

    /// The estimate for `key`, with the cursors moved behind the key.
    fn estimate_for(&self, key: u32, c_cursor: &mut usize, d_cursor: &mut usize) -> (count: u64)
        requires
            self.wf(),
            self.cursors_below(key, *old(c_cursor), *old(d_cursor)),
        ensures
            count == self.estimate(key),
            self.cursors_upto(key, *final(c_cursor), *final(d_cursor)),
            *old(c_cursor) <= *final(c_cursor),
            *old(d_cursor) <= *final(d_cursor),
    {
        broadcast use group_hash_axioms;

        // (ia) the number of values in the base.
        let values = self.compact.values_from(&key, c_cursor);
        let in_base = values.len() as u64;
        proof {
            if self.compact().has(key) {
                let i = self.compact().place(key);
                assert(self.compact().keys()[i].0 == key);
                assert(self.compact().ahead(key, *old(c_cursor) as int));
            } else {
                if self.compact().ahead(key, *old(c_cursor) as int) {
                    let i = choose|i: int|
                        *old(c_cursor) <= i < self.compact().keys().len() && #[trigger] self.compact().keys()[i].0
                            == key;
                    assert(self.compact().has(key));
                }
            }
            assert(values@.len() == self.base(key).len());
        }
        // (ib) the sum of the committed diffs.
        let committed = match self.edges.get(&key) {
            Some(entry) => entry.count(),
            None => 0,
        };
        let with_committed = if committed >= 0 {
            in_base.wrapping_add(committed as u64)
        } else {
            in_base.wrapping_sub((-(committed as i64)) as u64)
        };
        // (ic) the number of updates that still carry their time: an over-estimate.
        let updates = self.diffs.values_from(&key, d_cursor);
        let count = with_committed.wrapping_add(updates.len() as u64);
        proof {
            let to = *d_cursor as int;
            let from = to - updates@.len();
            let f = one_for(key);
            lemma_sum_by_block(self.pending(), from, to, f);
            lemma_sum_by_ones(self.pending().subrange(from, to), f);
            let total = self.base(key).len() + self.tally(key) + sum_by(self.pending(), f);
            assert(committed == self.tally(key));
            assert(sum_by(self.pending(), f) == updates@.len());
            assert(in_base == self.base(key).len());
            assert(with_committed == in_base + committed || with_committed == in_base + committed
                + 0x1_0000_0000_0000_0000 || with_committed == in_base + committed
                - 0x1_0000_0000_0000_0000);
            assert(count == with_committed + updates@.len() || count == with_committed
                + updates@.len() - 0x1_0000_0000_0000_0000);
            lemma_wrap64_fits(count as int);
            if count == total {
            } else if count == total + 0x1_0000_0000_0000_0000 {
                lemma_wrap64_shift(total, 1);
            } else if count == total - 0x1_0000_0000_0000_0000 {
                lemma_wrap64_shift(total, -1);
            } else {
                lemma_wrap64_shift(total, -2);
            }
        }
        count
    }

    /// Updates entries of `data` to reflect counts in the index.
    ///
    /// The rows are sorted by the key of their prefix. Each row whose
    /// recorded count is larger than the estimate for its key gets the
    /// estimate and `ident` in its place. The estimate does not look at
    /// `valid`: it counts every update that still carries its time.
    pub fn count<P, F: Fn(&P) -> u32>(
        &self,
        data: &mut Vec<(P, u64, u64, i32)>,
        func: &F,
        valid: &Visible,
        ident: u64,
    )
        requires
            self.wf(),
            forall|i: int|
                0 <= i < old(data).len() ==> call_requires(*func, (&(#[trigger] old(data)[i]).0,)),
        ensures
            exists|perm: Seq<int>, keys: Seq<u32>|
                self.counts(old(data)@, final(data)@, perm, keys, *func, ident),
    {
        let (mut keyed, Ghost(perm)) = by_key(data, func);
        let ghost sorted = keyed@;
        let ghost keys = Seq::new(sorted.len(), |i: int| sorted[i].0);
        let total = keyed.len();

        // cursors into the base and the timed updates.
        let mut c_cursor: usize = 0;
        let mut d_cursor: usize = 0;

        let mut index: usize = 0;
        while index < total
            invariant
                self.wf(),
                total == keyed.len(),
                sorted.len() == total,
                index <= total,
                forall|i: int, j: int| 0 <= i <= j < total ==> sorted[i].0 <= sorted[j].0,
                forall|i: int| 0 <= i < total ==> (#[trigger] keyed[i]).0 == sorted[i].0,
                forall|i: int| index <= i < total ==> #[trigger] keyed[i] == sorted[i],
                forall|i: int|
                    0 <= i < index ==> self.counted(
                        sorted[i].1,
                        (#[trigger] keyed[i]).1,
                        sorted[i].0,
                        ident,
                    ),
                index < total ==> self.cursors_below(sorted[index as int].0, c_cursor, d_cursor),
            decreases total - index,
        {
            let key = keyed[index].0;
            let count = self.estimate_for(key, &mut c_cursor, &mut d_cursor);
            let ghost start = index;

            // we may have multiple records with the same key, do them all.
            while index < total && keyed[index].0 == key
                invariant
                    total == keyed.len(),
                    sorted.len() == total,
                    start <= index <= total,
                    index > start || (index < total && keyed[index as int].0 == key),
                    forall|i: int| start <= i < index ==> sorted[i].0 == key,
                    count == self.estimate(key),
                    forall|i: int| 0 <= i < total ==> (#[trigger] keyed[i]).0 == sorted[i].0,
                    forall|i: int| index <= i < total ==> #[trigger] keyed[i] == sorted[i],
                    forall|i: int|
                        0 <= i < index ==> self.counted(
                            sorted[i].1,
                            (#[trigger] keyed[i]).1,
                            sorted[i].0,
                            ident,
                        ),
                decreases total - index,
            {
                // if the count improves, retain the count and the identifier of the index.
                if count < keyed[index].1.1 {
                    keyed[index].1.1 = count;
                    keyed[index].1.2 = ident;
                }
                index += 1;
            }
            proof {
                if index < total {
                    assert(sorted[index - 1].0 <= sorted[index as int].0);
                    assert(sorted[index - 1].0 == key);
                    assert(keyed[index as int].0 == sorted[index as int].0);
                }
            }
        }
        let ghost done = keyed@;
        unkeyed(keyed, data);
        proof {
            assert forall|i: int| 0 <= i < data@.len() implies call_ensures(
                *func,
                (&old(data)@[perm[i]].0,),
                #[trigger] keys[i],
            ) && self.counted(old(data)@[perm[i]], data@[i], keys[i], ident) by {
                assert(sorted[i].1 == old(data)[perm[i]]);
                assert(data[i] == done[i].1);
            }
            assert(self.counts(old(data)@, data@, perm, keys, *func, ident));
        }
    }

    /// Stages, for `key`, the entries of the three layers that `valid`
    /// sees: each value of the base with weight one, the committed run, and
    /// the timed updates that are seen. The committed runs of the key are
    /// merged into one on the way, which changes no weight.
    fn stage(
        &mut self,
        key: u32,
        c_cursor: &mut usize,
        d_cursor: &mut usize,
        valid: &Visible,
        staged: &mut Vec<(u32, i32)>,
    )
        requires
            old(self).wf(),
            old(self).cursors_below(key, *old(c_cursor), *old(d_cursor)),
        ensures
            final(self).wf(),
            final(self).agrees(*old(self)),
            final(self).cursors_upto(key, *final(c_cursor), *final(d_cursor)),
            forall|v: u32| #[trigger]
                weight_of(final(staged)@, v) == old(self).weight(key, v, *valid),
    {
        broadcast use group_hash_axioms;

        staged.clear();

        // (ia): incorporate the values of the base.
        let values = self.compact.values_from(&key, c_cursor);
        proof {
            if self.compact().has(key) {
                let i = self.compact().place(key);
                assert(self.compact().keys()[i].0 == key);
                assert(self.compact().ahead(key, *old(c_cursor) as int));
            } else {
                if self.compact().ahead(key, *old(c_cursor) as int) {
                    let i = choose|i: int|
                        *old(c_cursor) <= i < self.compact().keys().len()
                            && #[trigger] self.compact().keys()[i].0 == key;
                    assert(self.compact().has(key));
                }
            }
            assert(values@ =~= self.base(key));
            assert(values@.take(0) =~= Seq::empty());
        }
        let count = values.len();
        let mut i: usize = 0;
        while i < count
            invariant
                count == values.len(),
                i <= count,
                forall|v: u32| #[trigger]
                    weight_of(staged@, v) == occurrences(values@.take(i as int), v),
            decreases count - i,
        {
            let value = values[i];
            let ghost before = staged@;
            staged.push((value, 1));
            proof {
                assert(values@.take(i + 1) =~= values@.take(i as int).push(value));
                assert forall|v: u32| #[trigger]
                    weight_of(staged@, v) == occurrences(values@.take(i + 1), v) by {
                    assert(weight_of(before, v) == occurrences(values@.take(i as int), v));
                    lemma_sum_by_push(before, (value, 1i32), diff_at(v));
                    lemma_sum_by_push(values@.take(i as int), value, one_at(v));
                }
            }
            i += 1;
        }
        let ghost from_base = staged@;
        proof {
            assert(values@.take(count as int) =~= values@);
        }

        // (ib): incorporate the committed updates.
        match self.edges.remove(&key) {
            Some(entry) => {
                let mut entry = entry;
                let ghost given = entry;
                proof {
                    assert(old(self).edges().contains_key(key));
                    assert(old(self).edges()[key].wf());
                }
                let run = entry.proposals();
                let size = run.len();
                let mut j: usize = 0;
                proof {
                    assert(run@.take(0) =~= Seq::empty());
                    assert forall|v: u32| #[trigger]
                        weight_of(staged@, v) == weight_of(from_base, v) + weight_of(
                            run@.take(0),
                            v,
                        ) by {}
                }
                while j < size
                    invariant
                        size == run.len(),
                        j <= size,
                        forall|v: u32| #[trigger]
                            weight_of(staged@, v) == weight_of(from_base, v) + weight_of(
                                run@.take(j as int),
                                v,
                            ),
                    decreases size - j,
                {
                    let update = run[j];
                    let ghost before = staged@;
                    staged.push(update);
                    proof {
                        assert(run@.take(j + 1) =~= run@.take(j as int).push(update));
                        assert forall|v: u32| #[trigger]
                            weight_of(staged@, v) == weight_of(from_base, v) + weight_of(
                                run@.take(j + 1),
                                v,
                            ) by {
                            assert(weight_of(before, v) == weight_of(from_base, v) + weight_of(
                                run@.take(j as int),
                                v,
                            ));
                            lemma_sum_by_push(before, update, diff_at(v));
                            lemma_sum_by_push(run@.take(j as int), update, diff_at(v));
                        }
                    }
                    j += 1;
                }
                proof {
                    assert(run@.take(size as int) =~= run@);
                    assert forall|v: u32| #[trigger]
                        weight_of(staged@, v) == weight_of(from_base, v) + old(self).committed(
                            key,
                            v,
                        ) by {
                        assert(weight_of(staged@, v) == weight_of(from_base, v) + weight_of(
                            run@.take(size as int),
                            v,
                        ));
                        lemma_run_weight(run@, v);
                        lemma_wrap_fits(weight_of(run@, v));
                        assert(entry.net(v) == given.net(v));
                    }
                }
                let ghost merged = entry;
                self.edges.insert(key, entry);
                proof {
                    assert(self.edges() =~= old(self).edges().insert(key, merged));
                    assert forall|k: u32, v: u32| #[trigger]
                        self.committed(k, v) == old(self).committed(k, v) by {
                        if k == key {
                            assert(merged.net(v) == given.net(v));
                        }
                    }
                    assert forall|k: u32| #[trigger] self.tally(k) == old(self).tally(k) by {}
                    assert forall|k: u32| self.edges().contains_key(k) implies (
                    #[trigger] self.edges()[k]).wf() by {
                        if k != key {
                            assert(old(self).edges()[k].wf());
                        }
                    }
                }
            },
            None => {
                proof {
                    assert(self.edges() =~= old(self).edges());
                    assert forall|k: u32| self.edges().contains_key(k) implies (
                    #[trigger] self.edges()[k]).wf() by {
                        assert(old(self).edges()[k].wf());
                    }
                }
            },
        }
        let ghost committed = staged@;

        // (ic): incorporate the updates that still carry their time.
        let updates = self.diffs.values_from(&key, d_cursor);
        let size = updates.len();
        let mut j: usize = 0;
        proof {
            assert(updates@.take(0) =~= Seq::empty());
            assert forall|v: u32| #[trigger]
                weight_of(staged@, v) == weight_of(committed, v) + sum_by(
                    updates@.take(0),
                    seen_diff(key, v, *valid),
                ) by {}
        }
        while j < size
            invariant
                size == updates.len(),
                j <= size,
                forall|n: int| 0 <= n < size ==> (#[trigger] updates@[n]).0 == key,
                forall|v: u32| #[trigger]
                    weight_of(staged@, v) == weight_of(committed, v) + sum_by(
                        updates@.take(j as int),
                        seen_diff(key, v, *valid),
                    ),
            decreases size - j,
        {
            let (_, value, time, diff) = updates[j];
            let ghost before = staged@;
            let seen = valid.test(&time);
            if seen {
                staged.push((value, diff));
            }
            proof {
                let update = updates@[j as int];
                assert(updates@.take(j + 1) =~= updates@.take(j as int).push(update));
                assert forall|v: u32| #[trigger]
                    weight_of(staged@, v) == weight_of(committed, v) + sum_by(
                        updates@.take(j + 1),
                        seen_diff(key, v, *valid),
                    ) by {
                    assert(weight_of(before, v) == weight_of(committed, v) + sum_by(
                        updates@.take(j as int),
                        seen_diff(key, v, *valid),
                    ));
                    lemma_sum_by_push(updates@.take(j as int), update, seen_diff(key, v, *valid));
                    if seen {
                        lemma_sum_by_push(before, (value, diff), diff_at(v));
                    }
                }
            }
            j += 1;
        }
        proof {
            let to = *d_cursor as int;
            let from = to - updates@.len();
            assert(updates@.take(size as int) =~= updates@);
            assert forall|v: u32| #[trigger]
                weight_of(staged@, v) == old(self).weight(key, v, *valid) by {
                lemma_sum_by_block(self.pending(), from, to, seen_diff(key, v, *valid));
                assert(weight_of(staged@, v) == weight_of(committed, v) + sum_by(
                    updates@.take(size as int),
                    seen_diff(key, v, *valid),
                ));
                assert(weight_of(from_base, v) == occurrences(values@.take(count as int), v));
            }
        }
    }

    /// Proposes extensions for prefixes based on the index.
    ///
    /// The rows are sorted by the key of their prefix. For each key the
    /// index proposes the values of positive accumulated weight, as seen by
    /// `valid`, in ascending order, each as often as its weight; the
    /// proposal is appended to the extensions of each row with that key.
    /// The index answers every query as before.
    pub fn propose<P, F: Fn(&P) -> u32>(
        &mut self,
        data: &mut Vec<(P, Vec<u32>, i32)>,
        func: &F,
        valid: &Visible,
    )
        requires
            old(self).wf(),
            forall|i: int|
                0 <= i < old(data).len() ==> call_requires(*func, (&(#[trigger] old(data)[i]).0,)),
        ensures
            final(self).wf(),
            final(self).agrees(*old(self)),
            exists|perm: Seq<int>, keys: Seq<u32>|
                final(self).proposes(old(data)@, final(data)@, perm, keys, *func, *valid),
    {
        let (mut keyed, Ghost(perm)) = by_key(data, func);
        let ghost sorted = keyed@;
        let ghost keys = Seq::new(sorted.len(), |i: int| sorted[i].0);
        let total = keyed.len();

        // fingers into the base and the timed updates.
        let mut c_cursor: usize = 0;
        let mut d_cursor: usize = 0;

        // temporary array to stage proposals
        let mut staged: Vec<(u32, i32)> = Vec::new();

        let mut index: usize = 0;
        while index < total
            invariant
                self.wf(),
                self.agrees(*old(self)),
                total == keyed.len(),
                sorted.len() == total,
                index <= total,
                forall|i: int, j: int| 0 <= i <= j < total ==> sorted[i].0 <= sorted[j].0,
                forall|i: int| 0 <= i < total ==> (#[trigger] keyed[i]).0 == sorted[i].0,
                forall|i: int| index <= i < total ==> #[trigger] keyed[i] == sorted[i],
                forall|i: int|
                    0 <= i < index ==> old(self).proposed(
                        sorted[i].1,
                        (#[trigger] keyed[i]).1,
                        sorted[i].0,
                        *valid,
                    ),
                index < total ==> self.cursors_below(sorted[index as int].0, c_cursor, d_cursor),
            decreases total - index,
        {
            // for each key, we (i) determine the proposals and then (ii) supply them to each
            // entry of `data` with the same key.
            let key = keyed[index].0;
            let ghost entered = *self;
            self.stage(key, &mut c_cursor, &mut d_cursor, valid, &mut staged);
            let extension = positive_values(&mut staged);
            proof {
                assert(self.pending() == old(self).pending());
                assert(self.compact() == old(self).compact());
                assert forall|k: u32, v: u32| #[trigger]
                    self.committed(k, v) == old(self).committed(k, v) by {
                    assert(entered.committed(k, v) == old(self).committed(k, v));
                }
                assert forall|k: u32| #[trigger] self.tally(k) == old(self).tally(k) by {
                    assert(entered.tally(k) == old(self).tally(k));
                }
                assert forall|v: u32| #[trigger]
                    occurrences(extension@, v) == positive(
                        old(self).accumulated(key, v, *valid),
                    ) by {
                    entered.lemma_agrees_weight(*old(self), key, v, *valid);
                }
            }
            let ghost start = index;

            // (ii): we may have multiple records with the same key, propose for them all.
            while index < total && keyed[index].0 == key
                invariant
                    total == keyed.len(),
                    sorted.len() == total,
                    start <= index <= total,
                    index > start || (index < total && keyed[index as int].0 == key),
                    forall|i: int| start <= i < index ==> sorted[i].0 == key,
                    old(self).is_proposal(extension@, key, *valid),
                    forall|i: int| 0 <= i < total ==> (#[trigger] keyed[i]).0 == sorted[i].0,
                    forall|i: int| index <= i < total ==> #[trigger] keyed[i] == sorted[i],
                    forall|i: int|
                        0 <= i < index ==> old(self).proposed(
                            sorted[i].1,
                            (#[trigger] keyed[i]).1,
                            sorted[i].0,
                            *valid,
                        ),
                decreases total - index,
            {
                let ghost was = keyed@;
                extend_row(&mut keyed[index].1, &extension);
                proof {
                    let now = keyed@[index as int].1;
                    let given = sorted[index as int].1;
                    assert(was[index as int] == sorted[index as int]);
                    assert(now.1@.subrange(0, given.1@.len() as int) =~= given.1@);
                    assert(now.1@.subrange(given.1@.len() as int, now.1@.len() as int)
                        =~= extension@);
                    assert forall|i: int| 0 <= i < total implies (#[trigger] keyed[i]).0
                        == sorted[i].0 by {
                        if i != index {
                            assert(keyed[i] == was[i]);
                        }
                    }
                    assert forall|i: int| index < i < total implies #[trigger] keyed[i]
                        == sorted[i] by {
                        assert(keyed[i] == was[i]);
                    }
                    assert forall|i: int| 0 <= i < index implies old(self).proposed(
                        sorted[i].1,
                        (#[trigger] keyed[i]).1,
                        sorted[i].0,
                        *valid,
                    ) by {
                        assert(keyed[i] == was[i]);
                    }
                }
                index += 1;
            }
            proof {
                if index < total {
                    assert(sorted[index - 1].0 <= sorted[index as int].0);
                    assert(sorted[index - 1].0 == key);
                    assert(keyed[index as int].0 == sorted[index as int].0);
                }
            }
        }
        let ghost done = keyed@;
        unkeyed(keyed, data);
        proof {
            assert forall|i: int| 0 <= i < data@.len() implies call_ensures(
                *func,
                (&old(data)@[perm[i]].0,),
                #[trigger] keys[i],
            ) && self.proposed(old(data)@[perm[i]], data@[i], keys[i], *valid) by {
                assert(sorted[i].1 == old(data)[perm[i]]);
                assert(data[i] == done[i].1);
                let was = old(data)@[perm[i]];
                let now = data@[i];
                let list = now.1@.subrange(was.1@.len() as int, now.1@.len() as int);
                assert(old(self).proposed(was, now, keys[i], *valid));
                assert forall|v: u32| #[trigger]
                    occurrences(list, v) == positive(self.accumulated(keys[i], v, *valid)) by {
                    self.lemma_agrees_weight(*old(self), keys[i], v, *valid);
                }
            }
            assert(self.proposes(old(data)@, data@, perm, keys, *func, *valid));
        }
    }

    /// The values of the base for `key`, with the cursor moved behind the
    /// key.
    fn base_slice<'a>(&'a self, key: u32, c_cursor: &mut usize) -> (values: &'a [u32])
        requires
            self.wf(),
            *old(c_cursor) <= self.compact().keys().len(),
            forall|i: int|
                0 <= i < *old(c_cursor) ==> (#[trigger] self.compact().keys()[i]).0 < key,
        ensures
            values@ == self.base(key),
            ascending(values@),
            *final(c_cursor) <= self.compact().keys().len(),
            forall|i: int|
                0 <= i < *final(c_cursor) ==> (#[trigger] self.compact().keys()[i]).0 <= key,
    {
        let values = self.compact.values_from(&key, c_cursor);
        proof {
            if self.compact().has(key) {
                let i = self.compact().place(key);
                assert(self.compact().keys()[i].0 == key);
                assert(self.compact().ahead(key, *old(c_cursor) as int));
            } else {
                if self.compact().ahead(key, *old(c_cursor) as int) {
                    let i = choose|i: int|
                        *old(c_cursor) <= i < self.compact().keys().len()
                            && #[trigger] self.compact().keys()[i].0 == key;
                    assert(self.compact().has(key));
                }
            }
            assert(values@ =~= self.base(key));
            self.compact().lemma_base_ascends(key);
        }
        values
    }

    /// The updates of `key` that still carry their time, with the cursor
    /// moved behind them. The second result is where they start.
    fn pending_slice<'a>(&'a self, key: u32, d_cursor: &mut usize) -> (out: (
        &'a [Update],
        Ghost<int>,
    ))
        requires
            self.wf(),
            *old(d_cursor) <= self.pending().len(),
            forall|i: int| 0 <= i < *old(d_cursor) ==> (#[trigger] self.pending()[i]).0 < key,
        ensures
            *final(d_cursor) <= self.pending().len(),
            forall|i: int| 0 <= i < *final(d_cursor) ==> (#[trigger] self.pending()[i]).0 <= key,
            values_ascend(out.0@, key),
            0 <= out.1@ <= out.1@ + out.0@.len() <= self.pending().len(),
            out.0@ == self.pending().subrange(out.1@, out.1@ + out.0@.len()),
            forall|i: int| 0 <= i < out.1@ ==> (#[trigger] self.pending()[i]).0 != key,
            forall|i: int|
                out.1@ + out.0@.len() <= i < self.pending().len() ==> (
                #[trigger] self.pending()[i]).0 != key,
    {
        let updates = self.diffs.values_from(&key, d_cursor);
        let ghost from = *d_cursor - updates@.len();
        proof {
            assert forall|a: int, b: int| 0 <= a <= b < updates@.len() implies updates@[a].1
                <= updates@[b].1 by {
                lemma_keys_ascend(self.pending(), from + a, from + b);
                assert(self.pending()[from + a].0 == key);
                assert(self.pending()[from + b].0 == key);
            }
            assert forall|n: int| 0 <= n < updates@.len() implies (#[trigger] updates@[n]).0
                == key by {
                assert(self.pending()[from + n].0 == key);
            }
        }
        (updates, Ghost(from))
    }

    /// Charges `effort` to the committed updates of `key`, which may merge
    /// their runs: the list of the key becomes what the effort makes of it,
    /// and the lists of the other keys stay as they are. A key without
    /// committed updates is charged nothing. No weight changes.
    fn charge(&mut self, key: u32, effort: u32)
        requires
            old(self).wf(),
        ensures
            final(self).wf(),
            final(self).agrees(*old(self)),
            final(self).edges().dom() == old(self).edges().dom(),
            forall|k: u32|
                k != key && old(self).edges().contains_key(k) ==> #[trigger] final(self).edges()[k]
                    == old(self).edges()[k],
            old(self).edges().contains_key(key) ==> final(self).edges()[key].expended(
                old(self).edges()[key],
                effort,
            ),
            !old(self).edges().contains_key(key) ==> final(self).edges() == old(self).edges(),
    {
        broadcast use group_hash_axioms;

        match self.edges.remove(&key) {
            Some(entry) => {
                let mut entry = entry;
                let ghost given = entry;
                proof {
                    assert(old(self).edges().contains_key(key));
                    assert(old(self).edges()[key].wf());
                }
                entry.expend(effort);
                let ghost spent = entry;
                self.edges.insert(key, entry);
                proof {
                    assert(self.edges() =~= old(self).edges().insert(key, spent));
                    assert(given == old(self).edges()[key]);
                    assert(spent.expended(given, effort));
                    assert(self.edges().dom() =~= old(self).edges().dom());
                    assert forall|k: u32, v: u32| #[trigger]
                        self.committed(k, v) == old(self).committed(k, v) by {
                        if k == key {
                            assert(spent.net(v) == given.net(v));
                        }
                    }
                    assert forall|k: u32| #[trigger] self.tally(k) == old(self).tally(k) by {}
                    assert forall|k: u32| self.edges().contains_key(k) implies (
                    #[trigger] self.edges()[k]).wf() by {
                        if k != key {
                            assert(old(self).edges()[k].wf());
                        }
                    }
                }
            },
            None => {
                proof {
                    assert(self.edges() =~= old(self).edges());
                    assert forall|k: u32| self.edges().contains_key(k) implies (
                    #[trigger] self.edges()[k]).wf() by {
                        assert(old(self).edges()[k].wf());
                    }
                }
            },
        }
    }

    /// The extensions of `list` that survive the intersection with the
    /// values of `key`. `base` and `updates` are what the base and the timed
    /// updates hold for the key.
    fn surviving(
        &self,
        key: u32,
        list: &Vec<u32>,
        base: &[u32],
        updates: &[Update],
        valid: &Visible,
        Ghost(from): Ghost<int>,
    ) -> (kept: Vec<u32>)
        requires
            self.wf(),
            ascending(list@),
            base@ == self.base(key),
            ascending(base@),
            values_ascend(updates@, key),
            0 <= from <= from + updates@.len() <= self.pending().len(),
            updates@ == self.pending().subrange(from, from + updates@.len()),
            forall|i: int| 0 <= i < from ==> (#[trigger] self.pending()[i]).0 != key,
            forall|i: int|
                from + updates@.len() <= i < self.pending().len() ==> (
                #[trigger] self.pending()[i]).0 != key,
        ensures
            kept@ == self.survivors(list@, key, *valid),
    {
        broadcast use group_hash_axioms;

        let count = list.len();
        // a vector of initially zero counts.
        let mut temp: Vec<i32> = Vec::new();
        let mut i: usize = 0;
        while i < count
            invariant
                i <= count,
                temp.len() == i,
                forall|n: int| 0 <= n < i ==> temp[n] == 0,
            decreases count - i,
        {
            temp.push(0);
            i += 1;
        }
        // (ia) update `temp` counts based on the committed updates, if there are any.
        match self.edges.get(&key) {
            Some(entry) => {
                proof {
                    assert(self.edges()[key].wf());
                }
                entry.intersect(list.as_slice(), &mut temp);
            },
            None => {},
        }
        let ghost first = temp@;
        // (ib, ic) update `temp` counts based on the base and the timed updates.
        add_base(base, list, &mut temp);
        let ghost second = temp@;
        add_pending(updates, key, list, valid, &mut temp);
        proof {
            assert forall|n: int| 0 <= n < count implies #[trigger] temp[n] == (if first_at(
                list@,
                n,
            ) {
                self.accumulated(key, list[n], *valid)
            } else {
                0
            }) by {
                let v = list[n];
                let f = seen_diff(key, v, *valid);
                if first_at(list@, n) {
                    assert(first[n] == self.committed(key, v));
                    lemma_sum_by_block(self.pending(), from, from + updates@.len(), f);
                    lemma_wrap_add(
                        first[n] + occurrences(base@, v),
                        sum_by(updates@, f),
                    );
                    assert(second[n] == wrap(first[n] + occurrences(base@, v)));
                } else {
                    assert(first[n] == 0);
                    assert(second[n] == wrap(0));
                    lemma_wrap_fits(0);
                }
            }
        }

        // (ii) keep the elements whose count is strictly positive.
        let mut kept: Vec<u32> = Vec::new();
        let mut i: usize = 0;
        proof {
            assert(list@.take(0) =~= Seq::empty());
        }
        while i < count
            invariant
                count == list.len(),
                temp.len() == count,
                i <= count,
                forall|n: int|
                    0 <= n < count ==> #[trigger] temp[n] == (if first_at(list@, n) {
                        self.accumulated(key, list[n], *valid)
                    } else {
                        0
                    }),
                kept@ == self.survivors(list@.take(i as int), key, *valid),
            decreases count - i,
        {
            proof {
                let next = list@.take(i + 1);
                assert(next.drop_last() =~= list@.take(i as int));
                assert(next.last() == list[i as int]);
                assert(first_at(next, i as int) == first_at(list@, i as int));
            }
            if temp[i] > 0 {
                kept.push(list[i]);
            }
            i += 1;
        }
        proof {
            assert(list@.take(count as int) =~= list@);
        }
        kept
    }

    /// Restricts extensions for prefixes to those found in the index.
    ///
    /// The rows are sorted by the key of their prefix. Of the extensions of
    /// each row, which ascend, those remain whose accumulated weight under
    /// the key of the row, as seen by `valid`, is positive; of equal
    /// extensions the first only. The index answers every query as before.
    pub fn intersect<P, F: Fn(&P) -> u32>(
        &mut self,
        data: &mut Vec<(P, Vec<u32>, i32)>,
        func: &F,
        valid: &Visible,
    )
        requires
            old(self).wf(),
            forall|i: int|
                0 <= i < old(data).len() ==> call_requires(*func, (&(#[trigger] old(data)[i]).0,)),
            forall|i: int| 0 <= i < old(data).len() ==> ascending((#[trigger] old(data)[i]).1@),
        ensures
            final(self).wf(),
            final(self).agrees(*old(self)),
            exists|perm: Seq<int>, keys: Seq<u32>|
                final(self).intersects(old(data)@, final(data)@, perm, keys, *func, *valid),
    {
        let (mut keyed, Ghost(perm)) = by_key(data, func);
        let ghost sorted = keyed@;
        let ghost keys = Seq::new(sorted.len(), |i: int| sorted[i].0);
        let total = keyed.len();

        // fingers into the base and the timed updates.
        let mut c_cursor: usize = 0;
        let mut d_cursor: usize = 0;

        let mut index: usize = 0;
        while index < total
            invariant
                self.wf(),
                self.agrees(*old(self)),
                total == keyed.len(),
                sorted.len() == total,
                index <= total,
                forall|i: int| 0 <= i < total ==> ascending((#[trigger] sorted[i]).1.1@),
                forall|i: int, j: int| 0 <= i <= j < total ==> sorted[i].0 <= sorted[j].0,
                forall|i: int| 0 <= i < total ==> (#[trigger] keyed[i]).0 == sorted[i].0,
                forall|i: int| index <= i < total ==> #[trigger] keyed[i] == sorted[i],
                forall|i: int|
                    0 <= i < index ==> old(self).intersected(
                        sorted[i].1,
                        (#[trigger] keyed[i]).1,
                        sorted[i].0,
                        *valid,
                    ),
                index < total ==> self.cursors_below(sorted[index as int].0, c_cursor, d_cursor),
            decreases total - index,
        {
            let key = keyed[index].0;

            // consider the amount of effort we are about to invest:
            let mut effort: usize = 0;
            let mut ahead = index;
            while ahead < total && keyed[ahead].0 == key
                invariant
                    total == keyed.len(),
                    ahead <= total,
                decreases total - ahead,
            {
                let more = keyed[ahead].1.1.len();
                effort = if more > usize::MAX - effort {
                    usize::MAX
                } else {
                    effort + more
                };
                ahead += 1;
            }
            let effort = if effort > 0xffff_ffff {
                0xffff_ffffu32
            } else {
                effort as u32
            };

            // (ii) prepare the committed updates. if our effort level is large, consolidate.
            let ghost entered = *self;
            self.charge(key, effort);
            proof {
                assert(self.pending() == old(self).pending());
                assert(self.compact() == old(self).compact());
                assert forall|k: u32, v: u32| #[trigger]
                    self.committed(k, v) == old(self).committed(k, v) by {
                    assert(entered.committed(k, v) == old(self).committed(k, v));
                }
                assert forall|k: u32| #[trigger] self.tally(k) == old(self).tally(k) by {
                    assert(entered.tally(k) == old(self).tally(k));
                }
            }

            // (i) position the base cursor so that we can re-use it.
            let compact_slice = self.base_slice(key, &mut c_cursor);

            // (iii) position the cursor into the timed updates so that we can re-use it.
            let (diffs_slice, Ghost(from)) = self.pending_slice(key, &mut d_cursor);
            let ghost start = index;

            // we may have multiple records with the same key, do them all.
            while index < total && keyed[index].0 == key
                invariant
                    self.wf(),
                    self.agrees(*old(self)),
                    total == keyed.len(),
                    sorted.len() == total,
                    start <= index <= total,
                    index > start || (index < total && keyed[index as int].0 == key),
                    forall|i: int| start <= i < index ==> sorted[i].0 == key,
                    compact_slice@ == self.base(key),
                    ascending(compact_slice@),
                    values_ascend(diffs_slice@, key),
                    0 <= from <= from + diffs_slice@.len() <= self.pending().len(),
                    diffs_slice@ == self.pending().subrange(from, from + diffs_slice@.len()),
                    forall|i: int| 0 <= i < from ==> (#[trigger] self.pending()[i]).0 != key,
                    forall|i: int|
                        from + diffs_slice@.len() <= i < self.pending().len() ==> (
                        #[trigger] self.pending()[i]).0 != key,
                    forall|i: int| 0 <= i < total ==> ascending((#[trigger] sorted[i]).1.1@),
                    forall|i: int| 0 <= i < total ==> (#[trigger] keyed[i]).0 == sorted[i].0,
                    forall|i: int| index <= i < total ==> #[trigger] keyed[i] == sorted[i],
                    forall|i: int|
                        0 <= i < index ==> old(self).intersected(
                            sorted[i].1,
                            (#[trigger] keyed[i]).1,
                            sorted[i].0,
                            *valid,
                        ),
                decreases total - index,
            {
                let ghost was = keyed@;
                proof {
                    assert(keyed[index as int] == sorted[index as int]);
                    assert(ascending(sorted[index as int].1.1@));
                }
                let kept = self.surviving(
                    key,
                    &keyed[index].1.1,
                    compact_slice,
                    diffs_slice,
                    valid,
                    Ghost(from),
                );
                keyed[index].1.1 = kept;
                proof {
                    self.lemma_agrees_survivors(
                        *old(self),
                        sorted[index as int].1.1@,
                        key,
                        *valid,
                    );
                    assert forall|i: int| 0 <= i < total implies (#[trigger] keyed[i]).0
                        == sorted[i].0 by {
                        if i != index {
                            assert(keyed[i] == was[i]);
                        }
                    }
                    assert forall|i: int| index < i < total implies #[trigger] keyed[i]
                        == sorted[i] by {
                        assert(keyed[i] == was[i]);
                    }
                    assert forall|i: int| 0 <= i < index implies old(self).intersected(
                        sorted[i].1,
                        (#[trigger] keyed[i]).1,
                        sorted[i].0,
                        *valid,
                    ) by {
                        assert(keyed[i] == was[i]);
                    }
                }
                index += 1;
            }
            proof {
                if index < total {
                    assert(sorted[index - 1].0 <= sorted[index as int].0);
                    assert(sorted[index - 1].0 == key);
                    assert(keyed[index as int].0 == sorted[index as int].0);
                }
            }
        }
        let ghost done = keyed@;
        unkeyed(keyed, data);
        proof {
            assert forall|i: int| 0 <= i < data@.len() implies call_ensures(
                *func,
                (&old(data)@[perm[i]].0,),
                #[trigger] keys[i],
            ) && self.intersected(old(data)@[perm[i]], data@[i], keys[i], *valid) by {
                assert(sorted[i].1 == old(data)[perm[i]]);
                assert(data[i] == done[i].1);
                assert(old(self).intersected(old(data)@[perm[i]], data@[i], keys[i], *valid));
                self.lemma_agrees_survivors(*old(self), old(data)@[perm[i]].1@, keys[i], *valid);
            }
            assert(self.intersects(old(data)@, data@, perm, keys, *func, *valid));
        }
    }

    /// Commits updates up to and including `time`.
    ///
    /// The updates made at `time` or before lose their times: their diffs
    /// are added to the committed weights of their keys. They should be
    /// merged only once no query will ask to tell them apart again. The
    /// later updates stay as they are, but for those of diff zero, which
    /// are dropped.
    pub fn merge_to(&mut self, time: &u64)
        requires
            old(self).wf(),
        ensures
            final(self).wf(),
            final(self).merged(*old(self), *time),
    {
        broadcast use group_hash_axioms;

        let ghost given = self.diffs.updates@;
        let total = self.diffs.updates.len();
        let mut index: usize = 0;
        proof {
            assert(given.take(0) =~= Seq::empty());
            assert forall|k: u32, v: u32| #[trigger]
                self.committed(k, v) == wrap(
                    old(self).committed(k, v) + sum_by(given.take(0), due_diff(k, v, *time)),
                ) by {
                lemma_wrap_fits(old(self).committed(k, v) as int);
            }
            assert forall|k: u32| #[trigger]
                self.tally(k) == wrap(
                    old(self).tally(k) + sum_by(given.take(0), due_total(k, *time)),
                ) by {
                lemma_wrap_fits(old(self).tally(k) as int);
            }
        }
        while index < total
            invariant
                total == given.len(),
                self.diffs.updates.len() == total,
                index <= total,
                self.compact == old(self).compact,
                forall|k: u32| self.edges().contains_key(k) ==> (#[trigger] self.edges()[k]).wf(),
                forall|i: int|
                    0 <= i < total ==> {
                        let now = #[trigger] self.diffs.updates[i];
                        &&& now.0 == given[i].0
                        &&& now.1 == given[i].1
                        &&& now.2 == given[i].2
                        &&& now.3 == if i < index && given[i].2 <= *time {
                            0
                        } else {
                            given[i].3
                        }
                    },
                forall|k: u32, v: u32| #[trigger]
                    self.committed(k, v) == wrap(
                        old(self).committed(k, v) + sum_by(
                            given.take(index as int),
                            due_diff(k, v, *time),
                        ),
                    ),
                forall|k: u32| #[trigger]
                    self.tally(k) == wrap(
                        old(self).tally(k) + sum_by(
                            given.take(index as int),
                            due_total(k, *time),
                        ),
                    ),
            decreases total - index,
        {
            let key = self.diffs.updates[index].0;
            let ghost entered = *self;
            let ghost start = index;
            let mut entry = match self.edges.remove(&key) {
                Some(entry) => entry,
                None => EdgeList::new(),
            };
            let prior_position = entry.position();
            proof {
                if entered.edges().contains_key(key) {
                    assert(entered.edges()[key].wf());
                }
                assert forall|v: u32| #[trigger]
                    entry.net(v) == wrap(
                        old(self).committed(key, v) + sum_by(
                            given.take(index as int),
                            due_diff(key, v, *time),
                        ),
                    ) by {
                    assert(entry.net(v) == entered.committed(key, v)) by {
                        if !entered.edges().contains_key(key) {
                            lemma_sum_by_zero(entry.entries(), diff_at(v));
                            lemma_wrap_fits(0);
                        }
                    }
                }
                assert(entry.tally() == entered.tally(key));
            }

            while index < total && self.diffs.updates[index].0 == key
                invariant
                    total == given.len(),
                    self.diffs.updates.len() == total,
                    start <= index <= total,
                    index > start || (index < total && self.diffs.updates[index as int].0 == key),
                    self.compact == old(self).compact,
                    self.edges() == entered.edges().remove(key),
                    entry.sealed_to(prior_position),
                    forall|i: int|
                        0 <= i < total ==> {
                            let now = #[trigger] self.diffs.updates[i];
                            &&& now.0 == given[i].0
                            &&& now.1 == given[i].1
                            &&& now.2 == given[i].2
                            &&& now.3 == if i < index && given[i].2 <= *time {
                                0
                            } else {
                                given[i].3
                            }
                        },
                    forall|v: u32| #[trigger]
                        entry.net(v) == wrap(
                            old(self).committed(key, v) + sum_by(
                                given.take(index as int),
                                due_diff(key, v, *time),
                            ),
                        ),
                    entry.tally() == wrap(
                        old(self).tally(key) + sum_by(
                            given.take(index as int),
                            due_total(key, *time),
                        ),
                    ),
                    forall|k: u32, v: u32|
                        k != key ==> #[trigger] sum_by(
                            given.take(index as int),
                            due_diff(k, v, *time),
                        ) == sum_by(given.take(start as int), due_diff(k, v, *time)),
                    forall|k: u32|
                        k != key ==> #[trigger] sum_by(
                            given.take(index as int),
                            due_total(k, *time),
                        ) == sum_by(given.take(start as int), due_total(k, *time)),
                decreases total - index,
            {
                let (_, value, at, diff) = self.diffs.updates[index];
                let ghost seen = given.take(index as int);
                let ghost update = given[index as int];
                let ghost before = entry;
                proof {
                    assert(given.take(index + 1) =~= seen.push(update));
                    assert(update == (key, value, at, diff));
                    assert forall|k: u32, v: u32| k != key implies #[trigger] sum_by(
                        given.take(index + 1),
                        due_diff(k, v, *time),
                    ) == sum_by(given.take(start as int), due_diff(k, v, *time)) by {
                        lemma_sum_by_push(seen, update, due_diff(k, v, *time));
                        assert(sum_by(seen, due_diff(k, v, *time)) == sum_by(
                            given.take(start as int),
                            due_diff(k, v, *time),
                        ));
                    }
                    assert forall|k: u32| k != key implies #[trigger] sum_by(
                        given.take(index + 1),
                        due_total(k, *time),
                    ) == sum_by(given.take(start as int), due_total(k, *time)) by {
                        lemma_sum_by_push(seen, update, due_total(k, *time));
                        assert(sum_by(seen, due_total(k, *time)) == sum_by(
                            given.take(start as int),
                            due_total(k, *time),
                        ));
                    }
                }
                if at <= *time {
                    entry.push((value, diff));
                    self.diffs.updates[index].3 = 0;
                }
                proof {
                    assert forall|v: u32| #[trigger]
                        entry.net(v) == wrap(
                            old(self).committed(key, v) + sum_by(
                                given.take(index + 1),
                                due_diff(key, v, *time),
                            ),
                        ) by {
                        let sum = sum_by(seen, due_diff(key, v, *time));
                        lemma_sum_by_push(seen, update, due_diff(key, v, *time));
                        assert(before.net(v) == wrap(old(self).committed(key, v) + sum));
                        if at <= *time {
                            lemma_sum_by_push(before.entries(), (value, diff), diff_at(v));
                            lemma_wrap_add(
                                weight_of(before.entries(), v),
                                diff_at(v)((value, diff)),
                            );
                            lemma_wrap_add(
                                old(self).committed(key, v) + sum,
                                diff_at(v)((value, diff)),
                            );
                        }
                    }
                    lemma_sum_by_push(seen, update, due_total(key, *time));
                    if at <= *time {
                        lemma_wrap_add(
                            old(self).tally(key) + sum_by(seen, due_total(key, *time)),
                            diff as int,
                        );
                    }
                }
                index += 1;
            }

            let ghost pushed = entry;
            entry.seal_from(prior_position);
            let ghost sealed = entry;
            self.edges.insert(key, entry);
            proof {
                assert(self.edges() =~= entered.edges().insert(key, sealed));
                assert forall|k: u32| self.edges().contains_key(k) implies (
                #[trigger] self.edges()[k]).wf() by {
                    if k != key {
                        assert(entered.edges()[k].wf());
                    }
                }
                assert forall|k: u32, v: u32| #[trigger]
                    self.committed(k, v) == wrap(
                        old(self).committed(k, v) + sum_by(
                            given.take(index as int),
                            due_diff(k, v, *time),
                        ),
                    ) by {
                    if k == key {
                        assert(sealed.net(v) == pushed.net(v));
                    } else {
                        assert(self.committed(k, v) == entered.committed(k, v));
                        assert(sum_by(given.take(index as int), due_diff(k, v, *time)) == sum_by(
                            given.take(start as int),
                            due_diff(k, v, *time),
                        ));
                    }
                }
                assert forall|k: u32| #[trigger]
                    self.tally(k) == wrap(
                        old(self).tally(k) + sum_by(
                            given.take(index as int),
                            due_total(k, *time),
                        ),
                    ) by {
                    if k != key {
                        assert(self.tally(k) == entered.tally(k));
                        assert(sum_by(given.take(index as int), due_total(k, *time)) == sum_by(
                            given.take(start as int),
                            due_total(k, *time),
                        ));
                    }
                }
            }
        }

        // remove committed updates
        let mut kept: Vec<Update> = Vec::new();
        let mut i: usize = 0;
        while i < total
            invariant
                total == given.len(),
                self.diffs.updates.len() == total,
                i <= total,
                forall|n: int|
                    0 <= n < total ==> {
                        let now = #[trigger] self.diffs.updates[n];
                        &&& now.0 == given[n].0
                        &&& now.1 == given[n].1
                        &&& now.2 == given[n].2
                        &&& now.3 == if given[n].2 <= *time {
                            0
                        } else {
                            given[n].3
                        }
                    },
                kept@ == remaining(given.take(i as int), *time),
                self.compact == old(self).compact,
                forall|k: u32| self.edges().contains_key(k) ==> (#[trigger] self.edges()[k]).wf(),
                forall|k: u32, v: u32| #[trigger]
                    self.committed(k, v) == wrap(
                        old(self).committed(k, v) + sum_by(
                            given.take(total as int),
                            due_diff(k, v, *time),
                        ),
                    ),
                forall|k: u32| #[trigger]
                    self.tally(k) == wrap(
                        old(self).tally(k) + sum_by(
                            given.take(total as int),
                            due_total(k, *time),
                        ),
                    ),
            decreases total - i,
        {
            let update = self.diffs.updates[i];
            proof {
                assert(given.take(i + 1).drop_last() =~= given.take(i as int));
                assert(given.take(i + 1).last() == given[i as int]);
            }
            if update.3 != 0 {
                kept.push(update);
            }
            i += 1;
        }
        let ghost full = *self;
        self.diffs.updates = kept;
        proof {
            assert(given.take(total as int) =~= given);
            lemma_remaining_ascends(given, *time);
            assert(self.edges() == full.edges());
            assert forall|k: u32| self.edges().contains_key(k) implies (
            #[trigger] self.edges()[k]).wf() by {
                assert(full.edges()[k].wf());
            }
            assert forall|k: u32, v: u32| #[trigger]
                self.committed(k, v) == wrap(
                    old(self).committed(k, v) + sum_by(
                        old(self).pending(),
                        due_diff(k, v, *time),
                    ),
                ) by {
                assert(self.committed(k, v) == full.committed(k, v));
            }
            assert forall|k: u32| #[trigger]
                self.tally(k) == wrap(
                    old(self).tally(k) + sum_by(old(self).pending(), due_total(k, *time)),
                ) by {
                assert(self.tally(k) == full.tally(k));
            }
        }
    }
}

} // verus!
