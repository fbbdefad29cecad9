//! An LSM-style list of the updates committed for one key.
//!
//! The list holds sorted runs of `(value, diff)` entries, oldest first, whose
//! boundaries are the split positions. New updates are pushed behind the last
//! run and then sealed: sorted, summed per value, and merged with older runs
//! for as long as the newest run is larger than half of the one before it.
//! So the run lengths at least halve from each run to the next.

use vstd::prelude::*;
use crate::order::{ascending, first_at, sort_from, Keyed};
use crate::{advance, advanced};
use crate::weights::{
    diff_at, diff_of, lemma_sum_by_push, lemma_sum_by_rearranged, lemma_sum_by_split,
    lemma_sum_by_zero, lemma_wrap_add, lemma_wrap_congruent, lemma_wrap_fits, lemma_wrapping_add,
    sum_by, total_of, weight_of, wrap,
};

verus! {

/// Where run `k` starts.
pub open spec fn run_start(splits: Seq<usize>, k: int) -> int {
    if k <= 0 {
        0
    } else {
        splits[k - 1] as int
    }
}

/// Where run `k` ends, in a list sealed up to `end`.
pub open spec fn run_end(splits: Seq<usize>, k: int, end: int) -> int {
    if k >= splits.len() {
        end
    } else {
        splits[k] as int
    }
}

/// The number of entries in run `k`.
pub open spec fn run_len(splits: Seq<usize>, k: int, end: int) -> int {
    run_end(splits, k, end) - run_start(splits, k)
}

/// The entries of run `k`.
pub open spec fn run_at(entries: Seq<(u32, i32)>, splits: Seq<usize>, k: int, end: int) -> Seq<
    (u32, i32),
> {
    entries.subrange(run_start(splits, k), run_end(splits, k, end))
}

/// A sorted run: the values strictly ascend and no diff is zero.
pub open spec fn is_run(s: Seq<(u32, i32)>) -> bool {
    &&& forall|i: int, j: int| 0 <= i < j < s.len() ==> s[i].0 < s[j].0
    &&& forall|i: int| 0 <= i < s.len() ==> s[i].1 != 0
}

/// The split positions ascend strictly and lie in `1..=end`.
pub open spec fn splits_ok(splits: Seq<usize>, end: int) -> bool {
    &&& forall|i: int, j: int| 0 <= i < j < splits.len() ==> splits[i] < splits[j]
    &&& forall|i: int| 0 <= i < splits.len() ==> 0 < #[trigger] splits[i] <= end
}

/// The first `runs` runs are sorted runs.
pub open spec fn runs_sorted(
    entries: Seq<(u32, i32)>,
    splits: Seq<usize>,
    end: int,
    runs: int,
) -> bool {
    forall|k: int| 0 <= k < runs ==> is_run(#[trigger] run_at(entries, splits, k, end))
}

/// Run `k` is at least twice as long as the run after it.
pub open spec fn halves(splits: Seq<usize>, end: int, k: int) -> bool {
    run_len(splits, k, end) >= 2 * run_len(splits, k + 1, end)
}

/// Each of the first `pairs` runs is at least twice as long as the next.
pub open spec fn halving(splits: Seq<usize>, end: int, pairs: int) -> bool {
    forall|k: int| 0 <= k < pairs ==> #[trigger] halves(splits, end, k)
}

/// The weight of `v` in a sorted run is the diff of its entry, if it has one.
pub proof fn lemma_run_weight(s: Seq<(u32, i32)>, v: u32)
    requires
        is_run(s),
    ensures
        forall|i: int| 0 <= i < s.len() && s[i].0 == v ==> weight_of(s, v) == s[i].1,
        (forall|i: int| 0 <= i < s.len() ==> s[i].0 != v) ==> weight_of(s, v) == 0,
        i32::MIN <= weight_of(s, v) <= i32::MAX,
    decreases s.len(),
{
    if s.len() > 0 {
        let rest = s.drop_last();
        lemma_run_weight(rest, v);
        if s.last().0 == v {
            assert forall|i: int| 0 <= i < rest.len() implies diff_at(v)(#[trigger] rest[i])
                == 0 by {
                assert(rest[i] == s[i]);
            }
            lemma_sum_by_zero(rest, diff_at(v));
        } else {
            assert forall|i: int| 0 <= i < s.len() && s[i].0 == v implies weight_of(s, v)
                == s[i].1 by {
                assert(rest[i] == s[i]);
            }
        }
    }
}

/// Folding `next` into the entry that is being summed keeps the sums equal.
proof fn lemma_fold_same(
    done: Seq<(u32, i32)>,
    held: (u32, i32),
    merged: (u32, i32),
    seen: Seq<(u32, i32)>,
    next: (u32, i32),
    f: spec_fn((u32, i32)) -> int,
)
    requires
        wrap(sum_by(done.push(held), f)) == wrap(sum_by(seen, f)),
        wrap(f(merged)) == wrap(f(held) + f(next)),
    ensures
        wrap(sum_by(done.push(merged), f)) == wrap(sum_by(seen.push(next), f)),
{
    lemma_sum_by_push(done, held, f);
    lemma_sum_by_push(done, merged, f);
    lemma_sum_by_push(seen, next, f);
    lemma_wrap_add(sum_by(done, f), f(merged));
    lemma_wrap_add(sum_by(done, f), f(held) + f(next));
    lemma_wrap_congruent(sum_by(done, f) + f(held), sum_by(seen, f), f(next));
}

/// Starting a new entry with `next` keeps the sums equal.
proof fn lemma_fold_next(
    done: Seq<(u32, i32)>,
    seen: Seq<(u32, i32)>,
    next: (u32, i32),
    f: spec_fn((u32, i32)) -> int,
)
    requires
        wrap(sum_by(done, f)) == wrap(sum_by(seen, f)),
    ensures
        wrap(sum_by(done.push(next), f)) == wrap(sum_by(seen.push(next), f)),
{
    lemma_sum_by_push(done, next, f);
    lemma_sum_by_push(seen, next, f);
    lemma_wrap_congruent(sum_by(done, f), sum_by(seen, f), f(next));
}

/// An entry that adds nothing can be left out.
proof fn lemma_fold_drop(
    done: Seq<(u32, i32)>,
    held: (u32, i32),
    seen: Seq<(u32, i32)>,
    f: spec_fn((u32, i32)) -> int,
)
    requires
        wrap(sum_by(done.push(held), f)) == wrap(sum_by(seen, f)),
        f(held) == 0,
    ensures
        wrap(sum_by(done, f)) == wrap(sum_by(seen, f)),
{
    lemma_sum_by_push(done, held, f);
}

/// Replacing the tail of a list by one of the same wrapped sum keeps the
/// wrapped sum of the list.
proof fn lemma_tail_replaced(
    given: Seq<(u32, i32)>,
    sorted: Seq<(u32, i32)>,
    result: Seq<(u32, i32)>,
    bound: int,
    f: spec_fn((u32, i32)) -> int,
)
    requires
        0 <= bound <= result.len(),
        bound <= given.len() == sorted.len(),
        given.subrange(0, bound) == result.subrange(0, bound),
        given.subrange(bound, given.len() as int).to_multiset() == sorted.subrange(
            bound,
            sorted.len() as int,
        ).to_multiset(),
        wrap(sum_by(result.subrange(bound, result.len() as int), f)) == wrap(
            sum_by(sorted.subrange(bound, sorted.len() as int), f),
        ),
    ensures
        wrap(sum_by(result, f)) == wrap(sum_by(given, f)),
{
    let head = given.subrange(0, bound);
    lemma_sum_by_rearranged(
        sorted.subrange(bound, sorted.len() as int),
        given.subrange(bound, given.len() as int),
        f,
    );
    lemma_sum_by_split(result, bound, f);
    lemma_sum_by_split(given, bound, f);
    lemma_wrap_congruent(
        sum_by(result.subrange(bound, result.len() as int), f),
        sum_by(sorted.subrange(bound, sorted.len() as int), f),
        sum_by(head, f),
    );
}

/// What a run adds to the count of the source element at `i`: the weight of
/// its value, once for each value, at its first element.
pub open spec fn matched(source: Seq<u32>, run: Seq<(u32, i32)>, i: int) -> int {
    if first_at(source, i) {
        weight_of(run, source[i])
    } else {
        0
    }
}

/// The entries of the list from `from` on keep, up to `end`, what they add
/// when the run before them is added.
proof fn lemma_matched_split(
    source: Seq<u32>,
    entries: Seq<(u32, i32)>,
    start: int,
    end: int,
    i: int,
)
    requires
        0 <= start <= end <= entries.len(),
        0 <= i < source.len(),
    ensures
        matched(source, entries.subrange(start, entries.len() as int), i) == matched(
            source,
            entries.subrange(start, end),
            i,
        ) + matched(source, entries.subrange(end, entries.len() as int), i),
{
    let whole = entries.subrange(start, entries.len() as int);
    lemma_sum_by_split(whole, end - start, diff_at(source[i]));
    assert(whole.subrange(0, end - start) =~= entries.subrange(start, end));
    assert(whole.subrange(end - start, whole.len() as int) =~= entries.subrange(
        end,
        entries.len() as int,
    ));
}

/// The committed updates of one key.
pub struct EdgeList {
    bounds: Vec<usize>,
    values: Vec<(u32, i32)>,
    effort: usize,
    count: i32,
}

impl EdgeList {
    /// The entries, run after run, oldest run first.
    pub closed spec fn entries(&self) -> Seq<(u32, i32)> {
        self.values@
    }

    /// The positions at which a new run starts.
    pub closed spec fn splits(&self) -> Seq<usize> {
        self.bounds@
    }

    /// The running sum of all diffs pushed, wrapped.
    pub closed spec fn tally(&self) -> i32 {
        self.count
    }

    /// The effort charged since the runs were last merged into one.
    pub closed spec fn charged(&self) -> usize {
        self.effort
    }

    /// The accumulated weight of `v`: the sum of its diffs, wrapped.
    pub open spec fn net(&self, v: u32) -> i32 {
        wrap(weight_of(self.entries(), v))
    }

    /// The list is in order up to `position`: the entries before it form
    /// sorted runs whose lengths at least halve from run to run. What lies
    /// behind `position` has been pushed and not yet sealed.
    pub open spec fn sealed_to(&self, position: usize) -> bool {
        &&& position <= self.entries().len()
        &&& splits_ok(self.splits(), position as int)
        &&& runs_sorted(
            self.entries(),
            self.splits(),
            position as int,
            self.splits().len() as int + 1,
        )
        &&& halving(self.splits(), position as int, self.splits().len() as int)
        &&& self.tally() == wrap(total_of(self.entries()))
    }

    /// The list is in order throughout.
    pub open spec fn wf(&self) -> bool {
        self.entries().len() <= usize::MAX && self.sealed_to(self.entries().len() as usize)
    }

    /// What an effort makes of the list `before`: a list in order with the
    /// same weights. A list of one run is left as it is. A list of several
    /// runs is merged into one run once the effort charged to it exceeds
    /// its entries, and the charge starts anew; until then the effort is
    /// added to the charge.
    pub open spec fn expended(&self, before: EdgeList, effort: u32) -> bool {
        &&& self.wf()
        &&& forall|v: u32| #[trigger] self.net(v) == before.net(v)
        &&& self.tally() == before.tally()
        &&& before.splits().len() == 0 ==> {
            &&& self.entries() == before.entries()
            &&& self.splits() == before.splits()
            &&& self.charged() == before.charged()
        }
        &&& before.splits().len() > 0 && before.charged() + effort > before.entries().len() ==> {
            &&& self.splits().len() == 0
            &&& self.charged() == 0
        }
        &&& before.splits().len() > 0 && before.charged() + effort <= before.entries().len() ==> {
            &&& self.entries() == before.entries()
            &&& self.splits() == before.splits()
            &&& self.charged() == before.charged() + effort
        }
    }

    /// Allocates a new empty `EdgeList`.
    pub fn new() -> (list: Self)
        ensures
            list.wf(),
            list.entries().len() == 0,
            list.splits().len() == 0,
            list.tally() == 0,
            list.charged() == 0,
    {
        let list = EdgeList { bounds: Vec::new(), values: Vec::new(), effort: 0, count: 0 };
        assert(list.values@ =~= Seq::empty());
        assert(run_at(list.values@, list.bounds@, 0, 0) =~= Seq::empty());
        list
    }

    /// The sum of all diffs, wrapped: an estimate of how many values the
    /// list holds.
    pub fn count(&self) -> (sum: i32)
        ensures
            sum == self.tally(),
    {
        self.count
    }

    /// Reports the current position of the write cursor.
    pub fn position(&self) -> (position: usize)
        ensures
            position == self.entries().len(),
    {
        self.values.len()
    }

    /// Appends an update behind the last run. The entries pushed since
    /// `position` was asked are put in order by `seal_from`.
    pub fn push(&mut self, update: (u32, i32))
        ensures
            final(self).entries() == old(self).entries().push(update),
            final(self).splits() == old(self).splits(),
            final(self).charged() == old(self).charged(),
            final(self).tally() == wrap(old(self).tally() + update.1),
            forall|p: usize| #[trigger] old(self).sealed_to(p) ==> final(self).sealed_to(p),
    {
        proof {
            lemma_wrapping_add(self.count, update.1);
        }
        self.count = self.count.wrapping_add(update.1);
        self.values.push(update);
        proof {
            assert forall|p: usize| #[trigger] old(self).sealed_to(p) implies self.sealed_to(
                p,
            ) by {
                let before = old(self).values@;
                let splits = self.bounds@;
                assert forall|k: int| 0 <= k < splits.len() + 1 implies is_run(
                    #[trigger] run_at(self.values@, splits, k, p as int),
                ) by {
                    assert(run_at(self.values@, splits, k, p as int) =~= run_at(
                        before,
                        splits,
                        k,
                        p as int,
                    ));
                }
                lemma_sum_by_push(before, update, diff_of());
                lemma_wrap_add(total_of(before), update.1 as int);
            }
        }
    }

    /// Where the last run starts.
    pub open spec fn last_split(&self) -> int {
        if self.splits().len() == 0 {
            0
        } else {
            self.splits().last() as int
        }
    }

    /// Puts the entries from the last split position on in order: sorts them
    /// by value, sums the diffs of each value and drops the values whose
    /// diffs sum to zero. The weights stay what they were.
    #[verifier::rlimit(40)]
    pub fn consolidate_tail(&mut self)
        requires
            old(self).last_split() < old(self).entries().len(),
        ensures
            final(self).splits() == old(self).splits(),
            final(self).charged() == old(self).charged(),
            final(self).tally() == old(self).tally(),
            old(self).last_split() <= final(self).entries().len() <= old(self).entries().len(),
            final(self).entries().subrange(0, old(self).last_split()) == old(
                self,
            ).entries().subrange(0, old(self).last_split()),
            is_run(
                final(self).entries().subrange(
                    old(self).last_split(),
                    final(self).entries().len() as int,
                ),
            ),
            forall|v: u32| #[trigger] final(self).net(v) == old(self).net(v),
            wrap(total_of(final(self).entries())) == wrap(total_of(old(self).entries())),
    {
        let bound = if self.bounds.len() > 0 {
            self.bounds[self.bounds.len() - 1]
        } else {
            0
        };
        let len = self.values.len();
        let ghost given = self.values@;
        sort_from(&mut self.values, bound);
        let ghost sorted = self.values@;
        proof {
            let tail = sorted.subrange(bound as int, len as int);
            assert forall|i: int, j: int| bound <= i <= j < len implies sorted[i].0
                <= sorted[j].0 by {
                assert(tail[i - bound].key_spec() <= tail[j - bound].key_spec());
            }
        }

        let mut cursor = bound;
        let mut index = bound + 1;
        while index < len
            invariant
                self.values.len() == len,
                self.bounds == old(self).bounds,
                self.effort == old(self).effort,
                self.count == old(self).count,
                sorted.len() == len,
                bound <= cursor < index <= len,
                self.values@.subrange(0, bound as int) == sorted.subrange(0, bound as int),
                forall|i: int| index <= i < len ==> self.values@[i] == sorted[i],
                forall|i: int, j: int| bound <= i <= j < len ==> sorted[i].0 <= sorted[j].0,
                self.values@[cursor as int].0 == sorted[index - 1].0,
                forall|i: int, j: int|
                    bound <= i < j <= cursor ==> self.values@[i].0 < self.values@[j].0,
                forall|i: int| bound <= i < cursor ==> self.values@[i].1 != 0,
                forall|v: u32|
                    wrap(
                        #[trigger] weight_of(
                            self.values@.subrange(bound as int, cursor + 1),
                            v,
                        ),
                    ) == wrap(weight_of(sorted.subrange(bound as int, index as int), v)),
                wrap(total_of(self.values@.subrange(bound as int, cursor + 1))) == wrap(
                    total_of(sorted.subrange(bound as int, index as int)),
                ),
            decreases len - index,
        {
            let ghost before = self.values@;
            let ghost done = before.subrange(bound as int, cursor as int);
            let ghost prior = before.subrange(bound as int, cursor + 1);
            let ghost seen = sorted.subrange(bound as int, index as int);
            let ghost held = before[cursor as int];
            let next = self.values[index];
            proof {
                assert(prior =~= done.push(held));
                assert(sorted.subrange(bound as int, index + 1) =~= seen.push(next));
            }
            if next.0 == self.values[cursor].0 {
                let sum = self.values[cursor].1.wrapping_add(next.1);
                self.values[cursor].1 = sum;
                proof {
                    lemma_wrapping_add(held.1, next.1);
                    let merged = (held.0, sum);
                    let now = self.values@.subrange(bound as int, cursor + 1);
                    assert(now =~= done.push(merged));
                    assert(self.values@.subrange(bound as int, cursor as int) =~= done);
                    assert forall|v: u32|
                        wrap(#[trigger] weight_of(now, v)) == wrap(
                            weight_of(seen.push(next), v),
                        ) by {
                        assert(wrap(weight_of(prior, v)) == wrap(weight_of(seen, v)));
                        lemma_wrap_add(held.1 as int, next.1 as int);
                        lemma_fold_same(done, held, merged, seen, next, diff_at(v));
                    }
                    lemma_wrap_add(held.1 as int, next.1 as int);
                    lemma_fold_same(done, held, merged, seen, next, diff_of());
                }
            } else {
                if self.values[cursor].1 != 0 {
                    cursor += 1;
                    self.values[cursor] = next;
                    proof {
                        let now = self.values@.subrange(bound as int, cursor + 1);
                        assert(now =~= prior.push(next));
                        assert(self.values@.subrange(bound as int, cursor as int) =~= prior);
                        assert forall|v: u32|
                            wrap(#[trigger] weight_of(now, v)) == wrap(
                                weight_of(seen.push(next), v),
                            ) by {
                            assert(wrap(weight_of(prior, v)) == wrap(weight_of(seen, v)));
                            lemma_fold_next(prior, seen, next, diff_at(v));
                        }
                        lemma_fold_next(prior, seen, next, diff_of());
                    }
                } else {
                    self.values[cursor] = next;
                    proof {
                        let now = self.values@.subrange(bound as int, cursor + 1);
                        assert(now =~= done.push(next));
                        assert(self.values@.subrange(bound as int, cursor as int) =~= done);
                        assert forall|v: u32|
                            wrap(#[trigger] weight_of(now, v)) == wrap(
                                weight_of(seen.push(next), v),
                            ) by {
                            assert(wrap(weight_of(prior, v)) == wrap(weight_of(seen, v)));
                            lemma_fold_drop(done, held, seen, diff_at(v));
                            lemma_fold_next(done, seen, next, diff_at(v));
                        }
                        lemma_fold_drop(done, held, seen, diff_of());
                        lemma_fold_next(done, seen, next, diff_of());
                    }
                }
            }
            index += 1;
        }
        let ghost merged = self.values@;
        let ghost done = merged.subrange(bound as int, cursor as int);
        let ghost prior = merged.subrange(bound as int, cursor + 1);
        let ghost held = merged[cursor as int];
        if self.values[cursor].1 != 0 {
            cursor += 1;
        }
        self.values.truncate(cursor);
        proof {
            let tail = self.values@.subrange(bound as int, cursor as int);
            let sorted_tail = sorted.subrange(bound as int, len as int);
            assert(prior =~= done.push(held));
            assert(self.values@.subrange(0, bound as int) =~= sorted.subrange(0, bound as int));
            if held.1 != 0 {
                assert(tail =~= prior);
            } else {
                assert(tail =~= done);
            }
            assert(is_run(tail)) by {
                assert forall|i: int, j: int| 0 <= i < j < tail.len() implies tail[i].0
                    < tail[j].0 by {
                    assert(tail[i] == merged[bound + i]);
                    assert(tail[j] == merged[bound + j]);
                }
                assert forall|i: int| 0 <= i < tail.len() implies tail[i].1 != 0 by {
                    assert(tail[i] == merged[bound + i]);
                }
            }
            assert forall|v: u32| #[trigger] self.net(v) == old(self).net(v) by {
                assert(wrap(weight_of(prior, v)) == wrap(weight_of(sorted_tail, v)));
                if held.1 == 0 {
                    lemma_fold_drop(done, held, sorted_tail, diff_at(v));
                }
                lemma_tail_replaced(given, sorted, self.values@, bound as int, diff_at(v));
            }
            if held.1 == 0 {
                lemma_fold_drop(done, held, sorted_tail, diff_of());
            }
            lemma_tail_replaced(given, sorted, self.values@, bound as int, diff_of());
        }
    }

    /// Seals the updates pushed since `position` was reported.
    ///
    /// The pushed updates become the newest run. While the newest run is
    /// larger than half of the run before it, the two are merged. The newest
    /// run is then sorted and its diffs are summed per value. Afterwards each
    /// run is at least twice as long as the next, and every weight is what
    /// it was.
    pub fn seal_from(&mut self, position: usize)
        requires
            old(self).sealed_to(position),
        ensures
            final(self).wf(),
            forall|v: u32| #[trigger] final(self).net(v) == old(self).net(v),
            final(self).tally() == old(self).tally(),
            final(self).charged() == old(self).charged(),
            halving(
                final(self).splits(),
                final(self).entries().len() as int,
                final(self).splits().len() as int,
            ),
            position == old(self).entries().len() ==> final(self).entries() == old(
                self,
            ).entries() && final(self).splits() == old(self).splits(),
    {
        let len = self.values.len();
        if len > position {
            let last = if self.bounds.len() > 0 {
                self.bounds[self.bounds.len() - 1]
            } else {
                0
            };
            let ghost given = self.bounds@;
            if position > last {
                self.bounds.push(position);
            }
            proof {
                let splits = self.bounds@;
                assert forall|k: int| 0 <= k < splits.len() implies is_run(
                    #[trigger] run_at(self.values@, splits, k, len as int),
                ) by {
                    assert(run_at(self.values@, splits, k, len as int) =~= run_at(
                        self.values@,
                        given,
                        k,
                        position as int,
                    ));
                }
                assert forall|k: int| 0 <= k < splits.len() - 1 implies #[trigger] halves(
                    splits,
                    len as int,
                    k,
                ) by {
                    assert(halves(given, position as int, k));
                }
            }
            let mut merging = true;
            while merging && self.bounds.len() > 0
                invariant
                    self.values == old(self).values,
                    self.count == old(self).count,
                    self.effort == old(self).effort,
                    len == self.values.len(),
                    position < len,
                    forall|i: int, j: int|
                        0 <= i < j < self.bounds.len() ==> self.bounds[i] < self.bounds[j],
                    forall|i: int|
                        0 <= i < self.bounds.len() ==> 0 < #[trigger] self.bounds[i] <= position,
                    runs_sorted(self.values@, self.bounds@, len as int, self.bounds.len() as int),
                    halving(self.bounds@, len as int, self.bounds.len() - 1),
                    !merging ==> halving(self.bounds@, len as int, self.bounds.len() as int),
                decreases self.bounds.len() + if merging { 1nat } else { 0 },
            {
                let n = self.bounds.len();
                let split = self.bounds[n - 1];
                let start = if n >= 2 {
                    self.bounds[n - 2]
                } else {
                    0
                };
                let ghost before = self.bounds@;
                if len - split > (split - start) / 2 {
                    self.bounds.pop();
                    proof {
                        let splits = self.bounds@;
                        assert forall|k: int| 0 <= k < splits.len() implies is_run(
                            #[trigger] run_at(self.values@, splits, k, len as int),
                        ) by {
                            assert(run_at(self.values@, splits, k, len as int) =~= run_at(
                                self.values@,
                                before,
                                k,
                                len as int,
                            ));
                        }
                        assert forall|k: int| 0 <= k < splits.len() - 1 implies #[trigger] halves(
                            splits,
                            len as int,
                            k,
                        ) by {
                            assert(halves(before, len as int, k));
                        }
                    }
                } else {
                    merging = false;
                    proof {
                        assert(halves(before, len as int, n - 1));
                    }
                }
            }
            let ghost splits = self.bounds@;
            let ghost entries = self.values@;
            self.consolidate_tail();
            proof {
                let bound = old(self).last_split();
                let now = self.values@;
                let end = now.len() as int;
                let cut = if splits.len() == 0 {
                    0
                } else {
                    splits.last() as int
                };
                assert forall|i: int| 0 <= i < cut implies now[i] == entries[i] by {
                    assert(now.subrange(0, cut)[i] == entries.subrange(0, cut)[i]);
                }
                assert forall|k: int| 0 <= k < splits.len() + 1 implies is_run(
                    #[trigger] run_at(now, splits, k, end),
                ) by {
                    if k < splits.len() {
                        assert(run_at(now, splits, k, end) =~= run_at(
                            entries,
                            splits,
                            k,
                            len as int,
                        ));
                    } else {
                        assert(run_at(now, splits, k, end) =~= now.subrange(cut, end));
                    }
                }
                assert forall|k: int| 0 <= k < splits.len() implies #[trigger] halves(
                    splits,
                    end,
                    k,
                ) by {
                    assert(halves(splits, len as int, k));
                }
            }
        }
    }

    /// Merges all runs into one and returns it: the values in strictly
    /// ascending order, each with its accumulated weight, none with weight
    /// zero. A weight may be negative.
    pub fn proposals(&mut self) -> (run: &[(u32, i32)])
        requires
            old(self).wf(),
        ensures
            final(self).wf(),
            final(self).splits().len() == 0,
            forall|v: u32| #[trigger] final(self).net(v) == old(self).net(v),
            final(self).tally() == old(self).tally(),
            run@ == final(self).entries(),
            is_run(run@),
    {
        if self.bounds.len() > 0 {
            self.merge_all();
        }
        proof {
            assert(run_at(self.values@, self.bounds@, 0, self.values@.len() as int)
                =~= self.values@);
        }
        self.values.as_slice()
    }

    /// Merges all runs into one.
    fn merge_all(&mut self)
        requires
            old(self).wf(),
            old(self).splits().len() > 0,
        ensures
            final(self).wf(),
            final(self).splits().len() == 0,
            forall|v: u32| #[trigger] final(self).net(v) == old(self).net(v),
            final(self).tally() == old(self).tally(),
            final(self).charged() == old(self).charged(),
    {
        proof {
            assert(0 < self.bounds@[0] <= self.values@.len());
        }
        self.bounds = Vec::new();
        self.consolidate_tail();
        proof {
            let now = self.values@;
            assert(run_at(now, self.bounds@, 0, now.len() as int) =~= now.subrange(
                0,
                now.len() as int,
            ));
        }
    }

    /// Indicates that a certain amount of effort will be expended.
    ///
    /// A list of several runs charges the effort to its account. Once the
    /// account exceeds the number of entries, the runs are merged into one
    /// and the account is cleared. No weight changes.
    pub fn expend(&mut self, effort: u32)
        requires
            old(self).wf(),
        ensures
            final(self).wf(),
            forall|v: u32| #[trigger] final(self).net(v) == old(self).net(v),
            final(self).tally() == old(self).tally(),
            old(self).splits().len() == 0 ==> {
                &&& final(self).entries() == old(self).entries()
                &&& final(self).splits() == old(self).splits()
                &&& final(self).charged() == old(self).charged()
            },
            old(self).splits().len() > 0 && old(self).charged() + effort > old(
                self,
            ).entries().len() ==> {
                &&& final(self).splits().len() == 0
                &&& final(self).charged() == 0
            },
            old(self).splits().len() > 0 && old(self).charged() + effort <= old(
                self,
            ).entries().len() ==> {
                &&& final(self).entries() == old(self).entries()
                &&& final(self).splits() == old(self).splits()
                &&& final(self).charged() == old(self).charged() + effort
            },
    {
        if self.bounds.len() > 0 {
            let len = self.values.len();
            if self.effort > len || effort as usize > len - self.effort {
                self.merge_all();
                let ghost merged = *self;
                self.effort = 0;
                proof {
                    assert forall|v: u32| #[trigger] self.net(v) == old(self).net(v) by {
                        assert(merged.net(v) == old(self).net(v));
                    }
                }
            } else {
                self.effort = self.effort + effort as usize;
                proof {
                    assert forall|v: u32| #[trigger] self.net(v) == old(self).net(v) by {}
                }
            }
        }
    }

    /// Adds to each count the weight that one sorted run holds for the
    /// source value at that position. Of equal source values only the first
    /// is counted.
    pub fn intersect_helper(source: &[u32], updates: &[(u32, i32)], counts: &mut Vec<i32>)
        requires
            ascending(source@),
            is_run(updates@),
            old(counts).len() == source.len(),
        ensures
            final(counts).len() == source.len(),
            forall|i: int|
                0 <= i < source.len() ==> #[trigger] final(counts)[i] == wrap(
                    old(counts)[i] + matched(source@, updates@, i),
                ),
    {
        let mut s_cursor: usize = 0;
        let mut u_cursor: usize = 0;
        let slen = source.len();
        let ulen = updates.len();
        // merge by galloping
        while s_cursor < slen && u_cursor < ulen
            invariant
                slen == source.len(),
                ulen == updates.len(),
                counts.len() == slen,
                s_cursor <= slen,
                u_cursor <= ulen,
                ascending(source@),
                is_run(updates@),
                forall|j: int, i: int|
                    0 <= j < u_cursor && s_cursor <= i < slen && first_at(source@, i)
                        ==> updates[j].0 < source[i],
                forall|i: int, j: int|
                    0 <= i < s_cursor && u_cursor <= j < ulen ==> source[i] < updates[j].0,
                forall|i: int| s_cursor <= i < slen ==> counts[i] == old(counts)[i],
                forall|i: int|
                    0 <= i < s_cursor ==> #[trigger] counts[i] == wrap(
                        old(counts)[i] + matched(source@, updates@, i),
                    ),
            decreases (slen - s_cursor) + (ulen - u_cursor),
        {
            let value = source[s_cursor];
            let (found, diff) = updates[u_cursor];
            if value < found {
                let below = |x: &u32| -> (b: bool)
                    ensures
                        b == (*x < found),
                    { *x < found };
                let rest = &source[s_cursor..slen];
                let step = advance(rest, below);
                proof {
                    let p = |x: u32| x < found;
                    assert(advanced(below, p, rest@, step as int));
                    assert(rest@[0] == source[s_cursor as int]);
                    assert forall|i: int| s_cursor <= i < s_cursor + step implies counts[i]
                        == wrap(old(counts)[i] + matched(source@, updates@, i)) by {
                        assert(p(rest@[i - s_cursor]));
                        if first_at(source@, i) {
                            lemma_run_weight(updates@, source[i]);
                        }
                        lemma_wrap_fits(old(counts)[i] as int);
                    }
                    assert forall|i: int, j: int|
                        0 <= i < s_cursor + step && u_cursor <= j < ulen implies source[i]
                        < updates[j].0 by {
                        if i >= s_cursor {
                            assert(p(rest@[i - s_cursor]));
                        }
                    }
                }
                s_cursor += step;
            } else if value == found {
                proof {
                    lemma_wrapping_add(counts[s_cursor as int], diff);
                    lemma_run_weight(updates@, value);
                }
                let sum = counts[s_cursor].wrapping_add(diff);
                counts[s_cursor] = sum;
                s_cursor += 1;
                u_cursor += 1;
            } else {
                let below = |e: &(u32, i32)| -> (b: bool)
                    ensures
                        b == (e.0 < value),
                    { e.0 < value };
                let rest = &updates[u_cursor..ulen];
                let step = advance(rest, below);
                proof {
                    let p = |e: (u32, i32)| e.0 < value;
                    assert(advanced(below, p, rest@, step as int));
                    assert(rest@[0] == updates[u_cursor as int]);
                    assert forall|j: int, i: int|
                        0 <= j < u_cursor + step && s_cursor <= i < slen && first_at(
                            source@,
                            i,
                        ) implies updates[j].0 < source[i] by {
                        if j >= u_cursor {
                            assert(p(rest@[j - u_cursor]));
                        }
                    }
                }
                u_cursor += step;
            }
        }
        proof {
            assert forall|i: int| 0 <= i < slen implies #[trigger] counts[i] == wrap(
                old(counts)[i] + matched(source@, updates@, i),
            ) by {
                if i >= s_cursor {
                    if first_at(source@, i) {
                        lemma_run_weight(updates@, source[i]);
                    }
                    lemma_wrap_fits(old(counts)[i] as int);
                }
            }
        }
    }

    /// Accumulates into `temp` the weight of each value in `values`.
    ///
    /// `values` ascends and `temp` starts as zeros, one for each value.
    /// Afterwards the count at the first element of each value is the
    /// accumulated weight of that value; at a repeated element it is zero.
    pub fn intersect(&self, values: &[u32], temp: &mut Vec<i32>)
        requires
            self.wf(),
            ascending(values@),
            old(temp).len() == values.len(),
            forall|i: int| 0 <= i < old(temp).len() ==> old(temp)[i] == 0,
        ensures
            final(temp).len() == values.len(),
            forall|i: int|
                0 <= i < values.len() ==> #[trigger] final(temp)[i] == (if first_at(values@, i) {
                    self.net(values[i])
                } else {
                    0
                }),
    {
        let len = self.values.len();
        let mut end = len;
        let mut k = self.bounds.len();
        proof {
            assert forall|i: int| 0 <= i < values.len() implies #[trigger] temp[i] == wrap(
                matched(values@, self.values@.subrange(end as int, len as int), i),
            ) by {
                lemma_sum_by_zero(
                    self.values@.subrange(end as int, len as int),
                    diff_at(values[i]),
                );
            }
        }
        // for each bound, process the subsequent sorted run.
        while k > 0
            invariant
                self.wf(),
                ascending(values@),
                len == self.values.len(),
                k <= self.bounds.len(),
                end == run_end(self.bounds@, k as int, len as int),
                end <= len,
                temp.len() == values.len(),
                forall|i: int|
                    0 <= i < values.len() ==> #[trigger] temp[i] == wrap(
                        matched(values@, self.values@.subrange(end as int, len as int), i),
                    ),
            decreases k,
        {
            let start = self.bounds[k - 1];
            let ghost before = temp@;
            proof {
                assert(run_at(self.values@, self.bounds@, k as int, len as int)
                    == self.values@.subrange(start as int, end as int));
                assert(self.bounds@[k - 1] <= len);
                if k < self.bounds.len() {
                    assert(self.bounds@[k - 1] < self.bounds@[k as int]);
                }
            }
            EdgeList::intersect_helper(values, &self.values[start..end], temp);
            proof {
                assert forall|i: int| 0 <= i < values.len() implies #[trigger] temp[i] == wrap(
                    matched(values@, self.values@.subrange(start as int, len as int), i),
                ) by {
                    lemma_matched_split(values@, self.values@, start as int, end as int, i);
                    lemma_wrap_add(
                        matched(values@, self.values@.subrange(end as int, len as int), i),
                        matched(values@, self.values@.subrange(start as int, end as int), i),
                    );
                    assert(before[i] == wrap(
                        matched(values@, self.values@.subrange(end as int, len as int), i),
                    ));
                }
            }
            end = start;
            k -= 1;
        }
        let ghost before = temp@;
        proof {
            assert(run_at(self.values@, self.bounds@, 0, len as int) == self.values@.subrange(
                0,
                end as int,
            ));
        }
        // process the first run, with no leading bound.
        EdgeList::intersect_helper(values, &self.values[0..end], temp);
        proof {
            assert(self.values@.subrange(0, len as int) =~= self.values@);
            assert forall|i: int| 0 <= i < values.len() implies #[trigger] temp[i] == (
            if first_at(values@, i) {
                self.net(values[i])
            } else {
                0
            }) by {
                lemma_matched_split(values@, self.values@, 0, end as int, i);
                lemma_wrap_add(
                    matched(values@, self.values@.subrange(end as int, len as int), i),
                    matched(values@, self.values@.subrange(0, end as int), i),
                );
                assert(before[i] == wrap(
                    matched(values@, self.values@.subrange(end as int, len as int), i),
                ));
            }
        }
    }
}

} // verus!
