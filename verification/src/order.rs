//! Sorted sequences, rearrangements, and the one sort the crate relies on.

use vstd::prelude::*;
use vstd::seq_lib::*;
use crate::weights::{lemma_occurrences, occurrences};

verus! {

/// `s` ascends, equal neighbours allowed.
pub open spec fn ascending(s: Seq<u32>) -> bool {
    forall|i: int, j: int| 0 <= i <= j < s.len() ==> s[i] <= s[j]
}

/// `s` ascends and holds no value twice.
pub open spec fn strictly_ascending(s: Seq<u32>) -> bool {
    forall|i: int, j: int| 0 <= i < j < s.len() ==> s[i] < s[j]
}

/// The element at `i` is the first of its value in the ascending `s`.
pub open spec fn first_at(s: Seq<u32>, i: int) -> bool {
    i == 0 || s[i - 1] != s[i]
}

/// Ascending lists that hold every value equally often are equal.
pub proof fn lemma_same_occurrences(a: Seq<u32>, b: Seq<u32>)
    requires
        ascending(a),
        ascending(b),
        forall|v: u32| #[trigger] occurrences(a, v) == occurrences(b, v),
    ensures
        a == b,
    decreases a.len(),
{
    if a.len() == 0 {
        if b.len() > 0 {
            lemma_occurrences(b, b[0]);
            assert(b.contains(b[0]));
            assert(occurrences(a, b[0]) == occurrences(b, b[0]));
        }
        assert(a =~= b);
    } else {
        let m = a.last();
        lemma_occurrences(a, m);
        lemma_occurrences(b, m);
        assert(a.contains(m));
        assert(occurrences(a, m) == occurrences(b, m));
        let at = choose|i: int| 0 <= i < b.len() && b[i] == m;
        let n = b.last();
        lemma_occurrences(a, n);
        lemma_occurrences(b, n);
        assert(b.contains(n));
        assert(occurrences(a, n) == occurrences(b, n));
        let back = choose|i: int| 0 <= i < a.len() && a[i] == n;
        assert(a[back] <= a[a.len() - 1]);
        assert(b[at] <= b[b.len() - 1]);
        assert(m == n);
        assert forall|v: u32| #[trigger]
            occurrences(a.drop_last(), v) == occurrences(b.drop_last(), v) by {
            assert(occurrences(a, v) == occurrences(b, v));
        }
        assert forall|i: int, j: int| 0 <= i <= j < a.drop_last().len() implies a.drop_last()[i]
            <= a.drop_last()[j] by {
            assert(a[i] <= a[j]);
        }
        assert forall|i: int, j: int| 0 <= i <= j < b.drop_last().len() implies b.drop_last()[i]
            <= b.drop_last()[j] by {
            assert(b[i] <= b[j]);
        }
        lemma_same_occurrences(a.drop_last(), b.drop_last());
        assert(a =~= a.drop_last().push(m));
        assert(b =~= b.drop_last().push(n));
    }
}

/// An item that is ordered by a key.
pub trait Keyed {
    /// The key by which the item is ordered.
    spec fn key_spec(&self) -> u64;

    /// Computes the key.
    fn key(&self) -> (k: u64)
        ensures
            k == self.key_spec(),
    ;
}

/// A pair is ordered by its first part.
impl<R> Keyed for (u32, R) {
    open spec fn key_spec(&self) -> u64 {
        self.0 as u64
    }

    fn key(&self) -> (k: u64) {
        self.0 as u64
    }
}

/// A number is its own key.
impl Keyed for u64 {
    open spec fn key_spec(&self) -> u64 {
        *self
    }

    fn key(&self) -> (k: u64) {
        *self
    }
}

/// An update `(key, value, time, diff)` is ordered by its key, then its value.
impl Keyed for (u32, u32, u64, i32) {
    open spec fn key_spec(&self) -> u64 {
        (self.0 as u64 * 0x1_0000_0000 + self.1 as u64) as u64
    }

    fn key(&self) -> (k: u64) {
        self.0 as u64 * 0x1_0000_0000 + self.1 as u64
    }
}

/// The keys of `s` ascend, equal neighbours allowed.
pub open spec fn ascending_by<T: Keyed>(s: Seq<T>) -> bool {
    forall|i: int, j: int|
        0 <= i <= j < s.len() ==> (#[trigger] s[i]).key_spec() <= (#[trigger] s[j]).key_spec()
}

/// The items of `s` with key `k`, in their order.
pub open spec fn filed_under<T: Keyed>(s: Seq<T>, k: u64) -> Seq<T> {
    s.filter(|x: T| x.key_spec() == k)
}

/// Sequences with the same items hold the same items after each is mapped.
pub proof fn lemma_map_rearranged<A, B>(a: Seq<A>, b: Seq<A>, f: spec_fn(A) -> B)
    requires
        a.to_multiset() == b.to_multiset(),
    ensures
        a.map_values(f).to_multiset() == b.map_values(f).to_multiset(),
    decreases a.len(),
{
    broadcast use group_to_multiset_ensures;

    if a.len() == 0 {
        assert(b.to_multiset().len() == 0);
        assert(a.map_values(f) =~= b.map_values(f));
    } else {
        let x = a.last();
        assert(a.to_multiset().count(x) > 0);
        assert(b.contains(x));
        let j = b.index_of(x);
        let rest_a = a.drop_last();
        let rest_b = b.remove(j);
        assert(rest_a =~= a.remove(a.len() - 1));
        to_multiset_remove(a, a.len() - 1);
        to_multiset_remove(b, j);
        lemma_map_rearranged(rest_a, rest_b, f);
        assert(a.map_values(f) =~= rest_a.map_values(f).push(f(x)));
        assert(b.map_values(f) =~= rest_b.map_values(f).insert(j, f(x)));
        to_multiset_insert(rest_b.map_values(f), j, f(x));
    }
}

/// `to` holds the items of `from` in another order: its item at `i` is the
/// item of `from` at `perm[i]`, and `perm` names every position once.
pub open spec fn rearranges<T>(from: Seq<T>, to: Seq<T>, perm: Seq<int>) -> bool {
    &&& perm.len() == from.len()
    &&& to.len() == from.len()
    &&& forall|i: int| 0 <= i < perm.len() ==> 0 <= #[trigger] perm[i] < from.len()
    &&& forall|i: int, j: int|
        0 <= i < j < perm.len() ==> #[trigger] perm[i] != #[trigger] perm[j]
    &&& forall|i: int| 0 <= i < to.len() ==> #[trigger] to[i] == from[perm[i]]
}

/// Sequences with the same items, each as often, are rearrangements of each
/// other; the result names, for each position of `to`, one in `from`.
pub proof fn lemma_rearranged<T>(from: Seq<T>, to: Seq<T>) -> (perm: Seq<int>)
    requires
        from.to_multiset() == to.to_multiset(),
    ensures
        rearranges(from, to, perm),
    decreases from.len(),
{
    broadcast use group_to_multiset_ensures;

    if from.len() == 0 {
        assert(to.to_multiset().len() == 0);
        Seq::<int>::empty()
    } else {
        let n = from.len() as int;
        let x = from.last();
        assert(from.to_multiset().count(x) > 0);
        assert(to.contains(x));
        let j = to.index_of(x);
        let rest_from = from.drop_last();
        let rest_to = to.remove(j);
        assert(rest_from =~= from.remove(n - 1));
        assert(to.to_multiset().len() == to.len());
        assert(from.to_multiset().len() == from.len());
        let inner = lemma_rearranged(rest_from, rest_to);
        let perm = inner.insert(j, n - 1);
        assert forall|i: int| 0 <= i < to.len() implies #[trigger] to[i] == from[perm[i]] by {
            if i < j {
                assert(rest_to[i] == to[i]);
                assert(perm[i] == inner[i]);
            } else if i > j {
                assert(rest_to[i - 1] == to[i]);
                assert(perm[i] == inner[i - 1]);
            }
        }
        assert forall|a: int, b: int| 0 <= a < b < perm.len() implies #[trigger] perm[a]
            != #[trigger] perm[b] by {
            let ia = if a < j { a } else { a - 1 };
            let ib = if b < j { b } else { b - 1 };
            if a != j && b != j {
                assert(perm[a] == inner[ia]);
                assert(perm[b] == inner[ib]);
            } else if a == j {
                assert(perm[b] == inner[ib]);
            } else {
                assert(perm[a] == inner[ia]);
            }
        }
        assert forall|i: int| 0 <= i < perm.len() implies 0 <= #[trigger] perm[i] < from.len() by {
            if i < j {
                assert(perm[i] == inner[i]);
            } else if i > j {
                assert(perm[i] == inner[i - 1]);
            }
        }
        perm
    }
}

/// Sorts the items of `items` from position `from` on by their keys.
///
/// Calls `sort_by_key` of the standard library's slices on the tail. What is
/// taken from its documentation: the tail is sorted in ascending order of the
/// keys, it holds the same items as before, and the sort is stable, so the
/// items with one key keep their order. The items before `from` are not
/// touched.
#[verifier::external_body]
pub(crate) fn sort_from<T: Keyed>(items: &mut Vec<T>, from: usize)
    requires
        from <= old(items).len(),
    ensures
        final(items).len() == old(items).len(),
        final(items)@.subrange(0, from as int) == old(items)@.subrange(0, from as int),
        ascending_by(final(items)@.subrange(from as int, old(items).len() as int)),
        final(items)@.subrange(from as int, old(items).len() as int).to_multiset() == old(
            items,
        )@.subrange(from as int, old(items).len() as int).to_multiset(),
        forall|k: u64|
            filed_under(final(items)@.subrange(from as int, old(items).len() as int), k)
                == #[trigger] filed_under(
                old(items)@.subrange(from as int, old(items).len() as int),
                k,
            ),
{
    items[from..].sort_by_key(|x| x.key());
}

} // verus!
