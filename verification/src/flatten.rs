//! Sequences of sequences laid end to end.

use vstd::prelude::*;
use vstd::seq_lib::*;
use crate::extender::selects;

verus! {

/// What `f` makes of each element of `s`, laid end to end.
pub open spec fn flat_map<A, B>(s: Seq<A>, f: spec_fn(A) -> Seq<B>) -> Seq<B>
    decreases s.len(),
{
    if s.len() == 0 {
        Seq::empty()
    } else {
        flat_map(s.drop_last(), f) + f(s.last())
    }
}

pub proof fn lemma_flat_map_push<A, B>(s: Seq<A>, x: A, f: spec_fn(A) -> Seq<B>)
    ensures
        flat_map(s.push(x), f) == flat_map(s, f) + f(x),
{
    assert(s.push(x).drop_last() =~= s);
}

pub proof fn lemma_flat_map_concat<A, B>(a: Seq<A>, b: Seq<A>, f: spec_fn(A) -> Seq<B>)
    ensures
        flat_map(a + b, f) == flat_map(a, f) + flat_map(b, f),
    decreases b.len(),
{
    if b.len() == 0 {
        assert(a + b =~= a);
        assert(flat_map(a, f) + flat_map(b, f) =~= flat_map(a, f));
    } else {
        lemma_flat_map_concat(a, b.drop_last(), f);
        assert((a + b).drop_last() =~= a + b.drop_last());
        assert(flat_map(a + b, f) =~= flat_map(a, f) + flat_map(b, f));
    }
}

/// Functions that agree on the elements make the same of them.
pub proof fn lemma_flat_map_agree<A, B>(s: Seq<A>, f: spec_fn(A) -> Seq<B>, g: spec_fn(A) -> Seq<B>)
    requires
        forall|i: int| 0 <= i < s.len() ==> f(#[trigger] s[i]) == g(s[i]),
    ensures
        flat_map(s, f) == flat_map(s, g),
    decreases s.len(),
{
    if s.len() > 0 {
        lemma_flat_map_agree(s.drop_last(), f, g);
    }
}

/// Sequences whose elements give the same, one by one, give the same.
pub proof fn lemma_flat_map_alike<A, B, C>(
    a: Seq<A>,
    f: spec_fn(A) -> Seq<B>,
    c: Seq<C>,
    g: spec_fn(C) -> Seq<B>,
)
    requires
        a.len() == c.len(),
        forall|i: int| 0 <= i < a.len() ==> f(#[trigger] a[i]) == g(c[i]),
    ensures
        flat_map(a, f) == flat_map(c, g),
    decreases a.len(),
{
    if a.len() > 0 {
        assert(f(a[a.len() - 1]) == g(c[a.len() - 1]));
        assert forall|i: int| 0 <= i < a.drop_last().len() implies f(#[trigger] a.drop_last()[i])
            == g(c.drop_last()[i]) by {
            assert(f(a[i]) == g(c[i]));
        }
        lemma_flat_map_alike(a.drop_last(), f, c.drop_last(), g);
    }
}

/// Where `f` makes nothing of any element, nothing comes of all.
pub proof fn lemma_flat_map_nothing<A, B>(s: Seq<A>, f: spec_fn(A) -> Seq<B>)
    requires
        forall|i: int| 0 <= i < s.len() ==> f(#[trigger] s[i]).len() == 0,
    ensures
        flat_map(s, f).len() == 0,
    decreases s.len(),
{
    if s.len() > 0 {
        assert(f(s[s.len() - 1]).len() == 0);
        assert forall|i: int| 0 <= i < s.drop_last().len() implies f(
            #[trigger] s.drop_last()[i],
        ).len() == 0 by {
            assert(f(s[i]).len() == 0);
        }
        lemma_flat_map_nothing(s.drop_last(), f);
    }
}

/// What comes of all holds what comes of one of them, and nothing else.
pub proof fn lemma_flat_map_contains<A, B>(s: Seq<A>, f: spec_fn(A) -> Seq<B>, y: B)
    ensures
        flat_map(s, f).contains(y) <==> exists|i: int|
            0 <= i < s.len() && #[trigger] f(s[i]).contains(y),
    decreases s.len(),
{
    if s.len() > 0 {
        let rest = s.drop_last();
        let all = flat_map(s, f);
        let head = flat_map(rest, f);
        let tail = f(s.last());
        lemma_flat_map_contains(rest, f, y);
        if all.contains(y) {
            let at = choose|j: int| 0 <= j < all.len() && all[j] == y;
            if at < head.len() {
                assert(head[at] == y);
                assert(head.contains(y));
                let i = choose|i: int| 0 <= i < rest.len() && #[trigger] f(rest[i]).contains(y);
                assert(f(s[i]).contains(y));
            } else {
                assert(tail[at - head.len()] == y);
                assert(f(s[s.len() - 1]).contains(y));
            }
        }
        if exists|i: int| 0 <= i < s.len() && #[trigger] f(s[i]).contains(y) {
            let i = choose|i: int| 0 <= i < s.len() && #[trigger] f(s[i]).contains(y);
            if i < rest.len() {
                assert(f(rest[i]).contains(y));
                let at = choose|j: int| 0 <= j < head.len() && head[j] == y;
                assert(all[at] == y);
            } else {
                let at = choose|j: int| 0 <= j < tail.len() && tail[j] == y;
                assert(all[head.len() + at] == y);
            }
        }
    }
}

/// Taking one element out takes out what `f` makes of it.
pub proof fn lemma_flat_map_remove<A, B>(s: Seq<A>, at: int, f: spec_fn(A) -> Seq<B>)
    requires
        0 <= at < s.len(),
    ensures
        flat_map(s, f).to_multiset() == flat_map(s.remove(at), f).to_multiset().add(
            f(s[at]).to_multiset(),
        ),
{
    let head = s.subrange(0, at);
    let tail = s.subrange(at + 1, s.len() as int);
    assert(s =~= head.push(s[at]) + tail);
    assert(s.remove(at) =~= head + tail);
    lemma_flat_map_concat(head.push(s[at]), tail, f);
    lemma_flat_map_concat(head, tail, f);
    lemma_flat_map_push(head, s[at], f);
    let a = flat_map(head, f);
    let b = f(s[at]);
    let c = flat_map(tail, f);
    lemma_multiset_commutative(a + b, c);
    lemma_multiset_commutative(a, b);
    lemma_multiset_commutative(a, c);
    assert((a + b + c).to_multiset() =~= (a + c).to_multiset().add(b.to_multiset()));
}

/// Sequences with the same elements give the same, but for the order.
pub proof fn lemma_flat_map_rearranged<A, B>(a: Seq<A>, b: Seq<A>, f: spec_fn(A) -> Seq<B>)
    requires
        a.to_multiset() == b.to_multiset(),
    ensures
        flat_map(a, f).to_multiset() == flat_map(b, f).to_multiset(),
    decreases a.len(),
{
    broadcast use group_to_multiset_ensures;

    if a.len() == 0 {
        assert(b.to_multiset().len() == 0);
        assert(flat_map(a, f) =~= flat_map(b, f));
    } else {
        let x = a.last();
        assert(a.to_multiset().count(x) > 0);
        assert(b.contains(x));
        let j = b.index_of(x);
        assert(a.drop_last() =~= a.remove(a.len() - 1));
        to_multiset_remove(a, a.len() - 1);
        to_multiset_remove(b, j);
        lemma_flat_map_rearranged(a.drop_last(), b.remove(j), f);
        lemma_flat_map_remove(b, j, f);
        lemma_multiset_commutative(flat_map(a.drop_last(), f), f(x));
    }
}

/// The elements of `all` at the positions that `origin` names.
pub open spec fn picked<A>(all: Seq<A>, origin: Seq<int>) -> Seq<A> {
    Seq::new(origin.len(), |j: int| all[origin[j]])
}

/// Where `f` makes nothing of the elements that are left out, the chosen
/// elements give the same as all, but for the order.
pub proof fn lemma_flat_map_picked<A, B>(all: Seq<A>, origin: Seq<int>, f: spec_fn(A) -> Seq<B>)
    requires
        selects(origin, all.len() as int),
        forall|i: int| 0 <= i < all.len() && !origin.contains(i) ==> f(#[trigger] all[i]).len() == 0,
    ensures
        flat_map(picked(all, origin), f).to_multiset() == flat_map(all, f).to_multiset(),
    decreases all.len(),
{
    if all.len() == 0 {
        assert(origin.len() == 0) by {
            if origin.len() > 0 {
                let first = origin[0];
                assert(0 <= first < all.len());
            }
        }
        assert(picked(all, origin) =~= all);
    } else {
        let last = all.len() - 1;
        let rest = all.drop_last();
        if origin.contains(last) {
            let at = choose|j: int| 0 <= j < origin.len() && origin[j] == last;
            let fewer = origin.remove(at);
            assert forall|j: int| 0 <= j < fewer.len() implies 0 <= #[trigger] fewer[j] < last by {
                if j < at {
                    assert(fewer[j] == origin[j]);
                    assert(origin[j] != origin[at]);
                } else {
                    assert(fewer[j] == origin[j + 1]);
                    assert(origin[at] != origin[j + 1]);
                }
            }
            assert forall|i: int, j: int| 0 <= i < j < fewer.len() implies #[trigger] fewer[i]
                != #[trigger] fewer[j] by {
                let a = if i < at { i } else { i + 1 };
                let b = if j < at { j } else { j + 1 };
                assert(fewer[i] == origin[a] && fewer[j] == origin[b]);
                assert(origin[a] != origin[b]);
            }
            assert forall|i: int| 0 <= i < rest.len() && !fewer.contains(i) implies f(
                #[trigger] rest[i],
            ).len() == 0 by {
                if origin.contains(i) {
                    let j = choose|j: int| 0 <= j < origin.len() && origin[j] == i;
                    assert(j != at);
                    if j < at {
                        assert(fewer[j] == i);
                    } else {
                        assert(fewer[j - 1] == i);
                    }
                }
                assert(rest[i] == all[i]);
            }
            lemma_flat_map_picked(rest, fewer, f);
            assert(picked(all, origin).remove(at) =~= picked(rest, fewer));
            lemma_flat_map_remove(picked(all, origin), at, f);
            lemma_multiset_commutative(flat_map(rest, f), f(all[last]));
        } else {
            assert forall|j: int| 0 <= j < origin.len() implies 0 <= #[trigger] origin[j] < last by {
                assert(origin.contains(origin[j]));
            }
            assert forall|i: int| 0 <= i < rest.len() && !origin.contains(i) implies f(
                #[trigger] rest[i],
            ).len() == 0 by {
                assert(rest[i] == all[i]);
            }
            lemma_flat_map_picked(rest, origin, f);
            assert(picked(all, origin) =~= picked(rest, origin));
            assert(f(all[last]).len() == 0);
            assert(flat_map(all, f) =~= flat_map(rest, f));
        }
    }
}

/// What comes of all holds nothing twice, where what comes of each holds
/// nothing twice and no two of them give the same.
pub proof fn lemma_flat_map_distinct<A, B>(s: Seq<A>, f: spec_fn(A) -> Seq<B>)
    requires
        forall|i: int| 0 <= i < s.len() ==> (#[trigger] f(s[i])).no_duplicates(),
        forall|i: int, j: int, y: B|
            0 <= i < j < s.len() && #[trigger] f(s[i]).contains(y) ==> !#[trigger] f(s[j]).contains(
                y,
            ),
    ensures
        flat_map(s, f).no_duplicates(),
    decreases s.len(),
{
    if s.len() > 0 {
        let rest = s.drop_last();
        let head = flat_map(rest, f);
        let tail = f(s.last());
        assert forall|i: int| 0 <= i < rest.len() implies (#[trigger] f(rest[i])).no_duplicates() by {
            assert(rest[i] == s[i]);
        }
        assert forall|i: int, j: int, y: B|
            0 <= i < j < rest.len() && #[trigger] f(rest[i]).contains(y) implies !#[trigger] f(
            rest[j],
        ).contains(y) by {
            assert(rest[i] == s[i] && rest[j] == s[j]);
        }
        lemma_flat_map_distinct(rest, f);
        assert(tail == f(s[s.len() - 1]));
        assert forall|a: int, b: int| 0 <= a < head.len() && 0 <= b < tail.len() implies head[a]
            != tail[b] by {
            if head[a] == tail[b] {
                let y = head[a];
                assert(head.contains(y));
                lemma_flat_map_contains(rest, f, y);
                let i = choose|i: int| 0 <= i < rest.len() && #[trigger] f(rest[i]).contains(y);
                assert(rest[i] == s[i]);
                assert(f(s[i]).contains(y));
                assert(tail.contains(y));
                assert(f(s[s.len() - 1]).contains(y));
            }
        }
        lemma_no_dup_in_concat(head, tail);
    }
}

} // verus!
