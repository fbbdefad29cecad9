//! Sums of signed weights, and what remains of them in 32 bits.
//!
//! Weights are accumulated with wrapping additions. The model keeps the sums
//! as mathematical integers and states every observable weight as the sum
//! wrapped into `i32`: wrapping commutes with addition, so the order in which
//! the parts were added does not show.

use vstd::prelude::*;
use vstd::arithmetic::div_mod::{lemma_fundamental_div_mod, lemma_mod_multiples_vanish};
use vstd::seq_lib::*;

verus! {

/// The sum of `f` over the elements of `s`.
pub open spec fn sum_by<T>(s: Seq<T>, f: spec_fn(T) -> int) -> int
    decreases s.len(),
{
    if s.len() == 0 {
        0
    } else {
        sum_by(s.drop_last(), f) + f(s.last())
    }
}

/// The diff of an entry if it is about `v`, else nothing.
pub open spec fn diff_at(v: u32) -> spec_fn((u32, i32)) -> int {
    |e: (u32, i32)| if e.0 == v { e.1 as int } else { 0 }
}

/// The diff of an entry.
pub open spec fn diff_of() -> spec_fn((u32, i32)) -> int {
    |e: (u32, i32)| e.1 as int
}

/// One for `v`, nothing for another value.
pub open spec fn one_at(v: u32) -> spec_fn(u32) -> int {
    |x: u32| if x == v { 1int } else { 0 }
}

/// The sum of the diffs that `s` holds for `v`.
pub open spec fn weight_of(s: Seq<(u32, i32)>, v: u32) -> int {
    sum_by(s, diff_at(v))
}

/// The sum of all diffs in `s`.
pub open spec fn total_of(s: Seq<(u32, i32)>) -> int {
    sum_by(s, diff_of())
}

/// How often `v` occurs in `s`.
pub open spec fn occurrences(s: Seq<u32>, v: u32) -> int {
    sum_by(s, one_at(v))
}

/// The value of `x` in 32-bit two's complement.
pub open spec fn wrap(x: int) -> i32 {
    let r = x % 0x1_0000_0000;
    if r > i32::MAX {
        (r - 0x1_0000_0000) as i32
    } else {
        r as i32
    }
}

/// The value of `x` as an unsigned 64-bit number.
pub open spec fn wrap64(x: int) -> u64 {
    (x % 0x1_0000_0000_0000_0000) as u64
}

pub proof fn lemma_wrap_fits(x: int)
    requires
        i32::MIN <= x <= i32::MAX,
    ensures
        wrap(x) == x,
{
}

/// A multiple of 2^32 does not show in the wrapped value.
pub proof fn lemma_wrap_shift(x: int, k: int)
    ensures
        wrap(x + k * 0x1_0000_0000) == wrap(x),
{
    lemma_mod_multiples_vanish(k, x, 0x1_0000_0000);
    assert(0x1_0000_0000 * k + x == x + k * 0x1_0000_0000);
}

/// The wrapped value differs from `x` by a multiple of 2^32.
pub proof fn lemma_wrap_offset(x: int) -> (k: int)
    ensures
        wrap(x) == x - k * 0x1_0000_0000,
{
    lemma_fundamental_div_mod(x, 0x1_0000_0000);
    let q = x / 0x1_0000_0000;
    if x % 0x1_0000_0000 > i32::MAX {
        assert((q + 1) * 0x1_0000_0000 == q * 0x1_0000_0000 + 0x1_0000_0000);
        q + 1
    } else {
        q
    }
}

/// Wrapping a part before adding changes nothing of the wrapped sum.
pub proof fn lemma_wrap_add(a: int, b: int)
    ensures
        wrap(wrap(a) + b) == wrap(a + b),
        wrap(a + wrap(b)) == wrap(a + b),
        wrap(wrap(a) + wrap(b)) == wrap(a + b),
{
    let ka = lemma_wrap_offset(a);
    let kb = lemma_wrap_offset(b);
    lemma_wrap_shift(a + b, -ka);
    lemma_wrap_shift(a + b, -kb);
    lemma_wrap_shift(a + b, -ka - kb);
    assert(wrap(a) + b == a + b + (-ka) * 0x1_0000_0000);
    assert(a + wrap(b) == a + b + (-kb) * 0x1_0000_0000);
    assert(wrap(a) + wrap(b) == a + b + (-ka - kb) * 0x1_0000_0000) by {
        assert((-ka - kb) * 0x1_0000_0000 == (-ka) * 0x1_0000_0000 + (-kb) * 0x1_0000_0000);
    }
}

/// Sums that wrap to the same weight still do after the same addition.
pub proof fn lemma_wrap_congruent(a: int, b: int, c: int)
    requires
        wrap(a) == wrap(b),
    ensures
        wrap(a + c) == wrap(b + c),
{
    lemma_wrap_add(a, c);
    lemma_wrap_add(b, c);
}

/// `wrapping_add` on `i32` is the wrapped sum.
pub proof fn lemma_wrapping_add(a: i32, b: i32)
    ensures
        a.wrapping_add(b) == wrap(a + b),
{
    if a + b > i32::MAX {
        lemma_wrap_shift(a + b - 0x1_0000_0000, 1);
        lemma_wrap_fits(a + b - 0x1_0000_0000);
    } else if a + b < i32::MIN {
        lemma_wrap_shift(a + b + 0x1_0000_0000, -1);
        lemma_wrap_fits(a + b + 0x1_0000_0000);
    } else {
        lemma_wrap_fits(a + b);
    }
}

/// A multiple of 2^64 does not show in the unsigned value.
pub proof fn lemma_wrap64_shift(x: int, k: int)
    ensures
        wrap64(x + k * 0x1_0000_0000_0000_0000) == wrap64(x),
{
    lemma_mod_multiples_vanish(k, x, 0x1_0000_0000_0000_0000);
    assert(0x1_0000_0000_0000_0000 * k + x == x + k * 0x1_0000_0000_0000_0000);
}

pub proof fn lemma_wrap64_fits(x: int)
    requires
        0 <= x <= u64::MAX,
    ensures
        wrap64(x) == x,
{
}

pub proof fn lemma_sum_by_push<T>(s: Seq<T>, x: T, f: spec_fn(T) -> int)
    ensures
        sum_by(s.push(x), f) == sum_by(s, f) + f(x),
{
    assert(s.push(x).drop_last() =~= s);
}

pub proof fn lemma_sum_by_concat<T>(a: Seq<T>, b: Seq<T>, f: spec_fn(T) -> int)
    ensures
        sum_by(a + b, f) == sum_by(a, f) + sum_by(b, f),
    decreases b.len(),
{
    if b.len() == 0 {
        assert(a + b =~= a);
    } else {
        lemma_sum_by_concat(a, b.drop_last(), f);
        assert((a + b).drop_last() =~= a + b.drop_last());
    }
}

/// A sum splits at any position.
pub proof fn lemma_sum_by_split<T>(s: Seq<T>, at: int, f: spec_fn(T) -> int)
    requires
        0 <= at <= s.len(),
    ensures
        sum_by(s, f) == sum_by(s.subrange(0, at), f) + sum_by(s.subrange(at, s.len() as int), f),
{
    assert(s =~= s.subrange(0, at) + s.subrange(at, s.len() as int));
    lemma_sum_by_concat(s.subrange(0, at), s.subrange(at, s.len() as int), f);
}

/// Elements on which `f` is zero add nothing.
pub proof fn lemma_sum_by_zero<T>(s: Seq<T>, f: spec_fn(T) -> int)
    requires
        forall|i: int| 0 <= i < s.len() ==> f(#[trigger] s[i]) == 0,
    ensures
        sum_by(s, f) == 0,
    decreases s.len(),
{
    if s.len() > 0 {
        lemma_sum_by_zero(s.drop_last(), f);
    }
}

/// A sum is the sum over a block if `f` is zero outside it.
pub proof fn lemma_sum_by_block<T>(s: Seq<T>, from: int, to: int, f: spec_fn(T) -> int)
    requires
        0 <= from <= to <= s.len(),
        forall|i: int| 0 <= i < from ==> f(#[trigger] s[i]) == 0,
        forall|i: int| to <= i < s.len() ==> f(#[trigger] s[i]) == 0,
    ensures
        sum_by(s, f) == sum_by(s.subrange(from, to), f),
{
    let head = s.subrange(0, from);
    let rest = s.subrange(from, s.len() as int);
    let tail = s.subrange(to, s.len() as int);
    lemma_sum_by_split(s, from, f);
    lemma_sum_by_split(rest, to - from, f);
    assert(rest.subrange(0, to - from) =~= s.subrange(from, to));
    assert(rest.subrange(to - from, rest.len() as int) =~= tail);
    assert forall|i: int| 0 <= i < head.len() implies f(#[trigger] head[i]) == 0 by {
        assert(head[i] == s[i]);
    }
    assert forall|i: int| 0 <= i < tail.len() implies f(#[trigger] tail[i]) == 0 by {
        assert(tail[i] == s[to + i]);
    }
    lemma_sum_by_zero(head, f);
    lemma_sum_by_zero(tail, f);
}

/// Where `f` is one on every element, the sum is the length.
pub proof fn lemma_sum_by_ones<T>(s: Seq<T>, f: spec_fn(T) -> int)
    requires
        forall|i: int| 0 <= i < s.len() ==> f(#[trigger] s[i]) == 1,
    ensures
        sum_by(s, f) == s.len(),
    decreases s.len(),
{
    if s.len() > 0 {
        lemma_sum_by_ones(s.drop_last(), f);
    }
}

/// A sum of non-negative terms is non-negative.
pub proof fn lemma_sum_by_nonnegative<T>(s: Seq<T>, f: spec_fn(T) -> int)
    requires
        forall|i: int| 0 <= i < s.len() ==> f(#[trigger] s[i]) >= 0,
    ensures
        sum_by(s, f) >= 0,
    decreases s.len(),
{
    if s.len() > 0 {
        lemma_sum_by_nonnegative(s.drop_last(), f);
    }
}

/// A sum of terms that are no larger, one by one, is no larger.
pub proof fn lemma_sum_by_le<T>(s: Seq<T>, f: spec_fn(T) -> int, g: spec_fn(T) -> int)
    requires
        forall|i: int| 0 <= i < s.len() ==> f(#[trigger] s[i]) <= g(s[i]),
    ensures
        sum_by(s, f) <= sum_by(s, g),
    decreases s.len(),
{
    if s.len() > 0 {
        lemma_sum_by_le(s.drop_last(), f, g);
    }
}

/// Sums of functions that agree on the elements agree.
pub proof fn lemma_sum_by_agree<T>(s: Seq<T>, f: spec_fn(T) -> int, g: spec_fn(T) -> int)
    requires
        forall|i: int| 0 <= i < s.len() ==> f(#[trigger] s[i]) == g(s[i]),
    ensures
        sum_by(s, f) == sum_by(s, g),
    decreases s.len(),
{
    if s.len() > 0 {
        lemma_sum_by_agree(s.drop_last(), f, g);
    }
}

/// A sum does not depend on the order of the elements.
pub proof fn lemma_sum_by_rearranged<T>(a: Seq<T>, b: Seq<T>, f: spec_fn(T) -> int)
    requires
        a.to_multiset() == b.to_multiset(),
    ensures
        sum_by(a, f) == sum_by(b, f),
{
    let step = |acc: int, x: T| acc + f(x);
    lemma_sum_by_is_fold(a, f);
    lemma_sum_by_is_fold(b, f);
    assert(commutative_foldl(step));
    lemma_fold_left_permutation(a, b, step, 0int);
}

proof fn lemma_sum_by_is_fold<T>(s: Seq<T>, f: spec_fn(T) -> int)
    ensures
        sum_by(s, f) == s.fold_left(0int, |acc: int, x: T| acc + f(x)),
    decreases s.len(),
{
    if s.len() > 0 {
        lemma_sum_by_is_fold(s.drop_last(), f);
    }
}

/// A value occurs in `s` as often as never, once, or more: never negative,
/// and at least once exactly when `s` contains it.
pub proof fn lemma_occurrences(s: Seq<u32>, v: u32)
    ensures
        occurrences(s, v) >= 0,
        occurrences(s, v) > 0 <==> s.contains(v),
    decreases s.len(),
{
    if s.len() > 0 {
        lemma_occurrences(s.drop_last(), v);
        if s.drop_last().contains(v) {
            let i = choose|i: int| 0 <= i < s.drop_last().len() && s.drop_last()[i] == v;
            assert(s[i] == v);
        }
        if s.contains(v) && s.last() != v {
            let i = choose|i: int| 0 <= i < s.len() && s[i] == v;
            assert(s.drop_last()[i] == v);
        }
    }
}

/// The sum of `f` over the values below `upto`.
pub open spec fn sum_below(f: spec_fn(u32) -> int, upto: int) -> int
    decreases upto,
{
    if upto <= 0 {
        0
    } else {
        sum_below(f, upto - 1) + f((upto - 1) as u32)
    }
}

/// The part of `g` that falls to the elements of value `v`.
pub open spec fn part_of<T>(value: spec_fn(T) -> u32, g: spec_fn(T) -> int, v: u32) -> spec_fn(
    T,
) -> int {
    |x: T| if value(x) == v { g(x) } else { 0 }
}

/// The sum of `g` over the elements of `s` of value `v`, as a function of `v`.
pub open spec fn by_value<T>(s: Seq<T>, value: spec_fn(T) -> u32, g: spec_fn(T) -> int) -> spec_fn(
    u32,
) -> int {
    |v: u32| sum_by(s, part_of(value, g, v))
}

/// Sums of functions that agree below the bound agree.
pub proof fn lemma_sum_below_agree(f: spec_fn(u32) -> int, g: spec_fn(u32) -> int, upto: int)
    requires
        0 <= upto <= 0x1_0000_0000,
        forall|v: u32| v < upto ==> #[trigger] f(v) == g(v),
    ensures
        sum_below(f, upto) == sum_below(g, upto),
    decreases upto,
{
    if upto > 0 {
        lemma_sum_below_agree(f, g, upto - 1);
    }
}

/// A sum of smaller terms is smaller.
pub proof fn lemma_sum_below_le(f: spec_fn(u32) -> int, g: spec_fn(u32) -> int, upto: int)
    requires
        0 <= upto <= 0x1_0000_0000,
        forall|v: u32| v < upto ==> #[trigger] f(v) <= g(v),
    ensures
        sum_below(f, upto) <= sum_below(g, upto),
    decreases upto,
{
    if upto > 0 {
        lemma_sum_below_le(f, g, upto - 1);
    }
}

/// The sum of a sum is the sum of the sums.
pub proof fn lemma_sum_below_add(
    f: spec_fn(u32) -> int,
    g: spec_fn(u32) -> int,
    both: spec_fn(u32) -> int,
    upto: int,
)
    requires
        0 <= upto <= 0x1_0000_0000,
        forall|v: u32| v < upto ==> #[trigger] both(v) == f(v) + g(v),
    ensures
        sum_below(both, upto) == sum_below(f, upto) + sum_below(g, upto),
    decreases upto,
{
    if upto > 0 {
        lemma_sum_below_add(f, g, both, upto - 1);
    }
}

/// What one element adds to the sums over the values is what it adds.
proof fn lemma_sum_below_one<T>(x: T, value: spec_fn(T) -> u32, g: spec_fn(T) -> int, upto: int)
    requires
        0 <= upto <= 0x1_0000_0000,
    ensures
        sum_below(|v: u32| part_of(value, g, v)(x), upto) == if value(x) < upto {
            g(x)
        } else {
            0
        },
    decreases upto,
{
    if upto > 0 {
        lemma_sum_below_one(x, value, g, upto - 1);
    }
}

/// A sum over elements is the sum, over all values, of the sums over the
/// elements of each value.
pub proof fn lemma_sum_by_value<T>(s: Seq<T>, value: spec_fn(T) -> u32, g: spec_fn(T) -> int)
    ensures
        sum_by(s, g) == sum_below(by_value(s, value, g), 0x1_0000_0000),
    decreases s.len(),
{
    let all = by_value(s, value, g);
    if s.len() == 0 {
        lemma_sum_below_agree(all, |v: u32| 0int, 0x1_0000_0000);
        lemma_sum_below_zero(0x1_0000_0000);
    } else {
        let rest = s.drop_last();
        let x = s.last();
        lemma_sum_by_value(rest, value, g);
        lemma_sum_below_one(x, value, g, 0x1_0000_0000);
        lemma_sum_below_add(
            by_value(rest, value, g),
            |v: u32| part_of(value, g, v)(x),
            all,
            0x1_0000_0000,
        );
    }
}

/// A sum of zeros is zero.
pub proof fn lemma_sum_below_zero(upto: int)
    ensures
        sum_below(|v: u32| 0int, upto) == 0,
    decreases upto,
{
    if upto > 0 {
        lemma_sum_below_zero(upto - 1);
    }
}

} // verus!
