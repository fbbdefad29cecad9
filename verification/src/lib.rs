//! Incremental worst-case optimal joins over a changing edge relation.
//!
//! The crate maintains, for a binary relation of `(src, dst)` edges that
//! receives signed updates, the multiversion index that a generic join needs:
//! for a key and a query time it counts, proposes and intersects the values
//! that extend a prefix. On top of the index stand the per-prefix choice of
//! the cheapest extender and the planner that turns a motif into extension
//! stages.
//!
//! Every function here carries a contract over mathematical models (sums of
//! signed weights, sorted sequences, rearrangements) and is proved against it.

use vstd::prelude::*;

pub use crate::join::extend;

pub mod delta;
pub mod exact;
pub mod extender;
pub mod flatten;
pub mod graph;
pub mod index;
pub mod join;
pub mod laws;
pub mod mirror;
pub mod motif;
pub mod naive;
pub mod order;
pub mod weights;

verus! {

/// `f` computes `p` on the elements of `s`: whatever it answers on one of them
/// is what `p` says of it.
pub open spec fn computes<T, F: Fn(&T) -> bool>(f: F, p: spec_fn(T) -> bool, s: Seq<T>) -> bool {
    forall|i: int, b: bool|
        0 <= i < s.len() && #[trigger] call_ensures(f, (&s[i],), b) ==> b == p(s[i])
}

/// `p` stays false along `s` once it has become false.
pub open spec fn stays_false<T>(p: spec_fn(T) -> bool, s: Seq<T>) -> bool {
    forall|i: int, j: int| 0 <= i <= j < s.len() && p(#[trigger] s[j]) ==> p(#[trigger] s[i])
}

/// `p` holds on the first `count` elements of `s` and on none after them.
pub open spec fn splits_at<T>(p: spec_fn(T) -> bool, s: Seq<T>, count: int) -> bool {
    &&& 0 <= count <= s.len()
    &&& forall|i: int| 0 <= i < count ==> p(#[trigger] s[i])
    &&& forall|i: int| count <= i < s.len() ==> !p(#[trigger] s[i])
}

/// What `advance` is to find of `p`: where `function` computes `p` and `p`
/// stays false once false, `count` splits the slice by `p`.
pub open spec fn advanced<T, F: Fn(&T) -> bool>(
    function: F,
    p: spec_fn(T) -> bool,
    s: Seq<T>,
    count: int,
) -> bool {
    computes(function, p, s) && stays_false(p, s) ==> splits_at(p, s, count)
}

/// A power of two.
pub open spec fn is_pow2(n: int) -> bool
    decreases n,
{
    n == 1 || (n >= 2 && n % 2 == 0 && is_pow2(n / 2))
}

/// What the search knows between two probes: the element at `index`
/// satisfies `p`, and none from `index + span` on does.
pub open spec fn bracketed<T, F: Fn(&T) -> bool>(
    function: F,
    p: spec_fn(T) -> bool,
    s: Seq<T>,
    index: int,
    span: int,
) -> bool {
    computes(function, p, s) && stays_false(p, s) ==> {
        &&& p(s[index])
        &&& forall|j: int| index + span <= j < s.len() ==> !p(#[trigger] s[j])
    }
}

/// Reports the number of leading elements that satisfy the predicate.
///
/// The predicate must stay false once it becomes false along the slice. The
/// count is then found by exponential search, in time logarithmic in the
/// result, and it splits the slice: the predicate holds on every element
/// before it and on none from it on. The contract says so of every
/// predicate `p` that `function` computes.
pub fn advance<T, F: Fn(&T) -> bool>(slice: &[T], function: F) -> (count: usize)
    requires
        forall|i: int| 0 <= i < slice.len() ==> call_requires(function, (&#[trigger] slice[i],)),
    ensures
        count <= slice.len(),
        forall|p: spec_fn(T) -> bool| #[trigger] advanced(function, p, slice@, count as int),
{
    let len = slice.len();
    let mut index: usize = 0;
    if index < len && function(&slice[index]) {
        // advance in exponentially growing steps.
        let mut step: usize = 1;
        while step < len - index && function(&slice[index + step])
            invariant
                len == slice.len(),
                forall|i: int|
                    0 <= i < slice.len() ==> call_requires(function, (&#[trigger] slice[i],)),
                index < len,
                call_ensures(function, (&slice[index as int],), true),
                1 <= step <= index + 1,
                is_pow2(step as int),
            decreases len - index,
        {
            index += step;
            step = step * 2;
        }
        assert forall|p: spec_fn(T) -> bool| #[trigger]
            bracketed(function, p, slice@, index as int, step as int) by {
            if computes(function, p, slice@) && stays_false(p, slice@) {
                assert forall|j: int| index + step <= j < len implies !p(#[trigger] slice[j]) by {
                    assert(call_ensures(function, (&slice[index + step],), false));
                    if p(slice[j]) {
                        assert(p(slice[index + step]));
                    }
                }
            }
        }

        // advance in exponentially shrinking steps.
        let ghost mut span: int = step as int;
        step = step / 2;
        while step > 0
            invariant
                len == slice.len(),
                forall|i: int|
                    0 <= i < slice.len() ==> call_requires(function, (&#[trigger] slice[i],)),
                index < len,
                step == 0 || is_pow2(step as int),
                span == (if step == 0 { 1 } else { 2 * step as int }),
                forall|p: spec_fn(T) -> bool| #[trigger]
                    bracketed(function, p, slice@, index as int, span),
            decreases step,
        {
            let ghost before: int = index as int;
            let ghost probed: bool = false;
            if step < len - index {
                let answer = function(&slice[index + step]);
                proof {
                    probed = true;
                }
                if answer {
                    index += step;
                }
            }
            assert forall|p: spec_fn(T) -> bool| #[trigger]
                bracketed(function, p, slice@, index as int, step as int) by {
                assert(bracketed(function, p, slice@, before, span));
                if computes(function, p, slice@) && stays_false(p, slice@) {
                    if index == before {
                        assert forall|j: int| before + step <= j < len implies !p(
                            #[trigger] slice[j],
                        ) by {
                            if p(slice[j]) {
                                assert(p(slice[before + step]));
                            }
                        }
                    }
                }
            }
            proof {
                span = step as int;
            }
            step = step / 2;
        }

        index += 1;
        assert forall|p: spec_fn(T) -> bool| #[trigger]
            advanced(function, p, slice@, index as int) by {
            assert(bracketed(function, p, slice@, index - 1, 1));
            if computes(function, p, slice@) && stays_false(p, slice@) {
                assert forall|i: int| 0 <= i < index implies p(#[trigger] slice[i]) by {
                    assert(p(slice[index - 1]));
                }
            }
        }
    } else {
        assert forall|p: spec_fn(T) -> bool| #[trigger] advanced(function, p, slice@, 0) by {
            if computes(function, p, slice@) && stays_false(p, slice@) {
                assert forall|i: int| 0 <= i < len implies !p(#[trigger] slice[i]) by {
                    assert(call_ensures(function, (&slice[0],), false));
                    if p(slice[i]) {
                        assert(p(slice[0]));
                    }
                }
            }
        }
    }
    index
}

} // verus!
