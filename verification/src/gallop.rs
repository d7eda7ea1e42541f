//! Galloping search: an exponential probe followed by a binary descent.

use vstd::prelude::*;

verus! {

/// The predicate `p` tells what `f` returns: whenever `f` returns on `x`, it
/// returns `p(x)`.
pub open spec fn computes<T, F: Fn(&T) -> bool>(f: F, p: spec_fn(T) -> bool) -> bool {
    forall|x: T, b: bool| #[trigger] call_ensures(f, (&x,), b) ==> b == p(x)
}

/// `p` is true on a prefix of `s[lo..hi]` and false on the rest.
pub open spec fn monotone<T>(p: spec_fn(T) -> bool, s: Seq<T>, lo: int, hi: int) -> bool {
    forall|i: int, j: int| lo <= i <= j < hi && #[trigger] p(s[j]) ==> #[trigger] p(s[i])
}

/// `r` parts `s[lo..hi]` into the positions at which `p` is true and those
/// at which it is false.
pub open spec fn parts<T>(p: spec_fn(T) -> bool, s: Seq<T>, lo: int, hi: int, r: int) -> bool {
    &&& forall|i: int| lo <= i < r ==> #[trigger] p(s[i])
    &&& forall|i: int| r <= i < hi ==> !#[trigger] p(s[i])
}

/// A power of two.
pub open spec fn is_pow2(n: int) -> bool
    decreases n,
{
    n == 1 || (n > 1 && n % 2 == 0 && is_pow2(n / 2))
}

/// Returns the first index in `lo..hi` at which `f` is false, or `hi` if it
/// is true on the whole range, for an `f` that is true on a prefix of the
/// range and false on the rest. With `lo >= hi` the range is empty and `lo`
/// comes back.
///
/// The search doubles its step while `f` holds, then halves it again, so it
/// calls `f` a number of times logarithmic in the distance it travels.
pub fn gallop<T, F: Fn(&T) -> bool>(slice: &[T], lo: usize, hi: usize, f: F) -> (r: usize)
    requires
        lo < hi ==> hi <= slice@.len(),
        forall|i: int| lo <= i < hi ==> call_requires(f, (&#[trigger] slice@[i],)),
    ensures
        lo >= hi ==> r == lo,
        lo <= r,
        lo < hi ==> r <= hi,
        forall|p: spec_fn(T) -> bool| #[trigger]
            computes(f, p) && monotone(p, slice@, lo as int, hi as int) ==> parts(
                p,
                slice@,
                lo as int,
                hi as int,
                r as int,
            ),
{
    let ghost lo0 = lo as int;
    let ghost fence = lo as int;
    let mut lo = lo;
    if lo < hi && f(&slice[lo]) {
        let mut step: usize = 1;
        while step < hi - lo && f(&slice[lo + step])
            invariant
                0 <= lo0 <= lo < hi <= slice@.len(),
                lo == lo0 + step - 1,
                is_pow2(step as int),
                forall|i: int| lo0 <= i < hi ==> call_requires(f, (&#[trigger] slice@[i],)),
                call_ensures(f, (&slice@[lo as int],), true),
            decreases hi - lo,
        {
            lo = lo + step;
            step = step * 2;
        }
        proof {
            fence = lo + step;
        }
        step = step / 2;
        while step > 0
            invariant
                0 <= lo0 <= lo < hi <= slice@.len(),
                step == 0 || is_pow2(step as int),
                forall|i: int| lo0 <= i < hi ==> call_requires(f, (&#[trigger] slice@[i],)),
                call_ensures(f, (&slice@[lo as int],), true),
                lo0 <= fence <= lo + (if step > 0 { 2 * step } else { 1 }),
                fence >= hi || call_ensures(f, (&slice@[fence],), false),
            decreases step,
        {
            assert(step == 1 || (step % 2 == 0 && is_pow2(step as int / 2)));
            if step < hi - lo && f(&slice[lo + step]) {
                lo = lo + step;
            } else {
                proof {
                    fence = lo + step;
                }
            }
            step = step / 2;
        }
        lo += 1;
    }
    assert forall|p: spec_fn(T) -> bool| #[trigger]
        computes(f, p) && monotone(p, slice@, lo0, hi as int) implies parts(
        p,
        slice@,
        lo0,
        hi as int,
        lo as int,
    ) by {
        if lo0 < hi {
            if lo > lo0 {
                assert(p(slice@[lo - 1]));
            }
            if fence < hi {
                assert(!p(slice@[fence]));
            }
        }
    }
    lo
}

} // verus!
