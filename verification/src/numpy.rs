//! Index searches on slices: the place of the maximum, and the order that
//! sorts a slice.

use vstd::prelude::*;
use vstd::std_specs::cmp::PartialOrdIs;
use vstd::std_specs::cmp::PartialOrdSpec;
use crate::stone_group::lemma_bounded_set_len;

verus! {

/// The comparisons of `T` in compiled code are those of its specification.
pub open spec fn ordered<T: PartialOrd>() -> bool {
    T::obeys_partial_cmp_spec()
}

/// The index of the first greatest among the first `n` elements of `s`:
/// each element in turn replaces the best so far where it is greater.
pub open spec fn argmax_upto<T: PartialOrd>(s: Seq<T>, n: nat) -> int
    decreases n,
{
    if n <= 1 {
        0
    } else {
        let m = argmax_upto(s, (n - 1) as nat);
        if s[n - 1].is_gt(&s[m]) { n - 1 } else { m }
    }
}

/// `a` comes strictly before `b` in the wanted order.
pub open spec fn before<T: PartialOrd>(a: T, b: T, reverse: bool) -> bool {
    if reverse { a.is_gt(&b) } else { a.is_lt(&b) }
}

/// The elements at `x` and `y` may follow each other in this order: the
/// first comes strictly before the second, or neither comes before the
/// other and `x` is the smaller index.
pub open spec fn in_order<T: PartialOrd>(s: Seq<T>, x: int, y: int, reverse: bool) -> bool {
    before(s[x], s[y], reverse) || (!before(s[y], s[x], reverse) && x < y)
}

/// `r` holds each of the indices below `n` once.
pub open spec fn is_permutation(r: Seq<usize>, n: nat) -> bool {
    &&& r.len() == n
    &&& forall|i: int| 0 <= i < n ==> (#[trigger] r[i]) < n
    &&& forall|i: int, j: int| 0 <= i < j < n ==> r[i] != r[j]
}

/// The index of the greatest element of `array`, the first one among equals.
pub fn argmax<T: PartialOrd>(array: &[T]) -> (r: usize)
    requires
        array@.len() > 0,
    ensures
        r < array@.len(),
        ordered::<T>() ==> r == argmax_upto(array@, array@.len()),
{
    let mut m: usize = 0;
    let mut i: usize = 1;
    while i < array.len()
        invariant
            1 <= i <= array@.len(),
            m < i,
            ordered::<T>() ==> m == argmax_upto(array@, i as nat),
        decreases array@.len() - i,
    {
        if array[i] > array[m] {
            m = i;
        }
        i += 1;
    }
    m
}

/// The indices of `array` in the order that sorts it, rising, or falling
/// where `reverse` is set. Elements of which neither comes before the other
/// keep the order they have in `array`.
pub fn argsort<T: PartialOrd>(array: &[T], reverse: bool) -> (r: Vec<usize>)
    ensures
        is_permutation(r@, array@.len()),
        ordered::<T>() ==> forall|i: int|
            0 <= i < r@.len() - 1 ==> in_order(array@, #[trigger] r@[i] as int, r@[i + 1] as int, reverse),
{
    let n: usize = array.len();
    let mut out: Vec<usize> = Vec::with_capacity(n);
    let mut k: usize = 0;
    while k < n
        invariant
            k <= n,
            n == array@.len(),
            is_permutation(out@, k as nat),
            ordered::<T>() ==> forall|i: int|
                0 <= i < out@.len() - 1 ==> in_order(
                    array@,
                    #[trigger] out@[i] as int,
                    out@[i + 1] as int,
                    reverse,
                ),
        decreases n - k,
    {
        let ghost prev = out@;
        let mut j: usize = k;
        while j > 0 && comes_before(&array[k], &array[out[j - 1]], reverse)
            invariant
                j <= k,
                k < n,
                n == array@.len(),
                out@ == prev,
                is_permutation(prev, k as nat),
                ordered::<T>() ==> forall|i: int|
                    j <= i < k ==> before(array@[k as int], array@[#[trigger] prev[i] as int], reverse),
            decreases j,
        {
            j -= 1;
        }
        out.insert(j, k);
        proof {
            let cur = out@;
            assert(cur =~= prev.insert(j as int, k));
            assert forall|i: int| 0 <= i < k + 1 implies (#[trigger] cur[i]) < k + 1 by {
                if i < j {
                    assert(cur[i] == prev[i]);
                } else if i > j {
                    assert(cur[i] == prev[i - 1]);
                }
            }
            assert forall|a: int, b: int| 0 <= a < b < k + 1 implies cur[a] != cur[b] by {
                let pa = if a < j { a } else { a - 1 };
                let pb = if b < j { b } else { b - 1 };
                if a != j {
                    assert(cur[a] == prev[pa]);
                }
                if b != j {
                    assert(cur[b] == prev[pb]);
                }
            }
            if ordered::<T>() {
                assert forall|i: int| 0 <= i < cur.len() - 1 implies in_order(
                    array@,
                    #[trigger] cur[i] as int,
                    cur[i + 1] as int,
                    reverse,
                ) by {
                    if i + 1 < j {
                        assert(cur[i] == prev[i] && cur[i + 1] == prev[i + 1]);
                    } else if i + 1 == j {
                        assert(cur[i] == prev[i]);
                        assert(prev[i] < k);
                    } else if i == j {
                        assert(cur[i + 1] == prev[j as int]);
                    } else {
                        assert(cur[i] == prev[i - 1] && cur[i + 1] == prev[i]);
                    }
                }
            }
        }
        k += 1;
    }
    out
}

/// Whether `a` comes strictly before `b` in the wanted order.
fn comes_before<T: PartialOrd>(a: &T, b: &T, reverse: bool) -> (r: bool)
    ensures
        ordered::<T>() ==> r == before(*a, *b, reverse),
{
    if reverse {
        *a > *b
    } else {
        *a < *b
    }
}

/// On numbers the first greatest element is no smaller than any other and
/// greater than all before it.
pub proof fn lemma_argmax_usize(s: Seq<usize>, n: nat)
    requires
        0 < n <= s.len(),
    ensures
        0 <= argmax_upto(s, n) < n,
        forall|j: int| 0 <= j < n ==> #[trigger] s[j] <= s[argmax_upto(s, n)],
        forall|j: int| 0 <= j < argmax_upto(s, n) ==> #[trigger] s[j] < s[argmax_upto(s, n)],
    decreases n,
{
    if n > 1 {
        lemma_argmax_usize(s, (n - 1) as nat);
    }
}

/// On numbers an order in which neighbours may follow each other is sorted
/// throughout, and equal numbers keep the order of their indices.
pub proof fn lemma_sorted_usize(s: Seq<usize>, r: Seq<usize>, reverse: bool, i: int, j: int)
    requires
        is_permutation(r, s.len()),
        forall|k: int|
            0 <= k < r.len() - 1 ==> in_order(s, #[trigger] r[k] as int, r[k + 1] as int, reverse),
        0 <= i < j < r.len(),
    ensures
        if reverse { s[r[i] as int] >= s[r[j] as int] } else { s[r[i] as int] <= s[r[j] as int] },
        s[r[i] as int] == s[r[j] as int] ==> r[i] < r[j],
    decreases j - i,
{
    if i + 1 < j {
        lemma_sorted_usize(s, r, reverse, i, j - 1);
    }
    assert(in_order(s, r[j - 1] as int, r[j - 1 + 1] as int, reverse));
}

/// A permutation of the indices below `n` holds every one of them.
pub proof fn lemma_permutation_onto(r: Seq<usize>, n: nat, b: usize)
    requires
        is_permutation(r, n),
        b < n,
    ensures
        exists|j: int| 0 <= j < n && r[j] == b,
{
    let all = r.to_set();
    r.unique_seq_to_set();
    if !all.contains(b) {
        let more = all.insert(b);
        assert forall|w: usize| more.contains(w) implies w < n by {
            if w != b {
                let j = choose|j: int| 0 <= j < r.len() && r[j] == w;
                assert(r[j] < n);
            }
        }
        lemma_bounded_set_len(more, n);
    } else {
        let j = choose|j: int| 0 <= j < r.len() && r[j] == b;
        assert(0 <= j < n && r[j] == b);
    }
}

} // verus!
