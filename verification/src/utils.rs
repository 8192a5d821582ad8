//! Small helpers on slices.

use std::hash::Hash;
use vstd::prelude::*;
use vstd::std_specs::cmp::PartialEqSpec;

verus! {

/// How many of the first `n` elements of `s` equal `x`.
pub open spec fn occurrences<T: PartialEq>(s: Seq<T>, x: T, n: nat) -> nat
    decreases n,
{
    if n == 0 {
        0
    } else {
        occurrences(s, x, (n - 1) as nat) + if s[n - 1].eq_spec(&x) { 1nat } else { 0nat }
    }
}

/// Sets every element of `array` to `v`.
pub fn fill<T: Copy>(array: &mut [T], v: T)
    ensures
        final(array)@.len() == old(array)@.len(),
        forall|i: int| 0 <= i < final(array)@.len() ==> #[trigger] final(array)@[i] == v,
{
    let n: usize = array.len();
    let mut i: usize = 0;
    while i < n
        invariant
            i <= n,
            array@.len() == n,
            n == old(array)@.len(),
            forall|j: int| 0 <= j < i ==> #[trigger] array@[j] == v,
        decreases n - i,
    {
        array[i] = v;
        i += 1;
    }
}

/// How often the element at `i` occurs in `array`.
fn count_of<T: Hash + Eq>(array: &[T], i: usize) -> (c: usize)
    requires
        T::obeys_eq_spec(),
        i < array@.len(),
    ensures
        c == occurrences(array@, array@[i as int], array@.len()),
{
    let mut c: usize = 0;
    let mut k: usize = 0;
    while k < array.len()
        invariant
            k <= array@.len(),
            i < array@.len(),
            T::obeys_eq_spec(),
            c == occurrences(array@, array@[i as int], k as nat),
            c <= k,
        decreases array@.len() - k,
    {
        if array[k] == array[i] {
            c += 1;
        }
        k += 1;
    }
    c
}

/// An element of `array` that occurs most often; among several, the one
/// that comes first.
pub fn most_common<T: Hash + Eq>(array: &[T]) -> (r: &T)
    requires
        T::obeys_eq_spec(),
        array@.len() > 0,
    ensures
        exists|i: int|
            0 <= i < array@.len() && array@[i] == *r && forall|j: int|
                0 <= j < i ==> occurrences(array@, #[trigger] array@[j], array@.len())
                    < occurrences(array@, *r, array@.len()),
        forall|j: int|
            0 <= j < array@.len() ==> occurrences(array@, #[trigger] array@[j], array@.len())
                <= occurrences(array@, *r, array@.len()),
{
    let mut best: usize = 0;
    let mut best_cnt: usize = count_of(array, 0);
    let mut i: usize = 1;
    while i < array.len()
        invariant
            1 <= i <= array@.len(),
            best < i,
            T::obeys_eq_spec(),
            best_cnt == occurrences(array@, array@[best as int], array@.len()),
            forall|j: int|
                0 <= j < i ==> occurrences(array@, #[trigger] array@[j], array@.len()) <= best_cnt,
            forall|j: int|
                0 <= j < best ==> occurrences(array@, #[trigger] array@[j], array@.len())
                    < best_cnt,
        decreases array@.len() - i,
    {
        let c: usize = count_of(array, i);
        if c > best_cnt {
            best = i;
            best_cnt = c;
        }
        i += 1;
    }
    &array[best]
}

} // verus!
