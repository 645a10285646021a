//! Strictly increasing vectors used as sets, and the sort of block lists.

use vstd::prelude::*;

verus! {

/// Strictly increasing.
pub open spec fn increasing(s: Seq<u32>) -> bool {
    forall|i: int, j: int| 0 <= i < j < s.len() ==> s[i] < s[j]
}

/// Where `x` stands in `v`, or where it would have to be inserted.
pub(crate) fn search(v: &[u32], x: u32) -> (r: Result<usize, usize>)
    requires
        increasing(v@),
    ensures
        match r {
            Ok(i) => i < v@.len() && v@[i as int] == x,
            Err(i) => i <= v@.len() && (forall|j: int| 0 <= j < i ==> v@[j] < x) && (forall|j: int|
                i <= j < v@.len() ==> x < v@[j]),
        },
{
    let mut lo: usize = 0;
    let mut hi: usize = v.len();
    while lo < hi
        invariant
            lo <= hi <= v@.len(),
            increasing(v@),
            forall|j: int| 0 <= j < lo ==> v@[j] < x,
            forall|j: int| hi <= j < v@.len() ==> x < v@[j],
        decreases hi - lo,
    {
        let mid: usize = lo + (hi - lo) / 2;
        if v[mid] == x {
            return Ok(mid);
        }
        if v[mid] < x {
            lo = mid + 1;
        } else {
            hi = mid;
        }
    }
    Err(lo)
}

/// Whether `x` is an element of `v`.
pub(crate) fn member(v: &[u32], x: u32) -> (r: bool)
    requires
        increasing(v@),
    ensures
        r == v@.contains(x),
{
    match search(v, x) {
        Ok(i) => true,
        Err(i) => {
            assert(!v@.contains(x)) by {
                if v@.contains(x) {
                    let j = choose|j: int| 0 <= j < v@.len() && v@[j] == x;
                    assert(j < i || j >= i);
                }
            }
            false
        },
    }
}

/// The block order: by position, ties by key.
pub open spec fn before(a: (u32, u64), b: (u32, u64)) -> bool {
    a.0 < b.0 || (a.0 == b.0 && a.1 < b.1)
}

/// `<[T]>::sort_unstable` on pairs of integers: the same pairs, ascending in
/// the order of tuples.
#[verifier::external_body]
pub(crate) fn sort_pairs(v: &mut Vec<(u32, u64)>)
    ensures
        final(v)@.to_multiset() == old(v)@.to_multiset(),
        forall|i: int, j: int|
            0 <= i < j < final(v)@.len() ==> !before(#[trigger] final(v)@[j], #[trigger] final(v)@[i]),
{
    v.sort_unstable();
}

/// `<[T]>::sort_unstable` on integers: the same numbers, ascending.
#[verifier::external_body]
pub(crate) fn sort_numbers(v: &mut Vec<u64>)
    ensures
        final(v)@.to_multiset() == old(v)@.to_multiset(),
        forall|i: int, j: int|
            0 <= i < j < final(v)@.len() ==> #[trigger] final(v)@[i] <= #[trigger] final(v)@[j],
{
    v.sort_unstable();
}

} // verus!
