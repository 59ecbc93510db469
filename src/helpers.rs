use vstd::prelude::*;

verus! {

/// `s` never decreases from left to right.
pub open spec fn is_sorted(s: Seq<i64>) -> bool {
    forall|i: int, j: int| 0 <= i <= j < s.len() ==> s[i] <= s[j]
}

/// `s` strictly increases from left to right.
pub open spec fn is_strictly_increasing(s: Seq<i64>) -> bool {
    forall|i: int, j: int| 0 <= i < j < s.len() ==> s[i] < s[j]
}

/// The leftmost position of `x` in `s`, if `x` occurs in `s`.
pub open spec fn leftmost(s: Seq<i64>, x: i64) -> Option<int> {
    if exists|i: int| 0 <= i < s.len() && s[i] == x {
        Some(choose|i: int| 0 <= i < s.len() && s[i] == x && forall|k: int| 0 <= k < i ==> s[k] != x)
    } else {
        None
    }
}

/// Looks `x` up in the sorted slice `arr`.
///
/// Returns the index of the leftmost element equal to `x`, or `None` where
/// no element equals `x` (in particular where `x` lies outside
/// `[arr[0], arr[len - 1]]`, or `arr` is empty).
pub fn binary_search(x: i64, arr: &[i64]) -> (r: Option<usize>)
    requires
        is_sorted(arr@),
    ensures
        match r {
            Some(i) => i < arr@.len() && arr@[i as int] == x
                && forall|k: int| 0 <= k < i ==> arr@[k] != x,
            None => forall|k: int| 0 <= k < arr@.len() ==> arr@[k] != x,
        },
        r matches Some(i) ==> leftmost(arr@, x) == Some(i as int),
        r is None ==> leftmost(arr@, x) is None,
{
    let n = arr.len();
    if n == 0 || x < arr[0] || x > arr[n - 1] {
        return None;
    }
    let mut a: usize = 0;
    let mut b: usize = n - 1;
    while a < b
        invariant
            a <= b < n,
            n == arr@.len(),
            is_sorted(arr@),
            arr@[b as int] >= x,
            forall|k: int| 0 <= k < a ==> arr@[k] < x,
        decreases b - a,
    {
        let m = a + (b - a) / 2;
        if arr[m] < x {
            a = m + 1;
        } else {
            b = m;
        }
    }
    if arr[a] == x {
        proof {
            assert(exists|i: int| 0 <= i < arr@.len() && arr@[i] == x);
            let c = choose|i: int| 0 <= i < arr@.len() && arr@[i] == x
                && forall|k: int| 0 <= k < i ==> arr@[k] != x;
            assert(0 <= a < arr@.len() && arr@[a as int] == x
                && forall|k: int| 0 <= k < a ==> arr@[k] != x);
            if c < a {
                assert(arr@[c] < x);
            } else if c > a {
                assert(arr@[a as int] != x);
            }
        }
        Some(a)
    } else {
        proof {
            assert forall|k: int| 0 <= k < arr@.len() implies arr@[k] != x by {
                if k >= a {
                    assert(arr@[k] >= arr@[a as int]);
                }
            }
        }
        None
    }
}

} // verus!
