//! Classic sorting and searching routines over `i64` slices, held in `Vec`s.
//!
//! Both sorts leave the input a sorted permutation of itself: the result is
//! nondecreasing and holds exactly the same values, multiplicities included.
//! Binary search never reports a position that does not hold the target, and
//! on sorted input it finds the target exactly when it is present.

use vstd::prelude::*;
use vstd::seq_lib::lemma_multiset_commutative;

verus! {

broadcast use vstd::seq_lib::group_to_multiset_ensures;

/// Nondecreasing from left to right.
pub open spec fn sorted(s: Seq<i64>) -> bool {
    forall|i: int, j: int| 0 <= i <= j < s.len() ==> s[i] <= s[j]
}

/// Nondecreasing within the index range `[lo, hi)`.
pub open spec fn sorted_range(s: Seq<i64>, lo: int, hi: int) -> bool {
    forall|i: int, j: int| lo <= i <= j < hi ==> s[i] <= s[j]
}

pub struct Algorithms;

impl Algorithms {
    pub fn quick_sort(arr: &mut Vec<i64>)
        ensures
            sorted(final(arr)@),
            final(arr)@.to_multiset() == old(arr)@.to_multiset(),
            final(arr)@.len() == old(arr)@.len(),
    {
        if arr.len() <= 1 {
            return ;
        }
        let high = arr.len() - 1;
        Self::quick_sort_recursive(arr, 0, high);
        proof {
            assert(old(arr)@.subrange(0, high + 1) =~= old(arr)@);
            assert(arr@.subrange(0, high + 1) =~= arr@);
        }
    }

    fn quick_sort_recursive(arr: &mut Vec<i64>, low: usize, high: usize)
        requires
            low <= high < old(arr)@.len(),
        ensures
            final(arr)@.len() == old(arr)@.len(),
            forall|k: int|
                0 <= k < old(arr)@.len() && !(low <= k <= high) ==> final(arr)@[k] == old(arr)@[k],
            final(arr)@.subrange(low as int, high + 1).to_multiset() == old(arr)@.subrange(
                low as int,
                high + 1,
            ).to_multiset(),
            sorted_range(final(arr)@, low as int, high + 1),
        decreases high - low,
    {
        let ghost pre = arr@;
        let p = Self::partition(arr, low, high);
        let ghost mid = arr@;
        let ghost pivot = arr@[p as int];
        proof {
            assert(mid.subrange(low as int, high + 1).to_multiset() == pre.subrange(
                low as int,
                high + 1,
            ).to_multiset());
        }
        if p > low {
            proof {
                assert forall|k: int|
                    0 <= k < p - low implies mid.subrange(low as int, p as int)[k] <= pivot by {
                    assert(mid.subrange(low as int, p as int)[k] == mid[low + k]);
                }
            }
            Self::quick_sort_recursive(arr, low, p - 1);
            proof {
                assert(arr@.subrange(low as int, p as int) =~= arr@.subrange(low as int, p - 1 + 1));
                assert(mid.subrange(low as int, p as int) =~= mid.subrange(low as int, p - 1 + 1));
                Self::lemma_multiset_bound_upper(
                    mid.subrange(low as int, p as int),
                    arr@.subrange(low as int, p as int),
                    pivot,
                );
                assert(arr@[p as int] == pivot);
            }
        }
        let ghost mid2 = arr@;
        if p < high {
            proof {
                assert forall|k: int|
                    0 <= k < high - p implies #[trigger] mid2.subrange(p + 1, high + 1)[k]
                        >= pivot by {
                    assert(mid2.subrange(p + 1, high + 1)[k] == mid2[p + 1 + k]);
                    assert(mid2[p + 1 + k] == mid[p + 1 + k]);
                }
            }
            Self::quick_sort_recursive(arr, p + 1, high);
            proof {
                Self::lemma_multiset_bound_lower(
                    mid2.subrange(p + 1, high + 1),
                    arr@.subrange(p + 1, high + 1),
                    pivot,
                );
            }
        }
        proof {
            let s = arr@;
            assert(s[p as int] == pivot);
            assert(s.subrange(low as int, p as int) =~= mid2.subrange(low as int, p as int));
            if p > low {
                assert(sorted_range(mid2, low as int, p - 1 + 1));
                assert forall|i2: int, j2: int| low <= i2 <= j2 < p implies s[i2] <= s[j2] by {
                    assert(s.subrange(low as int, p as int)[i2 - low] == s[i2]);
                    assert(s.subrange(low as int, p as int)[j2 - low] == s[j2]);
                    assert(mid2.subrange(low as int, p as int)[i2 - low] == mid2[i2]);
                    assert(mid2.subrange(low as int, p as int)[j2 - low] == mid2[j2]);
                }
            }
            assert(sorted_range(s, low as int, p as int));
            assert forall|k: int| low <= k < p implies s[k] <= pivot by {
                assert(s.subrange(low as int, p as int)[k - low] == s[k]);
                assert(mid2.subrange(low as int, p as int)[k - low] == mid2[k]);
            }
            assert forall|k: int| p < k <= high implies s[k] >= pivot by {
                assert(s.subrange(p + 1, high + 1)[k - p - 1] == s[k]);
            }
            assert forall|i: int, j: int| low <= i <= j <= high implies s[i] <= s[j] by {
                if i < p && j < p {
                    assert(sorted_range(s, low as int, p as int));
                } else if i > p && j > p {
                    assert(sorted_range(s, p + 1, high + 1));
                }
            }
            // The two halves together with the pivot still hold the values the
            // range held before the recursive calls.
            assert(pre.subrange(low as int, high + 1).to_multiset() == s.subrange(
                low as int,
                high + 1,
            ).to_multiset()) by {
                Self::lemma_split_three(mid, low as int, p as int, high + 1);
                Self::lemma_split_three(mid2, low as int, p as int, high + 1);
                Self::lemma_split_three(s, low as int, p as int, high + 1);
                assert(mid2.subrange(low as int, p as int).to_multiset() == mid.subrange(
                    low as int,
                    p as int,
                ).to_multiset());
                assert(mid2.subrange(p as int, p + 1) =~= mid.subrange(p as int, p + 1));
                assert(mid2.subrange(p + 1, high + 1) =~= mid.subrange(p + 1, high + 1));
                assert(s.subrange(low as int, p as int) =~= mid2.subrange(low as int, p as int));
                assert(s.subrange(p as int, p + 1) =~= mid2.subrange(p as int, p + 1));
            }
        }
    }

    fn partition(arr: &mut Vec<i64>, low: usize, high: usize) -> (p: usize)
        requires
            low <= high < old(arr)@.len(),
        ensures
            low <= p <= high,
            final(arr)@.len() == old(arr)@.len(),
            forall|k: int|
                0 <= k < old(arr)@.len() && !(low <= k <= high) ==> final(arr)@[k] == old(arr)@[k],
            final(arr)@.subrange(low as int, high + 1).to_multiset() == old(arr)@.subrange(
                low as int,
                high + 1,
            ).to_multiset(),
            forall|k: int| low <= k < p ==> final(arr)@[k] <= final(arr)@[p as int],
            forall|k: int| p < k <= high ==> final(arr)@[k] > final(arr)@[p as int],
    {
        let ghost pre = arr@;
        let mut i = low;
        let mut j = low;
        while j < high
            invariant
                low <= i <= j <= high < arr@.len(),
                arr@.len() == pre.len(),
                forall|k: int| 0 <= k < pre.len() && !(low <= k <= high) ==> arr@[k] == pre[k],
                arr@.subrange(low as int, high + 1).to_multiset() == pre.subrange(
                    low as int,
                    high + 1,
                ).to_multiset(),
                arr@[high as int] == pre[high as int],
                forall|k: int| low <= k < i ==> arr@[k] <= arr@[high as int],
                forall|k: int| i <= k < j ==> arr@[k] > arr@[high as int],
            decreases high - j,
        {
            if arr[j] <= arr[high] {
                let ghost before = arr@;
                let a = arr[i];
                let b = arr[j];
                arr.set(i, b);
                arr.set(j, a);
                proof {
                    Self::lemma_swap_multiset(before, arr@, low as int, high + 1, i as int, j as int);
                }
                i = i + 1;
            }
            j = j + 1;
        }
        let ghost before = arr@;
        let a = arr[i];
        let b = arr[high];
        arr.set(i, b);
        arr.set(high, a);
        proof {
            Self::lemma_swap_multiset(before, arr@, low as int, high + 1, i as int, high as int);
        }
        i
    }

    /// Swapping two positions inside a range leaves the range's multiset
    /// unchanged.
    proof fn lemma_swap_multiset(s1: Seq<i64>, s2: Seq<i64>, lo: int, hi: int, x: int, y: int)
        requires
            s1.len() == s2.len(),
            0 <= lo <= x <= y < hi <= s1.len(),
            s2[x] == s1[y],
            s2[y] == s1[x],
            forall|k: int| 0 <= k < s1.len() && k != x && k != y ==> s2[k] == s1[k],
        ensures
            s2.subrange(lo, hi).to_multiset() == s1.subrange(lo, hi).to_multiset(),
    {
        let a = s1.subrange(lo, hi);
        let b = s2.subrange(lo, hi);
        if x == y {
            assert(b =~= a);
        } else {
            let xr = x - lo;
            let yr = y - lo;
            assert(b =~= a.update(xr, a[yr]).update(yr, a[xr]));
            Self::lemma_update_two_multiset(a, xr, yr);
        }
    }

    proof fn lemma_update_two_multiset(s: Seq<i64>, x: int, y: int)
        requires
            0 <= x < y < s.len(),
        ensures
            s.update(x, s[y]).update(y, s[x]).to_multiset() == s.to_multiset(),
    {
        let t = s.update(x, s[y]).update(y, s[x]);
        assert(t.to_multiset() =~= s.to_multiset()) by {
            vstd::seq_lib::lemma_update_is_remove_insert(s, x, s[y]);
            vstd::seq_lib::lemma_update_is_remove_insert(s.update(x, s[y]), y, s[x]);
        }
    }

    /// Every value of `s2` no greater than `bound` if that held of `s1` and
    /// the two hold the same values.
    proof fn lemma_multiset_bound_upper(s1: Seq<i64>, s2: Seq<i64>, bound: i64)
        requires
            s1.to_multiset() == s2.to_multiset(),
            forall|k: int| 0 <= k < s1.len() ==> s1[k] <= bound,
        ensures
            forall|k: int| 0 <= k < s2.len() ==> s2[k] <= bound,
    {
        assert forall|k: int| 0 <= k < s2.len() implies s2[k] <= bound by {
            assert(s2.to_multiset().contains(s2[k]));
            assert(s1.to_multiset().contains(s2[k]));
            assert(s1.contains(s2[k]));
        }
    }

    proof fn lemma_multiset_bound_lower(s1: Seq<i64>, s2: Seq<i64>, bound: i64)
        requires
            s1.to_multiset() == s2.to_multiset(),
            forall|k: int| 0 <= k < s1.len() ==> s1[k] >= bound,
        ensures
            forall|k: int| 0 <= k < s2.len() ==> s2[k] >= bound,
    {
        assert forall|k: int| 0 <= k < s2.len() implies s2[k] >= bound by {
            assert(s2.to_multiset().contains(s2[k]));
            assert(s1.to_multiset().contains(s2[k]));
            assert(s1.contains(s2[k]));
        }
    }

    /// A range's multiset is the sum of the multisets of its three parts.
    proof fn lemma_split_three(s: Seq<i64>, lo: int, p: int, hi: int)
        requires
            0 <= lo <= p < hi <= s.len(),
        ensures
            s.subrange(lo, hi).to_multiset() == s.subrange(lo, p).to_multiset().add(
                s.subrange(p, p + 1).to_multiset(),
            ).add(s.subrange(p + 1, hi).to_multiset()),
    {
        let whole = s.subrange(lo, hi);
        let a = s.subrange(lo, p);
        let b = s.subrange(p, p + 1);
        let c = s.subrange(p + 1, hi);
        assert(whole =~= (a + b) + c);
        lemma_multiset_commutative(a + b, c);
        lemma_multiset_commutative(a, b);
    }

    pub fn merge_sort(arr: &mut Vec<i64>)
        ensures
            sorted(final(arr)@),
            final(arr)@.to_multiset() == old(arr)@.to_multiset(),
            final(arr)@.len() == old(arr)@.len(),
        decreases old(arr)@.len(),
    {
        if arr.len() <= 1 {
            return ;
        }
        let mid = arr.len() / 2;
        let mut right = arr.split_off(mid);
        proof {
            assert(old(arr)@ =~= arr@ + right@);
            lemma_multiset_commutative(arr@, right@);
        }
        let ghost left_pre = arr@;
        let ghost right_pre = right@;
        Self::merge_sort(arr);
        Self::merge_sort(&mut right);
        let merged = Self::merge(arr, &right);
        proof {
            lemma_multiset_commutative(left_pre, right_pre);
        }
        *arr = merged;
    }

    /// Merges two sorted vectors into one sorted vector holding the values of
    /// both.
    fn merge(left: &Vec<i64>, right: &Vec<i64>) -> (merged: Vec<i64>)
        requires
            sorted(left@),
            sorted(right@),
        ensures
            sorted(merged@),
            merged@.to_multiset() == left@.to_multiset().add(right@.to_multiset()),
            merged@.len() == left@.len() + right@.len(),
    {
        let mut merged: Vec<i64> = Vec::new();
        let mut i: usize = 0;
        let mut j: usize = 0;
        while i < left.len() || j < right.len()
            invariant
                i <= left@.len(),
                j <= right@.len(),
                sorted(left@),
                sorted(right@),
                sorted(merged@),
                merged@.len() == i + j,
                merged@.to_multiset() == left@.subrange(0, i as int).to_multiset().add(
                    right@.subrange(0, j as int).to_multiset(),
                ),
                forall|k: int, m: int|
                    0 <= k < merged@.len() && i <= m < left@.len() ==> merged@[k] <= left@[m],
                forall|k: int, m: int|
                    0 <= k < merged@.len() && j <= m < right@.len() ==> merged@[k] <= right@[m],
            decreases left@.len() - i + right@.len() - j,
        {
            let take_left: bool = if i >= left.len() {
                false
            } else if j >= right.len() {
                true
            } else {
                left[i] <= right[j]
            };
            if take_left {
                let ghost pre = merged@;
                merged.push(left[i]);
                proof {
                    assert(left@.subrange(0, i + 1) =~= left@.subrange(0, i as int).push(
                        left@[i as int],
                    ));
                    assert(left@.subrange(0, i + 1).to_multiset() == left@.subrange(
                        0,
                        i as int,
                    ).to_multiset().insert(left@[i as int]));
                    assert(merged@.to_multiset() =~= left@.subrange(0, i + 1).to_multiset().add(
                        right@.subrange(0, j as int).to_multiset(),
                    ));
                }
                i = i + 1;
            } else {
                let ghost pre = merged@;
                merged.push(right[j]);
                proof {
                    assert(right@.subrange(0, j + 1) =~= right@.subrange(0, j as int).push(
                        right@[j as int],
                    ));
                    assert(right@.subrange(0, j + 1).to_multiset() == right@.subrange(
                        0,
                        j as int,
                    ).to_multiset().insert(right@[j as int]));
                    assert(merged@.to_multiset() =~= left@.subrange(0, i as int).to_multiset().add(
                        right@.subrange(0, j + 1).to_multiset(),
                    ));
                }
                j = j + 1;
            }
        }
        proof {
            assert(left@.subrange(0, left@.len() as int) =~= left@);
            assert(right@.subrange(0, right@.len() as int) =~= right@);
        }
        merged
    }

    pub fn binary_search(arr: &Vec<i64>, target: &i64) -> (r: Option<usize>)
        ensures
            match r {
                Some(i) => i < arr@.len() && arr@[i as int] == *target,
                None => sorted(arr@) ==> !arr@.contains(*target),
            },
            sorted(arr@) && arr@.contains(*target) ==> r is Some,
    {
        let mut left: usize = 0;
        let mut right: usize = arr.len();
        while left < right
            invariant
                left <= right <= arr@.len(),
                sorted(arr@) ==> forall|k: int|
                    0 <= k < arr@.len() && !(left <= k < right) ==> arr@[k] != *target,
            decreases right - left,
        {
            let mid = left + (right - left) / 2;
            if arr[mid] == *target {
                return Some(mid);
            } else if arr[mid] < *target {
                proof {
                    if sorted(arr@) {
                        assert forall|k: int|
                            0 <= k < arr@.len() && !(mid + 1 <= k < right) implies arr@[k]
                            != *target by {
                            if left <= k <= mid {
                                assert(arr@[k] <= arr@[mid as int]);
                            }
                        }
                    }
                }
                left = mid + 1;
            } else {
                proof {
                    if sorted(arr@) {
                        assert forall|k: int|
                            0 <= k < arr@.len() && !(left <= k < mid) implies arr@[k]
                            != *target by {
                            if mid <= k < right {
                                assert(arr@[mid as int] <= arr@[k]);
                            }
                        }
                    }
                }
                right = mid;
            }
        }
        None
    }
}

} // verus!
