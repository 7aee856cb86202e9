//! Named timing measurements and their summary statistics.
//!
//! Each timed operation appends one duration, in nanoseconds, under the
//! operation's name. The statistics summarise one name's durations: count,
//! total (saturated at the 64-bit limit), mean of the total, median, least
//! and greatest, all read off the sorted list of measurements.

use crate::assoc::StringTable;
use crate::clock::elapsed_nanos;
use crate::clock::monotonic_now;
use vstd::prelude::*;

verus! {

broadcast use vstd::seq_lib::group_to_multiset_ensures;

/// Nondecreasing from left to right.
pub open spec fn nondec(s: Seq<u64>) -> bool {
    forall|i: int, j: int| 0 <= i <= j < s.len() ==> s[i] <= s[j]
}

/// The sum of all durations, saturated at the 64-bit limit.
pub open spec fn sum_sat(s: Seq<u64>) -> u64
    decreases s.len(),
{
    if s.len() == 0 {
        0
    } else if sum_sat(s.drop_last()) + s.last() > u64::MAX {
        u64::MAX
    } else {
        (sum_sat(s.drop_last()) + s.last()) as u64
    }
}

pub struct PerformanceMonitor {
    measurements: StringTable<Vec<u64>>,
}

pub struct PerformanceStats {
    pub name: String,
    pub count: usize,
    pub total: u64,
    pub average: u64,
    pub median: u64,
    pub min: u64,
    pub max: u64,
}

impl PerformanceMonitor {
    pub closed spec fn well_formed(&self) -> bool {
        self.measurements.well_formed()
    }

    /// The durations recorded under a name, in recording order.
    pub closed spec fn times_of(&self, name: Seq<char>) -> Seq<u64> {
        if self.measurements.contains_key(name) {
            self.measurements.value_of(name)@
        } else {
            Seq::empty()
        }
    }

    pub fn new() -> (m: Self)
        ensures
            m.well_formed(),
            forall|n: Seq<char>| #[trigger] m.times_of(n) == Seq::<u64>::empty(),
    {
        PerformanceMonitor { measurements: StringTable::new() }
    }

    /// Runs `operation`, records how long it took under `name`, and hands
    /// its result back.
    pub fn time_operation<R, F: FnOnce() -> R>(&mut self, name: &str, operation: F) -> (r: R)
        requires
            old(self).well_formed(),
            call_requires(operation, ()),
        ensures
            final(self).well_formed(),
            call_ensures(operation, (), r),
            exists|d: u64| final(self).times_of(name@) == old(self).times_of(name@).push(d),
            forall|n: Seq<char>| n != name@ ==> final(self).times_of(n) == old(self).times_of(n),
    {
        let ghost old_times = old(self).times_of(name@);
        let start = monotonic_now();
        let result = operation();
        let duration = elapsed_nanos(&start);
        let mut times: Vec<u64> = match self.measurements.remove(name) {
            Some(v) => v,
            None => Vec::new(),
        };
        proof {
            assert(times@ == old_times);
        }
        times.push(duration);
        self.measurements.insert(name, times);
        proof {
            assert(self.times_of(name@) == old_times.push(duration));
        }
        result
    }

    /// The summary of one name's durations, or nothing when none were
    /// recorded: the fields are read off the sorted list of measurements.
    pub fn get_statistics(&self, name: &str) -> (r: Option<PerformanceStats>)
        requires
            self.well_formed(),
        ensures
            match r {
                Some(st) => {
                    &&& self.times_of(name@).len() > 0
                    &&& st.name@ == name@
                    &&& st.count == self.times_of(name@).len()
                    &&& exists|sorted: Seq<u64>|
                        {
                            &&& #[trigger] sorted.to_multiset() == self.times_of(
                                name@,
                            ).to_multiset()
                            &&& nondec(sorted)
                            &&& st.total == sum_sat(sorted)
                            &&& st.average == sum_sat(sorted) / (sorted.len() as u64)
                            &&& st.median == sorted[sorted.len() as int / 2]
                            &&& st.min == sorted[0]
                            &&& st.max == sorted.last()
                        }
                },
                None => self.times_of(name@).len() == 0,
            },
    {
        let times = match self.measurements.get(name) {
            None => {
                return None;
            },
            Some(v) => v,
        };
        if times.len() == 0 {
            return None;
        }
        let sorted = sort_nanos(times);
        let count = sorted.len();
        let mut total: u64 = 0;
        let mut i: usize = 0;
        while i < sorted.len()
            invariant
                i <= sorted@.len(),
                total == sum_sat(sorted@.subrange(0, i as int)),
            decreases sorted@.len() - i,
        {
            let ghost pre = sorted@.subrange(0, i as int);
            proof {
                assert(sorted@.subrange(0, i + 1).drop_last() =~= pre);
                assert(sorted@.subrange(0, i + 1).last() == sorted@[i as int]);
            }
            let v = sorted[i];
            total = if total > u64::MAX - v {
                u64::MAX
            } else {
                total + v
            };
            i = i + 1;
        }
        proof {
            assert(sorted@.subrange(0, sorted@.len() as int) =~= sorted@);
        }
        let average = total / (count as u64);
        let median = sorted[count / 2];
        let min = sorted[0];
        let max = sorted[count - 1];
        proof {
            assert(sorted@.last() == sorted@[count - 1]);
        }
        Some(
            PerformanceStats {
                name: String::from_str(name),
                count,
                total,
                average,
                median,
                min,
                max,
            },
        )
    }
}

/// Merge sort over durations, handing back a nondecreasing permutation.
fn sort_nanos(input: &Vec<u64>) -> (sorted: Vec<u64>)
    ensures
        nondec(sorted@),
        sorted@.to_multiset() == input@.to_multiset(),
        sorted@.len() == input@.len(),
    decreases input@.len(),
{
    if input.len() <= 1 {
        let mut out: Vec<u64> = Vec::new();
        let mut i: usize = 0;
        while i < input.len()
            invariant
                i <= input@.len(),
                out@ == input@.subrange(0, i as int),
            decreases input@.len() - i,
        {
            out.push(input[i]);
            proof {
                assert(out@ =~= input@.subrange(0, i + 1));
            }
            i = i + 1;
        }
        proof {
            assert(out@ =~= input@);
        }
        return out;
    }
    let mid = input.len() / 2;
    let mut left: Vec<u64> = Vec::new();
    let mut i: usize = 0;
    while i < mid
        invariant
            mid <= input@.len(),
            i <= mid,
            left@ == input@.subrange(0, i as int),
        decreases mid - i,
    {
        left.push(input[i]);
        proof {
            assert(left@ =~= input@.subrange(0, i + 1));
        }
        i = i + 1;
    }
    let mut right: Vec<u64> = Vec::new();
    let mut j: usize = mid;
    while j < input.len()
        invariant
            mid <= j <= input@.len(),
            right@ == input@.subrange(mid as int, j as int),
        decreases input@.len() - j,
    {
        right.push(input[j]);
        proof {
            assert(right@ =~= input@.subrange(mid as int, j + 1));
        }
        j = j + 1;
    }
    proof {
        assert(input@ =~= left@ + right@);
        vstd::seq_lib::lemma_multiset_commutative(left@, right@);
    }
    let left_sorted = sort_nanos(&left);
    let right_sorted = sort_nanos(&right);
    let merged = merge_nanos(&left_sorted, &right_sorted);
    proof {
        vstd::seq_lib::lemma_multiset_commutative(left@, right@);
    }
    merged
}

/// Merges two nondecreasing lists of durations.
fn merge_nanos(left: &Vec<u64>, right: &Vec<u64>) -> (merged: Vec<u64>)
    requires
        nondec(left@),
        nondec(right@),
    ensures
        nondec(merged@),
        merged@.to_multiset() == left@.to_multiset().add(right@.to_multiset()),
        merged@.len() == left@.len() + right@.len(),
{
    let mut merged: Vec<u64> = Vec::new();
    let mut i: usize = 0;
    let mut j: usize = 0;
    while i < left.len() || j < right.len()
        invariant
            i <= left@.len(),
            j <= right@.len(),
            nondec(left@),
            nondec(right@),
            nondec(merged@),
            merged@.len() == i + j,
            merged@.to_multiset() == left@.subrange(0, i as int).to_multiset().add(
                right@.subrange(0, j as int).to_multiset(),
            ),
            forall|k: int, m: int|
                0 <= k < merged@.len() && i <= m < left@.len() ==> merged@[k] <= left@[m],
            forall|k: int, m: int|
                0 <= k < merged@.len() && j <= m < right@.len() ==> merged@[k] <= right@[m],
        decreases left@.len() - i + right@.len() - j,
    {
        let take_left: bool = if i >= left.len() {
            false
        } else if j >= right.len() {
            true
        } else {
            left[i] <= right[j]
        };
        if take_left {
            merged.push(left[i]);
            proof {
                assert(left@.subrange(0, i + 1) =~= left@.subrange(0, i as int).push(
                    left@[i as int],
                ));
                assert(left@.subrange(0, i + 1).to_multiset() == left@.subrange(
                    0,
                    i as int,
                ).to_multiset().insert(left@[i as int]));
                assert(merged@.to_multiset() =~= left@.subrange(0, i + 1).to_multiset().add(
                    right@.subrange(0, j as int).to_multiset(),
                ));
            }
            i = i + 1;
        } else {
            merged.push(right[j]);
            proof {
                assert(right@.subrange(0, j + 1) =~= right@.subrange(0, j as int).push(
                    right@[j as int],
                ));
                assert(right@.subrange(0, j + 1).to_multiset() == right@.subrange(
                    0,
                    j as int,
                ).to_multiset().insert(right@[j as int]));
                assert(merged@.to_multiset() =~= left@.subrange(0, i as int).to_multiset().add(
                    right@.subrange(0, j + 1).to_multiset(),
                ));
            }
            j = j + 1;
        }
    }
    proof {
        assert(left@.subrange(0, left@.len() as int) =~= left@);
        assert(right@.subrange(0, right@.len() as int) =~= right@);
    }
    merged
}

} // verus!
