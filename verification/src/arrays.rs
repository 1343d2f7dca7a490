//! Array exercises: two-pointer scans, prefix maxima, and the sliding
//! window maximum.

use std::collections::HashMap;
use vstd::prelude::*;

verus! {

broadcast use vstd::std_specs::hash::group_hash_axioms;

/// Sum of the elements `s[lo..hi)` as a mathematical integer.
pub open spec fn range_sum(s: Seq<i32>, lo: int, hi: int) -> int
    decreases hi - lo,
{
    if lo >= hi {
        0
    } else {
        range_sum(s, lo, hi - 1) + s[hi - 1]
    }
}

proof fn lemma_range_sum_one(s: Seq<i32>, i: int)
    requires
        0 <= i < s.len(),
    ensures
        range_sum(s, i, i + 1) == s[i],
{
    assert(range_sum(s, i, i) == 0);
}

/// Return indices `(j, i)` of two elements that add up to `target`,
/// or `None` when no pair does.  The second index is the least index
/// that completes a pair, and the first is the largest partner below
/// it, matching a left-to-right scan that remembers the most recent
/// position of every value.
pub fn two_sum(nums: &[i32], target: i32) -> (result: Option<(usize, usize)>)
    ensures
        match result {
            Some(p) => {
                &&& p.0 < p.1 < nums@.len()
                &&& nums@[p.0 as int] + nums@[p.1 as int] == target
                &&& forall|a: int, b: int|
                    #![trigger nums@[a], nums@[b]]
                    0 <= a < b < p.1 ==> nums@[a] + nums@[b] != target
                &&& forall|a: int|
                    p.0 < a < p.1 ==> #[trigger] nums@[a] + nums@[p.1 as int] != target
            },
            None => forall|a: int, b: int|
                #![trigger nums@[a], nums@[b]]
                0 <= a < b < nums@.len() ==> nums@[a] + nums@[b] != target,
        },
{
    let mut seen: HashMap<i64, usize> = HashMap::new();
    let n: usize = nums.len();
    let mut i: usize = 0;

    while i < n
        invariant
            i <= n == nums@.len(),
            forall|k: i64|
                seen@.contains_key(k) <==> exists|j: int|
                    0 <= j < i && nums@[j] as i64 == k,
            forall|k: i64| #[trigger]
                seen@.contains_key(k) ==> {
                    &&& seen@[k] < i
                    &&& nums@[seen@[k] as int] as i64 == k
                    &&& forall|j: int| seen@[k] < j < i ==> nums@[j] as i64 != k
                },
            forall|a: int, b: int|
                #![trigger nums@[a], nums@[b]]
                0 <= a < b < i ==> nums@[a] + nums@[b] != target,
        decreases n - i,
    {
        let complement: i64 = target as i64 - nums[i] as i64;
        match seen.get(&complement) {
            Some(j) => {
                return Some((*j, i));
            },
            None => {},
        }
        let key: i64 = nums[i] as i64;
        seen.insert(key, i);
        i = i + 1;
    }
    None
}

/// Largest sum of a non-empty contiguous subarray; 0 for an empty
/// input.  The precondition keeps every candidate sum inside `i32`,
/// which is what the running totals require.
pub fn max_subarray_sum(nums: &[i32]) -> (result: i32)
    requires
        forall|l: int, r: int|
            0 <= l < r <= nums@.len() ==> i32::MIN <= #[trigger] range_sum(nums@, l, r)
                <= i32::MAX,
    ensures
        nums@.len() == 0 ==> result == 0,
        forall|l: int, r: int|
            0 <= l < r <= nums@.len() ==> #[trigger] range_sum(nums@, l, r) <= result,
        nums@.len() > 0 ==> exists|l: int, r: int|
            0 <= l < r <= nums@.len() && #[trigger] range_sum(nums@, l, r) == result,
{
    let n: usize = nums.len();
    if n == 0 {
        return 0;
    }

    let mut max_so_far: i32 = nums[0];
    let mut max_ending_here: i32 = nums[0];
    let mut i: usize = 1;

    proof {
        lemma_range_sum_one(nums@, 0);
    }

    while i < n
        invariant
            1 <= i <= n == nums@.len(),
            forall|l: int, r: int|
                0 <= l < r <= n ==> i32::MIN <= #[trigger] range_sum(nums@, l, r) <= i32::MAX,
            forall|l: int|
                0 <= l < i ==> #[trigger] range_sum(nums@, l, i as int) <= max_ending_here,
            exists|l: int| 0 <= l < i && #[trigger] range_sum(nums@, l, i as int)
                == max_ending_here,
            forall|l: int, r: int|
                0 <= l < r <= i ==> #[trigger] range_sum(nums@, l, r) <= max_so_far,
            exists|l: int, r: int|
                0 <= l < r <= i && #[trigger] range_sum(nums@, l, r) == max_so_far,
        decreases n - i,
    {
        let num = nums[i];
        let ghost lw = choose|l: int|
            0 <= l < i && range_sum(nums@, l, i as int) == max_ending_here;
        proof {
            lemma_range_sum_one(nums@, i as int);
            assert(range_sum(nums@, lw, i + 1) == max_ending_here + num);
            assert(forall|l: int|
                0 <= l < i ==> #[trigger] range_sum(nums@, l, i + 1) == range_sum(
                    nums@,
                    l,
                    i as int,
                ) + nums@[i as int]);
        }
        let extended = max_ending_here + num;
        max_ending_here = if num > extended {
            num
        } else {
            extended
        };
        if max_ending_here > max_so_far {
            max_so_far = max_ending_here;
        }
        i = i + 1;
    }
    max_so_far
}

/// The subsequence of `s` with every zero removed, in order.
pub open spec fn nonzeros(s: Seq<i32>) -> Seq<i32>
    decreases s.len(),
{
    if s.len() == 0 {
        Seq::empty()
    } else {
        let rest = nonzeros(s.drop_last());
        if s.last() != 0i32 {
            rest.push(s.last())
        } else {
            rest
        }
    }
}

proof fn lemma_nonzeros_len(s: Seq<i32>)
    ensures
        nonzeros(s).len() <= s.len(),
    decreases s.len(),
{
    if s.len() > 0 {
        lemma_nonzeros_len(s.drop_last());
    }
}

/// Move every zero to the end of the vector while keeping the relative
/// order of the non-zero elements.
pub fn move_zeroes(nums: &mut Vec<i32>)
    ensures
        final(nums)@.len() == old(nums)@.len(),
        final(nums)@ == nonzeros(old(nums)@) + Seq::new(
            (old(nums)@.len() - nonzeros(old(nums)@).len()) as nat,
            |_j: int| 0i32,
        ),
{
    let ghost orig: Seq<i32> = nums@;
    let n: usize = nums.len();
    let mut non_zero_index: usize = 0;

    let mut i: usize = 0;
    while i < n
        invariant
            non_zero_index <= i <= n,
            nums@.len() == n == orig.len(),
            nums@.subrange(0, non_zero_index as int) == nonzeros(orig.subrange(0, i as int)),
            forall|j: int| i <= j < n ==> nums@[j] == orig[j],
        decreases n - i,
    {
        proof {
            assert(orig.subrange(0, i + 1).drop_last() =~= orig.subrange(0, i as int));
            lemma_nonzeros_len(orig.subrange(0, i + 1));
        }
        if nums[i] != 0 {
            let v = nums[i];
            nums[non_zero_index] = v;
            non_zero_index = non_zero_index + 1;
            proof {
                assert(nums@.subrange(0, non_zero_index as int) =~= nonzeros(
                    orig.subrange(0, i + 1),
                ));
            }
        } else {
            proof {
                assert(nums@.subrange(0, non_zero_index as int) =~= nonzeros(
                    orig.subrange(0, i + 1),
                ));
            }
        }
        i = i + 1;
    }

    proof {
        assert(orig.subrange(0, n as int) =~= orig);
    }

    let mut j: usize = non_zero_index;
    while j < n
        invariant
            non_zero_index <= j <= n,
            nums@.len() == n,
            nums@.subrange(0, non_zero_index as int) == nonzeros(orig),
            forall|m: int| non_zero_index <= m < j ==> nums@[m] == 0i32,
        decreases n - j,
    {
        nums[j] = 0;
        j = j + 1;
    }

    proof {
        assert(nums@ =~= nonzeros(orig) + Seq::new(
            (orig.len() - nonzeros(orig).len()) as nat,
            |_j: int| 0i32,
        ));
    }
}


/// Area of the container formed by bars `i` and `j`: the distance
/// between them times the smaller height.
pub open spec fn container_area(h: Seq<i32>, i: int, j: int) -> int {
    (j - i) * (if h[i] < h[j] {
        h[i] as int
    } else {
        h[j] as int
    })
}

/// Largest container area over all pairs of bars, or 0 when every
/// pair holds nothing.
pub fn max_area(height: &[i32]) -> (result: i32)
    requires
        1 <= height@.len() <= i32::MAX,
        forall|i: int, j: int|
            0 <= i < j < height@.len() ==> i32::MIN <= #[trigger] container_area(height@, i, j)
                <= i32::MAX,
    ensures
        result >= 0,
        forall|i: int, j: int|
            0 <= i < j < height@.len() ==> #[trigger] container_area(height@, i, j) <= result,
        result != 0 ==> exists|i: int, j: int|
            0 <= i < j < height@.len() && #[trigger] container_area(height@, i, j) == result,
{
    let ghost h = height@;
    let n: usize = height.len();
    let mut max_area: i32 = 0;
    let mut left: usize = 0;
    let mut right: usize = n - 1;

    while left < right
        invariant
            h == height@,
            n == height@.len() <= i32::MAX,
            0 <= left <= right < n == h.len(),
            forall|i: int, j: int|
                0 <= i < j < n ==> i32::MIN <= #[trigger] container_area(h, i, j) <= i32::MAX,
            max_area >= 0,
            forall|i: int, j: int|
                0 <= i < j < n && !(left <= i && j <= right) ==> #[trigger] container_area(
                    h,
                    i,
                    j,
                ) <= max_area,
            max_area != 0 ==> exists|i: int, j: int|
                0 <= i < j < n && #[trigger] container_area(h, i, j) == max_area,
        decreases right - left,
    {
        let width = (right - left) as i32;
        let hl = height[left];
        let hr = height[right];
        let hmin = if hl < hr {
            hl
        } else {
            hr
        };
        proof {
            assert(container_area(h, left as int, right as int) == (right - left) * hmin);
        }
        let area = width * hmin;
        if area > max_area {
            max_area = area;
        }
        if hl < hr {
            proof {
                assert forall|j: int| left < j <= right implies #[trigger] container_area(
                    h,
                    left as int,
                    j,
                ) <= max_area by {
                    let m: int = if h[left as int] < h[j] {
                        h[left as int] as int
                    } else {
                        h[j] as int
                    };
                    if m <= 0 {
                        assert((j - left) * m <= 0) by (nonlinear_arith)
                            requires
                                j - left >= 1,
                                m <= 0,
                        ;
                    } else {
                        assert((j - left) * m <= (right - left) * hmin) by (nonlinear_arith)
                            requires
                                1 <= j - left <= right - left,
                                0 < m <= hmin,
                        ;
                    }
                }
            }
            left = left + 1;
        } else {
            proof {
                assert forall|i: int| left <= i < right implies #[trigger] container_area(
                    h,
                    i,
                    right as int,
                ) <= max_area by {
                    let m: int = if h[i] < h[right as int] {
                        h[i] as int
                    } else {
                        h[right as int] as int
                    };
                    if m <= 0 {
                        assert((right - i) * m <= 0) by (nonlinear_arith)
                            requires
                                right - i >= 1,
                                m <= 0,
                        ;
                    } else {
                        assert((right - i) * m <= (right - left) * hmin) by (nonlinear_arith)
                            requires
                                1 <= right - i <= right - left,
                                0 < m <= hmin,
                        ;
                    }
                }
            }
            right = right - 1;
        }
    }
    max_area
}


/// Largest bar height among `h[0..=i]`.
pub open spec fn prefix_max(h: Seq<i32>, i: int) -> int
    decreases i,
{
    if i <= 0 {
        h[0] as int
    } else {
        let m = prefix_max(h, i - 1);
        if h[i] > m {
            h[i] as int
        } else {
            m
        }
    }
}

/// Largest bar height among `h[i..]`.
pub open spec fn suffix_max(h: Seq<i32>, i: int) -> int
    decreases h.len() - i,
{
    if i >= h.len() - 1 {
        h[h.len() - 1] as int
    } else {
        let m = suffix_max(h, i + 1);
        if h[i] > m {
            h[i] as int
        } else {
            m
        }
    }
}

/// Water standing on top of bar `i`: the lower of the tallest bars to
/// each side (both including `i` itself), minus the bar's own height.
pub open spec fn water_at(h: Seq<i32>, i: int) -> int {
    let lm = prefix_max(h, i);
    let rm = suffix_max(h, i);
    (if lm < rm {
        lm
    } else {
        rm
    }) - h[i]
}

/// Water trapped on the first `i` bars.
pub open spec fn total_water(h: Seq<i32>, i: int) -> int
    decreases i,
{
    if i <= 0 {
        0
    } else {
        total_water(h, i - 1) + water_at(h, i - 1)
    }
}

proof fn lemma_prefix_max_ge(h: Seq<i32>, i: int)
    requires
        0 <= i < h.len(),
    ensures
        prefix_max(h, i) >= h[i],
        i > 0 ==> prefix_max(h, i) >= prefix_max(h, i - 1),
{
}

proof fn lemma_suffix_max_ge(h: Seq<i32>, i: int)
    requires
        0 <= i < h.len(),
    ensures
        suffix_max(h, i) >= h[i],
        i < h.len() - 1 ==> suffix_max(h, i) >= suffix_max(h, i + 1),
{
}

proof fn lemma_water_at_nonneg(h: Seq<i32>, i: int)
    requires
        0 <= i < h.len(),
    ensures
        water_at(h, i) >= 0,
{
    lemma_prefix_max_ge(h, i);
    lemma_suffix_max_ge(h, i);
}

proof fn lemma_total_water_nonneg(h: Seq<i32>, i: int)
    requires
        0 <= i <= h.len(),
    ensures
        total_water(h, i) >= 0,
    decreases i,
{
    if i > 0 {
        lemma_water_at_nonneg(h, i - 1);
        lemma_total_water_nonneg(h, i - 1);
    }
}

proof fn lemma_total_water_mono(h: Seq<i32>, i: int, j: int)
    requires
        0 <= i <= j <= h.len(),
    ensures
        total_water(h, i) <= total_water(h, j),
        total_water(h, i) >= 0,
    decreases j - i,
{
    lemma_total_water_nonneg(h, i);
    if i < j {
        lemma_water_at_nonneg(h, j - 1);
        lemma_total_water_mono(h, i, j - 1);
    }
}

/// Total water trapped between the bars of the histogram.
pub fn trap_rain_water(height: &[i32]) -> (result: i32)
    requires
        total_water(height@, height@.len() as int) <= i32::MAX,
    ensures
        result == total_water(height@, height@.len() as int),
{
    let ghost h = height@;
    let n: usize = height.len();
    if n < 3 {
        proof {
            assert(total_water(h, 0) == 0);
            if n >= 1 {
                assert(water_at(h, 0) == 0) by {
                    lemma_prefix_max_ge(h, 0);
                    lemma_suffix_max_ge(h, 0);
                    assert(prefix_max(h, 0) == h[0]);
                };
                assert(total_water(h, 1) == 0);
            }
            if n == 2 {
                assert(water_at(h, 1) == 0) by {
                    lemma_prefix_max_ge(h, 1);
                    lemma_suffix_max_ge(h, 1);
                    assert(suffix_max(h, 1) == h[1]);
                };
                assert(total_water(h, 2) == 0);
            }
        }
        return 0;
    }

    let mut left_max: Vec<i32> = vec![0i32; n];
    let mut right_max: Vec<i32> = vec![0i32; n];

    let first = height[0];
    left_max[0] = first;
    let mut i: usize = 1;
    while i < n
        invariant
            h == height@,
            1 <= i <= n == h.len(),
            left_max@.len() == n,
            forall|j: int| 0 <= j < i ==> left_max@[j] == prefix_max(h, j),
        decreases n - i,
    {
        proof {
            lemma_prefix_max_ge(h, i as int);
        }
        let prev = left_max[i - 1];
        let cur = height[i];
        left_max[i] = if prev > cur {
            prev
        } else {
            cur
        };
        i = i + 1;
    }

    let last = height[n - 1];
    right_max[n - 1] = last;
    let mut i2: usize = n - 1;
    while i2 > 0
        invariant
            h == height@,
            0 <= i2 <= n - 1,
            n == h.len() >= 3,
            right_max@.len() == n,
            forall|j: int| i2 <= j < n ==> right_max@[j] == suffix_max(h, j),
        decreases i2,
    {
        proof {
            lemma_suffix_max_ge(h, i2 - 1);
        }
        let nxt = right_max[i2];
        let cur = height[i2 - 1];
        right_max[i2 - 1] = if cur > nxt {
            cur
        } else {
            nxt
        };
        i2 = i2 - 1;
    }

    let mut water: i32 = 0;
    let mut k: usize = 0;
    while k < n
        invariant
            h == height@,
            0 <= k <= n == h.len(),
            left_max@.len() == n,
            right_max@.len() == n,
            forall|j: int| 0 <= j < n ==> left_max@[j] == prefix_max(h, j),
            forall|j: int| 0 <= j < n ==> right_max@[j] == suffix_max(h, j),
            total_water(h, n as int) <= i32::MAX,
            water == total_water(h, k as int),
            water >= 0,
        decreases n - k,
    {
        proof {
            lemma_water_at_nonneg(h, k as int);
            lemma_total_water_mono(h, k + 1, n as int);
        }
        let lm = left_max[k];
        let rm = right_max[k];
        let bound = if lm < rm {
            lm
        } else {
            rm
        };
        water = water + (bound - height[k]);
        k = k + 1;
    }
    water
}


/// Maximum value in the non-empty window `s[lo..hi)`.
pub open spec fn window_max(s: Seq<i32>, lo: int, hi: int) -> int
    decreases hi - lo,
{
    if hi - lo <= 1 {
        s[lo] as int
    } else {
        let m = window_max(s, lo, hi - 1);
        if s[hi - 1] > m {
            s[hi - 1] as int
        } else {
            m
        }
    }
}

/// Position of the last occurrence of the maximum in `s[lo..hi)`.
pub open spec fn last_argmax(s: Seq<i32>, lo: int, hi: int) -> int
    decreases hi - lo,
{
    if hi - lo <= 1 {
        lo
    } else {
        let rest = last_argmax(s, lo, hi - 1);
        if s[hi - 1] >= s[rest] {
            hi - 1
        } else {
            rest
        }
    }
}

proof fn lemma_window_max_ge(s: Seq<i32>, lo: int, hi: int, j: int)
    requires
        0 <= lo <= j < hi <= s.len(),
    ensures
        s[j] <= window_max(s, lo, hi),
    decreases hi - lo,
{
    if j < hi - 1 {
        lemma_window_max_ge(s, lo, hi - 1, j);
    }
}

proof fn lemma_last_argmax(s: Seq<i32>, lo: int, hi: int)
    requires
        0 <= lo < hi <= s.len(),
    ensures
        lo <= last_argmax(s, lo, hi) < hi,
        s[last_argmax(s, lo, hi)] == window_max(s, lo, hi),
        forall|m: int|
            last_argmax(s, lo, hi) < m < hi ==> #[trigger] s[m] < s[last_argmax(s, lo, hi)],
    decreases hi - lo,
{
    if hi - lo > 1 {
        lemma_last_argmax(s, lo, hi - 1);
    }
}

/// An index `j` that a monotonic deque keeps once the elements before
/// position `upto` have been seen, for window width `k`: it is inside
/// the reach of the next window, and no later element up to `upto`
/// matches or beats it.
spec fn deque_keeps(s: Seq<i32>, upto: int, k: int, j: int) -> bool {
    &&& 0 <= j < upto
    &&& upto - k <= j
    &&& forall|m: int| j < m < upto ==> s[m] < s[j]
}

/// Maximum of every window of `k` consecutive elements.  When the
/// window cannot fit even once (`k == 0`, an empty input, or `k`
/// larger than the input) the result is empty.
pub fn max_sliding_window(nums: &[i32], k: usize) -> (result: Vec<i32>)
    ensures
        k == 0 || nums@.len() < k ==> result@.len() == 0,
        1 <= k <= nums@.len() ==> result@.len() == nums@.len() - k + 1,
        forall|t: int|
            0 <= t < result@.len() ==> #[trigger] result@[t] == window_max(nums@, t, t + k),
{
    let n: usize = nums.len();
    if n == 0 || k == 0 {
        return Vec::new();
    }
    let ghost s = nums@;

    let mut result: Vec<i32> = Vec::new();
    let mut deque: Vec<usize> = Vec::new();

    let mut i: usize = 0;
    while i < n
        invariant
            s == nums@,
            0 <= i <= n == s.len(),
            k >= 1,
            forall|a: int, b: int| 0 <= a < b < deque@.len() ==> deque@[a] < deque@[b],
            forall|a: int|
                0 <= a < deque@.len() ==> deque_keeps(s, i as int, k as int, deque@[a] as int),
            forall|j: int|
                deque_keeps(s, i as int, k as int, j) ==> exists|a: int|
                    0 <= a < deque@.len() && deque@[a] == j,
            result@.len() == if i + 1 > k {
                i + 1 - k
            } else {
                0int
            },
            forall|t: int|
                0 <= t < result@.len() ==> #[trigger] result@[t] == window_max(s, t, t + k),
        decreases n - i,
    {
        // evict indices that have left the reach of the window ending at i
        while deque.len() > 0 && i >= k && deque[0] <= i - k
            invariant
                s == nums@,
                0 <= i < n == s.len(),
                k >= 1,
                forall|a: int, b: int| 0 <= a < b < deque@.len() ==> deque@[a] < deque@[b],
                forall|a: int|
                    0 <= a < deque@.len() ==> deque_keeps(s, i as int, k as int, deque@[a] as int),
                forall|j: int|
                    deque_keeps(s, i as int, k as int, j) && i + 1 - k <= j ==> exists|a: int|
                        0 <= a < deque@.len() && deque@[a] == j,
            decreases deque@.len(),
        {
            let ghost old_d = deque@;
            deque.remove(0);
            proof {
                assert(deque@ =~= old_d.subrange(1, old_d.len() as int));
                assert forall|j: int|
                    deque_keeps(s, i as int, k as int, j) && i + 1 - k <= j implies exists|a: int|
                    0 <= a < deque@.len() && deque@[a] == j by {
                    let a0 = choose|a: int| 0 <= a < old_d.len() && old_d[a] == j;
                    assert(a0 != 0);
                    assert(deque@[a0 - 1] == j);
                }
            }
        }

        proof {
            if deque@.len() > 0 {
                assert(deque@[0] as int + k >= i + 1);
            }
        }

        // evict back indices whose value is matched or beaten by nums[i]
        while deque.len() > 0 && nums[deque[deque.len() - 1]] <= nums[i]
            invariant
                s == nums@,
                0 <= i < n == s.len(),
                k >= 1,
                forall|a: int, b: int| 0 <= a < b < deque@.len() ==> deque@[a] < deque@[b],
                forall|a: int|
                    0 <= a < deque@.len() ==> deque_keeps(s, i as int, k as int, deque@[a] as int),
                forall|a: int| 0 <= a < deque@.len() ==> #[trigger] deque@[a] as int + k >= i + 1,
                forall|j: int|
                    deque_keeps(s, i as int, k as int, j) && i + 1 - k <= j && s[i as int] < s[j]
                        ==> exists|a: int| 0 <= a < deque@.len() && deque@[a] == j,
            decreases deque@.len(),
        {
            let ghost old_d = deque@;
            deque.pop();
            proof {
                assert(deque@ =~= old_d.drop_last());
                assert forall|j: int|
                    deque_keeps(s, i as int, k as int, j) && i + 1 - k <= j && s[i as int] < s[j]
                    implies exists|a: int| 0 <= a < deque@.len() && deque@[a] == j by {
                    let a0 = choose|a: int| 0 <= a < old_d.len() && old_d[a] == j;
                    assert(old_d[old_d.len() - 1] != j);
                    assert(a0 != old_d.len() - 1);
                    assert(deque@[a0] == j);
                }
            }
        }

        let ghost mid_d = deque@;
        deque.push(i);
        proof {
            // every kept index still beats nums[i], so all survive to i + 1
            assert forall|a: int|
                0 <= a < deque@.len() implies deque_keeps(s, i + 1, k as int, deque@[a] as int) by {
                if a < mid_d.len() {
                    let j = mid_d[a] as int;
                    if a < mid_d.len() - 1 {
                        let last = mid_d[mid_d.len() - 1] as int;
                        assert(deque_keeps(s, i as int, k as int, last));
                        assert(s[last] < s[j]);
                        assert(s[i as int] < s[j]);
                    } else {
                        assert(s[i as int] < s[j]);
                    }
                }
            }
            assert forall|j: int| #[trigger] deque_keeps(s, i + 1, k as int, j) implies exists|
                a: int,
            | 0 <= a < deque@.len() && deque@[a] == j by {
                if j == i as int {
                    assert(deque@[deque@.len() - 1] == j);
                } else {
                    assert(deque_keeps(s, i as int, k as int, j));
                    assert(s[i as int] < s[j]);
                    let a0 = choose|a: int| 0 <= a < mid_d.len() && mid_d[a] == j;
                    assert(deque@[a0] == j);
                }
            }
        }

        if i + 1 >= k {
            let ghost wlo = i + 1 - (k as int);
            proof {
                lemma_last_argmax(s, wlo, i + 1);
                let la = last_argmax(s, wlo, i + 1);
                assert(deque_keeps(s, i + 1, k as int, la));
                let a0 = choose|a: int| 0 <= a < deque@.len() && deque@[a] == la;
                let f = deque@[0] as int;
                if a0 != 0 {
                    assert(deque_keeps(s, i + 1, k as int, f));
                    assert(f < la);
                    assert(s[la] < s[f]);
                    lemma_window_max_ge(s, wlo, i + 1, f);
                    assert(false);
                }
                assert(s[f] == window_max(s, wlo, i + 1));
            }
            let front = deque[0];
            result.push(nums[front]);
            proof {
                assert forall|t: int|
                    0 <= t < result@.len() implies #[trigger] result@[t] == window_max(s, t, t + k)
                    by {
                    if t < result@.len() - 1 {
                        assert(result@[t] == result@.subrange(0, result@.len() - 1)[t]);
                    }
                }
            }
        }
        i = i + 1;
    }
    result
}


proof fn lemma_window_max_congruence(s1: Seq<i32>, s2: Seq<i32>, lo: int, hi: int)
    requires
        0 <= lo < hi <= s1.len(),
        hi <= s2.len(),
        forall|m: int| lo <= m < hi ==> s1[m] == s2[m],
    ensures
        window_max(s1, lo, hi) == window_max(s2, lo, hi),
    decreases hi - lo,
{
    if hi - lo > 1 {
        lemma_window_max_congruence(s1, s2, lo, hi - 1);
    }
}

/// Law: appending an element to the sequence leaves the maximum of
/// every window that was already complete unchanged, since such a
/// window never reaches the new element.
pub proof fn lemma_window_max_append(s: Seq<i32>, x: i32, k: int, t: int)
    requires
        1 <= k,
        0 <= t,
        t + k <= s.len(),
    ensures
        window_max(s.push(x), t, t + k) == window_max(s, t, t + k),
{
    lemma_window_max_congruence(s, s.push(x), t, t + k);
}

} // verus!
