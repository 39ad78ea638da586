//! Circular suffix arrays: the rotations of a byte buffer in lexicographic order.

use vstd::prelude::*;

verus! {

/// Byte `k` of the rotation of `s` that starts at index `i`.
pub open spec fn rot_byte(s: Seq<u8>, i: int, k: int) -> u8 {
    s[(i + k) % s.len() as int]
}

/// The rotations starting at `i` and at `j` agree on their first `d` bytes.
pub open spec fn rotations_agree(s: Seq<u8>, i: int, j: int, d: int) -> bool {
    forall|k: int|
        #![trigger rot_byte(s, i, k)]
        #![trigger rot_byte(s, j, k)]
        0 <= k < d ==> rot_byte(s, i, k) == rot_byte(s, j, k)
}

/// The rotation starting at `i` is lexicographically at most the one starting at `j`
/// (both read for `s.len()` bytes).
pub open spec fn rotation_le(s: Seq<u8>, i: int, j: int) -> bool {
    ||| rotations_agree(s, i, j, s.len() as int)
    ||| exists|d: int|
        0 <= d < s.len() && rotations_agree(s, i, j, d) && #[trigger] rot_byte(s, i, d) < rot_byte(
            s,
            j,
            d,
        )
}

/// `order` holds each index of `0..n` exactly once.
pub open spec fn is_index_permutation(order: Seq<usize>, n: int) -> bool {
    &&& order.len() == n
    &&& forall|k: int| 0 <= k < n ==> #[trigger] order[k] < n
    &&& forall|a: int, b: int| 0 <= a < n && 0 <= b < n && a != b ==> order[a] != order[b]
    &&& forall|x: usize| x < n ==> #[trigger] order.contains(x)
}

/// The rotations named by `order[lo..hi]` appear in lexicographic order.
pub open spec fn rotations_sorted(s: Seq<u8>, order: Seq<usize>, lo: int, hi: int) -> bool {
    forall|a: int, b: int|
        lo <= a < b < hi ==> rotation_le(s, #[trigger] order[a] as int, #[trigger] order[b] as int)
}

/// `order` is a circular suffix array of `s`: every rotation once, in lexicographic order.
pub open spec fn is_circular_suffix_array(s: Seq<u8>, order: Seq<usize>) -> bool {
    is_index_permutation(order, s.len() as int) && rotations_sorted(s, order, 0, s.len() as int)
}

/// The starting indices of the rotations of a buffer, smallest rotation first.
pub struct CircularSuffixArray(pub Vec<usize>);

/// Builds the circular suffix array of `input`.
pub fn create(input: &[u8]) -> (r: CircularSuffixArray)
    ensures
        is_circular_suffix_array(input@, r.0@),
{
    let n = input.len();
    let mut indexes: Vec<usize> = Vec::with_capacity(n);
    let mut i: usize = 0;
    while i < n
        invariant
            i <= n,
            n == input@.len(),
            indexes@.len() == i,
            forall|k: int| 0 <= k < i ==> indexes@[k] == k,
        decreases n - i,
    {
        indexes.push(i);
        i += 1;
    }
    proof {
        assert forall|x: usize| x < n implies #[trigger] indexes@.contains(x) by {
            assert(indexes@[x as int] == x);
        }
        assert forall|a: int, b: int| 0 <= a < n && 0 <= b < n implies rotations_agree(
            input@,
            indexes@[a] as int,
            indexes@[b] as int,
            0,
        ) by {}
    }
    three_way_circular_suffix_qsort(input, &mut indexes, 0, n, 0);
    CircularSuffixArray(indexes)
}

/// Byte `depth` of the rotation of `input` that starts at `start`.
fn rotation_byte(input: &[u8], start: usize, depth: usize) -> (r: u8)
    requires
        start < input@.len(),
        depth < input@.len(),
    ensures
        r == rot_byte(input@, start as int, depth as int),
{
    let n = input.len();
    proof {
        let m = n as int;
        let x = start as int + depth as int;
        if x >= m {
            vstd::arithmetic::div_mod::lemma_fundamental_div_mod(x, m);
            vstd::arithmetic::div_mod::lemma_small_mod((x - m) as nat, m as nat);
            assert(x % m == x - m) by (nonlinear_arith)
                requires
                    x == m * (x / m) + x % m,
                    0 <= x % m < m,
                    m <= x < 2 * m,
            {
                if x / m >= 2 {
                    assert(m * (x / m) >= 2 * m) by (nonlinear_arith)
                        requires x / m >= 2, m > 0;
                } else if x / m <= 0 {
                    assert(m * (x / m) <= 0) by (nonlinear_arith)
                        requires x / m <= 0, m > 0;
                }
            }
        } else {
            vstd::arithmetic::div_mod::lemma_small_mod(x as nat, m as nat);
        }
    }
    if start >= n - depth {
        input[start - (n - depth)]
    } else {
        input[start + depth]
    }
}

/// Swapping two entries keeps an index permutation one.
proof fn lemma_swap_keeps_permutation(v: Seq<usize>, i: int, j: int, n: int)
    requires
        0 <= i < v.len(),
        0 <= j < v.len(),
        is_index_permutation(v, n),
    ensures
        is_index_permutation(v.update(i, v[j]).update(j, v[i]), n),
{
    let w = v.update(i, v[j]).update(j, v[i]);
    assert forall|x: usize| x < n implies #[trigger] w.contains(x) by {
        assert(v.contains(x));
        let k = choose|k: int| 0 <= k < v.len() && v[k] == x;
        if k == i {
            assert(w[j] == x);
        } else if k == j {
            assert(w[i] == x);
        } else {
            assert(w[k] == x);
        }
    }
}

/// Swaps two entries of `v`.
pub(crate) fn swap_entries<T: Copy>(v: &mut Vec<T>, i: usize, j: usize)
    requires
        i < old(v)@.len(),
        j < old(v)@.len(),
    ensures
        final(v)@ == old(v)@.update(i as int, old(v)@[j as int]).update(j as int, old(v)@[i as int]),
{
    let a = v[i];
    let b = v[j];
    v.set(i, b);
    v.set(j, a);
}

/// `x` occurs in `v[lo..hi]`.
pub open spec fn in_segment(v: Seq<usize>, lo: int, hi: int, x: usize) -> bool {
    exists|k: int| lo <= k < hi && v[k] == x
}

/// Every entry of `new[lo..hi]` was somewhere in `old[lo..hi]`.
pub open spec fn drawn_from(new: Seq<usize>, old: Seq<usize>, lo: int, hi: int) -> bool {
    forall|k: int| lo <= k < hi ==> #[trigger] in_segment(old, lo, hi, new[k])
}

/// A segment is drawn from itself.
proof fn lemma_drawn_from_self(v: Seq<usize>, lo: int, hi: int)
    requires
        0 <= lo <= hi <= v.len(),
    ensures
        drawn_from(v, v, lo, hi),
{
    assert forall|k: int| lo <= k < hi implies #[trigger] in_segment(v, lo, hi, v[k]) by {
        assert(v[k] == v[k]);
    }
}

/// Three-way partition of `order[lo..hi]` by byte `depth` of each rotation, against the
/// rotation first in the segment: smaller bytes go to `[lo, lt)`, equal ones to
/// `[lt, gt)` and greater ones to `[gt, hi)`.
fn partition_at_depth(input: &[u8], order: &mut Vec<usize>, lo: usize, hi: usize, depth: usize) -> (r: (
    usize,
    usize,
))
    requires
        old(order)@.len() == input@.len(),
        lo < hi <= input@.len(),
        depth < input@.len(),
        forall|k: int| lo <= k < hi ==> #[trigger] old(order)@[k] < input@.len(),
        forall|k: int|
            lo <= k < hi ==> rotations_agree(
                input@,
                old(order)@[lo as int] as int,
                #[trigger] old(order)@[k] as int,
                depth as int,
            ),
    ensures
        final(order)@.len() == old(order)@.len(),
        forall|k: int|
            0 <= k < old(order)@.len() && !(lo <= k < hi) ==> #[trigger] final(order)@[k]
                == old(order)@[k],
        drawn_from(final(order)@, old(order)@, lo as int, hi as int),
        is_index_permutation(old(order)@, input@.len() as int) ==> is_index_permutation(
            final(order)@,
            input@.len() as int,
        ),
        lo <= r.0 < r.1 <= hi,
        forall|k: int| lo <= k < hi ==> #[trigger] final(order)@[k] < input@.len(),
        forall|k: int|
            lo <= k < hi ==> rotations_agree(
                input@,
                old(order)@[lo as int] as int,
                #[trigger] final(order)@[k] as int,
                depth as int,
            ),
        forall|k: int|
            lo <= k < r.0 ==> rot_byte(input@, #[trigger] final(order)@[k] as int, depth as int) < rot_byte(
                input@,
                old(order)@[lo as int] as int,
                depth as int,
            ),
        forall|k: int|
            r.0 <= k < r.1 ==> rot_byte(input@, #[trigger] final(order)@[k] as int, depth as int) == rot_byte(
                input@,
                old(order)@[lo as int] as int,
                depth as int,
            ),
        forall|k: int|
            r.1 <= k < hi ==> rot_byte(input@, #[trigger] final(order)@[k] as int, depth as int) > rot_byte(
                input@,
                old(order)@[lo as int] as int,
                depth as int,
            ),
{
    let ghost s = input@;
    let ghost n = s.len() as int;
    let ghost start = order@;
    let pivot_index = order[lo];
    let pivot_byte = rotation_byte(input, pivot_index, depth);
    let mut lt = lo;
    let mut i = lo + 1;
    let mut gt = hi;
    proof {
        lemma_drawn_from_self(start, lo as int, hi as int);
        assert forall|k: int| lo <= k < hi implies rotations_agree(s, pivot_index as int, #[trigger] order@[k] as int, depth as int) by {}
    }
    while i < gt
        invariant
            s == input@,
            n == s.len(),
            depth < n,
            lo < hi <= n,
            lo <= lt < i <= gt <= hi,
            order@.len() == n,
            pivot_index < n,
            pivot_byte == rot_byte(s, pivot_index as int, depth as int),
            forall|k: int| 0 <= k < n && !(lo <= k < hi) ==> #[trigger] order@[k] == start[k],
            drawn_from(order@, start, lo as int, hi as int),
            is_index_permutation(start, n) ==> is_index_permutation(order@, n),
            forall|k: int| lo <= k < hi ==> #[trigger] order@[k] < n,
            forall|k: int|
                lo <= k < hi ==> rotations_agree(
                    s,
                    pivot_index as int,
                    #[trigger] order@[k] as int,
                    depth as int,
                ),
            forall|k: int|
                lo <= k < lt ==> rot_byte(s, #[trigger] order@[k] as int, depth as int)
                    < pivot_byte,
            forall|k: int|
                lt <= k < i ==> rot_byte(s, #[trigger] order@[k] as int, depth as int)
                    == pivot_byte,
            forall|k: int|
                gt <= k < hi ==> rot_byte(s, #[trigger] order@[k] as int, depth as int)
                    > pivot_byte,
        decreases gt - i,
    {
        let b = rotation_byte(input, order[i], depth);
        let ghost before = order@;
        if b < pivot_byte {
            swap_entries(order, lt, i);
            proof {
                lemma_swap_drawn_from(before, start, lt as int, i as int, lo as int, hi as int);
                if is_index_permutation(start, n) {
                    lemma_swap_keeps_permutation(before, lt as int, i as int, n);
                }
            }
            lt += 1;
            i += 1;
        } else if b > pivot_byte {
            gt -= 1;
            swap_entries(order, i, gt);
            proof {
                lemma_swap_drawn_from(before, start, i as int, gt as int, lo as int, hi as int);
                if is_index_permutation(start, n) {
                    lemma_swap_keeps_permutation(before, i as int, gt as int, n);
                }
            }
        } else {
            i += 1;
        }
    }
    (lt, gt)
}

/// `x`'s rotation is at least that of each of `order[lo..hi]`.
pub open spec fn above_all(s: Seq<u8>, order: Seq<usize>, lo: int, hi: int, x: usize) -> bool {
    forall|a: int| lo <= a < hi ==> rotation_le(s, #[trigger] order[a] as int, x as int)
}

/// `x`'s rotation is at most that of each of `order[lo..hi]`.
pub open spec fn below_all(s: Seq<u8>, order: Seq<usize>, lo: int, hi: int, x: usize) -> bool {
    forall|b: int| lo <= b < hi ==> rotation_le(s, x as int, #[trigger] order[b] as int)
}

/// Sorts the rotations named by `order[lo..hi]`, all of which agree on their first
/// `depth` bytes: partitions by byte `depth`, sorts the smaller and the greater groups,
/// and goes on with the equal group one byte further, without recursing for it.
fn three_way_circular_suffix_qsort(
    input: &[u8],
    order: &mut Vec<usize>,
    seg_lo: usize,
    seg_hi: usize,
    seg_depth: usize,
)
    requires
        old(order)@.len() == input@.len(),
        seg_lo <= seg_hi <= input@.len(),
        forall|k: int| seg_lo <= k < seg_hi ==> #[trigger] old(order)@[k] < input@.len(),
        forall|a: int, b: int|
            seg_lo <= a < seg_hi && seg_lo <= b < seg_hi ==> rotations_agree(
                input@,
                #[trigger] old(order)@[a] as int,
                #[trigger] old(order)@[b] as int,
                seg_depth as int,
            ),
    ensures
        final(order)@.len() == old(order)@.len(),
        forall|k: int|
            0 <= k < old(order)@.len() && !(seg_lo <= k < seg_hi) ==> #[trigger] final(order)@[k]
                == old(order)@[k],
        drawn_from(final(order)@, old(order)@, seg_lo as int, seg_hi as int),
        is_index_permutation(old(order)@, input@.len() as int) ==> is_index_permutation(
            final(order)@,
            input@.len() as int,
        ),
        rotations_sorted(input@, final(order)@, seg_lo as int, seg_hi as int),
    decreases input@.len() - seg_depth, seg_hi - seg_lo,
{
    let ghost s = input@;
    let ghost n = s.len() as int;
    let ghost start = order@;
    let ghost lo0 = seg_lo as int;
    let ghost hi0 = seg_hi as int;
    let ghost depth0 = seg_depth as int;
    let mut lo = seg_lo;
    let mut hi = seg_hi;
    let mut depth = seg_depth;
    proof {
        lemma_drawn_from_self(start, lo0, hi0);
    }
    while hi - lo > 1 && depth < input.len()
        invariant
            s == input@,
            n == s.len(),
            order@.len() == n,
            lo0 == seg_lo,
            hi0 == seg_hi,
            depth0 == seg_depth,
            0 <= lo0 <= lo <= hi <= hi0 <= n,
            depth0 <= depth,
            depth == depth0 ==> lo == lo0 && hi == hi0,
            forall|k: int| 0 <= k < n && !(lo0 <= k < hi0) ==> #[trigger] order@[k] == start[k],
            drawn_from(order@, start, lo0, hi0),
            is_index_permutation(start, n) ==> is_index_permutation(order@, n),
            forall|k: int| lo0 <= k < hi0 ==> #[trigger] order@[k] < n,
            forall|a: int, b: int|
                lo <= a < hi && lo <= b < hi ==> rotations_agree(
                    s,
                    #[trigger] order@[a] as int,
                    #[trigger] order@[b] as int,
                    depth as int,
                ),
            rotations_sorted(s, order@, lo0, lo as int),
            rotations_sorted(s, order@, hi as int, hi0),
            forall|b: int| lo <= b < hi0 ==> #[trigger] above_all(s, order@, lo0, lo as int, order@[b]),
            forall|a: int| lo <= a < hi ==> #[trigger] below_all(s, order@, hi as int, hi0, order@[a]),
        decreases n - depth,
    {
        let ghost before = order@;
        let ghost pivot = before[lo as int] as int;
        proof {
            assert forall|k: int| lo <= k < hi implies rotations_agree(s, before[lo as int] as int, #[trigger] before[k] as int, depth as int) by {
                assert(rotations_agree(s, before[lo as int] as int, before[k] as int, depth as int));
            }
        }
        let (lt, gt) = partition_at_depth(input, order, lo, hi, depth);
        let ghost parted = order@;
        proof {
            assert forall|a: int, b: int| lo <= a < lt && lo <= b < lt implies rotations_agree(
                s,
                #[trigger] order@[a] as int,
                #[trigger] order@[b] as int,
                depth as int,
            ) by {
                assert(rotations_agree(s, pivot, order@[a] as int, depth as int));
                assert(rotations_agree(s, pivot, order@[b] as int, depth as int));
            }
        }
        assert(input@.len() - depth < input@.len() - depth0 || (depth == depth0 && lt - lo < hi0 - lo0));
        three_way_circular_suffix_qsort(input, order, lo, lt, depth);
        let ghost after_less = order@;
        proof {
            assert forall|a: int, b: int| gt <= a < hi && gt <= b < hi implies rotations_agree(
                s,
                #[trigger] order@[a] as int,
                #[trigger] order@[b] as int,
                depth as int,
            ) by {
                assert(order@[a] == parted[a]);
                assert(order@[b] == parted[b]);
                assert(rotations_agree(s, pivot, order@[a] as int, depth as int));
                assert(rotations_agree(s, pivot, order@[b] as int, depth as int));
            }
        }
        assert(input@.len() - depth < input@.len() - depth0 || (depth == depth0 && hi - gt < hi0 - lo0));
        three_way_circular_suffix_qsort(input, order, gt, hi, depth);
        proof {
            let cur = order@;
            assert forall|k: int| 0 <= k < n && !(lo <= k < hi) implies #[trigger] cur[k] == before[k] by {
                assert(parted[k] == before[k]);
                assert(after_less[k] == parted[k]);
                assert(cur[k] == after_less[k]);
            }
            assert(cur.len() == n && before.len() == n && after_less.len() == n && parted.len() == n);
            lemma_drawn_from_widen(after_less, parted, before, lo as int, lt as int, lo as int, hi as int);
            lemma_drawn_from_widen(cur, after_less, before, gt as int, hi as int, lo as int, hi as int);
            assert(0 <= lo0);
            assert(lo0 <= lo);
            assert(lo <= hi);
            assert(hi <= hi0);
            assert(hi0 <= before.len());
            assert(drawn_from(before, start, lo0, hi0));
            lemma_drawn_from_widen(cur, before, start, lo as int, hi as int, lo0, hi0);
            assert forall|k: int| lo0 <= k < hi0 implies #[trigger] cur[k] < n by {
                if lo <= k < hi {
                    assert(in_segment(before, lo as int, hi as int, cur[k]));
                    let k2 = choose|k2: int| lo <= k2 < hi && before[k2] == cur[k];
                    assert(before[k2] < n);
                } else {
                    assert(cur[k] == before[k]);
                }
            }
            // what each group holds, after its sort
            assert forall|k: int| lo <= k < lt implies rot_byte(s, #[trigger] cur[k] as int, depth as int)
                < rot_byte(s, pivot, depth as int) && rotations_agree(s, pivot, cur[k] as int, depth as int)
                && in_segment(before, lo as int, hi as int, cur[k]) by {
                assert(in_segment(parted, lo as int, lt as int, after_less[k]));
                let k2 = choose|k2: int| lo <= k2 < lt && parted[k2] == after_less[k];
                assert(after_less[k] == cur[k]);
                assert(in_segment(before, lo as int, hi as int, parted[k2]));
            }
            assert forall|k: int| lt <= k < gt implies rot_byte(s, #[trigger] cur[k] as int, depth as int)
                == rot_byte(s, pivot, depth as int) && rotations_agree(s, pivot, cur[k] as int, depth as int)
                && in_segment(before, lo as int, hi as int, cur[k]) by {
                assert(cur[k] == parted[k]);
                assert(in_segment(before, lo as int, hi as int, parted[k]));
            }
            assert forall|k: int| gt <= k < hi implies rot_byte(s, #[trigger] cur[k] as int, depth as int)
                > rot_byte(s, pivot, depth as int) && rotations_agree(s, pivot, cur[k] as int, depth as int)
                && in_segment(before, lo as int, hi as int, cur[k]) by {
                assert(in_segment(after_less, gt as int, hi as int, cur[k]));
                let k2 = choose|k2: int| gt <= k2 < hi && after_less[k2] == cur[k];
                assert(after_less[k2] == parted[k2]);
                assert(in_segment(before, lo as int, hi as int, parted[k2]));
            }
            // the equal group agrees one byte further
            assert forall|a: int, b: int| lt <= a < gt && lt <= b < gt implies rotations_agree(
                s,
                #[trigger] cur[a] as int,
                #[trigger] cur[b] as int,
                depth + 1,
            ) by {
                assert(rotations_agree(s, pivot, cur[a] as int, depth as int));
                assert(rotations_agree(s, pivot, cur[b] as int, depth as int));
            }
            // the sorted prefix grows by the smaller group
            assert forall|a: int, b: int| lo0 <= a < b < lt implies rotation_le(
                s,
                #[trigger] cur[a] as int,
                #[trigger] cur[b] as int,
            ) by {
                if b < lo {
                    assert(cur[a] == before[a] && cur[b] == before[b]);
                } else if a < lo {
                    let b2 = choose|b2: int| lo <= b2 < hi && before[b2] == cur[b];
                    assert(above_all(s, before, lo0, lo as int, before[b2]));
                    assert(cur[a] == before[a]);
                } else {
                    assert(cur[a] == after_less[a] && cur[b] == after_less[b]);
                }
            }
            // the sorted suffix grows by the greater group
            assert forall|a: int, b: int| gt <= a < b < hi0 implies rotation_le(
                s,
                #[trigger] cur[a] as int,
                #[trigger] cur[b] as int,
            ) by {
                if a >= hi {
                    assert(cur[a] == before[a] && cur[b] == before[b]);
                } else if b >= hi {
                    let a2 = choose|a2: int| lo <= a2 < hi && before[a2] == cur[a];
                    assert(below_all(s, before, hi as int, hi0, before[a2]));
                    assert(cur[b] == before[b]);
                }
            }
            assert forall|b: int| lt <= b < hi0 implies #[trigger] above_all(s, cur, lo0, lt as int, cur[b]) by {
                assert forall|a: int| lo0 <= a < lt implies rotation_le(s, #[trigger] cur[a] as int, cur[b] as int) by {
                    if a < lo {
                        assert(cur[a] == before[a]);
                        if b < hi {
                            let b2 = choose|b2: int| lo <= b2 < hi && before[b2] == cur[b];
                            assert(above_all(s, before, lo0, lo as int, before[b2]));
                        } else {
                            assert(cur[b] == before[b]);
                            assert(above_all(s, before, lo0, lo as int, before[b]));
                        }
                    } else if b < hi {
                        let x = cur[a] as int;
                        let y = cur[b] as int;
                        assert(rotations_agree(s, pivot, x, depth as int));
                        assert(rotations_agree(s, pivot, y, depth as int));
                        assert(rotations_agree(s, x, y, depth as int));
                        assert(rot_byte(s, x, depth as int) < rot_byte(s, y, depth as int));
                    } else {
                        let a2 = choose|a2: int| lo <= a2 < hi && before[a2] == cur[a];
                        assert(below_all(s, before, hi as int, hi0, before[a2]));
                        assert(cur[b] == before[b]);
                    }
                }
            }
            assert forall|a: int| lt <= a < gt implies #[trigger] below_all(s, cur, gt as int, hi0, cur[a]) by {
                assert forall|b: int| gt <= b < hi0 implies rotation_le(s, cur[a] as int, #[trigger] cur[b] as int) by {
                    if b < hi {
                        let x = cur[a] as int;
                        let y = cur[b] as int;
                        assert(rotations_agree(s, pivot, x, depth as int));
                        assert(rotations_agree(s, pivot, y, depth as int));
                        assert(rotations_agree(s, x, y, depth as int));
                        assert(rot_byte(s, x, depth as int) < rot_byte(s, y, depth as int));
                    } else {
                        let a2 = choose|a2: int| lo <= a2 < hi && before[a2] == cur[a];
                        assert(below_all(s, before, hi as int, hi0, before[a2]));
                        assert(cur[b] == before[b]);
                    }
                }
            }
        }
        lo = lt;
        hi = gt;
        depth = depth + 1;
    }
    proof {
        assert forall|a: int, b: int| lo0 <= a < b < hi0 implies rotation_le(
            s,
            #[trigger] order@[a] as int,
            #[trigger] order@[b] as int,
        ) by {
            if a < lo && b >= lo {
                assert(above_all(s, order@, lo0, lo as int, order@[b]));
            } else if a >= lo && a < hi && b >= hi {
                assert(below_all(s, order@, hi as int, hi0, order@[a]));
            } else if a >= lo && b < hi {
                assert(rotations_agree(s, order@[a] as int, order@[b] as int, depth as int));
            }
        }
    }
}

/// Swapping two entries inside `[lo, hi)` keeps the segment drawn from `start`.
proof fn lemma_swap_drawn_from(v: Seq<usize>, start: Seq<usize>, i: int, j: int, lo: int, hi: int)
    requires
        0 <= lo <= i < hi,
        lo <= j < hi,
        hi <= v.len(),
        drawn_from(v, start, lo, hi),
    ensures
        drawn_from(v.update(i, v[j]).update(j, v[i]), start, lo, hi),
{
    let w = v.update(i, v[j]).update(j, v[i]);
    assert forall|k: int| lo <= k < hi implies #[trigger] in_segment(start, lo, hi, w[k]) by {
        if k == i {
            assert(in_segment(start, lo, hi, v[j]));
        } else if k == j {
            assert(in_segment(start, lo, hi, v[i]));
        } else {
            assert(in_segment(start, lo, hi, v[k]));
        }
    }
}

/// A rearrangement of an inner segment, drawn from a middle state that was itself
/// drawn from `start`, leaves the outer segment drawn from `start`.
proof fn lemma_drawn_from_widen(
    new: Seq<usize>,
    mid: Seq<usize>,
    start: Seq<usize>,
    ilo: int,
    ihi: int,
    lo: int,
    hi: int,
)
    requires
        0 <= lo <= ilo <= ihi <= hi <= mid.len(),
        new.len() == mid.len(),
        drawn_from(new, mid, ilo, ihi),
        forall|k: int| 0 <= k < mid.len() && !(ilo <= k < ihi) ==> #[trigger] new[k] == mid[k],
        drawn_from(mid, start, lo, hi),
    ensures
        drawn_from(new, start, lo, hi),
{
    assert forall|k: int| lo <= k < hi implies #[trigger] in_segment(start, lo, hi, new[k]) by {
        if ilo <= k < ihi {
            assert(in_segment(mid, ilo, ihi, new[k]));
            let k2 = choose|k2: int| ilo <= k2 < ihi && mid[k2] == new[k];
            assert(in_segment(start, lo, hi, mid[k2]));
        } else {
            assert(new[k] == mid[k]);
            assert(in_segment(start, lo, hi, mid[k]));
        }
    }
}

} // verus!
