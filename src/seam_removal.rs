//! Removing a seam's pixels from an image buffer in place.

use vstd::prelude::*;
use crate::circular_suffix_array::swap_entries;

verus! {

/// Where the run of kept entries that follows removed index `rm[k]` ends.
pub open spec fn run_end(rm: Seq<usize>, len: int, k: int) -> int {
    if k + 1 < rm.len() {
        rm[k + 1] as int
    } else {
        len
    }
}

/// `rm` lists indexes in increasing order, none past `len`.
pub open spec fn is_removal_list(rm: Seq<usize>, len: int) -> bool {
    &&& forall|i: int, j: int| 0 <= i < j < rm.len() ==> rm[i] < rm[j]
    &&& forall|i: int| 0 <= i < rm.len() ==> #[trigger] rm[i] <= len
}

proof fn lemma_gaps(rm: Seq<usize>, len: int, i: int, j: int)
    requires
        is_removal_list(rm, len),
        0 <= i <= j < rm.len(),
    ensures
        rm[j] >= rm[i] + (j - i),
    decreases j - i,
{
    if i < j {
        lemma_gaps(rm, len, i, j - 1);
    }
}

/// For each index `A` of `to_remove` into `slice`, set `slice[A] = slice[A + 1]`: every
/// entry that is not removed moves down by the number of removed indexes below it, and
/// entries below the first removed index stay. The last `to_remove.len()` items in
/// `slice` hold junk after this. Runs in linear time.
pub fn lazy_remove_indexes_of<A: Copy>(slice: &mut Vec<A>, to_remove: &Vec<usize>)
    requires
        is_removal_list(to_remove@, old(slice)@.len() as int),
    ensures
        final(slice)@.len() == old(slice)@.len(),
        forall|i: int|
            0 <= i < old(slice)@.len() && (to_remove@.len() == 0 || i < to_remove@[0]) ==> #[trigger] final(slice)@[i]
                == old(slice)@[i],
        forall|k: int, idx: int|
            0 <= k < to_remove@.len() && to_remove@[k] < idx < run_end(to_remove@, old(slice)@.len() as int, k)
                ==> #[trigger] final(slice)@[idx - k - 1] == #[trigger] old(slice)@[idx],
{
    let ghost s = slice@;
    let ghost rm = to_remove@;
    let ghost len = s.len() as int;
    let mut offset: usize = 0;
    while offset < to_remove.len()
        invariant
            s == old(slice)@,
            rm == to_remove@,
            len == s.len(),
            slice@.len() == len,
            is_removal_list(rm, len),
            offset <= rm.len(),
            forall|i: int| 0 <= i < len && (rm.len() == 0 || i < rm[0]) ==> #[trigger] slice@[i] == s[i],
            forall|p: int| offset < rm.len() && rm[offset as int] <= p < len ==> #[trigger] slice@[p] == s[p],
            forall|k: int, idx: int|
                0 <= k < offset && rm[k] < idx < run_end(rm, len, k) ==> #[trigger] slice@[idx - k - 1] == #[trigger] s[idx],
        decreases rm.len() - offset,
    {
        let start = to_remove[offset];
        let finish = if offset < to_remove.len() - 1 {
            to_remove[offset + 1]
        } else {
            slice.len()
        };
        proof {
            lemma_gaps(rm, len, 0, offset as int);
        }
        let mut idx = if start < finish {
            start + 1
        } else {
            finish
        };
        while idx < finish
            invariant
                s == old(slice)@,
                rm == to_remove@,
                len == s.len(),
                slice@.len() == len,
                is_removal_list(rm, len),
                offset < rm.len(),
                start == rm[offset as int],
                finish == run_end(rm, len, offset as int),
                start >= offset,
                start + 1 <= idx || idx == finish,
                idx <= finish,
                finish <= len,
                forall|i: int| 0 <= i < len && i < rm[0] ==> #[trigger] slice@[i] == s[i],
                forall|p: int| idx <= p < len ==> #[trigger] slice@[p] == s[p],
                forall|k: int, i2: int|
                    0 <= k < offset && rm[k] < i2 < run_end(rm, len, k) ==> #[trigger] slice@[i2 - k - 1] == #[trigger] s[i2],
                forall|i2: int| start < i2 < idx ==> #[trigger] slice@[i2 - offset - 1] == s[i2],
            decreases finish - idx,
        {
            let src = idx;
            let dst = idx - offset - 1;
            let ghost before = slice@;
            // move element at src to dst; we don't care about what happens to the dst element, which we're deleting
            swap_entries(slice, src, dst);
            proof {
                lemma_gaps(rm, len, 0, offset as int);
                assert forall|k: int, i2: int|
                    0 <= k < offset && rm[k] < i2 < run_end(rm, len, k) implies #[trigger] slice@[i2 - k - 1] == #[trigger] s[i2] by {
                    lemma_gaps(rm, len, 0, k);
                    lemma_gaps(rm, len, k + 1, offset as int);
                    assert(before[i2 - k - 1] == s[i2]);
                    assert(i2 - k - 1 < dst);
                }
            }
            idx += 1;
        }
        proof {
            assert forall|p: int| offset + 1 < rm.len() && rm[offset + 1] <= p < len implies #[trigger] slice@[p] == s[p] by {
                assert(finish == rm[offset + 1]);
            }
        }
        offset += 1;
    }
}

} // verus!
