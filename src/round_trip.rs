//! The Burrows-Wheeler transform is undone by its inverse: the stable rank of each row of
//! the last column is a row holding the rotation one position earlier, so the walk the
//! inverse takes visits the rotations at 1, 2, 3, ... and reads the buffer back in order.

use vstd::prelude::*;
use crate::move_to_front::{decoded_with, encoded_with, identity_alphabet};
use crate::circular_suffix_array::{rot_byte, rotation_le, rotations_agree, is_circular_suffix_array, is_index_permutation};
use crate::burrows_wheeler_transform::{
    count_below, decoded, header_of, inverse_of, is_encoding_of, is_transform_of, last_column,
    occurrences, pow256, stable_rank, successor, walk, DecodeError, HEADER_LEN,
};

verus! {

/// The rotations starting at `x` and `y` are equal.
pub open spec fn same_rotation(s: Seq<u8>, x: int, y: int) -> bool {
    rotations_agree(s, x, y, s.len() as int)
}

/// The rotation starting at `x` is smaller than the one starting at `y`.
pub open spec fn rotation_lt(s: Seq<u8>, x: int, y: int) -> bool {
    rotation_le(s, x, y) && !same_rotation(s, x, y)
}

proof fn lemma_mod_shift(x: int, k: int, n: int)
    requires
        n > 0,
    ensures
        (x + n + k) % n == (x + k) % n,
        ((x % n) + k) % n == (x + k) % n,
{
    vstd::arithmetic::div_mod::lemma_mod_add_multiples_vanish(x + k, n);
    assert(x + n + k == (x + k) + n);
    vstd::arithmetic::div_mod::lemma_add_mod_noop(x, k, n);
    vstd::arithmetic::div_mod::lemma_mod_twice(x, n);
    vstd::arithmetic::div_mod::lemma_add_mod_noop(x % n, k, n);
}

proof fn lemma_first_difference(s: Seq<u8>, x: int, y: int, m: int)
    requires
        0 <= m,
        !rotations_agree(s, x, y, m),
    ensures
        exists|d: int| 0 <= d < m && rotations_agree(s, x, y, d) && #[trigger] rot_byte(s, x, d) != rot_byte(s, y, d),
    decreases m,
{
    if rotations_agree(s, x, y, m - 1) {
        assert(rot_byte(s, x, m - 1) != rot_byte(s, y, m - 1));
    } else {
        lemma_first_difference(s, x, y, m - 1);
        let d = choose|d: int| 0 <= d < m - 1 && rotations_agree(s, x, y, d) && #[trigger] rot_byte(s, x, d) != rot_byte(s, y, d);
        assert(0 <= d < m && rotations_agree(s, x, y, d) && rot_byte(s, x, d) != rot_byte(s, y, d));
    }
}

proof fn lemma_total(s: Seq<u8>, x: int, y: int)
    ensures
        rotation_le(s, x, y) || rotation_le(s, y, x),
{
    let n = s.len() as int;
    if !rotations_agree(s, x, y, n) {
        lemma_first_difference(s, x, y, n);
        let d = choose|d: int| 0 <= d < n && rotations_agree(s, x, y, d) && #[trigger] rot_byte(s, x, d) != rot_byte(s, y, d);
        if rot_byte(s, x, d) < rot_byte(s, y, d) {
            assert(rotation_le(s, x, y));
        } else {
            assert(rotations_agree(s, y, x, d));
            assert(rotation_le(s, y, x));
        }
    }
}

proof fn lemma_antisymmetric(s: Seq<u8>, x: int, y: int)
    requires
        rotation_le(s, x, y),
        rotation_le(s, y, x),
    ensures
        same_rotation(s, x, y),
{
    let n = s.len() as int;
    if !same_rotation(s, x, y) {
        let d1 = choose|d: int| 0 <= d < n && rotations_agree(s, x, y, d) && #[trigger] rot_byte(s, x, d) < rot_byte(s, y, d);
        if !same_rotation(s, y, x) {
            let d2 = choose|d: int| 0 <= d < n && rotations_agree(s, y, x, d) && #[trigger] rot_byte(s, y, d) < rot_byte(s, x, d);
            if d1 < d2 {
                assert(rot_byte(s, y, d1) == rot_byte(s, x, d1));
            } else if d2 < d1 {
                assert(rot_byte(s, x, d2) == rot_byte(s, y, d2));
            }
        } else {
            assert(rot_byte(s, y, d1) == rot_byte(s, x, d1));
        }
    }
}

proof fn lemma_transitive(s: Seq<u8>, x: int, y: int, z: int)
    requires
        rotation_le(s, x, y),
        rotation_le(s, y, z),
    ensures
        rotation_le(s, x, z),
        rotation_lt(s, x, y) || rotation_lt(s, y, z) ==> rotation_lt(s, x, z),
{
    let n = s.len() as int;
    if same_rotation(s, x, y) {
        if same_rotation(s, y, z) {
            assert(same_rotation(s, x, z));
        } else {
            let d = choose|d: int| 0 <= d < n && rotations_agree(s, y, z, d) && #[trigger] rot_byte(s, y, d) < rot_byte(s, z, d);
            assert(rot_byte(s, x, d) == rot_byte(s, y, d));
            assert(rotations_agree(s, x, z, d));
            if same_rotation(s, x, z) {
                assert(rot_byte(s, x, d) == rot_byte(s, z, d));
            }
        }
    } else {
        let d1 = choose|d: int| 0 <= d < n && rotations_agree(s, x, y, d) && #[trigger] rot_byte(s, x, d) < rot_byte(s, y, d);
        if same_rotation(s, y, z) {
            assert(rot_byte(s, y, d1) == rot_byte(s, z, d1));
            assert(rotations_agree(s, x, z, d1));
            assert(rot_byte(s, x, d1) < rot_byte(s, z, d1));
        } else {
            let d2 = choose|d: int| 0 <= d < n && rotations_agree(s, y, z, d) && #[trigger] rot_byte(s, y, d) < rot_byte(s, z, d);
            let d = if d1 <= d2 { d1 } else { d2 };
            assert(rotations_agree(s, x, z, d));
            assert(rot_byte(s, x, d) < rot_byte(s, z, d));
        }
        assert(rot_byte(s, x, d1) != rot_byte(s, y, d1));
    }
    if rotation_lt(s, x, y) || rotation_lt(s, y, z) {
        if same_rotation(s, x, z) {
            // then y sits between two equal rotations
            lemma_total(s, y, x);
            assert(rotation_le(s, z, x));
            lemma_transitive_le(s, y, z, x);
            lemma_transitive_le(s, z, x, y);
            lemma_antisymmetric(s, x, y);
            lemma_antisymmetric(s, y, z);
        }
    }
}

proof fn lemma_transitive_le(s: Seq<u8>, x: int, y: int, z: int)
    requires
        rotation_le(s, x, y),
        rotation_le(s, y, z),
    ensures
        rotation_le(s, x, z),
{
    let n = s.len() as int;
    if same_rotation(s, x, y) {
        if !same_rotation(s, y, z) {
            let d = choose|d: int| 0 <= d < n && rotations_agree(s, y, z, d) && #[trigger] rot_byte(s, y, d) < rot_byte(s, z, d);
            assert(rot_byte(s, x, d) == rot_byte(s, y, d));
            assert(rotations_agree(s, x, z, d));
        } else {
            assert(same_rotation(s, x, z));
        }
    } else {
        let d1 = choose|d: int| 0 <= d < n && rotations_agree(s, x, y, d) && #[trigger] rot_byte(s, x, d) < rot_byte(s, y, d);
        if same_rotation(s, y, z) {
            assert(rot_byte(s, y, d1) == rot_byte(s, z, d1));
            assert(rotations_agree(s, x, z, d1));
        } else {
            let d2 = choose|d: int| 0 <= d < n && rotations_agree(s, y, z, d) && #[trigger] rot_byte(s, y, d) < rot_byte(s, z, d);
            let d = if d1 <= d2 { d1 } else { d2 };
            assert(rotations_agree(s, x, z, d));
            assert(rot_byte(s, x, d) < rot_byte(s, z, d));
        }
    }
}

/// Rotations agree once shifted back by one.
proof fn lemma_step_back(s: Seq<u8>, x: int, k: int)
    requires
        s.len() > 0,
    ensures
        rot_byte(s, x - 1, k + 1) == rot_byte(s, x, k),
        rot_byte(s, x, s.len() - 1) == rot_byte(s, x - 1, 0),
{
    assert(x - 1 + (k + 1) == x + k);
    lemma_mod_shift(x - 1, 0, s.len() as int);
    assert(x + (s.len() - 1) == (x - 1) + s.len() + 0);
}

proof fn lemma_same_back(s: Seq<u8>, x: int, y: int)
    requires
        s.len() > 0,
    ensures
        same_rotation(s, x, y) <==> same_rotation(s, x - 1, y - 1),
{
    let n = s.len() as int;
    if same_rotation(s, x, y) {
        assert forall|k: int| 0 <= k < n implies #[trigger] rot_byte(s, x - 1, k) == rot_byte(s, y - 1, k) by {
            if k == 0 {
                lemma_step_back(s, x, 0);
                lemma_step_back(s, y, 0);
            } else {
                lemma_step_back(s, x, k - 1);
                lemma_step_back(s, y, k - 1);
            }
        }
    }
    if same_rotation(s, x - 1, y - 1) {
        assert forall|k: int| 0 <= k < n implies #[trigger] rot_byte(s, x, k) == rot_byte(s, y, k) by {
            lemma_step_back(s, x, k);
            lemma_step_back(s, y, k);
            if k == n - 1 {
                assert(rot_byte(s, x - 1, 0) == rot_byte(s, y - 1, 0));
            } else {
                assert(rot_byte(s, x - 1, k + 1) == rot_byte(s, y - 1, k + 1));
            }
        }
    }
}

/// With equal first bytes, comparing two rotations shifted back by one compares the rotations.
proof fn lemma_lt_back(s: Seq<u8>, x: int, y: int)
    requires
        s.len() > 0,
        rot_byte(s, x - 1, 0) == rot_byte(s, y - 1, 0),
    ensures
        rotation_lt(s, x, y) <==> rotation_lt(s, x - 1, y - 1),
{
    let n = s.len() as int;
    lemma_same_back(s, x, y);
    if rotation_lt(s, x, y) {
        let d = choose|d: int| 0 <= d < n && rotations_agree(s, x, y, d) && #[trigger] rot_byte(s, x, d) < rot_byte(s, y, d);
        lemma_step_back(s, x, n - 1);
        lemma_step_back(s, y, n - 1);
        assert(d != n - 1);
        assert forall|k: int| 0 <= k < d + 1 implies #[trigger] rot_byte(s, x - 1, k) == rot_byte(s, y - 1, k) by {
            if k > 0 {
                lemma_step_back(s, x, k - 1);
                lemma_step_back(s, y, k - 1);
            }
        }
        lemma_step_back(s, x, d);
        lemma_step_back(s, y, d);
        assert(rotations_agree(s, x - 1, y - 1, d + 1));
        assert(rot_byte(s, x - 1, d + 1) < rot_byte(s, y - 1, d + 1));
    }
    if rotation_lt(s, x - 1, y - 1) {
        let d = choose|d: int| 0 <= d < n && rotations_agree(s, x - 1, y - 1, d) && #[trigger] rot_byte(s, x - 1, d) < rot_byte(s, y - 1, d);
        assert(d != 0);
        assert forall|k: int| 0 <= k < d - 1 implies #[trigger] rot_byte(s, x, k) == rot_byte(s, y, k) by {
            lemma_step_back(s, x, k);
            lemma_step_back(s, y, k);
            assert(rot_byte(s, x - 1, k + 1) == rot_byte(s, y - 1, k + 1));
        }
        lemma_step_back(s, x, d - 1);
        lemma_step_back(s, y, d - 1);
        assert(rotations_agree(s, x, y, d - 1));
        assert(rot_byte(s, x, d - 1) < rot_byte(s, y, d - 1));
    }
}

/// A smaller first byte makes a smaller rotation; a smaller rotation has no larger first byte.
proof fn lemma_first_byte(s: Seq<u8>, x: int, y: int)
    requires
        s.len() > 0,
    ensures
        rot_byte(s, x, 0) < rot_byte(s, y, 0) ==> rotation_lt(s, x, y),
        rotation_le(s, x, y) ==> rot_byte(s, x, 0) <= rot_byte(s, y, 0),
{
    let n = s.len() as int;
    if rot_byte(s, x, 0) < rot_byte(s, y, 0) {
        assert(rotations_agree(s, x, y, 0));
    }
    if rotation_le(s, x, y) && !same_rotation(s, x, y) {
        let d = choose|d: int| 0 <= d < n && rotations_agree(s, x, y, d) && #[trigger] rot_byte(s, x, d) < rot_byte(s, y, d);
        if d > 0 {
            assert(rot_byte(s, x, 0) == rot_byte(s, y, 0));
        }
    }
}

/// Rotations starting at positions equal modulo the length are equal.
proof fn lemma_same_mod(s: Seq<u8>, x: int)
    requires
        s.len() > 0,
    ensures
        same_rotation(s, x % (s.len() as int), x),
{
    let n = s.len() as int;
    assert forall|k: int| 0 <= k < n implies #[trigger] rot_byte(s, x % n, k) == rot_byte(s, x, k) by {
        lemma_mod_shift(x, k, n);
    }
}

/// The number of `k` in `0..m` for which `f` holds.
pub open spec fn count_where(m: int, f: spec_fn(int) -> bool) -> nat {
    Set::new(|k: int| 0 <= k < m && f(k)).len()
}

proof fn lemma_count_finite(m: int, f: spec_fn(int) -> bool)
    requires
        m >= 0,
    ensures
        Set::new(|k: int| 0 <= k < m && f(k)).finite(),
        count_where(m, f) <= m,
{
    vstd::set_lib::lemma_int_range(0, m);
    assert(Set::new(|k: int| 0 <= k < m && f(k)).subset_of(vstd::set_lib::set_int_range(0, m)));
    vstd::set_lib::lemma_len_subset(Set::new(|k: int| 0 <= k < m && f(k)), vstd::set_lib::set_int_range(0, m));
}

proof fn lemma_count_mono(m: int, f: spec_fn(int) -> bool, g: spec_fn(int) -> bool)
    requires
        m >= 0,
        forall|k: int| 0 <= k < m && #[trigger] f(k) ==> g(k),
    ensures
        count_where(m, f) <= count_where(m, g),
{
    lemma_count_finite(m, g);
    vstd::set_lib::lemma_len_subset(Set::new(|k: int| 0 <= k < m && f(k)), Set::new(|k: int| 0 <= k < m && g(k)));
}

proof fn lemma_count_split(m: int, f: spec_fn(int) -> bool, g: spec_fn(int) -> bool, h: spec_fn(int) -> bool)
    requires
        m >= 0,
        forall|k: int| 0 <= k < m ==> !(#[trigger] f(k) && g(k)),
        forall|k: int| 0 <= k < m ==> #[trigger] h(k) == (f(k) || g(k)),
    ensures
        count_where(m, h) == count_where(m, f) + count_where(m, g),
{
    let a = Set::new(|k: int| 0 <= k < m && f(k));
    let b = Set::new(|k: int| 0 <= k < m && g(k));
    lemma_count_finite(m, f);
    lemma_count_finite(m, g);
    assert(a.disjoint(b));
    vstd::set_lib::lemma_set_disjoint_lens(a, b);
    assert(a + b =~= Set::new(|k: int| 0 <= k < m && h(k)));
}

proof fn lemma_count_same(m: int, f: spec_fn(int) -> bool, g: spec_fn(int) -> bool)
    requires
        forall|k: int| 0 <= k < m ==> #[trigger] f(k) == g(k),
    ensures
        count_where(m, f) == count_where(m, g),
{
    assert(Set::new(|k: int| 0 <= k < m && f(k)) =~= Set::new(|k: int| 0 <= k < m && g(k)));
}

/// A predicate that holds of a row holds of every earlier row holds exactly below its count.
proof fn lemma_count_threshold(m: int, f: spec_fn(int) -> bool, r: int)
    requires
        0 <= r < m,
        forall|a: int, b: int| 0 <= a < b < m && #[trigger] f(b) ==> #[trigger] f(a),
    ensures
        f(r) ==> r < count_where(m, f),
        !f(r) ==> count_where(m, f) <= r,
{
    lemma_count_finite(m, f);
    let sf = Set::new(|k: int| 0 <= k < m && f(k));
    if f(r) {
        vstd::set_lib::lemma_int_range(0, r + 1);
        assert(vstd::set_lib::set_int_range(0, r + 1).subset_of(sf));
        vstd::set_lib::lemma_len_subset(vstd::set_lib::set_int_range(0, r + 1), sf);
    } else {
        vstd::set_lib::lemma_int_range(0, r);
        assert(sf.subset_of(vstd::set_lib::set_int_range(0, r))) by {
            assert forall|k: int| sf.contains(k) implies vstd::set_lib::set_int_range(0, r).contains(k) by {
                if k >= r {
                    if k > r {
                        assert(f(k));
                    }
                }
            }
        }
        vstd::set_lib::lemma_len_subset(sf, vstd::set_lib::set_int_range(0, r));
    }
}

/// Counting over a permutation of `0..m` counts the same.
proof fn lemma_count_permuted(m: int, f: spec_fn(int) -> bool, sigma: spec_fn(int) -> int, fs: spec_fn(int) -> bool)
    requires
        m >= 0,
        forall|i: int| 0 <= i < m ==> 0 <= #[trigger] sigma(i) < m,
        forall|i: int, j: int| 0 <= i < m && 0 <= j < m && i != j ==> #[trigger] sigma(i) != #[trigger] sigma(j),
        forall|i: int| 0 <= i < m ==> #[trigger] fs(i) == f(sigma(i)),
    ensures
        count_where(m, fs) == count_where(m, f),
{
    let a = Set::new(|k: int| 0 <= k < m && fs(k));
    let b = Set::new(|k: int| 0 <= k < m && f(k));
    lemma_count_finite(m, fs);
    assert(vstd::relations::injective_on(sigma, a)) by {
        assert forall|x: int, y: int| a.contains(x) && a.contains(y) && #[trigger] sigma(x) == #[trigger] sigma(y) implies x == y by {}
    }
    assert(a.map(sigma) =~= b) by {
        assert forall|p: int| b.contains(p) implies a.map(sigma).contains(p) by {
            crate::burrows_wheeler_transform::lemma_injective_onto(sigma, m, p);
            let i = choose|i: int| 0 <= i < m && #[trigger] sigma(i) == p;
            assert(a.contains(i));
        }
        assert forall|p: int| a.map(sigma).contains(p) implies b.contains(p) by {
            let i = choose|i: int| a.contains(i) && sigma(i) == p;
        }
    }
    vstd::set_lib::lemma_map_size(a, b, sigma);
}

proof fn lemma_occurrences_count(t: Seq<u8>, c: int, m: int)
    requires
        0 <= m <= t.len(),
    ensures
        occurrences(t, c, m) == count_where(m, |k: int| t[k] as int == c),
    decreases m,
{
    let f = |k: int| t[k] as int == c;
    if m == 0 {
        assert(Set::new(|k: int| 0 <= k < m && f(k)) =~= Set::<int>::empty());
    } else {
        lemma_occurrences_count(t, c, m - 1);
        lemma_count_finite(m - 1, f);
        let prev = Set::new(|k: int| 0 <= k < m - 1 && f(k));
        if f(m - 1) {
            assert(Set::new(|k: int| 0 <= k < m && f(k)) =~= prev.insert(m - 1));
        } else {
            assert(Set::new(|k: int| 0 <= k < m && f(k)) =~= prev);
        }
    }
}

proof fn lemma_below_count(t: Seq<u8>, c: int, m: int)
    requires
        0 <= m <= t.len(),
    ensures
        count_below(t, c, m) == count_where(m, |k: int| (t[k] as int) < c),
    decreases m,
{
    let f = |k: int| (t[k] as int) < c;
    if m == 0 {
        assert(Set::new(|k: int| 0 <= k < m && f(k)) =~= Set::<int>::empty());
    } else {
        lemma_below_count(t, c, m - 1);
        lemma_count_finite(m - 1, f);
        let prev = Set::new(|k: int| 0 <= k < m - 1 && f(k));
        if f(m - 1) {
            assert(Set::new(|k: int| 0 <= k < m && f(k)) =~= prev.insert(m - 1));
        } else {
            assert(Set::new(|k: int| 0 <= k < m && f(k)) =~= prev);
        }
    }
}

/// Byte `i` of the last column is the first byte of the rotation one before row `i`'s.
proof fn lemma_last_column_byte(s: Seq<u8>, order: Seq<usize>, i: int)
    requires
        s.len() > 0,
        0 <= i < order.len(),
    ensures
        last_column(s, order)[i] == rot_byte(s, order[i] - 1, 0),
{
    lemma_mod_shift(order[i] - 1, 0, s.len() as int);
    assert(order[i] + s.len() - 1 == (order[i] - 1) + s.len() + 0);
}

proof fn lemma_same_le(s: Seq<u8>, x: int, y: int)
    requires
        same_rotation(s, x, y),
    ensures
        rotation_le(s, x, y),
        rotation_le(s, y, x),
        same_rotation(s, y, x),
{
    assert(rotations_agree(s, y, x, s.len() as int));
}

proof fn lemma_same_trans(s: Seq<u8>, x: int, y: int, z: int)
    requires
        same_rotation(s, x, y),
        same_rotation(s, y, z),
    ensures
        same_rotation(s, x, z),
{
}

/// A row's stable rank in the last column is a row whose rotation starts one position
/// before that row's rotation.
proof fn lemma_rank_row(s: Seq<u8>, order: Seq<usize>, j: int)
    requires
        0 < s.len() <= usize::MAX,
        is_circular_suffix_array(s, order),
        0 <= j < s.len(),
    ensures
        0 <= stable_rank(last_column(s, order), j) < s.len(),
        same_rotation(s, order[stable_rank(last_column(s, order), j)] as int, order[j] - 1),
{
    let n = s.len() as int;
    let t = last_column(s, order);
    let c = t[j] as int;
    let y = order[j] - 1;
    let rk = stable_rank(t, j);
    crate::burrows_wheeler_transform::lemma_stable_rank(t, j, j);
    assert(is_index_permutation(order, n));
    assert forall|i: int| 0 <= i < n implies #[trigger] t[i] == rot_byte(s, order[i] - 1, 0) by {
        lemma_last_column_byte(s, order, i);
    }
    let sigma = |i: int| (choose|r: int| 0 <= r < n && order[r] == ((order[i] + n - 1) % n) as usize);
    assert forall|i: int| 0 <= i < n implies 0 <= #[trigger] sigma(i) < n && order[sigma(i)] as int == (order[i] - 1) % n by {
        let v = ((order[i] + n - 1) % n) as usize;
        lemma_mod_shift(order[i] - 1, 0, n);
        assert(order[i] + n - 1 == (order[i] - 1) + n + 0);
        assert(order.contains(v));
    }
    assert forall|i: int, i2: int| 0 <= i < n && 0 <= i2 < n && i != i2 implies #[trigger] sigma(i) != #[trigger] sigma(i2) by {
        if sigma(i) == sigma(i2) {
            let a = order[i] as int;
            let b = order[i2] as int;
            assert((a - 1) % n == (b - 1) % n);
            vstd::arithmetic::div_mod::lemma_fundamental_div_mod(a - 1, n);
            vstd::arithmetic::div_mod::lemma_fundamental_div_mod(b - 1, n);
            if a == 0 || b == 0 {
                vstd::arithmetic::div_mod::lemma_fundamental_div_mod_converse(-1, n, -1, n - 1);
                if a != 0 {
                    vstd::arithmetic::div_mod::lemma_small_mod((a - 1) as nat, n as nat);
                }
                if b != 0 {
                    vstd::arithmetic::div_mod::lemma_small_mod((b - 1) as nat, n as nat);
                }
            } else {
                vstd::arithmetic::div_mod::lemma_small_mod((a - 1) as nat, n as nat);
                vstd::arithmetic::div_mod::lemma_small_mod((b - 1) as nat, n as nat);
            }
        }
    }
    // each row's rotation, and the rotation one before it
    assert forall|i: int| 0 <= i < n implies #[trigger] same_rotation(s, order[sigma(i)] as int, order[i] - 1) by {
        lemma_same_mod(s, order[i] - 1);
    }
    let f_lt = |r: int| rotation_lt(s, order[r] as int, y);
    let f_le = |r: int| rotation_le(s, order[r] as int, y);
    let g_lt = |i: int| rotation_lt(s, order[i] - 1, y);
    let g_le = |i: int| rotation_le(s, order[i] - 1, y);
    // rows below a smaller (or not larger) rotation are too
    assert forall|a: int, b: int| 0 <= a < b < n && #[trigger] f_lt(b) implies #[trigger] f_lt(a) by {
        lemma_transitive(s, order[a] as int, order[b] as int, y);
    }
    assert forall|a: int, b: int| 0 <= a < b < n && #[trigger] f_le(b) implies #[trigger] f_le(a) by {
        lemma_transitive_le(s, order[a] as int, order[b] as int, y);
    }
    // count over the rotations one before each row instead
    assert forall|i: int| 0 <= i < n implies #[trigger] g_lt(i) == f_lt(sigma(i)) by {
        let a = order[sigma(i)] as int;
        let b = order[i] - 1;
        lemma_same_le(s, a, b);
        if rotation_lt(s, a, y) {
            lemma_transitive(s, b, a, y);
        }
        if rotation_lt(s, b, y) {
            lemma_transitive(s, a, b, y);
        }
    }
    assert forall|i: int| 0 <= i < n implies #[trigger] g_le(i) == f_le(sigma(i)) by {
        let a = order[sigma(i)] as int;
        let b = order[i] - 1;
        lemma_same_le(s, a, b);
        if rotation_le(s, a, y) {
            lemma_transitive_le(s, b, a, y);
        }
        if rotation_le(s, b, y) {
            lemma_transitive_le(s, a, b, y);
        }
    }
    lemma_count_permuted(n, f_lt, sigma, g_lt);
    lemma_count_permuted(n, f_le, sigma, g_le);
    // smaller rotations come from smaller bytes, or equal bytes in earlier rows
    let h_below = |i: int| (t[i] as int) < c;
    let h_before = |i: int| t[i] as int == c && i < j;
    let h_upto = |i: int| t[i] as int == c && i <= j;
    let h_lt = |i: int| h_below(i) || h_before(i);
    let h_le = |i: int| h_below(i) || h_upto(i);
    assert forall|i: int| 0 <= i < n && #[trigger] g_lt(i) implies h_lt(i) by {
        lemma_first_byte(s, order[i] - 1, y);
        if t[i] as int == c {
            lemma_lt_back(s, order[i] as int, order[j] as int);
            if i >= j {
                if i > j {
                    assert(rotation_le(s, order[j] as int, order[i] as int));
                    lemma_antisymmetric(s, order[i] as int, order[j] as int);
                }
            }
        }
    }
    assert forall|i: int| 0 <= i < n && #[trigger] h_le(i) implies g_le(i) by {
        if h_below(i) {
            lemma_first_byte(s, order[i] - 1, y);
        } else {
            if i < j {
                assert(rotation_le(s, order[i] as int, order[j] as int));
            } else {
                assert(rotations_agree(s, order[i] as int, order[j] as int, n));
            }
            lemma_same_back(s, order[i] as int, order[j] as int);
            lemma_lt_back(s, order[i] as int, order[j] as int);
        }
    }
    lemma_count_mono(n, g_lt, h_lt);
    lemma_count_mono(n, h_le, g_le);
    lemma_count_split(n, h_below, h_before, h_lt);
    lemma_count_split(n, h_below, h_upto, h_le);
    lemma_below_count(t, c, n);
    lemma_occurrences_count(t, c, j);
    lemma_occurrences_count(t, c, j + 1);
    assert(count_where(n, h_before) == count_where(j, |k: int| t[k] as int == c)) by {
        assert(Set::new(|k: int| 0 <= k < n && h_before(k)) =~= Set::new(|k: int| 0 <= k < j && (|k: int| t[k] as int == c)(k)));
    }
    assert(count_where(n, h_upto) == count_where(j + 1, |k: int| t[k] as int == c)) by {
        assert(Set::new(|k: int| 0 <= k < n && h_upto(k)) =~= Set::new(|k: int| 0 <= k < j + 1 && (|k: int| t[k] as int == c)(k)));
    }
    assert(occurrences(t, c, j + 1) == occurrences(t, c, j) + 1);
    lemma_count_threshold(n, f_lt, rk);
    lemma_count_threshold(n, f_le, rk);
}

/// Inverting the transform of a buffer gives the buffer back.
pub proof fn lemma_inverse_undoes_transform(s: Seq<u8>, first: int, t: Seq<u8>)
    requires
        s.len() <= usize::MAX,
        is_transform_of(s, first, t),
    ensures
        inverse_of(first, t) == s,
{
    let order = choose|order: Seq<usize>|
        #[trigger] is_circular_suffix_array(s, order) && 0 <= first < s.len() && order[first] == 0
            && t == last_column(s, order);
    let n = s.len() as int;
    assert forall|m: int| 0 <= m < n implies #[trigger] inverse_of(first, t)[m] == s[m] by {
        lemma_walk_rows(s, order, first, m as nat);
        let r = walk(t, first, m as nat);
        lemma_last_column_byte(s, order, r);
        lemma_step_back(s, order[r] as int, n - 1);
        assert(rot_byte(s, order[r] as int, n - 1) == rot_byte(s, m + 1, n - 1));
        lemma_mod_shift(m, 0, n);
        assert(m + 1 + (n - 1) == m + n + 0);
        vstd::arithmetic::div_mod::lemma_small_mod(m as nat, n as nat);
    }
    assert(inverse_of(first, t) =~= s);
}

/// After `m + 1` steps from the row of the unrotated buffer, the walk is at a row whose
/// rotation starts at `m + 1`.
proof fn lemma_walk_rows(s: Seq<u8>, order: Seq<usize>, first: int, m: nat)
    requires
        s.len() <= usize::MAX,
        is_circular_suffix_array(s, order),
        0 <= first < s.len(),
        order[first] == 0,
    ensures
        0 <= walk(last_column(s, order), first, m) < s.len(),
        same_rotation(s, order[walk(last_column(s, order), first, m)] as int, m as int + 1),
    decreases m,
{
    let t = last_column(s, order);
    let n = s.len() as int;
    let from = if m == 0 { first } else { walk(t, first, (m - 1) as nat) };
    if m > 0 {
        lemma_walk_rows(s, order, first, (m - 1) as nat);
    }
    crate::burrows_wheeler_transform::lemma_successor(t, from);
    let j = successor(t, from);
    assert(walk(t, first, m) == j);
    lemma_rank_row(s, order, j);
    // the rotation at `from` starts one before row `j`'s
    if m == 0 {
        assert(same_rotation(s, 0, order[j] - 1));
        lemma_same_back(s, 1, order[j] as int);
        assert(same_rotation(s, 1, order[j] as int)) by {
            assert(0 == 1 - 1);
        }
        lemma_same_le(s, 1, order[j] as int);
    } else {
        lemma_same_le(s, order[from] as int, order[j] - 1);
        lemma_same_trans(s, order[j] - 1, order[from] as int, m as int);
        lemma_same_back(s, order[j] as int, m as int + 1);
    }
}

/// Decoding the bytes that encode a buffer gives the buffer back; the empty buffer
/// encodes to, and decodes from, no bytes at all.
pub proof fn lemma_decode_encode(s: Seq<u8>, e: Seq<u8>)
    requires
        s.len() <= usize::MAX,
        is_encoding_of(s, e),
    ensures
        decoded(e) == Ok::<Seq<u8>, DecodeError>(s),
{
    if s.len() == 0 {
        assert(s =~= Seq::<u8>::empty());
    } else {
        let first = choose|first: int|
            #![trigger is_transform_of(s, first, e.subrange(HEADER_LEN as int, e.len() as int))]
            is_transform_of(s, first, e.subrange(HEADER_LEN as int, e.len() as int)) && e
                == header_of(first as nat) + e.subrange(HEADER_LEN as int, e.len() as int);
        let rest = e.subrange(HEADER_LEN as int, e.len() as int);
        let order = choose|order: Seq<usize>|
            #[trigger] is_circular_suffix_array(s, order) && 0 <= first < s.len() && order[first] == 0
                && rest == last_column(s, order);
        assert(rest.len() == s.len());
        assert(pow256(8) == 0x1_0000_0000_0000_0000) by {
            reveal_with_fuel(pow256, 9);
        }
        crate::burrows_wheeler_transform::lemma_le_digits_round_trip(first as nat, HEADER_LEN as nat);
        assert(e.subrange(0, HEADER_LEN as int) =~= header_of(first as nat));
        lemma_inverse_undoes_transform(s, first, rest);
    }
}

/// The whole front end round-trips: move-to-front coding the transform's framed bytes,
/// then decoding both stages in reverse order, gives the buffer back.
pub proof fn lemma_pipeline_round_trip(s: Seq<u8>, e: Seq<u8>)
    requires
        s.len() <= usize::MAX,
        is_encoding_of(s, e),
    ensures
        decoded(decoded_with(identity_alphabet(), encoded_with(identity_alphabet(), e))) == Ok::<Seq<u8>, DecodeError>(s),
{
    crate::move_to_front::lemma_round_trip(e);
    lemma_decode_encode(s, e);
}

} // verus!
