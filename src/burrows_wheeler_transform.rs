//! The Burrows-Wheeler transform and its inverse, with the byte framing that
//! stores the row of the unrotated buffer ahead of the transformed bytes.

use vstd::prelude::*;
use crate::circular_suffix_array::{create, is_circular_suffix_array, is_index_permutation, CircularSuffixArray};
use itertools::Itertools;

verus! {

/// Number of bytes of the header that holds the row of the unrotated buffer.
pub const HEADER_LEN: usize = 8;

/// Why a framed buffer could not be decoded.
#[derive(Debug, PartialEq, Eq, Structural, Clone, Copy)]
pub enum DecodeError {
    /// Fewer bytes than a header, but not none.
    TruncatedHeader,
    /// The header holds a number that does not fit in a `usize`.
    HeaderOutOfRange,
    /// The header names a row past the end of the transformed bytes.
    RowOutOfRange,
}

/// The byte that precedes the rotation starting at `i`.
pub open spec fn preceding_byte(s: Seq<u8>, i: int) -> u8 {
    s[(i + s.len() - 1) % (s.len() as int)]
}

/// The last column of the sorted rotation matrix that `order` describes.
pub open spec fn last_column(s: Seq<u8>, order: Seq<usize>) -> Seq<u8> {
    Seq::new(order.len(), |k: int| preceding_byte(s, order[k] as int))
}

/// `256^k`.
pub open spec fn pow256(k: nat) -> nat
    decreases k,
{
    if k == 0 {
        1
    } else {
        256 * pow256((k - 1) as nat)
    }
}

/// The `k` least significant base-256 digits of `x`, least significant first.
pub open spec fn le_digits(x: nat, k: nat) -> Seq<u8>
    decreases k,
{
    if k == 0 {
        Seq::empty()
    } else {
        seq![(x % 256) as u8] + le_digits(x / 256, (k - 1) as nat)
    }
}

/// The number whose base-256 digits, least significant first, are `b`.
pub open spec fn from_le(b: Seq<u8>) -> nat
    decreases b.len(),
{
    if b.len() == 0 {
        0
    } else {
        b[0] as nat + 256 * from_le(b.drop_first())
    }
}

/// The header for row `first`.
pub open spec fn header_of(first: nat) -> Seq<u8> {
    le_digits(first, HEADER_LEN as nat)
}

/// Reading back the digits of a number that has that many of them gives the number.
pub proof fn lemma_le_digits_round_trip(x: nat, k: nat)
    requires
        x < pow256(k),
    ensures
        from_le(le_digits(x, k)) == x,
        le_digits(x, k).len() == k,
    decreases k,
{
    if k > 0 {
        let rest = le_digits(x / 256, (k - 1) as nat);
        assert(x / 256 < pow256((k - 1) as nat)) by (nonlinear_arith)
            requires
                x < 256 * pow256((k - 1) as nat),
        ;
        lemma_le_digits_round_trip(x / 256, (k - 1) as nat);
        assert((seq![(x % 256) as u8] + rest).drop_first() =~= rest);
        assert(x == x % 256 + 256 * (x / 256)) by (nonlinear_arith);
    }
}

/// `le_digits(x, k)` has `k` digits.
pub(crate) proof fn lemma_le_digits_len(x: nat, k: nat)
    ensures
        le_digits(x, k).len() == k,
    decreases k,
{
    if k > 0 {
        lemma_le_digits_len(x / 256, (k - 1) as nat);
    }
}

/// A number written with `k` digits is below `256^k`.
proof fn lemma_from_le_bound(b: Seq<u8>)
    ensures
        from_le(b) < pow256(b.len()),
    decreases b.len(),
{
    if b.len() > 0 {
        lemma_from_le_bound(b.drop_first());
        let r = from_le(b.drop_first());
        let p = pow256((b.len() - 1) as nat);
        assert(b[0] as nat + 256 * r < 256 * p) by (nonlinear_arith)
            requires
                r < p,
                b[0] < 256,
        ;
    }
}

/// Appends the header for `n` to `output`.
pub fn write_usize(n: usize, output: &mut Vec<u8>)
    ensures
        final(output)@ == old(output)@ + header_of(n as nat),
{
    let ghost start = old(output)@;
    let mut rest: u64 = n as u64;
    let mut k: usize = 0;
    while k < HEADER_LEN
        invariant
            k <= HEADER_LEN,
            output@ + le_digits(rest as nat, (HEADER_LEN - k) as nat) == start + header_of(
                n as nat,
            ),
        decreases HEADER_LEN - k,
    {
        let ghost before = output@;
        let ghost digits = le_digits(rest as nat, (HEADER_LEN - k) as nat);
        output.push((rest % 256) as u8);
        proof {
            let tail = le_digits((rest / 256) as nat, (HEADER_LEN - k - 1) as nat);
            assert(digits == seq![(rest % 256) as u8] + tail);
            assert(output@ + tail =~= before + digits);
        }
        rest = rest / 256;
        k += 1;
    }
    assert(output@ + le_digits(rest as nat, 0) =~= output@);
}

/// Reads the header at the start of `input`.
pub fn read_usize(input: &[u8]) -> (r: Result<usize, DecodeError>)
    ensures
        input@.len() < HEADER_LEN ==> r == Err::<usize, DecodeError>(DecodeError::TruncatedHeader),
        input@.len() >= HEADER_LEN ==> match r {
            Ok(v) => v as nat == from_le(input@.subrange(0, HEADER_LEN as int)),
            Err(e) => e == DecodeError::HeaderOutOfRange && from_le(
                input@.subrange(0, HEADER_LEN as int),
            ) > usize::MAX,
        },
{
    if input.len() < HEADER_LEN {
        return Err(DecodeError::TruncatedHeader);
    }
    let ghost header = input@.subrange(0, HEADER_LEN as int);
    let mut value: u64 = 0;
    let mut k: usize = HEADER_LEN;
    while k > 0
        invariant
            k <= HEADER_LEN <= input@.len(),
            header == input@.subrange(0, HEADER_LEN as int),
            value as nat == from_le(header.subrange(k as int, HEADER_LEN as int)),
            value < pow256((HEADER_LEN - k) as nat),
        decreases k,
    {
        let ghost tail = header.subrange(k as int, HEADER_LEN as int);
        let ghost longer = header.subrange(k - 1, HEADER_LEN as int);
        proof {
            assert(longer.drop_first() =~= tail);
            lemma_from_le_bound(longer);
            assert(longer.len() == HEADER_LEN - (k - 1));
            assert(pow256((HEADER_LEN - k) as nat) <= pow256(7)) by {
                lemma_pow256_monotone((HEADER_LEN - k) as nat, 7);
            }
            assert(pow256(7) == 0x100_0000_0000_0000) by {
                reveal_with_fuel(pow256, 8);
            }
            assert(value * 256 + 255 < 0x1_0000_0000_0000_0000) by (nonlinear_arith)
                requires
                    value < 0x100_0000_0000_0000,
            ;
        }
        value = value * 256 + input[k - 1] as u64;
        k -= 1;
    }
    assert(header.subrange(0, HEADER_LEN as int) =~= header);
    if value > usize::MAX as u64 {
        Err(DecodeError::HeaderOutOfRange)
    } else {
        Ok(value as usize)
    }
}

/// `256^a <= 256^b` when `a <= b`.
proof fn lemma_pow256_monotone(a: nat, b: nat)
    requires
        a <= b,
    ensures
        pow256(a) <= pow256(b),
    decreases b,
{
    if a < b {
        lemma_pow256_monotone(a, (b - 1) as nat);
    }
}

/// Number of positions `i < m` with `t[i] == c`.
pub open spec fn occurrences(t: Seq<u8>, c: int, m: int) -> nat
    decreases m,
{
    if m <= 0 {
        0
    } else {
        occurrences(t, c, m - 1) + if t[m - 1] as int == c {
            1nat
        } else {
            0nat
        }
    }
}

/// Number of positions `i < m` with `t[i] < c`.
pub open spec fn count_below(t: Seq<u8>, c: int, m: int) -> nat
    decreases m,
{
    if m <= 0 {
        0
    } else {
        count_below(t, c, m - 1) + if (t[m - 1] as int) < c {
            1nat
        } else {
            0nat
        }
    }
}

/// Where a stable sort of `t` puts the byte at position `j`: after every smaller byte
/// and after every equal byte that comes before it.
pub open spec fn stable_rank(t: Seq<u8>, j: int) -> int {
    (count_below(t, t[j] as int, t.len() as int) + occurrences(t, t[j] as int, j)) as int
}

/// The position of `t` whose byte a stable sort puts at `k`.
pub open spec fn successor(t: Seq<u8>, k: int) -> int {
    choose|j: int| 0 <= j < t.len() && stable_rank(t, j) == k
}

/// The row reached after `m + 1` steps along `successor` from row `first`.
pub open spec fn walk(t: Seq<u8>, first: int, m: nat) -> int
    decreases m,
{
    if m == 0 {
        successor(t, first)
    } else {
        successor(t, walk(t, first, (m - 1) as nat))
    }
}

/// The buffer that the inverse transform rebuilds from row `first` and last column `t`.
pub open spec fn inverse_of(first: int, t: Seq<u8>) -> Seq<u8> {
    Seq::new(t.len(), |m: int| t[walk(t, first, m as nat)])
}

proof fn lemma_occurrences_bound(t: Seq<u8>, c: int, m: int)
    requires
        0 <= m <= t.len(),
    ensures
        occurrences(t, c, m) <= m,
        count_below(t, c, m) <= m,
        count_below(t, c + 1, m) == count_below(t, c, m) + occurrences(t, c, m),
    decreases m,
{
    if m > 0 {
        lemma_occurrences_bound(t, c, m - 1);
    }
}

pub(crate) proof fn lemma_occurrences_monotone(t: Seq<u8>, c: int, a: int, b: int)
    requires
        0 <= a <= b <= t.len(),
    ensures
        occurrences(t, c, a) <= occurrences(t, c, b),
        a < b && t[a] as int == c ==> occurrences(t, c, a) < occurrences(t, c, b),
    decreases b - a,
{
    if a < b {
        lemma_occurrences_monotone(t, c, a, b - 1);
        if t[a] as int == c && a == b - 1 {
        }
    }
}

proof fn lemma_count_below_monotone(t: Seq<u8>, c: int, d: int, m: int)
    requires
        c <= d,
        0 <= m <= t.len(),
    ensures
        count_below(t, c, m) <= count_below(t, d, m),
        c < d ==> count_below(t, c, m) + occurrences(t, c, m) <= count_below(t, d, m),
    decreases m,
{
    if m > 0 {
        lemma_count_below_monotone(t, c, d, m - 1);
    }
}

/// The stable rank of a position lies in range and no two positions share it.
pub(crate) proof fn lemma_stable_rank(t: Seq<u8>, i: int, j: int)
    requires
        0 <= i < t.len(),
        0 <= j < t.len(),
    ensures
        0 <= stable_rank(t, i) < t.len(),
        i != j ==> stable_rank(t, i) != stable_rank(t, j),
        t[i] < t[j] ==> stable_rank(t, i) < stable_rank(t, j),
{
    let n = t.len() as int;
    let ci = t[i] as int;
    let cj = t[j] as int;
    lemma_occurrences_monotone(t, ci, i, n);
    lemma_occurrences_bound(t, ci, n);
    lemma_count_below_monotone(t, ci + 1, 256, n);
    lemma_all_below(t, n);
    lemma_occurrences_monotone(t, cj, j, n);
    if ci < cj {
        lemma_count_below_monotone(t, ci, cj, n);
    } else if cj < ci {
        lemma_count_below_monotone(t, cj, ci, n);
    } else if i < j {
        lemma_occurrences_monotone(t, ci, i, j);
    } else if j < i {
        lemma_occurrences_monotone(t, ci, j, i);
    }
}

/// No byte is below zero.
proof fn lemma_count_below_zero(t: Seq<u8>, m: int)
    requires
        0 <= m <= t.len(),
    ensures
        count_below(t, 0, m) == 0,
    decreases m,
{
    if m > 0 {
        lemma_count_below_zero(t, m - 1);
    }
}

/// Every byte is below 256.
proof fn lemma_all_below(t: Seq<u8>, m: int)
    requires
        0 <= m <= t.len(),
    ensures
        count_below(t, 256, m) == m,
    decreases m,
{
    if m > 0 {
        lemma_all_below(t, m - 1);
    }
}

/// A map from `0..n` into `0..n` that is one-to-one reaches every value.
pub(crate) proof fn lemma_injective_onto(f: spec_fn(int) -> int, n: int, k: int)
    requires
        0 <= k < n,
        forall|i: int| 0 <= i < n ==> 0 <= #[trigger] f(i) < n,
        forall|i: int, j: int| 0 <= i < n && 0 <= j < n && i != j ==> #[trigger] f(i) != #[trigger] f(j),
    ensures
        exists|j: int| 0 <= j < n && #[trigger] f(j) == k,
{
    let dom = vstd::set_lib::set_int_range(0, n);
    vstd::set_lib::lemma_int_range(0, n);
    let img = dom.map(f);
    assert(vstd::relations::injective_on(f, dom)) by {
        assert forall|x: int, y: int| dom.contains(x) && dom.contains(y) && #[trigger] f(x) == #[trigger] f(y) implies x == y by {}
    }
    vstd::set_lib::lemma_map_size(dom, img, f);
    assert(img.subset_of(dom)) by {
        assert forall|y: int| img.contains(y) implies dom.contains(y) by {
            let x = choose|x: int| dom.contains(x) && f(x) == y;
        }
    }
    vstd::set_lib::lemma_subset_equality(img, dom);
    assert(dom.contains(k));
    assert(img.contains(k));
    let j = choose|j: int| dom.contains(j) && f(j) == k;
    assert(0 <= j < n && f(j) == k);
}

/// Every row has exactly one position whose stable rank it is, and that is its successor.
pub(crate) proof fn lemma_successor(t: Seq<u8>, k: int)
    requires
        0 <= k < t.len(),
    ensures
        0 <= successor(t, k) < t.len(),
        stable_rank(t, successor(t, k)) == k,
        forall|j: int| 0 <= j < t.len() && stable_rank(t, j) == k ==> j == successor(t, k),
{
    let n = t.len() as int;
    let f = |j: int| stable_rank(t, j);
    assert forall|i: int| 0 <= i < n implies 0 <= #[trigger] f(i) < n by {
        lemma_stable_rank(t, i, i);
    }
    assert forall|i: int, j: int| 0 <= i < n && 0 <= j < n && i != j implies #[trigger] f(i) != #[trigger] f(j) by {
        lemma_stable_rank(t, i, j);
    }
    lemma_injective_onto(f, n, k);
    let w = choose|j: int| 0 <= j < n && #[trigger] f(j) == k;
    assert(0 <= w < n && stable_rank(t, w) == k);
    assert forall|j: int| 0 <= j < t.len() && stable_rank(t, j) == k implies j == successor(t, k) by {
        if j != successor(t, k) {
            lemma_stable_rank(t, j, successor(t, k));
        }
    }
}

/// Key-indexed counting over the byte alphabet: entry `k` of the result is the
/// position of `t` whose byte a stable sort puts at `k`.
fn successor_table(t: &[u8]) -> (next: Vec<usize>)
    ensures
        next@.len() == t@.len(),
        forall|k: int| 0 <= k < t@.len() ==> #[trigger] next@[k] as int == successor(t@, k),
{
    let n = t.len();
    let ghost s = t@;
    let mut count: Vec<usize> = vec![0usize; 257];
    let mut i: usize = 0;
    while i < n
        invariant
            n == s.len(),
            s == t@,
            i <= n,
            count@.len() == 257,
            count@[0] == 0,
            forall|c: int| 0 <= c < 256 ==> #[trigger] count@[c + 1] == occurrences(s, c, i as int),
        decreases n - i,
    {
        let c = t[i] as usize;
        proof {
            lemma_occurrences_bound(s, c as int, i as int);
        }
        count.set(c + 1, count[c + 1] + 1);
        i += 1;
    }
    proof {
        lemma_count_below_zero(s, n as int);
        assert forall|c: int| 0 < c <= 256 implies #[trigger] count@[c] == occurrences(s, c - 1, n as int) by {
            assert(count@[(c - 1) + 1] == occurrences(s, c - 1, n as int));
        }
    }
    let mut r: usize = 0;
    while r < 256
        invariant
            n == s.len(),
            s == t@,
            r <= 256,
            count@.len() == 257,
            forall|c: int| 0 <= c <= r ==> #[trigger] count@[c] == count_below(s, c, n as int),
            forall|c: int| r < c <= 256 ==> #[trigger] count@[c] == occurrences(s, c - 1, n as int),
        decreases 256 - r,
    {
        proof {
            lemma_occurrences_bound(s, r as int, n as int);
            lemma_count_below_monotone(s, r as int + 1, 256, n as int);
            lemma_all_below(s, n as int);
        }
        count.set(r + 1, count[r + 1] + count[r]);
        r += 1;
    }
    let mut next: Vec<usize> = vec![0usize; n];
    let mut i: usize = 0;
    while i < n
        invariant
            n == s.len(),
            s == t@,
            i <= n,
            count@.len() == 257,
            next@.len() == n,
            forall|c: int|
                0 <= c < 256 ==> #[trigger] count@[c] == count_below(s, c, n as int) + occurrences(
                    s,
                    c,
                    i as int,
                ),
            forall|j: int| 0 <= j < i ==> #[trigger] next@[stable_rank(s, j)] == j,
        decreases n - i,
    {
        let c = t[i] as usize;
        proof {
            lemma_stable_rank(s, i as int, i as int);
            assert forall|j: int| 0 <= j < i implies stable_rank(s, j) != stable_rank(s, i as int) by {
                lemma_stable_rank(s, i as int, j);
            }
        }
        let dest = count[c];
        assert(dest as int == stable_rank(s, i as int));
        let ghost before = next@;
        next.set(dest, i);
        proof {
            assert forall|j: int| 0 <= j < i + 1 implies #[trigger] next@[stable_rank(s, j)] == j by {
                lemma_stable_rank(s, i as int, j);
                lemma_stable_rank(s, j, j);
                if j < i {
                    assert(before[stable_rank(s, j)] == j);
                    assert(next@[stable_rank(s, j)] == before[stable_rank(s, j)]);
                }
            }
        }
        count.set(c, dest + 1);
        i += 1;
    }
    proof {
        assert forall|k: int| 0 <= k < n implies #[trigger] next@[k] as int == successor(s, k) by {
            lemma_successor(s, k);
            assert(next@[stable_rank(s, successor(s, k))] == successor(s, k));
        }
    }
    next
}

/// Rebuilds a buffer from the row of its unrotated form and the last column of
/// its sorted rotations.
pub fn inverse_transform(first: usize, transformed: &[u8]) -> (r: Vec<u8>)
    requires
        first < transformed@.len(),
    ensures
        r@ == inverse_of(first as int, transformed@),
{
    let n = transformed.len();
    let ghost t = transformed@;
    let next = successor_table(transformed);
    let mut out: Vec<u8> = Vec::with_capacity(n);
    proof {
        lemma_successor(t, first as int);
    }
    let mut current = next[first];
    let mut m: usize = 0;
    while m < n
        invariant
            n == t.len(),
            t == transformed@,
            first < n,
            m <= n,
            next@.len() == n,
            forall|k: int| 0 <= k < n ==> #[trigger] next@[k] as int == successor(t, k),
            current as int == walk(t, first as int, m as nat),
            current < n,
            out@ =~= Seq::new(m as nat, |q: int| t[walk(t, first as int, q as nat)]),
        decreases n - m,
    {
        out.push(transformed[current]);
        proof {
            lemma_successor(t, current as int);
        }
        current = next[current];
        m += 1;
    }
    out
}

/// Sorts bytes by key-indexed counting.
pub fn key_indexed_sort(input: &Vec<u8>) -> (r: Vec<u8>)
    ensures
        r@.len() == input@.len(),
        forall|a: int, b: int| 0 <= a <= b < r@.len() ==> r@[a] <= r@[b],
        forall|k: int| 0 <= k < r@.len() ==> #[trigger] r@[k] == input@[successor(input@, k)],
{
    let n = input.len();
    let next = successor_table(input.as_slice());
    let mut aux: Vec<u8> = Vec::with_capacity(n);
    let mut k: usize = 0;
    while k < n
        invariant
            n == input@.len(),
            k <= n,
            next@.len() == n,
            forall|q: int| 0 <= q < n ==> #[trigger] next@[q] as int == successor(input@, q),
            aux@.len() == k,
            forall|q: int| 0 <= q < k ==> #[trigger] aux@[q] == input@[successor(input@, q)],
        decreases n - k,
    {
        proof {
            lemma_successor(input@, k as int);
        }
        aux.push(input[next[k]]);
        k += 1;
    }
    proof {
        assert forall|a: int, b: int| 0 <= a <= b < n implies aux@[a] <= aux@[b] by {
            lemma_successor(input@, a);
            lemma_successor(input@, b);
            let sa = successor(input@, a);
            let sb = successor(input@, b);
            if input@[sb] < input@[sa] {
                lemma_stable_rank(input@, sb, sa);
            }
        }
    }
    aux
}

/// `(x + n - 1) % n` for an index `x` of `0..n`, without the modulus.
proof fn lemma_preceding_index(x: int, n: int)
    requires
        0 <= x < n,
    ensures
        (x + n - 1) % n == if x == 0 {
            n - 1
        } else {
            x - 1
        },
{
    if x == 0 {
        vstd::arithmetic::div_mod::lemma_small_mod((n - 1) as nat, n as nat);
    } else {
        vstd::arithmetic::div_mod::lemma_mod_add_multiples_vanish(x - 1, n);
        vstd::arithmetic::div_mod::lemma_small_mod((x - 1) as nat, n as nat);
    }
}

/// `first` and `t` are the transform of `s`: some circular suffix array of `s` has
/// the rotation starting at 0 in row `first` and `t` as its last column.
pub open spec fn is_transform_of(s: Seq<u8>, first: int, t: Seq<u8>) -> bool {
    exists|order: Seq<usize>|
        #[trigger] is_circular_suffix_array(s, order) && 0 <= first < s.len() && order[first] == 0
            && t == last_column(s, order)
}

/// The framed bytes `e` encode `s`: nothing for an empty buffer, else the header for
/// the row of the unrotated buffer followed by the last column.
pub open spec fn is_encoding_of(s: Seq<u8>, e: Seq<u8>) -> bool {
    if s.len() == 0 {
        e.len() == 0
    } else {
        exists|first: int|
            #![trigger is_transform_of(s, first, e.subrange(HEADER_LEN as int, e.len() as int))]
            is_transform_of(s, first, e.subrange(HEADER_LEN as int, e.len() as int)) && e
                == header_of(first as nat) + e.subrange(HEADER_LEN as int, e.len() as int)
    }
}

/// What decoding the framed bytes `e` gives.
pub open spec fn decoded(e: Seq<u8>) -> Result<Seq<u8>, DecodeError> {
    if e.len() == 0 {
        Ok(Seq::empty())
    } else if e.len() < HEADER_LEN {
        Err(DecodeError::TruncatedHeader)
    } else {
        let first = from_le(e.subrange(0, HEADER_LEN as int));
        let t = e.subrange(HEADER_LEN as int, e.len() as int);
        if first > usize::MAX {
            Err(DecodeError::HeaderOutOfRange)
        } else if first >= t.len() {
            Err(DecodeError::RowOutOfRange)
        } else {
            Ok(inverse_of(first as int, t))
        }
    }
}

/// Whether two indices are equal.
pub(crate) fn same_index(a: usize, b: usize) -> (r: bool)
    ensures
        r == (a == b),
{
    a == b
}

/// Relies on `Itertools::find_position`: the first position of `v` holding `x`, if any.
#[verifier::external_body]
fn find_index_position(v: &[usize], x: usize) -> (r: Option<usize>)
    ensures
        match r {
            Some(p) => p < v@.len() && v@[p as int] == x && forall|k: int|
                0 <= k < p ==> v@[k] != x,
            None => forall|k: int| 0 <= k < v@.len() ==> v@[k] != x,
        },
{
    v.iter().find_position(|e| same_index(**e, x)).map(|found| found.0)
}

/// The forward transform: the row of the unrotated buffer among the sorted
/// rotations, and the last column of those rotations.
pub fn transform(input: &[u8]) -> (r: (usize, Vec<u8>))
    ensures
        input@.len() == 0 ==> r.0 == 0 && r.1@.len() == 0,
        input@.len() > 0 ==> is_transform_of(input@, r.0 as int, r.1@),
{
    let n = input.len();
    if n == 0 {
        return (0, Vec::new());
    }
    let CircularSuffixArray(order) = create(input);
    let ghost s = input@;
    let first = match find_index_position(order.as_slice(), 0) {
        Some(p) => p,
        None => {
            proof {
                assert(order@.contains(0usize));
            }
            0
        },
    };
    let mut column: Vec<u8> = Vec::with_capacity(n);
    let mut k: usize = 0;
    while k < n
        invariant
            n == s.len(),
            s == input@,
            k <= n,
            is_circular_suffix_array(s, order@),
            column@ =~= last_column(s, order@).subrange(0, k as int),
        decreases n - k,
    {
        let x = order[k];
        proof {
            lemma_preceding_index(x as int, n as int);
        }
        let pos = if x == 0 {
            n - 1
        } else {
            x - 1
        };
        column.push(input[pos]);
        k += 1;
    }
    assert(column@ =~= last_column(s, order@));
    (first, column)
}

/// Encodes `input` as a header naming the row of the unrotated buffer followed by the
/// transformed bytes; an empty input encodes to nothing.
pub fn encode(input: &[u8]) -> (r: Vec<u8>)
    ensures
        is_encoding_of(input@, r@),
{
    let mut output: Vec<u8> = Vec::new();
    if input.len() == 0 {
        return output;
    }
    let (first, column) = transform(input);
    write_usize(first, &mut output);
    let ghost header = output@;
    let mut k: usize = 0;
    while k < column.len()
        invariant
            k <= column@.len(),
            header == header_of(first as nat),
            output@ =~= header + column@.subrange(0, k as int),
        decreases column@.len() - k,
    {
        output.push(column[k]);
        k += 1;
    }
    proof {
        lemma_le_digits_len(first as nat, HEADER_LEN as nat);
        assert(header.len() == HEADER_LEN);
        assert(column@.subrange(0, column@.len() as int) =~= column@);
        assert(output@.subrange(HEADER_LEN as int, output@.len() as int) =~= column@);
        assert(is_transform_of(
            input@,
            first as int,
            output@.subrange(HEADER_LEN as int, output@.len() as int),
        ));
    }
    output
}

/// Decodes bytes framed by `encode`.
pub fn decode(input: &[u8]) -> (r: Result<Vec<u8>, DecodeError>)
    ensures
        match r {
            Ok(v) => decoded(input@) == Ok::<Seq<u8>, DecodeError>(v@),
            Err(e) => decoded(input@) == Err::<Seq<u8>, DecodeError>(e),
        },
{
    if input.len() == 0 {
        return Ok(Vec::new());
    }
    let first = match read_usize(input) {
        Ok(f) => f,
        Err(e) => return Err(e),
    };
    let ghost header = input@.subrange(0, HEADER_LEN as int);
    let mut transformed: Vec<u8> = Vec::with_capacity(input.len() - HEADER_LEN);
    let mut k: usize = HEADER_LEN;
    while k < input.len()
        invariant
            HEADER_LEN <= k <= input@.len(),
            transformed@ =~= input@.subrange(HEADER_LEN as int, k as int),
        decreases input@.len() - k,
    {
        transformed.push(input[k]);
        k += 1;
    }
    if first >= transformed.len() {
        return Err(DecodeError::RowOutOfRange);
    }
    Ok(inverse_transform(first, transformed.as_slice()))
}

/// The transformed bytes are a rearrangement of the buffer: an index permutation
/// carries each position of the last column to the buffer position it was read from.
pub proof fn lemma_transform_is_permutation(s: Seq<u8>, first: int, t: Seq<u8>)
    requires
        s.len() <= usize::MAX,
        is_transform_of(s, first, t),
    ensures
        t.len() == s.len(),
        exists|p: Seq<usize>|
            #[trigger] is_index_permutation(p, s.len() as int) && forall|k: int|
                0 <= k < s.len() ==> t[k] == s[p[k] as int],
{
    let order = choose|order: Seq<usize>|
        #[trigger] is_circular_suffix_array(s, order) && 0 <= first < s.len() && order[first] == 0
            && t == last_column(s, order);
    let n = s.len() as int;
    let p = Seq::new(n as nat, |k: int| (if order[k] == 0 { n - 1 } else { order[k] - 1 }) as usize);
    assert(is_index_permutation(order, n));
    assert forall|k: int| 0 <= k < n implies t[k] == s[p[k] as int] by {
        assert(order[k] < n);
        assert(p[k] == (if order[k] == 0 { n - 1 } else { order[k] - 1 }) as usize);
        lemma_preceding_index(order[k] as int, n);
        assert(t[k] == preceding_byte(s, order[k] as int));
    }
    assert forall|x: usize| x < n implies #[trigger] p.contains(x) by {
        let y: usize = if x == n - 1 { 0 } else { (x + 1) as usize };
        assert(order.contains(y));
        let k = choose|k: int| 0 <= k < order.len() && order[k] == y;
        assert(p[k] == x);
    }
    assert(is_index_permutation(p, n));
}

} // verus!
