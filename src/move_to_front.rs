//! Move-to-front coding over the 256 byte values.

use vstd::prelude::*;
use crate::circular_suffix_array::swap_entries;
use itertools::Itertools;

verus! {

/// The alphabet that every encode and decode starts from: each byte value at its own position.
pub open spec fn identity_alphabet() -> Seq<u8> {
    Seq::new(256, |i: int| i as u8)
}

/// `a` orders all 256 byte values, each once.
pub open spec fn is_full_alphabet(a: Seq<u8>) -> bool {
    &&& a.len() == 256
    &&& forall|i: int, j: int| 0 <= i < 256 && 0 <= j < 256 && i != j ==> a[i] != a[j]
    &&& forall|b: u8| #[trigger] a.contains(b)
}

/// `a` with the entry at position `p` taken out and put in front.
pub open spec fn moved_to_front(a: Seq<u8>, p: int) -> Seq<u8> {
    seq![a[p]] + a.subrange(0, p) + a.subrange(p + 1, a.len() as int)
}

/// The position of byte `b` in alphabet `a`.
pub open spec fn position_in(a: Seq<u8>, b: u8) -> int {
    choose|p: int| 0 <= p < a.len() && a[p] == b
}

/// The codes of `input` when coding starts from alphabet `a`.
pub open spec fn encoded_with(a: Seq<u8>, input: Seq<u8>) -> Seq<u8>
    decreases input.len(),
{
    if input.len() == 0 {
        Seq::empty()
    } else {
        let p = position_in(a, input[0]);
        seq![p as u8] + encoded_with(moved_to_front(a, p), input.drop_first())
    }
}

/// The bytes that `codes` stand for when decoding starts from alphabet `a`.
pub open spec fn decoded_with(a: Seq<u8>, codes: Seq<u8>) -> Seq<u8>
    decreases codes.len(),
{
    if codes.len() == 0 {
        Seq::empty()
    } else {
        let p = codes[0] as int;
        seq![a[p]] + decoded_with(moved_to_front(a, p), codes.drop_first())
    }
}

/// Moving an entry to the front keeps a full alphabet full.
proof fn lemma_moved_to_front_full(a: Seq<u8>, p: int)
    requires
        is_full_alphabet(a),
        0 <= p < 256,
    ensures
        is_full_alphabet(moved_to_front(a, p)),
{
    let m = moved_to_front(a, p);
    assert forall|k: int| 0 <= k < 256 implies #[trigger] m[k] == if k == 0 {
        a[p]
    } else if k <= p {
        a[k - 1]
    } else {
        a[k]
    } by {}
    assert forall|i: int, j: int| 0 <= i < 256 && 0 <= j < 256 && i != j implies m[i] != m[j] by {
        assert(m[i] == if i == 0 { a[p] } else if i <= p { a[i - 1] } else { a[i] });
        assert(m[j] == if j == 0 { a[p] } else if j <= p { a[j - 1] } else { a[j] });
    }
    assert forall|b: u8| #[trigger] m.contains(b) by {
        assert(a.contains(b));
        let k = choose|k: int| 0 <= k < a.len() && a[k] == b;
        if k == p {
            assert(m[0] == b);
        } else if k < p {
            assert(m[k + 1] == b);
        } else {
            assert(m[k] == b);
        }
    }
}

/// In a full alphabet, the position holding `b` is `position_in(a, b)`.
proof fn lemma_position_in(a: Seq<u8>, b: u8, p: int)
    requires
        is_full_alphabet(a),
        0 <= p < 256,
        a[p] == b,
    ensures
        position_in(a, b) == p,
{
    assert(a.contains(b));
}

/// Encoding keeps the length.
proof fn lemma_encoded_len(a: Seq<u8>, input: Seq<u8>)
    ensures
        encoded_with(a, input).len() == input.len(),
    decreases input.len(),
{
    if input.len() > 0 {
        lemma_encoded_len(moved_to_front(a, position_in(a, input[0])), input.drop_first());
    }
}

/// Decoding what was encoded from the same full alphabet gives the input back.
pub proof fn lemma_decode_encode(a: Seq<u8>, input: Seq<u8>)
    requires
        is_full_alphabet(a),
    ensures
        decoded_with(a, encoded_with(a, input)) == input,
    decreases input.len(),
{
    if input.len() > 0 {
        let b = input[0];
        assert(a.contains(b));
        let p = position_in(a, b);
        let codes = encoded_with(a, input);
        let rest = encoded_with(moved_to_front(a, p), input.drop_first());
        assert(codes == seq![p as u8] + rest);
        assert(codes.drop_first() =~= rest);
        assert(codes[0] as int == p);
        lemma_moved_to_front_full(a, p);
        lemma_decode_encode(moved_to_front(a, p), input.drop_first());
        assert(decoded_with(a, codes) =~= seq![b] + input.drop_first());
        assert(seq![b] + input.drop_first() =~= input);
    }
}

/// Decoding and then encoding with the same full alphabet gives the codes back.
pub proof fn lemma_encode_decode(a: Seq<u8>, codes: Seq<u8>)
    requires
        is_full_alphabet(a),
    ensures
        encoded_with(a, decoded_with(a, codes)) == codes,
    decreases codes.len(),
{
    if codes.len() > 0 {
        let p = codes[0] as int;
        let bytes = decoded_with(a, codes);
        let rest = decoded_with(moved_to_front(a, p), codes.drop_first());
        assert(bytes == seq![a[p]] + rest);
        assert(bytes.drop_first() =~= rest);
        lemma_position_in(a, a[p], p);
        lemma_moved_to_front_full(a, p);
        lemma_encode_decode(moved_to_front(a, p), codes.drop_first());
        assert(encoded_with(a, bytes) =~= seq![p as u8] + codes.drop_first());
        assert(seq![codes[0]] + codes.drop_first() =~= codes);
    }
}

/// Once `b` is at the front, a run of `b` codes to zeros.
pub proof fn lemma_run_codes_to_zeros(a: Seq<u8>, b: u8, input: Seq<u8>)
    requires
        is_full_alphabet(a),
        a[0] == b,
        forall|k: int| 0 <= k < input.len() ==> input[k] == b,
    ensures
        forall|k: int| 0 <= k < input.len() ==> #[trigger] encoded_with(a, input)[k] == 0,
        encoded_with(a, input).len() == input.len(),
    decreases input.len(),
{
    lemma_encoded_len(a, input);
    if input.len() > 0 {
        lemma_position_in(a, b, 0);
        assert(moved_to_front(a, 0) =~= a);
        lemma_run_codes_to_zeros(a, b, input.drop_first());
        let rest = encoded_with(a, input.drop_first());
        assert(encoded_with(a, input) == seq![0u8] + rest);
        assert forall|k: int| 0 <= k < input.len() implies #[trigger] encoded_with(a, input)[k] == 0 by {
            if k > 0 {
                assert(encoded_with(a, input)[k] == rest[k - 1]);
            }
        }
    }
}

/// A constant byte stream codes to the byte itself followed by zeros.
pub proof fn lemma_constant_stream(b: u8, input: Seq<u8>)
    requires
        input.len() > 0,
        forall|k: int| 0 <= k < input.len() ==> input[k] == b,
    ensures
        encoded_with(identity_alphabet(), input)[0] == b,
        forall|k: int| 1 <= k < input.len() ==> #[trigger] encoded_with(identity_alphabet(), input)[k] == 0,
{
    let a = identity_alphabet();
    lemma_identity_full();
    lemma_position_in(a, b, b as int);
    let m = moved_to_front(a, b as int);
    lemma_moved_to_front_full(a, b as int);
    lemma_run_codes_to_zeros(m, b, input.drop_first());
    let rest = encoded_with(m, input.drop_first());
    assert(encoded_with(a, input) == seq![b] + rest);
    assert forall|k: int| 1 <= k < input.len() implies #[trigger] encoded_with(a, input)[k] == 0 by {
        assert(encoded_with(a, input)[k] == rest[k - 1]);
    }
}

proof fn lemma_identity_full()
    ensures
        is_full_alphabet(identity_alphabet()),
{
    let a = identity_alphabet();
    assert forall|b: u8| #[trigger] a.contains(b) by {
        assert(a[b as int] == b);
    }
}

/// Moves the entry at `pos` to the front, shifting the entries before it back by one.
pub fn move_byte_to_front(alphabet: &mut Vec<u8>, pos: usize)
    requires
        pos < old(alphabet)@.len(),
    ensures
        final(alphabet)@ == moved_to_front(old(alphabet)@, pos as int),
{
    let ghost a = old(alphabet)@;
    let ghost len = a.len() as int;
    let mut i = pos;
    while i > 0
        invariant
            i <= pos < len,
            alphabet@.len() == len,
            len == a.len(),
            alphabet@ =~= a.subrange(0, i as int) + seq![a[pos as int]] + a.subrange(i as int, pos as int)
                + a.subrange(pos + 1, len),
        decreases i,
    {
        let ghost prev = alphabet@;
        assert(prev[i as int] == a[pos as int]);
        assert(prev[i - 1] == a[i - 1]);
        swap_entries(alphabet, i, i - 1);
        assert(alphabet@ =~= a.subrange(0, i - 1) + seq![a[pos as int]] + a.subrange(i - 1, pos as int)
            + a.subrange(pos + 1, len)) by {
            assert forall|k: int| 0 <= k < len implies #[trigger] alphabet@[k] == (a.subrange(0, i - 1)
                + seq![a[pos as int]] + a.subrange(i - 1, pos as int) + a.subrange(pos + 1, len))[k] by {
                if k < i - 1 {
                    assert(prev[k] == a[k]);
                } else if k > i {
                    assert(prev[k] == (a.subrange(0, i as int) + seq![a[pos as int]] + a.subrange(i as int, pos as int)
                        + a.subrange(pos + 1, len))[k]);
                }
            }
        }
        i -= 1;
    }
}

/// Whether two bytes are equal.
pub(crate) fn same_byte(a: u8, b: u8) -> (r: bool)
    ensures
        r == (a == b),
{
    a == b
}

/// Relies on `Itertools::find_position`: the first position of `v` holding `x`, if any.
#[verifier::external_body]
fn find_byte_position(v: &[u8], x: u8) -> (r: Option<usize>)
    ensures
        match r {
            Some(p) => p < v@.len() && v@[p as int] == x && forall|k: int|
                0 <= k < p ==> v@[k] != x,
            None => forall|k: int| 0 <= k < v@.len() ==> v@[k] != x,
        },
{
    v.iter().find_position(|e| same_byte(**e, x)).map(|found| found.0)
}

/// A fresh alphabet in ascending order.
fn fresh_alphabet() -> (a: Vec<u8>)
    ensures
        a@ == identity_alphabet(),
        is_full_alphabet(a@),
{
    let mut a: Vec<u8> = Vec::with_capacity(256);
    let mut i: usize = 0;
    while i < 256
        invariant
            i <= 256,
            a@ =~= identity_alphabet().subrange(0, i as int),
        decreases 256 - i,
    {
        a.push(i as u8);
        i += 1;
    }
    proof {
        assert(a@ =~= identity_alphabet());
        lemma_identity_full();
    }
    a
}

/// Replaces each byte by its position in an alphabet that starts in ascending order and
/// moves each coded byte to its front.
pub fn encode(input: &[u8]) -> (r: Vec<u8>)
    ensures
        r@ == encoded_with(identity_alphabet(), input@),
        r@.len() == input@.len(),
{
    let n = input.len();
    let mut alphabet = fresh_alphabet();
    let mut out: Vec<u8> = Vec::with_capacity(n);
    assert(input@.subrange(0, n as int) =~= input@);
    assert(out@ + encoded_with(alphabet@, input@) =~= encoded_with(alphabet@, input@));
    let mut i: usize = 0;
    while i < n
        invariant
            n == input@.len(),
            i <= n,
            is_full_alphabet(alphabet@),
            out@ + encoded_with(alphabet@, input@.subrange(i as int, n as int)) == encoded_with(
                identity_alphabet(),
                input@,
            ),
        decreases n - i,
    {
        let b = input[i];
        let pos = match find_byte_position(alphabet.as_slice(), b) {
            Some(p) => p,
            None => {
                proof {
                    assert(alphabet@.contains(b));
                }
                0
            },
        };
        proof {
            lemma_position_in(alphabet@, b, pos as int);
            let rest = input@.subrange(i as int, n as int);
            assert(rest.drop_first() =~= input@.subrange(i + 1, n as int));
            lemma_moved_to_front_full(alphabet@, pos as int);
        }
        let ghost before = out@;
        let ghost rest_codes = encoded_with(
            moved_to_front(alphabet@, pos as int),
            input@.subrange(i + 1, n as int),
        );
        out.push(pos as u8);
        move_byte_to_front(&mut alphabet, pos);
        assert(out@ + rest_codes =~= before + (seq![pos as u8] + rest_codes));
        i += 1;
    }
    assert(input@.subrange(n as int, n as int) =~= Seq::<u8>::empty());
    assert(out@ + Seq::<u8>::empty() =~= out@);
    proof {
        lemma_encoded_len(identity_alphabet(), input@);
    }
    out
}

/// Replaces each code by the byte at that position of an alphabet that starts in
/// ascending order and moves each decoded byte to its front.
pub fn decode(input: &[u8]) -> (r: Vec<u8>)
    ensures
        r@ == decoded_with(identity_alphabet(), input@),
        r@.len() == input@.len(),
{
    let n = input.len();
    let mut alphabet = fresh_alphabet();
    let mut out: Vec<u8> = Vec::with_capacity(n);
    assert(input@.subrange(0, n as int) =~= input@);
    assert(out@ + decoded_with(alphabet@, input@) =~= decoded_with(alphabet@, input@));
    let mut i: usize = 0;
    while i < n
        invariant
            n == input@.len(),
            i <= n,
            out@.len() == i,
            is_full_alphabet(alphabet@),
            out@ + decoded_with(alphabet@, input@.subrange(i as int, n as int)) == decoded_with(
                identity_alphabet(),
                input@,
            ),
        decreases n - i,
    {
        let pos = input[i] as usize;
        proof {
            let rest = input@.subrange(i as int, n as int);
            assert(rest.drop_first() =~= input@.subrange(i + 1, n as int));
            lemma_moved_to_front_full(alphabet@, pos as int);
        }
        let ghost before = out@;
        let ghost rest_bytes = decoded_with(
            moved_to_front(alphabet@, pos as int),
            input@.subrange(i + 1, n as int),
        );
        out.push(alphabet[pos]);
        move_byte_to_front(&mut alphabet, pos);
        assert(out@ + rest_bytes =~= before + (seq![out@[i as int]] + rest_bytes));
        i += 1;
    }
    assert(input@.subrange(n as int, n as int) =~= Seq::<u8>::empty());
    assert(out@ + Seq::<u8>::empty() =~= out@);
    out
}

/// Decoding the encoding of any byte buffer gives the buffer back.
pub proof fn lemma_round_trip(input: Seq<u8>)
    ensures
        decoded_with(identity_alphabet(), encoded_with(identity_alphabet(), input)) == input,
        encoded_with(identity_alphabet(), input).len() == input.len(),
{
    lemma_identity_full();
    lemma_decode_encode(identity_alphabet(), input);
    lemma_encoded_len(identity_alphabet(), input);
}

} // verus!
