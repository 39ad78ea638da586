//! Splitting lines of the input files into fields and reading decimal numbers.

use vstd::prelude::*;

verus! {

/// The fields of `line` between occurrences of `sep`; a line without `sep` is one field.
pub open spec fn fields(line: Seq<u8>, sep: u8) -> Seq<Seq<u8>>
    decreases line.len(),
{
    if line.len() == 0 {
        seq![Seq::<u8>::empty()]
    } else {
        let f = fields(line.drop_last(), sep);
        let b = line[line.len() - 1];
        if b == sep {
            f.push(Seq::empty())
        } else {
            f.update(f.len() - 1, f[f.len() - 1].push(b))
        }
    }
}

proof fn lemma_fields_nonempty(line: Seq<u8>, sep: u8)
    ensures
        fields(line, sep).len() >= 1,
    decreases line.len(),
{
    if line.len() > 0 {
        lemma_fields_nonempty(line.drop_last(), sep);
    }
}

/// Splits `line` at each `sep`.
pub fn split_fields(line: &[u8], sep: u8) -> (r: Vec<Vec<u8>>)
    ensures
        r@.len() == fields(line@, sep).len(),
        forall|k: int| 0 <= k < r@.len() ==> (#[trigger] r@[k])@ == fields(line@, sep)[k],
{
    let mut done: Vec<Vec<u8>> = Vec::new();
    let mut current: Vec<u8> = Vec::new();
    let mut i: usize = 0;
    while i < line.len()
        invariant
            i <= line@.len(),
            done@.len() + 1 == fields(line@.subrange(0, i as int), sep).len(),
            forall|k: int| 0 <= k < done@.len() ==> (#[trigger] done@[k])@ == fields(line@.subrange(0, i as int), sep)[k],
            current@ == fields(line@.subrange(0, i as int), sep)[done@.len() as int],
        decreases line@.len() - i,
    {
        let ghost prefix = line@.subrange(0, i as int);
        let ghost next = line@.subrange(0, i + 1);
        proof {
            assert(next.drop_last() =~= prefix);
            lemma_fields_nonempty(prefix, sep);
        }
        let b = line[i];
        if b == sep {
            let mut finished: Vec<u8> = Vec::new();
            std::mem::swap(&mut finished, &mut current);
            done.push(finished);
            proof {
                assert forall|k: int| 0 <= k < done@.len() implies (#[trigger] done@[k])@ == fields(next, sep)[k] by {}
                assert(current@ =~= fields(next, sep)[done@.len() as int]);
            }
        } else {
            current.push(b);
        }
        i += 1;
    }
    assert(line@.subrange(0, line@.len() as int) =~= line@);
    let ghost before = done@;
    done.push(current);
    assert forall|k: int| 0 <= k < done@.len() implies (#[trigger] done@[k])@ == fields(line@, sep)[k] by {
        if k < before.len() {
            assert(done@[k] == before[k]);
        }
    }
    done
}

/// `d` is a non-empty string of decimal digits.
pub open spec fn is_decimal(d: Seq<u8>) -> bool {
    d.len() > 0 && forall|i: int| 0 <= i < d.len() ==> 48 <= #[trigger] d[i] <= 57
}

/// The number that the decimal digits `d` write.
pub open spec fn decimal_value(d: Seq<u8>) -> nat
    decreases d.len(),
{
    if d.len() == 0 {
        0
    } else {
        decimal_value(d.drop_last()) * 10 + (d[d.len() - 1] - 48) as nat
    }
}

proof fn lemma_decimal_grows(d: Seq<u8>, m: int)
    requires
        0 <= m <= d.len(),
        forall|i: int| 0 <= i < d.len() ==> 48 <= #[trigger] d[i] <= 57,
    ensures
        decimal_value(d.subrange(0, m)) <= decimal_value(d),
    decreases d.len() - m,
{
    if m < d.len() {
        lemma_decimal_grows(d, m + 1);
        let p = d.subrange(0, m + 1);
        assert(p.drop_last() =~= d.subrange(0, m));
        assert(decimal_value(d.subrange(0, m)) <= decimal_value(p)) by (nonlinear_arith)
            requires
                decimal_value(p) == decimal_value(d.subrange(0, m)) * 10 + (p[m] - 48) as nat,
        ;
    } else {
        assert(d.subrange(0, m) =~= d);
    }
}

/// Reads `field` as a decimal number: `None` unless it is a non-empty run of digits whose
/// value fits in a `usize`.
pub fn parse_decimal(field: &[u8]) -> (r: Option<usize>)
    ensures
        r is Some <==> is_decimal(field@) && decimal_value(field@) <= usize::MAX,
        r matches Some(v) ==> v == decimal_value(field@),
{
    if field.len() == 0 {
        return None;
    }
    let mut value: usize = 0;
    let mut i: usize = 0;
    while i < field.len()
        invariant
            i <= field@.len(),
            forall|k: int| 0 <= k < i ==> 48 <= #[trigger] field@[k] <= 57,
            value == decimal_value(field@.subrange(0, i as int)),
        decreases field@.len() - i,
    {
        let b = field[i];
        if b < 48 || b > 57 {
            return None;
        }
        let digit = (b - 48) as usize;
        proof {
            assert(field@.subrange(0, i + 1).drop_last() =~= field@.subrange(0, i as int));
        }
        if value > (usize::MAX - digit) / 10 {
            proof {
                assert(value * 10 + digit > usize::MAX) by (nonlinear_arith)
                    requires
                        value > (usize::MAX - digit) / 10,
                        digit <= 9,
                ;
                if is_decimal(field@) {
                    lemma_decimal_grows(field@, i + 1);
                }
            }
            return None;
        }
        proof {
            assert(value * 10 + digit <= usize::MAX) by (nonlinear_arith)
                requires
                    value <= (usize::MAX - digit) / 10,
                    digit <= 9,
            ;
        }
        value = value * 10 + digit;
        i += 1;
    }
    assert(field@.subrange(0, field@.len() as int) =~= field@);
    Some(value)
}

} // verus!
