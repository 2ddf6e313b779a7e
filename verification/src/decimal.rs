//! Decimal numbers as ASCII text.

use vstd::prelude::*;

verus! {

/// Whether `b` is one of the ASCII digits `0` to `9`.
pub open spec fn is_digit(b: u8) -> bool {
    48 <= b <= 57
}

/// Whether every byte of `s` is an ASCII digit.
pub open spec fn all_digits(s: Seq<u8>) -> bool {
    forall|i: int| 0 <= i < s.len() ==> is_digit(#[trigger] s[i])
}

/// The number that a string of digits spells.
pub open spec fn dec_value(s: Seq<u8>) -> nat
    decreases s.len(),
{
    if s.len() == 0 {
        0
    } else {
        dec_value(s.drop_last()) * 10 + (s.last() - 48) as nat
    }
}

/// The shortest string of digits that spells `n`.
pub open spec fn dec_text(n: nat) -> Seq<u8>
    decreases n,
{
    if n < 10 {
        seq![(48 + n) as u8]
    } else {
        dec_text(n / 10).push((48 + n % 10) as u8)
    }
}

/// Whether `s` is a number written without a redundant leading zero.
pub open spec fn canonical_decimal(s: Seq<u8>) -> bool {
    &&& s.len() > 0
    &&& all_digits(s)
    &&& s.len() > 1 ==> s[0] != 48
}

/// The text of `n` is canonical and spells `n`.
pub proof fn lemma_dec_text(n: nat)
    ensures
        canonical_decimal(dec_text(n)),
        dec_value(dec_text(n)) == n,
        n < 10 ==> dec_text(n).len() == 1,
        n >= 10 ==> dec_text(n).len() > 1,
        n > 0 ==> dec_text(n)[0] != 48,
    decreases n,
{
    if n < 10 {
        let s = dec_text(n);
        assert(s.drop_last() =~= Seq::<u8>::empty());
        assert(dec_value(s.drop_last()) == 0);
    } else {
        lemma_dec_text(n / 10);
        let p = dec_text(n / 10);
        let s = dec_text(n);
        assert(s.drop_last() =~= p);
        assert(s[0] == p[0]);
        assert forall|i: int| 0 <= i < s.len() implies is_digit(#[trigger] s[i]) by {
            if i < p.len() {
                assert(s[i] == p[i]);
            }
        }
    }
}

/// A canonical number is the text of what it spells.
pub proof fn lemma_dec_text_of_value(s: Seq<u8>)
    requires
        canonical_decimal(s),
    ensures
        dec_text(dec_value(s)) == s,
    decreases s.len(),
{
    if s.len() == 1 {
        assert(s.drop_last() =~= Seq::<u8>::empty());
        assert(dec_value(s.drop_last()) == 0);
        assert(dec_text(dec_value(s)) =~= s);
    } else {
        let p = s.drop_last();
        assert(p[0] == s[0]);
        assert forall|i: int| 0 <= i < p.len() implies is_digit(#[trigger] p[i]) by {
            assert(p[i] == s[i]);
        }
        if p.len() == 1 {
            assert(p.drop_last() =~= Seq::<u8>::empty());
            assert(dec_value(p.drop_last()) == 0);
            assert(dec_value(p) >= 1);
        } else {
            lemma_leading_digit(p);
        }
        lemma_dec_text_of_value(p);
        let v = dec_value(s);
        assert(v == dec_value(p) * 10 + (s.last() - 48));
        assert(v / 10 == dec_value(p));
        assert(v % 10 == (s.last() - 48));
        assert(dec_text(v) =~= s);
    }
}

/// A string of digits that does not start with `0` spells a positive number.
pub proof fn lemma_leading_digit(s: Seq<u8>)
    requires
        s.len() > 0,
        all_digits(s),
        s[0] != 48,
    ensures
        dec_value(s) >= 1,
    decreases s.len(),
{
    if s.len() == 1 {
        assert(s.drop_last() =~= Seq::<u8>::empty());
        assert(dec_value(s.drop_last()) == 0);
    } else {
        let p = s.drop_last();
        assert(p[0] == s[0]);
        assert forall|i: int| 0 <= i < p.len() implies is_digit(#[trigger] p[i]) by {
            assert(p[i] == s[i]);
        }
        lemma_leading_digit(p);
    }
}

/// Reading one more digit never makes the number smaller.
pub proof fn lemma_dec_value_grows(s: Seq<u8>, i: int, j: int)
    requires
        all_digits(s),
        0 <= i <= j <= s.len(),
    ensures
        dec_value(s.take(i)) <= dec_value(s.take(j)),
    decreases j - i,
{
    if i < j {
        lemma_dec_value_grows(s, i, j - 1);
        assert(s.take(j).drop_last() =~= s.take(j - 1));
        assert(is_digit(s[j - 1]));
        assert(s.take(j).last() == s[j - 1]);
    }
}

/// Whether `b` is an ASCII digit.
pub fn is_digit_byte(b: u8) -> (r: bool)
    ensures
        r == is_digit(b),
{
    48 <= b && b <= 57
}

/// Writes `n` in decimal.
pub fn decimal_text(n: u64) -> (out: Vec<u8>)
    ensures
        out@ == dec_text(n as nat),
    decreases n,
{
    if n < 10 {
        let mut out: Vec<u8> = Vec::new();
        out.push((48 + n) as u8);
        assert(out@ =~= dec_text(n as nat));
        out
    } else {
        let mut out = decimal_text(n / 10);
        out.push((48 + n % 10) as u8);
        out
    }
}

/// Reads the digits `input[from..to]` as a number, as long as it does not
/// exceed `cap`.
pub fn decimal_value(input: &[u8], from: usize, to: usize, cap: u64) -> (out: Option<u64>)
    requires
        from <= to <= input@.len(),
        all_digits(input@.subrange(from as int, to as int)),
    ensures
        match out {
            Some(n) => n == dec_value(input@.subrange(from as int, to as int)) && n <= cap,
            None => dec_value(input@.subrange(from as int, to as int)) > cap,
        },
{
    let ghost s = input@.subrange(from as int, to as int);
    let mut acc: u64 = 0;
    let mut i: usize = from;
    assert(s.take(0) =~= Seq::<u8>::empty());
    while i < to
        invariant
            from <= i <= to <= input@.len(),
            s == input@.subrange(from as int, to as int),
            all_digits(s),
            acc == dec_value(s.take(i - from)),
            acc <= cap,
        decreases to - i,
    {
        proof {
            assert(s[i - from] == input@[i as int]);
            assert(is_digit(s[i - from]));
            assert(s.take(i - from + 1).drop_last() =~= s.take(i - from));
            assert(s.take(i - from + 1).last() == s[i - from]);
            lemma_dec_value_grows(s, i - from + 1, s.len() as int);
            assert(s.take(s.len() as int) =~= s);
        }
        let d: u64 = (input[i] - 48) as u64;
        if acc > cap / 10 {
            return None;
        }
        if d > cap - acc * 10 {
            return None;
        }
        acc = acc * 10 + d;
        i += 1;
    }
    assert(s.take(to - from) =~= s);
    Some(acc)
}

} // verus!
