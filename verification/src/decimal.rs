//! ASCII decimal numerals.
//!
//! RESP length prefixes and integer frames are unsigned decimals written in
//! ASCII. This module gives the numeral grammar a mathematical meaning
//! (`dec_value`, `dec_repr`) and provides the verified conversions both ways.

use vstd::prelude::*;

verus! {

/// A byte is an ASCII decimal digit (`'0'` is 48, `'9'` is 57).
pub open spec fn is_digit(b: u8) -> bool {
    48 <= b && b <= 57
}

/// Every byte of the sequence is an ASCII digit.
pub open spec fn all_digits(s: Seq<u8>) -> bool {
    forall|i: int| 0 <= i < s.len() ==> is_digit(#[trigger] s[i])
}

/// Numeric value of a digit string, most significant digit first.
pub open spec fn dec_value(s: Seq<u8>) -> int
    decreases s.len(),
{
    if s.len() == 0 {
        0
    } else {
        dec_value(s.drop_last()) * 10 + (s.last() - 48)
    }
}

/// The canonical numeral of a non-negative integer: no sign, no leading
/// zeros (except for the numeral of zero itself).
pub open spec fn dec_repr(n: int) -> Seq<u8>
    decreases n,
{
    if n < 10 {
        seq![(48 + if 0 <= n { n } else { 0 }) as u8]
    } else {
        dec_repr(n / 10).push((48 + n % 10) as u8)
    }
}

/// The digit string denotes a value that fits in a `u64`.
pub open spec fn is_dec_u64(s: Seq<u8>) -> bool {
    s.len() > 0 && all_digits(s) && dec_value(s) <= u64::MAX
}

pub proof fn lemma_dec_value_nonneg(s: Seq<u8>)
    requires
        all_digits(s),
    ensures
        dec_value(s) >= 0,
    decreases s.len(),
{
    if s.len() > 0 {
        assert(all_digits(s.drop_last()));
        lemma_dec_value_nonneg(s.drop_last());
    }
}

pub proof fn lemma_dec_value_snoc(s: Seq<u8>, b: u8)
    ensures
        dec_value(s.push(b)) == dec_value(s) * 10 + (b - 48),
{
    assert(s.push(b).drop_last() =~= s);
}

pub proof fn lemma_dec_repr_wf(n: int)
    requires
        n >= 0,
    ensures
        dec_repr(n).len() >= 1,
        all_digits(dec_repr(n)),
        dec_value(dec_repr(n)) == n,
    decreases n,
{
    if n < 10 {
        let d = (48 + n) as u8;
        assert(d as int == 48 + n);
        let s = dec_repr(n);
        assert(s == seq![d]);
        assert(s.drop_last() =~= Seq::<u8>::empty());
        assert(s.last() == d);
        assert(dec_value(s) == dec_value(s.drop_last()) * 10 + (s.last() - 48));
    } else {
        let d = (48 + n % 10) as u8;
        assert(d as int == 48 + n % 10);
        lemma_dec_repr_wf(n / 10);
        lemma_dec_value_snoc(dec_repr(n / 10), d);
        assert(n == 10 * (n / 10) + n % 10);
    }
}

/// A longer digit prefix never denotes a smaller value.
pub proof fn lemma_dec_value_take_le(s: Seq<u8>, i: int, j: int)
    requires
        all_digits(s),
        0 <= i <= j <= s.len(),
    ensures
        dec_value(s.take(i)) <= dec_value(s.take(j)),
    decreases j - i,
{
    if i < j {
        lemma_dec_value_take_le(s, i, j - 1);
        assert(s.take(j).drop_last() =~= s.take(j - 1));
        assert(all_digits(s.take(j - 1)));
        lemma_dec_value_nonneg(s.take(j - 1));
        assert(s.take(j).last() == s[j - 1]);
    }
}

/// Parse an unsigned decimal numeral. Returns the value exactly when the
/// input is a non-empty all-digit string whose value fits in a `u64`.
pub fn parse_decimal(line: &Vec<u8>) -> (r: Option<u64>)
    ensures
        is_dec_u64(line@) ==> r == Some(dec_value(line@) as u64),
        !is_dec_u64(line@) ==> r is None,
{
    if line.len() == 0 {
        return None;
    }
    let mut acc: u64 = 0;
    let mut i: usize = 0;
    while i < line.len()
        invariant
            0 <= i <= line@.len(),
            all_digits(line@.take(i as int)),
            acc as int == dec_value(line@.take(i as int)),
        decreases line@.len() - i,
    {
        let b = line[i];
        if b < 48 || b > 57 {
            assert(!is_digit(line@[i as int]));
            return None;
        }
        let d = (b - 48) as u64;
        proof {
            assert(line@.take(i + 1).drop_last() =~= line@.take(i as int));
            assert(line@.take(i + 1).last() == line@[i as int]);
            assert(all_digits(line@.take(i + 1)));
        }
        if acc > (u64::MAX - d) / 10 {
            proof {
                let m = (u64::MAX - d) as int;
                assert(m == 10 * (m / 10) + m % 10);
                assert(acc * 10 + d > u64::MAX);
                assert(dec_value(line@.take(i + 1)) == acc * 10 + d);
                if is_dec_u64(line@) {
                    lemma_dec_value_take_le(line@, i + 1, line@.len() as int);
                    assert(line@.take(line@.len() as int) =~= line@);
                }
            }
            return None;
        }
        proof {
            let m = (u64::MAX - d) as int;
            assert(m == 10 * (m / 10) + m % 10);
            assert(acc * 10 + d <= u64::MAX);
            assert(dec_value(line@.take(i + 1)) == acc * 10 + d);
        }
        acc = acc * 10 + d;
        i = i + 1;
    }
    assert(line@.take(line@.len() as int) =~= line@);
    Some(acc)
}

/// Write the canonical numeral of `n`.
pub fn format_decimal(n: u64) -> (r: Vec<u8>)
    ensures
        r@ == dec_repr(n as int),
{
    let mut out: Vec<u8> = Vec::new();
    if n == 0 {
        out.push(48);
        assert(out@ =~= dec_repr(0));
        return out;
    }
    let mut m: u64 = n;
    proof {
        assert(dec_repr(n as int) =~= dec_repr(m as int) + out@);
    }
    while m > 0
        invariant
            m > 0 ==> dec_repr(n as int) == dec_repr(m as int) + out@,
            m == 0 ==> dec_repr(n as int) == out@,
        decreases m,
    {
        let d = (m % 10) as u8 + 48;
        let ghost prev = out@;
        out.insert(0, d);
        proof {
            assert(out@ =~= seq![d] + prev);
            if m >= 10 {
                assert(dec_repr(m as int) == dec_repr(m as int / 10).push(d));
                assert(dec_repr(m as int / 10).push(d) + prev =~= dec_repr(m as int / 10) + out@);
                assert(dec_repr(n as int) == dec_repr((m / 10) as int) + out@);
            } else {
                assert(dec_repr(m as int) =~= seq![d]);
                assert(dec_repr(m as int) + prev =~= out@);
            }
        }
        m = m / 10;
    }
    out
}

} // verus!
