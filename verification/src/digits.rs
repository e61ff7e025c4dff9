//! Decimal numerals over byte strings: rendering a number as its digit
//! bytes, and parsing a digit string into a positive machine integer.

use vstd::prelude::*;
use vstd::string::StringSliceAdditionalSpecFns;

verus! {

/// The decimal digit bytes of `n`, most significant digit first.
pub open spec fn dec_rep(n: nat) -> Seq<u8>
    decreases n,
{
    if n < 10 {
        seq![(48 + n) as u8]
    } else {
        dec_rep(n / 10).push((48 + n % 10) as u8)
    }
}

/// Renders `n` as its decimal digit bytes.
pub fn decimal_digits(n: usize) -> (r: Vec<u8>)
    ensures
        r@ == dec_rep(n as nat),
    decreases n,
{
    if n < 10 {
        let mut v: Vec<u8> = Vec::new();
        v.push(48 + n as u8);
        proof {
            assert(v@ =~= dec_rep(n as nat));
        }
        v
    } else {
        let mut v = decimal_digits(n / 10);
        v.push(48 + (n % 10) as u8);
        proof {
            assert(v@ =~= dec_rep(n as nat));
        }
        v
    }
}

/// Whether `b` is an ASCII decimal digit.
pub open spec fn is_digit(b: u8) -> bool {
    48 <= b <= 57
}

/// Whether every byte of `s` is an ASCII decimal digit.
pub open spec fn all_digits(s: Seq<u8>) -> bool {
    forall|i: int| 0 <= i < s.len() ==> is_digit(#[trigger] s[i])
}

/// The number denoted by the digit bytes `s`, read in base ten.
pub open spec fn dec_value(s: Seq<u8>) -> int
    decreases s.len(),
{
    if s.len() == 0 {
        0
    } else {
        dec_value(s.drop_last()) * 10 + (s.last() - 48)
    }
}

proof fn lemma_dec_value_nonneg(s: Seq<u8>)
    requires
        all_digits(s),
    ensures
        dec_value(s) >= 0,
    decreases s.len(),
{
    if s.len() > 0 {
        assert(all_digits(s.drop_last()));
        lemma_dec_value_nonneg(s.drop_last());
    }
}

proof fn lemma_dec_value_prefix_le(s: Seq<u8>, i: int)
    requires
        all_digits(s),
        0 <= i <= s.len(),
    ensures
        dec_value(s.take(i)) <= dec_value(s),
    decreases s.len() - i,
{
    if i < s.len() {
        assert(s.take(i + 1).drop_last() =~= s.take(i));
        assert(all_digits(s.take(i)));
        lemma_dec_value_nonneg(s.take(i));
        assert(dec_value(s.take(i + 1)) == dec_value(s.take(i)) * 10 + (s[i] - 48));
        lemma_dec_value_prefix_le(s, i + 1);
    } else {
        assert(s.take(i) =~= s);
    }
}

/// The digit part of a numeral: the bytes after one optional leading
/// plus sign.
pub open spec fn digit_part(s: Seq<u8>) -> Seq<u8> {
    if s.len() > 0 && s[0] == 43 {
        s.drop_first()
    } else {
        s
    }
}

/// Parses `val` as a positive decimal integer, as `usize` parsing reads
/// it: one optional leading plus sign, then digits. Succeeds exactly
/// when the digit part is a non-empty run of digit bytes denoting a
/// value that is positive and fits a `usize`; otherwise returns the
/// input verbatim as the error.
pub fn parse_positive_int(val: &str) -> (r: Result<usize, String>)
    ensures
        match r {
            Ok(n) => {
                &&& digit_part(val.spec_bytes()).len() > 0
                &&& all_digits(digit_part(val.spec_bytes()))
                &&& n as int == dec_value(digit_part(val.spec_bytes()))
                &&& n > 0
            },
            Err(e) => {
                &&& e@ == val@
                &&& !(digit_part(val.spec_bytes()).len() > 0 && all_digits(
                    digit_part(val.spec_bytes()),
                ) && 0 < dec_value(digit_part(val.spec_bytes())) <= usize::MAX as int)
            },
        },
{
    let b = val.as_bytes();
    let ghost dp = digit_part(val.spec_bytes());
    let start: usize = if b.len() > 0 && b[0] == 43 {
        1
    } else {
        0
    };
    proof {
        assert(dp =~= b@.skip(start as int));
    }
    if b.len() == start {
        return Err(val.to_owned());
    }
    let mut acc: usize = 0;
    let mut i: usize = start;
    while i < b.len()
        invariant
            start <= i <= b@.len(),
            b@ == val.spec_bytes(),
            dp == digit_part(val.spec_bytes()),
            dp == b@.skip(start as int),
            all_digits(dp.take(i - start)),
            acc as int == dec_value(dp.take(i - start)),
        decreases b@.len() - i,
    {
        let c = b[i];
        proof {
            assert(dp[i - start] == b@[i as int]);
        }
        if c < 48 || c > 57 {
            assert(!is_digit(dp[i - start]));
            return Err(val.to_owned());
        }
        let d = (c - 48) as usize;
        proof {
            assert(dp.take(i - start + 1).drop_last() =~= dp.take(i - start));
            assert(dp.take(i - start + 1).last() == dp[i - start]);
            assert(dec_value(dp.take(i - start + 1)) == acc as int * 10 + (c - 48));
        }
        let next = match acc.checked_mul(10) {
            Some(m) => m.checked_add(d),
            None => None,
        };
        match next {
            None => {
                proof {
                    if all_digits(dp) {
                        lemma_dec_value_prefix_le(dp, i - start + 1);
                    }
                }
                return Err(val.to_owned());
            },
            Some(v) => {
                acc = v;
            },
        }
        i = i + 1;
    }
    proof {
        assert(dp.take(b@.len() - start) =~= dp);
    }
    if acc == 0 {
        Err(val.to_owned())
    } else {
        Ok(acc)
    }
}

} // verus!
