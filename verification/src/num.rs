//! Decimal text of unsigned integers, as bytes.

use vstd::prelude::*;

verus! {

/// The byte `+`.
pub const PLUS: u8 = 43;

/// The byte `0`.
pub const ZERO: u8 = 48;

/// The byte `9`.
pub const NINE: u8 = 57;

/// Every byte of `s` is a decimal digit.
pub open spec fn all_digits(s: Seq<u8>) -> bool {
    forall|i: int| 0 <= i < s.len() ==> ZERO <= #[trigger] s[i] <= NINE
}

/// The number that the digits `s` write, most significant first.
pub open spec fn digits_value(s: Seq<u8>) -> nat
    decreases s.len(),
{
    if s.len() == 0 {
        0
    } else {
        digits_value(s.drop_last()) * 10 + (s.last() - ZERO) as nat
    }
}

/// `s` without one leading `+`.
pub open spec fn unsigned_body(s: Seq<u8>) -> Seq<u8> {
    if s.len() > 0 && s[0] == PLUS {
        s.subrange(1, s.len() as int)
    } else {
        s
    }
}

/// What `s` parses to as an unsigned decimal number of at most `max`: an
/// optional `+`, then one or more digits and nothing else. Leading zeros count
/// as digits.
pub open spec fn spec_parse_decimal(s: Seq<u8>, max: nat) -> Option<nat> {
    let d = unsigned_body(s);
    if d.len() > 0 && all_digits(d) && digits_value(d) <= max {
        Some(digits_value(d))
    } else {
        None
    }
}

/// The shortest decimal text of `n`.
pub open spec fn spec_decimal(n: nat) -> Seq<u8>
    decreases n,
{
    if n < 10 {
        seq![(ZERO + n) as u8]
    } else {
        spec_decimal(n / 10).push((ZERO + n % 10) as u8)
    }
}

/// A number written in digits is at least the number that any of its prefixes writes.
pub proof fn lemma_prefix_value_le(s: Seq<u8>, k: int)
    requires
        0 <= k <= s.len(),
    ensures
        digits_value(s.take(k)) <= digits_value(s),
    decreases s.len(),
{
    if k == s.len() {
        assert(s.take(k) =~= s);
    } else {
        assert(s.drop_last().take(k) =~= s.take(k));
        lemma_prefix_value_le(s.drop_last(), k);
    }
}

/// Parses `s` as an unsigned decimal number of at most `max`.
pub fn parse_decimal(s: &[u8], max: u64) -> (r: Option<u64>)
    ensures
        match spec_parse_decimal(s@, max as nat) {
            Some(v) => r == Some(v as u64),
            None => r.is_none(),
        },
{
    let n: usize = s.len();
    let start: usize = if n > 0 && s[0] == PLUS { 1 } else { 0 };
    let ghost d = unsigned_body(s@);
    assert(d.len() == n - start);
    if start == n {
        return None;
    }
    let mut acc: u64 = 0;
    let mut i: usize = start;
    while i < n
        invariant
            start <= i <= n,
            n == s@.len(),
            d == unsigned_body(s@),
            d.len() == n - start,
            forall|j: int| 0 <= j < d.len() ==> d[j] == s@[j + start],
            all_digits(d.take(i - start)),
            acc == digits_value(d.take(i - start)),
            acc <= max,
        decreases n - i,
    {
        let c: u8 = s[i];
        let ghost k: int = i - start;
        assert(d[k] == c);
        if c < ZERO || c > NINE {
            return None;
        }
        let digit: u64 = (c - ZERO) as u64;
        proof {
            assert(d.take(k + 1).drop_last() =~= d.take(k));
            assert(d.take(k + 1).last() == c);
            assert(digits_value(d.take(k + 1)) == acc * 10 + digit);
            assert forall|j: int| 0 <= j < k + 1 implies ZERO <= #[trigger] d.take(k + 1)[j]
                <= NINE by {
                if j < k {
                    assert(d.take(k)[j] == d[j]);
                }
            }
        }
        if digit > max || acc > (max - digit) / 10 {
            proof {
                if all_digits(d) {
                    lemma_prefix_value_le(d, k + 1);
                }
            }
            return None;
        }
        acc = acc * 10 + digit;
        i = i + 1;
    }
    assert(d.take(n - start) =~= d);
    Some(acc)
}

/// Writes `n` in decimal, without leading zeros.
pub fn format_decimal(n: u64) -> (r: Vec<u8>)
    ensures
        r@ == spec_decimal(n as nat),
    decreases n,
{
    if n < 10 {
        let mut v: Vec<u8> = Vec::new();
        v.push(ZERO + (n as u8));
        assert(v@ =~= seq![(ZERO + n) as u8]);
        v
    } else {
        let mut v = format_decimal(n / 10);
        v.push(ZERO + ((n % 10) as u8));
        v
    }
}

/// The decimal text of a number is digits only, starts with no sign, and writes
/// that number.
pub proof fn lemma_decimal_digits(n: nat)
    ensures
        spec_decimal(n).len() > 0,
        all_digits(spec_decimal(n)),
        digits_value(spec_decimal(n)) == n,
        unsigned_body(spec_decimal(n)) == spec_decimal(n),
    decreases n,
{
    let s = spec_decimal(n);
    if n < 10 {
        assert(s.drop_last() =~= Seq::<u8>::empty());
        assert(digits_value(s.drop_last()) == 0);
    } else {
        lemma_decimal_digits(n / 10);
        let p = spec_decimal(n / 10);
        assert(s.drop_last() =~= p);
        assert(s[0] == p[0]);
    }
}

/// Reading back the decimal text of a number gives that number.
pub proof fn lemma_parse_format_decimal(n: nat, max: nat)
    requires
        n <= max,
    ensures
        spec_parse_decimal(spec_decimal(n), max) == Some(n),
{
    lemma_decimal_digits(n);
}

} // verus!
