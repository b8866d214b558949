//! Decimal numbers: writing a number in decimal and reading one back.
use vstd::prelude::*;
use crate::chars::{spec_is_dec_digit, PLUS};

verus! {

/// The value of a sequence of decimal digits (most significant first).
pub open spec fn spec_decimal_value(d: Seq<u8>) -> nat
    decreases d.len(),
{
    if d.len() == 0 {
        0
    } else {
        spec_decimal_value(d.drop_last()) * 10 + (d.last() - 48) as nat
    }
}

pub open spec fn all_dec_digits(d: Seq<u8>) -> bool {
    forall|i: int| 0 <= i < d.len() ==> #[trigger] spec_is_dec_digit(d[i])
}

pub open spec fn pow10(n: nat) -> nat
    decreases n,
{
    if n == 0 { 1 } else { 10 * pow10((n - 1) as nat) }
}

pub proof fn lemma_pow10_monotone(i: nat, k: nat)
    requires
        i <= k,
    ensures
        1 <= pow10(i) <= pow10(k),
    decreases k,
{
    if k > i {
        lemma_pow10_monotone(i, (k - 1) as nat);
    } else if i > 0 {
        lemma_pow10_monotone((i - 1) as nat, (i - 1) as nat);
    }
}

pub proof fn lemma_pow10_bound(i: nat)
    requires
        i <= 9,
    ensures
        1 <= pow10(i) <= 1_000_000_000,
{
    lemma_pow10_monotone(i, 9);
    reveal_with_fuel(pow10, 10);
}

/// The decimal representation of `n`, without leading zeros ("0" for zero).
pub open spec fn spec_decimal_digits(n: nat) -> Seq<u8>
    decreases n,
{
    if n < 10 {
        seq![(n + 48) as u8]
    } else {
        spec_decimal_digits(n / 10).push((n % 10 + 48) as u8)
    }
}

pub proof fn lemma_decimal_digits(n: nat)
    ensures
        all_dec_digits(spec_decimal_digits(n)),
        spec_decimal_value(spec_decimal_digits(n)) == n,
        spec_decimal_digits(n).len() >= 1,
        spec_decimal_digits(n)[0] != 48 || n == 0,
    decreases n,
{
    let d = spec_decimal_digits(n);
    if n >= 10 {
        lemma_decimal_digits(n / 10);
        assert(d.drop_last() == spec_decimal_digits(n / 10));
        assert(d.last() == (n % 10 + 48) as u8);
        assert(n == (n / 10) * 10 + n % 10);
        assert(spec_decimal_digits(n / 10)[0] != 48);
        assert(d[0] == spec_decimal_digits(n / 10)[0]);
    } else {
        assert(d.drop_last() == Seq::<u8>::empty());
        assert(spec_decimal_value(Seq::<u8>::empty()) == 0);
    }
}

/// A number below `10^k` has at most `k` digits.
pub proof fn lemma_decimal_digits_len(n: nat, k: nat)
    requires
        n < pow10(k),
        k >= 1,
    ensures
        spec_decimal_digits(n).len() <= k,
    decreases k,
{
    if n >= 10 {
        let k1 = (k - 1) as nat;
        assert(pow10(k) == 10 * pow10(k1));
        assert(n / 10 < pow10(k1)) by (nonlinear_arith)
            requires
                n < pow10(k),
                pow10(k) == 10 * pow10(k1),
        ;
        if k1 == 0 {
            assert(pow10(0) == 1);
        } else {
            lemma_decimal_digits_len(n / 10, k1);
        }
    }
}

/// The decimal digits of `n`, as `u64::to_string` writes them.
pub fn decimal_digits(n: u64) -> (r: Vec<u8>)
    ensures
        r@ == spec_decimal_digits(n as nat),
{
    let mut rev: Vec<u8> = Vec::new();
    let mut m: u64 = n;
    while m >= 10
        invariant
            spec_decimal_digits(n as nat) == spec_decimal_digits(m as nat) + rev@.reverse(),
        decreases m,
    {
        let d = (m % 10) as u8 + 48;
        rev.push(d);
        assert(rev@.reverse() == seq![d] + rev@.drop_last().reverse()) by {
            assert(rev@.drop_last().reverse() == rev@.reverse().drop_first());
        }
        m = m / 10;
    }
    rev.push(m as u8 + 48);
    let mut out: Vec<u8> = Vec::new();
    let len: usize = rev.len();
    let mut i: usize = len;
    while i > 0
        invariant
            i <= len == rev.len(),
            out@ == rev@.reverse().subrange(0, (len - i) as int),
        decreases i,
    {
        i = i - 1;
        out.push(rev[i]);
        assert(out@ == rev@.reverse().subrange(0, (len - i) as int));
    }
    assert(rev@.reverse().subrange(0, len as int) == rev@.reverse());
    out
}

/// What `u32::from_str` gives on `text`: an optional `+`, then one or more
/// decimal digits whose value fits in a `u32`.
pub open spec fn u32_digits(text: Seq<u8>) -> Seq<u8> {
    if text.len() > 0 && text[0] == PLUS { text.drop_first() } else { text }
}

pub open spec fn spec_parse_u32(text: Seq<u8>) -> Option<u32> {
    let digits = u32_digits(text);
    if digits.len() > 0 && all_dec_digits(digits) && spec_decimal_value(digits) <= u32::MAX {
        Some(spec_decimal_value(digits) as u32)
    } else {
        None
    }
}

pub proof fn lemma_decimal_value_prefix(d: Seq<u8>, i: int)
    requires
        0 <= i < d.len(),
    ensures
        spec_decimal_value(d.subrange(0, i + 1)) == spec_decimal_value(d.subrange(0, i)) * 10 + (d[i] - 48) as nat,
{
    assert(d.subrange(0, i + 1).drop_last() == d.subrange(0, i));
}

pub proof fn lemma_decimal_value_monotone(d: Seq<u8>, i: int)
    requires
        0 <= i <= d.len(),
        all_dec_digits(d),
    ensures
        spec_decimal_value(d.subrange(0, i)) <= spec_decimal_value(d),
    decreases d.len() - i,
{
    if i < d.len() {
        lemma_decimal_value_prefix(d, i);
        lemma_decimal_value_monotone(d, i + 1);
    } else {
        assert(d.subrange(0, i) == d);
    }
}

/// Reads `text` as `u32::from_str` does.
pub fn parse_u32(text: &[u8]) -> (r: Option<u32>)
    ensures
        r == spec_parse_u32(text@),
{
    let len = text.len();
    let start: usize = if len > 0 && text[0] == PLUS { 1 } else { 0 };
    let ghost digits = u32_digits(text@);
    assert(digits == text@.subrange(start as int, len as int));
    if start >= len {
        return None;
    }
    let mut value: u32 = 0;
    let mut i: usize = start;
    while i < len
        invariant
            start <= i <= len == text@.len(),
            digits == u32_digits(text@),
            digits == text@.subrange(start as int, len as int),
            all_dec_digits(digits.subrange(0, i - start)),
            value as nat == spec_decimal_value(digits.subrange(0, i - start)),
        decreases len - i,
    {
        let c = text[i];
        if !(48 <= c && c <= 57) {
            assert(!all_dec_digits(digits)) by {
                assert(digits[i - start] == c);
                assert(!spec_is_dec_digit(digits[i - start]));
            }
            return None;
        }
        proof {
            lemma_decimal_value_prefix(digits, i - start);
        }
        let d = (c - 48) as u32;
        if value > 429496729 || (value == 429496729 && d > 5) {
            proof {
                assert(spec_decimal_value(digits.subrange(0, i - start + 1)) > u32::MAX);
                if all_dec_digits(digits) {
                    lemma_decimal_value_monotone(digits, i - start + 1);
                }
            }
            return None;
        }
        value = value * 10 + d;
        i = i + 1;
        assert(all_dec_digits(digits.subrange(0, i - start)));
    }
    assert(digits.subrange(0, len - start) == digits);
    Some(value)
}

/// The digit for the value `d` (`0`-`9`, then `a`-`f`).
pub open spec fn digit_char(d: nat) -> u8 {
    if d < 10 { (48 + d) as u8 } else { (87 + d) as u8 }
}

/// The digits of `n` in base `base`, lower-case, without leading zeros.
pub open spec fn spec_radix_digits(n: nat, base: nat) -> Seq<u8>
    decreases n,
{
    if base < 2 || n < base {
        seq![digit_char(n)]
    } else {
        proof {
            assert(n / base < n) by (nonlinear_arith)
                requires
                    base >= 2,
                    n >= base,
            ;
        }
        spec_radix_digits(n / base, base).push(digit_char(n % base))
    }
}

/// The digits of `n` in base `base` (2 to 16), as `{:x}` or `{:o}` write them.
pub fn radix_digits(n: u64, base: u64) -> (r: Vec<u8>)
    requires
        2 <= base <= 16,
    ensures
        r@ == spec_radix_digits(n as nat, base as nat),
{
    let mut rev: Vec<u8> = Vec::new();
    let mut m: u64 = n;
    while m >= base
        invariant
            2 <= base <= 16,
            spec_radix_digits(n as nat, base as nat) == spec_radix_digits(m as nat, base as nat) + rev@.reverse(),
        decreases m,
    {
        let v = (m % base) as u8;
        let d: u8 = if v < 10 { 48 + v } else { 87 + v };
        rev.push(d);
        assert(rev@.reverse() == seq![d] + rev@.drop_last().reverse()) by {
            assert(rev@.drop_last().reverse() == rev@.reverse().drop_first());
        }
        assert(m / base < m) by (nonlinear_arith)
            requires
                base >= 2,
                m >= base,
        ;
        m = m / base;
    }
    let v = m as u8;
    rev.push(if v < 10 { 48 + v } else { 87 + v });
    let mut out: Vec<u8> = Vec::new();
    let len: usize = rev.len();
    let mut i: usize = len;
    while i > 0
        invariant
            i <= len == rev.len(),
            out@ == rev@.reverse().subrange(0, (len - i) as int),
        decreases i,
    {
        i = i - 1;
        out.push(rev[i]);
        assert(out@ == rev@.reverse().subrange(0, (len - i) as int));
    }
    assert(rev@.reverse().subrange(0, len as int) == rev@.reverse());
    out
}

} // verus!
