//! Base-10 text for unsigned 64-bit integers.
//!
//! The wire protocol renders integers and lengths as ASCII decimal digits.
//! `digits_value` gives the number a digit string denotes, `spec_parse_u64`
//! the partial reading of a whole token, and `spec_fmt_u64` the canonical
//! rendering (no sign, no leading zeros). `parse_u64` and `format_u64` are
//! the executable sides, and the lemmas tie the two directions together.

use vstd::arithmetic::div_mod::lemma_fundamental_div_mod;
use vstd::prelude::*;
use vstd::string::StringSliceAdditionalSpecFns;

verus! {

/// ASCII digit, `'0'` through `'9'`.
pub open spec fn is_digit(b: u8) -> bool {
    48 <= b && b <= 57
}

pub open spec fn all_digits(s: Seq<u8>) -> bool {
    forall|i: int| 0 <= i < s.len() ==> is_digit(#[trigger] s[i])
}

pub open spec fn digit_val(b: u8) -> nat {
    if b >= 48 {
        (b - 48) as nat
    } else {
        0
    }
}

/// Value of a digit string, most significant digit first.
pub open spec fn digits_value(s: Seq<u8>) -> nat
    decreases s.len(),
{
    if s.len() == 0 {
        0
    } else {
        digits_value(s.drop_last()) * 10 + digit_val(s.last())
    }
}

/// What reading a whole decimal token yields: the token must be non-empty,
/// all digits, and denote a value that fits in a `u64`. Leading zeros are
/// accepted, a sign is not.
pub open spec fn spec_parse_u64(s: Seq<u8>) -> Option<u64> {
    if s.len() > 0 && all_digits(s) && digits_value(s) <= u64::MAX {
        Some(digits_value(s) as u64)
    } else {
        None
    }
}

proof fn lemma_digits_value_step(s: Seq<u8>, i: int)
    requires
        0 <= i < s.len(),
    ensures
        digits_value(s.take(i + 1)) == digits_value(s.take(i)) * 10 + digit_val(s[i]),
{
    assert(s.take(i + 1).drop_last() =~= s.take(i));
    assert(s.take(i + 1).last() == s[i]);
}

/// A digit string's value only grows as digits are appended.
proof fn lemma_digits_value_take_le(s: Seq<u8>, i: int)
    requires
        0 <= i <= s.len(),
    ensures
        digits_value(s.take(i)) <= digits_value(s),
    decreases s.len() - i,
{
    if i == s.len() {
        assert(s.take(i) =~= s);
    } else {
        lemma_digits_value_step(s, i);
        lemma_digits_value_take_le(s, i + 1);
    }
}

/// Reads a whole decimal token. Returns the value exactly when the token is
/// non-empty, consists of digits only, and fits in a `u64`.
pub fn parse_u64(bytes: &[u8]) -> (r: Option<u64>)
    ensures
        r == spec_parse_u64(bytes@),
{
    if bytes.len() == 0 {
        return None;
    }
    let ghost s = bytes@;
    let mut acc: u64 = 0;
    let mut i: usize = 0;
    while i < bytes.len()
        invariant
            0 <= i <= s.len(),
            s == bytes@,
            all_digits(s.take(i as int)),
            acc == digits_value(s.take(i as int)),
        decreases s.len() - i,
    {
        let b = bytes[i];
        if b < 48 || b > 57 {
            assert(!is_digit(s[i as int]));
            return None;
        }
        let d: u64 = (b - 48) as u64;
        proof {
            lemma_digits_value_step(s, i as int);
        }
        if acc > (u64::MAX - d) / 10 {
            proof {
                lemma_fundamental_div_mod((u64::MAX - d) as int, 10);
                assert(acc * 10 + d > u64::MAX) by (nonlinear_arith)
                    requires
                        acc >= ((u64::MAX - d) / 10) + 1,
                        u64::MAX - d == ((u64::MAX - d) / 10) * 10 + ((u64::MAX - d) % 10),
                        0 <= (u64::MAX - d) % 10 < 10,
                ;
                lemma_digits_value_take_le(s, i + 1);
            }
            return None;
        }
        proof {
            lemma_fundamental_div_mod((u64::MAX - d) as int, 10);
            assert(acc * 10 + d <= u64::MAX) by (nonlinear_arith)
                requires
                    acc <= (u64::MAX - d) / 10,
                    u64::MAX - d == ((u64::MAX - d) / 10) * 10 + ((u64::MAX - d) % 10),
                    0 <= (u64::MAX - d) % 10 < 10,
            ;
        }
        acc = acc * 10 + d;
        i = i + 1;
    }
    assert(s.take(i as int) =~= s);
    Some(acc)
}

/// Canonical decimal rendering of a natural number: no sign, no leading
/// zeros (`0` renders as `"0"`).
pub open spec fn spec_fmt_nat(n: nat) -> Seq<u8>
    decreases n,
{
    if n < 10 {
        seq![(48 + n) as u8]
    } else {
        spec_fmt_nat(n / 10).push((48 + n % 10) as u8)
    }
}

pub open spec fn spec_fmt_u64(n: u64) -> Seq<u8> {
    spec_fmt_nat(n as nat)
}

pub proof fn lemma_fmt_nat_digits(n: nat)
    ensures
        spec_fmt_nat(n).len() >= 1,
        all_digits(spec_fmt_nat(n)),
    decreases n,
{
    if n >= 10 {
        lemma_fmt_nat_digits(n / 10);
        assert forall|i: int| 0 <= i < spec_fmt_nat(n).len() implies is_digit(
            #[trigger] spec_fmt_nat(n)[i],
        ) by {
            if i < spec_fmt_nat(n / 10).len() {
                assert(spec_fmt_nat(n)[i] == spec_fmt_nat(n / 10)[i]);
            }
        }
    }
}

/// Rendering then reading gives the number back.
pub proof fn lemma_fmt_nat_value(n: nat)
    ensures
        digits_value(spec_fmt_nat(n)) == n,
    decreases n,
{
    if n < 10 {
        assert(spec_fmt_nat(n).drop_last() =~= Seq::<u8>::empty());
        assert(digits_value(Seq::<u8>::empty()) == 0);
        assert(spec_fmt_nat(n).last() == (48 + n) as u8);
        assert(digit_val((48 + n) as u8) == n);
    } else {
        lemma_fmt_nat_value(n / 10);
        assert(spec_fmt_nat(n).drop_last() =~= spec_fmt_nat(n / 10));
        assert(spec_fmt_nat(n).last() == (48 + n % 10) as u8);
        assert(digit_val((48 + n % 10) as u8) == n % 10);
        lemma_fundamental_div_mod(n as int, 10);
        assert(digits_value(spec_fmt_nat(n)) == (n / 10) * 10 + n % 10);
    }
}

pub proof fn lemma_parse_fmt_u64(n: u64)
    ensures
        spec_parse_u64(spec_fmt_u64(n)) == Some(n),
{
    lemma_fmt_nat_digits(n as nat);
    lemma_fmt_nat_value(n as nat);
}

/// Renders `n` in decimal.
pub fn format_u64(n: u64) -> (r: Vec<u8>)
    ensures
        r@ == spec_fmt_u64(n),
{
    let mut m: u64 = n;
    let mut tmp: Vec<u8> = Vec::new();
    tmp.push((m % 10) as u8 + 48);
    proof {
        assert(tmp@.reverse() =~= seq![(48 + (n as nat) % 10) as u8]);
        if n < 10 {
            assert(spec_fmt_nat(n as nat) =~= tmp@.reverse());
        }
    }
    m = m / 10;
    while m > 0
        invariant
            tmp@.len() >= 1,
            m > 0 ==> spec_fmt_nat(n as nat) == spec_fmt_nat(m as nat) + tmp@.reverse(),
            m == 0 ==> spec_fmt_nat(n as nat) == tmp@.reverse(),
        decreases m,
    {
        let d: u8 = (m % 10) as u8 + 48;
        let ghost old_tmp = tmp@;
        tmp.push(d);
        proof {
            assert(tmp@.reverse() =~= seq![d] + old_tmp.reverse());
        }
        m = m / 10;
        proof {
            if m > 0 {
                assert(spec_fmt_nat(n as nat) =~= spec_fmt_nat(m as nat) + tmp@.reverse());
            } else {
                assert(spec_fmt_nat(n as nat) =~= tmp@.reverse());
            }
        }
    }
    let mut r: Vec<u8> = Vec::new();
    let mut j: usize = 0;
    while j < tmp.len()
        invariant
            0 <= j <= tmp@.len(),
            r@.len() == j,
            forall|k: int| 0 <= k < j ==> r@[k] == tmp@[tmp@.len() - 1 - k],
        decreases tmp@.len() - j,
    {
        r.push(tmp[tmp.len() - 1 - j]);
        j = j + 1;
    }
    assert(r@ =~= tmp@.reverse());
    r
}

/// Reads the optional millisecond count given on a command line.
pub fn duration_from_ms_str(src: &str) -> (r: Option<u64>)
    ensures
        r == spec_parse_u64(src.spec_bytes()),
{
    parse_u64(src.as_bytes())
}

} // verus!
