//! Decimal numbers in text: reading one and writing one.
use crate::text::{chars_of, string_of};
use vstd::prelude::*;

verus! {

/// Whether `c` is one of the ASCII digits.
pub open spec fn is_digit(c: char) -> bool {
    '0' <= c <= '9'
}

/// Whether `s` holds ASCII digits only.
pub open spec fn all_digits(s: Seq<char>) -> bool {
    forall|i: int| 0 <= i < s.len() ==> is_digit(#[trigger] s[i])
}

/// The number that the digits of `s` denote in base ten.
pub open spec fn digits_value(s: Seq<char>) -> nat
    decreases s.len(),
{
    if s.len() == 0 {
        0
    } else {
        digits_value(s.drop_last()) * 10 + ((s.last() as int) - ('0' as int)) as nat
    }
}

/// The number that `s` denotes as a `u32`: an optional `+`, then at least
/// one digit and nothing else, the value within the type's range. This is
/// what the standard library's parser for `u32` accepts.
pub open spec fn decimal_u32(s: Seq<char>) -> Option<u32> {
    let digits = if s.len() > 0 && s[0] == '+' {
        s.drop_first()
    } else {
        s
    };
    if digits.len() > 0 && all_digits(digits) && digits_value(digits) <= u32::MAX {
        Some(digits_value(digits) as u32)
    } else {
        None
    }
}

/// A number with more digits in front of the same start is no smaller.
pub proof fn lemma_digits_value_grows(s: Seq<char>, k: int)
    requires
        0 <= k <= s.len(),
        all_digits(s),
    ensures
        digits_value(s.take(k)) <= digits_value(s),
    decreases s.len(),
{
    if k == s.len() {
        assert(s.take(k) == s);
    } else {
        assert(s.drop_last().take(k) == s.take(k));
        assert(all_digits(s.drop_last()));
        lemma_digits_value_grows(s.drop_last(), k);
        assert(is_digit(s.last()));
    }
}

/// Reads `s` as a `u32` in base ten.
pub fn parse_u32(s: &str) -> (r: Option<u32>)
    ensures
        r == decimal_u32(s@),
{
    let v = chars_of(s);
    let start: usize = if v.len() > 0 && v[0] == '+' {
        1
    } else {
        0
    };
    let ghost digits = v@.subrange(start as int, v@.len() as int);
    assert(digits == (if v@.len() > 0 && v@[0] == '+' {
        v@.drop_first()
    } else {
        v@
    }));
    if v.len() == start {
        return None;
    }
    let mut acc: u64 = 0;
    let mut i: usize = start;
    while i < v.len()
        invariant
            start <= i <= v.len(),
            v@ == s@,
            digits.len() > 0,
            digits == v@.subrange(start as int, v@.len() as int),
            digits == (if v@.len() > 0 && v@[0] == '+' {
                v@.drop_first()
            } else {
                v@
            }),
            all_digits(digits.take(i - start)),
            acc == digits_value(digits.take(i - start)),
            acc <= u32::MAX,
        decreases v.len() - i,
    {
        let c = v[i];
        let ghost upto = digits.take(i - start + 1);
        assert(digits[i - start] == c);
        if !('0' <= c && c <= '9') {
            assert(!all_digits(digits));
            return None;
        }
        assert(upto.drop_last() == digits.take(i - start));
        assert(upto.last() == c);
        assert(all_digits(upto)) by {
            assert forall|k: int| 0 <= k < upto.len() implies is_digit(#[trigger] upto[k]) by {
                if k < upto.len() - 1 {
                    assert(upto[k] == digits.take(i - start)[k]);
                }
            }
        }
        let d: u64 = (c as u8 - 48u8) as u64;
        let next: u64 = acc * 10 + d;
        assert(next == digits_value(upto));
        if next > 0xffff_ffff {
            proof {
                if all_digits(digits) {
                    lemma_digits_value_grows(digits, i - start + 1);
                }
            }
            return None;
        }
        acc = next;
        i = i + 1;
    }
    assert(digits.take(digits.len() as int) == digits);
    Some(acc as u32)
}

/// The digit character for a value below ten.
pub open spec fn digit_char(d: nat) -> char {
    ((d % 10) as int + ('0' as int)) as char
}

/// `n` written in base ten, without sign and without leading zeros (zero is
/// written `0`).
pub open spec fn decimal(n: nat) -> Seq<char>
    decreases n,
{
    if n < 10 {
        seq![digit_char(n)]
    } else {
        decimal(n / 10).push(digit_char(n % 10))
    }
}

/// Writes `n` in base ten.
pub fn decimal_string(n: usize) -> (s: String)
    ensures
        s@ == decimal(n as nat),
{
    let mut low: Vec<char> = Vec::new();
    let mut rest: usize = n;
    while rest >= 10
        invariant
            decimal(n as nat) == decimal(rest as nat) + low@.reverse(),
        decreases rest,
    {
        let d: u8 = (rest % 10) as u8;
        let c: char = (d + 48u8) as char;
        assert(c == digit_char((rest % 10) as nat));
        let ghost before = low@;
        low.push(c);
        proof {
            assert(low@.reverse() =~= seq![c] + before.reverse());
            assert(decimal(rest as nat) == decimal((rest / 10) as nat).push(c));
            assert(decimal((rest / 10) as nat).push(c) + before.reverse() =~= decimal(
                (rest / 10) as nat,
            ) + (seq![c] + before.reverse()));
        }
        rest = rest / 10;
    }
    let d: u8 = rest as u8;
    let c: char = (d + 48u8) as char;
    assert(c == digit_char(rest as nat));
    let mut out: Vec<char> = Vec::new();
    out.push(c);
    let mut i: usize = low.len();
    while i > 0
        invariant
            i <= low.len(),
            out@ == seq![c] + low@.reverse().take(low@.len() - i),
        decreases i,
    {
        i = i - 1;
        let ghost before = out@;
        out.push(low[i]);
        assert(out@ =~= seq![c] + low@.reverse().take(low@.len() - i));
    }
    assert(low@.reverse().take(low@.len() as int) == low@.reverse());
    string_of(&out)
}

} // verus!
