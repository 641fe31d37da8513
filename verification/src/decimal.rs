//! Decimal numerals: writing integers out, and reading them back.

use vstd::prelude::*;
use crate::text::{chars_of, push_char};

verus! {

/// The character for the digit `d`, for `0 <= d <= 9`.
pub open spec fn digit_char(d: int) -> char {
    (48 + d) as char
}

/// The decimal numeral of `n`, without sign or leading zeros.
pub open spec fn digits(n: nat) -> Seq<char>
    decreases n,
{
    if n < 10 {
        seq![digit_char(n as int)]
    } else {
        digits(n / 10).push(digit_char((n % 10) as int))
    }
}

/// The decimal numeral of `v`, with a leading `-` when `v` is negative.
pub open spec fn decimal(v: int) -> Seq<char> {
    if v < 0 {
        seq!['-'] + digits((-v) as nat)
    } else {
        digits(v as nat)
    }
}

/// Whether `c` is one of `0` to `9`.
pub open spec fn is_digit(c: char) -> bool {
    '0' <= c <= '9'
}

/// Whether `s` holds digits only.
pub open spec fn all_digits(s: Seq<char>) -> bool {
    forall|i: int| 0 <= i < s.len() ==> is_digit(#[trigger] s[i])
}

/// The number that the digit string `s` denotes; leading zeros are allowed.
pub open spec fn number(s: Seq<char>) -> nat
    decreases s.len(),
{
    if s.len() == 0 {
        0
    } else {
        (number(s.drop_last()) * 10 + (s.last() as int - 48)) as nat
    }
}

/// The number denoted by `s` when `s` is a non-empty digit string whose value
/// is at most `limit`.
pub open spec fn bounded_number(s: Seq<char>, limit: nat) -> Option<nat> {
    if s.len() > 0 && all_digits(s) && number(s) <= limit {
        Some(number(s))
    } else {
        None
    }
}

/// `s` without a leading `+`.
pub open spec fn unsigned_part(s: Seq<char>) -> Seq<char> {
    if s.len() > 0 && s[0] == '+' {
        s.subrange(1, s.len() as int)
    } else {
        s
    }
}

/// Whether `s` is a base-10 numeral of a 32-bit signed integer: an optional
/// `+` or `-`, then at least one digit, the value within range.
pub open spec fn reads_as_i32(s: Seq<char>) -> bool {
    if s.len() > 0 && s[0] == '-' {
        bounded_number(s.subrange(1, s.len() as int), 0x8000_0000) is Some
    } else {
        bounded_number(unsigned_part(s), 0x7fff_ffff) is Some
    }
}

/// The byte that `s` denotes: an optional `+`, then at least one digit, the
/// value at most 255.
pub open spec fn reads_as_u8(s: Seq<char>) -> Option<u8> {
    match bounded_number(unsigned_part(s), 255) {
        Some(n) => Some(n as u8),
        None => None,
    }
}

/// A prefix of a digit string denotes no more than the whole string.
pub proof fn lemma_number_prefix(s: Seq<char>, k: int)
    requires
        all_digits(s),
        0 <= k <= s.len(),
    ensures
        number(s.take(k)) <= number(s),
    decreases s.len(),
{
    if k == s.len() {
        assert(s.take(k) == s);
    } else {
        let t = s.drop_last();
        assert(t.take(k) == s.take(k));
        lemma_number_prefix(t, k);
    }
}

/// Reading back what was written: the numeral of a number is made of digits
/// and denotes that number.
pub proof fn lemma_digits(n: nat)
    ensures
        digits(n).len() > 0,
        all_digits(digits(n)),
        number(digits(n)) == n,
    decreases n,
{
    if n < 10 {
        let s = digits(n);
        assert(number(s.drop_last()) == 0);
    } else {
        lemma_digits(n / 10);
        let s = digits(n);
        assert(s.drop_last() =~= digits(n / 10));
    }
}

fn digit_of(d: u64) -> (c: char)
    requires
        d < 10,
    ensures
        c == digit_char(d as int),
{
    let b: u8 = 48 + d as u8;
    b as char
}

/// Appends the decimal numeral of `n` to `out`.
pub fn push_natural(out: &mut String, n: u64)
    ensures
        final(out)@ == old(out)@ + digits(n as nat),
    decreases n,
{
    if n >= 10 {
        push_natural(out, n / 10);
    }
    push_char(out, digit_of(n % 10));
}

/// Appends the decimal numeral of `v` to `out`.
pub fn push_decimal(out: &mut String, v: i64)
    ensures
        final(out)@ == old(out)@ + decimal(v as int),
{
    if v < 0 {
        push_char(out, '-');
        let magnitude: u64 = if v == i64::MIN {
            0x8000_0000_0000_0000
        } else {
            (-v) as u64
        };
        push_natural(out, magnitude);
    } else {
        push_natural(out, v as u64);
    }
}

/// Reads the digit string `v[from..]`, giving its value when that is at most
/// `limit`.
fn read_digits(v: &Vec<char>, from: usize, limit: u64) -> (r: Option<u64>)
    requires
        from <= v.len(),
        limit <= 0xffff_ffff,
    ensures
        match bounded_number(v@.subrange(from as int, v.len() as int), limit as nat) {
            Some(n) => r == Some(n as u64),
            None => r is None,
        },
{
    let ghost s = v@.subrange(from as int, v.len() as int);
    if from == v.len() {
        return None;
    }
    let mut acc: u64 = 0;
    let mut i: usize = from;
    while i < v.len()
        invariant
            from <= i <= v.len(),
            s == v@.subrange(from as int, v.len() as int),
            all_digits(s.take(i - from)),
            acc == number(s.take(i - from)),
            acc <= limit <= 0xffff_ffff,
        decreases v.len() - i,
    {
        let c = v[i];
        assert(s[i - from] == c);
        if c < '0' || c > '9' {
            return None;
        }
        let d: u64 = (c as u32 - 48) as u64;
        let next: u64 = acc * 10 + d;
        proof {
            let p = s.take(i - from + 1);
            assert(p.drop_last() == s.take(i - from));
            if all_digits(s) {
                lemma_number_prefix(s, i - from + 1);
            }
        }
        if next > limit {
            return None;
        }
        acc = next;
        i = i + 1;
    }
    assert(s.take(i - from) == s);
    Some(acc)
}

/// Whether `text` is a base-10 numeral of a 32-bit signed integer.
pub fn is_i32(text: &str) -> (r: bool)
    ensures
        r == reads_as_i32(text@),
{
    let v = chars_of(text);
    if v.len() > 0 && v[0] == '-' {
        read_digits(&v, 1, 0x8000_0000).is_some()
    } else if v.len() > 0 && v[0] == '+' {
        read_digits(&v, 1, 0x7fff_ffff).is_some()
    } else {
        assert(v@.subrange(0, v.len() as int) == v@);
        read_digits(&v, 0, 0x7fff_ffff).is_some()
    }
}

/// The byte that `text` denotes, if it denotes one.
pub fn to_u8(text: &str) -> (r: Option<u8>)
    ensures
        r == reads_as_u8(text@),
{
    let v = chars_of(text);
    let from: usize = if v.len() > 0 && v[0] == '+' { 1 } else { 0 };
    assert(v@.subrange(0, v.len() as int) == v@);
    match read_digits(&v, from, 255) {
        Some(n) => Some(n as u8),
        None => None,
    }
}

} // verus!
