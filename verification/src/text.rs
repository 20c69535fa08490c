//! Character-level helpers on strings.

use vstd::prelude::*;
use vstd::string::{StrSliceExecFns, StringExecFns};

verus! {

/// The characters of `s`, in order.
pub fn chars_of(s: &str) -> (v: Vec<char>)
    ensures
        v@ == s@,
{
    let n = s.unicode_len();
    let mut v: Vec<char> = Vec::new();
    let mut i: usize = 0;
    while i < n
        invariant
            n == s@.len(),
            i <= n,
            v@ == s@.subrange(0, i as int),
        decreases n - i,
    {
        v.push(s.get_char(i));
        i = i + 1;
    }
    v
}

/// Appends `c` to `s` by `String::push`. Its contract, taken on trust from
/// the documentation of `String::push`, is that `s` afterwards holds its old
/// characters followed by `c`.
#[verifier::external_body]
pub(crate) fn push_char(s: &mut String, c: char)
    ensures
        final(s)@ == old(s)@.push(c),
{
    s.push(c);
}

/// A string holding exactly the characters of `v`.
pub fn string_from_chars(v: &[char]) -> (s: String)
    ensures
        s@ == v@,
{
    let mut s = String::new();
    let mut i: usize = 0;
    while i < v.len()
        invariant
            i <= v.len(),
            s@ == v@.subrange(0, i as int),
        decreases v.len() - i,
    {
        push_char(&mut s, v[i]);
        assert(v@.subrange(0, i + 1) == v@.subrange(0, i as int).push(v@[i as int]));
        i = i + 1;
    }
    assert(v@.subrange(0, v@.len() as int) == v@);
    s
}

/// `rel` adjoined to the path `base` on a Unix system: an absolute `rel`
/// replaces `base`; otherwise a `'/'` separates them unless `base` is
/// empty or already ends in one.
pub open spec fn spec_join(base: Seq<char>, rel: Seq<char>) -> Seq<char> {
    if rel.len() > 0 && rel[0] == '/' {
        rel
    } else if base.len() == 0 || base.last() == '/' {
        base + rel
    } else {
        base + seq!['/'] + rel
    }
}

/// Adjoins `rel` to the path `base` (`Path::join` on Unix).
pub fn join_path(base: &str, rel: &str) -> (r: String)
    ensures
        r@ == spec_join(base@, rel@),
{
    let cr = chars_of(rel);
    if cr.len() > 0 && cr[0] == '/' {
        return rel.to_owned();
    }
    let cb = chars_of(base);
    let mut r = base.to_owned();
    if cb.len() > 0 && cb[cb.len() - 1] != '/' {
        push_char(&mut r, '/');
    }
    r.append(rel);
    r
}

/// The decimal digits of `n`.
pub open spec fn decimal(n: nat) -> Seq<char>
    decreases n,
{
    if n < 10 {
        seq![digit_char(n)]
    } else {
        decimal(n / 10).push(digit_char(n % 10))
    }
}

/// The character of the decimal digit `d`.
pub open spec fn digit_char(d: nat) -> char {
    ((d + 48) as u32) as char
}

/// `n` written in decimal.
pub fn decimal_string(n: u64) -> (r: String)
    ensures
        r@ == decimal(n as nat),
{
    // Digits below the leading one, least significant first.
    let mut digits: Vec<char> = Vec::new();
    let mut k = n;
    while k >= 10
        invariant
            decimal(n as nat) == decimal(k as nat) + digits@.reverse(),
        decreases k,
    {
        let c = char_of_digit((k % 10) as u32);
        let ghost old_digits = digits@;
        digits.push(c);
        proof {
            assert(digits@.reverse() =~= seq![c] + old_digits.reverse());
            assert(decimal(k as nat) == decimal((k / 10) as nat).push(c));
            assert(decimal((k / 10) as nat).push(c) + old_digits.reverse() =~= decimal((k / 10) as nat) + (
            seq![c] + old_digits.reverse()));
        }
        k = k / 10;
    }
    let mut out: Vec<char> = Vec::new();
    out.push(char_of_digit(k as u32));
    let mut i = digits.len();
    while i > 0
        invariant
            i <= digits@.len(),
            out@ == seq![digit_char(k as nat)] + digits@.reverse().subrange(0, digits@.len() - i),
        decreases i,
    {
        i = i - 1;
        out.push(digits[i]);
        proof {
            let r = digits@.reverse();
            assert(r[digits@.len() - 1 - i] == digits@[i as int]);
            assert(out@ =~= seq![digit_char(k as nat)] + r.subrange(0, digits@.len() - i));
        }
    }
    proof {
        assert(digits@.reverse().subrange(0, digits@.len() as int) =~= digits@.reverse());
        assert(decimal(k as nat) == seq![digit_char(k as nat)]);
    }
    string_from_chars(out.as_slice())
}

fn char_of_digit(d: u32) -> (c: char)
    requires
        d < 10,
    ensures
        c == digit_char(d as nat),
{
    let c = if d == 0 {
        '0'
    } else if d == 1 {
        '1'
    } else if d == 2 {
        '2'
    } else if d == 3 {
        '3'
    } else if d == 4 {
        '4'
    } else if d == 5 {
        '5'
    } else if d == 6 {
        '6'
    } else if d == 7 {
        '7'
    } else if d == 8 {
        '8'
    } else {
        '9'
    };
    proof {
        vstd::utf8::char_u32_cast(c, c as u32);
    }
    c
}

} // verus!
