//! Colors as 8-bit RGB triples, and parsing of `#RRGGBB` hex notation.

use vstd::prelude::*;
use crate::text::chars_of;

verus! {

/// An 8-bit-per-channel sRGB color.
#[derive(Clone, Copy, Debug, PartialEq, Eq, Structural)]
pub struct Rgb(pub u8, pub u8, pub u8);

/// `s` with every leading `'#'` removed.
pub open spec fn trim_leading_hashes(s: Seq<char>) -> Seq<char>
    decreases s.len(),
{
    if s.len() > 0 && s[0] == '#' {
        trim_leading_hashes(s.drop_first())
    } else {
        s
    }
}

/// The value of a hexadecimal digit (either case), if `c` is one.
pub open spec fn hex_digit_value(c: char) -> Option<u8> {
    if '0' <= c && c <= '9' {
        Some((c as u32 - '0' as u32) as u8)
    } else if 'a' <= c && c <= 'f' {
        Some((c as u32 - 'a' as u32 + 10) as u8)
    } else if 'A' <= c && c <= 'F' {
        Some((c as u32 - 'A' as u32 + 10) as u8)
    } else {
        None
    }
}

/// The byte written by two characters in base 16, as `u8::from_str_radix`
/// reads it: either two hex digits, or a `'+'` sign followed by one digit.
pub open spec fn hex_pair_value(a: char, b: char) -> Option<u8> {
    if a == '+' {
        hex_digit_value(b)
    } else {
        match (hex_digit_value(a), hex_digit_value(b)) {
            (Some(hi), Some(lo)) => Some((hi * 16 + lo) as u8),
            _ => None,
        }
    }
}

/// The color written by `s` in `#RRGGBB` notation: any number of leading
/// `'#'`, then exactly six characters forming three base-16 bytes.
pub open spec fn spec_from_hex(s: Seq<char>) -> Option<Rgb> {
    let t = trim_leading_hashes(s);
    if t.len() != 6 {
        None
    } else {
        match (hex_pair_value(t[0], t[1]), hex_pair_value(t[2], t[3]), hex_pair_value(t[4], t[5])) {
            (Some(r), Some(g), Some(b)) => Some(Rgb(r, g, b)),
            _ => None,
        }
    }
}

/// The number of bytes of `c` in UTF-8.
pub open spec fn utf8_width(c: char) -> int {
    if (c as u32) < 0x80 {
        1
    } else if (c as u32) < 0x800 {
        2
    } else if (c as u32) < 0x10000 {
        3
    } else {
        4
    }
}

/// The number of bytes of `s` in UTF-8.
pub open spec fn utf8_len(s: Seq<char>) -> int
    decreases s.len(),
{
    if s.len() == 0 {
        0
    } else {
        utf8_len(s.drop_last()) + utf8_width(s.last())
    }
}

/// Byte offset `b` of `s` falls between two characters.
pub open spec fn is_char_boundary(s: Seq<char>, b: int) -> bool {
    exists|k: int| 0 <= k <= s.len() && utf8_len(s.take(k)) == b
}

/// The text after the leading `'#'`s is six bytes long, but cutting it
/// into byte pairs would split a character: the pairs cannot be sliced.
pub open spec fn hex_pairs_unsliceable(s: Seq<char>) -> bool {
    let t = trim_leading_hashes(s);
    utf8_len(t) == 6 && !(is_char_boundary(t, 2) && is_char_boundary(t, 4))
}

proof fn lemma_trim_skip(s: Seq<char>, k: int)
    requires
        0 <= k <= s.len(),
        forall|j: int| 0 <= j < k ==> s[j] == '#',
    ensures
        trim_leading_hashes(s) == trim_leading_hashes(s.skip(k)),
    decreases k,
{
    if k > 0 {
        assert(s.skip(1) == s.drop_first());
        lemma_trim_skip(s.drop_first(), k - 1);
        assert(s.drop_first().skip(k - 1) == s.skip(k));
    } else {
        assert(s.skip(0) == s);
    }
}

fn hex_digit(c: char) -> (r: Option<u8>)
    ensures
        r == hex_digit_value(c),
{
    if '0' <= c && c <= '9' {
        Some((c as u32 - '0' as u32) as u8)
    } else if 'a' <= c && c <= 'f' {
        Some((c as u32 - 'a' as u32 + 10) as u8)
    } else if 'A' <= c && c <= 'F' {
        Some((c as u32 - 'A' as u32 + 10) as u8)
    } else {
        None
    }
}

fn hex_pair(a: char, b: char) -> (r: Option<u8>)
    ensures
        r == hex_pair_value(a, b),
{
    if a == '+' {
        hex_digit(b)
    } else {
        match (hex_digit(a), hex_digit(b)) {
            (Some(hi), Some(lo)) => Some(hi * 16 + lo),
            _ => None,
        }
    }
}

impl Rgb {
    /// Parses `#RRGGBB` (leading `'#'`s optional). Text whose six bytes
    /// after the `'#'`s cannot be cut into byte pairs is not accepted.
    pub fn from_hex(hex: &str) -> (r: Option<Rgb>)
        requires
            !hex_pairs_unsliceable(hex@),
        ensures
            r == spec_from_hex(hex@),
    {
        let cs = chars_of(hex);
        let mut k: usize = 0;
        while k < cs.len() && cs[k] == '#'
            invariant
                cs@ == hex@,
                k <= cs.len(),
                forall|j: int| 0 <= j < k ==> cs@[j] == '#',
            decreases cs.len() - k,
        {
            k = k + 1;
        }
        proof {
            lemma_trim_skip(hex@, k as int);
            let t = hex@.skip(k as int);
            if t.len() > 0 {
                assert(t[0] != '#');
            }
        }
        if cs.len() - k != 6 {
            return None;
        }
        let r = hex_pair(cs[k], cs[k + 1]);
        let g = hex_pair(cs[k + 2], cs[k + 3]);
        let b = hex_pair(cs[k + 4], cs[k + 5]);
        match (r, g, b) {
            (Some(r), Some(g), Some(b)) => Some(Rgb(r, g, b)),
            _ => None,
        }
    }
}


/// The upper-case hexadecimal digit of `d` (for `0 <= d < 16`).
pub open spec fn hex_digit_char(d: int) -> char {
    if d == 0 {
        '0'
    } else if d == 1 {
        '1'
    } else if d == 2 {
        '2'
    } else if d == 3 {
        '3'
    } else if d == 4 {
        '4'
    } else if d == 5 {
        '5'
    } else if d == 6 {
        '6'
    } else if d == 7 {
        '7'
    } else if d == 8 {
        '8'
    } else if d == 9 {
        '9'
    } else if d == 10 {
        'A'
    } else if d == 11 {
        'B'
    } else if d == 12 {
        'C'
    } else if d == 13 {
        'D'
    } else if d == 14 {
        'E'
    } else {
        'F'
    }
}

/// A byte as two upper-case hexadecimal digits.
pub open spec fn hex_byte(b: u8) -> Seq<char> {
    seq![hex_digit_char((b / 16) as int), hex_digit_char((b % 16) as int)]
}

/// `c` in `#RRGGBB` notation with upper-case digits.
pub open spec fn hex_notation(c: Rgb) -> Seq<char> {
    seq!['#'] + hex_byte(c.0) + hex_byte(c.1) + hex_byte(c.2)
}

proof fn lemma_hex_byte(b: u8)
    ensures
        hex_pair_value(hex_byte(b)[0], hex_byte(b)[1]) == Some(b),
        hex_byte(b)[0] != '#',
{
    let hi = b / 16;
    let lo = b % 16;
    assert(b == hi * 16 + lo);
    assert(hex_digit_value(hex_digit_char(hi as int)) == Some(hi));
    assert(hex_digit_value(hex_digit_char(lo as int)) == Some(lo));
}

proof fn lemma_ascii_utf8_len(s: Seq<char>)
    requires
        forall|i: int| 0 <= i < s.len() ==> (s[i] as u32) < 0x80,
    ensures
        utf8_len(s) == s.len(),
    decreases s.len(),
{
    if s.len() > 0 {
        lemma_ascii_utf8_len(s.drop_last());
        assert((s.last() as u32) < 0x80);
    }
}

/// Parsing reads back every color written in `#RRGGBB` notation.
pub proof fn law_hex_roundtrip(c: Rgb)
    ensures
        !hex_pairs_unsliceable(hex_notation(c)),
        spec_from_hex(hex_notation(c)) == Some(c),
{
    let s = hex_notation(c);
    let t = s.drop_first();
    lemma_hex_byte(c.0);
    lemma_hex_byte(c.1);
    lemma_hex_byte(c.2);
    assert(t =~= hex_byte(c.0) + hex_byte(c.1) + hex_byte(c.2));
    assert(trim_leading_hashes(t) == t);
    assert(trim_leading_hashes(s) == t);
    assert(forall|i: int| 0 <= i < t.len() ==> (t[i] as u32) < 0x80);
    lemma_ascii_utf8_len(t.take(2));
    lemma_ascii_utf8_len(t.take(4));
    assert(is_char_boundary(t, 2));
    assert(is_char_boundary(t, 4));
}


/// The lower-case hexadecimal digit of `d` (for `0 <= d < 16`).
pub open spec fn hex_digit_char_lower(d: int) -> char {
    if d == 0 {
        '0'
    } else if d == 1 {
        '1'
    } else if d == 2 {
        '2'
    } else if d == 3 {
        '3'
    } else if d == 4 {
        '4'
    } else if d == 5 {
        '5'
    } else if d == 6 {
        '6'
    } else if d == 7 {
        '7'
    } else if d == 8 {
        '8'
    } else if d == 9 {
        '9'
    } else if d == 10 {
        'a'
    } else if d == 11 {
        'b'
    } else if d == 12 {
        'c'
    } else if d == 13 {
        'd'
    } else if d == 14 {
        'e'
    } else {
        'f'
    }
}

/// `c` in `#rrggbb` notation with lower-case digits.
pub open spec fn hex_notation_lower(c: Rgb) -> Seq<char> {
    seq![
        '#',
        hex_digit_char_lower((c.0 / 16) as int),
        hex_digit_char_lower((c.0 % 16) as int),
        hex_digit_char_lower((c.1 / 16) as int),
        hex_digit_char_lower((c.1 % 16) as int),
        hex_digit_char_lower((c.2 / 16) as int),
        hex_digit_char_lower((c.2 % 16) as int),
    ]
}

/// A hexadecimal digit has the same value in either case: each of `a`..`f`
/// reads as its upper-case form does, 10 to 15.
pub proof fn law_hex_digit_case(d: int)
    requires
        10 <= d < 16,
    ensures
        hex_digit_value(hex_digit_char_lower(d)) == Some(d as u8),
        hex_digit_value(hex_digit_char(d)) == Some(d as u8),
{
}

/// Parsing reads back every color written in `#rrggbb` notation with
/// lower-case digits.
pub proof fn law_hex_roundtrip_lower(c: Rgb)
    ensures
        !hex_pairs_unsliceable(hex_notation_lower(c)),
        spec_from_hex(hex_notation_lower(c)) == Some(c),
{
    let s = hex_notation_lower(c);
    let t = s.drop_first();
    let bs = seq![c.0, c.1, c.2];
    assert forall|k: int| 0 <= k < 3 implies {
        let b = #[trigger] bs[k];
        hex_pair_value(hex_digit_char_lower((b / 16) as int), hex_digit_char_lower((b % 16) as int)) == Some(b)
    } by {
        let b = bs[k];
        let hi = b / 16;
        let lo = b % 16;
        assert(b == hi * 16 + lo);
        assert(hex_digit_value(hex_digit_char_lower(hi as int)) == Some(hi));
        assert(hex_digit_value(hex_digit_char_lower(lo as int)) == Some(lo));
    }
    assert(bs[0] == c.0 && bs[1] == c.1 && bs[2] == c.2);
    assert(t[0] != '#');
    assert(trim_leading_hashes(t) == t);
    assert(trim_leading_hashes(s) == t);
    assert(forall|i: int| 0 <= i < t.len() ==> (t[i] as u32) < 0x80);
    lemma_ascii_utf8_len(t.take(2));
    lemma_ascii_utf8_len(t.take(4));
    assert(is_char_boundary(t, 2));
    assert(is_char_boundary(t, 4));
}

} // verus!
