//! Naming of the files written for the contact sheet and the extracted
//! crops.

use vstd::prelude::*;
use crate::text::{chars_of, string_from_chars};

verus! {

/// A book name character as it appears in file names: separators,
/// brackets, dots and spaces become `'_'`.
pub open spec fn book_char(c: char) -> char {
    if c == ' ' || c == '/' || c == '\\' || c == '[' || c == ']' || c == '.' {
        '_'
    } else {
        c
    }
}

/// The first 28 characters of a book name, made safe for file names.
pub open spec fn spec_sanitize_book(book: Seq<char>) -> Seq<char> {
    let t = if book.len() > 28 {
        book.take(28)
    } else {
        book
    };
    t.map_values(|c: char| book_char(c))
}

/// The first 28 characters of `book` with `' '`, `'/'`, `'\\'`, `'['`,
/// `']'` and `'.'` replaced by `'_'`.
pub fn sanitize_book(book: &str) -> (r: String)
    ensures
        r@ == spec_sanitize_book(book@),
{
    let cs = chars_of(book);
    let n = if cs.len() > 28 {
        28
    } else {
        cs.len()
    };
    let mut out: Vec<char> = Vec::new();
    let mut i: usize = 0;
    while i < n
        invariant
            cs@ == book@,
            n <= cs@.len(),
            n == if book@.len() > 28 {
                28
            } else {
                book@.len()
            },
            i <= n,
            out@ == book@.take(i as int).map_values(|c: char| book_char(c)),
        decreases n - i,
    {
        let c = cs[i];
        let d = if c == ' ' || c == '/' || c == '\\' || c == '[' || c == ']' || c == '.' {
            '_'
        } else {
            c
        };
        out.push(d);
        proof {
            assert(out@ =~= book@.take(i + 1).map_values(|c: char| book_char(c)));
        }
        i = i + 1;
    }
    proof {
        if book@.len() <= 28 {
            assert(book@.take(n as int) =~= book@);
        }
    }
    string_from_chars(out.as_slice())
}


/// A sanitized book name keeps the first 28 characters of the book in
/// place, turns each of `' '`, `'/'`, `'\\'`, `'['`, `']'` and `'.'` into
/// `'_'`, and so holds none of them.
pub proof fn law_sanitize_book(book: Seq<char>)
    ensures
        spec_sanitize_book(book).len() == if book.len() > 28 {
            28
        } else {
            book.len()
        },
        forall|i: int|
            0 <= i < spec_sanitize_book(book).len() ==> {
                let c = book[i];
                let d = #[trigger] spec_sanitize_book(book)[i];
                &&& d != ' ' && d != '/' && d != '\\' && d != '[' && d != ']' && d != '.'
                &&& (c == ' ' || c == '/' || c == '\\' || c == '[' || c == ']' || c == '.') ==> d == '_'
                &&& !(c == ' ' || c == '/' || c == '\\' || c == '[' || c == ']' || c == '.') ==> d == c
            },
{
}

} // verus!
