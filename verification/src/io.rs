//! Source pages: their records, which files count as images, the default
//! artbook roots, and the order in which pages are listed.

use vstd::prelude::*;
use crate::order::{lemma_str_lt_order, str_less, str_lt, str_equal};
use crate::text::{chars_of, string_from_chars};

verus! {

/// One source page of an artbook.
#[derive(Clone, Debug)]
pub struct Page {
    pub book: String,
    pub path: String,
    pub filename: String,
}

/// The extension of a file name as `Path::extension` reads it: the text
/// after the last `'.'`, provided that dot is not the first character;
/// `".."` has none.
pub open spec fn file_extension(name: Seq<char>) -> Option<Seq<char>> {
    if name == seq!['.', '.'] {
        None
    } else if exists|k: int| 0 < k < name.len() && name[k] == '.' {
        let k = last_dot(name);
        Some(name.subrange(k + 1, name.len() as int))
    } else {
        None
    }
}

/// The position of the last `'.'` in `name`.
pub open spec fn last_dot(name: Seq<char>) -> int {
    choose|k: int| 0 <= k < name.len() && name[k] == '.' && forall|j: int| k < j < name.len() ==> name[j] != '.'
}

/// `s` with ASCII upper-case letters lowered.
pub open spec fn ascii_lower(s: Seq<char>) -> Seq<char> {
    s.map_values(|c: char| lower_char(c))
}

pub open spec fn lower_char(c: char) -> char {
    if 'A' <= c && c <= 'Z' {
        ((c as u32) + 32) as char
    } else {
        c
    }
}

/// The extensions (in lower case) of the page images that are scanned:
/// JPEG files only.
pub open spec fn is_image_extension(e: Seq<char>) -> bool {
    ||| e == seq!['j', 'p', 'g']
    ||| e == seq!['j', 'p', 'e', 'g']
}

fn lower(c: char) -> (r: char)
    ensures
        r == lower_char(c),
{
    if 'A' <= c && c <= 'Z' {
        let r = ((c as u32) + 32) as u8 as char;
        proof {
            vstd::utf8::char_u32_cast(r, r as u32);
        }
        r
    } else {
        c
    }
}

/// The extension of the file name of `path`, ASCII-lowered
/// (`Path::extension`, then `to_ascii_lowercase`).
pub open spec fn lower_extension(path: Seq<char>) -> Option<Seq<char>> {
    match spec_file_name(path) {
        Some(n) => match file_extension(n) {
            Some(e) => Some(ascii_lower(e)),
            None => None,
        },
        None => None,
    }
}

fn lowered_extension(path: &str) -> (r: Option<Vec<char>>)
    ensures
        match r {
            Some(e) => lower_extension(path@) == Some(e@),
            None => lower_extension(path@) is None,
        },
{
    let name = match file_name_chars(path) {
        Some(v) => v,
        None => {
            return None;
        },
    };
    let ghost nm = name@;
    let n = name.len();
    if n == 2 && name[0] == '.' && name[1] == '.' {
        proof {
            assert(nm == seq!['.', '.']);
        }
        return None;
    }
    // Find the last dot.
    let mut k = n;
    while k > 0 && name[k - 1] != '.'
        invariant
            name@ == nm,
            k <= n,
            n == nm.len(),
            forall|j: int| k <= j < n ==> nm[j] != '.',
        decreases k,
    {
        k = k - 1;
    }
    if k <= 1 {
        proof {
            assert(!exists|j: int| 0 < j < nm.len() && nm[j] == '.') by {
                if exists|j: int| 0 < j < nm.len() && nm[j] == '.' {
                    let j = choose|j: int| 0 < j < nm.len() && nm[j] == '.';
                    assert(j >= k);
                }
            }
        }
        return None;
    }
    let d = k - 1;
    proof {
        assert(nm[d as int] == '.');
        let ld = last_dot(nm);
        assert(0 <= ld < n && nm[ld] == '.' && forall|j: int| ld < j < n ==> nm[j] != '.');
        assert(ld == d as int);
    }
    let mut ext: Vec<char> = Vec::new();
    let mut i = k;
    while i < n
        invariant
            name@ == nm,
            k <= i <= n,
            n == nm.len(),
            ext@ == ascii_lower(nm.subrange(k as int, i as int)),
        decreases n - i,
    {
        ext.push(lower(name[i]));
        proof {
            assert(ext@ =~= ascii_lower(nm.subrange(k as int, i + 1)));
        }
        i = i + 1;
    }
    Some(ext)
}

fn chars_are(v: &Vec<char>, lit: &[char]) -> (r: bool)
    ensures
        r == (v@ == lit@),
{
    if v.len() != lit.len() {
        return false;
    }
    let mut i: usize = 0;
    while i < v.len()
        invariant
            v@.len() == lit@.len(),
            i <= v@.len(),
            forall|j: int| 0 <= j < i ==> v@[j] == lit@[j],
        decreases v@.len() - i,
    {
        if v[i] != lit[i] {
            return false;
        }
        i = i + 1;
    }
    proof {
        assert(v@ =~= lit@);
    }
    true
}

/// Whether `path` names a page image: the extension of its file name is
/// `jpg` or `jpeg` in any ASCII case.
pub fn is_image(path: &str) -> (r: bool)
    ensures
        r == match lower_extension(path@) {
            Some(e) => is_image_extension(e),
            None => false,
        },
{
    match lowered_extension(path) {
        Some(e) => {
            let a = chars_are(&e, &['j', 'p', 'g']);
            let b = chars_are(&e, &['j', 'p', 'e', 'g']);
            proof {
                assert(['j', 'p', 'g']@ =~= seq!['j', 'p', 'g']);
                assert(['j', 'p', 'e', 'g']@ =~= seq!['j', 'p', 'e', 'g']);
            }
            a || b
        },
        None => false,
    }
}

/// The content type under which a page image is served, by the extension
/// of its file name in any ASCII case: `png`, then `tif` or `tiff`, and
/// JPEG for everything else.
pub open spec fn spec_image_mime(path: Seq<char>) -> Seq<char> {
    match lower_extension(path) {
        Some(e) => if e == seq!['p', 'n', 'g'] {
            "image/png"@
        } else if e == seq!['t', 'i', 'f'] || e == seq!['t', 'i', 'f', 'f'] {
            "image/tiff"@
        } else {
            "image/jpeg"@
        },
        None => "image/jpeg"@,
    }
}

/// The content type of the page image at `path`.
pub fn image_mime(path: &str) -> (r: String)
    ensures
        r@ == spec_image_mime(path@),
{
    proof {
        assert(['p', 'n', 'g']@ =~= seq!['p', 'n', 'g']);
        assert(['t', 'i', 'f']@ =~= seq!['t', 'i', 'f']);
        assert(['t', 'i', 'f', 'f']@ =~= seq!['t', 'i', 'f', 'f']);
    }
    match lowered_extension(path) {
        Some(e) => {
            if chars_are(&e, &['p', 'n', 'g']) {
                "image/png".to_owned()
            } else if chars_are(&e, &['t', 'i', 'f']) || chars_are(&e, &['t', 'i', 'f', 'f']) {
                "image/tiff".to_owned()
            } else {
                "image/jpeg".to_owned()
            }
        },
        None => "image/jpeg".to_owned(),
    }
}

/// The four artbook directories scanned by default.
pub fn default_artbook_roots() -> (r: Vec<String>)
    ensures
        r@.len() == 4,
        r@[0]@ == "/mnt/smb/media/art/Neon.Genesis.Evangelion.Artbook.-.Die.Sterne[GAINAX]"@,
        r@[1]@ == "/mnt/smb/media/art/Neon Genesis Evangelion - Der Mond"@,
        r@[2]@ == "/mnt/smb/media/art/Neon Genesis Evangelion - Groundwork of Evangelion Vol.1"@,
        r@[3]@ == "/mnt/smb/media/art/Neon Genesis Evangelion - Groundwork of Evangelion Vol.2"@,
{
    let mut r: Vec<String> = Vec::new();
    r.push("/mnt/smb/media/art/Neon.Genesis.Evangelion.Artbook.-.Die.Sterne[GAINAX]".to_owned());
    r.push("/mnt/smb/media/art/Neon Genesis Evangelion - Der Mond".to_owned());
    r.push("/mnt/smb/media/art/Neon Genesis Evangelion - Groundwork of Evangelion Vol.1".to_owned());
    r.push("/mnt/smb/media/art/Neon Genesis Evangelion - Groundwork of Evangelion Vol.2".to_owned());
    r
}

// ---------------------------------------------------------------------
// Page order.
// ---------------------------------------------------------------------

/// The sort key of a page: its book, then its file name.
pub open spec fn page_key_of(p: Page) -> (Seq<char>, Seq<char>) {
    (p.book@, p.filename@)
}

/// Strict order on page keys: by book, then by file name.
pub open spec fn key_lt(a: (Seq<char>, Seq<char>), b: (Seq<char>, Seq<char>)) -> bool {
    str_lt(a.0, b.0) || (a.0 == b.0 && str_lt(a.1, b.1))
}

/// Keys never decrease along `s`.
pub open spec fn pages_sorted(s: Seq<Page>) -> bool {
    forall|i: int, j: int| 0 <= i < j < s.len() ==> !key_lt(page_key_of(#[trigger] s[j]), page_key_of(#[trigger] s[i]))
}

/// Holds of the pages whose key is `k`.
pub open spec fn key_is(k: (Seq<char>, Seq<char>)) -> spec_fn(Page) -> bool {
    |p: Page| page_key_of(p) == k
}

/// `out` is `inp` sorted by (book, file name); pages with equal keys keep
/// their order in `inp`.
pub open spec fn stable_page_sort_of(out: Seq<Page>, inp: Seq<Page>) -> bool {
    &&& pages_sorted(out)
    &&& forall|k: (Seq<char>, Seq<char>)| #[trigger] out.filter(key_is(k)) == inp.filter(key_is(k))
}

proof fn lemma_key_lt_order(a: (Seq<char>, Seq<char>), b: (Seq<char>, Seq<char>), c: (Seq<char>, Seq<char>))
    ensures
        !key_lt(a, a),
        key_lt(a, b) && key_lt(b, c) ==> key_lt(a, c),
        key_lt(a, b) || key_lt(b, a) || a == b,
        key_lt(a, b) ==> !key_lt(b, a),
        !key_lt(a, b) && !key_lt(b, c) ==> !key_lt(a, c),
{
    lemma_str_lt_order(a.0, b.0, c.0);
    lemma_str_lt_order(a.1, b.1, c.1);
    lemma_str_lt_order(a.0, c.0, b.0);
    lemma_str_lt_order(b.0, a.0, c.0);
    lemma_str_lt_order(b.0, c.0, a.0);
    lemma_str_lt_order(c.0, a.0, b.0);
    lemma_str_lt_order(c.0, b.0, a.0);
    lemma_str_lt_order(a.1, c.1, b.1);
    lemma_str_lt_order(b.1, a.1, c.1);
    lemma_str_lt_order(b.1, c.1, a.1);
    lemma_str_lt_order(c.1, a.1, b.1);
    lemma_str_lt_order(c.1, b.1, a.1);
}

fn key_less(a0: &str, a1: &str, b0: &str, b1: &str) -> (r: bool)
    ensures
        r == key_lt((a0@, a1@), (b0@, b1@)),
{
    if str_less(a0, b0) {
        true
    } else if str_equal(a0, b0) {
        str_less(a1, b1)
    } else {
        false
    }
}

fn page_less(a: &Page, b: &Page) -> (r: bool)
    ensures
        r == key_lt(page_key_of(*a), page_key_of(*b)),
{
    key_less(a.book.as_str(), a.filename.as_str(), b.book.as_str(), b.filename.as_str())
}

proof fn lemma_filter_none(s: Seq<Page>, k: (Seq<char>, Seq<char>))
    requires
        forall|i: int| 0 <= i < s.len() ==> page_key_of(#[trigger] s[i]) != k,
    ensures
        s.filter(key_is(k)) == Seq::<Page>::empty(),
{
    let pred = key_is(k);
    assert(s.all(|x: Page| !pred(x)));
    s.lemma_all_neg_filter_empty(pred);
}

/// Sorts pages by book, then file name; pages with equal keys keep their
/// order.
pub fn sort_pages(v: Vec<Page>) -> (out: Vec<Page>)
    ensures
        stable_page_sort_of(out@, v@),
{
    broadcast use Seq::filter_distributes_over_add;

    let mut out: Vec<Page> = Vec::new();
    let mut rest = v;
    let ghost inp = rest@;
    let total = rest.len();
    let mut i: usize = 0;
    // Move the pages out of `rest` one at a time, front first.
    let mut items: Vec<Page> = Vec::new();
    while rest.len() > 0
        invariant
            items@ + rest@.reverse() == inp.reverse(),
        decreases rest.len(),
    {
        let ghost r0 = rest@;
        let p = rest.pop().unwrap();
        items.push(p);
        proof {
            assert(r0 == rest@.push(p));
            assert(r0.reverse() =~= seq![p] + rest@.reverse());
            assert(items@ + rest@.reverse() =~= items@.drop_last() + (seq![p] + rest@.reverse()));
        }
    }
    proof {
        assert(rest@.reverse() =~= Seq::<Page>::empty());
        assert(items@ =~= inp.reverse());
        assert forall|k: (Seq<char>, Seq<char>)| #[trigger] out@.filter(key_is(k)) == inp.subrange(0, 0).filter(key_is(k)) by {
            assert(out@ =~= inp.subrange(0, 0));
        }
    }
    // `items` holds the input reversed; take from its end.
    while items.len() > 0
        invariant
            i as int + items@.len() == inp.len(),
            total == inp.len(),
            items@ == inp.subrange(i as int, inp.len() as int).reverse(),
            stable_page_sort_of(out@, inp.subrange(0, i as int)),
        decreases items.len(),
    {
        let ghost it0 = items@;
        let p = items.pop().unwrap();
        proof {
            assert(it0.last() == inp[i as int]);
            assert(items@ =~= inp.subrange(i + 1, inp.len() as int).reverse());
        }
        let mut pos: usize = 0;
        while pos < out.len()
            invariant
                pos <= out.len(),
                forall|k: int| 0 <= k < pos ==> !key_lt(page_key_of(p), page_key_of(#[trigger] out@[k])),
            ensures
                pos <= out.len(),
                forall|k: int| 0 <= k < pos ==> !key_lt(page_key_of(p), page_key_of(#[trigger] out@[k])),
                pos < out.len() ==> key_lt(page_key_of(p), page_key_of(out@[pos as int])),
            decreases out.len() - pos,
        {
            if page_less(&p, &out[pos]) {
                break;
            }
            pos = pos + 1;
        }
        let ghost o = out@;
        out.insert(pos, p);
        proof {
            let o2 = out@;
            let kp = page_key_of(p);
            let pre = o.subrange(0, pos as int);
            let post = o.subrange(pos as int, o.len() as int);
            assert(o == pre + post);
            assert(o2 == pre + seq![p] + post);
            assert forall|k: int| 0 <= k < post.len() implies key_lt(kp, page_key_of(#[trigger] post[k])) by {
                assert(post[k] == o[pos + k]);
                assert(key_lt(kp, page_key_of(o[pos as int])));
                if k > 0 {
                    assert(!key_lt(page_key_of(o[pos + k]), page_key_of(o[pos as int])));
                    lemma_key_lt_order(kp, page_key_of(o[pos as int]), page_key_of(o[pos + k]));
                    lemma_key_lt_order(page_key_of(o[pos as int]), page_key_of(o[pos + k]), kp);
                }
            }
            assert(pages_sorted(o2)) by {
                assert forall|i1: int, j1: int| 0 <= i1 < j1 < o2.len() implies !key_lt(page_key_of(#[trigger] o2[j1]), page_key_of(#[trigger] o2[i1])) by {
                    if j1 < pos {
                        assert(o2[i1] == o[i1] && o2[j1] == o[j1]);
                    } else if j1 == pos {
                        assert(o2[i1] == o[i1]);
                        lemma_key_lt_order(kp, page_key_of(o[i1]), kp);
                    } else if i1 < pos {
                        assert(o2[i1] == o[i1] && o2[j1] == o[j1 - 1]);
                        lemma_key_lt_order(page_key_of(o[j1 - 1]), page_key_of(o[i1]), kp);
                        lemma_key_lt_order(kp, page_key_of(o[j1 - 1]), kp);
                        lemma_key_lt_order(page_key_of(o[i1]), kp, page_key_of(o[j1 - 1]));
                    } else if i1 == pos {
                        assert(o2[j1] == post[j1 - pos - 1]);
                        lemma_key_lt_order(kp, page_key_of(o2[j1]), kp);
                    } else {
                        assert(o2[i1] == o[i1 - 1] && o2[j1] == o[j1 - 1]);
                    }
                }
            }
            let ip = inp.subrange(0, i as int);
            assert(inp.subrange(0, i + 1) == ip.push(p));
            assert forall|k: (Seq<char>, Seq<char>)| #[trigger] o2.filter(key_is(k)) == inp.subrange(0, i + 1).filter(key_is(k)) by {
                assert(o.filter(key_is(k)) == ip.filter(key_is(k)));
                assert(o.filter(key_is(k)) == pre.filter(key_is(k)) + post.filter(key_is(k)));
                assert(o2.filter(key_is(k)) == pre.filter(key_is(k)) + seq![p].filter(key_is(k)) + post.filter(key_is(k)));
                assert(seq![p] == Seq::<Page>::empty().push(p));
                assert(Seq::<Page>::empty().filter(key_is(k)) =~= Seq::<Page>::empty()) by {
                    reveal(Seq::filter);
                }
                Seq::<Page>::empty().lemma_filter_push(p, key_is(k));
                ip.lemma_filter_push(p, key_is(k));
                if kp == k {
                    assert forall|t: int| 0 <= t < post.len() implies page_key_of(#[trigger] post[t]) != k by {
                        assert(key_lt(kp, page_key_of(post[t])));
                        lemma_key_lt_order(kp, kp, kp);
                    }
                    lemma_filter_none(post, k);
                    assert(o.filter(key_is(k)) =~= pre.filter(key_is(k)));
                    assert(seq![p].filter(key_is(k)) =~= seq![p]);
                    assert(o2.filter(key_is(k)) =~= pre.filter(key_is(k)) + seq![p]);
                } else {
                    assert(seq![p].filter(key_is(k)) =~= Seq::<Page>::empty());
                    assert(o2.filter(key_is(k)) =~= o.filter(key_is(k)));
                }
            }
        }
        i = i + 1;
    }
    proof {
        assert(inp.subrange(0, inp.len() as int) == inp);
    }
    out
}


// ---------------------------------------------------------------------
// Merging records of the same page.
// ---------------------------------------------------------------------

/// The (book, file name) key of a record.
pub open spec fn entry_key(e: (String, String)) -> (Seq<char>, Seq<char>) {
    (e.0@, e.1@)
}

/// The (book, file name) key of a group.
pub open spec fn group_key(e: (String, String, Vec<usize>)) -> (Seq<char>, Seq<char>) {
    (e.0@, e.1@)
}

/// `gs` groups the first `n` of `keys` by page: the groups come in
/// strictly increasing key order (so no key has two), each lists in
/// increasing order exactly the positions below `n` that carry its key,
/// and every one of those positions has a group.
pub open spec fn page_groups(gs: Seq<(String, String, Vec<usize>)>, keys: Seq<(String, String)>, n: int) -> bool {
    &&& forall|a: int, b: int| 0 <= a < b < gs.len() ==> key_lt(group_key(#[trigger] gs[a]), group_key(#[trigger] gs[b]))
    &&& forall|g: int|
        0 <= g < gs.len() ==> {
            let idx = (#[trigger] gs[g]).2@;
            &&& idx.len() > 0
            &&& forall|a: int, b: int| 0 <= a < b < idx.len() ==> idx[a] < idx[b]
            &&& forall|a: int| 0 <= a < idx.len() ==> idx[a] < n && entry_key(keys[idx[a] as int]) == group_key(gs[g])
            &&& forall|j: int| 0 <= j < n && entry_key(#[trigger] keys[j]) == group_key(gs[g]) ==> idx.contains(j as usize)
        }
    &&& forall|j: int| 0 <= j < n ==> exists|g: int| 0 <= g < gs.len() && group_key(gs[g]) == entry_key(#[trigger] keys[j])
}

proof fn lemma_groups_add_to(
    o: Seq<(String, String, Vec<usize>)>,
    o2: Seq<(String, String, Vec<usize>)>,
    keys: Seq<(String, String)>,
    i: int,
    pos: int,
)
    requires
        page_groups(o, keys, i),
        0 <= i < keys.len(),
        i < usize::MAX,
        0 <= pos < o.len(),
        group_key(o[pos]) == entry_key(keys[i]),
        o2.len() == o.len(),
        group_key(o2[pos]) == group_key(o[pos]),
        o2[pos].2@ == o[pos].2@.push(i as usize),
        forall|g: int| 0 <= g < o.len() && g != pos ==> o2[g] == o[g],
    ensures
        page_groups(o2, keys, i + 1),
{
    let k = entry_key(keys[i]);
    assert forall|a: int, b: int| 0 <= a < b < o2.len() implies key_lt(group_key(#[trigger] o2[a]), group_key(#[trigger] o2[b])) by {
        assert(group_key(o2[a]) == group_key(o[a]) && group_key(o2[b]) == group_key(o[b]));
        assert(key_lt(group_key(o[a]), group_key(o[b])));
    }
    assert forall|g: int| 0 <= g < o2.len() implies {
        let idx = (#[trigger] o2[g]).2@;
        &&& idx.len() > 0
        &&& forall|a: int, b: int| 0 <= a < b < idx.len() ==> idx[a] < idx[b]
        &&& forall|a: int| 0 <= a < idx.len() ==> idx[a] < i + 1 && entry_key(keys[idx[a] as int]) == group_key(o2[g])
        &&& forall|j: int| 0 <= j < i + 1 && entry_key(#[trigger] keys[j]) == group_key(o2[g]) ==> idx.contains(j as usize)
    } by {
        let old_idx = o[g].2@;
        assert(forall|a: int| 0 <= a < old_idx.len() ==> old_idx[a] < i && entry_key(keys[old_idx[a] as int]) == group_key(o[g]));
        if g == pos {
            let idx = o2[g].2@;
            assert forall|a: int, b: int| 0 <= a < b < idx.len() implies idx[a] < idx[b] by {
                assert(idx[a] == old_idx[a]);
                if b < old_idx.len() {
                    assert(idx[b] == old_idx[b]);
                }
            }
            assert forall|a: int| 0 <= a < idx.len() implies idx[a] < i + 1 && entry_key(keys[idx[a] as int]) == group_key(o2[g]) by {
                if a < old_idx.len() {
                    assert(idx[a] == old_idx[a]);
                }
            }
            assert forall|j: int| 0 <= j < i + 1 && entry_key(#[trigger] keys[j]) == group_key(o2[g]) implies idx.contains(j as usize) by {
                if j == i {
                    assert(idx[old_idx.len() as int] == i as usize);
                } else {
                    assert(old_idx.contains(j as usize));
                    let a = choose|a: int| 0 <= a < old_idx.len() && old_idx[a] == j as usize;
                    assert(idx[a] == j as usize);
                }
            }
        } else {
            assert(o2[g] == o[g]);
            if entry_key(keys[i]) == group_key(o[g]) {
                if g < pos {
                    assert(key_lt(group_key(o[g]), group_key(o[pos])));
                } else {
                    assert(key_lt(group_key(o[pos]), group_key(o[g])));
                }
                lemma_key_lt_order(k, k, k);
            }
        }
    }
    assert forall|j: int| 0 <= j < i + 1 implies exists|g: int| 0 <= g < o2.len() && group_key(o2[g]) == entry_key(#[trigger] keys[j]) by {
        if j == i {
            assert(group_key(o2[pos]) == entry_key(keys[j]));
        } else {
            let g = choose|g: int| 0 <= g < o.len() && group_key(o[g]) == entry_key(#[trigger] keys[j]);
            assert(group_key(o2[g]) == group_key(o[g]));
        }
    }
}

proof fn lemma_groups_insert(
    o: Seq<(String, String, Vec<usize>)>,
    keys: Seq<(String, String)>,
    i: int,
    pos: int,
    e: (String, String, Vec<usize>),
)
    requires
        page_groups(o, keys, i),
        0 <= i < keys.len(),
        i < usize::MAX,
        0 <= pos <= o.len(),
        group_key(e) == entry_key(keys[i]),
        e.2@ == seq![i as usize],
        forall|g: int| 0 <= g < pos ==> key_lt(group_key(#[trigger] o[g]), entry_key(keys[i])),
        pos < o.len() ==> key_lt(entry_key(keys[i]), group_key(o[pos])),
    ensures
        page_groups(o.insert(pos, e), keys, i + 1),
{
    let k = entry_key(keys[i]);
    let o2 = o.insert(pos, e);
    // No group of `o` has the key `k`.
    assert forall|g: int| 0 <= g < o.len() implies group_key(#[trigger] o[g]) != k by {
        if g < pos {
            lemma_key_lt_order(k, k, k);
        } else if g == pos {
            lemma_key_lt_order(k, k, k);
        } else {
            assert(key_lt(group_key(o[pos]), group_key(o[g])));
            lemma_key_lt_order(k, group_key(o[pos]), group_key(o[g]));
            lemma_key_lt_order(k, k, k);
        }
    }
    assert forall|a: int, b: int| 0 <= a < b < o2.len() implies key_lt(group_key(#[trigger] o2[a]), group_key(#[trigger] o2[b])) by {
        if b < pos {
            assert(o2[a] == o[a] && o2[b] == o[b]);
        } else if b == pos {
            assert(o2[a] == o[a]);
        } else if a < pos {
            assert(o2[a] == o[a] && o2[b] == o[b - 1]);
            if b - 1 > pos {
                assert(key_lt(group_key(o[pos]), group_key(o[b - 1])));
                lemma_key_lt_order(k, group_key(o[pos]), group_key(o[b - 1]));
            }
            lemma_key_lt_order(group_key(o[a]), k, group_key(o[b - 1]));
        } else if a == pos {
            assert(o2[b] == o[b - 1]);
            if b - 1 > pos {
                assert(key_lt(group_key(o[pos]), group_key(o[b - 1])));
                lemma_key_lt_order(k, group_key(o[pos]), group_key(o[b - 1]));
            }
        } else {
            assert(o2[a] == o[a - 1] && o2[b] == o[b - 1]);
        }
    }
    assert forall|g: int| 0 <= g < o2.len() implies {
        let idx = (#[trigger] o2[g]).2@;
        &&& idx.len() > 0
        &&& forall|a: int, b: int| 0 <= a < b < idx.len() ==> idx[a] < idx[b]
        &&& forall|a: int| 0 <= a < idx.len() ==> idx[a] < i + 1 && entry_key(keys[idx[a] as int]) == group_key(o2[g])
        &&& forall|j: int| 0 <= j < i + 1 && entry_key(#[trigger] keys[j]) == group_key(o2[g]) ==> idx.contains(j as usize)
    } by {
        if g == pos {
            assert(o2[g] == e);
            assert(o2[g].2@[0] == i as usize);
            assert forall|j: int| 0 <= j < i + 1 && entry_key(#[trigger] keys[j]) == group_key(o2[g]) implies o2[g].2@.contains(j as usize) by {
                if j < i {
                    let h = choose|h: int| 0 <= h < o.len() && group_key(o[h]) == entry_key(#[trigger] keys[j]);
                    assert(group_key(o[h]) != k);
                } else {
                    assert(o2[g].2@[0] == i as usize);
                }
            }
        } else {
            let og = if g < pos { g } else { g - 1 };
            assert(o2[g] == o[og]);
            assert(group_key(o[og]) != k);
            let idx = o[og].2@;
            assert forall|a: int| 0 <= a < idx.len() implies idx[a] < i + 1 && entry_key(keys[idx[a] as int]) == group_key(o2[g]) by {
                assert(idx[a] < i);
            }
        }
    }
    assert forall|j: int| 0 <= j < i + 1 implies exists|g: int| 0 <= g < o2.len() && group_key(o2[g]) == entry_key(#[trigger] keys[j]) by {
        if j == i {
            assert(o2[pos] == e);
        } else {
            let h = choose|h: int| 0 <= h < o.len() && group_key(o[h]) == entry_key(#[trigger] keys[j]);
            if h < pos {
                assert(o2[h] == o[h]);
            } else {
                assert(o2[h + 1] == o[h]);
            }
        }
    }
}

/// Groups records by page: one group per distinct (book, file name) key,
/// in key order, each listing the positions of that key in `keys` in
/// increasing order.
pub fn group_by_page(keys: &Vec<(String, String)>) -> (r: Vec<(String, String, Vec<usize>)>)
    ensures
        page_groups(r@, keys@, keys@.len() as int),
{
    let mut out: Vec<(String, String, Vec<usize>)> = Vec::new();
    let mut i: usize = 0;
    while i < keys.len()
        invariant
            i <= keys@.len(),
            page_groups(out@, keys@, i as int),
        decreases keys@.len() - i,
    {
        let ghost k = entry_key(keys@[i as int]);
        let kb = keys[i].0.as_str();
        let kf = keys[i].1.as_str();
        let mut pos: usize = 0;
        while pos < out.len()
            invariant
                pos <= out@.len(),
                k == (kb@, kf@),
                forall|g: int| 0 <= g < pos ==> key_lt(group_key(#[trigger] out@[g]), k),
            ensures
                pos <= out@.len(),
                forall|g: int| 0 <= g < pos ==> key_lt(group_key(#[trigger] out@[g]), k),
                pos < out@.len() ==> !key_lt(group_key(out@[pos as int]), k),
            decreases out@.len() - pos,
        {
            if !key_less(out[pos].0.as_str(), out[pos].1.as_str(), kb, kf) {
                break;
            }
            pos = pos + 1;
        }
        let ghost o = out@;
        let found = pos < out.len() && str_equal(out[pos].0.as_str(), kb) && str_equal(out[pos].1.as_str(), kf);
        if found {
            let (b, f, mut idx) = out.remove(pos);
            idx.push(i);
            out.insert(pos, (b, f, idx));
            proof {
                lemma_groups_add_to(o, out@, keys@, i as int, pos as int);
            }
        } else {
            let mut idx: Vec<usize> = Vec::new();
            idx.push(i);
            let e = (keys[i].0.clone(), keys[i].1.clone(), idx);
            proof {
                if pos < o.len() {
                    lemma_key_lt_order(group_key(o[pos as int]), k, k);
                }
                assert(e.2@ =~= seq![i as usize]);
            }
            out.insert(pos, e);
            proof {
                lemma_groups_insert(o, keys@, i as int, pos as int, e);
            }
        }
        i = i + 1;
    }
    out
}

// ---------------------------------------------------------------------
// Short page labels.
// ---------------------------------------------------------------------

/// The pieces of `s` between `'/'` separators, in order: `"a//b"` has the
/// pieces `"a"`, `""` and `"b"`.
pub open spec fn split_slash(s: Seq<char>) -> Seq<Seq<char>>
    decreases s.len(),
{
    if s.len() == 0 {
        seq![Seq::empty()]
    } else {
        let prev = split_slash(s.drop_last());
        if s.last() == '/' {
            prev.push(Seq::empty())
        } else {
            prev.drop_last().push(prev.last().push(s.last()))
        }
    }
}

/// A piece that names a path component: neither empty nor `"."`.
pub open spec fn is_component(piece: Seq<char>) -> bool {
    piece.len() > 0 && piece != seq!['.']
}

pub open spec fn component_piece() -> spec_fn(Seq<char>) -> bool {
    |piece: Seq<char>| is_component(piece)
}

/// The components of a Unix path that `Path::components` yields as names,
/// `".."` included: separators, repeated separators and `"."` drop out.
pub open spec fn path_components(p: Seq<char>) -> Seq<Seq<char>> {
    split_slash(p).filter(component_piece())
}

/// `Path::file_name` over the components: the last one, unless there is
/// none or it is `".."`.
pub open spec fn last_name(cs: Seq<Seq<char>>) -> Option<Seq<char>> {
    if cs.len() > 0 && cs.last() != seq!['.', '.'] {
        Some(cs.last())
    } else {
        None
    }
}

/// `"<parent dir name>/<file name>"` of a path, where a missing parent name
/// reads as empty and a missing file name as the whole path.
pub open spec fn spec_short_path(p: Seq<char>) -> Seq<char> {
    let cs = path_components(p);
    let parent = if cs.len() > 0 {
        last_name(cs.drop_last())
    } else {
        None
    };
    let name = match last_name(cs) {
        Some(n) => n,
        None => p,
    };
    let pn = match parent {
        Some(n) => n,
        None => Seq::empty(),
    };
    pn + seq!['/'] + name
}

proof fn lemma_split_step(s: Seq<char>, i: int, pieces: Seq<Seq<char>>, cur: Seq<char>)
    requires
        0 <= i < s.len(),
        split_slash(s.take(i)) == pieces.push(cur),
    ensures
        s[i] == '/' ==> split_slash(s.take(i + 1)) == pieces.push(cur).push(Seq::empty()),
        s[i] != '/' ==> split_slash(s.take(i + 1)) == pieces.push(cur.push(s[i])),
{
    assert(s.take(i + 1).drop_last() =~= s.take(i));
    assert(s.take(i + 1).last() == s[i]);
    assert(pieces.push(cur).drop_last() =~= pieces);
}

fn piece_is_component(v: &Vec<char>) -> (r: bool)
    ensures
        r == is_component(v@),
{
    let r = v.len() > 0 && !(v.len() == 1 && v[0] == '.');
    proof {
        if v@.len() == 1 && v@[0] == '.' {
            assert(v@ =~= seq!['.']);
        }
    }
    r
}

fn piece_is_dotdot(v: &Vec<char>) -> (r: bool)
    ensures
        r == (v@ == seq!['.', '.']),
{
    let r = v.len() == 2 && v[0] == '.' && v[1] == '.';
    proof {
        if v@.len() == 2 && v@[0] == '.' && v@[1] == '.' {
            assert(v@ =~= seq!['.', '.']);
        }
    }
    r
}

/// The last two components of `p`: how many there are (at most 2), the
/// last, and the one before it.
fn last_two_components(p: &str) -> (r: (usize, Vec<char>, Vec<char>))
    ensures
        r.0 == if path_components(p@).len() >= 2 {
            2
        } else {
            path_components(p@).len()
        },
        r.0 >= 1 ==> r.1@ == path_components(p@).last(),
        r.0 >= 2 ==> r.2@ == path_components(p@)[path_components(p@).len() - 2],
{
    broadcast use Seq::lemma_filter_push;

    let cs = chars_of(p);
    let n = cs.len();
    let mut cur: Vec<char> = Vec::new();
    let mut last: Vec<char> = Vec::new();
    let mut prev: Vec<char> = Vec::new();
    let mut have: usize = 0;
    let ghost mut pieces: Seq<Seq<char>> = Seq::empty();
    proof {
        assert(p@.take(0) =~= Seq::<char>::empty());
        assert(pieces.push(cur@) =~= seq![Seq::<char>::empty()]);
        assert(pieces.filter(component_piece()) =~= Seq::<Seq<char>>::empty()) by {
            reveal(Seq::filter);
        }
    }
    let mut i: usize = 0;
    while i < n
        invariant
            cs@ == p@,
            n == p@.len(),
            i <= n,
            split_slash(p@.take(i as int)) == pieces.push(cur@),
            have <= 2,
            have == if pieces.filter(component_piece()).len() >= 2 {
                2
            } else {
                pieces.filter(component_piece()).len()
            },
            have >= 1 ==> last@ == pieces.filter(component_piece()).last(),
            have >= 2 ==> prev@ == pieces.filter(component_piece())[pieces.filter(component_piece()).len() - 2],
        decreases n - i,
    {
        let c = cs[i];
        proof {
            lemma_split_step(p@, i as int, pieces, cur@);
        }
        if c == '/' {
            let keep = piece_is_component(&cur);
            proof {
                pieces.lemma_filter_push(cur@, component_piece());
                pieces = pieces.push(cur@);
            }
            if keep {
                prev = last;
                last = cur;
                if have < 2 {
                    have = have + 1;
                }
            }
            cur = Vec::new();
        } else {
            cur.push(c);
        }
        i = i + 1;
    }
    proof {
        assert(p@.take(n as int) =~= p@);
        pieces.lemma_filter_push(cur@, component_piece());
    }
    if piece_is_component(&cur) {
        prev = last;
        last = cur;
        if have < 2 {
            have = have + 1;
        }
    }
    (have, last, prev)
}

/// `Path::file_name` of a Unix path.
pub open spec fn spec_file_name(p: Seq<char>) -> Option<Seq<char>> {
    last_name(path_components(p))
}

fn file_name_chars(p: &str) -> (r: Option<Vec<char>>)
    ensures
        match r {
            Some(v) => spec_file_name(p@) == Some(v@),
            None => spec_file_name(p@) is None,
        },
{
    let (have, last, _prev) = last_two_components(p);
    if have >= 1 && !piece_is_dotdot(&last) {
        Some(last)
    } else {
        None
    }
}

/// The file name of the path `p`: its last component, unless it has none
/// or the last is `".."`.
pub fn file_name(p: &str) -> (r: Option<String>)
    ensures
        match r {
            Some(s) => spec_file_name(p@) == Some(s@),
            None => spec_file_name(p@) is None,
        },
{
    match file_name_chars(p) {
        Some(v) => Some(string_from_chars(v.as_slice())),
        None => None,
    }
}

/// A file name without its extension: the text before the last `'.'`,
/// unless the only dot starts the name or there is none.
pub open spec fn stem_of_name(name: Seq<char>) -> Seq<char> {
    if exists|k: int| 0 < k < name.len() && name[k] == '.' {
        name.subrange(0, last_dot(name))
    } else {
        name
    }
}

/// `Path::file_stem` of a Unix path.
pub open spec fn spec_file_stem(p: Seq<char>) -> Option<Seq<char>> {
    match spec_file_name(p) {
        Some(n) => Some(stem_of_name(n)),
        None => None,
    }
}

/// The stem of the file name of `p`: the file name without its extension.
pub fn file_stem(p: &str) -> (r: Option<String>)
    ensures
        match r {
            Some(s) => spec_file_stem(p@) == Some(s@),
            None => spec_file_stem(p@) is None,
        },
{
    let name = match file_name_chars(p) {
        Some(v) => v,
        None => {
            return None;
        },
    };
    let ghost nm = name@;
    let n = name.len();
    let mut k = n;
    while k > 0 && name[k - 1] != '.'
        invariant
            name@ == nm,
            k <= n,
            n == nm.len(),
            forall|j: int| k <= j < n ==> nm[j] != '.',
        decreases k,
    {
        k = k - 1;
    }
    if k <= 1 {
        proof {
            assert(!exists|j: int| 0 < j < nm.len() && nm[j] == '.') by {
                if exists|j: int| 0 < j < nm.len() && nm[j] == '.' {
                    let j = choose|j: int| 0 < j < nm.len() && nm[j] == '.';
                    assert(j >= k);
                }
            }
        }
        return Some(string_from_chars(name.as_slice()));
    }
    let d = k - 1;
    proof {
        assert(nm[d as int] == '.');
        let ld = last_dot(nm);
        assert(0 <= ld < n && nm[ld] == '.' && forall|j: int| ld < j < n ==> nm[j] != '.');
        assert(ld == d as int);
    }
    let mut out: Vec<char> = Vec::new();
    let mut i: usize = 0;
    while i < d
        invariant
            name@ == nm,
            d < n,
            n == nm.len(),
            i <= d,
            out@ == nm.subrange(0, i as int),
        decreases d - i,
    {
        out.push(name[i]);
        proof {
            assert(out@ =~= nm.subrange(0, i + 1));
        }
        i = i + 1;
    }
    Some(string_from_chars(out.as_slice()))
}

/// The record of the page image at `path` found under the artbook
/// directory `root`: the book is named by the directory's file name
/// (`"unknown"` without one), the page by the image's file name (empty
/// without one).
pub fn page_record(root: &str, path: &str) -> (r: Page)
    ensures
        r.book@ == match spec_file_name(root@) {
            Some(n) => n,
            None => "unknown"@,
        },
        r.path@ == path@,
        r.filename@ == match spec_file_name(path@) {
            Some(n) => n,
            None => Seq::<char>::empty(),
        },
{
    let book = match file_name(root) {
        Some(b) => b,
        None => "unknown".to_owned(),
    };
    let filename = match file_name(path) {
        Some(f) => f,
        None => String::new(),
    };
    Page { book, path: path.to_owned(), filename }
}

/// `"<parent dir name>/<file name>"` of the path `p`, for a compact listing
/// of pages.
pub fn short_path(p: &str) -> (r: String)
    ensures
        r@ == spec_short_path(p@),
{
    let ghost comps = path_components(p@);
    let (have, last, prev) = last_two_components(p);
    let cs = chars_of(p);
    let n = cs.len();
    let mut out: Vec<char> = Vec::new();
    if have >= 2 && !piece_is_dotdot(&prev) {
        out = prev;
    }
    proof {
        if comps.len() > 0 {
            let d = comps.drop_last();
            if have >= 2 {
                assert(d.last() == comps[comps.len() - 2]);
            } else {
                assert(d.len() == 0);
            }
        }
    }
    out.push('/');
    let ghost head = out@;
    if have >= 1 && !piece_is_dotdot(&last) {
        let mut k: usize = 0;
        while k < last.len()
            invariant
                k <= last.len(),
                out@ == head + last@.take(k as int),
            decreases last.len() - k,
        {
            out.push(last[k]);
            proof {
                assert(last@.take(k + 1) =~= last@.take(k as int).push(last@[k as int]));
            }
            k = k + 1;
        }
        proof {
            assert(last@.take(last@.len() as int) =~= last@);
        }
    } else {
        let mut k: usize = 0;
        while k < n
            invariant
                cs@ == p@,
                n == p@.len(),
                k <= n,
                out@ == head + p@.take(k as int),
            decreases n - k,
        {
            out.push(cs[k]);
            proof {
                assert(p@.take(k + 1) =~= p@.take(k as int).push(p@[k as int]));
            }
            k = k + 1;
        }
        proof {
            assert(p@.take(n as int) =~= p@);
        }
    }
    proof {
        assert(out@ =~= spec_short_path(p@));
    }
    string_from_chars(out.as_slice())
}


/// The extension of a file name is the text after its last `'.'`: a name
/// made of a non-empty stem, a dot and a dot-free tail has that tail as
/// its extension, whatever dots the stem holds.
pub proof fn law_extension_after_last_dot(stem: Seq<char>, ext: Seq<char>)
    requires
        stem.len() > 0,
        forall|i: int| 0 <= i < ext.len() ==> ext[i] != '.',
        stem + seq!['.'] + ext != seq!['.', '.'],
    ensures
        file_extension(stem + seq!['.'] + ext) == Some(ext),
{
    let name = stem + seq!['.'] + ext;
    let k = stem.len() as int;
    assert(name[k] == '.');
    assert(0 < k < name.len());
    let ld = last_dot(name);
    assert(0 <= ld < name.len() && name[ld] == '.' && forall|j: int| ld < j < name.len() ==> name[j] != '.');
    if ld > k {
        assert(name[ld] == ext[ld - k - 1]);
    }
    if ld < k {
        assert(name[k] != '.');
    }
    assert(name.subrange(k + 1, name.len() as int) =~= ext);
}

/// A path whose file name is a non-empty stem, a dot and `jpg` or `jpeg`
/// in any ASCII case names a page image, whatever dots the stem holds.
pub proof fn law_jpeg_names_are_images(p: Seq<char>, stem: Seq<char>, ext: Seq<char>)
    requires
        stem.len() > 0,
        spec_file_name(p) == Some(stem + seq!['.'] + ext),
        ascii_lower(ext) == seq!['j', 'p', 'g'] || ascii_lower(ext) == seq!['j', 'p', 'e', 'g'],
    ensures
        lower_extension(p) == Some(ascii_lower(ext)),
        match lower_extension(p) {
            Some(e) => is_image_extension(e),
            None => false,
        },
{
    let l = ascii_lower(ext);
    assert(l.len() == ext.len());
    assert(l.len() >= 3);
    assert forall|i: int| 0 <= i < ext.len() implies ext[i] != '.' by {
        assert(l[i] == lower_char(ext[i]));
        if ext[i] == '.' {
            assert(lower_char(ext[i]) == '.');
            assert(l[i] == '.');
            if l == seq!['j', 'p', 'g'] {
                assert(l[i] != '.');
            } else {
                assert(l[i] != '.');
            }
        }
    }
    let name = stem + seq!['.'] + ext;
    assert(name != seq!['.', '.']) by {
        assert(name.len() >= 5);
    }
    law_extension_after_last_dot(stem, ext);
}

} // verus!
