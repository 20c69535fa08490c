//! The order of strings (by Unicode scalar value, which is the byte order
//! of their UTF-8 encodings) and sorted association lists keyed by strings.

use vstd::prelude::*;
use crate::text::chars_of;

verus! {

/// `a` sorts before `b`, comparing from index `i` on, character by
/// character; a proper prefix sorts first.
pub open spec fn lt_from(a: Seq<char>, b: Seq<char>, i: int) -> bool
    decreases a.len() - i,
{
    if i >= a.len() {
        i < b.len()
    } else if i >= b.len() {
        false
    } else if a[i] != b[i] {
        (a[i] as u32) < (b[i] as u32)
    } else {
        lt_from(a, b, i + 1)
    }
}

/// Lexicographic order on character sequences.
pub open spec fn str_lt(a: Seq<char>, b: Seq<char>) -> bool {
    lt_from(a, b, 0)
}

proof fn lemma_lt_from_irreflexive(a: Seq<char>, i: int)
    requires
        0 <= i,
    ensures
        !lt_from(a, a, i),
    decreases a.len() - i,
{
    if i < a.len() {
        lemma_lt_from_irreflexive(a, i + 1);
    }
}

proof fn lemma_lt_from_transitive(a: Seq<char>, b: Seq<char>, c: Seq<char>, i: int)
    requires
        0 <= i,
        lt_from(a, b, i),
        lt_from(b, c, i),
        a.subrange(0, i) == b.subrange(0, i),
        b.subrange(0, i) == c.subrange(0, i),
    ensures
        lt_from(a, c, i),
    decreases a.len() - i,
{
    if i < a.len() && i < b.len() && i < c.len() && a[i] == b[i] && b[i] == c[i] {
        assert(a.subrange(0, i + 1) == a.subrange(0, i).push(a[i]));
        assert(b.subrange(0, i + 1) == b.subrange(0, i).push(b[i]));
        assert(c.subrange(0, i + 1) == c.subrange(0, i).push(c[i]));
        lemma_lt_from_transitive(a, b, c, i + 1);
    }
}

proof fn lemma_lt_from_total(a: Seq<char>, b: Seq<char>, i: int)
    requires
        0 <= i <= a.len(),
        i <= b.len(),
        a.subrange(0, i) == b.subrange(0, i),
        !lt_from(a, b, i),
        !lt_from(b, a, i),
    ensures
        a == b,
    decreases a.len() - i,
{
    if i < a.len() && i < b.len() {
        vstd::utf8::char_u32_cast(a[i], a[i] as u32);
        vstd::utf8::char_u32_cast(b[i], b[i] as u32);
        assert(a[i] == b[i]);
        assert(a.subrange(0, i + 1) == a.subrange(0, i).push(a[i]));
        assert(b.subrange(0, i + 1) == b.subrange(0, i).push(b[i]));
        lemma_lt_from_total(a, b, i + 1);
    } else {
        assert(a.len() == i && b.len() == i);
        assert(a == a.subrange(0, i));
        assert(b == b.subrange(0, i));
    }
}

/// `str_lt` is a strict total order.
pub proof fn lemma_str_lt_order(a: Seq<char>, b: Seq<char>, c: Seq<char>)
    ensures
        !str_lt(a, a),
        str_lt(a, b) && str_lt(b, c) ==> str_lt(a, c),
        str_lt(a, b) || str_lt(b, a) || a == b,
        str_lt(a, b) ==> !str_lt(b, a),
{
    lemma_lt_from_irreflexive(a, 0);
    assert(a.subrange(0, 0) == b.subrange(0, 0));
    assert(b.subrange(0, 0) == c.subrange(0, 0));
    if str_lt(a, b) && str_lt(b, c) {
        lemma_lt_from_transitive(a, b, c, 0);
    }
    if !str_lt(a, b) && !str_lt(b, a) {
        lemma_lt_from_total(a, b, 0);
    }
    if str_lt(a, b) && str_lt(b, a) {
        lemma_lt_from_transitive(a, b, a, 0);
        lemma_lt_from_irreflexive(a, 0);
    }
}

/// Whether `a` sorts strictly before `b`.
pub fn str_less(a: &str, b: &str) -> (r: bool)
    ensures
        r == str_lt(a@, b@),
{
    let ca = chars_of(a);
    let cb = chars_of(b);
    let mut i: usize = 0;
    while i < ca.len() && i < cb.len() && ca[i] == cb[i]
        invariant
            ca@ == a@,
            cb@ == b@,
            i <= ca.len(),
            i <= cb.len(),
            lt_from(a@, b@, 0) == lt_from(a@, b@, i as int),
        decreases ca.len() - i,
    {
        i = i + 1;
    }
    if i >= ca.len() {
        i < cb.len()
    } else if i >= cb.len() {
        false
    } else {
        (ca[i] as u32) < (cb[i] as u32)
    }
}

/// Whether `a` and `b` hold the same characters.
pub fn str_equal(a: &str, b: &str) -> (r: bool)
    ensures
        r == (a@ == b@),
{
    let ca = chars_of(a);
    let cb = chars_of(b);
    if ca.len() != cb.len() {
        return false;
    }
    let mut i: usize = 0;
    while i < ca.len()
        invariant
            ca@ == a@,
            cb@ == b@,
            ca.len() == cb.len(),
            i <= ca.len(),
            forall|j: int| 0 <= j < i ==> ca@[j] == cb@[j],
        decreases ca.len() - i,
    {
        if ca[i] != cb[i] {
            return false;
        }
        i = i + 1;
    }
    assert(ca@ =~= cb@);
    true
}

// ---------------------------------------------------------------------
// Association lists: sequences of (key, value) with strictly increasing
// keys, read as finite maps.
// ---------------------------------------------------------------------

/// Keys strictly increase along `s`.
pub open spec fn keys_sorted<V>(s: Seq<(String, V)>) -> bool {
    forall|i: int, j: int| 0 <= i < j < s.len() ==> str_lt((#[trigger] s[i]).0@, (#[trigger] s[j]).0@)
}

/// Some entry of `s` has key `k`.
pub open spec fn has_key<V>(s: Seq<(String, V)>, k: Seq<char>) -> bool {
    exists|i: int| 0 <= i < s.len() && (#[trigger] s[i]).0@ == k
}

/// The position of key `k` in `s`.
pub open spec fn key_index<V>(s: Seq<(String, V)>, k: Seq<char>) -> int {
    choose|i: int| 0 <= i < s.len() && (#[trigger] s[i]).0@ == k
}

/// `s` read as a map from keys to values.
pub open spec fn assoc_map<V>(s: Seq<(String, V)>) -> Map<Seq<char>, V> {
    Map::new(|k: Seq<char>| has_key(s, k), |k: Seq<char>| s[key_index(s, k)].1)
}

/// In a sorted list each key sits at exactly one position.
pub proof fn lemma_key_index<V>(s: Seq<(String, V)>, i: int)
    requires
        keys_sorted(s),
        0 <= i < s.len(),
    ensures
        has_key(s, s[i].0@),
        key_index(s, s[i].0@) == i,
        assoc_map(s).contains_key(s[i].0@),
        assoc_map(s)[s[i].0@] == s[i].1,
{
    let k = s[i].0@;
    assert(has_key(s, k));
    let j = key_index(s, k);
    if j != i {
        if j < i {
            assert(str_lt(s[j].0@, s[i].0@));
        } else {
            assert(str_lt(s[i].0@, s[j].0@));
        }
        lemma_str_lt_order(k, k, k);
    }
}

/// Where a key belongs in a sorted list.
pub open spec fn insertion_point<V>(s: Seq<(String, V)>, k: Seq<char>, pos: int) -> bool {
    &&& 0 <= pos <= s.len()
    &&& forall|i: int| 0 <= i < pos ==> str_lt((#[trigger] s[i]).0@, k)
    &&& pos < s.len() ==> !str_lt(s[pos].0@, k)
}

/// At its insertion point, a key is either present or absent from the
/// whole list.
pub proof fn lemma_insertion_point<V>(s: Seq<(String, V)>, k: Seq<char>, pos: int)
    requires
        keys_sorted(s),
        insertion_point(s, k, pos),
    ensures
        has_key(s, k) <==> (pos < s.len() && s[pos].0@ == k),
        !has_key(s, k) ==> forall|i: int| pos <= i < s.len() ==> str_lt(k, (#[trigger] s[i]).0@),
{
    if pos < s.len() {
        lemma_str_lt_order(s[pos].0@, k, k);
        if s[pos].0@ != k {
            assert(str_lt(k, s[pos].0@));
            assert forall|i: int| pos <= i < s.len() implies str_lt(k, (#[trigger] s[i]).0@) by {
                if i > pos {
                    lemma_str_lt_order(k, s[pos].0@, s[i].0@);
                }
            }
        }
    }
    if has_key(s, k) {
        let j = choose|j: int| 0 <= j < s.len() && (#[trigger] s[j]).0@ == k;
        if j < pos {
            assert(str_lt(s[j].0@, k));
            lemma_str_lt_order(k, k, k);
        } else if j > pos {
            if s[pos].0@ != k {
                assert(str_lt(k, s[j].0@));
                lemma_str_lt_order(k, k, k);
            }
        }
    }
}

/// Finds where `k` belongs in the sorted list `s`, and whether it is there.
pub fn find_key<V>(s: &Vec<(String, V)>, k: &str) -> (r: (usize, bool))
    requires
        keys_sorted(s@),
    ensures
        insertion_point(s@, k@, r.0 as int),
        r.1 == has_key(s@, k@),
        r.1 ==> r.0 < s@.len() && s@[r.0 as int].0@ == k@,
{
    let mut pos: usize = 0;
    while pos < s.len() && str_less(s[pos].0.as_str(), k)
        invariant
            pos <= s@.len(),
            forall|i: int| 0 <= i < pos ==> str_lt((#[trigger] s@[i]).0@, k@),
        decreases s@.len() - pos,
    {
        pos = pos + 1;
    }
    proof {
        lemma_insertion_point(s@, k@, pos as int);
    }
    let found = pos < s.len() && str_equal(s[pos].0.as_str(), k);
    (pos, found)
}

/// Replacing the value at a key's position updates that key in the map.
pub proof fn lemma_assoc_update<V>(s: Seq<(String, V)>, i: int, e: (String, V))
    requires
        keys_sorted(s),
        0 <= i < s.len(),
        e.0@ == s[i].0@,
    ensures
        keys_sorted(s.update(i, e)),
        assoc_map(s.update(i, e)) == assoc_map(s).insert(e.0@, e.1),
{
    let t = s.update(i, e);
    assert forall|a: int, b: int| 0 <= a < b < t.len() implies str_lt((#[trigger] t[a]).0@, (#[trigger] t[b]).0@) by {
        assert(t[a].0@ == s[a].0@ && t[b].0@ == s[b].0@);
    }
    lemma_key_index(t, i);
    assert forall|k: Seq<char>| #[trigger] has_key(t, k) == has_key(s, k) by {
        if has_key(s, k) {
            let j = choose|j: int| 0 <= j < s.len() && (#[trigger] s[j]).0@ == k;
            assert(t[j].0@ == k);
        }
        if has_key(t, k) {
            let j = choose|j: int| 0 <= j < t.len() && (#[trigger] t[j]).0@ == k;
            assert(s[j].0@ == k);
        }
    }
    assert(assoc_map(t) =~= assoc_map(s).insert(e.0@, e.1)) by {
        assert forall|k: Seq<char>| #[trigger] assoc_map(t).contains_key(k) implies assoc_map(t)[k] == assoc_map(s).insert(e.0@, e.1)[k] by {
            let j = choose|j: int| 0 <= j < t.len() && (#[trigger] t[j]).0@ == k;
            lemma_key_index(t, j);
            lemma_key_index(s, j);
        }
    }
}

/// Inserting a new key at its insertion point adds it to the map and
/// keeps the keys sorted.
pub proof fn lemma_assoc_insert<V>(s: Seq<(String, V)>, pos: int, e: (String, V))
    requires
        keys_sorted(s),
        insertion_point(s, e.0@, pos),
        !has_key(s, e.0@),
    ensures
        keys_sorted(s.insert(pos, e)),
        assoc_map(s.insert(pos, e)) == assoc_map(s).insert(e.0@, e.1),
{
    lemma_insertion_point(s, e.0@, pos);
    let t = s.insert(pos, e);
    assert forall|a: int, b: int| 0 <= a < b < t.len() implies str_lt((#[trigger] t[a]).0@, (#[trigger] t[b]).0@) by {
        if b < pos {
            assert(t[a] == s[a] && t[b] == s[b]);
        } else if b == pos {
            assert(t[a] == s[a]);
        } else if a < pos {
            assert(t[a] == s[a] && t[b] == s[b - 1]);
            lemma_str_lt_order(s[a].0@, e.0@, s[b - 1].0@);
        } else if a == pos {
            assert(t[b] == s[b - 1]);
        } else {
            assert(t[a] == s[a - 1] && t[b] == s[b - 1]);
        }
    }
    lemma_key_index(t, pos);
    assert forall|k: Seq<char>| #[trigger] has_key(t, k) == (has_key(s, k) || k == e.0@) by {
        if has_key(s, k) {
            let j = choose|j: int| 0 <= j < s.len() && (#[trigger] s[j]).0@ == k;
            if j < pos {
                assert(t[j] == s[j]);
            } else {
                assert(t[j + 1] == s[j]);
            }
        }
        if has_key(t, k) && k != e.0@ {
            let j = choose|j: int| 0 <= j < t.len() && (#[trigger] t[j]).0@ == k;
            if j < pos {
                assert(t[j] == s[j]);
            } else {
                assert(j != pos);
                assert(t[j] == s[j - 1]);
            }
        }
    }
    assert(assoc_map(t) =~= assoc_map(s).insert(e.0@, e.1)) by {
        assert forall|k: Seq<char>| #[trigger] assoc_map(t).contains_key(k) implies assoc_map(t)[k] == assoc_map(s).insert(e.0@, e.1)[k] by {
            let j = choose|j: int| 0 <= j < t.len() && (#[trigger] t[j]).0@ == k;
            lemma_key_index(t, j);
            if j < pos {
                assert(t[j] == s[j]);
                lemma_key_index(s, j);
            } else if j > pos {
                assert(t[j] == s[j - 1]);
                lemma_key_index(s, j - 1);
            }
        }
    }
}

/// Removing an entry removes its key from the map.
pub proof fn lemma_assoc_remove<V>(s: Seq<(String, V)>, i: int)
    requires
        keys_sorted(s),
        0 <= i < s.len(),
    ensures
        keys_sorted(s.remove(i)),
        assoc_map(s.remove(i)) == assoc_map(s).remove(s[i].0@),
{
    let t = s.remove(i);
    let ki = s[i].0@;
    assert forall|a: int, b: int| 0 <= a < b < t.len() implies str_lt((#[trigger] t[a]).0@, (#[trigger] t[b]).0@) by {
        if b < i {
            assert(t[a] == s[a] && t[b] == s[b]);
        } else if a < i {
            assert(t[a] == s[a] && t[b] == s[b + 1]);
        } else {
            assert(t[a] == s[a + 1] && t[b] == s[b + 1]);
        }
    }
    assert forall|k: Seq<char>| #[trigger] has_key(t, k) == (has_key(s, k) && k != ki) by {
        if has_key(s, k) && k != ki {
            let j = choose|j: int| 0 <= j < s.len() && (#[trigger] s[j]).0@ == k;
            if j < i {
                assert(t[j] == s[j]);
            } else {
                assert(j != i);
                assert(t[j - 1] == s[j]);
            }
        }
        if has_key(t, k) {
            let j = choose|j: int| 0 <= j < t.len() && (#[trigger] t[j]).0@ == k;
            if j < i {
                assert(t[j] == s[j]);
                assert(str_lt(s[j].0@, ki));
            } else {
                assert(t[j] == s[j + 1]);
                assert(str_lt(ki, s[j + 1].0@));
            }
            lemma_str_lt_order(k, k, k);
            lemma_str_lt_order(ki, ki, ki);
        }
    }
    assert(assoc_map(t) =~= assoc_map(s).remove(ki)) by {
        assert forall|k: Seq<char>| #[trigger] assoc_map(t).contains_key(k) implies assoc_map(t)[k] == assoc_map(s).remove(ki)[k] by {
            let j = choose|j: int| 0 <= j < t.len() && (#[trigger] t[j]).0@ == k;
            lemma_key_index(t, j);
            if j < i {
                assert(t[j] == s[j]);
                lemma_key_index(s, j);
            } else {
                assert(t[j] == s[j + 1]);
                lemma_key_index(s, j + 1);
            }
        }
    }
}

} // verus!
