//! Human-supplied training labels: per-page, per-character ground truth.
//!
//! Labels are keyed by `book/filename` (not full path) so they survive mount
//! moves. The store is a map from page key to a map from character key to
//! verdict, both held as lists sorted by key.

use vstd::prelude::*;
use vstd::string::StringExecFns;
use crate::text::{join_path, spec_join};
use crate::order::{
    assoc_map, find_key, has_key, keys_sorted, lemma_assoc_insert, lemma_assoc_remove,
    lemma_assoc_update, lemma_key_index, lemma_str_lt_order, str_lt,
};

verus! {

/// A human verdict on whether a character appears on a page.
#[derive(Clone, Copy, Debug, PartialEq, Eq, Structural)]
pub enum Verdict {
    Yes,
    No,
    Unsure,
}

/// page key ("book/filename") -> character key -> verdict, each level
/// sorted by key.
#[derive(Clone, Debug)]
pub struct LabelStore {
    pub entries: Vec<(String, Vec<(String, Verdict)>)>,
}

/// The verdicts of one page as a map.
pub open spec fn verdict_map(v: Vec<(String, Verdict)>) -> Map<Seq<char>, Verdict> {
    assoc_map(v@)
}

/// Store entries read as a map of maps.
pub open spec fn entries_view(es: Seq<(String, Vec<(String, Verdict)>)>) -> Map<Seq<char>, Map<Seq<char>, Verdict>> {
    assoc_map(es).map_values(|v: Vec<(String, Verdict)>| verdict_map(v))
}

/// The pages on which `m` gives character `ch` the verdict `v`.
pub open spec fn pages_with(m: Map<Seq<char>, Map<Seq<char>, Verdict>>, ch: Seq<char>, v: Verdict) -> Set<Seq<char>> {
    m.dom().filter(|pk: Seq<char>| m[pk].contains_key(ch) && m[pk][ch] == v)
}

/// Some page of `m` carries a verdict for `ch`.
pub open spec fn labels_character(m: Map<Seq<char>, Map<Seq<char>, Verdict>>, ch: Seq<char>) -> bool {
    exists|pk: Seq<char>| #[trigger] m.contains_key(pk) && m[pk].contains_key(ch)
}

/// The key under which a page's labels are stored: `book/filename`.
pub open spec fn spec_page_key(book: Seq<char>, filename: Seq<char>) -> Seq<char> {
    book + seq!['/'] + filename
}

/// Every (character, verdict) pair of the store, page after page.
pub open spec fn all_pairs(es: Seq<(String, Vec<(String, Verdict)>)>) -> Seq<(Seq<char>, Verdict)>
    decreases es.len(),
{
    if es.len() == 0 {
        Seq::empty()
    } else {
        all_pairs(es.drop_last()) + pairs_of(es.last().1@)
    }
}

/// The (character, verdict) pairs of one page.
pub open spec fn pairs_of(v: Seq<(String, Verdict)>) -> Seq<(Seq<char>, Verdict)> {
    v.map_values(|e: (String, Verdict)| (e.0@, e.1))
}

/// How many pairs of `ps` give character `ch` the verdict `v`.
pub open spec fn tally(ps: Seq<(Seq<char>, Verdict)>, ch: Seq<char>, v: Verdict) -> nat
    decreases ps.len(),
{
    if ps.len() == 0 {
        0
    } else {
        tally(ps.drop_last(), ch, v) + if ps.last() == (ch, v) {
            1nat
        } else {
            0nat
        }
    }
}

/// Some pair of `ps` is about character `ch`.
pub open spec fn mentions(ps: Seq<(Seq<char>, Verdict)>, ch: Seq<char>) -> bool {
    exists|i: int| 0 <= i < ps.len() && (#[trigger] ps[i]).0 == ch
}

/// The (Yes, No, Unsure) tallies of `ch` over `ps`.
pub open spec fn tallies(ps: Seq<(Seq<char>, Verdict)>, ch: Seq<char>) -> (u32, u32, u32) {
    (
        tally(ps, ch, Verdict::Yes) as u32,
        tally(ps, ch, Verdict::No) as u32,
        tally(ps, ch, Verdict::Unsure) as u32,
    )
}

/// The verdict a store view records for `ch` on page `pk`.
pub open spec fn spec_get(
    m: Map<Seq<char>, Map<Seq<char>, Verdict>>,
    pk: Seq<char>,
    ch: Seq<char>,
) -> Option<Verdict> {
    if m.contains_key(pk) && m[pk].contains_key(ch) {
        Some(m[pk][ch])
    } else {
        None
    }
}

/// A store view after recording verdict `v` for `ch` on page `pk`.
pub open spec fn spec_set(
    m: Map<Seq<char>, Map<Seq<char>, Verdict>>,
    pk: Seq<char>,
    ch: Seq<char>,
    v: Verdict,
) -> Map<Seq<char>, Map<Seq<char>, Verdict>> {
    m.insert(
        pk,
        (if m.contains_key(pk) {
            m[pk]
        } else {
            Map::empty()
        }).insert(ch, v),
    )
}

/// A store view after forgetting the verdict for `ch` on page `pk`; a page
/// left with no verdicts is dropped.
pub open spec fn spec_clear(
    m: Map<Seq<char>, Map<Seq<char>, Verdict>>,
    pk: Seq<char>,
    ch: Seq<char>,
) -> Map<Seq<char>, Map<Seq<char>, Verdict>> {
    if m.contains_key(pk) {
        let rest = m[pk].remove(ch);
        if rest == Map::<Seq<char>, Verdict>::empty() {
            m.remove(pk)
        } else {
            m.insert(pk, rest)
        }
    } else {
        m
    }
}

impl Default for LabelStore {
    /// An empty store.
    fn default() -> (r: LabelStore)
        ensures
            r.wf(),
            r@ == Map::<Seq<char>, Map<Seq<char>, Verdict>>::empty(),
    {
        let r = LabelStore { entries: Vec::new() };
        assert(r@ =~= Map::<Seq<char>, Map<Seq<char>, Verdict>>::empty());
        r
    }
}

impl LabelStore {
    /// Both levels sorted by key.
    pub open spec fn wf(&self) -> bool {
        &&& keys_sorted(self.entries@)
        &&& forall|i: int| 0 <= i < self.entries@.len() ==> keys_sorted((#[trigger] self.entries@[i]).1@)
    }

    /// The store as a map of maps.
    pub open spec fn view(&self) -> Map<Seq<char>, Map<Seq<char>, Verdict>> {
        entries_view(self.entries@)
    }

    /// `book/filename`.
    pub fn page_key(book: &str, filename: &str) -> (r: String)
        ensures
            r@ == spec_page_key(book@, filename@),
    {
        let mut r = book.to_owned();
        let slash = "/";
        proof {
            reveal_strlit("/");
        }
        r.append(slash);
        r.append(filename);
        r
    }

    /// All verdicts recorded on `page_key`, by character key in key order
    /// (none if the page has none).
    pub fn page_verdicts(&self, page_key: &str) -> (r: Vec<(String, Verdict)>)
        requires
            self.wf(),
        ensures
            keys_sorted(r@),
            verdict_map(r) == if self@.contains_key(page_key@) {
                self@[page_key@]
            } else {
                Map::<Seq<char>, Verdict>::empty()
            },
    {
        let mut out: Vec<(String, Verdict)> = Vec::new();
        let (pos, found) = find_key(&self.entries, page_key);
        if !found {
            proof {
                assert(verdict_map(out) =~= Map::<Seq<char>, Verdict>::empty());
            }
            return out;
        }
        proof {
            lemma_key_index(self.entries@, pos as int);
        }
        let inner = &self.entries[pos].1;
        let mut j: usize = 0;
        while j < inner.len()
            invariant
                keys_sorted(inner@),
                j <= inner@.len(),
                out@.len() == j,
                forall|t: int| 0 <= t < j ==> (#[trigger] out@[t]).0@ == inner@[t].0@ && out@[t].1 == inner@[t].1,
            decreases inner@.len() - j,
        {
            let c = inner[j].0.clone();
            out.push((c, inner[j].1));
            j = j + 1;
        }
        proof {
            let a = out@;
            let b = inner@;
            assert(keys_sorted(a)) by {
                assert forall|x: int, y: int| 0 <= x < y < a.len() implies str_lt((#[trigger] a[x]).0@, (#[trigger] a[y]).0@) by {
                    assert(str_lt(b[x].0@, b[y].0@));
                }
            }
            assert forall|k: Seq<char>| #[trigger] has_key(a, k) == has_key(b, k) by {
                if has_key(a, k) {
                    let t = choose|t: int| 0 <= t < a.len() && (#[trigger] a[t]).0@ == k;
                    assert(b[t].0@ == k);
                }
                if has_key(b, k) {
                    let t = choose|t: int| 0 <= t < b.len() && (#[trigger] b[t]).0@ == k;
                    assert(a[t].0@ == k);
                }
            }
            assert forall|k: Seq<char>| has_key(a, k) implies #[trigger] assoc_map(a)[k] == assoc_map(b)[k] by {
                let t = choose|t: int| 0 <= t < a.len() && (#[trigger] a[t]).0@ == k;
                lemma_key_index(a, t);
                assert(b[t].0@ == k);
                lemma_key_index(b, t);
            }
            assert(assoc_map(a) =~= assoc_map(b));
        }
        out
    }

    /// The verdict recorded for `character` on `page_key`, if any.
    pub fn get(&self, page_key: &str, character: &str) -> (r: Option<Verdict>)
        requires
            self.wf(),
        ensures
            r == spec_get(self@, page_key@, character@),
    {
        let (pos, found) = find_key(&self.entries, page_key);
        if !found {
            return None;
        }
        proof {
            lemma_key_index(self.entries@, pos as int);
        }
        let inner = &self.entries[pos].1;
        let (pos2, found2) = find_key(inner, character);
        if !found2 {
            return None;
        }
        proof {
            lemma_key_index(inner@, pos2 as int);
        }
        Some(inner[pos2].1)
    }

    /// Records verdict `v` for `character` on `page_key`, replacing any
    /// earlier verdict.
    pub fn set(&mut self, page_key: &str, character: &str, v: Verdict)
        requires
            old(self).wf(),
        ensures
            final(self).wf(),
            final(self)@ == spec_set(old(self)@, page_key@, character@, v),
    {
        let ghost es0 = self.entries@;
        let (pos, found) = find_key(&self.entries, page_key);
        if found {
            proof {
                lemma_key_index(es0, pos as int);
            }
            let (k, mut inner) = self.entries.remove(pos);
            let ghost in0 = inner@;
            let ghost es1 = self.entries@;
            let (pos2, found2) = find_key(&inner, character);
            if found2 {
                let e = (character.to_owned(), v);
                proof {
                    lemma_assoc_update(in0, pos2 as int, e);
                }
                inner.set(pos2, e);
            } else {
                let e = (character.to_owned(), v);
                proof {
                    lemma_assoc_insert(in0, pos2 as int, e);
                }
                inner.insert(pos2, e);
            }
            let ghost ent = (k, inner);
            proof {
                assert(es1.insert(pos as int, ent) == es0.update(pos as int, ent));
                lemma_assoc_update(es0, pos as int, ent);
            }
            self.entries.insert(pos, (k, inner));
            proof {
                self.lemma_wf_after_update(es0, pos as int);
                assert(self@ =~= old(self)@.insert(
                    page_key@,
                    old(self)@[page_key@].insert(character@, v),
                ));
            }
        } else {
            let mut inner: Vec<(String, Verdict)> = Vec::new();
            inner.push((character.to_owned(), v));
            let ent = (page_key.to_owned(), inner);
            proof {
                lemma_assoc_insert(es0, pos as int, ent);
                assert(verdict_map(ent.1) =~= Map::<Seq<char>, Verdict>::empty().insert(character@, v)) by {
                    lemma_key_index(ent.1@, 0);
                }
            }
            self.entries.insert(pos, ent);
            proof {
                assert(self.entries@ == es0.insert(pos as int, ent));
                self.lemma_wf_after_insert(es0, pos as int);
                assert(self@ =~= old(self)@.insert(
                    page_key@,
                    Map::<Seq<char>, Verdict>::empty().insert(character@, v),
                ));
            }
        }
    }

    proof fn lemma_wf_after_update(&self, es0: Seq<(String, Vec<(String, Verdict)>)>, pos: int)
        requires
            0 <= pos < es0.len(),
            self.entries@ == es0.update(pos, self.entries@[pos]),
            keys_sorted(self.entries@),
            keys_sorted(self.entries@[pos].1@),
            forall|i: int| 0 <= i < es0.len() ==> keys_sorted((#[trigger] es0[i]).1@),
        ensures
            self.wf(),
    {
        assert forall|i: int| 0 <= i < self.entries@.len() implies keys_sorted((#[trigger] self.entries@[i]).1@) by {
            if i != pos {
                assert(self.entries@[i] == es0[i]);
            }
        }
    }

    proof fn lemma_wf_after_insert(&self, es0: Seq<(String, Vec<(String, Verdict)>)>, pos: int)
        requires
            0 <= pos <= es0.len(),
            self.entries@ == es0.insert(pos, self.entries@[pos]),
            keys_sorted(self.entries@),
            keys_sorted(self.entries@[pos].1@),
            forall|i: int| 0 <= i < es0.len() ==> keys_sorted((#[trigger] es0[i]).1@),
        ensures
            self.wf(),
    {
        assert forall|i: int| 0 <= i < self.entries@.len() implies keys_sorted((#[trigger] self.entries@[i]).1@) by {
            if i < pos {
                assert(self.entries@[i] == es0[i]);
            } else if i > pos {
                assert(self.entries@[i] == es0[i - 1]);
            }
        }
    }

    proof fn lemma_wf_after_remove(&self, es0: Seq<(String, Vec<(String, Verdict)>)>, pos: int)
        requires
            0 <= pos < es0.len(),
            self.entries@ == es0.remove(pos),
            keys_sorted(self.entries@),
            forall|i: int| 0 <= i < es0.len() ==> keys_sorted((#[trigger] es0[i]).1@),
        ensures
            self.wf(),
    {
        assert forall|i: int| 0 <= i < self.entries@.len() implies keys_sorted((#[trigger] self.entries@[i]).1@) by {
            if i < pos {
                assert(self.entries@[i] == es0[i]);
            } else {
                assert(self.entries@[i] == es0[i + 1]);
            }
        }
    }

    /// Forgets the verdict for `character` on `page_key`; a page left with
    /// no verdicts is dropped.
    pub fn clear_page_character(&mut self, page_key: &str, character: &str)
        requires
            old(self).wf(),
        ensures
            final(self).wf(),
            final(self)@ == spec_clear(old(self)@, page_key@, character@),
    {
        let ghost es0 = self.entries@;
        let (pos, found) = find_key(&self.entries, page_key);
        if !found {
            proof {
                assert(!old(self)@.contains_key(page_key@));
            }
            return;
        }
        proof {
            lemma_key_index(es0, pos as int);
        }
        let (k, mut inner) = self.entries.remove(pos);
        let ghost in0 = inner@;
        let ghost es1 = self.entries@;
        let (pos2, found2) = find_key(&inner, character);
        if found2 {
            proof {
                lemma_key_index(in0, pos2 as int);
                lemma_assoc_remove(in0, pos2 as int);
            }
            inner.remove(pos2);
        } else {
            proof {
                assert(assoc_map(in0).remove(character@) =~= assoc_map(in0));
            }
        }
        let ghost rest = verdict_map(inner);
        assert(rest == verdict_map(es0[pos as int].1).remove(character@));
        if inner.len() == 0 {
            proof {
                assert(rest =~= Map::<Seq<char>, Verdict>::empty());
                lemma_assoc_remove(es0, pos as int);
                self.lemma_wf_after_remove(es0, pos as int);
                assert(self@ =~= old(self)@.remove(page_key@));
            }
        } else {
            let ghost ent = (k, inner);
            proof {
                assert(rest != Map::<Seq<char>, Verdict>::empty()) by {
                    lemma_key_index(inner@, 0);
                    assert(rest.contains_key(inner@[0].0@));
                }
                assert(es1.insert(pos as int, ent) == es0.update(pos as int, ent));
                lemma_assoc_update(es0, pos as int, ent);
            }
            self.entries.insert(pos, (k, inner));
            proof {
                self.lemma_wf_after_update(es0, pos as int);
                assert(self@ =~= old(self)@.insert(page_key@, rest));
            }
        }
    }

    /// How many distinct pages hold at least one entry.
    pub fn labeled_page_count(&self) -> (r: usize)
        requires
            self.wf(),
        ensures
            r == self.entries@.len(),
            r == self@.dom().len(),
    {
        proof {
            self.lemma_dom_len();
        }
        self.entries.len()
    }

    proof fn lemma_dom_len(&self)
        requires
            self.wf(),
        ensures
            self@.dom().len() == self.entries@.len(),
    {
        let es = self.entries@;
        let ks = es.map_values(|e: (String, Vec<(String, Verdict)>)| e.0@);
        assert(ks.no_duplicates()) by {
            assert forall|i: int, j: int| 0 <= i < ks.len() && 0 <= j < ks.len() && i != j implies ks[i] != ks[j] by {
                if i < j {
                    assert(str_lt(es[i].0@, es[j].0@));
                } else {
                    assert(str_lt(es[j].0@, es[i].0@));
                }
                lemma_str_lt_order(ks[i], ks[i], ks[i]);
            }
        }
        assert(self@.dom() =~= ks.to_set()) by {
            assert forall|k: Seq<char>| self@.dom().contains(k) implies ks.to_set().contains(k) by {
                let j = choose|j: int| 0 <= j < es.len() && (#[trigger] es[j]).0@ == k;
                assert(ks[j] == k);
            }
            assert forall|k: Seq<char>| ks.to_set().contains(k) implies self@.dom().contains(k) by {
                let j = choose|j: int| 0 <= j < ks.len() && ks[j] == k;
                assert(es[j].0@ == k);
            }
        }
        ks.unique_seq_to_set();
    }

    /// Per-character (Yes, No, Unsure) tallies over all pages, sorted by
    /// character key: for each character that some page labels, how many
    /// pages give it each verdict. Each of these tallies is at most
    /// `u32::MAX`, so that it fits its counter.
    pub fn counts(&self) -> (r: Vec<(String, (u32, u32, u32))>)
        requires
            self.wf(),
            forall|ch: Seq<char>, v: Verdict| #[trigger] pages_with(self@, ch, v).len() <= u32::MAX,
        ensures
            keys_sorted(r@),
            forall|ch: Seq<char>| #[trigger] has_key(r@, ch) == labels_character(self@, ch),
            forall|k: int|
                0 <= k < r@.len() ==> (#[trigger] r@[k]).1 == (
                    pages_with(self@, r@[k].0@, Verdict::Yes).len() as u32,
                    pages_with(self@, r@[k].0@, Verdict::No).len() as u32,
                    pages_with(self@, r@[k].0@, Verdict::Unsure).len() as u32,
                ),
    {
        let ghost es = self.entries@;
        let mut out: Vec<(String, (u32, u32, u32))> = Vec::new();
        let mut i: usize = 0;
        proof {
            assert(es.subrange(0, 0) =~= Seq::<(String, Vec<(String, Verdict)>)>::empty());
            assert(all_pairs(es.subrange(0, 0)) =~= Seq::<(Seq<char>, Verdict)>::empty());
        }
        while i < self.entries.len()
            invariant
                es == self.entries@,
                self.wf(),
                forall|c: Seq<char>, v: Verdict| #[trigger] pages_with(self@, c, v).len() <= u32::MAX,
                i <= es.len(),
                keys_sorted(out@),
                forall|ch: Seq<char>| #[trigger] has_key(out@, ch) == mentions(all_pairs(es.subrange(0, i as int)), ch),
                forall|k: int|
                    0 <= k < out@.len() ==> (#[trigger] out@[k]).1 == tallies(all_pairs(es.subrange(0, i as int)), out@[k].0@),
            decreases es.len() - i,
        {
            let inner = &self.entries[i].1;
            let ghost base = all_pairs(es.subrange(0, i as int));
            let mut j: usize = 0;
            proof {
                assert(pairs_of(inner@.subrange(0, 0)) =~= Seq::<(Seq<char>, Verdict)>::empty());
                assert(base + pairs_of(inner@.subrange(0, 0)) =~= base);
                assert(es.subrange(0, i + 1).drop_last() == es.subrange(0, i as int));
                assert(all_pairs(es.subrange(0, i + 1)) == base + pairs_of(inner@));
            }
            while j < inner.len()
                invariant
                    es == self.entries@,
                    self.wf(),
                    forall|c: Seq<char>, v: Verdict| #[trigger] pages_with(self@, c, v).len() <= u32::MAX,
                    i < es.len(),
                    inner@ == es[i as int].1@,
                    base == all_pairs(es.subrange(0, i as int)),
                    j <= inner@.len(),
                    keys_sorted(out@),
                    forall|ch: Seq<char>| #[trigger] has_key(out@, ch) == mentions(base + pairs_of(inner@.subrange(0, j as int)), ch),
                    forall|k: int|
                        0 <= k < out@.len() ==> (#[trigger] out@[k]).1 == tallies(base + pairs_of(inner@.subrange(0, j as int)), out@[k].0@),
                decreases inner@.len() - j,
            {
                let ghost ps = base + pairs_of(inner@.subrange(0, j as int));
                let ch = &inner[j].0;
                let v = inner[j].1;
                let ghost pair = (ch@, v);
                let ghost ps2 = ps.push(pair);
                proof {
                    assert(inner@.subrange(0, j + 1) == inner@.subrange(0, j as int).push(inner@[j as int]));
                    assert(pairs_of(inner@.subrange(0, j + 1)) =~= pairs_of(inner@.subrange(0, j as int)).push(pair));
                    assert(base + pairs_of(inner@.subrange(0, j + 1)) =~= ps2);
                    lemma_tally_push(ps, pair);
                    assert forall|c: Seq<char>| #[trigger] mentions(ps2, c) == (mentions(ps, c) || c == ch@) by {
                        if mentions(ps, c) {
                            let t = choose|t: int| 0 <= t < ps.len() && (#[trigger] ps[t]).0 == c;
                            assert(ps2[t] == ps[t]);
                        }
                        if mentions(ps2, c) && c != ch@ {
                            let t = choose|t: int| 0 <= t < ps2.len() && (#[trigger] ps2[t]).0 == c;
                            assert(ps[t] == ps2[t]);
                        }
                        if c == ch@ {
                            assert(ps2[ps.len() as int] == pair);
                        }
                    }
                    assert forall|c: Seq<char>, vv: Verdict| #[trigger] tally(ps2, c, vv) <= u32::MAX by {
                        lemma_partial_tally(es, i as int, j + 1, c, vv);
                        lemma_counts_view(es, c, vv);
                        assert(pages_with(self@, c, vv).len() <= u32::MAX);
                    }
                    assert(tally(ps2, ch@, Verdict::Yes) <= u32::MAX);
                    assert(tally(ps2, ch@, Verdict::No) <= u32::MAX);
                    assert(tally(ps2, ch@, Verdict::Unsure) <= u32::MAX);
                }
                let ghost out0 = out@;
                let (pos, found) = find_key(&out, ch.as_str());
                if found {
                    let (k, t) = out.remove(pos);
                    let t2 = match v {
                        Verdict::Yes => (t.0 + 1, t.1, t.2),
                        Verdict::No => (t.0, t.1 + 1, t.2),
                        Verdict::Unsure => (t.0, t.1, t.2 + 1),
                    };
                    let ghost e = (k, t2);
                    proof {
                        assert(out@.insert(pos as int, e) == out0.update(pos as int, e));
                        lemma_assoc_update(out0, pos as int, e);
                    }
                    out.insert(pos, (k, t2));
                    proof {
                        assert forall|c: Seq<char>| #[trigger] has_key(out@, c) == has_key(out0, c) by {
                            assert(assoc_map(out@).dom().contains(c) == assoc_map(out0).dom().contains(c));
                        }
                        assert forall|kk: int| 0 <= kk < out@.len() implies (#[trigger] out@[kk]).1 == tallies(ps2, out@[kk].0@) by {
                            if kk != pos {
                                assert(out@[kk] == out0[kk]);
                                lemma_str_lt_order(out0[kk].0@, ch@, ch@);
                                if kk < pos {
                                    assert(str_lt(out0[kk].0@, out0[pos as int].0@));
                                } else {
                                    assert(str_lt(out0[pos as int].0@, out0[kk].0@));
                                }
                                lemma_str_lt_order(out0[kk].0@, out0[kk].0@, out0[kk].0@);
                            }
                        }
                    }
                } else {
                    let e = (ch.clone(), match v {
                        Verdict::Yes => (1u32, 0u32, 0u32),
                        Verdict::No => (0u32, 1u32, 0u32),
                        Verdict::Unsure => (0u32, 0u32, 1u32),
                    });
                    proof {
                        lemma_assoc_insert(out0, pos as int, e);
                        lemma_tally_absent(ps, ch@);
                    }
                    out.insert(pos, e);
                    proof {
                        assert forall|c: Seq<char>| #[trigger] has_key(out@, c) == (has_key(out0, c) || c == ch@) by {
                            assert(assoc_map(out@).dom().contains(c) == assoc_map(out0).insert(ch@, e.1).dom().contains(c));
                        }
                        assert forall|kk: int| 0 <= kk < out@.len() implies (#[trigger] out@[kk]).1 == tallies(ps2, out@[kk].0@) by {
                            if kk < pos {
                                assert(out@[kk] == out0[kk]);
                                assert(str_lt(out0[kk].0@, ch@));
                                lemma_str_lt_order(ch@, ch@, ch@);
                            } else if kk > pos {
                                assert(out@[kk] == out0[kk - 1]);
                                assert(str_lt(out@[pos as int].0@, out@[kk].0@));
                                lemma_str_lt_order(ch@, ch@, ch@);
                            }
                        }
                    }
                }
                j = j + 1;
            }
            proof {
                assert(inner@.subrange(0, inner@.len() as int) == inner@);
                assert(es.subrange(0, i + 1).drop_last() == es.subrange(0, i as int));
                assert(es.subrange(0, i + 1).last() == es[i as int]);
            }
            i = i + 1;
        }
        proof {
            assert(es.subrange(0, es.len() as int) == es);
            assert forall|ch: Seq<char>| #[trigger] has_key(out@, ch) == labels_character(self@, ch) by {
                lemma_counts_view(es, ch, Verdict::Yes);
            }
            assert forall|k: int| 0 <= k < out@.len() implies (#[trigger] out@[k]).1 == (
                pages_with(self@, out@[k].0@, Verdict::Yes).len() as u32,
                pages_with(self@, out@[k].0@, Verdict::No).len() as u32,
                pages_with(self@, out@[k].0@, Verdict::Unsure).len() as u32,
            ) by {
                lemma_counts_view(es, out@[k].0@, Verdict::Yes);
                lemma_counts_view(es, out@[k].0@, Verdict::No);
                lemma_counts_view(es, out@[k].0@, Verdict::Unsure);
            }
        }
        out
    }
}

proof fn lemma_tally_push(ps: Seq<(Seq<char>, Verdict)>, pair: (Seq<char>, Verdict))
    ensures
        forall|c: Seq<char>, v: Verdict| #[trigger] tally(ps.push(pair), c, v) == tally(ps, c, v) + if pair == (c, v) {
            1nat
        } else {
            0nat
        },
{
    assert forall|c: Seq<char>, v: Verdict| #[trigger] tally(ps.push(pair), c, v) == tally(ps, c, v) + if pair == (c, v) {
        1nat
    } else {
        0nat
    } by {
        assert(ps.push(pair).drop_last() == ps);
    }
}

proof fn lemma_tally_absent(ps: Seq<(Seq<char>, Verdict)>, c: Seq<char>)
    requires
        !mentions(ps, c),
    ensures
        forall|v: Verdict| #[trigger] tally(ps, c, v) == 0,
    decreases ps.len(),
{
    if ps.len() > 0 {
        assert(!mentions(ps.drop_last(), c)) by {
            if mentions(ps.drop_last(), c) {
                let t = choose|t: int| 0 <= t < ps.drop_last().len() && (#[trigger] ps.drop_last()[t]).0 == c;
                assert(ps[t] == ps.drop_last()[t]);
            }
        }
        lemma_tally_absent(ps.drop_last(), c);
        assert(ps[ps.len() - 1].0 != c);
        assert forall|v: Verdict| #[trigger] tally(ps, c, v) == 0 by {
            assert(ps.last() != (c, v));
            assert(tally(ps.drop_last(), c, v) == 0);
        }
    }
}

proof fn lemma_all_pairs_split(es: Seq<(String, Vec<(String, Verdict)>)>, i: int)
    requires
        0 <= i <= es.len(),
    ensures
        all_pairs(es) == all_pairs(es.subrange(0, i)) + all_pairs(es.subrange(i, es.len() as int)),
    decreases es.len(),
{
    if i == es.len() {
        assert(es.subrange(0, i) == es);
        assert(es.subrange(i, es.len() as int) =~= Seq::<(String, Vec<(String, Verdict)>)>::empty());
        assert(all_pairs(es.subrange(i, es.len() as int)) =~= Seq::<(Seq<char>, Verdict)>::empty());
        assert(all_pairs(es) + Seq::<(Seq<char>, Verdict)>::empty() =~= all_pairs(es));
    } else {
        let p = es.drop_last();
        lemma_all_pairs_split(p, i);
        assert(p.subrange(0, i) == es.subrange(0, i));
        let tail = es.subrange(i, es.len() as int);
        assert(tail.drop_last() =~= p.subrange(i, p.len() as int));
        assert(tail.last() == es.last());
        assert(all_pairs(es) =~= all_pairs(es.subrange(0, i)) + all_pairs(tail));
    }
}

/// The tallies over the pages before `i` and the first `j` verdicts of
/// page `i` are at most those over the whole store.
proof fn lemma_partial_tally(es: Seq<(String, Vec<(String, Verdict)>)>, i: int, j: int, ch: Seq<char>, v: Verdict)
    requires
        0 <= i < es.len(),
        0 <= j <= es[i].1@.len(),
    ensures
        tally(all_pairs(es.subrange(0, i)) + pairs_of(es[i].1@.subrange(0, j)), ch, v) <= tally(all_pairs(es), ch, v),
{
    let inner = es[i].1@;
    lemma_all_pairs_split(es, i + 1);
    assert(es.subrange(0, i + 1).drop_last() == es.subrange(0, i));
    assert(es.subrange(0, i + 1).last() == es[i]);
    let a = all_pairs(es.subrange(0, i));
    let b = pairs_of(inner.subrange(0, j));
    let c = pairs_of(inner.subrange(j, inner.len() as int));
    let d = all_pairs(es.subrange(i + 1, es.len() as int));
    assert(pairs_of(inner) =~= b + c);
    assert(all_pairs(es) =~= (a + b) + (c + d));
    lemma_tally_concat(a + b, c + d, ch, v);
}

proof fn lemma_assoc_last<V>(s: Seq<(String, V)>)
    requires
        keys_sorted(s),
        s.len() > 0,
    ensures
        keys_sorted(s.drop_last()),
        !assoc_map(s.drop_last()).contains_key(s.last().0@),
        assoc_map(s) == assoc_map(s.drop_last()).insert(s.last().0@, s.last().1),
{
    let p = s.drop_last();
    let n = s.len() - 1;
    let kl = s.last().0@;
    assert(keys_sorted(p)) by {
        assert forall|i: int, j: int| 0 <= i < j < p.len() implies str_lt((#[trigger] p[i]).0@, (#[trigger] p[j]).0@) by {
            assert(p[i] == s[i] && p[j] == s[j]);
        }
    }
    lemma_key_index(s, n);
    assert(!has_key(p, kl)) by {
        if has_key(p, kl) {
            let j = choose|j: int| 0 <= j < p.len() && (#[trigger] p[j]).0@ == kl;
            assert(p[j] == s[j]);
            assert(str_lt(s[j].0@, s[n].0@));
            lemma_str_lt_order(kl, kl, kl);
        }
    }
    let m1 = assoc_map(s);
    let m2 = assoc_map(p).insert(kl, s.last().1);
    assert forall|k: Seq<char>| #[trigger] m1.contains_key(k) == m2.contains_key(k) by {
        if has_key(s, k) && k != kl {
            let j = choose|j: int| 0 <= j < s.len() && (#[trigger] s[j]).0@ == k;
            assert(j != n);
            assert(p[j] == s[j]);
        }
        if has_key(p, k) {
            let j = choose|j: int| 0 <= j < p.len() && (#[trigger] p[j]).0@ == k;
            assert(s[j] == p[j]);
        }
    }
    assert forall|k: Seq<char>| m1.contains_key(k) implies #[trigger] m1[k] == m2[k] by {
        if k != kl {
            let j = choose|j: int| 0 <= j < p.len() && (#[trigger] p[j]).0@ == k;
            assert(s[j] == p[j]);
            lemma_key_index(p, j);
            lemma_key_index(s, j);
        }
    }
    assert(m1 =~= m2);
}

proof fn lemma_tally_concat(a: Seq<(Seq<char>, Verdict)>, b: Seq<(Seq<char>, Verdict)>, c: Seq<char>, v: Verdict)
    ensures
        tally(a + b, c, v) == tally(a, c, v) + tally(b, c, v),
        mentions(a + b, c) == (mentions(a, c) || mentions(b, c)),
    decreases b.len(),
{
    if b.len() > 0 {
        lemma_tally_concat(a, b.drop_last(), c, v);
        assert((a + b).drop_last() =~= a + b.drop_last());
        assert((a + b).last() == b.last());
    } else {
        assert(a + b =~= a);
    }
    let ab = a + b;
    if mentions(ab, c) {
        let t = choose|t: int| 0 <= t < ab.len() && (#[trigger] ab[t]).0 == c;
        if t < a.len() {
            assert(a[t] == ab[t]);
        } else {
            assert(b[t - a.len()] == ab[t]);
        }
    }
    if mentions(a, c) {
        let t = choose|t: int| 0 <= t < a.len() && (#[trigger] a[t]).0 == c;
        assert(ab[t] == a[t]);
    }
    if mentions(b, c) {
        let t = choose|t: int| 0 <= t < b.len() && (#[trigger] b[t]).0 == c;
        assert(ab[a.len() + t] == b[t]);
    }
}

proof fn lemma_tally_inner(inner: Seq<(String, Verdict)>, ch: Seq<char>, v: Verdict)
    requires
        keys_sorted(inner),
    ensures
        mentions(pairs_of(inner), ch) == assoc_map(inner).contains_key(ch),
        tally(pairs_of(inner), ch, v) == if assoc_map(inner).contains_key(ch) && assoc_map(inner)[ch] == v {
            1nat
        } else {
            0nat
        },
    decreases inner.len(),
{
    let ps = pairs_of(inner);
    if inner.len() == 0 {
        assert(!assoc_map(inner).contains_key(ch));
        assert(!mentions(ps, ch));
    } else {
        let p = inner.drop_last();
        let e = inner.last();
        lemma_assoc_last(inner);
        lemma_tally_inner(p, ch, v);
        assert(ps =~= pairs_of(p).push((e.0@, e.1)));
        lemma_tally_push(pairs_of(p), (e.0@, e.1));
        lemma_tally_concat(pairs_of(p), seq![(e.0@, e.1)], ch, v);
        assert(pairs_of(p) + seq![(e.0@, e.1)] =~= ps);
        assert(mentions(seq![(e.0@, e.1)], ch) == (e.0@ == ch)) by {
            if e.0@ == ch {
                assert(seq![(e.0@, e.1)][0].0 == ch);
            }
        }
        if e.0@ == ch {
            assert(!mentions(pairs_of(p), ch));
            lemma_tally_absent(pairs_of(p), ch);
        }
    }
}

proof fn lemma_counts_view(es: Seq<(String, Vec<(String, Verdict)>)>, ch: Seq<char>, v: Verdict)
    requires
        keys_sorted(es),
        forall|i: int| 0 <= i < es.len() ==> keys_sorted((#[trigger] es[i]).1@),
    ensures
        pages_with(entries_view(es), ch, v).finite(),
        tally(all_pairs(es), ch, v) == pages_with(entries_view(es), ch, v).len(),
        mentions(all_pairs(es), ch) == labels_character(entries_view(es), ch),
    decreases es.len(),
{
    let m = entries_view(es);
    if es.len() == 0 {
        assert(!has_key(es, ch));
        assert(pages_with(m, ch, v) =~= Set::<Seq<char>>::empty());
        assert(all_pairs(es) =~= Seq::<(Seq<char>, Verdict)>::empty());
        assert(!mentions(all_pairs(es), ch));
        assert(!labels_character(m, ch));
    } else {
        let p = es.drop_last();
        let e = es.last();
        let k = e.0@;
        lemma_assoc_last(es);
        assert forall|i: int| 0 <= i < p.len() implies keys_sorted((#[trigger] p[i]).1@) by {
            assert(p[i] == es[i]);
        }
        lemma_counts_view(p, ch, v);
        let mp = entries_view(p);
        assert(m =~= mp.insert(k, verdict_map(e.1)));
        assert(!mp.contains_key(k));
        lemma_tally_inner(e.1@, ch, v);
        lemma_tally_concat(all_pairs(p), pairs_of(e.1@), ch, v);
        let cond = verdict_map(e.1).contains_key(ch) && verdict_map(e.1)[ch] == v;
        let sp = pages_with(mp, ch, v);
        if cond {
            assert(pages_with(m, ch, v) =~= sp.insert(k));
            assert(!sp.contains(k));
        } else {
            assert(pages_with(m, ch, v) =~= sp);
        }
        if labels_character(m, ch) {
            let pk = choose|pk: Seq<char>| #[trigger] m.contains_key(pk) && m[pk].contains_key(ch);
            if pk != k {
                assert(mp.contains_key(pk) && mp[pk].contains_key(ch));
            }
        }
        if labels_character(mp, ch) {
            let pk = choose|pk: Seq<char>| #[trigger] mp.contains_key(pk) && mp[pk].contains_key(ch);
            assert(m.contains_key(pk) && m[pk].contains_key(ch));
        }
        if verdict_map(e.1).contains_key(ch) {
            assert(m.contains_key(k) && m[k].contains_key(ch));
        }
    }
}

/// Where the labels live: `out_dir/labels.json`.
pub fn default_labels_path(out_dir: &str) -> (r: String)
    ensures
        r@ == spec_join(out_dir@, "labels.json"@),
{
    join_path(out_dir, "labels.json")
}

// ---------------------------------------------------------------------
// Laws of the store.
// ---------------------------------------------------------------------

/// Every page of the view carries at least one verdict.
pub open spec fn no_empty_pages(m: Map<Seq<char>, Map<Seq<char>, Verdict>>) -> bool {
    forall|pk: Seq<char>| #[trigger] m.contains_key(pk) ==> m[pk] != Map::<Seq<char>, Verdict>::empty()
}

/// Reading back a verdict just recorded gives that verdict.
pub proof fn law_get_after_set(m: Map<Seq<char>, Map<Seq<char>, Verdict>>, pk: Seq<char>, ch: Seq<char>, v: Verdict)
    ensures
        spec_get(spec_set(m, pk, ch, v), pk, ch) == Some(v),
{
}

/// Recording a verdict changes no other (page, character) reading.
pub proof fn law_set_keeps_others(
    m: Map<Seq<char>, Map<Seq<char>, Verdict>>,
    pk: Seq<char>,
    ch: Seq<char>,
    v: Verdict,
    pk2: Seq<char>,
    ch2: Seq<char>,
)
    requires
        pk != pk2 || ch != ch2,
    ensures
        spec_get(spec_set(m, pk, ch, v), pk2, ch2) == spec_get(m, pk2, ch2),
{
}

/// Recording a verdict twice is the same as recording it once; the later
/// of two verdicts wins.
pub proof fn law_set_overwrites(
    m: Map<Seq<char>, Map<Seq<char>, Verdict>>,
    pk: Seq<char>,
    ch: Seq<char>,
    v1: Verdict,
    v2: Verdict,
)
    ensures
        spec_set(spec_set(m, pk, ch, v1), pk, ch, v2) == spec_set(m, pk, ch, v2),
{
    let inner = if m.contains_key(pk) {
        m[pk]
    } else {
        Map::<Seq<char>, Verdict>::empty()
    };
    assert(inner.insert(ch, v1).insert(ch, v2) =~= inner.insert(ch, v2));
    assert(spec_set(spec_set(m, pk, ch, v1), pk, ch, v2) =~= spec_set(m, pk, ch, v2));
}

/// After a verdict is cleared, nothing is recorded for that page and
/// character.
pub proof fn law_get_after_clear(m: Map<Seq<char>, Map<Seq<char>, Verdict>>, pk: Seq<char>, ch: Seq<char>)
    ensures
        spec_get(spec_clear(m, pk, ch), pk, ch) == None::<Verdict>,
{
}

/// Clearing a verdict changes no other (page, character) reading.
pub proof fn law_clear_keeps_others(
    m: Map<Seq<char>, Map<Seq<char>, Verdict>>,
    pk: Seq<char>,
    ch: Seq<char>,
    pk2: Seq<char>,
    ch2: Seq<char>,
)
    requires
        pk != pk2 || ch != ch2,
    ensures
        spec_get(spec_clear(m, pk, ch), pk2, ch2) == spec_get(m, pk2, ch2),
{
    if m.contains_key(pk) && pk == pk2 {
        let rest = m[pk].remove(ch);
        if rest == Map::<Seq<char>, Verdict>::empty() {
            if m[pk].contains_key(ch2) {
                assert(rest.contains_key(ch2));
            }
        }
    }
}

/// Recording and then clearing a verdict that was not there restores the
/// store, unless the page was present with no verdict at all (it is then
/// dropped).
pub proof fn law_clear_undoes_set(m: Map<Seq<char>, Map<Seq<char>, Verdict>>, pk: Seq<char>, ch: Seq<char>, v: Verdict)
    requires
        spec_get(m, pk, ch) == None::<Verdict>,
        m.contains_key(pk) ==> m[pk] != Map::<Seq<char>, Verdict>::empty(),
    ensures
        spec_clear(spec_set(m, pk, ch, v), pk, ch) == m,
{
    if m.contains_key(pk) {
        assert(m[pk].insert(ch, v).remove(ch) =~= m[pk]);
        assert(spec_clear(spec_set(m, pk, ch, v), pk, ch) =~= m);
    } else {
        assert(Map::<Seq<char>, Verdict>::empty().insert(ch, v).remove(ch) =~= Map::<Seq<char>, Verdict>::empty());
        assert(spec_clear(spec_set(m, pk, ch, v), pk, ch) =~= m);
    }
}

/// Recording and clearing keep every page non-empty: a page is in the
/// store exactly when it carries at least one verdict.
pub proof fn law_no_empty_pages(m: Map<Seq<char>, Map<Seq<char>, Verdict>>, pk: Seq<char>, ch: Seq<char>, v: Verdict)
    requires
        no_empty_pages(m),
    ensures
        no_empty_pages(spec_set(m, pk, ch, v)),
        no_empty_pages(spec_clear(m, pk, ch)),
{
    let m2 = spec_set(m, pk, ch, v);
    assert forall|k: Seq<char>| #[trigger] m2.contains_key(k) implies m2[k] != Map::<Seq<char>, Verdict>::empty() by {
        if k == pk {
            assert(m2[k].contains_key(ch));
        }
    }
}


/// Recording a verdict adds a page to the count exactly when the page had
/// none before.
pub proof fn law_set_page_count(m: Map<Seq<char>, Map<Seq<char>, Verdict>>, pk: Seq<char>, ch: Seq<char>, v: Verdict)
    requires
        m.dom().finite(),
    ensures
        spec_set(m, pk, ch, v).dom().len() == m.dom().len() + if m.contains_key(pk) {
            0int
        } else {
            1int
        },
{
    assert(spec_set(m, pk, ch, v).dom() =~= m.dom().insert(pk));
}

/// Clearing a verdict drops a page from the count exactly when it was the
/// page's only verdict.
pub proof fn law_clear_page_count(m: Map<Seq<char>, Map<Seq<char>, Verdict>>, pk: Seq<char>, ch: Seq<char>)
    requires
        m.dom().finite(),
    ensures
        spec_clear(m, pk, ch).dom().len() == m.dom().len() - if m.contains_key(pk) && m[pk].remove(ch)
            == Map::<Seq<char>, Verdict>::empty() {
            1int
        } else {
            0int
        },
{
    if m.contains_key(pk) {
        if m[pk].remove(ch) == Map::<Seq<char>, Verdict>::empty() {
            assert(spec_clear(m, pk, ch).dom() =~= m.dom().remove(pk));
        } else {
            assert(spec_clear(m, pk, ch).dom() =~= m.dom());
        }
    }
}


/// A page key holds the whole book name, then `'/'`, then the whole file
/// name: its length is theirs plus one, it starts with the book and ends
/// with the file name.
pub proof fn law_page_key_parts(book: Seq<char>, filename: Seq<char>)
    ensures
        spec_page_key(book, filename).len() == book.len() + 1 + filename.len(),
        spec_page_key(book, filename).take(book.len() as int) == book,
        spec_page_key(book, filename)[book.len() as int] == '/',
        spec_page_key(book, filename).skip(book.len() as int + 1) == filename,
{
    let k = spec_page_key(book, filename);
    assert(k.take(book.len() as int) =~= book);
    assert(k.skip(book.len() as int + 1) =~= filename);
}

/// Pages of different books never share a key when their file names are
/// the same, nor pages of one book with different file names.
pub proof fn law_page_key_distinct(b1: Seq<char>, f1: Seq<char>, b2: Seq<char>, f2: Seq<char>)
    requires
        (b1 != b2 && f1 == f2) || (b1 == b2 && f1 != f2),
    ensures
        spec_page_key(b1, f1) != spec_page_key(b2, f2),
{
    law_page_key_parts(b1, f1);
    law_page_key_parts(b2, f2);
    if spec_page_key(b1, f1) == spec_page_key(b2, f2) {
        assert(b1.len() == b2.len());
        assert(b1 == spec_page_key(b1, f1).take(b1.len() as int));
        assert(b2 == spec_page_key(b2, f2).take(b2.len() as int));
        assert(f1 == spec_page_key(b1, f1).skip(b1.len() as int + 1));
        assert(f2 == spec_page_key(b2, f2).skip(b2.len() as int + 1));
    }
}

} // verus!
