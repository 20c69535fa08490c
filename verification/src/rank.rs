//! Ranking: the working size of pages, and the grouping of page scores by
//! character.

use vstd::prelude::*;
use crate::order::{find_key, has_key, keys_sorted, lemma_assoc_insert, lemma_assoc_update, lemma_key_index, assoc_map};

verus! {

/// Pages are scored downscaled so that their longer side is at most this
/// many pixels.
pub const MAX_DIM: u32 = 1500;

/// The greatest of `v`, or 0 when `v` is empty.
pub fn max_or_zero(v: &[u32]) -> (r: u32)
    ensures
        forall|i: int| 0 <= i < v@.len() ==> v@[i] <= r,
        v@.len() == 0 ==> r == 0,
        v@.len() > 0 ==> exists|i: int| 0 <= i < v@.len() && v@[i] == r,
{
    let mut best: u32 = 0;
    let mut i: usize = 0;
    while i < v.len()
        invariant
            i <= v@.len(),
            forall|j: int| 0 <= j < i ==> v@[j] <= best,
            i == 0 ==> best == 0,
            i > 0 ==> exists|j: int| 0 <= j < i && v@[j] == best,
        decreases v@.len() - i,
    {
        if i == 0 || v[i] > best {
            best = v[i];
        }
        i = i + 1;
    }
    best
}

/// Groups the positions of a list of scores by their character key: one
/// group per distinct key, in key order, each listing the positions of
/// that key in increasing order.
pub fn group_by_character(characters: &Vec<String>) -> (r: Vec<(String, Vec<usize>)>)
    ensures
        keys_sorted(r@),
        forall|k: Seq<char>| #[trigger] has_key(r@, k) <==> exists|i: int| 0 <= i < characters@.len() && (#[trigger] characters@[i])@ == k,
        forall|g: int|
            0 <= g < r@.len() ==> {
                let idx = (#[trigger] r@[g]).1@;
                &&& forall|a: int, b: int| 0 <= a < b < idx.len() ==> idx[a] < idx[b]
                &&& forall|a: int| 0 <= a < idx.len() ==> idx[a] < characters@.len() && characters@[idx[a] as int]@ == r@[g].0@
                &&& forall|i: int| 0 <= i < characters@.len() && characters@[i]@ == r@[g].0@ ==> idx.contains(i as usize)
            },
{
    let mut out: Vec<(String, Vec<usize>)> = Vec::new();
    let mut i: usize = 0;
    while i < characters.len()
        invariant
            i <= characters@.len(),
            keys_sorted(out@),
            forall|k: Seq<char>| #[trigger] has_key(out@, k) <==> exists|j: int| 0 <= j < i && (#[trigger] characters@[j])@ == k,
            forall|g: int|
                0 <= g < out@.len() ==> {
                    let idx = (#[trigger] out@[g]).1@;
                    &&& forall|a: int, b: int| 0 <= a < b < idx.len() ==> idx[a] < idx[b]
                    &&& forall|a: int| 0 <= a < idx.len() ==> idx[a] < i && characters@[idx[a] as int]@ == out@[g].0@
                    &&& forall|j: int| 0 <= j < i && characters@[j]@ == out@[g].0@ ==> idx.contains(j as usize)
                },
        decreases characters@.len() - i,
    {
        let key = &characters[i];
        let ghost o = out@;
        let (pos, found) = find_key(&out, key.as_str());
        if found {
            let (k, mut idx) = out.remove(pos);
            let ghost idx0 = idx@;
            idx.push(i);
            let ghost e = (k, idx);
            proof {
                assert(out@.insert(pos as int, e) == o.update(pos as int, e));
                lemma_assoc_update(o, pos as int, e);
            }
            out.insert(pos, (k, idx));
            proof {
                let o2 = out@;
                assert forall|kk: Seq<char>| #[trigger] has_key(o2, kk) <==> exists|j: int| 0 <= j < i + 1 && (#[trigger] characters@[j])@ == kk by {
                    assert(assoc_map(o2).dom().contains(kk) == assoc_map(o).dom().contains(kk));
                    if exists|j: int| 0 <= j < i + 1 && (#[trigger] characters@[j])@ == kk {
                        let j = choose|j: int| 0 <= j < i + 1 && (#[trigger] characters@[j])@ == kk;
                        if j == i {
                            assert(has_key(o, kk));
                        } else {
                            assert(exists|j: int| 0 <= j < i && (#[trigger] characters@[j])@ == kk);
                        }
                    }
                }
                assert forall|g: int| 0 <= g < o2.len() implies {
                    let idx = (#[trigger] o2[g]).1@;
                    &&& forall|a: int, b: int| 0 <= a < b < idx.len() ==> idx[a] < idx[b]
                    &&& forall|a: int| 0 <= a < idx.len() ==> idx[a] < i + 1 && characters@[idx[a] as int]@ == o2[g].0@
                    &&& forall|j: int| 0 <= j < i + 1 && characters@[j]@ == o2[g].0@ ==> idx.contains(j as usize)
                } by {
                    if g == pos {
                        assert(o2[g].1@ == idx0.push(i));
                        assert forall|j: int| 0 <= j < i + 1 && characters@[j]@ == o2[g].0@ implies o2[g].1@.contains(j as usize) by {
                            if j == i {
                                assert(o2[g].1@[idx0.len() as int] == i);
                            } else {
                                assert(idx0.contains(j as usize));
                                let a = choose|a: int| 0 <= a < idx0.len() && idx0[a] == j as usize;
                                assert(o2[g].1@[a] == j as usize);
                            }
                        }
                    } else {
                        assert(o2[g] == o[g]);
                        if characters@[i as int]@ == o2[g].0@ {
                            lemma_key_index(o, g);
                            lemma_key_index(o, pos as int);
                        }
                    }
                }
            }
        } else {
            let mut idx: Vec<usize> = Vec::new();
            idx.push(i);
            let e = (key.clone(), idx);
            proof {
                lemma_assoc_insert(o, pos as int, e);
            }
            out.insert(pos, e);
            proof {
                let o2 = out@;
                assert forall|kk: Seq<char>| #[trigger] has_key(o2, kk) <==> exists|j: int| 0 <= j < i + 1 && (#[trigger] characters@[j])@ == kk by {
                    assert(assoc_map(o2).dom().contains(kk) == assoc_map(o).insert(key@, e.1).dom().contains(kk));
                    if exists|j: int| 0 <= j < i + 1 && (#[trigger] characters@[j])@ == kk {
                        let j = choose|j: int| 0 <= j < i + 1 && (#[trigger] characters@[j])@ == kk;
                        if j < i {
                            assert(exists|j: int| 0 <= j < i && (#[trigger] characters@[j])@ == kk);
                        }
                    }
                    if has_key(o, kk) {
                        let j = choose|j: int| 0 <= j < i && (#[trigger] characters@[j])@ == kk;
                        assert(0 <= j < i + 1 && characters@[j]@ == kk);
                    }
                    if kk == key@ {
                        assert(characters@[i as int]@ == kk);
                    }
                }
                assert forall|g: int| 0 <= g < o2.len() implies {
                    let idx = (#[trigger] o2[g]).1@;
                    &&& forall|a: int, b: int| 0 <= a < b < idx.len() ==> idx[a] < idx[b]
                    &&& forall|a: int| 0 <= a < idx.len() ==> idx[a] < i + 1 && characters@[idx[a] as int]@ == o2[g].0@
                    &&& forall|j: int| 0 <= j < i + 1 && characters@[j]@ == o2[g].0@ ==> idx.contains(j as usize)
                } by {
                    if g == pos {
                        assert forall|j: int| 0 <= j < i + 1 && characters@[j]@ == o2[g].0@ implies o2[g].1@.contains(j as usize) by {
                            if j < i {
                                assert(has_key(o, key@));
                            } else {
                                assert(o2[g].1@[0] == i);
                            }
                        }
                    } else {
                        let og = if g < pos { g } else { g - 1 };
                        assert(o2[g] == o[og]);
                        if characters@[i as int]@ == o2[g].0@ {
                            assert(has_key(o, key@));
                        }
                    }
                }
            }
        }
        i = i + 1;
    }
    out
}

} // verus!
