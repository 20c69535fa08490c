//! Counting the matches in a per-pixel mask.

use vstd::prelude::*;

verus! {

/// The sum of the bytes of `s`.
pub open spec fn byte_sum(s: Seq<u8>) -> int
    decreases s.len(),
{
    if s.len() == 0 {
        0
    } else {
        byte_sum(s.drop_last()) + s.last() as int
    }
}

/// The number of matching pixels in a 0/1 mask: the sum of its bytes.
pub fn mask_count(mask: &[u8]) -> (r: u32)
    requires
        byte_sum(mask@) <= u32::MAX,
    ensures
        r as int == byte_sum(mask@),
{
    let mut total: u32 = 0;
    let mut i: usize = 0;
    while i < mask.len()
        invariant
            i <= mask@.len(),
            byte_sum(mask@) <= u32::MAX,
            total as int == byte_sum(mask@.subrange(0, i as int)),
        decreases mask@.len() - i,
    {
        proof {
            assert(mask@.subrange(0, i + 1).drop_last() == mask@.subrange(0, i as int));
            lemma_byte_sum_prefix(mask@, i as int + 1);
        }
        total = total + mask[i] as u32;
        i = i + 1;
    }
    proof {
        assert(mask@.subrange(0, mask@.len() as int) == mask@);
    }
    total
}

/// Adds the matches of `m` to the mask `acc`: each byte of `acc` becomes
/// its bitwise or with the byte of `m` at the same position, up to the
/// shorter of the two; the rest of `acc` is kept.
pub fn mask_union(acc: &mut Vec<u8>, m: &[u8])
    ensures
        final(acc)@.len() == old(acc)@.len(),
        forall|i: int|
            0 <= i < old(acc)@.len() ==> #[trigger] final(acc)@[i] == if i < m@.len() {
                old(acc)@[i] | m@[i]
            } else {
                old(acc)@[i]
            },
{
    let ghost a0 = acc@;
    let mut i: usize = 0;
    while i < acc.len() && i < m.len()
        invariant
            acc@.len() == a0.len(),
            i <= a0.len(),
            i <= m@.len(),
            forall|j: int| 0 <= j < i ==> #[trigger] acc@[j] == a0[j] | m@[j],
            forall|j: int| i <= j < a0.len() ==> #[trigger] acc@[j] == a0[j],
        decreases a0.len() - i,
    {
        let v = acc[i] | m[i];
        acc.set(i, v);
        i = i + 1;
    }
}

proof fn lemma_byte_sum_prefix(s: Seq<u8>, i: int)
    requires
        0 <= i <= s.len(),
    ensures
        byte_sum(s.subrange(0, i)) <= byte_sum(s),
    decreases s.len() - i,
{
    if i < s.len() {
        lemma_byte_sum_prefix(s, i + 1);
        assert(s.subrange(0, i + 1).drop_last() == s.subrange(0, i));
    } else {
        assert(s.subrange(0, i) == s);
    }
}

} // verus!
