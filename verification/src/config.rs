//! The roles of a character's color targets, and how they are picked out.

use vstd::prelude::*;

verus! {

/// What a color target is evidence of.
#[derive(Clone, Copy, Debug, PartialEq, Eq, Structural)]
pub enum Role {
    /// Hair color: the dominant signature clustered on.
    Primary,
    /// Confirming evidence (jacket, eyes, plugsuit): boosts certainty when
    /// it occurs near the primary.
    Secondary,
}

/// The position of the first primary target among `roles`, if any.
pub fn primary(roles: &[Role]) -> (r: Option<usize>)
    ensures
        match r {
            Some(i) => i < roles@.len() && roles@[i as int] == Role::Primary && forall|j: int|
                0 <= j < i ==> roles@[j] != Role::Primary,
            None => forall|j: int| 0 <= j < roles@.len() ==> roles@[j] != Role::Primary,
        },
{
    let mut i: usize = 0;
    while i < roles.len()
        invariant
            i <= roles@.len(),
            forall|j: int| 0 <= j < i ==> roles@[j] != Role::Primary,
        decreases roles@.len() - i,
    {
        if roles[i] == Role::Primary {
            return Some(i);
        }
        i = i + 1;
    }
    None
}

/// The positions of the secondary targets among `roles`, in order.
pub fn secondaries(roles: &[Role]) -> (r: Vec<usize>)
    ensures
        r@ == Seq::new(roles@.len(), |i: int| i).filter(|i: int| roles@[i] == Role::Secondary).map_values(
            |i: int| i as usize,
        ),
{
    let mut r: Vec<usize> = Vec::new();
    let mut i: usize = 0;
    while i < roles.len()
        invariant
            i <= roles@.len(),
            r@ == Seq::new(i as nat, |k: int| k).filter(|k: int| roles@[k] == Role::Secondary).map_values(
                |k: int| k as usize,
            ),
        decreases roles@.len() - i,
    {
        proof {
            let pred = |k: int| roles@[k] == Role::Secondary;
            assert(Seq::new((i + 1) as nat, |k: int| k) =~= Seq::new(i as nat, |k: int| k).push(i as int));
            Seq::new(i as nat, |k: int| k).lemma_filter_push(i as int, pred);
        }
        if roles[i] == Role::Secondary {
            let ghost r0 = r@;
            r.push(i);
            proof {
                let pred = |k: int| roles@[k] == Role::Secondary;
                let f = Seq::new(i as nat, |k: int| k).filter(pred);
                assert(r@ =~= f.push(i as int).map_values(|k: int| k as usize));
            }
        }
        i = i + 1;
    }
    r
}

} // verus!
