//! Lists of patch ids used as sets.
use vstd::prelude::*;

verus! {

broadcast use vstd::seq_lib::group_seq_properties;

pub fn contains_id(v: &Vec<u128>, x: u128) -> (r: bool)
    ensures
        r == v@.contains(x),
{
    let mut i: usize = 0;
    while i < v.len()
        invariant
            i <= v.len(),
            forall|j: int| 0 <= j < i ==> v@[j] != x,
        decreases v.len() - i,
    {
        if v[i] == x {
            return true;
        }
        i = i + 1;
    }
    false
}

/// Adds `x` unless it is there already.
pub fn insert_id(v: &mut Vec<u128>, x: u128)
    ensures
        final(v)@.to_set() == old(v)@.to_set().insert(x),
        old(v)@.no_duplicates() ==> final(v)@.no_duplicates(),
{
    if !contains_id(v, x) {
        v.push(x);
        assert(final(v)@ == old(v)@.push(x));
    }
    proof {
        assert(final(v)@.to_set() =~= old(v)@.to_set().insert(x));
    }
}

/// Takes every copy of `x` out.
pub fn remove_id(v: &mut Vec<u128>, x: u128)
    ensures
        final(v)@.to_set() == old(v)@.to_set().remove(x),
{
    let mut kept: Vec<u128> = Vec::new();
    let mut i: usize = 0;
    while i < v.len()
        invariant
            i <= v.len(),
            kept@.to_set() == v@.subrange(0, i as int).to_set().remove(x),
        decreases v.len() - i,
    {
        let y = v[i];
        let ghost prev = kept@;
        let ghost pre = v@.subrange(0, i as int);
        proof {
            assert(v@.subrange(0, i + 1) =~= pre + seq![y]);
            Seq::lemma_to_set_insert_commutes(pre, y);
        }
        if y != x {
            kept.push(y);
            proof {
                assert(kept@ =~= prev + seq![y]);
                Seq::lemma_to_set_insert_commutes(prev, y);
            }
        }
        i = i + 1;
        proof {
            assert(kept@.to_set() =~= v@.subrange(0, i as int).to_set().remove(x));
        }
    }
    proof {
        assert(v@.subrange(0, v@.len() as int) =~= v@);
    }
    *v = kept;
}

} // verus!
