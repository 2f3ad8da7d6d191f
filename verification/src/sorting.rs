//! Sorting of key vectors for the bulk build.

use vstd::prelude::*;

verus! {

use vstd::seq_lib::group_to_multiset_ensures;
use vstd::multiset::group_multiset_axioms;

/// A sequence of keys is non-decreasing.
pub open spec fn sorted(s: Seq<u32>) -> bool {
    forall|i: int, j: int| 0 <= i <= j < s.len() ==> s[i] <= s[j]
}

/// Index of a minimal element of the non-empty vector `v`.
fn min_index(v: &Vec<u32>) -> (r: usize)
    requires
        v@.len() > 0,
    ensures
        r < v@.len(),
        forall|j: int| 0 <= j < v@.len() ==> v@[r as int] <= v@[j],
{
    let mut mi: usize = 0;
    let mut i: usize = 1;
    while i < v.len()
        invariant
            0 < i <= v@.len(),
            mi < i,
            forall|j: int| 0 <= j < i ==> v@[mi as int] <= v@[j],
        decreases v@.len() - i,
    {
        if v[i] < v[mi] {
            mi = i;
        }
        i = i + 1;
    }
    mi
}

/// Selection sort: returns the keys of `v` in non-decreasing order.
pub fn sort_u32(v: Vec<u32>) -> (r: Vec<u32>)
    ensures
        sorted(r@),
        r@.to_multiset() == v@.to_multiset(),
        r@.len() == v@.len(),
{
    broadcast use group_to_multiset_ensures;
    broadcast use group_multiset_axioms;

    let mut rest = v;
    let ghost all = rest@;
    let mut out: Vec<u32> = Vec::new();
    while rest.len() > 0
        invariant
            sorted(out@),
            out@.to_multiset().add(rest@.to_multiset()) =~= all.to_multiset(),
            out@.len() + rest@.len() == all.len(),
            forall|i: int, j: int|
                0 <= i < out@.len() && 0 <= j < rest@.len() ==> out@[i] <= rest@[j],
        decreases rest@.len(),
    {
        let mi = min_index(&rest);
        let m = rest[mi];
        out.push(m);
        let ghost rest_before = rest@;
        rest.remove(mi);
        proof {
            broadcast use group_to_multiset_ensures;
            broadcast use group_multiset_axioms;
            assert(rest@ == rest_before.remove(mi as int));
            assert(rest@.to_multiset() =~= rest_before.to_multiset().remove(m));
            assert(out@.to_multiset().add(rest@.to_multiset()) =~= all.to_multiset());
        }
    }
    proof {
        assert(out@.to_multiset().add(rest@.to_multiset()) =~= out@.to_multiset());
        assert(out@.to_multiset().len() == all.to_multiset().len());
    }
    out
}

} // verus!
