//! Permutations represented as vectors of `u64`: construction of the
//! identity, inversion, and the spec-level vocabulary shared by the
//! validity predicates, the shuffle engine and the graph builders.

pub mod error;
pub mod valid;

use vstd::prelude::*;

verus! {

broadcast use vstd::set_lib::group_set_properties;

/// Every entry is a legal index back into the sequence itself.
pub open spec fn in_range(p: Seq<u64>) -> bool {
    forall|i: int| 0 <= i < p.len() ==> (#[trigger] p[i] as int) < p.len()
}

/// The sequence holds each of the values `0 .. len` exactly once.
pub open spec fn is_permutation(p: Seq<u64>) -> bool {
    in_range(p) && p.no_duplicates()
}

/// `q` undoes `p` and `p` undoes `q` on every point of the domain.
pub open spec fn are_inverses(p: Seq<u64>, q: Seq<u64>) -> bool {
    &&& p.len() == q.len()
    &&& in_range(p)
    &&& in_range(q)
    &&& forall|i: int| 0 <= i < p.len() ==> q[#[trigger] p[i] as int] == i as u64
    &&& forall|j: int| 0 <= j < q.len() ==> p[#[trigger] q[j] as int] == j as u64
}

/// The set `{0, .., n-1}` as `u64` values.
pub closed spec fn values_below(n: nat) -> Set<u64>
    decreases n,
{
    if n == 0 {
        Set::empty()
    } else {
        values_below((n - 1) as nat).insert((n - 1) as u64)
    }
}

proof fn lemma_values_below(n: nat)
    requires
        n <= u64::MAX as nat + 1,
    ensures
        values_below(n).finite(),
        values_below(n).len() == n,
        forall|x: u64| values_below(n).contains(x) <==> (x as nat) < n,
    decreases n,
{
    if n > 0 {
        lemma_values_below((n - 1) as nat);
        assert(!values_below((n - 1) as nat).contains((n - 1) as u64));
    }
}

/// A sequence without duplicates whose entries all lie below its own
/// length takes every value below that length: an injective map of a
/// finite set into itself is onto.
pub proof fn lemma_permutation_onto(p: Seq<u64>)
    requires
        is_permutation(p),
        p.len() <= u64::MAX as nat,
    ensures
        forall|j: int| 0 <= j < p.len() ==> p.contains(#[trigger] (j as u64)),
{
    p.unique_seq_to_set();
    lemma_values_below(p.len());
    assert(p.to_set().subset_of(values_below(p.len()))) by {
        assert forall|x: u64| p.to_set().contains(x) implies values_below(p.len()).contains(
            x,
        ) by {
            let i = choose|i: int| 0 <= i < p.len() && p[i] == x;
            assert((p[i] as int) < p.len());
        }
    }
    if p.to_set() =~= values_below(p.len()) {
        assert forall|j: int| 0 <= j < p.len() implies p.contains(#[trigger] (j as u64)) by {
            assert(values_below(p.len()).contains(j as u64));
        }
    } else {
        let missing = choose|x: u64|
            values_below(p.len()).contains(x) && !p.to_set().contains(x);
        lemma_proper_subset_smaller(p.to_set(), values_below(p.len()), missing);
    }
}

proof fn lemma_proper_subset_smaller(s: Set<u64>, t: Set<u64>, w: u64)
    requires
        t.finite(),
        s.subset_of(t),
        t.contains(w),
        !s.contains(w),
    ensures
        s.len() < t.len(),
{
    assert(s.subset_of(t.remove(w)));
    vstd::set_lib::lemma_len_subset(s, t.remove(w));
    assert(t.remove(w).len() == t.len() - 1);
}

/// The identity permutation `[0, 1, .., size-1]`.
pub fn new(size: usize) -> (r: Vec<u64>)
    ensures
        r@.len() == size,
        forall|i: int| 0 <= i < size ==> r@[i] == i as u64,
{
    let mut r: Vec<u64> = Vec::with_capacity(size);
    let mut i: usize = 0;
    while i < size
        invariant
            i <= size,
            r@.len() == i,
            forall|k: int| 0 <= k < i ==> r@[k] == k as u64,
        decreases size - i,
    {
        r.push(i as u64);
        i = i + 1;
    }
    r
}

/// The exact inverse of a permutation: entry `p[i]` is sent back to `i`.
pub fn inverse(permutation: &[u64]) -> (inv: Vec<u64>)
    requires
        is_permutation(permutation@),
    ensures
        are_inverses(permutation@, inv@),
        is_permutation(inv@),
{
    let n = permutation.len();
    let mut inv: Vec<u64> = Vec::with_capacity(n);
    let mut i: usize = 0;
    while i < n
        invariant
            i <= n,
            inv@.len() == i,
            forall|k: int| 0 <= k < i ==> inv@[k] == 0,
        decreases n - i,
    {
        inv.push(0);
        i = i + 1;
    }

    let mut i: usize = 0;
    while i < n
        invariant
            i <= n,
            n == permutation@.len(),
            is_permutation(permutation@),
            inv@.len() == n,
            forall|k: int| 0 <= k < i
                ==> inv@[#[trigger] permutation@[k] as int] == k as u64,
            forall|j: int| 0 <= j < n ==> (#[trigger] inv@[j] as int) < n,
            forall|j: int| 0 <= j < n ==> ((exists|k: int|
                0 <= k < i && permutation@[k] == j as u64) || inv@[j] == 0),
        decreases n - i,
    {
        let v = permutation[i] as usize;
        inv.set(v, i as u64);
        assert forall|k: int| 0 <= k < i + 1 implies inv@[(#[trigger] permutation@[k]) as int] == k as u64 by {
            if k < i {
                assert(permutation@[k] != permutation@[i as int]);
            }
        }
        i = i + 1;
    }

    proof {
        lemma_permutation_onto(permutation@);
        assert forall|j: int| 0 <= j < n implies permutation@[(#[trigger] inv@[j]) as int] == j as u64 by {
            let k = choose|k: int| 0 <= k < n && permutation@[k] == j as u64;
            assert(inv@[permutation@[k] as int] == k as u64);
        }
        assert(inv@.no_duplicates()) by {
            assert forall|a: int, b: int|
                0 <= a < n && 0 <= b < n && a != b implies inv@[a] != inv@[b] by {
                if inv@[a] == inv@[b] {
                    assert(permutation@[inv@[a] as int] == a as u64);
                    assert(permutation@[inv@[b] as int] == b as u64);
                }
            }
        }
    }
    inv
}

} // verus!
