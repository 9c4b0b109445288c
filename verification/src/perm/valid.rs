//! Validity predicates on permutations: a permutation may enter a graph
//! only if applying it twice moves every vertex (`is_valid`), and two
//! permutations may coexist only if they never map a vertex to the same
//! neighbour or back to itself (`is_pair_valid`).

use crate::irs::{
    round_spec, rounds_until_distinct, Irs, IrsCtx, SHUFFLE_ROUND_LIMIT,
};
use crate::perm::error::PermutationError;
use crate::perm::{in_range, is_permutation as is_permutation_spec};
use vstd::prelude::*;

verus! {

/// Shuffle rounds applied until the values form a valid permutation,
/// checking before each round; `None` if `fuel` rounds do not reach one.
pub open spec fn rounds_until_valid(
    vals: Seq<u64>,
    keys: Seq<u64>,
    gcm: bool,
    key: Seq<u8>,
    iv: Seq<u8>,
    pos: nat,
    fuel: nat,
) -> Option<(Seq<u64>, Seq<u64>, nat)>
    decreases fuel,
{
    if valid_perm(vals) {
        Some((vals, keys, pos))
    } else if fuel == 0 {
        None
    } else {
        let (v2, k2) = round_spec(vals, keys, gcm, key, iv, pos);
        rounds_until_valid(v2, k2, gcm, key, iv, pos + keys.len(), (fuel - 1) as nat)
    }
}

/// Shuffle rounds applied until the values form a valid permutation,
/// with at least one round taken before the first check; `None` if
/// `fuel` rounds do not reach one.
pub open spec fn rounds_then_valid(
    vals: Seq<u64>,
    keys: Seq<u64>,
    gcm: bool,
    key: Seq<u8>,
    iv: Seq<u8>,
    pos: nat,
    fuel: nat,
) -> Option<(Seq<u64>, Seq<u64>, nat)>
    decreases fuel,
{
    if fuel == 0 {
        None
    } else {
        let (v2, k2) = round_spec(vals, keys, gcm, key, iv, pos);
        if valid_perm(v2) {
            Some((v2, k2, pos + keys.len()))
        } else {
            rounds_then_valid(v2, k2, gcm, key, iv, pos + keys.len(), (fuel - 1) as nat)
        }
    }
}

/// The whole draw of one valid permutation: a full shuffle until the
/// rank keys are distinct, then further single rounds until the result
/// is a valid permutation.
pub open spec fn permute_spec(
    vals: Seq<u64>,
    keys: Seq<u64>,
    gcm: bool,
    key: Seq<u8>,
    iv: Seq<u8>,
    pos: nat,
) -> Option<(Seq<u64>, Seq<u64>, nat)> {
    match rounds_until_distinct(vals, keys, gcm, key, iv, pos, SHUFFLE_ROUND_LIMIT as nat) {
        Option::None => Option::None,
        Option::Some((v1, k1, p1)) => rounds_until_valid(
            v1,
            k1,
            gcm,
            key,
            iv,
            p1,
            SHUFFLE_ROUND_LIMIT as nat,
        ),
    }
}

/// `p[p[i]] != i` everywhere and `p` is non-empty: the permutation has no
/// fixed points and no 2-cycles, so the edges it contributes to a graph
/// are neither loops nor immediately repeated.
pub open spec fn valid_perm(p: Seq<u64>) -> bool {
    p.len() > 0 && forall|i: int| 0 <= i < p.len()
        ==> p[#[trigger] p[i] as int] != i as u64
}

/// No vertex is sent to the same target by both permutations, and `p`
/// never maps a `q`-target straight back to its source.
pub open spec fn pair_valid(p: Seq<u64>, q: Seq<u64>) -> bool {
    &&& p.len() == q.len()
    &&& forall|i: int| 0 <= i < p.len()
        ==> p[#[trigger] q[i] as int] != i as u64 && p[i] != q[i]
}

/// The candidate is pairwise valid against every member of the set.
pub open spec fn new_valid(ps: Seq<Seq<u64>>, q: Seq<u64>) -> bool {
    forall|k: int| 0 <= k < ps.len() ==> pair_valid(#[trigger] ps[k], q)
}

/// True iff the slice holds no value twice.  Whether the values lie in
/// range is deliberately not checked: callers that need it check it
/// separately.
pub fn is_permutation(permutation: &[u64]) -> (r: bool)
    ensures
        r == permutation@.no_duplicates(),
{
    let n = permutation.len();
    let mut i: usize = 0;
    while i < n
        invariant
            i <= n,
            n == permutation@.len(),
            forall|a: int, b: int| 0 <= a < b < n && a < i
                ==> permutation@[a] != permutation@[b],
        decreases n - i,
    {
        let mut j: usize = i + 1;
        while j < n
            invariant
                i < j <= n,
                i < n,
                n == permutation@.len(),
                forall|b: int| i < b < j ==> permutation@[i as int] != permutation@[b],
            decreases n - j,
        {
            if permutation[i] == permutation[j] {
                return false;
            }
            j = j + 1;
        }
        i = i + 1;
    }
    true
}

/// Checks if the given permutation is valid.
///
/// A permutation `p` is valid if and only if it is non-empty and for all
/// indexes `i` there is `p[p[i]] != i`.  The slice is not checked to be a
/// permutation; entries are only required to be in range so that the
/// double indexing cannot fault.
pub fn is_valid(permutation: &[u64]) -> (r: bool)
    requires
        in_range(permutation@),
    ensures
        r == valid_perm(permutation@),
{
    let n = permutation.len();
    if n == 0 {
        return false;
    }

    let mut i: usize = 0;
    while i < n
        invariant
            i <= n,
            n == permutation@.len(),
            in_range(permutation@),
            forall|k: int| 0 <= k < i
                ==> permutation@[#[trigger] permutation@[k] as int] != k as u64,
        decreases n - i,
    {
        if permutation[permutation[i] as usize] == i as u64 {
            return false;
        }
        i = i + 1;
    }
    true
}

/// True iff the two equally long slices are pairwise valid: no common
/// image at any point, and composing them never returns to the start.
pub fn is_pair_valid(lhs: &[u64], rhs: &[u64]) -> (r: bool)
    requires
        lhs@.len() == rhs@.len(),
        in_range(rhs@),
    ensures
        r == pair_valid(lhs@, rhs@),
{
    let n = lhs.len();
    let mut i: usize = 0;
    while i < n
        invariant
            i <= n,
            n == lhs@.len(),
            n == rhs@.len(),
            in_range(rhs@),
            forall|k: int| 0 <= k < i
                ==> lhs@[#[trigger] rhs@[k] as int] != k as u64 && lhs@[k] != rhs@[k],
        decreases n - i,
    {
        if i as u64 == lhs[rhs[i] as usize] || lhs[i] == rhs[i] {
            return false;
        }
        i = i + 1;
    }
    true
}

/// One shuffle round sends a permutation of `0 .. n` to a permutation of
/// `0 .. n`: the partition only rearranges the values.
pub proof fn lemma_round_keeps_permutation(vals: Seq<u64>, keys: Seq<u64>)
    requires
        vals.len() == keys.len(),
        is_permutation_spec(vals),
    ensures
        is_permutation_spec(crate::irs::partitioned(vals, keys)),
        crate::irs::partitioned(vals, keys).len() == vals.len(),
{
    broadcast use vstd::seq_lib::group_to_multiset_ensures;

    crate::irs::lemma_partitioned_multiset(vals, keys);
    let p = crate::irs::partitioned(vals, keys);
    vals.lemma_multiset_has_no_duplicates();
    p.lemma_multiset_has_no_duplicates_conv();
    assert(in_range(p)) by {
        assert forall|i: int| 0 <= i < p.len() implies (#[trigger] p[i] as int) < p.len() by {
            assert(p.to_multiset().count(p[i]) > 0);
            assert(vals.contains(p[i]));
        }
    }
}

/// Any run of shuffle rounds that ends with distinct rank keys sends a
/// permutation of `0 .. n` to a permutation of `0 .. n`.
pub proof fn lemma_distinct_rounds_keep_permutation(
    vals: Seq<u64>,
    keys: Seq<u64>,
    gcm: bool,
    key: Seq<u8>,
    iv: Seq<u8>,
    pos: nat,
    fuel: nat,
)
    requires
        vals.len() == keys.len(),
        is_permutation_spec(vals),
    ensures
        rounds_until_distinct(vals, keys, gcm, key, iv, pos, fuel) matches Some(t)
            ==> is_permutation_spec(t.0) && t.0.len() == vals.len(),
    decreases fuel,
{
    if fuel > 0 {
        let u = crate::irs::shifted_slots(keys, gcm, key, iv, pos);
        lemma_round_keeps_permutation(vals, u);
        crate::irs::lemma_partitioned_multiset(u, u);
        let v2 = crate::irs::partitioned(vals, u);
        let k2 = crate::irs::partitioned(u, u);
        if !crate::irs::adjacent_distinct(k2) {
            lemma_distinct_rounds_keep_permutation(
                v2,
                k2,
                gcm,
                key,
                iv,
                pos + keys.len(),
                (fuel - 1) as nat,
            );
        }
    }
}

/// Runs the shuffle until the numbers form a valid permutation: a full
/// draw first, then single extra rounds while validity fails.  The
/// numbers must hold a permutation of `0 .. len` (they start as the
/// identity and shuffling keeps it); the result is again one, and valid.
#[verifier::loop_isolation(false)]
pub fn permute(numbers: &mut Vec<u64>, irs: &mut Irs, ctx: IrsCtx) -> (r: Result<
    IrsCtx,
    PermutationError,
>)
    requires
        !old(irs).is_gcm(),
        old(irs).streaming(),
        ctx.wf(old(numbers)@.len()),
        is_permutation_spec(old(numbers)@),
    ensures
        final(irs).is_gcm() == old(irs).is_gcm(),
        final(irs).key() == old(irs).key(),
        final(irs).iv() == old(irs).iv(),
        final(irs).streaming(),
        final(numbers)@.len() == old(numbers)@.len(),
        match r {
            Ok(ctx2) => {
                &&& ctx2.wf(old(numbers)@.len())
                &&& is_permutation_spec(final(numbers)@)
                &&& valid_perm(final(numbers)@)
                &&& permute_spec(
                    old(numbers)@,
                    ctx.slots(),
                    old(irs).is_gcm(),
                    old(irs).key(),
                    old(irs).iv(),
                    old(irs).stream_pos(),
                ) == Some((final(numbers)@, ctx2.slots(), final(irs).stream_pos()))
            },
            Err(e) => {
                &&& e == PermutationError::RetriesExhausted
                &&& permute_spec(
                    old(numbers)@,
                    ctx.slots(),
                    old(irs).is_gcm(),
                    old(irs).key(),
                    old(irs).iv(),
                    old(irs).stream_pos(),
                ) is None
            },
        },
{
    let ghost n = numbers@.len();
    let ghost gcm = irs.is_gcm();
    let ghost key = irs.key();
    let ghost iv = irs.iv();
    let ghost keys0 = ctx.slots();
    let ghost pos0 = irs.stream_pos();
    let ghost model = permute_spec(numbers@, keys0, gcm, key, iv, pos0);

    proof {
        lemma_distinct_rounds_keep_permutation(
            numbers@,
            keys0,
            gcm,
            key,
            iv,
            pos0,
            SHUFFLE_ROUND_LIMIT as nat,
        );
    }
    let mut ctx = match irs.permute(numbers, ctx) {
        Ok(c) => c,
        Err(e) => {
            return Err(e);
        },
    };

    if is_valid(numbers.as_slice()) {
        return Ok(ctx);
    }
    let mut fuel: usize = SHUFFLE_ROUND_LIMIT;
    while fuel > 0
        invariant
            irs.is_gcm() == gcm,
            irs.key() == key,
            irs.iv() == iv,
            irs.streaming(),
            ctx.wf(n),
            numbers@.len() == n,
            is_permutation_spec(numbers@),
            !valid_perm(numbers@),
            model == rounds_until_valid(
                numbers@,
                ctx.slots(),
                gcm,
                key,
                iv,
                irs.stream_pos(),
                fuel as nat,
            ),
        decreases fuel,
    {
        let ghost prev_vals = numbers@;
        let ghost prev_keys = ctx.slots();
        let ghost prev_pos = irs.stream_pos();
        ctx = irs.one_round(numbers, ctx);
        fuel = fuel - 1;
        proof {
            let u = crate::irs::shifted_slots(prev_keys, gcm, key, iv, prev_pos);
            lemma_round_keeps_permutation(prev_vals, u);
        }
        if is_valid(numbers.as_slice()) {
            return Ok(ctx);
        }
    }
    Err(PermutationError::RetriesExhausted)
}

/// Re-shuffles an already drawn permutation, one round at a time, until
/// it is valid again: used to get a fresh draw when the previous one was
/// rejected.  At least one round is always taken.
#[verifier::loop_isolation(false)]
pub fn repermute(numbers: &mut Vec<u64>, irs: &mut Irs, ctx: IrsCtx) -> (r: Result<
    IrsCtx,
    PermutationError,
>)
    requires
        !old(irs).is_gcm(),
        old(irs).streaming(),
        ctx.wf(old(numbers)@.len()),
        is_permutation_spec(old(numbers)@),
    ensures
        final(irs).is_gcm() == old(irs).is_gcm(),
        final(irs).key() == old(irs).key(),
        final(irs).iv() == old(irs).iv(),
        final(irs).streaming(),
        final(numbers)@.len() == old(numbers)@.len(),
        is_permutation_spec(final(numbers)@),
        match r {
            Ok(ctx2) => {
                &&& ctx2.wf(old(numbers)@.len())
                &&& valid_perm(final(numbers)@)
                &&& rounds_then_valid(
                    old(numbers)@,
                    ctx.slots(),
                    old(irs).is_gcm(),
                    old(irs).key(),
                    old(irs).iv(),
                    old(irs).stream_pos(),
                    SHUFFLE_ROUND_LIMIT as nat,
                ) == Some((final(numbers)@, ctx2.slots(), final(irs).stream_pos()))
            },
            Err(e) => {
                &&& e == PermutationError::RetriesExhausted
                &&& rounds_then_valid(
                    old(numbers)@,
                    ctx.slots(),
                    old(irs).is_gcm(),
                    old(irs).key(),
                    old(irs).iv(),
                    old(irs).stream_pos(),
                    SHUFFLE_ROUND_LIMIT as nat,
                ) is None
            },
        },
{
    let ghost n = numbers@.len();
    let ghost gcm = irs.is_gcm();
    let ghost key = irs.key();
    let ghost iv = irs.iv();
    let ghost model = rounds_then_valid(
        numbers@,
        ctx.slots(),
        gcm,
        key,
        iv,
        irs.stream_pos(),
        SHUFFLE_ROUND_LIMIT as nat,
    );

    let mut ctx = ctx;
    let mut fuel: usize = SHUFFLE_ROUND_LIMIT;
    while fuel > 0
        invariant
            irs.is_gcm() == gcm,
            irs.key() == key,
            irs.iv() == iv,
            irs.streaming(),
            ctx.wf(n),
            numbers@.len() == n,
            is_permutation_spec(numbers@),
            model == rounds_then_valid(
                numbers@,
                ctx.slots(),
                gcm,
                key,
                iv,
                irs.stream_pos(),
                fuel as nat,
            ),
        decreases fuel,
    {
        let ghost prev_vals = numbers@;
        let ghost prev_keys = ctx.slots();
        let ghost prev_pos = irs.stream_pos();
        ctx = irs.one_round(numbers, ctx);
        fuel = fuel - 1;
        proof {
            let u = crate::irs::shifted_slots(prev_keys, gcm, key, iv, prev_pos);
            lemma_round_keeps_permutation(prev_vals, u);
        }
        if is_valid(numbers.as_slice()) {
            return Ok(ctx);
        }
    }
    Err(PermutationError::RetriesExhausted)
}

/// Draws a fresh valid permutation of the requested size.  Sizes below 3
/// are rejected: no permutation of 1 or 2 elements can avoid fixed
/// points and 2-cycles.
pub fn new(size: usize, irs: &mut Irs) -> (r: Result<Vec<u64>, PermutationError>)
    requires
        !old(irs).is_gcm(),
        old(irs).streaming(),
    ensures
        final(irs).is_gcm() == old(irs).is_gcm(),
        final(irs).key() == old(irs).key(),
        final(irs).iv() == old(irs).iv(),
        final(irs).streaming(),
        size < 3 <==> r == Result::<Vec<u64>, PermutationError>::Err(
            PermutationError::SizeTooSmall,
        ),
        size < 3 ==> final(irs).stream_pos() == old(irs).stream_pos(),
        match r {
            Ok(v) => {
                &&& v@.len() == size
                &&& is_permutation_spec(v@)
                &&& valid_perm(v@)
                &&& permute_spec(
                    Seq::new(size as nat, |i: int| i as u64),
                    Seq::new(size as nat, |i: int| 0u64),
                    old(irs).is_gcm(),
                    old(irs).key(),
                    old(irs).iv(),
                    old(irs).stream_pos(),
                ) matches Some(t) && t.0 == v@ && t.2 == final(irs).stream_pos()
            },
            Err(PermutationError::SizeTooSmall) => size < 3,
            Err(PermutationError::RetriesExhausted) => size >= 3 && permute_spec(
                Seq::new(size as nat, |i: int| i as u64),
                Seq::new(size as nat, |i: int| 0u64),
                old(irs).is_gcm(),
                old(irs).key(),
                old(irs).iv(),
                old(irs).stream_pos(),
            ) is None,
        },
{
    if size < 3 {
        return Err(PermutationError::SizeTooSmall);
    }

    let mut numbers = crate::perm::new(size);
    proof {
        assert(numbers@ =~= Seq::new(size as nat, |i: int| i as u64));
        assert(numbers@.no_duplicates());
    }
    let ctx = IrsCtx::new(numbers.as_slice());
    proof {
        assert(ctx.slots() =~= Seq::new(size as nat, |i: int| 0u64));
    }
    match permute(&mut numbers, irs, ctx) {
        Ok(_) => Ok(numbers),
        Err(e) => Err(e),
    }
}

/// True iff the candidate is pairwise valid against every permutation
/// already accepted into the set.
pub fn is_new_valid(permutations: &[Vec<u64>], new: &[u64]) -> (r: bool)
    requires
        forall|k: int| 0 <= k < permutations@.len()
            ==> (#[trigger] permutations@[k])@.len() == new@.len(),
        in_range(new@),
    ensures
        r == new_valid(permutations@.map_values(|v: Vec<u64>| v@), new@),
{
    let mut k: usize = 0;
    let m = permutations.len();
    while k < m
        invariant
            k <= m,
            m == permutations@.len(),
            in_range(new@),
            forall|t: int| 0 <= t < permutations@.len()
                ==> (#[trigger] permutations@[t])@.len() == new@.len(),
            forall|t: int| 0 <= t < k
                ==> pair_valid((#[trigger] permutations@[t])@, new@),
        decreases m - k,
    {
        if !is_pair_valid(permutations[k].as_slice(), new) {
            assert(!pair_valid(permutations@.map_values(|v: Vec<u64>| v@)[k as int], new@));
            return false;
        }
        k = k + 1;
    }
    true
}

} // verus!
