//! Tree construction policy: candidates are kept in a tree of mutually
//! valid permutations instead of being discarded on a single late
//! failure.  A fresh candidate is attached, depth-first, below every
//! node whose whole path accepts it (up to a fan-out cap per node);
//! each node tracks the length of the longest chain rooted at it.
//! Once the root's chain is long enough, the deepest chain is
//! extracted — at each level the child with the greatest chain count —
//! and becomes the graph's forward half.

use crate::graph::{
    all_permutations, forward_half_valid, identity_seq, views_of, zero_slots, ValidGraph,
};
use crate::irs::{Irs, IrsCtx, SHUFFLE_ROUND_LIMIT};
use crate::perm::error::PermutationError;
use crate::perm::{self, is_permutation};
use crate::perm::valid::{self, new_valid, pair_valid, permute_spec, rounds_then_valid, valid_perm};
use vstd::prelude::*;

verus! {

/// At most this many children are attached below any single node.
pub const MAX_CHILDREN_CNT: usize = 10;

/// The tree as a value: one entry per node, carrying its permutation,
/// the arena indices of its children, and its chain count.
pub type ArenaV = Seq<(Seq<u64>, Seq<int>, nat)>;

/// Eligibility marks spread over the first `ci` children of node `x`:
/// each child is marked by whether it accepts the candidate.
pub open spec fn mark_children(
    av: ArenaV,
    cand: Seq<u64>,
    elig: Seq<bool>,
    x: int,
    ci: int,
) -> Seq<bool>
    decreases ci,
{
    if ci <= 0 {
        elig
    } else {
        let e2 = mark_children(av, cand, elig, x, ci - 1);
        let c = av[x].1[ci - 1];
        if 0 <= c < e2.len() {
            e2.update(c, pair_valid(av[c].0, cand))
        } else {
            e2
        }
    }
}

/// Eligibility after the first `upto` nodes have spread their marks,
/// in arena order: a node marks its children only if it is marked
/// itself, so a mark means the whole path from the root accepts the
/// candidate.
pub open spec fn eligibility_upto(av: ArenaV, cand: Seq<u64>, elig: Seq<bool>, upto: int) -> Seq<
    bool,
>
    decreases upto,
{
    if upto <= 0 {
        elig
    } else {
        let e1 = eligibility_upto(av, cand, elig, upto - 1);
        if 0 <= upto - 1 < e1.len() && e1[upto - 1] {
            mark_children(av, cand, e1, upto - 1, av[upto - 1].1.len() as int)
        } else {
            e1
        }
    }
}

/// Which nodes accept the candidate along their whole path: the root's
/// own mark seeds the spread.
pub open spec fn eligibility(av: ArenaV, cand: Seq<u64>) -> Seq<bool> {
    eligibility_upto(
        av,
        cand,
        Seq::new(av.len(), |i: int| false).update(0, pair_valid(av[0].0, cand)),
        av.len() as int,
    )
}

/// The chain count of node `x` after scanning its first `ci` children.
pub open spec fn lp_scan(av: ArenaV, x: int, ci: int) -> nat
    decreases ci,
{
    if ci <= 0 {
        av[x].2
    } else {
        let prev = lp_scan(av, x, ci - 1);
        let c = av[x].1[ci - 1];
        if 0 <= c < av.len() && prev < av[c].2 + 1 {
            (av[c].2 + 1) as nat
        } else {
            prev
        }
    }
}

/// One node's share of an insertion: if marked, refresh its chain
/// count from its children (or bump it as a leaf) and attach a copy of
/// the candidate below it while the fan-out cap allows.
pub open spec fn place_node(av: ArenaV, cand: Seq<u64>, elig: Seq<bool>, x: int) -> ArenaV {
    if !(0 <= x < av.len() && 0 <= x < elig.len() && elig[x]) {
        av
    } else {
        let lp1 = if av[x].1.len() == 0 {
            av[x].2 + 1
        } else {
            lp_scan(av, x, av[x].1.len() as int)
        };
        if av[x].1.len() < MAX_CHILDREN_CNT {
            av.update(x, (av[x].0, av[x].1.push(av.len() as int), lp1 as nat)).push(
                (cand, Seq::<int>::empty(), 1nat),
            )
        } else {
            av.update(x, (av[x].0, av[x].1, lp1 as nat))
        }
    }
}

/// The whole insertion pass: nodes handled from the arena's top down,
/// so a node sees its children's refreshed chain counts.
pub open spec fn place_desc(av: ArenaV, cand: Seq<u64>, elig: Seq<bool>, x: int) -> ArenaV
    decreases elig.len() - x,
{
    if x >= elig.len() {
        av
    } else {
        place_node(place_desc(av, cand, elig, x + 1), cand, elig, x)
    }
}

/// One attempted insertion of the candidate into the tree: the new
/// arena and whether the root accepted the candidate.
pub open spec fn push_spec(av: ArenaV, cand: Seq<u64>) -> (ArenaV, bool) {
    let elig = eligibility(av, cand);
    (place_desc(av, cand, elig, 0), elig[0])
}

/// The candidate re-drawn until some insertion lands it: `None` when
/// the arena has grown past the safety bound, a re-draw runs out of
/// rounds, or the re-draw budget is spent.
pub open spec fn insert_retry(
    av: ArenaV,
    vals: Seq<u64>,
    keys: Seq<u64>,
    gcm: bool,
    key: Seq<u8>,
    iv: Seq<u8>,
    pos: nat,
    fuel: nat,
) -> Option<(ArenaV, nat)>
    decreases fuel,
{
    if av.len() > usize::MAX as int / 4 {
        None
    } else {
        let (av2, ok) = push_spec(av, vals);
        if ok {
            Some((av2, pos))
        } else if fuel <= 1 {
            None
        } else {
            match rounds_then_valid(vals, keys, gcm, key, iv, pos, SHUFFLE_ROUND_LIMIT as nat) {
                Option::None => Option::None,
                Option::Some((v2, k2, p2)) => insert_retry(
                    av2,
                    v2,
                    k2,
                    gcm,
                    key,
                    iv,
                    p2,
                    (fuel - 1) as nat,
                ),
            }
        }
    }
}

/// The tree grown candidate by candidate until the root's chain count
/// reaches `half`, within the candidate budget.
pub open spec fn grow(
    av: ArenaV,
    n: nat,
    gcm: bool,
    key: Seq<u8>,
    iv: Seq<u8>,
    pos: nat,
    half: int,
    fuel: nat,
) -> Option<(ArenaV, nat)>
    decreases fuel,
{
    if av[0].2 >= half {
        Some((av, pos))
    } else if fuel == 0 {
        None
    } else {
        match permute_spec(identity_seq(n), zero_slots(n), gcm, key, iv, pos) {
            Option::None => Option::None,
            Option::Some((v, k2, p)) => {
                match insert_retry(av, v, k2, gcm, key, iv, p, SHUFFLE_ROUND_LIMIT as nat) {
                    Option::None => Option::None,
                    Option::Some((av2, p2)) => grow(
                        av2,
                        n,
                        gcm,
                        key,
                        iv,
                        p2,
                        half,
                        (fuel - 1) as nat,
                    ),
                }
            },
        }
    }
}

/// The first child with the greatest chain count among the first `ci`.
pub open spec fn best_child(av: ArenaV, cs: Seq<int>, ci: int) -> int
    decreases ci,
{
    if ci <= 1 {
        cs[0]
    } else {
        let b = best_child(av, cs, ci - 1);
        let c = cs[ci - 1];
        if 0 <= c < av.len() && 0 <= b < av.len() && av[c].2 > av[b].2 {
            c
        } else {
            b
        }
    }
}

/// The deepest chain walked out of the tree: at each level the child
/// with the greatest chain count, each step re-checked for mutual
/// validity with everything taken so far.
pub open spec fn extract_chain(av: ArenaV, acc: Seq<Seq<u64>>, cur: int, half: int) -> Option<
    Seq<Seq<u64>>,
>
    decreases half - acc.len(),
{
    if acc.len() >= half {
        Some(acc)
    } else if !(0 <= cur < av.len()) {
        None
    } else if av[cur].1.len() == 0 {
        None
    } else {
        let b = best_child(av, av[cur].1, av[cur].1.len() as int);
        if !(0 <= b < av.len()) {
            None
        } else if !new_valid(acc, av[b].0) {
            None
        } else {
            extract_chain(av, acc.push(av[b].0), b, half)
        }
    }
}

/// The whole tree build: the root draw, the growth of the tree, and
/// the extraction of the accepted forward half, all a function of the
/// keystream.
pub open spec fn tree_build(n: nat, d: nat, gcm: bool, key: Seq<u8>, iv: Seq<u8>, pos: nat) -> Option<
    (Seq<Seq<u64>>, nat),
> {
    match permute_spec(identity_seq(n), zero_slots(n), gcm, key, iv, pos) {
        Option::None => Option::None,
        Option::Some((root, rk, p1)) => {
            match grow(
                seq![(root, Seq::<int>::empty(), 1nat)],
                n,
                gcm,
                key,
                iv,
                p1,
                d as int / 2,
                SHUFFLE_ROUND_LIMIT as nat,
            ) {
                Option::None => Option::None,
                Option::Some((avf, p2)) => {
                    match extract_chain(avf, seq![avf[0].0], 0, d as int / 2) {
                        Option::None => Option::None,
                        Option::Some(chain) => Some((chain, p2)),
                    }
                },
            }
        },
    }
}

struct PermutationNode {
    permutation: Vec<u64>,
    children: Vec<usize>,
    longest_path: usize,
}

/// The arena as a value.
spec fn tree_view(s: Seq<PermutationNode>) -> ArenaV {
    s.map_values(
        |nd: PermutationNode|
            (
                nd.permutation@,
                nd.children@.map_values(|c: usize| c as int),
                nd.longest_path as nat,
            ),
    )
}

/// Whether one view entry reads off one node.
spec fn node_viewed(nd: PermutationNode, v: (Seq<u64>, Seq<int>, nat)) -> bool {
    &&& v.0 == nd.permutation@
    &&& v.1.len() == nd.children@.len()
    &&& v.2 == nd.longest_path as nat
    &&& forall|ci: int| 0 <= ci < nd.children@.len() ==> v.1[ci] == (
    #[trigger] nd.children@[ci]) as int
}

/// How the arena view reads node by node.
proof fn lemma_tree_view(s: Seq<PermutationNode>)
    ensures
        tree_view(s).len() == s.len(),
        forall|x: int| 0 <= x < s.len() ==> node_viewed(s[x], #[trigger] tree_view(s)[x]),
{
    assert forall|x: int| 0 <= x < s.len() implies node_viewed(
        s[x],
        #[trigger] tree_view(s)[x],
    ) by {
        assert(tree_view(s)[x].1 == s[x].children@.map_values(|c: usize| c as int));
    }
}

/// Rewriting one node's chain count rewrites just that view entry.
proof fn lemma_view_set_lp(s1: Seq<PermutationNode>, s2: Seq<PermutationNode>, x: int, lp: nat)
    requires
        s2.len() == s1.len(),
        0 <= x < s1.len(),
        s2[x].permutation == s1[x].permutation,
        s2[x].children == s1[x].children,
        s2[x].longest_path as nat == lp,
        forall|j: int| 0 <= j < s1.len() && j != x ==> s2[j] == s1[j],
    ensures
        tree_view(s2) == tree_view(s1).update(
            x,
            (tree_view(s1)[x].0, tree_view(s1)[x].1, lp),
        ),
{
    let rhs = tree_view(s1).update(x, (tree_view(s1)[x].0, tree_view(s1)[x].1, lp));
    assert forall|j: int| 0 <= j < s2.len() implies tree_view(s2)[j] == rhs[j] by {
        if j == x {
            assert(tree_view(s2)[x].1 =~= tree_view(s1)[x].1);
        }
    }
    assert(tree_view(s2) =~~= rhs);
}

/// Appending a fresh leaf and linking it below node `x` rewrites that
/// view entry and appends the leaf's view.
proof fn lemma_view_attach(
    s1: Seq<PermutationNode>,
    s2: Seq<PermutationNode>,
    x: int,
    cand: Seq<u64>,
)
    requires
        s2.len() == s1.len() + 1,
        0 <= x < s1.len(),
        s2[x].permutation == s1[x].permutation,
        s2[x].children@ == s1[x].children@.push(s1.len() as usize),
        s2[x].longest_path == s1[x].longest_path,
        s2[s1.len() as int].permutation@ == cand,
        s2[s1.len() as int].children@ =~= Seq::<usize>::empty(),
        s2[s1.len() as int].longest_path == 1,
        forall|j: int| 0 <= j < s1.len() && j != x ==> s2[j] == s1[j],
        s1.len() < usize::MAX,
    ensures
        tree_view(s2) == tree_view(s1).update(
            x,
            (tree_view(s1)[x].0, tree_view(s1)[x].1.push(s1.len() as int), tree_view(s1)[x].2),
        ).push((cand, Seq::<int>::empty(), 1nat)),
{
    let rhs = tree_view(s1).update(
        x,
        (tree_view(s1)[x].0, tree_view(s1)[x].1.push(s1.len() as int), tree_view(s1)[x].2),
    ).push((cand, Seq::<int>::empty(), 1nat));
    assert forall|j: int| 0 <= j < s2.len() implies tree_view(s2)[j] == rhs[j] by {
        if j == x {
            assert(tree_view(s2)[x].1 =~= tree_view(s1)[x].1.push(s1.len() as int));
        } else if j == s1.len() {
            assert(tree_view(s2)[j].1 =~= Seq::<int>::empty());
        }
    }
    assert(tree_view(s2) =~~= rhs);
}

/// Marking children never changes how many marks there are.
proof fn lemma_mark_children_len(av: ArenaV, cand: Seq<u64>, elig: Seq<bool>, x: int, ci: int)
    ensures
        mark_children(av, cand, elig, x, ci).len() == elig.len(),
    decreases ci,
{
    if ci > 0 {
        lemma_mark_children_len(av, cand, elig, x, ci - 1);
    }
}

/// Spreading marks never changes how many marks there are.
proof fn lemma_eligibility_upto_len(av: ArenaV, cand: Seq<u64>, elig: Seq<bool>, upto: int)
    ensures
        eligibility_upto(av, cand, elig, upto).len() == elig.len(),
    decreases upto,
{
    if upto > 0 {
        lemma_eligibility_upto_len(av, cand, elig, upto - 1);
        lemma_mark_children_len(
            av,
            cand,
            eligibility_upto(av, cand, elig, upto - 1),
            upto - 1,
            av[upto - 1].1.len() as int,
        );
    }
}

/// Every node holds a valid permutation of the right size, its chain
/// count is bounded by the nodes above it in the arena, and children
/// always sit later in the arena than their parent.
spec fn arena_inv(arena: Seq<PermutationNode>, n: nat) -> bool {
    forall|x: int| 0 <= x < arena.len() ==> node_ok(#[trigger] arena[x], n, arena.len() as int, x)
}

spec fn node_ok(node: PermutationNode, n: nat, len: int, x: int) -> bool {
    &&& node.permutation@.len() == n
    &&& is_permutation(node.permutation@)
    &&& valid_perm(node.permutation@)
    &&& 1 <= node.longest_path
    &&& node.longest_path + x <= len
    &&& forall|ci: int| 0 <= ci < node.children@.len() ==> x < #[trigger] node.children@[ci]
        < len
}

/// Draws a fresh valid permutation into `numbers`, reusing the scratch
/// context with its rank keys cleared: exactly the draw model from the
/// current stream position.
fn permute(numbers: &mut Vec<u64>, irs: &mut Irs, ctx: IrsCtx) -> (r: Result<
    IrsCtx,
    PermutationError,
>)
    requires
        !old(irs).is_gcm(),
        old(irs).streaming(),
        ctx.wf(old(numbers)@.len()),
        is_permutation(old(numbers)@),
    ensures
        final(irs).streaming(),
        final(irs).is_gcm() == old(irs).is_gcm(),
        final(irs).key() == old(irs).key(),
        final(irs).iv() == old(irs).iv(),
        final(numbers)@.len() == old(numbers)@.len(),
        match r {
            Ok(ctx2) => {
                &&& ctx2.wf(old(numbers)@.len())
                &&& is_permutation(final(numbers)@)
                &&& valid_perm(final(numbers)@)
                &&& permute_spec(
                    old(numbers)@,
                    zero_slots(old(numbers)@.len()),
                    old(irs).is_gcm(),
                    old(irs).key(),
                    old(irs).iv(),
                    old(irs).stream_pos(),
                ) == Some((final(numbers)@, ctx2.slots(), final(irs).stream_pos()))
            },
            Err(e) => e == PermutationError::RetriesExhausted && permute_spec(
                old(numbers)@,
                zero_slots(old(numbers)@.len()),
                old(irs).is_gcm(),
                old(irs).key(),
                old(irs).iv(),
                old(irs).stream_pos(),
            ) is None,
        },
{
    let mut ctx = ctx;
    ctx.clear_slots();
    proof {
        assert(ctx.slots() =~= zero_slots(old(numbers)@.len()));
    }
    valid::permute(numbers, irs, ctx)
}

/// Attaches the candidate below every node whose whole path from the
/// root accepts it, capped per node, updating chain counts bottom-up;
/// returns whether the root itself accepted the candidate.
#[verifier::loop_isolation(false)]
#[verifier::rlimit(100)]
fn push_where_valid(
    arena: &mut Vec<PermutationNode>,
    candidate: &Vec<u64>,
    Ghost(n): Ghost<nat>,
) -> (added: bool)
    requires
        arena_inv(old(arena)@, n),
        1 <= old(arena)@.len(),
        is_permutation(candidate@),
        valid_perm(candidate@),
        candidate@.len() == n,
        old(arena)@.len() + old(arena)@.len() <= usize::MAX,
    ensures
        arena_inv(final(arena)@, n),
        1 <= final(arena)@.len(),
        final(arena)@.len() <= old(arena)@.len() + old(arena)@.len(),
        tree_view(final(arena)@) == push_spec(tree_view(old(arena)@), candidate@).0,
        added == push_spec(tree_view(old(arena)@), candidate@).1,
{
    let ghost av0 = tree_view(arena@);
    let ghost cand = candidate@;
    proof {
        lemma_tree_view(arena@);
    }
    let len0 = arena.len();

    // Which nodes lie on an all-accepting path from the root.
    let mut eligible: Vec<bool> = Vec::with_capacity(len0);
    let mut i: usize = 0;
    while i < len0
        invariant
            i <= len0,
            eligible@.len() == i,
            forall|k: int| 0 <= k < i ==> !eligible@[k],
        decreases len0 - i,
    {
        eligible.push(false);
        i = i + 1;
    }

    let root_ok = valid::is_pair_valid(arena[0].permutation.as_slice(), candidate.as_slice());
    eligible.set(0, root_ok);
    let ghost init = Seq::new(av0.len(), |i: int| false).update(0, pair_valid(av0[0].0, cand));
    proof {
        assert(eligible@ =~= init);
        assert(eligible@ == eligibility_upto(av0, cand, init, 0));
    }

    let mut x: usize = 0;
    while x < len0
        invariant
            x <= len0,
            len0 == arena@.len(),
            eligible@.len() == len0,
            arena_inv(arena@, n),
            arena@ == old(arena)@,
            eligible@ == eligibility_upto(av0, cand, init, x as int),
            eligible@[0] == root_ok,
        decreases len0 - x,
    {
        proof {
            lemma_tree_view(arena@);
        }
        let ghost e1 = eligible@;
        if eligible[x] {
            let child_count = arena[x].children.len();
            let mut ci: usize = 0;
            while ci < child_count
                invariant
                    ci <= child_count,
                    x < len0,
                    len0 == arena@.len(),
                    eligible@.len() == len0,
                    arena_inv(arena@, n),
                    arena@ == old(arena)@,
                    child_count == arena@[x as int].children@.len(),
                    eligible@ == mark_children(av0, cand, e1, x as int, ci as int),
                    eligible@[0] == root_ok,
                decreases child_count - ci,
            {
                proof {
                    lemma_tree_view(arena@);
                    lemma_mark_children_len(av0, cand, e1, x as int, ci as int);
                }
                let c = arena[x].children[ci];
                let ok = valid::is_pair_valid(
                    arena[c].permutation.as_slice(),
                    candidate.as_slice(),
                );
                eligible.set(c, ok);
                proof {
                    assert(av0[x as int].1[ci as int] == c as int);
                    assert(av0[c as int].0 == arena@[c as int].permutation@);
                    assert(eligible@ =~= mark_children(av0, cand, e1, x as int, ci + 1));
                }
                ci = ci + 1;
            }
            proof {
                assert(eligible@ == eligibility_upto(av0, cand, init, x + 1));
            }
        } else {
            proof {
                assert(eligible@ == eligibility_upto(av0, cand, init, x + 1));
            }
        }
        x = x + 1;
    }
    let ghost eligv = eligible@;
    proof {
        assert(eligv == eligibility(av0, cand));
    }

    // Bottom-up: refresh chain counts and attach the candidate, so a
    // node sees its children's counts after their own insertions.
    let mut x: usize = len0;
    while x > 0
        invariant
            x <= len0,
            1 <= len0 <= arena@.len(),
            arena@.len() + x <= len0 + len0,
            eligible@.len() == len0,
            arena_inv(arena@, n),
            eligible@ == eligv,
            tree_view(arena@) == place_desc(av0, cand, eligv, x as int),
        decreases x,
    {
        let xi = x - 1;
        let ghost avx = tree_view(arena@);
        proof {
            lemma_tree_view(arena@);
            assert(node_viewed(arena@[xi as int], tree_view(arena@)[xi as int]));
        }
        if eligible[xi] {
            let child_count = arena[xi].children.len();
            if child_count == 0 {
                let lp = arena[xi].longest_path;
                let ghost pre = arena@;
                let node = &mut arena[xi];
                node.longest_path = lp + 1;
                proof {
                    lemma_view_set_lp(pre, arena@, xi as int, (lp + 1) as nat);
                    assert(tree_view(arena@) =~~= avx.update(
                        xi as int,
                        (avx[xi as int].0, avx[xi as int].1, (lp + 1) as nat),
                    ));
                }
            } else {
                let mut ci: usize = 0;
                proof {
                    assert(avx.update(
                        xi as int,
                        (avx[xi as int].0, avx[xi as int].1, lp_scan(avx, xi as int, 0)),
                    ) =~~= avx);
                }
                while ci < child_count
                    invariant
                        ci <= child_count,
                        xi < len0,
                        len0 <= arena@.len(),
                        arena@.len() + x <= len0 + len0,
                        x == xi + 1,
                        arena_inv(arena@, n),
                        child_count == avx[xi as int].1.len(),
                        child_count == arena@[xi as int].children@.len(),
                        avx.len() == arena@.len(),
                        tree_view(arena@) =~~= avx.update(
                            xi as int,
                            (avx[xi as int].0, avx[xi as int].1, lp_scan(avx, xi as int, ci as int)),
                        ),
                    decreases child_count - ci,
                {
                    proof {
                        lemma_tree_view(arena@);
                        assert(node_viewed(arena@[xi as int], tree_view(arena@)[xi as int]));
                    }
                    let c = arena[xi].children[ci];
                    let child_lp = arena[c].longest_path;
                    proof {
                        assert(tree_view(arena@)[xi as int].1 == avx[xi as int].1);
                        assert(avx[xi as int].1[ci as int] == c as int);
                        assert(c != xi);
                        assert(node_viewed(arena@[c as int], tree_view(arena@)[c as int]));
                        assert(tree_view(arena@)[c as int] == avx[c as int]);
                        assert(avx[c as int].2 == child_lp as nat);
                        assert(arena@[xi as int].longest_path as nat == lp_scan(
                            avx,
                            xi as int,
                            ci as int,
                        ));
                    }
                    if arena[xi].longest_path < child_lp + 1 {
                        let ghost pre = arena@;
                        let node = &mut arena[xi];
                        node.longest_path = child_lp + 1;
                        proof {
                            lemma_view_set_lp(pre, arena@, xi as int, (child_lp + 1) as nat);
                            assert(lp_scan(avx, xi as int, ci + 1) == (child_lp + 1) as nat);
                            assert(tree_view(arena@) =~~= avx.update(
                                xi as int,
                                (
                                    avx[xi as int].0,
                                    avx[xi as int].1,
                                    lp_scan(avx, xi as int, ci + 1),
                                ),
                            ));
                        }
                    } else {
                        proof {
                            assert(lp_scan(avx, xi as int, ci + 1) == lp_scan(
                                avx,
                                xi as int,
                                ci as int,
                            ));
                        }
                    }
                    ci = ci + 1;
                }
            }
            proof {
                lemma_tree_view(arena@);
                assert(node_viewed(arena@[xi as int], tree_view(arena@)[xi as int]));
            }
            if arena[xi].children.len() < MAX_CHILDREN_CNT {
                let clone_idx = arena.len();
                let fresh = PermutationNode {
                    permutation: crate::graph::copy_perm(candidate),
                    children: Vec::new(),
                    longest_path: 1,
                };
                let ghost avl = tree_view(arena@);
                let ghost pre = arena@;
                arena.push(fresh);
                let node = &mut arena[xi];
                node.children.push(clone_idx);
                proof {
                    lemma_view_attach(pre, arena@, xi as int, cand);
                    assert(tree_view(arena@) =~~= avl.update(
                        xi as int,
                        (avl[xi as int].0, avl[xi as int].1.push(clone_idx as int), avl[
                            xi as int].2),
                    ).push((cand, Seq::<int>::empty(), 1nat)));
                }
            }
            proof {
                assert(tree_view(arena@) =~~= place_node(avx, cand, eligv, xi as int));
            }
        } else {
            proof {
                assert(tree_view(arena@) =~~= place_node(avx, cand, eligv, xi as int));
            }
        }
        proof {
            assert(tree_view(arena@) =~~= place_desc(av0, cand, eligv, xi as int));
        }
        x = xi;
    }

    proof {
        assert(tree_view(arena@) == push_spec(av0, cand).0);
        assert(root_ok == push_spec(av0, cand).1);
    }
    root_ok
}

/// Builds a valid graph with the tree policy: grow the tree candidate
/// by candidate until a chain of `d/2` mutually valid permutations
/// exists, extract it, and append the exact inverses.
#[verifier::loop_isolation(false)]
#[verifier::rlimit(100)]
pub fn new_graph(n: usize, d: usize, irs: &mut Irs) -> (r: Result<ValidGraph, PermutationError>)
    requires
        !old(irs).is_gcm(),
        old(irs).streaming(),
        d % 2 == 0,
        2 <= d,
    ensures
        final(irs).streaming(),
        final(irs).is_gcm() == old(irs).is_gcm(),
        final(irs).key() == old(irs).key(),
        final(irs).iv() == old(irs).iv(),
        n < 3 <==> r == Result::<ValidGraph, PermutationError>::Err(
            PermutationError::SizeTooSmall,
        ),
        n < 3 ==> final(irs).stream_pos() == old(irs).stream_pos(),
        r == Result::<ValidGraph, PermutationError>::Err(PermutationError::RetriesExhausted)
            <==> n >= 3 && tree_build(
            n as nat,
            d as nat,
            old(irs).is_gcm(),
            old(irs).key(),
            old(irs).iv(),
            old(irs).stream_pos(),
        ) is None,
        match r {
            Ok(g) => {
                &&& g.well_formed()
                &&& g.n_spec() == n
                &&& g.d_spec() == d
                &&& tree_build(
                    n as nat,
                    d as nat,
                    old(irs).is_gcm(),
                    old(irs).key(),
                    old(irs).iv(),
                    old(irs).stream_pos(),
                ) matches Some(t) && g.perms().take(d as int / 2) == t.0
                    && final(irs).stream_pos() == t.1
            },
            Err(e) => e == PermutationError::SizeTooSmall || e
                == PermutationError::RetriesExhausted,
        },
{
    if n < 3 {
        return Err(PermutationError::SizeTooSmall);
    }
    let half = d / 2;
    let ghost gcm = irs.is_gcm();
    let ghost key = irs.key();
    let ghost iv = irs.iv();
    let ghost pos0 = irs.stream_pos();
    let ghost model = tree_build(n as nat, d as nat, gcm, key, iv, pos0);

    let mut numbers = perm::new(n);
    let ctx = IrsCtx::new(numbers.as_slice());
    proof {
        assert(numbers@ =~= identity_seq(n as nat));
        assert(ctx.slots() =~= zero_slots(n as nat));
    }
    let mut ctx = match valid::permute(&mut numbers, irs, ctx) {
        Ok(c) => c,
        Err(e) => {
            proof {
                assert(model is None);
            }
            return Err(e);
        },
    };

    let ghost root = numbers@;
    let mut arena: Vec<PermutationNode> = Vec::new();
    arena.push(PermutationNode { permutation: numbers, children: Vec::new(), longest_path: 1 });
    let ghost av_start: ArenaV = seq![(root, Seq::<int>::empty(), 1nat)];
    let ghost gmodel = grow(
        av_start,
        n as nat,
        gcm,
        key,
        iv,
        irs.stream_pos(),
        half as int,
        SHUFFLE_ROUND_LIMIT as nat,
    );
    proof {
        lemma_tree_view(arena@);
        assert(tree_view(arena@)[0].1 =~= Seq::<int>::empty());
        assert(tree_view(arena@) =~~= av_start);
        assert(model == (match gmodel {
            Option::None => Option::<(Seq<Seq<u64>>, nat)>::None,
            Option::Some((avf, p2)) => match extract_chain(
                avf,
                seq![avf[0].0],
                0,
                d as int / 2,
            ) {
                Option::None => Option::None,
                Option::Some(chain) => Some((chain, p2)),
            },
        }));
    }

    let mut fuel: usize = SHUFFLE_ROUND_LIMIT;
    while arena[0].longest_path < half && fuel > 0
        invariant
            irs.streaming(),
            irs.is_gcm() == old(irs).is_gcm(),
            irs.key() == old(irs).key(),
            irs.iv() == old(irs).iv(),
            ctx.wf(n as nat),
            1 <= arena@.len(),
            arena_inv(arena@, n as nat),
            gmodel == grow(
                tree_view(arena@),
                n as nat,
                gcm,
                key,
                iv,
                irs.stream_pos(),
                half as int,
                fuel as nat,
            ),
        decreases fuel,
    {
        proof {
            lemma_tree_view(arena@);
            assert(node_viewed(arena@[0], tree_view(arena@)[0]));
            assert(tree_view(arena@)[0].2 < half);
        }
        let ghost av_draw = tree_view(arena@);
        let ghost pos_draw = irs.stream_pos();
        let mut cand = perm::new(n);
        proof {
            assert(cand@ =~= identity_seq(n as nat));
        }
        ctx = match permute(&mut cand, irs, ctx) {
            Ok(c) => c,
            Err(e) => {
                proof {
                    assert(gmodel is None);
                    assert(model is None);
                }
                return Err(e);
            },
        };
        let ghost imodel = insert_retry(
            av_draw,
            cand@,
            ctx.slots(),
            gcm,
            key,
            iv,
            irs.stream_pos(),
            SHUFFLE_ROUND_LIMIT as nat,
        );
        proof {
            assert(gmodel == (match imodel {
                Option::None => Option::<(ArenaV, nat)>::None,
                Option::Some((av2, p2)) => grow(
                    av2,
                    n as nat,
                    gcm,
                    key,
                    iv,
                    p2,
                    half as int,
                    (fuel - 1) as nat,
                ),
            }));
        }

        let mut inner: usize = SHUFFLE_ROUND_LIMIT;
        let mut placed = false;
        while !placed && inner > 0
            invariant
                irs.streaming(),
                irs.is_gcm() == old(irs).is_gcm(),
                irs.key() == old(irs).key(),
                irs.iv() == old(irs).iv(),
                ctx.wf(n as nat),
                1 <= arena@.len(),
                arena_inv(arena@, n as nat),
                cand@.len() == n,
                is_permutation(cand@),
                valid_perm(cand@),
                placed ==> imodel == Some((tree_view(arena@), irs.stream_pos())),
                !placed && inner > 0 ==> imodel == insert_retry(
                    tree_view(arena@),
                    cand@,
                    ctx.slots(),
                    gcm,
                    key,
                    iv,
                    irs.stream_pos(),
                    inner as nat,
                ),
                !placed && inner == 0 ==> imodel is None,
            decreases inner,
        {
            if arena.len() > usize::MAX / 4 {
                proof {
                    assert(imodel is None);
                    assert(gmodel is None);
                    assert(model is None);
                }
                return Err(PermutationError::RetriesExhausted);
            }
            placed = push_where_valid(&mut arena, &cand, Ghost(n as nat));
            if !placed {
                if inner == 1 {
                    proof {
                        assert(imodel is None);
                    }
                }
                ctx = match valid::repermute(&mut cand, irs, ctx) {
                    Ok(c) => c,
                    Err(e) => {
                        proof {
                            assert(imodel is None);
                            assert(gmodel is None);
                            assert(model is None);
                        }
                        return Err(e);
                    },
                };
            }
            inner = inner - 1;
        }
        if !placed {
            proof {
                assert(imodel is None);
                assert(gmodel is None);
                assert(model is None);
            }
            return Err(PermutationError::RetriesExhausted);
        }
        fuel = fuel - 1;
        proof {
            assert(gmodel == grow(
                tree_view(arena@),
                n as nat,
                gcm,
                key,
                iv,
                irs.stream_pos(),
                half as int,
                fuel as nat,
            ));
        }
    }
    proof {
        lemma_tree_view(arena@);
        assert(node_viewed(arena@[0], tree_view(arena@)[0]));
    }
    if arena[0].longest_path < half {
        proof {
            assert(gmodel is None);
            assert(model is None);
        }
        return Err(PermutationError::RetriesExhausted);
    }
    let ghost avf = tree_view(arena@);
    let ghost posf = irs.stream_pos();
    proof {
        assert(gmodel == Some((avf, posf)));
    }

    // Extract the deepest chain: at each level the child with the
    // greatest chain count.
    let mut permutations: Vec<Vec<u64>> = Vec::with_capacity(d);
    permutations.push(crate::graph::copy_perm(&arena[0].permutation));
    let mut cur: usize = 0;
    proof {
        crate::graph::lemma_views_of(permutations@);
        assert(views_of(permutations@) =~= seq![avf[0].0]);
    }
    while permutations.len() < half
        invariant
            1 <= permutations@.len() <= half,
            cur < arena@.len(),
            arena_inv(arena@, n as nat),
            avf == tree_view(arena@),
            all_permutations(views_of(permutations@), n as nat),
            forward_half_valid(views_of(permutations@), permutations@.len() as int),
            extract_chain(avf, views_of(permutations@), cur as int, half as int) == extract_chain(
                avf,
                seq![avf[0].0],
                0,
                half as int,
            ),
        decreases half - permutations@.len(),
    {
        proof {
            lemma_tree_view(arena@);
            assert(node_viewed(arena@[cur as int], avf[cur as int]));
        }
        let child_count = arena[cur].children.len();
        if child_count == 0 {
            proof {
                assert(extract_chain(avf, seq![avf[0].0], 0, half as int) is None);
                assert(model is None);
            }
            return Err(PermutationError::RetriesExhausted);
        }
        let mut best = arena[cur].children[0];
        let mut ci: usize = 1;
        proof {
            assert(best as int == best_child(avf, avf[cur as int].1, 1));
        }
        while ci < child_count
            invariant
                1 <= ci <= child_count,
                cur < arena@.len(),
                arena_inv(arena@, n as nat),
                avf == tree_view(arena@),
                child_count == arena@[cur as int].children@.len(),
                child_count == avf[cur as int].1.len(),
                best < arena@.len(),
                best as int == best_child(avf, avf[cur as int].1, ci as int),
            decreases child_count - ci,
        {
            proof {
                lemma_tree_view(arena@);
                assert(node_viewed(arena@[cur as int], avf[cur as int]));
            }
            let c = arena[cur].children[ci];
            proof {
                assert(avf[cur as int].1[ci as int] == c as int);
                assert(node_viewed(arena@[c as int], avf[c as int]));
                assert(node_viewed(arena@[best as int], avf[best as int]));
            }
            if arena[c].longest_path > arena[best].longest_path {
                best = c;
            }
            ci = ci + 1;
        }

        proof {
            crate::graph::lemma_views_of(permutations@);
            assert(node_viewed(arena@[best as int], avf[best as int]));
        }
        if !valid::is_new_valid(permutations.as_slice(), arena[best].permutation.as_slice()) {
            proof {
                assert(extract_chain(avf, seq![avf[0].0], 0, half as int) is None);
                assert(model is None);
            }
            return Err(PermutationError::RetriesExhausted);
        }
        let accepted = crate::graph::copy_perm(&arena[best].permutation);
        let ghost before = permutations@;
        let ghost accepted_view = accepted@;
        permutations.push(accepted);
        proof {
            crate::graph::lemma_views_of(before);
            crate::graph::lemma_views_of(permutations@);
            assert(views_of(permutations@) =~= views_of(before).push(accepted_view));
        }
        cur = best;
    }
    let ghost chain = views_of(permutations@);
    proof {
        assert(extract_chain(avf, chain, cur as int, half as int) == Some(chain));
        assert(model == Some((chain, posf)));
    }

    let mut i: usize = 0;
    while i < half
        invariant
            i <= half,
            permutations@.len() == half + i,
            views_of(permutations@).take(half as int) == chain,
            all_permutations(views_of(permutations@), n as nat),
            forward_half_valid(views_of(permutations@), half as int),
            forall|j: int| 0 <= j < i ==> crate::perm::are_inverses(
                #[trigger] views_of(permutations@)[j],
                views_of(permutations@)[half + j],
            ),
        decreases half - i,
    {
        proof {
            crate::graph::lemma_views_of(permutations@);
        }
        let inv = perm::inverse(permutations[i].as_slice());
        let ghost before = permutations@;
        let ghost inv_view = inv@;
        permutations.push(inv);
        proof {
            crate::graph::lemma_views_of(before);
            crate::graph::lemma_views_of(permutations@);
            assert(views_of(permutations@) =~= views_of(before).push(inv_view));
            assert(views_of(permutations@).take(half as int) =~= views_of(before).take(
                half as int,
            ));
        }
        i = i + 1;
    }

    proof {
        crate::graph::lemma_views_of(permutations@);
        assert(views_of(permutations@).take(half as int) =~= chain);
    }
    Ok(ValidGraph::from_permutations(n, d, permutations))
}

} // verus!
