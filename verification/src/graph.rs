//! Regular graphs described by sets of permutations.  A graph on `n`
//! vertices of degree `d` holds `d` permutations: the first `d/2` are
//! independently drawn, mutually valid forward generators, the last
//! `d/2` their exact inverses in matching order.  Every permutation maps
//! each vertex to one neighbour, so the edge set is simple and
//! `d`-regular.

use crate::irs::{Irs, IrsCtx};
use crate::perm::error::PermutationError;
use crate::perm::{self, are_inverses, in_range, is_permutation};
use crate::irs::SHUFFLE_ROUND_LIMIT;
use crate::perm::valid::{self, new_valid, pair_valid, permute_spec, rounds_then_valid, valid_perm};
use vstd::prelude::*;

pub mod convertible;
pub mod srw;
pub mod tree_policy;
pub mod walker;

pub use self::walker::Walker;

verus! {

/// The element-wise views of a vector of permutations.
pub open spec fn views_of(s: Seq<Vec<u64>>) -> Seq<Seq<u64>> {
    s.map_values(|v: Vec<u64>| v@)
}

/// Element views distribute over indexing and push.
pub proof fn lemma_views_of(s: Seq<Vec<u64>>)
    ensures
        views_of(s).len() == s.len(),
        forall|k: int| 0 <= k < s.len() ==> views_of(s)[k] == (#[trigger] s[k])@,
{
}

/// Every permutation has length `n` with entries below `n`, and no
/// duplicates: each one is a bijection on `[0, n)`.
pub open spec fn all_permutations(ps: Seq<Seq<u64>>, n: nat) -> bool {
    forall|k: int| 0 <= k < ps.len() ==> (#[trigger] ps[k]).len() == n && is_permutation(ps[k])
}

/// The first `half` permutations are individually valid and mutually
/// pairwise valid: what the graph builders establish for the forward
/// generators.
pub open spec fn forward_half_valid(ps: Seq<Seq<u64>>, half: int) -> bool {
    &&& forall|i: int| 0 <= i < half ==> valid_perm(#[trigger] ps[i])
    &&& forall|j: int, i: int| 0 <= j < i < half ==> pair_valid(#[trigger] ps[j], #[trigger] ps[i])
}

/// What the whole-graph validator checks: each permutation of the first
/// half is valid on its own and pairwise valid against all before it.
pub open spec fn half_valid(ps: Seq<Seq<u64>>) -> bool {
    forall|i: int| 0 <= i < ps.len() / 2 ==> valid_perm(#[trigger] ps[i]) && new_valid(
        ps.take(i),
        ps[i],
    )
}

/// The identity values a fresh draw starts from.
pub open spec fn identity_seq(n: nat) -> Seq<u64> {
    Seq::new(n, |i: int| i as u64)
}

/// The zeroed rank keys a fresh draw starts from.
pub open spec fn zero_slots(n: nat) -> Seq<u64> {
    Seq::new(n, |i: int| 0u64)
}

/// One accepted forward generator: the candidate is re-shuffled, a
/// whole validity re-draw at a time, until it is pairwise valid
/// against everything accepted before it; `None` if the re-draw budget
/// runs out first or a re-draw itself exhausts its rounds.
pub open spec fn redraws_until_new_valid(
    acc: Seq<Seq<u64>>,
    vals: Seq<u64>,
    keys: Seq<u64>,
    gcm: bool,
    key: Seq<u8>,
    iv: Seq<u8>,
    pos: nat,
    fuel: nat,
) -> Option<(Seq<u64>, Seq<u64>, nat)>
    decreases fuel,
{
    if new_valid(acc, vals) {
        Some((vals, keys, pos))
    } else if fuel == 0 {
        None
    } else {
        match rounds_then_valid(vals, keys, gcm, key, iv, pos, SHUFFLE_ROUND_LIMIT as nat) {
            Option::None => Option::None,
            Option::Some((v2, k2, p2)) => redraws_until_new_valid(
                acc,
                v2,
                k2,
                gcm,
                key,
                iv,
                p2,
                (fuel - 1) as nat,
            ),
        }
    }
}

/// The greedy builder's forward half: `count` more fresh draws from
/// the identity, each re-drawn until mutually valid with the ones
/// accepted so far, appended in order; the result carries the stream
/// position after the last accepted draw.
pub open spec fn naive_forward(
    acc: Seq<Seq<u64>>,
    count: int,
    n: nat,
    gcm: bool,
    key: Seq<u8>,
    iv: Seq<u8>,
    pos: nat,
) -> Option<(Seq<Seq<u64>>, nat)>
    decreases count,
{
    if count <= 0 {
        Some((acc, pos))
    } else {
        match permute_spec(identity_seq(n), zero_slots(n), gcm, key, iv, pos) {
            Option::None => Option::None,
            Option::Some((v, k, p)) => {
                match redraws_until_new_valid(
                    acc,
                    v,
                    k,
                    gcm,
                    key,
                    iv,
                    p,
                    SHUFFLE_ROUND_LIMIT as nat,
                ) {
                    Option::None => Option::None,
                    Option::Some((v2, k2, p2)) => naive_forward(
                        acc.push(v2),
                        count - 1,
                        n,
                        gcm,
                        key,
                        iv,
                        p2,
                    ),
                }
            },
        }
    }
}

/// The independent builder's draws: `count` more fresh draws from the
/// identity, kept without any mutual-validity filter.
pub open spec fn independent_draws(
    acc: Seq<Seq<u64>>,
    count: int,
    n: nat,
    gcm: bool,
    key: Seq<u8>,
    iv: Seq<u8>,
    pos: nat,
) -> Option<(Seq<Seq<u64>>, nat)>
    decreases count,
{
    if count <= 0 {
        Some((acc, pos))
    } else {
        match permute_spec(identity_seq(n), zero_slots(n), gcm, key, iv, pos) {
            Option::None => Option::None,
            Option::Some((v, k, p)) => independent_draws(acc.push(v), count - 1, n, gcm, key, iv, p),
        }
    }
}

/// Trait defining a graph that can be traversed by walkers and used for
/// encryption.
pub trait Graph: Sized {
    /// The number of vertices.
    spec fn spec_size(&self) -> nat;

    /// The degree.
    spec fn spec_degree(&self) -> nat;

    /// The permutations describing the edges.
    spec fn spec_permutations(&self) -> Seq<Seq<u64>>;

    /// Obtain the number of vertices in the graph.
    fn size(&self) -> (r: usize)
        ensures
            r == self.spec_size(),
    ;

    /// Obtain the degree of the graph.
    fn degree(&self) -> (r: usize)
        ensures
            r == self.spec_degree(),
    ;

    /// Obtain a reference to the permutations used internally in the
    /// graph.
    fn permutations(&self) -> (r: &Vec<Vec<u64>>)
        ensures
            views_of(r@) == self.spec_permutations(),
    ;

    /// The forward half of the permutations, copied out.
    fn forward_permutations(&self) -> (r: Vec<Vec<u64>>)
        ensures
            views_of(r@) == self.spec_permutations().take(
                self.spec_permutations().len() as int / 2,
            ),
    ;

    /// The backward half of the permutations, copied out.
    fn backward_permutations(&self) -> (r: Vec<Vec<u64>>)
        ensures
            views_of(r@) == self.spec_permutations().skip(
                self.spec_permutations().len() as int / 2,
            ),
    ;
}

/// A graph whose walk length for a wanted security level can be
/// estimated from its directed walks.  The estimator itself works with
/// arbitrary-precision transition matrices and lives outside this crate.
pub trait SecureDirected {
    fn directed_walk_length(&self, sec_param: usize) -> usize;
}

/// As `SecureDirected`, for walks that may also use the inverse
/// permutations.
pub trait SecureUndirected {
    fn undirected_walk_length(&self, sec_param: usize) -> usize;
}

/// How a valid graph is constructed.
#[derive(Debug, Clone, Copy, PartialEq, Eq, Structural)]
pub enum ConstructionMethod {
    Naive,
    Tree,
}

/// A graph generated so that a secure random-walk length over it can be
/// estimated in constant time, after Lubetzky and Sly's cutoff result
/// for random walks on random regular graphs.
#[derive(Debug, PartialEq, Eq)]
pub struct ValidGraph {
    n: usize,
    d: usize,
    permutations: Vec<Vec<u64>>,
}

impl ValidGraph {
    /// The vertex count as stored.
    pub closed spec fn n_spec(self) -> nat {
        self.n as nat
    }

    /// The degree as stored.
    pub closed spec fn d_spec(self) -> nat {
        self.d as nat
    }

    /// The permutations as stored.
    pub closed spec fn perms(self) -> Seq<Seq<u64>> {
        views_of(self.permutations@)
    }

    /// Everything the builders guarantee: the degree is even and counts
    /// the permutations, every permutation is a bijection on the vertex
    /// set, the forward half is mutually valid, and the backward half
    /// holds the exact inverses of the forward half in matching order.
    pub open spec fn well_formed(self) -> bool {
        let ps = self.perms();
        let half = self.d_spec() as int / 2;
        &&& ps.len() == self.d_spec()
        &&& self.d_spec() % 2 == 0
        &&& 2 <= self.d_spec()
        &&& 3 <= self.n_spec()
        &&& all_permutations(ps, self.n_spec())
        &&& forward_half_valid(ps, half)
        &&& forall|i: int| 0 <= i < half ==> are_inverses(#[trigger] ps[i], ps[half + i])
    }

    /// A well-formed graph is exactly what the walkers need: around
    /// the shared permutation set, the entry half the degree away from
    /// any permutation is its exact inverse, in both halves.
    pub proof fn lemma_walkable(self)
        requires
            self.well_formed(),
            self.n_spec() <= 0x1_0000_0000,
        ensures
            srw::UndirectedSrw::walkable(self.perms(), self.spec_size()),
            self.d_spec() >= 4 ==> srw::DirectedSrw::walkable(
                self.perms().take(self.d_spec() as int / 2),
                self.perms().skip(self.d_spec() as int / 2),
                self.spec_size(),
            ),
    {
        let ps = self.perms();
        let d = ps.len() as int;
        let half = d / 2;
        assert forall|k: int| 0 <= k < d implies are_inverses(
            #[trigger] ps[k],
            ps[(k + d / 2) % d],
        ) by {
            if k < half {
                assert((k + half) % d == k + half) by {
                    vstd::arithmetic::div_mod::lemma_small_mod((k + half) as nat, d as nat);
                }
                assert(are_inverses(ps[k], ps[half + k]));
            } else {
                assert((k + half) % d == k - half) by {
                    vstd::arithmetic::div_mod::lemma_mod_sub_multiples_vanish(k + half, d);
                    vstd::arithmetic::div_mod::lemma_small_mod((k - half) as nat, d as nat);
                }
                assert(are_inverses(ps[k - half], ps[k]));
            }
        }
        if self.d_spec() >= 4 {
            let fps = ps.take(half);
            let bps = ps.skip(half);
            assert forall|k: int| 0 <= k < fps.len() implies are_inverses(
                #[trigger] fps[k],
                bps[k],
            ) by {
                assert(fps[k] == ps[k]);
                assert(bps[k] == ps[half + k]);
            }
        }
    }

    /// Builds a graph of `n` vertices and even degree `d` with the
    /// chosen construction policy.  Both policies draw forward
    /// generators from the shuffle until they are mutually valid and
    /// append the inverses; they differ only in how much already
    /// accepted work a rejected candidate discards.
    pub fn new(method: ConstructionMethod, n: usize, d: usize, irs: &mut Irs) -> (r: Result<
        ValidGraph,
        PermutationError,
    >)
        requires
            !old(irs).is_gcm(),
            old(irs).streaming(),
            d % 2 == 0,
            2 <= d,
        ensures
            final(irs).streaming(),
            final(irs).is_gcm() == old(irs).is_gcm(),
            final(irs).key() == old(irs).key(),
            final(irs).iv() == old(irs).iv(),
            n < 3 <==> r == Result::<ValidGraph, PermutationError>::Err(
                PermutationError::SizeTooSmall,
            ),
            n < 3 ==> final(irs).stream_pos() == old(irs).stream_pos(),
            ({
                let model = match method {
                    ConstructionMethod::Naive => naive_forward(
                        Seq::empty(),
                        d as int / 2,
                        n as nat,
                        old(irs).is_gcm(),
                        old(irs).key(),
                        old(irs).iv(),
                        old(irs).stream_pos(),
                    ),
                    ConstructionMethod::Tree => tree_policy::tree_build(
                        n as nat,
                        d as nat,
                        old(irs).is_gcm(),
                        old(irs).key(),
                        old(irs).iv(),
                        old(irs).stream_pos(),
                    ),
                };
                &&& (r == Result::<ValidGraph, PermutationError>::Err(
                    PermutationError::RetriesExhausted,
                ) <==> n >= 3 && model is None)
                &&& (r matches Ok(g) ==> model matches Some(t) && g.perms().take(d as int / 2)
                    == t.0 && final(irs).stream_pos() == t.1)
            }),
            match r {
                Ok(g) => g.well_formed() && g.n_spec() == n && g.d_spec() == d,
                Err(e) => e == PermutationError::SizeTooSmall || e
                    == PermutationError::RetriesExhausted,
            },
    {
        match method {
            ConstructionMethod::Naive => ValidGraph::new_naive(n, d, irs),
            ConstructionMethod::Tree => ValidGraph::new_tree(n, d, irs),
        }
    }

    /// Wraps already constructed permutations without any validation.
    pub fn from_permutations(n: usize, d: usize, permutations: Vec<Vec<u64>>) -> (g: ValidGraph)
        ensures
            g.n_spec() == n,
            g.d_spec() == d,
            g.perms() == views_of(permutations@),
    {
        ValidGraph { n, d, permutations }
    }

    /// Greedy construction: draw each forward generator fresh, then
    /// re-shuffle it round by round until it is pairwise valid against
    /// everything accepted before it.  The whole run is pinned to the
    /// keystream: failure is reported exactly when the draw model runs
    /// out, and on success the forward half is the model's value.
    #[verifier::loop_isolation(false)]
    fn new_naive(n: usize, d: usize, irs: &mut Irs) -> (r: Result<ValidGraph, PermutationError>)
        requires
            !old(irs).is_gcm(),
            old(irs).streaming(),
            d % 2 == 0,
            2 <= d,
        ensures
            final(irs).streaming(),
            final(irs).is_gcm() == old(irs).is_gcm(),
            final(irs).key() == old(irs).key(),
            final(irs).iv() == old(irs).iv(),
            n < 3 <==> r == Result::<ValidGraph, PermutationError>::Err(
                PermutationError::SizeTooSmall,
            ),
            n < 3 ==> final(irs).stream_pos() == old(irs).stream_pos(),
            r == Result::<ValidGraph, PermutationError>::Err(PermutationError::RetriesExhausted)
                <==> n >= 3 && naive_forward(
                Seq::empty(),
                d as int / 2,
                n as nat,
                old(irs).is_gcm(),
                old(irs).key(),
                old(irs).iv(),
                old(irs).stream_pos(),
            ) is None,
            match r {
                Ok(g) => {
                    &&& g.well_formed()
                    &&& g.n_spec() == n
                    &&& g.d_spec() == d
                    &&& naive_forward(
                        Seq::empty(),
                        d as int / 2,
                        n as nat,
                        old(irs).is_gcm(),
                        old(irs).key(),
                        old(irs).iv(),
                        old(irs).stream_pos(),
                    ) matches Some(t) && g.perms().take(d as int / 2) == t.0
                        && final(irs).stream_pos() == t.1
                },
                Err(e) => e == PermutationError::SizeTooSmall || e
                    == PermutationError::RetriesExhausted,
            },
    {
        if n < 3 {
            return Err(PermutationError::SizeTooSmall);
        }
        let half = d / 2;
        let ghost gcm = irs.is_gcm();
        let ghost key = irs.key();
        let ghost iv = irs.iv();
        let ghost pos0 = irs.stream_pos();
        let ghost model = naive_forward(Seq::empty(), half as int, n as nat, gcm, key, iv, pos0);

        let mut permutations: Vec<Vec<u64>> = Vec::with_capacity(d);

        let mut numbers = perm::new(n);
        let ctx = IrsCtx::new(numbers.as_slice());
        proof {
            assert(numbers@ =~= identity_seq(n as nat));
            assert(ctx.slots() =~= zero_slots(n as nat));
        }
        let mut ctx = match valid::permute(&mut numbers, irs, ctx) {
            Ok(c) => c,
            Err(e) => {
                proof {
                    assert(model is None);
                }
                return Err(e);
            },
        };
        let ghost first_perm = numbers@;
        permutations.push(numbers);
        proof {
            lemma_views_of(permutations@);
            assert(views_of(permutations@)[0] == first_perm);
            assert(new_valid(Seq::empty(), first_perm));
            assert(redraws_until_new_valid(
                Seq::empty(),
                first_perm,
                ctx.slots(),
                gcm,
                key,
                iv,
                irs.stream_pos(),
                SHUFFLE_ROUND_LIMIT as nat,
            ) == Some((first_perm, ctx.slots(), irs.stream_pos())));
            assert(views_of(permutations@) =~= Seq::<Seq<u64>>::empty().push(first_perm));
            assert(model == naive_forward(
                views_of(permutations@),
                half - 1,
                n as nat,
                gcm,
                key,
                iv,
                irs.stream_pos(),
            ));
        }

        let mut k: usize = 1;
        while k < half
            invariant
                1 <= k <= half,
                irs.streaming(),
                irs.is_gcm() == old(irs).is_gcm(),
                irs.key() == old(irs).key(),
                irs.iv() == old(irs).iv(),
                ctx.wf(n as nat),
                permutations@.len() == k,
                all_permutations(views_of(permutations@), n as nat),
                forward_half_valid(views_of(permutations@), k as int),
                model == naive_forward(
                    views_of(permutations@),
                    half - k,
                    n as nat,
                    gcm,
                    key,
                    iv,
                    irs.stream_pos(),
                ),
            decreases half - k,
        {
            let mut numbers = perm::new(n);
            ctx.clear_slots();
            let ghost acc = views_of(permutations@);
            proof {
                assert(numbers@ =~= identity_seq(n as nat));
                assert(ctx.slots() =~= zero_slots(n as nat));
            }
            let mut ctx2 = match valid::permute(&mut numbers, irs, ctx) {
                Ok(c) => c,
                Err(e) => {
                    proof {
                        assert(model is None);
                    }
                    return Err(e);
                },
            };
            let ghost inner_model = redraws_until_new_valid(
                acc,
                numbers@,
                ctx2.slots(),
                gcm,
                key,
                iv,
                irs.stream_pos(),
                SHUFFLE_ROUND_LIMIT as nat,
            );
            proof {
                assert(inner_model is None ==> model is None);
                assert(inner_model matches Some(t2) ==> model == naive_forward(
                    acc.push(t2.0),
                    half - k - 1,
                    n as nat,
                    gcm,
                    key,
                    iv,
                    t2.2,
                ));
            }

            proof {
                lemma_views_of(permutations@);
            }
            let mut redraws: usize = crate::irs::SHUFFLE_ROUND_LIMIT;
            let mut accepted = valid::is_new_valid(permutations.as_slice(), numbers.as_slice());
            while !accepted && redraws > 0
                invariant
                    irs.streaming(),
                    irs.is_gcm() == old(irs).is_gcm(),
                    irs.key() == old(irs).key(),
                    irs.iv() == old(irs).iv(),
                    ctx2.wf(n as nat),
                    numbers@.len() == n,
                    is_permutation(numbers@),
                    valid_perm(numbers@),
                    acc == views_of(permutations@),
                    accepted == new_valid(acc, numbers@),
                    inner_model == redraws_until_new_valid(
                        acc,
                        numbers@,
                        ctx2.slots(),
                        gcm,
                        key,
                        iv,
                        irs.stream_pos(),
                        redraws as nat,
                    ),
                decreases redraws,
            {
                ctx2 = match valid::repermute(&mut numbers, irs, ctx2) {
                    Ok(c) => c,
                    Err(e) => {
                        proof {
                            assert(inner_model is None);
                            assert(model is None);
                        }
                        return Err(e);
                    },
                };
                proof {
                    lemma_views_of(permutations@);
                }
                accepted = valid::is_new_valid(permutations.as_slice(), numbers.as_slice());
                redraws = redraws - 1;
            }
            if !accepted {
                proof {
                    assert(inner_model is None);
                    assert(model is None);
                }
                return Err(PermutationError::RetriesExhausted);
            }
            proof {
                assert(inner_model == Some((numbers@, ctx2.slots(), irs.stream_pos())));
            }

            ctx = ctx2;
            let ghost before = permutations@;
            let ghost accepted_perm = numbers@;
            permutations.push(numbers);
            proof {
                lemma_views_of(before);
                lemma_views_of(permutations@);
                assert(views_of(permutations@) =~= views_of(before).push(accepted_perm));
                assert(forward_half_valid(views_of(permutations@), (k + 1) as int)) by {
                    assert(forall|j: int| 0 <= j < k ==> pair_valid(
                        #[trigger] views_of(permutations@)[j],
                        views_of(permutations@)[k as int],
                    ));
                }
                assert(model == naive_forward(
                    views_of(permutations@),
                    half - (k + 1),
                    n as nat,
                    gcm,
                    key,
                    iv,
                    irs.stream_pos(),
                ));
            }
            k = k + 1;
        }
        let ghost forward = views_of(permutations@);
        let ghost pos_done = irs.stream_pos();
        proof {
            assert(model == Some((forward, pos_done)));
        }

        let mut i: usize = 0;
        while i < half
            invariant
                i <= half,
                permutations@.len() == half + i,
                views_of(permutations@).take(half as int) == forward,
                all_permutations(views_of(permutations@), n as nat),
                forward_half_valid(views_of(permutations@), half as int),
                forall|j: int| 0 <= j < i ==> are_inverses(
                    #[trigger] views_of(permutations@)[j],
                    views_of(permutations@)[half + j],
                ),
            decreases half - i,
        {
            proof {
                lemma_views_of(permutations@);
            }
            let inv = perm::inverse(permutations[i].as_slice());
            let ghost before = permutations@;
            let ghost inv_view = inv@;
            permutations.push(inv);
            proof {
                lemma_views_of(before);
                lemma_views_of(permutations@);
                assert(views_of(permutations@) =~= views_of(before).push(inv_view));
                assert(views_of(permutations@).take(half as int) =~= views_of(before).take(
                    half as int,
                ));
            }
            i = i + 1;
        }

        proof {
            lemma_views_of(permutations@);
            assert(views_of(permutations@).take(half as int) =~= forward);
        }
        Ok(ValidGraph { n, d, permutations })
    }

    fn new_tree(n: usize, d: usize, irs: &mut Irs) -> (r: Result<ValidGraph, PermutationError>)
        requires
            !old(irs).is_gcm(),
            old(irs).streaming(),
            d % 2 == 0,
            2 <= d,
        ensures
            final(irs).streaming(),
            final(irs).is_gcm() == old(irs).is_gcm(),
            final(irs).key() == old(irs).key(),
            final(irs).iv() == old(irs).iv(),
            n < 3 <==> r == Result::<ValidGraph, PermutationError>::Err(
                PermutationError::SizeTooSmall,
            ),
            n < 3 ==> final(irs).stream_pos() == old(irs).stream_pos(),
            r == Result::<ValidGraph, PermutationError>::Err(PermutationError::RetriesExhausted)
                <==> n >= 3 && tree_policy::tree_build(
                n as nat,
                d as nat,
                old(irs).is_gcm(),
                old(irs).key(),
                old(irs).iv(),
                old(irs).stream_pos(),
            ) is None,
            match r {
                Ok(g) => {
                    &&& g.well_formed()
                    &&& g.n_spec() == n
                    &&& g.d_spec() == d
                    &&& tree_policy::tree_build(
                        n as nat,
                        d as nat,
                        old(irs).is_gcm(),
                        old(irs).key(),
                        old(irs).iv(),
                        old(irs).stream_pos(),
                    ) matches Some(t) && g.perms().take(d as int / 2) == t.0
                        && final(irs).stream_pos() == t.1
                },
                Err(e) => e == PermutationError::SizeTooSmall || e
                    == PermutationError::RetriesExhausted,
            },
    {
        tree_policy::new_graph(n, d, irs)
    }
}

/// Checks what the builders promise of the forward half: every
/// permutation there is individually valid and pairwise valid against
/// all permutations before it.  Inverse alignment of the backward half
/// is deliberately left to the builders and not re-checked here.
pub fn is_valid<G: Graph>(graph: &G) -> (r: bool)
    requires
        forall|k: int| 0 <= k < graph.spec_permutations().len() ==> (
        #[trigger] graph.spec_permutations()[k]).len() == graph.spec_permutations()[0].len()
            && in_range(graph.spec_permutations()[k]),
    ensures
        r == half_valid(graph.spec_permutations()),
{
    let perms = graph.permutations();
    let m = perms.len();
    let mut i: usize = 0;
    let ghost ps = graph.spec_permutations();
    while i < m / 2
        invariant
            i <= m / 2,
            m == ps.len(),
            ps == graph.spec_permutations(),
            views_of(perms@) == ps,
            perms@.len() == m,
            forall|k: int| 0 <= k < m ==> (#[trigger] ps[k]).len() == ps[0].len() && in_range(
                ps[k],
            ),
            forall|k: int| 0 <= k < i ==> valid_perm(#[trigger] ps[k]) && new_valid(
                ps.take(k),
                ps[k],
            ),
        decreases m / 2 - i,
    {
        proof {
            lemma_views_of(perms@);
        }
        let ok_alone = valid::is_valid(perms[i].as_slice());
        let front = vstd::slice::slice_subrange(perms.as_slice(), 0, i);
        proof {
            lemma_views_of(front@);
            assert(views_of(front@) =~= ps.take(i as int));
        }
        let ok_pairs = valid::is_new_valid(front, perms[i].as_slice());
        if !ok_alone || !ok_pairs {
            proof {
                if !ok_alone {
                    assert(!valid_perm(ps[i as int]));
                } else {
                    assert(!new_valid(ps.take(i as int), ps[i as int]));
                }
                assert(!half_valid(ps));
            }
            return false;
        }
        i = i + 1;
    }
    true
}

impl Graph for ValidGraph {
    open spec fn spec_size(&self) -> nat {
        self.n_spec()
    }

    open spec fn spec_degree(&self) -> nat {
        self.d_spec()
    }

    open spec fn spec_permutations(&self) -> Seq<Seq<u64>> {
        self.perms()
    }

    fn size(&self) -> (r: usize) {
        self.n
    }

    fn degree(&self) -> (r: usize) {
        self.d
    }

    fn permutations(&self) -> (r: &Vec<Vec<u64>>) {
        &self.permutations
    }

    fn forward_permutations(&self) -> (r: Vec<Vec<u64>>) {
        copy_range(&self.permutations, 0, self.permutations.len() / 2)
    }

    fn backward_permutations(&self) -> (r: Vec<Vec<u64>>) {
        copy_range(&self.permutations, self.permutations.len() / 2, self.permutations.len())
    }
}

/// An element-wise copy of `src[from .. to]`.
fn copy_range(src: &Vec<Vec<u64>>, from: usize, to: usize) -> (r: Vec<Vec<u64>>)
    requires
        from <= to <= src@.len(),
    ensures
        views_of(r@) == views_of(src@).subrange(from as int, to as int),
{
    let mut r: Vec<Vec<u64>> = Vec::with_capacity(to - from);
    let mut i: usize = from;
    while i < to
        invariant
            from <= i <= to <= src@.len(),
            r@.len() == i - from,
            forall|k: int| 0 <= k < i - from ==> r@[k]@ == src@[from + k]@,
        decreases to - i,
    {
        r.push(copy_perm(&src[i]));
        i = i + 1;
    }
    proof {
        assert(views_of(r@) =~= views_of(src@).subrange(from as int, to as int));
    }
    r
}

/// An element-wise copy of one permutation.
fn copy_perm(src: &Vec<u64>) -> (r: Vec<u64>)
    ensures
        r@ == src@,
{
    let n = src.len();
    let mut r: Vec<u64> = Vec::with_capacity(n);
    let mut i: usize = 0;
    while i < n
        invariant
            i <= n,
            n == src@.len(),
            r@.len() == i,
            forall|k: int| 0 <= k < i ==> r@[k] == src@[k],
        decreases n - i,
    {
        r.push(src[i]);
        i = i + 1;
    }
    proof {
        assert(r@ =~= src@);
    }
    r
}

/// A graph whose forward permutations are drawn independently without
/// the mutual-validity retry: all `d` draws first, inverses appended.
#[derive(Debug)]
pub struct NewGraph {
    pub n: usize,
    pub d: usize,
    pub permutations: Vec<Vec<u64>>,
}

impl NewGraph {
    /// Draws `d` individually valid permutations and appends their
    /// inverses; pairwise validity across draws is not enforced.  The
    /// draws are pinned to the keystream: the builder fails with
    /// `RetriesExhausted` exactly when the draw model runs out of
    /// rounds, and on success the forward half is the model's value.
    pub fn new(n: usize, d: usize, irs: &mut Irs) -> (r: Result<NewGraph, PermutationError>)
        requires
            !old(irs).is_gcm(),
            old(irs).streaming(),
            2 * d <= usize::MAX,
        ensures
            final(irs).streaming(),
            final(irs).is_gcm() == old(irs).is_gcm(),
            final(irs).key() == old(irs).key(),
            final(irs).iv() == old(irs).iv(),
            n < 3 <==> r == Result::<NewGraph, PermutationError>::Err(
                PermutationError::SizeTooSmall,
            ),
            n < 3 ==> final(irs).stream_pos() == old(irs).stream_pos(),
            r == Result::<NewGraph, PermutationError>::Err(PermutationError::RetriesExhausted)
                <==> n >= 3 && independent_draws(
                Seq::empty(),
                d as int,
                n as nat,
                old(irs).is_gcm(),
                old(irs).key(),
                old(irs).iv(),
                old(irs).stream_pos(),
            ) is None,
            match r {
                Ok(g) => {
                    &&& g.n == n
                    &&& g.d == d
                    &&& g.permutations@.len() == 2 * d
                    &&& all_permutations(views_of(g.permutations@), n as nat)
                    &&& forall|i: int| 0 <= i < d ==> valid_perm(
                        #[trigger] views_of(g.permutations@)[i],
                    )
                    &&& forall|i: int| 0 <= i < d ==> are_inverses(
                        #[trigger] views_of(g.permutations@)[i],
                        views_of(g.permutations@)[d + i],
                    )
                    &&& independent_draws(
                        Seq::empty(),
                        d as int,
                        n as nat,
                        old(irs).is_gcm(),
                        old(irs).key(),
                        old(irs).iv(),
                        old(irs).stream_pos(),
                    ) matches Some(t) && views_of(g.permutations@).take(d as int) == t.0
                        && final(irs).stream_pos() == t.1
                },
                Err(e) => e == PermutationError::SizeTooSmall || e
                    == PermutationError::RetriesExhausted,
            },
    {
        if n < 3 {
            return Err(PermutationError::SizeTooSmall);
        }
        let ghost gcm = irs.is_gcm();
        let ghost key = irs.key();
        let ghost iv = irs.iv();
        let ghost pos0 = irs.stream_pos();
        let ghost model = independent_draws(
            Seq::empty(),
            d as int,
            n as nat,
            gcm,
            key,
            iv,
            pos0,
        );

        let mut permutations: Vec<Vec<u64>> = Vec::with_capacity(2 * d);
        let base = perm::new(n);
        let mut ctx = IrsCtx::new(base.as_slice());
        proof {
            assert(views_of(permutations@) =~= Seq::<Seq<u64>>::empty());
        }

        let mut k: usize = 0;
        while k < d
            invariant
                k <= d,
                !irs.is_gcm(),
                irs.streaming(),
                irs.is_gcm() == old(irs).is_gcm(),
                irs.key() == old(irs).key(),
                irs.iv() == old(irs).iv(),
                gcm == irs.is_gcm(),
                key == irs.key(),
                iv == irs.iv(),
                ctx.wf(n as nat),
                3 <= n,
                permutations@.len() == k,
                all_permutations(views_of(permutations@), n as nat),
                forall|i: int| 0 <= i < k ==> valid_perm(#[trigger] views_of(permutations@)[i]),
                model == independent_draws(
                    Seq::empty(),
                    d as int,
                    n as nat,
                    old(irs).is_gcm(),
                    old(irs).key(),
                    old(irs).iv(),
                    old(irs).stream_pos(),
                ),
                model == independent_draws(
                    views_of(permutations@),
                    d - k,
                    n as nat,
                    gcm,
                    key,
                    iv,
                    irs.stream_pos(),
                ),
            decreases d - k,
        {
            let mut numbers = perm::new(n);
            ctx.clear_slots();
            let ghost acc = views_of(permutations@);
            let ghost pos_draw = irs.stream_pos();
            proof {
                assert(numbers@ =~= identity_seq(n as nat));
                assert(ctx.slots() =~= zero_slots(n as nat));
            }
            ctx = match valid::permute(&mut numbers, irs, ctx) {
                Ok(c) => c,
                Err(e) => {
                    proof {
                        assert(permute_spec(
                            identity_seq(n as nat),
                            zero_slots(n as nat),
                            gcm,
                            key,
                            iv,
                            pos_draw,
                        ) is None);
                        assert(model is None);
                    }
                    return Err(e);
                },
            };
            let ghost before = permutations@;
            let ghost drawn = numbers@;
            permutations.push(numbers);
            proof {
                lemma_views_of(before);
                lemma_views_of(permutations@);
                assert(views_of(permutations@) =~= views_of(before).push(drawn));
                assert(model == independent_draws(
                    views_of(permutations@),
                    d - (k + 1),
                    n as nat,
                    gcm,
                    key,
                    iv,
                    irs.stream_pos(),
                ));
            }
            k = k + 1;
        }
        let ghost forward = views_of(permutations@);
        let ghost pos_done = irs.stream_pos();
        proof {
            assert(model == Some((forward, pos_done)));
        }

        let mut i: usize = 0;
        while i < d
            invariant
                i <= d,
                permutations@.len() == d + i,
                views_of(permutations@).take(d as int) == forward,
                all_permutations(views_of(permutations@), n as nat),
                forall|j: int| 0 <= j < d ==> valid_perm(#[trigger] views_of(permutations@)[j]),
                forall|j: int| 0 <= j < i ==> are_inverses(
                    #[trigger] views_of(permutations@)[j],
                    views_of(permutations@)[d + j],
                ),
            decreases d - i,
        {
            proof {
                lemma_views_of(permutations@);
            }
            let inv = perm::inverse(permutations[i].as_slice());
            let ghost before = permutations@;
            let ghost inv_view = inv@;
            permutations.push(inv);
            proof {
                lemma_views_of(before);
                lemma_views_of(permutations@);
                assert(views_of(permutations@) =~= views_of(before).push(inv_view));
                assert(views_of(permutations@).take(d as int) =~= views_of(before).take(d as int));
            }
            i = i + 1;
        }

        Ok(NewGraph { n, d, permutations })
    }
}

impl Graph for NewGraph {
    open spec fn spec_size(&self) -> nat {
        self.n as nat
    }

    open spec fn spec_degree(&self) -> nat {
        self.d as nat
    }

    open spec fn spec_permutations(&self) -> Seq<Seq<u64>> {
        views_of(self.permutations@)
    }

    fn size(&self) -> (r: usize) {
        self.n
    }

    fn degree(&self) -> (r: usize) {
        self.d
    }

    fn permutations(&self) -> (r: &Vec<Vec<u64>>) {
        &self.permutations
    }

    fn forward_permutations(&self) -> (r: Vec<Vec<u64>>) {
        copy_range(&self.permutations, 0, self.permutations.len() / 2)
    }

    fn backward_permutations(&self) -> (r: Vec<Vec<u64>>) {
        copy_range(&self.permutations, self.permutations.len() / 2, self.permutations.len())
    }
}

} // verus!
