//! Simple random walks over the graphs: the two concrete walkers.  The
//! shared-set walker keeps all `d` permutations in one array and reaches
//! the inverse of selection `j` at `(j + d/2) % d`; the separate-set
//! walker keeps forward and backward halves apart and uses the same
//! selection in both.

use super::walker::{
    bits_at, bytes_covering, le_word, lemma_tab_step, step_index, tab_step, tables_wf, walk_bwd,
    walk_fwd, Walker,
};
use crate::graph::{views_of, Graph};
use crate::perm::are_inverses;
use vstd::arithmetic::div_mod::lemma_mod_bound;
use vstd::arithmetic::power2::{
    lemma2_to64, lemma2_to64_rest, lemma_pow2_adds, lemma_pow2_pos, lemma_pow2_strictly_increases,
    pow2,
};
use vstd::bits::{lemma_u64_low_bits_mask_is_mod, lemma_u64_shl_is_mul, lemma_u64_shr_is_div};
use vstd::prelude::*;

verus! {

/// A little-endian word is bounded by the power of two of its width.
proof fn lemma_le_word_bound(buf: Seq<u8>, first: int, count: nat)
    ensures
        le_word(buf, first, count) < pow2(8 * count),
    decreases count,
{
    if count == 0 {
        lemma2_to64();
    } else {
        lemma_le_word_bound(buf, first, (count - 1) as nat);
        lemma_pow2_adds(8 * (count - 1) as nat, 8);
        lemma2_to64();
        let w = le_word(buf, first, (count - 1) as nat);
        let b = buf[first + count - 1];
        let p = pow2((8 * (count - 1)) as nat);
        assert(w + b * p < p * 256) by (nonlinear_arith)
            requires
                w < p,
                b < 256,
                0 < p,
        ;
    }
}

/// Extracts the `bits_per_step` bits starting at bit `start`: reads the
/// minimal run of bytes covering them, little-endian, shifts right by
/// the offset within the first byte and masks the wanted width.
pub fn get_bits(buffer: &[u8], start: usize, bits_per_step: usize) -> (r: u32)
    requires
        1 <= bits_per_step <= 31,
        start + bits_per_step <= 8 * buffer@.len(),
    ensures
        r as nat == bits_at(buffer@, start as nat, bits_per_step as nat),
        (r as nat) < pow2(bits_per_step as nat),
{
    proof {
        lemma2_to64();
    }
    let first = start / 8;
    let offset = start % 8;
    let nbytes = (offset + bits_per_step + 7) / 8;
    assert(nbytes == bytes_covering(start as nat, bits_per_step as nat));
    assert(first + nbytes <= buffer@.len());

    assert(first <= usize::MAX / 8);
    let mut word: u64 = 0;
    let mut i: usize = 0;
    while i < nbytes
        invariant
            i <= nbytes,
            nbytes <= 5,
            first <= usize::MAX / 8,
            first + nbytes <= buffer@.len(),
            word == le_word(buffer@, first as int, i as nat),
            word < pow2((8 * i) as nat),
        decreases nbytes - i,
    {
        let byte = buffer[first + i];
        proof {
            lemma_le_word_bound(buffer@, first as int, (i + 1) as nat);
            lemma2_to64();
            let s = (8 * i) as u64;
            assert(pow2((8 * i) as nat) == 1u64 << s) by {
                lemma_u64_shl_is_mul(1u64, s);
            }
            assert(word | ((byte as u64) << s) == word + ((byte as u64) << s)) by (bit_vector)
                requires
                    s == 8 * i,
                    i <= 4,
                    word < (1u64 << s),
            ;
            assert((byte as u64) * pow2((8 * i) as nat) <= 255 * 0x1_0000_0000) by (nonlinear_arith)
                requires
                    byte <= 255,
                    pow2((8 * i) as nat) <= 0x1_0000_0000,
            ;
            assert((byte as u64) << s == (byte as u64) * pow2((8 * i) as nat)) by {
                lemma_u64_shl_is_mul(byte as u64, s);
            }
        }
        word = word | ((byte as u64) << ((8 * i) as u64));
        i = i + 1;
    }

    proof {
        lemma_u64_shr_is_div(word, offset as u64);
    }
    let shifted = word >> (offset as u64);
    proof {
        lemma_u64_shl_is_mul(1u64, bits_per_step as u64);
        vstd::bits::lemma_low_bits_mask_unfold(bits_per_step as nat);
        assert(vstd::bits::low_bits_mask(bits_per_step as nat) == pow2(bits_per_step as nat) - 1);
        lemma_u64_low_bits_mask_is_mod(shifted, bits_per_step as nat);
        lemma_pow2_pos(bits_per_step as nat);
        lemma_mod_bound(shifted as int, pow2(bits_per_step as nat) as int);
        vstd::arithmetic::power2::lemma_pow2_strictly_increases(
            bits_per_step as nat,
            32,
        );
    }
    let mask: u64 = (1u64 << (bits_per_step as u64)) - 1;
    (shifted & mask) as u32
}

/// The selection for step `index`, `bits_per_perm` bits wide.
pub fn get_permutation(buffer: &[u8], bits_per_perm: usize, index: usize) -> (r: u32)
    requires
        1 <= bits_per_perm <= 31,
        (index + 1) * bits_per_perm <= 8 * buffer@.len(),
        (index + 1) * bits_per_perm <= usize::MAX,
    ensures
        r as nat == step_index(buffer@, bits_per_perm as nat, index as nat),
        (r as nat) < pow2(bits_per_perm as nat),
{
    proof {
        assert((index + 1) * bits_per_perm == index * bits_per_perm + bits_per_perm)
            by (nonlinear_arith);
        assert(index * bits_per_perm >= 0) by (nonlinear_arith);
    }
    get_bits(buffer, index * bits_per_perm, bits_per_perm)
}

/// The smallest width whose power of two reaches `d`: what
/// `floor(log2(d - 1)) + 1` computes for `d >= 2`.
fn bits_needed(d: usize) -> (bits: usize)
    requires
        2 <= d,
        d <= 0x8000_0000,
    ensures
        1 <= bits <= 31,
        pow2((bits - 1) as nat) < d,
        d <= pow2(bits as nat),
{
    proof {
        lemma2_to64();
    }
    let mut bits: usize = 1;
    let mut cap: usize = 2;
    while cap < d
        invariant
            1 <= bits <= 31,
            cap == pow2(bits as nat),
            pow2((bits - 1) as nat) < d,
            d <= 0x8000_0000,
            cap < d ==> bits < 31,
        decreases 31 - bits,
    {
        proof {
            lemma_pow2_adds(bits as nat, 1);
            lemma2_to64();
            lemma2_to64_rest();
            if cap * 2 < d && bits + 1 >= 31 {
                if 31 < bits as nat + 1 {
                    lemma_pow2_strictly_increases(31, bits as nat + 1);
                }
                assert(false);
            }
        }
        bits = bits + 1;
        cap = cap * 2;
    }
    bits
}

/// Simple random walk over undirected graphs: one shared permutation
/// array, the backward step offsetting the selection by half the degree.
pub struct UndirectedSrw {
    perms: Vec<Vec<u64>>,
    bits_per_perm: usize,
}

impl UndirectedSrw {
    /// The permutations the walker steps by.
    pub closed spec fn perms_view(self) -> Seq<Seq<u64>> {
        views_of(self.perms@)
    }

    /// What a shared-set walker needs of its permutations: an even
    /// count, every entry a bijection over a domain that fits `u32`,
    /// and the entry half the set away always the exact inverse.
    pub open spec fn walkable(ps: Seq<Seq<u64>>, n: nat) -> bool {
        let d = ps.len();
        &&& 2 <= d
        &&& d % 2 == 0
        &&& n <= 0x1_0000_0000
        &&& forall|k: int| 0 <= k < d ==> (#[trigger] ps[k]).len() == n
        &&& forall|k: int| 0 <= k < d ==> are_inverses(
            #[trigger] ps[k],
            ps[((k + d / 2) % (d as int))],
        )
    }

    /// Constructs the walker over a graph's full permutation set.  The
    /// degree must be a power of two: every value of the selection bits
    /// must name an existing permutation, or a walk would step outside
    /// the set.
    pub fn new<G: Graph>(graph: &G) -> (w: Self)
        requires
            UndirectedSrw::walkable(graph.spec_permutations(), graph.spec_size()),
            graph.spec_permutations().len() <= 0x8000_0000,
            exists|b: nat| graph.spec_permutations().len() == pow2(b),
        ensures
            tables_wf(w.ftab(), w.btab(), w.bits(), w.domain()),
            w.domain() == graph.spec_size(),
            w.ftab() == graph.spec_permutations(),
    {
        let perms = graph.permutations();
        let d = perms.len();
        let bits_per_perm = bits_needed(d);
        proof {
            let b = choose|b: nat| graph.spec_permutations().len() == pow2(b);
            lemma_pow2_unique(b, bits_per_perm as nat, d as nat);
            assert(d == pow2(bits_per_perm as nat));
        }
        let copied = super::copy_range(perms, 0, d);
        proof {
            assert(views_of(copied@) =~= graph.spec_permutations());
        }
        let w = UndirectedSrw { perms: copied, bits_per_perm };
        proof {
            lemma_rotation_wf(w.perms_view(), graph.spec_size(), bits_per_perm as nat);
            assert(w.domain() == graph.spec_size());
        }
        w
    }

    /// One forward step: apply the selected permutation.
    pub fn one_step(&self, start: u32, step_number: usize, random_buf: &[u8]) -> (r: u32)
        requires
            tables_wf(self.ftab(), self.btab(), self.bits(), self.domain()),
            (start as nat) < self.domain(),
            (step_number + 1) * self.bits() <= 8 * random_buf@.len(),
            (step_number + 1) * self.bits() <= usize::MAX,
        ensures
            r as nat == tab_step(
                self.ftab(),
                step_index(random_buf@, self.bits(), step_number as nat),
                start as nat,
            ),
            (r as nat) < self.domain(),
    {
        let p_index = get_permutation(random_buf, self.bits_per_perm, step_number);
        proof {
            lemma_tab_step(
                self.ftab(),
                self.btab(),
                self.bits(),
                self.domain(),
                p_index as nat,
                start as nat,
            );
        }
        self.perms[p_index as usize][start as usize] as u32
    }

    /// One backward step: apply the inverse of the selected permutation,
    /// found half the set away.
    pub fn one_step_back(&self, start: u32, step_number: usize, random_buf: &[u8]) -> (r: u32)
        requires
            tables_wf(self.ftab(), self.btab(), self.bits(), self.domain()),
            (start as nat) < self.domain(),
            (step_number + 1) * self.bits() <= 8 * random_buf@.len(),
            (step_number + 1) * self.bits() <= usize::MAX,
        ensures
            r as nat == tab_step(
                self.btab(),
                step_index(random_buf@, self.bits(), step_number as nat),
                start as nat,
            ),
            (r as nat) < self.domain(),
    {
        let p_index = get_permutation(random_buf, self.bits_per_perm, step_number) as usize;
        proof {
            lemma_tab_step(
                self.ftab(),
                self.btab(),
                self.bits(),
                self.domain(),
                p_index as nat,
                start as nat,
            );
            if (self.bits_per_perm as nat) < 31 {
                lemma_pow2_strictly_increases(self.bits_per_perm as nat, 31);
            }
            lemma2_to64();
            assert(self.perms@.len() == pow2(self.bits_per_perm as nat));
            assert(p_index + self.perms@.len() as int / 2 < 0x1_0000_0000);
            lemma_mod_bound(p_index + self.perms@.len() as int / 2, self.perms@.len() as int);
        }
        let p_index = (p_index + self.perms.len() / 2) % self.perms.len();
        self.perms[p_index][start as usize] as u32
    }
}

impl Walker for UndirectedSrw {
    closed spec fn ftab(&self) -> Seq<Seq<u64>> {
        self.perms_view()
    }

    closed spec fn btab(&self) -> Seq<Seq<u64>> {
        let ps = self.perms_view();
        let d = ps.len() as int;
        Seq::new(ps.len(), |j: int| ps[(j + d / 2) % d])
    }

    closed spec fn bits(&self) -> nat {
        self.bits_per_perm as nat
    }

    closed spec fn domain(&self) -> nat {
        if self.perms_view().len() > 0 {
            self.perms_view()[0].len()
        } else {
            0
        }
    }

    fn go(&self, start: u32, walk_length: usize, random_buf: &[u8]) -> (end: u32) {
        let mut x = start;
        let mut k: usize = 0;
        while k < walk_length
            invariant
                k <= walk_length,
                tables_wf(self.ftab(), self.btab(), self.bits(), self.domain()),
                walk_length * self.bits() <= 8 * random_buf@.len(),
                walk_length * self.bits() <= usize::MAX,
                x as nat == walk_fwd(self.ftab(), self.bits(), start as nat, k as nat, random_buf@),
                (x as nat) < self.domain(),
                (start as nat) < self.domain(),
            decreases walk_length - k,
        {
            proof {
                lemma_mul_le_mono((k + 1) as int, walk_length as int, self.bits() as int);
            }
            x = self.one_step(x, k, random_buf);
            k = k + 1;
        }
        x
    }

    fn go_back(&self, start: u32, walk_length: usize, random_buf: &[u8]) -> (end: u32) {
        let mut x = start;
        let mut k: usize = walk_length;
        while k > 0
            invariant
                k <= walk_length,
                tables_wf(self.ftab(), self.btab(), self.bits(), self.domain()),
                walk_length * self.bits() <= 8 * random_buf@.len(),
                walk_length * self.bits() <= usize::MAX,
                walk_bwd(self.btab(), self.bits(), start as nat, walk_length as nat, random_buf@)
                    == walk_bwd(self.btab(), self.bits(), x as nat, k as nat, random_buf@),
                (x as nat) < self.domain(),
            decreases k,
        {
            proof {
                lemma_mul_le_mono(k as int, walk_length as int, self.bits() as int);
            }
            x = self.one_step_back(x, k - 1, random_buf);
            k = k - 1;
        }
        x
    }

    fn bits_per_step(&self) -> (r: usize) {
        self.bits_per_perm
    }
}

/// The rotated table pairs every permutation of a walkable set with
/// its inverse half the set away, giving well-formed step tables.
proof fn lemma_rotation_wf(ps: Seq<Seq<u64>>, n: nat, bits: nat)
    requires
        UndirectedSrw::walkable(ps, n),
        ps.len() == pow2(bits),
        1 <= bits <= 31,
    ensures
        tables_wf(
            ps,
            Seq::new(ps.len(), |j: int| ps[(j + ps.len() as int / 2) % ps.len() as int]),
            bits,
            n,
        ),
{
    let d = ps.len() as int;
    let rot = Seq::new(ps.len(), |j: int| ps[(j + d / 2) % d]);
    assert forall|j: int| 0 <= j < d implies (#[trigger] rot[j]).len() == n && are_inverses(
        ps[j],
        rot[j],
    ) by {
        lemma_mod_bound(j + d / 2, d);
        assert(are_inverses(ps[j], ps[(j + d / 2) % d]));
        assert(ps[(j + d / 2) % d].len() == n);
    }
}

/// A value is the power of two of exactly one exponent.
proof fn lemma_pow2_unique(b: nat, bits: nat, d: nat)
    requires
        d == pow2(b),
        bits >= 1,
        pow2((bits - 1) as nat) < d,
        d <= pow2(bits),
    ensures
        b == bits,
{
    if b < bits {
        if b < bits - 1 {
            lemma_pow2_strictly_increases(b, (bits - 1) as nat);
        }
    }
    if b > bits {
        lemma_pow2_strictly_increases(bits, b);
    }
}

/// Multiplication keeps `<=` on the left factor.
proof fn lemma_mul_le_mono(a: int, b: int, c: int)
    requires
        0 <= a <= b,
        0 <= c,
    ensures
        a * c <= b * c,
{
    vstd::arithmetic::mul::lemma_mul_inequality(a, b, c);
}

/// Simple random walk over directed graphs: separate forward and
/// backward permutation arrays, the same selection used in both.
pub struct DirectedSrw {
    bits_per_perm: usize,
    forward_perms: Vec<Vec<u64>>,
    backward_perms: Vec<Vec<u64>>,
}

impl DirectedSrw {
    /// The forward permutations.
    pub closed spec fn fwd_view(self) -> Seq<Seq<u64>> {
        views_of(self.forward_perms@)
    }

    /// The backward permutations.
    pub closed spec fn bwd_view(self) -> Seq<Seq<u64>> {
        views_of(self.backward_perms@)
    }

    /// What a separate-set walker needs: equally many forward and
    /// backward permutations, each pair exact inverses over a domain
    /// that fits `u32`.
    pub open spec fn walkable(fps: Seq<Seq<u64>>, bps: Seq<Seq<u64>>, n: nat) -> bool {
        &&& 2 <= fps.len()
        &&& fps.len() == bps.len()
        &&& n <= 0x1_0000_0000
        &&& forall|k: int| 0 <= k < fps.len() ==> (#[trigger] fps[k]).len() == n
        &&& forall|k: int| 0 <= k < fps.len() ==> are_inverses(#[trigger] fps[k], bps[k])
    }

    /// Constructs the walker over a graph's forward and backward
    /// halves.  Half the degree must be a power of two so that every
    /// selection value names an existing permutation.
    pub fn new<G: Graph>(graph: &G) -> (w: Self)
        requires
            DirectedSrw::walkable(
                graph.spec_permutations().take(graph.spec_permutations().len() as int / 2),
                graph.spec_permutations().skip(graph.spec_permutations().len() as int / 2),
                graph.spec_size(),
            ),
            graph.spec_permutations().len() <= 0x1_0000_0000,
            exists|b: nat| graph.spec_permutations().len() / 2 == pow2(b),
        ensures
            tables_wf(w.ftab(), w.btab(), w.bits(), w.domain()),
            w.domain() == graph.spec_size(),
            w.ftab() == graph.spec_permutations().take(
                graph.spec_permutations().len() as int / 2,
            ),
            w.btab() == graph.spec_permutations().skip(
                graph.spec_permutations().len() as int / 2,
            ),
    {
        let forward_perms = graph.forward_permutations();
        let backward_perms = graph.backward_permutations();
        let perms_cnt = forward_perms.len();
        let bits_per_perm = bits_needed(perms_cnt);
        proof {
            let b = choose|b: nat| graph.spec_permutations().len() / 2 == pow2(b);
            lemma_pow2_unique(b, bits_per_perm as nat, perms_cnt as nat);
            assert(perms_cnt == pow2(bits_per_perm as nat));
        }
        let w = DirectedSrw { bits_per_perm, forward_perms, backward_perms };
        proof {
            let fps = graph.spec_permutations().take(graph.spec_permutations().len() as int / 2);
            let bps = graph.spec_permutations().skip(graph.spec_permutations().len() as int / 2);
            assert(w.ftab() == fps);
            assert(w.btab() == bps);
            assert(w.ftab().len() == pow2(w.bits()));
            assert(w.btab().len() == w.ftab().len());
            assert(w.domain() == graph.spec_size()) by {
                assert(fps[0].len() == graph.spec_size());
            }
            assert(1 <= w.bits() <= 31);
            assert(w.domain() <= 0x1_0000_0000);
            assert(forall|j: int| 0 <= j < w.ftab().len() ==> (#[trigger] w.ftab()[j]).len()
                == w.domain());
            assert(forall|j: int| 0 <= j < w.ftab().len() ==> are_inverses(
                #[trigger] w.ftab()[j],
                w.btab()[j],
            ));
            assert forall|j: int| 0 <= j < w.btab().len() implies (#[trigger] w.btab()[j]).len()
                == w.domain() by {
                assert(are_inverses(w.ftab()[j], w.btab()[j]));
                assert(w.ftab()[j].len() == w.domain());
            }
            assert(tables_wf(w.ftab(), w.btab(), w.bits(), w.domain()));
        }
        w
    }

    /// One forward step: apply the selected forward permutation.
    pub fn one_step(&self, start: u32, step_number: usize, random_buf: &[u8]) -> (r: u32)
        requires
            tables_wf(self.ftab(), self.btab(), self.bits(), self.domain()),
            (start as nat) < self.domain(),
            (step_number + 1) * self.bits() <= 8 * random_buf@.len(),
            (step_number + 1) * self.bits() <= usize::MAX,
        ensures
            r as nat == tab_step(
                self.ftab(),
                step_index(random_buf@, self.bits(), step_number as nat),
                start as nat,
            ),
            (r as nat) < self.domain(),
    {
        let p_index = get_permutation(random_buf, self.bits_per_perm, step_number);
        proof {
            lemma_tab_step(
                self.ftab(),
                self.btab(),
                self.bits(),
                self.domain(),
                p_index as nat,
                start as nat,
            );
        }
        self.forward_perms[p_index as usize][start as usize] as u32
    }

    /// One backward step: apply the matching backward permutation.
    pub fn one_step_back(&self, start: u32, step_number: usize, random_buf: &[u8]) -> (r: u32)
        requires
            tables_wf(self.ftab(), self.btab(), self.bits(), self.domain()),
            (start as nat) < self.domain(),
            (step_number + 1) * self.bits() <= 8 * random_buf@.len(),
            (step_number + 1) * self.bits() <= usize::MAX,
        ensures
            r as nat == tab_step(
                self.btab(),
                step_index(random_buf@, self.bits(), step_number as nat),
                start as nat,
            ),
            (r as nat) < self.domain(),
    {
        let p_index = get_permutation(random_buf, self.bits_per_perm, step_number);
        proof {
            lemma_tab_step(
                self.ftab(),
                self.btab(),
                self.bits(),
                self.domain(),
                p_index as nat,
                start as nat,
            );
        }
        self.backward_perms[p_index as usize][start as usize] as u32
    }
}

impl Walker for DirectedSrw {
    closed spec fn ftab(&self) -> Seq<Seq<u64>> {
        self.fwd_view()
    }

    closed spec fn btab(&self) -> Seq<Seq<u64>> {
        self.bwd_view()
    }

    closed spec fn bits(&self) -> nat {
        self.bits_per_perm as nat
    }

    closed spec fn domain(&self) -> nat {
        if self.fwd_view().len() > 0 {
            self.fwd_view()[0].len()
        } else {
            0
        }
    }

    fn go(&self, start: u32, walk_length: usize, random_buf: &[u8]) -> (end: u32) {
        let mut x = start;
        let mut k: usize = 0;
        while k < walk_length
            invariant
                k <= walk_length,
                tables_wf(self.ftab(), self.btab(), self.bits(), self.domain()),
                walk_length * self.bits() <= 8 * random_buf@.len(),
                walk_length * self.bits() <= usize::MAX,
                x as nat == walk_fwd(self.ftab(), self.bits(), start as nat, k as nat, random_buf@),
                (x as nat) < self.domain(),
                (start as nat) < self.domain(),
            decreases walk_length - k,
        {
            proof {
                lemma_mul_le_mono((k + 1) as int, walk_length as int, self.bits() as int);
            }
            x = self.one_step(x, k, random_buf);
            k = k + 1;
        }
        x
    }

    fn go_back(&self, start: u32, walk_length: usize, random_buf: &[u8]) -> (end: u32) {
        let mut x = start;
        let mut k: usize = walk_length;
        while k > 0
            invariant
                k <= walk_length,
                tables_wf(self.ftab(), self.btab(), self.bits(), self.domain()),
                walk_length * self.bits() <= 8 * random_buf@.len(),
                walk_length * self.bits() <= usize::MAX,
                walk_bwd(self.btab(), self.bits(), start as nat, walk_length as nat, random_buf@)
                    == walk_bwd(self.btab(), self.bits(), x as nat, k as nat, random_buf@),
                (x as nat) < self.domain(),
            decreases k,
        {
            proof {
                lemma_mul_le_mono(k as int, walk_length as int, self.bits() as int);
            }
            x = self.one_step_back(x, k - 1, random_buf);
            k = k - 1;
        }
        x
    }

    fn bits_per_step(&self) -> (r: usize) {
        self.bits_per_perm
    }
}

} // verus!
