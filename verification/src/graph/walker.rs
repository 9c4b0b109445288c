//! The capability a cipher needs from a graph: multi-step keyed random
//! walks that can be retraced exactly.  A walker selects one permutation
//! per step from a pseudorandom buffer — `bits_per_step` bits per
//! selection, little-endian, packed back to back — and applies it; the
//! backward walk applies the inverse permutation for the same bits.

use crate::perm::are_inverses;
use vstd::arithmetic::power2::pow2;
use vstd::prelude::*;

verus! {

/// The little-endian value of `count` bytes of `buf` from `first` on:
/// each byte weighs a further eight bits.
pub open spec fn le_word(buf: Seq<u8>, first: int, count: nat) -> nat
    decreases count,
{
    if count == 0 {
        0
    } else {
        (le_word(buf, first, (count - 1) as nat) + buf[first + count - 1] * pow2(
            (8 * (count - 1)) as nat,
        )) as nat
    }
}

/// How many bytes the run covering `count` bits from bit `start` spans.
pub open spec fn bytes_covering(start: nat, count: nat) -> nat {
    ((start % 8) + count + 7) / 8
}

/// The value of the `count` bits of `buf` starting at bit `start`:
/// the minimal covering run of bytes, read little-endian, shifted right
/// to the bit offset and masked to `count` bits.
pub open spec fn bits_at(buf: Seq<u8>, start: nat, count: nat) -> nat {
    (le_word(buf, (start / 8) as int, bytes_covering(start, count)) / pow2(start % 8)) % pow2(
        count,
    )
}

/// The permutation index encoded for step `k`.
pub open spec fn step_index(buf: Seq<u8>, bits: nat, k: nat) -> nat {
    bits_at(buf, k * bits, bits)
}

/// Where one step under selection `j` sends vertex `x`.
pub open spec fn tab_step(tab: Seq<Seq<u64>>, j: nat, x: nat) -> nat {
    tab[j as int][x as int] as nat
}

/// The step tables a walker folds over: one permutation per selection
/// value — so the table length is exactly the power of two of the
/// selection width — every entry a map over the whole domain, and the
/// backward table holding the exact inverse of each forward entry.  The
/// domain fits `u32`, in which walkers carry vertices.
pub open spec fn tables_wf(ftab: Seq<Seq<u64>>, btab: Seq<Seq<u64>>, bits: nat, n: nat) -> bool {
    &&& 1 <= bits <= 31
    &&& ftab.len() == pow2(bits)
    &&& btab.len() == pow2(bits)
    &&& n <= 0x1_0000_0000
    &&& forall|j: int| 0 <= j < ftab.len() ==> (#[trigger] ftab[j]).len() == n
    &&& forall|j: int| 0 <= j < btab.len() ==> (#[trigger] btab[j]).len() == n
    &&& forall|j: int| 0 <= j < ftab.len() ==> are_inverses(#[trigger] ftab[j], btab[j])
}

/// The end of the forward walk: steps `0, 1, .., steps-1` applied in
/// order.
pub open spec fn walk_fwd(ftab: Seq<Seq<u64>>, bits: nat, x: nat, steps: nat, buf: Seq<u8>) -> nat
    decreases steps,
{
    if steps == 0 {
        x
    } else {
        tab_step(
            ftab,
            step_index(buf, bits, (steps - 1) as nat),
            walk_fwd(ftab, bits, x, (steps - 1) as nat, buf),
        )
    }
}

/// The end of the backward walk: steps `steps-1, .., 1, 0` undone in
/// that order.
pub open spec fn walk_bwd(btab: Seq<Seq<u64>>, bits: nat, x: nat, steps: nat, buf: Seq<u8>) -> nat
    decreases steps,
{
    if steps == 0 {
        x
    } else {
        walk_bwd(
            btab,
            bits,
            tab_step(btab, step_index(buf, bits, (steps - 1) as nat), x),
            (steps - 1) as nat,
            buf,
        )
    }
}

/// A walker over some graph's permutations.  The spec functions give
/// the walker's model: a domain `[0, domain())`, the selection width
/// `bits()`, and the forward and backward step tables.  `go` and
/// `go_back` must realise exactly the fold of those tables over the
/// selections packed in the random buffer.
pub trait Walker: Sized {
    /// The forward step table, one permutation per selection value.
    spec fn ftab(&self) -> Seq<Seq<u64>>;

    /// The backward step table, the inverse permutation per selection.
    spec fn btab(&self) -> Seq<Seq<u64>>;

    /// Bits consumed per step.
    spec fn bits(&self) -> nat;

    /// Number of vertices walked over.
    spec fn domain(&self) -> nat;

    /// The walk of `walk_length` forward steps from `start`.
    fn go(&self, start: u32, walk_length: usize, random_buf: &[u8]) -> (end: u32)
        requires
            tables_wf(self.ftab(), self.btab(), self.bits(), self.domain()),
            (start as nat) < self.domain(),
            walk_length * self.bits() <= 8 * random_buf@.len(),
            walk_length * self.bits() <= usize::MAX,
        ensures
            end as nat == walk_fwd(
                self.ftab(),
                self.bits(),
                start as nat,
                walk_length as nat,
                random_buf@,
            ),
            (end as nat) < self.domain(),
    ;

    /// The walk of `walk_length` backward steps from `start`, consuming
    /// the same selections in reverse step order.
    fn go_back(&self, start: u32, walk_length: usize, random_buf: &[u8]) -> (end: u32)
        requires
            tables_wf(self.ftab(), self.btab(), self.bits(), self.domain()),
            (start as nat) < self.domain(),
            walk_length * self.bits() <= 8 * random_buf@.len(),
            walk_length * self.bits() <= usize::MAX,
        ensures
            end as nat == walk_bwd(
                self.btab(),
                self.bits(),
                start as nat,
                walk_length as nat,
                random_buf@,
            ),
            (end as nat) < self.domain(),
    ;

    /// Bits consumed per step, as callers size buffers by it.
    fn bits_per_step(&self) -> (r: usize)
        requires
            tables_wf(self.ftab(), self.btab(), self.bits(), self.domain()),
        ensures
            r == self.bits(),
    ;
}

/// Every selection value lies below `pow2` of the selection width.
pub proof fn lemma_step_index_bound(buf: Seq<u8>, bits: nat, k: nat)
    ensures
        step_index(buf, bits, k) < pow2(bits),
{
    vstd::arithmetic::power2::lemma_pow2_pos(bits);
    let start = k * bits;
    vstd::arithmetic::div_mod::lemma_mod_bound(
        (le_word(buf, (start / 8) as int, bytes_covering(start, bits)) / pow2(start % 8)) as int,
        pow2(bits) as int,
    );
}

/// One step of well-formed tables stays in the domain, and the two
/// directions undo one another exactly.
pub proof fn lemma_tab_step(
    ftab: Seq<Seq<u64>>,
    btab: Seq<Seq<u64>>,
    bits: nat,
    n: nat,
    j: nat,
    x: nat,
)
    requires
        tables_wf(ftab, btab, bits, n),
        j < pow2(bits),
        x < n,
    ensures
        tab_step(ftab, j, x) < n,
        tab_step(btab, j, x) < n,
        tab_step(btab, j, tab_step(ftab, j, x)) == x,
        tab_step(ftab, j, tab_step(btab, j, x)) == x,
{
    assert(are_inverses(ftab[j as int], btab[j as int]));
}

/// A backward walk from a domain vertex stays in the domain.
pub proof fn lemma_walk_bwd_domain(
    ftab: Seq<Seq<u64>>,
    btab: Seq<Seq<u64>>,
    bits: nat,
    n: nat,
    x: nat,
    steps: nat,
    buf: Seq<u8>,
)
    requires
        tables_wf(ftab, btab, bits, n),
        x < n,
    ensures
        walk_bwd(btab, bits, x, steps, buf) < n,
    decreases steps,
{
    if steps > 0 {
        let j = step_index(buf, bits, (steps - 1) as nat);
        lemma_step_index_bound(buf, bits, (steps - 1) as nat);
        lemma_tab_step(ftab, btab, bits, n, j, x);
        lemma_walk_bwd_domain(ftab, btab, bits, n, tab_step(btab, j, x), (steps - 1) as nat, buf);
    }
}

/// The backbone of the cipher: with the same random buffer, the
/// backward walk retraces the forward walk exactly, ending where the
/// forward walk began.
pub proof fn lemma_walk_round_trip(
    ftab: Seq<Seq<u64>>,
    btab: Seq<Seq<u64>>,
    bits: nat,
    n: nat,
    x: nat,
    steps: nat,
    buf: Seq<u8>,
)
    requires
        tables_wf(ftab, btab, bits, n),
        x < n,
    ensures
        walk_fwd(ftab, bits, x, steps, buf) < n,
        walk_bwd(btab, bits, walk_fwd(ftab, bits, x, steps, buf), steps, buf) == x,
    decreases steps,
{
    if steps > 0 {
        lemma_walk_round_trip(ftab, btab, bits, n, x, (steps - 1) as nat, buf);
        let y = walk_fwd(ftab, bits, x, (steps - 1) as nat, buf);
        let j = step_index(buf, bits, (steps - 1) as nat);
        lemma_step_index_bound(buf, bits, (steps - 1) as nat);
        lemma_tab_step(ftab, btab, bits, n, j, y);
    }
}

} // verus!
