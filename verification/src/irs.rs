//! Inverse riffle shuffle.  Each round appends one keystream bit to every
//! element's accumulating rank key and then stably partitions the values
//! by the parity of their key: even-keyed elements first, odd-keyed
//! elements last, relative order kept inside each class.  Rounds repeat
//! until adjacent rank keys differ, which (keys of equal history staying
//! adjacent) means all keys differ and the accumulated bits have picked
//! exactly one ordering.

use crate::perm::error::PermutationError;
use crate::prng::{keystream_bit, Prng};
use vstd::multiset::Multiset;
use vstd::prelude::*;

verus! {

/// Rank keys after one more round: each key shifted left by one bit with
/// the next keystream bit (one per element, in element order, starting at
/// stream position `pos`) appended.
pub open spec fn shifted_slots(
    slots: Seq<u64>,
    gcm: bool,
    key: Seq<u8>,
    iv: Seq<u8>,
    pos: nat,
) -> Seq<u64> {
    Seq::new(
        slots.len(),
        |k: int|
            (slots[k] << 1u64) | (if keystream_bit(gcm, key, iv, (pos + k) as nat) {
                1u64
            } else {
                0u64
            }),
    )
}

/// The elements of `vals` whose rank key has the wanted parity, in order.
pub open spec fn select_parity(vals: Seq<u64>, keys: Seq<u64>, want_odd: bool) -> Seq<u64>
    recommends
        vals.len() == keys.len(),
    decreases vals.len(),
{
    if vals.len() == 0 || keys.len() == 0 {
        Seq::empty()
    } else {
        let head: Seq<u64> = if (keys[0] % 2 == 1) == want_odd {
            seq![vals[0]]
        } else {
            Seq::empty()
        };
        head + select_parity(vals.skip(1), keys.skip(1), want_odd)
    }
}

/// One stable two-way partition: even-keyed elements, then odd-keyed.
pub open spec fn partitioned(vals: Seq<u64>, keys: Seq<u64>) -> Seq<u64> {
    select_parity(vals, keys, false) + select_parity(vals, keys, true)
}

/// How many rank keys are odd.
pub open spec fn count_odd(keys: Seq<u64>) -> nat
    decreases keys.len(),
{
    if keys.len() == 0 {
        0
    } else {
        (if keys[0] % 2 == 1 {
            1nat
        } else {
            0nat
        }) + count_odd(keys.skip(1))
    }
}

/// No two neighbouring rank keys are equal.  Keys with the same bit
/// history stay adjacent under the stable partition, so this is how the
/// shuffle detects that all keys are pairwise distinct.
pub open spec fn adjacent_distinct(keys: Seq<u64>) -> bool {
    forall|i: int| 0 < i < keys.len() ==> keys[i - 1] != #[trigger] keys[i]
}

/// The shuffle state after one full round at stream position `pos`.
pub open spec fn round_spec(
    vals: Seq<u64>,
    keys: Seq<u64>,
    gcm: bool,
    key: Seq<u8>,
    iv: Seq<u8>,
    pos: nat,
) -> (Seq<u64>, Seq<u64>) {
    let u = shifted_slots(keys, gcm, key, iv, pos);
    (partitioned(vals, u), partitioned(u, u))
}

/// The shuffle state after rounds are repeated until the rank keys are
/// adjacent-distinct, or `None` if that takes more than `fuel` rounds.
/// The result is the values, the rank keys and the stream position after
/// the last round; at least one round is always taken.
pub open spec fn rounds_until_distinct(
    vals: Seq<u64>,
    keys: Seq<u64>,
    gcm: bool,
    key: Seq<u8>,
    iv: Seq<u8>,
    pos: nat,
    fuel: nat,
) -> Option<(Seq<u64>, Seq<u64>, nat)>
    decreases fuel,
{
    if fuel == 0 {
        None
    } else {
        let (vals2, keys2) = round_spec(vals, keys, gcm, key, iv, pos);
        let pos2 = pos + keys.len();
        if adjacent_distinct(keys2) {
            Some((vals2, keys2, pos2))
        } else {
            rounds_until_distinct(vals2, keys2, gcm, key, iv, pos2, (fuel - 1) as nat)
        }
    }
}

/// How many shuffle rounds (and, later, validity re-draws) are attempted
/// before giving up.  The expected number of rounds is logarithmic in the
/// permutation size, but termination is only probabilistic and has no
/// worst-case bound; a finite budget makes every retry loop terminate,
/// and running out is reported as an error rather than looped on.
pub const SHUFFLE_ROUND_LIMIT: usize = 1000000;

/// `count_odd` splits over any cut of the key sequence.
proof fn lemma_count_odd_split(keys: Seq<u64>, i: int)
    requires
        0 <= i <= keys.len(),
    ensures
        count_odd(keys) == count_odd(keys.take(i)) + count_odd(keys.skip(i)),
    decreases i,
{
    if i == 0 {
        assert(keys.take(0) =~= Seq::empty());
        assert(keys.skip(0) =~= keys);
    } else {
        assert(keys.take(i)[0] == keys[0]);
        assert(keys.take(i).skip(1) =~= keys.skip(1).take(i - 1));
        assert(keys.skip(i) =~= keys.skip(1).skip(i - 1));
        lemma_count_odd_split(keys.skip(1), i - 1);
    }
}

/// Selecting both parities accounts for every element: the odd class has
/// `count_odd` elements and the even class the rest.
proof fn lemma_select_len(vals: Seq<u64>, keys: Seq<u64>)
    requires
        vals.len() == keys.len(),
    ensures
        select_parity(vals, keys, true).len() == count_odd(keys),
        select_parity(vals, keys, false).len() == vals.len() - count_odd(keys),
    decreases vals.len(),
{
    if vals.len() > 0 {
        lemma_select_len(vals.skip(1), keys.skip(1));
    }
}

pub struct IrsCtx {
    numbers_cp: Vec<u64>,
    bit_slots: Vec<u64>,
    bit_slots_cp: Vec<u64>,
}

impl IrsCtx {
    /// The rank keys accumulated so far, one per element.
    pub closed spec fn slots(self) -> Seq<u64> {
        self.bit_slots@
    }

    /// The two copy buffers cover `n` elements.
    pub closed spec fn scratch_ok(self, n: nat) -> bool {
        &&& self.numbers_cp@.len() == n
        &&& self.bit_slots_cp@.len() == n
    }

    /// All three scratch arrays cover `n` elements.
    pub open spec fn wf(self, n: nat) -> bool {
        &&& self.slots().len() == n
        &&& self.scratch_ok(n)
    }

    /// Fresh scratch state for shuffling `numbers`: a working copy of the
    /// values and zeroed rank keys.
    pub fn new(numbers: &[u64]) -> (ctx: IrsCtx)
        ensures
            ctx.wf(numbers@.len()),
            ctx.slots() =~= Seq::new(numbers@.len(), |k: int| 0u64),
    {
        let n = numbers.len();
        let mut numbers_cp: Vec<u64> = Vec::with_capacity(n);
        let mut bit_slots: Vec<u64> = Vec::with_capacity(n);
        let mut bit_slots_cp: Vec<u64> = Vec::with_capacity(n);
        let mut i: usize = 0;
        while i < n
            invariant
                i <= n,
                numbers_cp@.len() == i,
                bit_slots@.len() == i,
                bit_slots_cp@.len() == i,
                forall|k: int| 0 <= k < i ==> bit_slots@[k] == 0,
                n == numbers@.len(),
            decreases n - i,
        {
            numbers_cp.push(numbers[i]);
            bit_slots.push(0);
            bit_slots_cp.push(0);
            i = i + 1;
        }
        IrsCtx { numbers_cp, bit_slots, bit_slots_cp }
    }

    /// Resets every rank key to zero so the same scratch buffers can
    /// drive a fresh, independent draw.
    pub fn clear_slots(&mut self)
        ensures
            final(self).slots() =~= Seq::new(old(self).slots().len(), |k: int| 0u64),
            old(self).wf(old(self).slots().len()) ==> final(self).wf(old(self).slots().len()),
    {
        let n = self.bit_slots.len();
        let mut i: usize = 0;
        while i < n
            invariant
                i <= n,
                self.bit_slots@.len() == n,
                self.numbers_cp@.len() == old(self).numbers_cp@.len(),
                self.bit_slots_cp@.len() == old(self).bit_slots_cp@.len(),
                forall|k: int| 0 <= k < i ==> self.bit_slots@[k] == 0,
            decreases n - i,
        {
            self.bit_slots.set(i, 0);
            i = i + 1;
        }
    }
}

/// The shuffle engine: a bit source plus the rounds that consume it.
/// The source runs in counter mode: the shuffle draws an unbounded
/// number of bits, and only counter mode serves arbitrarily many
/// keystream blocks (GCM stops at its 64 GiB cap).
pub struct Irs {
    prng: Prng,
}

impl Irs {
    /// True iff the underlying bit source runs in Galois/counter mode.
    pub closed spec fn is_gcm(self) -> bool {
        self.prng.is_gcm()
    }

    /// The key of the underlying bit source.
    pub closed spec fn key(self) -> Seq<u8> {
        self.prng.key()
    }

    /// The IV of the underlying bit source.
    pub closed spec fn iv(self) -> Seq<u8> {
        self.prng.iv()
    }

    /// The bit source consumes its keystream in order.
    pub closed spec fn streaming(self) -> bool {
        self.prng.streaming()
    }

    /// Position of the next keystream bit the shuffle will consume.
    pub closed spec fn stream_pos(self) -> nat {
        self.prng.stream_pos()
    }

    pub fn new(prng: Prng) -> (irs: Irs)
        requires
            !prng.is_gcm(),
        ensures
            irs.is_gcm() == prng.is_gcm(),
            irs.key() == prng.key(),
            irs.iv() == prng.iv(),
            irs.streaming() == prng.streaming(),
            irs.stream_pos() == prng.stream_pos(),
    {
        Irs { prng }
    }

    /// Shuffles `data` by repeated rounds until all rank keys are
    /// pairwise distinct, so that the accumulated bits order the elements
    /// in exactly one way.  Reports `RetriesExhausted` if the keys are
    /// still not distinct after `SHUFFLE_ROUND_LIMIT` rounds.
    #[verifier::loop_isolation(false)]
    pub fn permute(&mut self, data: &mut Vec<u64>, ctx: IrsCtx) -> (r: Result<
        IrsCtx,
        PermutationError,
    >)
        requires
            !old(self).is_gcm(),
            old(self).streaming(),
            ctx.wf(old(data)@.len()),
        ensures
            final(self).is_gcm() == old(self).is_gcm(),
            final(self).key() == old(self).key(),
            final(self).iv() == old(self).iv(),
            final(self).streaming(),
            final(data)@.len() == old(data)@.len(),
            match r {
                Ok(ctx2) => {
                    &&& ctx2.wf(old(data)@.len())
                    &&& adjacent_distinct(ctx2.slots())
                    &&& rounds_until_distinct(
                        old(data)@,
                        ctx.slots(),
                        old(self).is_gcm(),
                        old(self).key(),
                        old(self).iv(),
                        old(self).stream_pos(),
                        SHUFFLE_ROUND_LIMIT as nat,
                    ) == Some((final(data)@, ctx2.slots(), final(self).stream_pos()))
                },
                Err(e) => {
                    &&& e == PermutationError::RetriesExhausted
                    &&& rounds_until_distinct(
                        old(data)@,
                        ctx.slots(),
                        old(self).is_gcm(),
                        old(self).key(),
                        old(self).iv(),
                        old(self).stream_pos(),
                        SHUFFLE_ROUND_LIMIT as nat,
                    ) is None
                },
            },
    {
        let ghost vals0: Seq<u64> = data@;
        let ghost keys0 = ctx.slots();
        let ghost gcm = self.is_gcm();
        let ghost key = self.key();
        let ghost iv = self.iv();
        let ghost pos0 = self.stream_pos();
        let ghost n = data@.len();

        let mut ctx = ctx;
        let mut fuel: usize = SHUFFLE_ROUND_LIMIT;
        while fuel > 0
            invariant
                self.is_gcm() == gcm,
                self.key() == key,
                self.iv() == iv,
                self.streaming(),
                ctx.wf(n),
                data@.len() == n,
                rounds_until_distinct(vals0, keys0, gcm, key, iv, pos0, SHUFFLE_ROUND_LIMIT as nat)
                    == rounds_until_distinct(
                    data@,
                    ctx.slots(),
                    gcm,
                    key,
                    iv,
                    self.stream_pos(),
                    fuel as nat,
                ),
            decreases fuel,
        {
            ctx = self.one_round(data, ctx);
            fuel = fuel - 1;
            if Irs::all_distinct(ctx.bit_slots.as_slice()) {
                return Ok(ctx);
            }
        }
        Err(PermutationError::RetriesExhausted)
    }

    /// True iff no two neighbouring entries are equal.
    fn all_distinct(sorted_data: &[u64]) -> (r: bool)
        ensures
            r == adjacent_distinct(sorted_data@),
    {
        let n = sorted_data.len();
        let mut i: usize = 1;
        while i < n
            invariant
                1 <= i,
                i <= n || n == 0,
                n == sorted_data@.len(),
                forall|k: int| 0 < k < i ==> sorted_data@[k - 1] != #[trigger] sorted_data@[k],
            decreases n - i,
        {
            if sorted_data[i - 1] == sorted_data[i] {
                return false;
            }
            i = i + 1;
        }
        true
    }

    /// One shuffle round: append one fresh keystream bit to every rank
    /// key, then stably partition values and keys by key parity, evens
    /// before odds.
    pub fn one_round(&mut self, data: &mut Vec<u64>, ctx: IrsCtx) -> (r: IrsCtx)
        requires
            !old(self).is_gcm(),
            old(self).streaming(),
            ctx.wf(old(data)@.len()),
        ensures
            final(self).is_gcm() == old(self).is_gcm(),
            final(self).key() == old(self).key(),
            final(self).iv() == old(self).iv(),
            final(self).streaming(),
            final(self).stream_pos() == old(self).stream_pos() + old(data)@.len(),
            r.wf(old(data)@.len()),
            final(data)@.len() == old(data)@.len(),
            ({
                let u = shifted_slots(
                    ctx.slots(),
                    old(self).is_gcm(),
                    old(self).key(),
                    old(self).iv(),
                    old(self).stream_pos(),
                );
                final(data)@ == partitioned(old(data)@, u) && r.slots() == partitioned(u, u)
            }),
    {
        let mut ctx = ctx;
        let n = data.len();
        let ghost gcm = self.prng.is_gcm();
        let ghost key = self.prng.key();
        let ghost iv = self.prng.iv();
        let ghost pos0 = self.prng.stream_pos();
        let ghost slots0 = ctx.slots();
        let ghost u = shifted_slots(slots0, gcm, key, iv, pos0);

        let mut odd_count: usize = 0;
        let mut j: usize = 0;
        while j < n
            invariant
                !gcm,
                j <= n,
                n == data@.len(),
                ctx.bit_slots@.len() == n,
                ctx.numbers_cp@.len() == n,
                ctx.bit_slots_cp@.len() == n,
                self.is_gcm() == gcm,
                self.key() == key,
                self.iv() == iv,
                self.streaming(),
                self.stream_pos() == pos0 + j,
                u == shifted_slots(slots0, gcm, key, iv, pos0),
                slots0.len() == n,
                forall|k: int| j <= k < n ==> ctx.bit_slots@[k] == slots0[k],
                forall|k: int| 0 <= k < j ==> ctx.bit_slots@[k] == u[k],
                odd_count == count_odd(u.take(j as int)),
                odd_count <= j,
            decreases n - j,
        {
            let bit = self.prng.fetch_bit();
            let s = ctx.bit_slots[j];
            let updated: u64 = (s << 1u64) | (if bit {
                1u64
            } else {
                0u64
            });
            ctx.bit_slots.set(j, updated);
            proof {
                assert(updated == u[j as int]);
                lemma_count_odd_take_one_more(u, j as int);
            }
            if updated % 2 == 1 {
                odd_count = odd_count + 1;
            }
            j = j + 1;
        }
        proof {
            assert(u.take(n as int) =~= u);
            assert(ctx.bit_slots@ =~= u);
        }

        let oc = odd_count;
        let mut odd_moved: usize = 0;
        let mut even_moved: usize = 0;
        let mut i: usize = n;
        while i > 0
            invariant
                i <= n,
                n == data@.len(),
                ctx.bit_slots@ =~= u,
                u.len() == n,
                ctx.numbers_cp@.len() == n,
                ctx.bit_slots_cp@.len() == n,
                oc == count_odd(u),
                odd_moved == count_odd(u.skip(i as int)),
                odd_moved + even_moved == n - i,
                odd_moved <= oc,
                even_moved <= n - oc,
                oc <= n,
                ctx.bit_slots_cp@.subrange((n - oc - even_moved) as int, (n - oc) as int)
                    =~= select_parity(u.skip(i as int), u.skip(i as int), false),
                ctx.bit_slots_cp@.subrange((n - odd_moved) as int, n as int) =~= select_parity(
                    u.skip(i as int),
                    u.skip(i as int),
                    true,
                ),
                ctx.numbers_cp@.subrange((n - oc - even_moved) as int, (n - oc) as int)
                    =~= select_parity(data@.skip(i as int), u.skip(i as int), false),
                ctx.numbers_cp@.subrange((n - odd_moved) as int, n as int) =~= select_parity(
                    data@.skip(i as int),
                    u.skip(i as int),
                    true,
                ),
            decreases i,
        {
            let im = i - 1;
            let current = ctx.bit_slots[im];
            proof {
                lemma_count_odd_split(u, im as int);
                lemma_count_odd_head(u.skip(im as int));
                lemma_count_odd_le_len(u.take(im as int));
                assert(u.skip(im as int).skip(1) =~= u.skip(i as int));
                assert(data@.skip(im as int).skip(1) =~= data@.skip(i as int));
                lemma_select_len(u.skip(i as int), u.skip(i as int));
                lemma_select_len(data@.skip(i as int), u.skip(i as int));
            }
            let position: usize;
            if current % 2 == 1 {
                position = n - odd_moved - 1;
                odd_moved = odd_moved + 1;
            } else {
                position = n - oc - even_moved - 1;
                even_moved = even_moved + 1;
            }
            ctx.bit_slots_cp.set(position, current);
            ctx.numbers_cp.set(position, data[im]);
            proof {
                let sfx = u.skip(im as int);
                let dfx = data@.skip(im as int);
                assert(sfx[0] == u[im as int]);
                assert(dfx[0] == data@[im as int]);
                assert(ctx.bit_slots_cp@.subrange((n - oc - even_moved) as int, (n - oc) as int)
                    =~= select_parity(sfx, sfx, false));
                assert(ctx.bit_slots_cp@.subrange((n - odd_moved) as int, n as int)
                    =~= select_parity(sfx, sfx, true));
                assert(ctx.numbers_cp@.subrange((n - oc - even_moved) as int, (n - oc) as int)
                    =~= select_parity(dfx, sfx, false));
                assert(ctx.numbers_cp@.subrange((n - odd_moved) as int, n as int)
                    =~= select_parity(dfx, sfx, true));
            }
            i = im;
        }

        proof {
            assert(u.skip(0) =~= u);
            assert(data@.skip(0) =~= data@);
            lemma_select_len(u, u);
            lemma_select_len(data@, u);
            assert(ctx.bit_slots_cp@ =~= partitioned(u, u)) by {
                assert(ctx.bit_slots_cp@.subrange(0, (n - oc) as int) =~= select_parity(
                    u,
                    u,
                    false,
                ));
                assert(ctx.bit_slots_cp@.subrange((n - oc) as int, n as int) =~= select_parity(
                    u,
                    u,
                    true,
                ));
                assert(ctx.bit_slots_cp@ =~= ctx.bit_slots_cp@.subrange(0, (n - oc) as int)
                    + ctx.bit_slots_cp@.subrange((n - oc) as int, n as int));
            }
            assert(ctx.numbers_cp@ =~= partitioned(data@, u)) by {
                assert(ctx.numbers_cp@.subrange(0, (n - oc) as int) =~= select_parity(
                    data@,
                    u,
                    false,
                ));
                assert(ctx.numbers_cp@.subrange((n - oc) as int, n as int) =~= select_parity(
                    data@,
                    u,
                    true,
                ));
                assert(ctx.numbers_cp@ =~= ctx.numbers_cp@.subrange(0, (n - oc) as int)
                    + ctx.numbers_cp@.subrange((n - oc) as int, n as int));
            }
        }

        core::mem::swap(&mut ctx.numbers_cp, data);
        core::mem::swap(&mut ctx.bit_slots_cp, &mut ctx.bit_slots);

        ctx
    }
}

/// The stable partition only rearranges: the values afterwards are the
/// same multiset as before.
pub proof fn lemma_partitioned_multiset(vals: Seq<u64>, keys: Seq<u64>)
    requires
        vals.len() == keys.len(),
    ensures
        partitioned(vals, keys).to_multiset() == vals.to_multiset(),
        partitioned(vals, keys).len() == vals.len(),
    decreases vals.len(),
{
    broadcast use vstd::seq_lib::group_to_multiset_ensures;
    broadcast use vstd::seq_lib::lemma_multiset_commutative;

    lemma_select_len(vals, keys);
    if vals.len() == 0 {
        assert(partitioned(vals, keys) =~= Seq::<u64>::empty());
        assert(partitioned(vals, keys).to_multiset() =~= vals.to_multiset());
    } else {
        let rest_v = vals.skip(1);
        let rest_k = keys.skip(1);
        lemma_partitioned_multiset(rest_v, rest_k);
        let sf = select_parity(vals, keys, false);
        let st = select_parity(vals, keys, true);
        let sf1 = select_parity(rest_v, rest_k, false);
        let st1 = select_parity(rest_v, rest_k, true);
        assert(vals =~= seq![vals[0]] + rest_v);
        assert(seq![vals[0]].to_multiset() =~= Multiset::<u64>::empty().insert(vals[0])) by {
            assert(seq![vals[0]] =~= Seq::<u64>::empty().push(vals[0]));
        }
        if keys[0] % 2 == 1 {
            assert(sf =~= sf1);
            assert(st =~= seq![vals[0]] + st1);
            assert((sf1 + (seq![vals[0]] + st1)).to_multiset() =~= vals.to_multiset());
            assert(partitioned(vals, keys).to_multiset() =~= vals.to_multiset());
        } else {
            assert(sf =~= seq![vals[0]] + sf1);
            assert(st =~= st1);
            assert(((seq![vals[0]] + sf1) + st1).to_multiset() =~= vals.to_multiset());
            assert(partitioned(vals, keys).to_multiset() =~= vals.to_multiset());
        }
    }
}

/// Appending element `j` to the taken prefix adds its parity to the count.
proof fn lemma_count_odd_take_one_more(keys: Seq<u64>, j: int)
    requires
        0 <= j < keys.len(),
    ensures
        count_odd(keys.take(j + 1)) == count_odd(keys.take(j)) + (if keys[j] % 2 == 1 {
            1nat
        } else {
            0nat
        }),
{
    lemma_count_odd_split(keys.take(j + 1), j);
    assert(keys.take(j + 1).take(j) =~= keys.take(j));
    assert(keys.take(j + 1).skip(j) =~= seq![keys[j]]);
    assert(count_odd(seq![keys[j]]) == (if keys[j] % 2 == 1 {
        1nat
    } else {
        0nat
    })) by {
        assert(seq![keys[j]].skip(1) =~= Seq::<u64>::empty());
        assert(count_odd(Seq::<u64>::empty()) == 0);
    }
}

/// At most every key is odd.
proof fn lemma_count_odd_le_len(keys: Seq<u64>)
    ensures
        count_odd(keys) <= keys.len(),
    decreases keys.len(),
{
    if keys.len() > 0 {
        lemma_count_odd_le_len(keys.skip(1));
    }
}

/// `count_odd` decomposes at the head.
proof fn lemma_count_odd_head(keys: Seq<u64>)
    requires
        keys.len() > 0,
    ensures
        count_odd(keys) == (if keys[0] % 2 == 1 {
            1nat
        } else {
            0nat
        }) + count_odd(keys.skip(1)),
{
}

} // verus!
