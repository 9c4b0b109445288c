//! The cipher protocol: format-preserving encryption of symbol
//! sequences by keyed random walks.  Each position is walked under a
//! keystream derived from the key and a per-position IV built from the
//! tweak, all other positions' current values, the position index and a
//! pass tag; two forward passes (tags `a` then `s`) diffuse every
//! input symbol into every output symbol.  Decryption replays the
//! passes and positions in mirrored order with backward walks.

use crate::graph::walker::{tables_wf, walk_bwd, walk_fwd, Walker};
use crate::prng::{keystream_byte, CipherKind, Prng};
use vstd::prelude::*;

verus! {

/// The four bytes of a symbol, least significant first.
pub open spec fn le4(x: u32) -> Seq<u8> {
    seq![
        (x % 256) as u8,
        ((x / 256) % 256) as u8,
        ((x / 65536) % 256) as u8,
        ((x / 16777216) % 256) as u8,
    ]
}

/// All symbols of the sequence as bytes, in order.
pub open spec fn le4_concat(s: Seq<u32>) -> Seq<u8>
    decreases s.len(),
{
    if s.len() == 0 {
        Seq::empty()
    } else {
        le4_concat(s.drop_last()) + le4(s.last())
    }
}

/// Four bytes for every symbol.
pub proof fn lemma_le4_concat_len(s: Seq<u32>)
    ensures
        le4_concat(s).len() == 4 * s.len(),
    decreases s.len(),
{
    if s.len() > 0 {
        lemma_le4_concat_len(s.drop_last());
    }
}

/// The IV for one position: the tweak, every other symbol of the
/// current state as raw bytes in order, the position index as four
/// bytes in the slot left over, and the pass tag as the final byte.
pub open spec fn iv_of(tweak: Seq<u8>, data: Seq<u32>, i: int, tag: u8) -> Seq<u8> {
    tweak + le4_concat(data.remove(i)) + le4(i as u32) + seq![tag]
}

/// The first `len` bytes of the GCM keystream under `key` and `iv`.
pub open spec fn keystream(key: Seq<u8>, iv: Seq<u8>, len: nat) -> Seq<u8> {
    Seq::new(len, |b: int| keystream_byte(true, key, iv, b as nat))
}

/// How many keystream bytes one walk consumes.
pub open spec fn walk_buf_len(wl: nat, bits: nat) -> nat {
    wl * bits / 8 + 1
}

/// One position encrypted: the symbol at `i` replaced by the end of
/// its forward walk under the keystream of its IV.
pub open spec fn enc_step(
    ftab: Seq<Seq<u64>>,
    bits: nat,
    key: Seq<u8>,
    wl: nat,
    tweak: Seq<u8>,
    s: Seq<u32>,
    i: int,
    tag: u8,
) -> Seq<u32> {
    let ks = keystream(key, iv_of(tweak, s, i, tag), walk_buf_len(wl, bits));
    s.update(i, walk_fwd(ftab, bits, s[i] as nat, wl, ks) as u32)
}

/// One whole pass: positions `0 .. upto` encrypted in forward order.
pub open spec fn enc_pass(
    ftab: Seq<Seq<u64>>,
    bits: nat,
    key: Seq<u8>,
    wl: nat,
    tweak: Seq<u8>,
    s: Seq<u32>,
    tag: u8,
    upto: int,
) -> Seq<u32>
    decreases upto,
{
    if upto <= 0 {
        s
    } else {
        enc_step(
            ftab,
            bits,
            key,
            wl,
            tweak,
            enc_pass(ftab, bits, key, wl, tweak, s, tag, upto - 1),
            upto - 1,
            tag,
        )
    }
}

/// The whole encryption: the empty message stays empty, anything else
/// goes through the `a` pass and then the `s` pass.
pub open spec fn encrypt_spec(
    ftab: Seq<Seq<u64>>,
    bits: nat,
    key: Seq<u8>,
    wl: nat,
    tweak: Seq<u8>,
    msg: Seq<u32>,
) -> Seq<u32> {
    if msg.len() == 0 {
        msg
    } else {
        let len = msg.len() as int;
        enc_pass(
            ftab,
            bits,
            key,
            wl,
            tweak,
            enc_pass(ftab, bits, key, wl, tweak, msg, 97u8, len),
            115u8,
            len,
        )
    }
}

/// One position decrypted: the symbol at `i` replaced by the end of
/// its backward walk under the keystream of its IV.
pub open spec fn dec_step(
    btab: Seq<Seq<u64>>,
    bits: nat,
    key: Seq<u8>,
    wl: nat,
    tweak: Seq<u8>,
    s: Seq<u32>,
    i: int,
    tag: u8,
) -> Seq<u32> {
    let ks = keystream(key, iv_of(tweak, s, i, tag), walk_buf_len(wl, bits));
    s.update(i, walk_bwd(btab, bits, s[i] as nat, wl, ks) as u32)
}

/// One whole decryption pass: the `count` highest positions decrypted
/// in descending order, `s.len() - 1` first.
pub open spec fn dec_pass(
    btab: Seq<Seq<u64>>,
    bits: nat,
    key: Seq<u8>,
    wl: nat,
    tweak: Seq<u8>,
    s: Seq<u32>,
    tag: u8,
    count: int,
) -> Seq<u32>
    decreases count,
{
    if count <= 0 {
        s
    } else {
        dec_step(
            btab,
            bits,
            key,
            wl,
            tweak,
            dec_pass(btab, bits, key, wl, tweak, s, tag, count - 1),
            s.len() - count,
            tag,
        )
    }
}

/// The whole decryption: the exact mirror of encryption, pass order
/// and position order both reversed.
pub open spec fn decrypt_spec(
    btab: Seq<Seq<u64>>,
    bits: nat,
    key: Seq<u8>,
    wl: nat,
    tweak: Seq<u8>,
    crypt: Seq<u32>,
) -> Seq<u32> {
    if crypt.len() == 0 {
        crypt
    } else {
        let len = crypt.len() as int;
        dec_pass(
            btab,
            bits,
            key,
            wl,
            tweak,
            dec_pass(btab, bits, key, wl, tweak, crypt, 115u8, len),
            97u8,
            len,
        )
    }
}

/// Every symbol lies in the walker's domain.
pub open spec fn symbols_in(s: Seq<u32>, n: nat) -> bool {
    forall|k: int| 0 <= k < s.len() ==> (#[trigger] s[k] as nat) < n
}

/// Replacing position `i` does not change the sequence with `i`
/// removed, so the IV of position `i` is unchanged as well.
proof fn lemma_update_remove(s: Seq<u32>, i: int, y: u32)
    requires
        0 <= i < s.len(),
    ensures
        s.update(i, y).remove(i) == s.remove(i),
{
    assert(s.update(i, y).remove(i) =~= s.remove(i));
}

/// An encryption pass keeps the length and the domain of the state,
/// and leaves positions at and above `upto` untouched.
proof fn lemma_enc_pass_shape(
    ftab: Seq<Seq<u64>>,
    btab: Seq<Seq<u64>>,
    bits: nat,
    n: nat,
    key: Seq<u8>,
    wl: nat,
    tweak: Seq<u8>,
    s: Seq<u32>,
    tag: u8,
    upto: int,
)
    requires
        tables_wf(ftab, btab, bits, n),
        symbols_in(s, n),
        upto <= s.len(),
    ensures
        enc_pass(ftab, bits, key, wl, tweak, s, tag, upto).len() == s.len(),
        symbols_in(enc_pass(ftab, bits, key, wl, tweak, s, tag, upto), n),
        forall|k: int| upto <= k < s.len() ==> enc_pass(ftab, bits, key, wl, tweak, s, tag, upto)[k]
            == s[k],
    decreases upto,
{
    if upto > 0 {
        lemma_enc_pass_shape(ftab, btab, bits, n, key, wl, tweak, s, tag, upto - 1);
        let t = enc_pass(ftab, bits, key, wl, tweak, s, tag, upto - 1);
        let i = upto - 1;
        let ks = keystream(key, iv_of(tweak, t, i, tag), walk_buf_len(wl, bits));
        crate::graph::walker::lemma_walk_round_trip(ftab, btab, bits, n, t[i] as nat, wl, ks);
    }
}

/// The decryption pass undoes the encryption pass of the same tag,
/// step by step: after undoing the top `k` positions the state is
/// exactly what the encryption pass had built after `len - k`
/// positions.
proof fn lemma_pass_round_trip(
    ftab: Seq<Seq<u64>>,
    btab: Seq<Seq<u64>>,
    bits: nat,
    n: nat,
    key: Seq<u8>,
    wl: nat,
    tweak: Seq<u8>,
    s: Seq<u32>,
    tag: u8,
    k: int,
)
    requires
        tables_wf(ftab, btab, bits, n),
        symbols_in(s, n),
        0 <= k <= s.len(),
    ensures
        dec_pass(
            btab,
            bits,
            key,
            wl,
            tweak,
            enc_pass(ftab, bits, key, wl, tweak, s, tag, s.len() as int),
            tag,
            k,
        ) == enc_pass(ftab, bits, key, wl, tweak, s, tag, s.len() - k),
    decreases k,
{
    let len = s.len() as int;
    let e = enc_pass(ftab, bits, key, wl, tweak, s, tag, len);
    lemma_enc_pass_shape(ftab, btab, bits, n, key, wl, tweak, s, tag, len);
    if k > 0 {
        lemma_pass_round_trip(ftab, btab, bits, n, key, wl, tweak, s, tag, k - 1);
        let i = len - k;
        let t = enc_pass(ftab, bits, key, wl, tweak, s, tag, i);
        lemma_enc_pass_shape(ftab, btab, bits, n, key, wl, tweak, s, tag, i);
        // The encryption step at position i, seen from state t.
        let ks = keystream(key, iv_of(tweak, t, i, tag), walk_buf_len(wl, bits));
        let y = walk_fwd(ftab, bits, t[i] as nat, wl, ks) as u32;
        assert(enc_pass(ftab, bits, key, wl, tweak, s, tag, i + 1) == t.update(i, y));
        // e agrees with t.update(i, y) on position i: positions above i
        // are untouched by later steps of the pass.
        assert(dec_pass(btab, bits, key, wl, tweak, e, tag, k - 1) == enc_pass(
            ftab,
            bits,
            key,
            wl,
            tweak,
            s,
            tag,
            i + 1,
        ));
        let u = t.update(i, y);
        // Undoing position i: its IV is the same because only position
        // i itself differs between u and t.
        lemma_update_remove(t, i, y);
        assert(iv_of(tweak, u, i, tag) == iv_of(tweak, t, i, tag));
        crate::graph::walker::lemma_walk_round_trip(ftab, btab, bits, n, t[i] as nat, wl, ks);
        assert(walk_bwd(btab, bits, y as nat, wl, ks) == t[i] as nat);
        assert(dec_step(btab, bits, key, wl, tweak, u, i, tag) == u.update(i, t[i])) by {
            assert(u[i] == y);
        }
        assert(u.update(i, t[i]) =~= t);
        assert(e.len() - k == i);
    }
}

/// Round-trip law: decrypting an encryption returns the message.  For
/// any walker tables, key, walk length, tweak and message with all
/// symbols in the walker's domain, both passes are undone exactly.
pub proof fn lemma_encrypt_decrypt(
    ftab: Seq<Seq<u64>>,
    btab: Seq<Seq<u64>>,
    bits: nat,
    n: nat,
    key: Seq<u8>,
    wl: nat,
    tweak: Seq<u8>,
    msg: Seq<u32>,
)
    requires
        tables_wf(ftab, btab, bits, n),
        symbols_in(msg, n),
    ensures
        decrypt_spec(
            btab,
            bits,
            key,
            wl,
            tweak,
            encrypt_spec(ftab, bits, key, wl, tweak, msg),
        ) == msg,
{
    if msg.len() > 0 {
        let len = msg.len() as int;
        let a = enc_pass(ftab, bits, key, wl, tweak, msg, 97u8, len);
        lemma_enc_pass_shape(ftab, btab, bits, n, key, wl, tweak, msg, 97u8, len);
        let c = enc_pass(ftab, bits, key, wl, tweak, a, 115u8, len);
        lemma_enc_pass_shape(ftab, btab, bits, n, key, wl, tweak, a, 115u8, len);
        lemma_pass_round_trip(ftab, btab, bits, n, key, wl, tweak, a, 115u8, len);
        assert(dec_pass(btab, bits, key, wl, tweak, c, 115u8, len) == a);
        lemma_pass_round_trip(ftab, btab, bits, n, key, wl, tweak, msg, 97u8, len);
        assert(dec_pass(btab, bits, key, wl, tweak, a, 97u8, len) == msg);
    }
}

/// Determinism: the ciphertext is a function of the walker tables, the
/// key, the walk length, the tweak and the message alone — two calls
/// on identical inputs give identical output.
pub proof fn lemma_encrypt_deterministic(
    ftab: Seq<Seq<u64>>,
    bits: nat,
    key: Seq<u8>,
    wl: nat,
    tweak: Seq<u8>,
    msg1: Seq<u32>,
    msg2: Seq<u32>,
)
    requires
        msg1 == msg2,
    ensures
        encrypt_spec(ftab, bits, key, wl, tweak, msg1) == encrypt_spec(
            ftab,
            bits,
            key,
            wl,
            tweak,
            msg2,
        ),
{
}

/// Round-trip law at the cipher level: for any cipher over well-formed
/// walker tables, any tweak, and any message with all symbols in the
/// walker's domain, decrypting the encryption gives back the message.
/// `encrypt` and `decrypt` return exactly these spec values, so the law
/// carries over to the executable cipher.
pub proof fn lemma_cipher_round_trip<W: Walker>(c: Grafpe<W>, tweak: Seq<u8>, msg: Seq<u32>)
    requires
        c.wf(),
        symbols_in(msg, c.walker().domain()),
    ensures
        decrypt_spec(
            c.walker().btab(),
            c.walker().bits(),
            c.key_view(),
            c.wl(),
            tweak,
            encrypt_spec(c.walker().ftab(), c.walker().bits(), c.key_view(), c.wl(), tweak, msg),
        ) == msg,
{
    lemma_encrypt_decrypt(
        c.walker().ftab(),
        c.walker().btab(),
        c.walker().bits(),
        c.walker().domain(),
        c.key_view(),
        c.wl(),
        tweak,
        msg,
    );
}

/// The format-preserving cipher: a key, a bound walker and the number
/// of walk steps per position.  Immutable and reusable across calls.
pub struct Grafpe<W: Walker> {
    walker: W,
    key: Vec<u8>,
    walk_length: usize,
}

impl<W: Walker> Grafpe<W> {
    /// The walker the cipher walks with.
    pub closed spec fn walker(self) -> W {
        self.walker
    }

    /// The cipher key.
    pub closed spec fn key_view(self) -> Seq<u8> {
        self.key@
    }

    /// Steps per random walk.
    pub closed spec fn wl(self) -> nat {
        self.walk_length as nat
    }

    /// What every encryption and decryption relies on: a well-formed
    /// walker, a 16-byte key, sizes on which the per-call buffer
    /// arithmetic cannot overflow, and a walk short enough that one
    /// position's keystream stays below GCM's block cap.
    pub open spec fn wf(self) -> bool {
        &&& tables_wf(
            self.walker().ftab(),
            self.walker().btab(),
            self.walker().bits(),
            self.walker().domain(),
        )
        &&& self.key_view().len() == 16
        &&& self.wl() * self.walker().bits() <= usize::MAX - 8
        &&& crate::prng::blocks_for(walk_buf_len(self.wl(), self.walker().bits()))
            <= crate::prng::GCM_BLOCKS_MAX as nat
    }

    pub fn new(walker: W, key: &[u8], walk_length: usize) -> (c: Grafpe<W>)
        requires
            tables_wf(walker.ftab(), walker.btab(), walker.bits(), walker.domain()),
            key@.len() == 16,
            walk_length * walker.bits() <= usize::MAX - 8,
            crate::prng::blocks_for(walk_buf_len(walk_length as nat, walker.bits()))
                <= crate::prng::GCM_BLOCKS_MAX as nat,
        ensures
            c.wf(),
            c.walker() == walker,
            c.key_view() == key@,
            c.wl() == walk_length,
    {
        let mut key_copy: Vec<u8> = Vec::with_capacity(key.len());
        let mut i: usize = 0;
        while i < key.len()
            invariant
                i <= key@.len(),
                key_copy@ =~= key@.take(i as int),
            decreases key@.len() - i,
        {
            key_copy.push(key[i]);
            i = i + 1;
        }
        proof {
            assert(key_copy@ =~= key@);
        }
        Grafpe { walker, key: key_copy, walk_length }
    }

    /// Appends the four bytes of a symbol, least significant first.
    fn push_le4(iv: &mut Vec<u8>, v: u32)
        ensures
            final(iv)@ == old(iv)@ + le4(v),
    {
        iv.push((v % 256) as u8);
        iv.push(((v / 256) % 256) as u8);
        iv.push(((v / 65536) % 256) as u8);
        iv.push(((v / 16777216) % 256) as u8);
        proof {
            assert(iv@ =~= old(iv)@ + le4(v));
        }
    }

    /// Rebuilds the IV for one position: tweak, all other symbols of
    /// the current state, the position index, the pass tag.
    fn generate_iv_gcm(tweak: &[u8], data: &Vec<u32>, index: usize, tag: u8, iv: &mut Vec<u8>)
        requires
            index < data@.len(),
            data@.len() <= 0x1fff_ffff,
        ensures
            final(iv)@ == iv_of(tweak@, data@, index as int, tag),
    {
        iv.clear();
        let mut t: usize = 0;
        while t < tweak.len()
            invariant
                t <= tweak@.len(),
                iv@ =~= tweak@.take(t as int),
            decreases tweak@.len() - t,
        {
            iv.push(tweak[t]);
            t = t + 1;
        }
        proof {
            assert(iv@ =~= tweak@);
        }

        let n = data.len();
        let ghost rest = data@.remove(index as int);
        let mut k: usize = 0;
        let mut pushed: usize = 0;
        while k < n
            invariant
                k <= n,
                n == data@.len(),
                index < n,
                rest == data@.remove(index as int),
                pushed == if k <= index {
                    k as int
                } else {
                    k - 1
                },
                iv@ =~= tweak@ + le4_concat(rest.take(pushed as int)),
            decreases n - k,
        {
            if k != index {
                proof {
                    if k < index {
                        assert(rest[pushed as int] == data@[k as int]);
                    } else {
                        assert(rest[pushed as int] == data@[k as int]);
                    }
                    assert(rest.take(pushed + 1).drop_last() =~= rest.take(pushed as int));
                    assert(rest.take(pushed + 1).last() == rest[pushed as int]);
                }
                Grafpe::<W>::push_le4(iv, data[k]);
                pushed = pushed + 1;
            }
            k = k + 1;
        }
        proof {
            assert(rest.take(pushed as int) =~= rest);
        }
        Grafpe::<W>::push_le4(iv, index as u32);
        iv.push(tag);
        proof {
            assert(iv@ =~= iv_of(tweak@, data@, index as int, tag));
        }
    }

    /// One forward pass over all positions with the given tag.
    fn encrypt_pass(
        &self,
        data: &mut Vec<u32>,
        iv: &mut Vec<u8>,
        random: &mut Vec<u8>,
        tweak: &[u8],
        tag: u8,
    )
        requires
            self.wf(),
            symbols_in(old(data)@, self.walker().domain()),
            old(data)@.len() >= 1,
            tweak@.len() + 4 * old(data)@.len() + 1 <= 0x7fff_ffff,
            old(random)@.len() == walk_buf_len(self.wl(), self.walker().bits()),
        ensures
            final(data)@ == enc_pass(
                self.walker().ftab(),
                self.walker().bits(),
                self.key_view(),
                self.wl(),
                tweak@,
                old(data)@,
                tag,
                old(data)@.len() as int,
            ),
            final(random)@.len() == old(random)@.len(),
    {
        let ghost orig = data@;
        let ghost ftab = self.walker().ftab();
        let ghost btab = self.walker().btab();
        let ghost bits = self.walker().bits();
        let ghost n = self.walker().domain();
        let ghost key = self.key@;
        let ghost wlen = self.wl();
        let len = data.len();
        let mut i: usize = 0;
        while i < len
            invariant
                i <= len,
                len == data@.len(),
                len == orig.len(),
                self.wf(),
                ftab == self.walker().ftab(),
                btab == self.walker().btab(),
                bits == self.walker().bits(),
                n == self.walker().domain(),
                key == self.key_view(),
                wlen == self.wl(),
                tweak@.len() + 4 * len + 1 <= 0x7fff_ffff,
                random@.len() == walk_buf_len(wlen, bits),
                symbols_in(orig, n),
                data@ == enc_pass(ftab, bits, key, wlen, tweak@, orig, tag, i as int),
                symbols_in(data@, n),
            decreases len - i,
        {
            Grafpe::<W>::generate_iv_gcm(tweak, data, i, tag, iv);
            proof {
                lemma_le4_concat_len(data@.remove(i as int));
            }
            let mut prng = Prng::from_cipher(CipherKind::Gcm, self.key.as_slice(), iv.as_slice());
            prng.feed_bytes(random);
            proof {
                assert(random@ =~= keystream(
                    key,
                    iv_of(tweak@, data@, i as int, tag),
                    walk_buf_len(wlen, bits),
                ));
                assert(8 * random@.len() >= wlen * bits);
            }
            let stepped = self.walker.go(data[i], self.walk_length, random.as_slice());
            data.set(i, stepped);
            proof {
                assert(data@ == enc_pass(ftab, bits, key, wlen, tweak@, orig, tag, i + 1));
            }
            i = i + 1;
        }
    }

    /// One backward pass over all positions, highest first, with the
    /// given tag.
    fn decrypt_pass(
        &self,
        data: &mut Vec<u32>,
        iv: &mut Vec<u8>,
        random: &mut Vec<u8>,
        tweak: &[u8],
        tag: u8,
    )
        requires
            self.wf(),
            symbols_in(old(data)@, self.walker().domain()),
            old(data)@.len() >= 1,
            tweak@.len() + 4 * old(data)@.len() + 1 <= 0x7fff_ffff,
            old(random)@.len() == walk_buf_len(self.wl(), self.walker().bits()),
        ensures
            final(data)@ == dec_pass(
                self.walker().btab(),
                self.walker().bits(),
                self.key_view(),
                self.wl(),
                tweak@,
                old(data)@,
                tag,
                old(data)@.len() as int,
            ),
            final(random)@.len() == old(random)@.len(),
    {
        let ghost orig = data@;
        let ghost ftab = self.walker().ftab();
        let ghost btab = self.walker().btab();
        let ghost bits = self.walker().bits();
        let ghost n = self.walker().domain();
        let ghost key = self.key@;
        let ghost wlen = self.wl();
        let len = data.len();
        let mut i: usize = len;
        while i > 0
            invariant
                i <= len,
                len == data@.len(),
                len == orig.len(),
                self.wf(),
                ftab == self.walker().ftab(),
                btab == self.walker().btab(),
                bits == self.walker().bits(),
                n == self.walker().domain(),
                key == self.key_view(),
                wlen == self.wl(),
                tweak@.len() + 4 * len + 1 <= 0x7fff_ffff,
                random@.len() == walk_buf_len(wlen, bits),
                symbols_in(orig, n),
                data@ == dec_pass(btab, bits, key, wlen, tweak@, orig, tag, len - i),
                symbols_in(data@, n),
            decreases i,
        {
            let im = i - 1;
            Grafpe::<W>::generate_iv_gcm(tweak, data, im, tag, iv);
            proof {
                lemma_le4_concat_len(data@.remove(im as int));
            }
            let mut prng = Prng::from_cipher(CipherKind::Gcm, self.key.as_slice(), iv.as_slice());
            prng.feed_bytes(random);
            proof {
                assert(random@ =~= keystream(
                    key,
                    iv_of(tweak@, data@, im as int, tag),
                    walk_buf_len(wlen, bits),
                ));
                assert(8 * random@.len() >= wlen * bits);
            }
            let stepped = self.walker.go_back(data[im], self.walk_length, random.as_slice());
            data.set(im, stepped);
            proof {
                assert(data@ == dec_pass(btab, bits, key, wlen, tweak@, orig, tag, len - im));
            }
            i = im;
        }
    }

    /// A working copy of the message and the per-call IV and keystream
    /// buffers, sized once for the whole call.
    fn new_context(&self, msg: &[u32], tweak: &[u8]) -> (r: (Vec<u32>, Vec<u8>, Vec<u8>))
        requires
            self.wf(),
            tweak@.len() + 4 * msg@.len() + 1 <= 0x7fff_ffff,
        ensures
            r.0@ == msg@,
            r.1@.len() == tweak@.len() + 4 * msg@.len() + 1,
            r.2@.len() == walk_buf_len(self.wl(), self.walker().bits()),
    {
        let mut data: Vec<u32> = Vec::with_capacity(msg.len());
        let mut i: usize = 0;
        while i < msg.len()
            invariant
                i <= msg@.len(),
                data@ =~= msg@.take(i as int),
            decreases msg@.len() - i,
        {
            data.push(msg[i]);
            i = i + 1;
        }
        proof {
            assert(data@ =~= msg@);
        }

        let iv_len = tweak.len() + msg.len() * 4 + 1;
        let mut iv: Vec<u8> = Vec::with_capacity(iv_len);
        let mut j: usize = 0;
        while j < iv_len
            invariant
                j <= iv_len,
                iv@.len() == j,
            decreases iv_len - j,
        {
            iv.push(0);
            j = j + 1;
        }

        let buf_len = self.walk_length * self.walker.bits_per_step() / 8 + 1;
        let mut random: Vec<u8> = Vec::with_capacity(buf_len);
        let mut j: usize = 0;
        while j < buf_len
            invariant
                j <= buf_len,
                random@.len() == j,
            decreases buf_len - j,
        {
            random.push(0);
            j = j + 1;
        }
        (data, iv, random)
    }

    /// Encrypts a sequence of symbols from `[0, domain)` under the
    /// tweak: two forward passes of keyed random walks, tags `a` then
    /// `s`.  The empty message encrypts to the empty sequence.
    pub fn encrypt(&self, msg: &[u32], tweak: &[u8]) -> (r: Vec<u32>)
        requires
            self.wf(),
            symbols_in(msg@, self.walker().domain()),
            tweak@.len() + 4 * msg@.len() + 1 <= 0x7fff_ffff,
        ensures
            r@ == encrypt_spec(
                self.walker().ftab(),
                self.walker().bits(),
                self.key_view(),
                self.wl(),
                tweak@,
                msg@,
            ),
            r@.len() == msg@.len(),
            symbols_in(r@, self.walker().domain()),
            msg@.len() == 0 ==> r@ == Seq::<u32>::empty(),
    {
        if msg.is_empty() {
            return Vec::new();
        }

        let (mut data, mut iv, mut random) = self.new_context(msg, tweak);

        self.encrypt_pass(&mut data, &mut iv, &mut random, tweak, 97);
        proof {
            lemma_enc_pass_shape(
                self.walker().ftab(),
                self.walker().btab(),
                self.walker().bits(),
                self.walker().domain(),
                self.key_view(),
                self.wl(),
                tweak@,
                msg@,
                97u8,
                msg@.len() as int,
            );
        }
        self.encrypt_pass(&mut data, &mut iv, &mut random, tweak, 115);
        proof {
            lemma_enc_pass_shape(
                self.walker().ftab(),
                self.walker().btab(),
                self.walker().bits(),
                self.walker().domain(),
                self.key_view(),
                self.wl(),
                tweak@,
                enc_pass(
                    self.walker().ftab(),
                    self.walker().bits(),
                    self.key_view(),
                    self.wl(),
                    tweak@,
                    msg@,
                    97u8,
                    msg@.len() as int,
                ),
                115u8,
                msg@.len() as int,
            );
        }
        data
    }

    /// Decrypts a sequence of symbols: the exact mirror of `encrypt`,
    /// passes tagged `s` then `a`, positions walked backward from the
    /// highest index down.  The empty sequence decrypts to itself.
    pub fn decrypt(&self, crypt: &[u32], tweak: &[u8]) -> (r: Vec<u32>)
        requires
            self.wf(),
            symbols_in(crypt@, self.walker().domain()),
            tweak@.len() + 4 * crypt@.len() + 1 <= 0x7fff_ffff,
        ensures
            r@ == decrypt_spec(
                self.walker().btab(),
                self.walker().bits(),
                self.key_view(),
                self.wl(),
                tweak@,
                crypt@,
            ),
            r@.len() == crypt@.len(),
            symbols_in(r@, self.walker().domain()),
            crypt@.len() == 0 ==> r@ == Seq::<u32>::empty(),
    {
        if crypt.is_empty() {
            return Vec::new();
        }

        let (mut data, mut iv, mut random) = self.new_context(crypt, tweak);

        self.decrypt_pass(&mut data, &mut iv, &mut random, tweak, 115);
        proof {
            lemma_dec_pass_shape(
                self.walker().ftab(),
                self.walker().btab(),
                self.walker().bits(),
                self.walker().domain(),
                self.key_view(),
                self.wl(),
                tweak@,
                crypt@,
                115u8,
                crypt@.len() as int,
            );
        }
        self.decrypt_pass(&mut data, &mut iv, &mut random, tweak, 97);
        proof {
            lemma_dec_pass_shape(
                self.walker().ftab(),
                self.walker().btab(),
                self.walker().bits(),
                self.walker().domain(),
                self.key_view(),
                self.wl(),
                tweak@,
                dec_pass(
                    self.walker().btab(),
                    self.walker().bits(),
                    self.key_view(),
                    self.wl(),
                    tweak@,
                    crypt@,
                    115u8,
                    crypt@.len() as int,
                ),
                97u8,
                crypt@.len() as int,
            );
        }
        data
    }
}

/// A decryption pass keeps the length and the domain of the state.
proof fn lemma_dec_pass_shape(
    ftab: Seq<Seq<u64>>,
    btab: Seq<Seq<u64>>,
    bits: nat,
    n: nat,
    key: Seq<u8>,
    wl: nat,
    tweak: Seq<u8>,
    s: Seq<u32>,
    tag: u8,
    count: int,
)
    requires
        tables_wf(ftab, btab, bits, n),
        symbols_in(s, n),
        count <= s.len(),
    ensures
        dec_pass(btab, bits, key, wl, tweak, s, tag, count).len() == s.len(),
        symbols_in(dec_pass(btab, bits, key, wl, tweak, s, tag, count), n),
    decreases count,
{
    if count > 0 {
        lemma_dec_pass_shape(ftab, btab, bits, n, key, wl, tweak, s, tag, count - 1);
        let t = dec_pass(btab, bits, key, wl, tweak, s, tag, count - 1);
        let i = s.len() - count;
        let ks = keystream(key, iv_of(tweak, t, i, tag), walk_buf_len(wl, bits));
        crate::graph::walker::lemma_walk_bwd_domain(ftab, btab, bits, n, t[i] as nat, wl, ks);
    }
}

} // verus!
