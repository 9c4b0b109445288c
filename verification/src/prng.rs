//! Pseudorandom bit and byte source: a keyed AES-128 block cipher run as
//! a keystream generator.  Encrypting an all-zero block repeatedly yields
//! the keystream block by block; bits are handed out least-significant
//! bit first within each byte, bytes in order.
//!
//! The keystream itself is a function of the cipher kind, the key and the
//! IV alone; it is named by the uninterpreted function `keystream_block`
//! and everything downstream is verified against that name.

use openssl::symm::{Cipher, Crypter, Mode};
use vstd::prelude::*;

verus! {

/// The outside type `openssl::symm::Crypter`, opaque to verification; it
/// carries the keyed cipher state between keystream fetches.
#[verifier::external_type_specification]
#[verifier::external_body]
pub struct ExCrypter(Crypter);

/// The `k`-th 16-byte keystream block (`k` counted from 0) produced by
/// AES-128 under `key` and `iv`, in counter mode when `gcm` is false and
/// in Galois/counter mode when `gcm` is true.  The block depends on those
/// arguments alone.
pub uninterp spec fn keystream_block(gcm: bool, key: Seq<u8>, iv: Seq<u8>, k: nat) -> Seq<u8>;

/// Byte `i` of the keystream: byte `i % 16` of block `i / 16`.
pub open spec fn keystream_byte(gcm: bool, key: Seq<u8>, iv: Seq<u8>, i: nat) -> u8 {
    keystream_block(gcm, key, iv, i / 16)[(i % 16) as int]
}

/// Bit `b` of the keystream, least-significant bit of each byte first.
pub open spec fn keystream_bit(gcm: bool, key: Seq<u8>, iv: Seq<u8>, b: nat) -> bool {
    (keystream_byte(gcm, key, iv, b / 8) >> ((b % 8) as u8)) & 1 == 1
}

/// The most keystream blocks OpenSSL's GCM implementation hands out
/// under one key and IV: its 64 GiB message cap (2^36 - 32 bytes)
/// makes the update that would pass this count fail instead.  Counter
/// mode has no such horizon.
pub const GCM_BLOCKS_MAX: u64 = 0xffff_fffe;

/// Which AES-128 mode drives the keystream.
#[derive(Debug, Clone, Copy, PartialEq, Eq, Structural)]
pub enum CipherKind {
    Ctr,
    Gcm,
}

/// How many cipher blocks one `feed_bytes` call of the given length
/// consumes: a full block for every started 16 bytes, and one block even
/// for an empty buffer.
pub open spec fn blocks_for(len: nat) -> nat {
    if len == 0 {
        1
    } else {
        ((len - 1) / 16 + 1) as nat
    }
}

pub struct Prng {
    buffer: Vec<u8>,
    index: usize,
    crypter: Crypter,
    gcm: Ghost<bool>,
    key: Ghost<Seq<u8>>,
    iv: Ghost<Seq<u8>>,
    /// Number of keystream blocks drawn from the cipher so far.
    blocks: Ghost<nat>,
    /// Which keystream block the bit buffer currently holds.
    buffered: Ghost<nat>,
}

impl Prng {
    #[verifier::type_invariant]
    spec fn inv(self) -> bool {
        &&& self.buffer@.len() == 16
        &&& self.index <= 128
        &&& (self.index < 128 ==> {
            &&& self.buffered@ < self.blocks@
            &&& self.buffer@ == keystream_block(
                self.gcm@,
                self.key@,
                self.iv@,
                self.buffered@,
            )
        })
    }

    /// True iff the keystream runs in Galois/counter mode.
    pub closed spec fn is_gcm(self) -> bool {
        self.gcm@
    }

    /// The key the cipher was initialised with.
    pub closed spec fn key(self) -> Seq<u8> {
        self.key@
    }

    /// The IV the cipher was initialised with.
    pub closed spec fn iv(self) -> Seq<u8> {
        self.iv@
    }

    /// Number of keystream blocks drawn so far.
    pub closed spec fn blocks(self) -> nat {
        self.blocks@
    }

    /// Index of the block the bit buffer holds, and how many of its bits
    /// are already handed out.
    pub closed spec fn buffered(self) -> nat {
        self.buffered@
    }

    pub closed spec fn bit_index(self) -> nat {
        self.index as nat
    }

    /// The bit reader has consumed every block drawn so far: no
    /// `feed_bytes` call has skipped it ahead.
    pub open spec fn streaming(self) -> bool {
        self.bit_index() == 128 || self.buffered() + 1 == self.blocks()
    }

    /// Position of the next bit `fetch_bit` will return.
    pub open spec fn stream_pos(self) -> nat {
        if self.bit_index() == 128 {
            self.blocks() * 128
        } else {
            self.buffered() * 128 + self.bit_index()
        }
    }

    /// Relies on `openssl::symm::Crypter::new` with
    /// `Cipher::aes_128_ctr` in encrypt mode: a 16-byte key and a 16-byte
    /// IV are accepted, and encrypting zero blocks on the returned
    /// crypter then yields the AES-128-CTR keystream of that key and IV,
    /// block by block.
    #[verifier::external_body]
    fn new_ctr_crypter(key: &[u8], iv: &[u8]) -> Crypter
        requires
            key@.len() == 16,
            iv@.len() == 16,
    {
        Crypter::new(Cipher::aes_128_ctr(), Mode::Encrypt, key, Some(iv)).unwrap()
    }

    /// Relies on `openssl::symm::Crypter::new` with
    /// `Cipher::aes_128_gcm` in encrypt mode: a 16-byte key and an IV of
    /// any positive length up to `c_int::MAX` are accepted (the IV
    /// length is set on the cipher context), and encrypting zero blocks
    /// on the returned crypter then yields the GCM keystream of that key
    /// and IV, block by block.
    #[verifier::external_body]
    fn new_gcm_crypter(key: &[u8], iv: &[u8]) -> Crypter
        requires
            key@.len() == 16,
            1 <= iv@.len() <= 0x7fff_ffff,
    {
        Crypter::new(Cipher::aes_128_gcm(), Mode::Encrypt, key, Some(iv)).unwrap()
    }

    /// A keystream source over the given cipher kind, key and IV.  The
    /// key is 16 bytes; counter mode takes a 16-byte IV and GCM any
    /// positive IV length the cipher context accepts.
    pub fn from_cipher(kind: CipherKind, key: &[u8], iv: &[u8]) -> (p: Prng)
        requires
            key@.len() == 16,
            kind == CipherKind::Ctr ==> iv@.len() == 16,
            kind == CipherKind::Gcm ==> 1 <= iv@.len() <= 0x7fff_ffff,
        ensures
            p.is_gcm() == (kind == CipherKind::Gcm),
            p.key() == key@,
            p.iv() == iv@,
            p.blocks() == 0,
            p.bit_index() == 128,
            p.streaming(),
            p.stream_pos() == 0,
    {
        let gcm = match kind {
            CipherKind::Ctr => false,
            CipherKind::Gcm => true,
        };
        let crypter = if gcm {
            Prng::new_gcm_crypter(key, iv)
        } else {
            Prng::new_ctr_crypter(key, iv)
        };
        let mut buffer: Vec<u8> = Vec::with_capacity(16);
        let mut i: usize = 0;
        while i < 16
            invariant
                i <= 16,
                buffer@.len() == i,
            decreases 16 - i,
        {
            buffer.push(0);
            i = i + 1;
        }
        Prng {
            buffer,
            index: 128,
            crypter,
            gcm: Ghost(gcm),
            key: Ghost(key@),
            iv: Ghost(iv@),
            blocks: Ghost(0),
            buffered: Ghost(0),
        }
    }

    /// Relies on `openssl::symm::Crypter::update`: for the stream modes
    /// CTR and GCM, encrypting a 16-byte all-zero block writes the next
    /// 16 keystream bytes into an output buffer of at least that size.
    /// GCM refuses to go past its 64 GiB message cap, so the block
    /// count must stay below `GCM_BLOCKS_MAX` there.
    #[verifier::external_body]
    fn refill(&mut self)
        requires
            old(self).is_gcm() ==> old(self).blocks() < GCM_BLOCKS_MAX as nat,
        ensures
            final(self).is_gcm() == old(self).is_gcm(),
            final(self).key() == old(self).key(),
            final(self).iv() == old(self).iv(),
            final(self).blocks() == old(self).blocks() + 1,
            final(self).buffered() == old(self).blocks(),
            final(self).bit_index() == 0,
            final(self).buffer@ == keystream_block(
                old(self).is_gcm(),
                old(self).key(),
                old(self).iv(),
                old(self).blocks(),
            ),
            final(self).buffer@.len() == 16,
    {
        let zeros = [0u8; 16];
        self.crypter.update(&zeros, self.buffer.as_mut_slice()).unwrap();
        self.index = 0;
    }

    /// Relies on `openssl::symm::Crypter::update` exactly as `refill`
    /// does, but hands the keystream block out instead of buffering it;
    /// the bit buffer is left alone.  The same GCM cap applies.
    #[verifier::external_body]
    fn next_block(&mut self) -> (blk: Vec<u8>)
        requires
            old(self).is_gcm() ==> old(self).blocks() < GCM_BLOCKS_MAX as nat,
        ensures
            final(self).is_gcm() == old(self).is_gcm(),
            final(self).key() == old(self).key(),
            final(self).iv() == old(self).iv(),
            final(self).blocks() == old(self).blocks() + 1,
            final(self).buffered() == old(self).buffered(),
            final(self).bit_index() == old(self).bit_index(),
            final(self).buffer@ == old(self).buffer@,
            blk@ == keystream_block(
                old(self).is_gcm(),
                old(self).key(),
                old(self).iv(),
                old(self).blocks(),
            ),
            blk@.len() == 16,
    {
        let mut blk = vec![0u8; 16];
        let zeros = [0u8; 16];
        self.crypter.update(&zeros, blk.as_mut_slice()).unwrap();
        blk
    }

    /// The next pseudorandom bit, refilling the internal block buffer
    /// when its 128 bits are exhausted.  A GCM-driven source must stay
    /// below the mode's block cap, or the refill would be refused.
    pub fn fetch_bit(&mut self) -> (b: bool)
        requires
            old(self).is_gcm() ==> old(self).blocks() < GCM_BLOCKS_MAX as nat,
        ensures
            final(self).is_gcm() == old(self).is_gcm(),
            final(self).key() == old(self).key(),
            final(self).iv() == old(self).iv(),
            final(self).blocks() == if old(self).bit_index() == 128 {
                old(self).blocks() + 1
            } else {
                old(self).blocks()
            },
            final(self).buffered() == if old(self).bit_index() == 128 {
                old(self).blocks()
            } else {
                old(self).buffered()
            },
            final(self).bit_index() == if old(self).bit_index() == 128 {
                1nat
            } else {
                old(self).bit_index() + 1
            },
            b == keystream_bit(
                old(self).is_gcm(),
                old(self).key(),
                old(self).iv(),
                old(self).stream_pos(),
            ),
            old(self).streaming() ==> final(self).streaming() && final(self).stream_pos()
                == old(self).stream_pos() + 1,
    {
        proof {
            use_type_invariant(&*self);
        }
        if self.index == 128 {
            self.refill();
        }
        proof {
            use_type_invariant(&*self);
        }
        let byte = self.buffer[self.index / 8];
        let result = byte & (1u8 << (self.index % 8)) != 0;
        proof {
            let pos = self.buffered@ * 128 + self.index as nat;
            let k: u8 = (self.index % 8) as u8;
            lemma_block_bit(self.gcm@, self.key@, self.iv@, self.buffered@, self.index as nat);
            assert(byte == keystream_byte(self.gcm@, self.key@, self.iv@, pos / 8));
            assert((byte & (1u8 << k) != 0) == ((byte >> k) & 1 == 1)) by (bit_vector)
                requires
                    k < 8,
            ;
            assert((pos % 8) as u8 == k) by {
                lemma_pos_decompose(self.buffered@, self.index as nat);
            };
        }
        self.index = self.index + 1;
        result
    }

    /// Fills the whole buffer with pseudorandom bytes, drawing whole
    /// keystream blocks; the tail of a partial block is cut off.  The
    /// bytes continue the keystream right after the blocks already
    /// drawn; the internal bit buffer is not advanced.  A GCM-driven
    /// source must have room for the whole request below the mode's
    /// block cap.
    pub fn feed_bytes(&mut self, buffer: &mut Vec<u8>)
        requires
            old(self).is_gcm() ==> old(self).blocks() + blocks_for(old(buffer)@.len())
                <= GCM_BLOCKS_MAX as nat,
        ensures
            final(self).is_gcm() == old(self).is_gcm(),
            final(self).key() == old(self).key(),
            final(self).iv() == old(self).iv(),
            final(self).blocks() == old(self).blocks() + blocks_for(old(buffer)@.len()),
            final(self).buffered() == old(self).buffered(),
            final(self).bit_index() == old(self).bit_index(),
            final(buffer)@.len() == old(buffer)@.len(),
            forall|i: int| 0 <= i < old(buffer)@.len() ==> final(buffer)@[i] == keystream_byte(
                old(self).is_gcm(),
                old(self).key(),
                old(self).iv(),
                (old(self).blocks() * 16 + i) as nat,
            ),
    {
        proof {
            use_type_invariant(&*self);
        }
        let len = buffer.len();
        let ghost gcm = self.gcm@;
        let ghost key = self.key@;
        let ghost iv = self.iv@;
        let ghost blocks0 = self.blocks@;
        let mut copied: usize = 0;
        while len - copied > 16
            invariant
                copied <= len,
                len > 0 ==> copied < len,
                len == buffer@.len(),
                copied % 16 == 0,
                gcm ==> blocks0 + blocks_for(len as nat) <= GCM_BLOCKS_MAX as nat,
                self.gcm@ == gcm,
                self.key@ == key,
                self.iv@ == iv,
                self.blocks@ == blocks0 + copied / 16,
                self.buffered@ == old(self).buffered(),
                self.index == old(self).bit_index(),
                self.inv(),
                forall|i: int| 0 <= i < copied ==> buffer@[i] == keystream_byte(
                    gcm,
                    key,
                    iv,
                    (blocks0 * 16 + i) as nat,
                ),
            decreases len - copied,
        {
            proof {
                if gcm {
                    assert(copied / 16 + 1 <= (len - 1) / 16) by (nonlinear_arith)
                        requires
                            copied % 16 == 0,
                            copied + 16 < len,
                    ;
                }
            }
            let blk = self.next_block();
            let mut j: usize = 0;
            while j < 16
                invariant
                    j <= 16,
                    copied + 16 < len,
                    len == buffer@.len(),
                    blk@.len() == 16,
                    blk@ == keystream_block(gcm, key, iv, (blocks0 + copied / 16) as nat),
                    copied % 16 == 0,
                    forall|i: int| 0 <= i < copied + j ==> buffer@[i] == keystream_byte(
                        gcm,
                        key,
                        iv,
                        (blocks0 * 16 + i) as nat,
                    ),
                decreases 16 - j,
            {
                buffer.set(copied + j, blk[j]);
                proof {
                    lemma_byte_of_block(gcm, key, iv, blocks0, copied as nat, j as nat);
                }
                j = j + 1;
            }
            copied = copied + 16;
        }
        proof {
            if self.gcm@ {
                assert(self.blocks@ < blocks0 + blocks_for(len as nat)) by (nonlinear_arith)
                    requires
                        self.blocks@ == blocks0 + copied / 16,
                        copied % 16 == 0,
                        copied <= len,
                        len > 0 ==> copied < len,
                        blocks_for(len as nat) == if len == 0 {
                            1nat
                        } else {
                            ((len - 1) / 16 + 1) as nat
                        },
                ;
            }
        }
        let blk = self.next_block();
        let tail = len - copied;
        let mut j: usize = 0;
        while j < tail
            invariant
                j <= tail,
                tail <= 16,
                len > 0 ==> tail >= 1,
                copied + tail == len,
                len == buffer@.len(),
                blk@.len() == 16,
                blk@ == keystream_block(gcm, key, iv, (blocks0 + copied / 16) as nat),
                copied % 16 == 0,
                forall|i: int| 0 <= i < copied + j ==> buffer@[i] == keystream_byte(
                    gcm,
                    key,
                    iv,
                    (blocks0 * 16 + i) as nat,
                ),
            decreases tail - j,
        {
            buffer.set(copied + j, blk[j]);
            proof {
                lemma_byte_of_block(gcm, key, iv, blocks0, copied as nat, j as nat);
            }
            j = j + 1;
        }
        proof {
            use_type_invariant(&*self);
            if len == 0 {
                assert(blocks_for(len as nat) == 1);
            } else {
                assert(copied == ((len - 1) / 16) * 16) by (nonlinear_arith)
                    requires
                        copied % 16 == 0,
                        copied <= len,
                        len - copied <= 16,
                        len > 0,
                        len - copied >= 1,
                ;
                assert(self.blocks@ == blocks0 + blocks_for(len as nat)) by (nonlinear_arith)
                    requires
                        self.blocks@ == blocks0 + copied / 16 + 1,
                        copied == ((len - 1) / 16) * 16,
                        blocks_for(len as nat) == (len - 1) / 16 + 1,
                        len > 0,
                ;
            }
        }
    }
}

/// Bit `j` of block `k` is bit `k * 128 + j` of the keystream.
proof fn lemma_block_bit(gcm: bool, key: Seq<u8>, iv: Seq<u8>, k: nat, j: nat)
    requires
        j < 128,
    ensures
        keystream_byte(gcm, key, iv, (k * 128 + j) / 8) == keystream_block(gcm, key, iv, k)[(
        j / 8) as int],
{
    let pos = k * 128 + j;
    assert(pos / 8 == k * 16 + j / 8) by (nonlinear_arith)
        requires
            j < 128,
            pos == k * 128 + j,
    ;
    lemma_byte_decompose(gcm, key, iv, k, j / 8);
}

/// Byte `b` of block `k` is byte `k * 16 + b` of the keystream.
proof fn lemma_byte_decompose(gcm: bool, key: Seq<u8>, iv: Seq<u8>, k: nat, b: nat)
    requires
        b < 16,
    ensures
        keystream_byte(gcm, key, iv, k * 16 + b) == keystream_block(gcm, key, iv, k)[b as int],
{
    assert((k * 16 + b) / 16 == k && (k * 16 + b) % 16 == b) by (nonlinear_arith)
        requires
            b < 16,
    ;
}

/// The bit position within one block splits off the block index.
proof fn lemma_pos_decompose(k: nat, j: nat)
    requires
        j < 128,
    ensures
        (k * 128 + j) % 8 == j % 8,
    decreases k,
{
    assert((k * 128 + j) % 8 == j % 8) by (nonlinear_arith)
        requires
            j < 128,
    ;
}

/// Byte `copied + j` of the keystream, with `copied` a multiple of 16 and
/// `j < 16`, is byte `j` of block `copied / 16` past the base.
proof fn lemma_byte_of_block(gcm: bool, key: Seq<u8>, iv: Seq<u8>, base: nat, copied: nat, j: nat)
    requires
        copied % 16 == 0,
        j < 16,
    ensures
        keystream_byte(gcm, key, iv, base * 16 + copied + j) == keystream_block(
            gcm,
            key,
            iv,
            base + copied / 16,
        )[j as int],
{
    assert(base * 16 + copied + j == (base + copied / 16) * 16 + j) by (nonlinear_arith)
        requires
            copied % 16 == 0,
    ;
    lemma_byte_decompose(gcm, key, iv, base + copied / 16, j);
}

} // verus!
