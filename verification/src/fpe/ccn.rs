//! Credit card numbers as a concrete format-preserving domain: a
//! 16-digit number is split into four 4-digit symbols, encrypted over a
//! graph with 10,000 vertices, and reassembled.  A variant retries the
//! encryption until the result carries a valid Luhn checksum, so that
//! ciphertexts remain well-formed card numbers.

use crate::crypt::{decrypt_spec, encrypt_spec, Grafpe};
use crate::graph::walker::Walker;
use crate::irs::SHUFFLE_ROUND_LIMIT;
use vstd::prelude::*;

verus! {

/// Powers of ten.
pub open spec fn pow10(k: nat) -> nat
    decreases k,
{
    if k == 0 {
        1
    } else {
        10 * pow10((k - 1) as nat)
    }
}

/// The Luhn sum of the remaining digits: every second digit doubled,
/// doublings above nine reduced by nine.
pub open spec fn luhn_sum(v: nat, even: nat) -> nat
    decreases v,
{
    if v == 0 {
        0
    } else {
        let doubled = (v % 10) * (even + 1);
        (if doubled >= 10 {
            (doubled - 9) as nat
        } else {
            doubled
        }) + luhn_sum(v / 10, (1 - (even as int)) as nat)
    }
}

/// A number passes the Luhn check iff its Luhn sum is divisible by ten.
pub open spec fn luhn_holds(v: nat) -> bool {
    luhn_sum(v, 0) % 10 == 0
}

/// How many decimal digits remain.
pub open spec fn digits10(v: nat) -> nat
    decreases v,
{
    if v == 0 {
        0
    } else {
        1 + digits10(v / 10)
    }
}

proof fn lemma_digits10_bound(v: nat, k: nat)
    requires
        v < pow10(k),
    ensures
        digits10(v) <= k,
    decreases k,
{
    if v > 0 {
        assert(k > 0);
        assert(pow10(k) == 10 * pow10((k - 1) as nat));
        lemma_digits10_bound(v / 10, (k - 1) as nat);
    }
}

proof fn lemma_pow10_values()
    ensures
        pow10(16) == 10_000_000_000_000_000,
        pow10(4) == 10_000,
        pow10(8) == 100_000_000,
        pow10(12) == 1_000_000_000_000,
{
    assert(pow10(0) == 1);
    assert(pow10(1) == 10);
    assert(pow10(2) == 100);
    assert(pow10(3) == 1000);
    assert(pow10(4) == 10_000);
    assert(pow10(5) == 100_000);
    assert(pow10(6) == 1_000_000);
    assert(pow10(7) == 10_000_000);
    assert(pow10(8) == 100_000_000);
    assert(pow10(9) == 1_000_000_000);
    assert(pow10(10) == 10_000_000_000);
    assert(pow10(11) == 100_000_000_000);
    assert(pow10(12) == 1_000_000_000_000);
    assert(pow10(13) == 10_000_000_000_000);
    assert(pow10(14) == 100_000_000_000_000);
    assert(pow10(15) == 1_000_000_000_000_000);
    assert(pow10(16) == 10_000_000_000_000_000);
}

/// Whether the purported card number passes the Luhn checksum.
#[verifier::loop_isolation(false)]
pub fn luhn(purported: u64) -> (r: bool)
    requires
        purported < 10_000_000_000_000_000,
    ensures
        r == luhn_holds(purported as nat),
{
    proof {
        lemma_pow10_values();
        lemma_digits10_bound(purported as nat, 16);
    }
    let ghost orig = purported as nat;
    let mut rest = purported;
    let mut sum: u64 = 0;
    let mut even: u64 = 0;
    while rest != 0
        invariant
            even == 0 || even == 1,
            sum + 18 * digits10(rest as nat) <= 288,
            luhn_sum(orig, 0) == sum + luhn_sum(rest as nat, even as nat),
        decreases rest,
    {
        proof {
            assert(digits10(rest as nat) == 1 + digits10((rest / 10) as nat));
            assert(sum <= 270);
            assert((rest % 10) * (even + 1) <= 18) by (nonlinear_arith)
                requires
                    even <= 1,
            ;
        }
        let doubled = (rest % 10) * (even + 1);
        sum = sum + (if doubled >= 10 {
            doubled - 9
        } else {
            doubled
        });
        rest = rest / 10;
        even = 1 - even;
    }
    sum % 10 == 0
}

/// The four 4-digit symbols of a card number, most significant first.
pub open spec fn quads_of(v: nat) -> Seq<u32> {
    seq![
        ((v / pow10(12)) % 10000) as u32,
        ((v / pow10(8)) % 10000) as u32,
        ((v / pow10(4)) % 10000) as u32,
        (v % 10000) as u32,
    ]
}

/// The card number a sequence of four 4-digit symbols stands for.
pub open spec fn ccn_of(q: Seq<u32>) -> nat {
    (((q[0] * 10000 + q[1]) * 10000 + q[2]) * 10000 + q[3]) as nat
}

/// Retrying encryption until the Luhn check passes: the state after
/// each round is the whole-cipher image of the one before.
pub open spec fn luhn_retry_enc(
    ftab: Seq<Seq<u64>>,
    bits: nat,
    key: Seq<u8>,
    wl: nat,
    q: Seq<u32>,
    fuel: nat,
) -> Option<Seq<u32>>
    decreases fuel,
{
    if luhn_holds(ccn_of(q)) {
        Some(q)
    } else if fuel == 0 {
        None
    } else {
        luhn_retry_enc(
            ftab,
            bits,
            key,
            wl,
            encrypt_spec(ftab, bits, key, wl, Seq::empty(), q),
            (fuel - 1) as nat,
        )
    }
}

/// Retrying decryption until the Luhn check passes.
pub open spec fn luhn_retry_dec(
    btab: Seq<Seq<u64>>,
    bits: nat,
    key: Seq<u8>,
    wl: nat,
    q: Seq<u32>,
    fuel: nat,
) -> Option<Seq<u32>>
    decreases fuel,
{
    if luhn_holds(ccn_of(q)) {
        Some(q)
    } else if fuel == 0 {
        None
    } else {
        luhn_retry_dec(
            btab,
            bits,
            key,
            wl,
            decrypt_spec(btab, bits, key, wl, Seq::empty(), q),
            (fuel - 1) as nat,
        )
    }
}

/// Credit card number represented as four four-digit numbers.  The
/// encryption is performed on a graph with 10,000 vertices and can be
/// parameterized to perform additional checks (Luhn checksum validity).
#[derive(Debug, PartialEq, Eq, Structural)]
pub struct Digit16Ccn {
    ccn: u64,
}

impl Digit16Ccn {
    /// The number held.
    pub closed spec fn value(self) -> nat {
        self.ccn as nat
    }

    pub fn new(ccn: u64) -> (r: Digit16Ccn)
        ensures
            r.value() == ccn,
    {
        Digit16Ccn { ccn }
    }

    /// The number as four 4-digit symbols, most significant first.
    fn ccn_to_quadruples(ccn: u64) -> (r: Vec<u32>)
        ensures
            r@ == quads_of(ccn as nat),
            r@.len() == 4,
            forall|k: int| 0 <= k < 4 ==> (#[trigger] r@[k]) < 10000,
    {
        proof {
            lemma_pow10_values();
        }
        let mut r: Vec<u32> = Vec::with_capacity(4);
        r.push(((ccn / 1_000_000_000_000) % 10_000) as u32);
        r.push(((ccn / 100_000_000) % 10_000) as u32);
        r.push(((ccn / 10_000) % 10_000) as u32);
        r.push((ccn % 10_000) as u32);
        proof {
            assert(r@ =~= quads_of(ccn as nat));
        }
        r
    }

    /// The card number of four 4-digit symbols.
    fn quadruples_to_ccn(quadruples: &[u32]) -> (r: u64)
        requires
            quadruples@.len() == 4,
            forall|k: int| 0 <= k < 4 ==> (#[trigger] quadruples@[k]) < 10000,
        ensures
            r as nat == ccn_of(quadruples@),
            r < 10_000_000_000_000_000,
    {
        let mut r: u64 = 0;
        r = r * 10_000 + quadruples[0] as u64;
        r = r * 10_000 + quadruples[1] as u64;
        r = r * 10_000 + quadruples[2] as u64;
        r = r * 10_000 + quadruples[3] as u64;
        r
    }

    /// Encrypts the card number over the bound cipher with an empty
    /// tweak.
    pub fn encrypt<W: Walker>(&self, grafpe: &Grafpe<W>) -> (r: Digit16Ccn)
        requires
            grafpe.wf(),
            grafpe.walker().domain() == 10000,
        ensures
            r.value() == ccn_of(
                encrypt_spec(
                    grafpe.walker().ftab(),
                    grafpe.walker().bits(),
                    grafpe.key_view(),
                    grafpe.wl(),
                    Seq::empty(),
                    quads_of(self.value()),
                ),
            ),
            r.value() < 10_000_000_000_000_000,
    {
        let quadruples = Digit16Ccn::ccn_to_quadruples(self.ccn);
        let quad_vec = grafpe.encrypt(quadruples.as_slice(), &[]);
        proof {
            let empty: &[u8] = &[];
            assert(empty@ =~= Seq::<u8>::empty());
        }
        Digit16Ccn { ccn: Digit16Ccn::quadruples_to_ccn(quad_vec.as_slice()) }
    }

    /// Decrypts the card number over the bound cipher with an empty
    /// tweak.
    pub fn decrypt<W: Walker>(&self, grafpe: &Grafpe<W>) -> (r: Digit16Ccn)
        requires
            grafpe.wf(),
            grafpe.walker().domain() == 10000,
        ensures
            r.value() == ccn_of(
                decrypt_spec(
                    grafpe.walker().btab(),
                    grafpe.walker().bits(),
                    grafpe.key_view(),
                    grafpe.wl(),
                    Seq::empty(),
                    quads_of(self.value()),
                ),
            ),
            r.value() < 10_000_000_000_000_000,
    {
        let quadruples = Digit16Ccn::ccn_to_quadruples(self.ccn);
        let quad_vec = grafpe.decrypt(quadruples.as_slice(), &[]);
        proof {
            let empty: &[u8] = &[];
            assert(empty@ =~= Seq::<u8>::empty());
        }
        Digit16Ccn { ccn: Digit16Ccn::quadruples_to_ccn(quad_vec.as_slice()) }
    }

    /// Encrypts and then re-encrypts until the result passes the Luhn
    /// check, so the ciphertext is again a plausible card number.
    /// `None` if the retry budget runs out first.
    #[verifier::loop_isolation(false)]
    #[verifier::rlimit(50)]
    pub fn encrypt_with_luhn<W: Walker>(&self, grafpe: &Grafpe<W>) -> (r: Option<Digit16Ccn>)
        requires
            grafpe.wf(),
            grafpe.walker().domain() == 10000,
        ensures
            ({
                let model = luhn_retry_enc(
                    grafpe.walker().ftab(),
                    grafpe.walker().bits(),
                    grafpe.key_view(),
                    grafpe.wl(),
                    encrypt_spec(
                        grafpe.walker().ftab(),
                        grafpe.walker().bits(),
                        grafpe.key_view(),
                        grafpe.wl(),
                        Seq::empty(),
                        quads_of(self.value()),
                    ),
                    SHUFFLE_ROUND_LIMIT as nat,
                );
                match r {
                    Some(c) => model matches Some(qf) && c.value() == ccn_of(qf)
                        && luhn_holds(c.value()),
                    None => model is None,
                }
            }),
    {
        let ghost ftab = grafpe.walker().ftab();
        let ghost bits = grafpe.walker().bits();
        let ghost key = grafpe.key_view();
        let ghost wl = grafpe.wl();

        let quadruples = Digit16Ccn::ccn_to_quadruples(self.ccn);
        let mut encrypted = grafpe.encrypt(quadruples.as_slice(), &[]);
        proof {
            let empty: &[u8] = &[];
            assert(empty@ =~= Seq::<u8>::empty());
        }
        let ghost start = encrypted@;

        let mut fuel: usize = SHUFFLE_ROUND_LIMIT;
        loop
            invariant
                grafpe.wf(),
                grafpe.walker().domain() == 10000,
                ftab == grafpe.walker().ftab(),
                bits == grafpe.walker().bits(),
                key == grafpe.key_view(),
                wl == grafpe.wl(),
                fuel <= SHUFFLE_ROUND_LIMIT,
                encrypted@.len() == 4,
                forall|k: int| 0 <= k < 4 ==> (#[trigger] encrypted@[k]) < 10000,
                luhn_retry_enc(ftab, bits, key, wl, start, SHUFFLE_ROUND_LIMIT as nat)
                    == luhn_retry_enc(ftab, bits, key, wl, encrypted@, fuel as nat),
            decreases fuel,
        {
            let current = Digit16Ccn::quadruples_to_ccn(encrypted.as_slice());
            if luhn(current) {
                return Some(Digit16Ccn { ccn: current });
            }
            if fuel == 0 {
                return None;
            }
            encrypted = grafpe.encrypt(encrypted.as_slice(), &[]);
            proof {
                let empty: &[u8] = &[];
                assert(empty@ =~= Seq::<u8>::empty());
            }
            fuel = fuel - 1;
        }
    }

    /// Decrypts and then re-decrypts until the result passes the Luhn
    /// check: the inverse of `encrypt_with_luhn` on its accepted
    /// outputs.  `None` if the retry budget runs out first.
    #[verifier::loop_isolation(false)]
    #[verifier::rlimit(50)]
    pub fn decrypt_with_luhn<W: Walker>(&self, grafpe: &Grafpe<W>) -> (r: Option<Digit16Ccn>)
        requires
            grafpe.wf(),
            grafpe.walker().domain() == 10000,
        ensures
            ({
                let model = luhn_retry_dec(
                    grafpe.walker().btab(),
                    grafpe.walker().bits(),
                    grafpe.key_view(),
                    grafpe.wl(),
                    decrypt_spec(
                        grafpe.walker().btab(),
                        grafpe.walker().bits(),
                        grafpe.key_view(),
                        grafpe.wl(),
                        Seq::empty(),
                        quads_of(self.value()),
                    ),
                    SHUFFLE_ROUND_LIMIT as nat,
                );
                match r {
                    Some(c) => model matches Some(qf) && c.value() == ccn_of(qf)
                        && luhn_holds(c.value()),
                    None => model is None,
                }
            }),
    {
        let ghost btab = grafpe.walker().btab();
        let ghost bits = grafpe.walker().bits();
        let ghost key = grafpe.key_view();
        let ghost wl = grafpe.wl();

        let quadruples = Digit16Ccn::ccn_to_quadruples(self.ccn);
        let mut decrypted = grafpe.decrypt(quadruples.as_slice(), &[]);
        proof {
            let empty: &[u8] = &[];
            assert(empty@ =~= Seq::<u8>::empty());
        }
        let ghost start = decrypted@;

        let mut fuel: usize = SHUFFLE_ROUND_LIMIT;
        loop
            invariant
                grafpe.wf(),
                grafpe.walker().domain() == 10000,
                btab == grafpe.walker().btab(),
                bits == grafpe.walker().bits(),
                key == grafpe.key_view(),
                wl == grafpe.wl(),
                fuel <= SHUFFLE_ROUND_LIMIT,
                decrypted@.len() == 4,
                forall|k: int| 0 <= k < 4 ==> (#[trigger] decrypted@[k]) < 10000,
                luhn_retry_dec(btab, bits, key, wl, start, SHUFFLE_ROUND_LIMIT as nat)
                    == luhn_retry_dec(btab, bits, key, wl, decrypted@, fuel as nat),
            decreases fuel,
        {
            let current = Digit16Ccn::quadruples_to_ccn(decrypted.as_slice());
            if luhn(current) {
                return Some(Digit16Ccn { ccn: current });
            }
            if fuel == 0 {
                return None;
            }
            decrypted = grafpe.decrypt(decrypted.as_slice(), &[]);
            proof {
                let empty: &[u8] = &[];
                assert(empty@ =~= Seq::<u8>::empty());
            }
            fuel = fuel - 1;
        }
    }

    /// The card number itself.
    pub fn ccn(&self) -> (r: u64)
        ensures
            r == self.value(),
    {
        self.ccn
    }
}

} // verus!

use vstd::string::StringExecFns;

verus! {

/// The character of one decimal digit.
pub open spec fn digit_char(d: nat) -> char {
    if d == 0 {
        '0'
    } else if d == 1 {
        '1'
    } else if d == 2 {
        '2'
    } else if d == 3 {
        '3'
    } else if d == 4 {
        '4'
    } else if d == 5 {
        '5'
    } else if d == 6 {
        '6'
    } else if d == 7 {
        '7'
    } else if d == 8 {
        '8'
    } else {
        '9'
    }
}

/// The sixteen decimal digits of a card number, zero padded.
pub open spec fn dec16(v: nat) -> Seq<char> {
    Seq::new(16, |i: int| digit_char((v / pow10((15 - i) as nat)) % 10))
}

proof fn lemma_pow10_le(i: nat, j: nat)
    requires
        i <= j,
    ensures
        pow10(i) <= pow10(j),
    decreases j,
{
    if i < j {
        lemma_pow10_le(i, (j - 1) as nat);
        assert(pow10(j) == 10 * pow10((j - 1) as nat));
    }
}

/// Appends one decimal digit character.
pub(crate) fn push_digit(s: &mut String, d: u64)
    requires
        d < 10,
    ensures
        final(s)@ == old(s)@ + seq![digit_char(d as nat)],
{
    proof {
        reveal_strlit("0");
        reveal_strlit("1");
        reveal_strlit("2");
        reveal_strlit("3");
        reveal_strlit("4");
        reveal_strlit("5");
        reveal_strlit("6");
        reveal_strlit("7");
        reveal_strlit("8");
        reveal_strlit("9");
    }
    match d {
        0 => s.append("0"),
        1 => s.append("1"),
        2 => s.append("2"),
        3 => s.append("3"),
        4 => s.append("4"),
        5 => s.append("5"),
        6 => s.append("6"),
        7 => s.append("7"),
        8 => s.append("8"),
        _ => s.append("9"),
    }
    proof {
        assert(s@ =~= old(s)@ + seq![digit_char(d as nat)]);
    }
}

impl Digit16Ccn {
    /// The card number as exactly sixteen decimal digits, zero padded
    /// on the left.
    pub fn to_string(&self) -> (r: String)
        requires
            self.value() < 10_000_000_000_000_000,
        ensures
            r@ == dec16(self.value()),
    {
        proof {
            lemma_pow10_values();
        }
        let mut s = String::new();
        let mut div: u64 = 1_000_000_000_000_000;
        let mut i: usize = 0;
        while i < 16
            invariant
                i <= 16,
                i < 16 ==> div == pow10((15 - i) as nat),
                self.value() < 10_000_000_000_000_000,
                div >= 1,
                s@ =~= dec16(self.value()).take(i as int),
            decreases 16 - i,
        {
            proof {
                lemma_pow10_le((15 - i) as nat, 15);
                lemma_pow10_values();
                assert(pow10(15) == 1_000_000_000_000_000) by {
                    assert(pow10(16) == 10 * pow10(15));
                }
            }
            let d = (self.ccn / div) % 10;
            let ghost prev = s@;
            push_digit(&mut s, d);
            proof {
                assert(d as nat == (self.value() / pow10((15 - i) as nat)) % 10);
                assert(dec16(self.value())[i as int] == digit_char(d as nat));
                assert(s@ =~= dec16(self.value()).take(i + 1));
                if i < 15 {
                    assert(pow10((15 - i) as nat) == 10 * pow10((15 - (i + 1)) as nat));
                }
            }
            if i < 15 {
                div = div / 10;
            }
            i = i + 1;
        }
        proof {
            assert(dec16(self.value()).take(16) =~= dec16(self.value()));
        }
        s
    }
}

impl core::str::FromStr for Digit16Ccn {
    type Err = ();

    /// Parses exactly sixteen ASCII decimal digits.
    fn from_str(s: &str) -> Result<Self, Self::Err> {
        let bytes = s.as_bytes();
        if bytes.len() != 16 {
            return Err(());
        }
        proof {
            lemma_pow10_values();
        }
        let mut ccn: u64 = 0;
        let mut i: usize = 0;
        while i < 16
            invariant
                i <= 16,
                bytes@.len() == 16,
                ccn < pow10(i as nat),
            decreases 16 - i,
        {
            proof {
                lemma_pow10_le(i as nat, 15);
                lemma_pow10_values();
                assert(pow10(15) == 1_000_000_000_000_000) by {
                    assert(pow10(16) == 10 * pow10(15));
                }
                assert(pow10((i + 1) as nat) == 10 * pow10(i as nat));
            }
            let b = bytes[i];
            if b < 48 || b > 57 {
                return Err(());
            }
            ccn = ccn * 10 + (b - 48) as u64;
            i = i + 1;
        }
        Ok(Digit16Ccn { ccn })
    }
}

} // verus!
