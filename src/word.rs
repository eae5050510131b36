use vstd::arithmetic::div_mod::{
    lemma_div_denominator, lemma_fundamental_div_mod, lemma_fundamental_div_mod_converse,
    lemma_mod_breakdown, lemma_small_mod,
};
use vstd::arithmetic::power2::{lemma2_to64, lemma_pow2_adds, lemma_pow2_pos, pow2};
use core::cmp::Ordering;
use vstd::prelude::*;

verus! {

/// 2^64, the base of one limb.
pub open spec fn limb_base() -> nat {
    0x1_0000_0000_0000_0000
}

/// 2^256, the modulus of word arithmetic.
pub open spec fn word_modulus() -> nat {
    limb_base() * limb_base() * limb_base() * limb_base()
}

/// 256 raised to the power `n`.
pub open spec fn pow256(n: nat) -> nat
    decreases n,
{
    if n == 0 {
        1
    } else {
        256 * pow256((n - 1) as nat)
    }
}

/// The number that a byte sequence denotes when read big-endian.
pub open spec fn be_val(s: Seq<u8>) -> nat
    decreases s.len(),
{
    if s.len() == 0 {
        0
    } else {
        be_val(s.drop_last()) * 256 + s.last() as nat
    }
}

pub proof fn lemma_pow256_positive(n: nat)
    ensures
        pow256(n) > 0,
    decreases n,
{
    if n > 0 {
        lemma_pow256_positive((n - 1) as nat);
    }
}

pub proof fn lemma_pow256_monotonic(a: nat, b: nat)
    requires
        a <= b,
    ensures
        pow256(a) <= pow256(b),
    decreases b - a,
{
    if a < b {
        lemma_pow256_monotonic(a, (b - 1) as nat);
        lemma_pow256_positive((b - 1) as nat);
    }
}

/// Thirty-two bytes span the whole word range.
pub proof fn lemma_pow256_word()
    ensures
        pow256(32) == word_modulus(),
{
    reveal_with_fuel(pow256, 33);
}

/// A sequence of `n` bytes denotes a number below 256^n.
pub proof fn lemma_be_val_bound(s: Seq<u8>)
    ensures
        be_val(s) < pow256(s.len()),
    decreases s.len(),
{
    if s.len() > 0 {
        lemma_be_val_bound(s.drop_last());
        let p = pow256((s.len() - 1) as nat);
        let v = be_val(s.drop_last());
        assert(v * 256 + s.last() < p * 256) by (nonlinear_arith)
            requires
                v < p,
                s.last() < 256,
        ;
    }
}

/// A leading byte weighs 256^(number of bytes after it).
pub proof fn lemma_be_val_prepend(b: u8, s: Seq<u8>)
    ensures
        be_val(seq![b] + s) == b as nat * pow256(s.len()) + be_val(s),
    decreases s.len(),
{
    let t = seq![b] + s;
    if s.len() == 0 {
        assert(t.drop_last() =~= Seq::<u8>::empty());
        assert(t.last() == b);
        assert(be_val(Seq::<u8>::empty()) == 0);
        assert(be_val(t) == b as nat);
        assert(pow256(0) == 1);
    } else {
        assert(t.drop_last() =~= seq![b] + s.drop_last());
        assert(t.last() == s.last());
        lemma_be_val_prepend(b, s.drop_last());
        let p = pow256((s.len() - 1) as nat);
        let v = be_val(s.drop_last());
        assert(be_val(t) == be_val(t.drop_last()) * 256 + t.last());
        assert(pow256(s.len()) == 256 * p);
        assert(be_val(s) == v * 256 + s.last());
        assert((b as nat * p + v) * 256 + s.last() == b as nat * (256 * p) + (v * 256
            + s.last())) by (nonlinear_arith);
    }
}

/// The last `n` base-256 digits of `v`, most significant first.
pub open spec fn be_digits(v: nat, n: nat) -> Seq<u8>
    decreases n,
{
    if n == 0 {
        Seq::empty()
    } else {
        be_digits(v / 256, (n - 1) as nat).push((v % 256) as u8)
    }
}

pub proof fn lemma_be_digits(v: nat, n: nat)
    ensures
        be_digits(v, n).len() == n,
        be_val(be_digits(v, n)) == v % pow256(n),
    decreases n,
{
    if n == 0 {
        assert(v % 1 == 0);
    } else {
        let d = be_digits(v, n);
        lemma_be_digits(v / 256, (n - 1) as nat);
        assert(d.drop_last() =~= be_digits(v / 256, (n - 1) as nat));
        lemma_pow256_positive((n - 1) as nat);
        lemma_mod_breakdown(v as int, 256, pow256((n - 1) as nat) as int);
    }
}

/// Two byte sequences of one length with one value are the same.
pub proof fn lemma_be_val_injective(a: Seq<u8>, b: Seq<u8>)
    requires
        a.len() == b.len(),
        be_val(a) == be_val(b),
    ensures
        a == b,
    decreases a.len(),
{
    if a.len() > 0 {
        let v = be_val(a) as int;
        lemma_fundamental_div_mod_converse(v, 256, be_val(a.drop_last()) as int, a.last() as int);
        lemma_fundamental_div_mod_converse(v, 256, be_val(b.drop_last()) as int, b.last() as int);
        lemma_be_val_injective(a.drop_last(), b.drop_last());
        assert(a =~= a.drop_last().push(a.last()));
        assert(b =~= b.drop_last().push(b.last()));
    } else {
        assert(a =~= b);
    }
}

/// A 256-bit unsigned integer held as four 64-bit limbs, least significant first.
#[derive(Clone, Copy, Debug, PartialEq, Eq, Structural)]
pub struct Word {
    pub limb0: u64,
    pub limb1: u64,
    pub limb2: u64,
    pub limb3: u64,
}

/// The word whose value is `v` reduced modulo 2^256.
pub open spec fn word_of(v: nat) -> Word {
    Word {
        limb0: (v % limb_base()) as u64,
        limb1: ((v / limb_base()) % limb_base()) as u64,
        limb2: ((v / (limb_base() * limb_base())) % limb_base()) as u64,
        limb3: ((v / (limb_base() * limb_base() * limb_base())) % limb_base()) as u64,
    }
}

impl Word {
    /// The 32-byte big-endian form of this word.
    pub open spec fn bytes(self) -> Seq<u8> {
        be_digits(self.value(), 32)
    }

    /// The number this word stands for, in `[0, 2^256)`.
    pub open spec fn value(self) -> nat {
        self.limb0 as nat + limb_base() * (self.limb1 as nat + limb_base() * (self.limb2 as nat
            + limb_base() * self.limb3 as nat))
    }

    /// A word is determined by its value.
    pub proof fn lemma_word_of_value(self)
        ensures
            word_of(self.value()) == self,
    {
        let b = limb_base() as int;
        let v = self.value() as int;
        let q1 = self.limb1 + self.limb2 * b + self.limb3 * b * b;
        lemma_fundamental_div_mod_converse(v, b, q1, self.limb0 as int);
        let q2 = self.limb2 + self.limb3 * b;
        lemma_fundamental_div_mod_converse(q1, b, q2, self.limb1 as int);
        lemma_fundamental_div_mod_converse(q2, b, self.limb3 as int, self.limb2 as int);
        lemma_fundamental_div_mod_converse(self.limb3 as int, b, 0, self.limb3 as int);
        lemma_div_denominator(v, b, b);
        lemma_div_denominator(v, b * b, b);
    }

    /// A value below 2^256 survives the trip into limbs.
    pub proof fn lemma_value_of_word_of(v: nat)
        requires
            v < word_modulus(),
        ensures
            word_of(v).value() == v,
    {
        let b = limb_base() as int;
        let x = v as int;
        lemma_fundamental_div_mod(x, b);
        lemma_fundamental_div_mod(x / b, b);
        lemma_fundamental_div_mod(x / b / b, b);
        lemma_div_denominator(x, b, b);
        lemma_div_denominator(x, b * b, b);
        lemma_div_denominator(x / b, b, b);
        let q3 = x / (b * b * b);
        assert(q3 < b) by (nonlinear_arith)
            requires
                x < b * b * b * b,
                0 <= x,
                q3 == x / (b * b * b),
                b > 0,
        ;
        lemma_fundamental_div_mod_converse(q3, b, 0, q3);
    }

    /// Equal values make equal words.
    pub proof fn lemma_value_injective(self, other: Word)
        requires
            self.value() == other.value(),
        ensures
            self == other,
    {
        self.lemma_word_of_value();
        other.lemma_word_of_value();
    }

    /// The zero word.
    pub fn zero() -> (r: Word)
        ensures
            r.value() == 0,
    {
        Word { limb0: 0, limb1: 0, limb2: 0, limb3: 0 }
    }

    /// The word holding a small unsigned integer.
    pub fn from_u64(n: u64) -> (r: Word)
        ensures
            r.value() == n,
    {
        Word { limb0: n, limb1: 0, limb2: 0, limb3: 0 }
    }

    pub fn is_zero(&self) -> (r: bool)
        ensures
            r == (self.value() == 0),
    {
        self.limb0 == 0 && self.limb1 == 0 && self.limb2 == 0 && self.limb3 == 0
    }

    /// The value as a `usize`, where it fits.
    pub fn to_usize(&self) -> (r: Option<usize>)
        ensures
            r matches Some(n) ==> n == self.value(),
            r is None <==> self.value() > usize::MAX,
    {
        if self.limb1 == 0 && self.limb2 == 0 && self.limb3 == 0 && self.limb0 <= usize::MAX as u64 {
            Some(self.limb0 as usize)
        } else {
            None
        }
    }

    /// Multiplication by 256 with a byte added in, for a word with room for it.
    fn shl8(&self, b: u8) -> (r: Word)
        requires
            self.value() * 256 < word_modulus(),
        ensures
            r.value() == self.value() * 256 + b,
    {
        let h: u64 = 0x100_0000_0000_0000;
        proof {
            let bb = limb_base() as int;
            assert(self.value() >= bb * (bb * (bb * self.limb3)));
        }
        let r = Word {
            limb0: (self.limb0 % h) * 256 + b as u64,
            limb1: (self.limb1 % h) * 256 + self.limb0 / h,
            limb2: (self.limb2 % h) * 256 + self.limb1 / h,
            limb3: (self.limb3 % h) * 256 + self.limb2 / h,
        };
        proof {
            lemma_fundamental_div_mod(self.limb0 as int, 0x100_0000_0000_0000);
            lemma_fundamental_div_mod(self.limb1 as int, 0x100_0000_0000_0000);
            lemma_fundamental_div_mod(self.limb2 as int, 0x100_0000_0000_0000);
            lemma_fundamental_div_mod(self.limb3 as int, 0x100_0000_0000_0000);
            let bb = limb_base() as int;
            let (a0, a1, a2, a3) = (self.limb0 as int, self.limb1 as int, self.limb2 as int, self.limb3 as int);
            let (r0, r1, r2, r3) = (r.limb0 as int, r.limb1 as int, r.limb2 as int, r.limb3 as int);
            let (h0, h1, h2) = (
                a0 / 0x100_0000_0000_0000,
                a1 / 0x100_0000_0000_0000,
                a2 / 0x100_0000_0000_0000,
            );
            assert(self.value() * 256 + b == 256 * a0 + b + bb * (256 * a1 + bb * (256 * a2 + bb
                * (256 * a3)))) by (nonlinear_arith)
                requires
                    self.value() == a0 + bb * (a1 + bb * (a2 + bb * a3)),
            ;
            let c = 0x100_0000_0000_0000int;
            let (m0, m1, m2) = (a0 % c, a1 % c, a2 % c);
            assert(256 * a0 + b == r0 + bb * h0) by (nonlinear_arith)
                requires
                    a0 == c * h0 + m0,
                    r0 == m0 * 256 + b,
                    bb == 256 * c,
            ;
            assert(256 * a1 + h0 == r1 + bb * h1) by (nonlinear_arith)
                requires
                    a1 == c * h1 + m1,
                    r1 == m1 * 256 + h0,
                    bb == 256 * c,
            ;
            assert(256 * a2 + h1 == r2 + bb * h2) by (nonlinear_arith)
                requires
                    a2 == c * h2 + m2,
                    r2 == m2 * 256 + h1,
                    bb == 256 * c,
            ;
            assert(256 * a3 + h2 == r3);
            assert(self.value() * 256 + b == r.value()) by (nonlinear_arith)
                requires
                    self.value() * 256 + b == 256 * a0 + b + bb * (256 * a1 + bb * (256 * a2 + bb
                        * (256 * a3))),
                    256 * a0 + b == r0 + bb * h0,
                    256 * a1 + h0 == r1 + bb * h1,
                    256 * a2 + h1 == r2 + bb * h2,
                    256 * a3 + h2 == r3,
                    r.value() == r0 + bb * (r1 + bb * (r2 + bb * r3)),
            ;
        }
        r
    }

    /// Division by 256.
    fn shr8(&self) -> (r: Word)
        ensures
            r.value() == self.value() / 256,
            self.value() % 256 == self.limb0 % 256,
    {
        let h: u64 = 0x100_0000_0000_0000;
        let r = Word {
            limb0: self.limb0 / 256 + (self.limb1 % 256) * h,
            limb1: self.limb1 / 256 + (self.limb2 % 256) * h,
            limb2: self.limb2 / 256 + (self.limb3 % 256) * h,
            limb3: self.limb3 / 256,
        };
        proof {
            lemma_fundamental_div_mod(self.limb0 as int, 256);
            lemma_fundamental_div_mod(self.limb1 as int, 256);
            lemma_fundamental_div_mod(self.limb2 as int, 256);
            lemma_fundamental_div_mod(self.limb3 as int, 256);
            assert(self.value() == 256 * r.value() + self.limb0 % 256);
            lemma_fundamental_div_mod_converse(
                self.value() as int,
                256,
                r.value() as int,
                (self.limb0 % 256) as int,
            );
        }
        r
    }

    /// The word that up to 32 bytes denote, read big-endian.
    pub fn from_be_bytes(bytes: &[u8]) -> (r: Word)
        requires
            bytes@.len() <= 32,
        ensures
            r.value() == be_val(bytes@),
    {
        let mut acc = Word::zero();
        let mut i: usize = 0;
        proof {
            assert(bytes@.subrange(0, 0) =~= Seq::<u8>::empty());
        }
        while i < bytes.len()
            invariant
                i <= bytes@.len() <= 32,
                acc.value() == be_val(bytes@.subrange(0, i as int)),
            decreases bytes@.len() - i,
        {
            proof {
                lemma_be_val_bound(bytes@.subrange(0, i as int));
                lemma_pow256_monotonic(i as nat, 31);
                lemma_pow256_word();
                assert(bytes@.subrange(0, i + 1).drop_last() =~= bytes@.subrange(0, i as int));
            }
            acc = acc.shl8(bytes[i]);
            i = i + 1;
        }
        proof {
            assert(bytes@.subrange(0, i as int) =~= bytes@);
        }
        acc
    }

    /// The 32-byte big-endian form.
    pub fn to_be_bytes(&self) -> (r: Vec<u8>)
        ensures
            r@ == self.bytes(),
            r@.len() == 32,
            be_val(r@) == self.value(),
    {
        let mut out: Vec<u8> = vec![0u8; 32];
        let mut cur = *self;
        let mut k: usize = 0;
        proof {
            assert(out@.subrange(32, 32) =~= Seq::<u8>::empty());
            assert(pow256(0) == 1);
        }
        while k < 32
            invariant
                k <= 32,
                out@.len() == 32,
                be_val(out@.subrange(32 - k, 32)) + pow256(k as nat) * cur.value() == self.value(),
            decreases 32 - k,
        {
            let next = cur.shr8();
            let b = (cur.limb0 % 256) as u8;
            let ghost tail = out@.subrange(32 - k, 32);
            out.set(31 - k, b);
            proof {
                assert(out@.subrange(31 - k, 32) =~= seq![b] + tail);
                lemma_be_val_prepend(b, tail);
                lemma_fundamental_div_mod(cur.value() as int, 256);
                let p = pow256(k as nat);
                assert(b as nat * p + be_val(tail) + (256 * p) * next.value() == be_val(tail) + p
                    * cur.value()) by (nonlinear_arith)
                    requires
                        cur.value() == 256 * next.value() + b as nat,
                ;
            }
            cur = next;
            k = k + 1;
        }
        proof {
            lemma_pow256_word();
            assert(out@.subrange(0, 32) =~= out@);
            let m = word_modulus();
            assert(cur.value() == 0) by (nonlinear_arith)
                requires
                    be_val(out@) + m * cur.value() == self.value(),
                    self.value() < m,
            ;
            lemma_be_digits(self.value(), 32);
            lemma_small_mod(self.value(), m);
            lemma_be_val_injective(out@, self.bytes());
        }
        out
    }

    /// Addition modulo 2^256.
    pub fn add(&self, other: &Word) -> (r: Word)
        ensures
            r.value() == (self.value() + other.value()) % word_modulus(),
    {
        let b: u128 = 0x1_0000_0000_0000_0000;
        let t0: u128 = self.limb0 as u128 + other.limb0 as u128;
        let c0: u128 = t0 / b;
        let t1: u128 = self.limb1 as u128 + other.limb1 as u128 + c0;
        let c1: u128 = t1 / b;
        let t2: u128 = self.limb2 as u128 + other.limb2 as u128 + c1;
        let c2: u128 = t2 / b;
        let t3: u128 = self.limb3 as u128 + other.limb3 as u128 + c2;
        let c3: u128 = t3 / b;
        let r = Word {
            limb0: (t0 % b) as u64,
            limb1: (t1 % b) as u64,
            limb2: (t2 % b) as u64,
            limb3: (t3 % b) as u64,
        };
        proof {
            lemma_fundamental_div_mod(t0 as int, b as int);
            lemma_fundamental_div_mod(t1 as int, b as int);
            lemma_fundamental_div_mod(t2 as int, b as int);
            lemma_fundamental_div_mod(t3 as int, b as int);
            let m = word_modulus() as int;
            let bb = limb_base() as int;
            let (a0, a1, a2, a3) = (self.limb0 as int, self.limb1 as int, self.limb2 as int, self.limb3 as int);
            let (b0, b1, b2, b3) = (other.limb0 as int, other.limb1 as int, other.limb2 as int, other.limb3 as int);
            let (r0, r1, r2, r3) = (r.limb0 as int, r.limb1 as int, r.limb2 as int, r.limb3 as int);
            assert(self.value() + other.value() == r0 + bb * (c0 + a1 + b1 + bb * (a2 + b2 + bb * (a3 + b3))));
            assert(self.value() + other.value() == r0 + bb * (r1 + bb * (c1 + a2 + b2 + bb * (a3 + b3))));
            assert(self.value() + other.value() == r0 + bb * (r1 + bb * (r2 + bb * (c2 + a3 + b3))));
            assert(self.value() + other.value() == r0 + bb * (r1 + bb * (r2 + bb * (r3 + bb * c3))));
            assert(self.value() + other.value() == r.value() + c3 * m) by (nonlinear_arith)
                requires
                    self.value() + other.value() == r0 + bb * (r1 + bb * (r2 + bb * (r3 + bb * c3))),
                    r.value() == r0 + bb * (r1 + bb * (r2 + bb * r3)),
                    m == bb * bb * bb * bb,
            ;
            lemma_fundamental_div_mod_converse(
                (self.value() + other.value()) as int,
                m,
                c3 as int,
                r.value() as int,
            );
        }
        r
    }

    /// Division by 2^64: every limb moves down one place.
    fn shr_limb(&self) -> (r: Word)
        ensures
            r.value() == self.value() / limb_base(),
    {
        let r = Word { limb0: self.limb1, limb1: self.limb2, limb2: self.limb3, limb3: 0 };
        proof {
            lemma_fundamental_div_mod_converse(
                self.value() as int,
                limb_base() as int,
                r.value() as int,
                self.limb0 as int,
            );
        }
        r
    }

    /// Division by 2.
    fn shr_one(&self) -> (r: Word)
        ensures
            r.value() == self.value() / 2,
    {
        let h: u64 = 0x8000_0000_0000_0000;
        let r = Word {
            limb0: self.limb0 / 2 + (self.limb1 % 2) * h,
            limb1: self.limb1 / 2 + (self.limb2 % 2) * h,
            limb2: self.limb2 / 2 + (self.limb3 % 2) * h,
            limb3: self.limb3 / 2,
        };
        proof {
            lemma_fundamental_div_mod(self.limb0 as int, 2);
            lemma_fundamental_div_mod(self.limb1 as int, 2);
            lemma_fundamental_div_mod(self.limb2 as int, 2);
            lemma_fundamental_div_mod(self.limb3 as int, 2);
            assert(self.value() == 2 * r.value() + self.limb0 % 2);
            lemma_fundamental_div_mod_converse(
                self.value() as int,
                2,
                r.value() as int,
                (self.limb0 % 2) as int,
            );
        }
        r
    }

    /// Logical right shift: zero for a shift of 256 or more, else division by 2^shift.
    pub fn shr(&self, shift: &Word) -> (r: Word)
        ensures
            r.value() == if shift.value() >= 256 {
                0
            } else {
                self.value() / pow2(shift.value())
            },
    {
        if shift.limb1 != 0 || shift.limb2 != 0 || shift.limb3 != 0 || shift.limb0 >= 256 {
            return Word::zero();
        }
        let s: u64 = shift.limb0;
        let mut r = *self;
        let mut k: u64 = 0;
        proof {
            lemma2_to64();
            assert(self.value() / pow2(0) == self.value());
        }
        while k + 64 <= s
            invariant
                k <= s < 256,
                r.value() == self.value() / pow2(k as nat),
            decreases s - k,
        {
            let next = r.shr_limb();
            proof {
                lemma2_to64();
                lemma_pow2_pos(k as nat);
                lemma_div_denominator(self.value() as int, pow2(k as nat) as int, pow2(64) as int);
                lemma_pow2_adds(k as nat, 64);
            }
            r = next;
            k = k + 64;
        }
        while k < s
            invariant
                k <= s < 256,
                r.value() == self.value() / pow2(k as nat),
            decreases s - k,
        {
            let next = r.shr_one();
            proof {
                lemma2_to64();
                lemma_pow2_pos(k as nat);
                lemma_div_denominator(self.value() as int, pow2(k as nat) as int, 2);
                lemma_pow2_adds(k as nat, 1);
            }
            r = next;
            k = k + 1;
        }
        r
    }
}

/// How two numbers compare.
pub open spec fn compare_nat(a: nat, b: nat) -> Ordering {
    if a < b {
        Ordering::Less
    } else if a == b {
        Ordering::Equal
    } else {
        Ordering::Greater
    }
}

/// How two limbs compare.
fn compare_limb(a: u64, b: u64) -> (r: Ordering)
    ensures
        r == compare_nat(a as nat, b as nat),
{
    if a < b {
        Ordering::Less
    } else if a == b {
        Ordering::Equal
    } else {
        Ordering::Greater
    }
}

/// Words are ordered by their values.
impl PartialOrd for Word {
    fn partial_cmp(&self, other: &Word) -> (r: Option<Ordering>) {
        let c3 = compare_limb(self.limb3, other.limb3);
        let c2 = compare_limb(self.limb2, other.limb2);
        let c1 = compare_limb(self.limb1, other.limb1);
        let c0 = compare_limb(self.limb0, other.limb0);
        let r = match c3 {
            Ordering::Equal => match c2 {
                Ordering::Equal => match c1 {
                    Ordering::Equal => c0,
                    _ => c1,
                },
                _ => c2,
            },
            _ => c3,
        };
        proof {
            let b = limb_base() as int;
            let (a0, a1, a2, a3) = (self.limb0 as int, self.limb1 as int, self.limb2 as int, self.limb3 as int);
            let (b0, b1, b2, b3) = (other.limb0 as int, other.limb1 as int, other.limb2 as int, other.limb3 as int);
            let x2 = a0 + b * (a1 + b * a2);
            let y2 = b0 + b * (b1 + b * b2);
            let x1 = a0 + b * a1;
            let y1 = b0 + b * b1;
            assert(x1 < b * b && y1 < b * b);
            assert(x2 < b * b * b && y2 < b * b * b);
            assert(self.value() == x2 + b * b * b * a3);
            assert(other.value() == y2 + b * b * b * b3);
            assert(x2 == x1 + b * b * a2);
            assert(y2 == y1 + b * b * b2);
        }
        proof {
            if self.value() == other.value() {
                self.lemma_value_injective(*other);
            }
        }
        Some(r)
    }
}

impl vstd::std_specs::cmp::PartialOrdSpecImpl for Word {
    open spec fn obeys_partial_cmp_spec() -> bool {
        true
    }

    open spec fn partial_cmp_spec(&self, other: &Word) -> Option<Ordering> {
        Some(compare_nat(self.value(), other.value()))
    }
}

} // verus!
