//! The scalar field of BLS12-381: integers modulo the prime group order `r`.
//!
//! An element is kept in canonical form as two 128-bit limbs whose value is
//! below `r`. Every operation states its result as an integer modulo `r`.

use vstd::prelude::*;
#[allow(unused_imports)]
use vstd::arithmetic::div_mod::*;
use rand::RngCore;
use vstd::arithmetic::power::pow;
use vstd::arithmetic::power::lemma_pow0;
use vstd::arithmetic::power::lemma_pow1;
use vstd::arithmetic::power::lemma_pow_adds;
use vstd::arithmetic::power::lemma_pow_multiplies;
use vstd::arithmetic::power::lemma_pow_mod_noop;
use vstd::arithmetic::power::lemma_square_is_pow2;

verus! {

/// Low 128 bits of the group order `r`.
pub const R_LO: u128 = 0x53bda402fffe5bfeffffffff00000001u128;

/// High 128 bits of the group order `r`.
pub const R_HI: u128 = 0x73eda753299d7d483339d80809a1d805u128;

/// 2^128 as a mathematical integer.
pub open spec fn limb_base() -> int {
    0x1_0000_0000_0000_0000_0000_0000_0000_0000int
}

/// The order `r` of the BLS12-381 scalar field.
pub open spec fn modulus() -> int {
    0x73eda753299d7d483339d80809a1d80553bda402fffe5bfeffffffff00000001int
}

/// Value of a pair of limbs.
pub open spec fn limbs_value(lo: u128, hi: u128) -> int {
    lo + hi * limb_base()
}

proof fn lemma_modulus_limbs()
    ensures
        modulus() == limbs_value(R_LO, R_HI),
        R_HI < limb_base() / 2,
        modulus() > 1,
{
}

/// A field element.
#[derive(Clone, Copy, Debug, PartialEq, Eq, Structural)]
pub struct Fr {
    lo: u128,
    hi: u128,
}

impl View for Fr {
    type V = int;

    closed spec fn view(&self) -> int {
        limbs_value(self.lo, self.hi)
    }
}

impl Fr {
    #[verifier::type_invariant]
    spec fn canonical(self) -> bool {
        limbs_value(self.lo, self.hi) < modulus()
    }
}

/// Adds two limbs, returning the low limb and the carry.
fn add_with_carry(a: u128, b: u128) -> (res: (u128, u128))
    ensures
        res.1 <= 1,
        a + b == res.0 + res.1 * limb_base(),
{
    if a <= u128::MAX - b {
        (a + b, 0)
    } else {
        (a - (u128::MAX - b) - 1, 1)
    }
}

/// Subtracts two limbs, returning the low limb and the borrow.
fn sub_with_borrow(a: u128, b: u128) -> (res: (u128, u128))
    ensures
        res.1 <= 1,
        a - b == res.0 - res.1 * limb_base(),
{
    if a >= b {
        (a - b, 0)
    } else {
        ((u128::MAX - b) + a + 1, 1)
    }
}

/// Whether the first pair of limbs holds a value at least the second's.
fn limbs_ge(alo: u128, ahi: u128, blo: u128, bhi: u128) -> (res: bool)
    ensures
        res == (limbs_value(alo, ahi) >= limbs_value(blo, bhi)),
{
    ahi > bhi || (ahi == bhi && alo >= blo)
}

/// Exact sum of two values held in limbs.
fn limbs_add(alo: u128, ahi: u128, blo: u128, bhi: u128) -> (res: (u128, u128))
    requires
        limbs_value(alo, ahi) + limbs_value(blo, bhi) < limb_base() * limb_base(),
    ensures
        limbs_value(res.0, res.1) == limbs_value(alo, ahi) + limbs_value(blo, bhi),
{
    let (lo, carry) = add_with_carry(alo, blo);
    assert(ahi + bhi + carry < limb_base());
    (lo, ahi + bhi + carry)
}

/// Exact difference of two values held in limbs.
fn limbs_sub(alo: u128, ahi: u128, blo: u128, bhi: u128) -> (res: (u128, u128))
    requires
        limbs_value(alo, ahi) >= limbs_value(blo, bhi),
    ensures
        limbs_value(res.0, res.1) == limbs_value(alo, ahi) - limbs_value(blo, bhi),
{
    let (lo, borrow) = sub_with_borrow(alo, blo);
    assert(ahi - bhi - borrow >= 0);
    (lo, ahi - bhi - borrow)
}

/// Reduces a value below twice the modulus into a field element.
fn reduce_once(lo: u128, hi: u128) -> (res: Fr)
    requires
        limbs_value(lo, hi) < 2 * modulus(),
    ensures
        res@ == limbs_value(lo, hi) % modulus(),
{
    proof {
        lemma_modulus_limbs();
    }
    if limbs_ge(lo, hi, R_LO, R_HI) {
        let (rlo, rhi) = limbs_sub(lo, hi, R_LO, R_HI);
        proof {
            lemma_fundamental_div_mod_converse(limbs_value(lo, hi), modulus(), 1, limbs_value(rlo, rhi));
        }
        Fr { lo: rlo, hi: rhi }
    } else {
        proof {
            lemma_small_mod(limbs_value(lo, hi) as nat, modulus() as nat);
        }
        Fr { lo, hi }
    }
}

/// Builds a 128-bit limb from two 64-bit words.
fn join_words(high: u64, low: u64) -> (res: u128)
    ensures
        res == high * 0x1_0000_0000_0000_0000int + low,
{
    (high as u128) * 0x1_0000_0000_0000_0000u128 + (low as u128)
}

/// One step of the double-and-add loops: folding the low bit `p` of the
/// exponent into the accumulator keeps `acc + base * e` fixed modulo `m`.
proof fn lemma_double_and_add_step(acc: int, base: int, e: int, h: int, p: int, m: int)
    requires
        m > 0,
        e == 2 * h + p,
    ensures
        ((acc + p * base) % m + ((base + base) % m) * h) % m == (acc + base * e) % m,
{
    let x = acc + p * base;
    let y = base + base;
    lemma_mul_mod_noop_left(y, h, m);
    lemma_add_mod_noop(x, y * h, m);
    lemma_add_mod_noop(x % m, (y % m) * h, m);
    lemma_mod_twice(x, m);
    lemma_mod_twice(y * h, m);
    lemma_mul_mod_noop_left(y, h, m);
    assert(x + y * h == acc + base * e) by (nonlinear_arith)
        requires
            x == acc + p * base,
            y == base + base,
            e == 2 * h + p,
    ;
}

/// The candidate inverse of `x`: `x^(r-2) mod r`, which Fermat's little
/// theorem makes the inverse of every nonzero element.
pub open spec fn inverse_candidate(x: int) -> int {
    pow(x, (modulus() - 2) as nat) % modulus()
}

/// One step of square-and-multiply: folding the low bit `b` of the exponent
/// into the result keeps `result * base^e` fixed modulo `m`.
proof fn lemma_square_multiply_step(res: int, base: int, e: nat, h: nat, b: nat, m: int)
    requires
        m > 1,
        e == 2 * h + b,
        b <= 1,
    ensures
        (((res * pow(base, b)) % m) * pow((base * base) % m, h)) % m == (res * pow(base, e)) % m,
{
    let x = res * pow(base, b);
    let y = pow((base * base) % m, h);
    lemma_pow_mod_noop(base * base, h, m);
    lemma_square_is_pow2(base);
    lemma_pow_multiplies(base, 2, h);
    lemma_pow_adds(base, b, 2 * h);
    assert(pow(base, e) == pow(base, b) * pow(base, 2 * h));
    lemma_mul_mod_noop_left(x, y, m);
    lemma_mul_mod_noop_right(x, y, m);
    lemma_mul_mod_noop_right(x, pow(base * base, h), m);
    assert(x * pow(base, 2 * h) == res * pow(base, e)) by (nonlinear_arith)
        requires
            x == res * pow(base, b),
            pow(base, e) == pow(base, b) * pow(base, 2 * h),
    ;
}

/// Halving a value held in limbs.
fn limbs_halve(lo: u128, hi: u128) -> (res: (u128, u128, u128))
    ensures
        res.2 <= 1,
        limbs_value(lo, hi) == 2 * limbs_value(res.0, res.1) + res.2,
{
    let bit = lo % 2;
    let nlo = lo / 2 + (hi % 2) * 0x8000_0000_0000_0000_0000_0000_0000_0000u128;
    let nhi = hi / 2;
    (nlo, nhi, bit)
}

impl Fr {
    /// The additive identity.
    pub fn zero() -> (r: Fr)
        ensures
            r@ == 0,
    {
        Fr { lo: 0, hi: 0 }
    }

    /// The multiplicative identity.
    pub fn one() -> (r: Fr)
        ensures
            r@ == 1,
    {
        Fr { lo: 1, hi: 0 }
    }

    /// The element `n mod r`; every `u64` is below `r`.
    pub fn from_u64(n: u64) -> (r: Fr)
        ensures
            r@ == n,
    {
        Fr { lo: n as u128, hi: 0 }
    }

    /// Whether this is the additive identity.
    pub fn is_zero(&self) -> (b: bool)
        ensures
            b == (self@ == 0),
            0 <= self@ < modulus(),
    {
        proof {
            use_type_invariant(self);
        }
        self.lo == 0 && self.hi == 0
    }

    /// Field addition.
    pub fn add(&self, other: &Fr) -> (r: Fr)
        ensures
            r@ == (self@ + other@) % modulus(),
    {
        proof {
            use_type_invariant(self);
            use_type_invariant(other);
            lemma_modulus_limbs();
        }
        let (lo, hi) = limbs_add(self.lo, self.hi, other.lo, other.hi);
        reduce_once(lo, hi)
    }

    /// Field subtraction.
    pub fn sub(&self, other: &Fr) -> (r: Fr)
        ensures
            r@ == (self@ - other@) % modulus(),
    {
        proof {
            use_type_invariant(self);
            use_type_invariant(other);
            lemma_modulus_limbs();
        }
        if limbs_ge(self.lo, self.hi, other.lo, other.hi) {
            let (lo, hi) = limbs_sub(self.lo, self.hi, other.lo, other.hi);
            proof {
                lemma_small_mod((self@ - other@) as nat, modulus() as nat);
            }
            Fr { lo, hi }
        } else {
            let (slo, shi) = limbs_add(self.lo, self.hi, R_LO, R_HI);
            let (lo, hi) = limbs_sub(slo, shi, other.lo, other.hi);
            proof {
                lemma_fundamental_div_mod_converse(self@ - other@, modulus(), -1, limbs_value(lo, hi));
            }
            Fr { lo, hi }
        }
    }

    /// Additive inverse.
    pub fn neg(&self) -> (r: Fr)
        ensures
            r@ == (-self@) % modulus(),
    {
        Fr::zero().sub(self)
    }

    /// Field multiplication.
    pub fn mul(&self, other: &Fr) -> (r: Fr)
        ensures
            r@ == (self@ * other@) % modulus(),
    {
        proof {
            use_type_invariant(self);
            use_type_invariant(other);
            lemma_modulus_limbs();
        }
        let mut acc = Fr::zero();
        let mut base = *self;
        let mut elo = other.lo;
        let mut ehi = other.hi;
        proof {
            lemma_small_mod(self@ as nat, modulus() as nat);
        }
        while elo != 0 || ehi != 0
            invariant
                modulus() > 1,
                (acc@ + base@ * limbs_value(elo, ehi)) % modulus() == (self@ * other@) % modulus(),
            decreases limbs_value(elo, ehi),
        {
            let ghost e = limbs_value(elo, ehi);
            let ghost old_acc = acc@;
            let ghost old_base = base@;
            let (nlo, nhi, bit) = limbs_halve(elo, ehi);
            if bit == 1 {
                acc = acc.add(&base);
            } else {
                proof {
                    use_type_invariant(&acc);
                    lemma_small_mod(acc@ as nat, modulus() as nat);
                }
            }
            base = base.add(&base);
            elo = nlo;
            ehi = nhi;
            proof {
                lemma_double_and_add_step(old_acc, old_base, e, limbs_value(nlo, nhi), bit as int, modulus());
                assert(acc@ == (old_acc + (bit as int) * old_base) % modulus());
            }
        }
        proof {
            use_type_invariant(&acc);
            lemma_small_mod(acc@ as nat, modulus() as nat);
            assert(limbs_value(elo, ehi) == 0);
            assert(base@ * limbs_value(elo, ehi) == 0) by (nonlinear_arith)
                requires limbs_value(elo, ehi) == 0;
        }
        acc
    }

    /// Multiplicative inverse: `x^(r-2)` when that is an inverse of `x`,
    /// which is the case for every nonzero `x` as `r` is prime, and `None`
    /// otherwise, in particular for zero.
    pub fn inverse(&self) -> (r: Option<Fr>)
        ensures
            self@ == 0 ==> r is None,
            match r {
                Some(t) => t@ == inverse_candidate(self@) && (self@ * t@) % modulus() == 1,
                None => (self@ * inverse_candidate(self@)) % modulus() != 1,
            },
    {
        proof {
            lemma_modulus_limbs();
        }
        // a^(r - 2), computed by square-and-multiply over the exponent's bits.
        let mut result = Fr::one();
        let mut base = *self;
        let mut elo: u128 = R_LO - 2;
        let mut ehi: u128 = R_HI;
        let ghost big_e: nat = (modulus() - 2) as nat;
        proof {
            lemma_pow1(self@);
            assert((1 * pow(self@, big_e)) % modulus() == pow(self@, big_e) % modulus());
        }
        while elo != 0 || ehi != 0
            invariant
                modulus() > 1,
                big_e == (modulus() - 2) as nat,
                limbs_value(elo, ehi) >= 0,
                (result@ * pow(base@, limbs_value(elo, ehi) as nat)) % modulus() == pow(self@, big_e) % modulus(),
            decreases limbs_value(elo, ehi),
        {
            let ghost e = limbs_value(elo, ehi) as nat;
            let ghost old_result = result@;
            let ghost old_base = base@;
            let (nlo, nhi, bit) = limbs_halve(elo, ehi);
            if bit == 1 {
                result = result.mul(&base);
                proof {
                    lemma_pow1(old_base);
                }
            } else {
                proof {
                    lemma_pow0(old_base);
                    use_type_invariant(&result);
                    lemma_small_mod(old_result as nat, modulus() as nat);
                }
            }
            base = base.mul(&base);
            elo = nlo;
            ehi = nhi;
            proof {
                lemma_square_multiply_step(old_result, old_base, e, limbs_value(nlo, nhi) as nat, bit as nat, modulus());
                assert(result@ == (old_result * pow(old_base, bit as nat)) % modulus());
            }
        }
        proof {
            use_type_invariant(&result);
            lemma_pow0(base@);
            lemma_small_mod(result@ as nat, modulus() as nat);
            assert(result@ == inverse_candidate(self@));
        }
        let check = self.mul(&result);
        if check == Fr::one() {
            Some(result)
        } else {
            None
        }
    }

    /// A uniformly drawn field element: 255-bit candidates below `r` are
    /// accepted, and after a bounded number of rejections the last candidate
    /// is reduced once.
    pub fn random<R: RngCore>(rng: &mut R) -> (r: Fr)
        ensures
            0 <= r@ < modulus(),
    {
        proof {
            lemma_modulus_limbs();
        }
        let mut tries: u32 = 0;
        let mut lo: u128 = 0;
        let mut hi: u128 = 0;
        while tries < 64
            invariant
                limbs_value(lo, hi) < 2 * modulus(),
            decreases 64 - tries,
        {
            let w0 = random_u64(rng);
            let w1 = random_u64(rng);
            let w2 = random_u64(rng);
            let w3 = random_u64(rng);
            lo = join_words(w1, w0);
            hi = join_words(w3, w2) / 2;
            if !limbs_ge(lo, hi, R_LO, R_HI) {
                proof {
                    lemma_small_mod(limbs_value(lo, hi) as nat, modulus() as nat);
                }
                return Fr { lo, hi };
            }
            tries = tries + 1;
        }
        let r = reduce_once(lo, hi);
        proof {
            use_type_invariant(&r);
        }
        r
    }
}

/// Two elements with the same value are the same element.
pub proof fn lemma_view_injective(x: Fr, y: Fr)
    requires
        x@ == y@,
    ensures
        x == y,
{
}

/// Draws 64 random bits from `rng` through `RngCore::next_u64`. Nothing is
/// promised of the value.
#[verifier::external_body]
fn random_u64<R: RngCore>(rng: &mut R) -> u64 {
    rng.next_u64()
}

} // verus!
