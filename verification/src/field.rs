//! Residue fields modulo an arbitrary-precision prime, and markers for
//! the floating-point fields.
//!
//! `BigNat` models an arbitrary-precision natural number the same way
//! the binary ring models polynomials: as a canonical little-endian
//! sequence of 32-bit words, whose value `seq_val` already describes.
//! The heavy lifting — addition, multiplication, remainder and the
//! extended greatest common divisor — is done by the `num_bigint` and
//! `num_integer` crates behind trusted wrappers whose contracts state
//! the value computed.  The modular ring operations and the inverse are
//! verified on top of those contracts.

use vstd::prelude::*;
use vstd::arithmetic::power2::pow2;
use vstd::arithmetic::power2::lemma2_to64;
use vstd::arithmetic::power2::lemma_pow2_pos;
use vstd::arithmetic::div_mod::lemma_mod_bound;
use vstd::arithmetic::div_mod::lemma_small_mod;
use vstd::arithmetic::div_mod::lemma_mod_equivalence;
use vstd::arithmetic::div_mod::lemma_mul_mod_noop_general;
use crate::words::seq_val;
use crate::words::canonical;
use crate::words::Word;
use crate::error::Error;
use crate::Ring;
use crate::Field;

verus! {

/// An arbitrary-precision natural number: a canonical little-endian
/// sequence of 32-bit limbs, denoting the same value `seq_val` gives a
/// word vector.
#[derive(Clone, PartialEq, Eq, Debug)]
pub struct BigNat {
    pub limbs: Vec<u32>,
}

impl BigNat {
    /// The natural number this sequence of limbs denotes.
    pub open spec fn val(self) -> nat {
        seq_val(self.limbs@)
    }

    /// No trailing zero limb.
    pub open spec fn wf(self) -> bool {
        canonical(self.limbs@)
    }

    /// A big natural from a machine integer.
    pub fn from_u64(x: u64) -> (r: BigNat)
        ensures
            r.wf(),
            r.val() == x,
    {
        let lo = (x % 0x1_0000_0000) as u32;
        let hi = (x / 0x1_0000_0000) as u32;
        let mut limbs: Vec<u32> = Vec::new();
        proof {
            lemma2_to64();
            vstd::arithmetic::div_mod::lemma_fundamental_div_mod(x as int, 0x1_0000_0000);
        }
        if hi != 0 {
            proof {
                crate::words::lemma_seq_val_push(limbs@, lo);
                assert(u32::width() * limbs@.len() == 0) by (nonlinear_arith)
                    requires
                        limbs@.len() == 0,
                ;
                assert(pow2(0) * (lo as nat) == lo as nat) by (nonlinear_arith)
                    requires
                        pow2(0) == 1,
                ;
            }
            limbs.push(lo);
            proof {
                crate::words::lemma_seq_val_push(limbs@, hi);
                assert(u32::width() * limbs@.len() == 32) by (nonlinear_arith)
                    requires
                        limbs@.len() == 1,
                ;
            }
            limbs.push(hi);
        } else if lo != 0 {
            proof {
                crate::words::lemma_seq_val_push(limbs@, lo);
                assert(u32::width() * limbs@.len() == 0) by (nonlinear_arith)
                    requires
                        limbs@.len() == 0,
                ;
                assert(pow2(0) * (lo as nat) == lo as nat) by (nonlinear_arith)
                    requires
                        pow2(0) == 1,
                ;
            }
            limbs.push(lo);
        }
        BigNat { limbs }
    }

    /// An element-for-element copy.
    fn clone_nat(x: &BigNat) -> (r: BigNat)
        ensures
            r.limbs@ == x.limbs@,
    {
        let mut limbs: Vec<u32> = Vec::new();
        let mut i: usize = 0;
        while i < x.limbs.len()
            invariant
                i <= x.limbs@.len(),
                limbs@ == x.limbs@.take(i as int),
            decreases x.limbs@.len() - i,
        {
            let w = x.limbs[i];
            limbs.push(w);
            proof {
                assert(x.limbs@.take(i as int).push(x.limbs@[i as int]) =~= x.limbs@.take(
                    i + 1,
                ));
            }
            i = i + 1;
        }
        proof {
            assert(x.limbs@.take(x.limbs@.len() as int) =~= x.limbs@);
        }
        BigNat { limbs }
    }
}

/// Relies on `num_bigint::BigUint`: `from_slice` reads base-2^32 digits
/// least significant first, `+` adds the values, and `to_u32_digits`
/// writes the digits back without a trailing zero.
#[verifier::external_body]
fn big_add(a: &BigNat, b: &BigNat) -> (r: BigNat)
    ensures
        r.wf(),
        r.val() == a.val() + b.val(),
{
    let sum = num_bigint::BigUint::from_slice(&a.limbs) + num_bigint::BigUint::from_slice(
        &b.limbs,
    );
    BigNat { limbs: sum.to_u32_digits() }
}

/// Relies on `num_bigint::BigUint`: `*` multiplies the values.
#[verifier::external_body]
fn big_mul(a: &BigNat, b: &BigNat) -> (r: BigNat)
    ensures
        r.wf(),
        r.val() == a.val() * b.val(),
{
    let product = num_bigint::BigUint::from_slice(&a.limbs) * num_bigint::BigUint::from_slice(
        &b.limbs,
    );
    BigNat { limbs: product.to_u32_digits() }
}

/// Relies on `num_bigint::BigUint`: `-` subtracts the values; the crate
/// panics on underflow, so the smaller operand is required to come
/// second.
#[verifier::external_body]
fn big_sub(a: &BigNat, b: &BigNat) -> (r: BigNat)
    requires
        b.val() <= a.val(),
    ensures
        r.wf(),
        r.val() == a.val() - b.val(),
{
    let difference = num_bigint::BigUint::from_slice(&a.limbs) - num_bigint::BigUint::from_slice(
        &b.limbs,
    );
    BigNat { limbs: difference.to_u32_digits() }
}

/// Relies on `num_bigint::BigUint`: `%` takes the remainder of the
/// values; the crate panics on a zero divisor, so it is required
/// non-zero.
#[verifier::external_body]
fn big_rem(a: &BigNat, b: &BigNat) -> (r: BigNat)
    requires
        b.val() > 0,
    ensures
        r.wf(),
        r.val() == a.val() % b.val(),
{
    let remainder = num_bigint::BigUint::from_slice(&a.limbs) % num_bigint::BigUint::from_slice(
        &b.limbs,
    );
    BigNat { limbs: remainder.to_u32_digits() }
}

/// Relies on `num_integer::Integer::extended_gcd` on `num_bigint::BigInt`:
/// it returns the greatest common divisor, normalized non-negative, with
/// a Bezout coefficient `x` satisfying `x*a + y*b == gcd`; so the
/// divisor divides both operands and `x*a` is congruent to the divisor
/// modulo `b`.  The result carries the divisor, the sign of `x` and the
/// magnitude of `x`.
#[verifier::external_body]
fn big_ext_gcd(a: &BigNat, m: &BigNat) -> (r: (BigNat, bool, BigNat))
    requires
        a.val() > 0,
        m.val() > 0,
    ensures
        r.0.wf(),
        r.2.wf(),
        r.0.val() >= 1,
        a.val() % r.0.val() == 0,
        m.val() % r.0.val() == 0,
        ((if r.1 {
            -(r.2.val() as int)
        } else {
            r.2.val() as int
        }) * (a.val() as int) - (r.0.val() as int)) % (m.val() as int) == 0,
{
    let a_int = num_bigint::BigInt::from(num_bigint::BigUint::from_slice(&a.limbs));
    let m_int = num_bigint::BigInt::from(num_bigint::BigUint::from_slice(&m.limbs));
    let e = num_integer::Integer::extended_gcd(&a_int, &m_int);
    let g = BigNat { limbs: e.gcd.to_biguint().expect("the divisor is non-negative").to_u32_digits() };
    let (sign, digits) = e.x.to_u32_digits();
    (g, sign == num_bigint::Sign::Minus, BigNat { limbs: digits })
}

/// Primality, stated directly: no number between 2 and the candidate
/// divides it.
pub open spec fn is_prime(m: nat) -> bool {
    m >= 2 && forall|d: nat| 2 <= d < m ==> #[trigger] (m % d) != 0
}

/// Two inverses of the same residue agree.
proof fn lemma_inverse_unique(a: nat, m: nat, x1: nat, x2: nat)
    requires
        m >= 2,
        x1 < m,
        x2 < m,
        (x1 * a) % m == 1,
        (x2 * a) % m == 1,
    ensures
        x1 == x2,
{
    let mi = m as int;
    lemma_mul_mod_noop_general(x1 as int, (x2 * a) as int, mi);
    lemma_mul_mod_noop_general(x2 as int, (x1 * a) as int, mi);
    assert(x1 * (x2 * a) == x2 * (x1 * a)) by (nonlinear_arith);
    assert((x1 * (((x2 * a) as int) % mi)) % mi == (x2 * (((x1 * a) as int) % mi)) % mi);
    assert(x1 * 1 == x1 && x2 * 1 == x2) by (nonlinear_arith);
    lemma_small_mod(x1, m);
    lemma_small_mod(x2, m);
}

/// The residue field modulo a prime `BigNat` modulus.  The members are
/// the canonical residues below the modulus; arithmetic reduces after
/// every operation.
#[derive(Clone, PartialEq, Debug)]
pub struct ModularField {
    pub modulus: BigNat,
}

impl ModularField {
    /// A field with the given modulus.
    pub fn new(modulus: BigNat) -> (r: ModularField)
        ensures
            r.modulus == modulus,
    {
        ModularField { modulus }
    }
}

impl Ring for ModularField {
    type RingMember = BigNat;

    type Value = nat;

    open spec fn wf(&self) -> bool {
        self.modulus.wf() && is_prime(self.modulus.val())
    }

    open spec fn member_ok(&self, x: BigNat) -> bool {
        x.wf() && x.val() < self.modulus.val()
    }

    open spec fn value_of(&self, x: BigNat) -> nat {
        x.val()
    }

    open spec fn add_v(&self, a: nat, b: nat) -> nat {
        (a + b) % self.modulus.val()
    }

    open spec fn mul_v(&self, a: nat, b: nat) -> nat {
        (a * b) % self.modulus.val()
    }

    open spec fn neg_v(&self, a: nat) -> nat {
        (((self.modulus.val() - a % self.modulus.val()) as nat) % self.modulus.val()) as nat
    }

    open spec fn zero_v(&self) -> nat {
        0
    }

    open spec fn one_v(&self) -> nat {
        1
    }

    fn add(&self, lhs: &BigNat, rhs: &BigNat) -> (r: BigNat)
        ensures
            self.member_ok(r),
            self.value_of(r) == self.add_v(self.value_of(*lhs), self.value_of(*rhs)),
    {
        let sum = big_add(lhs, rhs);
        let out = big_rem(&sum, &self.modulus);
        proof {
            lemma_mod_bound((lhs.val() + rhs.val()) as int, self.modulus.val() as int);
        }
        out
    }

    fn mul(&self, lhs: &BigNat, rhs: &BigNat) -> (r: BigNat)
        ensures
            self.member_ok(r),
            self.value_of(r) == self.mul_v(self.value_of(*lhs), self.value_of(*rhs)),
    {
        let product = big_mul(lhs, rhs);
        let out = big_rem(&product, &self.modulus);
        proof {
            lemma_mod_bound((lhs.val() * rhs.val()) as int, self.modulus.val() as int);
        }
        out
    }

    fn neg(&self, lhs: &BigNat) -> (r: BigNat)
        ensures
            self.member_ok(r),
            self.value_of(r) == self.neg_v(self.value_of(*lhs)),
    {
        let difference = big_sub(&self.modulus, lhs);
        let out = big_rem(&difference, &self.modulus);
        proof {
            lemma_small_mod(lhs.val(), self.modulus.val());
            lemma_mod_bound(
                (self.modulus.val() - lhs.val()) as int,
                self.modulus.val() as int,
            );
        }
        out
    }

    fn zero(&self) -> (r: BigNat)
        ensures
            self.member_ok(r),
            self.value_of(r) == self.zero_v(),
    {
        BigNat { limbs: Vec::new() }
    }

    fn one(&self) -> (r: BigNat)
        ensures
            self.member_ok(r),
            self.value_of(r) == self.one_v(),
    {
        BigNat::from_u64(1)
    }

    fn clone_member(&self, x: &BigNat) -> (r: BigNat)
        ensures
            self.member_ok(r),
            self.value_of(r) == self.value_of(*x),
    {
        BigNat::clone_nat(x)
    }

    fn is_zero_member(&self, x: &BigNat) -> (b: bool)
        ensures
            b == (self.value_of(*x) == self.zero_v()),
    {
        proof {
            if x.limbs@.len() > 0 {
                crate::words::lemma_canonical_pos(x.limbs@);
                lemma_pow2_pos(u32::width() * (x.limbs@.len() - 1) as nat);
            }
        }
        x.limbs.len() == 0
    }
}

impl Field for ModularField {
    open spec fn inv_v(&self, a: nat) -> nat {
        choose|x: nat| x < self.modulus.val() && #[trigger] ((x * a) % self.modulus.val()) == 1
    }

    fn inv(&self, value: &BigNat) -> (r: Result<BigNat, Error>) {
        let ghost mv = self.modulus.val();
        let ghost av = value.val();
        if value.limbs.len() == 0 {
            return Err(Error::DivisionByZero);
        }
        proof {
            crate::words::lemma_canonical_pos(value.limbs@);
            lemma_pow2_pos(u32::width() * (value.limbs@.len() - 1) as nat);
        }
        let egcd = big_ext_gcd(value, &self.modulus);
        proof {
            // a prime modulus forces the divisor of both operands to one
            let g = egcd.0.val();
            if g >= 2 {
                if g > mv {
                    lemma_small_mod(mv, g);
                }
                if g == mv {
                    lemma_small_mod(av, mv);
                }
                assert(2 <= g < mv);
                assert(mv % g != 0);
                assert(false);
            }
        }
        let mut out = big_rem(&egcd.2, &self.modulus);
        let ghost redv = egcd.2.val() % mv;
        proof {
            if out.limbs@.len() > 0 {
                crate::words::lemma_canonical_pos(out.limbs@);
                lemma_pow2_pos(u32::width() * (out.limbs@.len() - 1) as nat);
            }
            lemma_mod_bound(egcd.2.val() as int, mv as int);
        }
        let ghost was_negated = egcd.1 && out.limbs@.len() > 0;
        if egcd.1 && out.limbs.len() > 0 {
            out = big_sub(&self.modulus, &out);
        }
        proof {
            let mi = mv as int;
            let x: int = if egcd.1 {
                -(egcd.2.val() as int)
            } else {
                egcd.2.val() as int
            };
            let ov = out.val();
            vstd::arithmetic::div_mod::lemma_fundamental_div_mod(egcd.2.val() as int, mi);
            let q = (egcd.2.val() as int) / mi;
            // the normalized residue differs from the coefficient by a
            // multiple of the modulus
            if was_negated {
                assert(ov == mv - redv);
                assert((ov as int) - x == (1 + q) * mi) by (nonlinear_arith)
                    requires
                        (ov as int) == mi - (redv as int),
                        (redv as int) == (egcd.2.val() as int) % mi,
                        (egcd.2.val() as int) == mi * q + (egcd.2.val() as int) % mi,
                        x == -(egcd.2.val() as int),
                ;
                vstd::arithmetic::div_mod::lemma_mod_multiples_basic(1 + q, mi);
            } else if egcd.1 {
                // the coefficient was a multiple of the modulus
                assert(ov == redv && redv == 0);
                assert((ov as int) - x == q * mi) by (nonlinear_arith)
                    requires
                        ov == 0,
                        (egcd.2.val() as int) == mi * q + (egcd.2.val() as int) % mi,
                        (egcd.2.val() as int) % mi == 0,
                        x == -(egcd.2.val() as int),
                ;
                vstd::arithmetic::div_mod::lemma_mod_multiples_basic(q, mi);
            } else {
                assert(ov == redv);
                assert(((ov as int) - x) == (-q) * mi) by (nonlinear_arith)
                    requires
                        (ov as int) == (egcd.2.val() as int) % mi,
                        (egcd.2.val() as int) == mi * q + (egcd.2.val() as int) % mi,
                        x == egcd.2.val() as int,
                ;
                vstd::arithmetic::div_mod::lemma_mod_multiples_basic(-q, mi);
            }
            assert(((ov as int) - x) % mi == 0);
            // so they have equal remainders, and equal products with the value
            lemma_mod_equivalence(ov as int, x, mi);
            assert((ov as int) % mi == x % mi);
            vstd::arithmetic::div_mod::lemma_mul_mod_noop_left(ov as int, av as int, mi);
            vstd::arithmetic::div_mod::lemma_mul_mod_noop_left(x, av as int, mi);
            assert(((ov as int) * (av as int)) % mi == (x * (av as int)) % mi);
            // the Bezout identity makes x * a congruent to one
            lemma_mod_equivalence(x * (av as int), 1, mi);
            lemma_small_mod(1nat, mv);
            assert((x * (av as int)) % mi == 1);
            assert(((ov as int) * (av as int)) % mi == 1);
            assert(((ov * av) as int) == (ov as int) * (av as int)) by (nonlinear_arith);
            assert((ov * av) % mv == 1);
            // the result is a residue
            assert(ov < mv);
            // and it is the unique such residue, hence the inverse
            let w = self.inv_v(av);
            assert(exists|x2: nat|
                x2 < self.modulus.val() && #[trigger] ((x2 * av) % self.modulus.val())
                    == 1) by {
                assert(ov < self.modulus.val() && ((ov * av) % self.modulus.val()) == 1);
            }
            assert(w < mv && (w * av) % mv == 1);
            lemma_inverse_unique(av, mv, ov, w);
        }
        Ok(out)
    }
}

/// The field of real numbers approximated by `f64`.  Floating point is
/// outside what the verifier reasons about; the arithmetic lives with
/// the library's unverified callers.
pub struct F64Field;

/// The field of complex numbers with `f64` components; as for the real
/// field, the arithmetic lives with the library's unverified callers.
pub struct ComplexField;

} // verus!
