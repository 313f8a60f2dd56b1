//! Fixed-width unsigned machine words as GF(2) coefficient vectors.
//!
//! The binary ring and the binary field are generic over the width of the
//! word they store coefficients in.  This module defines the `Word` trait
//! that captures exactly the bit operations those algorithms need, each
//! specified against the word's value as a natural number, and implements
//! it for the five unsigned integer widths.  Generic helpers for
//! multi-bit shifts, bit tests and degree computation are proved once,
//! against the trait's contracts.

use vstd::prelude::*;
use vstd::arithmetic::power2::pow2;
use vstd::arithmetic::power2::lemma_pow2_adds;
use vstd::arithmetic::power2::lemma_pow2_strictly_increases;
use vstd::arithmetic::power2::lemma_pow2_pos;
use vstd::arithmetic::power2::lemma2_to64;
use vstd::arithmetic::power2::lemma2_to64_rest;
use vstd::arithmetic::div_mod::lemma_fundamental_div_mod;
use vstd::arithmetic::div_mod::lemma_fundamental_div_mod_converse;
use vstd::arithmetic::div_mod::lemma_div_denominator;
use crate::gf2::bxor;
use crate::gf2::deg;
use crate::gf2::lemma_pow2_double;

verus! {

/// A fixed-width unsigned integer used as a vector of GF(2) coefficients:
/// bit `i` of the word is the coefficient of `x^i`.  Every operation is
/// specified against `value`, the natural number the word denotes.
pub trait Word: Copy + Sized + PartialEq + core::fmt::Debug {
    /// The natural number the word denotes.
    spec fn value(self) -> nat;

    /// The width of the word, in bits.
    spec fn width() -> nat;

    /// The width is at least a byte and at most 128 bits.
    proof fn lemma_width()
        ensures
            Self::width() >= 8,
            Self::width() <= 128,
    ;

    /// The width is at least a byte and a word's value fits in it.
    proof fn lemma_value_bound(self)
        ensures
            Self::width() >= 8,
            Self::width() <= 128,
            self.value() < pow2(Self::width()),
    ;

    /// Words with equal values are equal.
    proof fn lemma_injective(self, other: Self)
        requires
            self.value() == other.value(),
        ensures
            self == other,
    ;

    /// The width, as a run-time quantity.
    fn bits() -> (r: u32)
        ensures
            r as nat == Self::width(),
    ;

    /// The additive identity.
    fn zero() -> (r: Self)
        ensures
            r.value() == 0,
    ;

    /// The multiplicative identity.
    fn one() -> (r: Self)
        ensures
            r.value() == 1,
    ;

    /// The word with only the most significant bit set.
    fn high_bit() -> (r: Self)
        ensures
            r.value() == pow2((Self::width() - 1) as nat),
    ;

    /// Carry-free addition: bitwise exclusive or.
    fn xor(self, other: Self) -> (r: Self)
        ensures
            r.value() == bxor(self.value(), other.value()),
    ;

    /// Shift one bit towards the most significant end, discarding the top
    /// bit.
    fn shl1(self) -> (r: Self)
        ensures
            r.value() == (2 * self.value()) % pow2(Self::width()),
    ;

    /// Shift one bit towards the least significant end.
    fn shr1(self) -> (r: Self)
        ensures
            r.value() == self.value() / 2,
    ;

    /// The least significant bit.
    fn odd(self) -> (r: bool)
        ensures
            r == (self.value() % 2 == 1),
    ;

    /// Whether this word is the additive identity.
    fn is_zero(self) -> (r: bool)
        ensures
            r == (self.value() == 0),
    ;

    /// Whether the most significant bit is set.
    fn top_bit(self) -> (r: bool)
        ensures
            r == (self.value() >= pow2((Self::width() - 1) as nat)),
    ;
}

/// Doubling before a reduction doubles the modulus:
/// `(2a) mod 2h == 2 (a mod h)`.
pub proof fn lemma_double_mod(a: nat, h: nat)
    requires
        h > 0,
    ensures
        (2 * a) % (2 * h) == 2 * (a % h),
{
    lemma_fundamental_div_mod(a as int, h as int);
    let q = a / h;
    let r = a % h;
    assert(2 * a == q * (2 * h) + 2 * r) by (nonlinear_arith)
        requires
            a == h * q + r,
    ;
    lemma_fundamental_div_mod_converse((2 * a) as int, (2 * h) as int, q as int, (2 * r) as int);
}

/// The recursion step shared by the per-width exclusive-or bridges:
/// rebuilding a carry-free sum from its halves and parities.
proof fn lemma_bxor_rebuild(a: nat, b: nat, r: nat)
    requires
        r == 2 * bxor(a / 2, b / 2) + (a % 2 + b % 2) % 2,
    ensures
        r == bxor(a, b),
{
    if a == 0 && b == 0 {
    } else {
        assert((a % 2 + b % 2) % 2 == (a + b) % 2) by (nonlinear_arith);
    }
}

/// Bitwise exclusive or on `u8` agrees with `bxor` on the values.
proof fn lemma_u8_xor_bridge(a: u8, b: u8)
    ensures
        (a ^ b) as nat == bxor(a as nat, b as nat),
    decreases a + b,
{
    if a == 0 && b == 0 {
        assert(0u8 ^ 0u8 == 0) by (bit_vector);
    } else {
        lemma_u8_xor_bridge(a / 2, b / 2);
        assert(a ^ b == 2 * ((a / 2) ^ (b / 2)) + ((a % 2 + b % 2) % 2)) by (bit_vector);
        lemma_bxor_rebuild(a as nat, b as nat, (a ^ b) as nat);
    }
}

impl Word for u8 {
    open spec fn value(self) -> nat {
        self as nat
    }

    open spec fn width() -> nat {
        8
    }

    proof fn lemma_width() {
        lemma2_to64();
    }

    proof fn lemma_value_bound(self) {
        lemma2_to64();
    }

    proof fn lemma_injective(self, other: Self) {
    }

    fn bits() -> u32 {
        8
    }

    fn zero() -> Self {
        0
    }

    fn one() -> Self {
        1
    }

    fn high_bit() -> (r: Self)
        ensures
            r.value() == pow2((Self::width() - 1) as nat),
    {
        proof {
            lemma2_to64();
        }
        0x80
    }

    fn xor(self, other: Self) -> (r: Self)
        ensures
            r.value() == bxor(self.value(), other.value()),
    {
        proof {
            lemma_u8_xor_bridge(self, other);
        }
        self ^ other
    }

    fn shl1(self) -> (r: Self)
        ensures
            r.value() == (2 * self.value()) % pow2(Self::width()),
    {
        proof {
            lemma2_to64();
            lemma_double_mod(self as nat, 0x80);
        }
        (self % 0x80) * 2
    }

    fn shr1(self) -> Self {
        self / 2
    }

    fn odd(self) -> bool {
        self % 2 == 1
    }

    fn is_zero(self) -> bool {
        self == 0
    }

    fn top_bit(self) -> (r: bool)
        ensures
            r == (self.value() >= pow2((Self::width() - 1) as nat)),
    {
        proof {
            lemma2_to64();
        }
        self >= 0x80
    }
}

/// Bitwise exclusive or on `u16` agrees with `bxor` on the values.
proof fn lemma_u16_xor_bridge(a: u16, b: u16)
    ensures
        (a ^ b) as nat == bxor(a as nat, b as nat),
    decreases a + b,
{
    if a == 0 && b == 0 {
        assert(0u16 ^ 0u16 == 0) by (bit_vector);
    } else {
        lemma_u16_xor_bridge(a / 2, b / 2);
        assert(a ^ b == 2 * ((a / 2) ^ (b / 2)) + ((a % 2 + b % 2) % 2)) by (bit_vector);
        lemma_bxor_rebuild(a as nat, b as nat, (a ^ b) as nat);
    }
}

impl Word for u16 {
    open spec fn value(self) -> nat {
        self as nat
    }

    open spec fn width() -> nat {
        16
    }

    proof fn lemma_width() {
        lemma2_to64();
    }

    proof fn lemma_value_bound(self) {
        lemma2_to64();
    }

    proof fn lemma_injective(self, other: Self) {
    }

    fn bits() -> u32 {
        16
    }

    fn zero() -> Self {
        0
    }

    fn one() -> Self {
        1
    }

    fn high_bit() -> (r: Self)
        ensures
            r.value() == pow2((Self::width() - 1) as nat),
    {
        proof {
            lemma2_to64();
        }
        0x8000
    }

    fn xor(self, other: Self) -> (r: Self)
        ensures
            r.value() == bxor(self.value(), other.value()),
    {
        proof {
            lemma_u16_xor_bridge(self, other);
        }
        self ^ other
    }

    fn shl1(self) -> (r: Self)
        ensures
            r.value() == (2 * self.value()) % pow2(Self::width()),
    {
        proof {
            lemma2_to64();
            lemma_double_mod(self as nat, 0x8000);
        }
        (self % 0x8000) * 2
    }

    fn shr1(self) -> Self {
        self / 2
    }

    fn odd(self) -> bool {
        self % 2 == 1
    }

    fn is_zero(self) -> bool {
        self == 0
    }

    fn top_bit(self) -> (r: bool)
        ensures
            r == (self.value() >= pow2((Self::width() - 1) as nat)),
    {
        proof {
            lemma2_to64();
        }
        self >= 0x8000
    }
}

/// Bitwise exclusive or on `u32` agrees with `bxor` on the values.
proof fn lemma_u32_xor_bridge(a: u32, b: u32)
    ensures
        (a ^ b) as nat == bxor(a as nat, b as nat),
    decreases a + b,
{
    if a == 0 && b == 0 {
        assert(0u32 ^ 0u32 == 0) by (bit_vector);
    } else {
        lemma_u32_xor_bridge(a / 2, b / 2);
        assert(a ^ b == 2 * ((a / 2) ^ (b / 2)) + ((a % 2 + b % 2) % 2)) by (bit_vector);
        lemma_bxor_rebuild(a as nat, b as nat, (a ^ b) as nat);
    }
}

impl Word for u32 {
    open spec fn value(self) -> nat {
        self as nat
    }

    open spec fn width() -> nat {
        32
    }

    proof fn lemma_width() {
        lemma2_to64();
    }

    proof fn lemma_value_bound(self) {
        lemma2_to64();
    }

    proof fn lemma_injective(self, other: Self) {
    }

    fn bits() -> u32 {
        32
    }

    fn zero() -> Self {
        0
    }

    fn one() -> Self {
        1
    }

    fn high_bit() -> (r: Self)
        ensures
            r.value() == pow2((Self::width() - 1) as nat),
    {
        proof {
            lemma2_to64();
        }
        0x8000_0000
    }

    fn xor(self, other: Self) -> (r: Self)
        ensures
            r.value() == bxor(self.value(), other.value()),
    {
        proof {
            lemma_u32_xor_bridge(self, other);
        }
        self ^ other
    }

    fn shl1(self) -> (r: Self)
        ensures
            r.value() == (2 * self.value()) % pow2(Self::width()),
    {
        proof {
            lemma2_to64();
            lemma_double_mod(self as nat, 0x8000_0000);
        }
        (self % 0x8000_0000) * 2
    }

    fn shr1(self) -> Self {
        self / 2
    }

    fn odd(self) -> bool {
        self % 2 == 1
    }

    fn is_zero(self) -> bool {
        self == 0
    }

    fn top_bit(self) -> (r: bool)
        ensures
            r == (self.value() >= pow2((Self::width() - 1) as nat)),
    {
        proof {
            lemma2_to64();
        }
        self >= 0x8000_0000
    }
}

/// Bitwise exclusive or on `u64` agrees with `bxor` on the values.
proof fn lemma_u64_xor_bridge(a: u64, b: u64)
    ensures
        (a ^ b) as nat == bxor(a as nat, b as nat),
    decreases a + b,
{
    if a == 0 && b == 0 {
        assert(0u64 ^ 0u64 == 0) by (bit_vector);
    } else {
        lemma_u64_xor_bridge(a / 2, b / 2);
        assert(a ^ b == 2 * ((a / 2) ^ (b / 2)) + ((a % 2 + b % 2) % 2)) by (bit_vector);
        lemma_bxor_rebuild(a as nat, b as nat, (a ^ b) as nat);
    }
}

impl Word for u64 {
    open spec fn value(self) -> nat {
        self as nat
    }

    open spec fn width() -> nat {
        64
    }

    proof fn lemma_width() {
        lemma2_to64();
    }

    proof fn lemma_value_bound(self) {
        lemma2_to64();
    }

    proof fn lemma_injective(self, other: Self) {
    }

    fn bits() -> u32 {
        64
    }

    fn zero() -> Self {
        0
    }

    fn one() -> Self {
        1
    }

    fn high_bit() -> (r: Self)
        ensures
            r.value() == pow2((Self::width() - 1) as nat),
    {
        proof {
            lemma2_to64();
            lemma2_to64_rest();
        }
        0x8000_0000_0000_0000
    }

    fn xor(self, other: Self) -> (r: Self)
        ensures
            r.value() == bxor(self.value(), other.value()),
    {
        proof {
            lemma_u64_xor_bridge(self, other);
        }
        self ^ other
    }

    fn shl1(self) -> (r: Self)
        ensures
            r.value() == (2 * self.value()) % pow2(Self::width()),
    {
        proof {
            lemma2_to64();
            lemma2_to64_rest();
            lemma_double_mod(self as nat, 0x8000_0000_0000_0000);
        }
        (self % 0x8000_0000_0000_0000) * 2
    }

    fn shr1(self) -> Self {
        self / 2
    }

    fn odd(self) -> bool {
        self % 2 == 1
    }

    fn is_zero(self) -> bool {
        self == 0
    }

    fn top_bit(self) -> (r: bool)
        ensures
            r == (self.value() >= pow2((Self::width() - 1) as nat)),
    {
        proof {
            lemma2_to64();
            lemma2_to64_rest();
        }
        self >= 0x8000_0000_0000_0000
    }
}

/// The two powers of two that frame a 128-bit word.
proof fn lemma_pow2_u128()
    ensures
        pow2(127) == 0x8000_0000_0000_0000_0000_0000_0000_0000,
        pow2(128) == 0x1_0000_0000_0000_0000_0000_0000_0000_0000,
{
    lemma2_to64();
    lemma2_to64_rest();
    lemma_pow2_adds(64, 63);
    lemma_pow2_adds(64, 64);
}

/// Bitwise exclusive or on `u128` agrees with `bxor` on the values.
proof fn lemma_u128_xor_bridge(a: u128, b: u128)
    ensures
        (a ^ b) as nat == bxor(a as nat, b as nat),
    decreases a + b,
{
    if a == 0 && b == 0 {
        assert(0u128 ^ 0u128 == 0) by (bit_vector);
    } else {
        lemma_u128_xor_bridge(a / 2, b / 2);
        assert(a ^ b == 2 * ((a / 2) ^ (b / 2)) + ((a % 2 + b % 2) % 2)) by (bit_vector);
        lemma_bxor_rebuild(a as nat, b as nat, (a ^ b) as nat);
    }
}

impl Word for u128 {
    open spec fn value(self) -> nat {
        self as nat
    }

    open spec fn width() -> nat {
        128
    }

    proof fn lemma_width() {
        lemma_pow2_u128();
    }

    proof fn lemma_value_bound(self) {
        lemma_pow2_u128();
    }

    proof fn lemma_injective(self, other: Self) {
    }

    fn bits() -> u32 {
        128
    }

    fn zero() -> Self {
        0
    }

    fn one() -> Self {
        1
    }

    fn high_bit() -> (r: Self)
        ensures
            r.value() == pow2((Self::width() - 1) as nat),
    {
        proof {
            lemma_pow2_u128();
        }
        0x8000_0000_0000_0000_0000_0000_0000_0000
    }

    fn xor(self, other: Self) -> (r: Self)
        ensures
            r.value() == bxor(self.value(), other.value()),
    {
        proof {
            lemma_u128_xor_bridge(self, other);
        }
        self ^ other
    }

    fn shl1(self) -> (r: Self)
        ensures
            r.value() == (2 * self.value()) % pow2(Self::width()),
    {
        proof {
            lemma_pow2_u128();
            lemma_double_mod(self as nat, 0x8000_0000_0000_0000_0000_0000_0000_0000);
        }
        (self % 0x8000_0000_0000_0000_0000_0000_0000_0000) * 2
    }

    fn shr1(self) -> Self {
        self / 2
    }

    fn odd(self) -> bool {
        self % 2 == 1
    }

    fn is_zero(self) -> bool {
        self == 0
    }

    fn top_bit(self) -> (r: bool)
        ensures
            r == (self.value() >= pow2((Self::width() - 1) as nat)),
    {
        proof {
            lemma_pow2_u128();
        }
        self >= 0x8000_0000_0000_0000_0000_0000_0000_0000
    }
}

/// Shift a word right by `k` bits: division by `2^k`.
pub fn word_shr<T: Word>(w: T, k: u32) -> (r: T)
    ensures
        r.value() == w.value() / pow2(k as nat),
{
    let mut v = w;
    let mut i: u32 = 0;
    proof {
        lemma2_to64();
    }
    while i < k
        invariant
            i <= k,
            v.value() == w.value() / pow2(i as nat),
        decreases k - i,
    {
        proof {
            lemma_pow2_pos(i as nat);
            lemma_pow2_double(i as nat);
            lemma_div_denominator(w.value() as int, pow2(i as nat) as int, 2);
        }
        v = v.shr1();
        i = i + 1;
    }
    v
}

/// Test bit `k` of a word: the coefficient of `x^k`.
pub fn word_bit<T: Word>(w: T, k: u32) -> (r: bool)
    ensures
        r == (w.value() / pow2(k as nat) % 2 == 1),
{
    word_shr(w, k).odd()
}

/// Shift a word left by `k` bits, discarding what crosses the top:
/// multiplication by `2^k` modulo `2^width`.
pub fn word_shl<T: Word>(w: T, k: u32) -> (r: T)
    requires
        k as nat <= T::width(),
    ensures
        r.value() == (w.value() * pow2(k as nat)) % pow2(T::width()),
{
    let mut v = w;
    let mut i: u32 = 0;
    proof {
        lemma2_to64();
        w.lemma_value_bound();
        lemma_pow2_pos(T::width());
        assert(w.value() * pow2(0) == w.value()) by (nonlinear_arith)
            requires
                pow2(0) == 1,
        ;
        assert(w.value() % pow2(T::width()) == w.value()) by (nonlinear_arith)
            requires
                w.value() < pow2(T::width()),
                pow2(T::width()) > 0,
        ;
    }
    while i < k
        invariant
            i <= k,
            v.value() == (w.value() * pow2(i as nat)) % pow2(T::width()),
        decreases k - i,
    {
        proof {
            lemma_pow2_double(i as nat);
            lemma_pow2_pos(i as nat);
            lemma_pow2_pos(T::width());
            vstd::arithmetic::div_mod::lemma_mul_mod_noop_left(
                (w.value() * pow2(i as nat)) as int,
                2,
                pow2(T::width()) as int,
            );
            assert(2 * (w.value() * pow2(i as nat)) == w.value() * pow2((i + 1) as nat))
                by (nonlinear_arith)
                requires
                    pow2((i + 1) as nat) == 2 * pow2(i as nat),
            ;
        }
        v = v.shl1();
        i = i + 1;
    }
    v
}

/// The degree of the polynomial a single word denotes: the index of its
/// highest set bit, or 0 for the zero word, matching the word-level
/// convention of the binary field.
pub fn word_degree<T: Word>(w: T) -> (r: u32)
    ensures
        w.value() == 0 ==> r == 0,
        w.value() > 0 ==> r as int == deg(w.value()),
        (r as nat) < T::width(),
{
    proof {
        lemma2_to64();
        w.lemma_value_bound();
        crate::gf2::lemma_deg_at_least(w.value());
    }
    if w.is_zero() {
        proof {
            lemma_pow2_pos(T::width());
        }
        return 0;
    }
    let mut v = w.shr1();
    let mut d: u32 = 0;
    while !v.is_zero()
        invariant
            v.value() == w.value() / pow2((d + 1) as nat),
            w.value() / pow2(d as nat) > 0,
            (d as nat) < T::width(),
        decreases v.value(),
    {
        proof {
            lemma_pow2_pos((d + 1) as nat);
            lemma_pow2_double((d + 1) as nat);
            lemma_div_denominator(w.value() as int, pow2((d + 1) as nat) as int, 2);
            // the next bit index stays within the width
            w.lemma_value_bound();
            assert(pow2((d + 1) as nat) <= w.value()) by (nonlinear_arith)
                requires
                    w.value() / pow2((d + 1) as nat) > 0,
                    pow2((d + 1) as nat) > 0,
            ;
            if (d + 1) as nat >= T::width() {
                if (d + 1) as nat > T::width() {
                    lemma_pow2_strictly_increases(T::width(), (d + 1) as nat);
                }
                assert(false);
            }
        }
        v = v.shr1();
        d = d + 1;
    }
    proof {
        // w / 2^(d+1) == 0 and w / 2^d > 0 pin the degree at d.
        lemma_pow2_pos(d as nat);
        lemma_pow2_pos((d + 1) as nat);
        assert(w.value() < pow2((d + 1) as nat)) by (nonlinear_arith)
            requires
                w.value() / pow2((d + 1) as nat) == 0,
                pow2((d + 1) as nat) > 0,
        ;
        assert(pow2(d as nat) <= w.value()) by (nonlinear_arith)
            requires
                w.value() / pow2(d as nat) > 0,
                pow2(d as nat) > 0,
        ;
        crate::gf2::lemma_deg_in_range(w.value(), d as nat);
    }
    d
}

/// The value of a little-endian sequence of words: word `i` contributes
/// its value scaled by `2^(width * i)`.
pub open spec fn seq_val<T: Word>(s: Seq<T>) -> nat
    decreases s.len(),
{
    if s.len() == 0 {
        0
    } else {
        s[0].value() + pow2(T::width()) * seq_val(s.drop_first())
    }
}

/// A word sequence is canonical when it has no trailing zero word: the
/// most significant word, if any, is non-zero.
pub open spec fn canonical<T: Word>(s: Seq<T>) -> bool {
    s.len() == 0 || s[s.len() - 1].value() != 0
}

/// Appending a word adds its value at the sequence's top position.
pub proof fn lemma_seq_val_push<T: Word>(s: Seq<T>, w: T)
    ensures
        seq_val(s.push(w)) == seq_val(s) + pow2(T::width() * s.len()) * w.value(),
    decreases s.len(),
{
    let n = T::width();
    if s.len() == 0 {
        lemma2_to64();
        assert(s.push(w).drop_first() =~= Seq::<T>::empty());
        assert(seq_val(s.push(w)) == w.value() + pow2(n) * seq_val(Seq::<T>::empty()));
        assert(n * s.len() == 0) by (nonlinear_arith)
            requires
                s.len() == 0,
        ;
        assert(pow2(n) * 0 == 0 && 1 * w.value() == w.value()) by (nonlinear_arith);
    } else {
        let t = s.drop_first();
        assert(s.push(w).drop_first() =~= t.push(w));
        lemma_seq_val_push(t, w);
        lemma_pow2_adds(n, (n * (s.len() - 1)) as nat);
        assert(n + n * (s.len() - 1) == n * s.len()) by (nonlinear_arith);
        let p1 = pow2((n * (s.len() - 1)) as nat);
        assert(pow2(n) * (seq_val(t) + p1 * w.value()) == pow2(n) * seq_val(t) + (pow2(n) * p1)
            * w.value()) by (nonlinear_arith);
    }
}

/// Splitting off the most significant word.
pub proof fn lemma_seq_val_last<T: Word>(s: Seq<T>)
    requires
        s.len() > 0,
    ensures
        seq_val(s) == seq_val(s.drop_last()) + pow2(T::width() * (s.len() - 1) as nat)
            * s.last().value(),
{
    assert(s =~= s.drop_last().push(s.last()));
    lemma_seq_val_push(s.drop_last(), s.last());
}

/// The value of a sequence of `k` words is below `2^(width * k)`.
pub proof fn lemma_seq_val_bound<T: Word>(s: Seq<T>)
    ensures
        seq_val(s) < pow2(T::width() * s.len()),
    decreases s.len(),
{
    let n = T::width();
    if s.len() == 0 {
        lemma2_to64();
    } else {
        let t = s.drop_first();
        lemma_seq_val_bound(t);
        s[0].lemma_value_bound();
        lemma_pow2_adds(n, (n * (s.len() - 1)) as nat);
        assert(n + n * (s.len() - 1) == n * s.len()) by (nonlinear_arith);
        let p1 = pow2((n * (s.len() - 1)) as nat);
        assert(s[0].value() + pow2(n) * seq_val(t) < pow2(n) * p1) by (nonlinear_arith)
            requires
                s[0].value() < pow2(n),
                seq_val(t) < p1,
                seq_val(t) + 1 <= p1,
        ;
    }
}

/// A non-empty canonical sequence has a positive value, at least the
/// weight of its top word.
pub proof fn lemma_canonical_pos<T: Word>(s: Seq<T>)
    requires
        s.len() > 0,
        s[s.len() - 1].value() != 0,
    ensures
        seq_val(s) >= pow2(T::width() * (s.len() - 1) as nat),
{
    lemma_seq_val_last(s);
    let p = pow2(T::width() * (s.len() - 1) as nat);
    assert(p * s.last().value() >= p) by (nonlinear_arith)
        requires
            s.last().value() >= 1,
            p >= 0,
    ;
}

/// The degree of a sequence's value is the top word's degree offset by
/// the bits below it.
pub proof fn lemma_seq_val_deg<T: Word>(s: Seq<T>)
    requires
        s.len() > 0,
        s[s.len() - 1].value() != 0,
    ensures
        deg(seq_val(s)) == T::width() * (s.len() - 1) + deg(s.last().value()),
{
    let n = T::width();
    let p = pow2((n * (s.len() - 1)) as nat);
    let top = s.last().value();
    let low = seq_val(s.drop_last());
    lemma_seq_val_last(s);
    lemma_seq_val_bound(s.drop_last());
    crate::gf2::lemma_deg_bounds(top);
    let d = deg(top) as nat;
    lemma_pow2_adds((n * (s.len() - 1)) as nat, d);
    lemma_pow2_adds((n * (s.len() - 1)) as nat, d + 1);
    assert(p * pow2(d) <= p * top && p * top <= seq_val(s)) by (nonlinear_arith)
        requires
            pow2(d) <= top,
            p >= 0,
            seq_val(s) == low + p * top,
            low >= 0,
    ;
    assert(seq_val(s) < p * pow2(d + 1)) by (nonlinear_arith)
        requires
            top + 1 <= pow2(d + 1),
            low < p,
            seq_val(s) == low + p * top,
    ;
    crate::gf2::lemma_deg_in_range(seq_val(s), ((n * (s.len() - 1)) as nat + d) as nat);
}

/// Sequences of the same length are uniquely determined by their
/// values: together with a length bound, a value equation pins every
/// word of a result.
pub proof fn lemma_seq_val_len_injective<T: Word>(a: Seq<T>, b: Seq<T>)
    requires
        a.len() == b.len(),
        seq_val(a) == seq_val(b),
    ensures
        a == b,
    decreases a.len(),
{
    let n = T::width();
    if a.len() == 0 {
        assert(a =~= b);
    } else {
        let ta = a.drop_first();
        let tb = b.drop_first();
        a[0].lemma_value_bound();
        b[0].lemma_value_bound();
        lemma_pow2_pos(n);
        assert(seq_val(a) == seq_val(ta) * pow2(n) + a[0].value()) by (nonlinear_arith)
            requires
                seq_val(a) == a[0].value() + pow2(n) * seq_val(ta),
        ;
        assert(seq_val(b) == seq_val(tb) * pow2(n) + b[0].value()) by (nonlinear_arith)
            requires
                seq_val(b) == b[0].value() + pow2(n) * seq_val(tb),
        ;
        lemma_fundamental_div_mod_converse(
            seq_val(a) as int,
            pow2(n) as int,
            seq_val(ta) as int,
            a[0].value() as int,
        );
        lemma_fundamental_div_mod_converse(
            seq_val(b) as int,
            pow2(n) as int,
            seq_val(tb) as int,
            b[0].value() as int,
        );
        assert(a[0].value() == b[0].value());
        a[0].lemma_injective(b[0]);
        lemma_seq_val_len_injective(ta, tb);
        assert(forall|i: int| 1 <= i < a.len() ==> #[trigger] a[i] == ta[i - 1]);
        assert(forall|i: int| 1 <= i < b.len() ==> #[trigger] b[i] == tb[i - 1]);
        assert(forall|i: int| 0 <= i < a.len() ==> #[trigger] a[i] == b[i]);
        assert(a =~= b);
    }
}

/// The most significant bit of a non-empty sequence lives in its top
/// word: the value reaches the top bit exactly when the top word does.
pub proof fn lemma_top_word_threshold<T: Word>(s: Seq<T>)
    requires
        s.len() > 0,
    ensures
        (s.last().value() >= pow2((T::width() - 1) as nat)) <==> (seq_val(s) >= pow2(
            (T::width() * s.len() - 1) as nat,
        )),
{
    let n = T::width();
    let p = pow2((n * (s.len() - 1)) as nat);
    let h = pow2((n - 1) as nat);
    s.last().lemma_value_bound();
    lemma_seq_val_last(s);
    lemma_seq_val_bound(s.drop_last());
    lemma_pow2_adds((n * (s.len() - 1)) as nat, (n - 1) as nat);
    assert(n * (s.len() - 1) + (n - 1) == n * s.len() - 1) by (nonlinear_arith)
        requires
            n >= 1,
            s.len() >= 1,
    ;
    let low = seq_val(s.drop_last());
    let top = s.last().value();
    if top >= h {
        assert(low + p * top >= p * h) by (nonlinear_arith)
            requires
                top >= h,
                p >= 0,
                low >= 0,
        ;
    } else {
        lemma_pow2_double((n - 1) as nat);
        assert(low + p * top < p * h) by (nonlinear_arith)
            requires
                top + 1 <= h,
                low < p,
                p > 0,
        ;
    }
}

/// Canonical sequences are uniquely determined by their values.
pub proof fn lemma_seq_val_injective<T: Word>(a: Seq<T>, b: Seq<T>)
    requires
        canonical(a),
        canonical(b),
        seq_val(a) == seq_val(b),
    ensures
        a == b,
    decreases a.len(),
{
    let n = T::width();
    if a.len() == 0 {
        if b.len() > 0 {
            lemma_canonical_pos(b);
            lemma_pow2_pos((n * (b.len() - 1)) as nat);
        }
        assert(a =~= b);
    } else if b.len() == 0 {
        lemma_canonical_pos(a);
        lemma_pow2_pos((n * (a.len() - 1)) as nat);
    } else {
        let ta = a.drop_first();
        let tb = b.drop_first();
        a[0].lemma_value_bound();
        b[0].lemma_value_bound();
        lemma_pow2_pos(n);
        assert(seq_val(a) == seq_val(ta) * pow2(n) + a[0].value()) by (nonlinear_arith)
            requires
                seq_val(a) == a[0].value() + pow2(n) * seq_val(ta),
        ;
        assert(seq_val(b) == seq_val(tb) * pow2(n) + b[0].value()) by (nonlinear_arith)
            requires
                seq_val(b) == b[0].value() + pow2(n) * seq_val(tb),
        ;
        lemma_fundamental_div_mod_converse(
            seq_val(a) as int,
            pow2(n) as int,
            seq_val(ta) as int,
            a[0].value() as int,
        );
        lemma_fundamental_div_mod_converse(
            seq_val(b) as int,
            pow2(n) as int,
            seq_val(tb) as int,
            b[0].value() as int,
        );
        assert(a[0].value() == b[0].value());
        a[0].lemma_injective(b[0]);
        assert(seq_val(ta) == seq_val(tb));
        if ta.len() > 0 {
            assert(ta[ta.len() - 1] == a[a.len() - 1]);
        }
        if tb.len() > 0 {
            assert(tb[tb.len() - 1] == b[b.len() - 1]);
        }
        lemma_seq_val_injective(ta, tb);
        assert(forall|i: int| 1 <= i < a.len() ==> #[trigger] a[i] == ta[i - 1]);
        assert(forall|i: int| 1 <= i < b.len() ==> #[trigger] b[i] == tb[i - 1]);
        assert(forall|i: int| 0 <= i < a.len() ==> #[trigger] a[i] == b[i]);
        assert(a =~= b);
    }
}

/// Splitting a sequence's value at a word boundary.
pub proof fn lemma_seq_val_split<T: Word>(s: Seq<T>, j: nat)
    requires
        j <= s.len(),
    ensures
        seq_val(s) == seq_val(s.take(j as int)) + pow2(T::width() * j) * seq_val(
            s.skip(j as int),
        ),
    decreases j,
{
    let n = T::width();
    if j == 0 {
        lemma2_to64();
        assert(s.take(0) =~= Seq::<T>::empty());
        assert(s.skip(0) =~= s);
        assert(n * 0 == 0) by (nonlinear_arith);
        assert(1 * seq_val(s) == seq_val(s)) by (nonlinear_arith);
    } else {
        let t = s.drop_first();
        lemma_seq_val_split(t, (j - 1) as nat);
        assert(t.take(j - 1) =~= s.take(j as int).drop_first());
        assert(t.skip(j - 1) =~= s.skip(j as int));
        assert(seq_val(s.take(j as int)) == s[0].value() + pow2(n) * seq_val(t.take(j - 1)));
        lemma_pow2_adds(n, (n * (j - 1)) as nat);
        assert(n + n * (j - 1) == n * j) by (nonlinear_arith);
        let p1 = pow2((n * (j - 1)) as nat);
        assert(pow2(n) * (seq_val(t.take(j - 1)) + p1 * seq_val(t.skip(j - 1))) == pow2(n)
            * seq_val(t.take(j - 1)) + (pow2(n) * p1) * seq_val(t.skip(j - 1)))
            by (nonlinear_arith);
    }
}

/// Adding an even number does not change parity.
proof fn lemma_mod2_add_even(x: nat, k: nat)
    ensures
        (x + 2 * k) % 2 == x % 2,
{
    lemma_fundamental_div_mod(x as int, 2);
    lemma_fundamental_div_mod_converse((x + 2 * k) as int, 2, (x / 2 + k) as int, (x % 2) as int);
}

/// Bit `i` of a sequence's value is bit `i mod width` of word
/// `i / width`.
pub proof fn lemma_seq_val_bit<T: Word>(s: Seq<T>, i: nat)
    requires
        i / T::width() < s.len(),
    ensures
        seq_val(s) / pow2(i) % 2 == s[(i / T::width()) as int].value() / pow2(i % T::width()) % 2,
{
    let n = T::width();
    let j = i / n;
    let r = i % n;
    s[j as int].lemma_value_bound();
    lemma_pow2_pos(n);
    lemma_fundamental_div_mod(i as int, n as int);
    lemma_seq_val_split(s, j);
    lemma_seq_val_bound(s.take(j as int));
    let low = seq_val(s.take(j as int));
    let high = seq_val(s.skip(j as int));
    let pj = pow2(n * j);
    lemma_pow2_pos(n * j);
    assert(seq_val(s) == high * pj + low) by (nonlinear_arith)
        requires
            seq_val(s) == low + pj * high,
    ;
    lemma_fundamental_div_mod_converse(seq_val(s) as int, pj as int, high as int, low as int);
    assert(seq_val(s) / pj == high);
    // divide in two stages: by 2^(n j), then by 2^r
    lemma_pow2_adds(n * j, r);
    assert(n * j + r == i);
    lemma_pow2_pos(r);
    lemma_div_denominator(seq_val(s) as int, pj as int, pow2(r) as int);
    assert(seq_val(s) / pow2(i) == high / pow2(r));
    // the skipped part starts with word j
    assert(s.skip(j as int).len() > 0);
    assert(s.skip(j as int)[0] == s[j as int]);
    let wv = s[j as int].value();
    let hr = seq_val(s.skip(j as int).drop_first());
    assert(high == wv + pow2(n) * hr);
    // split the word's own value at bit r
    lemma_fundamental_div_mod(wv as int, pow2(r) as int);
    let q1 = wv / pow2(r);
    let r1 = wv % pow2(r);
    vstd::arithmetic::div_mod::lemma_mod_bound(wv as int, pow2(r) as int);
    assert(r1 < pow2(r));
    let dd = pow2((n - r) as nat);
    lemma_pow2_adds(r, (n - r) as nat);
    assert(high == pow2(r) * (q1 + dd * hr) + r1) by (nonlinear_arith)
        requires
            wv == pow2(r) * q1 + r1,
            high == wv + (pow2(r) * dd) * hr,
    ;
    lemma_fundamental_div_mod_converse(
        high as int,
        pow2(r) as int,
        (q1 + dd * hr) as int,
        r1 as int,
    );
    assert(high / pow2(r) == q1 + dd * hr);
    // the part above bit r of the word is even at parity
    assert(r < n);
    lemma_pow2_double((n - r - 1) as nat);
    assert(dd == 2 * pow2((n - r - 1) as nat));
    assert(q1 + dd * hr == q1 + 2 * (pow2((n - r - 1) as nat) * hr)) by (nonlinear_arith)
        requires
            dd == 2 * pow2((n - r - 1) as nat),
    ;
    lemma_mod2_add_even(q1, pow2((n - r - 1) as nat) * hr);
}

} // verus!
