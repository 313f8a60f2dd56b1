//! Specification-level theory of polynomials over GF(2).
//!
//! A polynomial with coefficients in {0, 1} is identified with the natural
//! number whose binary digits are its coefficients (bit `i` is the
//! coefficient of `x^i`).  Addition is then carry-free binary addition
//! (exclusive or), multiplication is carry-free long multiplication, and
//! `deg` is the index of the highest set bit (`-1` for the zero
//! polynomial).  This module defines those operations as recursive spec
//! functions and proves the algebraic facts the executable ring and field
//! code is specified against.

use vstd::prelude::*;
use vstd::arithmetic::power2::pow2;
use vstd::arithmetic::power2::lemma_pow2_adds;
use vstd::arithmetic::power2::lemma_pow2_pos;
use vstd::arithmetic::power2::lemma_pow2_strictly_increases;
use vstd::arithmetic::power2::lemma2_to64;
use vstd::arithmetic::div_mod::lemma_fundamental_div_mod;
use vstd::arithmetic::div_mod::lemma_fundamental_div_mod_converse;

verus! {

/// Carry-free addition: the sum in GF(2)[x] of the polynomials denoted by
/// `a` and `b`, i.e. the bitwise exclusive or of the two numbers.
pub open spec fn bxor(a: nat, b: nat) -> nat
    decreases a + b,
{
    if a == 0 && b == 0 {
        0
    } else {
        2 * bxor(a / 2, b / 2) + (a + b) % 2
    }
}

/// The degree of the polynomial denoted by `a`: the index of its highest
/// set bit, and -1 for the zero polynomial.
pub open spec fn deg(a: nat) -> int
    decreases a,
{
    if a == 0 {
        -1
    } else {
        1 + deg(a / 2)
    }
}

/// Doubling a number raises the power of two: `2^(e+1) == 2 * 2^e`.
pub proof fn lemma_pow2_double(e: nat)
    ensures
        pow2(e + 1) == 2 * pow2(e),
{
    lemma_pow2_adds(e, 1);
    lemma2_to64();
}

/// A number splits into twice its half plus its parity.
proof fn lemma_div2_parts(a: nat)
    ensures
        a == 2 * (a / 2) + a % 2,
        a % 2 < 2,
{
    lemma_fundamental_div_mod(a as int, 2);
}

/// Conversely, `2q + r` with `r < 2` has half `q` and parity `r`.
proof fn lemma_div2_converse(q: nat, r: nat)
    requires
        r < 2,
    ensures
        (2 * q + r) / 2 == q,
        (2 * q + r) % 2 == r,
{
    lemma_fundamental_div_mod_converse((2 * q + r) as int, 2, q as int, r as int);
}

/// The half and the parity of a carry-free sum are the carry-free sum of
/// the halves and the sum of the parities.
pub proof fn lemma_bxor_parts(a: nat, b: nat)
    ensures
        bxor(a, b) / 2 == bxor(a / 2, b / 2),
        bxor(a, b) % 2 == (a + b) % 2,
{
    if a == 0 && b == 0 {
    } else {
        lemma_div2_converse(bxor(a / 2, b / 2), (a + b) % 2);
    }
}

/// Zero is the identity of carry-free addition.
pub proof fn lemma_bxor_zero(a: nat)
    ensures
        bxor(a, 0) == a,
        bxor(0, a) == a,
    decreases a,
{
    if a != 0 {
        lemma_bxor_zero(a / 2);
        lemma_div2_parts(a);
    }
}

/// Carry-free addition is commutative.
pub proof fn lemma_bxor_comm(a: nat, b: nat)
    ensures
        bxor(a, b) == bxor(b, a),
    decreases a + b,
{
    if !(a == 0 && b == 0) {
        lemma_bxor_comm(a / 2, b / 2);
    }
}

/// Every polynomial is its own additive inverse.
pub proof fn lemma_bxor_self(a: nat)
    ensures
        bxor(a, a) == 0,
    decreases a,
{
    if a != 0 {
        lemma_bxor_self(a / 2);
        lemma_div2_parts(a);
    }
}

/// Carry-free addition is associative.
#[verifier::rlimit(100)]
#[verifier::spinoff_prover]
pub proof fn lemma_bxor_assoc(a: nat, b: nat, c: nat)
    ensures
        bxor(a, bxor(b, c)) == bxor(bxor(a, b), c),
    decreases a + b + c,
{
    if a == 0 && b == 0 && c == 0 {
    } else {
        lemma_bxor_assoc(a / 2, b / 2, c / 2);
        lemma_bxor_parts(b, c);
        lemma_bxor_parts(a, b);
        lemma_bxor_parts(a, bxor(b, c));
        lemma_bxor_parts(bxor(a, b), c);
        lemma_div2_parts(a);
        lemma_div2_parts(b);
        lemma_div2_parts(c);
        assert((a + (b + c) % 2) % 2 == ((a + b) % 2 + c) % 2) by (nonlinear_arith);
        assert(bxor(a, bxor(b, c)) % 2 == bxor(bxor(a, b), c) % 2);
        assert(bxor(a, bxor(b, c)) / 2 == bxor(bxor(a, b), c) / 2);
        lemma_div2_parts(bxor(a, bxor(b, c)));
        lemma_div2_parts(bxor(bxor(a, b), c));
    }
}

/// Adding `a` twice cancels: carry-free addition has cancellation.
pub proof fn lemma_bxor_cancel(a: nat, b: nat)
    ensures
        bxor(a, bxor(a, b)) == b,
{
    lemma_bxor_assoc(a, a, b);
    lemma_bxor_self(a);
    lemma_bxor_zero(b);
}

/// Two polynomials with carry-free sum zero are equal.
pub proof fn lemma_bxor_eq_zero(a: nat, b: nat)
    requires
        bxor(a, b) == 0,
    ensures
        a == b,
{
    lemma_bxor_cancel(a, b);
    lemma_bxor_zero(a);
}

/// A carry-free sum of numbers below `2^n` stays below `2^n`.
pub proof fn lemma_bxor_bound(a: nat, b: nat, n: nat)
    requires
        a < pow2(n),
        b < pow2(n),
    ensures
        bxor(a, b) < pow2(n),
    decreases n,
{
    if n == 0 {
        lemma2_to64();
    } else {
        lemma_pow2_double((n - 1) as nat);
        lemma_bxor_bound(a / 2, b / 2, (n - 1) as nat);
        lemma_bxor_parts(a, b);
        lemma_div2_parts(bxor(a, b));
    }
}

/// Carry-free addition acts independently on disjoint binary ranges:
/// splitting each operand at bit `k` splits the sum there too.
pub proof fn lemma_bxor_split(k: nat, a: nat, b: nat, c: nat, d: nat)
    requires
        a < pow2(k),
        c < pow2(k),
    ensures
        bxor(a + pow2(k) * b, c + pow2(k) * d) == bxor(a, c) + pow2(k) * bxor(b, d),
    decreases k,
{
    if k == 0 {
        lemma2_to64();
        lemma_bxor_zero(b);
        lemma_bxor_zero(d);
        lemma_bxor_zero(bxor(b, d));
        assert(a == 0 && c == 0);
        assert(a + pow2(k) * b == b);
        assert(bxor(a + pow2(k) * b, c + pow2(k) * d) == bxor(a, c) + pow2(k) * bxor(b, d));
    } else {
        let k1 = (k - 1) as nat;
        lemma_pow2_double(k1);
        assert(a / 2 < pow2(k1) && c / 2 < pow2(k1)) by (nonlinear_arith)
            requires
                a < 2 * pow2(k1),
                c < 2 * pow2(k1),
        ;
        lemma_bxor_split(k1, a / 2, b, c / 2, d);
        let x = a + pow2(k) * b;
        let y = c + pow2(k) * d;
        lemma_div2_parts(a);
        lemma_div2_parts(c);
        assert(x == 2 * (a / 2 + pow2(k1) * b) + a % 2 && y == 2 * (c / 2 + pow2(k1) * d) + c
            % 2) by (nonlinear_arith)
            requires
                a == 2 * (a / 2) + a % 2,
                c == 2 * (c / 2) + c % 2,
                x == a + pow2(k) * b,
                y == c + pow2(k) * d,
                pow2(k) == 2 * pow2(k1),
        ;
        lemma_div2_converse(a / 2 + pow2(k1) * b, a % 2);
        lemma_div2_converse(c / 2 + pow2(k1) * d, c % 2);
        lemma_bxor_parts(x, y);
        assert(x / 2 == a / 2 + pow2(k1) * b && x % 2 == a % 2);
        assert(y / 2 == c / 2 + pow2(k1) * d && y % 2 == c % 2);
        assert(bxor(x, y) / 2 == bxor(a / 2, c / 2) + pow2(k1) * bxor(b, d));
        assert(bxor(x, y) % 2 == (a + c) % 2);
        assert((a + c) % 2 == (a % 2 + c % 2) % 2) by (nonlinear_arith);
        lemma_div2_parts(bxor(x, y));
        lemma_bxor_parts(a, c);
        lemma_div2_parts(bxor(a, c));
        assert(bxor(x, y) == 2 * (bxor(a / 2, c / 2) + pow2(k1) * bxor(b, d)) + (a % 2 + c % 2)
            % 2);
        assert(2 * (bxor(a / 2, c / 2) + pow2(k1) * bxor(b, d)) + (a % 2 + c % 2) % 2 == bxor(
            a,
            c,
        ) + pow2(k) * bxor(b, d)) by (nonlinear_arith)
            requires
                bxor(a, c) == 2 * bxor(a / 2, c / 2) + (a % 2 + c % 2) % 2,
                pow2(k) == 2 * pow2(k1),
        ;
    }
}

/// Setting a bit above a number is ordinary addition:
/// `x xor 2^k == x + 2^k` when `x < 2^k`.
pub proof fn lemma_bxor_add_pow2(x: nat, k: nat)
    requires
        x < pow2(k),
    ensures
        bxor(x, pow2(k)) == x + pow2(k),
    decreases k,
{
    if k == 0 {
        lemma2_to64();
        assert(x == 0);
        assert(bxor(0, 1) == 2 * bxor(0, 0) + 1);
    } else {
        lemma_pow2_double((k - 1) as nat);
        lemma_bxor_add_pow2(x / 2, (k - 1) as nat);
        lemma_div2_parts(x);
        lemma_div2_converse(pow2((k - 1) as nat), 0);
        assert(bxor(x, pow2(k)) == 2 * bxor(x / 2, pow2((k - 1) as nat)) + (x + pow2(k)) % 2);
        assert((x + 2 * pow2((k - 1) as nat)) % 2 == x % 2) by (nonlinear_arith);
    }
}

/// Adding an even number to a bit keeps both visible: `e xor 2h == 2h + e`.
pub proof fn lemma_bxor_bit_even(e: nat, h: nat)
    requires
        e < 2,
    ensures
        bxor(e, 2 * h) == 2 * h + e,
{
    if e == 0 && h == 0 {
    } else {
        lemma_div2_converse(h, e);
        lemma_bxor_zero(h);
        assert(bxor(e, 2 * h) == 2 * bxor(e / 2, (2 * h) / 2) + (e + 2 * h) % 2);
    }
}

/// Doubling both operands doubles the carry-free sum.
pub proof fn lemma_bxor_double(x: nat, y: nat)
    ensures
        bxor(2 * x, 2 * y) == 2 * bxor(x, y),
{
    if x == 0 && y == 0 {
    } else {
        lemma_div2_converse(x, 0);
        lemma_div2_converse(y, 0);
        assert(bxor(2 * x, 2 * y) == 2 * bxor(x, y) + (2 * x + 2 * y) % 2);
        assert((2 * (x + y)) % 2 == 0) by (nonlinear_arith);
    }
}

/// Exchange lemma: regrouping a four-way carry-free sum.
pub proof fn lemma_bxor_exchange(p: nat, q: nat, r: nat, s: nat)
    ensures
        bxor(bxor(p, q), bxor(r, s)) == bxor(bxor(p, r), bxor(q, s)),
{
    lemma_bxor_assoc(p, q, bxor(r, s));
    lemma_bxor_assoc(q, r, s);
    lemma_bxor_comm(q, r);
    lemma_bxor_assoc(r, q, s);
    lemma_bxor_assoc(p, r, bxor(q, s));
}

/// The degree of a polynomial is at least -1, and at least 0 when the
/// polynomial is not zero.
pub proof fn lemma_deg_at_least(a: nat)
    ensures
        deg(a) >= -1,
        a > 0 ==> deg(a) >= 0,
    decreases a,
{
    if a > 0 {
        lemma_deg_at_least(a / 2);
    }
}

/// The dyadic bounds of a non-zero polynomial's degree:
/// `2^deg(a) <= a < 2^(deg(a)+1)`.
pub proof fn lemma_deg_bounds(a: nat)
    requires
        a > 0,
    ensures
        deg(a) >= 0,
        pow2(deg(a) as nat) <= a,
        a < pow2((deg(a) + 1) as nat),
    decreases a,
{
    lemma_deg_at_least(a);
    if a / 2 == 0 {
        assert(a == 1);
        assert(deg(0nat) == -1);
        assert(deg(1nat) == 0);
        lemma2_to64();
    } else {
        lemma_deg_bounds(a / 2);
        let d1 = deg(a / 2) as nat;
        assert(deg(a) == 1 + deg(a / 2));
        lemma_pow2_double(d1);
        lemma_pow2_double((d1 + 1) as nat);
        lemma_div2_parts(a);
        assert(pow2((d1 + 1) as nat) == 2 * pow2(d1));
        assert(2 * pow2(d1) <= 2 * (a / 2));
        assert(a < 2 * pow2((d1 + 1) as nat));
        assert(pow2((deg(a) + 1) as nat) == pow2((d1 + 2) as nat));
    }
}

/// A number strictly below `2^n` has degree strictly below `n`, and
/// conversely.
pub proof fn lemma_deg_lt(a: nat, n: nat)
    ensures
        (a < pow2(n)) <==> (deg(a) < n),
{
    lemma_pow2_pos(n);
    if a > 0 {
        lemma_deg_bounds(a);
        let d = deg(a) as nat;
        if a < pow2(n) {
            if d >= n {
                if d > n {
                    lemma_pow2_strictly_increases(n, d);
                }
                assert(pow2(n) <= pow2(d));
            }
        } else {
            if d < n {
                if d + 1 < n {
                    lemma_pow2_strictly_increases((d + 1) as nat, n);
                }
                assert(pow2((d + 1) as nat) <= pow2(n));
            }
        }
    }
}

/// A number in the dyadic range of `n` has degree exactly `n`.
pub proof fn lemma_deg_in_range(a: nat, n: nat)
    requires
        pow2(n) <= a,
        a < pow2(n + 1),
    ensures
        deg(a) == n,
{
    lemma_deg_lt(a, n);
    lemma_deg_lt(a, (n + 1) as nat);
}

/// Doubling a non-zero polynomial raises its degree by one.
pub proof fn lemma_deg_double(a: nat)
    requires
        a > 0,
    ensures
        deg(2 * a) == 1 + deg(a),
{
    lemma_div2_converse(a, 0);
    assert(deg(2 * a) == 1 + deg((2 * a) / 2));
}

/// A non-zero polynomial splits into its top bit and the rest.
pub proof fn lemma_top_split(a: nat)
    requires
        a > 0,
    ensures
        a / pow2(deg(a) as nat) == 1,
        a % pow2(deg(a) as nat) < pow2(deg(a) as nat),
        a == a % pow2(deg(a) as nat) + pow2(deg(a) as nat) * 1,
{
    lemma_deg_bounds(a);
    let d = deg(a) as nat;
    lemma_pow2_pos(d);
    lemma_pow2_double(d);
    assert(a / pow2(d) == 1) by (nonlinear_arith)
        requires
            pow2(d) > 0,
            pow2(d) <= a,
            a < 2 * pow2(d),
    ;
    lemma_fundamental_div_mod(a as int, pow2(d) as int);
    assert(a % pow2(d) < pow2(d)) by (nonlinear_arith)
        requires
            pow2(d) > 0,
    ;
}

/// How carry-free addition moves degrees: the sum takes the larger degree,
/// and cancels the top bit when the degrees agree.
pub proof fn lemma_deg_bxor(a: nat, b: nat)
    ensures
        deg(a) < deg(b) ==> deg(bxor(a, b)) == deg(b),
        deg(b) < deg(a) ==> deg(bxor(a, b)) == deg(a),
        deg(a) == deg(b) && a > 0 ==> deg(bxor(a, b)) < deg(a),
{
    lemma_deg_at_least(a);
    lemma_deg_at_least(b);
    if a == 0 {
        lemma_bxor_zero(b);
    } else if b == 0 {
        lemma_bxor_zero(a);
    } else if deg(a) == deg(b) {
        lemma_deg_bxor_eq(a, b);
    } else if deg(a) < deg(b) {
        lemma_deg_bxor_ne(a, b);
    } else {
        lemma_deg_bxor_ne(b, a);
        lemma_bxor_comm(a, b);
    }
}

/// Two numbers in the same dyadic range cancel their common top bit under
/// carry-free addition.
proof fn lemma_bxor_top_cancel(a: nat, b: nat, n: nat)
    requires
        pow2(n) <= a < pow2(n + 1),
        pow2(n) <= b < pow2(n + 1),
    ensures
        bxor(a, b) < pow2(n),
    decreases n,
{
    lemma_pow2_double(n);
    if n == 0 {
        lemma2_to64();
        assert(a == 1 && b == 1);
        assert(bxor(1, 1) == 2 * bxor(0, 0) + (1 + 1) % 2);
    } else {
        let n1 = (n - 1) as nat;
        lemma_pow2_double(n1);
        let h = pow2(n1);
        assert(h <= a / 2 && a / 2 < 2 * h && h <= b / 2 && b / 2 < 2 * h) by (nonlinear_arith)
            requires
                2 * h <= a,
                a < 2 * (2 * h),
                2 * h <= b,
                b < 2 * (2 * h),
        ;
        lemma_bxor_top_cancel(a / 2, b / 2, n1);
        lemma_bxor_parts(a, b);
        lemma_div2_parts(bxor(a, b));
    }
}

/// Helper for `lemma_deg_bxor`: equal degrees cancel the common top bit.
proof fn lemma_deg_bxor_eq(a: nat, b: nat)
    requires
        a > 0,
        b > 0,
        deg(a) == deg(b),
    ensures
        deg(bxor(a, b)) < deg(a),
{
    lemma_deg_bounds(a);
    lemma_deg_bounds(b);
    let d = deg(a) as nat;
    lemma_bxor_top_cancel(a, b, d);
    lemma_deg_lt(bxor(a, b), d);
}

/// Helper for `lemma_deg_bxor`: the smaller-degree operand cannot disturb
/// the top bit of the larger.
proof fn lemma_deg_bxor_ne(a: nat, b: nat)
    requires
        b > 0,
        deg(a) < deg(b),
    ensures
        deg(bxor(a, b)) == deg(b),
{
    let d = deg(b) as nat;
    lemma_deg_bounds(b);
    lemma_top_split(b);
    lemma_deg_lt(a, d);
    lemma_bxor_split(d, a, 0, b % pow2(d), 1);
    lemma_bxor_zero(1);
    assert(a + pow2(d) * 0 == a);
    assert(bxor(a, b) == bxor(a, b % pow2(d)) + pow2(d) * 1);
    lemma_bxor_bound(a, b % pow2(d), d);
    lemma_pow2_double(d);
    lemma_deg_in_range(bxor(a, b), d);
}

/// The bit at a non-zero polynomial's degree is set.
pub proof fn lemma_top_bit(x: nat)
    requires
        x > 0,
    ensures
        x / pow2(deg(x) as nat) % 2 == 1,
{
    lemma_top_split(x);
}

/// Carry-free multiplication: the product in GF(2)[x] of the polynomials
/// denoted by `a` and `b`.
pub open spec fn pmul(a: nat, b: nat) -> nat
    decreases a,
{
    if a == 0 {
        0
    } else {
        bxor(if a % 2 == 1 { b } else { 0 }, 2 * pmul(a / 2, b))
    }
}

/// Zero annihilates carry-free multiplication.
pub proof fn lemma_pmul_zero(a: nat, b: nat)
    ensures
        pmul(0, b) == 0,
        pmul(a, 0) == 0,
    decreases a,
{
    if a != 0 {
        lemma_pmul_zero(a / 2, b);
        lemma_bxor_zero(0);
    }
}

/// One is the identity of carry-free multiplication, on the left.
pub proof fn lemma_pmul_one_left(b: nat)
    ensures
        pmul(1, b) == b,
{
    lemma_pmul_zero(0, b);
    lemma_bxor_zero(b);
}

/// One is the identity of carry-free multiplication, on the right.
pub proof fn lemma_pmul_one_right(a: nat)
    ensures
        pmul(a, 1) == a,
    decreases a,
{
    if a != 0 {
        lemma_pmul_one_right(a / 2);
        lemma_bxor_bit_even(a % 2, pmul(a / 2, 1));
        lemma_div2_parts(a);
    }
}

/// Doubling the left factor doubles the product.
pub proof fn lemma_pmul_double(a: nat, b: nat)
    ensures
        pmul(2 * a, b) == 2 * pmul(a, b),
{
    if a == 0 {
        lemma_pmul_zero(0, b);
    } else {
        lemma_div2_converse(a, 0);
        assert(pmul(2 * a, b) == bxor(0, 2 * pmul(a, b)));
        lemma_bxor_zero(2 * pmul(a, b));
    }
}

/// Doubling the right factor doubles the product.
pub proof fn lemma_pmul_double_right(a: nat, b: nat)
    ensures
        pmul(a, 2 * b) == 2 * pmul(a, b),
    decreases a,
{
    if a != 0 {
        lemma_pmul_double_right(a / 2, b);
        if a % 2 == 1 {
            lemma_bxor_double(b, 2 * pmul(a / 2, b));
        } else {
            lemma_bxor_double(0, 2 * pmul(a / 2, b));
        }
    }
}

/// Carry-free multiplication distributes over carry-free addition on the
/// right factor.
pub proof fn lemma_pmul_distr_right(a: nat, b: nat, c: nat)
    ensures
        pmul(a, bxor(b, c)) == bxor(pmul(a, b), pmul(a, c)),
    decreases a,
{
    if a == 0 {
        lemma_bxor_zero(0);
    } else {
        lemma_pmul_distr_right(a / 2, b, c);
        let pb = pmul(a / 2, b);
        let pc = pmul(a / 2, c);
        lemma_bxor_double(pb, pc);
        if a % 2 == 1 {
            lemma_bxor_exchange(b, 2 * pb, c, 2 * pc);
            lemma_bxor_comm(2 * pb, c);
        } else {
            lemma_bxor_zero(bxor(2 * pb, 2 * pc));
            lemma_bxor_zero(2 * pb);
            lemma_bxor_zero(2 * pc);
        }
    }
}

/// Carry-free multiplication is commutative.
pub proof fn lemma_pmul_comm(a: nat, b: nat)
    ensures
        pmul(a, b) == pmul(b, a),
    decreases a,
{
    if a == 0 {
        lemma_pmul_zero(b, 0);
    } else {
        let e = a % 2;
        let h = a / 2;
        lemma_pmul_comm(h, b);
        lemma_pmul_double_right(b, h);
        if e == 1 {
            lemma_pmul_one_right(b);
        } else {
            lemma_pmul_zero(b, 0);
        }
        lemma_pmul_distr_right(b, e, 2 * h);
        lemma_bxor_bit_even(e, h);
        lemma_bxor_comm(e, 2 * h);
        lemma_div2_parts(a);
        assert(bxor(e, 2 * h) == a);
        assert(pmul(b, a) == bxor(pmul(b, e), pmul(b, 2 * h)));
        assert(pmul(b, e) == if e == 1 { b } else { 0 });
        assert(pmul(b, 2 * h) == 2 * pmul(h, b));
        assert(pmul(a, b) == bxor(if e == 1 { b } else { 0 }, 2 * pmul(h, b)));
    }
}

/// Carry-free multiplication distributes over carry-free addition on the
/// left factor.
pub proof fn lemma_pmul_distr_left(a: nat, b: nat, c: nat)
    ensures
        pmul(bxor(a, b), c) == bxor(pmul(a, c), pmul(b, c)),
{
    lemma_pmul_comm(bxor(a, b), c);
    lemma_pmul_distr_right(c, a, b);
    lemma_pmul_comm(c, a);
    lemma_pmul_comm(c, b);
}

/// Carry-free multiplication is associative.
pub proof fn lemma_pmul_assoc(a: nat, b: nat, c: nat)
    ensures
        pmul(pmul(a, b), c) == pmul(a, pmul(b, c)),
    decreases a,
{
    if a == 0 {
        lemma_pmul_zero(0, b);
        lemma_pmul_zero(0, c);
        lemma_pmul_zero(0, pmul(b, c));
    } else {
        let e = a % 2;
        let p = pmul(a / 2, b);
        lemma_pmul_assoc(a / 2, b, c);
        lemma_pmul_distr_left(if e == 1 { b } else { 0 }, 2 * p, c);
        lemma_pmul_double(p, c);
        if e == 1 {
        } else {
            lemma_pmul_zero(0, c);
        }
    }
}

/// Multiplying by a power of two is an ordinary product: a pure shift.
pub proof fn lemma_pmul_pow2(k: nat, b: nat)
    ensures
        pmul(pow2(k), b) == pow2(k) * b,
    decreases k,
{
    if k == 0 {
        lemma2_to64();
        lemma_pmul_one_left(b);
    } else {
        let k1 = (k - 1) as nat;
        lemma_pmul_pow2(k1, b);
        lemma_pow2_double(k1);
        lemma_pmul_double(pow2(k1), b);
        assert(2 * (pow2(k1) * b) == (2 * pow2(k1)) * b) by (nonlinear_arith);
    }
}

/// Degrees add under carry-free multiplication; in particular the product
/// of non-zero polynomials is non-zero.
pub proof fn lemma_deg_pmul(a: nat, b: nat)
    requires
        a > 0,
        b > 0,
    ensures
        pmul(a, b) > 0,
        deg(pmul(a, b)) == deg(a) + deg(b),
    decreases a,
{
    lemma_deg_bounds(a);
    lemma_deg_bounds(b);
    if a / 2 == 0 {
        assert(a == 1);
        lemma_pmul_one_left(b);
    } else {
        lemma_deg_bounds(a / 2);
        lemma_deg_pmul(a / 2, b);
        let p = pmul(a / 2, b);
        lemma_deg_double(p);
        lemma_deg_at_least(0);
        let e = a % 2;
        let low: nat = if e == 1 { b } else { 0 };
        assert(deg(low) <= deg(b));
        assert(deg(2 * p) == 1 + deg(a / 2) + deg(b));
        lemma_deg_bxor(low, 2 * p);
        assert(deg(pmul(a, b)) == deg(2 * p));
        assert(deg(a) == 1 + deg(a / 2));
    }
}

/// The degree of a power of two is its exponent.
pub proof fn lemma_deg_pow2(k: nat)
    ensures
        deg(pow2(k)) == k,
{
    lemma_pow2_pos(k);
    lemma_pow2_strictly_increases(k, k + 1);
    lemma_pow2_double(k);
    lemma_deg_in_range(pow2(k), k);
}

/// Both operands of a carry-free sum below a degree bound keep the sum
/// below that bound.
pub proof fn lemma_deg_bxor_lt(a: nat, b: nat, n: nat)
    requires
        deg(a) < n,
        deg(b) < n,
    ensures
        deg(bxor(a, b)) < n,
{
    lemma_deg_lt(a, n);
    lemma_deg_lt(b, n);
    lemma_bxor_bound(a, b, n);
    lemma_deg_lt(bxor(a, b), n);
}

/// One long-division step: subtracting the divisor aligned to the
/// dividend's top bit strictly lowers the dividend.
pub proof fn lemma_pdiv_step(x: nat, m: nat)
    requires
        m > 0,
        deg(x) >= deg(m),
    ensures
        deg(bxor(x, pmul(pow2((deg(x) - deg(m)) as nat), m))) < deg(x),
        bxor(x, pmul(pow2((deg(x) - deg(m)) as nat), m)) < x,
{
    lemma_deg_bounds(m);
    lemma_deg_at_least(x);
    assert(deg(0nat) == -1);
    assert(x > 0);
    lemma_deg_bounds(x);
    let k = (deg(x) - deg(m)) as nat;
    lemma_pow2_pos(k);
    lemma_deg_pow2(k);
    lemma_deg_pmul(pow2(k), m);
    let t = pmul(pow2(k), m);
    assert(deg(t) == deg(x));
    lemma_deg_bxor(x, t);
    lemma_deg_lt(bxor(x, t), deg(x) as nat);
}

/// The remainder of GF(2)[x] long division of `x` by `m`.
pub open spec fn pmod(x: nat, m: nat) -> nat
    decreases x,
    via pmod_decreases
{
    if m == 0 {
        x
    } else if deg(x) < deg(m) {
        x
    } else {
        pmod(bxor(x, pmul(pow2((deg(x) - deg(m)) as nat), m)), m)
    }
}

#[via_fn]
proof fn pmod_decreases(x: nat, m: nat) {
    if m != 0 && deg(x) >= deg(m) {
        lemma_pdiv_step(x, m);
    }
}

/// The quotient of GF(2)[x] long division of `x` by `m`.
pub open spec fn pquot(x: nat, m: nat) -> nat
    decreases x,
    via pquot_decreases
{
    if m == 0 {
        0
    } else if deg(x) < deg(m) {
        0
    } else {
        bxor(
            pow2((deg(x) - deg(m)) as nat),
            pquot(bxor(x, pmul(pow2((deg(x) - deg(m)) as nat), m)), m),
        )
    }
}

#[via_fn]
proof fn pquot_decreases(x: nat, m: nat) {
    if m != 0 && deg(x) >= deg(m) {
        lemma_pdiv_step(x, m);
    }
}

/// The remainder has degree below the divisor's and never exceeds the
/// dividend or the divisor.
pub proof fn lemma_pmod_props(x: nat, m: nat)
    requires
        m > 0,
    ensures
        deg(pmod(x, m)) < deg(m),
        pmod(x, m) <= x,
        pmod(x, m) < m,
    decreases x,
{
    lemma_deg_bounds(m);
    if deg(x) < deg(m) {
        lemma_deg_lt(x, deg(m) as nat);
    } else {
        lemma_pdiv_step(x, m);
        lemma_pmod_props(bxor(x, pmul(pow2((deg(x) - deg(m)) as nat), m)), m);
    }
}

/// Quotient and remainder reassemble the dividend:
/// `x == pquot(x, m) * m + pmod(x, m)` in GF(2)[x] arithmetic.
pub proof fn lemma_pdiv_fundamental(x: nat, m: nat)
    requires
        m > 0,
    ensures
        x == bxor(pmul(pquot(x, m), m), pmod(x, m)),
    decreases x,
{
    if deg(x) < deg(m) {
        lemma_pmul_zero(0, m);
        lemma_bxor_zero(x);
    } else {
        lemma_pdiv_step(x, m);
        let k = (deg(x) - deg(m)) as nat;
        let t = pmul(pow2(k), m);
        let x1 = bxor(x, t);
        lemma_pdiv_fundamental(x1, m);
        let q1 = pquot(x1, m);
        let r = pmod(x1, m);
        assert(pquot(x, m) == bxor(pow2(k), q1));
        assert(pmod(x, m) == r);
        lemma_pmul_distr_left(pow2(k), q1, m);
        assert(pmul(bxor(pow2(k), q1), m) == bxor(t, pmul(q1, m)));
        lemma_bxor_assoc(t, pmul(q1, m), r);
        assert(bxor(pmul(pquot(x, m), m), r) == bxor(t, bxor(pmul(q1, m), r)));
        assert(bxor(pmul(q1, m), r) == x1);
        lemma_bxor_comm(x, t);
        lemma_bxor_cancel(t, x);
        assert(bxor(t, x1) == x);
    }
}

/// Long division is the only way to write `x` as a multiple of `m` plus a
/// remainder of smaller degree.
pub proof fn lemma_pdiv_unique(x: nat, m: nat, q: nat, r: nat)
    requires
        m > 0,
        x == bxor(pmul(q, m), r),
        deg(r) < deg(m),
    ensures
        pquot(x, m) == q,
        pmod(x, m) == r,
{
    lemma_pdiv_fundamental(x, m);
    lemma_pmod_props(x, m);
    let qq = pquot(x, m);
    let rr = pmod(x, m);
    let a = pmul(q, m);
    let b = pmul(qq, m);
    // From bxor(a, r) == bxor(b, rr), extract pmul(bxor(q, qq), m) == bxor(r, rr).
    lemma_bxor_exchange(a, r, b, rr);
    assert(bxor(bxor(a, r), bxor(b, rr)) == bxor(bxor(a, b), bxor(r, rr)));
    lemma_bxor_self(bxor(a, r));
    assert(bxor(bxor(a, b), bxor(r, rr)) == 0);
    lemma_bxor_eq_zero(bxor(a, b), bxor(r, rr));
    lemma_pmul_distr_left(q, qq, m);
    assert(pmul(bxor(q, qq), m) == bxor(r, rr));
    if bxor(q, qq) != 0 {
        lemma_deg_bounds(m);
        lemma_deg_bounds(bxor(q, qq));
        lemma_deg_pmul(bxor(q, qq), m);
        lemma_deg_bxor_lt(r, rr, deg(m) as nat);
        assert(deg(pmul(bxor(q, qq), m)) >= deg(m));
        assert(false);
    }
    lemma_bxor_eq_zero(q, qq);
    lemma_pmul_zero(0, m);
    assert(bxor(r, rr) == 0);
    lemma_bxor_eq_zero(r, rr);
}

/// Adding any multiple of the modulus does not change the remainder.
pub proof fn lemma_pmod_multiple(y: nat, q: nat, m: nat)
    requires
        m > 0,
    ensures
        pmod(bxor(pmul(q, m), y), m) == pmod(y, m),
{
    lemma_pdiv_fundamental(y, m);
    lemma_pmod_props(y, m);
    let qy = pquot(y, m);
    let ry = pmod(y, m);
    lemma_bxor_assoc(pmul(q, m), pmul(qy, m), ry);
    lemma_pmul_distr_left(q, qy, m);
    assert(bxor(pmul(q, m), y) == bxor(pmul(bxor(q, qy), m), ry));
    lemma_pdiv_unique(bxor(pmul(q, m), y), m, bxor(q, qy), ry);
}

/// Remainders distribute over carry-free addition.
pub proof fn lemma_pmod_bxor(a: nat, b: nat, m: nat)
    requires
        m > 0,
    ensures
        pmod(bxor(a, b), m) == bxor(pmod(a, m), pmod(b, m)),
{
    lemma_pdiv_fundamental(a, m);
    lemma_pdiv_fundamental(b, m);
    lemma_pmod_props(a, m);
    lemma_pmod_props(b, m);
    let qa = pquot(a, m);
    let ra = pmod(a, m);
    let qb = pquot(b, m);
    let rb = pmod(b, m);
    lemma_bxor_exchange(pmul(qa, m), ra, pmul(qb, m), rb);
    lemma_pmul_distr_left(qa, qb, m);
    lemma_deg_bxor_lt(ra, rb, deg(m) as nat);
    lemma_deg_bounds(m);
    assert(bxor(a, b) == bxor(pmul(bxor(qa, qb), m), bxor(ra, rb)));
    lemma_pdiv_unique(bxor(a, b), m, bxor(qa, qb), bxor(ra, rb));
}

/// A remainder is already reduced: taking it twice changes nothing.
pub proof fn lemma_pmod_idem(x: nat, m: nat)
    requires
        m > 0,
    ensures
        pmod(pmod(x, m), m) == pmod(x, m),
{
    lemma_pmod_props(x, m);
}

/// Reducing the left factor before a product does not change the product's
/// remainder.
pub proof fn lemma_pmod_pmul_left(a: nat, b: nat, m: nat)
    requires
        m > 0,
    ensures
        pmod(pmul(a, b), m) == pmod(pmul(pmod(a, m), b), m),
{
    lemma_pdiv_fundamental(a, m);
    let qa = pquot(a, m);
    let ra = pmod(a, m);
    lemma_pmul_distr_left(pmul(qa, m), ra, b);
    assert(pmul(a, b) == bxor(pmul(pmul(qa, m), b), pmul(ra, b)));
    lemma_pmul_assoc(qa, m, b);
    lemma_pmul_comm(m, b);
    lemma_pmul_assoc(qa, b, m);
    assert(pmul(pmul(qa, m), b) == pmul(pmul(qa, b), m));
    lemma_pmod_multiple(pmul(ra, b), pmul(qa, b), m);
}

/// Reducing the right factor before a product does not change the
/// product's remainder.
pub proof fn lemma_pmod_pmul_right(a: nat, b: nat, m: nat)
    requires
        m > 0,
    ensures
        pmod(pmul(a, b), m) == pmod(pmul(a, pmod(b, m)), m),
{
    lemma_pmul_comm(a, b);
    lemma_pmod_pmul_left(b, a, m);
    lemma_pmul_comm(pmod(b, m), a);
}

/// A polynomial of degree below the modulus is its own remainder.
pub proof fn lemma_pmod_small(x: nat, m: nat)
    requires
        m > 0,
        deg(x) < deg(m),
    ensures
        pmod(x, m) == x,
{
}

/// The modulus itself reduces to zero.
pub proof fn lemma_pmod_self(m: nat)
    requires
        m > 0,
    ensures
        pmod(m, m) == 0,
{
    lemma_pmul_one_left(m);
    lemma_bxor_zero(m);
    lemma_deg_bounds(m);
    lemma_deg_at_least(0);
    assert(deg(0nat) == -1);
    lemma_pdiv_unique(m, m, 1, 0);
}

/// Everything reduces to zero modulo one.
pub proof fn lemma_pmod_by_one(x: nat)
    ensures
        pmod(x, 1) == 0,
{
    lemma_pmul_one_right(x);
    lemma_bxor_zero(x);
    assert(deg(0nat) == -1);
    assert(deg(1nat) == 0);
    lemma_pdiv_unique(x, 1, x, 0);
}

/// Reducing a polynomial of the modulus's own degree subtracts the
/// modulus once.
pub proof fn lemma_pmod_same_deg(x: nat, m: nat)
    requires
        m > 0,
        deg(x) == deg(m),
    ensures
        pmod(x, m) == bxor(x, m),
{
    lemma_deg_bounds(m);
    lemma_deg_at_least(x);
    assert(x > 0) by {
        assert(deg(0nat) == -1);
    }
    lemma_deg_bxor(x, m);
    lemma_pmul_one_left(m);
    lemma_bxor_comm(x, m);
    lemma_bxor_cancel(m, x);
    assert(x == bxor(pmul(1, m), bxor(x, m)));
    lemma_pdiv_unique(x, m, 1, bxor(x, m));
}

/// Doubling is multiplication by the polynomial `x`.
pub proof fn lemma_pmul_two_left(x: nat)
    ensures
        pmul(2, x) == 2 * x,
{
    lemma_pmul_one_left(x);
    lemma_pmul_double(1, x);
}

/// The greatest common divisor of two polynomials, by repeated remainders.
pub open spec fn pgcd(a: nat, b: nat) -> nat
    decreases b,
    via pgcd_decreases
{
    if b == 0 {
        a
    } else {
        pgcd(b, pmod(a, b))
    }
}

#[via_fn]
proof fn pgcd_decreases(a: nat, b: nat) {
    if b != 0 {
        lemma_pmod_props(a, b);
    }
}

/// Exponentiation in the quotient ring GF(2)[x]/m: the `e`-th power of
/// `a`, reduced modulo `m`.
pub open spec fn gfpow(a: nat, e: nat, m: nat) -> nat
    decreases e,
{
    if e == 0 {
        pmod(1, m)
    } else {
        pmod(pmul(a, gfpow(a, (e - 1) as nat, m)), m)
    }
}

/// Every power is reduced modulo `m`.
pub proof fn lemma_gfpow_reduced(a: nat, e: nat, m: nat)
    requires
        m > 0,
    ensures
        deg(gfpow(a, e, m)) < deg(m),
        pmod(gfpow(a, e, m), m) == gfpow(a, e, m),
{
    if e == 0 {
        lemma_pmod_props(1, m);
        lemma_pmod_idem(1, m);
    } else {
        lemma_pmod_props(pmul(a, gfpow(a, (e - 1) as nat, m)), m);
        lemma_pmod_idem(pmul(a, gfpow(a, (e - 1) as nat, m)), m);
    }
}

/// Powers multiply by adding exponents, modulo `m`.
pub proof fn lemma_gfpow_add(a: nat, i: nat, j: nat, m: nat)
    requires
        m > 0,
    ensures
        gfpow(a, i + j, m) == pmod(pmul(gfpow(a, i, m), gfpow(a, j, m)), m),
    decreases i,
{
    let gj = gfpow(a, j, m);
    if i == 0 {
        lemma_gfpow_reduced(a, j, m);
        lemma_pmod_pmul_left(1, gj, m);
        lemma_pmul_one_left(gj);
        assert(pmod(pmul(pmod(1, m), gj), m) == pmod(gj, m));
    } else {
        let i1 = (i - 1) as nat;
        lemma_gfpow_add(a, i1, j, m);
        let gi1 = gfpow(a, i1, m);
        assert(gfpow(a, i + j, m) == pmod(pmul(a, gfpow(a, i1 + j, m)), m));
        lemma_pmod_pmul_right(a, pmul(gi1, gj), m);
        assert(pmod(pmul(a, gfpow(a, i1 + j, m)), m) == pmod(pmul(a, pmul(gi1, gj)), m));
        lemma_pmul_assoc(a, gi1, gj);
        lemma_pmod_pmul_left(pmul(a, gi1), gj, m);
        assert(pmod(pmul(pmul(a, gi1), gj), m) == pmod(pmul(pmod(pmul(a, gi1), m), gj), m));
        assert(pmod(pmul(a, gi1), m) == gfpow(a, i, m));
    }
}

} // verus!
