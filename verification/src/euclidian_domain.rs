//! Euclidean domains and the extended Euclidean algorithm.
//!
//! A Euclidean domain is a ring with a division algorithm: dividing by a
//! non-zero member yields a quotient and a remainder that is either zero
//! or strictly smaller in the domain's measure.  The extended Euclidean
//! algorithm is provided once, for every such ring, and returns Bezout
//! coefficients: `x*a + y*b == gcd` holds of the result, proved from the
//! ring laws each implementation establishes.

use vstd::prelude::*;
use crate::Ring;
use crate::error::Error;

verus! {

/// The outcome of one Euclidean division: `value == quotient * divisor
/// + remainder`.
pub struct DivisionAlgorithmResult<R> {
    pub quotient: R,
    pub remainder: R,
}

/// The outcome of the extended Euclidean algorithm on `(a, b)`:
/// `x*a + y*b == gcd`.
pub struct ExtendedEuclidResult<R> {
    pub x: R,
    pub y: R,
    pub gcd: R,
}

/// A ring with a Euclidean division algorithm.  Implementations also
/// discharge the commutative-ring laws below, which the generic
/// extended Euclidean algorithm's proof rests on.
pub trait EuclidianDomain: Ring {
    /// The inputs on which the division algorithm is supported: a bound
    /// forced by the representation (a degree that must fit in a machine
    /// integer), not by the mathematics.
    spec fn div_ok(&self, a: Self::Value, b: Self::Value) -> bool;

    /// The Euclidean measure that division strictly decreases.
    spec fn esize(&self, a: Self::Value) -> nat;

    /// Divide `value` by `divisor`: fails exactly on a zero divisor,
    /// else returns a quotient and remainder with
    /// `value == quotient * divisor + remainder` and the remainder zero
    /// or smaller than the divisor.
    fn division_algorithm(&self, value: &Self::RingMember, divisor: &Self::RingMember) -> (r:
        Result<DivisionAlgorithmResult<Self::RingMember>, Error>)
        requires
            self.wf(),
            self.member_ok(*value),
            self.member_ok(*divisor),
            self.div_ok(self.value_of(*value), self.value_of(*divisor)),
        ensures
            match r {
                Ok(d) => self.value_of(*divisor) != self.zero_v() && self.member_ok(d.quotient)
                    && self.member_ok(d.remainder) && self.add_v(
                    self.mul_v(self.value_of(d.quotient), self.value_of(*divisor)),
                    self.value_of(d.remainder),
                ) == self.value_of(*value) && (self.value_of(d.remainder) == self.zero_v()
                    || self.esize(self.value_of(d.remainder)) < self.esize(
                    self.value_of(*divisor),
                )) && self.div_ok(self.value_of(*divisor), self.value_of(d.remainder)),
                Err(e) => self.value_of(*divisor) == self.zero_v() && e == Error::DivisionByZero,
            },
    ;

    /// Addition is commutative.
    proof fn law_add_comm(&self, a: Self::Value, b: Self::Value)
        requires
            self.wf(),
        ensures
            self.add_v(a, b) == self.add_v(b, a),
    ;

    /// Addition is associative.
    proof fn law_add_assoc(&self, a: Self::Value, b: Self::Value, c: Self::Value)
        requires
            self.wf(),
        ensures
            self.add_v(a, self.add_v(b, c)) == self.add_v(self.add_v(a, b), c),
    ;

    /// Zero is the additive identity.
    proof fn law_add_zero(&self, a: Self::Value)
        requires
            self.wf(),
        ensures
            self.add_v(a, self.zero_v()) == a,
    ;

    /// Negation is the additive inverse.
    proof fn law_add_neg(&self, a: Self::Value)
        requires
            self.wf(),
        ensures
            self.add_v(a, self.neg_v(a)) == self.zero_v(),
    ;

    /// Multiplication is commutative.
    proof fn law_mul_comm(&self, a: Self::Value, b: Self::Value)
        requires
            self.wf(),
        ensures
            self.mul_v(a, b) == self.mul_v(b, a),
    ;

    /// Multiplication is associative.
    proof fn law_mul_assoc(&self, a: Self::Value, b: Self::Value, c: Self::Value)
        requires
            self.wf(),
        ensures
            self.mul_v(a, self.mul_v(b, c)) == self.mul_v(self.mul_v(a, b), c),
    ;

    /// Multiplication distributes over addition.
    proof fn law_mul_distr(&self, a: Self::Value, b: Self::Value, c: Self::Value)
        requires
            self.wf(),
        ensures
            self.mul_v(a, self.add_v(b, c)) == self.add_v(self.mul_v(a, b), self.mul_v(a, c)),
    ;

    /// One is the multiplicative identity.
    proof fn law_mul_one(&self, a: Self::Value)
        requires
            self.wf(),
        ensures
            self.mul_v(self.one_v(), a) == a,
    ;

    /// Zero annihilates multiplication.
    proof fn law_mul_zero(&self, a: Self::Value)
        requires
            self.wf(),
        ensures
            self.mul_v(a, self.zero_v()) == self.zero_v(),
    ;

    /// The extended Euclidean algorithm: repeatedly divide, carrying the
    /// Bezout coefficients of the current dividend and divisor along.
    /// Fails exactly when `a` is zero, through the first division; on
    /// success the result is a greatest common divisor: the Bezout
    /// combination of the inputs equals it, and it divides both inputs.
    fn extended_euclid(&self, a: &Self::RingMember, b: &Self::RingMember) -> (r: Result<
        ExtendedEuclidResult<Self::RingMember>,
        Error,
    >)
        requires
            self.wf(),
            self.member_ok(*a),
            self.member_ok(*b),
            self.div_ok(self.value_of(*b), self.value_of(*a)),
        ensures
            (self.value_of(*a) == self.zero_v()) <==> (r is Err),
            match r {
                Ok(res) => self.member_ok(res.x) && self.member_ok(res.y) && self.member_ok(
                    res.gcd,
                ) && self.add_v(
                    self.mul_v(self.value_of(res.x), self.value_of(*a)),
                    self.mul_v(self.value_of(res.y), self.value_of(*b)),
                ) == self.value_of(res.gcd) && (exists|u: Self::Value|
                    #[trigger] self.mul_v(u, self.value_of(res.gcd)) == self.value_of(*a))
                    && (exists|u: Self::Value|
                    #[trigger] self.mul_v(u, self.value_of(res.gcd)) == self.value_of(*b)),
                Err(e) => self.value_of(*a) == self.zero_v() && e == Error::DivisionByZero,
            },
    {
        let ghost va = self.value_of(*a);
        let ghost vb = self.value_of(*b);
        let mut cur = (self.one(), self.zero());
        let mut prev = (self.zero(), self.one());
        let mut cur_divisor = self.add(a, &self.zero());
        let mut cur_dividend = self.add(b, &self.zero());
        // ghost witnesses writing each input as a ring combination of the
        // current dividend and divisor
        let ghost mut pa: Self::Value = self.zero_v();
        let ghost mut sa: Self::Value = self.one_v();
        let ghost mut pb: Self::Value = self.one_v();
        let ghost mut sb: Self::Value = self.zero_v();
        proof {
            self.law_add_zero(va);
            self.law_add_zero(vb);
            self.law_mul_one(va);
            self.law_mul_one(vb);
            self.law_mul_zero_left(va);
            self.law_mul_zero_left(vb);
            self.law_add_zero_left(va);
            self.law_add_comm(self.mul_v(self.zero_v(), va), vb);
            self.law_add_zero(vb);
        }
        loop
            invariant
                self.wf(),
                va == self.value_of(*a),
                vb == self.value_of(*b),
                self.member_ok(cur.0),
                self.member_ok(cur.1),
                self.member_ok(prev.0),
                self.member_ok(prev.1),
                self.member_ok(cur_divisor),
                self.member_ok(cur_dividend),
                self.add_v(
                    self.mul_v(self.value_of(cur.0), va),
                    self.mul_v(self.value_of(cur.1), vb),
                ) == self.value_of(cur_divisor),
                self.add_v(
                    self.mul_v(self.value_of(prev.0), va),
                    self.mul_v(self.value_of(prev.1), vb),
                ) == self.value_of(cur_dividend),
                self.add_v(
                    self.mul_v(pa, self.value_of(cur_dividend)),
                    self.mul_v(sa, self.value_of(cur_divisor)),
                ) == va,
                self.add_v(
                    self.mul_v(pb, self.value_of(cur_dividend)),
                    self.mul_v(sb, self.value_of(cur_divisor)),
                ) == vb,
                self.value_of(cur_divisor) == va || self.value_of(cur_divisor) != self.zero_v(),
                va == self.zero_v() ==> self.value_of(cur_divisor) == self.zero_v(),
                self.div_ok(self.value_of(cur_dividend), self.value_of(cur_divisor)),
            decreases self.esize(self.value_of(cur_divisor)),
        {
            let div_result = match self.division_algorithm(&cur_dividend, &cur_divisor) {
                Ok(d) => d,
                Err(_) => {
                    return Err(Error::DivisionByZero);
                },
            };
            if self.is_zero_member(&div_result.remainder) {
                proof {
                    // the divisor divides both inputs: rewrite each input's
                    // combination over (divisor, remainder) and drop the
                    // vanished remainder part
                    let dv = self.value_of(cur_divisor);
                    let q = self.value_of(div_result.quotient);
                    self.lemma_combination_step(
                        va,
                        pa,
                        sa,
                        self.value_of(cur_dividend),
                        dv,
                        q,
                        self.value_of(div_result.remainder),
                    );
                    self.lemma_combination_step(
                        vb,
                        pb,
                        sb,
                        self.value_of(cur_dividend),
                        dv,
                        q,
                        self.value_of(div_result.remainder),
                    );
                    let ua = self.add_v(self.mul_v(pa, q), sa);
                    let ub = self.add_v(self.mul_v(pb, q), sb);
                    self.law_mul_zero(pa);
                    self.law_mul_zero(pb);
                    self.law_add_zero(self.mul_v(ua, dv));
                    self.law_add_zero(self.mul_v(ub, dv));
                    assert(self.mul_v(ua, dv) == va);
                    assert(self.mul_v(ub, dv) == vb);
                }
                return Ok(
                    ExtendedEuclidResult { x: cur.0, y: cur.1, gcd: cur_divisor },
                );
            }
            let neg_q = self.neg(&div_result.quotient);
            let new_0 = self.add(&prev.0, &self.mul(&cur.0, &neg_q));
            let new_1 = self.add(&prev.1, &self.mul(&cur.1, &neg_q));
            proof {
                self.lemma_bezout_step(
                    va,
                    vb,
                    self.value_of(cur.0),
                    self.value_of(cur.1),
                    self.value_of(prev.0),
                    self.value_of(prev.1),
                    self.value_of(cur_dividend),
                    self.value_of(cur_divisor),
                    self.value_of(div_result.quotient),
                    self.value_of(div_result.remainder),
                );
                self.lemma_combination_step(
                    va,
                    pa,
                    sa,
                    self.value_of(cur_dividend),
                    self.value_of(cur_divisor),
                    self.value_of(div_result.quotient),
                    self.value_of(div_result.remainder),
                );
                self.lemma_combination_step(
                    vb,
                    pb,
                    sb,
                    self.value_of(cur_dividend),
                    self.value_of(cur_divisor),
                    self.value_of(div_result.quotient),
                    self.value_of(div_result.remainder),
                );
            }
            proof {
                let q = self.value_of(div_result.quotient);
                let new_pa = self.add_v(self.mul_v(pa, q), sa);
                let new_pb = self.add_v(self.mul_v(pb, q), sb);
                sa = pa;
                sb = pb;
                pa = new_pa;
                pb = new_pb;
            }
            cur_dividend = cur_divisor;
            cur_divisor = div_result.remainder;
            prev = cur;
            cur = (new_0, new_1);
        }
    }

    /// One rotation of the inverse Bezout bookkeeping: a target that is
    /// a ring combination of the dividend and the divisor is also one of
    /// the divisor and the remainder.
    proof fn lemma_combination_step(
        &self,
        target: Self::Value,
        p: Self::Value,
        s: Self::Value,
        dividend: Self::Value,
        divisor: Self::Value,
        q: Self::Value,
        r: Self::Value,
    )
        requires
            self.wf(),
            self.add_v(self.mul_v(p, dividend), self.mul_v(s, divisor)) == target,
            self.add_v(self.mul_v(q, divisor), r) == dividend,
        ensures
            self.add_v(
                self.mul_v(self.add_v(self.mul_v(p, q), s), divisor),
                self.mul_v(p, r),
            ) == target,
    {
        // p * dividend == (p*q) * divisor + p * r
        self.law_mul_distr(p, self.mul_v(q, divisor), r);
        self.law_mul_assoc(p, q, divisor);
        let x = self.mul_v(self.mul_v(p, q), divisor);
        let y = self.mul_v(p, r);
        let z = self.mul_v(s, divisor);
        assert(self.mul_v(p, dividend) == self.add_v(x, y));
        // regroup (x + y) + z as (x + z) + y
        self.law_add_assoc(x, y, z);
        self.law_add_comm(y, z);
        self.law_add_assoc(x, z, y);
        assert(self.add_v(self.add_v(x, y), z) == self.add_v(self.add_v(x, z), y));
        // x + z factors through the divisor
        self.law_mul_comm(self.mul_v(p, q), divisor);
        self.law_mul_comm(s, divisor);
        self.law_mul_distr(divisor, self.mul_v(p, q), s);
        self.law_mul_comm(divisor, self.add_v(self.mul_v(p, q), s));
        assert(self.add_v(x, z) == self.mul_v(self.add_v(self.mul_v(p, q), s), divisor));
    }

    /// Zero annihilates multiplication on the left (derived law).
    proof fn law_mul_zero_left(&self, a: Self::Value)
        requires
            self.wf(),
        ensures
            self.mul_v(self.zero_v(), a) == self.zero_v(),
    {
        self.law_mul_comm(self.zero_v(), a);
        self.law_mul_zero(a);
    }

    /// Zero is the additive identity on the left (derived law).
    proof fn law_add_zero_left(&self, a: Self::Value)
        requires
            self.wf(),
        ensures
            self.add_v(self.zero_v(), a) == a,
    {
        self.law_add_comm(self.zero_v(), a);
        self.law_add_zero(a);
    }

    /// The Bezout recurrence: if the current rows combine `a` and `b`
    /// into the dividend and the divisor, the next row combines them
    /// into the remainder.
    proof fn lemma_bezout_step(
        &self,
        a: Self::Value,
        b: Self::Value,
        xc: Self::Value,
        yc: Self::Value,
        xp: Self::Value,
        yp: Self::Value,
        dividend: Self::Value,
        divisor: Self::Value,
        q: Self::Value,
        r: Self::Value,
    )
        requires
            self.wf(),
            self.add_v(self.mul_v(xc, a), self.mul_v(yc, b)) == divisor,
            self.add_v(self.mul_v(xp, a), self.mul_v(yp, b)) == dividend,
            self.add_v(self.mul_v(q, divisor), r) == dividend,
        ensures
            self.add_v(
                self.mul_v(self.add_v(xp, self.mul_v(xc, self.neg_v(q))), a),
                self.mul_v(self.add_v(yp, self.mul_v(yc, self.neg_v(q))), b),
            ) == r,
    {
        let nq = self.neg_v(q);
        let xa = self.mul_v(xc, a);
        let yb = self.mul_v(yc, b);
        let pxa = self.mul_v(xp, a);
        let pyb = self.mul_v(yp, b);
        // expand the two new coefficients over a and b
        self.law_mul_comm(self.add_v(xp, self.mul_v(xc, nq)), a);
        self.law_mul_distr(a, xp, self.mul_v(xc, nq));
        self.law_mul_comm(a, xp);
        self.law_mul_comm(a, self.mul_v(xc, nq));
        self.law_mul_comm(self.add_v(yp, self.mul_v(yc, nq)), b);
        self.law_mul_distr(b, yp, self.mul_v(yc, nq));
        self.law_mul_comm(b, yp);
        self.law_mul_comm(b, self.mul_v(yc, nq));
        let left = self.add_v(pxa, self.mul_v(self.mul_v(xc, nq), a));
        let right = self.add_v(pyb, self.mul_v(self.mul_v(yc, nq), b));
        // regroup: (pxa + u) + (pyb + v) == (pxa + pyb) + (u + v)
        let u = self.mul_v(self.mul_v(xc, nq), a);
        let v = self.mul_v(self.mul_v(yc, nq), b);
        self.lemma_add_exchange(pxa, u, pyb, v);
        // (xc nq) a == nq (xc a), and likewise for b
        self.law_mul_comm(xc, nq);
        self.law_mul_assoc(nq, xc, a);
        self.law_mul_comm(yc, nq);
        self.law_mul_assoc(nq, yc, b);
        assert(u == self.mul_v(nq, xa));
        assert(v == self.mul_v(nq, yb));
        // u + v == nq * divisor
        self.law_mul_distr(nq, xa, yb);
        assert(self.add_v(u, v) == self.mul_v(nq, divisor));
        // nq * divisor == neg(q * divisor)
        self.lemma_neg_mul(q, divisor);
        // dividend + neg(q*divisor) == r
        let qd = self.mul_v(q, divisor);
        self.law_add_comm(qd, r);
        self.law_add_assoc(r, qd, self.neg_v(qd));
        self.law_add_neg(qd);
        self.law_add_zero(r);
        assert(self.add_v(dividend, self.neg_v(qd)) == r);
        self.law_add_comm(self.add_v(pxa, pyb), self.add_v(u, v));
        self.law_add_comm(self.neg_v(qd), dividend);
    }

    /// Multiplying by a negation negates the product (derived law).
    proof fn lemma_neg_mul(&self, q: Self::Value, d: Self::Value)
        requires
            self.wf(),
        ensures
            self.mul_v(self.neg_v(q), d) == self.neg_v(self.mul_v(q, d)),
    {
        let nq = self.neg_v(q);
        let qd = self.mul_v(q, d);
        let nqd = self.mul_v(nq, d);
        // nqd + qd == (nq + q) * d == 0 * d == 0
        self.law_mul_comm(nq, d);
        self.law_mul_comm(q, d);
        self.law_mul_distr(d, nq, q);
        self.law_add_comm(nq, q);
        self.law_add_neg(q);
        self.law_mul_zero(d);
        self.law_mul_comm(d, self.zero_v());
        assert(self.add_v(nqd, qd) == self.mul_v(d, self.add_v(nq, q)));
        assert(self.add_v(nqd, qd) == self.zero_v());
        // additive inverses are unique
        self.law_add_assoc(self.neg_v(qd), qd, nqd);
        self.law_add_comm(qd, nqd);
        self.law_add_zero(self.neg_v(qd));
        self.law_add_comm(self.neg_v(qd), self.zero_v());
        self.law_add_zero_left(self.neg_v(qd));
        self.law_add_neg(qd);
        self.law_add_comm(self.neg_v(qd), self.add_v(qd, nqd));
        self.law_add_assoc(nqd, qd, self.neg_v(qd));
        self.law_add_zero(nqd);
        assert(self.mul_v(self.neg_v(q), d) == self.neg_v(self.mul_v(q, d)));
    }

    /// Regrouping a four-way sum (derived law).
    proof fn lemma_add_exchange(
        &self,
        p: Self::Value,
        q: Self::Value,
        r: Self::Value,
        s: Self::Value,
    )
        requires
            self.wf(),
        ensures
            self.add_v(self.add_v(p, q), self.add_v(r, s)) == self.add_v(
                self.add_v(p, r),
                self.add_v(q, s),
            ),
    {
        self.law_add_assoc(p, q, self.add_v(r, s));
        self.law_add_assoc(q, r, s);
        self.law_add_comm(q, r);
        self.law_add_assoc(r, q, s);
        self.law_add_assoc(p, r, self.add_v(q, s));
    }
}

} // verus!
