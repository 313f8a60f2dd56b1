//! Binary polynomial arithmetic: GF(2)[x] on growable word vectors and
//! GF(2^n) on single fixed-width words.
//!
//! `BinaryRing` works on arbitrary-length little-endian sequences of
//! words read as GF(2)[x] polynomials; `BinaryField` works on a single
//! word reduced modulo a fixed irreducible polynomial whose degree equals
//! the word width.  Every operation is specified against the natural
//! number view of its operands (`seq_val`, `Word::value`) and the
//! carry-free arithmetic of the `gf2` module.

use core::marker::PhantomData;
use vstd::prelude::*;
use vstd::pervasive::VecAdditionalExecFns;
use vstd::arithmetic::power2::pow2;
use vstd::arithmetic::power2::lemma_pow2_adds;
use vstd::arithmetic::power2::lemma_pow2_pos;
use vstd::arithmetic::power2::lemma2_to64;
use crate::gf2::bxor;
use crate::gf2::deg;
use crate::gf2::pmul;
use crate::gf2::lemma_bxor_zero;
use crate::gf2::lemma_bxor_comm;
use crate::gf2::lemma_bxor_split;
use crate::gf2::lemma_bxor_bit_even;
use crate::gf2::lemma_bxor_add_pow2;
use crate::gf2::lemma_pow2_double;
use crate::Ring;
use crate::euclidian_domain::EuclidianDomain;
use crate::words::Word;
use crate::words::seq_val;
use crate::words::canonical;
use crate::words::word_bit;
use crate::words::word_shl;
use crate::words::word_degree;
use crate::words::lemma_seq_val_push;
use crate::words::lemma_seq_val_last;
use crate::words::lemma_seq_val_bound;
use crate::words::lemma_seq_val_deg;
use crate::words::lemma_seq_val_bit;

verus! {

/// The ring GF(2)[x] of polynomials over GF(2), stored as growable
/// little-endian vectors of fixed-width words.  The ring itself is
/// stateless; all operations act on caller-owned vectors.
#[derive(PartialEq, Eq, Debug)]
pub struct BinaryRing<T: Word> {
    _phantom: PhantomData<T>,
}

impl<T: Word> Default for BinaryRing<T> {
    fn default() -> Self {
        BinaryRing { _phantom: PhantomData }
    }
}

/// Pointwise carry-free addition of a shorter sequence into a prefix of a
/// longer one adds the values.
proof fn lemma_seq_val_bxor_pointwise<T: Word>(a: Seq<T>, b: Seq<T>, c: Seq<T>)
    requires
        c.len() == a.len(),
        b.len() <= a.len(),
        forall|k: int|
            0 <= k < b.len() ==> (#[trigger] c[k]).value() == bxor(a[k].value(), b[k].value()),
        forall|k: int| b.len() <= k < a.len() ==> #[trigger] c[k] == a[k],
    ensures
        seq_val(c) == bxor(seq_val(a), seq_val(b)),
    decreases a.len(),
{
    let n = T::width();
    if b.len() == 0 {
        assert(c =~= a);
        lemma_bxor_zero(seq_val(a));
    } else {
        let ta = a.drop_first();
        let tb = b.drop_first();
        let tc = c.drop_first();
        assert(forall|k: int|
            0 <= k < tb.len() ==> (#[trigger] tc[k]).value() == bxor(ta[k].value(), tb[k].value()));
        assert(forall|k: int| tb.len() <= k < ta.len() ==> #[trigger] tc[k] == ta[k]);
        lemma_seq_val_bxor_pointwise(ta, tb, tc);
        a[0].lemma_value_bound();
        b[0].lemma_value_bound();
        lemma_bxor_split(n, a[0].value(), seq_val(ta), b[0].value(), seq_val(tb));
        assert(seq_val(a) == a[0].value() + pow2(n) * seq_val(ta));
        assert(seq_val(b) == b[0].value() + pow2(n) * seq_val(tb));
        assert(seq_val(c) == c[0].value() + pow2(n) * seq_val(tc));
    }
}

/// One step of long division, on values.  `s` is the divisor aligned
/// to bit `i`; processing the bit appends it to the quotient and,
/// when set in the dividend, cancels it there.
pub(crate) proof fn lemma_div_step(orig: nat, res: nat, vm: nat, s: nat, d: nat, i: int, dd: int)
    requires
        d > 0,
        deg(d) == dd,
        0 <= dd <= i,
        s == pmul(pow2((i - dd) as nat), d),
        bxor(pmul(res, 2 * s), vm) == orig,
        deg(vm) <= i,
    ensures
        vm / pow2(i as nat) % 2 == 1 ==> bxor(pmul(bxor(2 * res, 1), s), bxor(vm, s))
            == orig && deg(bxor(vm, s)) < i,
        vm / pow2(i as nat) % 2 != 1 ==> bxor(pmul(2 * res, s), vm) == orig && deg(vm) < i,
{
    let k = (i - dd) as nat;
    crate::gf2::lemma_deg_pow2(k);
    lemma_pow2_pos(k);
    crate::gf2::lemma_deg_pmul(pow2(k), d);
    assert(deg(s) == i);
    crate::gf2::lemma_deg_at_least(vm);
    // the doubled divisor is the divisor shifted one bit further
    crate::gf2::lemma_pmul_double(pmul(pow2(k), d), 1);
    crate::gf2::lemma_pmul_double_right(res, s);
    assert(pmul(res, 2 * s) == 2 * pmul(res, s));
    if vm / pow2(i as nat) % 2 == 1 {
        // bit i of the dividend is set, so its degree is exactly i
        let q = vm / pow2(i as nat);
        assert(q >= 1) by (nonlinear_arith)
            requires
                q % 2 == 1,
        ;
        lemma_pow2_pos(i as nat);
        assert(vm >= pow2(i as nat)) by (nonlinear_arith)
            requires
                vm / pow2(i as nat) >= 1,
                pow2(i as nat) > 0,
        ;
        crate::gf2::lemma_deg_lt(vm, i as nat);
        assert(deg(vm) == i);
        assert(vm > 0);
        crate::gf2::lemma_deg_bxor(vm, s);
        crate::gf2::lemma_deg_lt(bxor(vm, s), i as nat);
        assert(deg(bxor(vm, s)) < i);
        // quotient gains its new low bit, the dividend loses bit i
        crate::gf2::lemma_pmul_distr_left(2 * res, 1, s);
        crate::gf2::lemma_pmul_one_left(s);
        assert(pmul(bxor(2 * res, 1), s) == bxor(pmul(2 * res, s), s));
        crate::gf2::lemma_pmul_double(res, s);
        assert(pmul(2 * res, s) == 2 * pmul(res, s));
        // orig == (2 p + vm) with p == pmul(res, s); new form: (2p + s) + (vm + s)
        let p2 = pmul(2 * res, s);
        lemma_bxor_comm(p2, s);
        crate::gf2::lemma_bxor_assoc(s, p2, vm);
        lemma_bxor_comm(s, bxor(p2, vm));
        crate::gf2::lemma_bxor_assoc(bxor(p2, s), vm, s);
        crate::gf2::lemma_bxor_assoc(p2, s, vm);
        lemma_bxor_comm(s, vm);
        crate::gf2::lemma_bxor_assoc(p2, vm, s);
        assert(bxor(bxor(p2, s), bxor(vm, s)) == bxor(bxor(p2, vm), bxor(s, s)))
            by {
            crate::gf2::lemma_bxor_exchange(p2, s, vm, s);
        }
        crate::gf2::lemma_bxor_self(s);
        crate::gf2::lemma_bxor_zero(bxor(p2, vm));
    } else {
        // bit i clear and degree at most i force degree below i
        if deg(vm) == i {
            crate::gf2::lemma_top_bit(vm);
            assert(deg(0nat) == -1);
            assert(false);
        }
        crate::gf2::lemma_pmul_double(res, s);
    }
}


impl<T: Word> BinaryRing<T> {
    /// A fresh ring descriptor.
    pub fn new() -> Self {
        BinaryRing { _phantom: PhantomData }
    }

    /// Strip trailing zero words, canonicalizing the representation
    /// without changing the value.
    pub fn clean_up(value: &mut Vec<T>)
        ensures
            seq_val(final(value)@) == seq_val(old(value)@),
            canonical(final(value)@),
            final(value)@.len() <= old(value)@.len(),
    {
        while value.len() > 0 && value[value.len() - 1].is_zero()
            invariant
                seq_val(value@) == seq_val(old(value)@),
                value@.len() <= old(value)@.len(),
            decreases value@.len(),
        {
            proof {
                lemma_seq_val_last(value@);
                assert(pow2(T::width() * (value@.len() - 1) as nat) * value@.last().value()
                    == 0) by (nonlinear_arith)
                    requires
                        value@.last().value() == 0,
                ;
            }
            value.pop();
        }
    }

    /// Add `rhs` into `value` in place: carry-free addition, growing
    /// `value` with zero words if `rhs` is longer.
    pub fn add_in_place(value: &mut Vec<T>, rhs: &[T])
        ensures
            seq_val(final(value)@) == bxor(seq_val(old(value)@), seq_val(rhs@)),
            final(value)@.len() == vstd::math::max(old(value)@.len() as int, rhs@.len() as int),
    {
        while value.len() < rhs.len()
            invariant
                seq_val(value@) == seq_val(old(value)@),
                old(value)@.len() <= value@.len() <= vstd::math::max(
                    old(value)@.len() as int,
                    rhs@.len() as int,
                ),
            decreases rhs@.len() - value@.len(),
        {
            let z = T::zero();
            proof {
                lemma_seq_val_push(value@, z);
                assert(pow2(T::width() * value@.len()) * z.value() == 0) by (nonlinear_arith)
                    requires
                        z.value() == 0,
                ;
            }
            value.push(z);
        }
        let ghost padded = value@;
        let mut i: usize = 0;
        while i < rhs.len()
            invariant
                rhs@.len() <= value@.len(),
                value@.len() == padded.len(),
                i <= rhs@.len(),
                forall|k: int|
                    0 <= k < i ==> (#[trigger] value@[k]).value() == bxor(
                        padded[k].value(),
                        rhs@[k].value(),
                    ),
                forall|k: int| i <= k < padded.len() ==> #[trigger] value@[k] == padded[k],
            decreases rhs@.len() - i,
        {
            let nw = value[i].xor(rhs[i]);
            value.set(i, nw);
            i = i + 1;
        }
        proof {
            lemma_seq_val_bxor_pointwise(padded, rhs@, value@);
        }
    }

    /// Multiply by `x`: shift every bit up by one, growing the sequence
    /// when the top bit would be lost.
    pub fn shift_left(value: &mut Vec<T>)
        ensures
            seq_val(final(value)@) == 2 * seq_val(old(value)@),
            old(value)@.len() == 0 ==> final(value)@ == old(value)@,
            old(value)@.len() > 0 ==> final(value)@.len() == old(value)@.len() + (if old(
                value,
            )@.last().value() >= pow2((T::width() - 1) as nat) {
                1nat
            } else {
                0nat
            }),
    {
        let ghost orig = value@;
        let mut carry = false;
        let mut i: usize = 0;
        proof {
            assert(orig.take(0) =~= Seq::<T>::empty());
        }
        while i < value.len()
            invariant
                value@.len() == orig.len(),
                i <= orig.len(),
                forall|k: int| i <= k < orig.len() ==> #[trigger] value@[k] == orig[k],
                carry == (i > 0 && orig[i - 1].value() >= pow2((T::width() - 1) as nat)),
                seq_val(value@.take(i as int)) + (if carry {
                    pow2(T::width() * i as nat)
                } else {
                    0
                }) == 2 * seq_val(orig.take(i as int)),
            decreases orig.len() - i,
        {
            let w = value[i];
            let mut nw = w.shl1();
            proof {
                w.lemma_value_bound();
                lemma_pow2_double((T::width() - 1) as nat);
                crate::words::lemma_double_mod(w.value(), pow2((T::width() - 1) as nat));
            }
            if carry {
                let o = T::one();
                proof {
                    lemma_bxor_bit_even(1, (w.value() % pow2((T::width() - 1) as nat)));
                    lemma_bxor_comm(nw.value(), 1);
                }
                nw = nw.xor(o);
            }
            let c_out = w.top_bit();
            proof {
                Self::lemma_shift_left_step(orig, value@, i as int, w, nw, carry, c_out);
            }
            value.set(i, nw);
            carry = c_out;
            i = i + 1;
        }
        proof {
            assert(orig.take(orig.len() as int) =~= orig);
            assert(value@.take(orig.len() as int) =~= value@);
        }
        if carry {
            let o = T::one();
            proof {
                lemma_seq_val_push(value@, o);
            }
            value.push(o);
        }
    }

    /// The arithmetic of one `shift_left` step.
    proof fn lemma_shift_left_step(
        orig: Seq<T>,
        cur: Seq<T>,
        i: int,
        w: T,
        nw: T,
        c_in: bool,
        c_out: bool,
    )
        requires
            orig.len() == cur.len(),
            0 <= i < orig.len(),
            forall|k: int| i <= k < orig.len() ==> #[trigger] cur[k] == orig[k],
            w == orig[i],
            nw.value() == 2 * (w.value() % pow2((T::width() - 1) as nat)) + (if c_in {
                1nat
            } else {
                0nat
            }),
            c_out == (w.value() >= pow2((T::width() - 1) as nat)),
            seq_val(cur.take(i)) + (if c_in {
                pow2(T::width() * i as nat)
            } else {
                0
            }) == 2 * seq_val(orig.take(i)),
        ensures
            seq_val(cur.update(i, nw).take(i + 1)) + (if c_out {
                pow2(T::width() * (i + 1) as nat)
            } else {
                0
            }) == 2 * seq_val(orig.take(i + 1)),
    {
        let n = T::width();
        let h = pow2((n - 1) as nat);
        let p = pow2(n * i as nat);
        let b = pow2(n);
        w.lemma_value_bound();
        lemma_pow2_double((n - 1) as nat);
        lemma_pow2_adds(n * i as nat, n);
        assert(n * (i as nat) + n == n * ((i + 1) as nat)) by (nonlinear_arith)
            requires
                i >= 0,
        ;
        // decompose the word at its top bit
        vstd::arithmetic::div_mod::lemma_fundamental_div_mod(w.value() as int, h as int);
        let q = w.value() / h;
        let r = w.value() % h;
        assert(q == (if c_out {
            1int
        } else {
            0int
        })) by (nonlinear_arith)
            requires
                w.value() == h * q + r,
                0 <= r < h,
                w.value() < 2 * h,
                c_out == (w.value() >= h),
                h > 0,
        ;
        // values of the two takes
        assert(orig.take(i + 1) =~= orig.take(i).push(orig[i]));
        lemma_seq_val_push(orig.take(i), orig[i]);
        let upd = cur.update(i, nw);
        assert(upd.take(i + 1) =~= cur.take(i).push(nw));
        lemma_seq_val_push(cur.take(i), nw);
        // now pure arithmetic
        let cin: nat = if c_in {
            1
        } else {
            0
        };
        let cout: nat = if c_out {
            1
        } else {
            0
        };
        assert(1 * p == p && 0 * p == 0 && 1 * (p * b) == p * b && 0 * (p * b) == 0)
            by (nonlinear_arith);
        assert(seq_val(cur.take(i)) + p * nw.value() + cout * (p * b) == 2 * (seq_val(orig.take(i))
            + p * w.value())) by (nonlinear_arith)
            requires
                seq_val(cur.take(i)) + cin * p == 2 * seq_val(orig.take(i)),
                nw.value() == 2 * r + cin,
                w.value() == h * q + r,
                q == cout,
                b == 2 * h,
        ;
    }

    /// Divide by `x`: shift every bit down by one.  The length is kept;
    /// a leading zero word may remain.
    pub fn shift_right(value: &mut Vec<T>)
        ensures
            final(value)@.len() == old(value)@.len(),
            seq_val(final(value)@) == seq_val(old(value)@) / 2,
    {
        let ghost orig = value@;
        let mut i: usize = 0;
        proof {
            lemma2_to64();
            assert(orig.take(0) =~= Seq::<T>::empty());
            if orig.len() > 0 {
                orig[0].lemma_value_bound();
                assert(T::width() * (0 as nat) == 0) by (nonlinear_arith);
                assert(pow2(0) * (orig[0].value() % 2) == orig[0].value() % 2)
                    by (nonlinear_arith)
                    requires
                        pow2(0) == 1,
                ;
            }
        }
        while i < value.len()
            invariant
                value@.len() == orig.len(),
                i <= orig.len(),
                forall|k: int| i <= k < orig.len() ==> #[trigger] value@[k] == orig[k],
                2 * seq_val(value@.take(i as int)) + (if orig.len() > 0 {
                    orig[0].value() % 2
                } else {
                    0
                }) == seq_val(orig.take(i as int)) + (if i < orig.len() {
                    pow2(T::width() * i as nat) * (orig[i as int].value() % 2)
                } else {
                    0
                }),
            decreases orig.len() - i,
        {
            let w = value[i];
            let mut nw = w.shr1();
            let mut next_odd = false;
            if i + 1 < value.len() {
                next_odd = value[i + 1].odd();
            }
            if next_odd {
                let hb = T::high_bit();
                proof {
                    w.lemma_value_bound();
                    lemma_pow2_double((T::width() - 1) as nat);
                    assert(w.value() / 2 < pow2((T::width() - 1) as nat)) by (nonlinear_arith)
                        requires
                            w.value() < 2 * pow2((T::width() - 1) as nat),
                    ;
                    lemma_bxor_add_pow2(w.value() / 2, (T::width() - 1) as nat);
                }
                nw = nw.xor(hb);
            }
            proof {
                let h = pow2((T::width() - 1) as nat);
                assert(h * 1nat == h && h * 0nat == 0) by (nonlinear_arith);
                Self::lemma_shift_right_step(orig, value@, i as int, nw);
            }
            value.set(i, nw);
            i = i + 1;
        }
        proof {
            assert(orig.take(orig.len() as int) =~= orig);
            assert(value@.take(orig.len() as int) =~= value@);
            if orig.len() > 0 {
                vstd::arithmetic::div_mod::lemma_fundamental_div_mod(seq_val(orig) as int, 2);
                crate::words::lemma_seq_val_bit(orig, 0);
                lemma2_to64();
                assert(seq_val(orig) / pow2(0) % 2 == orig[0].value() / pow2(0) % 2);
                assert(seq_val(orig) % 2 == orig[0].value() % 2);
            }
        }
    }

    /// The arithmetic of one `shift_right` step.
    proof fn lemma_shift_right_step(orig: Seq<T>, cur: Seq<T>, i: int, nw: T)
        requires
            orig.len() == cur.len(),
            0 <= i < orig.len(),
            forall|k: int| i <= k < orig.len() ==> #[trigger] cur[k] == orig[k],
            nw.value() == orig[i].value() / 2 + pow2((T::width() - 1) as nat) * (if i + 1
                < orig.len() {
                orig[i + 1].value() % 2
            } else {
                0
            }),
            2 * seq_val(cur.take(i)) + (if orig.len() > 0 {
                orig[0].value() % 2
            } else {
                0
            }) == seq_val(orig.take(i)) + pow2(T::width() * i as nat) * (orig[i].value() % 2),
        ensures
            2 * seq_val(cur.update(i, nw).take(i + 1)) + (if orig.len() > 0 {
                orig[0].value() % 2
            } else {
                0
            }) == seq_val(orig.take(i + 1)) + (if i + 1 < orig.len() {
                pow2(T::width() * (i + 1) as nat) * (orig[i + 1].value() % 2)
            } else {
                0
            }),
    {
        let n = T::width();
        let h = pow2((n - 1) as nat);
        let p = pow2(n * i as nat);
        let b = pow2(n);
        orig[i].lemma_value_bound();
        lemma_pow2_double((n - 1) as nat);
        lemma_pow2_adds(n * i as nat, n);
        assert(n * (i as nat) + n == n * ((i + 1) as nat)) by (nonlinear_arith)
            requires
                i >= 0,
        ;
        let bnext: nat = if i + 1 < orig.len() {
            orig[i + 1].value() % 2
        } else {
            0
        };
        vstd::arithmetic::div_mod::lemma_fundamental_div_mod(orig[i].value() as int, 2);
        assert(orig.take(i + 1) =~= orig.take(i).push(orig[i]));
        lemma_seq_val_push(orig.take(i), orig[i]);
        let upd = cur.update(i, nw);
        assert(upd.take(i + 1) =~= cur.take(i).push(nw));
        lemma_seq_val_push(cur.take(i), nw);
        assert(2 * (seq_val(cur.take(i)) + p * nw.value()) + (if orig.len() > 0 {
            orig[0].value() % 2
        } else {
            0
        }) == seq_val(orig.take(i)) + p * orig[i].value() + (p * b) * bnext)
            by (nonlinear_arith)
            requires
                2 * seq_val(cur.take(i)) + (if orig.len() > 0 {
                    orig[0].value() % 2
                } else {
                    0
                }) == seq_val(orig.take(i)) + p * (orig[i].value() % 2),
                nw.value() == orig[i].value() / 2 + h * bnext,
                orig[i].value() == 2 * (orig[i].value() / 2) + orig[i].value() % 2,
                b == 2 * h,
        ;
    }

    /// Test the coefficient of `x^bit`.
    pub fn bit_at(&self, value: &[T], bit: usize) -> (r: bool)
        requires
            bit / (T::width() as usize) < value@.len(),
        ensures
            r == (seq_val(value@) / pow2(bit as nat) % 2 == 1),
    {
        let n = T::bits();
        proof {
            T::lemma_width();
        }
        let j = bit / (n as usize);
        let b = bit % (n as usize);
        proof {
            lemma_seq_val_bit(value@, bit as nat);
        }
        word_bit(value[j], b as u32)
    }

    /// The degree of the polynomial: the highest set bit's index, and -1
    /// for the zero polynomial.  The vector must be short enough for the
    /// answer to fit in the returned machine integer.
    pub fn degree(&self, value: &Vec<T>) -> (r: i32)
        requires
            value@.len() * T::width() <= 0x7fff_ffff,
        ensures
            seq_val(value@) == 0 ==> r == -1,
            seq_val(value@) > 0 ==> r as int == deg(seq_val(value@)),
    {
        let mut clen = value.len();
        proof {
            assert(value@.take(value@.len() as int) =~= value@);
        }
        while clen > 0 && value[clen - 1].is_zero()
            invariant
                clen <= value@.len(),
                seq_val(value@.take(clen as int)) == seq_val(value@),
                value@.len() * T::width() <= 0x7fff_ffff,
            decreases clen,
        {
            proof {
                lemma_seq_val_last(value@.take(clen as int));
                assert(value@.take(clen as int).drop_last() =~= value@.take(clen - 1));
                assert(pow2(T::width() * (clen - 1) as nat) * value@[clen - 1].value() == 0)
                    by (nonlinear_arith)
                    requires
                        value@[clen - 1].value() == 0,
                ;
            }
            clen = clen - 1;
        }
        if clen == 0 {
            proof {
                assert(value@.take(0) =~= Seq::<T>::empty());
            }
            return -1;
        }
        let top = value[clen - 1];
        let wd = word_degree(top);
        proof {
            let n = T::width();
            lemma_seq_val_deg(value@.take(clen as int));
            crate::words::lemma_canonical_pos(value@.take(clen as int));
            lemma_pow2_pos(n * (clen - 1) as nat);
            assert((clen - 1) * n + wd < clen * n) by (nonlinear_arith)
                requires
                    (wd as nat) < n,
                    clen >= 1,
            ;
            assert(clen * n <= value@.len() * n) by (nonlinear_arith)
                requires
                    clen <= value@.len(),
            ;
        }
        let r = (clen - 1) * (T::bits() as usize) + (wd as usize);
        r as i32
    }

    /// Multiply by `x^bits`: insert whole zero words for the word-aligned
    /// part of the shift, then move the residual bits one at a time.
    pub fn shift_left_by_bits(value: &mut Vec<T>, bits: u32)
        ensures
            seq_val(final(value)@) == seq_val(old(value)@) * pow2(bits as nat),
            old(value)@.len() == 0 ==> final(value)@ == old(value)@,
            old(value)@.len() > 0 ==> final(value)@.len() == old(value)@.len() + (
            bits as nat) / T::width() + (if seq_val(old(value)@) * pow2(
                (bits as nat) % T::width(),
            ) >= pow2(T::width() * old(value)@.len()) {
                1nat
            } else {
                0nat
            }),
    {
        let ghost orig = value@;
        if value.len() == 0 {
            proof {
                assert(0nat * pow2(bits as nat) == 0) by (nonlinear_arith);
            }
            return ;
        }
        let n = T::bits();
        proof {
            T::lemma_width();
        }
        let words = (bits / n) as usize;
        let rem = bits % n;
        if words > 0 {
            let mut grown: Vec<T> = Vec::new();
            let mut j: usize = 0;
            while j < words
                invariant
                    j <= words,
                    grown@.len() == j,
                    forall|k: int| 0 <= k < j ==> (#[trigger] grown@[k]).value() == 0,
                decreases words - j,
            {
                grown.push(T::zero());
                j = j + 1;
            }
            let mut i: usize = 0;
            while i < value.len()
                invariant
                    i <= value@.len(),
                    value@ == orig,
                    grown@.len() == words + i,
                    forall|k: int| 0 <= k < words ==> (#[trigger] grown@[k]).value() == 0,
                    forall|k: int| words <= k < grown@.len() ==> #[trigger] grown@[k] == orig[k
                        - words],
                decreases value@.len() - i,
            {
                let w = value[i];
                grown.push(w);
                i = i + 1;
            }
            proof {
                crate::words::lemma_seq_val_split(grown@, words as nat);
                Self::lemma_seq_val_all_zero(grown@.take(words as int));
                assert(grown@.skip(words as int) =~= orig);
                assert(seq_val(grown@) == seq_val(orig) * pow2(T::width() * (words as nat)))
                    by (nonlinear_arith)
                    requires
                        seq_val(grown@) == seq_val(grown@.take(words as int)) + pow2(
                            T::width() * (words as nat),
                        ) * seq_val(grown@.skip(words as int)),
                        seq_val(grown@.take(words as int)) == 0,
                        grown@.skip(words as int) == orig,
                ;
            }
            *value = grown;
        } else {
            proof {
                lemma2_to64();
                assert(T::width() * (words as nat) == 0) by (nonlinear_arith)
                    requires
                        words == 0,
                ;
                assert(seq_val(orig) * pow2(0) == seq_val(orig)) by (nonlinear_arith)
                    requires
                        pow2(0) == 1,
                ;
            }
        }
        let ghost base = seq_val(value@);
        let ghost stage_len = value@.len();
        proof {
            assert(base == seq_val(orig) * pow2(T::width() * (words as nat)));
            crate::words::lemma_seq_val_bound(value@);
        }
        let mut s: u32 = 0;
        proof {
            lemma2_to64();
            assert(base * 1 == base) by (nonlinear_arith);
        }
        while s < rem
            invariant
                s <= rem,
                (rem as nat) < T::width(),
                T::width() >= 8,
                stage_len >= 1,
                stage_len == orig.len() + (words as nat),
                base < pow2(T::width() * stage_len),
                seq_val(value@) == base * pow2(s as nat),
                value@.len() == stage_len + (if base * pow2(s as nat) >= pow2(
                    T::width() * stage_len,
                ) {
                    1nat
                } else {
                    0nat
                }),
            decreases rem - s,
        {
            let ghost w = T::width();
            let ghost cur = seq_val(value@);
            let ghost cur_len = value@.len();
            proof {
                crate::words::lemma_top_word_threshold(value@);
            }
            Self::shift_left(value);
            proof {
                lemma_pow2_double(s as nat);
                assert(2 * (base * pow2(s as nat)) == base * pow2((s + 1) as nat))
                    by (nonlinear_arith)
                    requires
                        pow2((s + 1) as nat) == 2 * pow2(s as nat),
                ;
                // track the one possible growth of the vector
                if cur_len == stage_len {
                    assert(w * stage_len >= 1) by (nonlinear_arith)
                        requires
                            w >= 8,
                            stage_len >= 1,
                    ;
                    lemma_pow2_double((w * stage_len - 1) as nat);
                    if cur >= pow2((w * stage_len - 1) as nat) {
                        assert(base * pow2((s + 1) as nat) >= pow2(w * stage_len))
                            by (nonlinear_arith)
                            requires
                                cur == base * pow2(s as nat),
                                cur >= pow2((w * stage_len - 1) as nat),
                                pow2(w * stage_len) == 2 * pow2((w * stage_len - 1) as nat),
                                base * pow2((s + 1) as nat) == 2 * (base * pow2(s as nat)),
                        ;
                    } else {
                        assert(base * pow2((s + 1) as nat) < pow2(w * stage_len))
                            by (nonlinear_arith)
                            requires
                                cur == base * pow2(s as nat),
                                cur < pow2((w * stage_len - 1) as nat),
                                pow2(w * stage_len) == 2 * pow2((w * stage_len - 1) as nat),
                                base * pow2((s + 1) as nat) == 2 * (base * pow2(s as nat)),
                        ;
                    }
                } else {
                    // already grown: the shifted value stays below the new
                    // vector's own top bit, so the length is kept
                    assert(cur_len == stage_len + 1);
                    lemma_pow2_adds(w * stage_len, s as nat);
                    lemma_pow2_adds(w * stage_len, (w - 1) as nat);
                    vstd::arithmetic::power2::lemma_pow2_strictly_increases(
                        w * stage_len + s as nat,
                        w * stage_len + (w - 1) as nat,
                    );
                    assert(cur < pow2(w * stage_len + s as nat)) by (nonlinear_arith)
                        requires
                            cur == base * pow2(s as nat),
                            base < pow2(w * stage_len),
                            pow2(w * stage_len + s as nat) == pow2(w * stage_len) * pow2(
                                s as nat,
                            ),
                            pow2(s as nat) > 0,
                    ;
                    assert(w * cur_len - 1 == w * stage_len + (w - 1)) by (nonlinear_arith)
                        requires
                            cur_len == stage_len + 1,
                            w >= 1,
                    ;
                    assert(cur < pow2((w * cur_len - 1) as nat));
                    assert(base * pow2((s + 1) as nat) >= pow2(w * stage_len))
                        by (nonlinear_arith)
                        requires
                            base * pow2(s as nat) >= pow2(w * stage_len),
                            base * pow2((s + 1) as nat) == 2 * (base * pow2(s as nat)),
                    ;
                }
            }
            s = s + 1;
        }
        proof {
            // convert the staged growth condition back to the input's terms
            let n2 = T::width();
            if orig.len() > 0 {
                lemma_pow2_adds(n2 * orig.len(), n2 * (words as nat));
                lemma_pow2_pos(n2 * (words as nat));
                assert(n2 * stage_len == n2 * orig.len() + n2 * (words as nat))
                    by (nonlinear_arith)
                    requires
                        stage_len == orig.len() + (words as nat),
                ;
                assert((base * pow2(rem as nat) >= pow2(n2 * stage_len)) == (seq_val(orig)
                    * pow2(rem as nat) >= pow2(n2 * orig.len()))) by (nonlinear_arith)
                    requires
                        base == seq_val(orig) * pow2(n2 * (words as nat)),
                        pow2(n2 * stage_len) == pow2(n2 * orig.len()) * pow2(
                            n2 * (words as nat),
                        ),
                        pow2(n2 * (words as nat)) > 0,
                ;
            }
        }
        proof {
            // reassemble the two stages of the shift
            let n2 = T::width();
            vstd::arithmetic::div_mod::lemma_fundamental_div_mod(bits as int, n2 as int);
            assert((words as nat) == (bits as nat) / n2);
            assert(n2 * (words as nat) + (rem as nat) == bits as nat) by (nonlinear_arith)
                requires
                    (bits as nat) == n2 * ((bits as nat) / n2) + (bits as nat) % n2,
                    (words as nat) == (bits as nat) / n2,
                    (rem as nat) == (bits as nat) % n2,
            ;
            lemma_pow2_adds(n2 * (words as nat), rem as nat);
            assert(seq_val(orig) * pow2(n2 * (words as nat)) * pow2(rem as nat) == seq_val(orig)
                * pow2(bits as nat)) by (nonlinear_arith)
                requires
                    pow2(n2 * (words as nat)) * pow2(rem as nat) == pow2(bits as nat),
            ;
        }
    }

    /// A sequence of zero-valued words denotes zero.
    proof fn lemma_seq_val_all_zero(s: Seq<T>)
        requires
            forall|k: int| 0 <= k < s.len() ==> (#[trigger] s[k]).value() == 0,
        ensures
            seq_val(s) == 0,
        decreases s.len(),
    {
        if s.len() > 0 {
            Self::lemma_seq_val_all_zero(s.drop_first());
            assert(pow2(T::width()) * seq_val(s.drop_first()) == 0) by (nonlinear_arith)
                requires
                    seq_val(s.drop_first()) == 0,
            ;
        }
    }

    /// An element-for-element copy of a word vector.
    fn clone_vec(v: &Vec<T>) -> (r: Vec<T>)
        ensures
            r@ == v@,
    {
        let mut result: Vec<T> = Vec::new();
        let mut i: usize = 0;
        while i < v.len()
            invariant
                i <= v@.len(),
                result@ == v@.take(i as int),
            decreases v@.len() - i,
        {
            let w = v[i];
            result.push(w);
            proof {
                assert(v@.take(i as int).push(v@[i as int]) =~= v@.take(i + 1));
            }
            i = i + 1;
        }
        proof {
            assert(v@.take(v@.len() as int) =~= v@);
        }
        result
    }

    /// Ring addition: carry-free addition of the two polynomials, with the
    /// result canonicalized.
    pub fn add(&self, lhs: &Vec<T>, rhs: &Vec<T>) -> (r: Vec<T>)
        ensures
            seq_val(r@) == bxor(seq_val(lhs@), seq_val(rhs@)),
            canonical(r@),
    {
        let mut result = Self::clone_vec(lhs);
        Self::add_in_place(&mut result, rhs.as_slice());
        Self::clean_up(&mut result);
        result
    }

    /// Ring negation: the identity, since the ring has characteristic 2.
    pub fn neg(&self, lhs: &Vec<T>) -> (r: Vec<T>)
        ensures
            r@ == lhs@,
    {
        Self::clone_vec(lhs)
    }

    /// The zero polynomial: the empty sequence.
    pub fn zero(&self) -> (r: Vec<T>)
        ensures
            r@.len() == 0,
            seq_val(r@) == 0,
            canonical(r@),
    {
        Vec::new()
    }

    /// The constant polynomial 1.
    pub fn one(&self) -> (r: Vec<T>)
        ensures
            seq_val(r@) == 1,
            canonical(r@),
    {
        let mut result: Vec<T> = Vec::new();
        let o = T::one();
        proof {
            lemma_seq_val_push(result@, o);
            lemma2_to64();
            assert(T::width() * (0 as nat) == 0) by (nonlinear_arith);
            assert(pow2(0) * o.value() == o.value()) by (nonlinear_arith)
                requires
                    pow2(0) == 1,
            ;
        }
        result.push(o);
        result
    }

    /// One step of the shift-and-add multiply: consuming the next lower
    /// bit of the left operand.
    proof fn lemma_mul_step(a: nat, b: nat, e: nat)
        requires
            e >= 1,
        ensures
            pmul(a / pow2((e - 1) as nat), b) == bxor(
                (if a / pow2((e - 1) as nat) % 2 == 1 {
                    b
                } else {
                    0nat
                }),
                2 * pmul(a / pow2(e), b),
            ),
    {
        let x = a / pow2((e - 1) as nat);
        lemma_pow2_pos((e - 1) as nat);
        lemma_pow2_double((e - 1) as nat);
        vstd::arithmetic::div_mod::lemma_div_denominator(a as int, pow2((e - 1) as nat) as int, 2);
        assert(x / 2 == a / pow2(e));
        if x == 0 {
            crate::gf2::lemma_pmul_zero(0, b);
            lemma_bxor_zero(0);
        }
    }

    /// Ring multiplication: iterate the bits of `lhs` from the most
    /// significant down, shifting the accumulator and adding `rhs` where
    /// the bit is set.  The result is canonicalized.
    pub fn mul(&self, lhs: &Vec<T>, rhs: &Vec<T>) -> (r: Vec<T>)
        ensures
            seq_val(r@) == pmul(seq_val(lhs@), seq_val(rhs@)),
            canonical(r@),
    {
        let ghost lv = seq_val(lhs@);
        let ghost rv = seq_val(rhs@);
        if lhs.len() == 0 || rhs.len() == 0 {
            proof {
                crate::gf2::lemma_pmul_zero(lv, rv);
            }
            return Vec::new();
        }
        let mut result: Vec<T> = Vec::new();
        result.push(T::zero());
        proof {
            lemma_seq_val_bound(lhs@);
            assert(seq_val(result@) == result@[0].value() + pow2(T::width()) * seq_val(
                result@.drop_first(),
            ));
            assert(pow2(T::width()) * seq_val(result@.drop_first()) == 0) by (nonlinear_arith)
                requires
                    seq_val(result@.drop_first()) == 0,
            ;
            crate::gf2::lemma_pmul_zero(0, rv);
            lemma_pow2_pos(T::width() * lhs@.len());
            assert(lv / pow2(T::width() * lhs@.len()) == 0) by (nonlinear_arith)
                requires
                    lv < pow2(T::width() * lhs@.len()),
                    pow2(T::width() * lhs@.len()) > 0,
            ;
        }
        let mut wi = lhs.len();
        while wi > 0
            invariant
                wi <= lhs@.len(),
                lhs@.len() > 0,
                lv == seq_val(lhs@),
                rv == seq_val(rhs@),
                seq_val(result@) == pmul(lv / pow2(T::width() * (wi as nat)), rv),
            decreases wi,
        {
            wi = wi - 1;
            let mut bi = T::bits();
            proof {
                T::lemma_width();
                assert(T::width() * ((wi + 1) as nat) == T::width() * (wi as nat) + T::width())
                    by (nonlinear_arith);
            }
            while bi > 0
                invariant
                    (bi as nat) <= T::width(),
                    wi < lhs@.len(),
                    lv == seq_val(lhs@),
                    rv == seq_val(rhs@),
                    seq_val(result@) == pmul(
                        lv / pow2(T::width() * (wi as nat) + (bi as nat)),
                        rv,
                    ),
                decreases bi,
            {
                bi = bi - 1;
                let ghost e = T::width() * (wi as nat) + (bi as nat) + 1;
                Self::shift_left(&mut result);
                let set = word_bit(lhs[wi], bi);
                proof {
                    T::lemma_width();
                    assert((e - 1) as int == (wi as int) * (T::width() as int) + (bi as int))
                        by (nonlinear_arith)
                        requires
                            e == T::width() * (wi as nat) + (bi as nat) + 1,
                    ;
                    vstd::arithmetic::div_mod::lemma_fundamental_div_mod_converse(
                        (e - 1) as int,
                        T::width() as int,
                        wi as int,
                        bi as int,
                    );
                    lemma_seq_val_bit(lhs@, (e - 1) as nat);
                    Self::lemma_mul_step(lv, rv, e);
                    lemma_bxor_comm(
                        (if lv / pow2((e - 1) as nat) % 2 == 1 {
                            rv
                        } else {
                            0nat
                        }),
                        2 * pmul(lv / pow2(e), rv),
                    );
                    lemma_bxor_zero(2 * pmul(lv / pow2(e), rv));
                }
                if set {
                    Self::add_in_place(&mut result, rhs.as_slice());
                }
            }
            proof {
                assert(T::width() * (wi as nat) + 0 == T::width() * (wi as nat));
            }
        }
        proof {
            lemma2_to64();
            assert(T::width() * (0 as nat) == 0) by (nonlinear_arith);
            assert(lv / pow2(0) == lv);
        }
        Self::clean_up(&mut result);
        result
    }

    /// Euclidean division in GF(2)[x]: returns a quotient and remainder
    /// with `value == quotient * divisor + remainder` (carry-free) and
    /// the remainder's degree strictly below the divisor's.  Fails
    /// exactly when the divisor is the zero polynomial.  Both operands
    /// must be short enough for their degrees to fit in a machine
    /// integer.
    pub fn division_algorithm(&self, value: &Vec<T>, divisor: &Vec<T>) -> (r: Result<
        crate::euclidian_domain::DivisionAlgorithmResult<Vec<T>>,
        crate::error::Error,
    >)
        requires
            value@.len() * T::width() <= 0x7fff_ffff,
            divisor@.len() * T::width() <= 0x7fff_ffff,
        ensures
            match r {
                Ok(d) => seq_val(divisor@) != 0 && canonical(d.quotient@) && bxor(
                    pmul(seq_val(d.quotient@), seq_val(divisor@)),
                    seq_val(d.remainder@),
                ) == seq_val(value@) && deg(seq_val(d.remainder@)) < deg(seq_val(divisor@)) && (
                if deg(seq_val(value@)) < deg(seq_val(divisor@)) {
                    d.remainder@ == value@
                } else {
                    canonical(d.remainder@)
                }),
                Err(e) => seq_val(divisor@) == 0 && e == crate::error::Error::DivisionByZero,
            },
    {
        let ghost orig_val = seq_val(value@);
        let ghost dv = seq_val(divisor@);
        let v_deg = self.degree(value);
        let d_deg = self.degree(divisor);
        let mut substractor = Self::clone_vec(divisor);
        Self::clean_up(&mut substractor);
        if substractor.len() == 0 {
            return Err(crate::error::Error::DivisionByZero);
        }
        proof {
            crate::words::lemma_canonical_pos(substractor@);
            lemma_pow2_pos(T::width() * (substractor@.len() - 1) as nat);
            crate::gf2::lemma_deg_at_least(dv);
            assert(dv > 0);
        }
        let mut value_m = Self::clone_vec(value);
        if v_deg < d_deg {
            proof {
                crate::gf2::lemma_pmul_zero(0, dv);
                lemma_bxor_zero(orig_val);
                assert(deg(0nat) == -1);
            }
            return Ok(
                crate::euclidian_domain::DivisionAlgorithmResult {
                    quotient: Vec::new(),
                    remainder: value_m,
                },
            );
        }
        // from here both degrees are real: 0 <= d_deg <= v_deg
        let vd = v_deg as usize;
        let dd = d_deg as usize;
        let ghost cleaned = seq_val(substractor@);
        Self::shift_left_by_bits(&mut substractor, (vd - dd) as u32);
        proof {
            crate::gf2::lemma_pmul_pow2((vd - dd) as nat, dv);
            assert(cleaned * pow2((vd - dd) as nat) == pow2((vd - dd) as nat) * dv)
                by (nonlinear_arith)
                requires
                    cleaned == dv,
            ;
        }
        let mut result: Vec<T> = Vec::new();
        result.push(T::zero());
        proof {
            assert(seq_val(result@) == result@[0].value() + pow2(T::width()) * seq_val(
                result@.drop_first(),
            ));
            assert(pow2(T::width()) * seq_val(result@.drop_first()) == 0) by (nonlinear_arith)
                requires
                    seq_val(result@.drop_first()) == 0,
            ;
            crate::gf2::lemma_pmul_zero(0, pmul(pow2(((vd - dd) + 1) as nat), dv));
            lemma_bxor_zero(orig_val);
            crate::gf2::lemma_pmul_zero(0, 0);
        }
        let n = vd - dd + 1;
        let mut j: usize = 0;
        proof {
            lemma2_to64();
        }
        while j < n
            invariant
                n == vd - dd + 1,
                dd <= vd,
                vd <= 0x7fff_ffff,
                j <= n,
                dv == seq_val(divisor@),
                orig_val == seq_val(value@),
                dv > 0,
                deg(dv) == dd,
                deg(orig_val) == vd,
                value@.len() * T::width() <= 0x7fff_ffff,
                value_m@.len() >= value@.len(),
                result@.len() >= 1,
                j < n ==> seq_val(substractor@) == pmul(pow2((n - 1 - j) as nat), dv),
                bxor(
                    pmul(seq_val(result@), pmul(pow2((n - j) as nat), dv)),
                    seq_val(value_m@),
                ) == orig_val,
                deg(seq_val(value_m@)) <= vd - j,
            decreases n - j,
        {
            let i = vd - j;
            let ghost resold = seq_val(result@);
            let ghost vmv = seq_val(value_m@);
            let ghost s = seq_val(substractor@);
            Self::shift_left(&mut result);
            proof {
                // the aligned divisor doubled is the next power step
                lemma_pow2_double((n - 1 - j) as nat);
                crate::gf2::lemma_pmul_pow2((n - 1 - j) as nat, dv);
                crate::gf2::lemma_pmul_pow2((n - j) as nat, dv);
                assert(2 * (pow2((n - 1 - j) as nat) * dv) == pow2((n - j) as nat) * dv)
                    by (nonlinear_arith)
                    requires
                        pow2((n - j) as nat) == 2 * pow2((n - 1 - j) as nat),
                ;
                assert(2 * s == pmul(pow2((n - j) as nat), dv));
                lemma_div_step(orig_val, resold, vmv, s, dv, i as int, dd as int);
                // bit index i is within the allocated words of the dividend
                crate::words::lemma_seq_val_bound(value@);
                crate::gf2::lemma_deg_lt(orig_val, T::width() * value@.len());
                assert((i as nat) < T::width() * value@.len());
                T::lemma_width();
                vstd::arithmetic::div_mod::lemma_fundamental_div_mod(
                    i as int,
                    T::width() as int,
                );
                assert(i / (T::width() as usize) < value_m@.len()) by (nonlinear_arith)
                    requires
                        (i as int) == (T::width() as int) * ((i as int) / (T::width() as int))
                            + (i as int) % (T::width() as int),
                        (i as int) % (T::width() as int) >= 0,
                        (i as nat) < T::width() * value@.len(),
                        value_m@.len() >= value@.len(),
                        T::width() >= 8,
                        (T::width() as usize) == T::width(),
                ;
            }
            let set = self.bit_at(value_m.as_slice(), i);
            if set {
                Self::add_in_place(&mut value_m, substractor.as_slice());
                let w0 = result[0];
                let o = T::one();
                let ghost pre = result@;
                let ghost res2 = seq_val(result@);
                proof {
                    crate::words::lemma_seq_val_split(pre, 1);
                    assert(T::width() * 1nat == T::width()) by (nonlinear_arith);
                    assert(pre.take(1).drop_first() =~= Seq::<T>::empty());
                    assert(pow2(T::width()) * seq_val(Seq::<T>::empty()) == 0)
                        by (nonlinear_arith);
                    assert(seq_val(pre.take(1)) == w0.value() + pow2(T::width()) * 0);
                    assert(pow2(T::width()) * 0nat == 0) by (nonlinear_arith);
                }
                let nw = w0.xor(o);
                result.set(0, nw);
                proof {
                    let t = result@;
                    assert(t.skip(1) =~= pre.skip(1));
                    let rest = seq_val(pre.skip(1));
                    crate::words::lemma_seq_val_split(t, 1);
                    assert(T::width() * 1nat == T::width()) by (nonlinear_arith);
                    assert(t.take(1).drop_first() =~= Seq::<T>::empty());
                    assert(pow2(T::width()) * seq_val(Seq::<T>::empty()) == 0)
                        by (nonlinear_arith);
                    assert(seq_val(t.take(1)) == nw.value() + pow2(T::width()) * 0);
                    w0.lemma_value_bound();
                    assert(deg(0nat) == -1);
                    assert(deg(1nat) == 1 + deg(0nat));
                    crate::gf2::lemma_deg_lt(1, T::width());
                    lemma_bxor_split(T::width(), w0.value(), rest, 1, 0);
                    lemma_bxor_zero(rest);
                    assert(pow2(T::width()) * 0nat == 0) by (nonlinear_arith);
                    assert(res2 == w0.value() + pow2(T::width()) * rest);
                    assert(seq_val(t) == bxor(res2, 1));
                }
            }
            Self::shift_right(&mut substractor);
            j = j + 1;
            proof {
                if j < n {
                    crate::gf2::lemma_pmul_pow2((n - 1 - j) as nat, dv);
                    crate::gf2::lemma_pmul_pow2((n - j) as nat, dv);
                    lemma_pow2_double((n - 1 - j) as nat);
                    assert((pow2((n - j) as nat) * dv) / 2 == pow2((n - 1 - j) as nat) * dv)
                        by (nonlinear_arith)
                        requires
                            pow2((n - j) as nat) == 2 * pow2((n - 1 - j) as nat),
                    ;
                }
            }
        }
        proof {
            lemma2_to64();
            crate::gf2::lemma_pmul_pow2(0, dv);
            assert(1 * dv == dv) by (nonlinear_arith);
        }
        Self::clean_up(&mut result);
        Self::clean_up(&mut value_m);
        proof {
            crate::gf2::lemma_deg_at_least(seq_val(value_m@));
        }
        Ok(
            crate::euclidian_domain::DivisionAlgorithmResult {
                quotient: result,
                remainder: value_m,
            },
        )
    }
}

/// Halving a quotient divides by the next power of two: the value after
/// one more `shift_right` step.
pub proof fn lemma_halving_step(x: nat, j: nat)
    ensures
        (x / pow2(j)) / 2 == x / pow2(j + 1),
{
    lemma_pow2_pos(j);
    lemma_pow2_double(j);
    vstd::arithmetic::div_mod::lemma_div_denominator(x as int, pow2(j) as int, 2);
}

/// Dividing a shifted value by any smaller power of two leaves the rest
/// of the shift: `shift_right` undoes `shift_left_by_bits` one bit at a
/// time.
pub proof fn lemma_shift_right_undoes_shift(v: nat, n: nat, j: nat)
    requires
        j <= n,
    ensures
        (v * pow2(n)) / pow2(j) == v * pow2((n - j) as nat),
    decreases j,
{
    if j == 0 {
        lemma2_to64();
        lemma_pow2_pos(n);
        assert((v * pow2(n)) / 1 == v * pow2(n));
    } else {
        lemma_shift_right_undoes_shift(v, n, (j - 1) as nat);
        lemma_halving_step(v * pow2(n), (j - 1) as nat);
        lemma_pow2_double((n - j) as nat);
        assert(v * pow2((n - j + 1) as nat) == 2 * (v * pow2((n - j) as nat)))
            by (nonlinear_arith)
            requires
                pow2((n - j + 1) as nat) == 2 * pow2((n - j) as nat),
        ;
        vstd::arithmetic::div_mod::lemma_fundamental_div_mod_converse(
            (2 * (v * pow2((n - j) as nat))) as int,
            2,
            (v * pow2((n - j) as nat)) as int,
            0,
        );
    }
}

/// Shifting left one bit and back right one bit returns any word
/// sequence to its canonical form: `clean_up` after
/// `shift_right(shift_left(v))` yields exactly `clean_up(v)`.
/// `cleaned` stands for the canonical form of the input and `result`
/// for the canonicalized outcome of the two shifts, as the contracts of
/// `clean_up`, `shift_left` and `shift_right` describe them.
pub proof fn lemma_shift_left_right_round_trip<T: Word>(v: Seq<T>, cleaned: Seq<T>, result: Seq<T>)
    requires
        canonical(cleaned),
        seq_val(cleaned) == seq_val(v),
        canonical(result),
        seq_val(result) == (2 * seq_val(v)) / 2,
    ensures
        result == cleaned,
{
    vstd::arithmetic::div_mod::lemma_fundamental_div_mod_converse(
        (2 * seq_val(v)) as int,
        2,
        seq_val(v) as int,
        0,
    );
    crate::words::lemma_seq_val_injective(result, cleaned);
}

/// Shifting left by `n` bits and back right `n` times returns any word
/// sequence to its canonical form: the law behind chaining
/// `shift_left_by_bits` with `n` applications of `shift_right` and a
/// final `clean_up`.
pub proof fn lemma_shift_by_bits_round_trip<T: Word>(
    v: Seq<T>,
    cleaned: Seq<T>,
    n: nat,
    result: Seq<T>,
)
    requires
        canonical(cleaned),
        seq_val(cleaned) == seq_val(v),
        canonical(result),
        seq_val(result) == (seq_val(v) * pow2(n)) / pow2(n),
    ensures
        result == cleaned,
{
    lemma_shift_right_undoes_shift(seq_val(v), n, n);
    lemma2_to64();
    assert(seq_val(v) * pow2(0) == seq_val(v)) by (nonlinear_arith)
        requires
            pow2(0) == 1,
    ;
    crate::words::lemma_seq_val_injective(result, cleaned);
}

/// The field GF(2^n) on a single word: polynomials of degree below the
/// word width, reduced modulo a fixed polynomial of degree exactly the
/// width.  Only the reduction constant is stored: the modulus with its
/// implicit top bit removed.
#[derive(Clone, Copy, PartialEq, Eq, Debug)]
pub struct BinaryField<T: Word> {
    pub mod_substractor: T,
}

/// One step of shift-and-reduce multiplication, on values: consuming the
/// next bit `b` of the right operand multiplies the accumulated product
/// by `x` and adds `b` copies of the left operand.
proof fn lemma_field_mul_step(a: nat, t: nat, cur: nat, m: nat, b: nat)
    requires
        m > 1,
        deg(a) < deg(m),
        cur == crate::gf2::pmod(pmul(a, t), m),
        b < 2,
    ensures
        crate::gf2::pmod(pmul(a, 2 * t + b), m) == crate::gf2::pmod(
            bxor((if b == 1 { a } else { 0nat }), 2 * cur),
            m,
        ),
{
    let e: nat = if b == 1 { a } else { 0 };
    lemma_bxor_bit_even(b, t);
    lemma_bxor_comm(b, 2 * t);
    assert(bxor(2 * t, b) == 2 * t + b);
    crate::gf2::lemma_pmul_distr_right(a, 2 * t, b);
    crate::gf2::lemma_pmul_double_right(a, t);
    if b == 1 {
        crate::gf2::lemma_pmul_one_right(a);
    } else {
        crate::gf2::lemma_pmul_zero(a, 0);
    }
    assert(pmul(a, (2 * t + b) as nat) == bxor(2 * pmul(a, t), e));
    crate::gf2::lemma_pmod_bxor(2 * pmul(a, t), e, m);
    crate::gf2::lemma_pmul_two_left(pmul(a, t));
    crate::gf2::lemma_pmod_pmul_right(2, pmul(a, t), m);
    crate::gf2::lemma_pmul_two_left(cur);
    assert(crate::gf2::pmod((2 * pmul(a, t)) as nat, m) == crate::gf2::pmod((2 * cur) as nat, m));
    crate::gf2::lemma_pmod_bxor(2 * cur, e, m);
    crate::gf2::lemma_deg_bounds(m);
    crate::gf2::lemma_deg_at_least(e);
    assert(deg(0nat) == -1);
    crate::gf2::lemma_pmod_small(e, m);
    lemma_bxor_comm(e, 2 * cur);
    lemma_bxor_comm(
        crate::gf2::pmod((2 * cur) as nat, m),
        e,
    );
}

/// The word-level reduction matching one multiplication step: the value
/// the shifted and conditionally-corrected word holds is the remainder.
proof fn lemma_field_reduce(cur: nat, z0: nat, c: nat, w: nat, e: nat)
    requires
        w >= 8,
        cur < pow2(w),
        c < pow2(w),
        e < pow2(w),
        z0 == (2 * cur) % pow2(w),
    ensures
        cur >= pow2((w - 1) as nat) ==> crate::gf2::pmod(bxor(e, 2 * cur), (pow2(w) + c) as nat)
            == bxor(bxor(z0, e), c),
        cur < pow2((w - 1) as nat) ==> crate::gf2::pmod(bxor(e, 2 * cur), (pow2(w) + c) as nat)
            == bxor(z0, e),
{
    let m = (pow2(w) + c) as nat;
    let x = bxor(e, 2 * cur);
    lemma_pow2_pos(w);
    lemma_pow2_double(w);
    crate::gf2::lemma_deg_in_range(m, w);
    crate::gf2::lemma_deg_lt(e, w);
    lemma_pow2_double((w - 1) as nat);
    if cur >= pow2((w - 1) as nat) {
        crate::gf2::lemma_deg_in_range((2 * cur) as nat, w);
        crate::gf2::lemma_deg_bxor(e, 2 * cur);
        assert(deg(x) == w);
        crate::gf2::lemma_pmod_same_deg(x, m);
        // the truncated shift is the low part of the doubled value
        vstd::arithmetic::div_mod::lemma_fundamental_div_mod((2 * cur) as int, pow2(w) as int);
        assert((2 * cur) / pow2(w) == 1) by (nonlinear_arith)
            requires
                pow2(w) <= 2 * cur,
                2 * cur < 2 * pow2(w),
                pow2(w) > 0,
        ;
        assert(2 * cur == pow2(w) * 1 + z0) by (nonlinear_arith)
            requires
                2 * cur == pow2(w) * ((2 * cur) / pow2(w)) + (2 * cur) % pow2(w),
                z0 == (2 * cur) % pow2(w),
                (2 * cur) / pow2(w) == 1,
        ;
        vstd::arithmetic::div_mod::lemma_mod_bound((2 * cur) as int, pow2(w) as int);
        lemma_bxor_split(w, z0, 1, c, 1);
        crate::gf2::lemma_bxor_self(1);
        assert(pow2(w) * bxor(1, 1) == 0) by (nonlinear_arith)
            requires
                bxor(1, 1) == 0,
        ;
        assert(z0 + pow2(w) * 1 == 2 * cur);
        assert(c + pow2(w) * 1 == m);
        assert(bxor(2 * cur, m) == bxor(z0, c));
        crate::gf2::lemma_bxor_assoc(e, 2 * cur, m);
        assert(bxor(x, m) == bxor(e, bxor(2 * cur, m)));
        lemma_bxor_comm(e, bxor(z0, c));
        crate::gf2::lemma_bxor_assoc(bxor(z0, c), e, 0);
        // regroup (z0 + c) + e as (z0 + e) + c
        lemma_bxor_comm(z0, c);
        crate::gf2::lemma_bxor_assoc(c, z0, e);
        lemma_bxor_comm(c, bxor(z0, e));
        assert(bxor(e, bxor(z0, c)) == bxor(bxor(z0, e), c)) by {
            lemma_bxor_comm(bxor(z0, c), e);
            crate::gf2::lemma_bxor_assoc(z0, c, e);
            lemma_bxor_comm(c, e);
            crate::gf2::lemma_bxor_assoc(z0, e, c);
        }
    } else {
        vstd::arithmetic::div_mod::lemma_small_mod((2 * cur) as nat, pow2(w));
        assert(z0 == 2 * cur);
        crate::gf2::lemma_deg_lt((2 * cur) as nat, w);
        crate::gf2::lemma_deg_bxor_lt(e, 2 * cur, w);
        crate::gf2::lemma_pmod_small(x, m);
        lemma_bxor_comm(e, 2 * cur);
    }
}

impl<T: Word> BinaryField<T> {
    /// The reduction modulus this field divides by: the stored constant
    /// with the implicit bit of degree equal to the width put back.
    pub open spec fn modulus(self) -> nat {
        (pow2(T::width()) + self.mod_substractor.value()) as nat
    }

    /// The modulus has degree exactly the word width.
    pub proof fn lemma_modulus(self)
        ensures
            deg(self.modulus()) == T::width(),
            self.modulus() > 1,
    {
        self.mod_substractor.lemma_value_bound();
        lemma_pow2_double(T::width());
        lemma_pow2_pos(T::width());
        crate::gf2::lemma_deg_in_range(self.modulus(), T::width());
        lemma2_to64();
        vstd::arithmetic::power2::lemma_pow2_strictly_increases(0, T::width());
    }

    /// A field over the given reduction constant.
    pub fn new_with_mod_substractor(mod_substractor: T) -> (r: Self)
        ensures
            r.mod_substractor == mod_substractor,
    {
        BinaryField { mod_substractor }
    }

    /// The degree of the polynomial a single word holds, with the zero
    /// word mapped to 0.
    fn degree(value: &T) -> (r: u32)
        ensures
            value.value() == 0 ==> r == 0,
            value.value() > 0 ==> r as int == deg(value.value()),
            (r as nat) < T::width(),
    {
        word_degree(*value)
    }

    /// Test one coefficient of a single word.
    fn bit_at(&self, value: &T, index: u32) -> (r: bool)
        ensures
            r == (value.value() / pow2(index as nat) % 2 == 1),
    {
        word_bit(*value, index)
    }

    /// Field addition: carry-free addition of the coefficient vectors.
    pub fn add(&self, lhs: &T, rhs: &T) -> (r: T)
        ensures
            r.value() == bxor(lhs.value(), rhs.value()),
    {
        lhs.xor(*rhs)
    }

    /// Field negation: the identity, in characteristic 2.
    pub fn neg(&self, lhs: &T) -> (r: T)
        ensures
            r == *lhs,
    {
        *lhs
    }

    /// The additive identity.
    pub fn zero(&self) -> (r: T)
        ensures
            r.value() == 0,
    {
        T::zero()
    }

    /// The multiplicative identity.
    pub fn one(&self) -> (r: T)
        ensures
            r.value() == 1,
    {
        T::one()
    }

    /// Field multiplication: width-many shift-and-reduce steps, taking
    /// the bits of `rhs` from the most significant down and folding the
    /// overflow back in through the reduction constant.
    pub fn mul(&self, lhs: &T, rhs: &T) -> (r: T)
        ensures
            r.value() == crate::gf2::pmod(pmul(lhs.value(), rhs.value()), self.modulus()),
    {
        let ghost m = self.modulus();
        let ghost la = lhs.value();
        let ghost rb = rhs.value();
        let n = T::bits();
        let mut acc = T::zero();
        proof {
            self.lemma_modulus();
            lhs.lemma_value_bound();
            rhs.lemma_value_bound();
            crate::gf2::lemma_deg_lt(la, T::width());
            lemma_pow2_pos(T::width());
            assert(rb / pow2(T::width()) == 0) by (nonlinear_arith)
                requires
                    rb < pow2(T::width()),
                    pow2(T::width()) > 0,
            ;
            crate::gf2::lemma_pmul_zero(la, 0);
            crate::gf2::lemma_deg_at_least(0);
            assert(deg(0nat) == -1);
            crate::gf2::lemma_deg_bounds(m);
            crate::gf2::lemma_pmod_small(0, m);
        }
        let mut it: u32 = 0;
        while it < n
            invariant
                (it as nat) <= T::width(),
                (n as nat) == T::width(),
                m == self.modulus(),
                la == lhs.value(),
                rb == rhs.value(),
                la < pow2(T::width()),
                rb < pow2(T::width()),
                m > 1,
                deg(m) == T::width(),
                acc.value() == crate::gf2::pmod(
                    pmul(la, rb / pow2((T::width() - it) as nat)),
                    m,
                ),
            decreases n - it,
        {
            let ghost t = rb / pow2((T::width() - it) as nat);
            let ghost cur = acc.value();
            let top = acc.top_bit();
            let mut z = acc.shl1();
            let b = word_bit(*rhs, n - 1 - it);
            if b {
                z = z.xor(*lhs);
            }
            if top {
                z = z.xor(self.mod_substractor);
            }
            proof {
                let w = T::width();
                let k = (w - 1 - it) as nat;
                lemma_pow2_pos(k);
                lemma_pow2_double(k);
                vstd::arithmetic::div_mod::lemma_div_denominator(
                    rb as int,
                    pow2(k) as int,
                    2,
                );
                assert(rb / pow2(k) / 2 == rb / pow2((k + 1) as nat));
                vstd::arithmetic::div_mod::lemma_fundamental_div_mod(
                    (rb / pow2(k)) as int,
                    2,
                );
                let bitv: nat = if b {
                    1
                } else {
                    0
                };
                assert(rb / pow2(k) == 2 * t + bitv);
                crate::gf2::lemma_deg_lt(la, w);
                lemma_field_mul_step(la, t, cur, m, bitv);
                acc.lemma_value_bound();
                self.mod_substractor.lemma_value_bound();
                crate::gf2::lemma_pmod_props(pmul(la, t), m);
                crate::gf2::lemma_deg_lt(cur, w);
                let e: nat = if b {
                    la
                } else {
                    0
                };
                lemma_field_reduce(cur, (2 * cur) % pow2(w), self.mod_substractor.value(), w, e);
                if !b {
                    lemma_bxor_zero(z.value());
                    lemma_bxor_zero((2 * cur) % pow2(w));
                }
                assert(z.value() == crate::gf2::pmod(bxor(e, 2 * cur), m));
            }
            acc = z;
            it = it + 1;
        }
        proof {
            lemma2_to64();
            assert(rb / pow2(0) == rb);
        }
        acc
    }

    /// The quotient accumulated so far cannot outgrow the word: its
    /// degree is bounded through the division invariant.
    proof fn lemma_res_fits(orig: nat, res: nat, vm: nat, s2: nat, i: int, lim: int, w: nat)
        requires
            bxor(pmul(res, s2), vm) == orig,
            deg(s2) == i + 1,
            deg(orig) <= lim,
            deg(vm) <= i,
            i >= 0,
            i <= lim,
            lim - i <= w - 1,
        ensures
            2 * res < pow2(w),
            (2 * res) % pow2(w) == 2 * res,
    {
        crate::gf2::lemma_deg_at_least(res);
        crate::gf2::lemma_deg_at_least(vm);
        crate::gf2::lemma_deg_at_least(orig);
        lemma_pow2_pos(w);
        if res == 0 {
            vstd::arithmetic::div_mod::lemma_small_mod(0nat, pow2(w));
        } else {
            assert(s2 > 0) by {
                assert(deg(0nat) == -1);
            }
            let p = pmul(res, s2);
            crate::gf2::lemma_deg_pmul(res, s2);
            // p == orig xor vm, so its degree is at most lim
            crate::gf2::lemma_bxor_assoc(p, vm, vm);
            crate::gf2::lemma_bxor_self(vm);
            lemma_bxor_zero(p);
            assert(bxor(orig, vm) == p);
            crate::gf2::lemma_deg_bxor_lt(orig, vm, (lim + 1) as nat);
            assert(deg(p) <= lim);
            assert(deg(res) + i + 1 <= lim);
            crate::gf2::lemma_deg_double(res);
            crate::gf2::lemma_deg_lt(2 * res, w);
            vstd::arithmetic::div_mod::lemma_small_mod((2 * res) as nat, pow2(w));
        }
    }

    /// Divide the field's own modulus, a polynomial of degree equal to
    /// the word width that does not itself fit in a word, by a divisor of
    /// degree at least one: `modulus == quotient * divisor + remainder`
    /// (carry-free) with the remainder's degree below the divisor's.
    pub fn divide_modulus_by_divisor(&self, divisor: T) -> (r:
        crate::euclidian_domain::DivisionAlgorithmResult<T>)
        requires
            divisor.value() >= 2,
        ensures
            bxor(pmul(r.quotient.value(), divisor.value()), r.remainder.value())
                == self.modulus(),
            deg(r.remainder.value()) < deg(divisor.value()),
    {
        let ghost mv = self.modulus();
        let ghost d = divisor.value();
        let n = T::bits();
        let d_deg = Self::degree(&divisor);
        proof {
            self.lemma_modulus();
            divisor.lemma_value_bound();
            self.mod_substractor.lemma_value_bound();
            crate::gf2::lemma_deg_bounds(d);
            lemma2_to64();
            // a value of at least two has degree at least one
            if deg(d) == 0 {
                assert(pow2(1) == 2);
                vstd::arithmetic::power2::lemma_pow2_strictly_increases(0, 1);
                assert(d < 2);
                assert(false);
            }
        }
        let dd = d_deg;
        // align the divisor's top bit with the modulus's implicit bit
        let low = word_shl(divisor, n - dd);
        let mut value = self.mod_substractor.xor(low);
        let mut substractor = word_shl(divisor, n - dd - 1);
        let mut result = T::one();
        let ghost cnt = T::width() - dd as nat;
        proof {
            let w = T::width();
            let c = self.mod_substractor.value();
            // the full aligned divisor, too wide for a word
            crate::gf2::lemma_pmul_pow2((w - dd as nat) as nat, d);
            crate::gf2::lemma_pmul_pow2((w - 1 - dd as nat) as nat, d);
            let sfull = pmul(pow2((w - dd as nat) as nat), d);
            crate::gf2::lemma_deg_pow2((w - dd as nat) as nat);
            crate::gf2::lemma_deg_pow2((w - 1 - dd as nat) as nat);
            lemma_pow2_pos((w - dd as nat) as nat);
            lemma_pow2_pos((w - 1 - dd as nat) as nat);
            crate::gf2::lemma_deg_pmul(pow2((w - dd as nat) as nat), d);
            crate::gf2::lemma_deg_pmul(pow2((w - 1 - dd as nat) as nat), d);
            assert(deg(sfull) == w);
            // the word-sized substractor holds the aligned divisor shifted down once
            crate::gf2::lemma_deg_bounds(pmul(pow2((w - 1 - dd as nat) as nat), d));
            crate::gf2::lemma_deg_lt(pmul(pow2((w - 1 - dd as nat) as nat), d), w);
            vstd::arithmetic::div_mod::lemma_small_mod(
                pow2((w - 1 - dd as nat) as nat) * d,
                pow2(w),
            );
            assert(d * pow2((w - 1 - dd as nat) as nat) == pow2((w - 1 - dd as nat) as nat) * d)
                by (nonlinear_arith);
            assert(d * pow2((w - dd as nat) as nat) == pow2((w - dd as nat) as nat) * d)
                by (nonlinear_arith);
            assert(substractor.value() == pmul(pow2((w - 1 - dd as nat) as nat), d));
            // the truncated shift is the low part of the aligned divisor
            crate::gf2::lemma_deg_bounds(sfull);
            lemma_pow2_double(w);
            vstd::arithmetic::div_mod::lemma_fundamental_div_mod(sfull as int, pow2(w) as int);
            vstd::arithmetic::div_mod::lemma_mod_bound(sfull as int, pow2(w) as int);
            assert(sfull / pow2(w) == 1) by (nonlinear_arith)
                requires
                    pow2(w) <= sfull,
                    sfull < pow2(w + 1),
                    pow2(w + 1) == 2 * pow2(w),
                    pow2(w) > 0,
            ;
            lemma_pow2_double(w);
            assert(sfull == pow2(w) * 1 + sfull % pow2(w)) by (nonlinear_arith)
                requires
                    sfull == pow2(w) * (sfull / pow2(w)) + sfull % pow2(w),
                    sfull / pow2(w) == 1,
            ;
            assert(low.value() == sfull % pow2(w));
            // the starting dividend makes the Bezout shape hold
            lemma_bxor_split(w, sfull % pow2(w), 1, low.value(), 0);
            crate::gf2::lemma_bxor_self(1);
            assert(pow2(w) * bxor(1, 1) == 0 && pow2(w) * 0nat == 0) by (nonlinear_arith)
                requires
                    bxor(1, 1) == 0,
            ;
            crate::gf2::lemma_bxor_self(low.value());
            assert(bxor(sfull, low.value()) == pow2(w)) by {
                assert(low.value() + pow2(w) * 0 == low.value());
            }
            // bxor(sfull, value0) == modulus
            lemma_bxor_comm(c, low.value());
            crate::gf2::lemma_bxor_assoc(sfull, low.value(), c);
            lemma_bxor_add_pow2(c, w);
            lemma_bxor_comm(pow2(w), c);
            assert(bxor(sfull, value.value()) == (pow2(w) + c) as nat) by {
                assert(value.value() == bxor(c, low.value()));
                assert(bxor(low.value(), c) == value.value());
            }
            crate::gf2::lemma_pmul_one_left(sfull);
            lemma_bxor_comm(sfull, value.value());
            crate::gf2::lemma_bxor_cancel(sfull, value.value());
            // degree of the dividend word is below the width
            value.lemma_value_bound();
            crate::gf2::lemma_deg_lt(value.value(), w);
            lemma_pow2_double((cnt - 1) as nat);
            crate::gf2::lemma_pmul_double(pmul(pow2((cnt - 1) as nat), d), 1);
        }
        let mut j: u32 = 0;
        while j < n - dd
            invariant
                dd >= 1,
                (dd as nat) < T::width(),
                (n as nat) == T::width(),
                cnt == T::width() - dd as nat,
                (j as nat) <= cnt,
                d == divisor.value(),
                d >= 2,
                deg(d) == dd,
                mv == self.modulus(),
                deg(mv) == T::width(),
                (j as nat) < cnt ==> substractor.value() == pmul(
                    pow2((cnt - 1 - j as nat) as nat),
                    d,
                ),
                bxor(
                    pmul(result.value(), pmul(pow2((cnt - j as nat) as nat), d)),
                    value.value(),
                ) == mv,
                deg(value.value()) <= T::width() - 1 - j,
            decreases n - dd - j,
        {
            let i = n - 1 - j;
            let ghost resold = result.value();
            let ghost vmv = value.value();
            let ghost s = substractor.value();
            proof {
                let w = T::width();
                lemma_pow2_double((cnt - 1 - j as nat) as nat);
                crate::gf2::lemma_pmul_pow2((cnt - 1 - j as nat) as nat, d);
                crate::gf2::lemma_pmul_pow2((cnt - j as nat) as nat, d);
                assert(2 * (pow2((cnt - 1 - j as nat) as nat) * d) == pow2(
                    (cnt - j as nat) as nat,
                ) * d) by (nonlinear_arith)
                    requires
                        pow2((cnt - j as nat) as nat) == 2 * pow2((cnt - 1 - j as nat) as nat),
                ;
                assert(2 * s == pmul(pow2((cnt - j as nat) as nat), d));
                crate::gf2::lemma_deg_pow2((cnt - j as nat) as nat);
                lemma_pow2_pos((cnt - j as nat) as nat);
                crate::gf2::lemma_deg_pmul(pow2((cnt - j as nat) as nat), d);
                Self::lemma_res_fits(mv, resold, vmv, 2 * s, i as int, w as int, w);
                lemma_div_step(mv, resold, vmv, s, d, i as int, dd as int);
            }
            result = result.shl1();
            let set = self.bit_at(&value, i);
            if set {
                value = value.xor(substractor);
                result = result.xor(T::one());
            }
            substractor = substractor.shr1();
            j = j + 1;
            proof {
                if (j as nat) < cnt {
                    crate::gf2::lemma_pmul_pow2((cnt - 1 - j as nat) as nat, d);
                    crate::gf2::lemma_pmul_pow2((cnt - j as nat) as nat, d);
                    lemma_pow2_double((cnt - 1 - j as nat) as nat);
                    assert((pow2((cnt - j as nat) as nat) * d) / 2 == pow2(
                        (cnt - 1 - j as nat) as nat,
                    ) * d) by (nonlinear_arith)
                        requires
                            pow2((cnt - j as nat) as nat) == 2 * pow2(
                                (cnt - 1 - j as nat) as nat,
                            ),
                    ;
                }
            }
        }
        proof {
            lemma2_to64();
            crate::gf2::lemma_pmul_pow2(0, d);
            assert(1 * d == d) by (nonlinear_arith);
        }
        crate::euclidian_domain::DivisionAlgorithmResult { quotient: result, remainder: value }
    }

    /// Euclidean division of one word-sized polynomial by a non-zero
    /// other: `value == quotient * divisor + remainder` (carry-free) with
    /// the remainder's degree below the divisor's.
    pub fn division_algorithm(&self, value: &T, divisor: &T) -> (r:
        crate::euclidian_domain::DivisionAlgorithmResult<T>)
        requires
            divisor.value() != 0,
        ensures
            bxor(pmul(r.quotient.value(), divisor.value()), r.remainder.value())
                == value.value(),
            deg(r.remainder.value()) < deg(divisor.value()),
    {
        let ghost vv = value.value();
        let ghost d = divisor.value();
        let v_deg = Self::degree(value);
        let d_deg = Self::degree(divisor);
        proof {
            crate::gf2::lemma_deg_bounds(d);
            crate::gf2::lemma_deg_at_least(vv);
        }
        if v_deg < d_deg {
            proof {
                crate::gf2::lemma_pmul_zero(0, d);
                lemma_bxor_zero(vv);
                assert(deg(0nat) == -1);
            }
            return crate::euclidian_domain::DivisionAlgorithmResult {
                quotient: T::zero(),
                remainder: *value,
            };
        }
        // both degrees are now meaningful: deg(d) == d_deg <= v_deg
        let mut value_m = *value;
        let mut substractor = word_shl(*divisor, v_deg - d_deg);
        let mut result = T::zero();
        let ghost cnt = (v_deg - d_deg + 1) as nat;
        proof {
            let w = T::width();
            value.lemma_value_bound();
            divisor.lemma_value_bound();
            crate::gf2::lemma_pmul_pow2((v_deg - d_deg) as nat, d);
            crate::gf2::lemma_deg_pow2((v_deg - d_deg) as nat);
            lemma_pow2_pos((v_deg - d_deg) as nat);
            crate::gf2::lemma_deg_pmul(pow2((v_deg - d_deg) as nat), d);
            crate::gf2::lemma_deg_bounds(pmul(pow2((v_deg - d_deg) as nat), d));
            crate::gf2::lemma_deg_lt(vv, w);
            crate::gf2::lemma_deg_lt(pmul(pow2((v_deg - d_deg) as nat), d), w);
            vstd::arithmetic::div_mod::lemma_small_mod(pow2((v_deg - d_deg) as nat) * d, pow2(w));
            assert(d * pow2((v_deg - d_deg) as nat) == pow2((v_deg - d_deg) as nat) * d)
                by (nonlinear_arith);
            assert(substractor.value() == pmul(pow2((v_deg - d_deg) as nat), d));
            crate::gf2::lemma_pmul_zero(0, pmul(pow2(cnt), d));
            lemma_bxor_zero(vv);
            lemma_pow2_double((cnt - 1) as nat);
            crate::gf2::lemma_pmul_pow2(cnt, d);
            crate::gf2::lemma_pmul_pow2((cnt - 1) as nat, d);
        }
        let mut j: u32 = 0;
        while j < v_deg - d_deg + 1
            invariant
                d_deg <= v_deg,
                (v_deg as nat) < T::width(),
                (v_deg as nat) < 128,
                cnt == (v_deg - d_deg + 1) as nat,
                (j as nat) <= cnt,
                d == divisor.value(),
                d != 0,
                vv == value.value(),
                deg(d) == d_deg,
                deg(vv) <= v_deg,
                (j as nat) < cnt ==> substractor.value() == pmul(
                    pow2((cnt - 1 - j as nat) as nat),
                    d,
                ),
                bxor(
                    pmul(result.value(), pmul(pow2((cnt - j as nat) as nat), d)),
                    value_m.value(),
                ) == vv,
                deg(value_m.value()) <= v_deg - j,
            decreases v_deg - d_deg + 1 - j,
        {
            let i = v_deg - j;
            let ghost resold = result.value();
            let ghost vmv = value_m.value();
            let ghost s = substractor.value();
            proof {
                let w = T::width();
                lemma_pow2_double((cnt - 1 - j as nat) as nat);
                crate::gf2::lemma_pmul_pow2((cnt - 1 - j as nat) as nat, d);
                crate::gf2::lemma_pmul_pow2((cnt - j as nat) as nat, d);
                assert(2 * (pow2((cnt - 1 - j as nat) as nat) * d) == pow2(
                    (cnt - j as nat) as nat,
                ) * d) by (nonlinear_arith)
                    requires
                        pow2((cnt - j as nat) as nat) == 2 * pow2((cnt - 1 - j as nat) as nat),
                ;
                assert(2 * s == pmul(pow2((cnt - j as nat) as nat), d));
                crate::gf2::lemma_deg_pow2((cnt - j as nat) as nat);
                lemma_pow2_pos((cnt - j as nat) as nat);
                crate::gf2::lemma_deg_pmul(pow2((cnt - j as nat) as nat), d);
                crate::gf2::lemma_deg_at_least(vv);
                Self::lemma_res_fits(vv, resold, vmv, 2 * s, i as int, (w - 1) as int, w);
                lemma_div_step(vv, resold, vmv, s, d, i as int, d_deg as int);
            }
            result = result.shl1();
            let set = self.bit_at(&value_m, i);
            if set {
                value_m = value_m.xor(substractor);
                result = result.xor(T::one());
            }
            substractor = substractor.shr1();
            j = j + 1;
            proof {
                if (j as nat) < cnt {
                    crate::gf2::lemma_pmul_pow2((cnt - 1 - j as nat) as nat, d);
                    crate::gf2::lemma_pmul_pow2((cnt - j as nat) as nat, d);
                    lemma_pow2_double((cnt - 1 - j as nat) as nat);
                    assert((pow2((cnt - j as nat) as nat) * d) / 2 == pow2(
                        (cnt - 1 - j as nat) as nat,
                    ) * d) by (nonlinear_arith)
                        requires
                            pow2((cnt - j as nat) as nat) == 2 * pow2(
                                (cnt - 1 - j as nat) as nat,
                            ),
                    ;
                }
            }
        }
        proof {
            lemma2_to64();
            crate::gf2::lemma_pmul_pow2(0, d);
            assert(1 * d == d) by (nonlinear_arith);
        }
        crate::euclidian_domain::DivisionAlgorithmResult { quotient: result, remainder: value_m }
    }

    /// The square-and-multiply step: squaring doubles the exponent, the
    /// extra factor adds one.
    proof fn lemma_pow_step(a: nat, e: nat, sq: nat, m: nat, b: nat)
        requires
            m > 1,
            deg(a) < deg(m),
            sq == crate::gf2::pmod(
                pmul(crate::gf2::gfpow(a, e, m), crate::gf2::gfpow(a, e, m)),
                m,
            ),
            b < 2,
        ensures
            b == 1 ==> crate::gf2::gfpow(a, 2 * e + 1, m) == crate::gf2::pmod(pmul(sq, a), m),
            b == 0 ==> crate::gf2::gfpow(a, 2 * e, m) == sq,
    {
        crate::gf2::lemma_gfpow_add(a, e, e, m);
        assert(crate::gf2::gfpow(a, 2 * e, m) == sq);
        assert(crate::gf2::gfpow(a, (2 * e + 1) as nat, m) == crate::gf2::pmod(
            pmul(a, crate::gf2::gfpow(a, 2 * e, m)),
            m,
        ));
        crate::gf2::lemma_pmul_comm(a, sq);
    }

    /// Square-and-multiply exponentiation in the field, consuming the
    /// exponent's bits from the most significant down.
    pub fn exponentiate(&self, value: &T, exponent: &T) -> (r: T)
        ensures
            r.value() == crate::gf2::gfpow(value.value(), exponent.value(), self.modulus()),
    {
        let ghost m = self.modulus();
        let ghost a = value.value();
        let ghost ev = exponent.value();
        let n = T::bits();
        let mut exp = T::one();
        proof {
            self.lemma_modulus();
            value.lemma_value_bound();
            exponent.lemma_value_bound();
            crate::gf2::lemma_deg_lt(a, T::width());
            lemma_pow2_pos(T::width());
            assert(ev / pow2(T::width()) == 0) by (nonlinear_arith)
                requires
                    ev < pow2(T::width()),
                    pow2(T::width()) > 0,
            ;
            crate::gf2::lemma_deg_bounds(m);
            assert(deg(0nat) == -1);
            assert(deg(1nat) == 1 + deg(0nat));
            crate::gf2::lemma_pmod_small(1, m);
        }
        let mut it: u32 = 0;
        while it < n
            invariant
                (it as nat) <= T::width(),
                (n as nat) == T::width(),
                m == self.modulus(),
                a == value.value(),
                ev == exponent.value(),
                a < pow2(T::width()),
                ev < pow2(T::width()),
                m > 1,
                deg(m) == T::width(),
                exp.value() == crate::gf2::gfpow(a, ev / pow2((T::width() - it) as nat), m),
            decreases n - it,
        {
            let ghost t = ev / pow2((T::width() - it) as nat);
            let bit = word_bit(*exponent, n - 1 - it);
            let sq = self.mul(&exp, &exp);
            let factor = if bit {
                *value
            } else {
                T::one()
            };
            let next = self.mul(&sq, &factor);
            proof {
                let w = T::width();
                let k = (w - 1 - it) as nat;
                lemma_pow2_pos(k);
                lemma_pow2_double(k);
                vstd::arithmetic::div_mod::lemma_div_denominator(ev as int, pow2(k) as int, 2);
                vstd::arithmetic::div_mod::lemma_fundamental_div_mod((ev / pow2(k)) as int, 2);
                let bitv: nat = if bit {
                    1
                } else {
                    0
                };
                assert(ev / pow2(k) == 2 * t + bitv);
                crate::gf2::lemma_deg_lt(a, w);
                Self::lemma_pow_step(a, t, sq.value(), m, bitv);
                if !bit {
                    // multiplying by one leaves the reduced square in place
                    crate::gf2::lemma_pmul_one_right(sq.value());
                    crate::gf2::lemma_pmod_props(
                        pmul(crate::gf2::gfpow(a, t, m), crate::gf2::gfpow(a, t, m)),
                        m,
                    );
                    crate::gf2::lemma_pmod_idem(
                        pmul(crate::gf2::gfpow(a, t, m), crate::gf2::gfpow(a, t, m)),
                        m,
                    );
                }
            }
            exp = next;
            it = it + 1;
        }
        proof {
            lemma2_to64();
            assert(ev / pow2(0) == ev);
        }
        exp
    }

    /// The multiplicative inverse by Fermat exponentiation: for non-zero
    /// input, `value` raised to `2^width - 2`, by width-minus-one
    /// square-and-multiply steps and one final squaring.
    pub fn inv(&self, value: &T) -> (r: Result<T, crate::error::Error>)
        ensures
            match r {
                Ok(x) => value.value() != 0 && x.value() == crate::gf2::gfpow(
                    value.value(),
                    (pow2(T::width()) - 2) as nat,
                    self.modulus(),
                ),
                Err(e) => value.value() == 0 && e == crate::error::Error::DivisionByZero,
            },
    {
        if value.is_zero() {
            return Err(crate::error::Error::DivisionByZero);
        }
        let ghost m = self.modulus();
        let ghost a = value.value();
        let n = T::bits();
        let mut exp = T::one();
        proof {
            self.lemma_modulus();
            value.lemma_value_bound();
            crate::gf2::lemma_deg_lt(a, T::width());
            crate::gf2::lemma_deg_bounds(m);
            lemma2_to64();
            assert(deg(0nat) == -1);
            assert(deg(1nat) == 1 + deg(0nat));
            crate::gf2::lemma_pmod_small(1, m);
            assert(pow2(0) == 1);
        }
        let mut it: u32 = 0;
        while it < n - 1
            invariant
                (it as nat) <= T::width() - 1,
                (n as nat) == T::width(),
                m == self.modulus(),
                a == value.value(),
                a < pow2(T::width()),
                m > 1,
                deg(m) == T::width(),
                exp.value() == crate::gf2::gfpow(a, (pow2(it as nat) - 1) as nat, m),
            decreases n - 1 - it,
        {
            let ghost e = (pow2(it as nat) - 1) as nat;
            let sq = self.mul(&exp, &exp);
            let next = self.mul(&sq, value);
            proof {
                crate::gf2::lemma_deg_lt(a, T::width());
                Self::lemma_pow_step(a, e, sq.value(), m, 1);
                lemma_pow2_double(it as nat);
                lemma_pow2_pos(it as nat);
                assert(2 * e + 1 == pow2((it + 1) as nat) - 1);
            }
            exp = next;
            it = it + 1;
        }
        let last = self.mul(&exp, &exp);
        proof {
            let e = (pow2((T::width() - 1) as nat) - 1) as nat;
            crate::gf2::lemma_deg_lt(a, T::width());
            Self::lemma_pow_step(a, e, last.value(), m, 0);
            lemma_pow2_double((T::width() - 1) as nat);
            assert(2 * e == pow2(T::width()) - 2);
        }
        Ok(last)
    }

    /// One coefficient update of the extended Euclidean loop: the new
    /// combination reproduces the remainder modulo the modulus.
    proof fn lemma_euclid_x_step(
        m: nat,
        av: nat,
        px: nat,
        cx: nat,
        q: nat,
        dividend: nat,
        divisor: nat,
        rem: nat,
    )
        requires
            m > 1,
            deg(m) >= 1,
            crate::gf2::pmod(pmul(px, av), m) == dividend,
            crate::gf2::pmod(pmul(cx, av), m) == divisor,
            bxor(pmul(q, divisor), rem) == dividend,
            deg(dividend) < deg(m),
            deg(rem) < deg(m),
            deg(divisor) < deg(m),
        ensures
            crate::gf2::pmod(
                pmul(bxor(px, crate::gf2::pmod(pmul(cx, q), m)), av),
                m,
            ) == rem,
    {
        let cq = crate::gf2::pmod(pmul(cx, q), m);
        crate::gf2::lemma_pmul_distr_left(px, cq, av);
        crate::gf2::lemma_pmod_bxor(pmul(px, av), pmul(cq, av), m);
        // the second summand reduces to q times the divisor
        crate::gf2::lemma_pmod_pmul_left(pmul(cx, q), av, m);
        crate::gf2::lemma_pmul_assoc(cx, q, av);
        crate::gf2::lemma_pmul_comm(q, av);
        crate::gf2::lemma_pmul_assoc(cx, av, q);
        assert(pmul(pmul(cx, q), av) == pmul(pmul(cx, av), q));
        crate::gf2::lemma_pmod_pmul_left(pmul(cx, av), q, m);
        // pmod(pmul(q, divisor)) == bxor(dividend, rem)
        lemma_bxor_comm(pmul(q, divisor), rem);
        crate::gf2::lemma_bxor_cancel(rem, pmul(q, divisor));
        assert(bxor(rem, dividend) == pmul(q, divisor));
        crate::gf2::lemma_deg_bxor_lt(rem, dividend, deg(m) as nat);
        crate::gf2::lemma_pmod_small(bxor(rem, dividend), m);
        crate::gf2::lemma_pmul_comm(divisor, q);
        assert(crate::gf2::pmod(pmul(cq, av), m) == bxor(rem, dividend)) by {
            assert(crate::gf2::pmod(pmul(pmul(cx, av), q), m) == crate::gf2::pmod(
                pmul(divisor, q),
                m,
            ));
        }
        // assemble: dividend + (rem + dividend) == rem
        crate::gf2::lemma_pmod_small(dividend, m);
        lemma_bxor_comm(rem, dividend);
        crate::gf2::lemma_bxor_cancel(dividend, rem);
        crate::gf2::lemma_pmod_small(rem, m);
        crate::gf2::lemma_pmod_bxor(dividend, bxor(dividend, rem), m);
        lemma_bxor_comm(bxor(rem, dividend), dividend);
        assert(crate::gf2::pmod(bxor(dividend, bxor(rem, dividend)), m) == rem) by {
            assert(bxor(dividend, bxor(rem, dividend)) == bxor(dividend, bxor(dividend, rem)));
        }
    }

    /// The multiplicative inverse by the extended Euclidean algorithm:
    /// drives Bezout coefficients over the pair (modulus, value), so the
    /// result times the input is congruent to their greatest common
    /// divisor — the inverse whenever the modulus is irreducible.
    fn extended_euclid_inv(&self, a: &T) -> (r: T)
        requires
            a.value() != 0,
        ensures
            crate::gf2::pmod(pmul(r.value(), a.value()), self.modulus()) == crate::gf2::pgcd(
                self.modulus(),
                a.value(),
            ),
    {
        let ghost m = self.modulus();
        let ghost av = a.value();
        proof {
            self.lemma_modulus();
            a.lemma_value_bound();
            crate::gf2::lemma_deg_lt(av, T::width());
            crate::gf2::lemma_deg_bounds(m);
            assert(deg(0nat) == -1);
            assert(deg(1nat) == 1 + deg(0nat));
        }
        let one_w = T::one();
        if a.xor(one_w).is_zero() {
            proof {
                crate::gf2::lemma_bxor_eq_zero(av, 1);
                crate::gf2::lemma_pmod_by_one(m);
                assert(crate::gf2::pgcd(m, 1) == crate::gf2::pgcd(1, 0));
                crate::gf2::lemma_pmul_one_left(1);
                crate::gf2::lemma_pmod_small(1, m);
            }
            return T::one();
        }
        proof {
            crate::gf2::lemma_bxor_bound(av, 1, T::width());
            if av < 2 {
                crate::gf2::lemma_bxor_zero(1);
                assert(bxor(1nat, 1nat) == 2 * bxor(0, 0) + (1 + 1) % 2);
                assert(false);
            }
        }
        // first division: the implicit modulus by the value
        let div0 = self.divide_modulus_by_divisor(*a);
        let mut cur_dividend = *a;
        let mut cur_divisor = div0.remainder;
        let mut prev = (T::one(), T::zero());
        let neg_q0 = self.neg(&div0.quotient);
        let mut cur = (
            self.add(&T::zero(), &self.mul(&prev.0, &neg_q0)),
            self.add(&one_w, &self.mul(&prev.1, &neg_q0)),
        );
        proof {
            let q0 = div0.quotient.value();
            let r0 = cur_divisor.value();
            div0.quotient.lemma_value_bound();
            div0.remainder.lemma_value_bound();
            crate::gf2::lemma_deg_lt(q0, T::width());
            crate::gf2::lemma_deg_lt(r0, T::width());
            // the established combination for the dividend row
            crate::gf2::lemma_pmul_one_left(av);
            crate::gf2::lemma_pmod_small(av, m);
            // the divisor row: its coefficient is the first quotient
            crate::gf2::lemma_pmul_one_left(q0);
            crate::gf2::lemma_pmod_small(q0, m);
            lemma_bxor_zero(crate::gf2::pmod(pmul(1, q0), m));
            // q0 * a == m + r0, so the combination reduces to r0
            lemma_bxor_comm(pmul(q0, av), r0);
            crate::gf2::lemma_bxor_cancel(r0, pmul(q0, av));
            assert(bxor(r0, m) == pmul(q0, av));
            crate::gf2::lemma_pmod_bxor(r0, m, m);
            crate::gf2::lemma_pmod_self(m);
            crate::gf2::lemma_pmod_small(r0, m);
            lemma_bxor_zero(r0);
            crate::gf2::lemma_pmod_pmul_left(q0, av, m);
            assert(crate::gf2::pmod(pmul(q0, av), m) == r0);
            // and the gcd is preserved by the first step
            crate::gf2::lemma_pdiv_unique(m, av, q0, r0);
            assert(crate::gf2::pgcd(m, av) == crate::gf2::pgcd(av, r0));
        }
        if cur_divisor.is_zero() {
            proof {
                assert(crate::gf2::pgcd(av, 0) == av);
                crate::gf2::lemma_pmul_one_left(av);
                crate::gf2::lemma_pmod_small(av, m);
            }
            return T::one();
        }
        loop
            invariant
                m == self.modulus(),
                av == a.value(),
                av >= 2,
                m > 1,
                deg(m) == T::width(),
                T::width() >= 8,
                cur_dividend.value() < pow2(T::width()),
                cur_divisor.value() < pow2(T::width()),
                cur_divisor.value() != 0,
                crate::gf2::pmod(pmul(prev.0.value(), av), m) == cur_dividend.value(),
                crate::gf2::pmod(pmul(cur.0.value(), av), m) == cur_divisor.value(),
                crate::gf2::pgcd(cur_dividend.value(), cur_divisor.value())
                    == crate::gf2::pgcd(m, av),
            decreases cur_divisor.value(),
        {
            let div_result = self.division_algorithm(&cur_dividend, &cur_divisor);
            proof {
                div_result.remainder.lemma_value_bound();
                div_result.quotient.lemma_value_bound();
                crate::gf2::lemma_deg_at_least(cur_divisor.value());
                assert(deg(0nat) == -1);
                crate::gf2::lemma_pdiv_unique(
                    cur_dividend.value(),
                    cur_divisor.value(),
                    div_result.quotient.value(),
                    div_result.remainder.value(),
                );
                assert(crate::gf2::pgcd(cur_dividend.value(), cur_divisor.value())
                    == crate::gf2::pgcd(cur_divisor.value(), div_result.remainder.value()));
            }
            if div_result.remainder.is_zero() {
                return cur.0;
            }
            proof {
                // the remainder is numerically below the divisor
                crate::gf2::lemma_deg_bounds(cur_divisor.value());
                crate::gf2::lemma_deg_lt(
                    div_result.remainder.value(),
                    deg(cur_divisor.value()) as nat,
                );
                // and the coefficient update keeps the Bezout rows
                crate::gf2::lemma_deg_lt(cur_dividend.value(), T::width());
                crate::gf2::lemma_deg_lt(cur_divisor.value(), T::width());
                crate::gf2::lemma_deg_lt(div_result.remainder.value(), T::width());
                Self::lemma_euclid_x_step(
                    m,
                    av,
                    prev.0.value(),
                    cur.0.value(),
                    div_result.quotient.value(),
                    cur_dividend.value(),
                    cur_divisor.value(),
                    div_result.remainder.value(),
                );
            }
            let neg_q = self.neg(&div_result.quotient);
            let new_0 = self.add(&prev.0, &self.mul(&cur.0, &neg_q));
            let new_1 = self.add(&prev.1, &self.mul(&cur.1, &neg_q));
            cur_dividend = cur_divisor;
            cur_divisor = div_result.remainder;
            prev = cur;
            cur = (new_0, new_1);
        }
    }

    /// The multiplicative inverse by the extended Euclidean algorithm;
    /// fails exactly on zero.
    pub fn gcd_inv(&self, value: &T) -> (r: Result<T, crate::error::Error>)
        ensures
            match r {
                Ok(x) => value.value() != 0 && crate::gf2::pmod(
                    pmul(x.value(), value.value()),
                    self.modulus(),
                ) == crate::gf2::pgcd(self.modulus(), value.value()),
                Err(e) => value.value() == 0 && e == crate::error::Error::InversionOfZero,
            },
    {
        if value.is_zero() {
            return Err(crate::error::Error::InversionOfZero);
        }
        Ok(self.extended_euclid_inv(value))
    }
}

/// A canonical vector's word count is pinned down by its value's degree.
proof fn lemma_canonical_len_bound<T: Word>(s: Seq<T>)
    requires
        canonical(s),
        deg(seq_val(s)) < 0x4000_0000,
    ensures
        s.len() * T::width() <= 0x7fff_ffff,
{
    if s.len() == 0 {
        assert(s.len() * T::width() == 0) by (nonlinear_arith)
            requires
                s.len() == 0,
        ;
    } else {
        lemma_seq_val_deg(s);
        crate::gf2::lemma_deg_at_least(s.last().value());
        T::lemma_width();
        assert(s.len() * T::width() == (s.len() - 1) * T::width() + T::width())
            by (nonlinear_arith);
        assert((s.len() - 1) * T::width() == T::width() * (s.len() - 1)) by (nonlinear_arith);
    }
}

impl<T: Word> crate::Ring for BinaryRing<T> {
    type RingMember = Vec<T>;

    type Value = nat;

    open spec fn wf(&self) -> bool {
        true
    }

    open spec fn member_ok(&self, x: Vec<T>) -> bool {
        canonical(x@)
    }

    open spec fn value_of(&self, x: Vec<T>) -> nat {
        seq_val(x@)
    }

    open spec fn add_v(&self, a: nat, b: nat) -> nat {
        bxor(a, b)
    }

    open spec fn mul_v(&self, a: nat, b: nat) -> nat {
        pmul(a, b)
    }

    open spec fn neg_v(&self, a: nat) -> nat {
        a
    }

    open spec fn zero_v(&self) -> nat {
        0
    }

    open spec fn one_v(&self) -> nat {
        1
    }

    fn add(&self, lhs: &Vec<T>, rhs: &Vec<T>) -> Vec<T> {
        BinaryRing::add(self, lhs, rhs)
    }

    fn mul(&self, lhs: &Vec<T>, rhs: &Vec<T>) -> Vec<T> {
        BinaryRing::mul(self, lhs, rhs)
    }

    fn neg(&self, lhs: &Vec<T>) -> Vec<T> {
        BinaryRing::neg(self, lhs)
    }

    fn zero(&self) -> Vec<T> {
        BinaryRing::zero(self)
    }

    fn one(&self) -> Vec<T> {
        BinaryRing::one(self)
    }

    fn clone_member(&self, x: &Vec<T>) -> Vec<T> {
        Self::clone_vec(x)
    }

    fn is_zero_member(&self, x: &Vec<T>) -> (b: bool)
        ensures
            b == (seq_val(x@) == 0),
    {
        proof {
            if x@.len() > 0 {
                crate::words::lemma_canonical_pos(x@);
                lemma_pow2_pos(T::width() * (x@.len() - 1) as nat);
            }
        }
        x.len() == 0
    }
}

impl<T: Word> crate::euclidian_domain::EuclidianDomain for BinaryRing<T> {
    open spec fn div_ok(&self, a: nat, b: nat) -> bool {
        deg(a) < 0x4000_0000 && deg(b) < 0x4000_0000
    }

    open spec fn esize(&self, a: nat) -> nat {
        (deg(a) + 1) as nat
    }

    fn division_algorithm(&self, value: &Vec<T>, divisor: &Vec<T>) -> (r: Result<
        crate::euclidian_domain::DivisionAlgorithmResult<Vec<T>>,
        crate::error::Error,
    >) {
        proof {
            lemma_canonical_len_bound(value@);
            lemma_canonical_len_bound(divisor@);
        }
        let out = BinaryRing::division_algorithm(self, value, divisor);
        proof {
            crate::gf2::lemma_deg_at_least(seq_val(divisor@));
            if out is Ok {
                let rv = seq_val(out->Ok_0.remainder@);
                let dv = seq_val(divisor@);
                crate::gf2::lemma_deg_at_least(rv);
                assert(deg(rv) < deg(dv));
                assert(((deg(rv) + 1) as nat) < ((deg(dv) + 1) as nat));
                assert(self.esize(rv) < self.esize(dv));
            }
        }
        out
    }

    proof fn law_add_comm(&self, a: nat, b: nat) {
        lemma_bxor_comm(a, b);
    }

    proof fn law_add_assoc(&self, a: nat, b: nat, c: nat) {
        crate::gf2::lemma_bxor_assoc(a, b, c);
    }

    proof fn law_add_zero(&self, a: nat) {
        lemma_bxor_zero(a);
    }

    proof fn law_add_neg(&self, a: nat) {
        crate::gf2::lemma_bxor_self(a);
    }

    proof fn law_mul_comm(&self, a: nat, b: nat) {
        crate::gf2::lemma_pmul_comm(a, b);
    }

    proof fn law_mul_assoc(&self, a: nat, b: nat, c: nat) {
        crate::gf2::lemma_pmul_assoc(a, b, c);
    }

    proof fn law_mul_distr(&self, a: nat, b: nat, c: nat) {
        crate::gf2::lemma_pmul_distr_right(a, b, c);
    }

    proof fn law_mul_one(&self, a: nat) {
        crate::gf2::lemma_pmul_one_left(a);
    }

    proof fn law_mul_zero(&self, a: nat) {
        crate::gf2::lemma_pmul_zero(a, 0);
    }
}

impl<T: Word> crate::Ring for BinaryField<T> {
    type RingMember = T;

    type Value = nat;

    open spec fn wf(&self) -> bool {
        true
    }

    open spec fn member_ok(&self, x: T) -> bool {
        true
    }

    open spec fn value_of(&self, x: T) -> nat {
        x.value()
    }

    open spec fn add_v(&self, a: nat, b: nat) -> nat {
        bxor(a, b)
    }

    open spec fn mul_v(&self, a: nat, b: nat) -> nat {
        crate::gf2::pmod(pmul(a, b), self.modulus())
    }

    open spec fn neg_v(&self, a: nat) -> nat {
        a
    }

    open spec fn zero_v(&self) -> nat {
        0
    }

    open spec fn one_v(&self) -> nat {
        1
    }

    fn add(&self, lhs: &T, rhs: &T) -> T {
        BinaryField::add(self, lhs, rhs)
    }

    fn mul(&self, lhs: &T, rhs: &T) -> T {
        BinaryField::mul(self, lhs, rhs)
    }

    fn neg(&self, lhs: &T) -> T {
        BinaryField::neg(self, lhs)
    }

    fn zero(&self) -> T {
        T::zero()
    }

    fn one(&self) -> T {
        T::one()
    }

    fn clone_member(&self, x: &T) -> T {
        *x
    }

    fn is_zero_member(&self, x: &T) -> bool {
        x.is_zero()
    }
}

impl<T: Word> crate::Field for BinaryField<T> {
    open spec fn inv_v(&self, a: nat) -> nat {
        crate::gf2::gfpow(a, (pow2(T::width()) - 2) as nat, self.modulus())
    }

    fn inv(&self, value: &T) -> Result<T, crate::error::Error> {
        BinaryField::inv(self, value)
    }
}

/// Construction of a binary field with its built-in modulus for the
/// width: the historically chosen irreducible polynomials.
pub trait Newable: Sized {
    /// The field this width's built-in constructor yields.
    spec fn spec_new() -> Self;

    /// Build the field with the built-in modulus.
    fn new() -> (r: Self)
        ensures
            r == Self::spec_new(),
    ;
}

impl Newable for BinaryField<u8> {
    open spec fn spec_new() -> Self {
        BinaryField { mod_substractor: 0b11011u8 }
    }

    fn new() -> Self {
        BinaryField::new_with_mod_substractor(0b11011)
    }
}

impl Newable for BinaryField<u16> {
    open spec fn spec_new() -> Self {
        BinaryField { mod_substractor: 0b101011u16 }
    }

    fn new() -> Self {
        BinaryField::new_with_mod_substractor(0b101011)
    }
}

impl Newable for BinaryField<u32> {
    open spec fn spec_new() -> Self {
        BinaryField { mod_substractor: 0b10001101u32 }
    }

    fn new() -> Self {
        BinaryField::new_with_mod_substractor(0b10001101)
    }
}

impl Newable for BinaryField<u64> {
    open spec fn spec_new() -> Self {
        BinaryField { mod_substractor: 0b11011u64 }
    }

    fn new() -> Self {
        BinaryField::new_with_mod_substractor(0b11011)
    }
}

impl Newable for BinaryField<u128> {
    open spec fn spec_new() -> Self {
        BinaryField { mod_substractor: 0b10000111u128 }
    }

    fn new() -> Self {
        BinaryField::new_with_mod_substractor(0b10000111)
    }
}

impl Default for BinaryField<u8> {
    fn default() -> (r: Self)
        ensures
            r == Self::spec_new(),
    {
        Self::new()
    }
}

impl Default for BinaryField<u16> {
    fn default() -> (r: Self)
        ensures
            r == Self::spec_new(),
    {
        Self::new()
    }
}

impl Default for BinaryField<u32> {
    fn default() -> (r: Self)
        ensures
            r == Self::spec_new(),
    {
        Self::new()
    }
}

impl Default for BinaryField<u64> {
    fn default() -> (r: Self)
        ensures
            r == Self::spec_new(),
    {
        Self::new()
    }
}

impl Default for BinaryField<u128> {
    fn default() -> (r: Self)
        ensures
            r == Self::spec_new(),
    {
        Self::new()
    }
}

} // verus!
