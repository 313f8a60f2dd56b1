//! Integer rings: fixed-width signed integers with wrapping arithmetic.
//!
//! A member denotes its mathematical integer; the ring operations act
//! modulo `2^width`, with the result cropped back into the signed range.

use vstd::prelude::*;
use vstd::wrapping::i32_specs;
use vstd::wrapping::i64_specs;
use crate::Ring;

verus! {

/// The ring of 32-bit integers under wrapping arithmetic.
#[derive(Clone, PartialEq, Debug)]
pub struct I32Ring;

/// The ring of 64-bit integers under wrapping arithmetic.
#[derive(Clone, PartialEq, Debug)]
pub struct I64Ring;

/// Cropping the exact sum of two cropped integers is wrapping addition.
proof fn lemma_i32_crop_add(x: i32, y: i32)
    ensures
        i32_specs::wrapping_add(x, y) == i32_specs::signed_crop(x + y),
{
    let s = x + y;
    let m = 0x1_0000_0000int;
    if s > i32::MAX {
        vstd::arithmetic::div_mod::lemma_fundamental_div_mod_converse(s, m, 0, s);
    } else if s < i32::MIN {
        vstd::arithmetic::div_mod::lemma_fundamental_div_mod_converse(s, m, -1, s + m);
    } else if s >= 0 {
        vstd::arithmetic::div_mod::lemma_fundamental_div_mod_converse(s, m, 0, s);
    } else {
        vstd::arithmetic::div_mod::lemma_fundamental_div_mod_converse(s, m, -1, s + m);
    }
}

/// Cropping the exact difference `0 - y` is wrapping subtraction from 0.
proof fn lemma_i32_crop_neg(y: i32)
    ensures
        i32_specs::wrapping_sub(0, y) == i32_specs::signed_crop(-(y as int)),
{
    let s = 0 - y;
    let m = 0x1_0000_0000int;
    if s > i32::MAX {
        vstd::arithmetic::div_mod::lemma_fundamental_div_mod_converse(s, m, 0, s);
    } else if s >= 0 {
        vstd::arithmetic::div_mod::lemma_fundamental_div_mod_converse(s, m, 0, s);
    } else {
        vstd::arithmetic::div_mod::lemma_fundamental_div_mod_converse(s, m, -1, s + m);
    }
}

impl Ring for I32Ring {
    type RingMember = i32;

    type Value = int;

    open spec fn wf(&self) -> bool {
        true
    }

    open spec fn member_ok(&self, x: i32) -> bool {
        true
    }

    open spec fn value_of(&self, x: i32) -> int {
        x as int
    }

    open spec fn add_v(&self, a: int, b: int) -> int {
        i32_specs::signed_crop(a + b) as int
    }

    open spec fn mul_v(&self, a: int, b: int) -> int {
        i32_specs::signed_crop(a * b) as int
    }

    open spec fn neg_v(&self, a: int) -> int {
        i32_specs::signed_crop(-a) as int
    }

    open spec fn zero_v(&self) -> int {
        0
    }

    open spec fn one_v(&self) -> int {
        1
    }

    fn add(&self, lhs: &i32, rhs: &i32) -> (r: i32)
        ensures
            self.member_ok(r),
            self.value_of(r) == self.add_v(self.value_of(*lhs), self.value_of(*rhs)),
    {
        proof {
            lemma_i32_crop_add(*lhs, *rhs);
        }
        lhs.wrapping_add(*rhs)
    }

    fn mul(&self, lhs: &i32, rhs: &i32) -> (r: i32)
        ensures
            self.member_ok(r),
            self.value_of(r) == self.mul_v(self.value_of(*lhs), self.value_of(*rhs)),
    {
        lhs.wrapping_mul(*rhs)
    }

    fn neg(&self, lhs: &i32) -> (r: i32)
        ensures
            self.member_ok(r),
            self.value_of(r) == self.neg_v(self.value_of(*lhs)),
    {
        proof {
            lemma_i32_crop_neg(*lhs);
        }
        (0i32).wrapping_sub(*lhs)
    }

    fn zero(&self) -> i32 {
        0
    }

    fn one(&self) -> i32 {
        1
    }

    fn clone_member(&self, x: &i32) -> i32 {
        *x
    }

    fn is_zero_member(&self, x: &i32) -> bool {
        *x == 0
    }
}

/// Cropping the exact sum of two cropped integers is wrapping addition.
proof fn lemma_i64_crop_add(x: i64, y: i64)
    ensures
        i64_specs::wrapping_add(x, y) == i64_specs::signed_crop(x + y),
{
    let s = x + y;
    let m = 0x1_0000_0000_0000_0000int;
    if s > i64::MAX {
        vstd::arithmetic::div_mod::lemma_fundamental_div_mod_converse(s, m, 0, s);
    } else if s < i64::MIN {
        vstd::arithmetic::div_mod::lemma_fundamental_div_mod_converse(s, m, -1, s + m);
    } else if s >= 0 {
        vstd::arithmetic::div_mod::lemma_fundamental_div_mod_converse(s, m, 0, s);
    } else {
        vstd::arithmetic::div_mod::lemma_fundamental_div_mod_converse(s, m, -1, s + m);
    }
}

/// Cropping the exact difference `0 - y` is wrapping subtraction from 0.
proof fn lemma_i64_crop_neg(y: i64)
    ensures
        i64_specs::wrapping_sub(0, y) == i64_specs::signed_crop(-(y as int)),
{
    let s = 0 - y;
    let m = 0x1_0000_0000_0000_0000int;
    if s > i64::MAX {
        vstd::arithmetic::div_mod::lemma_fundamental_div_mod_converse(s, m, 0, s);
    } else if s >= 0 {
        vstd::arithmetic::div_mod::lemma_fundamental_div_mod_converse(s, m, 0, s);
    } else {
        vstd::arithmetic::div_mod::lemma_fundamental_div_mod_converse(s, m, -1, s + m);
    }
}

impl Ring for I64Ring {
    type RingMember = i64;

    type Value = int;

    open spec fn wf(&self) -> bool {
        true
    }

    open spec fn member_ok(&self, x: i64) -> bool {
        true
    }

    open spec fn value_of(&self, x: i64) -> int {
        x as int
    }

    open spec fn add_v(&self, a: int, b: int) -> int {
        i64_specs::signed_crop(a + b) as int
    }

    open spec fn mul_v(&self, a: int, b: int) -> int {
        i64_specs::signed_crop(a * b) as int
    }

    open spec fn neg_v(&self, a: int) -> int {
        i64_specs::signed_crop(-a) as int
    }

    open spec fn zero_v(&self) -> int {
        0
    }

    open spec fn one_v(&self) -> int {
        1
    }

    fn add(&self, lhs: &i64, rhs: &i64) -> (r: i64)
        ensures
            self.member_ok(r),
            self.value_of(r) == self.add_v(self.value_of(*lhs), self.value_of(*rhs)),
    {
        proof {
            lemma_i64_crop_add(*lhs, *rhs);
        }
        lhs.wrapping_add(*rhs)
    }

    fn mul(&self, lhs: &i64, rhs: &i64) -> (r: i64)
        ensures
            self.member_ok(r),
            self.value_of(r) == self.mul_v(self.value_of(*lhs), self.value_of(*rhs)),
    {
        lhs.wrapping_mul(*rhs)
    }

    fn neg(&self, lhs: &i64) -> (r: i64)
        ensures
            self.member_ok(r),
            self.value_of(r) == self.neg_v(self.value_of(*lhs)),
    {
        proof {
            lemma_i64_crop_neg(*lhs);
        }
        (0i64).wrapping_sub(*lhs)
    }

    fn zero(&self) -> i64 {
        0
    }

    fn one(&self) -> i64 {
        1
    }

    fn clone_member(&self, x: &i64) -> i64 {
        *x
    }

    fn is_zero_member(&self, x: &i64) -> bool {
        *x == 0
    }
}

} // verus!
