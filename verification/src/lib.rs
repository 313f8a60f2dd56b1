//! A small abstract-algebra library: generic ring and field interfaces, a
//! dense matrix over any such ring, and a carry-free binary arithmetic
//! engine for GF(2)[x] and GF(2^n).
//!
//! Every ring describes its members twice: executably, as the
//! `RingMember` type its operations act on, and mathematically, as the
//! `Value` a member denotes.  The operation contracts connect the two, so
//! that code generic over a ring can reason about what the operations
//! compute without seeing any representation.

pub mod binary;
pub mod error;
pub mod euclidian_domain;
pub mod field;
pub mod gf2;
pub mod int_ring;
pub mod words;

use vstd::prelude::*;

verus! {

/// An abstract ring.  `RingMember` is the representation its operations
/// act on; `Value` is the mathematical object a member denotes, given by
/// `value_of`.  `wf` is the well-formedness of the ring descriptor
/// itself (for example, a modulus being non-trivial), `member_ok` the
/// representation invariant of a member.
pub trait Ring: Sized {
    type RingMember: Clone + PartialEq + core::fmt::Debug;

    type Value;

    /// Whether this ring descriptor is well formed.
    spec fn wf(&self) -> bool;

    /// The representation invariant of a ring member.
    spec fn member_ok(&self, x: Self::RingMember) -> bool;

    /// The mathematical value a member denotes.
    spec fn value_of(&self, x: Self::RingMember) -> Self::Value;

    /// The ring's addition, on values.
    spec fn add_v(&self, a: Self::Value, b: Self::Value) -> Self::Value;

    /// The ring's multiplication, on values.
    spec fn mul_v(&self, a: Self::Value, b: Self::Value) -> Self::Value;

    /// The ring's additive inverse, on values.
    spec fn neg_v(&self, a: Self::Value) -> Self::Value;

    /// The additive identity, as a value.
    spec fn zero_v(&self) -> Self::Value;

    /// The multiplicative identity, as a value.
    spec fn one_v(&self) -> Self::Value;

    /// Add two members.
    fn add(&self, lhs: &Self::RingMember, rhs: &Self::RingMember) -> (r: Self::RingMember)
        requires
            self.wf(),
            self.member_ok(*lhs),
            self.member_ok(*rhs),
        ensures
            self.member_ok(r),
            self.value_of(r) == self.add_v(self.value_of(*lhs), self.value_of(*rhs)),
    ;

    /// Multiply two members.
    fn mul(&self, lhs: &Self::RingMember, rhs: &Self::RingMember) -> (r: Self::RingMember)
        requires
            self.wf(),
            self.member_ok(*lhs),
            self.member_ok(*rhs),
        ensures
            self.member_ok(r),
            self.value_of(r) == self.mul_v(self.value_of(*lhs), self.value_of(*rhs)),
    ;

    /// The additive inverse of a member.
    fn neg(&self, lhs: &Self::RingMember) -> (r: Self::RingMember)
        requires
            self.wf(),
            self.member_ok(*lhs),
        ensures
            self.member_ok(r),
            self.value_of(r) == self.neg_v(self.value_of(*lhs)),
    ;

    /// The additive identity.
    fn zero(&self) -> (r: Self::RingMember)
        requires
            self.wf(),
        ensures
            self.member_ok(r),
            self.value_of(r) == self.zero_v(),
    ;

    /// The multiplicative identity.
    fn one(&self) -> (r: Self::RingMember)
        requires
            self.wf(),
        ensures
            self.member_ok(r),
            self.value_of(r) == self.one_v(),
    ;

    /// A copy of a member, denoting the same value.
    fn clone_member(&self, x: &Self::RingMember) -> (r: Self::RingMember)
        requires
            self.wf(),
            self.member_ok(*x),
        ensures
            self.member_ok(r),
            self.value_of(r) == self.value_of(*x),
    ;

    /// Whether a member denotes the additive identity.
    fn is_zero_member(&self, x: &Self::RingMember) -> (b: bool)
        requires
            self.wf(),
            self.member_ok(*x),
        ensures
            b == (self.value_of(*x) == self.zero_v()),
    ;
}

/// A ring in which every non-zero member has a multiplicative inverse.
/// Inverting the additive identity is the one failure.
pub trait Field: Ring {
    /// The multiplicative inverse, on values, of a non-zero value.
    spec fn inv_v(&self, a: Self::Value) -> Self::Value;

    /// The multiplicative inverse of a member; fails exactly on zero.
    fn inv(&self, value: &Self::RingMember) -> (r: Result<
        Self::RingMember,
        crate::error::Error,
    >)
        requires
            self.wf(),
            self.member_ok(*value),
        ensures
            match r {
                Ok(i) => self.value_of(*value) != self.zero_v() && self.member_ok(i)
                    && self.value_of(i) == self.inv_v(self.value_of(*value)),
                Err(e) => self.value_of(*value) == self.zero_v() && e
                    == crate::error::Error::DivisionByZero,
            },
    ;
}

/// Well-formedness of a grid of ring members: `rows` rows of `columns`
/// members each, all satisfying the ring's member invariant.
pub open spec fn grid_ok<F: Ring>(
    ring: F,
    data: Seq<Vec<F::RingMember>>,
    rows: int,
    columns: int,
) -> bool {
    &&& data.len() == rows
    &&& forall|i: int| 0 <= i < rows ==> (#[trigger] data[i])@.len() == columns
    &&& forall|i: int, j: int|
        0 <= i < rows && 0 <= j < columns ==> ring.member_ok(#[trigger] data[i]@[j])
}

/// The value at one grid position.
pub open spec fn grid_at<F: Ring>(ring: F, data: Seq<Vec<F::RingMember>>, i: int, j: int)
    -> F::Value {
    ring.value_of(data[i]@[j])
}

/// The dot product of row `i` of `a` with column `j` of `b`, over the
/// first `k` positions, accumulated left to right from zero.
pub open spec fn dot_prefix<F: Ring>(
    ring: F,
    a: Seq<Vec<F::RingMember>>,
    b: Seq<Vec<F::RingMember>>,
    i: int,
    j: int,
    k: int,
) -> F::Value
    decreases k,
{
    if k <= 0 {
        ring.zero_v()
    } else {
        ring.add_v(
            dot_prefix(ring, a, b, i, j, k - 1),
            ring.mul_v(ring.value_of(a[i]@[k - 1]), ring.value_of(b[k - 1]@[j])),
        )
    }
}

/// A dense matrix over an arbitrary ring, stored row-major.  The ring
/// descriptor travels with the matrix so that the operations know which
/// arithmetic to apply.
#[derive(PartialEq, Debug)]
pub struct Matrix<'a, F: Ring> {
    pub ring: &'a F,
    pub rows: usize,
    pub columns: usize,
    pub data: Vec<Vec<F::RingMember>>,
}

impl<'a, F: Ring> Matrix<'a, F> {
    /// Well-formedness: a non-degenerate shape and every entry
    /// satisfying the ring's member invariant.
    pub open spec fn wf(self) -> bool {
        &&& self.ring.wf()
        &&& self.rows > 0
        &&& self.columns > 0
        &&& grid_ok(*self.ring, self.data@, self.rows as int, self.columns as int)
    }

    /// The value at position `(i, j)`.
    pub open spec fn entry(self, i: int, j: int) -> F::Value {
        grid_at(*self.ring, self.data@, i, j)
    }

    /// The number of rows.
    pub fn rows(&self) -> (r: usize)
        ensures
            r == self.rows,
    {
        self.rows
    }

    /// The number of columns.
    pub fn columns(&self) -> (r: usize)
        ensures
            r == self.columns,
    {
        self.columns
    }

    /// The entry at `(row, col)`, as a fresh member.
    pub fn value_at(&self, row: usize, col: usize) -> (r: F::RingMember)
        requires
            self.wf(),
            row < self.rows,
            col < self.columns,
        ensures
            self.ring.member_ok(r),
            self.ring.value_of(r) == self.entry(row as int, col as int),
    {
        self.ring.clone_member(&self.data[row][col])
    }

    /// A copy of a row, denoting the same values.
    fn clone_row(ring: &F, row: &Vec<F::RingMember>) -> (r: Vec<F::RingMember>)
        requires
            ring.wf(),
            forall|j: int| 0 <= j < row@.len() ==> ring.member_ok(#[trigger] row@[j]),
        ensures
            r@.len() == row@.len(),
            forall|j: int| 0 <= j < row@.len() ==> ring.member_ok(#[trigger] r@[j]),
            forall|j: int|
                0 <= j < row@.len() ==> ring.value_of(#[trigger] r@[j]) == ring.value_of(row@[j]),
    {
        let mut result: Vec<F::RingMember> = Vec::new();
        let mut j: usize = 0;
        while j < row.len()
            invariant
                ring.wf(),
                j <= row@.len(),
                forall|b: int| 0 <= b < row@.len() ==> ring.member_ok(#[trigger] row@[b]),
                r_inv(ring, row@, result@, j as int),
            decreases row@.len() - j,
        {
            result.push(ring.clone_member(&row[j]));
            j = j + 1;
        }
        result
    }

    /// Build a matrix from a non-empty, rectangular grid of members.
    pub fn new(ring: &'a F, v: Vec<Vec<F::RingMember>>) -> (r: Self)
        requires
            ring.wf(),
            v@.len() > 0,
            v@[0]@.len() > 0,
            grid_ok(*ring, v@, v@.len() as int, v@[0]@.len() as int),
        ensures
            r.wf(),
            r.ring == ring,
            r.rows == v@.len(),
            r.columns == v@[0]@.len(),
            forall|i: int, j: int|
                0 <= i < v@.len() && 0 <= j < v@[0]@.len() ==> r.entry(i, j) == grid_at(
                    *ring,
                    v@,
                    i,
                    j,
                ),
    {
        let rows = v.len();
        let columns = v[0].len();
        Matrix { ring, rows, columns, data: v }
    }

    /// The identity matrix of the given size.
    pub fn one(ring: &'a F, rows: usize) -> (r: Self)
        requires
            ring.wf(),
            rows > 0,
        ensures
            r.wf(),
            r.ring == ring,
            r.rows == rows,
            r.columns == rows,
            forall|i: int, j: int|
                0 <= i < rows && 0 <= j < rows ==> r.entry(i, j) == (if i == j {
                    ring.one_v()
                } else {
                    ring.zero_v()
                }),
    {
        let mut data: Vec<Vec<F::RingMember>> = Vec::new();
        let mut i: usize = 0;
        while i < rows
            invariant
                ring.wf(),
                i <= rows,
                data@.len() == i,
                forall|a: int| 0 <= a < i ==> (#[trigger] data@[a])@.len() == rows,
                forall|a: int, b: int|
                    0 <= a < i && 0 <= b < rows ==> ring.member_ok(#[trigger] data@[a]@[b]),
                forall|a: int, b: int|
                    0 <= a < i && 0 <= b < rows ==> ring.value_of(#[trigger] data@[a]@[b]) == (
                    if a == b {
                        ring.one_v()
                    } else {
                        ring.zero_v()
                    }),
            decreases rows - i,
        {
            let mut row: Vec<F::RingMember> = Vec::new();
            let mut j: usize = 0;
            while j < rows
                invariant
                    ring.wf(),
                    j <= rows,
                    row@.len() == j,
                    forall|b: int| 0 <= b < j ==> ring.member_ok(#[trigger] row@[b]),
                    forall|b: int|
                        0 <= b < j ==> ring.value_of(#[trigger] row@[b]) == (if i == b {
                            ring.one_v()
                        } else {
                            ring.zero_v()
                        }),
                decreases rows - j,
            {
                if i == j {
                    row.push(ring.one());
                } else {
                    row.push(ring.zero());
                }
                j = j + 1;
            }
            data.push(row);
            i = i + 1;
        }
        Matrix { ring, rows, columns: rows, data }
    }

    /// The zero matrix of the given size.
    pub fn zero(ring: &'a F, rows: usize) -> (r: Self)
        requires
            ring.wf(),
            rows > 0,
        ensures
            r.wf(),
            r.ring == ring,
            r.rows == rows,
            r.columns == rows,
            forall|i: int, j: int|
                0 <= i < rows && 0 <= j < rows ==> r.entry(i, j) == ring.zero_v(),
    {
        let mut data: Vec<Vec<F::RingMember>> = Vec::new();
        let mut i: usize = 0;
        while i < rows
            invariant
                ring.wf(),
                i <= rows,
                data@.len() == i,
                forall|a: int| 0 <= a < i ==> (#[trigger] data@[a])@.len() == rows,
                forall|a: int, b: int|
                    0 <= a < i && 0 <= b < rows ==> ring.member_ok(#[trigger] data@[a]@[b]),
                forall|a: int, b: int|
                    0 <= a < i && 0 <= b < rows ==> ring.value_of(#[trigger] data@[a]@[b])
                        == ring.zero_v(),
            decreases rows - i,
        {
            let mut row: Vec<F::RingMember> = Vec::new();
            let mut j: usize = 0;
            while j < rows
                invariant
                    ring.wf(),
                    j <= rows,
                    row@.len() == j,
                    forall|b: int| 0 <= b < j ==> ring.member_ok(#[trigger] row@[b]),
                    forall|b: int|
                        0 <= b < j ==> ring.value_of(#[trigger] row@[b]) == ring.zero_v(),
                decreases rows - j,
            {
                row.push(ring.zero());
                j = j + 1;
            }
            data.push(row);
            i = i + 1;
        }
        Matrix { ring, rows, columns: rows, data }
    }

    /// Multiply every entry by a scalar, on the right.
    pub fn scale(&self, scalar: F::RingMember) -> (r: Matrix<'a, F>)
        requires
            self.wf(),
            self.ring.member_ok(scalar),
        ensures
            r.wf(),
            r.ring == self.ring,
            r.rows == self.rows,
            r.columns == self.columns,
            forall|i: int, j: int|
                0 <= i < self.rows && 0 <= j < self.columns ==> r.entry(i, j)
                    == self.ring.mul_v(self.entry(i, j), self.ring.value_of(scalar)),
    {
        let mut data: Vec<Vec<F::RingMember>> = Vec::new();
        let mut i: usize = 0;
        while i < self.rows
            invariant
                self.wf(),
                self.ring.member_ok(scalar),
                i <= self.rows,
                data@.len() == i,
                forall|a: int| 0 <= a < i ==> (#[trigger] data@[a])@.len() == self.columns,
                forall|a: int, b: int|
                    0 <= a < i && 0 <= b < self.columns ==> self.ring.member_ok(
                        #[trigger] data@[a]@[b],
                    ),
                forall|a: int, b: int|
                    0 <= a < i && 0 <= b < self.columns ==> self.ring.value_of(
                        #[trigger] data@[a]@[b],
                    ) == self.ring.mul_v(self.entry(a, b), self.ring.value_of(scalar)),
            decreases self.rows - i,
        {
            let mut row: Vec<F::RingMember> = Vec::new();
            let mut j: usize = 0;
            while j < self.columns
                invariant
                    self.wf(),
                    self.ring.member_ok(scalar),
                    i < self.rows,
                    j <= self.columns,
                    row@.len() == j,
                    forall|b: int| 0 <= b < j ==> self.ring.member_ok(#[trigger] row@[b]),
                    forall|b: int|
                        0 <= b < j ==> self.ring.value_of(#[trigger] row@[b])
                            == self.ring.mul_v(
                            self.entry(i as int, b),
                            self.ring.value_of(scalar),
                        ),
                decreases self.columns - j,
            {
                row.push(self.ring.mul(&self.data[i][j], &scalar));
                j = j + 1;
            }
            data.push(row);
            i = i + 1;
        }
        Matrix { ring: self.ring, rows: self.rows, columns: self.columns, data }
    }

    /// Entry-wise sum; fails when the shapes differ.
    pub fn add(&self, rhs: &Matrix<'a, F>) -> (r: Result<Matrix<'a, F>, String>)
        requires
            self.wf(),
            rhs.wf(),
            self.ring == rhs.ring,
        ensures
            (self.rows != rhs.rows || self.columns != rhs.columns) <==> (r is Err),
            match r {
                Ok(m) => m.wf() && m.ring == self.ring && m.rows == self.rows && m.columns
                    == self.columns && forall|
                    i: int,
                    j: int,
                |
                    0 <= i < self.rows && 0 <= j < self.columns ==> m.entry(i, j)
                        == self.ring.add_v(self.entry(i, j), rhs.entry(i, j)),
                Err(_) => true,
            },
    {
        if self.rows != rhs.rows || self.columns != rhs.columns {
            return Err("Illegal matrix operation".to_owned());
        }
        let mut data: Vec<Vec<F::RingMember>> = Vec::new();
        let mut i: usize = 0;
        while i < self.rows
            invariant
                self.wf(),
                rhs.wf(),
                self.ring == rhs.ring,
                self.rows == rhs.rows,
                self.columns == rhs.columns,
                i <= self.rows,
                data@.len() == i,
                forall|a: int| 0 <= a < i ==> (#[trigger] data@[a])@.len() == self.columns,
                forall|a: int, b: int|
                    0 <= a < i && 0 <= b < self.columns ==> self.ring.member_ok(
                        #[trigger] data@[a]@[b],
                    ),
                forall|a: int, b: int|
                    0 <= a < i && 0 <= b < self.columns ==> self.ring.value_of(
                        #[trigger] data@[a]@[b],
                    ) == self.ring.add_v(self.entry(a, b), rhs.entry(a, b)),
            decreases self.rows - i,
        {
            let mut row: Vec<F::RingMember> = Vec::new();
            let mut j: usize = 0;
            while j < self.columns
                invariant
                    self.wf(),
                    rhs.wf(),
                    self.ring == rhs.ring,
                    self.rows == rhs.rows,
                    self.columns == rhs.columns,
                    i < self.rows,
                    j <= self.columns,
                    row@.len() == j,
                    forall|b: int| 0 <= b < j ==> self.ring.member_ok(#[trigger] row@[b]),
                    forall|b: int|
                        0 <= b < j ==> self.ring.value_of(#[trigger] row@[b])
                            == self.ring.add_v(self.entry(i as int, b), rhs.entry(i as int, b)),
                decreases self.columns - j,
            {
                row.push(self.ring.add(&self.data[i][j], &rhs.data[i][j]));
                j = j + 1;
            }
            data.push(row);
            i = i + 1;
        }
        Ok(Matrix { ring: self.ring, rows: self.rows, columns: self.columns, data })
    }

    /// Entry-wise difference; fails when the shapes differ.
    pub fn sub(&self, rhs: &Matrix<'a, F>) -> (r: Result<Matrix<'a, F>, String>)
        requires
            self.wf(),
            rhs.wf(),
            self.ring == rhs.ring,
        ensures
            (self.rows != rhs.rows || self.columns != rhs.columns) <==> (r is Err),
            match r {
                Ok(m) => m.wf() && m.ring == self.ring && m.rows == self.rows && m.columns
                    == self.columns && forall|
                    i: int,
                    j: int,
                |
                    0 <= i < self.rows && 0 <= j < self.columns ==> m.entry(i, j)
                        == self.ring.add_v(self.entry(i, j), self.ring.neg_v(rhs.entry(i, j))),
                Err(_) => true,
            },
    {
        if self.rows != rhs.rows || self.columns != rhs.columns {
            return Err("Illegal matrix operation".to_owned());
        }
        let mut data: Vec<Vec<F::RingMember>> = Vec::new();
        let mut i: usize = 0;
        while i < self.rows
            invariant
                self.wf(),
                rhs.wf(),
                self.ring == rhs.ring,
                self.rows == rhs.rows,
                self.columns == rhs.columns,
                i <= self.rows,
                data@.len() == i,
                forall|a: int| 0 <= a < i ==> (#[trigger] data@[a])@.len() == self.columns,
                forall|a: int, b: int|
                    0 <= a < i && 0 <= b < self.columns ==> self.ring.member_ok(
                        #[trigger] data@[a]@[b],
                    ),
                forall|a: int, b: int|
                    0 <= a < i && 0 <= b < self.columns ==> self.ring.value_of(
                        #[trigger] data@[a]@[b],
                    ) == self.ring.add_v(self.entry(a, b), self.ring.neg_v(rhs.entry(a, b))),
            decreases self.rows - i,
        {
            let mut row: Vec<F::RingMember> = Vec::new();
            let mut j: usize = 0;
            while j < self.columns
                invariant
                    self.wf(),
                    rhs.wf(),
                    self.ring == rhs.ring,
                    self.rows == rhs.rows,
                    self.columns == rhs.columns,
                    i < self.rows,
                    j <= self.columns,
                    row@.len() == j,
                    forall|b: int| 0 <= b < j ==> self.ring.member_ok(#[trigger] row@[b]),
                    forall|b: int|
                        0 <= b < j ==> self.ring.value_of(#[trigger] row@[b])
                            == self.ring.add_v(
                            self.entry(i as int, b),
                            self.ring.neg_v(rhs.entry(i as int, b)),
                        ),
                decreases self.columns - j,
            {
                let n = self.ring.neg(&rhs.data[i][j]);
                row.push(self.ring.add(&self.data[i][j], &n));
                j = j + 1;
            }
            data.push(row);
            i = i + 1;
        }
        Ok(Matrix { ring: self.ring, rows: self.rows, columns: self.columns, data })
    }

    /// Matrix product; fails when the inner dimensions differ.  Each
    /// entry of the result is the row-by-column dot product, accumulated
    /// left to right.
    pub fn mul(&self, rhs: &Matrix<'a, F>) -> (r: Result<Matrix<'a, F>, String>)
        requires
            self.wf(),
            rhs.wf(),
            self.ring == rhs.ring,
        ensures
            (self.columns != rhs.rows) <==> (r is Err),
            match r {
                Ok(m) => m.wf() && m.ring == self.ring && m.rows == self.rows && m.columns
                    == rhs.columns && forall|
                    i: int,
                    j: int,
                |
                    0 <= i < self.rows && 0 <= j < rhs.columns ==> m.entry(i, j) == dot_prefix(
                        *self.ring,
                        self.data@,
                        rhs.data@,
                        i,
                        j,
                        self.columns as int,
                    ),
                Err(_) => true,
            },
    {
        if self.columns != rhs.rows {
            return Err("Illegal matrix operation".to_owned());
        }
        let mut data: Vec<Vec<F::RingMember>> = Vec::new();
        let mut i: usize = 0;
        while i < self.rows
            invariant
                self.wf(),
                rhs.wf(),
                self.ring == rhs.ring,
                self.columns == rhs.rows,
                i <= self.rows,
                data@.len() == i,
                forall|a: int| 0 <= a < i ==> (#[trigger] data@[a])@.len() == rhs.columns,
                forall|a: int, b: int|
                    0 <= a < i && 0 <= b < rhs.columns ==> self.ring.member_ok(
                        #[trigger] data@[a]@[b],
                    ),
                forall|a: int, b: int|
                    0 <= a < i && 0 <= b < rhs.columns ==> self.ring.value_of(
                        #[trigger] data@[a]@[b],
                    ) == dot_prefix(*self.ring, self.data@, rhs.data@, a, b, self.columns as int),
            decreases self.rows - i,
        {
            let mut row: Vec<F::RingMember> = Vec::new();
            let mut j: usize = 0;
            while j < rhs.columns
                invariant
                    self.wf(),
                    rhs.wf(),
                    self.ring == rhs.ring,
                    self.columns == rhs.rows,
                    i < self.rows,
                    j <= rhs.columns,
                    row@.len() == j,
                    forall|b: int| 0 <= b < j ==> self.ring.member_ok(#[trigger] row@[b]),
                    forall|b: int|
                        0 <= b < j ==> self.ring.value_of(#[trigger] row@[b]) == dot_prefix(
                            *self.ring,
                            self.data@,
                            rhs.data@,
                            i as int,
                            b,
                            self.columns as int,
                        ),
                decreases rhs.columns - j,
            {
                let mut acc = self.ring.zero();
                let mut k: usize = 0;
                while k < self.columns
                    invariant
                        self.wf(),
                        rhs.wf(),
                        self.ring == rhs.ring,
                        self.columns == rhs.rows,
                        i < self.rows,
                        j < rhs.columns,
                        k <= self.columns,
                        self.ring.member_ok(acc),
                        self.ring.value_of(acc) == dot_prefix(
                            *self.ring,
                            self.data@,
                            rhs.data@,
                            i as int,
                            j as int,
                            k as int,
                        ),
                    decreases self.columns - k,
                {
                    let prod = self.ring.mul(&self.data[i][k], &rhs.data[k][j]);
                    acc = self.ring.add(&acc, &prod);
                    k = k + 1;
                }
                row.push(acc);
                j = j + 1;
            }
            data.push(row);
            i = i + 1;
        }
        Ok(Matrix { ring: self.ring, rows: self.rows, columns: rhs.columns, data })
    }

    /// The transpose.
    pub fn transpose(&self) -> (r: Matrix<'a, F>)
        requires
            self.wf(),
        ensures
            r.wf(),
            r.ring == self.ring,
            r.rows == self.columns,
            r.columns == self.rows,
            forall|i: int, j: int|
                0 <= i < self.columns && 0 <= j < self.rows ==> r.entry(i, j) == self.entry(j, i),
    {
        let rows = self.columns;
        let columns = self.rows;
        let mut data: Vec<Vec<F::RingMember>> = Vec::new();
        let mut i: usize = 0;
        while i < rows
            invariant
                self.wf(),
                rows == self.columns,
                columns == self.rows,
                i <= rows,
                data@.len() == i,
                forall|a: int| 0 <= a < i ==> (#[trigger] data@[a])@.len() == columns,
                forall|a: int, b: int|
                    0 <= a < i && 0 <= b < columns ==> self.ring.member_ok(
                        #[trigger] data@[a]@[b],
                    ),
                forall|a: int, b: int|
                    0 <= a < i && 0 <= b < columns ==> self.ring.value_of(
                        #[trigger] data@[a]@[b],
                    ) == self.entry(b, a),
            decreases rows - i,
        {
            let mut row: Vec<F::RingMember> = Vec::new();
            let mut j: usize = 0;
            while j < columns
                invariant
                    self.wf(),
                    rows == self.columns,
                    columns == self.rows,
                    i < rows,
                    j <= columns,
                    row@.len() == j,
                    forall|b: int| 0 <= b < j ==> self.ring.member_ok(#[trigger] row@[b]),
                    forall|b: int|
                        0 <= b < j ==> self.ring.value_of(#[trigger] row@[b]) == self.entry(
                            b,
                            i as int,
                        ),
                decreases columns - j,
            {
                row.push(self.ring.clone_member(&self.data[j][i]));
                j = j + 1;
            }
            data.push(row);
            i = i + 1;
        }
        Matrix { ring: self.ring, rows, columns, data }
    }
}

impl<'a, F: Field> Matrix<'a, F> {
    /// Exchange two rows of both working grids.
    fn swap_rows(
        &self,
        data1: &mut Vec<Vec<F::RingMember>>,
        data2: &mut Vec<Vec<F::RingMember>>,
        r1: usize,
        r2: usize,
    )
        requires
            self.wf(),
            grid_ok(*self.ring, old(data1)@, self.rows as int, self.columns as int),
            grid_ok(*self.ring, old(data2)@, self.rows as int, self.columns as int),
            r1 < self.rows,
            r2 < self.rows,
        ensures
            grid_ok(*self.ring, final(data1)@, self.rows as int, self.columns as int),
            grid_ok(*self.ring, final(data2)@, self.rows as int, self.columns as int),
    {
        if r1 == r2 {
            return ;
        }
        let row1 = Self::clone_row(self.ring, &data1[r1]);
        let row2 = Self::clone_row(self.ring, &data1[r2]);
        data1.set(r1, row2);
        data1.set(r2, row1);
        let row1 = Self::clone_row(self.ring, &data2[r1]);
        let row2 = Self::clone_row(self.ring, &data2[r2]);
        data2.set(r1, row2);
        data2.set(r2, row1);
    }

    /// Add `mul` times row `r2` into row `r1`, in both working grids.
    fn add_multiple_of(
        &self,
        data1: &mut Vec<Vec<F::RingMember>>,
        data2: &mut Vec<Vec<F::RingMember>>,
        r1: usize,
        r2: usize,
        mul: F::RingMember,
    )
        requires
            self.wf(),
            grid_ok(*self.ring, old(data1)@, self.rows as int, self.columns as int),
            grid_ok(*self.ring, old(data2)@, self.rows as int, self.columns as int),
            r1 < self.rows,
            r2 < self.rows,
            self.ring.member_ok(mul),
        ensures
            grid_ok(*self.ring, final(data1)@, self.rows as int, self.columns as int),
            grid_ok(*self.ring, final(data2)@, self.rows as int, self.columns as int),
    {
        let mut row: Vec<F::RingMember> = Vec::new();
        let mut i: usize = 0;
        while i < self.columns
            invariant
                self.wf(),
                grid_ok(*self.ring, data1@, self.rows as int, self.columns as int),
                r1 < self.rows,
                r2 < self.rows,
                self.ring.member_ok(mul),
                i <= self.columns,
                row@.len() == i,
                forall|b: int| 0 <= b < i ==> self.ring.member_ok(#[trigger] row@[b]),
            decreases self.columns - i,
        {
            let p = self.ring.mul(&mul, &data1[r2][i]);
            row.push(self.ring.add(&data1[r1][i], &p));
            i = i + 1;
        }
        data1.set(r1, row);
        let mut row: Vec<F::RingMember> = Vec::new();
        let mut i: usize = 0;
        while i < self.columns
            invariant
                self.wf(),
                grid_ok(*self.ring, data2@, self.rows as int, self.columns as int),
                r1 < self.rows,
                r2 < self.rows,
                self.ring.member_ok(mul),
                i <= self.columns,
                row@.len() == i,
                forall|b: int| 0 <= b < i ==> self.ring.member_ok(#[trigger] row@[b]),
            decreases self.columns - i,
        {
            let p = self.ring.mul(&mul, &data2[r2][i]);
            row.push(self.ring.add(&data2[r1][i], &p));
            i = i + 1;
        }
        data2.set(r1, row);
    }

    /// Scale row `r1` by `mul`, in both working grids.
    fn scale_row(
        &self,
        data1: &mut Vec<Vec<F::RingMember>>,
        data2: &mut Vec<Vec<F::RingMember>>,
        r1: usize,
        mul: F::RingMember,
    )
        requires
            self.wf(),
            grid_ok(*self.ring, old(data1)@, self.rows as int, self.columns as int),
            grid_ok(*self.ring, old(data2)@, self.rows as int, self.columns as int),
            r1 < self.rows,
            self.ring.member_ok(mul),
        ensures
            grid_ok(*self.ring, final(data1)@, self.rows as int, self.columns as int),
            grid_ok(*self.ring, final(data2)@, self.rows as int, self.columns as int),
    {
        let mut row: Vec<F::RingMember> = Vec::new();
        let mut i: usize = 0;
        while i < self.columns
            invariant
                self.wf(),
                grid_ok(*self.ring, data1@, self.rows as int, self.columns as int),
                r1 < self.rows,
                self.ring.member_ok(mul),
                i <= self.columns,
                row@.len() == i,
                forall|b: int| 0 <= b < i ==> self.ring.member_ok(#[trigger] row@[b]),
            decreases self.columns - i,
        {
            row.push(self.ring.mul(&mul, &data1[r1][i]));
            i = i + 1;
        }
        data1.set(r1, row);
        let mut row: Vec<F::RingMember> = Vec::new();
        let mut i: usize = 0;
        while i < self.columns
            invariant
                self.wf(),
                grid_ok(*self.ring, data2@, self.rows as int, self.columns as int),
                r1 < self.rows,
                self.ring.member_ok(mul),
                i <= self.columns,
                row@.len() == i,
                forall|b: int| 0 <= b < i ==> self.ring.member_ok(#[trigger] row@[b]),
            decreases self.columns - i,
        {
            row.push(self.ring.mul(&mul, &data2[r1][i]));
            i = i + 1;
        }
        data2.set(r1, row);
    }

    /// Find the first row at or below `start` whose entry in column
    /// `start` is non-zero.
    fn find_non_zero_pivot(&self, data1: &Vec<Vec<F::RingMember>>, start: usize) -> (r: Result<
        usize,
        String,
    >)
        requires
            self.wf(),
            grid_ok(*self.ring, data1@, self.rows as int, self.columns as int),
            start < self.rows,
            start < self.columns,
        ensures
            match r {
                Ok(p) => start <= p < self.rows && self.ring.value_of(
                    data1@[p as int]@[start as int],
                ) != self.ring.zero_v() && forall|i: int|
                    start <= i < p ==> self.ring.value_of(#[trigger] data1@[i]@[start as int])
                        == self.ring.zero_v(),
                Err(msg) => msg@ == "No non-zero pivot found"@ && forall|i: int|
                    start <= i < self.rows ==> self.ring.value_of(
                        #[trigger] data1@[i]@[start as int],
                    ) == self.ring.zero_v(),
            },
    {
        let mut i: usize = start;
        while i < self.rows
            invariant
                self.wf(),
                grid_ok(*self.ring, data1@, self.rows as int, self.columns as int),
                start <= i,
                start < self.columns,
                forall|k: int|
                    start <= k < i ==> self.ring.value_of(#[trigger] data1@[k]@[start as int])
                        == self.ring.zero_v(),
            decreases self.rows - i,
        {
            if !self.ring.is_zero_member(&data1[i][start]) {
                return Ok(i);
            }
            i = i + 1;
        }
        Err("No non-zero pivot found".to_owned())
    }

    /// The inverse, by Gauss-Jordan elimination: triangulate with pivot
    /// search, scale each pivot row by the pivot's inverse, then clear
    /// the entries above the diagonal.  Fails on a rectangular shape, a
    /// missing pivot, or a non-invertible pivot, each named by its
    /// message.  The contract tracks shape, well-formedness and the
    /// failure reason; that the result multiplies back to the identity
    /// rests on the elimination itself and is exercised by the
    /// accompanying tests.
    pub fn inverse(&self) -> (r: Result<Self, String>)
        requires
            self.wf(),
        ensures
            self.rows != self.columns ==> r is Err,
            match r {
                Ok(m) => m.wf() && m.rows == self.rows && m.columns == self.columns && m.ring
                    == self.ring,
                Err(msg) => (self.rows != self.columns && msg@
                    == "Trying to invert a rectangular matrix"@) || (self.rows == self.columns
                    && (msg@ == "No non-zero pivot found"@ || msg@
                    == "Trying to invert a non-invertible matrix"@)),
            },
    {
        if self.rows != self.columns {
            return Err("Trying to invert a rectangular matrix".to_owned());
        }
        let mut data1: Vec<Vec<F::RingMember>> = Vec::new();
        let mut i: usize = 0;
        while i < self.rows
            invariant
                self.wf(),
                self.rows == self.columns,
                i <= self.rows,
                data1@.len() == i,
                forall|a: int| 0 <= a < i ==> (#[trigger] data1@[a])@.len() == self.columns,
                forall|a: int, b: int|
                    0 <= a < i && 0 <= b < self.columns ==> self.ring.member_ok(
                        #[trigger] data1@[a]@[b],
                    ),
            decreases self.rows - i,
        {
            data1.push(Self::clone_row(self.ring, &self.data[i]));
            i = i + 1;
        }
        let mut data2 = Self::one(self.ring, self.rows).data;
        // triangulate: make the grid upper triangular with unit diagonal
        let mut i: usize = 0;
        while i < self.rows
            invariant
                self.wf(),
                self.rows == self.columns,
                i <= self.rows,
                grid_ok(*self.ring, data1@, self.rows as int, self.columns as int),
                grid_ok(*self.ring, data2@, self.rows as int, self.columns as int),
            decreases self.rows - i,
        {
            let pivot = self.find_non_zero_pivot(&data1, i);
            match pivot {
                Ok(p) => {
                    self.swap_rows(&mut data1, &mut data2, i, p);
                },
                Err(x) => {
                    return Err(x);
                },
            }
            let d = self.ring.clone_member(&data1[i][i]);
            match self.ring.inv(&d) {
                Ok(d_inv) => {
                    self.scale_row(&mut data1, &mut data2, i, d_inv);
                },
                Err(_) => {
                    return Err("Trying to invert a non-invertible matrix".to_owned());
                },
            }
            let mut j: usize = i + 1;
            while j < self.rows
                invariant
                    self.wf(),
                    self.rows == self.columns,
                    i < self.rows,
                    i < j,
                    grid_ok(*self.ring, data1@, self.rows as int, self.columns as int),
                    grid_ok(*self.ring, data2@, self.rows as int, self.columns as int),
                decreases self.rows - j,
            {
                let mult = self.ring.neg(&data1[j][i]);
                self.add_multiple_of(&mut data1, &mut data2, j, i, mult);
                j = j + 1;
            }
            i = i + 1;
        }
        // back-substitute: clear everything above the diagonal
        let mut i: usize = 0;
        while i < self.rows
            invariant
                self.wf(),
                self.rows == self.columns,
                i <= self.rows,
                grid_ok(*self.ring, data1@, self.rows as int, self.columns as int),
                grid_ok(*self.ring, data2@, self.rows as int, self.columns as int),
            decreases self.rows - i,
        {
            let mut j: usize = i + 1;
            while j < self.rows
                invariant
                    self.wf(),
                    self.rows == self.columns,
                    i < j,
                    i < self.rows,
                    grid_ok(*self.ring, data1@, self.rows as int, self.columns as int),
                    grid_ok(*self.ring, data2@, self.rows as int, self.columns as int),
                decreases self.rows - j,
            {
                let x = self.rows - i - 1;
                let y = self.rows - j - 1;
                let mult = self.ring.neg(&data1[y][x]);
                self.add_multiple_of(&mut data1, &mut data2, y, x, mult);
                j = j + 1;
            }
            i = i + 1;
        }
        Ok(Matrix { ring: self.ring, rows: self.rows, columns: self.columns, data: data2 })
    }
}

/// The dot product of a row of an identity grid with any column picks
/// out that column's own entry, for a ring that discharges the
/// commutative-ring laws: the off-diagonal zeros annihilate and the
/// diagonal one preserves.
pub proof fn lemma_identity_dot<F: crate::euclidian_domain::EuclidianDomain>(
    ring: F,
    ident: Seq<Vec<F::RingMember>>,
    m: Seq<Vec<F::RingMember>>,
    i: int,
    j: int,
    k: int,
)
    requires
        ring.wf(),
        0 <= i,
        forall|b: int|
            0 <= b < k ==> ring.value_of(#[trigger] ident[i]@[b]) == (if i == b {
                ring.one_v()
            } else {
                ring.zero_v()
            }),
    ensures
        dot_prefix(ring, ident, m, i, j, k) == (if i < k {
            ring.value_of(m[i]@[j])
        } else {
            ring.zero_v()
        }),
    decreases k,
{
    if k > 0 {
        lemma_identity_dot(ring, ident, m, i, j, k - 1);
        let prev = dot_prefix(ring, ident, m, i, j, k - 1);
        let x = ring.value_of(m[k - 1]@[j]);
        if i == k - 1 {
            ring.law_mul_one(x);
            ring.law_add_zero_left(x);
        } else {
            ring.law_mul_zero_left(x);
            ring.law_add_zero(prev);
        }
    }
}

/// The identity matrix is a multiplicative identity on values, for a
/// ring that discharges the commutative-ring laws: each dot product of
/// `Matrix::mul`'s contract collapses to the other operand's entry, so
/// multiplying by the identity reproduces every entry.
pub proof fn lemma_identity_matrix_mul<F: crate::euclidian_domain::EuclidianDomain>(
    one_m: Matrix<F>,
    m: Matrix<F>,
)
    requires
        one_m.wf(),
        m.wf(),
        one_m.ring == m.ring,
        one_m.rows == one_m.columns,
        one_m.columns == m.rows,
        forall|a: int, b: int|
            0 <= a < one_m.rows && 0 <= b < one_m.columns ==> #[trigger] one_m.entry(a, b) == (
            if a == b {
                m.ring.one_v()
            } else {
                m.ring.zero_v()
            }),
    ensures
        forall|i: int, j: int|
            0 <= i < one_m.rows && 0 <= j < m.columns ==> #[trigger] dot_prefix(
                *m.ring,
                one_m.data@,
                m.data@,
                i,
                j,
                one_m.columns as int,
            ) == m.entry(i, j),
{
    assert forall|i: int, j: int|
        0 <= i < one_m.rows && 0 <= j < m.columns implies #[trigger] dot_prefix(
        *m.ring,
        one_m.data@,
        m.data@,
        i,
        j,
        one_m.columns as int,
    ) == m.entry(i, j) by {
        assert forall|b: int|
            0 <= b < one_m.columns implies m.ring.value_of(#[trigger] one_m.data@[i]@[b]) == (
        if i == b {
            m.ring.one_v()
        } else {
            m.ring.zero_v()
        }) by {
            assert(one_m.entry(i, b) == (if i == b {
                m.ring.one_v()
            } else {
                m.ring.zero_v()
            }));
        }
        lemma_identity_dot(*m.ring, one_m.data@, m.data@, i, j, one_m.columns as int);
    }
}

/// The zero matrix is an additive identity on values, for a ring that
/// discharges the commutative-ring laws: adding it changes no entry of
/// `Matrix::add`'s contract.
pub proof fn lemma_zero_matrix_add<F: crate::euclidian_domain::EuclidianDomain>(
    m: Matrix<F>,
    z: Matrix<F>,
)
    requires
        m.wf(),
        z.wf(),
        m.ring == z.ring,
        z.rows == m.rows,
        z.columns == m.columns,
        forall|i: int, j: int|
            0 <= i < z.rows && 0 <= j < z.columns ==> #[trigger] z.entry(i, j)
                == m.ring.zero_v(),
    ensures
        forall|i: int, j: int|
            0 <= i < m.rows && 0 <= j < m.columns ==> m.ring.add_v(
                #[trigger] m.entry(i, j),
                z.entry(i, j),
            ) == m.entry(i, j),
{
    assert forall|i: int, j: int|
        0 <= i < m.rows && 0 <= j < m.columns implies m.ring.add_v(
        #[trigger] m.entry(i, j),
        z.entry(i, j),
    ) == m.entry(i, j) by {
        m.ring.law_add_zero(m.entry(i, j));
    }
}

/// The invariant of `clone_row`'s loop: a verbatim prefix.
pub open spec fn r_inv<F: Ring>(
    ring: &F,
    src: Seq<F::RingMember>,
    dst: Seq<F::RingMember>,
    j: int,
) -> bool {
    &&& dst.len() == j
    &&& forall|b: int| 0 <= b < j ==> ring.member_ok(#[trigger] dst[b])
    &&& forall|b: int|
        0 <= b < j ==> ring.value_of(#[trigger] dst[b]) == ring.value_of(src[b])
}

} // verus!
