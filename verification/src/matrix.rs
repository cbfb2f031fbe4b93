//! Fixed-size matrices and vectors over an exact integer value model.
//!
//! A `Matrix<T, R, C>` stores `R * C` elements of a `Numeric` type in
//! row-major order. Every operation is specified against the mathematical
//! value of each entry (`entry(i, j)`), so callers reason about matrices as
//! grids of unbounded integers; fixed-width overflow shows up only as
//! explicit range preconditions.

use vstd::prelude::*;

verus! {

/// An executable scalar with an exact mathematical value.
///
/// `as_int` gives the value an element denotes; `in_range` says which
/// mathematical values the type can hold. The arithmetic methods demand
/// that the exact result is representable and then compute it exactly.
pub trait Numeric: Sized + Copy {
    /// The mathematical value of this element.
    spec fn as_int(self) -> int;

    /// Whether the mathematical value `x` is representable in this type.
    spec fn in_range(x: int) -> bool;

    fn zero() -> (r: Self)
        ensures
            r.as_int() == 0,
    ;

    fn one() -> (r: Self)
        ensures
            r.as_int() == 1,
    ;

    fn plus(self, rhs: Self) -> (r: Self)
        requires
            Self::in_range(self.as_int() + rhs.as_int()),
        ensures
            r.as_int() == self.as_int() + rhs.as_int(),
    ;

    fn minus(self, rhs: Self) -> (r: Self)
        requires
            Self::in_range(self.as_int() - rhs.as_int()),
        ensures
            r.as_int() == self.as_int() - rhs.as_int(),
    ;

    fn times(self, rhs: Self) -> (r: Self)
        requires
            Self::in_range(self.as_int() * rhs.as_int()),
        ensures
            r.as_int() == self.as_int() * rhs.as_int(),
    ;
}

/// A scalar type whose values can be converted exactly from another one.
pub trait NumericFrom<S: Numeric>: Numeric {
    fn from_value(v: S) -> (r: Self)
        requires
            Self::in_range(v.as_int()),
        ensures
            r.as_int() == v.as_int(),
    ;
}

impl Numeric for i32 {
    open spec fn as_int(self) -> int {
        self as int
    }

    open spec fn in_range(x: int) -> bool {
        i32::MIN <= x <= i32::MAX
    }

    fn zero() -> (r: Self) {
        0
    }

    fn one() -> (r: Self) {
        1
    }

    fn plus(self, rhs: Self) -> (r: Self) {
        self + rhs
    }

    fn minus(self, rhs: Self) -> (r: Self) {
        self - rhs
    }

    fn times(self, rhs: Self) -> (r: Self) {
        self * rhs
    }
}

impl Numeric for i64 {
    open spec fn as_int(self) -> int {
        self as int
    }

    open spec fn in_range(x: int) -> bool {
        i64::MIN <= x <= i64::MAX
    }

    fn zero() -> (r: Self) {
        0
    }

    fn one() -> (r: Self) {
        1
    }

    fn plus(self, rhs: Self) -> (r: Self) {
        self + rhs
    }

    fn minus(self, rhs: Self) -> (r: Self) {
        self - rhs
    }

    fn times(self, rhs: Self) -> (r: Self) {
        self * rhs
    }
}

impl NumericFrom<i32> for i64 {
    fn from_value(v: i32) -> (r: Self) {
        v as i64
    }
}

impl NumericFrom<i32> for i32 {
    fn from_value(v: i32) -> (r: Self) {
        v
    }
}

impl NumericFrom<i64> for i64 {
    fn from_value(v: i64) -> (r: Self) {
        v
    }
}

/// In a row-major layout with `c` columns, the cell (i1, j1) lies strictly
/// before the cell (i2, j2) whenever (i1, j1) is lexicographically smaller.
proof fn lemma_row_major_before(i1: int, j1: int, i2: int, j2: int, c: int)
    requires
        0 <= i1,
        0 <= j1 < c,
        0 <= j2 <= c,
        i1 < i2 || (i1 == i2 && j1 < j2),
    ensures
        i1 * c + j1 < i2 * c + j2,
{
    if i1 < i2 {
        assert(i1 * c + j1 < i2 * c + j2) by (nonlinear_arith)
            requires
                0 <= i1,
                0 <= j1 < c,
                0 <= j2,
                i1 < i2,
        ;
    }
}

/// Finishing a row advances the row-major position by one row of cells.
proof fn lemma_row_major_step(i: int, c: int)
    ensures
        (i + 1) * c == i * c + c,
{
    assert((i + 1) * c == i * c + c) by (nonlinear_arith);
}

/// A row-major index is within a grid of `r` rows and `c` columns.
proof fn lemma_row_major_bound(i: int, j: int, r: int, c: int)
    requires
        0 <= i < r,
        0 <= j < c,
    ensures
        0 <= i * c + j < r * c,
{
    assert(i * c + j < r * c) by (nonlinear_arith)
        requires
            0 <= i < r,
            0 <= j < c,
    ;
    assert(0 <= i * c) by (nonlinear_arith)
        requires
            0 <= i,
            0 <= c,
    ;
}

/// A fixed-size matrix of `R` rows and `C` columns, stored row-major.
#[derive(Debug, PartialEq, Clone)]
pub struct Matrix<T: Numeric, const R: usize, const C: usize> {
    data: Vec<T>,
}

/// A column vector is a matrix with a single column.
pub type Vector<T, const R: usize> = Matrix<T, R, 1>;

/// A two-dimensional integer vector, as used for pixel sensor sizes.
pub type Vector2i = Vector<i32, 2>;

impl<T: Numeric, const R: usize, const C: usize> Matrix<T, R, C> {
    /// Well-formed: the store holds exactly `R * C` elements.
    pub closed spec fn wf(self) -> bool {
        self.data.len() == R * C
    }

    /// The mathematical value of the entry in row `i`, column `j`.
    pub closed spec fn entry(self, i: int, j: int) -> int {
        self.data[i * (C as int) + j].as_int()
    }

    /// Row-major position of (i, j), with the bound proof attached.
    fn place(&self, i: usize, j: usize) -> (k: usize)
        requires
            self.wf(),
            i < R,
            j < C,
        ensures
            k == i * (C as int) + j,
            k < self.data.len(),
    {
        proof {
            lemma_row_major_bound(i as int, j as int, R as int, C as int);
        }
        i * C + j
    }

    /// Read the element in row `i`, column `j`.
    pub fn at(&self, i: usize, j: usize) -> (r: T)
        requires
            self.wf(),
            i < R,
            j < C,
        ensures
            r.as_int() == self.entry(i as int, j as int),
    {
        let k = self.place(i, j);
        self.data[k]
    }

    /// Borrow the element in row `i`, column `j` for writing.
    pub fn at_mut(&mut self, i: usize, j: usize) -> (r: &mut T)
        requires
            old(self).wf(),
            i < R,
            j < C,
        ensures
            (*r).as_int() == old(self).entry(i as int, j as int),
            final(self).wf(),
            final(self).entry(i as int, j as int) == (*final(r)).as_int(),
            forall|a: int, b: int|
                0 <= a < R && 0 <= b < C && !(a == i && b == j) ==> final(self).entry(a, b)
                    == old(self).entry(a, b),
    {
        let k = self.place(i, j);
        proof {
            assert forall|a: int, b: int|
                #![trigger a * (C as int) + b]
                0 <= a < R && 0 <= b < C && !(a == i && b == j) implies a * (C as int) + b
                != k as int && 0 <= a * (C as int) + b < self.data.len() by {
                lemma_row_major_bound(a, b, R as int, C as int);
                lemma_row_major_distinct(a, b, i as int, j as int, C as int);
            }
        }
        &mut self.data[k]
    }

    /// Replace the element in row `i`, column `j`.
    pub fn set_at(&mut self, i: usize, j: usize, v: T)
        requires
            old(self).wf(),
            i < R,
            j < C,
        ensures
            final(self).wf(),
            final(self).entry(i as int, j as int) == v.as_int(),
            forall|a: int, b: int|
                0 <= a < R && 0 <= b < C && !(a == i && b == j) ==> final(self).entry(a, b)
                    == old(self).entry(a, b),
    {
        let k = self.place(i, j);
        self.data[k] = v;
        proof {
            assert forall|a: int, b: int|
                0 <= a < R && 0 <= b < C && !(a == i && b == j) implies self.entry(a, b) == old(
                self,
            ).entry(a, b) by {
                lemma_row_major_bound(a, b, R as int, C as int);
                if a * (C as int) + b == k {
                    lemma_row_major_distinct(a, b, i as int, j as int, C as int);
                }
            }
        }
    }

    /// Build a matrix from its rows.
    pub fn new(rows: Vec<Vec<T>>) -> (r: Self)
        requires
            rows.len() == R,
            forall|i: int| 0 <= i < R ==> (#[trigger] rows[i])@.len() == C,
        ensures
            r.wf(),
            forall|i: int, j: int|
                0 <= i < R && 0 <= j < C ==> r.entry(i, j) == rows[i][j].as_int(),
    {
        let mut data: Vec<T> = Vec::new();
        let mut i: usize = 0;
        while i < R
            invariant
                i <= R,
                rows.len() == R,
                forall|a: int| 0 <= a < R ==> (#[trigger] rows[a])@.len() == C,
                data.len() == i * C,
                forall|a: int, b: int|
                    0 <= a < i && 0 <= b < C ==> #[trigger] data[a * (C as int) + b]
                        == rows[a][b],
            decreases R - i,
        {
            let row = &rows[i];
            let mut j: usize = 0;
            while j < C
                invariant
                    i < R,
                    j <= C,
                    rows.len() == R,
                    forall|a: int| 0 <= a < R ==> (#[trigger] rows[a])@.len() == C,
                    row == rows[i as int],
                    data.len() == i * C + j,
                    forall|a: int, b: int|
                        (0 <= a < i && 0 <= b < C) || (a == i && 0 <= b < j)
                            ==> #[trigger] data[a * (C as int) + b] == rows[a][b],
                decreases C - j,
            {
                proof {
                    lemma_row_major_bound(i as int, j as int, R as int, C as int);
                }
                let ghost pre = data@;
                data.push(row[j]);
                proof {
                    assert forall|a: int, b: int|
                        (0 <= a < i && 0 <= b < C) || (a == i && 0 <= b < j + 1)
                            implies #[trigger] data[a * (C as int) + b] == rows[a][b] by {
                        if a == i && b == j {
                            assert(data[a * (C as int) + b] == pre.push(row[j as int])[i * (
                            C as int) + j]);
                        } else {
                            lemma_row_major_before(a, b, i as int, j as int, C as int);
                            assert(data[a * (C as int) + b] == pre[a * (C as int) + b]);
                        }
                    }
                }
                j = j + 1;
            }
            proof {
                lemma_row_major_step(i as int, C as int);
            }
            i = i + 1;
        }
        let r = Matrix { data };
        proof {
            assert forall|i2: int, j2: int|
                0 <= i2 < R && 0 <= j2 < C implies r.entry(i2, j2) == rows[i2][j2].as_int() by {
                lemma_row_major_bound(i2, j2, R as int, C as int);
                assert(r.data[i2 * (C as int) + j2] == rows[i2][j2]);
            }
        }
        r
    }

    /// The all-zero matrix.
    pub fn zeros() -> (r: Self)
        ensures
            r.wf(),
            forall|i: int, j: int| 0 <= i < R && 0 <= j < C ==> r.entry(i, j) == 0,
    {
        let mut data: Vec<T> = Vec::new();
        let mut i: usize = 0;
        while i < R
            invariant
                i <= R,
                data.len() == i * C,
                forall|k: int| 0 <= k < data.len() ==> (#[trigger] data[k]).as_int() == 0,
            decreases R - i,
        {
            let mut j: usize = 0;
            while j < C
                invariant
                    i < R,
                    j <= C,
                    data.len() == i * C + j,
                    forall|k: int| 0 <= k < data.len() ==> (#[trigger] data[k]).as_int() == 0,
                decreases C - j,
            {
                proof {
                    lemma_row_major_bound(i as int, j as int, R as int, C as int);
                }
                data.push(T::zero());
                j = j + 1;
            }
            proof {
                lemma_row_major_step(i as int, C as int);
            }
            i = i + 1;
        }
        let r = Matrix { data };
        proof {
            assert forall|i2: int, j2: int|
                0 <= i2 < R && 0 <= j2 < C implies r.entry(i2, j2) == 0 by {
                lemma_row_major_bound(i2, j2, R as int, C as int);
            }
        }
        r
    }
}

impl<T: Numeric, const R: usize, const C: usize> Matrix<T, R, C> {
    /// The matrix with rows and columns exchanged.
    pub fn transpose(&self) -> (r: Matrix<T, C, R>)
        requires
            self.wf(),
        ensures
            r.wf(),
            forall|i: int, j: int|
                0 <= i < C && 0 <= j < R ==> r.entry(i, j) == self.entry(j, i),
    {
        let mut data: Vec<T> = Vec::new();
        let mut i: usize = 0;
        while i < C
            invariant
                self.wf(),
                i <= C,
                data.len() == i * R,
                forall|a: int, b: int|
                    0 <= a < i && 0 <= b < R ==> (#[trigger] data[a * (R as int) + b]).as_int()
                        == self.entry(b, a),
            decreases C - i,
        {
            let mut j: usize = 0;
            while j < R
                invariant
                    self.wf(),
                    i < C,
                    j <= R,
                    data.len() == i * R + j,
                    forall|a: int, b: int|
                        (0 <= a < i && 0 <= b < R) || (a == i && 0 <= b < j)
                            ==> (#[trigger] data[a * (R as int) + b]).as_int() == self.entry(
                            b,
                            a,
                        ),
                decreases R - j,
            {
                proof {
                    lemma_row_major_bound(i as int, j as int, C as int, R as int);
                }
                let v = self.at(j, i);
                let ghost pre = data@;
                data.push(v);
                proof {
                    assert forall|a: int, b: int|
                        (0 <= a < i && 0 <= b < R) || (a == i && 0 <= b < j + 1)
                            implies (#[trigger] data[a * (R as int) + b]).as_int()
                            == self.entry(b, a) by {
                        if a == i && b == j {
                            assert(data[a * (R as int) + b] == pre.push(v)[i * (R as int) + j]);
                        } else {
                            lemma_row_major_before(a, b, i as int, j as int, R as int);
                            assert(data[a * (R as int) + b] == pre[a * (R as int) + b]);
                        }
                    }
                }
                j = j + 1;
            }
            proof {
                lemma_row_major_step(i as int, R as int);
            }
            i = i + 1;
        }
        let r = Matrix::<T, C, R> { data };
        proof {
            assert forall|i2: int, j2: int|
                0 <= i2 < C && 0 <= j2 < R implies r.entry(i2, j2) == self.entry(j2, i2) by {
                lemma_row_major_bound(i2, j2, C as int, R as int);
            }
        }
        r
    }

    /// The same matrix with every element converted to another scalar type.
    pub fn cast<U: Numeric + NumericFrom<T>>(&self) -> (r: Matrix<U, R, C>)
        requires
            self.wf(),
            forall|i: int, j: int|
                0 <= i < R && 0 <= j < C ==> U::in_range(#[trigger] self.entry(i, j)),
        ensures
            r.wf(),
            forall|i: int, j: int|
                0 <= i < R && 0 <= j < C ==> r.entry(i, j) == self.entry(i, j),
    {
        let mut data: Vec<U> = Vec::new();
        let mut i: usize = 0;
        while i < R
            invariant
                self.wf(),
                forall|a: int, b: int|
                    0 <= a < R && 0 <= b < C ==> U::in_range(#[trigger] self.entry(a, b)),
                i <= R,
                data.len() == i * C,
                forall|a: int, b: int|
                    0 <= a < i && 0 <= b < C ==> (#[trigger] data[a * (C as int) + b]).as_int()
                        == self.entry(a, b),
            decreases R - i,
        {
            let mut j: usize = 0;
            while j < C
                invariant
                    self.wf(),
                    forall|a: int, b: int|
                        0 <= a < R && 0 <= b < C ==> U::in_range(#[trigger] self.entry(a, b)),
                    i < R,
                    j <= C,
                    data.len() == i * C + j,
                    forall|a: int, b: int|
                        (0 <= a < i && 0 <= b < C) || (a == i && 0 <= b < j)
                            ==> (#[trigger] data[a * (C as int) + b]).as_int() == self.entry(
                            a,
                            b,
                        ),
                decreases C - j,
            {
                proof {
                    lemma_row_major_bound(i as int, j as int, R as int, C as int);
                }
                let v = U::from_value(self.at(i, j));
                let ghost pre = data@;
                data.push(v);
                proof {
                    assert forall|a: int, b: int|
                        (0 <= a < i && 0 <= b < C) || (a == i && 0 <= b < j + 1)
                            implies (#[trigger] data[a * (C as int) + b]).as_int()
                            == self.entry(a, b) by {
                        if a == i && b == j {
                            assert(data[a * (C as int) + b] == pre.push(v)[i * (C as int) + j]);
                        } else {
                            lemma_row_major_before(a, b, i as int, j as int, C as int);
                            assert(data[a * (C as int) + b] == pre[a * (C as int) + b]);
                        }
                    }
                }
                j = j + 1;
            }
            proof {
                lemma_row_major_step(i as int, C as int);
            }
            i = i + 1;
        }
        let r = Matrix::<U, R, C> { data };
        proof {
            assert forall|i2: int, j2: int|
                0 <= i2 < R && 0 <= j2 < C implies r.entry(i2, j2) == self.entry(i2, j2) by {
                lemma_row_major_bound(i2, j2, R as int, C as int);
            }
        }
        r
    }
}

impl<T: Numeric, const S: usize> Matrix<T, S, S> {
    /// The identity matrix: ones on the diagonal, zeros elsewhere.
    pub fn identity() -> (r: Self)
        ensures
            r.wf(),
            forall|i: int, j: int|
                0 <= i < S && 0 <= j < S ==> r.entry(i, j) == if i == j {
                    1int
                } else {
                    0int
                },
    {
        let mut data: Vec<T> = Vec::new();
        let mut i: usize = 0;
        while i < S
            invariant
                i <= S,
                data.len() == i * S,
                forall|a: int, b: int|
                    0 <= a < i && 0 <= b < S ==> (#[trigger] data[a * (S as int) + b]).as_int()
                        == if a == b {
                        1int
                    } else {
                        0int
                    },
            decreases S - i,
        {
            let mut j: usize = 0;
            while j < S
                invariant
                    i < S,
                    j <= S,
                    data.len() == i * S + j,
                    forall|a: int, b: int|
                        (0 <= a < i && 0 <= b < S) || (a == i && 0 <= b < j)
                            ==> (#[trigger] data[a * (S as int) + b]).as_int() == if a == b {
                            1int
                        } else {
                            0int
                        },
                decreases S - j,
            {
                proof {
                    lemma_row_major_bound(i as int, j as int, S as int, S as int);
                }
                let v = if i == j {
                    T::one()
                } else {
                    T::zero()
                };
                let ghost pre = data@;
                data.push(v);
                proof {
                    assert forall|a: int, b: int|
                        (0 <= a < i && 0 <= b < S) || (a == i && 0 <= b < j + 1)
                            implies (#[trigger] data[a * (S as int) + b]).as_int() == (if a == b {
                        1int
                    } else {
                        0int
                    }) by {
                        if a == i && b == j {
                            assert(data[a * (S as int) + b] == pre.push(v)[i * (S as int) + j]);
                        } else {
                            lemma_row_major_before(a, b, i as int, j as int, S as int);
                            assert(data[a * (S as int) + b] == pre[a * (S as int) + b]);
                        }
                    }
                }
                j = j + 1;
            }
            proof {
                lemma_row_major_step(i as int, S as int);
            }
            i = i + 1;
        }
        let r = Matrix::<T, S, S> { data };
        proof {
            assert forall|i2: int, j2: int|
                0 <= i2 < S && 0 <= j2 < S implies r.entry(i2, j2) == (if i2 == j2 {
                1int
            } else {
                0int
            }) by {
                lemma_row_major_bound(i2, j2, S as int, S as int);
            }
        }
        r
    }
}

impl<T: Numeric, const R: usize, const C: usize> Matrix<T, R, C> {
    /// The elementwise sum of two matrices.
    pub fn plus(&self, rhs: &Self) -> (r: Self)
        requires
            self.wf(),
            rhs.wf(),
            forall|i: int, j: int|
                0 <= i < R && 0 <= j < C ==> T::in_range(
                    #[trigger] self.entry(i, j) + rhs.entry(i, j),
                ),
        ensures
            r.wf(),
            forall|i: int, j: int|
                0 <= i < R && 0 <= j < C ==> r.entry(i, j) == self.entry(i, j) + rhs.entry(i, j),
    {
        let mut data: Vec<T> = Vec::new();
        let mut i: usize = 0;
        while i < R
            invariant
                self.wf(),
                rhs.wf(),
                forall|a: int, b: int|
                    0 <= a < R && 0 <= b < C ==> T::in_range(
                        #[trigger] self.entry(a, b) + rhs.entry(a, b),
                    ),
                i <= R,
                data.len() == i * C,
                forall|a: int, b: int|
                    0 <= a < i && 0 <= b < C ==> (#[trigger] data[a * (C as int) + b]).as_int()
                        == self.entry(a, b) + rhs.entry(a, b),
            decreases R - i,
        {
            let mut j: usize = 0;
            while j < C
                invariant
                    self.wf(),
                    rhs.wf(),
                    forall|a: int, b: int|
                        0 <= a < R && 0 <= b < C ==> T::in_range(
                            #[trigger] self.entry(a, b) + rhs.entry(a, b),
                        ),
                    i < R,
                    j <= C,
                    data.len() == i * C + j,
                    forall|a: int, b: int|
                        (0 <= a < i && 0 <= b < C) || (a == i && 0 <= b < j)
                            ==> (#[trigger] data[a * (C as int) + b]).as_int() == self.entry(a, b)
                            + rhs.entry(a, b),
                decreases C - j,
            {
                proof {
                    lemma_row_major_bound(i as int, j as int, R as int, C as int);
                }
                let v = self.at(i, j).plus(rhs.at(i, j));
                let ghost pre = data@;
                data.push(v);
                proof {
                    assert forall|a: int, b: int|
                        (0 <= a < i && 0 <= b < C) || (a == i && 0 <= b < j + 1)
                            implies (#[trigger] data[a * (C as int) + b]).as_int() == self.entry(
                        a,
                        b,
                    ) + rhs.entry(a, b) by {
                        if a == i && b == j {
                            assert(data[a * (C as int) + b] == pre.push(v)[i * (C as int) + j]);
                        } else {
                            lemma_row_major_before(a, b, i as int, j as int, C as int);
                            assert(data[a * (C as int) + b] == pre[a * (C as int) + b]);
                        }
                    }
                }
                j = j + 1;
            }
            proof {
                lemma_row_major_step(i as int, C as int);
            }
            i = i + 1;
        }
        let r = Matrix::<T, R, C> { data };
        proof {
            assert forall|i2: int, j2: int|
                0 <= i2 < R && 0 <= j2 < C implies r.entry(i2, j2) == self.entry(i2, j2)
                + rhs.entry(i2, j2) by {
                lemma_row_major_bound(i2, j2, R as int, C as int);
            }
        }
        r
    }

    /// The elementwise difference of two matrices.
    pub fn minus(&self, rhs: &Self) -> (r: Self)
        requires
            self.wf(),
            rhs.wf(),
            forall|i: int, j: int|
                0 <= i < R && 0 <= j < C ==> T::in_range(
                    #[trigger] self.entry(i, j) - rhs.entry(i, j),
                ),
        ensures
            r.wf(),
            forall|i: int, j: int|
                0 <= i < R && 0 <= j < C ==> r.entry(i, j) == self.entry(i, j) - rhs.entry(i, j),
    {
        let mut data: Vec<T> = Vec::new();
        let mut i: usize = 0;
        while i < R
            invariant
                self.wf(),
                rhs.wf(),
                forall|a: int, b: int|
                    0 <= a < R && 0 <= b < C ==> T::in_range(
                        #[trigger] self.entry(a, b) - rhs.entry(a, b),
                    ),
                i <= R,
                data.len() == i * C,
                forall|a: int, b: int|
                    0 <= a < i && 0 <= b < C ==> (#[trigger] data[a * (C as int) + b]).as_int()
                        == self.entry(a, b) - rhs.entry(a, b),
            decreases R - i,
        {
            let mut j: usize = 0;
            while j < C
                invariant
                    self.wf(),
                    rhs.wf(),
                    forall|a: int, b: int|
                        0 <= a < R && 0 <= b < C ==> T::in_range(
                            #[trigger] self.entry(a, b) - rhs.entry(a, b),
                        ),
                    i < R,
                    j <= C,
                    data.len() == i * C + j,
                    forall|a: int, b: int|
                        (0 <= a < i && 0 <= b < C) || (a == i && 0 <= b < j)
                            ==> (#[trigger] data[a * (C as int) + b]).as_int() == self.entry(a, b)
                            - rhs.entry(a, b),
                decreases C - j,
            {
                proof {
                    lemma_row_major_bound(i as int, j as int, R as int, C as int);
                }
                let v = self.at(i, j).minus(rhs.at(i, j));
                let ghost pre = data@;
                data.push(v);
                proof {
                    assert forall|a: int, b: int|
                        (0 <= a < i && 0 <= b < C) || (a == i && 0 <= b < j + 1)
                            implies (#[trigger] data[a * (C as int) + b]).as_int() == self.entry(
                        a,
                        b,
                    ) - rhs.entry(a, b) by {
                        if a == i && b == j {
                            assert(data[a * (C as int) + b] == pre.push(v)[i * (C as int) + j]);
                        } else {
                            lemma_row_major_before(a, b, i as int, j as int, C as int);
                            assert(data[a * (C as int) + b] == pre[a * (C as int) + b]);
                        }
                    }
                }
                j = j + 1;
            }
            proof {
                lemma_row_major_step(i as int, C as int);
            }
            i = i + 1;
        }
        let r = Matrix::<T, R, C> { data };
        proof {
            assert forall|i2: int, j2: int|
                0 <= i2 < R && 0 <= j2 < C implies r.entry(i2, j2) == self.entry(i2, j2)
                - rhs.entry(i2, j2) by {
                lemma_row_major_bound(i2, j2, R as int, C as int);
            }
        }
        r
    }

    /// The matrix with every element multiplied by the scalar `s`.
    pub fn scale(&self, s: T) -> (r: Self)
        requires
            self.wf(),
            forall|i: int, j: int|
                0 <= i < R && 0 <= j < C ==> T::in_range(#[trigger] self.entry(i, j) * s.as_int()),
        ensures
            r.wf(),
            forall|i: int, j: int|
                0 <= i < R && 0 <= j < C ==> r.entry(i, j) == self.entry(i, j) * s.as_int(),
    {
        let mut data: Vec<T> = Vec::new();
        let mut i: usize = 0;
        while i < R
            invariant
                self.wf(),
                forall|a: int, b: int|
                    0 <= a < R && 0 <= b < C ==> T::in_range(
                        #[trigger] self.entry(a, b) * s.as_int(),
                    ),
                i <= R,
                data.len() == i * C,
                forall|a: int, b: int|
                    0 <= a < i && 0 <= b < C ==> (#[trigger] data[a * (C as int) + b]).as_int()
                        == self.entry(a, b) * s.as_int(),
            decreases R - i,
        {
            let mut j: usize = 0;
            while j < C
                invariant
                    self.wf(),
                    forall|a: int, b: int|
                        0 <= a < R && 0 <= b < C ==> T::in_range(
                            #[trigger] self.entry(a, b) * s.as_int(),
                        ),
                    i < R,
                    j <= C,
                    data.len() == i * C + j,
                    forall|a: int, b: int|
                        (0 <= a < i && 0 <= b < C) || (a == i && 0 <= b < j)
                            ==> (#[trigger] data[a * (C as int) + b]).as_int() == self.entry(a, b)
                            * s.as_int(),
                decreases C - j,
            {
                proof {
                    lemma_row_major_bound(i as int, j as int, R as int, C as int);
                }
                let v = self.at(i, j).times(s);
                let ghost pre = data@;
                data.push(v);
                proof {
                    assert forall|a: int, b: int|
                        (0 <= a < i && 0 <= b < C) || (a == i && 0 <= b < j + 1)
                            implies (#[trigger] data[a * (C as int) + b]).as_int() == self.entry(
                        a,
                        b,
                    ) * s.as_int() by {
                        if a == i && b == j {
                            assert(data[a * (C as int) + b] == pre.push(v)[i * (C as int) + j]);
                        } else {
                            lemma_row_major_before(a, b, i as int, j as int, C as int);
                            assert(data[a * (C as int) + b] == pre[a * (C as int) + b]);
                        }
                    }
                }
                j = j + 1;
            }
            proof {
                lemma_row_major_step(i as int, C as int);
            }
            i = i + 1;
        }
        let r = Matrix::<T, R, C> { data };
        proof {
            assert forall|i2: int, j2: int|
                0 <= i2 < R && 0 <= j2 < C implies r.entry(i2, j2) == self.entry(i2, j2)
                * s.as_int() by {
                lemma_row_major_bound(i2, j2, R as int, C as int);
            }
        }
        r
    }

    /// Add `rhs` to `self` in place, element by element.
    pub fn add_in_place(&mut self, rhs: &Self)
        requires
            old(self).wf(),
            rhs.wf(),
            forall|i: int, j: int|
                0 <= i < R && 0 <= j < C ==> T::in_range(
                    #[trigger] old(self).entry(i, j) + rhs.entry(i, j),
                ),
        ensures
            final(self).wf(),
            forall|i: int, j: int|
                0 <= i < R && 0 <= j < C ==> final(self).entry(i, j) == old(self).entry(i, j)
                    + rhs.entry(i, j),
    {
        let mut i: usize = 0;
        while i < R
            invariant
                self.wf(),
                rhs.wf(),
                forall|a: int, b: int|
                    0 <= a < R && 0 <= b < C ==> T::in_range(
                        #[trigger] old(self).entry(a, b) + rhs.entry(a, b),
                    ),
                i <= R,
                forall|a: int, b: int|
                    0 <= a < i && 0 <= b < C ==> #[trigger] self.entry(a, b) == old(self).entry(
                        a,
                        b,
                    ) + rhs.entry(a, b),
                forall|a: int, b: int|
                    i <= a < R && 0 <= b < C ==> #[trigger] self.entry(a, b) == old(self).entry(
                        a,
                        b,
                    ),
            decreases R - i,
        {
            let mut j: usize = 0;
            while j < C
                invariant
                    self.wf(),
                    rhs.wf(),
                    forall|a: int, b: int|
                        0 <= a < R && 0 <= b < C ==> T::in_range(
                            #[trigger] old(self).entry(a, b) + rhs.entry(a, b),
                        ),
                    i < R,
                    j <= C,
                    forall|a: int, b: int|
                        (0 <= a < i && 0 <= b < C) || (a == i && 0 <= b < j)
                            ==> #[trigger] self.entry(a, b) == old(self).entry(a, b) + rhs.entry(
                            a,
                            b,
                        ),
                    forall|a: int, b: int|
                        ((a == i && j <= b < C) || (i < a < R && 0 <= b < C))
                            ==> #[trigger] self.entry(a, b) == old(self).entry(a, b),
                decreases C - j,
            {
                let v = self.at(i, j).plus(rhs.at(i, j));
                self.set_at(i, j, v);
                j = j + 1;
            }
            i = i + 1;
        }
    }
}

/// The sum of the first `k` pairwise products of two integer sequences.
pub open spec fn dot_prefix(a: Seq<int>, b: Seq<int>, k: int) -> int
    decreases k,
{
    if k <= 0 {
        0
    } else {
        dot_prefix(a, b, k - 1) + a[k - 1] * b[k - 1]
    }
}

impl<T: Numeric, const R: usize, const C: usize> Matrix<T, R, C> {
    /// Row `i` as a sequence of mathematical values.
    pub open spec fn row_seq(self, i: int) -> Seq<int> {
        Seq::new(C as nat, |j: int| self.entry(i, j))
    }

    /// Column `j` as a sequence of mathematical values.
    pub open spec fn col_seq(self, j: int) -> Seq<int> {
        Seq::new(R as nat, |i: int| self.entry(i, j))
    }
}

impl<T: Numeric, const R: usize, const C: usize> Matrix<T, R, C> {
    /// The matrix product. Entry (i, j) of the result is the inner product
    /// of row `i` of `self` with column `j` of `rhs`.
    pub fn matmul<const C2: usize>(&self, rhs: &Matrix<T, C, C2>) -> (r: Matrix<T, R, C2>)
        requires
            self.wf(),
            rhs.wf(),
            forall|i: int, j: int, k: int|
                #![trigger self.entry(i, k), rhs.entry(k, j)]
                0 <= i < R && 0 <= j < C2 && 0 <= k < C ==> T::in_range(
                    self.entry(i, k) * rhs.entry(k, j),
                ),
            forall|i: int, j: int, k: int|
                0 <= i < R && 0 <= j < C2 && 0 < k <= C ==> T::in_range(#[trigger] dot_prefix(
                    self.row_seq(i),
                    rhs.col_seq(j),
                    k,
                )),
        ensures
            r.wf(),
            forall|i: int, j: int|
                0 <= i < R && 0 <= j < C2 ==> r.entry(i, j) == dot_prefix(
                    self.row_seq(i),
                    rhs.col_seq(j),
                    C as int,
                ),
    {
        let mut data: Vec<T> = Vec::new();
        let mut i: usize = 0;
        while i < R
            invariant
                self.wf(),
                rhs.wf(),
                forall|a: int, b: int, t: int|
                    #![trigger self.entry(a, t), rhs.entry(t, b)]
                    0 <= a < R && 0 <= b < C2 && 0 <= t < C ==> T::in_range(
                        self.entry(a, t) * rhs.entry(t, b),
                    ),
                forall|a: int, b: int, t: int|
                    0 <= a < R && 0 <= b < C2 && 0 < t <= C ==> T::in_range(
                        #[trigger] dot_prefix(self.row_seq(a), rhs.col_seq(b), t),
                    ),
                i <= R,
                data.len() == i * C2,
                forall|a: int, b: int|
                    0 <= a < i && 0 <= b < C2 ==> (#[trigger] data[a * (C2 as int) + b]).as_int()
                        == dot_prefix(self.row_seq(a), rhs.col_seq(b), C as int),
            decreases R - i,
        {
            let mut j: usize = 0;
            while j < C2
                invariant
                    self.wf(),
                    rhs.wf(),
                    forall|a: int, b: int, t: int|
                        #![trigger self.entry(a, t), rhs.entry(t, b)]
                        0 <= a < R && 0 <= b < C2 && 0 <= t < C ==> T::in_range(
                            self.entry(a, t) * rhs.entry(t, b),
                        ),
                    forall|a: int, b: int, t: int|
                        0 <= a < R && 0 <= b < C2 && 0 < t <= C ==> T::in_range(
                            #[trigger] dot_prefix(self.row_seq(a), rhs.col_seq(b), t),
                        ),
                    i < R,
                    j <= C2,
                    data.len() == i * C2 + j,
                    forall|a: int, b: int|
                        (0 <= a < i && 0 <= b < C2) || (a == i && 0 <= b < j)
                            ==> (#[trigger] data[a * (C2 as int) + b]).as_int() == dot_prefix(
                            self.row_seq(a),
                            rhs.col_seq(b),
                            C as int,
                        ),
                decreases C2 - j,
            {
                let mut acc: T = T::zero();
                let mut k: usize = 0;
                while k < C
                    invariant
                        self.wf(),
                        rhs.wf(),
                        forall|a: int, b: int, t: int|
                            #![trigger self.entry(a, t), rhs.entry(t, b)]
                            0 <= a < R && 0 <= b < C2 && 0 <= t < C ==> T::in_range(
                                self.entry(a, t) * rhs.entry(t, b),
                            ),
                        forall|a: int, b: int, t: int|
                            0 <= a < R && 0 <= b < C2 && 0 < t <= C ==> T::in_range(
                                #[trigger] dot_prefix(self.row_seq(a), rhs.col_seq(b), t),
                            ),
                        i < R,
                        j < C2,
                        k <= C,
                        acc.as_int() == dot_prefix(self.row_seq(i as int), rhs.col_seq(j as int), k as int),
                    decreases C - k,
                {
                    let p = self.at(i, k).times(rhs.at(k, j));
                    proof {
                        assert(dot_prefix(self.row_seq(i as int), rhs.col_seq(j as int), k + 1)
                            == dot_prefix(self.row_seq(i as int), rhs.col_seq(j as int), k as int)
                            + self.entry(i as int, k as int) * rhs.entry(k as int, j as int));
                    }
                    acc = acc.plus(p);
                    k = k + 1;
                }
                proof {
                    lemma_row_major_bound(i as int, j as int, R as int, C2 as int);
                }
                let ghost pre = data@;
                data.push(acc);
                proof {
                    assert forall|a: int, b: int|
                        (0 <= a < i && 0 <= b < C2) || (a == i && 0 <= b < j + 1)
                            implies (#[trigger] data[a * (C2 as int) + b]).as_int() == dot_prefix(
                        self.row_seq(a),
                        rhs.col_seq(b),
                        C as int,
                    ) by {
                        if a == i && b == j {
                            assert(data[a * (C2 as int) + b] == pre.push(acc)[i * (C2 as int)
                                + j]);
                        } else {
                            lemma_row_major_before(a, b, i as int, j as int, C2 as int);
                            assert(data[a * (C2 as int) + b] == pre[a * (C2 as int) + b]);
                        }
                    }
                }
                j = j + 1;
            }
            proof {
                lemma_row_major_step(i as int, C2 as int);
            }
            i = i + 1;
        }
        let r = Matrix::<T, R, C2> { data };
        proof {
            assert forall|i2: int, j2: int|
                0 <= i2 < R && 0 <= j2 < C2 implies r.entry(i2, j2) == dot_prefix(
                self.row_seq(i2),
                rhs.col_seq(j2),
                C as int,
            ) by {
                lemma_row_major_bound(i2, j2, R as int, C2 as int);
            }
        }
        r
    }
}

impl<T: Numeric, const R: usize> Matrix<T, R, 1> {
    /// The inner product of two column vectors.
    pub fn dot(&self, rhs: &Self) -> (r: T)
        requires
            self.wf(),
            rhs.wf(),
            forall|k: int|
                #![trigger self.entry(k, 0), rhs.entry(k, 0)]
                0 <= k < R ==> T::in_range(self.entry(k, 0) * rhs.entry(k, 0)),
            forall|k: int|
                0 < k <= R ==> T::in_range(#[trigger] dot_prefix(
                    self.col_seq(0),
                    rhs.col_seq(0),
                    k,
                )),
        ensures
            r.as_int() == dot_prefix(self.col_seq(0), rhs.col_seq(0), R as int),
    {
        let mut acc: T = T::zero();
        let mut k: usize = 0;
        while k < R
            invariant
                self.wf(),
                rhs.wf(),
                forall|t: int|
                    #![trigger self.entry(t, 0), rhs.entry(t, 0)]
                    0 <= t < R ==> T::in_range(self.entry(t, 0) * rhs.entry(t, 0)),
                forall|t: int|
                    0 < t <= R ==> T::in_range(#[trigger] dot_prefix(
                        self.col_seq(0),
                        rhs.col_seq(0),
                        t,
                    )),
                k <= R,
                acc.as_int() == dot_prefix(self.col_seq(0), rhs.col_seq(0), k as int),
            decreases R - k,
        {
            let p = self.at(k, 0).times(rhs.at(k, 0));
            proof {
                assert(dot_prefix(self.col_seq(0), rhs.col_seq(0), k + 1) == dot_prefix(
                    self.col_seq(0),
                    rhs.col_seq(0),
                    k as int,
                ) + self.entry(k as int, 0) * rhs.entry(k as int, 0));
            }
            acc = acc.plus(p);
            k = k + 1;
        }
        acc
    }
}

impl<T: Numeric> Vector<T, 3> {
    /// The column vector with components `x`, `y`, `z`.
    pub fn xyz(x: T, y: T, z: T) -> (r: Self)
        ensures
            r.wf(),
            r.entry(0, 0) == x.as_int(),
            r.entry(1, 0) == y.as_int(),
            r.entry(2, 0) == z.as_int(),
    {
        let mut data: Vec<T> = Vec::new();
        data.push(x);
        data.push(y);
        data.push(z);
        Matrix { data }
    }

    pub fn x(&self) -> (r: T)
        requires
            self.wf(),
        ensures
            r.as_int() == self.entry(0, 0),
    {
        self.at(0, 0)
    }

    pub fn y(&self) -> (r: T)
        requires
            self.wf(),
        ensures
            r.as_int() == self.entry(1, 0),
    {
        self.at(1, 0)
    }

    pub fn z(&self) -> (r: T)
        requires
            self.wf(),
        ensures
            r.as_int() == self.entry(2, 0),
    {
        self.at(2, 0)
    }

    /// The cross product of two three-dimensional vectors.
    pub fn cross(&self, rhs: &Self) -> (r: Self)
        requires
            self.wf(),
            rhs.wf(),
            T::in_range(self.entry(1, 0) * rhs.entry(2, 0)),
            T::in_range(self.entry(2, 0) * rhs.entry(1, 0)),
            T::in_range(self.entry(1, 0) * rhs.entry(2, 0) - self.entry(2, 0) * rhs.entry(1, 0)),
            T::in_range(self.entry(2, 0) * rhs.entry(0, 0)),
            T::in_range(self.entry(0, 0) * rhs.entry(2, 0)),
            T::in_range(self.entry(2, 0) * rhs.entry(0, 0) - self.entry(0, 0) * rhs.entry(2, 0)),
            T::in_range(self.entry(0, 0) * rhs.entry(1, 0)),
            T::in_range(self.entry(1, 0) * rhs.entry(0, 0)),
            T::in_range(self.entry(0, 0) * rhs.entry(1, 0) - self.entry(1, 0) * rhs.entry(0, 0)),
        ensures
            r.wf(),
            r.entry(0, 0) == self.entry(1, 0) * rhs.entry(2, 0) - self.entry(2, 0) * rhs.entry(
                1,
                0,
            ),
            r.entry(1, 0) == self.entry(2, 0) * rhs.entry(0, 0) - self.entry(0, 0) * rhs.entry(
                2,
                0,
            ),
            r.entry(2, 0) == self.entry(0, 0) * rhs.entry(1, 0) - self.entry(1, 0) * rhs.entry(
                0,
                0,
            ),
    {
        Self::xyz(
            self.y().times(rhs.z()).minus(self.z().times(rhs.y())),
            self.z().times(rhs.x()).minus(self.x().times(rhs.z())),
            self.x().times(rhs.y()).minus(self.y().times(rhs.x())),
        )
    }

    /// The vector extended with a unit homogeneous coordinate.
    pub fn homogeneous(&self) -> (r: Vector<T, 4>)
        requires
            self.wf(),
        ensures
            r.wf(),
            r.entry(0, 0) == self.entry(0, 0),
            r.entry(1, 0) == self.entry(1, 0),
            r.entry(2, 0) == self.entry(2, 0),
            r.entry(3, 0) == 1,
    {
        let mut data: Vec<T> = Vec::new();
        data.push(self.at(0, 0));
        data.push(self.at(1, 0));
        data.push(self.at(2, 0));
        data.push(T::one());
        Matrix { data }
    }
}

impl<T: Numeric> Vector<T, 2> {
    /// The column vector with components `x`, `y`.
    pub fn xy(x: T, y: T) -> (r: Self)
        ensures
            r.wf(),
            r.entry(0, 0) == x.as_int(),
            r.entry(1, 0) == y.as_int(),
    {
        let mut data: Vec<T> = Vec::new();
        data.push(x);
        data.push(y);
        Matrix { data }
    }

    pub fn x(&self) -> (r: T)
        requires
            self.wf(),
        ensures
            r.as_int() == self.entry(0, 0),
    {
        self.at(0, 0)
    }

    pub fn y(&self) -> (r: T)
        requires
            self.wf(),
        ensures
            r.as_int() == self.entry(1, 0),
    {
        self.at(1, 0)
    }
}

/// Distinct cells of a row-major grid with `c` columns have distinct indices.
proof fn lemma_row_major_distinct(i1: int, j1: int, i2: int, j2: int, c: int)
    requires
        0 <= i1,
        0 <= i2,
        0 <= j1 < c,
        0 <= j2 < c,
        !(i1 == i2 && j1 == j2),
    ensures
        i1 * c + j1 != i2 * c + j2,
{
    if i1 < i2 || (i1 == i2 && j1 < j2) {
        lemma_row_major_before(i1, j1, i2, j2, c);
    } else {
        lemma_row_major_before(i2, j2, i1, j1, c);
    }
}

} // verus!
