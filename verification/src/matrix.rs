//! Dense two-dimensional container for the daylight-coefficient pipeline.
//!
//! A matrix owns `rows * cols` values of a single element type in row-major
//! order. Out-of-range access and shape mismatches are reported as errors,
//! never as panics.

use vstd::prelude::*;

verus! {

/// Errors reported by matrix operations.
#[derive(Debug, Clone, Copy, PartialEq, Eq, Structural)]
pub enum MatrixError {
    /// A row/column pair outside the declared size was addressed.
    OutOfBounds { row: usize, col: usize },
    /// Two matrices whose column counts differ were combined row-wise.
    DimensionMismatch { left_cols: usize, right_cols: usize },
    /// A flat data vector does not hold exactly `rows * cols` elements.
    SizeMismatch { rows: usize, cols: usize, len: usize },
}

/// A three-channel value: one component per colour channel.
#[derive(Debug, Clone, Copy, PartialEq, Eq, Structural)]
pub struct Colour<T> {
    /// The red channel.
    pub red: T,
    /// The green channel.
    pub green: T,
    /// The blue channel.
    pub blue: T,
}

/// Dense `rows x cols` grid of `T`, stored row-major.
#[derive(Debug, Clone)]
pub struct Matrix<T> {
    rows: usize,
    cols: usize,
    data: Vec<T>,
}

/// Index arithmetic fact: a valid (row, col) pair addresses a cell inside
/// the row-major data vector.
pub proof fn lemma_row_major_index(row: int, col: int, rows: int, cols: int) by (nonlinear_arith)
    requires
        0 <= row < rows,
        0 <= col < cols,
    ensures
        0 <= row * cols + col < rows * cols,
{
}

/// Index arithmetic fact: distinct (row, col) pairs address distinct cells
/// of the row-major data vector.
pub proof fn lemma_row_major_injective(r1: int, c1: int, r2: int, c2: int, cols: int) by (nonlinear_arith)
    requires
        0 <= c1 < cols,
        0 <= c2 < cols,
        r1 >= 0,
        r2 >= 0,
        r1 * cols + c1 == r2 * cols + c2,
    ensures
        r1 == r2,
        c1 == c2,
{
}

impl<T> Matrix<T> {
    /// Declared number of rows.
    pub closed spec fn spec_rows(&self) -> nat {
        self.rows as nat
    }

    /// Declared number of columns.
    pub closed spec fn spec_cols(&self) -> nat {
        self.cols as nat
    }

    /// The stored elements, row-major.
    pub closed spec fn spec_data(&self) -> Seq<T> {
        self.data@
    }

    /// Well-formedness: the data vector holds exactly one element per cell.
    pub open spec fn wf(&self) -> bool {
        self.spec_data().len() == self.spec_rows() * self.spec_cols()
    }

    /// The element stored at (`r`, `c`).
    pub open spec fn entry(&self, r: int, c: int) -> T {
        self.spec_data()[r * self.spec_cols() + c]
    }

    /// Borrows the row-major data vector.
    pub fn row_major_data(&self) -> (d: &Vec<T>)
        ensures
            d@ == self.spec_data(),
    {
        &self.data
    }

    /// The 0 x 0 matrix.
    pub fn empty() -> (m: Matrix<T>)
        ensures
            m.wf(),
            m.spec_rows() == 0,
            m.spec_cols() == 0,
            m.spec_data().len() == 0,
    {
        Matrix { rows: 0, cols: 0, data: Vec::new() }
    }

    /// Builds a matrix from its dimensions and a row-major data vector;
    /// fails if the vector length does not match.
    pub fn from_vec(rows: usize, cols: usize, data: Vec<T>) -> (r: Result<Matrix<T>, MatrixError>)
        ensures
            rows * cols == data@.len() ==> (r matches Ok(m) && m.wf() && m.spec_rows() == rows
                && m.spec_cols() == cols && m.spec_data() == data@),
            rows * cols != data@.len() ==> r == Err::<Matrix<T>, MatrixError>(
                MatrixError::SizeMismatch { rows, cols, len: data.len() },
            ),
    {
        match rows.checked_mul(cols) {
            Some(n) if n == data.len() => Ok(Matrix { rows, cols, data }),
            _ => Err(MatrixError::SizeMismatch { rows, cols, len: data.len() }),
        }
    }

    /// Declared size as (rows, cols).
    pub fn size(&self) -> (s: (usize, usize))
        ensures
            s.0 == self.spec_rows(),
            s.1 == self.spec_cols(),
    {
        (self.rows, self.cols)
    }

    /// True when the matrix has no cells in at least one direction.
    pub fn is_empty(&self) -> (r: bool)
        ensures
            r <==> (self.spec_rows() == 0 || self.spec_cols() == 0),
    {
        self.rows == 0 || self.cols == 0
    }

    /// Borrows the element at (`row`, `col`), or reports which index was out
    /// of range.
    pub fn get_ref(&self, row: usize, col: usize) -> (r: Result<&T, MatrixError>)
        requires
            self.wf(),
        ensures
            row < self.spec_rows() && col < self.spec_cols() ==> (r matches Ok(v) && *v
                == self.entry(row as int, col as int)),
            !(row < self.spec_rows() && col < self.spec_cols()) ==> r == Err::<&T, MatrixError>(
                MatrixError::OutOfBounds { row, col },
            ),
    {
        if row < self.rows && col < self.cols {
            let n: usize = self.data.len();
            proof {
                lemma_row_major_index(row as int, col as int, self.rows as int, self.cols as int);
            }
            Ok(&self.data[row * self.cols + col])
        } else {
            Err(MatrixError::OutOfBounds { row, col })
        }
    }

    /// Overwrites the element at (`row`, `col`), or reports which index was
    /// out of range; the matrix is unchanged on failure.
    pub fn set(&mut self, row: usize, col: usize, value: T) -> (r: Result<(), MatrixError>)
        requires
            old(self).wf(),
        ensures
            final(self).wf(),
            final(self).spec_rows() == old(self).spec_rows(),
            final(self).spec_cols() == old(self).spec_cols(),
            row < old(self).spec_rows() && col < old(self).spec_cols() ==> r == Ok::<
                (),
                MatrixError,
            >(()) && final(self).spec_data() == old(self).spec_data().update(
                row * old(self).spec_cols() + col,
                value,
            ),
            !(row < old(self).spec_rows() && col < old(self).spec_cols()) ==> r == Err::<
                (),
                MatrixError,
            >(MatrixError::OutOfBounds { row, col })
                && final(self).spec_data() == old(self).spec_data(),
    {
        if row < self.rows && col < self.cols {
            let n: usize = self.data.len();
            proof {
                lemma_row_major_index(row as int, col as int, self.rows as int, self.cols as int);
            }
            self.data.set(row * self.cols + col, value);
            Ok(())
        } else {
            Err(MatrixError::OutOfBounds { row, col })
        }
    }
}

impl<T: Copy> Matrix<T> {
    /// Allocates a `rows x cols` matrix with every cell set to `fill`.
    pub fn new(fill: T, rows: usize, cols: usize) -> (m: Matrix<T>)
        requires
            rows * cols <= usize::MAX,
        ensures
            m.wf(),
            m.spec_rows() == rows,
            m.spec_cols() == cols,
            forall|k: int| 0 <= k < m.spec_data().len() ==> m.spec_data()[k] == fill,
    {
        proof {
            vstd::arithmetic::mul::lemma_mul_nonnegative(rows as int, cols as int);
        }
        let n: usize = rows * cols;
        let mut data: Vec<T> = Vec::new();
        let mut k: usize = 0;
        while k < n
            invariant
                k <= n,
                data@.len() == k,
                forall|j: int| 0 <= j < k ==> data@[j] == fill,
            decreases n - k,
        {
            data.push(fill);
            k = k + 1;
        }
        Matrix { rows, cols, data }
    }

    /// Returns the element at (`row`, `col`), or reports which index was out
    /// of range.
    pub fn get(&self, row: usize, col: usize) -> (r: Result<T, MatrixError>)
        requires
            self.wf(),
        ensures
            row < self.spec_rows() && col < self.spec_cols() ==> r == Ok::<T, MatrixError>(
                self.entry(row as int, col as int),
            ),
            !(row < self.spec_rows() && col < self.spec_cols()) ==> r == Err::<T, MatrixError>(
                MatrixError::OutOfBounds { row, col },
            ),
    {
        if row < self.rows && col < self.cols {
            let n: usize = self.data.len();
            proof {
                lemma_row_major_index(row as int, col as int, self.rows as int, self.cols as int);
            }
            Ok(self.data[row * self.cols + col])
        } else {
            Err(MatrixError::OutOfBounds { row, col })
        }
    }

    /// Appends the rows of `other` below the rows of `self`. Fails, leaving
    /// `self` unchanged, exactly when the column counts differ.
    pub fn concat_rows(&mut self, other: &Matrix<T>) -> (r: Result<(), MatrixError>)
        requires
            old(self).wf(),
            other.wf(),
            old(self).spec_rows() + other.spec_rows() <= usize::MAX,
        ensures
            final(self).wf(),
            old(self).spec_cols() == other.spec_cols() ==> r == Ok::<(), MatrixError>(())
                && final(self).spec_cols() == old(self).spec_cols()
                && final(self).spec_rows() == old(self).spec_rows() + other.spec_rows()
                && final(self).spec_data() == old(self).spec_data() + other.spec_data(),
            old(self).spec_cols() != other.spec_cols() ==> r == Err::<(), MatrixError>(
                MatrixError::DimensionMismatch {
                    left_cols: old(self).spec_cols() as usize,
                    right_cols: other.spec_cols() as usize,
                },
            ) && *final(self) == *old(self),
    {
        if self.cols != other.cols {
            return Err(MatrixError::DimensionMismatch {
                left_cols: self.cols,
                right_cols: other.cols,
            });
        }
        let mut k: usize = 0;
        let n: usize = other.data.len();
        while k < n
            invariant
                k <= n,
                n == other.spec_data().len(),
                self.rows == old(self).rows,
                self.cols == old(self).cols,
                self.data@ == old(self).spec_data() + other.spec_data().take(k as int),
            decreases n - k,
        {
            self.data.push(other.data[k]);
            proof {
                assert(other.spec_data().take(k + 1) == other.spec_data().take(k as int).push(
                    other.spec_data()[k as int],
                ));
            }
            k = k + 1;
        }
        proof {
            assert(other.spec_data().take(n as int) == other.spec_data());
            vstd::arithmetic::mul::lemma_mul_is_distributive_add_other_way(
                self.cols as int,
                old(self).rows as int,
                other.rows as int,
            );
        }
        self.rows = self.rows + other.rows;
        Ok(())
    }
}

} // verus!
