use vstd::prelude::*;

use crate::rational::Rational;
use nalgebra::DMatrix;

verus! {

/// A dense matrix of exact fractions, stored in an nalgebra `DMatrix`.
#[verifier::external_body]
pub struct DenseMatrix {
    inner: DMatrix<Rational>,
}

/// The entries of a dense matrix, row by row.
pub uninterp spec fn entries(m: DenseMatrix) -> Seq<Seq<Rational>>;

/// The number of columns of a dense matrix, also when it has no rows.
pub uninterp spec fn columns(m: DenseMatrix) -> nat;

impl DenseMatrix {
    /// Relies on nalgebra's `DMatrix::from_element`: an `nrows × ncols`
    /// matrix with every entry `v`.
    #[verifier::external_body]
    pub(crate) fn filled(nrows: usize, ncols: usize, v: Rational) -> (r: DenseMatrix)
        requires
            nrows * ncols <= isize::MAX / 16,
        ensures
            entries(r).len() == nrows,
            columns(r) == ncols,
            forall|i: int| 0 <= i < nrows ==> (#[trigger] entries(r)[i]).len() == ncols,
            forall|i: int, j: int|
                0 <= i < nrows && 0 <= j < ncols ==> #[trigger] entries(r)[i][j] == v,
    {
        DenseMatrix { inner: DMatrix::from_element(nrows, ncols, v) }
    }

    /// Relies on nalgebra's `Matrix::nrows`: the number of rows.
    #[verifier::external_body]
    pub(crate) fn row_count(&self) -> (r: usize)
        ensures
            r == entries(*self).len(),
    {
        self.inner.nrows()
    }

    /// Relies on nalgebra's `Matrix::ncols`: the length of every row.
    #[verifier::external_body]
    pub(crate) fn col_count(&self) -> (r: usize)
        ensures
            r == columns(*self),
            forall|i: int| 0 <= i < entries(*self).len() ==> (#[trigger] entries(*self)[i]).len() == r,
    {
        self.inner.ncols()
    }

    /// Relies on nalgebra's `Index<(usize, usize)>` for `Matrix`: the entry
    /// at row `i`, column `j`; it panics out of bounds.
    #[verifier::external_body]
    pub(crate) fn entry(&self, i: usize, j: usize) -> (r: Rational)
        requires
            i < entries(*self).len(),
            j < entries(*self)[i as int].len(),
        ensures
            r == entries(*self)[i as int][j as int],
    {
        self.inner[(i, j)]
    }

    /// Relies on nalgebra's `IndexMut<(usize, usize)>` for `Matrix`: replaces
    /// the entry at row `i`, column `j`; it panics out of bounds.
    #[verifier::external_body]
    pub(crate) fn put(&mut self, i: usize, j: usize, v: Rational)
        requires
            i < entries(*old(self)).len(),
            j < entries(*old(self))[i as int].len(),
        ensures
            columns(*final(self)) == columns(*old(self)),
            entries(*final(self)) == entries(*old(self)).update(
                i as int,
                entries(*old(self))[i as int].update(j as int, v),
            ),
    {
        self.inner[(i, j)] = v;
    }
}

impl DenseMatrix {
    /// The number of rows.
    pub fn nrows(&self) -> (r: usize)
        ensures
            r == entries(*self).len(),
    {
        self.row_count()
    }

    /// The number of columns.
    pub fn ncols(&self) -> (r: usize)
        ensures
            r == columns(*self),
            forall|i: int| 0 <= i < entries(*self).len() ==> (#[trigger] entries(*self)[i]).len() == r,
    {
        self.col_count()
    }

    /// The entry at row `i`, column `j`.
    pub fn get(&self, i: usize, j: usize) -> (r: Rational)
        requires
            i < entries(*self).len(),
            j < entries(*self)[i as int].len(),
        ensures
            r == entries(*self)[i as int][j as int],
    {
        self.entry(i, j)
    }

    /// An `nrows × ncols` matrix read row by row from `data`.
    pub fn from_row_slice(nrows: usize, ncols: usize, data: &[Rational]) -> (r: DenseMatrix)
        requires
            data@.len() == nrows * ncols,
            nrows * ncols <= isize::MAX / 16,
        ensures
            entries(r).len() == nrows,
            columns(r) == ncols,
            forall|i: int| 0 <= i < nrows ==> (#[trigger] entries(r)[i]).len() == ncols,
            forall|i: int, j: int|
                0 <= i < nrows && 0 <= j < ncols ==> #[trigger] entries(r)[i][j] == data@[i * ncols + j],
    {
        let mut m = DenseMatrix::filled(nrows, ncols, Rational::from_int(0));
        let mut i: usize = 0;
        let mut k: usize = 0;
        while i < nrows
            invariant
                data@.len() == nrows * ncols,
                i <= nrows,
                k == i * ncols,
                columns(m) == ncols,
                entries(m).len() == nrows,
                forall|a: int| 0 <= a < nrows ==> (#[trigger] entries(m)[a]).len() == ncols,
                forall|a: int, b: int|
                    0 <= a < i && 0 <= b < ncols ==> #[trigger] entries(m)[a][b] == data@[a * ncols + b],
            decreases nrows - i,
        {
            assert((i + 1) * ncols <= nrows * ncols && (i + 1) * ncols == i * ncols + ncols)
                by (nonlinear_arith)
                requires
                    i < nrows,
            ;
            let mut j: usize = 0;
            while j < ncols
                invariant
                    data@.len() == nrows * ncols,
                    i < nrows,
                    j <= ncols,
                    k == i * ncols + j,
                    (i + 1) * ncols <= nrows * ncols,
                    (i + 1) * ncols == i * ncols + ncols,
                    columns(m) == ncols,
                    entries(m).len() == nrows,
                    forall|a: int| 0 <= a < nrows ==> (#[trigger] entries(m)[a]).len() == ncols,
                    forall|a: int, b: int|
                        0 <= a < i && 0 <= b < ncols ==> #[trigger] entries(m)[a][b] == data@[a * ncols + b],
                    forall|b: int| 0 <= b < j ==> #[trigger] entries(m)[i as int][b] == data@[i * ncols + b],
                decreases ncols - j,
            {
                m.put(i, j, data[k]);
                j += 1;
                k += 1;
            }
            i += 1;
        }
        m
    }
}

} // verus!
