use vstd::prelude::*;
use vstd::arithmetic::div_mod::{lemma_fundamental_div_mod, lemma_fundamental_div_mod_converse};
use vstd::arithmetic::div_mod::lemma_mod_pos_bound;
use crate::scalar::{Scalar, sum_of, scalar_identity_laws, lemma_scalar_identity_laws_i64, lemma_add_sub_cancel_i64};

verus! {

/// The conditions under which an operation of this crate refuses to work.
/// All of them are invariant violations on the caller's side; no operation
/// retries or recovers, the error is handed straight back.
#[derive(Clone, Copy, Debug, PartialEq, Eq, Structural)]
pub enum Error {
    /// An elementwise operation or a dot product was asked of matrices with
    /// incompatible dimensions.
    ShapeMismatch,
    /// An element, row or column access lay beyond the matrix bounds.
    IndexOutOfRange,
    /// A loss computation was given a target vector with no entry equal to one.
    ClassNotFound,
    /// A network was finalized from a builder whose layer declarations do not
    /// form a consistent architecture.
    TopologyMismatch,
}

/// A dense two-dimensional container: a flat, row-major buffer together with
/// its row and column counts. Element `(i, j)` lives at `data[i * cols + j]`.
/// Every arithmetic operation yields a fresh matrix; buffers are never shared.
#[derive(Debug)]
pub struct Matrix<T> {
    pub rows: usize,
    pub cols: usize,
    pub data: Vec<T>,
}

impl<T> Matrix<T> {
    /// The one invariant of the type: the buffer holds exactly
    /// `rows * cols` elements.
    pub open spec fn wf(self) -> bool {
        self.data@.len() == self.rows * self.cols
    }

    /// The element at row `i`, column `j` of the row-major buffer.
    pub open spec fn idx(self, i: int, j: int) -> T {
        self.data@[i * (self.cols as int) + j]
    }

    /// Row `i` as a sequence: a contiguous slice of the buffer.
    pub open spec fn row_view(self, i: int) -> Seq<T> {
        self.data@.subrange(i * (self.cols as int), i * (self.cols as int) + (self.cols as int))
    }

    /// Column `j` as a sequence, one element out of each row.
    pub open spec fn col_view(self, j: int) -> Seq<T> {
        Seq::new(self.rows as nat, |i: int| self.idx(i, j))
    }
}

/// `t` holds, entry for entry, the transpose of `m`.
pub open spec fn is_transpose<T>(t: Matrix<T>, m: Matrix<T>) -> bool {
    &&& t.rows == m.cols
    &&& t.cols == m.rows
    &&& forall|i: int, j: int|
        0 <= i < m.rows && 0 <= j < m.cols ==> #[trigger] t.idx(j, i) == m.idx(i, j)
}

/// A row-major position computed from in-range row and column indices lies
/// within the buffer.
pub proof fn lemma_index_bound(i: int, j: int, rows: int, cols: int)
    requires
        0 <= i < rows,
        0 <= j < cols,
    ensures
        0 <= i * cols + j < rows * cols,
{
    assert(0 <= i * cols + j < rows * cols) by (nonlinear_arith)
        requires
            0 <= i < rows,
            0 <= j < cols,
    ;
}

/// Bounds used whenever a row-major position is computed in executable code:
/// the position lies in the buffer, the row it belongs to ends within the
/// buffer, and the buffer length fits the machine word.
proof fn lemma_flat_bound<T>(m: Matrix<T>, i: int, j: int)
    requires
        m.wf(),
        0 <= i < m.rows,
        0 <= j < m.cols,
    ensures
        0 <= i * (m.cols as int) + j < m.data@.len(),
        i * (m.cols as int) + (m.cols as int) <= m.data@.len(),
        m.data@.len() <= usize::MAX,
{
    lemma_index_bound(i, j, m.rows as int, m.cols as int);
    vstd::std_specs::vec::axiom_spec_len(&m.data);
    assert(i * (m.cols as int) + (m.cols as int) <= (m.rows as int) * (m.cols as int))
        by (nonlinear_arith)
        requires
            0 <= i < m.rows,
            0 <= m.cols,
    ;
}

/// A well-formed matrix whose every cell agrees with `s` at the corresponding
/// row-major position has exactly `s` as its buffer.
pub proof fn lemma_cells_determine_data<T>(m: Matrix<T>, s: Seq<T>)
    requires
        m.wf(),
        s.len() == m.rows * m.cols,
        forall|i: int, j: int|
            0 <= i < m.rows && 0 <= j < m.cols ==> #[trigger] m.idx(i, j) == s[i * (m.cols as int) + j],
    ensures
        m.data@ == s,
{
    let c = m.cols as int;
    assert forall|k: int| 0 <= k < m.data@.len() implies m.data@[k] == s[k] by {
        assert(c > 0) by (nonlinear_arith)
            requires
                0 <= k < (m.rows as int) * c,
                c >= 0,
        ;
        lemma_fundamental_div_mod(k, c);
        lemma_mod_pos_bound(k, c);
        let i = k / c;
        let j = k % c;
        assert(i < m.rows) by (nonlinear_arith)
            requires
                k == c * i + j,
                0 <= j < c,
                k < (m.rows as int) * c,
                0 <= i,
        ;
        assert(m.idx(i, j) == s[i * c + j]);
        assert(i * c + j == k);
    }
    assert(m.data@ =~= s);
}

/// Transposing a transpose restores the original matrix. The two transposes
/// may have been produced by any means; only the entry relation matters.
pub proof fn lemma_transpose_involution<T>(a: Matrix<T>, b: Matrix<T>, c: Matrix<T>)
    requires
        a.wf(),
        c.wf(),
        is_transpose(b, a),
        is_transpose(c, b),
    ensures
        c.rows == a.rows,
        c.cols == a.cols,
        c.data@ == a.data@,
{
    assert forall|i: int, j: int|
        0 <= i < a.rows && 0 <= j < a.cols implies #[trigger] c.idx(i, j) == a.data@[i * (a.cols as int)
        + j] by {
        assert(b.idx(j, i) == a.idx(i, j));
        assert(c.idx(i, j) == b.idx(j, i));
    }
    lemma_cells_determine_data(c, a.data@);
}

impl<T: Copy> Matrix<T> {
    /// A `rows` by `cols` matrix with every entry equal to `value`.
    fn filled(rows: usize, cols: usize, value: T) -> (r: Matrix<T>)
        requires
            rows * cols <= usize::MAX,
        ensures
            r.wf(),
            r.rows == rows,
            r.cols == cols,
            forall|k: int| 0 <= k < r.data@.len() ==> r.data@[k] == value,
    {
        let n = rows * cols;
        let mut data: Vec<T> = Vec::new();
        let mut k: usize = 0;
        while k < n
            invariant
                k <= n,
                data@.len() == k,
                forall|q: int| 0 <= q < k ==> data@[q] == value,
            decreases n - k,
        {
            data.push(value);
            k = k + 1;
        }
        Matrix { rows, cols, data }
    }
}

impl<T: Scalar> Matrix<T> {
    /// A `rows` by `cols` matrix of zeros.
    pub fn new(rows: usize, cols: usize) -> (r: Matrix<T>)
        requires
            rows * cols <= usize::MAX,
        ensures
            r.wf(),
            r.rows == rows,
            r.cols == cols,
            forall|k: int| 0 <= k < r.data@.len() ==> r.data@[k] == T::zero_spec(),
    {
        Matrix::filled(rows, cols, T::zero())
    }

    /// A `rows` by `cols` matrix of ones.
    pub fn ones(rows: usize, cols: usize) -> (r: Matrix<T>)
        requires
            rows * cols <= usize::MAX,
        ensures
            r.wf(),
            r.rows == rows,
            r.cols == cols,
            forall|k: int| 0 <= k < r.data@.len() ==> r.data@[k] == T::one_spec(),
    {
        Matrix::filled(rows, cols, T::one())
    }
}

impl<T> Matrix<T> {
    /// The zero-by-zero matrix.
    pub fn empty() -> (r: Matrix<T>)
        ensures
            r.wf(),
            r.rows == 0,
            r.cols == 0,
            r.data@.len() == 0,
    {
        Matrix { rows: 0, cols: 0, data: Vec::new() }
    }

    /// A matrix that takes ownership of an existing row-major buffer. This is
    /// the seam through which callers inject externally produced values, such
    /// as randomly drawn initial weights.
    pub fn from_vec(rows: usize, cols: usize, data: Vec<T>) -> (r: Matrix<T>)
        requires
            data@.len() == rows * cols,
        ensures
            r.wf(),
            r.rows == rows,
            r.cols == cols,
            r.data@ == data@,
    {
        Matrix { rows, cols, data }
    }
}

impl<T: Copy> Matrix<T> {
    /// The element at `(row, col)`, or `IndexOutOfRange` when either index
    /// lies beyond the shape.
    pub fn get(&self, row: usize, col: usize) -> (r: Result<T, Error>)
        requires
            self.wf(),
        ensures
            row < self.rows && col < self.cols ==> r == Ok::<T, Error>(
                self.idx(row as int, col as int),
            ),
            !(row < self.rows && col < self.cols) ==> r == Err::<T, Error>(Error::IndexOutOfRange),
    {
        if row < self.rows && col < self.cols {
            proof {
                lemma_flat_bound(*self, row as int, col as int);
            }
            Ok(self.data[row * self.cols + col])
        } else {
            Err(Error::IndexOutOfRange)
        }
    }

    /// Overwrites the element at `(row, col)`, or reports `IndexOutOfRange`
    /// and leaves the matrix untouched.
    pub fn set(&mut self, row: usize, col: usize, value: T) -> (r: Result<(), Error>)
        requires
            old(self).wf(),
        ensures
            final(self).wf(),
            final(self).rows == old(self).rows,
            final(self).cols == old(self).cols,
            row < old(self).rows && col < old(self).cols ==> r == Ok::<(), Error>(())
                && final(self).data@ == old(self).data@.update(
                row * (old(self).cols as int) + col,
                value,
            ),
            !(row < old(self).rows && col < old(self).cols) ==> r == Err::<(), Error>(
                Error::IndexOutOfRange,
            ) && final(self).data@ == old(self).data@,
    {
        if row < self.rows && col < self.cols {
            proof {
                lemma_flat_bound(*self, row as int, col as int);
            }
            let k = row * self.cols + col;
            self.data[k] = value;
            Ok(())
        } else {
            Err(Error::IndexOutOfRange)
        }
    }

    /// Row `i` as a fresh one-by-`cols` matrix, or `IndexOutOfRange`.
    pub fn row(&self, i: usize) -> (r: Result<Matrix<T>, Error>)
        requires
            self.wf(),
        ensures
            i < self.rows ==> (r matches Ok(m) && m.wf() && m.rows == 1 && m.cols == self.cols
                && m.data@ == self.row_view(i as int)),
            i >= self.rows ==> r == Err::<Matrix<T>, Error>(Error::IndexOutOfRange),
    {
        if i < self.rows {
            let mut data: Vec<T> = Vec::new();
            let mut k: usize = 0;
            while k < self.cols
                invariant
                    self.wf(),
                    i < self.rows,
                    k <= self.cols,
                    data@.len() == k,
                    forall|q: int| 0 <= q < k ==> data@[q] == self.idx(i as int, q),
                decreases self.cols - k,
            {
                proof {
                    lemma_flat_bound(*self, i as int, k as int);
                }
                data.push(self.data[i * self.cols + k]);
                k = k + 1;
            }
            proof {
                if self.cols > 0 {
                    lemma_flat_bound(*self, i as int, 0);
                } else {
                    assert((i as int) * (self.cols as int) == 0) by (nonlinear_arith)
                        requires
                            (self.cols as int) == 0,
                    ;
                }
                assert forall|q: int| 0 <= q < self.cols implies data@[q] == self.row_view(
                    i as int,
                )[q] by {
                    assert(data@[q] == self.idx(i as int, q));
                }
                assert(data@ =~= self.row_view(i as int));
            }
            Ok(Matrix { rows: 1, cols: self.cols, data })
        } else {
            Err(Error::IndexOutOfRange)
        }
    }

    /// Column `j` as a fresh `rows`-by-one matrix, or `IndexOutOfRange`.
    pub fn col(&self, j: usize) -> (r: Result<Matrix<T>, Error>)
        requires
            self.wf(),
        ensures
            j < self.cols ==> (r matches Ok(m) && m.wf() && m.rows == self.rows && m.cols == 1
                && m.data@ == self.col_view(j as int)),
            j >= self.cols ==> r == Err::<Matrix<T>, Error>(Error::IndexOutOfRange),
    {
        if j < self.cols {
            let mut data: Vec<T> = Vec::new();
            let mut k: usize = 0;
            while k < self.rows
                invariant
                    self.wf(),
                    j < self.cols,
                    k <= self.rows,
                    data@.len() == k,
                    forall|q: int| 0 <= q < k ==> data@[q] == self.idx(q, j as int),
                decreases self.rows - k,
            {
                proof {
                    lemma_flat_bound(*self, k as int, j as int);
                }
                data.push(self.data[k * self.cols + j]);
                k = k + 1;
            }
            proof {
                assert(data@ =~= self.col_view(j as int));
            }
            Ok(Matrix { rows: self.rows, cols: 1, data })
        } else {
            Err(Error::IndexOutOfRange)
        }
    }

    /// The transpose: a fresh `cols`-by-`rows` matrix with `(i, j)` and
    /// `(j, i)` exchanged.
    pub fn t(&self) -> (r: Matrix<T>)
        requires
            self.wf(),
        ensures
            r.wf(),
            is_transpose(r, *self),
    {
        let mut data: Vec<T> = Vec::new();
        let mut i2: usize = 0;
        while i2 < self.cols
            invariant
                self.wf(),
                i2 <= self.cols,
                data@.len() == i2 * self.rows,
                forall|q: int|
                    0 <= q < data@.len() ==> #[trigger] data@[q] == self.idx(
                        q % (self.rows as int),
                        q / (self.rows as int),
                    ),
            decreases self.cols - i2,
        {
            let mut j2: usize = 0;
            while j2 < self.rows
                invariant
                    self.wf(),
                    i2 < self.cols,
                    j2 <= self.rows,
                    data@.len() == i2 * self.rows + j2,
                    forall|q: int|
                        0 <= q < data@.len() ==> #[trigger] data@[q] == self.idx(
                            q % (self.rows as int),
                            q / (self.rows as int),
                        ),
                decreases self.rows - j2,
            {
                proof {
                    lemma_flat_bound(*self, j2 as int, i2 as int);
                    lemma_fundamental_div_mod_converse(
                        (i2 as int) * (self.rows as int) + (j2 as int),
                        self.rows as int,
                        i2 as int,
                        j2 as int,
                    );
                }
                data.push(self.data[j2 * self.cols + i2]);
                j2 = j2 + 1;
            }
            i2 = i2 + 1;
            proof {
                assert(((i2 - 1) as int) * (self.rows as int) + self.rows == (i2 as int) * (
                self.rows as int)) by (nonlinear_arith);
            }
        }
        let r = Matrix { rows: self.cols, cols: self.rows, data };
        proof {
            assert((self.cols as int) * (self.rows as int) == (self.rows as int) * (
            self.cols as int)) by (nonlinear_arith);
            assert forall|i: int, j: int|
                0 <= i < self.rows && 0 <= j < self.cols implies #[trigger] r.idx(j, i) == self.idx(
                i,
                j,
            ) by {
                lemma_index_bound(j, i, self.cols as int, self.rows as int);
                lemma_fundamental_div_mod_converse(
                    j * (self.rows as int) + i,
                    self.rows as int,
                    j,
                    i,
                );
                assert(r.idx(j, i) == r.data@[j * (self.rows as int) + i]);
            }
        }
        r
    }
}

impl<T: Copy> Matrix<T> {
    /// A fresh matrix with the same shape and the same entries, owning its
    /// own buffer.
    pub fn duplicate(&self) -> (r: Matrix<T>)
        ensures
            r.rows == self.rows,
            r.cols == self.cols,
            r.data@ == self.data@,
    {
        let mut data: Vec<T> = Vec::new();
        let mut k: usize = 0;
        let n = self.data.len();
        while k < n
            invariant
                n == self.data@.len(),
                k <= n,
                data@.len() == k,
                forall|q: int| 0 <= q < k ==> data@[q] == self.data@[q],
            decreases n - k,
        {
            data.push(self.data[k]);
            k = k + 1;
        }
        proof {
            assert(data@ =~= self.data@);
        }
        Matrix { rows: self.rows, cols: self.cols, data }
    }
}

impl<T: Scalar> Matrix<T> {
    /// The total of all entries, accumulated left to right from zero over the
    /// row-major buffer.
    pub fn sum(&self) -> (r: T)
        requires
            self.wf(),
        ensures
            r == sum_of(self.data@),
    {
        let mut acc = T::zero();
        let mut k: usize = 0;
        while k < self.data.len()
            invariant
                k <= self.data@.len(),
                acc == sum_of(self.data@.take(k as int)),
            decreases self.data@.len() - k,
        {
            proof {
                assert(self.data@.take(k as int + 1).drop_last() =~= self.data@.take(k as int));
            }
            acc = acc.add(self.data[k]);
            k = k + 1;
        }
        proof {
            assert(self.data@.take(self.data@.len() as int) =~= self.data@);
        }
        acc
    }
}


/// The four elementwise arithmetic operations a matrix broadcast can perform.
#[derive(Clone, Copy)]
enum ElemOp {
    Plus,
    Minus,
    Times,
    Over,
}

spec fn elem_op_spec<T: Scalar>(op: ElemOp, a: T, b: T) -> T {
    match op {
        ElemOp::Plus => a.add_spec(b),
        ElemOp::Minus => a.sub_spec(b),
        ElemOp::Times => a.mul_spec(b),
        ElemOp::Over => a.div_spec(b),
    }
}

fn elem_op<T: Scalar>(op: ElemOp, a: T, b: T) -> (r: T)
    ensures
        r == elem_op_spec(op, a, b),
{
    match op {
        ElemOp::Plus => a.add(b),
        ElemOp::Minus => a.sub(b),
        ElemOp::Times => a.mul(b),
        ElemOp::Over => a.div(b),
    }
}

/// A fresh matrix whose entry `k` is `op` applied to the entries `k` of two
/// matrices of one shape.
fn zip_with<T: Scalar>(op: ElemOp, a: &Matrix<T>, b: &Matrix<T>) -> (r: Matrix<T>)
    requires
        a.wf(),
        b.wf(),
        a.rows == b.rows,
        a.cols == b.cols,
    ensures
        r.wf(),
        r.rows == a.rows,
        r.cols == a.cols,
        r.data@.len() == a.data@.len(),
        forall|k: int|
            0 <= k < r.data@.len() ==> #[trigger] r.data@[k] == elem_op_spec(
                op,
                a.data@[k],
                b.data@[k],
            ),
{
    let mut data: Vec<T> = Vec::new();
    let mut k: usize = 0;
    let n = a.data.len();
    while k < n
        invariant
            n == a.data@.len(),
            a.data@.len() == b.data@.len(),
            k <= n,
            data@.len() == k,
            forall|q: int|
                0 <= q < k ==> #[trigger] data@[q] == elem_op_spec(op, a.data@[q], b.data@[q]),
        decreases n - k,
    {
        data.push(elem_op(op, a.data[k], b.data[k]));
        k = k + 1;
    }
    Matrix { rows: a.rows, cols: a.cols, data }
}

/// A fresh matrix whose entry `k` is `op` applied to entry `k` of `a` and the
/// scalar `c`, broadcast over the whole buffer.
fn map_with<T: Scalar>(op: ElemOp, a: &Matrix<T>, c: T) -> (r: Matrix<T>)
    requires
        a.wf(),
    ensures
        r.wf(),
        r.rows == a.rows,
        r.cols == a.cols,
        r.data@.len() == a.data@.len(),
        forall|k: int|
            0 <= k < r.data@.len() ==> #[trigger] r.data@[k] == elem_op_spec(op, a.data@[k], c),
{
    let mut data: Vec<T> = Vec::new();
    let mut k: usize = 0;
    let n = a.data.len();
    while k < n
        invariant
            n == a.data@.len(),
            k <= n,
            data@.len() == k,
            forall|q: int| 0 <= q < k ==> #[trigger] data@[q] == elem_op_spec(op, a.data@[q], c),
        decreases n - k,
    {
        data.push(elem_op(op, a.data[k], c));
        k = k + 1;
    }
    Matrix { rows: a.rows, cols: a.cols, data }
}

/// The accumulation of products of paired entries, left to right from zero:
/// one cell of a matrix product.
pub open spec fn dot_cell<T: Scalar>(a: Seq<T>, b: Seq<T>) -> T
    decreases a.len(),
{
    if a.len() == 0 {
        T::zero_spec()
    } else {
        dot_cell(a.drop_last(), b.drop_last()).add_spec(a.last().mul_spec(b.last()))
    }
}

/// The row-major buffer of the matrix product of `a` and `b`: entry `k` is
/// the dot of row `k / cols(b)` of `a` with column `k % cols(b)` of `b`.
pub open spec fn dot_out<T: Scalar>(a: Matrix<T>, b: Matrix<T>) -> Seq<T> {
    Seq::new(
        ((a.rows as int) * (b.cols as int)) as nat,
        |k: int| dot_cell(a.row_view(k / (b.cols as int)), b.col_view(k % (b.cols as int))),
    )
}

impl<T: Scalar> Matrix<T> {
    /// Elementwise sum with a matrix of the same shape, or `ShapeMismatch`.
    pub fn add_mat(&self, rhs: &Matrix<T>) -> (r: Result<Matrix<T>, Error>)
        requires
            self.wf(),
            rhs.wf(),
        ensures
            self.rows == rhs.rows && self.cols == rhs.cols ==> (r matches Ok(m) && m.wf()
                && m.rows == self.rows && m.cols == self.cols && m.data@.len() == self.data@.len()
                && forall|k: int|
                0 <= k < m.data@.len() ==> #[trigger] m.data@[k] == self.data@[k].add_spec(
                    rhs.data@[k],
                )),
            !(self.rows == rhs.rows && self.cols == rhs.cols) ==> r == Err::<Matrix<T>, Error>(
                Error::ShapeMismatch,
            ),
    {
        if self.rows == rhs.rows && self.cols == rhs.cols {
            Ok(zip_with(ElemOp::Plus, self, rhs))
        } else {
            Err(Error::ShapeMismatch)
        }
    }

    /// Elementwise difference with a matrix of the same shape, or
    /// `ShapeMismatch`.
    pub fn sub_mat(&self, rhs: &Matrix<T>) -> (r: Result<Matrix<T>, Error>)
        requires
            self.wf(),
            rhs.wf(),
        ensures
            self.rows == rhs.rows && self.cols == rhs.cols ==> (r matches Ok(m) && m.wf()
                && m.rows == self.rows && m.cols == self.cols && m.data@.len() == self.data@.len()
                && forall|k: int|
                0 <= k < m.data@.len() ==> #[trigger] m.data@[k] == self.data@[k].sub_spec(
                    rhs.data@[k],
                )),
            !(self.rows == rhs.rows && self.cols == rhs.cols) ==> r == Err::<Matrix<T>, Error>(
                Error::ShapeMismatch,
            ),
    {
        if self.rows == rhs.rows && self.cols == rhs.cols {
            Ok(zip_with(ElemOp::Minus, self, rhs))
        } else {
            Err(Error::ShapeMismatch)
        }
    }

    /// Elementwise product with a matrix of the same shape, or
    /// `ShapeMismatch`.
    pub fn mul_mat(&self, rhs: &Matrix<T>) -> (r: Result<Matrix<T>, Error>)
        requires
            self.wf(),
            rhs.wf(),
        ensures
            self.rows == rhs.rows && self.cols == rhs.cols ==> (r matches Ok(m) && m.wf()
                && m.rows == self.rows && m.cols == self.cols && m.data@.len() == self.data@.len()
                && forall|k: int|
                0 <= k < m.data@.len() ==> #[trigger] m.data@[k] == self.data@[k].mul_spec(
                    rhs.data@[k],
                )),
            !(self.rows == rhs.rows && self.cols == rhs.cols) ==> r == Err::<Matrix<T>, Error>(
                Error::ShapeMismatch,
            ),
    {
        if self.rows == rhs.rows && self.cols == rhs.cols {
            Ok(zip_with(ElemOp::Times, self, rhs))
        } else {
            Err(Error::ShapeMismatch)
        }
    }

    /// Elementwise quotient with a matrix of the same shape, or
    /// `ShapeMismatch`.
    pub fn div_mat(&self, rhs: &Matrix<T>) -> (r: Result<Matrix<T>, Error>)
        requires
            self.wf(),
            rhs.wf(),
        ensures
            self.rows == rhs.rows && self.cols == rhs.cols ==> (r matches Ok(m) && m.wf()
                && m.rows == self.rows && m.cols == self.cols && m.data@.len() == self.data@.len()
                && forall|k: int|
                0 <= k < m.data@.len() ==> #[trigger] m.data@[k] == self.data@[k].div_spec(
                    rhs.data@[k],
                )),
            !(self.rows == rhs.rows && self.cols == rhs.cols) ==> r == Err::<Matrix<T>, Error>(
                Error::ShapeMismatch,
            ),
    {
        if self.rows == rhs.rows && self.cols == rhs.cols {
            Ok(zip_with(ElemOp::Over, self, rhs))
        } else {
            Err(Error::ShapeMismatch)
        }
    }

    /// The scalar `c` added to every entry.
    pub fn add_scalar(&self, c: T) -> (r: Matrix<T>)
        requires
            self.wf(),
        ensures
            r.wf(),
            r.rows == self.rows,
            r.cols == self.cols,
            r.data@.len() == self.data@.len(),
            forall|k: int|
                0 <= k < r.data@.len() ==> #[trigger] r.data@[k] == self.data@[k].add_spec(c),
    {
        map_with(ElemOp::Plus, self, c)
    }

    /// The scalar `c` subtracted from every entry.
    pub fn sub_scalar(&self, c: T) -> (r: Matrix<T>)
        requires
            self.wf(),
        ensures
            r.wf(),
            r.rows == self.rows,
            r.cols == self.cols,
            r.data@.len() == self.data@.len(),
            forall|k: int|
                0 <= k < r.data@.len() ==> #[trigger] r.data@[k] == self.data@[k].sub_spec(c),
    {
        map_with(ElemOp::Minus, self, c)
    }

    /// Every entry multiplied by the scalar `c`.
    pub fn mul_scalar(&self, c: T) -> (r: Matrix<T>)
        requires
            self.wf(),
        ensures
            r.wf(),
            r.rows == self.rows,
            r.cols == self.cols,
            r.data@.len() == self.data@.len(),
            forall|k: int|
                0 <= k < r.data@.len() ==> #[trigger] r.data@[k] == self.data@[k].mul_spec(c),
    {
        map_with(ElemOp::Times, self, c)
    }

    /// Every entry divided by the scalar `c`.
    pub fn div_scalar(&self, c: T) -> (r: Matrix<T>)
        requires
            self.wf(),
        ensures
            r.wf(),
            r.rows == self.rows,
            r.cols == self.cols,
            r.data@.len() == self.data@.len(),
            forall|k: int|
                0 <= k < r.data@.len() ==> #[trigger] r.data@[k] == self.data@[k].div_spec(c),
    {
        map_with(ElemOp::Over, self, c)
    }

    /// The matrix product, or `ShapeMismatch` unless `cols(self) == rows(rhs)`.
    ///
    /// The result has shape `rows(self)` by `cols(rhs)` and is stored
    /// row-major with stride `cols(rhs)`; cell `(i, j)` accumulates
    /// `self[i][k] * rhs[k][j]` over `k`, left to right from zero.
    pub fn dot(&self, rhs: &Matrix<T>) -> (r: Result<Matrix<T>, Error>)
        requires
            self.wf(),
            rhs.wf(),
        ensures
            self.cols == rhs.rows ==> (r matches Ok(m) && m.wf() && m.rows == self.rows && m.cols
                == rhs.cols && m.data@ == dot_out(*self, *rhs) && forall|i: int, j: int|
                0 <= i < m.rows && 0 <= j < m.cols ==> #[trigger] m.idx(i, j) == dot_cell(
                    self.row_view(i),
                    rhs.col_view(j),
                )),
            self.cols != rhs.rows ==> r == Err::<Matrix<T>, Error>(Error::ShapeMismatch),
    {
        if self.cols != rhs.rows {
            return Err(Error::ShapeMismatch);
        }
        let c2 = rhs.cols;
        let mut data: Vec<T> = Vec::new();
        let mut i: usize = 0;
        while i < self.rows
            invariant
                self.wf(),
                rhs.wf(),
                self.cols == rhs.rows,
                c2 == rhs.cols,
                i <= self.rows,
                data@.len() == i * c2,
                data@.len() <= dot_out(*self, *rhs).len(),
                forall|q: int| 0 <= q < data@.len() ==> #[trigger] data@[q] == dot_out(*self, *rhs)[q],
            decreases self.rows - i,
        {
            let mut j: usize = 0;
            while j < c2
                invariant
                    self.wf(),
                    rhs.wf(),
                    self.cols == rhs.rows,
                    c2 == rhs.cols,
                    i < self.rows,
                    j <= c2,
                    data@.len() == i * c2 + j,
                    data@.len() <= dot_out(*self, *rhs).len(),
                    forall|q: int|
                        0 <= q < data@.len() ==> #[trigger] data@[q] == dot_out(*self, *rhs)[q],
                decreases c2 - j,
            {
                let mut acc = T::zero();
                let mut k: usize = 0;
                proof {
                    assert(self.row_view(i as int).take(0) =~= Seq::<T>::empty());
                    assert(rhs.col_view(j as int).take(0) =~= Seq::<T>::empty());
                }
                while k < rhs.rows
                    invariant
                        self.wf(),
                        rhs.wf(),
                        self.cols == rhs.rows,
                        c2 == rhs.cols,
                        i < self.rows,
                        j < c2,
                        k <= rhs.rows,
                        acc == dot_cell(
                            self.row_view(i as int).take(k as int),
                            rhs.col_view(j as int).take(k as int),
                        ),
                    decreases rhs.rows - k,
                {
                    proof {
                        lemma_flat_bound(*self, i as int, k as int);
                        lemma_flat_bound(*rhs, k as int, j as int);
                        assert(self.row_view(i as int).take(k as int + 1).drop_last()
                            =~= self.row_view(i as int).take(k as int));
                        assert(rhs.col_view(j as int).take(k as int + 1).drop_last()
                            =~= rhs.col_view(j as int).take(k as int));
                    }
                    acc = acc.add(self.data[i * self.cols + k].mul(rhs.data[k * rhs.cols + j]));
                    k = k + 1;
                }
                proof {
                    if self.cols > 0 {
                        lemma_flat_bound(*self, i as int, 0);
                    } else {
                        assert((i as int) * (self.cols as int) == 0) by (nonlinear_arith)
                            requires
                                (self.cols as int) == 0,
                        ;
                    }
                    assert(self.row_view(i as int).take(rhs.rows as int) =~= self.row_view(
                        i as int,
                    ));
                    assert(rhs.col_view(j as int).take(rhs.rows as int) =~= rhs.col_view(j as int));
                    lemma_index_bound(i as int, j as int, self.rows as int, c2 as int);
                    lemma_fundamental_div_mod_converse(
                        (i as int) * (c2 as int) + (j as int),
                        c2 as int,
                        i as int,
                        j as int,
                    );
                }
                data.push(acc);
                j = j + 1;
            }
            i = i + 1;
            proof {
                assert(((i - 1) as int) * (c2 as int) + c2 == (i as int) * (c2 as int))
                    by (nonlinear_arith);
            }
        }
        let m = Matrix { rows: self.rows, cols: c2, data };
        proof {
            assert(m.data@ =~= dot_out(*self, *rhs));
            assert forall|i: int, j: int|
                0 <= i < m.rows && 0 <= j < m.cols implies #[trigger] m.idx(i, j) == dot_cell(
                self.row_view(i),
                rhs.col_view(j),
            ) by {
                lemma_index_bound(i, j, self.rows as int, c2 as int);
                lemma_fundamental_div_mod_converse(i * (c2 as int) + j, c2 as int, i, j);
            }
        }
        Ok(m)
    }
}


/// `m` is the `n` by `n` identity: ones on the diagonal, zeros elsewhere.
pub open spec fn is_identity<T: Scalar>(m: Matrix<T>, n: int) -> bool {
    &&& m.wf()
    &&& m.rows == n
    &&& m.cols == n
    &&& forall|i: int, j: int|
        0 <= i < n && 0 <= j < n ==> #[trigger] m.idx(i, j) == (if i == j {
            T::one_spec()
        } else {
            T::zero_spec()
        })
}

/// A dot against a column of zeros accumulates to zero, under the identity
/// laws.
proof fn lemma_dot_cell_zero<T: Scalar>(ra: Seq<T>, cb: Seq<T>)
    requires
        scalar_identity_laws::<T>(),
        ra.len() == cb.len(),
        forall|k: int| 0 <= k < cb.len() ==> cb[k] == T::zero_spec(),
    ensures
        dot_cell(ra, cb) == T::zero_spec(),
    decreases ra.len(),
{
    if ra.len() > 0 {
        lemma_dot_cell_zero(ra.drop_last(), cb.drop_last());
    }
}

/// A dot against a one-hot column picks out the entry at the hot position,
/// under the identity laws.
proof fn lemma_dot_cell_one_hot<T: Scalar>(ra: Seq<T>, cb: Seq<T>, j: int)
    requires
        scalar_identity_laws::<T>(),
        ra.len() == cb.len(),
        0 <= j < cb.len(),
        forall|k: int|
            0 <= k < cb.len() ==> cb[k] == (if k == j {
                T::one_spec()
            } else {
                T::zero_spec()
            }),
    ensures
        dot_cell(ra, cb) == ra[j],
    decreases ra.len(),
{
    let n = ra.len() - 1;
    if j == n {
        lemma_dot_cell_zero(ra.drop_last(), cb.drop_last());
    } else {
        lemma_dot_cell_one_hot(ra.drop_last(), cb.drop_last(), j);
    }
}

/// A product with the identity on the right restores the matrix, entry for
/// entry, whenever the scalars obey the identity laws. The wrapping integer
/// instance obeys them, so for it the law holds with no further premise.
pub proof fn lemma_dot_identity<T: Scalar>(a: Matrix<T>, ident: Matrix<T>, p: Matrix<T>)
    requires
        scalar_identity_laws::<T>(),
        a.wf(),
        is_identity(ident, a.cols as int),
        p.wf(),
        p.rows == a.rows,
        p.cols == ident.cols,
        p.data@ == dot_out(a, ident),
    ensures
        p.rows == a.rows,
        p.cols == a.cols,
        p.data@ == a.data@,
{
    let c = a.cols as int;
    assert forall|k: int| 0 <= k < p.data@.len() implies p.data@[k] == a.data@[k] by {
        assert(c > 0) by (nonlinear_arith)
            requires
                0 <= k < (a.rows as int) * c,
                c >= 0,
        ;
        lemma_fundamental_div_mod(k, c);
        lemma_mod_pos_bound(k, c);
        let i = k / c;
        let j = k % c;
        assert(i < a.rows) by (nonlinear_arith)
            requires
                k == c * i + j,
                0 <= j < c,
                k < (a.rows as int) * c,
                0 <= i,
        ;
        lemma_flat_bound(a, i, j);
        assert(a.row_view(i).len() == c);
        assert forall|q: int| 0 <= q < c implies ident.col_view(j)[q] == (if q == j {
            T::one_spec()
        } else {
            T::zero_spec()
        }) by {
            assert(ident.idx(q, j) == (if q == j {
                T::one_spec()
            } else {
                T::zero_spec()
            }));
        }
        lemma_dot_cell_one_hot(a.row_view(i), ident.col_view(j), j);
        assert(a.row_view(i)[j] == a.data@[i * c + j]);
    }
    assert(p.data@ =~= a.data@);
}

/// The identity-product law for the wrapping integer instance, with no
/// premise on the scalars.
pub proof fn lemma_dot_identity_i64(a: Matrix<i64>, ident: Matrix<i64>, p: Matrix<i64>)
    requires
        a.wf(),
        is_identity(ident, a.cols as int),
        p.wf(),
        p.rows == a.rows,
        p.cols == ident.cols,
        p.data@ == dot_out(a, ident),
    ensures
        p.rows == a.rows,
        p.cols == a.cols,
        p.data@ == a.data@,
{
    lemma_scalar_identity_laws_i64();
    lemma_dot_identity(a, ident, p);
}

/// Adding a matrix elementwise and then subtracting it restores the
/// original, exactly, in the wrapping integer instance. `s` is the
/// elementwise sum of `a` and `b`; `r` is the elementwise difference of `s`
/// and `b`, as `add_mat` and `sub_mat` compute them.
pub proof fn lemma_add_sub_roundtrip_i64(
    a: Matrix<i64>,
    b: Matrix<i64>,
    s: Matrix<i64>,
    r: Matrix<i64>,
)
    requires
        a.wf(),
        s.data@.len() == a.data@.len(),
        forall|k: int|
            0 <= k < s.data@.len() ==> #[trigger] s.data@[k] == a.data@[k].add_spec(b.data@[k]),
        r.rows == a.rows,
        r.cols == a.cols,
        r.data@.len() == s.data@.len(),
        forall|k: int|
            0 <= k < r.data@.len() ==> #[trigger] r.data@[k] == s.data@[k].sub_spec(b.data@[k]),
    ensures
        r.rows == a.rows,
        r.cols == a.cols,
        r.data@ == a.data@,
{
    assert forall|k: int| 0 <= k < r.data@.len() implies r.data@[k] == a.data@[k] by {
        lemma_add_sub_cancel_i64(a.data@[k], b.data@[k]);
    }
    assert(r.data@ =~= a.data@);
}

} // verus!
