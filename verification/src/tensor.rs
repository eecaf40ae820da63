//! Dense two-dimensional tensors over an abstract scalar element.
//!
//! A tensor is a row-major flat buffer together with its shape; the shape
//! invariant (`wf`) ties the buffer length to `rows * cols`. All operations
//! state their results elementwise over the [`Scalar`] specification
//! functions, so the graph layer can give every node's cached value an exact
//! denotation.

use vstd::prelude::*;

use crate::scalar::Scalar;

verus! {

/// The elementwise binary operator kinds.
#[derive(Clone, Copy, PartialEq, Eq, Structural)]
pub enum BinFn {
    Add,
    Sub,
    Mul,
    Div,
}

/// The elementwise unary operator kinds.
#[derive(Clone, Copy, PartialEq, Eq, Structural)]
pub enum UnFn {
    Neg,
    Square,
    Exp,
    Ln,
    Tanh,
    Sigmoid,
    Relu,
}

/// What a binary operator does to one pair of elements.
pub open spec fn bin_apply<E: Scalar>(f: BinFn, a: E, b: E) -> E {
    match f {
        BinFn::Add => a.spec_add(b),
        BinFn::Sub => a.spec_sub(b),
        BinFn::Mul => a.spec_mul(b),
        BinFn::Div => a.spec_div(b),
    }
}

/// What a unary operator does to one element.
pub open spec fn un_apply<E: Scalar>(f: UnFn, a: E) -> E {
    match f {
        UnFn::Neg => a.spec_neg(),
        UnFn::Square => a.spec_mul(a),
        UnFn::Exp => a.spec_exp(),
        UnFn::Ln => a.spec_ln(),
        UnFn::Tanh => a.spec_tanh(),
        UnFn::Sigmoid => a.spec_sigmoid(),
        UnFn::Relu => if a.spec_gt_zero() { a } else { E::spec_zero() },
    }
}

/// Elementwise image of a binary operator over two equally long buffers.
pub open spec fn seq_binary<E: Scalar>(f: BinFn, a: Seq<E>, b: Seq<E>) -> Seq<E> {
    Seq::new(a.len(), |k: int| bin_apply(f, a[k], b[k]))
}

/// Elementwise image of a unary operator over a buffer.
pub open spec fn seq_unary<E: Scalar>(f: UnFn, a: Seq<E>) -> Seq<E> {
    Seq::new(a.len(), |k: int| un_apply(f, a[k]))
}

/// A buffer of `n` copies of one element.
pub open spec fn seq_const<E>(n: nat, x: E) -> Seq<E> {
    Seq::new(n, |k: int| x)
}

/// A dense, row-major two-dimensional array of scalars.
pub struct Tensor<E> {
    data: Vec<E>,
    rows: usize,
    cols: usize,
}

impl<E> View for Tensor<E> {
    type V = Seq<E>;

    closed spec fn view(&self) -> Seq<E> {
        self.data@
    }
}

impl<E> Tensor<E> {
    /// Number of rows, as seen by specifications.
    pub closed spec fn spec_rows(&self) -> nat {
        self.rows as nat
    }

    /// Number of columns, as seen by specifications.
    pub closed spec fn spec_cols(&self) -> nat {
        self.cols as nat
    }

    /// The shape invariant: the flat buffer holds exactly one element per cell.
    pub open spec fn wf(&self) -> bool {
        self@.len() == self.spec_rows() * self.spec_cols()
    }

    /// Whether two tensors have the same shape.
    pub open spec fn same_shape(&self, other: &Self) -> bool {
        self.spec_rows() == other.spec_rows() && self.spec_cols() == other.spec_cols()
    }

    /// The element at row `r`, column `c`.
    pub open spec fn at(&self, r: int, c: int) -> E {
        self@[r * self.spec_cols() + c]
    }

    pub fn rows(&self) -> (r: usize)
        ensures
            r == self.spec_rows(),
    {
        self.rows
    }

    pub fn cols(&self) -> (r: usize)
        ensures
            r == self.spec_cols(),
    {
        self.cols
    }

    /// Wrap a row-major buffer as a tensor of the given shape.
    pub fn from_vec(rows: usize, cols: usize, data: Vec<E>) -> (r: Self)
        requires
            data@.len() == rows * cols,
        ensures
            r.wf(),
            r.spec_rows() == rows,
            r.spec_cols() == cols,
            r@ == data@,
    {
        Tensor { data, rows, cols }
    }

    /// The flat row-major contents, for callers that consume the tensor.
    pub fn into_vec(self) -> (r: Vec<E>)
        ensures
            r@ == self@,
    {
        self.data
    }

    /// Overwrite one element.
    pub fn set(&mut self, r: usize, c: usize, x: E)
        requires
            old(self).wf(),
            r < old(self).spec_rows(),
            c < old(self).spec_cols(),
        ensures
            final(self).wf(),
            final(self).spec_rows() == old(self).spec_rows(),
            final(self).spec_cols() == old(self).spec_cols(),
            final(self)@ == old(self)@.update(r * old(self).spec_cols() + c, x),
    {
        let n = self.data.len();
        proof {
            lemma_cell_index(self.spec_rows() as int, self.spec_cols() as int, r as int, c as int);
        }
        let i = r * self.cols + c;
        self.data[i] = x;
    }
}

/// Row-major cell coordinates land strictly inside the flat buffer.
pub proof fn lemma_cell_index(rows: int, cols: int, r: int, c: int)
    requires
        0 <= r < rows,
        0 <= c < cols,
    ensures
        0 <= r * cols + c < rows * cols,
{
    assert(0 <= r * cols + c < rows * cols) by (nonlinear_arith)
        requires
            0 <= r < rows,
            0 <= c < cols,
    {
    }
}

/// A flat index splits back into the cell coordinates it was built from.
pub proof fn lemma_cell_split(w: int, i: int, j: int)
    requires
        0 <= i,
        0 <= j < w,
    ensures
        (i * w + j) / w == i,
        (i * w + j) % w == j,
{
    assert((i * w + j) / w == i && (i * w + j) % w == j) by (nonlinear_arith)
        requires
            0 <= i,
            0 <= j < w,
    {
    }
}

impl<E: Scalar> Tensor<E> {
    /// Read one element.
    pub fn get(&self, r: usize, c: usize) -> (x: E)
        requires
            self.wf(),
            r < self.spec_rows(),
            c < self.spec_cols(),
        ensures
            x == self.at(r as int, c as int),
    {
        let n = self.data.len();
        proof {
            lemma_cell_index(self.spec_rows() as int, self.spec_cols() as int, r as int, c as int);
        }
        self.data[r * self.cols + c]
    }

    /// A tensor of the given shape with every element equal to `x`.
    pub fn filled(rows: usize, cols: usize, x: E) -> (r: Self)
        requires
            rows * cols <= usize::MAX,
        ensures
            r.wf(),
            r.spec_rows() == rows,
            r.spec_cols() == cols,
            r@ == seq_const((rows * cols) as nat, x),
    {
        let n: usize = rows * cols;
        let mut data: Vec<E> = Vec::new();
        let mut k: usize = 0;
        while k < n
            invariant
                k <= n,
                data@.len() == k,
                forall|t: int| 0 <= t < k ==> data@[t] == x,
            decreases n - k,
        {
            data.push(x);
            k = k + 1;
        }
        proof {
            assert(data@ =~= seq_const((rows * cols) as nat, x));
        }
        Tensor { data, rows, cols }
    }

    /// A tensor of the given shape with every element zero.
    pub fn zeros(rows: usize, cols: usize) -> (r: Self)
        requires
            rows * cols <= usize::MAX,
        ensures
            r.wf(),
            r.spec_rows() == rows,
            r.spec_cols() == cols,
            r@ == seq_const((rows * cols) as nat, E::spec_zero()),
    {
        Self::filled(rows, cols, E::zero())
    }

    /// An element-for-element copy.
    pub fn duplicate(&self) -> (r: Self)
        requires
            self.wf(),
        ensures
            r.wf(),
            r.spec_rows() == self.spec_rows(),
            r.spec_cols() == self.spec_cols(),
            r@ == self@,
    {
        let n: usize = self.data.len();
        let mut data: Vec<E> = Vec::new();
        let mut k: usize = 0;
        while k < n
            invariant
                k <= n,
                n == self@.len(),
                data@.len() == k,
                forall|t: int| 0 <= t < k ==> data@[t] == self@[t],
            decreases n - k,
        {
            data.push(self.data[k]);
            k = k + 1;
        }
        proof {
            assert(data@ =~= self@);
        }
        Tensor { data, rows: self.rows, cols: self.cols }
    }

    /// Apply a binary operator elementwise to two tensors of one shape.
    pub fn map_binary(f: BinFn, a: &Self, b: &Self) -> (r: Self)
        requires
            a.wf(),
            b.wf(),
            a.same_shape(b),
        ensures
            r.wf(),
            r.spec_rows() == a.spec_rows(),
            r.spec_cols() == a.spec_cols(),
            r@ == seq_binary(f, a@, b@),
    {
        let n: usize = a.data.len();
        let mut data: Vec<E> = Vec::new();
        let mut k: usize = 0;
        while k < n
            invariant
                k <= n,
                n == a@.len(),
                a@.len() == b@.len(),
                data@.len() == k,
                forall|t: int| 0 <= t < k ==> data@[t] == bin_apply(f, a@[t], b@[t]),
            decreases n - k,
        {
            let x = match f {
                BinFn::Add => a.data[k].add(&b.data[k]),
                BinFn::Sub => a.data[k].sub(&b.data[k]),
                BinFn::Mul => a.data[k].mul(&b.data[k]),
                BinFn::Div => a.data[k].div(&b.data[k]),
            };
            data.push(x);
            k = k + 1;
        }
        proof {
            assert(data@ =~= seq_binary(f, a@, b@));
        }
        Tensor { data, rows: a.rows, cols: a.cols }
    }

    /// Apply a unary operator elementwise.
    pub fn map_unary(f: UnFn, a: &Self) -> (r: Self)
        requires
            a.wf(),
        ensures
            r.wf(),
            r.spec_rows() == a.spec_rows(),
            r.spec_cols() == a.spec_cols(),
            r@ == seq_unary(f, a@),
    {
        let n: usize = a.data.len();
        let mut data: Vec<E> = Vec::new();
        let mut k: usize = 0;
        while k < n
            invariant
                k <= n,
                n == a@.len(),
                data@.len() == k,
                forall|t: int| 0 <= t < k ==> data@[t] == un_apply(f, a@[t]),
            decreases n - k,
        {
            let v = &a.data[k];
            let x = match f {
                UnFn::Neg => v.neg(),
                UnFn::Square => v.mul(v),
                UnFn::Exp => v.exp(),
                UnFn::Ln => v.ln(),
                UnFn::Tanh => v.tanh(),
                UnFn::Sigmoid => v.sigmoid(),
                UnFn::Relu => if v.gt_zero() {
                    *v
                } else {
                    E::zero()
                },
            };
            data.push(x);
            k = k + 1;
        }
        proof {
            assert(data@ =~= seq_unary(f, a@));
        }
        Tensor { data, rows: a.rows, cols: a.cols }
    }
}

/// The transpose of an `arows x acols` row-major buffer.
pub open spec fn transpose_seq<E>(a: Seq<E>, arows: nat, acols: nat) -> Seq<E> {
    Seq::new(acols * arows, |k: int| a[(k % arows as int) * acols + k / arows as int])
}

/// Row-wise concatenation is plain buffer concatenation.
pub open spec fn concat_rows_seq<E>(a: Seq<E>, b: Seq<E>) -> Seq<E> {
    a + b
}

/// Column-wise concatenation of two buffers with `rows` rows each.
pub open spec fn concat_cols_seq<E>(a: Seq<E>, acols: nat, b: Seq<E>, bcols: nat, rows: nat) -> Seq<E> {
    Seq::new(
        rows * (acols + bcols),
        |k: int|
            {
                let w = acols + bcols;
                let i = k / w as int;
                let j = k % w as int;
                if j < acols {
                    a[i * acols + j]
                } else {
                    b[i * bcols + (j - acols)]
                }
            },
    )
}

/// The `h x w` rectangle of `a` whose top-left cell is `(r0, c0)`.
pub open spec fn slice_seq<E>(a: Seq<E>, acols: nat, r0: nat, c0: nat, h: nat, w: nat) -> Seq<E> {
    Seq::new(h * w, |k: int| a[(r0 + k / w as int) * acols + c0 + k % w as int])
}

/// A zero-filled `rows x cols` buffer whose `(r0, c0)`-anchored `h x w`
/// rectangle holds `up`.
pub open spec fn scatter_seq<E: Scalar>(
    rows: nat,
    cols: nat,
    r0: nat,
    c0: nat,
    h: nat,
    w: nat,
    up: Seq<E>,
) -> Seq<E> {
    Seq::new(
        rows * cols,
        |k: int|
            {
                let i = k / cols as int;
                let j = k % cols as int;
                if r0 <= i < r0 + h && c0 <= j < c0 + w {
                    up[(i - r0) * w + (j - c0)]
                } else {
                    E::spec_zero()
                }
            },
    )
}

/// The rows of `a` selected by `idx`, in order, with repetitions kept.
pub open spec fn gather_seq<E>(a: Seq<E>, cols: nat, idx: Seq<usize>) -> Seq<E> {
    Seq::new(idx.len() * cols, |k: int| a[idx[k / cols as int] * cols + k % cols as int])
}

impl<E: Scalar> Tensor<E> {
    /// The number of stored elements; also witnesses that the element count
    /// fits in `usize`.
    pub fn count(&self) -> (n: usize)
        ensures
            n == self@.len(),
    {
        self.data.len()
    }

    /// Overwrite every element with `x`, keeping the shape and the buffer.
    pub fn fill(&mut self, x: E)
        requires
            old(self).wf(),
        ensures
            final(self).wf(),
            final(self).spec_rows() == old(self).spec_rows(),
            final(self).spec_cols() == old(self).spec_cols(),
            final(self)@ == seq_const(old(self)@.len(), x),
    {
        let n: usize = self.data.len();
        let mut k: usize = 0;
        while k < n
            invariant
                k <= n,
                n == self@.len(),
                self@.len() == old(self)@.len(),
                self.spec_rows() == old(self).spec_rows(),
                self.spec_cols() == old(self).spec_cols(),
                forall|t: int| 0 <= t < k ==> self@[t] == x,
            decreases n - k,
        {
            self.data[k] = x;
            k = k + 1;
        }
        proof {
            assert(self@ =~= seq_const(old(self)@.len(), x));
        }
    }

    /// The transpose.
    pub fn transpose(&self) -> (r: Self)
        requires
            self.wf(),
        ensures
            r.wf(),
            r.spec_rows() == self.spec_cols(),
            r.spec_cols() == self.spec_rows(),
            r@ == transpose_seq(self@, self.spec_rows(), self.spec_cols()),
    {
        let ghost target = transpose_seq(self@, self.spec_rows(), self.spec_cols());
        let rr: usize = self.cols;
        let ww: usize = self.rows;
        let mut data: Vec<E> = Vec::new();
        let mut i: usize = 0;
        while i < rr
            invariant
                i <= rr,
                rr == self.spec_cols(),
                ww == self.spec_rows(),
                self.wf(),
                target == transpose_seq(self@, self.spec_rows(), self.spec_cols()),
                data@.len() == i * ww,
                forall|t: int| 0 <= t < i * ww ==> data@[t] == target[t],
            decreases rr - i,
        {
            let mut j: usize = 0;
            while j < ww
                invariant
                    i < rr,
                    j <= ww,
                    rr == self.spec_cols(),
                    ww == self.spec_rows(),
                    self.wf(),
                    target == transpose_seq(self@, self.spec_rows(), self.spec_cols()),
                    data@.len() == i * ww + j,
                    forall|t: int| 0 <= t < i * ww + j ==> data@[t] == target[t],
                decreases ww - j,
            {
                let x = self.get(j, i);
                proof {
                    lemma_cell_split(ww as int, i as int, j as int);
                    lemma_cell_index(rr as int, ww as int, i as int, j as int);
                    assert(target[i * ww + j] == x);
                }
                data.push(x);
                j = j + 1;
            }
            proof {
                assert((i + 1) * (ww as int) == i * (ww as int) + ww) by (nonlinear_arith);
            }
            i = i + 1;
        }
        proof {
            assert(data@ =~= target);
        }
        Tensor { data, rows: rr, cols: ww }
    }

    /// Stack `a` on top of `b`.
    pub fn concat_rows(a: &Self, b: &Self) -> (r: Self)
        requires
            a.wf(),
            b.wf(),
            a.spec_cols() == b.spec_cols(),
            a.spec_rows() + b.spec_rows() <= usize::MAX,
            a@.len() + b@.len() <= usize::MAX,
        ensures
            r.wf(),
            r.spec_rows() == a.spec_rows() + b.spec_rows(),
            r.spec_cols() == a.spec_cols(),
            r@ == concat_rows_seq(a@, b@),
    {
        let na: usize = a.data.len();
        let nb: usize = b.data.len();
        let mut data: Vec<E> = Vec::new();
        let mut k: usize = 0;
        while k < na
            invariant
                k <= na,
                na == a@.len(),
                data@.len() == k,
                forall|t: int| 0 <= t < k ==> data@[t] == a@[t],
            decreases na - k,
        {
            data.push(a.data[k]);
            k = k + 1;
        }
        let mut k2: usize = 0;
        while k2 < nb
            invariant
                k2 <= nb,
                na == a@.len(),
                nb == b@.len(),
                data@.len() == na + k2,
                forall|t: int| 0 <= t < na ==> data@[t] == a@[t],
                forall|t: int| 0 <= t < k2 ==> data@[na + t] == b@[t],
            decreases nb - k2,
        {
            data.push(b.data[k2]);
            k2 = k2 + 1;
        }
        proof {
            assert(data@ =~= concat_rows_seq(a@, b@));
            vstd::arithmetic::mul::lemma_mul_is_distributive_add_other_way(
                a.spec_cols() as int,
                a.spec_rows() as int,
                b.spec_rows() as int,
            );
        }
        Tensor { data, rows: a.rows + b.rows, cols: a.cols }
    }

    /// Lay `a` beside `b`.
    pub fn concat_cols(a: &Self, b: &Self) -> (r: Self)
        requires
            a.wf(),
            b.wf(),
            a.spec_rows() == b.spec_rows(),
            a.spec_cols() + b.spec_cols() <= usize::MAX,
            a@.len() + b@.len() <= usize::MAX,
        ensures
            r.wf(),
            r.spec_rows() == a.spec_rows(),
            r.spec_cols() == a.spec_cols() + b.spec_cols(),
            r@ == concat_cols_seq(a@, a.spec_cols(), b@, b.spec_cols(), a.spec_rows()),
    {
        let ghost target = concat_cols_seq(a@, a.spec_cols(), b@, b.spec_cols(), a.spec_rows());
        let rr: usize = a.rows;
        let ww: usize = a.cols + b.cols;
        let mut data: Vec<E> = Vec::new();
        let mut i: usize = 0;
        while i < rr
            invariant
                i <= rr,
                rr == a.spec_rows(),
                rr == b.spec_rows(),
                ww == a.spec_cols() + b.spec_cols(),
                a.wf(),
                b.wf(),
                target == concat_cols_seq(a@, a.spec_cols(), b@, b.spec_cols(), a.spec_rows()),
                data@.len() == i * ww,
                forall|t: int| 0 <= t < i * ww ==> data@[t] == target[t],
            decreases rr - i,
        {
            let mut j: usize = 0;
            while j < ww
                invariant
                    i < rr,
                    j <= ww,
                    rr == a.spec_rows(),
                    rr == b.spec_rows(),
                    ww == a.spec_cols() + b.spec_cols(),
                    a.wf(),
                    b.wf(),
                    target == concat_cols_seq(a@, a.spec_cols(), b@, b.spec_cols(), a.spec_rows()),
                    data@.len() == i * ww + j,
                    forall|t: int| 0 <= t < i * ww + j ==> data@[t] == target[t],
                decreases ww - j,
            {
                let x = if j < a.cols {
                    a.get(i, j)
                } else {
                    b.get(i, j - a.cols)
                };
                proof {
                    lemma_cell_split(ww as int, i as int, j as int);
                    lemma_cell_index(rr as int, ww as int, i as int, j as int);
                    assert(target[i * ww + j] == x);
                }
                data.push(x);
                j = j + 1;
            }
            proof {
                assert((i + 1) * (ww as int) == i * (ww as int) + ww) by (nonlinear_arith);
            }
            i = i + 1;
        }
        proof {
            assert(data@ =~= target);
        }
        Tensor { data, rows: rr, cols: ww }
    }

    /// Copy out the `h x w` rectangle anchored at `(r0, c0)`.
    pub fn slice_region(&self, r0: usize, c0: usize, h: usize, w: usize) -> (r: Self)
        requires
            self.wf(),
            r0 + h <= self.spec_rows(),
            c0 + w <= self.spec_cols(),
        ensures
            r.wf(),
            r.spec_rows() == h,
            r.spec_cols() == w,
            r@ == slice_seq(self@, self.spec_cols(), r0 as nat, c0 as nat, h as nat, w as nat),
    {
        let ghost target = slice_seq(
            self@,
            self.spec_cols(),
            r0 as nat,
            c0 as nat,
            h as nat,
            w as nat,
        );
        let mut data: Vec<E> = Vec::new();
        let mut i: usize = 0;
        while i < h
            invariant
                i <= h,
                self.wf(),
                r0 + h <= self.spec_rows(),
                c0 + w <= self.spec_cols(),
                target == slice_seq(
                    self@,
                    self.spec_cols(),
                    r0 as nat,
                    c0 as nat,
                    h as nat,
                    w as nat,
                ),
                data@.len() == i * w,
                forall|t: int| 0 <= t < i * w ==> data@[t] == target[t],
            decreases h - i,
        {
            let mut j: usize = 0;
            while j < w
                invariant
                    i < h,
                    j <= w,
                    self.wf(),
                    r0 + h <= self.spec_rows(),
                    c0 + w <= self.spec_cols(),
                    target == slice_seq(
                        self@,
                        self.spec_cols(),
                        r0 as nat,
                        c0 as nat,
                        h as nat,
                        w as nat,
                    ),
                    data@.len() == i * w + j,
                    forall|t: int| 0 <= t < i * w + j ==> data@[t] == target[t],
                decreases w - j,
            {
                let x = self.get(r0 + i, c0 + j);
                proof {
                    lemma_cell_split(w as int, i as int, j as int);
                    lemma_cell_index(h as int, w as int, i as int, j as int);
                    assert(target[i * w + j] == x);
                }
                data.push(x);
                j = j + 1;
            }
            proof {
                assert((i + 1) * (w as int) == i * (w as int) + w) by (nonlinear_arith);
            }
            i = i + 1;
        }
        proof {
            assert(data@ =~= target);
        }
        Tensor { data, rows: h, cols: w }
    }

    /// A zero tensor of shape `rows x cols` whose `(r0, c0)`-anchored
    /// rectangle holds `up`.
    pub fn scatter_region(rows: usize, cols: usize, r0: usize, c0: usize, up: &Self) -> (r: Self)
        requires
            up.wf(),
            r0 + up.spec_rows() <= rows,
            c0 + up.spec_cols() <= cols,
            rows * cols <= usize::MAX,
        ensures
            r.wf(),
            r.spec_rows() == rows,
            r.spec_cols() == cols,
            r@ == scatter_seq(
                rows as nat,
                cols as nat,
                r0 as nat,
                c0 as nat,
                up.spec_rows(),
                up.spec_cols(),
                up@,
            ),
    {
        let ghost target = scatter_seq(
            rows as nat,
            cols as nat,
            r0 as nat,
            c0 as nat,
            up.spec_rows(),
            up.spec_cols(),
            up@,
        );
        let h: usize = up.rows;
        let w: usize = up.cols;
        let mut data: Vec<E> = Vec::new();
        let mut i: usize = 0;
        while i < rows
            invariant
                i <= rows,
                up.wf(),
                h == up.spec_rows(),
                w == up.spec_cols(),
                r0 + h <= rows,
                c0 + w <= cols,
                target == scatter_seq(
                    rows as nat,
                    cols as nat,
                    r0 as nat,
                    c0 as nat,
                    up.spec_rows(),
                    up.spec_cols(),
                    up@,
                ),
                data@.len() == i * cols,
                forall|t: int| 0 <= t < i * cols ==> data@[t] == target[t],
            decreases rows - i,
        {
            let mut j: usize = 0;
            while j < cols
                invariant
                    i < rows,
                    j <= cols,
                    up.wf(),
                    h == up.spec_rows(),
                    w == up.spec_cols(),
                    r0 + h <= rows,
                    c0 + w <= cols,
                    target == scatter_seq(
                        rows as nat,
                        cols as nat,
                        r0 as nat,
                        c0 as nat,
                        up.spec_rows(),
                        up.spec_cols(),
                        up@,
                    ),
                    data@.len() == i * cols + j,
                    forall|t: int| 0 <= t < i * cols + j ==> data@[t] == target[t],
                decreases cols - j,
            {
                let inside = r0 <= i && i < r0 + h && c0 <= j && j < c0 + w;
                let x = if inside {
                    up.get(i - r0, j - c0)
                } else {
                    E::zero()
                };
                proof {
                    lemma_cell_split(cols as int, i as int, j as int);
                    lemma_cell_index(rows as int, cols as int, i as int, j as int);
                    assert(target[i * cols + j] == x);
                }
                data.push(x);
                j = j + 1;
            }
            proof {
                assert((i + 1) * (cols as int) == i * (cols as int) + cols) by (nonlinear_arith);
            }
            i = i + 1;
        }
        proof {
            assert(data@ =~= target);
        }
        Tensor { data, rows, cols }
    }

    /// The rows selected by `idx`, in order, with repetitions kept.
    pub fn gather_rows(&self, idx: &Vec<usize>) -> (r: Self)
        requires
            self.wf(),
            forall|p: int| 0 <= p < idx@.len() ==> (idx@[p] as nat) < self.spec_rows(),
            idx@.len() * self.spec_cols() <= usize::MAX,
        ensures
            r.wf(),
            r.spec_rows() == idx@.len(),
            r.spec_cols() == self.spec_cols(),
            r@ == gather_seq(self@, self.spec_cols(), idx@),
    {
        let ghost target = gather_seq(self@, self.spec_cols(), idx@);
        let m: usize = idx.len();
        let w: usize = self.cols;
        let mut data: Vec<E> = Vec::new();
        let mut i: usize = 0;
        while i < m
            invariant
                i <= m,
                self.wf(),
                m == idx@.len(),
                w == self.spec_cols(),
                forall|p: int| 0 <= p < idx@.len() ==> (idx@[p] as nat) < self.spec_rows(),
                target == gather_seq(self@, self.spec_cols(), idx@),
                data@.len() == i * w,
                forall|t: int| 0 <= t < i * w ==> data@[t] == target[t],
            decreases m - i,
        {
            let src = idx[i];
            let mut j: usize = 0;
            while j < w
                invariant
                    i < m,
                    j <= w,
                    self.wf(),
                    m == idx@.len(),
                    w == self.spec_cols(),
                    src == idx@[i as int],
                    (src as nat) < self.spec_rows(),
                    forall|p: int| 0 <= p < idx@.len() ==> (idx@[p] as nat) < self.spec_rows(),
                    target == gather_seq(self@, self.spec_cols(), idx@),
                    data@.len() == i * w + j,
                    forall|t: int| 0 <= t < i * w + j ==> data@[t] == target[t],
                decreases w - j,
            {
                let x = self.get(src, j);
                proof {
                    lemma_cell_split(w as int, i as int, j as int);
                    lemma_cell_index(m as int, w as int, i as int, j as int);
                    assert(target[i * w + j] == x);
                }
                data.push(x);
                j = j + 1;
            }
            proof {
                assert((i + 1) * (w as int) == i * (w as int) + w) by (nonlinear_arith);
            }
            i = i + 1;
        }
        proof {
            assert(data@ =~= target);
        }
        Tensor { data, rows: m, cols: w }
    }
}

/// The left fold computing one matrix-product entry: the first `c` terms of
/// `sum_t a[i, t] * b[t, j]`, summed left to right from zero.
pub open spec fn mm_fold<E: Scalar>(
    a: Seq<E>,
    acols: nat,
    b: Seq<E>,
    bcols: nat,
    i: int,
    j: int,
    c: int,
) -> E
    decreases c,
{
    if c <= 0 {
        E::spec_zero()
    } else {
        mm_fold(a, acols, b, bcols, i, j, c - 1).spec_add(
            a[i * acols + (c - 1)].spec_mul(b[(c - 1) * bcols + j]),
        )
    }
}

/// The matrix product of an `m x acols` buffer and an `acols x bcols` buffer.
pub open spec fn mm_seq<E: Scalar>(a: Seq<E>, acols: nat, b: Seq<E>, bcols: nat, m: nat) -> Seq<E> {
    Seq::new(
        m * bcols,
        |k: int| mm_fold(a, acols, b, bcols, k / bcols as int, k % bcols as int, acols as int),
    )
}

/// The left fold computing one row dot product: the first `c` terms of
/// `sum_t a[i, t] * b[i, t]`, summed left to right from zero.
pub open spec fn vd_fold<E: Scalar>(a: Seq<E>, b: Seq<E>, cols: nat, i: int, c: int) -> E
    decreases c,
{
    if c <= 0 {
        E::spec_zero()
    } else {
        vd_fold(a, b, cols, i, c - 1).spec_add(
            a[i * cols + (c - 1)].spec_mul(b[i * cols + (c - 1)]),
        )
    }
}

/// One scalar per row: the dot product of the paired rows of `a` and `b`.
pub open spec fn vdot_seq<E: Scalar>(a: Seq<E>, b: Seq<E>, rows: nat, cols: nat) -> Seq<E> {
    Seq::new(rows, |i: int| vd_fold(a, b, cols, i, cols as int))
}

/// The left fold of the whole buffer in row-major order, from zero.
pub open spec fn sum_fold<E: Scalar>(a: Seq<E>, c: int) -> E
    decreases c,
{
    if c <= 0 {
        E::spec_zero()
    } else {
        sum_fold(a, c - 1).spec_add(a[c - 1])
    }
}

/// Every element of row `i` multiplied by the row's scale `s[i]`.
pub open spec fn scale_rows_seq<E: Scalar>(a: Seq<E>, cols: nat, s: Seq<E>) -> Seq<E> {
    Seq::new(a.len(), |k: int| a[k].spec_mul(s[k / cols as int]))
}

/// One row of a row-major buffer.
pub open spec fn row_of<E>(a: Seq<E>, cols: nat, i: int) -> Seq<E> {
    a.subrange(i * cols, i * cols + cols)
}

/// `d` with `srow` added elementwise onto its row `r`.
pub open spec fn row_added<E: Scalar>(d: Seq<E>, cols: nat, r: int, srow: Seq<E>) -> Seq<E> {
    Seq::new(
        d.len(),
        |k: int|
            if r * cols <= k < r * cols + cols {
                d[k].spec_add(srow[k - r * cols])
            } else {
                d[k]
            },
    )
}

impl<E: Scalar> Tensor<E> {
    /// The matrix product `self . b`.
    pub fn matmul(&self, b: &Self) -> (r: Self)
        requires
            self.wf(),
            b.wf(),
            self.spec_cols() == b.spec_rows(),
            self.spec_rows() * b.spec_cols() <= usize::MAX,
        ensures
            r.wf(),
            r.spec_rows() == self.spec_rows(),
            r.spec_cols() == b.spec_cols(),
            r@ == mm_seq(self@, self.spec_cols(), b@, b.spec_cols(), self.spec_rows()),
    {
        let ghost target = mm_seq(self@, self.spec_cols(), b@, b.spec_cols(), self.spec_rows());
        let m: usize = self.rows;
        let kk: usize = self.cols;
        let n: usize = b.cols;
        let mut data: Vec<E> = Vec::new();
        let mut i: usize = 0;
        while i < m
            invariant
                i <= m,
                self.wf(),
                b.wf(),
                m == self.spec_rows(),
                kk == self.spec_cols(),
                kk == b.spec_rows(),
                n == b.spec_cols(),
                target == mm_seq(self@, self.spec_cols(), b@, b.spec_cols(), self.spec_rows()),
                data@.len() == i * n,
                forall|t: int| 0 <= t < i * n ==> data@[t] == target[t],
            decreases m - i,
        {
            let mut j: usize = 0;
            while j < n
                invariant
                    i < m,
                    j <= n,
                    self.wf(),
                    b.wf(),
                    m == self.spec_rows(),
                    kk == self.spec_cols(),
                    kk == b.spec_rows(),
                    n == b.spec_cols(),
                    target == mm_seq(self@, self.spec_cols(), b@, b.spec_cols(), self.spec_rows()),
                    data@.len() == i * n + j,
                    forall|t: int| 0 <= t < i * n + j ==> data@[t] == target[t],
                decreases n - j,
            {
                let mut acc: E = E::zero();
                let mut c: usize = 0;
                while c < kk
                    invariant
                        i < m,
                        j < n,
                        c <= kk,
                        self.wf(),
                        b.wf(),
                        m == self.spec_rows(),
                        kk == self.spec_cols(),
                        kk == b.spec_rows(),
                        n == b.spec_cols(),
                        acc == mm_fold(
                            self@,
                            self.spec_cols(),
                            b@,
                            b.spec_cols(),
                            i as int,
                            j as int,
                            c as int,
                        ),
                    decreases kk - c,
                {
                    let x = self.get(i, c).mul(&b.get(c, j));
                    acc = acc.add(&x);
                    c = c + 1;
                }
                proof {
                    lemma_cell_split(n as int, i as int, j as int);
                    lemma_cell_index(m as int, n as int, i as int, j as int);
                    assert(target[i * n + j] == acc);
                }
                data.push(acc);
                j = j + 1;
            }
            proof {
                assert((i + 1) * (n as int) == i * (n as int) + n) by (nonlinear_arith);
            }
            i = i + 1;
        }
        proof {
            assert(data@ =~= target);
        }
        Tensor { data, rows: m, cols: n }
    }

    /// The batched row dot product: one scalar per paired row.
    pub fn vector_dot(&self, b: &Self) -> (r: Self)
        requires
            self.wf(),
            b.wf(),
            self.same_shape(b),
        ensures
            r.wf(),
            r.spec_rows() == self.spec_rows(),
            r.spec_cols() == 1,
            r@ == vdot_seq(self@, b@, self.spec_rows(), self.spec_cols()),
    {
        let ghost target = vdot_seq(self@, b@, self.spec_rows(), self.spec_cols());
        let m: usize = self.rows;
        let kk: usize = self.cols;
        let mut data: Vec<E> = Vec::new();
        let mut i: usize = 0;
        while i < m
            invariant
                i <= m,
                self.wf(),
                b.wf(),
                self.same_shape(b),
                m == self.spec_rows(),
                kk == self.spec_cols(),
                target == vdot_seq(self@, b@, self.spec_rows(), self.spec_cols()),
                data@.len() == i,
                forall|t: int| 0 <= t < i ==> data@[t] == target[t],
            decreases m - i,
        {
            let mut acc: E = E::zero();
            let mut c: usize = 0;
            while c < kk
                invariant
                    i < m,
                    c <= kk,
                    self.wf(),
                    b.wf(),
                    self.same_shape(b),
                    m == self.spec_rows(),
                    kk == self.spec_cols(),
                    acc == vd_fold(self@, b@, self.spec_cols(), i as int, c as int),
                decreases kk - c,
            {
                let x = self.get(i, c).mul(&b.get(i, c));
                acc = acc.add(&x);
                c = c + 1;
            }
            data.push(acc);
            i = i + 1;
        }
        proof {
            assert(data@ =~= target);
        }
        Tensor { data, rows: m, cols: 1 }
    }

    /// The sum of every element, in row-major order, as a `1 x 1` tensor.
    pub fn sum_all(&self) -> (r: Self)
        requires
            self.wf(),
        ensures
            r.wf(),
            r.spec_rows() == 1,
            r.spec_cols() == 1,
            r@.len() == 1,
            r@[0] == sum_fold(self@, self@.len() as int),
    {
        let n: usize = self.data.len();
        let mut acc: E = E::zero();
        let mut k: usize = 0;
        while k < n
            invariant
                k <= n,
                n == self@.len(),
                acc == sum_fold(self@, k as int),
            decreases n - k,
        {
            acc = acc.add(&self.data[k]);
            k = k + 1;
        }
        let mut data: Vec<E> = Vec::new();
        data.push(acc);
        Tensor { data, rows: 1, cols: 1 }
    }

    /// Scale each row of `self` by the matching entry of the column `s`.
    pub fn scale_rows(&self, s: &Self) -> (r: Self)
        requires
            self.wf(),
            s.wf(),
            s.spec_rows() == self.spec_rows(),
            s.spec_cols() == 1,
        ensures
            r.wf(),
            r.spec_rows() == self.spec_rows(),
            r.spec_cols() == self.spec_cols(),
            r@ == scale_rows_seq(self@, self.spec_cols(), s@),
    {
        let ghost target = scale_rows_seq(self@, self.spec_cols(), s@);
        let m: usize = self.rows;
        let w: usize = self.cols;
        let mut data: Vec<E> = Vec::new();
        let mut i: usize = 0;
        while i < m
            invariant
                i <= m,
                self.wf(),
                s.wf(),
                s.spec_rows() == self.spec_rows(),
                s.spec_cols() == 1,
                m == self.spec_rows(),
                w == self.spec_cols(),
                target == scale_rows_seq(self@, self.spec_cols(), s@),
                data@.len() == i * w,
                forall|t: int| 0 <= t < i * w ==> data@[t] == target[t],
            decreases m - i,
        {
            let sv = s.get(i, 0);
            let mut j: usize = 0;
            while j < w
                invariant
                    i < m,
                    j <= w,
                    self.wf(),
                    s.wf(),
                    s.spec_rows() == self.spec_rows(),
                    s.spec_cols() == 1,
                    m == self.spec_rows(),
                    w == self.spec_cols(),
                    sv == s@[i as int],
                    target == scale_rows_seq(self@, self.spec_cols(), s@),
                    data@.len() == i * w + j,
                    forall|t: int| 0 <= t < i * w + j ==> data@[t] == target[t],
                decreases w - j,
            {
                let x = self.get(i, j).mul(&sv);
                proof {
                    lemma_cell_split(w as int, i as int, j as int);
                    lemma_cell_index(m as int, w as int, i as int, j as int);
                    assert(target[i * w + j] == x);
                }
                data.push(x);
                j = j + 1;
            }
            proof {
                assert((i + 1) * (w as int) == i * (w as int) + w) by (nonlinear_arith);
            }
            i = i + 1;
        }
        proof {
            assert(data@ =~= target);
        }
        Tensor { data, rows: m, cols: w }
    }

    /// Add row `src_r` of `src` elementwise onto row `r` of `self`.
    pub fn add_assign_row(&mut self, r: usize, src: &Self, src_r: usize)
        requires
            old(self).wf(),
            src.wf(),
            src.spec_cols() == old(self).spec_cols(),
            r < old(self).spec_rows(),
            src_r < src.spec_rows(),
        ensures
            final(self).wf(),
            final(self).spec_rows() == old(self).spec_rows(),
            final(self).spec_cols() == old(self).spec_cols(),
            final(self)@ == row_added(
                old(self)@,
                old(self).spec_cols(),
                r as int,
                row_of(src@, src.spec_cols(), src_r as int),
            ),
    {
        let ghost orig = self@;
        let ghost target = row_added(
            orig,
            old(self).spec_cols(),
            r as int,
            row_of(src@, src.spec_cols(), src_r as int),
        );
        let w: usize = self.cols;
        let mut j: usize = 0;
        while j < w
            invariant
                j <= w,
                self.wf(),
                src.wf(),
                src.spec_cols() == self.spec_cols(),
                r < self.spec_rows(),
                src_r < src.spec_rows(),
                w == self.spec_cols(),
                self@.len() == orig.len(),
                self.spec_rows() == old(self).spec_rows(),
                self.spec_cols() == old(self).spec_cols(),
                orig == old(self)@,
                forall|t: int|
                    0 <= t < j ==> #[trigger] self@[r * w + t] == orig[r * w + t].spec_add(
                        src@[src_r * w + t],
                    ),
                forall|k: int|
                    0 <= k < orig.len() && !(r * w <= k < r * w + j) ==> self@[k] == orig[k],
            decreases w - j,
        {
            proof {
                lemma_cell_index(self.spec_rows() as int, w as int, r as int, j as int);
                lemma_cell_index(src.spec_rows() as int, w as int, src_r as int, j as int);
            }
            let x = self.get(r, j).add(&src.get(src_r, j));
            self.set(r, j, x);
            j = j + 1;
        }
        proof {
            assert forall|k: int| 0 <= k < target.len() implies self@[k] == target[k] by {
                if r * w <= k < r * w + w {
                    let t = k - r * w;
                    lemma_cell_index(src.spec_rows() as int, w as int, src_r as int, t);
                    lemma_cell_index(self.spec_rows() as int, w as int, r as int, t);
                    assert(src_r * (w as int) + w <= src.spec_rows() * (w as int))
                        by (nonlinear_arith)
                        requires
                            (src_r as int) < src.spec_rows(),
                            0 <= w as int,
                    {
                    }
                    assert(self@[r * w + t] == orig[r * w + t].spec_add(src@[src_r * w + t]));
                    assert(row_of(src@, self.spec_cols(), src_r as int)[t] == src@[src_r * w + t]);
                } else {
                    assert(self@[k] == orig[k]);
                }
            }
            assert(self@ =~= target);
        }
    }
}

/// The running maximum of the first `c` elements of row `i`, folded left to
/// right from the row's first element.
pub open spec fn row_max_fold<E: Scalar>(a: Seq<E>, cols: nat, i: int, c: int) -> E
    decreases c,
{
    if c <= 1 {
        a[i * cols]
    } else {
        row_max_fold(a, cols, i, c - 1).spec_max(a[i * cols + (c - 1)])
    }
}

/// The running sum of `exp(x - m)` over the first `c` elements of row `i`,
/// folded left to right from zero.
pub open spec fn row_expsum_fold<E: Scalar>(a: Seq<E>, cols: nat, i: int, m: E, c: int) -> E
    decreases c,
{
    if c <= 0 {
        E::spec_zero()
    } else {
        row_expsum_fold(a, cols, i, m, c - 1).spec_add(a[i * cols + (c - 1)].spec_sub(m).spec_exp())
    }
}

/// One entry of the row-wise, max-shifted softmax.
pub open spec fn softmax_entry<E: Scalar>(a: Seq<E>, cols: nat, k: int) -> E {
    let i = k / cols as int;
    let m = row_max_fold(a, cols, i, cols as int);
    let d = row_expsum_fold(a, cols, i, m, cols as int);
    a[k].spec_sub(m).spec_exp().spec_div(d)
}

/// One entry of the row-wise, max-shifted log-softmax.
pub open spec fn logsoftmax_entry<E: Scalar>(a: Seq<E>, cols: nat, k: int) -> E {
    let i = k / cols as int;
    let m = row_max_fold(a, cols, i, cols as int);
    let d = row_expsum_fold(a, cols, i, m, cols as int);
    a[k].spec_sub(m).spec_sub(d.spec_ln())
}

/// Row-wise softmax, or log-softmax when `log_form` is set.
pub open spec fn softmax_seq<E: Scalar>(log_form: bool, a: Seq<E>, cols: nat) -> Seq<E> {
    Seq::new(
        a.len(),
        |k: int|
            if log_form {
                logsoftmax_entry(a, cols, k)
            } else {
                softmax_entry(a, cols, k)
            },
    )
}

/// One entry of the per-row Jacobian the softmax backward pass multiplies by.
///
/// For softmax the diagonal term is `v_p * (1 - v_j)` and the off-diagonal
/// term is `-v_p * v_j`; for log-softmax the row holds `delta_pj - exp(v_j)`.
pub open spec fn sm_jac<E: Scalar>(
    log_form: bool,
    v: Seq<E>,
    cols: nat,
    i: int,
    p: int,
    j: int,
) -> E {
    if log_form {
        if p == j {
            E::spec_one().spec_sub(v[i * cols + j].spec_exp())
        } else {
            v[i * cols + j].spec_exp().spec_neg()
        }
    } else {
        if p == j {
            v[i * cols + p].spec_mul(E::spec_one().spec_sub(v[i * cols + j]))
        } else {
            v[i * cols + p].spec_neg().spec_mul(v[i * cols + j])
        }
    }
}

/// The first `c` terms of the row-vector-times-Jacobian product that carries
/// the upstream gradient through a (log-)softmax row.
pub open spec fn sm_bwd_fold<E: Scalar>(
    log_form: bool,
    v: Seq<E>,
    up: Seq<E>,
    cols: nat,
    i: int,
    j: int,
    c: int,
) -> E
    decreases c,
{
    if c <= 0 {
        E::spec_zero()
    } else {
        sm_bwd_fold(log_form, v, up, cols, i, j, c - 1).spec_add(
            up[i * cols + (c - 1)].spec_mul(sm_jac(log_form, v, cols, i, c - 1, j)),
        )
    }
}

/// The upstream gradient right-multiplied, row by row, by the
/// (log-)softmax Jacobian built from the cached output `v`.
pub open spec fn sm_bwd_seq<E: Scalar>(log_form: bool, v: Seq<E>, up: Seq<E>, cols: nat) -> Seq<E> {
    Seq::new(
        v.len(),
        |k: int| sm_bwd_fold(log_form, v, up, cols, k / cols as int, k % cols as int, cols as int),
    )
}

impl<E: Scalar> Tensor<E> {
    /// Row-wise max-shifted softmax, or log-softmax when `log_form` is set.
    pub fn softmax_rows(&self, log_form: bool) -> (r: Self)
        requires
            self.wf(),
            self.spec_cols() >= 1,
        ensures
            r.wf(),
            r.spec_rows() == self.spec_rows(),
            r.spec_cols() == self.spec_cols(),
            r@ == softmax_seq(log_form, self@, self.spec_cols()),
    {
        let ghost target = softmax_seq(log_form, self@, self.spec_cols());
        let m: usize = self.rows;
        let w: usize = self.cols;
        let mut data: Vec<E> = Vec::new();
        let mut i: usize = 0;
        while i < m
            invariant
                i <= m,
                self.wf(),
                m == self.spec_rows(),
                w == self.spec_cols(),
                w >= 1,
                target == softmax_seq(log_form, self@, self.spec_cols()),
                data@.len() == i * w,
                forall|t: int| 0 <= t < i * w ==> data@[t] == target[t],
            decreases m - i,
        {
            let mut mx: E = self.get(i, 0);
            let mut c: usize = 1;
            while c < w
                invariant
                    i < m,
                    1 <= c <= w,
                    self.wf(),
                    m == self.spec_rows(),
                    w == self.spec_cols(),
                    mx == row_max_fold(self@, self.spec_cols(), i as int, c as int),
                decreases w - c,
            {
                mx = mx.max(&self.get(i, c));
                c = c + 1;
            }
            let mut den: E = E::zero();
            let mut c2: usize = 0;
            while c2 < w
                invariant
                    i < m,
                    c2 <= w,
                    self.wf(),
                    m == self.spec_rows(),
                    w == self.spec_cols(),
                    den == row_expsum_fold(self@, self.spec_cols(), i as int, mx, c2 as int),
                decreases w - c2,
            {
                let x = self.get(i, c2).sub(&mx).exp();
                den = den.add(&x);
                c2 = c2 + 1;
            }
            let mut j: usize = 0;
            while j < w
                invariant
                    i < m,
                    j <= w,
                    self.wf(),
                    m == self.spec_rows(),
                    w == self.spec_cols(),
                    w >= 1,
                    mx == row_max_fold(self@, self.spec_cols(), i as int, w as int),
                    den == row_expsum_fold(self@, self.spec_cols(), i as int, mx, w as int),
                    target == softmax_seq(log_form, self@, self.spec_cols()),
                    data@.len() == i * w + j,
                    forall|t: int| 0 <= t < i * w + j ==> data@[t] == target[t],
                decreases w - j,
            {
                let x = if log_form {
                    self.get(i, j).sub(&mx).sub(&den.ln())
                } else {
                    self.get(i, j).sub(&mx).exp().div(&den)
                };
                proof {
                    lemma_cell_split(w as int, i as int, j as int);
                    lemma_cell_index(m as int, w as int, i as int, j as int);
                    assert(target[i * w + j] == x);
                }
                data.push(x);
                j = j + 1;
            }
            proof {
                assert((i + 1) * (w as int) == i * (w as int) + w) by (nonlinear_arith);
            }
            i = i + 1;
        }
        proof {
            assert(data@ =~= target);
        }
        Tensor { data, rows: m, cols: w }
    }

    /// Carry an upstream gradient through a (log-)softmax whose cached output
    /// is `self`, by right-multiplying it with the explicit per-row Jacobian.
    pub fn softmax_backward(&self, up: &Self, log_form: bool) -> (r: Self)
        requires
            self.wf(),
            up.wf(),
            self.same_shape(up),
        ensures
            r.wf(),
            r.spec_rows() == self.spec_rows(),
            r.spec_cols() == self.spec_cols(),
            r@ == sm_bwd_seq(log_form, self@, up@, self.spec_cols()),
    {
        let ghost target = sm_bwd_seq(log_form, self@, up@, self.spec_cols());
        let m: usize = self.rows;
        let w: usize = self.cols;
        let mut data: Vec<E> = Vec::new();
        let mut i: usize = 0;
        while i < m
            invariant
                i <= m,
                self.wf(),
                up.wf(),
                self.same_shape(up),
                m == self.spec_rows(),
                w == self.spec_cols(),
                target == sm_bwd_seq(log_form, self@, up@, self.spec_cols()),
                data@.len() == i * w,
                forall|t: int| 0 <= t < i * w ==> data@[t] == target[t],
            decreases m - i,
        {
            let mut j: usize = 0;
            while j < w
                invariant
                    i < m,
                    j <= w,
                    self.wf(),
                    up.wf(),
                    self.same_shape(up),
                    m == self.spec_rows(),
                    w == self.spec_cols(),
                    target == sm_bwd_seq(log_form, self@, up@, self.spec_cols()),
                    data@.len() == i * w + j,
                    forall|t: int| 0 <= t < i * w + j ==> data@[t] == target[t],
                decreases w - j,
            {
                let mut acc: E = E::zero();
                let mut p: usize = 0;
                while p < w
                    invariant
                        i < m,
                        j < w,
                        p <= w,
                        self.wf(),
                        up.wf(),
                        self.same_shape(up),
                        m == self.spec_rows(),
                        w == self.spec_cols(),
                        acc == sm_bwd_fold(
                            log_form,
                            self@,
                            up@,
                            self.spec_cols(),
                            i as int,
                            j as int,
                            p as int,
                        ),
                    decreases w - p,
                {
                    let jac = if log_form {
                        if p == j {
                            E::one().sub(&self.get(i, j).exp())
                        } else {
                            self.get(i, j).exp().neg()
                        }
                    } else {
                        if p == j {
                            self.get(i, p).mul(&E::one().sub(&self.get(i, j)))
                        } else {
                            self.get(i, p).neg().mul(&self.get(i, j))
                        }
                    };
                    let x = up.get(i, p).mul(&jac);
                    acc = acc.add(&x);
                    p = p + 1;
                }
                proof {
                    lemma_cell_split(w as int, i as int, j as int);
                    lemma_cell_index(m as int, w as int, i as int, j as int);
                    assert(target[i * w + j] == acc);
                }
                data.push(acc);
                j = j + 1;
            }
            proof {
                assert((i + 1) * (w as int) == i * (w as int) + w) by (nonlinear_arith);
            }
            i = i + 1;
        }
        proof {
            assert(data@ =~= target);
        }
        Tensor { data, rows: m, cols: w }
    }
}

/// The rectified-linear backward rule: the upstream gradient where the
/// operand is positive, zero elsewhere.
pub open spec fn relu_bwd_seq<E: Scalar>(x: Seq<E>, up: Seq<E>) -> Seq<E> {
    Seq::new(
        up.len(),
        |k: int|
            if x[k].spec_gt_zero() {
                up[k]
            } else {
                E::spec_zero()
            },
    )
}

impl<E: Scalar> Tensor<E> {
    /// Mask the upstream gradient `up` by the sign of the operand `self`.
    pub fn relu_backward(&self, up: &Self) -> (r: Self)
        requires
            self.wf(),
            up.wf(),
            self.same_shape(up),
        ensures
            r.wf(),
            r.spec_rows() == self.spec_rows(),
            r.spec_cols() == self.spec_cols(),
            r@ == relu_bwd_seq(self@, up@),
    {
        let n: usize = self.data.len();
        let mut data: Vec<E> = Vec::new();
        let mut k: usize = 0;
        while k < n
            invariant
                k <= n,
                n == self@.len(),
                self@.len() == up@.len(),
                data@.len() == k,
                forall|t: int|
                    0 <= t < k ==> data@[t] == (if self@[t].spec_gt_zero() {
                        up@[t]
                    } else {
                        E::spec_zero()
                    }),
            decreases n - k,
        {
            let x = if self.data[k].gt_zero() {
                up.data[k]
            } else {
                E::zero()
            };
            data.push(x);
            k = k + 1;
        }
        proof {
            assert(data@ =~= relu_bwd_seq(self@, up@));
        }
        Tensor { data, rows: self.rows, cols: self.cols }
    }
}

} // verus!
