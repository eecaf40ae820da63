//! Per-parameter gradient storage with additive fan-in.
//!
//! A [`GradientAccumulator`] holds a lazily allocated dense buffer sized to
//! its parameter's shape, together with a growable list of sparse
//! contributions — `(row index list, row block)` pairs produced by row-gather
//! nodes. Contributions are additive and unbounded until explicitly zeroed;
//! sparse slots are reused (first empty slot) before a new slot is appended,
//! and zeroing clears contents without dropping the buffers.
//!
//! The accumulator's abstract state is the pair of [`dense_model`] — the
//! dense buffer, or an all-zero buffer before any dense contribution — and
//! [`sparse_model`] — the active sparse contributions in arrival order.
//! [`grad_model`] folds both into the materialized gradient.
//!
//! [`dense_model`]: GradientAccumulator::dense_model
//! [`sparse_model`]: GradientAccumulator::sparse_model
//! [`grad_model`]: GradientAccumulator::grad_model

use vstd::prelude::*;

use crate::scalar::Scalar;
use crate::tensor::{seq_binary, seq_const, row_added, row_of, BinFn, Tensor};

verus! {

/// `d` with the rows of `block` added onto the rows of `d` selected by
/// `idx`, one after the other: the first `p` rows have been applied.
/// Repeated indices accumulate repeatedly.
pub open spec fn rows_scatter<E: Scalar>(
    d: Seq<E>,
    cols: nat,
    idx: Seq<usize>,
    block: Seq<E>,
    p: int,
) -> Seq<E>
    decreases p,
{
    if p <= 0 {
        d
    } else {
        row_added(
            rows_scatter(d, cols, idx, block, p - 1),
            cols,
            idx[p - 1] as int,
            row_of(block, cols, p - 1),
        )
    }
}

/// `d` with the first `n` sparse contributions of `slots` scattered onto it,
/// in arrival order.
pub open spec fn scatter_slots<E: Scalar>(
    d: Seq<E>,
    cols: nat,
    slots: Seq<(Seq<usize>, Seq<E>)>,
    n: int,
) -> Seq<E>
    decreases n,
{
    if n <= 0 {
        d
    } else {
        {
            let prev = scatter_slots(d, cols, slots, n - 1);
            rows_scatter(prev, cols, slots[n - 1].0, slots[n - 1].1, slots[n - 1].0.len() as int)
        }
    }
}

/// Dense-plus-sparse gradient storage for one parameter.
pub struct GradientAccumulator<E> {
    rows: usize,
    cols: usize,
    dense: Option<Tensor<E>>,
    sparse: Vec<(Vec<usize>, Tensor<E>)>,
    has_dense: bool,
    has_sparse: bool,
    active: Ghost<nat>,
}

impl<E: Scalar> GradientAccumulator<E> {
    /// Rows of the parameter this accumulator belongs to.
    pub closed spec fn spec_rows(&self) -> nat {
        self.rows as nat
    }

    /// Columns of the parameter this accumulator belongs to.
    pub closed spec fn spec_cols(&self) -> nat {
        self.cols as nat
    }

    /// Whether a dense contribution has arrived since the last reset.
    pub closed spec fn spec_has_dense(&self) -> bool {
        self.has_dense
    }

    /// Whether a sparse contribution has arrived since the last reset.
    pub closed spec fn spec_has_sparse(&self) -> bool {
        self.has_sparse
    }

    /// The dense part of the abstract state: the dense buffer once one
    /// exists, an all-zero buffer before the first dense contribution.
    pub closed spec fn dense_model(&self) -> Seq<E> {
        if self.has_dense {
            match self.dense {
                Some(d) => d@,
                None => Seq::empty(),
            }
        } else {
            seq_const(self.spec_rows() * self.spec_cols(), E::spec_zero())
        }
    }

    /// The sparse part of the abstract state: the active `(indices, rows)`
    /// contributions, in arrival order.
    pub closed spec fn sparse_model(&self) -> Seq<(Seq<usize>, Seq<E>)> {
        Seq::new(self.active@, |p: int| (self.sparse@[p].0@, self.sparse@[p].1@))
    }

    /// The materialized gradient: every active sparse slot scattered onto
    /// the dense part.
    pub open spec fn grad_model(&self) -> Seq<E> {
        scatter_slots(
            self.dense_model(),
            self.spec_cols(),
            self.sparse_model(),
            self.sparse_model().len() as int,
        )
    }

    /// Internal consistency of the storage.
    pub closed spec fn wf(&self) -> bool {
        &&& self.spec_rows() * self.spec_cols() <= usize::MAX
        &&& self.has_dense ==> self.dense is Some
        &&& match self.dense {
            Some(d) => d.wf() && d.spec_rows() == self.spec_rows() && d.spec_cols()
                == self.spec_cols() && (!self.has_dense ==> d@ == seq_const(
                self.spec_rows() * self.spec_cols(),
                E::spec_zero(),
            )),
            None => true,
        }
        &&& self.active@ <= self.sparse@.len()
        &&& forall|p: int| 0 <= p < self.active@ ==> (#[trigger] self.sparse@[p]).0@.len() > 0
        &&& forall|p: int|
            self.active@ <= p < self.sparse@.len() ==> (#[trigger] self.sparse@[p]).0@.len() == 0
        &&& forall|p: int|
            0 <= p < self.sparse@.len() ==> {
                let slot = #[trigger] self.sparse@[p];
                &&& slot.1.wf()
                &&& slot.1.spec_cols() == self.spec_cols()
                &&& forall|q: int|
                    0 <= q < slot.0@.len() ==> (#[trigger] slot.0@[q] as nat) < self.spec_rows()
                &&& p < self.active@ ==> slot.1.spec_rows() == slot.0@.len()
            }
        &&& !self.has_sparse ==> self.active@ == 0
    }

    /// The fully reset state for a parameter of the given shape: no dense
    /// contribution, no active sparse contribution, both has-data flags
    /// down, and a materialized gradient of exactly zero.
    pub open spec fn is_reset(&self, rows: nat, cols: nat) -> bool {
        &&& self.dense_model() == seq_const(rows * cols, E::spec_zero())
        &&& self.sparse_model() == Seq::<(Seq<usize>, Seq<E>)>::empty()
        &&& !self.spec_has_dense()
        &&& !self.spec_has_sparse()
        &&& self.grad_model() == seq_const(rows * cols, E::spec_zero())
    }

    /// A fresh accumulator for a parameter of the given shape, with no
    /// contributions recorded.
    pub fn new(rows: usize, cols: usize) -> (r: Self)
        requires
            rows * cols <= usize::MAX,
        ensures
            r.wf(),
            r.spec_rows() == rows,
            r.spec_cols() == cols,
            !r.spec_has_dense(),
            !r.spec_has_sparse(),
            r.dense_model() == seq_const((rows * cols) as nat, E::spec_zero()),
            r.sparse_model() == Seq::<(Seq<usize>, Seq<E>)>::empty(),
    {
        let r = GradientAccumulator {
            rows,
            cols,
            dense: None,
            sparse: Vec::new(),
            has_dense: false,
            has_sparse: false,
            active: Ghost(0nat),
        };
        proof {
            assert(r.sparse_model() =~= Seq::<(Seq<usize>, Seq<E>)>::empty());
        }
        r
    }

    /// Record a dense contribution: the dense part grows elementwise by `g`;
    /// the sparse contributions are untouched.
    pub fn accumulate_dense(&mut self, g: &Tensor<E>)
        requires
            old(self).wf(),
            g.wf(),
            g.spec_rows() == old(self).spec_rows(),
            g.spec_cols() == old(self).spec_cols(),
        ensures
            final(self).wf(),
            final(self).spec_rows() == old(self).spec_rows(),
            final(self).spec_cols() == old(self).spec_cols(),
            final(self).spec_has_dense(),
            final(self).spec_has_sparse() == old(self).spec_has_sparse(),
            final(self).dense_model() == seq_binary(BinFn::Add, old(self).dense_model(), g@),
            final(self).sparse_model() == old(self).sparse_model(),
    {
        let ghost pre = *self;
        let nd = match &self.dense {
            Some(d) => Tensor::map_binary(BinFn::Add, d, g),
            None => {
                let z = Tensor::zeros(self.rows, self.cols);
                Tensor::map_binary(BinFn::Add, &z, g)
            },
        };
        self.dense = Some(nd);
        self.has_dense = true;
        proof {
            assert(self.dense_model() =~= seq_binary(BinFn::Add, pre.dense_model(), g@));
            assert(self.sparse_model() =~= pre.sparse_model());
        }
    }

    /// Record a sparse contribution: the pair `(idx, g)` joins the active
    /// list, reusing the first empty slot if one exists and appending a new
    /// slot otherwise. An empty index list contributes nothing.
    pub fn accumulate_sparse(&mut self, idx: &Vec<usize>, g: &Tensor<E>)
        requires
            old(self).wf(),
            g.wf(),
            g.spec_cols() == old(self).spec_cols(),
            g.spec_rows() == idx@.len(),
            forall|q: int| 0 <= q < idx@.len() ==> (#[trigger] idx@[q] as nat) < old(
                self,
            ).spec_rows(),
        ensures
            final(self).wf(),
            final(self).spec_rows() == old(self).spec_rows(),
            final(self).spec_cols() == old(self).spec_cols(),
            final(self).spec_has_dense() == old(self).spec_has_dense(),
            final(self).spec_has_sparse(),
            final(self).dense_model() == old(self).dense_model(),
            final(self).sparse_model() == if idx@.len() > 0 {
                old(self).sparse_model().push((idx@, g@))
            } else {
                old(self).sparse_model()
            },
    {
        let ghost pre = *self;
        self.has_sparse = true;
        if idx.len() == 0 {
            proof {
                assert(self.sparse_model() =~= pre.sparse_model());
                assert(self.dense_model() =~= pre.dense_model());
            }
            return ;
        }
        let iv = clone_indices(idx);
        let block = g.duplicate();
        let n = self.sparse.len();
        let mut p: usize = 0;
        while p < n
            invariant
                p <= n,
                n == self.sparse@.len(),
                pre == *old(self),
                *self == (GradientAccumulator { has_sparse: true, ..pre }),
                iv@ == idx@,
                block.wf(),
                block@ == g@,
                block.spec_rows() == idx@.len(),
                block.spec_cols() == pre.spec_cols(),
                idx@.len() > 0,
                forall|q: int| 0 <= q < idx@.len() ==> (#[trigger] idx@[q] as nat) < pre.spec_rows(),
                pre.wf(),
                forall|q: int| 0 <= q < p ==> (#[trigger] pre.sparse@[q]).0@.len() > 0,
            decreases n - p,
        {
            if self.sparse[p].0.len() == 0 {
                proof {
                    if p < pre.active@ {
                        assert(pre.sparse@[p as int].0@.len() > 0);
                    }
                    if p > pre.active@ {
                        assert(pre.sparse@[pre.active@ as int].0@.len() > 0);
                        assert(pre.sparse@[pre.active@ as int].0@.len() == 0);
                    }
                    assert(p == pre.active@);
                }
                let ghost giv = iv@;
                let ghost gblock = block;
                let slot = (iv, block);
                self.sparse[p] = slot;
                self.active = Ghost(self.active@ + 1);
                proof {
                    let post = *self;
                    assert forall|q: int| 0 <= q < post.active@ implies (#[trigger] post.sparse@[q]).0@.len() > 0 by {
                        if q != p {
                            assert(post.sparse@[q] == pre.sparse@[q]);
                        }
                    }
                    assert forall|q: int|
                        post.active@ <= q < post.sparse@.len() implies (#[trigger] post.sparse@[q]).0@.len() == 0 by {
                        assert(post.sparse@[q] == pre.sparse@[q]);
                    }
                    assert forall|q: int|
                        0 <= q < post.sparse@.len() implies {
                            let slot = #[trigger] post.sparse@[q];
                            &&& slot.1.wf()
                            &&& slot.1.spec_cols() == post.spec_cols()
                            &&& forall|t: int|
                                0 <= t < slot.0@.len() ==> (#[trigger] slot.0@[t] as nat) < post.spec_rows()
                            &&& q < post.active@ ==> slot.1.spec_rows() == slot.0@.len()
                        } by {
                        if q != p {
                            assert(post.sparse@[q] == pre.sparse@[q]);
                        } else {
                            assert(post.sparse@[q].1 == gblock);
                            assert(post.sparse@[q].0@ == giv);
                            assert(giv == idx@);
                            assert forall|t: int|
                                0 <= t < post.sparse@[q].0@.len() implies (#[trigger] post.sparse@[q].0@[t] as nat) < post.spec_rows() by {
                                assert(post.sparse@[q].0@[t] == idx@[t]);
                            }
                        }
                    }
                    assert(post.wf());
                }
                proof {
                    assert(self.sparse_model() =~= pre.sparse_model().push((idx@, g@)));
                    assert(self.dense_model() =~= pre.dense_model());
                }
                return ;
            }
            p = p + 1;
        }
        proof {
            if pre.active@ < n {
                assert(pre.sparse@[pre.active@ as int].0@.len() > 0);
                assert(pre.sparse@[pre.active@ as int].0@.len() == 0);
            }
            assert(pre.active@ == n);
        }
        let ghost giv = iv@;
        let ghost gblock = block;
        self.sparse.push((iv, block));
        self.active = Ghost(self.active@ + 1);
        proof {
            let post = *self;
            let ghost pn = pre.sparse@.len() as int;
            assert forall|q: int| 0 <= q < post.active@ implies (#[trigger] post.sparse@[q]).0@.len() > 0 by {
                if q != pn {
                    assert(post.sparse@[q] == pre.sparse@[q]);
                }
            }
            assert forall|q: int|
                post.active@ <= q < post.sparse@.len() implies (#[trigger] post.sparse@[q]).0@.len() == 0 by {
                assert(post.sparse@[q] == pre.sparse@[q]);
            }
            assert forall|q: int|
                0 <= q < post.sparse@.len() implies {
                    let slot = #[trigger] post.sparse@[q];
                    &&& slot.1.wf()
                    &&& slot.1.spec_cols() == post.spec_cols()
                    &&& forall|t: int|
                        0 <= t < slot.0@.len() ==> (#[trigger] slot.0@[t] as nat) < post.spec_rows()
                    &&& q < post.active@ ==> slot.1.spec_rows() == slot.0@.len()
                } by {
                if q != pn {
                    assert(post.sparse@[q] == pre.sparse@[q]);
                } else {
                    assert(post.sparse@[q].1 == gblock);
                    assert(post.sparse@[q].0@ == giv);
                    assert(giv == idx@);
                    assert forall|t: int|
                        0 <= t < post.sparse@[q].0@.len() implies (#[trigger] post.sparse@[q].0@[t] as nat) < post.spec_rows() by {
                        assert(post.sparse@[q].0@[t] == idx@[t]);
                    }
                }
            }
            assert(post.wf());
        }
        proof {
            assert(self.sparse_model() =~= pre.sparse_model().push((idx@, g@)));
            assert(self.dense_model() =~= pre.dense_model());
        }
    }

    /// The dense part of the gradient, materialized on its own: the dense
    /// buffer once one exists, the zero array of the parameter's shape
    /// before any dense contribution.
    pub fn dense_gradient(&self) -> (r: Tensor<E>)
        requires
            self.wf(),
        ensures
            r.wf(),
            r.spec_rows() == self.spec_rows(),
            r.spec_cols() == self.spec_cols(),
            r@ == self.dense_model(),
    {
        match &self.dense {
            Some(d) => d.duplicate(),
            None => Tensor::zeros(self.rows, self.cols),
        }
    }

    /// Reset every contribution. Buffers and slots are kept and cleared, so
    /// their allocations are reused across training steps, and the
    /// materialized gradient becomes exactly the zero array of the
    /// parameter's shape, whatever was accumulated before.
    pub fn zero_gradient(&mut self)
        requires
            old(self).wf(),
        ensures
            final(self).wf(),
            final(self).spec_rows() == old(self).spec_rows(),
            final(self).spec_cols() == old(self).spec_cols(),
            !final(self).spec_has_dense(),
            !final(self).spec_has_sparse(),
            final(self).dense_model() == seq_const(
                old(self).spec_rows() * old(self).spec_cols(),
                E::spec_zero(),
            ),
            final(self).sparse_model() == Seq::<(Seq<usize>, Seq<E>)>::empty(),
            final(self).grad_model() == seq_const(
                old(self).spec_rows() * old(self).spec_cols(),
                E::spec_zero(),
            ),
    {
        match &mut self.dense {
            Some(d) => {
                d.fill(E::zero());
            },
            None => {},
        }
        let n = self.sparse.len();
        let mut p: usize = 0;
        while p < n
            invariant
                p <= n,
                n == self.sparse@.len(),
                self.rows == old(self).rows,
                self.cols == old(self).cols,
                self.spec_rows() * self.spec_cols() <= usize::MAX,
                match self.dense {
                    Some(d) => d.wf() && d.spec_rows() == self.spec_rows() && d.spec_cols()
                        == self.spec_cols() && d@ == seq_const(
                        self.spec_rows() * self.spec_cols(),
                        E::spec_zero(),
                    ),
                    None => self.dense is None && old(self).dense is None,
                },
                forall|q: int|
                    0 <= q < p ==> (#[trigger] self.sparse@[q]).0@.len() == 0,
                forall|q: int|
                    0 <= q < n ==> {
                        let slot = #[trigger] self.sparse@[q];
                        slot.1.wf() && slot.1.spec_cols() == self.spec_cols()
                    },
            decreases n - p,
        {
            let slot = &mut self.sparse[p];
            slot.0.clear();
            p = p + 1;
        }
        self.has_dense = false;
        self.has_sparse = false;
        self.active = Ghost(0nat);
        proof {
            assert(self.sparse_model() =~= Seq::<(Seq<usize>, Seq<E>)>::empty());
            assert(self.dense_model() =~= seq_const(
                old(self).spec_rows() * old(self).spec_cols(),
                E::spec_zero(),
            ));
        }
    }

    /// Materialize the full dense gradient: every active sparse slot
    /// scattered, in arrival order, onto the dense part.
    pub fn materialized_gradient(&self) -> (r: Tensor<E>)
        requires
            self.wf(),
        ensures
            r.wf(),
            r.spec_rows() == self.spec_rows(),
            r.spec_cols() == self.spec_cols(),
            r@ == self.grad_model(),
    {
        let mut t = match &self.dense {
            Some(d) => d.duplicate(),
            None => Tensor::zeros(self.rows, self.cols),
        };
        proof {
            assert(t@ == self.dense_model());
        }
        let n = self.sparse.len();
        let mut p: usize = 0;
        while p < n
            invariant
                p <= n,
                n == self.sparse@.len(),
                self.wf(),
                t.wf(),
                t.spec_rows() == self.spec_rows(),
                t.spec_cols() == self.spec_cols(),
                t@ == scatter_slots(
                    self.dense_model(),
                    self.spec_cols(),
                    self.sparse_model(),
                    if p <= self.active@ {
                        p as int
                    } else {
                        self.active@ as int
                    },
                ),
            decreases n - p,
        {
            let ghost t_entry = t@;
            let m = self.sparse[p].0.len();
            let mut q: usize = 0;
            while q < m
                invariant
                    q <= m,
                    p < n,
                    n == self.sparse@.len(),
                    m == self.sparse@[p as int].0@.len(),
                    self.wf(),
                    t.wf(),
                    t.spec_rows() == self.spec_rows(),
                    t.spec_cols() == self.spec_cols(),
                    t@ == rows_scatter(
                        t_entry,
                        self.spec_cols(),
                        self.sparse@[p as int].0@,
                        self.sparse@[p as int].1@,
                        q as int,
                    ),
                decreases m - q,
            {
                let row = self.sparse[p].0[q];
                t.add_assign_row(row, &self.sparse[p].1, q);
                q = q + 1;
            }
            p = p + 1;
        }
        t
    }
}

/// An element-for-element copy of a row-index list.
fn clone_indices(v: &Vec<usize>) -> (r: Vec<usize>)
    ensures
        r@ == v@,
{
    let n = v.len();
    let mut r: Vec<usize> = Vec::new();
    let mut k: usize = 0;
    while k < n
        invariant
            k <= n,
            n == v@.len(),
            r@.len() == k,
            forall|t: int| 0 <= t < k ==> r@[t] == v@[t],
        decreases n - k,
    {
        r.push(v[k]);
        k = k + 1;
    }
    proof {
        assert(r@ =~= v@);
    }
    r
}

/// Sinks that accept additive gradient contributions.
pub trait GradientSink<T>: Sized {
    /// When a contribution may be recorded.
    spec fn sink_pre(&self, gradient: T) -> bool;

    /// What recording the contribution did to the sink.
    spec fn sink_post(&self, post: Self, gradient: T) -> bool;

    /// Record one gradient contribution.
    fn accumulate_gradient(&mut self, gradient: T)
        requires
            old(self).sink_pre(gradient),
        ensures
            old(self).sink_post(*final(self), gradient),
    ;
}

impl<'a, E: Scalar> GradientSink<&'a Tensor<E>> for GradientAccumulator<E> {
    /// A dense contribution must match the parameter's shape.
    open spec fn sink_pre(&self, gradient: &'a Tensor<E>) -> bool {
        &&& self.wf()
        &&& gradient.wf()
        &&& gradient.spec_rows() == self.spec_rows()
        &&& gradient.spec_cols() == self.spec_cols()
    }

    /// The dense part grows elementwise by the contribution; the sparse
    /// contributions are untouched.
    open spec fn sink_post(&self, post: Self, gradient: &'a Tensor<E>) -> bool {
        &&& post.wf()
        &&& post.spec_rows() == self.spec_rows()
        &&& post.spec_cols() == self.spec_cols()
        &&& post.dense_model() == seq_binary(BinFn::Add, self.dense_model(), gradient@)
        &&& post.sparse_model() == self.sparse_model()
        &&& post.spec_has_dense()
    }

    fn accumulate_gradient(&mut self, gradient: &'a Tensor<E>) {
        let ghost pre = *self;
        self.accumulate_dense(gradient);
        proof {
            assert(pre.sink_post(*self, gradient));
        }
    }
}

impl<'a, E: Scalar> GradientSink<(&'a Vec<usize>, &'a Tensor<E>)> for GradientAccumulator<E> {
    /// A sparse contribution pairs an index list with one gradient row per
    /// index, all indices in range.
    open spec fn sink_pre(&self, gradient: (&'a Vec<usize>, &'a Tensor<E>)) -> bool {
        &&& self.wf()
        &&& gradient.1.wf()
        &&& gradient.1.spec_cols() == self.spec_cols()
        &&& gradient.1.spec_rows() == gradient.0@.len()
        &&& forall|q: int|
            0 <= q < gradient.0@.len() ==> (#[trigger] gradient.0@[q] as nat) < self.spec_rows()
    }

    /// The pair joins the active sparse contributions (an empty index list
    /// contributes nothing); the dense part is untouched.
    open spec fn sink_post(&self, post: Self, gradient: (&'a Vec<usize>, &'a Tensor<E>)) -> bool {
        &&& post.wf()
        &&& post.spec_rows() == self.spec_rows()
        &&& post.spec_cols() == self.spec_cols()
        &&& post.dense_model() == self.dense_model()
        &&& post.sparse_model() == if gradient.0@.len() > 0 {
            self.sparse_model().push((gradient.0@, gradient.1@))
        } else {
            self.sparse_model()
        }
        &&& post.spec_has_sparse()
    }

    fn accumulate_gradient(&mut self, gradient: (&'a Vec<usize>, &'a Tensor<E>)) {
        let ghost pre = *self;
        let (idx, block) = gradient;
        self.accumulate_sparse(idx, block);
        proof {
            assert(pre.sink_post(*self, gradient));
        }
    }
}

/// Scattering rows whose indices all avoid row `row` leaves every cell of
/// that row unchanged.
proof fn lemma_rows_scatter_untouched<E: Scalar>(
    d: Seq<E>,
    cols: nat,
    idx: Seq<usize>,
    block: Seq<E>,
    p: int,
    k: int,
)
    requires
        0 <= k < d.len(),
        cols >= 1,
        forall|q: int| 0 <= q < p ==> (#[trigger] idx[q] as int) != k / cols as int,
    ensures
        rows_scatter(d, cols, idx, block, p)[k] == d[k],
        rows_scatter(d, cols, idx, block, p).len() == d.len(),
    decreases p,
{
    if p > 0 {
        lemma_rows_scatter_untouched(d, cols, idx, block, p - 1, k);
        let prev = rows_scatter(d, cols, idx, block, p - 1);
        let r = idx[p - 1] as int;
        assert(r != k / cols as int);
        assert(!(r * cols <= k < r * cols + cols)) by (nonlinear_arith)
            requires
                cols >= 1,
                r != k / cols as int,
                0 <= k,
        {
        }
    }
}

/// The length of a scatter never changes.
proof fn lemma_rows_scatter_len<E: Scalar>(
    d: Seq<E>,
    cols: nat,
    idx: Seq<usize>,
    block: Seq<E>,
    p: int,
)
    ensures
        rows_scatter(d, cols, idx, block, p).len() == d.len(),
    decreases p,
{
    if p > 0 {
        lemma_rows_scatter_len(d, cols, idx, block, p - 1);
    }
}

/// Sparse accumulation is local: starting from an all-zero dense part,
/// every cell of a row that no active sparse contribution indexes
/// materializes as exactly zero — contributions land only on the rows they
/// name.
pub proof fn lemma_sparse_accumulation_localized<E: Scalar>(acc: &GradientAccumulator<E>, k: int)
    requires
        acc.wf(),
        acc.spec_cols() >= 1,
        acc.dense_model() == seq_const(
            acc.spec_rows() * acc.spec_cols(),
            E::spec_zero(),
        ),
        0 <= k < acc.spec_rows() * acc.spec_cols(),
        forall|p: int, q: int|
            0 <= p < acc.sparse_model().len() && 0 <= q < acc.sparse_model()[p].0.len() ==> (
            #[trigger] acc.sparse_model()[p].0[q] as int) != k / acc.spec_cols() as int,
    ensures
        acc.grad_model()[k] == E::spec_zero(),
{
    lemma_scatter_untouched(
        acc.dense_model(),
        acc.spec_cols(),
        acc.sparse_model(),
        acc.sparse_model().len() as int,
        k,
    );
}

/// Scattering any number of slots that all avoid the row of cell `k`
/// leaves that cell unchanged.
pub proof fn lemma_scatter_untouched<E: Scalar>(
    d: Seq<E>,
    cols: nat,
    slots: Seq<(Seq<usize>, Seq<E>)>,
    n: int,
    k: int,
)
    requires
        0 <= k < d.len(),
        cols >= 1,
        forall|p: int, q: int|
            0 <= p < n && 0 <= q < slots[p].0.len() ==> (#[trigger] slots[p].0[q] as int) != k
                / cols as int,
    ensures
        scatter_slots(d, cols, slots, n)[k] == d[k],
        scatter_slots(d, cols, slots, n).len() == d.len(),
    decreases n,
{
    if n > 0 {
        lemma_scatter_untouched(d, cols, slots, n - 1, k);
        let prev = scatter_slots(d, cols, slots, n - 1);
        lemma_rows_scatter_len(prev, cols, slots[n - 1].0, slots[n - 1].1, slots[n - 1].0.len() as int);
        assert forall|q: int|
            0 <= q < slots[n - 1].0.len() implies (#[trigger] slots[n - 1].0[q] as int) != k
            / cols as int by {}
        lemma_rows_scatter_untouched(
            prev,
            cols,
            slots[n - 1].0,
            slots[n - 1].1,
            slots[n - 1].0.len() as int,
            k,
        );
    }
}

} // verus!
