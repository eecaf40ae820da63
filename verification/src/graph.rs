//! The computation graph: an arena of tagged nodes addressed by stable
//! integer indices.
//!
//! Nodes are created bottom-up and are immutable in topology thereafter;
//! every operand index is strictly smaller than the node that uses it, so the
//! arena is a DAG by construction and recursion over operands terminates.
//! Fan-out is the norm: one node may be consumed by several downstream nodes,
//! its value is recomputed in place by every forward pull, and its gradient
//! contributions are pushed once per consumer during backward.
//!
//! The central specification is [`eval`]: the denotation of a node as a
//! function of the leaf data (input values, parameter values, index lists).
//! [`Graph::forward`] proves that the cached value of the forwarded node —
//! and of everything it recomputes on the way — equals its denotation.

use vstd::prelude::*;

use crate::accumulator::{scatter_slots, GradientAccumulator};
use crate::scalar::Scalar;
use crate::tensor::{
    concat_cols_seq, lemma_cell_index, concat_rows_seq, gather_seq, mm_seq, relu_bwd_seq, scale_rows_seq,
    scatter_seq, seq_binary, seq_const, seq_unary, slice_seq, sm_bwd_seq, softmax_seq, sum_fold,
    transpose_seq, vdot_seq, BinFn, Tensor, UnFn,
};

verus! {

/// The axis along which two operands are stacked.
#[derive(Clone, Copy, PartialEq, Eq, Structural)]
pub enum Axis {
    /// Stack row-wise: the results' rows are the operands' rows, appended.
    Rows,
    /// Stack column-wise: the results' columns are appended.
    Cols,
}

/// The operator or leaf kind of one node, with its operand indices.
#[derive(Clone, Copy, PartialEq, Eq, Structural)]
pub enum Op {
    /// Externally fed dense leaf with a fixed shape.
    Input,
    /// Externally fed integer index list leaf.
    IndexInput,
    /// Trainable leaf: the payload is the index of its parameter record.
    Parameter(usize),
    /// Elementwise arithmetic on two same-shaped operands.
    Binary(BinFn, usize, usize),
    /// Elementwise transform of one operand.
    Unary(UnFn, usize),
    /// Row-wise max-shifted softmax.
    Softmax(usize),
    /// Row-wise max-shifted log-softmax.
    LogSoftmax(usize),
    /// The operand's transpose.
    Transpose(usize),
    /// Two operands stacked along an axis.
    Concat(Axis, usize, usize),
    /// A rectangle of the operand: `(operand, top row, left column, height,
    /// width)`.
    Slice(usize, usize, usize, usize, usize),
    /// Matrix multiplication.
    Dot(usize, usize),
    /// Batched row-wise dot product of two same-shaped operands.
    VectorDot(usize, usize),
    /// Row gather: `(parameter node, index-input node)`.
    Index(usize, usize),
    /// The sum of every element, as a `1 x 1` value.
    Sum(usize),
}

/// One arena slot: an operator or leaf, its cached value, and scratch data.
pub struct NodeData<E> {
    op: Op,
    value: Tensor<E>,
    indices: Vec<usize>,
    needs_grad: bool,
}

/// One trainable parameter: its value store and its gradient accumulator.
pub struct ParamData<E> {
    value: Tensor<E>,
    grad: GradientAccumulator<E>,
}

/// The node arena together with the parameter records it refers to.
pub struct Graph<E> {
    nodes: Vec<NodeData<E>>,
    params: Vec<ParamData<E>>,
}

impl<E: Scalar> Graph<E> {
    /// Number of nodes.
    pub closed spec fn node_count(&self) -> nat {
        self.nodes@.len()
    }

    /// Number of parameter records.
    pub closed spec fn param_count(&self) -> nat {
        self.params@.len()
    }

    /// The operator tag of node `i`.
    pub closed spec fn op_of(&self, i: int) -> Op {
        self.nodes@[i].op
    }

    /// The cached value of node `i`; a parameter node reads its parameter's
    /// store.
    pub closed spec fn val(&self, i: int) -> Seq<E> {
        match self.nodes@[i].op {
            Op::Parameter(p) => self.params@[p as int].value@,
            _ => self.nodes@[i].value@,
        }
    }

    /// The row count of node `i`'s value.
    pub closed spec fn rows_of(&self, i: int) -> nat {
        match self.nodes@[i].op {
            Op::Parameter(p) => self.params@[p as int].value.spec_rows(),
            _ => self.nodes@[i].value.spec_rows(),
        }
    }

    /// The column count of node `i`'s value.
    pub closed spec fn cols_of(&self, i: int) -> nat {
        match self.nodes@[i].op {
            Op::Parameter(p) => self.params@[p as int].value.spec_cols(),
            _ => self.nodes@[i].value.spec_cols(),
        }
    }

    /// The index list stored at node `i`: the current list of an index-input
    /// leaf, or the forward-time snapshot of a row-gather node.
    pub closed spec fn idx_of(&self, i: int) -> Seq<usize> {
        self.nodes@[i].indices@
    }

    /// Whether node `i` needs gradient: precomputed at construction.
    pub closed spec fn ng(&self, i: int) -> bool {
        self.nodes@[i].needs_grad
    }

    /// The value store of parameter record `p`.
    pub closed spec fn param_value(&self, p: int) -> Seq<E> {
        self.params@[p].value@
    }

    /// The gradient accumulator of parameter record `p`.
    pub closed spec fn param_grad(&self, p: int) -> GradientAccumulator<E> {
        self.params@[p].grad
    }

    /// The whole value tensor record of parameter `p`, for framing.
    pub closed spec fn param_store(&self, p: int) -> Tensor<E> {
        self.params@[p].value
    }

    /// The row count of parameter record `p`.
    pub closed spec fn param_rows(&self, p: int) -> nat {
        self.params@[p].value.spec_rows()
    }

    /// The column count of parameter record `p`.
    pub closed spec fn param_cols(&self, p: int) -> nat {
        self.params@[p].value.spec_cols()
    }

    /// The whole record of node `j`, for framing contracts.
    pub closed spec fn node_at(&self, j: int) -> NodeData<E> {
        self.nodes@[j]
    }

    /// The whole record of parameter `p`, for framing contracts.
    pub closed spec fn param_at(&self, p: int) -> ParamData<E> {
        self.params@[p]
    }

    /// The two graphs hold identical parameter records.
    pub open spec fn same_params(&self, other: &Self) -> bool {
        &&& self.param_count() == other.param_count()
        &&& forall|p: int|
            0 <= p < self.param_count() ==> #[trigger] self.param_at(p) == other.param_at(p)
    }

    /// The two graphs hold identical parameter records below `n`.
    pub open spec fn same_params_upto(&self, other: &Self, n: int) -> bool {
        forall|p: int| 0 <= p < n ==> #[trigger] self.param_at(p) == other.param_at(p)
    }

    /// The two graphs hold identical node records below `n`.
    pub open spec fn same_nodes_upto(&self, other: &Self, n: int) -> bool {
        forall|j: int| 0 <= j < n ==> #[trigger] self.node_at(j) == other.node_at(j)
    }

    /// Whether node `i` carries a tensor value (everything but an
    /// index-input leaf).
    pub open spec fn tensor_node(&self, i: int) -> bool {
        !(self.op_of(i) is IndexInput)
    }

    /// The parameter record index behind a parameter node.
    pub open spec fn pid_of(&self, i: int) -> int {
        match self.op_of(i) {
            Op::Parameter(p) => p as int,
            _ => -1,
        }
    }

    /// Whether `vals` may replace the list of index-input leaf `i`: every
    /// row-gather node driven by it keeps its shape and stays in range.
    pub open spec fn index_update_ok(&self, i: int, vals: Seq<usize>) -> bool {
        forall|j: int|
            0 <= j < self.node_count() ==> match #[trigger] self.op_of(j) {
                Op::Index(pn, ix) => ix == i ==> vals.len() == self.idx_of(j).len() && (forall|
                    q: int,
                |
                    0 <= q < vals.len() ==> (#[trigger] vals[q] as nat) < self.rows_of(pn as int)),
                _ => true,
            }
    }

    /// Whether a row-gather node's stored index snapshot equals its driving
    /// index-input leaf's current list. Trivially true of every other node.
    pub open spec fn gather_fresh(&self, j: int) -> bool {
        match self.op_of(j) {
            Op::Index(_pn, ix) => self.idx_of(j) == self.idx_of(ix as int),
            _ => true,
        }
    }

    /// Every row-gather node in the subgraph of node `i` carries a fresh
    /// snapshot: the backward pass of this subgraph will push its sparse
    /// contributions under exactly the index lists currently stored in the
    /// driving leaves.
    pub open spec fn subgraph_fresh(&self, i: int) -> bool
        decreases i,
    {
        if 0 <= i < self.node_count() {
            match self.op_of(i) {
                Op::Input => true,
                Op::IndexInput => true,
                Op::Parameter(_p) => true,
                Op::Binary(_f, l, r) => (l < i ==> self.subgraph_fresh(l as int)) && (r < i
                    ==> self.subgraph_fresh(r as int)),
                Op::Unary(_f, x) => x < i ==> self.subgraph_fresh(x as int),
                Op::Softmax(x) => x < i ==> self.subgraph_fresh(x as int),
                Op::LogSoftmax(x) => x < i ==> self.subgraph_fresh(x as int),
                Op::Transpose(x) => x < i ==> self.subgraph_fresh(x as int),
                Op::Concat(_axis, l, r) => (l < i ==> self.subgraph_fresh(l as int)) && (r < i
                    ==> self.subgraph_fresh(r as int)),
                Op::Slice(x, _r0, _c0, _h, _w) => x < i ==> self.subgraph_fresh(x as int),
                Op::Dot(l, r) => (l < i ==> self.subgraph_fresh(l as int)) && (r < i
                    ==> self.subgraph_fresh(r as int)),
                Op::VectorDot(l, r) => (l < i ==> self.subgraph_fresh(l as int)) && (r < i
                    ==> self.subgraph_fresh(r as int)),
                Op::Index(pn, ix) => self.gather_fresh(i) && (pn < i ==> self.subgraph_fresh(
                    pn as int,
                )) && (ix < i ==> self.subgraph_fresh(ix as int)),
                Op::Sum(x) => x < i ==> self.subgraph_fresh(x as int),
            }
        } else {
            true
        }
    }

    /// Structural consistency of node `i`: operand indices precede it,
    /// operand shapes agree with the operator, the cached value has the
    /// shape fixed at construction, and the needs-gradient flag is the
    /// logical OR of the operands' flags (`true` at parameters, `false` at
    /// the externally fed leaves).
    pub closed spec fn node_wf(&self, i: int) -> bool {
        &&& self.nodes@[i].value.wf()
        &&& match self.nodes@[i].op {
            Op::Input => !self.ng(i),
            Op::IndexInput => !self.ng(i),
            Op::Parameter(p) => {
                &&& (p as int) < self.params@.len()
                &&& self.ng(i)
            },
            Op::Binary(_f, l, r) => {
                &&& l < i && r < i
                &&& self.tensor_node(l as int) && self.tensor_node(r as int)
                &&& self.rows_of(l as int) == self.rows_of(r as int)
                &&& self.cols_of(l as int) == self.cols_of(r as int)
                &&& self.rows_of(i) == self.rows_of(l as int)
                &&& self.cols_of(i) == self.cols_of(l as int)
                &&& self.ng(i) == (self.ng(l as int) || self.ng(r as int))
            },
            Op::Unary(_f, x) => {
                &&& x < i
                &&& self.tensor_node(x as int)
                &&& self.rows_of(i) == self.rows_of(x as int)
                &&& self.cols_of(i) == self.cols_of(x as int)
                &&& self.ng(i) == self.ng(x as int)
            },
            Op::Softmax(x) => {
                &&& x < i
                &&& self.tensor_node(x as int)
                &&& self.cols_of(x as int) >= 1
                &&& self.rows_of(i) == self.rows_of(x as int)
                &&& self.cols_of(i) == self.cols_of(x as int)
                &&& self.ng(i) == self.ng(x as int)
            },
            Op::LogSoftmax(x) => {
                &&& x < i
                &&& self.tensor_node(x as int)
                &&& self.cols_of(x as int) >= 1
                &&& self.rows_of(i) == self.rows_of(x as int)
                &&& self.cols_of(i) == self.cols_of(x as int)
                &&& self.ng(i) == self.ng(x as int)
            },
            Op::Transpose(x) => {
                &&& x < i
                &&& self.tensor_node(x as int)
                &&& self.rows_of(i) == self.cols_of(x as int)
                &&& self.cols_of(i) == self.rows_of(x as int)
                &&& self.ng(i) == self.ng(x as int)
            },
            Op::Concat(axis, l, r) => {
                &&& l < i && r < i
                &&& self.tensor_node(l as int) && self.tensor_node(r as int)
                &&& match axis {
                    Axis::Rows => {
                        &&& self.cols_of(l as int) == self.cols_of(r as int)
                        &&& self.rows_of(i) == self.rows_of(l as int) + self.rows_of(r as int)
                        &&& self.cols_of(i) == self.cols_of(l as int)
                    },
                    Axis::Cols => {
                        &&& self.rows_of(l as int) == self.rows_of(r as int)
                        &&& self.rows_of(i) == self.rows_of(l as int)
                        &&& self.cols_of(i) == self.cols_of(l as int) + self.cols_of(r as int)
                    },
                }
                &&& self.ng(i) == (self.ng(l as int) || self.ng(r as int))
            },
            Op::Slice(x, r0, c0, h, w) => {
                &&& x < i
                &&& self.tensor_node(x as int)
                &&& r0 + h <= self.rows_of(x as int)
                &&& c0 + w <= self.cols_of(x as int)
                &&& self.rows_of(i) == h
                &&& self.cols_of(i) == w
                &&& self.ng(i) == self.ng(x as int)
            },
            Op::Dot(l, r) => {
                &&& l < i && r < i
                &&& self.tensor_node(l as int) && self.tensor_node(r as int)
                &&& self.cols_of(l as int) == self.rows_of(r as int)
                &&& self.rows_of(i) == self.rows_of(l as int)
                &&& self.cols_of(i) == self.cols_of(r as int)
                &&& self.ng(i) == (self.ng(l as int) || self.ng(r as int))
            },
            Op::VectorDot(l, r) => {
                &&& l < i && r < i
                &&& self.tensor_node(l as int) && self.tensor_node(r as int)
                &&& self.rows_of(l as int) == self.rows_of(r as int)
                &&& self.cols_of(l as int) == self.cols_of(r as int)
                &&& self.rows_of(i) == self.rows_of(l as int)
                &&& self.cols_of(i) == 1
                &&& self.ng(i) == (self.ng(l as int) || self.ng(r as int))
            },
            Op::Index(pn, ix) => {
                &&& pn < i && ix < i
                &&& self.op_of(pn as int) is Parameter
                &&& self.op_of(ix as int) is IndexInput
                &&& self.cols_of(i) == self.cols_of(pn as int)
                &&& self.rows_of(i) == self.idx_of(i).len()
                &&& self.idx_of(ix as int).len() == self.idx_of(i).len()
                &&& forall|q: int|
                    0 <= q < self.idx_of(i).len() ==> (#[trigger] self.idx_of(i)[q] as nat)
                        < self.rows_of(pn as int)
                &&& forall|q: int|
                    0 <= q < self.idx_of(ix as int).len() ==> (#[trigger] self.idx_of(
                        ix as int,
                    )[q] as nat) < self.rows_of(pn as int)
                &&& self.ng(i) == self.ng(pn as int)
            },
            Op::Sum(x) => {
                &&& x < i
                &&& self.tensor_node(x as int)
                &&& self.rows_of(i) == 1
                &&& self.cols_of(i) == 1
                &&& self.ng(i) == self.ng(x as int)
            },
        }
    }

    /// Structural consistency of the whole graph.
    pub closed spec fn wf(&self) -> bool {
        &&& forall|i: int| 0 <= i < self.node_count() ==> self.node_wf(i)
        &&& forall|p: int|
            0 <= p < self.param_count() ==> {
                &&& (#[trigger] self.params@[p]).value.wf()
                &&& self.params@[p].grad.wf()
                &&& self.params@[p].grad.spec_rows() == self.params@[p].value.spec_rows()
                &&& self.params@[p].grad.spec_cols() == self.params@[p].value.spec_cols()
            }
    }

    /// Two graphs agree on everything the denotation of nodes `< n` can
    /// read: operator tags, shapes, leaf values, index lists, parameter
    /// stores.
    pub open spec fn same_skeleton_upto(&self, other: &Self, n: int) -> bool {
        &&& n <= self.node_count()
        &&& n <= other.node_count()
        &&& self.param_count() == other.param_count()
        &&& forall|p: int|
            0 <= p < self.param_count() ==> #[trigger] self.param_value(p) == other.param_value(p)
        &&& forall|j: int|
            0 <= j < n ==> {
                &&& #[trigger] self.op_of(j) == other.op_of(j)
                &&& self.rows_of(j) == other.rows_of(j)
                &&& self.cols_of(j) == other.cols_of(j)
                &&& (self.op_of(j) is IndexInput ==> self.idx_of(j) == other.idx_of(j))
                &&& self.ng(j) == other.ng(j)
                &&& (self.op_of(j) is Input ==> self.val(j) == other.val(j))
            }
    }
}

impl<E: Scalar> Graph<E> {
    /// Agreement on everything a denotation can read, except the value of
    /// parameter record `p`: operator tags, shapes, flags, index-input
    /// lists, input-leaf values, and every other parameter's value.
    pub open spec fn same_skeleton_except(&self, other: &Self, n: int, p: int) -> bool {
        &&& n <= self.node_count()
        &&& n <= other.node_count()
        &&& self.param_count() == other.param_count()
        &&& forall|q: int|
            0 <= q < self.param_count() && q != p ==> #[trigger] self.param_value(q)
                == other.param_value(q)
        &&& forall|j: int|
            0 <= j < n ==> {
                &&& #[trigger] self.op_of(j) == other.op_of(j)
                &&& self.rows_of(j) == other.rows_of(j)
                &&& self.cols_of(j) == other.cols_of(j)
                &&& (self.op_of(j) is IndexInput ==> self.idx_of(j) == other.idx_of(j))
                &&& self.ng(j) == other.ng(j)
                &&& (self.op_of(j) is Input ==> self.val(j) == other.val(j))
            }
    }
}

/// The denotation of node `i`: its value as a function of the graph's leaf
/// data alone, independent of any cached operator value.
pub open spec fn eval<E: Scalar>(g: &Graph<E>, i: int) -> Seq<E>
    decreases i,
{
    if 0 <= i < g.node_count() {
        match g.op_of(i) {
            Op::Input => g.val(i),
            Op::IndexInput => Seq::empty(),
            Op::Parameter(_p) => g.val(i),
            Op::Binary(f, l, r) => if l < i && r < i {
                seq_binary(f, eval(g, l as int), eval(g, r as int))
            } else {
                Seq::empty()
            },
            Op::Unary(f, x) => if x < i {
                seq_unary(f, eval(g, x as int))
            } else {
                Seq::empty()
            },
            Op::Softmax(x) => if x < i {
                softmax_seq(false, eval(g, x as int), g.cols_of(x as int))
            } else {
                Seq::empty()
            },
            Op::LogSoftmax(x) => if x < i {
                softmax_seq(true, eval(g, x as int), g.cols_of(x as int))
            } else {
                Seq::empty()
            },
            Op::Transpose(x) => if x < i {
                transpose_seq(eval(g, x as int), g.rows_of(x as int), g.cols_of(x as int))
            } else {
                Seq::empty()
            },
            Op::Concat(axis, l, r) => if l < i && r < i {
                match axis {
                    Axis::Rows => concat_rows_seq(eval(g, l as int), eval(g, r as int)),
                    Axis::Cols => concat_cols_seq(
                        eval(g, l as int),
                        g.cols_of(l as int),
                        eval(g, r as int),
                        g.cols_of(r as int),
                        g.rows_of(l as int),
                    ),
                }
            } else {
                Seq::empty()
            },
            Op::Slice(x, r0, c0, h, w) => if x < i {
                slice_seq(
                    eval(g, x as int),
                    g.cols_of(x as int),
                    r0 as nat,
                    c0 as nat,
                    h as nat,
                    w as nat,
                )
            } else {
                Seq::empty()
            },
            Op::Dot(l, r) => if l < i && r < i {
                mm_seq(
                    eval(g, l as int),
                    g.cols_of(l as int),
                    eval(g, r as int),
                    g.cols_of(r as int),
                    g.rows_of(l as int),
                )
            } else {
                Seq::empty()
            },
            Op::VectorDot(l, r) => if l < i && r < i {
                vdot_seq(eval(g, l as int), eval(g, r as int), g.rows_of(l as int), g.cols_of(
                    l as int,
                ))
            } else {
                Seq::empty()
            },
            Op::Index(pn, ix) => if pn < i && ix < i {
                gather_seq(eval(g, pn as int), g.cols_of(pn as int), g.idx_of(ix as int))
            } else {
                Seq::empty()
            },
            Op::Sum(x) => if x < i {
                seq![sum_fold(eval(g, x as int), eval(g, x as int).len() as int)]
            } else {
                Seq::empty()
            },
        }
    } else {
        Seq::empty()
    }
}

/// The denotation of node `i` with the value of parameter record `p`
/// overridden by `v`: what the node would evaluate to if that parameter
/// held `v`, everything else unchanged.
pub open spec fn eval_sub<E: Scalar>(g: &Graph<E>, i: int, p: int, v: Seq<E>) -> Seq<E>
    decreases i,
{
    if 0 <= i < g.node_count() {
        match g.op_of(i) {
            Op::Input => g.val(i),
            Op::IndexInput => Seq::empty(),
            Op::Parameter(q) => if q as int == p {
                v
            } else {
                g.val(i)
            },
            Op::Binary(f, l, r) => if l < i && r < i {
                seq_binary(f, eval_sub(g, l as int, p, v), eval_sub(g, r as int, p, v))
            } else {
                Seq::empty()
            },
            Op::Unary(f, x) => if x < i {
                seq_unary(f, eval_sub(g, x as int, p, v))
            } else {
                Seq::empty()
            },
            Op::Softmax(x) => if x < i {
                softmax_seq(false, eval_sub(g, x as int, p, v), g.cols_of(x as int))
            } else {
                Seq::empty()
            },
            Op::LogSoftmax(x) => if x < i {
                softmax_seq(true, eval_sub(g, x as int, p, v), g.cols_of(x as int))
            } else {
                Seq::empty()
            },
            Op::Transpose(x) => if x < i {
                transpose_seq(eval_sub(g, x as int, p, v), g.rows_of(x as int), g.cols_of(x as int))
            } else {
                Seq::empty()
            },
            Op::Concat(axis, l, r) => if l < i && r < i {
                match axis {
                    Axis::Rows => concat_rows_seq(
                        eval_sub(g, l as int, p, v),
                        eval_sub(g, r as int, p, v),
                    ),
                    Axis::Cols => concat_cols_seq(
                        eval_sub(g, l as int, p, v),
                        g.cols_of(l as int),
                        eval_sub(g, r as int, p, v),
                        g.cols_of(r as int),
                        g.rows_of(l as int),
                    ),
                }
            } else {
                Seq::empty()
            },
            Op::Slice(x, r0, c0, h, w) => if x < i {
                slice_seq(
                    eval_sub(g, x as int, p, v),
                    g.cols_of(x as int),
                    r0 as nat,
                    c0 as nat,
                    h as nat,
                    w as nat,
                )
            } else {
                Seq::empty()
            },
            Op::Dot(l, r) => if l < i && r < i {
                mm_seq(
                    eval_sub(g, l as int, p, v),
                    g.cols_of(l as int),
                    eval_sub(g, r as int, p, v),
                    g.cols_of(r as int),
                    g.rows_of(l as int),
                )
            } else {
                Seq::empty()
            },
            Op::VectorDot(l, r) => if l < i && r < i {
                vdot_seq(
                    eval_sub(g, l as int, p, v),
                    eval_sub(g, r as int, p, v),
                    g.rows_of(l as int),
                    g.cols_of(l as int),
                )
            } else {
                Seq::empty()
            },
            Op::Index(pn, ix) => if pn < i && ix < i {
                gather_seq(eval_sub(g, pn as int, p, v), g.cols_of(pn as int), g.idx_of(ix as int))
            } else {
                Seq::empty()
            },
            Op::Sum(x) => if x < i {
                seq![
                    sum_fold(eval_sub(g, x as int, p, v), eval_sub(g, x as int, p, v).len() as int),
                ]
            } else {
                Seq::empty()
            },
        }
    } else {
        Seq::empty()
    }
}

/// Overriding a parameter with its own value changes no denotation.
pub proof fn lemma_eval_sub_identity<E: Scalar>(g: &Graph<E>, i: int, p: int)
    requires
        forall|j: int| 0 <= j <= i ==> #[trigger] g.node_wf(j),
    ensures
        eval_sub(g, i, p, g.param_value(p)) == eval(g, i),
    decreases i,
{
    if 0 <= i < g.node_count() {
        assert(g.node_wf(i));
        match g.op_of(i) {
            Op::Input => {},
            Op::IndexInput => {},
            Op::Parameter(_q) => {},
            Op::Binary(_f, l, r) => {
                lemma_eval_sub_identity(g, l as int, p);
                lemma_eval_sub_identity(g, r as int, p);
            },
            Op::Unary(_f, x) => {
                lemma_eval_sub_identity(g, x as int, p);
            },
            Op::Softmax(x) => {
                lemma_eval_sub_identity(g, x as int, p);
            },
            Op::LogSoftmax(x) => {
                lemma_eval_sub_identity(g, x as int, p);
            },
            Op::Transpose(x) => {
                lemma_eval_sub_identity(g, x as int, p);
            },
            Op::Concat(_axis, l, r) => {
                lemma_eval_sub_identity(g, l as int, p);
                lemma_eval_sub_identity(g, r as int, p);
            },
            Op::Slice(x, _r0, _c0, _h, _w) => {
                lemma_eval_sub_identity(g, x as int, p);
            },
            Op::Dot(l, r) => {
                lemma_eval_sub_identity(g, l as int, p);
                lemma_eval_sub_identity(g, r as int, p);
            },
            Op::VectorDot(l, r) => {
                lemma_eval_sub_identity(g, l as int, p);
                lemma_eval_sub_identity(g, r as int, p);
            },
            Op::Index(pn, _ix) => {
                lemma_eval_sub_identity(g, pn as int, p);
            },
            Op::Sum(x) => {
                lemma_eval_sub_identity(g, x as int, p);
            },
        }
    }
}

/// Overridden denotations read only the skeleton outside parameter `p`, so
/// graphs that agree there agree on them.
pub proof fn lemma_eval_sub_stable<E: Scalar>(
    g1: &Graph<E>,
    g2: &Graph<E>,
    i: int,
    p: int,
    v: Seq<E>,
)
    requires
        g1.same_skeleton_except(g2, i + 1, p),
        forall|j: int| 0 <= j < i + 1 ==> #[trigger] g1.node_wf(j),
    ensures
        eval_sub(g1, i, p, v) == eval_sub(g2, i, p, v),
    decreases i,
{
    if 0 <= i < g1.node_count() {
        assert(g1.node_wf(i));
        match g1.op_of(i) {
            Op::Input => {},
            Op::IndexInput => {},
            Op::Parameter(q) => {
                if q as int != p {
                    assert(g1.param_value(q as int) == g2.param_value(q as int));
                    assert(g1.val(i) == g2.val(i));
                }
            },
            Op::Binary(_f, l, r) => {
                lemma_eval_sub_stable(g1, g2, l as int, p, v);
                lemma_eval_sub_stable(g1, g2, r as int, p, v);
            },
            Op::Unary(_f, x) => {
                lemma_eval_sub_stable(g1, g2, x as int, p, v);
            },
            Op::Softmax(x) => {
                lemma_eval_sub_stable(g1, g2, x as int, p, v);
            },
            Op::LogSoftmax(x) => {
                lemma_eval_sub_stable(g1, g2, x as int, p, v);
            },
            Op::Transpose(x) => {
                lemma_eval_sub_stable(g1, g2, x as int, p, v);
            },
            Op::Concat(_axis, l, r) => {
                lemma_eval_sub_stable(g1, g2, l as int, p, v);
                lemma_eval_sub_stable(g1, g2, r as int, p, v);
            },
            Op::Slice(x, _r0, _c0, _h, _w) => {
                lemma_eval_sub_stable(g1, g2, x as int, p, v);
            },
            Op::Dot(l, r) => {
                lemma_eval_sub_stable(g1, g2, l as int, p, v);
                lemma_eval_sub_stable(g1, g2, r as int, p, v);
            },
            Op::VectorDot(l, r) => {
                lemma_eval_sub_stable(g1, g2, l as int, p, v);
                lemma_eval_sub_stable(g1, g2, r as int, p, v);
            },
            Op::Index(pn, _ix) => {
                lemma_eval_sub_stable(g1, g2, pn as int, p, v);
            },
            Op::Sum(x) => {
                lemma_eval_sub_stable(g1, g2, x as int, p, v);
            },
        }
    }
}

/// Skeleton-except agreement composes.
pub proof fn lemma_skeleton_except_trans<E: Scalar>(
    g1: &Graph<E>,
    g2: &Graph<E>,
    g3: &Graph<E>,
    n: int,
    p: int,
)
    requires
        g1.same_skeleton_except(g2, n, p),
        g2.same_skeleton_except(g3, n, p),
    ensures
        g1.same_skeleton_except(g3, n, p),
{
    assert forall|q: int|
        0 <= q < g1.param_count() && q != p implies #[trigger] g1.param_value(q) == g3.param_value(
        q,
    ) by {
        assert(g1.param_value(q) == g2.param_value(q));
        assert(g2.param_value(q) == g3.param_value(q));
    }
    assert forall|j: int|
        0 <= j < n implies {
            &&& #[trigger] g1.op_of(j) == g3.op_of(j)
            &&& g1.rows_of(j) == g3.rows_of(j)
            &&& g1.cols_of(j) == g3.cols_of(j)
            &&& (g1.op_of(j) is IndexInput ==> g1.idx_of(j) == g3.idx_of(j))
            &&& g1.ng(j) == g3.ng(j)
            &&& (g1.op_of(j) is Input ==> g1.val(j) == g3.val(j))
        } by {
        assert(g1.op_of(j) == g2.op_of(j));
        assert(g2.op_of(j) == g3.op_of(j));
    }
}

/// Full skeleton agreement is skeleton-except agreement for any parameter.
pub proof fn lemma_skeleton_to_except<E: Scalar>(g1: &Graph<E>, g2: &Graph<E>, n: int, p: int)
    requires
        g1.same_skeleton_upto(g2, n),
    ensures
        g1.same_skeleton_except(g2, n, p),
{
    assert forall|j: int|
        0 <= j < n implies {
            &&& #[trigger] g1.op_of(j) == g2.op_of(j)
            &&& g1.rows_of(j) == g2.rows_of(j)
            &&& g1.cols_of(j) == g2.cols_of(j)
            &&& (g1.op_of(j) is IndexInput ==> g1.idx_of(j) == g2.idx_of(j))
            &&& g1.ng(j) == g2.ng(j)
            &&& (g1.op_of(j) is Input ==> g1.val(j) == g2.val(j))
        } by {
        assert(g1.op_of(j) == g2.op_of(j));
    }
}

/// Denotations only read the skeleton: graphs that agree on it agree on
/// every denotation below the agreement bound.
pub proof fn lemma_eval_stable<E: Scalar>(g1: &Graph<E>, g2: &Graph<E>, i: int)
    requires
        g1.same_skeleton_upto(g2, i + 1),
        forall|j: int| 0 <= j < i + 1 ==> #[trigger] g1.node_wf(j),
    ensures
        eval(g1, i) == eval(g2, i),
    decreases i,
{
    if 0 <= i < g1.node_count() {
        assert(g1.node_wf(i));
        match g1.op_of(i) {
            Op::Input => {},
            Op::IndexInput => {},
            Op::Parameter(p) => {
                assert(g1.param_value(p as int) == g2.param_value(p as int));
                assert(g1.val(i) == g2.val(i));
            },
            Op::Binary(_f, l, r) => {
                lemma_eval_stable(g1, g2, l as int);
                lemma_eval_stable(g1, g2, r as int);
            },
            Op::Unary(_f, x) => {
                lemma_eval_stable(g1, g2, x as int);
            },
            Op::Softmax(x) => {
                lemma_eval_stable(g1, g2, x as int);
            },
            Op::LogSoftmax(x) => {
                lemma_eval_stable(g1, g2, x as int);
            },
            Op::Transpose(x) => {
                lemma_eval_stable(g1, g2, x as int);
            },
            Op::Concat(_axis, l, r) => {
                lemma_eval_stable(g1, g2, l as int);
                lemma_eval_stable(g1, g2, r as int);
            },
            Op::Slice(x, _r0, _c0, _h, _w) => {
                lemma_eval_stable(g1, g2, x as int);
            },
            Op::Dot(l, r) => {
                lemma_eval_stable(g1, g2, l as int);
                lemma_eval_stable(g1, g2, r as int);
            },
            Op::VectorDot(l, r) => {
                lemma_eval_stable(g1, g2, l as int);
                lemma_eval_stable(g1, g2, r as int);
            },
            Op::Index(pn, ix) => {
                lemma_eval_stable(g1, g2, pn as int);
            },
            Op::Sum(x) => {
                lemma_eval_stable(g1, g2, x as int);
            },
        }
    }
}

/// Appending a node disturbs no existing node's structural consistency:
/// consistency of node `j` reads only the prefix up to `j` and the
/// parameter records, and both are preserved (records may be appended).
proof fn lemma_wf_append<E: Scalar>(g1: &Graph<E>, g2: &Graph<E>)
    requires
        g1.node_count() <= g2.node_count(),
        g1.param_count() <= g2.param_count(),
        forall|j: int| 0 <= j < g1.node_count() ==> g2.nodes@[j] == g1.nodes@[j],
        forall|p: int| 0 <= p < g1.param_count() ==> g2.params@[p] == g1.params@[p],
        forall|j: int| 0 <= j < g1.node_count() ==> #[trigger] g1.node_wf(j),
    ensures
        forall|j: int| 0 <= j < g1.node_count() ==> #[trigger] g2.node_wf(j),
{
    assert forall|j: int| 0 <= j < g1.node_count() implies #[trigger] g2.node_wf(j) by {
        assert(g1.node_wf(j));
        assert(g2.nodes@[j] == g1.nodes@[j]);
        lemma_node_wf_same(g1, g2, j);
    }
}

/// Node consistency transfers between graphs that agree on the node, its
/// operands, and the parameter record it may name.
proof fn lemma_node_wf_same<E: Scalar>(g1: &Graph<E>, g2: &Graph<E>, j: int)
    requires
        0 <= j < g1.node_count(),
        j < g2.node_count(),
        g1.param_count() <= g2.param_count(),
        forall|k: int| 0 <= k <= j ==> #[trigger] g1.node_wf(k),
        g2.nodes@[j] == g1.nodes@[j],
        forall|k: int| 0 <= k <= j ==> g2.nodes@[k] == g1.nodes@[k],
        forall|p: int| 0 <= p < g1.param_count() ==> g2.params@[p] == g1.params@[p],
    ensures
        g2.node_wf(j),
{
    assert forall|k: int| 0 <= k <= j implies #[trigger] g2.op_of(k) == g1.op_of(k) && g2.rows_of(k)
        == g1.rows_of(k) && g2.cols_of(k) == g1.cols_of(k) && g2.idx_of(k) == g1.idx_of(k)
        && g2.ng(k) == g1.ng(k) by {
        assert(g2.nodes@[k] == g1.nodes@[k]);
        assert(g1.node_wf(k));
        match g1.nodes@[k].op {
            Op::Parameter(p) => {
                assert(g2.params@[p as int] == g1.params@[p as int]);
            },
            _ => {},
        }
    }
    assert(g1.node_wf(j));
    assert(g2.op_of(j) == g1.op_of(j));
    match g1.nodes@[j].op {
        Op::Input => {},
        Op::IndexInput => {},
        Op::Parameter(_p) => {},
        Op::Binary(_f, l, r) => {
            assert(g2.op_of(l as int) == g1.op_of(l as int));
            assert(g2.op_of(r as int) == g1.op_of(r as int));
        },
        Op::Unary(_f, x) => {
            assert(g2.op_of(x as int) == g1.op_of(x as int));
        },
        Op::Softmax(x) => {
            assert(g2.op_of(x as int) == g1.op_of(x as int));
        },
        Op::LogSoftmax(x) => {
            assert(g2.op_of(x as int) == g1.op_of(x as int));
        },
        Op::Transpose(x) => {
            assert(g2.op_of(x as int) == g1.op_of(x as int));
        },
        Op::Concat(_axis, l, r) => {
            assert(g2.op_of(l as int) == g1.op_of(l as int));
            assert(g2.op_of(r as int) == g1.op_of(r as int));
        },
        Op::Slice(x, _r0, _c0, _h, _w) => {
            assert(g2.op_of(x as int) == g1.op_of(x as int));
        },
        Op::Dot(l, r) => {
            assert(g2.op_of(l as int) == g1.op_of(l as int));
            assert(g2.op_of(r as int) == g1.op_of(r as int));
        },
        Op::VectorDot(l, r) => {
            assert(g2.op_of(l as int) == g1.op_of(l as int));
            assert(g2.op_of(r as int) == g1.op_of(r as int));
        },
        Op::Index(pn, ix) => {
            assert(g2.op_of(pn as int) == g1.op_of(pn as int));
            assert(g2.op_of(ix as int) == g1.op_of(ix as int));
        },
        Op::Sum(x) => {
            assert(g2.op_of(x as int) == g1.op_of(x as int));
        },
    }
}

/// Replacing the cached value (and, for a row-gather node, the index
/// snapshot) of node `i` — shape preserved, and consistently with `i`'s own
/// constraints — disturbs no other node's structural consistency.
proof fn lemma_wf_update<E: Scalar>(g1: &Graph<E>, g2: &Graph<E>, i: int)
    requires
        0 <= i < g1.node_count(),
        g2.node_count() == g1.node_count(),
        g2.params@ == g1.params@,
        forall|j: int| 0 <= j < g1.node_count() && j != i ==> g2.nodes@[j] == g1.nodes@[j],
        g2.op_of(i) == g1.op_of(i),
        g2.ng(i) == g1.ng(i),
        g2.rows_of(i) == g1.rows_of(i),
        g2.cols_of(i) == g1.cols_of(i),
        forall|j: int| 0 <= j < g1.node_count() ==> #[trigger] g1.node_wf(j),
        g2.node_wf(i),
        !(g1.op_of(i) is IndexInput),
    ensures
        forall|j: int| 0 <= j < g2.node_count() ==> #[trigger] g2.node_wf(j),
{
    assert forall|k: int| 0 <= k < g1.node_count() implies #[trigger] g2.op_of(k) == g1.op_of(k)
        && g2.rows_of(k) == g1.rows_of(k) && g2.cols_of(k) == g1.cols_of(k) && g2.ng(k) == g1.ng(k)
        && (k != i ==> g2.idx_of(k) == g1.idx_of(k) && g2.nodes@[k] == g1.nodes@[k]) by {
        if k != i {
            assert(g2.nodes@[k] == g1.nodes@[k]);
        }
    }
    assert forall|j: int| 0 <= j < g2.node_count() implies #[trigger] g2.node_wf(j) by {
        assert(g1.node_wf(j));
        if j != i {
            match g2.nodes@[j].op {
                Op::Index(pn, ix) => {
                    assert(g2.idx_of(ix as int) == g1.idx_of(ix as int));
                },
                _ => {},
            }
        }
    }
}

impl<E: Scalar> Graph<E> {
    /// An empty graph.
    pub fn new() -> (r: Self)
        ensures
            r.wf(),
            r.node_count() == 0,
            r.param_count() == 0,
    {
        Graph { nodes: Vec::new(), params: Vec::new() }
    }

    /// Number of nodes, for callers.
    pub fn len(&self) -> (n: usize)
        ensures
            n == self.node_count(),
    {
        self.nodes.len()
    }

    /// A borrow of the tensor value of node `i` (a parameter node reads its
    /// live store).
    pub fn value_ref(&self, i: usize) -> (r: &Tensor<E>)
        requires
            self.wf(),
            i < self.node_count(),
            self.tensor_node(i as int),
        ensures
            r@ == self.val(i as int),
            r.wf(),
            r.spec_rows() == self.rows_of(i as int),
            r.spec_cols() == self.cols_of(i as int),
    {
        proof {
            assert(self.node_wf(i as int));
        }
        match &self.nodes[i].op {
            Op::Parameter(p) => &self.params[*p].value,
            _ => &self.nodes[i].value,
        }
    }

    /// The tensor value of node `i`, copied out.
    pub fn value_of(&self, i: usize) -> (r: Tensor<E>)
        requires
            self.wf(),
            i < self.node_count(),
            self.tensor_node(i as int),
        ensures
            r@ == self.val(i as int),
            r.wf(),
            r.spec_rows() == self.rows_of(i as int),
            r.spec_cols() == self.cols_of(i as int),
    {
        self.value_ref(i).duplicate()
    }

    /// The current index list of an index-input leaf, copied out.
    pub fn index_value_of(&self, i: usize) -> (r: Vec<usize>)
        requires
            self.wf(),
            i < self.node_count(),
            self.op_of(i as int) is IndexInput,
        ensures
            r@ == self.idx_of(i as int),
    {
        clone_index_list(&self.nodes[i].indices)
    }

    /// The operator tag of node `i`, for callers.
    pub fn op_at(&self, i: usize) -> (o: Op)
        requires
            i < self.node_count(),
        ensures
            o == self.op_of(i as int),
    {
        self.nodes[i].op
    }

    /// Whether node `i` takes part in the backward pass.
    pub fn needs_gradient_of(&self, i: usize) -> (r: bool)
        requires
            i < self.node_count(),
        ensures
            r == self.ng(i as int),
    {
        self.nodes[i].needs_grad
    }

    /// Append a fully formed node record; internal building block of the
    /// constructors.
    fn append_node(
        &mut self,
        op: Op,
        value: Tensor<E>,
        indices: Vec<usize>,
        needs_grad: bool,
    ) -> (id: usize)
        ensures
            id == old(self).node_count(),
            final(self).node_count() == old(self).node_count() + 1,
            final(self).params@ == old(self).params@,
            forall|j: int|
                0 <= j < old(self).node_count() ==> final(self).nodes@[j] == old(self).nodes@[j],
            final(self).op_of(id as int) == op,
            final(self).nodes@[id as int].value == value,
            final(self).idx_of(id as int) == indices@,
            final(self).ng(id as int) == needs_grad,
    {
        let id = self.nodes.len();
        self.nodes.push(NodeData { op, value, indices, needs_grad });
        id
    }

    /// Create an externally fed dense leaf. Its shape is fixed for the life
    /// of the graph by the value given here.
    pub fn input(&mut self, value: Tensor<E>) -> (id: usize)
        requires
            old(self).wf(),
            value.wf(),
        ensures
            final(self).wf(),
            id == old(self).node_count(),
            final(self).node_count() == old(self).node_count() + 1,
            final(self).same_params(old(self)),
            final(self).same_nodes_upto(old(self), old(self).node_count() as int),
            final(self).op_of(id as int) == Op::Input,
            final(self).val(id as int) == value@,
            final(self).rows_of(id as int) == value.spec_rows(),
            final(self).cols_of(id as int) == value.spec_cols(),
            !final(self).ng(id as int),
    {
        let ghost pre = *self;
        let id = self.append_node(Op::Input, value, Vec::new(), false);
        proof {
            assert(self.node_wf(id as int));
            lemma_wf_append(&pre, self);
        }
        id
    }

    /// Create an externally fed integer index list leaf.
    pub fn index_input(&mut self, indices: &Vec<usize>) -> (id: usize)
        requires
            old(self).wf(),
        ensures
            final(self).wf(),
            id == old(self).node_count(),
            final(self).node_count() == old(self).node_count() + 1,
            final(self).same_params(old(self)),
            final(self).same_nodes_upto(old(self), old(self).node_count() as int),
            final(self).op_of(id as int) == Op::IndexInput,
            final(self).idx_of(id as int) == indices@,
            !final(self).ng(id as int),
    {
        let ghost pre = *self;
        let iv = clone_index_list(indices);
        let id = self.append_node(Op::IndexInput, Tensor::zeros(0, 0), iv, false);
        proof {
            assert(self.node_wf(id as int));
            lemma_wf_append(&pre, self);
        }
        id
    }

    /// Create a trainable parameter leaf: a fresh parameter record holding
    /// `value`, with an empty gradient accumulator, plus the node that
    /// reads it.
    pub fn parameter(&mut self, value: Tensor<E>) -> (id: usize)
        requires
            old(self).wf(),
            value.wf(),
        ensures
            final(self).wf(),
            id == old(self).node_count(),
            final(self).node_count() == old(self).node_count() + 1,
            final(self).param_count() == old(self).param_count() + 1,
            final(self).same_params_upto(old(self), old(self).param_count() as int),
            final(self).same_nodes_upto(old(self), old(self).node_count() as int),
            final(self).op_of(id as int) == Op::Parameter(old(self).param_count() as usize),
            final(self).pid_of(id as int) == old(self).param_count() as int,
            final(self).val(id as int) == value@,
            final(self).rows_of(id as int) == value.spec_rows(),
            final(self).cols_of(id as int) == value.spec_cols(),
            final(self).ng(id as int),
            final(self).param_value(old(self).param_count() as int) == value@,
            final(self).param_grad(old(self).param_count() as int).sparse_model() == Seq::<
                (Seq<usize>, Seq<E>),
            >::empty(),
            final(self).param_grad(old(self).param_count() as int).dense_model() == seq_const(
                value.spec_rows() * value.spec_cols(),
                E::spec_zero(),
            ),
            final(self).param_grad(old(self).param_count() as int).grad_model() == seq_const(
                value.spec_rows() * value.spec_cols(),
                E::spec_zero(),
            ),
            !final(self).param_grad(old(self).param_count() as int).spec_has_dense(),
            !final(self).param_grad(old(self).param_count() as int).spec_has_sparse(),
    {
        let ghost pre = *self;
        let pid = self.params.len();
        let rows = value.rows();
        let cols = value.cols();
        let n = value.count();
        let grad = GradientAccumulator::new(rows, cols);
        self.params.push(ParamData { value, grad });
        let id = self.append_node(Op::Parameter(pid), Tensor::zeros(0, 0), Vec::new(), true);
        proof {
            assert(self.node_wf(id as int));
            lemma_wf_append(&pre, self);
        }
        id
    }
}

/// Appending records changes no accessor of the existing prefix.
proof fn lemma_accessors_preserved<E: Scalar>(g1: &Graph<E>, g2: &Graph<E>)
    requires
        g1.node_count() <= g2.node_count(),
        g1.param_count() <= g2.param_count(),
        forall|j: int| 0 <= j < g1.node_count() ==> g2.nodes@[j] == g1.nodes@[j],
        forall|p: int| 0 <= p < g1.param_count() ==> g2.params@[p] == g1.params@[p],
        forall|j: int| 0 <= j < g1.node_count() ==> #[trigger] g1.node_wf(j),
    ensures
        forall|k: int|
            0 <= k < g1.node_count() ==> #[trigger] g2.op_of(k) == g1.op_of(k) && g2.rows_of(k)
                == g1.rows_of(k) && g2.cols_of(k) == g1.cols_of(k) && g2.idx_of(k) == g1.idx_of(k)
                && g2.ng(k) == g1.ng(k) && g2.val(k) == g1.val(k),
{
    assert forall|k: int|
        0 <= k < g1.node_count() implies #[trigger] g2.op_of(k) == g1.op_of(k) && g2.rows_of(k)
        == g1.rows_of(k) && g2.cols_of(k) == g1.cols_of(k) && g2.idx_of(k) == g1.idx_of(k)
        && g2.ng(k) == g1.ng(k) && g2.val(k) == g1.val(k) by {
        assert(g2.nodes@[k] == g1.nodes@[k]);
        assert(g1.node_wf(k));
        match g1.nodes@[k].op {
            Op::Parameter(p) => {
                assert(g2.params@[p as int] == g1.params@[p as int]);
            },
            _ => {},
        }
    }
}

/// A one-node extension whose new node is consistent keeps the whole graph
/// consistent.
proof fn lemma_wf_after_append<E: Scalar>(g1: &Graph<E>, g2: &Graph<E>)
    requires
        g1.wf(),
        g2.node_count() == g1.node_count() + 1,
        g1.param_count() <= g2.param_count(),
        forall|j: int| 0 <= j < g1.node_count() ==> g2.nodes@[j] == g1.nodes@[j],
        forall|p: int| 0 <= p < g1.param_count() ==> g2.params@[p] == g1.params@[p],
        forall|p: int|
            g1.param_count() <= p < g2.param_count() ==> {
                &&& (#[trigger] g2.params@[p]).value.wf()
                &&& g2.params@[p].grad.wf()
                &&& g2.params@[p].grad.spec_rows() == g2.params@[p].value.spec_rows()
                &&& g2.params@[p].grad.spec_cols() == g2.params@[p].value.spec_cols()
            },
        g2.node_wf(g1.node_count() as int),
    ensures
        g2.wf(),
{
    lemma_wf_append(g1, g2);
    assert forall|j: int| 0 <= j < g2.node_count() implies #[trigger] g2.node_wf(j) by {
        if j < g1.node_count() {
            assert(g2.node_wf(j));
        }
    }
    assert forall|p: int|
        0 <= p < g2.param_count() implies {
            &&& (#[trigger] g2.params@[p]).value.wf()
            &&& g2.params@[p].grad.wf()
            &&& g2.params@[p].grad.spec_rows() == g2.params@[p].value.spec_rows()
            &&& g2.params@[p].grad.spec_cols() == g2.params@[p].value.spec_cols()
        } by {
        if p < g1.param_count() {
            assert(g2.params@[p] == g1.params@[p]);
            assert(g1.params@[p].value.wf());
        }
    }
}

/// An element-for-element copy of a row-index list.
fn clone_index_list(v: &Vec<usize>) -> (r: Vec<usize>)
    ensures
        r@ == v@,
{
    let n = v.len();
    let mut r: Vec<usize> = Vec::new();
    let mut k: usize = 0;
    while k < n
        invariant
            k <= n,
            n == v@.len(),
            r@.len() == k,
            forall|t: int| 0 <= t < k ==> r@[t] == v@[t],
        decreases n - k,
    {
        r.push(v[k]);
        k = k + 1;
    }
    proof {
        assert(r@ =~= v@);
    }
    r
}

impl<E: Scalar> Graph<E> {
    /// The common frame of every node constructor: one node appended, all
    /// existing records untouched.
    pub open spec fn extended_by_one(&self, pre: &Self, id: usize) -> bool {
        &&& id == pre.node_count()
        &&& self.node_count() == pre.node_count() + 1
        &&& self.same_params(pre)
        &&& self.same_nodes_upto(pre, pre.node_count() as int)
    }

    /// Create an elementwise arithmetic node over two same-shaped operands.
    /// Its value is computed eagerly from the operands' current values.
    pub fn binary(&mut self, f: BinFn, l: usize, r: usize) -> (id: usize)
        requires
            old(self).wf(),
            l < old(self).node_count(),
            r < old(self).node_count(),
            old(self).tensor_node(l as int),
            old(self).tensor_node(r as int),
            old(self).rows_of(l as int) == old(self).rows_of(r as int),
            old(self).cols_of(l as int) == old(self).cols_of(r as int),
        ensures
            final(self).wf(),
            final(self).extended_by_one(old(self), id),
            final(self).op_of(id as int) == Op::Binary(f, l, r),
            final(self).val(id as int) == seq_binary(f, old(self).val(l as int), old(self).val(r as int)),
            final(self).rows_of(id as int) == old(self).rows_of(l as int),
            final(self).cols_of(id as int) == old(self).cols_of(l as int),
            final(self).ng(id as int) == (old(self).ng(l as int) || old(self).ng(r as int)),
    {
        let ghost pre = *self;
        let needs = self.needs_gradient_of(l) || self.needs_gradient_of(r);
        let t = {
            let a = self.value_ref(l);
            let b = self.value_ref(r);
            Tensor::map_binary(f, a, b)
        };
        let id = self.append_node(Op::Binary(f, l, r), t, Vec::new(), needs);
        proof {
            lemma_accessors_preserved(&pre, self);
            assert(self.node_wf(id as int));
            lemma_wf_after_append(&pre, self);
        }
        id
    }

    /// Create an elementwise transform node.
    pub fn unary(&mut self, f: UnFn, x: usize) -> (id: usize)
        requires
            old(self).wf(),
            x < old(self).node_count(),
            old(self).tensor_node(x as int),
        ensures
            final(self).wf(),
            final(self).extended_by_one(old(self), id),
            final(self).op_of(id as int) == Op::Unary(f, x),
            final(self).val(id as int) == seq_unary(f, old(self).val(x as int)),
            final(self).rows_of(id as int) == old(self).rows_of(x as int),
            final(self).cols_of(id as int) == old(self).cols_of(x as int),
            final(self).ng(id as int) == old(self).ng(x as int),
    {
        let ghost pre = *self;
        let needs = self.needs_gradient_of(x);
        let t = Tensor::map_unary(f, self.value_ref(x));
        let id = self.append_node(Op::Unary(f, x), t, Vec::new(), needs);
        proof {
            lemma_accessors_preserved(&pre, self);
            assert(self.node_wf(id as int));
            lemma_wf_after_append(&pre, self);
        }
        id
    }

    /// Create a row-wise softmax node (`log_form` selects log-softmax).
    pub fn softmax(&mut self, x: usize, log_form: bool) -> (id: usize)
        requires
            old(self).wf(),
            x < old(self).node_count(),
            old(self).tensor_node(x as int),
            old(self).cols_of(x as int) >= 1,
        ensures
            final(self).wf(),
            final(self).extended_by_one(old(self), id),
            final(self).op_of(id as int) == (if log_form {
                Op::LogSoftmax(x)
            } else {
                Op::Softmax(x)
            }),
            final(self).val(id as int) == softmax_seq(
                log_form,
                old(self).val(x as int),
                old(self).cols_of(x as int),
            ),
            final(self).rows_of(id as int) == old(self).rows_of(x as int),
            final(self).cols_of(id as int) == old(self).cols_of(x as int),
            final(self).ng(id as int) == old(self).ng(x as int),
    {
        let ghost pre = *self;
        let needs = self.needs_gradient_of(x);
        let t = self.value_ref(x).softmax_rows(log_form);
        let op = if log_form {
            Op::LogSoftmax(x)
        } else {
            Op::Softmax(x)
        };
        let id = self.append_node(op, t, Vec::new(), needs);
        proof {
            lemma_accessors_preserved(&pre, self);
            assert(self.node_wf(id as int));
            lemma_wf_after_append(&pre, self);
        }
        id
    }

    /// Create a transpose node.
    pub fn transpose(&mut self, x: usize) -> (id: usize)
        requires
            old(self).wf(),
            x < old(self).node_count(),
            old(self).tensor_node(x as int),
        ensures
            final(self).wf(),
            final(self).extended_by_one(old(self), id),
            final(self).op_of(id as int) == Op::Transpose(x),
            final(self).val(id as int) == transpose_seq(
                old(self).val(x as int),
                old(self).rows_of(x as int),
                old(self).cols_of(x as int),
            ),
            final(self).rows_of(id as int) == old(self).cols_of(x as int),
            final(self).cols_of(id as int) == old(self).rows_of(x as int),
            final(self).ng(id as int) == old(self).ng(x as int),
    {
        let ghost pre = *self;
        let needs = self.needs_gradient_of(x);
        let t = self.value_ref(x).transpose();
        let id = self.append_node(Op::Transpose(x), t, Vec::new(), needs);
        proof {
            lemma_accessors_preserved(&pre, self);
            assert(self.node_wf(id as int));
            lemma_wf_after_append(&pre, self);
        }
        id
    }

    /// Create a stacking node along the given axis.
    pub fn concat(&mut self, axis: Axis, l: usize, r: usize) -> (id: usize)
        requires
            old(self).wf(),
            l < old(self).node_count(),
            r < old(self).node_count(),
            old(self).tensor_node(l as int),
            old(self).tensor_node(r as int),
            match axis {
                Axis::Rows => old(self).cols_of(l as int) == old(self).cols_of(r as int) && old(
                    self,
                ).rows_of(l as int) + old(self).rows_of(r as int) <= usize::MAX,
                Axis::Cols => old(self).rows_of(l as int) == old(self).rows_of(r as int) && old(
                    self,
                ).cols_of(l as int) + old(self).cols_of(r as int) <= usize::MAX,
            },
            old(self).val(l as int).len() + old(self).val(r as int).len() <= usize::MAX,
        ensures
            final(self).wf(),
            final(self).extended_by_one(old(self), id),
            final(self).op_of(id as int) == Op::Concat(axis, l, r),
            final(self).val(id as int) == (match axis {
                Axis::Rows => concat_rows_seq(old(self).val(l as int), old(self).val(r as int)),
                Axis::Cols => concat_cols_seq(
                    old(self).val(l as int),
                    old(self).cols_of(l as int),
                    old(self).val(r as int),
                    old(self).cols_of(r as int),
                    old(self).rows_of(l as int),
                ),
            }),
            final(self).rows_of(id as int) == (match axis {
                Axis::Rows => old(self).rows_of(l as int) + old(self).rows_of(r as int),
                Axis::Cols => old(self).rows_of(l as int),
            }),
            final(self).cols_of(id as int) == (match axis {
                Axis::Rows => old(self).cols_of(l as int),
                Axis::Cols => old(self).cols_of(l as int) + old(self).cols_of(r as int),
            }),
            final(self).ng(id as int) == (old(self).ng(l as int) || old(self).ng(r as int)),
    {
        let ghost pre = *self;
        let needs = self.needs_gradient_of(l) || self.needs_gradient_of(r);
        let t = {
            let a = self.value_ref(l);
            let b = self.value_ref(r);
            proof {
                let _ = a@.len();
            }
            match axis {
                Axis::Rows => Tensor::concat_rows(a, b),
                Axis::Cols => Tensor::concat_cols(a, b),
            }
        };
        let id = self.append_node(Op::Concat(axis, l, r), t, Vec::new(), needs);
        proof {
            lemma_accessors_preserved(&pre, self);
            assert(self.node_wf(id as int));
            lemma_wf_after_append(&pre, self);
        }
        id
    }

    /// Create a rectangular slice node.
    pub fn slice(&mut self, x: usize, r0: usize, c0: usize, h: usize, w: usize) -> (id: usize)
        requires
            old(self).wf(),
            x < old(self).node_count(),
            old(self).tensor_node(x as int),
            r0 + h <= old(self).rows_of(x as int),
            c0 + w <= old(self).cols_of(x as int),
        ensures
            final(self).wf(),
            final(self).extended_by_one(old(self), id),
            final(self).op_of(id as int) == Op::Slice(x, r0, c0, h, w),
            final(self).val(id as int) == slice_seq(
                old(self).val(x as int),
                old(self).cols_of(x as int),
                r0 as nat,
                c0 as nat,
                h as nat,
                w as nat,
            ),
            final(self).rows_of(id as int) == h,
            final(self).cols_of(id as int) == w,
            final(self).ng(id as int) == old(self).ng(x as int),
    {
        let ghost pre = *self;
        let needs = self.needs_gradient_of(x);
        let t = self.value_ref(x).slice_region(r0, c0, h, w);
        let id = self.append_node(Op::Slice(x, r0, c0, h, w), t, Vec::new(), needs);
        proof {
            lemma_accessors_preserved(&pre, self);
            assert(self.node_wf(id as int));
            lemma_wf_after_append(&pre, self);
        }
        id
    }

    /// Create a matrix-multiplication node.
    pub fn dot(&mut self, l: usize, r: usize) -> (id: usize)
        requires
            old(self).wf(),
            l < old(self).node_count(),
            r < old(self).node_count(),
            old(self).tensor_node(l as int),
            old(self).tensor_node(r as int),
            old(self).cols_of(l as int) == old(self).rows_of(r as int),
            old(self).rows_of(l as int) * old(self).cols_of(r as int) <= usize::MAX,
        ensures
            final(self).wf(),
            final(self).extended_by_one(old(self), id),
            final(self).op_of(id as int) == Op::Dot(l, r),
            final(self).val(id as int) == mm_seq(
                old(self).val(l as int),
                old(self).cols_of(l as int),
                old(self).val(r as int),
                old(self).cols_of(r as int),
                old(self).rows_of(l as int),
            ),
            final(self).rows_of(id as int) == old(self).rows_of(l as int),
            final(self).cols_of(id as int) == old(self).cols_of(r as int),
            final(self).ng(id as int) == (old(self).ng(l as int) || old(self).ng(r as int)),
    {
        let ghost pre = *self;
        let needs = self.needs_gradient_of(l) || self.needs_gradient_of(r);
        let t = {
            let a = self.value_ref(l);
            let b = self.value_ref(r);
            a.matmul(b)
        };
        let id = self.append_node(Op::Dot(l, r), t, Vec::new(), needs);
        proof {
            lemma_accessors_preserved(&pre, self);
            assert(self.node_wf(id as int));
            lemma_wf_after_append(&pre, self);
        }
        id
    }

    /// Create a batched row-wise dot-product node.
    pub fn vector_dot(&mut self, l: usize, r: usize) -> (id: usize)
        requires
            old(self).wf(),
            l < old(self).node_count(),
            r < old(self).node_count(),
            old(self).tensor_node(l as int),
            old(self).tensor_node(r as int),
            old(self).rows_of(l as int) == old(self).rows_of(r as int),
            old(self).cols_of(l as int) == old(self).cols_of(r as int),
        ensures
            final(self).wf(),
            final(self).extended_by_one(old(self), id),
            final(self).op_of(id as int) == Op::VectorDot(l, r),
            final(self).val(id as int) == vdot_seq(
                old(self).val(l as int),
                old(self).val(r as int),
                old(self).rows_of(l as int),
                old(self).cols_of(l as int),
            ),
            final(self).rows_of(id as int) == old(self).rows_of(l as int),
            final(self).cols_of(id as int) == 1,
            final(self).ng(id as int) == (old(self).ng(l as int) || old(self).ng(r as int)),
    {
        let ghost pre = *self;
        let needs = self.needs_gradient_of(l) || self.needs_gradient_of(r);
        let t = {
            let a = self.value_ref(l);
            let b = self.value_ref(r);
            a.vector_dot(b)
        };
        let id = self.append_node(Op::VectorDot(l, r), t, Vec::new(), needs);
        proof {
            lemma_accessors_preserved(&pre, self);
            assert(self.node_wf(id as int));
            lemma_wf_after_append(&pre, self);
        }
        id
    }

    /// Create a row-gather node over a parameter, driven by an index-input
    /// leaf. The index list is snapshotted here and refreshed by every
    /// forward pass.
    pub fn index(&mut self, pn: usize, ix: usize) -> (id: usize)
        requires
            old(self).wf(),
            pn < old(self).node_count(),
            ix < old(self).node_count(),
            old(self).op_of(pn as int) is Parameter,
            old(self).op_of(ix as int) is IndexInput,
            forall|q: int|
                0 <= q < old(self).idx_of(ix as int).len() ==> (#[trigger] old(self).idx_of(
                    ix as int,
                )[q] as nat) < old(self).rows_of(pn as int),
            old(self).idx_of(ix as int).len() * old(self).cols_of(pn as int) <= usize::MAX,
        ensures
            final(self).wf(),
            final(self).extended_by_one(old(self), id),
            final(self).op_of(id as int) == Op::Index(pn, ix),
            final(self).val(id as int) == gather_seq(
                old(self).val(pn as int),
                old(self).cols_of(pn as int),
                old(self).idx_of(ix as int),
            ),
            final(self).rows_of(id as int) == old(self).idx_of(ix as int).len(),
            final(self).cols_of(id as int) == old(self).cols_of(pn as int),
            final(self).ng(id as int) == old(self).ng(pn as int),
            final(self).idx_of(id as int) == old(self).idx_of(ix as int),
    {
        let ghost pre = *self;
        let needs = self.needs_gradient_of(pn);
        let iv = self.index_value_of(ix);
        let t = self.value_ref(pn).gather_rows(&iv);
        let id = self.append_node(Op::Index(pn, ix), t, iv, needs);
        proof {
            lemma_accessors_preserved(&pre, self);
            assert(self.node_wf(id as int));
            lemma_wf_after_append(&pre, self);
        }
        id
    }

    /// Create a node summing every element of its operand into a `1 x 1`
    /// value.
    pub fn sum(&mut self, x: usize) -> (id: usize)
        requires
            old(self).wf(),
            x < old(self).node_count(),
            old(self).tensor_node(x as int),
        ensures
            final(self).wf(),
            final(self).extended_by_one(old(self), id),
            final(self).op_of(id as int) == Op::Sum(x),
            final(self).val(id as int) == seq![
                sum_fold(old(self).val(x as int), old(self).val(x as int).len() as int),
            ],
            final(self).rows_of(id as int) == 1,
            final(self).cols_of(id as int) == 1,
            final(self).ng(id as int) == old(self).ng(x as int),
    {
        let ghost pre = *self;
        let needs = self.needs_gradient_of(x);
        let t = self.value_ref(x).sum_all();
        let id = self.append_node(Op::Sum(x), t, Vec::new(), needs);
        proof {
            lemma_accessors_preserved(&pre, self);
            assert(self.node_wf(id as int));
            lemma_wf_after_append(&pre, self);
            assert(self.val(id as int) =~= seq![
                sum_fold(pre.val(x as int), pre.val(x as int).len() as int),
            ]);
        }
        id
    }
}

/// Skeleton agreement holds pointwise from matching records and parameters.
proof fn lemma_skeleton_refl_like<E: Scalar>(g1: &Graph<E>, g2: &Graph<E>, n: int)
    requires
        n <= g1.node_count(),
        n <= g2.node_count(),
        g1.param_count() == g2.param_count(),
        forall|p: int| 0 <= p < g1.param_count() ==> g2.params@[p].value == g1.params@[p].value,
        forall|j: int| 0 <= j < n ==> g2.nodes@[j] == g1.nodes@[j],
        forall|j: int| 0 <= j < n ==> #[trigger] g1.node_wf(j),
    ensures
        g1.same_skeleton_upto(g2, n),
{
    assert forall|p: int|
        0 <= p < g1.param_count() implies #[trigger] g1.param_value(p) == g2.param_value(p) by {
        assert(g2.params@[p].value == g1.params@[p].value);
    }
    assert forall|j: int|
        0 <= j < n implies {
            &&& #[trigger] g1.op_of(j) == g2.op_of(j)
            &&& g1.rows_of(j) == g2.rows_of(j)
            &&& g1.cols_of(j) == g2.cols_of(j)
            &&& (g1.op_of(j) is IndexInput ==> g1.idx_of(j) == g2.idx_of(j))
            &&& g1.ng(j) == g2.ng(j)
            &&& (g1.op_of(j) is Input ==> g1.val(j) == g2.val(j))
        } by {
        assert(g2.nodes@[j] == g1.nodes@[j]);
        assert(g1.node_wf(j));
        match g1.nodes@[j].op {
            Op::Parameter(p) => {
                assert(g2.params@[p as int].value == g1.params@[p as int].value);
            },
            _ => {},
        }
    }
}

/// Replacing one non-leaf node's cache (and snapshot) shape-preservingly
/// keeps the skeleton.
proof fn lemma_skeleton_update<E: Scalar>(g1: &Graph<E>, g2: &Graph<E>, n: int, i: int)
    requires
        n <= g1.node_count(),
        n <= g2.node_count(),
        g1.param_count() == g2.param_count(),
        forall|p: int| 0 <= p < g1.param_count() ==> g2.params@[p].value == g1.params@[p].value,
        forall|j: int| 0 <= j < n && j != i ==> g2.nodes@[j] == g1.nodes@[j],
        g2.op_of(i) == g1.op_of(i),
        g2.ng(i) == g1.ng(i),
        g2.rows_of(i) == g1.rows_of(i),
        g2.cols_of(i) == g1.cols_of(i),
        !(g1.op_of(i) is Input),
        !(g1.op_of(i) is IndexInput),
        forall|j: int| 0 <= j < n ==> #[trigger] g1.node_wf(j),
    ensures
        g1.same_skeleton_upto(g2, n),
{
    assert forall|p: int|
        0 <= p < g1.param_count() implies #[trigger] g1.param_value(p) == g2.param_value(p) by {
        assert(g2.params@[p].value == g1.params@[p].value);
    }
    assert forall|j: int|
        0 <= j < n implies {
            &&& #[trigger] g1.op_of(j) == g2.op_of(j)
            &&& g1.rows_of(j) == g2.rows_of(j)
            &&& g1.cols_of(j) == g2.cols_of(j)
            &&& (g1.op_of(j) is IndexInput ==> g1.idx_of(j) == g2.idx_of(j))
            &&& g1.ng(j) == g2.ng(j)
            &&& (g1.op_of(j) is Input ==> g1.val(j) == g2.val(j))
        } by {
        assert(g1.node_wf(j));
        if j != i {
            assert(g2.nodes@[j] == g1.nodes@[j]);
            match g1.nodes@[j].op {
                Op::Parameter(p) => {
                    assert(g2.params@[p as int].value == g1.params@[p as int].value);
                },
                _ => {},
            }
        }
    }
}

/// Skeleton agreement composes.
proof fn lemma_skeleton_trans<E: Scalar>(g1: &Graph<E>, g2: &Graph<E>, g3: &Graph<E>, n: int)
    requires
        g1.same_skeleton_upto(g2, n),
        g2.same_skeleton_upto(g3, n),
    ensures
        g1.same_skeleton_upto(g3, n),
{
    assert forall|p: int|
        0 <= p < g1.param_count() implies #[trigger] g1.param_value(p) == g3.param_value(p) by {
        assert(g1.param_value(p) == g2.param_value(p));
        assert(g2.param_value(p) == g3.param_value(p));
    }
    assert forall|j: int|
        0 <= j < n implies {
            &&& #[trigger] g1.op_of(j) == g3.op_of(j)
            &&& g1.rows_of(j) == g3.rows_of(j)
            &&& g1.cols_of(j) == g3.cols_of(j)
            &&& (g1.op_of(j) is IndexInput ==> g1.idx_of(j) == g3.idx_of(j))
            &&& g1.ng(j) == g3.ng(j)
            &&& (g1.op_of(j) is Input ==> g1.val(j) == g3.val(j))
        } by {
        assert(g1.op_of(j) == g2.op_of(j));
        assert(g2.op_of(j) == g3.op_of(j));
    }
}

/// Unpack skeleton agreement into the operator-tag and leaf-list
/// equalities the freshness lemmas consume.
proof fn lemma_skeleton_ops<E: Scalar>(g1: &Graph<E>, g2: &Graph<E>, n: int)
    requires
        g1.same_skeleton_upto(g2, n),
    ensures
        forall|j: int|
            0 <= j < n ==> #[trigger] g2.op_of(j) == g1.op_of(j) && (g1.op_of(j) is IndexInput
                ==> g2.idx_of(j) == g1.idx_of(j)),
{
    assert forall|j: int|
        0 <= j < n implies #[trigger] g2.op_of(j) == g1.op_of(j) && (g1.op_of(j) is IndexInput
        ==> g2.idx_of(j) == g1.idx_of(j)) by {
        assert(g1.op_of(j) == g2.op_of(j));
    }
}

/// "Each snapshot unchanged or fresh" composes across two steps that keep
/// operator tags and leaf lists.
proof fn lemma_fresh_chain<E: Scalar>(g1: &Graph<E>, g2: &Graph<E>, g3: &Graph<E>, n: int)
    requires
        n == g1.node_count(),
        n == g2.node_count(),
        n == g3.node_count(),
        forall|j: int| 0 <= j < n ==> #[trigger] g1.node_wf(j),
        forall|j: int|
            0 <= j < n ==> #[trigger] g2.op_of(j) == g1.op_of(j) && (g1.op_of(j) is IndexInput
                ==> g2.idx_of(j) == g1.idx_of(j)),
        forall|j: int|
            0 <= j < n ==> #[trigger] g3.op_of(j) == g2.op_of(j) && (g2.op_of(j) is IndexInput
                ==> g3.idx_of(j) == g2.idx_of(j)),
        forall|j: int|
            0 <= j < n ==> #[trigger] g2.idx_of(j) == g1.idx_of(j) || g2.gather_fresh(j),
        forall|j: int|
            0 <= j < n ==> #[trigger] g3.idx_of(j) == g2.idx_of(j) || g3.gather_fresh(j),
    ensures
        forall|j: int|
            0 <= j < n ==> #[trigger] g3.idx_of(j) == g1.idx_of(j) || g3.gather_fresh(j),
{
    assert forall|j: int|
        0 <= j < n implies #[trigger] g3.idx_of(j) == g1.idx_of(j) || g3.gather_fresh(j) by {
        assert(g1.node_wf(j));
        assert(g2.op_of(j) == g1.op_of(j));
        assert(g3.op_of(j) == g2.op_of(j));
        if g3.idx_of(j) == g2.idx_of(j) && !(g2.idx_of(j) == g1.idx_of(j)) {
            match g1.op_of(j) {
                Op::Index(_pn, ix) => {
                    assert(g2.op_of(ix as int) == g1.op_of(ix as int));
                    assert(g3.op_of(ix as int) == g2.op_of(ix as int));
                    assert(g3.idx_of(ix as int) == g2.idx_of(ix as int));
                    assert(g3.gather_fresh(j));
                },
                _ => {},
            }
        }
    }
}

/// Subgraph freshness survives any step that keeps operator tags and leaf
/// lists and only refreshes snapshots.
proof fn lemma_subgraph_fresh_persists<E: Scalar>(g1: &Graph<E>, g2: &Graph<E>, i: int)
    requires
        g1.node_count() == g2.node_count(),
        i < g1.node_count(),
        forall|j: int| 0 <= j < g1.node_count() ==> #[trigger] g1.node_wf(j),
        forall|j: int|
            0 <= j < g1.node_count() ==> #[trigger] g2.op_of(j) == g1.op_of(j) && (g1.op_of(
                j,
            ) is IndexInput ==> g2.idx_of(j) == g1.idx_of(j)),
        forall|j: int|
            0 <= j < g1.node_count() ==> #[trigger] g2.idx_of(j) == g1.idx_of(j)
                || g2.gather_fresh(j),
        g1.subgraph_fresh(i),
    ensures
        g2.subgraph_fresh(i),
    decreases i,
{
    if 0 <= i {
        assert(g1.node_wf(i));
        assert(g2.op_of(i) == g1.op_of(i));
        match g1.op_of(i) {
            Op::Input => {},
            Op::IndexInput => {},
            Op::Parameter(_p) => {},
            Op::Binary(_f, l, r) => {
                lemma_subgraph_fresh_persists(g1, g2, l as int);
                lemma_subgraph_fresh_persists(g1, g2, r as int);
            },
            Op::Unary(_f, x) => {
                lemma_subgraph_fresh_persists(g1, g2, x as int);
            },
            Op::Softmax(x) => {
                lemma_subgraph_fresh_persists(g1, g2, x as int);
            },
            Op::LogSoftmax(x) => {
                lemma_subgraph_fresh_persists(g1, g2, x as int);
            },
            Op::Transpose(x) => {
                lemma_subgraph_fresh_persists(g1, g2, x as int);
            },
            Op::Concat(_axis, l, r) => {
                lemma_subgraph_fresh_persists(g1, g2, l as int);
                lemma_subgraph_fresh_persists(g1, g2, r as int);
            },
            Op::Slice(x, _r0, _c0, _h, _w) => {
                lemma_subgraph_fresh_persists(g1, g2, x as int);
            },
            Op::Dot(l, r) => {
                lemma_subgraph_fresh_persists(g1, g2, l as int);
                lemma_subgraph_fresh_persists(g1, g2, r as int);
            },
            Op::VectorDot(l, r) => {
                lemma_subgraph_fresh_persists(g1, g2, l as int);
                lemma_subgraph_fresh_persists(g1, g2, r as int);
            },
            Op::Index(pn, ix) => {
                if g2.idx_of(i) == g1.idx_of(i) {
                    assert(g2.op_of(ix as int) == g1.op_of(ix as int));
                    assert(g2.idx_of(ix as int) == g1.idx_of(ix as int));
                    assert(g2.gather_fresh(i));
                } else {
                    assert(g2.gather_fresh(i));
                }
                lemma_subgraph_fresh_persists(g1, g2, pn as int);
                lemma_subgraph_fresh_persists(g1, g2, ix as int);
            },
            Op::Sum(x) => {
                lemma_subgraph_fresh_persists(g1, g2, x as int);
            },
        }
    }
}

/// The combined frame of one forward step over node `i`: `base` is the
/// state before the operands were forwarded, `mid` the state after, and
/// `post` is `mid` with node `i`'s cache (and, for a row-gather node, its
/// snapshot) replaced shape-preservingly.
proof fn lemma_forward_step<E: Scalar>(base: &Graph<E>, mid: &Graph<E>, post: &Graph<E>, i: int)
    requires
        base.wf(),
        mid.wf(),
        0 <= i < base.node_count(),
        mid.node_count() == base.node_count(),
        post.node_count() == mid.node_count(),
        base.same_skeleton_upto(mid, base.node_count() as int),
        base.same_params(mid),
        forall|j: int|
            0 <= j < mid.node_count() ==> #[trigger] mid.val(j) == base.val(j) || mid.val(j)
                == eval(mid, j),
        post.params@ == mid.params@,
        forall|j: int| 0 <= j < mid.node_count() && j != i ==> post.nodes@[j] == mid.nodes@[j],
        post.op_of(i) == mid.op_of(i),
        post.ng(i) == mid.ng(i),
        post.rows_of(i) == mid.rows_of(i),
        post.cols_of(i) == mid.cols_of(i),
        post.node_wf(i),
        !(mid.op_of(i) is Input),
        !(mid.op_of(i) is IndexInput),
    ensures
        post.wf(),
        base.same_skeleton_upto(post, base.node_count() as int),
        base.same_params(post),
        forall|j: int| 0 <= j < post.node_count() ==> eval(post, j) == eval(mid, j),
        forall|j: int| 0 <= j < post.node_count() ==> eval(post, j) == eval(base, j),
        forall|j: int|
            0 <= j < post.node_count() && j != i ==> #[trigger] post.val(j) == base.val(j)
                || post.val(j) == eval(post, j),
        forall|j: int|
            0 <= j < post.node_count() && j != i ==> #[trigger] post.val(j) == mid.val(j),
{
    let n = base.node_count() as int;
    assert forall|j: int| 0 <= j < n implies #[trigger] mid.node_wf(j) by {}
    lemma_wf_update(mid, post, i);
    lemma_skeleton_update(mid, post, n, i);
    lemma_skeleton_trans(base, mid, post, n);
    assert forall|j: int| 0 <= j < n implies #[trigger] eval(post, j) == eval(mid, j) by {
        lemma_eval_stable(mid, post, j);
    }
    assert forall|j: int| 0 <= j < n implies #[trigger] eval(post, j) == eval(base, j) by {
        lemma_eval_stable(base, mid, j);
    }
    assert forall|j: int|
        0 <= j < n && j != i implies #[trigger] post.val(j) == mid.val(j) by {
        match mid.nodes@[j].op {
            Op::Parameter(p) => {
                assert(mid.node_wf(j));
            },
            _ => {
                assert(post.nodes@[j] == mid.nodes@[j]);
            },
        }
    }
}

/// Two forward recursions compose: their frames chain.
proof fn lemma_forward_chain<E: Scalar>(base: &Graph<E>, half: &Graph<E>, mid: &Graph<E>)
    requires
        base.node_count() == half.node_count(),
        half.node_count() == mid.node_count(),
        base.same_skeleton_upto(half, base.node_count() as int),
        half.same_skeleton_upto(mid, base.node_count() as int),
        base.same_params(half),
        half.same_params(mid),
        forall|j: int|
            0 <= j < base.node_count() ==> #[trigger] half.val(j) == base.val(j) || half.val(j)
                == eval(half, j),
        forall|j: int|
            0 <= j < base.node_count() ==> #[trigger] mid.val(j) == half.val(j) || mid.val(j)
                == eval(mid, j),
        forall|j: int|
            0 <= j < base.node_count() ==> #[trigger] eval(half, j) == eval(base, j),
        forall|j: int| 0 <= j < base.node_count() ==> #[trigger] eval(mid, j) == eval(half, j),
    ensures
        base.same_skeleton_upto(mid, base.node_count() as int),
        base.same_params(mid),
        forall|j: int|
            0 <= j < base.node_count() ==> #[trigger] mid.val(j) == base.val(j) || mid.val(j)
                == eval(mid, j),
        forall|j: int| 0 <= j < base.node_count() ==> #[trigger] eval(mid, j) == eval(base, j),
{
    let n = base.node_count() as int;
    lemma_skeleton_trans(base, half, mid, n);
    assert forall|j: int|
        0 <= j < n implies #[trigger] mid.val(j) == base.val(j) || mid.val(j) == eval(mid, j) by {
        if mid.val(j) == half.val(j) {
            if half.val(j) != base.val(j) {
                assert(half.val(j) == eval(half, j));
                assert(eval(mid, j) == eval(half, j));
            }
        }
    }
}

impl<E: Scalar> Graph<E> {
    /// Run the forward pass of the subgraph ending at node `i`: operands are
    /// forwarded first (postorder), then the node's cached value is
    /// recomputed from the operands' current cached values.
    ///
    /// The contract is the engine's central theorem: afterwards, the cached
    /// value of node `i` equals its denotation [`eval`] — its value as a
    /// function of the graph's leaf data — and every other cache either was
    /// left alone or equals its own denotation, so repeated forwarding of
    /// fan-out nodes is idempotent. Leaf data, parameter stores and gradient
    /// accumulators are untouched.
    #[verifier::rlimit(100)]
    pub fn forward(&mut self, i: usize)
        requires
            old(self).wf(),
            i < old(self).node_count(),
        ensures
            final(self).wf(),
            final(self).node_count() == old(self).node_count(),
            old(self).same_skeleton_upto(final(self), old(self).node_count() as int),
            old(self).same_params(final(self)),
            forall|j: int|
                0 <= j < old(self).node_count() ==> #[trigger] final(self).val(j) == old(self).val(
                    j,
                ) || final(self).val(j) == eval(final(self), j),
            forall|j: int|
                0 <= j < old(self).node_count() ==> #[trigger] eval(final(self), j) == eval(
                    old(self),
                    j,
                ),
            old(self).tensor_node(i as int) ==> final(self).val(i as int) == eval(
                final(self),
                i as int,
            ),
            forall|j: int|
                0 <= j < old(self).node_count() ==> #[trigger] final(self).idx_of(j) == old(
                    self,
                ).idx_of(j) || final(self).gather_fresh(j),
            final(self).subgraph_fresh(i as int),
        decreases i,
    {
        proof {
            assert(self.node_wf(i as int));
        }
        let op = self.nodes[i].op;
        let ghost base = *self;
        proof {
            assert(base.op_of(i as int) == op);
        }
        match op {
            Op::Input => {
                proof {
                    lemma_skeleton_refl_like(&base, self, base.node_count() as int);
                    assert(self.subgraph_fresh(i as int));
                }
            },
            Op::IndexInput => {
                proof {
                    lemma_skeleton_refl_like(&base, self, base.node_count() as int);
                    assert(self.subgraph_fresh(i as int));
                }
            },
            Op::Parameter(_p) => {
                proof {
                    lemma_skeleton_refl_like(&base, self, base.node_count() as int);
                    assert(self.subgraph_fresh(i as int));
                }
            },
            Op::Binary(f, l, r) => {
                self.forward(l);
                let ghost half = *self;
                self.forward(r);
                let ghost mid = *self;
                proof {
                    lemma_forward_chain(&base, &half, &mid);
                    assert(base.op_of(i as int) == mid.op_of(i as int));
                    assert(self.node_wf(i as int));
                    assert(mid.val(l as int) == eval(&mid, l as int));
                    assert(mid.val(r as int) == eval(&mid, r as int));
                }
                let t = {
                    let a = self.value_ref(l);
                    let b = self.value_ref(r);
                    Tensor::map_binary(f, a, b)
                };
                self.nodes[i].value = t;
                proof {
                    lemma_forward_step(&base, &mid, self, i as int);
                    assert(self.val(i as int) == seq_binary(
                        f,
                        eval(self, l as int),
                        eval(self, r as int),
                    ));
                }
                proof {
                    let nn = base.node_count() as int;
                    lemma_skeleton_ops(&base, &half, nn);
                    lemma_skeleton_ops(&half, &mid, nn);
                    lemma_fresh_chain(&base, &half, &mid, nn);
                    assert forall|j: int|
                        0 <= j < nn implies #[trigger] mid.op_of(j) == base.op_of(j) && (base.op_of(
                        j,
                    ) is IndexInput ==> mid.idx_of(j) == base.idx_of(j)) by {
                        assert(half.op_of(j) == base.op_of(j));
                        assert(mid.op_of(j) == half.op_of(j));
                    }
                    assert forall|j: int|
                        0 <= j < nn implies #[trigger] self.op_of(j) == mid.op_of(j) && (mid.op_of(
                        j,
                    ) is IndexInput ==> self.idx_of(j) == mid.idx_of(j)) && self.idx_of(j)
                        == mid.idx_of(j) by {
                        if j != i as int {
                            assert(self.nodes@[j] == mid.nodes@[j]);
                        }
                    }
                    assert forall|j: int|
                        0 <= j < nn implies #[trigger] self.idx_of(j) == mid.idx_of(j)
                            || self.gather_fresh(j) by {}
                    lemma_fresh_chain(&base, &mid, self, nn);
                    lemma_subgraph_fresh_persists(&half, &mid, l as int);
                    lemma_subgraph_fresh_persists(&mid, self, l as int);
                    lemma_subgraph_fresh_persists(&mid, self, r as int);
                    assert(self.subgraph_fresh(i as int));
                }
            },
            Op::Unary(f, x) => {
                self.forward(x);
                let ghost mid = *self;
                proof {
                    assert(base.op_of(i as int) == mid.op_of(i as int));
                    assert(self.node_wf(i as int));
                    assert(mid.val(x as int) == eval(&mid, x as int));
                }
                let t = Tensor::map_unary(f, self.value_ref(x));
                self.nodes[i].value = t;
                proof {
                    lemma_forward_step(&base, &mid, self, i as int);
                }
                proof {
                    let nn = base.node_count() as int;
                    lemma_skeleton_ops(&base, &mid, nn);
                    assert forall|j: int|
                        0 <= j < nn implies #[trigger] self.op_of(j) == mid.op_of(j) && (mid.op_of(
                        j,
                    ) is IndexInput ==> self.idx_of(j) == mid.idx_of(j)) && self.idx_of(j)
                        == mid.idx_of(j) by {
                        if j != i as int {
                            assert(self.nodes@[j] == mid.nodes@[j]);
                        }
                    }
                    assert forall|j: int|
                        0 <= j < nn implies #[trigger] self.idx_of(j) == mid.idx_of(j)
                            || self.gather_fresh(j) by {}
                    lemma_fresh_chain(&base, &mid, self, nn);
                    lemma_subgraph_fresh_persists(&mid, self, x as int);
                    assert(self.subgraph_fresh(i as int));
                }
            },
            Op::Softmax(x) => {
                self.forward(x);
                let ghost mid = *self;
                proof {
                    assert(base.op_of(i as int) == mid.op_of(i as int));
                    assert(self.node_wf(i as int));
                    assert(mid.val(x as int) == eval(&mid, x as int));
                }
                let t = self.value_ref(x).softmax_rows(false);
                self.nodes[i].value = t;
                proof {
                    lemma_forward_step(&base, &mid, self, i as int);
                }
                proof {
                    let nn = base.node_count() as int;
                    lemma_skeleton_ops(&base, &mid, nn);
                    assert forall|j: int|
                        0 <= j < nn implies #[trigger] self.op_of(j) == mid.op_of(j) && (mid.op_of(
                        j,
                    ) is IndexInput ==> self.idx_of(j) == mid.idx_of(j)) && self.idx_of(j)
                        == mid.idx_of(j) by {
                        if j != i as int {
                            assert(self.nodes@[j] == mid.nodes@[j]);
                        }
                    }
                    assert forall|j: int|
                        0 <= j < nn implies #[trigger] self.idx_of(j) == mid.idx_of(j)
                            || self.gather_fresh(j) by {}
                    lemma_fresh_chain(&base, &mid, self, nn);
                    lemma_subgraph_fresh_persists(&mid, self, x as int);
                    assert(self.subgraph_fresh(i as int));
                }
            },
            Op::LogSoftmax(x) => {
                self.forward(x);
                let ghost mid = *self;
                proof {
                    assert(base.op_of(i as int) == mid.op_of(i as int));
                    assert(self.node_wf(i as int));
                    assert(mid.val(x as int) == eval(&mid, x as int));
                }
                let t = self.value_ref(x).softmax_rows(true);
                self.nodes[i].value = t;
                proof {
                    lemma_forward_step(&base, &mid, self, i as int);
                }
                proof {
                    let nn = base.node_count() as int;
                    lemma_skeleton_ops(&base, &mid, nn);
                    assert forall|j: int|
                        0 <= j < nn implies #[trigger] self.op_of(j) == mid.op_of(j) && (mid.op_of(
                        j,
                    ) is IndexInput ==> self.idx_of(j) == mid.idx_of(j)) && self.idx_of(j)
                        == mid.idx_of(j) by {
                        if j != i as int {
                            assert(self.nodes@[j] == mid.nodes@[j]);
                        }
                    }
                    assert forall|j: int|
                        0 <= j < nn implies #[trigger] self.idx_of(j) == mid.idx_of(j)
                            || self.gather_fresh(j) by {}
                    lemma_fresh_chain(&base, &mid, self, nn);
                    lemma_subgraph_fresh_persists(&mid, self, x as int);
                    assert(self.subgraph_fresh(i as int));
                }
            },
            Op::Transpose(x) => {
                self.forward(x);
                let ghost mid = *self;
                proof {
                    assert(base.op_of(i as int) == mid.op_of(i as int));
                    assert(self.node_wf(i as int));
                    assert(mid.val(x as int) == eval(&mid, x as int));
                }
                let t = self.value_ref(x).transpose();
                self.nodes[i].value = t;
                proof {
                    lemma_forward_step(&base, &mid, self, i as int);
                }
                proof {
                    let nn = base.node_count() as int;
                    lemma_skeleton_ops(&base, &mid, nn);
                    assert forall|j: int|
                        0 <= j < nn implies #[trigger] self.op_of(j) == mid.op_of(j) && (mid.op_of(
                        j,
                    ) is IndexInput ==> self.idx_of(j) == mid.idx_of(j)) && self.idx_of(j)
                        == mid.idx_of(j) by {
                        if j != i as int {
                            assert(self.nodes@[j] == mid.nodes@[j]);
                        }
                    }
                    assert forall|j: int|
                        0 <= j < nn implies #[trigger] self.idx_of(j) == mid.idx_of(j)
                            || self.gather_fresh(j) by {}
                    lemma_fresh_chain(&base, &mid, self, nn);
                    lemma_subgraph_fresh_persists(&mid, self, x as int);
                    assert(self.subgraph_fresh(i as int));
                }
            },
            Op::Concat(axis, l, r) => {
                self.forward(l);
                let ghost half = *self;
                self.forward(r);
                let ghost mid = *self;
                proof {
                    lemma_forward_chain(&base, &half, &mid);
                    assert(base.op_of(i as int) == mid.op_of(i as int));
                    assert(self.node_wf(i as int));
                    assert(mid.val(l as int) == eval(&mid, l as int));
                    assert(mid.val(r as int) == eval(&mid, r as int));
                }
                let total = self.value_ref(i).count();
                let ri = self.value_ref(i).rows();
                let ci = self.value_ref(i).cols();
                let t = {
                    let a = self.value_ref(l);
                    let b = self.value_ref(r);
                    proof {
                        assert(total == self.val(i as int).len());
                        assert(ri == self.rows_of(i as int));
                        assert(ci == self.cols_of(i as int));
                        assert(a@.len() == self.rows_of(l as int) * self.cols_of(l as int));
                        assert(b@.len() == self.rows_of(r as int) * self.cols_of(r as int));
                        match axis {
                            Axis::Rows => {
                                assert(self.rows_of(i as int) == self.rows_of(l as int) + self
                                    .rows_of(r as int));
                                assert(self.rows_of(i as int) <= usize::MAX);
                                assert((self.rows_of(l as int) + self.rows_of(r as int)) * self
                                    .cols_of(l as int) == self.rows_of(l as int) * self.cols_of(
                                    l as int,
                                ) + self.rows_of(r as int) * self.cols_of(l as int))
                                    by (nonlinear_arith);
                                assert(a@.len() + b@.len() == self.val(i as int).len());
                            },
                            Axis::Cols => {
                                assert(self.cols_of(i as int) == self.cols_of(l as int) + self
                                    .cols_of(r as int));
                                assert(self.cols_of(i as int) <= usize::MAX);
                                assert(self.rows_of(l as int) * (self.cols_of(l as int) + self
                                    .cols_of(r as int)) == self.rows_of(l as int) * self.cols_of(
                                    l as int,
                                ) + self.rows_of(l as int) * self.cols_of(r as int))
                                    by (nonlinear_arith);
                                assert(a@.len() + b@.len() == self.val(i as int).len());
                            },
                        }
                    }
                    match axis {
                        Axis::Rows => Tensor::concat_rows(a, b),
                        Axis::Cols => Tensor::concat_cols(a, b),
                    }
                };
                self.nodes[i].value = t;
                proof {
                    lemma_forward_step(&base, &mid, self, i as int);
                }
                proof {
                    let nn = base.node_count() as int;
                    lemma_skeleton_ops(&base, &half, nn);
                    lemma_skeleton_ops(&half, &mid, nn);
                    lemma_fresh_chain(&base, &half, &mid, nn);
                    assert forall|j: int|
                        0 <= j < nn implies #[trigger] mid.op_of(j) == base.op_of(j) && (base.op_of(
                        j,
                    ) is IndexInput ==> mid.idx_of(j) == base.idx_of(j)) by {
                        assert(half.op_of(j) == base.op_of(j));
                        assert(mid.op_of(j) == half.op_of(j));
                    }
                    assert forall|j: int|
                        0 <= j < nn implies #[trigger] self.op_of(j) == mid.op_of(j) && (mid.op_of(
                        j,
                    ) is IndexInput ==> self.idx_of(j) == mid.idx_of(j)) && self.idx_of(j)
                        == mid.idx_of(j) by {
                        if j != i as int {
                            assert(self.nodes@[j] == mid.nodes@[j]);
                        }
                    }
                    assert forall|j: int|
                        0 <= j < nn implies #[trigger] self.idx_of(j) == mid.idx_of(j)
                            || self.gather_fresh(j) by {}
                    lemma_fresh_chain(&base, &mid, self, nn);
                    lemma_subgraph_fresh_persists(&half, &mid, l as int);
                    lemma_subgraph_fresh_persists(&mid, self, l as int);
                    lemma_subgraph_fresh_persists(&mid, self, r as int);
                    assert(self.subgraph_fresh(i as int));
                }
            },
            Op::Slice(x, r0, c0, h, w) => {
                self.forward(x);
                let ghost mid = *self;
                proof {
                    assert(base.op_of(i as int) == mid.op_of(i as int));
                    assert(self.node_wf(i as int));
                    assert(mid.val(x as int) == eval(&mid, x as int));
                }
                let t = self.value_ref(x).slice_region(r0, c0, h, w);
                self.nodes[i].value = t;
                proof {
                    lemma_forward_step(&base, &mid, self, i as int);
                }
                proof {
                    let nn = base.node_count() as int;
                    lemma_skeleton_ops(&base, &mid, nn);
                    assert forall|j: int|
                        0 <= j < nn implies #[trigger] self.op_of(j) == mid.op_of(j) && (mid.op_of(
                        j,
                    ) is IndexInput ==> self.idx_of(j) == mid.idx_of(j)) && self.idx_of(j)
                        == mid.idx_of(j) by {
                        if j != i as int {
                            assert(self.nodes@[j] == mid.nodes@[j]);
                        }
                    }
                    assert forall|j: int|
                        0 <= j < nn implies #[trigger] self.idx_of(j) == mid.idx_of(j)
                            || self.gather_fresh(j) by {}
                    lemma_fresh_chain(&base, &mid, self, nn);
                    lemma_subgraph_fresh_persists(&mid, self, x as int);
                    assert(self.subgraph_fresh(i as int));
                }
            },
            Op::Dot(l, r) => {
                self.forward(l);
                let ghost half = *self;
                self.forward(r);
                let ghost mid = *self;
                proof {
                    lemma_forward_chain(&base, &half, &mid);
                    assert(base.op_of(i as int) == mid.op_of(i as int));
                    assert(self.node_wf(i as int));
                    assert(mid.val(l as int) == eval(&mid, l as int));
                    assert(mid.val(r as int) == eval(&mid, r as int));
                }
                let total = self.value_ref(i).count();
                let t = {
                    let a = self.value_ref(l);
                    let b = self.value_ref(r);
                    a.matmul(b)
                };
                self.nodes[i].value = t;
                proof {
                    lemma_forward_step(&base, &mid, self, i as int);
                }
                proof {
                    let nn = base.node_count() as int;
                    lemma_skeleton_ops(&base, &half, nn);
                    lemma_skeleton_ops(&half, &mid, nn);
                    lemma_fresh_chain(&base, &half, &mid, nn);
                    assert forall|j: int|
                        0 <= j < nn implies #[trigger] mid.op_of(j) == base.op_of(j) && (base.op_of(
                        j,
                    ) is IndexInput ==> mid.idx_of(j) == base.idx_of(j)) by {
                        assert(half.op_of(j) == base.op_of(j));
                        assert(mid.op_of(j) == half.op_of(j));
                    }
                    assert forall|j: int|
                        0 <= j < nn implies #[trigger] self.op_of(j) == mid.op_of(j) && (mid.op_of(
                        j,
                    ) is IndexInput ==> self.idx_of(j) == mid.idx_of(j)) && self.idx_of(j)
                        == mid.idx_of(j) by {
                        if j != i as int {
                            assert(self.nodes@[j] == mid.nodes@[j]);
                        }
                    }
                    assert forall|j: int|
                        0 <= j < nn implies #[trigger] self.idx_of(j) == mid.idx_of(j)
                            || self.gather_fresh(j) by {}
                    lemma_fresh_chain(&base, &mid, self, nn);
                    lemma_subgraph_fresh_persists(&half, &mid, l as int);
                    lemma_subgraph_fresh_persists(&mid, self, l as int);
                    lemma_subgraph_fresh_persists(&mid, self, r as int);
                    assert(self.subgraph_fresh(i as int));
                }
            },
            Op::VectorDot(l, r) => {
                self.forward(l);
                let ghost half = *self;
                self.forward(r);
                let ghost mid = *self;
                proof {
                    lemma_forward_chain(&base, &half, &mid);
                    assert(base.op_of(i as int) == mid.op_of(i as int));
                    assert(self.node_wf(i as int));
                    assert(mid.val(l as int) == eval(&mid, l as int));
                    assert(mid.val(r as int) == eval(&mid, r as int));
                }
                let t = {
                    let a = self.value_ref(l);
                    let b = self.value_ref(r);
                    a.vector_dot(b)
                };
                self.nodes[i].value = t;
                proof {
                    lemma_forward_step(&base, &mid, self, i as int);
                }
                proof {
                    let nn = base.node_count() as int;
                    lemma_skeleton_ops(&base, &half, nn);
                    lemma_skeleton_ops(&half, &mid, nn);
                    lemma_fresh_chain(&base, &half, &mid, nn);
                    assert forall|j: int|
                        0 <= j < nn implies #[trigger] mid.op_of(j) == base.op_of(j) && (base.op_of(
                        j,
                    ) is IndexInput ==> mid.idx_of(j) == base.idx_of(j)) by {
                        assert(half.op_of(j) == base.op_of(j));
                        assert(mid.op_of(j) == half.op_of(j));
                    }
                    assert forall|j: int|
                        0 <= j < nn implies #[trigger] self.op_of(j) == mid.op_of(j) && (mid.op_of(
                        j,
                    ) is IndexInput ==> self.idx_of(j) == mid.idx_of(j)) && self.idx_of(j)
                        == mid.idx_of(j) by {
                        if j != i as int {
                            assert(self.nodes@[j] == mid.nodes@[j]);
                        }
                    }
                    assert forall|j: int|
                        0 <= j < nn implies #[trigger] self.idx_of(j) == mid.idx_of(j)
                            || self.gather_fresh(j) by {}
                    lemma_fresh_chain(&base, &mid, self, nn);
                    lemma_subgraph_fresh_persists(&half, &mid, l as int);
                    lemma_subgraph_fresh_persists(&mid, self, l as int);
                    lemma_subgraph_fresh_persists(&mid, self, r as int);
                    assert(self.subgraph_fresh(i as int));
                }
            },
            Op::Index(pn, ix) => {
                self.forward(pn);
                let ghost half = *self;
                self.forward(ix);
                let ghost mid = *self;
                proof {
                    lemma_forward_chain(&base, &half, &mid);
                    assert(base.op_of(i as int) == mid.op_of(i as int));
                    assert(self.node_wf(i as int));
                    assert(self.node_wf(ix as int));
                    assert(mid.val(pn as int) == eval(&mid, pn as int));
                }
                let total = self.value_ref(i).count();
                let iv = self.index_value_of(ix);
                let t = self.value_ref(pn).gather_rows(&iv);
                self.nodes[i].value = t;
                self.nodes[i].indices = iv;
                proof {
                    lemma_forward_step(&base, &mid, self, i as int);
                }
                proof {
                    let nn = base.node_count() as int;
                    lemma_skeleton_ops(&base, &half, nn);
                    lemma_skeleton_ops(&half, &mid, nn);
                    lemma_fresh_chain(&base, &half, &mid, nn);
                    assert forall|j: int|
                        0 <= j < nn implies #[trigger] mid.op_of(j) == base.op_of(j) && (base.op_of(
                        j,
                    ) is IndexInput ==> mid.idx_of(j) == base.idx_of(j)) by {
                        assert(half.op_of(j) == base.op_of(j));
                        assert(mid.op_of(j) == half.op_of(j));
                    }
                    assert forall|j: int|
                        0 <= j < nn implies #[trigger] self.op_of(j) == mid.op_of(j) && (mid.op_of(
                        j,
                    ) is IndexInput ==> self.idx_of(j) == mid.idx_of(j)) by {
                        if j != i as int {
                            assert(self.nodes@[j] == mid.nodes@[j]);
                        }
                    }
                    assert(self.idx_of(i as int) == mid.idx_of(ix as int));
                    assert(self.nodes@[ix as int] == mid.nodes@[ix as int]);
                    assert(self.idx_of(ix as int) == mid.idx_of(ix as int));
                    assert(self.gather_fresh(i as int));
                    assert forall|j: int|
                        0 <= j < nn implies #[trigger] self.idx_of(j) == mid.idx_of(j)
                            || self.gather_fresh(j) by {
                        if j != i as int {
                            assert(self.nodes@[j] == mid.nodes@[j]);
                        }
                    }
                    lemma_fresh_chain(&base, &mid, self, nn);
                    assert(self.op_of(pn as int) == base.op_of(pn as int));
                    assert(self.op_of(ix as int) == base.op_of(ix as int));
                    assert(self.subgraph_fresh(pn as int));
                    assert(self.subgraph_fresh(ix as int));
                    assert(self.subgraph_fresh(i as int));
                }
            },
            Op::Sum(x) => {
                self.forward(x);
                let ghost mid = *self;
                proof {
                    assert(base.op_of(i as int) == mid.op_of(i as int));
                    assert(self.node_wf(i as int));
                    assert(mid.val(x as int) == eval(&mid, x as int));
                }
                let t = self.value_ref(x).sum_all();
                self.nodes[i].value = t;
                proof {
                    lemma_forward_step(&base, &mid, self, i as int);
                    assert(self.val(i as int) =~= eval(self, i as int));
                }
                proof {
                    let nn = base.node_count() as int;
                    lemma_skeleton_ops(&base, &mid, nn);
                    assert forall|j: int|
                        0 <= j < nn implies #[trigger] self.op_of(j) == mid.op_of(j) && (mid.op_of(
                        j,
                    ) is IndexInput ==> self.idx_of(j) == mid.idx_of(j)) && self.idx_of(j)
                        == mid.idx_of(j) by {
                        if j != i as int {
                            assert(self.nodes@[j] == mid.nodes@[j]);
                        }
                    }
                    assert forall|j: int|
                        0 <= j < nn implies #[trigger] self.idx_of(j) == mid.idx_of(j)
                            || self.gather_fresh(j) by {}
                    lemma_fresh_chain(&base, &mid, self, nn);
                    lemma_subgraph_fresh_persists(&mid, self, x as int);
                    assert(self.subgraph_fresh(i as int));
                }
            },
        }
    }
}

/// The gradient an elementwise unary operator passes to its operand, given
/// the operand's cached value `x`, the node's cached value `v`, and the
/// upstream gradient `up`.
pub open spec fn unary_bwd<E: Scalar>(f: UnFn, x: Seq<E>, v: Seq<E>, up: Seq<E>) -> Seq<E> {
    match f {
        UnFn::Neg => seq_unary(UnFn::Neg, up),
        UnFn::Square => seq_binary(
            BinFn::Mul,
            seq_binary(BinFn::Mul, x, seq_const(x.len(), E::spec_two())),
            up,
        ),
        UnFn::Exp => seq_binary(BinFn::Mul, v, up),
        UnFn::Ln => seq_binary(BinFn::Div, up, x),
        UnFn::Tanh => seq_binary(
            BinFn::Mul,
            up,
            seq_binary(BinFn::Sub, seq_const(v.len(), E::spec_one()), seq_binary(BinFn::Mul, v, v)),
        ),
        UnFn::Sigmoid => seq_binary(
            BinFn::Mul,
            seq_binary(BinFn::Mul, up, v),
            seq_binary(BinFn::Sub, seq_const(v.len(), E::spec_one()), v),
        ),
        UnFn::Relu => relu_bwd_seq(x, up),
    }
}

/// The gradient an elementwise binary operator passes to its left operand.
pub open spec fn binary_bwd_l<E: Scalar>(f: BinFn, lv: Seq<E>, rv: Seq<E>, up: Seq<E>) -> Seq<E> {
    match f {
        BinFn::Add => up,
        BinFn::Sub => up,
        BinFn::Mul => seq_binary(BinFn::Mul, rv, up),
        BinFn::Div => seq_binary(BinFn::Div, up, rv),
    }
}

/// The gradient an elementwise binary operator passes to its right operand.
pub open spec fn binary_bwd_r<E: Scalar>(f: BinFn, lv: Seq<E>, rv: Seq<E>, up: Seq<E>) -> Seq<E> {
    match f {
        BinFn::Add => up,
        BinFn::Sub => seq_unary(UnFn::Neg, up),
        BinFn::Mul => seq_binary(BinFn::Mul, lv, up),
        BinFn::Div => seq_binary(
            BinFn::Mul,
            seq_binary(BinFn::Div, seq_unary(UnFn::Neg, lv), seq_binary(BinFn::Mul, rv, rv)),
            up,
        ),
    }
}

impl<E: Scalar> Graph<E> {
    /// The abstract gradient state of every parameter: its dense part and
    /// its active sparse contributions.
    pub open spec fn acc_states(&self) -> Seq<(Seq<E>, Seq<(Seq<usize>, Seq<E>)>)> {
        Seq::new(
            self.param_count(),
            |p: int| (self.param_grad(p).dense_model(), self.param_grad(p).sparse_model()),
        )
    }
}

/// What one backward push over node `i` with upstream gradient `up` does to
/// the parameters' gradient states `ss`: the chain rule, operand by operand,
/// in left-to-right order, bottoming out in a dense contribution at every
/// parameter leaf and a sparse `(indices, rows)` contribution at every
/// row-gather node.
pub open spec fn backward_model<E: Scalar>(
    g: &Graph<E>,
    i: int,
    up: Seq<E>,
    ss: Seq<(Seq<E>, Seq<(Seq<usize>, Seq<E>)>)>,
) -> Seq<(Seq<E>, Seq<(Seq<usize>, Seq<E>)>)>
    decreases i,
{
    if 0 <= i < g.node_count() {
        match g.op_of(i) {
            Op::Input => ss,
            Op::IndexInput => ss,
            Op::Parameter(p) => if (p as int) < ss.len() {
                ss.update(p as int, (seq_binary(BinFn::Add, ss[p as int].0, up), ss[p as int].1))
            } else {
                ss
            },
            Op::Binary(f, l, r) => if l < i && r < i {
                {
                    let lup = binary_bwd_l(f, g.val(l as int), g.val(r as int), up);
                    let rup = binary_bwd_r(f, g.val(l as int), g.val(r as int), up);
                    backward_model(g, r as int, rup, backward_model(g, l as int, lup, ss))
                }
            } else {
                ss
            },
            Op::Unary(f, x) => if x < i {
                backward_model(g, x as int, unary_bwd(f, g.val(x as int), g.val(i), up), ss)
            } else {
                ss
            },
            Op::Softmax(x) => if x < i {
                backward_model(g, x as int, sm_bwd_seq(false, g.val(i), up, g.cols_of(i)), ss)
            } else {
                ss
            },
            Op::LogSoftmax(x) => if x < i {
                backward_model(g, x as int, sm_bwd_seq(true, g.val(i), up, g.cols_of(i)), ss)
            } else {
                ss
            },
            Op::Transpose(x) => if x < i {
                backward_model(g, x as int, transpose_seq(up, g.rows_of(i), g.cols_of(i)), ss)
            } else {
                ss
            },
            Op::Concat(axis, l, r) => if l < i && r < i {
                {
                    let lup = slice_seq(
                        up,
                        g.cols_of(i),
                        0,
                        0,
                        g.rows_of(l as int),
                        g.cols_of(l as int),
                    );
                    let rup = match axis {
                        Axis::Rows => slice_seq(
                            up,
                            g.cols_of(i),
                            g.rows_of(l as int),
                            0,
                            g.rows_of(r as int),
                            g.cols_of(r as int),
                        ),
                        Axis::Cols => slice_seq(
                            up,
                            g.cols_of(i),
                            0,
                            g.cols_of(l as int),
                            g.rows_of(r as int),
                            g.cols_of(r as int),
                        ),
                    };
                    backward_model(g, r as int, rup, backward_model(g, l as int, lup, ss))
                }
            } else {
                ss
            },
            Op::Slice(x, r0, c0, h, w) => if x < i {
                backward_model(
                    g,
                    x as int,
                    scatter_seq(
                        g.rows_of(x as int),
                        g.cols_of(x as int),
                        r0 as nat,
                        c0 as nat,
                        h as nat,
                        w as nat,
                        up,
                    ),
                    ss,
                )
            } else {
                ss
            },
            Op::Dot(l, r) => if l < i && r < i {
                {
                    let lup = mm_seq(
                        up,
                        g.cols_of(i),
                        transpose_seq(g.val(r as int), g.rows_of(r as int), g.cols_of(r as int)),
                        g.rows_of(r as int),
                        g.rows_of(i),
                    );
                    let rup = mm_seq(
                        transpose_seq(g.val(l as int), g.rows_of(l as int), g.cols_of(l as int)),
                        g.rows_of(l as int),
                        up,
                        g.cols_of(i),
                        g.cols_of(l as int),
                    );
                    backward_model(g, r as int, rup, backward_model(g, l as int, lup, ss))
                }
            } else {
                ss
            },
            Op::VectorDot(l, r) => if l < i && r < i {
                {
                    let lup = scale_rows_seq(g.val(r as int), g.cols_of(l as int), up);
                    let rup = scale_rows_seq(g.val(l as int), g.cols_of(l as int), up);
                    backward_model(g, r as int, rup, backward_model(g, l as int, lup, ss))
                }
            } else {
                ss
            },
            Op::Index(pn, ix) => match g.op_of(pn as int) {
                Op::Parameter(p) => if (p as int) < ss.len() && g.idx_of(i).len() > 0 {
                    ss.update(p as int, (ss[p as int].0, ss[p as int].1.push((g.idx_of(i), up))))
                } else {
                    ss
                },
                _ => ss,
            },
            Op::Sum(x) => if x < i {
                backward_model(
                    g,
                    x as int,
                    seq_const(g.rows_of(x as int) * g.cols_of(x as int), up[0]),
                    ss,
                )
            } else {
                ss
            },
        }
    } else {
        ss
    }
}

/// Whether a handle's parameter list names the parameter record `p`.
pub open spec fn touches_param<E: Scalar>(g: &Graph<E>, list: Seq<usize>, p: int) -> bool {
    exists|k: int| 0 <= k < list.len() && g.pid_of(#[trigger] list[k] as int) == p
}

/// The gradient state of every parameter outside `list` is the same in
/// `g1` as in `g0`.
pub open spec fn grads_untouched_outside<E: Scalar>(
    g0: &Graph<E>,
    g1: &Graph<E>,
    list: Seq<usize>,
) -> bool {
    forall|p: int|
        0 <= p < g0.param_count() && !touches_param(g0, list, p) ==> {
            &&& #[trigger] g1.param_grad(p).dense_model() == g0.param_grad(p).dense_model()
            &&& g1.param_grad(p).sparse_model() == g0.param_grad(p).sparse_model()
        }
}

/// The gradient states of a graph with every parameter of `list` reset to
/// its zero state and every other parameter keeping its current state: what
/// zeroing the gradients of the handles in `list` leaves behind.
pub open spec fn states_with_reset<E: Scalar>(g: &Graph<E>, list: Seq<usize>) -> Seq<
    (Seq<E>, Seq<(Seq<usize>, Seq<E>)>),
> {
    Seq::new(
        g.param_count(),
        |p: int|
            if touches_param(g, list, p) {
                (
                    seq_const(g.param_rows(p) * g.param_cols(p), E::spec_zero()),
                    Seq::<(Seq<usize>, Seq<E>)>::empty(),
                )
            } else {
                (g.param_grad(p).dense_model(), g.param_grad(p).sparse_model())
            },
    )
}

/// The backward pass of a handle's subgraph leaves the gradient state of
/// every parameter outside its deduplicated list untouched.
pub proof fn lemma_backward_model_untouched<E: Scalar>(
    g: &Graph<E>,
    out: &Variable,
    up: Seq<E>,
    ss: Seq<(Seq<E>, Seq<(Seq<usize>, Seq<E>)>)>,
    p: int,
)
    requires
        forall|j: int| 0 <= j < g.node_count() ==> #[trigger] g.node_wf(j),
        out.wf(g),
        !touches_param(g, out.spec_params(), p),
        0 <= p < ss.len(),
    ensures
        backward_model(g, out.spec_node(), up, ss)[p] == ss[p],
{
    assert forall|n: int|
        param_nodes(g, out.spec_node()).contains(n) implies #[trigger] g.pid_of(n) != p by {
        assert(ids_of(out.spec_params()).contains(n));
        let k = choose|k: int|
            0 <= k < out.spec_params().len() && (#[trigger] out.spec_params()[k]) as int == n;
        assert(g.pid_of(out.spec_params()[k] as int) != p);
    }
    lemma_backward_model_frame(g, out.spec_node(), up, ss, p);
}

/// The materialized gradient of one abstract accumulator state: its sparse
/// contributions scattered, in arrival order, onto its dense part.
pub open spec fn state_grad<E: Scalar>(s: (Seq<E>, Seq<(Seq<usize>, Seq<E>)>), cols: nat) -> Seq<
    E,
> {
    scatter_slots(s.0, cols, s.1, s.1.len() as int)
}

/// The central finite-difference estimate for entry `k` of the parameter
/// behind node `inode`: the output's summed denotation with the entry
/// raised by `half_delta`, minus the summed denotation with it lowered by
/// `half_delta`, divided by `delta`.
pub open spec fn central_estimate<E: Scalar>(
    g: &Graph<E>,
    inode: int,
    onode: int,
    k: int,
    delta: E,
    half_delta: E,
) -> E {
    let base = g.param_value(g.pid_of(inode));
    let plus = eval_sub(g, onode, g.pid_of(inode), base.update(k, base[k].spec_add(half_delta)));
    let minus = eval_sub(g, onode, g.pid_of(inode), base.update(k, base[k].spec_sub(half_delta)));
    sum_fold(seq_binary(BinFn::Sub, plus, minus), plus.len() as int).spec_div(delta)
}

/// The backward model only updates existing entries.
pub proof fn lemma_backward_model_len<E: Scalar>(
    g: &Graph<E>,
    i: int,
    up: Seq<E>,
    ss: Seq<(Seq<E>, Seq<(Seq<usize>, Seq<E>)>)>,
)
    ensures
        backward_model(g, i, up, ss).len() == ss.len(),
    decreases i,
{
    if 0 <= i < g.node_count() {
        match g.op_of(i) {
            Op::Input => {},
            Op::IndexInput => {},
            Op::Parameter(_p) => {},
            Op::Binary(f, l, r) => {
                if l < i && r < i {
                    let lup = binary_bwd_l(f, g.val(l as int), g.val(r as int), up);
                    let rup = binary_bwd_r(f, g.val(l as int), g.val(r as int), up);
                    lemma_backward_model_len(g, l as int, lup, ss);
                    lemma_backward_model_len(g, r as int, rup, backward_model(g, l as int, lup, ss));
                }
            },
            Op::Unary(f, x) => {
                if x < i {
                    lemma_backward_model_len(g, x as int, unary_bwd(f, g.val(x as int), g.val(i), up), ss);
                }
            },
            Op::Softmax(x) => {
                if x < i {
                    lemma_backward_model_len(g, x as int, sm_bwd_seq(false, g.val(i), up, g.cols_of(i)), ss);
                }
            },
            Op::LogSoftmax(x) => {
                if x < i {
                    lemma_backward_model_len(g, x as int, sm_bwd_seq(true, g.val(i), up, g.cols_of(i)), ss);
                }
            },
            Op::Transpose(x) => {
                if x < i {
                    lemma_backward_model_len(g, x as int, transpose_seq(up, g.rows_of(i), g.cols_of(i)), ss);
                }
            },
            Op::Concat(axis, l, r) => {
                if l < i && r < i {
                    let lup = slice_seq(up, g.cols_of(i), 0, 0, g.rows_of(l as int), g.cols_of(l as int));
                    let rup = match axis {
                        Axis::Rows => slice_seq(up, g.cols_of(i), g.rows_of(l as int), 0, g.rows_of(r as int), g.cols_of(r as int)),
                        Axis::Cols => slice_seq(up, g.cols_of(i), 0, g.cols_of(l as int), g.rows_of(r as int), g.cols_of(r as int)),
                    };
                    lemma_backward_model_len(g, l as int, lup, ss);
                    lemma_backward_model_len(g, r as int, rup, backward_model(g, l as int, lup, ss));
                }
            },
            Op::Slice(x, r0, c0, h, w) => {
                if x < i {
                    lemma_backward_model_len(
                        g,
                        x as int,
                        scatter_seq(g.rows_of(x as int), g.cols_of(x as int), r0 as nat, c0 as nat, h as nat, w as nat, up),
                        ss,
                    );
                }
            },
            Op::Dot(l, r) => {
                if l < i && r < i {
                    let lup = mm_seq(up, g.cols_of(i), transpose_seq(g.val(r as int), g.rows_of(r as int), g.cols_of(r as int)), g.rows_of(r as int), g.rows_of(i));
                    let rup = mm_seq(transpose_seq(g.val(l as int), g.rows_of(l as int), g.cols_of(l as int)), g.rows_of(l as int), up, g.cols_of(i), g.cols_of(l as int));
                    lemma_backward_model_len(g, l as int, lup, ss);
                    lemma_backward_model_len(g, r as int, rup, backward_model(g, l as int, lup, ss));
                }
            },
            Op::VectorDot(l, r) => {
                if l < i && r < i {
                    let lup = scale_rows_seq(g.val(r as int), g.cols_of(l as int), up);
                    let rup = scale_rows_seq(g.val(l as int), g.cols_of(l as int), up);
                    lemma_backward_model_len(g, l as int, lup, ss);
                    lemma_backward_model_len(g, r as int, rup, backward_model(g, l as int, lup, ss));
                }
            },
            Op::Index(_pn, _ix) => {},
            Op::Sum(x) => {
                if x < i {
                    lemma_backward_model_len(
                        g,
                        x as int,
                        seq_const(g.rows_of(x as int) * g.cols_of(x as int), up[0]),
                        ss,
                    );
                }
            },
        }
    }
}

/// The backward pass of node `i` never touches the gradient state of a
/// parameter record that no reachable parameter node names.
pub proof fn lemma_backward_model_frame<E: Scalar>(
    g: &Graph<E>,
    i: int,
    up: Seq<E>,
    ss: Seq<(Seq<E>, Seq<(Seq<usize>, Seq<E>)>)>,
    p: int,
)
    requires
        forall|j: int| 0 <= j < g.node_count() ==> #[trigger] g.node_wf(j),
        forall|n: int| param_nodes(g, i).contains(n) ==> #[trigger] g.pid_of(n) != p,
        0 <= p < ss.len(),
    ensures
        backward_model(g, i, up, ss)[p] == ss[p],
    decreases i,
{
    if 0 <= i < g.node_count() {
        assert(g.node_wf(i));
        match g.op_of(i) {
            Op::Input => {},
            Op::IndexInput => {},
            Op::Parameter(q) => {
                assert(param_nodes(g, i).contains(i));
                assert(g.pid_of(i) != p);
            },
            Op::Binary(f, l, r) => {
                if l < i && r < i {
                    let lup = binary_bwd_l(f, g.val(l as int), g.val(r as int), up);
                    let rup = binary_bwd_r(f, g.val(l as int), g.val(r as int), up);
                    assert forall|n: int|
                        param_nodes(g, l as int).contains(n) implies #[trigger] g.pid_of(n)
                        != p by {
                        assert(param_nodes(g, i).contains(n));
                    }
                    assert forall|n: int|
                        param_nodes(g, r as int).contains(n) implies #[trigger] g.pid_of(n)
                        != p by {
                        assert(param_nodes(g, i).contains(n));
                    }
                    lemma_backward_model_len(g, l as int, lup, ss);
                    lemma_backward_model_frame(g, l as int, lup, ss, p);
                    lemma_backward_model_frame(g, r as int, rup, backward_model(g, l as int, lup, ss), p);
                }
            },
            Op::Unary(f, x) => {
                if x < i {
                    lemma_backward_model_frame(g, x as int, unary_bwd(f, g.val(x as int), g.val(i), up), ss, p);
                }
            },
            Op::Softmax(x) => {
                if x < i {
                    lemma_backward_model_frame(g, x as int, sm_bwd_seq(false, g.val(i), up, g.cols_of(i)), ss, p);
                }
            },
            Op::LogSoftmax(x) => {
                if x < i {
                    lemma_backward_model_frame(g, x as int, sm_bwd_seq(true, g.val(i), up, g.cols_of(i)), ss, p);
                }
            },
            Op::Transpose(x) => {
                if x < i {
                    lemma_backward_model_frame(g, x as int, transpose_seq(up, g.rows_of(i), g.cols_of(i)), ss, p);
                }
            },
            Op::Concat(axis, l, r) => {
                if l < i && r < i {
                    let lup = slice_seq(up, g.cols_of(i), 0, 0, g.rows_of(l as int), g.cols_of(l as int));
                    let rup = match axis {
                        Axis::Rows => slice_seq(up, g.cols_of(i), g.rows_of(l as int), 0, g.rows_of(r as int), g.cols_of(r as int)),
                        Axis::Cols => slice_seq(up, g.cols_of(i), 0, g.cols_of(l as int), g.rows_of(r as int), g.cols_of(r as int)),
                    };
                    assert forall|n: int|
                        param_nodes(g, l as int).contains(n) implies #[trigger] g.pid_of(n)
                        != p by {
                        assert(param_nodes(g, i).contains(n));
                    }
                    assert forall|n: int|
                        param_nodes(g, r as int).contains(n) implies #[trigger] g.pid_of(n)
                        != p by {
                        assert(param_nodes(g, i).contains(n));
                    }
                    lemma_backward_model_len(g, l as int, lup, ss);
                    lemma_backward_model_frame(g, l as int, lup, ss, p);
                    lemma_backward_model_frame(g, r as int, rup, backward_model(g, l as int, lup, ss), p);
                }
            },
            Op::Slice(x, r0, c0, h, w) => {
                if x < i {
                    lemma_backward_model_frame(
                        g,
                        x as int,
                        scatter_seq(g.rows_of(x as int), g.cols_of(x as int), r0 as nat, c0 as nat, h as nat, w as nat, up),
                        ss,
                        p,
                    );
                }
            },
            Op::Dot(l, r) => {
                if l < i && r < i {
                    let lup = mm_seq(up, g.cols_of(i), transpose_seq(g.val(r as int), g.rows_of(r as int), g.cols_of(r as int)), g.rows_of(r as int), g.rows_of(i));
                    let rup = mm_seq(transpose_seq(g.val(l as int), g.rows_of(l as int), g.cols_of(l as int)), g.rows_of(l as int), up, g.cols_of(i), g.cols_of(l as int));
                    assert forall|n: int|
                        param_nodes(g, l as int).contains(n) implies #[trigger] g.pid_of(n)
                        != p by {
                        assert(param_nodes(g, i).contains(n));
                    }
                    assert forall|n: int|
                        param_nodes(g, r as int).contains(n) implies #[trigger] g.pid_of(n)
                        != p by {
                        assert(param_nodes(g, i).contains(n));
                    }
                    lemma_backward_model_len(g, l as int, lup, ss);
                    lemma_backward_model_frame(g, l as int, lup, ss, p);
                    lemma_backward_model_frame(g, r as int, rup, backward_model(g, l as int, lup, ss), p);
                }
            },
            Op::VectorDot(l, r) => {
                if l < i && r < i {
                    let lup = scale_rows_seq(g.val(r as int), g.cols_of(l as int), up);
                    let rup = scale_rows_seq(g.val(l as int), g.cols_of(l as int), up);
                    assert forall|n: int|
                        param_nodes(g, l as int).contains(n) implies #[trigger] g.pid_of(n)
                        != p by {
                        assert(param_nodes(g, i).contains(n));
                    }
                    assert forall|n: int|
                        param_nodes(g, r as int).contains(n) implies #[trigger] g.pid_of(n)
                        != p by {
                        assert(param_nodes(g, i).contains(n));
                    }
                    lemma_backward_model_len(g, l as int, lup, ss);
                    lemma_backward_model_frame(g, l as int, lup, ss, p);
                    lemma_backward_model_frame(g, r as int, rup, backward_model(g, l as int, lup, ss), p);
                }
            },
            Op::Index(pn, _ix) => {
                assert(g.node_wf(pn as int));
                if pn < i {
                    assert(param_nodes(g, pn as int).contains(pn as int));
                    assert(param_nodes(g, i).contains(pn as int));
                    assert(g.pid_of(pn as int) != p);
                }
            },
            Op::Sum(x) => {
                if x < i {
                    lemma_backward_model_frame(
                        g,
                        x as int,
                        seq_const(g.rows_of(x as int) * g.cols_of(x as int), up[0]),
                        ss,
                        p,
                    );
                }
            },
        }
    }
}

/// No row-gather node aimed at parameter `p` names row `row` in its stored
/// snapshot.
pub open spec fn gathers_avoid_row<E: Scalar>(g: &Graph<E>, p: int, row: int) -> bool {
    forall|j: int|
        0 <= j < g.node_count() ==> match #[trigger] g.op_of(j) {
            Op::Index(pn, _ix) => g.pid_of(pn as int) == p ==> forall|q: int|
                0 <= q < g.idx_of(j).len() ==> (#[trigger] g.idx_of(j)[q] as int) != row,
            _ => true,
        }
}

/// The backward traversal of node `i` never visits a parameter leaf of
/// record `p` directly — every contribution to `p` from this subgraph, if
/// any, arrives through a row-gather node.
pub open spec fn dense_avoids<E: Scalar>(g: &Graph<E>, i: int, p: int) -> bool
    decreases i,
{
    if 0 <= i < g.node_count() {
        match g.op_of(i) {
            Op::Input => true,
            Op::IndexInput => true,
            Op::Parameter(q) => q as int != p,
            Op::Binary(_f, l, r) => (l < i ==> dense_avoids(g, l as int, p)) && (r < i
                ==> dense_avoids(g, r as int, p)),
            Op::Unary(_f, x) => x < i ==> dense_avoids(g, x as int, p),
            Op::Softmax(x) => x < i ==> dense_avoids(g, x as int, p),
            Op::LogSoftmax(x) => x < i ==> dense_avoids(g, x as int, p),
            Op::Transpose(x) => x < i ==> dense_avoids(g, x as int, p),
            Op::Concat(_axis, l, r) => (l < i ==> dense_avoids(g, l as int, p)) && (r < i
                ==> dense_avoids(g, r as int, p)),
            Op::Slice(x, _r0, _c0, _h, _w) => x < i ==> dense_avoids(g, x as int, p),
            Op::Dot(l, r) => (l < i ==> dense_avoids(g, l as int, p)) && (r < i ==> dense_avoids(
                g,
                r as int,
                p,
            )),
            Op::VectorDot(l, r) => (l < i ==> dense_avoids(g, l as int, p)) && (r < i
                ==> dense_avoids(g, r as int, p)),
            Op::Index(_pn, _ix) => true,
            Op::Sum(x) => x < i ==> dense_avoids(g, x as int, p),
        }
    } else {
        true
    }
}

/// Under those two conditions, the backward model leaves `p`'s dense part
/// alone and only appends sparse pairs whose index lists avoid `row`.
proof fn lemma_model_sparse_only<E: Scalar>(
    g: &Graph<E>,
    i: int,
    up: Seq<E>,
    ss: Seq<(Seq<E>, Seq<(Seq<usize>, Seq<E>)>)>,
    p: int,
    row: int,
)
    requires
        forall|j: int| 0 <= j < g.node_count() ==> #[trigger] g.node_wf(j),
        gathers_avoid_row(g, p, row),
        dense_avoids(g, i, p),
        0 <= p < ss.len(),
    ensures
        backward_model(g, i, up, ss).len() == ss.len(),
        backward_model(g, i, up, ss)[p].0 == ss[p].0,
        ss[p].1.len() <= backward_model(g, i, up, ss)[p].1.len(),
        forall|t: int|
            0 <= t < ss[p].1.len() ==> #[trigger] backward_model(g, i, up, ss)[p].1[t]
                == ss[p].1[t],
        forall|t: int|
            ss[p].1.len() <= t < backward_model(g, i, up, ss)[p].1.len() ==> forall|q: int|
                0 <= q < (#[trigger] backward_model(g, i, up, ss)[p].1[t]).0.len() ==> ((
                #[trigger] backward_model(g, i, up, ss)[p].1[t].0[q]) as int) != row,
    decreases i,
{
    lemma_backward_model_len(g, i, up, ss);
    if 0 <= i < g.node_count() {
        assert(g.node_wf(i));
        match g.op_of(i) {
            Op::Input => {},
            Op::IndexInput => {},
            Op::Parameter(_q) => {},
            Op::Binary(f, l, r) => {
                if l < i && r < i {
                    let lup = binary_bwd_l(f, g.val(l as int), g.val(r as int), up);
                    let rup = binary_bwd_r(f, g.val(l as int), g.val(r as int), up);
                    let ss1 = backward_model(g, l as int, lup, ss);
                    lemma_model_sparse_only(g, l as int, lup, ss, p, row);
                    lemma_model_sparse_only(g, r as int, rup, ss1, p, row);
                }
            },
            Op::Unary(f, x) => {
                if x < i {
                    lemma_model_sparse_only(
                        g,
                        x as int,
                        unary_bwd(f, g.val(x as int), g.val(i), up),
                        ss,
                        p,
                        row,
                    );
                }
            },
            Op::Softmax(x) => {
                if x < i {
                    lemma_model_sparse_only(
                        g,
                        x as int,
                        sm_bwd_seq(false, g.val(i), up, g.cols_of(i)),
                        ss,
                        p,
                        row,
                    );
                }
            },
            Op::LogSoftmax(x) => {
                if x < i {
                    lemma_model_sparse_only(
                        g,
                        x as int,
                        sm_bwd_seq(true, g.val(i), up, g.cols_of(i)),
                        ss,
                        p,
                        row,
                    );
                }
            },
            Op::Transpose(x) => {
                if x < i {
                    lemma_model_sparse_only(
                        g,
                        x as int,
                        transpose_seq(up, g.rows_of(i), g.cols_of(i)),
                        ss,
                        p,
                        row,
                    );
                }
            },
            Op::Concat(axis, l, r) => {
                if l < i && r < i {
                    let lup = slice_seq(
                        up,
                        g.cols_of(i),
                        0,
                        0,
                        g.rows_of(l as int),
                        g.cols_of(l as int),
                    );
                    let rup = match axis {
                        Axis::Rows => slice_seq(
                            up,
                            g.cols_of(i),
                            g.rows_of(l as int),
                            0,
                            g.rows_of(r as int),
                            g.cols_of(r as int),
                        ),
                        Axis::Cols => slice_seq(
                            up,
                            g.cols_of(i),
                            0,
                            g.cols_of(l as int),
                            g.rows_of(r as int),
                            g.cols_of(r as int),
                        ),
                    };
                    let ss1 = backward_model(g, l as int, lup, ss);
                    lemma_model_sparse_only(g, l as int, lup, ss, p, row);
                    lemma_model_sparse_only(g, r as int, rup, ss1, p, row);
                }
            },
            Op::Slice(x, r0, c0, h, w) => {
                if x < i {
                    lemma_model_sparse_only(
                        g,
                        x as int,
                        scatter_seq(
                            g.rows_of(x as int),
                            g.cols_of(x as int),
                            r0 as nat,
                            c0 as nat,
                            h as nat,
                            w as nat,
                            up,
                        ),
                        ss,
                        p,
                        row,
                    );
                }
            },
            Op::Dot(l, r) => {
                if l < i && r < i {
                    let lup = mm_seq(
                        up,
                        g.cols_of(i),
                        transpose_seq(g.val(r as int), g.rows_of(r as int), g.cols_of(r as int)),
                        g.rows_of(r as int),
                        g.rows_of(i),
                    );
                    let rup = mm_seq(
                        transpose_seq(g.val(l as int), g.rows_of(l as int), g.cols_of(l as int)),
                        g.rows_of(l as int),
                        up,
                        g.cols_of(i),
                        g.cols_of(l as int),
                    );
                    let ss1 = backward_model(g, l as int, lup, ss);
                    lemma_model_sparse_only(g, l as int, lup, ss, p, row);
                    lemma_model_sparse_only(g, r as int, rup, ss1, p, row);
                }
            },
            Op::VectorDot(l, r) => {
                if l < i && r < i {
                    let lup = scale_rows_seq(g.val(r as int), g.cols_of(l as int), up);
                    let rup = scale_rows_seq(g.val(l as int), g.cols_of(l as int), up);
                    let ss1 = backward_model(g, l as int, lup, ss);
                    lemma_model_sparse_only(g, l as int, lup, ss, p, row);
                    lemma_model_sparse_only(g, r as int, rup, ss1, p, row);
                }
            },
            Op::Index(pn, _ix) => {},
            Op::Sum(x) => {
                if x < i {
                    lemma_model_sparse_only(
                        g,
                        x as int,
                        seq_const(g.rows_of(x as int) * g.cols_of(x as int), up[0]),
                        ss,
                        p,
                        row,
                    );
                }
            },
        }
    }
}

/// Sparse accumulation is local, end to end: a backward pass whose
/// row-gathers aimed at parameter `p` all avoid `row`, and which never
/// reaches `p`'s leaf densely, leaves every cell of that row of the
/// materialized gradient exactly zero when the accumulator started reset.
pub proof fn lemma_backward_rows_localized<E: Scalar>(
    g: &Graph<E>,
    i: int,
    up: Seq<E>,
    ss: Seq<(Seq<E>, Seq<(Seq<usize>, Seq<E>)>)>,
    p: int,
    row: int,
    c: int,
)
    requires
        g.wf(),
        gathers_avoid_row(g, p, row),
        dense_avoids(g, i, p),
        0 <= p < ss.len(),
        ss[p].0 == seq_const(g.param_rows(p) * g.param_cols(p), E::spec_zero()),
        ss[p].1 == Seq::<(Seq<usize>, Seq<E>)>::empty(),
        g.param_cols(p) >= 1,
        0 <= row < g.param_rows(p),
        0 <= c < g.param_cols(p),
    ensures
        state_grad(backward_model(g, i, up, ss)[p], g.param_cols(p))[
            row * g.param_cols(p) + c
        ] == E::spec_zero(),
{
    assert forall|j: int| 0 <= j < g.node_count() implies #[trigger] g.node_wf(j) by {}
    lemma_model_sparse_only(g, i, up, ss, p, row);
    let res = backward_model(g, i, up, ss)[p];
    let cols = g.param_cols(p);
    let k = row * cols + c;
    crate::tensor::lemma_cell_index(g.param_rows(p) as int, cols as int, row, c);
    crate::tensor::lemma_cell_split(cols as int, row, c);
    assert forall|t: int, q: int|
        0 <= t < res.1.len() && 0 <= q < res.1[t].0.len() implies (
        #[trigger] res.1[t].0[q] as int) != k / cols as int by {
        assert(res.1[t].0[q] as int != row);
    }
    crate::accumulator::lemma_scatter_untouched(res.0, cols, res.1, res.1.len() as int, k);
}

/// The backward model reads only node records and parameter values, so it
/// is unchanged by gradient accumulation.
proof fn lemma_model_stable<E: Scalar>(
    g1: &Graph<E>,
    g2: &Graph<E>,
    i: int,
    up: Seq<E>,
    ss: Seq<(Seq<E>, Seq<(Seq<usize>, Seq<E>)>)>,
)
    requires
        g1.nodes@ == g2.nodes@,
        g1.param_count() == g2.param_count(),
        forall|p: int| 0 <= p < g1.param_count() ==> g2.params@[p].value == g1.params@[p].value,
        forall|j: int| 0 <= j < g1.node_count() ==> #[trigger] g1.node_wf(j),
    ensures
        backward_model(g1, i, up, ss) == backward_model(g2, i, up, ss),
    decreases i,
{
    assert forall|k: int|
        0 <= k < g1.node_count() implies #[trigger] g2.op_of(k) == g1.op_of(k) && g2.rows_of(k)
        == g1.rows_of(k) && g2.cols_of(k) == g1.cols_of(k) && g2.idx_of(k) == g1.idx_of(k)
        && g2.ng(k) == g1.ng(k) && g2.val(k) == g1.val(k) by {
        assert(g1.node_wf(k));
        match g1.nodes@[k].op {
            Op::Parameter(p) => {
                assert(g2.params@[p as int].value == g1.params@[p as int].value);
            },
            _ => {},
        }
    }
    if 0 <= i < g1.node_count() {
        assert(g1.node_wf(i));
        match g1.op_of(i) {
            Op::Input => {},
            Op::IndexInput => {},
            Op::Parameter(_p) => {},
            Op::Binary(f, l, r) => {
                let lup = binary_bwd_l(f, g1.val(l as int), g1.val(r as int), up);
                let rup = binary_bwd_r(f, g1.val(l as int), g1.val(r as int), up);
                lemma_model_stable(g1, g2, l as int, lup, ss);
                lemma_model_stable(g1, g2, r as int, rup, backward_model(g1, l as int, lup, ss));
            },
            Op::Unary(f, x) => {
                lemma_model_stable(
                    g1,
                    g2,
                    x as int,
                    unary_bwd(f, g1.val(x as int), g1.val(i), up),
                    ss,
                );
            },
            Op::Softmax(x) => {
                lemma_model_stable(
                    g1,
                    g2,
                    x as int,
                    sm_bwd_seq(false, g1.val(i), up, g1.cols_of(i)),
                    ss,
                );
            },
            Op::LogSoftmax(x) => {
                lemma_model_stable(
                    g1,
                    g2,
                    x as int,
                    sm_bwd_seq(true, g1.val(i), up, g1.cols_of(i)),
                    ss,
                );
            },
            Op::Transpose(x) => {
                lemma_model_stable(
                    g1,
                    g2,
                    x as int,
                    transpose_seq(up, g1.rows_of(i), g1.cols_of(i)),
                    ss,
                );
            },
            Op::Concat(axis, l, r) => {
                let lup = slice_seq(up, g1.cols_of(i), 0, 0, g1.rows_of(l as int), g1.cols_of(
                    l as int,
                ));
                let rup = match axis {
                    Axis::Rows => slice_seq(
                        up,
                        g1.cols_of(i),
                        g1.rows_of(l as int),
                        0,
                        g1.rows_of(r as int),
                        g1.cols_of(r as int),
                    ),
                    Axis::Cols => slice_seq(
                        up,
                        g1.cols_of(i),
                        0,
                        g1.cols_of(l as int),
                        g1.rows_of(r as int),
                        g1.cols_of(r as int),
                    ),
                };
                lemma_model_stable(g1, g2, l as int, lup, ss);
                lemma_model_stable(g1, g2, r as int, rup, backward_model(g1, l as int, lup, ss));
            },
            Op::Slice(x, r0, c0, h, w) => {
                lemma_model_stable(
                    g1,
                    g2,
                    x as int,
                    scatter_seq(
                        g1.rows_of(x as int),
                        g1.cols_of(x as int),
                        r0 as nat,
                        c0 as nat,
                        h as nat,
                        w as nat,
                        up,
                    ),
                    ss,
                );
            },
            Op::Dot(l, r) => {
                let lup = mm_seq(
                    up,
                    g1.cols_of(i),
                    transpose_seq(g1.val(r as int), g1.rows_of(r as int), g1.cols_of(r as int)),
                    g1.rows_of(r as int),
                    g1.rows_of(i),
                );
                let rup = mm_seq(
                    transpose_seq(g1.val(l as int), g1.rows_of(l as int), g1.cols_of(l as int)),
                    g1.rows_of(l as int),
                    up,
                    g1.cols_of(i),
                    g1.cols_of(l as int),
                );
                lemma_model_stable(g1, g2, l as int, lup, ss);
                lemma_model_stable(g1, g2, r as int, rup, backward_model(g1, l as int, lup, ss));
            },
            Op::VectorDot(l, r) => {
                let lup = scale_rows_seq(g1.val(r as int), g1.cols_of(l as int), up);
                let rup = scale_rows_seq(g1.val(l as int), g1.cols_of(l as int), up);
                lemma_model_stable(g1, g2, l as int, lup, ss);
                lemma_model_stable(g1, g2, r as int, rup, backward_model(g1, l as int, lup, ss));
            },
            Op::Index(_pn, _ix) => {},
            Op::Sum(x) => {
                lemma_model_stable(
                    g1,
                    g2,
                    x as int,
                    seq_const(g1.rows_of(x as int) * g1.cols_of(x as int), up[0]),
                    ss,
                );
            },
        }
    }
}

/// Accumulating into one parameter's gradient — value untouched, shape kept
/// — preserves the whole graph's consistency and every other accessor.
proof fn lemma_wf_grad_update<E: Scalar>(g1: &Graph<E>, g2: &Graph<E>, p: int)
    requires
        g1.wf(),
        0 <= p < g1.param_count(),
        g2.nodes@ == g1.nodes@,
        g2.param_count() == g1.param_count(),
        forall|q: int| 0 <= q < g1.param_count() && q != p ==> g2.params@[q] == g1.params@[q],
        g2.params@[p].value == g1.params@[p].value,
        g2.params@[p].grad.wf(),
        g2.params@[p].grad.spec_rows() == g2.params@[p].value.spec_rows(),
        g2.params@[p].grad.spec_cols() == g2.params@[p].value.spec_cols(),
    ensures
        g2.wf(),
        forall|q: int| 0 <= q < g1.param_count() ==> #[trigger] g2.param_value(q) == g1.param_value(q),
{
    assert forall|q: int|
        0 <= q < g1.param_count() implies #[trigger] g2.params@[q].value == g1.params@[q].value by {
        if q != p {
            assert(g2.params@[q] == g1.params@[q]);
        }
    }
    assert forall|k: int|
        0 <= k < g1.node_count() implies #[trigger] g2.op_of(k) == g1.op_of(k) && g2.rows_of(k)
        == g1.rows_of(k) && g2.cols_of(k) == g1.cols_of(k) && g2.idx_of(k) == g1.idx_of(k)
        && g2.ng(k) == g1.ng(k) by {
        assert(g1.node_wf(k));
        match g1.nodes@[k].op {
            Op::Parameter(q) => {
                assert(g2.params@[q as int].value == g1.params@[q as int].value);
            },
            _ => {},
        }
    }
    assert forall|j: int| 0 <= j < g2.node_count() implies #[trigger] g2.node_wf(j) by {
        assert(g1.node_wf(j));
        assert(g2.nodes@[j] == g1.nodes@[j]);
        assert(g2.op_of(j) == g1.op_of(j));
        match g1.nodes@[j].op {
            Op::Input => {},
            Op::IndexInput => {},
            Op::Parameter(_q) => {},
            Op::Binary(_f, l, r) => {
                assert(g2.op_of(l as int) == g1.op_of(l as int));
                assert(g2.op_of(r as int) == g1.op_of(r as int));
            },
            Op::Unary(_f, x) => {
                assert(g2.op_of(x as int) == g1.op_of(x as int));
            },
            Op::Softmax(x) => {
                assert(g2.op_of(x as int) == g1.op_of(x as int));
            },
            Op::LogSoftmax(x) => {
                assert(g2.op_of(x as int) == g1.op_of(x as int));
            },
            Op::Transpose(x) => {
                assert(g2.op_of(x as int) == g1.op_of(x as int));
            },
            Op::Concat(_axis, l, r) => {
                assert(g2.op_of(l as int) == g1.op_of(l as int));
                assert(g2.op_of(r as int) == g1.op_of(r as int));
            },
            Op::Slice(x, _r0, _c0, _h, _w) => {
                assert(g2.op_of(x as int) == g1.op_of(x as int));
            },
            Op::Dot(l, r) => {
                assert(g2.op_of(l as int) == g1.op_of(l as int));
                assert(g2.op_of(r as int) == g1.op_of(r as int));
            },
            Op::VectorDot(l, r) => {
                assert(g2.op_of(l as int) == g1.op_of(l as int));
                assert(g2.op_of(r as int) == g1.op_of(r as int));
            },
            Op::Index(pn, ix) => {
                assert(g2.op_of(pn as int) == g1.op_of(pn as int));
                assert(g2.op_of(ix as int) == g1.op_of(ix as int));
            },
            Op::Sum(x) => {
                assert(g2.op_of(x as int) == g1.op_of(x as int));
            },
        }
    }
    assert forall|q: int|
        0 <= q < g2.param_count() implies {
            &&& (#[trigger] g2.params@[q]).value.wf()
            &&& g2.params@[q].grad.wf()
            &&& g2.params@[q].grad.spec_rows() == g2.params@[q].value.spec_rows()
            &&& g2.params@[q].grad.spec_cols() == g2.params@[q].value.spec_cols()
        } by {
        if q != p {
            assert(g2.params@[q] == g1.params@[q]);
            assert(g1.params@[q].value.wf());
        } else {
            assert(g1.params@[p].value.wf());
        }
    }
}

impl<E: Scalar> Graph<E> {
    /// The gradient an elementwise unary node `i` over operand `x` passes
    /// down, computed from the cached values.
    fn local_unary_bwd(&self, f: UnFn, x: usize, i: usize, up: &Tensor<E>) -> (r: Tensor<E>)
        requires
            self.wf(),
            x < self.node_count(),
            i < self.node_count(),
            self.tensor_node(x as int),
            self.tensor_node(i as int),
            self.rows_of(i as int) == self.rows_of(x as int),
            self.cols_of(i as int) == self.cols_of(x as int),
            up.wf(),
            up.spec_rows() == self.rows_of(i as int),
            up.spec_cols() == self.cols_of(i as int),
        ensures
            r.wf(),
            r.spec_rows() == self.rows_of(x as int),
            r.spec_cols() == self.cols_of(x as int),
            r@ == unary_bwd(f, self.val(x as int), self.val(i as int), up@),
    {
        let n = self.value_ref(x).count();
        let rows = self.value_ref(x).rows();
        let cols = self.value_ref(x).cols();
        match f {
            UnFn::Neg => Tensor::map_unary(UnFn::Neg, up),
            UnFn::Square => {
                let twos = Tensor::filled(rows, cols, E::two());
                let t1 = Tensor::map_binary(BinFn::Mul, self.value_ref(x), &twos);
                Tensor::map_binary(BinFn::Mul, &t1, up)
            },
            UnFn::Exp => Tensor::map_binary(BinFn::Mul, self.value_ref(i), up),
            UnFn::Ln => Tensor::map_binary(BinFn::Div, up, self.value_ref(x)),
            UnFn::Tanh => {
                let v = self.value_ref(i);
                let ones = Tensor::filled(rows, cols, E::one());
                let vsq = Tensor::map_binary(BinFn::Mul, v, v);
                let om = Tensor::map_binary(BinFn::Sub, &ones, &vsq);
                Tensor::map_binary(BinFn::Mul, up, &om)
            },
            UnFn::Sigmoid => {
                let v = self.value_ref(i);
                let ones = Tensor::filled(rows, cols, E::one());
                let t1 = Tensor::map_binary(BinFn::Mul, up, v);
                let om = Tensor::map_binary(BinFn::Sub, &ones, v);
                Tensor::map_binary(BinFn::Mul, &t1, &om)
            },
            UnFn::Relu => self.value_ref(x).relu_backward(up),
        }
    }

    /// The gradient an elementwise binary node over `(l, r)` passes to one
    /// of its operands (`left` selects which), computed from cached values.
    fn local_binary_bwd(
        &self,
        f: BinFn,
        l: usize,
        r: usize,
        up: &Tensor<E>,
        left: bool,
    ) -> (g: Tensor<E>)
        requires
            self.wf(),
            l < self.node_count(),
            r < self.node_count(),
            self.tensor_node(l as int),
            self.tensor_node(r as int),
            self.rows_of(l as int) == self.rows_of(r as int),
            self.cols_of(l as int) == self.cols_of(r as int),
            up.wf(),
            up.spec_rows() == self.rows_of(l as int),
            up.spec_cols() == self.cols_of(l as int),
        ensures
            g.wf(),
            g.spec_rows() == self.rows_of(l as int),
            g.spec_cols() == self.cols_of(l as int),
            g@ == if left {
                binary_bwd_l(f, self.val(l as int), self.val(r as int), up@)
            } else {
                binary_bwd_r(f, self.val(l as int), self.val(r as int), up@)
            },
    {
        if left {
            match f {
                BinFn::Add => up.duplicate(),
                BinFn::Sub => up.duplicate(),
                BinFn::Mul => Tensor::map_binary(BinFn::Mul, self.value_ref(r), up),
                BinFn::Div => Tensor::map_binary(BinFn::Div, up, self.value_ref(r)),
            }
        } else {
            match f {
                BinFn::Add => up.duplicate(),
                BinFn::Sub => Tensor::map_unary(UnFn::Neg, up),
                BinFn::Mul => Tensor::map_binary(BinFn::Mul, self.value_ref(l), up),
                BinFn::Div => {
                    let nl = Tensor::map_unary(UnFn::Neg, self.value_ref(l));
                    let r2 = {
                        let rv = self.value_ref(r);
                        Tensor::map_binary(BinFn::Mul, rv, rv)
                    };
                    let q = Tensor::map_binary(BinFn::Div, &nl, &r2);
                    Tensor::map_binary(BinFn::Mul, &q, up)
                },
            }
        }
    }

    /// The backward recursion over one node; [`Graph::backward`] wraps it
    /// with the public frame.
    #[verifier::rlimit(100)]
    fn backward_node(&mut self, i: usize, up: &Tensor<E>)
        requires
            old(self).wf(),
            i < old(self).node_count(),
            old(self).tensor_node(i as int),
            up.wf(),
            up.spec_rows() == old(self).rows_of(i as int),
            up.spec_cols() == old(self).cols_of(i as int),
        ensures
            final(self).wf(),
            final(self).node_count() == old(self).node_count(),
            final(self).param_count() == old(self).param_count(),
            final(self).same_nodes_upto(old(self), old(self).node_count() as int),
            forall|q: int|
                0 <= q < old(self).param_count() ==> #[trigger] final(self).param_store(q) == old(
                    self,
                ).param_store(q),
            final(self).acc_states() == backward_model(
                old(self),
                i as int,
                up@,
                old(self).acc_states(),
            ),
        decreases i,
    {
        proof {
            assert(self.node_wf(i as int));
        }
        let op = self.nodes[i].op;
        let ghost base = *self;
        match op {
            Op::Input => {},
            Op::IndexInput => {},
            Op::Parameter(p) => {
                proof {
                    assert(self.params@[p as int].value.wf());
                }
                self.params[p].grad.accumulate_dense(up);
                proof {
                    lemma_wf_grad_update(&base, self, p as int);
                    assert(self.acc_states() =~= backward_model(
                        &base,
                        i as int,
                        up@,
                        base.acc_states(),
                    ));
                }
            },
            Op::Binary(f, l, r) => {
                let lg = self.local_binary_bwd(f, l, r, up, true);
                let rg = self.local_binary_bwd(f, l, r, up, false);
                self.backward_node(l, &lg);
                let ghost mid = *self;
                proof {
                    lemma_backward_frame(&base, &mid);
                    assert(mid.op_of(l as int) == base.op_of(l as int));
                    assert(mid.op_of(r as int) == base.op_of(r as int));
                }
                self.backward_node(r, &rg);
                proof {
                    lemma_backward_frame(&mid, self);
                    lemma_model_stable(&mid, &base, r as int, rg@, mid.acc_states());
                    assert(self.acc_states() == backward_model(
                        &base,
                        i as int,
                        up@,
                        base.acc_states(),
                    ));
                }
            },
            Op::Unary(f, x) => {
                let xg = self.local_unary_bwd(f, x, i, up);
                self.backward_node(x, &xg);
            },
            Op::Softmax(x) => {
                let xg = self.value_ref(i).softmax_backward(up, false);
                self.backward_node(x, &xg);
            },
            Op::LogSoftmax(x) => {
                let xg = self.value_ref(i).softmax_backward(up, true);
                self.backward_node(x, &xg);
            },
            Op::Transpose(x) => {
                let xg = up.transpose();
                self.backward_node(x, &xg);
            },
            Op::Concat(axis, l, r) => {
                let lrows = self.value_ref(l).rows();
                let lcols = self.value_ref(l).cols();
                let rrows = self.value_ref(r).rows();
                let rcols = self.value_ref(r).cols();
                let lg = up.slice_region(0, 0, lrows, lcols);
                let rg = match axis {
                    Axis::Rows => up.slice_region(lrows, 0, rrows, rcols),
                    Axis::Cols => up.slice_region(0, lcols, rrows, rcols),
                };
                self.backward_node(l, &lg);
                let ghost mid = *self;
                proof {
                    lemma_backward_frame(&base, &mid);
                    assert(mid.op_of(l as int) == base.op_of(l as int));
                    assert(mid.op_of(r as int) == base.op_of(r as int));
                }
                self.backward_node(r, &rg);
                proof {
                    lemma_backward_frame(&mid, self);
                    lemma_model_stable(&mid, &base, r as int, rg@, mid.acc_states());
                    assert(self.acc_states() == backward_model(
                        &base,
                        i as int,
                        up@,
                        base.acc_states(),
                    ));
                }
            },
            Op::Slice(x, r0, c0, h, w) => {
                let xrows = self.value_ref(x).rows();
                let xcols = self.value_ref(x).cols();
                let n = self.value_ref(x).count();
                let xg = Tensor::scatter_region(xrows, xcols, r0, c0, up);
                self.backward_node(x, &xg);
            },
            Op::Dot(l, r) => {
                let ln = self.value_ref(l).count();
                let rn = self.value_ref(r).count();
                let lg = {
                    let rt = self.value_ref(r).transpose();
                    up.matmul(&rt)
                };
                let rg = {
                    let lt = self.value_ref(l).transpose();
                    lt.matmul(up)
                };
                self.backward_node(l, &lg);
                let ghost mid = *self;
                proof {
                    lemma_backward_frame(&base, &mid);
                    assert(mid.op_of(l as int) == base.op_of(l as int));
                    assert(mid.op_of(r as int) == base.op_of(r as int));
                }
                self.backward_node(r, &rg);
                proof {
                    lemma_backward_frame(&mid, self);
                    lemma_model_stable(&mid, &base, r as int, rg@, mid.acc_states());
                    assert(self.acc_states() == backward_model(
                        &base,
                        i as int,
                        up@,
                        base.acc_states(),
                    ));
                }
            },
            Op::VectorDot(l, r) => {
                let lg = self.value_ref(r).scale_rows(up);
                let rg = self.value_ref(l).scale_rows(up);
                self.backward_node(l, &lg);
                let ghost mid = *self;
                proof {
                    lemma_backward_frame(&base, &mid);
                    assert(mid.op_of(l as int) == base.op_of(l as int));
                    assert(mid.op_of(r as int) == base.op_of(r as int));
                }
                self.backward_node(r, &rg);
                proof {
                    lemma_backward_frame(&mid, self);
                    lemma_model_stable(&mid, &base, r as int, rg@, mid.acc_states());
                    assert(self.acc_states() == backward_model(
                        &base,
                        i as int,
                        up@,
                        base.acc_states(),
                    ));
                }
            },
            Op::Index(pn, ix) => {
                let p = match self.nodes[pn].op {
                    Op::Parameter(p) => p,
                    _ => 0,
                };
                proof {
                    assert(self.node_wf(pn as int));
                    assert(self.params@[p as int].value.wf());
                }
                let iv = clone_index_list(&self.nodes[i].indices);
                self.params[p].grad.accumulate_sparse(&iv, up);
                proof {
                    lemma_wf_grad_update(&base, self, p as int);
                    assert(self.acc_states() =~= backward_model(
                        &base,
                        i as int,
                        up@,
                        base.acc_states(),
                    ));
                }
            },
            Op::Sum(x) => {
                let xrows = self.value_ref(x).rows();
                let xcols = self.value_ref(x).cols();
                let n = self.value_ref(x).count();
                let seed = up.get(0, 0);
                let xg = Tensor::filled(xrows, xcols, seed);
                self.backward_node(x, &xg);
            },
        }
    }

    /// Run the backward pass of the subgraph ending at node `i`, pushing the
    /// upstream gradient `up` towards the leaves.
    ///
    /// The contract mirrors [`backward_model`]: node records, parameter
    /// values and the whole skeleton are untouched, and the parameters'
    /// gradient states change by exactly the chain-rule contributions of
    /// this subgraph — each parameter leaf reached adds its incoming
    /// gradient elementwise onto its dense part (once per consumer, so
    /// fan-in sums), and each row-gather node appends one sparse
    /// `(indices, rows)` contribution under its stored snapshot.
    pub fn backward(&mut self, i: usize, up: &Tensor<E>)
        requires
            old(self).wf(),
            i < old(self).node_count(),
            old(self).tensor_node(i as int),
            up.wf(),
            up.spec_rows() == old(self).rows_of(i as int),
            up.spec_cols() == old(self).cols_of(i as int),
        ensures
            final(self).wf(),
            final(self).node_count() == old(self).node_count(),
            final(self).param_count() == old(self).param_count(),
            final(self).same_nodes_upto(old(self), old(self).node_count() as int),
            old(self).same_skeleton_upto(final(self), old(self).node_count() as int),
            forall|q: int|
                0 <= q < old(self).param_count() ==> #[trigger] final(self).param_store(q) == old(
                    self,
                ).param_store(q),
            final(self).acc_states() == backward_model(
                old(self),
                i as int,
                up@,
                old(self).acc_states(),
            ),
    {
        let ghost pre = *self;
        self.backward_node(i, up);
        proof {
            lemma_backward_frame(&pre, self);
            lemma_skeleton_refl_like(&pre, self, pre.node_count() as int);
        }
    }
}

/// One backward recursion leaves the graph comparable for the next: node
/// records identical, parameter values identical, every accessor equal.
proof fn lemma_backward_frame<E: Scalar>(g1: &Graph<E>, g2: &Graph<E>)
    requires
        g1.wf(),
        g1.node_count() == g2.node_count(),
        g1.param_count() == g2.param_count(),
        g2.same_nodes_upto(g1, g1.node_count() as int),
        forall|q: int|
            0 <= q < g1.param_count() ==> #[trigger] g2.param_store(q) == g1.param_store(q),
    ensures
        g2.nodes@ == g1.nodes@,
        forall|q: int| 0 <= q < g1.param_count() ==> g2.params@[q].value == g1.params@[q].value,
        forall|k: int|
            0 <= k < g1.node_count() ==> #[trigger] g2.op_of(k) == g1.op_of(k) && g2.rows_of(k)
                == g1.rows_of(k) && g2.cols_of(k) == g1.cols_of(k) && g2.idx_of(k) == g1.idx_of(k)
                && g2.ng(k) == g1.ng(k) && g2.val(k) == g1.val(k),
{
    assert forall|j: int| 0 <= j < g1.node_count() implies g2.nodes@[j] == g1.nodes@[j] by {
        assert(g2.node_at(j) == g1.node_at(j));
    }
    assert(g2.nodes@ =~= g1.nodes@);
    assert forall|q: int|
        0 <= q < g1.param_count() implies g2.params@[q].value == g1.params@[q].value by {
        assert(g2.param_store(q) == g1.param_store(q));
    }
    assert forall|k: int|
        0 <= k < g1.node_count() implies #[trigger] g2.op_of(k) == g1.op_of(k) && g2.rows_of(k)
        == g1.rows_of(k) && g2.cols_of(k) == g1.cols_of(k) && g2.idx_of(k) == g1.idx_of(k)
        && g2.ng(k) == g1.ng(k) && g2.val(k) == g1.val(k) by {
        assert(g2.nodes@[k] == g1.nodes@[k]);
        assert(g1.node_wf(k));
        match g1.nodes@[k].op {
            Op::Parameter(p) => {
                assert(g2.params@[p as int].value == g1.params@[p as int].value);
            },
            _ => {},
        }
    }
}

/// Replacing one parameter's record — value shape kept — preserves the
/// graph's consistency and every structural accessor.
proof fn lemma_wf_param_update<E: Scalar>(g1: &Graph<E>, g2: &Graph<E>, p: int)
    requires
        g1.wf(),
        0 <= p < g1.param_count(),
        g2.nodes@ == g1.nodes@,
        g2.param_count() == g1.param_count(),
        forall|q: int| 0 <= q < g1.param_count() && q != p ==> g2.params@[q] == g1.params@[q],
        g2.params@[p].value.wf(),
        g2.params@[p].value.spec_rows() == g1.params@[p].value.spec_rows(),
        g2.params@[p].value.spec_cols() == g1.params@[p].value.spec_cols(),
        g2.params@[p].grad.wf(),
        g2.params@[p].grad.spec_rows() == g2.params@[p].value.spec_rows(),
        g2.params@[p].grad.spec_cols() == g2.params@[p].value.spec_cols(),
    ensures
        g2.wf(),
        forall|k: int|
            0 <= k < g1.node_count() ==> #[trigger] g2.op_of(k) == g1.op_of(k) && g2.rows_of(k)
                == g1.rows_of(k) && g2.cols_of(k) == g1.cols_of(k) && g2.idx_of(k) == g1.idx_of(k)
                && g2.ng(k) == g1.ng(k),
{
    assert forall|k: int|
        0 <= k < g1.node_count() implies #[trigger] g2.op_of(k) == g1.op_of(k) && g2.rows_of(k)
        == g1.rows_of(k) && g2.cols_of(k) == g1.cols_of(k) && g2.idx_of(k) == g1.idx_of(k)
        && g2.ng(k) == g1.ng(k) by {
        assert(g1.node_wf(k));
        match g1.nodes@[k].op {
            Op::Parameter(q) => {
                if q != p {
                    assert(g2.params@[q as int] == g1.params@[q as int]);
                }
            },
            _ => {},
        }
    }
    assert forall|j: int| 0 <= j < g2.node_count() implies #[trigger] g2.node_wf(j) by {
        assert(g1.node_wf(j));
        assert(g2.nodes@[j] == g1.nodes@[j]);
        assert(g2.op_of(j) == g1.op_of(j));
        match g1.nodes@[j].op {
            Op::Input => {},
            Op::IndexInput => {},
            Op::Parameter(_q) => {},
            Op::Binary(_f, l, r) => {
                assert(g2.op_of(l as int) == g1.op_of(l as int));
                assert(g2.op_of(r as int) == g1.op_of(r as int));
            },
            Op::Unary(_f, x) => {
                assert(g2.op_of(x as int) == g1.op_of(x as int));
            },
            Op::Softmax(x) => {
                assert(g2.op_of(x as int) == g1.op_of(x as int));
            },
            Op::LogSoftmax(x) => {
                assert(g2.op_of(x as int) == g1.op_of(x as int));
            },
            Op::Transpose(x) => {
                assert(g2.op_of(x as int) == g1.op_of(x as int));
            },
            Op::Concat(_axis, l, r) => {
                assert(g2.op_of(l as int) == g1.op_of(l as int));
                assert(g2.op_of(r as int) == g1.op_of(r as int));
            },
            Op::Slice(x, _r0, _c0, _h, _w) => {
                assert(g2.op_of(x as int) == g1.op_of(x as int));
            },
            Op::Dot(l, r) => {
                assert(g2.op_of(l as int) == g1.op_of(l as int));
                assert(g2.op_of(r as int) == g1.op_of(r as int));
            },
            Op::VectorDot(l, r) => {
                assert(g2.op_of(l as int) == g1.op_of(l as int));
                assert(g2.op_of(r as int) == g1.op_of(r as int));
            },
            Op::Index(pn, ix) => {
                assert(g2.op_of(pn as int) == g1.op_of(pn as int));
                assert(g2.op_of(ix as int) == g1.op_of(ix as int));
            },
            Op::Sum(x) => {
                assert(g2.op_of(x as int) == g1.op_of(x as int));
            },
        }
    }
    assert forall|q: int|
        0 <= q < g2.param_count() implies {
            &&& (#[trigger] g2.params@[q]).value.wf()
            &&& g2.params@[q].grad.wf()
            &&& g2.params@[q].grad.spec_rows() == g2.params@[q].value.spec_rows()
            &&& g2.params@[q].grad.spec_cols() == g2.params@[q].value.spec_cols()
        } by {
        if q != p {
            assert(g2.params@[q] == g1.params@[q]);
            assert(g1.params@[q].value.wf());
        }
    }
}

impl<E: Scalar> Graph<E> {
    /// Assign a new value to a dense input leaf. The leaf's originally
    /// established shape is preserved; the next forward pass propagates the
    /// new value.
    pub fn set_input_value(&mut self, i: usize, value: &Tensor<E>)
        requires
            old(self).wf(),
            i < old(self).node_count(),
            old(self).op_of(i as int) is Input,
            value.wf(),
            value.spec_rows() == old(self).rows_of(i as int),
            value.spec_cols() == old(self).cols_of(i as int),
        ensures
            final(self).wf(),
            final(self).node_count() == old(self).node_count(),
            final(self).same_params(old(self)),
            forall|j: int|
                0 <= j < old(self).node_count() && j != i ==> #[trigger] final(self).node_at(j)
                    == old(self).node_at(j),
            final(self).op_of(i as int) == old(self).op_of(i as int),
            final(self).rows_of(i as int) == old(self).rows_of(i as int),
            final(self).cols_of(i as int) == old(self).cols_of(i as int),
            final(self).val(i as int) == value@,
    {
        let ghost pre = *self;
        proof {
            assert(pre.node_wf(i as int));
        }
        self.nodes[i].value = value.duplicate();
        proof {
            assert(self.node_wf(i as int));
            lemma_wf_update(&pre, self, i as int);
        }
    }

    /// Assign a new value to a parameter's store, in place, preserving its
    /// shape. This is the optimizer's write path.
    pub fn set_param_value(&mut self, i: usize, value: &Tensor<E>)
        requires
            old(self).wf(),
            i < old(self).node_count(),
            old(self).op_of(i as int) is Parameter,
            value.wf(),
            value.spec_rows() == old(self).rows_of(i as int),
            value.spec_cols() == old(self).cols_of(i as int),
        ensures
            final(self).wf(),
            final(self).node_count() == old(self).node_count(),
            final(self).param_count() == old(self).param_count(),
            final(self).same_nodes_upto(old(self), old(self).node_count() as int),
            forall|q: int|
                0 <= q < old(self).param_count() && q != old(self).pid_of(i as int)
                    ==> #[trigger] final(self).param_at(q) == old(self).param_at(q),
            final(self).param_value(old(self).pid_of(i as int)) == value@,
            final(self).param_grad(old(self).pid_of(i as int)) == old(self).param_grad(
                old(self).pid_of(i as int),
            ),
            final(self).val(i as int) == value@,
            forall|j: int|
                0 <= j < old(self).node_count() ==> #[trigger] final(self).rows_of(j) == old(
                    self,
                ).rows_of(j) && final(self).cols_of(j) == old(self).cols_of(j),
    {
        let ghost pre = *self;
        proof {
            assert(self.node_wf(i as int));
        }
        let p = match self.nodes[i].op {
            Op::Parameter(p) => p,
            _ => 0,
        };
        self.params[p].value = value.duplicate();
        proof {
            lemma_wf_param_update(&pre, self, p as int);
            assert forall|j: int|
                0 <= j < pre.node_count() implies #[trigger] self.rows_of(j) == pre.rows_of(j)
                && self.cols_of(j) == pre.cols_of(j) by {
                assert(self.op_of(j) == pre.op_of(j));
            }
        }
    }

    /// Replace the whole list of an integer index-input leaf. Every
    /// row-gather node driven by it must keep its shape and stay in range,
    /// which [`Graph::index_update_ok`] captures.
    pub fn set_index_value(&mut self, i: usize, values: &Vec<usize>)
        requires
            old(self).wf(),
            i < old(self).node_count(),
            old(self).op_of(i as int) is IndexInput,
            old(self).index_update_ok(i as int, values@),
        ensures
            final(self).wf(),
            final(self).node_count() == old(self).node_count(),
            final(self).same_params(old(self)),
            forall|j: int|
                0 <= j < old(self).node_count() && j != i ==> #[trigger] final(self).node_at(j)
                    == old(self).node_at(j),
            final(self).op_of(i as int) == old(self).op_of(i as int),
            final(self).idx_of(i as int) == values@,
    {
        let ghost pre = *self;
        self.nodes[i].indices = clone_index_list(values);
        proof {
            assert forall|k: int|
                0 <= k < pre.node_count() implies #[trigger] self.op_of(k) == pre.op_of(k)
                && self.rows_of(k) == pre.rows_of(k) && self.cols_of(k) == pre.cols_of(k)
                && self.ng(k) == pre.ng(k) && (k != i ==> self.idx_of(k) == pre.idx_of(k)) by {
                if k != i {
                    assert(self.nodes@[k] == pre.nodes@[k]);
                }
                assert(pre.node_wf(k));
                match pre.nodes@[k].op {
                    Op::Parameter(p) => {
                        assert(self.params@[p as int] == pre.params@[p as int]);
                    },
                    _ => {},
                }
            }
            assert forall|j: int| 0 <= j < self.node_count() implies #[trigger] self.node_wf(
                j,
            ) by {
                assert(pre.node_wf(j));
                assert(self.op_of(j) == pre.op_of(j));
                if j != i {
                    assert(self.nodes@[j] == pre.nodes@[j]);
                }
                match pre.nodes@[j].op {
                    Op::Input => {},
                    Op::IndexInput => {},
                    Op::Parameter(_q) => {},
                    Op::Binary(_f, l, r) => {
                        assert(self.op_of(l as int) == pre.op_of(l as int));
                        assert(self.op_of(r as int) == pre.op_of(r as int));
                    },
                    Op::Unary(_f, x) => {
                        assert(self.op_of(x as int) == pre.op_of(x as int));
                    },
                    Op::Softmax(x) => {
                        assert(self.op_of(x as int) == pre.op_of(x as int));
                    },
                    Op::LogSoftmax(x) => {
                        assert(self.op_of(x as int) == pre.op_of(x as int));
                    },
                    Op::Transpose(x) => {
                        assert(self.op_of(x as int) == pre.op_of(x as int));
                    },
                    Op::Concat(_axis, l, r) => {
                        assert(self.op_of(l as int) == pre.op_of(l as int));
                        assert(self.op_of(r as int) == pre.op_of(r as int));
                    },
                    Op::Slice(x, _r0, _c0, _h, _w) => {
                        assert(self.op_of(x as int) == pre.op_of(x as int));
                    },
                    Op::Dot(l, r) => {
                        assert(self.op_of(l as int) == pre.op_of(l as int));
                        assert(self.op_of(r as int) == pre.op_of(r as int));
                    },
                    Op::VectorDot(l, r) => {
                        assert(self.op_of(l as int) == pre.op_of(l as int));
                        assert(self.op_of(r as int) == pre.op_of(r as int));
                    },
                    Op::Index(pn, ix) => {
                        assert(self.op_of(pn as int) == pre.op_of(pn as int));
                        assert(self.op_of(ix as int) == pre.op_of(ix as int));
                        assert(pre.op_of(j) is Index);
                        if ix == i {
                            assert(values@.len() == pre.idx_of(j).len());
                        }
                    },
                    Op::Sum(x) => {
                        assert(self.op_of(x as int) == pre.op_of(x as int));
                    },
                }
            }
            assert forall|q: int|
                0 <= q < self.param_count() implies {
                    &&& (#[trigger] self.params@[q]).value.wf()
                    &&& self.params@[q].grad.wf()
                    &&& self.params@[q].grad.spec_rows() == self.params@[q].value.spec_rows()
                    &&& self.params@[q].grad.spec_cols() == self.params@[q].value.spec_cols()
                } by {
                assert(self.params@[q] == pre.params@[q]);
                assert(pre.params@[q].value.wf());
            }
        }
    }

    /// Reset the gradient accumulator of a parameter node: afterwards its
    /// materialized gradient is exactly the zero array of the parameter's
    /// shape, whatever was accumulated before.
    pub fn zero_gradient_at(&mut self, i: usize)
        requires
            old(self).wf(),
            i < old(self).node_count(),
            old(self).op_of(i as int) is Parameter,
        ensures
            final(self).wf(),
            final(self).node_count() == old(self).node_count(),
            final(self).param_count() == old(self).param_count(),
            final(self).same_nodes_upto(old(self), old(self).node_count() as int),
            forall|q: int|
                0 <= q < old(self).param_count() && q != old(self).pid_of(i as int)
                    ==> #[trigger] final(self).param_at(q) == old(self).param_at(q),
            forall|q: int|
                0 <= q < old(self).param_count() ==> #[trigger] final(self).param_store(q) == old(
                    self,
                ).param_store(q),
            final(self).param_grad(old(self).pid_of(i as int)).grad_model() == seq_const(
                old(self).rows_of(i as int) * old(self).cols_of(i as int),
                E::spec_zero(),
            ),
            final(self).param_grad(old(self).pid_of(i as int)).sparse_model() == Seq::<
                (Seq<usize>, Seq<E>),
            >::empty(),
            final(self).param_grad(old(self).pid_of(i as int)).dense_model() == seq_const(
                old(self).rows_of(i as int) * old(self).cols_of(i as int),
                E::spec_zero(),
            ),
            !final(self).param_grad(old(self).pid_of(i as int)).spec_has_dense(),
            !final(self).param_grad(old(self).pid_of(i as int)).spec_has_sparse(),
            final(self).param_grad(old(self).pid_of(i as int)).is_reset(
                old(self).rows_of(i as int),
                old(self).cols_of(i as int),
            ),
            forall|q: int|
                0 <= q < old(self).param_count() && q != old(self).pid_of(i as int)
                    ==> #[trigger] final(self).param_grad(q) == old(self).param_grad(q),
            old(self).same_skeleton_upto(final(self), old(self).node_count() as int),
    {
        let ghost pre = *self;
        proof {
            assert(self.node_wf(i as int));
        }
        let p = match self.nodes[i].op {
            Op::Parameter(p) => p,
            _ => 0,
        };
        proof {
            assert(self.params@[p as int].value.wf());
        }
        self.params[p].grad.zero_gradient();
        proof {
            lemma_wf_grad_update(&pre, self, p as int);
            assert forall|j: int|
                0 <= j < pre.node_count() implies pre.nodes@[j] == self.nodes@[j] by {}
            assert forall|q: int|
                0 <= q < pre.param_count() implies self.params@[q].value == pre.params@[q].value
                by {
                if q != p as int {
                    assert(self.params@[q] == pre.params@[q]);
                }
            }
            lemma_skeleton_refl_like(&pre, self, pre.node_count() as int);
        }
    }

    /// Materialize the dense gradient of a parameter node: its dense part
    /// with every active sparse contribution scattered on, in arrival
    /// order.
    pub fn gradient_at(&self, i: usize) -> (r: Tensor<E>)
        requires
            self.wf(),
            i < self.node_count(),
            self.op_of(i as int) is Parameter,
        ensures
            r.wf(),
            r.spec_rows() == self.rows_of(i as int),
            r.spec_cols() == self.cols_of(i as int),
            r@ == self.param_grad(self.pid_of(i as int)).grad_model(),
    {
        proof {
            assert(self.node_wf(i as int));
        }
        let p = match self.nodes[i].op {
            Op::Parameter(p) => p,
            _ => 0,
        };
        proof {
            assert(self.params@[p as int].value.wf());
        }
        self.params[p].grad.materialized_gradient()
    }
}



/// The set of parameter nodes reachable from node `i` through operand
/// edges.
pub open spec fn param_nodes<E: Scalar>(g: &Graph<E>, i: int) -> Set<int>
    decreases i,
{
    if 0 <= i < g.node_count() {
        match g.op_of(i) {
            Op::Input => Set::empty(),
            Op::IndexInput => Set::empty(),
            Op::Parameter(_p) => Set::empty().insert(i),
            Op::Binary(_f, l, r) => if l < i && r < i {
                param_nodes(g, l as int).union(param_nodes(g, r as int))
            } else {
                Set::empty()
            },
            Op::Unary(_f, x) => if x < i {
                param_nodes(g, x as int)
            } else {
                Set::empty()
            },
            Op::Softmax(x) => if x < i {
                param_nodes(g, x as int)
            } else {
                Set::empty()
            },
            Op::LogSoftmax(x) => if x < i {
                param_nodes(g, x as int)
            } else {
                Set::empty()
            },
            Op::Transpose(x) => if x < i {
                param_nodes(g, x as int)
            } else {
                Set::empty()
            },
            Op::Concat(_axis, l, r) => if l < i && r < i {
                param_nodes(g, l as int).union(param_nodes(g, r as int))
            } else {
                Set::empty()
            },
            Op::Slice(x, _r0, _c0, _h, _w) => if x < i {
                param_nodes(g, x as int)
            } else {
                Set::empty()
            },
            Op::Dot(l, r) => if l < i && r < i {
                param_nodes(g, l as int).union(param_nodes(g, r as int))
            } else {
                Set::empty()
            },
            Op::VectorDot(l, r) => if l < i && r < i {
                param_nodes(g, l as int).union(param_nodes(g, r as int))
            } else {
                Set::empty()
            },
            Op::Index(pn, ix) => if pn < i && ix < i {
                param_nodes(g, pn as int).union(param_nodes(g, ix as int))
            } else {
                Set::empty()
            },
            Op::Sum(x) => if x < i {
                param_nodes(g, x as int)
            } else {
                Set::empty()
            },
        }
    } else {
        Set::empty()
    }
}

/// Reachable parameter sets only read operator tags, so they survive
/// appends and cache updates.
pub proof fn lemma_param_nodes_stable<E: Scalar>(g1: &Graph<E>, g2: &Graph<E>, i: int)
    requires
        i < g1.node_count(),
        i < g2.node_count(),
        forall|j: int| 0 <= j <= i ==> #[trigger] g1.op_of(j) == g2.op_of(j),
    ensures
        param_nodes(g1, i) == param_nodes(g2, i),
    decreases i,
{
    if 0 <= i {
        assert(g1.op_of(i) == g2.op_of(i));
        match g1.op_of(i) {
            Op::Input => {},
            Op::IndexInput => {},
            Op::Parameter(_p) => {},
            Op::Binary(_f, l, r) => {
                if l < i && r < i {
                    lemma_param_nodes_stable(g1, g2, l as int);
                    lemma_param_nodes_stable(g1, g2, r as int);
                }
            },
            Op::Unary(_f, x) => {
                if x < i {
                    lemma_param_nodes_stable(g1, g2, x as int);
                }
            },
            Op::Softmax(x) => {
                if x < i {
                    lemma_param_nodes_stable(g1, g2, x as int);
                }
            },
            Op::LogSoftmax(x) => {
                if x < i {
                    lemma_param_nodes_stable(g1, g2, x as int);
                }
            },
            Op::Transpose(x) => {
                if x < i {
                    lemma_param_nodes_stable(g1, g2, x as int);
                }
            },
            Op::Concat(_axis, l, r) => {
                if l < i && r < i {
                    lemma_param_nodes_stable(g1, g2, l as int);
                    lemma_param_nodes_stable(g1, g2, r as int);
                }
            },
            Op::Slice(x, _r0, _c0, _h, _w) => {
                if x < i {
                    lemma_param_nodes_stable(g1, g2, x as int);
                }
            },
            Op::Dot(l, r) => {
                if l < i && r < i {
                    lemma_param_nodes_stable(g1, g2, l as int);
                    lemma_param_nodes_stable(g1, g2, r as int);
                }
            },
            Op::VectorDot(l, r) => {
                if l < i && r < i {
                    lemma_param_nodes_stable(g1, g2, l as int);
                    lemma_param_nodes_stable(g1, g2, r as int);
                }
            },
            Op::Index(pn, ix) => {
                if pn < i && ix < i {
                    lemma_param_nodes_stable(g1, g2, pn as int);
                    lemma_param_nodes_stable(g1, g2, ix as int);
                }
            },
            Op::Sum(x) => {
                if x < i {
                    lemma_param_nodes_stable(g1, g2, x as int);
                }
            },
        }
    }
}

/// Strictly ascending order: no duplicates, identity-sorted.
pub open spec fn sorted_strict(s: Seq<usize>) -> bool {
    forall|p: int, q: int| 0 <= p < q < s.len() ==> s[p] < s[q]
}

/// The node identities a list holds, as a set.
pub open spec fn ids_of(s: Seq<usize>) -> Set<int> {
    Set::new(|x: int| exists|q: int| 0 <= q < s.len() && (#[trigger] s[q]) as int == x)
}

/// Merge two identity-sorted parameter lists into their deduplicated,
/// identity-sorted union — a sorted merge-join, not a quadratic scan.
pub fn merge_parameters(xs: &Vec<usize>, ys: &Vec<usize>) -> (r: Vec<usize>)
    requires
        sorted_strict(xs@),
        sorted_strict(ys@),
    ensures
        sorted_strict(r@),
        ids_of(r@) == ids_of(xs@).union(ids_of(ys@)),
{
    let nx = xs.len();
    let ny = ys.len();
    let mut r: Vec<usize> = Vec::new();
    let mut a: usize = 0;
    let mut b: usize = 0;
    while a < nx || b < ny
        invariant
            a <= nx,
            b <= ny,
            nx == xs@.len(),
            ny == ys@.len(),
            sorted_strict(xs@),
            sorted_strict(ys@),
            sorted_strict(r@),
            ids_of(r@) == ids_of(xs@.take(a as int)).union(ids_of(ys@.take(b as int))),
            r@.len() > 0 && a < nx ==> r@[r@.len() - 1] < xs@[a as int],
            r@.len() > 0 && b < ny ==> r@[r@.len() - 1] < ys@[b as int],
        decreases nx - a + ny - b,
    {
        let ghost rold = r@;
        let ghost aold = a as int;
        let ghost bold = b as int;
        let take_x = if a < nx && b < ny {
            xs[a] <= ys[b]
        } else {
            a < nx
        };
        if take_x {
            let x = xs[a];
            r.push(x);
            a = a + 1;
            if b < ny && ys[b] == x {
                b = b + 1;
            }
        } else {
            let y = ys[b];
            r.push(y);
            b = b + 1;
        }
        proof {
            assert(xs@.take(a as int) =~= if a as int == aold {
                xs@.take(aold)
            } else {
                xs@.take(aold).push(xs@[aold])
            });
            assert(ys@.take(b as int) =~= if b as int == bold {
                ys@.take(bold)
            } else {
                ys@.take(bold).push(ys@[bold])
            });
            assert(ids_of(r@) =~= ids_of(xs@.take(a as int)).union(ids_of(ys@.take(b as int))))
                by {
                assert forall|x: int| ids_of(r@).contains(x) implies ids_of(
                    xs@.take(a as int),
                ).union(ids_of(ys@.take(b as int))).contains(x) by {
                    let q = choose|q: int| 0 <= q < r@.len() && (#[trigger] r@[q]) as int == x;
                    if q < rold.len() {
                        assert(ids_of(rold).contains(x));
                    } else {
                        if a as int != aold && r@[q] == xs@[aold] {
                            assert(xs@.take(a as int)[aold] == xs@[aold]);
                            assert(ids_of(xs@.take(a as int)).contains(x));
                        } else {
                            assert(ys@.take(b as int)[bold] == ys@[bold]);
                            assert(ids_of(ys@.take(b as int)).contains(x));
                        }
                    }
                }
                assert forall|x: int|
                    ids_of(xs@.take(a as int)).union(ids_of(ys@.take(b as int))).contains(
                        x,
                    ) implies ids_of(r@).contains(x) by {
                    if ids_of(xs@.take(a as int)).contains(x) {
                        let q = choose|q: int|
                            0 <= q < xs@.take(a as int).len() && (#[trigger] xs@.take(
                                a as int,
                            )[q]) as int == x;
                        if q < aold {
                            assert(xs@.take(aold)[q] == xs@[q]);
                            assert(xs@.take(a as int)[q] == xs@[q]);
                            assert(ids_of(xs@.take(aold)).contains(x));
                            assert(ids_of(rold).contains(x));
                            let t = choose|t: int|
                                0 <= t < rold.len() && (#[trigger] rold[t]) as int == x;
                            assert(rold[t] as int == x);
                            assert(r@[t] == rold[t]);
                            assert(r@[t] as int == x);
                        } else {
                            assert(r@[r@.len() - 1] as int == x);
                        }
                    } else {
                        let q = choose|q: int|
                            0 <= q < ys@.take(b as int).len() && (#[trigger] ys@.take(
                                b as int,
                            )[q]) as int == x;
                        if q < bold {
                            assert(ys@.take(bold)[q] == ys@[q]);
                            assert(ys@.take(b as int)[q] == ys@[q]);
                            assert(ids_of(ys@.take(bold)).contains(x));
                            assert(ids_of(rold).contains(x));
                            let t = choose|t: int|
                                0 <= t < rold.len() && (#[trigger] rold[t]) as int == x;
                            assert(rold[t] as int == x);
                            assert(r@[t] == rold[t]);
                            assert(r@[t] as int == x);
                        } else {
                            assert(ys@[bold] as int == x);
                            assert(r@[r@.len() - 1] as int == x);
                        }
                    }
                }
            }
        }
    }
    proof {
        assert(xs@.take(nx as int) =~= xs@);
        assert(ys@.take(ny as int) =~= ys@);
    }
    r
}

/// A user-facing handle: one node plus the identity-sorted, deduplicated
/// list of every parameter node reachable from it.
#[derive(Clone)]
pub struct Variable {
    node: usize,
    parameters: Vec<usize>,
}

/// Appending nodes changes no existing operator tag.
pub proof fn lemma_ops_preserved_after_extend<E: Scalar>(g1: &Graph<E>, g2: &Graph<E>)
    requires
        g1.node_count() <= g2.node_count(),
        g2.same_nodes_upto(g1, g1.node_count() as int),
    ensures
        forall|j: int| 0 <= j < g1.node_count() ==> #[trigger] g2.op_of(j) == g1.op_of(j),
{
    assert forall|j: int|
        0 <= j < g1.node_count() implies #[trigger] g2.op_of(j) == g1.op_of(j) by {
        assert(g2.node_at(j) == g1.node_at(j));
    }
}

/// Every entry of a merged parameter list inherits the entries' common
/// property: it names a parameter node of the graph.
proof fn lemma_union_entries<E: Scalar>(g: &Graph<E>, xs: Seq<usize>, ys: Seq<usize>, r: Seq<usize>)
    requires
        ids_of(r) == ids_of(xs).union(ids_of(ys)),
        forall|k: int|
            0 <= k < xs.len() ==> (#[trigger] xs[k] as int) < g.node_count() && g.op_of(
                xs[k] as int,
            ) is Parameter,
        forall|k: int|
            0 <= k < ys.len() ==> (#[trigger] ys[k] as int) < g.node_count() && g.op_of(
                ys[k] as int,
            ) is Parameter,
    ensures
        forall|k: int|
            0 <= k < r.len() ==> (#[trigger] r[k] as int) < g.node_count() && g.op_of(
                r[k] as int,
            ) is Parameter,
{
    assert forall|k: int|
        0 <= k < r.len() implies (#[trigger] r[k] as int) < g.node_count() && g.op_of(
        r[k] as int,
    ) is Parameter by {
        assert(ids_of(r).contains(r[k] as int));
        if ids_of(xs).contains(r[k] as int) {
            let q = choose|q: int| 0 <= q < xs.len() && (#[trigger] xs[q]) as int == r[k] as int;
            assert((xs[q] as int) < g.node_count());
        } else {
            let q = choose|q: int| 0 <= q < ys.len() && (#[trigger] ys[q]) as int == r[k] as int;
            assert((ys[q] as int) < g.node_count());
        }
    }
}

impl Variable {
    /// The arena index of the node this handle names.
    pub closed spec fn spec_node(&self) -> int {
        self.node as int
    }

    /// The parameter list, as specifications see it.
    pub closed spec fn spec_params(&self) -> Seq<usize> {
        self.parameters@
    }

    /// Handle consistency against a graph: the node exists, and the list is
    /// the identity-sorted, duplicate-free enumeration of exactly the
    /// parameter nodes reachable from it.
    pub open spec fn wf<E: Scalar>(&self, g: &Graph<E>) -> bool {
        &&& 0 <= self.spec_node() < g.node_count()
        &&& sorted_strict(self.spec_params())
        &&& ids_of(self.spec_params()) == param_nodes(g, self.spec_node())
        &&& forall|k: int|
            0 <= k < self.spec_params().len() ==> (#[trigger] self.spec_params()[k] as int)
                < g.node_count() && g.op_of(self.spec_params()[k] as int) is Parameter
    }

    /// The node index, for callers that talk to the graph directly.
    pub fn node(&self) -> (r: usize)
        ensures
            r == self.spec_node(),
    {
        self.node
    }

    /// The deduplicated parameter-node list of this handle's subgraph.
    pub fn parameters(&self) -> (r: &Vec<usize>)
        ensures
            r@ == self.spec_params(),
    {
        &self.parameters
    }
}

/// The common proof that a freshly built operator handle is well formed:
/// the node was appended, its reachable parameters are the union of the
/// operands', and the merged list enumerates that union.
proof fn lemma_two_operand_handle<E: Scalar>(
    pre: &Graph<E>,
    post: &Graph<E>,
    l: &Variable,
    r: &Variable,
    id: int,
    merged: Seq<usize>,
)
    requires
        l.wf(pre),
        r.wf(pre),
        post.node_count() == pre.node_count() + 1,
        id == pre.node_count(),
        post.same_nodes_upto(pre, pre.node_count() as int),
        sorted_strict(merged),
        ids_of(merged) == ids_of(l.spec_params()).union(ids_of(r.spec_params())),
        param_nodes(post, id) == param_nodes(post, l.spec_node()).union(
            param_nodes(post, r.spec_node()),
        ),
    ensures
        sorted_strict(merged),
        ids_of(merged) == param_nodes(post, id),
        forall|k: int|
            0 <= k < merged.len() ==> (#[trigger] merged[k] as int) < post.node_count()
                && post.op_of(merged[k] as int) is Parameter,
{
    lemma_ops_preserved_after_extend(pre, post);
    lemma_param_nodes_stable(pre, post, l.spec_node());
    lemma_param_nodes_stable(pre, post, r.spec_node());
    assert forall|k: int|
        0 <= k < l.spec_params().len() implies (#[trigger] l.spec_params()[k] as int)
        < post.node_count() && post.op_of(l.spec_params()[k] as int) is Parameter by {
        assert(post.op_of(l.spec_params()[k] as int) == pre.op_of(l.spec_params()[k] as int));
    }
    assert forall|k: int|
        0 <= k < r.spec_params().len() implies (#[trigger] r.spec_params()[k] as int)
        < post.node_count() && post.op_of(r.spec_params()[k] as int) is Parameter by {
        assert(post.op_of(r.spec_params()[k] as int) == pre.op_of(r.spec_params()[k] as int));
    }
    lemma_union_entries(post, l.spec_params(), r.spec_params(), merged);
}

/// The one-operand form of [`lemma_two_operand_handle`].
proof fn lemma_one_operand_handle<E: Scalar>(
    pre: &Graph<E>,
    post: &Graph<E>,
    x: &Variable,
    id: int,
    merged: Seq<usize>,
)
    requires
        x.wf(pre),
        post.node_count() == pre.node_count() + 1,
        id == pre.node_count(),
        post.same_nodes_upto(pre, pre.node_count() as int),
        sorted_strict(merged),
        ids_of(merged) == ids_of(x.spec_params()),
        param_nodes(post, id) == param_nodes(post, x.spec_node()),
    ensures
        ids_of(merged) == param_nodes(post, id),
        forall|k: int|
            0 <= k < merged.len() ==> (#[trigger] merged[k] as int) < post.node_count()
                && post.op_of(merged[k] as int) is Parameter,
{
    lemma_ops_preserved_after_extend(pre, post);
    lemma_param_nodes_stable(pre, post, x.spec_node());
    assert(ids_of(x.spec_params()).union(ids_of(x.spec_params())) =~= ids_of(x.spec_params()));
    lemma_union_entries(pre, x.spec_params(), x.spec_params(), merged);
    assert forall|k: int|
        0 <= k < merged.len() implies (#[trigger] merged[k] as int) < post.node_count()
        && post.op_of(merged[k] as int) is Parameter by {
        assert((merged[k] as int) < pre.node_count());
        assert(post.op_of(merged[k] as int) == pre.op_of(merged[k] as int));
    }
}

/// Builder of externally fed dense leaves.
pub struct InputNode {}

/// Builder of trainable parameter leaves.
pub struct ParameterNode {}

/// Builder of externally fed integer index-list leaves.
pub struct IndexInputNode {}

impl InputNode {
    /// Create an input leaf holding `value`; its shape is fixed for the
    /// life of the graph.
    pub fn new<E: Scalar>(g: &mut Graph<E>, value: Tensor<E>) -> (v: Variable)
        requires
            old(g).wf(),
            value.wf(),
        ensures
            final(g).wf(),
            v.wf(final(g)),
            v.spec_node() == old(g).node_count(),
            final(g).node_count() == old(g).node_count() + 1,
            final(g).same_params(old(g)),
            final(g).same_nodes_upto(old(g), old(g).node_count() as int),
            final(g).op_of(v.spec_node()) == Op::Input,
            !final(g).ng(v.spec_node()),
            final(g).val(v.spec_node()) == value@,
            final(g).rows_of(v.spec_node()) == value.spec_rows(),
            final(g).cols_of(v.spec_node()) == value.spec_cols(),
            v.spec_params().len() == 0,
    {
        let id = g.input(value);
        proof {
            assert(ids_of(Seq::<usize>::empty()) =~= param_nodes(g, id as int));
        }
        Variable { node: id, parameters: Vec::new() }
    }
}

impl ParameterNode {
    /// Create a trainable parameter leaf holding `value`, with an empty
    /// gradient accumulator. The handle's parameter list is the leaf
    /// itself.
    pub fn new<E: Scalar>(g: &mut Graph<E>, value: Tensor<E>) -> (v: Variable)
        requires
            old(g).wf(),
            value.wf(),
        ensures
            final(g).wf(),
            v.wf(final(g)),
            v.spec_node() == old(g).node_count(),
            final(g).node_count() == old(g).node_count() + 1,
            final(g).param_count() == old(g).param_count() + 1,
            final(g).same_params_upto(old(g), old(g).param_count() as int),
            final(g).same_nodes_upto(old(g), old(g).node_count() as int),
            final(g).op_of(v.spec_node()) == Op::Parameter(old(g).param_count() as usize),
            final(g).val(v.spec_node()) == value@,
            final(g).rows_of(v.spec_node()) == value.spec_rows(),
            final(g).cols_of(v.spec_node()) == value.spec_cols(),
            v.spec_params() == seq![old(g).node_count() as usize],
            final(g).param_grad(final(g).pid_of(v.spec_node())).sparse_model() == Seq::<
                (Seq<usize>, Seq<E>),
            >::empty(),
            !final(g).param_grad(final(g).pid_of(v.spec_node())).spec_has_dense(),
            !final(g).param_grad(final(g).pid_of(v.spec_node())).spec_has_sparse(),
            final(g).param_grad(final(g).pid_of(v.spec_node())).is_reset(
                value.spec_rows(),
                value.spec_cols(),
            ),
    {
        let id = g.parameter(value);
        let mut ps: Vec<usize> = Vec::new();
        ps.push(id);
        proof {
            assert(ids_of(ps@) =~= param_nodes(g, id as int)) by {
                assert forall|x: int| ids_of(ps@).contains(x) implies param_nodes(
                    g,
                    id as int,
                ).contains(x) by {
                    let q = choose|q: int| 0 <= q < ps@.len() && (#[trigger] ps@[q]) as int == x;
                }
                assert forall|x: int| param_nodes(g, id as int).contains(x) implies ids_of(
                    ps@,
                ).contains(x) by {
                    assert(ps@[0] as int == id as int);
                }
            }
        }
        Variable { node: id, parameters: ps }
    }
}

impl IndexInputNode {
    /// Create an integer index-list leaf.
    pub fn new<E: Scalar>(g: &mut Graph<E>, indices: &Vec<usize>) -> (v: Variable)
        requires
            old(g).wf(),
        ensures
            final(g).wf(),
            v.wf(final(g)),
            v.spec_node() == old(g).node_count(),
            final(g).node_count() == old(g).node_count() + 1,
            final(g).same_params(old(g)),
            final(g).same_nodes_upto(old(g), old(g).node_count() as int),
            final(g).op_of(v.spec_node()) == Op::IndexInput,
            final(g).idx_of(v.spec_node()) == indices@,
            v.spec_params().len() == 0,
    {
        let id = g.index_input(indices);
        proof {
            assert(ids_of(Seq::<usize>::empty()) =~= param_nodes(g, id as int));
        }
        Variable { node: id, parameters: Vec::new() }
    }
}

impl Variable {
    /// A borrow of this handle's current cached value.
    pub fn value<'a, E: Scalar>(&self, g: &'a Graph<E>) -> (r: &'a Tensor<E>)
        requires
            g.wf(),
            self.wf(g),
            g.tensor_node(self.spec_node()),
        ensures
            r@ == g.val(self.spec_node()),
            r.wf(),
            r.spec_rows() == g.rows_of(self.spec_node()),
            r.spec_cols() == g.cols_of(self.spec_node()),
    {
        g.value_ref(self.node)
    }

    /// Run the forward pass through the subgraph terminating at this node,
    /// recursing through the ancestor nodes; afterwards the cached value is
    /// the node's denotation.
    pub fn forward<E: Scalar>(&self, g: &mut Graph<E>)
        requires
            old(g).wf(),
            self.wf(old(g)),
        ensures
            final(g).wf(),
            self.wf(final(g)),
            final(g).node_count() == old(g).node_count(),
            old(g).same_skeleton_upto(final(g), old(g).node_count() as int),
            old(g).same_params(final(g)),
            old(g).tensor_node(self.spec_node()) ==> final(g).val(self.spec_node()) == eval(
                final(g),
                self.spec_node(),
            ),
            forall|j: int|
                0 <= j < old(g).node_count() ==> #[trigger] eval(final(g), j) == eval(old(g), j),
            forall|j: int|
                0 <= j < old(g).node_count() ==> #[trigger] final(g).val(j) == old(g).val(j)
                    || final(g).val(j) == eval(final(g), j),
            forall|j: int|
                0 <= j < old(g).node_count() ==> #[trigger] final(g).idx_of(j) == old(g).idx_of(j)
                    || final(g).gather_fresh(j),
            final(g).subgraph_fresh(self.spec_node()),
    {
        let ghost pre = *g;
        g.forward(self.node);
        proof {
            assert forall|j: int|
                0 <= j <= self.spec_node() implies #[trigger] g.op_of(j) == pre.op_of(j) by {}
            lemma_param_nodes_stable(&pre, g, self.spec_node());
        }
    }

    /// Signal that cached values are stale. Every forward pass of this
    /// engine recomputes unconditionally, so recomputation before the next
    /// read is guaranteed with nothing to record here.
    pub fn clear(&self) {
    }

    /// Seed the reverse pass at this node with a constant gradient `weight`
    /// broadcast to the node's current shape, and push it through the
    /// subgraph: every reachable parameter accumulates its chain-rule
    /// contribution.
    pub fn backward<E: Scalar>(&self, g: &mut Graph<E>, weight: E)
        requires
            old(g).wf(),
            self.wf(old(g)),
            old(g).tensor_node(self.spec_node()),
        ensures
            final(g).wf(),
            self.wf(final(g)),
            final(g).node_count() == old(g).node_count(),
            final(g).param_count() == old(g).param_count(),
            final(g).same_nodes_upto(old(g), old(g).node_count() as int),
            forall|q: int|
                0 <= q < old(g).param_count() ==> #[trigger] final(g).param_store(q) == old(
                    g,
                ).param_store(q),
            old(g).same_skeleton_upto(final(g), old(g).node_count() as int),
            final(g).acc_states() == backward_model(
                old(g),
                self.spec_node(),
                seq_const(
                    old(g).rows_of(self.spec_node()) * old(g).cols_of(self.spec_node()),
                    weight,
                ),
                old(g).acc_states(),
            ),
    {
        let ghost pre = *g;
        let n = g.value_ref(self.node).count();
        let rows = g.value_ref(self.node).rows();
        let cols = g.value_ref(self.node).cols();
        let seed = Tensor::filled(rows, cols, weight);
        g.backward(self.node, &seed);
        proof {
            lemma_backward_frame(&pre, g);
            assert forall|j: int|
                0 <= j <= self.spec_node() implies #[trigger] g.op_of(j) == pre.op_of(j) by {}
            lemma_param_nodes_stable(&pre, g, self.spec_node());
        }
    }

    /// Reset the gradient accumulator of every parameter reachable from
    /// this node: each one's materialized gradient becomes exactly the zero
    /// array of its shape, whatever was accumulated before.
    pub fn zero_gradient<E: Scalar>(&self, g: &mut Graph<E>)
        requires
            old(g).wf(),
            self.wf(old(g)),
        ensures
            final(g).wf(),
            self.wf(final(g)),
            final(g).node_count() == old(g).node_count(),
            final(g).param_count() == old(g).param_count(),
            final(g).same_nodes_upto(old(g), old(g).node_count() as int),
            forall|q: int|
                0 <= q < old(g).param_count() ==> #[trigger] final(g).param_store(q) == old(
                    g,
                ).param_store(q),
            forall|k: int|
                0 <= k < self.spec_params().len() ==> #[trigger] final(g).param_grad(
                    final(g).pid_of(self.spec_params()[k] as int),
                ).is_reset(
                    old(g).rows_of(self.spec_params()[k] as int),
                    old(g).cols_of(self.spec_params()[k] as int),
                ),
            forall|pr: int|
                0 <= pr < old(g).param_count() && (forall|t: int|
                    0 <= t < self.spec_params().len() ==> old(g).pid_of(
                        #[trigger] self.spec_params()[t] as int,
                    ) != pr) ==> #[trigger] final(g).param_grad(pr) == old(g).param_grad(pr),
            old(g).same_skeleton_upto(final(g), old(g).node_count() as int),
    {
        let ghost pre = *g;
        let n = self.parameters.len();
        let mut k: usize = 0;
        while k < n
            invariant
                k <= n,
                n == self.spec_params().len(),
                g.wf(),
                self.wf(&pre),
                pre.wf(),
                g.node_count() == pre.node_count(),
                g.param_count() == pre.param_count(),
                g.same_nodes_upto(&pre, pre.node_count() as int),
                forall|q: int|
                    0 <= q < pre.param_count() ==> #[trigger] g.param_store(q) == pre.param_store(
                        q,
                    ),
                forall|t: int|
                    0 <= t < k ==> #[trigger] g.param_grad(
                        g.pid_of(self.spec_params()[t] as int),
                    ).is_reset(
                        pre.rows_of(self.spec_params()[t] as int),
                        pre.cols_of(self.spec_params()[t] as int),
                    ),
                forall|pr: int|
                    0 <= pr < pre.param_count() && (forall|t: int|
                        0 <= t < k ==> pre.pid_of(#[trigger] self.spec_params()[t] as int) != pr)
                        ==> #[trigger] g.param_grad(pr) == pre.param_grad(pr),
            decreases n - k,
        {
            let ghost gk = *g;
            let pid = self.parameters[k];
            proof {
                lemma_backward_frame(&pre, &gk);
                assert(gk.op_of(pid as int) == pre.op_of(pid as int));
            }
            g.zero_gradient_at(pid);
            proof {
                assert forall|j: int|
                    0 <= j < pre.node_count() implies #[trigger] g.node_at(j) == pre.node_at(
                    j,
                ) by {
                    assert(gk.node_at(j) == pre.node_at(j));
                }
                lemma_backward_frame(&pre, g);
                assert forall|pr: int|
                    0 <= pr < pre.param_count() && (forall|t: int|
                        0 <= t < k + 1 ==> pre.pid_of(#[trigger] self.spec_params()[t] as int)
                            != pr) implies #[trigger] g.param_grad(pr) == pre.param_grad(pr) by {
                    assert(gk.op_of(pid as int) == pre.op_of(pid as int));
                    assert(pre.pid_of(self.spec_params()[k as int] as int) != pr);
                    assert(g.param_grad(pr) == gk.param_grad(pr));
                    assert(gk.param_grad(pr) == pre.param_grad(pr));
                }
                assert forall|t: int|
                    0 <= t < k + 1 implies #[trigger] g.param_grad(
                    g.pid_of(self.spec_params()[t] as int),
                ).is_reset(
                    pre.rows_of(self.spec_params()[t] as int),
                    pre.cols_of(self.spec_params()[t] as int),
                ) by {
                    let nt = self.spec_params()[t] as int;
                    assert(g.op_of(nt) == pre.op_of(nt));
                    assert(gk.op_of(nt) == pre.op_of(nt));
                    assert(gk.op_of(pid as int) == pre.op_of(pid as int));
                    assert(pre.node_wf(nt));
                    assert(pre.node_wf(pid as int));
                    let tp = g.pid_of(nt);
                    let cur = gk.pid_of(pid as int);
                    assert(cur == pre.pid_of(pid as int));
                    assert(0 <= cur < pre.param_count());
                    assert(0 <= tp < pre.param_count());
                    assert(gk.param_store(tp) == pre.param_store(tp));
                    assert(gk.param_store(cur) == pre.param_store(cur));
                    if t < k {
                        assert(gk.pid_of(nt) == tp);
                        assert(gk.param_grad(gk.pid_of(nt)).is_reset(
                            pre.rows_of(nt),
                            pre.cols_of(nt),
                        ));
                        if tp != cur {
                            assert(g.param_at(tp) == gk.param_at(tp));
                            assert(g.param_grad(tp) == gk.param_grad(tp));
                        } else {
                            assert(gk.rows_of(pid as int) == pre.rows_of(nt));
                            assert(gk.cols_of(pid as int) == pre.cols_of(nt));
                            assert(g.param_grad(cur).is_reset(
                                gk.rows_of(pid as int),
                                gk.cols_of(pid as int),
                            ));
                        }
                        assert(g.param_grad(g.pid_of(nt)).is_reset(
                            pre.rows_of(nt),
                            pre.cols_of(nt),
                        ));
                    } else {
                        assert(nt == pid as int);
                        assert(gk.rows_of(pid as int) == pre.rows_of(nt));
                        assert(gk.cols_of(pid as int) == pre.cols_of(nt));
                        assert(g.param_grad(cur).is_reset(
                            gk.rows_of(pid as int),
                            gk.cols_of(pid as int),
                        ));
                        assert(g.pid_of(nt) == cur);
                        assert(g.param_grad(g.pid_of(nt)).is_reset(
                            pre.rows_of(nt),
                            pre.cols_of(nt),
                        ));
                    }
                }
            }
            k = k + 1;
        }
        proof {
            lemma_backward_frame(&pre, g);
            assert forall|j: int|
                0 <= j <= self.spec_node() implies #[trigger] g.op_of(j) == pre.op_of(j) by {}
            lemma_param_nodes_stable(&pre, g, self.spec_node());
            lemma_skeleton_refl_like(&pre, g, pre.node_count() as int);
        }
    }

    /// The materialized dense gradient of this parameter handle.
    pub fn gradient<E: Scalar>(&self, g: &Graph<E>) -> (r: Tensor<E>)
        requires
            g.wf(),
            self.wf(g),
            g.op_of(self.spec_node()) is Parameter,
        ensures
            r.wf(),
            r.spec_rows() == g.rows_of(self.spec_node()),
            r.spec_cols() == g.cols_of(self.spec_node()),
            r@ == g.param_grad(g.pid_of(self.spec_node())).grad_model(),
    {
        g.gradient_at(self.node)
    }
}

/// A handle stays well formed when the graph is only extended.
pub proof fn lemma_var_wf_extend<E: Scalar>(v: &Variable, g1: &Graph<E>, g2: &Graph<E>)
    requires
        g1.wf(),
        v.wf(g1),
        g1.node_count() <= g2.node_count(),
        g1.param_count() <= g2.param_count(),
        g2.same_nodes_upto(g1, g1.node_count() as int),
        g2.same_params_upto(g1, g1.param_count() as int),
    ensures
        v.wf(g2),
        g2.rows_of(v.spec_node()) == g1.rows_of(v.spec_node()),
        g2.cols_of(v.spec_node()) == g1.cols_of(v.spec_node()),
        g2.val(v.spec_node()) == g1.val(v.spec_node()),
        g2.op_of(v.spec_node()) == g1.op_of(v.spec_node()),
        g2.ng(v.spec_node()) == g1.ng(v.spec_node()),
{
    lemma_ops_preserved_after_extend(g1, g2);
    lemma_param_nodes_stable(g1, g2, v.spec_node());
    assert forall|k: int|
        0 <= k < v.spec_params().len() implies (#[trigger] v.spec_params()[k] as int)
        < g2.node_count() && g2.op_of(v.spec_params()[k] as int) is Parameter by {
        assert(g2.op_of(v.spec_params()[k] as int) == g1.op_of(v.spec_params()[k] as int));
    }
    assert(g2.node_at(v.spec_node()) == g1.node_at(v.spec_node()));
    match g1.nodes@[v.spec_node()].op {
        Op::Parameter(p) => {
            assert(g1.node_wf(v.spec_node()));
            assert(g2.param_at(p as int) == g1.param_at(p as int));
        },
        _ => {},
    }
}

/// The shape of a scalar promoted next to an operand: the operand's value
/// multiplied by zero, plus the scalar — so the constant is fixed to the
/// live operand's shape at the moment of the operation.
pub open spec fn promoted_const<E: Scalar>(x: Seq<E>, c: E) -> Seq<E> {
    seq_binary(
        BinFn::Add,
        seq_binary(BinFn::Mul, x, seq_const(x.len(), E::spec_zero())),
        seq_const(x.len(), c),
    )
}

impl Variable {
    /// Build an elementwise binary node over this handle and `other`.
    fn binary_var<E: Scalar>(&self, f: BinFn, other: &Variable, g: &mut Graph<E>) -> (r: Variable)
        requires
            old(g).wf(),
            self.wf(old(g)),
            other.wf(old(g)),
            old(g).tensor_node(self.spec_node()),
            old(g).tensor_node(other.spec_node()),
            old(g).rows_of(self.spec_node()) == old(g).rows_of(other.spec_node()),
            old(g).cols_of(self.spec_node()) == old(g).cols_of(other.spec_node()),
        ensures
            final(g).wf(),
            r.wf(final(g)),
            r.spec_node() == old(g).node_count(),
            final(g).node_count() == old(g).node_count() + 1,
            final(g).same_params(old(g)),
            final(g).same_nodes_upto(old(g), old(g).node_count() as int),
            final(g).tensor_node(r.spec_node()),
            final(g).val(r.spec_node()) == seq_binary(
                f,
                old(g).val(self.spec_node()),
                old(g).val(other.spec_node()),
            ),
            final(g).op_of(r.spec_node()) == Op::Binary(
                f,
                self.spec_node() as usize,
                other.spec_node() as usize,
            ),
            final(g).rows_of(r.spec_node()) == old(g).rows_of(self.spec_node()),
            final(g).cols_of(r.spec_node()) == old(g).cols_of(self.spec_node()),
            final(g).ng(r.spec_node()) == (old(g).ng(self.spec_node()) || old(g).ng(
                other.spec_node(),
            )),
            ids_of(r.spec_params()) == ids_of(self.spec_params()).union(ids_of(
                other.spec_params(),
            )),
    {
        let merged = merge_parameters(&self.parameters, &other.parameters);
        let ghost pre = *g;
        let id = g.binary(f, self.node, other.node);
        proof {
            assert(param_nodes(g, id as int) == param_nodes(g, self.spec_node()).union(
                param_nodes(g, other.spec_node()),
            ));
            lemma_two_operand_handle(&pre, g, self, other, id as int, merged@);
        }
        Variable { node: id, parameters: merged }
    }

    /// Elementwise sum of two same-shaped subgraphs.
    pub fn add<E: Scalar>(&self, other: &Variable, g: &mut Graph<E>) -> (r: Variable)
        requires
            old(g).wf(),
            self.wf(old(g)),
            other.wf(old(g)),
            old(g).tensor_node(self.spec_node()),
            old(g).tensor_node(other.spec_node()),
            old(g).rows_of(self.spec_node()) == old(g).rows_of(other.spec_node()),
            old(g).cols_of(self.spec_node()) == old(g).cols_of(other.spec_node()),
        ensures
            final(g).wf(),
            r.wf(final(g)),
            r.spec_node() == old(g).node_count(),
            final(g).node_count() == old(g).node_count() + 1,
            final(g).same_params(old(g)),
            final(g).same_nodes_upto(old(g), old(g).node_count() as int),
            final(g).tensor_node(r.spec_node()),
            final(g).val(r.spec_node()) == seq_binary(
                BinFn::Add,
                old(g).val(self.spec_node()),
                old(g).val(other.spec_node()),
            ),
            final(g).op_of(r.spec_node()) == Op::Binary(
                BinFn::Add,
                self.spec_node() as usize,
                other.spec_node() as usize,
            ),
            final(g).ng(r.spec_node()) == (old(g).ng(self.spec_node()) || old(g).ng(
                other.spec_node(),
            )),
            final(g).rows_of(r.spec_node()) == old(g).rows_of(self.spec_node()),
            final(g).cols_of(r.spec_node()) == old(g).cols_of(self.spec_node()),
            ids_of(r.spec_params()) == ids_of(self.spec_params()).union(ids_of(
                other.spec_params(),
            )),
    {
        self.binary_var(BinFn::Add, other, g)
    }

    /// Elementwise difference of two same-shaped subgraphs.
    pub fn sub<E: Scalar>(&self, other: &Variable, g: &mut Graph<E>) -> (r: Variable)
        requires
            old(g).wf(),
            self.wf(old(g)),
            other.wf(old(g)),
            old(g).tensor_node(self.spec_node()),
            old(g).tensor_node(other.spec_node()),
            old(g).rows_of(self.spec_node()) == old(g).rows_of(other.spec_node()),
            old(g).cols_of(self.spec_node()) == old(g).cols_of(other.spec_node()),
        ensures
            final(g).wf(),
            r.wf(final(g)),
            r.spec_node() == old(g).node_count(),
            final(g).node_count() == old(g).node_count() + 1,
            final(g).same_params(old(g)),
            final(g).same_nodes_upto(old(g), old(g).node_count() as int),
            final(g).tensor_node(r.spec_node()),
            final(g).val(r.spec_node()) == seq_binary(
                BinFn::Sub,
                old(g).val(self.spec_node()),
                old(g).val(other.spec_node()),
            ),
            final(g).op_of(r.spec_node()) == Op::Binary(
                BinFn::Sub,
                self.spec_node() as usize,
                other.spec_node() as usize,
            ),
            final(g).ng(r.spec_node()) == (old(g).ng(self.spec_node()) || old(g).ng(
                other.spec_node(),
            )),
            final(g).rows_of(r.spec_node()) == old(g).rows_of(self.spec_node()),
            final(g).cols_of(r.spec_node()) == old(g).cols_of(self.spec_node()),
            ids_of(r.spec_params()) == ids_of(self.spec_params()).union(ids_of(
                other.spec_params(),
            )),
    {
        self.binary_var(BinFn::Sub, other, g)
    }

    /// Elementwise product of two same-shaped subgraphs.
    pub fn mul<E: Scalar>(&self, other: &Variable, g: &mut Graph<E>) -> (r: Variable)
        requires
            old(g).wf(),
            self.wf(old(g)),
            other.wf(old(g)),
            old(g).tensor_node(self.spec_node()),
            old(g).tensor_node(other.spec_node()),
            old(g).rows_of(self.spec_node()) == old(g).rows_of(other.spec_node()),
            old(g).cols_of(self.spec_node()) == old(g).cols_of(other.spec_node()),
        ensures
            final(g).wf(),
            r.wf(final(g)),
            r.spec_node() == old(g).node_count(),
            final(g).node_count() == old(g).node_count() + 1,
            final(g).same_params(old(g)),
            final(g).same_nodes_upto(old(g), old(g).node_count() as int),
            final(g).tensor_node(r.spec_node()),
            final(g).val(r.spec_node()) == seq_binary(
                BinFn::Mul,
                old(g).val(self.spec_node()),
                old(g).val(other.spec_node()),
            ),
            final(g).op_of(r.spec_node()) == Op::Binary(
                BinFn::Mul,
                self.spec_node() as usize,
                other.spec_node() as usize,
            ),
            final(g).ng(r.spec_node()) == (old(g).ng(self.spec_node()) || old(g).ng(
                other.spec_node(),
            )),
            final(g).rows_of(r.spec_node()) == old(g).rows_of(self.spec_node()),
            final(g).cols_of(r.spec_node()) == old(g).cols_of(self.spec_node()),
            ids_of(r.spec_params()) == ids_of(self.spec_params()).union(ids_of(
                other.spec_params(),
            )),
    {
        self.binary_var(BinFn::Mul, other, g)
    }

    /// Elementwise quotient of two same-shaped subgraphs.
    pub fn div<E: Scalar>(&self, other: &Variable, g: &mut Graph<E>) -> (r: Variable)
        requires
            old(g).wf(),
            self.wf(old(g)),
            other.wf(old(g)),
            old(g).tensor_node(self.spec_node()),
            old(g).tensor_node(other.spec_node()),
            old(g).rows_of(self.spec_node()) == old(g).rows_of(other.spec_node()),
            old(g).cols_of(self.spec_node()) == old(g).cols_of(other.spec_node()),
        ensures
            final(g).wf(),
            r.wf(final(g)),
            r.spec_node() == old(g).node_count(),
            final(g).node_count() == old(g).node_count() + 1,
            final(g).same_params(old(g)),
            final(g).same_nodes_upto(old(g), old(g).node_count() as int),
            final(g).tensor_node(r.spec_node()),
            final(g).val(r.spec_node()) == seq_binary(
                BinFn::Div,
                old(g).val(self.spec_node()),
                old(g).val(other.spec_node()),
            ),
            final(g).op_of(r.spec_node()) == Op::Binary(
                BinFn::Div,
                self.spec_node() as usize,
                other.spec_node() as usize,
            ),
            final(g).ng(r.spec_node()) == (old(g).ng(self.spec_node()) || old(g).ng(
                other.spec_node(),
            )),
            final(g).rows_of(r.spec_node()) == old(g).rows_of(self.spec_node()),
            final(g).cols_of(r.spec_node()) == old(g).cols_of(self.spec_node()),
            ids_of(r.spec_params()) == ids_of(self.spec_params()).union(ids_of(
                other.spec_params(),
            )),
    {
        self.binary_var(BinFn::Div, other, g)
    }

    /// Build an elementwise unary node over this handle.
    fn unary_var<E: Scalar>(&self, f: UnFn, g: &mut Graph<E>) -> (r: Variable)
        requires
            old(g).wf(),
            self.wf(old(g)),
            old(g).tensor_node(self.spec_node()),
        ensures
            final(g).wf(),
            r.wf(final(g)),
            r.spec_node() == old(g).node_count(),
            final(g).node_count() == old(g).node_count() + 1,
            final(g).same_params(old(g)),
            final(g).same_nodes_upto(old(g), old(g).node_count() as int),
            final(g).tensor_node(r.spec_node()),
            final(g).val(r.spec_node()) == seq_unary(f, old(g).val(self.spec_node())),
            final(g).op_of(r.spec_node()) == Op::Unary(f, self.spec_node() as usize),
            final(g).rows_of(r.spec_node()) == old(g).rows_of(self.spec_node()),
            final(g).cols_of(r.spec_node()) == old(g).cols_of(self.spec_node()),
            final(g).ng(r.spec_node()) == old(g).ng(self.spec_node()),
            ids_of(r.spec_params()) == ids_of(self.spec_params()),
            r.spec_params() == self.spec_params(),
    {
        let merged = clone_index_list(&self.parameters);
        let ghost pre = *g;
        let id = g.unary(f, self.node);
        proof {
            assert(param_nodes(g, id as int) == param_nodes(g, self.spec_node()));
            lemma_one_operand_handle(&pre, g, self, id as int, merged@);
        }
        Variable { node: id, parameters: merged }
    }

    /// Square this handle elementwise.
    pub fn square<E: Scalar>(&self, g: &mut Graph<E>) -> (r: Variable)
        requires
            old(g).wf(),
            self.wf(old(g)),
            old(g).tensor_node(self.spec_node()),
        ensures
            final(g).wf(),
            r.wf(final(g)),
            r.spec_node() == old(g).node_count(),
            final(g).node_count() == old(g).node_count() + 1,
            final(g).same_params(old(g)),
            final(g).same_nodes_upto(old(g), old(g).node_count() as int),
            final(g).tensor_node(r.spec_node()),
            final(g).val(r.spec_node()) == seq_unary(UnFn::Square, old(g).val(self.spec_node())),
            final(g).op_of(r.spec_node()) == Op::Unary(UnFn::Square, self.spec_node() as usize),
            final(g).ng(r.spec_node()) == old(g).ng(self.spec_node()),
            final(g).rows_of(r.spec_node()) == old(g).rows_of(self.spec_node()),
            final(g).cols_of(r.spec_node()) == old(g).cols_of(self.spec_node()),
            r.spec_params() == self.spec_params(),
    {
        self.unary_var(UnFn::Square, g)
    }

    /// Exponentiate this handle elementwise.
    pub fn exp<E: Scalar>(&self, g: &mut Graph<E>) -> (r: Variable)
        requires
            old(g).wf(),
            self.wf(old(g)),
            old(g).tensor_node(self.spec_node()),
        ensures
            final(g).wf(),
            r.wf(final(g)),
            r.spec_node() == old(g).node_count(),
            final(g).node_count() == old(g).node_count() + 1,
            final(g).same_params(old(g)),
            final(g).same_nodes_upto(old(g), old(g).node_count() as int),
            final(g).tensor_node(r.spec_node()),
            final(g).val(r.spec_node()) == seq_unary(UnFn::Exp, old(g).val(self.spec_node())),
            final(g).op_of(r.spec_node()) == Op::Unary(UnFn::Exp, self.spec_node() as usize),
            final(g).ng(r.spec_node()) == old(g).ng(self.spec_node()),
            final(g).rows_of(r.spec_node()) == old(g).rows_of(self.spec_node()),
            final(g).cols_of(r.spec_node()) == old(g).cols_of(self.spec_node()),
            r.spec_params() == self.spec_params(),
    {
        self.unary_var(UnFn::Exp, g)
    }

    /// Natural logarithm, elementwise.
    pub fn ln<E: Scalar>(&self, g: &mut Graph<E>) -> (r: Variable)
        requires
            old(g).wf(),
            self.wf(old(g)),
            old(g).tensor_node(self.spec_node()),
        ensures
            final(g).wf(),
            r.wf(final(g)),
            r.spec_node() == old(g).node_count(),
            final(g).node_count() == old(g).node_count() + 1,
            final(g).same_params(old(g)),
            final(g).same_nodes_upto(old(g), old(g).node_count() as int),
            final(g).tensor_node(r.spec_node()),
            final(g).val(r.spec_node()) == seq_unary(UnFn::Ln, old(g).val(self.spec_node())),
            final(g).op_of(r.spec_node()) == Op::Unary(UnFn::Ln, self.spec_node() as usize),
            final(g).ng(r.spec_node()) == old(g).ng(self.spec_node()),
            final(g).rows_of(r.spec_node()) == old(g).rows_of(self.spec_node()),
            final(g).cols_of(r.spec_node()) == old(g).cols_of(self.spec_node()),
            r.spec_params() == self.spec_params(),
    {
        self.unary_var(UnFn::Ln, g)
    }

    /// Hyperbolic tangent, elementwise.
    pub fn tanh<E: Scalar>(&self, g: &mut Graph<E>) -> (r: Variable)
        requires
            old(g).wf(),
            self.wf(old(g)),
            old(g).tensor_node(self.spec_node()),
        ensures
            final(g).wf(),
            r.wf(final(g)),
            r.spec_node() == old(g).node_count(),
            final(g).node_count() == old(g).node_count() + 1,
            final(g).same_params(old(g)),
            final(g).same_nodes_upto(old(g), old(g).node_count() as int),
            final(g).tensor_node(r.spec_node()),
            final(g).val(r.spec_node()) == seq_unary(UnFn::Tanh, old(g).val(self.spec_node())),
            final(g).op_of(r.spec_node()) == Op::Unary(UnFn::Tanh, self.spec_node() as usize),
            final(g).ng(r.spec_node()) == old(g).ng(self.spec_node()),
            final(g).rows_of(r.spec_node()) == old(g).rows_of(self.spec_node()),
            final(g).cols_of(r.spec_node()) == old(g).cols_of(self.spec_node()),
            r.spec_params() == self.spec_params(),
    {
        self.unary_var(UnFn::Tanh, g)
    }

    /// Logistic sigmoid, elementwise.
    pub fn sigmoid<E: Scalar>(&self, g: &mut Graph<E>) -> (r: Variable)
        requires
            old(g).wf(),
            self.wf(old(g)),
            old(g).tensor_node(self.spec_node()),
        ensures
            final(g).wf(),
            r.wf(final(g)),
            r.spec_node() == old(g).node_count(),
            final(g).node_count() == old(g).node_count() + 1,
            final(g).same_params(old(g)),
            final(g).same_nodes_upto(old(g), old(g).node_count() as int),
            final(g).tensor_node(r.spec_node()),
            final(g).val(r.spec_node()) == seq_unary(UnFn::Sigmoid, old(g).val(self.spec_node())),
            final(g).op_of(r.spec_node()) == Op::Unary(UnFn::Sigmoid, self.spec_node() as usize),
            final(g).ng(r.spec_node()) == old(g).ng(self.spec_node()),
            final(g).rows_of(r.spec_node()) == old(g).rows_of(self.spec_node()),
            final(g).cols_of(r.spec_node()) == old(g).cols_of(self.spec_node()),
            r.spec_params() == self.spec_params(),
    {
        self.unary_var(UnFn::Sigmoid, g)
    }

    /// Rectified linear unit, elementwise.
    pub fn relu<E: Scalar>(&self, g: &mut Graph<E>) -> (r: Variable)
        requires
            old(g).wf(),
            self.wf(old(g)),
            old(g).tensor_node(self.spec_node()),
        ensures
            final(g).wf(),
            r.wf(final(g)),
            r.spec_node() == old(g).node_count(),
            final(g).node_count() == old(g).node_count() + 1,
            final(g).same_params(old(g)),
            final(g).same_nodes_upto(old(g), old(g).node_count() as int),
            final(g).tensor_node(r.spec_node()),
            final(g).val(r.spec_node()) == seq_unary(UnFn::Relu, old(g).val(self.spec_node())),
            final(g).op_of(r.spec_node()) == Op::Unary(UnFn::Relu, self.spec_node() as usize),
            final(g).ng(r.spec_node()) == old(g).ng(self.spec_node()),
            final(g).rows_of(r.spec_node()) == old(g).rows_of(self.spec_node()),
            final(g).cols_of(r.spec_node()) == old(g).cols_of(self.spec_node()),
            r.spec_params() == self.spec_params(),
    {
        self.unary_var(UnFn::Relu, g)
    }

    /// Elementwise negation.
    pub fn neg<E: Scalar>(&self, g: &mut Graph<E>) -> (r: Variable)
        requires
            old(g).wf(),
            self.wf(old(g)),
            old(g).tensor_node(self.spec_node()),
        ensures
            final(g).wf(),
            r.wf(final(g)),
            r.spec_node() == old(g).node_count(),
            final(g).node_count() == old(g).node_count() + 1,
            final(g).same_params(old(g)),
            final(g).same_nodes_upto(old(g), old(g).node_count() as int),
            final(g).tensor_node(r.spec_node()),
            final(g).val(r.spec_node()) == seq_unary(UnFn::Neg, old(g).val(self.spec_node())),
            final(g).op_of(r.spec_node()) == Op::Unary(UnFn::Neg, self.spec_node() as usize),
            final(g).ng(r.spec_node()) == old(g).ng(self.spec_node()),
            final(g).rows_of(r.spec_node()) == old(g).rows_of(self.spec_node()),
            final(g).cols_of(r.spec_node()) == old(g).cols_of(self.spec_node()),
            r.spec_params() == self.spec_params(),
    {
        self.unary_var(UnFn::Neg, g)
    }
}

impl Variable {
    /// Promote a bare scalar to a zero-gradient input leaf shaped like this
    /// operand: the operand's value times zero, plus the scalar.
    fn promote_const<E: Scalar>(&self, g: &mut Graph<E>, c: E) -> (r: Variable)
        requires
            old(g).wf(),
            self.wf(old(g)),
            old(g).tensor_node(self.spec_node()),
        ensures
            final(g).wf(),
            r.wf(final(g)),
            r.spec_node() == old(g).node_count(),
            final(g).node_count() == old(g).node_count() + 1,
            final(g).same_params(old(g)),
            final(g).same_nodes_upto(old(g), old(g).node_count() as int),
            final(g).op_of(r.spec_node()) == Op::Input,
            !final(g).ng(r.spec_node()),
            final(g).val(r.spec_node()) == promoted_const(old(g).val(self.spec_node()), c),
            final(g).rows_of(r.spec_node()) == old(g).rows_of(self.spec_node()),
            final(g).cols_of(r.spec_node()) == old(g).cols_of(self.spec_node()),
            r.spec_params().len() == 0,
    {
        let cv = {
            let v = g.value_ref(self.node);
            let n = v.count();
            let rows = v.rows();
            let cols = v.cols();
            let zt = Tensor::filled(rows, cols, E::zero());
            let m = Tensor::map_binary(BinFn::Mul, v, &zt);
            let ct = Tensor::filled(rows, cols, c);
            Tensor::map_binary(BinFn::Add, &m, &ct)
        };
        InputNode::new(g, cv)
    }

    /// Combine this handle with a bare scalar, promoted to this operand's
    /// shape; `scalar_left` puts the constant on the left of the operator.
    fn scalar_binary<E: Scalar>(
        &self,
        f: BinFn,
        g: &mut Graph<E>,
        c: E,
        scalar_left: bool,
    ) -> (r: Variable)
        requires
            old(g).wf(),
            self.wf(old(g)),
            old(g).tensor_node(self.spec_node()),
        ensures
            final(g).wf(),
            r.wf(final(g)),
            final(g).node_count() == old(g).node_count() + 2,
            r.spec_node() == old(g).node_count() + 1,
            final(g).same_params(old(g)),
            final(g).same_nodes_upto(old(g), old(g).node_count() as int),
            final(g).tensor_node(r.spec_node()),
            final(g).op_of(r.spec_node()) == (if scalar_left {
                Op::Binary(f, old(g).node_count() as usize, self.spec_node() as usize)
            } else {
                Op::Binary(f, self.spec_node() as usize, old(g).node_count() as usize)
            }),
            final(g).ng(r.spec_node()) == old(g).ng(self.spec_node()),
            final(g).val(r.spec_node()) == (if scalar_left {
                seq_binary(
                    f,
                    promoted_const(old(g).val(self.spec_node()), c),
                    old(g).val(self.spec_node()),
                )
            } else {
                seq_binary(
                    f,
                    old(g).val(self.spec_node()),
                    promoted_const(old(g).val(self.spec_node()), c),
                )
            }),
            final(g).rows_of(r.spec_node()) == old(g).rows_of(self.spec_node()),
            final(g).cols_of(r.spec_node()) == old(g).cols_of(self.spec_node()),
            ids_of(r.spec_params()) == ids_of(self.spec_params()),
    {
        let ghost pre = *g;
        let k = self.promote_const(g, c);
        proof {
            lemma_var_wf_extend(self, &pre, g);
        }
        let r = if scalar_left {
            k.binary_var(f, self, g)
        } else {
            self.binary_var(f, &k, g)
        };
        proof {
            assert(ids_of(r.spec_params()) =~= ids_of(self.spec_params()));
        }
        r
    }

    /// Add a broadcast scalar to this handle.
    pub fn add_scalar<E: Scalar>(&self, g: &mut Graph<E>, c: E) -> (r: Variable)
        requires
            old(g).wf(),
            self.wf(old(g)),
            old(g).tensor_node(self.spec_node()),
        ensures
            final(g).wf(),
            r.wf(final(g)),
            final(g).same_params(old(g)),
            final(g).same_nodes_upto(old(g), old(g).node_count() as int),
            final(g).tensor_node(r.spec_node()),
            final(g).val(r.spec_node()) == seq_binary(
                BinFn::Add,
                old(g).val(self.spec_node()),
                promoted_const(old(g).val(self.spec_node()), c),
            ),
            final(g).op_of(r.spec_node()) == Op::Binary(
                BinFn::Add,
                self.spec_node() as usize,
                old(g).node_count() as usize,
            ),
            final(g).ng(r.spec_node()) == old(g).ng(self.spec_node()),
            final(g).rows_of(r.spec_node()) == old(g).rows_of(self.spec_node()),
            final(g).cols_of(r.spec_node()) == old(g).cols_of(self.spec_node()),
            ids_of(r.spec_params()) == ids_of(self.spec_params()),
    {
        self.scalar_binary(BinFn::Add, g, c, false)
    }

    /// Subtract a broadcast scalar from this handle.
    pub fn sub_scalar<E: Scalar>(&self, g: &mut Graph<E>, c: E) -> (r: Variable)
        requires
            old(g).wf(),
            self.wf(old(g)),
            old(g).tensor_node(self.spec_node()),
        ensures
            final(g).wf(),
            r.wf(final(g)),
            final(g).same_params(old(g)),
            final(g).same_nodes_upto(old(g), old(g).node_count() as int),
            final(g).tensor_node(r.spec_node()),
            final(g).val(r.spec_node()) == seq_binary(
                BinFn::Sub,
                old(g).val(self.spec_node()),
                promoted_const(old(g).val(self.spec_node()), c),
            ),
            final(g).op_of(r.spec_node()) == Op::Binary(
                BinFn::Sub,
                self.spec_node() as usize,
                old(g).node_count() as usize,
            ),
            final(g).ng(r.spec_node()) == old(g).ng(self.spec_node()),
            final(g).rows_of(r.spec_node()) == old(g).rows_of(self.spec_node()),
            final(g).cols_of(r.spec_node()) == old(g).cols_of(self.spec_node()),
            ids_of(r.spec_params()) == ids_of(self.spec_params()),
    {
        self.scalar_binary(BinFn::Sub, g, c, false)
    }

    /// Subtract this handle from a broadcast scalar.
    pub fn scalar_sub<E: Scalar>(&self, g: &mut Graph<E>, c: E) -> (r: Variable)
        requires
            old(g).wf(),
            self.wf(old(g)),
            old(g).tensor_node(self.spec_node()),
        ensures
            final(g).wf(),
            r.wf(final(g)),
            final(g).same_params(old(g)),
            final(g).same_nodes_upto(old(g), old(g).node_count() as int),
            final(g).tensor_node(r.spec_node()),
            final(g).val(r.spec_node()) == seq_binary(
                BinFn::Sub,
                promoted_const(old(g).val(self.spec_node()), c),
                old(g).val(self.spec_node()),
            ),
            final(g).op_of(r.spec_node()) == Op::Binary(
                BinFn::Sub,
                old(g).node_count() as usize,
                self.spec_node() as usize,
            ),
            final(g).ng(r.spec_node()) == old(g).ng(self.spec_node()),
            final(g).rows_of(r.spec_node()) == old(g).rows_of(self.spec_node()),
            final(g).cols_of(r.spec_node()) == old(g).cols_of(self.spec_node()),
            ids_of(r.spec_params()) == ids_of(self.spec_params()),
    {
        self.scalar_binary(BinFn::Sub, g, c, true)
    }

    /// Multiply this handle by a broadcast scalar.
    pub fn mul_scalar<E: Scalar>(&self, g: &mut Graph<E>, c: E) -> (r: Variable)
        requires
            old(g).wf(),
            self.wf(old(g)),
            old(g).tensor_node(self.spec_node()),
        ensures
            final(g).wf(),
            r.wf(final(g)),
            final(g).same_params(old(g)),
            final(g).same_nodes_upto(old(g), old(g).node_count() as int),
            final(g).tensor_node(r.spec_node()),
            final(g).val(r.spec_node()) == seq_binary(
                BinFn::Mul,
                old(g).val(self.spec_node()),
                promoted_const(old(g).val(self.spec_node()), c),
            ),
            final(g).op_of(r.spec_node()) == Op::Binary(
                BinFn::Mul,
                self.spec_node() as usize,
                old(g).node_count() as usize,
            ),
            final(g).ng(r.spec_node()) == old(g).ng(self.spec_node()),
            final(g).rows_of(r.spec_node()) == old(g).rows_of(self.spec_node()),
            final(g).cols_of(r.spec_node()) == old(g).cols_of(self.spec_node()),
            ids_of(r.spec_params()) == ids_of(self.spec_params()),
    {
        self.scalar_binary(BinFn::Mul, g, c, false)
    }

    /// Divide this handle by a broadcast scalar.
    pub fn div_scalar<E: Scalar>(&self, g: &mut Graph<E>, c: E) -> (r: Variable)
        requires
            old(g).wf(),
            self.wf(old(g)),
            old(g).tensor_node(self.spec_node()),
        ensures
            final(g).wf(),
            r.wf(final(g)),
            final(g).same_params(old(g)),
            final(g).same_nodes_upto(old(g), old(g).node_count() as int),
            final(g).tensor_node(r.spec_node()),
            final(g).val(r.spec_node()) == seq_binary(
                BinFn::Div,
                old(g).val(self.spec_node()),
                promoted_const(old(g).val(self.spec_node()), c),
            ),
            final(g).op_of(r.spec_node()) == Op::Binary(
                BinFn::Div,
                self.spec_node() as usize,
                old(g).node_count() as usize,
            ),
            final(g).ng(r.spec_node()) == old(g).ng(self.spec_node()),
            final(g).rows_of(r.spec_node()) == old(g).rows_of(self.spec_node()),
            final(g).cols_of(r.spec_node()) == old(g).cols_of(self.spec_node()),
            ids_of(r.spec_params()) == ids_of(self.spec_params()),
    {
        self.scalar_binary(BinFn::Div, g, c, false)
    }

    /// Divide a broadcast scalar by this handle.
    pub fn scalar_div<E: Scalar>(&self, g: &mut Graph<E>, c: E) -> (r: Variable)
        requires
            old(g).wf(),
            self.wf(old(g)),
            old(g).tensor_node(self.spec_node()),
        ensures
            final(g).wf(),
            r.wf(final(g)),
            final(g).same_params(old(g)),
            final(g).same_nodes_upto(old(g), old(g).node_count() as int),
            final(g).tensor_node(r.spec_node()),
            final(g).val(r.spec_node()) == seq_binary(
                BinFn::Div,
                promoted_const(old(g).val(self.spec_node()), c),
                old(g).val(self.spec_node()),
            ),
            final(g).op_of(r.spec_node()) == Op::Binary(
                BinFn::Div,
                old(g).node_count() as usize,
                self.spec_node() as usize,
            ),
            final(g).ng(r.spec_node()) == old(g).ng(self.spec_node()),
            final(g).rows_of(r.spec_node()) == old(g).rows_of(self.spec_node()),
            final(g).cols_of(r.spec_node()) == old(g).cols_of(self.spec_node()),
            ids_of(r.spec_params()) == ids_of(self.spec_params()),
    {
        self.scalar_binary(BinFn::Div, g, c, true)
    }

    /// Row-wise softmax of this handle.
    pub fn softmax<E: Scalar>(&self, g: &mut Graph<E>) -> (r: Variable)
        requires
            old(g).wf(),
            self.wf(old(g)),
            old(g).tensor_node(self.spec_node()),
            old(g).cols_of(self.spec_node()) >= 1,
        ensures
            final(g).wf(),
            r.wf(final(g)),
            r.spec_node() == old(g).node_count(),
            final(g).node_count() == old(g).node_count() + 1,
            final(g).same_params(old(g)),
            final(g).same_nodes_upto(old(g), old(g).node_count() as int),
            final(g).tensor_node(r.spec_node()),
            final(g).val(r.spec_node()) == softmax_seq(
                false,
                old(g).val(self.spec_node()),
                old(g).cols_of(self.spec_node()),
            ),
            final(g).op_of(r.spec_node()) == Op::Softmax(self.spec_node() as usize),
            final(g).ng(r.spec_node()) == old(g).ng(self.spec_node()),
            final(g).rows_of(r.spec_node()) == old(g).rows_of(self.spec_node()),
            final(g).cols_of(r.spec_node()) == old(g).cols_of(self.spec_node()),
            r.spec_params() == self.spec_params(),
    {
        let merged = clone_index_list(&self.parameters);
        let ghost pre = *g;
        let id = g.softmax(self.node, false);
        proof {
            assert(param_nodes(g, id as int) == param_nodes(g, self.spec_node()));
            lemma_one_operand_handle(&pre, g, self, id as int, merged@);
        }
        Variable { node: id, parameters: merged }
    }

    /// Row-wise log-softmax of this handle.
    pub fn log_softmax<E: Scalar>(&self, g: &mut Graph<E>) -> (r: Variable)
        requires
            old(g).wf(),
            self.wf(old(g)),
            old(g).tensor_node(self.spec_node()),
            old(g).cols_of(self.spec_node()) >= 1,
        ensures
            final(g).wf(),
            r.wf(final(g)),
            r.spec_node() == old(g).node_count(),
            final(g).node_count() == old(g).node_count() + 1,
            final(g).same_params(old(g)),
            final(g).same_nodes_upto(old(g), old(g).node_count() as int),
            final(g).tensor_node(r.spec_node()),
            final(g).val(r.spec_node()) == softmax_seq(
                true,
                old(g).val(self.spec_node()),
                old(g).cols_of(self.spec_node()),
            ),
            final(g).op_of(r.spec_node()) == Op::LogSoftmax(self.spec_node() as usize),
            final(g).ng(r.spec_node()) == old(g).ng(self.spec_node()),
            final(g).rows_of(r.spec_node()) == old(g).rows_of(self.spec_node()),
            final(g).cols_of(r.spec_node()) == old(g).cols_of(self.spec_node()),
            r.spec_params() == self.spec_params(),
    {
        let merged = clone_index_list(&self.parameters);
        let ghost pre = *g;
        let id = g.softmax(self.node, true);
        proof {
            assert(param_nodes(g, id as int) == param_nodes(g, self.spec_node()));
            lemma_one_operand_handle(&pre, g, self, id as int, merged@);
        }
        Variable { node: id, parameters: merged }
    }

    /// Transpose this handle.
    pub fn t<E: Scalar>(&self, g: &mut Graph<E>) -> (r: Variable)
        requires
            old(g).wf(),
            self.wf(old(g)),
            old(g).tensor_node(self.spec_node()),
        ensures
            final(g).wf(),
            r.wf(final(g)),
            r.spec_node() == old(g).node_count(),
            final(g).node_count() == old(g).node_count() + 1,
            final(g).same_params(old(g)),
            final(g).same_nodes_upto(old(g), old(g).node_count() as int),
            final(g).tensor_node(r.spec_node()),
            final(g).val(r.spec_node()) == transpose_seq(
                old(g).val(self.spec_node()),
                old(g).rows_of(self.spec_node()),
                old(g).cols_of(self.spec_node()),
            ),
            final(g).op_of(r.spec_node()) == Op::Transpose(self.spec_node() as usize),
            final(g).ng(r.spec_node()) == old(g).ng(self.spec_node()),
            final(g).rows_of(r.spec_node()) == old(g).cols_of(self.spec_node()),
            final(g).cols_of(r.spec_node()) == old(g).rows_of(self.spec_node()),
            r.spec_params() == self.spec_params(),
    {
        let merged = clone_index_list(&self.parameters);
        let ghost pre = *g;
        let id = g.transpose(self.node);
        proof {
            assert(param_nodes(g, id as int) == param_nodes(g, self.spec_node()));
            lemma_one_operand_handle(&pre, g, self, id as int, merged@);
        }
        Variable { node: id, parameters: merged }
    }

    /// Sum every element of this handle into a `1 x 1` value.
    pub fn scalar_sum<E: Scalar>(&self, g: &mut Graph<E>) -> (r: Variable)
        requires
            old(g).wf(),
            self.wf(old(g)),
            old(g).tensor_node(self.spec_node()),
        ensures
            final(g).wf(),
            r.wf(final(g)),
            r.spec_node() == old(g).node_count(),
            final(g).node_count() == old(g).node_count() + 1,
            final(g).same_params(old(g)),
            final(g).same_nodes_upto(old(g), old(g).node_count() as int),
            final(g).tensor_node(r.spec_node()),
            final(g).val(r.spec_node()) == seq![
                sum_fold(
                    old(g).val(self.spec_node()),
                    old(g).val(self.spec_node()).len() as int,
                ),
            ],
            final(g).op_of(r.spec_node()) == Op::Sum(self.spec_node() as usize),
            final(g).ng(r.spec_node()) == old(g).ng(self.spec_node()),
            final(g).rows_of(r.spec_node()) == 1,
            final(g).cols_of(r.spec_node()) == 1,
            r.spec_params() == self.spec_params(),
    {
        let merged = clone_index_list(&self.parameters);
        let ghost pre = *g;
        let id = g.sum(self.node);
        proof {
            assert(param_nodes(g, id as int) == param_nodes(g, self.spec_node()));
            lemma_one_operand_handle(&pre, g, self, id as int, merged@);
        }
        Variable { node: id, parameters: merged }
    }

    /// Stack this handle with `other` along `axis`: row-stacking appends
    /// rows, column-stacking appends columns.
    pub fn stack<E: Scalar>(&self, other: &Variable, axis: Axis, g: &mut Graph<E>) -> (r: Variable)
        requires
            old(g).wf(),
            self.wf(old(g)),
            other.wf(old(g)),
            old(g).tensor_node(self.spec_node()),
            old(g).tensor_node(other.spec_node()),
            match axis {
                Axis::Rows => old(g).cols_of(self.spec_node()) == old(g).cols_of(
                    other.spec_node(),
                ) && old(g).rows_of(self.spec_node()) + old(g).rows_of(other.spec_node())
                    <= usize::MAX,
                Axis::Cols => old(g).rows_of(self.spec_node()) == old(g).rows_of(
                    other.spec_node(),
                ) && old(g).cols_of(self.spec_node()) + old(g).cols_of(other.spec_node())
                    <= usize::MAX,
            },
            old(g).val(self.spec_node()).len() + old(g).val(other.spec_node()).len() <= usize::MAX,
        ensures
            final(g).wf(),
            r.wf(final(g)),
            r.spec_node() == old(g).node_count(),
            final(g).node_count() == old(g).node_count() + 1,
            final(g).same_params(old(g)),
            final(g).same_nodes_upto(old(g), old(g).node_count() as int),
            final(g).tensor_node(r.spec_node()),
            final(g).rows_of(r.spec_node()) == (match axis {
                Axis::Rows => old(g).rows_of(self.spec_node()) + old(g).rows_of(other.spec_node()),
                Axis::Cols => old(g).rows_of(self.spec_node()),
            }),
            final(g).cols_of(r.spec_node()) == (match axis {
                Axis::Rows => old(g).cols_of(self.spec_node()),
                Axis::Cols => old(g).cols_of(self.spec_node()) + old(g).cols_of(other.spec_node()),
            }),
            final(g).val(r.spec_node()) == (match axis {
                Axis::Rows => concat_rows_seq(
                    old(g).val(self.spec_node()),
                    old(g).val(other.spec_node()),
                ),
                Axis::Cols => concat_cols_seq(
                    old(g).val(self.spec_node()),
                    old(g).cols_of(self.spec_node()),
                    old(g).val(other.spec_node()),
                    old(g).cols_of(other.spec_node()),
                    old(g).rows_of(self.spec_node()),
                ),
            }),
            final(g).op_of(r.spec_node()) == Op::Concat(
                axis,
                self.spec_node() as usize,
                other.spec_node() as usize,
            ),
            final(g).ng(r.spec_node()) == (old(g).ng(self.spec_node()) || old(g).ng(
                other.spec_node(),
            )),
            ids_of(r.spec_params()) == ids_of(self.spec_params()).union(ids_of(
                other.spec_params(),
            )),
    {
        let merged = merge_parameters(&self.parameters, &other.parameters);
        let ghost pre = *g;
        let id = g.concat(axis, self.node, other.node);
        proof {
            assert(param_nodes(g, id as int) == param_nodes(g, self.spec_node()).union(
                param_nodes(g, other.spec_node()),
            ));
            lemma_two_operand_handle(&pre, g, self, other, id as int, merged@);
        }
        Variable { node: id, parameters: merged }
    }

    /// The rectangle of this handle anchored at `(r0, c0)` with `h` rows
    /// and `w` columns.
    pub fn slice<E: Scalar>(
        &self,
        g: &mut Graph<E>,
        r0: usize,
        c0: usize,
        h: usize,
        w: usize,
    ) -> (r: Variable)
        requires
            old(g).wf(),
            self.wf(old(g)),
            old(g).tensor_node(self.spec_node()),
            r0 + h <= old(g).rows_of(self.spec_node()),
            c0 + w <= old(g).cols_of(self.spec_node()),
        ensures
            final(g).wf(),
            r.wf(final(g)),
            r.spec_node() == old(g).node_count(),
            final(g).node_count() == old(g).node_count() + 1,
            final(g).same_params(old(g)),
            final(g).same_nodes_upto(old(g), old(g).node_count() as int),
            final(g).tensor_node(r.spec_node()),
            final(g).rows_of(r.spec_node()) == h,
            final(g).cols_of(r.spec_node()) == w,
            final(g).val(r.spec_node()) == slice_seq(
                old(g).val(self.spec_node()),
                old(g).cols_of(self.spec_node()),
                r0 as nat,
                c0 as nat,
                h as nat,
                w as nat,
            ),
            final(g).op_of(r.spec_node()) == Op::Slice(self.spec_node() as usize, r0, c0, h, w),
            final(g).ng(r.spec_node()) == old(g).ng(self.spec_node()),
            r.spec_params() == self.spec_params(),
    {
        let merged = clone_index_list(&self.parameters);
        let ghost pre = *g;
        let id = g.slice(self.node, r0, c0, h, w);
        proof {
            assert(param_nodes(g, id as int) == param_nodes(g, self.spec_node()));
            lemma_one_operand_handle(&pre, g, self, id as int, merged@);
        }
        Variable { node: id, parameters: merged }
    }

    /// The matrix product of this handle (shape `[m, k]`) and `other`
    /// (shape `[k, n]`): shape `[m, n]`.
    pub fn dot<E: Scalar>(&self, other: &Variable, g: &mut Graph<E>) -> (r: Variable)
        requires
            old(g).wf(),
            self.wf(old(g)),
            other.wf(old(g)),
            old(g).tensor_node(self.spec_node()),
            old(g).tensor_node(other.spec_node()),
            old(g).cols_of(self.spec_node()) == old(g).rows_of(other.spec_node()),
            old(g).rows_of(self.spec_node()) * old(g).cols_of(other.spec_node()) <= usize::MAX,
        ensures
            final(g).wf(),
            r.wf(final(g)),
            r.spec_node() == old(g).node_count(),
            final(g).node_count() == old(g).node_count() + 1,
            final(g).same_params(old(g)),
            final(g).same_nodes_upto(old(g), old(g).node_count() as int),
            final(g).tensor_node(r.spec_node()),
            final(g).rows_of(r.spec_node()) == old(g).rows_of(self.spec_node()),
            final(g).cols_of(r.spec_node()) == old(g).cols_of(other.spec_node()),
            final(g).val(r.spec_node()) == mm_seq(
                old(g).val(self.spec_node()),
                old(g).cols_of(self.spec_node()),
                old(g).val(other.spec_node()),
                old(g).cols_of(other.spec_node()),
                old(g).rows_of(self.spec_node()),
            ),
            final(g).op_of(r.spec_node()) == Op::Dot(
                self.spec_node() as usize,
                other.spec_node() as usize,
            ),
            final(g).ng(r.spec_node()) == (old(g).ng(self.spec_node()) || old(g).ng(
                other.spec_node(),
            )),
            ids_of(r.spec_params()) == ids_of(self.spec_params()).union(ids_of(
                other.spec_params(),
            )),
    {
        let merged = merge_parameters(&self.parameters, &other.parameters);
        let ghost pre = *g;
        let id = g.dot(self.node, other.node);
        proof {
            assert(param_nodes(g, id as int) == param_nodes(g, self.spec_node()).union(
                param_nodes(g, other.spec_node()),
            ));
            lemma_two_operand_handle(&pre, g, self, other, id as int, merged@);
        }
        Variable { node: id, parameters: merged }
    }

    /// The batched row-wise dot product of this handle and `other`, which
    /// must have identical shape: one scalar per row, shape `[rows, 1]`.
    pub fn vector_dot<E: Scalar>(&self, other: &Variable, g: &mut Graph<E>) -> (r: Variable)
        requires
            old(g).wf(),
            self.wf(old(g)),
            other.wf(old(g)),
            old(g).tensor_node(self.spec_node()),
            old(g).tensor_node(other.spec_node()),
            old(g).rows_of(self.spec_node()) == old(g).rows_of(other.spec_node()),
            old(g).cols_of(self.spec_node()) == old(g).cols_of(other.spec_node()),
        ensures
            final(g).wf(),
            r.wf(final(g)),
            r.spec_node() == old(g).node_count(),
            final(g).node_count() == old(g).node_count() + 1,
            final(g).same_params(old(g)),
            final(g).same_nodes_upto(old(g), old(g).node_count() as int),
            final(g).tensor_node(r.spec_node()),
            final(g).rows_of(r.spec_node()) == old(g).rows_of(self.spec_node()),
            final(g).cols_of(r.spec_node()) == 1,
            final(g).val(r.spec_node()) == vdot_seq(
                old(g).val(self.spec_node()),
                old(g).val(other.spec_node()),
                old(g).rows_of(self.spec_node()),
                old(g).cols_of(self.spec_node()),
            ),
            final(g).op_of(r.spec_node()) == Op::VectorDot(
                self.spec_node() as usize,
                other.spec_node() as usize,
            ),
            final(g).ng(r.spec_node()) == (old(g).ng(self.spec_node()) || old(g).ng(
                other.spec_node(),
            )),
            ids_of(r.spec_params()) == ids_of(self.spec_params()).union(ids_of(
                other.spec_params(),
            )),
    {
        let merged = merge_parameters(&self.parameters, &other.parameters);
        let ghost pre = *g;
        let id = g.vector_dot(self.node, other.node);
        proof {
            assert(param_nodes(g, id as int) == param_nodes(g, self.spec_node()).union(
                param_nodes(g, other.spec_node()),
            ));
            lemma_two_operand_handle(&pre, g, self, other, id as int, merged@);
        }
        Variable { node: id, parameters: merged }
    }

    /// Row-wise gather of this parameter handle by an index-input handle,
    /// used to implement embedding layers. The backward pass of the result
    /// emits a sparse contribution onto this parameter's accumulator.
    pub fn index<E: Scalar>(&self, idx: &Variable, g: &mut Graph<E>) -> (r: Variable)
        requires
            old(g).wf(),
            self.wf(old(g)),
            idx.wf(old(g)),
            old(g).op_of(self.spec_node()) is Parameter,
            old(g).op_of(idx.spec_node()) is IndexInput,
            forall|q: int|
                0 <= q < old(g).idx_of(idx.spec_node()).len() ==> (#[trigger] old(g).idx_of(
                    idx.spec_node(),
                )[q] as nat) < old(g).rows_of(self.spec_node()),
            old(g).idx_of(idx.spec_node()).len() * old(g).cols_of(self.spec_node()) <= usize::MAX,
        ensures
            final(g).wf(),
            r.wf(final(g)),
            r.spec_node() == old(g).node_count(),
            final(g).node_count() == old(g).node_count() + 1,
            final(g).same_params(old(g)),
            final(g).same_nodes_upto(old(g), old(g).node_count() as int),
            final(g).tensor_node(r.spec_node()),
            final(g).rows_of(r.spec_node()) == old(g).idx_of(idx.spec_node()).len(),
            final(g).cols_of(r.spec_node()) == old(g).cols_of(self.spec_node()),
            final(g).val(r.spec_node()) == gather_seq(
                old(g).val(self.spec_node()),
                old(g).cols_of(self.spec_node()),
                old(g).idx_of(idx.spec_node()),
            ),
            final(g).idx_of(r.spec_node()) == old(g).idx_of(idx.spec_node()),
            final(g).gather_fresh(r.spec_node()),
            final(g).op_of(r.spec_node()) == Op::Index(
                self.spec_node() as usize,
                idx.spec_node() as usize,
            ),
            final(g).ng(r.spec_node()) == old(g).ng(self.spec_node()),
            ids_of(r.spec_params()) == ids_of(self.spec_params()).union(ids_of(
                idx.spec_params(),
            )),
    {
        let merged = merge_parameters(&self.parameters, &idx.parameters);
        let ghost pre = *g;
        let id = g.index(self.node, idx.node);
        proof {
            assert(param_nodes(g, id as int) == param_nodes(g, self.spec_node()).union(
                param_nodes(g, idx.spec_node()),
            ));
            lemma_two_operand_handle(&pre, g, self, idx, id as int, merged@);
            assert(g.node_at(idx.spec_node()) == pre.node_at(idx.spec_node()));
            assert(g.idx_of(idx.spec_node()) == pre.idx_of(idx.spec_node()));
        }
        Variable { node: id, parameters: merged }
    }
}

/// A wf handle's parameter list holds no duplicates: the same physical
/// parameter referenced any number of times in one graph appears exactly
/// once.
pub proof fn lemma_parameters_deduplicated<E: Scalar>(v: &Variable, g: &Graph<E>)
    requires
        v.wf(g),
    ensures
        forall|p: int, q: int|
            0 <= p < q < v.spec_params().len() ==> v.spec_params()[p] != v.spec_params()[q],
{
}

/// The needs-gradient flag, precomputed at construction as the OR of the
/// operands' flags (`true` at parameter leaves, `false` at externally fed
/// leaves), characterizes reachability: a node takes part in the backward
/// pass exactly when a trainable parameter is reachable from it.
pub proof fn lemma_needs_gradient_reaches_parameter<E: Scalar>(g: &Graph<E>, i: int)
    requires
        g.wf(),
        0 <= i < g.node_count(),
    ensures
        g.ng(i) == !param_nodes(g, i).is_empty(),
    decreases i,
{
    assert(g.node_wf(i));
    match g.op_of(i) {
        Op::Input => {
            assert(param_nodes(g, i) =~= Set::<int>::empty());
        },
        Op::IndexInput => {
            assert(param_nodes(g, i) =~= Set::<int>::empty());
        },
        Op::Parameter(_p) => {
            assert(param_nodes(g, i).contains(i));
        },
        Op::Binary(_f, l, r) => {
            lemma_needs_gradient_reaches_parameter(g, l as int);
            lemma_needs_gradient_reaches_parameter(g, r as int);
            lemma_union_empty(param_nodes(g, l as int), param_nodes(g, r as int));
        },
        Op::Unary(_f, x) => {
            lemma_needs_gradient_reaches_parameter(g, x as int);
        },
        Op::Softmax(x) => {
            lemma_needs_gradient_reaches_parameter(g, x as int);
        },
        Op::LogSoftmax(x) => {
            lemma_needs_gradient_reaches_parameter(g, x as int);
        },
        Op::Transpose(x) => {
            lemma_needs_gradient_reaches_parameter(g, x as int);
        },
        Op::Concat(_axis, l, r) => {
            lemma_needs_gradient_reaches_parameter(g, l as int);
            lemma_needs_gradient_reaches_parameter(g, r as int);
            lemma_union_empty(param_nodes(g, l as int), param_nodes(g, r as int));
        },
        Op::Slice(x, _r0, _c0, _h, _w) => {
            lemma_needs_gradient_reaches_parameter(g, x as int);
        },
        Op::Dot(l, r) => {
            lemma_needs_gradient_reaches_parameter(g, l as int);
            lemma_needs_gradient_reaches_parameter(g, r as int);
            lemma_union_empty(param_nodes(g, l as int), param_nodes(g, r as int));
        },
        Op::VectorDot(l, r) => {
            lemma_needs_gradient_reaches_parameter(g, l as int);
            lemma_needs_gradient_reaches_parameter(g, r as int);
            lemma_union_empty(param_nodes(g, l as int), param_nodes(g, r as int));
        },
        Op::Index(pn, ix) => {
            lemma_needs_gradient_reaches_parameter(g, pn as int);
            lemma_needs_gradient_reaches_parameter(g, ix as int);
            lemma_union_empty(param_nodes(g, pn as int), param_nodes(g, ix as int));
        },
        Op::Sum(x) => {
            lemma_needs_gradient_reaches_parameter(g, x as int);
        },
    }
}

/// A union is empty exactly when both parts are.
proof fn lemma_union_empty(a: Set<int>, b: Set<int>)
    ensures
        a.union(b).is_empty() == (a.is_empty() && b.is_empty()),
{
    if a.is_empty() && b.is_empty() {
        assert(a.union(b) =~= Set::<int>::empty());
    }
    if a.union(b).is_empty() {
        assert forall|x: int| !(#[trigger] a.contains(x)) by {
            assert(!a.union(b).contains(x));
        }
        assert forall|x: int| !(#[trigger] b.contains(x)) by {
            assert(!a.union(b).contains(x));
        }
        assert(a =~= Set::<int>::empty());
        assert(b =~= Set::<int>::empty());
    }
}

/// An identity-sorted, duplicate-free parameter list is canonical: two
/// handles whose reachable parameter sets coincide carry the very same
/// list. In particular, consuming one subgraph through any number of
/// downstream nodes never grows the list.
pub proof fn lemma_sorted_unique_canonical(xs: Seq<usize>, ys: Seq<usize>)
    requires
        sorted_strict(xs),
        sorted_strict(ys),
        ids_of(xs) == ids_of(ys),
    ensures
        xs == ys,
    decreases xs.len(),
{
    if xs.len() == 0 {
        if ys.len() > 0 {
            assert(ids_of(ys).contains(ys[0] as int));
            let q = choose|q: int| 0 <= q < xs.len() && (#[trigger] xs[q]) as int == ys[0] as int;
            assert(false);
        }
        assert(xs =~= ys);
    } else {
        assert(ids_of(xs).contains(xs[0] as int));
        let qy = choose|q: int| 0 <= q < ys.len() && (#[trigger] ys[q]) as int == xs[0] as int;
        assert(ids_of(ys).contains(ys[0] as int));
        let qx = choose|q: int| 0 <= q < xs.len() && (#[trigger] xs[q]) as int == ys[0] as int;
        assert(xs[0] <= xs[qx]);
        assert(ys[0] <= ys[qy]);
        assert(xs[0] == ys[0]);
        let xt = xs.drop_first();
        let yt = ys.drop_first();
        assert forall|x: int| ids_of(xt).contains(x) implies ids_of(yt).contains(x) by {
            let q = choose|q: int| 0 <= q < xt.len() && (#[trigger] xt[q]) as int == x;
            assert(xs[q + 1] as int == x);
            assert(xs[0] < xs[q + 1]);
            assert(ids_of(xs).contains(x));
            let p = choose|p: int| 0 <= p < ys.len() && (#[trigger] ys[p]) as int == x;
            assert(p != 0);
            assert(yt[p - 1] as int == x);
        }
        assert forall|x: int| ids_of(yt).contains(x) implies ids_of(xt).contains(x) by {
            let q = choose|q: int| 0 <= q < yt.len() && (#[trigger] yt[q]) as int == x;
            assert(ys[q + 1] as int == x);
            assert(ys[0] < ys[q + 1]);
            assert(ids_of(ys).contains(x));
            let p = choose|p: int| 0 <= p < xs.len() && (#[trigger] xs[p]) as int == x;
            assert(p != 0);
            assert(xt[p - 1] as int == x);
        }
        assert(ids_of(xt) =~= ids_of(yt));
        lemma_sorted_unique_canonical(xt, yt);
        assert forall|k: int| 0 <= k < xs.len() implies xs[k] == ys[k] by {
            if k > 0 {
                assert(xt[k - 1] == yt[k - 1]);
            }
        }
        assert(xs =~= ys);
    }
}

/// Nodes that can accept new values once the graph has been defined.
pub trait DataInput<E: Scalar, T> {
    /// When a new value may be assigned.
    spec fn set_pre(&self, g: Graph<E>, value: T) -> bool;

    /// What the assignment did to the graph.
    spec fn set_post(&self, pre: Graph<E>, post: Graph<E>, value: T) -> bool;

    /// Set the value of this node.
    fn set_value(&self, g: &mut Graph<E>, value: T)
        requires
            self.set_pre(*old(g), value),
        ensures
            self.set_post(*old(g), *final(g), value),
    ;
}

impl<'a, E: Scalar> DataInput<E, &'a Tensor<E>> for Variable {
    /// The handle names a dense input leaf or a parameter, and the new
    /// value keeps the originally established shape.
    open spec fn set_pre(&self, g: Graph<E>, value: &'a Tensor<E>) -> bool {
        &&& g.wf()
        &&& self.wf(&g)
        &&& (g.op_of(self.spec_node()) is Input || g.op_of(self.spec_node()) is Parameter)
        &&& value.wf()
        &&& value.spec_rows() == g.rows_of(self.spec_node())
        &&& value.spec_cols() == g.cols_of(self.spec_node())
    }

    /// The node's value is replaced; everything else survives: no other
    /// node's record, no gradient state, and no other parameter's value is
    /// modified.
    open spec fn set_post(&self, pre: Graph<E>, post: Graph<E>, value: &'a Tensor<E>) -> bool {
        &&& post.wf()
        &&& self.wf(&post)
        &&& post.node_count() == pre.node_count()
        &&& post.param_count() == pre.param_count()
        &&& post.val(self.spec_node()) == value@
        &&& post.rows_of(self.spec_node()) == pre.rows_of(self.spec_node())
        &&& post.cols_of(self.spec_node()) == pre.cols_of(self.spec_node())
        &&& forall|j: int|
            0 <= j < pre.node_count() && j != self.spec_node() ==> #[trigger] post.node_at(j)
                == pre.node_at(j)
        &&& forall|q: int|
            0 <= q < pre.param_count() ==> #[trigger] post.param_grad(q) == pre.param_grad(q)
        &&& forall|q: int|
            0 <= q < pre.param_count() && q != pre.pid_of(self.spec_node())
                ==> #[trigger] post.param_value(q) == pre.param_value(q)
    }

    fn set_value(&self, g: &mut Graph<E>, value: &'a Tensor<E>) {
        let ghost pre = *g;
        let o = g.op_at(self.node);
        match o {
            Op::Input => {
                g.set_input_value(self.node, value);
                proof {
                    assert forall|j: int|
                        0 <= j < pre.node_count() implies #[trigger] g.op_of(j) == pre.op_of(
                        j,
                    ) by {
                        if j != self.spec_node() {
                            assert(g.node_at(j) == pre.node_at(j));
                        }
                    }
                    lemma_param_nodes_stable(&pre, g, self.spec_node());
                    assert forall|j: int|
                0 <= j < pre.node_count() && j != self.spec_node() implies #[trigger] g.node_at(j)
                            == pre.node_at(j) by {}
                    assert forall|q: int|
                0 <= q < pre.param_count() implies #[trigger] g.param_grad(q) == pre.param_grad(
                q,
                    ) by {
                                assert(g.param_at(q) == pre.param_at(q));
                    }
                    assert forall|q: int|
                0 <= q < pre.param_count() implies #[trigger] g.param_value(q) == pre.param_value(
                q,
                    ) by {
                                assert(g.param_at(q) == pre.param_at(q));
                    }

                    assert forall|k: int|
                        0 <= k < self.spec_params().len() implies (
                        #[trigger] self.spec_params()[k] as int) < g.node_count() && g.op_of(
                        self.spec_params()[k] as int,
                    ) is Parameter by {
                        assert(g.op_of(self.spec_params()[k] as int) == pre.op_of(
                            self.spec_params()[k] as int,
                        ));
                    }
                    assert(self.set_post(pre, *g, value));
                }
            },
            _ => {
                g.set_param_value(self.node, value);
                proof {
                    lemma_ops_preserved_after_extend(&pre, g);
                    lemma_param_nodes_stable(&pre, g, self.spec_node());
                    assert forall|k: int|
                        0 <= k < self.spec_params().len() implies (
                        #[trigger] self.spec_params()[k] as int) < g.node_count() && g.op_of(
                        self.spec_params()[k] as int,
                    ) is Parameter by {
                        assert(g.op_of(self.spec_params()[k] as int) == pre.op_of(
                            self.spec_params()[k] as int,
                        ));
                    }
                    assert forall|j: int|
                        0 <= j < pre.node_count() && j != self.spec_node() implies #[trigger] g
                            .node_at(j) == pre.node_at(j) by {
                        assert(g.node_at(j) == pre.node_at(j));
                    }
                    assert forall|q: int|
                        0 <= q < pre.param_count() implies #[trigger] g.param_grad(q)
                            == pre.param_grad(q) by {
                        if q != pre.pid_of(self.spec_node()) {
                            assert(g.param_at(q) == pre.param_at(q));
                        }
                    }
                    assert forall|q: int|
                        0 <= q < pre.param_count() && q != pre.pid_of(self.spec_node())
                            implies #[trigger] g.param_value(q) == pre.param_value(q) by {
                        assert(g.param_at(q) == pre.param_at(q));
                    }
                    assert(g.val(self.spec_node()) == value@);
                    assert(g.rows_of(self.spec_node()) == pre.rows_of(self.spec_node()));
                    assert(g.cols_of(self.spec_node()) == pre.cols_of(self.spec_node()));
                    assert(self.set_post(pre, *g, value));
                }
            },
        }
    }
}

impl<E: Scalar> DataInput<E, E> for Variable {
    /// The handle names a nonempty dense input leaf; the scalar lands in
    /// its first cell.
    open spec fn set_pre(&self, g: Graph<E>, value: E) -> bool {
        &&& g.wf()
        &&& self.wf(&g)
        &&& g.op_of(self.spec_node()) is Input
        &&& g.rows_of(self.spec_node()) >= 1
        &&& g.cols_of(self.spec_node()) >= 1
    }

    /// The first cell of the leaf's value is replaced; no other node's
    /// record, no gradient state, and no parameter is modified.
    open spec fn set_post(&self, pre: Graph<E>, post: Graph<E>, value: E) -> bool {
        &&& post.wf()
        &&& self.wf(&post)
        &&& post.node_count() == pre.node_count()
        &&& post.param_count() == pre.param_count()
        &&& post.val(self.spec_node()) == pre.val(self.spec_node()).update(0, value)
        &&& post.rows_of(self.spec_node()) == pre.rows_of(self.spec_node())
        &&& post.cols_of(self.spec_node()) == pre.cols_of(self.spec_node())
        &&& forall|j: int|
            0 <= j < pre.node_count() && j != self.spec_node() ==> #[trigger] post.node_at(j)
                == pre.node_at(j)
        &&& forall|q: int|
            0 <= q < pre.param_count() ==> #[trigger] post.param_grad(q) == pre.param_grad(q)
        &&& forall|q: int|
            0 <= q < pre.param_count() && q != pre.pid_of(self.spec_node())
                ==> #[trigger] post.param_value(q) == pre.param_value(q)
    }

    fn set_value(&self, g: &mut Graph<E>, value: E) {
        let ghost pre = *g;
        let mut t = g.value_ref(self.node).duplicate();
        t.set(0, 0, value);
        g.set_input_value(self.node, &t);
        proof {
            assert forall|j: int|
                0 <= j < pre.node_count() && j != self.spec_node() implies #[trigger] g.node_at(j)
                    == pre.node_at(j) by {}
            assert forall|q: int|
                0 <= q < pre.param_count() implies #[trigger] g.param_grad(q) == pre.param_grad(
                q,
            ) by {
                assert(g.param_at(q) == pre.param_at(q));
            }
            assert forall|q: int|
                0 <= q < pre.param_count() implies #[trigger] g.param_value(q) == pre.param_value(
                q,
            ) by {
                assert(g.param_at(q) == pre.param_at(q));
            }
            assert forall|j: int|
                0 <= j < pre.node_count() implies #[trigger] g.op_of(j) == pre.op_of(j) by {
                if j != self.spec_node() {
                    assert(g.node_at(j) == pre.node_at(j));
                }
            }
            lemma_param_nodes_stable(&pre, g, self.spec_node());
            assert forall|k: int|
                0 <= k < self.spec_params().len() implies (
                #[trigger] self.spec_params()[k] as int) < g.node_count() && g.op_of(
                self.spec_params()[k] as int,
            ) is Parameter by {
                assert(g.op_of(self.spec_params()[k] as int) == pre.op_of(
                    self.spec_params()[k] as int,
                ));
            }
            assert(self.set_post(pre, *g, value));
        }
    }
}

impl<'a, E: Scalar> DataInput<E, &'a Vec<usize>> for Variable {
    /// The handle names an index-input leaf and the new list keeps every
    /// dependent row-gather node shaped and in range.
    open spec fn set_pre(&self, g: Graph<E>, value: &'a Vec<usize>) -> bool {
        &&& g.wf()
        &&& self.wf(&g)
        &&& g.op_of(self.spec_node()) is IndexInput
        &&& g.index_update_ok(self.spec_node(), value@)
    }

    /// The whole index list is replaced; no other node's record, no
    /// gradient state, and no parameter is modified.
    open spec fn set_post(&self, pre: Graph<E>, post: Graph<E>, value: &'a Vec<usize>) -> bool {
        &&& post.wf()
        &&& self.wf(&post)
        &&& post.node_count() == pre.node_count()
        &&& post.param_count() == pre.param_count()
        &&& post.idx_of(self.spec_node()) == value@
        &&& forall|j: int|
            0 <= j < pre.node_count() && j != self.spec_node() ==> #[trigger] post.node_at(j)
                == pre.node_at(j)
        &&& forall|q: int|
            0 <= q < pre.param_count() ==> #[trigger] post.param_grad(q) == pre.param_grad(q)
        &&& forall|q: int|
            0 <= q < pre.param_count() && q != pre.pid_of(self.spec_node())
                ==> #[trigger] post.param_value(q) == pre.param_value(q)
    }

    fn set_value(&self, g: &mut Graph<E>, value: &'a Vec<usize>) {
        let ghost pre = *g;
        g.set_index_value(self.node, value);
        proof {
            assert forall|j: int|
                0 <= j < pre.node_count() && j != self.spec_node() implies #[trigger] g.node_at(j)
                    == pre.node_at(j) by {}
            assert forall|q: int|
                0 <= q < pre.param_count() implies #[trigger] g.param_grad(q) == pre.param_grad(
                q,
            ) by {
                assert(g.param_at(q) == pre.param_at(q));
            }
            assert forall|q: int|
                0 <= q < pre.param_count() implies #[trigger] g.param_value(q) == pre.param_value(
                q,
            ) by {
                assert(g.param_at(q) == pre.param_at(q));
            }
            assert forall|j: int|
                0 <= j < pre.node_count() implies #[trigger] g.op_of(j) == pre.op_of(j) by {
                if j != self.spec_node() {
                    assert(g.node_at(j) == pre.node_at(j));
                }
            }
            lemma_param_nodes_stable(&pre, g, self.spec_node());
            assert forall|k: int|
                0 <= k < self.spec_params().len() implies (
                #[trigger] self.spec_params()[k] as int) < g.node_count() && g.op_of(
                self.spec_params()[k] as int,
            ) is Parameter by {
                assert(g.op_of(self.spec_params()[k] as int) == pre.op_of(
                    self.spec_params()[k] as int,
                ));
            }
            assert(self.set_post(pre, *g, value));
        }
    }
}

impl<E: Scalar> DataInput<E, usize> for Variable {
    /// The handle names an index-input leaf and the one-element list keeps
    /// every dependent row-gather node shaped and in range.
    open spec fn set_pre(&self, g: Graph<E>, value: usize) -> bool {
        &&& g.wf()
        &&& self.wf(&g)
        &&& g.op_of(self.spec_node()) is IndexInput
        &&& g.index_update_ok(self.spec_node(), seq![value])
    }

    /// The index list is replaced by the one-element list; no other node's
    /// record, no gradient state, and no parameter is modified.
    open spec fn set_post(&self, pre: Graph<E>, post: Graph<E>, value: usize) -> bool {
        &&& post.wf()
        &&& self.wf(&post)
        &&& post.node_count() == pre.node_count()
        &&& post.param_count() == pre.param_count()
        &&& post.idx_of(self.spec_node()) == seq![value]
        &&& forall|j: int|
            0 <= j < pre.node_count() && j != self.spec_node() ==> #[trigger] post.node_at(j)
                == pre.node_at(j)
        &&& forall|q: int|
            0 <= q < pre.param_count() ==> #[trigger] post.param_grad(q) == pre.param_grad(q)
        &&& forall|q: int|
            0 <= q < pre.param_count() && q != pre.pid_of(self.spec_node())
                ==> #[trigger] post.param_value(q) == pre.param_value(q)
    }

    fn set_value(&self, g: &mut Graph<E>, value: usize) {
        let ghost pre = *g;
        let mut v: Vec<usize> = Vec::new();
        v.push(value);
        proof {
            assert(v@ =~= seq![value]);
        }
        g.set_index_value(self.node, &v);
        proof {
            assert forall|j: int|
                0 <= j < pre.node_count() && j != self.spec_node() implies #[trigger] g.node_at(j)
                    == pre.node_at(j) by {}
            assert forall|q: int|
                0 <= q < pre.param_count() implies #[trigger] g.param_grad(q) == pre.param_grad(
                q,
            ) by {
                assert(g.param_at(q) == pre.param_at(q));
            }
            assert forall|q: int|
                0 <= q < pre.param_count() implies #[trigger] g.param_value(q) == pre.param_value(
                q,
            ) by {
                assert(g.param_at(q) == pre.param_at(q));
            }
            assert forall|j: int|
                0 <= j < pre.node_count() implies #[trigger] g.op_of(j) == pre.op_of(j) by {
                if j != self.spec_node() {
                    assert(g.node_at(j) == pre.node_at(j));
                }
            }
            lemma_param_nodes_stable(&pre, g, self.spec_node());
            assert forall|k: int|
                0 <= k < self.spec_params().len() implies (
                #[trigger] self.spec_params()[k] as int) < g.node_count() && g.op_of(
                self.spec_params()[k] as int,
            ) is Parameter by {
                assert(g.op_of(self.spec_params()[k] as int) == pre.op_of(
                    self.spec_params()[k] as int,
                ));
            }
            assert(self.set_post(pre, *g, value));
        }
    }
}

/// Handles stay well formed across operations that keep every operator
/// tag.
proof fn lemma_two_vars_ops<E: Scalar>(a: &Variable, b: &Variable, g1: &Graph<E>, g2: &Graph<E>)
    requires
        a.wf(g1),
        b.wf(g1),
        g1.node_count() <= g2.node_count(),
        forall|j: int| 0 <= j < g1.node_count() ==> #[trigger] g2.op_of(j) == g1.op_of(j),
    ensures
        a.wf(g2),
        b.wf(g2),
{
    lemma_param_nodes_stable(g1, g2, a.spec_node());
    lemma_param_nodes_stable(g1, g2, b.spec_node());
    assert forall|k: int|
        0 <= k < a.spec_params().len() implies (#[trigger] a.spec_params()[k] as int)
        < g2.node_count() && g2.op_of(a.spec_params()[k] as int) is Parameter by {
        assert(g2.op_of(a.spec_params()[k] as int) == g1.op_of(a.spec_params()[k] as int));
    }
    assert forall|k: int|
        0 <= k < b.spec_params().len() implies (#[trigger] b.spec_params()[k] as int)
        < g2.node_count() && g2.op_of(b.spec_params()[k] as int) is Parameter by {
        assert(g2.op_of(b.spec_params()[k] as int) == g1.op_of(b.spec_params()[k] as int));
    }
}

/// One oracle probe, seen from a fixed base state: the skeleton outside
/// the probed parameter is kept, and the gradient state of every parameter
/// outside the output's list is kept.
proof fn lemma_probe_frame<E: Scalar>(
    base0: &Graph<E>,
    gl: &Graph<E>,
    ga: &Graph<E>,
    output: &Variable,
    p0: int,
    seed: Seq<E>,
)
    requires
        base0.node_count() == gl.node_count(),
        gl.node_count() == ga.node_count(),
        base0.param_count() == ga.param_count(),
        base0.same_skeleton_except(gl, base0.node_count() as int, p0),
        gl.same_skeleton_except(ga, base0.node_count() as int, p0),
        forall|j: int| 0 <= j < ga.node_count() ==> #[trigger] ga.node_wf(j),
        output.wf(ga),
        output.spec_node() < base0.node_count(),
        ga.acc_states() == backward_model(
            ga,
            output.spec_node(),
            seed,
            states_with_reset(gl, output.spec_params()),
        ),
        grads_untouched_outside(base0, gl, output.spec_params()),
    ensures
        base0.same_skeleton_except(ga, base0.node_count() as int, p0),
        grads_untouched_outside(base0, ga, output.spec_params()),
{
    let nn = base0.node_count() as int;
    let list = output.spec_params();
    lemma_skeleton_except_trans(base0, gl, ga, nn, p0);
    assert forall|p: int|
        0 <= p < base0.param_count() && !touches_param(base0, list, p) implies {
            &&& #[trigger] ga.param_grad(p).dense_model() == base0.param_grad(p).dense_model()
            &&& ga.param_grad(p).sparse_model() == base0.param_grad(p).sparse_model()
        } by {
        assert(!touches_param(ga, list, p)) by {
            if touches_param(ga, list, p) {
                let k = choose|k: int|
                    0 <= k < list.len() && ga.pid_of(#[trigger] list[k] as int) == p;
                assert(base0.op_of(list[k] as int) == gl.op_of(list[k] as int));
                assert(gl.op_of(list[k] as int) == ga.op_of(list[k] as int));
                assert(base0.pid_of(list[k] as int) == p);
            }
        }
        lemma_backward_model_len(ga, output.spec_node(), seed, states_with_reset(gl, list));
        lemma_backward_model_untouched(
            ga,
            output,
            seed,
            states_with_reset(gl, list),
            p,
        );
        assert(!touches_param(gl, list, p)) by {
            if touches_param(gl, list, p) {
                let k = choose|k: int|
                    0 <= k < list.len() && gl.pid_of(#[trigger] list[k] as int) == p;
                assert(base0.op_of(list[k] as int) == gl.op_of(list[k] as int));
                assert(base0.pid_of(list[k] as int) == p);
            }
        }
        assert(states_with_reset(gl, list)[p] == (
            gl.param_grad(p).dense_model(),
            gl.param_grad(p).sparse_model(),
        ));
        assert(ga.acc_states()[p] == (
            ga.param_grad(p).dense_model(),
            ga.param_grad(p).sparse_model(),
        ));
    }
}

/// Compute central finite-difference gradient estimates of `output` with
/// respect to the parameter `input`, next to the analytically accumulated
/// gradient. Each element of the parameter is perturbed by plus and minus
/// `half_delta`, the forward pass is rerun with gradients zeroed, and the
/// change of the output's sum divided by `delta` is the estimate. The pair
/// returned is `(central difference estimates, analytic gradient)`, both of
/// the parameter's shape; use it to verify the correctness of gradient
/// computations numerically.
#[verifier::rlimit(100)]
pub fn finite_difference<E: Scalar>(
    g: &mut Graph<E>,
    input: &Variable,
    output: &Variable,
    delta: E,
    half_delta: E,
) -> (r: (Tensor<E>, Tensor<E>))
    requires
        old(g).wf(),
        input.wf(old(g)),
        output.wf(old(g)),
        old(g).op_of(input.spec_node()) is Parameter,
        old(g).tensor_node(output.spec_node()),
    ensures
        final(g).wf(),
        input.wf(final(g)),
        output.wf(final(g)),
        final(g).node_count() == old(g).node_count(),
        final(g).param_count() == old(g).param_count(),
        old(g).same_skeleton_upto(final(g), old(g).node_count() as int),
        forall|q: int|
            0 <= q < old(g).param_count() ==> #[trigger] final(g).param_value(q) == old(
                g,
            ).param_value(q),
        forall|k: int|
            0 <= k < output.spec_params().len() ==> #[trigger] final(g).param_grad(
                final(g).pid_of(output.spec_params()[k] as int),
            ).is_reset(
                old(g).rows_of(output.spec_params()[k] as int),
                old(g).cols_of(output.spec_params()[k] as int),
            ),
        grads_untouched_outside(old(g), final(g), output.spec_params()),
        r.0.wf(),
        r.0.spec_rows() == old(g).rows_of(input.spec_node()),
        r.0.spec_cols() == old(g).cols_of(input.spec_node()),
        forall|t: int|
            0 <= t < old(g).rows_of(input.spec_node()) * old(g).cols_of(input.spec_node())
                ==> #[trigger] r.0@[t] == central_estimate(
                old(g),
                input.spec_node(),
                output.spec_node(),
                t,
                delta,
                half_delta,
            ),
        r.1.wf(),
        r.1.spec_rows() == old(g).rows_of(input.spec_node()),
        r.1.spec_cols() == old(g).cols_of(input.spec_node()),
        r.1@ == state_grad(
            backward_model(
                final(g),
                output.spec_node(),
                seq_const(
                    old(g).rows_of(output.spec_node()) * old(g).cols_of(output.spec_node()),
                    E::spec_one(),
                ),
                states_with_reset(final(g), output.spec_params()),
            )[old(g).pid_of(input.spec_node())],
            old(g).cols_of(input.spec_node()),
        ),
{
    let inode = input.node();
    let onode = output.node();
    let ghost s0 = *old(g);
    let ghost nn = s0.node_count() as int;
    let ghost ipid = s0.pid_of(inode as int);
    let ghost list = output.spec_params();
    proof {
        assert(s0.node_wf(inode as int));
        assert(0 <= ipid < s0.param_count());
        lemma_skeleton_refl_like(&s0, &s0, nn);
        lemma_skeleton_to_except(&s0, &s0, nn, ipid);
    }
    let initial = g.value_of(inode);
    let rows = initial.rows();
    let cols = initial.cols();
    let n = initial.count();
    let orows = g.value_ref(onode).rows();
    let ocols = g.value_ref(onode).cols();
    let mut central = Tensor::zeros(rows, cols);
    proof {
        assert(initial@ == s0.param_value(ipid));
    }
    let mut row: usize = 0;
    while row < rows
        invariant
            row <= rows,
            g.wf(),
            input.wf(g),
            output.wf(g),
            s0 == *old(g),
            s0.wf(),
            input.wf(&s0),
            output.wf(&s0),
            nn == s0.node_count() as int,
            ipid == s0.pid_of(inode as int),
            list == output.spec_params(),
            g.node_count() == s0.node_count(),
            g.param_count() == s0.param_count(),
            inode == input.spec_node(),
            onode == output.spec_node(),
            s0.op_of(inode as int) is Parameter,
            s0.tensor_node(onode as int),
            g.op_of(input.spec_node()) is Parameter,
            g.tensor_node(output.spec_node()),
            g.rows_of(input.spec_node()) == rows,
            g.cols_of(input.spec_node()) == cols,
            g.rows_of(output.spec_node()) == orows,
            g.cols_of(output.spec_node()) == ocols,
            rows == s0.rows_of(inode as int),
            cols == s0.cols_of(inode as int),
            orows == s0.rows_of(onode as int),
            ocols == s0.cols_of(onode as int),
            initial.wf(),
            initial.spec_rows() == rows,
            initial.spec_cols() == cols,
            initial@ == s0.param_value(ipid),
            central.wf(),
            central.spec_rows() == rows,
            central.spec_cols() == cols,
            s0.same_skeleton_except(g, nn, ipid),
            g.pid_of(inode as int) == ipid,
            grads_untouched_outside(&s0, g, list),
            forall|t: int|
                0 <= t < row * cols ==> #[trigger] central@[t] == central_estimate(
                    &s0,
                    inode as int,
                    onode as int,
                    t,
                    delta,
                    half_delta,
                ),
        decreases rows - row,
    {
        let mut col: usize = 0;
        while col < cols
            invariant
                row < rows,
                col <= cols,
                g.wf(),
                input.wf(g),
                output.wf(g),
                s0 == *old(g),
                s0.wf(),
                input.wf(&s0),
                output.wf(&s0),
                nn == s0.node_count() as int,
                ipid == s0.pid_of(inode as int),
                list == output.spec_params(),
                g.node_count() == s0.node_count(),
                g.param_count() == s0.param_count(),
                inode == input.spec_node(),
                onode == output.spec_node(),
                s0.op_of(inode as int) is Parameter,
                s0.tensor_node(onode as int),
                g.op_of(input.spec_node()) is Parameter,
                g.tensor_node(output.spec_node()),
                g.rows_of(input.spec_node()) == rows,
                g.cols_of(input.spec_node()) == cols,
                g.rows_of(output.spec_node()) == orows,
                g.cols_of(output.spec_node()) == ocols,
                rows == s0.rows_of(inode as int),
                cols == s0.cols_of(inode as int),
                orows == s0.rows_of(onode as int),
                ocols == s0.cols_of(onode as int),
                initial.wf(),
                initial.spec_rows() == rows,
                initial.spec_cols() == cols,
                initial@ == s0.param_value(ipid),
                central.wf(),
                central.spec_rows() == rows,
                central.spec_cols() == cols,
                s0.same_skeleton_except(g, nn, ipid),
                g.pid_of(inode as int) == ipid,
                grads_untouched_outside(&s0, g, list),
                forall|t: int|
                    0 <= t < row * cols + col ==> #[trigger] central@[t] == central_estimate(
                        &s0,
                        inode as int,
                        onode as int,
                        t,
                        delta,
                        half_delta,
                    ),
            decreases cols - col,
        {
            let ghost k = row * (cols as int) + col;
            proof {
                lemma_cell_index(rows as int, cols as int, row as int, col as int);
            }
            let ghost gl1 = *g;
            let positive_difference = {
                let mut changed = initial.duplicate();
                let x = changed.get(row, col).add(&half_delta);
                changed.set(row, col, x);
                proof {
                    assert(changed@ == initial@.update(k, initial@[k].spec_add(half_delta)));
                }
                run_probe(g, input, output, &changed)
            };
            let ghost ga1 = *g;
            proof {
                assert(gl1.pid_of(inode as int) == ipid);
                lemma_probe_frame(
                    &s0,
                    &gl1,
                    &ga1,
                    output,
                    ipid,
                    seq_const(
                        gl1.rows_of(onode as int) * gl1.cols_of(onode as int),
                        E::spec_one(),
                    ),
                );
                assert forall|j: int| 0 <= j <= onode as int implies #[trigger] gl1.node_wf(
                    j,
                ) by {}
                lemma_eval_sub_stable(
                    &s0,
                    &gl1,
                    onode as int,
                    ipid,
                    initial@.update(k, initial@[k].spec_add(half_delta)),
                );
                assert forall|j: int| 0 <= j <= onode as int implies #[trigger] s0.node_wf(
                    j,
                ) by {}
                assert(positive_difference@ == eval_sub(
                    &s0,
                    onode as int,
                    ipid,
                    initial@.update(k, initial@[k].spec_add(half_delta)),
                ));
            }
            let negative_difference = {
                let mut changed = initial.duplicate();
                let x = changed.get(row, col).sub(&half_delta);
                changed.set(row, col, x);
                proof {
                    assert(changed@ == initial@.update(k, initial@[k].spec_sub(half_delta)));
                }
                run_probe(g, input, output, &changed)
            };
            let ghost ga2 = *g;
            proof {
                assert(ga1.pid_of(inode as int) == ipid);
                lemma_probe_frame(
                    &s0,
                    &ga1,
                    &ga2,
                    output,
                    ipid,
                    seq_const(
                        ga1.rows_of(onode as int) * ga1.cols_of(onode as int),
                        E::spec_one(),
                    ),
                );
                assert forall|j: int| 0 <= j <= onode as int implies #[trigger] ga1.node_wf(
                    j,
                ) by {}
                lemma_eval_sub_stable(
                    &s0,
                    &ga1,
                    onode as int,
                    ipid,
                    initial@.update(k, initial@[k].spec_sub(half_delta)),
                );
                assert(negative_difference@ == eval_sub(
                    &s0,
                    onode as int,
                    ipid,
                    initial@.update(k, initial@[k].spec_sub(half_delta)),
                ));
                assert(grads_untouched_outside(&s0, g, list));
            }
            let diff = Tensor::map_binary(BinFn::Sub, &positive_difference, &negative_difference);
            let summed = diff.sum_all();
            let estimate = summed.get(0, 0).div(&delta);
            proof {
                assert(estimate == central_estimate(
                    &s0,
                    inode as int,
                    onode as int,
                    k,
                    delta,
                    half_delta,
                ));
            }
            central.set(row, col, estimate);
            proof {
                assert forall|t: int|
                    0 <= t < row * cols + col + 1 implies #[trigger] central@[t]
                        == central_estimate(&s0, inode as int, onode as int, t, delta, half_delta)
                    by {}
            }
            col = col + 1;
        }
        proof {
            assert((row + 1) * (cols as int) == row * (cols as int) + cols) by (nonlinear_arith);
        }
        row = row + 1;
    }
    let ghost gl3 = *g;
    let gradient = {
        let _restore = run_probe(g, input, output, &initial);
        g.gradient_at(inode)
    };
    let ghost gr = *g;
    proof {
        assert(gl3.pid_of(inode as int) == ipid);
        lemma_probe_frame(
            &s0,
            &gl3,
            &gr,
            output,
            ipid,
            seq_const(gl3.rows_of(onode as int) * gl3.cols_of(onode as int), E::spec_one()),
        );
        // The probe restored the parameter, so the whole skeleton matches.
        assert(gr.param_value(ipid) == initial@);
        assert forall|q: int|
            0 <= q < s0.param_count() implies #[trigger] gr.param_value(q) == s0.param_value(
            q,
        ) by {}
        assert forall|j: int|
            0 <= j < nn implies {
                &&& #[trigger] s0.op_of(j) == gr.op_of(j)
                &&& s0.rows_of(j) == gr.rows_of(j)
                &&& s0.cols_of(j) == gr.cols_of(j)
                &&& (s0.op_of(j) is IndexInput ==> s0.idx_of(j) == gr.idx_of(j))
                &&& s0.ng(j) == gr.ng(j)
                &&& (s0.op_of(j) is Input ==> s0.val(j) == gr.val(j))
            } by {
            assert(s0.op_of(j) == gr.op_of(j));
        }
        assert(s0.same_skeleton_upto(&gr, nn));
        assert(gradient@ == state_grad(gr.acc_states()[ipid], cols as nat));
    }
    let ghost s4 = *g;
    output.zero_gradient(g);
    proof {
        lemma_backward_frame(&s4, g);
        assert forall|j: int|
            0 <= j < s4.node_count() implies #[trigger] g.op_of(j) == s4.op_of(j) by {
            assert(g.node_at(j) == s4.node_at(j));
        }
        lemma_two_vars_ops(input, output, &s4, g);
        lemma_skeleton_refl_like(&s4, g, nn);
        lemma_skeleton_trans(&s0, &s4, g, nn);
        // The gradient value read is the backward model over the final graph.
        assert forall|j: int| 0 <= j < nn implies #[trigger] s4.node_wf(j) by {}
        lemma_model_stable(
            &s4,
            g,
            onode as int,
            seq_const(orows as nat * ocols as nat, E::spec_one()),
            states_with_reset(&gl3, list),
        );
        assert(gl3.rows_of(onode as int) == orows as nat);
        assert(gl3.cols_of(onode as int) == ocols as nat);
        assert(s4.acc_states() == backward_model(
            g,
            onode as int,
            seq_const(orows as nat * ocols as nat, E::spec_one()),
            states_with_reset(&gl3, list),
        ));
        // The reset vector over the loop-end state equals the one over the
        // final state: listed entries reset to the same shapes, unlisted
        // entries carried from the entry state on both sides.
        assert forall|p: int|
            0 <= p < s0.param_count() implies states_with_reset(&gl3, list)[p]
                == states_with_reset(g, list)[p] by {
            assert(touches_param(&gl3, list, p) == touches_param(g, list, p)) by {
                if touches_param(&gl3, list, p) {
                    let kk = choose|kk: int|
                        0 <= kk < list.len() && gl3.pid_of(#[trigger] list[kk] as int) == p;
                    assert(s0.op_of(list[kk] as int) == gl3.op_of(list[kk] as int));
                    assert(s0.op_of(list[kk] as int) == g.op_of(list[kk] as int));
                    assert(g.pid_of(list[kk] as int) == p);
                }
                if touches_param(g, list, p) {
                    let kk = choose|kk: int|
                        0 <= kk < list.len() && g.pid_of(#[trigger] list[kk] as int) == p;
                    assert(s0.op_of(list[kk] as int) == gl3.op_of(list[kk] as int));
                    assert(s0.op_of(list[kk] as int) == g.op_of(list[kk] as int));
                    assert(gl3.pid_of(list[kk] as int) == p);
                }
            }
            if touches_param(&gl3, list, p) {
                let kk = choose|kk: int|
                    0 <= kk < list.len() && gl3.pid_of(#[trigger] list[kk] as int) == p;
                let nt = list[kk] as int;
                assert(s0.node_wf(nt));
                assert(s0.op_of(nt) == gl3.op_of(nt));
                assert(s0.op_of(nt) == g.op_of(nt));
                assert(gl3.rows_of(nt) == s0.rows_of(nt));
                assert(g.rows_of(nt) == s0.rows_of(nt));
                assert(gl3.param_rows(p) == gl3.rows_of(nt));
                assert(g.param_rows(p) == g.rows_of(nt));
                assert(gl3.cols_of(nt) == s0.cols_of(nt));
                assert(g.cols_of(nt) == s0.cols_of(nt));
                assert(gl3.param_cols(p) == gl3.cols_of(nt));
                assert(g.param_cols(p) == g.cols_of(nt));
            } else {
                assert(gl3.param_grad(p).dense_model() == s0.param_grad(p).dense_model());
                assert(gl3.param_grad(p).sparse_model() == s0.param_grad(p).sparse_model());
                assert(!touches_param(&s4, list, p)) by {
                    if touches_param(&s4, list, p) {
                        let kk = choose|kk: int|
                            0 <= kk < list.len() && s4.pid_of(#[trigger] list[kk] as int) == p;
                        assert(s0.op_of(list[kk] as int) == s4.op_of(list[kk] as int));
                        assert(s0.op_of(list[kk] as int) == gl3.op_of(list[kk] as int));
                        assert(gl3.pid_of(list[kk] as int) == p);
                    }
                }
                assert forall|t: int|
                    0 <= t < list.len() implies s4.pid_of(#[trigger] list[t] as int) != p by {
                    assert(s0.op_of(list[t] as int) == s4.op_of(list[t] as int));
                    assert(s0.op_of(list[t] as int) == gl3.op_of(list[t] as int));
                }
                assert(g.param_grad(p) == s4.param_grad(p));
                assert(s4.param_grad(p).dense_model() == s0.param_grad(p).dense_model());
                assert(s4.param_grad(p).sparse_model() == s0.param_grad(p).sparse_model());
            }
        }
        assert(states_with_reset(&gl3, list) =~= states_with_reset(g, list));
        // Listed accumulators end reset, with their entry shapes.
        assert forall|kk: int|
            0 <= kk < list.len() implies #[trigger] g.param_grad(
            g.pid_of(list[kk] as int),
        ).is_reset(s0.rows_of(list[kk] as int), s0.cols_of(list[kk] as int)) by {
            assert(s0.op_of(list[kk] as int) == s4.op_of(list[kk] as int));
            assert(s0.op_of(list[kk] as int) == g.op_of(list[kk] as int));
            assert(s4.rows_of(list[kk] as int) == s0.rows_of(list[kk] as int));
            assert(s4.cols_of(list[kk] as int) == s0.cols_of(list[kk] as int));
            assert(g.param_grad(g.pid_of(list[kk] as int)).is_reset(
                s4.rows_of(list[kk] as int),
                s4.cols_of(list[kk] as int),
            ));
            assert(g.pid_of(list[kk] as int) == s4.pid_of(list[kk] as int));
        }
        // Unlisted accumulators keep their entry state.
        assert forall|p: int|
            0 <= p < s0.param_count() && !touches_param(&s0, list, p) implies {
                &&& g.param_grad(p).dense_model() == s0.param_grad(p).dense_model()
                &&& g.param_grad(p).sparse_model() == s0.param_grad(p).sparse_model()
            } by {
            assert forall|t: int|
                0 <= t < list.len() implies s4.pid_of(#[trigger] list[t] as int) != p by {
                assert(s0.op_of(list[t] as int) == s4.op_of(list[t] as int));
            }
            assert(g.param_grad(p) == s4.param_grad(p));
            assert(s4.param_grad(p).dense_model() == s0.param_grad(p).dense_model());
            assert(s4.param_grad(p).sparse_model() == s0.param_grad(p).sparse_model());
        }
        assert(grads_untouched_outside(&s0, g, list));
    }
    (central, gradient)
}

/// One probe of the oracle: zero the gradients of every parameter
/// reachable from `output`, assign `value` to the parameter `input`, rerun
/// the forward pass and the backward pass seeded with one, and return the
/// output's value — which provably equals the output's denotation with the
/// parameter overridden by `value`, while the gradient states provably
/// equal the backward model pushed over freshly reset accumulators.
#[verifier::rlimit(100)]
fn run_probe<E: Scalar>(
    g: &mut Graph<E>,
    input: &Variable,
    output: &Variable,
    value: &Tensor<E>,
) -> (r: Tensor<E>)
    requires
        old(g).wf(),
        input.wf(old(g)),
        output.wf(old(g)),
        old(g).op_of(input.spec_node()) is Parameter,
        old(g).tensor_node(output.spec_node()),
        value.wf(),
        value.spec_rows() == old(g).rows_of(input.spec_node()),
        value.spec_cols() == old(g).cols_of(input.spec_node()),
    ensures
        final(g).wf(),
        input.wf(final(g)),
        output.wf(final(g)),
        final(g).node_count() == old(g).node_count(),
        final(g).param_count() == old(g).param_count(),
        final(g).op_of(input.spec_node()) == old(g).op_of(input.spec_node()),
        final(g).op_of(output.spec_node()) == old(g).op_of(output.spec_node()),
        final(g).rows_of(input.spec_node()) == old(g).rows_of(input.spec_node()),
        final(g).cols_of(input.spec_node()) == old(g).cols_of(input.spec_node()),
        final(g).rows_of(output.spec_node()) == old(g).rows_of(output.spec_node()),
        final(g).cols_of(output.spec_node()) == old(g).cols_of(output.spec_node()),
        r.wf(),
        r.spec_rows() == old(g).rows_of(output.spec_node()),
        r.spec_cols() == old(g).cols_of(output.spec_node()),
        old(g).same_skeleton_except(
            final(g),
            old(g).node_count() as int,
            old(g).pid_of(input.spec_node()),
        ),
        final(g).param_value(old(g).pid_of(input.spec_node())) == value@,
        r@ == eval_sub(old(g), output.spec_node(), old(g).pid_of(input.spec_node()), value@),
        final(g).acc_states() == backward_model(
            final(g),
            output.spec_node(),
            seq_const(
                old(g).rows_of(output.spec_node()) * old(g).cols_of(output.spec_node()),
                E::spec_one(),
            ),
            states_with_reset(old(g), output.spec_params()),
        ),
{
    let inode = input.node();
    let onode = output.node();
    let ghost s0 = *g;
    let ghost nn = s0.node_count() as int;
    let ghost spid = s0.pid_of(inode as int);
    proof {
        assert(s0.node_wf(inode as int));
        assert(0 <= spid < s0.param_count());
    }
    output.zero_gradient(g);
    let ghost g1 = *g;
    proof {
        lemma_backward_frame(&s0, &g1);
        assert forall|j: int|
            0 <= j < nn implies #[trigger] g1.op_of(j) == s0.op_of(j) by {
            assert(g1.node_at(j) == s0.node_at(j));
        }
        lemma_two_vars_ops(input, output, &s0, &g1);
        lemma_skeleton_refl_like(&s0, &g1, nn);
        lemma_skeleton_to_except(&s0, &g1, nn, spid);
        assert(g1.op_of(inode as int) == s0.op_of(inode as int));
        assert(g1.op_of(onode as int) == s0.op_of(onode as int));
        // The gradient states after zeroing are exactly the reset vector.
        assert forall|p: int|
            0 <= p < s0.param_count() implies g1.acc_states()[p] == states_with_reset(
            &s0,
            output.spec_params(),
        )[p] by {
            if exists|k: int|
                0 <= k < output.spec_params().len() && s0.pid_of(
                    #[trigger] output.spec_params()[k] as int,
                ) == p {
                let k = choose|k: int|
                    0 <= k < output.spec_params().len() && s0.pid_of(
                        #[trigger] output.spec_params()[k] as int,
                    ) == p;
                let nt = output.spec_params()[k] as int;
                assert(s0.node_wf(nt));
                assert(g1.pid_of(nt) == s0.pid_of(nt));
                assert(g1.param_grad(g1.pid_of(nt)).is_reset(s0.rows_of(nt), s0.cols_of(nt)));
                assert(s0.rows_of(nt) == s0.param_rows(p));
                assert(s0.cols_of(nt) == s0.param_cols(p));
            } else {
                assert(g1.param_grad(p) == s0.param_grad(p));
            }
        }
        assert(g1.acc_states() =~= states_with_reset(&s0, output.spec_params()));
    }
    g.set_param_value(inode, value);
    let ghost g2 = *g;
    proof {
        lemma_ops_preserved_after_extend(&g1, &g2);
        lemma_two_vars_ops(input, output, &g1, &g2);
        assert(g2.rows_of(onode as int) == g1.rows_of(onode as int));
        assert(g2.rows_of(inode as int) == g1.rows_of(inode as int));
        // Only the probed parameter's value changed; no gradient state did.
        assert forall|q: int|
            0 <= q < g1.param_count() && q != spid implies #[trigger] g2.param_value(q)
                == g1.param_value(q) by {
            assert(g2.param_at(q) == g1.param_at(q));
        }
        assert forall|j: int|
            0 <= j < nn implies {
                &&& #[trigger] g1.op_of(j) == g2.op_of(j)
                &&& g1.rows_of(j) == g2.rows_of(j)
                &&& g1.cols_of(j) == g2.cols_of(j)
                &&& (g1.op_of(j) is IndexInput ==> g1.idx_of(j) == g2.idx_of(j))
                &&& g1.ng(j) == g2.ng(j)
                &&& (g1.op_of(j) is Input ==> g1.val(j) == g2.val(j))
            } by {
            assert(g2.node_at(j) == g1.node_at(j));
            assert(g2.rows_of(j) == g1.rows_of(j));
            match g1.nodes@[j].op {
                Op::Input => {
                    assert(g1.node_wf(j));
                },
                _ => {},
            }
        }
        assert(g1.same_skeleton_except(&g2, nn, spid));
        lemma_skeleton_except_trans(&s0, &g1, &g2, nn, spid);
        assert forall|p: int|
            0 <= p < g1.param_count() implies g2.acc_states()[p] == g1.acc_states()[p] by {
            if p != spid {
                assert(g2.param_at(p) == g1.param_at(p));
            } else {
                assert(g2.param_grad(spid) == g1.param_grad(spid));
            }
        }
        assert(g2.acc_states() =~= g1.acc_states());
    }
    output.forward(g);
    let ghost g3 = *g;
    proof {
        assert forall|j: int|
            0 <= j < nn implies #[trigger] g3.op_of(j) == g2.op_of(j) by {}
        lemma_two_vars_ops(input, output, &g2, &g3);
        assert(g2.op_of(inode as int) == g3.op_of(inode as int));
        assert(g2.op_of(onode as int) == g3.op_of(onode as int));
        lemma_skeleton_to_except(&g2, &g3, nn, spid);
        lemma_skeleton_except_trans(&s0, &g2, &g3, nn, spid);
        assert(g3.param_value(spid) == g2.param_value(spid));
        assert(g3.param_value(spid) == value@);
        assert forall|p: int|
            0 <= p < g2.param_count() implies g3.acc_states()[p] == g2.acc_states()[p] by {
            assert(g3.param_at(p) == g2.param_at(p));
        }
        assert(g3.acc_states() =~= g2.acc_states());
        // The forwarded cache is the overridden denotation.
        assert forall|j: int| 0 <= j <= onode as int implies #[trigger] g3.node_wf(j) by {}
        lemma_eval_sub_identity(&g3, onode as int, spid);
        assert(g3.val(onode as int) == eval_sub(&g3, onode as int, spid, value@));
        assert forall|j: int| 0 <= j <= onode as int implies #[trigger] s0.node_wf(j) by {}
        lemma_eval_sub_stable(&s0, &g3, onode as int, spid, value@);
        assert(g3.val(onode as int) == eval_sub(&s0, onode as int, spid, value@));
    }
    output.backward(g, E::one());
    proof {
        lemma_backward_frame(&g3, g);
        assert forall|j: int|
            0 <= j < nn implies #[trigger] g.op_of(j) == g3.op_of(j) by {
            assert(g.node_at(j) == g3.node_at(j));
        }
        lemma_two_vars_ops(input, output, &g3, g);
        assert(g.op_of(inode as int) == g3.op_of(inode as int));
        assert(g.op_of(onode as int) == g3.op_of(onode as int));
        lemma_skeleton_refl_like(&g3, g, nn);
        lemma_skeleton_to_except(&g3, g, nn, spid);
        lemma_skeleton_except_trans(&s0, &g3, g, nn, spid);
        assert forall|j: int| 0 <= j < nn implies #[trigger] g3.node_wf(j) by {}
        lemma_model_stable(
            &g3,
            g,
            onode as int,
            seq_const(g3.rows_of(onode as int) * g3.cols_of(onode as int), E::spec_one()),
            g3.acc_states(),
        );
        assert(g.val(onode as int) == g3.val(onode as int));
        assert(g.param_value(spid) == g3.param_value(spid));
    }
    g.value_of(onode)
}

} // verus!
