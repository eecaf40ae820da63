//! A reverse-mode, define-by-run automatic differentiation engine.
//!
//! Callers build a computation graph bottom-up by composing operations on
//! tensor-valued handles, run a forward pass to compute outputs, then run a
//! backward pass that accumulates gradients (dense and sparse) at trainable
//! parameter leaves.
//!
//! The numeric element type is abstract: the graph core is generic over a
//! [`Scalar`] collaborator that supplies the elementwise arithmetic, and the
//! contracts of the core are stated over that collaborator's uninterpreted
//! operations. Everything the core itself does — shape discipline, graph
//! construction, parameter deduplication, the forward recursion, the backward
//! recursion and gradient accumulation — is specified and verified.

pub mod accumulator;
pub mod graph;
pub mod scalar;
pub mod tensor;

pub use accumulator::{GradientAccumulator, GradientSink};
pub use graph::{
    finite_difference, merge_parameters, Axis, DataInput, Graph, IndexInputNode, InputNode, Op,
    ParameterNode, Variable,
};
pub use scalar::Scalar;
pub use tensor::{BinFn, Tensor, UnFn};
