//! Compiles a weighted computation graph into a staged schedule of
//! matrix-shaped steps, and keeps the memory of recurrent evaluation.
//!
//! The library is generic over the weight type `W` and the activation type
//! `A`: it decides which weight goes where and which activation applies to
//! which slot, and leaves the arithmetic to the caller.

pub mod network;
pub mod schedule;
pub mod fabricator;
pub mod unroll;
pub mod recurrent;
pub mod laws;
pub mod neat;

pub use fabricator::{FabricationError, FeedForwardMatrixFabricator, FeedForwardSparseMatrixFabricator};
pub use neat::{DependentNode, LoopingFabricator, NeatOriginalFabricator, NeatOriginalNetwork};
pub use network::{Edge, Net, NetworkLike, Node, Recurrent};
pub use recurrent::{
    MatrixRecurrentFabricator, RecurrentMatrixFabricator, RecurrentMemory, RecurrentSchedule,
    RecurrentSparseMatrixFabricator, SparseMatrixRecurrentFabricator,
};
pub use schedule::{Activation, Column, SparseStage, Stage, Term, Triplet, Weight};
pub use unroll::unroll;
