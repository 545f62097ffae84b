//! Evaluation of combinational gate networks over pluggable logic values.
//!
//! A [`Circuit`] is built from a decoded [`yosys_parse::ModuleElem`]. Its
//! primary inputs are set, it is evaluated, and its outputs are read. The
//! values on the wires are of any type that supplies the seven operations of
//! [`traits::LogicOps`].

pub mod assemble;
pub mod binary;
pub mod circuit;
pub mod engine;
pub mod index;
pub mod laws;
pub mod node;
pub mod traits;
pub mod wire;
pub mod yosys_parse;

pub use assemble::ConfigurationError;
pub use circuit::{Circuit, LookupError};
pub use engine::AggregateEvalError;
pub use node::CircuitNode;
pub use wire::{ConnectionError, WireBank, WireIn, WireOut};
