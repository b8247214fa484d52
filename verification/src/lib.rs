//! DERVA: deterministic epistemic reasoning kernel with verified contracts.

pub mod kernel;
pub mod fast;
pub mod egraph;
pub mod evidence;
pub mod causal;
pub mod constraints;
pub mod cli;
pub mod chaos;
pub mod codegen_jax;
pub mod codegen_rust;
pub mod compiler;
pub mod bench;
pub mod arc;
