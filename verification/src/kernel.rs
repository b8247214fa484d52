//! Core epistemic kernel types: identifiers, status lattices, codecs and state.

pub mod orid;
pub mod status;
pub mod causal_status;
pub mod codec;
pub mod omap;
pub mod reach;
pub mod text;
pub mod object;
pub mod state;
pub mod evidence;
pub mod obligation;
pub mod opcode;
pub mod distinction;
pub mod quotient;
