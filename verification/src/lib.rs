//! A deduplicating instruction store: an ordered, mutable sequence of
//! operations whose operand lists are interned in a reference-counted pool.

pub mod circuit_data;
pub mod equality;
pub mod error;
pub mod handles;
pub mod hash_index;
pub mod instruction;
pub mod intern_context;
pub mod parameterexpression;
pub mod resource;
pub mod slice;

pub use circuit_data::CircuitData;
pub use instruction::{CircuitInstruction, Item};
pub use error::CircuitError;
pub use intern_context::{BitType, IndexType, InternContext};
pub use resource::{Resource, ResourceTable};
pub use slice::SliceOrInt;
