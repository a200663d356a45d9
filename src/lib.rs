//! Formal Concept Analysis: formal contexts stored as bit matrices together with
//! their transposes, the two derivation operators between object sets and
//! attribute sets, context reduction, and enumeration of every formal concept
//! by Close-by-One.

pub mod bits;
pub mod rows;
pub mod context;
pub mod concept;
pub mod galois;
pub mod pcbo;
pub mod lectic;
pub mod cxt;
pub mod dat;
pub mod random;
pub mod reduction;

pub use bits::Bits;
pub use concept::{FormalConcept, RawFormalConcept};
pub use context::FormalContext;
pub use rows::{is_subset, redundant_row};
