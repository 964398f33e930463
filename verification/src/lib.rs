//! Persistent weighted graph-structured stacks.
//!
//! A [`WeightedGss`] represents a finite collection of stack alternatives. Each
//! stack carries a [`Weight`], and weights are joined when operations make two
//! alternatives denote the same concrete stack.

pub mod diagnostics;
pub mod effects;
pub mod gss;
pub mod language;
pub mod laws;
pub mod leveled;
pub mod linear_prefix;
mod node;
pub mod stack_visit;
pub mod structure;
pub mod virtual_stack;
pub mod stack_vecs;
mod values;
pub mod weight;

pub use gss::{Gss, WeightedGss};
pub use language::{StackLanguageId, StackLanguageInterner};
pub use leveled::{Accumulated, GssSemanticKeyInterner, LeveledGSS, LeveledGSSSummary, Merge, VirtualStack};
pub use linear_prefix::{linear_prefix, LinearPrefix};
pub use structure::ListedNode;
pub use stack_visit::{collect_stacks_top_first, for_each_stack_top_first, StackLimitExceeded};
pub use values::{clone_exact, exact_values};
pub use weight::Weight;
pub use diagnostics::{RepresentationId, StructuralStats};
pub use effects::StackEffect;
pub use stack_vecs::arc_array_vec::ArcArrayVec;
pub use stack_vecs::dispatch::DynIter;
pub use stack_vecs::vec_stack_vec::VecStackVec;
