//! Stack vectors: a shared array with a visible window, and a plain vector,
//! and an iterator over their elements.

pub mod arc_array_vec;
pub mod dispatch;
pub mod vec_stack_vec;
