//! Bounded and unbounded sequence containers, and in-place comparison sorts.
pub mod queue;
pub mod sort;
pub mod stack;
