//! Groups runs of immediately successive values into inclusive
//! `(start, end)` ranges, and expands such ranges back into the values.
pub mod group;
pub mod step;

pub use group::{sequential_group, sequential_ungroup};
pub use step::AtomicStep;
