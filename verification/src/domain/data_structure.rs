//! The data structures of the domain.

pub use super::counter_set::CounterSet;
