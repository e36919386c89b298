//! Operators: observables that decorate the observer handed to their source.

pub mod skip_last;
pub mod take;
pub mod first;
