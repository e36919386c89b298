//! Push-based streams: observers receive signals, operators decorate observers,
//! and every operator is characterised as a function on signal logs.

pub mod signal;
pub mod observer;
pub mod observable;
pub mod ops;
