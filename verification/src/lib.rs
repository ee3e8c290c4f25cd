//! A virtual-DOM diffing core: immutable element/text trees, a patch-
//! operation algebra, a queue that coalesces adjacent operations, and a
//! diff engine with keyed reconciliation and move minimization.

pub mod diff;
pub mod element;
pub mod node;
pub mod op_queue;
pub mod ops;
pub mod text;
