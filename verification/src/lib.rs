//! Inspection and safe cascading termination of operating-system process
//! trees, together with a parser that turns the textual output of a socket
//! listing utility into a structured, deduplicated, sorted port table.

pub mod model;
pub mod text;
pub mod ports;
pub mod snapshot;
pub mod ops;
pub mod kill;
pub mod hierarchy;
