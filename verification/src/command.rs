//! Command construction and ordering.

pub mod block;
pub mod graph;
pub mod id;
pub mod laws;

pub use block::{CommandBlock, CommandMetadata, DEFAULT_SHELL};
pub use graph::{BuildError, CommandGraph, CommandGraphBuilder, CommandQueue, UnknownCommand};
pub use id::{CommandId, InvalidCommandId};
