//! What the user asks the tool to do.
use vstd::prelude::*;

verus! {

/// The command line: one command.
#[derive(Debug, Clone, PartialEq, Eq)]
pub struct Args {
    pub command: Commands,
}

/// The commands of the tool.
#[derive(Debug, Clone, PartialEq, Eq)]
pub enum Commands {
    /// Transmit a file.
    Transmit { file: String },
    /// Receive a file.
    Receive,
}

} // verus!
