use vstd::prelude::*;

verus! {

/// What became of a process that was asked to run.
#[derive(Debug, Clone, PartialEq, Eq)]
pub enum ProcessOutcome {
    /// The process could not be started; holds the reason.
    SpawnFailed(String),
    /// The process ran to its end: whether it ended with success, and what
    /// it wrote to its standard output and standard error.
    Exited { success: bool, stdout: Vec<u8>, stderr: Vec<u8> },
}

} // verus!
