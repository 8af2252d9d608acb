use vstd::prelude::*;

verus! {

/// Errors surfaced by the bridge to its host.
#[derive(Debug)]
pub enum VimdowError {
    /// The editor process died or its stream ended unexpectedly.
    NeovimCrashed,
    /// An operating-system I/O failure, carried as its message text.
    IO(String),
}

impl VimdowError {
    /// True of the variant that reports a crashed editor process.
    pub fn is_crash(&self) -> (r: bool)
        ensures
            r == (self is NeovimCrashed),
    {
        match self {
            VimdowError::NeovimCrashed => true,
            VimdowError::IO(_) => false,
        }
    }
}

} // verus!
