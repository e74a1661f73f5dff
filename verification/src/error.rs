//! What can go wrong.

use vstd::prelude::*;

verus! {

/// The ways in which looking for devices fails.
#[derive(Debug, Clone, Copy, PartialEq, Eq)]
pub enum Error {
    /// The path leads nowhere, or to a directory without a metadata file.
    NotFound,
    /// What should hold the devices of a subsystem is no directory.
    NotADirectory,
}

} // verus!
