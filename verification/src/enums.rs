//! What is patched, and where from.

use vstd::prelude::*;

verus! {

/// A game that can be patched.
#[derive(Debug, Clone, Copy, PartialEq, Eq, Structural)]
pub enum Game {
    Wizard101,
}

/// The platform whose files are patched.
#[derive(Debug, Clone, Copy, PartialEq, Eq, Structural)]
pub enum Platform {
    Windows,
}

/// The region of the patch server.
#[derive(Debug, Clone, Copy, PartialEq, Eq, Structural)]
pub enum Country {
    Us,
    Eu,
}

} // verus!
