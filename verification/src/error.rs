//! Error values of the compiler core.
//!
//! A compile either fully succeeds or reports exactly one of these
//! failures; nothing is retried and no partial result is surfaced.

use vstd::prelude::*;

use crate::parser::ParseContext;

verus! {

/// The colour set slot a resolution failure refers to.
#[derive(Structural, PartialEq, Eq, Clone, Copy, Debug)]
pub enum Slot {
    Light,
    Dark,
}

/// A terminal failure of parsing or resolution.
#[derive(PartialEq, Eq, Clone, Debug)]
pub enum Error {
    /// The input does not match the grammar; carries the input offset that
    /// was reached and the chain of grammar rules that were active,
    /// innermost first.
    ParseError { offset: usize, contexts: Vec<ParseContext> },
    /// A colour set literal whose two labelled slots are not exactly
    /// `light` and `dark`; carries both offending labels in source order.
    InvalidColorSetDeclaration { first: Vec<u8>, second: Vec<u8> },
    /// A variable reference names an identifier that no top-level variable
    /// declaration binds.
    UnknownIdentifier { identifier: Vec<u8> },
    /// A variable used in a colour set's `light` or `dark` slot resolved to
    /// another colour set instead of a single colour.
    TypeMismatch { slot: Slot, identifier: Vec<u8> },
    /// A chain of variable references revisited an identifier and can never
    /// reach a colour.
    CyclicReference { identifier: Vec<u8> },
    /// A resolution failure described only by a message.
    ResolveError { message: String },
}

impl Error {
    /// Wraps a plain message as a resolution error.
    pub fn new(message: String) -> (r: Error)
        ensures
            r == (Error::ResolveError { message }),
    {
        Error::ResolveError { message }
    }
}

} // verus!
