//! Parsing, inspection, mutation and resolution of IRI references.
use vstd::prelude::*;

pub mod parsing;
pub mod reference;
pub mod buffer;
pub mod resolve;
pub mod order;

verus! {

/// Everything that can go wrong when reading or rewriting an IRI reference.
#[derive(Clone, Copy, Debug, PartialEq, Eq, Structural)]
pub enum Error {
    /// The authority is malformed (an unclosed host literal, a port that is not a number).
    InvalidAuthority,
    /// A resolved path would be read back as other components.
    InvalidPath,
    /// A byte that no component may hold, at the given offset.
    InvalidCharacter { offset: usize },
    /// The input is not UTF-8.
    NotUtf8,
    /// An IRI was asked for and the data has no scheme.
    MissingScheme,
    /// A value given to a setter is not a valid value of that component.
    InvalidComponentSyntax,
    /// Removing the authority would let the path be read back as an authority.
    AmbiguousPathAfterAuthorityRemoval,
}

} // verus!
