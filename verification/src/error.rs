//! Error values reported by graph walks, reference parsing and issue lookup.

use vstd::prelude::*;

verus! {

/// The error taxonomy of the crate.
///
/// Graph-access failures (`CannotGetCommit`) are distinct from "the name does
/// not match the boundary-reference shape" (`MalFormedHeadReference`), from
/// "the name's hash segment is not a valid identifier" (`OidFormatError`),
/// from "no boundary reference witnesses an issue with this root"
/// (`CannotFindIssueHead`) and from "no issue found along the first-parent
/// chain" (`NoTreeInitFound`).
#[derive(Debug, Clone, PartialEq, Eq)]
pub enum Error {
    /// A node identifier could not be resolved in the object graph.
    CannotGetCommit(u64),
    /// No boundary reference exists for the given root node.
    CannotFindIssueHead(u64),
    /// A reference name does not have the boundary-reference shape.
    MalFormedHeadReference(Vec<u8>),
    /// A would-be root segment of a reference name is not valid hex.
    OidFormatError(Vec<u8>),
    /// The first-parent chain was exhausted without finding an issue.
    NoTreeInitFound(u64),
    /// A new message could not be created (identifier space exhausted).
    CannotCreateMessage,
}

} // verus!
