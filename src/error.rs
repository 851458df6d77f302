//! What can go wrong while the forks of a repository are worked out.
use vstd::prelude::*;

verus! {

/// A failure that ends the session.
#[derive(Clone, Debug, PartialEq, Eq)]
pub enum RepoError {
    /// A local remote names a supported host but no `owner/name` path.
    MalformedLocalRemote,
    /// The repository is hosted where a personal access token is needed and
    /// none is configured.
    MissingCredential,
    /// No local remote belongs to a supported host.
    NoSupportedLocalRemotes,
    /// A response lacks a field, or holds it with another type; the payload
    /// names the field.
    UnexpectedResponseShape(String),
    /// Walking from a fork to its parent came back to a project already seen.
    CyclicForkChain,
}

} // verus!
