use vstd::prelude::*;

verus! {

/// Why a route could not be registered.
#[derive(Clone, Copy, Debug, PartialEq, Eq, Structural)]
pub enum InsertError {
    /// The route is already registered, or a wildcard at the same tree
    /// position is incompatible with it (different name or kind, or a
    /// catch-all that would have to share a node with other children).
    Conflict,
    /// The pattern itself is ill-formed: empty, a brace segment that is
    /// not a well-formed parameter, or a catch-all that is not the final
    /// segment.
    Malformed,
}

/// Why a path could not be matched.
#[derive(Clone, Copy, Debug, PartialEq, Eq, Structural)]
pub enum MatchError {
    /// No registered route matches the path.
    NotFound,
    /// No registered route matches the path, but one matches it with the
    /// trailing slash toggled, so a redirect may be appropriate.
    NotFoundTrailingSlash,
}

} // verus!
