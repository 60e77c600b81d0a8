//! A URL-path router backed by a compressed prefix tree.
//!
//! Route patterns are `/`-separated strings in which a segment written
//! `{name}` matches exactly one path segment and a final segment written
//! `{*name}` matches the whole remainder of the path.  Matching a path
//! returns the value registered for the winning route together with the
//! extracted parameter values.

pub mod error;
pub mod params;
pub mod router;
pub mod tree;

pub use error::InsertError;
pub use error::MatchError;
pub use params::Param;
pub use params::Params;
pub use params::ParamsIter;
pub use router::Match;
pub use router::Router;
