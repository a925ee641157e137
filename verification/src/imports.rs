//! The ways resolving `use` imports can fail.
use vstd::prelude::*;

verus! {

/// Why an import could not be resolved.
#[derive(Clone, Debug, PartialEq, Eq)]
pub enum ImportError {
    /// No source was found for the package.
    NotFound(String),
    /// The imported source did not parse.
    Parse { package: String, error: String },
    /// A package imports itself, directly or through others; the chain
    /// closes on its first element.
    Cycle(Vec<String>),
    /// Two visible declarations share a name.
    Conflict { name: String, first: String, second: String },
}

} // verus!
