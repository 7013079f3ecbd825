//! The ways a transform can fail.
use vstd::prelude::*;

use crate::specifier::ModuleSpecifier;

verus! {

/// Why a transform stopped. Every failure ends the whole run.
pub enum TransformError {
    /// The specifier's scheme is neither `file` nor `http(s)`.
    UnsupportedScheme(ModuleSpecifier),
    /// The graph holds no module for a specifier that was visited.
    MissingModule(ModuleSpecifier),
    /// The module's type-declaration reference did not resolve.
    TypesResolution(ModuleSpecifier),
    /// A reference in the module did not resolve; holds the module and the
    /// reference's text.
    UnresolvedDependency(ModuleSpecifier, String),
    /// A module refers to a specifier that has no output path.
    MissingMapping(ModuleSpecifier),
    /// Two text changes overlap, or one reaches outside the text.
    OverlappingChanges,
    /// The edited text is not valid UTF-8.
    InvalidText,
}

} // verus!
