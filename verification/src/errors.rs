use vstd::prelude::*;

verus! {

/// Mathematical model of a bundling error: byte payloads as sequences.
pub enum ErrModel {
    /// The grammar rejected the input (or produced no usable tree).
    ParseFailure,
    /// Two files declared different interpreter-selector texts.
    SelectorConflict(Seq<u8>, Seq<u8>),
    /// An interpreter selector was found somewhere other than the first line.
    SelectorMisplaced,
    /// A single file declared two interpreter selectors.
    SelectorDuplicate,
    /// No interpreter selector was declared anywhere in the inclusion graph.
    SelectorMissing,
    /// A file sources itself, directly or transitively, while still being resolved.
    CircularInclude(Seq<u8>),
    /// An include target was not a literal path, or could not be resolved.
    UnresolvableIncludeArgument(Seq<u8>),
    /// A resolved include path cannot be expressed relative to the root directory.
    IncludeOutsideRoot(Seq<u8>),
    /// An inline-build command exited with a non-zero status.
    SubcommandFailure(Seq<u8>, int),
    /// Planned edits for one document overlap.
    EditsOverlap,
}

/// A fatal error aborting the whole bundle run; the payloads carry the
/// offending text (selector texts, include path, command) for diagnosis.
#[derive(Debug)]
pub enum BundleError {
    ParseFailure,
    SelectorConflict(Vec<u8>, Vec<u8>),
    SelectorMisplaced,
    SelectorDuplicate,
    SelectorMissing,
    CircularInclude(Vec<u8>),
    UnresolvableIncludeArgument(Vec<u8>),
    IncludeOutsideRoot(Vec<u8>),
    SubcommandFailure(Vec<u8>, i32),
    EditsOverlap,
}

impl View for BundleError {
    type V = ErrModel;

    open spec fn view(&self) -> ErrModel {
        match self {
            BundleError::ParseFailure => ErrModel::ParseFailure,
            BundleError::SelectorConflict(a, b) => ErrModel::SelectorConflict(a@, b@),
            BundleError::SelectorMisplaced => ErrModel::SelectorMisplaced,
            BundleError::SelectorDuplicate => ErrModel::SelectorDuplicate,
            BundleError::SelectorMissing => ErrModel::SelectorMissing,
            BundleError::CircularInclude(p) => ErrModel::CircularInclude(p@),
            BundleError::UnresolvableIncludeArgument(p) => ErrModel::UnresolvableIncludeArgument(
                p@,
            ),
            BundleError::IncludeOutsideRoot(p) => ErrModel::IncludeOutsideRoot(p@),
            BundleError::SubcommandFailure(c, code) => ErrModel::SubcommandFailure(
                c@,
                *code as int,
            ),
            BundleError::EditsOverlap => ErrModel::EditsOverlap,
        }
    }
}

impl BundleError {
    /// Human-readable description of the error; tests and the outer program
    /// render this instead of a `Display` impl.
    pub fn describe(&self) -> &'static str {
        match self {
            BundleError::ParseFailure => "couldn't parse file",
            BundleError::SelectorConflict(_, _) => "Shabangs across all files must match",
            BundleError::SelectorMisplaced => "The shabang must be at the top of the file",
            BundleError::SelectorDuplicate => "Only one shabang per file is allowed",
            BundleError::SelectorMissing => "Shabang is missing",
            BundleError::CircularInclude(_) => "Circular dependencies are not supported!",
            BundleError::UnresolvableIncludeArgument(_) => "failed to get full path for source",
            BundleError::IncludeOutsideRoot(
                _,
            ) => "trying to access script outside of current working directory",
            BundleError::SubcommandFailure(_, _) => "command returned with non-zero exit code",
            BundleError::EditsOverlap => "edits are not disjoint",
        }
    }
}

} // verus!
