use vstd::prelude::*;

verus! {

/// The fatal error kinds of the analysis.  None of them is recovered from:
/// every one aborts the whole run.  A cycle in the graph is *not* an error;
/// the orderer reports it as a normal outcome.
#[derive(Clone, Copy, PartialEq, Eq, Structural, Debug)]
pub enum AnalysisError {
    /// A required input file could not be found or read.
    IoFailure,
    /// A manifest file could not be parsed.
    ManifestParseFailure,
    /// The curated package list holds the same name twice.
    DuplicatePackage,
    /// A workspace dependency entry lacks a concrete local path.
    UnresolvableDependencyDescriptor,
    /// The scope selector is neither `partial` nor `full`.
    InvalidScopeSelector,
}

impl AnalysisError {
    /// A short diagnostic tag for the error, for callers that report it.
    pub fn describe(&self) -> (r: &'static str)
        ensures
            r@ == match self {
                AnalysisError::IoFailure => "failed to read a required file"@,
                AnalysisError::ManifestParseFailure => "failed to parse a manifest"@,
                AnalysisError::DuplicatePackage => "duplicate package in the curated list"@,
                AnalysisError::UnresolvableDependencyDescriptor => "workspace dependency entry has no local path"@,
                AnalysisError::InvalidScopeSelector => "scope must be partial or full"@,
            },
    {
        match self {
            AnalysisError::IoFailure => "failed to read a required file",
            AnalysisError::ManifestParseFailure => "failed to parse a manifest",
            AnalysisError::DuplicatePackage => "duplicate package in the curated list",
            AnalysisError::UnresolvableDependencyDescriptor => "workspace dependency entry has no local path",
            AnalysisError::InvalidScopeSelector => "scope must be partial or full",
        }
    }
}

} // verus!
