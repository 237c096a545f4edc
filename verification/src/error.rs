//! Error types for timing operations.

use vstd::prelude::*;

verus! {

/// An I/O error, as reported by the standard library.
#[verifier::external_type_specification]
#[verifier::external_body]
pub struct ExIoError(std::io::Error);

/// A YAML parse error, as reported by `serde_yaml`.
#[verifier::external_type_specification]
#[verifier::external_body]
pub struct ExYamlError(serde_yaml::Error);

/// Errors that can occur during timing model operations.
#[derive(Debug)]
#[allow(inconsistent_fields)]
pub enum TimingError {
    /// Failed to read or write a file.
    Io { path: String, source: std::io::Error },
    /// Failed to parse a YAML file.
    Yaml { path: String, source: serde_yaml::Error },
    /// Expected a directory but got something else.
    NotADirectory { path: String },
    /// No TextGrid files found in the given directory.
    NoTextGridFiles { dir: String },
    /// A TextGrid file could not be parsed.
    TextGrid { path: String, reason: String },
    /// Empty input was provided where phonemes were expected.
    EmptyInput,
    /// A catch-all for context-specific errors (e.g. CLI messages).
    Other(String),
}

impl TimingError {
    /// An I/O error with path context.
    pub fn io(path: &str, source: std::io::Error) -> (e: Self)
        ensures
            e matches TimingError::Io { path: p, source: s } && p@ == path@ && s == source,
    {
        TimingError::Io { path: path.to_owned(), source }
    }

    /// A YAML parse error with path context.
    pub fn yaml(path: &str, source: serde_yaml::Error) -> (e: Self)
        ensures
            e matches TimingError::Yaml { path: p, source: s } && p@ == path@ && s == source,
    {
        TimingError::Yaml { path: path.to_owned(), source }
    }
}

} // verus!
