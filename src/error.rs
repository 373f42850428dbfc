//! The ways an operation of the store can fail.
use vstd::prelude::*;

verus! {

/// A failed store operation, with what the caller needs to report it.
#[derive(Clone, Debug)]
pub enum StoreError {
    /// No shortcut has this keyword (or no prefix of a jump target is one).
    NotFound(String),
    /// The target is missing, not a directory, or has no canonical form.
    InvalidPath(String),
    /// The keyword already names another path and replacing was not asked for.
    AlreadyExists { keyword: String, existing: String, requested: String },
    /// The path is already saved under other keywords and adding one more was
    /// not confirmed.
    AbortedByUser { keyword: String, path: String, duplicates: Vec<String> },
    /// The text names no sort mode.
    InvalidSortMode(String),
    /// A glob or regular expression that does not compile.
    PatternError(String),
}

} // verus!
