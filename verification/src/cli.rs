//! The choices a caller makes: how names are compared and how results are
//! presented.

use vstd::prelude::*;

verus! {

/// How two names are compared.
#[derive(Clone, Copy, Debug, PartialEq, Eq, Structural)]
pub enum Algorithm {
    /// Edit distance, relative to the longer name.
    Levenshtein,
    /// Jaro-Winkler similarity.
    Jaro,
    /// Shared alphanumeric tokens, relative to all tokens.
    Token,
    /// One stem contained in the other, relative to the longer stem.
    Substring,
    /// A weighted mean of Levenshtein, Jaro and Token.
    Auto,
}

/// How a result is presented.
#[derive(Clone, Copy, Debug, PartialEq, Eq, Structural)]
pub enum OutputFormat {
    /// Plain text for a terminal.
    Text,
    /// A JSON document.
    Json,
    /// Comma-separated values, one line per file.
    Csv,
}

} // verus!
