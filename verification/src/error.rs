//! Error enum.
use vstd::prelude::*;

verus! {

/// The error of the regex crate for a pattern that it does not accept.
#[verifier::external_type_specification]
#[verifier::external_body]
pub struct ExRegexError(regex::Error);

/// Main error enum of the library.
#[derive(Debug)]
pub enum RunError {
    /// Invalid regular expression provided.
    InvalidRegex {
        /// The source error that caused this [RunError].
        source: regex::Error,
    },
}

} // verus!
