//! Where the GitHub token is kept between runs.
use vstd::prelude::*;
use crate::text::{trim, trimmed_of};

verus! {

/// The stored GitHub token: a file in the user's home directory, read and
/// written outside the library.
pub struct TokenStore;

impl TokenStore {
    /// The token held by a token file with these contents: the contents
    /// without surrounding whitespace.
    pub fn token_from_contents(contents: &str) -> (r: String)
        ensures
            r@ == trimmed_of(contents@),
    {
        trim(contents)
    }
}

} // verus!
