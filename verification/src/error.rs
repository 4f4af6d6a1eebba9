//! Parse failures that must reach the user.

use vstd::prelude::*;

verus! {

/// A fatal, user-visible parse failure. The payload is the diagnostic line
/// to print on standard error. A merely absent token is not an `Error`:
/// the buffer operations report absence through `Ok(None)` or `false`, which
/// recovery combinators may swallow.
#[derive(Debug)]
pub enum Error {
    Stderr(String),
}

impl Error {
    /// The diagnostic text carried by this error.
    pub fn message(&self) -> (s: &String)
        ensures
            self matches Error::Stderr(m) && s == m,
    {
        match self {
            Error::Stderr(m) => m,
        }
    }
}

} // verus!
