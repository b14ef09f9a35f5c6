//! Why reading or writing a document failed.
use vstd::prelude::*;

use crate::sexpr::ParseError;

verus! {

#[derive(Debug)]
pub enum Error {
    /// Reading or writing a file failed; the text describes how.
    Io(String),
    /// The text is not a single S-expression.
    Parse(ParseError),
    /// The document is not of the expected kind, or cannot be written.
    Validation(String),
}

} // verus!
