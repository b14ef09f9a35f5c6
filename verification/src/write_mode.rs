//! How a document is turned back into text.
use vstd::prelude::*;

verus! {

/// `Lossless` writes the document exactly as read (with edits in place);
/// `Canonical` writes it normalized.
#[derive(Debug, Clone, Copy, PartialEq, Eq, Structural)]
pub enum WriteMode {
    Lossless,
    Canonical,
}

impl Default for WriteMode {
    fn default() -> (r: Self)
        ensures
            r == WriteMode::Lossless,
    {
        WriteMode::Lossless
    }
}

} // verus!
