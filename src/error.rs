//! The ways an edit can fail.
use vstd::prelude::*;

verus! {

/// Why a section operation failed.  Every failure leaves the file untouched.
#[derive(Debug, Clone, Copy, PartialEq, Eq, Structural)]
pub enum EditError {
    /// The text holds no introducer for the section.
    SectionNotFound,
    /// The section's delimiters are unbalanced or an entry does not follow
    /// its grammar.
    Malformed,
    /// The item to add is already there.
    Duplicate,
    /// The item to remove or look up is not there.
    NotFound,
}

/// `r` is the string result `sp` describes.
pub open spec fn same_result(r: Result<String, EditError>, sp: Result<Seq<char>, EditError>) -> bool {
    match (r, sp) {
        (Ok(t), Ok(u)) => t@ == u,
        (Err(e), Err(f)) => e == f,
        _ => false,
    }
}

} // verus!
