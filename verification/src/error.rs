//! Error reporting for the search.
use vstd::prelude::*;

verus! {

broadcast use vstd::string::to_string_from_display_ensures_for_str;

/// What went wrong: an infeasible configuration, or a search that
/// completed without a find below the ceiling.
#[derive(Clone, Copy, Debug, PartialEq, Eq, Structural)]
pub enum ErrorKind {
    Configuration,
    NotFound,
}

/// Error surfaced by the search.
#[derive(Debug)]
pub struct TatamiError {
    pub kind: ErrorKind,
    pub details: String,
}

impl TatamiError {
    /// A search-failure error: the search completed and found nothing
    /// admissible below the ceiling.
    pub fn new(msg: &str) -> (r: TatamiError)
        ensures
            r.kind == ErrorKind::NotFound,
            r.details@ == msg@,
    {
        TatamiError { kind: ErrorKind::NotFound, details: msg.to_string() }
    }

    /// An infeasible-configuration error.
    pub fn config(msg: &str) -> (r: TatamiError)
        ensures
            r.kind == ErrorKind::Configuration,
            r.details@ == msg@,
    {
        TatamiError { kind: ErrorKind::Configuration, details: msg.to_string() }
    }

    /// The error's message.
    pub fn message(&self) -> (r: &str)
        ensures
            r@ == self.details@,
    {
        self.details.as_str()
    }
}

} // verus!
