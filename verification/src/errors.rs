//! The reportable conditions of a site run.
//!
//! Each condition is either logged as a warning and worked around, or
//! escalated to a hard failure that aborts the run — the caller decides,
//! uniformly, by its run-wide strict flag. Plain I/O failures are not among
//! these: they always abort.

use vstd::prelude::*;
use vstd::string::*;

verus! {

pub enum SsgError {
    /// No recognized index document at the top level of the source root.
    IndexPageNotFound,
    /// A walked entry could not be expressed relative to the source root.
    PathNotRelative(String),
    /// The underlying directory walk failed to yield an entry; carries the
    /// walker's report.
    DirEntryError(String),
    /// A link references a source document that does not exist.
    LinkError(String),
}

impl SsgError {
    /// The condition's report text.
    pub open spec fn message_spec(&self) -> Seq<char> {
        match self {
            SsgError::IndexPageNotFound => "index.{dj|djot} not found! consider creating one in the base target directory as the default page."@,
            SsgError::PathNotRelative(p) => "Path "@ + p@ + " is not relative to target directory"@,
            SsgError::DirEntryError(e) => "An entry returned error "@ + e@,
            SsgError::LinkError(p) => "Referenced file path "@ + p@ + " does not exist!"@,
        }
    }

    pub fn message(&self) -> (r: String)
        ensures
            r@ == self.message_spec(),
    {
        match self {
            SsgError::IndexPageNotFound => {
                "index.{dj|djot} not found! consider creating one in the base target directory as the default page.".to_owned()
            },
            SsgError::PathNotRelative(p) => {
                let mut s = "Path ".to_owned();
                s.append(p.as_str());
                s.append(" is not relative to target directory");
                s
            },
            SsgError::DirEntryError(e) => {
                let mut s = "An entry returned error ".to_owned();
                s.append(e.as_str());
                s
            },
            SsgError::LinkError(p) => {
                let mut s = "Referenced file path ".to_owned();
                s.append(p.as_str());
                s.append(" does not exist!");
                s
            },
        }
    }
}

} // verus!
