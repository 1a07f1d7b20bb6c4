//! The structural records of the first pass.
//!
//! Walking the source tree appends one record per entry, in pre-order, into an
//! ordered ledger; the second pass reads that ledger to build each page's
//! table of contents.

use vstd::prelude::*;
use vstd::string::*;
use crate::paths::{extension_of, file_name_of, extension, file_name, str_equal, views_of};

verus! {

/// One record of the first pass, in pre-order tree-walk order: either a
/// directory, or a document already rendered to HTML whose `relative_path`
/// carries the rendered extension. Paths are relative to the site root.
pub enum FirstPassResult {
    Dir { depth: usize, relative_path: String },
    HtmlOutput { depth: usize, html: String, relative_path: String },
}

/// How one walked entry is treated by the first pass.
#[derive(Clone, Copy, PartialEq, Eq, Structural, Debug)]
pub enum EntryKind {
    /// Recorded in the ledger and recursed into.
    Directory,
    /// A reserved `template.html` file: consumed as configuration, never content.
    Template,
    /// A djot document to render.
    DjotPage,
    /// A Markdown document to render.
    MarkdownPage,
    /// Any other file: copied to the output verbatim.
    Asset,
}

/// Classification of a walked entry, in priority order: directories first,
/// then the reserved template file name, then recognized markup extensions,
/// and everything else is a static asset.
pub open spec fn classify_spec(rel: Seq<char>, is_dir: bool) -> EntryKind {
    if is_dir {
        EntryKind::Directory
    } else if file_name_of(rel) == "template.html"@ {
        EntryKind::Template
    } else if extension_of(rel) == Some("dj"@) || extension_of(rel) == Some("djot"@) {
        EntryKind::DjotPage
    } else if extension_of(rel) == Some("md"@) {
        EntryKind::MarkdownPage
    } else {
        EntryKind::Asset
    }
}

pub fn classify_entry(relative_path: &str, is_dir: bool) -> (r: EntryKind)
    ensures
        r == classify_spec(relative_path@, is_dir),
{
    if is_dir {
        return EntryKind::Directory;
    }
    let name = file_name(relative_path);
    if str_equal(name.as_str(), "template.html") {
        return EntryKind::Template;
    }
    match extension(relative_path) {
        Some(e) => {
            if str_equal(e.as_str(), "dj") || str_equal(e.as_str(), "djot") {
                EntryKind::DjotPage
            } else if str_equal(e.as_str(), "md") {
                EntryKind::MarkdownPage
            } else {
                EntryKind::Asset
            }
        },
        None => EntryKind::Asset,
    }
}

/// Whether a file name is one of the recognized root landing documents.
pub open spec fn is_index_name(name: Seq<char>) -> bool {
    name == "index.dj"@ || name == "index.djot"@ || name == "index.md"@
}

/// Whether the file list of a source tree holds an index document at its top
/// level (a file list carries paths relative to the root, so a top-level index
/// appears as its bare name).
pub open spec fn has_index_spec(files: Seq<Seq<char>>) -> bool {
    exists|i: int| 0 <= i < files.len() && #[trigger] is_index_name(files[i])
}

pub fn check_has_index(files: &Vec<String>) -> (r: bool)
    ensures
        r == has_index_spec(views_of(files@)),
{
    let mut i: usize = 0;
    while i < files.len()
        invariant
            0 <= i <= files@.len(),
            forall|j: int| 0 <= j < i ==> !is_index_name(views_of(files@)[j]),
        decreases files@.len() - i,
    {
        let f = &files[i];
        if str_equal(f.as_str(), "index.dj") || str_equal(f.as_str(), "index.djot")
            || str_equal(f.as_str(), "index.md") {
            proof {
                assert(views_of(files@)[i as int] == files@[i as int]@);
                assert(is_index_name(views_of(files@)[i as int]));
            }
            return true;
        }
        i = i + 1;
    }
    false
}

/// The site link prefix as a character sequence: the empty sequence when the
/// caller supplied none.
pub open spec fn prefix_view(web_prefix: Option<&str>) -> Seq<char> {
    match web_prefix {
        Some(p) => p@,
        None => Seq::<char>::empty(),
    }
}

} // verus!
