//! Template discovery: the nearest `template.html` found by walking upward
//! from a document's directory toward the site root governs the document.
//! This module computes, in order of precedence, every path such a template
//! could occupy; whether one exists there is the caller's filesystem concern.

use vstd::prelude::*;
use vstd::string::*;
use crate::paths::{last_pos, lemma_last_pos, find_last, views_of};

verus! {

/// The directory above `path`; the site root (the empty path) above a bare
/// segment.
pub open spec fn parent_dir_of(path: Seq<char>) -> Seq<char> {
    let p = last_pos(path, '/');
    if p == -1 {
        Seq::<char>::empty()
    } else {
        path.take(p)
    }
}

/// Every path a governing template could occupy for a document whose
/// directory is `dir` (relative to the site root): `template.html` beside the
/// document first, then in each ancestor directory up to and including the
/// root.
pub open spec fn template_candidates_spec(dir: Seq<char>) -> Seq<Seq<char>>
    decreases dir.len(),
    via template_candidates_decreases
{
    if dir.len() == 0 {
        seq!["template.html"@]
    } else {
        seq![dir + "/template.html"@] + template_candidates_spec(parent_dir_of(dir))
    }
}

#[via_fn]
proof fn template_candidates_decreases(dir: Seq<char>) {
    lemma_last_pos(dir, '/');
}

pub fn ancestor_template_paths(dir: &str) -> (r: Vec<String>)
    ensures
        views_of(r@) == template_candidates_spec(dir@),
    decreases dir@.len(),
{
    let n = dir.unicode_len();
    if n == 0 {
        let mut v: Vec<String> = Vec::new();
        v.push("template.html".to_owned());
        proof {
            assert(views_of(v@) =~= seq!["template.html"@]);
        }
        v
    } else {
        proof {
            lemma_last_pos(dir@, '/');
        }
        let mut here = dir.to_owned();
        here.append("/template.html");
        let mut v: Vec<String> = Vec::new();
        v.push(here);
        let parent: String = match find_last(dir, '/') {
            Some(p) => dir.substring_char(0, p).to_owned(),
            None => String::new(),
        };
        proof {
            assert(parent@ == parent_dir_of(dir@));
        }
        let mut rest = ancestor_template_paths(parent.as_str());
        let ghost v0 = v@;
        let ghost r0 = rest@;
        v.append(&mut rest);
        proof {
            assert(views_of(v@) =~= views_of(v0) + views_of(r0));
            assert(views_of(v0) =~= seq![dir@ + "/template.html"@]);
        }
        v
    }
}

} // verus!
