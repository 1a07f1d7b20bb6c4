//! The link rewriter and the page renderers.
//!
//! A hyperlink destination that names another source document of the site (it
//! carries a recognized markup extension once resolved against the linking
//! document's directory) is rewritten to that document's eventual rendered
//! path, prefixed with the site link prefix. Every other destination is left
//! untouched. The rewrite happens optimistically even when the target is
//! missing from the source tree; such a target is reported as dangling.
//!
//! Parsing and HTML serialization are delegated to the outside markup crates;
//! only the rewriting of each destination string is this crate's logic, and
//! one routine serves both formats.

use vstd::prelude::*;
use vstd::string::*;
use crate::ledger::prefix_view;
use crate::paths::{
    extension_of, with_html_extension_spec, with_html_extension, views_of, segments_of,
    normalize_segments, join_segments, split_segments, normalize, join, str_equal,
};

verus! {

/// A destination resolved against the linking document's directory (both
/// relative to the site root): what the destination names on disk. An
/// absolute destination escapes the site and keeps its own name.
pub open spec fn joined_path(parent: Seq<char>, dest: Seq<char>) -> Seq<char> {
    if dest.len() > 0 && dest[0] == '/' {
        dest
    } else if parent.len() == 0 {
        dest
    } else {
        parent + "/"@ + dest
    }
}

/// Whether the joined path names a source document: its extension is a
/// recognized markup extension.
pub open spec fn is_markup_target(parent: Seq<char>, dest: Seq<char>) -> bool {
    ||| extension_of(joined_path(parent, dest)) == Some("dj"@)
    ||| extension_of(joined_path(parent, dest)) == Some("djot"@)
    ||| extension_of(joined_path(parent, dest)) == Some("md"@)
}

/// The rewritten destination: a markup target gets the site link prefix and
/// the rendered extension; anything else stays as it came.
pub open spec fn rewrite_dest_spec(dest: Seq<char>, parent: Seq<char>, prefix: Seq<char>) -> Seq<
    char,
> {
    if is_markup_target(parent, dest) {
        prefix + with_html_extension_spec(dest)
    } else {
        dest
    }
}

/// The joined path in canonical form: segments normalized, or nothing when
/// the destination is absolute or climbs above the site root.
pub open spec fn resolved_target(parent: Seq<char>, dest: Seq<char>) -> Option<Seq<char>> {
    if dest.len() > 0 && dest[0] == '/' {
        None
    } else {
        match normalize_segments(segments_of(parent) + segments_of(dest)) {
            None => None,
            Some(segs) => Some(join_segments(segs)),
        }
    }
}

/// Whether a markup destination dangles: nothing in the source tree's file
/// list answers to its resolved path.
pub open spec fn is_dangling(
    parent: Seq<char>,
    dest: Seq<char>,
    files: Seq<Seq<char>>,
) -> bool {
    &&& is_markup_target(parent, dest)
    &&& match resolved_target(parent, dest) {
        None => true,
        Some(t) => !files.contains(t),
    }
}

/// The joined paths of all dangling destinations, in order of appearance.
pub open spec fn dangling_of(
    dests: Seq<Seq<char>>,
    parent: Seq<char>,
    files: Seq<Seq<char>>,
) -> Seq<Seq<char>>
    decreases dests.len(),
{
    if dests.len() == 0 {
        Seq::<Seq<char>>::empty()
    } else {
        dangling_of(dests.drop_last(), parent, files) + if is_dangling(
            parent,
            dests.last(),
            files,
        ) {
            seq![joined_path(parent, dests.last())]
        } else {
            Seq::<Seq<char>>::empty()
        }
    }
}

fn starts_with_slash(s: &str) -> (r: bool)
    ensures
        r == (s@.len() > 0 && s@[0] == '/'),
{
    if s.unicode_len() == 0 {
        false
    } else {
        s.get_char(0) == '/'
    }
}

/// The destination resolved against the linking document's directory.
pub fn join_dest(parent: &str, dest: &str) -> (r: String)
    ensures
        r@ == joined_path(parent@, dest@),
{
    if starts_with_slash(dest) {
        return dest.to_owned();
    }
    if parent.unicode_len() == 0 {
        return dest.to_owned();
    }
    let mut out = parent.to_owned();
    out.append("/");
    out.append(dest);
    out
}

/// Whether the joined destination carries a recognized markup extension.
pub fn is_markup_dest(parent: &str, dest: &str) -> (r: bool)
    ensures
        r == is_markup_target(parent@, dest@),
{
    let joined = join_dest(parent, dest);
    match crate::paths::extension(joined.as_str()) {
        Some(e) => str_equal(e.as_str(), "dj") || str_equal(e.as_str(), "djot") || str_equal(
            e.as_str(),
            "md",
        ),
        None => false,
    }
}

/// One link destination rewritten, identically for every markup format: a
/// destination naming a source document comes back as the site link prefix
/// followed by the destination with the rendered extension; any other
/// destination comes back unchanged.
pub fn rewrite_link_dest(dest: &str, parent_dir: &str, web_prefix: Option<&str>) -> (r: String)
    ensures
        r@ == rewrite_dest_spec(dest@, parent_dir@, prefix_view(web_prefix)),
{
    if is_markup_dest(parent_dir, dest) {
        let mut out: String = match web_prefix {
            Some(p) => p.to_owned(),
            None => String::new(),
        };
        let swapped = with_html_extension(dest);
        out.append(swapped.as_str());
        out
    } else {
        dest.to_owned()
    }
}

/// The resolved canonical target of a destination, when it stays inside the
/// site.
pub fn resolve_target(parent: &str, dest: &str) -> (r: Option<String>)
    ensures
        match r {
            Some(t) => resolved_target(parent@, dest@) == Some(t@),
            None => resolved_target(parent@, dest@) is None,
        },
{
    if starts_with_slash(dest) {
        return None;
    }
    let mut segs = split_segments(parent);
    let ghost psegs = segs@;
    let mut dsegs = split_segments(dest);
    let ghost dsegs0 = dsegs@;
    segs.append(&mut dsegs);
    proof {
        assert(views_of(segs@) =~= views_of(psegs) + views_of(dsegs0));
    }
    match normalize(&segs) {
        None => None,
        Some(n) => Some(join(&n)),
    }
}

/// Whether `files` holds `target`.
pub fn files_contain(files: &Vec<String>, target: &str) -> (r: bool)
    ensures
        r == views_of(files@).contains(target@),
{
    let mut i: usize = 0;
    while i < files.len()
        invariant
            0 <= i <= files@.len(),
            forall|j: int| 0 <= j < i ==> views_of(files@)[j] != target@,
        decreases files@.len() - i,
    {
        if str_equal(files[i].as_str(), target) {
            proof {
                assert(views_of(files@)[i as int] == target@);
            }
            return true;
        }
        i = i + 1;
    }
    proof {
        assert forall|j: int| 0 <= j < views_of(files@).len() implies views_of(files@)[j]
            != target@ by {}
    }
    false
}

/// The joined paths of the destinations that name a source document missing
/// from the tree's file list, in order of appearance.
pub fn collect_dangling(dests: &Vec<String>, parent_dir: &str, tree_files: &Vec<String>) -> (r:
    Vec<String>)
    ensures
        views_of(r@) == dangling_of(views_of(dests@), parent_dir@, views_of(tree_files@)),
{
    let ghost ds = views_of(dests@);
    let mut out: Vec<String> = Vec::new();
    let mut i: usize = 0;
    proof {
        assert(ds.take(0) =~= Seq::<Seq<char>>::empty());
        assert(views_of(out@) =~= dangling_of(ds.take(0), parent_dir@, views_of(tree_files@)));
    }
    while i < dests.len()
        invariant
            0 <= i <= dests@.len(),
            ds == views_of(dests@),
            views_of(out@) == dangling_of(ds.take(i as int), parent_dir@, views_of(tree_files@)),
        decreases dests@.len() - i,
    {
        let dest = &dests[i];
        let ghost pre = out@;
        proof {
            assert(ds.take(i as int + 1).drop_last() =~= ds.take(i as int));
            assert(ds.take(i as int + 1).last() == dest@);
        }
        if is_markup_dest(parent_dir, dest.as_str()) {
            let missing: bool = match resolve_target(parent_dir, dest.as_str()) {
                None => true,
                Some(t) => !files_contain(tree_files, t.as_str()),
            };
            if missing {
                out.push(join_dest(parent_dir, dest.as_str()));
                proof {
                    crate::paths::lemma_views_push(pre, out@.last());
                    assert(views_of(out@) =~= views_of(pre) + seq![
                        joined_path(parent_dir@, dest@),
                    ]);
                }
            } else {
                proof {
                    assert(views_of(out@) + Seq::<Seq<char>>::empty() =~= views_of(out@));
                }
            }
        } else {
            proof {
                assert(views_of(out@) + Seq::<Seq<char>>::empty() =~= views_of(out@));
            }
        }
        i = i + 1;
    }
    proof {
        assert(ds.take(i as int) =~= ds);
    }
    out
}

/// What the djot parser yields as the destination of each hyperlink start
/// event of a document, in order of appearance.
pub uninterp spec fn djot_dests_of(input: Seq<char>) -> Seq<Seq<char>>;

/// The HTML that the djot renderer produces for a document once every link
/// destination has been rewritten by `rewrite_dest_spec` for the given
/// directory and site link prefix.
pub uninterp spec fn djot_html_of(input: Seq<char>, parent: Seq<char>, prefix: Seq<char>) -> Seq<
    char,
>;

/// What the Markdown parser yields as the destination of each hyperlink start
/// tag of a document, in order of appearance.
pub uninterp spec fn md_dests_of(input: Seq<char>) -> Seq<Seq<char>>;

/// The HTML that the Markdown renderer produces for a document once every
/// link destination has been rewritten by `rewrite_dest_spec` for the given
/// directory and site link prefix.
pub uninterp spec fn md_html_of(input: Seq<char>, parent: Seq<char>, prefix: Seq<char>) -> Seq<
    char,
>;

/// Relies on jotdown::Parser: its event stream holds one start event per
/// hyperlink, carrying the destination string this collects.
#[verifier::external_body]
fn djot_link_dests(input: &str) -> (r: Vec<String>)
    ensures
        views_of(r@) == djot_dests_of(input@),
{
    let mut out = Vec::new();
    for event in jotdown::Parser::new(input) {
        if let jotdown::Event::Start(jotdown::Container::Link(dest, _), _) = event {
            out.push(dest.into_owned());
        }
    }
    out
}

/// Relies on jotdown::Parser and jotdown::html::render_to_string: parsing and
/// rendering are pure functions of the document text, so the output depends
/// only on the text, the directory and the prefix handed to the rewriter.
#[verifier::external_body]
fn djot_render_rewritten(input: &str, parent_dir: &str, web_prefix: Option<&str>) -> (r: String)
    ensures
        r@ == djot_html_of(input@, parent_dir@, prefix_view(web_prefix)),
{
    let events = jotdown::Parser::new(input).map(|event| match event {
        jotdown::Event::Start(jotdown::Container::Link(dest, ty), attrs) => jotdown::Event::Start(
            jotdown::Container::Link(rewrite_link_dest(&dest, parent_dir, web_prefix).into(), ty),
            attrs,
        ),
        jotdown::Event::End(jotdown::Container::Link(dest, ty)) => jotdown::Event::End(
            jotdown::Container::Link(rewrite_link_dest(&dest, parent_dir, web_prefix).into(), ty),
        ),
        other => other,
    });
    jotdown::html::render_to_string(events)
}

/// Relies on pulldown_cmark::Parser: its event stream holds one start tag per
/// hyperlink, carrying the destination string this collects.
#[verifier::external_body]
fn md_link_dests(input: &str) -> (r: Vec<String>)
    ensures
        views_of(r@) == md_dests_of(input@),
{
    let mut out = Vec::new();
    for event in pulldown_cmark::Parser::new(input) {
        if let pulldown_cmark::Event::Start(pulldown_cmark::Tag::Link { dest_url, .. }) = event {
            out.push(dest_url.to_string());
        }
    }
    out
}

/// Relies on pulldown_cmark::Parser and pulldown_cmark::html::push_html:
/// parsing and rendering are pure functions of the document text, so the
/// output depends only on the text, the directory and the prefix handed to
/// the rewriter.
#[verifier::external_body]
fn md_render_rewritten(input: &str, parent_dir: &str, web_prefix: Option<&str>) -> (r: String)
    ensures
        r@ == md_html_of(input@, parent_dir@, prefix_view(web_prefix)),
{
    let events = pulldown_cmark::Parser::new(input).map(|event| match event {
        pulldown_cmark::Event::Start(
            pulldown_cmark::Tag::Link { link_type, dest_url, title, id },
        ) => pulldown_cmark::Event::Start(pulldown_cmark::Tag::Link {
            link_type,
            dest_url: rewrite_link_dest(&dest_url, parent_dir, web_prefix).into(),
            title,
            id,
        }),
        other => other,
    });
    let mut html = String::new();
    pulldown_cmark::html::push_html(&mut html, events);
    html
}

/// A djot document rendered to HTML with every intra-site link rewritten to
/// its rendered path, together with the joined paths of the document's
/// dangling markup links (targets absent from the tree's file list).
pub fn process_djot(
    djot_input: &str,
    file_parent_dir: &str,
    web_prefix: Option<&str>,
    tree_files: &Vec<String>,
) -> (r: (String, Vec<String>))
    ensures
        r.0@ == djot_html_of(djot_input@, file_parent_dir@, prefix_view(web_prefix)),
        views_of(r.1@) == dangling_of(
            djot_dests_of(djot_input@),
            file_parent_dir@,
            views_of(tree_files@),
        ),
{
    let dests = djot_link_dests(djot_input);
    let dangling = collect_dangling(&dests, file_parent_dir, tree_files);
    let html = djot_render_rewritten(djot_input, file_parent_dir, web_prefix);
    (html, dangling)
}

/// A Markdown document rendered to HTML with every intra-site link rewritten
/// to its rendered path, together with the joined paths of the document's
/// dangling markup links (targets absent from the tree's file list).
pub fn process_markdown(
    markdown_input: &str,
    file_parent_dir: &str,
    web_prefix: Option<&str>,
    tree_files: &Vec<String>,
) -> (r: (String, Vec<String>))
    ensures
        r.0@ == md_html_of(markdown_input@, file_parent_dir@, prefix_view(web_prefix)),
        views_of(r.1@) == dangling_of(
            md_dests_of(markdown_input@),
            file_parent_dir@,
            views_of(tree_files@),
        ),
{
    let dests = md_link_dests(markdown_input);
    let dangling = collect_dangling(&dests, file_parent_dir, tree_files);
    let html = md_render_rewritten(markdown_input, file_parent_dir, web_prefix);
    (html, dangling)
}

} // verus!
