use simple_ssg::text::{replace_all, wrap_html_content};
use simple_ssg::errors::SsgError;
use simple_ssg::site::{plan_run, RunPlan};
use simple_ssg::templates::ancestor_template_paths;
use simple_ssg::ledger::{check_has_index, classify_entry, EntryKind};

#[test]
fn replace_all_substitutes_every_occurrence() {
    assert_eq!(replace_all("xabx", "ab", "Y"), "xYx");
    assert_eq!(replace_all("ababab", "ab", "z"), "zzz");
    assert_eq!(replace_all("no match", "ab", "z"), "no match");
    assert_eq!(replace_all("", "ab", "z"), "");
    assert_eq!(replace_all("aaa", "aa", "b"), "ba");
}

#[test]
fn wrap_html_content_substitutes_at_the_marker() {
    let template = "<html><body><!-- {CONTENT} --></body></html>";
    assert_eq!(
        wrap_html_content("<p>hi</p>", Some(template)),
        "<html><body><p>hi</p></body></html>"
    );
    assert_eq!(wrap_html_content("<p>hi</p>", None), "<p>hi</p>");
    assert_eq!(
        wrap_html_content("X", Some("no marker here")),
        "no marker here"
    );
}

#[test]
fn error_messages_name_the_condition() {
    assert_eq!(
        SsgError::IndexPageNotFound.message(),
        "index.{dj|djot} not found! consider creating one in the base target directory as the default page."
    );
    assert_eq!(
        SsgError::PathNotRelative("a/b".to_string()).message(),
        "Path a/b is not relative to target directory"
    );
    assert_eq!(
        SsgError::DirEntryError("denied".to_string()).message(),
        "An entry returned error denied"
    );
    assert_eq!(
        SsgError::LinkError("missing.dj".to_string()).message(),
        "Referenced file path missing.dj does not exist!"
    );
}

#[test]
fn plan_run_resolves_the_command_line() {
    assert_eq!(plan_run(true, false, true, false), RunPlan::RejectBothGiven);
    assert_eq!(plan_run(true, true, false, false), RunPlan::RejectDirectoryIsFile);
    assert_eq!(plan_run(true, false, false, false), RunPlan::BuildDirectory);
    assert_eq!(plan_run(false, false, true, true), RunPlan::RejectFileIsDirectory);
    assert_eq!(plan_run(false, false, true, false), RunPlan::BuildSingleFile);
    assert_eq!(plan_run(false, false, false, false), RunPlan::RejectNothingGiven);
}

#[test]
fn template_candidates_walk_up_to_the_root() {
    assert_eq!(
        ancestor_template_paths("a/b"),
        vec![
            "a/b/template.html".to_string(),
            "a/template.html".to_string(),
            "template.html".to_string(),
        ]
    );
    assert_eq!(ancestor_template_paths(""), vec!["template.html".to_string()]);
}

#[test]
fn check_has_index_looks_for_a_top_level_landing_page() {
    let with_index = vec!["index.dj".to_string(), "nested/a.dj".to_string()];
    assert!(check_has_index(&with_index));
    let with_md_index = vec!["index.md".to_string()];
    assert!(check_has_index(&with_md_index));
    let nested_only = vec!["nested/example.dj".to_string(), "example2.dj".to_string()];
    assert!(!check_has_index(&nested_only));
    let nested_index = vec!["nested/index.dj".to_string()];
    assert!(!check_has_index(&nested_index));
}

#[test]
fn classification_follows_the_priority_order() {
    assert_eq!(classify_entry("anything", true), EntryKind::Directory);
    assert_eq!(classify_entry("a/template.html", false), EntryKind::Template);
    assert_eq!(classify_entry("template.html", false), EntryKind::Template);
    assert_eq!(classify_entry("a/x.dj", false), EntryKind::DjotPage);
    assert_eq!(classify_entry("a/x.djot", false), EntryKind::DjotPage);
    assert_eq!(classify_entry("a/x.md", false), EntryKind::MarkdownPage);
    assert_eq!(classify_entry("a/x.css", false), EntryKind::Asset);
    assert_eq!(classify_entry("a/x", false), EntryKind::Asset);
}
