use simple_ssg::paths::{
    extension, file_name, file_stem, is_ancestor, relative_to, with_html_extension,
};

#[test]
fn file_name_takes_last_segment() {
    assert_eq!(file_name("a/b/c.txt"), "c.txt");
    assert_eq!(file_name("c.txt"), "c.txt");
    assert_eq!(file_name(""), "");
    assert_eq!(file_name("a/"), "");
}

#[test]
fn extension_follows_last_dot_of_last_segment() {
    assert_eq!(extension("a/b.c.dj"), Some("dj".to_string()));
    assert_eq!(extension("hey.djot"), Some("djot".to_string()));
    assert_eq!(extension("notes.md"), Some("md".to_string()));
    assert_eq!(extension("a.b/c"), None);
    assert_eq!(extension(".hidden"), None);
    assert_eq!(extension("trailing."), Some("".to_string()));
    assert_eq!(extension("plain"), None);
}

#[test]
fn file_stem_drops_extension() {
    assert_eq!(file_stem("nested2/hey.html"), "hey");
    assert_eq!(file_stem("a/b.c.dj"), "b.c");
    assert_eq!(file_stem(".hidden"), ".hidden");
    assert_eq!(file_stem("plain"), "plain");
}

#[test]
fn with_html_extension_swaps_or_appends() {
    assert_eq!(with_html_extension("nested2/hey.dj"), "nested2/hey.html");
    assert_eq!(with_html_extension("index.djot"), "index.html");
    assert_eq!(with_html_extension("notes.md"), "notes.html");
    assert_eq!(with_html_extension("plain"), "plain.html");
    assert_eq!(with_html_extension("a.b/c"), "a.b/c.html");
    assert_eq!(with_html_extension(".hidden"), ".hidden.html");
}

#[test]
fn is_ancestor_is_a_proper_prefix_at_a_boundary() {
    assert!(is_ancestor("", "a"));
    assert!(is_ancestor("a", "a/b"));
    assert!(is_ancestor("a", "a/b/c"));
    assert!(!is_ancestor("a", "ab/c"));
    assert!(!is_ancestor("a", "a"));
    assert!(!is_ancestor("a/b", "a"));
}

#[test]
fn relative_to_strips_the_root() {
    assert_eq!(relative_to("target/x.dj", "target"), Some("x.dj".to_string()));
    assert_eq!(
        relative_to("target/nested/y.dj", "target"),
        Some("nested/y.dj".to_string())
    );
    assert_eq!(relative_to("target", "target"), Some("".to_string()));
    assert_eq!(relative_to("other/x.dj", "target"), None);
    assert_eq!(relative_to("targetx/x.dj", "target"), None);
    assert_eq!(relative_to("x.dj", ""), Some("x.dj".to_string()));
}
