use simple_ssg::ledger::FirstPassResult;
use simple_ssg::toc::generate_table_of_contents;

fn dir(depth: usize, rel: &str) -> FirstPassResult {
    FirstPassResult::Dir { depth, relative_path: rel.to_string() }
}

fn page(depth: usize, rel: &str) -> FirstPassResult {
    FirstPassResult::HtmlOutput { depth, html: String::new(), relative_path: rel.to_string() }
}

fn count_occurrences(haystack: &str, needle: &str) -> usize {
    haystack.matches(needle).count()
}

#[test]
fn empty_ledger_yields_the_bare_opening() {
    let ledger: Vec<FirstPassResult> = Vec::new();
    assert_eq!(generate_table_of_contents(&ledger, 0, "x.html", None), "<ul>");
}

#[test]
fn root_level_pages_share_one_list() {
    let ledger = vec![dir(0, ""), page(1, "a.html"), page(1, "b.html")];
    let toc = generate_table_of_contents(&ledger, 1, "a.html", None);
    assert_eq!(
        toc,
        "<ul><li><b>a</b></li><li><a href=\"b.html\">b</a></li></ul>"
    );
}

#[test]
fn sibling_folders_get_headings_and_updir_links() {
    let ledger = vec![
        dir(0, ""),
        dir(1, "sub1"),
        page(2, "sub1/a.html"),
        dir(1, "sub2"),
        page(2, "sub2/b.html"),
    ];
    let toc = generate_table_of_contents(&ledger, 2, "sub1/a.html", None);
    assert_eq!(
        toc,
        "<ul><li><b><u>sub1:</u></b></li><ul><li><b>a</b></li></ul>\
         <li><b><u>sub2:</u></b></li><ul><li><a href=\"../sub2/b.html\">b</a></li></ul></ul>"
    );
    // the heading stands before the nested list and its item
    let heading_at = toc.find("<li><b><u>sub1:</u></b></li>").unwrap();
    let item_at = toc.find("<li><b>a</b></li>").unwrap();
    assert!(heading_at < item_at);
}

#[test]
fn exactly_one_item_is_non_linked() {
    let ledger = vec![
        dir(0, ""),
        page(1, "index.html"),
        dir(1, "nested2"),
        page(2, "nested2/hey.html"),
        dir(1, "nested3"),
        page(2, "nested3/third_file.html"),
    ];
    for (target, depth) in [
        ("index.html", 1usize),
        ("nested2/hey.html", 2),
        ("nested3/third_file.html", 2),
    ] {
        let toc = generate_table_of_contents(&ledger, depth, target, None);
        let bold_items = count_occurrences(&toc, "<li><b>") - count_occurrences(&toc, "<li><b><u>");
        assert_eq!(bold_items, 1, "toc for {} was: {}", target, toc);
        // directories never appear as anchors
        assert_eq!(
            count_occurrences(&toc, "<a href"),
            2,
            "toc for {} was: {}",
            target,
            toc
        );
    }
}

#[test]
fn deeper_pages_get_more_updirs() {
    let ledger = vec![
        dir(0, ""),
        page(1, "top.html"),
        dir(1, "a"),
        dir(2, "a/b"),
        page(3, "a/b/deep.html"),
    ];
    let toc = generate_table_of_contents(&ledger, 3, "a/b/deep.html", None);
    assert!(toc.contains("<a href=\"../../top.html\">top</a>"), "toc was: {}", toc);
}

#[test]
fn web_prefix_is_prepended_to_links() {
    let ledger = vec![dir(0, ""), page(1, "a.html"), page(1, "b.html")];
    let toc = generate_table_of_contents(&ledger, 1, "a.html", Some("./"));
    assert!(toc.contains("<a href=\"./b.html\">b</a>"), "toc was: {}", toc);
}

#[test]
fn ledger_without_pages_yields_bare_structure() {
    let ledger = vec![dir(0, ""), dir(1, "a"), dir(2, "a/b"), dir(1, "c")];
    let toc = generate_table_of_contents(&ledger, 1, "none.html", None);
    assert_eq!(toc, "<ul>");
    assert_eq!(count_occurrences(&toc, "<li>"), 0);
}

#[test]
fn folder_popped_before_any_page_gets_no_heading() {
    // the scan leaves "out/in" again before any page is reached: no heading
    let ledger = vec![
        dir(0, ""),
        dir(1, "out"),
        dir(2, "out/in"),
        dir(1, "other"),
        page(2, "other/x.html"),
    ];
    let toc = generate_table_of_contents(&ledger, 2, "other/x.html", None);
    assert!(!toc.contains("in:"), "toc was: {}", toc);
    assert!(toc.contains("<li><b><u>other:</u></b></li>"), "toc was: {}", toc);
}
