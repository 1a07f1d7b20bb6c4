use simple_ssg::ledger::FirstPassResult;
use simple_ssg::links::process_djot;
use simple_ssg::site::generate_site_outputs;
use simple_ssg::text::wrap_html_content;

fn files(names: &[&str]) -> Vec<String> {
    names.iter().map(|s| s.to_string()).collect()
}

/// The first pass of the linked-site scenario, run over in-memory documents:
/// an index at the root linking down, and two nested documents linking back
/// up and across.
fn linked_site_ledger() -> Vec<FirstPassResult> {
    let tree = files(&["index.dj", "nested2/hey.dj", "nested3/third_file.dj"]);
    let (index_html, d1) = process_djot(
        "# Hey everyone!\n\nThis is an example djot file!\n\n> Hey what's up. Link:\n\n[HIHIDHI](nested2/hey.dj)",
        "",
        None,
        &tree,
    );
    let (hey_html, d2) = process_djot(
        "File 2\n\n### Hey\n\n[link](../index.dj)",
        "nested2",
        None,
        &tree,
    );
    let (third_html, d3) = process_djot(
        "File 3\n\n### What's good in the hous\n\n[link](../nested2/hey.dj)",
        "nested3",
        None,
        &tree,
    );
    assert!(d1.is_empty() && d2.is_empty() && d3.is_empty());
    vec![
        FirstPassResult::Dir { depth: 0, relative_path: "".to_string() },
        FirstPassResult::HtmlOutput {
            depth: 1,
            html: index_html,
            relative_path: "index.html".to_string(),
        },
        FirstPassResult::Dir { depth: 1, relative_path: "nested2".to_string() },
        FirstPassResult::HtmlOutput {
            depth: 2,
            html: hey_html,
            relative_path: "nested2/hey.html".to_string(),
        },
        FirstPassResult::Dir { depth: 1, relative_path: "nested3".to_string() },
        FirstPassResult::HtmlOutput {
            depth: 2,
            html: third_html,
            relative_path: "nested3/third_file.html".to_string(),
        },
    ]
}

#[test]
fn empty_ledger_produces_no_outputs() {
    let ledger: Vec<FirstPassResult> = Vec::new();
    assert!(generate_site_outputs(&ledger, None).is_empty());
}

#[test]
fn linked_site_produces_one_output_per_page() {
    let outputs = generate_site_outputs(&linked_site_ledger(), None);
    let paths: Vec<&str> = outputs.iter().map(|o| o.relative_path.as_str()).collect();
    assert_eq!(paths, vec!["index.html", "nested2/hey.html", "nested3/third_file.html"]);
    for o in &outputs {
        assert!(!o.relative_path.ends_with(".dj"));
    }
}

#[test]
fn linked_site_pages_point_at_rendered_siblings() {
    let outputs = generate_site_outputs(&linked_site_ledger(), None);
    assert!(outputs[0].contents.contains("nested2/hey.html"), "index was: {}", outputs[0].contents);
    assert!(outputs[1].contents.contains("../index.html"), "hey was: {}", outputs[1].contents);
    assert!(
        outputs[2].contents.contains("../nested2/hey.html"),
        "third was: {}",
        outputs[2].contents
    );
}

#[test]
fn second_pass_substitutes_the_toc_marker() {
    let ledger = vec![
        FirstPassResult::Dir { depth: 0, relative_path: "".to_string() },
        FirstPassResult::HtmlOutput {
            depth: 1,
            html: "<nav><!-- {TABLE_OF_CONTENTS} --></nav><p>body</p>".to_string(),
            relative_path: "index.html".to_string(),
        },
        FirstPassResult::HtmlOutput {
            depth: 1,
            html: "<p>other</p>".to_string(),
            relative_path: "other.html".to_string(),
        },
    ];
    let outputs = generate_site_outputs(&ledger, None);
    assert_eq!(outputs.len(), 2);
    assert_eq!(
        outputs[0].contents,
        "<nav><ul><li><b>index</b></li><li><a href=\"other.html\">other</a></li></ul></nav><p>body</p>"
    );
    assert_eq!(outputs[1].contents, "<p>other</p>");
}

#[test]
fn rebuilding_an_unchanged_ledger_reproduces_the_outputs() {
    let ledger = linked_site_ledger();
    let first = generate_site_outputs(&ledger, None);
    let second = generate_site_outputs(&ledger, None);
    assert_eq!(first.len(), second.len());
    for (a, b) in first.iter().zip(second.iter()) {
        assert_eq!(a.relative_path, b.relative_path);
        assert_eq!(a.contents, b.contents);
    }
}

#[test]
fn template_wrapping_composes_with_the_second_pass() {
    let template = "<html><!-- {CONTENT} --></html>";
    let tree = files(&["index.dj"]);
    let (body, _) = process_djot("hello", "", None, &tree);
    let wrapped = wrap_html_content(&body, Some(template));
    assert!(wrapped.starts_with("<html>"), "wrapped was: {}", wrapped);
    assert!(wrapped.ends_with("</html>"), "wrapped was: {}", wrapped);
    assert!(wrapped.contains("hello"), "wrapped was: {}", wrapped);
}
