use simple_ssg::links::{process_djot, process_markdown, resolve_target, rewrite_link_dest};

fn files(names: &[&str]) -> Vec<String> {
    names.iter().map(|s| s.to_string()).collect()
}

#[test]
fn rewrite_swaps_markup_extensions_and_prefixes() {
    assert_eq!(rewrite_link_dest("nested2/hey.dj", "", None), "nested2/hey.html");
    assert_eq!(rewrite_link_dest("../index.dj", "nested2", None), "../index.html");
    assert_eq!(rewrite_link_dest("notes.md", "", Some("./")), "./notes.html");
    assert_eq!(rewrite_link_dest("deep/page.djot", "a", Some("/site/")), "/site/deep/page.html");
}

#[test]
fn rewrite_leaves_other_destinations_alone() {
    assert_eq!(rewrite_link_dest("https://example.com/page", "", None), "https://example.com/page");
    assert_eq!(rewrite_link_dest("style.css", "", None), "style.css");
    assert_eq!(rewrite_link_dest("#anchor", "a", Some("./")), "#anchor");
    assert_eq!(rewrite_link_dest("already.html", "", None), "already.html");
}

#[test]
fn resolve_target_normalizes_inside_the_site() {
    assert_eq!(resolve_target("nested2", "../index.dj"), Some("index.dj".to_string()));
    assert_eq!(resolve_target("a/b", "./c.dj"), Some("a/b/c.dj".to_string()));
    assert_eq!(resolve_target("", "x.dj"), Some("x.dj".to_string()));
    assert_eq!(resolve_target("", "../escape.dj"), None);
    assert_eq!(resolve_target("a", "/absolute.dj"), None);
}

#[test]
fn djot_page_renders_with_rewritten_link() {
    let tree = files(&["index.dj", "nested2/hey.dj"]);
    let (html, dangling) = process_djot(
        "# Hey everyone!\n\nThis is an example djot file!\n\n[HIHIDHI](nested2/hey.dj)",
        "",
        None,
        &tree,
    );
    assert!(html.contains("nested2/hey.html"), "html was: {}", html);
    assert!(!html.contains("nested2/hey.dj"), "html was: {}", html);
    assert!(html.contains("<h1"), "html was: {}", html);
    assert!(dangling.is_empty(), "dangling was: {:?}", dangling);
}

#[test]
fn djot_back_link_resolves_through_parent() {
    let tree = files(&["index.dj", "nested2/hey.dj"]);
    let (html, dangling) = process_djot(
        "File 2\n\n### Hey\n\n[link](../index.dj)",
        "nested2",
        None,
        &tree,
    );
    assert!(html.contains("../index.html"), "html was: {}", html);
    assert!(dangling.is_empty(), "dangling was: {:?}", dangling);
}

#[test]
fn djot_dangling_link_is_rewritten_and_reported() {
    let tree = files(&["index.dj"]);
    let (html, dangling) = process_djot("see [here](missing.dj)", "", None, &tree);
    assert!(html.contains("missing.html"), "html was: {}", html);
    assert_eq!(dangling, vec!["missing.dj".to_string()]);
}

#[test]
fn djot_external_and_asset_links_are_kept() {
    let tree = files(&["index.dj"]);
    let (html, dangling) = process_djot(
        "[a](https://example.com/x) and [b](style.css)",
        "",
        None,
        &tree,
    );
    assert!(html.contains("https://example.com/x"), "html was: {}", html);
    assert!(html.contains("style.css"), "html was: {}", html);
    assert!(dangling.is_empty(), "dangling was: {:?}", dangling);
}

#[test]
fn markdown_page_renders_with_rewritten_link() {
    let tree = files(&["hey.md"]);
    let (html, dangling) = process_markdown("# Title\n\n[x](hey.md)", "", None, &tree);
    assert!(html.contains("hey.html"), "html was: {}", html);
    assert!(html.contains("<h1>"), "html was: {}", html);
    assert!(dangling.is_empty(), "dangling was: {:?}", dangling);
}

#[test]
fn markdown_dangling_link_is_rewritten_and_reported() {
    let tree = files(&[]);
    let (html, dangling) = process_markdown("[x](gone.md)", "sub", None, &tree);
    assert!(html.contains("gone.html"), "html was: {}", html);
    assert_eq!(dangling, vec!["sub/gone.md".to_string()]);
}

#[test]
fn markdown_prefix_is_prepended() {
    let tree = files(&["hey.md"]);
    let (html, _) = process_markdown("[x](hey.md)", "", Some("./"), &tree);
    assert!(html.contains("./hey.html"), "html was: {}", html);
}
