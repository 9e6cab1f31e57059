use crawl_boi::parser::sorted_unique;
use crawl_boi::{extract_links, ParsedUrl};

fn base() -> ParsedUrl {
    ParsedUrl::parse("https://example.com/page/").unwrap()
}

fn url(s: &str) -> ParsedUrl {
    ParsedUrl::parse(s).unwrap()
}

#[test]
fn absolute_href_used_as_is() {
    let html = r#"<a href="https://other.com/foo">link</a>"#;
    assert_eq!(extract_links(&base(), html), vec![url("https://other.com/foo")]);
}

#[test]
fn relative_href_resolved_against_base() {
    let html = r#"<a href="../bar">link</a>"#;
    assert_eq!(extract_links(&base(), html), vec![url("https://example.com/bar")]);
}

#[test]
fn anchor_with_no_href_skipped() {
    let html = r#"<a name="top">no href</a>"#;
    assert!(extract_links(&base(), html).is_empty());
}

#[test]
fn fragment_stripped() {
    let html = r#"<a href="https://example.com/page#section">link</a>"#;
    assert_eq!(extract_links(&base(), html), vec![url("https://example.com/page")]);
}

#[test]
fn duplicate_links_deduplicated() {
    let html = r#"
        <a href="https://example.com/a">first</a>
        <a href="https://example.com/a">second</a>
        <a href="https://example.com/a#frag">third</a>
    "#;
    assert_eq!(extract_links(&base(), html), vec![url("https://example.com/a")]);
}

#[test]
fn links_returned_sorted() {
    let html = r#"
        <a href="https://example.com/z">z</a>
        <a href="https://example.com/a">a</a>
        <a href="https://example.com/m">m</a>
    "#;
    let links = extract_links(&base(), html);
    let texts: Vec<&str> = links.iter().map(|u| u.as_str()).collect();
    assert_eq!(texts, vec!["https://example.com/a", "https://example.com/m", "https://example.com/z"]);
}

#[test]
fn fragments_never_survive() {
    for (path, frag) in [("a", "b"), ("x9", "y"), ("page", "top1")] {
        let html = format!(r#"<a href="https://example.com/{path}#{frag}">link</a>"#);
        let links = extract_links(&base(), &html);
        assert!(links.iter().all(|u| u.fragment().is_none()));
        assert_eq!(links.len(), 1);
    }
}

#[test]
fn all_hrefs_extracted() {
    let paths = ["b", "a1", "zz", "c"];
    let html: String = paths.iter().map(|p| format!(r#"<a href="https://example.com/{p}">x</a>"#)).collect::<Vec<_>>().join("\n");
    let links = extract_links(&base(), &html);
    assert_eq!(links.len(), paths.len());
    for p in paths {
        assert!(links.contains(&url(&format!("https://example.com/{p}"))));
    }
}

#[test]
fn relative_hrefs_resolved() {
    let html = r#"<a href="/resolved/seg1">link</a>"#;
    assert_eq!(extract_links(&base(), html), vec![url("https://example.com/resolved/seg1")]);
}

#[test]
fn unresolvable_href_skipped() {
    let html = r#"<a href="http://[bad">x</a><a href="ok">y</a>"#;
    assert_eq!(extract_links(&base(), html), vec![url("https://example.com/page/ok")]);
}

#[test]
fn sorted_unique_sorts_and_drops_repeats() {
    let links = sorted_unique(vec![
        url("https://example.com/c"),
        url("https://example.com/a"),
        url("https://example.com/c"),
        url("https://example.com/B"),
        url("https://example.com/a"),
    ]);
    let got: Vec<&str> = links.iter().map(|l| l.as_str()).collect();
    assert_eq!(got, vec!["https://example.com/B", "https://example.com/a", "https://example.com/c"]);
    assert!(sorted_unique(Vec::new()).is_empty());
}
