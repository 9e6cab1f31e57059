use crawl_boi::output::{format_error, format_plain};
use crawl_boi::{FetchError, PageResult, ParsedUrl};

fn url(s: &str) -> ParsedUrl {
    ParsedUrl::parse(s).unwrap()
}

#[test]
fn page_with_links_formats_correctly() {
    let result = PageResult {
        url: url("https://example.com/"),
        links: vec![url("https://example.com/a"), url("https://example.com/b")],
    };
    assert_eq!(
        format_plain(&result),
        "https://example.com/\n  https://example.com/a\n  https://example.com/b\n"
    );
}

#[test]
fn page_with_no_links_produces_single_line() {
    let result = PageResult { url: url("https://example.com/lonely"), links: vec![] };
    assert_eq!(format_plain(&result), "https://example.com/lonely\n");
}

#[test]
fn error_written_to_writer() {
    let output = format_error(&url("https://example.com/broken"), "HTTP error: status 500");
    assert_eq!(output, "https://example.com/broken: HTTP error: status 500\n");
}

#[test]
fn plain_text_format_structure() {
    let result = PageResult {
        url: url("https://example.com/x/y"),
        links: vec![url("https://example.com/a1"), url("https://example.com/b/c"), url("https://example.com/d")],
    };
    let output = format_plain(&result);
    let lines: Vec<&str> = output.lines().collect();
    assert_eq!(lines[0], result.url.as_str());
    assert_eq!(lines.len(), 1 + result.links.len());
    for (i, link) in result.links.iter().enumerate() {
        assert!(lines[i + 1].starts_with("  "));
        assert_eq!(lines[i + 1].trim(), link.as_str());
    }
}

#[test]
fn fetch_error_messages() {
    assert_eq!(FetchError::Http { status: 500 }.message(), "HTTP error: status 500");
    assert_eq!(FetchError::Http { status: 0 }.message(), "HTTP error: status 0");
    assert_eq!(FetchError::Http { status: 65535 }.message(), "HTTP error: status 65535");
    assert_eq!(FetchError::Network("refused".to_owned()).message(), "Network error: refused");
    assert_eq!(FetchError::NonUtf8Body.message(), "Response body is not valid UTF-8");
}

#[test]
fn error_status_codes_keep_their_status() {
    for status in [400u16, 404, 451, 500, 599] {
        let e = FetchError::Http { status };
        assert_eq!(e.message(), format!("HTTP error: status {status}"));
    }
}

#[test]
fn success_statuses_pass_and_others_become_http_errors() {
    assert_eq!(FetchError::check_status(200), Ok(()));
    assert_eq!(FetchError::check_status(299), Ok(()));
    assert_eq!(FetchError::check_status(199), Err(FetchError::Http { status: 199 }));
    assert_eq!(FetchError::check_status(300), Err(FetchError::Http { status: 300 }));
    for status in 400u16..=599 {
        assert_eq!(FetchError::check_status(status), Err(FetchError::Http { status }));
    }
}
