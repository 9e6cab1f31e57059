use crawl_boi::{CrawlScope, ParsedUrl};

fn url(s: &str) -> ParsedUrl {
    ParsedUrl::parse(s).unwrap()
}

#[test]
fn same_host_allowed() {
    let scope = CrawlScope::new(&url("http://example.com/start"));
    assert!(scope.is_allowed(&url("http://example.com/page")));
}

#[test]
fn different_host_rejected() {
    let scope = CrawlScope::new(&url("http://example.com"));
    assert!(!scope.is_allowed(&url("http://other.com/page")));
}

#[test]
fn mailto_scheme_rejected() {
    let scope = CrawlScope::new(&url("http://example.com"));
    assert!(!scope.is_allowed(&url("mailto:user@example.com")));
}

#[test]
fn ftp_scheme_rejected() {
    let scope = CrawlScope::new(&url("http://example.com"));
    assert!(!scope.is_allowed(&url("ftp://example.com/file.txt")));
}

#[test]
fn https_seed_rejects_http_candidate() {
    let scope = CrawlScope::new(&url("https://example.com"));
    assert!(!scope.is_allowed(&url("http://example.com/page")));
}

#[test]
fn http_seed_rejects_https_candidate() {
    let scope = CrawlScope::new(&url("http://example.com"));
    assert!(!scope.is_allowed(&url("https://example.com/page")));
}

#[test]
fn fragment_stripped_before_comparison() {
    let scope = CrawlScope::new(&url("http://example.com"));
    assert!(scope.is_allowed(&url("http://example.com/page#section")));
}

#[test]
fn same_scheme_same_host_allowed_for_many_hosts() {
    for scheme in ["http", "https"] {
        for host in ["a", "example.com", "sub.host.org"] {
            let scope = CrawlScope::new(&url(&format!("{scheme}://{host}/seed")));
            assert!(scope.is_allowed(&url(&format!("{scheme}://{host}/x/y9"))));
            assert!(!scope.is_allowed(&url(&format!("{scheme}://other{host}/x"))));
        }
    }
}

#[test]
fn non_http_schemes_rejected() {
    let scope = CrawlScope::new(&url("https://host.org/"));
    for bad in ["ftp", "ftps", "file", "ws", "wss"] {
        if let Ok(candidate) = ParsedUrl::parse(&format!("{bad}://host.org/page")) {
            assert!(!scope.is_allowed(&candidate));
        }
    }
}
