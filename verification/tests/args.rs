use crawl_boi::args::{check_parsed_url, parse_path_budget, validate_url, Args, Commands, OutputFormat};
use crawl_boi::ParsedUrl;

#[test]
fn invalid_url_rejected() {
    assert!(validate_url("not-a-url").is_err());
}

#[test]
fn ftp_url_rejected() {
    let result = validate_url("ftp://example.com");
    assert!(result.is_err());
    assert!(result.unwrap_err().contains("http or https"));
}

#[test]
fn valid_http_url_accepted() {
    let result = validate_url("http://example.com");
    assert!(result.is_ok());
    assert_eq!(result.unwrap().as_str(), "http://example.com/");
}

#[test]
fn valid_https_url_accepted() {
    assert!(validate_url("https://example.com/page").is_ok());
}

#[test]
fn parse_path_budget_valid() {
    assert_eq!(parse_path_budget("/blog/,10"), Ok(("/blog/".to_owned(), 10)));
}

#[test]
fn parse_path_budget_rejects_missing_comma() {
    assert!(parse_path_budget("/blog/10").is_err());
}

#[test]
fn parse_path_budget_rejects_empty_prefix() {
    let result = parse_path_budget(",5");
    assert!(result.is_err());
    assert!(result.unwrap_err().contains("empty"));
}

#[test]
fn parse_path_budget_rejects_prefix_not_starting_with_slash() {
    let result = parse_path_budget("blog/,5");
    assert!(result.is_err());
    assert!(result.unwrap_err().contains("start with '/'"));
}

#[test]
fn parse_path_budget_rejects_non_numeric_count() {
    let result = parse_path_budget("/blog/,abc");
    assert!(result.is_err());
    assert!(result.unwrap_err().contains("integer"));
}

#[test]
fn parse_path_budget_handles_prefix_containing_commas() {
    assert_eq!(parse_path_budget("/a,b,c/,7"), Ok(("/a,b,c/".to_owned(), 7)));
}

#[test]
fn path_budget_error_messages_are_exact() {
    assert_eq!(
        parse_path_budget("/blog/10"),
        Err("invalid path-budget \"/blog/10\": expected format \"/prefix/,N\"".to_owned())
    );
    assert_eq!(
        parse_path_budget(",5"),
        Err("invalid path-budget \",5\": prefix must not be empty".to_owned())
    );
    assert_eq!(
        parse_path_budget("blog/,5"),
        Err("invalid path-budget \"blog/,5\": prefix must start with '/'".to_owned())
    );
    assert_eq!(
        parse_path_budget("/b/,-1"),
        Err("invalid path-budget \"/b/,-1\": count must be a non-negative integer".to_owned())
    );
}

#[test]
fn path_budget_counts_parse_like_usize() {
    assert_eq!(parse_path_budget("/a,+12"), Ok(("/a".to_owned(), 12)));
    assert_eq!(parse_path_budget("/a,0"), Ok(("/a".to_owned(), 0)));
    assert!(parse_path_budget("/a,").is_err());
    assert!(parse_path_budget("/a,+").is_err());
    assert!(parse_path_budget("/a,99999999999999999999999").is_err());
    assert_eq!(parse_path_budget("/a,18446744073709551615"), Ok(("/a".to_owned(), usize::MAX)));
}

#[test]
fn invalid_urls_rejected() {
    for raw in ["example.com", "ftp://host.org", "mailto://abc.de", "file://abc.de", "", "abc"] {
        assert!(validate_url(raw).is_err(), "{raw}");
    }
}

#[test]
fn malformed_path_budget_rejected() {
    for value in ["abc/", ",12", "ab/,3", "/ab/,xy"] {
        assert!(parse_path_budget(value).is_err(), "{value}");
    }
}

#[test]
fn scheme_error_names_the_scheme() {
    assert_eq!(
        validate_url("ftp://example.com"),
        Err("URL scheme must be http or https, got: ftp".to_owned())
    );
    assert!(validate_url("not-a-url").unwrap_err().starts_with("invalid URL: "));
}

fn args(url: &str, concurrency: Option<usize>, max_pages: Option<usize>, budgets: &[&str]) -> Args {
    Args {
        url: url.to_owned(),
        command: Commands::Crawl {
            concurrency,
            max_pages,
            path_budget: budgets.iter().map(|s| s.to_string()).collect(),
            format: OutputFormat::Plain,
        },
    }
}

#[test]
fn crawl_settings_use_defaults() {
    let (config, budget) = args("https://example.com", None, None, &[]).crawl_settings().unwrap();
    assert_eq!(config.concurrency, 8);
    assert_eq!(config.seed.as_str(), "https://example.com/");
    assert_eq!(budget.max_pages, None);
    assert!(budget.path_limits.is_empty());
}

#[test]
fn crawl_settings_collect_budgets() {
    let (config, budget) = args("https://example.com", Some(16), Some(50), &["/blog/,10", "/docs/,5"])
        .crawl_settings()
        .unwrap();
    assert_eq!(config.concurrency, 16);
    assert_eq!(budget.max_pages, Some(50));
    assert_eq!(budget.path_limits, vec![("/blog/".to_string(), 10), ("/docs/".to_string(), 5)]);
}

#[test]
fn crawl_settings_report_first_error() {
    assert_eq!(
        args("https://example.com", None, None, &["/ok/,1", "bad,1", ",2"]).crawl_settings().unwrap_err(),
        "invalid path-budget \"bad,1\": prefix must start with '/'"
    );
    assert!(args("ftp://example.com", None, None, &["bad"]).crawl_settings().unwrap_err().contains("http or https"));
}

#[test]
fn parsed_urls_are_checked_by_scheme() {
    let ok = check_parsed_url(ParsedUrl::parse("https://example.com/x")).unwrap();
    assert_eq!(ok.as_str(), "https://example.com/x");
    assert_eq!(
        check_parsed_url(ParsedUrl::parse("ws://example.com/")).unwrap_err(),
        "URL scheme must be http or https, got: ws"
    );
    assert_eq!(
        check_parsed_url(Err("relative URL without a base".to_owned())).unwrap_err(),
        "invalid URL: relative URL without a base"
    );
}
