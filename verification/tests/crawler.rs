use crawl_boi::{CrawlBudget, CrawlConfig, Crawler, FetchError, PageResult, ParsedUrl};

type Site = Vec<(String, Result<String, FetchError>)>;

fn url(s: &str) -> ParsedUrl {
    ParsedUrl::parse(s).unwrap()
}

fn config(seed: &str) -> CrawlConfig {
    CrawlConfig { seed: url(seed), concurrency: 4 }
}

fn html_with_links(links: &[&str]) -> String {
    let anchors: Vec<String> = links
        .iter()
        .map(|href| format!(r#"<a href="{href}">link</a>"#))
        .collect();
    format!("<html><body>{}</body></html>", anchors.join("\n"))
}

fn lookup(site: &Site, u: &ParsedUrl) -> Result<String, FetchError> {
    let key = u.as_str().split('#').next().unwrap_or("").to_owned();
    site.iter()
        .find(|(k, _)| *k == key)
        .map(|(_, v)| v.clone())
        .unwrap_or(Err(FetchError::Http { status: 404 }))
}

/// Runs a crawl against `site`, completing fetches in the order they were
/// handed out; returns the pages and every URL that was fetched.
fn crawl(config: CrawlConfig, budget: CrawlBudget, site: &Site) -> (Vec<PageResult>, Vec<String>) {
    let mut crawler = Crawler::new(config, budget);
    let robots = match crawler.robots_url() {
        Some(r) => lookup(site, &r),
        None => Err(FetchError::Http { status: 404 }),
    };
    crawler.start(robots);
    let mut fetched: Vec<String> = Vec::new();
    let mut pending: Vec<ParsedUrl> = Vec::new();
    loop {
        while let Some(next) = crawler.next_fetch() {
            fetched.push(next.as_str().to_owned());
            pending.push(next);
        }
        if pending.is_empty() {
            break;
        }
        let u = pending.remove(0);
        let outcome = lookup(site, &u);
        assert!(crawler.complete(&u, outcome));
    }
    (crawler.into_results(), fetched)
}

fn sorted_urls(results: &[PageResult]) -> Vec<String> {
    let mut urls: Vec<String> = results.iter().map(|r| r.url.as_str().to_owned()).collect();
    urls.sort();
    urls
}

fn run(seed: &str, site: &Site) -> Vec<PageResult> {
    crawl(config(seed), CrawlBudget::default(), site).0
}

#[test]
fn single_page_site() {
    let seed = "http://example.com/";
    let site: Site = vec![(seed.to_owned(), Ok(html_with_links(&[])))];
    let results = run(seed, &site);
    assert_eq!(results.len(), 1);
    assert_eq!(results[0].url, url(seed));
    assert!(results[0].links.is_empty());
}

#[test]
fn multi_page_site_with_links() {
    let seed = "http://example.com/";
    let page_a = "http://example.com/a";
    let page_b = "http://example.com/b";
    let site: Site = vec![
        (seed.to_owned(), Ok(html_with_links(&[page_a, page_b]))),
        (page_a.to_owned(), Ok(html_with_links(&[]))),
        (page_b.to_owned(), Ok(html_with_links(&[]))),
    ];
    let visited = sorted_urls(&run(seed, &site));
    assert_eq!(visited.len(), 3);
    assert!(visited.contains(&seed.to_owned()));
    assert!(visited.contains(&page_a.to_owned()));
    assert!(visited.contains(&page_b.to_owned()));
}

#[test]
fn site_graph_with_cycle() {
    let seed = "http://example.com/a";
    let page_b = "http://example.com/b";
    let site: Site = vec![
        (seed.to_owned(), Ok(html_with_links(&[page_b]))),
        (page_b.to_owned(), Ok(html_with_links(&[seed]))),
    ];
    let visited = sorted_urls(&run(seed, &site));
    assert_eq!(visited.len(), 2, "each URL fetched exactly once; got {visited:?}");
    assert!(visited.contains(&seed.to_owned()));
    assert!(visited.contains(&page_b.to_owned()));
}

#[test]
fn fetch_error_crawl_continues() {
    let seed = "http://example.com/";
    let page_a = "http://example.com/a";
    let page_b = "http://example.com/b";
    let site: Site = vec![
        (seed.to_owned(), Ok(html_with_links(&[page_a, page_b]))),
        (page_a.to_owned(), Err(FetchError::Http { status: 500 })),
        (page_b.to_owned(), Ok(html_with_links(&[]))),
    ];
    let visited = sorted_urls(&run(seed, &site));
    assert!(!visited.contains(&page_a.to_owned()), "errored page should not appear in results");
    assert!(visited.contains(&seed.to_owned()));
    assert!(visited.contains(&page_b.to_owned()));
}

#[test]
fn out_of_scope_links_discarded() {
    let seed = "http://example.com/";
    let external = "http://other.com/page";
    let internal = "http://example.com/internal";
    let site: Site = vec![
        (seed.to_owned(), Ok(html_with_links(&[external, internal]))),
        (internal.to_owned(), Ok(html_with_links(&[]))),
    ];
    let visited = sorted_urls(&run(seed, &site));
    assert!(!visited.contains(&external.to_owned()), "external URL must not be visited");
    assert!(visited.contains(&seed.to_owned()));
    assert!(visited.contains(&internal.to_owned()));
}

#[test]
fn robots_disallowed_urls_not_visited() {
    let seed = "http://example.com/";
    let allowed = "http://example.com/allowed";
    let disallowed = "http://example.com/private/secret";
    let site: Site = vec![
        (
            "http://example.com/robots.txt".to_owned(),
            Ok("User-agent: *\nDisallow: /private\n".to_owned()),
        ),
        (seed.to_owned(), Ok(html_with_links(&[allowed, disallowed]))),
        (allowed.to_owned(), Ok(html_with_links(&[]))),
    ];
    let visited = sorted_urls(&run(seed, &site));
    assert!(!visited.contains(&disallowed.to_owned()), "robots-disallowed URL must not be visited");
    assert!(visited.contains(&seed.to_owned()));
    assert!(visited.contains(&allowed.to_owned()));
}

/// A site of `paths` under http://example.com/ where every page links to
/// every other page.
fn fully_linked_site(paths: &[&str]) -> Site {
    let mut all: Vec<String> = vec!["http://example.com/".to_owned()];
    for p in paths {
        all.push(format!("http://example.com/{p}"));
    }
    all.iter()
        .map(|page| {
            let others: Vec<&str> = all.iter().filter(|u| *u != page).map(|u| u.as_str()).collect();
            (page.clone(), Ok(html_with_links(&others)))
        })
        .collect()
}

#[test]
fn no_url_fetched_more_than_once() {
    let graphs: Vec<Vec<&str>> = vec![
        vec![],
        vec!["a"],
        vec!["a", "b", "c"],
        vec!["abc", "de", "f", "ghijkl", "m", "no", "pq", "r"],
    ];
    for paths in graphs {
        let site = fully_linked_site(&paths);
        let (results, fetched) = crawl(config("http://example.com/"), CrawlBudget::default(), &site);
        let mut seen: Vec<String> = Vec::new();
        for r in &results {
            let s = r.url.as_str().to_owned();
            assert!(!seen.contains(&s), "URL fetched more than once: {s}");
            seen.push(s);
        }
        let mut distinct = fetched.clone();
        distinct.sort();
        distinct.dedup();
        assert_eq!(distinct.len(), fetched.len());
        assert_eq!(results.len(), paths.len() + 1);
    }
}

#[test]
fn max_pages_caps_the_crawl() {
    let site = fully_linked_site(&["a", "b", "c", "d"]);
    let budget = CrawlBudget { max_pages: Some(2), path_limits: Vec::new() };
    let (results, fetched) = crawl(config("http://example.com/"), budget, &site);
    assert_eq!(results.len(), 2);
    assert_eq!(fetched.len(), 2);
    assert_eq!(fetched[0], "http://example.com/");
    assert_eq!(fetched[1], "http://example.com/a");
}

#[test]
fn zero_max_pages_fetches_nothing() {
    let site = fully_linked_site(&["a"]);
    let budget = CrawlBudget { max_pages: Some(0), path_limits: Vec::new() };
    let (results, fetched) = crawl(config("http://example.com/"), budget, &site);
    assert!(results.is_empty());
    assert!(fetched.is_empty());
}

#[test]
fn path_budget_limits_pages_under_prefix() {
    let site = fully_linked_site(&["blog/1", "blog/2", "blog/3", "docs/1", "docs/2"]);
    let budget = CrawlBudget {
        max_pages: None,
        path_limits: vec![("/blog/".to_owned(), 1)],
    };
    let (results, _) = crawl(config("http://example.com/"), budget, &site);
    let visited = sorted_urls(&results);
    let blog: Vec<&String> = visited.iter().filter(|u| u.contains("/blog/")).collect();
    assert_eq!(blog.len(), 1);
    assert!(visited.contains(&"http://example.com/docs/1".to_owned()));
    assert!(visited.contains(&"http://example.com/docs/2".to_owned()));
    assert_eq!(visited.len(), 4);
}

#[test]
fn longest_path_budget_governs() {
    let site = fully_linked_site(&["blog/a", "blog/b", "blog/2024/x", "blog/2024/y"]);
    let budget = CrawlBudget {
        max_pages: None,
        path_limits: vec![("/blog/".to_owned(), 5), ("/blog/2024/".to_owned(), 1)],
    };
    let (results, _) = crawl(config("http://example.com/"), budget, &site);
    let visited = sorted_urls(&results);
    let recent: Vec<&String> = visited.iter().filter(|u| u.contains("/blog/2024/")).collect();
    assert_eq!(recent.len(), 1);
    assert!(visited.contains(&"http://example.com/blog/a".to_owned()));
    assert!(visited.contains(&"http://example.com/blog/b".to_owned()));
}

#[test]
fn robots_url_drops_path_query_and_fragment() {
    let crawler = Crawler::new(
        CrawlConfig { seed: url("https://example.com/start?x=1#top"), concurrency: 2 },
        CrawlBudget::default(),
    );
    assert_eq!(crawler.robots_url().unwrap().as_str(), "https://example.com/robots.txt");
}

#[test]
fn completing_an_unknown_url_changes_nothing() {
    let mut crawler = Crawler::new(config("http://example.com/"), CrawlBudget::default());
    crawler.start(Err(FetchError::Http { status: 404 }));
    let stray = url("http://example.com/never");
    assert!(!crawler.complete(&stray, Ok(html_with_links(&[]))));
    assert!(crawler.results().is_empty());
    let first = crawler.next_fetch().unwrap();
    assert_eq!(first.as_str(), "http://example.com/");
    assert!(crawler.next_fetch().is_none());
}

#[test]
fn no_fetch_before_start() {
    let mut crawler = Crawler::new(config("http://example.com/"), CrawlBudget::default());
    assert!(crawler.next_fetch().is_none());
}

#[test]
fn concurrency_bounds_fetches_in_flight() {
    let site = fully_linked_site(&["a", "b", "c", "d", "e"]);
    let mut crawler = Crawler::new(
        CrawlConfig { seed: url("http://example.com/"), concurrency: 2 },
        CrawlBudget::default(),
    );
    crawler.start(Err(FetchError::Network("down".to_owned())));
    let seed = crawler.next_fetch().unwrap();
    assert!(crawler.complete(&seed, lookup(&site, &seed)));
    assert!(crawler.next_fetch().is_some());
    assert!(crawler.next_fetch().is_some());
    assert!(crawler.next_fetch().is_none());
}

#[test]
fn links_are_queued_in_sorted_order() {
    let seed = "http://example.com/";
    let site: Site = vec![(
        seed.to_owned(),
        Ok(html_with_links(&["/c", "/a", "http://other.com/x", "/b#top", "/a"])),
    )];
    let (_, fetched) = crawl(config(seed), CrawlBudget::default(), &site);
    assert_eq!(
        fetched,
        vec![
            "http://example.com/".to_owned(),
            "http://example.com/a".to_owned(),
            "http://example.com/b".to_owned(),
            "http://example.com/c".to_owned(),
        ]
    );
}

#[test]
fn every_reachable_page_is_visited() {
    let seed = "http://example.com/";
    let site: Site = vec![
        (seed.to_owned(), Ok(html_with_links(&["/one"]))),
        ("http://example.com/one".to_owned(), Ok(html_with_links(&["/two"]))),
        ("http://example.com/two".to_owned(), Ok(html_with_links(&["/three", "/"]))),
        ("http://example.com/three".to_owned(), Ok(html_with_links(&[]))),
    ];
    let visited = sorted_urls(&run(seed, &site));
    assert_eq!(
        visited,
        vec![
            "http://example.com/".to_owned(),
            "http://example.com/one".to_owned(),
            "http://example.com/three".to_owned(),
            "http://example.com/two".to_owned(),
        ]
    );
}

#[test]
fn every_limit_of_a_repeated_prefix_caps_it() {
    let site = fully_linked_site(&["blog/1", "blog/2", "blog/3", "docs/1"]);
    for limits in [
        vec![("/blog/".to_owned(), 1), ("/blog/".to_owned(), 5)],
        vec![("/blog/".to_owned(), 5), ("/blog/".to_owned(), 1)],
    ] {
        let budget = CrawlBudget { max_pages: None, path_limits: limits };
        let (results, _) = crawl(config("http://example.com/"), budget, &site);
        let visited = sorted_urls(&results);
        let blog: Vec<&String> = visited.iter().filter(|u| u.contains("/blog/")).collect();
        assert_eq!(blog.len(), 1);
        assert!(visited.contains(&"http://example.com/docs/1".to_owned()));
    }
}

#[test]
fn seed_fragment_is_stripped() {
    let site: Site = vec![(
        "http://example.com/".to_owned(),
        Ok(html_with_links(&["http://example.com/"])),
    )];
    let (results, fetched) = crawl(config("http://example.com/#top"), CrawlBudget::default(), &site);
    assert_eq!(fetched, vec!["http://example.com/".to_owned()]);
    assert_eq!(results.len(), 1);
    assert_eq!(results[0].url.as_str(), "http://example.com/");
}
