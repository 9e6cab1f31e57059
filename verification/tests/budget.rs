use crawl_boi::CrawlBudget;

#[test]
fn overlapping_prefixes_returns_longest_match() {
    let budget = CrawlBudget {
        max_pages: None,
        path_limits: vec![
            ("/blog/".to_string(), 10),
            ("/blog/2024/".to_string(), 5),
            ("/blog/2024/june/".to_string(), 2),
        ],
    };
    assert_eq!(budget.matching_prefix("/blog/2024/june/post"), Some("/blog/2024/june/"));
}

#[test]
fn no_matching_prefix_returns_none() {
    let budget = CrawlBudget {
        max_pages: None,
        path_limits: vec![("/blog/".to_string(), 10), ("/docs/".to_string(), 5)],
    };
    assert_eq!(budget.matching_prefix("/about"), None);
}

#[test]
fn exact_path_match_works() {
    let budget = CrawlBudget {
        max_pages: None,
        path_limits: vec![("/exact".to_string(), 3)],
    };
    assert_eq!(budget.matching_prefix("/exact"), Some("/exact"));
}

#[test]
fn empty_path_limits_always_returns_none() {
    let budget = CrawlBudget::default();
    assert_eq!(budget.matching_prefix("/anything/here"), None);
    assert_eq!(budget.matching_prefix("/"), None);
    assert_eq!(budget.matching_prefix(""), None);
}

#[test]
fn longest_prefix_match() {
    let limits = vec![
        ("/ab/".to_string(), 1),
        ("/ab/cd/".to_string(), 2),
        ("/x/".to_string(), 3),
        ("/ab/cd/e/".to_string(), 4),
    ];
    let budget = CrawlBudget { max_pages: None, path_limits: limits };
    assert_eq!(budget.matching_prefix("/ab/cd/e/zz"), Some("/ab/cd/e/"));
    assert_eq!(budget.matching_prefix("/ab/cdq"), Some("/ab/"));
    assert_eq!(budget.matching_prefix("/x/"), Some("/x/"));
    assert_eq!(budget.matching_index(&"/ab/cd/z".chars().collect::<Vec<_>>()), Some(1));
}

#[test]
fn equally_long_prefixes_pick_the_last() {
    let budget = CrawlBudget {
        max_pages: None,
        path_limits: vec![("/a/".to_string(), 1), ("/a/".to_string(), 9)],
    };
    assert_eq!(budget.matching_index(&"/a/b".chars().collect::<Vec<_>>()), Some(1));
}
