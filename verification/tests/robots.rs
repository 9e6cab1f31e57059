use crawl_boi::{RobotsParser, RobotsRules};

#[test]
fn crawl_boi_stanza_disallows_path() {
    let robots = "\
User-agent: crawl-boi\n\
Disallow: /private\n";
    let rules = RobotsParser::parse(robots);
    assert!(!rules.is_allowed("/private/page"));
    assert!(rules.is_allowed("/public/page"));
}

#[test]
fn wildcard_stanza_disallows_path() {
    let robots = "\
User-agent: *\n\
Disallow: /secret\n";
    let rules = RobotsParser::parse(robots);
    assert!(!rules.is_allowed("/secret/stuff"));
    assert!(rules.is_allowed("/open"));
}

#[test]
fn crawl_boi_stanza_overrides_wildcard() {
    let robots = "\
User-agent: *\n\
Disallow: /wildcard-only\n\
\n\
User-agent: crawl-boi\n\
Disallow: /crawl-boi-only\n";
    let rules = RobotsParser::parse(robots);
    assert!(!rules.is_allowed("/crawl-boi-only/page"));
    assert!(rules.is_allowed("/wildcard-only/page"));
}

#[test]
fn empty_disallow_means_allow_all() {
    let robots = "\
User-agent: crawl-boi\n\
Disallow:\n";
    let rules = RobotsParser::parse(robots);
    assert!(rules.is_allowed("/anything"));
    assert!(rules.is_allowed("/"));
}

#[test]
fn missing_robots_means_allow_all() {
    let rules = RobotsParser::parse("");
    assert!(rules.is_allowed("/anything"));
    assert!(rules.is_allowed("/private"));
}

#[test]
fn is_allowed_prefix_semantics() {
    let rules = RobotsRules {
        disallowed_prefixes: vec!["/admin".to_owned(), "/internal".to_owned()],
    };
    assert!(!rules.is_allowed("/admin"));
    assert!(!rules.is_allowed("/admin/users"));
    assert!(!rules.is_allowed("/admins"));
    assert!(!rules.is_allowed("/internal/api"));
    assert!(rules.is_allowed("/public"));
    assert!(rules.is_allowed("/"));
}

fn single_stanza(agent: &str, paths: &[&str]) -> String {
    let mut body = format!("User-agent: {agent}\n");
    for p in paths {
        body.push_str(&format!("Disallow: {p}\n"));
    }
    body
}

#[test]
fn parse_extracts_every_disallow_rule() {
    let paths = ["/a", "/b1", "/zz9", "/q", "/m0x"];
    for agent in ["crawl-boi", "*"] {
        for n in 1..=paths.len() {
            let rules = RobotsParser::parse(&single_stanza(agent, &paths[..n]));
            assert_eq!(rules.disallowed_prefixes, paths[..n].iter().map(|p| p.to_string()).collect::<Vec<_>>());
            for p in &paths[..n] {
                assert!(!rules.is_allowed(p));
            }
        }
    }
}

#[test]
fn is_allowed_prefix_and_unrelated_paths() {
    for (prefix, suffix) in [("/a", ""), ("/abc", "x9"), ("/p0", "zzz"), ("/k", "0")] {
        let rules = RobotsRules { disallowed_prefixes: vec![prefix.to_string()] };
        assert!(!rules.is_allowed(&format!("{prefix}{suffix}")));
        let unrelated = format!("/zzzunrelated{suffix}");
        assert!(rules.is_allowed(&unrelated));
    }
}

#[test]
fn parse_is_deterministic() {
    let body = single_stanza("*", &["/x", "/y"]);
    assert_eq!(RobotsParser::parse(&body), RobotsParser::parse(&body));
}

#[test]
fn agent_and_field_names_ignore_ascii_case() {
    let rules = RobotsParser::parse("USER-AGENT: Crawl-Boi\ndisallow: /x\n");
    assert!(!rules.is_allowed("/x/y"));
}

#[test]
fn comments_and_crlf_are_ignored() {
    let rules = RobotsParser::parse("User-agent: * # everyone\r\nDisallow: /tmp # scratch\r\nDisallow: /a#b\r\n");
    assert_eq!(rules.disallowed_prefixes, vec!["/tmp".to_string(), "/a".to_string()]);
}

#[test]
fn other_agents_do_not_apply() {
    let rules = RobotsParser::parse("User-agent: googlebot\nDisallow: /g\n\nUser-agent: *\nDisallow: /w\n");
    assert!(rules.is_allowed("/g"));
    assert!(!rules.is_allowed("/w"));
}

#[test]
fn stanzas_for_one_agent_accumulate() {
    let rules = RobotsParser::parse(
        "User-agent: crawl-boi\nDisallow: /one\n\nUser-agent: crawl-boi\nUser-agent: *\nDisallow: /two\n",
    );
    assert_eq!(rules.disallowed_prefixes, vec!["/one".to_string(), "/two".to_string()]);
}

#[test]
fn last_stanza_without_trailing_newline_counts() {
    let rules = RobotsParser::parse("User-agent: *\nAllow: /\nDisallow: /end");
    assert_eq!(rules.disallowed_prefixes, vec!["/end".to_string()]);
}

#[test]
fn stanzas_are_collected_in_file_order() {
    let body = "User-agent: crawl-boi\nDisallow: /a\n\nUser-agent: *\nDisallow: /w\n\nUser-agent: other\nDisallow: /o\n\nUser-agent: CRAWL-BOI\nDisallow: /b\nDisallow: /c\n\n";
    let rules = RobotsParser::parse(body);
    assert_eq!(rules.disallowed_prefixes, vec!["/a".to_owned(), "/b".to_owned(), "/c".to_owned()]);
}

#[test]
fn crawl_boi_stanza_without_disallow_falls_back_to_wildcard() {
    let body = "User-agent: crawl-boi\n\nUser-agent: *\nDisallow: /x\n\n";
    let rules = RobotsParser::parse(body);
    assert_eq!(rules.disallowed_prefixes, vec!["/x".to_owned()]);
}
