//! A web crawler's core logic: robots.txt rules, crawl scope, link
//! extraction, path budgets and the crawl scheduler, with the command
//! line's checks.
pub mod args;
pub mod crawler;
pub mod numbers;
pub mod ordered;
pub mod output;
pub mod parser;
pub mod robots;
pub mod robots_laws;
pub mod robots_stanzas;
pub mod scope;
pub mod text;
pub mod types;
pub mod weburl;

pub use crawler::Crawler;
pub use parser::extract_links;
pub use robots::{RobotsParser, RobotsRules};
pub use scope::CrawlScope;
pub use types::{CrawlBudget, CrawlConfig, FetchError, PageResult};
pub use weburl::ParsedUrl;
