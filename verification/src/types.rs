//! The crawl's data: results, configuration, fetch errors and budgets.
use vstd::prelude::*;
use crate::numbers::{decimal_text, push_decimal};
use crate::text::{chars_of, is_prefix, starts_with};
use crate::weburl::ParsedUrl;

verus! {

broadcast use vstd::string::group_string_axioms;

/// A visited page and the links found on it.
#[derive(Debug, Clone, PartialEq)]
pub struct PageResult {
    pub url: ParsedUrl,
    pub links: Vec<ParsedUrl>,
}

/// Where a crawl starts and how many fetches may run at once.
#[derive(Debug, Clone)]
pub struct CrawlConfig {
    pub seed: ParsedUrl,
    pub concurrency: usize,
}

/// Why a fetch failed.
#[derive(Debug, Clone, PartialEq)]
pub enum FetchError {
    Http { status: u16 },
    Network(String),
    NonUtf8Body,
}

/// `HTTP error: status `
pub open spec fn http_error_text() -> Seq<char> {
    "HTTP error: status "@
}

/// `Network error: `
pub open spec fn network_error_text() -> Seq<char> {
    "Network error: "@
}

/// `Response body is not valid UTF-8`
pub open spec fn non_utf8_text() -> Seq<char> {
    "Response body is not valid UTF-8"@
}

impl FetchError {
    /// The human-readable description of the error.
    pub open spec fn describe(&self) -> Seq<char> {
        match self {
            FetchError::Http { status } => http_error_text() + decimal_text(*status as nat),
            FetchError::Network(msg) => network_error_text() + msg@,
            FetchError::NonUtf8Body => non_utf8_text(),
        }
    }

    /// The error as text, as its display shows it.
    pub fn message(&self) -> (text: String)
        ensures
            text@ == self.describe(),
    {
        match self {
            FetchError::Http { status } => {
                let mut digits: Vec<char> = Vec::new();
                push_decimal(&mut digits, *status as u64);
                let number = crate::text::string_of(&digits);
                let text = String::from_str("HTTP error: status ");
                text.concat(number.as_str())
            },
            FetchError::Network(msg) => {
                let text = String::from_str("Network error: ");
                text.concat(msg.as_str())
            },
            FetchError::NonUtf8Body => String::from_str("Response body is not valid UTF-8"),
        }
    }
}

/// Whether an HTTP status reports success: a `2xx` code.
pub open spec fn is_success_status(status: u16) -> bool {
    200 <= status <= 299
}

impl FetchError {
    /// The outcome a response with `status` allows: success for a `2xx`
    /// code, else an HTTP error carrying the status.
    pub fn check_status(status: u16) -> (r: Result<(), FetchError>)
        ensures
            is_success_status(status) ==> r is Ok,
            !is_success_status(status) ==> r == Err::<(), FetchError>(FetchError::Http { status }),
    {
        if 200 <= status && status <= 299 {
            Ok(())
        } else {
            Err(FetchError::Http { status })
        }
    }
}

/// Limits on a crawl: on the number of pages, and on the pages under each
/// path prefix.
#[derive(Debug, Clone, Default)]
pub struct CrawlBudget {
    pub max_pages: Option<usize>,
    pub path_limits: Vec<(String, usize)>,
}

/// The view of a list of path limits.
pub open spec fn limits_view(v: Seq<(String, usize)>) -> Seq<(Seq<char>, usize)> {
    v.map_values(|e: (String, usize)| (e.0@, e.1))
}

/// Some limit's prefix starts `path`.
pub open spec fn has_match(limits: Seq<(Seq<char>, usize)>, path: Seq<char>) -> bool {
    exists|j: int| 0 <= j < limits.len() && is_prefix(#[trigger] limits[j].0, path)
}

/// Entry `i` is the longest prefix of `path` among the limits, and the last
/// one of that length.
pub open spec fn is_longest_match(limits: Seq<(Seq<char>, usize)>, path: Seq<char>, i: int) -> bool {
    &&& 0 <= i < limits.len()
    &&& is_prefix(limits[i].0, path)
    &&& forall|j: int|
        0 <= j < limits.len() && is_prefix(#[trigger] limits[j].0, path) ==> limits[j].0.len()
            <= limits[i].0.len()
    &&& forall|j: int|
        i < j < limits.len() && is_prefix(#[trigger] limits[j].0, path) ==> limits[j].0.len()
            < limits[i].0.len()
}

/// The entry of the limits that governs `path`, if any.
pub open spec fn longest_match(limits: Seq<(Seq<char>, usize)>, path: Seq<char>) -> Option<int> {
    if exists|i: int| is_longest_match(limits, path, i) {
        Some(choose|i: int| is_longest_match(limits, path, i))
    } else {
        None
    }
}

/// Entry `e` governs `path`: its prefix starts `path` and no longer prefix
/// among the limits does. Every entry listing that prefix governs it.
pub open spec fn governs(limits: Seq<(Seq<char>, usize)>, path: Seq<char>, e: int) -> bool {
    &&& 0 <= e < limits.len()
    &&& is_prefix(limits[e].0, path)
    &&& forall|j: int|
        0 <= j < limits.len() && is_prefix(#[trigger] limits[j].0, path) ==> limits[j].0.len()
            <= limits[e].0.len()
}

/// The entries that govern a path are those listing the prefix of its
/// longest match; without a match, none does.
pub proof fn lemma_governs_longest(limits: Seq<(Seq<char>, usize)>, path: Seq<char>)
    ensures
        longest_match(limits, path) matches Some(b) ==> forall|e: int|
            #[trigger] governs(limits, path, e) <==> (0 <= e < limits.len() && limits[e].0 == limits[b].0),
        longest_match(limits, path) is None ==> forall|e: int| !#[trigger] governs(limits, path, e),
{
    if exists|i: int| is_longest_match(limits, path, i) {
        let b = choose|i: int| is_longest_match(limits, path, i);
        assert(is_longest_match(limits, path, b));
        assert forall|e: int| #[trigger] governs(limits, path, e) <==> (0 <= e < limits.len()
            && limits[e].0 == limits[b].0) by {
            if governs(limits, path, e) {
                assert(limits[e].0.len() <= limits[b].0.len());
                assert(limits[b].0.len() <= limits[e].0.len());
                assert(limits[e].0 =~= path.take(limits[e].0.len() as int));
                assert(limits[b].0 =~= path.take(limits[b].0.len() as int));
            }
        }
    } else {
        assert forall|e: int| !#[trigger] governs(limits, path, e) by {
            if governs(limits, path, e) {
                lemma_last_longest(limits, path, e);
            }
        }
    }
}

/// Where some prefix of the limits starts `path`, some entry is the
/// longest match.
proof fn lemma_last_longest(limits: Seq<(Seq<char>, usize)>, path: Seq<char>, e: int)
    requires
        governs(limits, path, e),
    ensures
        exists|i: int| is_longest_match(limits, path, i),
    decreases limits.len() - e,
{
    if exists|j: int| e < j < limits.len() && is_prefix(#[trigger] limits[j].0, path) && limits[j].0.len()
        == limits[e].0.len() {
        let j = choose|j: int| e < j < limits.len() && is_prefix(#[trigger] limits[j].0, path)
            && limits[j].0.len() == limits[e].0.len();
        lemma_last_longest(limits, path, j);
    } else {
        assert(is_longest_match(limits, path, e));
    }
}

/// At most one entry is the longest match.
pub proof fn lemma_longest_match_unique(limits: Seq<(Seq<char>, usize)>, path: Seq<char>, i: int, j: int)
    requires
        is_longest_match(limits, path, i),
        is_longest_match(limits, path, j),
    ensures
        i == j,
{
    assert(limits[i].0.len() <= limits[j].0.len());
    assert(limits[j].0.len() <= limits[i].0.len());
}

/// The governing entry is one of the limits.
pub proof fn lemma_longest_match_bounds(limits: Seq<(Seq<char>, usize)>, path: Seq<char>)
    ensures
        longest_match(limits, path) matches Some(i) ==> 0 <= i < limits.len(),
{
    if exists|i: int| is_longest_match(limits, path, i) {
        let i = choose|i: int| is_longest_match(limits, path, i);
        assert(is_longest_match(limits, path, i));
    }
}

impl CrawlBudget {
    /// The index of the limit that governs `path`: the longest matching
    /// prefix, the last one among equally long ones.
    pub fn matching_index(&self, path: &[char]) -> (r: Option<usize>)
        ensures
            r is None <==> !has_match(limits_view(self.path_limits@), path@),
            r matches Some(i) ==> is_longest_match(limits_view(self.path_limits@), path@, i as int),
            r matches Some(i) ==> longest_match(limits_view(self.path_limits@), path@) == Some(i as int),
            r is None ==> longest_match(limits_view(self.path_limits@), path@) is None,
    {
        let ghost limits = limits_view(self.path_limits@);
        let n = self.path_limits.len();
        let mut best: Option<usize> = None;
        let mut best_len: usize = 0;
        let mut i: usize = 0;
        while i < n
            invariant
                n == self.path_limits@.len() == limits.len(),
                limits == limits_view(self.path_limits@),
                i <= n,
                best is None ==> forall|j: int| 0 <= j < i ==> !is_prefix(#[trigger] limits[j].0, path@),
                best matches Some(b) ==> {
                    &&& b < i
                    &&& best_len == limits[b as int].0.len()
                    &&& is_prefix(limits[b as int].0, path@)
                    &&& forall|j: int|
                        0 <= j < i && is_prefix(#[trigger] limits[j].0, path@) ==> limits[j].0.len() <= best_len
                    &&& forall|j: int|
                        b < j < i && is_prefix(#[trigger] limits[j].0, path@) ==> limits[j].0.len() < best_len
                },
            decreases n - i,
        {
            let prefix = chars_of(self.path_limits[i].0.as_str());
            assert(prefix@ == limits[i as int].0);
            if starts_with(path, &prefix) {
                if best.is_none() || prefix.len() >= best_len {
                    best = Some(i);
                    best_len = prefix.len();
                }
            }
            i = i + 1;
        }
        proof {
            match best {
                Some(b) => {
                    assert(is_longest_match(limits, path@, b as int));
                    assert forall|k: int| is_longest_match(limits, path@, k) implies k == b by {
                        lemma_longest_match_unique(limits, path@, k, b as int);
                    }
                },
                None => {
                    assert forall|k: int| !is_longest_match(limits, path@, k) by {
                        if is_longest_match(limits, path@, k) {
                            assert(is_prefix(limits[k].0, path@));
                        }
                    }
                },
            }
        }
        best
    }

    /// The longest path prefix among the limits that `path` starts with;
    /// among equally long ones, the last.
    pub fn matching_prefix(&self, path: &str) -> (r: Option<&str>)
        ensures
            r is None <==> !has_match(limits_view(self.path_limits@), path@),
            r matches Some(p) ==> exists|i: int|
                is_longest_match(limits_view(self.path_limits@), path@, i) && p@
                    == limits_view(self.path_limits@)[i].0,
    {
        let p = chars_of(path);
        match self.matching_index(&p) {
            Some(i) => {
                let prefix = self.path_limits[i].0.as_str();
                assert(prefix@ == limits_view(self.path_limits@)[i as int].0);
                Some(prefix)
            },
            None => None,
        }
    }
}

} // verus!
