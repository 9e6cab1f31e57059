//! The command line's values and the checks made on them before a crawl.
use vstd::prelude::*;
use crate::numbers::{decimal_text, is_digit, lemma_parse_written_number, parse_usize, parsed_usize};
use crate::scope::{http_scheme, https_scheme};
use crate::text::{chars_of, copy_range, same_chars, string_of};
use crate::types::{CrawlBudget, CrawlConfig, limits_view};
use crate::weburl::{ParsedUrl, UrlParts, url_parse_outcome};

verus! {

broadcast use vstd::string::group_string_axioms;

/// How results are written out.
#[derive(Debug, Clone, Copy, PartialEq, Eq, Structural)]
pub enum OutputFormat {
    /// One URL per line, links indented beneath.
    Plain,
    /// One JSON object per line.
    Jsonl,
}

/// The subcommands.
#[derive(Debug)]
pub enum Commands {
    /// Crawl the target URL and print results.
    Crawl {
        concurrency: Option<usize>,
        max_pages: Option<usize>,
        path_budget: Vec<String>,
        format: OutputFormat,
    },
}

/// The command line.
#[derive(Debug)]
pub struct Args {
    pub url: String,
    pub command: Commands,
}

/// Index of the last `c` in `s`, or -1.
pub open spec fn last_pos(s: Seq<char>, c: char) -> int
    decreases s.len(),
{
    if s.len() == 0 {
        -1
    } else if s.last() == c {
        s.len() - 1
    } else {
        last_pos(s.drop_last(), c)
    }
}

/// The message for a rejected `--path-budget` value.
pub open spec fn budget_error(value: Seq<char>, reason: Seq<char>) -> Seq<char> {
    "invalid path-budget \""@ + value + "\": "@ + reason
}

/// What `parse_path_budget` makes of `value`: split at the last comma
/// into a prefix, which must be non-empty and start with `/`, and a count.
pub open spec fn path_budget_outcome(value: Seq<char>) -> Result<(Seq<char>, usize), Seq<char>> {
    let p = last_pos(value, ',');
    if p < 0 {
        Err(budget_error(value, "expected format \"/prefix/,N\""@))
    } else {
        let prefix = value.take(p);
        let count = value.skip(p + 1);
        if prefix.len() == 0 {
            Err(budget_error(value, "prefix must not be empty"@))
        } else if prefix[0] != '/' {
            Err(budget_error(value, "prefix must start with '/'"@))
        } else {
            match parsed_usize(count) {
                Some(n) => Ok((prefix, n)),
                None => Err(budget_error(value, "count must be a non-negative integer"@)),
            }
        }
    }
}

proof fn lemma_last_pos(s: Seq<char>, c: char, i: int)
    requires
        -1 <= i < s.len(),
        forall|j: int| i < j < s.len() ==> s[j] != c,
        i >= 0 ==> s[i] == c,
    ensures
        last_pos(s, c) == i,
    decreases s.len(),
{
    if s.len() > 0 && i < s.len() - 1 {
        assert forall|j: int| i < j < s.len() - 1 implies s.drop_last()[j] != c by {
            assert(s.drop_last()[j] == s[j]);
        }
        lemma_last_pos(s.drop_last(), c, i);
    }
}

/// A path budget written as `<prefix>,<count>` reads back as that prefix
/// and count: for every prefix that starts with `/` (commas in it
/// included) and every count, the value splits at its last comma into
/// exactly these two.
pub proof fn lemma_path_budget_reads_back(prefix: Seq<char>, count: usize)
    requires
        prefix.len() > 0,
        prefix[0] == '/',
    ensures
        path_budget_outcome(prefix + seq![','] + decimal_text(count as nat)) == Ok::<
            (Seq<char>, usize),
            Seq<char>,
        >((prefix, count)),
{
    let digits = decimal_text(count as nat);
    let v = prefix + seq![','] + digits;
    lemma_parse_written_number(count);
    crate::numbers::lemma_decimal_text(count as nat);
    assert forall|j: int| prefix.len() < j < v.len() implies v[j] != ',' by {
        assert(v[j] == digits[j - prefix.len() - 1]);
        assert(is_digit(digits[j - prefix.len() - 1]));
    }
    lemma_last_pos(v, ',', prefix.len() as int);
    assert(v.take(prefix.len() as int) =~= prefix);
    assert(v.skip(prefix.len() as int + 1) =~= digits);
}

/// A value without a comma is refused; so is one whose part before the
/// last comma is empty or does not start with `/`.
pub proof fn lemma_path_budget_refusals(value: Seq<char>)
    ensures
        (forall|j: int| 0 <= j < value.len() ==> value[j] != ',') ==> path_budget_outcome(value) is Err,
        forall|j: int|
            0 <= j < value.len() && #[trigger] value[j] == ',' && (forall|k: int| j < k < value.len() ==> value[k] != ',')
                && (j == 0 || value[0] != '/') ==> path_budget_outcome(value) is Err,
{
    if forall|j: int| 0 <= j < value.len() ==> value[j] != ',' {
        lemma_last_pos(value, ',', -1);
    }
    assert forall|j: int|
        0 <= j < value.len() && #[trigger] value[j] == ',' && (forall|k: int| j < k < value.len() ==> value[k] != ',')
            && (j == 0 || value[0] != '/') implies path_budget_outcome(value) is Err by {
        lemma_last_pos(value, ',', j);
        if j > 0 {
            assert(value.take(j)[0] == value[0]);
        }
    }
}

/// The error message for `value` and `reason`.
fn budget_message(value: &str, reason: &str) -> (m: String)
    ensures
        m@ == budget_error(value@, reason@),
{
    let m = String::from_str("invalid path-budget \"");
    let m = m.concat(value);
    let m = m.concat("\": ");
    m.concat(reason)
}

/// Parses a `--path-budget` value of the form `"/prefix/,N"`.
///
/// Splits on the last comma so that prefixes containing commas are handled
/// correctly. Returns `(prefix, count)` on success or a descriptive error
/// message on failure.
pub fn parse_path_budget(value: &str) -> (r: Result<(String, usize), String>)
    ensures
        match r {
            Ok((prefix, count)) => path_budget_outcome(value@) == Ok::<(Seq<char>, usize), Seq<char>>((prefix@, count)),
            Err(e) => path_budget_outcome(value@) == Err::<(Seq<char>, usize), Seq<char>>(e@),
        },
{
    let v = chars_of(value);
    let n = v.len();
    let mut i: usize = n;
    while i > 0 && v[i - 1] != ','
        invariant
            i <= n == v@.len(),
            forall|j: int| i <= j < n ==> v@[j] != ',',
        decreases i,
    {
        i = i - 1;
    }
    proof {
        lemma_last_pos(v@, ',', i - 1);
    }
    if i == 0 {
        return Err(budget_message(value, "expected format \"/prefix/,N\""));
    }
    let comma = i - 1;
    let prefix = copy_range(&v, 0, comma);
    let count = copy_range(&v, comma + 1, n);
    assert(prefix@ =~= v@.take(comma as int));
    assert(count@ =~= v@.skip(comma + 1));
    if prefix.len() == 0 {
        return Err(budget_message(value, "prefix must not be empty"));
    }
    if prefix[0] != '/' {
        return Err(budget_message(value, "prefix must start with '/'"));
    }
    match parse_usize(&count) {
        Some(c) => Ok((string_of(&prefix), c)),
        None => Err(budget_message(value, "count must be a non-negative integer")),
    }
}

/// What validation makes of the outcome of parsing a URL: the URL if it
/// parsed and its scheme is `http` or `https`, else a message.
pub open spec fn validation_of(parsed: Result<UrlParts, Seq<char>>) -> Result<UrlParts, Seq<char>> {
    match parsed {
        Err(e) => Err("invalid URL: "@ + e),
        Ok(u) => if u.scheme == http_scheme() || u.scheme == https_scheme() {
            Ok(u)
        } else {
            Err("URL scheme must be http or https, got: "@ + u.scheme)
        },
    }
}

/// `http` or `https`.
pub open spec fn web_scheme(scheme: Seq<char>) -> bool {
    scheme == seq!['h', 't', 't', 'p'] || scheme == seq!['h', 't', 't', 'p', 's']
}

/// Validation keeps an accepted URL exactly as it was parsed, query and
/// fragment included; it refuses every other scheme and every parse error.
pub proof fn lemma_validation_keeps_url(parsed: Result<UrlParts, Seq<char>>)
    ensures
        forall|u: UrlParts|
            parsed == Ok::<UrlParts, Seq<char>>(u) && web_scheme(u.scheme) ==> validation_of(parsed)
                == Ok::<UrlParts, Seq<char>>(u),
        forall|u: UrlParts|
            parsed == Ok::<UrlParts, Seq<char>>(u) && !web_scheme(u.scheme) ==> validation_of(
                parsed,
            ) is Err,
        parsed is Err ==> validation_of(parsed) is Err,
{
}

/// `validate_url` accepts exactly the URLs that parse with an `http` or
/// `https` scheme, and gives back the parsed URL itself.
pub proof fn lemma_validated_url_is_parse(raw: Seq<char>)
    ensures
        forall|u: UrlParts|
            url_parse_outcome(raw) == Ok::<UrlParts, Seq<char>>(u) && web_scheme(u.scheme) ==> validated_url(raw)
                == Ok::<UrlParts, Seq<char>>(u),
        forall|v: UrlParts|
            validated_url(raw) == Ok::<UrlParts, Seq<char>>(v) ==> url_parse_outcome(raw) == Ok::<
                UrlParts,
                Seq<char>,
            >(v) && web_scheme(v.scheme),
{
}

/// What `validate_url` makes of `raw`.
pub open spec fn validated_url(raw: Seq<char>) -> Result<UrlParts, Seq<char>> {
    validation_of(url_parse_outcome(raw))
}

/// The view of a parse outcome.
pub open spec fn outcome_view(parsed: Result<ParsedUrl, String>) -> Result<UrlParts, Seq<char>> {
    match parsed {
        Ok(u) => Ok(u@),
        Err(e) => Err(e@),
    }
}

/// Checks the outcome of parsing a URL: a parse error becomes
/// `invalid URL: <error>`, and a URL whose scheme is neither `http` nor
/// `https` is refused with a message naming its scheme.
pub fn check_parsed_url(parsed: Result<ParsedUrl, String>) -> (r: Result<ParsedUrl, String>)
    ensures
        outcome_view(r) == validation_of(outcome_view(parsed)),
{
    match parsed {
        Err(e) => {
            let m = String::from_str("invalid URL: ");
            Err(m.concat(e.as_str()))
        },
        Ok(u) => {
            let scheme = chars_of(u.scheme());
            let http: Vec<char> = vec!['h', 't', 't', 'p'];
            let https: Vec<char> = vec!['h', 't', 't', 'p', 's'];
            proof {
                assert(http@ =~= http_scheme());
                assert(https@ =~= https_scheme());
            }
            if same_chars(&scheme, &http) || same_chars(&scheme, &https) {
                Ok(u)
            } else {
                let m = String::from_str("URL scheme must be http or https, got: ");
                Err(m.concat(u.scheme()))
            }
        },
    }
}

/// Validates that the URL string is a valid http or https URL.
/// Returns the parsed URL on success or an error message on failure.
pub fn validate_url(raw: &str) -> (r: Result<ParsedUrl, String>)
    ensures
        outcome_view(r) == validated_url(raw@),
{
    check_parsed_url(ParsedUrl::parse(raw))
}

/// The concurrency used when the command line names none.
pub const DEFAULT_CONCURRENCY: usize = 8;

/// The path limits that `values` parse to, or the message of the first one
/// that does not parse.
pub open spec fn path_limits_outcome(values: Seq<Seq<char>>) -> Result<Seq<(Seq<char>, usize)>, Seq<char>>
    decreases values.len(),
{
    if values.len() == 0 {
        Ok(seq![])
    } else {
        match path_limits_outcome(values.drop_last()) {
            Err(e) => Err(e),
            Ok(limits) => match path_budget_outcome(values.last()) {
                Err(e) => Err(e),
                Ok(entry) => Ok(limits.push(entry)),
            },
        }
    }
}

impl Args {
    /// The crawl the command line asks for: the seed from `--url`, the
    /// concurrency (8 unless given), and the budget from `--max-pages` and
    /// every `--path-budget`. Fails with the message of the URL's check, or
    /// else of the first path budget that does not parse.
    pub fn crawl_settings(&self) -> (r: Result<(CrawlConfig, CrawlBudget), String>)
        ensures
            match r {
                Ok((config, budget)) => {
                    &&& validated_url(self.url@) == Ok::<UrlParts, Seq<char>>(config.seed@)
                    &&& match self.command {
                        Commands::Crawl { concurrency, max_pages, path_budget, .. } => {
                            &&& config.concurrency == match concurrency {
                                Some(c) => c,
                                None => DEFAULT_CONCURRENCY,
                            }
                            &&& budget.max_pages == max_pages
                            &&& path_limits_outcome(path_budget@.map_values(|s: String| s@))
                                == Ok::<Seq<(Seq<char>, usize)>, Seq<char>>(limits_view(budget.path_limits@))
                        },
                    }
                },
                Err(e) => validated_url(self.url@) matches Err(m) ==> e@ == m,
            },
            r is Err <==> validated_url(self.url@) is Err || match self.command {
                Commands::Crawl { path_budget, .. } => path_limits_outcome(path_budget@.map_values(|s: String| s@)) is Err,
            },
            (r is Err && validated_url(self.url@) is Ok) ==> match self.command {
                Commands::Crawl { path_budget, .. } => path_limits_outcome(path_budget@.map_values(|s: String| s@)) == Err::<Seq<(Seq<char>, usize)>, Seq<char>>(r->Err_0@),
            },
    {
        let seed = match validate_url(self.url.as_str()) {
            Ok(u) => u,
            Err(e) => return Err(e),
        };
        match &self.command {
            Commands::Crawl { concurrency, max_pages, path_budget, .. } => {
                let ghost values = path_budget@.map_values(|s: String| s@);
                let mut limits: Vec<(String, usize)> = Vec::new();
                let n = path_budget.len();
                let mut i: usize = 0;
                assert(values.take(0) =~= Seq::<Seq<char>>::empty());
                assert(limits_view(limits@) =~= Seq::<(Seq<char>, usize)>::empty());
                while i < n
                    invariant
                        n == path_budget@.len() == values.len(),
                        values == path_budget@.map_values(|s: String| s@),
                        i <= n,
                        validated_url(self.url@) == Ok::<UrlParts, Seq<char>>(seed@),
                        match self.command {
                            Commands::Crawl { path_budget: pb, .. } => pb@ == path_budget@,
                        },
                        path_limits_outcome(values.take(i as int)) == Ok::<Seq<(Seq<char>, usize)>, Seq<char>>(limits_view(limits@)),
                    decreases n - i,
                {
                    assert(values.take(i + 1).drop_last() =~= values.take(i as int));
                    assert(values.take(i + 1).last() == path_budget@[i as int]@);
                    match parse_path_budget(path_budget[i].as_str()) {
                        Ok(entry) => {
                            let ghost before = limits@;
                            limits.push(entry);
                            assert(limits_view(limits@) =~= limits_view(before).push((entry.0@, entry.1)));
                        },
                        Err(e) => {
                            proof {
                                lemma_limits_error_sticks(values, i as int + 1);
                            }
                            return Err(e);
                        },
                    }
                    i = i + 1;
                }
                assert(values.take(n as int) =~= values);
                let conc = match concurrency {
                    Some(c) => *c,
                    None => DEFAULT_CONCURRENCY,
                };
                Ok((CrawlConfig { seed, concurrency: conc }, CrawlBudget { max_pages: *max_pages, path_limits: limits }))
            },
        }
    }
}

/// Once a path budget fails, the list fails with its message.
proof fn lemma_limits_error_sticks(values: Seq<Seq<char>>, i: int)
    requires
        0 < i <= values.len(),
        path_limits_outcome(values.take(i)) is Err,
    ensures
        path_limits_outcome(values) == path_limits_outcome(values.take(i)),
    decreases values.len() - i,
{
    if i < values.len() {
        assert(values.take(i + 1).drop_last() =~= values.take(i));
        lemma_limits_error_sticks(values, i + 1);
    } else {
        assert(values.take(i) =~= values);
    }
}

} // verus!
