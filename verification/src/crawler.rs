//! The crawl scheduler. It decides what to fetch next and what a fetched
//! page adds to the crawl; the fetching itself is done by its caller, which
//! hands every outcome back.
use vstd::prelude::*;
use crate::ordered::{locate, strictly_sorted};
use crate::parser::{extract_links, urls_of};
use crate::robots::{path_allowed, robots_prefixes, strings_view, RobotsParser, RobotsRules};
use crate::scope::{host_or_empty, CrawlScope};
use crate::text::chars_of;
use crate::types::{
    governs, limits_view, longest_match, CrawlBudget, CrawlConfig, FetchError, PageResult,
};
use crate::weburl::{
    is_web_scheme, plain_path, round_trips, url_parse_outcome, url_fragment_removed, url_path_set, url_query_removed, ParsedUrl, UrlParts,
};

verus! {

broadcast use vstd::string::group_string_axioms;

/// How many of `urls` the path limit `e` governs.
pub open spec fn governed_count(urls: Seq<UrlParts>, limits: Seq<(Seq<char>, usize)>, e: int) -> nat
    decreases urls.len(),
{
    if urls.len() == 0 {
        0
    } else {
        governed_count(urls.drop_last(), limits, e) + if governs(limits, urls.last().path, e) {
            1nat
        } else {
            0nat
        }
    }
}

/// Counting after one more URL.
pub proof fn lemma_governed_push(
    urls: Seq<UrlParts>,
    limits: Seq<(Seq<char>, usize)>,
    e: int,
    u: UrlParts,
)
    ensures
        governed_count(urls.push(u), limits, e) == governed_count(urls, limits, e) + if governs(
            limits,
            u.path,
            e,
        ) {
            1nat
        } else {
            0nat
        },
{
    assert(urls.push(u).drop_last() =~= urls);
}

/// The views of sorted keys.
pub open spec fn keys_of(v: Seq<Vec<char>>) -> Seq<Seq<char>> {
    v.map_values(|k: Vec<char>| k@)
}

/// `/robots.txt`
pub open spec fn robots_path() -> Seq<char> {
    "/robots.txt"@
}

/// Where the robots.txt of the site of `seed` is: `seed` with the path
/// `/robots.txt`, no query and no fragment.
pub open spec fn robots_location(seed: UrlParts) -> Option<UrlParts> {
    match url_path_set(seed.serialization, robots_path()) {
        Some(a) => match url_query_removed(a.serialization) {
            Some(b) => url_fragment_removed(b.serialization),
            None => None,
        },
        None => None,
    }
}

/// The URL a crawl from `seed` starts at: the seed without its fragment,
/// or the seed itself where the fragment cannot be removed.
pub open spec fn start_url(seed: UrlParts) -> UrlParts {
    match url_fragment_removed(seed.serialization) {
        Some(u) => u,
        None => seed,
    }
}

/// The body a robots.txt fetch yields for the parser: the body when the
/// fetch succeeded, else nothing (no restrictions).
pub open spec fn robots_body(outcome: Result<String, FetchError>) -> Seq<char> {
    match outcome {
        Ok(body) => body@,
        Err(_) => seq![],
    }
}

/// `seen` is the sorted list of the serializations of `adm`.
#[verifier::opaque]
pub open spec fn seen_matches(adm: Seq<UrlParts>, seen: Seq<Seq<char>>) -> bool {
    &&& strictly_sorted(seen)
    &&& seen.len() == adm.len()
    &&& forall|j: int|
        0 <= j < seen.len() ==> exists|i: int|
            0 <= i < adm.len() && (#[trigger] adm[i]).serialization == #[trigger] seen[j]
    &&& forall|i: int|
        0 <= i < adm.len() ==> exists|j: int|
            0 <= j < seen.len() && (#[trigger] adm[i]).serialization == #[trigger] seen[j]
}

/// No two URLs of `adm` have the same serialization.
#[verifier::opaque]
pub open spec fn distinct_serializations(adm: Seq<UrlParts>) -> bool {
    forall|i: int, j: int|
        0 <= i < j < adm.len() ==> (#[trigger] adm[i]).serialization != (#[trigger] adm[j]).serialization
}

/// The fetches under way are distinct indices of handed-out URLs.
#[verifier::opaque]
pub open spec fn flights_ok(next: usize, in_flight: Seq<usize>) -> bool {
    &&& forall|t: int| 0 <= t < in_flight.len() ==> #[trigger] in_flight[t] < next
    &&& forall|t: int, u: int|
        0 <= t < u < in_flight.len() ==> #[trigger] in_flight[t] != #[trigger] in_flight[u]
}

/// `counts` counts, for each path limit, the URLs of `adm` it governs, and
/// none exceeds its limit.
#[verifier::opaque]
pub open spec fn counts_match(adm: Seq<UrlParts>, limits: Seq<(Seq<char>, usize)>, counts: Seq<usize>) -> bool {
    &&& counts.len() == limits.len()
    &&& forall|e: int| 0 <= e < limits.len() ==> #[trigger] counts[e] == governed_count(adm, limits, e)
    &&& forall|e: int| 0 <= e < limits.len() ==> governed_count(adm, limits, e) <= #[trigger] limits[e].1
}

/// Index `k` of `adm` was handed out and its fetch is over.
pub open spec fn is_done(next: usize, in_flight: Seq<usize>, k: int) -> bool {
    0 <= k < next && !in_flight.contains(k as usize)
}

/// `page` is the page of a finished fetch of one of `adm`.
pub open spec fn page_of_done(adm: Seq<UrlParts>, next: usize, in_flight: Seq<usize>, page: PageResult) -> bool {
    exists|k: int| #![trigger adm[k]] is_done(next, in_flight, k) && page.url@ == adm[k]
}

/// Each page is that of a finished fetch, and no two pages share a URL.
#[verifier::opaque]
pub open spec fn results_match(adm: Seq<UrlParts>, next: usize, in_flight: Seq<usize>, results: Seq<PageResult>) -> bool {
    &&& forall|r: int| 0 <= r < results.len() ==> page_of_done(adm, next, in_flight, #[trigger] results[r])
    &&& forall|r: int, s: int|
        0 <= r < s < results.len() ==> (#[trigger] results[r]).url@.serialization != (
        #[trigger] results[s]).url@.serialization
}

/// Queuing `u` at its sorted place keeps the list of serializations.
#[verifier::spinoff_prover]
#[verifier::rlimit(40)]
proof fn lemma_seen_push(adm: Seq<UrlParts>, seen: Seq<Seq<char>>, pos: int, u: UrlParts)
    requires
        seen_matches(adm, seen),
        distinct_serializations(adm),
        0 <= pos <= seen.len(),
        forall|j: int| 0 <= j < pos ==> crate::ordered::lex_less(#[trigger] seen[j], u.serialization),
        forall|j: int| pos <= j < seen.len() ==> crate::ordered::lex_less(u.serialization, #[trigger] seen[j]),
    ensures
        seen_matches(adm.push(u), seen.insert(pos, u.serialization)),
        distinct_serializations(adm.push(u)),
{
    reveal(seen_matches);
    reveal(distinct_serializations);
    let key = u.serialization;
    let na = adm.push(u);
    let ns = seen.insert(pos, key);
    crate::ordered::lemma_lex_irreflexive(key);
    crate::parser::lemma_sorted_insert(seen, pos, key);
    assert forall|i: int| 0 <= i < adm.len() implies (#[trigger] adm[i]).serialization != key by {
        let j = choose|j: int| 0 <= j < seen.len() && (#[trigger] adm[i]).serialization == #[trigger] seen[j];
        if j < pos {
            assert(crate::ordered::lex_less(seen[j], key));
        } else {
            assert(crate::ordered::lex_less(key, seen[j]));
        }
    }
    assert forall|j: int| 0 <= j < ns.len() implies exists|i: int|
        0 <= i < na.len() && (#[trigger] na[i]).serialization == #[trigger] ns[j] by {
        if j < pos {
            let i = choose|i: int| 0 <= i < adm.len() && (#[trigger] adm[i]).serialization == #[trigger] seen[j];
            assert(na[i] == adm[i]);
        } else if j == pos {
            assert(na[adm.len() as int] == u);
        } else {
            assert(ns[j] == seen[j - 1]);
            let i = choose|i: int| 0 <= i < adm.len() && (#[trigger] adm[i]).serialization == #[trigger] seen[j - 1];
            assert(na[i] == adm[i]);
        }
    }
    assert forall|i: int| 0 <= i < na.len() implies exists|j: int|
        0 <= j < ns.len() && (#[trigger] na[i]).serialization == #[trigger] ns[j] by {
        if i < adm.len() {
            assert(na[i] == adm[i]);
            let j = choose|j: int| 0 <= j < seen.len() && (#[trigger] adm[i]).serialization == #[trigger] seen[j];
            if j < pos {
                assert(ns[j] == seen[j]);
            } else {
                assert(ns[j + 1] == seen[j]);
            }
        } else {
            assert(ns[pos] == key);
        }
    }
    assert forall|i: int, j: int| 0 <= i < j < na.len() implies (#[trigger] na[i]).serialization != (
    #[trigger] na[j]).serialization by {
        if j < adm.len() {
            assert(na[i] == adm[i] && na[j] == adm[j]);
        } else {
            assert(na[i] == adm[i]);
        }
    }
}

/// Queuing `u` adds one to the count of the limit that governs it.
proof fn lemma_counts_push(
    adm: Seq<UrlParts>,
    limits: Seq<(Seq<char>, usize)>,
    counts: Seq<usize>,
    u: UrlParts,
    new_counts: Seq<usize>,
)
    requires
        counts_match(adm, limits, counts),
        forall|e: int| governs(limits, u.path, e) ==> governed_count(adm, limits, e) < #[trigger] limits[e].1,
        new_counts.len() == counts.len(),
        forall|e: int|
            0 <= e < counts.len() ==> #[trigger] new_counts[e] == counts[e] + if governs(limits, u.path, e) {
                1int
            } else {
                0int
            },
    ensures
        counts_match(adm.push(u), limits, new_counts),
{
    reveal(counts_match);
    assert forall|e: int| 0 <= e < limits.len() implies #[trigger] new_counts[e] == governed_count(
        adm.push(u),
        limits,
        e,
    ) by {
        lemma_governed_push(adm, limits, e, u);
    }
    assert forall|e: int| 0 <= e < limits.len() implies governed_count(adm.push(u), limits, e)
        <= #[trigger] limits[e].1 by {
        lemma_governed_push(adm, limits, e, u);
    }
}

/// Queuing a URL keeps the pages matched to finished fetches.
proof fn lemma_results_push(
    adm: Seq<UrlParts>,
    next: usize,
    in_flight: Seq<usize>,
    results: Seq<PageResult>,
    u: UrlParts,
)
    requires
        results_match(adm, next, in_flight, results),
        next <= adm.len(),
    ensures
        results_match(adm.push(u), next, in_flight, results),
{
    reveal(results_match);
    assert forall|r: int| 0 <= r < results.len() implies page_of_done(adm.push(u), next, in_flight, #[trigger] results[r]) by {
        assert(page_of_done(adm, next, in_flight, results[r]));
        let k = choose|k: int| #![trigger adm[k]] is_done(next, in_flight, k) && results[r].url@ == adm[k];
        assert(adm.push(u)[k] == adm[k]);
    }
}

/// Ending the `t`-th fetch under way, and recording its page if any, keeps
/// the pages matched to finished fetches.
proof fn lemma_results_finish(
    adm: Seq<UrlParts>,
    next: usize,
    in_flight: Seq<usize>,
    t: int,
    results: Seq<PageResult>,
    page: Option<PageResult>,
)
    requires
        results_match(adm, next, in_flight, results),
        flights_ok(next, in_flight),
        distinct_serializations(adm),
        next <= adm.len(),
        0 <= t < in_flight.len(),
        page matches Some(p) ==> p.url@ == adm[in_flight[t] as int],
    ensures
        flights_ok(next, in_flight.remove(t)),
        results_match(
            adm,
            next,
            in_flight.remove(t),
            match page {
                Some(p) => results.push(p),
                None => results,
            },
        ),
{
    reveal(results_match);
    reveal(flights_ok);
    reveal(distinct_serializations);
    let nf = in_flight.remove(t);
    let k = in_flight[t];
    assert forall|x: int| 0 <= x < nf.len() implies #[trigger] nf[x] != k by {
        if x < t {
            assert(nf[x] == in_flight[x]);
        } else {
            assert(nf[x] == in_flight[x + 1]);
        }
    }
    assert(!nf.contains(k));
    assert forall|j: int| is_done(next, in_flight, j) implies is_done(next, nf, j) by {
        if nf.contains(j as usize) {
            let x = choose|x: int| 0 <= x < nf.len() && nf[x] == j as usize;
            if x < t {
                assert(in_flight[x] == nf[x]);
            } else {
                assert(in_flight[x + 1] == nf[x]);
            }
        }
    }
    assert forall|r: int| 0 <= r < results.len() implies page_of_done(adm, next, nf, #[trigger] results[r]) by {
        assert(page_of_done(adm, next, in_flight, results[r]));
        let j = choose|j: int| #![trigger adm[j]] is_done(next, in_flight, j) && results[r].url@ == adm[j];
        assert(is_done(next, nf, j));
    }
    assert forall|x: int, y: int| 0 <= x < y < nf.len() implies #[trigger] nf[x] != #[trigger] nf[y] by {
        let x0 = if x < t { x } else { x + 1 };
        let y0 = if y < t { y } else { y + 1 };
        assert(nf[x] == in_flight[x0] && nf[y] == in_flight[y0]);
    }
    if let Some(p) = page {
        let nr = results.push(p);
        assert(is_done(next, nf, k as int));
        assert forall|r: int| 0 <= r < nr.len() implies page_of_done(adm, next, nf, #[trigger] nr[r]) by {
            if r < results.len() {
                assert(nr[r] == results[r]);
            } else {
                assert(adm[k as int] == p.url@);
            }
        }
        assert forall|r: int, s: int| 0 <= r < s < nr.len() implies (#[trigger] nr[r]).url@.serialization != (
        #[trigger] nr[s]).url@.serialization by {
            if s < results.len() {
                assert(nr[r] == results[r] && nr[s] == results[s]);
            } else {
                assert(nr[r] == results[r]);
                assert(page_of_done(adm, next, in_flight, results[r]));
                let j = choose|j: int| #![trigger adm[j]] is_done(next, in_flight, j) && results[r].url@ == adm[j];
                assert(in_flight.contains(k));
                assert(j != k);
            }
        }
    }
}

/// A budget of at most `max_pages` pages and of the path limits `limits`
/// has room for one more URL with path `path` beside the URLs `adm`.
pub open spec fn room_for(
    adm: Seq<UrlParts>,
    max_pages: Option<usize>,
    limits: Seq<(Seq<char>, usize)>,
    path: Seq<char>,
) -> bool {
    &&& max_pages matches Some(m) ==> adm.len() < m
    &&& forall|e: int| #[trigger] governs(limits, path, e) ==> governed_count(adm, limits, e) < limits[e].1
}

/// Some URL of `adm` has the serialization `ser`.
pub open spec fn held(adm: Seq<UrlParts>, ser: Seq<char>) -> bool {
    exists|i: int| 0 <= i < adm.len() && (#[trigger] adm[i]).serialization == ser
}

/// `adm` after `u` is offered to the crawl: `u` is queued if it lies in
/// `scope`, `rules` allow its path, no queued URL has its serialization
/// and the budget has room for it.
pub open spec fn offer(
    adm: Seq<UrlParts>,
    u: UrlParts,
    scope: CrawlScope,
    rules: Seq<Seq<char>>,
    max_pages: Option<usize>,
    limits: Seq<(Seq<char>, usize)>,
) -> Seq<UrlParts> {
    if scope.admits(u) && path_allowed(rules, u.path) && !held(adm, u.serialization) && room_for(
        adm,
        max_pages,
        limits,
        u.path,
    ) {
        adm.push(u)
    } else {
        adm
    }
}

/// `adm` after each of `us` is offered to the crawl, in order.
pub open spec fn offer_all(
    adm: Seq<UrlParts>,
    us: Seq<UrlParts>,
    scope: CrawlScope,
    rules: Seq<Seq<char>>,
    max_pages: Option<usize>,
    limits: Seq<(Seq<char>, usize)>,
) -> Seq<UrlParts>
    decreases us.len(),
{
    if us.len() == 0 {
        adm
    } else {
        offer(offer_all(adm, us.drop_last(), scope, rules, max_pages, limits), us.last(), scope, rules, max_pages, limits)
    }
}

/// Every link of `page` that lies in `scope` and whose path `rules` allow
/// has its serialization among `adm`, unless the budget has no room for it.
pub open spec fn page_followed(
    adm: Seq<UrlParts>,
    page: PageResult,
    scope: CrawlScope,
    rules: Seq<Seq<char>>,
    max_pages: Option<usize>,
    limits: Seq<(Seq<char>, usize)>,
) -> bool {
    forall|j: int|
        0 <= j < page.links@.len() && scope.admits((#[trigger] page.links@[j])@) && path_allowed(
            rules,
            page.links@[j]@.path,
        ) ==> held(adm, page.links@[j]@.serialization) || !room_for(adm, max_pages, limits, page.links@[j]@.path)
}

/// Every page of `results` is followed in the sense of `page_followed`.
#[verifier::opaque]
pub open spec fn links_followed(
    adm: Seq<UrlParts>,
    results: Seq<PageResult>,
    scope: CrawlScope,
    rules: Seq<Seq<char>>,
    max_pages: Option<usize>,
    limits: Seq<(Seq<char>, usize)>,
) -> bool {
    forall|r: int| 0 <= r < results.len() ==> page_followed(adm, #[trigger] results[r], scope, rules, max_pages, limits)
}

/// Once the budget has no room for a path, one more URL leaves it without.
proof fn lemma_room_stays_full(
    adm: Seq<UrlParts>,
    u: UrlParts,
    max_pages: Option<usize>,
    limits: Seq<(Seq<char>, usize)>,
    path: Seq<char>,
)
    requires
        !room_for(adm, max_pages, limits, path),
    ensures
        !room_for(adm.push(u), max_pages, limits, path),
{
    if !(max_pages matches Some(m) ==> adm.len() < m) {
    } else {
        let e = choose|e: int| #[trigger] governs(limits, path, e) && governed_count(adm, limits, e) >= limits[e].1;
        lemma_governed_push(adm, limits, e, u);
    }
}

/// A serialization among `adm` stays there when a URL is added.
proof fn lemma_held_push(adm: Seq<UrlParts>, u: UrlParts, ser: Seq<char>)
    requires
        held(adm, ser),
    ensures
        held(adm.push(u), ser),
{
    let i = choose|i: int| 0 <= i < adm.len() && (#[trigger] adm[i]).serialization == ser;
    assert(adm.push(u)[i] == adm[i]);
}

/// Queuing a URL keeps every recorded page followed.
proof fn lemma_followed_push(
    adm: Seq<UrlParts>,
    results: Seq<PageResult>,
    scope: CrawlScope,
    rules: Seq<Seq<char>>,
    max_pages: Option<usize>,
    limits: Seq<(Seq<char>, usize)>,
    u: UrlParts,
)
    requires
        links_followed(adm, results, scope, rules, max_pages, limits),
    ensures
        links_followed(adm.push(u), results, scope, rules, max_pages, limits),
{
    reveal(links_followed);
    assert forall|r: int| 0 <= r < results.len() implies page_followed(
        adm.push(u),
        #[trigger] results[r],
        scope,
        rules,
        max_pages,
        limits,
    ) by {
        let page = results[r];
        assert(page_followed(adm, page, scope, rules, max_pages, limits));
        assert forall|j: int|
            0 <= j < page.links@.len() && scope.admits((#[trigger] page.links@[j])@) && path_allowed(
                rules,
                page.links@[j]@.path,
            ) implies held(adm.push(u), page.links@[j]@.serialization) || !room_for(
            adm.push(u),
            max_pages,
            limits,
            page.links@[j]@.path,
        ) by {
            if held(adm, page.links@[j]@.serialization) {
                lemma_held_push(adm, u, page.links@[j]@.serialization);
            } else {
                lemma_room_stays_full(adm, u, max_pages, limits, page.links@[j]@.path);
            }
        }
    }
}

/// `u` is one of `us`.
pub open spec fn one_of(us: Seq<UrlParts>, u: UrlParts) -> bool {
    exists|j: int| 0 <= j < us.len() && us[j] == u
}

/// The state of a crawl.
pub struct Crawler {
    config: CrawlConfig,
    scope: CrawlScope,
    budget: CrawlBudget,
    rules: RobotsRules,
    started: bool,
    /// Every URL queued so far, in the order it was queued; the seed first.
    admitted: Vec<ParsedUrl>,
    /// The serializations of `admitted`, sorted.
    seen: Vec<Vec<char>>,
    /// `admitted[..next]` were handed out; the rest wait.
    next: usize,
    /// Indices into `admitted` of the URLs being fetched.
    in_flight: Vec<usize>,
    results: Vec<PageResult>,
    /// For each path limit, how many admitted URLs it governs.
    counts: Vec<usize>,
}

impl Crawler {
    /// The seed.
    pub closed spec fn seed(&self) -> UrlParts {
        self.config.seed@
    }

    /// How many fetches may run at once.
    pub closed spec fn concurrency(&self) -> usize {
        self.config.concurrency
    }

    /// The limit on the number of pages.
    pub closed spec fn max_pages(&self) -> Option<usize> {
        self.budget.max_pages
    }

    /// The limits on the pages under path prefixes.
    pub closed spec fn limits(&self) -> Seq<(Seq<char>, usize)> {
        limits_view(self.budget.path_limits@)
    }

    /// The crawl's scope.
    pub closed spec fn scope(&self) -> CrawlScope {
        self.scope
    }

    /// Whether `u` lies in the crawl's scope.
    pub open spec fn in_scope(&self, u: UrlParts) -> bool {
        self.scope().admits(u)
    }

    /// The queued URLs once each of `us` is offered to the crawl, in order.
    pub open spec fn after_offers(&self, us: Seq<UrlParts>) -> Seq<UrlParts> {
        offer_all(self.admitted(), us, self.scope(), self.rules(), self.max_pages(), self.limits())
    }

    /// The disallowed path prefixes of the site's robots.txt.
    pub closed spec fn rules(&self) -> Seq<Seq<char>> {
        strings_view(self.rules.disallowed_prefixes@)
    }

    /// Whether robots.txt was read and the seed queued.
    pub closed spec fn started(&self) -> bool {
        self.started
    }

    /// Every URL queued so far, in order.
    pub closed spec fn admitted(&self) -> Seq<UrlParts> {
        urls_of(self.admitted@)
    }

    /// The URLs handed out for fetching so far, in order.
    pub closed spec fn dispatched(&self) -> Seq<UrlParts> {
        urls_of(self.admitted@).take(self.next as int)
    }

    /// The URLs being fetched.
    pub closed spec fn fetching(&self) -> Seq<UrlParts> {
        self.in_flight@.map_values(|k: usize| self.admitted@[k as int]@)
    }

    /// The pages fetched so far.
    pub closed spec fn pages(&self) -> Seq<PageResult> {
        self.results@
    }

    /// A URL may be queued: it is the seed, or it is in scope and robots.txt
    /// allows its path.
    pub open spec fn acceptable(&self, u: UrlParts) -> bool {
        u == start_url(self.seed()) || (self.in_scope(u) && path_allowed(self.rules(), u.path))
    }

    /// The budget has room for one more URL with path `path`.
    pub open spec fn has_room_for(&self, path: Seq<char>) -> bool {
        room_for(self.admitted(), self.max_pages(), self.limits(), path)
    }

    /// The crawl's invariant.
    pub closed spec fn wf(&self) -> bool {
        let adm = urls_of(self.admitted@);
        let limits = limits_view(self.budget.path_limits@);
        &&& self.scope.host() == host_or_empty(self.config.seed@)
        &&& self.scope.scheme() == self.config.seed@.scheme
        &&& self.next <= adm.len()
        &&& self.in_flight@.len() <= self.config.concurrency
        &&& !self.started ==> adm.len() == 0 && self.results@.len() == 0
        &&& seen_matches(adm, keys_of(self.seen@))
        &&& distinct_serializations(adm)
        &&& flights_ok(self.next, self.in_flight@)
        &&& counts_match(adm, limits, self.counts@)
        &&& self.budget.max_pages matches Some(m) ==> adm.len() <= m
        &&& forall|i: int| 0 <= i < adm.len() ==> self.acceptable(#[trigger] adm[i])
        &&& results_match(adm, self.next, self.in_flight@, self.results@)
        &&& links_followed(adm, self.results@, self.scope, self.rules(), self.budget.max_pages, limits)
    }

    /// A crawl of `config.seed` under `budget`, not yet started.
    pub fn new(config: CrawlConfig, budget: CrawlBudget) -> (c: Crawler)
        ensures
            c.wf(),
            !c.started(),
            c.seed() == config.seed@,
            c.admitted().len() == 0,
            c.dispatched().len() == 0,
            c.fetching().len() == 0,
            c.pages().len() == 0,
            c.concurrency() == config.concurrency,
            c.max_pages() == budget.max_pages,
            c.limits() == limits_view(budget.path_limits@),
            c.scope().host() == host_or_empty(config.seed@),
            c.scope().scheme() == config.seed@.scheme,
    {
        let scope = CrawlScope::new(&config.seed);
        let mut counts: Vec<usize> = Vec::new();
        let n = budget.path_limits.len();
        let ghost limits = limits_view(budget.path_limits@);
        let mut i: usize = 0;
        while i < n
            invariant
                n == budget.path_limits@.len() == limits.len(),
                limits == limits_view(budget.path_limits@),
                i <= n,
                counts@.len() == i,
                forall|e: int| 0 <= e < i ==> #[trigger] counts@[e] == 0,
            decreases n - i,
        {
            counts.push(0);
            i = i + 1;
        }
        let c = Crawler {
            config,
            scope,
            budget,
            rules: RobotsRules { disallowed_prefixes: Vec::new() },
            started: false,
            admitted: Vec::new(),
            seen: Vec::new(),
            next: 0,
            in_flight: Vec::new(),
            results: Vec::new(),
            counts,
        };
        assert(urls_of(c.admitted@) =~= Seq::<UrlParts>::empty());
        proof {
            reveal(seen_matches);
            reveal(distinct_serializations);
            reveal(flights_ok);
            reveal(counts_match);
            reveal(results_match);
            reveal(links_followed);
        }
        assert(keys_of(c.seen@) =~= Seq::<Seq<char>>::empty());
        assert forall|e: int| 0 <= e < limits.len() implies #[trigger] c.counts@[e] == governed_count(urls_of(c.admitted@), limits, e) by {
        }
        c
    }

    /// Where the site's robots.txt is: the seed with the path
    /// `/robots.txt`, without query and fragment. For an `http` or `https`
    /// seed it is the root of the seed's site: the seed's scheme and host,
    /// the path exactly `/robots.txt` whatever the seed's path, and no
    /// fragment.
    pub fn robots_url(&self) -> (u: Option<ParsedUrl>)
        ensures
            match u {
                Some(r) => robots_location(self.seed()) == Some(r@),
                None => robots_location(self.seed()) is None,
            },
            u matches Some(r) ==> url_parse_outcome(self.seed().serialization) is Ok,
            u matches Some(r) ==> (is_web_scheme(url_parse_outcome(self.seed().serialization)->Ok_0.scheme) ==> {
                &&& r@.scheme == url_parse_outcome(self.seed().serialization)->Ok_0.scheme
                &&& r@.host == url_parse_outcome(self.seed().serialization)->Ok_0.host
                &&& r@.path == robots_path()
                &&& r@.fragment is None
            }),
            u is Some && is_web_scheme(self.seed().scheme) && round_trips(self.seed()) ==> {
                &&& u->Some_0@.scheme == self.seed().scheme
                &&& u->Some_0@.host == self.seed().host
                &&& u->Some_0@.path == robots_path()
                &&& u->Some_0@.fragment is None
            },
    {
        proof {
            reveal_strlit("/robots.txt");
            assert(plain_path(robots_path())) by {
                let p = robots_path();
                assert(p =~= seq!['/', 'r', 'o', 'b', 'o', 't', 's', '.', 't', 'x', 't']);
            }
        }
        let with_path = match self.config.seed.with_path("/robots.txt") {
            Some(a) => a,
            None => return None,
        };
        let no_query = match with_path.without_query() {
            Some(b) => b,
            None => return None,
        };
        no_query.without_fragment()
    }

    /// Whether the limit `e` governs the path whose longest match is
    /// `entry`.
    fn governing(&self, entry: Option<usize>, e: usize, Ghost(path): Ghost<Seq<char>>) -> (g: bool)
        requires
            e < self.budget.path_limits@.len(),
            match entry {
                Some(b) => longest_match(self.limits(), path) == Some(b as int),
                None => longest_match(self.limits(), path) is None,
            },
        ensures
            g == governs(self.limits(), path, e as int),
    {
        proof {
            crate::types::lemma_governs_longest(self.limits(), path);
            crate::types::lemma_longest_match_bounds(self.limits(), path);
        }
        match entry {
            Some(b) => {
                let mine = chars_of(self.budget.path_limits[e].0.as_str());
                let best = chars_of(self.budget.path_limits[b].0.as_str());
                crate::text::same_chars(&mine, &best)
            },
            None => false,
        }
    }

    /// Whether the budget has room for one more URL whose path has the
    /// longest match `entry`.
    fn has_room(&self, entry: Option<usize>, Ghost(path): Ghost<Seq<char>>) -> (b: bool)
        requires
            self.wf(),
            match entry {
                Some(e) => longest_match(self.limits(), path) == Some(e as int),
                None => longest_match(self.limits(), path) is None,
            },
        ensures
            b == self.has_room_for(path),
    {
        proof {
            reveal(counts_match);
        }
        let pages_ok = match self.budget.max_pages {
            Some(m) => self.admitted.len() < m,
            None => true,
        };
        if !pages_ok {
            return false;
        }
        let n = self.budget.path_limits.len();
        let ghost limits = self.limits();
        let mut e: usize = 0;
        proof {
            crate::types::lemma_governs_longest(limits, path);
        }
        while e < n
            invariant
                self.wf(),
                n == self.budget.path_limits@.len() == limits.len(),
                limits == self.limits(),
                e <= n,
                self.counts@.len() == n,
                forall|x: int| 0 <= x < n ==> #[trigger] self.counts@[x] == governed_count(self.admitted(), limits, x),
                match entry {
                    Some(b) => longest_match(limits, path) == Some(b as int),
                    None => longest_match(limits, path) is None,
                },
                forall|x: int| 0 <= x < e && #[trigger] governs(limits, path, x) ==> governed_count(
                    self.admitted(),
                    limits,
                    x,
                ) < limits[x].1,
            decreases n - e,
        {
            if self.governing(entry, e, Ghost(path)) && self.counts[e] >= self.budget.path_limits[e].1 {
                return false;
            }
            e = e + 1;
        }
        true
    }

    /// Queues `u`, whose serialization `key` sorts at `pos` among the
    /// queued ones and is not among them.
    fn enqueue(
        &mut self,
        u: ParsedUrl,
        key: Vec<char>,
        pos: usize,
        entry: Option<usize>,
    )
        requires
            old(self).wf(),
            old(self).started(),
            old(self).acceptable(u@),
            old(self).has_room_for(u@.path),
            key@ == u@.serialization,
            pos <= old(self).seen@.len(),
            forall|j: int| 0 <= j < pos ==> crate::ordered::lex_less(#[trigger] old(self).seen@[j]@, key@),
            forall|j: int| pos <= j < old(self).seen@.len() ==> crate::ordered::lex_less(key@, #[trigger] old(self).seen@[j]@),
            match entry {
                Some(e) => longest_match(old(self).limits(), u@.path) == Some(e as int),
                None => longest_match(old(self).limits(), u@.path) is None,
            },
        ensures
            final(self).wf(),
            final(self).admitted() == old(self).admitted().push(u@),
            final(self).next == old(self).next,
            final(self).in_flight == old(self).in_flight,
            final(self).results == old(self).results,
            final(self).rules == old(self).rules,
            final(self).started == old(self).started,
            final(self).config == old(self).config,
            final(self).budget == old(self).budget,
            final(self).scope == old(self).scope,
    {
        let ghost adm = self.admitted();
        let ghost limits = self.limits();
        let ghost old_seen = keys_of(self.seen@);
        let ghost old_counts = self.counts@;
        proof {
            assert forall|j: int| 0 <= j < pos implies crate::ordered::lex_less(#[trigger] old_seen[j], u@.serialization) by {
                assert(old_seen[j] == self.seen@[j]@);
            }
            assert forall|j: int| pos <= j < old_seen.len() implies crate::ordered::lex_less(u@.serialization, #[trigger] old_seen[j]) by {
                assert(old_seen[j] == self.seen@[j]@);
            }
            lemma_seen_push(adm, old_seen, pos as int, u@);
            lemma_results_push(adm, self.next, self.in_flight@, self.results@, u@);
            lemma_followed_push(adm, self.results@, self.scope, self.rules(), self.budget.max_pages, limits, u@);
            reveal(counts_match);
        }
        let n = self.counts.len();
        let mut counts: Vec<usize> = Vec::new();
        let mut e: usize = 0;
        proof {
            reveal(counts_match);
        }
        while e < n
            invariant
                n == old_counts.len() == limits.len() == self.budget.path_limits@.len(),
                old_counts == self.counts@,
                limits == self.limits(),
                e <= n,
                counts@.len() == e,
                forall|x: int| 0 <= x < n ==> #[trigger] old_counts[x] == governed_count(adm, limits, x),
                forall|x: int| #[trigger] governs(limits, u@.path, x) ==> governed_count(adm, limits, x) < limits[x].1,
                match entry {
                    Some(b) => longest_match(limits, u@.path) == Some(b as int),
                    None => longest_match(limits, u@.path) is None,
                },
                forall|x: int|
                    0 <= x < e ==> #[trigger] counts@[x] == old_counts[x] + if governs(limits, u@.path, x) {
                        1int
                    } else {
                        0int
                    },
            decreases n - e,
        {
            let c = self.counts[e];
            if self.governing(entry, e, Ghost(u@.path)) {
                proof {
                    assert(governs(limits, u@.path, e as int));
                }
                counts.push(c + 1);
            } else {
                counts.push(c);
            }
            e = e + 1;
        }
        proof {
            lemma_counts_push(adm, limits, old_counts, u@, counts@);
        }
        self.counts = counts;
        self.seen.insert(pos, key);
        self.admitted.push(u);
        proof {
            let na = self.admitted();
            assert(na =~= adm.push(u@));
            assert(keys_of(self.seen@) =~= old_seen.insert(pos as int, u@.serialization));
            assert forall|i: int| 0 <= i < na.len() implies self.acceptable(#[trigger] na[i]) by {
                if i < adm.len() {
                    assert(na[i] == adm[i]);
                }
            }
        }
    }

    /// Some queued URL has the serialization `ser`.
    pub open spec fn holds(&self, ser: Seq<char>) -> bool {
        held(self.admitted(), ser)
    }

    /// Reads the site's robots.txt from `robots`, the outcome of fetching
    /// `robots_url` (a failed fetch means no restrictions), and queues the
    /// seed, without its fragment, if the budget has room for it. Does
    /// nothing once started.
    pub fn start(&mut self, robots: Result<String, FetchError>)
        requires
            old(self).wf(),
        ensures
            final(self).wf(),
            old(self).started() ==> *final(self) == *old(self),
            !old(self).started() ==> {
                &&& final(self).started()
                &&& final(self).rules() == robots_prefixes(robots_body(robots))
                &&& final(self).admitted() == if old(self).has_room_for(start_url(old(self).seed()).path) {
                    seq![start_url(old(self).seed())]
                } else {
                    Seq::<UrlParts>::empty()
                }
                &&& final(self).dispatched().len() == 0
                &&& final(self).fetching().len() == 0
                &&& final(self).pages().len() == 0
            },
            final(self).seed() == old(self).seed(),
            final(self).concurrency() == old(self).concurrency(),
            final(self).max_pages() == old(self).max_pages(),
            final(self).limits() == old(self).limits(),
            final(self).scope() == old(self).scope(),
    {
        if self.started {
            return;
        }
        proof {
            reveal_strlit("");
            reveal(flights_ok);
            reveal(links_followed);
        }
        let rules = match &robots {
            Ok(body) => RobotsParser::parse(body.as_str()),
            Err(_) => RobotsParser::parse(""),
        };
        self.rules = rules;
        self.started = true;
        let seed = match self.config.seed.without_fragment() {
            Some(u) => u,
            None => self.config.seed.duplicate(),
        };
        assert(seed@ == start_url(self.seed()));
        let path = chars_of(seed.path());
        let entry = self.budget.matching_index(&path);
        assert(self.admitted().len() == 0);
        assert(self.in_flight@.len() == 0) by {
            if self.in_flight@.len() > 0 {
                assert(self.in_flight@[0] < self.next);
            }
        }
        if self.has_room(entry, Ghost(path@)) {
            let key = seed.chars();
            proof {
                reveal(seen_matches);
            }
            self.enqueue(seed, key, 0, entry);
            assert(self.admitted() =~= seq![start_url(old(self).seed())]);
        }
        assert(self.fetching() =~= Seq::<UrlParts>::empty());
        assert(self.dispatched() =~= Seq::<UrlParts>::empty());
    }

    /// Hands out the next URL to fetch, if the crawl has started, fewer
    /// than `concurrency` fetches are under way and a URL waits. URLs are
    /// handed out in the order they were queued, each once.
    pub fn next_fetch(&mut self) -> (r: Option<ParsedUrl>)
        requires
            old(self).wf(),
        ensures
            final(self).wf(),
            r is Some <==> old(self).started() && old(self).fetching().len() < old(self).concurrency()
                && old(self).dispatched().len() < old(self).admitted().len(),
            match r {
                Some(u) => {
                    &&& u@ == old(self).admitted()[old(self).dispatched().len() as int]
                    &&& final(self).dispatched() == old(self).dispatched().push(u@)
                    &&& final(self).fetching() == old(self).fetching().push(u@)
                    &&& forall|i: int| 0 <= i < old(self).dispatched().len() ==> (#[trigger] old(self).dispatched()[i]).serialization != u@.serialization
                    &&& final(self).admitted() == old(self).admitted()
                    &&& final(self).pages() == old(self).pages()
                    &&& final(self).rules() == old(self).rules()
                    &&& final(self).started() == old(self).started()
                    &&& final(self).pending_work() == old(self).pending_work() - 1
                    &&& forall|m: int| #[trigger] final(self).work_bound(m) == old(self).work_bound(m) - 1
                },
                None => *final(self) == *old(self),
            },
            final(self).seed() == old(self).seed(),
            final(self).concurrency() == old(self).concurrency(),
            final(self).max_pages() == old(self).max_pages(),
            final(self).limits() == old(self).limits(),
            final(self).scope() == old(self).scope(),
    {
        if !self.started || self.in_flight.len() >= self.config.concurrency || self.next >= self.admitted.len() {
            return None;
        }
        let k = self.next;
        let u = self.admitted[k].duplicate();
        let ghost old_flight = self.in_flight@;
        proof {
            reveal(flights_ok);
            reveal(distinct_serializations);
            reveal(results_match);
            assert(u@ == self.admitted()[k as int]);
            assert forall|i: int| 0 <= i < k implies (#[trigger] self.dispatched()[i]).serialization != u@.serialization by {
                assert(self.dispatched()[i] == self.admitted()[i]);
                assert(i < k);
            }
        }
        self.in_flight.push(k);
        self.next = k + 1;
        proof {
            assert(self.dispatched() =~= old(self).dispatched().push(u@));
            assert(self.fetching() =~= old(self).fetching().push(u@));
            assert forall|r: int| 0 <= r < self.results@.len() implies page_of_done(
                self.admitted(),
                self.next,
                self.in_flight@,
                #[trigger] self.results@[r],
            ) by {
                assert(page_of_done(old(self).admitted(), old(self).next, old_flight, self.results@[r]));
                let j = choose|j: int| #![trigger old(self).admitted()[j]] is_done(old(self).next, old_flight, j) && self.results@[r].url@ == old(self).admitted()[j];
                assert(self.admitted()[j] == old(self).admitted()[j]);
                assert(!self.in_flight@.contains(j as usize)) by {
                    if self.in_flight@.contains(j as usize) {
                        let t = choose|t: int| 0 <= t < self.in_flight@.len() && self.in_flight@[t] == j as usize;
                        if t < old_flight.len() {
                            assert(old_flight[t] == j as usize);
                        }
                    }
                }
            }
        }
        Some(u)
    }

    /// Queues each of `links` that lies in scope, that robots.txt allows,
    /// that is not queued yet and for which the budget has room, in order.
    fn queue_links(&mut self, links: &Vec<ParsedUrl>)
        requires
            old(self).wf(),
            old(self).started(),
        ensures
            final(self).wf(),
            final(self).admitted().len() >= old(self).admitted().len(),
            final(self).admitted().take(old(self).admitted().len() as int) == old(self).admitted(),
            final(self).admitted() == old(self).after_offers(urls_of(links@)),
            forall|i: int|
                old(self).admitted().len() <= i < final(self).admitted().len() ==> one_of(urls_of(links@), #[trigger] final(self).admitted()[i]),
            forall|j: int|
                0 <= j < links@.len() && final(self).in_scope((#[trigger] links@[j])@) && path_allowed(
                    final(self).rules(),
                    links@[j]@.path,
                ) ==> final(self).holds(links@[j]@.serialization) || !final(self).has_room_for(
                    links@[j]@.path,
                ),
            final(self).next == old(self).next,
            final(self).in_flight == old(self).in_flight,
            final(self).results == old(self).results,
            final(self).rules == old(self).rules,
            final(self).started == old(self).started,
            final(self).config == old(self).config,
            final(self).budget == old(self).budget,
            final(self).scope == old(self).scope,
    {
        let ghost start_adm = self.admitted();
        let n = links.len();
        let mut i: usize = 0;
        while i < n
            invariant
                n == links@.len(),
                i <= n,
                self.wf(),
                self.started(),
                start_adm == old(self).admitted(),
                self.admitted().len() >= start_adm.len(),
                self.admitted().take(start_adm.len() as int) == start_adm,
                self.admitted() == old(self).after_offers(urls_of(links@).take(i as int)),
                forall|a: int|
                    start_adm.len() <= a < self.admitted().len() ==> one_of(urls_of(links@), #[trigger] self.admitted()[a]),
                forall|j: int|
                    0 <= j < i && self.in_scope((#[trigger] links@[j])@) && path_allowed(
                        self.rules(),
                        links@[j]@.path,
                    ) ==> self.holds(links@[j]@.serialization) || !self.has_room_for(links@[j]@.path),
                self.next == old(self).next,
                self.in_flight == old(self).in_flight,
                self.results == old(self).results,
                self.rules == old(self).rules,
                self.started == old(self).started,
                self.config == old(self).config,
                self.budget == old(self).budget,
                self.scope == old(self).scope,
            decreases n - i,
        {
            let link = &links[i];
            let ghost before = *self;
            let ghost before_adm = self.admitted();
            let grew = self.queue_link(link);
            proof {
                let us = urls_of(links@);
                assert(us.take(i + 1).drop_last() =~= us.take(i as int));
                assert(us.take(i + 1).last() == link@);
                assert(seq![link@].drop_last() =~= Seq::<UrlParts>::empty());
                assert(seq![link@].last() == link@);
                assert(offer_all(before_adm, Seq::<UrlParts>::empty(), before.scope(), before.rules(), before.max_pages(), before.limits()) == before_adm);
                assert(before.after_offers(seq![link@]) == offer(before_adm, link@, before.scope(), before.rules(), before.max_pages(), before.limits()));
                assert(old(self).after_offers(us.take(i + 1)) == offer(old(self).after_offers(us.take(i as int)), link@, old(self).scope(), old(self).rules(), old(self).max_pages(), old(self).limits()));
                let na = self.admitted();
                if grew {
                    assert(na == before_adm.push(link@));
                    assert(na.take(start_adm.len() as int) =~= before_adm.take(start_adm.len() as int));
                    assert(na[before_adm.len() as int] == link@);
                } else {
                    assert(na == before_adm);
                }
                assert forall|a: int| start_adm.len() <= a < na.len() implies one_of(urls_of(links@), #[trigger] na[a]) by {
                    if a < before_adm.len() {
                        assert(na[a] == before_adm[a]);
                    } else {
                        assert(na[a] == links@[i as int]@);
                        assert(urls_of(links@)[i as int] == links@[i as int]@);
                    }
                }
                assert forall|j: int|
                    0 <= j < i + 1 && self.in_scope((#[trigger] links@[j])@) && path_allowed(
                        self.rules(),
                        links@[j]@.path,
                    ) implies self.holds(links@[j]@.serialization) || !self.has_room_for(links@[j]@.path) by {
                    if j < i {
                        if before.holds(links@[j]@.serialization) {
                            let a = choose|a: int| 0 <= a < before_adm.len() && (#[trigger] before_adm[a]).serialization == links@[j]@.serialization;
                            assert(na[a] == before_adm[a]);
                        } else if grew {
                            lemma_room_stays_full(before_adm, link@, self.max_pages(), self.limits(), links@[j]@.path);
                        }
                    }
                }
            }
            i = i + 1;
        }
        assert(urls_of(links@).take(n as int) =~= urls_of(links@));
    }

    /// Queues `link` if it lies in scope, robots.txt allows it, it is not
    /// queued yet and the budget has room for it; says whether it was.
    fn queue_link(&mut self, link: &ParsedUrl) -> (grew: bool)
        requires
            old(self).wf(),
            old(self).started(),
        ensures
            final(self).wf(),
            grew ==> final(self).admitted() == old(self).admitted().push(link@),
            !grew ==> final(self).admitted() == old(self).admitted(),
            final(self).admitted() == old(self).after_offers(seq![link@]),
            old(self).in_scope(link@) && path_allowed(old(self).rules(), link@.path) ==> final(self).holds(
                link@.serialization,
            ) || !final(self).has_room_for(link@.path),
            final(self).next == old(self).next,
            final(self).in_flight == old(self).in_flight,
            final(self).results == old(self).results,
            final(self).rules == old(self).rules,
            final(self).started == old(self).started,
            final(self).config == old(self).config,
            final(self).budget == old(self).budget,
            final(self).scope == old(self).scope,
    {
        proof {
            assert(offer_all(self.admitted(), seq![link@].drop_last(), self.scope(), self.rules(), self.max_pages(), self.limits()) == self.admitted()) by {
                assert(seq![link@].drop_last() =~= Seq::<UrlParts>::empty());
            }
        }
        if !self.scope.is_allowed(link) || !self.rules.is_allowed(link.path()) {
            return false;
        }
        let key = link.chars();
        proof {
            reveal(seen_matches);
        }
        let (found, pos) = locate(&self.seen, &key);
        if found {
            proof {
                assert(keys_of(self.seen@)[pos as int] == key@);
                let a = choose|a: int| 0 <= a < self.admitted().len() && (#[trigger] self.admitted()[a]).serialization == keys_of(self.seen@)[pos as int];
                assert(self.holds(link@.serialization));
            }
            return false;
        }
        proof {
            assert(!self.holds(link@.serialization)) by {
                if self.holds(link@.serialization) {
                    let a = choose|a: int| 0 <= a < self.admitted().len() && (#[trigger] self.admitted()[a]).serialization == link@.serialization;
                    let j = choose|j: int| 0 <= j < keys_of(self.seen@).len() && (#[trigger] self.admitted()[a]).serialization == #[trigger] keys_of(self.seen@)[j];
                    assert(self.seen@[j]@ == key@);
                }
            }
        }
        let path = chars_of(link.path());
        let entry = self.budget.matching_index(&path);
        if !self.has_room(entry, Ghost(path@)) {
            return false;
        }
        let ghost before_adm = self.admitted();
        self.enqueue(link.duplicate(), key, pos, entry);
        proof {
            assert(self.admitted()[before_adm.len() as int] == link@);
            assert(self.holds(link@.serialization));
        }
        true
    }

    /// Takes the outcome of fetching `url`, one of the URLs being fetched:
    /// a fetched page is recorded with its links, and those of its links
    /// that the crawl may visit are queued. Returns false, and changes
    /// nothing, if `url` is not being fetched.
    pub fn complete(&mut self, url: &ParsedUrl, outcome: Result<String, FetchError>) -> (known: bool)
        requires
            old(self).wf(),
        ensures
            final(self).wf(),
            known <==> exists|t: int| 0 <= t < old(self).fetching().len() && (#[trigger] old(self).fetching()[t]).serialization == url@.serialization,
            !known ==> *final(self) == *old(self),
            known ==> {
                &&& forall|m: int| #[trigger] final(self).work_bound(m) == old(self).work_bound(m) - 1
                &&& final(self).pending_work() == old(self).pending_work() - 1 + 2 * (final(self).admitted().len() - old(self).admitted().len())
                &&& final(self).dispatched() == old(self).dispatched()
                &&& exists|t: int|
                    0 <= t < old(self).fetching().len() && (#[trigger] old(self).fetching()[t]).serialization
                        == url@.serialization && final(self).fetching() == old(self).fetching().remove(t)
                &&& final(self).admitted().len() >= old(self).admitted().len()
                &&& final(self).admitted().take(old(self).admitted().len() as int) == old(self).admitted()
                &&& final(self).rules() == old(self).rules()
                &&& final(self).started() == old(self).started()
            },
            known && outcome is Err ==> final(self).admitted() == old(self).admitted() && final(self).pages() == old(self).pages(),
            known && outcome is Ok ==> {
                let page = final(self).pages().last();
                let body = outcome->Ok_0@;
                &&& final(self).pages().len() == old(self).pages().len() + 1
                &&& final(self).pages().drop_last() == old(self).pages()
                &&& page.url@.serialization == url@.serialization
                &&& crate::parser::sorted_unique_links(urls_of(page.links@), crate::parser::resolved_links(page.url@, crate::parser::anchor_hrefs(body)))
                &&& final(self).admitted() == old(self).after_offers(urls_of(page.links@))
                &&& forall|i: int|
                    old(self).admitted().len() <= i < final(self).admitted().len() ==> one_of(urls_of(page.links@), #[trigger] final(self).admitted()[i])
                &&& forall|j: int|
                    0 <= j < page.links@.len() && final(self).in_scope((#[trigger] page.links@[j])@) && path_allowed(
                        final(self).rules(),
                        page.links@[j]@.path,
                    ) ==> final(self).holds(page.links@[j]@.serialization) || !final(self).has_room_for(
                        page.links@[j]@.path,
                    )
            },
            final(self).seed() == old(self).seed(),
            final(self).concurrency() == old(self).concurrency(),
            final(self).max_pages() == old(self).max_pages(),
            final(self).limits() == old(self).limits(),
            final(self).scope() == old(self).scope(),
    {
        let key = url.chars();
        let nf = self.in_flight.len();
        let mut t: usize = 0;
        while t < nf && !self.flight_matches(t, &key)
            invariant
                nf == self.in_flight@.len() == self.fetching().len(),
                self.wf(),
                t <= nf,
                key@ == url@.serialization,
                forall|x: int| 0 <= x < t ==> (#[trigger] self.fetching()[x]).serialization != url@.serialization,
            decreases nf - t,
        {
            t = t + 1;
        }
        if t == nf {
            return false;
        }
        proof {
            reveal(flights_ok);
        }
        let k = self.in_flight[t];
        let base = self.admitted[k].duplicate();
        assert(base@ == self.admitted()[k as int]);
        assert(self.fetching()[t as int] == base@);
        assert(base@.serialization == url@.serialization);
        match outcome {
            Ok(body) => {
                let links = extract_links(&base, body.as_str());
                let ghost before_adm = self.admitted();
                self.queue_links(&links);
                assert(self.admitted()[k as int] == before_adm[k as int]);
                let page = PageResult { url: base, links };
                let ghost mid = *self;
                self.finish(t, Some(page));
                proof {
                    assert(self.pages().last() == page);
                    assert(self.pages().drop_last() =~= old(self).pages());
                    assert(self.admitted() == mid.admitted());
                    assert(self.rules() == mid.rules());
                    assert(forall|p: Seq<char>| self.has_room_for(p) == mid.has_room_for(p));
                    assert(forall|u: UrlParts| self.in_scope(u) == mid.in_scope(u));
                    assert(forall|x: Seq<char>| self.holds(x) == mid.holds(x));
                }
            },
            Err(_) => {
                self.finish(t, None);
            },
        }
        proof {
            reveal(flights_ok);
            assert(self.dispatched() == old(self).dispatched());
            let of = old(self).fetching();
            assert forall|x: int| 0 <= x < self.fetching().len() implies self.fetching()[x] == of.remove(t as int)[x] by {
                let y = if x < t { x } else { x + 1 };
                assert(self.in_flight@[x] == old(self).in_flight@[y]);
                assert(old(self).in_flight@[y] < old(self).next);
                assert(self.admitted@[old(self).in_flight@[y] as int]@ == self.admitted()[old(self).in_flight@[y] as int]);
                assert(self.admitted().take(old(self).admitted().len() as int)[old(self).in_flight@[y] as int] == old(self).admitted()[old(self).in_flight@[y] as int]);
            }
            assert(self.fetching() =~= of.remove(t as int));
            assert(of[t as int].serialization == url@.serialization);
        }
        true
    }

    /// Whether the `t`-th fetch under way is of the URL with serialization `key`.
    fn flight_matches(&self, t: usize, key: &Vec<char>) -> (r: bool)
        requires
            self.wf(),
            t < self.in_flight@.len(),
        ensures
            r == (self.fetching()[t as int].serialization == key@),
    {
        proof {
            reveal(flights_ok);
        }
        let k = self.in_flight[t];
        let here = self.admitted[k].chars();
        crate::text::same_chars(&here, key)
    }

    /// Ends the `t`-th fetch under way, recording `page` if it succeeded.
    fn finish(&mut self, t: usize, page: Option<PageResult>)
        requires
            old(self).wf(),
            t < old(self).in_flight@.len(),
            page matches Some(p) ==> p.url@ == old(self).admitted()[old(self).in_flight@[t as int] as int],
            page matches Some(p) ==> page_followed(
                old(self).admitted(),
                p,
                old(self).scope,
                old(self).rules(),
                old(self).max_pages(),
                old(self).limits(),
            ),
        ensures
            final(self).wf(),
            final(self).in_flight@ == old(self).in_flight@.remove(t as int),
            final(self).results@ == match page {
                Some(p) => old(self).results@.push(p),
                None => old(self).results@,
            },
            final(self).admitted == old(self).admitted,
            final(self).next == old(self).next,
            final(self).rules == old(self).rules,
            final(self).started == old(self).started,
            final(self).config == old(self).config,
            final(self).budget == old(self).budget,
            final(self).scope == old(self).scope,
            final(self).seen == old(self).seen,
            final(self).counts == old(self).counts,
    {
        proof {
            reveal(flights_ok);
            if !self.started {
                assert(self.in_flight@[t as int] < self.next);
            }
            lemma_results_finish(
                self.admitted(),
                self.next,
                self.in_flight@,
                t as int,
                self.results@,
                page,
            );
            reveal(links_followed);
        }
        self.in_flight.remove(t);
        match page {
            Some(p) => {
                self.results.push(p);
            },
            None => {},
        }
    }

    /// What every crawl state guarantees: the scope is the seed's host and
    /// scheme; no URL is handed out twice; no more than `concurrency`
    /// fetches run at once, and none before robots.txt was read; the page
    /// budget is respected, and so is every path limit, counted over the
    /// URLs it governs (a path is governed by every entry that lists its
    /// longest matching prefix, so when a prefix is listed twice each of its
    /// limits caps it, and the smallest binds); every queued URL but the seed
    /// lies in scope and is allowed by robots.txt; every recorded page is
    /// that of a URL handed out, and no URL has two pages.
    pub proof fn lemma_crawl_guarantees(c: &Crawler)
        requires
            c.wf(),
        ensures
            c.scope().host() == host_or_empty(c.seed()),
            c.scope().scheme() == c.seed().scheme,
            c.fetching().len() <= c.concurrency(),
            !c.started() ==> c.admitted().len() == 0 && c.dispatched().len() == 0 && c.fetching().len() == 0
                && c.pages().len() == 0,
            forall|i: int, j: int|
                0 <= i < j < c.dispatched().len() ==> (#[trigger] c.dispatched()[i]).serialization
                    != (#[trigger] c.dispatched()[j]).serialization,
            c.dispatched().len() <= c.admitted().len(),
            c.max_pages() matches Some(m) ==> c.admitted().len() <= m,
            forall|e: int|
                0 <= e < c.limits().len() ==> governed_count(c.admitted(), c.limits(), e) <= (
                #[trigger] c.limits()[e]).1,
            forall|i: int|
                0 <= i < c.admitted().len() ==> #[trigger] c.admitted()[i] == start_url(c.seed()) || (c.in_scope(
                    c.admitted()[i],
                ) && path_allowed(c.rules(), c.admitted()[i].path)),
            forall|r: int| 0 <= r < c.pages().len() ==> one_of(c.dispatched(), (#[trigger] c.pages()[r]).url@),
            forall|r: int, s: int|
                0 <= r < s < c.pages().len() ==> (#[trigger] c.pages()[r]).url@.serialization != (
                #[trigger] c.pages()[s]).url@.serialization,
    {
        reveal(flights_ok);
        if !c.started() && c.in_flight@.len() > 0 {
            assert(c.in_flight@[0] < c.next);
        }
        reveal(distinct_serializations);
        reveal(counts_match);
        reveal(results_match);
        let adm = c.admitted();
        let d = c.dispatched();
        assert forall|i: int, j: int| 0 <= i < j < d.len() implies (#[trigger] d[i]).serialization != (
        #[trigger] d[j]).serialization by {
            assert(d[i] == adm[i] && d[j] == adm[j]);
        }
        assert forall|i: int| 0 <= i < adm.len() implies #[trigger] adm[i] == start_url(c.seed()) || (c.in_scope(adm[i])
            && path_allowed(c.rules(), adm[i].path)) by {
            assert(c.acceptable(adm[i]));
        }
        assert forall|r: int| 0 <= r < c.pages().len() implies one_of(d, (#[trigger] c.pages()[r]).url@) by {
            assert(page_of_done(adm, c.next, c.in_flight@, c.results@[r]));
            let k = choose|k: int| #![trigger adm[k]] is_done(c.next, c.in_flight@, k) && c.results@[r].url@ == adm[k];
            assert(d[k] == adm[k]);
        }
    }

    /// The crawl is over: it has started, every queued URL was handed out
    /// and no fetch is under way.
    pub open spec fn is_over(&self) -> bool {
        &&& self.started()
        &&& self.fetching().len() == 0
        &&& self.dispatched().len() == self.admitted().len()
    }

    /// The work the crawl knows of: each waiting URL counts twice (its
    /// hand-out and its completion), each fetch under way once.
    pub open spec fn pending_work(&self) -> int {
        2 * (self.admitted().len() - self.dispatched().len()) + self.fetching().len()
    }

    /// Under a limit of `m` pages, a bound on the steps left: each URL not
    /// handed out yet counts twice, each fetch under way once.
    pub open spec fn work_bound(&self, m: int) -> int {
        2 * (m - self.dispatched().len()) + self.fetching().len()
    }

    /// The crawl finishes. A started crawl that is not over can always take
    /// a step: `next_fetch` hands out a URL, or some fetch under way can be
    /// completed. Under a page limit `m` the work bound is never negative,
    /// starts at `2 * m`, and every hand-out and every completion lowers
    /// it by exactly one (see `next_fetch` and `complete`), so such a crawl
    /// is over after at most `2 * m` steps. Without a limit, the known work
    /// is never negative and is all done exactly when a started crawl is
    /// over; it ends once no new URLs turn up.
    pub proof fn lemma_progress(c: &Crawler)
        requires
            c.wf(),
        ensures
            c.max_pages() matches Some(m) ==> c.work_bound(m as int) >= 0,
            c.max_pages() matches Some(m) ==> (c.dispatched().len() == 0 && c.fetching().len() == 0 ==> c.work_bound(m as int) == 2 * m),
            c.pending_work() >= 0,
            c.started() ==> (c.pending_work() == 0 <==> c.is_over()),
            c.started() && c.concurrency() > 0 && !c.is_over() ==> (c.fetching().len() < c.concurrency()
                && c.dispatched().len() < c.admitted().len()) || c.fetching().len() > 0,
    {
        reveal(flights_ok);
    }

    /// Every link of a fetched page that lies in scope and whose path
    /// robots.txt allows is queued, unless the budget has no room for it.
    /// So once the crawl is over, every such link was itself handed out for
    /// fetching, unless the budget ran out for it.
    pub proof fn lemma_links_followed(c: &Crawler)
        requires
            c.wf(),
        ensures
            forall|r: int, j: int|
                0 <= r < c.pages().len() && 0 <= j < c.pages()[r].links@.len() && c.in_scope(
                    (#[trigger] c.pages()[r].links@[j])@,
                ) && path_allowed(c.rules(), c.pages()[r].links@[j]@.path) ==> c.holds(
                    c.pages()[r].links@[j]@.serialization,
                ) || !c.has_room_for(c.pages()[r].links@[j]@.path),
            c.is_over() ==> forall|r: int, j: int|
                0 <= r < c.pages().len() && 0 <= j < c.pages()[r].links@.len() && c.in_scope(
                    (#[trigger] c.pages()[r].links@[j])@,
                ) && path_allowed(c.rules(), c.pages()[r].links@[j]@.path) ==> held(
                    c.dispatched(),
                    c.pages()[r].links@[j]@.serialization,
                ) || !c.has_room_for(c.pages()[r].links@[j]@.path),
    {
        reveal(links_followed);
        assert forall|r: int, j: int|
            0 <= r < c.pages().len() && 0 <= j < c.pages()[r].links@.len() && c.in_scope(
                (#[trigger] c.pages()[r].links@[j])@,
            ) && path_allowed(c.rules(), c.pages()[r].links@[j]@.path) implies c.holds(
                c.pages()[r].links@[j]@.serialization,
            ) || !c.has_room_for(c.pages()[r].links@[j]@.path) by {
            assert(page_followed(c.admitted(), c.pages()[r], c.scope, c.rules(), c.max_pages(), c.limits()));
        }
        if c.is_over() {
            assert(c.dispatched() =~= c.admitted());
        }
    }

    /// The pages fetched so far.
    pub fn results(&self) -> (r: &Vec<PageResult>)
        ensures
            r@ == self.pages(),
    {
        &self.results
    }

    /// The pages of the crawl, once it is over.
    pub fn into_results(self) -> (r: Vec<PageResult>)
        ensures
            r@ == self.pages(),
    {
        self.results
    }
}

} // verus!
