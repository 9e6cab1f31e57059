//! Which URLs a crawl may visit: those on the seed's scheme and host.
use vstd::prelude::*;
use crate::text::{chars_of, same_chars};
use crate::weburl::{ParsedUrl, UrlParts};

verus! {

broadcast use vstd::string::group_string_axioms;

/// `http`
pub open spec fn http_scheme() -> Seq<char> {
    seq!['h', 't', 't', 'p']
}

/// `https`
pub open spec fn https_scheme() -> Seq<char> {
    seq!['h', 't', 't', 'p', 's']
}

/// The host of a URL, or the empty string when it has none.
pub open spec fn host_or_empty(u: UrlParts) -> Seq<char> {
    match u.host {
        Some(h) => h,
        None => seq![],
    }
}

/// The scope of a crawl: the seed's host and scheme.
pub struct CrawlScope {
    allowed_host: String,
    seed_scheme: String,
}

impl CrawlScope {
    /// The host every visited URL must have.
    pub closed spec fn host(&self) -> Seq<char> {
        self.allowed_host@
    }

    /// The scheme every visited URL must have.
    pub closed spec fn scheme(&self) -> Seq<char> {
        self.seed_scheme@
    }

    /// Whether `u` lies in this scope: an `http` or `https` URL with the
    /// seed's scheme and host.
    pub open spec fn admits(&self, u: UrlParts) -> bool {
        &&& (u.scheme == http_scheme() || u.scheme == https_scheme())
        &&& u.scheme == self.scheme()
        &&& host_or_empty(u) == self.host()
    }

    /// The scope of a crawl that starts at `seed`.
    pub fn new(seed: &ParsedUrl) -> (scope: CrawlScope)
        ensures
            scope.host() == host_or_empty(seed@),
            scope.scheme() == seed@.scheme,
    {
        let host = match seed.host_str() {
            Some(h) => h.to_owned(),
            None => String::new(),
        };
        CrawlScope { allowed_host: host, seed_scheme: seed.scheme().to_owned() }
    }

    /// Returns true iff the URL uses http or https and its scheme and host
    /// exactly match the seed's.
    pub fn is_allowed(&self, url: &ParsedUrl) -> (allowed: bool)
        ensures
            allowed == self.admits(url@),
    {
        let scheme = chars_of(url.scheme());
        let http: Vec<char> = vec!['h', 't', 't', 'p'];
        let https: Vec<char> = vec!['h', 't', 't', 'p', 's'];
        proof {
            assert(http@ =~= http_scheme());
            assert(https@ =~= https_scheme());
        }
        if !same_chars(&scheme, &http) && !same_chars(&scheme, &https) {
            return false;
        }
        let own_scheme = chars_of(self.seed_scheme.as_str());
        if !same_chars(&scheme, &own_scheme) {
            return false;
        }
        let host = match url.host_str() {
            Some(h) => chars_of(h),
            None => Vec::new(),
        };
        let own_host = chars_of(self.allowed_host.as_str());
        same_chars(&host, &own_host)
    }

    /// Whether a URL is in scope depends on its scheme and host alone: its
    /// path, query and fragment play no part.
    pub proof fn lemma_scope_ignores_path_query_fragment(&self, u: UrlParts, v: UrlParts)
        requires
            u.scheme == v.scheme,
            u.host == v.host,
        ensures
            self.admits(u) == self.admits(v),
    {
    }

    /// A scope built from `seed` admits exactly the `http` and `https` URLs
    /// whose scheme is the seed's and whose host is exactly the seed's
    /// host: no other host, and no subdomain or parent domain of it.
    pub proof fn lemma_scope_is_seed_host(&self, seed: UrlParts, u: UrlParts)
        requires
            self.host() == host_or_empty(seed),
            self.scheme() == seed.scheme,
        ensures
            self.admits(u) <==> ((u.scheme == seq!['h', 't', 't', 'p'] || u.scheme == seq![
                'h',
                't',
                't',
                'p',
                's',
            ]) && u.scheme == seed.scheme && host_or_empty(u) == host_or_empty(seed)),
            self.admits(u) ==> host_or_empty(u) == host_or_empty(seed),
            host_or_empty(u) != host_or_empty(seed) ==> !self.admits(u),
    {
    }

    /// The scope of a crawl admits its seed exactly when the seed is an
    /// `http` or `https` URL.
    pub proof fn lemma_seed_in_scope(&self, seed: UrlParts)
        requires
            self.host() == host_or_empty(seed),
            self.scheme() == seed.scheme,
        ensures
            self.admits(seed) <==> (seed.scheme == http_scheme() || seed.scheme == https_scheme()),
    {
    }
}

} // verus!
