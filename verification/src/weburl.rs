//! URLs as plain values. Parsing and resolving them is the `url` crate's
//! work; what it returns is carried here as strings.
use vstd::prelude::*;
use crate::text::chars_of;

verus! {

broadcast use vstd::string::group_string_axioms;

/// The parts of a URL that the crawler reads, as the `url` crate gives them.
pub struct UrlParts {
    /// `Url::as_str`, the whole serialization.
    pub serialization: Seq<char>,
    /// `Url::scheme`.
    pub scheme: Seq<char>,
    /// `Url::host_str`.
    pub host: Option<Seq<char>>,
    /// `Url::path`.
    pub path: Seq<char>,
    /// `Url::fragment`.
    pub fragment: Option<Seq<char>>,
}

/// What `url::Url::parse` makes of `input`: the parts of the URL, or the
/// text of its error.
pub uninterp spec fn url_parse_outcome(input: Seq<char>) -> Result<UrlParts, Seq<char>>;

/// What `url::Url::join` makes of `input` resolved against the URL whose
/// serialization is `base`; `None` where it fails.
pub uninterp spec fn url_join_outcome(base: Seq<char>, input: Seq<char>) -> Option<UrlParts>;

/// The URL whose serialization is `url` after `Url::set_fragment(None)`.
pub uninterp spec fn url_fragment_removed(url: Seq<char>) -> Option<UrlParts>;

/// The URL whose serialization is `url` after `Url::set_path(path)`.
pub uninterp spec fn url_path_set(url: Seq<char>, path: Seq<char>) -> Option<UrlParts>;

/// The URL whose serialization is `url` after `Url::set_query(None)`.
pub uninterp spec fn url_query_removed(url: Seq<char>) -> Option<UrlParts>;

/// `http` or `https`: schemes whose URLs always have a host and a
/// hierarchical path.
pub open spec fn is_web_scheme(s: Seq<char>) -> bool {
    s == seq!['h', 't', 't', 'p'] || s == seq!['h', 't', 't', 'p', 's']
}

/// A path that the `url` crate keeps as it is when it is set on an `http`
/// or `https` URL: it starts with `/`, holds only ASCII letters, digits,
/// `/`, `-`, `_` and `.`, and none of its segments starts with `.`, so it
/// needs no percent-encoding and has no dot segments.
pub open spec fn plain_path(p: Seq<char>) -> bool {
    &&& p.len() > 0
    &&& p[0] == '/'
    &&& forall|i: int|
        0 <= i < p.len() ==> {
            let c = #[trigger] p[i];
            ||| 'a' <= c <= 'z'
            ||| 'A' <= c <= 'Z'
            ||| '0' <= c <= '9'
            ||| c == '/'
            ||| c == '-'
            ||| c == '_'
            ||| (c == '.' && i > 0 && p[i - 1] != '/')
        }
}

/// Parsing the serialization of `u` gives `u` again.
pub open spec fn round_trips(u: UrlParts) -> bool {
    url_parse_outcome(u.serialization) == Ok::<UrlParts, Seq<char>>(u)
}

/// What an edit of the URL whose serialization is `url` keeps: the edit
/// happened on the URL that `url` parses to, and its scheme and host stay;
/// on an `http` or `https` URL the result parses back to itself.
pub open spec fn edit_keeps(url: Seq<char>, f: UrlParts) -> bool {
    &&& url_parse_outcome(url) is Ok
    &&& f.scheme == url_parse_outcome(url)->Ok_0.scheme
    &&& f.host == url_parse_outcome(url)->Ok_0.host
    &&& is_web_scheme(f.scheme) ==> round_trips(f)
}

/// A URL: its serialization and the parts the crawler reads, as the `url`
/// crate handed them out.
#[derive(Debug, Clone, PartialEq)]
pub struct ParsedUrl {
    serialization: String,
    scheme: String,
    host: Option<String>,
    path: String,
    fragment: Option<String>,
}

impl View for ParsedUrl {
    type V = UrlParts;

    closed spec fn view(&self) -> UrlParts {
        UrlParts {
            serialization: self.serialization@,
            scheme: self.scheme@,
            host: match self.host {
                Some(h) => Some(h@),
                None => None,
            },
            path: self.path@,
            fragment: match self.fragment {
                Some(f) => Some(f@),
                None => None,
            },
        }
    }
}

/// The optional view of an optional URL.
pub open spec fn url_view(o: Option<ParsedUrl>) -> Option<UrlParts> {
    match o {
        Some(u) => Some(u@),
        None => None,
    }
}

/// Trusted: calls `url::Url::parse` and reads the parts of the result; the
/// contract names the outcome, error text included, and states that an
/// `http` or `https` URL parses back to itself from its serialization (the
/// crate's own `Url::check_invariants` re-parses `as_str()` and requires
/// the same serialization, scheme, host, path, query and fragment).
#[verifier::external_body]
fn parse_fields(input: &str) -> (r: Result<ParsedUrl, String>)
    ensures
        match r {
            Ok(f) => url_parse_outcome(input@) == Ok::<UrlParts, Seq<char>>(f@),
            Err(e) => url_parse_outcome(input@) == Err::<UrlParts, Seq<char>>(e@),
        },
        r matches Ok(f) ==> (is_web_scheme(f@.scheme) ==> round_trips(f@)),
{
    match url::Url::parse(input) {
        Ok(u) => Ok(ParsedUrl {
            serialization: u.as_str().to_owned(),
            scheme: u.scheme().to_owned(),
            host: u.host_str().map(str::to_owned),
            path: u.path().to_owned(),
            fragment: u.fragment().map(str::to_owned),
        }),
        Err(e) => Err(e.to_string()),
    }
}

/// Trusted: calls `url::Url::join` on the URL whose serialization is `base`
/// (read back with `Url::parse`, which gives that URL again); the contract
/// names the outcome. The join's error is dropped.
#[verifier::external_body]
fn join_fields(base: &str, input: &str) -> (r: Option<ParsedUrl>)
    ensures
        url_view(r) == url_join_outcome(base@, input@),
{
    let u = url::Url::parse(base).ok()?.join(input).ok()?;
    Some(ParsedUrl {
        serialization: u.as_str().to_owned(),
        scheme: u.scheme().to_owned(),
        host: u.host_str().map(str::to_owned),
        path: u.path().to_owned(),
        fragment: u.fragment().map(str::to_owned),
    })
}

/// Trusted: calls `url::Url::set_fragment(None)` on the URL whose
/// serialization is `url`; the contract names the outcome, and states what
/// the crate's source shows: the result has no fragment; the scheme and
/// host stay (the serialization is only cut at the fragment); the path
/// stays on an `http` or `https` URL (only an opaque path loses trailing
/// spaces); and such a URL parses back to itself.
#[verifier::external_body]
fn remove_fragment_fields(url: &str) -> (r: Option<ParsedUrl>)
    ensures
        url_view(r) == url_fragment_removed(url@),
        r matches Some(f) ==> f.fragment is None,
        r matches Some(f) ==> edit_keeps(url@, f@),
        r matches Some(f) ==> (is_web_scheme(f@.scheme) ==> f@.path == url_parse_outcome(url@)->Ok_0.path),
{
    let mut u = url::Url::parse(url).ok()?;
    u.set_fragment(None);
    Some(ParsedUrl {
        serialization: u.as_str().to_owned(),
        scheme: u.scheme().to_owned(),
        host: u.host_str().map(str::to_owned),
        path: u.path().to_owned(),
        fragment: u.fragment().map(str::to_owned),
    })
}

/// Trusted: calls `url::Url::set_path(path)` on the URL whose serialization
/// is `url`; the contract names the outcome, and states what the crate's
/// source shows: the scheme and host stay (the serialization is only
/// rewritten from the path on); on an `http` or `https` URL a plain path
/// is taken as it is (nothing in it is percent-encoded and it has no dot
/// segments); and such a URL parses back to itself.
#[verifier::external_body]
fn set_path_fields(url: &str, path: &str) -> (r: Option<ParsedUrl>)
    ensures
        url_view(r) == url_path_set(url@, path@),
        r matches Some(f) ==> edit_keeps(url@, f@),
        r matches Some(f) ==> (is_web_scheme(f@.scheme) && plain_path(path@) ==> f@.path == path@),
{
    let mut u = url::Url::parse(url).ok()?;
    u.set_path(path);
    Some(ParsedUrl {
        serialization: u.as_str().to_owned(),
        scheme: u.scheme().to_owned(),
        host: u.host_str().map(str::to_owned),
        path: u.path().to_owned(),
        fragment: u.fragment().map(str::to_owned),
    })
}

/// Trusted: calls `url::Url::set_query(None)` on the URL whose serialization
/// is `url`; the contract names the outcome, and states what the crate's
/// source shows: the scheme and host stay (the serialization is only cut
/// at the query and the fragment put back); the path stays on an `http`
/// or `https` URL (only an opaque path loses trailing spaces); and such a
/// URL parses back to itself.
#[verifier::external_body]
fn remove_query_fields(url: &str) -> (r: Option<ParsedUrl>)
    ensures
        url_view(r) == url_query_removed(url@),
        r matches Some(f) ==> edit_keeps(url@, f@),
        r matches Some(f) ==> (is_web_scheme(f@.scheme) ==> f@.path == url_parse_outcome(url@)->Ok_0.path),
{
    let mut u = url::Url::parse(url).ok()?;
    u.set_query(None);
    Some(ParsedUrl {
        serialization: u.as_str().to_owned(),
        scheme: u.scheme().to_owned(),
        host: u.host_str().map(str::to_owned),
        path: u.path().to_owned(),
        fragment: u.fragment().map(str::to_owned),
    })
}

impl ParsedUrl {
    /// Parses `input` as an absolute URL (`url::Url::parse`); the error is
    /// the text of the crate's error.
    pub fn parse(input: &str) -> (r: Result<ParsedUrl, String>)
        ensures
            match r {
                Ok(u) => url_parse_outcome(input@) == Ok::<UrlParts, Seq<char>>(u@),
                Err(e) => url_parse_outcome(input@) == Err::<UrlParts, Seq<char>>(e@),
            },
            r matches Ok(u) ==> (is_web_scheme(u@.scheme) ==> round_trips(u@)),
    {
        parse_fields(input)
    }

    /// `input` resolved against this URL (`Url::join`), if it resolves.
    pub(crate) fn join(&self, input: &str) -> (r: Option<ParsedUrl>)
        ensures
            url_view(r) == url_join_outcome(self@.serialization, input@),
    {
        join_fields(self.serialization.as_str(), input)
    }

    /// This URL without its fragment (`Url::set_fragment(None)`).
    pub(crate) fn without_fragment(&self) -> (r: Option<ParsedUrl>)
        ensures
            url_view(r) == url_fragment_removed(self@.serialization),
            r matches Some(u) ==> u@.fragment is None,
            r matches Some(u) ==> edit_keeps(self@.serialization, u@),
            r matches Some(u) ==> (is_web_scheme(u@.scheme) ==> u@.path == url_parse_outcome(self@.serialization)->Ok_0.path),
    {
        remove_fragment_fields(self.serialization.as_str())
    }

    /// This URL with its path replaced (`Url::set_path`).
    pub(crate) fn with_path(&self, path: &str) -> (r: Option<ParsedUrl>)
        ensures
            url_view(r) == url_path_set(self@.serialization, path@),
            r matches Some(u) ==> edit_keeps(self@.serialization, u@),
            r matches Some(u) ==> (is_web_scheme(u@.scheme) && plain_path(path@) ==> u@.path == path@),
    {
        set_path_fields(self.serialization.as_str(), path)
    }

    /// This URL without its query (`Url::set_query(None)`).
    pub(crate) fn without_query(&self) -> (r: Option<ParsedUrl>)
        ensures
            url_view(r) == url_query_removed(self@.serialization),
            r matches Some(u) ==> edit_keeps(self@.serialization, u@),
            r matches Some(u) ==> (is_web_scheme(u@.scheme) ==> u@.path == url_parse_outcome(self@.serialization)->Ok_0.path),
    {
        remove_query_fields(self.serialization.as_str())
    }

    /// The characters of the serialization.
    pub fn chars(&self) -> (c: Vec<char>)
        ensures
            c@ == self@.serialization,
    {
        chars_of(self.serialization.as_str())
    }

    /// The serialization.
    pub fn as_str(&self) -> (s: &str)
        ensures
            s@ == self@.serialization,
    {
        self.serialization.as_str()
    }

    /// The scheme.
    pub fn scheme(&self) -> (s: &str)
        ensures
            s@ == self@.scheme,
    {
        self.scheme.as_str()
    }

    /// The host, if the URL has one.
    pub fn host_str(&self) -> (h: Option<&str>)
        ensures
            match h {
                Some(s) => self@.host == Some(s@),
                None => self@.host is None,
            },
    {
        match &self.host {
            Some(s) => Some(s.as_str()),
            None => None,
        }
    }

    /// The path.
    pub fn path(&self) -> (s: &str)
        ensures
            s@ == self@.path,
    {
        self.path.as_str()
    }

    /// The fragment, if the URL has one.
    pub fn fragment(&self) -> (f: Option<&str>)
        ensures
            match f {
                Some(s) => self@.fragment == Some(s@),
                None => self@.fragment is None,
            },
    {
        match &self.fragment {
            Some(s) => Some(s.as_str()),
            None => None,
        }
    }

    /// A copy of this URL.
    pub fn duplicate(&self) -> (u: ParsedUrl)
        ensures
            u@ == self@,
    {
        ParsedUrl {
            serialization: self.serialization.clone(),
            scheme: self.scheme.clone(),
            host: match &self.host {
                Some(h) => Some(h.clone()),
                None => None,
            },
            path: self.path.clone(),
            fragment: match &self.fragment {
                Some(f) => Some(f.clone()),
                None => None,
            },
        }
    }
}

} // verus!
