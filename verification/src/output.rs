//! Plain-text rendering of crawl results.
use vstd::prelude::*;
use crate::parser::urls_of;
use crate::types::PageResult;
use crate::weburl::{ParsedUrl, UrlParts};

verus! {

broadcast use vstd::string::group_string_axioms;

/// One line per link, each indented by two spaces.
pub open spec fn link_lines(links: Seq<UrlParts>) -> Seq<char>
    decreases links.len(),
{
    if links.len() == 0 {
        seq![]
    } else {
        link_lines(links.drop_last()) + "  "@ + links.last().serialization + "\n"@
    }
}

/// A page as plain text: its URL on a line, then its links, indented.
pub open spec fn plain_text(url: UrlParts, links: Seq<UrlParts>) -> Seq<char> {
    url.serialization + "\n"@ + link_lines(links)
}

/// A failed fetch as plain text: `<url>: <error>` on a line.
pub open spec fn error_text(url: UrlParts, error: Seq<char>) -> Seq<char> {
    url.serialization + ": "@ + error + "\n"@
}

/// Renders a page result as plain text: the visited URL on its own line,
/// followed by each link indented with two spaces.
pub fn format_plain(result: &PageResult) -> (text: String)
    ensures
        text@ == plain_text(result.url@, urls_of(result.links@)),
{
    let mut text = String::from_str(result.url.as_str());
    text.append("\n");
    let n = result.links.len();
    let ghost links = urls_of(result.links@);
    let mut i: usize = 0;
    assert(links.take(0) =~= Seq::<UrlParts>::empty());
    while i < n
        invariant
            n == result.links@.len() == links.len(),
            links == urls_of(result.links@),
            i <= n,
            text@ == result.url@.serialization + "\n"@ + link_lines(links.take(i as int)),
        decreases n - i,
    {
        text.append("  ");
        text.append(result.links[i].as_str());
        text.append("\n");
        assert(links.take(i + 1).drop_last() =~= links.take(i as int));
        assert(links.take(i + 1).last() == result.links@[i as int]@);
        i = i + 1;
    }
    assert(links.take(n as int) =~= links);
    text
}

/// Renders a fetch error for `url` as a line `<url>: <error>`.
pub fn format_error(url: &ParsedUrl, error: &str) -> (text: String)
    ensures
        text@ == error_text(url@, error@),
{
    let mut text = String::from_str(url.as_str());
    text.append(": ");
    text.append(error);
    text.append("\n");
    text
}

} // verus!
