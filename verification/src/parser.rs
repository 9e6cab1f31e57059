//! Links of an HTML page: every `<a href>`, resolved against the page's URL,
//! without fragment, sorted and without duplicates.
use vstd::prelude::*;
use crate::ordered::{lex_less, lemma_lex_irreflexive, locate, strictly_sorted};
use crate::weburl::{ParsedUrl, UrlParts, url_fragment_removed, url_join_outcome};

verus! {

broadcast use vstd::string::group_string_axioms;

/// What the `scraper` crate finds in `html`: for each element that the CSS
/// selector `selector` matches, in the order `Html::select` yields them
/// (the order in which the parsed tree's nodes were created), the value of
/// its attribute `attribute` if it has one; `None` when `selector` does not
/// parse.
pub uninterp spec fn html_attribute_values(
    html: Seq<char>,
    selector: Seq<char>,
    attribute: Seq<char>,
) -> Option<Seq<Option<Seq<char>>>>;

/// The views of a list of optional strings.
pub open spec fn opt_strings_of(v: Seq<Option<String>>) -> Seq<Option<Seq<char>>> {
    v.map_values(|s: Option<String>| match s {
        Some(t) => Some(t@),
        None => None,
    })
}

/// The views of a list of URLs.
pub open spec fn urls_of(v: Seq<ParsedUrl>) -> Seq<UrlParts> {
    v.map_values(|u: ParsedUrl| u@)
}

/// The serializations of a list of URLs.
pub open spec fn serializations(v: Seq<UrlParts>) -> Seq<Seq<char>> {
    v.map_values(|u: UrlParts| u.serialization)
}

/// Trusted: parses `html` with `scraper::Html::parse_document`, parses
/// `selector` with `scraper::Selector::parse`, and reads `attribute`
/// (`scraper::node::Element::attr`) from each element that `Html::select`
/// yields; the contract names the result.
#[verifier::external_body]
fn select_attribute(html: &str, selector: &str, attribute: &str) -> (r: Option<Vec<Option<String>>>)
    ensures
        match r {
            Some(v) => html_attribute_values(html@, selector@, attribute@) == Some(opt_strings_of(v@)),
            None => html_attribute_values(html@, selector@, attribute@) is None,
        },
{
    let document = scraper::Html::parse_document(html);
    let selector = scraper::Selector::parse(selector).ok()?;
    Some(document.select(&selector).map(|el| el.value().attr(attribute).map(str::to_owned)).collect())
}

/// `a[href]`
pub open spec fn anchor_selector() -> Seq<char> {
    "a[href]"@
}

/// `href`
pub open spec fn href_attribute() -> Seq<char> {
    "href"@
}

/// The `href` attributes of the page's `a[href]` elements, in the order
/// `scraper` yields the elements.
pub open spec fn anchor_hrefs(html: Seq<char>) -> Seq<Option<Seq<char>>> {
    match html_attribute_values(html, anchor_selector(), href_attribute()) {
        Some(v) => v,
        None => seq![],
    }
}

/// `href` resolved against `base`, its fragment removed, if there is an
/// `href` and it resolves.
pub open spec fn resolved_link(base: UrlParts, href: Option<Seq<char>>) -> Option<UrlParts> {
    match href {
        Some(h) => match url_join_outcome(base.serialization, h) {
            Some(u) => url_fragment_removed(u.serialization),
            None => None,
        },
        None => None,
    }
}

/// The links that `hrefs` resolve to against `base`, in order, repeats
/// included.
pub open spec fn resolved_links(base: UrlParts, hrefs: Seq<Option<Seq<char>>>) -> Seq<UrlParts>
    decreases hrefs.len(),
{
    if hrefs.len() == 0 {
        seq![]
    } else {
        let rest = resolved_links(base, hrefs.drop_last());
        match resolved_link(base, hrefs.last()) {
            Some(u) => rest.push(u),
            None => rest,
        }
    }
}

/// `link` is what the `href` at `k` of `hrefs` gives: the `url` crate's
/// join of it against `base`, with only the fragment removed.
pub open spec fn link_of_href(base: UrlParts, hrefs: Seq<Option<Seq<char>>>, k: int, link: UrlParts) -> bool {
    &&& 0 <= k < hrefs.len()
    &&& hrefs[k] is Some
    &&& url_join_outcome(base.serialization, hrefs[k]->Some_0) matches Some(j)
    &&& url_fragment_removed(j.serialization) == Some(link)
}

/// `link` is what some `href` of `hrefs` gives, as `link_of_href` says.
pub open spec fn from_some_href(base: UrlParts, hrefs: Seq<Option<Seq<char>>>, link: UrlParts) -> bool {
    exists|k: int| link_of_href(base, hrefs, k, link)
}

/// The resolved links of a page are exactly its `href`s joined against the
/// page's URL with only their fragment removed (query, path and all else
/// as the join gives them): each resolved link comes from an `href` that
/// way, each `href` that joins and loses its fragment gives a resolved
/// link, and an `href` that does not join gives none.
pub proof fn lemma_resolved_links_are_joins(base: UrlParts, hrefs: Seq<Option<Seq<char>>>)
    ensures
        forall|i: int|
            0 <= i < resolved_links(base, hrefs).len() ==> from_some_href(base, hrefs, #[trigger] resolved_links(base, hrefs)[i]),
        forall|k: int, link: UrlParts|
            #[trigger] link_of_href(base, hrefs, k, link) ==> exists|i: int|
                0 <= i < resolved_links(base, hrefs).len() && resolved_links(base, hrefs)[i] == link,
        resolved_links(base, hrefs).len() <= hrefs.len(),
    decreases hrefs.len(),
{
    if hrefs.len() > 0 {
        let front = hrefs.drop_last();
        let n = hrefs.len() - 1;
        lemma_resolved_links_are_joins(base, front);
        let rf = resolved_links(base, front);
        let r = resolved_links(base, hrefs);
        assert(hrefs.last() == hrefs[n]);
        match resolved_link(base, hrefs[n]) {
            Some(u) => {
                assert(r == rf.push(u));
                assert(link_of_href(base, hrefs, n, u));
            },
            None => {
                assert(r == rf);
            },
        }
        assert forall|k: int, link: UrlParts| #[trigger] link_of_href(base, front, k, link) implies link_of_href(
            base,
            hrefs,
            k,
            link,
        ) by {
            assert(front[k] == hrefs[k]);
        }
        assert forall|i: int| 0 <= i < r.len() implies from_some_href(base, hrefs, #[trigger] r[i]) by {
            if i < rf.len() {
                assert(r[i] == rf[i]);
                assert(from_some_href(base, front, rf[i]));
                let k = choose|k: int| link_of_href(base, front, k, rf[i]);
                assert(link_of_href(base, hrefs, k, r[i]));
            } else {
                assert(r[i] == resolved_link(base, hrefs[n])->Some_0);
                assert(link_of_href(base, hrefs, n, r[i]));
            }
        }
        assert forall|k: int, link: UrlParts| #[trigger] link_of_href(base, hrefs, k, link) implies exists|i: int|
            0 <= i < r.len() && r[i] == link by {
            if k < n {
                assert(hrefs[k] == front[k]);
                assert(link_of_href(base, front, k, link));
                let i = choose|i: int| 0 <= i < rf.len() && rf[i] == link;
                assert(r[i] == rf[i]);
            } else {
                assert(hrefs.last() == hrefs[k]);
                assert(r[rf.len() as int] == link);
            }
        }
    } else {
        assert(resolved_links(base, hrefs).len() == 0);
    }
}

/// `u` is the first of `candidates` with its serialization.
pub open spec fn first_with_serialization(candidates: Seq<UrlParts>, u: UrlParts) -> bool {
    exists|k: int|
        0 <= k < candidates.len() && #[trigger] candidates[k] == u && forall|m: int|
            0 <= m < k ==> (#[trigger] candidates[m]).serialization != u.serialization
}

/// Every link is the first of `candidates` with its serialization.
pub open spec fn all_first(links: Seq<UrlParts>, candidates: Seq<UrlParts>) -> bool {
    forall|i: int| 0 <= i < links.len() ==> first_with_serialization(candidates, #[trigger] links[i])
}

/// Every candidate's serialization is among the links.
pub open spec fn covers(links: Seq<UrlParts>, candidates: Seq<UrlParts>) -> bool {
    forall|k: int|
        0 <= k < candidates.len() ==> exists|i: int|
            0 <= i < links.len() && (#[trigger] links[i]).serialization == (
            #[trigger] candidates[k]).serialization
}

/// `links` is `candidates` sorted by serialization, each serialization kept
/// once, with the first candidate that has it.
pub open spec fn sorted_unique_links(links: Seq<UrlParts>, candidates: Seq<UrlParts>) -> bool {
    &&& strictly_sorted(serializations(links))
    &&& all_first(links, candidates)
    &&& covers(links, candidates)
}

/// Inserting `key` where everything before is smaller and everything after
/// is larger keeps a list strictly sorted.
pub proof fn lemma_sorted_insert(ks: Seq<Seq<char>>, pos: int, key: Seq<char>)
    requires
        strictly_sorted(ks),
        0 <= pos <= ks.len(),
        forall|j: int| 0 <= j < pos ==> lex_less(#[trigger] ks[j], key),
        forall|j: int| pos <= j < ks.len() ==> lex_less(key, #[trigger] ks[j]),
    ensures
        strictly_sorted(ks.insert(pos, key)),
{
    let nk = ks.insert(pos, key);
    assert forall|i: int, j: int| 0 <= i < j < nk.len() implies lex_less(
        #[trigger] nk[i],
        #[trigger] nk[j],
    ) by {
        if j < pos {
            assert(nk[i] == ks[i] && nk[j] == ks[j]);
        } else if j == pos {
            assert(nk[i] == ks[i]);
        } else if i == pos {
            assert(nk[j] == ks[j - 1]);
        } else if i < pos {
            assert(nk[i] == ks[i]);
            assert(nk[j] == ks[j - 1]);
            crate::ordered::lemma_lex_transitive(nk[i], key, nk[j]);
        } else {
            assert(nk[i] == ks[i - 1] && nk[j] == ks[j - 1]);
        }
    }
}

/// A link that was first with its serialization stays first when a
/// candidate is added at the end.
proof fn lemma_first_kept(candidates: Seq<UrlParts>, x: UrlParts, u: UrlParts)
    requires
        first_with_serialization(candidates, u),
    ensures
        first_with_serialization(candidates.push(x), u),
{
    let k = choose|k: int|
        0 <= k < candidates.len() && #[trigger] candidates[k] == u && forall|m: int|
            0 <= m < k ==> (#[trigger] candidates[m]).serialization != u.serialization;
    let nc = candidates.push(x);
    assert(nc[k] == u);
    assert forall|m: int| 0 <= m < k implies (#[trigger] nc[m]).serialization != u.serialization by {
        assert(nc[m] == candidates[m]);
    }
}

/// Every link stays first when a candidate is added at the end.
proof fn lemma_all_first_kept(links: Seq<UrlParts>, candidates: Seq<UrlParts>, x: UrlParts)
    requires
        all_first(links, candidates),
    ensures
        all_first(links, candidates.push(x)),
{
    assert forall|i: int| 0 <= i < links.len() implies first_with_serialization(
        candidates.push(x),
        #[trigger] links[i],
    ) by {
        lemma_first_kept(candidates, x, links[i]);
    }
}

/// A candidate whose serialization is already among the links adds nothing.
proof fn lemma_repeat_candidate(links: Seq<UrlParts>, candidates: Seq<UrlParts>, x: UrlParts, pos: int)
    requires
        sorted_unique_links(links, candidates),
        0 <= pos < links.len(),
        links[pos].serialization == x.serialization,
    ensures
        sorted_unique_links(links, candidates.push(x)),
{
    let nc = candidates.push(x);
    lemma_all_first_kept(links, candidates, x);
    assert forall|k: int| 0 <= k < nc.len() implies exists|i: int|
        0 <= i < links.len() && (#[trigger] links[i]).serialization == (
        #[trigger] nc[k]).serialization by {
        if k < candidates.len() {
            assert(nc[k] == candidates[k]);
        } else {
            assert(links[pos].serialization == nc[k].serialization);
        }
    }
}

/// A candidate with a new serialization, inserted where its serialization
/// sorts, keeps the links sorted, first and complete.
proof fn lemma_new_candidate(links: Seq<UrlParts>, candidates: Seq<UrlParts>, x: UrlParts, pos: int)
    requires
        sorted_unique_links(links, candidates),
        0 <= pos <= links.len(),
        forall|j: int| 0 <= j < pos ==> lex_less(#[trigger] links[j].serialization, x.serialization),
        forall|j: int| pos <= j < links.len() ==> lex_less(x.serialization, #[trigger] links[j].serialization),
    ensures
        sorted_unique_links(links.insert(pos, x), candidates.push(x)),
{
    let nl = links.insert(pos, x);
    let nc = candidates.push(x);
    let ks = serializations(links);
    lemma_lex_irreflexive(x.serialization);
    assert forall|j: int| 0 <= j < pos implies lex_less(#[trigger] ks[j], x.serialization) by {
        assert(ks[j] == links[j].serialization);
    }
    assert forall|j: int| pos <= j < ks.len() implies lex_less(x.serialization, #[trigger] ks[j]) by {
        assert(ks[j] == links[j].serialization);
    }
    lemma_sorted_insert(ks, pos, x.serialization);
    assert(serializations(nl) =~= ks.insert(pos, x.serialization));
    assert forall|k: int| 0 <= k < candidates.len() implies (#[trigger] candidates[k]).serialization
        != x.serialization by {
        let i = choose|i: int|
            0 <= i < links.len() && (#[trigger] links[i]).serialization == (
            #[trigger] candidates[k]).serialization;
        if i < pos {
            assert(lex_less(links[i].serialization, x.serialization));
        } else {
            assert(lex_less(x.serialization, links[i].serialization));
        }
    }
    assert forall|i: int| 0 <= i < nl.len() implies first_with_serialization(nc, #[trigger] nl[i]) by {
        if i < pos {
            assert(nl[i] == links[i]);
            lemma_first_kept(candidates, x, links[i]);
        } else if i == pos {
            let k = candidates.len() as int;
            assert(nc[k] == x);
            assert forall|m: int| 0 <= m < k implies (#[trigger] nc[m]).serialization
                != x.serialization by {
                assert(nc[m] == candidates[m]);
            }
        } else {
            assert(nl[i] == links[i - 1]);
            lemma_first_kept(candidates, x, links[i - 1]);
        }
    }
    assert forall|k: int| 0 <= k < nc.len() implies exists|i: int|
        0 <= i < nl.len() && (#[trigger] nl[i]).serialization == (#[trigger] nc[k]).serialization by {
        if k < candidates.len() {
            assert(nc[k] == candidates[k]);
            let i = choose|i: int|
                0 <= i < links.len() && (#[trigger] links[i]).serialization == (
                #[trigger] candidates[k]).serialization;
            if i < pos {
                assert(nl[i] == links[i]);
            } else {
                assert(nl[i + 1] == links[i]);
            }
        } else {
            assert(nl[pos] == x);
        }
    }
}

/// Adds `u` to the sorted `links` unless a link with its serialization is
/// there already.
#[verifier::spinoff_prover]
fn insert_link(
    links: &mut Vec<ParsedUrl>,
    keys: &mut Vec<Vec<char>>,
    u: ParsedUrl,
    Ghost(candidates): Ghost<Seq<UrlParts>>,
)
    requires
        old(keys)@.map_values(|k: Vec<char>| k@) == serializations(urls_of(old(links)@)),
        sorted_unique_links(urls_of(old(links)@), candidates),
    ensures
        final(keys)@.map_values(|k: Vec<char>| k@) == serializations(urls_of(final(links)@)),
        sorted_unique_links(urls_of(final(links)@), candidates.push(u@)),
{
    let ghost old_links = urls_of(links@);
    let key = u.chars();
    let (found, pos) = locate(keys, &key);
    proof {
        let kv = keys@.map_values(|k: Vec<char>| k@);
        assert(kv.len() == keys@.len());
        assert(serializations(old_links).len() == old_links.len());
        assert(old_links.len() == links@.len());
        assert forall|j: int| 0 <= j < keys@.len() implies #[trigger] keys@[j]@ == old_links[j].serialization by {
            assert(kv[j] == keys@[j]@);
            assert(serializations(old_links)[j] == old_links[j].serialization);
        }
    }
    if found {
        proof {
            lemma_repeat_candidate(old_links, candidates, u@, pos as int);
        }
        return;
    }
    proof {
        assert forall|j: int| 0 <= j < pos implies lex_less(
            #[trigger] old_links[j].serialization,
            u@.serialization,
        ) by {
            assert(keys@[j]@ == old_links[j].serialization);
        }
        assert forall|j: int| pos <= j < old_links.len() implies lex_less(
            u@.serialization,
            #[trigger] old_links[j].serialization,
        ) by {
            assert(keys@[j]@ == old_links[j].serialization);
        }
        lemma_new_candidate(old_links, candidates, u@, pos as int);
    }
    let ghost old_keys = keys@;
    keys.insert(pos, key);
    links.insert(pos, u);
    proof {
        assert(urls_of(links@) =~= old_links.insert(pos as int, u@));
        assert(keys@.map_values(|k: Vec<char>| k@) =~= old_keys.map_values(|k: Vec<char>| k@).insert(
            pos as int,
            key@,
        ));
        assert(serializations(old_links.insert(pos as int, u@)) =~= serializations(old_links).insert(
            pos as int,
            u@.serialization,
        ));
    }
}

/// `candidates` sorted by serialization, each serialization kept once,
/// with the first candidate that has it.
pub fn sorted_unique(candidates: Vec<ParsedUrl>) -> (links: Vec<ParsedUrl>)
    ensures
        sorted_unique_links(urls_of(links@), urls_of(candidates@)),
{
    let ghost all = urls_of(candidates@);
    let mut links: Vec<ParsedUrl> = Vec::new();
    let mut keys: Vec<Vec<char>> = Vec::new();
    let n = candidates.len();
    let mut i: usize = 0;
    assert(all.take(0) =~= Seq::<UrlParts>::empty());
    while i < n
        invariant
            n == candidates@.len() == all.len(),
            all == urls_of(candidates@),
            i <= n,
            keys@.map_values(|k: Vec<char>| k@) == serializations(urls_of(links@)),
            sorted_unique_links(urls_of(links@), all.take(i as int)),
        decreases n - i,
    {
        assert(all.take(i + 1) =~= all.take(i as int).push(candidates@[i as int]@));
        insert_link(&mut links, &mut keys, candidates[i].duplicate(), Ghost(all.take(i as int)));
        i = i + 1;
    }
    assert(all.take(n as int) =~= all);
    links
}

/// The links of the page `base` whose HTML is `html`: the `href` of every
/// `<a href>` resolved against `base`, without fragment, sorted by
/// serialization and without repeats. An `href` that does not resolve is
/// skipped.
pub fn extract_links(base: &ParsedUrl, html: &str) -> (links: Vec<ParsedUrl>)
    ensures
        sorted_unique_links(urls_of(links@), resolved_links(base@, anchor_hrefs(html@))),
        forall|i: int| 0 <= i < links@.len() ==> (#[trigger] links@[i])@.fragment is None,
        forall|i: int| 0 <= i < links@.len() ==> from_some_href(base@, anchor_hrefs(html@), (#[trigger] links@[i])@),
        forall|k: int, link: UrlParts|
            #[trigger] link_of_href(base@, anchor_hrefs(html@), k, link) ==> exists|i: int|
                0 <= i < links@.len() && (#[trigger] links@[i])@.serialization == link.serialization,
{
    let hrefs = match select_attribute(html, "a[href]", "href") {
        Some(v) => v,
        None => Vec::new(),
    };
    let ghost all = opt_strings_of(hrefs@);
    assert(all == anchor_hrefs(html@)) by {
        if html_attribute_values(html@, anchor_selector(), href_attribute()) is None {
            assert(all =~= Seq::<Option<Seq<char>>>::empty());
        }
    }
    let mut resolved: Vec<ParsedUrl> = Vec::new();
    let n = hrefs.len();
    let mut i: usize = 0;
    assert(all.take(0) =~= Seq::<Option<Seq<char>>>::empty());
    while i < n
        invariant
            n == hrefs@.len() == all.len(),
            all == opt_strings_of(hrefs@),
            i <= n,
            urls_of(resolved@) == resolved_links(base@, all.take(i as int)),
            forall|j: int| 0 <= j < resolved@.len() ==> (#[trigger] resolved@[j])@.fragment is None,
        decreases n - i,
    {
        let ghost before = resolved@;
        assert(all.take(i + 1).drop_last() =~= all.take(i as int));
        assert(all.take(i + 1).last() == all[i as int]);
        let joined = match &hrefs[i] {
            Some(href) => base.join(href.as_str()),
            None => None,
        };
        match joined {
            Some(joined) => match joined.without_fragment() {
                Some(link) => {
                    resolved.push(link);
                    assert(urls_of(resolved@) =~= urls_of(before).push(resolved@[before.len() as int]@));
                },
                None => {},
            },
            None => {},
        }
        i = i + 1;
    }
    assert(all.take(n as int) =~= all);
    let ghost rv = resolved@;
    let ghost cands = urls_of(rv);
    let links = sorted_unique(resolved);
    proof {
        assert forall|i: int| 0 <= i < links@.len() implies (#[trigger] links@[i])@.fragment is None by {
            let u = urls_of(links@)[i];
            assert(first_with_serialization(cands, u));
            let k = choose|k: int|
                0 <= k < cands.len() && #[trigger] cands[k] == u && forall|m: int|
                    0 <= m < k ==> (#[trigger] cands[m]).serialization != u.serialization;
            assert(cands[k] == rv[k]@);
        }
        let hs = anchor_hrefs(html@);
        lemma_resolved_links_are_joins(base@, hs);
        assert forall|i: int| 0 <= i < links@.len() implies from_some_href(base@, hs, (#[trigger] links@[i])@) by {
            let u = urls_of(links@)[i];
            assert(first_with_serialization(cands, u));
            let k = choose|k: int|
                0 <= k < cands.len() && #[trigger] cands[k] == u && forall|m: int|
                    0 <= m < k ==> (#[trigger] cands[m]).serialization != u.serialization;
            assert(from_some_href(base@, hs, cands[k]));
        }
        assert forall|k: int, link: UrlParts| #[trigger] link_of_href(base@, hs, k, link) implies exists|i: int|
            0 <= i < links@.len() && (#[trigger] links@[i])@.serialization == link.serialization by {
            let c = choose|c: int| 0 <= c < cands.len() && cands[c] == link;
            let i = choose|i: int|
                0 <= i < urls_of(links@).len() && (#[trigger] urls_of(links@)[i]).serialization == (
                #[trigger] cands[c]).serialization;
            assert(urls_of(links@)[i] == links@[i]@);
        }
    }
    links
}

} // verus!
