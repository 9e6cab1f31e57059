//! What robots.txt parsing promises for every body.
use vstd::prelude::*;
use crate::robots::{
    AgentKind, ParseState, agent_kind, closed, crawl_boi_agent, disallow_field, field_value,
    final_state, flushed, initial_state, lines, merged, path_allowed, robots_prefixes, run_lines, step,
    strip_comment_spec, user_agent_field,
};
use crate::text::{
    ascii_fold, char_pos, eq_ignore_ascii_case, is_prefix, is_white_space, lemma_char_pos_bounds,
    lemma_char_pos_is, trim, trim_end, trim_start,
};

verus! {

/// Every string in `s` is non-empty.
pub open spec fn all_nonempty(s: Seq<Seq<char>>) -> bool {
    forall|i: int| 0 <= i < s.len() ==> (#[trigger] s[i]).len() > 0
}

/// Every list of prefixes a parser state holds has only non-empty prefixes.
pub open spec fn state_nonempty(st: ParseState) -> bool {
    &&& all_nonempty(st.prefixes)
    &&& st.crawl_boi matches Some(p) ==> all_nonempty(p)
    &&& st.wildcard matches Some(p) ==> all_nonempty(p)
}

proof fn lemma_merged_nonempty(
    target: Option<Seq<Seq<char>>>,
    agents: Seq<AgentKind>,
    kind: AgentKind,
    prefixes: Seq<Seq<char>>,
)
    requires
        target matches Some(p) ==> all_nonempty(p),
        all_nonempty(prefixes),
    ensures
        merged(target, agents, kind, prefixes) matches Some(p) ==> all_nonempty(p),
{
    if agents.contains(kind) {
        let base = match target {
            Some(t) => t,
            None => seq![],
        };
        assert forall|i: int| 0 <= i < (base + prefixes).len() implies (#[trigger] (base
            + prefixes)[i]).len() > 0 by {
            if i < base.len() {
                assert((base + prefixes)[i] == base[i]);
            } else {
                assert((base + prefixes)[i] == prefixes[i - base.len()]);
            }
        }
    }
}

proof fn lemma_flushed_nonempty(st: ParseState)
    requires
        state_nonempty(st),
    ensures
        state_nonempty(flushed(st)),
        state_nonempty(closed(st)),
{
    lemma_merged_nonempty(st.crawl_boi, st.agents, AgentKind::CrawlBoi, st.prefixes);
    lemma_merged_nonempty(st.wildcard, st.agents, AgentKind::Wildcard, st.prefixes);
}

proof fn lemma_step_nonempty(st: ParseState, raw: Seq<char>)
    requires
        state_nonempty(st),
    ensures
        state_nonempty(step(st, raw)),
{
    lemma_flushed_nonempty(st);
    let line = trim(strip_comment_spec(raw));
    if line.len() != 0 && field_value(line, user_agent_field()).is_none() {
        if let Some(v) = field_value(line, disallow_field()) {
            if v.len() > 0 {
                assert forall|i: int| 0 <= i < st.prefixes.push(v).len() implies (
                #[trigger] st.prefixes.push(v)[i]).len() > 0 by {
                    if i < st.prefixes.len() {
                        assert(st.prefixes.push(v)[i] == st.prefixes[i]);
                    }
                }
            }
        }
    }
}

proof fn lemma_run_nonempty(st: ParseState, ls: Seq<Seq<char>>)
    requires
        state_nonempty(st),
    ensures
        state_nonempty(run_lines(st, ls)),
    decreases ls.len(),
{
    if ls.len() > 0 {
        lemma_step_nonempty(st, ls[0]);
        lemma_run_nonempty(step(st, ls[0]), ls.drop_first());
    }
}

/// An empty or absent `Disallow:` value is never recorded: every prefix
/// the rules hold is non-empty.
pub proof fn lemma_recorded_prefixes_nonempty(body: Seq<char>)
    ensures
        all_nonempty(robots_prefixes(body)),
{
    lemma_run_nonempty(initial_state(), lines(body));
    lemma_flushed_nonempty(run_lines(initial_state(), lines(body)));
}

/// An empty (or missing) robots.txt allows every path.
pub proof fn lemma_empty_body_allows_all(path: Seq<char>)
    ensures
        robots_prefixes(Seq::<char>::empty()) == Seq::<Seq<char>>::empty(),
        path_allowed(robots_prefixes(Seq::<char>::empty()), path),
{
    assert(lines(Seq::<char>::empty()) =~= Seq::<Seq<char>>::empty());
}

/// Parsing is deterministic: equal bodies give equal rules.
pub proof fn lemma_parse_deterministic(a: Seq<char>, b: Seq<char>)
    requires
        a == b,
    ensures
        robots_prefixes(a) == robots_prefixes(b),
{
}

/// The lines `ls`, each followed by `\n`.
pub open spec fn join_lines(ls: Seq<Seq<char>>) -> Seq<char>
    decreases ls.len(),
{
    if ls.len() == 0 {
        seq![]
    } else {
        ls[0] + seq!['\n'] + join_lines(ls.drop_first())
    }
}

/// A comment starts at the first `#`: what is left begins the line, holds
/// no `#`, and stops right at the first `#` if there is one.
pub proof fn lemma_comment_stripped(line: Seq<char>)
    ensures
        is_prefix(strip_comment_spec(line), line),
        forall|i: int| 0 <= i < strip_comment_spec(line).len() ==> #[trigger] strip_comment_spec(line)[i] != '#',
        strip_comment_spec(line).len() < line.len() ==> line[strip_comment_spec(line).len() as int] == '#',
{
    lemma_char_pos_bounds(line, '#');
    let s = strip_comment_spec(line);
    assert forall|i: int| 0 <= i < s.len() implies #[trigger] s[i] != '#' by {
        assert(s[i] == line[i]);
    }
}

/// A path is refused exactly when a disallowed prefix starts it: every
/// path that extends a disallowed prefix is refused, and a path that no
/// disallowed prefix starts is allowed.
pub proof fn lemma_prefix_rules(prefixes: Seq<Seq<char>>, path: Seq<char>)
    ensures
        forall|i: int, rest: Seq<char>|
            0 <= i < prefixes.len() ==> !path_allowed(prefixes, #[trigger] (prefixes[i] + rest)),
        (forall|i: int| 0 <= i < prefixes.len() ==> !is_prefix(#[trigger] prefixes[i], path)) ==> path_allowed(
            prefixes,
            path,
        ),
{
    assert forall|i: int, rest: Seq<char>| 0 <= i < prefixes.len() implies !path_allowed(
        prefixes,
        #[trigger] (prefixes[i] + rest),
    ) by {
        assert((prefixes[i] + rest).take(prefixes[i].len() as int) =~= prefixes[i]);
        assert(is_prefix(prefixes[i], prefixes[i] + rest));
    }
}

/// Blanks in front of a value are dropped by `trim_start`.
proof fn lemma_trim_start_blanks(blanks: Seq<char>, v: Seq<char>)
    requires
        forall|i: int| 0 <= i < blanks.len() ==> is_white_space(#[trigger] blanks[i]),
    ensures
        trim_start(blanks + v) == trim_start(v),
    decreases blanks.len(),
{
    if blanks.len() == 0 {
        assert(blanks + v =~= v);
    } else {
        assert((blanks + v)[0] == blanks[0]);
        assert((blanks + v).drop_first() =~= blanks.drop_first() + v);
        assert forall|i: int| 0 <= i < blanks.drop_first().len() implies is_white_space(
            #[trigger] blanks.drop_first()[i],
        ) by {
            assert(blanks.drop_first()[i] == blanks[i + 1]);
        }
        lemma_trim_start_blanks(blanks.drop_first(), v);
    }
}

/// A field line gives back its value: for every field name and every
/// value that neither starts nor ends with white space, the line
/// `<field>:<value>`, with any run of blanks (none included) between the
/// colon and the value, has the value `<value>` for that field.
pub proof fn lemma_field_value_reads_value(field: Seq<char>, blanks: Seq<char>, v: Seq<char>)
    requires
        forall|i: int| 0 <= i < blanks.len() ==> is_white_space(#[trigger] blanks[i]),
        v.len() == 0 || (!is_white_space(v[0]) && !is_white_space(v.last())),
    ensures
        field_value(field + seq![':'] + blanks + v, field) == Some(v),
{
    let line = field + seq![':'] + blanks + v;
    let k: int = field.len() as int + 1;
    assert(line.take(k) =~= field.push(':'));
    assert(eq_ignore_ascii_case(line.take(k), field.push(':')));
    assert(line.skip(k) =~= blanks + v);
    lemma_trim_start_blanks(blanks, v);
    if v.len() == 0 {
        assert(trim_start(v) == v);
        assert(trim_end(v) == v);
    } else {
        lemma_trim_keeps(v);
        assert(trim_start(v) == v);
    }
}

/// `User-agent: <agent>`
pub open spec fn user_agent_line(agent: Seq<char>) -> Seq<char> {
    user_agent_field() + seq![':', ' '] + agent
}

/// `Disallow: <path>`
pub open spec fn disallow_line(path: Seq<char>) -> Seq<char> {
    disallow_field() + seq![':', ' '] + path
}

/// A body with one stanza: a `User-agent` line and one `Disallow` line per path.
pub open spec fn single_stanza(agent: Seq<char>, paths: Seq<Seq<char>>) -> Seq<char> {
    join_lines(seq![user_agent_line(agent)] + paths.map_values(|p: Seq<char>| disallow_line(p)))
}

/// A value that survives parsing as it is: non-empty, without white space,
/// `#`, or line breaks.
pub open spec fn plain_token(p: Seq<char>) -> bool {
    &&& p.len() > 0
    &&& forall|i: int| 0 <= i < p.len() ==> !is_white_space(#[trigger] p[i]) && p[i] != '#'
}

proof fn lemma_no_char(s: Seq<char>, c: char)
    requires
        forall|i: int| 0 <= i < s.len() ==> s[i] != c,
    ensures
        char_pos(s, c) == s.len(),
{
    lemma_char_pos_is(s, c, s.len() as int);
}

/// Lines written one after the other, each ended by `\n`, split back
/// into the same lines, provided none holds a line break or `\r`.
pub proof fn lemma_lines_join(ls: Seq<Seq<char>>)
    requires
        forall|i: int, j: int|
            0 <= i < ls.len() && 0 <= j < ls[i].len() ==> #[trigger] ls[i][j] != '\n' && ls[i][j]
                != '\r',
    ensures
        lines(join_lines(ls)) == ls,
    decreases ls.len(),
{
    if ls.len() > 0 {
        let l = ls[0];
        let rest = ls.drop_first();
        let s = join_lines(ls);
        assert(s == l + seq!['\n'] + join_lines(rest));
        assert forall|j: int| 0 <= j < l.len() implies s[j] != '\n' by {
            assert(s[j] == l[j]);
            assert(ls[0][j] != '\n');
        }
        assert(s[l.len() as int] == '\n');
        lemma_char_pos_is(s, '\n', l.len() as int);
        assert(s.take(l.len() as int) =~= l);
        assert(s.skip(l.len() as int + 1) =~= join_lines(rest));
        if l.len() > 0 {
            assert(ls[0][l.len() - 1] != '\r');
        }
        assert forall|i: int, j: int|
            0 <= i < rest.len() && 0 <= j < rest[i].len() implies #[trigger] rest[i][j] != '\n'
            && rest[i][j] != '\r' by {
            assert(rest[i] == ls[i + 1]);
            assert(ls[i + 1][j] != '\n');
        }
        lemma_lines_join(rest);
        assert(lines(s) =~= seq![l] + rest);
        assert(seq![l] + rest =~= ls);
    }
}

/// The lines `ls`, each followed by `\r\n`.
pub open spec fn join_crlf_lines(ls: Seq<Seq<char>>) -> Seq<char>
    decreases ls.len(),
{
    if ls.len() == 0 {
        seq![]
    } else {
        ls[0] + seq!['\r', '\n'] + join_crlf_lines(ls.drop_first())
    }
}

/// Lines each ended by `\r\n` split back into the same lines, the `\r`
/// dropped, provided none holds a line break.
pub proof fn lemma_crlf_lines_join(ls: Seq<Seq<char>>)
    requires
        forall|i: int, j: int| 0 <= i < ls.len() && 0 <= j < ls[i].len() ==> #[trigger] ls[i][j] != '\n',
    ensures
        lines(join_crlf_lines(ls)) == ls,
    decreases ls.len(),
{
    if ls.len() > 0 {
        let l = ls[0];
        let rest = ls.drop_first();
        let s = join_crlf_lines(ls);
        assert(s == l + seq!['\r', '\n'] + join_crlf_lines(rest));
        assert forall|j: int| 0 <= j < l.len() + 1 implies s[j] != '\n' by {
            if j < l.len() {
                assert(s[j] == l[j]);
                assert(ls[0][j] != '\n');
            }
        }
        let k = l.len() as int + 1;
        assert(s[k] == '\n');
        lemma_char_pos_is(s, '\n', k);
        assert(s.take(k) =~= l.push('\r'));
        assert(l.push('\r').drop_last() =~= l);
        assert(s.skip(k + 1) =~= join_crlf_lines(rest));
        assert forall|i: int, j: int| 0 <= i < rest.len() && 0 <= j < rest[i].len() implies #[trigger] rest[i][j]
            != '\n' by {
            assert(rest[i] == ls[i + 1]);
            assert(ls[i + 1][j] != '\n');
        }
        lemma_crlf_lines_join(rest);
        assert(lines(s) =~= seq![l] + rest);
        assert(seq![l] + rest =~= ls);
    }
}

/// A line that starts and ends with non-blank characters is its own trim.
proof fn lemma_trim_keeps(s: Seq<char>)
    requires
        s.len() > 0,
        !is_white_space(s[0]),
        !is_white_space(s.last()),
    ensures
        trim(s) == s,
{
}

/// One blank, then a plain token: trimming leaves the token.
proof fn lemma_trim_spaced(p: Seq<char>)
    requires
        plain_token(p),
    ensures
        trim(seq![' '] + p) == p,
{
    let s = seq![' '] + p;
    assert(s[0] == ' ');
    assert(s.drop_first() =~= p);
    assert(trim_start(p) == p);
    assert(!is_white_space(p.last()));
}

/// A directive line `<field>: <token>` of a plain token parses back to the token.
proof fn lemma_directive(field: Seq<char>, p: Seq<char>)
    requires
        plain_token(p),
        field.len() > 0,
        forall|i: int| 0 <= i < field.len() ==> !is_white_space(#[trigger] field[i]) && field[i]
            != '#',
    ensures
        trim(strip_comment_spec(field + seq![':', ' '] + p)) == field + seq![':', ' '] + p,
        field_value(field + seq![':', ' '] + p, field) == Some(p),
{
    let line = field + seq![':', ' '] + p;
    let k = field.len() as int;
    assert forall|i: int| 0 <= i < line.len() implies line[i] != '#' by {
        if i < k {
            assert(line[i] == field[i]);
        } else if i >= k + 2 {
            assert(line[i] == p[i - k - 2]);
        }
    }
    lemma_no_char(line, '#');
    assert(line.take(line.len() as int) =~= line);
    assert(line[0] == field[0]);
    assert(line.last() == p.last());
    lemma_trim_keeps(line);
    assert(line.take(k + 1) =~= field.push(':'));
    assert(eq_ignore_ascii_case(line.take(k + 1), field.push(':')));
    assert(line.skip(k + 1) =~= seq![' '] + p);
    lemma_trim_spaced(p);
}

proof fn lemma_fields_plain()
    ensures
        forall|i: int|
            0 <= i < user_agent_field().len() ==> !is_white_space(#[trigger] user_agent_field()[i])
                && user_agent_field()[i] != '#',
        forall|i: int|
            0 <= i < disallow_field().len() ==> !is_white_space(#[trigger] disallow_field()[i])
                && disallow_field()[i] != '#',
{
}

/// The state after the `Disallow` lines of plain tokens `ps`.
proof fn lemma_run_disallows(st: ParseState, ps: Seq<Seq<char>>)
    requires
        forall|i: int| 0 <= i < ps.len() ==> plain_token(#[trigger] ps[i]),
    ensures
        run_lines(st, ps.map_values(|p: Seq<char>| disallow_line(p))) == (ParseState {
            prefixes: st.prefixes + ps,
            in_block: st.in_block || ps.len() > 0,
            ..st
        }),
    decreases ps.len(),
{
    let ls = ps.map_values(|p: Seq<char>| disallow_line(p));
    if ps.len() == 0 {
        assert(st.prefixes + ps =~= st.prefixes);
    } else {
        let p = ps[0];
        assert(plain_token(ps[0]));
        lemma_fields_plain();
        lemma_directive(disallow_field(), p);
        let line = disallow_line(p);
        assert(ls[0] == line);
        assert(trim(strip_comment_spec(line)) == line);
        assert(line.len() >= 11 ==> !eq_ignore_ascii_case(line.take(11), user_agent_field().push(':'))) by {
            if line.len() >= 11 {
                assert(line.take(11)[0] == 'D');
                assert(user_agent_field().push(':')[0] == 'U');
                assert(ascii_fold('D') != ascii_fold('U'));
            }
        }
        assert(field_value(line, user_agent_field()).is_none());
        let st1 = ParseState { in_block: true, prefixes: st.prefixes.push(p), ..st };
        assert(step(st, line) == st1);
        let rest = ps.drop_first();
        assert(ls.drop_first() =~= rest.map_values(|p: Seq<char>| disallow_line(p)));
        lemma_run_disallows(st1, rest);
        assert(st.prefixes.push(p) + rest =~= st.prefixes + ps);
    }
}

/// A body holding one stanza for `crawl-boi` or `*` with one `Disallow`
/// line per path disallows exactly those paths, each of which is then
/// refused.
pub proof fn lemma_single_stanza(agent: Seq<char>, paths: Seq<Seq<char>>)
    requires
        agent == crawl_boi_agent() || agent == seq!['*'],
        forall|i: int| 0 <= i < paths.len() ==> plain_token(#[trigger] paths[i]),
    ensures
        robots_prefixes(single_stanza(agent, paths)) == paths,
        forall|i: int| 0 <= i < paths.len() ==> !path_allowed(robots_prefixes(single_stanza(agent, paths)), #[trigger] paths[i]),
{
    let first = user_agent_line(agent);
    let dls = paths.map_values(|p: Seq<char>| disallow_line(p));
    let ls = seq![first] + dls;
    assert(forall|i: int| 0 <= i < agent.len() ==> !is_white_space(#[trigger] agent[i]) && agent[i] != '#' && agent[i] != '\n' && agent[i] != '\r');
    assert forall|i: int, j: int|
        0 <= i < ls.len() && 0 <= j < ls[i].len() implies #[trigger] ls[i][j] != '\n' && ls[i][j]
        != '\r' by {
        if i == 0 {
            assert(ls[0] == first);
            if j >= 12 {
                assert(first[j] == agent[j - 12]);
            }
        } else {
            assert(ls[i] == disallow_line(paths[i - 1]));
            assert(plain_token(paths[i - 1]));
            if j >= 10 {
                assert(ls[i][j] == paths[i - 1][j - 10]);
            }
        }
    }
    lemma_lines_join(ls);
    let body = single_stanza(agent, paths);
    assert(lines(body) == ls);
    // The `User-agent` line.
    lemma_fields_plain();
    assert(plain_token(agent));
    lemma_directive(user_agent_field(), agent);
    assert(trim(agent) == agent);
    let kind = if agent == crawl_boi_agent() { AgentKind::CrawlBoi } else { AgentKind::Wildcard };
    assert(agent_kind(agent) == Some(kind)) by {
        if agent != crawl_boi_agent() {
            assert(!eq_ignore_ascii_case(agent, crawl_boi_agent()));
        } else {
            assert(eq_ignore_ascii_case(agent, crawl_boi_agent()));
        }
    }
    let st1 = ParseState { agents: seq![kind], ..initial_state() };
    assert(initial_state().agents.push(kind) =~= seq![kind]);
    assert(step(initial_state(), first) == st1);
    assert(ls[0] == first);
    assert(ls.drop_first() =~= dls);
    lemma_run_disallows(st1, paths);
    let st = run_lines(initial_state(), ls);
    assert(st == ParseState { prefixes: st1.prefixes + paths, in_block: paths.len() > 0, ..st1 });
    assert(st1.prefixes + paths =~= paths);
    assert(seq![kind].contains(kind)) by {
        assert(seq![kind][0] == kind);
    }
    let other = if kind == AgentKind::CrawlBoi { AgentKind::Wildcard } else { AgentKind::CrawlBoi };
    assert(!seq![kind].contains(other)) by {
        if seq![kind].contains(other) {
            let j = choose|j: int| 0 <= j < seq![kind].len() && seq![kind][j] == other;
            assert(seq![kind][j] == kind);
        }
    }
    if paths.len() > 0 {
        assert(Seq::<Seq<char>>::empty() + paths =~= paths);
    } else {
        assert(paths =~= Seq::<Seq<char>>::empty());
    }
    assert forall|i: int| 0 <= i < paths.len() implies !path_allowed(robots_prefixes(body), #[trigger] paths[i]) by {
        assert(paths[i].take(paths[i].len() as int) =~= paths[i]);
        assert(is_prefix(robots_prefixes(body)[i], paths[i]));
    }
}

/// A stanza of a robots.txt body: one `User-agent` line, then one
/// `Disallow` line per path.
pub struct Stanza {
    pub agent: Seq<char>,
    pub paths: Seq<Seq<char>>,
}

/// The lines of a stanza, closed by a blank line.
pub open spec fn stanza_lines(s: Stanza) -> Seq<Seq<char>> {
    seq![user_agent_line(s.agent)] + s.paths.map_values(|p: Seq<char>| disallow_line(p)) + seq![
        Seq::<char>::empty(),
    ]
}

/// The lines of the stanzas `ss`, one after the other.
pub open spec fn stanzas_lines(ss: Seq<Stanza>) -> Seq<Seq<char>>
    decreases ss.len(),
{
    if ss.len() == 0 {
        seq![]
    } else {
        stanzas_lines(ss.drop_last()) + stanza_lines(ss.last())
    }
}

/// A body made of the stanzas `ss`.
pub open spec fn stanzas_body(ss: Seq<Stanza>) -> Seq<char> {
    join_lines(stanzas_lines(ss))
}

/// The stanza is addressed to `kind` and disallows at least one path.
pub open spec fn addresses(s: Stanza, kind: AgentKind) -> bool {
    agent_kind(s.agent) == Some(kind) && s.paths.len() > 0
}

/// Some stanza of `ss` addresses `kind`.
pub open spec fn names_kind(ss: Seq<Stanza>, kind: AgentKind) -> bool {
    exists|i: int| 0 <= i < ss.len() && addresses(#[trigger] ss[i], kind)
}

/// The paths of the stanzas of `ss` that address `kind`, in file order.
pub open spec fn listed(ss: Seq<Stanza>, kind: AgentKind) -> Seq<Seq<char>>
    decreases ss.len(),
{
    if ss.len() == 0 {
        seq![]
    } else {
        listed(ss.drop_last(), kind) + if addresses(ss.last(), kind) {
            ss.last().paths
        } else {
            seq![]
        }
    }
}

/// The rules a body of stanzas should give: the paths of the `crawl-boi`
/// stanzas if there is one, else those of the `*` stanzas.
pub open spec fn declared_rules(ss: Seq<Stanza>) -> Seq<Seq<char>> {
    if names_kind(ss, AgentKind::CrawlBoi) {
        listed(ss, AgentKind::CrawlBoi)
    } else {
        listed(ss, AgentKind::Wildcard)
    }
}

/// What the parser records for `kind` after the stanzas `ss`.
spec fn recorded(ss: Seq<Stanza>, kind: AgentKind) -> Option<Seq<Seq<char>>> {
    if names_kind(ss, kind) {
        Some(listed(ss, kind))
    } else {
        None
    }
}

/// The state between stanzas.
spec fn between(cb: Option<Seq<Seq<char>>>, wc: Option<Seq<Seq<char>>>) -> ParseState {
    ParseState { crawl_boi: cb, wildcard: wc, agents: seq![], prefixes: seq![], in_block: false }
}

/// `run_lines` over two runs of lines.
proof fn lemma_run_append(st: ParseState, a: Seq<Seq<char>>, b: Seq<Seq<char>>)
    ensures
        run_lines(st, a + b) == run_lines(run_lines(st, a), b),
    decreases a.len(),
{
    if a.len() == 0 {
        assert(a + b =~= b);
    } else {
        assert((a + b)[0] == a[0]);
        assert((a + b).drop_first() =~= a.drop_first() + b);
        lemma_run_append(step(st, a[0]), a.drop_first(), b);
    }
}

/// One stanza adds its paths to what is recorded for the agent it
/// addresses.
proof fn lemma_run_stanza(cb: Option<Seq<Seq<char>>>, wc: Option<Seq<Seq<char>>>, s: Stanza)
    requires
        plain_token(s.agent),
        forall|i: int| 0 <= i < s.paths.len() ==> plain_token(#[trigger] s.paths[i]),
    ensures
        run_lines(between(cb, wc), stanza_lines(s)) == between(
            if addresses(s, AgentKind::CrawlBoi) {
                Some(
                    match cb {
                        Some(t) => t,
                        None => seq![],
                    } + s.paths,
                )
            } else {
                cb
            },
            if addresses(s, AgentKind::Wildcard) {
                Some(
                    match wc {
                        Some(t) => t,
                        None => seq![],
                    } + s.paths,
                )
            } else {
                wc
            },
        ),
{
    let st0 = between(cb, wc);
    let first = user_agent_line(s.agent);
    let dls = s.paths.map_values(|p: Seq<char>| disallow_line(p));
    let blank = Seq::<char>::empty();
    lemma_fields_plain();
    lemma_directive(user_agent_field(), s.agent);
    let agents: Seq<AgentKind> = match agent_kind(s.agent) {
        Some(k) => seq![k],
        None => seq![],
    };
    let st1 = ParseState { agents, ..st0 };
    assert(step(st0, first) == st1) by {
        if let Some(k) = agent_kind(s.agent) {
            assert(st0.agents.push(k) =~= seq![k]);
        }
    }
    lemma_run_disallows(st1, s.paths);
    let st2 = ParseState { prefixes: st1.prefixes + s.paths, in_block: s.paths.len() > 0, ..st1 };
    assert(st1.prefixes + s.paths =~= s.paths);
    lemma_run_append(st0, seq![first], dls);
    lemma_run_append(st0, seq![first] + dls, seq![blank]);
    assert(seq![first][0] == first);
    assert(seq![first].drop_first() =~= Seq::<Seq<char>>::empty());
    assert(run_lines(st0, seq![first]) == run_lines(st1, Seq::<Seq<char>>::empty()));
    assert(run_lines(st0, seq![first] + dls) == st2);
    assert(seq![blank].drop_first() =~= Seq::<Seq<char>>::empty());
    assert(run_lines(st2, seq![blank]) == run_lines(step(st2, blank), Seq::<Seq<char>>::empty()));
    assert(strip_comment_spec(blank) =~= blank);
    assert(trim(blank) == blank);
    assert forall|kind: AgentKind| agents.contains(kind) <==> agent_kind(s.agent) == Some(kind) by {
        if let Some(k) = agent_kind(s.agent) {
            assert(agents[0] == k);
            if agents.contains(kind) {
                let j = choose|j: int| 0 <= j < agents.len() && agents[j] == kind;
                assert(agents[j] == k);
            }
        }
    }
    if s.paths.len() == 0 {
        assert(s.paths =~= Seq::<Seq<char>>::empty());
    }
}

/// The parser's state after the stanzas `ss`.
proof fn lemma_run_stanzas(ss: Seq<Stanza>)
    requires
        forall|i: int| 0 <= i < ss.len() ==> plain_token((#[trigger] ss[i]).agent),
        forall|i: int, j: int|
            0 <= i < ss.len() && 0 <= j < ss[i].paths.len() ==> plain_token(#[trigger] ss[i].paths[j]),
    ensures
        run_lines(initial_state(), stanzas_lines(ss)) == between(
            recorded(ss, AgentKind::CrawlBoi),
            recorded(ss, AgentKind::Wildcard),
        ),
        !names_kind(ss, AgentKind::Wildcard) ==> listed(ss, AgentKind::Wildcard) == Seq::<Seq<char>>::empty(),
    decreases ss.len(),
{
    if ss.len() == 0 {
        assert(initial_state() == between(None, None));
    } else {
        let front = ss.drop_last();
        let last = ss.last();
        assert forall|i: int| 0 <= i < front.len() implies plain_token((#[trigger] front[i]).agent) by {
            assert(front[i] == ss[i]);
        }
        assert forall|i: int, j: int|
            0 <= i < front.len() && 0 <= j < front[i].paths.len() implies plain_token(
            #[trigger] front[i].paths[j],
        ) by {
            assert(front[i] == ss[i]);
            assert(plain_token(ss[i].paths[j]));
        }
        lemma_run_stanzas(front);
        assert(plain_token(ss[ss.len() - 1].agent));
        assert forall|j: int| 0 <= j < last.paths.len() implies plain_token(#[trigger] last.paths[j]) by {
            assert(plain_token(ss[ss.len() - 1].paths[j]));
        }
        lemma_run_append(initial_state(), stanzas_lines(front), stanza_lines(last));
        lemma_run_stanza(recorded(front, AgentKind::CrawlBoi), recorded(front, AgentKind::Wildcard), last);
        assert forall|kind: AgentKind| #[trigger] names_kind(ss, kind) <==> (names_kind(front, kind) || addresses(last, kind)) by {
            if names_kind(ss, kind) {
                let i = choose|i: int| 0 <= i < ss.len() && addresses(#[trigger] ss[i], kind);
                if i < front.len() {
                    assert(front[i] == ss[i]);
                }
            }
            if names_kind(front, kind) {
                let i = choose|i: int| 0 <= i < front.len() && addresses(#[trigger] front[i], kind);
                assert(front[i] == ss[i]);
            }
            if addresses(last, kind) {
                assert(addresses(ss[ss.len() - 1], kind));
            }
        }
        assert forall|kind: AgentKind| !names_kind(front, kind) ==> #[trigger] listed(front, kind) == Seq::<Seq<char>>::empty() by {
            lemma_listed_empty(front, kind);
        }
        assert(names_kind(ss, AgentKind::CrawlBoi) <==> (names_kind(front, AgentKind::CrawlBoi) || addresses(last, AgentKind::CrawlBoi)));
        assert(names_kind(ss, AgentKind::Wildcard) <==> (names_kind(front, AgentKind::Wildcard) || addresses(last, AgentKind::Wildcard)));
        assert(!names_kind(front, AgentKind::CrawlBoi) ==> listed(front, AgentKind::CrawlBoi) == Seq::<Seq<char>>::empty());
        assert(!names_kind(front, AgentKind::Wildcard) ==> listed(front, AgentKind::Wildcard) == Seq::<Seq<char>>::empty());
        assert(listed(front, AgentKind::CrawlBoi) + Seq::<Seq<char>>::empty() =~= listed(front, AgentKind::CrawlBoi));
        assert(listed(front, AgentKind::Wildcard) + Seq::<Seq<char>>::empty() =~= listed(front, AgentKind::Wildcard));
        assert(Seq::<Seq<char>>::empty() + last.paths =~= last.paths);
        lemma_listed_empty(ss, AgentKind::Wildcard);
    }
}

/// Without a stanza addressing `kind`, nothing is listed for it.
proof fn lemma_listed_empty(ss: Seq<Stanza>, kind: AgentKind)
    ensures
        !names_kind(ss, kind) ==> listed(ss, kind) == Seq::<Seq<char>>::empty(),
    decreases ss.len(),
{
    if ss.len() > 0 && !names_kind(ss, kind) {
        let front = ss.drop_last();
        assert(!names_kind(front, kind)) by {
            if names_kind(front, kind) {
                let i = choose|i: int| 0 <= i < front.len() && addresses(#[trigger] front[i], kind);
                assert(front[i] == ss[i]);
            }
        }
        assert(!addresses(ss[ss.len() - 1], kind));
        lemma_listed_empty(front, kind);
        assert(Seq::<Seq<char>>::empty() + Seq::<Seq<char>>::empty() =~= Seq::<Seq<char>>::empty());
    }
}

/// For a body made of stanzas, each a `User-agent` line and its `Disallow`
/// lines closed by a blank line: the rules are the paths of the stanzas
/// addressed to `crawl-boi` (matched without ASCII case), in file order,
/// if any stanza with at least one `Disallow` line is; otherwise those of
/// the stanzas addressed to `*`, which may be none. A stanza addressed to
/// another agent contributes nothing.
pub proof fn lemma_stanzas(ss: Seq<Stanza>)
    requires
        forall|i: int| 0 <= i < ss.len() ==> plain_token((#[trigger] ss[i]).agent),
        forall|i: int, j: int|
            0 <= i < ss.len() && 0 <= j < ss[i].paths.len() ==> plain_token(#[trigger] ss[i].paths[j]),
    ensures
        robots_prefixes(stanzas_body(ss)) == declared_rules(ss),
{
    lemma_stanza_lines_plain(ss);
    lemma_lines_join(stanzas_lines(ss));
    lemma_run_stanzas(ss);
}

/// No line of a body of stanzas holds a line break.
proof fn lemma_stanza_lines_plain(ss: Seq<Stanza>)
    requires
        forall|i: int| 0 <= i < ss.len() ==> plain_token((#[trigger] ss[i]).agent),
        forall|i: int, j: int|
            0 <= i < ss.len() && 0 <= j < ss[i].paths.len() ==> plain_token(#[trigger] ss[i].paths[j]),
    ensures
        forall|i: int, j: int|
            0 <= i < stanzas_lines(ss).len() && 0 <= j < stanzas_lines(ss)[i].len() ==> #[trigger] stanzas_lines(ss)[i][j]
                != '\n' && stanzas_lines(ss)[i][j] != '\r',
    decreases ss.len(),
{
    if ss.len() > 0 {
        let front = ss.drop_last();
        let s = ss.last();
        assert forall|i: int| 0 <= i < front.len() implies plain_token((#[trigger] front[i]).agent) by {
            assert(front[i] == ss[i]);
        }
        assert forall|i: int, j: int|
            0 <= i < front.len() && 0 <= j < front[i].paths.len() implies plain_token(
            #[trigger] front[i].paths[j],
        ) by {
            assert(front[i] == ss[i]);
            assert(plain_token(ss[i].paths[j]));
        }
        lemma_stanza_lines_plain(front);
        assert(plain_token(ss[ss.len() - 1].agent));
        let a = stanzas_lines(front);
        let b = stanza_lines(s);
        let ls = stanzas_lines(ss);
        assert(ls == a + b);
        assert forall|i: int, j: int|
            0 <= i < ls.len() && 0 <= j < ls[i].len() implies #[trigger] ls[i][j] != '\n' && ls[i][j] != '\r' by {
            if i < a.len() {
                assert(ls[i] == a[i]);
                assert(a[i][j] != '\n' && a[i][j] != '\r');
            } else {
                let k = i - a.len();
                assert(ls[i] == b[k]);
                if k == 0 {
                    assert(b[0] == user_agent_line(s.agent));
                    if j >= 12 {
                        assert(b[0][j] == s.agent[j - 12]);
                    }
                } else if k <= s.paths.len() {
                    assert(b[k] == disallow_line(s.paths[k - 1]));
                    assert(plain_token(ss[ss.len() - 1].paths[k - 1]));
                    if j >= 10 {
                        assert(b[k][j] == s.paths[k - 1][j - 10]);
                    }
                } else {
                    assert(b[k] == Seq::<char>::empty());
                }
            }
        }
    }
}

} // verus!
