//! robots.txt: parsing a body into the rules that apply to this crawler,
//! and checking a path against them.
use vstd::prelude::*;
use crate::text::{
    char_pos, chars_of, copy_range, equal_ignoring_ascii_case, find_char, lemma_char_pos_bounds,
    string_of, trim_chars, eq_ignore_ascii_case, is_prefix, starts_with, trim,
};

verus! {

broadcast use vstd::string::group_string_axioms;

/// The user agents a stanza can name that concern this crawler.
#[derive(Debug, Clone, Copy, PartialEq, Eq, Structural)]
pub enum AgentKind {
    CrawlBoi,
    Wildcard,
}

/// The rules that apply to this crawler: the path prefixes it must not fetch.
#[derive(Debug, Clone, PartialEq)]
pub struct RobotsRules {
    pub disallowed_prefixes: Vec<String>,
}

/// The parser of robots.txt bodies.
pub struct RobotsParser;

/// `User-agent`
pub open spec fn user_agent_field() -> Seq<char> {
    seq!['U', 's', 'e', 'r', '-', 'a', 'g', 'e', 'n', 't']
}

/// `Disallow`
pub open spec fn disallow_field() -> Seq<char> {
    seq!['D', 'i', 's', 'a', 'l', 'l', 'o', 'w']
}

/// `crawl-boi`, this crawler's own user agent.
pub open spec fn crawl_boi_agent() -> Seq<char> {
    seq!['c', 'r', 'a', 'w', 'l', '-', 'b', 'o', 'i']
}

/// The views of a list of strings.
pub open spec fn strings_view(v: Seq<String>) -> Seq<Seq<char>> {
    v.map_values(|s: String| s@)
}

/// Whether `path` may be fetched under the disallowed `prefixes`.
pub open spec fn path_allowed(prefixes: Seq<Seq<char>>, path: Seq<char>) -> bool {
    !exists|i: int| 0 <= i < prefixes.len() && is_prefix(#[trigger] prefixes[i], path)
}

/// The lines of `s` as `str::lines` splits them: at `\n`, with a `\r` just
/// before a `\n` dropped; a final line ending is optional.
pub open spec fn lines(s: Seq<char>) -> Seq<Seq<char>>
    decreases s.len(),
{
    if s.len() == 0 {
        seq![]
    } else {
        let p = char_pos(s, '\n');
        proof {
            lemma_char_pos_bounds(s, '\n');
        }
        if p < s.len() {
            seq![strip_cr(s.take(p))] + lines(s.skip(p + 1))
        } else {
            seq![s]
        }
    }
}

/// `l` without one trailing `\r`.
pub open spec fn strip_cr(l: Seq<char>) -> Seq<char> {
    if l.len() > 0 && l.last() == '\r' {
        l.drop_last()
    } else {
        l
    }
}

/// The part of a line before its first `#`.
pub open spec fn strip_comment_spec(line: Seq<char>) -> Seq<char> {
    line.take(char_pos(line, '#'))
}

/// The trimmed value of `line` when it starts, up to ASCII case, with
/// `field` followed by `:`.
pub open spec fn field_value(line: Seq<char>, field: Seq<char>) -> Option<Seq<char>> {
    let k: int = field.len() as int + 1;
    if line.len() >= k && eq_ignore_ascii_case(line.take(k), field.push(':')) {
        Some(trim(line.skip(k)))
    } else {
        None
    }
}

/// The agent a `User-agent` value names, compared without ASCII case.
pub open spec fn agent_kind(value: Seq<char>) -> Option<AgentKind> {
    let t = trim(value);
    if eq_ignore_ascii_case(t, crawl_boi_agent()) {
        Some(AgentKind::CrawlBoi)
    } else if t == seq!['*'] {
        Some(AgentKind::Wildcard)
    } else {
        None
    }
}

/// The parser's state between two lines.
pub struct ParseState {
    /// Prefixes of the stanzas naming `crawl-boi`, once one was closed.
    pub crawl_boi: Option<Seq<Seq<char>>>,
    /// Prefixes of the stanzas naming `*`, once one was closed.
    pub wildcard: Option<Seq<Seq<char>>>,
    /// The agents of the current stanza.
    pub agents: Seq<AgentKind>,
    /// The disallowed prefixes of the current stanza.
    pub prefixes: Seq<Seq<char>>,
    /// Whether the current stanza has reached its directives.
    pub in_block: bool,
}

/// The state before the first line.
pub open spec fn initial_state() -> ParseState {
    ParseState {
        crawl_boi: None,
        wildcard: None,
        agents: seq![],
        prefixes: seq![],
        in_block: false,
    }
}

/// `target` after a stanza with `agents` and `prefixes` was closed, for
/// the agent `kind`.
pub open spec fn merged(
    target: Option<Seq<Seq<char>>>,
    agents: Seq<AgentKind>,
    kind: AgentKind,
    prefixes: Seq<Seq<char>>,
) -> Option<Seq<Seq<char>>> {
    if agents.contains(kind) {
        Some(
            match target {
                Some(t) => t,
                None => seq![],
            } + prefixes,
        )
    } else {
        target
    }
}

/// The state after the current stanza is closed.
pub open spec fn flushed(st: ParseState) -> ParseState {
    ParseState {
        crawl_boi: merged(st.crawl_boi, st.agents, AgentKind::CrawlBoi, st.prefixes),
        wildcard: merged(st.wildcard, st.agents, AgentKind::Wildcard, st.prefixes),
        ..st
    }
}

/// The state after the current stanza is closed and a new one begins.
pub open spec fn closed(st: ParseState) -> ParseState {
    ParseState { agents: seq![], prefixes: seq![], in_block: false, ..flushed(st) }
}

/// The state after one raw line.
pub open spec fn step(st: ParseState, raw: Seq<char>) -> ParseState {
    let line = trim(strip_comment_spec(raw));
    if line.len() == 0 {
        if st.in_block {
            closed(st)
        } else {
            ParseState { agents: seq![], ..st }
        }
    } else if let Some(v) = field_value(line, user_agent_field()) {
        let st2 = if st.in_block {
            closed(st)
        } else {
            st
        };
        match agent_kind(v) {
            Some(k) => ParseState { agents: st2.agents.push(k), ..st2 },
            None => st2,
        }
    } else if let Some(v) = field_value(line, disallow_field()) {
        ParseState {
            in_block: true,
            prefixes: if v.len() > 0 {
                st.prefixes.push(v)
            } else {
                st.prefixes
            },
            ..st
        }
    } else if st.agents.len() > 0 {
        ParseState { in_block: true, ..st }
    } else {
        st
    }
}

/// The state after the lines `ls`, one after the other.
pub open spec fn run_lines(st: ParseState, ls: Seq<Seq<char>>) -> ParseState
    decreases ls.len(),
{
    if ls.len() == 0 {
        st
    } else {
        run_lines(step(st, ls[0]), ls.drop_first())
    }
}

/// The state at the end of `body`, the last stanza closed.
pub open spec fn final_state(body: Seq<char>) -> ParseState {
    let st = run_lines(initial_state(), lines(body));
    if st.in_block || st.prefixes.len() > 0 {
        flushed(st)
    } else {
        st
    }
}

/// The prefixes disallowed by `body`: those of the `crawl-boi` stanzas if
/// there is one, else those of the `*` stanzas, else none.
pub open spec fn robots_prefixes(body: Seq<char>) -> Seq<Seq<char>> {
    let st = final_state(body);
    match st.crawl_boi {
        Some(p) => p,
        None => match st.wildcard {
            Some(p) => p,
            None => seq![],
        },
    }
}

/// The view of an optional list of strings.
pub open spec fn opt_strings(o: Option<Vec<String>>) -> Option<Seq<Seq<char>>> {
    match o {
        Some(v) => Some(strings_view(v@)),
        None => None,
    }
}

impl RobotsRules {
    /// Whether no disallowed prefix starts `path`.
    pub fn is_allowed(&self, path: &str) -> (allowed: bool)
        ensures
            allowed == path_allowed(strings_view(self.disallowed_prefixes@), path@),
    {
        let p = chars_of(path);
        let n = self.disallowed_prefixes.len();
        let ghost prefixes = strings_view(self.disallowed_prefixes@);
        let mut i: usize = 0;
        while i < n
            invariant
                n == self.disallowed_prefixes@.len(),
                prefixes == strings_view(self.disallowed_prefixes@),
                p@ == path@,
                i <= n,
                forall|j: int| 0 <= j < i ==> !is_prefix(#[trigger] prefixes[j], path@),
            decreases n - i,
        {
            let prefix = chars_of(self.disallowed_prefixes[i].as_str());
            if starts_with(&p, &prefix) {
                assert(is_prefix(prefixes[i as int], path@));
                return false;
            }
            i = i + 1;
        }
        true
    }
}

/// The part of `line` before its first `#`.
fn strip_comment(line: &[char]) -> (out: Vec<char>)
    ensures
        out@ == strip_comment_spec(line@),
{
    let n = line.len();
    let p = find_char(line, 0, n, '#');
    assert(line@.subrange(0, n as int) =~= line@);
    copy_range(line, 0, p)
}

/// The trimmed value after `field:` at the start of `line`, up to ASCII case.
fn parse_field(line: &[char], field: &str) -> (value: Option<Vec<char>>)
    ensures
        match value {
            Some(v) => field_value(line@, field@) == Some(v@),
            None => field_value(line@, field@).is_none(),
        },
{
    let mut prefix = chars_of(field);
    prefix.push(':');
    let k = prefix.len();
    if line.len() < k {
        return None;
    }
    let head = copy_range(line, 0, k);
    assert(head@ =~= line@.take(k as int));
    if !equal_ignoring_ascii_case(&head, &prefix) {
        return None;
    }
    let rest = copy_range(line, k, line.len());
    assert(rest@ =~= line@.skip(k as int));
    Some(trim_chars(&rest))
}

/// The agent kind a `User-agent` value names.
fn classify_agent(agent: &[char]) -> (kind: Option<AgentKind>)
    ensures
        kind == agent_kind(agent@),
{
    let trimmed = trim_chars(agent);
    let own: Vec<char> = vec!['c', 'r', 'a', 'w', 'l', '-', 'b', 'o', 'i'];
    assert(own@ =~= crawl_boi_agent());
    if equal_ignoring_ascii_case(&trimmed, &own) {
        Some(AgentKind::CrawlBoi)
    } else if trimmed.len() == 1 && trimmed[0] == '*' {
        assert(trimmed@ =~= seq!['*']);
        Some(AgentKind::Wildcard)
    } else {
        assert(trimmed@ != seq!['*']) by {
            if trimmed@ == seq!['*'] {
                assert(trimmed@[0] == '*');
            }
        }
        None
    }
}

/// Whether `agents` names `kind`.
fn names_agent(agents: &Vec<AgentKind>, kind: AgentKind) -> (r: bool)
    ensures
        r == agents@.contains(kind),
{
    let mut i: usize = 0;
    while i < agents.len()
        invariant
            i <= agents@.len(),
            forall|j: int| 0 <= j < i ==> agents@[j] != kind,
        decreases agents@.len() - i,
    {
        if agents[i] == kind {
            assert(agents@[i as int] == kind);
            return true;
        }
        i = i + 1;
    }
    false
}

/// `target` followed by copies of `items`.
fn append_copies(target: &mut Vec<String>, items: &Vec<String>)
    ensures
        strings_view(final(target)@) == strings_view(old(target)@) + strings_view(items@),
{
    let ghost start = strings_view(target@);
    let mut i: usize = 0;
    while i < items.len()
        invariant
            i <= items@.len(),
            strings_view(target@) == start + strings_view(items@.take(i as int)),
        decreases items@.len() - i,
    {
        let item = items[i].clone();
        let ghost before = target@;
        target.push(item);
        assert(strings_view(target@) =~= strings_view(before).push(items@[i as int]@));
        assert(strings_view(items@.take(i + 1)) =~= strings_view(items@.take(i as int)).push(
            items@[i as int]@,
        ));
        assert(strings_view(target@) =~= start + strings_view(items@.take(i + 1)));
        i = i + 1;
    }
    assert(items@.take(items@.len() as int) =~= items@);
}

/// Adds `prefixes` to `target` when `agents` names `kind`.
fn merge_into(
    target: &mut Option<Vec<String>>,
    agents: &Vec<AgentKind>,
    kind: AgentKind,
    prefixes: &Vec<String>,
)
    ensures
        opt_strings(*final(target)) == merged(
            opt_strings(*old(target)),
            agents@,
            kind,
            strings_view(prefixes@),
        ),
{
    if names_agent(agents, kind) {
        let mut entry = match target.take() {
            Some(v) => v,
            None => Vec::new(),
        };
        proof {
            assert(strings_view(Seq::<String>::empty()) =~= Seq::<Seq<char>>::empty());
        }
        append_copies(&mut entry, prefixes);
        *target = Some(entry);
    }
}

/// Closes the current stanza: its prefixes go to each agent it names.
fn flush_stanza(
    agents: &Vec<AgentKind>,
    prefixes: &Vec<String>,
    crawl_boi_prefixes: &mut Option<Vec<String>>,
    wildcard_prefixes: &mut Option<Vec<String>>,
)
    ensures
        opt_strings(*final(crawl_boi_prefixes)) == merged(
            opt_strings(*old(crawl_boi_prefixes)),
            agents@,
            AgentKind::CrawlBoi,
            strings_view(prefixes@),
        ),
        opt_strings(*final(wildcard_prefixes)) == merged(
            opt_strings(*old(wildcard_prefixes)),
            agents@,
            AgentKind::Wildcard,
            strings_view(prefixes@),
        ),
{
    merge_into(crawl_boi_prefixes, agents, AgentKind::CrawlBoi, prefixes);
    merge_into(wildcard_prefixes, agents, AgentKind::Wildcard, prefixes);
}

/// The abstract parser state held by the parser's variables.
pub open spec fn state_of(
    crawl_boi: Option<Vec<String>>,
    wildcard: Option<Vec<String>>,
    agents: Vec<AgentKind>,
    prefixes: Vec<String>,
    in_block: bool,
) -> ParseState {
    ParseState {
        crawl_boi: opt_strings(crawl_boi),
        wildcard: opt_strings(wildcard),
        agents: agents@,
        prefixes: strings_view(prefixes@),
        in_block,
    }
}

/// Applies one raw line to the parser state.
fn apply_line(
    raw: &[char],
    crawl_boi: &mut Option<Vec<String>>,
    wildcard: &mut Option<Vec<String>>,
    agents: &mut Vec<AgentKind>,
    prefixes: &mut Vec<String>,
    in_block: &mut bool,
)
    ensures
        state_of(*final(crawl_boi), *final(wildcard), *final(agents), *final(prefixes), *final(in_block))
            == step(
            state_of(*old(crawl_boi), *old(wildcard), *old(agents), *old(prefixes), *old(in_block)),
            raw@,
        ),
{
    let ghost st = state_of(*crawl_boi, *wildcard, *agents, *prefixes, *in_block);
    proof {
        reveal_strlit("User-agent");
        reveal_strlit("Disallow");
        assert("User-agent"@ =~= user_agent_field());
        assert("Disallow"@ =~= disallow_field());
        assert(strings_view(Seq::<String>::empty()) =~= Seq::<Seq<char>>::empty());
    }
    let stripped = strip_comment(raw);
    let line = trim_chars(&stripped);
    if line.len() == 0 {
        if *in_block {
            flush_stanza(agents, prefixes, crawl_boi, wildcard);
            *agents = Vec::new();
            *prefixes = Vec::new();
            *in_block = false;
        } else {
            *agents = Vec::new();
        }
        return;
    }
    match parse_field(&line, "User-agent") {
        Some(value) => {
            if *in_block {
                flush_stanza(agents, prefixes, crawl_boi, wildcard);
                *agents = Vec::new();
                *prefixes = Vec::new();
                *in_block = false;
            }
            match classify_agent(&value) {
                Some(kind) => {
                    agents.push(kind);
                },
                None => {},
            }
            return;
        },
        None => {},
    }
    match parse_field(&line, "Disallow") {
        Some(value) => {
            *in_block = true;
            if value.len() > 0 {
                let ghost before = prefixes@;
                prefixes.push(string_of(&value));
                assert(strings_view(prefixes@) =~= strings_view(before).push(value@));
            }
        },
        None => {
            if agents.len() > 0 {
                *in_block = true;
            }
        },
    }
}

/// `run_lines` over a first line and the rest.
proof fn lemma_run_cons(st: ParseState, l: Seq<char>, rest: Seq<Seq<char>>)
    ensures
        run_lines(st, seq![l] + rest) == run_lines(step(st, l), rest),
{
    let ls = seq![l] + rest;
    assert(ls[0] == l);
    assert(ls.drop_first() =~= rest);
}

impl RobotsParser {
    /// Parses `body` and returns the rules that apply to this crawler.
    ///
    /// If a crawl-boi-specific stanza exists it takes full precedence over
    /// `*`. An empty or absent `Disallow:` value is treated as "allow all"
    /// and is not recorded.
    pub fn parse(body: &str) -> (rules: RobotsRules)
        ensures
            strings_view(rules.disallowed_prefixes@) == robots_prefixes(body@),
    {
        let text = chars_of(body);
        let n = text.len();
        let mut crawl_boi: Option<Vec<String>> = None;
        let mut wildcard: Option<Vec<String>> = None;
        let mut agents: Vec<AgentKind> = Vec::new();
        let mut prefixes: Vec<String> = Vec::new();
        let mut in_block = false;
        let mut pos: usize = 0;
        proof {
            assert(text@.skip(0) =~= text@);
            assert(strings_view(prefixes@) =~= Seq::<Seq<char>>::empty());
            assert(state_of(crawl_boi, wildcard, agents, prefixes, in_block) == initial_state());
        }
        while pos < n
            invariant
                n == text@.len(),
                text@ == body@,
                pos <= n,
                run_lines(initial_state(), lines(body@)) == run_lines(
                    state_of(crawl_boi, wildcard, agents, prefixes, in_block),
                    lines(text@.skip(pos as int)),
                ),
            decreases n - pos,
        {
            let nl = find_char(&text, pos, n, '\n');
            let line_end = if nl < n && nl > pos && text[nl - 1] == '\r' {
                nl - 1
            } else {
                nl
            };
            let line = copy_range(&text, pos, line_end);
            proof {
                let rest = text@.skip(pos as int);
                assert(rest =~= text@.subrange(pos as int, n as int));
                lemma_char_pos_bounds(rest, '\n');
                let k = char_pos(rest, '\n');
                assert(k == nl - pos);
                if nl < n {
                    assert(rest.take(k) =~= text@.subrange(pos as int, nl as int));
                    assert(rest.skip(k + 1) =~= text@.skip(nl + 1));
                    if nl > pos && text@[nl - 1] == '\r' {
                        assert(rest.take(k).drop_last() =~= line@);
                    }
                    assert(strip_cr(rest.take(k)) == line@);
                    assert(lines(rest) == seq![line@] + lines(text@.skip(nl + 1)));
                } else {
                    assert(line@ =~= rest);
                    assert(text@.skip(n as int) =~= Seq::<char>::empty());
                    assert(lines(rest) == seq![line@] + lines(text@.skip(n as int)));
                }
                lemma_run_cons(
                    state_of(crawl_boi, wildcard, agents, prefixes, in_block),
                    line@,
                    if nl < n { lines(text@.skip(nl + 1)) } else { lines(text@.skip(n as int)) },
                );
            }
            apply_line(&line, &mut crawl_boi, &mut wildcard, &mut agents, &mut prefixes, &mut in_block);
            pos = if nl < n {
                nl + 1
            } else {
                n
            };
        }
        proof {
            assert(text@.skip(n as int) =~= Seq::<char>::empty());
        }
        if in_block || prefixes.len() > 0 {
            flush_stanza(&agents, &prefixes, &mut crawl_boi, &mut wildcard);
        }
        let chosen = match crawl_boi {
            Some(p) => p,
            None => match wildcard {
                Some(p) => p,
                None => Vec::new(),
            },
        };
        proof {
            assert(strings_view(Seq::<String>::empty()) =~= Seq::<Seq<char>>::empty());
        }
        RobotsRules { disallowed_prefixes: chosen }
    }
}

} // verus!
