//! robots.txt bodies read as stanzas: which stanzas a body holds, and the
//! rules that follow from them for every body.
use vstd::prelude::*;
use crate::robots::{
    AgentKind, ParseState, agent_kind, disallow_field, field_value, final_state, initial_state,
    lines, robots_prefixes, run_lines, step, strip_comment_spec, user_agent_field,
};
use crate::text::trim;

verus! {

/// What a line of robots.txt is, once its comment and surrounding blanks
/// are gone.
pub enum LineKind {
    /// Nothing is left.
    Blank,
    /// A `User-agent` line, with the agent it names if it concerns this
    /// crawler.
    Agent(Option<AgentKind>),
    /// A `Disallow` line, with its value.
    Rule(Seq<char>),
    /// Any other directive.
    Other,
}

/// The kind of the raw line `raw`.
pub open spec fn line_kind(raw: Seq<char>) -> LineKind {
    let line = trim(strip_comment_spec(raw));
    if line.len() == 0 {
        LineKind::Blank
    } else if let Some(v) = field_value(line, user_agent_field()) {
        LineKind::Agent(agent_kind(v))
    } else if let Some(v) = field_value(line, disallow_field()) {
        LineKind::Rule(v)
    } else {
        LineKind::Other
    }
}

/// A stanza: the agents it names and its non-empty `Disallow` values, in
/// file order.
pub struct Stanza {
    pub agents: Seq<AgentKind>,
    pub values: Seq<Seq<char>>,
}

/// A body read so far: the stanzas already closed, and the agents and
/// values of the open one, which has reached its rules or not.
pub struct Reading {
    pub stanzas: Seq<Stanza>,
    pub agents: Seq<AgentKind>,
    pub values: Seq<Seq<char>>,
    pub in_rules: bool,
}

/// The open stanza is closed and a new one begins.
pub open spec fn close(r: Reading) -> Reading {
    Reading {
        stanzas: r.stanzas.push(Stanza { agents: r.agents, values: r.values }),
        agents: seq![],
        values: seq![],
        in_rules: false,
    }
}

/// Reading one more line. A blank line closes a stanza that has reached
/// its rules, and otherwise forgets the agents read so far; a
/// `User-agent` line after the rules begins a new stanza; a `Disallow`
/// line starts the rules and records a non-empty value; another directive
/// starts the rules of a stanza that names an agent.
pub open spec fn read_line(r: Reading, raw: Seq<char>) -> Reading {
    match line_kind(raw) {
        LineKind::Blank => if r.in_rules {
            close(r)
        } else {
            Reading { agents: seq![], ..r }
        },
        LineKind::Agent(k) => {
            let r2 = if r.in_rules {
                close(r)
            } else {
                r
            };
            match k {
                Some(kind) => Reading { agents: r2.agents.push(kind), ..r2 },
                None => r2,
            }
        },
        LineKind::Rule(v) => Reading {
            in_rules: true,
            values: if v.len() > 0 {
                r.values.push(v)
            } else {
                r.values
            },
            ..r
        },
        LineKind::Other => if r.agents.len() > 0 {
            Reading { in_rules: true, ..r }
        } else {
            r
        },
    }
}

/// Reading the lines `ls`, one after the other.
pub open spec fn read_lines(r: Reading, ls: Seq<Seq<char>>) -> Reading
    decreases ls.len(),
{
    if ls.len() == 0 {
        r
    } else {
        read_lines(read_line(r, ls[0]), ls.drop_first())
    }
}

/// The stanzas of `body`: those closed while reading it, and the last one
/// if it reached its rules.
pub open spec fn stanzas_of(body: Seq<char>) -> Seq<Stanza> {
    let r = read_lines(
        Reading { stanzas: seq![], agents: seq![], values: seq![], in_rules: false },
        lines(body),
    );
    if r.in_rules || r.values.len() > 0 {
        close(r).stanzas
    } else {
        r.stanzas
    }
}

/// Some stanza of `ss` names `kind`.
pub open spec fn any_names(ss: Seq<Stanza>, kind: AgentKind) -> bool {
    exists|i: int| 0 <= i < ss.len() && (#[trigger] ss[i]).agents.contains(kind)
}

/// The values of the stanzas of `ss` that name `kind`, in file order.
pub open spec fn values_for(ss: Seq<Stanza>, kind: AgentKind) -> Seq<Seq<char>>
    decreases ss.len(),
{
    if ss.len() == 0 {
        seq![]
    } else {
        values_for(ss.drop_last(), kind) + if ss.last().agents.contains(kind) {
            ss.last().values
        } else {
            seq![]
        }
    }
}

/// The rules stanzas give: the values of those naming `crawl-boi` if any
/// does, else those of the ones naming `*`.
pub open spec fn rules_of_stanzas(ss: Seq<Stanza>) -> Seq<Seq<char>> {
    if any_names(ss, AgentKind::CrawlBoi) {
        values_for(ss, AgentKind::CrawlBoi)
    } else {
        values_for(ss, AgentKind::Wildcard)
    }
}

/// What the stanzas `ss` leave recorded for `kind`.
spec fn recorded_for(ss: Seq<Stanza>, kind: AgentKind) -> Option<Seq<Seq<char>>> {
    if any_names(ss, kind) {
        Some(values_for(ss, kind))
    } else {
        None
    }
}

/// The parser's state matches a reading.
spec fn matches_reading(st: ParseState, r: Reading) -> bool {
    &&& st.crawl_boi == recorded_for(r.stanzas, AgentKind::CrawlBoi)
    &&& st.wildcard == recorded_for(r.stanzas, AgentKind::Wildcard)
    &&& st.agents == r.agents
    &&& st.prefixes == r.values
    &&& st.in_block == r.in_rules
}

/// Without a stanza naming `kind`, no values are listed for it.
proof fn lemma_values_none(ss: Seq<Stanza>, kind: AgentKind)
    ensures
        !any_names(ss, kind) ==> values_for(ss, kind) == Seq::<Seq<char>>::empty(),
    decreases ss.len(),
{
    if ss.len() > 0 && !any_names(ss, kind) {
        let front = ss.drop_last();
        assert(!any_names(front, kind)) by {
            if any_names(front, kind) {
                let i = choose|i: int| 0 <= i < front.len() && (#[trigger] front[i]).agents.contains(kind);
                assert(front[i] == ss[i]);
            }
        }
        assert(!ss[ss.len() - 1].agents.contains(kind));
        lemma_values_none(front, kind);
        assert(Seq::<Seq<char>>::empty() + Seq::<Seq<char>>::empty() =~= Seq::<Seq<char>>::empty());
    }
}

/// Closing a stanza records its values for each agent it names.
proof fn lemma_recorded_push(ss: Seq<Stanza>, g: Stanza, kind: AgentKind)
    ensures
        recorded_for(ss.push(g), kind) == if g.agents.contains(kind) {
            Some(
                match recorded_for(ss, kind) {
                    Some(t) => t,
                    None => seq![],
                } + g.values,
            )
        } else {
            recorded_for(ss, kind)
        },
{
    let ns = ss.push(g);
    assert(ns.drop_last() =~= ss);
    assert(ns.last() == g);
    assert(any_names(ns, kind) <==> (any_names(ss, kind) || g.agents.contains(kind))) by {
        if any_names(ns, kind) {
            let i = choose|i: int| 0 <= i < ns.len() && (#[trigger] ns[i]).agents.contains(kind);
            if i < ss.len() {
                assert(ns[i] == ss[i]);
            }
        }
        if any_names(ss, kind) {
            let i = choose|i: int| 0 <= i < ss.len() && (#[trigger] ss[i]).agents.contains(kind);
            assert(ns[i] == ss[i]);
        }
        if g.agents.contains(kind) {
            assert(ns[ss.len() as int] == g);
        }
    }
    lemma_values_none(ss, kind);
    assert(values_for(ss, kind) + Seq::<Seq<char>>::empty() =~= values_for(ss, kind));
    assert(Seq::<Seq<char>>::empty() + g.values =~= g.values);
}

/// Closing a stanza keeps the parser's state matched to the reading.
proof fn lemma_close(st: ParseState, r: Reading)
    requires
        matches_reading(st, r),
    ensures
        matches_reading(crate::robots::closed(st), close(r)),
        matches_reading(crate::robots::flushed(st), Reading { agents: st.agents, values: st.prefixes, in_rules: st.in_block, ..close(r) }),
{
    let g = Stanza { agents: r.agents, values: r.values };
    lemma_recorded_push(r.stanzas, g, AgentKind::CrawlBoi);
    lemma_recorded_push(r.stanzas, g, AgentKind::Wildcard);
}

/// One line keeps the parser's state matched to the reading.
proof fn lemma_line(st: ParseState, r: Reading, raw: Seq<char>)
    requires
        matches_reading(st, r),
    ensures
        matches_reading(step(st, raw), read_line(r, raw)),
{
    lemma_close(st, r);
}

/// Reading lines keeps the parser's state matched to the reading.
proof fn lemma_lines(st: ParseState, r: Reading, ls: Seq<Seq<char>>)
    requires
        matches_reading(st, r),
    ensures
        matches_reading(run_lines(st, ls), read_lines(r, ls)),
    decreases ls.len(),
{
    if ls.len() > 0 {
        lemma_line(st, r, ls[0]);
        lemma_lines(step(st, ls[0]), read_line(r, ls[0]), ls.drop_first());
    }
}

/// For every body: the rules are the non-empty `Disallow` values of the
/// stanzas naming `crawl-boi` (without ASCII case), in file order, if any
/// stanza names it; otherwise those of the stanzas naming `*`, which may
/// be none. Stanzas are as `stanzas_of` reads them.
pub proof fn lemma_rules_from_stanzas(body: Seq<char>)
    ensures
        robots_prefixes(body) == rules_of_stanzas(stanzas_of(body)),
{
    let r0 = Reading { stanzas: seq![], agents: seq![], values: seq![], in_rules: false };
    assert(recorded_for(Seq::<Stanza>::empty(), AgentKind::CrawlBoi) is None);
    assert(recorded_for(Seq::<Stanza>::empty(), AgentKind::Wildcard) is None);
    assert(matches_reading(initial_state(), r0));
    lemma_lines(initial_state(), r0, lines(body));
    let st = run_lines(initial_state(), lines(body));
    let r = read_lines(r0, lines(body));
    lemma_close(st, r);
    let ss = stanzas_of(body);
    lemma_values_none(ss, AgentKind::Wildcard);
    assert(final_state(body).crawl_boi == recorded_for(ss, AgentKind::CrawlBoi));
    assert(final_state(body).wildcard == recorded_for(ss, AgentKind::Wildcard));
}

} // verus!
