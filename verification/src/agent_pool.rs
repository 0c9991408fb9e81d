//! Agent roles: a role is a Markdown file with a frontmatter (`name`,
//! `description`, `mode`, `tools`) and the role's prompt as body. This module
//! parses role files, finds a role by name and turns a role into the agent
//! configuration the harness runs. Finding and reading the files is the
//! caller's part.
use vstd::prelude::*;
use crate::skill::{split_frontmatter, split_fm};
use crate::text::{
    char_index, index_of_char, lemma_char_index, lines, split_lines, str_eq, strs_view, to_string,
    trim, trimmed, chars_of, string_of_range,
};
use crate::types::{defs_view, AgentMode, ToolDefView, ToolDefinition};

verus! {

broadcast use vstd::seq_lib::group_seq_properties;

/// Operating mode a role asks for.
#[derive(Debug, Clone, Copy, PartialEq, Eq, Structural)]
pub enum AgentRoleMode {
    Auto,
    Plan,
    Exec,
}

impl Default for AgentRoleMode {
    fn default() -> (m: Self)
        ensures
            m == AgentRoleMode::Auto,
    {
        AgentRoleMode::Auto
    }
}

/// The agent mode of a role mode.
pub open spec fn role_to_agent(m: AgentRoleMode) -> AgentMode {
    match m {
        AgentRoleMode::Auto => AgentMode::Auto,
        AgentRoleMode::Plan => AgentMode::Plan,
        AgentRoleMode::Exec => AgentMode::Exec,
    }
}

impl AgentRoleMode {
    /// The agent mode this role mode stands for.
    pub fn to_agent_mode(&self) -> (r: AgentMode)
        ensures
            r == role_to_agent(*self),
    {
        match self {
            AgentRoleMode::Auto => AgentMode::Auto,
            AgentRoleMode::Plan => AgentMode::Plan,
            AgentRoleMode::Exec => AgentMode::Exec,
        }
    }
}

/// A role read from its file.
#[derive(Debug, Clone)]
pub struct AgentDef {
    pub name: String,
    pub description: String,
    pub mode: AgentRoleMode,
    pub tools: Vec<String>,
    pub prompt: String,
}

impl Default for AgentDef {
    fn default() -> (d: Self)
        ensures
            d.name@.len() == 0,
            d.description@.len() == 0,
            d.mode == AgentRoleMode::Auto,
            d.tools@.len() == 0,
            d.prompt@.len() == 0,
    {
        AgentDef {
            name: String::new(),
            description: String::new(),
            mode: AgentRoleMode::Auto,
            tools: Vec::new(),
            prompt: String::new(),
        }
    }
}

/// Model of a role.
pub struct RoleView {
    pub name: Seq<char>,
    pub description: Seq<char>,
    pub mode: AgentRoleMode,
    pub tools: Seq<Seq<char>>,
    pub prompt: Seq<char>,
}

impl View for AgentDef {
    type V = RoleView;

    open spec fn view(&self) -> RoleView {
        RoleView {
            name: self.name@,
            description: self.description@,
            mode: self.mode,
            tools: strs_view(self.tools@),
            prompt: self.prompt@,
        }
    }
}

/// The pieces of `s` between commas (`s.split(',')`).
pub open spec fn comma_pieces(s: Seq<char>) -> Seq<Seq<char>>
    decreases s.len(),
{
    match char_index(s, ',') {
        Some(k) => {
            proof {
                lemma_char_index(s, ',');
            }
            seq![s.take(k)] + comma_pieces(s.skip(k + 1))
        },
        None => seq![s],
    }
}

/// The trimmed, non-empty entries of a comma-separated list.
pub open spec fn tool_list(s: Seq<char>) -> Seq<Seq<char>> {
    comma_pieces(s).map_values(|p: Seq<char>| trim(p)).filter(|p: Seq<char>| p.len() > 0)
}

/// The mode a `mode:` value selects; anything unknown means `Auto`.
pub open spec fn mode_of(v: Seq<char>) -> AgentRoleMode {
    if v == "plan"@ {
        AgentRoleMode::Plan
    } else if v == "exec"@ {
        AgentRoleMode::Exec
    } else {
        AgentRoleMode::Auto
    }
}

/// One frontmatter line applied to a role and to whether a `tools:` list is
/// open: blank lines and `#` comments change nothing; while the list is open
/// a `- item` line adds the trimmed item (when not empty) to the tools;
/// `key: value` sets `name`, `description`, `mode` or `tools` (a comma
/// separated list) and opens the list exactly when the key is `tools`; any
/// other line closes the list.
pub open spec fn role_step(st: (RoleView, bool), line: Seq<char>) -> (RoleView, bool) {
    let r = st.0;
    let t = trim(line);
    if t.len() == 0 || t[0] == '#' {
        st
    } else if st.1 && t[0] == '-' {
        let item = trim(t.skip(1));
        if item.len() > 0 {
            (RoleView { tools: r.tools.push(item), ..r }, true)
        } else {
            st
        }
    } else {
        match char_index(t, ':') {
            Some(k) => {
                let key = trim(t.take(k));
                let value = trim(t.skip(k + 1));
                if key == "name"@ {
                    (RoleView { name: value, ..r }, false)
                } else if key == "description"@ {
                    (RoleView { description: value, ..r }, false)
                } else if key == "mode"@ {
                    (RoleView { mode: mode_of(value), ..r }, false)
                } else if key == "tools"@ {
                    (RoleView { tools: tool_list(value), ..r }, true)
                } else {
                    (r, false)
                }
            },
            None => (r, false),
        }
    }
}

/// The frontmatter lines applied in order to a role holding only the prompt,
/// with no list open.
pub open spec fn role_fold(ls: Seq<Seq<char>>, prompt: Seq<char>) -> (RoleView, bool)
    decreases ls.len(),
{
    if ls.len() == 0 {
        (
            RoleView {
                name: Seq::empty(),
                description: Seq::empty(),
                mode: AgentRoleMode::Auto,
                tools: Seq::empty(),
                prompt,
            },
            false,
        )
    } else {
        role_step(role_fold(ls.drop_last(), prompt), ls.last())
    }
}

/// The role a file's text defines; without a name in the frontmatter the
/// file's stem names it (when there is one).
pub open spec fn parsed_role(content: Seq<char>, stem: Option<Seq<char>>) -> RoleView {
    let r = role_fold(lines(split_fm(content).0), split_fm(content).1).0;
    if r.name.len() == 0 && stem is Some {
        RoleView { name: stem.unwrap(), ..r }
    } else {
        r
    }
}

/// The trimmed non-empty entries of a comma-separated list.
fn split_tools(s: &str) -> (r: Vec<String>)
    ensures
        strs_view(r@) == tool_list(s@),
{
    let cs = chars_of(s);
    let n = cs.len();
    let ghost keep = |p: Seq<char>| p.len() > 0;
    let ghost tr = |p: Seq<char>| trim(p);
    let mut out: Vec<String> = Vec::new();
    let mut i: usize = 0;
    assert(cs@.skip(0) =~= cs@);
    assert(strs_view(out@) =~= Seq::<Seq<char>>::empty());
    loop
        invariant
            n == cs.len(),
            cs@ == s@,
            i <= n,
            keep == (|p: Seq<char>| p.len() > 0),
            tr == (|p: Seq<char>| trim(p)),
            strs_view(out@) + comma_pieces(cs@.skip(i as int)).map_values(tr).filter(keep) == tool_list(s@),
        decreases n - i,
    {
        let ghost rest = cs@.skip(i as int);
        let ghost before = strs_view(out@);
        let (end, last) = match index_of_char(&cs, i, ',') {
            Some(k) => (k, false),
            None => (n, true),
        };
        proof {
            lemma_char_index(rest, ',');
        }
        let piece = string_of_range(&cs, i, end);
        let t = trimmed(piece.as_str());
        let ghost pv = cs@.subrange(i as int, end as int);
        proof {
            if last {
                assert(rest =~= pv);
                assert(comma_pieces(rest) == seq![rest]);
            } else {
                assert(rest.take(end - i) =~= pv);
                assert(rest.skip(end - i + 1) =~= cs@.skip(end + 1));
                assert(comma_pieces(rest) == seq![pv] + comma_pieces(cs@.skip(end + 1)));
            }
        }
        let ghost tail = if last { Seq::<Seq<char>>::empty() } else { comma_pieces(cs@.skip(end + 1)) };
        proof {
            assert(comma_pieces(rest) == seq![pv] + tail);
            assert(comma_pieces(rest).map_values(tr) =~= seq![trim(pv)] + tail.map_values(tr));
            lemma_filter_prepend(trim(pv), tail.map_values(tr), keep);
        }
        if !t.as_str().is_empty() {
            out.push(t);
            assert(strs_view(out@) =~= before + seq![trim(pv)]);
        }
        if last {
            proof {
                reveal(Seq::filter);
                assert(tail.map_values(tr).filter(keep) =~= Seq::<Seq<char>>::empty());
                assert(strs_view(out@) + Seq::<Seq<char>>::empty() =~= strs_view(out@));
            }
            return out;
        }
        i = end + 1;
    }
}

/// Filtering a sequence with an element in front.
proof fn lemma_filter_prepend(x: Seq<char>, s: Seq<Seq<char>>, p: spec_fn(Seq<char>) -> bool)
    ensures
        (seq![x] + s).filter(p) == if p(x) {
            seq![x] + s.filter(p)
        } else {
            s.filter(p)
        },
    decreases s.len(),
{
    if s.len() == 0 {
        reveal(Seq::filter);
        assert((seq![x] + s) =~= seq![x]);
        assert(seq![x].drop_last() =~= Seq::<Seq<char>>::empty());
        if p(x) {
            assert(seq![x] + Seq::<Seq<char>>::empty() =~= seq![x]);
        }
    } else {
        let d = s.drop_last();
        lemma_filter_prepend(x, d, p);
        assert((seq![x] + s) =~= (seq![x] + d).push(s.last()));
        (seq![x] + d).lemma_filter_push(s.last(), p);
        d.lemma_filter_push(s.last(), p);
        if p(x) {
            assert((seq![x] + d.filter(p)).push(s.last()) =~= seq![x] + d.filter(p).push(s.last()));
        }
    }
}

/// Parse a role file's text; `stem` is the file name without extension,
/// which names the role when the frontmatter does not.
pub fn parse_agent(content: &str, stem: Option<&str>) -> (d: AgentDef)
    ensures
        d@ == parsed_role(
            content@,
            match stem {
                Some(s) => Some(s@),
                None => None,
            },
        ),
{
    proof {
        reveal_strlit("name");
        reveal_strlit("description");
        reveal_strlit("mode");
        reveal_strlit("tools");
        reveal_strlit("plan");
        reveal_strlit("exec");
    }
    let (fm, body) = split_frontmatter(content);
    let ls = split_lines(fm);
    let ghost lv = strs_view(ls@);
    let mut def = AgentDef::default();
    def.prompt = to_string(body);
    let mut listing = false;
    let mut i: usize = 0;
    assert(lv.take(0) =~= Seq::<Seq<char>>::empty());
    assert(strs_view(def.tools@) =~= Seq::<Seq<char>>::empty());
    while i < ls.len()
        invariant
            i <= ls.len(),
            lv == strs_view(ls@),
            (def@, listing) == role_fold(lv.take(i as int), body@),
        decreases ls.len() - i,
    {
        proof {
            assert(lv.take(i + 1).drop_last() =~= lv.take(i as int));
            assert(lv.take(i + 1).last() == ls@[i as int]@);
        }
        let t = trimmed(ls[i].as_str());
        let tc = chars_of(t.as_str());
        if tc.len() > 0 && tc[0] != '#' {
            if listing && tc[0] == '-' {
                let item_raw = string_of_range(&tc, 1, tc.len());
                assert(item_raw@ =~= t@.skip(1));
                let item = trimmed(item_raw.as_str());
                if !item.as_str().is_empty() {
                    let ghost before = strs_view(def.tools@);
                    def.tools.push(item);
                    assert(strs_view(def.tools@) =~= before.push(trim(t@.skip(1))));
                }
            } else {
                proof {
                    assert(tc@.skip(0) =~= tc@);
                    lemma_char_index(tc@, ':');
                }
                listing = false;
                match index_of_char(&tc, 0, ':') {
                    Some(k) => {
                        let key_raw = string_of_range(&tc, 0, k);
                        let value_raw = string_of_range(&tc, k + 1, tc.len());
                        assert(key_raw@ =~= t@.take(k as int));
                        assert(value_raw@ =~= t@.skip(k + 1));
                        let key = trimmed(key_raw.as_str());
                        let value = trimmed(value_raw.as_str());
                        if str_eq(key.as_str(), "name") {
                            def.name = value;
                        } else if str_eq(key.as_str(), "description") {
                            def.description = value;
                        } else if str_eq(key.as_str(), "mode") {
                            def.mode = if str_eq(value.as_str(), "plan") {
                                AgentRoleMode::Plan
                            } else if str_eq(value.as_str(), "exec") {
                                AgentRoleMode::Exec
                            } else {
                                AgentRoleMode::Auto
                            };
                        } else if str_eq(key.as_str(), "tools") {
                            def.tools = split_tools(value.as_str());
                            listing = true;
                        }
                    },
                    None => {},
                }
            }
        }
        i = i + 1;
    }
    assert(lv.take(i as int) =~= lv);
    if def.name.as_str().is_empty() {
        match stem {
            Some(s) => {
                def.name = to_string(s);
            },
            None => {},
        }
    }
    def
}

/// Position of the first role with the given name.
pub open spec fn role_index(roles: Seq<AgentDef>, name: Seq<char>) -> Option<int>
    decreases roles.len(),
{
    if roles.len() == 0 {
        None
    } else {
        match role_index(roles.drop_last(), name) {
            Some(i) => Some(i),
            None => if roles.last().name@ == name {
                Some(roles.len() - 1)
            } else {
                None
            },
        }
    }
}

proof fn lemma_role_index_at(roles: Seq<AgentDef>, name: Seq<char>, i: int)
    requires
        0 <= i < roles.len(),
        roles[i].name@ == name,
        role_index(roles.take(i), name) is None,
    ensures
        role_index(roles, name) == Some(i),
    decreases roles.len(),
{
    if roles.len() - 1 == i {
        assert(roles.drop_last() =~= roles.take(i));
    } else {
        assert(roles.drop_last().take(i) =~= roles.take(i));
        lemma_role_index_at(roles.drop_last(), name, i);
    }
}

/// The first of the roles with the given name.
pub fn get_agent(name: &str, agents: Vec<AgentDef>) -> (r: Option<AgentDef>)
    ensures
        match role_index(agents@, name@) {
            Some(i) => r == Some(agents@[i]),
            None => r is None,
        },
{
    let ghost all = agents@;
    let n = agents.len();
    let mut rest = agents;
    let mut i: usize = 0;
    while rest.len() > 0
        invariant
            i + rest.len() == all.len() == n,
            all == agents@,
            rest@ == all.skip(i as int),
            role_index(all.take(i as int), name@) is None,
        decreases rest.len(),
    {
        let a = rest.remove(0);
        proof {
            assert(all.skip(i as int)[0] == a);
            assert(rest@ =~= all.skip(i + 1));
            assert(all.take(i + 1).drop_last() =~= all.take(i as int));
        }
        if str_eq(a.name.as_str(), name) {
            proof {
                lemma_role_index_at(all, name@, i as int);
            }
            return Some(a);
        }
        i = i + 1;
    }
    assert(all.take(i as int) =~= all);
    None
}

/// A configured agent: prompt, tools and mode for a run.
#[derive(Debug, Clone)]
pub struct Agent {
    pub name: String,
    pub description: String,
    pub system_prompt: String,
    /// Names of the tools the agent may use; empty means all.
    pub allowed_tools: Vec<String>,
    pub mode: AgentMode,
}

/// The tools an agent keeps: all without an allow-list, else those named in it.
pub open spec fn allowed(tools: Seq<ToolDefView>, allow: Seq<Seq<char>>) -> Seq<ToolDefView> {
    if allow.len() == 0 {
        tools
    } else {
        tools.filter(|d: ToolDefView| allow.contains(d.name))
    }
}

impl Agent {
    /// The general coding assistant, with the given system prompt.
    pub fn default_coder(system_prompt: String) -> (a: Agent)
        ensures
            a.name@ == "coder"@,
            a.description@ == "通用软件工程助手"@,
            a.system_prompt@ == system_prompt@,
            a.allowed_tools@.len() == 0,
            a.mode == AgentMode::Auto,
    {
        Agent {
            name: to_string("coder"),
            description: to_string("通用软件工程助手"),
            system_prompt,
            allowed_tools: Vec::new(),
            mode: AgentMode::Auto,
        }
    }

    /// The tools this agent may use, in order.
    pub fn filter_tools(&self, tools: &[ToolDefinition]) -> (r: Vec<ToolDefinition>)
        ensures
            defs_view(r@) == allowed(defs_view(tools@), strs_view(self.allowed_tools@)),
            self.allowed_tools@.len() == 0 ==> defs_view(r@) == defs_view(tools@),
            self.allowed_tools@.len() > 0 ==> forall|d: ToolDefView| #[trigger] defs_view(r@).contains(d) <==> (defs_view(
                tools@,
            ).contains(d) && strs_view(self.allowed_tools@).contains(d.name)),
    {
        proof {
            broadcast use vstd::seq_lib::group_filter_ensures;
            let allow = strs_view(self.allowed_tools@);
            let pr = |d: ToolDefView| allow.contains(d.name);
            let tv = defs_view(tools@);
            assert forall|d: ToolDefView| #[trigger] tv.filter(pr).contains(d) <==> (tv.contains(d) && allow.contains(d.name)) by {
                if tv.filter(pr).contains(d) {
                    tv.lemma_filter_contains_rev(pr, d);
                    let i = choose|i: int| 0 <= i < tv.filter(pr).len() && tv.filter(pr)[i] == d;
                    tv.lemma_filter_pred(pr, i);
                }
                if tv.contains(d) && allow.contains(d.name) {
                    let k = choose|k: int| 0 <= k < tv.len() && tv[k] == d;
                    tv.lemma_filter_contains(pr, k);
                }
            }
        }
        let ghost allow = strs_view(self.allowed_tools@);
        let ghost pred = |d: ToolDefView| allow.contains(d.name);
        let ghost tv = defs_view(tools@);
        let mut out: Vec<ToolDefinition> = Vec::new();
        let mut i: usize = 0;
        while i < tools.len()
            invariant
                i <= tools.len(),
                allow == strs_view(self.allowed_tools@),
                pred == (|d: ToolDefView| allow.contains(d.name)),
                tv == defs_view(tools@),
                defs_view(out@) == if allow.len() == 0 {
                    tv.take(i as int)
                } else {
                    tv.take(i as int).filter(pred)
                },
            decreases tools.len() - i,
        {
            let d = &tools[i];
            proof {
                assert(tv.take(i + 1) =~= tv.take(i as int).push(d@));
                tv.take(i as int).lemma_filter_push(d@, pred);
            }
            let mut keep = self.allowed_tools.len() == 0;
            let mut j: usize = 0;
            while j < self.allowed_tools.len() && !keep
                invariant
                    j <= self.allowed_tools.len(),
                    allow == strs_view(self.allowed_tools@),
                    keep ==> (allow.len() == 0 || allow.contains(d@.name)),
                    !keep ==> allow.len() > 0 && forall|k: int| 0 <= k < j ==> allow[k] != d@.name,
                decreases self.allowed_tools.len() - j,
            {
                if self.allowed_tools[j] == d.function.name {
                    assert(allow[j as int] == d@.name);
                    keep = true;
                }
                j = j + 1;
            }
            if keep {
                let ghost before = defs_view(out@);
                out.push(d.duplicate());
                assert(defs_view(out@) =~= before.push(d@));
            }
            i = i + 1;
        }
        assert(tv.take(i as int) =~= tv);
        out
    }
}

impl From<AgentDef> for Agent {
    fn from(def: AgentDef) -> (a: Agent) {
        let mode = def.mode.to_agent_mode();
        Agent {
            name: def.name,
            description: def.description,
            system_prompt: def.prompt,
            allowed_tools: def.tools,
            mode,
        }
    }
}

impl vstd::std_specs::convert::FromSpecImpl<AgentDef> for Agent {
    open spec fn obeys_from_spec() -> bool {
        true
    }

    open spec fn from_spec(def: AgentDef) -> Agent {
        Agent {
            name: def.name,
            description: def.description,
            system_prompt: def.prompt,
            allowed_tools: def.tools,
            mode: role_to_agent(def.mode),
        }
    }
}

} // verus!
