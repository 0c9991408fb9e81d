//! Registry of sub-agents: workers that run a task on their own and report
//! back. The registry records each one's task, collects its streamed output,
//! settles its result when it finishes, and answers status queries. Running
//! the workers and signalling them is the caller's part.
use vstd::prelude::*;
use crate::text::{join, join_strings, push_str, str_eq, strs_view, to_string};
use crate::types::{opt_view, AgentMode};
use crate::agent_pool::{role_to_agent, AgentDef};

verus! {

broadcast use vstd::seq_lib::group_seq_properties;

/// Status and result of a sub-agent.
#[derive(Debug, Clone)]
pub struct SubAgentResult {
    pub id: String,
    pub task: String,
    pub agent: Option<String>,
    pub output: String,
    pub done: bool,
    pub success: bool,
    pub error: Option<String>,
}

/// Model of a result.
pub struct ResultView {
    pub id: Seq<char>,
    pub task: Seq<char>,
    pub agent: Option<Seq<char>>,
    pub output: Seq<char>,
    pub done: bool,
    pub success: bool,
    pub error: Option<Seq<char>>,
}

impl View for SubAgentResult {
    type V = ResultView;

    open spec fn view(&self) -> ResultView {
        ResultView {
            id: self.id@,
            task: self.task@,
            agent: opt_view(self.agent),
            output: self.output@,
            done: self.done,
            success: self.success,
            error: opt_view(self.error),
        }
    }
}

impl SubAgentResult {
    /// A field-by-field copy.
    pub fn duplicate(&self) -> (r: SubAgentResult)
        ensures
            r@ == self@,
    {
        SubAgentResult {
            id: self.id.clone(),
            task: self.task.clone(),
            agent: crate::types::clone_opt_string(&self.agent),
            output: self.output.clone(),
            done: self.done,
            success: self.success,
            error: crate::types::clone_opt_string(&self.error),
        }
    }
}

struct Entry {
    id: String,
    result: SubAgentResult,
    output_buffer: Vec<String>,
    cancel_requested: bool,
}

/// Model of one registered sub-agent.
pub struct EntryState {
    pub id: Seq<char>,
    pub result: ResultView,
    /// Output chunks received so far.
    pub buffer: Seq<Seq<char>>,
    pub cancel_requested: bool,
}

spec fn entry_view(e: Entry) -> EntryState {
    EntryState {
        id: e.id@,
        result: e.result@,
        buffer: strs_view(e.output_buffer@),
        cancel_requested: e.cancel_requested,
    }
}

spec fn entries_view(v: Seq<Entry>) -> Seq<EntryState> {
    v.map_values(|e: Entry| entry_view(e))
}

/// The sub-agents known, in registration order.
pub struct SubAgentRegistry {
    entries: Vec<Entry>,
}

impl View for SubAgentRegistry {
    type V = Seq<EntryState>;

    closed spec fn view(&self) -> Seq<EntryState> {
        entries_view(self.entries@)
    }
}

/// Position of the sub-agent with the given id.
pub open spec fn find_id(es: Seq<EntryState>, id: Seq<char>) -> Option<int>
    decreases es.len(),
{
    if es.len() == 0 {
        None
    } else {
        match find_id(es.drop_last(), id) {
            Some(i) => Some(i),
            None => if es.last().id == id {
                Some(es.len() - 1)
            } else {
                None
            },
        }
    }
}

proof fn lemma_find_id_at(es: Seq<EntryState>, id: Seq<char>, i: int)
    requires
        0 <= i < es.len(),
        es[i].id == id,
        find_id(es.take(i), id) is None,
    ensures
        find_id(es, id) == Some(i),
    decreases es.len(),
{
    if es.len() - 1 == i {
        assert(es.drop_last() =~= es.take(i));
    } else {
        assert(es.drop_last().take(i) =~= es.take(i));
        lemma_find_id_at(es.drop_last(), id, i);
    }
}

/// The output of a finished sub-agent: what it streamed, or a note when it
/// streamed nothing; a failure appends or reports the error.
pub open spec fn final_output(id: Seq<char>, task: Seq<char>, streamed: Seq<char>, error: Option<Seq<char>>) -> Seq<char> {
    match error {
        None => if streamed.len() == 0 {
            "Sub-agent '"@ + id + "' completed: "@ + task
        } else {
            streamed
        },
        Some(e) => if streamed.len() == 0 {
            "Sub-agent '"@ + id + "' failed: "@ + e
        } else {
            streamed + "\n[Failed: "@ + e + "]"@
        },
    }
}

/// Status mark of a sub-agent in the listing.
pub open spec fn status_mark(r: ResultView) -> Seq<char> {
    if r.done {
        if r.success {
            "✓"@
        } else {
            "❌"@
        }
    } else {
        "⏳"@
    }
}

/// One line of the listing.
pub open spec fn status_line(e: EntryState) -> Seq<char> {
    "  ["@ + status_mark(e.result) + "] "@ + e.id + " ("@ + match e.result.agent {
        Some(a) => a,
        None => "coder"@,
    } + "): "@ + e.result.task + "\n"@
}

/// The lines of the listing.
pub open spec fn status_lines(es: Seq<EntryState>) -> Seq<char>
    decreases es.len(),
{
    if es.len() == 0 {
        Seq::empty()
    } else {
        status_lines(es.drop_last()) + status_line(es.last())
    }
}

/// The listing of all sub-agents.
pub open spec fn listing(es: Seq<EntryState>) -> Seq<char> {
    if es.len() == 0 {
        "No sub-agents running."@
    } else {
        "Sub-agents:\n"@ + status_lines(es)
    }
}

/// One line of the listing for an entry.
fn status_line_string(e: &Entry) -> (out: String)
    ensures
        out@ == status_line(entry_view(*e)),
{
    let r = &e.result;
    let status = if r.done {
        if r.success {
            "✓"
        } else {
            "❌"
        }
    } else {
        "⏳"
    };
    let mut out = to_string("  [");
    push_str(&mut out, status);
    push_str(&mut out, "] ");
    push_str(&mut out, e.id.as_str());
    push_str(&mut out, " (");
    match &r.agent {
        Some(a) => push_str(&mut out, a.as_str()),
        None => push_str(&mut out, "coder"),
    }
    push_str(&mut out, "): ");
    push_str(&mut out, r.task.as_str());
    push_str(&mut out, "\n");
    assert(out@ =~= status_line(entry_view(*e)));
    out
}

impl SubAgentRegistry {
    /// An empty registry.
    pub fn new() -> (r: SubAgentRegistry)
        ensures
            r@.len() == 0,
    {
        SubAgentRegistry { entries: Vec::new() }
    }

    fn index_of(&self, id: &str) -> (r: Option<usize>)
        ensures
            match r {
                Some(i) => i < self@.len() && find_id(self@, id@) == Some(i as int),
                None => find_id(self@, id@) is None,
            },
    {
        let ghost es = self@;
        let mut i: usize = 0;
        while i < self.entries.len()
            invariant
                i <= self.entries.len(),
                es == entries_view(self.entries@),
                find_id(es.take(i as int), id@) is None,
            decreases self.entries.len() - i,
        {
            proof {
                assert(es.take(i + 1).drop_last() =~= es.take(i as int));
            }
            if str_eq(self.entries[i].id.as_str(), id) {
                proof {
                    lemma_find_id_at(es, id@, i as int);
                }
                return Some(i);
            }
            i = i + 1;
        }
        assert(es.take(i as int) =~= es);
        None
    }

    /// Record a sub-agent that starts on `task`; it replaces an earlier one with the same id.
    pub fn register(&mut self, id: &str, task: &str, agent: Option<String>)
        ensures
            final(self)@ == match find_id(old(self)@, id@) {
                Some(i) => old(self)@.remove(i),
                None => old(self)@,
            }.push(EntryState {
                id: id@,
                result: ResultView {
                    id: id@,
                    task: task@,
                    agent: opt_view(agent),
                    output: Seq::empty(),
                    done: false,
                    success: false,
                    error: None,
                },
                buffer: Seq::empty(),
                cancel_requested: false,
            }),
    {
        let ghost before = self@;
        match self.index_of(id) {
            Some(i) => {
                self.entries.remove(i);
                assert(self@ =~= before.remove(i as int));
            },
            None => {},
        }
        let ghost mid = self@;
        let e = Entry {
            id: to_string(id),
            result: SubAgentResult {
                id: to_string(id),
                task: to_string(task),
                agent,
                output: String::new(),
                done: false,
                success: false,
                error: None,
            },
            output_buffer: Vec::new(),
            cancel_requested: false,
        };
        assert(strs_view(e.output_buffer@) =~= Seq::<Seq<char>>::empty());
        let ghost ev = entry_view(e);
        self.entries.push(e);
        assert(self@ =~= mid.push(ev));
    }

    /// Add a chunk of streamed output to a sub-agent's buffer; unknown ids are ignored.
    pub fn append_output(&mut self, id: &str, chunk: String)
        ensures
            final(self)@ == match find_id(old(self)@, id@) {
                Some(i) => old(self)@.update(i, EntryState { buffer: old(self)@[i].buffer.push(chunk@), ..old(self)@[i] }),
                None => old(self)@,
            },
    {
        let ghost before = self@;
        match self.index_of(id) {
            Some(i) => {
                let mut e = self.entries.remove(i);
                let ghost ev = entry_view(e);
                e.output_buffer.push(chunk);
                assert(strs_view(e.output_buffer@) =~= ev.buffer.push(chunk@));
                let ghost nv = entry_view(e);
                self.entries.insert(i, e);
                assert(self@ =~= before.update(i as int, nv));
            },
            None => {},
        }
    }

    /// Settle a sub-agent's result when it finishes: `outcome` is `Ok` or the
    /// error it failed with. Unknown ids are ignored.
    pub fn finish(&mut self, id: &str, outcome: Result<(), String>)
        ensures
            final(self)@ == match find_id(old(self)@, id@) {
                Some(i) => {
                    let e = old(self)@[i];
                    let err = match outcome {
                        Ok(_) => None,
                        Err(m) => Some(m@),
                    };
                    old(self)@.update(i, EntryState {
                        result: ResultView {
                            done: true,
                            success: outcome is Ok,
                            error: match err {
                                Some(m) => Some(m),
                                None => e.result.error,
                            },
                            output: final_output(id@, e.result.task, join(e.buffer, Seq::empty()), err),
                            ..e.result
                        },
                        ..e
                    })
                },
                None => old(self)@,
            },
    {
        let ghost before = self@;
        match self.index_of(id) {
            Some(i) => {
                let mut e = self.entries.remove(i);
                let ghost ev = entry_view(e);
                proof {
                    reveal_strlit("");
                }
                let text = join_strings(&e.output_buffer, "");
                let empty = text.as_str().is_empty();
                e.result.done = true;
                match outcome {
                    Ok(()) => {
                        e.result.success = true;
                        if empty {
                            let mut o = to_string("Sub-agent '");
                            push_str(&mut o, id);
                            push_str(&mut o, "' completed: ");
                            push_str(&mut o, e.result.task.as_str());
                            e.result.output = o;
                        } else {
                            e.result.output = text;
                        }
                    },
                    Err(msg) => {
                        e.result.success = false;
                        if empty {
                            let mut o = to_string("Sub-agent '");
                            push_str(&mut o, id);
                            push_str(&mut o, "' failed: ");
                            push_str(&mut o, msg.as_str());
                            e.result.output = o;
                        } else {
                            let mut o = text;
                            push_str(&mut o, "\n[Failed: ");
                            push_str(&mut o, msg.as_str());
                            push_str(&mut o, "]");
                            e.result.output = o;
                        }
                        e.result.error = Some(msg);
                    },
                }
                let ghost nv = entry_view(e);
                self.entries.insert(i, e);
                assert(self@ =~= before.update(i as int, nv));
            },
            None => {},
        }
    }

    /// The result of a sub-agent.
    pub fn get_result(&self, id: &str) -> (r: Option<SubAgentResult>)
        ensures
            match find_id(self@, id@) {
                Some(i) => r matches Some(x) && x@ == self@[i].result,
                None => r is None,
            },
    {
        match self.index_of(id) {
            Some(i) => Some(self.entries[i].result.duplicate()),
            None => None,
        }
    }

    /// The result of a sub-agent (same as [`SubAgentRegistry::get_result`]).
    pub fn get(&self, id: &str) -> (r: Option<SubAgentResult>)
        ensures
            match find_id(self@, id@) {
                Some(i) => r matches Some(x) && x@ == self@[i].result,
                None => r is None,
            },
    {
        self.get_result(id)
    }

    /// A listing of all sub-agents with their status, role and task.
    pub fn list(&self) -> (r: String)
        ensures
            r@ == listing(self@),
    {
        if self.entries.len() == 0 {
            return to_string("No sub-agents running.");
        }
        let ghost es = self@;
        let mut out = to_string("Sub-agents:\n");
        let mut i: usize = 0;
        while i < self.entries.len()
            invariant
                i <= self.entries.len(),
                es == entries_view(self.entries@),
                out@ == "Sub-agents:\n"@ + status_lines(es.take(i as int)),
            decreases self.entries.len() - i,
        {
            let e = &self.entries[i];
            let line = status_line_string(e);
            push_str(&mut out, line.as_str());
            proof {
                assert(es.take(i + 1).drop_last() =~= es.take(i as int));
                assert(es.take(i + 1).last() == entry_view(*e));
            }
            assert(out@ =~= "Sub-agents:\n"@ + status_lines(es.take(i + 1)));
            i = i + 1;
        }
        assert(es.take(i as int) =~= es);
        out
    }

    /// The results of all sub-agents, in registration order.
    pub fn list_all(&self) -> (r: Vec<SubAgentResult>)
        ensures
            r@.len() == self@.len(),
            forall|i: int| 0 <= i < r@.len() ==> (#[trigger] r@[i])@ == self@[i].result,
    {
        let mut r: Vec<SubAgentResult> = Vec::new();
        let mut i: usize = 0;
        while i < self.entries.len()
            invariant
                i <= self.entries.len(),
                r@.len() == i,
                forall|j: int| 0 <= j < i ==> (#[trigger] r@[j])@ == self@[j].result,
            decreases self.entries.len() - i,
        {
            r.push(self.entries[i].result.duplicate());
            i = i + 1;
        }
        r
    }

    /// Forget every finished sub-agent.
    pub fn cleanup_done(&mut self)
        ensures
            final(self)@ == old(self)@.filter(|e: EntryState| !e.result.done),
    {
        let ghost pred = |e: EntryState| !e.result.done;
        let ghost all = self@;
        let mut rest: Vec<Entry> = Vec::new();
        std::mem::swap(&mut rest, &mut self.entries);
        let ghost raw = rest@;
        let n = rest.len();
        let mut i: usize = 0;
        while rest.len() > 0
            invariant
                i + rest.len() == raw.len() == n,
                all == entries_view(raw),
                rest@ == raw.skip(i as int),
                pred == (|e: EntryState| !e.result.done),
                entries_view(self.entries@) == all.take(i as int).filter(pred),
            decreases rest.len(),
        {
            let e = rest.remove(0);
            proof {
                assert(raw.skip(i as int)[0] == e);
                assert(rest@ =~= raw.skip(i + 1));
                assert(all.take(i + 1) =~= all.take(i as int).push(entry_view(e)));
                all.take(i as int).lemma_filter_push(entry_view(e), pred);
            }
            if !e.result.done {
                let ghost before = entries_view(self.entries@);
                let ghost ev = entry_view(e);
                self.entries.push(e);
                assert(entries_view(self.entries@) =~= before.push(ev));
            }
            i = i + 1;
        }
        assert(all.take(i as int) =~= all);
    }

    /// Ask a sub-agent to stop; says whether it is known.
    pub fn cancel(&mut self, id: &str) -> (found: bool)
        ensures
            found == (find_id(old(self)@, id@) is Some),
            final(self)@ == match find_id(old(self)@, id@) {
                Some(i) => old(self)@.update(i, EntryState { cancel_requested: true, ..old(self)@[i] }),
                None => old(self)@,
            },
    {
        let ghost before = self@;
        match self.index_of(id) {
            Some(i) => {
                let mut e = self.entries.remove(i);
                e.cancel_requested = true;
                let ghost nv = entry_view(e);
                self.entries.insert(i, e);
                assert(self@ =~= before.update(i as int, nv));
                true
            },
            None => false,
        }
    }

    /// Ask every unfinished sub-agent to stop; returns their ids.
    pub fn cancel_all(&mut self) -> (ids: Vec<String>)
        ensures
            final(self)@.len() == old(self)@.len(),
            forall|i: int| 0 <= i < old(self)@.len() ==> (#[trigger] final(self)@[i]) == if old(self)@[i].result.done {
                old(self)@[i]
            } else {
                EntryState { cancel_requested: true, ..old(self)@[i] }
            },
            strs_view(ids@) == old(self)@.filter(|e: EntryState| !e.result.done).map_values(|e: EntryState| e.id),
    {
        let ghost before = self@;
        let ghost pred = |e: EntryState| !e.result.done;
        let ghost idf = |e: EntryState| e.id;
        let mut ids: Vec<String> = Vec::new();
        let mut i: usize = 0;
        while i < self.entries.len()
            invariant
                i <= self.entries.len() == before.len(),
                pred == (|e: EntryState| !e.result.done),
                idf == (|e: EntryState| e.id),
                forall|j: int| 0 <= j < i ==> (#[trigger] self@[j]) == if before[j].result.done {
                    before[j]
                } else {
                    EntryState { cancel_requested: true, ..before[j] }
                },
                forall|j: int| i <= j < before.len() ==> (#[trigger] self@[j]) == before[j],
                strs_view(ids@) == before.take(i as int).filter(pred).map_values(idf),
            decreases self.entries.len() - i,
        {
            proof {
                assert(before.take(i + 1) =~= before.take(i as int).push(before[i as int]));
                before.take(i as int).lemma_filter_push(before[i as int], pred);
                assert(self@[i as int] == before[i as int]);
            }
            if !self.entries[i].result.done {
                let ghost cur = self@;
                let ghost idsv = strs_view(ids@);
                let idc = self.entries[i].id.clone();
                assert(idc@ == before[i as int].id) by {
                    assert(self@[i as int] == before[i as int]);
                }
                ids.push(idc);
                let mut e = self.entries.remove(i);
                e.cancel_requested = true;
                let ghost nv = entry_view(e);
                self.entries.insert(i, e);
                assert(self@ =~= cur.update(i as int, nv));
                assert(strs_view(ids@) =~= idsv.push(before[i as int].id));
                assert(before.take(i as int).filter(pred).push(before[i as int]).map_values(idf) =~= before.take(i as int).filter(pred).map_values(idf).push(before[i as int].id));
            }
            i = i + 1;
        }
        assert(before.take(i as int) =~= before);
        ids
    }
}

impl Default for SubAgentRegistry {
    fn default() -> (r: Self)
        ensures
            r@.len() == 0,
    {
        SubAgentRegistry::new()
    }
}

/// What a sub-agent's output buffer records of an error it reported.
pub fn error_output(e: &str) -> (r: String)
    ensures
        r@ == "ERROR: "@ + e@,
{
    let mut r = to_string("ERROR: ");
    push_str(&mut r, e);
    r
}

/// The result reported when a finished sub-agent's result is missing.
pub fn lost_result(id: &str) -> (r: SubAgentResult)
    ensures
        r@ == (ResultView {
            id: id@,
            task: Seq::empty(),
            agent: None,
            output: "Sub-agent result lost"@,
            done: true,
            success: false,
            error: Some("Result not found in registry"@),
        }),
{
    SubAgentResult {
        id: to_string(id),
        task: String::new(),
        agent: None,
        output: to_string("Sub-agent result lost"),
        done: true,
        success: false,
        error: Some(to_string("Result not found in registry")),
    }
}

/// What a role changes in a sub-agent's configuration: the system prompt,
/// when the role has one, and the mode. Without a role nothing changes.
pub fn role_overrides(role: Option<&AgentDef>) -> (r: (Option<String>, Option<AgentMode>))
    ensures
        match role {
            Some(d) => opt_view(r.0) == (if d.prompt@.len() > 0 {
                Some(d.prompt@)
            } else {
                None
            }) && r.1 == Some(role_to_agent(d.mode)),
            None => r.0 is None && r.1 is None,
        },
{
    match role {
        Some(d) => {
            let prompt = if d.prompt.as_str().unicode_len() == 0 {
                None
            } else {
                Some(d.prompt.clone())
            };
            (prompt, Some(d.mode.to_agent_mode()))
        },
        None => (None, None),
    }
}

} // verus!
