//! The decisions of the agent loop: the messages it builds, how it lays out
//! the context sent to the model, when and how it compresses the history,
//! and what it says when it continues a plan or gives up. Calling the model
//! and the tools is the caller's part.
use vstd::prelude::*;
use crate::types::{
    calls_view, content_text, msgs_view, plain, ContentView, EventView, Message, MessageContent,
    MessageView, ProviderEvent, Role, ToolCall, ToolCallView, ToolDefinition, ToolResult, defs_view,
};
use crate::text::{
    chars_of, dec, dec_string, join, join_strings, push_str, string_of_range, strs_view, to_string,
    trim, trimmed, utf8_len, byte_len,
};
use crate::conversation::{clamp_usize, compressed, replaced, total_tokens, Conversation};
use crate::orchestrator::{refs_view, Task, TaskView};

verus! {

broadcast use vstd::seq_lib::group_seq_properties;

/// A user message.
pub fn user_msg(text: &str) -> (m: Message)
    ensures
        m@ == plain(Role::User, text@),
{
    Message::text(Role::User, to_string(text))
}

/// An assistant message; empty reasoning is left out.
pub fn assistant_msg(text: &str, calls: Option<Vec<ToolCall>>, reasoning: &str) -> (m: Message)
    ensures
        m@ == (MessageView {
            role: Role::Assistant,
            content: ContentView::Text(text@),
            tool_calls: match calls {
                Some(v) => Some(calls_view(v@)),
                None => None,
            },
            tool_call_id: None,
            name: None,
            reasoning_content: if reasoning@.len() == 0 {
                None
            } else {
                Some(reasoning@)
            },
        }),
{
    let reasoning_content = if reasoning.is_empty() {
        None
    } else {
        Some(to_string(reasoning))
    };
    Message {
        role: Role::Assistant,
        content: MessageContent::Text(to_string(text)),
        tool_calls: calls,
        tool_call_id: None,
        name: None,
        reasoning_content,
    }
}

/// The id a tool result answers: the call's id, or `call_<name>` when the call has none.
pub open spec fn call_id_of(c: ToolCallView) -> Seq<char> {
    if c.id.len() == 0 {
        "call_"@ + c.name
    } else {
        c.id
    }
}

/// The message carrying a tool's result back to the model.
pub fn tool_result_msg(tc: &ToolCall, result: ToolResult) -> (m: Message)
    ensures
        m@ == (MessageView {
            role: Role::Tool,
            content: ContentView::Text(result.content@),
            tool_calls: None,
            tool_call_id: Some(call_id_of(tc@)),
            name: Some(tc@.name),
            reasoning_content: None,
        }),
{
    let call_id = if tc.id.as_str().is_empty() {
        let mut s = to_string("call_");
        push_str(&mut s, tc.function.name.as_str());
        s
    } else {
        tc.id.clone()
    };
    Message {
        role: Role::Tool,
        content: MessageContent::Text(result.content),
        tool_calls: None,
        tool_call_id: Some(call_id),
        name: Some(tc.function.name.clone()),
        reasoning_content: None,
    }
}

// ── Context layout ──

/// The context sent to the model: the conversation's context, then the plan
/// context as a user message; in front, the agent's own prompt when it has
/// one that differs from the session's, then the core memory and the recent
/// memory as system messages when they are not empty.
pub open spec fn layout(
    base: Seq<MessageView>,
    plan_ctx: Option<Seq<char>>,
    agent_prompt: Seq<char>,
    session_prompt: Seq<char>,
    core_ctx: Seq<char>,
    mem_ctx: Seq<char>,
) -> Seq<MessageView> {
    let with_plan = match plan_ctx {
        Some(c) => base.push(plain(Role::User, c)),
        None => base,
    };
    let head = (if agent_prompt.len() > 0 && agent_prompt != session_prompt {
        seq![plain(Role::System, agent_prompt)]
    } else {
        Seq::empty()
    }) + (if core_ctx.len() > 0 {
        seq![plain(Role::System, core_ctx)]
    } else {
        Seq::empty()
    }) + (if mem_ctx.len() > 0 {
        seq![plain(Role::System, mem_ctx)]
    } else {
        Seq::empty()
    });
    head + with_plan
}

/// Lay out the context sent to the model (see [`layout`]).
pub fn rebuild_messages(
    base: Vec<Message>,
    plan_ctx: Option<String>,
    agent_prompt: &str,
    session_prompt: &str,
    core_ctx: String,
    mem_ctx: String,
) -> (r: Vec<Message>)
    ensures
        msgs_view(r@) == layout(
            msgs_view(base@),
            match plan_ctx {
                Some(c) => Some(c@),
                None => None,
            },
            agent_prompt@,
            session_prompt@,
            core_ctx@,
            mem_ctx@,
        ),
{
    let ghost bv = msgs_view(base@);
    let mut head: Vec<Message> = Vec::new();
    let different = !crate::text::str_eq(agent_prompt, session_prompt);
    if !agent_prompt.is_empty() && different {
        head.push(Message::text(Role::System, to_string(agent_prompt)));
    }
    let ghost h1 = msgs_view(head@);
    if !core_ctx.as_str().is_empty() {
        head.push(Message::text(Role::System, core_ctx));
    }
    let ghost h2 = msgs_view(head@);
    if !mem_ctx.as_str().is_empty() {
        head.push(Message::text(Role::System, mem_ctx));
    }
    let ghost h3 = msgs_view(head@);
    proof {
        let a = if agent_prompt@.len() > 0 && agent_prompt@ != session_prompt@ {
            seq![plain(Role::System, agent_prompt@)]
        } else {
            Seq::empty()
        };
        assert(h1 =~= a);
    }
    let mut out = head;
    let mut rest = base;
    let n = rest.len();
    let mut i: usize = 0;
    while rest.len() > 0
        invariant
            i + rest.len() == n == bv.len(),
            msgs_view(rest@) == bv.skip(i as int),
            msgs_view(out@) == h3 + bv.take(i as int),
        decreases rest.len(),
    {
        let m = rest.remove(0);
        proof {
            assert(msgs_view(rest@) =~= bv.skip(i + 1));
            assert(bv.skip(i as int)[0] == m@);
        }
        let ghost before = msgs_view(out@);
        out.push(m);
        assert(msgs_view(out@) =~= before.push(bv[i as int]));
        assert(bv.take(i + 1) =~= bv.take(i as int).push(bv[i as int]));
        i = i + 1;
    }
    assert(bv.take(i as int) =~= bv);
    match plan_ctx {
        Some(c) => {
            let ghost before = msgs_view(out@);
            let ghost cv = c@;
            out.push(Message::text(Role::User, c));
            assert(msgs_view(out@) =~= before.push(plain(Role::User, cv)));
        },
        None => {},
    }
    proof {
        assert(msgs_view(out@) =~= layout(
            bv,
            match plan_ctx {
                Some(c) => Some(c@),
                None => None,
            },
            agent_prompt@,
            session_prompt@,
            core_ctx@,
            mem_ctx@,
        ));
    }
    out
}

// ── Context compression ──

/// How many of the newest messages compression leaves alone.
pub const KEEP_RECENT: usize = 6;

/// Where compression splits the history: `Some(split_at)` when the estimate
/// exceeds the threshold and there are more than eight messages; messages
/// `1..split_at` are then summarised.
pub open spec fn split_point(estimate: nat, threshold: nat, len: nat) -> Option<nat> {
    if estimate <= threshold || len <= KEEP_RECENT + 2 {
        None
    } else {
        let s = (len - KEEP_RECENT) as nat;
        Some(if s < 2 { 2 } else { s })
    }
}

/// Where to split the history for compression.
pub fn compression_split(estimate: usize, threshold: usize, len: usize) -> (r: Option<usize>)
    ensures
        match split_point(estimate as nat, threshold as nat, len as nat) {
            Some(s) => r == Some(s as usize),
            None => r is None,
        },
{
    if estimate <= threshold || len <= KEEP_RECENT + 2 {
        return None;
    }
    let s = len - KEEP_RECENT;
    Some(if s < 2 { 2 } else { s })
}

/// Full role name of a message in the text given to the summariser.
pub open spec fn role_name(r: Role) -> Seq<char> {
    match r {
        Role::System => "system"@,
        Role::User => "user"@,
        Role::Assistant => "assistant"@,
        Role::Tool => "tool"@,
    }
}

/// `[role] text` for each message with non-empty text.
pub open spec fn range_lines(ms: Seq<MessageView>) -> Seq<Seq<char>>
    decreases ms.len(),
{
    if ms.len() == 0 {
        Seq::empty()
    } else {
        let t = content_text(ms.last().content);
        range_lines(ms.drop_last()) + if t.len() == 0 {
            Seq::empty()
        } else {
            seq!["["@ + role_name(ms.last().role) + "] "@ + t]
        }
    }
}

/// The text of the messages to summarise, one line each.
pub fn range_text(messages: &[Message], from: usize, to: usize) -> (r: String)
    requires
        from <= to <= messages@.len(),
    ensures
        r@ == join(range_lines(msgs_view(messages@).subrange(from as int, to as int)), "\n"@),
{
    let ghost ms = msgs_view(messages@).subrange(from as int, to as int);
    let mut lines: Vec<String> = Vec::new();
    let mut i = from;
    assert(ms.take(0) =~= Seq::<MessageView>::empty());
    assert(strs_view(lines@) =~= Seq::<Seq<char>>::empty());
    while i < to
        invariant
            from <= i <= to <= messages@.len(),
            ms == msgs_view(messages@).subrange(from as int, to as int),
            strs_view(lines@) == range_lines(ms.take(i - from)),
        decreases to - i,
    {
        let m = &messages[i];
        proof {
            assert(ms.take(i + 1 - from).drop_last() =~= ms.take(i - from));
            assert(ms.take(i + 1 - from).last() == m@);
        }
        let role = match m.role {
            Role::System => "system",
            Role::User => "user",
            Role::Assistant => "assistant",
            Role::Tool => "tool",
        };
        let text = match &m.content {
            MessageContent::Text(s) => s.as_str(),
            _ => "",
        };
        proof {
            reveal_strlit("");
        }
        let ghost before = strs_view(lines@);
        if !text.is_empty() {
            let mut l = to_string("[");
            push_str(&mut l, role);
            push_str(&mut l, "] ");
            push_str(&mut l, text);
            lines.push(l);
            assert(strs_view(lines@) =~= before + seq!["["@ + role_name(m.role) + "] "@ + content_text(m@.content)]);
        } else {
            assert(strs_view(lines@) =~= before + Seq::<Seq<char>>::empty());
        }
        i = i + 1;
    }
    assert(ms.take(to - from) =~= ms);
    join_strings(&lines, "\n")
}

/// The summary message that replaces the compressed messages.
pub open spec fn compressed_note(count: nat, summary: Seq<char>) -> Seq<char> {
    "[Context compressed: "@ + dec(count) + " older messages summarised]\n\n"@ + trim(summary)
}

/// The summary message that replaces `count` compressed messages.
pub fn compressed_summary(count: usize, summary: &str) -> (r: String)
    ensures
        r@ == compressed_note(count as nat, summary@),
{
    let mut r = to_string("[Context compressed: ");
    let n = dec_string(count as u64);
    push_str(&mut r, n.as_str());
    push_str(&mut r, " older messages summarised]\n\n");
    let t = trimmed(summary);
    push_str(&mut r, t.as_str());
    r
}

// ── What the loop says ──

/// The prompt that continues a plan with its next ready task.
pub open spec fn continue_prompt(id: u32, title: Seq<char>, agent: Option<Seq<char>>) -> Seq<char> {
    "Continue the plan. Execute task #"@ + dec(id as nat) + ": "@ + title + match agent {
        Some(a) => " (use agent role: "@ + a + ")"@,
        None => Seq::empty(),
    }
}

/// The prompt that continues a plan with its next ready task.
pub fn auto_continue_prompt(id: u32, title: &str, agent: Option<&str>) -> (r: String)
    ensures
        r@ == continue_prompt(id, title@, match agent {
            Some(a) => Some(a@),
            None => None,
        }),
{
    let mut r = to_string("Continue the plan. Execute task #");
    let n = dec_string(id as u64);
    push_str(&mut r, n.as_str());
    push_str(&mut r, ": ");
    push_str(&mut r, title);
    match agent {
        Some(a) => {
            push_str(&mut r, " (use agent role: ");
            push_str(&mut r, a);
            push_str(&mut r, ")");
        },
        None => {},
    }
    r
}

/// The notice shown when a plan continues.
pub fn auto_continue_notice(id: u32, title: &str) -> (r: String)
    ensures
        r@ == "\n\n▶ Auto-continuing plan: #"@ + dec(id as nat) + " "@ + title@ + "\n\n"@,
{
    let mut r = to_string("\n\n▶ Auto-continuing plan: #");
    let n = dec_string(id as u64);
    push_str(&mut r, n.as_str());
    push_str(&mut r, " ");
    push_str(&mut r, title);
    push_str(&mut r, "\n\n");
    r
}

/// The message for a model request that timed out.
pub fn timeout_message(secs: u64, iteration: u64) -> (r: String)
    requires
        iteration < u64::MAX,
    ensures
        r@ == "⚠️ LLM request timed out after "@ + dec(secs as nat) + "s (iteration "@ + dec(
            (iteration + 1) as nat,
        ) + ")."@,
{
    let mut r = to_string("⚠️ LLM request timed out after ");
    let a = dec_string(secs);
    push_str(&mut r, a.as_str());
    push_str(&mut r, "s (iteration ");
    let b = dec_string(iteration + 1);
    push_str(&mut r, b.as_str());
    push_str(&mut r, ").");
    r
}

/// The message when the loop stops at its iteration limit.
pub fn max_iterations_message(max: u64) -> (r: String)
    ensures
        r@ == "⚠️  Reached max iterations ("@ + dec(max as nat) + ") without completing."@,
{
    let mut r = to_string("⚠️  Reached max iterations (");
    let a = dec_string(max);
    push_str(&mut r, a.as_str());
    push_str(&mut r, ") without completing.");
    r
}

// ── The schedule of the loop ──

/// How a model turn ended, as the loop sees it.
#[derive(Debug, Clone)]
pub enum TurnOutcome {
    /// The user cancelled while the answer streamed.
    Cancelled,
    /// The answer did not come in time; the timeout was reported.
    TimedOut,
    /// The task running the model call was cancelled.
    CallCancelled,
    /// The model call failed with this error.
    ProviderError(String),
    /// The task running the model call panicked, with this message.
    ProviderPanicked(String),
    /// Tools were run or the plan was continued: the model must answer again.
    Continued,
    /// The model gave its final answer.
    Finished,
}

/// What the loop does next.
#[derive(Debug, Clone)]
pub enum LoopAction {
    /// Run model turn `iteration` (counting from 0), compressing the
    /// context first when `compress`.
    Turn { iteration: u64, compress: bool },
    /// The run is over.
    Done,
    /// The run fails with this error.
    Fail(String),
    /// Every allowed turn was used: report this message, and the run is over.
    Exhausted(String),
}

/// The first step of a run: turn 0, without compression, when at least one
/// turn is allowed.
pub fn first_step(max: u64) -> (a: LoopAction)
    ensures
        max > 0 ==> a == (LoopAction::Turn { iteration: 0, compress: false }),
        max == 0 ==> (a matches LoopAction::Exhausted(m) && m@ == "⚠️  Reached max iterations ("@ + dec(
            max as nat,
        ) + ") without completing."@),
{
    if max > 0 {
        LoopAction::Turn { iteration: 0, compress: false }
    } else {
        LoopAction::Exhausted(max_iterations_message(max))
    }
}

/// The step after turn `iteration` ended with `outcome`: a cancellation or a
/// final answer ends the run; a provider error fails it (a panic with the
/// message `Provider panicked: ` and its text); a timeout, a cancelled call
/// or a continued turn lead to the next turn, compressed first, while fewer
/// than `max` turns were run, and otherwise to the end of the budget.
pub fn next_step(iteration: u64, max: u64, outcome: TurnOutcome) -> (a: LoopAction)
    requires
        iteration < max,
    ensures
        match outcome {
            TurnOutcome::Cancelled | TurnOutcome::Finished => a is Done,
            TurnOutcome::ProviderError(e) => a matches LoopAction::Fail(m) && m@ == e@,
            TurnOutcome::ProviderPanicked(p) => a matches LoopAction::Fail(m) && m@ == "Provider panicked: "@ + p@,
            TurnOutcome::TimedOut | TurnOutcome::CallCancelled | TurnOutcome::Continued => if iteration + 1 < max {
                a == (LoopAction::Turn { iteration: (iteration + 1) as u64, compress: true })
            } else {
                a matches LoopAction::Exhausted(m) && m@ == "⚠️  Reached max iterations ("@ + dec(
                    max as nat,
                ) + ") without completing."@
            },
        },
{
    match outcome {
        TurnOutcome::Cancelled | TurnOutcome::Finished => LoopAction::Done,
        TurnOutcome::ProviderError(e) => LoopAction::Fail(e),
        TurnOutcome::ProviderPanicked(p) => {
            let mut m = to_string("Provider panicked: ");
            push_str(&mut m, p.as_str());
            LoopAction::Fail(m)
        },
        TurnOutcome::TimedOut | TurnOutcome::CallCancelled | TurnOutcome::Continued => {
            if iteration + 1 < max {
                LoopAction::Turn { iteration: iteration + 1, compress: true }
            } else {
                LoopAction::Exhausted(max_iterations_message(max))
            }
        },
    }
}

// ── One turn of the loop ──

/// What the model has streamed so far in one turn.
pub struct TurnStream {
    pub text: String,
    pub reasoning: String,
    /// The tool calls of the last `ToolCalls` event.
    pub tool_calls: Option<Vec<ToolCall>>,
}

/// What the loop does after one streamed event.
#[derive(Debug, Clone)]
pub enum StreamStep {
    /// Show this piece of answer text and read on.
    ShowText(String),
    /// Show this piece of reasoning and read on.
    ShowReasoning(String),
    /// Read on.
    Quiet,
    /// The answer is complete.
    Finished,
    /// The provider reported this error; stop reading.
    Failed(String),
}

impl TurnStream {
    /// Nothing streamed yet.
    pub fn new() -> (t: TurnStream)
        ensures
            t.text@.len() == 0,
            t.reasoning@.len() == 0,
            t.tool_calls is None,
    {
        TurnStream { text: String::new(), reasoning: String::new(), tool_calls: None }
    }

    /// Take in one streamed event: text and reasoning are appended, the last
    /// tool calls kept; `Done` ends the answer and an error stops it.
    pub fn absorb(&mut self, ev: ProviderEvent) -> (step: StreamStep)
        ensures
            match ev@ {
                EventView::Text(c) => final(self).text@ == old(self).text@ + c
                    && final(self).reasoning == old(self).reasoning
                    && final(self).tool_calls == old(self).tool_calls
                    && (step matches StreamStep::ShowText(x) && x@ == c),
                EventView::Reasoning(c) => final(self).reasoning@ == old(self).reasoning@ + c
                    && final(self).text == old(self).text
                    && final(self).tool_calls == old(self).tool_calls
                    && (step matches StreamStep::ShowReasoning(x) && x@ == c),
                EventView::ToolCalls(v) => (final(self).tool_calls matches Some(w) && calls_view(w@) == v)
                    && final(self).text == old(self).text
                    && final(self).reasoning == old(self).reasoning
                    && step is Quiet,
                EventView::Done => *final(self) == *old(self) && step is Finished,
                EventView::Error(e) => *final(self) == *old(self) && (step matches StreamStep::Failed(x) && x@ == e),
            },
    {
        match ev {
            ProviderEvent::Text(chunk) => {
                push_str(&mut self.text, chunk.as_str());
                StreamStep::ShowText(chunk)
            },
            ProviderEvent::Reasoning(rc) => {
                push_str(&mut self.reasoning, rc.as_str());
                StreamStep::ShowReasoning(rc)
            },
            ProviderEvent::ToolCalls(calls) => {
                self.tool_calls = Some(calls);
                StreamStep::Quiet
            },
            ProviderEvent::Done => StreamStep::Finished,
            ProviderEvent::Error(e) => StreamStep::Failed(e),
        }
    }
}

/// What the loop does once the model's answer is in.
#[derive(Debug, Clone)]
pub enum TurnAction {
    /// The request timed out: tell the user and the model, then go on.
    TimedOut(String),
    /// Run the requested tools, then go on.
    RunTools,
    /// Continue the plan with its next ready task: show the notice, send the
    /// prompt, start the task.
    ContinuePlan { notice: String, prompt: String, task_id: u32 },
    /// The turn is over; after the first turn a session title is made.
    Finish { generate_title: bool },
}

/// Decide what follows the model's answer: a timeout is reported, tool calls
/// are run, otherwise (with auto-continue on) the first ready task of the
/// plan is continued, and otherwise the loop ends.
pub fn decide_turn(
    timed_out: bool,
    llm_timeout_secs: u64,
    iteration: u64,
    has_tool_calls: bool,
    auto_continue: bool,
    ready: &[&Task],
) -> (a: TurnAction)
    requires
        iteration < u64::MAX,
    ensures
        timed_out ==> (a matches TurnAction::TimedOut(m) && m@ == "⚠️ LLM request timed out after "@ + dec(
            llm_timeout_secs as nat,
        ) + "s (iteration "@ + dec((iteration + 1) as nat) + ")."@),
        !timed_out && has_tool_calls ==> a is RunTools,
        !timed_out && !has_tool_calls && auto_continue && ready@.len() > 0 ==> (a matches TurnAction::ContinuePlan {
            notice,
            prompt,
            task_id,
        } && task_id == ready@[0].id && notice@ == "\n\n▶ Auto-continuing plan: #"@ + dec(task_id as nat)
            + " "@ + ready@[0].title@ + "\n\n"@ && prompt@ == continue_prompt(
            task_id,
            ready@[0].title@,
            match ready@[0].agent {
                Some(x) => Some(x@),
                None => None,
            },
        )),
        !timed_out && !has_tool_calls && !(auto_continue && ready@.len() > 0) ==> a == (TurnAction::Finish {
            generate_title: iteration == 0,
        }),
{
    if timed_out {
        return TurnAction::TimedOut(timeout_message(llm_timeout_secs, iteration));
    }
    if has_tool_calls {
        return TurnAction::RunTools;
    }
    if auto_continue && ready.len() > 0 {
        let next: &Task = ready[0];
        let agent: Option<&str> = match &next.agent {
            Some(x) => Some(x.as_str()),
            None => None,
        };
        let notice = auto_continue_notice(next.id, next.title.as_str());
        let prompt = auto_continue_prompt(next.id, next.title.as_str(), agent);
        return TurnAction::ContinuePlan { notice, prompt, task_id: next.id };
    }
    TurnAction::Finish { generate_title: iteration == 0 }
}

/// The names of the tools an agent may call: its own list, or, when that is
/// empty, every tool offered.
pub fn allowed_tool_names(agent_tools: &Vec<String>, defs: &[ToolDefinition]) -> (r: Vec<String>)
    ensures
        strs_view(r@) == if agent_tools@.len() == 0 {
            defs_view(defs@).map_values(|d: crate::types::ToolDefView| d.name)
        } else {
            strs_view(agent_tools@)
        },
{
    if agent_tools.len() > 0 {
        return agent_tools.clone();
    }
    let ghost dv = defs_view(defs@).map_values(|d: crate::types::ToolDefView| d.name);
    let mut out: Vec<String> = Vec::new();
    let mut i: usize = 0;
    while i < defs.len()
        invariant
            i <= defs@.len(),
            dv == defs_view(defs@).map_values(|d: crate::types::ToolDefView| d.name),
            strs_view(out@) == dv.take(i as int),
        decreases defs.len() - i,
    {
        proof {
            assert(defs_view(defs@)[i as int] == defs@[i as int]@);
            assert(dv[i as int] == defs@[i as int].function.name@);
        }
        let ghost before = strs_view(out@);
        out.push(defs[i].function.name.clone());
        assert(strs_view(out@) =~= before.push(dv[i as int]));
        assert(dv.take(i + 1) =~= dv.take(i as int).push(dv[i as int]));
        i = i + 1;
    }
    assert(dv.take(i as int) =~= dv);
    out
}

// ── Session title ──

/// What the title model is told.
pub open spec fn title_instruction() -> Seq<char> {
    "Generate a short session title (3-8 words) for this conversation. Output ONLY the title, no quotes, no punctuation at the end."@
}

/// The request for a session title after the first turn: the instruction,
/// then the user's task and the first 200 characters of the answer.
pub fn title_request(first_user: &str, full_text: &str) -> (r: Vec<Message>)
    ensures
        msgs_view(r@) == seq![
            plain(Role::System, title_instruction()),
            plain(Role::User, "User: "@ + first_user@ + "\nAssistant: "@ + full_text@.take(
                if full_text@.len() < 200 { full_text@.len() as int } else { 200 },
            )),
        ],
{
    let cs = chars_of(full_text);
    let n = if cs.len() < 200 {
        cs.len()
    } else {
        200
    };
    let reply = string_of_range(&cs, 0, n);
    let mut user = to_string("User: ");
    push_str(&mut user, first_user);
    push_str(&mut user, "\nAssistant: ");
    push_str(&mut user, reply.as_str());
    let r = vec![
        Message::text(
            Role::System,
            to_string(
                "Generate a short session title (3-8 words) for this conversation. Output ONLY the title, no quotes, no punctuation at the end.",
            ),
        ),
        Message::text(Role::User, user),
    ];
    assert(msgs_view(r@) =~= seq![
        plain(Role::System, title_instruction()),
        plain(Role::User, "User: "@ + first_user@ + "\nAssistant: "@ + full_text@.take(n as int)),
    ]);
    r
}

/// Take in one event of the title answer: text is appended until `Done`,
/// other events are passed over. Says whether the answer is complete.
pub fn absorb_title_event(title: &mut String, ev: ProviderEvent) -> (done: bool)
    ensures
        match ev@ {
            EventView::Text(c) => !done && final(title)@ == old(title)@ + c,
            EventView::Done => done && *final(title) == *old(title),
            _ => !done && *final(title) == *old(title),
        },
{
    match ev {
        ProviderEvent::Text(t) => {
            push_str(title, t.as_str());
            false
        },
        ProviderEvent::Done => true,
        _ => false,
    }
}

/// The title to show: the answer trimmed, if it is not empty and shorter
/// than 80 bytes.
pub fn accept_title(raw: &str) -> (r: Option<String>)
    ensures
        match r {
            Some(t) => t@ == trim(raw@) && trim(raw@).len() > 0 && utf8_len(trim(raw@)) < 80,
            None => trim(raw@).len() == 0 || utf8_len(trim(raw@)) >= 80,
        },
{
    let t = trimmed(raw);
    if t.unicode_len() > 0 && byte_len(t.as_str()) < 80 {
        Some(t)
    } else {
        None
    }
}

// ── Compressing the history ──

/// What compression does with the history.
#[derive(Debug, Clone)]
pub enum CompressPlan {
    /// The history fits: leave it.
    Keep,
    /// The messages `1..split_at` hold no text: drop them.
    DropEmpty(usize),
    /// Summarise messages `1..split_at`, whose text is given.
    Summarise(usize, String),
}

/// Model of a compression plan.
pub enum CompressModel {
    Keep,
    DropEmpty(nat),
    Summarise(nat, Seq<char>),
}

/// The plan for a history, given the token threshold: split where
/// [`split_point`] says, and drop the older messages when they hold no text.
pub open spec fn compress_plan(ms: Seq<MessageView>, threshold: nat) -> CompressModel {
    match split_point(clamp_usize(total_tokens(ms)), threshold, ms.len()) {
        None => CompressModel::Keep,
        Some(s) => {
            let t = join(range_lines(ms.subrange(1, s as int)), "\n"@);
            if trim(t).len() == 0 {
                CompressModel::DropEmpty(s)
            } else {
                CompressModel::Summarise(s, t)
            }
        },
    }
}

/// Decide how to compress the conversation's history; `threshold` is the
/// token budget (a fraction of the context window, worked out by the caller).
pub fn plan_compression(conv: &Conversation, threshold: usize) -> (p: CompressPlan)
    ensures
        match compress_plan(conv@.messages, threshold as nat) {
            CompressModel::Keep => p is Keep,
            CompressModel::DropEmpty(s) => p matches CompressPlan::DropEmpty(x) && x == s,
            CompressModel::Summarise(s, t) => p matches CompressPlan::Summarise(x, y) && x == s && y@ == t,
        },
{
    let est = conv.estimate_tokens();
    let ms = conv.messages();
    match compression_split(est, threshold, ms.len()) {
        None => CompressPlan::Keep,
        Some(split_at) => {
            let text = range_text(ms, 1, split_at);
            let t = trimmed(text.as_str());
            if t.unicode_len() == 0 {
                CompressPlan::DropEmpty(split_at)
            } else {
                CompressPlan::Summarise(split_at, text)
            }
        },
    }
}

/// What the summariser is told.
pub open spec fn compressor_instruction() -> Seq<char> {
    "You are a conversation compressor. Given a conversation history, produce a concise summary (≤400 words) that preserves:\n1. What files were read/edited and key content found.\n2. What changes were made (edits, writes, commands run).\n3. Current task state and next steps.\n4. Any errors encountered and how they were resolved.\n5. Important decisions or constraints.\nOutput ONLY the summary, no preamble."@
}

/// The request that summarises the older messages' text.
pub fn compression_request(range_text: &str) -> (r: Vec<Message>)
    ensures
        msgs_view(r@) == seq![plain(Role::System, compressor_instruction()), plain(Role::User, range_text@)],
{
    let r = vec![
        Message::text(
            Role::System,
            to_string(
                "You are a conversation compressor. Given a conversation history, produce a concise summary (≤400 words) that preserves:\n1. What files were read/edited and key content found.\n2. What changes were made (edits, writes, commands run).\n3. Current task state and next steps.\n4. Any errors encountered and how they were resolved.\n5. Important decisions or constraints.\nOutput ONLY the summary, no preamble.",
            ),
        ),
        Message::text(Role::User, to_string(range_text)),
    ];
    assert(msgs_view(r@) =~= seq![plain(Role::System, compressor_instruction()), plain(Role::User, range_text@)]);
    r
}

/// Take in one event of the summary: text is appended until `Done`; an
/// error replaces the summary with a note of the failure and ends it.
/// Says whether the summary is complete.
pub fn absorb_summary_event(summary: &mut String, ev: ProviderEvent) -> (done: bool)
    ensures
        match ev@ {
            EventView::Text(c) => !done && final(summary)@ == old(summary)@ + c,
            EventView::Done => done && *final(summary) == *old(summary),
            EventView::Error(e) => done && final(summary)@ == "[Context compression failed: "@ + e + "]"@,
            _ => !done && *final(summary) == *old(summary),
        },
{
    match ev {
        ProviderEvent::Text(t) => {
            push_str(summary, t.as_str());
            false
        },
        ProviderEvent::Done => true,
        ProviderEvent::Error(e) => {
            let mut s = to_string("[Context compression failed: ");
            push_str(&mut s, e.as_str());
            push_str(&mut s, "]");
            *summary = s;
            true
        },
        _ => false,
    }
}

/// The history after compression: `messages[1..split_at]` replaced by `note`.
pub open spec fn after_compression(c: crate::conversation::ConversationView, split_at: nat, note: Seq<char>) -> crate::conversation::ConversationView {
    if split_at <= 1 || split_at >= c.messages.len() {
        c
    } else {
        replaced(c, compressed(c.messages, split_at as int, note))
    }
}

/// Drop the text-less messages `1..split_at`; returns how many were dropped.
pub fn drop_empty_range(conv: &mut Conversation, split_at: usize) -> (n: usize)
    requires
        split_at >= 1,
    ensures
        n == split_at - 1,
        final(conv)@ == after_compression(old(conv)@, split_at as nat, "[Context compressed: empty messages dropped]"@),
{
    conv.compress_range(split_at, to_string("[Context compressed: empty messages dropped]"));
    split_at - 1
}

/// Replace messages `1..split_at` by the summary (see [`compressed_note`]);
/// returns how many messages it stands for.
pub fn summarise_range(conv: &mut Conversation, split_at: usize, summary: &str) -> (n: usize)
    requires
        split_at >= 1,
    ensures
        n == split_at - 1,
        final(conv)@ == after_compression(old(conv)@, split_at as nat, compressed_note(n as nat, summary@)),
{
    let n = split_at - 1;
    let note = compressed_summary(n, summary);
    conv.compress_range(split_at, note);
    n
}

/// The notice shown once `count` messages were compressed.
pub fn compressed_notice(count: usize) -> (r: String)
    ensures
        r@ == "[Context compressed: "@ + dec(count as nat) + " messages → summary]\n"@,
{
    let mut r = to_string("[Context compressed: ");
    let n = dec_string(count as u64);
    push_str(&mut r, n.as_str());
    push_str(&mut r, " messages → summary]\n");
    r
}

/// Compression leaves the system message and the six newest messages alone
/// and summarises at least two messages between them.
pub proof fn lemma_compression_keeps_recent(estimate: nat, threshold: nat, len: nat)
    ensures
        split_point(estimate, threshold, len) matches Some(s) ==> 2 < s && s < len && len - s == KEEP_RECENT,
{
}

/// Compression shortens the history: the first message stays, the messages
/// from `split_at` on stay in order, and the rest becomes one summary.
pub proof fn lemma_compression_shrinks(c: crate::conversation::ConversationView, split_at: nat, note: Seq<char>)
    requires
        2 < split_at < c.messages.len(),
    ensures
        after_compression(c, split_at, note).messages.len() == c.messages.len() - split_at + 2,
        after_compression(c, split_at, note).messages.len() < c.messages.len(),
        after_compression(c, split_at, note).messages[0] == c.messages[0],
        after_compression(c, split_at, note).messages[1] == plain(Role::System, note),
        after_compression(c, split_at, note).messages.skip(2) == c.messages.skip(split_at as int),
{
    let ms = after_compression(c, split_at, note).messages;
    assert(ms.skip(2) =~= c.messages.skip(split_at as int));
}

} // verus!
