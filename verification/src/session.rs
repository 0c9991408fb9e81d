//! Saved sessions and the workspace registry.
//!
//! A session is stored as typed records (meta, user, assistant, reasoning,
//! tool, raw); this module rebuilds the model conversation from them, names
//! session files, keeps the registry of workspaces, and filters and sorts
//! session and workspace listings. Reading and writing the files is the
//! caller's part.
use vstd::prelude::*;
use crate::types::{
    msgs_view, opt_view, AgentMode, ContentView, FunctionCall, Message, MessageContent,
    MessageView, Role, ToolCall, ToolCallView, ToolResult,
};
use crate::text::{hex, hex_string, lowercase, push_str, str_eq, to_lowercase, to_string};
use crate::text::lex_le;
use crate::sort::{reverse_vec, reversed, sort_keyed, stable_sort, keyed, ordered, strip_keys, unkeyed, KeyView, SortKey, SortOrder};
use std::hash::{Hash, Hasher};

verus! {

broadcast use vstd::seq_lib::group_seq_properties;

/// Agent mode recorded with a session.
#[derive(Debug, Clone, Copy, PartialEq, Eq, Structural)]
pub enum SessionMode {
    Auto,
    Plan,
    Exec,
}

impl Default for SessionMode {
    fn default() -> (m: SessionMode)
        ensures
            m == SessionMode::Auto,
    {
        SessionMode::Auto
    }
}

/// The session mode of an agent mode.
pub open spec fn mode_of_agent(m: AgentMode) -> SessionMode {
    match m {
        AgentMode::Auto => SessionMode::Auto,
        AgentMode::Plan => SessionMode::Plan,
        AgentMode::Exec => SessionMode::Exec,
    }
}

/// The agent mode of a session mode.
pub open spec fn agent_of_mode(m: SessionMode) -> AgentMode {
    match m {
        SessionMode::Auto => AgentMode::Auto,
        SessionMode::Plan => AgentMode::Plan,
        SessionMode::Exec => AgentMode::Exec,
    }
}

impl From<AgentMode> for SessionMode {
    fn from(m: AgentMode) -> (r: SessionMode) {
        match m {
            AgentMode::Auto => SessionMode::Auto,
            AgentMode::Plan => SessionMode::Plan,
            AgentMode::Exec => SessionMode::Exec,
        }
    }
}

impl vstd::std_specs::convert::FromSpecImpl<AgentMode> for SessionMode {
    open spec fn obeys_from_spec() -> bool {
        true
    }

    open spec fn from_spec(m: AgentMode) -> SessionMode {
        mode_of_agent(m)
    }
}

impl From<SessionMode> for AgentMode {
    fn from(m: SessionMode) -> (r: AgentMode) {
        match m {
            SessionMode::Auto => AgentMode::Auto,
            SessionMode::Plan => AgentMode::Plan,
            SessionMode::Exec => AgentMode::Exec,
        }
    }
}

impl vstd::std_specs::convert::FromSpecImpl<SessionMode> for AgentMode {
    open spec fn obeys_from_spec() -> bool {
        true
    }

    open spec fn from_spec(m: SessionMode) -> AgentMode {
        agent_of_mode(m)
    }
}

/// Converting a mode to the other kind and back gives it back.
pub proof fn lemma_mode_round_trip(m: SessionMode, a: AgentMode)
    ensures
        mode_of_agent(agent_of_mode(m)) == m,
        agent_of_mode(mode_of_agent(a)) == a,
{
}

/// Summary of a saved session, as kept in its first record.
#[derive(Debug, Clone)]
pub struct SessionMeta {
    pub name: String,
    pub created: String,
    pub updated: String,
    pub model: String,
    pub provider: String,
    pub mode: SessionMode,
    pub thinking_effort: String,
    pub description: String,
    pub message_count: usize,
}

/// One record of a saved session.
#[derive(Debug, Clone)]
pub enum SessionItem {
    Meta {
        name: String,
        created: String,
        updated: String,
        model: String,
        provider: String,
        mode: SessionMode,
        thinking_effort: String,
        description: String,
        message_count: usize,
    },
    User { content: String },
    Assistant { content: String },
    Reasoning { content: String },
    Tool { id: String, name: String, args: String, result: Option<String> },
    Raw { lines: Vec<String> },
}

/// Model of a session record; the meta and raw records carry nothing the
/// conversation needs.
pub enum ItemView {
    Meta,
    User(Seq<char>),
    Assistant(Seq<char>),
    Reasoning(Seq<char>),
    Tool { id: Seq<char>, name: Seq<char>, args: Seq<char>, result: Option<Seq<char>> },
    Raw,
}

impl View for SessionItem {
    type V = ItemView;

    open spec fn view(&self) -> ItemView {
        match self {
            SessionItem::Meta { .. } => ItemView::Meta,
            SessionItem::User { content } => ItemView::User(content@),
            SessionItem::Assistant { content } => ItemView::Assistant(content@),
            SessionItem::Reasoning { content } => ItemView::Reasoning(content@),
            SessionItem::Tool { id, name, args, result } => ItemView::Tool {
                id: id@,
                name: name@,
                args: args@,
                result: opt_view(*result),
            },
            SessionItem::Raw { .. } => ItemView::Raw,
        }
    }
}

/// Model of a list of records.
pub open spec fn items_view(v: Seq<SessionItem>) -> Seq<ItemView> {
    v.map_values(|i: SessionItem| i@)
}

impl SessionItem {
    /// The text of a user record.
    pub fn as_user(&self) -> (r: Option<&str>)
        ensures
            match self@ {
                ItemView::User(c) => r matches Some(s) && s@ == c,
                _ => r is None,
            },
    {
        match self {
            SessionItem::User { content } => Some(content.as_str()),
            _ => None,
        }
    }
}

// ── Rebuilding the conversation ──

/// The conversation rebuilt so far, and reasoning waiting for its assistant message.
pub struct Rebuild {
    pub out: Seq<MessageView>,
    pub pending: Option<Seq<char>>,
}

/// The tool call a tool record stands for.
pub open spec fn call_of(id: Seq<char>, name: Seq<char>, args: Seq<char>) -> ToolCallView {
    ToolCallView { id, call_type: "function"@, name, arguments: args }
}

/// An assistant message with text, tool calls and reasoning.
pub open spec fn assistant_msg(
    text: Seq<char>,
    calls: Option<Seq<ToolCallView>>,
    reasoning: Option<Seq<char>>,
) -> MessageView {
    MessageView {
        role: Role::Assistant,
        content: ContentView::Text(text),
        tool_calls: calls,
        tool_call_id: None,
        name: None,
        reasoning_content: reasoning,
    }
}

/// The message holding a tool's result.
pub open spec fn tool_msg(id: Seq<char>, name: Seq<char>, result: Seq<char>) -> MessageView {
    MessageView {
        role: Role::Tool,
        content: ContentView::Text(result),
        tool_calls: None,
        tool_call_id: Some(id),
        name: Some(name),
        reasoning_content: None,
    }
}

/// `out` with a tool call attached: to the last message when it is an
/// assistant message, else to a new empty assistant message that takes the
/// pending reasoning.
pub open spec fn attach_call(st: Rebuild, call: ToolCallView) -> Rebuild {
    if st.out.len() > 0 && st.out.last().role == Role::Assistant {
        let last = st.out.last();
        let calls = match last.tool_calls {
            Some(cs) => cs.push(call),
            None => seq![call],
        };
        Rebuild {
            out: st.out.update(st.out.len() - 1, MessageView { tool_calls: Some(calls), ..last }),
            pending: st.pending,
        }
    } else {
        Rebuild {
            out: st.out.push(assistant_msg(Seq::empty(), Some(seq![call]), st.pending)),
            pending: None,
        }
    }
}

/// One record applied to the rebuild state.
pub open spec fn rebuild_step(st: Rebuild, item: ItemView) -> Rebuild {
    match item {
        ItemView::User(c) => Rebuild { out: st.out.push(crate::types::plain(Role::User, c)), ..st },
        ItemView::Assistant(c) => Rebuild {
            out: st.out.push(assistant_msg(c, None, st.pending)),
            pending: None,
        },
        ItemView::Reasoning(c) => Rebuild {
            pending: Some(
                match st.pending {
                    Some(p) => p + c,
                    None => c,
                },
            ),
            ..st
        },
        ItemView::Tool { id, name, args, result } => {
            let st1 = attach_call(st, call_of(id, name, args));
            match result {
                Some(r) => Rebuild { out: st1.out.push(tool_msg(id, name, r)), ..st1 },
                None => st1,
            }
        },
        _ => st,
    }
}

/// The records applied in order, from an empty state.
pub open spec fn rebuild_fold(items: Seq<ItemView>) -> Rebuild
    decreases items.len(),
{
    if items.len() == 0 {
        Rebuild { out: Seq::empty(), pending: None }
    } else {
        rebuild_step(rebuild_fold(items.drop_last()), items.last())
    }
}

/// Reasoning still pending at the end goes to the last message when it is an
/// assistant message without reasoning; otherwise it is dropped.
pub open spec fn rebuild_finish(st: Rebuild) -> Seq<MessageView> {
    match st.pending {
        Some(r) => if st.out.len() > 0 && st.out.last().role == Role::Assistant
            && st.out.last().reasoning_content is None {
            st.out.update(st.out.len() - 1, MessageView { reasoning_content: Some(r), ..st.out.last() })
        } else {
            st.out
        },
        None => st.out,
    }
}

/// The conversation a list of records stands for.
pub open spec fn rebuilt(items: Seq<ItemView>) -> Seq<MessageView> {
    rebuild_finish(rebuild_fold(items))
}

/// A tool call built from strings.
fn make_call(id: &String, name: &String, args: &String) -> (c: ToolCall)
    ensures
        c@ == call_of(id@, name@, args@),
{
    proof {
        reveal_strlit("function");
    }
    ToolCall {
        id: id.clone(),
        call_type: to_string("function"),
        function: FunctionCall { name: name.clone(), arguments: args.clone() },
    }
}

/// Rebuild the model conversation from saved records: user and assistant
/// records become messages, reasoning goes to the next assistant message, a
/// tool record adds a call to the last assistant message (or to a new one)
/// followed by its result, and meta and raw records are dropped.
pub fn items_to_messages(items: &[SessionItem]) -> (r: Vec<Message>)
    ensures
        msgs_view(r@) == rebuilt(items_view(items@)),
{
    let ghost iv = items_view(items@);
    let mut out: Vec<Message> = Vec::new();
    let mut pending: Option<String> = None;
    let mut i: usize = 0;
    assert(msgs_view(out@) =~= Seq::<MessageView>::empty());
    assert(iv.take(0) =~= Seq::<ItemView>::empty());
    while i < items.len()
        invariant
            i <= items.len(),
            iv == items_view(items@),
            rebuild_fold(iv.take(i as int)) == (Rebuild { out: msgs_view(out@), pending: opt_view(pending) }),
        decreases items.len() - i,
    {
        let ghost st = rebuild_fold(iv.take(i as int));
        proof {
            assert(iv.take(i + 1).drop_last() =~= iv.take(i as int));
            assert(iv.take(i + 1).last() == items@[i as int]@);
        }
        match &items[i] {
            SessionItem::User { content } => {
                let ghost before = out@;
                out.push(Message::text(Role::User, content.clone()));
                assert(msgs_view(out@) =~= msgs_view(before).push(crate::types::plain(Role::User, content@)));
            },
            SessionItem::Assistant { content } => {
                let ghost before = out@;
                let reasoning = pending.take();
                out.push(
                    Message {
                        role: Role::Assistant,
                        content: MessageContent::Text(content.clone()),
                        tool_calls: None,
                        tool_call_id: None,
                        name: None,
                        reasoning_content: reasoning,
                    },
                );
                assert(msgs_view(out@) =~= msgs_view(before).push(assistant_msg(content@, None, st.pending)));
            },
            SessionItem::Reasoning { content } => {
                match pending.take() {
                    Some(p) => {
                        let mut p = p;
                        push_str(&mut p, content.as_str());
                        pending = Some(p);
                    },
                    None => {
                        pending = Some(content.clone());
                    },
                }
            },
            SessionItem::Tool { id, name, args, result } => {
                let call = make_call(id, name, args);
                let ghost before = msgs_view(out@);
                let n = out.len();
                let merge = n > 0 && out[n - 1].role == Role::Assistant;
                if merge {
                    let mut last = out.pop().unwrap();
                    let ghost lv = last@;
                    assert(before.last() == lv);
                    let calls = match last.tool_calls.take() {
                        Some(v) => {
                            let mut v = v;
                            let ghost cv = v@;
                            v.push(call);
                            assert(crate::types::calls_view(v@) =~= crate::types::calls_view(cv).push(
                                call_of(id@, name@, args@),
                            ));
                            v
                        },
                        None => {
                            let v = vec![call];
                            assert(crate::types::calls_view(v@) =~= seq![call_of(id@, name@, args@)]);
                            v
                        },
                    };
                    last.tool_calls = Some(calls);
                    out.push(last);
                    assert(msgs_view(out@) =~= attach_call(st, call_of(id@, name@, args@)).out);
                } else {
                    let reasoning = pending.take();
                    let v = vec![call];
                    assert(crate::types::calls_view(v@) =~= seq![call_of(id@, name@, args@)]);
                    out.push(
                        Message {
                            role: Role::Assistant,
                            content: MessageContent::Text(String::new()),
                            tool_calls: Some(v),
                            tool_call_id: None,
                            name: None,
                            reasoning_content: reasoning,
                        },
                    );
                    assert(msgs_view(out@) =~= attach_call(st, call_of(id@, name@, args@)).out);
                }
                match result {
                    Some(res) => {
                        let ghost mid = msgs_view(out@);
                        out.push(
                            Message {
                                role: Role::Tool,
                                content: MessageContent::Text(res.clone()),
                                tool_calls: None,
                                tool_call_id: Some(id.clone()),
                                name: Some(name.clone()),
                                reasoning_content: None,
                            },
                        );
                        assert(msgs_view(out@) =~= mid.push(tool_msg(id@, name@, res@)));
                    },
                    None => {},
                }
            },
            _ => {},
        }
        i = i + 1;
    }
    assert(iv.take(items.len() as int) =~= iv);
    let ghost st = rebuild_fold(iv);
    match pending.take() {
        Some(reasoning) => {
            let n = out.len();
            if n > 0 && out[n - 1].role == Role::Assistant && out[n - 1].reasoning_content.is_none() {
                let ghost before = msgs_view(out@);
                let mut last = out.pop().unwrap();
                assert(before.last() == last@);
                last.reasoning_content = Some(reasoning);
                out.push(last);
                assert(msgs_view(out@) =~= rebuild_finish(st));
            }
        },
        None => {},
    }
    out
}

/// Meta and raw records change nothing in the rebuilt conversation.
pub proof fn lemma_meta_and_raw_ignored(items: Seq<ItemView>)
    ensures
        rebuilt(items.filter(|i: ItemView| !(i is Meta || i is Raw))) == rebuilt(items),
    decreases items.len(),
{
    lemma_fold_filtered(items);
}

/// The fold over the records without meta and raw ones reaches the same state.
proof fn lemma_fold_filtered(items: Seq<ItemView>)
    ensures
        rebuild_fold(items.filter(|i: ItemView| !(i is Meta || i is Raw))) == rebuild_fold(items),
    decreases items.len(),
{
    let keep = |i: ItemView| !(i is Meta || i is Raw);
    if items.len() > 0 {
        let d = items.drop_last();
        let x = items.last();
        lemma_fold_filtered(d);
        assert(items =~= d.push(x));
        d.lemma_filter_push(x, keep);
        if keep(x) {
            assert(d.filter(keep).push(x).drop_last() =~= d.filter(keep));
        }
    } else {
        reveal(Seq::filter);
    }
}

/// The short result shape of a tool message; `None` for other roles.
pub fn tool_result_from_message(msg: &Message) -> (r: Option<ToolResult>)
    ensures
        match r {
            Some(t) => msg.role == Role::Tool && t.tool_call_id@ == match msg@.tool_call_id {
                Some(id) => id,
                None => Seq::empty(),
            } && t.content@ == crate::types::content_text(msg@.content) && !t.is_error,
            None => msg.role != Role::Tool,
        },
{
    if msg.role != Role::Tool {
        return None;
    }
    let content = match &msg.content {
        MessageContent::Text(s) => s.clone(),
        _ => String::new(),
    };
    let tool_call_id = match &msg.tool_call_id {
        Some(id) => id.clone(),
        None => String::new(),
    };
    Some(ToolResult { tool_call_id, content, is_error: false })
}

// ── Session file names ──

/// What the standard library's default hasher (`DefaultHasher::new`) gives for a string.
pub uninterp spec fn std_hash(s: Seq<char>) -> u64;

/// Hash of a string with `std::collections::hash_map::DefaultHasher`, whose
/// keys are fixed, so equal strings hash alike within a build.
#[verifier::external_body]
fn default_hash(s: &str) -> (h: u64)
    ensures
        h == std_hash(s@),
{
    let mut hasher = std::collections::hash_map::DefaultHasher::new();
    s.hash(&mut hasher);
    hasher.finish()
}

/// The stem of a session's file name: the lower-case hex hash of its name.
pub fn hash_name(name: &str) -> (r: String)
    ensures
        r@ == hex(std_hash(name@) as nat),
{
    hex_string(default_hash(name))
}

/// The name of a workspace's session directory: the hex hash of its
/// canonical path in lower case. Resolving the path is the caller's part.
pub fn workspace_hash(canonical: &str) -> (r: String)
    ensures
        r@ == hex(std_hash(lowercase(canonical@)) as nat),
{
    let lower = to_lowercase(canonical);
    hash_name(lower.as_str())
}

/// `base` joined with a relative path, as `Path::join` does on Unix.
pub open spec fn path_join(base: Seq<char>, rel: Seq<char>) -> Seq<char> {
    if base.len() == 0 {
        rel
    } else if base.last() == '/' {
        base + rel
    } else {
        base + "/"@ + rel
    }
}

/// Where the sessions of all workspaces live, below the home directory.
pub open spec fn sessions_root(home: Seq<char>) -> Seq<char> {
    path_join(home, ".radi/sessions"@)
}

// ── Session files ──

/// Whether a record is the meta record.
pub open spec fn is_meta(i: SessionItem) -> bool {
    i is Meta
}

/// How many records are not meta records.
pub open spec fn count_non_meta(items: Seq<SessionItem>) -> nat
    decreases items.len(),
{
    if items.len() == 0 {
        0
    } else {
        count_non_meta(items.drop_last()) + if is_meta(items.last()) {
            0nat
        } else {
            1nat
        }
    }
}

proof fn lemma_count_non_meta_le(items: Seq<SessionItem>)
    ensures
        count_non_meta(items) <= items.len(),
    decreases items.len(),
{
    if items.len() > 0 {
        lemma_count_non_meta_le(items.drop_last());
    }
}

/// The file name of a session: its name's hash with the `.jsonl` extension.
pub fn session_file_name(name: &str) -> (r: String)
    ensures
        r@ == hex(std_hash(name@) as nat) + ".jsonl"@,
{
    let mut r = hash_name(name);
    push_str(&mut r, ".jsonl");
    r
}

/// The records a session is saved as: a meta record (created and updated
/// now, without description when none is given, counting the records that
/// are not meta) and then the records themselves.
pub fn session_records(
    name: &str,
    items: Vec<SessionItem>,
    model: &str,
    provider: &str,
    mode: SessionMode,
    thinking_effort: &str,
    description: Option<&str>,
    now: String,
) -> (r: Vec<SessionItem>)
    ensures
        r@.len() == items@.len() + 1,
        r@.subrange(1, r@.len() as int) == items@,
        r@[0] matches SessionItem::Meta {
            name: n,
            created: c,
            updated: u,
            model: m,
            provider: p,
            mode: md,
            thinking_effort: e,
            description: d,
            message_count: k,
        } && n@ == name@ && c@ == now@ && u@ == now@ && m@ == model@ && p@ == provider@ && md == mode
            && e@ == thinking_effort@ && d@ == match description {
            Some(x) => x@,
            None => Seq::empty(),
        } && k == count_non_meta(items@),
{
    let ghost iv = items@;
    let mut count: usize = 0;
    let mut i: usize = 0;
    while i < items.len()
        invariant
            i <= items@.len(),
            iv == items@,
            count == count_non_meta(iv.take(i as int)),
            count <= i,
        decreases items.len() - i,
    {
        proof {
            assert(iv.take(i + 1).drop_last() =~= iv.take(i as int));
        }
        let meta = match &items[i] {
            SessionItem::Meta { .. } => true,
            _ => false,
        };
        if !meta {
            count = count + 1;
        }
        i = i + 1;
    }
    assert(iv.take(i as int) =~= iv);
    let description = match description {
        Some(d) => to_string(d),
        None => String::new(),
    };
    let meta = SessionItem::Meta {
        name: to_string(name),
        created: now.clone(),
        updated: now,
        model: to_string(model),
        provider: to_string(provider),
        mode,
        thinking_effort: to_string(thinking_effort),
        description,
        message_count: count,
    };
    let mut r: Vec<SessionItem> = Vec::new();
    r.push(meta);
    assert(iv.len() == items.len());
    let mut rest = items;
    let mut j: usize = 0;
    while rest.len() > 0
        invariant
            j + rest.len() == iv.len(),
            iv.len() <= usize::MAX,
            rest@ == iv.skip(j as int),
            r@.len() == j + 1,
            r@.subrange(1, r@.len() as int) == iv.take(j as int),
            r@[0] == meta,
        decreases rest.len(),
    {
        let x = rest.remove(0);
        proof {
            assert(iv.skip(j as int)[0] == x);
            assert(rest@ =~= iv.skip(j + 1));
        }
        r.push(x);
        assert(r@.subrange(1, r@.len() as int) =~= iv.take(j + 1));
        j = j + 1;
    }
    assert(iv.take(j as int) =~= iv);
    r
}

/// The records other than meta records.
pub open spec fn non_meta(items: Seq<SessionItem>) -> Seq<SessionItem> {
    items.filter(|i: SessionItem| !is_meta(i))
}

/// A saved session read back from its records: the first must be the meta
/// record; later meta records are dropped.
pub fn split_session(records: Vec<SessionItem>) -> (r: Result<(SessionMeta, Vec<SessionItem>), String>)
    ensures
        records@.len() == 0 ==> (r matches Err(e) && e@ == "session file is empty"@),
        records@.len() > 0 && !is_meta(records@[0]) ==> (r matches Err(e) && e@ == "first record is not meta"@),
        records@.len() > 0 && is_meta(records@[0]) ==> (r matches Ok((m, items)) && items@ == non_meta(
            records@.subrange(1, records@.len() as int),
        ) && (records@[0] matches SessionItem::Meta {
            name,
            created,
            updated,
            model,
            provider,
            mode,
            thinking_effort,
            description,
            message_count,
        } && m.name == name && m.created == created && m.updated == updated && m.model == model
            && m.provider == provider && m.mode == mode && m.thinking_effort == thinking_effort
            && m.description == description && m.message_count == message_count)),
{
    if records.len() == 0 {
        return Err(to_string("session file is empty"));
    }
    let ghost all = records@;
    let mut rest = records;
    let first = rest.remove(0);
    let meta = match first {
        SessionItem::Meta {
            name,
            created,
            updated,
            model,
            provider,
            mode,
            thinking_effort,
            description,
            message_count,
        } => SessionMeta {
            name,
            created,
            updated,
            model,
            provider,
            mode,
            thinking_effort,
            description,
            message_count,
        },
        _ => {
            return Err(to_string("first record is not meta"));
        },
    };
    let ghost tail = all.subrange(1, all.len() as int);
    let ghost pred = |i: SessionItem| !is_meta(i);
    assert(rest@ =~= tail);
    let mut out: Vec<SessionItem> = Vec::new();
    let mut k: usize = 0;
    let n = rest.len();
    while rest.len() > 0
        invariant
            k + rest.len() == tail.len() == n,
            rest@ == tail.skip(k as int),
            pred == (|i: SessionItem| !is_meta(i)),
            out@ == tail.take(k as int).filter(pred),
        decreases rest.len(),
    {
        let x = rest.remove(0);
        proof {
            assert(tail.skip(k as int)[0] == x);
            assert(rest@ =~= tail.skip(k + 1));
            assert(tail.take(k + 1) =~= tail.take(k as int).push(x));
            tail.take(k as int).lemma_filter_push(x, pred);
        }
        let keep = match &x {
            SessionItem::Meta { .. } => false,
            _ => true,
        };
        if keep {
            out.push(x);
        }
        k = k + 1;
    }
    assert(tail.take(k as int) =~= tail);
    Ok((meta, out))
}

// ── Session pool ──

/// The sessions of one workspace, kept in one directory.
pub struct SessionPool {
    dir: String,
}

impl SessionPool {
    /// A pool for the given directory.
    pub fn new(dir: &str) -> (p: SessionPool)
        ensures
            p.dir_spec() == dir@,
    {
        SessionPool { dir: to_string(dir) }
    }

    /// The pool of a workspace, given the home directory and the workspace's
    /// canonical path: `~/.radi/sessions/<workspace hash>`.
    pub fn for_workspace(home: &str, canonical: &str) -> (p: SessionPool)
        ensures
            p.dir_spec() == path_join(sessions_root(home@), hex(std_hash(lowercase(canonical@)) as nat)),
    {
        let root = join_path(home, ".radi/sessions");
        let h = workspace_hash(canonical);
        SessionPool { dir: join_path(root.as_str(), h.as_str()) }
    }

    pub closed spec fn dir_spec(&self) -> Seq<char> {
        self.dir@
    }

    /// The pool's directory.
    pub fn dir(&self) -> (r: &str)
        ensures
            r@ == self.dir_spec(),
    {
        self.dir.as_str()
    }
}

/// `base` joined with the relative path `rel`, as `Path::join` does on Unix.
pub fn join_path(base: &str, rel: &str) -> (r: String)
    ensures
        r@ == path_join(base@, rel@),
{
    let mut out = to_string(base);
    if base.unicode_len() > 0 && !ends_with_slash(base) {
        push_str(&mut out, "/");
    }
    push_str(&mut out, rel);
    proof {
        reveal_strlit("/");
    }
    out
}

/// Whether the text's last character is `/`.
fn ends_with_slash(s: &str) -> (b: bool)
    requires
        s@.len() > 0,
    ensures
        b == (s@.last() == '/'),
{
    let n = s.unicode_len();
    s.get_char(n - 1) == '/'
}

// ── Session statistics ──

/// Content metrics of a session's records.
#[derive(Debug, Clone, Default)]
pub struct SessionStats {
    pub user_messages: usize,
    pub assistant_messages: usize,
    pub tool_calls: usize,
    pub tool_results: usize,
    /// Bytes of all contents, tool arguments and results.
    pub total_content_length: usize,
}

/// Number of records satisfying `p`.
pub open spec fn count_items(items: Seq<ItemView>, p: spec_fn(ItemView) -> bool) -> nat
    decreases items.len(),
{
    if items.len() == 0 {
        0
    } else {
        count_items(items.drop_last(), p) + if p(items.last()) {
            1nat
        } else {
            0nat
        }
    }
}

/// Bytes a record contributes to the content length.
pub open spec fn item_bytes(i: ItemView) -> nat {
    match i {
        ItemView::User(c) => crate::text::utf8_len(c),
        ItemView::Assistant(c) => crate::text::utf8_len(c),
        ItemView::Reasoning(c) => crate::text::utf8_len(c),
        ItemView::Tool { args, result, .. } => crate::text::utf8_len(args) + match result {
            Some(r) => crate::text::utf8_len(r),
            None => 0,
        },
        _ => 0,
    }
}

/// Bytes of all records.
pub open spec fn content_bytes(items: Seq<ItemView>) -> nat
    decreases items.len(),
{
    if items.len() == 0 {
        0
    } else {
        content_bytes(items.drop_last()) + item_bytes(items.last())
    }
}

/// Count and size the records of a session; the content length is
/// `usize::MAX` where the true total does not fit.
pub fn content_stats_of(items: &[SessionItem]) -> (r: SessionStats)
    ensures
        r.user_messages == count_items(items_view(items@), |i: ItemView| i is User),
        r.assistant_messages == count_items(items_view(items@), |i: ItemView| i is Assistant),
        r.tool_calls == count_items(items_view(items@), |i: ItemView| i is Tool),
        r.tool_results == count_items(
            items_view(items@),
            |i: ItemView| i matches ItemView::Tool { result: Some(_), .. },
        ),
        r.total_content_length == crate::conversation::clamp_usize(content_bytes(items_view(items@))),
{
    let ghost iv = items_view(items@);
    let mut users: usize = 0;
    let mut assistants: usize = 0;
    let mut calls: usize = 0;
    let mut results: usize = 0;
    let mut bytes: u128 = 0;
    let mut i: usize = 0;
    while i < items.len()
        invariant
            i <= items.len(),
            iv == items_view(items@),
            users == count_items(iv.take(i as int), |i: ItemView| i is User),
            assistants == count_items(iv.take(i as int), |i: ItemView| i is Assistant),
            calls == count_items(iv.take(i as int), |i: ItemView| i is Tool),
            results == count_items(
                iv.take(i as int),
                |i: ItemView| i matches ItemView::Tool { result: Some(_), .. },
            ),
            users <= i,
            assistants <= i,
            calls <= i,
            results <= i,
            bytes <= usize::MAX + 1,
            bytes <= usize::MAX ==> bytes == content_bytes(iv.take(i as int)),
            bytes > usize::MAX ==> content_bytes(iv.take(i as int)) > usize::MAX,
        decreases items.len() - i,
    {
        proof {
            assert(iv.take(i + 1).drop_last() =~= iv.take(i as int));
            assert(iv.take(i + 1).last() == items@[i as int]@);
        }
        let b: u128 = match &items[i] {
            SessionItem::User { content } => {
                users = users + 1;
                crate::text::byte_len(content.as_str())
            },
            SessionItem::Assistant { content } => {
                assistants = assistants + 1;
                crate::text::byte_len(content.as_str())
            },
            SessionItem::Reasoning { content } => crate::text::byte_len(content.as_str()),
            SessionItem::Tool { args, result, .. } => {
                calls = calls + 1;
                let a = crate::text::byte_len(args.as_str());
                match result {
                    Some(r) => {
                        results = results + 1;
                        let rb = crate::text::byte_len(r.as_str());
                        proof {
                            crate::text::lemma_utf8_len_bound(args@);
                            crate::text::lemma_utf8_len_bound(r@);
                        }
                        if rb > usize::MAX as u128 + 1 {
                            usize::MAX as u128 + 2
                        } else {
                            a + rb
                        }
                    },
                    None => a,
                }
            },
            _ => 0,
        };
        if bytes <= usize::MAX as u128 {
            if b > usize::MAX as u128 + 1 - bytes {
                bytes = usize::MAX as u128 + 1;
            } else {
                bytes = bytes + b;
            }
        }
        i = i + 1;
    }
    assert(iv.take(i as int) =~= iv);
    SessionStats {
        user_messages: users,
        assistant_messages: assistants,
        tool_calls: calls,
        tool_results: results,
        total_content_length: if bytes > usize::MAX as u128 {
            usize::MAX
        } else {
            bytes as usize
        },
    }
}

// ── Listing sessions: filters and sorts ──

/// Strategy for picking which session to load.
pub enum UsageChoices {
    /// Most recently updated session.
    Newest,
    /// Least recently updated session.
    Oldest,
    /// A specific session by name.
    Customize(String),
}

/// Sort key for listing sessions.
#[derive(Debug, Clone, Copy, PartialEq, Eq, Structural)]
pub enum SortBy {
    Updated,
    Created,
    Name,
    MessageCount,
    Model,
    Provider,
    Mode,
    ThinkingEffort,
    Description,
    UserMessages,
    AssistantMessages,
    ToolCalls,
    ToolResults,
    TotalContentLength,
}


/// Session filter; each field that is set must match.
pub struct SessionFilter {
    /// Name contains this text, ignoring case.
    pub name_contains: Option<String>,
    /// Model equals this.
    pub model: Option<String>,
    /// Mode equals this.
    pub mode: Option<SessionMode>,
    /// Provider equals this.
    pub provider: Option<String>,
}

/// Whether a sort key needs statistics read from the session files.
pub open spec fn content_sort(by: SortBy) -> bool {
    by == SortBy::UserMessages || by == SortBy::AssistantMessages || by == SortBy::ToolCalls
        || by == SortBy::ToolResults || by == SortBy::TotalContentLength
}

impl SortBy {
    /// Whether this sort needs per-session statistics read from the session files.
    pub fn needs_content(&self) -> (b: bool)
        ensures
            b == content_sort(*self),
    {
        match self {
            SortBy::UserMessages | SortBy::AssistantMessages | SortBy::ToolCalls
            | SortBy::ToolResults | SortBy::TotalContentLength => true,
            _ => false,
        }
    }
}

/// Rank of a mode in the sort order.
pub open spec fn mode_rank(m: SessionMode) -> nat {
    match m {
        SessionMode::Auto => 0,
        SessionMode::Plan => 1,
        SessionMode::Exec => 2,
    }
}

/// Whether `hay` contains `needle`, ignoring case.
pub open spec fn contains_folded(hay: Seq<char>, needle: Seq<char>) -> bool {
    crate::text::contains(crate::text::lowercase(hay), crate::text::lowercase(needle))
}

/// Whether a session passes the filter.
pub open spec fn session_matches(f: SessionFilter, m: SessionMeta) -> bool {
    &&& (f.name_contains matches Some(n) ==> contains_folded(m.name@, n@))
    &&& (f.model matches Some(x) ==> m.model@ == x@)
    &&& (f.mode matches Some(x) ==> m.mode == x)
    &&& (f.provider matches Some(x) ==> m.provider@ == x@)
}

/// `hay` contains `needle`, ignoring case.
fn contains_ignoring_case(hay: &str, needle: &str) -> (b: bool)
    ensures
        b == contains_folded(hay@, needle@),
{
    let h = crate::text::to_lowercase(hay);
    let n = crate::text::to_lowercase(needle);
    crate::text::contains_str(h.as_str(), n.as_str())
}

fn session_matches_exec(f: &SessionFilter, m: &SessionMeta) -> (b: bool)
    ensures
        b == session_matches(*f, *m),
{
    let a = match &f.name_contains {
        Some(n) => contains_ignoring_case(m.name.as_str(), n.as_str()),
        None => true,
    };
    let b = match &f.model {
        Some(x) => m.model == *x,
        None => true,
    };
    let c = match f.mode {
        Some(x) => m.mode == x,
        None => true,
    };
    let d = match &f.provider {
        Some(x) => m.provider == *x,
        None => true,
    };
    a && b && c && d
}

/// Whether a session passes a filter, each set condition checked: its name
/// contains the text ignoring case, and its model, mode and provider equal
/// the ones asked.
pub open spec fn session_passes(filter: Option<SessionFilter>, m: SessionMeta) -> bool {
    filter matches Some(f) ==> {
        &&& (f.name_contains matches Some(n) ==> crate::text::contains(
            crate::text::lowercase(m.name@),
            crate::text::lowercase(n@),
        ))
        &&& (f.model matches Some(x) ==> m.model@ == x@)
        &&& (f.mode matches Some(x) ==> m.mode == x)
        &&& (f.provider matches Some(x) ==> m.provider@ == x@)
    }
}

/// The sessions a filter keeps, in order.
pub open spec fn kept_sessions(sessions: Seq<SessionMeta>, filter: Option<SessionFilter>) -> Seq<SessionMeta> {
    match filter {
        Some(f) => sessions.filter(|m: SessionMeta| session_matches(f, m)),
        None => sessions,
    }
}

/// A session is kept by a filter exactly when it passes every condition set.
pub proof fn lemma_filter_sessions_members(sessions: Seq<SessionMeta>, filter: Option<SessionFilter>, x: SessionMeta)
    ensures
        kept_sessions(sessions, filter).contains(x) <==> (sessions.contains(x) && session_passes(filter, x)),
{
    broadcast use vstd::seq_lib::group_filter_ensures;
    match filter {
        Some(f) => {
            let pr = |m: SessionMeta| session_matches(f, m);
            let g = sessions.filter(pr);
            if g.contains(x) {
                sessions.lemma_filter_contains_rev(pr, x);
                let i = choose|i: int| 0 <= i < g.len() && g[i] == x;
                sessions.lemma_filter_pred(pr, i);
            }
            if sessions.contains(x) && session_passes(filter, x) {
                let k = choose|k: int| 0 <= k < sessions.len() && sessions[k] == x;
                sessions.lemma_filter_contains(pr, k);
            }
        },
        None => {},
    }
}

/// The sessions that pass the filter, in their order; all of them without a filter.
pub fn filter_sessions(sessions: Vec<SessionMeta>, filter: Option<&SessionFilter>) -> (r: Vec<
    SessionMeta,
>)
    ensures
        r@ == match filter {
            Some(f) => sessions@.filter(|m: SessionMeta| session_matches(*f, m)),
            None => sessions@,
        },
        forall|x: SessionMeta|
            #[trigger] r@.contains(x) <==> (sessions@.contains(x) && session_passes(
                match filter {
                    Some(f) => Some(*f),
                    None => None,
                },
                x,
            )),
{
    proof {
        let fo = match filter {
            Some(f) => Some(*f),
            None => None::<SessionFilter>,
        };
        assert forall|x: SessionMeta| #[trigger] kept_sessions(sessions@, fo).contains(x) <==> (sessions@.contains(x)
            && session_passes(fo, x)) by {
            lemma_filter_sessions_members(sessions@, fo, x);
        }
    }
    let ghost fo = match filter {
        Some(f) => Some(*f),
        None => None::<SessionFilter>,
    };
    let ghost sv = sessions@;
    let r = match filter {
        None => sessions,
        Some(f) => {
            let ghost pred = |m: SessionMeta| session_matches(*f, m);
            let ghost all = sessions@;
            let mut rest = sessions;
            let mut out: Vec<SessionMeta> = Vec::new();
            let mut i: usize = 0;
            let n = rest.len();
            while rest.len() > 0
                invariant
                    i + rest.len() == all.len() == n,
                    rest@ == all.skip(i as int),
                    pred == (|m: SessionMeta| session_matches(*f, m)),
                    out@ == all.take(i as int).filter(pred),
                decreases rest.len(),
            {
                let m = rest.remove(0);
                proof {
                    assert(all.skip(i as int)[0] == m);
                    assert(rest@ =~= all.skip(i + 1));
                    assert(all.take(i + 1) =~= all.take(i as int).push(m));
                    all.take(i as int).lemma_filter_push(m, pred);
                }
                if session_matches_exec(f, &m) {
                    out.push(m);
                }
                i = i + 1;
            }
            assert(all.take(i as int) =~= all);
            out
        },
    };
    assert(r@ == kept_sessions(sv, fo));
    r
}

/// The key a session is sorted by; content sorts use its statistic `count`.
pub open spec fn session_key(m: SessionMeta, by: SortBy, count: nat) -> KeyView {
    match by {
        SortBy::Updated => KeyView::Text(m.updated@),
        SortBy::Created => KeyView::Text(m.created@),
        SortBy::Name => KeyView::Text(m.name@),
        SortBy::MessageCount => KeyView::Num(m.message_count as nat),
        SortBy::Model => KeyView::Text(m.model@),
        SortBy::Provider => KeyView::Text(m.provider@),
        SortBy::Mode => KeyView::Num(mode_rank(m.mode)),
        SortBy::ThinkingEffort => KeyView::Text(m.thinking_effort@),
        SortBy::Description => KeyView::Text(m.description@),
        _ => KeyView::Num(count),
    }
}

fn session_key_exec(m: &SessionMeta, by: SortBy, count: usize) -> (k: SortKey)
    ensures
        k@ == session_key(*m, by, count as nat),
{
    match by {
        SortBy::Updated => SortKey::Text(m.updated.clone()),
        SortBy::Created => SortKey::Text(m.created.clone()),
        SortBy::Name => SortKey::Text(m.name.clone()),
        SortBy::MessageCount => SortKey::Num(m.message_count as u64),
        SortBy::Model => SortKey::Text(m.model.clone()),
        SortBy::Provider => SortKey::Text(m.provider.clone()),
        SortBy::Mode => SortKey::Num(
            match m.mode {
                SessionMode::Auto => 0,
                SessionMode::Plan => 1,
                SessionMode::Exec => 2,
            },
        ),
        SortBy::ThinkingEffort => SortKey::Text(m.thinking_effort.clone()),
        SortBy::Description => SortKey::Text(m.description.clone()),
        _ => SortKey::Num(count as u64),
    }
}

/// Sessions paired with their keys.
pub open spec fn sessions_keyed(ms: Seq<SessionMeta>, by: SortBy, counts: Seq<usize>) -> Seq<
    (SessionMeta, KeyView),
> {
    Seq::new(ms.len(), |i: int| (ms[i], session_key(ms[i], by, counts[i] as nat)))
}

/// Whether session `a` may come before session `b` when sorting by `by`:
/// its creation time, update time, name, model, provider, thinking effort
/// or description is not greater as text, or its message count is not
/// greater. (Other sorts are not compared here.)
pub open spec fn meta_le(by: SortBy, a: SessionMeta, b: SessionMeta) -> bool {
    &&& by == SortBy::Created ==> lex_le(a.created@, b.created@)
    &&& by == SortBy::Updated ==> lex_le(a.updated@, b.updated@)
    &&& by == SortBy::Name ==> lex_le(a.name@, b.name@)
    &&& by == SortBy::Model ==> lex_le(a.model@, b.model@)
    &&& by == SortBy::Provider ==> lex_le(a.provider@, b.provider@)
    &&& by == SortBy::ThinkingEffort ==> lex_le(a.thinking_effort@, b.thinking_effort@)
    &&& by == SortBy::Description ==> lex_le(a.description@, b.description@)
    &&& by == SortBy::MessageCount ==> a.message_count <= b.message_count
}

/// Sorting sessions gives the same sessions, each once as often as before,
/// ordered by the chosen field: ascending, or descending when asked.
pub proof fn lemma_sessions_in_order(ms: Seq<SessionMeta>, by: SortBy, counts: Seq<usize>, order: SortOrder)
    requires
        counts.len() == ms.len(),
    ensures
        ordered(sessions_keyed(ms, by, counts), order).len() == ms.len(),
        forall|x: SessionMeta| #[trigger] ordered(sessions_keyed(ms, by, counts), order).contains(x) <==> ms.contains(x),
        forall|i: int, j: int|
            0 <= i < j < ms.len() ==> if order == SortOrder::Asc {
                meta_le(
                    by,
                    #[trigger] ordered(sessions_keyed(ms, by, counts), order)[i],
                    #[trigger] ordered(sessions_keyed(ms, by, counts), order)[j],
                )
            } else {
                meta_le(by, ordered(sessions_keyed(ms, by, counts), order)[j], ordered(sessions_keyed(ms, by, counts), order)[i])
            },
{
    broadcast use vstd::seq_lib::group_to_multiset_ensures;
    let kv = sessions_keyed(ms, by, counts);
    let o = ordered(kv, order);
    let t = sort_keyed(kv);
    assert(crate::sort::uniform(kv));
    crate::sort::lemma_sort_keyed_correct(kv, KeyView::Num(0));
    assert(t.len() == kv.len()) by {
        assert(t.to_multiset().len() == kv.to_multiset().len());
    }
    assert forall|p: int| 0 <= p < t.len() implies exists|q: int| 0 <= q < ms.len() && #[trigger] t[p] == kv[q] by {
        assert(t.contains(t[p]));
        assert(t.to_multiset().count(t[p]) > 0);
        assert(kv.contains(t[p]));
    }
    assert forall|x: SessionMeta| #[trigger] o.contains(x) <==> ms.contains(x) by {
        crate::sort::lemma_ordered_members(kv, order, x);
        if ms.contains(x) {
            let q = choose|q: int| 0 <= q < ms.len() && ms[q] == x;
            assert(kv[q].0 == x);
        }
    }
    assert forall|i: int, j: int| 0 <= i < j < ms.len() implies (if order == SortOrder::Asc {
        meta_le(by, #[trigger] o[i], #[trigger] o[j])
    } else {
        meta_le(by, o[j], o[i])
    }) by {
        let (a, b) = if order == SortOrder::Asc { (i, j) } else { (t.len() - 1 - j, t.len() - 1 - i) };
        assert(crate::sort::key_le(t[a].1, t[b].1));
        let qa = choose|q: int| 0 <= q < ms.len() && t[a] == kv[q];
        let qb = choose|q: int| 0 <= q < ms.len() && t[b] == kv[q];
        if order == SortOrder::Asc {
            assert(o[i] == t[i].0 && o[j] == t[j].0);
        } else {
            assert(o[i] == t[t.len() - 1 - i].0 && o[j] == t[t.len() - 1 - j].0);
        }
    }
}

/// Sort sessions by a key, keeping the order of equal keys, ascending or
/// descending. Content sorts use `counts`, the statistic of each session in
/// order (zero where its file cannot be read); other sorts ignore it.
pub fn sort_sessions(
    sessions: Vec<SessionMeta>,
    sort_by: SortBy,
    order: SortOrder,
    counts: &Vec<usize>,
) -> (r: Vec<SessionMeta>)
    requires
        counts.len() == sessions.len(),
    ensures
        r@ == ordered(sessions_keyed(sessions@, sort_by, counts@), order),
        r@.len() == sessions@.len(),
        forall|x: SessionMeta| #[trigger] r@.contains(x) <==> sessions@.contains(x),
        forall|i: int, j: int|
            0 <= i < j < r@.len() ==> if order == SortOrder::Asc {
                meta_le(sort_by, #[trigger] r@[i], #[trigger] r@[j])
            } else {
                meta_le(sort_by, r@[j], r@[i])
            },
{
    proof {
        lemma_sessions_in_order(sessions@, sort_by, counts@, order);
    }
    let ghost all = sessions@;
    let n = sessions.len();
    let mut rest = sessions;
    let mut pairs: Vec<(SessionMeta, SortKey)> = Vec::new();
    let mut i: usize = 0;
    while rest.len() > 0
        invariant
            i + rest.len() == all.len() == n == counts.len(),
            rest@ == all.skip(i as int),
            keyed(pairs@) == sessions_keyed(all, sort_by, counts@).take(i as int),
        decreases rest.len(),
    {
        let m = rest.remove(0);
        proof {
            assert(all.skip(i as int)[0] == m);
            assert(rest@ =~= all.skip(i + 1));
        }
        let k = session_key_exec(&m, sort_by, counts[i]);
        let ghost before = keyed(pairs@);
        let ghost kv = k@;
        pairs.push((m, k));
        assert(keyed(pairs@) =~= before.push((m, kv)));
        assert(sessions_keyed(all, sort_by, counts@).take(i + 1) =~= sessions_keyed(all, sort_by, counts@).take(i as int).push((all[i as int], session_key(all[i as int], sort_by, counts@[i as int] as nat))));
        i = i + 1;
    }
    assert(sessions_keyed(all, sort_by, counts@).take(i as int) =~= sessions_keyed(all, sort_by, counts@));
    let sorted = stable_sort(pairs);
    let asc = strip_keys(sorted);
    match order {
        SortOrder::Desc => reverse_vec(asc),
        SortOrder::Asc => asc,
    }
}

/// The session to load for a choice: `Some(name)` of the most recently
/// updated session for `Newest` (the last, among equal timestamps, in listing
/// order), of the least recently updated one for `Oldest` (the first among
/// equal timestamps), the given name for `Customize`, or `None` when there
/// are no sessions.
pub fn choose_session(sessions: Vec<SessionMeta>, choice: UsageChoices) -> (r: Option<String>)
    ensures
        match choice {
            UsageChoices::Customize(name) => r == Some(name),
            UsageChoices::Newest => {
                let s = ordered(sessions_keyed(sessions@, SortBy::Updated, Seq::new(sessions@.len(), |i: int| 0usize)), SortOrder::Desc);
                if s.len() == 0 { r is None } else { r == Some(s[0].name) }
            },
            UsageChoices::Oldest => {
                let s = ordered(sessions_keyed(sessions@, SortBy::Updated, Seq::new(sessions@.len(), |i: int| 0usize)), SortOrder::Asc);
                if s.len() == 0 { r is None } else { r == Some(s[0].name) }
            },
        },
        choice is Newest ==> (sessions@.len() == 0 <==> r is None),
        choice is Oldest ==> (sessions@.len() == 0 <==> r is None),
        choice is Newest && sessions@.len() > 0 ==> exists|i: int|
            0 <= i < sessions@.len() && r == Some(#[trigger] sessions@[i].name) && forall|j: int|
                0 <= j < sessions@.len() ==> lex_le((#[trigger] sessions@[j]).updated@, sessions@[i].updated@),
        choice is Oldest && sessions@.len() > 0 ==> exists|i: int|
            0 <= i < sessions@.len() && r == Some(#[trigger] sessions@[i].name) && forall|j: int|
                0 <= j < sessions@.len() ==> lex_le(sessions@[i].updated@, (#[trigger] sessions@[j]).updated@),
{
    let desc = match choice {
        UsageChoices::Customize(name) => {
            return Some(name);
        },
        UsageChoices::Newest => true,
        UsageChoices::Oldest => false,
    };
    let mut zeros: Vec<usize> = Vec::new();
    let mut i: usize = 0;
    while i < sessions.len()
        invariant
            i <= sessions.len(),
            zeros@ == Seq::new(i as nat, |j: int| 0usize),
        decreases sessions.len() - i,
    {
        zeros.push(0);
        i = i + 1;
        assert(zeros@ =~= Seq::new(i as nat, |j: int| 0usize));
    }
    let ghost sv = sessions@;
    let order = if desc { SortOrder::Desc } else { SortOrder::Asc };
    let list = sort_sessions(sessions, SortBy::Updated, order, &zeros);
    if list.len() == 0 {
        None
    } else {
        proof {
            let l = list@;
            assert(l.contains(l[0]));
            assert(sv.contains(l[0]));
            let i = choose|i: int| 0 <= i < sv.len() && sv[i] == l[0];
            assert forall|j: int| 0 <= j < sv.len() implies (if desc {
                lex_le((#[trigger] sv[j]).updated@, sv[i].updated@)
            } else {
                lex_le(sv[i].updated@, sv[j].updated@)
            }) by {
                assert(l.contains(sv[j]));
                let k = choose|k: int| 0 <= k < l.len() && l[k] == sv[j];
                if k == 0 {
                    crate::sort::lemma_lex_total(sv[j].updated@, sv[j].updated@);
                } else {
                    assert(meta_le(SortBy::Updated, if desc { l[k] } else { l[0] }, if desc { l[0] } else { l[k] }));
                }
            }
        }
        Some(list[0].name.clone())
    }
}

// ── Workspace registry ──

/// A registered workspace.
#[derive(Debug, Clone)]
pub struct WorkspaceEntry {
    pub name: String,
    pub path: String,
    pub hash: String,
    pub tags: Vec<String>,
    pub pinned: bool,
    pub last_active: String,
}

/// Model of a workspace entry.
pub struct EntryView {
    pub name: Seq<char>,
    pub path: Seq<char>,
    pub hash: Seq<char>,
    pub tags: Seq<Seq<char>>,
    pub pinned: bool,
    pub last_active: Seq<char>,
}

impl View for WorkspaceEntry {
    type V = EntryView;

    open spec fn view(&self) -> EntryView {
        EntryView {
            name: self.name@,
            path: self.path@,
            hash: self.hash@,
            tags: crate::text::strs_view(self.tags@),
            pinned: self.pinned,
            last_active: self.last_active@,
        }
    }
}

/// Model of a list of entries.
pub open spec fn entries_view(v: Seq<WorkspaceEntry>) -> Seq<EntryView> {
    v.map_values(|e: WorkspaceEntry| e@)
}

/// The registry of known workspaces and the active one.
#[derive(Debug, Clone)]
pub struct WorkspaceRegistry {
    pub active: Option<String>,
    pub workspaces: Vec<WorkspaceEntry>,
}

impl Default for WorkspaceRegistry {
    fn default() -> (r: Self)
        ensures
            r.active is None,
            r.workspaces@.len() == 0,
    {
        WorkspaceRegistry { active: None, workspaces: Vec::new() }
    }
}

/// Position of the first entry with the given name.
pub open spec fn first_named(ws: Seq<EntryView>, name: Seq<char>) -> Option<int>
    decreases ws.len(),
{
    if ws.len() == 0 {
        None
    } else {
        match first_named(ws.drop_last(), name) {
            Some(i) => Some(i),
            None => if ws.last().name == name {
                Some(ws.len() - 1)
            } else {
                None
            },
        }
    }
}

/// Position of the first entry with the given hash.
pub open spec fn first_hashed(ws: Seq<EntryView>, hash: Seq<char>) -> Option<int>
    decreases ws.len(),
{
    if ws.len() == 0 {
        None
    } else {
        match first_hashed(ws.drop_last(), hash) {
            Some(i) => Some(i),
            None => if ws.last().hash == hash {
                Some(ws.len() - 1)
            } else {
                None
            },
        }
    }
}

/// The message of an operation on a workspace that is not registered.
pub open spec fn ws_not_found(name: Seq<char>) -> Seq<char> {
    "Workspace '"@ + name + "' not found"@
}

fn ws_not_found_msg(name: &str) -> (r: String)
    ensures
        r@ == ws_not_found(name@),
{
    let mut r = to_string("Workspace '");
    push_str(&mut r, name);
    push_str(&mut r, "' not found");
    proof {
        reveal_strlit("Workspace '");
    }
    r
}

proof fn lemma_first_named_found(ws: Seq<EntryView>, name: Seq<char>, i: int)
    requires
        first_named(ws, name) == Some(i),
    ensures
        0 <= i < ws.len(),
        ws[i].name == name,
    decreases ws.len(),
{
    if ws.len() > 0 {
        match first_named(ws.drop_last(), name) {
            Some(j) => {
                lemma_first_named_found(ws.drop_last(), name, j);
            },
            None => {},
        }
    }
}

proof fn lemma_first_named_at(ws: Seq<EntryView>, name: Seq<char>, i: int)
    requires
        0 <= i < ws.len(),
        ws[i].name == name,
        first_named(ws.take(i), name) is None,
    ensures
        first_named(ws, name) == Some(i),
    decreases ws.len(),
{
    if ws.len() - 1 == i {
        assert(ws.drop_last() =~= ws.take(i));
    } else {
        assert(ws.drop_last().take(i) =~= ws.take(i));
        lemma_first_named_at(ws.drop_last(), name, i);
    }
}

proof fn lemma_first_hashed_at(ws: Seq<EntryView>, hash: Seq<char>, i: int)
    requires
        0 <= i < ws.len(),
        ws[i].hash == hash,
        first_hashed(ws.take(i), hash) is None,
    ensures
        first_hashed(ws, hash) == Some(i),
    decreases ws.len(),
{
    if ws.len() - 1 == i {
        assert(ws.drop_last() =~= ws.take(i));
    } else {
        assert(ws.drop_last().take(i) =~= ws.take(i));
        lemma_first_hashed_at(ws.drop_last(), hash, i);
    }
}

/// Index of the first entry named `name`.
fn index_named(ws: &Vec<WorkspaceEntry>, name: &str) -> (r: Option<usize>)
    ensures
        match r {
            Some(i) => i < ws.len() && first_named(entries_view(ws@), name@) == Some(i as int),
            None => first_named(entries_view(ws@), name@) is None,
        },
{
    let ghost wv = entries_view(ws@);
    let mut i: usize = 0;
    while i < ws.len()
        invariant
            i <= ws.len(),
            wv == entries_view(ws@),
            first_named(wv.take(i as int), name@) is None,
        decreases ws.len() - i,
    {
        proof {
            assert(wv.take(i + 1).drop_last() =~= wv.take(i as int));
        }
        if str_eq(ws[i].name.as_str(), name) {
            proof {
                lemma_first_named_at(wv, name@, i as int);
            }
            return Some(i);
        }
        i = i + 1;
    }
    assert(wv.take(i as int) =~= wv);
    None
}

impl WorkspaceRegistry {
    /// The first workspace with the given name.
    pub fn get(&self, name: &str) -> (r: Option<&WorkspaceEntry>)
        ensures
            match first_named(entries_view(self.workspaces@), name@) {
                Some(i) => r matches Some(e) && e@ == self.workspaces@[i]@,
                None => r is None,
            },
    {
        match index_named(&self.workspaces, name) {
            Some(i) => Some(&self.workspaces[i]),
            None => None,
        }
    }

    /// The first workspace with the given hash.
    pub fn get_by_hash(&self, hash: &str) -> (r: Option<&WorkspaceEntry>)
        ensures
            match first_hashed(entries_view(self.workspaces@), hash@) {
                Some(i) => r matches Some(e) && e@ == self.workspaces@[i]@,
                None => r is None,
            },
    {
        let ghost wv = entries_view(self.workspaces@);
        let mut i: usize = 0;
        while i < self.workspaces.len()
            invariant
                i <= self.workspaces.len(),
                wv == entries_view(self.workspaces@),
                first_hashed(wv.take(i as int), hash@) is None,
            decreases self.workspaces.len() - i,
        {
            proof {
                assert(wv.take(i + 1).drop_last() =~= wv.take(i as int));
            }
            if str_eq(self.workspaces[i].hash.as_str(), hash) {
                proof {
                    lemma_first_hashed_at(wv, hash@, i as int);
                }
                return Some(&self.workspaces[i]);
            }
            i = i + 1;
        }
        assert(wv.take(i as int) =~= wv);
        None
    }

    /// The active workspace's entry, if one is active and registered.
    pub fn active_entry(&self) -> (r: Option<&WorkspaceEntry>)
        ensures
            match self.active {
                Some(a) => match first_named(entries_view(self.workspaces@), a@) {
                    Some(i) => r matches Some(e) && e@ == self.workspaces@[i]@,
                    None => r is None,
                },
                None => r is None,
            },
    {
        match &self.active {
            Some(a) => self.get(a.as_str()),
            None => None,
        }
    }

    /// Unregister every workspace with the given name; it stops being the
    /// active one. Returns whether any was removed.
    pub fn remove(&mut self, name: &str) -> (removed: bool)
        ensures
            entries_view(final(self).workspaces@) == entries_view(old(self).workspaces@).filter(
                |e: EntryView| e.name != name@,
            ),
            removed == (first_named(entries_view(old(self).workspaces@), name@) is Some),
            final(self).active == if removed && (old(self).active matches Some(a) && a@ == name@) {
                None
            } else {
                old(self).active
            },
    {
        let ghost pred = |e: EntryView| e.name != name@;
        let ghost all = entries_view(self.workspaces@);
        let found = index_named(&self.workspaces, name);
        let mut rest = Vec::new();
        std::mem::swap(&mut rest, &mut self.workspaces);
        let n = rest.len();
        let ghost raw = rest@;
        let mut kept: Vec<WorkspaceEntry> = Vec::new();
        let mut i: usize = 0;
        while rest.len() > 0
            invariant
                i + rest.len() == raw.len() == n,
                all == entries_view(raw),
                rest@ == raw.skip(i as int),
                pred == (|e: EntryView| e.name != name@),
                entries_view(kept@) == all.take(i as int).filter(pred),
            decreases rest.len(),
        {
            let e = rest.remove(0);
            proof {
                assert(raw.skip(i as int)[0] == e);
                assert(rest@ =~= raw.skip(i + 1));
                assert(all.take(i + 1) =~= all.take(i as int).push(e@));
                all.take(i as int).lemma_filter_push(e@, pred);
            }
            let ghost before = entries_view(kept@);
            if !str_eq(e.name.as_str(), name) {
                kept.push(e);
                assert(entries_view(kept@) =~= before.push(raw[i as int]@));
            }
            i = i + 1;
        }
        assert(all.take(i as int) =~= all);
        self.workspaces = kept;
        let removed = found.is_some();
        if removed {
            let is_active = match &self.active {
                Some(a) => str_eq(a.as_str(), name),
                None => false,
            };
            if is_active {
                self.active = None;
            }
        }
        removed
    }

    /// Add a tag to the first workspace with the given name, unless it has it already.
    pub fn add_tag(&mut self, name: &str, tag: &str) -> (r: Result<(), String>)
        ensures
            final(self).active == old(self).active,
            match first_named(entries_view(old(self).workspaces@), name@) {
                Some(i) => r is Ok && entries_view(final(self).workspaces@) == entries_view(old(self).workspaces@).update(
                    i,
                    if old(self).workspaces@[i]@.tags.contains(tag@) {
                        old(self).workspaces@[i]@
                    } else {
                        EntryView { tags: old(self).workspaces@[i]@.tags.push(tag@), ..old(self).workspaces@[i]@ }
                    },
                ),
                None => r matches Err(m) && m@ == ws_not_found(name@) && final(self).workspaces@ == old(self).workspaces@,
            },
    {
        let ghost all = entries_view(self.workspaces@);
        match index_named(&self.workspaces, name) {
            None => Err(ws_not_found_msg(name)),
            Some(i) => {
                let mut e = self.workspaces.remove(i);
                let ghost ev = e@;
                let mut present = false;
                let mut j: usize = 0;
                while j < e.tags.len()
                    invariant
                        j <= e.tags.len(),
                        e@ == ev,
                        present == (exists|k: int| 0 <= k < j && ev.tags[k] == tag@),
                    decreases e.tags.len() - j,
                {
                    assert(e.tags@[j as int]@ == ev.tags[j as int]);
                    if str_eq(e.tags[j].as_str(), tag) {
                        present = true;
                    }
                    assert(present == (exists|k: int| 0 <= k < j + 1 && ev.tags[k] == tag@)) by {
                        if exists|k: int| 0 <= k < j + 1 && ev.tags[k] == tag@ {
                            let k = choose|k: int| 0 <= k < j + 1 && ev.tags[k] == tag@;
                            if k < j {
                                assert(exists|k: int| 0 <= k < j && ev.tags[k] == tag@);
                            }
                        }
                    }
                    j = j + 1;
                }
                if !present {
                    e.tags.push(to_string(tag));
                    assert(e@.tags =~= ev.tags.push(tag@));
                }
                proof {
                    if ev.tags.contains(tag@) {
                        let k = choose|k: int| 0 <= k < ev.tags.len() && ev.tags[k] == tag@;
                        assert(present);
                    }
                }
                self.workspaces.insert(i, e);
                assert(entries_view(self.workspaces@) =~= all.update(
                    i as int,
                    if ev.tags.contains(tag@) {
                        ev
                    } else {
                        EntryView { tags: ev.tags.push(tag@), ..ev }
                    },
                ));
                Ok(())
            },
        }
    }

    /// Remove a tag from the first workspace with the given name.
    pub fn remove_tag(&mut self, name: &str, tag: &str) -> (r: Result<(), String>)
        ensures
            final(self).active == old(self).active,
            match first_named(entries_view(old(self).workspaces@), name@) {
                Some(i) => r is Ok && entries_view(final(self).workspaces@) == entries_view(old(self).workspaces@).update(
                    i,
                    EntryView {
                        tags: old(self).workspaces@[i]@.tags.filter(|t: Seq<char>| t != tag@),
                        ..old(self).workspaces@[i]@
                    },
                ),
                None => r matches Err(m) && m@ == ws_not_found(name@) && final(self).workspaces@ == old(self).workspaces@,
            },
    {
        let ghost all = entries_view(self.workspaces@);
        match index_named(&self.workspaces, name) {
            None => Err(ws_not_found_msg(name)),
            Some(i) => {
                let mut e = self.workspaces.remove(i);
                let ghost ev = e@;
                let ghost pred = |t: Seq<char>| t != tag@;
                let mut rest: Vec<String> = Vec::new();
                std::mem::swap(&mut rest, &mut e.tags);
                let ghost raw = rest@;
                let n = rest.len();
                let mut kept: Vec<String> = Vec::new();
                let mut j: usize = 0;
                while rest.len() > 0
                    invariant
                        j + rest.len() == raw.len() == n,
                        ev.tags == crate::text::strs_view(raw),
                        rest@ == raw.skip(j as int),
                        pred == (|t: Seq<char>| t != tag@),
                        crate::text::strs_view(kept@) == ev.tags.take(j as int).filter(pred),
                    decreases rest.len(),
                {
                    let t = rest.remove(0);
                    proof {
                        assert(raw.skip(j as int)[0] == t);
                        assert(rest@ =~= raw.skip(j + 1));
                        assert(ev.tags.take(j + 1) =~= ev.tags.take(j as int).push(t@));
                        ev.tags.take(j as int).lemma_filter_push(t@, pred);
                    }
                    let ghost before = crate::text::strs_view(kept@);
                    if !str_eq(t.as_str(), tag) {
                        kept.push(t);
                        assert(crate::text::strs_view(kept@) =~= before.push(raw[j as int]@));
                    }
                    j = j + 1;
                }
                assert(ev.tags.take(j as int) =~= ev.tags);
                e.tags = kept;
                self.workspaces.insert(i, e);
                assert(entries_view(self.workspaces@) =~= all.update(
                    i as int,
                    EntryView { tags: ev.tags.filter(pred), ..ev },
                ));
                Ok(())
            },
        }
    }

    /// Pin or unpin the first workspace with the given name.
    pub fn set_pinned(&mut self, name: &str, pinned: bool) -> (r: Result<(), String>)
        ensures
            final(self).active == old(self).active,
            match first_named(entries_view(old(self).workspaces@), name@) {
                Some(i) => r is Ok && entries_view(final(self).workspaces@) == entries_view(old(self).workspaces@).update(
                    i,
                    EntryView { pinned, ..old(self).workspaces@[i]@ },
                ),
                None => r matches Err(m) && m@ == ws_not_found(name@) && final(self).workspaces@ == old(self).workspaces@,
            },
    {
        let ghost all = entries_view(self.workspaces@);
        match index_named(&self.workspaces, name) {
            None => Err(ws_not_found_msg(name)),
            Some(i) => {
                let mut e = self.workspaces.remove(i);
                e.pinned = pinned;
                let ghost ev = e@;
                self.workspaces.insert(i, e);
                assert(entries_view(self.workspaces@) =~= all.update(i as int, ev));
                Ok(())
            },
        }
    }
}

/// What `Path::new(p).file_name()` gives for a path: its last component,
/// none for a path ending in `..` or naming the root.
pub uninterp spec fn path_file_name(p: Seq<char>) -> Option<Seq<char>>;

/// The last component of a path, `std::path::Path::file_name` (as text).
#[verifier::external_body]
fn file_name_of(p: &str) -> (r: Option<String>)
    ensures
        opt_view(r) == path_file_name(p@),
{
    std::path::Path::new(p).file_name().map(|n| n.to_string_lossy().to_string())
}

/// The first `n` bytes of a text, as far as whole characters go.
pub open spec fn byte_prefix(s: Seq<char>, n: nat) -> Seq<char> {
    s.take(crate::tool_loop::chars_within(s, n) as int)
}

/// Whether a text has at least `n` bytes and its `n`th byte ends a character,
/// so that slicing it there does not fail.
pub open spec fn cuts_at(s: Seq<char>, n: nat) -> bool {
    crate::text::utf8_len(s) >= n && crate::text::utf8_len(byte_prefix(s, n)) == n
}

/// The name a workspace is registered under when none is given: the last
/// component of its path, or `ws-` and the first eight bytes of its hash.
pub open spec fn default_ws_name(file_name: Option<Seq<char>>, hash: Seq<char>) -> Seq<char> {
    match file_name {
        Some(f) => f,
        None => "ws-"@ + byte_prefix(hash, 8),
    }
}

/// The entry of a newly registered workspace.
pub open spec fn new_entry(name: Seq<char>, path: Seq<char>, hash: Seq<char>, now: Seq<char>) -> EntryView {
    EntryView { name, path, hash, tags: Seq::empty(), pinned: false, last_active: now }
}

/// The text of an optional string.
pub open spec fn opt_text(o: Option<&str>) -> Option<Seq<char>> {
    match o {
        Some(s) => Some(s@),
        None => None,
    }
}

/// `ws-` and the characters of a hash within its first eight bytes.
fn short_ws_name(hash: &str) -> (r: String)
    ensures
        r@ == "ws-"@ + byte_prefix(hash@, 8),
{
    let cs = crate::text::chars_of(hash);
    let k = crate::tool_loop::count_within(&cs, 8);
    let head = crate::text::string_of_range(&cs, 0, k);
    assert(head@ =~= byte_prefix(hash@, 8));
    let mut r = to_string("ws-");
    push_str(&mut r, head.as_str());
    r
}

/// Whether slicing a text after its eighth byte succeeds (see [`cuts_at`]).
fn cuts_at_eight(s: &str) -> (b: bool)
    ensures
        b == cuts_at(s@, 8),
{
    let cs = crate::text::chars_of(s);
    let k = crate::tool_loop::count_within(&cs, 8);
    let head = crate::text::string_of_range(&cs, 0, k);
    assert(head@ =~= byte_prefix(s@, 8));
    crate::text::byte_len(s) >= 8 && crate::text::byte_len(head.as_str()) == 8
}

impl WorkspaceRegistry {
    /// Register a workspace, given its canonical path and hash, the last
    /// component of its path and the time now. A workspace already known by
    /// its hash keeps its entry and name; otherwise it is added under the
    /// given name or [`default_ws_name`]. Returns the name.
    pub fn register_at(
        &mut self,
        canonical: &str,
        hash: &str,
        name: Option<&str>,
        file_name: Option<String>,
        now: String,
    ) -> (r: String)
        requires
            name is None && file_name is None && first_hashed(entries_view(old(self).workspaces@), hash@) is None
                ==> cuts_at(hash@, 8),
        ensures
            final(self).active == old(self).active,
            match first_hashed(entries_view(old(self).workspaces@), hash@) {
                Some(i) => r@ == old(self).workspaces@[i].name@ && final(self).workspaces@ == old(self).workspaces@,
                None => {
                    let n = match name {
                        Some(x) => x@,
                        None => default_ws_name(opt_view(file_name), hash@),
                    };
                    r@ == n && entries_view(final(self).workspaces@) == entries_view(old(self).workspaces@).push(
                        new_entry(n, canonical@, hash@, now@),
                    )
                },
            },
    {
        match self.get_by_hash(hash) {
            Some(existing) => {
                return existing.name.clone();
            },
            None => {},
        }
        let ws_name = match name {
            Some(x) => to_string(x),
            None => match file_name {
                Some(f) => f,
                None => short_ws_name(hash),
            },
        };
        let ghost before = entries_view(self.workspaces@);
        let entry = WorkspaceEntry {
            name: ws_name.clone(),
            path: to_string(canonical),
            hash: to_string(hash),
            tags: Vec::new(),
            pinned: false,
            last_active: now,
        };
        proof {
            assert(crate::text::strs_view(entry.tags@) =~= Seq::<Seq<char>>::empty());
        }
        self.workspaces.push(entry);
        assert(entries_view(self.workspaces@) =~= before.push(new_entry(ws_name@, canonical@, hash@, entry.last_active@)));
        ws_name
    }

    /// Register a workspace by its canonical path (see [`WorkspaceRegistry::register_at`]),
    /// stamped with the local time. `None`, with nothing changed, when the
    /// workspace is new, no name is given, its path has no last component and
    /// its hash is shorter than eight characters (no name can be made then).
    pub fn register(&mut self, canonical: &str, name: Option<&str>) -> (r: Option<String>)
        ensures
            final(self).active == old(self).active,
            r is None ==> final(self).workspaces@ == old(self).workspaces@,
            ({
                let h = hex(std_hash(lowercase(canonical@)) as nat);
                match first_hashed(entries_view(old(self).workspaces@), h) {
                    Some(i) => r matches Some(x) && x@ == old(self).workspaces@[i].name@,
                    None => match name {
                        Some(n) => r matches Some(x) && x@ == n@ && entries_view(final(self).workspaces@).drop_last()
                            == entries_view(old(self).workspaces@),
                        None => match path_file_name(canonical@) {
                            Some(f) => r matches Some(x) && x@ == f,
                            None => if cuts_at(h, 8) {
                                r matches Some(x) && x@ == "ws-"@ + byte_prefix(h, 8)
                            } else {
                                r is None
                            },
                        },
                    },
                }
            }),
    {
        let hash = workspace_hash(canonical);
        let file_name = file_name_of(canonical);
        if name.is_none() && file_name.is_none() && !cuts_at_eight(hash.as_str()) && self.get_by_hash(hash.as_str()).is_none() {
            return None;
        }
        proof {
            reveal_strlit("%Y-%m-%dT%H:%M:%S");
        }
        let now = crate::clock::local_time("%Y-%m-%dT%H:%M:%S");
        Some(self.register_at(canonical, hash.as_str(), name, file_name, now))
    }

    /// Make the first workspace with the given name the active one and stamp
    /// it with `now`.
    pub fn switch_at(&mut self, name: &str, now: String) -> (r: Result<(), String>)
        ensures
            match first_named(entries_view(old(self).workspaces@), name@) {
                Some(i) => r is Ok && (final(self).active matches Some(a) && a@ == name@)
                    && entries_view(final(self).workspaces@) == entries_view(old(self).workspaces@).update(
                    i,
                    EntryView { last_active: now@, ..old(self).workspaces@[i]@ },
                ),
                None => r matches Err(m) && m@ == ws_not_found(name@) && *final(self) == *old(self),
            },
    {
        let ghost all = entries_view(self.workspaces@);
        match index_named(&self.workspaces, name) {
            None => Err(ws_not_found_msg(name)),
            Some(i) => {
                self.active = Some(to_string(name));
                let mut e = self.workspaces.remove(i);
                e.last_active = now;
                let ghost ev = e@;
                self.workspaces.insert(i, e);
                assert(entries_view(self.workspaces@) =~= all.update(i as int, ev));
                Ok(())
            },
        }
    }

    /// Switch to a workspace (see [`WorkspaceRegistry::switch_at`]), stamped with the local time.
    pub fn switch(&mut self, name: &str) -> (r: Result<(), String>)
        ensures
            match first_named(entries_view(old(self).workspaces@), name@) {
                Some(i) => r is Ok && (final(self).active matches Some(a) && a@ == name@)
                    && entries_view(final(self).workspaces@).len() == old(self).workspaces@.len()
                    && entries_view(final(self).workspaces@)[i].name == name@,
                None => r matches Err(m) && m@ == ws_not_found(name@) && *final(self) == *old(self),
            },
    {
        proof {
            reveal_strlit("%Y-%m-%dT%H:%M:%S");
        }
        let now = crate::clock::local_time("%Y-%m-%dT%H:%M:%S");
        let ghost before = entries_view(self.workspaces@);
        let r = self.switch_at(name, now);
        proof {
            if let Some(i) = first_named(before, name@) {
                lemma_first_named_found(before, name@, i);
            }
        }
        r
    }

    /// Add the session directories found on disk that no workspace claims:
    /// each `(hash, inferred name)` whose hash was not registered before is
    /// added with no path, stamped with `now`.
    pub fn discover_at(&mut self, found: Vec<(String, String)>, now: &str)
        ensures
            final(self).active == old(self).active,
            entries_view(final(self).workspaces@) == entries_view(old(self).workspaces@) + found@.filter(
                |f: (String, String)| first_hashed(entries_view(old(self).workspaces@), f.0@) is None,
            ).map_values(|f: (String, String)| new_entry(f.1@, Seq::empty(), f.0@, now@)),
    {
        let ghost known = entries_view(self.workspaces@);
        let ghost pred = |f: (String, String)| first_hashed(known, f.0@) is None;
        let ghost mk = |f: (String, String)| new_entry(f.1@, Seq::empty(), f.0@, now@);
        let n = self.workspaces.len();
        let ghost fv = found@;
        assert(fv.len() == found.len());
        let mut rest = found;
        let mut k: usize = 0;
        let mut added: Vec<WorkspaceEntry> = Vec::new();
        while rest.len() > 0
            invariant
                k + rest.len() == fv.len(),
                fv.len() <= usize::MAX,
                rest@ == fv.skip(k as int),
                entries_view(self.workspaces@) == known,
                self.active == old(self).active,
                self.workspaces@.len() == n,
                pred == (|f: (String, String)| first_hashed(known, f.0@) is None),
                mk == (|f: (String, String)| new_entry(f.1@, Seq::empty(), f.0@, now@)),
                entries_view(added@) == fv.take(k as int).filter(pred).map_values(mk),
            decreases rest.len(),
        {
            let f = rest.remove(0);
            proof {
                assert(fv.skip(k as int)[0] == f);
                assert(rest@ =~= fv.skip(k + 1));
                assert(fv.take(k + 1) =~= fv.take(k as int).push(f));
                fv.take(k as int).lemma_filter_push(f, pred);
            }
            let known_hash = self.get_by_hash(f.0.as_str()).is_some();
            let ghost before = entries_view(added@);
            if !known_hash {
                let (hash, name) = f;
                let e = WorkspaceEntry {
                    name,
                    path: String::new(),
                    hash,
                    tags: Vec::new(),
                    pinned: false,
                    last_active: to_string(now),
                };
                proof {
                    assert(crate::text::strs_view(e.tags@) =~= Seq::<Seq<char>>::empty());
                }
                added.push(e);
                assert(entries_view(added@) =~= before.push(mk(f)));
                assert(fv.take(k + 1).filter(pred).map_values(mk) =~= fv.take(k as int).filter(pred).map_values(
                    mk,
                ).push(mk(f)));
            } else {
                assert(fv.take(k + 1).filter(pred) == fv.take(k as int).filter(pred));
            }
            k = k + 1;
        }
        assert(fv.take(k as int) =~= fv);
        let ghost extra = entries_view(added@);
        let mut j: usize = 0;
        let m = added.len();
        let ghost av = added@;
        while added.len() > 0
            invariant
                j + added.len() == m,
                av.len() == m,
                added@ == av.skip(j as int),
                entries_view(self.workspaces@) == known + entries_view(av.take(j as int)),
                self.active == old(self).active,
            decreases added.len(),
        {
            let e = added.remove(0);
            proof {
                assert(av.skip(j as int)[0] == e);
                assert(added@ =~= av.skip(j + 1));
            }
            let ghost b = entries_view(self.workspaces@);
            self.workspaces.push(e);
            assert(entries_view(self.workspaces@) =~= b.push(e@));
            assert(entries_view(av.take(j + 1)) =~= entries_view(av.take(j as int)).push(e@));
            j = j + 1;
        }
        assert(av.take(j as int) =~= av);
    }
}

/// The name a discovered workspace gets from its newest session: the name
/// recorded there unless it is empty or made up (`auto-…`), else `ws-` and
/// the first eight bytes of its hash (all of a shorter one).
pub open spec fn inferred_name(recorded: Option<Seq<char>>, hash: Seq<char>) -> Seq<char> {
    match recorded {
        Some(n) => if n.len() > 0 && !("auto-"@.is_prefix_of(n)) {
            n
        } else {
            "ws-"@ + byte_prefix(hash, 8)
        },
        None => "ws-"@ + byte_prefix(hash, 8),
    }
}

/// Name a discovered workspace (see [`inferred_name`]); `recorded` is the
/// name in the meta record of its newest session, if one could be read.
/// A hash shorter than eight bytes is taken whole; a longer one is cut
/// after its eighth byte, which must end a character.
pub fn infer_workspace_name(recorded: Option<String>, hash: &str) -> (r: String)
    requires
        crate::text::utf8_len(hash@) >= 8 ==> cuts_at(hash@, 8),
    ensures
        r@ == inferred_name(opt_view(recorded), hash@),
{
    match recorded {
        Some(n) => {
            if n.unicode_len() > 0 && !crate::text::starts_with(n.as_str(), "auto-") {
                return n;
            }
        },
        None => {},
    }
    short_ws_name(hash)
}

// ── Listing workspaces ──

/// Sort key for listing workspaces.
#[derive(Debug, Clone, Copy, PartialEq, Eq, Structural)]
pub enum WorkspaceSortBy {
    Name,
    Path,
    LastActive,
    /// Unpinned before pinned.
    Pinned,
    TagCount,
    SessionCount,
}

/// Workspace filter; each field that is set must match.
pub struct WorkspaceFilter {
    /// Name contains this text, ignoring case.
    pub name_contains: Option<String>,
    /// Path contains this text, ignoring case.
    pub path_contains: Option<String>,
    /// Pinned status equals this.
    pub pinned: Option<bool>,
    /// Has this tag.
    pub has_tag: Option<String>,
}

/// Whether a workspace passes the filter.
pub open spec fn ws_matches(f: WorkspaceFilter, e: EntryView) -> bool {
    &&& (f.name_contains matches Some(n) ==> contains_folded(e.name, n@))
    &&& (f.path_contains matches Some(p) ==> contains_folded(e.path, p@))
    &&& (f.pinned matches Some(p) ==> e.pinned == p)
    &&& (f.has_tag matches Some(t) ==> e.tags.contains(t@))
}

/// The key a workspace is sorted by; `count` is its number of sessions.
pub open spec fn ws_key(e: EntryView, by: WorkspaceSortBy, count: nat) -> KeyView {
    match by {
        WorkspaceSortBy::Name => KeyView::Text(e.name),
        WorkspaceSortBy::Path => KeyView::Text(e.path),
        WorkspaceSortBy::LastActive => KeyView::Text(e.last_active),
        WorkspaceSortBy::Pinned => KeyView::Num(if e.pinned { 1 } else { 0 }),
        WorkspaceSortBy::TagCount => KeyView::Num(e.tags.len()),
        WorkspaceSortBy::SessionCount => KeyView::Num(count),
    }
}

/// Workspaces paired with their session counts.
pub open spec fn ws_pairs(es: Seq<EntryView>, counts: Seq<usize>) -> Seq<(EntryView, nat)> {
    Seq::new(es.len(), |i: int| (es[i], counts[i] as nat))
}

/// The listing: the workspaces that pass the filter, sorted by the key.
pub open spec fn ws_listing(
    es: Seq<EntryView>,
    counts: Seq<usize>,
    filter: Option<WorkspaceFilter>,
    by: WorkspaceSortBy,
    order: SortOrder,
) -> Seq<EntryView> {
    let ps = ws_pairs(es, counts);
    let kept = match filter {
        Some(f) => ps.filter(|p: (EntryView, nat)| ws_matches(f, p.0)),
        None => ps,
    };
    ordered(kept.map_values(|p: (EntryView, nat)| (p.0, ws_key(p.0, by, p.1))), order)
}

/// Whether a workspace passes a filter, each set condition checked:
/// name and path contain the texts ignoring case, pinned status equals,
/// the tag is among its tags.
pub open spec fn ws_passes(filter: Option<WorkspaceFilter>, x: EntryView) -> bool {
    filter matches Some(f) ==> {
        &&& (f.name_contains matches Some(n) ==> crate::text::contains(
            crate::text::lowercase(x.name),
            crate::text::lowercase(n@),
        ))
        &&& (f.path_contains matches Some(p) ==> crate::text::contains(
            crate::text::lowercase(x.path),
            crate::text::lowercase(p@),
        ))
        &&& (f.pinned matches Some(p) ==> x.pinned == p)
        &&& (f.has_tag matches Some(t) ==> x.tags.contains(t@))
    }
}

/// A workspace is listed exactly when it is registered and passes every
/// condition the filter sets, whatever the sort.
pub proof fn lemma_ws_listing_members(
    es: Seq<EntryView>,
    counts: Seq<usize>,
    filter: Option<WorkspaceFilter>,
    by: WorkspaceSortBy,
    order: SortOrder,
    x: EntryView,
)
    requires
        counts.len() == es.len(),
    ensures
        ws_listing(es, counts, filter, by, order).contains(x) <==> (es.contains(x) && ws_passes(filter, x)),
{
    broadcast use vstd::seq_lib::group_filter_ensures;
    let ps = ws_pairs(es, counts);
    let kept = match filter {
        Some(f) => ps.filter(|p: (EntryView, nat)| ws_matches(f, p.0)),
        None => ps,
    };
    let tokey = |p: (EntryView, nat)| (p.0, ws_key(p.0, by, p.1));
    let m = kept.map_values(tokey);
    crate::sort::lemma_ordered_members(m, order, x);
    if ws_listing(es, counts, filter, by, order).contains(x) {
        let i = choose|i: int| 0 <= i < m.len() && (#[trigger] m[i]).0 == x;
        assert(m[i] == tokey(kept[i]));
        match filter {
            Some(f) => {
                let pr = |p: (EntryView, nat)| ws_matches(f, p.0);
                assert(kept.contains(kept[i]));
                ps.lemma_filter_contains_rev(pr, kept[i]);
                ps.lemma_filter_pred(pr, i);
                let k = choose|k: int| 0 <= k < ps.len() && ps[k] == kept[i];
                assert(es[k] == x);
            },
            None => {
                assert(es[i] == x);
            },
        }
    }
    if es.contains(x) && ws_passes(filter, x) {
        let k = choose|k: int| 0 <= k < es.len() && es[k] == x;
        assert(ps[k].0 == x);
        let j: int = match filter {
            Some(f) => {
                let pr = |p: (EntryView, nat)| ws_matches(f, p.0);
                ps.lemma_filter_contains(pr, k);
                choose|j: int| 0 <= j < kept.len() && kept[j] == ps[k]
            },
            None => k,
        };
        assert(m[j] == tokey(kept[j]));
        assert(m[j].0 == x);
    }
}

/// Whether workspace `a` may come before `b` when sorting by `by`: its name,
/// path or last activity is not greater as text, it is unpinned or both are
/// pinned, or it has no more tags. (Session counts are not compared here.)
pub open spec fn ws_le(by: WorkspaceSortBy, a: EntryView, b: EntryView) -> bool {
    &&& by == WorkspaceSortBy::Name ==> lex_le(a.name, b.name)
    &&& by == WorkspaceSortBy::Path ==> lex_le(a.path, b.path)
    &&& by == WorkspaceSortBy::LastActive ==> lex_le(a.last_active, b.last_active)
    &&& by == WorkspaceSortBy::Pinned ==> (a.pinned ==> b.pinned)
    &&& by == WorkspaceSortBy::TagCount ==> a.tags.len() <= b.tags.len()
}

/// A workspace listing is in order of the chosen field: ascending, or
/// descending when asked.
pub proof fn lemma_ws_listing_sorted(
    es: Seq<EntryView>,
    counts: Seq<usize>,
    filter: Option<WorkspaceFilter>,
    by: WorkspaceSortBy,
    order: SortOrder,
)
    requires
        counts.len() == es.len(),
    ensures
        forall|i: int, j: int|
            0 <= i < j < ws_listing(es, counts, filter, by, order).len() ==> if order == SortOrder::Asc {
                ws_le(
                    by,
                    #[trigger] ws_listing(es, counts, filter, by, order)[i],
                    #[trigger] ws_listing(es, counts, filter, by, order)[j],
                )
            } else {
                ws_le(by, ws_listing(es, counts, filter, by, order)[j], ws_listing(es, counts, filter, by, order)[i])
            },
{
    broadcast use vstd::seq_lib::group_to_multiset_ensures;
    let ps = ws_pairs(es, counts);
    let kept = match filter {
        Some(f) => ps.filter(|p: (EntryView, nat)| ws_matches(f, p.0)),
        None => ps,
    };
    let tokey = |p: (EntryView, nat)| (p.0, ws_key(p.0, by, p.1));
    let m = kept.map_values(tokey);
    let t = sort_keyed(m);
    let o = ws_listing(es, counts, filter, by, order);
    assert(crate::sort::uniform(m)) by {
        assert forall|i: int, j: int| 0 <= i < m.len() && 0 <= j < m.len() implies crate::sort::kind(
            #[trigger] m[i].1,
        ) == crate::sort::kind(#[trigger] m[j].1) by {
            assert(m[i] == tokey(kept[i]) && m[j] == tokey(kept[j]));
        }
    }
    crate::sort::lemma_sort_keyed_correct(m, KeyView::Num(0));
    assert(t.len() == m.len()) by {
        assert(t.to_multiset().len() == m.to_multiset().len());
    }
    assert forall|p: int| 0 <= p < t.len() implies exists|q: int| 0 <= q < m.len() && #[trigger] t[p] == m[q] by {
        assert(t.contains(t[p]));
        assert(t.to_multiset().count(t[p]) > 0);
        assert(m.contains(t[p]));
    }
    assert forall|i: int, j: int| 0 <= i < j < o.len() implies (if order == SortOrder::Asc {
        ws_le(by, #[trigger] o[i], #[trigger] o[j])
    } else {
        ws_le(by, o[j], o[i])
    }) by {
        let (a, b) = if order == SortOrder::Asc { (i, j) } else { (t.len() - 1 - j, t.len() - 1 - i) };
        assert(crate::sort::key_le(t[a].1, t[b].1));
        let qa = choose|q: int| 0 <= q < m.len() && t[a] == m[q];
        let qb = choose|q: int| 0 <= q < m.len() && t[b] == m[q];
        assert(m[qa] == tokey(kept[qa]) && m[qb] == tokey(kept[qb]));
        if order == SortOrder::Asc {
            assert(o[i] == t[i].0 && o[j] == t[j].0);
        } else {
            assert(o[i] == t[t.len() - 1 - i].0 && o[j] == t[t.len() - 1 - j].0);
        }
    }
}

impl WorkspaceEntry {
    /// A field-by-field copy.
    pub fn duplicate(&self) -> (r: WorkspaceEntry)
        ensures
            r@ == self@,
    {
        let mut tags: Vec<String> = Vec::new();
        let mut i: usize = 0;
        while i < self.tags.len()
            invariant
                i <= self.tags.len(),
                crate::text::strs_view(tags@) == crate::text::strs_view(self.tags@).take(i as int),
            decreases self.tags.len() - i,
        {
            let ghost before = tags@;
            tags.push(self.tags[i].clone());
            assert(crate::text::strs_view(tags@) =~= crate::text::strs_view(before).push(self.tags@[i as int]@));
            assert(crate::text::strs_view(tags@) =~= crate::text::strs_view(self.tags@).take(i + 1));
            i = i + 1;
        }
        assert(crate::text::strs_view(self.tags@).take(i as int) =~= crate::text::strs_view(self.tags@));
        WorkspaceEntry {
            name: self.name.clone(),
            path: self.path.clone(),
            hash: self.hash.clone(),
            tags,
            pinned: self.pinned,
            last_active: self.last_active.clone(),
        }
    }
}

fn ws_matches_exec(f: &WorkspaceFilter, e: &WorkspaceEntry) -> (b: bool)
    ensures
        b == ws_matches(*f, e@),
{
    let a = match &f.name_contains {
        Some(n) => contains_ignoring_case(e.name.as_str(), n.as_str()),
        None => true,
    };
    let b = match &f.path_contains {
        Some(p) => contains_ignoring_case(e.path.as_str(), p.as_str()),
        None => true,
    };
    let c = match f.pinned {
        Some(p) => e.pinned == p,
        None => true,
    };
    let d = match &f.has_tag {
        Some(t) => {
            let mut found = false;
            let mut i: usize = 0;
            while i < e.tags.len()
                invariant
                    i <= e.tags.len(),
                    found == (exists|k: int| 0 <= k < i && e@.tags[k] == t@),
                decreases e.tags.len() - i,
            {
                assert(e@.tags[i as int] == e.tags@[i as int]@);
                if e.tags[i] == *t {
                    found = true;
                }
                assert(found == (exists|k: int| 0 <= k < i + 1 && e@.tags[k] == t@)) by {
                    if exists|k: int| 0 <= k < i + 1 && e@.tags[k] == t@ {
                        let k = choose|k: int| 0 <= k < i + 1 && e@.tags[k] == t@;
                        if k < i {
                            assert(exists|k: int| 0 <= k < i && e@.tags[k] == t@);
                        }
                    }
                }
                i = i + 1;
            }
            proof {
                if e@.tags.contains(t@) {
                    let k = choose|k: int| 0 <= k < e@.tags.len() && e@.tags[k] == t@;
                    assert(found);
                }
            }
            found
        },
        None => true,
    };
    a && b && c && d
}

fn ws_key_exec(e: &WorkspaceEntry, by: WorkspaceSortBy, count: usize) -> (k: SortKey)
    ensures
        k@ == ws_key(e@, by, count as nat),
{
    match by {
        WorkspaceSortBy::Name => SortKey::Text(e.name.clone()),
        WorkspaceSortBy::Path => SortKey::Text(e.path.clone()),
        WorkspaceSortBy::LastActive => SortKey::Text(e.last_active.clone()),
        WorkspaceSortBy::Pinned => SortKey::Num(if e.pinned { 1 } else { 0 }),
        WorkspaceSortBy::TagCount => SortKey::Num(e.tags.len() as u64),
        WorkspaceSortBy::SessionCount => SortKey::Num(count as u64),
    }
}

/// Model of keyed workspace entries.
pub open spec fn keyed_entries(v: Seq<(WorkspaceEntry, SortKey)>) -> Seq<(EntryView, KeyView)> {
    v.map_values(|p: (WorkspaceEntry, SortKey)| (p.0@, p.1@))
}

/// Workspace listing, filtering and sorting.
pub struct WorkspaceTools;

impl WorkspaceTools {
    /// The registered workspaces that pass the filter (all without one), sorted
    /// by the key, keeping the order of equal keys, ascending or descending.
    /// `session_counts` holds the number of sessions of each registered
    /// workspace, in registry order.
    pub fn list_filtered(
        registry: &WorkspaceRegistry,
        filter: Option<&WorkspaceFilter>,
        sort_by: WorkspaceSortBy,
        order: SortOrder,
        session_counts: &Vec<usize>,
    ) -> (r: Vec<WorkspaceEntry>)
        requires
            session_counts.len() == registry.workspaces.len(),
        ensures
            entries_view(r@) == ws_listing(
                entries_view(registry.workspaces@),
                session_counts@,
                match filter {
                    Some(f) => Some(*f),
                    None => None,
                },
                sort_by,
                order,
            ),
            forall|x: EntryView|
                #[trigger] entries_view(r@).contains(x) <==> (entries_view(registry.workspaces@).contains(x)
                    && ws_passes(
                    match filter {
                        Some(f) => Some(*f),
                        None => None,
                    },
                    x,
                )),
            forall|i: int, j: int|
                0 <= i < j < r@.len() ==> if order == SortOrder::Asc {
                    ws_le(sort_by, #[trigger] r@[i]@, #[trigger] r@[j]@)
                } else {
                    ws_le(sort_by, r@[j]@, r@[i]@)
                },
    {
        proof {
            let fo = match filter {
                Some(f) => Some(*f),
                None => None::<WorkspaceFilter>,
            };
            lemma_ws_listing_sorted(entries_view(registry.workspaces@), session_counts@, fo, sort_by, order);
            assert forall|x: EntryView| #[trigger] ws_listing(
                entries_view(registry.workspaces@),
                session_counts@,
                fo,
                sort_by,
                order,
            ).contains(x) <==> (entries_view(registry.workspaces@).contains(x) && ws_passes(fo, x)) by {
                lemma_ws_listing_members(entries_view(registry.workspaces@), session_counts@, fo, sort_by, order, x);
            }
        }
        let ghost es = entries_view(registry.workspaces@);
        let ghost ps = ws_pairs(es, session_counts@);
        let ghost fopt = match filter {
            Some(f) => Some(*f),
            None => None::<WorkspaceFilter>,
        };
        let ghost pred = |p: (EntryView, nat)| match fopt {
            Some(f) => ws_matches(f, p.0),
            None => true,
        };
        let ghost tokey = |p: (EntryView, nat)| (p.0, ws_key(p.0, sort_by, p.1));
        let mut pairs: Vec<(WorkspaceEntry, SortKey)> = Vec::new();
        let mut i: usize = 0;
        while i < registry.workspaces.len()
            invariant
                i <= registry.workspaces.len() == session_counts.len(),
                es == entries_view(registry.workspaces@),
                ps == ws_pairs(es, session_counts@),
                fopt == match filter {
                    Some(f) => Some(*f),
                    None => None::<WorkspaceFilter>,
                },
                pred == (|p: (EntryView, nat)| match fopt {
                    Some(f) => ws_matches(f, p.0),
                    None => true,
                }),
                tokey == (|p: (EntryView, nat)| (p.0, ws_key(p.0, sort_by, p.1))),
                keyed_entries(pairs@) == ps.take(i as int).filter(pred).map_values(tokey),
            decreases registry.workspaces.len() - i,
        {
            let e = &registry.workspaces[i];
            let ghost p = ps[i as int];
            proof {
                assert(p == (e@, session_counts@[i as int] as nat));
                assert(ps.take(i + 1) =~= ps.take(i as int).push(p));
                ps.take(i as int).lemma_filter_push(p, pred);
            }
            let keep = match filter {
                Some(f) => ws_matches_exec(f, e),
                None => true,
            };
            if keep {
                let ghost before = keyed_entries(pairs@);
                let k = ws_key_exec(e, sort_by, session_counts[i]);
                pairs.push((e.duplicate(), k));
                assert(keyed_entries(pairs@) =~= before.push(tokey(p)));
                assert(ps.take(i as int).filter(pred).push(p).map_values(tokey) =~= ps.take(i as int).filter(pred).map_values(tokey).push(tokey(p)));
            }
            i = i + 1;
        }
        proof {
            assert(ps.take(i as int) =~= ps);
            let kept = match fopt {
                Some(f) => ps.filter(|p: (EntryView, nat)| ws_matches(f, p.0)),
                None => ps,
            };
            match fopt {
                Some(f) => {
                    assert(pred =~= (|p: (EntryView, nat)| ws_matches(f, p.0)));
                },
                None => {
                    lemma_filter_true(ps, pred);
                },
            }
            assert(keyed_entries(pairs@) == kept.map_values(tokey));
            assert(keyed_entries(pairs@) =~= crate::sort::map_items(keyed(pairs@), |w: WorkspaceEntry| w@));
        }
        let ghost kv = keyed(pairs@);
        let sorted = stable_sort(pairs);
        proof {
            crate::sort::lemma_sort_map(kv, |w: WorkspaceEntry| w@);
        }
        let ghost sv = keyed(sorted@);
        let asc = strip_keys(sorted);
        assert(entries_view(asc@) =~= unkeyed(crate::sort::map_items(sv, |w: WorkspaceEntry| w@)));
        let r = match order {
            SortOrder::Desc => {
                let r = reverse_vec(asc);
                assert(entries_view(r@) =~= reversed(entries_view(asc@)));
                r
            },
            SortOrder::Asc => asc,
        };
        assert(entries_view(r@) == ws_listing(es, session_counts@, fopt, sort_by, order));
        assert forall|i: int| 0 <= i < r@.len() implies #[trigger] r@[i]@ == entries_view(r@)[i] by {}
        r
    }
}

/// Filtering by a predicate that holds everywhere keeps everything.
proof fn lemma_filter_true<A>(s: Seq<A>, p: spec_fn(A) -> bool)
    requires
        forall|a: A| #[trigger] p(a),
    ensures
        s.filter(p) == s,
    decreases s.len(),
{
    if s.len() > 0 {
        lemma_filter_true(s.drop_last(), p);
        s.drop_last().lemma_filter_push(s.last(), p);
        assert(s.drop_last().push(s.last()) =~= s);
    } else {
        reveal(Seq::filter);
    }
}

/// Filtering keeps a sequence whose every element satisfies the predicate.
proof fn lemma_filter_all<A>(s: Seq<A>, p: spec_fn(A) -> bool)
    requires
        forall|i: int| 0 <= i < s.len() ==> p(#[trigger] s[i]),
    ensures
        s.filter(p) == s,
    decreases s.len(),
{
    if s.len() > 0 {
        lemma_filter_all(s.drop_last(), p);
        s.drop_last().lemma_filter_push(s.last(), p);
        assert(s.drop_last().push(s.last()) =~= s);
    } else {
        reveal(Seq::filter);
    }
}

/// Saving then loading a session gives its records back: the records a
/// session is saved as (a meta record, then the items) split back into the
/// same items, in order, when no item is itself a meta record.
pub proof fn lemma_saved_items_round_trip(records: Seq<SessionItem>, items: Seq<SessionItem>)
    requires
        records.len() == items.len() + 1,
        records.subrange(1, records.len() as int) == items,
        forall|i: int| 0 <= i < items.len() ==> !is_meta(#[trigger] items[i]),
    ensures
        non_meta(records.subrange(1, records.len() as int)) == items,
{
    lemma_filter_all(items, |i: SessionItem| !is_meta(i));
}


/// Session listing utilities over a pool.
pub struct SessionTools {
    pool: SessionPool,
}

impl SessionTools {
    /// Tools over an existing pool.
    pub fn new(pool: SessionPool) -> (t: SessionTools)
        ensures
            t.pool_spec() == pool,
    {
        SessionTools { pool }
    }

    pub closed spec fn pool_spec(&self) -> SessionPool {
        self.pool
    }

    /// The pool the tools work on.
    pub fn pool(&self) -> (p: &SessionPool)
        ensures
            *p == self.pool_spec(),
    {
        &self.pool
    }
}

/// Registering is idempotent: once a workspace was added under a hash, that
/// hash finds the new entry, so registering it again returns its name and
/// adds nothing.
pub proof fn lemma_register_then_found(ws: Seq<EntryView>, e: EntryView)
    requires
        first_hashed(ws, e.hash) is None,
    ensures
        first_hashed(ws.push(e), e.hash) == Some(ws.len() as int),
{
    assert(ws.push(e).drop_last() =~= ws);
}

} // verus!
