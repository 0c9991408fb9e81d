//! Conversation history of a session: the messages, the queue of messages
//! not yet persisted, token estimates, truncation and context building.
//!
//! Persistence is a compressed JSONL file. Each push queues the message; the
//! caller drains the queue, encodes the lines with [`encode_jsonl`] and
//! appends them; after a reset or a compression [`Conversation::take_rewrite`]
//! says the whole file must be written again.
use vstd::prelude::*;
use crate::types::{
    calls_view, content_text, msgs_view, opt_view, plain, ContentView, Message, MessageContent,
    MessageView, Role, ToolCall, ToolCallView, ToolResult,
};
use crate::text::{
    byte_len, chars_of, dec, dec_string, join, join_strings, push_str, str_eq, string_of_range,
    strs_view, to_string, utf8_len,
};

verus! {

broadcast use vstd::seq_lib::group_seq_properties;

/// The message history of a session.
pub struct Conversation {
    messages: Vec<Message>,
    system_prompt: String,
    jsonl_path: Option<String>,
    seen_files: Vec<(String, u64)>,
    pending: Vec<Message>,
    dirty: u32,
    needs_rewrite: bool,
}

/// Model of a conversation.
pub struct ConversationView {
    pub messages: Seq<MessageView>,
    pub system_prompt: Seq<char>,
    pub jsonl_path: Option<Seq<char>>,
    /// Files the model has read, with the modification time seen then.
    pub seen: Seq<(Seq<char>, u64)>,
    /// Messages pushed since the queue was last drained.
    pub pending: Seq<MessageView>,
    pub dirty: u32,
    pub needs_rewrite: bool,
}

/// Model of a list of (path, modification time) pairs.
pub open spec fn seen_view(v: Seq<(String, u64)>) -> Seq<(Seq<char>, u64)> {
    v.map_values(|p: (String, u64)| (p.0@, p.1))
}

impl View for Conversation {
    type V = ConversationView;

    closed spec fn view(&self) -> ConversationView {
        ConversationView {
            messages: msgs_view(self.messages@),
            system_prompt: self.system_prompt@,
            jsonl_path: opt_view(self.jsonl_path),
            seen: seen_view(self.seen_files@),
            pending: msgs_view(self.pending@),
            dirty: self.dirty,
            needs_rewrite: self.needs_rewrite,
        }
    }
}

// ── Specifications ──

/// Model of an assistant message.
pub open spec fn assistant_view(
    content: Seq<char>,
    calls: Option<Seq<ToolCallView>>,
    reasoning: Option<Seq<char>>,
) -> MessageView {
    MessageView {
        role: Role::Assistant,
        content: ContentView::Text(content),
        tool_calls: calls,
        tool_call_id: None,
        name: None,
        reasoning_content: reasoning,
    }
}

/// Model of a tool-result message answering `call`.
pub open spec fn tool_view(call: ToolCallView, content: Seq<char>) -> MessageView {
    MessageView {
        role: Role::Tool,
        content: ContentView::Text(content),
        tool_calls: None,
        tool_call_id: Some(call.id),
        name: Some(call.name),
        reasoning_content: None,
    }
}

/// The conversation after `m` was pushed: it joins the history and the queue.
pub open spec fn pushed(c: ConversationView, m: MessageView) -> ConversationView {
    ConversationView {
        messages: c.messages.push(m),
        pending: c.pending.push(m),
        dirty: if c.dirty == u32::MAX { 0 } else { (c.dirty + 1) as u32 },
        ..c
    }
}

/// Position of the first entry recorded for `path`, if any.
pub open spec fn seen_index(seen: Seq<(Seq<char>, u64)>, path: Seq<char>) -> Option<int>
    decreases seen.len(),
{
    if seen.len() == 0 {
        None
    } else {
        match seen_index(seen.drop_last(), path) {
            Some(i) => Some(i),
            None => if seen.last().0 == path {
                Some(seen.len() - 1)
            } else {
                None
            },
        }
    }
}

/// The seen files whose current modification time (when it could be read) is later
/// than the one recorded, in the order they were first seen.
pub open spec fn changed_paths(seen: Seq<(Seq<char>, u64)>, current: Seq<Option<u64>>) -> Seq<
    Seq<char>,
>
    decreases seen.len(),
{
    if seen.len() == 0 || current.len() == 0 {
        Seq::empty()
    } else {
        let rest = changed_paths(seen.drop_last(), current.drop_last());
        match current.last() {
            Some(now) => if now > seen.last().1 {
                rest.push(seen.last().0)
            } else {
                rest
            },
            None => rest,
        }
    }
}

/// The note appended to a tool result when files read earlier have changed.
pub open spec fn change_note(changed: Seq<Seq<char>>) -> Seq<char> {
    if changed.len() == 0 {
        Seq::empty()
    } else {
        "\n\n⚠️ Files changed since you last read them: "@ + join(changed, ", "@)
            + ". Re-read before editing if unsure."@
    }
}

/// Characters of a message's text body (zero for multipart bodies).
pub open spec fn text_chars(c: ContentView) -> nat {
    match c {
        ContentView::Text(s) => s.len(),
        ContentView::Parts(_) => 0,
    }
}

/// Bytes of the function names and arguments of a list of tool calls.
pub open spec fn calls_bytes(cs: Seq<ToolCallView>) -> nat
    decreases cs.len(),
{
    if cs.len() == 0 {
        0
    } else {
        calls_bytes(cs.drop_last()) + utf8_len(cs.last().name) + utf8_len(cs.last().arguments)
    }
}

/// Estimated tokens of one message: a quarter of its text, reasoning and tool-call size.
pub open spec fn message_tokens(m: MessageView) -> nat {
    (text_chars(m.content) + match m.reasoning_content {
        Some(r) => r.len(),
        None => 0,
    } + match m.tool_calls {
        Some(cs) => calls_bytes(cs),
        None => 0,
    }) / 4
}

/// Estimated tokens of a list of messages.
pub open spec fn total_tokens(ms: Seq<MessageView>) -> nat
    decreases ms.len(),
{
    if ms.len() == 0 {
        0
    } else {
        total_tokens(ms.drop_last()) + message_tokens(ms.last())
    }
}

/// `n`, or `usize::MAX` where `n` does not fit.
pub open spec fn clamp_usize(n: nat) -> nat {
    if n <= usize::MAX {
        n
    } else {
        usize::MAX as nat
    }
}

/// Text tokens of a message as truncation counts them: a quarter of its text.
pub open spec fn text_tokens(m: MessageView) -> nat {
    text_chars(m.content) / 4
}

/// Text tokens of the last `k` messages.
pub open spec fn tail_tokens(ms: Seq<MessageView>, k: int) -> nat
    decreases k,
{
    if k <= 0 || k > ms.len() {
        0
    } else {
        text_tokens(ms[ms.len() - k]) + tail_tokens(ms, k - 1)
    }
}

/// How many of the newest messages (never the first) fit in `budget`, counting
/// from the newest and stopping at the first that does not fit.
pub open spec fn kept_tail(ms: Seq<MessageView>, budget: nat, k: int) -> int
    decreases ms.len() - 1 - k,
{
    if k < 0 || k >= ms.len() - 1 {
        k
    } else if tail_tokens(ms, k + 1) > budget {
        k
    } else {
        kept_tail(ms, budget, k + 1)
    }
}

/// The history after truncation to a token budget.
pub open spec fn truncated_history(ms: Seq<MessageView>, budget: nat) -> Seq<MessageView> {
    if clamp_usize(total_tokens(ms)) <= budget || ms.len() <= 2 {
        ms
    } else {
        let k = kept_tail(ms, budget, 0);
        seq![ms[0]] + ms.subrange(ms.len() - k, ms.len() as int)
    }
}

/// The messages sent to the model: the system prompt, the history, and the task if any.
pub open spec fn context(system: Seq<char>, ms: Seq<MessageView>, task: Seq<char>) -> Seq<
    MessageView,
> {
    seq![plain(Role::System, system)] + ms + if task.len() > 0 {
        seq![plain(Role::User, task)]
    } else {
        Seq::empty()
    }
}

/// Bytes of the text bodies of a list of messages.
pub open spec fn text_bytes(ms: Seq<MessageView>) -> nat
    decreases ms.len(),
{
    if ms.len() == 0 {
        0
    } else {
        text_bytes(ms.drop_last()) + match ms.last().content {
            ContentView::Text(s) => utf8_len(s),
            ContentView::Parts(_) => 0,
        }
    }
}

/// The note standing for the messages left out of a preview.
pub open spec fn omitted_note(skipped: nat) -> Seq<char> {
    "[... "@ + dec(skipped) + " messages omitted for brevity ...]"@
}

/// A context cut down to its first four and last three messages when it has more
/// than six and its text exceeds `max_chars` bytes.
pub open spec fn previewed(c: Seq<MessageView>, max_chars: nat) -> Seq<MessageView> {
    if c.len() <= 6 || text_bytes(c) <= max_chars {
        c
    } else {
        c.take(4).push(plain(Role::System, omitted_note((c.len() - 6) as nat))) + c.subrange(
            c.len() - 3,
            c.len() as int,
        )
    }
}

/// `s`, or its head and a short piece of its tail around a note, when longer than `max` chars.
pub open spec fn truncated_text(s: Seq<char>, max: nat) -> Seq<char> {
    if s.len() <= max {
        s
    } else {
        let start = s.len() - max / 2;
        s.take((max / 2) as int) + "\n\n... [truncated "@ + dec(s.len()) + " chars → "@ + dec(max)
            + " kept] ...\n\n"@ + s.subrange(start, start + max / 4)
    }
}

/// Short tag of a role in previews.
pub open spec fn role_tag(r: Role) -> Seq<char> {
    match r {
        Role::System => "sys"@,
        Role::User => "user"@,
        Role::Assistant => "asst"@,
        Role::Tool => "tool"@,
    }
}

/// One-line preview of a message.
pub open spec fn preview(m: MessageView) -> Seq<char> {
    "["@ + role_tag(m.role) + "] "@ + truncated_text(content_text(m.content), 200)
}

/// The conversation after its history was replaced wholesale: the queue is
/// discarded and, when it is persisted, the file must be rewritten.
pub open spec fn replaced(c: ConversationView, ms: Seq<MessageView>) -> ConversationView {
    ConversationView {
        messages: ms,
        pending: Seq::empty(),
        dirty: 0,
        needs_rewrite: c.needs_rewrite || c.jsonl_path is Some,
        ..c
    }
}

/// The history after `messages[1..split_at]` was replaced by a summary.
pub open spec fn compressed(ms: Seq<MessageView>, split_at: int, summary: Seq<char>) -> Seq<
    MessageView,
> {
    seq![ms[0], plain(Role::System, summary)] + ms.subrange(split_at, ms.len() as int)
}

// ── Helpers ──

/// Appends copies of `v[lo..hi]` to `out`.
fn extend_range(out: &mut Vec<Message>, v: &Vec<Message>, lo: usize, hi: usize)
    requires
        lo <= hi <= v.len(),
    ensures
        msgs_view(final(out)@) == msgs_view(old(out)@) + msgs_view(v@).subrange(
            lo as int,
            hi as int,
        ),
{
    let ghost start = msgs_view(out@);
    let mut i = lo;
    while i < hi
        invariant
            lo <= i <= hi <= v.len(),
            msgs_view(out@) == start + msgs_view(v@).subrange(lo as int, i as int),
        decreases hi - i,
    {
        let ghost before = out@;
        out.push(v[i].duplicate());
        proof {
            assert(msgs_view(out@) =~= msgs_view(before).push(v@[i as int]@));
            assert(msgs_view(v@).subrange(lo as int, i + 1) =~= msgs_view(v@).subrange(
                lo as int,
                i as int,
            ).push(v@[i as int]@));
        }
        i = i + 1;
    }
}

/// A plain-text message built from a string slice.
fn text_message(role: Role, s: &str) -> (m: Message)
    ensures
        m@ == plain(role, s@),
{
    Message::text(role, to_string(s))
}

/// Bytes of the function names and arguments of tool calls, saturating at `u128::MAX`.
fn calls_size(cs: &Vec<ToolCall>) -> (n: u128)
    ensures
        n as nat == if calls_bytes(calls_view(cs@)) <= u128::MAX {
            calls_bytes(calls_view(cs@))
        } else {
            u128::MAX as nat
        },
{
    let mut n: u128 = 0;
    let mut i: usize = 0;
    while i < cs.len()
        invariant
            i <= cs.len(),
            n as nat == if calls_bytes(calls_view(cs@.take(i as int))) <= u128::MAX {
                calls_bytes(calls_view(cs@.take(i as int)))
            } else {
                u128::MAX as nat
            },
        decreases cs.len() - i,
    {
        let a = byte_len(cs[i].function.name.as_str());
        let b = byte_len(cs[i].function.arguments.as_str());
        proof {
            assert(calls_view(cs@.take(i + 1)).drop_last() =~= calls_view(cs@.take(i as int)));
            assert(calls_view(cs@.take(i + 1)).last() == cs@[i as int]@);
        }
        n = n.saturating_add(a).saturating_add(b);
        i = i + 1;
    }
    assert(cs@.take(cs.len() as int) =~= cs@);
    n
}

/// Characters of a message's text body.
fn text_len(m: &Message) -> (n: usize)
    ensures
        n as nat == text_chars(m@.content),
{
    match &m.content {
        MessageContent::Text(s) => s.as_str().unicode_len(),
        MessageContent::Parts(_) => 0,
    }
}

/// Estimated tokens of one message; exact unless the count exceeds `usize::MAX`.
fn message_size(m: &Message) -> (n: u128)
    ensures
        n == message_tokens(m@) || (n > usize::MAX && message_tokens(m@) > usize::MAX),
{
    let text = text_len(m) as u128;
    let reasoning: u128 = match &m.reasoning_content {
        Some(r) => r.as_str().unicode_len() as u128,
        None => 0,
    };
    let calls: u128 = match &m.tool_calls {
        Some(cs) => calls_size(cs),
        None => 0,
    };
    let sum = text.saturating_add(reasoning).saturating_add(calls);
    sum / 4
}

impl Conversation {
    /// An empty conversation with the given system prompt and optional backing file.
    pub fn new(system_prompt: String, jsonl_path: Option<String>) -> (c: Conversation)
        ensures
            c@.messages == Seq::<MessageView>::empty(),
            c@.system_prompt == system_prompt@,
            c@.jsonl_path == opt_view(jsonl_path),
            c@.seen == Seq::<(Seq<char>, u64)>::empty(),
            c@.pending == Seq::<MessageView>::empty(),
            c@.dirty == 0,
            !c@.needs_rewrite,
    {
        let c = Conversation {
            messages: Vec::new(),
            system_prompt,
            jsonl_path,
            seen_files: Vec::new(),
            pending: Vec::new(),
            dirty: 0,
            needs_rewrite: false,
        };
        assert(msgs_view(c.messages@) =~= Seq::<MessageView>::empty());
        assert(seen_view(c.seen_files@) =~= Seq::<(Seq<char>, u64)>::empty());
        c
    }

    /// Record that the model read `path` when its modification time was `mtime`
    /// (zero when it could not be read).
    pub fn mark_file_seen(&mut self, path: &str, mtime: u64)
        ensures
            final(self)@ == (ConversationView {
                seen: match seen_index(old(self)@.seen, path@) {
                    Some(i) => old(self)@.seen.update(i, (path@, mtime)),
                    None => old(self)@.seen.push((path@, mtime)),
                },
                ..old(self)@
            }),
    {
        let ghost old_seen = seen_view(self.seen_files@);
        let mut i: usize = 0;
        while i < self.seen_files.len()
            invariant
                i <= self.seen_files.len(),
                *self == *old(self),
                old_seen == seen_view(self.seen_files@),
                seen_index(old_seen.take(i as int), path@) is None,
            decreases self.seen_files.len() - i,
        {
            proof {
                assert(old_seen.take(i + 1).drop_last() =~= old_seen.take(i as int));
            }
            if str_eq(self.seen_files[i].0.as_str(), path) {
                proof {
                    lemma_seen_index_prefix(old_seen, path@, i as int);
                }
                self.seen_files.set(i, (to_string(path), mtime));
                assert(seen_view(self.seen_files@) =~= old_seen.update(i as int, (path@, mtime)));
                return ;
            }
            i = i + 1;
        }
        proof {
            assert(old_seen.take(i as int) =~= old_seen);
        }
        self.seen_files.push((to_string(path), mtime));
        assert(seen_view(self.seen_files@) =~= old_seen.push((path@, mtime)));
    }

    /// The files the model has read, with the modification time seen then.
    pub fn seen_files(&self) -> (r: &Vec<(String, u64)>)
        ensures
            seen_view(r@) == self@.seen,
    {
        &self.seen_files
    }

    /// The seen files that changed since they were read, given the current
    /// modification time of each (`None` where it cannot be read).
    pub fn changed_seen_files(&self, current: &Vec<Option<u64>>) -> (r: Vec<String>)
        requires
            current.len() == self@.seen.len(),
        ensures
            strs_view(r@) == changed_paths(self@.seen, current@),
    {
        let ghost seen = seen_view(self.seen_files@);
        let mut r: Vec<String> = Vec::new();
        let mut i: usize = 0;
        while i < current.len()
            invariant
                i <= current.len() == self.seen_files.len(),
                seen == seen_view(self.seen_files@),
                strs_view(r@) == changed_paths(seen.take(i as int), current@.take(i as int)),
            decreases current.len() - i,
        {
            let ghost before = r@;
            proof {
                assert(seen.take(i + 1).drop_last() =~= seen.take(i as int));
                assert(current@.take(i + 1).drop_last() =~= current@.take(i as int));
            }
            match current[i] {
                Some(now) => {
                    if now > self.seen_files[i].1 {
                        r.push(self.seen_files[i].0.clone());
                        assert(strs_view(r@) =~= strs_view(before).push(seen[i as int].0));
                    }
                },
                None => {},
            }
            i = i + 1;
        }
        assert(seen.take(i as int) =~= seen);
        assert(current@.take(i as int) =~= current@);
        r
    }

    // ── Mutation ──
    /// Push a message: it joins the history and the queue of unsaved messages.
    fn push(&mut self, msg: Message)
        ensures
            final(self)@ == pushed(old(self)@, msg@),
    {
        let ghost before = self@;
        let copy = msg.duplicate();
        self.messages.push(msg);
        self.pending.push(copy);
        self.dirty = self.dirty.wrapping_add(1);
        assert(msgs_view(self.messages@) =~= before.messages.push(msg@));
        assert(msgs_view(self.pending@) =~= before.pending.push(msg@));
    }

    /// Append a system message.
    pub fn push_system(&mut self, content: &str)
        ensures
            final(self)@ == pushed(old(self)@, plain(Role::System, content@)),
    {
        self.push(text_message(Role::System, content));
    }

    /// Append a user message.
    pub fn push_user(&mut self, content: &str)
        ensures
            final(self)@ == pushed(old(self)@, plain(Role::User, content@)),
    {
        self.push(text_message(Role::User, content));
    }

    /// Append an assistant message with optional tool calls and reasoning.
    pub fn push_assistant(
        &mut self,
        content: &str,
        tool_calls: Option<Vec<ToolCall>>,
        reasoning: Option<&str>,
    )
        ensures
            final(self)@ == pushed(
                old(self)@,
                assistant_view(
                    content@,
                    match tool_calls {
                        Some(v) => Some(calls_view(v@)),
                        None => None,
                    },
                    match reasoning {
                        Some(r) => Some(r@),
                        None => None,
                    },
                ),
            ),
    {
        let reasoning_content = match reasoning {
            Some(r) => Some(to_string(r)),
            None => None,
        };
        self.push(
            Message {
                role: Role::Assistant,
                content: MessageContent::Text(to_string(content)),
                tool_calls,
                tool_call_id: None,
                name: None,
                reasoning_content,
            },
        );
    }

    /// Append the result of a tool call. When the current modification times of
    /// the seen files are given (one per entry of [`Conversation::seen_files`]),
    /// a note naming those changed since they were read is appended to the result.
    pub fn push_tool_result(
        &mut self,
        call: &ToolCall,
        result: &ToolResult,
        current_mtimes: Option<&Vec<Option<u64>>>,
    )
        requires
            current_mtimes matches Some(v) ==> v.len() == old(self)@.seen.len(),
        ensures
            final(self)@ == pushed(
                old(self)@,
                tool_view(
                    call@,
                    result.content@ + match current_mtimes {
                        Some(v) => change_note(changed_paths(old(self)@.seen, v@)),
                        None => Seq::empty(),
                    },
                ),
            ),
    {
        let mut extra = String::new();
        match current_mtimes {
            Some(v) => {
                let changed = self.changed_seen_files(v);
                if changed.len() > 0 {
                    push_str(&mut extra, "\n\n⚠️ Files changed since you last read them: ");
                    let joined = join_strings(&changed, ", ");
                    push_str(&mut extra, joined.as_str());
                    push_str(&mut extra, ". Re-read before editing if unsure.");
                    assert(extra@ =~= change_note(strs_view(changed@)));
                } else {
                    assert(extra@ =~= change_note(strs_view(changed@)));
                }
            },
            None => {
                assert(extra@ =~= Seq::<char>::empty());
            },
        }
        let mut content = result.content.clone();
        push_str(&mut content, extra.as_str());
        self.push(
            Message {
                role: Role::Tool,
                content: MessageContent::Text(content),
                tool_calls: None,
                tool_call_id: Some(call.id.clone()),
                name: Some(call.function.name.clone()),
                reasoning_content: None,
            },
        );
    }

    // ── Accessors ──
    /// The history, oldest first.
    pub fn messages(&self) -> (r: &[Message])
        ensures
            msgs_view(r@) == self@.messages,
    {
        self.messages.as_slice()
    }

    /// The system prompt.
    pub fn system_prompt(&self) -> (r: &str)
        ensures
            r@ == self@.system_prompt,
    {
        self.system_prompt.as_str()
    }

    /// The backing file, if the conversation is persisted.
    pub fn jsonl_path(&self) -> (r: Option<&str>)
        ensures
            match r {
                Some(p) => self@.jsonl_path == Some(p@),
                None => self@.jsonl_path is None,
            },
    {
        match &self.jsonl_path {
            Some(p) => Some(p.as_str()),
            None => None,
        }
    }

    /// Number of pushes since the queue was last drained (wrapping).
    pub fn dirty(&self) -> (n: u32)
        ensures
            n == self@.dirty,
    {
        self.dirty
    }

    /// Replace the history; queued writes are discarded and the file is to be rewritten.
    pub fn reset_messages(&mut self, messages: Vec<Message>)
        ensures
            final(self)@ == replaced(old(self)@, msgs_view(messages@)),
    {
        self.messages = messages;
        self.pending = Vec::new();
        self.dirty = 0;
        self.needs_rewrite = self.needs_rewrite || self.jsonl_path.is_some();
        assert(msgs_view(self.pending@) =~= Seq::<MessageView>::empty());
    }

    /// Whether the backing file must be written again in full; clears the request.
    pub fn take_rewrite(&mut self) -> (b: bool)
        ensures
            b == old(self)@.needs_rewrite,
            final(self)@ == (ConversationView { needs_rewrite: false, ..old(self)@ }),
    {
        let b = self.needs_rewrite;
        self.needs_rewrite = false;
        b
    }

    /// Remove the queued messages and return them, oldest first; the dirty counter resets.
    pub fn drain_pending(&mut self) -> (r: Vec<Message>)
        ensures
            msgs_view(r@) == old(self)@.pending,
            final(self)@ == (ConversationView { pending: Seq::empty(), dirty: 0, ..old(self)@ }),
    {
        let mut r: Vec<Message> = Vec::new();
        std::mem::swap(&mut r, &mut self.pending);
        self.dirty = 0;
        assert(msgs_view(self.pending@) =~= Seq::<MessageView>::empty());
        r
    }

    /// Replace `messages[1..split_at]` by one system message holding `summary`.
    /// Nothing changes unless `1 < split_at < messages.len()`.
    pub fn compress_range(&mut self, split_at: usize, summary: String)
        ensures
            if split_at <= 1 || split_at >= old(self)@.messages.len() {
                final(self)@ == old(self)@
            } else {
                final(self)@ == replaced(
                    old(self)@,
                    compressed(old(self)@.messages, split_at as int, summary@),
                )
            },
    {
        if split_at <= 1 || split_at >= self.messages.len() {
            return ;
        }
        let ghost ms = msgs_view(self.messages@);
        let mut new_msgs: Vec<Message> = Vec::new();
        new_msgs.push(self.messages[0].duplicate());
        new_msgs.push(Message::text(Role::System, summary));
        assert(msgs_view(new_msgs@) =~= seq![ms[0], plain(Role::System, summary@)]);
        extend_range(&mut new_msgs, &self.messages, split_at, self.messages.len());
        self.reset_messages(new_msgs);
    }

    /// Set or clear the backing file.
    pub fn set_jsonl_path(&mut self, path: Option<String>)
        ensures
            final(self)@ == (ConversationView { jsonl_path: opt_view(path), ..old(self)@ }),
    {
        self.jsonl_path = path;
    }

    // ── Token estimation ──
    /// Rough token count (a token is about four characters), counting text,
    /// reasoning and tool calls; `usize::MAX` if the count does not fit.
    pub fn estimate_tokens(&self) -> (n: usize)
        ensures
            n == clamp_usize(total_tokens(self@.messages)),
    {
        let ghost ms = msgs_view(self.messages@);
        let mut acc: u128 = 0;
        let mut i: usize = 0;
        while i < self.messages.len()
            invariant
                i <= self.messages.len(),
                ms == msgs_view(self.messages@),
                acc <= usize::MAX + 1,
                acc <= usize::MAX ==> acc == total_tokens(ms.take(i as int)),
                acc > usize::MAX ==> total_tokens(ms.take(i as int)) > usize::MAX,
            decreases self.messages.len() - i,
        {
            let t = message_size(&self.messages[i]);
            proof {
                assert(ms.take(i + 1).drop_last() =~= ms.take(i as int));
                assert(ms.take(i + 1).last() == self.messages@[i as int]@);
            }
            if acc <= usize::MAX as u128 {
                if t > usize::MAX as u128 + 1 - acc {
                    acc = usize::MAX as u128 + 1;
                } else {
                    acc = acc + t;
                }
            }
            i = i + 1;
        }
        assert(ms.take(i as int) =~= ms);
        if acc > usize::MAX as u128 {
            usize::MAX
        } else {
            acc as usize
        }
    }

    /// Drop old messages until the text of the kept ones fits in `max_tokens`:
    /// the first message stays, then as many of the newest as fit, counted from
    /// the newest. Nothing changes when the estimate already fits or there are
    /// at most two messages.
    pub fn truncate_to_tokens(&mut self, max_tokens: usize)
        ensures
            final(self)@ == (ConversationView {
                messages: truncated_history(old(self)@.messages, max_tokens as nat),
                ..old(self)@
            }),
    {
        let total = self.estimate_tokens();
        let n = self.messages.len();
        if total <= max_tokens || n <= 2 {
            return ;
        }
        let ghost ms = msgs_view(self.messages@);
        let mut tokens: usize = 0;
        let mut k: usize = 0;
        while k < n - 1
            invariant_except_break
                n == self.messages.len() > 2,
                ms == msgs_view(self.messages@),
                k <= n - 1,
                tokens == tail_tokens(ms, k as int),
                tokens <= max_tokens,
                kept_tail(ms, max_tokens as nat, 0) == kept_tail(ms, max_tokens as nat, k as int),
            ensures
                n == self.messages.len() > 2,
                ms == msgs_view(self.messages@),
                k <= n - 1,
                kept_tail(ms, max_tokens as nat, 0) == k,
            decreases n - 1 - k,
        {
            let t = text_len(&self.messages[n - 1 - k]) / 4;
            assert(ms[n - (k + 1)] == self.messages@[n - 1 - k]@);
            if t > max_tokens - tokens {
                break;
            }
            tokens = tokens + t;
            k = k + 1;
        }
        let mut kept: Vec<Message> = Vec::new();
        kept.push(self.messages[0].duplicate());
        assert(msgs_view(kept@) =~= seq![ms[0]]);
        extend_range(&mut kept, &self.messages, n - k, n);
        self.messages = kept;
    }

    // ── Build context for the model ──
    /// The messages to send: the system prompt, the history, then `task` as a
    /// user message unless it is empty.
    pub fn build_context(&self, task: &str, _workspace: Option<&str>) -> (r: Vec<Message>)
        ensures
            msgs_view(r@) == context(self@.system_prompt, self@.messages, task@),
    {
        let mut msgs: Vec<Message> = Vec::new();
        msgs.push(Message::text(Role::System, self.system_prompt.clone()));
        assert(msgs_view(msgs@) =~= seq![plain(Role::System, self.system_prompt@)]);
        extend_range(&mut msgs, &self.messages, 0, self.messages.len());
        assert(msgs_view(self.messages@).subrange(0, self.messages.len() as int) =~= msgs_view(
            self.messages@,
        ));
        if !task.is_empty() {
            let ghost before = msgs@;
            msgs.push(text_message(Role::User, task));
            assert(msgs_view(msgs@) =~= msgs_view(before).push(plain(Role::User, task@)));
        }
        proof {
            if task@.len() > 0 {
            } else {
                assert(task@ =~= Seq::<char>::empty());
            }
        }
        msgs
    }

    /// Like [`Conversation::build_context`], but a long context (over six messages
    /// and `max_chars` bytes of text) keeps only its first four and last three
    /// messages, with a note saying how many were left out.
    pub fn build_context_with_preview(
        &self,
        task: &str,
        workspace: Option<&str>,
        max_chars: usize,
    ) -> (r: Vec<Message>)
        ensures
            msgs_view(r@) == previewed(
                context(self@.system_prompt, self@.messages, task@),
                max_chars as nat,
            ),
    {
        let msgs = self.build_context(task, workspace);
        let ghost c = msgs_view(msgs@);
        if msgs.len() <= 6 {
            return msgs;
        }
        let mut total: u128 = 0;
        let mut i: usize = 0;
        while i < msgs.len()
            invariant
                i <= msgs.len(),
                c == msgs_view(msgs@),
                total <= usize::MAX + 1,
                total <= usize::MAX ==> total == text_bytes(c.take(i as int)),
                total > usize::MAX ==> text_bytes(c.take(i as int)) > usize::MAX,
            decreases msgs.len() - i,
        {
            let b: u128 = match &msgs[i].content {
                MessageContent::Text(s) => byte_len(s.as_str()),
                MessageContent::Parts(_) => 0,
            };
            proof {
                assert(c.take(i + 1).drop_last() =~= c.take(i as int));
                assert(c.take(i + 1).last() == msgs@[i as int]@);
            }
            if total <= usize::MAX as u128 {
                if b > usize::MAX as u128 + 1 - total {
                    total = usize::MAX as u128 + 1;
                } else {
                    total = total + b;
                }
            }
            i = i + 1;
        }
        assert(c.take(i as int) =~= c);
        if total <= max_chars as u128 {
            return msgs;
        }
        let n = msgs.len();
        let mut result: Vec<Message> = Vec::new();
        extend_range(&mut result, &msgs, 0, 4);
        let skipped = n - 6;
        let mut note = String::new();
        push_str(&mut note, "[... ");
        let num = dec_string(skipped as u64);
        push_str(&mut note, num.as_str());
        push_str(&mut note, " messages omitted for brevity ...]");
        let ghost before = result@;
        result.push(Message::text(Role::System, note));
        assert(msgs_view(result@) =~= msgs_view(before).push(
            plain(Role::System, omitted_note(skipped as nat)),
        ));
        extend_range(&mut result, &msgs, n - 3, n);
        assert(c.take(4) =~= c.subrange(0, 4));
        proof {
            r_eq(msgs_view(result@), c, skipped as nat);
        }
        result
    }

    /// A one-line preview of a message: its role tag and its text, cut down to 200 chars.
    pub fn preview_message(msg: &Message) -> (r: String)
        ensures
            r@ == preview(msg@),
    {
        let role = match msg.role {
            Role::System => "sys",
            Role::User => "user",
            Role::Assistant => "asst",
            Role::Tool => "tool",
        };
        let text = match &msg.content {
            MessageContent::Text(s) => s.as_str(),
            _ => "",
        };
        proof {
            reveal_strlit("");
        }
        let body = Self::truncate_str(text, 200);
        let mut r = String::new();
        push_str(&mut r, "[");
        push_str(&mut r, role);
        push_str(&mut r, "] ");
        push_str(&mut r, body.as_str());
        r
    }

    /// `s` itself when it has at most `max_chars` characters; otherwise its first
    /// half-budget of characters, a note with the lengths, and a quarter-budget
    /// piece starting half a budget before the end.
    pub fn truncate_str(s: &str, max_chars: usize) -> (r: String)
        ensures
            r@ == truncated_text(s@, max_chars as nat),
    {
        let cs = chars_of(s);
        let count = cs.len();
        if count <= max_chars {
            return to_string(s);
        }
        let head = string_of_range(&cs, 0, max_chars / 2);
        let start = count - max_chars / 2;
        let tail = string_of_range(&cs, start, start + max_chars / 4);
        let mut r = String::new();
        push_str(&mut r, head.as_str());
        push_str(&mut r, "\n\n... [truncated ");
        let n1 = dec_string(count as u64);
        push_str(&mut r, n1.as_str());
        push_str(&mut r, " chars → ");
        let n2 = dec_string(max_chars as u64);
        push_str(&mut r, n2.as_str());
        push_str(&mut r, " kept] ...\n\n");
        push_str(&mut r, tail.as_str());
        assert(cs@.subrange(0, (max_chars / 2) as int) =~= s@.take((max_chars / 2) as int));
        r
    }
}

/// The preview's three pieces make up the cut-down context.
proof fn r_eq(result: Seq<MessageView>, c: Seq<MessageView>, skipped: nat)
    requires
        c.len() > 6,
        skipped == c.len() - 6,
        result == c.subrange(0, 4).push(plain(Role::System, omitted_note(skipped))) + c.subrange(
            c.len() - 3,
            c.len() as int,
        ),
    ensures
        result == c.take(4).push(plain(Role::System, omitted_note(skipped))) + c.subrange(
            c.len() - 3,
            c.len() as int,
        ),
{
    assert(c.take(4) =~= c.subrange(0, 4));
}

/// An entry found at `i` before any earlier one is the first entry for the path.
proof fn lemma_seen_index_prefix(seen: Seq<(Seq<char>, u64)>, path: Seq<char>, i: int)
    requires
        0 <= i < seen.len(),
        seen[i].0 == path,
        seen_index(seen.take(i), path) is None,
    ensures
        seen_index(seen, path) == Some(i),
    decreases seen.len(),
{
    if seen.len() - 1 == i {
        assert(seen.drop_last() =~= seen.take(i));
    } else {
        assert(seen.drop_last().take(i) =~= seen.take(i));
        lemma_seen_index_prefix(seen.drop_last(), path, i);
    }
}

} // verus!
