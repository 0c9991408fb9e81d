//! Decisions of the tool step of the agent loop: which batches change files
//! (a checkpoint is taken first), what a call is answered when it cannot run,
//! the one-line summary a checkpoint is labelled with, and how the markers a
//! settings tool returns are turned into replies. Running the tools, the
//! checkpoint and the settings store are the caller's part.
use vstd::prelude::*;
use crate::types::{ToolCall, ToolResult};
use crate::text::{
    after_prefix, char_index, chars_of, dec, dec_string, index_of_char, lemma_char_index, lines,
    push_char, push_str, split_lines, str_eq, string_of_range, strip_prefix_string, strs_view, trim,
    trimmed, to_string, utf8_len, char_width,
};

verus! {

broadcast use vstd::seq_lib::group_seq_properties;

// ── Batches that change files ──

/// The tools that write or edit files.
pub open spec fn is_mutating_name(n: Seq<char>) -> bool {
    n == "write_file"@ || n == "edit_file"@ || n == "writeFile"@ || n == "editFile"@
}

/// Whether the named tool writes or edits files.
pub fn is_mutating(name: &str) -> (b: bool)
    ensures
        b == is_mutating_name(name@),
{
    str_eq(name, "write_file") || str_eq(name, "edit_file") || str_eq(name, "writeFile") || str_eq(
        name,
        "editFile",
    )
}

/// Whether a batch of calls writes or edits files, so that a checkpoint is
/// taken before it runs.
pub fn has_mutating(calls: &[ToolCall]) -> (b: bool)
    ensures
        b == exists|i: int| 0 <= i < calls@.len() && is_mutating_name(#[trigger] calls@[i].function.name@),
{
    let mut i: usize = 0;
    while i < calls.len()
        invariant
            i <= calls@.len(),
            forall|j: int| 0 <= j < i ==> !is_mutating_name(#[trigger] calls@[j].function.name@),
        decreases calls.len() - i,
    {
        if is_mutating(calls[i].function.name.as_str()) {
            return true;
        }
        i = i + 1;
    }
    false
}

// ── Dispatch ──

/// What to do with one call of a batch.
#[derive(Debug, Clone, Copy, PartialEq, Eq, Structural)]
pub enum CallDispatch {
    /// The agent may not use this tool.
    NotAllowed,
    /// Run the tool at this position of the known tools.
    Run(usize),
    /// No known tool has this name.
    Unknown,
}

/// Position of the first name equal to `n`.
pub open spec fn first_index(v: Seq<Seq<char>>, n: Seq<char>) -> Option<int>
    decreases v.len(),
{
    if v.len() == 0 {
        None
    } else if v[0] == n {
        Some(0)
    } else {
        match first_index(v.drop_first(), n) {
            Some(k) => Some(k + 1),
            None => None,
        }
    }
}

/// How a call to the tool `name` is dispatched, given the tools the agent may
/// use and the names of the known tools (the built-in ones, then the extra ones).
pub open spec fn dispatch_of(name: Seq<char>, allowed: Seq<Seq<char>>, known: Seq<Seq<char>>) -> CallDispatch {
    if !allowed.contains(name) {
        CallDispatch::NotAllowed
    } else {
        match first_index(known, name) {
            Some(k) => CallDispatch::Run(k as usize),
            None => CallDispatch::Unknown,
        }
    }
}

proof fn lemma_first_index(v: Seq<Seq<char>>, n: Seq<char>)
    ensures
        match first_index(v, n) {
            Some(k) => 0 <= k < v.len() && v[k] == n && forall|j: int| 0 <= j < k ==> v[j] != n,
            None => !v.contains(n),
        },
    decreases v.len(),
{
    if v.len() > 0 && v[0] != n {
        lemma_first_index(v.drop_first(), n);
        match first_index(v.drop_first(), n) {
            Some(k) => {
                assert forall|j: int| 0 <= j < k + 1 implies v[j] != n by {
                    if j > 0 {
                        assert(v[j] == v.drop_first()[j - 1]);
                    }
                }
            },
            None => {
                assert forall|j: int| 0 <= j < v.len() implies v[j] != n by {
                    if j > 0 {
                        assert(v[j] == v.drop_first()[j - 1]);
                    }
                }
            },
        }
    }
}

/// Position of the first of `names` equal to `name`.
fn position_of(names: &[String], name: &str) -> (r: Option<usize>)
    ensures
        match first_index(strs_view(names@), name@) {
            Some(k) => r == Some(k as usize),
            None => r is None,
        },
        r matches Some(i) ==> i < names@.len() && first_index(strs_view(names@), name@) == Some(i as int)
            && names@[i as int]@ == name@ && forall|j: int| 0 <= j < i ==> (#[trigger] names@[j])@ != name@,
{
    let ghost v = strs_view(names@);
    proof {
        lemma_first_index(v, name@);
    }
    let mut i: usize = 0;
    while i < names.len()
        invariant
            i <= names@.len(),
            v == strs_view(names@),
            forall|j: int| 0 <= j < i ==> v[j] != name@,
        decreases names.len() - i,
    {
        if str_eq(names[i].as_str(), name) {
            proof {
                lemma_first_index(v, name@);
                match first_index(v, name@) {
                    Some(k) => {
                        if k < i {
                            assert(v[k] != name@);
                        }
                        if k > i {
                            assert(v[i as int] == name@);
                        }
                    },
                    None => {
                        assert(v[i as int] == name@);
                    },
                }
                assert(v[i as int] == names@[i as int]@);
                assert forall|j: int| 0 <= j < i implies (#[trigger] names@[j])@ != name@ by {
                    assert(v[j] == names@[j]@);
                }
            }
            return Some(i);
        }
        i = i + 1;
    }
    proof {
        lemma_first_index(v, name@);
        match first_index(v, name@) {
            Some(k) => {
                assert(v[k] == name@);
            },
            None => {},
        }
    }
    None
}

/// Decide what to do with a call to the tool `name`.
pub fn dispatch_call(name: &str, allowed: &[String], known: &[String]) -> (d: CallDispatch)
    ensures
        d == dispatch_of(name@, strs_view(allowed@), strs_view(known@)),
        d == CallDispatch::NotAllowed <==> !strs_view(allowed@).contains(name@),
        d == CallDispatch::Unknown <==> (strs_view(allowed@).contains(name@) && !strs_view(known@).contains(name@)),
        d matches CallDispatch::Run(k) ==> k < known@.len() && known@[k as int]@ == name@ && forall|j: int|
            0 <= j < k ==> (#[trigger] known@[j])@ != name@,
{
    proof {
        lemma_first_index(strs_view(known@), name@);
        assert forall|j: int| 0 <= j < known@.len() implies strs_view(known@)[j] == (#[trigger] known@[j])@ by {}
    }
    let d = match position_of(allowed, name) {
        None => {
            proof {
                lemma_first_index(strs_view(allowed@), name@);
            }
            CallDispatch::NotAllowed
        },
        Some(_) => {
            proof {
                lemma_first_index(strs_view(allowed@), name@);
                let k = first_index(strs_view(allowed@), name@)->0;
                assert(strs_view(allowed@)[k] == name@);
            }
            match position_of(known, name) {
                Some(k) => CallDispatch::Run(k),
                None => CallDispatch::Unknown,
            }
        },
    };
    assert(d == dispatch_of(name@, strs_view(allowed@), strs_view(known@)));
    d
}

// ── Results of calls that do not run ──

/// What a call to a tool the agent may not use is answered.
pub open spec fn not_allowed_text(name: Seq<char>) -> Seq<char> {
    "Tool '"@ + name + "' is not allowed for this agent/mode"@
}

/// What a call to an unknown tool is answered.
pub open spec fn unknown_tool_text(name: Seq<char>) -> Seq<char> {
    "Unknown tool: "@ + name
}

/// What a tool that ran out of time answers.
pub open spec fn timed_out_text(name: Seq<char>, secs: u64) -> Seq<char> {
    "Tool '"@ + name + "' timed out after "@ + dec(secs as nat) + "s."@
}

/// An error result for the call.
pub open spec fn error_result_of(r: ToolResult, id: Seq<char>, text: Seq<char>) -> bool {
    r.tool_call_id@ == id && r.content@ == text && r.is_error
}

/// The answer to a call of a tool the agent may not use.
pub fn not_allowed_result(call: &ToolCall) -> (r: ToolResult)
    ensures
        error_result_of(r, call.id@, not_allowed_text(call.function.name@)),
{
    let mut content = to_string("Tool '");
    push_str(&mut content, call.function.name.as_str());
    push_str(&mut content, "' is not allowed for this agent/mode");
    ToolResult { tool_call_id: call.id.clone(), content, is_error: true }
}

/// The answer to a call of an unknown tool.
pub fn unknown_tool_result(call: &ToolCall) -> (r: ToolResult)
    ensures
        error_result_of(r, call.id@, unknown_tool_text(call.function.name@)),
{
    let mut content = to_string("Unknown tool: ");
    push_str(&mut content, call.function.name.as_str());
    ToolResult { tool_call_id: call.id.clone(), content, is_error: true }
}

/// The answer to a call left unrun because the user cancelled the batch.
pub fn cancelled_result(call: &ToolCall) -> (r: ToolResult)
    ensures
        error_result_of(r, call.id@, "Cancelled by user."@),
{
    ToolResult { tool_call_id: call.id.clone(), content: to_string("Cancelled by user."), is_error: true }
}

/// The answer of a tool that did not finish within `secs` seconds.
pub fn timed_out_result(name: &str, secs: u64) -> (r: ToolResult)
    ensures
        error_result_of(r, Seq::empty(), timed_out_text(name@, secs)),
{
    let mut content = to_string("Tool '");
    push_str(&mut content, name);
    push_str(&mut content, "' timed out after ");
    let n = dec_string(secs);
    push_str(&mut content, n.as_str());
    push_str(&mut content, "s.");
    ToolResult { tool_call_id: String::new(), content, is_error: true }
}

// ── Settings markers ──

/// What a settings tool asks for through the marker it returns.
#[derive(Debug, Clone)]
pub enum SettingsCommand {
    /// `__settings_get__:<key>`: read a setting.
    Get(String),
    /// `__settings_set__:<key>=<value>`: change a setting.
    Change(String, String),
    /// `__settings_set__:` without `=`.
    Malformed(String),
    /// `__settings_save__`: persist the settings.
    Save,
    /// Not a settings marker: the result stands as it is.
    Other,
}

/// Model of a settings command.
pub enum CommandView {
    Get(Seq<char>),
    Change(Seq<char>, Seq<char>),
    Malformed(Seq<char>),
    Save,
    Other,
}

impl View for SettingsCommand {
    type V = CommandView;

    open spec fn view(&self) -> CommandView {
        match self {
            SettingsCommand::Get(k) => CommandView::Get(k@),
            SettingsCommand::Change(k, v) => CommandView::Change(k@, v@),
            SettingsCommand::Malformed(kv) => CommandView::Malformed(kv@),
            SettingsCommand::Save => CommandView::Save,
            SettingsCommand::Other => CommandView::Other,
        }
    }
}

/// The command a tool result holds: its trimmed text is matched against the
/// markers; a set splits at its first `=`.
pub open spec fn settings_command(content: Seq<char>) -> CommandView {
    let c = trim(content);
    match after_prefix(c, "__settings_get__:"@) {
        Some(key) => CommandView::Get(key),
        None => match after_prefix(c, "__settings_set__:"@) {
            Some(kv) => match char_index(kv, '=') {
                Some(k) => CommandView::Change(kv.take(k), kv.skip(k + 1)),
                None => CommandView::Malformed(kv),
            },
            None => if c == "__settings_save__"@ {
                CommandView::Save
            } else {
                CommandView::Other
            },
        },
    }
}

/// Read the settings marker of a tool result's text.
pub fn parse_settings_marker(content: &str) -> (r: SettingsCommand)
    ensures
        r@ == settings_command(content@),
{
    let c = trimmed(content);
    match strip_prefix_string(c.as_str(), "__settings_get__:") {
        Some(key) => SettingsCommand::Get(key),
        None => match strip_prefix_string(c.as_str(), "__settings_set__:") {
            Some(kv) => {
                let cs = chars_of(kv.as_str());
                proof {
                    assert(cs@.skip(0) =~= cs@);
                    lemma_char_index(cs@, '=');
                }
                match index_of_char(&cs, 0, '=') {
                    Some(k) => {
                        let key = string_of_range(&cs, 0, k);
                        let value = string_of_range(&cs, k + 1, cs.len());
                        assert(key@ =~= kv@.take(k as int));
                        assert(value@ =~= kv@.skip(k + 1));
                        SettingsCommand::Change(key, value)
                    },
                    None => SettingsCommand::Malformed(kv),
                }
            },
            None => if str_eq(c.as_str(), "__settings_save__") {
                SettingsCommand::Save
            } else {
                SettingsCommand::Other
            },
        },
    }
}

/// A reply to a settings command: the tool result the model sees, and a
/// notice to show the user, if any.
#[derive(Debug, Clone)]
pub struct SettingsReply {
    pub result: ToolResult,
    pub toast: Option<String>,
}

/// Model of a reply: its text, whether it is an error, and its notice.
pub open spec fn reply_is(
    r: SettingsReply,
    id: Seq<char>,
    text: Seq<char>,
    is_error: bool,
    toast: Option<Seq<char>>,
) -> bool {
    &&& r.result.tool_call_id@ == id
    &&& r.result.content@ == text
    &&& r.result.is_error == is_error
    &&& match r.toast {
        Some(t) => toast == Some(t@),
        None => toast is None,
    }
}

/// The marker prefix of a setting that only the terminal interface can read.
pub open spec fn tui_prefix() -> Seq<char> {
    "__read_tui__:"@
}

/// The marker prefix of a thinking-effort change forwarded to the next request.
pub open spec fn effort_prefix() -> Seq<char> {
    "__forward_effort__:"@
}

/// The marker prefix of a chain-of-draft change forwarded to the next request.
pub open spec fn cod_prefix() -> Seq<char> {
    "__forward_cod__:"@
}

/// The reply to reading `key`, given what the settings store answered.
pub open spec fn get_reply(key: Seq<char>, outcome: Result<Seq<char>, Seq<char>>) -> (Seq<char>, bool) {
    match outcome {
        Ok(v) => (key + " = "@ + v, false),
        Err(e) => if tui_prefix().is_prefix_of(e) {
            (key + " is managed by the TUI. Use /"@ + key + " command."@, false)
        } else {
            (e, true)
        },
    }
}

/// The reply to changing a setting, given what the settings store answered:
/// its text, whether it is an error, and the notice shown.
pub open spec fn set_reply(outcome: Result<Seq<char>, Seq<char>>) -> (Seq<char>, bool, Option<Seq<char>>) {
    match outcome {
        Ok(m) => (m, false, Some(m)),
        Err(e) => match after_prefix(e, effort_prefix()) {
            Some(effort) => (
                "Thinking effort set to: "@ + effort + " (will take effect on next request)"@,
                false,
                Some("Thinking effort → "@ + effort),
            ),
            None => match after_prefix(e, cod_prefix()) {
                Some(v) => ("Chain of Draft set to: "@ + v + " (will take effect on next request)"@, false, None),
                None => (e, true, None),
            },
        },
    }
}

/// Model of a store's answer.
pub open spec fn outcome_view(o: Result<String, String>) -> Result<Seq<char>, Seq<char>> {
    match o {
        Ok(v) => Ok(v@),
        Err(e) => Err(e@),
    }
}

/// Reply to reading `key`; `outcome` is the value or the store's error.
pub fn settings_get_reply(tool_call_id: String, key: &str, outcome: Result<String, String>) -> (r: SettingsReply)
    ensures
        reply_is(r, tool_call_id@, get_reply(key@, outcome_view(outcome)).0, get_reply(key@, outcome_view(outcome)).1, None),
{
    match outcome {
        Ok(v) => {
            let mut content = to_string(key);
            push_str(&mut content, " = ");
            push_str(&mut content, v.as_str());
            SettingsReply { result: ToolResult { tool_call_id, content, is_error: false }, toast: None }
        },
        Err(e) => {
            if crate::text::starts_with(e.as_str(), "__read_tui__:") {
                let mut content = to_string(key);
                push_str(&mut content, " is managed by the TUI. Use /");
                push_str(&mut content, key);
                push_str(&mut content, " command.");
                SettingsReply { result: ToolResult { tool_call_id, content, is_error: false }, toast: None }
            } else {
                SettingsReply { result: ToolResult { tool_call_id, content: e, is_error: true }, toast: None }
            }
        },
    }
}

/// Reply to a set marker without `=`.
pub fn settings_malformed_reply(tool_call_id: String, kv: &str) -> (r: SettingsReply)
    ensures
        reply_is(r, tool_call_id@, "Invalid settings format: "@ + kv@, true, None),
{
    let mut content = to_string("Invalid settings format: ");
    push_str(&mut content, kv);
    SettingsReply { result: ToolResult { tool_call_id, content, is_error: true }, toast: None }
}

/// Reply to changing a setting; `outcome` is the store's confirmation or error.
pub fn settings_set_reply(tool_call_id: String, outcome: Result<String, String>) -> (r: SettingsReply)
    ensures
        reply_is(
            r,
            tool_call_id@,
            set_reply(outcome_view(outcome)).0,
            set_reply(outcome_view(outcome)).1,
            set_reply(outcome_view(outcome)).2,
        ),
{
    match outcome {
        Ok(m) => {
            let toast = m.clone();
            SettingsReply { result: ToolResult { tool_call_id, content: m, is_error: false }, toast: Some(toast) }
        },
        Err(e) => match strip_prefix_string(e.as_str(), "__forward_effort__:") {
            Some(effort) => {
                let mut content = to_string("Thinking effort set to: ");
                push_str(&mut content, effort.as_str());
                push_str(&mut content, " (will take effect on next request)");
                let mut toast = to_string("Thinking effort → ");
                push_str(&mut toast, effort.as_str());
                SettingsReply { result: ToolResult { tool_call_id, content, is_error: false }, toast: Some(toast) }
            },
            None => match strip_prefix_string(e.as_str(), "__forward_cod__:") {
                Some(v) => {
                    let mut content = to_string("Chain of Draft set to: ");
                    push_str(&mut content, v.as_str());
                    push_str(&mut content, " (will take effect on next request)");
                    SettingsReply { result: ToolResult { tool_call_id, content, is_error: false }, toast: None }
                },
                None => SettingsReply { result: ToolResult { tool_call_id, content: e, is_error: true }, toast: None },
            },
        },
    }
}

/// Reply to saving the settings; `outcome` is the error of writing them, if any.
pub fn settings_save_reply(tool_call_id: String, outcome: Result<(), String>) -> (r: SettingsReply)
    ensures
        match outcome {
            Ok(()) => reply_is(
                r,
                tool_call_id@,
                "Settings persisted to ~/.radi/config.toml"@,
                false,
                Some("Settings saved to ~/.radi/config.toml"@),
            ),
            Err(e) => reply_is(r, tool_call_id@, "Failed to save: "@ + e@, true, None),
        },
{
    match outcome {
        Ok(()) => SettingsReply {
            result: ToolResult {
                tool_call_id,
                content: to_string("Settings persisted to ~/.radi/config.toml"),
                is_error: false,
            },
            toast: Some(to_string("Settings saved to ~/.radi/config.toml")),
        },
        Err(e) => {
            let mut content = to_string("Failed to save: ");
            push_str(&mut content, e.as_str());
            SettingsReply { result: ToolResult { tool_call_id, content, is_error: true }, toast: None }
        },
    }
}

// ── Checkpoint label ──

/// The first line that is not blank, trimmed.
pub open spec fn first_nonblank(ls: Seq<Seq<char>>) -> Option<Seq<char>>
    decreases ls.len(),
{
    if ls.len() == 0 {
        None
    } else if trim(ls[0]).len() > 0 {
        Some(trim(ls[0]))
    } else {
        first_nonblank(ls.drop_first())
    }
}

/// `s` without every copy of `c` at its start (`trim_start_matches` with a
/// one-character pattern).
pub open spec fn trim_start_char(s: Seq<char>, c: char) -> Seq<char>
    decreases s.len(),
{
    if s.len() > 0 && s[0] == c {
        trim_start_char(s.drop_first(), c)
    } else {
        s
    }
}

/// How many leading characters of `s` fit in `n` bytes of UTF-8.
pub open spec fn chars_within(s: Seq<char>, n: nat) -> nat
    decreases s.len(),
{
    if s.len() == 0 {
        0
    } else if char_width(s[0]) <= n {
        1 + chars_within(s.drop_first(), (n - char_width(s[0])) as nat)
    } else {
        0
    }
}

/// The line a checkpoint is named after: the first non-blank line of the
/// reasoning (of the answer text when the reasoning is blank), or
/// `agent step`, without leading `#`, `*` and `-` marks, trimmed.
pub open spec fn checkpoint_head(text: Seq<char>, reasoning: Seq<char>) -> Seq<char> {
    let source = if trim(reasoning).len() == 0 {
        text
    } else {
        reasoning
    };
    let first = match first_nonblank(lines(source)) {
        Some(l) => l,
        None => "agent step"@,
    };
    trim(trim_start_char(trim_start_char(trim_start_char(first, '#'), '*'), '-'))
}

/// The checkpoint label: the head, cut to its first 60 bytes and marked
/// with `…` when it is longer.
pub open spec fn checkpoint_label(text: Seq<char>, reasoning: Seq<char>) -> Seq<char> {
    let h = checkpoint_head(text, reasoning);
    if utf8_len(h) > 60 {
        h.take(chars_within(h, 60) as int) + "…"@
    } else {
        h
    }
}

/// Whether cutting the head at byte 60 falls between characters (cutting
/// inside a character is refused by `String::truncate`).
pub open spec fn label_cut_ok(text: Seq<char>, reasoning: Seq<char>) -> bool {
    let h = checkpoint_head(text, reasoning);
    utf8_len(h) > 60 ==> utf8_len(h.take(chars_within(h, 60) as int)) == 60
}

/// `s.trim_start_matches(c)`.
pub fn trim_start_matches_char(s: &str, c: char) -> (r: String)
    ensures
        r@ == trim_start_char(s@, c),
{
    let cs = chars_of(s);
    let mut k: usize = 0;
    assert(cs@.skip(0) =~= cs@);
    while k < cs.len() && cs[k] == c
        invariant
            k <= cs.len(),
            trim_start_char(cs@, c) == trim_start_char(cs@.skip(k as int), c),
        decreases cs.len() - k,
    {
        assert(cs@.skip(k as int).drop_first() =~= cs@.skip(k + 1));
        k = k + 1;
    }
    assert(cs@.subrange(k as int, cs.len() as int) =~= cs@.skip(k as int));
    string_of_range(&cs, k, cs.len())
}

/// Bytes of a character in UTF-8.
fn width_of(c: char) -> (w: usize)
    ensures
        w == char_width(c),
{
    let code = c as u32;
    if code < 0x80 {
        1
    } else if code < 0x800 {
        2
    } else if code < 0x10000 {
        3
    } else {
        4
    }
}

proof fn lemma_chars_within_step(s: Seq<char>, n: nat, k: int, used: nat)
    requires
        0 <= k < s.len(),
        used == utf8_len(s.take(k)),
        used <= n,
        chars_within(s, n) == k + chars_within(s.skip(k), (n - used) as nat),
    ensures
        char_width(s[k]) <= n - used ==> chars_within(s, n) == k + 1 + chars_within(
            s.skip(k + 1),
            (n - used - char_width(s[k])) as nat,
        ),
        char_width(s[k]) > n - used ==> chars_within(s, n) == k,
{
    assert(s.skip(k).drop_first() =~= s.skip(k + 1));
    assert(s.skip(k)[0] == s[k]);
}

/// The characters of `cs` that fit in `n` bytes.
pub(crate) fn count_within(cs: &Vec<char>, n: usize) -> (k: usize)
    ensures
        k == chars_within(cs@, n as nat),
        k <= cs@.len(),
        utf8_len(cs@.take(k as int)) <= n,
{
    let mut k: usize = 0;
    let mut used: usize = 0;
    assert(cs@.skip(0) =~= cs@);
    assert(cs@.take(0) =~= Seq::<char>::empty());
    while k < cs.len()
        invariant
            k <= cs.len(),
            used <= n,
            used == utf8_len(cs@.take(k as int)),
            chars_within(cs@, n as nat) == k + chars_within(cs@.skip(k as int), (n - used) as nat),
        decreases cs.len() - k,
    {
        let w = width_of(cs[k]);
        proof {
            lemma_chars_within_step(cs@, n as nat, k as int, used as nat);
        }
        if w > n - used {
            return k;
        }
        proof {
            assert(cs@.take(k + 1).drop_last() =~= cs@.take(k as int));
        }
        used = used + w;
        k = k + 1;
    }
    proof {
        assert(cs@.skip(k as int) =~= Seq::<char>::empty());
    }
    k
}

/// The first non-blank line of `source`, trimmed.
fn first_nonblank_line(source: &str) -> (r: Option<String>)
    ensures
        match first_nonblank(lines(source@)) {
            Some(l) => r matches Some(x) && x@ == l,
            None => r is None,
        },
{
    let ls = split_lines(source);
    let ghost lv = strs_view(ls@);
    let mut i: usize = 0;
    while i < ls.len()
        invariant
            i <= ls.len(),
            lv == strs_view(ls@),
            lv == lines(source@),
            first_nonblank(lv) == first_nonblank(lv.skip(i as int)),
        decreases ls.len() - i,
    {
        let t = trimmed(ls[i].as_str());
        proof {
            assert(lv.skip(i as int)[0] == ls@[i as int]@);
            assert(lv.skip(i as int).drop_first() =~= lv.skip(i + 1));
        }
        if t.unicode_len() > 0 {
            return Some(t);
        }
        i = i + 1;
    }
    proof {
        assert(lv.skip(i as int) =~= Seq::<Seq<char>>::empty());
    }
    None
}

/// The line a checkpoint is named after (see [`checkpoint_head`]).
fn checkpoint_head_of(full_text: &str, full_reasoning: &str) -> (r: String)
    ensures
        r@ == checkpoint_head(full_text@, full_reasoning@),
{
    let tr = trimmed(full_reasoning);
    let source = if tr.unicode_len() == 0 {
        full_text
    } else {
        full_reasoning
    };
    let head0 = match first_nonblank_line(source) {
        Some(l) => l,
        None => to_string("agent step"),
    };
    let a = trim_start_matches_char(head0.as_str(), '#');
    let b = trim_start_matches_char(a.as_str(), '*');
    let c = trim_start_matches_char(b.as_str(), '-');
    trimmed(c.as_str())
}

/// Label a checkpoint taken before a batch that changes files (see
/// [`checkpoint_label`]). The caller makes sure a cut at byte 60 falls
/// between characters.
pub fn summarize_for_checkpoint(full_text: &str, full_reasoning: &str) -> (r: String)
    requires
        label_cut_ok(full_text@, full_reasoning@),
    ensures
        r@ == checkpoint_label(full_text@, full_reasoning@),
{
    let h = checkpoint_head_of(full_text, full_reasoning);
    let cs = chars_of(h.as_str());
    let k = count_within(&cs, 60);
    if k < cs.len() {
        proof {
            let t = cs@.take(k + 1);
            assert(cs@ =~= t + cs@.skip(k + 1));
            crate::outline::lemma_utf8_len_concat(t, cs@.skip(k + 1));
            assert(t.drop_last() =~= cs@.take(k as int));
            lemma_chars_within_stop(cs@, 60, k as int);
        }
        let mut out = string_of_range(&cs, 0, k);
        push_char(&mut out, '…');
        assert(out@ =~= cs@.take(k as int) + "…"@) by {
            reveal_strlit("…");
        }
        out
    } else {
        proof {
            assert(cs@.take(k as int) =~= cs@);
        }
        h
    }
}

/// Where counting stops short of the end, the next character does not fit.
proof fn lemma_chars_within_stop(s: Seq<char>, n: nat, k: int)
    requires
        0 <= k < s.len(),
        chars_within(s, n) == k,
    ensures
        utf8_len(s.take(k)) + char_width(s[k]) > n,
    decreases k,
{
    if k == 0 {
        assert(s.take(0) =~= Seq::<char>::empty());
    } else {
        let t = s.drop_first();
        assert(char_width(s[0]) <= n);
        lemma_chars_within_stop(t, (n - char_width(s[0])) as nat, k - 1);
        assert(s.take(k) =~= seq![s[0]] + t.take(k - 1));
        crate::outline::lemma_utf8_len_concat(seq![s[0]], t.take(k - 1));
        assert(seq![s[0]].drop_last() =~= Seq::<char>::empty());
        assert(t[k - 1] == s[k]);
    }
}

/// A checkpoint label is short: at most sixty bytes of text, then the
/// three-byte `…` when it was cut.
pub proof fn lemma_label_short(text: Seq<char>, reasoning: Seq<char>)
    requires
        label_cut_ok(text, reasoning),
    ensures
        utf8_len(checkpoint_label(text, reasoning)) <= 63,
{
    let h = checkpoint_head(text, reasoning);
    if utf8_len(h) > 60 {
        let t = h.take(chars_within(h, 60) as int);
        crate::outline::lemma_utf8_len_concat(t, "…"@);
        reveal_strlit("…");
        assert("…"@.len() == 1);
        assert("…"@.drop_last() =~= Seq::<char>::empty());
    }
}

} // verus!
