//! Conversation data model shared by every module: roles, messages, tool
//! calls and results, tool definitions, and the events a provider streams.
use vstd::prelude::*;

verus! {

/// Who authored a message.
#[derive(Debug, Clone, Copy, PartialEq, Eq, Structural)]
pub enum Role {
    System,
    User,
    Assistant,
    Tool,
}

/// How much the agent may do: everything, read-only planning, or write-and-execute.
#[derive(Debug, Clone, Copy, PartialEq, Eq, Structural)]
pub enum AgentMode {
    Auto,
    Plan,
    Exec,
}

/// Name and JSON-encoded arguments of a function the model wants called.
#[derive(Debug, Clone)]
pub struct FunctionCall {
    pub name: String,
    pub arguments: String,
}

/// One tool invocation requested by the model.
#[derive(Debug, Clone)]
pub struct ToolCall {
    pub id: String,
    pub call_type: String,
    pub function: FunctionCall,
}

/// The outcome of running one tool.
#[derive(Debug, Clone)]
pub struct ToolResult {
    pub tool_call_id: String,
    pub content: String,
    pub is_error: bool,
}

/// One piece of a multipart message.
#[derive(Debug, Clone)]
pub enum ContentPart {
    Text { text: String },
    /// An image given by URL (a `data:` URL for local files).
    Image { url: String },
}

/// The body of a message: plain text, or text and images.
#[derive(Debug, Clone)]
pub enum MessageContent {
    Text(String),
    Parts(Vec<ContentPart>),
}

/// One message of a conversation.
#[derive(Debug, Clone)]
pub struct Message {
    pub role: Role,
    pub content: MessageContent,
    pub tool_calls: Option<Vec<ToolCall>>,
    pub tool_call_id: Option<String>,
    pub name: Option<String>,
    pub reasoning_content: Option<String>,
}

/// Signature of a tool as offered to the model; `parameters` is a JSON schema text.
#[derive(Debug, Clone)]
pub struct FunctionDef {
    pub name: String,
    pub description: String,
    pub parameters: String,
}

/// A tool offered to the model.
#[derive(Debug, Clone)]
pub struct ToolDefinition {
    pub tool_type: String,
    pub function: FunctionDef,
}

/// One streamed chunk of a provider's answer.
#[derive(Debug, Clone)]
pub enum ProviderEvent {
    Text(String),
    Reasoning(String),
    ToolCalls(Vec<ToolCall>),
    Done,
    Error(String),
}

// ── Mathematical models ──

/// Model of a tool call: its id, type, function name and arguments.
pub struct ToolCallView {
    pub id: Seq<char>,
    pub call_type: Seq<char>,
    pub name: Seq<char>,
    pub arguments: Seq<char>,
}

/// Model of a content part.
pub enum PartView {
    Text(Seq<char>),
    Image(Seq<char>),
}

/// Model of a message body.
pub enum ContentView {
    Text(Seq<char>),
    Parts(Seq<PartView>),
}

/// Model of a message.
pub struct MessageView {
    pub role: Role,
    pub content: ContentView,
    pub tool_calls: Option<Seq<ToolCallView>>,
    pub tool_call_id: Option<Seq<char>>,
    pub name: Option<Seq<char>>,
    pub reasoning_content: Option<Seq<char>>,
}

/// Model of a tool definition.
pub struct ToolDefView {
    pub tool_type: Seq<char>,
    pub name: Seq<char>,
    pub description: Seq<char>,
    pub parameters: Seq<char>,
}

/// Model of a provider event.
pub enum EventView {
    Text(Seq<char>),
    Reasoning(Seq<char>),
    ToolCalls(Seq<ToolCallView>),
    Done,
    Error(Seq<char>),
}

/// Model of an optional string.
pub open spec fn opt_view(o: Option<String>) -> Option<Seq<char>> {
    match o {
        Some(s) => Some(s@),
        None => None,
    }
}

impl View for ToolCall {
    type V = ToolCallView;

    open spec fn view(&self) -> ToolCallView {
        ToolCallView {
            id: self.id@,
            call_type: self.call_type@,
            name: self.function.name@,
            arguments: self.function.arguments@,
        }
    }
}

/// Model of a list of tool calls.
pub open spec fn calls_view(v: Seq<ToolCall>) -> Seq<ToolCallView> {
    v.map_values(|c: ToolCall| c@)
}

impl View for ContentPart {
    type V = PartView;

    open spec fn view(&self) -> PartView {
        match self {
            ContentPart::Text { text } => PartView::Text(text@),
            ContentPart::Image { url } => PartView::Image(url@),
        }
    }
}

impl View for MessageContent {
    type V = ContentView;

    open spec fn view(&self) -> ContentView {
        match self {
            MessageContent::Text(s) => ContentView::Text(s@),
            MessageContent::Parts(ps) => ContentView::Parts(ps@.map_values(|p: ContentPart| p@)),
        }
    }
}

impl View for Message {
    type V = MessageView;

    open spec fn view(&self) -> MessageView {
        MessageView {
            role: self.role,
            content: self.content@,
            tool_calls: match self.tool_calls {
                Some(v) => Some(calls_view(v@)),
                None => None,
            },
            tool_call_id: opt_view(self.tool_call_id),
            name: opt_view(self.name),
            reasoning_content: opt_view(self.reasoning_content),
        }
    }
}

/// Model of a list of messages.
pub open spec fn msgs_view(v: Seq<Message>) -> Seq<MessageView> {
    v.map_values(|m: Message| m@)
}

impl View for ToolDefinition {
    type V = ToolDefView;

    open spec fn view(&self) -> ToolDefView {
        ToolDefView {
            tool_type: self.tool_type@,
            name: self.function.name@,
            description: self.function.description@,
            parameters: self.function.parameters@,
        }
    }
}

/// Model of a list of tool definitions.
pub open spec fn defs_view(v: Seq<ToolDefinition>) -> Seq<ToolDefView> {
    v.map_values(|d: ToolDefinition| d@)
}

impl View for ProviderEvent {
    type V = EventView;

    open spec fn view(&self) -> EventView {
        match self {
            ProviderEvent::Text(s) => EventView::Text(s@),
            ProviderEvent::Reasoning(s) => EventView::Reasoning(s@),
            ProviderEvent::ToolCalls(v) => EventView::ToolCalls(calls_view(v@)),
            ProviderEvent::Done => EventView::Done,
            ProviderEvent::Error(s) => EventView::Error(s@),
        }
    }
}

/// Model of a list of provider events.
pub open spec fn events_view(v: Seq<ProviderEvent>) -> Seq<EventView> {
    v.map_values(|e: ProviderEvent| e@)
}

/// The text of a message body; empty for multipart bodies.
pub open spec fn content_text(c: ContentView) -> Seq<char> {
    match c {
        ContentView::Text(s) => s,
        ContentView::Parts(_) => Seq::empty(),
    }
}

/// A plain-text message with no tool data.
pub open spec fn plain(role: Role, text: Seq<char>) -> MessageView {
    MessageView {
        role,
        content: ContentView::Text(text),
        tool_calls: None,
        tool_call_id: None,
        name: None,
        reasoning_content: None,
    }
}

/// A copy of an optional string.
pub fn clone_opt_string(o: &Option<String>) -> (r: Option<String>)
    ensures
        r == *o,
        opt_view(r) == opt_view(*o),
{
    match o {
        Some(s) => Some(s.clone()),
        None => None,
    }
}

impl FunctionCall {
    /// A field-by-field copy.
    pub fn duplicate(&self) -> (r: FunctionCall)
        ensures
            r == *self,
    {
        FunctionCall { name: self.name.clone(), arguments: self.arguments.clone() }
    }
}

impl ToolCall {
    /// A field-by-field copy.
    pub fn duplicate(&self) -> (r: ToolCall)
        ensures
            r == *self,
            r@ == self@,
    {
        ToolCall {
            id: self.id.clone(),
            call_type: self.call_type.clone(),
            function: self.function.duplicate(),
        }
    }
}

/// A copy of a list of tool calls.
pub fn duplicate_calls(v: &Vec<ToolCall>) -> (r: Vec<ToolCall>)
    ensures
        r@ == v@,
        calls_view(r@) == calls_view(v@),
{
    let mut r: Vec<ToolCall> = Vec::new();
    let mut i: usize = 0;
    while i < v.len()
        invariant
            i <= v.len(),
            r@ == v@.take(i as int),
        decreases v.len() - i,
    {
        r.push(v[i].duplicate());
        i = i + 1;
        assert(r@ == v@.take(i as int));
    }
    assert(v@.take(v.len() as int) == v@);
    r
}

impl ContentPart {
    /// A field-by-field copy.
    pub fn duplicate(&self) -> (r: ContentPart)
        ensures
            r == *self,
            r@ == self@,
    {
        match self {
            ContentPart::Text { text } => ContentPart::Text { text: text.clone() },
            ContentPart::Image { url } => ContentPart::Image { url: url.clone() },
        }
    }
}

impl MessageContent {
    /// A field-by-field copy.
    pub fn duplicate(&self) -> (r: MessageContent)
        ensures
            r@ == self@,
    {
        match self {
            MessageContent::Text(s) => MessageContent::Text(s.clone()),
            MessageContent::Parts(ps) => {
                let mut r: Vec<ContentPart> = Vec::new();
                let mut i: usize = 0;
                while i < ps.len()
                    invariant
                        i <= ps.len(),
                        r@ == ps@.take(i as int),
                    decreases ps.len() - i,
                {
                    r.push(ps[i].duplicate());
                    i = i + 1;
                    assert(r@ == ps@.take(i as int));
                }
                assert(ps@.take(ps.len() as int) == ps@);
                MessageContent::Parts(r)
            },
        }
    }
}

impl Message {
    /// A plain-text message with no tool data.
    pub fn text(role: Role, text: String) -> (m: Message)
        ensures
            m@ == plain(role, text@),
    {
        Message {
            role,
            content: MessageContent::Text(text),
            tool_calls: None,
            tool_call_id: None,
            name: None,
            reasoning_content: None,
        }
    }

    /// A field-by-field copy.
    pub fn duplicate(&self) -> (r: Message)
        ensures
            r@ == self@,
    {
        let tool_calls = match &self.tool_calls {
            Some(v) => Some(duplicate_calls(v)),
            None => None,
        };
        Message {
            role: self.role,
            content: self.content.duplicate(),
            tool_calls,
            tool_call_id: clone_opt_string(&self.tool_call_id),
            name: clone_opt_string(&self.name),
            reasoning_content: clone_opt_string(&self.reasoning_content),
        }
    }
}

/// A copy of a list of messages.
pub fn duplicate_messages(v: &Vec<Message>) -> (r: Vec<Message>)
    ensures
        msgs_view(r@) == msgs_view(v@),
{
    let mut r: Vec<Message> = Vec::new();
    let mut i: usize = 0;
    while i < v.len()
        invariant
            i <= v.len(),
            msgs_view(r@) == msgs_view(v@.take(i as int)),
        decreases v.len() - i,
    {
        let ghost old_r = r@;
        let m = v[i].duplicate();
        r.push(m);
        proof {
            assert(msgs_view(r@) =~= msgs_view(old_r).push(v@[i as int]@));
            assert(msgs_view(v@.take(i + 1)) =~= msgs_view(v@.take(i as int)).push(v@[i as int]@));
        }
        i = i + 1;
    }
    assert(v@.take(v.len() as int) == v@);
    r
}

impl FunctionDef {
    /// A field-by-field copy.
    pub fn duplicate(&self) -> (r: FunctionDef)
        ensures
            r == *self,
    {
        FunctionDef {
            name: self.name.clone(),
            description: self.description.clone(),
            parameters: self.parameters.clone(),
        }
    }
}

impl ToolDefinition {
    /// A field-by-field copy.
    pub fn duplicate(&self) -> (r: ToolDefinition)
        ensures
            r == *self,
            r@ == self@,
    {
        ToolDefinition { tool_type: self.tool_type.clone(), function: self.function.duplicate() }
    }
}

impl ProviderEvent {
    /// A field-by-field copy.
    pub fn duplicate(&self) -> (r: ProviderEvent)
        ensures
            r@ == self@,
    {
        match self {
            ProviderEvent::Text(s) => ProviderEvent::Text(s.clone()),
            ProviderEvent::Reasoning(s) => ProviderEvent::Reasoning(s.clone()),
            ProviderEvent::ToolCalls(v) => ProviderEvent::ToolCalls(duplicate_calls(v)),
            ProviderEvent::Done => ProviderEvent::Done,
            ProviderEvent::Error(s) => ProviderEvent::Error(s.clone()),
        }
    }
}

// ── Structural equality on the models ──

/// Whether two optional strings are equal.
pub fn opt_str_eq(a: &Option<String>, b: &Option<String>) -> (r: bool)
    ensures
        r == (opt_view(*a) == opt_view(*b)),
{
    match (a, b) {
        (Some(x), Some(y)) => *x == *y,
        (None, None) => true,
        _ => false,
    }
}

/// Whether two tool calls are equal.
pub fn call_eq(a: &ToolCall, b: &ToolCall) -> (r: bool)
    ensures
        r == (a@ == b@),
{
    a.id == b.id && a.call_type == b.call_type && a.function.name == b.function.name
        && a.function.arguments == b.function.arguments
}

/// Whether two lists of tool calls are equal.
pub fn calls_eq(a: &Vec<ToolCall>, b: &Vec<ToolCall>) -> (r: bool)
    ensures
        r == (calls_view(a@) == calls_view(b@)),
{
    if a.len() != b.len() {
        assert(calls_view(a@).len() != calls_view(b@).len());
        return false;
    }
    let mut i: usize = 0;
    while i < a.len()
        invariant
            i <= a.len() == b.len(),
            forall|j: int| 0 <= j < i ==> a@[j]@ == b@[j]@,
        decreases a.len() - i,
    {
        if !call_eq(&a[i], &b[i]) {
            assert(calls_view(a@)[i as int] != calls_view(b@)[i as int]);
            return false;
        }
        i = i + 1;
    }
    assert(calls_view(a@) =~= calls_view(b@));
    true
}

/// Whether two message bodies are equal.
pub fn content_eq(a: &MessageContent, b: &MessageContent) -> (r: bool)
    ensures
        r == (a@ == b@),
{
    match (a, b) {
        (MessageContent::Text(x), MessageContent::Text(y)) => *x == *y,
        (MessageContent::Parts(x), MessageContent::Parts(y)) => {
            let ghost xv = x@.map_values(|p: ContentPart| p@);
            let ghost yv = y@.map_values(|p: ContentPart| p@);
            assert(a@ == ContentView::Parts(xv) && b@ == ContentView::Parts(yv));
            if x.len() != y.len() {
                assert(xv.len() != yv.len());
                return false;
            }
            let mut i: usize = 0;
            while i < x.len()
                invariant
                    i <= x.len() == y.len(),
                    xv == x@.map_values(|p: ContentPart| p@),
                    yv == y@.map_values(|p: ContentPart| p@),
                    a@ == ContentView::Parts(xv),
                    b@ == ContentView::Parts(yv),
                    forall|j: int| 0 <= j < i ==> xv[j] == yv[j],
                decreases x.len() - i,
            {
                let same = match (&x[i], &y[i]) {
                    (ContentPart::Text { text: s }, ContentPart::Text { text: t }) => *s == *t,
                    (ContentPart::Image { url: s }, ContentPart::Image { url: t }) => *s == *t,
                    _ => false,
                };
                if !same {
                    assert(xv[i as int] != yv[i as int]);
                    assert(xv != yv);
                    return false;
                }
                i = i + 1;
            }
            assert(xv =~= yv);
            true
        },
        _ => false,
    }
}

/// Whether two messages are equal.
pub fn message_eq(a: &Message, b: &Message) -> (r: bool)
    ensures
        r == (a@ == b@),
{
    let calls_same = match (&a.tool_calls, &b.tool_calls) {
        (Some(x), Some(y)) => calls_eq(x, y),
        (None, None) => true,
        _ => false,
    };
    a.role == b.role && content_eq(&a.content, &b.content) && calls_same && opt_str_eq(
        &a.tool_call_id,
        &b.tool_call_id,
    ) && opt_str_eq(&a.name, &b.name) && opt_str_eq(&a.reasoning_content, &b.reasoning_content)
}

/// Whether two lists of messages are equal.
pub fn messages_eq(a: &[Message], b: &[Message]) -> (r: bool)
    ensures
        r == (msgs_view(a@) == msgs_view(b@)),
{
    if a.len() != b.len() {
        assert(msgs_view(a@).len() != msgs_view(b@).len());
        return false;
    }
    let mut i: usize = 0;
    while i < a.len()
        invariant
            i <= a.len() == b.len(),
            forall|j: int| 0 <= j < i ==> a@[j]@ == b@[j]@,
        decreases a.len() - i,
    {
        if !message_eq(&a[i], &b[i]) {
            assert(msgs_view(a@)[i as int] != msgs_view(b@)[i as int]);
            return false;
        }
        i = i + 1;
    }
    assert(msgs_view(a@) =~= msgs_view(b@));
    true
}

/// Whether two lists of tool definitions are equal.
pub fn defs_eq(a: &[ToolDefinition], b: &[ToolDefinition]) -> (r: bool)
    ensures
        r == (defs_view(a@) == defs_view(b@)),
{
    if a.len() != b.len() {
        assert(defs_view(a@).len() != defs_view(b@).len());
        return false;
    }
    let mut i: usize = 0;
    while i < a.len()
        invariant
            i <= a.len() == b.len(),
            forall|j: int| 0 <= j < i ==> a@[j]@ == b@[j]@,
        decreases a.len() - i,
    {
        let same = a[i].tool_type == b[i].tool_type && a[i].function.name == b[i].function.name
            && a[i].function.description == b[i].function.description
            && a[i].function.parameters == b[i].function.parameters;
        if !same {
            assert(defs_view(a@)[i as int] != defs_view(b@)[i as int]);
            return false;
        }
        i = i + 1;
    }
    assert(defs_view(a@) =~= defs_view(b@));
    true
}

} // verus!
