//! Building blocks of the event-driven orchestrator: the task state machine,
//! its bridge to the simple plan's statuses, the event bus, and the records
//! exchanged with persistent agents.
use vstd::prelude::*;
use crate::orchestrator::TaskStatus;
use crate::types::opt_view;
use crate::text::{dec, dec_string, push_str, str_eq, to_string};
use crate::sort::{keyed, sort_keyed, stable_sort, unkeyed, SortKey};

verus! {

broadcast use vstd::seq_lib::group_seq_properties;

/// Lifecycle states of a dynamic task.
#[derive(Debug, Clone, Copy, PartialEq, Eq, Structural)]
pub enum TaskState {
    Pending,
    Ready,
    Running,
    Suspended,
    Done,
    Failed,
    Skipped,
    Persistent,
}

/// A state from which a task only leaves by being reset or retried.
pub open spec fn spec_terminal(s: TaskState) -> bool {
    s == TaskState::Done || s == TaskState::Failed || s == TaskState::Skipped
}

/// The allowed moves of the state machine.
///
/// ```text
/// Pending ─► Ready ─► Running ─► Done / Failed / Suspended / Persistent
/// Ready ─► Skipped      Suspended ─► Ready / Running
/// Done, Failed ─► Ready  Persistent ─► Running / Suspended
/// any ─► Pending
/// ```
pub open spec fn spec_can_step(from: TaskState, to: TaskState) -> bool {
    ||| to == TaskState::Pending
    ||| (from == TaskState::Pending && to == TaskState::Ready)
    ||| (from == TaskState::Ready && (to == TaskState::Running || to == TaskState::Skipped))
    ||| (from == TaskState::Running && (to == TaskState::Done || to == TaskState::Failed
        || to == TaskState::Suspended || to == TaskState::Persistent))
    ||| (from == TaskState::Suspended && (to == TaskState::Ready || to == TaskState::Running))
    ||| ((from == TaskState::Done || from == TaskState::Failed) && to == TaskState::Ready)
    ||| (from == TaskState::Persistent && (to == TaskState::Running || to == TaskState::Suspended))
}

/// The dynamic state a plan status is imported as.
pub open spec fn spec_from_status(s: TaskStatus) -> TaskState {
    match s {
        TaskStatus::Pending => TaskState::Pending,
        TaskStatus::Active => TaskState::Running,
        TaskStatus::Done => TaskState::Done,
        TaskStatus::Blocked => TaskState::Suspended,
        TaskStatus::Skipped => TaskState::Skipped,
    }
}

/// The plan status a dynamic state is exported as.
pub open spec fn spec_to_status(s: TaskState) -> TaskStatus {
    match s {
        TaskState::Pending => TaskStatus::Pending,
        TaskState::Ready => TaskStatus::Pending,
        TaskState::Running => TaskStatus::Active,
        TaskState::Suspended => TaskStatus::Blocked,
        TaskState::Done => TaskStatus::Done,
        TaskState::Failed => TaskStatus::Blocked,
        TaskState::Skipped => TaskStatus::Skipped,
        TaskState::Persistent => TaskStatus::Active,
    }
}

impl TaskState {
    /// Whether the task has finished, successfully or not.
    pub fn is_terminal(&self) -> (b: bool)
        ensures
            b == spec_terminal(*self),
    {
        match self {
            TaskState::Done | TaskState::Failed | TaskState::Skipped => true,
            _ => false,
        }
    }

    /// Whether the state machine allows a move from this state to `next`.
    pub fn can_transition_to(&self, next: &TaskState) -> (b: bool)
        ensures
            b == spec_can_step(*self, *next),
    {
        match next {
            TaskState::Pending => true,
            TaskState::Ready => match self {
                TaskState::Pending | TaskState::Suspended | TaskState::Done | TaskState::Failed => true,
                _ => false,
            },
            TaskState::Running => match self {
                TaskState::Ready | TaskState::Suspended | TaskState::Persistent => true,
                _ => false,
            },
            TaskState::Skipped => match self {
                TaskState::Ready => true,
                _ => false,
            },
            TaskState::Done | TaskState::Failed | TaskState::Persistent => match self {
                TaskState::Running => true,
                _ => false,
            },
            TaskState::Suspended => match self {
                TaskState::Running | TaskState::Persistent => true,
                _ => false,
            },
        }
    }

    /// Move to `next` if the state machine allows it; say whether it moved.
    pub fn try_transition(&mut self, next: TaskState) -> (moved: bool)
        ensures
            moved == spec_can_step(*old(self), next),
            *final(self) == if moved { next } else { *old(self) },
    {
        if self.can_transition_to(&next) {
            *self = next;
            true
        } else {
            false
        }
    }

    /// The dynamic state a plan status is imported as.
    pub fn from_task_status(s: &TaskStatus) -> (r: TaskState)
        ensures
            r == spec_from_status(*s),
    {
        match s {
            TaskStatus::Pending => TaskState::Pending,
            TaskStatus::Active => TaskState::Running,
            TaskStatus::Done => TaskState::Done,
            TaskStatus::Blocked => TaskState::Suspended,
            TaskStatus::Skipped => TaskState::Skipped,
        }
    }

    /// The plan status a dynamic state is exported as.
    pub fn to_task_status(&self) -> (r: TaskStatus)
        ensures
            r == spec_to_status(*self),
    {
        match self {
            TaskState::Pending => TaskStatus::Pending,
            TaskState::Ready => TaskStatus::Pending,
            TaskState::Running => TaskStatus::Active,
            TaskState::Suspended => TaskStatus::Blocked,
            TaskState::Done => TaskStatus::Done,
            TaskState::Failed => TaskStatus::Blocked,
            TaskState::Skipped => TaskStatus::Skipped,
            TaskState::Persistent => TaskStatus::Active,
        }
    }
}

/// Importing a plan status and exporting it again gives the status back.
pub proof fn lemma_status_round_trip(s: TaskStatus)
    ensures
        spec_to_status(spec_from_status(s)) == s,
{
}

/// Every state can be reset to `Pending`.
pub proof fn lemma_reset_always_allowed(s: TaskState)
    ensures
        spec_can_step(s, TaskState::Pending),
{
}

/// A finished task can only be reset or, unless it was skipped, retried.
pub proof fn lemma_terminal_exits(s: TaskState, t: TaskState)
    requires
        spec_terminal(s),
        spec_can_step(s, t),
    ensures
        t == TaskState::Pending || (t == TaskState::Ready && s != TaskState::Skipped),
{
}

/// Something that happened, keyed by name, optionally raised by a task.
#[derive(Debug, Clone)]
pub struct Event {
    pub key: String,
    pub source_task: Option<u32>,
    pub payload: Option<String>,
    pub timestamp: u64,
}

/// Model of an event.
pub struct EventRecord {
    pub key: Seq<char>,
    pub source_task: Option<u32>,
    pub payload: Option<Seq<char>>,
    pub timestamp: u64,
}

impl View for Event {
    type V = EventRecord;

    open spec fn view(&self) -> EventRecord {
        EventRecord {
            key: self.key@,
            source_task: self.source_task,
            payload: opt_view(self.payload),
            timestamp: self.timestamp,
        }
    }
}

impl Event {
    /// A field-by-field copy.
    pub fn duplicate(&self) -> (r: Event)
        ensures
            r@ == self@,
    {
        let payload = match &self.payload {
            Some(p) => Some(p.clone()),
            None => None,
        };
        Event {
            key: self.key.clone(),
            source_task: self.source_task,
            payload,
            timestamp: self.timestamp,
        }
    }
}

/// Model of a list of events.
pub open spec fn records(v: Seq<Event>) -> Seq<EventRecord> {
    v.map_values(|e: Event| e@)
}

/// Whether some event of the log has the given key.
pub open spec fn key_emitted(log: Seq<EventRecord>, key: Seq<char>) -> bool {
    exists|i: int| 0 <= i < log.len() && (#[trigger] log[i]).key == key
}

/// The events of the log strictly after a timestamp, in log order.
pub open spec fn after(log: Seq<EventRecord>, ts: u64) -> Seq<EventRecord> {
    log.filter(|e: EventRecord| e.timestamp > ts)
}

/// Append-only log of events, with a lookup of which keys were ever emitted.
pub struct EventBus {
    log: Vec<Event>,
}

impl View for EventBus {
    type V = Seq<EventRecord>;

    closed spec fn view(&self) -> Seq<EventRecord> {
        records(self.log@)
    }
}

impl Default for EventBus {
    fn default() -> (b: Self)
        ensures
            b@ == Seq::<EventRecord>::empty(),
    {
        EventBus::new()
    }
}

impl EventBus {
    /// An empty bus.
    pub fn new() -> (b: EventBus)
        ensures
            b@ == Seq::<EventRecord>::empty(),
    {
        let b = EventBus { log: Vec::new() };
        assert(records(b.log@) =~= Seq::<EventRecord>::empty());
        b
    }

    /// Record an event: it joins the log and its key counts as emitted.
    pub fn emit(&mut self, event: Event)
        ensures
            final(self)@ == old(self)@.push(event@),
    {
        let ghost before = self.log@;
        self.log.push(event);
        assert(records(self.log@) =~= records(before).push(event@));
    }

    /// Whether an event with this key was ever emitted.
    pub fn has_emitted(&self, key: &str) -> (b: bool)
        ensures
            b == key_emitted(self@, key@),
    {
        let mut i: usize = 0;
        while i < self.log.len()
            invariant
                i <= self.log.len(),
                forall|j: int| 0 <= j < i ==> (#[trigger] records(self.log@)[j]).key != key@,
            decreases self.log.len() - i,
        {
            if str_eq(self.log[i].key.as_str(), key) {
                assert(records(self.log@)[i as int].key == key@);
                return true;
            }
            i = i + 1;
        }
        false
    }

    /// A copy of the whole log, oldest first.
    pub fn log(&self) -> (r: Vec<Event>)
        ensures
            records(r@) == self@,
    {
        let mut r: Vec<Event> = Vec::new();
        let mut i: usize = 0;
        while i < self.log.len()
            invariant
                i <= self.log.len(),
                records(r@) == records(self.log@).take(i as int),
            decreases self.log.len() - i,
        {
            let ghost before = r@;
            r.push(self.log[i].duplicate());
            assert(records(r@) =~= records(before).push(self.log@[i as int]@));
            assert(records(self.log@).take(i + 1) =~= records(self.log@).take(i as int).push(
                self.log@[i as int]@,
            ));
            i = i + 1;
        }
        assert(records(self.log@).take(self.log.len() as int) =~= records(self.log@));
        r
    }

    /// The events stamped strictly after `ts`, oldest first.
    pub fn events_since(&self, ts: u64) -> (r: Vec<Event>)
        ensures
            records(r@) == after(self@, ts),
    {
        let ghost pred = |e: EventRecord| e.timestamp > ts;
        let mut r: Vec<Event> = Vec::new();
        let mut i: usize = 0;
        while i < self.log.len()
            invariant
                i <= self.log.len(),
                pred == (|e: EventRecord| e.timestamp > ts),
                records(r@) == records(self.log@).take(i as int).filter(pred),
            decreases self.log.len() - i,
        {
            let ghost before = r@;
            let ghost all = records(self.log@);
            proof {
                assert(all.take(i + 1) =~= all.take(i as int).push(all[i as int]));
                all.take(i as int).lemma_filter_push(all[i as int], pred);
            }
            if self.log[i].timestamp > ts {
                r.push(self.log[i].duplicate());
                assert(records(r@) =~= records(before).push(self.log@[i as int]@));
            }
            i = i + 1;
        }
        assert(records(self.log@).take(self.log.len() as int) =~= records(self.log@));
        r
    }
}

/// What a persistent agent is doing.
#[derive(Debug, Clone, Copy, PartialEq, Eq, Structural)]
pub enum AgentStatus {
    Idle,
    Working(u32),
    Draining,
}

/// A persistent agent as the pool sees it: its id, role, status and the
/// number of tasks it completed. Its work and result channels are the
/// caller's, keyed by the id.
#[derive(Debug, Clone)]
pub struct PersistentAgent {
    pub id: String,
    pub role: String,
    pub status: AgentStatus,
    pub tasks_completed: u32,
}

/// Model of a persistent agent.
pub struct AgentView {
    pub id: Seq<char>,
    pub role: Seq<char>,
    pub status: AgentStatus,
    pub tasks_completed: u32,
}

impl View for PersistentAgent {
    type V = AgentView;

    open spec fn view(&self) -> AgentView {
        AgentView { id: self.id@, role: self.role@, status: self.status, tasks_completed: self.tasks_completed }
    }
}

/// Position of the agent with the given id.
pub open spec fn agent_index(agents: Seq<AgentView>, id: Seq<char>) -> Option<int>
    decreases agents.len(),
{
    if agents.len() == 0 {
        None
    } else {
        match agent_index(agents.drop_last(), id) {
            Some(i) => Some(i),
            None => if agents.last().id == id {
                Some(agents.len() - 1)
            } else {
                None
            },
        }
    }
}

proof fn lemma_agent_index_at(agents: Seq<AgentView>, id: Seq<char>, i: int)
    requires
        0 <= i < agents.len(),
        agents[i].id == id,
        agent_index(agents.take(i), id) is None,
    ensures
        agent_index(agents, id) == Some(i),
    decreases agents.len(),
{
    if agents.len() - 1 == i {
        assert(agents.drop_last() =~= agents.take(i));
    } else {
        assert(agents.drop_last().take(i) =~= agents.take(i));
        lemma_agent_index_at(agents.drop_last(), id, i);
    }
}

/// The ids of the idle agents, in pool order.
pub open spec fn idle_ids(agents: Seq<AgentView>) -> Seq<Seq<char>>
    decreases agents.len(),
{
    if agents.len() == 0 {
        Seq::empty()
    } else if agents.last().status == AgentStatus::Idle {
        idle_ids(agents.drop_last()).push(agents.last().id)
    } else {
        idle_ids(agents.drop_last())
    }
}

/// Agents that stay between tasks, by id.
pub struct PersistentAgentPool {
    agents: Vec<PersistentAgent>,
}

impl View for PersistentAgentPool {
    type V = Seq<AgentView>;

    closed spec fn view(&self) -> Seq<AgentView> {
        self.agents@.map_values(|a: PersistentAgent| a@)
    }
}

impl Default for PersistentAgentPool {
    fn default() -> (p: Self)
        ensures
            p@.len() == 0,
    {
        PersistentAgentPool::new()
    }
}

impl PersistentAgentPool {
    /// A pool without agents.
    pub fn new() -> (p: PersistentAgentPool)
        ensures
            p@.len() == 0,
    {
        let p = PersistentAgentPool { agents: Vec::new() };
        assert(p@ =~= Seq::<AgentView>::empty());
        p
    }

    fn index_of(&self, id: &str) -> (r: Option<usize>)
        ensures
            match r {
                Some(i) => i < self@.len() && agent_index(self@, id@) == Some(i as int),
                None => agent_index(self@, id@) is None,
            },
    {
        let ghost v = self@;
        let mut i: usize = 0;
        while i < self.agents.len()
            invariant
                i <= self.agents.len(),
                v == self@,
                v.len() == self.agents.len(),
                agent_index(v.take(i as int), id@) is None,
            decreases self.agents.len() - i,
        {
            proof {
                assert(v.take(i + 1).drop_last() =~= v.take(i as int));
                assert(v[i as int] == self.agents@[i as int]@);
            }
            if crate::text::str_eq(self.agents[i].id.as_str(), id) {
                proof {
                    lemma_agent_index_at(v, id@, i as int);
                }
                return Some(i);
            }
            i = i + 1;
        }
        assert(v.take(i as int) =~= v);
        None
    }

    /// The ids of the idle agents, in pool order.
    pub fn idle_agents(&self) -> (r: Vec<&str>)
        ensures
            r@.map_values(|s: &str| s@) == idle_ids(self@),
    {
        let ghost v = self@;
        let mut r: Vec<&str> = Vec::new();
        let mut i: usize = 0;
        while i < self.agents.len()
            invariant
                i <= self.agents.len(),
                v == self@,
                v.len() == self.agents.len(),
                r@.map_values(|s: &str| s@) == idle_ids(v.take(i as int)),
            decreases self.agents.len() - i,
        {
            proof {
                assert(v.take(i + 1).drop_last() =~= v.take(i as int));
                assert(v[i as int] == self.agents@[i as int]@);
            }
            let ghost before = r@.map_values(|s: &str| s@);
            if self.agents[i].status == AgentStatus::Idle {
                r.push(self.agents[i].id.as_str());
                assert(r@.map_values(|s: &str| s@) =~= before.push(v[i as int].id));
            }
            i = i + 1;
        }
        assert(v.take(i as int) =~= v);
        r
    }

    /// Give a task to an idle agent: `true`, and the agent works on the
    /// task, when the agent exists and is idle; otherwise `false` and
    /// nothing changes.
    pub fn assign(&mut self, agent_id: &str, task_id: u32) -> (ok: bool)
        ensures
            match agent_index(old(self)@, agent_id@) {
                Some(i) => if old(self)@[i].status == AgentStatus::Idle {
                    ok && final(self)@ == old(self)@.update(i, AgentView {
                        status: AgentStatus::Working(task_id),
                        ..old(self)@[i]
                    })
                } else {
                    !ok && final(self)@ == old(self)@
                },
                None => !ok && final(self)@ == old(self)@,
            },
    {
        let ghost before = self@;
        match self.index_of(agent_id) {
            Some(i) => {
                if self.agents[i].status == AgentStatus::Idle {
                    assert(before[i as int] == self.agents@[i as int]@);
                    let mut a = self.agents.remove(i);
                    a.status = AgentStatus::Working(task_id);
                    let ghost av = a@;
                    self.agents.insert(i, a);
                    assert(self@ =~= before.update(i as int, av));
                    true
                } else {
                    assert(before[i as int] == self.agents@[i as int]@);
                    false
                }
            },
            None => false,
        }
    }

    /// An agent finished: it becomes idle and its completed count grows by
    /// one (staying at the maximum once there). Unknown ids are ignored.
    pub fn release(&mut self, agent_id: &str)
        ensures
            final(self)@ == match agent_index(old(self)@, agent_id@) {
                Some(i) => old(self)@.update(i, AgentView {
                    status: AgentStatus::Idle,
                    tasks_completed: if old(self)@[i].tasks_completed == u32::MAX {
                        u32::MAX
                    } else {
                        (old(self)@[i].tasks_completed + 1) as u32
                    },
                    ..old(self)@[i]
                }),
                None => old(self)@,
            },
    {
        let ghost before = self@;
        match self.index_of(agent_id) {
            Some(i) => {
                assert(before[i as int] == self.agents@[i as int]@);
                let mut a = self.agents.remove(i);
                a.status = AgentStatus::Idle;
                a.tasks_completed = a.tasks_completed.saturating_add(1);
                let ghost av = a@;
                self.agents.insert(i, a);
                assert(self@ =~= before.update(i as int, av));
            },
            None => {},
        }
    }
}

/// A unit of work handed to a persistent agent.
#[derive(Debug, Clone)]
pub struct AgentWork {
    pub task_id: u32,
    pub task_title: String,
    pub prompt: String,
}

/// What a persistent agent reports back for a unit of work.
#[derive(Debug, Clone)]
pub struct AgentResult {
    pub task_id: u32,
    pub success: bool,
    pub output: String,
}

/// Comparison applied by a metric guard.
#[derive(Debug, Clone, Copy, PartialEq, Eq, Structural)]
pub enum CompareOp {
    Eq,
    Neq,
    Gt,
    Lt,
    Gte,
    Lte,
}

// ── Task ids ──

/// The id a task added with `requested` gets: a fresh one for `0`.
pub open spec fn granted_id(requested: u32, next_id: u32) -> u32 {
    if requested == 0 {
        next_id
    } else {
        requested
    }
}

/// Give an added task its id (a fresh one when it asks for `0`) and move
/// the next fresh id past it.
pub fn assign_task_id(requested: u32, next_id: &mut u32) -> (id: u32)
    requires
        granted_id(requested, *old(next_id)) < u32::MAX,
    ensures
        id == granted_id(requested, *old(next_id)),
        *final(next_id) == if id >= *old(next_id) { (id + 1) as u32 } else { *old(next_id) },
{
    let id = if requested == 0 {
        *next_id
    } else {
        requested
    };
    if id >= *next_id {
        *next_id = id + 1;
    }
    id
}

// ── One tick, task by task ──

/// What a tick does with one task.
#[derive(Debug, Clone, Copy, PartialEq, Eq, Structural)]
pub enum TaskTick {
    /// Nothing happens.
    Wait,
    /// The task became ready.
    MadeReady,
    /// The task needs an agent.
    NeedsAgent,
    /// The task runs: its while-running hooks fire.
    FireRunningHooks,
    /// The failed task is tried again.
    Retried,
}

/// What a tick does with a task in `state`: a pending task whose
/// dependencies are done and whose guard holds becomes ready, as does a
/// suspended one whose guard holds; ready and persistent tasks need an
/// agent; running ones fire their while-running hooks; a failed task is
/// retried while retries are left.
pub open spec fn tick_of(state: TaskState, deps_met: bool, guard_pass: bool, retry_count: u32, max_retries: u32) -> TaskTick {
    match state {
        TaskState::Pending => if deps_met && guard_pass {
            TaskTick::MadeReady
        } else {
            TaskTick::Wait
        },
        TaskState::Ready => TaskTick::NeedsAgent,
        TaskState::Running => TaskTick::FireRunningHooks,
        TaskState::Suspended => if guard_pass {
            TaskTick::MadeReady
        } else {
            TaskTick::Wait
        },
        TaskState::Failed => if retry_count < max_retries {
            TaskTick::Retried
        } else {
            TaskTick::Wait
        },
        TaskState::Persistent => TaskTick::NeedsAgent,
        _ => TaskTick::Wait,
    }
}

/// Tick one task (see [`tick_of`]); `guard_pass` is whether its guard holds
/// (true when it has none). A task made ready or retried moves to `Ready`;
/// a retry counts.
pub fn tick_task(
    state: &mut TaskState,
    retry_count: &mut u32,
    max_retries: u32,
    deps_met: bool,
    guard_pass: bool,
) -> (t: TaskTick)
    ensures
        t == tick_of(*old(state), deps_met, guard_pass, *old(retry_count), max_retries),
        *final(state) == if t == TaskTick::MadeReady || t == TaskTick::Retried {
            TaskState::Ready
        } else {
            *old(state)
        },
        *final(retry_count) == if t == TaskTick::Retried {
            (*old(retry_count) + 1) as u32
        } else {
            *old(retry_count)
        },
        t == TaskTick::MadeReady ==> (*old(state) == TaskState::Pending && deps_met && guard_pass) || (*old(
            state,
        ) == TaskState::Suspended && guard_pass),
        *old(state) == TaskState::Pending ==> (t == TaskTick::MadeReady <==> deps_met && guard_pass),
        *old(state) == TaskState::Suspended ==> (t == TaskTick::MadeReady <==> guard_pass),
        (*old(state) == TaskState::Suspended || *old(state) == TaskState::Pending) && !guard_pass ==> t
            == TaskTick::Wait && *final(state) == *old(state),
        t == TaskTick::Retried <==> (*old(state) == TaskState::Failed && *old(retry_count) < max_retries),
        *final(state) != *old(state) ==> *final(state) == TaskState::Ready,
{
    match *state {
        TaskState::Pending => {
            if deps_met && guard_pass {
                *state = TaskState::Ready;
                TaskTick::MadeReady
            } else {
                TaskTick::Wait
            }
        },
        TaskState::Ready => TaskTick::NeedsAgent,
        TaskState::Running => TaskTick::FireRunningHooks,
        TaskState::Suspended => {
            if guard_pass {
                *state = TaskState::Ready;
                TaskTick::MadeReady
            } else {
                TaskTick::Wait
            }
        },
        TaskState::Failed => {
            if *retry_count < max_retries {
                *retry_count = *retry_count + 1;
                *state = TaskState::Ready;
                TaskTick::Retried
            } else {
                TaskTick::Wait
            }
        },
        TaskState::Persistent => TaskTick::NeedsAgent,
        _ => TaskTick::Wait,
    }
}

/// The state recorded for a task id: the first entry with that id.
pub open spec fn state_of(states: Seq<(u32, TaskState)>, id: u32) -> Option<TaskState>
    decreases states.len(),
{
    if states.len() == 0 {
        None
    } else if states[0].0 == id {
        Some(states[0].1)
    } else {
        state_of(states.drop_first(), id)
    }
}

/// The state of the task with the given id.
pub fn state_lookup(states: &[(u32, TaskState)], id: u32) -> (r: Option<TaskState>)
    ensures
        r == state_of(states@, id),
{
    let mut i: usize = 0;
    assert(states@.skip(0) =~= states@);
    while i < states.len()
        invariant
            i <= states@.len(),
            state_of(states@, id) == state_of(states@.skip(i as int), id),
        decreases states.len() - i,
    {
        assert(states@.skip(i as int)[0] == states@[i as int]);
        assert(states@.skip(i as int).drop_first() =~= states@.skip(i + 1));
        if states[i].0 == id {
            return Some(states[i].1);
        }
        i = i + 1;
    }
    None
}

/// Whether the first entry recorded for the id says the task is done.
pub open spec fn recorded_done(states: Seq<(u32, TaskState)>, id: u32) -> bool {
    exists|i: int|
        0 <= i < states.len() && #[trigger] states[i] == (id, TaskState::Done) && forall|k: int|
            0 <= k < i ==> (#[trigger] states[k]).0 != id
}

/// Whether every dependency is a task that is done.
pub open spec fn all_deps_done(deps: Seq<u32>, states: Seq<(u32, TaskState)>) -> bool {
    forall|i: int| 0 <= i < deps.len() ==> state_of(states, #[trigger] deps[i]) == Some(TaskState::Done)
}

/// Whether the dependencies of a task are all done; an unknown one is not.
pub fn deps_met(deps: &[u32], states: &[(u32, TaskState)]) -> (b: bool)
    ensures
        b == all_deps_done(deps@, states@),
        b <==> forall|j: int| 0 <= j < deps@.len() ==> recorded_done(states@, #[trigger] deps@[j]),
{
    proof {
        assert forall|j: int| 0 <= j < deps@.len() implies (state_of(states@, #[trigger] deps@[j]) == Some(TaskState::Done)
            <==> recorded_done(states@, deps@[j])) by {
            lemma_state_of_first(states@, deps@[j], TaskState::Done);
        }
    }
    let mut i: usize = 0;
    while i < deps.len()
        invariant
            i <= deps@.len(),
            forall|j: int| 0 <= j < i ==> state_of(states@, #[trigger] deps@[j]) == Some(TaskState::Done),
        decreases deps.len() - i,
    {
        match state_lookup(states, deps[i]) {
            Some(TaskState::Done) => {},
            _ => {
                proof {
                    lemma_state_of_first(states@, deps@[i as int], TaskState::Done);
                    assert(!recorded_done(states@, deps@[i as int]));
                }
                return false;
            },
        }
        i = i + 1;
    }
    true
}

// ── Hooks of the whole orchestrator ──

/// The positions, in order, of the flags that are set among the first `n`.
pub open spec fn set_positions(flags: Seq<bool>, n: int) -> Seq<usize>
    decreases n,
{
    if n <= 0 {
        Seq::empty()
    } else if flags[n - 1] {
        set_positions(flags, n - 1).push((n - 1) as usize)
    } else {
        set_positions(flags, n - 1)
    }
}

/// The positions picked are exactly those of the set flags, in increasing order.
pub proof fn lemma_set_positions(flags: Seq<bool>, n: int)
    requires
        0 <= n <= flags.len() <= usize::MAX,
    ensures
        forall|j: int|
            0 <= j < set_positions(flags, n).len() ==> (#[trigger] set_positions(flags, n)[j]) < n && flags[set_positions(
                flags,
                n,
            )[j] as int],
        forall|a: int, b: int|
            0 <= a < b < set_positions(flags, n).len() ==> (#[trigger] set_positions(flags, n)[a]) < (
            #[trigger] set_positions(flags, n)[b]),
        forall|i: int| 0 <= i < n && #[trigger] flags[i] ==> set_positions(flags, n).contains(i as usize),
    decreases n,
{
    if n > 0 {
        lemma_set_positions(flags, n - 1);
        let p = set_positions(flags, n - 1);
        if flags[n - 1] {
            let q = p.push((n - 1) as usize);
            assert(q[p.len() as int] == (n - 1) as usize);
            assert(q == set_positions(flags, n));
            assert forall|j: int| 0 <= j < q.len() implies (#[trigger] q[j]) < n && flags[q[j] as int] by {
                if j < p.len() {
                    assert(q[j] == p[j]);
                }
            }
            assert forall|a: int, b: int| 0 <= a < b < q.len() implies (#[trigger] q[a]) < (#[trigger] q[b]) by {
                assert(q[a] == p[a] || a == p.len());
                if b < p.len() {
                    assert(q[a] == p[a] && q[b] == p[b]);
                } else {
                    assert(q[a] == p[a]);
                }
            }
            assert forall|i: int| 0 <= i < n && #[trigger] flags[i] implies q.contains(i as usize) by {
                if i < n - 1 {
                    let j = choose|j: int| 0 <= j < p.len() && p[j] == i as usize;
                    assert(q[j] == p[j]);
                }
            }
        }
    }
}

/// The rest of a task's tick: a retried task's error is cleared, and a
/// running task fires its while-running hooks, given for each hook whether
/// its trigger is `WhileRunning`. Returns the positions of the hooks that
/// fire, in order.
pub fn tick_effects(t: TaskTick, error: &mut Option<String>, while_running: &[bool]) -> (fired: Vec<usize>)
    ensures
        *final(error) == if t == TaskTick::Retried {
            None
        } else {
            *old(error)
        },
        fired@ == if t == TaskTick::FireRunningHooks {
            set_positions(while_running@, while_running@.len() as int)
        } else {
            Seq::empty()
        },
{
    let mut fired: Vec<usize> = Vec::new();
    match t {
        TaskTick::Retried => {
            *error = None;
        },
        TaskTick::FireRunningHooks => {
            let mut i: usize = 0;
            while i < while_running.len()
                invariant
                    i <= while_running.len(),
                    fired@ == set_positions(while_running@, i as int),
                decreases while_running.len() - i,
            {
                if while_running[i] {
                    fired.push(i);
                }
                i = i + 1;
            }
        },
        _ => {},
    }
    fired
}

/// What a global hook waits for, as far as a tick can tell.
#[derive(Debug, Clone, Copy, PartialEq, Eq, Structural)]
pub enum GlobalTrigger {
    /// A `When` hook: whether its condition holds and whether its own guard
    /// holds (true when it has none).
    When { condition: bool, hook_guard: bool },
    /// An `OnEvent` hook: whether its event was emitted.
    OnEvent { emitted: bool },
    /// Any other trigger, which a tick does not fire.
    Other,
}

/// Whether a tick fires a global hook: a `When` hook whose guard and
/// condition hold, or an `OnEvent` hook whose event was emitted, unless it
/// has already fired as often as it may.
pub open spec fn hook_fires_spec(trigger: GlobalTrigger, max_fires: Option<u32>, fire_count: u32) -> bool {
    let wanted = match trigger {
        GlobalTrigger::When { condition, hook_guard } => hook_guard && condition,
        GlobalTrigger::OnEvent { emitted } => emitted,
        GlobalTrigger::Other => false,
    };
    wanted && match max_fires {
        Some(m) => fire_count < m,
        None => true,
    }
}

/// Whether a tick fires a global hook (see [`hook_fires_spec`]).
pub fn hook_fires(trigger: GlobalTrigger, max_fires: Option<u32>, fire_count: u32) -> (b: bool)
    ensures
        b == hook_fires_spec(trigger, max_fires, fire_count),
        (max_fires matches Some(m) && fire_count >= m) ==> !b,
        trigger is Other ==> !b,
        !(max_fires matches Some(m) && fire_count >= m) ==> (trigger matches GlobalTrigger::When {
            condition,
            hook_guard,
        } ==> (b <==> condition && hook_guard)),
        !(max_fires matches Some(m) && fire_count >= m) ==> (trigger matches GlobalTrigger::OnEvent { emitted } ==> (b
            <==> emitted)),
{
    let wanted = match trigger {
        GlobalTrigger::When { condition, hook_guard } => hook_guard && condition,
        GlobalTrigger::OnEvent { emitted } => emitted,
        GlobalTrigger::Other => false,
    };
    if !wanted {
        return false;
    }
    match max_fires {
        Some(m) => fire_count < m,
        None => true,
    }
}

// ── Transitions and events ──

/// The name a state is printed with.
pub open spec fn state_name(s: TaskState) -> Seq<char> {
    match s {
        TaskState::Pending => "Pending"@,
        TaskState::Ready => "Ready"@,
        TaskState::Running => "Running"@,
        TaskState::Suspended => "Suspended"@,
        TaskState::Done => "Done"@,
        TaskState::Failed => "Failed"@,
        TaskState::Skipped => "Skipped"@,
        TaskState::Persistent => "Persistent"@,
    }
}

/// The name a state is printed with.
pub fn state_label(s: TaskState) -> (r: &'static str)
    ensures
        r@ == state_name(s),
{
    match s {
        TaskState::Pending => "Pending",
        TaskState::Ready => "Ready",
        TaskState::Running => "Running",
        TaskState::Suspended => "Suspended",
        TaskState::Done => "Done",
        TaskState::Failed => "Failed",
        TaskState::Skipped => "Skipped",
        TaskState::Persistent => "Persistent",
    }
}

/// Move the task `id` in `state` to `next`. An allowed move is reported as
/// `Task #<id>: <state now> → <next>` (the state is read after the move, so
/// both sides name `next`); a refused one as `Invalid transition: <state> → <next>`.
pub fn transition_task(id: u32, state: &mut TaskState, next: TaskState) -> (r: Result<String, String>)
    ensures
        spec_can_step(*old(state), next) ==> *final(state) == next && (r matches Ok(m) && m@ == "Task #"@
            + dec(id as nat) + ": "@ + state_name(next) + " → "@ + state_name(next)),
        !spec_can_step(*old(state), next) ==> *final(state) == *old(state) && (r matches Err(m) && m@
            == "Invalid transition: "@ + state_name(*old(state)) + " → "@ + state_name(next)),
{
    if state.try_transition(next) {
        let mut m = to_string("Task #");
        let n = dec_string(id as u64);
        push_str(&mut m, n.as_str());
        push_str(&mut m, ": ");
        push_str(&mut m, state_label(*state));
        push_str(&mut m, " → ");
        push_str(&mut m, state_label(next));
        Ok(m)
    } else {
        let mut m = to_string("Invalid transition: ");
        push_str(&mut m, state_label(*state));
        push_str(&mut m, " → ");
        push_str(&mut m, state_label(next));
        Err(m)
    }
}

/// The key of the event raised when a task finishes: `task.done.<id>` or
/// `task.failed.<id>`.
pub fn result_event_key(task_id: u32, success: bool) -> (r: String)
    ensures
        r@ == (if success { "task.done."@ } else { "task.failed."@ }) + dec(task_id as nat),
{
    let mut r = if success {
        to_string("task.done.")
    } else {
        to_string("task.failed.")
    };
    let n = dec_string(task_id as u64);
    push_str(&mut r, n.as_str());
    r
}

// ── Status listing ──

/// What the status listing shows of a task.
#[derive(Debug, Clone)]
pub struct StatusRow {
    pub id: u32,
    pub title: String,
    pub state: TaskState,
    pub agent: Option<String>,
    pub guarded: bool,
    pub retry_count: u32,
    pub max_retries: u32,
    pub order: usize,
}

/// The icon of a state in the status listing.
pub open spec fn state_icon(s: TaskState) -> Seq<char> {
    match s {
        TaskState::Pending => "○"@,
        TaskState::Ready => "◐"@,
        TaskState::Running => "◉"@,
        TaskState::Suspended => "⏸"@,
        TaskState::Done => "✓"@,
        TaskState::Failed => "✗"@,
        TaskState::Skipped => "→"@,
        TaskState::Persistent => "∞"@,
    }
}

fn icon_of(s: TaskState) -> (r: &'static str)
    ensures
        r@ == state_icon(s),
{
    match s {
        TaskState::Pending => "○",
        TaskState::Ready => "◐",
        TaskState::Running => "◉",
        TaskState::Suspended => "⏸",
        TaskState::Done => "✓",
        TaskState::Failed => "✗",
        TaskState::Skipped => "→",
        TaskState::Persistent => "∞",
    }
}

/// One line of the status listing: icon, id, title, then the agent, a
/// guard mark and the retry count where they apply.
pub open spec fn status_line(r: StatusRow) -> Seq<char> {
    "  "@ + state_icon(r.state) + " #"@ + dec(r.id as nat) + " "@ + r.title@ + match r.agent {
        Some(a) => " @"@ + a@,
        None => Seq::empty(),
    } + if r.guarded {
        " [guarded]"@
    } else {
        Seq::empty()
    } + if r.max_retries > 0 {
        " (retry "@ + dec(r.retry_count as nat) + "/"@ + dec(r.max_retries as nat) + ")"@
    } else {
        Seq::empty()
    } + "\n"@
}

/// The lines of the rows, one after another.
pub open spec fn status_text(rows: Seq<StatusRow>) -> Seq<char>
    decreases rows.len(),
{
    if rows.len() == 0 {
        Seq::empty()
    } else {
        status_text(rows.drop_last()) + status_line(rows.last())
    }
}

/// Rows with their order as the key.
pub open spec fn rows_by_order(rows: Seq<StatusRow>) -> Seq<(StatusRow, crate::sort::KeyView)> {
    rows.map_values(|r: StatusRow| (r, crate::sort::KeyView::Num(r.order as nat)))
}

/// One line of the status listing.
pub fn format_status_line(r: &StatusRow) -> (s: String)
    ensures
        s@ == status_line(*r),
{
    let mut s = to_string("  ");
    push_str(&mut s, icon_of(r.state));
    push_str(&mut s, " #");
    let n = dec_string(r.id as u64);
    push_str(&mut s, n.as_str());
    push_str(&mut s, " ");
    push_str(&mut s, r.title.as_str());
    match &r.agent {
        Some(a) => {
            push_str(&mut s, " @");
            push_str(&mut s, a.as_str());
        },
        None => {},
    }
    if r.guarded {
        push_str(&mut s, " [guarded]");
    }
    if r.max_retries > 0 {
        push_str(&mut s, " (retry ");
        let a = dec_string(r.retry_count as u64);
        push_str(&mut s, a.as_str());
        push_str(&mut s, "/");
        let b = dec_string(r.max_retries as u64);
        push_str(&mut s, b.as_str());
        push_str(&mut s, ")");
    }
    push_str(&mut s, "\n");
    proof {
        reveal_strlit("");
    }
    s
}

/// The status listing: one line per task, by order (tasks of equal order
/// keep the order they were given in).
pub fn format_status(rows: Vec<StatusRow>) -> (s: String)
    ensures
        s@ == status_text(unkeyed(sort_keyed(rows_by_order(rows@)))),
{
    let ghost rv = rows@;
    assert(rv.len() == rows.len());
    let mut pairs: Vec<(StatusRow, SortKey)> = Vec::new();
    let mut rest = rows;
    let mut i: usize = 0;
    while rest.len() > 0
        invariant
            i + rest.len() == rv.len(),
            rv.len() <= usize::MAX,
            rest@ == rv.skip(i as int),
            keyed(pairs@) == rows_by_order(rv.take(i as int)),
        decreases rest.len(),
    {
        let r = rest.remove(0);
        proof {
            assert(rv.skip(i as int)[0] == r);
            assert(rest@ =~= rv.skip(i + 1));
        }
        let k = SortKey::Num(r.order as u64);
        let ghost before = keyed(pairs@);
        pairs.push((r, k));
        assert(keyed(pairs@) =~= before.push((r, crate::sort::KeyView::Num(r.order as nat))));
        assert(rv.take(i + 1) =~= rv.take(i as int).push(r));
        assert(rows_by_order(rv.take(i + 1)) =~= rows_by_order(rv.take(i as int)).push(
            (r, crate::sort::KeyView::Num(r.order as nat)),
        ));
        i = i + 1;
    }
    assert(rv.take(i as int) =~= rv);
    let sorted = stable_sort(pairs);
    let ghost ordered = unkeyed(keyed(sorted@));
    let mut out = String::new();
    let mut j: usize = 0;
    assert(status_text(ordered.take(0)) =~= Seq::<char>::empty()) by {
        assert(ordered.take(0) =~= Seq::<StatusRow>::empty());
    }
    while j < sorted.len()
        invariant
            j <= sorted.len(),
            ordered == unkeyed(keyed(sorted@)),
            ordered.len() == sorted.len(),
            out@ == status_text(ordered.take(j as int)),
        decreases sorted.len() - j,
    {
        let line = format_status_line(&sorted[j].0);
        push_str(&mut out, line.as_str());
        proof {
            assert(ordered[j as int] == sorted@[j as int].0);
            assert(ordered.take(j + 1).drop_last() =~= ordered.take(j as int));
        }
        j = j + 1;
    }
    assert(ordered.take(j as int) =~= ordered);
    out
}

// ── Guards ──

/// A task's or hook's condition. Conditions only the caller can judge
/// (comparisons of metric values, custom guards) stand as numbered leaves,
/// whose truth is given when the guard is evaluated.
#[derive(Debug)]
pub enum GuardTree {
    Always,
    Never,
    /// The task with this id is done.
    TaskDone(u32),
    /// The task with this id is in this state.
    TaskIs(u32, TaskState),
    /// An event with this key was emitted.
    EventEmitted(String),
    /// The condition with this number holds.
    Leaf(usize),
    And(Vec<GuardTree>),
    Or(Vec<GuardTree>),
    Not(Box<GuardTree>),
}

/// Whether a guard holds, given the task states, the event log and the
/// truth of the leaves (a leaf without a value does not hold). `And` of
/// nothing holds, `Or` of nothing does not.
pub open spec fn holds(g: GuardTree, states: Seq<(u32, TaskState)>, log: Seq<EventRecord>, leaves: Seq<bool>) -> bool
    decreases g,
{
    match g {
        GuardTree::Always => true,
        GuardTree::Never => false,
        GuardTree::TaskDone(id) => state_of(states, id) == Some(TaskState::Done),
        GuardTree::TaskIs(id, s) => state_of(states, id) == Some(s),
        GuardTree::EventEmitted(k) => key_emitted(log, k@),
        GuardTree::Leaf(i) => i < leaves.len() && leaves[i as int],
        GuardTree::And(gs) => all_hold(gs@, states, log, leaves),
        GuardTree::Or(gs) => any_holds(gs@, states, log, leaves),
        GuardTree::Not(b) => !holds(*b, states, log, leaves),
    }
}

/// Whether every guard of the list holds.
pub open spec fn all_hold(gs: Seq<GuardTree>, states: Seq<(u32, TaskState)>, log: Seq<EventRecord>, leaves: Seq<bool>) -> bool
    decreases gs,
{
    if gs.len() == 0 {
        true
    } else {
        holds(gs[0], states, log, leaves) && all_hold(gs.drop_first(), states, log, leaves)
    }
}

/// Whether some guard of the list holds.
pub open spec fn any_holds(gs: Seq<GuardTree>, states: Seq<(u32, TaskState)>, log: Seq<EventRecord>, leaves: Seq<bool>) -> bool
    decreases gs,
{
    if gs.len() == 0 {
        false
    } else {
        holds(gs[0], states, log, leaves) || any_holds(gs.drop_first(), states, log, leaves)
    }
}

impl GuardTree {
    /// Evaluate the guard (see [`holds`]).
    pub fn evaluate(&self, states: &[(u32, TaskState)], bus: &EventBus, leaves: &[bool]) -> (b: bool)
        ensures
            b == holds(*self, states@, bus@, leaves@),
            *self is Always ==> b,
            *self is Never ==> !b,
            *self matches GuardTree::Not(x) ==> b == !holds(*x, states@, bus@, leaves@),
            *self matches GuardTree::And(gs) ==> (b <==> forall|i: int|
                0 <= i < gs@.len() ==> holds(#[trigger] gs@[i], states@, bus@, leaves@)),
            *self matches GuardTree::Or(gs) ==> (b <==> exists|i: int|
                0 <= i < gs@.len() && holds(#[trigger] gs@[i], states@, bus@, leaves@)),
            *self matches GuardTree::TaskDone(id) ==> (b <==> exists|i: int|
                0 <= i < states@.len() && #[trigger] states@[i] == (id, TaskState::Done) && forall|k: int|
                    0 <= k < i ==> (#[trigger] states@[k]).0 != id),
            *self matches GuardTree::Leaf(i) ==> (b <==> i < leaves@.len() && leaves@[i as int]),
            *self matches GuardTree::EventEmitted(key) ==> (b <==> exists|i: int|
                0 <= i < bus@.len() && (#[trigger] bus@[i]).key == key@),
        decreases self,
    {
        proof {
            match self {
                GuardTree::And(gs) => lemma_all_hold(gs@, states@, bus@, leaves@),
                GuardTree::Or(gs) => lemma_any_holds(gs@, states@, bus@, leaves@),
                GuardTree::TaskDone(id) => lemma_state_of_first(states@, *id, TaskState::Done),
                _ => {},
            }
        }
        match self {
            GuardTree::Always => true,
            GuardTree::Never => false,
            GuardTree::TaskDone(id) => match state_lookup(states, *id) {
                Some(TaskState::Done) => true,
                _ => false,
            },
            GuardTree::TaskIs(id, s) => match state_lookup(states, *id) {
                Some(t) => t == *s,
                None => false,
            },
            GuardTree::EventEmitted(k) => bus.has_emitted(k.as_str()),
            GuardTree::Leaf(i) => *i < leaves.len() && leaves[*i],
            GuardTree::And(gs) => {
                let mut i: usize = 0;
                assert(gs@.skip(0) =~= gs@);
                while i < gs.len()
                    invariant
                        i <= gs@.len(),
                        *self == GuardTree::And(*gs),
                        all_hold(gs@, states@, bus@, leaves@) == all_hold(gs@.skip(i as int), states@, bus@, leaves@),
                    decreases gs.len() - i,
                {
                    proof {
                        assert(gs@.skip(i as int)[0] == gs@[i as int]);
                        assert(gs@.skip(i as int).drop_first() =~= gs@.skip(i + 1));
                        assert(decreases_to!(*self => (*self)->And_0));
                        assert(decreases_to!(*gs => gs@));
                        assert(decreases_to!(gs@ => gs@[i as int]));
                    }
                    if !gs[i].evaluate(states, bus, leaves) {
                        return false;
                    }
                    i = i + 1;
                }
                assert(gs@.skip(i as int) =~= Seq::<GuardTree>::empty());
                true
            },
            GuardTree::Or(gs) => {
                let mut i: usize = 0;
                assert(gs@.skip(0) =~= gs@);
                while i < gs.len()
                    invariant
                        i <= gs@.len(),
                        *self == GuardTree::Or(*gs),
                        any_holds(gs@, states@, bus@, leaves@) == any_holds(gs@.skip(i as int), states@, bus@, leaves@),
                    decreases gs.len() - i,
                {
                    proof {
                        assert(gs@.skip(i as int)[0] == gs@[i as int]);
                        assert(gs@.skip(i as int).drop_first() =~= gs@.skip(i + 1));
                        assert(decreases_to!(*self => (*self)->Or_0));
                        assert(decreases_to!(*gs => gs@));
                        assert(decreases_to!(gs@ => gs@[i as int]));
                    }
                    if gs[i].evaluate(states, bus, leaves) {
                        return true;
                    }
                    i = i + 1;
                }
                assert(gs@.skip(i as int) =~= Seq::<GuardTree>::empty());
                false
            },
            GuardTree::Not(b) => !b.evaluate(states, bus, leaves),
        }
    }
}

/// A tick never lets a task use more retries than it has: a task is retried
/// only while retries are left, so the count stays within the limit.
pub proof fn lemma_retries_bounded(state: TaskState, deps_met: bool, guard_pass: bool, retry_count: u32, max_retries: u32)
    requires
        retry_count <= max_retries,
    ensures
        tick_of(state, deps_met, guard_pass, retry_count, max_retries) == TaskTick::Retried ==> retry_count + 1
            <= max_retries,
        tick_of(state, deps_met, guard_pass, retry_count, max_retries) == TaskTick::Retried ==> state
            == TaskState::Failed,
{
}

/// A pending task becomes ready only when its dependencies are done and its
/// guard holds; a tick moves no task anywhere but to `Ready`.
pub proof fn lemma_ready_needs_deps_and_guard(state: TaskState, deps_met: bool, guard_pass: bool, retry_count: u32, max_retries: u32)
    ensures
        state == TaskState::Pending && tick_of(state, deps_met, guard_pass, retry_count, max_retries)
            == TaskTick::MadeReady ==> deps_met && guard_pass,
        tick_of(state, deps_met, guard_pass, retry_count, max_retries) == TaskTick::MadeReady ==> spec_can_step(
            state,
            TaskState::Ready,
        ),
{
}

/// What a tick does with a task, by its state: a pending task becomes ready
/// exactly when its dependencies are done and its guard holds; a suspended
/// task exactly when its guard holds; a failed task is retried exactly while
/// retries are left; ready and persistent tasks need an agent, running ones
/// fire their hooks; nothing else happens.
pub proof fn lemma_tick_by_state(state: TaskState, deps_met: bool, guard_pass: bool, retry_count: u32, max_retries: u32)
    ensures
        ({
            let t = tick_of(state, deps_met, guard_pass, retry_count, max_retries);
            &&& t == TaskTick::MadeReady <==> ((state == TaskState::Pending && deps_met && guard_pass) || (state
                == TaskState::Suspended && guard_pass))
            &&& t == TaskTick::Retried <==> (state == TaskState::Failed && retry_count < max_retries)
            &&& t == TaskTick::NeedsAgent <==> (state == TaskState::Ready || state == TaskState::Persistent)
            &&& t == TaskTick::FireRunningHooks <==> state == TaskState::Running
            &&& !guard_pass ==> t != TaskTick::MadeReady
        }),
{
}

/// Every guard of a list holds exactly when each one does.
pub proof fn lemma_all_hold(gs: Seq<GuardTree>, states: Seq<(u32, TaskState)>, log: Seq<EventRecord>, leaves: Seq<bool>)
    ensures
        all_hold(gs, states, log, leaves) <==> forall|i: int| 0 <= i < gs.len() ==> holds(#[trigger] gs[i], states, log, leaves),
    decreases gs.len(),
{
    if gs.len() > 0 {
        lemma_all_hold(gs.drop_first(), states, log, leaves);
        assert forall|i: int| 0 < i < gs.len() implies #[trigger] gs[i] == gs.drop_first()[i - 1] by {}
        if forall|i: int| 0 <= i < gs.drop_first().len() ==> holds(#[trigger] gs.drop_first()[i], states, log, leaves) {
            assert forall|i: int| 0 < i < gs.len() implies holds(#[trigger] gs[i], states, log, leaves) by {
                assert(gs[i] == gs.drop_first()[i - 1]);
            }
        }
    }
}

/// Some guard of a list holds exactly when one of them does.
pub proof fn lemma_any_holds(gs: Seq<GuardTree>, states: Seq<(u32, TaskState)>, log: Seq<EventRecord>, leaves: Seq<bool>)
    ensures
        any_holds(gs, states, log, leaves) <==> exists|i: int| 0 <= i < gs.len() && holds(#[trigger] gs[i], states, log, leaves),
    decreases gs.len(),
{
    if gs.len() > 0 {
        lemma_any_holds(gs.drop_first(), states, log, leaves);
        if exists|i: int| 0 <= i < gs.drop_first().len() && holds(#[trigger] gs.drop_first()[i], states, log, leaves) {
            let i = choose|i: int| 0 <= i < gs.drop_first().len() && holds(#[trigger] gs.drop_first()[i], states, log, leaves);
            assert(gs[i + 1] == gs.drop_first()[i]);
        }
        if exists|i: int| 0 <= i < gs.len() && holds(#[trigger] gs[i], states, log, leaves) {
            let i = choose|i: int| 0 <= i < gs.len() && holds(#[trigger] gs[i], states, log, leaves);
            if i > 0 {
                assert(gs[i] == gs.drop_first()[i - 1]);
            }
        }
    }
}

/// The state recorded for an id is that of the first entry with the id.
pub proof fn lemma_state_of_first(states: Seq<(u32, TaskState)>, id: u32, s: TaskState)
    ensures
        state_of(states, id) == Some(s) <==> exists|i: int|
            0 <= i < states.len() && #[trigger] states[i] == (id, s) && forall|k: int| 0 <= k < i ==> (#[trigger] states[k]).0 != id,
    decreases states.len(),
{
    if states.len() > 0 {
        let d = states.drop_first();
        lemma_state_of_first(d, id, s);
        if states[0].0 != id {
            if exists|i: int| 0 <= i < d.len() && #[trigger] d[i] == (id, s) && forall|k: int| 0 <= k < i ==> (#[trigger] d[k]).0 != id {
                let i = choose|i: int| 0 <= i < d.len() && #[trigger] d[i] == (id, s) && forall|k: int| 0 <= k < i ==> (#[trigger] d[k]).0 != id;
                assert(states[i + 1] == d[i]);
                assert forall|k: int| 0 <= k < i + 1 implies (#[trigger] states[k]).0 != id by {
                    if k > 0 {
                        assert(states[k] == d[k - 1]);
                    }
                }
            }
            if exists|i: int| 0 <= i < states.len() && #[trigger] states[i] == (id, s) && forall|k: int| 0 <= k < i ==> (#[trigger] states[k]).0 != id {
                let i = choose|i: int| 0 <= i < states.len() && #[trigger] states[i] == (id, s) && forall|k: int| 0 <= k < i ==> (#[trigger] states[k]).0 != id;
                assert(d[i - 1] == states[i]);
                assert forall|k: int| 0 <= k < i - 1 implies (#[trigger] d[k]).0 != id by {
                    assert(d[k] == states[k + 1]);
                }
            }
        } else {
            if exists|i: int| 0 <= i < states.len() && #[trigger] states[i] == (id, s) && forall|k: int| 0 <= k < i ==> (#[trigger] states[k]).0 != id {
                let i = choose|i: int| 0 <= i < states.len() && #[trigger] states[i] == (id, s) && forall|k: int| 0 <= k < i ==> (#[trigger] states[k]).0 != id;
                if i > 0 {
                    assert(states[0].0 != id);
                }
            }
        }
    }
}

/// The moves of the task state machine, listed: a task may be reset to
/// `Pending` from anywhere; otherwise a pending task becomes ready, a ready
/// one runs or is skipped, a running one ends done, failed, suspended or
/// persistent, a suspended one becomes ready or runs again, a done or
/// failed one becomes ready again, a persistent one runs or is suspended.
/// Nothing else moves: a skipped task only goes back to `Pending`, and no
/// task moves to `Done` except from `Running`.
pub proof fn lemma_state_machine(from: TaskState, to: TaskState)
    ensures
        spec_can_step(from, to) <==> (to == TaskState::Pending || (from, to) == (TaskState::Pending, TaskState::Ready)
            || (from, to) == (TaskState::Ready, TaskState::Running) || (from, to) == (TaskState::Ready, TaskState::Skipped)
            || (from, to) == (TaskState::Running, TaskState::Done) || (from, to) == (TaskState::Running, TaskState::Failed)
            || (from, to) == (TaskState::Running, TaskState::Suspended) || (from, to) == (TaskState::Running,
            TaskState::Persistent) || (from, to) == (TaskState::Suspended, TaskState::Ready) || (from, to) == (
            TaskState::Suspended, TaskState::Running) || (from, to) == (TaskState::Done, TaskState::Ready) || (from, to)
            == (TaskState::Failed, TaskState::Ready) || (from, to) == (TaskState::Persistent, TaskState::Running) || (
            from, to) == (TaskState::Persistent, TaskState::Suspended)),
        from == TaskState::Skipped && spec_can_step(from, to) ==> to == TaskState::Pending,
        to == TaskState::Done && spec_can_step(from, to) ==> from == TaskState::Running,
{
}

} // verus!
