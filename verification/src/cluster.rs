//! Worker slots of an agent cluster: which workers exist, which are idle,
//! which task each runs, and which idle worker takes the next task; and the
//! two steps of a cluster tick that take in finished work and hand out ready
//! tasks. Running the workers and the cluster's loop is the caller's part.
use vstd::prelude::*;
use crate::text::{dec, dec_string, push_str, str_eq, to_string};
use crate::dynamic::{result_event_key, spec_can_step, Event, EventBus, EventRecord, TaskState};

verus! {

broadcast use vstd::seq_lib::group_seq_properties;

/// What a worker is doing.
#[derive(Debug, Clone)]
pub enum WorkerState {
    Idle,
    Running { task_id: u32, agent_id: String, started_at: u64 },
    Draining,
}

/// Model of a worker state.
pub enum StateView {
    Idle,
    Running { task_id: u32, agent_id: Seq<char>, started_at: u64 },
    Draining,
}

impl View for WorkerState {
    type V = StateView;

    open spec fn view(&self) -> StateView {
        match self {
            WorkerState::Idle => StateView::Idle,
            WorkerState::Running { task_id, agent_id, started_at } => StateView::Running {
                task_id: *task_id,
                agent_id: agent_id@,
                started_at: *started_at,
            },
            WorkerState::Draining => StateView::Draining,
        }
    }
}

/// A worker of the cluster.
pub struct WorkerSlot {
    pub id: String,
    pub role: String,
    pub state: WorkerState,
    pub tasks_completed: u32,
}

/// Model of a worker.
pub struct SlotView {
    pub id: Seq<char>,
    pub role: Seq<char>,
    pub state: StateView,
    pub tasks_completed: u32,
}

impl View for WorkerSlot {
    type V = SlotView;

    open spec fn view(&self) -> SlotView {
        SlotView { id: self.id@, role: self.role@, state: self.state@, tasks_completed: self.tasks_completed }
    }
}

impl WorkerSlot {
    /// An idle worker that has completed nothing yet.
    pub fn new(id: &str, role: &str) -> (w: WorkerSlot)
        ensures
            w@ == (SlotView { id: id@, role: role@, state: StateView::Idle, tasks_completed: 0 }),
    {
        WorkerSlot { id: to_string(id), role: to_string(role), state: WorkerState::Idle, tasks_completed: 0 }
    }

    /// Whether the worker is idle.
    pub fn is_idle(&self) -> (b: bool)
        ensures
            b == (self@.state is Idle),
    {
        match self.state {
            WorkerState::Idle => true,
            _ => false,
        }
    }
}

/// What a worker produced for a task.
#[derive(Debug, Clone)]
pub struct ClusterResult {
    pub task_id: u32,
    pub worker_id: String,
    pub success: bool,
    pub output: String,
}

/// What the cluster reports as it runs.
#[derive(Debug, Clone)]
pub enum ClusterEvent {
    TaskAssigned { task_id: u32, worker_id: String },
    TaskCompleted { task_id: u32, worker_id: String, success: bool },
    TaskFailed { task_id: u32, worker_id: String, error: String },
    HookFired { hook_id: String },
    WorkerSpawned { worker_id: String },
    ClusterTick { ready: usize, running: usize, idle: usize },
    AllDone,
}

/// The workers of a cluster, by id; adding an id again replaces the worker.
pub struct WorkerPool {
    workers: Vec<WorkerSlot>,
}

/// Model of the workers.
pub open spec fn slots_view(v: Seq<WorkerSlot>) -> Seq<SlotView> {
    v.map_values(|w: WorkerSlot| w@)
}

impl View for WorkerPool {
    type V = Seq<SlotView>;

    closed spec fn view(&self) -> Seq<SlotView> {
        slots_view(self.workers@)
    }
}

/// Position of the worker with the given id.
pub open spec fn slot_index(ws: Seq<SlotView>, id: Seq<char>) -> Option<int>
    decreases ws.len(),
{
    if ws.len() == 0 {
        None
    } else {
        match slot_index(ws.drop_last(), id) {
            Some(i) => Some(i),
            None => if ws.last().id == id {
                Some(ws.len() - 1)
            } else {
                None
            },
        }
    }
}

proof fn lemma_slot_index_at(ws: Seq<SlotView>, id: Seq<char>, i: int)
    requires
        0 <= i < ws.len(),
        ws[i].id == id,
        slot_index(ws.take(i), id) is None,
    ensures
        slot_index(ws, id) == Some(i),
    decreases ws.len(),
{
    if ws.len() - 1 == i {
        assert(ws.drop_last() =~= ws.take(i));
    } else {
        assert(ws.drop_last().take(i) =~= ws.take(i));
        lemma_slot_index_at(ws.drop_last(), id, i);
    }
}

/// Whether a worker may take a task for the role hint.
pub open spec fn candidate(w: SlotView, role: Option<Seq<char>>) -> bool {
    w.state is Idle && match role {
        Some(r) => w.role == r,
        None => true,
    }
}

/// The worker that takes the next task: among the idle workers of the role,
/// the first with the fewest completed tasks.
pub open spec fn chosen(ws: Seq<SlotView>, role: Option<Seq<char>>) -> Option<int>
    decreases ws.len(),
{
    if ws.len() == 0 {
        None
    } else {
        let last = ws.len() - 1;
        match chosen(ws.drop_last(), role) {
            Some(i) => if candidate(ws[last], role) && ws[last].tasks_completed < ws[i].tasks_completed {
                Some(last)
            } else {
                Some(i)
            },
            None => if candidate(ws[last], role) {
                Some(last)
            } else {
                None
            },
        }
    }
}

/// Whether a worker is idle and of the role (any role when none is asked).
pub open spec fn idle_of_role(w: SlotView, role: Option<Seq<char>>) -> bool {
    w.state == StateView::Idle && (role matches Some(r) ==> w.role == r)
}

/// The worker chosen for a task is an idle worker of the role with the
/// fewest completed tasks (the first such one); none is chosen only when no
/// worker of the role is idle.
pub proof fn lemma_chosen_least_busy(ws: Seq<SlotView>, role: Option<Seq<char>>)
    ensures
        match chosen(ws, role) {
            Some(i) => {
                &&& 0 <= i < ws.len()
                &&& idle_of_role(ws[i], role)
                &&& forall|j: int| 0 <= j < ws.len() && idle_of_role(#[trigger] ws[j], role) ==> ws[i].tasks_completed
                    <= ws[j].tasks_completed
                &&& forall|j: int| 0 <= j < i && idle_of_role(#[trigger] ws[j], role) ==> ws[i].tasks_completed
                    < ws[j].tasks_completed
            },
            None => forall|j: int| 0 <= j < ws.len() ==> !idle_of_role(#[trigger] ws[j], role),
        },
    decreases ws.len(),
{
    if ws.len() > 0 {
        let d = ws.drop_last();
        lemma_chosen_least_busy(d, role);
        let last = ws.len() - 1;
        assert forall|j: int| 0 <= j < d.len() implies #[trigger] d[j] == ws[j] by {}
        assert forall|j: int| 0 <= j < ws.len() implies (candidate(#[trigger] ws[j], role) == idle_of_role(ws[j], role)) by {
            assert(ws[j].state is Idle <==> ws[j].state == StateView::Idle);
        }
        match chosen(d, role) {
            Some(i) => {
                if candidate(ws[last], role) && ws[last].tasks_completed < ws[i].tasks_completed {
                    assert forall|j: int| 0 <= j < ws.len() && idle_of_role(#[trigger] ws[j], role) implies ws[last].tasks_completed
                        <= ws[j].tasks_completed by {
                        if j < last {
                            assert(idle_of_role(d[j], role));
                        }
                    }
                    assert forall|j: int| 0 <= j < last && idle_of_role(#[trigger] ws[j], role) implies ws[last].tasks_completed
                        < ws[j].tasks_completed by {
                        assert(idle_of_role(d[j], role));
                    }
                } else {
                    assert forall|j: int| 0 <= j < ws.len() && idle_of_role(#[trigger] ws[j], role) implies ws[i].tasks_completed
                        <= ws[j].tasks_completed by {
                        if j < last {
                            assert(idle_of_role(d[j], role));
                        }
                    }
                    assert forall|j: int| 0 <= j < i && idle_of_role(#[trigger] ws[j], role) implies ws[i].tasks_completed
                        < ws[j].tasks_completed by {
                        assert(idle_of_role(d[j], role));
                    }
                }
            },
            None => {
                if candidate(ws[last], role) {
                    assert forall|j: int| 0 <= j < ws.len() && idle_of_role(#[trigger] ws[j], role) implies ws[last].tasks_completed
                        <= ws[j].tasks_completed by {
                        if j < last {
                            assert(!idle_of_role(d[j], role));
                        }
                    }
                    assert forall|j: int| 0 <= j < last && idle_of_role(#[trigger] ws[j], role) implies ws[last].tasks_completed
                        < ws[j].tasks_completed by {
                        assert(!idle_of_role(d[j], role));
                    }
                } else {
                    assert forall|j: int| 0 <= j < ws.len() implies !idle_of_role(#[trigger] ws[j], role) by {
                        if j < last {
                            assert(!idle_of_role(d[j], role));
                        }
                    }
                }
            },
        }
    }
}

/// Number of workers whose state satisfies `p`.
pub open spec fn count_state(ws: Seq<SlotView>, p: spec_fn(StateView) -> bool) -> nat
    decreases ws.len(),
{
    if ws.len() == 0 {
        0
    } else {
        count_state(ws.drop_last(), p) + if p(ws.last().state) {
            1nat
        } else {
            0nat
        }
    }
}

impl WorkerPool {
    /// A pool without workers.
    pub fn new() -> (p: WorkerPool)
        ensures
            p@.len() == 0,
    {
        let p = WorkerPool { workers: Vec::new() };
        assert(p@ =~= Seq::<SlotView>::empty());
        p
    }

    fn index_of(&self, id: &str) -> (r: Option<usize>)
        ensures
            match r {
                Some(i) => i < self@.len() && slot_index(self@, id@) == Some(i as int),
                None => slot_index(self@, id@) is None,
            },
    {
        let ghost ws = self@;
        let mut i: usize = 0;
        while i < self.workers.len()
            invariant
                i <= self.workers.len(),
                ws == slots_view(self.workers@),
                slot_index(ws.take(i as int), id@) is None,
            decreases self.workers.len() - i,
        {
            proof {
                assert(ws.take(i + 1).drop_last() =~= ws.take(i as int));
            }
            if str_eq(self.workers[i].id.as_str(), id) {
                proof {
                    lemma_slot_index_at(ws, id@, i as int);
                }
                return Some(i);
            }
            i = i + 1;
        }
        assert(ws.take(i as int) =~= ws);
        None
    }

    /// Add an idle worker for a role (replacing a worker with the same id) and
    /// report it as spawned.
    pub fn add_worker(&mut self, id: &str, role: &str) -> (e: ClusterEvent)
        ensures
            final(self)@ == match slot_index(old(self)@, id@) {
                Some(i) => old(self)@.update(i, SlotView { id: id@, role: role@, state: StateView::Idle, tasks_completed: 0 }),
                None => old(self)@.push(SlotView { id: id@, role: role@, state: StateView::Idle, tasks_completed: 0 }),
            },
            e matches ClusterEvent::WorkerSpawned { worker_id } && worker_id@ == id@,
    {
        let ghost before = self@;
        let slot = WorkerSlot::new(id, role);
        let ghost sv = slot@;
        match self.index_of(id) {
            Some(i) => {
                self.workers.set(i, slot);
                assert(self@ =~= before.update(i as int, sv));
            },
            None => {
                self.workers.push(slot);
                assert(self@ =~= before.push(sv));
            },
        }
        ClusterEvent::WorkerSpawned { worker_id: to_string(id) }
    }

    /// The id of the worker that takes the next task for the role hint.
    pub fn idle_worker_for_role(&self, role: Option<&str>) -> (r: Option<&str>)
        ensures
            match chosen(self@, match role { Some(x) => Some(x@), None => None }) {
                Some(i) => r matches Some(x) && x@ == self@[i].id,
                None => r is None,
            },
            r matches Some(x) ==> exists|i: int|
                0 <= i < self@.len() && #[trigger] self@[i].id == x@ && self@[i].state == StateView::Idle && (
                role matches Some(ro) ==> self@[i].role == ro@) && forall|j: int|
                    0 <= j < self@.len() && self@[j].state == StateView::Idle && (role matches Some(ro)
                        ==> self@[j].role == ro@) ==> self@[i].tasks_completed <= #[trigger] self@[j].tasks_completed,
            r is None ==> forall|j: int|
                0 <= j < self@.len() ==> !(#[trigger] self@[j].state == StateView::Idle && (role matches Some(ro)
                    ==> self@[j].role == ro@)),
    {
        proof {
            lemma_chosen_least_busy(self@, match role { Some(x) => Some(x@), None => None });
        }
        let ghost rv = match role {
            Some(x) => Some(x@),
            None => None::<Seq<char>>,
        };
        let ghost ws = self@;
        let mut best: Option<usize> = None;
        let mut i: usize = 0;
        while i < self.workers.len()
            invariant
                i <= self.workers.len(),
                ws == slots_view(self.workers@),
                rv == match role { Some(x) => Some(x@), None => None::<Seq<char>> },
                match chosen(ws.take(i as int), rv) {
                    Some(k) => 0 <= k < i && best == Some(k as usize),
                    None => best is None,
                },
            decreases self.workers.len() - i,
        {
            proof {
                assert(ws.take(i + 1).drop_last() =~= ws.take(i as int));
                assert(ws.take(i + 1)[i as int] == ws[i as int]);
                match chosen(ws.take(i as int), rv) {
                    Some(k) => {
                        assert(ws.take(i + 1)[k] == ws[k]);
                    },
                    None => {},
                }
            }
            let w = &self.workers[i];
            let fits = w.is_idle() && match role {
                Some(x) => str_eq(w.role.as_str(), x),
                None => true,
            };
            assert(fits == candidate(ws[i as int], rv));
            if fits {
                match best {
                    Some(b) => {
                        if w.tasks_completed < self.workers[b].tasks_completed {
                            best = Some(i);
                        }
                    },
                    None => {
                        best = Some(i);
                    },
                }
            }
            i = i + 1;
        }
        assert(ws.take(i as int) =~= ws);
        proof {
            assert forall|j: int| 0 <= j < ws.len() implies #[trigger] idle_of_role(ws[j], rv) == (ws[j].state
                == StateView::Idle && (role matches Some(ro) ==> ws[j].role == ro@)) by {}
        }
        match best {
            Some(b) => {
                proof {
                    assert(ws[b as int].id == self.workers@[b as int].id@);
                }
                Some(self.workers[b].id.as_str())
            },
            None => None,
        }
    }

    /// Number of idle workers.
    pub fn idle_count(&self) -> (n: usize)
        ensures
            n == count_state(self@, |s: StateView| s is Idle),
    {
        let ghost ws = self@;
        let ghost p = |s: StateView| s is Idle;
        let mut n: usize = 0;
        let mut i: usize = 0;
        while i < self.workers.len()
            invariant
                i <= self.workers.len(),
                ws == slots_view(self.workers@),
                p == (|s: StateView| s is Idle),
                n == count_state(ws.take(i as int), p),
                n <= i,
            decreases self.workers.len() - i,
        {
            proof {
                assert(ws.take(i + 1).drop_last() =~= ws.take(i as int));
            }
            if self.workers[i].is_idle() {
                n = n + 1;
            }
            i = i + 1;
        }
        assert(ws.take(i as int) =~= ws);
        n
    }

    /// Number of workers running a task.
    pub fn running_count(&self) -> (n: usize)
        ensures
            n == count_state(self@, |s: StateView| s is Running),
    {
        let ghost ws = self@;
        let ghost p = |s: StateView| s is Running;
        let mut n: usize = 0;
        let mut i: usize = 0;
        while i < self.workers.len()
            invariant
                i <= self.workers.len(),
                ws == slots_view(self.workers@),
                p == (|s: StateView| s is Running),
                n == count_state(ws.take(i as int), p),
                n <= i,
            decreases self.workers.len() - i,
        {
            proof {
                assert(ws.take(i + 1).drop_last() =~= ws.take(i as int));
            }
            match self.workers[i].state {
                WorkerState::Running { .. } => {
                    n = n + 1;
                },
                _ => {},
            }
            i = i + 1;
        }
        assert(ws.take(i as int) =~= ws);
        n
    }

    /// Whether every worker is idle.
    pub fn all_idle(&self) -> (b: bool)
        ensures
            b == (forall|i: int| 0 <= i < self@.len() ==> (#[trigger] self@[i]).state is Idle),
    {
        let mut i: usize = 0;
        while i < self.workers.len()
            invariant
                i <= self.workers.len(),
                forall|j: int| 0 <= j < i ==> (#[trigger] self@[j]).state is Idle,
            decreases self.workers.len() - i,
        {
            if !self.workers[i].is_idle() {
                assert(!(self@[i as int].state is Idle));
                return false;
            }
            i = i + 1;
        }
        true
    }

    /// Mark a worker as running a task; unknown ids are ignored.
    pub fn mark_running(&mut self, worker_id: &str, task_id: u32, started_at: u64)
        ensures
            final(self)@ == match slot_index(old(self)@, worker_id@) {
                Some(i) => old(self)@.update(i, SlotView {
                    state: StateView::Running { task_id, agent_id: worker_id@, started_at },
                    ..old(self)@[i]
                }),
                None => old(self)@,
            },
    {
        let ghost before = self@;
        match self.index_of(worker_id) {
            Some(i) => {
                let mut w = self.workers.remove(i);
                w.state = WorkerState::Running { task_id, agent_id: to_string(worker_id), started_at };
                let ghost wv = w@;
                self.workers.insert(i, w);
                assert(self@ =~= before.update(i as int, wv));
            },
            None => {},
        }
    }

    /// A worker finished its task: it becomes idle and its completed count
    /// grows by one (saturating). Unknown ids are ignored.
    pub fn release(&mut self, worker_id: &str)
        ensures
            final(self)@ == match slot_index(old(self)@, worker_id@) {
                Some(i) => old(self)@.update(i, SlotView {
                    state: StateView::Idle,
                    tasks_completed: if old(self)@[i].tasks_completed == u32::MAX {
                        u32::MAX
                    } else {
                        (old(self)@[i].tasks_completed + 1) as u32
                    },
                    ..old(self)@[i]
                }),
                None => old(self)@,
            },
    {
        let ghost before = self@;
        match self.index_of(worker_id) {
            Some(i) => {
                let mut w = self.workers.remove(i);
                w.state = WorkerState::Idle;
                w.tasks_completed = w.tasks_completed.saturating_add(1);
                let ghost wv = w@;
                self.workers.insert(i, w);
                assert(self@ =~= before.update(i as int, wv));
            },
            None => {},
        }
    }
}

// ── Cluster tick steps ──

/// Position of the first task with the given id.
pub open spec fn task_pos(states: Seq<(u32, TaskState)>, id: u32) -> Option<int>
    decreases states.len(),
{
    if states.len() == 0 {
        None
    } else {
        match task_pos(states.drop_last(), id) {
            Some(i) => Some(i),
            None => if states.last().0 == id {
                Some(states.len() - 1)
            } else {
                None
            },
        }
    }
}

proof fn lemma_task_pos_at(states: Seq<(u32, TaskState)>, id: u32, i: int)
    requires
        0 <= i < states.len(),
        states[i].0 == id,
        task_pos(states.take(i), id) is None,
    ensures
        task_pos(states, id) == Some(i),
    decreases states.len(),
{
    if states.len() - 1 == i {
        assert(states.drop_last() =~= states.take(i));
    } else {
        assert(states.drop_last().take(i) =~= states.take(i));
        lemma_task_pos_at(states.drop_last(), id, i);
    }
}

/// The position of the first task with the given id.
fn task_position(states: &Vec<(u32, TaskState)>, id: u32) -> (r: Option<usize>)
    ensures
        match r {
            Some(i) => i < states@.len() && task_pos(states@, id) == Some(i as int),
            None => task_pos(states@, id) is None,
        },
{
    let mut i: usize = 0;
    while i < states.len()
        invariant
            i <= states.len(),
            task_pos(states@.take(i as int), id) is None,
        decreases states.len() - i,
    {
        proof {
            assert(states@.take(i + 1).drop_last() =~= states@.take(i as int));
        }
        if states[i].0 == id {
            proof {
                lemma_task_pos_at(states@, id, i as int);
            }
            return Some(i);
        }
        i = i + 1;
    }
    assert(states@.take(i as int) =~= states@);
    None
}

/// The workers after one finished its task (see [`WorkerPool::release`]).
pub open spec fn released(ws: Seq<SlotView>, id: Seq<char>) -> Seq<SlotView> {
    match slot_index(ws, id) {
        Some(i) => ws.update(i, SlotView {
            state: StateView::Idle,
            tasks_completed: if ws[i].tasks_completed == u32::MAX {
                u32::MAX
            } else {
                (ws[i].tasks_completed + 1) as u32
            },
            ..ws[i]
        }),
        None => ws,
    }
}

/// The workers after one started a task (see [`WorkerPool::mark_running`]).
pub open spec fn marked(ws: Seq<SlotView>, id: Seq<char>, task_id: u32, now: u64) -> Seq<SlotView> {
    match slot_index(ws, id) {
        Some(i) => ws.update(i, SlotView {
            state: StateView::Running { task_id, agent_id: id, started_at: now },
            ..ws[i]
        }),
        None => ws,
    }
}

/// The tasks after the task with id `id` was asked to move to `next`: it
/// moves when the state machine allows it; other tasks stay.
pub open spec fn stepped(states: Seq<(u32, TaskState)>, id: u32, next: TaskState) -> Seq<(u32, TaskState)> {
    match task_pos(states, id) {
        Some(i) => if spec_can_step(states[i].1, next) {
            states.update(i, (id, next))
        } else {
            states
        },
        None => states,
    }
}

/// Workers, event log and task states of a cluster.
pub struct ClusterView {
    pub workers: Seq<SlotView>,
    pub log: Seq<EventRecord>,
    pub states: Seq<(u32, TaskState)>,
}

/// The event a finished task is announced with.
pub open spec fn result_event(task_id: u32, success: bool, payload: Option<Seq<char>>, now: u64) -> EventRecord {
    EventRecord {
        key: (if success { "task.done."@ } else { "task.failed."@ }) + dec(task_id as nat),
        source_task: Some(task_id),
        payload,
        timestamp: now,
    }
}

/// One worker result taken in: the worker is released; on success the task
/// (when known) becomes `Done` and is announced without payload, then the
/// result is announced with the output; on failure the task moves to
/// `Failed` where the state machine allows and the failure is announced with
/// the output.
pub open spec fn absorb_one(c: ClusterView, r: ClusterResult, now: u64) -> ClusterView {
    let ws = released(c.workers, r.worker_id@);
    let out = Some(r.output@);
    if r.success {
        match task_pos(c.states, r.task_id) {
            Some(i) => ClusterView {
                workers: ws,
                log: c.log.push(result_event(r.task_id, true, None, now)).push(result_event(r.task_id, true, out, now)),
                states: c.states.update(i, (r.task_id, TaskState::Done)),
            },
            None => ClusterView {
                workers: ws,
                log: c.log.push(result_event(r.task_id, true, out, now)),
                states: c.states,
            },
        }
    } else {
        ClusterView {
            workers: ws,
            log: c.log.push(result_event(r.task_id, false, out, now)),
            states: stepped(c.states, r.task_id, TaskState::Failed),
        }
    }
}

/// The results taken in one after another.
pub open spec fn absorb_all(c: ClusterView, rs: Seq<ClusterResult>, now: u64) -> ClusterView
    decreases rs.len(),
{
    if rs.len() == 0 {
        c
    } else {
        absorb_one(absorb_all(c, rs.drop_last(), now), rs.last(), now)
    }
}

/// The task `i` goes to the chosen idle worker: it is marked running and
/// the task moves to `Running` where the state machine allows; an unknown
/// task is still reported as assigned but changes nothing.
pub open spec fn assign_one(
    ws: Seq<SlotView>,
    states: Seq<(u32, TaskState)>,
    need: (u32, Option<Seq<char>>),
    now: u64,
) -> (Seq<SlotView>, Seq<(u32, TaskState)>, Option<(u32, Seq<char>)>) {
    match chosen(ws, need.1) {
        Some(i) => {
            let wid = ws[i].id;
            if task_pos(states, need.0) is Some {
                (marked(ws, wid, need.0, now), stepped(states, need.0, TaskState::Running), Some((need.0, wid)))
            } else {
                (ws, states, Some((need.0, wid)))
            }
        },
        None => (ws, states, None),
    }
}

/// The tasks needing an agent handed out in order, with the assignments made.
pub open spec fn assign_all(
    ws: Seq<SlotView>,
    states: Seq<(u32, TaskState)>,
    needs: Seq<(u32, Option<Seq<char>>)>,
    now: u64,
) -> (Seq<SlotView>, Seq<(u32, TaskState)>, Seq<(u32, Seq<char>)>)
    decreases needs.len(),
{
    if needs.len() == 0 {
        (ws, states, Seq::empty())
    } else {
        let prev = assign_all(ws, states, needs.drop_last(), now);
        let step = assign_one(prev.0, prev.1, needs.last(), now);
        (step.0, step.1, match step.2 {
            Some(a) => prev.2.push(a),
            None => prev.2,
        })
    }
}

/// `slot_index` finds a worker with the id, and the first one.
proof fn lemma_slot_index_found(ws: Seq<SlotView>, id: Seq<char>)
    ensures
        match slot_index(ws, id) {
            Some(i) => 0 <= i < ws.len() && ws[i].id == id && forall|j: int| 0 <= j < i ==> (#[trigger] ws[j]).id != id,
            None => forall|j: int| 0 <= j < ws.len() ==> (#[trigger] ws[j]).id != id,
        },
    decreases ws.len(),
{
    if ws.len() > 0 {
        let d = ws.drop_last();
        lemma_slot_index_found(d, id);
        match slot_index(d, id) {
            Some(i) => {
                assert(ws[i] == d[i]);
                assert forall|j: int| 0 <= j < i implies (#[trigger] ws[j]).id != id by {
                    assert(ws[j] == d[j]);
                }
            },
            None => {
                assert forall|j: int| 0 <= j < d.len() implies (#[trigger] ws[j]).id != id by {
                    assert(ws[j] == d[j]);
                }
            },
        }
    }
}

/// Taking in worker results keeps the workers (ids, roles, order) and
/// leaves every worker named by a result idle (the first with its id).
pub proof fn lemma_absorb_frees_workers(c: ClusterView, rs: Seq<ClusterResult>, now: u64)
    ensures
        absorb_all(c, rs, now).workers.len() == c.workers.len(),
        forall|i: int|
            0 <= i < c.workers.len() ==> (#[trigger] absorb_all(c, rs, now).workers[i]).id == c.workers[i].id
                && absorb_all(c, rs, now).workers[i].role == c.workers[i].role,
        forall|k: int, i: int|
            0 <= k < rs.len() && 0 <= i < c.workers.len() && c.workers[i].id == (#[trigger] rs[k]).worker_id@ && (
            forall|j: int| 0 <= j < i ==> c.workers[j].id != rs[k].worker_id@) ==> (#[trigger] absorb_all(
                c,
                rs,
                now,
            ).workers[i]).state == StateView::Idle,
    decreases rs.len(),
{
    if rs.len() > 0 {
        let d = rs.drop_last();
        lemma_absorb_frees_workers(c, d, now);
        let prev = absorb_all(c, d, now);
        let r = rs.last();
        let ws = prev.workers;
        lemma_slot_index_found(ws, r.worker_id@);
        let nw = absorb_all(c, rs, now).workers;
        assert(nw == released(ws, r.worker_id@));
        assert(nw.len() == ws.len());
        assert forall|i: int| 0 <= i < ws.len() implies (#[trigger] nw[i]).id == ws[i].id && nw[i].role == ws[i].role
            && (nw[i].state == StateView::Idle || nw[i] == ws[i]) && (ws[i].id == r.worker_id@ && (forall|j: int|
            0 <= j < i ==> ws[j].id != r.worker_id@) ==> nw[i].state == StateView::Idle) by {
            match slot_index(ws, r.worker_id@) {
                Some(x) => {
                    if x == i {
                    } else {
                        assert(nw[i] == ws[i]);
                        if ws[i].id == r.worker_id@ {
                            assert(i > x);
                        }
                    }
                },
                None => {},
            }
        }
        assert forall|k: int, i: int|
            0 <= k < rs.len() && 0 <= i < c.workers.len() && c.workers[i].id == (#[trigger] rs[k]).worker_id@ && (
            forall|j: int| 0 <= j < i ==> c.workers[j].id != rs[k].worker_id@) implies (#[trigger] nw[i]).state
            == StateView::Idle by {
            assert(ws[i].id == c.workers[i].id);
            assert forall|j: int| 0 <= j < i implies ws[j].id != rs[k].worker_id@ by {
                assert(ws[j].id == c.workers[j].id);
            }
            if k < rs.len() - 1 {
                assert(rs[k] == d[k]);
                assert(ws[i].state == StateView::Idle);
            } else {
                assert(rs[k] == r);
            }
        }
    }
}

/// Handing out one task: it goes to an idle worker of its role hint with
/// the fewest completed tasks, which then runs it (when the task is known);
/// no worker takes it only when none of the role is idle.
pub proof fn lemma_assign_one_least_busy(
    ws: Seq<SlotView>,
    states: Seq<(u32, TaskState)>,
    need: (u32, Option<Seq<char>>),
    now: u64,
)
    ensures
        match assign_one(ws, states, need, now).2 {
            Some(a) => {
                &&& a.0 == need.0
                &&& exists|i: int|
                    0 <= i < ws.len() && (#[trigger] ws[i]).id == a.1 && idle_of_role(ws[i], need.1) && forall|j: int|
                        0 <= j < ws.len() && idle_of_role(#[trigger] ws[j], need.1) ==> ws[i].tasks_completed
                            <= ws[j].tasks_completed
            },
            None => forall|j: int| 0 <= j < ws.len() ==> !idle_of_role(#[trigger] ws[j], need.1),
        },
{
    lemma_chosen_least_busy(ws, need.1);
}

/// Move the task with id `id` to `next` where the state machine allows.
fn step_task(states: &mut Vec<(u32, TaskState)>, id: u32, next: TaskState)
    ensures
        final(states)@ == stepped(old(states)@, id, next),
{
    match task_position(states, id) {
        Some(i) => {
            if states[i].1.try_transition(next) {
                states.set(i, (id, next));
            }
        },
        None => {},
    }
}

/// The announcement of a finished task.
fn make_result_event(task_id: u32, success: bool, payload: Option<String>, now: u64) -> (e: Event)
    ensures
        e@ == result_event(task_id, success, match payload {
            Some(p) => Some(p@),
            None => None,
        }, now),
{
    Event { key: result_event_key(task_id, success), source_task: Some(task_id), payload, timestamp: now }
}

/// First step of a cluster tick: take in the results of finished workers, in
/// order (see [`absorb_one`]). Each result is reported as `TaskCompleted`.
pub fn absorb_results(
    pool: &mut WorkerPool,
    bus: &mut EventBus,
    states: &mut Vec<(u32, TaskState)>,
    results: Vec<ClusterResult>,
    now: u64,
) -> (ev: Vec<ClusterEvent>)
    ensures
        absorb_all(ClusterView { workers: old(pool)@, log: old(bus)@, states: old(states)@ }, results@, now)
            == (ClusterView { workers: final(pool)@, log: final(bus)@, states: final(states)@ }),
        ev@.len() == results@.len(),
        forall|i: int| 0 <= i < results@.len() ==> (#[trigger] ev@[i] matches ClusterEvent::TaskCompleted {
            task_id,
            worker_id,
            success,
        } && task_id == results@[i].task_id && worker_id@ == results@[i].worker_id@ && success == results@[i].success),
{
    let ghost start = ClusterView { workers: pool@, log: bus@, states: states@ };
    let mut ev: Vec<ClusterEvent> = Vec::new();
    let mut i: usize = 0;
    assert(results@.take(0) =~= Seq::<ClusterResult>::empty());
    while i < results.len()
        invariant
            i <= results.len(),
            ev@.len() == i,
            absorb_all(start, results@.take(i as int), now) == (ClusterView {
                workers: pool@,
                log: bus@,
                states: states@,
            }),
            forall|j: int| 0 <= j < i ==> (#[trigger] ev@[j] matches ClusterEvent::TaskCompleted {
                task_id,
                worker_id,
                success,
            } && task_id == results@[j].task_id && worker_id@ == results@[j].worker_id@ && success
                == results@[j].success),
        decreases results.len() - i,
    {
        let r = &results[i];
        let ghost c0 = ClusterView { workers: pool@, log: bus@, states: states@ };
        proof {
            assert(results@.take(i + 1).drop_last() =~= results@.take(i as int));
            assert(results@.take(i + 1).last() == results@[i as int]);
        }
        ev.push(ClusterEvent::TaskCompleted { task_id: r.task_id, worker_id: to_string(r.worker_id.as_str()), success: r.success });
        pool.release(r.worker_id.as_str());
        if r.success {
            match task_position(states, r.task_id) {
                Some(p) => {
                    states.set(p, (r.task_id, TaskState::Done));
                    bus.emit(make_result_event(r.task_id, true, None, now));
                },
                None => {},
            }
            bus.emit(make_result_event(r.task_id, true, Some(to_string(r.output.as_str())), now));
        } else {
            step_task(states, r.task_id, TaskState::Failed);
            bus.emit(make_result_event(r.task_id, false, Some(to_string(r.output.as_str())), now));
        }
        proof {
            assert(absorb_one(c0, results@[i as int], now) == (ClusterView {
                workers: pool@,
                log: bus@,
                states: states@,
            }));
        }
        i = i + 1;
    }
    assert(results@.take(i as int) =~= results@);
    ev
}

/// Second step of a cluster tick: hand each task that needs an agent, with
/// its role hint, to the chosen idle worker (see [`assign_one`]); a task for
/// which no worker is idle waits for the next tick. Returns the assignments
/// as `(task id, worker id)`.
pub fn assign_ready(
    pool: &mut WorkerPool,
    states: &mut Vec<(u32, TaskState)>,
    needs: Vec<(u32, Option<String>)>,
    now: u64,
) -> (assigned: Vec<(u32, String)>)
    ensures
        ({
            let r = assign_all(old(pool)@, old(states)@, needs_view(needs@), now);
            &&& final(pool)@ == r.0
            &&& final(states)@ == r.1
            &&& assigned_view(assigned@) == r.2
        }),
{
    let ghost ws0 = pool@;
    let ghost st0 = states@;
    let ghost nv = needs_view(needs@);
    let mut out: Vec<(u32, String)> = Vec::new();
    let mut i: usize = 0;
    assert(nv.take(0) =~= Seq::<(u32, Option<Seq<char>>)>::empty());
    assert(assigned_view(out@) =~= Seq::<(u32, Seq<char>)>::empty());
    while i < needs.len()
        invariant
            i <= needs.len(),
            nv == needs_view(needs@),
            ({
                let r = assign_all(ws0, st0, nv.take(i as int), now);
                &&& pool@ == r.0
                &&& states@ == r.1
                &&& assigned_view(out@) == r.2
            }),
        decreases needs.len() - i,
    {
        proof {
            assert(nv.take(i + 1).drop_last() =~= nv.take(i as int));
            assert(nv.take(i + 1).last() == nv[i as int]);
        }
        let task_id = needs[i].0;
        let role: Option<&str> = match &needs[i].1 {
            Some(r) => Some(r.as_str()),
            None => None,
        };
        let ghost before = assigned_view(out@);
        match pool.idle_worker_for_role(role) {
            Some(w) => {
                let wid = to_string(w);
                match task_position(states, task_id) {
                    Some(_) => {
                        pool.mark_running(wid.as_str(), task_id, now);
                        step_task(states, task_id, TaskState::Running);
                    },
                    None => {},
                }
                out.push((task_id, wid));
                assert(assigned_view(out@) =~= before.push((task_id, wid@)));
            },
            None => {},
        }
        i = i + 1;
    }
    assert(nv.take(i as int) =~= nv);
    out
}

/// Model of the tasks needing an agent.
pub open spec fn needs_view(v: Seq<(u32, Option<String>)>) -> Seq<(u32, Option<Seq<char>>)> {
    v.map_values(|n: (u32, Option<String>)| (n.0, match n.1 {
        Some(r) => Some(r@),
        None => None,
    }))
}

/// Model of assignments.
pub open spec fn assigned_view(v: Seq<(u32, String)>) -> Seq<(u32, Seq<char>)> {
    v.map_values(|a: (u32, String)| (a.0, a.1@))
}


/// The prompt a worker gets for a task.
pub open spec fn task_prompt(task_id: u32, title: Seq<char>) -> Seq<char> {
    "Execute task #"@ + dec(task_id as nat) + ": "@ + title
        + "\n\nWhen done, your output will be captured as the task result."@
}

/// The prompt a worker gets for a task.
pub fn assign_prompt(task_id: u32, title: &str) -> (r: String)
    ensures
        r@ == task_prompt(task_id, title@),
{
    let mut r = to_string("Execute task #");
    let n = dec_string(task_id as u64);
    push_str(&mut r, n.as_str());
    push_str(&mut r, ": ");
    push_str(&mut r, title);
    push_str(&mut r, "\n\nWhen done, your output will be captured as the task result.");
    r
}

/// A state in which a task no longer needs a worker.
pub open spec fn settled(s: TaskState) -> bool {
    s == TaskState::Done || s == TaskState::Failed || s == TaskState::Skipped || s == TaskState::Persistent
}

/// Whether the cluster has finished: there are tasks, every one is done,
/// failed, skipped or persistent, and every worker is idle.
pub fn cluster_finished(states: &[TaskState], pool: &WorkerPool) -> (b: bool)
    ensures
        b == (states@.len() > 0 && (forall|i: int| 0 <= i < states@.len() ==> settled(#[trigger] states@[i]))
            && (forall|i: int| 0 <= i < pool@.len() ==> (#[trigger] pool@[i]).state is Idle)),
{
    if states.len() == 0 {
        return false;
    }
    let mut i: usize = 0;
    while i < states.len()
        invariant
            i <= states@.len(),
            forall|j: int| 0 <= j < i ==> settled(#[trigger] states@[j]),
        decreases states.len() - i,
    {
        let s = states[i];
        let ok = match s {
            TaskState::Done | TaskState::Failed | TaskState::Skipped | TaskState::Persistent => true,
            _ => false,
        };
        if !ok {
            return false;
        }
        i = i + 1;
    }
    pool.all_idle()
}

/// One line of the worker listing: icon, id, role, what it does, and how
/// many tasks it has completed.
pub open spec fn worker_line(w: SlotView) -> Seq<char> {
    "  "@ + match w.state {
        StateView::Idle => "○"@,
        StateView::Running { .. } => "◉"@,
        StateView::Draining => "◐"@,
    } + " "@ + w.id + " ("@ + w.role + ") — "@ + match w.state {
        StateView::Idle => "idle"@,
        StateView::Running { task_id, .. } => "working on #"@ + dec(task_id as nat),
        StateView::Draining => "draining"@,
    } + " — "@ + dec(w.tasks_completed as nat) + " tasks done\n"@
}

/// The lines of the workers, one after another.
pub open spec fn worker_lines(ws: Seq<SlotView>) -> Seq<char>
    decreases ws.len(),
{
    if ws.len() == 0 {
        Seq::empty()
    } else {
        worker_lines(ws.drop_last()) + worker_line(ws.last())
    }
}

/// The cluster status: the workers, then the task listing.
pub open spec fn cluster_status_text(ws: Seq<SlotView>, tasks: Seq<char>) -> Seq<char> {
    "Cluster Status:\n\nWorkers:\n"@ + worker_lines(ws) + "\n"@ + tasks
}

fn format_worker(w: &WorkerSlot) -> (s: String)
    ensures
        s@ == worker_line(w@),
{
    let mut s = to_string("  ");
    match &w.state {
        WorkerState::Idle => push_str(&mut s, "○"),
        WorkerState::Running { .. } => push_str(&mut s, "◉"),
        WorkerState::Draining => push_str(&mut s, "◐"),
    }
    push_str(&mut s, " ");
    push_str(&mut s, w.id.as_str());
    push_str(&mut s, " (");
    push_str(&mut s, w.role.as_str());
    push_str(&mut s, ") — ");
    match &w.state {
        WorkerState::Idle => push_str(&mut s, "idle"),
        WorkerState::Running { task_id, .. } => {
            push_str(&mut s, "working on #");
            let n = dec_string(*task_id as u64);
            push_str(&mut s, n.as_str());
        },
        WorkerState::Draining => push_str(&mut s, "draining"),
    }
    push_str(&mut s, " — ");
    let n = dec_string(w.tasks_completed as u64);
    push_str(&mut s, n.as_str());
    push_str(&mut s, " tasks done\n");
    s
}

impl WorkerPool {
    /// The cluster status: every worker, then the given task listing.
    pub fn format_status(&self, task_listing: &str) -> (s: String)
        ensures
            s@ == cluster_status_text(self@, task_listing@),
    {
        let ghost ws = self@;
        let mut s = to_string("Cluster Status:\n\nWorkers:\n");
        let ghost head = s@;
        let mut i: usize = 0;
        assert(ws.take(0) =~= Seq::<SlotView>::empty());
        assert(s@ =~= head + worker_lines(ws.take(0)));
        while i < self.workers.len()
            invariant
                i <= self.workers.len(),
                ws == slots_view(self.workers@),
                head == "Cluster Status:\n\nWorkers:\n"@,
                s@ == head + worker_lines(ws.take(i as int)),
            decreases self.workers.len() - i,
        {
            let line = format_worker(&self.workers[i]);
            push_str(&mut s, line.as_str());
            proof {
                assert(ws.take(i + 1).drop_last() =~= ws.take(i as int));
                assert(ws[i as int] == self.workers@[i as int]@);
            }
            assert(s@ =~= head + worker_lines(ws.take(i + 1)));
            i = i + 1;
        }
        assert(ws.take(i as int) =~= ws);
        push_str(&mut s, "\n");
        push_str(&mut s, task_listing);
        s
    }
}

} // verus!
