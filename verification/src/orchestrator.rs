//! Linear task plan with dependency tracking: create a plan, start a task,
//! mark it done, and the next ready task starts by itself.
//!
//! The plan is held in memory; persisting it (one JSON file per session) is
//! the caller's job, through [`Orchestrator::plan`] and [`Orchestrator::with_plan`].
use vstd::prelude::*;
use crate::text::{dec, dec_string};

verus! {

broadcast use vstd::seq_lib::group_seq_properties;

/// Status of a task in the plan.
#[derive(Debug, Clone, Copy, PartialEq, Eq, Structural)]
pub enum TaskStatus {
    Pending,
    Active,
    Done,
    Blocked,
    Skipped,
}

/// Icon shown before a task in a rendered plan.
pub open spec fn spec_icon(s: TaskStatus) -> Seq<char> {
    match s {
        TaskStatus::Pending => "○"@,
        TaskStatus::Active => "◉"@,
        TaskStatus::Done => "✓"@,
        TaskStatus::Blocked => "⊘"@,
        TaskStatus::Skipped => "→"@,
    }
}

/// Lower-case name of a status.
pub open spec fn spec_label(s: TaskStatus) -> Seq<char> {
    match s {
        TaskStatus::Pending => "pending"@,
        TaskStatus::Active => "active"@,
        TaskStatus::Done => "done"@,
        TaskStatus::Blocked => "blocked"@,
        TaskStatus::Skipped => "skipped"@,
    }
}

impl TaskStatus {
    /// Icon shown before a task in a rendered plan.
    pub fn icon(&self) -> (r: &'static str)
        ensures
            r@ == spec_icon(*self),
    {
        match self {
            TaskStatus::Pending => "○",
            TaskStatus::Active => "◉",
            TaskStatus::Done => "✓",
            TaskStatus::Blocked => "⊘",
            TaskStatus::Skipped => "→",
        }
    }

    /// Lower-case name of the status.
    pub fn label(&self) -> (r: &'static str)
        ensures
            r@ == spec_label(*self),
    {
        match self {
            TaskStatus::Pending => "pending",
            TaskStatus::Active => "active",
            TaskStatus::Done => "done",
            TaskStatus::Blocked => "blocked",
            TaskStatus::Skipped => "skipped",
        }
    }
}

/// A single task with optional dependencies and agent assignment.
#[derive(Debug, Clone)]
pub struct Task {
    pub id: u32,
    pub title: String,
    pub status: TaskStatus,
    pub deps: Vec<u32>,
    pub order: usize,
    pub agent: Option<String>,
}

/// An ordered list of tasks with a title and the next id to hand out.
#[derive(Debug, Clone)]
pub struct Plan {
    pub title: String,
    pub tasks: Vec<Task>,
    pub next_id: u32,
}

/// Model of a task.
pub struct TaskView {
    pub id: u32,
    pub title: Seq<char>,
    pub status: TaskStatus,
    pub deps: Seq<u32>,
    pub order: usize,
    pub agent: Option<Seq<char>>,
}

/// Model of a plan.
pub struct PlanView {
    pub title: Seq<char>,
    pub tasks: Seq<TaskView>,
    pub next_id: u32,
}

impl View for Task {
    type V = TaskView;

    open spec fn view(&self) -> TaskView {
        TaskView {
            id: self.id,
            title: self.title@,
            status: self.status,
            deps: self.deps@,
            order: self.order,
            agent: opt_str_view(self.agent),
        }
    }
}

/// Model of an optional string.
pub open spec fn opt_str_view(o: Option<String>) -> Option<Seq<char>> {
    match o {
        Some(s) => Some(s@),
        None => None,
    }
}

/// Model of a list of tasks.
pub open spec fn tasks_view(v: Seq<Task>) -> Seq<TaskView> {
    v.map_values(|t: Task| t@)
}

/// Model of a list of task references.
pub open spec fn refs_view(v: Seq<&Task>) -> Seq<TaskView> {
    v.map_values(|t: &Task| t@)
}

impl View for Plan {
    type V = PlanView;

    open spec fn view(&self) -> PlanView {
        PlanView { title: self.title@, tasks: tasks_view(self.tasks@), next_id: self.next_id }
    }
}

impl Default for Plan {
    fn default() -> (p: Plan)
        ensures
            p@.title.len() == 0,
            p@.tasks.len() == 0,
            p.next_id == 0,
    {
        Plan { title: String::new(), tasks: Vec::new(), next_id: 0 }
    }
}

// ── Spec: lookup, readiness, selection ──

/// Index of the first task with the given id, or -1.
pub open spec fn index_of_id(ts: Seq<TaskView>, id: u32) -> int
    decreases ts.len(),
{
    if ts.len() == 0 {
        -1
    } else if ts[0].id == id {
        0
    } else {
        let r = index_of_id(ts.drop_first(), id);
        if r < 0 {
            -1
        } else {
            r + 1
        }
    }
}

pub proof fn lemma_index_of_id(ts: Seq<TaskView>, id: u32)
    ensures
        -1 <= index_of_id(ts, id) < ts.len(),
        index_of_id(ts, id) >= 0 ==> ts[index_of_id(ts, id)].id == id,
        index_of_id(ts, id) >= 0 ==> forall|j: int|
            0 <= j < index_of_id(ts, id) ==> ts[j].id != id,
        index_of_id(ts, id) < 0 ==> forall|j: int| 0 <= j < ts.len() ==> ts[j].id != id,
    decreases ts.len(),
{
    if ts.len() > 0 && ts[0].id != id {
        lemma_index_of_id(ts.drop_first(), id);
        assert forall|j: int| 1 <= j < ts.len() implies ts[j].id == ts.drop_first()[j - 1].id by {}
    }
}

/// Some task with id `d` is done.
pub open spec fn is_done_id(ts: Seq<TaskView>, d: u32) -> bool {
    exists|j: int| 0 <= j < ts.len() && ts[j].id == d && ts[j].status == TaskStatus::Done
}

/// Every dependency of `t` is done.
pub open spec fn deps_met(ts: Seq<TaskView>, t: TaskView) -> bool {
    forall|i: int| 0 <= i < t.deps.len() ==> is_done_id(ts, #[trigger] t.deps[i])
}

/// `t` is pending and all its dependencies are done.
pub open spec fn is_ready(ts: Seq<TaskView>, t: TaskView) -> bool {
    t.status == TaskStatus::Pending && deps_met(ts, t)
}

/// The tasks among the first `n` of `ts` that are ready, in order.
pub open spec fn ready_upto(ts: Seq<TaskView>, n: int) -> Seq<TaskView>
    decreases n,
{
    if n <= 0 {
        Seq::empty()
    } else if is_ready(ts, ts[n - 1]) {
        ready_upto(ts, n - 1).push(ts[n - 1])
    } else {
        ready_upto(ts, n - 1)
    }
}

/// The ready tasks of `ts`, in order.
pub open spec fn ready_tasks(ts: Seq<TaskView>) -> Seq<TaskView> {
    ready_upto(ts, ts.len() as int)
}

/// The tasks among the first `n` of `ts` with status `st`, in order.
pub open spec fn with_status_upto(ts: Seq<TaskView>, st: TaskStatus, n: int) -> Seq<TaskView>
    decreases n,
{
    if n <= 0 {
        Seq::empty()
    } else if ts[n - 1].status == st {
        with_status_upto(ts, st, n - 1).push(ts[n - 1])
    } else {
        with_status_upto(ts, st, n - 1)
    }
}

/// The tasks of `ts` with status `st`, in order.
pub open spec fn with_status(ts: Seq<TaskView>, st: TaskStatus) -> Seq<TaskView> {
    with_status_upto(ts, st, ts.len() as int)
}

/// Pending tasks with at least one dependency not done, in order.
pub open spec fn waiting_upto(ts: Seq<TaskView>, n: int) -> Seq<TaskView>
    decreases n,
{
    if n <= 0 {
        Seq::empty()
    } else if ts[n - 1].status == TaskStatus::Pending && !deps_met(ts, ts[n - 1]) {
        waiting_upto(ts, n - 1).push(ts[n - 1])
    } else {
        waiting_upto(ts, n - 1)
    }
}

/// The dependencies among the first `n` of `ds` that are not done, in order.
pub open spec fn unmet_upto(ts: Seq<TaskView>, ds: Seq<u32>, n: int) -> Seq<u32>
    decreases n,
{
    if n <= 0 {
        Seq::empty()
    } else if !is_done_id(ts, ds[n - 1]) {
        unmet_upto(ts, ds, n - 1).push(ds[n - 1])
    } else {
        unmet_upto(ts, ds, n - 1)
    }
}

/// The dependencies of `ds` that are not done, in order.
pub open spec fn unmet_deps(ts: Seq<TaskView>, ds: Seq<u32>) -> Seq<u32> {
    unmet_upto(ts, ds, ds.len() as int)
}

pub proof fn lemma_unmet_empty(ts: Seq<TaskView>, ds: Seq<u32>, n: int)
    requires
        0 <= n <= ds.len(),
    ensures
        unmet_upto(ts, ds, n).len() == 0 <==> forall|i: int| 0 <= i < n ==> is_done_id(ts, ds[i]),
    decreases n,
{
    if n > 0 {
        lemma_unmet_empty(ts, ds, n - 1);
    }
}

/// `t` with a new status.
pub open spec fn set_status(t: TaskView, st: TaskStatus) -> TaskView {
    TaskView { status: st, ..t }
}

/// Every active task goes back to pending.
pub open spec fn deactivate(ts: Seq<TaskView>) -> Seq<TaskView> {
    ts.map_values(
        |t: TaskView|
            if t.status == TaskStatus::Active {
                set_status(t, TaskStatus::Pending)
            } else {
                t
            },
    )
}

/// `ds` without any occurrence of `id`.
pub open spec fn drop_id(ds: Seq<u32>, id: u32) -> Seq<u32>
    decreases ds.len(),
{
    if ds.len() == 0 {
        Seq::empty()
    } else if ds.last() == id {
        drop_id(ds.drop_last(), id)
    } else {
        drop_id(ds.drop_last(), id).push(ds.last())
    }
}

/// The tasks whose id differs from `id`, each with `id` removed from its dependencies.
pub open spec fn without_id(ts: Seq<TaskView>, id: u32) -> Seq<TaskView>
    decreases ts.len(),
{
    if ts.len() == 0 {
        Seq::empty()
    } else {
        let rest = without_id(ts.drop_last(), id);
        let t = ts.last();
        if t.id == id {
            rest
        } else {
            rest.push(TaskView { deps: drop_id(t.deps, id), ..t })
        }
    }
}

// ── Spec: rendering ──

/// `#a, #b, #c` without the leading `#`: the ids joined by `, #`.
pub open spec fn join_ids(ds: Seq<u32>) -> Seq<char>
    decreases ds.len(),
{
    if ds.len() == 0 {
        Seq::empty()
    } else if ds.len() == 1 {
        dec(ds[0] as nat)
    } else {
        join_ids(ds.drop_last()) + ", #"@ + dec(ds.last() as nat)
    }
}

/// One line of a rendered plan.
pub open spec fn task_line(t: TaskView) -> Seq<char> {
    "  "@ + spec_icon(t.status) + " #"@ + dec(t.id as nat) + " ["@ + spec_label(t.status) + "] "@
        + t.title + match t.agent {
        Some(a) => " @"@ + a,
        None => Seq::empty(),
    } + if t.deps.len() == 0 {
        Seq::empty()
    } else {
        " ← deps: #"@ + join_ids(t.deps)
    }
}

/// The lines of the given tasks joined by newlines.
pub open spec fn task_lines(ts: Seq<TaskView>) -> Seq<char>
    decreases ts.len(),
{
    if ts.len() == 0 {
        Seq::empty()
    } else if ts.len() == 1 {
        task_line(ts[0])
    } else {
        task_lines(ts.drop_last()) + "\n"@ + task_line(ts.last())
    }
}

/// `s` with `t` inserted after every element whose order is not greater (stable insertion).
pub open spec fn insert_by_order(s: Seq<TaskView>, t: TaskView) -> Seq<TaskView>
    decreases s.len(),
{
    if s.len() == 0 {
        seq![t]
    } else if s.last().order <= t.order {
        s.push(t)
    } else {
        insert_by_order(s.drop_last(), t).push(s.last())
    }
}

/// The tasks stably sorted by their `order` field.
pub open spec fn sort_by_order(s: Seq<TaskView>) -> Seq<TaskView>
    decreases s.len(),
{
    if s.len() == 0 {
        s
    } else {
        insert_by_order(sort_by_order(s.drop_last()), s.last())
    }
}

/// Number of tasks among the first `n` with status `st`.
pub open spec fn count_upto(ts: Seq<TaskView>, st: TaskStatus, n: int) -> nat
    decreases n,
{
    if n <= 0 {
        0
    } else {
        count_upto(ts, st, n - 1) + if ts[n - 1].status == st {
            1nat
        } else {
            0nat
        }
    }
}

/// Number of tasks with status `st`.
pub open spec fn count_status(ts: Seq<TaskView>, st: TaskStatus) -> nat {
    count_upto(ts, st, ts.len() as int)
}

/// The progress line of a rendered plan.
pub open spec fn progress_line(ts: Seq<TaskView>) -> Seq<char> {
    let active = count_status(ts, TaskStatus::Active);
    let blocked = count_status(ts, TaskStatus::Blocked);
    "progress: "@ + dec(count_status(ts, TaskStatus::Done)) + "/"@ + dec(ts.len()) + " done"@
        + if active > 0 {
        " · "@ + dec(active) + " active"@
    } else {
        Seq::empty()
    } + if blocked > 0 {
        " · "@ + dec(blocked) + " blocked"@
    } else {
        Seq::empty()
    } + "\n"@
}

/// A rendered plan: title heading, progress line, then one line per task by order.
pub open spec fn render_plan(p: PlanView) -> Seq<char> {
    title_head(p.title) + progress_line(p.tasks) + "\n"@ + task_lines(sort_by_order(p.tasks))
}

/// The heading of a rendered plan; empty for an untitled plan.
pub open spec fn title_head(title: Seq<char>) -> Seq<char> {
    if title.len() == 0 {
        Seq::empty()
    } else {
        "# "@ + title + "\n\n"@
    }
}

} // verus!

verus! {

// ── Exec helpers ──

/// Index of the first task with id `id`.
fn find_index(tasks: &Vec<Task>, id: u32) -> (r: Option<usize>)
    ensures
        match r {
            Some(k) => index_of_id(tasks_view(tasks@), id) == k,
            None => index_of_id(tasks_view(tasks@), id) == -1,
        },
{
    let ghost tv = tasks_view(tasks@);
    let mut i: usize = 0;
    while i < tasks.len()
        invariant
            i <= tasks.len(),
            tv == tasks_view(tasks@),
            forall|j: int| 0 <= j < i ==> tv[j].id != id,
        decreases tasks.len() - i,
    {
        if tasks[i].id == id {
            proof {
                lemma_index_of_id(tv, id);
                lemma_first_index(tv, id, i as int);
            }
            return Some(i);
        }
        i = i + 1;
    }
    proof {
        lemma_index_of_id(tv, id);
        if index_of_id(tv, id) >= 0 {
            assert(tv[index_of_id(tv, id)].id == id);
        }
    }
    None
}

proof fn lemma_first_index(ts: Seq<TaskView>, id: u32, i: int)
    requires
        0 <= i < ts.len(),
        ts[i].id == id,
        forall|j: int| 0 <= j < i ==> ts[j].id != id,
    ensures
        index_of_id(ts, id) == i,
    decreases i,
{
    if i > 0 {
        lemma_first_index(ts.drop_first(), id, i - 1);
    }
}

/// Whether some task with id `d` is done.
fn done_id(tasks: &Vec<Task>, d: u32) -> (b: bool)
    ensures
        b == is_done_id(tasks_view(tasks@), d),
{
    let ghost tv = tasks_view(tasks@);
    let mut i: usize = 0;
    while i < tasks.len()
        invariant
            i <= tasks.len(),
            tv == tasks_view(tasks@),
            forall|j: int| 0 <= j < i ==> !(tv[j].id == d && tv[j].status == TaskStatus::Done),
        decreases tasks.len() - i,
    {
        if tasks[i].id == d && tasks[i].status == TaskStatus::Done {
            assert(tv[i as int].id == d);
            return true;
        }
        i = i + 1;
    }
    false
}

/// The dependencies of `deps` that are not done, in order.
fn unmet_of(tasks: &Vec<Task>, deps: &Vec<u32>) -> (r: Vec<u32>)
    ensures
        r@ == unmet_deps(tasks_view(tasks@), deps@),
{
    let ghost tv = tasks_view(tasks@);
    let mut r: Vec<u32> = Vec::new();
    let mut i: usize = 0;
    while i < deps.len()
        invariant
            i <= deps.len(),
            tv == tasks_view(tasks@),
            r@ == unmet_upto(tv, deps@, i as int),
        decreases deps.len() - i,
    {
        if !done_id(tasks, deps[i]) {
            r.push(deps[i]);
        }
        i = i + 1;
    }
    r
}

/// Whether all dependencies of `t` are done.
fn deps_all_done(tasks: &Vec<Task>, t: &Task) -> (b: bool)
    ensures
        b == deps_met(tasks_view(tasks@), t@),
{
    let ghost tv = tasks_view(tasks@);
    let mut i: usize = 0;
    while i < t.deps.len()
        invariant
            i <= t.deps.len(),
            tv == tasks_view(tasks@),
            forall|j: int| 0 <= j < i ==> is_done_id(tv, #[trigger] t.deps@[j]),
        decreases t.deps.len() - i,
    {
        if !done_id(tasks, t.deps[i]) {
            assert(t@.deps[i as int] == t.deps@[i as int]);
            return false;
        }
        i = i + 1;
    }
    true
}

/// `v` holding exactly the given numbers.
fn copy_ids(v: &Vec<u32>) -> (r: Vec<u32>)
    ensures
        r@ == v@,
{
    let mut r: Vec<u32> = Vec::new();
    let mut i: usize = 0;
    while i < v.len()
        invariant
            i <= v.len(),
            r@ == v@.take(i as int),
        decreases v.len() - i,
    {
        r.push(v[i]);
        i = i + 1;
        assert(r@ == v@.take(i as int));
    }
    assert(v@.take(v.len() as int) == v@);
    r
}

proof fn lemma_insert_at(s: Seq<TaskView>, t: TaskView, j: int)
    requires
        0 <= j <= s.len(),
        j == 0 || s[j - 1].order <= t.order,
        forall|k: int| j <= k < s.len() ==> s[k].order > t.order,
    ensures
        insert_by_order(s, t) == s.take(j) + seq![t] + s.skip(j),
    decreases s.len(),
{
    if s.len() == 0 {
        assert(s.take(j) + seq![t] + s.skip(j) =~= seq![t]);
    } else if s.last().order <= t.order {
        assert(s.take(j) + seq![t] + s.skip(j) =~= s.push(t));
    } else {
        let s2 = s.drop_last();
        lemma_insert_at(s2, t, j);
        assert(s.take(j) + seq![t] + s.skip(j) =~= (s2.take(j) + seq![t] + s2.skip(j)).push(s.last()));
    }
}

/// References to the tasks, stably sorted by `order`.
fn sorted_refs(tasks: &Vec<Task>) -> (r: Vec<&Task>)
    ensures
        refs_view(r@) == sort_by_order(tasks_view(tasks@)),
{
    let ghost tv = tasks_view(tasks@);
    let mut v: Vec<&Task> = Vec::new();
    let mut i: usize = 0;
    while i < tasks.len()
        invariant
            i <= tasks.len(),
            tv == tasks_view(tasks@),
            refs_view(v@) == sort_by_order(tv.take(i as int)),
            v@.len() == i,
        decreases tasks.len() - i,
    {
        let ghost s = refs_view(v@);
        let t = &tasks[i];
        v.push(t);
        let mut j: usize = i;
        while j > 0 && v[j - 1].order > v[j].order
            invariant
                0 <= j <= i,
                v@.len() == i + 1,
                t@ == tv[i as int],
                refs_view(v@) == s.take(j as int) + seq![t@] + s.skip(j as int),
                forall|k: int| j <= k < s.len() ==> s[k].order > t.order,
                s.len() == i,
            decreases j,
        {
            let a = v[j - 1];
            let ghost vv = refs_view(v@);
            let ghost old_v = v@;
            assert(vv[j - 1] == s[j - 1]);
            assert(vv[j as int] == t@);
            assert(a@ == s[j - 1]);
            v.set(j - 1, t);
            v.set(j, a);
            proof {
                let target = s.take(j - 1) + seq![t@] + s.skip(j - 1);
                assert(v@ == old_v.update(j - 1, t).update(j as int, a));
                assert forall|k: int| 0 <= k < v@.len() implies refs_view(v@)[k] == target[k] by {
                    if k < j - 1 {
                        assert(refs_view(v@)[k] == vv[k]);
                    } else if k == j - 1 {
                    } else if k == j {
                    } else {
                        assert(refs_view(v@)[k] == vv[k]);
                    }
                }
                assert(refs_view(v@) =~= target);
            }
            j = j - 1;
        }
        proof {
            let vv = refs_view(v@);
            if j > 0 {
                assert(vv[j - 1] == s[j - 1]);
                assert(vv[j as int] == t@);
            }
            lemma_insert_at(s, t@, j as int);
            assert(tv.take(i + 1).drop_last() == tv.take(i as int));
        }
        i = i + 1;
    }
    assert(tv.take(tasks.len() as int) == tv);
    v
}

} // verus!

verus! {

// ── Exec rendering ──

fn append_dec(s: &mut String, n: u64)
    ensures
        final(s)@ == old(s)@ + dec(n as nat),
{
    let d = dec_string(n);
    s.append(d.as_str());
}

fn join_ids_string(ds: &Vec<u32>) -> (r: String)
    ensures
        r@ == join_ids(ds@),
{
    let mut r = String::new();
    let mut i: usize = 0;
    while i < ds.len()
        invariant
            i <= ds.len(),
            r@ == join_ids(ds@.take(i as int)),
        decreases ds.len() - i,
    {
        let ghost before = r@;
        if i > 0 {
            r.append(", #");
        }
        append_dec(&mut r, ds[i] as u64);
        proof {
            let p = ds@.take(i + 1);
            assert(p.drop_last() == ds@.take(i as int));
            if i == 0 {
                assert(p.len() == 1);
            }
        }
        i = i + 1;
    }
    assert(ds@.take(ds.len() as int) == ds@);
    r
}

fn task_line_string(t: &Task) -> (r: String)
    ensures
        r@ == task_line(t@),
{
    let mut r = String::from_str("  ");
    r.append(t.status.icon());
    r.append(" #");
    append_dec(&mut r, t.id as u64);
    r.append(" [");
    r.append(t.status.label());
    r.append("] ");
    r.append(t.title.as_str());
    let ghost upto_title = r@;
    match &t.agent {
        Some(a) => {
            r.append(" @");
            r.append(a.as_str());
        },
        None => {},
    }
    let ghost upto_agent = r@;
    if t.deps.len() > 0 {
        r.append(" ← deps: #");
        let j = join_ids_string(&t.deps);
        r.append(j.as_str());
    }
    proof {
        let agent_part = match t@.agent {
            Some(a) => " @"@ + a,
            None => Seq::<char>::empty(),
        };
        assert(upto_agent =~= upto_title + agent_part);
    }
    assert(r@ =~= task_line(t@));
    r
}

fn task_lines_string(v: &Vec<&Task>) -> (r: String)
    ensures
        r@ == task_lines(refs_view(v@)),
{
    let ghost rv = refs_view(v@);
    let mut r = String::new();
    let mut i: usize = 0;
    while i < v.len()
        invariant
            i <= v.len(),
            rv == refs_view(v@),
            r@ == task_lines(rv.take(i as int)),
        decreases v.len() - i,
    {
        if i > 0 {
            r.append("\n");
        }
        let line = task_line_string(v[i]);
        r.append(line.as_str());
        proof {
            let p = rv.take(i + 1);
            assert(p.drop_last() == rv.take(i as int));
            assert(p.last() == v@[i as int]@);
        }
        i = i + 1;
    }
    assert(rv.take(v.len() as int) == rv);
    r
}

fn count_with(tasks: &Vec<Task>, st: TaskStatus) -> (n: usize)
    ensures
        n == count_status(tasks_view(tasks@), st),
{
    let ghost tv = tasks_view(tasks@);
    let mut n: usize = 0;
    let mut i: usize = 0;
    while i < tasks.len()
        invariant
            i <= tasks.len(),
            tv == tasks_view(tasks@),
            n == count_upto(tv, st, i as int),
            n <= i,
        decreases tasks.len() - i,
    {
        if tasks[i].status == st {
            n = n + 1;
        }
        i = i + 1;
    }
    n
}

fn progress_string(tasks: &Vec<Task>) -> (r: String)
    ensures
        r@ == progress_line(tasks_view(tasks@)),
{
    let done = count_with(tasks, TaskStatus::Done);
    let active = count_with(tasks, TaskStatus::Active);
    let blocked = count_with(tasks, TaskStatus::Blocked);
    let mut r = String::from_str("progress: ");
    append_dec(&mut r, done as u64);
    r.append("/");
    append_dec(&mut r, tasks.len() as u64);
    r.append(" done");
    let ghost a0 = r@;
    if active > 0 {
        r.append(" · ");
        append_dec(&mut r, active as u64);
        r.append(" active");
    }
    let ghost a1 = r@;
    if blocked > 0 {
        r.append(" · ");
        append_dec(&mut r, blocked as u64);
        r.append(" blocked");
    }
    let ghost a2 = r@;
    r.append("\n");
    proof {
        let ap = if active > 0 {
            " · "@ + dec(active as nat) + " active"@
        } else {
            Seq::<char>::empty()
        };
        let bp = if blocked > 0 {
            " · "@ + dec(blocked as nat) + " blocked"@
        } else {
            Seq::<char>::empty()
        };
        assert(a1 =~= a0 + ap);
        assert(a2 =~= a0 + ap + bp);
        assert(tasks_view(tasks@).len() == tasks@.len());
    }
    assert(r@ =~= progress_line(tasks_view(tasks@)));
    r
}

/// Renders a plan: title heading, progress line, then one line per task by order.
pub fn format_plan(plan: &Plan) -> (r: String)
    ensures
        r@ == render_plan(plan@),
{
    let mut r = String::new();
    if !plan.title.as_str().is_empty() {
        r.append("# ");
        r.append(plan.title.as_str());
        r.append("\n\n");
    }
    let ghost head = r@;
    let p = progress_string(&plan.tasks);
    r.append(p.as_str());
    r.append("\n");
    let sorted = sorted_refs(&plan.tasks);
    let lines = task_lines_string(&sorted);
    r.append(lines.as_str());
    assert(head =~= title_head(plan@.title));
    assert(r@ =~= render_plan(plan@));
    r
}

} // verus!

verus! {

// ── Spec: operations ──

/// A freshly created pending task.
pub open spec fn new_task(
    id: u32,
    title: Seq<char>,
    deps: Seq<u32>,
    order: usize,
    agent: Option<Seq<char>>,
) -> TaskView {
    TaskView { id, title, status: TaskStatus::Pending, deps, order, agent }
}

/// The tasks after starting the task at index `k`: every other active task goes
/// back to pending and task `k` becomes active.
pub open spec fn after_start(ts: Seq<TaskView>, k: int) -> Seq<TaskView> {
    let d = deactivate(ts);
    d.update(k, set_status(d[k], TaskStatus::Active))
}

/// The tasks after marking the task at index `k` done: when no task is active
/// any more, the first ready task (in list order) becomes active.
pub open spec fn after_done(ts: Seq<TaskView>, k: int) -> Seq<TaskView> {
    let t1 = ts.update(k, set_status(ts[k], TaskStatus::Done));
    if with_status(t1, TaskStatus::Active).len() > 0 || ready_tasks(t1).len() == 0 {
        t1
    } else {
        let k2 = index_of_id(t1, ready_tasks(t1)[0].id);
        if k2 >= 0 {
            t1.update(k2, set_status(t1[k2], TaskStatus::Active))
        } else {
            t1
        }
    }
}

/// The error for an id that no task has.
pub open spec fn not_found_msg() -> Seq<char> {
    "Task not found"@
}

/// `#id title` items joined by `, `.
pub open spec fn id_title_list(ts: Seq<TaskView>) -> Seq<char>
    decreases ts.len(),
{
    if ts.len() == 0 {
        Seq::empty()
    } else if ts.len() == 1 {
        "#"@ + dec(ts[0].id as nat) + " "@ + ts[0].title
    } else {
        id_title_list(ts.drop_last()) + ", "@ + "#"@ + dec(ts.last().id as nat) + " "@
            + ts.last().title
    }
}

/// A `label: items` line preceded by a newline, or nothing when there are no items.
pub open spec fn section(label: Seq<char>, ts: Seq<TaskView>) -> Seq<char> {
    if ts.len() == 0 {
        Seq::empty()
    } else {
        "\n"@ + label + id_title_list(ts)
    }
}

/// The plan summary injected into the model's context.
pub open spec fn context_prompt(ts: Seq<TaskView>) -> Seq<char> {
    "[Current Orchestration Plan]"@ + section("active: "@, with_status(ts, TaskStatus::Active))
        + section("ready: "@, ready_tasks(ts)) + section(
        "pending (deps unmet): "@,
        waiting_upto(ts, ts.len() as int),
    ) + section("blocked: "@, with_status(ts, TaskStatus::Blocked))
        + "\nUse orchestrate tool to advance the plan (start/done/block/skip)."@
}

// ── Exec: mutation helpers ──

fn set_task_status(tasks: &mut Vec<Task>, k: usize, st: TaskStatus)
    requires
        k < old(tasks)@.len(),
    ensures
        final(tasks)@.len() == old(tasks)@.len(),
        tasks_view(final(tasks)@) == tasks_view(old(tasks)@).update(
            k as int,
            set_status(tasks_view(old(tasks)@)[k as int], st),
        ),
{
    let ghost before = tasks_view(tasks@);
    tasks[k].status = st;
    assert(tasks_view(tasks@) =~= before.update(k as int, set_status(before[k as int], st)));
}

fn deactivate_all(tasks: &mut Vec<Task>)
    ensures
        final(tasks)@.len() == old(tasks)@.len(),
        tasks_view(final(tasks)@) == deactivate(tasks_view(old(tasks)@)),
{
    let ghost before = tasks_view(tasks@);
    let mut i: usize = 0;
    while i < tasks.len()
        invariant
            i <= tasks.len(),
            before.len() == tasks@.len(),
            forall|j: int| 0 <= j < i ==> tasks_view(tasks@)[j] == deactivate(before)[j],
            forall|j: int| i <= j < tasks@.len() ==> tasks_view(tasks@)[j] == before[j],
        decreases tasks.len() - i,
    {
        if tasks[i].status == TaskStatus::Active {
            set_task_status(tasks, i, TaskStatus::Pending);
        }
        i = i + 1;
    }
    assert(tasks_view(tasks@) =~= deactivate(before));
}

fn any_active(tasks: &Vec<Task>) -> (b: bool)
    ensures
        b == (with_status(tasks_view(tasks@), TaskStatus::Active).len() > 0),
{
    let ghost tv = tasks_view(tasks@);
    let mut i: usize = 0;
    let mut found = false;
    while i < tasks.len()
        invariant
            i <= tasks.len(),
            tv == tasks_view(tasks@),
            found == (with_status_upto(tv, TaskStatus::Active, i as int).len() > 0),
        decreases tasks.len() - i,
    {
        if tasks[i].status == TaskStatus::Active {
            found = true;
        }
        i = i + 1;
    }
    found
}

fn select_status<'a>(tasks: &'a Vec<Task>, st: TaskStatus) -> (r: Vec<&'a Task>)
    ensures
        refs_view(r@) == with_status(tasks_view(tasks@), st),
{
    let ghost tv = tasks_view(tasks@);
    let mut r: Vec<&Task> = Vec::new();
    let mut i: usize = 0;
    while i < tasks.len()
        invariant
            i <= tasks.len(),
            tv == tasks_view(tasks@),
            refs_view(r@) == with_status_upto(tv, st, i as int),
        decreases tasks.len() - i,
    {
        if tasks[i].status == st {
            r.push(&tasks[i]);
        }
        i = i + 1;
    }
    r
}

fn select_ready<'a>(tasks: &'a Vec<Task>) -> (r: Vec<&'a Task>)
    ensures
        refs_view(r@) == ready_tasks(tasks_view(tasks@)),
{
    let ghost tv = tasks_view(tasks@);
    let mut r: Vec<&Task> = Vec::new();
    let mut i: usize = 0;
    while i < tasks.len()
        invariant
            i <= tasks.len(),
            tv == tasks_view(tasks@),
            refs_view(r@) == ready_upto(tv, i as int),
        decreases tasks.len() - i,
    {
        if tasks[i].status == TaskStatus::Pending && deps_all_done(tasks, &tasks[i]) {
            r.push(&tasks[i]);
        }
        i = i + 1;
    }
    r
}

fn select_waiting<'a>(tasks: &'a Vec<Task>) -> (r: Vec<&'a Task>)
    ensures
        refs_view(r@) == waiting_upto(tasks_view(tasks@), tasks@.len() as int),
{
    let ghost tv = tasks_view(tasks@);
    let mut r: Vec<&Task> = Vec::new();
    let mut i: usize = 0;
    while i < tasks.len()
        invariant
            i <= tasks.len(),
            tv == tasks_view(tasks@),
            refs_view(r@) == waiting_upto(tv, i as int),
        decreases tasks.len() - i,
    {
        if tasks[i].status == TaskStatus::Pending && !deps_all_done(tasks, &tasks[i]) {
            r.push(&tasks[i]);
        }
        i = i + 1;
    }
    r
}

fn id_title_string(v: &Vec<&Task>) -> (r: String)
    ensures
        r@ == id_title_list(refs_view(v@)),
{
    let ghost rv = refs_view(v@);
    let mut r = String::new();
    let mut i: usize = 0;
    while i < v.len()
        invariant
            i <= v.len(),
            rv == refs_view(v@),
            r@ == id_title_list(rv.take(i as int)),
        decreases v.len() - i,
    {
        let ghost before = r@;
        if i > 0 {
            r.append(", ");
        }
        r.append("#");
        append_dec(&mut r, v[i].id as u64);
        r.append(" ");
        r.append(v[i].title.as_str());
        proof {
            let p = rv.take(i + 1);
            assert(p.drop_last() == rv.take(i as int));
            assert(p.last() == v@[i as int]@);
            if i == 0 {
                assert(r@ =~= id_title_list(p));
            } else {
                assert(r@ =~= id_title_list(p));
            }
        }
        i = i + 1;
    }
    assert(rv.take(v.len() as int) == rv);
    r
}

fn append_section(out: &mut String, label: &str, v: &Vec<&Task>)
    ensures
        final(out)@ == old(out)@ + section(label@, refs_view(v@)),
{
    if v.len() > 0 {
        out.append("\n");
        out.append(label);
        let items = id_title_string(v);
        out.append(items.as_str());
    }
    assert(final(out)@ =~= old(out)@ + section(label@, refs_view(v@)));
}

// ── The orchestrator ──

/// A task plan and the session it belongs to.
pub struct Orchestrator {
    plan: Plan,
    session_name: Option<String>,
}

impl View for Orchestrator {
    type V = PlanView;

    closed spec fn view(&self) -> PlanView {
        self.plan@
    }
}

impl Orchestrator {
    /// The session the plan belongs to, if any.
    pub closed spec fn session(&self) -> Option<Seq<char>> {
        opt_str_view(self.session_name)
    }

    /// An orchestrator with an empty plan for the given session.
    pub fn new(session_name: Option<&str>) -> (o: Orchestrator)
        ensures
            o@.title.len() == 0,
            o@.tasks.len() == 0,
            o@.next_id == 0,
            single_active(o@.tasks),
            o.session() == match session_name {
                Some(s) => Some(s@),
                None => None::<Seq<char>>,
            },
    {
        let session_name = match session_name {
            Some(s) => Some(String::from_str(s)),
            None => None,
        };
        Orchestrator { plan: Plan { title: String::new(), tasks: Vec::new(), next_id: 0 }, session_name }
    }

    /// An orchestrator holding a previously saved plan.
    pub fn with_plan(plan: Plan, session_name: Option<&str>) -> (o: Orchestrator)
        ensures
            o@ == plan@,
            o.session() == match session_name {
                Some(s) => Some(s@),
                None => None::<Seq<char>>,
            },
    {
        let session_name = match session_name {
            Some(s) => Some(String::from_str(s)),
            None => None,
        };
        Orchestrator { plan, session_name }
    }

    /// The session the plan belongs to, if any.
    pub fn session_name(&self) -> (r: Option<&str>)
        ensures
            match r {
                Some(s) => self.session() == Some(s@),
                None => self.session() is None,
            },
    {
        match &self.session_name {
            Some(s) => Some(s.as_str()),
            None => None,
        }
    }

    /// The current plan.
    pub fn plan(&self) -> (p: &Plan)
        ensures
            p@ == self@,
    {
        &self.plan
    }

    /// Whether the plan has no tasks.
    pub fn is_empty(&self) -> (b: bool)
        ensures
            b == (self@.tasks.len() == 0),
    {
        self.plan.tasks.len() == 0
    }

    /// Replaces the plan with new pending tasks numbered from 1.
    pub fn create(&mut self, title: &str, tasks: Vec<(String, Vec<u32>)>) -> (r: String)
        requires
            tasks@.len() < u32::MAX,
        ensures
            final(self)@.title == title@,
            final(self)@.next_id == tasks@.len() + 1,
            final(self)@.tasks.len() == tasks@.len(),
            forall|i: int|
                0 <= i < tasks@.len() ==> #[trigger] final(self)@.tasks[i] == new_task(
                    (i + 1) as u32,
                    tasks@[i].0@,
                    tasks@[i].1@,
                    (i + 1) as usize,
                    None,
                ),
            final(self).session() == old(self).session(),
            final(self)@ == after_op(old(self)@, PlanOp::Create { title: title@, tasks: no_agents(tasks@) }),
            single_active(final(self)@.tasks),
            plan_wf(final(self)@),
            r@ == "Plan created: "@ + title@ + " ("@ + dec(tasks@.len()) + " tasks)"@,
    {
        let mut with_agents: Vec<(String, Vec<u32>, Option<String>)> = Vec::new();
        let mut i: usize = 0;
        while i < tasks.len()
            invariant
                i <= tasks.len(),
                with_agents@.len() == i,
                forall|j: int|
                    0 <= j < i ==> #[trigger] with_agents@[j].0@ == tasks@[j].0@
                        && with_agents@[j].1@ == tasks@[j].1@ && with_agents@[j].2 is None,
            decreases tasks.len() - i,
        {
            with_agents.push((tasks[i].0.clone(), copy_ids(&tasks[i].1), None));
            i = i + 1;
        }
        assert(self::with_agents(with_agents@) =~= no_agents(tasks@));
        self.create_with_agents(title, with_agents)
    }

    /// Replaces the plan with new pending tasks numbered from 1, each with an optional agent role.
    pub fn create_with_agents(
        &mut self,
        title: &str,
        tasks: Vec<(String, Vec<u32>, Option<String>)>,
    ) -> (r: String)
        requires
            tasks@.len() < u32::MAX,
        ensures
            final(self)@.title == title@,
            final(self)@.next_id == tasks@.len() + 1,
            final(self)@.tasks.len() == tasks@.len(),
            forall|i: int|
                0 <= i < tasks@.len() ==> #[trigger] final(self)@.tasks[i] == new_task(
                    (i + 1) as u32,
                    tasks@[i].0@,
                    tasks@[i].1@,
                    (i + 1) as usize,
                    opt_str_view(tasks@[i].2),
                ),
            final(self).session() == old(self).session(),
            final(self)@ == after_op(old(self)@, PlanOp::Create { title: title@, tasks: with_agents(tasks@) }),
            single_active(final(self)@.tasks),
            plan_wf(final(self)@),
            r@ == "Plan created: "@ + title@ + " ("@ + dec(tasks@.len()) + " tasks)"@,
    {
        let n = tasks.len();
        let mut out: Vec<Task> = Vec::new();
        let mut i: usize = 0;
        while i < n
            invariant
                i <= n == tasks@.len() < u32::MAX,
                out@.len() == i,
                forall|j: int|
                    0 <= j < i ==> #[trigger] tasks_view(out@)[j] == new_task(
                        (j + 1) as u32,
                        tasks@[j].0@,
                        tasks@[j].1@,
                        (j + 1) as usize,
                        opt_str_view(tasks@[j].2),
                    ),
            decreases n - i,
        {
            let agent = clone_opt(&tasks[i].2);
            let t = Task {
                id: (i + 1) as u32,
                title: tasks[i].0.clone(),
                status: TaskStatus::Pending,
                deps: copy_ids(&tasks[i].1),
                order: i + 1,
                agent,
            };
            assert(t@ == new_task(
                (i + 1) as u32,
                tasks@[i as int].0@,
                tasks@[i as int].1@,
                (i + 1) as usize,
                opt_str_view(tasks@[i as int].2),
            ));
            let ghost before = out@;
            out.push(t);
            assert(tasks_view(out@) =~= tasks_view(before).push(t@));
            i = i + 1;
        }
        self.plan.title = String::from_str(title);
        self.plan.tasks = out;
        self.plan.next_id = (n as u32) + 1;
        assert(self@.tasks =~= created(with_agents(tasks@)));
        let mut r = String::from_str("Plan created: ");
        r.append(title);
        r.append(" (");
        append_dec(&mut r, n as u64);
        r.append(" tasks)");
        r
    }

    /// The rendered plan, or a hint when there is none.
    pub fn list(&self) -> (r: String)
        ensures
            r@ == if self@.tasks.len() == 0 {
                "No plan. Use orchestrate action='create' first."@
            } else {
                render_plan(self@)
            },
    {
        if self.plan.tasks.len() == 0 {
            return String::from_str("No plan. Use orchestrate action='create' first.");
        }
        format_plan(&self.plan)
    }

    /// Starts a task whose dependencies are all done; any other active task
    /// goes back to pending.
    pub fn start(&mut self, id: u32) -> (r: Result<String, String>)
        ensures
            ({
                let ts = old(self)@.tasks;
                let k = index_of_id(ts, id);
                if k < 0 {
                    &&& r matches Err(e) && e@ == not_found_msg()
                    &&& final(self)@ == old(self)@
                } else if unmet_deps(ts, ts[k].deps).len() > 0 {
                    &&& r matches Err(e) && e@ == "Cannot start #"@ + dec(id as nat)
                        + ": dependencies #"@ + join_ids(unmet_deps(ts, ts[k].deps)) + " not done"@
                    &&& final(self)@ == old(self)@
                } else {
                    &&& final(self)@ == PlanView { tasks: after_start(ts, k), ..old(self)@ }
                    &&& forall|j: int|
                        0 <= j < ts.len() ==> (#[trigger] final(self)@.tasks[j].status
                            == TaskStatus::Active <==> j == k)
                    &&& r matches Ok(s) && s@ == "▶ Started #"@ + dec(id as nat) + ": "@ + ts[k].title
                        + "\n\n"@ + render_plan(final(self)@)
                }
            }),
            final(self).session() == old(self).session(),
            plan_wf(old(self)@) ==> plan_wf(final(self)@),
            single_active(old(self)@.tasks) ==> single_active(final(self)@.tasks),
            final(self)@ == after_op(old(self)@, PlanOp::Start(id)),
    {
        let ghost ts = self@.tasks;
        let k = match find_index(&self.plan.tasks, id) {
            Some(k) => k,
            None => return Err(String::from_str("Task not found")),
        };
        proof {
            lemma_index_of_id(ts, id);
        }
        let unmet = unmet_of(&self.plan.tasks, &self.plan.tasks[k].deps);
        if unmet.len() > 0 {
            let mut e = String::from_str("Cannot start #");
            append_dec(&mut e, id as u64);
            e.append(": dependencies #");
            let j = join_ids_string(&unmet);
            e.append(j.as_str());
            e.append(" not done");
            return Err(e);
        }
        let title = self.plan.tasks[k].title.clone();
        deactivate_all(&mut self.plan.tasks);
        set_task_status(&mut self.plan.tasks, k, TaskStatus::Active);
        assert(self@ =~= PlanView { tasks: after_start(ts, k as int), ..old(self)@ });
        proof {
            lemma_start_single_active(ts, k as int);
            if plan_wf(old(self)@) {
                lemma_same_ids_keep_wf(old(self)@, self@);
            }
        }
        let mut s = String::from_str("▶ Started #");
        append_dec(&mut s, id as u64);
        s.append(": ");
        s.append(title.as_str());
        s.append("\n\n");
        let f = format_plan(&self.plan);
        s.append(f.as_str());
        Ok(s)
    }

    /// Marks a task done; when no task is active any more, the first ready
    /// task starts.
    pub fn done(&mut self, id: u32) -> (r: Result<String, String>)
        ensures
            ({
                let ts = old(self)@.tasks;
                let k = index_of_id(ts, id);
                if k < 0 {
                    &&& r matches Err(e) && e@ == not_found_msg()
                    &&& final(self)@ == old(self)@
                } else {
                    &&& final(self)@ == PlanView { tasks: after_done(ts, k), ..old(self)@ }
                    &&& r matches Ok(s) && s@ == "✓ Done #"@ + dec(id as nat) + ": "@ + ts[k].title
                        + "\n\n"@ + render_plan(final(self)@)
                }
            }),
            final(self).session() == old(self).session(),
            plan_wf(old(self)@) ==> plan_wf(final(self)@),
            single_active(old(self)@.tasks) ==> single_active(final(self)@.tasks),
            final(self)@ == after_op(old(self)@, PlanOp::Done(id)),
    {
        let ghost ts = self@.tasks;
        let k = match find_index(&self.plan.tasks, id) {
            Some(k) => k,
            None => return Err(String::from_str("Task not found")),
        };
        proof {
            lemma_index_of_id(ts, id);
        }
        let title = self.plan.tasks[k].title.clone();
        set_task_status(&mut self.plan.tasks, k, TaskStatus::Done);
        let ghost t1 = self@.tasks;
        if !any_active(&self.plan.tasks) {
            let next = {
                let ready = select_ready(&self.plan.tasks);
                if ready.len() > 0 {
                    proof {
                        assert(refs_view(ready@)[0] == ready@[0]@);
                    }
                    Some(ready[0].id)
                } else {
                    None
                }
            };
            if let Some(nid) = next {
                if let Some(k2) = find_index(&self.plan.tasks, nid) {
                    proof {
                        lemma_index_of_id(t1, nid);
                    }
                    set_task_status(&mut self.plan.tasks, k2, TaskStatus::Active);
                }
            }
        }
        assert(self@ =~= PlanView { tasks: after_done(ts, k as int), ..old(self)@ });
        proof {
            if single_active(ts) {
                lemma_done_single(ts, k as int);
            }
            lemma_done_keeps_ids(ts, k as int);
            if plan_wf(old(self)@) {
                lemma_same_ids_keep_wf(old(self)@, self@);
            }
        }
        let mut s = String::from_str("✓ Done #");
        append_dec(&mut s, id as u64);
        s.append(": ");
        s.append(title.as_str());
        s.append("\n\n");
        let f = format_plan(&self.plan);
        s.append(f.as_str());
        Ok(s)
    }

    /// Marks a task blocked, with an optional reason.
    #[verifier::rlimit(40)]
    pub fn block(&mut self, id: u32, reason: Option<&str>) -> (r: Result<String, String>)
        ensures
            ({
                let ts = old(self)@.tasks;
                let k = index_of_id(ts, id);
                if k < 0 {
                    &&& r matches Err(e) && e@ == not_found_msg()
                    &&& final(self)@ == old(self)@
                } else {
                    &&& final(self)@ == PlanView {
                        tasks: ts.update(k, set_status(ts[k], TaskStatus::Blocked)),
                        ..old(self)@
                    }
                    &&& r matches Ok(s) && s@ == "⊘ Blocked #"@ + dec(id as nat) + match reason {
                        Some(why) => ": "@ + why@,
                        None => Seq::<char>::empty(),
                    } + "\n\n"@ + render_plan(final(self)@)
                }
            }),
            final(self).session() == old(self).session(),
            plan_wf(old(self)@) ==> plan_wf(final(self)@),
            single_active(old(self)@.tasks) ==> single_active(final(self)@.tasks),
            final(self)@ == after_op(old(self)@, PlanOp::Block(id)),
    {
        let ghost ts = self@.tasks;
        let k = match find_index(&self.plan.tasks, id) {
            Some(k) => k,
            None => return Err(String::from_str("Task not found")),
        };
        proof {
            lemma_index_of_id(ts, id);
        }
        set_task_status(&mut self.plan.tasks, k, TaskStatus::Blocked);
        assert(self@ =~= PlanView {
            tasks: ts.update(k as int, set_status(ts[k as int], TaskStatus::Blocked)),
            ..old(self)@
        });
        proof {
            if single_active(ts) {
                lemma_set_inactive_single(ts, k as int, TaskStatus::Blocked);
            }
            if plan_wf(old(self)@) {
                lemma_same_ids_keep_wf(old(self)@, self@);
            }
        }
        let mut s = String::from_str("⊘ Blocked #");
        append_dec(&mut s, id as u64);
        let ghost head = s@;
        match reason {
            Some(why) => {
                s.append(": ");
                s.append(why);
            },
            None => {},
        }
        let ghost mid = s@;
        s.append("\n\n");
        let f = format_plan(&self.plan);
        s.append(f.as_str());
        proof {
            let rp = match reason {
                Some(why) => ": "@ + why@,
                None => Seq::<char>::empty(),
            };
            assert(mid =~= head + rp);
        }
        Ok(s)
    }

    /// Marks a task skipped.
    pub fn skip(&mut self, id: u32) -> (r: Result<String, String>)
        ensures
            ({
                let ts = old(self)@.tasks;
                let k = index_of_id(ts, id);
                if k < 0 {
                    &&& r matches Err(e) && e@ == not_found_msg()
                    &&& final(self)@ == old(self)@
                } else {
                    &&& final(self)@ == PlanView {
                        tasks: ts.update(k, set_status(ts[k], TaskStatus::Skipped)),
                        ..old(self)@
                    }
                    &&& r matches Ok(s) && s@ == "→ Skipped #"@ + dec(id as nat) + ": "@ + ts[k].title
                        + "\n\n"@ + render_plan(final(self)@)
                }
            }),
            final(self).session() == old(self).session(),
            plan_wf(old(self)@) ==> plan_wf(final(self)@),
            single_active(old(self)@.tasks) ==> single_active(final(self)@.tasks),
            final(self)@ == after_op(old(self)@, PlanOp::Skip(id)),
    {
        let ghost ts = self@.tasks;
        let k = match find_index(&self.plan.tasks, id) {
            Some(k) => k,
            None => return Err(String::from_str("Task not found")),
        };
        proof {
            lemma_index_of_id(ts, id);
        }
        let title = self.plan.tasks[k].title.clone();
        set_task_status(&mut self.plan.tasks, k, TaskStatus::Skipped);
        assert(self@ =~= PlanView {
            tasks: ts.update(k as int, set_status(ts[k as int], TaskStatus::Skipped)),
            ..old(self)@
        });
        proof {
            if single_active(ts) {
                lemma_set_inactive_single(ts, k as int, TaskStatus::Skipped);
            }
            if plan_wf(old(self)@) {
                lemma_same_ids_keep_wf(old(self)@, self@);
            }
        }
        let mut s = String::from_str("→ Skipped #");
        append_dec(&mut s, id as u64);
        s.append(": ");
        s.append(title.as_str());
        s.append("\n\n");
        let f = format_plan(&self.plan);
        s.append(f.as_str());
        Ok(s)
    }

    /// Appends pending tasks numbered from `next_id`.
    pub fn add(&mut self, tasks: Vec<(String, Vec<u32>)>) -> (r: Result<String, String>)
        requires
            old(self)@.next_id + tasks@.len() <= u32::MAX,
            old(self)@.tasks.len() + tasks@.len() < usize::MAX,
        ensures
            ({
                let o = old(self)@;
                let n = o.tasks.len();
                &&& final(self)@.title == o.title
                &&& final(self)@.next_id == o.next_id + tasks@.len()
                &&& final(self)@.tasks.len() == n + tasks@.len()
                &&& final(self)@.tasks.take(n as int) == o.tasks
                &&& forall|i: int|
                    0 <= i < tasks@.len() ==> #[trigger] final(self)@.tasks[n + i] == new_task(
                        (o.next_id + i) as u32,
                        tasks@[i].0@,
                        tasks@[i].1@,
                        (n + i + 1) as usize,
                        None,
                    )
                &&& r matches Ok(s) && s@ == "Added "@ + dec(tasks@.len()) + " task(s).\n\n"@
                    + render_plan(final(self)@)
            }),
            final(self).session() == old(self).session(),
            plan_wf(old(self)@) ==> plan_wf(final(self)@),
            single_active(old(self)@.tasks) ==> single_active(final(self)@.tasks),
            final(self)@ == after_op(old(self)@, PlanOp::Add(no_agents(tasks@))),
    {
        let mut with_agents: Vec<(String, Vec<u32>, Option<String>)> = Vec::new();
        let mut i: usize = 0;
        while i < tasks.len()
            invariant
                i <= tasks.len(),
                with_agents@.len() == i,
                forall|j: int|
                    0 <= j < i ==> #[trigger] with_agents@[j].0@ == tasks@[j].0@
                        && with_agents@[j].1@ == tasks@[j].1@ && with_agents@[j].2 is None,
            decreases tasks.len() - i,
        {
            with_agents.push((tasks[i].0.clone(), copy_ids(&tasks[i].1), None));
            i = i + 1;
        }
        assert(self::with_agents(with_agents@) =~= no_agents(tasks@));
        self.add_with_agents(with_agents)
    }

    /// Appends pending tasks numbered from `next_id`, each with an optional agent role.
    pub fn add_with_agents(&mut self, tasks: Vec<(String, Vec<u32>, Option<String>)>) -> (r: Result<
        String,
        String,
    >)
        requires
            old(self)@.next_id + tasks@.len() <= u32::MAX,
            old(self)@.tasks.len() + tasks@.len() < usize::MAX,
        ensures
            ({
                let o = old(self)@;
                let n = o.tasks.len();
                &&& final(self)@.title == o.title
                &&& final(self)@.next_id == o.next_id + tasks@.len()
                &&& final(self)@.tasks.len() == n + tasks@.len()
                &&& final(self)@.tasks.take(n as int) == o.tasks
                &&& forall|i: int|
                    0 <= i < tasks@.len() ==> #[trigger] final(self)@.tasks[n + i] == new_task(
                        (o.next_id + i) as u32,
                        tasks@[i].0@,
                        tasks@[i].1@,
                        (n + i + 1) as usize,
                        opt_str_view(tasks@[i].2),
                    )
                &&& r matches Ok(s) && s@ == "Added "@ + dec(tasks@.len()) + " task(s).\n\n"@
                    + render_plan(final(self)@)
            }),
            final(self).session() == old(self).session(),
            plan_wf(old(self)@) ==> plan_wf(final(self)@),
            single_active(old(self)@.tasks) ==> single_active(final(self)@.tasks),
            final(self)@ == after_op(old(self)@, PlanOp::Add(with_agents(tasks@))),
    {
        let ghost o = self@;
        let start_id = self.plan.next_id;
        let count = tasks.len();
        let n = self.plan.tasks.len();
        let mut i: usize = 0;
        while i < count
            invariant
                i <= count == tasks@.len(),
                n == o.tasks.len(),
                start_id == o.next_id,
                o.next_id + count <= u32::MAX,
                n + count < usize::MAX,
                self.plan.tasks@.len() == n + i,
                tasks_view(self.plan.tasks@).take(n as int) == o.tasks,
                self.plan.title@ == o.title,
                self.plan.next_id == o.next_id,
                self.session() == old(self).session(),
                forall|j: int|
                    0 <= j < i ==> #[trigger] tasks_view(self.plan.tasks@)[n + j] == new_task(
                        (o.next_id + j) as u32,
                        tasks@[j].0@,
                        tasks@[j].1@,
                        (n + j + 1) as usize,
                        opt_str_view(tasks@[j].2),
                    ),
            decreases count - i,
        {
            let agent = clone_opt(&tasks[i].2);
            let t = Task {
                id: start_id + (i as u32),
                title: tasks[i].0.clone(),
                status: TaskStatus::Pending,
                deps: copy_ids(&tasks[i].1),
                order: n + i + 1,
                agent,
            };
            let ghost before = self.plan.tasks@;
            self.plan.tasks.push(t);
            assert(tasks_view(self.plan.tasks@) =~= tasks_view(before).push(t@));
            assert(tasks_view(self.plan.tasks@).take(n as int) =~= tasks_view(before).take(n as int));
            i = i + 1;
        }
        self.plan.next_id = start_id + (count as u32);
        assert(self@.tasks =~= o.tasks + appended(o, with_agents(tasks@))) by {
            let q = self@.tasks;
            let e = o.tasks + appended(o, with_agents(tasks@));
            assert forall|j: int| 0 <= j < q.len() implies q[j] == e[j] by {
                if j < n {
                    assert(q.take(n as int)[j] == q[j]);
                } else {
                    assert(q[n + (j - n)] == q[j]);
                }
            }
        }
        proof {
            let o2 = old(self)@;
            let q = self@;
            if single_active(o2.tasks) {
                assert forall|i: int| o2.tasks.len() <= i < q.tasks.len() implies (#[trigger] q.tasks[i]).status
                    == TaskStatus::Pending by {
                    assert(q.tasks[n + (i - n)] == q.tasks[i]);
                }
                lemma_append_pending_single(o2.tasks, q.tasks);
            }
            if plan_wf(o2) {
                assert forall|a: int, b: int| 0 <= a < b < q.tasks.len() implies #[trigger] q.tasks[a].id
                    != #[trigger] q.tasks[b].id by {
                    if b < n {
                        assert(q.tasks[a] == o2.tasks[a]);
                        assert(q.tasks[b] == o2.tasks[b]);
                    } else if a < n {
                        assert(q.tasks[a] == o2.tasks[a]);
                        assert(q.tasks[n + (b - n)].id == (o2.next_id + (b - n)) as u32);
                    } else {
                        assert(q.tasks[n + (a - n)].id == (o2.next_id + (a - n)) as u32);
                        assert(q.tasks[n + (b - n)].id == (o2.next_id + (b - n)) as u32);
                    }
                }
                assert forall|a: int| 0 <= a < q.tasks.len() implies #[trigger] q.tasks[a].id < q.next_id by {
                    if a < n {
                        assert(q.tasks[a] == o2.tasks[a]);
                    } else {
                        assert(q.tasks[n + (a - n)].id == (o2.next_id + (a - n)) as u32);
                    }
                }
            }
        }
        let mut s = String::from_str("Added ");
        append_dec(&mut s, count as u64);
        s.append(" task(s).\n\n");
        let f = format_plan(&self.plan);
        s.append(f.as_str());
        Ok(s)
    }

    /// Removes every task with the given id, and that id from every task's dependencies.
    pub fn remove(&mut self, id: u32) -> (r: Result<String, String>)
        ensures
            ({
                let ts = old(self)@.tasks;
                let k = index_of_id(ts, id);
                if k < 0 {
                    &&& r matches Err(e) && e@ == not_found_msg()
                    &&& final(self)@ == old(self)@
                } else {
                    &&& final(self)@ == PlanView { tasks: without_id(ts, id), ..old(self)@ }
                    &&& forall|j: int|
                        0 <= j < final(self)@.tasks.len() ==> #[trigger] final(self)@.tasks[j].id
                            != id && !final(self)@.tasks[j].deps.contains(id)
                    &&& r matches Ok(s) && s@ == "Removed #"@ + dec(id as nat) + ": "@ + ts[k].title
                        + "\n\n"@ + render_plan(final(self)@)
                }
            }),
            final(self).session() == old(self).session(),
            plan_wf(old(self)@) ==> plan_wf(final(self)@),
            single_active(old(self)@.tasks) ==> single_active(final(self)@.tasks),
            final(self)@ == after_op(old(self)@, PlanOp::Remove(id)),
    {
        let ghost ts = self@.tasks;
        let k = match find_index(&self.plan.tasks, id) {
            Some(k) => k,
            None => return Err(String::from_str("Task not found")),
        };
        proof {
            lemma_index_of_id(ts, id);
        }
        let title = self.plan.tasks[k].title.clone();
        let mut old_tasks: Vec<Task> = Vec::new();
        std::mem::swap(&mut old_tasks, &mut self.plan.tasks);
        let kept = remove_id(old_tasks, id);
        self.plan.tasks = kept;
        assert(self@ =~= PlanView { tasks: without_id(ts, id), ..old(self)@ });
        proof {
            if plan_wf(old(self)@) {
                lemma_remove_keeps_wf(old(self)@, id);
            }
            if single_active(ts) {
                lemma_without_id_single(ts, id);
            }
            lemma_without_id(ts, id);
        }
        let mut s = String::from_str("Removed #");
        append_dec(&mut s, id as u64);
        s.append(": ");
        s.append(title.as_str());
        s.append("\n\n");
        let f = format_plan(&self.plan);
        s.append(f.as_str());
        Ok(s)
    }

    /// Pending tasks whose dependencies are all done, in plan order.
    pub fn get_ready_tasks(&self) -> (r: Vec<&Task>)
        ensures
            refs_view(r@) == ready_tasks(self@.tasks),
            forall|x: TaskView| #[trigger] refs_view(r@).contains(x) <==> (self@.tasks.contains(x)
                && pending_with_deps_done(self@.tasks, x)),
    {
        proof {
            assert forall|x: TaskView| #[trigger] ready_tasks(self@.tasks).contains(x) <==> (self@.tasks.contains(x) && pending_with_deps_done(self@.tasks, x)) by {
                lemma_ready_members(self@.tasks, x);
            }
        }
        let r = select_ready(&self.plan.tasks);
        assert(refs_view(r@) == ready_tasks(self@.tasks));
        r
    }

    /// Active tasks, in plan order.
    pub fn get_active_tasks(&self) -> (r: Vec<&Task>)
        ensures
            refs_view(r@) == with_status(self@.tasks, TaskStatus::Active),
            forall|x: TaskView| #[trigger] refs_view(r@).contains(x) <==> (self@.tasks.contains(x)
                && x.status == TaskStatus::Active),
            single_active(self@.tasks) ==> r@.len() <= 1,
    {
        proof {
            assert forall|x: TaskView| #[trigger] with_status(self@.tasks, TaskStatus::Active).contains(x) <==> (self@.tasks.contains(x) && x.status == TaskStatus::Active) by {
                lemma_with_status_members(self@.tasks, TaskStatus::Active, x);
            }
        }
        proof {
            if single_active(self@.tasks) {
                lemma_at_most_one_listed(self@.tasks);
            }
        }
        let r = select_status(&self.plan.tasks, TaskStatus::Active);
        assert(refs_view(r@) == with_status(self@.tasks, TaskStatus::Active));
        r
    }

    /// Blocked tasks, in plan order.
    pub fn get_blocked_tasks(&self) -> (r: Vec<&Task>)
        ensures
            refs_view(r@) == with_status(self@.tasks, TaskStatus::Blocked),
            forall|x: TaskView| #[trigger] refs_view(r@).contains(x) <==> (self@.tasks.contains(x)
                && x.status == TaskStatus::Blocked),
    {
        proof {
            assert forall|x: TaskView| #[trigger] with_status(self@.tasks, TaskStatus::Blocked).contains(x) <==> (self@.tasks.contains(x) && x.status == TaskStatus::Blocked) by {
                lemma_with_status_members(self@.tasks, TaskStatus::Blocked, x);
            }
        }
        let r = select_status(&self.plan.tasks, TaskStatus::Blocked);
        assert(refs_view(r@) == with_status(self@.tasks, TaskStatus::Blocked));
        r
    }

    /// A summary of the plan for the model's context; `None` when the plan is empty.
    pub fn build_context_prompt(&self) -> (r: Option<String>)
        ensures
            self@.tasks.len() == 0 ==> r is None,
            self@.tasks.len() > 0 ==> (r matches Some(s) && s@ == context_prompt(self@.tasks)),
    {
        if self.plan.tasks.len() == 0 {
            return None;
        }
        let mut s = String::from_str("[Current Orchestration Plan]");
        let active = select_status(&self.plan.tasks, TaskStatus::Active);
        append_section(&mut s, "active: ", &active);
        let ready = select_ready(&self.plan.tasks);
        append_section(&mut s, "ready: ", &ready);
        let waiting = select_waiting(&self.plan.tasks);
        append_section(&mut s, "pending (deps unmet): ", &waiting);
        let blocked = select_status(&self.plan.tasks, TaskStatus::Blocked);
        append_section(&mut s, "blocked: ", &blocked);
        s.append("\nUse orchestrate tool to advance the plan (start/done/block/skip).");
        assert(s@ =~= context_prompt(self@.tasks));
        Some(s)
    }
}

proof fn lemma_insert_by_order_at(s: Seq<TaskView>, t: TaskView, j: int)
    requires
        0 <= j <= s.len(),
        j == 0 || s[j - 1].order <= t.order,
        forall|k: int| j <= k < s.len() ==> (#[trigger] s[k]).order > t.order,
    ensures
        insert_by_order(s, t) == s.take(j) + seq![t] + s.skip(j),
    decreases s.len(),
{
    if s.len() == 0 {
        assert(s.take(j) + seq![t] + s.skip(j) =~= seq![t]);
    } else if s.last().order <= t.order {
        assert(s.take(j) + seq![t] + s.skip(j) =~= s.push(t));
    } else {
        let s2 = s.drop_last();
        lemma_insert_by_order_at(s2, t, j);
        assert(s.take(j) + seq![t] + s.skip(j) =~= (s2.take(j) + seq![t] + s2.skip(j)).push(s.last()));
    }
}

/// The tasks stably sorted by their `order` field (see [`sort_by_order`]).
pub fn sort_tasks_by_order(tasks: Vec<Task>) -> (r: Vec<Task>)
    ensures
        tasks_view(r@) == sort_by_order(tasks_view(tasks@)),
{
    let ghost all = tasks_view(tasks@);
    let n = tasks.len();
    let mut rest = tasks;
    let mut out: Vec<Task> = Vec::new();
    let mut i: usize = 0;
    assert(all.take(0) =~= Seq::<TaskView>::empty());
    while rest.len() > 0
        invariant
            i + rest.len() == all.len() == n,
            tasks_view(rest@) == all.skip(i as int),
            tasks_view(out@) == sort_by_order(all.take(i as int)),
        decreases rest.len(),
    {
        let t = rest.remove(0);
        proof {
            assert(all.skip(i as int)[0] == t@);
            assert(tasks_view(rest@) =~= all.skip(i + 1));
            assert(all.take(i + 1).drop_last() =~= all.take(i as int));
            assert(all.take(i + 1).last() == t@);
        }
        let ghost ov = tasks_view(out@);
        let mut j: usize = out.len();
        while j > 0 && out[j - 1].order > t.order
            invariant
                j <= out.len(),
                ov == tasks_view(out@),
                forall|k: int| j <= k < ov.len() ==> (#[trigger] ov[k]).order > t.order,
            decreases j,
        {
            j = j - 1;
        }
        proof {
            lemma_insert_by_order_at(ov, t@, j as int);
        }
        out.insert(j, t);
        assert(tasks_view(out@) =~= ov.take(j as int) + seq![t@] + ov.skip(j as int));
        i = i + 1;
    }
    assert(all.take(i as int) =~= all);
    out
}

/// The dependencies without any occurrence of `id`, in order.
pub fn remove_dep(ds: Vec<u32>, id: u32) -> (r: Vec<u32>)
    ensures
        r@ == drop_id(ds@, id),
{
    let mut r: Vec<u32> = Vec::new();
    let mut i: usize = 0;
    while i < ds.len()
        invariant
            i <= ds.len(),
            r@ == drop_id(ds@.take(i as int), id),
        decreases ds.len() - i,
    {
        if ds[i] != id {
            r.push(ds[i]);
        }
        i = i + 1;
        assert(ds@.take(i as int).drop_last() == ds@.take(i - 1));
    }
    assert(ds@.take(ds.len() as int) == ds@);
    r
}

fn remove_id(tasks: Vec<Task>, id: u32) -> (r: Vec<Task>)
    ensures
        tasks_view(r@) == without_id(tasks_view(tasks@), id),
{
    let ghost tv = tasks_view(tasks@);
    let ghost all = tasks@;
    let mut r: Vec<Task> = Vec::new();
    let mut rest = tasks;
    let mut i: usize = 0;
    let n = rest.len();
    while i < n
        invariant
            i <= n == tv.len() == all.len(),
            rest@ == all.skip(i as int),
            tv == tasks_view(all),
            tasks_view(r@) == without_id(tv.take(i as int), id),
        decreases n - i,
    {
        let t = rest.remove(0);
        proof {
            assert(t == all[i as int]);
            assert(tv.take(i + 1).drop_last() == tv.take(i as int));
            assert(tv.take(i + 1).last() == t@);
        }
        if t.id != id {
            let Task { id: tid, title, status, deps, order, agent } = t;
            let nt = Task { id: tid, title, status, deps: remove_dep(deps, id), order, agent };
            let ghost before = r@;
            r.push(nt);
            assert(tasks_view(r@) =~= tasks_view(before).push(nt@));
        }
        i = i + 1;
        assert(rest@ =~= all.skip(i as int));
    }
    assert(tv.take(n as int) == tv);
    r
}

fn clone_opt(o: &Option<String>) -> (r: Option<String>)
    ensures
        opt_str_view(r) == opt_str_view(*o),
{
    match o {
        Some(s) => Some(s.clone()),
        None => None,
    }
}

} // verus!

verus! {

// ── Laws ──

/// Whether a task has the given order.
pub open spec fn has_order(o: usize) -> spec_fn(TaskView) -> bool {
    |t: TaskView| t.order == o
}

proof fn lemma_insert_by_order(s: Seq<TaskView>, t: TaskView, o: usize)
    requires
        forall|i: int, j: int| 0 <= i < j < s.len() ==> (#[trigger] s[i]).order <= (#[trigger] s[j]).order,
    ensures
        insert_by_order(s, t).to_multiset() == s.to_multiset().insert(t),
        forall|i: int, j: int|
            0 <= i < j < insert_by_order(s, t).len() ==> (#[trigger] insert_by_order(s, t)[i]).order <= (
            #[trigger] insert_by_order(s, t)[j]).order,
        insert_by_order(s, t).filter(has_order(o)) == if t.order == o {
            s.filter(has_order(o)).push(t)
        } else {
            s.filter(has_order(o))
        },
    decreases s.len(),
{
    broadcast use vstd::seq_lib::group_to_multiset_ensures;
    let q = has_order(o);
    let r = insert_by_order(s, t);
    if s.len() == 0 {
        assert(seq![t] =~= Seq::<TaskView>::empty().push(t));
        Seq::<TaskView>::empty().lemma_filter_push(t, q);
        reveal(Seq::filter);
    } else if s.last().order <= t.order {
        s.lemma_filter_push(t, q);
    } else {
        let d = s.drop_last();
        let last = s.last();
        lemma_insert_by_order(d, t, o);
        let u = insert_by_order(d, t);
        assert forall|i: int| 0 <= i < u.len() implies (#[trigger] u[i]).order <= last.order by {
            assert(u.to_multiset().contains(u[i]));
            if u[i] != t {
                assert(d.to_multiset().contains(u[i]));
                let m = choose|m: int| 0 <= m < d.len() && d[m] == u[i];
                assert(s[m] == d[m]);
            }
        }
        assert forall|i: int, j: int| 0 <= i < j < r.len() implies (#[trigger] r[i]).order <= (
        #[trigger] r[j]).order by {
            assert(r[i] == u[i]);
            if j < r.len() - 1 {
                assert(r[j] == u[j]);
            }
        }
        assert(s =~= d.push(last));
        d.lemma_filter_push(last, q);
        u.lemma_filter_push(last, q);
    }
}

/// Listing tasks by order puts the orders in sequence, keeps exactly the
/// tasks, and is stable: tasks of one order keep their plan order.
pub proof fn lemma_sort_by_order_correct(s: Seq<TaskView>, o: usize)
    ensures
        forall|i: int, j: int|
            0 <= i < j < sort_by_order(s).len() ==> (#[trigger] sort_by_order(s)[i]).order <= (
            #[trigger] sort_by_order(s)[j]).order,
        sort_by_order(s).to_multiset() == s.to_multiset(),
        sort_by_order(s).filter(has_order(o)) == s.filter(has_order(o)),
    decreases s.len(),
{
    broadcast use vstd::seq_lib::group_to_multiset_ensures;
    if s.len() > 0 {
        let d = s.drop_last();
        lemma_sort_by_order_correct(d, o);
        lemma_insert_by_order(sort_by_order(d), s.last(), o);
        assert(s =~= d.push(s.last()));
        d.lemma_filter_push(s.last(), has_order(o));
    }
}

/// At most one task is active.
pub open spec fn single_active(ts: Seq<TaskView>) -> bool {
    forall|i: int, j: int|
        0 <= i < ts.len() && 0 <= j < ts.len() && (#[trigger] ts[i]).status == TaskStatus::Active && (
        #[trigger] ts[j]).status == TaskStatus::Active ==> i == j
}

/// A task of status `st` among the first `n` shows up in `with_status_upto`.
proof fn lemma_with_status_has(ts: Seq<TaskView>, st: TaskStatus, n: int, i: int)
    requires
        0 <= i < n <= ts.len(),
        ts[i].status == st,
    ensures
        with_status_upto(ts, st, n).len() > 0,
    decreases n,
{
    if i < n - 1 {
        lemma_with_status_has(ts, st, n - 1, i);
    }
}

/// With at most one active task, at most one task is listed as active.
proof fn lemma_single_active_upto(ts: Seq<TaskView>, n: int)
    requires
        single_active(ts),
        0 <= n <= ts.len(),
    ensures
        with_status_upto(ts, TaskStatus::Active, n).len() <= 1,
    decreases n,
{
    if n > 0 {
        lemma_single_active_upto(ts, n - 1);
        if ts[n - 1].status == TaskStatus::Active && with_status_upto(ts, TaskStatus::Active, n - 1).len() > 0 {
            if forall|i: int| 0 <= i < n - 1 ==> (#[trigger] ts[i]).status != TaskStatus::Active {
                lemma_no_status_empty(ts, TaskStatus::Active, n - 1);
            }
        }
    }
}

/// Without a task of status `st` among the first `n`, none is listed.
proof fn lemma_no_status_empty(ts: Seq<TaskView>, st: TaskStatus, n: int)
    requires
        0 <= n <= ts.len(),
        forall|i: int| 0 <= i < n ==> (#[trigger] ts[i]).status != st,
    ensures
        with_status_upto(ts, st, n).len() == 0,
    decreases n,
{
    if n > 0 {
        lemma_no_status_empty(ts, st, n - 1);
    }
}

/// With at most one active task, the active tasks listed are at most one.
pub proof fn lemma_at_most_one_listed(ts: Seq<TaskView>)
    requires
        single_active(ts),
    ensures
        with_status(ts, TaskStatus::Active).len() <= 1,
{
    lemma_single_active_upto(ts, ts.len() as int);
}

/// Setting a task to a status other than active keeps at most one task active.
pub proof fn lemma_set_inactive_single(ts: Seq<TaskView>, k: int, st: TaskStatus)
    requires
        single_active(ts),
        0 <= k < ts.len(),
        st != TaskStatus::Active,
    ensures
        single_active(ts.update(k, set_status(ts[k], st))),
{
    let u = ts.update(k, set_status(ts[k], st));
    assert forall|i: int, j: int|
        0 <= i < u.len() && 0 <= j < u.len() && (#[trigger] u[i]).status == TaskStatus::Active && (
        #[trigger] u[j]).status == TaskStatus::Active implies i == j by {
        assert(ts[i].status == TaskStatus::Active && ts[j].status == TaskStatus::Active);
    }
}

/// Marking a task done keeps at most one task active: the task that then
/// starts does so only when none is active.
pub proof fn lemma_done_single(ts: Seq<TaskView>, k: int)
    requires
        single_active(ts),
        0 <= k < ts.len(),
    ensures
        single_active(after_done(ts, k)),
{
    let t1 = ts.update(k, set_status(ts[k], TaskStatus::Done));
    lemma_set_inactive_single(ts, k, TaskStatus::Done);
    if !(with_status(t1, TaskStatus::Active).len() > 0 || ready_tasks(t1).len() == 0) {
        let k2 = index_of_id(t1, ready_tasks(t1)[0].id);
        if k2 >= 0 {
            let u = t1.update(k2, set_status(t1[k2], TaskStatus::Active));
            lemma_index_of_id(t1, ready_tasks(t1)[0].id);
            assert(u.len() == t1.len());
            assert forall|i: int, j: int|
                0 <= i < u.len() && 0 <= j < u.len() && (#[trigger] u[i]).status == TaskStatus::Active && (
                #[trigger] u[j]).status == TaskStatus::Active implies i == j by {
                if i != k2 {
                    assert(t1[i] == u[i]);
                    lemma_with_status_has(t1, TaskStatus::Active, t1.len() as int, i);
                }
                if j != k2 {
                    assert(t1[j] == u[j]);
                    lemma_with_status_has(t1, TaskStatus::Active, t1.len() as int, j);
                }
            }
        }
    }
}

/// Some task of `without_id` is active only when some task before was.
proof fn lemma_without_id_active(ts: Seq<TaskView>, id: u32, j: int)
    requires
        0 <= j < without_id(ts, id).len(),
        without_id(ts, id)[j].status == TaskStatus::Active,
    ensures
        exists|i: int| 0 <= i < ts.len() && (#[trigger] ts[i]).status == TaskStatus::Active,
    decreases ts.len(),
{
    let rest = without_id(ts.drop_last(), id);
    if ts.last().id != id && j == rest.len() {
        assert(ts[ts.len() - 1].status == TaskStatus::Active);
    } else {
        lemma_without_id_active(ts.drop_last(), id, j);
        let i = choose|i: int| 0 <= i < ts.drop_last().len() && (#[trigger] ts.drop_last()[i]).status == TaskStatus::Active;
        assert(ts[i] == ts.drop_last()[i]);
    }
}

/// Removing a task keeps at most one task active.
pub proof fn lemma_without_id_single(ts: Seq<TaskView>, id: u32)
    requires
        single_active(ts),
    ensures
        single_active(without_id(ts, id)),
    decreases ts.len(),
{
    if ts.len() > 0 {
        let d = ts.drop_last();
        assert(single_active(d)) by {
            assert forall|i: int, j: int|
                0 <= i < d.len() && 0 <= j < d.len() && (#[trigger] d[i]).status == TaskStatus::Active && (
                #[trigger] d[j]).status == TaskStatus::Active implies i == j by {
                assert(ts[i] == d[i] && ts[j] == d[j]);
            }
        }
        lemma_without_id_single(d, id);
        let rest = without_id(d, id);
        let w = without_id(ts, id);
        if ts.last().id != id {
            assert forall|i: int, j: int|
                0 <= i < w.len() && 0 <= j < w.len() && (#[trigger] w[i]).status == TaskStatus::Active && (
                #[trigger] w[j]).status == TaskStatus::Active implies i == j by {
                if i < rest.len() && j < rest.len() {
                    assert(w[i] == rest[i] && w[j] == rest[j]);
                } else if i < rest.len() {
                    assert(w[i] == rest[i]);
                    lemma_without_id_active(d, id, i);
                    let x = choose|x: int| 0 <= x < d.len() && (#[trigger] d[x]).status == TaskStatus::Active;
                    assert(ts[x] == d[x]);
                    assert(ts[ts.len() - 1].status == TaskStatus::Active);
                } else if j < rest.len() {
                    assert(w[j] == rest[j]);
                    lemma_without_id_active(d, id, j);
                    let x = choose|x: int| 0 <= x < d.len() && (#[trigger] d[x]).status == TaskStatus::Active;
                    assert(ts[x] == d[x]);
                    assert(ts[ts.len() - 1].status == TaskStatus::Active);
                }
            }
        }
    }
}

/// Appending pending tasks keeps at most one task active.
pub proof fn lemma_append_pending_single(o: Seq<TaskView>, q: Seq<TaskView>)
    requires
        single_active(o),
        o.len() <= q.len(),
        q.take(o.len() as int) == o,
        forall|i: int| o.len() <= i < q.len() ==> (#[trigger] q[i]).status == TaskStatus::Pending,
    ensures
        single_active(q),
{
    assert forall|i: int, j: int|
        0 <= i < q.len() && 0 <= j < q.len() && (#[trigger] q[i]).status == TaskStatus::Active && (
        #[trigger] q[j]).status == TaskStatus::Active implies i == j by {
        if i < o.len() && j < o.len() {
            assert(q.take(o.len() as int)[i] == q[i]);
            assert(q.take(o.len() as int)[j] == q[j]);
        }
    }
}

/// A plan operation, with what its effect on the plan depends on.
pub enum PlanOp {
    /// `create` / `create_with_agents`: a title and `(title, deps, agent)` per task.
    Create { title: Seq<char>, tasks: Seq<(Seq<char>, Seq<u32>, Option<Seq<char>>)> },
    Start(u32),
    Done(u32),
    Block(u32),
    Skip(u32),
    /// `add` / `add_with_agents`: `(title, deps, agent)` per task.
    Add(Seq<(Seq<char>, Seq<u32>, Option<Seq<char>>)>),
    Remove(u32),
}

/// Task descriptions without agent roles.
pub open spec fn no_agents(v: Seq<(String, Vec<u32>)>) -> Seq<(Seq<char>, Seq<u32>, Option<Seq<char>>)> {
    v.map_values(|t: (String, Vec<u32>)| (t.0@, t.1@, None::<Seq<char>>))
}

/// Task descriptions with optional agent roles.
pub open spec fn with_agents(v: Seq<(String, Vec<u32>, Option<String>)>) -> Seq<(Seq<char>, Seq<u32>, Option<Seq<char>>)> {
    v.map_values(|t: (String, Vec<u32>, Option<String>)| (t.0@, t.1@, opt_str_view(t.2)))
}

/// The tasks a plan is created with, numbered from 1.
pub open spec fn created(ts: Seq<(Seq<char>, Seq<u32>, Option<Seq<char>>)>) -> Seq<TaskView> {
    Seq::new(ts.len(), |i: int| new_task((i + 1) as u32, ts[i].0, ts[i].1, (i + 1) as usize, ts[i].2))
}

/// The tasks appended to a plan, numbered from its `next_id`.
pub open spec fn appended(p: PlanView, ts: Seq<(Seq<char>, Seq<u32>, Option<Seq<char>>)>) -> Seq<TaskView> {
    Seq::new(
        ts.len(),
        |i: int| new_task((p.next_id + i) as u32, ts[i].0, ts[i].1, (p.tasks.len() + i + 1) as usize, ts[i].2),
    )
}

/// The plan after an operation (an operation that fails leaves it as it is).
pub open spec fn after_op(p: PlanView, op: PlanOp) -> PlanView {
    let ts = p.tasks;
    match op {
        PlanOp::Create { title, tasks } => PlanView { title, tasks: created(tasks), next_id: (tasks.len() + 1) as u32 },
        PlanOp::Start(id) => {
            let k = index_of_id(ts, id);
            if k < 0 || unmet_deps(ts, ts[k].deps).len() > 0 {
                p
            } else {
                PlanView { tasks: after_start(ts, k), ..p }
            }
        },
        PlanOp::Done(id) => {
            let k = index_of_id(ts, id);
            if k < 0 {
                p
            } else {
                PlanView { tasks: after_done(ts, k), ..p }
            }
        },
        PlanOp::Block(id) => {
            let k = index_of_id(ts, id);
            if k < 0 {
                p
            } else {
                PlanView { tasks: ts.update(k, set_status(ts[k], TaskStatus::Blocked)), ..p }
            }
        },
        PlanOp::Skip(id) => {
            let k = index_of_id(ts, id);
            if k < 0 {
                p
            } else {
                PlanView { tasks: ts.update(k, set_status(ts[k], TaskStatus::Skipped)), ..p }
            }
        },
        PlanOp::Add(new) => PlanView {
            tasks: ts + appended(p, new),
            next_id: (p.next_id + new.len()) as u32,
            ..p
        },
        PlanOp::Remove(id) => if index_of_id(ts, id) < 0 {
            p
        } else {
            PlanView { tasks: without_id(ts, id), ..p }
        },
    }
}

/// The plan after the operations, in order.
pub open spec fn run_ops(p: PlanView, ops: Seq<PlanOp>) -> PlanView
    decreases ops.len(),
{
    if ops.len() == 0 {
        p
    } else {
        after_op(run_ops(p, ops.drop_last()), ops.last())
    }
}

/// Every operation keeps at most one task active.
pub proof fn lemma_op_single_active(p: PlanView, op: PlanOp)
    requires
        single_active(p.tasks),
    ensures
        single_active(after_op(p, op).tasks),
{
    let ts = p.tasks;
    match op {
        PlanOp::Create { title, tasks } => {
            let c = created(tasks);
            assert forall|i: int, j: int|
                0 <= i < c.len() && 0 <= j < c.len() && (#[trigger] c[i]).status == TaskStatus::Active && (
                #[trigger] c[j]).status == TaskStatus::Active implies i == j by {}
        },
        PlanOp::Start(id) => {
            let k = index_of_id(ts, id);
            if !(k < 0 || unmet_deps(ts, ts[k].deps).len() > 0) {
                lemma_index_of_id(ts, id);
                lemma_start_single_active(ts, k);
                let u = after_start(ts, k);
                assert forall|i: int, j: int|
                    0 <= i < u.len() && 0 <= j < u.len() && (#[trigger] u[i]).status == TaskStatus::Active && (
                    #[trigger] u[j]).status == TaskStatus::Active implies i == j by {}
            }
        },
        PlanOp::Done(id) => {
            let k = index_of_id(ts, id);
            if k >= 0 {
                lemma_index_of_id(ts, id);
                lemma_done_single(ts, k);
            }
        },
        PlanOp::Block(id) => {
            let k = index_of_id(ts, id);
            if k >= 0 {
                lemma_index_of_id(ts, id);
                lemma_set_inactive_single(ts, k, TaskStatus::Blocked);
            }
        },
        PlanOp::Skip(id) => {
            let k = index_of_id(ts, id);
            if k >= 0 {
                lemma_index_of_id(ts, id);
                lemma_set_inactive_single(ts, k, TaskStatus::Skipped);
            }
        },
        PlanOp::Add(new) => {
            let q = ts + appended(p, new);
            assert(q.take(ts.len() as int) =~= ts);
            lemma_append_pending_single(ts, q);
        },
        PlanOp::Remove(id) => {
            if index_of_id(ts, id) >= 0 {
                lemma_without_id_single(ts, id);
            }
        },
    }
}

/// At most one task is ever active: from a plan with at most one active
/// task (such as the empty plan of a new orchestrator), any sequence of plan
/// operations leaves at most one active task, so the active tasks listed
/// are at most one.
pub proof fn lemma_one_active_over_runs(p: PlanView, ops: Seq<PlanOp>)
    requires
        single_active(p.tasks),
    ensures
        single_active(run_ops(p, ops).tasks),
        with_status(run_ops(p, ops).tasks, TaskStatus::Active).len() <= 1,
    decreases ops.len(),
{
    if ops.len() > 0 {
        lemma_one_active_over_runs(p, ops.drop_last());
        lemma_op_single_active(run_ops(p, ops.drop_last()), ops.last());
    }
    lemma_at_most_one_listed(run_ops(p, ops).tasks);
}

/// Whether a task waits on nothing: it is pending and each of its
/// dependencies is the id of a task that is done.
pub open spec fn pending_with_deps_done(ts: Seq<TaskView>, x: TaskView) -> bool {
    x.status == TaskStatus::Pending && forall|i: int|
        0 <= i < x.deps.len() ==> exists|j: int|
            0 <= j < ts.len() && (#[trigger] ts[j]).id == #[trigger] x.deps[i] && ts[j].status == TaskStatus::Done
}

proof fn lemma_ready_upto_members(ts: Seq<TaskView>, n: int, x: TaskView)
    requires
        0 <= n <= ts.len(),
    ensures
        ready_upto(ts, n).contains(x) <==> (exists|k: int| 0 <= k < n && ts[k] == x) && pending_with_deps_done(ts, x),
    decreases n,
{
    if n > 0 {
        lemma_ready_upto_members(ts, n - 1, x);
        let r = ready_upto(ts, n - 1);
        assert(is_ready(ts, x) <==> pending_with_deps_done(ts, x));
        if is_ready(ts, ts[n - 1]) {
            let q = r.push(ts[n - 1]);
            if q.contains(x) {
                let i = choose|i: int| 0 <= i < q.len() && q[i] == x;
                if i < r.len() {
                    assert(r[i] == q[i]);
                }
            }
            if r.contains(x) {
                let i = choose|i: int| 0 <= i < r.len() && r[i] == x;
                assert(q[i] == r[i]);
            }
            if x == ts[n - 1] {
                assert(q[r.len() as int] == x);
            }
        }
    }
}

/// The ready tasks are exactly the tasks of the plan that are pending and
/// whose every dependency is a task that is done.
pub proof fn lemma_ready_members(ts: Seq<TaskView>, x: TaskView)
    ensures
        ready_tasks(ts).contains(x) <==> (ts.contains(x) && pending_with_deps_done(ts, x)),
{
    lemma_ready_upto_members(ts, ts.len() as int, x);
}

proof fn lemma_with_status_upto_members(ts: Seq<TaskView>, st: TaskStatus, n: int, x: TaskView)
    requires
        0 <= n <= ts.len(),
    ensures
        with_status_upto(ts, st, n).contains(x) <==> (exists|k: int| 0 <= k < n && ts[k] == x) && x.status == st,
    decreases n,
{
    if n > 0 {
        lemma_with_status_upto_members(ts, st, n - 1, x);
        let r = with_status_upto(ts, st, n - 1);
        if ts[n - 1].status == st {
            let q = r.push(ts[n - 1]);
            if q.contains(x) {
                let i = choose|i: int| 0 <= i < q.len() && q[i] == x;
                if i < r.len() {
                    assert(r[i] == q[i]);
                }
            }
            if r.contains(x) {
                let i = choose|i: int| 0 <= i < r.len() && r[i] == x;
                assert(q[i] == r[i]);
            }
            if x == ts[n - 1] {
                assert(q[r.len() as int] == x);
            }
        }
    }
}

/// The tasks listed with a status are exactly the plan's tasks with it.
pub proof fn lemma_with_status_members(ts: Seq<TaskView>, st: TaskStatus, x: TaskView)
    ensures
        with_status(ts, st).contains(x) <==> (ts.contains(x) && x.status == st),
{
    lemma_with_status_upto_members(ts, st, ts.len() as int, x);
}

/// Task ids are distinct and all below `next_id`.
pub open spec fn plan_wf(p: PlanView) -> bool {
    &&& forall|i: int, j: int|
        0 <= i < j < p.tasks.len() ==> #[trigger] p.tasks[i].id != #[trigger] p.tasks[j].id
    &&& forall|i: int| 0 <= i < p.tasks.len() ==> #[trigger] p.tasks[i].id < p.next_id
}

/// Replacing tasks by tasks with the same ids, in the same places, keeps ids
/// distinct and below `next_id`.
pub proof fn lemma_same_ids_keep_wf(p: PlanView, q: PlanView)
    requires
        plan_wf(p),
        q.next_id == p.next_id,
        q.tasks.len() == p.tasks.len(),
        forall|i: int| 0 <= i < p.tasks.len() ==> #[trigger] q.tasks[i].id == p.tasks[i].id,
    ensures
        plan_wf(q),
{
    assert forall|i: int, j: int| 0 <= i < j < q.tasks.len() implies #[trigger] q.tasks[i].id
        != #[trigger] q.tasks[j].id by {
        assert(p.tasks[i].id != p.tasks[j].id);
    }
}

/// `drop_id` leaves no occurrence of the id and keeps only values of the input.
pub proof fn lemma_drop_id(ds: Seq<u32>, id: u32)
    ensures
        !drop_id(ds, id).contains(id),
        forall|x: u32| drop_id(ds, id).contains(x) ==> ds.contains(x),
    decreases ds.len(),
{
    if ds.len() > 0 {
        lemma_drop_id(ds.drop_last(), id);
        let r = drop_id(ds.drop_last(), id);
        if ds.last() != id {
            assert forall|x: u32| r.push(ds.last()).contains(x) implies ds.contains(x) by {
                if x != ds.last() {
                    let k = choose|k: int| 0 <= k < r.push(ds.last()).len() && r.push(ds.last())[k] == x;
                    assert(r.contains(x));
                    assert(ds.drop_last().contains(x));
                    let m = choose|m: int| 0 <= m < ds.drop_last().len() && ds.drop_last()[m] == x;
                    assert(ds[m] == x);
                } else {
                    assert(ds[ds.len() - 1] == x);
                }
            }
        } else {
            assert forall|x: u32| r.contains(x) implies ds.contains(x) by {
                assert(ds.drop_last().contains(x));
                let m = choose|m: int| 0 <= m < ds.drop_last().len() && ds.drop_last()[m] == x;
                assert(ds[m] == x);
            }
        }
    }
}

/// After removing id `id`: no task has that id or depends on it, every
/// remaining id was there before, and ids stay distinct.
pub proof fn lemma_without_id(ts: Seq<TaskView>, id: u32)
    ensures
        forall|j: int|
            0 <= j < without_id(ts, id).len() ==> #[trigger] without_id(ts, id)[j].id != id
                && !without_id(ts, id)[j].deps.contains(id),
        forall|j: int|
            0 <= j < without_id(ts, id).len() ==> exists|i: int|
                0 <= i < ts.len() && ts[i].id == #[trigger] without_id(ts, id)[j].id,
        (forall|i: int, j: int| 0 <= i < j < ts.len() ==> #[trigger] ts[i].id != #[trigger] ts[j].id)
            ==> (forall|i: int, j: int|
            0 <= i < j < without_id(ts, id).len() ==> #[trigger] without_id(ts, id)[i].id
                != #[trigger] without_id(ts, id)[j].id),
    decreases ts.len(),
{
    if ts.len() > 0 {
        let init = ts.drop_last();
        lemma_without_id(init, id);
        let rest = without_id(init, id);
        let t = ts.last();
        lemma_drop_id(t.deps, id);
        let w = without_id(ts, id);
        assert forall|j: int| 0 <= j < w.len() implies #[trigger] w[j].id != id
            && !w[j].deps.contains(id) by {
            if j < rest.len() {
                assert(w[j] == rest[j]);
            }
        }
        assert forall|j: int| 0 <= j < w.len() implies exists|i: int|
            0 <= i < ts.len() && ts[i].id == #[trigger] w[j].id by {
            if j < rest.len() {
                let i = choose|i: int| 0 <= i < init.len() && init[i].id == rest[j].id;
                assert(ts[i].id == w[j].id);
            } else {
                assert(ts[ts.len() - 1].id == w[j].id);
            }
        }
        if forall|i: int, j: int| 0 <= i < j < ts.len() ==> #[trigger] ts[i].id != #[trigger] ts[j].id {
            assert(forall|i: int, j: int|
                0 <= i < j < init.len() ==> #[trigger] init[i].id != #[trigger] init[j].id) by {
                assert forall|i: int, j: int| 0 <= i < j < init.len() implies #[trigger] init[i].id
                    != #[trigger] init[j].id by {
                    assert(ts[i].id != ts[j].id);
                }
            }
            assert forall|i: int, j: int| 0 <= i < j < w.len() implies #[trigger] w[i].id
                != #[trigger] w[j].id by {
                if j < rest.len() {
                    assert(rest[i].id != rest[j].id);
                } else {
                    let m = choose|m: int| 0 <= m < init.len() && init[m].id == rest[i].id;
                    assert(ts[m].id != ts[ts.len() - 1].id);
                }
            }
        }
    }
}

/// Removing a task keeps ids distinct and below `next_id`.
pub proof fn lemma_remove_keeps_wf(p: PlanView, id: u32)
    requires
        plan_wf(p),
    ensures
        plan_wf(PlanView { tasks: without_id(p.tasks, id), ..p }),
{
    lemma_without_id(p.tasks, id);
    let w = without_id(p.tasks, id);
    assert forall|j: int| 0 <= j < w.len() implies #[trigger] w[j].id < p.next_id by {
        let i = choose|i: int| 0 <= i < p.tasks.len() && p.tasks[i].id == w[j].id;
    }
}

/// After starting task `k`, it is the only active task.
pub proof fn lemma_start_single_active(ts: Seq<TaskView>, k: int)
    requires
        0 <= k < ts.len(),
    ensures
        forall|j: int|
            0 <= j < ts.len() ==> (#[trigger] after_start(ts, k)[j].status == TaskStatus::Active
                <==> j == k),
        after_start(ts, k).len() == ts.len(),
        forall|j: int| 0 <= j < ts.len() ==> #[trigger] after_start(ts, k)[j].id == ts[j].id,
{
}

/// Marking a task done changes statuses only.
pub proof fn lemma_done_keeps_ids(ts: Seq<TaskView>, k: int)
    requires
        0 <= k < ts.len(),
    ensures
        after_done(ts, k).len() == ts.len(),
        forall|j: int| 0 <= j < ts.len() ==> #[trigger] after_done(ts, k)[j].id == ts[j].id,
        after_done(ts, k)[k].status == TaskStatus::Done || after_done(ts, k)[k].status
            == TaskStatus::Active,
{
    let t1 = ts.update(k, set_status(ts[k], TaskStatus::Done));
    if ready_tasks(t1).len() > 0 {
        lemma_index_of_id(t1, ready_tasks(t1)[0].id);
    }
}

} // verus!
