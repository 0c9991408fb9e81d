use radiumical_core::dynamic::{
    assign_task_id, deps_met, format_status, format_status_line, hook_fires, result_event_key, state_lookup,
    tick_task, transition_task, Event, EventBus, GlobalTrigger, GuardTree, StatusRow, TaskState, TaskTick,
};
use radiumical_core::orchestrator::TaskStatus;

fn run_transitions() {
    let mut state = TaskState::Pending;
    assert_eq!(state, TaskState::Pending);

    assert!(state.try_transition(TaskState::Ready));
    assert_eq!(state, TaskState::Ready);

    assert!(state.try_transition(TaskState::Running));
    assert_eq!(state, TaskState::Running);

    assert!(state.try_transition(TaskState::Done));
    assert_eq!(state, TaskState::Done);

    assert!(state.try_transition(TaskState::Ready));
}

fn run_invalid_transition() {
    let mut state = TaskState::Pending;
    assert!(!state.try_transition(TaskState::Done));
    assert_eq!(state, TaskState::Pending);
}

#[test]
fn dynamic_test_task_state_transitions() {
    run_transitions();
}

#[test]
fn dynamic_test_invalid_transition() {
    run_invalid_transition();
}

#[test]
fn tests_test_task_state_transitions() {
    run_transitions();
}

#[test]
fn tests_test_invalid_transition() {
    run_invalid_transition();
}

const ALL_STATES: [TaskState; 8] = [
    TaskState::Pending,
    TaskState::Ready,
    TaskState::Running,
    TaskState::Suspended,
    TaskState::Done,
    TaskState::Failed,
    TaskState::Skipped,
    TaskState::Persistent,
];

#[test]
fn test_every_state_can_reset_to_pending() {
    for s in ALL_STATES {
        assert!(s.can_transition_to(&TaskState::Pending), "{s:?}");
    }
}

#[test]
fn test_terminal_states_only_reset_or_retry() {
    for s in ALL_STATES.iter().filter(|s| s.is_terminal()) {
        for t in ALL_STATES {
            if s.can_transition_to(&t) {
                assert!(t == TaskState::Pending || (t == TaskState::Ready && *s != TaskState::Skipped));
            }
        }
    }
    assert!(TaskState::Done.is_terminal());
    assert!(TaskState::Failed.is_terminal());
    assert!(TaskState::Skipped.is_terminal());
    assert!(!TaskState::Persistent.is_terminal());
}

#[test]
fn test_status_round_trip() {
    for st in [TaskStatus::Pending, TaskStatus::Active, TaskStatus::Done, TaskStatus::Blocked, TaskStatus::Skipped] {
        assert_eq!(TaskState::from_task_status(&st).to_task_status(), st);
    }
    assert_eq!(TaskState::Ready.to_task_status(), TaskStatus::Pending);
    assert_eq!(TaskState::Failed.to_task_status(), TaskStatus::Blocked);
    assert_eq!(TaskState::Persistent.to_task_status(), TaskStatus::Active);
}

fn event(key: &str, ts: u64) -> Event {
    Event { key: key.to_string(), source_task: Some(1), payload: None, timestamp: ts }
}

#[test]
fn test_event_bus_log_and_lookup() {
    let mut bus = EventBus::new();
    assert!(!bus.has_emitted("deploy.ready"));
    bus.emit(event("deploy.ready", 10));
    bus.emit(event("tests.passed", 20));
    bus.emit(event("deploy.ready", 30));
    assert!(bus.has_emitted("deploy.ready"));
    assert!(!bus.has_emitted("deploy.failed"));
    let log = bus.log();
    assert_eq!(log.len(), 3);
    assert_eq!(log[1].key, "tests.passed");
    let since: Vec<u64> = bus.events_since(10).iter().map(|e| e.timestamp).collect();
    assert_eq!(since, vec![20, 30]);
    assert!(bus.events_since(30).is_empty());
}

// ── Guards ──

fn guard_always_never() {
    let bus = EventBus::new();
    assert!(GuardTree::Always.evaluate(&[], &bus, &[]));
    assert!(!GuardTree::Never.evaluate(&[], &bus, &[]));
}

fn guard_task_done() {
    let states = vec![(1, TaskState::Done), (2, TaskState::Running)];
    let bus = EventBus::new();
    assert!(GuardTree::TaskDone(1).evaluate(&states, &bus, &[]));
    assert!(!GuardTree::TaskDone(2).evaluate(&states, &bus, &[]));
    assert!(!GuardTree::TaskDone(99).evaluate(&states, &bus, &[]));
}

fn guard_and_or_not() {
    let states = vec![(1, TaskState::Done), (2, TaskState::Running)];
    let bus = EventBus::new();

    let g = GuardTree::And(vec![GuardTree::TaskDone(1), GuardTree::TaskDone(2)]);
    assert!(!g.evaluate(&states, &bus, &[]));

    let g = GuardTree::Or(vec![GuardTree::TaskDone(1), GuardTree::TaskDone(2)]);
    assert!(g.evaluate(&states, &bus, &[]));

    let g = GuardTree::Not(Box::new(GuardTree::TaskDone(2)));
    assert!(g.evaluate(&states, &bus, &[]));
}

/// The metric comparisons are leaves whose truth the caller works out from
/// the metric values (`price` = 42.5 here).
fn guard_metric_compare() {
    let price = 42.5_f64;
    let bus = EventBus::new();
    let leaves = [price > 40.0, price < 40.0];
    assert!(GuardTree::Leaf(0).evaluate(&[], &bus, &leaves));
    assert!(!GuardTree::Leaf(1).evaluate(&[], &bus, &leaves));
    assert!(!GuardTree::Leaf(2).evaluate(&[], &bus, &leaves));
}

fn guard_event_emitted() {
    let mut bus = EventBus::new();
    bus.emit(Event { key: "deploy.ready".to_string(), source_task: None, payload: None, timestamp: 1 });
    assert!(GuardTree::EventEmitted("deploy.ready".into()).evaluate(&[], &bus, &[]));
    assert!(!GuardTree::EventEmitted("deploy.failed".into()).evaluate(&[], &bus, &[]));
}

#[test]
fn dynamic_test_guard_always_never() {
    guard_always_never();
}

#[test]
fn tests_test_guard_always_never() {
    guard_always_never();
}

#[test]
fn dynamic_test_guard_task_done() {
    guard_task_done();
}

#[test]
fn tests_test_guard_task_done() {
    guard_task_done();
}

#[test]
fn dynamic_test_guard_and_or_not() {
    guard_and_or_not();
}

#[test]
fn tests_test_guard_and_or_not() {
    guard_and_or_not();
}

#[test]
fn dynamic_test_guard_metric_compare() {
    guard_metric_compare();
}

#[test]
fn tests_test_guard_metric_compare() {
    guard_metric_compare();
}

#[test]
fn dynamic_test_guard_event_emitted() {
    guard_event_emitted();
}

#[test]
fn tests_test_guard_event_emitted() {
    guard_event_emitted();
}

#[test]
fn test_guard_state_and_empty_combinations() {
    let states = vec![(3, TaskState::Suspended), (3, TaskState::Done)];
    let bus = EventBus::new();
    // The first entry for an id counts.
    assert!(GuardTree::TaskIs(3, TaskState::Suspended).evaluate(&states, &bus, &[]));
    assert!(!GuardTree::TaskDone(3).evaluate(&states, &bus, &[]));
    assert!(GuardTree::And(vec![]).evaluate(&states, &bus, &[]));
    assert!(!GuardTree::Or(vec![]).evaluate(&states, &bus, &[]));
    assert_eq!(state_lookup(&states, 3), Some(TaskState::Suspended));
    assert_eq!(state_lookup(&states, 4), None);
}

// ── Ticks ──

#[test]
fn test_tick_task() {
    let mut s = TaskState::Pending;
    let mut retries = 0u32;
    assert_eq!(tick_task(&mut s, &mut retries, 0, false, true), TaskTick::Wait);
    assert_eq!(tick_task(&mut s, &mut retries, 0, true, false), TaskTick::Wait);
    assert_eq!(tick_task(&mut s, &mut retries, 0, true, true), TaskTick::MadeReady);
    assert_eq!(s, TaskState::Ready);
    assert_eq!(tick_task(&mut s, &mut retries, 0, true, true), TaskTick::NeedsAgent);
    let mut s = TaskState::Running;
    assert_eq!(tick_task(&mut s, &mut retries, 0, true, true), TaskTick::FireRunningHooks);
    let mut s = TaskState::Suspended;
    assert_eq!(tick_task(&mut s, &mut retries, 0, false, true), TaskTick::MadeReady);
    assert_eq!(s, TaskState::Ready);
    let mut s = TaskState::Failed;
    assert_eq!(tick_task(&mut s, &mut retries, 2, true, true), TaskTick::Retried);
    assert_eq!((s, retries), (TaskState::Ready, 1));
    let mut s = TaskState::Failed;
    assert_eq!(tick_task(&mut s, &mut retries, 2, true, true), TaskTick::Retried);
    let mut s = TaskState::Failed;
    assert_eq!(tick_task(&mut s, &mut retries, 2, true, true), TaskTick::Wait);
    assert_eq!((s, retries), (TaskState::Failed, 2));
    let mut s = TaskState::Persistent;
    assert_eq!(tick_task(&mut s, &mut retries, 2, true, true), TaskTick::NeedsAgent);
    let mut s = TaskState::Done;
    assert_eq!(tick_task(&mut s, &mut retries, 2, true, true), TaskTick::Wait);
}

#[test]
fn test_deps_met() {
    let states = vec![(1, TaskState::Done), (2, TaskState::Running)];
    assert!(deps_met(&[], &states));
    assert!(deps_met(&[1], &states));
    assert!(!deps_met(&[1, 2], &states));
    assert!(!deps_met(&[7], &states));
}

#[test]
fn test_hook_fires() {
    assert!(hook_fires(GlobalTrigger::When { condition: true, hook_guard: true }, None, 5));
    assert!(!hook_fires(GlobalTrigger::When { condition: true, hook_guard: false }, None, 0));
    assert!(!hook_fires(GlobalTrigger::When { condition: false, hook_guard: true }, None, 0));
    assert!(hook_fires(GlobalTrigger::OnEvent { emitted: true }, Some(2), 1));
    assert!(!hook_fires(GlobalTrigger::OnEvent { emitted: true }, Some(2), 2));
    assert!(!hook_fires(GlobalTrigger::OnEvent { emitted: false }, None, 0));
    assert!(!hook_fires(GlobalTrigger::Other, None, 0));
}

#[test]
fn test_task_ids() {
    let mut next = 1u32;
    assert_eq!(assign_task_id(0, &mut next), 1);
    assert_eq!(next, 2);
    assert_eq!(assign_task_id(10, &mut next), 10);
    assert_eq!(next, 11);
    assert_eq!(assign_task_id(4, &mut next), 4);
    assert_eq!(next, 11);
}

#[test]
fn test_transition_task() {
    let mut s = TaskState::Ready;
    assert_eq!(transition_task(3, &mut s, TaskState::Running), Ok("Task #3: Running → Running".to_string()));
    assert_eq!(s, TaskState::Running);
    assert_eq!(transition_task(3, &mut s, TaskState::Skipped), Err("Invalid transition: Running → Skipped".to_string()));
    assert_eq!(s, TaskState::Running);
    assert_eq!(result_event_key(7, true), "task.done.7");
    assert_eq!(result_event_key(7, false), "task.failed.7");
}

#[test]
fn test_status_listing_by_order() {
    let row = |id: u32, title: &str, state: TaskState, order: usize| StatusRow {
        id,
        title: title.to_string(),
        state,
        agent: None,
        guarded: false,
        retry_count: 0,
        max_retries: 0,
        order,
    };
    let mut deploy = row(2, "deploy", TaskState::Pending, 2);
    deploy.agent = Some("coder".to_string());
    deploy.guarded = true;
    deploy.max_retries = 3;
    deploy.retry_count = 1;
    assert_eq!(format_status_line(&deploy), "  ○ #2 deploy @coder [guarded] (retry 1/3)\n");
    let status = format_status(vec![deploy, row(1, "setup", TaskState::Done, 1), row(3, "watch", TaskState::Persistent, 2)]);
    assert_eq!(
        status,
        "  ✓ #1 setup\n  ○ #2 deploy @coder [guarded] (retry 1/3)\n  ∞ #3 watch\n"
    );
    assert!(status.contains("✓"));
    assert!(status.contains("○"));
    assert!(status.contains("@coder"));
    assert!(status.contains("[guarded]"));
}

#[test]
fn persistent_pool_without_agents() {
    let mut pool = radiumical_core::dynamic::PersistentAgentPool::new();
    assert!(pool.idle_agents().is_empty());
    assert!(!pool.assign("a", 1));
    pool.release("a");
    assert!(pool.idle_agents().is_empty());
}

#[test]
fn tick_effects_clear_error_and_pick_hooks() {
    use_tick_effects();
}

fn use_tick_effects() {
    let mut err = Some("boom".to_string());
    let fired = radiumical_core::dynamic::tick_effects(
        radiumical_core::dynamic::TaskTick::Retried,
        &mut err,
        &[true, false],
    );
    assert!(fired.is_empty());
    assert_eq!(err, None);
    let mut err2 = Some("x".to_string());
    let fired2 = radiumical_core::dynamic::tick_effects(
        radiumical_core::dynamic::TaskTick::FireRunningHooks,
        &mut err2,
        &[true, false, true],
    );
    assert_eq!(fired2, vec![0usize, 2]);
    assert_eq!(err2.as_deref(), Some("x"));
}
