use radiumical_core::cluster::{
    absorb_results, assign_prompt, assign_ready, cluster_finished, ClusterEvent, ClusterResult, WorkerPool, WorkerSlot,
};
use radiumical_core::dynamic::{EventBus, TaskState};

fn make_cluster() -> WorkerPool {
    WorkerPool::new()
}

#[test]
fn test_worker_slot_lifecycle() {
    let mut cluster = make_cluster();
    cluster.add_worker("w1", "coder");
    cluster.add_worker("w2", "auditor");

    assert_eq!(cluster.idle_count(), 2);
    assert_eq!(cluster.running_count(), 0);

    // Simulate assignment
    cluster.mark_running("w1", 1, 0);
    assert_eq!(cluster.idle_count(), 1);
    assert_eq!(cluster.running_count(), 1);
}

#[test]
fn test_idle_worker_for_role() {
    let mut cluster = make_cluster();
    cluster.add_worker("w1", "coder");
    cluster.add_worker("w2", "auditor");
    cluster.add_worker("w3", "coder");

    // Any idle
    assert!(cluster.idle_worker_for_role(None).is_some());

    // Role-specific
    let coder = cluster.idle_worker_for_role(Some("coder"));
    assert!(coder.is_some());
    let w = coder.unwrap();
    assert!(w == "w1" || w == "w3");

    // Non-existent role
    assert!(cluster.idle_worker_for_role(Some("tester")).is_none());
}

#[test]
fn test_release_counts_completed_tasks() {
    let mut cluster = make_cluster();
    let ev = cluster.add_worker("w1", "coder");
    assert!(matches!(ev, ClusterEvent::WorkerSpawned { .. }));
    assert!(cluster.all_idle());
    cluster.mark_running("w1", 7, 100);
    assert!(!cluster.all_idle());
    assert!(cluster.idle_worker_for_role(Some("coder")).is_none());
    cluster.release("w1");
    assert!(cluster.all_idle());
    assert_eq!(cluster.idle_worker_for_role(Some("coder")), Some("w1"));
    // Unknown ids change nothing.
    cluster.mark_running("nobody", 1, 0);
    cluster.release("nobody");
    assert_eq!(cluster.idle_count(), 1);
}

#[test]
fn test_new_slot_is_idle() {
    let slot = WorkerSlot::new("w9", "tester");
    assert!(slot.is_idle());
    assert_eq!(slot.tasks_completed, 0);
    assert_eq!(slot.role, "tester");
}

#[test]
fn test_assign_prompt_and_status() {
    assert_eq!(
        assign_prompt(4, "build"),
        "Execute task #4: build\n\nWhen done, your output will be captured as the task result."
    );
    let mut cluster = make_cluster();
    cluster.add_worker("w1", "coder");
    cluster.add_worker("w2", "auditor");
    cluster.mark_running("w2", 9, 0);
    let status = cluster.format_status("  ○ #1 test\n");
    assert_eq!(
        status,
        "Cluster Status:\n\nWorkers:\n  ○ w1 (coder) — idle — 0 tasks done\n  ◉ w2 (auditor) — working on #9 — 0 tasks done\n\n  ○ #1 test\n"
    );
    assert!(status.contains("Workers:"));
    assert!(!cluster_finished(&[TaskState::Done], &cluster));
    cluster.release("w2");
    assert!(cluster_finished(&[TaskState::Done, TaskState::Failed, TaskState::Skipped, TaskState::Persistent], &cluster));
    assert!(!cluster_finished(&[TaskState::Done, TaskState::Ready], &cluster));
    assert!(!cluster_finished(&[], &cluster));
}

#[test]
fn tick_assigns_then_absorbs_results() {
    let mut pool = WorkerPool::new();
    pool.add_worker("w1", "coder");
    pool.add_worker("w2", "auditor");
    let mut states = vec![(1u32, TaskState::Ready), (2u32, TaskState::Ready), (3u32, TaskState::Ready)];
    let needs = vec![(1u32, Some("coder".to_string())), (2u32, Some("coder".to_string())), (3u32, None)];
    let assigned = assign_ready(&mut pool, &mut states, needs, 10);
    assert_eq!(assigned, vec![(1u32, "w1".to_string()), (3u32, "w2".to_string())]);
    assert_eq!(states, vec![(1u32, TaskState::Running), (2u32, TaskState::Ready), (3u32, TaskState::Running)]);
    assert_eq!(pool.idle_count(), 0);
    assert_eq!(pool.running_count(), 2);

    let mut bus = EventBus::new();
    let results = vec![
        ClusterResult { task_id: 1, worker_id: "w1".to_string(), success: true, output: "ok".to_string() },
        ClusterResult { task_id: 3, worker_id: "w2".to_string(), success: false, output: "boom".to_string() },
    ];
    let ev = absorb_results(&mut pool, &mut bus, &mut states, results, 20);
    assert_eq!(ev.len(), 2);
    assert!(matches!(&ev[0], ClusterEvent::TaskCompleted { task_id: 1, worker_id, success: true } if worker_id == "w1"));
    assert!(matches!(&ev[1], ClusterEvent::TaskCompleted { task_id: 3, success: false, .. }));
    assert_eq!(states, vec![(1u32, TaskState::Done), (2u32, TaskState::Ready), (3u32, TaskState::Failed)]);
    assert_eq!(pool.idle_count(), 2);
    assert!(bus.has_emitted("task.done.1"));
    assert!(bus.has_emitted("task.failed.3"));
    let log = bus.log();
    assert_eq!(log.len(), 3);
    assert_eq!(log[0].payload, None);
    assert_eq!(log[1].payload.as_deref(), Some("ok"));
    assert_eq!(log[2].payload.as_deref(), Some("boom"));
}
