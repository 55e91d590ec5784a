use ninja::engine::retry::{ReconnectAction, RetryPolicy};
use ninja::server::master::MasterState;
use ninja::server::failover::{expired_workers, TaskLedger, HEARTBEAT_TIMEOUT_MS};
use ninja::server::orchestrator::{DagScheduler, TaskSpec};

fn spec(id: &str, deps: &[&str]) -> TaskSpec {
    TaskSpec {
        task_id: id.to_string(),
        command: "cmd".to_string(),
        args: vec![],
        dependencies: deps.iter().map(|d| d.to_string()).collect(),
    }
}

#[test]
fn workers_silent_longer_than_the_timeout_are_evicted() {
    let seen = [(1usize, 1_000u64), (2, 20_000), (3, 5_000), (4, 6_000)];
    assert_eq!(expired_workers(&seen, 18_000, HEARTBEAT_TIMEOUT_MS), vec![1, 3]);
    assert!(expired_workers(&seen, 18_000, 20_000).is_empty());
    assert_eq!(HEARTBEAT_TIMEOUT_MS, 12_000);
}

#[test]
fn a_lost_worker_gives_back_its_unreported_tasks() {
    let mut ledger = TaskLedger::new();
    ledger.record_assignments(&vec![(1, spec("a", &[])), (2, spec("b", &[])), (1, spec("c", &[]))]);
    ledger.task_reported("a");
    assert_eq!(ledger.worker_lost(1), vec!["c".to_string()]);
    assert!(ledger.worker_lost(1).is_empty());
    assert_eq!(ledger.worker_lost(2), vec!["b".to_string()]);
}

#[test]
fn requeued_tasks_are_handed_out_again() {
    let mut s = DagScheduler::new(vec![spec("a", &[]), spec("b", &["a"])]);
    assert_eq!(s.pop_ready_task().map(|t| t.task_id), Some("a".to_string()));
    assert!(s.pop_ready_task().is_none());
    s.requeue_tasks(&vec!["a".to_string(), "b".to_string(), "zzz".to_string()]);
    assert_eq!(s.pop_ready_task().map(|t| t.task_id), Some("a".to_string()));
    assert!(s.pop_ready_task().is_none());
}

#[test]
fn reconnection_delay_doubles_each_attempt() {
    let p = RetryPolicy::new(5, 500);
    assert_eq!(p.delay_ms(0), 500);
    assert_eq!(p.delay_ms(1), 1_000);
    assert_eq!(p.delay_ms(3), 4_000);
    let big = RetryPolicy::new(5, u64::MAX / 2 + 1);
    assert_eq!(big.delay_ms(1), u64::MAX);
    assert_eq!(big.delay_ms(40), u64::MAX);
}

#[test]
fn reconnection_steps_back_off_then_give_up() {
    let p = RetryPolicy::new(2, 100);
    assert_eq!(p.after_session(0, false), (1, ReconnectAction::Wait(100)));
    assert_eq!(p.after_session(1, false), (2, ReconnectAction::Wait(200)));
    assert_eq!(p.after_session(2, false), (2, ReconnectAction::GiveUp));
    assert_eq!(p.after_session(2, true), (1, ReconnectAction::Wait(100)));
}

#[test]
fn the_master_requeues_a_lost_workers_tasks() {
    let mut m = MasterState::new();
    assert!(m.dispatch(&[1]).is_empty());
    m.load_plan(vec![spec("a", &[]), spec("b", &[]), spec("c", &["a", "b"])]);
    m.worker_registered(1, 0);
    m.worker_registered(2, 0);
    let sent: Vec<(usize, String)> = m.dispatch(&[1, 2]).into_iter().map(|(w, t)| (w, t.task_id)).collect();
    assert_eq!(sent, vec![(1, "a".to_string()), (2, "b".to_string())]);
    assert!(m.task_finished(1, "a", true, 5_000));
    m.heartbeat(3, 5_000);
    assert_eq!(m.silent_workers(HEARTBEAT_TIMEOUT_MS), Vec::<usize>::new());
    assert_eq!(m.silent_workers(HEARTBEAT_TIMEOUT_MS + 1), vec![2]);
    assert_eq!(m.worker_lost(2), vec!["b".to_string()]);
    let again: Vec<(usize, String)> = m.dispatch(&[1]).into_iter().map(|(w, t)| (w, t.task_id)).collect();
    assert_eq!(again, vec![(1, "b".to_string())]);
    assert!(m.task_finished(1, "b", true, 20_000));
    let last: Vec<(usize, String)> = m.dispatch(&[1]).into_iter().map(|(w, t)| (w, t.task_id)).collect();
    assert_eq!(last, vec![(1, "c".to_string())]);
    assert!(!m.task_finished(1, "c", true, 21_000));
}
