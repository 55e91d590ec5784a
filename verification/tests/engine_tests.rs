use ninja::engine::config::Config;
use ninja::engine::executor::TaskExecutor;
use ninja::engine::path::{LeastLoadStrategy, PathStrategy};
use ninja::engine::retry::{RetryPolicy, TaskResult};
use ninja::engine::worker::{WorkerNode, WorkerSession};
use ninja::protocol::TaskResultSpec;

fn session(addr: &str, alive: bool, tasks: usize, latency: u64) -> WorkerSession {
    WorkerSession { address: addr.to_string(), is_alive: alive, active_tasks: tasks, latency_ms: latency }
}

#[test]
fn config_defaults() {
    let c = Config::default();
    assert_eq!(c.worker_addr, "127.0.0.1:9001");
    assert_eq!(c.client_addr, "127.0.0.1:9090");
    assert_eq!(c.clone().client_addr, "127.0.0.1:9090");
}

#[test]
fn retry_only_infrastructure_failures_while_attempts_remain() {
    let policy = RetryPolicy::new(3, 100);
    assert_eq!(policy.base_delay_ms, 100);
    let infra = TaskResult::InfraError { reason: "connection reset".to_string() };
    let finished = TaskResult::Finished(TaskResultSpec {
        task_id: "t".to_string(),
        success: false,
        exit_code: Some(1),
        stdout: String::new(),
        stderr: String::new(),
    });
    assert!(policy.should_retry(0, &infra));
    assert!(policy.should_retry(2, &infra));
    assert!(!policy.should_retry(3, &infra));
    assert!(!policy.should_retry(0, &finished));
    assert!(!RetryPolicy::new(0, 1).should_retry(0, &infra));
}

#[test]
fn least_load_picks_the_live_worker_with_least_load() {
    let ws = vec![
        session("a", true, 3, 5),
        session("b", false, 0, 0),
        session("c", true, 1, 12),
        session("d", true, 2, 0),
    ];
    assert_eq!(LeastLoadStrategy.select_path(&ws), Ok("d".to_string()));
}

#[test]
fn least_load_takes_the_first_on_ties() {
    let ws = vec![session("a", true, 1, 0), session("b", true, 0, 10)];
    assert_eq!(LeastLoadStrategy.select_path(&ws), Ok("a".to_string()));
}

#[test]
fn least_load_without_live_workers_fails() {
    let ws = vec![session("a", false, 0, 0)];
    assert_eq!(
        LeastLoadStrategy.select_path(&ws),
        Err("❌ 有効な稼働中のワーカーが見つかりません（LeastLoadStrategy）。".to_string())
    );
    assert!(LeastLoadStrategy.select_path(&[]).is_err());
}

#[test]
fn worker_node_keeps_its_addresses() {
    let w = WorkerNode::new("worker-1".to_string(), "127.0.0.1:9001".to_string());
    assert_eq!(w.worker_id(), "worker-1");
    assert_eq!(w.server_addr(), "127.0.0.1:9001");
}

#[test]
fn finished_result_reads_output_as_text() {
    let r = TaskExecutor::finished_result("t1".to_string(), true, Some(0), b"hi\n", &[0x66, 0xff, 0x67]);
    assert_eq!(r.task_id, "t1");
    assert!(r.success);
    assert_eq!(r.exit_code, Some(0));
    assert_eq!(r.stdout, "hi\n");
    assert_eq!(r.stderr, "f\u{fffd}g");
}

#[test]
fn spawn_failure_result_names_the_reason() {
    let r = TaskExecutor::spawn_failed_result("t2".to_string(), "No such file or directory");
    assert!(!r.success);
    assert_eq!(r.exit_code, None);
    assert_eq!(r.stdout, "");
    assert_eq!(r.stderr, "Failed to spawn process: No such file or directory");
}

#[test]
fn timeout_result_names_the_limit() {
    let r = TaskExecutor::timed_out_result("t3".to_string(), 30);
    assert_eq!(r.task_id, "t3");
    assert!(!r.success);
    assert_eq!(r.exit_code, None);
    assert_eq!(r.stderr, "Task execution timed out after 30 seconds");
    let r = TaskExecutor::timed_out_result("t3".to_string(), 0);
    assert_eq!(r.stderr, "Task execution timed out after 0 seconds");
    let _ = TaskExecutor::new();
    let _ = TaskExecutor::default();
}
