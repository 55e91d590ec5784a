use ninja::engine::worker::{WorkerAction, WorkerNode};
use ninja::server::orchestrator::{DagScheduler, MasterToWorkerMsg, TaskResult, TaskSpec};

fn spec(id: &str, deps: &[&str]) -> TaskSpec {
    TaskSpec {
        task_id: id.to_string(),
        command: "cmd".to_string(),
        args: vec!["/C".to_string(), format!("echo {}", id)],
        dependencies: deps.iter().map(|d| d.to_string()).collect(),
    }
}

fn readme_tasks() -> Vec<TaskSpec> {
    vec![spec("task-1a", &[]), spec("task-1b", &[]), spec("task-2", &["task-1a", "task-1b"])]
}

fn pop_id(s: &mut DagScheduler) -> Option<String> {
    s.pop_ready_task().map(|t| t.task_id)
}

#[test]
fn independent_tasks_come_out_first_in_order() {
    let mut s = DagScheduler::new(readme_tasks());
    assert_eq!(pop_id(&mut s), Some("task-1a".to_string()));
    assert_eq!(pop_id(&mut s), Some("task-1b".to_string()));
    assert_eq!(pop_id(&mut s), None);
    assert!(!s.is_finished());
}

#[test]
fn dependent_task_waits_for_all_dependencies() {
    let mut s = DagScheduler::new(readme_tasks());
    pop_id(&mut s);
    pop_id(&mut s);
    s.mark_task_result("task-1a", true);
    assert_eq!(pop_id(&mut s), None);
    s.mark_task_result("task-1b", true);
    let t = s.pop_ready_task().unwrap();
    assert_eq!(t.task_id, "task-2");
    assert_eq!(t.dependencies, vec!["task-1a".to_string(), "task-1b".to_string()]);
    assert_eq!(t.args, vec!["/C".to_string(), "echo task-2".to_string()]);
    s.mark_task_result("task-2", true);
    assert!(s.is_finished());
}

#[test]
fn failure_blocks_dependents_but_counts_as_finished() {
    let mut s = DagScheduler::new(readme_tasks());
    s.mark_task_result("task-1a", false);
    s.mark_task_result("task-1b", true);
    pop_id(&mut s);
    pop_id(&mut s);
    assert_eq!(pop_id(&mut s), None);
    assert!(!s.is_finished());
    s.mark_task_result("task-2", false);
    assert!(s.is_finished());
}

#[test]
fn repeated_reports_count_once_per_set() {
    let mut s = DagScheduler::new(vec![spec("a", &[])]);
    s.mark_task_result("a", true);
    s.mark_task_result("a", true);
    assert!(s.is_finished());
}

#[test]
fn empty_schedule_is_finished() {
    let mut s = DagScheduler::new(vec![]);
    assert!(s.is_finished());
    assert_eq!(pop_id(&mut s), None);
}

#[test]
fn assign_ready_tasks_pairs_workers_with_tasks() {
    let mut s = DagScheduler::new(readme_tasks());
    let plan = s.assign_ready_tasks(&[7, 8, 9]);
    let pairs: Vec<(usize, String)> = plan.into_iter().map(|(w, t)| (w, t.task_id)).collect();
    assert_eq!(pairs, vec![(7, "task-1a".to_string()), (8, "task-1b".to_string())]);
    assert!(s.assign_ready_tasks(&[7]).is_empty());
    s.mark_task_result("task-1a", true);
    s.mark_task_result("task-1b", true);
    assert!(s.assign_ready_tasks(&[]).is_empty());
    let plan = s.assign_ready_tasks(&[3]);
    assert_eq!(plan.len(), 1);
    assert_eq!(plan[0].0, 3);
    assert_eq!(plan[0].1.task_id, "task-2");
}

#[test]
fn later_task_with_same_id_replaces_earlier() {
    let mut s = DagScheduler::new(vec![spec("a", &[]), spec("a", &["b"]), spec("b", &[])]);
    // Both `a` entries were queued or not by their own dependencies; the spec kept is the later one.
    let t = s.pop_ready_task().unwrap();
    assert_eq!(t.task_id, "a");
    assert_eq!(t.dependencies, vec!["b".to_string()]);
    assert_eq!(pop_id(&mut s), Some("b".to_string()));
}

#[test]
fn worker_result_reads_output_as_text() {
    let r = TaskResult::from_output("t1".to_string(), true, b"ok\n", b"bad \xff end");
    assert_eq!(r.task_id, "t1");
    assert!(r.success);
    assert_eq!(r.stdout, "ok\n");
    assert_eq!(r.stderr, "bad \u{FFFD} end");
}

#[test]
fn worker_result_for_a_process_that_did_not_start() {
    let r = TaskResult::not_started("t2".to_string(), "program not found".to_string());
    assert_eq!(r.task_id, "t2");
    assert!(!r.success);
    assert_eq!(r.stdout, "");
    assert_eq!(r.stderr, "program not found");
}

#[test]
fn worker_runs_assigned_tasks_and_ignores_pings() {
    match WorkerNode::react(MasterToWorkerMsg::AssignTask(spec("t3", &["t1"]))) {
        WorkerAction::Run(t) => {
            assert_eq!(t.task_id, "t3");
            assert_eq!(t.dependencies, vec!["t1".to_string()]);
        }
        WorkerAction::Nothing => panic!("an assignment must be run"),
    }
    assert!(matches!(WorkerNode::react(MasterToWorkerMsg::Ping), WorkerAction::Nothing));
}

#[test]
fn repeated_success_reports_never_hand_a_task_out_twice() {
    let mut s = DagScheduler::new(vec![spec("a", &[]), spec("b", &["a"]), spec("c", &["a", "b"])]);
    assert_eq!(pop_id(&mut s), Some("a".to_string()));
    s.mark_task_result("a", true);
    s.mark_task_result("a", true);
    s.mark_task_result("a", true);
    assert_eq!(pop_id(&mut s), Some("b".to_string()));
    assert_eq!(pop_id(&mut s), Some("c".to_string()));
    assert_eq!(pop_id(&mut s), None);
    s.mark_task_result("b", true);
    assert_eq!(pop_id(&mut s), None);
}
