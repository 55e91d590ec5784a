use ninja::engine::graph::{Dag, DagError};
use ninja::protocol::{default_timeout, TaskSpec};

fn spec(id: &str, deps: &[&str]) -> TaskSpec {
    TaskSpec {
        task_id: id.to_string(),
        command: "echo".to_string(),
        args: vec![id.to_string()],
        dependencies: deps.iter().map(|d| d.to_string()).collect(),
        timeout_secs: default_timeout(),
        max_retries: 0,
    }
}

fn ids(specs: &[TaskSpec]) -> Vec<String> {
    specs.iter().map(|s| s.task_id.clone()).collect()
}

fn diamond() -> Dag {
    let mut dag = Dag::new();
    dag.add_task(spec("task-1a", &[]));
    dag.add_task(spec("task-1b", &[]));
    dag.add_task(spec("task-2", &["task-1a", "task-1b"]));
    dag
}

#[test]
fn empty_graph_has_nothing_ready_and_is_finished() {
    let dag = Dag::new();
    assert!(dag.get_ready_tasks().is_empty());
    assert!(dag.is_finished());
    assert!(dag.validate_dag().is_ok());
}

#[test]
fn tasks_without_dependencies_are_ready_in_insertion_order() {
    let dag = diamond();
    assert_eq!(ids(&dag.get_ready_tasks()), vec!["task-1a", "task-1b"]);
    let ready = dag.get_ready_tasks();
    assert_eq!(ready[0].command, "echo");
    assert_eq!(ready[0].args, vec!["task-1a".to_string()]);
    assert_eq!(ready[0].timeout_secs, 30);
}

#[test]
fn completing_dependencies_releases_the_dependent() {
    let mut dag = diamond();
    let released = dag.mark_completed("task-1a").unwrap();
    assert!(released.is_empty());
    assert_eq!(ids(&dag.get_ready_tasks()), vec!["task-1b"]);
    let released = dag.mark_completed("task-1b").unwrap();
    assert_eq!(ids(&released), vec!["task-2"]);
    assert_eq!(ids(&dag.get_ready_tasks()), vec!["task-2"]);
    assert!(!dag.is_finished());
    dag.mark_completed("task-2").unwrap();
    assert!(dag.is_finished());
}

#[test]
fn mark_running_moves_pending_tasks_only() {
    let mut dag = diamond();
    assert!(dag.mark_running("task-1a").is_ok());
    assert_eq!(ids(&dag.get_ready_tasks()), vec!["task-1b"]);
    match dag.mark_running("task-1a") {
        Err(DagError::InvalidStatusTransition(m)) => assert_eq!(m, "Task task-1a is not Pending"),
        other => panic!("unexpected: {:?}", other),
    }
    match dag.mark_running("nope") {
        Err(DagError::TaskNotFound(m)) => assert_eq!(m, "nope"),
        other => panic!("unexpected: {:?}", other),
    }
}

#[test]
fn unknown_tasks_are_reported() {
    let mut dag = diamond();
    assert!(matches!(dag.mark_completed("ghost"), Err(DagError::TaskNotFound(m)) if m == "ghost"));
    assert!(matches!(dag.mark_failed("ghost"), Err(DagError::TaskNotFound(m)) if m == "ghost"));
}

#[test]
fn failed_tasks_count_as_done_and_do_not_release_dependents() {
    let mut dag = diamond();
    dag.mark_failed("task-1a").unwrap();
    dag.mark_completed("task-1b").unwrap();
    assert!(dag.get_ready_tasks().is_empty());
    assert!(!dag.is_finished());
    dag.mark_failed("task-2").unwrap();
    assert!(dag.is_finished());
}

#[test]
fn adding_a_task_twice_keeps_the_first_and_counts_edges_again() {
    let mut dag = Dag::new();
    dag.add_task(spec("a", &[]));
    dag.add_task(spec("b", &["a"]));
    dag.add_task(spec("b", &["a"]));
    assert_eq!(ids(&dag.get_ready_tasks()), vec!["a"]);
    // The second edge is counted but listed once, so one completion does not release `b`.
    assert!(dag.mark_completed("a").unwrap().is_empty());
}

#[test]
fn dependencies_on_unknown_tasks_are_skipped() {
    let mut dag = Dag::new();
    dag.add_task(spec("b", &["a"]));
    assert_eq!(ids(&dag.get_ready_tasks()), vec!["b"]);
    assert!(dag.add_dependency("x", "b").is_ok());
    assert_eq!(ids(&dag.get_ready_tasks()), vec!["b"]);
}

#[test]
fn validate_accepts_a_dag() {
    let dag = diamond();
    assert!(dag.has_consistent_counts());
    assert!(dag.can_validate());
    assert!(dag.validate_dag().is_ok());
}

#[test]
fn validate_rejects_a_cycle() {
    let mut dag = Dag::new();
    dag.add_task(spec("a", &[]));
    dag.add_task(spec("b", &["a"]));
    dag.add_dependency("b", "a").unwrap();
    assert!(dag.has_consistent_counts());
    assert!(matches!(dag.validate_dag(), Err(DagError::CyclicDependency)));
    assert!(dag.get_ready_tasks().is_empty());
}

#[test]
fn validate_rejects_a_self_loop() {
    let mut dag = Dag::new();
    dag.add_task(spec("a", &[]));
    dag.add_dependency("a", "a").unwrap();
    assert!(matches!(dag.validate_dag(), Err(DagError::CyclicDependency)));
}

#[test]
fn validate_rejects_a_count_above_the_edges() {
    let mut dag = Dag::new();
    dag.add_task(spec("a", &[]));
    dag.add_task(spec("b", &["a", "a"]));
    assert!(matches!(dag.validate_dag(), Err(DagError::CyclicDependency)));
}

#[test]
fn counts_fall_below_edges_after_release() {
    let mut dag = Dag::new();
    dag.add_task(spec("a", &[]));
    dag.add_task(spec("b", &["a"]));
    assert!(dag.has_consistent_counts());
    assert!(dag.can_validate());
    dag.mark_completed("a").unwrap();
    assert!(!dag.has_consistent_counts());
    assert!(!dag.can_validate());
}

#[test]
fn validation_runs_on_released_counts_when_no_count_would_go_negative() {
    let mut dag = Dag::new();
    dag.add_task(spec("c", &["d"]));
    dag.add_task(spec("d", &["c"]));
    dag.add_dependency("d", "c").unwrap();
    dag.add_task(spec("a", &[]));
    dag.add_task(spec("b", &["a", "d"]));
    dag.mark_completed("a").unwrap();
    assert!(!dag.has_consistent_counts());
    assert!(dag.can_validate());
    assert!(matches!(dag.validate_dag(), Err(DagError::CyclicDependency)));
}

#[test]
fn completing_twice_leaves_counts_validation_cannot_use() {
    let mut dag = diamond();
    dag.mark_completed("task-1a").unwrap();
    dag.mark_completed("task-1a").unwrap();
    assert!(!dag.can_validate());
}

#[test]
fn longer_chain_validates_and_runs_in_order() {
    let mut dag = Dag::new();
    dag.add_task(spec("a", &[]));
    dag.add_task(spec("b", &["a"]));
    dag.add_task(spec("c", &["b"]));
    dag.add_task(spec("d", &["a", "c"]));
    assert!(dag.validate_dag().is_ok());
    assert_eq!(ids(&dag.mark_completed("a").unwrap()), vec!["b"]);
    assert_eq!(ids(&dag.mark_completed("b").unwrap()), vec!["c"]);
    assert_eq!(ids(&dag.mark_completed("c").unwrap()), vec!["d"]);
}

#[test]
fn completing_a_task_twice_counts_it_twice() {
    let mut dag = diamond();
    assert!(dag.mark_completed("task-1a").unwrap().is_empty());
    let released = dag.mark_completed("task-1a").unwrap();
    assert_eq!(ids(&released), vec!["task-2"]);
    assert_eq!(ids(&dag.get_ready_tasks()), vec!["task-1b", "task-2"]);
}

#[test]
fn graph_errors_carry_their_texts() {
    assert_eq!(DagError::TaskNotFound("x".to_string()).message(), "タスクが見つかりません: x");
    assert_eq!(DagError::CyclicDependency.message(), "循環依存が検出されました (DAG違反)");
    assert_eq!(
        DagError::InvalidStatusTransition("Task a is not Pending".to_string()).message(),
        "無効なタスク状態遷移です: Task a is not Pending"
    );
}

#[test]
fn a_started_task_leaves_the_ready_list() {
    let mut dag = diamond();
    dag.mark_running("task-1a").unwrap();
    assert_eq!(ids(&dag.get_ready_tasks()), vec!["task-1b"]);
}

#[test]
fn adding_a_task_lists_it_under_each_present_dependency() {
    let mut dag = diamond();
    dag.add_task(spec("task-3", &["task-2", "missing"]));
    dag.mark_completed("task-1a").unwrap();
    dag.mark_completed("task-1b").unwrap();
    assert_eq!(ids(&dag.mark_completed("task-2").unwrap()), vec!["task-3"]);
}
