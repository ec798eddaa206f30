use mapreduce::master::Master;
use mapreduce::master::RECLAIM_TIMEOUT_MS;
use mapreduce::task::Task;
use mapreduce::task::TaskContext;
use mapreduce::task::TaskKind;
use mapreduce::task::TaskResult;

fn ready(r: TaskResult) -> Task {
    match r {
        TaskResult::Ready(t) => t,
        TaskResult::Pending => panic!("expected a task, scheduler said pending"),
        TaskResult::Done => panic!("expected a task, scheduler said done"),
    }
}

fn map_path(t: &Task) -> String {
    match &t.context {
        TaskContext::MapTask { file_path, .. } => file_path.clone(),
        TaskContext::ReduceTask { .. } => panic!("expected a map task"),
    }
}

fn reduce_sources(t: &Task) -> Vec<u32> {
    match &t.context {
        TaskContext::ReduceTask { mapper_ids } => mapper_ids.clone(),
        TaskContext::MapTask { .. } => panic!("expected a reduce task"),
    }
}

#[test]
fn new_master_has_one_map_task_per_file() {
    let m = Master::new(vec![String::from("a.txt"), String::from("b.txt")], 10);
    assert_eq!(m.map_queue.len(), 2);
    assert_eq!(m.maps_remaining(), 2);
    assert_eq!(m.reduce_queue.len(), 0);
    assert_eq!(m.n_reduce, 10);
}

#[test]
fn maps_precede_reduces_and_barrier_creates_reduce_tasks() {
    // Two input files, two reduce partitions: after both maps complete,
    // exactly two reduce tasks exist, each consuming both map identities.
    let mut m = Master::new(vec![String::from("a.txt"), String::from("b.txt")], 2);
    let t1 = ready(m.pull(0));
    let t2 = ready(m.pull(0));
    assert!(t1.is_map() && t2.is_map());
    assert_ne!(t1.task_id, t2.task_id);
    assert_ne!(t1.unique_id, t2.unique_id);

    // Nothing pending while both maps are in flight.
    assert!(matches!(m.pull(1), TaskResult::Pending));

    m.on_map_finished(t1.unique_id);
    assert_eq!(m.maps_remaining(), 1);
    // The barrier is still open: no reduce task may be handed out.
    assert!(matches!(m.pull(2), TaskResult::Pending));
    assert_eq!(m.reduce_queue.len(), 0);

    m.on_map_finished(t2.unique_id);
    assert_eq!(m.maps_remaining(), 0);
    assert_eq!(m.reduce_queue.len(), 2);

    let r1 = ready(m.pull(3));
    let r2 = ready(m.pull(3));
    assert!(r1.is_reduce() && r2.is_reduce());
    assert_ne!(r1.task_id, r2.task_id);
    let mut expected = vec![t1.task_id, t2.task_id];
    expected.sort();
    for r in [&r1, &r2] {
        let mut sources = reduce_sources(r);
        sources.sort();
        assert_eq!(sources, expected);
        assert!(r.task_id < 2);
    }
}

#[test]
fn completion_notifications_are_idempotent() {
    let mut m = Master::new(vec![String::from("a.txt"), String::from("b.txt")], 2);
    let t = ready(m.pull(0));
    m.on_map_finished(t.unique_id);
    let remaining = m.maps_remaining();
    let queued_reduces = m.reduce_queue.len();
    // A duplicate notification for the same identity changes nothing.
    m.on_map_finished(t.unique_id);
    assert_eq!(m.maps_remaining(), remaining);
    assert_eq!(m.reduce_queue.len(), queued_reduces);
    assert_eq!(m.finished_maps.len(), 1);
}

#[test]
fn completed_task_is_never_reclaimed() {
    let mut m = Master::new(vec![String::from("a.txt")], 1);
    let t = ready(m.pull(0));
    m.on_map_finished(t.unique_id);
    // The reclamation check fires long after the timeout; the completed
    // attempt must not come back.
    m.reclaim(TaskKind::MapTask, t.unique_id, 10 * RECLAIM_TIMEOUT_MS);
    assert_eq!(m.map_queue.len(), 0);
    assert_eq!(m.maps_remaining(), 0);
    let r = ready(m.pull(20 * RECLAIM_TIMEOUT_MS));
    assert!(r.is_reduce());
}

#[test]
fn silent_task_is_reassigned_after_exactly_the_timeout() {
    // A worker takes the map task and never reports. One tick before the
    // timeout nothing happens; at the timeout the same work is reassigned
    // with its context preserved.
    let mut m = Master::new(vec![String::from("a.txt")], 1);
    let t = ready(m.pull(0));
    assert_eq!(map_path(&t), "a.txt");

    m.reclaim(TaskKind::MapTask, t.unique_id, RECLAIM_TIMEOUT_MS - 1);
    assert!(matches!(m.pull(RECLAIM_TIMEOUT_MS - 1), TaskResult::Pending));

    m.reclaim(TaskKind::MapTask, t.unique_id, RECLAIM_TIMEOUT_MS);
    let t2 = ready(m.pull(RECLAIM_TIMEOUT_MS));
    assert_eq!(t2.task_id, t.task_id);
    assert_eq!(map_path(&t2), "a.txt");

    // A very late completion notification from the first attempt is a
    // benign no-op: the identity is stale.
    m.on_map_finished(t.unique_id);
    assert_eq!(m.maps_remaining(), 1);
    // The live attempt completes the task.
    m.on_map_finished(t2.unique_id);
    assert_eq!(m.maps_remaining(), 0);
}

#[test]
fn reduce_task_is_reassigned_after_timeout() {
    let mut m = Master::new(vec![String::from("a.txt")], 1);
    let t = ready(m.pull(0));
    m.on_map_finished(t.unique_id);
    let r = ready(m.pull(100));
    assert!(r.is_reduce());
    m.reclaim(TaskKind::ReduceTask, r.unique_id, 100 + RECLAIM_TIMEOUT_MS);
    let r2 = ready(m.pull(100 + RECLAIM_TIMEOUT_MS));
    assert!(r2.is_reduce());
    assert_eq!(r2.task_id, r.task_id);
    assert_eq!(reduce_sources(&r2), reduce_sources(&r));
}

#[test]
fn finished_job_answers_done_indefinitely() {
    let mut m = Master::new(vec![String::from("a.txt"), String::from("b.txt")], 2);
    let t1 = ready(m.pull(0));
    let t2 = ready(m.pull(0));
    m.on_map_finished(t1.unique_id);
    m.on_map_finished(t2.unique_id);
    let r1 = ready(m.pull(1));
    let r2 = ready(m.pull(1));
    m.on_reduce_finished(r1.unique_id);
    m.on_reduce_finished(r2.unique_id);
    for now in [2, 3, 1000, u64::MAX] {
        assert!(matches!(m.pull(now), TaskResult::Done));
    }
}

#[test]
fn one_pending_task_goes_to_exactly_one_caller() {
    // Two workers ask for work while exactly one map task is pending: one
    // receives it, the other is told to wait, and the task is never handed
    // out twice.
    let mut m = Master::new(vec![String::from("a.txt")], 1);
    let first = m.pull(0);
    let second = m.pull(0);
    let t = ready(first);
    assert!(t.is_map());
    assert!(matches!(second, TaskResult::Pending));
}

#[test]
fn job_without_input_files_closes_the_barrier_at_once() {
    // With no input files the map phase is closed from the start: the
    // reduce task set over an empty input list exists immediately.
    let mut m = Master::new(Vec::new(), 2);
    assert_eq!(m.maps_remaining(), 0);
    assert_eq!(m.reduce_queue.len(), 2);
    let r = ready(m.pull(0));
    assert!(r.is_reduce());
    assert_eq!(reduce_sources(&r), Vec::<u32>::new());
}

#[test]
fn task_ordering_puts_maps_before_reduces() {
    let map = Task::new(1, 0, TaskContext::new_map(2, String::from("a.txt")));
    let red = Task::new(2, 0, TaskContext::new_reduce(vec![0]));
    assert!(map < red);
    assert!(red > map);
    assert_eq!(
        map.partial_cmp(&Task::new(3, 1, TaskContext::new_map(2, String::from("b.txt")))),
        Some(std::cmp::Ordering::Equal)
    );
    // Equality is by assignment attempt identity.
    assert_eq!(map, Task::new(1, 9, TaskContext::new_reduce(vec![])));
    assert_ne!(map, red);
}
