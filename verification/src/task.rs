//! The task model: the immutable description of one unit of work that the
//! scheduler hands out to workers, and the result of asking for work.

use vstd::prelude::*;

verus! {

/// Stable identity of one logical unit of work: the input-file index of a map
/// task, or the partition index of a reduce task.
pub type TaskId = u32;

/// Identity of one assignment attempt. The scheduler assigns a fresh value at
/// every handout and never reuses one over the lifetime of a job, so a late
/// completion from a reclaimed attempt can be told apart from the current one.
pub type UniqueId = u32;

/// Mathematical model of a [`TaskContext`].
pub ghost enum SpecTaskContext {
    MapTask { n_reduce: u32, file_path: Seq<char> },
    ReduceTask { mapper_ids: Seq<TaskId> },
}

/// What a task works on.
///
/// A map task reads one input file and writes `n_reduce` intermediate
/// partitions. A reduce task consumes, for its own partition index, the
/// intermediate output of every map task named in `mapper_ids`.
#[derive(Debug)]
pub enum TaskContext {
    MapTask { n_reduce: u32, file_path: String },
    ReduceTask { mapper_ids: Vec<TaskId> },
}

impl View for TaskContext {
    type V = SpecTaskContext;

    open spec fn view(&self) -> SpecTaskContext {
        match self {
            TaskContext::MapTask { n_reduce, file_path } => SpecTaskContext::MapTask {
                n_reduce: *n_reduce,
                file_path: file_path@,
            },
            TaskContext::ReduceTask { mapper_ids } => SpecTaskContext::ReduceTask {
                mapper_ids: mapper_ids@,
            },
        }
    }
}

impl TaskContext {
    /// The context of a map task over one input file.
    pub fn new_map(n_reduce: u32, file_path: String) -> (r: Self)
        ensures
            r@ == (SpecTaskContext::MapTask { n_reduce, file_path: file_path@ }),
    {
        TaskContext::MapTask { n_reduce, file_path }
    }

    /// The context of a reduce task over the intermediate output of the given
    /// map tasks.
    pub fn new_reduce(mapper_ids: Vec<TaskId>) -> (r: Self)
        ensures
            r@ == (SpecTaskContext::ReduceTask { mapper_ids: mapper_ids@ }),
    {
        TaskContext::ReduceTask { mapper_ids }
    }
}

impl Clone for TaskContext {
    fn clone(&self) -> (r: Self)
        ensures
            r@ == self@,
    {
        match self {
            TaskContext::MapTask { n_reduce, file_path } => TaskContext::MapTask {
                n_reduce: *n_reduce,
                file_path: file_path.clone(),
            },
            TaskContext::ReduceTask { mapper_ids } => TaskContext::ReduceTask {
                mapper_ids: copy_ids(mapper_ids),
            },
        }
    }
}

/// A copy of a list of task identities.
pub(crate) fn copy_ids(ids: &Vec<TaskId>) -> (r: Vec<TaskId>)
    ensures
        r@ == ids@,
{
    let mut r: Vec<TaskId> = Vec::new();
    let mut i: usize = 0;
    while i < ids.len()
        invariant
            i <= ids.len(),
            r@ == ids@.take(i as int),
        decreases ids.len() - i,
    {
        r.push(ids[i]);
        i = i + 1;
        proof {
            assert(r@ =~= ids@.take(i as int));
        }
    }
    proof {
        assert(r@ =~= ids@);
    }
    r
}

/// Which executor behavior a task requires.
#[derive(Copy, Clone, Debug, Hash, PartialEq, Eq, Structural)]
pub enum TaskKind {
    MapTask,
    ReduceTask,
}

/// Mathematical model of a [`Task`].
pub ghost struct SpecTask {
    pub unique_id: UniqueId,
    pub task_id: TaskId,
    pub context: SpecTaskContext,
}

/// One unit of work as handed to a worker: the attempt identity, the logical
/// identity, and what to work on.
#[derive(Debug)]
pub struct Task {
    pub unique_id: UniqueId,
    pub task_id: TaskId,
    pub context: TaskContext,
}

impl View for Task {
    type V = SpecTask;

    open spec fn view(&self) -> SpecTask {
        SpecTask { unique_id: self.unique_id, task_id: self.task_id, context: self.context@ }
    }
}

impl SpecTask {
    /// True of a map task.
    pub open spec fn is_map(self) -> bool {
        self.context is MapTask
    }

    /// True of a reduce task.
    pub open spec fn is_reduce(self) -> bool {
        self.context is ReduceTask
    }
}

impl Task {
    /// A task from its parts.
    pub fn new(unique_id: UniqueId, task_id: TaskId, context: TaskContext) -> (r: Self)
        ensures
            r@ == (SpecTask { unique_id, task_id, context: context@ }),
    {
        Self { unique_id, task_id, context }
    }

    /// True of a map task.
    pub fn is_map(&self) -> (r: bool)
        ensures
            r == self@.is_map(),
    {
        match &self.context {
            TaskContext::MapTask { .. } => true,
            _ => false,
        }
    }

    /// True of a reduce task.
    pub fn is_reduce(&self) -> (r: bool)
        ensures
            r == self@.is_reduce(),
    {
        match &self.context {
            TaskContext::ReduceTask { .. } => true,
            _ => false,
        }
    }
}

impl Clone for Task {
    fn clone(&self) -> (r: Self)
        ensures
            r@ == self@,
    {
        Task { unique_id: self.unique_id, task_id: self.task_id, context: self.context.clone() }
    }
}

impl PartialEq for Task {
    /// Two tasks are the same assignment attempt when their attempt
    /// identities agree.
    fn eq(&self, other: &Task) -> (r: bool) {
        self.unique_id == other.unique_id
    }
}

impl vstd::std_specs::cmp::PartialEqSpecImpl for Task {
    open spec fn obeys_eq_spec() -> bool {
        true
    }

    open spec fn eq_spec(&self, other: &Task) -> bool {
        self.unique_id == other.unique_id
    }
}

impl PartialOrd for Task {
    /// Reduce tasks order after map tasks, mirroring their scheduling
    /// priority; tasks of one kind compare equal.
    fn partial_cmp(&self, other: &Task) -> (r: Option<core::cmp::Ordering>) {
        match (&self.context, &other.context) {
            (TaskContext::ReduceTask { .. }, TaskContext::MapTask { .. }) => Some(
                core::cmp::Ordering::Greater,
            ),
            (TaskContext::MapTask { .. }, TaskContext::ReduceTask { .. }) => Some(
                core::cmp::Ordering::Less,
            ),
            _ => Some(core::cmp::Ordering::Equal),
        }
    }
}

impl vstd::std_specs::cmp::PartialOrdSpecImpl for Task {
    open spec fn obeys_partial_cmp_spec() -> bool {
        true
    }

    open spec fn partial_cmp_spec(&self, other: &Task) -> Option<core::cmp::Ordering> {
        if self@.is_reduce() && other@.is_map() {
            Some(core::cmp::Ordering::Greater)
        } else if self@.is_map() && other@.is_reduce() {
            Some(core::cmp::Ordering::Less)
        } else {
            Some(core::cmp::Ordering::Equal)
        }
    }
}

/// Mathematical model of a [`TaskResult`].
pub ghost enum SpecTaskResult {
    Ready(SpecTask),
    Pending,
    Done,
}

/// The scheduler's answer to a request for work: a task to run, a hint to
/// retry later while assigned tasks are still in flight, or the signal that
/// the whole job has completed.
#[derive(Debug)]
pub enum TaskResult {
    Ready(Task),
    Pending,
    Done,
}

impl View for TaskResult {
    type V = SpecTaskResult;

    open spec fn view(&self) -> SpecTaskResult {
        match self {
            TaskResult::Ready(t) => SpecTaskResult::Ready(t@),
            TaskResult::Pending => SpecTaskResult::Pending,
            TaskResult::Done => SpecTaskResult::Done,
        }
    }
}

} // verus!
