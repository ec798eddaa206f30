//! The scheduler ("master"): the single consistency domain that owns the task
//! queues, hands out work, records completions, enforces the map-to-reduce
//! phase barrier, and reclaims tasks whose completion never arrives.
//!
//! The state is modelled by [`SpecMaster`]; every operation's contract states
//! the exact transition it performs on that model.

use vstd::multiset::Multiset;
use vstd::prelude::*;

use crate::task::SpecTask;
use crate::task::SpecTaskContext;
use crate::task::SpecTaskResult;
use crate::task::Task;
use crate::task::TaskContext;
use crate::task::TaskId;
use crate::task::TaskKind;
use crate::task::TaskResult;
use crate::task::UniqueId;

verus! {

broadcast use {vstd::multiset::group_multiset_axioms, vstd::seq_lib::group_to_multiset_ensures};

/// How long, in milliseconds, a handed-out task may stay silent before a
/// reclamation check treats it as lost and makes it assignable again.
pub const RECLAIM_TIMEOUT_MS: u64 = 10000;

/// Mathematical model of an [`Assigned`] entry.
pub ghost struct SpecAssigned {
    pub task: SpecTask,
    pub assigned_at: u64,
}

/// One assignment attempt currently in flight: the task exactly as it was
/// handed out, and the time of the handout.
pub struct Assigned {
    pub task: Task,
    pub assigned_at: u64,
}

impl View for Assigned {
    type V = SpecAssigned;

    open spec fn view(&self) -> SpecAssigned {
        SpecAssigned { task: self.task@, assigned_at: self.assigned_at }
    }
}

/// Mathematical model of the scheduler state.
///
/// `files` is the job's input file list; map task `i` works on `files[i]`.
/// A task's stable identity lives in `task_id`; the identity of one
/// assignment attempt lives in `unique_id`, drawn from `next_unique_id`.
#[verifier::ext_equal]
pub ghost struct SpecMaster {
    pub map_queue: Seq<SpecTask>,
    pub working_maps: Seq<SpecAssigned>,
    pub reduce_queue: Seq<SpecTask>,
    pub working_reduces: Seq<SpecAssigned>,
    pub finished_maps: Seq<TaskId>,
    pub finished_reduces: Seq<TaskId>,
    pub files: Seq<Seq<char>>,
    pub n_reduce: u32,
    pub next_unique_id: UniqueId,
}

impl SpecMaster {
    /// Number of map tasks of the job: one per input file.
    pub open spec fn n_map(self) -> int {
        self.files.len() as int
    }

    /// Map tasks whose completion has not been recorded yet.
    pub open spec fn maps_remaining(self) -> int {
        self.n_map() - self.finished_maps.len()
    }

    /// The map phase is closed once no map task is pending or in flight;
    /// only then may reduce tasks exist.
    pub open spec fn barrier_closed(self) -> bool {
        self.map_queue.len() == 0 && self.working_maps.len() == 0
    }

    /// The job is complete: nothing pending and nothing in flight.
    pub open spec fn is_done(self) -> bool {
        &&& self.map_queue.len() == 0
        &&& self.working_maps.len() == 0
        &&& self.reduce_queue.len() == 0
        &&& self.working_reduces.len() == 0
    }

    /// The stable identities of the pending map tasks.
    pub open spec fn map_queue_ids(self) -> Seq<TaskId> {
        self.map_queue.map_values(|t: SpecTask| t.task_id)
    }

    /// The stable identities of the map attempts in flight.
    pub open spec fn working_map_ids(self) -> Seq<TaskId> {
        self.working_maps.map_values(|a: SpecAssigned| a.task.task_id)
    }

    /// The stable identities of the pending reduce tasks.
    pub open spec fn reduce_queue_ids(self) -> Seq<TaskId> {
        self.reduce_queue.map_values(|t: SpecTask| t.task_id)
    }

    /// The stable identities of the reduce attempts in flight.
    pub open spec fn working_reduce_ids(self) -> Seq<TaskId> {
        self.working_reduces.map_values(|a: SpecAssigned| a.task.task_id)
    }

    /// Every place a map task's stable identity can live, as a multiset:
    /// pending, in flight, or completed.
    pub open spec fn map_slots(self) -> Multiset<TaskId> {
        self.map_queue_ids().to_multiset().add(self.working_map_ids().to_multiset()).add(
            self.finished_maps.to_multiset(),
        )
    }

    /// Every place a reduce task's stable identity can live, as a multiset.
    pub open spec fn reduce_slots(self) -> Multiset<TaskId> {
        self.reduce_queue_ids().to_multiset().add(self.working_reduce_ids().to_multiset()).add(
            self.finished_reduces.to_multiset(),
        )
    }

    /// A well-formed map task: its stable identity names an input file, and
    /// its context is the map context for exactly that file.
    pub open spec fn wf_map_task(self, t: SpecTask) -> bool {
        &&& t.task_id < self.files.len()
        &&& t.context == (SpecTaskContext::MapTask {
            n_reduce: self.n_reduce,
            file_path: self.files[t.task_id as int],
        })
    }

    /// A well-formed reduce task: its stable identity names a reduce
    /// partition, and its inputs are the identities of all completed maps.
    pub open spec fn wf_reduce_task(self, t: SpecTask) -> bool {
        &&& t.task_id < self.n_reduce
        &&& t.context == (SpecTaskContext::ReduceTask { mapper_ids: self.finished_maps })
    }

    /// The scheduler's invariant.
    ///
    /// - every map identity is in exactly one of pending / in flight /
    ///   completed, and every map task carries the context of its own file;
    /// - no reduce task exists before the map phase closes; once it has
    ///   closed, every reduce partition is in exactly one of the three
    ///   places, and every reduce task's inputs are the completed map
    ///   identities;
    /// - the attempt identities in flight are pairwise distinct and below
    ///   `next_unique_id`, so a fresh draw can never collide.
    pub open spec fn wf(self) -> bool {
        &&& self.files.len() <= u32::MAX
        &&& self.n_reduce >= 1
        // map tasks are well formed wherever they live
        &&& forall|i: int|
            0 <= i < self.map_queue.len() ==> self.wf_map_task(#[trigger] self.map_queue[i])
        &&& forall|i: int|
            0 <= i < self.working_maps.len() ==> self.wf_map_task(
                #[trigger] self.working_maps[i].task,
            )
        &&& forall|i: int|
            0 <= i < self.finished_maps.len() ==> #[trigger] self.finished_maps[i]
                < self.files.len()
        // each map identity lives in exactly one place
        &&& forall|id: TaskId| id < self.files.len() ==> self.map_slots().count(id) == 1
        // reduce tasks exist only behind the closed barrier
        &&& !self.barrier_closed() ==> self.reduce_queue.len() == 0 && self.working_reduces.len()
            == 0 && self.finished_reduces.len() == 0
        &&& forall|i: int|
            0 <= i < self.reduce_queue.len() ==> self.wf_reduce_task(#[trigger] self.reduce_queue[i])
        &&& forall|i: int|
            0 <= i < self.working_reduces.len() ==> self.wf_reduce_task(
                #[trigger] self.working_reduces[i].task,
            )
        &&& forall|i: int|
            0 <= i < self.finished_reduces.len() ==> #[trigger] self.finished_reduces[i]
                < self.n_reduce
        &&& self.barrier_closed() ==> forall|id: TaskId|
            id < self.n_reduce ==> self.reduce_slots().count(id) == 1
        // attempt identities in flight are fresh and pairwise distinct
        &&& forall|i: int|
            0 <= i < self.working_maps.len() ==> (#[trigger] self.working_maps[i]).task.unique_id
                < self.next_unique_id
        &&& forall|i: int|
            0 <= i < self.working_reduces.len() ==> (
            #[trigger] self.working_reduces[i]).task.unique_id < self.next_unique_id
        &&& forall|i: int, j: int|
            0 <= i < j < self.working_maps.len() ==> (#[trigger] self.working_maps[i]).task.unique_id
                != (#[trigger] self.working_maps[j]).task.unique_id
        &&& forall|i: int, j: int|
            0 <= i < j < self.working_reduces.len() ==> (
            #[trigger] self.working_reduces[i]).task.unique_id != (
            #[trigger] self.working_reduces[j]).task.unique_id
        &&& forall|i: int, j: int|
            0 <= i < self.working_maps.len() && 0 <= j < self.working_reduces.len() ==> (
            #[trigger] self.working_maps[i]).task.unique_id != (
            #[trigger] self.working_reduces[j]).task.unique_id
    }
}

/// The fresh reduce task set: one task per partition in `[0, n_reduce)`,
/// each consuming the intermediate output of all the completed maps.
/// The attempt identity is a placeholder; a live one is drawn at handout.
pub open spec fn spec_reduce_tasks(n_reduce: u32, mapper_ids: Seq<TaskId>) -> Seq<SpecTask> {
    Seq::new(
        n_reduce as nat,
        |p: int|
            SpecTask {
                unique_id: p as UniqueId,
                task_id: p as TaskId,
                context: SpecTaskContext::ReduceTask { mapper_ids },
            },
    )
}

/// The scheduler's starting state for the given job: one pending map task
/// per input file and nothing else — except that a job with no input files
/// has its map phase closed from the start, so its reduce task set (over an
/// empty input list) is materialized at once.
pub open spec fn spec_new_master(files: Seq<Seq<char>>, n_reduce: u32) -> SpecMaster {
    SpecMaster {
        map_queue: Seq::new(
            files.len(),
            |i: int|
                SpecTask {
                    unique_id: i as UniqueId,
                    task_id: i as TaskId,
                    context: SpecTaskContext::MapTask { n_reduce, file_path: files[i] },
                },
        ),
        working_maps: Seq::empty(),
        reduce_queue: if files.len() == 0 {
            spec_reduce_tasks(n_reduce, Seq::empty())
        } else {
            Seq::empty()
        },
        working_reduces: Seq::empty(),
        finished_maps: Seq::empty(),
        finished_reduces: Seq::empty(),
        files,
        n_reduce,
        next_unique_id: 0,
    }
}

/// The scheduler. All mutating operations are transitions of the one state;
/// callers that share a scheduler across workers must serialize the calls
/// (the operations themselves never block).
pub struct Master {
    /// Pending map tasks; the next one handed out is the last element.
    pub map_queue: Vec<Task>,
    /// Map attempts in flight, with their handout times.
    pub working_maps: Vec<Assigned>,
    /// Pending reduce tasks; empty until the map phase closes.
    pub reduce_queue: Vec<Task>,
    /// Reduce attempts in flight, with their handout times.
    pub working_reduces: Vec<Assigned>,
    /// Stable identities of the completed map tasks, in completion order.
    pub finished_maps: Vec<TaskId>,
    /// Stable identities of the completed reduce tasks, in completion order.
    pub finished_reduces: Vec<TaskId>,
    /// The job's input file list (one map task per file).
    pub files: Ghost<Seq<Seq<char>>>,
    /// Number of map tasks; equals the number of input files.
    pub n_map: u32,
    /// Number of reduce partitions of the job.
    pub n_reduce: u32,
    /// The next attempt identity to be drawn; never reused.
    pub next_unique_id: UniqueId,
}

impl View for Master {
    type V = SpecMaster;

    open spec fn view(&self) -> SpecMaster {
        SpecMaster {
            map_queue: self.map_queue@.map_values(|t: Task| t@),
            working_maps: self.working_maps@.map_values(|a: Assigned| a@),
            reduce_queue: self.reduce_queue@.map_values(|t: Task| t@),
            working_reduces: self.working_reduces@.map_values(|a: Assigned| a@),
            finished_maps: self.finished_maps@,
            finished_reduces: self.finished_reduces@,
            files: self.files@,
            n_reduce: self.n_reduce,
            next_unique_id: self.next_unique_id,
        }
    }
}

impl Master {
    /// The scheduler's full invariant: the model is well formed and the
    /// executable map-task counter agrees with the model.
    pub open spec fn inv(&self) -> bool {
        &&& self@.wf()
        &&& self.n_map == self.files@.len()
    }

    /// A scheduler for a new job over the given input files, handing out
    /// `n_reduce` reduce partitions once the map phase closes.
    pub fn new(file_paths: Vec<String>, n_reduce: u32) -> (r: Master)
        requires
            n_reduce >= 1,
            file_paths@.len() <= u32::MAX,
        ensures
            r@ == spec_new_master(file_paths.deep_view(), n_reduce),
            r.inv(),
    {
        let ghost files = file_paths.deep_view();
        let n_map: u32 = file_paths.len() as u32;
        let mut map_queue: Vec<Task> = Vec::new();
        let mut i: usize = 0;
        while i < file_paths.len()
            invariant
                i <= file_paths.len(),
                file_paths@.len() <= u32::MAX,
                files == file_paths.deep_view(),
                map_queue@.map_values(|t: Task| t@) =~= spec_new_master(
                    files,
                    n_reduce,
                ).map_queue.take(i as int),
            decreases file_paths.len() - i,
        {
            proof {
                assert(files.len() == file_paths@.len());
                assert(spec_new_master(files, n_reduce).map_queue.len() == files.len());
                assert(spec_new_master(files, n_reduce).map_queue.take(i as int).len() == i);
                assert(map_queue@.map_values(|t: Task| t@).len() == i);
                assert(map_queue@.len() == i);
            }
            let id = i as u32;
            map_queue.push(Task::new(id, id, TaskContext::new_map(n_reduce, file_paths[i].clone())));
            i = i + 1;
            proof {
                let ghost sm = spec_new_master(files, n_reduce);
                let ghost vm = map_queue@.map_values(|t: Task| t@);
                assert(files.len() == file_paths@.len());
                assert(sm.map_queue.len() == files.len());
                assert(file_paths.deep_view()[i - 1] == file_paths@[i - 1]@);
                assert(vm.len() == i);
                assert(vm[i - 1] == map_queue@[i - 1]@);
                assert(map_queue@[i - 1]@ == sm.map_queue[i - 1]);
                assert(forall|k: int|
                    0 <= k < i - 1 ==> vm[k] == #[trigger] sm.map_queue.take(i - 1)[k]);
                assert(map_queue@.map_values(|t: Task| t@) =~= spec_new_master(
                    files,
                    n_reduce,
                ).map_queue.take(i as int));
            }
        }
        let mut reduce_queue: Vec<Task> = Vec::new();
        if file_paths.len() == 0 {
            let mut p: u32 = 0;
            while p < n_reduce
                invariant
                    p <= n_reduce,
                    reduce_queue@.map_values(|t: Task| t@) =~= spec_reduce_tasks(
                        n_reduce,
                        Seq::<TaskId>::empty(),
                    ).take(p as int),
                decreases n_reduce - p,
            {
                proof {
                    assert(spec_reduce_tasks(n_reduce, Seq::<TaskId>::empty()).len() == n_reduce);
                    assert(spec_reduce_tasks(n_reduce, Seq::<TaskId>::empty()).take(p as int).len()
                        == p);
                    assert(reduce_queue@.len() == p);
                }
                reduce_queue.push(Task::new(p, p, TaskContext::new_reduce(Vec::new())));
                p = p + 1;
                proof {
                    assert(reduce_queue@.map_values(|t: Task| t@) =~= spec_reduce_tasks(
                        n_reduce,
                        Seq::<TaskId>::empty(),
                    ).take(p as int));
                }
            }
        }
        let r = Master {
            map_queue,
            working_maps: Vec::new(),
            reduce_queue,
            working_reduces: Vec::new(),
            finished_maps: Vec::new(),
            finished_reduces: Vec::new(),
            files: Ghost(files),
            n_map,
            n_reduce,
            next_unique_id: 0,
        };
        proof {
            assert(r@.map_queue =~= spec_new_master(files, n_reduce).map_queue);
            assert(r@.reduce_queue =~= spec_new_master(files, n_reduce).reduce_queue);
            assert(r@ =~= spec_new_master(files, n_reduce));
            lemma_new_master_wf(files, n_reduce);
        }
        r
    }
}

/// The starting state is well formed.
proof fn lemma_new_master_wf(files: Seq<Seq<char>>, n_reduce: u32)
    requires
        n_reduce >= 1,
        files.len() <= u32::MAX,
    ensures
        spec_new_master(files, n_reduce).wf(),
{
    let s = spec_new_master(files, n_reduce);
    assert forall|id: TaskId| id < s.files.len() implies s.map_slots().count(id) == 1 by {
        lemma_distinct_ids_count(s.map_queue_ids(), id);
        assert(s.working_map_ids().to_multiset().count(id) == 0);
        assert(s.finished_maps.to_multiset().count(id) == 0);
    }
    if s.barrier_closed() {
        assert forall|id: TaskId| id < s.n_reduce implies s.reduce_slots().count(id) == 1 by {
            lemma_distinct_ids_count(s.reduce_queue_ids(), id);
            assert(s.working_reduce_ids().to_multiset().count(id) == 0);
            assert(s.finished_reduces.to_multiset().count(id) == 0);
        }
    }
}

/// In a sequence that lists each identity `0, 1, ..., len - 1` at its own
/// index, an identity below `len` is counted exactly once.
proof fn lemma_distinct_ids_count(ids: Seq<TaskId>, id: TaskId)
    requires
        forall|i: int| 0 <= i < ids.len() ==> #[trigger] ids[i] == i as TaskId,
        ids.len() <= u32::MAX,
        id < ids.len(),
    ensures
        ids.to_multiset().count(id) == 1,
    decreases ids.len(),
{
    let prefix = ids.drop_last();
    assert(ids =~= prefix.push(ids.last()));
    if id == ids.len() - 1 {
        lemma_ids_below_not_counted(prefix, id);
    } else {
        lemma_distinct_ids_count(prefix, id);
    }
}

/// An identity at or above every element of a sequence is not counted in it.
proof fn lemma_ids_below_not_counted(ids: Seq<TaskId>, id: TaskId)
    requires
        forall|i: int| 0 <= i < ids.len() ==> #[trigger] ids[i] == i as TaskId,
        ids.len() <= id,
    ensures
        ids.to_multiset().count(id) == 0,
{
    if ids.to_multiset().count(id) > 0 {
        assert(ids.contains(id));
        let i = choose|i: int| 0 <= i < ids.len() && ids[i] == id;
        assert(ids[i] == i as TaskId);
    }
}

/// The transition of handing out the last pending map task at time `now`:
/// the task leaves the pending queue and enters the in-flight set under a
/// fresh attempt identity, which is also the identity the caller receives.
pub open spec fn spec_give_map(s: SpecMaster, now: u64) -> (SpecMaster, SpecTask)
    recommends
        s.map_queue.len() > 0,
        s.next_unique_id < u32::MAX,
{
    let t0 = s.map_queue.last();
    let t = SpecTask { unique_id: s.next_unique_id, task_id: t0.task_id, context: t0.context };
    (
        SpecMaster {
            map_queue: s.map_queue.drop_last(),
            working_maps: s.working_maps.push(SpecAssigned { task: t, assigned_at: now }),
            next_unique_id: (s.next_unique_id + 1) as UniqueId,
            ..s
        },
        t,
    )
}

/// The transition of handing out the last pending reduce task at time `now`.
pub open spec fn spec_give_reduce(s: SpecMaster, now: u64) -> (SpecMaster, SpecTask)
    recommends
        s.reduce_queue.len() > 0,
        s.next_unique_id < u32::MAX,
{
    let t0 = s.reduce_queue.last();
    let t = SpecTask { unique_id: s.next_unique_id, task_id: t0.task_id, context: t0.context };
    (
        SpecMaster {
            reduce_queue: s.reduce_queue.drop_last(),
            working_reduces: s.working_reduces.push(SpecAssigned { task: t, assigned_at: now }),
            next_unique_id: (s.next_unique_id + 1) as UniqueId,
            ..s
        },
        t,
    )
}

/// The transition performed by [`Master::pull`]: a pending reduce task if
/// the map phase has closed, else a pending map task, else `Done` when
/// nothing at all is outstanding and `Pending` while work is in flight.
///
/// Map tasks strictly precede reduce tasks: the first branch is taken only
/// behind the closed barrier, where no map task is pending or in flight.
pub open spec fn spec_pull(s: SpecMaster, now: u64) -> (SpecMaster, SpecTaskResult) {
    if s.barrier_closed() && s.reduce_queue.len() > 0 {
        let (s2, t) = spec_give_reduce(s, now);
        (s2, SpecTaskResult::Ready(t))
    } else if s.map_queue.len() > 0 {
        let (s2, t) = spec_give_map(s, now);
        (s2, SpecTaskResult::Ready(t))
    } else if s.is_done() {
        (s, SpecTaskResult::Done)
    } else {
        (s, SpecTaskResult::Pending)
    }
}

/// Handing out a map task preserves the invariant.
proof fn lemma_give_map_wf(s: SpecMaster, now: u64)
    requires
        s.wf(),
        s.map_queue.len() > 0,
        s.next_unique_id < u32::MAX,
    ensures
        spec_give_map(s, now).0.wf(),
{
    let (s2, t) = spec_give_map(s, now);
    let tid = s.map_queue.last().task_id;
    assert(s.map_queue_ids() =~= s2.map_queue_ids().push(tid));
    assert(s2.working_map_ids() =~= s.working_map_ids().push(tid));
    assert(s.map_queue_ids().to_multiset() =~= s2.map_queue_ids().to_multiset().insert(tid));
    assert(s2.working_map_ids().to_multiset() =~= s.working_map_ids().to_multiset().insert(tid));
    assert(s2.reduce_queue_ids() =~= s.reduce_queue_ids());
    assert(s2.working_reduce_ids() =~= s.working_reduce_ids());
    assert forall|id: TaskId| id < s2.files.len() implies s2.map_slots().count(id) == 1 by {
        assert(s.map_slots().count(id) == 1);
    }
    assert(!s2.barrier_closed());
}

/// Handing out a reduce task preserves the invariant.
proof fn lemma_give_reduce_wf(s: SpecMaster, now: u64)
    requires
        s.wf(),
        s.barrier_closed(),
        s.reduce_queue.len() > 0,
        s.next_unique_id < u32::MAX,
    ensures
        spec_give_reduce(s, now).0.wf(),
{
    let (s2, t) = spec_give_reduce(s, now);
    let tid = s.reduce_queue.last().task_id;
    assert(s.reduce_queue_ids() =~= s2.reduce_queue_ids().push(tid));
    assert(s2.working_reduce_ids() =~= s.working_reduce_ids().push(tid));
    assert(s.reduce_queue_ids().to_multiset() =~= s2.reduce_queue_ids().to_multiset().insert(tid));
    assert(s2.working_reduce_ids().to_multiset() =~= s.working_reduce_ids().to_multiset().insert(
        tid,
    ));
    assert(s2.map_queue_ids() =~= s.map_queue_ids());
    assert(s2.working_map_ids() =~= s.working_map_ids());
    assert forall|id: TaskId| id < s2.files.len() implies s2.map_slots().count(id) == 1 by {
        assert(s.map_slots().count(id) == 1);
    }
    assert(s2.barrier_closed());
    assert forall|id: TaskId| id < s2.n_reduce implies s2.reduce_slots().count(id) == 1 by {
        assert(s.reduce_slots().count(id) == 1);
    }
}

impl Master {
    /// Ask the scheduler for work.
    ///
    /// Returns `Ready` with a pending task if there is one -- a reduce task
    /// only once the map phase has closed, a map task otherwise -- moving it
    /// into the in-flight set under a fresh attempt identity with handout
    /// time `now`. With nothing pending, returns `Done` once nothing is in
    /// flight either, and `Pending` while completions are still awaited.
    pub fn pull(&mut self, now: u64) -> (r: TaskResult)
        requires
            old(self).inv(),
            old(self).next_unique_id < u32::MAX,
        ensures
            final(self).inv(),
            final(self)@ == spec_pull(old(self)@, now).0,
            r@ == spec_pull(old(self)@, now).1,
            (r@ matches SpecTaskResult::Ready(t) && t.is_reduce()) ==> old(
                self,
            )@.barrier_closed(),
    {
        proof {
            assert(self.map_queue@.map_values(|t: Task| t@).len() == self.map_queue@.len());
            assert(self.working_maps@.map_values(|a: Assigned| a@).len()
                == self.working_maps@.len());
            assert(self.reduce_queue@.map_values(|t: Task| t@).len() == self.reduce_queue@.len());
            assert(self.working_reduces@.map_values(|a: Assigned| a@).len()
                == self.working_reduces@.len());
        }
        if self.map_queue.len() == 0 && self.working_maps.len() == 0 && self.reduce_queue.len()
            > 0 {
            let ghost s = self@;
            let mut t = self.reduce_queue.pop().unwrap();
            t.unique_id = self.next_unique_id;
            self.next_unique_id = self.next_unique_id + 1;
            self.working_reduces.push(Assigned { task: t.clone(), assigned_at: now });
            proof {
                assert(self@.reduce_queue =~= spec_give_reduce(s, now).0.reduce_queue);
                assert(self@.working_reduces =~= spec_give_reduce(s, now).0.working_reduces);
                assert(self@ =~= spec_give_reduce(s, now).0);
                assert(t@ == spec_give_reduce(s, now).1);
                lemma_give_reduce_wf(s, now);
            }
            TaskResult::Ready(t)
        } else if self.map_queue.len() > 0 {
            let ghost s = self@;
            let mut t = self.map_queue.pop().unwrap();
            t.unique_id = self.next_unique_id;
            self.next_unique_id = self.next_unique_id + 1;
            self.working_maps.push(Assigned { task: t.clone(), assigned_at: now });
            proof {
                assert(self@.map_queue =~= spec_give_map(s, now).0.map_queue);
                assert(self@.working_maps =~= spec_give_map(s, now).0.working_maps);
                assert(self@ =~= spec_give_map(s, now).0);
                assert(t@ == spec_give_map(s, now).1);
                lemma_give_map_wf(s, now);
            }
            TaskResult::Ready(t)
        } else if self.working_maps.len() == 0 && self.working_reduces.len() == 0
            && self.reduce_queue.len() == 0 {
            TaskResult::Done
        } else {
            TaskResult::Pending
        }
    }
}

impl SpecMaster {
    /// Whether a map attempt with this identity is in flight.
    pub open spec fn has_working_map(self, uid: UniqueId) -> bool {
        exists|i: int|
            0 <= i < self.working_maps.len() && self.working_maps[i].task.unique_id == uid
    }

    /// The position of the in-flight map attempt with this identity; under
    /// [`Self::wf`] the attempt identities are distinct, so it is unique.
    pub open spec fn working_map_index(self, uid: UniqueId) -> int {
        choose|i: int|
            0 <= i < self.working_maps.len() && self.working_maps[i].task.unique_id == uid
    }

    /// Whether a reduce attempt with this identity is in flight.
    pub open spec fn has_working_reduce(self, uid: UniqueId) -> bool {
        exists|i: int|
            0 <= i < self.working_reduces.len() && self.working_reduces[i].task.unique_id == uid
    }

    /// The position of the in-flight reduce attempt with this identity.
    pub open spec fn working_reduce_index(self, uid: UniqueId) -> int {
        choose|i: int|
            0 <= i < self.working_reduces.len() && self.working_reduces[i].task.unique_id == uid
    }
}

/// Whether a task handed out at `assigned_at` has outlived the reclamation
/// window at time `now`.
pub open spec fn spec_expired(assigned_at: u64, now: u64) -> bool {
    now >= assigned_at + RECLAIM_TIMEOUT_MS
}

/// The transition performed by [`Master::on_map_finished`]: a no-op unless
/// the identity names a map attempt in flight; otherwise that attempt is
/// retired, its stable identity is recorded as completed, and, if it was the
/// last outstanding map task, the map phase closes and the reduce task set
/// over all completed map identities is materialized.
pub open spec fn spec_map_finished(s: SpecMaster, uid: UniqueId) -> SpecMaster {
    if !s.has_working_map(uid) {
        s
    } else {
        let i = s.working_map_index(uid);
        let tid = s.working_maps[i].task.task_id;
        let s2 = SpecMaster {
            working_maps: s.working_maps.remove(i),
            finished_maps: s.finished_maps.push(tid),
            ..s
        };
        if s2.barrier_closed() {
            SpecMaster { reduce_queue: spec_reduce_tasks(s2.n_reduce, s2.finished_maps), ..s2 }
        } else {
            s2
        }
    }
}

/// The transition performed by [`Master::on_reduce_finished`]: a no-op
/// unless the identity names a reduce attempt in flight; otherwise that
/// attempt is retired and its partition is recorded as completed.
pub open spec fn spec_reduce_finished(s: SpecMaster, uid: UniqueId) -> SpecMaster {
    if !s.has_working_reduce(uid) {
        s
    } else {
        let i = s.working_reduce_index(uid);
        let tid = s.working_reduces[i].task.task_id;
        SpecMaster {
            working_reduces: s.working_reduces.remove(i),
            finished_reduces: s.finished_reduces.push(tid),
            ..s
        }
    }
}

/// The transition performed by [`Master::reclaim`]: a no-op unless the
/// identity still names an attempt in flight of the given kind whose
/// reclamation window has passed; otherwise the attempt is treated as lost
/// and its task returns, unchanged, to the pending queue it came from.
pub open spec fn spec_reclaim(s: SpecMaster, kind: TaskKind, uid: UniqueId, now: u64) -> SpecMaster {
    match kind {
        TaskKind::MapTask => {
            if s.has_working_map(uid) && spec_expired(
                s.working_maps[s.working_map_index(uid)].assigned_at,
                now,
            ) {
                let i = s.working_map_index(uid);
                SpecMaster {
                    working_maps: s.working_maps.remove(i),
                    map_queue: s.map_queue.push(s.working_maps[i].task),
                    ..s
                }
            } else {
                s
            }
        },
        TaskKind::ReduceTask => {
            if s.has_working_reduce(uid) && spec_expired(
                s.working_reduces[s.working_reduce_index(uid)].assigned_at,
                now,
            ) {
                let i = s.working_reduce_index(uid);
                SpecMaster {
                    working_reduces: s.working_reduces.remove(i),
                    reduce_queue: s.reduce_queue.push(s.working_reduces[i].task),
                    ..s
                }
            } else {
                s
            }
        },
    }
}

/// Recording a map completion preserves the invariant.
proof fn lemma_map_finished_wf(s: SpecMaster, uid: UniqueId)
    requires
        s.wf(),
    ensures
        spec_map_finished(s, uid).wf(),
{
    if s.has_working_map(uid) {
        let i = s.working_map_index(uid);
        assert(0 <= i < s.working_maps.len() && s.working_maps[i].task.unique_id == uid);
        let tid = s.working_maps[i].task.task_id;
        let s2 = SpecMaster {
            working_maps: s.working_maps.remove(i),
            finished_maps: s.finished_maps.push(tid),
            ..s
        };
        assert(!s.barrier_closed());
        assert(s2.working_map_ids() =~= s.working_map_ids().remove(i));
        assert(s.working_map_ids()[i] == tid);
        assert(s2.working_map_ids().to_multiset() =~= s.working_map_ids().to_multiset().remove(
            tid,
        ));
        assert(s.working_map_ids().to_multiset().count(tid) > 0) by {
            assert(s.working_map_ids().contains(tid));
        }
        assert(s2.finished_maps.to_multiset() =~= s.finished_maps.to_multiset().insert(tid));
        assert(s2.map_queue_ids() =~= s.map_queue_ids());
        assert forall|id: TaskId| id < s2.files.len() implies s2.map_slots().count(id) == 1 by {
            assert(s.map_slots().count(id) == 1);
        }
        assert forall|k: int, l: int|
            0 <= k < l < s2.working_maps.len() implies (
        #[trigger] s2.working_maps[k]).task.unique_id != (
        #[trigger] s2.working_maps[l]).task.unique_id by {
            if l < i {
                assert(s2.working_maps[k] == s.working_maps[k]);
                assert(s2.working_maps[l] == s.working_maps[l]);
            } else if k < i {
                assert(s2.working_maps[k] == s.working_maps[k]);
                assert(s2.working_maps[l] == s.working_maps[l + 1]);
            } else {
                assert(s2.working_maps[k] == s.working_maps[k + 1]);
                assert(s2.working_maps[l] == s.working_maps[l + 1]);
            }
        }
        if s2.barrier_closed() {
            let s3 = SpecMaster {
                reduce_queue: spec_reduce_tasks(s2.n_reduce, s2.finished_maps),
                ..s2
            };
            assert(s3.reduce_queue_ids() =~= Seq::new(
                s.n_reduce as nat,
                |p: int| p as TaskId,
            ));
            assert forall|id: TaskId| id < s3.n_reduce implies s3.reduce_slots().count(id)
                == 1 by {
                lemma_distinct_ids_count(s3.reduce_queue_ids(), id);
                assert(s3.working_reduce_ids().to_multiset().count(id) == 0) by {
                    assert(s3.working_reduce_ids() =~= Seq::<TaskId>::empty());
                }
                assert(s3.finished_reduces.to_multiset().count(id) == 0);
            }
            assert(s3.map_queue_ids() =~= s2.map_queue_ids());
            assert(s3.working_map_ids() =~= s2.working_map_ids());
            assert forall|id: TaskId| id < s3.files.len() implies s3.map_slots().count(id)
                == 1 by {
                assert(s2.map_slots().count(id) == 1);
            }
            assert forall|j: int| 0 <= j < s3.reduce_queue.len() implies s3.wf_reduce_task(
                #[trigger] s3.reduce_queue[j],
            ) by {
                assert(s3.reduce_queue[j] == SpecTask {
                    unique_id: j as UniqueId,
                    task_id: j as TaskId,
                    context: SpecTaskContext::ReduceTask { mapper_ids: s2.finished_maps },
                });
            }
            assert(s3.wf());
        } else {
            assert(s2.wf());
        }
    }
}

/// Recording a reduce completion preserves the invariant.
proof fn lemma_reduce_finished_wf(s: SpecMaster, uid: UniqueId)
    requires
        s.wf(),
    ensures
        spec_reduce_finished(s, uid).wf(),
{
    if s.has_working_reduce(uid) {
        let i = s.working_reduce_index(uid);
        assert(0 <= i < s.working_reduces.len() && s.working_reduces[i].task.unique_id == uid);
        let tid = s.working_reduces[i].task.task_id;
        let s2 = spec_reduce_finished(s, uid);
        assert(s.barrier_closed());
        assert(s2.working_reduce_ids() =~= s.working_reduce_ids().remove(i));
        assert(s.working_reduce_ids()[i] == tid);
        assert(s2.working_reduce_ids().to_multiset() =~= s.working_reduce_ids().to_multiset()
            .remove(tid));
        assert(s.working_reduce_ids().to_multiset().count(tid) > 0) by {
            assert(s.working_reduce_ids().contains(tid));
        }
        assert(s2.finished_reduces.to_multiset() =~= s.finished_reduces.to_multiset().insert(
            tid,
        ));
        assert(s2.reduce_queue_ids() =~= s.reduce_queue_ids());
        assert(s2.map_queue_ids() =~= s.map_queue_ids());
        assert(s2.working_map_ids() =~= s.working_map_ids());
        assert forall|id: TaskId| id < s2.files.len() implies s2.map_slots().count(id) == 1 by {
            assert(s.map_slots().count(id) == 1);
        }
        assert forall|id: TaskId| id < s2.n_reduce implies s2.reduce_slots().count(id) == 1 by {
            assert(s.reduce_slots().count(id) == 1);
        }
        assert forall|k: int, l: int|
            0 <= k < l < s2.working_reduces.len() implies (
        #[trigger] s2.working_reduces[k]).task.unique_id != (
        #[trigger] s2.working_reduces[l]).task.unique_id by {
            if l < i {
                assert(s2.working_reduces[k] == s.working_reduces[k]);
                assert(s2.working_reduces[l] == s.working_reduces[l]);
            } else if k < i {
                assert(s2.working_reduces[k] == s.working_reduces[k]);
                assert(s2.working_reduces[l] == s.working_reduces[l + 1]);
            } else {
                assert(s2.working_reduces[k] == s.working_reduces[k + 1]);
                assert(s2.working_reduces[l] == s.working_reduces[l + 1]);
            }
        }
        assert(s2.wf());
    }
}

/// A reclamation check preserves the invariant.
proof fn lemma_reclaim_wf(s: SpecMaster, kind: TaskKind, uid: UniqueId, now: u64)
    requires
        s.wf(),
    ensures
        spec_reclaim(s, kind, uid, now).wf(),
{
    match kind {
        TaskKind::MapTask => {
            if s.has_working_map(uid) && spec_expired(
                s.working_maps[s.working_map_index(uid)].assigned_at,
                now,
            ) {
                let i = s.working_map_index(uid);
                assert(0 <= i < s.working_maps.len() && s.working_maps[i].task.unique_id == uid);
                let t = s.working_maps[i].task;
                let s2 = spec_reclaim(s, kind, uid, now);
                assert(!s.barrier_closed());
                assert(!s2.barrier_closed());
                assert(s2.working_map_ids() =~= s.working_map_ids().remove(i));
                assert(s.working_map_ids()[i] == t.task_id);
                assert(s2.working_map_ids().to_multiset() =~= s.working_map_ids().to_multiset()
                    .remove(t.task_id));
                assert(s.working_map_ids().to_multiset().count(t.task_id) > 0) by {
                    assert(s.working_map_ids().contains(t.task_id));
                }
                assert(s2.map_queue_ids() =~= s.map_queue_ids().push(t.task_id));
                assert(s2.map_queue_ids().to_multiset() =~= s.map_queue_ids().to_multiset()
                    .insert(t.task_id));
                assert forall|id: TaskId| id < s2.files.len() implies s2.map_slots().count(id)
                    == 1 by {
                    assert(s.map_slots().count(id) == 1);
                }
                assert forall|k: int, l: int|
                    0 <= k < l < s2.working_maps.len() implies (
                #[trigger] s2.working_maps[k]).task.unique_id != (
                #[trigger] s2.working_maps[l]).task.unique_id by {
                    if l < i {
                        assert(s2.working_maps[k] == s.working_maps[k]);
                        assert(s2.working_maps[l] == s.working_maps[l]);
                    } else if k < i {
                        assert(s2.working_maps[k] == s.working_maps[k]);
                        assert(s2.working_maps[l] == s.working_maps[l + 1]);
                    } else {
                        assert(s2.working_maps[k] == s.working_maps[k + 1]);
                        assert(s2.working_maps[l] == s.working_maps[l + 1]);
                    }
                }
                assert(s2.wf());
            }
        },
        TaskKind::ReduceTask => {
            if s.has_working_reduce(uid) && spec_expired(
                s.working_reduces[s.working_reduce_index(uid)].assigned_at,
                now,
            ) {
                let i = s.working_reduce_index(uid);
                assert(0 <= i < s.working_reduces.len() && s.working_reduces[i].task.unique_id
                    == uid);
                let t = s.working_reduces[i].task;
                let s2 = spec_reclaim(s, kind, uid, now);
                assert(s.barrier_closed());
                assert(s2.barrier_closed());
                assert(s2.working_reduce_ids() =~= s.working_reduce_ids().remove(i));
                assert(s.working_reduce_ids()[i] == t.task_id);
                assert(s2.working_reduce_ids().to_multiset() =~= s.working_reduce_ids()
                    .to_multiset().remove(t.task_id));
                assert(s.working_reduce_ids().to_multiset().count(t.task_id) > 0) by {
                    assert(s.working_reduce_ids().contains(t.task_id));
                }
                assert(s2.reduce_queue_ids() =~= s.reduce_queue_ids().push(t.task_id));
                assert(s2.reduce_queue_ids().to_multiset() =~= s.reduce_queue_ids().to_multiset()
                    .insert(t.task_id));
                assert(s2.map_queue_ids() =~= s.map_queue_ids());
                assert(s2.working_map_ids() =~= s.working_map_ids());
                assert forall|id: TaskId| id < s2.files.len() implies s2.map_slots().count(id)
                    == 1 by {
                    assert(s.map_slots().count(id) == 1);
                }
                assert forall|id: TaskId| id < s2.n_reduce implies s2.reduce_slots().count(id)
                    == 1 by {
                    assert(s.reduce_slots().count(id) == 1);
                }
                assert forall|k: int, l: int|
                    0 <= k < l < s2.working_reduces.len() implies (
                #[trigger] s2.working_reduces[k]).task.unique_id != (
                #[trigger] s2.working_reduces[l]).task.unique_id by {
                    if l < i {
                        assert(s2.working_reduces[k] == s.working_reduces[k]);
                        assert(s2.working_reduces[l] == s.working_reduces[l]);
                    } else if k < i {
                        assert(s2.working_reduces[k] == s.working_reduces[k]);
                        assert(s2.working_reduces[l] == s.working_reduces[l + 1]);
                    } else {
                        assert(s2.working_reduces[k] == s.working_reduces[k + 1]);
                        assert(s2.working_reduces[l] == s.working_reduces[l + 1]);
                    }
                }
                assert(s2.wf());
            }
        },
    }
}

/// The position of the first in-flight attempt with the given identity, or
/// the length of the list if there is none.
fn find_attempt(ws: &Vec<Assigned>, unique_id: UniqueId) -> (r: usize)
    ensures
        r <= ws@.len(),
        r < ws@.len() ==> ws@[r as int].task.unique_id == unique_id,
        forall|k: int| 0 <= k < r ==> (#[trigger] ws@[k]).task.unique_id != unique_id,
{
    let mut i: usize = 0;
    while i < ws.len() && ws[i].task.unique_id != unique_id
        invariant
            i <= ws@.len(),
            forall|k: int| 0 <= k < i ==> (#[trigger] ws@[k]).task.unique_id != unique_id,
        decreases ws@.len() - i,
    {
        i = i + 1;
    }
    i
}

impl Master {
    /// Number of map tasks whose completion has not been recorded yet.
    pub fn maps_remaining(&self) -> (r: u32)
        requires
            self.inv(),
        ensures
            r == self@.maps_remaining(),
    {
        proof {
            lemma_finished_maps_bounded(self@);
        }
        self.n_map - self.finished_maps.len() as u32
    }

    /// Record that the map attempt with this identity has completed.
    ///
    /// Idempotent and tolerant of stale identities: if no in-flight map
    /// attempt carries `unique_id` -- it already reported, or it was
    /// reclaimed after its timeout -- nothing changes. Otherwise the attempt
    /// is retired and its task counts as completed; if it was the last
    /// outstanding map task, the map phase closes and one reduce task per
    /// partition is created over the identities of all completed maps.
    pub fn on_map_finished(&mut self, unique_id: UniqueId)
        requires
            old(self).inv(),
        ensures
            final(self).inv(),
            final(self)@ == spec_map_finished(old(self)@, unique_id),
    {
        let ghost s = self@;
        let i = find_attempt(&self.working_maps, unique_id);
        if i < self.working_maps.len() {
            proof {
                assert(s.working_maps[i as int].task.unique_id == unique_id);
                assert(s.has_working_map(unique_id));
                let j = s.working_map_index(unique_id);
                assert(0 <= j < s.working_maps.len() && s.working_maps[j].task.unique_id
                    == unique_id);
                assert(j == i);
            }
            let a = self.working_maps.remove(i);
            self.finished_maps.push(a.task.task_id);
            proof {
                assert(self@.working_maps =~= s.working_maps.remove(i as int));
                assert(self@.finished_maps =~= s.finished_maps.push(
                    s.working_maps[i as int].task.task_id,
                ));
            }
            if self.map_queue.len() == 0 && self.working_maps.len() == 0 {
                let ghost s2 = self@;
                proof {
                    assert(self.map_queue@.map_values(|t: Task| t@).len()
                        == self.map_queue@.len());
                    assert(s2.barrier_closed());
                }
                let mut rq: Vec<Task> = Vec::new();
                let mut p: u32 = 0;
                while p < self.n_reduce
                    invariant
                        p <= self.n_reduce,
                        rq@.map_values(|t: Task| t@) =~= spec_reduce_tasks(
                            self.n_reduce,
                            self.finished_maps@,
                        ).take(p as int),
                    decreases self.n_reduce - p,
                {
                    proof {
                        assert(spec_reduce_tasks(self.n_reduce, self.finished_maps@).len()
                            == self.n_reduce);
                        assert(rq@.map_values(|t: Task| t@).len() == rq@.len());
                        assert(rq@.len() == p);
                    }
                    let ids = crate::task::copy_ids(&self.finished_maps);
                    let t = Task::new(p, p, TaskContext::new_reduce(ids));
                    rq.push(t);
                    p = p + 1;
                    proof {
                        assert(rq@.map_values(|t: Task| t@) =~= spec_reduce_tasks(
                            self.n_reduce,
                            self.finished_maps@,
                        ).take(p as int));
                    }
                }
                self.reduce_queue = rq;
                proof {
                    assert(self@.reduce_queue =~= spec_reduce_tasks(s2.n_reduce, s2.finished_maps));
                }
            }
            proof {
                assert(self@ =~= spec_map_finished(s, unique_id));
                lemma_map_finished_wf(s, unique_id);
            }
        } else {
            proof {
                assert(!s.has_working_map(unique_id));
            }
        }
    }

    /// Record that the reduce attempt with this identity has completed.
    ///
    /// Idempotent and tolerant of stale identities, like
    /// [`Master::on_map_finished`]; there is no downstream phase to trigger.
    /// Retiring the last in-flight reduce attempt is what makes a later
    /// [`Master::pull`] return `Done`.
    pub fn on_reduce_finished(&mut self, unique_id: UniqueId)
        requires
            old(self).inv(),
        ensures
            final(self).inv(),
            final(self)@ == spec_reduce_finished(old(self)@, unique_id),
    {
        let ghost s = self@;
        let i = find_attempt(&self.working_reduces, unique_id);
        if i < self.working_reduces.len() {
            proof {
                assert(s.working_reduces[i as int].task.unique_id == unique_id);
                assert(s.has_working_reduce(unique_id));
                let j = s.working_reduce_index(unique_id);
                assert(0 <= j < s.working_reduces.len() && s.working_reduces[j].task.unique_id
                    == unique_id);
                assert(j == i);
            }
            let a = self.working_reduces.remove(i);
            self.finished_reduces.push(a.task.task_id);
            proof {
                assert(self@.working_reduces =~= s.working_reduces.remove(i as int));
                assert(self@.finished_reduces =~= s.finished_reduces.push(
                    s.working_reduces[i as int].task.task_id,
                ));
                assert(self@ =~= spec_reduce_finished(s, unique_id));
                lemma_reduce_finished_wf(s, unique_id);
            }
        } else {
            proof {
                assert(!s.has_working_reduce(unique_id));
            }
        }
    }

    /// The reclamation check for the attempt with this identity, fired at
    /// time `now`.
    ///
    /// If the attempt is still in flight -- no completion arrived -- and its
    /// reclamation window has passed, the task is treated as lost: it
    /// returns to its pending queue, context unchanged, so a later
    /// [`Master::pull`] can hand it out again. An attempt that already
    /// reported completion, or was already reclaimed, is left alone.
    pub fn reclaim(&mut self, kind: TaskKind, unique_id: UniqueId, now: u64)
        requires
            old(self).inv(),
        ensures
            final(self).inv(),
            final(self)@ == spec_reclaim(old(self)@, kind, unique_id, now),
    {
        let ghost s = self@;
        match kind {
            TaskKind::MapTask => {
                let i = find_attempt(&self.working_maps, unique_id);
                if i < self.working_maps.len() {
                    proof {
                        assert(s.working_maps[i as int].task.unique_id == unique_id);
                        assert(s.has_working_map(unique_id));
                        let j = s.working_map_index(unique_id);
                        assert(0 <= j < s.working_maps.len() && s.working_maps[j].task.unique_id
                            == unique_id);
                        assert(j == i);
                    }
                    let at = self.working_maps[i].assigned_at;
                    if now >= at && now - at >= RECLAIM_TIMEOUT_MS {
                        let a = self.working_maps.remove(i);
                        self.map_queue.push(a.task);
                        proof {
                            assert(self@.working_maps =~= s.working_maps.remove(i as int));
                            assert(self@.map_queue =~= s.map_queue.push(
                                s.working_maps[i as int].task,
                            ));
                            assert(self@ =~= spec_reclaim(s, kind, unique_id, now));
                            lemma_reclaim_wf(s, kind, unique_id, now);
                        }
                    } else {
                        proof {
                            assert(!spec_expired(s.working_maps[i as int].assigned_at, now));
                        }
                    }
                } else {
                    proof {
                        assert(!s.has_working_map(unique_id));
                    }
                }
            },
            TaskKind::ReduceTask => {
                let i = find_attempt(&self.working_reduces, unique_id);
                if i < self.working_reduces.len() {
                    proof {
                        assert(s.working_reduces[i as int].task.unique_id == unique_id);
                        assert(s.has_working_reduce(unique_id));
                        let j = s.working_reduce_index(unique_id);
                        assert(0 <= j < s.working_reduces.len()
                            && s.working_reduces[j].task.unique_id == unique_id);
                        assert(j == i);
                    }
                    let at = self.working_reduces[i].assigned_at;
                    if now >= at && now - at >= RECLAIM_TIMEOUT_MS {
                        let a = self.working_reduces.remove(i);
                        self.reduce_queue.push(a.task);
                        proof {
                            assert(self@.working_reduces =~= s.working_reduces.remove(i as int));
                            assert(self@.reduce_queue =~= s.reduce_queue.push(
                                s.working_reduces[i as int].task,
                            ));
                            assert(self@ =~= spec_reclaim(s, kind, unique_id, now));
                            lemma_reclaim_wf(s, kind, unique_id, now);
                        }
                    } else {
                        proof {
                            assert(!spec_expired(s.working_reduces[i as int].assigned_at, now));
                        }
                    }
                } else {
                    proof {
                        assert(!s.has_working_reduce(unique_id));
                    }
                }
            },
        }
    }
}

/// In a well-formed scheduler no more map tasks are recorded complete than
/// the job has input files.
pub proof fn lemma_finished_maps_bounded(s: SpecMaster)
    requires
        s.wf(),
    ensures
        s.finished_maps.len() <= s.files.len(),
{
    assert forall|k: int, l: int|
        0 <= k < l < s.finished_maps.len() implies s.finished_maps[k] != s.finished_maps[l] by {
        if s.finished_maps[k] == s.finished_maps[l] {
            let id = s.finished_maps[k];
            assert(s.map_slots().count(id) == 1);
            assert(s.finished_maps.to_multiset().count(id) >= 2) by {
                lemma_two_indices_count(s.finished_maps, k, l);
            }
        }
    }
    lemma_bounded_distinct_len(s.finished_maps, s.files.len() as int);
}

/// A sequence with one value at two distinct positions counts that value at
/// least twice.
proof fn lemma_two_indices_count(ids: Seq<TaskId>, k: int, l: int)
    requires
        0 <= k < l < ids.len(),
        ids[k] == ids[l],
    ensures
        ids.to_multiset().count(ids[k]) >= 2,
    decreases ids.len(),
{
    let last = ids.len() - 1;
    assert(ids =~= ids.drop_last().push(ids.last()));
    if l < last {
        lemma_two_indices_count(ids.drop_last(), k, l);
    } else {
        assert(ids.drop_last().to_multiset().count(ids[k]) >= 1) by {
            assert(ids.drop_last().contains(ids[k]));
        }
    }
}

/// A sequence of pairwise-distinct identities below `n` has at most `n`
/// elements.
proof fn lemma_bounded_distinct_len(ids: Seq<TaskId>, n: int)
    requires
        forall|k: int, l: int| 0 <= k < l < ids.len() ==> ids[k] != ids[l],
        forall|k: int| 0 <= k < ids.len() ==> #[trigger] ids[k] < n,
        0 <= n,
    ensures
        ids.len() <= n,
    decreases n,
{
    if ids.len() > n {
        if n == 0 {
            assert(ids[0] < 0);
        } else {
            let m = (n - 1) as TaskId;
            if exists|k: int| 0 <= k < ids.len() && ids[k] == m {
                let k = choose|k: int| 0 <= k < ids.len() && ids[k] == m;
                let rest = ids.remove(k);
                assert forall|a: int, b: int|
                    0 <= a < b < rest.len() implies rest[a] != rest[b] by {
                    if b < k {
                    } else if a < k {
                        assert(rest[b] == ids[b + 1]);
                    } else {
                        assert(rest[a] == ids[a + 1]);
                        assert(rest[b] == ids[b + 1]);
                    }
                }
                assert forall|a: int| 0 <= a < rest.len() implies #[trigger] rest[a] < n - 1 by {
                    if a < k {
                        assert(rest[a] == ids[a]);
                        assert(ids[a] != m);
                    } else {
                        assert(rest[a] == ids[a + 1]);
                        assert(ids[a + 1] != m);
                    }
                }
                lemma_bounded_distinct_len(rest, n - 1);
            } else {
                assert forall|a: int| 0 <= a < ids.len() implies #[trigger] ids[a] < n - 1 by {
                    assert(ids[a] != m);
                }
                lemma_bounded_distinct_len(ids, n - 1);
            }
        }
    }
}

/// Once the map phase has closed, every input file has been mapped to
/// completion exactly once: each map identity is counted once among the
/// completed maps, all of them are completed, and every reduce task that
/// exists consumes exactly the identities of all the completed maps.
pub proof fn lemma_barrier_maps_complete(s: SpecMaster)
    requires
        s.wf(),
        s.barrier_closed(),
    ensures
        forall|id: TaskId|
            id < s.files.len() ==> s.finished_maps.to_multiset().count(id) == 1,
        s.finished_maps.len() == s.files.len(),
        s.maps_remaining() == 0,
        forall|i: int|
            0 <= i < s.reduce_queue.len() ==> (#[trigger] s.reduce_queue[i]).context
                == (SpecTaskContext::ReduceTask { mapper_ids: s.finished_maps }),
        forall|i: int|
            0 <= i < s.working_reduces.len() ==> (#[trigger] s.working_reduces[i]).task.context
                == (SpecTaskContext::ReduceTask { mapper_ids: s.finished_maps }),
{
    assert(s.map_queue_ids() =~= Seq::<TaskId>::empty());
    assert(s.working_map_ids() =~= Seq::<TaskId>::empty());
    assert forall|id: TaskId|
        id < s.files.len() implies s.finished_maps.to_multiset().count(id) == 1 by {
        assert(s.map_slots().count(id) == 1);
    }
    let n = s.files.len() as int;
    let range = Seq::new(n as nat, |i: int| i as TaskId);
    assert forall|id: TaskId| s.finished_maps.to_multiset().count(id) == range.to_multiset().count(
        id,
    ) by {
        if id < n {
            lemma_distinct_ids_count(range, id);
        } else {
            lemma_ids_below_not_counted(range, id);
            if s.finished_maps.to_multiset().count(id) > 0 {
                assert(s.finished_maps.contains(id));
                let k = choose|k: int| 0 <= k < s.finished_maps.len() && s.finished_maps[k] == id;
                assert(s.finished_maps[k] < s.files.len());
            }
        }
    }
    assert(s.finished_maps.to_multiset() =~= range.to_multiset());
    assert(s.finished_maps.len() == s.finished_maps.to_multiset().len());
    assert(range.len() == range.to_multiset().len());
}

/// The phase barrier: a request for work never hands out a reduce task
/// while any map task has not completed.
pub proof fn lemma_no_reduce_before_barrier(s: SpecMaster, now: u64)
    requires
        s.wf(),
    ensures
        (spec_pull(s, now).1 matches SpecTaskResult::Ready(t) && t.is_reduce()) ==> (
        s.barrier_closed() && s.maps_remaining() == 0),
{
    if let SpecTaskResult::Ready(t) = spec_pull(s, now).1 {
        if t.is_reduce() {
            if !(s.barrier_closed() && s.reduce_queue.len() > 0) {
                assert(s.map_queue.len() > 0);
                assert(s.wf_map_task(s.map_queue.last()));
                assert(t == spec_give_map(s, now).1);
                assert(t.context is MapTask);
            }
            lemma_barrier_maps_complete(s);
        }
    }
}

/// After a completed job, every request for work answers `Done` and changes
/// nothing, forever.
pub proof fn lemma_done_is_stable(s: SpecMaster, now: u64)
    requires
        s.wf(),
        s.is_done(),
    ensures
        spec_pull(s, now) == (s, SpecTaskResult::Done),
{
}

/// Retiring an in-flight attempt removes its identity for good: no map
/// attempt with that identity remains in flight afterwards.
proof fn lemma_map_attempt_retired(s: SpecMaster, uid: UniqueId)
    requires
        s.wf(),
        s.has_working_map(uid),
    ensures
        !spec_map_finished(s, uid).has_working_map(uid),
{
    let i = s.working_map_index(uid);
    assert(0 <= i < s.working_maps.len() && s.working_maps[i].task.unique_id == uid);
    let s1 = spec_map_finished(s, uid);
    if s1.has_working_map(uid) {
        let k = choose|k: int|
            0 <= k < s1.working_maps.len() && s1.working_maps[k].task.unique_id == uid;
        if k < i {
            assert(s1.working_maps[k] == s.working_maps[k]);
        } else {
            assert(s1.working_maps[k] == s.working_maps[k + 1]);
        }
    }
}

/// As [`lemma_map_attempt_retired`], for reduce attempts.
proof fn lemma_reduce_attempt_retired(s: SpecMaster, uid: UniqueId)
    requires
        s.wf(),
        s.has_working_reduce(uid),
    ensures
        !spec_reduce_finished(s, uid).has_working_reduce(uid),
{
    let i = s.working_reduce_index(uid);
    assert(0 <= i < s.working_reduces.len() && s.working_reduces[i].task.unique_id == uid);
    let s1 = spec_reduce_finished(s, uid);
    if s1.has_working_reduce(uid) {
        let k = choose|k: int|
            0 <= k < s1.working_reduces.len() && s1.working_reduces[k].task.unique_id == uid;
        if k < i {
            assert(s1.working_reduces[k] == s.working_reduces[k]);
        } else {
            assert(s1.working_reduces[k] == s.working_reduces[k + 1]);
        }
    }
}

/// Completion notifications are idempotent: recording the same map
/// completion twice has exactly the effect of recording it once.
pub proof fn lemma_on_map_finished_idempotent(s: SpecMaster, uid: UniqueId)
    requires
        s.wf(),
    ensures
        spec_map_finished(spec_map_finished(s, uid), uid) == spec_map_finished(s, uid),
{
    if s.has_working_map(uid) {
        lemma_map_attempt_retired(s, uid);
    }
}

/// Completion notifications are idempotent: recording the same reduce
/// completion twice has exactly the effect of recording it once.
pub proof fn lemma_on_reduce_finished_idempotent(s: SpecMaster, uid: UniqueId)
    requires
        s.wf(),
    ensures
        spec_reduce_finished(spec_reduce_finished(s, uid), uid) == spec_reduce_finished(s, uid),
{
    if s.has_working_reduce(uid) {
        lemma_reduce_attempt_retired(s, uid);
    }
}

/// An attempt whose completion was recorded is never reassigned: the
/// reclamation check that follows the completion changes nothing, whenever
/// it fires.
pub proof fn lemma_completed_map_never_reclaimed(s: SpecMaster, uid: UniqueId, now: u64)
    requires
        s.wf(),
    ensures
        spec_reclaim(spec_map_finished(s, uid), TaskKind::MapTask, uid, now) == spec_map_finished(
            s,
            uid,
        ),
{
    if s.has_working_map(uid) {
        lemma_map_attempt_retired(s, uid);
    }
}

/// As [`lemma_completed_map_never_reclaimed`], for reduce attempts.
pub proof fn lemma_completed_reduce_never_reclaimed(s: SpecMaster, uid: UniqueId, now: u64)
    requires
        s.wf(),
    ensures
        spec_reclaim(spec_reduce_finished(s, uid), TaskKind::ReduceTask, uid, now)
            == spec_reduce_finished(s, uid),
{
    if s.has_working_reduce(uid) {
        lemma_reduce_attempt_retired(s, uid);
    }
}

/// The reclamation check fires exactly at the timeout: before the window
/// has passed it changes nothing, and once it has passed -- with no
/// completion recorded -- the task returns to the pending queue with its
/// stable identity and context unchanged.
pub proof fn lemma_reclaim_at_timeout(s: SpecMaster, uid: UniqueId, now: u64)
    requires
        s.wf(),
        s.has_working_map(uid),
    ensures
        !spec_expired(s.working_maps[s.working_map_index(uid)].assigned_at, now)
            ==> spec_reclaim(s, TaskKind::MapTask, uid, now) == s,
        spec_expired(s.working_maps[s.working_map_index(uid)].assigned_at, now) ==> spec_reclaim(
            s,
            TaskKind::MapTask,
            uid,
            now,
        ).map_queue == s.map_queue.push(s.working_maps[s.working_map_index(uid)].task),
{
}

/// As [`lemma_reclaim_at_timeout`], for reduce attempts.
pub proof fn lemma_reclaim_reduce_at_timeout(s: SpecMaster, uid: UniqueId, now: u64)
    requires
        s.wf(),
        s.has_working_reduce(uid),
    ensures
        !spec_expired(s.working_reduces[s.working_reduce_index(uid)].assigned_at, now)
            ==> spec_reclaim(s, TaskKind::ReduceTask, uid, now) == s,
        spec_expired(s.working_reduces[s.working_reduce_index(uid)].assigned_at, now)
            ==> spec_reclaim(s, TaskKind::ReduceTask, uid, now).reduce_queue == s.reduce_queue.push(
            s.working_reduces[s.working_reduce_index(uid)].task,
        ),
{
}

/// Two consecutive handouts never hand out the same assignment: each
/// `Ready` answer carries a fresh attempt identity.
pub proof fn lemma_pull_attempts_distinct(s: SpecMaster, now1: u64, now2: u64)
    requires
        s.wf(),
        s.next_unique_id + 1 < u32::MAX,
    ensures
        ({
            let (s1, r1) = spec_pull(s, now1);
            let r2 = spec_pull(s1, now2).1;
            r1 matches SpecTaskResult::Ready(t1) ==> r2 matches SpecTaskResult::Ready(t2)
                ==> t1.unique_id != t2.unique_id
        }),
{
}

} // verus!
