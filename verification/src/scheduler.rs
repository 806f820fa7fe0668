//! The scheduler state machine.
//!
//! A `Scheduler` holds the task queue, the conflict ledger, the per-system
//! and per-stage resource tables, and the set of in-flight tasks.  A driver
//! repeatedly asks `next_action` what to do, spawns the stage or oneshot it
//! names, and feeds completion messages to `handle_message`.  The scheduler
//! never lets two in-flight tasks conflict on a resource.

use vstd::prelude::*;

use crate::counting::{lemma_occ_pos, lemma_sum_take_le, lemma_sum_take_step, occ, sum_of};
use crate::interner::{interner_new, interner_view, HandleInterner};
use crate::ledger::{
    bitset_view, bitset_with_capacity, can_acquire, release_obtained_resources,
    try_obtain_resources, writes_after_release, IdSet,
};
use crate::task::{Action, ExecutionStrategy, Task, TaskMessage, SchedulerError};
use std::collections::VecDeque;

verus! {

/// The resource-id lists of a table, viewed as sequences.
pub open spec fn tbl(v: Seq<Vec<usize>>) -> Seq<Seq<usize>> {
    Seq::new(v.len(), |k: int| v[k]@)
}

/// Every id in every list of the table lies below `n`.
pub open spec fn ids_bounded(t: Seq<Seq<usize>>, n: int) -> bool {
    forall|k: int, j: int| 0 <= k < t.len() && 0 <= j < t[k].len() ==> #[trigger] t[k][j] < n
}

/// The resource list of a task: a stage looks in the per-stage table, a
/// oneshot in the per-system table.
pub open spec fn task_resources(
    stage_tbl: Seq<Seq<usize>>,
    sys_tbl: Seq<Seq<usize>>,
    t: Task,
) -> Seq<usize> {
    match t {
        Task::Stage(id) => stage_tbl[id as int],
        Task::Oneshot(id) => sys_tbl[id as int],
    }
}

/// A task's id lies inside the tables it is looked up in.
pub open spec fn task_valid(n_stages: int, n_systems: int, t: Task) -> bool {
    match t {
        Task::Stage(id) => id < n_stages,
        Task::Oneshot(id) => id < n_systems,
    }
}

/// The number of systems a task stands for.
pub open spec fn task_weight(stages_tbl: Seq<Seq<usize>>, t: Task) -> nat {
    match t {
        Task::Stage(id) => stages_tbl[id as int].len(),
        Task::Oneshot(_) => 1,
    }
}

/// Total number of read holds on `rsc` by the given tasks.
pub open spec fn total_reads(
    stage_tbl: Seq<Seq<usize>>,
    sys_tbl: Seq<Seq<usize>>,
    tasks: Seq<Task>,
    rsc: int,
) -> nat
    decreases tasks.len(),
{
    if tasks.len() == 0 {
        0
    } else {
        total_reads(stage_tbl, sys_tbl, tasks.drop_last(), rsc) + occ(
            task_resources(stage_tbl, sys_tbl, tasks.last()),
            rsc,
        )
    }
}

/// Number of the given tasks that write `rsc`, looked up in the write
/// tables.
pub open spec fn writer_count(
    stage_tbl: Seq<Seq<usize>>,
    sys_tbl: Seq<Seq<usize>>,
    tasks: Seq<Task>,
    rsc: int,
) -> nat
    decreases tasks.len(),
{
    if tasks.len() == 0 {
        0
    } else {
        writer_count(stage_tbl, sys_tbl, tasks.drop_last(), rsc) + if occ(
            task_resources(stage_tbl, sys_tbl, tasks.last()),
            rsc,
        ) > 0 {
            1nat
        } else {
            0nat
        }
    }
}

/// Total number of systems the given tasks stand for.
pub open spec fn total_weight(stages_tbl: Seq<Seq<usize>>, tasks: Seq<Task>) -> nat
    decreases tasks.len(),
{
    if tasks.len() == 0 {
        0
    } else {
        total_weight(stages_tbl, tasks.drop_last()) + task_weight(stages_tbl, tasks.last())
    }
}

/// Two resource declarations do not conflict: nothing the first writes is
/// read or written by the second.
pub open spec fn no_conflict(w1: Seq<usize>, r2: Seq<usize>, w2: Seq<usize>) -> bool {
    forall|x: int| #[trigger] occ(w1, x) > 0 ==> occ(w2, x) == 0 && occ(r2, x) == 0
}

/// Taking one task out takes exactly its read holds out of the total.
pub proof fn lemma_total_reads_remove(
    stage_tbl: Seq<Seq<usize>>,
    sys_tbl: Seq<Seq<usize>>,
    tasks: Seq<Task>,
    k: int,
    rsc: int,
)
    requires
        0 <= k < tasks.len(),
    ensures
        total_reads(stage_tbl, sys_tbl, tasks, rsc) == total_reads(
            stage_tbl,
            sys_tbl,
            tasks.remove(k),
            rsc,
        ) + occ(task_resources(stage_tbl, sys_tbl, tasks[k]), rsc),
    decreases tasks.len(),
{
    if k == tasks.len() - 1 {
        assert(tasks.remove(k) =~= tasks.drop_last());
    } else {
        assert(tasks.remove(k).drop_last() =~= tasks.drop_last().remove(k));
        assert(tasks.remove(k).last() == tasks.last());
        lemma_total_reads_remove(stage_tbl, sys_tbl, tasks.drop_last(), k, rsc);
    }
}

/// Taking one task out takes exactly its writer mark out of the count.
pub proof fn lemma_writer_count_remove(
    stage_tbl: Seq<Seq<usize>>,
    sys_tbl: Seq<Seq<usize>>,
    tasks: Seq<Task>,
    k: int,
    rsc: int,
)
    requires
        0 <= k < tasks.len(),
    ensures
        writer_count(stage_tbl, sys_tbl, tasks, rsc) == writer_count(
            stage_tbl,
            sys_tbl,
            tasks.remove(k),
            rsc,
        ) + if occ(task_resources(stage_tbl, sys_tbl, tasks[k]), rsc) > 0 {
            1nat
        } else {
            0nat
        },
    decreases tasks.len(),
{
    if k == tasks.len() - 1 {
        assert(tasks.remove(k) =~= tasks.drop_last());
    } else {
        assert(tasks.remove(k).drop_last() =~= tasks.drop_last().remove(k));
        assert(tasks.remove(k).last() == tasks.last());
        lemma_writer_count_remove(stage_tbl, sys_tbl, tasks.drop_last(), k, rsc);
    }
}

/// Taking one task out takes exactly its weight out of the total.
pub proof fn lemma_total_weight_remove(stages_tbl: Seq<Seq<usize>>, tasks: Seq<Task>, k: int)
    requires
        0 <= k < tasks.len(),
    ensures
        total_weight(stages_tbl, tasks) == total_weight(stages_tbl, tasks.remove(k))
            + task_weight(stages_tbl, tasks[k]),
    decreases tasks.len(),
{
    if k == tasks.len() - 1 {
        assert(tasks.remove(k) =~= tasks.drop_last());
    } else {
        assert(tasks.remove(k).drop_last() =~= tasks.drop_last().remove(k));
        assert(tasks.remove(k).last() == tasks.last());
        lemma_total_weight_remove(stages_tbl, tasks.drop_last(), k);
    }
}

/// Totals do not change when every task's lookup agrees between two pairs
/// of tables.
pub proof fn lemma_totals_agree(
    stage_tbl1: Seq<Seq<usize>>,
    sys_tbl1: Seq<Seq<usize>>,
    stage_tbl2: Seq<Seq<usize>>,
    sys_tbl2: Seq<Seq<usize>>,
    tasks: Seq<Task>,
    rsc: int,
)
    requires
        forall|k: int|
            0 <= k < tasks.len() ==> task_resources(stage_tbl1, sys_tbl1, #[trigger] tasks[k])
                == task_resources(stage_tbl2, sys_tbl2, tasks[k]),
    ensures
        total_reads(stage_tbl1, sys_tbl1, tasks, rsc) == total_reads(
            stage_tbl2,
            sys_tbl2,
            tasks,
            rsc,
        ),
        writer_count(stage_tbl1, sys_tbl1, tasks, rsc) == writer_count(
            stage_tbl2,
            sys_tbl2,
            tasks,
            rsc,
        ),
    decreases tasks.len(),
{
    if tasks.len() > 0 {
        assert(tasks[tasks.len() - 1] == tasks.last());
        lemma_totals_agree(stage_tbl1, sys_tbl1, stage_tbl2, sys_tbl2, tasks.drop_last(), rsc);
    }
}

/// Weights do not change when every task's weight agrees between two
/// stage tables.
pub proof fn lemma_weights_agree(
    stages_tbl1: Seq<Seq<usize>>,
    stages_tbl2: Seq<Seq<usize>>,
    tasks: Seq<Task>,
)
    requires
        forall|k: int|
            0 <= k < tasks.len() ==> task_weight(stages_tbl1, #[trigger] tasks[k]) == task_weight(
                stages_tbl2,
                tasks[k],
            ),
    ensures
        total_weight(stages_tbl1, tasks) == total_weight(stages_tbl2, tasks),
    decreases tasks.len(),
{
    if tasks.len() > 0 {
        assert(tasks[tasks.len() - 1] == tasks.last());
        lemma_weights_agree(stages_tbl1, stages_tbl2, tasks.drop_last());
    }
}

/// When the total weight is zero, every task weighs zero.
pub proof fn lemma_zero_weight_each(stages_tbl: Seq<Seq<usize>>, tasks: Seq<Task>, k: int)
    requires
        total_weight(stages_tbl, tasks) == 0,
        0 <= k < tasks.len(),
    ensures
        task_weight(stages_tbl, tasks[k]) == 0,
{
    lemma_total_weight_remove(stages_tbl, tasks, k);
}

/// When no task holds any occurrence of `rsc`, the totals are zero.
pub proof fn lemma_totals_zero(
    stage_tbl: Seq<Seq<usize>>,
    sys_tbl: Seq<Seq<usize>>,
    tasks: Seq<Task>,
    rsc: int,
)
    requires
        forall|k: int|
            0 <= k < tasks.len() ==> occ(
                task_resources(stage_tbl, sys_tbl, #[trigger] tasks[k]),
                rsc,
            ) == 0,
    ensures
        total_reads(stage_tbl, sys_tbl, tasks, rsc) == 0,
        writer_count(stage_tbl, sys_tbl, tasks, rsc) == 0,
    decreases tasks.len(),
{
    if tasks.len() > 0 {
        assert(tasks[tasks.len() - 1] == tasks.last());
        lemma_totals_zero(stage_tbl, sys_tbl, tasks.drop_last(), rsc);
    }
}

/// The `tonks` scheduler: dispatches stages and oneshot systems so that
/// in-flight tasks never conflict on a resource.
pub struct Scheduler {
    /// Queue of tasks to run during the current dispatch.
    pub task_queue: VecDeque<Task>,
    /// The starting task queue for any dispatch.
    pub starting_queue: VecDeque<Task>,
    /// Number of currently running systems.
    pub running_systems: usize,
    /// Write-held resources, indexed by internal resource id.
    pub writes_held: IdSet,
    /// Read-hold counts, indexed by internal resource id.
    pub reads_held: Vec<u8>,
    /// Mapping from resource handles to internal resource ids.
    pub resource_id_mappings: HandleInterner,
    /// Number of interned resources.
    pub n_resources: usize,
    /// The system ids of each stage, indexed by stage id.
    pub stages: Vec<Vec<usize>>,
    /// The interned reads of each system, indexed by system id.
    pub system_reads: Vec<Vec<usize>>,
    /// The interned writes of each system, indexed by system id.
    pub system_writes: Vec<Vec<usize>>,
    /// The interned reads of each stage, indexed by stage id.
    pub stage_reads: Vec<Vec<usize>>,
    /// The interned writes of each stage, indexed by stage id.
    pub stage_writes: Vec<Vec<usize>>,
    /// Number of systems when this scheduler was built; temporary systems
    /// created during a dispatch get ids from here upward.
    pub original_system_count: usize,
    /// Counter used to allocate temporary system ids.
    pub temp_system_id_counter: usize,
    /// Tasks dispatched and not yet completed.
    pub in_flight: Vec<Task>,
}

impl Scheduler {
    /// The per-stage system table, as sequences.
    pub open spec fn stages_v(&self) -> Seq<Seq<usize>> {
        tbl(self.stages@)
    }

    /// The per-stage read table, as sequences.
    pub open spec fn stage_reads_v(&self) -> Seq<Seq<usize>> {
        tbl(self.stage_reads@)
    }

    /// The per-stage write table, as sequences.
    pub open spec fn stage_writes_v(&self) -> Seq<Seq<usize>> {
        tbl(self.stage_writes@)
    }

    /// The per-system read table, as sequences.
    pub open spec fn sys_reads_v(&self) -> Seq<Seq<usize>> {
        tbl(self.system_reads@)
    }

    /// The per-system write table, as sequences.
    pub open spec fn sys_writes_v(&self) -> Seq<Seq<usize>> {
        tbl(self.system_writes@)
    }

    /// The write-held resource ids.
    pub open spec fn wview(&self) -> Set<usize> {
        bitset_view(self.writes_held)
    }

    /// The interner's contents.
    pub open spec fn imap(&self) -> Map<u64, usize> {
        interner_view(self.resource_id_mappings)
    }

    /// The read list of a task.
    pub open spec fn spec_task_reads(&self, t: Task) -> Seq<usize> {
        task_resources(self.stage_reads_v(), self.sys_reads_v(), t)
    }

    /// The write list of a task.
    pub open spec fn spec_task_writes(&self, t: Task) -> Seq<usize> {
        task_resources(self.stage_writes_v(), self.sys_writes_v(), t)
    }

    /// The task's id lies inside this scheduler's tables.
    pub open spec fn spec_task_valid(&self, t: Task) -> bool {
        task_valid(self.stages@.len() as int, self.system_reads@.len() as int, t)
    }

    /// The number of systems the task stands for.
    pub open spec fn spec_task_weight(&self, t: Task) -> nat {
        task_weight(self.stages_v(), t)
    }

    /// Structural well-formedness: table lengths agree, all stored ids lie
    /// below `n_resources`, and queued or in-flight tasks are valid.
    pub open spec fn tables_wf(&self) -> bool {
        &&& self.reads_held@.len() == self.n_resources
        &&& self.stages@.len() == self.stage_reads@.len()
        &&& self.stages@.len() == self.stage_writes@.len()
        &&& self.system_reads@.len() == self.system_writes@.len()
        &&& self.temp_system_id_counter == self.system_reads@.len()
        &&& self.original_system_count <= self.system_reads@.len()
        &&& ids_bounded(self.stage_reads_v(), self.n_resources as int)
        &&& ids_bounded(self.stage_writes_v(), self.n_resources as int)
        &&& ids_bounded(self.sys_reads_v(), self.n_resources as int)
        &&& ids_bounded(self.sys_writes_v(), self.n_resources as int)
        &&& forall|h: u64|
            self.imap().dom().contains(h) ==> #[trigger] self.imap()[h] < self.n_resources
        &&& forall|k: int|
            0 <= k < self.stages@.len() && (#[trigger] self.stages@[k])@.len() == 0
                ==> self.stage_reads@[k]@.len() == 0 && self.stage_writes@[k]@.len() == 0
        &&& forall|q: int|
            0 <= q < self.task_queue@.len() ==> self.spec_task_valid(#[trigger] self.task_queue@[q])
        &&& forall|q: int|
            0 <= q < self.starting_queue@.len() ==> (#[trigger] self.starting_queue@[q]) is Stage
                && self.spec_task_valid(self.starting_queue@[q])
        &&& forall|q: int|
            0 <= q < self.in_flight@.len() ==> self.spec_task_valid(#[trigger] self.in_flight@[q])
    }

    /// The ledger matches the in-flight tasks: read counts are the sums of
    /// their read multiplicities, the write bitset holds exactly the
    /// resources some in-flight task writes, no two in-flight tasks
    /// conflict, and `running_systems` is the total weight in flight.
    pub open spec fn ledger_wf(&self) -> bool {
        &&& self.running_systems == total_weight(self.stages_v(), self.in_flight@)
        &&& forall|i: int|
            0 <= i < self.n_resources ==> #[trigger] self.reads_held@[i] == total_reads(
                self.stage_reads_v(),
                self.sys_reads_v(),
                self.in_flight@,
                i,
            )
        &&& forall|x: usize|
            #[trigger] self.wview().contains(x) <==> writer_count(
                self.stage_writes_v(),
                self.sys_writes_v(),
                self.in_flight@,
                x as int,
            ) > 0
        &&& forall|a: int, b: int|
            0 <= a < self.in_flight@.len() && 0 <= b < self.in_flight@.len() && a != b
                ==> no_conflict(
                self.spec_task_writes(#[trigger] self.in_flight@[a]),
                self.spec_task_reads(#[trigger] self.in_flight@[b]),
                self.spec_task_writes(self.in_flight@[b]),
            )
    }

    /// The scheduler's invariant.
    pub open spec fn wf(&self) -> bool {
        &&& self.tables_wf()
        &&& self.ledger_wf()
    }
}

/// Nothing observable about the scheduler changed.
pub open spec fn same_state(pre: Scheduler, post: Scheduler) -> bool {
    &&& same_config(pre, post)
    &&& post.task_queue == pre.task_queue
    &&& post.running_systems == pre.running_systems
    &&& post.reads_held@ == pre.reads_held@
    &&& bitset_view(post.writes_held) == bitset_view(pre.writes_held)
    &&& post.in_flight == pre.in_flight
    &&& post.system_reads == pre.system_reads
    &&& post.system_writes == pre.system_writes
    &&& post.temp_system_id_counter == pre.temp_system_id_counter
}

/// The driver must wait on the completion channel: either the queue is
/// drained while systems still run, or the task at the front of the queue
/// cannot acquire its resources now (or the running-system counter has no
/// headroom for it).
pub open spec fn must_wait(pre: Scheduler) -> bool {
    if pre.task_queue@.len() == 0 {
        pre.running_systems > 0
    } else {
        let t = pre.task_queue@[0];
        !can_acquire(
            pre.spec_task_reads(t),
            pre.spec_task_writes(t),
            pre.reads_held@,
            pre.wview(),
        ) || pre.running_systems + pre.spec_task_weight(t) > usize::MAX
    }
}

/// The construction-time parts of the scheduler are unchanged.
pub open spec fn same_config(pre: Scheduler, post: Scheduler) -> bool {
    &&& post.starting_queue == pre.starting_queue
    &&& post.imap() == pre.imap()
    &&& post.n_resources == pre.n_resources
    &&& post.stages == pre.stages
    &&& post.stage_reads == pre.stage_reads
    &&& post.stage_writes == pre.stage_writes
    &&& post.original_system_count == pre.original_system_count
}

/// The whole invariant carries over to a state with the same tables and
/// ledger views whose queue holds only valid tasks.
proof fn lemma_wf_transport(pre: Scheduler, post: Scheduler)
    requires
        pre.wf(),
        post.imap() == pre.imap(),
        post.n_resources == pre.n_resources,
        post.reads_held@ == pre.reads_held@,
        bitset_view(post.writes_held) == bitset_view(pre.writes_held),
        post.stages == pre.stages,
        post.stage_reads == pre.stage_reads,
        post.stage_writes == pre.stage_writes,
        post.system_reads == pre.system_reads,
        post.system_writes == pre.system_writes,
        post.temp_system_id_counter == pre.temp_system_id_counter,
        post.original_system_count == pre.original_system_count,
        post.in_flight@ == pre.in_flight@,
        post.running_systems == pre.running_systems,
        post.starting_queue@ == pre.starting_queue@,
        forall|q: int|
            0 <= q < post.task_queue@.len() ==> pre.spec_task_valid(
                #[trigger] post.task_queue@[q],
            ),
    ensures
        post.wf(),
{
    assert(post.stage_reads_v() == pre.stage_reads_v());
    assert(post.stage_writes_v() == pre.stage_writes_v());
    assert(post.sys_reads_v() == pre.sys_reads_v());
    assert(post.sys_writes_v() == pre.sys_writes_v());
    assert(post.stages_v() == pre.stages_v());
    assert(post.wview() == pre.wview());
    assert forall|h: u64| post.imap().dom().contains(h) implies #[trigger] post.imap()[h]
        < post.n_resources by {
        assert(pre.imap()[h] < pre.n_resources);
    }
    assert forall|q: int| 0 <= q < post.starting_queue@.len() implies (
    #[trigger] post.starting_queue@[q]) is Stage && post.spec_task_valid(post.starting_queue@[q]) by {
        assert(pre.starting_queue@[q] is Stage && pre.spec_task_valid(pre.starting_queue@[q]));
    }
    assert forall|q: int| 0 <= q < post.in_flight@.len() implies post.spec_task_valid(
        #[trigger] post.in_flight@[q],
    ) by {
        assert(pre.spec_task_valid(pre.in_flight@[q]));
    }
    lemma_ledger_wf_agree(pre, post);
}

/// The ledger invariant carries over to a state whose ledger, in-flight
/// tasks and per-task lookups are unchanged.
proof fn lemma_ledger_wf_agree(pre: Scheduler, post: Scheduler)
    requires
        pre.ledger_wf(),
        post.in_flight@ == pre.in_flight@,
        post.running_systems == pre.running_systems,
        post.reads_held@ == pre.reads_held@,
        post.wview() == pre.wview(),
        post.n_resources == pre.n_resources,
        forall|k: int|
            0 <= k < pre.in_flight@.len() ==> {
                &&& post.spec_task_reads(#[trigger] pre.in_flight@[k]) == pre.spec_task_reads(
                    pre.in_flight@[k],
                )
                &&& post.spec_task_writes(pre.in_flight@[k]) == pre.spec_task_writes(
                    pre.in_flight@[k],
                )
                &&& post.spec_task_weight(pre.in_flight@[k]) == pre.spec_task_weight(
                    pre.in_flight@[k],
                )
            },
    ensures
        post.ledger_wf(),
{
    lemma_weights_agree(post.stages_v(), pre.stages_v(), pre.in_flight@);
    assert forall|i: int| 0 <= i < post.n_resources implies #[trigger] post.reads_held@[i]
        == total_reads(post.stage_reads_v(), post.sys_reads_v(), post.in_flight@, i) by {
        lemma_totals_agree(
            post.stage_reads_v(),
            post.sys_reads_v(),
            pre.stage_reads_v(),
            pre.sys_reads_v(),
            pre.in_flight@,
            i,
        );
    }
    assert forall|x: usize| #[trigger] post.wview().contains(x) <==> writer_count(
        post.stage_writes_v(),
        post.sys_writes_v(),
        post.in_flight@,
        x as int,
    ) > 0 by {
        lemma_totals_agree(
            post.stage_writes_v(),
            post.sys_writes_v(),
            pre.stage_writes_v(),
            pre.sys_writes_v(),
            pre.in_flight@,
            x as int,
        );
    }
}

impl Scheduler {
    /// Resets the task queue to the starting queue: one stage task per
    /// stage, in stage order.  The rest of the scheduler is untouched.
    pub fn start_dispatch(&mut self)
        requires
            old(self).wf(),
        ensures
            final(self).wf(),
            final(self).task_queue@ == old(self).starting_queue@,
            same_config(*old(self), *final(self)),
            final(self).system_reads == old(self).system_reads,
            final(self).system_writes == old(self).system_writes,
            final(self).temp_system_id_counter == old(self).temp_system_id_counter,
            final(self).in_flight == old(self).in_flight,
            final(self).running_systems == old(self).running_systems,
            final(self).reads_held == old(self).reads_held,
            bitset_view(final(self).writes_held) == bitset_view(old(self).writes_held),
    {
        self.task_queue.clear();
        let mut k: usize = 0;
        while k < self.starting_queue.len()
            invariant
                k <= self.starting_queue@.len(),
                self.task_queue@ == self.starting_queue@.take(k as int),
                self.starting_queue == old(self).starting_queue,
                self.reads_held == old(self).reads_held,
                bitset_view(self.writes_held) == bitset_view(old(self).writes_held),
                self.imap() == old(self).imap(),
                self.n_resources == old(self).n_resources,
                self.stages == old(self).stages,
                self.stage_reads == old(self).stage_reads,
                self.stage_writes == old(self).stage_writes,
                self.system_reads == old(self).system_reads,
                self.system_writes == old(self).system_writes,
                self.original_system_count == old(self).original_system_count,
                self.temp_system_id_counter == old(self).temp_system_id_counter,
                self.in_flight == old(self).in_flight,
                self.running_systems == old(self).running_systems,
            decreases self.starting_queue@.len() - k,
        {
            let t = *&self.starting_queue[k];
            self.task_queue.push_back(t);
            proof {
                assert(self.task_queue@ =~= self.starting_queue@.take(k as int + 1));
            }
            k += 1;
        }
        proof {
            assert(self.task_queue@ =~= self.starting_queue@);
            assert forall|q: int| 0 <= q < self.task_queue@.len() implies old(self).spec_task_valid(
                #[trigger] self.task_queue@[q],
            ) by {
                assert(old(self).starting_queue@[q] is Stage && old(self).spec_task_valid(
                    old(self).starting_queue@[q],
                ));
            }
            lemma_wf_transport(*old(self), *self);
        }
    }

    /// Decides the next step of the dispatch loop.  When the task at the
    /// front of the queue can acquire all of its resources, it is taken in
    /// flight and the driver is told to spawn it; when it cannot, or when
    /// the queue is drained but systems are still running, the driver must
    /// wait for a completion message; when nothing is queued or running,
    /// the dispatch is done.
    pub fn next_action(&mut self) -> (a: Action)
        requires
            old(self).wf(),
        ensures
            final(self).wf(),
            same_config(*old(self), *final(self)),
            final(self).system_reads == old(self).system_reads,
            final(self).system_writes == old(self).system_writes,
            final(self).temp_system_id_counter == old(self).temp_system_id_counter,
            match a {
                Action::Done => {
                    &&& old(self).task_queue@.len() == 0
                    &&& old(self).running_systems == 0
                    &&& same_state(*old(self), *final(self))
                },
                Action::Wait => same_state(*old(self), *final(self)) && must_wait(*old(self)),
                Action::DispatchStage(id) => dispatched(*old(self), *final(self), Task::Stage(id)),
                Action::DispatchOneshot(id) => dispatched(
                    *old(self),
                    *final(self),
                    Task::Oneshot(id),
                ),
            },
    {
        if self.task_queue.len() == 0 {
            if self.running_systems == 0 {
                Action::Done
            } else {
                Action::Wait
            }
        } else {
            let t = *&self.task_queue[0];
            let w: usize = match t {
                Task::Stage(id) => self.stages[id].len(),
                Task::Oneshot(_) => 1,
            };
            if usize::MAX - w < self.running_systems {
                return Action::Wait;
            }
            proof {
                assert(self.spec_task_valid(self.task_queue@[0]));
            }
            let acquired = match t {
                Task::Stage(id) => {
                    proof {
                        assert forall|j: int|
                            0 <= j < self.stage_reads@[id as int]@.len() implies #[trigger] self.stage_reads@[id as int]@[j] < self.reads_held@.len() by {
                            assert(self.stage_reads_v()[id as int][j] < self.n_resources as int);
                        }
                        assert forall|j: int|
                            0 <= j < self.stage_writes@[id as int]@.len() implies #[trigger] self.stage_writes@[id as int]@[j] < self.reads_held@.len() by {
                            assert(self.stage_writes_v()[id as int][j] < self.n_resources as int);
                        }
                    }
                    try_obtain_resources(
                        &self.stage_reads[id],
                        &self.stage_writes[id],
                        &mut self.reads_held,
                        &mut self.writes_held,
                    )
                },
                Task::Oneshot(id) => {
                    proof {
                        assert forall|j: int|
                            0 <= j < self.system_reads@[id as int]@.len() implies #[trigger] self.system_reads@[id as int]@[j] < self.reads_held@.len() by {
                            assert(self.sys_reads_v()[id as int][j] < self.n_resources as int);
                        }
                        assert forall|j: int|
                            0 <= j < self.system_writes@[id as int]@.len() implies #[trigger] self.system_writes@[id as int]@[j] < self.reads_held@.len() by {
                            assert(self.sys_writes_v()[id as int][j] < self.n_resources as int);
                        }
                    }
                    try_obtain_resources(
                        &self.system_reads[id],
                        &self.system_writes[id],
                        &mut self.reads_held,
                        &mut self.writes_held,
                    )
                },
            };
            match acquired {
                Ok(()) => {
                    let _front = self.task_queue.pop_front();
                    self.in_flight.push(t);
                    self.running_systems = self.running_systems + w;
                    proof {
                        self.lemma_dispatch_restores_wf(*old(self), t, w);
                    }
                    match t {
                        Task::Stage(id) => Action::DispatchStage(id),
                        Task::Oneshot(id) => Action::DispatchOneshot(id),
                    }
                },
                Err(()) => {
                    proof {
                        lemma_wf_transport(*old(self), *self);
                    }
                    Action::Wait
                },
            }
        }
    }

}

/// The state change a successful dispatch of `t` makes: `t` moves from
/// the queue front into the in-flight set, its resources are acquired,
/// and the running-system count rises by its weight.
pub open spec fn dispatched(pre: Scheduler, post: Scheduler, t: Task) -> bool {
    &&& same_config(pre, post)
    &&& post.system_reads == pre.system_reads
    &&& post.system_writes == pre.system_writes
    &&& post.temp_system_id_counter == pre.temp_system_id_counter
    &&& pre.task_queue@.len() > 0
    &&& pre.task_queue@[0] == t
    &&& can_acquire(pre.spec_task_reads(t), pre.spec_task_writes(t), pre.reads_held@, pre.wview())
    &&& post.task_queue@ == pre.task_queue@.subrange(1, pre.task_queue@.len() as int)
    &&& post.in_flight@ == pre.in_flight@.push(t)
    &&& post.running_systems == pre.running_systems + pre.spec_task_weight(t)
    &&& post.reads_held@.len() == pre.reads_held@.len()
    &&& forall|i: int|
        0 <= i < pre.n_resources ==> #[trigger] post.reads_held@[i] == pre.reads_held@[i] + occ(
            pre.spec_task_reads(t),
            i,
        )
    &&& forall|x: usize|
        #[trigger] post.wview().contains(x) <==> pre.wview().contains(x) || occ(
            pre.spec_task_writes(t),
            x as int,
        ) > 0
}

impl Scheduler {
    /// Re-establishes the invariant after `t` was acquired and pushed in
    /// flight.
    proof fn lemma_dispatch_restores_wf(&self, pre: Scheduler, t: Task, w: usize)
        requires
            pre.wf(),
            pre.task_queue@.len() > 0,
            pre.task_queue@[0] == t,
            w == pre.spec_task_weight(t),
            can_acquire(
                pre.spec_task_reads(t),
                pre.spec_task_writes(t),
                pre.reads_held@,
                pre.wview(),
            ),
            self.task_queue@ == pre.task_queue@.subrange(1, pre.task_queue@.len() as int),
            self.in_flight@ == pre.in_flight@.push(t),
            self.running_systems == pre.running_systems + w,
            self.reads_held@.len() == pre.reads_held@.len(),
            forall|i: int|
                0 <= i < pre.reads_held@.len() ==> #[trigger] self.reads_held@[i]
                    == pre.reads_held@[i] + occ(pre.spec_task_reads(t), i),
            forall|x: usize|
                #[trigger] self.wview().contains(x) <==> pre.wview().contains(x) || occ(
                    pre.spec_task_writes(t),
                    x as int,
                ) > 0,
            same_config(pre, *self),
            self.system_reads == pre.system_reads,
            self.system_writes == pre.system_writes,
            self.temp_system_id_counter == pre.temp_system_id_counter,
        ensures
            self.wf(),
    {
        let tasks = pre.in_flight@;
        let tasks2 = self.in_flight@;
        assert(tasks2.drop_last() =~= tasks);
        assert(tasks2.last() == t);
        assert(tasks2[tasks2.len() - 1] == t);

        // Queue tasks stay valid.
        assert forall|q: int| 0 <= q < self.task_queue@.len() implies self.spec_task_valid(
            #[trigger] self.task_queue@[q],
        ) by {
            assert(self.task_queue@[q] == pre.task_queue@[q + 1]);
        }

        assert(self.stage_reads_v() == pre.stage_reads_v());
        assert(self.sys_reads_v() == pre.sys_reads_v());
        assert(self.stage_writes_v() == pre.stage_writes_v());
        assert(self.sys_writes_v() == pre.sys_writes_v());
        assert(self.stages_v() == pre.stages_v());

        // The ledger counts extend by exactly the new task's holds.
        assert forall|i: int| 0 <= i < self.n_resources implies #[trigger] self.reads_held@[i]
            == total_reads(self.stage_reads_v(), self.sys_reads_v(), tasks2, i) by {
            assert(total_reads(self.stage_reads_v(), self.sys_reads_v(), tasks2, i) == total_reads(
                pre.stage_reads_v(),
                pre.sys_reads_v(),
                tasks,
                i,
            ) + occ(pre.spec_task_reads(t), i));
        }

        assert forall|x: usize| #[trigger] self.wview().contains(x) <==> writer_count(
            self.stage_writes_v(),
            self.sys_writes_v(),
            tasks2,
            x as int,
        ) > 0 by {
            assert(writer_count(self.stage_writes_v(), self.sys_writes_v(), tasks2, x as int)
                == writer_count(pre.stage_writes_v(), pre.sys_writes_v(), tasks, x as int) + if occ(
                pre.spec_task_writes(t),
                x as int,
            ) > 0 {
                1nat
            } else {
                0nat
            });
        }
        assert(total_weight(self.stages_v(), tasks2) == total_weight(pre.stages_v(), tasks)
            + task_weight(pre.stages_v(), t));

        // The new task conflicts with no in-flight task.
        let rt = pre.spec_task_reads(t);
        let wt = pre.spec_task_writes(t);
        assert forall|k: int| 0 <= k < tasks.len() implies no_conflict(
            wt,
            pre.spec_task_reads(#[trigger] tasks[k]),
            pre.spec_task_writes(tasks[k]),
        ) && no_conflict(pre.spec_task_writes(tasks[k]), rt, wt) by {
            let rk = pre.spec_task_reads(tasks[k]);
            let wk = pre.spec_task_writes(tasks[k]);
            assert forall|x: int| #[trigger] occ(wt, x) > 0 implies occ(wk, x) == 0 && occ(rk, x)
                == 0 by {
                lemma_occ_pos(wt, x);
                let p = choose|p: int| 0 <= p < wt.len() && wt[p] == x;
                assert(!pre.wview().contains(wt[p]));
                assert(pre.reads_held@[wt[p] as int] == 0);
                lemma_writer_count_remove(
                    pre.stage_writes_v(),
                    pre.sys_writes_v(),
                    tasks,
                    k,
                    x,
                );
                lemma_total_reads_remove(pre.stage_reads_v(), pre.sys_reads_v(), tasks, k, x);
            }
            assert forall|x: int| #[trigger] occ(wk, x) > 0 implies occ(wt, x) == 0 && occ(rt, x)
                == 0 by {
                lemma_occ_pos(wk, x);
                let p = choose|p: int| 0 <= p < wk.len() && wk[p] == x;
                lemma_writer_count_remove(
                    pre.stage_writes_v(),
                    pre.sys_writes_v(),
                    tasks,
                    k,
                    x,
                );
                assert(writer_count(pre.stage_writes_v(), pre.sys_writes_v(), tasks, x) > 0);
                assert(pre.wview().contains(wk[p]));
                if occ(wt, x) > 0 {
                    lemma_occ_pos(wt, x);
                    let q = choose|q: int| 0 <= q < wt.len() && wt[q] == x;
                    assert(!pre.wview().contains(wt[q]));
                }
                if occ(rt, x) > 0 {
                    lemma_occ_pos(rt, x);
                    let q = choose|q: int| 0 <= q < rt.len() && rt[q] == x;
                    assert(!pre.wview().contains(rt[q]));
                }
            }
        }
        assert forall|a: int, b: int|
            0 <= a < tasks2.len() && 0 <= b < tasks2.len() && a != b implies no_conflict(
            self.spec_task_writes(#[trigger] tasks2[a]),
            self.spec_task_reads(#[trigger] tasks2[b]),
            self.spec_task_writes(tasks2[b]),
        ) by {
            if a < tasks.len() && b < tasks.len() {
                assert(tasks2[a] == tasks[a]);
                assert(tasks2[b] == tasks[b]);
            } else if a == tasks.len() {
                assert(tasks2[a] == t);
                assert(tasks2[b] == tasks[b]);
            } else {
                assert(tasks2[b] == t);
                assert(tasks2[a] == tasks[a]);
            }
        }
    }
}


/// `t` is one of the in-flight tasks.
pub open spec fn task_in_flight(s: Scheduler, t: Task) -> bool {
    exists|k: int| 0 <= k < s.in_flight@.len() && s.in_flight@[k] == t
}

/// Every handle in `hs` is interned in `m`.
pub open spec fn all_mapped(m: Map<u64, usize>, hs: Seq<u64>) -> bool {
    forall|j: int| 0 <= j < hs.len() ==> m.dom().contains(#[trigger] hs[j])
}

/// The state change the completion of in-flight task `t` makes: `t` leaves
/// the in-flight set, its resources are released, and the running-system
/// count falls by its weight.
pub open spec fn completed(pre: Scheduler, post: Scheduler, t: Task) -> bool {
    &&& same_config(pre, post)
    &&& post.system_reads == pre.system_reads
    &&& post.system_writes == pre.system_writes
    &&& post.temp_system_id_counter == pre.temp_system_id_counter
    &&& post.task_queue == pre.task_queue
    &&& exists|k: int|
        0 <= k < pre.in_flight@.len() && pre.in_flight@[k] == t && post.in_flight@
            == pre.in_flight@.remove(k)
    &&& post.running_systems == pre.running_systems - pre.spec_task_weight(t)
    &&& post.reads_held@.len() == pre.reads_held@.len()
    &&& forall|i: int|
        0 <= i < pre.n_resources ==> #[trigger] post.reads_held@[i] == pre.reads_held@[i] - occ(
            pre.spec_task_reads(t),
            i,
        )
    &&& forall|x: usize|
        #[trigger] post.wview().contains(x) <==> pre.wview().contains(x) && occ(
            pre.spec_task_writes(t),
            x as int,
        ) == 0
}

/// The state change a `Relaxed` oneshot request makes: a fresh temporary
/// system id is allocated, the interned read and write lists are appended
/// to the per-system tables, and the oneshot joins the back of the queue.
pub open spec fn oneshot_scheduled(
    pre: Scheduler,
    post: Scheduler,
    reads: Seq<u64>,
    writes: Seq<u64>,
    id: usize,
) -> bool {
    &&& oneshot_scheduled_tables(pre, post, reads, writes, id)
    &&& post.task_queue@ == pre.task_queue@.push(Task::Oneshot(id))
}

/// The table part of a oneshot request: a fresh temporary system id and
/// one new interned row in each per-system table.
pub open spec fn oneshot_scheduled_tables(
    pre: Scheduler,
    post: Scheduler,
    reads: Seq<u64>,
    writes: Seq<u64>,
    id: usize,
) -> bool {
    &&& same_config(pre, post)
    &&& all_mapped(pre.imap(), reads)
    &&& all_mapped(pre.imap(), writes)
    &&& id == pre.temp_system_id_counter
    &&& post.temp_system_id_counter == pre.temp_system_id_counter + 1
    &&& post.system_reads@.len() == pre.system_reads@.len() + 1
    &&& post.system_writes@.len() == pre.system_writes@.len() + 1
    &&& forall|k: int|
        0 <= k < pre.system_reads@.len() ==> #[trigger] post.system_reads@[k]
            == pre.system_reads@[k]
    &&& forall|k: int|
        0 <= k < pre.system_writes@.len() ==> #[trigger] post.system_writes@[k]
            == pre.system_writes@[k]
    &&& post.sys_reads_v()[id as int].len() == reads.len()
    &&& forall|j: int|
        0 <= j < reads.len() ==> #[trigger] post.sys_reads_v()[id as int][j] == pre.imap()[reads[j]]
    &&& post.sys_writes_v()[id as int].len() == writes.len()
    &&& forall|j: int|
        0 <= j < writes.len() ==> #[trigger] post.sys_writes_v()[id as int][j] == pre.imap()[
            writes[j]
        ]
    &&& post.reads_held@ == pre.reads_held@
    &&& bitset_view(post.writes_held) == bitset_view(pre.writes_held)
    &&& post.in_flight == pre.in_flight
    &&& post.running_systems == pre.running_systems
}

impl Scheduler {
    /// Handles one message from a running task: a completion releases the
    /// task's resources and reports how many systems finished; a `Relaxed`
    /// oneshot request creates a temporary system and queues it, reporting
    /// zero completions.  A completion for a task that is not in flight is
    /// refused, as is a oneshot naming a handle that was never interned;
    /// either error leaves the scheduler unchanged.
    pub fn handle_message(&mut self, msg: TaskMessage) -> (r: Result<usize, SchedulerError>)
        requires
            old(self).wf(),
        ensures
            final(self).wf(),
            same_config(*old(self), *final(self)),
            match msg {
                TaskMessage::SystemComplete(id) => match r {
                    Ok(count) => count == 1 && completed(
                        *old(self),
                        *final(self),
                        Task::Oneshot(id),
                    ),
                    Err(e) => e == SchedulerError::UnexpectedCompletion && same_state(
                        *old(self),
                        *final(self),
                    ) && !task_in_flight(*old(self), Task::Oneshot(id)),
                },
                TaskMessage::StageComplete(id) => match r {
                    Ok(count) => count == old(self).spec_task_weight(Task::Stage(id)) && completed(
                        *old(self),
                        *final(self),
                        Task::Stage(id),
                    ),
                    Err(e) => e == SchedulerError::UnexpectedCompletion && same_state(
                        *old(self),
                        *final(self),
                    ) && !task_in_flight(*old(self), Task::Stage(id)),
                },
                TaskMessage::ScheduleOneshot { scheduling_system, reads, writes, strategy } => match r {
                    Ok(count) => count == 0 && oneshot_scheduled(
                        *old(self),
                        *final(self),
                        reads@,
                        writes@,
                        old(self).temp_system_id_counter,
                    ),
                    Err(e) => e == SchedulerError::UnknownResourceInOneshot && same_state(
                        *old(self),
                        *final(self),
                    ) && !(all_mapped(old(self).imap(), reads@) && all_mapped(
                        old(self).imap(),
                        writes@,
                    )),
                },
            },
    {
        match msg {
            TaskMessage::SystemComplete(id) => self.complete_task(Task::Oneshot(id)),
            TaskMessage::StageComplete(id) => self.complete_task(Task::Stage(id)),
            TaskMessage::ScheduleOneshot { scheduling_system: _, reads, writes, strategy } => match strategy {
                ExecutionStrategy::Relaxed => match self.create_temp_system(&reads, &writes) {
                    Ok(id) => {
                        let ghost mid = *self;
                        self.task_queue.push_back(Task::Oneshot(id));
                        proof {
                            assert forall|q: int| 0 <= q < self.task_queue@.len() implies mid.spec_task_valid(
                                #[trigger] self.task_queue@[q],
                            ) by {
                                if q < mid.task_queue@.len() {
                                    assert(mid.spec_task_valid(mid.task_queue@[q]));
                                } else {
                                    assert(self.task_queue@[q] == Task::Oneshot(id));
                                }
                            }
                            lemma_wf_transport(mid, *self);
                        }
                        Ok(0)
                    },
                    Err(e) => Err(e),
                },
            },
        }
    }

    /// Takes the completed task `t` out of the in-flight set, releases the
    /// resources it held, and lowers the running-system count by its
    /// weight, which is returned.  A task that is not in flight is refused
    /// and nothing changes.
    #[verifier::loop_isolation(false)]
    fn complete_task(&mut self, t: Task) -> (r: Result<usize, SchedulerError>)
        requires
            old(self).wf(),
        ensures
            final(self).wf(),
            match r {
                Ok(count) => count == old(self).spec_task_weight(t) && completed(
                    *old(self),
                    *final(self),
                    t,
                ),
                Err(e) => e == SchedulerError::UnexpectedCompletion && same_state(
                    *old(self),
                    *final(self),
                ) && !task_in_flight(*old(self), t),
            },
    {
        let mut k: usize = 0;
        while k < self.in_flight.len() && !(self.in_flight[k] == t)
            invariant
                k <= self.in_flight@.len(),
                forall|q: int| 0 <= q < k ==> self.in_flight@[q] != t,
            decreases self.in_flight@.len() - k,
        {
            k += 1;
        }
        if k == self.in_flight.len() {
            return Err(SchedulerError::UnexpectedCompletion);
        }
        proof {
            assert(self.spec_task_valid(self.in_flight@[k as int]));
        }
        let w: usize = match t {
            Task::Stage(id) => self.stages[id].len(),
            Task::Oneshot(_) => 1,
        };
        proof {
            self.lemma_release_preconditions(t, k as int);
        }
        match t {
            Task::Stage(id) => {
                proof {
                    assert(self.spec_task_reads(t) == self.stage_reads@[id as int]@);
                    assert(self.spec_task_writes(t) == self.stage_writes@[id as int]@);
                    assert forall|j: int|
                        0 <= j < self.stage_reads@[id as int]@.len() implies #[trigger] self.stage_reads@[id as int]@[j] < self.reads_held@.len() by {
                        assert(self.stage_reads_v()[id as int][j] < self.n_resources as int);
                    }
                    assert forall|j: int|
                        0 <= j < self.stage_writes@[id as int]@.len() implies #[trigger] self.stage_writes@[id as int]@[j] < self.reads_held@.len() by {
                        assert(self.stage_writes_v()[id as int][j] < self.n_resources as int);
                    }
                }
                release_obtained_resources(
                    &self.stage_reads[id],
                    &self.stage_writes[id],
                    &mut self.reads_held,
                    &mut self.writes_held,
                );
                proof {
                    assert(writes_after_release(
                        bitset_view(old(self).writes_held),
                        bitset_view(self.writes_held),
                        self.stage_writes@[id as int]@,
                    ));
                    assert forall|x: usize| #[trigger] self.wview().contains(x) <==> old(
                        self,
                    ).wview().contains(x) && occ(old(self).spec_task_writes(t), x as int) == 0 by {
                        assert(bitset_view(self.writes_held).contains(x) <==> bitset_view(
                            old(self).writes_held,
                        ).contains(x) && occ(self.stage_writes@[id as int]@, x as int) == 0);
                    }
                }
            },
            Task::Oneshot(id) => {
                proof {
                    assert(self.spec_task_reads(t) == self.system_reads@[id as int]@);
                    assert(self.spec_task_writes(t) == self.system_writes@[id as int]@);
                    assert forall|j: int|
                        0 <= j < self.system_reads@[id as int]@.len() implies #[trigger] self.system_reads@[id as int]@[j] < self.reads_held@.len() by {
                        assert(self.sys_reads_v()[id as int][j] < self.n_resources as int);
                    }
                    assert forall|j: int|
                        0 <= j < self.system_writes@[id as int]@.len() implies #[trigger] self.system_writes@[id as int]@[j] < self.reads_held@.len() by {
                        assert(self.sys_writes_v()[id as int][j] < self.n_resources as int);
                    }
                }
                release_obtained_resources(
                    &self.system_reads[id],
                    &self.system_writes[id],
                    &mut self.reads_held,
                    &mut self.writes_held,
                );
                proof {
                    assert(writes_after_release(
                        bitset_view(old(self).writes_held),
                        bitset_view(self.writes_held),
                        self.system_writes@[id as int]@,
                    ));
                    assert forall|x: usize| #[trigger] self.wview().contains(x) <==> old(
                        self,
                    ).wview().contains(x) && occ(old(self).spec_task_writes(t), x as int) == 0 by {
                        assert(bitset_view(self.writes_held).contains(x) <==> bitset_view(
                            old(self).writes_held,
                        ).contains(x) && occ(self.system_writes@[id as int]@, x as int) == 0);
                    }
                }
            },
        }
        self.in_flight.remove(k);
        proof {
            lemma_total_weight_remove(old(self).stages_v(), old(self).in_flight@, k as int);
        }
        self.running_systems = self.running_systems - w;
        proof {
            self.lemma_complete_restores_wf(*old(self), t, k as int);
        }
        Ok(w)
    }

    /// The resources `t` holds at index `k` in flight are covered by the
    /// ledger, so releasing them cannot underflow a read counter.
    proof fn lemma_release_preconditions(&self, t: Task, k: int)
        requires
            self.wf(),
            0 <= k < self.in_flight@.len(),
            self.in_flight@[k] == t,
        ensures
            forall|i: int|
                0 <= i < self.reads_held@.len() ==> occ(self.spec_task_reads(t), i)
                    <= #[trigger] self.reads_held@[i],
    {
        assert forall|i: int| 0 <= i < self.reads_held@.len() implies occ(
            self.spec_task_reads(t),
            i,
        ) <= #[trigger] self.reads_held@[i] by {
            lemma_total_reads_remove(
                self.stage_reads_v(),
                self.sys_reads_v(),
                self.in_flight@,
                k,
                i,
            );
        }
    }

    /// Re-establishes the invariant after in-flight task `t` was released
    /// and removed.
    proof fn lemma_complete_restores_wf(&self, pre: Scheduler, t: Task, k: int)
        requires
            pre.wf(),
            0 <= k < pre.in_flight@.len(),
            pre.in_flight@[k] == t,
            same_config(pre, *self),
            self.system_reads == pre.system_reads,
            self.system_writes == pre.system_writes,
            self.temp_system_id_counter == pre.temp_system_id_counter,
            self.task_queue == pre.task_queue,
            self.in_flight@ == pre.in_flight@.remove(k),
            self.running_systems == pre.running_systems - pre.spec_task_weight(t),
            self.reads_held@.len() == pre.reads_held@.len(),
            forall|i: int|
                0 <= i < pre.reads_held@.len() ==> #[trigger] self.reads_held@[i]
                    == pre.reads_held@[i] - occ(pre.spec_task_reads(t), i),
            forall|x: usize|
                #[trigger] self.wview().contains(x) <==> pre.wview().contains(x) && occ(
                    pre.spec_task_writes(t),
                    x as int,
                ) == 0,
        ensures
            self.wf(),
    {
        let tasks = pre.in_flight@;
        let tasks2 = self.in_flight@;
        assert(self.stage_reads_v() == pre.stage_reads_v());
        assert(self.sys_reads_v() == pre.sys_reads_v());
        assert(self.stage_writes_v() == pre.stage_writes_v());
        assert(self.sys_writes_v() == pre.sys_writes_v());
        assert(self.stages_v() == pre.stages_v());
        assert forall|q: int| 0 <= q < tasks2.len() implies self.spec_task_valid(
            #[trigger] tasks2[q],
        ) by {
            if q < k {
                assert(pre.spec_task_valid(tasks[q]));
            } else {
                assert(tasks2[q] == tasks[q + 1]);
                assert(pre.spec_task_valid(tasks[q + 1]));
            }
        }
        assert forall|q: int| 0 <= q < self.task_queue@.len() implies self.spec_task_valid(
            #[trigger] self.task_queue@[q],
        ) by {
            assert(pre.spec_task_valid(pre.task_queue@[q]));
        }
        assert forall|q: int| 0 <= q < self.starting_queue@.len() implies (
        #[trigger] self.starting_queue@[q]) is Stage && self.spec_task_valid(
            self.starting_queue@[q],
        ) by {
            assert(pre.starting_queue@[q] is Stage && pre.spec_task_valid(pre.starting_queue@[q]));
        }
        assert forall|h: u64| self.imap().dom().contains(h) implies #[trigger] self.imap()[h]
            < self.n_resources by {
            assert(pre.imap()[h] < pre.n_resources);
        }

        lemma_total_weight_remove(pre.stages_v(), tasks, k);

        assert forall|i: int| 0 <= i < self.n_resources implies #[trigger] self.reads_held@[i]
            == total_reads(self.stage_reads_v(), self.sys_reads_v(), tasks2, i) by {
            lemma_total_reads_remove(pre.stage_reads_v(), pre.sys_reads_v(), tasks, k, i);
        }

        let wt = pre.spec_task_writes(t);
        assert forall|x: usize| #[trigger] self.wview().contains(x) <==> writer_count(
            self.stage_writes_v(),
            self.sys_writes_v(),
            tasks2,
            x as int,
        ) > 0 by {
            lemma_writer_count_remove(pre.stage_writes_v(), pre.sys_writes_v(), tasks, k, x as int);
            if occ(wt, x as int) > 0 {
                // `t` was the one writer, so no remaining task writes `x`.
                assert forall|q: int| 0 <= q < tasks2.len() implies occ(
                    task_resources(pre.stage_writes_v(), pre.sys_writes_v(), #[trigger] tasks2[q]),
                    x as int,
                ) == 0 by {
                    let p: int = if q < k {
                        q
                    } else {
                        q + 1
                    };
                    assert(tasks2[q] == tasks[p]);
                    assert(no_conflict(
                        pre.spec_task_writes(tasks[k]),
                        pre.spec_task_reads(tasks[p]),
                        pre.spec_task_writes(tasks[p]),
                    ));
                }
                lemma_totals_zero(pre.stage_writes_v(), pre.sys_writes_v(), tasks2, x as int);
                lemma_totals_agree(
                    self.stage_writes_v(),
                    self.sys_writes_v(),
                    pre.stage_writes_v(),
                    pre.sys_writes_v(),
                    tasks2,
                    x as int,
                );
            }
        }

        assert forall|a: int, b: int|
            0 <= a < tasks2.len() && 0 <= b < tasks2.len() && a != b implies no_conflict(
            self.spec_task_writes(#[trigger] tasks2[a]),
            self.spec_task_reads(#[trigger] tasks2[b]),
            self.spec_task_writes(tasks2[b]),
        ) by {
            let pa: int = if a < k {
                a
            } else {
                a + 1
            };
            let pb: int = if b < k {
                b
            } else {
                b + 1
            };
            assert(tasks2[a] == tasks[pa]);
            assert(tasks2[b] == tasks[pb]);
            assert(no_conflict(
                pre.spec_task_writes(tasks[pa]),
                pre.spec_task_reads(tasks[pb]),
                pre.spec_task_writes(tasks[pb]),
            ));
        }
    }

    /// Allocates a temporary system id for a oneshot: the handles are
    /// interned, the per-system tables grow by one row each, and the id
    /// counter moves up.  A handle that was never interned is refused and
    /// nothing changes.
    #[verifier::loop_isolation(false)]
    pub fn create_temp_system(&mut self, reads: &Vec<u64>, writes: &Vec<u64>) -> (r: Result<
        usize,
        SchedulerError,
    >)
        requires
            old(self).wf(),
        ensures
            final(self).wf(),
            same_config(*old(self), *final(self)),
            match r {
                Ok(id) => oneshot_scheduled_tables(*old(self), *final(self), reads@, writes@, id)
                    && final(self).task_queue == old(self).task_queue,
                Err(e) => e == SchedulerError::UnknownResourceInOneshot && same_state(
                    *old(self),
                    *final(self),
                ) && !(all_mapped(old(self).imap(), reads@) && all_mapped(
                    old(self).imap(),
                    writes@,
                )),
            },
    {
        let mut rlist: Vec<usize> = Vec::new();
        let mut j: usize = 0;
        while j < reads.len()
            invariant
                j <= reads@.len(),
                rlist@.len() == j,
                forall|p: int|
                    0 <= p < j ==> old(self).imap().dom().contains(#[trigger] reads@[p]),
                forall|p: int|
                    0 <= p < j ==> #[trigger] rlist@[p] == old(self).imap()[reads@[p]],
                *self == *old(self),
            decreases reads@.len() - j,
        {
            match self.resource_id_mappings.get(reads[j]) {
                Some(idr) => rlist.push(idr),
                None => {
                    return Err(SchedulerError::UnknownResourceInOneshot);
                },
            }
            j += 1;
        }
        let mut wlist: Vec<usize> = Vec::new();
        let mut j: usize = 0;
        while j < writes.len()
            invariant
                j <= writes@.len(),
                wlist@.len() == j,
                forall|p: int|
                    0 <= p < j ==> old(self).imap().dom().contains(#[trigger] writes@[p]),
                forall|p: int|
                    0 <= p < j ==> #[trigger] wlist@[p] == old(self).imap()[writes@[p]],
                *self == *old(self),
            decreases writes@.len() - j,
        {
            match self.resource_id_mappings.get(writes[j]) {
                Some(idw) => wlist.push(idw),
                None => {
                    return Err(SchedulerError::UnknownResourceInOneshot);
                },
            }
            j += 1;
        }
        let id = self.temp_system_id_counter;
        self.system_reads.push(rlist);
        self.system_writes.push(wlist);
        self.temp_system_id_counter = self.system_reads.len();
        proof {
            self.lemma_temp_system_restores_wf(*old(self), id);
        }
        Ok(id)
    }

    /// Re-establishes the invariant after one row was appended to each
    /// per-system table.
    proof fn lemma_temp_system_restores_wf(&self, pre: Scheduler, id: usize)
        requires
            pre.wf(),
            same_config(pre, *self),
            self.task_queue == pre.task_queue,
            self.in_flight == pre.in_flight,
            self.running_systems == pre.running_systems,
            self.reads_held@ == pre.reads_held@,
            bitset_view(self.writes_held) == bitset_view(pre.writes_held),
            id == pre.system_reads@.len(),
            self.system_reads@.len() == pre.system_reads@.len() + 1,
            self.system_writes@.len() == pre.system_writes@.len() + 1,
            forall|k: int|
                0 <= k < pre.system_reads@.len() ==> #[trigger] self.system_reads@[k]
                    == pre.system_reads@[k],
            forall|k: int|
                0 <= k < pre.system_writes@.len() ==> #[trigger] self.system_writes@[k]
                    == pre.system_writes@[k],
            forall|j: int|
                0 <= j < self.system_reads@[id as int]@.len()
                    ==> #[trigger] self.system_reads@[id as int]@[j] < pre.n_resources,
            forall|j: int|
                0 <= j < self.system_writes@[id as int]@.len()
                    ==> #[trigger] self.system_writes@[id as int]@[j] < pre.n_resources,
            self.temp_system_id_counter == self.system_reads@.len(),
        ensures
            self.wf(),
    {
        assert(self.stage_reads_v() == pre.stage_reads_v());
        assert(self.stage_writes_v() == pre.stage_writes_v());
        assert(self.stages_v() == pre.stages_v());
        assert forall|k: int, j: int|
            0 <= k < self.sys_reads_v().len() && 0 <= j < self.sys_reads_v()[k].len() implies #[trigger] self.sys_reads_v()[k][j] < self.n_resources as int by {
            if k < pre.system_reads@.len() {
                assert(pre.sys_reads_v()[k][j] < pre.n_resources as int);
                assert(self.sys_reads_v()[k] == pre.sys_reads_v()[k]);
            }
        }
        assert forall|k: int, j: int|
            0 <= k < self.sys_writes_v().len() && 0 <= j < self.sys_writes_v()[k].len() implies #[trigger] self.sys_writes_v()[k][j] < self.n_resources as int by {
            if k < pre.system_writes@.len() {
                assert(pre.sys_writes_v()[k][j] < pre.n_resources as int);
                assert(self.sys_writes_v()[k] == pre.sys_writes_v()[k]);
            }
        }
        assert forall|h: u64| self.imap().dom().contains(h) implies #[trigger] self.imap()[h]
            < self.n_resources by {
            assert(pre.imap()[h] < pre.n_resources);
        }
        assert forall|q: int| 0 <= q < self.task_queue@.len() implies self.spec_task_valid(
            #[trigger] self.task_queue@[q],
        ) by {
            assert(pre.spec_task_valid(pre.task_queue@[q]));
        }
        assert forall|q: int| 0 <= q < self.starting_queue@.len() implies (
        #[trigger] self.starting_queue@[q]) is Stage && self.spec_task_valid(
            self.starting_queue@[q],
        ) by {
            assert(pre.starting_queue@[q] is Stage && pre.spec_task_valid(pre.starting_queue@[q]));
        }
        assert forall|q: int| 0 <= q < self.in_flight@.len() implies self.spec_task_valid(
            #[trigger] self.in_flight@[q],
        ) by {
            assert(pre.spec_task_valid(pre.in_flight@[q]));
        }
        assert forall|q: int| 0 <= q < pre.in_flight@.len() implies {
            &&& self.spec_task_reads(#[trigger] pre.in_flight@[q]) == pre.spec_task_reads(
                pre.in_flight@[q],
            )
            &&& self.spec_task_writes(pre.in_flight@[q]) == pre.spec_task_writes(
                pre.in_flight@[q],
            )
            &&& self.spec_task_weight(pre.in_flight@[q]) == pre.spec_task_weight(
                pre.in_flight@[q],
            )
        } by {
            assert(pre.spec_task_valid(pre.in_flight@[q]));
            match pre.in_flight@[q] {
                Task::Stage(sid) => {},
                Task::Oneshot(oid) => {
                    assert(self.sys_reads_v()[oid as int] == pre.sys_reads_v()[oid as int]);
                    assert(self.sys_writes_v()[oid as int] == pre.sys_writes_v()[oid as int]);
                },
            }
        }
        lemma_ledger_wf_agree(pre, *self);
    }

    /// Removes the temporary systems allocated during a dispatch: the
    /// per-system tables shrink back to the permanent systems and the id
    /// counter is reset.  Called when the queue is drained and nothing is
    /// running.
    pub fn reset_temp_systems(&mut self)
        requires
            old(self).wf(),
            old(self).running_systems == 0,
            old(self).task_queue@.len() == 0,
        ensures
            final(self).wf(),
            same_config(*old(self), *final(self)),
            final(self).task_queue == old(self).task_queue,
            final(self).in_flight == old(self).in_flight,
            final(self).running_systems == 0,
            final(self).reads_held@ == old(self).reads_held@,
            bitset_view(final(self).writes_held) == bitset_view(old(self).writes_held),
            final(self).system_reads@ == old(self).system_reads@.take(
                old(self).original_system_count as int,
            ),
            final(self).system_writes@ == old(self).system_writes@.take(
                old(self).original_system_count as int,
            ),
            final(self).temp_system_id_counter == old(self).original_system_count,
    {
        let n = self.original_system_count;
        self.system_reads.truncate(n);
        self.system_writes.truncate(n);
        self.temp_system_id_counter = n;
        proof {
            assert(old(self).system_reads@.subrange(0, n as int) =~= old(
                self,
            ).system_reads@.take(n as int));
            assert(old(self).system_writes@.subrange(0, n as int) =~= old(
                self,
            ).system_writes@.take(n as int));
            self.lemma_reset_restores_wf(*old(self));
        }
    }

    /// Re-establishes the invariant after the per-system tables were cut
    /// back to the permanent systems: with nothing running, every in-flight
    /// task is an empty stage, which the tables do not describe.
    proof fn lemma_reset_restores_wf(&self, pre: Scheduler)
        requires
            pre.wf(),
            pre.running_systems == 0,
            pre.task_queue@.len() == 0,
            same_config(pre, *self),
            self.task_queue == pre.task_queue,
            self.in_flight == pre.in_flight,
            self.running_systems == 0,
            self.reads_held@ == pre.reads_held@,
            bitset_view(self.writes_held) == bitset_view(pre.writes_held),
            self.system_reads@ == pre.system_reads@.take(pre.original_system_count as int),
            self.system_writes@ == pre.system_writes@.take(pre.original_system_count as int),
            self.temp_system_id_counter == pre.original_system_count,
        ensures
            self.wf(),
    {
        let tasks = pre.in_flight@;
        assert(self.stage_reads_v() == pre.stage_reads_v());
        assert(self.stage_writes_v() == pre.stage_writes_v());
        assert(self.stages_v() == pre.stages_v());

        // With nothing running, every in-flight task is a stage with no
        // systems.
        assert forall|q: int| 0 <= q < tasks.len() implies (#[trigger] tasks[q]) is Stage
            && task_weight(pre.stages_v(), tasks[q]) == 0 by {
            lemma_zero_weight_each(pre.stages_v(), tasks, q);
        }

        assert forall|k: int, j: int|
            0 <= k < self.sys_reads_v().len() && 0 <= j < self.sys_reads_v()[k].len() implies #[trigger] self.sys_reads_v()[k][j] < self.n_resources as int by {
            assert(self.sys_reads_v()[k] == pre.sys_reads_v()[k]);
            assert(pre.sys_reads_v()[k][j] < pre.n_resources as int);
        }
        assert forall|k: int, j: int|
            0 <= k < self.sys_writes_v().len() && 0 <= j < self.sys_writes_v()[k].len() implies #[trigger] self.sys_writes_v()[k][j] < self.n_resources as int by {
            assert(self.sys_writes_v()[k] == pre.sys_writes_v()[k]);
            assert(pre.sys_writes_v()[k][j] < pre.n_resources as int);
        }
        assert forall|h: u64| self.imap().dom().contains(h) implies #[trigger] self.imap()[h]
            < self.n_resources by {
            assert(pre.imap()[h] < pre.n_resources);
        }
        assert forall|q: int| 0 <= q < self.starting_queue@.len() implies self.spec_task_valid(
            #[trigger] self.starting_queue@[q],
        ) by {
            assert(pre.spec_task_valid(pre.starting_queue@[q]));
        }
        assert forall|q: int| 0 <= q < self.in_flight@.len() implies self.spec_task_valid(
            #[trigger] self.in_flight@[q],
        ) by {
            assert(pre.spec_task_valid(pre.in_flight@[q]));
        }
        assert forall|q: int| 0 <= q < tasks.len() implies {
            &&& self.spec_task_reads(#[trigger] tasks[q]) == pre.spec_task_reads(tasks[q])
            &&& self.spec_task_writes(tasks[q]) == pre.spec_task_writes(tasks[q])
            &&& self.spec_task_weight(tasks[q]) == pre.spec_task_weight(tasks[q])
        } by {
            assert(tasks[q] is Stage);
        }
        lemma_ledger_wf_agree(pre, *self);
    }
}


/// Every element of the joined rows lies below `n` when every row's
/// elements do.
pub proof fn lemma_concat_rows_bounded(t: Seq<Seq<usize>>, n: int)
    requires
        forall|k: int, j: int| 0 <= k < t.len() && 0 <= j < t[k].len() ==> #[trigger] t[k][j] < n,
    ensures
        forall|p: int|
            0 <= p < concat_rows(t).len() ==> #[trigger] concat_rows(t)[p] < n,
    decreases t.len(),
{
    if t.len() > 0 {
        lemma_concat_rows_bounded(t.drop_last(), n);
        assert forall|p: int| 0 <= p < concat_rows(t).len() implies #[trigger] concat_rows(
            t,
        )[p] < n by {
            if p < concat_rows(t.drop_last()).len() {
                assert(concat_rows(t)[p] == concat_rows(t.drop_last())[p]);
            } else {
                assert(concat_rows(t)[p] == t.last()[p - concat_rows(t.drop_last()).len()]);
                assert(t[t.len() - 1][p - concat_rows(t.drop_last()).len()] < n);
            }
        }
    }
}

/// The rows of a table, joined in order into one list.
pub open spec fn concat_rows(t: Seq<Seq<usize>>) -> Seq<usize>
    decreases t.len(),
{
    if t.len() == 0 {
        Seq::empty()
    } else {
        concat_rows(t.drop_last()) + t.last()
    }
}

impl Scheduler {
    /// One stage task per stage, in stage order.
    fn create_task_queue(stages: &Vec<Vec<usize>>) -> (q: VecDeque<Task>)
        ensures
            q@.len() == stages@.len(),
            forall|k: int| 0 <= k < stages@.len() ==> #[trigger] q@[k] == Task::Stage(k as usize),
    {
        let mut q: VecDeque<Task> = VecDeque::new();
        let mut k: usize = 0;
        while k < stages.len()
            invariant
                k <= stages@.len(),
                q@.len() == k,
                forall|p: int| 0 <= p < k ==> #[trigger] q@[p] == Task::Stage(p as usize),
            decreases stages@.len() - k,
        {
            q.push_back(Task::Stage(k));
            k += 1;
        }
        q
    }

    /// Builds a scheduler from the given stages.  `stage_sizes[s]` is the
    /// number of systems in stage `s`; `read_deps[k]` and `write_deps[k]`
    /// are the read and write resource handles of the `k`-th system in
    /// flattened order over stages.  Handles are interned to consecutive
    /// internal ids, walking all reads and then all writes; each stage's
    /// lists are the concatenation of its systems' lists.
    ///
    /// The caller guarantees, as the stage builder's contract, that no two
    /// systems inside one stage conflict; the scheduler does not check it.
    #[verifier::loop_isolation(false)]
    pub fn new(stage_sizes: Vec<usize>, read_deps: Vec<Vec<u64>>, write_deps: Vec<Vec<u64>>) -> (r:
        Scheduler)
        requires
            read_deps@.len() == write_deps@.len(),
            sum_of(stage_sizes@) == read_deps@.len(),
        ensures
            r.wf(),
            r.task_queue@.len() == 0,
            r.in_flight@.len() == 0,
            r.running_systems == 0,
            r.original_system_count == read_deps@.len(),
            r.temp_system_id_counter == read_deps@.len(),
            r.system_reads@.len() == read_deps@.len(),
            r.system_writes@.len() == read_deps@.len(),
            r.n_resources == r.imap().dom().len(),
            r.reads_held@.len() == r.n_resources,
            forall|i: int| 0 <= i < r.n_resources ==> r.reads_held@[i] == 0,
            forall|x: usize| !r.wview().contains(x),
            forall|h1: u64, h2: u64|
                r.imap().dom().contains(h1) && r.imap().dom().contains(h2) && h1 != h2
                    ==> r.imap()[h1] != r.imap()[h2],
            forall|k: int|
                0 <= k < read_deps@.len() ==> #[trigger] r.sys_reads_v()[k].len()
                    == read_deps@[k]@.len(),
            forall|k: int, j: int|
                0 <= k < read_deps@.len() && 0 <= j < read_deps@[k]@.len() ==> r.imap(
                ).dom().contains(#[trigger] read_deps@[k]@[j]) && r.sys_reads_v()[k][j] == r.imap()[
                    read_deps@[k]@[j]
                ],
            forall|k: int|
                0 <= k < write_deps@.len() ==> #[trigger] r.sys_writes_v()[k].len()
                    == write_deps@[k]@.len(),
            forall|k: int, j: int|
                0 <= k < write_deps@.len() && 0 <= j < write_deps@[k]@.len() ==> r.imap(
                ).dom().contains(#[trigger] write_deps@[k]@[j]) && r.sys_writes_v()[k][j]
                    == r.imap()[write_deps@[k]@[j]],
            r.stages@.len() == stage_sizes@.len(),
            r.starting_queue@.len() == stage_sizes@.len(),
            forall|s: int|
                0 <= s < stage_sizes@.len() ==> #[trigger] r.starting_queue@[s] == Task::Stage(
                    s as usize,
                ),
            forall|s: int|
                0 <= s < stage_sizes@.len() ==> #[trigger] r.stages_v()[s].len()
                    == stage_sizes@[s],
            forall|s: int, m: int|
                0 <= s < stage_sizes@.len() && 0 <= m < stage_sizes@[s]
                    ==> #[trigger] r.stages_v()[s][m] == sum_of(stage_sizes@.take(s)) + m,
            forall|s: int|
                0 <= s < stage_sizes@.len() ==> #[trigger] r.stage_reads_v()[s] == concat_rows(
                    Seq::new(
                        stage_sizes@[s] as nat,
                        |m: int| r.sys_reads_v()[sum_of(stage_sizes@.take(s)) + m],
                    ),
                ),
            forall|s: int|
                0 <= s < stage_sizes@.len() ==> #[trigger] r.stage_writes_v()[s] == concat_rows(
                    Seq::new(
                        stage_sizes@[s] as nat,
                        |m: int| r.sys_writes_v()[sum_of(stage_sizes@.take(s)) + m],
                    ),
                ),
    {
        // Assign consecutive internal ids to resource handles: all declared
        // reads first, then all declared writes.
        let mut mappings = interner_new();
        let mut counter: usize = 0;
        let mut k: usize = 0;
        while k < read_deps.len()
            invariant
                k <= read_deps@.len(),
                interner_view(mappings).dom().finite(),
                counter == interner_view(mappings).dom().len(),
                forall|h: u64|
                    interner_view(mappings).dom().contains(h) ==> #[trigger] interner_view(
                        mappings,
                    )[h] < counter,
                forall|h1: u64, h2: u64|
                    interner_view(mappings).dom().contains(h1) && interner_view(
                        mappings,
                    ).dom().contains(h2) && h1 != h2 ==> interner_view(mappings)[h1]
                        != interner_view(mappings)[h2],
                forall|a: int, b: int|
                    0 <= a < k && 0 <= b < read_deps@[a]@.len() ==> interner_view(
                        mappings,
                    ).dom().contains(#[trigger] read_deps@[a]@[b]),
            decreases read_deps@.len() - k,
        {
            let row_len = read_deps[k].len();
            let mut j: usize = 0;
            while j < row_len
                invariant
                    j <= read_deps@[k as int]@.len(),
                    row_len == read_deps@[k as int]@.len(),
                    k < read_deps@.len(),
                    interner_view(mappings).dom().finite(),
                    counter == interner_view(mappings).dom().len(),
                    forall|h: u64|
                        interner_view(mappings).dom().contains(h) ==> #[trigger] interner_view(
                            mappings,
                        )[h] < counter,
                    forall|h1: u64, h2: u64|
                        interner_view(mappings).dom().contains(h1) && interner_view(
                            mappings,
                        ).dom().contains(h2) && h1 != h2 ==> interner_view(mappings)[h1]
                            != interner_view(mappings)[h2],
                    forall|a: int, b: int|
                        0 <= a < k && 0 <= b < read_deps@[a]@.len() ==> interner_view(
                            mappings,
                        ).dom().contains(#[trigger] read_deps@[a]@[b]),
                    forall|b: int|
                        0 <= b < j ==> interner_view(mappings).dom().contains(
                            #[trigger] read_deps@[k as int]@[b],
                        ),
                decreases read_deps@[k as int]@.len() - j,
            {
                let h = read_deps[k][j];
                if !mappings.contains_key(h) {
                    mappings.insert(h, counter);
                    counter = mappings.len();
                }
                j += 1;
            }
            k += 1;
        }
        let mut k: usize = 0;
        while k < write_deps.len()
            invariant
                k <= write_deps@.len(),
                interner_view(mappings).dom().finite(),
                counter == interner_view(mappings).dom().len(),
                forall|h: u64|
                    interner_view(mappings).dom().contains(h) ==> #[trigger] interner_view(
                        mappings,
                    )[h] < counter,
                forall|h1: u64, h2: u64|
                    interner_view(mappings).dom().contains(h1) && interner_view(
                        mappings,
                    ).dom().contains(h2) && h1 != h2 ==> interner_view(mappings)[h1]
                        != interner_view(mappings)[h2],
                forall|a: int, b: int|
                    0 <= a < read_deps@.len() && 0 <= b < read_deps@[a]@.len() ==> interner_view(
                        mappings,
                    ).dom().contains(#[trigger] read_deps@[a]@[b]),
                forall|a: int, b: int|
                    0 <= a < k && 0 <= b < write_deps@[a]@.len() ==> interner_view(
                        mappings,
                    ).dom().contains(#[trigger] write_deps@[a]@[b]),
            decreases write_deps@.len() - k,
        {
            let row_len = write_deps[k].len();
            let mut j: usize = 0;
            while j < row_len
                invariant
                    j <= write_deps@[k as int]@.len(),
                    row_len == write_deps@[k as int]@.len(),
                    k < write_deps@.len(),
                    interner_view(mappings).dom().finite(),
                    counter == interner_view(mappings).dom().len(),
                    forall|h: u64|
                        interner_view(mappings).dom().contains(h) ==> #[trigger] interner_view(
                            mappings,
                        )[h] < counter,
                    forall|h1: u64, h2: u64|
                        interner_view(mappings).dom().contains(h1) && interner_view(
                            mappings,
                        ).dom().contains(h2) && h1 != h2 ==> interner_view(mappings)[h1]
                            != interner_view(mappings)[h2],
                    forall|a: int, b: int|
                        0 <= a < read_deps@.len() && 0 <= b < read_deps@[a]@.len()
                            ==> interner_view(mappings).dom().contains(
                            #[trigger] read_deps@[a]@[b],
                        ),
                    forall|a: int, b: int|
                        0 <= a < k && 0 <= b < write_deps@[a]@.len() ==> interner_view(
                            mappings,
                        ).dom().contains(#[trigger] write_deps@[a]@[b]),
                    forall|b: int|
                        0 <= b < j ==> interner_view(mappings).dom().contains(
                            #[trigger] write_deps@[k as int]@[b],
                        ),
                decreases write_deps@[k as int]@.len() - j,
            {
                let h = write_deps[k][j];
                if !mappings.contains_key(h) {
                    mappings.insert(h, counter);
                    counter = mappings.len();
                }
                j += 1;
            }
            k += 1;
        }
        let n_resources = counter;

        // Intern each system's read and write lists.
        let total = read_deps.len();
        let mut system_reads: Vec<Vec<usize>> = Vec::new();
        let mut k: usize = 0;
        while k < total
            invariant
                k <= read_deps@.len(),
                total == read_deps@.len(),
                system_reads@.len() == k,
                forall|a: int, b: int|
                    0 <= a < read_deps@.len() && 0 <= b < read_deps@[a]@.len() ==> interner_view(
                        mappings,
                    ).dom().contains(#[trigger] read_deps@[a]@[b]),
                forall|h: u64|
                    interner_view(mappings).dom().contains(h) ==> #[trigger] interner_view(
                        mappings,
                    )[h] < n_resources,
                forall|a: int|
                    0 <= a < k ==> #[trigger] system_reads@[a]@.len() == read_deps@[a]@.len(),
                forall|a: int, b: int|
                    0 <= a < k && 0 <= b < read_deps@[a]@.len() ==> #[trigger] system_reads@[a]@[b]
                        == interner_view(mappings)[read_deps@[a]@[b]],
            decreases read_deps@.len() - k,
        {
            let row_len = read_deps[k].len();
            let mut row: Vec<usize> = Vec::new();
            let mut j: usize = 0;
            while j < row_len
                invariant
                    j <= read_deps@[k as int]@.len(),
                    row_len == read_deps@[k as int]@.len(),
                    k < read_deps@.len(),
                    row@.len() == j,
                    forall|a: int, b: int|
                        0 <= a < read_deps@.len() && 0 <= b < read_deps@[a]@.len()
                            ==> interner_view(mappings).dom().contains(
                            #[trigger] read_deps@[a]@[b],
                        ),
                    forall|b: int|
                        0 <= b < j ==> #[trigger] row@[b] == interner_view(mappings)[read_deps@[
                            k as int
                        ]@[b]],
                decreases read_deps@[k as int]@.len() - j,
            {
                let idr = match mappings.get(read_deps[k][j]) {
                    Some(i) => i,
                    None => {
                        proof {
                            assert(false);
                        }
                        0
                    },
                };
                row.push(idr);
                j += 1;
            }
            system_reads.push(row);
            k += 1;
        }
        let mut system_writes: Vec<Vec<usize>> = Vec::new();
        let mut k: usize = 0;
        while k < total
            invariant
                k <= write_deps@.len(),
                total == write_deps@.len(),
                system_writes@.len() == k,
                forall|a: int, b: int|
                    0 <= a < write_deps@.len() && 0 <= b < write_deps@[a]@.len() ==> interner_view(
                        mappings,
                    ).dom().contains(#[trigger] write_deps@[a]@[b]),
                forall|h: u64|
                    interner_view(mappings).dom().contains(h) ==> #[trigger] interner_view(
                        mappings,
                    )[h] < n_resources,
                forall|a: int|
                    0 <= a < k ==> #[trigger] system_writes@[a]@.len() == write_deps@[a]@.len(),
                forall|a: int, b: int|
                    0 <= a < k && 0 <= b < write_deps@[a]@.len()
                        ==> #[trigger] system_writes@[a]@[b] == interner_view(mappings)[write_deps@[
                        a
                    ]@[b]],
            decreases write_deps@.len() - k,
        {
            let row_len = write_deps[k].len();
            let mut row: Vec<usize> = Vec::new();
            let mut j: usize = 0;
            while j < row_len
                invariant
                    j <= write_deps@[k as int]@.len(),
                    row_len == write_deps@[k as int]@.len(),
                    k < write_deps@.len(),
                    row@.len() == j,
                    forall|a: int, b: int|
                        0 <= a < write_deps@.len() && 0 <= b < write_deps@[a]@.len()
                            ==> interner_view(mappings).dom().contains(
                            #[trigger] write_deps@[a]@[b],
                        ),
                    forall|b: int|
                        0 <= b < j ==> #[trigger] row@[b] == interner_view(mappings)[write_deps@[
                            k as int
                        ]@[b]],
                decreases write_deps@[k as int]@.len() - j,
            {
                let idw = match mappings.get(write_deps[k][j]) {
                    Some(i) => i,
                    None => {
                        proof {
                            assert(false);
                        }
                        0
                    },
                };
                row.push(idw);
                j += 1;
            }
            system_writes.push(row);
            k += 1;
        }

        // Group consecutive systems into stages and take each stage's
        // resource lists as the concatenation of its systems' lists.
        let mut stages: Vec<Vec<usize>> = Vec::new();
        let mut stage_reads: Vec<Vec<usize>> = Vec::new();
        let mut stage_writes: Vec<Vec<usize>> = Vec::new();
        let mut base: usize = 0;
        let mut s: usize = 0;
        proof {
            assert(stage_sizes@.take(0) =~= Seq::<usize>::empty());
        }
        while s < stage_sizes.len()
            invariant
                s <= stage_sizes@.len(),
                base == sum_of(stage_sizes@.take(s as int)),
                stages@.len() == s,
                stage_reads@.len() == s,
                stage_writes@.len() == s,
                system_reads@.len() == read_deps@.len(),
                system_writes@.len() == read_deps@.len(),
                forall|p: int|
                    0 <= p < s ==> #[trigger] stages@[p]@.len() == stage_sizes@[p],
                forall|p: int, m: int|
                    0 <= p < s && 0 <= m < stage_sizes@[p] ==> #[trigger] stages@[p]@[m] == sum_of(
                        stage_sizes@.take(p),
                    ) + m,
                forall|p: int|
                    0 <= p < s ==> #[trigger] stage_reads@[p]@ == concat_rows(
                        Seq::new(
                            stage_sizes@[p] as nat,
                            |m: int| tbl(system_reads@)[sum_of(stage_sizes@.take(p)) + m],
                        ),
                    ),
                forall|p: int|
                    0 <= p < s ==> #[trigger] stage_writes@[p]@ == concat_rows(
                        Seq::new(
                            stage_sizes@[p] as nat,
                            |m: int| tbl(system_writes@)[sum_of(stage_sizes@.take(p)) + m],
                        ),
                    ),
            decreases stage_sizes@.len() - s,
        {
            let size = stage_sizes[s];
            proof {
                lemma_sum_take_step(stage_sizes@, s as int);
                lemma_sum_take_le(stage_sizes@, s as int + 1);
            }
            let mut members: Vec<usize> = Vec::new();
            let mut stage_read: Vec<usize> = Vec::new();
            let mut stage_write: Vec<usize> = Vec::new();
            let mut m: usize = 0;
            while m < size
                invariant
                    m <= size,
                    base + size <= read_deps@.len(),
                    system_reads@.len() == read_deps@.len(),
                    system_writes@.len() == read_deps@.len(),
                    members@.len() == m,
                    forall|p: int| 0 <= p < m ==> #[trigger] members@[p] == base + p,
                    stage_read@ == concat_rows(
                        Seq::new(m as nat, |x: int| tbl(system_reads@)[base + x]),
                    ),
                    stage_write@ == concat_rows(
                        Seq::new(m as nat, |x: int| tbl(system_writes@)[base + x]),
                    ),
                decreases size - m,
            {
                members.push(base + m);
                let ghost prev_read = stage_read@;
                let row_len = system_reads[base + m].len();
                let mut j: usize = 0;
                while j < row_len
                    invariant
                        j <= system_reads@[base + m]@.len(),
                        row_len == system_reads@[base + m]@.len(),
                        base + m < system_reads@.len(),
                        stage_read@ == prev_read + system_reads@[base + m]@.take(j as int),
                    decreases row_len - j,
                {
                    let v = system_reads[base + m][j];
                    stage_read.push(v);
                    proof {
                        assert(prev_read + system_reads@[base + m]@.take(j as int + 1)
                            =~= (prev_read + system_reads@[base + m]@.take(j as int)).push(v));
                    }
                    j += 1;
                }
                let ghost prev_write = stage_write@;
                let row_len = system_writes[base + m].len();
                let mut j: usize = 0;
                while j < row_len
                    invariant
                        j <= system_writes@[base + m]@.len(),
                        row_len == system_writes@[base + m]@.len(),
                        base + m < system_writes@.len(),
                        stage_write@ == prev_write + system_writes@[base + m]@.take(j as int),
                    decreases row_len - j,
                {
                    let v = system_writes[base + m][j];
                    stage_write.push(v);
                    proof {
                        assert(prev_write + system_writes@[base + m]@.take(j as int + 1)
                            =~= (prev_write + system_writes@[base + m]@.take(j as int)).push(v));
                    }
                    j += 1;
                }
                proof {
                    let rows = Seq::new(m as nat + 1, |x: int| tbl(system_reads@)[base + x]);
                    assert(rows.drop_last() =~= Seq::new(
                        m as nat,
                        |x: int| tbl(system_reads@)[base + x],
                    ));
                    assert(system_reads@[base + m]@.take(
                        system_reads@[base + m]@.len() as int,
                    ) =~= tbl(system_reads@)[base + m as int]);
                    assert(stage_read@ =~= concat_rows(rows));
                    let wrows = Seq::new(m as nat + 1, |x: int| tbl(system_writes@)[base + x]);
                    assert(wrows.drop_last() =~= Seq::new(
                        m as nat,
                        |x: int| tbl(system_writes@)[base + x],
                    ));
                    assert(system_writes@[base + m]@.take(
                        system_writes@[base + m]@.len() as int,
                    ) =~= tbl(system_writes@)[base + m as int]);
                    assert(stage_write@ =~= concat_rows(wrows));
                }
                m += 1;
            }
            stages.push(members);
            stage_reads.push(stage_read);
            stage_writes.push(stage_write);
            base = base + size;
            s += 1;
        }

        let starting_queue = Self::create_task_queue(&stages);

        // An empty ledger, sized to the interned resources.
        let mut reads_held: Vec<u8> = Vec::new();
        let mut i: usize = 0;
        while i < n_resources
            invariant
                i <= n_resources,
                reads_held@.len() == i,
                forall|p: int| 0 <= p < i ==> #[trigger] reads_held@[p] == 0,
            decreases n_resources - i,
        {
            reads_held.push(0);
            i += 1;
        }
        let writes_held = bitset_with_capacity(n_resources);

        let r = Scheduler {
            task_queue: VecDeque::new(),
            starting_queue,
            running_systems: 0,
            writes_held,
            reads_held,
            resource_id_mappings: mappings,
            n_resources,
            stages,
            system_reads,
            system_writes,
            stage_reads,
            stage_writes,
            original_system_count: total,
            temp_system_id_counter: total,
            in_flight: Vec::new(),
        };
        proof {
            assert forall|k: int, j: int|
                0 <= k < r.sys_reads_v().len() && 0 <= j < r.sys_reads_v()[k].len() implies #[trigger] r.sys_reads_v()[k][j] < r.n_resources as int by {
                assert(r.sys_reads_v()[k][j] == interner_view(r.resource_id_mappings)[read_deps@[
                    k
                ]@[j]]);
            }
            assert forall|k: int, j: int|
                0 <= k < r.sys_writes_v().len() && 0 <= j < r.sys_writes_v()[k].len() implies #[trigger] r.sys_writes_v()[k][j] < r.n_resources as int by {
                assert(r.sys_writes_v()[k][j] == interner_view(r.resource_id_mappings)[write_deps@[
                    k
                ]@[j]]);
            }
            assert forall|k: int, j: int|
                0 <= k < r.stage_reads_v().len() && 0 <= j < r.stage_reads_v()[k].len() implies #[trigger] r.stage_reads_v()[k][j] < r.n_resources as int by {
                let rows = Seq::new(
                    stage_sizes@[k] as nat,
                    |m: int| tbl(system_reads@)[sum_of(stage_sizes@.take(k)) + m],
                );
                assert(r.stage_reads_v()[k] == concat_rows(rows));
                assert forall|a: int, b: int|
                    0 <= a < rows.len() && 0 <= b < rows[a].len() implies #[trigger] rows[a][b]
                        < r.n_resources as int by {
                    lemma_sum_take_step(stage_sizes@, k);
                    lemma_sum_take_le(stage_sizes@, k + 1);
                    assert(rows[a] == r.sys_reads_v()[sum_of(stage_sizes@.take(k)) + a]);
                }
                lemma_concat_rows_bounded(rows, r.n_resources as int);
            }
            assert forall|k: int, j: int|
                0 <= k < r.stage_writes_v().len() && 0 <= j < r.stage_writes_v()[k].len() implies #[trigger] r.stage_writes_v()[k][j] < r.n_resources as int by {
                let rows = Seq::new(
                    stage_sizes@[k] as nat,
                    |m: int| tbl(system_writes@)[sum_of(stage_sizes@.take(k)) + m],
                );
                assert(r.stage_writes_v()[k] == concat_rows(rows));
                assert forall|a: int, b: int|
                    0 <= a < rows.len() && 0 <= b < rows[a].len() implies #[trigger] rows[a][b]
                        < r.n_resources as int by {
                    lemma_sum_take_step(stage_sizes@, k);
                    lemma_sum_take_le(stage_sizes@, k + 1);
                    assert(rows[a] == r.sys_writes_v()[sum_of(stage_sizes@.take(k)) + a]);
                }
                lemma_concat_rows_bounded(rows, r.n_resources as int);
            }
            r.lemma_new_wf(read_deps@.len() as int);
        }
        r
    }

    /// A freshly built scheduler with an empty ledger, empty queue and
    /// nothing in flight satisfies the invariant, given the structural
    /// facts its construction establishes.
    proof fn lemma_new_wf(&self, total: int)
        requires
            self.task_queue@.len() == 0,
            self.in_flight@.len() == 0,
            self.running_systems == 0,
            self.reads_held@.len() == self.n_resources,
            forall|i: int| 0 <= i < self.n_resources ==> #[trigger] self.reads_held@[i] == 0,
            forall|x: usize| !self.wview().contains(x),
            self.stages@.len() == self.stage_reads@.len(),
            self.stages@.len() == self.stage_writes@.len(),
            self.system_reads@.len() == total,
            self.system_writes@.len() == total,
            self.temp_system_id_counter == total,
            self.original_system_count == total,
            forall|h: u64|
                self.imap().dom().contains(h) ==> #[trigger] self.imap()[h] < self.n_resources,
            ids_bounded(self.sys_reads_v(), self.n_resources as int),
            ids_bounded(self.sys_writes_v(), self.n_resources as int),
            ids_bounded(self.stage_reads_v(), self.n_resources as int),
            ids_bounded(self.stage_writes_v(), self.n_resources as int),
            forall|k: int|
                0 <= k < self.stages@.len() && (#[trigger] self.stages@[k])@.len() == 0
                    ==> self.stage_reads@[k]@.len() == 0 && self.stage_writes@[k]@.len() == 0,
            forall|q: int|
                0 <= q < self.starting_queue@.len() ==> (#[trigger] self.starting_queue@[q])
                    is Stage && self.spec_task_valid(self.starting_queue@[q]),
        ensures
            self.wf(),
    {
        assert forall|i: int| 0 <= i < self.n_resources implies #[trigger] self.reads_held@[i]
            == total_reads(self.stage_reads_v(), self.sys_reads_v(), self.in_flight@, i) by {}
    }
}

} // verus!

