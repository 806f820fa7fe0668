//! Scheduler-wide guarantees, stated and proved against the invariant.

use vstd::prelude::*;

use crate::counting::occ;
use crate::ledger::can_acquire;
use crate::scheduler::{
    lemma_totals_zero, lemma_zero_weight_each, task_resources, total_reads, writer_count, Scheduler,
};
use crate::task::Task;

verus! {

/// No conflicts: when some in-flight task writes a resource, no other
/// in-flight task reads or writes that resource.  In particular at most
/// one in-flight task writes it.
pub proof fn law_no_conflicts(s: Scheduler, a: int, b: int, x: int)
    requires
        s.wf(),
        0 <= a < s.in_flight@.len(),
        0 <= b < s.in_flight@.len(),
        a != b,
        occ(s.spec_task_writes(s.in_flight@[a]), x) > 0,
    ensures
        occ(s.spec_task_writes(s.in_flight@[b]), x) == 0,
        occ(s.spec_task_reads(s.in_flight@[b]), x) == 0,
{
    assert(crate::scheduler::no_conflict(
        s.spec_task_writes(s.in_flight@[a]),
        s.spec_task_reads(s.in_flight@[b]),
        s.spec_task_writes(s.in_flight@[b]),
    ));
}

/// Accounting: when no systems are running, every read counter is zero
/// and no resource is write-held — every acquire was matched by a
/// release.
pub proof fn law_ledger_empty_when_done(s: Scheduler)
    requires
        s.wf(),
        s.running_systems == 0,
    ensures
        forall|i: int| 0 <= i < s.reads_held@.len() ==> #[trigger] s.reads_held@[i] == 0,
        forall|x: usize| !s.wview().contains(x),
{
    // With nothing running, every in-flight task is a stage with no
    // systems, which holds no resources.
    assert forall|i: int| 0 <= i < s.reads_held@.len() implies #[trigger] s.reads_held@[i]
        == 0 by {
        assert forall|q: int| 0 <= q < s.in_flight@.len() implies occ(
            task_resources(s.stage_reads_v(), s.sys_reads_v(), #[trigger] s.in_flight@[q]),
            i,
        ) == 0 by {
            lemma_zero_weight_each(s.stages_v(), s.in_flight@, q);
            assert(s.spec_task_valid(s.in_flight@[q]));
        }
        lemma_totals_zero(s.stage_reads_v(), s.sys_reads_v(), s.in_flight@, i);
    }
    assert forall|x: usize| !s.wview().contains(x) by {
        assert forall|q: int| 0 <= q < s.in_flight@.len() implies occ(
            task_resources(s.stage_writes_v(), s.sys_writes_v(), #[trigger] s.in_flight@[q]),
            x as int,
        ) == 0 by {
            lemma_zero_weight_each(s.stages_v(), s.in_flight@, q);
            assert(s.spec_task_valid(s.in_flight@[q]));
        }
        lemma_totals_zero(s.stage_writes_v(), s.sys_writes_v(), s.in_flight@, x as int);
    }
}

/// Progress: when a task that does not repeat one resource more than 255
/// times in its read list fails to acquire, some task is in flight, so a
/// completion message is owed and waiting on the channel cannot deadlock.
pub proof fn law_progress(s: Scheduler, t: Task)
    requires
        s.wf(),
        s.spec_task_valid(t),
        !can_acquire(s.spec_task_reads(t), s.spec_task_writes(t), s.reads_held@, s.wview()),
        forall|x: int| occ(s.spec_task_reads(t), x) <= 255,
    ensures
        s.in_flight@.len() > 0,
{
    if s.in_flight@.len() == 0 {
        let reads = s.spec_task_reads(t);
        let writes = s.spec_task_writes(t);
        assert forall|j: int| 0 <= j < reads.len() implies !s.wview().contains(
            #[trigger] reads[j],
        ) by {
            assert(writer_count(s.stage_writes_v(), s.sys_writes_v(), s.in_flight@, reads[j] as int)
                == 0);
        }
        assert forall|j: int| 0 <= j < writes.len() implies !s.wview().contains(
            #[trigger] writes[j],
        ) && s.reads_held@[(writes[j]) as int] == 0 by {
            assert(writer_count(
                s.stage_writes_v(),
                s.sys_writes_v(),
                s.in_flight@,
                writes[j] as int,
            ) == 0);
            assert(total_reads(s.stage_reads_v(), s.sys_reads_v(), s.in_flight@, writes[j] as int)
                == 0);
        }
        assert forall|j: int| 0 <= j < reads.len() implies s.reads_held@[(
        #[trigger] reads[j]) as int] + occ(reads, reads[j] as int) <= 255 by {
            assert(total_reads(s.stage_reads_v(), s.sys_reads_v(), s.in_flight@, reads[j] as int)
                == 0);
        }
        assert(can_acquire(reads, writes, s.reads_held@, s.wview()));
    }
}

/// Parallel eligibility: a task none of whose resources is currently
/// held may acquire all of them at once, whatever else is in flight.
pub proof fn law_disjoint_acquires(s: Scheduler, t: Task)
    requires
        s.wf(),
        s.spec_task_valid(t),
        forall|j: int|
            0 <= j < s.spec_task_reads(t).len() ==> !s.wview().contains(
                #[trigger] s.spec_task_reads(t)[j],
            ) && s.reads_held@[(s.spec_task_reads(t)[j]) as int] == 0,
        forall|j: int|
            0 <= j < s.spec_task_writes(t).len() ==> !s.wview().contains(
                #[trigger] s.spec_task_writes(t)[j],
            ) && s.reads_held@[(s.spec_task_writes(t)[j]) as int] == 0,
        forall|x: int| occ(s.spec_task_reads(t), x) <= 255,
    ensures
        can_acquire(s.spec_task_reads(t), s.spec_task_writes(t), s.reads_held@, s.wview()),
{
}

} // verus!
