use tonks::ledger::bitset_is_empty;
use tonks::scheduler::Scheduler;
use tonks::task::{Action, Context, ExecutionStrategy, SchedulerError, Task, TaskMessage};

fn assert_send_sync<T: Send + Sync>() {}

#[test]
fn check_scheduler_traits() {
    assert_send_sync::<Scheduler>();
}

fn ledger_is_empty(s: &Scheduler) -> bool {
    bitset_is_empty(&s.writes_held) && s.reads_held.iter().all(|&c| c == 0)
}

/// Two stages, each one system writing the same resource: they serialize.
#[test]
fn strict_serialization_via_shared_write() {
    let x = 7u64;
    let mut s = Scheduler::new(vec![1, 1], vec![vec![], vec![]], vec![vec![x], vec![x]]);
    s.start_dispatch();
    assert_eq!(s.next_action(), Action::DispatchStage(0));
    // Stage 1 conflicts on `x` while stage 0 runs.
    assert_eq!(s.next_action(), Action::Wait);
    assert_eq!(s.handle_message(TaskMessage::StageComplete(0)), Ok(1));
    assert_eq!(s.next_action(), Action::DispatchStage(1));
    assert_eq!(s.next_action(), Action::Wait);
    assert_eq!(s.handle_message(TaskMessage::StageComplete(1)), Ok(1));
    assert_eq!(s.next_action(), Action::Done);
    s.reset_temp_systems();
    assert!(ledger_is_empty(&s));
}

/// Stages writing different resources run in parallel.
#[test]
fn parallel_stages() {
    let mut s = Scheduler::new(vec![1, 1], vec![vec![], vec![]], vec![vec![1], vec![2]]);
    s.start_dispatch();
    assert_eq!(s.next_action(), Action::DispatchStage(0));
    assert_eq!(s.next_action(), Action::DispatchStage(1));
    assert_eq!(s.running_systems, 2);
    assert_eq!(s.handle_message(TaskMessage::StageComplete(1)), Ok(1));
    assert_eq!(s.handle_message(TaskMessage::StageComplete(0)), Ok(1));
    assert_eq!(s.next_action(), Action::Done);
    assert!(ledger_is_empty(&s));
}

/// Three systems of one stage all read the same resource: the counter
/// peaks at three and returns to zero.
#[test]
fn read_sharing() {
    let a = 11u64;
    let mut s = Scheduler::new(
        vec![3],
        vec![vec![a], vec![a], vec![a]],
        vec![vec![], vec![], vec![]],
    );
    s.start_dispatch();
    assert_eq!(s.next_action(), Action::DispatchStage(0));
    // `a` is the first interned handle, so its internal id is 0.
    assert_eq!(s.reads_held[0], 3);
    assert_eq!(s.handle_message(TaskMessage::StageComplete(0)), Ok(3));
    assert_eq!(s.reads_held[0], 0);
    assert_eq!(s.next_action(), Action::Done);
}

/// A stage writing a resource waits for the stage reading it.
#[test]
fn read_write_blocks() {
    let a = 3u64;
    let mut s = Scheduler::new(vec![1, 1], vec![vec![a], vec![]], vec![vec![], vec![a]]);
    s.start_dispatch();
    assert_eq!(s.next_action(), Action::DispatchStage(0));
    assert_eq!(s.next_action(), Action::Wait);
    assert_eq!(s.handle_message(TaskMessage::StageComplete(0)), Ok(1));
    assert_eq!(s.next_action(), Action::DispatchStage(1));
    assert_eq!(s.handle_message(TaskMessage::StageComplete(1)), Ok(1));
    assert_eq!(s.next_action(), Action::Done);
}

/// A oneshot scheduled during the dispatch runs within it, and the
/// temporary system is gone afterwards.
#[test]
fn oneshot_appended() {
    let a = 5u64;
    let mut s = Scheduler::new(vec![1], vec![vec![a]], vec![vec![]]);
    s.start_dispatch();
    assert_eq!(s.next_action(), Action::DispatchStage(0));
    // The running system asks for a oneshot that writes `a`.
    assert_eq!(
        s.handle_message(TaskMessage::ScheduleOneshot {
            scheduling_system: 0,
            reads: vec![],
            writes: vec![a],
            strategy: ExecutionStrategy::Relaxed,
        }),
        Ok(0)
    );
    assert_eq!(s.system_reads.len(), 2);
    // The oneshot conflicts with the still-running reader of `a`.
    assert_eq!(s.next_action(), Action::Wait);
    assert_eq!(s.handle_message(TaskMessage::StageComplete(0)), Ok(1));
    assert_eq!(s.next_action(), Action::DispatchOneshot(1));
    assert_eq!(s.handle_message(TaskMessage::SystemComplete(1)), Ok(1));
    assert_eq!(s.next_action(), Action::Done);
    s.reset_temp_systems();
    assert_eq!(s.system_reads.len(), 1);
    assert_eq!(s.system_writes.len(), 1);
    assert!(ledger_is_empty(&s));
}

/// Three stages writing one resource all serialize and all complete.
#[test]
fn starvation_avoidance() {
    let z = 9u64;
    let mut s = Scheduler::new(
        vec![1, 1, 1],
        vec![vec![], vec![], vec![]],
        vec![vec![z], vec![z], vec![z]],
    );
    s.start_dispatch();
    let mut completions = 0usize;
    let mut dispatched = Vec::new();
    loop {
        match s.next_action() {
            Action::DispatchStage(id) => dispatched.push(id),
            Action::DispatchOneshot(_) => panic!("no oneshots were scheduled"),
            Action::Wait => {
                let id = *dispatched.last().unwrap();
                completions += s.handle_message(TaskMessage::StageComplete(id)).unwrap();
            }
            Action::Done => break,
        }
    }
    assert_eq!(dispatched, vec![0, 1, 2]);
    assert_eq!(completions, 3);
    assert!(ledger_is_empty(&s));
}

/// Two dispatches without oneshots behave the same both times.
#[test]
fn execute_twice_same_counts() {
    let mut s = Scheduler::new(vec![1, 1], vec![vec![], vec![]], vec![vec![1], vec![2]]);
    for _ in 0..2 {
        s.start_dispatch();
        let mut dispatched = Vec::new();
        loop {
            match s.next_action() {
                Action::DispatchStage(id) => dispatched.push(id),
                Action::DispatchOneshot(_) => panic!("no oneshots were scheduled"),
                Action::Wait => {
                    let id = dispatched[dispatched.len() - s.running_systems];
                    s.handle_message(TaskMessage::StageComplete(id)).unwrap();
                }
                Action::Done => break,
            }
        }
        while s.running_systems > 0 {
            panic!("drained loop left systems running");
        }
        assert_eq!(dispatched, vec![0, 1]);
        s.reset_temp_systems();
        assert_eq!(s.system_reads.len(), 2);
        assert!(ledger_is_empty(&s));
    }
}

/// A dispatch with no stages and no oneshots does nothing.
#[test]
fn empty_dispatch_is_noop() {
    let mut s = Scheduler::new(vec![], vec![], vec![]);
    s.start_dispatch();
    assert_eq!(s.next_action(), Action::Done);
    s.reset_temp_systems();
    assert_eq!(s.system_reads.len(), 0);
    assert_eq!(s.running_systems, 0);
}

/// An empty stage is still dispatched (its completion message is owed)
/// but the running-system count does not rise.
#[test]
fn empty_stage_dispatches_once() {
    let mut s = Scheduler::new(vec![0], vec![], vec![]);
    s.start_dispatch();
    assert_eq!(s.next_action(), Action::DispatchStage(0));
    assert_eq!(s.running_systems, 0);
    assert_eq!(s.handle_message(TaskMessage::StageComplete(0)), Ok(0));
    assert_eq!(s.next_action(), Action::Done);
}

/// A stage disjoint from everything else is eligible immediately.
#[test]
fn disjoint_stage_runs_in_parallel() {
    let mut s = Scheduler::new(
        vec![1, 1, 1],
        vec![vec![1], vec![], vec![1]],
        vec![vec![], vec![2], vec![]],
    );
    s.start_dispatch();
    assert_eq!(s.next_action(), Action::DispatchStage(0));
    assert_eq!(s.next_action(), Action::DispatchStage(1));
    assert_eq!(s.next_action(), Action::DispatchStage(2));
    assert_eq!(s.handle_message(TaskMessage::StageComplete(0)), Ok(1));
    assert_eq!(s.handle_message(TaskMessage::StageComplete(2)), Ok(1));
    assert_eq!(s.handle_message(TaskMessage::StageComplete(1)), Ok(1));
    assert_eq!(s.next_action(), Action::Done);
}

/// Oneshots from one producer are dequeued in the order they were sent.
#[test]
fn oneshot_fan_in_order() {
    let mut s = Scheduler::new(vec![1], vec![vec![1]], vec![vec![]]);
    s.start_dispatch();
    assert_eq!(s.next_action(), Action::DispatchStage(0));
    for _ in 0..3 {
        assert_eq!(
            s.handle_message(TaskMessage::ScheduleOneshot {
                scheduling_system: 0,
                reads: vec![1],
                writes: vec![],
                strategy: ExecutionStrategy::Relaxed,
            }),
            Ok(0)
        );
    }
    assert_eq!(s.handle_message(TaskMessage::StageComplete(0)), Ok(1));
    assert_eq!(s.next_action(), Action::DispatchOneshot(1));
    assert_eq!(s.next_action(), Action::DispatchOneshot(2));
    assert_eq!(s.next_action(), Action::DispatchOneshot(3));
    for id in 1..=3 {
        assert_eq!(s.handle_message(TaskMessage::SystemComplete(id)), Ok(1));
    }
    assert_eq!(s.next_action(), Action::Done);
    s.reset_temp_systems();
    assert_eq!(s.system_reads.len(), 1);
}

/// Completions observed over a dispatch add up to the permanent systems
/// plus the temporaries created during it.
#[test]
fn completion_counting() {
    let mut s = Scheduler::new(vec![2], vec![vec![1], vec![2]], vec![vec![], vec![]]);
    s.start_dispatch();
    assert_eq!(s.next_action(), Action::DispatchStage(0));
    assert_eq!(
        s.handle_message(TaskMessage::ScheduleOneshot {
            scheduling_system: 0,
            reads: vec![2],
            writes: vec![],
            strategy: ExecutionStrategy::Relaxed,
        }),
        Ok(0)
    );
    let mut completions = 0usize;
    completions += s.handle_message(TaskMessage::StageComplete(0)).unwrap();
    assert_eq!(s.next_action(), Action::DispatchOneshot(2));
    completions += s.handle_message(TaskMessage::SystemComplete(2)).unwrap();
    assert_eq!(s.next_action(), Action::Done);
    // Two permanent systems plus one temporary.
    assert_eq!(completions, 3);
}

/// A completion message for a task that is not in flight is refused.
#[test]
fn unexpected_completion_is_refused() {
    let mut s = Scheduler::new(vec![1], vec![vec![1]], vec![vec![]]);
    s.start_dispatch();
    assert_eq!(
        s.handle_message(TaskMessage::StageComplete(0)),
        Err(SchedulerError::UnexpectedCompletion)
    );
    assert_eq!(
        s.handle_message(TaskMessage::SystemComplete(0)),
        Err(SchedulerError::UnexpectedCompletion)
    );
}

/// A oneshot naming a handle that was never interned is refused.
#[test]
fn unknown_resource_in_oneshot_is_refused() {
    let mut s = Scheduler::new(vec![1], vec![vec![1]], vec![vec![]]);
    s.start_dispatch();
    assert_eq!(s.next_action(), Action::DispatchStage(0));
    assert_eq!(
        s.handle_message(TaskMessage::ScheduleOneshot {
            scheduling_system: 0,
            reads: vec![99],
            writes: vec![],
            strategy: ExecutionStrategy::Relaxed,
        }),
        Err(SchedulerError::UnknownResourceInOneshot)
    );
    // Nothing changed: the stage still completes normally.
    assert_eq!(s.system_reads.len(), 1);
    assert_eq!(s.handle_message(TaskMessage::StageComplete(0)), Ok(1));
    assert_eq!(s.next_action(), Action::Done);
}

/// The interner assigns ids in reads-then-writes walking order, so the
/// stage tables name the expected internal ids.
#[test]
fn interner_assigns_dense_ids() {
    let s = Scheduler::new(
        vec![2],
        vec![vec![10, 20], vec![20]],
        vec![vec![30], vec![10]],
    );
    // 10 -> 0, 20 -> 1, 30 -> 2.
    assert_eq!(s.n_resources, 3);
    assert_eq!(s.system_reads[0], vec![0, 1]);
    assert_eq!(s.system_reads[1], vec![1]);
    assert_eq!(s.system_writes[0], vec![2]);
    assert_eq!(s.system_writes[1], vec![0]);
    assert_eq!(s.stage_reads[0], vec![0, 1, 1]);
    assert_eq!(s.stage_writes[0], vec![2, 0]);
    assert_eq!(s.stages[0], vec![0, 1]);
    assert_eq!(s.starting_queue[0], Task::Stage(0));
}

/// The context handed to a running system carries its id.
#[test]
fn context_carries_id() {
    let ctx = Context { id: 4 };
    assert_eq!(ctx.id, 4);
}
