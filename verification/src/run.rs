//! Runs: what holds over a whole history of the scheduler.
//!
//! A run is a sequence of events, each of which is one call of the scheduler. The
//! laws here speak of any run, of any length: what the exit code of a process is
//! at every point of it, and that a run to completion leaves nobody behind.

use crate::coroutine::{exit_code_of_function, CoroView, VPid};
use crate::executor::{
    kids_without, law_first_live_is_next, lemma_contains_index, lemma_next_up_live,
    lemma_picked_keeps, lemma_queued_keeps,
    ExecutorView, Step,
};
use vstd::prelude::*;

verus! {

/// One event in the life of a scheduler.
pub enum RunEvent {
    /// A process is created at the end of the queue.
    Spawn,
    /// A process is created at the front of the queue.
    SpawnFront,
    /// A process is created to run a loaded program on the given stack.
    SpawnElf(usize, usize),
    /// A process forks.
    Fork(VPid),
    /// A scheduling step from inside a process.
    Step,
    /// The current process gives up its turn.
    Yield,
    /// A scheduling step of the driver.
    DriverStep,
    /// A step of a run to completion.
    BlockStep,
    /// A process gives control back to the driver; whether it ran to its end.
    DriverDone(VPid, bool),
    /// A process gives control back in a run to completion.
    BlockDone(VPid, bool),
    /// A process gives control back.
    Back(VPid, bool),
    /// The current process exits with a code.
    Exit(i32),
    /// The function of the current process is over: whether it panicked.
    FunctionOver(bool),
    /// The current process waits for descriptors; whether it polls pipes besides.
    Wait(Seq<(i32, i16)>, bool),
    /// What a process waits for is ready.
    Wake(VPid),
    /// A signal for a process is queued.
    Signal(VPid, i32),
    /// What a process is given changes: its strings, mappings, directory, program
    /// or fork marks, but neither its number nor how it lives and ends.
    Equip(VPid, CoroView),
    /// Ended processes are cleaned up.
    Reap,
    /// A child is taken off its parent's list.
    ReapChild(VPid, VPid),
    /// The recorded exit code of a process is forgotten.
    Forget(VPid),
}

/// The scheduler after `event`.
pub open spec fn run_step(ex: ExecutorView, event: RunEvent) -> ExecutorView {
    match event {
        RunEvent::Spawn => ex.registered(CoroView::fresh(ex.next_pid)).queued(ex.next_pid),
        RunEvent::SpawnFront => ExecutorView {
            ready: seq![ex.next_pid] + ex.ready,
            ..ex.registered(CoroView::fresh(ex.next_pid))
        },
        RunEvent::SpawnElf(base, size) => ex.registered(
            CoroView { stack_alloc: Some((base, size)), ..CoroView::fresh(ex.next_pid) },
        ).queued(ex.next_pid),
        RunEvent::Fork(parent) => ex.forked(parent),
        RunEvent::Step => ex.after_step(),
        RunEvent::Yield => ex.yielded().after_step(),
        RunEvent::DriverStep => ex.after_driver_step(),
        RunEvent::BlockStep => after_block_on(ex),
        RunEvent::DriverDone(pid, dead) => ExecutorView {
            current: None,
            ..ex.returned(pid, dead).requeued(pid)
        },
        RunEvent::BlockDone(pid, dead) => block_returned(ex, Some((pid, dead))),
        RunEvent::Back(pid, dead) => ex.returned(pid, dead),
        RunEvent::Exit(code) => ex.exited(code),
        RunEvent::FunctionOver(panicked) => ex.exited(exit_code_of_function(true, panicked)),
        RunEvent::Wait(fds, polls_pipes) => ex.waiting_for(fds, polls_pipes),
        RunEvent::Wake(pid) => ex.woken(pid),
        RunEvent::Signal(pid, sig) => ex.notified(pid, sig),
        RunEvent::Equip(pid, co) => ex.with(pid, co),
        RunEvent::Reap => ex.reaped(),
        RunEvent::ReapChild(parent, child) => if ex.children.contains_key(parent) {
            ExecutorView {
                children: ex.children.insert(parent, kids_without(ex.children[parent], child)),
                ..ex
            }
        } else {
            ex
        },
        RunEvent::Forget(pid) => ExecutorView { exit_codes: ex.exit_codes.remove(pid), ..ex },
    }
}

/// `event` can happen: numbers are left, only a live process exits, and what
/// equips a process leaves its life alone.
pub open spec fn can_happen(ex: ExecutorView, event: RunEvent) -> bool {
    match event {
        RunEvent::Spawn | RunEvent::SpawnFront | RunEvent::SpawnElf(_, _) => ex.next_pid < u32::MAX,
        RunEvent::Fork(parent) => ex.next_pid < u32::MAX && ex.vprocs.contains_key(parent),
        RunEvent::Exit(_) | RunEvent::FunctionOver(_) => ex.current matches Some(pid) && ex.live(
            pid,
        ),
        RunEvent::Equip(pid, co) => {
            &&& ex.vprocs.contains_key(pid)
            &&& co.id == ex.vprocs[pid].id
            &&& co.state == ex.vprocs[pid].state
            &&& co.exit_code == ex.vprocs[pid].exit_code
            &&& co.pending_signals == ex.vprocs[pid].pending_signals
        },
        _ => true,
    }
}

/// The scheduler after `events`, in order.
pub open spec fn run(ex: ExecutorView, events: Seq<RunEvent>) -> ExecutorView
    decreases events.len(),
{
    if events.len() == 0 {
        ex
    } else {
        run_step(run(ex, events.drop_last()), events.last())
    }
}

/// Each of `events` can happen when it comes.
pub open spec fn is_run(ex: ExecutorView, events: Seq<RunEvent>) -> bool
    decreases events.len(),
{
    events.len() > 0 ==> {
        &&& is_run(ex, events.drop_last())
        &&& can_happen(run(ex, events.drop_last()), events.last())
    }
}

/// Process `pid` is left to end by itself: it gets no signal, its exit code is not
/// taken away, and where its context ended without an exit, so that no exit code
/// was recorded, it is not cleaned up.
pub open spec fn left_alone(ex: ExecutorView, events: Seq<RunEvent>, pid: VPid) -> bool
    decreases events.len(),
{
    events.len() > 0 ==> {
        &&& left_alone(ex, events.drop_last(), pid)
        &&& match events.last() {
            RunEvent::Signal(p, _) => p != pid,
            RunEvent::Forget(p) => p != pid,
            RunEvent::Reap => run(ex, events.drop_last()).done(pid) ==> run(
                ex,
                events.drop_last(),
            ).exit_codes.contains_key(pid),
            _ => true,
        }
    }
}

/// The code with which process `pid` ends in the course of `events`, if it does:
/// that of its exit, or 0 where its context ends without one.
pub open spec fn end_in(ex: ExecutorView, events: Seq<RunEvent>, pid: VPid) -> Option<i32>
    decreases events.len(),
{
    if events.len() == 0 {
        None
    } else {
        let before = end_in(ex, events.drop_last(), pid);
        if before is Some {
            before
        } else {
            end_by(run(ex, events.drop_last()), events.last(), pid)
        }
    }
}

/// The code with which `event` ends the live process `pid`, if it does.
pub open spec fn end_by(ex: ExecutorView, event: RunEvent, pid: VPid) -> Option<i32> {
    match event {
        RunEvent::Exit(code) => if ex.current == Some(pid) {
            Some(code)
        } else {
            None
        },
        RunEvent::FunctionOver(panicked) => if ex.current == Some(pid) {
            Some(exit_code_of_function(true, panicked))
        } else {
            None
        },
        RunEvent::DriverDone(p, dead) | RunEvent::BlockDone(p, dead) | RunEvent::Back(p, dead) => if p
            == pid && dead {
            Some(0)
        } else {
            None
        },
        _ => None,
    }
}

/// What is known of process `pid`, which ended with `told` or did not yet.
#[verifier::opaque]
spec fn tells(ex: ExecutorView, pid: VPid, told: Option<i32>) -> bool {
    &&& pid < ex.next_pid
    &&& match told {
        None => {
            &&& ex.live(pid)
            &&& !ex.exit_codes.contains_key(pid)
            &&& ex.vprocs[pid].pending_signals.len() == 0
            &&& ex.vprocs[pid].exit_code == 0
        },
        Some(code) => !ex.live(pid) && ex.exit_code(pid) == Some(code),
    }
}

proof fn lemma_tells_delivered(ex: ExecutorView, other: VPid, pid: VPid, told: Option<i32>)
    requires
        tells(ex, pid, told),
        ex.live(other),
    ensures
        tells(ex.delivered(other), pid, told),
        !ex.doomed(other) ==> tells(ex.delivered(other).dispatched(other), pid, told),
        ex.doomed(other) ==> other != pid,
{
    reveal(tells);
}

proof fn lemma_tells_queue(
    ex: ExecutorView,
    ready: Seq<VPid>,
    current: Option<VPid>,
    pid: VPid,
    told: Option<i32>,
)
    requires
        tells(ex, pid, told),
    ensures
        tells(ExecutorView { ready, current, ..ex }, pid, told),
{
    reveal(tells);
}

proof fn lemma_tells_born(ex: ExecutorView, co: CoroView, pid: VPid, told: Option<i32>)
    requires
        tells(ex, pid, told),
        ex.next_pid < u32::MAX,
    ensures
        tells(ex.registered(co), pid, told),
{
    reveal(tells);
}

proof fn lemma_tells_forked(ex: ExecutorView, parent: VPid, pid: VPid, told: Option<i32>)
    requires
        tells(ex, pid, told),
        ex.next_pid < u32::MAX,
        ex.vprocs.contains_key(parent),
    ensures
        tells(ex.forked(parent), pid, told),
{
    reveal(tells);
}

proof fn lemma_tells_with(ex: ExecutorView, other: VPid, co: CoroView, pid: VPid, told: Option<i32>)
    requires
        tells(ex, pid, told),
        other == pid ==> ex.vprocs.contains_key(pid) && co.is_done() == ex.vprocs[pid].is_done()
            && co.pending_signals == ex.vprocs[pid].pending_signals && co.exit_code
            == ex.vprocs[pid].exit_code,
    ensures
        tells(ex.with(other, co), pid, told),
{
    reveal(tells);
}

proof fn lemma_tells_back(ex: ExecutorView, other: VPid, dead: bool, pid: VPid, told: Option<i32>)
    requires
        tells(ex, pid, told),
    ensures
        tells(
            ex.returned(other, dead),
            pid,
            if told is None && other == pid && dead {
                Some(0)
            } else {
                told
            },
        ),
{
    reveal(tells);
}

proof fn lemma_tells_woken(ex: ExecutorView, other: VPid, pid: VPid, told: Option<i32>)
    requires
        tells(ex, pid, told),
    ensures
        tells(ex.woken(other), pid, told),
{
    reveal(tells);
}

proof fn lemma_tells_signal(ex: ExecutorView, other: VPid, sig: i32, pid: VPid, told: Option<i32>)
    requires
        tells(ex, pid, told),
        other != pid,
    ensures
        tells(ex.notified(other, sig), pid, told),
{
    let sent = ex.changed(
        other,
        |co: CoroView| CoroView { pending_signals: co.pending_signals.push(sig), ..co },
    );
    assert(tells(sent, pid, told)) by {
        reveal(tells);
    }
    lemma_tells_woken(sent, other, pid, told);
}

proof fn lemma_tells_exit(ex: ExecutorView, code: i32, pid: VPid, told: Option<i32>)
    requires
        tells(ex, pid, told),
        ex.current matches Some(cur) && ex.live(cur),
    ensures
        tells(
            ex.exited(code),
            pid,
            if told is None && ex.current == Some(pid) {
                Some(code)
            } else {
                told
            },
        ),
{
    reveal(tells);
}

proof fn lemma_tells_wait(
    ex: ExecutorView,
    fds: Seq<(i32, i16)>,
    polls_pipes: bool,
    pid: VPid,
    told: Option<i32>,
)
    requires
        tells(ex, pid, told),
    ensures
        tells(ex.waiting_for(fds, polls_pipes), pid, told),
{
    reveal(tells);
}

proof fn lemma_tells_cleanup(
    ex: ExecutorView,
    children: Map<VPid, Seq<VPid>>,
    other: VPid,
    pid: VPid,
    told: Option<i32>,
)
    requires
        tells(ex, pid, told),
    ensures
        (ex.done(pid) ==> ex.exit_codes.contains_key(pid)) ==> tells(ex.reaped(), pid, told),
        tells(ExecutorView { children, ..ex }, pid, told),
        other != pid ==> tells(
            ExecutorView { exit_codes: ex.exit_codes.remove(other), ..ex },
            pid,
            told,
        ),
{
    reveal(tells);
}

proof fn lemma_tells_step(ex: ExecutorView, pid: VPid, told: Option<i32>)
    requires
        tells(ex, pid, told),
    ensures
        tells(ex.after_step(), pid, told),
        tells(ex.after_driver_step(), pid, told),
        tells(ex.after_block_step(), pid, told),
{
    reveal(tells);
    lemma_next_up_live(ex, ex.ready);
    assert(tells(ex.picked(), pid, told));
    if let Some(next) = ex.next_up() {
        lemma_tells_delivered(ex.picked(), next, pid, told);
    }
}

/// The exit code of a process can be asked for exactly when it has ended, at
/// every point of any run: until it ends there is none; from then on, for good, it
/// is the code that the process exited with, also after it was cleaned up. That
/// code is 0 for a function that returned and 134 for one that panicked. The
/// process is one that `spawn` or `spawn_front` created, gets no signal, and its
/// code is not taken away.
pub proof fn law_exit_code_of_run(ex: ExecutorView, front: bool, events: Seq<RunEvent>)
    requires
        ex.wf(),
        ex.next_pid < u32::MAX,
        ({
            let born = run_step(
                ex,
                if front {
                    RunEvent::SpawnFront
                } else {
                    RunEvent::Spawn
                },
            );
            is_run(born, events) && left_alone(born, events, ex.next_pid)
        }),
    ensures
        ({
            let born = run_step(
                ex,
                if front {
                    RunEvent::SpawnFront
                } else {
                    RunEvent::Spawn
                },
            );
            let now = run(born, events);
            &&& now.exit_code(ex.next_pid) == end_in(born, events, ex.next_pid)
            &&& now.live(ex.next_pid) == end_in(born, events, ex.next_pid) is None
        }),
        exit_code_of_function(true, false) == 0,
        exit_code_of_function(true, true) == 134,
{
    let born = run_step(
        ex,
        if front {
            RunEvent::SpawnFront
        } else {
            RunEvent::Spawn
        },
    );
    assert(tells(born, ex.next_pid, None)) by {
        reveal(tells);
    }
    lemma_tells_run(born, events, ex.next_pid);
    reveal(tells);
}

/// What `event` tells of process `pid`, of which `told` was known.
spec fn told_by(ex: ExecutorView, event: RunEvent, pid: VPid, told: Option<i32>) -> Option<i32> {
    if told is Some {
        told
    } else {
        end_by(ex, event, pid)
    }
}

/// `event` leaves process `pid` alone.
spec fn spares(ex: ExecutorView, event: RunEvent, pid: VPid) -> bool {
    match event {
        RunEvent::Signal(p, _) => p != pid,
        RunEvent::Forget(p) => p != pid,
        RunEvent::Reap => ex.done(pid) ==> ex.exit_codes.contains_key(pid),
        _ => true,
    }
}

proof fn lemma_tells_event(ex: ExecutorView, event: RunEvent, pid: VPid, told: Option<i32>)
    requires
        tells(ex, pid, told),
        can_happen(ex, event),
        spares(ex, event, pid),
    ensures
        tells(run_step(ex, event), pid, told_by(ex, event, pid, told)),
{
    let next = run_step(ex, event);
    match event {
        RunEvent::Spawn => {
            let born = ex.registered(CoroView::fresh(ex.next_pid));
            lemma_tells_born(ex, CoroView::fresh(ex.next_pid), pid, told);
            lemma_tells_queue(born, next.ready, next.current, pid, told);
        },
        RunEvent::SpawnFront => {
            let born = ex.registered(CoroView::fresh(ex.next_pid));
            lemma_tells_born(ex, CoroView::fresh(ex.next_pid), pid, told);
            lemma_tells_queue(born, next.ready, next.current, pid, told);
        },
        RunEvent::SpawnElf(base, size) => {
            let co = CoroView { stack_alloc: Some((base, size)), ..CoroView::fresh(ex.next_pid) };
            lemma_tells_born(ex, co, pid, told);
            lemma_tells_queue(ex.registered(co), next.ready, next.current, pid, told);
        },
        RunEvent::Fork(parent) => lemma_tells_forked(ex, parent, pid, told),
        RunEvent::Step => lemma_tells_step(ex, pid, told),
        RunEvent::Yield => {
            assert(tells(ex.yielded(), pid, told)) by {
                reveal(tells);
            }
            lemma_tells_step(ex.yielded(), pid, told);
        },
        RunEvent::DriverStep => lemma_tells_step(ex, pid, told),
        RunEvent::BlockStep => lemma_tells_step(ex, pid, told),
        RunEvent::DriverDone(p, dead) => {
            let now = told_by(ex, event, pid, told);
            lemma_tells_back(ex, p, dead, pid, told);
            lemma_tells_queue(ex.returned(p, dead), next.ready, next.current, pid, now);
        },
        RunEvent::BlockDone(p, dead) => {
            let now = told_by(ex, event, pid, told);
            lemma_tells_back(ex, p, dead, pid, told);
            lemma_tells_queue(ex.returned(p, dead), next.ready, next.current, pid, now);
        },
        RunEvent::Back(p, dead) => lemma_tells_back(ex, p, dead, pid, told),
        RunEvent::Exit(code) => lemma_tells_exit(ex, code, pid, told),
        RunEvent::FunctionOver(panicked) => lemma_tells_exit(
            ex,
            exit_code_of_function(true, panicked),
            pid,
            told,
        ),
        RunEvent::Wait(fds, polls_pipes) => lemma_tells_wait(ex, fds, polls_pipes, pid, told),
        RunEvent::Wake(p) => lemma_tells_woken(ex, p, pid, told),
        RunEvent::Signal(p, sig) => lemma_tells_signal(ex, p, sig, pid, told),
        RunEvent::Equip(p, co) => lemma_tells_with(ex, p, co, pid, told),
        RunEvent::Reap => lemma_tells_cleanup(ex, ex.children, 0, pid, told),
        RunEvent::ReapChild(_, _) => lemma_tells_cleanup(ex, next.children, 0, pid, told),
        RunEvent::Forget(p) => lemma_tells_cleanup(ex, ex.children, p, pid, told),
    }
}

proof fn lemma_tells_run(ex: ExecutorView, events: Seq<RunEvent>, pid: VPid)
    requires
        tells(ex, pid, None),
        is_run(ex, events),
        left_alone(ex, events, pid),
    ensures
        tells(run(ex, events), pid, end_in(ex, events, pid)),
    decreases events.len(),
{
    if events.len() > 0 {
        let before = events.drop_last();
        lemma_tells_run(ex, before, pid);
        let now = run(ex, before);
        let told = end_in(ex, before, pid);
        assert(spares(now, events.last(), pid));
        lemma_tells_event(now, events.last(), pid, told);
    }
}

/// The scheduler after the process that ran in a run to completion, if any, gave
/// control back: it is queued again while it is alive.
pub open spec fn block_returned(ex: ExecutorView, ran: Option<(VPid, bool)>) -> ExecutorView {
    match ran {
        Some((pid, dead)) => if ex.returned(pid, dead).live(pid) {
            ex.returned(pid, dead).queued(pid)
        } else {
            ex.returned(pid, dead)
        },
        None => ex,
    }
}

/// The scheduler after a step of a run to completion; with all processes ended
/// nothing happens.
pub open spec fn after_block_on(ex: ExecutorView) -> ExecutorView {
    if exists|pid: VPid| ex.live(pid) {
        ex.after_block_step()
    } else {
        ex
    }
}

/// What a step of a run to completion decides.
pub open spec fn block_on_result(ex: ExecutorView) -> Step {
    if exists|pid: VPid| ex.live(pid) {
        ex.step_result()
    } else {
        Step::Idle
    }
}

/// Every live process but the one that runs is queued.
pub open spec fn all_queued(ex: ExecutorView, running: Option<VPid>) -> bool {
    forall|pid: VPid| #[trigger] ex.live(pid) ==> ex.ready.contains(pid) || running == Some(pid)
}

/// Every process has ended, and has an exit code.
pub open spec fn all_over(ex: ExecutorView) -> bool {
    forall|pid: VPid| #[trigger]
        ex.vprocs.contains_key(pid) ==> ex.done(pid) && ex.exit_code(pid) is Some
}

/// The process that a step switches to.
pub open spec fn switched_to(step: Step) -> Option<VPid> {
    match step {
        Step::Resume(pid) => Some(pid),
        _ => None,
    }
}

/// A run to completion leaves nobody behind: everyone stays queued until their
/// turn comes, and when nothing is left to do every process has ended and has an
/// exit code.
pub proof fn law_run_completes(ex: ExecutorView, ran: Option<(VPid, bool)>)
    requires
        all_queued(
            ex,
            match ran {
                Some((pid, _)) => Some(pid),
                None => None,
            },
        ),
    ensures
        all_queued(
            after_block_on(block_returned(ex, ran)),
            switched_to(block_on_result(block_returned(ex, ran))),
        ),
        block_on_result(block_returned(ex, ran)) == Step::Idle ==> all_over(
            after_block_on(block_returned(ex, ran)),
        ),
{
    let back = block_returned(ex, ran);
    assert forall|pid: VPid| #[trigger] back.live(pid) implies back.ready.contains(pid) by {
        assert(ex.live(pid));
        if let Some((p, dead)) = ran {
            lemma_queued_keeps(ex.ready, p, pid);
        }
    }
    lemma_next_up_live(back, back.ready);
    let next = after_block_on(back);
    assert forall|pid: VPid| #[trigger] next.live(pid) implies next.ready.contains(pid)
        || switched_to(block_on_result(back)) == Some(pid) by {
        assert(back.live(pid));
        lemma_picked_keeps(back, pid);
    }
    if block_on_result(back) == Step::Idle {
        assert forall|pid: VPid| #[trigger] next.vprocs.contains_key(pid) implies next.done(pid)
            && next.exit_code(pid) is Some by {
            if next.live(pid) {
                assert(back.live(pid));
                lemma_picked_keeps(back, pid);
            }
        }
    }
}

/// What the process that runs does keeps all others queued: starting others,
/// forking, exiting, waiting, signals and cleaning up.
pub proof fn law_run_keeps_queue(
    ex: ExecutorView,
    running: Option<VPid>,
    pid: VPid,
    code: i32,
    fds: Seq<(i32, i16)>,
    polls_pipes: bool,
)
    requires
        all_queued(ex, running),
    ensures
        all_queued(ExecutorView::empty(), None),
        all_queued(run_step(ex, RunEvent::Spawn), running),
        all_queued(run_step(ex, RunEvent::SpawnFront), running),
        all_queued(run_step(ex, RunEvent::Exit(code)), running),
        all_queued(run_step(ex, RunEvent::Wait(fds, polls_pipes)), running),
        all_queued(run_step(ex, RunEvent::Wake(pid)), running),
        all_queued(run_step(ex, RunEvent::Signal(pid, code)), running),
        all_queued(run_step(ex, RunEvent::Reap), running),
        ex.vprocs.contains_key(pid) && pid != ex.next_pid ==> all_queued(
            run_step(ex, RunEvent::Fork(pid)),
            running,
        ),
{
    let spawned = run_step(ex, RunEvent::Spawn);
    assert forall|p: VPid| #[trigger] spawned.live(p) implies spawned.ready.contains(p) || running
        == Some(p) by {
        lemma_queued_keeps(ex.ready, ex.next_pid, p);
        assert(p != ex.next_pid ==> ex.live(p));
    }
    let front = run_step(ex, RunEvent::SpawnFront);
    assert forall|p: VPid| #[trigger] front.live(p) implies front.ready.contains(p) || running
        == Some(p) by {
        lemma_contains_index(front.ready, ex.next_pid, 0);
        assert(p != ex.next_pid ==> ex.live(p));
        if ex.ready.contains(p) {
            let k = choose|k: int| 0 <= k < ex.ready.len() && ex.ready[k] == p;
            lemma_contains_index(front.ready, p, k + 1);
        }
    }
    let exited = run_step(ex, RunEvent::Exit(code));
    assert forall|p: VPid| #[trigger] exited.live(p) implies exited.ready.contains(p) || running
        == Some(p) by {
        assert(ex.live(p));
    }
    let waiting = run_step(ex, RunEvent::Wait(fds, polls_pipes));
    assert forall|p: VPid| #[trigger] waiting.live(p) implies waiting.ready.contains(p) || running
        == Some(p) by {
        assert(ex.live(p));
    }
    lemma_woken_queue(ex, running, pid);
    let told = ex.changed(
        pid,
        |co: CoroView| CoroView { pending_signals: co.pending_signals.push(code), ..co },
    );
    assert forall|p: VPid| #[trigger] told.live(p) implies told.ready.contains(p) || running
        == Some(p) by {
        assert(ex.live(p));
    }
    lemma_woken_queue(told, running, pid);
    let reaped = run_step(ex, RunEvent::Reap);
    assert forall|p: VPid| #[trigger] reaped.live(p) implies reaped.ready.contains(p) || running
        == Some(p) by {
        assert(ex.live(p));
    }
    if ex.vprocs.contains_key(pid) && pid != ex.next_pid {
        let forked = run_step(ex, RunEvent::Fork(pid));
        assert forall|p: VPid| #[trigger] forked.live(p) implies forked.ready.contains(p) || running
            == Some(p) by {
            lemma_queued_keeps(ex.ready, ex.next_pid, p);
            assert(p != ex.next_pid ==> ex.live(p));
        }
    }
}

proof fn lemma_woken_queue(ex: ExecutorView, running: Option<VPid>, pid: VPid)
    requires
        all_queued(ex, running),
    ensures
        all_queued(ex.woken(pid), running),
{
    let after = ex.woken(pid);
    assert forall|p: VPid| #[trigger] after.live(p) implies after.ready.contains(p) || running
        == Some(p) by {
        assert(ex.live(p));
        lemma_queued_keeps(ex.ready, pid, p);
    }
}

/// A run to completion takes turns: the process that ran goes to the end of the queue
/// while it lives, and has ended where its context ran to its end; the next turn goes
/// to the first live process in the queue, and the run is over when there is none.
pub proof fn law_run_takes_turns(ex: ExecutorView, pid: VPid, dead: bool, other: VPid, k: int)
    ensures
        ex.live(pid) ==> ({
            let back = block_returned(ex, Some((pid, dead)));
            &&& dead ==> back.done(pid) && back.ready == ex.ready
            &&& !dead ==> back.live(pid) && back.ready == ex.ready.push(pid)
            &&& other != pid && ex.vprocs.contains_key(other) ==> back.vprocs[other]
                == ex.vprocs[other]
            &&& back.vprocs.dom() == ex.vprocs.dom()
            &&& back.exit_codes == ex.exit_codes
        }),
        block_returned(ex, None) == ex,
        0 <= k < ex.ready.len() && ex.live(ex.ready[k]) && !ex.doomed(ex.ready[k]) && (forall|j: int|
            0 <= j < k ==> !ex.live(#[trigger] ex.ready[j])) ==> block_on_result(ex)
            == Step::Resume(ex.ready[k]) && after_block_on(ex).ready == ex.ready.skip(k + 1)
            && after_block_on(ex).current == Some(ex.ready[k]),
        (forall|j: int| 0 <= j < ex.ready.len() ==> !ex.live(#[trigger] ex.ready[j]))
            ==> block_on_result(ex) == Step::Idle,
        switched_to(Step::Resume(pid)) == Some(pid),
        switched_to(Step::Idle) is None,
        switched_to(Step::Killed(pid)) is None,
{
    law_first_live_is_next(ex, k);
    if ex.live(pid) {
        assert(block_returned(ex, Some((pid, dead))).vprocs.dom() =~= ex.vprocs.dom());
    }
}

} // verus!
