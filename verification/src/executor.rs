//! The scheduler of virtual processes.
//!
//! Switching to a process is done outside. The scheduler decides who is next
//! (`step`, `step_from_driver`, `block_on_step`), the caller performs the switch
//! and reports how it ended, and the scheduler takes note of it.

use crate::coroutine::{
    build_elf_stack, stack_bytes, stack_word_count, stack_words, CoroView, Coroutine, ElfStack,
    IoWait, IoWaitView, State, VPid,
};
use crate::keys::keys_of;
use crate::pipe::{PipeStore, PipeView};
use crate::tables::{
    fork_fd_table, hands_out, lemma_fewer_files, lemma_hands_out_chain, lemma_drops_more,
    lemma_drops_none, lemma_prefix_set, lemma_tables_finite, pipes_known, release_unused_pipes,
    remove_table_and_get_fds, FdTables, FdTablesView,
};
use crate::vfd::{FileRef, Vfd};
use std::collections::hash_map::Entry;
use std::collections::HashMap;
use std::collections::VecDeque;
use vstd::prelude::*;

verus! {

broadcast use vstd::std_specs::hash::group_hash_axioms;

/// Signal that ends a process and cannot be caught.
pub const SIGKILL: i32 = 9;

/// Signal for a write to a pipe without readers.
pub const SIGPIPE: i32 = 13;

/// Signal that asks a process to end.
pub const SIGTERM: i32 = 15;

/// A descriptor that a process waits for.
#[derive(Debug, Clone, Copy, PartialEq, Eq, Structural)]
pub struct IoQuery {
    pub pid: VPid,
    pub fd: i32,
    pub events: i16,
}

/// What the caller of the scheduler has to do next.
#[derive(Debug, Clone, Copy, PartialEq, Eq, Structural)]
pub enum Step {
    /// Nothing is ready to run.
    Idle,
    /// A signal ended this process before it was its turn; nothing is to be done.
    Killed(VPid),
    /// Switch to this process.
    Resume(VPid),
}

/// The scheduler as a mathematical value.
#[verifier::ext_equal]
pub struct ExecutorView {
    pub vprocs: Map<VPid, CoroView>,
    /// Processes that wait for their turn, next one first.
    pub ready: Seq<VPid>,
    pub next_pid: VPid,
    pub current: Option<VPid>,
    pub switches: u64,
    pub children: Map<VPid, Seq<VPid>>,
    pub saved_fork_lr: Option<u64>,
    pub exit_codes: Map<VPid, i32>,
}

/// Those of `kids` that are processes.
pub open spec fn kept_kids(kids: Seq<VPid>, vprocs: Map<VPid, CoroView>) -> Seq<VPid>
    decreases kids.len(),
{
    if kids.len() == 0 {
        Seq::empty()
    } else if vprocs.contains_key(kids.last()) {
        kept_kids(kids.drop_last(), vprocs).push(kids.last())
    } else {
        kept_kids(kids.drop_last(), vprocs)
    }
}

/// Those of `kids` other than `child`.
pub open spec fn kids_without(kids: Seq<VPid>, child: VPid) -> Seq<VPid>
    decreases kids.len(),
{
    if kids.len() == 0 {
        Seq::empty()
    } else if kids.last() != child {
        kids_without(kids.drop_last(), child).push(kids.last())
    } else {
        kids_without(kids.drop_last(), child)
    }
}

/// The programs that the processes `coroutines` ran, in the same order.
pub open spec fn binary_paths(coroutines: Seq<Coroutine>) -> Seq<Seq<char>>
    decreases coroutines.len(),
{
    if coroutines.len() == 0 {
        Seq::empty()
    } else {
        match coroutines.last()@.binary_path {
            Some(path) => binary_paths(coroutines.drop_last()).push(path),
            None => binary_paths(coroutines.drop_last()),
        }
    }
}

/// The characters of each string.
pub open spec fn texts(strings: Seq<String>) -> Seq<Seq<char>> {
    strings.map_values(|s: String| s@)
}

/// Whether a signal ends the process that gets it.
pub open spec fn is_fatal(sig: i32) -> bool {
    sig == SIGKILL || sig == SIGTERM
}

/// The first signal that ends the process, if there is one.
pub open spec fn first_fatal(signals: Seq<i32>) -> Option<i32>
    decreases signals.len(),
{
    if signals.len() == 0 {
        None
    } else if is_fatal(signals[0]) {
        Some(signals[0])
    } else {
        first_fatal(signals.drop_first())
    }
}

impl CoroView {
    /// The process after its pending signals were delivered.
    pub open spec fn signalled(self) -> CoroView {
        let taken = CoroView { pending_signals: Seq::empty(), ..self };
        match first_fatal(self.pending_signals) {
            Some(sig) => taken.done_with((128 + sig) as i32),
            None => taken,
        }
    }
}

impl ExecutorView {
    /// A scheduler without processes.
    pub open spec fn empty() -> ExecutorView {
        ExecutorView {
            vprocs: Map::empty(),
            ready: Seq::empty(),
            next_pid: 1,
            current: None,
            switches: 0,
            children: Map::empty(),
            saved_fork_lr: None,
            exit_codes: Map::empty(),
        }
    }

    /// Numbers in use were given out before, each process knows its number, and
    /// an exit code is recorded only of a process that has ended.
    pub open spec fn wf(self) -> bool {
        &&& 1 <= self.next_pid
        &&& forall|pid: VPid| #[trigger]
            self.vprocs.contains_key(pid) ==> 1 <= pid < self.next_pid && self.vprocs[pid].id == pid
        &&& forall|pid: VPid| #[trigger]
            self.exit_codes.contains_key(pid) ==> pid < self.next_pid && !self.live(pid)
        &&& forall|i: int| 0 <= i < self.ready.len() ==> #[trigger] self.ready[i] < self.next_pid
        &&& self.current matches Some(pid) ==> pid < self.next_pid
    }

    /// `pid` is a process that has not ended.
    pub open spec fn live(self, pid: VPid) -> bool {
        self.vprocs.contains_key(pid) && !self.vprocs[pid].is_done()
    }

    /// `pid` is a process that has ended and was not cleaned up yet.
    pub open spec fn done(self, pid: VPid) -> bool {
        self.vprocs.contains_key(pid) && self.vprocs[pid].is_done()
    }

    /// How many entries at the front of the queue are not live.
    pub open spec fn stale(self, ready: Seq<VPid>) -> nat
        decreases ready.len(),
    {
        if ready.len() == 0 || self.live(ready[0]) {
            0
        } else {
            1 + self.stale(ready.drop_first())
        }
    }

    /// The process whose turn it is: the first live one in the queue.
    pub open spec fn next_up(self) -> Option<VPid> {
        if self.stale(self.ready) < self.ready.len() {
            Some(self.ready[self.stale(self.ready) as int])
        } else {
            None
        }
    }

    /// The scheduler after that process left the queue, with the stale entries
    /// before it.
    pub open spec fn picked(self) -> ExecutorView {
        ExecutorView {
            ready: if self.next_up() is Some {
                self.ready.skip(self.stale(self.ready) as int + 1)
            } else {
                Seq::empty()
            },
            ..self
        }
    }

    /// The scheduler after process `pid` became `co`.
    pub open spec fn with(self, pid: VPid, co: CoroView) -> ExecutorView {
        ExecutorView { vprocs: self.vprocs.insert(pid, co), ..self }
    }

    /// The scheduler after `pid` went to the end of the queue.
    pub open spec fn queued(self, pid: VPid) -> ExecutorView {
        ExecutorView { ready: self.ready.push(pid), ..self }
    }

    /// The scheduler after the signals of `pid` were delivered.
    pub open spec fn delivered(self, pid: VPid) -> ExecutorView {
        if self.vprocs.contains_key(pid) {
            self.with(pid, self.vprocs[pid].signalled())
        } else {
            self
        }
    }

    /// A signal that waits for `pid` ends it.
    pub open spec fn doomed(self, pid: VPid) -> bool {
        self.vprocs.contains_key(pid) && first_fatal(self.vprocs[pid].pending_signals) is Some
    }

    /// The scheduler after `pid` got its turn; it does not wait for descriptors
    /// any more.
    pub open spec fn dispatched(self, pid: VPid) -> ExecutorView {
        ExecutorView {
            current: Some(pid),
            switches: (self.switches + 1) as u64,
            vprocs: self.vprocs.insert(
                pid,
                CoroView { state: State::Running, io_wait: None, ..self.vprocs[pid] },
            ),
            ..self
        }
    }

    /// The process that gave up its turn is queued again while it is alive.
    pub open spec fn requeue_current(self) -> ExecutorView {
        match self.current {
            Some(cur) => if self.live(cur) {
                self.queued(cur)
            } else {
                self
            },
            None => self,
        }
    }

    /// The scheduler after the current process gave up its turn: it is queued
    /// again, once, in the state of one that waits for its turn.
    pub open spec fn yielded(self) -> ExecutorView {
        match self.current {
            Some(pid) => if self.live(pid) {
                ExecutorView {
                    current: None,
                    ..self.with(
                        pid,
                        (CoroView { state: State::Ready, ..self.vprocs[pid] }),
                    ).queued(pid)
                }
            } else {
                self
            },
            None => self,
        }
    }

    /// What a scheduling step decides.
    pub open spec fn step_result(self) -> Step {
        match self.next_up() {
            None => Step::Idle,
            Some(pid) => if self.doomed(pid) {
                Step::Killed(pid)
            } else {
                Step::Resume(pid)
            },
        }
    }

    /// The scheduler after a scheduling step from inside a process.
    pub open spec fn after_step(self) -> ExecutorView {
        match self.next_up() {
            None => self.picked(),
            Some(pid) => if self.doomed(pid) {
                let delivered = self.picked().delivered(pid);
                match self.current {
                    Some(cur) => delivered.queued(cur),
                    None => delivered,
                }
            } else {
                self.picked().delivered(pid).requeue_current().dispatched(pid)
            },
        }
    }

    /// The scheduler after a scheduling step of the driver.
    pub open spec fn after_driver_step(self) -> ExecutorView {
        match self.next_up() {
            None => self.picked(),
            Some(pid) => if self.doomed(pid) {
                ExecutorView { current: None, ..self.picked().delivered(pid) }
            } else {
                self.picked().delivered(pid).dispatched(pid)
            },
        }
    }

    /// The scheduler after a step of a run to completion.
    pub open spec fn after_block_step(self) -> ExecutorView {
        match self.next_up() {
            None => self.picked(),
            Some(pid) => if self.doomed(pid) {
                self.picked().delivered(pid)
            } else {
                self.picked().delivered(pid).dispatched(pid)
            },
        }
    }

    /// The scheduler after process `pid` gave control back.
    pub open spec fn returned(self, pid: VPid, dead: bool) -> ExecutorView {
        if self.vprocs.contains_key(pid) {
            self.with(pid, self.vprocs[pid].switched_back(dead))
        } else {
            self
        }
    }

    /// The scheduler after a live `pid` that does not sleep went to the end of the
    /// queue.
    pub open spec fn requeued(self, pid: VPid) -> ExecutorView {
        if self.live(pid) && !self.vprocs[pid].sleeps() {
            self.queued(pid)
        } else {
            self
        }
    }

    /// The scheduler after a process `co` got the next number.
    pub open spec fn registered(self, co: CoroView) -> ExecutorView {
        ExecutorView {
            vprocs: self.vprocs.insert(self.next_pid, co),
            next_pid: (self.next_pid + 1) as u32,
            ..self
        }
    }

    /// The scheduler after `parent` forked.
    pub open spec fn forked(self, parent: VPid) -> ExecutorView {
        let child = self.next_pid;
        let kids = if self.children.contains_key(parent) {
            self.children[parent]
        } else {
            Seq::empty()
        };
        let born = self.registered(self.vprocs[parent].forked(child)).queued(child);
        ExecutorView {
            vprocs: born.vprocs.insert(
                parent,
                CoroView { fork_child_pid: child, ..self.vprocs[parent] },
            ),
            children: self.children.insert(parent, kids.push(child)),
            ..born
        }
    }

    /// The scheduler after the current process exited with `code`.
    pub open spec fn exited(self, code: i32) -> ExecutorView {
        match self.current {
            None => self,
            Some(pid) => ExecutorView {
                vprocs: if self.vprocs.contains_key(pid) {
                    self.vprocs.insert(pid, self.vprocs[pid].done_with(code))
                } else {
                    self.vprocs
                },
                exit_codes: self.exit_codes.insert(pid, code),
                ..self
            },
        }
    }

    /// The children of `pid` after ended processes were cleaned up.
    pub open spec fn kept_children(self, pid: VPid) -> Seq<VPid> {
        kept_kids(self.children[pid], self.vprocs)
    }

    /// The scheduler after ended processes were cleaned up: they are gone, with
    /// the lists of their children, and so are lists without children. A child
    /// that is cleaned up in this very pass is still listed.
    pub open spec fn reaped(self) -> ExecutorView {
        ExecutorView {
            vprocs: self.vprocs.restrict(Set::new(|pid: VPid| !self.vprocs[pid].is_done())),
            children: Map::new(
                |pid: VPid|
                    self.children.contains_key(pid) && !self.done(pid) && self.kept_children(
                        pid,
                    ).len() > 0,
                |pid: VPid| self.kept_children(pid),
            ),
            ..self
        }
    }

    /// The scheduler after `change` was applied to process `pid`, where it exists.
    pub open spec fn changed(self, pid: VPid, change: spec_fn(CoroView) -> CoroView) -> ExecutorView {
        if self.vprocs.contains_key(pid) {
            self.with(pid, change(self.vprocs[pid]))
        } else {
            self
        }
    }

    /// The scheduler after the descriptors that `pid` waits for became ready: it
    /// is queued again, where it slept. Nothing happens where it does not wait.
    pub open spec fn woken(self, pid: VPid) -> ExecutorView {
        if self.vprocs.contains_key(pid) && self.vprocs[pid].io_wait is Some {
            let awake = self.with(pid, (CoroView { io_wait: None, ..self.vprocs[pid] }));
            if self.live(pid) && self.vprocs[pid].sleeps() {
                awake.queued(pid)
            } else {
                awake
            }
        } else {
            self
        }
    }

    /// The scheduler after signal `sig` was queued for `pid`. A process that sleeps
    /// is queued again, so that the signal is delivered.
    pub open spec fn notified(self, pid: VPid, sig: i32) -> ExecutorView {
        self.changed(
            pid,
            |co: CoroView| CoroView { pending_signals: co.pending_signals.push(sig), ..co },
        ).woken(pid)
    }

    /// The scheduler after the current process gave up control until one of `fds`
    /// is ready, or, where it polls virtual pipes besides, until its next turn.
    /// Without descriptors it does not wait.
    pub open spec fn waiting_for(self, fds: Seq<(i32, i16)>, polls_pipes: bool) -> ExecutorView {
        match self.current {
            Some(pid) => self.changed(
                pid,
                |co: CoroView|
                    CoroView {
                        io_wait: if fds.len() == 0 {
                            None
                        } else {
                            Some(IoWaitView { fds, deadline: None, polls_pipes })
                        },
                        ..co
                    },
            ),
            None => self,
        }
    }

    /// The scheduler after the processes of those `queries` for which `revents`
    /// reports something were woken, in order.
    pub open spec fn all_woken(self, queries: Seq<IoQuery>, revents: Seq<i16>) -> ExecutorView
        decreases queries.len(),
    {
        if queries.len() == 0 {
            self
        } else {
            let before = self.all_woken(queries.drop_last(), revents);
            if revents[queries.len() - 1] != 0 {
                before.woken(queries.last().pid)
            } else {
                before
            }
        }
    }

    /// `query` is one of the descriptors that a process waits for.
    pub open spec fn waits(self, query: IoQuery) -> bool {
        self.vprocs.contains_key(query.pid) && (self.vprocs[query.pid].io_wait matches Some(wait)
            && wait.fds.contains((query.fd, query.events)))
    }

    /// The exit code of a process that ended.
    pub open spec fn exit_code(self, pid: VPid) -> Option<i32> {
        if self.exit_codes.contains_key(pid) {
            Some(self.exit_codes[pid])
        } else if self.done(pid) {
            Some(self.vprocs[pid].exit_code)
        } else {
            None
        }
    }
}

/// The scheduler.
pub struct Executor {
    vprocs: HashMap<VPid, Coroutine>,
    ready_queue: VecDeque<VPid>,
    next_pid: VPid,
    current: Option<VPid>,
    switch_count: u64,
    children: HashMap<VPid, Vec<VPid>>,
    saved_fork_lr: Option<u64>,
    exit_codes: HashMap<VPid, i32>,
}

impl View for Executor {
    type V = ExecutorView;

    closed spec fn view(&self) -> ExecutorView {
        ExecutorView {
            vprocs: Map::new(
                |pid: VPid| self.vprocs@.contains_key(pid),
                |pid: VPid| self.vprocs@[pid]@,
            ),
            ready: self.ready_queue@,
            next_pid: self.next_pid,
            current: self.current,
            switches: self.switch_count,
            children: Map::new(
                |pid: VPid| self.children@.contains_key(pid),
                |pid: VPid| self.children@[pid]@,
            ),
            saved_fork_lr: self.saved_fork_lr,
            exit_codes: self.exit_codes@,
        }
    }
}

impl Executor {
    /// A scheduler without processes.
    pub fn new() -> (ex: Executor)
        ensures
            ex@ == ExecutorView::empty(),
            ex@.wf(),
    {
        let ex = Executor {
            vprocs: HashMap::new(),
            ready_queue: VecDeque::new(),
            next_pid: 1,
            current: None,
            switch_count: 0,
            children: HashMap::new(),
            saved_fork_lr: None,
            exit_codes: HashMap::new(),
        };
        assert(ex@ =~= ExecutorView::empty());
        ex
    }

    /// The process `pid`.
    pub fn vproc(&self, pid: VPid) -> (co: Option<&Coroutine>)
        ensures
            match co {
                Some(c) => self@.vprocs.contains_key(pid) && c@ == self@.vprocs[pid],
                None => !self@.vprocs.contains_key(pid),
            },
    {
        self.vprocs.get(&pid)
    }

    /// Whether there is a process `pid`.
    pub fn contains(&self, pid: VPid) -> (yes: bool)
        ensures
            yes == self@.vprocs.contains_key(pid),
    {
        self.vprocs.contains_key(&pid)
    }

    /// Whether `pid` is a process that has not ended.
    fn is_live(&self, pid: VPid) -> (yes: bool)
        ensures
            yes == self@.live(pid),
    {
        match self.vprocs.get(&pid) {
            Some(co) => !co.is_done(),
            None => false,
        }
    }

    /// Adds `co` under the next number.
    fn register(&mut self, co: Coroutine) -> (pid: VPid)
        requires
            old(self)@.next_pid < u32::MAX,
        ensures
            pid == old(self)@.next_pid,
            final(self)@ == old(self)@.registered(co@),
    {
        let pid: VPid = self.next_pid;
        self.next_pid = self.next_pid + 1;
        self.vprocs.insert(pid, co);
        assert(self@ =~= old(self)@.registered(co@));
        pid
    }

    /// Creates a process at the end of the queue.
    pub fn spawn(&mut self) -> (pid: VPid)
        requires
            old(self)@.next_pid < u32::MAX,
        ensures
            pid == old(self)@.next_pid,
            final(self)@ == old(self)@.registered(CoroView::fresh(pid)).queued(pid),
            old(self)@.wf() ==> final(self)@.wf() && !old(self)@.vprocs.contains_key(pid),
    {
        let co = Coroutine::new(self.next_pid);
        let pid: VPid = self.register(co);
        self.ready_queue.push_back(pid);
        assert(self@ =~= old(self)@.registered(CoroView::fresh(pid)).queued(pid));
        pid
    }

    /// Creates a process at the front of the queue.
    pub fn spawn_front(&mut self) -> (pid: VPid)
        requires
            old(self)@.next_pid < u32::MAX,
        ensures
            pid == old(self)@.next_pid,
            final(self)@ == (ExecutorView {
                ready: seq![pid] + old(self)@.ready,
                ..old(self)@.registered(CoroView::fresh(pid))
            }),
            old(self)@.wf() ==> final(self)@.wf() && !old(self)@.vprocs.contains_key(pid),
    {
        let co = Coroutine::new(self.next_pid);
        let pid: VPid = self.register(co);
        self.ready_queue.push_front(pid);
        assert(self@ =~= (ExecutorView {
            ready: seq![pid] + old(self)@.ready,
            ..old(self)@.registered(CoroView::fresh(pid))
        }));
        pid
    }

    /// Creates a process that runs a loaded program, at the end of the queue.
    /// Returns its number and what its stack has to hold.
    pub fn spawn_elf(
        &mut self,
        stack_base: usize,
        stack_size: usize,
        argc: u64,
        argv: &[u64],
        envp: &[u64],
        auxv: &[[u64; 2]],
    ) -> (result: (VPid, ElfStack))
        requires
            old(self)@.next_pid < u32::MAX,
            stack_base + stack_size <= usize::MAX,
            stack_bytes(stack_word_count(argv@.len(), envp@.len(), auxv@.len())) <= stack_size,
        ensures
            result.0 == old(self)@.next_pid,
            result.1.words@ == stack_words(argc, argv@, envp@, auxv@),
            result.1.sp == stack_base + stack_size - stack_bytes(result.1.words@.len() as int),
            final(self)@ == old(self)@.registered(
                (CoroView {
                    stack_alloc: Some((stack_base, stack_size)),
                    ..CoroView::fresh(result.0)
                }),
            ).queued(result.0),
            old(self)@.wf() ==> final(self)@.wf() && !old(self)@.vprocs.contains_key(result.0),
    {
        let stack = build_elf_stack(stack_base, stack_size, argc, argv, envp, auxv);
        let co = Coroutine::new_elf(self.next_pid, stack_base, stack_size);
        let ghost co_view = co@;
        let pid: VPid = self.register(co);
        self.ready_queue.push_back(pid);
        assert(self@ =~= old(self)@.registered(co_view).queued(pid));
        (pid, stack)
    }

    /// Creates a child of `parent_pid` at the end of the queue. It shares the
    /// descriptors of its parent. Also returns the files that are no longer
    /// mentioned, which a table that was there under its number left.
    pub fn spawn_fork_child(
        &mut self,
        tables: &mut FdTables,
        pipes: &mut PipeStore,
        parent_pid: VPid,
    ) -> (result: (VPid, Vec<FileRef>))
        requires
            old(self)@.next_pid < u32::MAX,
            old(self)@.vprocs.contains_key(parent_pid),
            old(self)@.wf(),
            old(pipes).wf(),
        ensures
            result.0 == old(self)@.next_pid,
            final(self)@ == old(self)@.forked(parent_pid),
            final(self)@.wf(),
            final(pipes).wf(),
            final(pipes).ids_left() == old(pipes).ids_left(),
            final(tables)@ == old(tables)@.with(result.0, old(tables)@.table_or_new(parent_pid)),
            final(pipes)@ == old(tables)@.pipes_after_fork(parent_pid, result.0, old(pipes)@),
            hands_out(old(tables)@, final(tables)@, result.1@),
            old(tables)@.wf() ==> final(tables)@.wf(),
    {
        let child: VPid = self.next_pid;
        let co = match self.vprocs.get(&parent_pid) {
            Some(parent) => Coroutine::fork_from(child, parent),
            None => Coroutine::new(child),
        };
        self.next_pid = self.next_pid + 1;
        self.vprocs.insert(child, co);
        self.ready_queue.push_back(child);
        match self.children.entry(parent_pid) {
            Entry::Occupied(entry) => entry.into_mut().push(child),
            Entry::Vacant(entry) => {
                let mut kids: Vec<VPid> = Vec::new();
                kids.push(child);
                entry.insert(kids);
            },
        }
        let files = fork_fd_table(tables, pipes, parent_pid, child);
        match self.vprocs.entry(parent_pid) {
            Entry::Occupied(entry) => entry.into_mut().fork_child_pid = child,
            Entry::Vacant(_) => {},
        }
        assert(self@ =~= old(self)@.forked(parent_pid));
        (child, files)
    }

    /// Takes the next live process off the queue, with the stale entries before
    /// it.
    fn pick_next(&mut self) -> (pid: Option<VPid>)
        ensures
            pid == old(self)@.next_up(),
            final(self)@ == old(self)@.picked(),
    {
        let ghost start = self@;
        let ghost mut skipped: nat = 0;
        while self.ready_queue.len() > 0
            invariant
                start == old(self)@,
                self@ == (ExecutorView { ready: self.ready_queue@, ..start }),
                skipped <= start.ready.len(),
                self.ready_queue@ =~= start.ready.skip(skipped as int),
                start.stale(start.ready) == skipped + start.stale(self.ready_queue@),
            decreases self.ready_queue@.len(),
        {
            let ghost queue = self.ready_queue@;
            if let Some(pid) = self.ready_queue.pop_front() {
                assert(self.ready_queue@ =~= queue.drop_first());
                assert(start.live(pid) == self@.live(pid));
                if self.is_live(pid) {
                    assert(start.stale(queue) == 0);
                    assert(self.ready_queue@ =~= start.ready.skip(skipped as int + 1));
                    assert(self@ =~= start.picked());
                    return Some(pid);
                }
                proof {
                    skipped = skipped + 1;
                    assert(self@ =~= (ExecutorView { ready: self.ready_queue@, ..start }));
                }
            }
        }
        assert(self.ready_queue@ =~= Seq::<VPid>::empty());
        assert(self@ =~= start.picked());
        None
    }

    /// Delivers the pending signals of `pid`. Returns whether one ended it.
    fn deliver_signals(&mut self, pid: VPid) -> (killed: bool)
        ensures
            killed == old(self)@.doomed(pid),
            final(self)@ == old(self)@.delivered(pid),
    {
        let ghost before = self@;
        let killed = match self.vprocs.entry(pid) {
            Entry::Vacant(_) => false,
            Entry::Occupied(entry) => {
                let co = entry.into_mut();
                let mut signals: Vec<i32> = Vec::new();
                signals.append(&mut co.pending_signals);
                match find_fatal(&signals) {
                    Some(sig) => {
                        co.set_done(128 + sig);
                        true
                    },
                    None => false,
                }
            },
        };
        assert(self@ =~= before.delivered(pid));
        killed
    }
}

impl Executor {
    /// Marks `pid` as running and as not waiting, and counts the switch.
    fn dispatch(&mut self, pid: VPid)
        requires
            old(self)@.switches < u64::MAX,
            old(self)@.vprocs.contains_key(pid),
        ensures
            final(self)@ == old(self)@.dispatched(pid),
    {
        self.current = Some(pid);
        self.switch_count = self.switch_count + 1;
        match self.vprocs.entry(pid) {
            Entry::Occupied(entry) => {
                let co = entry.into_mut();
                co.resume();
                co.io_wait = None;
            },
            Entry::Vacant(_) => {},
        }
        assert(self@ =~= old(self)@.dispatched(pid));
    }

    /// Decides who runs next. The process that gave up its turn goes to the end
    /// of the queue while it is alive.
    pub fn step(&mut self) -> (step: Step)
        requires
            old(self)@.switches < u64::MAX,
        ensures
            step == old(self)@.step_result(),
            final(self)@ == old(self)@.after_step(),
            old(self)@.wf() ==> final(self)@.wf(),
    {
        let next: Option<VPid> = self.pick_next();
        match next {
            None => Step::Idle,
            Some(pid) => {
                proof {
                    lemma_next_up_live(old(self)@, old(self)@.ready);
                }
                if self.deliver_signals(pid) {
                    if let Some(cur) = self.current {
                        self.ready_queue.push_back(cur);
                        assert(self@ =~= old(self)@.picked().delivered(pid).queued(cur));
                    }
                    proof {
                        lemma_picked_wf(old(self)@);
                    }
                    return Step::Killed(pid);
                }
                let ghost before = self@;
                if let Some(cur) = self.current {
                    if self.is_live(cur) {
                        self.ready_queue.push_back(cur);
                        assert(self@ =~= before.queued(cur));
                    }
                }
                self.dispatch(pid);
                proof {
                    lemma_picked_wf(old(self)@);
                }
                Step::Resume(pid)
            },
        }
    }

    /// The current process gives up its turn: it goes to the end of the queue,
    /// and the next one is decided on.
    pub fn yield_now(&mut self) -> (step: Step)
        requires
            old(self)@.switches < u64::MAX,
            old(self)@.current matches Some(pid) ==> old(self)@.vprocs.contains_key(pid),
        ensures
            step == old(self)@.yielded().step_result(),
            final(self)@ == old(self)@.yielded().after_step(),
            old(self)@.wf() ==> final(self)@.wf(),
    {
        if let Some(pid) = self.current {
            if self.is_live(pid) {
                match self.vprocs.entry(pid) {
                    Entry::Occupied(entry) => entry.into_mut().yield_now(),
                    Entry::Vacant(_) => {},
                }
                self.ready_queue.push_back(pid);
                self.current = None;
            }
        }
        assert(self@ =~= old(self)@.yielded());
        self.step()
    }

    /// Decides who runs next, for a driver outside of all processes. A process
    /// that a signal ended is not switched to.
    pub fn step_from_driver(&mut self) -> (step: Step)
        requires
            old(self)@.switches < u64::MAX,
        ensures
            step == old(self)@.step_result(),
            final(self)@ == old(self)@.after_driver_step(),
            old(self)@.wf() ==> final(self)@.wf(),
    {
        let next: Option<VPid> = self.pick_next();
        match next {
            None => Step::Idle,
            Some(pid) => {
                proof {
                    lemma_next_up_live(old(self)@, old(self)@.ready);
                    lemma_picked_wf(old(self)@);
                }
                if self.deliver_signals(pid) {
                    self.current = None;
                    assert(self@ =~= old(self)@.after_driver_step());
                    Step::Killed(pid)
                } else {
                    self.dispatch(pid);
                    Step::Resume(pid)
                }
            },
        }
    }

    /// Process `pid`, to which the driver had switched, gave control back; `dead`
    /// says whether it ran to its end. It is queued again while it is alive and
    /// does not sleep.
    pub fn driver_step_done(&mut self, pid: VPid, dead: bool)
        ensures
            final(self)@ == (ExecutorView {
                current: None,
                ..old(self)@.returned(pid, dead).requeued(pid)
            }),
            old(self)@.wf() ==> final(self)@.wf(),
    {
        self.switched_back(pid, dead);
        let ghost before = self@;
        let requeue = match self.vprocs.get(&pid) {
            Some(co) => !co.is_done() && !co.sleeps(),
            None => false,
        };
        if requeue {
            self.ready_queue.push_back(pid);
            assert(self@ =~= before.queued(pid));
        }
        self.current = None;
        assert(self@ =~= (ExecutorView { current: None, ..before.requeued(pid) }));
    }

    /// Process `pid` gave control back; `dead` says whether it ran to its end.
    pub fn switched_back(&mut self, pid: VPid, dead: bool)
        ensures
            final(self)@ == old(self)@.returned(pid, dead),
            old(self)@.wf() ==> final(self)@.wf(),
    {
        match self.vprocs.entry(pid) {
            Entry::Occupied(entry) => entry.into_mut().switched_back(dead),
            Entry::Vacant(_) => {},
        }
        assert(self@ =~= old(self)@.returned(pid, dead));
    }

    /// Whether some process has not ended.
    pub fn any_live(&self) -> (yes: bool)
        ensures
            yes == exists|pid: VPid| self@.live(pid),
    {
        let pids: Vec<VPid> = keys_of(&self.vprocs);
        let mut i: usize = 0;
        while i < pids.len()
            invariant
                i <= pids@.len(),
                forall|pid: VPid| pids@.contains(pid) <==> self.vprocs@.contains_key(pid),
                forall|k: int| 0 <= k < i ==> !self@.live(#[trigger] pids@[k]),
            decreases pids.len() - i,
        {
            if self.is_live(pids[i]) {
                return true;
            }
            i = i + 1;
        }
        assert forall|pid: VPid| !self@.live(pid) by {
            if self@.live(pid) {
                assert(pids@.contains(pid));
            }
        }
        false
    }

    /// Decides who runs next in a run to completion. `Idle` ends the run: all
    /// processes have ended, or none of the others is queued.
    pub fn block_on_step(&mut self) -> (step: Step)
        requires
            old(self)@.switches < u64::MAX,
        ensures
            (exists|pid: VPid| old(self)@.live(pid)) ==> {
                &&& step == old(self)@.step_result()
                &&& final(self)@ == old(self)@.after_block_step()
            },
            !(exists|pid: VPid| old(self)@.live(pid)) ==> {
                &&& step == Step::Idle
                &&& final(self)@ == old(self)@
            },
            old(self)@.wf() ==> final(self)@.wf(),
    {
        if !self.any_live() {
            return Step::Idle;
        }
        let next: Option<VPid> = self.pick_next();
        match next {
            None => Step::Idle,
            Some(pid) => {
                proof {
                    lemma_next_up_live(old(self)@, old(self)@.ready);
                    lemma_picked_wf(old(self)@);
                }
                if self.deliver_signals(pid) {
                    Step::Killed(pid)
                } else {
                    self.dispatch(pid);
                    Step::Resume(pid)
                }
            },
        }
    }

    /// Process `pid` gave control back in a run to completion. It is queued
    /// again while it is alive.
    pub fn block_on_step_done(&mut self, pid: VPid, dead: bool)
        ensures
            final(self)@ == (if old(self)@.returned(pid, dead).live(pid) {
                old(self)@.returned(pid, dead).queued(pid)
            } else {
                old(self)@.returned(pid, dead)
            }),
            old(self)@.wf() ==> final(self)@.wf(),
    {
        self.switched_back(pid, dead);
        let ghost before = self@;
        if self.is_live(pid) {
            self.ready_queue.push_back(pid);
            assert(self@ =~= before.queued(pid));
        }
    }
}

/// What is left of processes that were cleaned up.
pub struct Reaped {
    /// The processes; what they own is to be released.
    pub coroutines: Vec<Coroutine>,
    /// Files that no process refers to any more; their kernel descriptors are to
    /// be closed.
    pub files: Vec<FileRef>,
    /// The programs that the processes ran.
    pub binaries: Vec<String>,
}

/// `co` is one of the processes `coroutines`.
pub open spec fn holds_coroutine(coroutines: Seq<Coroutine>, co: CoroView) -> bool {
    exists|i: int| 0 <= i < coroutines.len() && (#[trigger] coroutines[i])@ == co
}

/// `co` is a process that has ended in `ex` and was not cleaned up yet.
pub open spec fn ended(ex: ExecutorView, co: CoroView) -> bool {
    exists|pid: VPid| #[trigger] ex.done(pid) && ex.vprocs[pid] == co
}

/// The tables without those of the processes that ended in `ex`.
pub open spec fn tables_reaped(tables: FdTablesView, ex: ExecutorView) -> FdTablesView {
    FdTablesView {
        tables: tables.tables.restrict(Set::new(|pid: VPid| !ex.done(pid))),
        next_file: tables.next_file,
    }
}

/// The processes that ended in `ex`.
pub open spec fn done_set(ex: ExecutorView) -> Set<VPid> {
    Set::new(|pid: VPid| ex.done(pid))
}

/// The pipes after the processes that ended in `ex` were cleaned up: their tables
/// are dropped, which closes their pipes outright, and pipes that no process
/// mentions any more are freed.
pub open spec fn pipes_reaped(
    pipes: Map<u64, PipeView>,
    tables: FdTablesView,
    ex: ExecutorView,
) -> Map<u64, PipeView> {
    tables.pipes_after_drops(done_set(ex), pipes).restrict(
        Set::new(|id: u64| tables_reaped(tables, ex).mentions_pipe(id)),
    )
}

impl Executor {
    /// The processes that have ended, each once.
    fn done_pids(&self) -> (pids: Vec<VPid>)
        ensures
            pids@.no_duplicates(),
            forall|pid: VPid| pids@.contains(pid) <==> self@.done(pid),
    {
        let all: Vec<VPid> = keys_of(&self.vprocs);
        let mut pids: Vec<VPid> = Vec::new();
        let mut i: usize = 0;
        while i < all.len()
            invariant
                i <= all@.len(),
                all@.no_duplicates(),
                forall|pid: VPid| all@.contains(pid) <==> self.vprocs@.contains_key(pid),
                pids@.no_duplicates(),
                forall|pid: VPid| #[trigger]
                    pids@.contains(pid) <==> self@.done(pid) && exists|k: int|
                        0 <= k < i && #[trigger] all@[k] == pid,
            decreases all.len() - i,
        {
            let pid: VPid = all[i];
            let ghost before = pids@;
            assert(all@.contains(pid));
            let done = match self.vprocs.get(&pid) {
                Some(co) => co.is_done(),
                None => false,
            };
            if done {
                assert(!before.contains(pid));
                pids.push(pid);
            }
            proof {
                assert forall|p: VPid| #[trigger] pids@.contains(p) <==> self@.done(p)
                    && exists|k: int| 0 <= k < i + 1 && #[trigger] all@[k] == p by {
                    if before.contains(p) {
                        let k = choose|k: int| 0 <= k < before.len() && before[k] == p;
                        assert(pids@[k] == p);
                    }
                    if p == pid && done {
                        assert(pids@[pids@.len() - 1] == p);
                    }
                }
            }
            i = i + 1;
        }
        assert forall|pid: VPid| pids@.contains(pid) <==> self@.done(pid) by {
            if self@.done(pid) {
                assert(all@.contains(pid));
            }
        }
        pids
    }

    /// Removes process `pid`.
    fn take_vproc(&mut self, pid: VPid) -> (co: Option<Coroutine>)
        ensures
            final(self)@ == (ExecutorView { vprocs: old(self)@.vprocs.remove(pid), ..old(self)@ }),
            match co {
                Some(c) => old(self)@.vprocs.contains_key(pid) && c@ == old(self)@.vprocs[pid],
                None => !old(self)@.vprocs.contains_key(pid),
            },
    {
        let removed: Option<Coroutine> = self.vprocs.remove(&pid);
        assert(self@ =~= (ExecutorView { vprocs: old(self)@.vprocs.remove(pid), ..old(self)@ }));
        removed
    }

    /// Cleans up the lists of children, before ended processes are removed.
    fn reap_children(&mut self)
        ensures
            final(self)@ == (ExecutorView { children: old(self)@.reaped().children, ..old(self)@ }),
    {
        let pids: Vec<VPid> = keys_of(&self.children);
        let ghost before = self@;
        let mut i: usize = 0;
        while i < pids.len()
            invariant
                before == old(self)@,
                i <= pids@.len(),
                pids@.no_duplicates(),
                forall|pid: VPid| pids@.contains(pid) <==> before.children.contains_key(pid),
                self@ == (ExecutorView { children: self@.children, ..before }),
                forall|pid: VPid| #[trigger] self@.children.contains_key(pid) ==> before.children.contains_key(pid),
                forall|k: int|
                    i <= k < pids@.len() ==> self@.children.contains_key(#[trigger] pids@[k])
                        && self@.children[pids@[k]] == before.children[pids@[k]],
                forall|k: int|
                    0 <= k < i ==> (self@.children.contains_key(#[trigger] pids@[k])
                        <==> before.reaped().children.contains_key(pids@[k])),
                forall|k: int|
                    0 <= k < i && self@.children.contains_key(#[trigger] pids@[k])
                        ==> self@.children[pids@[k]] == before.kept_children(pids@[k]),
            decreases pids.len() - i,
        {
            let pid: VPid = pids[i];
            assert(pids@.contains(pid));
            let ghost now = self@;
            let done = match self.vprocs.get(&pid) {
                Some(co) => co.is_done(),
                None => false,
            };
            let kept: Vec<VPid> = match self.children.get(&pid) {
                Some(kids) => self.keep_kids(kids),
                None => Vec::new(),
            };
            if done || kept.len() == 0 {
                self.children.remove(&pid);
                assert(self@.children =~= now.children.remove(pid));
            } else {
                self.children.insert(pid, kept);
                assert(self@.children =~= now.children.insert(pid, kept@));
            }
            assert(self@ =~= (ExecutorView { children: self@.children, ..before }));
            i = i + 1;
        }
        proof {
            assert forall|pid: VPid|
                self@.children.contains_key(pid) <==> before.reaped().children.contains_key(
                    pid,
                ) by {
                if before.children.contains_key(pid) {
                    assert(pids@.contains(pid));
                }
            }
            assert forall|pid: VPid| self@.children.contains_key(pid) implies self@.children[pid]
                == before.reaped().children[pid] by {
                assert(pids@.contains(pid));
            }
            assert(self@.children =~= before.reaped().children);
        }
    }

    /// Those of `kids` that are processes.
    fn keep_kids(&self, kids: &Vec<VPid>) -> (kept: Vec<VPid>)
        ensures
            kept@ == kept_kids(kids@, self@.vprocs),
    {
        let mut kept: Vec<VPid> = Vec::new();
        let mut i: usize = 0;
        while i < kids.len()
            invariant
                i <= kids@.len(),
                kept@ == kept_kids(kids@.take(i as int), self@.vprocs),
            decreases kids.len() - i,
        {
            assert(kids@.take(i + 1).drop_last() =~= kids@.take(i as int));
            if self.vprocs.contains_key(&kids[i]) {
                kept.push(kids[i]);
            }
            i = i + 1;
        }
        assert(kids@.take(i as int) =~= kids@);
        kept
    }

    /// Cleans up the processes that have ended: they leave the scheduler, their
    /// descriptor tables are dropped, and what has to be released outside is
    /// returned. Live processes are untouched, and so are recorded exit codes.
    #[verifier::rlimit(60)]
    pub fn reap_done_coroutines(&mut self, tables: &mut FdTables, pipes: &mut PipeStore) -> (reaped:
        Reaped)
        requires
            old(pipes).wf(),
        ensures
            final(self)@ == old(self)@.reaped(),
            old(self)@.wf() ==> final(self)@.wf(),
            final(tables)@ == tables_reaped(old(tables)@, old(self)@),
            old(tables)@.wf() ==> final(tables)@.wf(),
            final(pipes).wf(),
            final(pipes).ids_left() == old(pipes).ids_left(),
            final(pipes)@ == pipes_reaped(old(pipes)@, old(tables)@, old(self)@),
            forall|co: CoroView|
                #![trigger holds_coroutine(reaped.coroutines@, co)]
                holds_coroutine(reaped.coroutines@, co) <==> ended(old(self)@, co),
            old(self)@.wf() ==> forall|i: int, j: int|
                0 <= i < j < reaped.coroutines@.len() ==> #[trigger] reaped.coroutines@[i].id
                    != #[trigger] reaped.coroutines@[j].id,
            texts(reaped.binaries@) == binary_paths(reaped.coroutines@),
            hands_out(old(tables)@, final(tables)@, reaped.files@),
    {
        let done: Vec<VPid> = self.done_pids();
        self.reap_children();
        let ghost start = old(self)@;
        let ghost tables0 = old(tables)@;
        let ghost pipes0 = old(pipes)@;
        let mut coroutines: Vec<Coroutine> = Vec::new();
        let mut files: Vec<FileRef> = Vec::new();
        let mut binaries: Vec<String> = Vec::new();
        let mut i: usize = 0;
        proof {
            lemma_tables_finite(tables);
            assert(done@.take(0).to_set() =~= Set::empty());
            lemma_drops_none(tables0, pipes0);
            assert(tables@.tables =~= tables0.tables.remove_keys(done@.take(0).to_set()));
            assert(self@.vprocs =~= start.vprocs.remove_keys(done@.take(0).to_set()));
        }
        while i < done.len()
            invariant
                i <= done@.len(),
                done@.no_duplicates(),
                tables0.finite(),
                start == old(self)@,
                tables0 == old(tables)@,
                pipes0 == old(pipes)@,
                forall|pid: VPid| done@.contains(pid) <==> start.done(pid),
                self@.children == start.reaped().children,
                self@ == (ExecutorView {
                    vprocs: self@.vprocs,
                    children: self@.children,
                    ..start
                }),
                self@.vprocs == start.vprocs.remove_keys(done@.take(i as int).to_set()),
                coroutines@.len() == i,
                forall|k: int| 0 <= k < i ==> (#[trigger] coroutines@[k])@ == start.vprocs[done@[k]],
                texts(binaries@) == binary_paths(coroutines@),
                pipes.wf(),
                pipes.ids_left() == old(pipes).ids_left(),
                tables@.next_file == tables0.next_file,
                tables@.tables == tables0.tables.remove_keys(done@.take(i as int).to_set()),
                pipes@ == tables0.pipes_after_drops(done@.take(i as int).to_set(), pipes0),
                hands_out(tables0, tables@, files@),
            decreases done.len() - i,
        {
            let pid: VPid = done[i];
            let ghost prefix = done@.take(i as int);
            let ghost tables1 = tables@;
            let ghost files1 = files@;
            let ghost coroutines1 = coroutines@;
            let ghost binaries1 = binaries@;
            proof {
                assert(done@.contains(pid));
                assert(done@.take(i + 1) =~= prefix.push(pid));
                lemma_prefix_set(done@, i as int);
                assert(start.done(pid));
                assert(self@.vprocs.contains_key(pid));
            }
            let ghost before = self@;
            let removed: Option<Coroutine> = self.take_vproc(pid);
            proof {
                assert(self@.vprocs =~= start.vprocs.remove_keys(done@.take(i + 1).to_set()));
                assert(self@ =~= (ExecutorView {
                    vprocs: self@.vprocs,
                    children: self@.children,
                    ..start
                }));
            }
            if let Some(co) = removed {
                let ghost co_view = co@;
                if let Some(path) = &co.binary_path {
                    binaries.push(path.clone());
                    assert(texts(binaries@) =~= texts(binaries1).push(path@));
                }
                coroutines.push(co);
                assert(coroutines@.drop_last() =~= coroutines1);
            }
            let mut unused: Vec<FileRef> = remove_table_and_get_fds(tables, pipes, pid);
            proof {
                assert(tables@.tables =~= tables0.tables.remove_keys(done@.take(i + 1).to_set()));
                let gone = prefix.to_set();
                if tables0.tables.contains_key(pid) {
                    assert(tables1.tables.contains_key(pid));
                }
                lemma_drops_more(tables0, gone, pid, pipes0);
                assert(done@.take(i + 1).to_set() =~= gone.insert(pid));
                lemma_fewer_files(tables@, tables1);
                lemma_fewer_files(tables1, tables0);
            }
            let ghost unused0 = unused@;
            files.append(&mut unused);
            proof {
                lemma_hands_out_chain(tables0, tables1, tables@, files1, unused0);
            }
            i = i + 1;
        }
        proof {
            assert(done@.take(i as int) =~= done@);
            assert forall|pid: VPid| done@.to_set().contains(pid) <==> start.done(pid) by {
                assert(done@.to_set().contains(pid) <==> done@.contains(pid));
            }
            assert(self@.vprocs =~= start.reaped().vprocs);
            assert(self@ =~= start.reaped());
            assert(tables@.tables =~= tables_reaped(tables0, start).tables);
            assert(done@.to_set() =~= done_set(start));
        }
        release_unused_pipes(tables, pipes);
        proof {
            assert(pipes@ =~= pipes_reaped(pipes0, tables0, start));
            assert forall|p: u32, fd: u32|
                #![trigger tables@.tables[p].fds[fd]]
                tables0.wf() && tables@.tables.contains_key(p) && tables@.tables[p].fds.contains_key(
                    fd,
                ) implies (tables@.tables[p].fds[fd] matches Vfd::File(file) ==> file.id
                < tables@.next_file) by {
                assert(tables@.tables[p].fds[fd] == tables0.tables[p].fds[fd]);
            }
            assert forall|co: CoroView|
                #![trigger holds_coroutine(coroutines@, co)]
                holds_coroutine(coroutines@, co) <==> ended(start, co) by {
                if holds_coroutine(coroutines@, co) {
                    let k = choose|k: int|
                        0 <= k < coroutines@.len() && (#[trigger] coroutines@[k])@ == co;
                    assert(done@.contains(done@[k]));
                    assert(start.done(done@[k]));
                }
                if ended(start, co) {
                    let pid = choose|pid: VPid| #[trigger]
                        start.done(pid) && start.vprocs[pid] == co;
                    assert(done@.contains(pid));
                    let k = choose|k: int| 0 <= k < done@.len() && done@[k] == pid;
                    assert(coroutines@[k]@ == co);
                }
            }
            assert forall|k: int, j: int|
                start.wf() && 0 <= k < j < coroutines@.len() implies #[trigger] coroutines@[k].id
                != #[trigger] coroutines@[j].id by {
                assert(coroutines@[k]@.id == start.vprocs[done@[k]].id);
                assert(coroutines@[j]@.id == start.vprocs[done@[j]].id);
                assert(done@.contains(done@[k]) && done@.contains(done@[j]));
                assert(start.done(done@[k]) && start.done(done@[j]));
            }
        }
        Reaped { coroutines, files, binaries }
    }
}

impl Executor {
    /// The process that runs.
    pub fn current_pid(&self) -> (pid: Option<VPid>)
        ensures
            pid == self@.current,
    {
        self.current
    }

    /// How often a process got its turn.
    pub fn switch_count(&self) -> (n: u64)
        ensures
            n == self@.switches,
    {
        self.switch_count
    }

    /// The number that the next process gets.
    pub fn next_pid(&self) -> (pid: VPid)
        ensures
            pid == self@.next_pid,
    {
        self.next_pid
    }

    /// Hands C strings over to process `vpid`, in place of those it had.
    pub fn register_c_strings(&mut self, vpid: VPid, strings: Vec<usize>)
        ensures
            final(self)@ == old(self)@.changed(
                vpid,
                |co: CoroView| CoroView { c_strings: strings@, ..co },
            ),
            old(self)@.wf() ==> final(self)@.wf(),
    {
        match self.vprocs.entry(vpid) {
            Entry::Occupied(entry) => entry.into_mut().c_strings = strings,
            Entry::Vacant(_) => {},
        }
        assert(self@ =~= old(self)@.changed(
            vpid,
            |co: CoroView| CoroView { c_strings: strings@, ..co },
        ));
    }

    /// Hands a mapping over to process `vpid`.
    pub fn register_mapped_region(&mut self, vpid: VPid, base: usize, size: usize)
        ensures
            final(self)@ == old(self)@.changed(
                vpid,
                |co: CoroView|
                    CoroView { mapped_regions: co.mapped_regions.push((base, size)), ..co },
            ),
            old(self)@.wf() ==> final(self)@.wf(),
    {
        match self.vprocs.entry(vpid) {
            Entry::Occupied(entry) => entry.into_mut().mapped_regions.push((base, size)),
            Entry::Vacant(_) => {},
        }
        assert(self@ =~= old(self)@.changed(
            vpid,
            |co: CoroView| CoroView { mapped_regions: co.mapped_regions.push((base, size)), ..co },
        ));
    }

    /// Queues `sig` for process `vpid`, and wakes it where it waits for
    /// descriptors. Returns whether there is such a process.
    pub fn queue_signal(&mut self, vpid: VPid, sig: i32) -> (found: bool)
        ensures
            found == old(self)@.vprocs.contains_key(vpid),
            final(self)@ == old(self)@.notified(vpid, sig),
            old(self)@.wf() ==> final(self)@.wf(),
    {
        let found = match self.vprocs.entry(vpid) {
            Entry::Occupied(entry) => {
                entry.into_mut().pending_signals.push(sig);
                true
            },
            Entry::Vacant(_) => false,
        };
        assert(self@ =~= old(self)@.changed(
            vpid,
            |co: CoroView| CoroView { pending_signals: co.pending_signals.push(sig), ..co },
        ));
        self.wake(vpid);
        found
    }

    /// Sets the working directory of process `vpid`.
    pub fn set_cwd(&mut self, vpid: VPid, cwd: String)
        ensures
            final(self)@ == old(self)@.changed(
                vpid,
                |co: CoroView| CoroView { cwd: Some(cwd@), ..co },
            ),
            old(self)@.wf() ==> final(self)@.wf(),
    {
        match self.vprocs.entry(vpid) {
            Entry::Occupied(entry) => entry.into_mut().cwd = Some(cwd),
            Entry::Vacant(_) => {},
        }
        assert(self@ =~= old(self)@.changed(
            vpid,
            |co: CoroView| CoroView { cwd: Some(cwd@), ..co },
        ));
    }

    /// Records the program that process `vpid` runs.
    pub fn set_binary_path(&mut self, vpid: VPid, path: String)
        ensures
            final(self)@ == old(self)@.changed(
                vpid,
                |co: CoroView| CoroView { binary_path: Some(path@), ..co },
            ),
            old(self)@.wf() ==> final(self)@.wf(),
    {
        match self.vprocs.entry(vpid) {
            Entry::Occupied(entry) => entry.into_mut().binary_path = Some(path),
            Entry::Vacant(_) => {},
        }
        assert(self@ =~= old(self)@.changed(
            vpid,
            |co: CoroView| CoroView { binary_path: Some(path@), ..co },
        ));
    }

    /// Whether process `vpid` is a forked child that has not returned from the
    /// fork yet; from now on it has.
    pub fn take_fork_child(&mut self, vpid: VPid) -> (was_child: bool)
        ensures
            was_child == (old(self)@.vprocs.contains_key(vpid) && old(
                self,
            )@.vprocs[vpid].is_fork_child),
            final(self)@ == old(self)@.changed(
                vpid,
                |co: CoroView| CoroView { is_fork_child: false, ..co },
            ),
            old(self)@.wf() ==> final(self)@.wf(),
    {
        let was_child = match self.vprocs.entry(vpid) {
            Entry::Occupied(entry) => {
                let co = entry.into_mut();
                let was_child = co.is_fork_child;
                co.is_fork_child = false;
                was_child
            },
            Entry::Vacant(_) => false,
        };
        assert(self@ =~= old(self)@.changed(
            vpid,
            |co: CoroView| CoroView { is_fork_child: false, ..co },
        ));
        was_child
    }

    /// Saves the return address of a process that forks.
    pub fn save_fork_lr(&mut self, lr: u64)
        ensures
            final(self)@ == (ExecutorView { saved_fork_lr: Some(lr), ..old(self)@ }),
            old(self)@.wf() ==> final(self)@.wf(),
    {
        self.saved_fork_lr = Some(lr);
        assert(self@ =~= (ExecutorView { saved_fork_lr: Some(lr), ..old(self)@ }));
    }

    /// Takes the saved return address.
    pub fn take_fork_lr(&mut self) -> (lr: Option<u64>)
        ensures
            lr == old(self)@.saved_fork_lr,
            final(self)@ == (ExecutorView { saved_fork_lr: None, ..old(self)@ }),
            old(self)@.wf() ==> final(self)@.wf(),
    {
        let lr: Option<u64> = self.saved_fork_lr;
        self.saved_fork_lr = None;
        assert(self@ =~= (ExecutorView { saved_fork_lr: None, ..old(self)@ }));
        lr
    }

    /// The current process waits until one of `fds` is ready; without
    /// descriptors it does not wait. Returns whether there is a current process.
    pub fn yield_for_io(&mut self, fds: Vec<(i32, i16)>) -> (found: bool)
        ensures
            found == (old(self)@.current matches Some(pid) && old(self)@.vprocs.contains_key(pid)),
            final(self)@ == old(self)@.waiting_for(fds@, false),
            old(self)@.wf() ==> final(self)@.wf(),
    {
        self.yield_for_poll(fds, false)
    }

    /// The current process waits until one of `fds` is ready. Where it polls
    /// virtual pipes besides, it stays in the queue, and looks at them at each
    /// turn. Without descriptors it does not wait. Returns whether there is a
    /// current process.
    pub fn yield_for_poll(&mut self, fds: Vec<(i32, i16)>, polls_pipes: bool) -> (found: bool)
        ensures
            found == (old(self)@.current matches Some(pid) && old(self)@.vprocs.contains_key(pid)),
            final(self)@ == old(self)@.waiting_for(fds@, polls_pipes),
            old(self)@.wf() ==> final(self)@.wf(),
    {
        match self.current {
            None => false,
            Some(pid) => {
                let found = match self.vprocs.entry(pid) {
                    Entry::Occupied(entry) => {
                        entry.into_mut().io_wait = if fds.len() == 0 {
                            None
                        } else {
                            Some(IoWait { fds, deadline: None, polls_pipes })
                        };
                        true
                    },
                    Entry::Vacant(_) => false,
                };
                assert(self@ =~= old(self)@.waiting_for(fds@, polls_pipes));
                found
            },
        }
    }

    /// The descriptors that processes wait for.
    pub fn collect_io_waits(&self) -> (queries: Vec<IoQuery>)
        ensures
            forall|query: IoQuery| #[trigger] queries@.contains(query) <==> self@.waits(query),
    {
        let mut queries: Vec<IoQuery> = Vec::new();
        let pids: Vec<VPid> = keys_of(&self.vprocs);
        let mut i: usize = 0;
        while i < pids.len()
            invariant
                i <= pids@.len(),
                forall|pid: VPid| pids@.contains(pid) <==> self.vprocs@.contains_key(pid),
                forall|query: IoQuery| #[trigger]
                    queries@.contains(query) <==> self@.waits(query) && exists|k: int|
                        0 <= k < i && #[trigger] pids@[k] == query.pid,
            decreases pids.len() - i,
        {
            let pid: VPid = pids[i];
            assert(pids@.contains(pid));
            let ghost start = queries@;
            if let Some(co) = self.vprocs.get(&pid) {
                if let Some(wait) = &co.io_wait {
                    let ghost fds = wait.fds@;
                    assert(self@.vprocs[pid].io_wait == Some(wait@));
                    let mut j: usize = 0;
                    while j < wait.fds.len()
                        invariant
                            j <= wait.fds@.len(),
                            wait.fds@ == fds,
                            forall|query: IoQuery| #[trigger]
                                queries@.contains(query) <==> start.contains(query) || (query.pid
                                    == pid && fds.take(j as int).contains(
                                    (query.fd, query.events),
                                )),
                        decreases wait.fds.len() - j,
                    {
                        let (fd, events) = wait.fds[j];
                        let ghost before = queries@;
                        let query = IoQuery { pid, fd, events };
                        queries.push(query);
                        proof {
                            assert(fds.take(j + 1) =~= fds.take(j as int).push((fd, events)));
                            assert forall|q: IoQuery| #[trigger]
                                queries@.contains(q) <==> start.contains(q) || (q.pid == pid
                                    && fds.take(j + 1).contains((q.fd, q.events))) by {
                                lemma_contains_push(before, query, q);
                                lemma_contains_push(
                                    fds.take(j as int),
                                    (fd, events),
                                    (q.fd, q.events),
                                );
                            }
                        }
                        j = j + 1;
                    }
                    assert(fds.take(j as int) =~= fds);
                }
            }
            proof {
                assert forall|query: IoQuery| #[trigger]
                    queries@.contains(query) <==> self@.waits(query) && exists|k: int|
                        0 <= k < i + 1 && #[trigger] pids@[k] == query.pid by {
                    if query.pid == pid {
                        assert(pids@[i as int] == query.pid);
                    }
                    assert(start.contains(query) ==> queries@.contains(query));
                }
            }
            i = i + 1;
        }
        assert forall|query: IoQuery| #[trigger] queries@.contains(query) <==> self@.waits(
            query,
        ) by {
            if self@.waits(query) {
                assert(pids@.contains(query.pid));
            }
        }
        queries
    }

    /// Ends the wait of `pid`, and queues it again, where it slept.
    fn wake(&mut self, pid: VPid)
        ensures
            final(self)@ == old(self)@.woken(pid),
            old(self)@.wf() ==> final(self)@.wf(),
    {
        let mut queue = false;
        match self.vprocs.entry(pid) {
            Entry::Occupied(entry) => {
                let co = entry.into_mut();
                if co.io_wait.is_some() {
                    queue = !co.is_done() && co.sleeps();
                    co.io_wait = None;
                }
            },
            Entry::Vacant(_) => {},
        }
        if queue {
            self.ready_queue.push_back(pid);
        }
        assert(self@ =~= old(self)@.woken(pid));
    }

    /// Wakes the processes for whose descriptors `revents` reports something.
    pub fn wake_io_ready(&mut self, queries: &[IoQuery], revents: &[i16])
        requires
            queries@.len() == revents@.len(),
        ensures
            final(self)@ == old(self)@.all_woken(queries@, revents@),
            forall|pid: VPid| #[trigger]
                old(self)@.vprocs.contains_key(pid) ==> final(self)@.vprocs[pid] == (CoroView {
                    io_wait: if exists|i: int|
                        0 <= i < queries@.len() && (#[trigger] queries@[i]).pid == pid
                            && revents@[i] != 0 {
                        None
                    } else {
                        old(self)@.vprocs[pid].io_wait
                    },
                    ..old(self)@.vprocs[pid]
                }),
            old(self)@.wf() ==> final(self)@.wf(),
    {
        proof {
            assert forall|pid: VPid| #[trigger] self@.vprocs.contains_key(pid) implies self@.all_woken(
                queries@,
                revents@,
            ).vprocs[pid] == (CoroView {
                io_wait: if exists|i: int|
                    0 <= i < queries@.len() && (#[trigger] queries@[i]).pid == pid && revents@[i]
                        != 0 {
                    None
                } else {
                    self@.vprocs[pid].io_wait
                },
                ..self@.vprocs[pid]
            }) by {
                law_ready_processes_wake(self@, queries@, revents@, pid);
            }
        }
        let mut i: usize = 0;
        while i < queries.len()
            invariant
                i <= queries@.len(),
                queries@.len() == revents@.len(),
                self@ == old(self)@.all_woken(queries@.take(i as int), revents@),
                old(self)@.wf() ==> self@.wf(),
            decreases queries.len() - i,
        {
            assert(queries@.take(i + 1).drop_last() =~= queries@.take(i as int));
            if revents[i] != 0 {
                self.wake(queries[i].pid);
            }
            i = i + 1;
        }
        assert(queries@.take(i as int) =~= queries@);
    }
}

proof fn lemma_contains_push<T>(s: Seq<T>, last: T, x: T)
    ensures
        s.push(last).contains(x) <==> s.contains(x) || x == last,
{
    if s.contains(x) {
        let k = choose|k: int| 0 <= k < s.len() && s[k] == x;
        assert(s.push(last)[k] == x);
    }
    assert(s.push(last)[s.len() as int] == last);
}

/// The current process exits with code 0.
pub fn vproc_exit(ex: &mut Executor) -> (pid: Option<VPid>)
    ensures
        pid == old(ex)@.current,
        final(ex)@ == old(ex)@.exited(0),
        old(ex)@.wf() ==> final(ex)@.wf(),
{
    vproc_exit_with_code(ex, 0)
}

/// The current process exits with `code`. Returns its number: it has to give up
/// control now. Nothing happens outside of a process.
pub fn vproc_exit_with_code(ex: &mut Executor, code: i32) -> (pid: Option<VPid>)
    ensures
        pid == old(ex)@.current,
        final(ex)@ == old(ex)@.exited(code),
        old(ex)@.wf() ==> final(ex)@.wf(),
{
    match ex.current {
        None => None,
        Some(pid) => {
            match ex.vprocs.entry(pid) {
                Entry::Occupied(entry) => entry.into_mut().set_done(code),
                Entry::Vacant(_) => {},
            }
            ex.exit_codes.insert(pid, code);
            assert(ex@ =~= old(ex)@.exited(code));
            Some(pid)
        },
    }
}

/// The exit code of process `pid`, once it has ended.
pub fn get_exit_code(ex: &Executor, pid: VPid) -> (code: Option<i32>)
    ensures
        code == ex@.exit_code(pid),
{
    if let Some(code) = ex.exit_codes.get(&pid) {
        return Some(*code);
    }
    match ex.vprocs.get(&pid) {
        Some(co) => if co.is_done() {
            Some(co.exit_code)
        } else {
            None
        },
        None => None,
    }
}

/// Whether `child` is listed as a child of `parent`.
pub fn is_child_of(ex: &Executor, parent: VPid, child: VPid) -> (yes: bool)
    ensures
        yes == (ex@.children.contains_key(parent) && ex@.children[parent].contains(child)),
{
    match ex.children.get(&parent) {
        None => false,
        Some(kids) => {
            let mut i: usize = 0;
            while i < kids.len()
                invariant
                    i <= kids@.len(),
                    ex@.children.contains_key(parent),
                    ex@.children[parent] == kids@,
                    forall|k: int| 0 <= k < i ==> kids@[k] != child,
                decreases kids.len() - i,
            {
                if kids[i] == child {
                    assert(kids@.contains(child));
                    return true;
                }
                i = i + 1;
            }
            false
        },
    }
}

/// Takes `child` off the list of children of `parent`.
pub fn reap_child(ex: &mut Executor, parent: VPid, child: VPid)
    ensures
        final(ex)@ == (if old(ex)@.children.contains_key(parent) {
            ExecutorView {
                children: old(ex)@.children.insert(
                    parent,
                    kids_without(old(ex)@.children[parent], child),
                ),
                ..old(ex)@
            }
        } else {
            old(ex)@
        }),
        old(ex)@.wf() ==> final(ex)@.wf(),
{
    let kept: Option<Vec<VPid>> = match ex.children.get(&parent) {
        None => None,
        Some(kids) => {
            let mut kept: Vec<VPid> = Vec::new();
            let mut i: usize = 0;
            while i < kids.len()
                invariant
                    i <= kids@.len(),
                    kept@ == kids_without(kids@.take(i as int), child),
                decreases kids.len() - i,
            {
                assert(kids@.take(i + 1).drop_last() =~= kids@.take(i as int));
                if kids[i] != child {
                    kept.push(kids[i]);
                }
                i = i + 1;
            }
            assert(kids@.take(i as int) =~= kids@);
            Some(kept)
        },
    };
    if let Some(kids) = kept {
        ex.children.insert(parent, kids);
        assert(ex@ =~= (ExecutorView {
            children: old(ex)@.children.insert(
                parent,
                kids_without(old(ex)@.children[parent], child),
            ),
            ..old(ex)@
        }));
    }
}

/// Forgets the recorded exit code of process `pid`.
pub fn remove_exit_code(ex: &mut Executor, pid: VPid)
    ensures
        final(ex)@ == (ExecutorView { exit_codes: old(ex)@.exit_codes.remove(pid), ..old(ex)@ }),
        old(ex)@.wf() ==> final(ex)@.wf(),
{
    ex.exit_codes.remove(&pid);
    assert(ex@ =~= (ExecutorView { exit_codes: old(ex)@.exit_codes.remove(pid), ..old(ex)@ }));
}

/// Gives up control. Inside a process the context that runs has to switch back,
/// and nothing is decided here (`None`); outside, the driver takes a step.
pub fn do_yield(ex: &mut Executor, in_process: bool) -> (step: Option<Step>)
    requires
        old(ex)@.switches < u64::MAX,
    ensures
        in_process ==> step is None && final(ex)@ == old(ex)@,
        !in_process ==> step == Some(old(ex)@.step_result()) && final(ex)@ == old(
            ex,
        )@.after_driver_step(),
        old(ex)@.wf() ==> final(ex)@.wf(),
{
    if in_process {
        None
    } else {
        Some(ex.step_from_driver())
    }
}

pub(crate) proof fn lemma_next_up_live(ex: ExecutorView, ready: Seq<VPid>)
    ensures
        ex.stale(ready) <= ready.len(),
        ex.stale(ready) < ready.len() ==> ex.live(ready[ex.stale(ready) as int]),
    decreases ready.len(),
{
    if ready.len() > 0 && !ex.live(ready[0]) {
        lemma_next_up_live(ex, ready.drop_first());
    }
}

proof fn lemma_picked_wf(ex: ExecutorView)
    ensures
        ex.wf() ==> ex.picked().wf(),
        ex.next_up() matches Some(pid) ==> ex.live(pid) && (ex.wf() ==> pid < ex.next_pid),
{
    lemma_next_up_live(ex, ex.ready);
}

/// The first signal that ends the process, if there is one.
fn find_fatal(signals: &Vec<i32>) -> (sig: Option<i32>)
    ensures
        sig == first_fatal(signals@),
        sig matches Some(s) ==> is_fatal(s),
{
    let mut i: usize = 0;
    assert(signals@.skip(0) =~= signals@);
    while i < signals.len()
        invariant
            i <= signals@.len(),
            first_fatal(signals@) == first_fatal(signals@.skip(i as int)),
        decreases signals.len() - i,
    {
        assert(signals@.skip(i as int).drop_first() =~= signals@.skip(i + 1));
        if signals[i] == SIGKILL || signals[i] == SIGTERM {
            return Some(signals[i]);
        }
        i = i + 1;
    }
    None
}

/// Whether the next step is an ordinary turn: the front of the queue is live,
/// has no signal that ends it, and gives control back alive without waiting for
/// descriptors.
pub open spec fn ordinary_turn(ex: ExecutorView) -> bool {
    &&& ex.ready.len() > 0
    &&& ex.live(ex.ready[0])
    &&& !ex.doomed(ex.ready[0])
    &&& ex.vprocs[ex.ready[0]].io_wait is None
}

/// The scheduler after the driver gave the front of the queue its turn, and it
/// gave control back alive.
pub open spec fn turn(ex: ExecutorView) -> ExecutorView {
    let pid = ex.ready[0];
    ExecutorView { current: None, ..ex.after_driver_step().returned(pid, false).requeued(pid) }
}

/// The scheduler after `n` turns.
pub open spec fn turns(ex: ExecutorView, n: nat) -> ExecutorView
    decreases n,
{
    if n == 0 {
        ex
    } else {
        turn(turns(ex, (n - 1) as nat))
    }
}

proof fn lemma_turn(ex: ExecutorView)
    requires
        ordinary_turn(ex),
        ex.switches < u64::MAX,
    ensures
        ex.step_result() == Step::Resume(ex.ready[0]),
        turn(ex).ready == ex.ready.drop_first().push(ex.ready[0]),
        turn(ex).switches == ex.switches + 1,
        forall|pid: VPid| #[trigger] turn(ex).live(pid) == ex.live(pid),
        forall|pid: VPid| #[trigger]
            ex.live(pid) ==> (!ex.doomed(pid) ==> !turn(ex).doomed(pid)) && turn(ex).vprocs[pid].io_wait
                == ex.vprocs[pid].io_wait,
{
    let pid = ex.ready[0];
    assert(ex.stale(ex.ready) == 0);
    assert(ex.ready.skip(1) =~= ex.ready.drop_first());
    assert(first_fatal(Seq::<i32>::empty()) is None);
}

/// Scheduling is round robin: where all queued processes are live, get no fatal
/// signal and do not wait for descriptors, each turn goes to the front of the
/// queue and puts it at the end. After `n` turns the first `n` are at the end, in
/// their order; after one turn each the queue is as at first.
pub proof fn law_round_robin(ex: ExecutorView, n: nat)
    requires
        n <= ex.ready.len(),
        ex.switches + n <= u64::MAX,
        forall|i: int|
            0 <= i < ex.ready.len() ==> ex.live(#[trigger] ex.ready[i]) && !ex.doomed(ex.ready[i])
                && ex.vprocs[ex.ready[i]].io_wait is None,
    ensures
        turns(ex, n).ready == ex.ready.skip(n as int) + ex.ready.take(n as int),
        n < ex.ready.len() ==> turns(ex, n).step_result() == Step::Resume(ex.ready[n as int]),
        n == ex.ready.len() ==> turns(ex, n).ready == ex.ready,
        turns(ex, n).switches == ex.switches + n,
        forall|i: int|
            0 <= i < ex.ready.len() ==> turns(ex, n).live(#[trigger] ex.ready[i])
                && !turns(ex, n).doomed(ex.ready[i]) && turns(ex, n).vprocs[ex.ready[i]].io_wait is None,
    decreases n,
{
    if n == 0 {
        assert(ex.ready.skip(0) + ex.ready.take(0) =~= ex.ready);
    } else {
        let m = (n - 1) as nat;
        law_round_robin(ex, m);
        let now = turns(ex, m);
        assert(now.ready[0] == ex.ready[m as int]);
        assert(ordinary_turn(now));
        lemma_turn(now);
        assert(now.ready.drop_first().push(now.ready[0]) =~= ex.ready.skip(n as int)
            + ex.ready.take(n as int));
        assert forall|i: int| 0 <= i < ex.ready.len() implies turns(ex, n).live(
            #[trigger] ex.ready[i],
        ) && !turns(ex, n).doomed(ex.ready[i]) && turns(ex, n).vprocs[ex.ready[i]].io_wait is None by {
            assert(now.live(ex.ready[i]));
            assert(turn(now).live(ex.ready[i]));
        }
    }
    let end = turns(ex, n);
    if n < ex.ready.len() {
        assert(end.ready[0] == ex.ready[n as int]);
        assert(end.stale(end.ready) == 0);
    } else {
        assert(ex.ready.skip(n as int) + ex.ready.take(n as int) =~= ex.ready);
    }
}

/// A process that gives up its turn is queued once: where nobody was queued twice,
/// and the one that runs not at all, that stays so, and the process that yielded
/// is queued, unless its next turn comes or a signal ends it at once.
pub proof fn law_yield_queues_once(ex: ExecutorView, pid: VPid)
    requires
        ex.current == Some(pid),
        ex.live(pid),
        ex.ready.no_duplicates(),
        !ex.ready.contains(pid),
    ensures
        ({
            let after = ex.yielded().after_step();
            &&& after.ready.no_duplicates()
            &&& after.current matches Some(next) ==> !after.ready.contains(next)
            &&& after.live(pid) ==> after.current == Some(pid) || after.ready.contains(pid)
        }),
{
    let queued = ex.yielded();
    let after = queued.after_step();
    let n = queued.stale(queued.ready) as int;
    lemma_next_up_live(queued, queued.ready);
    lemma_queued_keeps(ex.ready, pid, pid);
    assert forall|i: int, j: int|
        0 <= i < queued.ready.len() && 0 <= j < queued.ready.len() && i != j implies queued.ready[i]
        != queued.ready[j] by {
        if i == ex.ready.len() {
            assert(ex.ready.contains(ex.ready[j]));
        }
        if j == ex.ready.len() {
            assert(ex.ready.contains(ex.ready[i]));
        }
    }
    lemma_picked_keeps(queued, pid);
    assert(after.ready =~= queued.ready.skip(n + 1));
}

/// A process with a pending SIGKILL or SIGTERM never gets another turn: when it
/// would be next, it ends with code 128 plus the signal.
pub proof fn law_fatal_signal_ends(ex: ExecutorView, pid: VPid)
    requires
        ex.wf(),
        ex.next_up() == Some(pid),
        ex.doomed(pid),
    ensures
        ex.step_result() == Step::Killed(pid),
        ex.after_step().done(pid),
        ex.after_driver_step().done(pid),
        ex.after_block_step().done(pid),
        ex.after_driver_step().exit_code(pid) == Some(
            (128 + first_fatal(ex.vprocs[pid].pending_signals)->0) as i32,
        ),
        ex.after_driver_step().switches == ex.switches,
{
    lemma_picked_wf(ex);
}

/// An exit code is observable exactly of processes that have ended, and as long
/// as it is recorded or the process was not cleaned up.
pub proof fn law_exit_code_means_ended(ex: ExecutorView, pid: VPid)
    requires
        ex.wf(),
    ensures
        ex.exit_code(pid) is Some ==> !ex.live(pid),
        ex.done(pid) ==> ex.exit_code(pid) is Some,
{
}

/// The exit code of a process that exited can still be asked for after it was
/// cleaned up.
pub proof fn law_exit_code_survives(ex: ExecutorView, pid: VPid, code: i32)
    requires
        ex.current == Some(pid),
    ensures
        ex.exited(code).exit_code(pid) == Some(code),
        ex.exited(code).reaped().exit_code(pid) == Some(code),
{
}

/// Cleaning up touches no live process, and does nothing the second time but
/// take cleaned-up children off the lists.
pub proof fn law_reap_keeps_live(ex: ExecutorView, pid: VPid)
    ensures
        ex.reaped().live(pid) == ex.live(pid),
        ex.live(pid) ==> ex.reaped().vprocs[pid] == ex.vprocs[pid],
        !ex.reaped().done(pid),
        ex.reaped().reaped().vprocs == ex.reaped().vprocs,
{
    assert(ex.reaped().reaped().vprocs =~= ex.reaped().vprocs);
}

/// A forked child has the number that its parent is told, the parent on record,
/// its parent's working directory, and is listed as a child.
pub proof fn law_fork(ex: ExecutorView, parent: VPid)
    requires
        ex.wf(),
        ex.vprocs.contains_key(parent),
        ex.next_pid < u32::MAX,
    ensures
        ({
            let child = ex.next_pid;
            let after = ex.forked(parent);
            &&& !ex.vprocs.contains_key(child)
            &&& after.live(child)
            &&& after.vprocs[parent].fork_child_pid == child
            &&& after.vprocs[child].ppid == parent
            &&& after.vprocs[child].cwd == ex.vprocs[parent].cwd
            &&& after.vprocs[child].is_fork_child
            &&& after.children[parent].contains(child)
            &&& after.ready.last() == child
        }),
{
    let after = ex.forked(parent);
    assert(after.children[parent].last() == ex.next_pid);
}

/// Cleaning up frees no pipe that a process still mentions.
pub proof fn law_reap_keeps_pipes(
    tables: FdTablesView,
    pipes: Map<u64, PipeView>,
    ex: ExecutorView,
)
    requires
        pipes_known(tables, pipes),
    ensures
        pipes_known(tables_reaped(tables, ex), pipes_reaped(pipes, tables, ex)),
{
    let after = tables_reaped(tables, ex);
    assert forall|pid: u32, fd: u32|
        #![trigger after.tables[pid].fds[fd]]
        after.tables.contains_key(pid) && after.tables[pid].fds.contains_key(fd) implies (
    after.tables[pid].fds[fd].pipe() matches Some(id) ==> pipes_reaped(
        pipes,
        tables,
        ex,
    ).contains_key(id)) by {
        assert(tables.tables[pid].fds[fd] == after.tables[pid].fds[fd]);
        if let Some(id) = after.tables[pid].fds[fd].pipe() {
            assert(after.tables[pid].mentions_pipe(id));
        }
    }
}

impl ExecutorView {
    /// Every live process runs, is queued, or sleeps until some descriptor is ready:
    /// it will get another turn.
    pub open spec fn nobody_lost(self) -> bool {
        forall|pid: VPid| #[trigger] self.live(pid) ==> self.is_placed(pid)
    }

    /// Process `pid` runs, is queued, or sleeps until some descriptor is ready.
    pub open spec fn is_placed(self, pid: VPid) -> bool {
        &&& self.vprocs[pid].io_wait matches Some(wait) ==> wait.fds.len() > 0
        &&& self.current == Some(pid) || self.ready.contains(pid) || self.vprocs[pid].sleeps()
    }

    /// No process runs that is neither queued nor sleeps: the driver can decide on
    /// the next one.
    pub open spec fn driver_has_control(self) -> bool {
        self.current matches Some(pid) ==> !self.live(pid) || self.ready.contains(pid)
            || self.vprocs[pid].sleeps()
    }
}

pub(crate) proof fn lemma_contains_index<T>(s: Seq<T>, x: T, i: int)
    requires
        0 <= i < s.len(),
        s[i] == x,
    ensures
        s.contains(x),
{
}

proof fn lemma_before_next(ex: ExecutorView, ready: Seq<VPid>, i: int)
    requires
        0 <= i < ready.len(),
        i < ex.stale(ready),
    ensures
        !ex.live(ready[i]),
    decreases ready.len(),
{
    if i > 0 {
        lemma_before_next(ex, ready.drop_first(), i - 1);
        assert(ready.drop_first()[i - 1] == ready[i]);
    }
}

pub(crate) proof fn lemma_picked_keeps(ex: ExecutorView, pid: VPid)
    requires
        ex.live(pid),
        ex.ready.contains(pid),
    ensures
        ex.next_up() is Some,
        ex.next_up() == Some(pid) || ex.picked().ready.contains(pid),
{
    let n = ex.stale(ex.ready) as int;
    let k = choose|k: int| 0 <= k < ex.ready.len() && ex.ready[k] == pid;
    lemma_next_up_live(ex, ex.ready);
    if k < n {
        lemma_before_next(ex, ex.ready, k);
    }
    if k > n {
        lemma_contains_index(ex.picked().ready, pid, k - n - 1);
    }
}

/// No process is lost by a decision on who runs next, and none when the process
/// that ran gives control back, whatever it did meanwhile.
pub proof fn law_nobody_lost_by_turns(ex: ExecutorView, pid: VPid, dead: bool)
    requires
        ex.nobody_lost(),
    ensures
        ex.after_step().nobody_lost(),
        ex.driver_has_control() ==> ex.after_driver_step().nobody_lost(),
        ex.driver_has_control() ==> ex.after_block_step().nobody_lost(),
        ex.current == Some(pid) ==> ({
            let back = ExecutorView { current: None, ..ex.returned(pid, dead).requeued(pid) };
            back.nobody_lost() && back.driver_has_control()
        }),
{
    lemma_next_up_live(ex, ex.ready);
    let inside = ex.after_step();
    assert forall|p: VPid| #[trigger] inside.live(p) implies inside.is_placed(p) by {
        assert(ex.live(p));
        if ex.ready.contains(p) {
            lemma_picked_keeps(ex, p);
        }
        if let Some(cur) = ex.current {
            lemma_queued_keeps(ex.picked().ready, cur, p);
        }
    }
    if ex.driver_has_control() {
        let a = ex.after_driver_step();
        let b = ex.after_block_step();
        assert forall|p: VPid| #[trigger] a.live(p) implies a.is_placed(p) by {
            assert(ex.live(p));
            if ex.ready.contains(p) {
                lemma_picked_keeps(ex, p);
            }
        }
        assert forall|p: VPid| #[trigger] b.live(p) implies b.is_placed(p) by {
            assert(ex.live(p));
            if ex.ready.contains(p) {
                lemma_picked_keeps(ex, p);
            }
        }
    }
    if ex.current == Some(pid) {
        let back = ExecutorView { current: None, ..ex.returned(pid, dead).requeued(pid) };
        assert forall|p: VPid| #[trigger] back.live(p) implies back.is_placed(p) by {
            assert(ex.live(p));
            if p == pid && !back.vprocs[pid].sleeps() {
                lemma_contains_index(back.ready, p, back.ready.len() - 1);
            }
            if ex.ready.contains(p) {
                let k = choose|k: int| 0 <= k < ex.ready.len() && ex.ready[k] == p;
                lemma_contains_index(back.ready, p, k);
            }
        }
    }
}

/// No process is lost by what processes do: start others, fork, exit, wait for
/// descriptors, get signals, are woken, and are cleaned up.
pub proof fn law_nobody_lost_by_events(
    ex: ExecutorView,
    pid: VPid,
    code: i32,
    fds: Seq<(i32, i16)>,
    polls_pipes: bool,
)
    requires
        ex.nobody_lost(),
    ensures
        ExecutorView::empty().nobody_lost(),
        ex.registered(CoroView::fresh(ex.next_pid)).queued(ex.next_pid).nobody_lost(),
        (ExecutorView {
            ready: seq![ex.next_pid] + ex.ready,
            ..ex.registered(CoroView::fresh(ex.next_pid))
        }).nobody_lost(),
        ex.exited(code).nobody_lost(),
        ex.waiting_for(fds, polls_pipes).nobody_lost(),
        ex.notified(pid, code).nobody_lost(),
        ex.woken(pid).nobody_lost(),
        ex.reaped().nobody_lost(),
        ex.vprocs.contains_key(pid) && pid != ex.next_pid ==> ex.forked(pid).nobody_lost(),
{
    let spawned = ex.registered(CoroView::fresh(ex.next_pid)).queued(ex.next_pid);
    assert forall|p: VPid| #[trigger] spawned.live(p) implies spawned.is_placed(p) by {
        lemma_queued_keeps(ex.ready, ex.next_pid, p);
        assert(p != ex.next_pid ==> ex.live(p));
    }
    let front = ExecutorView {
        ready: seq![ex.next_pid] + ex.ready,
        ..ex.registered(CoroView::fresh(ex.next_pid))
    };
    assert forall|p: VPid| #[trigger] front.live(p) implies front.is_placed(p) by {
        lemma_contains_index(front.ready, ex.next_pid, 0);
        assert(p != ex.next_pid ==> ex.live(p));
        if ex.ready.contains(p) {
            let k = choose|k: int| 0 <= k < ex.ready.len() && ex.ready[k] == p;
            lemma_contains_index(front.ready, p, k + 1);
        }
    }
    let exited = ex.exited(code);
    assert forall|p: VPid| #[trigger] exited.live(p) implies exited.is_placed(p) by {
        assert(ex.live(p));
    }
    let waiting = ex.waiting_for(fds, polls_pipes);
    assert forall|p: VPid| #[trigger] waiting.live(p) implies waiting.is_placed(p) by {
        assert(ex.live(p));
    }
    lemma_woken_keeps(ex, pid);
    let told = ex.changed(
        pid,
        |co: CoroView| CoroView { pending_signals: co.pending_signals.push(code), ..co },
    );
    assert forall|p: VPid| #[trigger] told.live(p) implies told.is_placed(p) by {
        assert(ex.live(p));
    }
    lemma_woken_keeps(told, pid);
    let reaped = ex.reaped();
    assert forall|p: VPid| #[trigger] reaped.live(p) implies reaped.is_placed(p) by {
        assert(ex.live(p));
    }
    if ex.vprocs.contains_key(pid) && pid != ex.next_pid {
        let forked = ex.forked(pid);
        assert forall|p: VPid| #[trigger] forked.live(p) implies forked.is_placed(p) by {
            lemma_queued_keeps(ex.ready, ex.next_pid, p);
            assert(p != ex.next_pid ==> ex.live(p));
        }
    }
}

pub(crate) proof fn lemma_queued_keeps(ready: Seq<VPid>, last: VPid, pid: VPid)
    ensures
        ready.push(last).contains(last),
        ready.contains(pid) ==> ready.push(last).contains(pid),
{
    lemma_contains_push(ready, last, pid);
    lemma_contains_push(ready, last, last);
}

proof fn lemma_woken_keeps(ex: ExecutorView, pid: VPid)
    requires
        ex.nobody_lost(),
    ensures
        ex.woken(pid).nobody_lost(),
{
    let after = ex.woken(pid);
    assert forall|p: VPid| #[trigger] after.live(p) implies after.is_placed(p) by {
        assert(ex.live(p));
        lemma_queued_keeps(ex.ready, pid, p);
    }
}

/// A signal reaches a process that sleeps: it stops waiting, and is queued for its
/// next turn.
pub proof fn law_signal_wakes(ex: ExecutorView, pid: VPid, sig: i32)
    requires
        ex.live(pid),
        ex.vprocs[pid].sleeps(),
    ensures
        ex.notified(pid, sig).ready == ex.ready.push(pid),
        ex.notified(pid, sig).vprocs[pid].io_wait is None,
        ex.notified(pid, sig).vprocs[pid].pending_signals.last() == sig,
{
}

/// A process that polls virtual pipes besides kernel descriptors hands the
/// descriptors over to be watched, and still gets its turn: it is queued as soon
/// as it gives control back, and its descriptors becoming ready, or a signal, do
/// not queue it a second time.
pub proof fn law_pipe_poller_stays_queued(
    ex: ExecutorView,
    pid: VPid,
    fds: Seq<(i32, i16)>,
    sig: i32,
)
    requires
        ex.current == Some(pid),
        ex.live(pid),
        fds.len() > 0,
    ensures
        ({
            let back = ExecutorView {
                current: None,
                ..ex.waiting_for(fds, true).returned(pid, false).requeued(pid)
            };
            &&& back.ready == ex.ready.push(pid)
            &&& forall|i: int|
                0 <= i < fds.len() ==> back.waits(
                    IoQuery { pid, fd: (#[trigger] fds[i]).0, events: fds[i].1 },
                )
            &&& back.woken(pid).ready == back.ready
            &&& back.notified(pid, sig).ready == back.ready
        }),
{
    let back = ExecutorView {
        current: None,
        ..ex.waiting_for(fds, true).returned(pid, false).requeued(pid)
    };
    assert forall|i: int| 0 <= i < fds.len() implies back.waits(
        IoQuery { pid, fd: (#[trigger] fds[i]).0, events: fds[i].1 },
    ) by {
        assert(fds.contains((fds[i].0, fds[i].1)));
    }
}

/// Cleaning up an ended process closes the pipes that it held, also for others that
/// still hold them: what is in them can be read, then the stream ends, and nothing
/// can be written. A pipe that no ended process held is not touched.
pub proof fn law_reaping_ends_pipes(
    pipes: Map<u64, PipeView>,
    tables: FdTablesView,
    ex: ExecutorView,
    id: u64,
)
    requires
        pipes.contains_key(id),
        tables_reaped(tables, ex).mentions_pipe(id),
    ensures
        pipes_reaped(pipes, tables, ex).contains_key(id),
        pipes_reaped(pipes, tables, ex)[id].data == pipes[id].data,
        tables.mentioned_by(done_set(ex), id) ==> pipes_reaped(pipes, tables, ex)[id].ended()
            && pipes_reaped(pipes, tables, ex)[id].broken(),
        !tables.mentioned_by(done_set(ex), id) ==> pipes_reaped(pipes, tables, ex)[id]
            == pipes[id],
{
}

/// One of `queries` is for process `pid`, and something is reported of it.
spec fn reported_ready(queries: Seq<IoQuery>, revents: Seq<i16>, pid: VPid) -> bool {
    exists|i: int| 0 <= i < queries.len() && (#[trigger] queries[i]).pid == pid && revents[i] != 0
}

/// Exactly the processes with a ready descriptor are woken. A process of which some
/// query reports something no longer waits; where it lives and slept, it is put at
/// the end of the queue, once. A process without such a query is unchanged and is
/// not queued. Nothing else changes, and who was queued before keeps their place.
pub proof fn law_ready_processes_wake(
    ex: ExecutorView,
    queries: Seq<IoQuery>,
    revents: Seq<i16>,
    pid: VPid,
)
    requires
        queries.len() == revents.len(),
    ensures
        ({
            let after = ex.all_woken(queries, revents);
            let is_ready = exists|i: int|
                0 <= i < queries.len() && (#[trigger] queries[i]).pid == pid && revents[i] != 0;
            let slept = ex.vprocs.contains_key(pid) && ex.vprocs[pid].state != State::Done && (
            ex.vprocs[pid].io_wait matches Some(wait) && !wait.polls_pipes);
            let added = after.ready.skip(ex.ready.len() as int);
            &&& after.vprocs.dom() == ex.vprocs.dom()
            &&& ex.vprocs.contains_key(pid) ==> after.vprocs[pid] == (CoroView {
                io_wait: if is_ready {
                    None
                } else {
                    ex.vprocs[pid].io_wait
                },
                ..ex.vprocs[pid]
            })
            &&& ex.ready.len() <= after.ready.len()
            &&& after.ready.take(ex.ready.len() as int) == ex.ready
            &&& added.no_duplicates()
            &&& added.contains(pid) <==> is_ready && slept
            &&& after == (ExecutorView { vprocs: after.vprocs, ready: after.ready, ..ex })
        }),
{
    lemma_all_woken(ex, queries, revents);
    assert(reported_ready(queries, revents, pid) <==> exists|i: int|
        0 <= i < queries.len() && (#[trigger] queries[i]).pid == pid && revents[i] != 0);
}

proof fn lemma_all_woken(ex: ExecutorView, queries: Seq<IoQuery>, revents: Seq<i16>)
    requires
        queries.len() <= revents.len(),
    ensures
        ({
            let after = ex.all_woken(queries, revents);
            let added = after.ready.skip(ex.ready.len() as int);
            &&& after.vprocs.dom() == ex.vprocs.dom()
            &&& forall|pid: VPid| #[trigger]
                ex.vprocs.contains_key(pid) ==> after.vprocs[pid] == (CoroView {
                    io_wait: if reported_ready(queries, revents, pid) {
                        None
                    } else {
                        ex.vprocs[pid].io_wait
                    },
                    ..ex.vprocs[pid]
                })
            &&& ex.ready.len() <= after.ready.len()
            &&& after.ready.take(ex.ready.len() as int) == ex.ready
            &&& added.no_duplicates()
            &&& forall|pid: VPid| #[trigger]
                added.contains(pid) <==> reported_ready(queries, revents, pid) && ex.live(pid)
                    && ex.vprocs[pid].sleeps()
            &&& after == (ExecutorView { vprocs: after.vprocs, ready: after.ready, ..ex })
        }),
    decreases queries.len(),
{
    let after = ex.all_woken(queries, revents);
    let start = ex.ready.len() as int;
    if queries.len() == 0 {
        assert(after.ready.skip(start) =~= Seq::empty());
        assert(after.ready.take(start) =~= ex.ready);
    } else {
        let some = queries.drop_last();
        let mid = ex.all_woken(some, revents);
        lemma_all_woken(ex, some, revents);
        let last = queries.last();
        let n = queries.len() - 1;
        assert forall|pid: VPid| #[trigger]
            reported_ready(queries, revents, pid) <==> reported_ready(some, revents, pid) || (
            last.pid == pid && revents[n] != 0) by {
            if reported_ready(some, revents, pid) {
                let i = choose|i: int|
                    0 <= i < some.len() && (#[trigger] some[i]).pid == pid && revents[i] != 0;
                assert(queries[i] == some[i]);
            }
            if reported_ready(queries, revents, pid) {
                let i = choose|i: int|
                    0 <= i < queries.len() && (#[trigger] queries[i]).pid == pid && revents[i] != 0;
                if i < n {
                    assert(some[i] == queries[i]);
                }
            }
            assert(queries[n] == last);
        }
        let before = mid.ready.skip(start);
        let added = after.ready.skip(start);
        let pid = last.pid;
        if revents[n] != 0 {
            assert(mid.vprocs.contains_key(pid) == ex.vprocs.contains_key(pid));
            assert(after.vprocs.dom() =~= ex.vprocs.dom());
            if mid.live(pid) && mid.vprocs[pid].sleeps() {
                assert(!reported_ready(some, revents, pid));
                assert(added =~= before.push(pid));
                assert(!before.contains(pid));
                assert forall|p: VPid| #[trigger] added.contains(p) <==> before.contains(p) || p
                    == pid by {
                    lemma_contains_push(before, pid, p);
                }
                assert(after.ready.take(start) =~= mid.ready.take(start));
            } else {
                assert(added =~= before);
            }
        }
        assert forall|p: VPid| #[trigger] added.contains(p) <==> reported_ready(
            queries,
            revents,
            p,
        ) && ex.live(p) && ex.vprocs[p].sleeps() by {
            if ex.vprocs.contains_key(p) {
                assert(mid.vprocs[p].state == ex.vprocs[p].state);
            }
            assert(before.contains(p) <==> reported_ready(some, revents, p) && ex.live(p)
                && ex.vprocs[p].sleeps());
        }
    }
}

/// The turn goes to the first live process in the queue: nobody before it lives, it
/// leaves the queue with the entries before it, and the others keep their order.
/// Without a live process in the queue there is no turn.
pub proof fn law_first_live_is_next(ex: ExecutorView, k: int)
    ensures
        ({
            let lives = |pid: VPid|
                ex.vprocs.contains_key(pid) && ex.vprocs[pid].state != State::Done;
            &&& 0 <= k < ex.ready.len() && lives(ex.ready[k]) && (forall|j: int|
                0 <= j < k ==> !lives(#[trigger] ex.ready[j])) ==> ex.next_up() == Some(ex.ready[k])
                && ex.picked() == (ExecutorView { ready: ex.ready.skip(k + 1), ..ex })
            &&& (forall|j: int| 0 <= j < ex.ready.len() ==> !lives(#[trigger] ex.ready[j]))
                ==> ex.next_up() is None && ex.picked() == (ExecutorView {
                ready: Seq::empty(),
                ..ex
            })
        }),
{
    lemma_stale(ex, ex.ready, k);
}

proof fn lemma_stale(ex: ExecutorView, ready: Seq<VPid>, k: int)
    ensures
        0 <= k < ready.len() && ex.live(ready[k]) && (forall|j: int|
            0 <= j < k ==> !ex.live(#[trigger] ready[j])) ==> ex.stale(ready) == k,
        (forall|j: int| 0 <= j < ready.len() ==> !ex.live(#[trigger] ready[j])) ==> ex.stale(ready)
            == ready.len(),
    decreases ready.len(),
{
    if ready.len() > 0 {
        let rest = ready.drop_first();
        assert forall|j: int| 0 <= j < rest.len() implies #[trigger] rest[j] == ready[j + 1] by {}
        lemma_stale(ex, rest, k - 1);
        if 0 < k < ready.len() && ex.live(ready[k]) && (forall|j: int|
            0 <= j < k ==> !ex.live(#[trigger] ready[j])) {
            assert(!ex.live(ready[0]));
            assert(rest[k - 1] == ready[k]);
            assert forall|j: int| 0 <= j < k - 1 implies !ex.live(#[trigger] rest[j]) by {
                assert(!ex.live(ready[j + 1]));
            }
        }
        if forall|j: int| 0 <= j < ready.len() ==> !ex.live(#[trigger] ready[j]) {
            assert(!ex.live(ready[0]));
            assert forall|j: int| 0 <= j < rest.len() implies !ex.live(#[trigger] rest[j]) by {
                assert(!ex.live(ready[j + 1]));
            }
        }
    }
}

/// The first of the pending signals that ends a process counts; only signals 9 and 15
/// do. Delivery takes all pending signals away, and changes nothing else of a process
/// that goes on.
pub proof fn law_signals_delivered(co: CoroView, k: int)
    ensures
        ({
            let ends = |sig: i32| sig == 9 || sig == 15;
            let signals = co.pending_signals;
            &&& co.signalled().pending_signals.len() == 0
            &&& 0 <= k < signals.len() && ends(signals[k]) && (forall|j: int|
                0 <= j < k ==> !ends(#[trigger] signals[j])) ==> co.signalled() == (CoroView {
                pending_signals: Seq::empty(),
                state: State::Done,
                exit_code: (128 + signals[k]) as i32,
                ..co
            }) && first_fatal(signals) == Some(signals[k])
            &&& (forall|j: int| 0 <= j < signals.len() ==> !ends(#[trigger] signals[j]))
                ==> co.signalled() == (CoroView { pending_signals: Seq::empty(), ..co })
                && first_fatal(signals) is None
        }),
{
    lemma_first_fatal(co.pending_signals, k);
}

proof fn lemma_first_fatal(signals: Seq<i32>, k: int)
    ensures
        ({
            let ends = |sig: i32| sig == 9 || sig == 15;
            &&& 0 <= k < signals.len() && ends(signals[k]) && (forall|j: int|
                0 <= j < k ==> !ends(#[trigger] signals[j])) ==> first_fatal(signals) == Some(
                signals[k],
            )
            &&& (forall|j: int| 0 <= j < signals.len() ==> !ends(#[trigger] signals[j]))
                ==> first_fatal(signals) is None
        }),
    decreases signals.len(),
{
    let ends = |sig: i32| sig == 9 || sig == 15;
    if signals.len() > 0 {
        let rest = signals.drop_first();
        assert forall|j: int| 0 <= j < rest.len() implies #[trigger] rest[j] == signals[j + 1] by {}
        lemma_first_fatal(rest, k - 1);
        if 0 < k < signals.len() && ends(signals[k]) && (forall|j: int|
            0 <= j < k ==> !ends(#[trigger] signals[j])) {
            assert(!ends(signals[0]));
            assert(rest[k - 1] == signals[k]);
            assert forall|j: int| 0 <= j < k - 1 implies !ends(#[trigger] rest[j]) by {
                assert(!ends(signals[j + 1]));
            }
        }
        if forall|j: int| 0 <= j < signals.len() ==> !ends(#[trigger] signals[j]) {
            assert(!ends(signals[0]));
            assert forall|j: int| 0 <= j < rest.len() implies !ends(#[trigger] rest[j]) by {
                assert(!ends(signals[j + 1]));
            }
        }
    }
}

/// A step gives one process its turn and touches nobody else. The process whose turn
/// it is runs, without pending signals and no longer waiting, and the switch is
/// counted; from inside a process, the one that ran goes to the end of the queue
/// while it lives. A process that a signal ends instead does not run, nothing is
/// counted, and the one that ran stays in the queue.
pub proof fn law_step_gives_turn(ex: ExecutorView, pid: VPid, other: VPid)
    requires
        ex.next_up() == Some(pid),
        ex.switches < u64::MAX,
    ensures
        ({
            let killed = first_fatal(ex.vprocs[pid].pending_signals) is Some;
            let a = ex.after_step();
            let b = ex.after_driver_step();
            let c = ex.after_block_step();
            let rest = ex.picked().ready;
            &&& ex.step_result() == (if killed {
                Step::Killed(pid)
            } else {
                Step::Resume(pid)
            })
            &&& a.vprocs == b.vprocs && b.vprocs == c.vprocs
            &&& b.vprocs.dom() == ex.vprocs.dom()
            &&& other != pid && ex.vprocs.contains_key(other) ==> b.vprocs[other]
                == ex.vprocs[other]
            &&& !killed ==> b.vprocs[pid] == (CoroView {
                state: State::Running,
                io_wait: None,
                pending_signals: Seq::empty(),
                ..ex.vprocs[pid]
            })
            &&& !killed ==> a.current == Some(pid) && b.current == Some(pid) && c.current == Some(
                pid,
            )
            &&& !killed ==> a.switches == ex.switches + 1 && b.switches == ex.switches + 1
                && c.switches == ex.switches + 1
            &&& killed ==> b.vprocs[pid] == ex.vprocs[pid].signalled() && b.current is None
                && a.current == ex.current && c.current == ex.current
            &&& killed ==> a.switches == ex.switches && b.switches == ex.switches && c.switches
                == ex.switches
            &&& b.ready == rest && c.ready == rest
            &&& ex.current is None ==> a.ready == rest
            &&& ex.current is Some && ex.live(ex.current->0) && ex.current != Some(pid) ==> a.ready
                == rest.push(ex.current->0)
            &&& ex.current is Some && !ex.live(ex.current->0) && !killed ==> a.ready == rest
            &&& a.exit_codes == ex.exit_codes && b.exit_codes == ex.exit_codes && c.exit_codes
                == ex.exit_codes
            &&& a.children == ex.children && b.children == ex.children && c.children
                == ex.children
            &&& a.next_pid == ex.next_pid && b.next_pid == ex.next_pid && c.next_pid
                == ex.next_pid
        }),
{
    lemma_next_up_live(ex, ex.ready);
    let b = ex.after_driver_step();
    assert(b.vprocs.dom() =~= ex.vprocs.dom());
    assert(ex.after_step().vprocs =~= b.vprocs);
    assert(ex.after_block_step().vprocs =~= b.vprocs);
}

/// Where no live process is queued, a step decides on nobody.
pub proof fn law_idle(ex: ExecutorView)
    requires
        forall|j: int| 0 <= j < ex.ready.len() ==> !ex.live(#[trigger] ex.ready[j]),
    ensures
        ex.step_result() == Step::Idle,
        ex.after_step() == (ExecutorView { ready: Seq::empty(), ..ex }),
        ex.after_driver_step() == (ExecutorView { ready: Seq::empty(), ..ex }),
        ex.after_block_step() == (ExecutorView { ready: Seq::empty(), ..ex }),
{
    law_first_live_is_next(ex, 0);
}

/// A process that yields goes behind everybody who is queued, ready for its next
/// turn, and nobody runs.
pub proof fn law_yield_goes_last(ex: ExecutorView, pid: VPid)
    requires
        ex.current == Some(pid),
        ex.live(pid),
    ensures
        ex.yielded().ready == ex.ready.push(pid),
        ex.yielded().current is None,
        ex.yielded().vprocs == ex.vprocs.insert(
            pid,
            CoroView { state: State::Ready, ..ex.vprocs[pid] },
        ),
        ex.yielded().switches == ex.switches,
        ex.yielded().exit_codes == ex.exit_codes,
{
}

/// A process that is created gets the next number, is there, and is queued last;
/// everybody else stays as they were.
pub proof fn law_process_is_created(ex: ExecutorView, co: CoroView, other: VPid)
    requires
        ex.next_pid < u32::MAX,
        !ex.vprocs.contains_key(ex.next_pid),
    ensures
        ({
            let after = ex.registered(co).queued(ex.next_pid);
            &&& after.vprocs == ex.vprocs.insert(ex.next_pid, co)
            &&& after.next_pid == ex.next_pid + 1
            &&& after.ready == ex.ready.push(ex.next_pid)
            &&& after == (ExecutorView {
                vprocs: after.vprocs,
                next_pid: after.next_pid,
                ready: after.ready,
                ..ex
            })
        }),
{
}

/// A fork adds one process, the child, which starts anew but for its working
/// directory; the parent only learns its number, and everybody else stays as they
/// were.
pub proof fn law_fork_adds_one(ex: ExecutorView, parent: VPid, other: VPid)
    requires
        ex.wf(),
        ex.vprocs.contains_key(parent),
        ex.next_pid < u32::MAX,
    ensures
        ({
            let child = ex.next_pid;
            let after = ex.forked(parent);
            &&& after.vprocs.dom() == ex.vprocs.dom().insert(child)
            &&& after.vprocs[child] == (CoroView {
                ppid: parent,
                is_fork_child: true,
                cwd: ex.vprocs[parent].cwd,
                ..CoroView::fresh(child)
            })
            &&& after.vprocs[parent] == (CoroView { fork_child_pid: child, ..ex.vprocs[parent] })
            &&& other != parent && ex.vprocs.contains_key(other) ==> after.vprocs[other]
                == ex.vprocs[other]
            &&& after.ready == ex.ready.push(child)
            &&& after.next_pid == child + 1
            &&& after.current == ex.current
            &&& after.exit_codes == ex.exit_codes
            &&& after.children[parent] == (if ex.children.contains_key(parent) {
                ex.children[parent].push(child)
            } else {
                seq![child]
            })
            &&& other != parent && ex.children.contains_key(other) ==> after.children.contains_key(
                other,
            ) && after.children[other] == ex.children[other]
        }),
{
    let after = ex.forked(parent);
    assert(after.vprocs.dom() =~= ex.vprocs.dom().insert(ex.next_pid));
    assert(Seq::<VPid>::empty().push(ex.next_pid) =~= seq![ex.next_pid]);
}

/// Only the current process ends by its exit: it has the code, the code is on record,
/// and nobody else changes. Outside of a process nothing happens.
pub proof fn law_exit_ends_one(ex: ExecutorView, pid: VPid, code: i32, other: VPid)
    ensures
        ex.current == Some(pid) ==> {
            let after = ex.exited(code);
            &&& after.exit_codes == ex.exit_codes.insert(pid, code)
            &&& ex.vprocs.contains_key(pid) ==> after.vprocs[pid] == (CoroView {
                state: State::Done,
                exit_code: code,
                ..ex.vprocs[pid]
            })
            &&& after.vprocs.dom() == ex.vprocs.dom()
            &&& other != pid && ex.vprocs.contains_key(other) ==> after.vprocs[other]
                == ex.vprocs[other]
            &&& after == (ExecutorView {
                vprocs: after.vprocs,
                exit_codes: after.exit_codes,
                ..ex
            })
        },
        ex.current is None ==> ex.exited(code) == ex,
        ex.exit_codes.contains_key(other) ==> ex.exit_code(other) == Some(ex.exit_codes[other]),
        !ex.exit_codes.contains_key(other) && ex.vprocs.contains_key(other)
            && ex.vprocs[other].state == State::Done ==> ex.exit_code(other) == Some(
            ex.vprocs[other].exit_code,
        ),
        !ex.exit_codes.contains_key(other) && !(ex.vprocs.contains_key(other)
            && ex.vprocs[other].state == State::Done) ==> ex.exit_code(other) is None,
{
    assert(ex.exited(code).vprocs.dom() =~= ex.vprocs.dom());
}

/// A process that waits is asked about with exactly the descriptors that it gave, and
/// with none where it gave none. Nobody else's waiting changes.
pub proof fn law_wait_is_recorded(
    ex: ExecutorView,
    pid: VPid,
    fds: Seq<(i32, i16)>,
    polls_pipes: bool,
    query: IoQuery,
)
    requires
        ex.current == Some(pid),
        ex.vprocs.contains_key(pid),
    ensures
        ({
            let after = ex.waiting_for(fds, polls_pipes);
            &&& query.pid == pid ==> (after.waits(query) <==> fds.contains(
                (query.fd, query.events),
            ))
            &&& query.pid != pid ==> (after.waits(query) <==> ex.waits(query))
            &&& after.vprocs[pid].io_wait is Some <==> fds.len() > 0
            &&& fds.len() > 0 ==> after.vprocs[pid].io_wait->0.polls_pipes == polls_pipes
                && after.vprocs[pid].io_wait->0.deadline is None
            &&& after.vprocs.dom() == ex.vprocs.dom()
            &&& after == (ExecutorView { vprocs: after.vprocs, ..ex })
        }),
{
    assert(ex.waiting_for(fds, polls_pipes).vprocs.dom() =~= ex.vprocs.dom());
}

/// A signal is put behind those that are pending, and ends a wait; a process that does
/// not sleep keeps its place, and nobody else is touched.
pub proof fn law_signal_is_queued(ex: ExecutorView, pid: VPid, sig: i32, other: VPid)
    ensures
        ({
            let after = ex.notified(pid, sig);
            &&& ex.vprocs.contains_key(pid) ==> after.vprocs[pid] == (CoroView {
                pending_signals: ex.vprocs[pid].pending_signals.push(sig),
                io_wait: None,
                ..ex.vprocs[pid]
            })
            &&& after.vprocs.dom() == ex.vprocs.dom()
            &&& other != pid && ex.vprocs.contains_key(other) ==> after.vprocs[other]
                == ex.vprocs[other]
            &&& !ex.vprocs.contains_key(pid) ==> after == ex
            &&& ex.vprocs.contains_key(pid) && (ex.vprocs[pid].state == State::Done
                || ex.vprocs[pid].io_wait is None || ex.vprocs[pid].io_wait->0.polls_pipes)
                ==> after.ready == ex.ready
            &&& after == (ExecutorView { vprocs: after.vprocs, ready: after.ready, ..ex })
        }),
{
    assert(ex.notified(pid, sig).vprocs.dom() =~= ex.vprocs.dom());
}

/// A change to one process is made to that process, and to no other.
pub proof fn law_change_is_local(
    ex: ExecutorView,
    pid: VPid,
    change: spec_fn(CoroView) -> CoroView,
    other: VPid,
)
    ensures
        ({
            let after = ex.changed(pid, change);
            &&& after.vprocs.dom() == ex.vprocs.dom()
            &&& ex.vprocs.contains_key(pid) ==> after.vprocs[pid] == change(ex.vprocs[pid])
            &&& other != pid && ex.vprocs.contains_key(other) ==> after.vprocs[other]
                == ex.vprocs[other]
            &&& after == (ExecutorView { vprocs: after.vprocs, ..ex })
        }),
{
    assert(ex.changed(pid, change).vprocs.dom() =~= ex.vprocs.dom());
}

/// Lists of children are kept in order: taking a child off removes it and nothing
/// else, and cleaning up removes those that were gone before.
pub proof fn law_children_listed(kids: Seq<VPid>, child: VPid, vprocs: Map<VPid, CoroView>)
    ensures
        kids_without(kids, child) == kids.filter(|kid: VPid| kid != child),
        kept_kids(kids, vprocs) == kids.filter(|kid: VPid| vprocs.contains_key(kid)),
    decreases kids.len(),
{
    reveal(Seq::filter);
    if kids.len() > 0 {
        law_children_listed(kids.drop_last(), child, vprocs);
    }
    assert(kids_without(kids, child) =~= kids.filter(|kid: VPid| kid != child));
    assert(kept_kids(kids, vprocs) =~= kids.filter(|kid: VPid| vprocs.contains_key(kid)));
}

/// Cleaning up removes the processes that have ended, with their tables, and their
/// lists of children, and keeps everything else: whom nobody listed, what is queued,
/// who runs, and all recorded exit codes.
pub proof fn law_reap_removes_ended(
    ex: ExecutorView,
    tables: FdTablesView,
    pid: VPid,
    fd: u32,
)
    ensures
        ({
            let after = ex.reaped();
            let over = ex.vprocs.contains_key(pid) && ex.vprocs[pid].state == State::Done;
            &&& after.vprocs.contains_key(pid) <==> ex.vprocs.contains_key(pid) && !over
            &&& after.vprocs.contains_key(pid) ==> after.vprocs[pid] == ex.vprocs[pid]
            &&& after.children.contains_key(pid) <==> ex.children.contains_key(pid) && !over
                && ex.children[pid].filter(|kid: VPid| ex.vprocs.contains_key(kid)).len() > 0
            &&& after.children.contains_key(pid) ==> after.children[pid] == ex.children[pid].filter(
                |kid: VPid| ex.vprocs.contains_key(kid),
            )
            &&& after == (ExecutorView { vprocs: after.vprocs, children: after.children, ..ex })
            &&& tables_reaped(tables, ex).tables.contains_key(pid) <==> tables.tables.contains_key(
                pid,
            ) && !over
            &&& tables_reaped(tables, ex).tables.contains_key(pid) ==> tables_reaped(
                tables,
                ex,
            ).tables[pid] == tables.tables[pid]
            &&& tables_reaped(tables, ex).next_file == tables.next_file
        }),
{
    if ex.children.contains_key(pid) {
        law_children_listed(ex.children[pid], 0, ex.vprocs);
    }
}

/// The programs that are released are those that the cleaned-up processes ran, one
/// for each process that ran one, in the same order.
pub proof fn law_programs_released(coroutines: Seq<Coroutine>)
    ensures
        binary_paths(coroutines) == coroutines.filter(
            |co: Coroutine| co@.binary_path is Some,
        ).map_values(|co: Coroutine| co@.binary_path->0),
    decreases coroutines.len(),
{
    reveal(Seq::filter);
    let ran = |co: Coroutine| co@.binary_path is Some;
    let path = |co: Coroutine| co@.binary_path->0;
    if coroutines.len() > 0 {
        let some = coroutines.drop_last();
        let last = coroutines.last();
        law_programs_released(some);
        let kept = some.filter(ran);
        if ran(last) {
            assert(kept.push(last).map_values(path) =~= kept.map_values(path).push(path(last)));
        }
    }
    assert(binary_paths(coroutines) =~= coroutines.filter(ran).map_values(path));
}

/// The processes that are handed out by cleaning up are those that have ended, as they
/// were: each of them, and nobody who lives.
pub proof fn law_ended_are_handed_out(coroutines: Seq<Coroutine>, ex: ExecutorView, pid: VPid, k: int)
    requires
        forall|co: CoroView|
            #![trigger holds_coroutine(coroutines, co)]
            holds_coroutine(coroutines, co) <==> ended(ex, co),
    ensures
        ex.vprocs.contains_key(pid) && ex.vprocs[pid].state == State::Done ==> exists|i: int|
            0 <= i < coroutines.len() && (#[trigger] coroutines[i])@ == ex.vprocs[pid],
        0 <= k < coroutines.len() ==> exists|p: VPid| #[trigger]
            ex.vprocs.contains_key(p) && ex.vprocs[p] == coroutines[k]@ && ex.vprocs[p].state
                == State::Done,
{
    if ex.vprocs.contains_key(pid) && ex.vprocs[pid].state == State::Done {
        assert(ex.done(pid));
        assert(ended(ex, ex.vprocs[pid]));
        assert(holds_coroutine(coroutines, ex.vprocs[pid]));
    }
    if 0 <= k < coroutines.len() {
        assert(holds_coroutine(coroutines, coroutines[k]@));
        let p = choose|p: VPid| #[trigger] ex.done(p) && ex.vprocs[p] == coroutines[k]@;
        assert(ex.vprocs.contains_key(p));
    }
}

} // verus!
