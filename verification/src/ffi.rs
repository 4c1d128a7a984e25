//! Sessions and the functions that C code calls.
//!
//! A session has its own scheduler, its own descriptor tables and pipes, and a
//! driver that runs it. Other threads only leave requests: to start a program, or
//! to be told when a process has ended. The functions here are the driver's
//! decisions; threads, locks and waiting are outside.

use crate::cache::{all_released, release_binaries, snapshots_fit, BinaryCache};
use crate::coroutine::{CoroView, VPid};
use crate::executor::{
    binary_paths, ended, get_exit_code, holds_coroutine, pipes_reaped, tables_reaped, texts,
    vproc_exit_with_code, Executor, ExecutorView, Reaped,
};
use crate::pipe::{PipeStore, PipeView};
use crate::preload::{
    c_bytes, check_virtual_fd, close_virtual, is_virtual_fd, parent_of, pipes_closed, tables_closed,
};
use crate::tables::{
    cleanup, create_table_with_fds, dup2_fd, dup_fd, get_or_create_table,
    hands_out, kernel_to_close, lemma_fewer_files, lemma_hands_out_chain, lemma_pipe_wf, lookup_vfd,
    Duplicated, FdTables, FdTablesView,
};
use crate::vfd::{FileRef, TableView, Vfd};
use vstd::prelude::*;
use vstd::string::*;

verus! {

/// A request to start a program.
pub struct SpawnRequest {
    pub path: String,
    pub argv: Vec<String>,
    pub envp: Vec<String>,
    pub stdin_fd: i32,
    pub stdout_fd: i32,
    pub stderr_fd: i32,
    /// Tells the requests apart; the answer goes to the one who asked.
    pub ticket: u64,
}

/// A request to be told when a process has ended.
#[derive(Debug, Clone, Copy, PartialEq, Eq, Structural)]
pub struct Waiter {
    pub vpid: VPid,
    pub ticket: u64,
}

/// The answer to a waiter: the exit code.
#[derive(Debug, Clone, Copy, PartialEq, Eq, Structural)]
pub struct Settled {
    pub ticket: u64,
    pub code: i32,
}

/// A session.
pub struct Session {
    pub id: u32,
    pub executor: Executor,
    pub tables: FdTables,
    pub pipes: PipeStore,
    pub spawn_queue: Vec<SpawnRequest>,
    pub waiters: Vec<Waiter>,
    pub saved_fds: [i32; 3],
    pub probe_result: Option<i32>,
    pub shutdown: bool,
}

/// The numbers of sessions.
pub struct SessionIds {
    pub next: u32,
}

impl SessionIds {
    /// The first session gets number 1.
    pub fn new() -> (ids: SessionIds)
        ensures
            ids.next == 1,
    {
        SessionIds { next: 1 }
    }

    /// Hands out the next number. After the last one the numbers begin again
    /// with 0.
    pub fn take(&mut self) -> (id: u32)
        ensures
            id == old(self).next,
            final(self).next == id.wrapping_add(1),
    {
        let id: u32 = self.next;
        self.next = self.next.wrapping_add(1);
        id
    }
}

impl Session {
    /// The scheduler, the tables and the pipes of the session are well formed.
    pub open spec fn wf(self) -> bool {
        self.executor@.wf() && self.tables@.wf() && self.pipes.wf()
    }

    /// A session without processes and requests.
    pub fn new(id: u32) -> (s: Session)
        ensures
            s.id == id,
            s.executor@ == ExecutorView::empty(),
            s.wf(),
            s.tables@ == (FdTablesView { tables: Map::empty(), next_file: 0 }),
            s.pipes@ == Map::<u64, PipeView>::empty(),
            s.pipes.ids_left() == u64::MAX,
            s.spawn_queue@.len() == 0,
            s.waiters@.len() == 0,
            s.saved_fds@ == seq![-1i32, -1i32, -1i32],
            s.probe_result is None,
            !s.shutdown,
    {
        let s = Session {
            id,
            executor: Executor::new(),
            tables: FdTables::new(),
            pipes: PipeStore::new(),
            spawn_queue: Vec::new(),
            waiters: Vec::new(),
            saved_fds: [-1, -1, -1],
            probe_result: None,
            shutdown: false,
        };
        assert(s.saved_fds@ =~= seq![-1i32, -1i32, -1i32]);
        s
    }

    /// The session is to end.
    pub fn destroy(&mut self)
        ensures
            *final(self) == (Session { shutdown: true, ..*old(self) }),
    {
        self.shutdown = true;
    }

    /// The driver has started: `dups` are the results of duplicating the standard
    /// descriptors; where one failed, the descriptor itself is used. The self test
    /// is taken as passed.
    pub fn driver_started(&mut self, dups: [i32; 3])
        ensures
            forall|i: int|
                0 <= i < 3 ==> #[trigger] final(self).saved_fds[i] == (if dups[i] >= 0 {
                    dups[i]
                } else {
                    i as i32
                }),
            *final(self) == (Session {
                saved_fds: final(self).saved_fds,
                probe_result: Some(0),
                ..*old(self)
            }),
    {
        let in_fd: i32 = if dups[0] >= 0 {
            dups[0]
        } else {
            0
        };
        let out_fd: i32 = if dups[1] >= 0 {
            dups[1]
        } else {
            1
        };
        let err_fd: i32 = if dups[2] >= 0 {
            dups[2]
        } else {
            2
        };
        self.saved_fds = [in_fd, out_fd, err_fd];
        self.probe_result = Some(0);
    }

    /// Leaves a request to start a program.
    pub fn submit(&mut self, request: SpawnRequest)
        ensures
            final(self).spawn_queue@ == old(self).spawn_queue@.push(request),
            *final(self) == (Session { spawn_queue: final(self).spawn_queue, ..*old(self) }),
    {
        self.spawn_queue.push(request);
    }

    /// Takes all requests to start a program, oldest first.
    pub fn drain_spawn_queue(&mut self) -> (requests: Vec<SpawnRequest>)
        ensures
            requests@ == old(self).spawn_queue@,
            final(self).spawn_queue@.len() == 0,
            *final(self) == (Session { spawn_queue: final(self).spawn_queue, ..*old(self) }),
    {
        let mut requests: Vec<SpawnRequest> = Vec::new();
        requests.append(&mut self.spawn_queue);
        assert(requests@ =~= old(self).spawn_queue@);
        requests
    }

    /// Asks for the exit code of process `vpid`. Where it has not ended, the
    /// request is kept, and the driver answers it.
    pub fn wait_for(&mut self, vpid: VPid, ticket: u64) -> (code: Option<i32>)
        ensures
            if old(self).executor@.done(vpid) {
                &&& code == Some(old(self).executor@.vprocs[vpid].exit_code)
                &&& *final(self) == *old(self)
            } else {
                &&& code is None
                &&& final(self).waiters@ == old(self).waiters@.push(Waiter { vpid, ticket })
                &&& *final(self) == (Session { waiters: final(self).waiters, ..*old(self) })
            },
    {
        if let Some(co) = self.executor.vproc(vpid) {
            if co.is_done() {
                return Some(co.exit_code);
            }
        }
        self.waiters.push(Waiter { vpid, ticket });
        None
    }

    /// Whether there is a process `vpid`.
    pub fn vpid_exists(&self, vpid: VPid) -> (yes: bool)
        ensures
            yes == self.executor@.vprocs.contains_key(vpid),
    {
        self.executor.contains(vpid)
    }

    /// Takes the waiters whose process has ended, with the exit codes; the others
    /// stay, in their order.
    pub fn settle_waiters(&mut self) -> (settled: Vec<Settled>)
        ensures
            settled@ == settled_of(old(self).waiters@, old(self).executor@),
            final(self).waiters@ == unsettled_of(old(self).waiters@, old(self).executor@),
            *final(self) == (Session { waiters: final(self).waiters, ..*old(self) }),
    {
        let mut settled: Vec<Settled> = Vec::new();
        let mut waiting: Vec<Waiter> = Vec::new();
        let mut i: usize = 0;
        while i < self.waiters.len()
            invariant
                i <= self.waiters@.len(),
                *self == *old(self),
                settled@ == settled_of(self.waiters@.take(i as int), self.executor@),
                waiting@ == unsettled_of(self.waiters@.take(i as int), self.executor@),
            decreases self.waiters.len() - i,
        {
            assert(self.waiters@.take(i + 1).drop_last() =~= self.waiters@.take(i as int));
            let waiter: Waiter = self.waiters[i];
            match get_exit_code(&self.executor, waiter.vpid) {
                Some(code) => settled.push(Settled { ticket: waiter.ticket, code }),
                None => waiting.push(waiter),
            }
            i = i + 1;
        }
        assert(self.waiters@.take(i as int) =~= self.waiters@);
        self.waiters = waiting;
        settled
    }

    /// Ends a turn of the driver. `ran` is the process that it had switched to, if
    /// any, and whether that ran to its end. The process is queued again while it
    /// is alive, waiters are answered, and only then ended processes are cleaned
    /// up and their programs released.
    pub fn end_turn(&mut self, cache: &mut BinaryCache, ran: Option<(VPid, bool)>) -> (turn:
        DriverTurn)
        requires
            old(self).wf(),
            old(cache).wf(),
        ensures
            final(self).wf(),
            final(self).pipes.ids_left() == old(self).pipes.ids_left(),
            final(cache).wf(),
            snapshots_fit(old(cache)@) ==> snapshots_fit(final(cache)@),
            ({
                let ex = turn_ended(old(self).executor@, ran);
                &&& turn.settled@ == settled_of(old(self).waiters@, ex)
                &&& final(self).waiters@ == unsettled_of(old(self).waiters@, ex)
                &&& final(self).executor@ == ex.reaped()
                &&& final(self).tables@ == tables_reaped(old(self).tables@, ex)
                &&& final(self).pipes@ == pipes_reaped(
                    old(self).pipes@,
                    old(self).tables@,
                    ex,
                )
                &&& final(cache)@ == all_released(
                    old(cache)@,
                    binary_paths(turn.reaped.coroutines@),
                )
                &&& forall|co: CoroView|
                    #![trigger holds_coroutine(turn.reaped.coroutines@, co)]
                    holds_coroutine(turn.reaped.coroutines@, co) <==> ended(ex, co)
            }),
            texts(turn.reaped.binaries@) == binary_paths(turn.reaped.coroutines@),
            hands_out(old(self).tables@, final(self).tables@, turn.reaped.files@),
            *final(self) == (Session {
                executor: final(self).executor,
                tables: final(self).tables,
                pipes: final(self).pipes,
                waiters: final(self).waiters,
                ..*old(self)
            }),
    {
        if let Some((pid, dead)) = ran {
            self.executor.driver_step_done(pid, dead);
        }
        let settled = self.settle_waiters();
        let reaped = self.executor.reap_done_coroutines(&mut self.tables, &mut self.pipes);
        release_binaries(cache, reaped.binaries.as_slice());
        DriverTurn { settled, reaped }
    }

    /// Whether the driver has something to do without waiting for a request.
    pub fn has_work(&self) -> (yes: bool)
        ensures
            yes == (self.spawn_queue@.len() > 0 || self.waiters@.len() > 0 || exists|pid: VPid|
                self.executor@.live(pid)),
    {
        self.spawn_queue.len() > 0 || self.waiters.len() > 0 || self.executor.any_live()
    }

    /// Whether the driver waits for a request before it goes on.
    pub fn driver_waits(&self) -> (yes: bool)
        ensures
            yes == !(self.shutdown || self.spawn_queue@.len() > 0 || self.waiters@.len() > 0
                || exists|pid: VPid| self.executor@.live(pid)),
    {
        !self.shutdown && !self.has_work()
    }

    /// The session ends: ended processes are cleaned up and their programs
    /// released, and all its descriptor tables are dropped. Every file that one of
    /// its processes had open is handed out.
    pub fn finish(&mut self, cache: &mut BinaryCache) -> (reaped: Reaped)
        requires
            old(self).wf(),
            old(cache).wf(),
        ensures
            final(self).wf(),
            final(self).executor@ == old(self).executor@.reaped(),
            *final(self) == (Session {
                executor: final(self).executor,
                tables: final(self).tables,
                pipes: final(self).pipes,
                ..*old(self)
            }),
            final(cache).wf(),
            snapshots_fit(old(cache)@) ==> snapshots_fit(final(cache)@),
            final(self).tables@ == (FdTablesView {
                tables: Map::empty(),
                next_file: old(self).tables@.next_file,
            }),
            final(self).pipes@ == tables_reaped(
                old(self).tables@,
                old(self).executor@,
            ).pipes_after_drops(
                Set::full(),
                pipes_reaped(old(self).pipes@, old(self).tables@, old(self).executor@),
            ),
            final(cache)@ == all_released(old(cache)@, binary_paths(reaped.coroutines@)),
            texts(reaped.binaries@) == binary_paths(reaped.coroutines@),
            forall|co: CoroView|
                #![trigger holds_coroutine(reaped.coroutines@, co)]
                holds_coroutine(reaped.coroutines@, co) <==> ended(old(self).executor@, co),
            hands_out(old(self).tables@, final(self).tables@, reaped.files@),
    {
        let mut reaped = self.executor.reap_done_coroutines(&mut self.tables, &mut self.pipes);
        release_binaries(cache, reaped.binaries.as_slice());
        let ghost middle = self.tables@;
        let ghost files0 = reaped.files@;
        let mut rest: Vec<FileRef> = cleanup(&mut self.tables, &mut self.pipes);
        let ghost rest0 = rest@;
        reaped.files.append(&mut rest);
        proof {
            lemma_fewer_files(self.tables@, middle);
            lemma_fewer_files(middle, old(self).tables@);
            lemma_hands_out_chain(old(self).tables@, middle, self.tables@, files0, rest0);
        }
        reaped
    }

    /// A program was started for a request, or not: where it was, the new process
    /// gets the standard descriptors of the request, in place of a table that it
    /// has. Returns the answer, which is the number of the process or 0, and the
    /// files that are no longer mentioned.
    pub fn spawn_answer(
        &mut self,
        started: Option<VPid>,
        stdin_fd: i32,
        stdout_fd: i32,
        stderr_fd: i32,
    ) -> (result: (u32, Vec<FileRef>))
        requires
            old(self).wf(),
        ensures
            final(self).wf(),
            final(self).pipes.ids_left() == old(self).pipes.ids_left(),
            match started {
                Some(vpid) => {
                    &&& result.0 == vpid
                    &&& final(self).tables@ == old(self).tables@.with(
                        vpid,
                        TableView::standard(stdin_fd, stdout_fd, stderr_fd),
                    )
                    &&& final(self).pipes@ == old(self).tables@.pipes_after_drop(
                        vpid,
                        old(self).pipes@,
                    )
                },
                None => {
                    &&& result.0 == 0
                    &&& final(self).tables@ == old(self).tables@
                    &&& final(self).pipes@ == old(self).pipes@
                },
            },
            hands_out(old(self).tables@, final(self).tables@, result.1@),
            *final(self) == (Session {
                tables: final(self).tables,
                pipes: final(self).pipes,
                ..*old(self)
            }),
    {
        match started {
            Some(vpid) => {
                let files = create_table_with_fds(
                    &mut self.tables,
                    &mut self.pipes,
                    vpid,
                    stdin_fd,
                    stdout_fd,
                    stderr_fd,
                );
                (vpid, files)
            },
            None => (0, Vec::new()),
        }
    }
}

/// What a turn of the driver leaves to be done.
pub struct DriverTurn {
    /// Answers to waiters.
    pub settled: Vec<Settled>,
    /// What is left of processes that were cleaned up.
    pub reaped: Reaped,
}

/// The scheduler after the process that ran gave control back to the driver.
pub open spec fn turn_ended(ex: ExecutorView, ran: Option<(VPid, bool)>) -> ExecutorView {
    match ran {
        Some((pid, dead)) => ExecutorView {
            current: None,
            ..ex.returned(pid, dead).requeued(pid)
        },
        None => ex,
    }
}

/// A waiter is answered in the very turn in which its process ends, also where a
/// signal ended it, and with its exit code; afterwards the process is gone.
pub proof fn law_waiter_answered_in_turn(
    waiters: Seq<Waiter>,
    ex: ExecutorView,
    ran: Option<(VPid, bool)>,
    i: int,
)
    requires
        0 <= i < waiters.len(),
        turn_ended(ex, ran).done(waiters[i].vpid),
    ensures
        exists|code: i32|
            turn_ended(ex, ran).exit_code(waiters[i].vpid) == Some(code) && #[trigger] settled_of(
                waiters,
                turn_ended(ex, ran),
            ).contains(Settled { ticket: waiters[i].ticket, code }),
        !turn_ended(ex, ran).reaped().vprocs.contains_key(waiters[i].vpid),
{
    let now = turn_ended(ex, ran);
    law_waiters_kept(waiters, now, i);
    let code = now.exit_code(waiters[i].vpid)->0;
    assert(settled_of(waiters, now).contains(Settled { ticket: waiters[i].ticket, code }));
}

/// The answers to those of `waiters` whose process has ended, in order.
pub open spec fn settled_of(waiters: Seq<Waiter>, ex: ExecutorView) -> Seq<Settled>
    decreases waiters.len(),
{
    if waiters.len() == 0 {
        Seq::empty()
    } else {
        let before = settled_of(waiters.drop_last(), ex);
        match ex.exit_code(waiters.last().vpid) {
            Some(code) => before.push(Settled { ticket: waiters.last().ticket, code }),
            None => before,
        }
    }
}

/// Those of `waiters` whose process has not ended, in order.
pub open spec fn unsettled_of(waiters: Seq<Waiter>, ex: ExecutorView) -> Seq<Waiter>
    decreases waiters.len(),
{
    if waiters.len() == 0 {
        Seq::empty()
    } else {
        let before = unsettled_of(waiters.drop_last(), ex);
        match ex.exit_code(waiters.last().vpid) {
            Some(_) => before,
            None => before.push(waiters.last()),
        }
    }
}

/// No waiter is lost: each is either answered or kept.
pub proof fn law_waiters_kept(waiters: Seq<Waiter>, ex: ExecutorView, i: int)
    requires
        0 <= i < waiters.len(),
    ensures
        settled_of(waiters, ex).len() + unsettled_of(waiters, ex).len() == waiters.len(),
        match ex.exit_code(waiters[i].vpid) {
            Some(code) => settled_of(waiters, ex).contains(
                Settled { ticket: waiters[i].ticket, code },
            ),
            None => unsettled_of(waiters, ex).contains(waiters[i]),
        },
    decreases waiters.len(),
{
    let before = waiters.drop_last();
    lemma_waiters_len(before, ex);
    if i < before.len() {
        law_waiters_kept(before, ex, i);
        assert(before[i] == waiters[i]);
        match ex.exit_code(waiters[i].vpid) {
            Some(code) => {
                let s = Settled { ticket: waiters[i].ticket, code };
                let k = choose|k: int|
                    0 <= k < settled_of(before, ex).len() && settled_of(before, ex)[k] == s;
                assert(settled_of(waiters, ex)[k] == s);
            },
            None => {
                let k = choose|k: int|
                    0 <= k < unsettled_of(before, ex).len() && unsettled_of(before, ex)[k]
                        == waiters[i];
                assert(unsettled_of(waiters, ex)[k] == waiters[i]);
            },
        }
    } else {
        match ex.exit_code(waiters[i].vpid) {
            Some(code) => {
                assert(settled_of(waiters, ex).last() == (Settled {
                    ticket: waiters[i].ticket,
                    code,
                }));
            },
            None => {
                assert(unsettled_of(waiters, ex).last() == waiters[i]);
            },
        }
    }
}

proof fn lemma_waiters_len(waiters: Seq<Waiter>, ex: ExecutorView)
    ensures
        settled_of(waiters, ex).len() + unsettled_of(waiters, ex).len() == waiters.len(),
    decreases waiters.len(),
{
    if waiters.len() > 0 {
        lemma_waiters_len(waiters.drop_last(), ex);
    }
}

/// Whether a duplication of descriptors has an effect: the source exists, and is
/// not the target.
pub fn dup_needed(old_fd: i32, new_fd: i32) -> (yes: bool)
    ensures
        yes == (old_fd >= 0 && old_fd != new_fd),
{
    old_fd >= 0 && old_fd != new_fd
}

/// The current process; 0 outside of one.
pub fn vproc_ffi_current_vpid(ex: &Executor) -> (vpid: VPid)
    ensures
        vpid == (match ex@.current {
            Some(pid) => pid,
            None => 0,
        }),
{
    match ex.current_pid() {
        Some(pid) => pid,
        None => 0,
    }
}

/// The exit code of process `vpid`; -1 where it has not ended.
pub fn vproc_ffi_get_exit_code(ex: &Executor, vpid: VPid) -> (code: i32)
    ensures
        code == (match ex@.exit_code(vpid) {
            Some(code) => code,
            None => -1i32,
        }),
{
    match get_exit_code(ex, vpid) {
        Some(code) => code,
        None => -1,
    }
}

/// The number of the current process; `real_pid` outside of one.
pub fn vproc_ffi_getpid(ex: &Executor, real_pid: u32) -> (pid: u32)
    ensures
        pid == (match ex@.current {
            Some(vpid) => vpid,
            None => real_pid,
        }),
{
    match ex.current_pid() {
        Some(vpid) => vpid,
        None => real_pid,
    }
}

/// The number of the parent of the current process; `real_ppid` outside of one.
pub fn vproc_ffi_getppid(ex: &Executor, real_ppid: u32) -> (ppid: u32)
    ensures
        ppid == (match ex@.current {
            Some(vpid) => parent_of(ex@, vpid),
            None => real_ppid,
        }),
{
    match ex.current_pid() {
        Some(vpid) => match ex.vproc(vpid) {
            Some(co) => co.ppid,
            None => 0,
        },
        None => real_ppid,
    }
}

/// Ends the current process with `code`. Returns whether there is one: it has to
/// give up control for good; else the whole process is to be ended.
pub fn vproc_ffi_exit(ex: &mut Executor, code: i32) -> (in_process: bool)
    ensures
        in_process == (old(ex)@.current is Some),
        final(ex)@ == old(ex)@.exited(code),
        old(ex)@.wf() ==> final(ex)@.wf(),
{
    vproc_exit_with_code(ex, code).is_some()
}

/// Whether descriptor `fd` of process `vpid` is virtual: 1 or 0.
pub fn vproc_ffi_is_virtual_fd(tables: &FdTables, vpid: VPid, fd: i32) -> (flag: i32)
    ensures
        flag == (if is_virtual_fd(tables@, vpid, fd) {
            1i32
        } else {
            0i32
        }),
{
    if check_virtual_fd(tables, vpid, fd) {
        1
    } else {
        0
    }
}

/// How a virtual fork begins.
#[derive(Debug, Clone, Copy, PartialEq, Eq, Structural)]
pub enum ForkStart {
    /// This is a child that arrives here: return 0.
    Child,
    /// This process forks: its stack is to be copied while it waits.
    Parent(VPid),
}

/// A virtual fork begins. A child that has not returned from its fork yet does
/// so.
pub fn fork_start(ex: &mut Executor) -> (start: ForkStart)
    requires
        old(ex)@.current matches Some(pid) && old(ex)@.vprocs.contains_key(pid),
    ensures
        start == (if old(ex)@.vprocs[old(ex)@.current->0].is_fork_child {
            ForkStart::Child
        } else {
            ForkStart::Parent(old(ex)@.current->0)
        }),
        final(ex)@ == old(ex)@.changed(
            old(ex)@.current->0,
            |co: CoroView| CoroView { is_fork_child: false, ..co },
        ),
        old(ex)@.wf() ==> final(ex)@.wf(),
{
    match ex.current_pid() {
        Some(pid) => if ex.take_fork_child(pid) {
            ForkStart::Child
        } else {
            ForkStart::Parent(pid)
        },
        None => ForkStart::Child,
    }
}

/// What a fork returns in the process that runs.
pub open spec fn fork_result(ex: ExecutorView) -> VPid {
    let co = ex.vprocs[ex.current->0];
    if co.is_fork_child {
        0
    } else {
        co.fork_child_pid
    }
}

/// A virtual fork returns, in the parent and in the child: 0 in the child, the
/// number of the child in the parent.
pub fn fork_return(ex: &mut Executor) -> (result: VPid)
    requires
        old(ex)@.current matches Some(pid) && old(ex)@.vprocs.contains_key(pid),
    ensures
        result == fork_result(old(ex)@),
        result == (if old(ex)@.vprocs[old(ex)@.current->0].is_fork_child {
            0
        } else {
            old(ex)@.vprocs[old(ex)@.current->0].fork_child_pid
        }),
        final(ex)@ == old(ex)@.changed(
            old(ex)@.current->0,
            |co: CoroView| CoroView { is_fork_child: false, ..co },
        ),
        old(ex)@.wf() ==> final(ex)@.wf(),
{
    match ex.current_pid() {
        Some(pid) => if ex.take_fork_child(pid) {
            0
        } else {
            match ex.vproc(pid) {
                Some(co) => co.fork_child_pid,
                None => 0,
            }
        },
        None => 0,
    }
}

/// A fork returns twice: 0 in the child, and the child's number in the parent,
/// whichever of them comes first.
pub proof fn law_fork_returns_twice(ex: ExecutorView, parent: VPid)
    requires
        ex.wf(),
        ex.vprocs.contains_key(parent),
        !ex.vprocs[parent].is_fork_child,
        ex.next_pid < u32::MAX,
    ensures
        ({
            let after = ex.forked(parent);
            let child = ex.next_pid;
            &&& child != 0
            &&& child != parent
            &&& after.vprocs[child].is_fork_child
            &&& !after.vprocs[parent].is_fork_child
            &&& after.vprocs[parent].fork_child_pid == child
            &&& fork_result(ExecutorView { current: Some(child), ..after }) == 0
            &&& fork_result(ExecutorView { current: Some(parent), ..after }) == child
        }),
{
}

/// Creates a pipe for process `vpid`. Returns the numbers of its two ends.
pub fn vproc_ffi_pipe(tables: &mut FdTables, pipes: &mut PipeStore, vpid: VPid) -> (ends: (
    u32,
    u32,
))
    requires
        old(pipes).wf(),
        old(pipes).ids_left() > 0,
        old(tables)@.table_or_new(vpid).has_room(),
        old(tables)@.table_or_new(vpid).allocated().has_room(),
    ensures
        final(pipes).wf(),
        final(pipes).ids_left() == old(pipes).ids_left() - 1,
        ends.0 == old(tables)@.table_or_new(vpid).next_fd,
        ends.1 == old(tables)@.table_or_new(vpid).allocated().next_fd,
        ends.0 < ends.1,
        exists|id: u64|
            {
                &&& !old(pipes)@.contains_key(id)
                &&& final(pipes)@ == old(tables)@.table_or_new(vpid).pipes_after_close(
                    old(tables)@.table_or_new(vpid).next_fd,
                    old(pipes)@,
                ).insert(id, PipeView::empty())
                &&& final(tables)@ == old(tables)@.with(
                    vpid,
                    #[trigger] old(tables)@.table_or_new(vpid).with_pipe(id),
                )
            },
        old(tables)@.wf() ==> final(tables)@.wf(),
{
    let ends = get_or_create_table(tables, vpid).create_pipe(pipes);
    proof {
        lemma_pipe_wf(old(tables)@, vpid, tables@.tables[vpid]);
    }
    ends
}

/// Reads from the pipe behind descriptor `fd` of process `vpid`. Returns -1 where
/// it is no reading end, or there is nothing to read yet.
pub fn vproc_ffi_read(
    tables: &FdTables,
    pipes: &mut PipeStore,
    vpid: VPid,
    fd: i32,
    buf: &mut [u8],
) -> (n: isize)
    requires
        old(pipes).wf(),
    ensures
        final(pipes).wf(),
        final(pipes).ids_left() == old(pipes).ids_left(),
        match crate::preload::read_pipe(tables@, old(pipes)@, vpid, fd) {
            None => n == -1 && final(pipes)@ == old(pipes)@ && final(buf)@ == old(buf)@,
            Some(id) => {
                let pipe = old(pipes)@[id];
                let len = old(buf)@.len();
                &&& n == pipe.read_result(len)
                &&& final(pipes)@ == old(pipes)@.insert(id, pipe.after_read(len))
                &&& final(buf)@ == pipe.read_bytes(len) + old(buf)@.skip(pipe.taken(len) as int)
            },
        },
{
    if let Some(Vfd::PipeRead(id)) = tables.lookup(vpid, fd as u32) {
        if pipes.get(id).is_some() {
            return pipes.read_from(id, buf);
        }
    }
    -1
}

/// Writes to the pipe behind descriptor `fd` of process `vpid`. Returns -1 where
/// it is no writing end, nobody is left to read, or the pipe is full.
pub fn vproc_ffi_write(
    tables: &FdTables,
    pipes: &mut PipeStore,
    vpid: VPid,
    fd: i32,
    src: &[u8],
) -> (n: isize)
    requires
        old(pipes).wf(),
    ensures
        final(pipes).wf(),
        final(pipes).ids_left() == old(pipes).ids_left(),
        match crate::preload::write_pipe(tables@, old(pipes)@, vpid, fd) {
            None => n == -1 && final(pipes)@ == old(pipes)@,
            Some(id) => {
                &&& n == old(pipes)@[id].write_result(src@.len())
                &&& final(pipes)@ == old(pipes)@.insert(id, old(pipes)@[id].after_write(src@))
            },
        },
{
    if let Some(Vfd::PipeWrite(id)) = tables.lookup(vpid, fd as u32) {
        if pipes.get(id).is_some() {
            return pipes.write_to(id, src);
        }
    }
    -1
}

/// Whether the pipe behind a writing end takes no more bytes: nobody is left to
/// read.
pub fn vproc_ffi_pipe_is_closed(tables: &FdTables, pipes: &PipeStore, vpid: VPid, fd: i32) -> (closed:
    bool)
    requires
        pipes.wf(),
    ensures
        closed == (crate::preload::write_pipe(tables@, pipes@, vpid, fd) matches Some(id)
            && pipes@[id].broken()),
{
    if let Some(Vfd::PipeWrite(id)) = tables.lookup(vpid, fd as u32) {
        if let Some(buffer) = pipes.get(id) {
            return buffer.is_broken();
        }
    }
    false
}

/// Closes descriptor `fd` of process `vpid`. `None` where it is not in use;
/// else the kernel descriptor that is to be closed, where there is one.
pub fn vproc_ffi_close(tables: &mut FdTables, pipes: &mut PipeStore, vpid: VPid, fd: i32) -> (result:
    Option<Option<i32>>)
    requires
        old(pipes).wf(),
    ensures
        final(pipes).wf(),
        final(pipes).ids_left() == old(pipes).ids_left(),
        final(tables)@ == tables_closed(old(tables)@, vpid, fd as u32),
        final(pipes)@ == pipes_closed(old(tables)@, old(pipes)@, vpid, fd as u32),
        old(tables)@.wf() ==> final(tables)@.wf(),
        result == (match lookup_vfd(old(tables)@, vpid, fd as u32) {
            None => None,
            Some(vfd) => Some(kernel_to_close(Some(vfd), final(tables)@)),
        }),
{
    close_virtual(tables, pipes, vpid, fd as u32)
}

/// What a duplication returns to C code: the number of the duplicate, or -1.
pub open spec fn dup_value(result: Result<u32, i32>) -> i32 {
    match result {
        Ok(fd) => fd as i32,
        Err(_) => -1i32,
    }
}

fn dup_answer(duplicated: Option<Duplicated>) -> (answer: (i32, Option<i32>))
    ensures
        answer == (match duplicated {
            Some(d) => (dup_value(d.result), d.close_kernel),
            None => (-1i32, None),
        }),
{
    match duplicated {
        None => (-1, None),
        Some(d) => {
            let value: i32 = match d.result {
                Ok(fd) => fd as i32,
                Err(_) => -1,
            };
            (value, d.close_kernel)
        },
    }
}

/// Duplicates descriptor `old_fd` of process `vpid`. Returns -1 where that fails;
/// also the kernel descriptor that is to be closed, where there is one.
pub fn vproc_ffi_dup(tables: &mut FdTables, pipes: &mut PipeStore, vpid: VPid, old_fd: i32) -> (answer:
    (i32, Option<i32>))
    requires
        old(pipes).wf(),
        old(tables)@.tables.contains_key(vpid) ==> old(tables)@.tables[vpid].has_room(),
    ensures
        final(pipes).wf(),
        final(pipes).ids_left() == old(pipes).ids_left(),
        if old(tables)@.tables.contains_key(vpid) {
            let table = old(tables)@.tables[vpid];
            let new_fd = table.next_fd;
            &&& answer.0 == dup_value(table.dup2_result(old_fd as u32, new_fd))
            &&& answer.1 == kernel_to_close(
                lookup_vfd(old(tables)@, vpid, new_fd),
                final(tables)@,
            )
            &&& final(tables)@ == old(tables)@.with(
                vpid,
                table.allocated().after_dup2(old_fd as u32, new_fd),
            )
            &&& final(pipes)@ == table.pipes_after_dup2(old_fd as u32, new_fd, old(pipes)@)
        } else {
            &&& answer == (-1i32, None::<i32>)
            &&& final(tables)@ == old(tables)@
            &&& final(pipes)@ == old(pipes)@
        },
        old(tables)@.wf() ==> final(tables)@.wf(),
{
    dup_answer(dup_fd(tables, pipes, vpid, old_fd as u32))
}

/// Duplicates descriptor `old_fd` of process `vpid` onto `new_fd`. Returns -1
/// where that fails; also the kernel descriptor that is to be closed, where there
/// is one.
pub fn vproc_ffi_dup2(
    tables: &mut FdTables,
    pipes: &mut PipeStore,
    vpid: VPid,
    old_fd: i32,
    new_fd: i32,
) -> (answer: (i32, Option<i32>))
    requires
        old(pipes).wf(),
    ensures
        final(pipes).wf(),
        final(pipes).ids_left() == old(pipes).ids_left(),
        if old(tables)@.tables.contains_key(vpid) {
            let table = old(tables)@.tables[vpid];
            &&& answer.0 == dup_value(table.dup2_result(old_fd as u32, new_fd as u32))
            &&& answer.1 == kernel_to_close(
                lookup_vfd(old(tables)@, vpid, new_fd as u32),
                final(tables)@,
            )
            &&& final(tables)@ == old(tables)@.with(
                vpid,
                table.after_dup2(old_fd as u32, new_fd as u32),
            )
            &&& final(pipes)@ == table.pipes_after_dup2(
                old_fd as u32,
                new_fd as u32,
                old(pipes)@,
            )
        } else {
            &&& answer == (-1i32, None::<i32>)
            &&& final(tables)@ == old(tables)@
            &&& final(pipes)@ == old(pipes)@
        },
        old(tables)@.wf() ==> final(tables)@.wf(),
{
    dup_answer(dup2_fd(tables, pipes, vpid, old_fd as u32, new_fd as u32))
}

/// The bytes to be stored as the working directory of process `vpid`, in a buffer
/// of `size` bytes; `None` where it has none of its own, or it does not fit.
pub fn vproc_ffi_get_cwd(ex: &Executor, vpid: VPid, size: usize) -> (bytes: Option<Vec<u8>>)
    ensures
        match bytes {
            Some(b) => {
                &&& ex@.vprocs.contains_key(vpid)
                &&& ex@.vprocs[vpid].cwd matches Some(cwd) && b@ == c_bytes(cwd) && b@.len() <= size
            },
            None => !ex@.vprocs.contains_key(vpid) || (ex@.vprocs[vpid].cwd matches Some(cwd)
                ==> c_bytes(cwd).len() > size),
        },
{
    match ex.vproc(vpid) {
        None => None,
        Some(co) => match &co.cwd {
            None => None,
            Some(cwd) => {
                let b = crate::preload::to_c_bytes(cwd.as_str());
                if b.len() > size {
                    None
                } else {
                    Some(b)
                }
            },
        },
    }
}

/// Version that C code is told: that of the library, with the zero at the end.
pub fn vproc_ffi_version() -> (bytes: Vec<u8>)
    ensures
        bytes@ == c_bytes(crate::VERSION@),
        bytes@ == seq![0x30u8, 0x2eu8, 0x34u8, 0x2eu8, 0x30u8, 0u8],
{
    let bytes = crate::preload::to_c_bytes(crate::VERSION);
    proof {
        reveal_strlit("0.4.0");
        vstd::utf8::is_ascii_chars_encode_utf8(crate::VERSION@);
        assert(bytes@ =~= seq![0x30u8, 0x2eu8, 0x34u8, 0x2eu8, 0x30u8, 0u8]);
    }
    bytes
}

/// Answers and waiters keep their order: those whose process has ended are answered,
/// each with the exit code of its process, and the others stay.
pub proof fn law_waiters_in_order(waiters: Seq<Waiter>, ex: ExecutorView)
    ensures
        settled_of(waiters, ex) == waiters.filter(
            |w: Waiter| ex.exit_code(w.vpid) is Some,
        ).map_values(|w: Waiter| Settled { ticket: w.ticket, code: ex.exit_code(w.vpid)->0 }),
        unsettled_of(waiters, ex) == waiters.filter(|w: Waiter| ex.exit_code(w.vpid) is None),
    decreases waiters.len(),
{
    reveal(Seq::filter);
    let over = |w: Waiter| ex.exit_code(w.vpid) is Some;
    let answer = |w: Waiter| Settled { ticket: w.ticket, code: ex.exit_code(w.vpid)->0 };
    if waiters.len() > 0 {
        let some = waiters.drop_last();
        let last = waiters.last();
        law_waiters_in_order(some, ex);
        let kept = some.filter(over);
        if over(last) {
            assert(kept.push(last).map_values(answer) =~= kept.map_values(answer).push(
                answer(last),
            ));
        }
    }
    assert(settled_of(waiters, ex) =~= waiters.filter(over).map_values(answer));
    assert(unsettled_of(waiters, ex) =~= waiters.filter(
        |w: Waiter| ex.exit_code(w.vpid) is None,
    ));
}

/// After a turn nobody runs. The process that ran has ended where its context ran to
/// its end; else it is queued again, unless it sleeps or ended by itself. Nobody else
/// changes.
pub proof fn law_turn_ends(ex: ExecutorView, pid: VPid, dead: bool, other: VPid)
    requires
        ex.live(pid),
    ensures
        ({
            let after = turn_ended(ex, Some((pid, dead)));
            let sleeps = ex.vprocs[pid].io_wait is Some && !ex.vprocs[pid].io_wait->0.polls_pipes;
            &&& after.current is None
            &&& dead ==> after.done(pid) && after.ready == ex.ready
            &&& !dead ==> after.live(pid)
            &&& !dead && sleeps ==> after.ready == ex.ready
            &&& !dead && !sleeps ==> after.ready == ex.ready.push(pid)
            &&& after.vprocs[pid].exit_code == ex.vprocs[pid].exit_code
            &&& after.vprocs.dom() == ex.vprocs.dom()
            &&& other != pid && ex.vprocs.contains_key(other) ==> after.vprocs[other]
                == ex.vprocs[other]
            &&& after.exit_codes == ex.exit_codes
            &&& after.children == ex.children
        }),
        turn_ended(ex, None) == ex,
{
    assert(turn_ended(ex, Some((pid, dead))).vprocs.dom() =~= ex.vprocs.dom());
}

/// C code gets the number of a duplicate, or -1.
pub proof fn law_dup_value(fd: u32, error: i32)
    requires
        fd <= i32::MAX,
    ensures
        dup_value(Ok(fd)) == fd,
        dup_value(Err(error)) == -1,
{
}

} // verus!
