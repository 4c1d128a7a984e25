//! User-space virtual processes.
//!
//! Many virtual processes share one process of the operating system. Each is a
//! coroutine with its own number, descriptors, working directory, pending signals
//! and exit code. This library holds the decisions and the bookkeeping: the
//! scheduler, descriptor tables and virtual pipes, the ELF parser, load plans, the
//! cache of loaded programs, and what each intercepted call of the C library does.
//! Context switches, memory mappings, the dynamic linker and system calls are
//! performed by the code around it.
#![allow(unused_imports)]

use crate::cache::{snapshots_fit, BinaryCache, BinaryCacheEntry, EntryView};
use crate::coroutine::{CoroView, VPid};
use crate::executor::{Executor, ExecutorView, Step};
use crate::pipe::PipeStore;
use crate::run::{
    after_block_on, all_over, all_queued, block_on_result, block_returned, law_run_completes, switched_to,
};
use crate::tables::{hands_out, FdTables, FdTablesView};
use crate::vfd::FileRef;
use vstd::prelude::*;

pub mod cache;
pub mod coroutine;
pub mod elf;
pub mod ends;
pub mod executor;
pub mod ffi;
pub mod hooks;
pub mod keys;
pub mod loader;
pub mod log;
pub mod path;
pub mod pipe;
pub mod poll;
pub mod preload;
pub mod run;
pub mod tables;
pub mod text;
pub mod vexec;
pub mod vfd;

verus! {

/// Version of the library.
pub const VERSION: &'static str = "0.4.0";

/// Creates a process at the end of the queue.
pub fn spawn(ex: &mut Executor) -> (pid: VPid)
    requires
        old(ex)@.next_pid < u32::MAX,
    ensures
        pid == old(ex)@.next_pid,
        final(ex)@ == old(ex)@.registered(CoroView::fresh(pid)).queued(pid),
        old(ex)@.wf() ==> final(ex)@.wf() && !old(ex)@.vprocs.contains_key(pid),
{
    ex.spawn()
}

/// Creates a process at the front of the queue.
pub fn spawn_front(ex: &mut Executor) -> (pid: VPid)
    requires
        old(ex)@.next_pid < u32::MAX,
    ensures
        pid == old(ex)@.next_pid,
        final(ex)@ == (ExecutorView {
            ready: seq![pid] + old(ex)@.ready,
            ..old(ex)@.registered(CoroView::fresh(pid))
        }),
        old(ex)@.wf() ==> final(ex)@.wf() && !old(ex)@.vprocs.contains_key(pid),
{
    ex.spawn_front()
}

/// Gives up control: inside of a process the context that runs has to switch back
/// (`None`), outside the driver takes a step.
pub fn yield_now(ex: &mut Executor, in_process: bool) -> (step: Option<Step>)
    requires
        old(ex)@.switches < u64::MAX,
    ensures
        in_process ==> step is None && final(ex)@ == old(ex)@,
        !in_process ==> step == Some(old(ex)@.step_result()) && final(ex)@ == old(
            ex,
        )@.after_driver_step(),
        old(ex)@.wf() ==> final(ex)@.wf(),
{
    executor::do_yield(ex, in_process)
}

/// Decides on the next step of a run to completion. `ran` is the process that the
/// run had switched to, if any, and whether it ran to its end; it is queued again
/// while it is alive. The caller goes on until `Idle`: with everyone queued to
/// begin with, all processes have ended then, and each has an exit code.
pub fn block_on_all(ex: &mut Executor, ran: Option<(VPid, bool)>) -> (step: Step)
    requires
        old(ex)@.switches < u64::MAX,
    ensures
        step == block_on_result(block_returned(old(ex)@, ran)),
        final(ex)@ == after_block_on(block_returned(old(ex)@, ran)),
        old(ex)@.wf() ==> final(ex)@.wf(),
        all_queued(
            old(ex)@,
            match ran {
                Some((pid, _)) => Some(pid),
                None => None,
            },
        ) ==> {
            &&& all_queued(final(ex)@, switched_to(step))
            &&& step == Step::Idle ==> all_over(final(ex)@)
        },
{
    if let Some((pid, dead)) = ran {
        ex.block_on_step_done(pid, dead);
    }
    let step = ex.block_on_step();
    proof {
        if all_queued(
            old(ex)@,
            match ran {
                Some((pid, _)) => Some(pid),
                None => None,
            },
        ) {
            law_run_completes(old(ex)@, ran);
        }
    }
    step
}

/// How often a process got its turn.
pub fn switch_count(ex: &Executor) -> (n: u64)
    ensures
        n == ex@.switches,
{
    ex.switch_count()
}

/// The current process exits with `code`. Returns its number: it has to give up
/// control now.
pub fn exit(ex: &mut Executor, code: i32) -> (pid: Option<VPid>)
    ensures
        pid == old(ex)@.current,
        final(ex)@ == old(ex)@.exited(code),
        old(ex)@.wf() ==> final(ex)@.wf(),
{
    executor::vproc_exit_with_code(ex, code)
}

/// The exit code of process `pid`, once it has ended.
pub fn get_exit_code(ex: &Executor, pid: VPid) -> (code: Option<i32>)
    ensures
        code == ex@.exit_code(pid),
{
    executor::get_exit_code(ex, pid)
}

/// Takes the program at `real_path` out of the cache. Returns the handle that is
/// to be closed, where it was cached.
pub fn unload_binary(binaries: &mut BinaryCache, real_path: &String) -> (handle: Option<u64>)
    requires
        old(binaries).wf(),
    ensures
        final(binaries).wf(),
        final(binaries)@ == old(binaries)@.remove(real_path@),
        snapshots_fit(old(binaries)@) ==> snapshots_fit(final(binaries)@),
        handle == (if old(binaries)@.contains_key(real_path@) {
            Some(old(binaries)@[real_path@].handle)
        } else {
            None
        }),
{
    cache::unload_binary(binaries, real_path)
}

/// Empties the cache of programs. Returns what was in it: the handles are to be
/// closed.
pub fn unload_all_binaries(binaries: &mut BinaryCache) -> (entries: Vec<BinaryCacheEntry>)
    requires
        old(binaries).wf(),
    ensures
        final(binaries).wf(),
        final(binaries)@ == Map::<Seq<char>, EntryView>::empty(),
        snapshots_fit(final(binaries)@),
        forall|i: int|
            0 <= i < entries@.len() ==> old(binaries)@.contains_key(
                (#[trigger] entries@[i]).path@,
            ) && old(binaries)@[entries@[i].path@] == entries@[i]@,
        forall|path: Seq<char>| #[trigger]
            old(binaries)@.contains_key(path) ==> exists|i: int|
                0 <= i < entries@.len() && (#[trigger] entries@[i]).path@ == path,
        forall|i: int, j: int|
            0 <= i < entries@.len() && 0 <= j < entries@.len() && i != j ==> (
            #[trigger] entries@[i]).path@ != (#[trigger] entries@[j]).path@,
{
    cache::unload_all_binaries(binaries)
}

/// The number of cached programs.
pub fn cached_binary_count(binaries: &BinaryCache) -> (n: usize)
    requires
        binaries.wf(),
    ensures
        n == binaries@.len(),
{
    cache::cached_binary_count(binaries)
}

/// Drops all descriptor tables: every pipe that one of them mentions is closed.
/// Returns the files that were mentioned: their kernel descriptors are to be
/// closed.
pub fn cleanup_fd_tables(all: &mut FdTables, pipes: &mut PipeStore) -> (files: Vec<FileRef>)
    requires
        old(pipes).wf(),
    ensures
        final(pipes).wf(),
        final(pipes).ids_left() == old(pipes).ids_left(),
        final(all)@ == (FdTablesView { tables: Map::empty(), next_file: old(all)@.next_file }),
        final(pipes)@ == old(all)@.pipes_after_drops(Set::full(), old(pipes)@),
        hands_out(old(all)@, final(all)@, files@),
{
    tables::cleanup(all, pipes)
}

} // verus!
