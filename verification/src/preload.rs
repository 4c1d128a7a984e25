//! Decisions of the intercepted C library functions.
//!
//! Each function says what an intercepted call does: pass it to the real
//! function, fail, return a value, or give up control and try again. The state
//! of virtual processes, descriptors and pipes changes here; everything else is
//! performed by the caller.

use crate::coroutine::{copy_text, text, CoroView, VPid};
use crate::executor::{
    get_exit_code, is_fatal, vproc_exit_with_code, Executor, ExecutorView, Step, SIGKILL, SIGPIPE,
    SIGTERM,
};
pub use crate::path::resolve_path;
use crate::path::{is_absolute, resolved};
use crate::pipe::{PipeStore, PipeView};
use crate::tables::{
    can_insert_file, close_file_fd, dup2_fd, dup_fd, file_inserted, get_table, insert_file,
    kernel_to_close, lookup_vfd, Duplicated, FdTables,
    FdTablesView,
};
use crate::text::chars_of;
use crate::vfd::{FileRef, Vfd, EBADF};
use vstd::prelude::*;
use vstd::string::*;

verus! {

// Values of errno.
pub const ENOEXEC: i32 = 8;
pub const EINVAL: i32 = 22;
pub const ESPIPE: i32 = 29;
pub const EPIPE: i32 = 32;
pub const ERANGE: i32 = 34;

/// Do not block in `waitpid`.
pub const WNOHANG: i32 = 1;

/// Close a descriptor when a new program is started.
pub const O_CLOEXEC: i32 = 0x80000;

/// Stands for the working directory in `openat`.
pub const AT_FDCWD: i32 = -100;

/// Whether calls are intercepted.
pub struct Interceptor {
    /// Interception was switched on.
    pub enabled: bool,
    /// This is a child of a real fork: everything is passed through.
    pub real_fork_child: bool,
    /// How often `execve` was called.
    pub execve_calls: usize,
}

impl Interceptor {
    /// Interception is off, until it is found to be switched on.
    pub fn new() -> (st: Interceptor)
        ensures
            !st.enabled,
            !st.real_fork_child,
            st.execve_calls == 0,
    {
        Interceptor { enabled: false, real_fork_child: false, execve_calls: 0 }
    }

    /// Calls are intercepted here.
    pub open spec fn active(self) -> bool {
        self.enabled && !self.real_fork_child
    }

    /// Whether calls are intercepted here.
    pub fn is_active(&self) -> (yes: bool)
        ensures
            yes == self.active(),
    {
        self.enabled && !self.real_fork_child
    }

    /// Checks whether interception is on. Once it is, it stays on; until then
    /// `variable`, the first byte of the environment variable that controls it,
    /// is looked at each time. Returns whether it was switched on just now.
    pub fn check_enabled(&mut self, variable: Option<u8>) -> (switched_on: bool)
        ensures
            final(self).enabled == (old(self).enabled || variable == Some(0x31u8)),
            switched_on == (!old(self).enabled && final(self).enabled),
            final(self).real_fork_child == old(self).real_fork_child,
            final(self).execve_calls == old(self).execve_calls,
    {
        if self.enabled {
            return false;
        }
        match variable {
            Some(byte) => {
                if byte == 0x31 {
                    self.enabled = true;
                }
                byte == 0x31
            },
            None => false,
        }
    }

    /// A real fork returned `pid`: in the child everything is passed through
    /// from now on.
    pub fn forked(&mut self, pid: i32)
        ensures
            final(self).real_fork_child == (old(self).real_fork_child || (old(self).enabled && pid
                == 0)),
            final(self).enabled == old(self).enabled,
            final(self).execve_calls == old(self).execve_calls,
    {
        if self.enabled && pid == 0 {
            self.real_fork_child = true;
        }
    }

    /// Counts a call of `execve`. Returns whether to start the program in a
    /// virtual process; else the real call is made.
    pub fn execve(&mut self) -> (is_virtual: bool)
        ensures
            is_virtual == old(self).active(),
            final(self).execve_calls == old(self).execve_calls.wrapping_add(1),
            final(self).enabled == old(self).enabled,
            final(self).real_fork_child == old(self).real_fork_child,
    {
        self.execve_calls = self.execve_calls.wrapping_add(1);
        self.is_active()
    }
}

/// Whether this is a child of a real fork.
pub fn is_real_fork_child(st: &Interceptor) -> (yes: bool)
    ensures
        yes == st.real_fork_child,
{
    st.real_fork_child
}

/// How often `execve` was called.
pub fn get_execve_call_count(st: &Interceptor) -> (n: usize)
    ensures
        n == st.execve_calls,
{
    st.execve_calls
}

/// What an intercepted call does.
#[derive(Debug, Clone, Copy, PartialEq, Eq, Structural)]
pub enum Route {
    /// Make the real call with the given arguments.
    Real,
    /// Return this value.
    Value(i32),
    /// Set errno and return -1.
    Fail(i32),
    /// The current process has ended: give up control for good.
    Exited,
}

/// What `exit` does.
#[derive(Debug, Clone, Copy, PartialEq, Eq, Structural)]
pub enum ExitRoute {
    /// Make the real call.
    Real,
    /// The current process has ended: give up control for good.
    Exited,
    /// End the whole process, past all interceptors.
    ExitGroup,
}

/// What `exit` does, and the scheduler after it.
pub open spec fn exit_outcome(st: Interceptor, ex: ExecutorView, code: i32) -> (
    ExitRoute,
    ExecutorView,
) {
    if !st.active() {
        (ExitRoute::Real, ex)
    } else if ex.current is Some {
        (ExitRoute::Exited, ex.exited(code))
    } else {
        (ExitRoute::ExitGroup, ex)
    }
}

/// `exit` and `_exit`: inside a virtual process only that process ends.
pub fn exit(st: &Interceptor, ex: &mut Executor, code: i32) -> (route: ExitRoute)
    ensures
        (route, final(ex)@) == exit_outcome(*st, old(ex)@, code),
        route == (if !st.active() {
            ExitRoute::Real
        } else if old(ex)@.current is Some {
            ExitRoute::Exited
        } else {
            ExitRoute::ExitGroup
        }),
        final(ex)@ == (if st.active() {
            old(ex)@.exited(code)
        } else {
            old(ex)@
        }),
        old(ex)@.wf() ==> final(ex)@.wf(),
{
    if !st.is_active() {
        return ExitRoute::Real;
    }
    match vproc_exit_with_code(ex, code) {
        Some(_) => ExitRoute::Exited,
        None => ExitRoute::ExitGroup,
    }
}

/// The number that a process is told as its own.
pub open spec fn pid_route(st: Interceptor, ex: ExecutorView) -> Route {
    match ex.current {
        Some(pid) if st.enabled => Route::Value(pid as i32),
        _ => Route::Real,
    }
}

/// The number that a process is told as that of its parent.
pub open spec fn ppid_route(st: Interceptor, ex: ExecutorView) -> Route {
    match ex.current {
        Some(pid) if st.enabled => Route::Value(parent_of(ex, pid) as i32),
        _ => Route::Real,
    }
}

/// `getpid`: the number of the virtual process, inside of one.
pub fn getpid(st: &Interceptor, ex: &Executor) -> (route: Route)
    ensures
        route == pid_route(*st, ex@),
        route == (match ex@.current {
            Some(pid) if st.enabled => Route::Value(pid as i32),
            _ => Route::Real,
        }),
{
    if !st.enabled {
        return Route::Real;
    }
    match ex.current_pid() {
        Some(pid) => Route::Value(pid as i32),
        None => Route::Real,
    }
}

/// The number of the parent of the current process.
pub open spec fn parent_of(ex: ExecutorView, pid: VPid) -> VPid {
    if ex.vprocs.contains_key(pid) {
        ex.vprocs[pid].ppid
    } else {
        0
    }
}

/// `getppid`: the number of the parent, inside of a virtual process; 0 where that
/// was cleaned up.
pub fn getppid(st: &Interceptor, ex: &Executor) -> (route: Route)
    ensures
        route == ppid_route(*st, ex@),
        route == (match ex@.current {
            Some(pid) if st.enabled => Route::Value(parent_of(ex@, pid) as i32),
            _ => Route::Real,
        }),
{
    if !st.enabled {
        return Route::Real;
    }
    match ex.current_pid() {
        Some(pid) => match ex.vproc(pid) {
            Some(co) => Route::Value(co.ppid as i32),
            None => Route::Value(0),
        },
        None => Route::Real,
    }
}

/// The result of a raw system call: a value, or -1 with errno set.
pub fn syscall_result(ret: i64) -> (result: Result<i32, i32>)
    requires
        ret > i64::MIN,
    ensures
        result == (if ret < 0 {
            Err((-ret) as i32)
        } else {
            Ok(ret as i32)
        }),
{
    if ret < 0 {
        Err((-ret) as i32)
    } else {
        Ok(ret as i32)
    }
}

/// What `waitpid` does.
#[derive(Debug, Clone, Copy, PartialEq, Eq, Structural)]
pub enum WaitRoute {
    /// Make the system call with the given arguments.
    Raw,
    /// Make the system call without blocking, and give up control until it
    /// succeeds.
    PollRaw,
    /// Wait for a virtual process.
    Virtual,
}

/// How `waitpid` waits for `pid`.
pub open spec fn wait_route(st: Interceptor, ex: ExecutorView, pid: i32, options: i32) -> WaitRoute {
    if !st.active() {
        WaitRoute::Raw
    } else if ex.vprocs.contains_key(pid as u32) {
        WaitRoute::Virtual
    } else if options & WNOHANG != 0 {
        WaitRoute::Raw
    } else {
        WaitRoute::PollRaw
    }
}

/// How `waitpid` waits. A real child is polled, so that the other virtual
/// processes can run meanwhile.
pub fn waitpid(st: &Interceptor, ex: &Executor, pid: i32, options: i32) -> (route: WaitRoute)
    ensures
        route == wait_route(*st, ex@, pid, options),
        route == (if !st.active() {
            WaitRoute::Raw
        } else if ex@.vprocs.contains_key(pid as u32) {
            WaitRoute::Virtual
        } else if options & WNOHANG != 0 {
            WaitRoute::Raw
        } else {
            WaitRoute::PollRaw
        }),
{
    if !st.is_active() {
        return WaitRoute::Raw;
    }
    if ex.contains(pid as u32) {
        return WaitRoute::Virtual;
    }
    if options & WNOHANG != 0 {
        WaitRoute::Raw
    } else {
        WaitRoute::PollRaw
    }
}

/// How a wait goes on.
#[derive(Debug, Clone, Copy, PartialEq, Eq, Structural)]
pub enum WaitStep {
    /// Return this value.
    Return(i32),
    /// The virtual process has ended: store this status, and return its number.
    Ended(i32),
    /// Give up control and try again.
    Yield,
}

/// The status that tells that a process exited with `code`.
pub open spec fn exit_status(code: i32) -> i32 {
    (code & 0xff) << 8
}

/// What waiting for process `pid` comes to now.
pub open spec fn wait_step(ex: ExecutorView, pid: i32) -> WaitStep {
    match ex.exit_code(pid as u32) {
        Some(code) => WaitStep::Ended(exit_status(code)),
        None => if ex.vprocs.contains_key(pid as u32) {
            WaitStep::Yield
        } else {
            WaitStep::Return(-1i32)
        },
    }
}

/// One try of waiting for a virtual process: it has ended, it is gone, or it
/// still runs.
pub fn wait_virtual(ex: &Executor, pid: i32) -> (step: WaitStep)
    ensures
        step == wait_step(ex@, pid),
        step == (match ex@.exit_code(pid as u32) {
            Some(code) => WaitStep::Ended(exit_status(code)),
            None => if ex@.vprocs.contains_key(pid as u32) {
                WaitStep::Yield
            } else {
                WaitStep::Return(-1i32)
            },
        }),
{
    match get_exit_code(ex, pid as u32) {
        Some(code) => WaitStep::Ended((code & 0xff) << 8),
        None => if ex.contains(pid as u32) {
            WaitStep::Yield
        } else {
            WaitStep::Return(-1)
        },
    }
}

/// One try of waiting for a real child, which returned `ret`.
pub fn wait_polled(ret: i32) -> (step: WaitStep)
    ensures
        step == (if ret > 0 {
            WaitStep::Return(ret)
        } else if ret < 0 {
            WaitStep::Return(-1i32)
        } else {
            WaitStep::Yield
        }),
{
    if ret > 0 {
        WaitStep::Return(ret)
    } else if ret < 0 {
        WaitStep::Return(-1)
    } else {
        WaitStep::Yield
    }
}

/// `libc::WIFEXITED`: the low seven bits of the status are zero.
#[verifier::external_body]
fn wifexited(status: i32) -> (yes: bool)
    ensures
        yes == (status & 0x7f == 0),
{
    libc::WIFEXITED(status)
}

/// `libc::WEXITSTATUS`: the second byte of the status.
#[verifier::external_body]
fn wexitstatus(status: i32) -> (code: i32)
    ensures
        code == (status >> 8) & 0xff,
{
    libc::WEXITSTATUS(status)
}

/// `libc::WIFSIGNALED`: the low seven bits of the status are neither all zero nor
/// all one.
#[verifier::external_body]
fn wifsignaled(status: i32) -> (yes: bool)
    ensures
        yes == (status & 0x7f != 0 && status & 0x7f != 0x7f),
{
    libc::WIFSIGNALED(status)
}

/// `libc::WTERMSIG`: the low seven bits of the status.
#[verifier::external_body]
fn wtermsig(status: i32) -> (sig: i32)
    ensures
        sig == status & 0x7f,
{
    libc::WTERMSIG(status)
}

/// The exit code that stands for the status of a real child: its own, 128 plus
/// the signal that ended it, or 1.
pub open spec fn code_of_status(status: i32) -> i32 {
    if status & 0x7f == 0 {
        (status >> 8) & 0xff
    } else if status & 0x7f != 0x7f {
        (128 + (status & 0x7f)) as i32
    } else {
        1
    }
}

/// Converts the status of a real child to an exit code.
pub fn exit_code_of_status(status: i32) -> (code: i32)
    ensures
        code == code_of_status(status),
{
    if wifexited(status) {
        wexitstatus(status)
    } else if wifsignaled(status) {
        assert(0 <= status & 0x7f <= 0x7f) by (bit_vector);
        128 + wtermsig(status)
    } else {
        1
    }
}

/// A status made from an exit code gives back its low byte.
pub proof fn law_status_round_trip(code: i32)
    ensures
        code_of_status(exit_status(code)) == code & 0xff,
        0 <= code <= 255 ==> code_of_status(exit_status(code)) == code,
{
    assert(((code & 0xff) << 8) & 0x7f == 0) by (bit_vector);
    assert((((code & 0xff) << 8) >> 8) & 0xff == code & 0xff) by (bit_vector);
    assert(0 <= code && code <= 255 ==> code & 0xff == code) by (bit_vector);
}

/// How `execve` goes on after a program could not be started in a virtual process
/// and a real fork returned `pid`.
#[derive(Debug, Clone, Copy, PartialEq, Eq, Structural)]
pub enum FallbackStep {
    /// Set errno and return -1.
    Fail(i32),
    /// This is the child: make the real call, past all interceptors.
    Child,
    /// This is the parent: poll the child.
    Parent,
    /// Give up control and poll again.
    Yield,
    /// The current process has ended: give up control for good.
    Exited,
}

/// Without a child, `execve` fails.
pub fn execve_fallback(st: &mut Interceptor, pid: i32) -> (step: FallbackStep)
    ensures
        step == (if pid < 0 {
            FallbackStep::Fail(ENOEXEC)
        } else if pid == 0 {
            FallbackStep::Child
        } else {
            FallbackStep::Parent
        }),
        final(st).real_fork_child == (old(st).real_fork_child || pid == 0),
        final(st).enabled == old(st).enabled,
        final(st).execve_calls == old(st).execve_calls,
{
    if pid < 0 {
        return FallbackStep::Fail(ENOEXEC);
    }
    if pid == 0 {
        st.real_fork_child = true;
        return FallbackStep::Child;
    }
    FallbackStep::Parent
}

/// The exit code of a child whose real `execve` returned.
pub fn failed_exec_code(ret: i64) -> (code: i32)
    ensures
        code == (if ret < 0 {
            126i32
        } else {
            0i32
        }),
{
    if ret < 0 {
        126
    } else {
        0
    }
}

/// The child that `execve` fell back to was polled: when it has ended, or cannot
/// be waited for, the current process ends, with the child's exit code or 0.
pub fn execve_polled(ex: &mut Executor, ret: i32, status: i32) -> (step: FallbackStep)
    ensures
        step == (if ret == 0 {
            FallbackStep::Yield
        } else {
            FallbackStep::Exited
        }),
        final(ex)@ == (if ret > 0 {
            old(ex)@.exited(code_of_status(status))
        } else if ret < 0 {
            old(ex)@.exited(0)
        } else {
            old(ex)@
        }),
        old(ex)@.wf() ==> final(ex)@.wf(),
{
    if ret == 0 {
        return FallbackStep::Yield;
    }
    let status: i32 = if ret > 0 {
        status
    } else {
        0
    };
    let code: i32 = exit_code_of_status(status);
    assert(0i32 & 0x7f == 0 && (0i32 >> 8) & 0xff == 0) by (bit_vector);
    let _ = vproc_exit_with_code(ex, code);
    FallbackStep::Exited
}

/// What a read or write does.
#[derive(Debug, Clone, Copy, PartialEq, Eq, Structural)]
pub enum IoStep {
    /// Make the real call on this descriptor.
    Real(i32),
    /// Poll this kernel descriptor first.
    PollFirst(i32),
    /// Set errno and return -1.
    Fail(i32),
    /// Return this value.
    Done(isize),
    /// Give up control and try again.
    Yield,
    /// The current process has ended: give up control for good.
    Exited,
}

/// The kernel descriptor behind a descriptor that is no pipe; a number that is
/// not in use stands for itself.
pub open spec fn kernel_fd(vfd: Option<Vfd>, fd: i32) -> i32 {
    match vfd {
        Some(Vfd::Real(kernel)) => kernel,
        Some(Vfd::File(file)) => file.real_fd,
        _ => fd,
    }
}

/// Descriptor `fd` of process `vpid` is the reading end of a pipe.
pub open spec fn read_pipe(
    all: FdTablesView,
    pipes: Map<u64, PipeView>,
    vpid: VPid,
    fd: i32,
) -> Option<u64> {
    match lookup_vfd(all, vpid, fd as u32) {
        Some(Vfd::PipeRead(id)) if pipes.contains_key(id) => Some(id),
        _ => None,
    }
}

/// Descriptor `fd` of process `vpid` is the writing end of a pipe.
pub open spec fn write_pipe(
    all: FdTablesView,
    pipes: Map<u64, PipeView>,
    vpid: VPid,
    fd: i32,
) -> Option<u64> {
    match lookup_vfd(all, vpid, fd as u32) {
        Some(Vfd::PipeWrite(id)) if pipes.contains_key(id) => Some(id),
        _ => None,
    }
}

/// Whether a descriptor is an end of a virtual pipe.
pub open spec fn is_pipe(vfd: Option<Vfd>) -> bool {
    vfd matches Some(v) && v.pipe() is Some
}

/// What a call on descriptor `fd` does before it comes to a pipe; `None` where it
/// does.
pub open spec fn io_route(
    st: Interceptor,
    current: Option<VPid>,
    all: FdTablesView,
    fd: i32,
) -> Option<IoStep> {
    if !st.active() {
        Some(IoStep::Real(fd))
    } else if fd < 0 {
        Some(IoStep::Fail(EBADF))
    } else {
        match current {
            None => Some(IoStep::Real(fd)),
            Some(vpid) => {
                let vfd = lookup_vfd(all, vpid, fd as u32);
                if is_pipe(vfd) {
                    None
                } else {
                    Some(IoStep::PollFirst(kernel_fd(vfd, fd)))
                }
            },
        }
    }
}

fn route_io(st: &Interceptor, current: Option<VPid>, all: &FdTables, fd: i32) -> (step: Option<
    IoStep,
>)
    ensures
        step == io_route(*st, current, all@, fd),
{
    if !st.is_active() {
        return Some(IoStep::Real(fd));
    }
    if fd < 0 {
        return Some(IoStep::Fail(EBADF));
    }
    match current {
        None => Some(IoStep::Real(fd)),
        Some(vpid) => match all.lookup(vpid, fd as u32) {
            Some(Vfd::PipeRead(_)) => None,
            Some(Vfd::PipeWrite(_)) => None,
            Some(Vfd::Real(kernel)) => Some(IoStep::PollFirst(kernel)),
            Some(Vfd::File(file)) => Some(IoStep::PollFirst(file.real_fd)),
            None => Some(IoStep::PollFirst(fd)),
        },
    }
}

/// What one try of `read` does: what to do next, the pipes, and the buffer after it.
pub open spec fn read_outcome(
    st: Interceptor,
    current: Option<VPid>,
    all: FdTablesView,
    pipes: Map<u64, PipeView>,
    fd: i32,
    buf: Seq<u8>,
) -> (IoStep, Map<u64, PipeView>, Seq<u8>) {
    match io_route(st, current, all, fd) {
        Some(s) => (s, pipes, buf),
        None => match read_pipe(all, pipes, current->0, fd) {
            None => (IoStep::Fail(EBADF), pipes, buf),
            Some(id) => {
                let pipe = pipes[id];
                let n = buf.len();
                (
                    if pipe.read_result(n) >= 0 {
                        IoStep::Done(pipe.read_result(n) as isize)
                    } else {
                        IoStep::Yield
                    },
                    pipes.insert(id, pipe.after_read(n)),
                    pipe.read_bytes(n) + buf.skip(pipe.taken(n) as int),
                )
            },
        },
    }
}

/// What one try of `write` does: what to do next, the pipes, and the scheduler after
/// it.
pub open spec fn write_outcome(
    st: Interceptor,
    ex: ExecutorView,
    all: FdTablesView,
    pipes: Map<u64, PipeView>,
    fd: i32,
    src: Seq<u8>,
) -> (IoStep, Map<u64, PipeView>, ExecutorView) {
    match io_route(st, ex.current, all, fd) {
        Some(s) => (s, pipes, ex),
        None => match write_pipe(all, pipes, ex.current->0, fd) {
            None => (IoStep::Fail(EBADF), pipes, ex),
            Some(id) => {
                let pipe = pipes[id];
                let n = pipe.write_result(src.len());
                let after = pipes.insert(id, pipe.after_write(src));
                if n >= 0 {
                    (IoStep::Done(n as isize), after, ex)
                } else if pipe.broken() {
                    (IoStep::Exited, after, ex.exited((128 + SIGPIPE) as i32))
                } else {
                    (IoStep::Yield, after, ex)
                }
            },
        },
    }
}

/// One try of `read`. A virtual pipe is read here; where it is open and empty,
/// control is given up. Any other descriptor is polled before it is read, so that
/// the other virtual processes can run meanwhile.
pub fn read(
    st: &Interceptor,
    current: Option<VPid>,
    all: &FdTables,
    pipes: &mut PipeStore,
    fd: i32,
    buf: &mut [u8],
) -> (step: IoStep)
    requires
        old(pipes).wf(),
    ensures
        final(pipes).wf(),
        final(pipes).ids_left() == old(pipes).ids_left(),
        (step, final(pipes)@, final(buf)@) == read_outcome(
            *st,
            current,
            all@,
            old(pipes)@,
            fd,
            old(buf)@,
        ),
        match io_route(*st, current, all@, fd) {
            Some(s) => step == s && final(pipes)@ == old(pipes)@ && final(buf)@ == old(buf)@,
            None => match read_pipe(all@, old(pipes)@, current->0, fd) {
                None => step == IoStep::Fail(EBADF) && final(pipes)@ == old(pipes)@ && final(buf)@
                    == old(buf)@,
                Some(id) => {
                    let pipe = old(pipes)@[id];
                    let n = old(buf)@.len();
                    &&& step == (if pipe.read_result(n) >= 0 {
                        IoStep::Done(pipe.read_result(n) as isize)
                    } else {
                        IoStep::Yield
                    })
                    &&& final(pipes)@ == old(pipes)@.insert(id, pipe.after_read(n))
                    &&& final(buf)@ == pipe.read_bytes(n) + old(buf)@.skip(pipe.taken(n) as int)
                },
            },
        },
{
    if let Some(step) = route_io(st, current, all, fd) {
        return step;
    }
    if let Some(vpid) = current {
        if let Some(Vfd::PipeRead(id)) = all.lookup(vpid, fd as u32) {
            if pipes.get(id).is_some() {
                let n: isize = pipes.read_from(id, buf);
                if n >= 0 {
                    return IoStep::Done(n);
                }
                return IoStep::Yield;
            }
        }
    }
    IoStep::Fail(EBADF)
}

/// One try of `write`. A virtual pipe is written here; where it is full, control
/// is given up, and where nobody is left to read, the current process ends as if
/// by SIGPIPE. Any other descriptor is polled before it is written.
pub fn write(
    st: &Interceptor,
    ex: &mut Executor,
    all: &FdTables,
    pipes: &mut PipeStore,
    fd: i32,
    src: &[u8],
) -> (step: IoStep)
    requires
        old(pipes).wf(),
    ensures
        final(pipes).wf(),
        final(pipes).ids_left() == old(pipes).ids_left(),
        old(ex)@.wf() ==> final(ex)@.wf(),
        (step, final(pipes)@, final(ex)@) == write_outcome(
            *st,
            old(ex)@,
            all@,
            old(pipes)@,
            fd,
            src@,
        ),
        match io_route(*st, old(ex)@.current, all@, fd) {
            Some(s) => step == s && final(pipes)@ == old(pipes)@ && final(ex)@ == old(ex)@,
            None => match write_pipe(all@, old(pipes)@, old(ex)@.current->0, fd) {
                None => step == IoStep::Fail(EBADF) && final(pipes)@ == old(pipes)@ && final(ex)@
                    == old(ex)@,
                Some(id) => {
                    let pipe = old(pipes)@[id];
                    let n = pipe.write_result(src@.len());
                    &&& final(pipes)@ == old(pipes)@.insert(id, pipe.after_write(src@))
                    &&& if n >= 0 {
                        step == IoStep::Done(n as isize) && final(ex)@ == old(ex)@
                    } else if pipe.broken() {
                        step == IoStep::Exited && final(ex)@ == old(ex)@.exited(
                            (128 + SIGPIPE) as i32,
                        )
                    } else {
                        step == IoStep::Yield && final(ex)@ == old(ex)@
                    }
                },
            },
        },
{
    let current: Option<VPid> = ex.current_pid();
    if let Some(step) = route_io(st, current, all, fd) {
        return step;
    }
    if let Some(vpid) = current {
        if let Some(Vfd::PipeWrite(id)) = all.lookup(vpid, fd as u32) {
            if pipes.get(id).is_some() {
                let n: isize = pipes.write_to(id, src);
                if n >= 0 {
                    return IoStep::Done(n);
                }
                let broken = match pipes.get(id) {
                    Some(pipe) => pipe.is_broken(),
                    None => false,
                };
                if broken {
                    let _ = vproc_exit_with_code(ex, 128 + SIGPIPE);
                    return IoStep::Exited;
                }
                return IoStep::Yield;
            }
        }
    }
    IoStep::Fail(EBADF)
}

/// How a call goes on after its kernel descriptor was polled.
#[derive(Debug, Clone, Copy, PartialEq, Eq, Structural)]
pub enum PolledStep {
    /// Make the real call: it does not block, or fails with the right error.
    Call,
    /// Return -1.
    Fail,
    /// Wait until the descriptor is ready, then poll again.
    Wait,
}

/// Polling the descriptor returned `ready`.
pub fn after_poll(ready: i32) -> (step: PolledStep)
    ensures
        step == (if ready > 0 {
            PolledStep::Call
        } else if ready < 0 {
            PolledStep::Fail
        } else {
            PolledStep::Wait
        }),
{
    if ready > 0 {
        PolledStep::Call
    } else if ready < 0 {
        PolledStep::Fail
    } else {
        PolledStep::Wait
    }
}

/// Whether `poll` and `select` are passed to the real function.
pub fn poll_is_real(st: &Interceptor, current: Option<VPid>, nfds: usize) -> (yes: bool)
    ensures
        yes == (!st.active() || current is None || nfds == 0),
{
    !st.is_active() || current.is_none() || nfds == 0
}

/// What closing a descriptor does.
#[derive(Debug, Clone, Copy, PartialEq, Eq, Structural)]
pub enum CloseStep {
    /// Make the real call.
    Real,
    /// Set errno and return -1.
    Fail(i32),
    /// Return 0.
    Done,
    /// Close this kernel descriptor, and return 0.
    CloseKernel(i32),
}

/// What `close` does with descriptor `fd`, which stands for `vfd`.
pub open spec fn close_step(
    st: Interceptor,
    current: Option<VPid>,
    all: FdTablesView,
    after: FdTablesView,
    fd: i32,
) -> CloseStep {
    if !st.active() {
        CloseStep::Real
    } else if fd < 0 {
        CloseStep::Fail(EBADF)
    } else {
        match current {
            None => CloseStep::Real,
            Some(vpid) => match lookup_vfd(all, vpid, fd as u32) {
                None => CloseStep::Real,
                Some(Vfd::File(file)) => if after.mentions_file(file) {
                    CloseStep::Done
                } else {
                    CloseStep::CloseKernel(file.real_fd)
                },
                Some(_) => CloseStep::Done,
            },
        }
    }
}

/// The tables after descriptor `fd` of process `vpid` was closed.
pub open spec fn tables_closed(all: FdTablesView, vpid: VPid, fd: u32) -> FdTablesView {
    if lookup_vfd(all, vpid, fd) is Some {
        all.with(vpid, all.tables[vpid].without(fd))
    } else {
        all
    }
}

/// The pipes after descriptor `fd` of process `vpid` was closed.
pub open spec fn pipes_closed(
    all: FdTablesView,
    pipes: Map<u64, PipeView>,
    vpid: VPid,
    fd: u32,
) -> Map<u64, PipeView> {
    if all.tables.contains_key(vpid) {
        all.tables[vpid].pipes_after_close(fd, pipes)
    } else {
        pipes
    }
}

/// Closes descriptor `fd` of process `vpid`, where it is in use. Returns the
/// kernel descriptor that is to be closed: that of a file that nobody refers to
/// any more. A descriptor that passes through to the kernel is only forgotten.
pub fn close_virtual(all: &mut FdTables, pipes: &mut PipeStore, vpid: VPid, fd: u32) -> (result:
    Option<Option<i32>>)
    requires
        old(pipes).wf(),
    ensures
        final(pipes).wf(),
        final(pipes).ids_left() == old(pipes).ids_left(),
        final(all)@ == tables_closed(old(all)@, vpid, fd),
        final(pipes)@ == pipes_closed(old(all)@, old(pipes)@, vpid, fd),
        old(all)@.wf() ==> final(all)@.wf(),
        result == (match lookup_vfd(old(all)@, vpid, fd) {
            None => None,
            Some(vfd) => Some(kernel_to_close(Some(vfd), final(all)@)),
        }),
{
    let ghost before = all@;
    match all.lookup(vpid, fd) {
        None => None,
        Some(Vfd::File(_)) => Some(close_file_fd(all, vpid, fd)),
        Some(_) => {
            if let Some(table) = get_table(all, vpid) {
                let _ = table.close(pipes, fd);
            }
            proof {
                assert(all@ =~= tables_closed(before, vpid, fd));
                assert forall|p: u32, n: u32|
                    #![trigger all@.tables[p].fds[n]]
                    before.wf() && all@.tables.contains_key(p) && all@.tables[p].fds.contains_key(
                        n,
                    ) implies (all@.tables[p].fds[n] matches Vfd::File(f) ==> f.id
                    < all@.next_file) by {
                    assert(all@.tables[p].fds[n] == before.tables[p].fds[n]);
                }
            }
            Some(None)
        },
    }
}

/// `close`.
pub fn close(
    st: &Interceptor,
    current: Option<VPid>,
    all: &mut FdTables,
    pipes: &mut PipeStore,
    fd: i32,
) -> (step: CloseStep)
    requires
        old(pipes).wf(),
    ensures
        final(pipes).wf(),
        final(pipes).ids_left() == old(pipes).ids_left(),
        step == close_step(*st, current, old(all)@, final(all)@, fd),
        old(all)@.wf() ==> final(all)@.wf(),
        if st.active() && fd >= 0 && current is Some {
            &&& final(all)@ == tables_closed(old(all)@, current->0, fd as u32)
            &&& final(pipes)@ == pipes_closed(old(all)@, old(pipes)@, current->0, fd as u32)
        } else {
            final(all)@ == old(all)@ && final(pipes)@ == old(pipes)@
        },
{
    if !st.is_active() {
        return CloseStep::Real;
    }
    if fd < 0 {
        return CloseStep::Fail(EBADF);
    }
    match current {
        None => CloseStep::Real,
        Some(vpid) => match close_virtual(all, pipes, vpid, fd as u32) {
            None => CloseStep::Real,
            Some(None) => CloseStep::Done,
            Some(Some(kernel)) => CloseStep::CloseKernel(kernel),
        },
    }
}

/// The value or error that a duplication returns.
pub open spec fn dup_route(result: Result<u32, i32>) -> Route {
    match result {
        Ok(fd) => Route::Value(fd as i32),
        Err(_) => Route::Fail(EBADF),
    }
}

/// The call is made on a virtual table: interception is on, inside of a process
/// that has one.
pub open spec fn on_table(st: Interceptor, current: Option<VPid>, all: FdTablesView) -> bool {
    st.active() && (current matches Some(vpid) && all.tables.contains_key(vpid))
}

/// What a duplication returns, and the kernel descriptor that is to be closed
/// besides: that of a file whose last descriptor was replaced.
#[derive(Debug, Clone, Copy, PartialEq, Eq, Structural)]
pub struct DupStep {
    pub route: Route,
    pub close_kernel: Option<i32>,
}

fn dup_step(duplicated: Option<Duplicated>) -> (step: DupStep)
    ensures
        step == (match duplicated {
            Some(d) => DupStep { route: dup_route(d.result), close_kernel: d.close_kernel },
            None => DupStep { route: Route::Real, close_kernel: None },
        }),
{
    match duplicated {
        None => DupStep { route: Route::Real, close_kernel: None },
        Some(d) => {
            let route = match d.result {
                Ok(fd) => Route::Value(fd as i32),
                Err(_) => Route::Fail(EBADF),
            };
            DupStep { route, close_kernel: d.close_kernel }
        },
    }
}

/// `dup`.
pub fn dup(
    st: &Interceptor,
    current: Option<VPid>,
    all: &mut FdTables,
    pipes: &mut PipeStore,
    old_fd: i32,
) -> (step: DupStep)
    requires
        old(pipes).wf(),
        on_table(*st, current, old(all)@) ==> old(all)@.tables[current->0].has_room(),
    ensures
        final(pipes).wf(),
        final(pipes).ids_left() == old(pipes).ids_left(),
        if on_table(*st, current, old(all)@) {
            let table = old(all)@.tables[current->0];
            let new_fd = table.next_fd;
            &&& step.route == dup_route(table.dup2_result(old_fd as u32, new_fd))
            &&& step.close_kernel == kernel_to_close(
                lookup_vfd(old(all)@, current->0, new_fd),
                final(all)@,
            )
            &&& final(all)@ == old(all)@.with(
                current->0,
                table.allocated().after_dup2(old_fd as u32, new_fd),
            )
            &&& final(pipes)@ == table.pipes_after_dup2(old_fd as u32, new_fd, old(pipes)@)
        } else {
            &&& step == (DupStep { route: Route::Real, close_kernel: None })
            &&& final(all)@ == old(all)@
            &&& final(pipes)@ == old(pipes)@
        },
        old(all)@.wf() ==> final(all)@.wf(),
{
    if !st.is_active() {
        return DupStep { route: Route::Real, close_kernel: None };
    }
    match current {
        None => DupStep { route: Route::Real, close_kernel: None },
        Some(vpid) => dup_step(dup_fd(all, pipes, vpid, old_fd as u32)),
    }
}

/// `dup2`.
pub fn dup2(
    st: &Interceptor,
    current: Option<VPid>,
    all: &mut FdTables,
    pipes: &mut PipeStore,
    old_fd: i32,
    new_fd: i32,
) -> (step: DupStep)
    requires
        old(pipes).wf(),
    ensures
        final(pipes).wf(),
        final(pipes).ids_left() == old(pipes).ids_left(),
        if on_table(*st, current, old(all)@) {
            let table = old(all)@.tables[current->0];
            &&& step.route == dup_route(table.dup2_result(old_fd as u32, new_fd as u32))
            &&& step.close_kernel == kernel_to_close(
                lookup_vfd(old(all)@, current->0, new_fd as u32),
                final(all)@,
            )
            &&& final(all)@ == old(all)@.with(
                current->0,
                table.after_dup2(old_fd as u32, new_fd as u32),
            )
            &&& final(pipes)@ == table.pipes_after_dup2(
                old_fd as u32,
                new_fd as u32,
                old(pipes)@,
            )
        } else {
            &&& step == (DupStep { route: Route::Real, close_kernel: None })
            &&& final(all)@ == old(all)@
            &&& final(pipes)@ == old(pipes)@
        },
        old(all)@.wf() ==> final(all)@.wf(),
{
    if !st.is_active() {
        return DupStep { route: Route::Real, close_kernel: None };
    }
    match current {
        None => DupStep { route: Route::Real, close_kernel: None },
        Some(vpid) => dup_step(dup2_fd(all, pipes, vpid, old_fd as u32, new_fd as u32)),
    }
}

/// `pid` is the number of a virtual process.
pub open spec fn is_vpid(ex: ExecutorView, pid: i32) -> bool {
    pid > 0 && ex.vprocs.contains_key(pid as u32)
}

fn is_virtual_pid(ex: &Executor, pid: i32) -> (yes: bool)
    ensures
        yes == is_vpid(ex@, pid),
{
    pid > 0 && ex.contains(pid as u32)
}

/// What `kill` does, and the scheduler after it.
pub open spec fn kill_outcome(st: Interceptor, ex: ExecutorView, pid: i32, sig: i32) -> (
    Route,
    ExecutorView,
) {
    if st.enabled && is_vpid(ex, pid) {
        (Route::Value(0), ex.notified(pid as u32, sig))
    } else {
        (Route::Real, ex)
    }
}

/// What `raise` does, and the scheduler after it.
pub open spec fn raise_outcome(st: Interceptor, ex: ExecutorView, sig: i32) -> (
    Route,
    ExecutorView,
) {
    match ex.current {
        Some(pid) if st.enabled => if ex.vprocs.contains_key(pid) && is_fatal(sig) {
            (Route::Exited, ex.exited((128 + sig) as i32))
        } else {
            (Route::Value(0), ex.notified(pid, sig))
        },
        _ => (Route::Real, ex),
    }
}

/// The group that a process is told to be in.
pub open spec fn group_route(st: Interceptor, ex: ExecutorView, pid: i32) -> Route {
    if st.enabled && is_vpid(ex, pid) {
        Route::Value(pid)
    } else if st.enabled && pid == 0 && ex.current is Some {
        Route::Value(ex.current->0 as i32)
    } else {
        Route::Real
    }
}

/// `kill`: a signal for a virtual process is queued until its next turn, which it
/// gets even if it waits for descriptors.
pub fn kill(st: &Interceptor, ex: &mut Executor, pid: i32, sig: i32) -> (route: Route)
    ensures
        (route, final(ex)@) == kill_outcome(*st, old(ex)@, pid, sig),
        if st.enabled && is_vpid(old(ex)@, pid) {
            &&& route == Route::Value(0)
            &&& final(ex)@ == old(ex)@.notified(pid as u32, sig)
        } else {
            route == Route::Real && final(ex)@ == old(ex)@
        },
        old(ex)@.wf() ==> final(ex)@.wf(),
{
    if !st.enabled || !is_virtual_pid(ex, pid) {
        return Route::Real;
    }
    let _ = ex.queue_signal(pid as u32, sig);
    Route::Value(0)
}

/// `getpgid`: a virtual process is its own group; 0 stands for the current one.
pub fn getpgid(st: &Interceptor, ex: &Executor, pid: i32) -> (route: Route)
    ensures
        route == group_route(*st, ex@, pid),
        route == (if st.enabled && is_vpid(ex@, pid) {
            Route::Value(pid)
        } else if st.enabled && pid == 0 && ex@.current is Some {
            Route::Value(ex@.current->0 as i32)
        } else {
            Route::Real
        }),
{
    if !st.enabled {
        return Route::Real;
    }
    if is_virtual_pid(ex, pid) {
        return Route::Value(pid);
    }
    if pid == 0 {
        if let Some(vpid) = ex.current_pid() {
            return Route::Value(vpid as i32);
        }
    }
    Route::Real
}

/// `setpgid`: nothing to do for a virtual process.
pub fn setpgid(st: &Interceptor, ex: &Executor, pid: i32) -> (route: Route)
    ensures
        route == (if st.enabled && (is_vpid(ex@, pid) || (pid == 0 && ex@.current is Some)) {
            Route::Value(0)
        } else {
            Route::Real
        }),
{
    if !st.enabled {
        return Route::Real;
    }
    if is_virtual_pid(ex, pid) || (pid == 0 && ex.current_pid().is_some()) {
        return Route::Value(0);
    }
    Route::Real
}

/// `setsid`: the number of the virtual process, inside of one.
pub fn setsid(st: &Interceptor, ex: &Executor) -> (route: Route)
    ensures
        route == (match ex@.current {
            Some(pid) if st.enabled => Route::Value(pid as i32),
            _ => Route::Real,
        }),
{
    getpid(st, ex)
}

/// `getpgrp`: the number of the virtual process, inside of one.
pub fn getpgrp(st: &Interceptor, ex: &Executor) -> (route: Route)
    ensures
        route == (match ex@.current {
            Some(pid) if st.enabled => Route::Value(pid as i32),
            _ => Route::Real,
        }),
{
    getpid(st, ex)
}

/// Descriptor `fd` of the current process is virtual: in use, and not passed
/// through to the kernel.
pub open spec fn is_virtual_fd(all: FdTablesView, vpid: VPid, fd: i32) -> bool {
    lookup_vfd(all, vpid, fd as u32) matches Some(vfd) && !(vfd is Real)
}

/// Whether descriptor `fd` of process `vpid` is virtual.
pub fn check_virtual_fd(all: &FdTables, vpid: VPid, fd: i32) -> (yes: bool)
    ensures
        yes == is_virtual_fd(all@, vpid, fd),
{
    match all.lookup(vpid, fd as u32) {
        Some(Vfd::Real(_)) => false,
        Some(_) => true,
        None => false,
    }
}

/// `tcsetpgrp`: nothing to do for a virtual descriptor.
pub fn tcsetpgrp(st: &Interceptor, ex: &Executor, all: &FdTables, fd: i32) -> (route: Route)
    ensures
        route == (match ex@.current {
            Some(pid) if st.enabled && is_virtual_fd(all@, pid, fd) => Route::Value(0),
            _ => Route::Real,
        }),
{
    if st.enabled {
        if let Some(vpid) = ex.current_pid() {
            if check_virtual_fd(all, vpid, fd) {
                return Route::Value(0);
            }
        }
    }
    Route::Real
}

/// `tcgetpgrp`: the virtual process itself, for a virtual descriptor.
pub fn tcgetpgrp(st: &Interceptor, ex: &Executor, all: &FdTables, fd: i32) -> (route: Route)
    ensures
        route == (match ex@.current {
            Some(pid) if st.enabled && is_virtual_fd(all@, pid, fd) => Route::Value(pid as i32),
            _ => Route::Real,
        }),
{
    if st.enabled {
        if let Some(vpid) = ex.current_pid() {
            if check_virtual_fd(all, vpid, fd) {
                return Route::Value(vpid as i32);
            }
        }
    }
    Route::Real
}

/// `raise`: a signal that ends the process does so at once, any other is queued.
pub fn raise(st: &Interceptor, ex: &mut Executor, sig: i32) -> (route: Route)
    ensures
        (route, final(ex)@) == raise_outcome(*st, old(ex)@, sig),
        match old(ex)@.current {
            Some(pid) if st.enabled => if old(ex)@.vprocs.contains_key(pid) && is_fatal(sig) {
                route == Route::Exited && final(ex)@ == old(ex)@.exited((128 + sig) as i32)
            } else {
                &&& route == Route::Value(0)
                &&& final(ex)@ == old(ex)@.notified(pid, sig)
            },
            _ => route == Route::Real && final(ex)@ == old(ex)@,
        },
        old(ex)@.wf() ==> final(ex)@.wf(),
{
    if !st.enabled {
        return Route::Real;
    }
    match ex.current_pid() {
        None => Route::Real,
        Some(pid) => {
            if ex.contains(pid) && (sig == SIGKILL || sig == SIGTERM) {
                let _ = vproc_exit_with_code(ex, 128 + sig);
                return Route::Exited;
            }
            let _ = ex.queue_signal(pid, sig);
            Route::Value(0)
        },
    }
}

/// What a call with a path does.
pub enum PathStep {
    /// Make the real call with the given path.
    Real,
    /// Set errno and return -1.
    Fail(i32),
    /// Make the real call with this path.
    RealWith(String),
}

/// Whether a string holds a zero character, so that it is no C string.
pub open spec fn has_nul(s: Seq<char>) -> bool {
    s.contains('\0')
}

fn check_nul(s: &str) -> (yes: bool)
    ensures
        yes == has_nul(s@),
{
    let chars: Vec<char> = chars_of(s);
    let mut i: usize = 0;
    while i < chars.len()
        invariant
            i <= chars@.len(),
            chars@ == s@,
            forall|k: int| 0 <= k < i ==> chars@[k] != '\0',
        decreases chars.len() - i,
    {
        if chars[i] == '\0' {
            assert(s@[i as int] == '\0');
            return true;
        }
        i = i + 1;
    }
    false
}

/// A step with a resolved path.
pub open spec fn is_path_step(step: PathStep, path: Seq<char>) -> bool {
    if has_nul(path) {
        step == PathStep::Fail(EINVAL)
    } else {
        step matches PathStep::RealWith(p) && p@ == path
    }
}

fn path_step(path: String) -> (step: PathStep)
    ensures
        is_path_step(step, path@),
{
    if check_nul(path.as_str()) {
        PathStep::Fail(EINVAL)
    } else {
        PathStep::RealWith(path)
    }
}

/// What `chdir` to `path` does: whether `step` is it.
pub open spec fn is_chdir_step(
    step: PathStep,
    st: Interceptor,
    ex: ExecutorView,
    process_cwd: Seq<char>,
    path: Seq<char>,
) -> bool {
    match ex.current {
        Some(pid) if st.active() && ex.vprocs.contains_key(pid) => is_path_step(
            step,
            resolved(
                match ex.vprocs[pid].cwd {
                    Some(cwd) => cwd,
                    None => process_cwd,
                },
                path,
            ),
        ),
        _ => step is Real,
    }
}

/// What `getcwd` into `size` bytes does: whether `step` is it.
pub open spec fn is_cwd_step(
    step: CwdStep,
    st: Interceptor,
    ex: ExecutorView,
    size: usize,
) -> bool {
    match own_cwd(ex) {
        Some(cwd) if st.active() => if c_bytes(cwd).len() > size {
            step == CwdStep::Fail(ERANGE)
        } else {
            step matches CwdStep::Store(bytes) && bytes@ == c_bytes(cwd)
        },
        _ => step is Real,
    }
}

/// `chdir`: inside of a virtual process the path is resolved against its own
/// working directory, or that of the whole process where it has none.
pub fn chdir(st: &Interceptor, ex: &Executor, process_cwd: &str, path: &str) -> (step: PathStep)
    ensures
        is_chdir_step(step, *st, ex@, process_cwd@, path@),
        match ex@.current {
            Some(pid) if st.active() && ex@.vprocs.contains_key(pid) => is_path_step(
                step,
                resolved(
                    match ex@.vprocs[pid].cwd {
                        Some(cwd) => cwd,
                        None => process_cwd@,
                    },
                    path@,
                ),
            ),
            _ => step is Real,
        },
{
    if !st.is_active() {
        return PathStep::Real;
    }
    match ex.current_pid() {
        None => PathStep::Real,
        Some(pid) => match ex.vproc(pid) {
            None => PathStep::Real,
            Some(co) => match &co.cwd {
                Some(cwd) => path_step(resolve_path(cwd.as_str(), path)),
                None => path_step(resolve_path(process_cwd, path)),
            },
        },
    }
}

/// The real `chdir` to `path` returned `ret`: where it succeeded, `path` is the
/// working directory of the current process.
pub fn chdir_done(ex: &mut Executor, path: String, ret: i32)
    ensures
        final(ex)@ == (match old(ex)@.current {
            Some(pid) if ret == 0 => old(ex)@.changed(
                pid,
                |co: CoroView| CoroView { cwd: Some(path@), ..co },
            ),
            _ => old(ex)@,
        }),
        old(ex)@.wf() ==> final(ex)@.wf(),
{
    if ret == 0 {
        if let Some(pid) = ex.current_pid() {
            ex.set_cwd(pid, path);
        }
    }
}

/// The working directory of the current process, where it has its own.
pub open spec fn own_cwd(ex: ExecutorView) -> Option<Seq<char>> {
    match ex.current {
        Some(pid) if ex.vprocs.contains_key(pid) => ex.vprocs[pid].cwd,
        _ => None,
    }
}

/// The working directory of the current process, where it has its own.
pub fn get_cwd(ex: &Executor) -> (cwd: Option<String>)
    ensures
        text(cwd) == own_cwd(ex@),
{
    match ex.current_pid() {
        None => None,
        Some(pid) => match ex.vproc(pid) {
            None => None,
            Some(co) => copy_text(&co.cwd),
        },
    }
}

/// What `getcwd` does.
pub enum CwdStep {
    /// Make the real call.
    Real,
    /// Set errno and return null.
    Fail(i32),
    /// Store these bytes, the last of which is zero.
    Store(Vec<u8>),
}

/// The bytes of a C string, with the zero at the end.
pub open spec fn c_bytes(s: Seq<char>) -> Seq<u8> {
    vstd::utf8::encode_utf8(s).push(0)
}

/// The bytes of a C string, with the zero at the end.
pub(crate) fn to_c_bytes(s: &str) -> (bytes: Vec<u8>)
    ensures
        bytes@ == c_bytes(s@),
{
    let mut bytes: Vec<u8> = vstd::slice::slice_to_vec(s.as_bytes());
    bytes.push(0);
    bytes
}

/// `getcwd` into a buffer of `size` bytes.
pub fn getcwd(st: &Interceptor, ex: &Executor, size: usize) -> (step: CwdStep)
    ensures
        is_cwd_step(step, *st, ex@, size),
        match own_cwd(ex@) {
            Some(cwd) if st.active() => if c_bytes(cwd).len() > size {
                step == CwdStep::Fail(ERANGE)
            } else {
                step matches CwdStep::Store(bytes) && bytes@ == c_bytes(cwd)
            },
            _ => step is Real,
        },
{
    if !st.is_active() {
        return CwdStep::Real;
    }
    match get_cwd(ex) {
        None => CwdStep::Real,
        Some(cwd) => {
            let bytes = to_c_bytes(cwd.as_str());
            if bytes.len() > size {
                CwdStep::Fail(ERANGE)
            } else {
                CwdStep::Store(bytes)
            }
        },
    }
}

/// The path that is opened inside of a virtual process.
pub open spec fn is_open_step(step: PathStep, cwd: Option<Seq<char>>, path: Seq<char>) -> bool {
    match cwd {
        Some(dir) if !is_absolute(path) => is_path_step(step, resolved(dir, path)),
        _ => step is Real,
    }
}

/// `open`: inside of a virtual process with its own working directory a relative
/// path is resolved against it. `None` where the call is not intercepted.
pub fn open(st: &Interceptor, ex: &Executor, path: &str) -> (step: Option<PathStep>)
    ensures
        match step {
            None => !(st.active() && ex@.current is Some),
            Some(s) => st.active() && ex@.current is Some && is_open_step(s, own_cwd(ex@), path@),
        },
{
    if !st.is_active() || ex.current_pid().is_none() {
        return None;
    }
    let chars: Vec<char> = chars_of(path);
    let absolute = chars.len() > 0 && chars[0] == '/';
    if absolute {
        return Some(PathStep::Real);
    }
    match get_cwd(ex) {
        None => Some(PathStep::Real),
        Some(cwd) => Some(path_step(resolve_path(cwd.as_str(), path))),
    }
}

/// `openat`: as `open` where `dirfd` stands for the working directory; else the
/// path is left to the kernel.
pub fn openat(st: &Interceptor, ex: &Executor, dirfd: i32, path: &str) -> (step: Option<PathStep>)
    ensures
        match step {
            None => !(st.active() && ex@.current is Some),
            Some(s) => {
                &&& st.active() && ex@.current is Some
                &&& if dirfd == AT_FDCWD {
                    is_open_step(s, own_cwd(ex@), path@)
                } else {
                    s is Real
                }
            },
        },
{
    if dirfd == AT_FDCWD {
        return open(st, ex, path);
    }
    if !st.is_active() || ex.current_pid().is_none() {
        return None;
    }
    Some(PathStep::Real)
}

/// The real `open` with `flags` returned `real_fd` for process `vpid`: a new
/// descriptor stands for the file. A failure is passed on.
pub fn opened(
    all: &mut FdTables,
    pipes: &mut PipeStore,
    vpid: VPid,
    real_fd: i32,
    flags: i32,
) -> (fd: i32)
    requires
        old(pipes).wf(),
        real_fd >= 0 ==> can_insert_file(old(all)@, vpid),
    ensures
        final(pipes).wf(),
        final(pipes).ids_left() == old(pipes).ids_left(),
        if real_fd < 0 {
            fd == real_fd && final(all)@ == old(all)@ && final(pipes)@ == old(pipes)@
        } else {
            let table = old(all)@.table_or_new(vpid);
            &&& fd == table.next_fd as i32
            &&& final(all)@ == file_inserted(old(all)@, vpid, real_fd, flags & O_CLOEXEC != 0)
            &&& final(pipes)@ == table.pipes_after_close(table.next_fd, old(pipes)@)
        },
        old(all)@.wf() ==> final(all)@.wf(),
{
    if real_fd < 0 {
        return real_fd;
    }
    insert_file(all, pipes, vpid, real_fd, flags & O_CLOEXEC != 0) as i32
}

/// What a call on the kernel descriptor behind `fd` does: a pipe has no position,
/// and a number that is not in use is an error.
pub open spec fn kernel_step(
    st: Interceptor,
    current: Option<VPid>,
    all: FdTablesView,
    fd: i32,
) -> IoStep {
    if !on_table(st, current, all) {
        IoStep::Real(fd)
    } else {
        match lookup_vfd(all, current->0, fd as u32) {
            Some(Vfd::Real(kernel)) => IoStep::Real(kernel),
            Some(Vfd::File(file)) => IoStep::Real(file.real_fd),
            Some(_) => IoStep::Fail(ESPIPE),
            None => IoStep::Fail(EBADF),
        }
    }
}

/// `creat`: whether the new file gets a virtual descriptor.
pub fn creat(st: &Interceptor, current: Option<VPid>) -> (intercepted: bool)
    ensures
        intercepted == (st.active() && current is Some),
{
    st.is_active() && current.is_some()
}

/// `fstat`.
pub fn fstat(st: &Interceptor, current: Option<VPid>, all: &FdTables, fd: i32) -> (step: IoStep)
    ensures
        step == kernel_step(*st, current, all@, fd),
{
    on_kernel_fd(st, current, all, fd)
}

/// `lseek`.
pub fn lseek(st: &Interceptor, current: Option<VPid>, all: &FdTables, fd: i32) -> (step: IoStep)
    ensures
        step == kernel_step(*st, current, all@, fd),
{
    on_kernel_fd(st, current, all, fd)
}

fn on_kernel_fd(st: &Interceptor, current: Option<VPid>, all: &FdTables, fd: i32) -> (step:
    IoStep)
    ensures
        step == kernel_step(*st, current, all@, fd),
{
    if !st.is_active() {
        return IoStep::Real(fd);
    }
    match current {
        None => IoStep::Real(fd),
        Some(vpid) => {
            if !all.contains(vpid) {
                return IoStep::Real(fd);
            }
            match all.lookup(vpid, fd as u32) {
                Some(Vfd::Real(kernel)) => IoStep::Real(kernel),
                Some(Vfd::File(file)) => IoStep::Real(file.real_fd),
                Some(_) => IoStep::Fail(ESPIPE),
                None => IoStep::Fail(EBADF),
            }
        },
    }
}

/// In a child of a real fork, and while interception is off, every call is
/// passed to the real function unchanged.
pub proof fn law_passes_through(
    st: Interceptor,
    current: Option<VPid>,
    all: FdTablesView,
    after: FdTablesView,
    fd: i32,
)
    requires
        !st.active(),
    ensures
        io_route(st, current, all, fd) == Some(IoStep::Real(fd)),
        close_step(st, current, all, after, fd) == CloseStep::Real,
        !on_table(st, current, all),
{
}

/// A file that was opened is found again under its new number, and closing it
/// there hands its kernel descriptor out for closing.
pub proof fn law_open_close(all: FdTablesView, vpid: VPid, real_fd: i32, cloexec: bool)
    requires
        all.wf(),
        can_insert_file(all, vpid),
    ensures
        ({
            let opened = file_inserted(all, vpid, real_fd, cloexec);
            let fd = all.table_or_new(vpid).next_fd;
            let file = FileRef { id: all.next_file, real_fd, cloexec };
            &&& lookup_vfd(opened, vpid, fd) == Some(Vfd::File(file))
            &&& !tables_closed(opened, vpid, fd).mentions_file(file)
        }),
{
    let opened = file_inserted(all, vpid, real_fd, cloexec);
    let fd = all.table_or_new(vpid).next_fd;
    let file = FileRef { id: all.next_file, real_fd, cloexec };
    let closed = tables_closed(opened, vpid, fd);
    if closed.mentions_file(file) {
        let p = choose|p: u32| #[trigger]
            closed.tables.contains_key(p) && closed.tables[p].mentions_file(file);
        let n = choose|n: u32| #[trigger]
            closed.tables[p].fds.contains_key(n) && closed.tables[p].fds[n] == Vfd::File(file);
        if all.tables.contains_key(p) {
            assert(all.tables[p].fds[n] == Vfd::File(file));
        }
    }
}

/// Reading and writing go to the kernel descriptor that was opened: after a file
/// with kernel descriptor `kernel` was opened as `fd` of process `vpid`, `read` and
/// `write` on `fd` poll `kernel` first, and `fstat` and `lseek` are made on it. The
/// same holds of every duplicate of `fd`, and under the same number in a forked
/// child.
pub proof fn law_opened_file_is_used(
    st: Interceptor,
    all: FdTablesView,
    vpid: VPid,
    child: VPid,
    kernel: i32,
    cloexec: bool,
    new_fd: u32,
)
    requires
        st.enabled,
        !st.real_fork_child,
        can_insert_file(all, vpid),
        all.table_or_new(vpid).next_fd <= i32::MAX,
        new_fd <= i32::MAX,
        new_fd != all.table_or_new(vpid).next_fd,
        child != vpid,
    ensures
        ({
            let fd = all.table_or_new(vpid).next_fd;
            let opened = file_inserted(all, vpid, kernel, cloexec);
            let dupped = opened.with(vpid, opened.tables[vpid].after_dup2(fd, new_fd));
            let forked = opened.with(child, opened.table_or_new(vpid));
            let on_file = |tables: FdTablesView, p: VPid, n: u32|
                {
                    &&& io_route(st, Some(p), tables, n as i32) == Some(IoStep::PollFirst(kernel))
                    &&& kernel_step(st, Some(p), tables, n as i32) == IoStep::Real(kernel)
                };
            &&& on_file(opened, vpid, fd)
            &&& on_file(dupped, vpid, fd)
            &&& on_file(dupped, vpid, new_fd)
            &&& on_file(forked, vpid, fd)
            &&& on_file(forked, child, fd)
        }),
{
    let fd = all.table_or_new(vpid).next_fd;
    assert(fd as i32 as u32 == fd);
    assert(new_fd as i32 as u32 == new_fd);
}

/// A call on any descriptor of a process goes where the descriptor leads: the
/// kernel descriptor that it passes through to, that of its file, or, for a number
/// that is not in use, the number itself. Only an end of a virtual pipe is not
/// handed to the kernel; it has no position either.
pub proof fn law_calls_follow_descriptors(
    st: Interceptor,
    all: FdTablesView,
    vpid: VPid,
    fd: i32,
    n: i32,
    id: u64,
    file: FileRef,
)
    requires
        st.enabled,
        !st.real_fork_child,
        fd >= 0,
    ensures
        ({
            let table = if all.tables.contains_key(vpid) {
                all.tables[vpid].fds
            } else {
                Map::empty()
            };
            let route = io_route(st, Some(vpid), all, fd);
            let number = fd as u32;
            &&& !table.contains_key(number) ==> route == Some(IoStep::PollFirst(fd))
            &&& table.contains_key(number) && table[number] == Vfd::Real(n) ==> route == Some(
                IoStep::PollFirst(n),
            ) && kernel_step(st, Some(vpid), all, fd) == IoStep::Real(n)
            &&& table.contains_key(number) && table[number] == Vfd::File(file) ==> route == Some(
                IoStep::PollFirst(file.real_fd),
            ) && kernel_step(st, Some(vpid), all, fd) == IoStep::Real(file.real_fd)
            &&& table.contains_key(number) && (table[number] == Vfd::PipeRead(id) || table[number]
                == Vfd::PipeWrite(id)) ==> route is None && kernel_step(st, Some(vpid), all, fd)
                == IoStep::Fail(29)
            &&& all.tables.contains_key(vpid) && !table.contains_key(number) ==> kernel_step(
                st,
                Some(vpid),
                all,
                fd,
            ) == IoStep::Fail(9)
        }),
        forall|bad: i32, current: Option<VPid>|
            bad < 0 ==> #[trigger] io_route(st, current, all, bad) == Some(IoStep::Fail(9)),
        io_route(st, None, all, fd) == Some(IoStep::Real(fd)),
        kernel_step(st, None, all, fd) == IoStep::Real(fd),
        !all.tables.contains_key(vpid) ==> kernel_step(st, Some(vpid), all, fd) == IoStep::Real(fd),
        on_table(st, Some(vpid), all) <==> all.tables.contains_key(vpid),
        !on_table(st, None, all),
{
}

/// An end of a pipe is used in its own direction only: the reading end is found for
/// reading, the writing end for writing, and neither for the other.
pub proof fn law_pipe_ends_have_a_direction(
    all: FdTablesView,
    pipes: Map<u64, PipeView>,
    vpid: VPid,
    fd: i32,
    id: u64,
)
    requires
        all.tables.contains_key(vpid),
        all.tables[vpid].fds.contains_key(fd as u32),
        pipes.contains_key(id),
    ensures
        all.tables[vpid].fds[fd as u32] == Vfd::PipeRead(id) ==> read_pipe(all, pipes, vpid, fd)
            == Some(id) && write_pipe(all, pipes, vpid, fd) is None,
        all.tables[vpid].fds[fd as u32] == Vfd::PipeWrite(id) ==> write_pipe(all, pipes, vpid, fd)
            == Some(id) && read_pipe(all, pipes, vpid, fd) is None,
        all.tables[vpid].fds[fd as u32] is File || all.tables[vpid].fds[fd as u32] is Real
            ==> write_pipe(all, pipes, vpid, fd) is None && read_pipe(all, pipes, vpid, fd) is None,
{
}

/// `close` on a descriptor in use takes it away from its process and from no other,
/// and closes the kernel descriptor of a file exactly with its last descriptor. A
/// number that is not in use is left to the kernel.
pub proof fn law_close_descriptor(
    st: Interceptor,
    all: FdTablesView,
    vpid: VPid,
    other: VPid,
    fd: i32,
    n: u32,
)
    requires
        st.enabled,
        !st.real_fork_child,
        fd >= 0,
        other != vpid || n != fd as u32,
    ensures
        ({
            let after = tables_closed(all, vpid, fd as u32);
            let was = lookup_vfd(all, vpid, fd as u32);
            let step = close_step(st, Some(vpid), all, after, fd);
            &&& lookup_vfd(after, vpid, fd as u32) is None
            &&& lookup_vfd(after, other, n) == lookup_vfd(all, other, n)
            &&& was is None ==> step == CloseStep::Real && after == all
            &&& was matches Some(vfd) ==> {
                &&& vfd is Real || vfd is PipeRead || vfd is PipeWrite ==> step == CloseStep::Done
                &&& vfd is File && after.mentions_file(vfd->File_0) ==> step == CloseStep::Done
                &&& vfd is File && !after.mentions_file(vfd->File_0) ==> step
                    == CloseStep::CloseKernel(vfd->File_0.real_fd)
            }
            &&& close_step(st, None, all, after, fd) == CloseStep::Real
            &&& fd as u32 == fd
        }),
        forall|bad: i32, current: Option<VPid>|
            bad < 0 ==> #[trigger] close_step(st, current, all, all, bad) == CloseStep::Fail(9),
{
}

/// A status that is stored for an exit code has the low byte of the code in its second
/// byte and nothing else; a real child that a signal ended gives 128 plus the signal.
pub proof fn law_statuses(code: i32, status: i32)
    ensures
        0 <= code ==> exit_status(code) == 256 * (code % 256),
        0 <= status && status % 128 == 0 ==> code_of_status(status) == (status / 256) % 256,
        0 <= status && 0 < status % 128 < 127 ==> code_of_status(status) == 128 + status % 128,
        0 <= status && status % 128 == 127 ==> code_of_status(status) == 1,
{
    assert(0 <= code ==> (code & 0xff) << 8 == 256 * (code % 256)) by (bit_vector);
    assert(0 <= status ==> status & 0x7f == status % 128 && (status >> 8) & 0xff == (status / 256)
        % 256) by (bit_vector);
}

/// A duplication that succeeds returns the number of the duplicate; one that fails
/// fails with the error for a bad descriptor.
pub proof fn law_dup_route(fd: u32, error: i32)
    requires
        fd <= i32::MAX,
    ensures
        dup_route(Ok(fd)) == Route::Value(fd as i32),
        dup_route(Err(error)) == Route::Fail(9),
{
}

/// A path that is opened or changed to is taken from the working directory of the
/// process; a path with a zero in it is refused, and `open` leaves an absolute path,
/// or any path of a process without its own directory, as it is.
pub proof fn law_paths_taken_from_cwd(step: PathStep, dir: Seq<char>, path: Seq<char>)
    ensures
        is_open_step(step, None, path) <==> step is Real,
        path.len() > 0 && path[0] == '/' ==> (is_open_step(step, Some(dir), path) <==> step is Real),
        !(path.len() > 0 && path[0] == '/') && !resolved(dir, path).contains('\0') ==> (
        is_open_step(step, Some(dir), path) <==> step is RealWith && step->RealWith_0@
            == resolved(dir, path)),
        !(path.len() > 0 && path[0] == '/') && resolved(dir, path).contains('\0') ==> (is_open_step(
            step,
            Some(dir),
            path,
        ) <==> step == PathStep::Fail(22)),
        !path.contains('\0') ==> (is_path_step(step, path) <==> step is RealWith
            && step->RealWith_0@ == path),
        path.contains('\0') ==> (is_path_step(step, path) <==> step == PathStep::Fail(22)),
{
}

/// The directory that a process changed to is the one that it is told, and no other
/// process is told another.
pub proof fn law_chdir_then_getcwd(ex: ExecutorView, pid: VPid, path: Seq<char>)
    requires
        ex.vprocs.contains_key(pid),
    ensures
        ({
            let after = ex.changed(pid, |co: CoroView| CoroView { cwd: Some(path), ..co });
            &&& ex.current == Some(pid) ==> own_cwd(after) == Some(path)
            &&& ex.current != Some(pid) ==> own_cwd(after) == own_cwd(ex)
        }),
        ex.current is None ==> own_cwd(ex) is None,
        ex.current == Some(pid) ==> own_cwd(ex) == ex.vprocs[pid].cwd,
{
}

/// A C string is the text in UTF-8 with one zero at the end.
pub proof fn law_c_string(s: Seq<char>)
    ensures
        c_bytes(s).len() == vstd::utf8::encode_utf8(s).len() + 1,
        c_bytes(s).last() == 0,
        c_bytes(s).drop_last() == vstd::utf8::encode_utf8(s),
{
    assert(c_bytes(s).drop_last() =~= vstd::utf8::encode_utf8(s));
}

/// Who a process's parent is, which numbers are virtual processes, and which
/// descriptors are virtual.
pub proof fn law_who_is_virtual(
    ex: ExecutorView,
    all: FdTablesView,
    pid: i32,
    vpid: VPid,
    fd: i32,
)
    ensures
        is_vpid(ex, pid) <==> pid > 0 && ex.vprocs.contains_key(pid as u32),
        ex.vprocs.contains_key(vpid) ==> parent_of(ex, vpid) == ex.vprocs[vpid].ppid,
        !ex.vprocs.contains_key(vpid) ==> parent_of(ex, vpid) == 0,
        is_virtual_fd(all, vpid, fd) <==> all.tables.contains_key(vpid)
            && all.tables[vpid].fds.contains_key(fd as u32) && !(
        all.tables[vpid].fds[fd as u32] is Real),
{
}

/// The numbers of the C library and the kernel.
pub proof fn law_system_numbers()
    ensures
        EBADF == 9,
        ENOEXEC == 8,
        EINVAL == 22,
        ESPIPE == 29,
        EPIPE == 32,
        ERANGE == 34,
        WNOHANG == 1,
        O_CLOEXEC == 0x80000,
        AT_FDCWD == -100,
        SIGKILL == 9,
        SIGPIPE == 13,
        SIGTERM == 15,
{
}

/// Closing an end of a pipe through its descriptor counts that end of that pipe less.
pub proof fn law_close_counts_end(
    all: FdTablesView,
    pipes: Map<u64, PipeView>,
    vpid: VPid,
    fd: u32,
    id: u64,
    other: u64,
)
    requires
        pipes.contains_key(id),
        pipes.contains_key(other),
        other != id,
        0 < pipes[id].readers < u64::MAX,
        0 < pipes[id].writers < u64::MAX,
    ensures
        lookup_vfd(all, vpid, fd) == Some(Vfd::PipeRead(id)) ==> pipes_closed(
            all,
            pipes,
            vpid,
            fd,
        )[id] == (PipeView { readers: (pipes[id].readers - 1) as u64, ..pipes[id] })
            && pipes_closed(all, pipes, vpid, fd)[other] == pipes[other],
        lookup_vfd(all, vpid, fd) == Some(Vfd::PipeWrite(id)) ==> pipes_closed(
            all,
            pipes,
            vpid,
            fd,
        )[id] == (PipeView { writers: (pipes[id].writers - 1) as u64, ..pipes[id] })
            && pipes_closed(all, pipes, vpid, fd)[other] == pipes[other],
        !is_pipe(lookup_vfd(all, vpid, fd)) ==> pipes_closed(all, pipes, vpid, fd) == pipes,
{
}

/// Waiting for a virtual process: one that exited is told by its status, from the exit
/// on and also after it was cleaned up; one that lives is waited for; one that is
/// unknown is an error.
pub proof fn law_wait_tells_exit(ex: ExecutorView, pid: i32, code: i32)
    requires
        pid > 0,
    ensures
        ex.current == Some(pid as u32) && code >= 0 ==> wait_step(ex.exited(code), pid)
            == WaitStep::Ended((256 * (code % 256)) as i32) && wait_step(
            ex.exited(code).reaped(),
            pid,
        ) == WaitStep::Ended((256 * (code % 256)) as i32),
        ex.wf() && ex.live(pid as u32) ==> wait_step(ex, pid) == WaitStep::Yield,
        !ex.vprocs.contains_key(pid as u32) && !ex.exit_codes.contains_key(pid as u32)
            ==> wait_step(ex, pid) == WaitStep::Return(-1i32),
{
    law_statuses(code, 0);
}

/// The parent of a forked child is told the child's number, and the child is told the
/// parent's as that of its parent, and its own.
pub proof fn law_fork_family(st: Interceptor, ex: ExecutorView, parent: VPid)
    requires
        st.enabled,
        ex.wf(),
        ex.vprocs.contains_key(parent),
        ex.next_pid < u32::MAX,
    ensures
        ({
            let child = ex.next_pid;
            let in_parent = ExecutorView { current: Some(parent), ..ex.forked(parent) };
            let in_child = ExecutorView { current: Some(child), ..ex.forked(parent) };
            &&& pid_route(st, in_parent) == Route::Value(parent as i32)
            &&& pid_route(st, in_child) == Route::Value(child as i32)
            &&& ppid_route(st, in_child) == pid_route(st, in_parent)
            &&& ppid_route(st, in_parent) == Route::Value(ex.vprocs[parent].ppid as i32)
        }),
        ex.current is None ==> pid_route(st, ex) == Route::Real && ppid_route(st, ex)
            == Route::Real,
{
}

/// What one process writes another reads: where `a` holds the writing end of an open
/// pipe and `b` a reading end, and the pipe is empty and has room for the bytes, a
/// write reports all of them, and a read into a buffer that is large enough reports
/// as many and has them at the start of the buffer; the rest of the buffer stays, and
/// no other pipe is touched.
pub proof fn law_written_is_read(
    st: Interceptor,
    ex: ExecutorView,
    all: FdTablesView,
    pipes: Map<u64, PipeView>,
    a: VPid,
    b: VPid,
    id: u64,
    w: i32,
    r: i32,
    src: Seq<u8>,
    buf: Seq<u8>,
    other: u64,
)
    requires
        st.enabled,
        !st.real_fork_child,
        ex.current == Some(a),
        w >= 0,
        r >= 0,
        lookup_vfd(all, a, w as u32) == Some(Vfd::PipeWrite(id)),
        lookup_vfd(all, b, r as u32) == Some(Vfd::PipeRead(id)),
        pipes.contains_key(id),
        pipes[id].data.len() == 0,
        !pipes[id].closed,
        pipes[id].readers > 0,
        0 < src.len() <= 65536,
        src.len() <= buf.len(),
    ensures
        ({
            let (step, now, after) = write_outcome(st, ex, all, pipes, w, src);
            let (got, end, out) = read_outcome(st, Some(b), all, now, r, buf);
            &&& step == IoStep::Done(src.len() as isize)
            &&& after == ex
            &&& got == IoStep::Done(src.len() as isize)
            &&& out == src + buf.skip(src.len() as int)
            &&& end[id] == pipes[id]
            &&& other != id && pipes.contains_key(other) ==> now[other] == pipes[other]
                && end[other] == pipes[other]
        }),
{
    let pipe = pipes[id];
    crate::pipe::law_write_stores_all_it_can(pipe, src);
    let full = pipe.after_write(src);
    assert(full.data =~= src);
    crate::pipe::law_read_takes_all_it_can(full, buf.len());
    assert(full.read_bytes(buf.len()) =~= src);
    assert(full.after_read(buf.len()).data =~= pipe.data);
    assert(full.after_read(buf.len()) =~= pipe);
}

/// A read of an empty pipe waits while somebody can write, and is told the end of the
/// stream when nobody can. A write waits while the pipe is full and somebody can
/// read, and ends the process as if by signal 13 when nobody can. Neither changes the
/// pipe.
pub proof fn law_pipe_waits_and_ends(
    st: Interceptor,
    ex: ExecutorView,
    all: FdTablesView,
    pipes: Map<u64, PipeView>,
    vpid: VPid,
    id: u64,
    fd: i32,
    src: Seq<u8>,
    buf: Seq<u8>,
)
    requires
        st.enabled,
        !st.real_fork_child,
        ex.current == Some(vpid),
        fd >= 0,
        pipes.contains_key(id),
        pipes[id].data.len() <= 65536,
    ensures
        lookup_vfd(all, vpid, fd as u32) == Some(Vfd::PipeRead(id)) && pipes[id].data.len() == 0
            ==> ({
            let (step, now, out) = read_outcome(st, Some(vpid), all, pipes, fd, buf);
            &&& now == pipes
            &&& out == buf
            &&& step == (if pipes[id].closed || pipes[id].writers == 0 {
                IoStep::Done(0)
            } else {
                IoStep::Yield
            })
        }),
        lookup_vfd(all, vpid, fd as u32) == Some(Vfd::PipeWrite(id)) ==> ({
            let (step, now, after) = write_outcome(st, ex, all, pipes, fd, src);
            let broken = pipes[id].closed || pipes[id].readers == 0;
            &&& broken ==> step == IoStep::Exited && now == pipes && after == ex.exited(141)
            &&& !broken && pipes[id].data.len() == 65536 ==> step == IoStep::Yield && now == pipes
                && after == ex
        }),
        lookup_vfd(all, vpid, fd as u32) == Some(Vfd::PipeRead(id)) ==> write_outcome(
            st,
            ex,
            all,
            pipes,
            fd,
            src,
        ) == (IoStep::Fail(9), pipes, ex),
        lookup_vfd(all, vpid, fd as u32) == Some(Vfd::PipeWrite(id)) ==> read_outcome(
            st,
            Some(vpid),
            all,
            pipes,
            fd,
            buf,
        ) == (IoStep::Fail(9), pipes, buf),
{
    let pipe = pipes[id];
    crate::pipe::law_write_stores_all_it_can(pipe, src);
    crate::pipe::law_read_takes_all_it_can(pipe, buf.len());
    if pipe.data.len() == 0 {
        assert(pipe.read_bytes(buf.len()) =~= Seq::empty());
        assert(pipe.read_bytes(buf.len()) + buf.skip(0) =~= buf);
        assert(pipe.after_read(buf.len()).data =~= pipe.data);
        assert(pipes.insert(id, pipe.after_read(buf.len())) =~= pipes);
    }
    if pipe.broken() || pipe.data.len() == 65536 {
        assert(pipe.after_write(src) =~= pipe);
        assert(pipes.insert(id, pipe.after_write(src)) =~= pipes);
    }
}

/// A signal that ends a process does so at its next turn when it is sent, and at once
/// when the process raises it: the exit code is 128 plus the signal either way. Any
/// other signal ends nobody.
pub proof fn law_signals_end_processes(st: Interceptor, ex: ExecutorView, pid: i32, sig: i32)
    requires
        st.enabled,
        pid > 0,
        ex.live(pid as u32),
        !ex.exit_codes.contains_key(pid as u32),
        ex.vprocs[pid as u32].pending_signals.len() == 0,
    ensures
        ({
            let vpid = pid as u32;
            let (route, told) = kill_outcome(st, ex, pid, sig);
            &&& route == Route::Value(0)
            &&& told.live(vpid)
            &&& told.next_up() == Some(vpid) && (sig == 9 || sig == 15) ==> told.step_result()
                == Step::Killed(vpid) && told.after_driver_step().exit_code(vpid) == Some(
                (128 + sig) as i32,
            )
            &&& told.next_up() == Some(vpid) && sig != 9 && sig != 15 ==> told.step_result()
                == Step::Resume(vpid) && told.after_driver_step().live(vpid)
            &&& ex.current == Some(vpid) && (sig == 9 || sig == 15) ==> raise_outcome(st, ex, sig)
                == (Route::Exited, ex.exited((128 + sig) as i32))
            &&& ex.current == Some(vpid) && sig != 9 && sig != 15 ==> raise_outcome(st, ex, sig)
                == (Route::Value(0), told)
        }),
        !ex.vprocs.contains_key(0) ==> kill_outcome(st, ex, 0, sig) == (Route::Real, ex),
        ex.current is None ==> raise_outcome(st, ex, sig) == (Route::Real, ex),
{
    let vpid = pid as u32;
    let told = ex.notified(vpid, sig);
    let co = told.vprocs[vpid];
    assert(co.pending_signals =~= seq![sig]);
    crate::executor::law_signals_delivered(co, 0);
    crate::executor::lemma_next_up_live(told, told.ready);
}

/// Calls about groups: a virtual process is its own group.
pub proof fn law_own_group(st: Interceptor, ex: ExecutorView, pid: i32)
    requires
        st.enabled,
    ensures
        pid > 0 && ex.vprocs.contains_key(pid as u32) ==> group_route(st, ex, pid) == Route::Value(
            pid,
        ),
        pid > 0 && !ex.vprocs.contains_key(pid as u32) ==> group_route(st, ex, pid) == Route::Real,
        group_route(st, ex, 0) == pid_route(st, ex),
{
}

/// Inside of a virtual process `exit` ends that process only, with its code; outside
/// of all it ends everything; and where calls are not intercepted it is the real one.
pub proof fn law_exit_is_virtual(st: Interceptor, ex: ExecutorView, code: i32)
    ensures
        !st.enabled || st.real_fork_child ==> exit_outcome(st, ex, code) == (ExitRoute::Real, ex),
        st.enabled && !st.real_fork_child && ex.current is Some ==> exit_outcome(st, ex, code).0
            == ExitRoute::Exited && exit_outcome(st, ex, code).1.exit_code(ex.current->0) == Some(
            code,
        ),
        st.enabled && !st.real_fork_child && ex.current is None ==> exit_outcome(st, ex, code) == (
            ExitRoute::ExitGroup,
            ex,
        ),
{
}

/// A child is waited for where it lives: a virtual one, such as a forked child, among
/// the virtual processes; any other in the kernel, without blocking the others unless
/// the caller does not want to block at all.
pub proof fn law_wait_where_the_child_is(
    st: Interceptor,
    ex: ExecutorView,
    parent: VPid,
    pid: i32,
    options: i32,
)
    requires
        st.enabled,
        !st.real_fork_child,
        ex.wf(),
        ex.vprocs.contains_key(parent),
        ex.next_pid < i32::MAX,
    ensures
        wait_route(st, ex.forked(parent), ex.next_pid as i32, options) == WaitRoute::Virtual,
        ex.vprocs.contains_key(pid as u32) ==> wait_route(st, ex, pid, options)
            == WaitRoute::Virtual,
        !ex.vprocs.contains_key(pid as u32) && options & 1 != 0 ==> wait_route(st, ex, pid, options)
            == WaitRoute::Raw,
        !ex.vprocs.contains_key(pid as u32) && options & 1 == 0 ==> wait_route(st, ex, pid, options)
            == WaitRoute::PollRaw,
{
    assert(ex.next_pid as i32 as u32 == ex.next_pid);
}

/// `chdir` goes from the working directory of the process, or of the whole process
/// where it has none; `getcwd` tells the directory that was changed to, with a zero
/// at the end, and fails with the error for a small buffer where it does not fit.
pub proof fn law_working_directory(
    st: Interceptor,
    ex: ExecutorView,
    pid: VPid,
    process_cwd: Seq<char>,
    path: Seq<char>,
    step: PathStep,
    told: CwdStep,
    size: usize,
)
    requires
        st.enabled,
        !st.real_fork_child,
        ex.current == Some(pid),
        ex.vprocs.contains_key(pid),
    ensures
        ({
            let dir = if ex.vprocs[pid].cwd is Some {
                ex.vprocs[pid].cwd->0
            } else {
                process_cwd
            };
            let there = resolved(dir, path);
            let after = ex.changed(pid, |co: CoroView| CoroView { cwd: Some(there), ..co });
            &&& !there.contains('\0') ==> (is_chdir_step(step, st, ex, process_cwd, path)
                <==> step is RealWith && step->RealWith_0@ == there)
            &&& there.contains('\0') ==> (is_chdir_step(step, st, ex, process_cwd, path) <==> step
                == PathStep::Fail(22))
            &&& vstd::utf8::encode_utf8(there).len() < size ==> (is_cwd_step(told, st, after, size)
                <==> told is Store && told->Store_0@ == vstd::utf8::encode_utf8(there).push(0))
            &&& vstd::utf8::encode_utf8(there).len() >= size ==> (is_cwd_step(
                told,
                st,
                after,
                size,
            ) <==> told == CwdStep::Fail(34))
        }),
{
}

} // verus!
