use vproc::executor::{Executor, Step, SIGTERM};
use vproc::pipe::{PipeStore, PIPE_CAPACITY};
use vproc::preload::{
    after_poll, chdir, chdir_done, check_virtual_fd, close, creat, dup, dup2, execve_fallback,
    execve_polled, exit, exit_code_of_status, failed_exec_code, fstat, get_cwd,
    get_execve_call_count, getcwd, getpgid, getpgrp, getpid, getppid, is_real_fork_child, kill,
    lseek, open, openat, opened, poll_is_real, raise, read, setpgid, setsid, syscall_result,
    tcgetpgrp, tcsetpgrp, wait_polled, wait_virtual, waitpid, CloseStep, CwdStep, DupStep, ExitRoute,
    FallbackStep, Interceptor, IoStep, PathStep, PolledStep, Route, WaitRoute, WaitStep, AT_FDCWD,
    EINVAL, ENOEXEC, EPIPE, ERANGE, ESPIPE, O_CLOEXEC, WNOHANG,
};
use vproc::tables::{fork_fd_table, get_or_create_table, FdTables};
use vproc::vfd::{Vfd, EBADF};

fn on() -> Interceptor {
    Interceptor { enabled: true, real_fork_child: false, execve_calls: 0 }
}

fn running() -> (Executor, u32) {
    let mut ex = Executor::new();
    let pid = ex.spawn();
    assert_eq!(ex.step(), Step::Resume(pid));
    (ex, pid)
}

fn path_of(step: PathStep) -> String {
    match step {
        PathStep::RealWith(path) => path,
        _ => panic!("no path"),
    }
}

#[test]
fn numbers_are_those_of_the_system() {
    assert_eq!(EBADF, libc::EBADF);
    assert_eq!(ENOEXEC, libc::ENOEXEC);
    assert_eq!(EINVAL, libc::EINVAL);
    assert_eq!(ESPIPE, libc::ESPIPE);
    assert_eq!(EPIPE, libc::EPIPE);
    assert_eq!(ERANGE, libc::ERANGE);
    assert_eq!(WNOHANG, libc::WNOHANG);
    assert_eq!(O_CLOEXEC, libc::O_CLOEXEC);
    assert_eq!(AT_FDCWD, libc::AT_FDCWD);
}

#[test]
fn interception_is_switched_on_by_the_environment() {
    let mut st = Interceptor::new();
    assert!(!st.check_enabled(None));
    assert!(!st.check_enabled(Some(b'0')));
    assert!(!st.is_active());
    assert!(st.check_enabled(Some(b'1')));
    assert!(!st.check_enabled(None));
    assert!(st.is_active());
    st.forked(5);
    assert!(!is_real_fork_child(&st));
    st.forked(0);
    assert!(is_real_fork_child(&st));
    assert!(!st.is_active());
}

#[test]
fn execve_calls_are_counted() {
    let mut st = Interceptor::new();
    assert!(!st.execve());
    st.enabled = true;
    assert!(st.execve());
    assert_eq!(get_execve_call_count(&st), 2);
}

#[test]
fn exit_ends_only_the_virtual_process() {
    let (mut ex, pid) = running();
    assert_eq!(exit(&Interceptor::new(), &mut ex, 3), ExitRoute::Real);
    assert_eq!(vproc::get_exit_code(&ex, pid), None);
    assert_eq!(exit(&on(), &mut ex, 3), ExitRoute::Exited);
    assert_eq!(vproc::get_exit_code(&ex, pid), Some(3));
    let mut outside = Executor::new();
    assert_eq!(exit(&on(), &mut outside, 3), ExitRoute::ExitGroup);
}

#[test]
fn process_numbers_are_virtual() {
    let (mut ex, parent) = running();
    let mut tables = FdTables::new();
    let mut pipes = PipeStore::new();
    assert_eq!(getpid(&on(), &ex), Route::Value(1));
    assert_eq!(getppid(&on(), &ex), Route::Value(0));
    assert_eq!(getpid(&Interceptor::new(), &ex), Route::Real);
    let (child, _) = ex.spawn_fork_child(&mut tables, &mut pipes, parent);
    assert_eq!(ex.step(), Step::Resume(child));
    assert_eq!(getpid(&on(), &ex), Route::Value(2));
    assert_eq!(getppid(&on(), &ex), Route::Value(1));
    assert_eq!(setsid(&on(), &ex), Route::Value(2));
    assert_eq!(getpgrp(&on(), &ex), Route::Value(2));
    assert_eq!(getppid(&on(), &Executor::new()), Route::Real);
}

#[test]
fn process_groups() {
    let (ex, _) = running();
    assert_eq!(getpgid(&on(), &ex, 1), Route::Value(1));
    assert_eq!(getpgid(&on(), &ex, 0), Route::Value(1));
    assert_eq!(getpgid(&on(), &ex, 500), Route::Real);
    assert_eq!(getpgid(&on(), &ex, -1), Route::Real);
    assert_eq!(setpgid(&on(), &ex, 1), Route::Value(0));
    assert_eq!(setpgid(&on(), &ex, 0), Route::Value(0));
    assert_eq!(setpgid(&on(), &ex, 500), Route::Real);
    assert_eq!(setpgid(&Interceptor::new(), &ex, 1), Route::Real);
}

#[test]
fn terminals_of_virtual_descriptors() {
    let (ex, pid) = running();
    let mut tables = FdTables::new();
    let mut pipes = PipeStore::new();
    let (r, _) = get_or_create_table(&mut tables, pid).create_pipe(&mut pipes);
    assert!(check_virtual_fd(&tables, pid, r as i32));
    assert!(!check_virtual_fd(&tables, pid, 0));
    assert!(!check_virtual_fd(&tables, pid, 77));
    assert_eq!(tcsetpgrp(&on(), &ex, &tables, r as i32), Route::Value(0));
    assert_eq!(tcgetpgrp(&on(), &ex, &tables, r as i32), Route::Value(1));
    assert_eq!(tcsetpgrp(&on(), &ex, &tables, 0), Route::Real);
    assert_eq!(tcgetpgrp(&on(), &ex, &tables, 0), Route::Real);
}

#[test]
fn system_call_results() {
    assert_eq!(syscall_result(7), Ok(7));
    assert_eq!(syscall_result(0), Ok(0));
    assert_eq!(syscall_result(-10), Err(10));
}

#[test]
fn waiting_for_children() {
    let (mut ex, pid) = running();
    assert_eq!(waitpid(&Interceptor::new(), &ex, 1, 0), WaitRoute::Raw);
    assert_eq!(waitpid(&on(), &ex, 1, 0), WaitRoute::Virtual);
    assert_eq!(waitpid(&on(), &ex, 500, 0), WaitRoute::PollRaw);
    assert_eq!(waitpid(&on(), &ex, 500, WNOHANG), WaitRoute::Raw);
    assert_eq!(wait_virtual(&ex, 1), WaitStep::Yield);
    assert_eq!(wait_virtual(&ex, 9), WaitStep::Return(-1));
    vproc::exit(&mut ex, 300);
    ex.switched_back(pid, true);
    assert_eq!(wait_virtual(&ex, 1), WaitStep::Ended((300 & 0xff) << 8));
    assert_eq!(wait_polled(12), WaitStep::Return(12));
    assert_eq!(wait_polled(-1), WaitStep::Return(-1));
    assert_eq!(wait_polled(0), WaitStep::Yield);
}

#[test]
fn status_of_real_children() {
    assert_eq!(exit_code_of_status(42 << 8), 42);
    assert_eq!(exit_code_of_status(0), 0);
    assert_eq!(exit_code_of_status(libc::SIGSEGV), 128 + 11);
    assert_eq!(exit_code_of_status(libc::SIGSEGV | 0x80), 128 + 11);
    assert_eq!(exit_code_of_status(0x137f), 1);
    for code in 0..=255 {
        assert_eq!(exit_code_of_status((code & 0xff) << 8), code);
    }
    for status in 0..0x1_0000 {
        let expected = if libc::WIFEXITED(status) {
            libc::WEXITSTATUS(status)
        } else if libc::WIFSIGNALED(status) {
            128 + libc::WTERMSIG(status)
        } else {
            1
        };
        assert_eq!(exit_code_of_status(status), expected);
    }
}

#[test]
fn falling_back_to_a_real_child() {
    let mut st = on();
    assert_eq!(execve_fallback(&mut st, -1), FallbackStep::Fail(ENOEXEC));
    assert_eq!(execve_fallback(&mut st, 9), FallbackStep::Parent);
    assert!(st.is_active());
    assert_eq!(execve_fallback(&mut st, 0), FallbackStep::Child);
    assert!(!st.is_active());
    assert_eq!(failed_exec_code(-2), 126);
    assert_eq!(failed_exec_code(0), 0);
    let (mut ex, pid) = running();
    assert_eq!(execve_polled(&mut ex, 0, 0), FallbackStep::Yield);
    assert_eq!(vproc::get_exit_code(&ex, pid), None);
    assert_eq!(execve_polled(&mut ex, 9, 7 << 8), FallbackStep::Exited);
    assert_eq!(vproc::get_exit_code(&ex, pid), Some(7));
    let (mut other, pid) = running();
    assert_eq!(execve_polled(&mut other, -1, 7 << 8), FallbackStep::Exited);
    assert_eq!(vproc::get_exit_code(&other, pid), Some(0));
}

#[test]
fn reading_descriptors() {
    let (_, pid) = running();
    let mut tables = FdTables::new();
    let mut pipes = PipeStore::new();
    let (r, w) = get_or_create_table(&mut tables, pid).create_pipe(&mut pipes);
    let mut buf = [0u8; 8];
    let st = on();
    let off = Interceptor::new();
    let cur = Some(pid);
    assert_eq!(read(&off, cur, &tables, &mut pipes, -1, &mut buf), IoStep::Real(-1));
    assert_eq!(read(&st, cur, &tables, &mut pipes, -1, &mut buf), IoStep::Fail(EBADF));
    assert_eq!(read(&st, None, &tables, &mut pipes, 5, &mut buf), IoStep::Real(5));
    assert_eq!(read(&st, cur, &tables, &mut pipes, 0, &mut buf), IoStep::PollFirst(0));
    assert_eq!(read(&st, cur, &tables, &mut pipes, 88, &mut buf), IoStep::PollFirst(88));
    assert_eq!(read(&st, cur, &tables, &mut pipes, w as i32, &mut buf), IoStep::Fail(EBADF));
    assert_eq!(read(&st, cur, &tables, &mut pipes, r as i32, &mut buf), IoStep::Yield);
    let id = pipes.ids()[0];
    pipes.write_to(id, b"xyz");
    assert_eq!(read(&st, cur, &tables, &mut pipes, r as i32, &mut buf), IoStep::Done(3));
    assert_eq!(&buf[..3], b"xyz");
    close(&st, cur, &mut tables, &mut pipes, w as i32);
    assert_eq!(read(&st, cur, &tables, &mut pipes, r as i32, &mut buf), IoStep::Done(0));
}

#[test]
fn writing_to_a_closed_pipe_ends_the_process() {
    let (mut ex, pid) = running();
    let mut tables = FdTables::new();
    let mut pipes = PipeStore::new();
    let (r, w) = get_or_create_table(&mut tables, pid).create_pipe(&mut pipes);
    let st = on();
    let big = vec![9u8; PIPE_CAPACITY];
    assert_eq!(vproc::preload::write(&st, &mut ex, &tables, &mut pipes, -4, b"a"), IoStep::Fail(EBADF));
    assert_eq!(vproc::preload::write(&st, &mut ex, &tables, &mut pipes, 1, b"a"), IoStep::PollFirst(1));
    assert_eq!(vproc::preload::write(&st, &mut ex, &tables, &mut pipes, r as i32, b"a"), IoStep::Fail(EBADF));
    assert_eq!(
        vproc::preload::write(&st, &mut ex, &tables, &mut pipes, w as i32, &big),
        IoStep::Done(PIPE_CAPACITY as isize)
    );
    assert_eq!(vproc::preload::write(&st, &mut ex, &tables, &mut pipes, w as i32, b"a"), IoStep::Yield);
    close(&st, Some(pid), &mut tables, &mut pipes, r as i32);
    assert_eq!(vproc::preload::write(&st, &mut ex, &tables, &mut pipes, w as i32, b"a"), IoStep::Exited);
    assert_eq!(vproc::get_exit_code(&ex, pid), Some(128 + 13));
}

#[test]
fn polled_calls() {
    assert_eq!(after_poll(1), PolledStep::Call);
    assert_eq!(after_poll(-1), PolledStep::Fail);
    assert_eq!(after_poll(0), PolledStep::Wait);
    assert!(poll_is_real(&Interceptor::new(), Some(1), 1));
    assert!(poll_is_real(&on(), None, 1));
    assert!(poll_is_real(&on(), Some(1), 0));
    assert!(!poll_is_real(&on(), Some(1), 1));
}

#[test]
fn closing_descriptors() {
    let pid = 1u32;
    let cur = Some(pid);
    let mut tables = FdTables::new();
    let mut pipes = PipeStore::new();
    let st = on();
    assert_eq!(close(&Interceptor::new(), cur, &mut tables, &mut pipes, 0), CloseStep::Real);
    assert_eq!(close(&st, cur, &mut tables, &mut pipes, -1), CloseStep::Fail(EBADF));
    assert_eq!(close(&st, None, &mut tables, &mut pipes, 0), CloseStep::Real);
    assert_eq!(close(&st, cur, &mut tables, &mut pipes, 0), CloseStep::Real);
    let fd = opened(&mut tables, &mut pipes, pid, 30, 0);
    assert_eq!(fd, 3);
    fork_fd_table(&mut tables, &mut pipes, pid, 2);
    assert_eq!(close(&st, cur, &mut tables, &mut pipes, fd), CloseStep::Done);
    assert_eq!(close(&st, cur, &mut tables, &mut pipes, fd), CloseStep::Real);
    assert_eq!(close(&st, Some(2), &mut tables, &mut pipes, fd), CloseStep::CloseKernel(30));
    assert_eq!(close(&st, cur, &mut tables, &mut pipes, 0), CloseStep::Done);
    assert_eq!(tables.lookup(pid, 0), None);
}

#[test]
fn duplicating_descriptors() {
    let pid = 1u32;
    let cur = Some(pid);
    let mut tables = FdTables::new();
    let mut pipes = PipeStore::new();
    let st = on();
    assert_eq!(dup(&st, cur, &mut tables, &mut pipes, 1), plain(Route::Real));
    assert_eq!(dup2(&st, cur, &mut tables, &mut pipes, 1, 2), plain(Route::Real));
    get_or_create_table(&mut tables, pid);
    assert_eq!(dup(&st, cur, &mut tables, &mut pipes, 1), plain(Route::Value(3)));
    assert_eq!(tables.lookup(pid, 3), Some(Vfd::Real(1)));
    assert_eq!(dup(&st, cur, &mut tables, &mut pipes, 70), plain(Route::Fail(EBADF)));
    assert_eq!(dup2(&st, cur, &mut tables, &mut pipes, 1, 9), plain(Route::Value(9)));
    assert_eq!(dup2(&st, cur, &mut tables, &mut pipes, 70, 9), plain(Route::Fail(EBADF)));
    assert_eq!(dup2(&st, None, &mut tables, &mut pipes, 1, 9), plain(Route::Real));
    assert_eq!(dup2(&Interceptor::new(), cur, &mut tables, &mut pipes, 1, 9), plain(Route::Real));
}

fn plain(route: Route) -> DupStep {
    DupStep { route, close_kernel: None }
}

#[test]
fn duplicating_onto_the_last_descriptor_of_a_file() {
    let pid = 1u32;
    let cur = Some(pid);
    let mut tables = FdTables::new();
    let mut pipes = PipeStore::new();
    let st = on();
    let fd = opened(&mut tables, &mut pipes, pid, 31, 0);
    let DupStep { route, .. } = dup(&st, cur, &mut tables, &mut pipes, fd);
    assert_eq!(route, Route::Value(fd + 1));
    assert_eq!(dup2(&st, cur, &mut tables, &mut pipes, 0, fd), plain(Route::Value(fd)));
    assert_eq!(
        dup2(&st, cur, &mut tables, &mut pipes, 0, fd + 1),
        DupStep { route: Route::Value(fd + 1), close_kernel: Some(31) }
    );
}

#[test]
fn signals_to_virtual_processes() {
    let (mut ex, pid) = running();
    let other = ex.spawn();
    assert_eq!(kill(&on(), &mut ex, other as i32, SIGTERM), Route::Value(0));
    assert_eq!(ex.vproc(other).unwrap().pending_signals, vec![SIGTERM]);
    assert_eq!(kill(&on(), &mut ex, 500, SIGTERM), Route::Real);
    assert_eq!(kill(&on(), &mut ex, -1, SIGTERM), Route::Real);
    assert_eq!(kill(&Interceptor::new(), &mut ex, 1, SIGTERM), Route::Real);
    assert_eq!(raise(&on(), &mut ex, 1), Route::Value(0));
    assert_eq!(ex.vproc(pid).unwrap().pending_signals, vec![1]);
    assert_eq!(raise(&on(), &mut ex, SIGTERM), Route::Exited);
    assert_eq!(vproc::get_exit_code(&ex, pid), Some(143));
    assert_eq!(raise(&on(), &mut Executor::new(), SIGTERM), Route::Real);
}

#[test]
fn working_directory_is_per_process() {
    let (mut ex, _) = running();
    assert_eq!(get_cwd(&ex), None);
    assert!(matches!(chdir(&Interceptor::new(), &ex, "/p", "x"), PathStep::Real));
    let path = path_of(chdir(&on(), &ex, "/proc", "self"));
    assert_eq!(path, "/proc/self");
    chdir_done(&mut ex, path.clone(), -1);
    assert_eq!(get_cwd(&ex), None);
    chdir_done(&mut ex, path, 0);
    assert_eq!(get_cwd(&ex), Some("/proc/self".to_string()));
    assert_eq!(path_of(chdir(&on(), &ex, "/unused", "../1")), "/proc/1");
    assert!(matches!(chdir(&on(), &ex, "/p", "a\0b"), PathStep::Fail(22)));
    let other = ex.spawn();
    assert_eq!(ex.step(), Step::Resume(other));
    assert_eq!(get_cwd(&ex), None);
    assert!(matches!(chdir(&on(), &Executor::new(), "/p", "a"), PathStep::Real));
}

#[test]
fn getcwd_needs_room_for_the_zero() {
    let (mut ex, _) = running();
    assert!(matches!(getcwd(&on(), &ex, 100), CwdStep::Real));
    chdir_done(&mut ex, "/\u{e9}".to_string(), 0);
    assert!(matches!(getcwd(&Interceptor::new(), &ex, 100), CwdStep::Real));
    assert!(matches!(getcwd(&on(), &ex, 3), CwdStep::Fail(34)));
    match getcwd(&on(), &ex, 4) {
        CwdStep::Store(bytes) => assert_eq!(bytes, vec![b'/', 0xc3, 0xa9, 0]),
        _ => panic!("it fits"),
    }
}

#[test]
fn opening_files() {
    let (mut ex, pid) = running();
    let mut tables = FdTables::new();
    let mut pipes = PipeStore::new();
    assert!(open(&Interceptor::new(), &ex, "a").is_none());
    assert!(open(&on(), &Executor::new(), "a").is_none());
    assert!(matches!(open(&on(), &ex, "a"), Some(PathStep::Real)));
    chdir_done(&mut ex, "/data".to_string(), 0);
    assert_eq!(path_of(open(&on(), &ex, "a").unwrap()), "/data/a");
    assert!(matches!(open(&on(), &ex, "/a"), Some(PathStep::Real)));
    assert!(matches!(open(&on(), &ex, "a\0"), Some(PathStep::Fail(22))));
    assert_eq!(path_of(openat(&on(), &ex, AT_FDCWD, "../a").unwrap()), "/a");
    assert!(matches!(openat(&on(), &ex, 7, "a"), Some(PathStep::Real)));
    assert!(openat(&Interceptor::new(), &ex, 7, "a").is_none());
    assert!(creat(&on(), Some(pid)));
    assert!(!creat(&on(), None));
    assert_eq!(opened(&mut tables, &mut pipes, pid, -1, 0), -1);
    assert!(!tables.contains(pid));
    let fd = opened(&mut tables, &mut pipes, pid, 20, O_CLOEXEC);
    match tables.lookup(pid, fd as u32) {
        Some(Vfd::File(file)) => {
            assert_eq!(file.real_fd, 20);
            assert!(file.cloexec);
        }
        _ => panic!("no file"),
    }
}

#[test]
fn calls_on_the_kernel_descriptor() {
    let pid = 1u32;
    let cur = Some(pid);
    let mut tables = FdTables::new();
    let mut pipes = PipeStore::new();
    let st = on();
    assert_eq!(fstat(&st, cur, &tables, 5), IoStep::Real(5));
    let (r, _) = get_or_create_table(&mut tables, pid).create_pipe(&mut pipes);
    let fd = opened(&mut tables, &mut pipes, pid, 20, 0);
    assert_eq!(fstat(&st, cur, &tables, fd), IoStep::Real(20));
    assert_eq!(lseek(&st, cur, &tables, 2), IoStep::Real(2));
    assert_eq!(lseek(&st, cur, &tables, r as i32), IoStep::Fail(ESPIPE));
    assert_eq!(lseek(&st, cur, &tables, 99), IoStep::Fail(EBADF));
    assert_eq!(lseek(&Interceptor::new(), cur, &tables, 99), IoStep::Real(99));
}
