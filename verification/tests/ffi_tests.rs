use vproc::cache::{BinaryCache, BinaryCacheEntry};
use vproc::executor::{Executor, Step, SIGKILL};
use vproc::ffi::{
    dup_needed, fork_return, fork_start, vproc_ffi_close, vproc_ffi_current_vpid,
    vproc_ffi_dup, vproc_ffi_dup2, vproc_ffi_exit, vproc_ffi_get_cwd, vproc_ffi_get_exit_code,
    vproc_ffi_getpid, vproc_ffi_getppid, vproc_ffi_is_virtual_fd, vproc_ffi_pipe,
    vproc_ffi_pipe_is_closed, vproc_ffi_read, vproc_ffi_version, vproc_ffi_write, ForkStart,
    Session, SessionIds, Settled, SpawnRequest,
};
use vproc::pipe::PipeStore;
use vproc::tables::{insert_file, FdTables};
use vproc::vfd::Vfd;

fn request(ticket: u64) -> SpawnRequest {
    SpawnRequest {
        path: "/bin/true".to_string(),
        argv: vec!["true".to_string()],
        envp: Vec::new(),
        stdin_fd: 0,
        stdout_fd: 1,
        stderr_fd: 2,
        ticket,
    }
}

#[test]
fn session_numbers() {
    let mut ids = SessionIds::new();
    assert_eq!(ids.take(), 1);
    assert_eq!(ids.take(), 2);
    let mut last = SessionIds { next: u32::MAX };
    assert_eq!(last.take(), u32::MAX);
    assert_eq!(last.take(), 0);
}

#[test]
fn new_session_has_nothing_to_do() {
    let mut s = Session::new(4);
    assert_eq!(s.id, 4);
    assert_eq!(s.saved_fds, [-1, -1, -1]);
    assert_eq!(s.probe_result, None);
    assert!(!s.has_work());
    assert!(s.driver_waits());
    s.driver_started([7, -1, 9]);
    assert_eq!(s.saved_fds, [7, 1, 9]);
    assert_eq!(s.probe_result, Some(0));
    s.destroy();
    assert!(s.shutdown);
    assert!(!s.driver_waits());
}

#[test]
fn requests_are_taken_in_order() {
    let mut s = Session::new(1);
    s.submit(request(10));
    s.submit(request(11));
    assert!(s.has_work());
    let taken = s.drain_spawn_queue();
    let tickets: Vec<u64> = taken.iter().map(|r| r.ticket).collect();
    assert_eq!(tickets, vec![10, 11]);
    assert!(s.drain_spawn_queue().is_empty());
}

#[test]
fn waiters_are_answered_with_exit_codes() {
    let mut s = Session::new(1);
    let mut cache = BinaryCache::new();
    let pids = [s.executor.spawn(), s.executor.spawn(), s.executor.spawn()];
    for (i, pid) in pids.iter().enumerate() {
        assert_eq!(s.wait_for(*pid, i as u64), None);
    }
    assert!(s.vpid_exists(1));
    let mut answers = Vec::new();
    for code in [10, 20, 30] {
        let pid = match s.executor.step_from_driver() {
            Step::Resume(pid) => pid,
            _ => panic!("a process is ready"),
        };
        vproc::exit(&mut s.executor, code);
        let turn = s.end_turn(&mut cache, Some((pid, false)));
        assert_eq!(turn.reaped.coroutines.len(), 1);
        answers.extend(turn.settled);
    }
    assert_eq!(
        answers,
        vec![
            Settled { ticket: 0, code: 10 },
            Settled { ticket: 1, code: 20 },
            Settled { ticket: 2, code: 30 },
        ]
    );
    assert!(!s.vpid_exists(1));
    assert!(s.driver_waits());
}

#[test]
fn killed_process_answers_its_waiter() {
    let mut s = Session::new(1);
    let mut cache = BinaryCache::new();
    let pid = s.executor.spawn();
    s.wait_for(pid, 5);
    s.executor.queue_signal(pid, SIGKILL);
    assert_eq!(s.executor.step_from_driver(), Step::Killed(pid));
    let turn = s.end_turn(&mut cache, None);
    assert_eq!(turn.settled, vec![Settled { ticket: 5, code: 137 }]);
}

#[test]
fn live_process_is_queued_again() {
    let mut s = Session::new(1);
    let mut cache = BinaryCache::new();
    let pid = s.executor.spawn();
    s.wait_for(pid, 5);
    for _ in 0..3 {
        assert_eq!(s.executor.step_from_driver(), Step::Resume(pid));
        let turn = s.end_turn(&mut cache, Some((pid, false)));
        assert!(turn.settled.is_empty());
    }
    assert_eq!(s.waiters.len(), 1);
}

#[test]
fn ended_process_is_known_at_once() {
    let mut s = Session::new(1);
    let pid = s.executor.spawn();
    s.executor.step();
    vproc::exit(&mut s.executor, 9);
    assert_eq!(s.wait_for(pid, 1), Some(9));
    assert!(s.waiters.is_empty());
    assert!(s.settle_waiters().is_empty());
}

#[test]
fn finishing_a_session_releases_programs_and_tables() {
    let mut s = Session::new(1);
    let mut cache = BinaryCache::new();
    let path = "/bin/sh".to_string();
    cache.insert(BinaryCacheEntry {
        path: path.clone(),
        main_addr: 4,
        handle: 1,
        saved_writable: Vec::new(),
        active_users: 1,
    });
    let done = s.executor.spawn();
    let live = s.executor.spawn();
    s.executor.set_binary_path(done, path.clone());
    insert_file(&mut s.tables, &mut s.pipes, done, 60, false);
    insert_file(&mut s.tables, &mut s.pipes, live, 61, false);
    vproc_ffi_pipe(&mut s.tables, &mut s.pipes, live);
    s.executor.step();
    vproc::exit(&mut s.executor, 0);
    let reaped = s.finish(&mut cache);
    assert_eq!(reaped.coroutines.len(), 1);
    let kernel: Vec<i32> = reaped.files.iter().map(|file| file.real_fd).collect();
    assert_eq!(kernel, vec![60, 61]);
    assert_eq!(cache.get(&path).unwrap().active_users, 0);
    assert!(!s.tables.contains(live));
    assert!(s.pipes.get(s.pipes.ids()[0]).unwrap().is_closed());
}

#[test]
fn sessions_have_tables_of_their_own() {
    let mut cache = BinaryCache::new();
    let mut a = Session::new(1);
    let mut b = Session::new(2);
    let first = a.executor.spawn();
    let second = b.executor.spawn();
    assert_eq!(first, second);
    let (r, w) = vproc_ffi_pipe(&mut a.tables, &mut a.pipes, first);
    insert_file(&mut a.tables, &mut a.pipes, first, 62, false);
    assert_eq!(b.spawn_answer(Some(second), 7, 8, 9).0, second);
    assert_eq!(b.tables.lookup(second, 0), Some(Vfd::Real(7)));
    assert_eq!(b.tables.lookup(second, r), None);
    assert!(b.finish(&mut cache).files.is_empty());
    assert_eq!(a.tables.lookup(first, 0), Some(Vfd::Real(0)));
    assert_eq!(vproc_ffi_write(&a.tables, &mut a.pipes, first, w as i32, b"on"), 2);
    assert_eq!(a.finish(&mut cache).files[0].real_fd, 62);
}

#[test]
fn end_of_a_turn_closes_pipes_of_the_ended_process() {
    let mut s = Session::new(1);
    let mut cache = BinaryCache::new();
    let parent = s.executor.spawn();
    let (r, w) = vproc_ffi_pipe(&mut s.tables, &mut s.pipes, parent);
    let (child, files) = s.executor.spawn_fork_child(&mut s.tables, &mut s.pipes, parent);
    assert!(files.is_empty());
    assert_eq!(s.executor.step_from_driver(), Step::Resume(parent));
    s.end_turn(&mut cache, Some((parent, false)));
    let mut buf = [0u8; 4];
    assert_eq!(s.executor.step_from_driver(), Step::Resume(child));
    assert_eq!(vproc_ffi_write(&s.tables, &mut s.pipes, child, w as i32, b"bye"), 3);
    vproc::exit(&mut s.executor, 0);
    s.end_turn(&mut cache, Some((child, false)));
    assert_eq!(vproc_ffi_write(&s.tables, &mut s.pipes, parent, w as i32, b"x"), -1);
    assert_eq!(vproc_ffi_read(&s.tables, &mut s.pipes, parent, r as i32, &mut buf), 3);
    assert_eq!(vproc_ffi_read(&s.tables, &mut s.pipes, parent, r as i32, &mut buf), 0);
}

#[test]
fn started_program_gets_the_requested_descriptors() {
    let mut s = Session::new(1);
    let (answer, files) = s.spawn_answer(None, 7, 8, 9);
    assert_eq!((answer, files.len()), (0, 0));
    insert_file(&mut s.tables, &mut s.pipes, 3, 63, false);
    let (answer, files) = s.spawn_answer(Some(3), 7, 8, 9);
    assert_eq!((answer, files.len(), files[0].real_fd), (3, 1, 63));
    assert_eq!(s.tables.lookup(3, 2), Some(Vfd::Real(9)));
    assert!(dup_needed(3, 1));
    assert!(!dup_needed(1, 1));
    assert!(!dup_needed(-1, 1));
}

#[test]
fn questions_about_the_current_process() {
    let mut ex = Executor::new();
    assert_eq!(vproc_ffi_current_vpid(&ex), 0);
    assert_eq!(vproc_ffi_getpid(&ex, 4000), 4000);
    assert_eq!(vproc_ffi_getppid(&ex, 3999), 3999);
    assert!(!vproc_ffi_exit(&mut ex, 1));
    let pid = ex.spawn();
    ex.step();
    assert_eq!(vproc_ffi_current_vpid(&ex), pid);
    assert_eq!(vproc_ffi_getpid(&ex, 4000), pid);
    assert_eq!(vproc_ffi_getppid(&ex, 3999), 0);
    assert_eq!(vproc_ffi_get_exit_code(&ex, pid), -1);
    assert!(vproc_ffi_exit(&mut ex, 6));
    assert_eq!(vproc_ffi_get_exit_code(&ex, pid), 6);
}

#[test]
fn fork_returns_in_both_processes() {
    let mut ex = Executor::new();
    let mut tables = FdTables::new();
    let mut pipes = PipeStore::new();
    let parent = ex.spawn();
    assert_eq!(ex.step_from_driver(), Step::Resume(parent));
    assert_eq!(fork_start(&mut ex), ForkStart::Parent(parent));
    let (child, _) = ex.spawn_fork_child(&mut tables, &mut pipes, parent);
    assert_eq!(fork_return(&mut ex), child);
    ex.driver_step_done(parent, false);
    assert_eq!(ex.step_from_driver(), Step::Resume(child));
    assert_eq!(fork_return(&mut ex), 0);
    assert_eq!(fork_start(&mut ex), ForkStart::Parent(child));
    let (grandchild, _) = ex.spawn_fork_child(&mut tables, &mut pipes, child);
    ex.driver_step_done(child, false);
    assert_eq!(ex.step_from_driver(), Step::Resume(parent));
    ex.driver_step_done(parent, false);
    assert_eq!(ex.step_from_driver(), Step::Resume(grandchild));
    assert_eq!(fork_start(&mut ex), ForkStart::Child);
    assert_eq!(ex.vproc(grandchild).unwrap().ppid, child);
}

#[test]
fn pipes_through_the_c_interface() {
    let mut tables = FdTables::new();
    let mut pipes = PipeStore::new();
    let (r, w) = vproc_ffi_pipe(&mut tables, &mut pipes, 1);
    let (r, w) = (r as i32, w as i32);
    assert_eq!((r, w), (3, 4));
    assert_eq!(vproc_ffi_is_virtual_fd(&tables, 1, r), 1);
    assert_eq!(vproc_ffi_is_virtual_fd(&tables, 1, 0), 0);
    assert_eq!(vproc_ffi_is_virtual_fd(&tables, 2, r), 0);
    let mut buf = [0u8; 4];
    assert_eq!(vproc_ffi_read(&tables, &mut pipes, 1, r, &mut buf), -1);
    assert_eq!(vproc_ffi_write(&tables, &mut pipes, 1, w, b"hey"), 3);
    assert_eq!(vproc_ffi_write(&tables, &mut pipes, 1, r, b"hey"), -1);
    assert_eq!(vproc_ffi_read(&tables, &mut pipes, 1, w, &mut buf), -1);
    assert_eq!(vproc_ffi_read(&tables, &mut pipes, 1, r, &mut buf), 3);
    assert_eq!(&buf[..3], b"hey");
    assert!(!vproc_ffi_pipe_is_closed(&tables, &pipes, 1, w));
    assert_eq!(vproc_ffi_dup2(&mut tables, &mut pipes, 1, 0, r), (r, None));
    assert!(vproc_ffi_pipe_is_closed(&tables, &pipes, 1, w));
    assert!(!vproc_ffi_pipe_is_closed(&tables, &pipes, 1, r));
    assert_eq!(vproc_ffi_write(&tables, &mut pipes, 1, w, b"hey"), -1);
    assert_eq!(vproc_ffi_dup(&mut tables, &mut pipes, 1, w), (5, None));
    assert_eq!(vproc_ffi_dup2(&mut tables, &mut pipes, 1, w, 8), (8, None));
    assert_eq!(vproc_ffi_dup(&mut tables, &mut pipes, 1, 99), (-1, None));
    assert_eq!(vproc_ffi_dup2(&mut tables, &mut pipes, 9, w, 8), (-1, None));
    assert_eq!(vproc_ffi_dup(&mut tables, &mut pipes, 9, w), (-1, None));
    assert_eq!(vproc_ffi_close(&mut tables, &mut pipes, 1, w), Some(None));
    assert_eq!(vproc_ffi_close(&mut tables, &mut pipes, 1, w), None);
    let fd = insert_file(&mut tables, &mut pipes, 1, 70, false);
    let other = insert_file(&mut tables, &mut pipes, 1, 71, false) as i32;
    assert_eq!(vproc_ffi_dup2(&mut tables, &mut pipes, 1, 0, other), (other, Some(71)));
    assert_eq!(vproc_ffi_close(&mut tables, &mut pipes, 1, fd as i32), Some(Some(70)));
}

#[test]
fn working_directory_and_version() {
    let mut ex = Executor::new();
    let pid = ex.spawn();
    assert_eq!(vproc_ffi_get_cwd(&ex, pid, 100), None);
    assert_eq!(vproc_ffi_get_cwd(&ex, 77, 100), None);
    ex.set_cwd(pid, "/tmp".to_string());
    assert_eq!(vproc_ffi_get_cwd(&ex, pid, 4), None);
    assert_eq!(vproc_ffi_get_cwd(&ex, pid, 5), Some(b"/tmp\0".to_vec()));
    assert_eq!(vproc_ffi_version(), b"0.4.0\0".to_vec());
    assert_eq!(vproc_ffi_version().len(), vproc::VERSION.len() + 1);
}
