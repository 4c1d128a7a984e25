use vproc::coroutine::{
    build_elf_stack, trampoline_exit_code, Coroutine, State, EXIT_NO_USERDATA, EXIT_PANIC,
};
use vproc::executor::{
    do_yield, get_exit_code, is_child_of, reap_child, remove_exit_code, vproc_exit,
    vproc_exit_with_code, Executor, IoQuery, Step, SIGKILL, SIGPIPE, SIGTERM,
};
use vproc::pipe::PipeStore;
use vproc::tables::{get_or_create_table, insert_file, FdTables};
use vproc::vfd::Vfd;

fn expect_resume(step: Step) -> u32 {
    match step {
        Step::Resume(pid) => pid,
        other => panic!("unexpected step {:?}", other),
    }
}

#[test]
fn signal_numbers_are_those_of_the_system() {
    assert_eq!(SIGKILL, libc::SIGKILL);
    assert_eq!(SIGTERM, libc::SIGTERM);
    assert_eq!(SIGPIPE, libc::SIGPIPE);
}

#[test]
fn numbers_start_at_one_and_grow() {
    let mut ex = Executor::new();
    assert_eq!(ex.spawn(), 1);
    assert_eq!(ex.spawn_front(), 2);
    assert_eq!(ex.next_pid(), 3);
    assert_eq!(expect_resume(ex.step_from_driver()), 2);
    assert_eq!(ex.current_pid(), Some(2));
}

#[test]
fn round_robin_runs_everyone_in_turn() {
    let n = 1000u32;
    let yields = 3u32;
    let mut ex = Executor::new();
    for _ in 0..n {
        ex.spawn();
    }
    for round in 0..=yields {
        for expected in 1..=n {
            let pid = expect_resume(ex.step_from_driver());
            assert_eq!(pid, expected);
            if round == yields {
                vproc_exit(&mut ex);
            }
            ex.driver_step_done(pid, false);
            assert_eq!(ex.current_pid(), None);
        }
    }
    assert_eq!(ex.step_from_driver(), Step::Idle);
    assert_eq!(ex.switch_count(), (n * (yields + 1)) as u64);
    assert!(!ex.any_live());
}

#[test]
fn exit_codes_are_kept_until_removed() {
    let mut ex = Executor::new();
    let mut tables = FdTables::new();
    let mut pipes = PipeStore::new();
    let pid = ex.spawn();
    assert_eq!(get_exit_code(&ex, pid), None);
    assert_eq!(expect_resume(ex.step_from_driver()), pid);
    assert_eq!(vproc_exit_with_code(&mut ex, 42), Some(pid));
    ex.driver_step_done(pid, false);
    assert_eq!(get_exit_code(&ex, pid), Some(42));
    let reaped = ex.reap_done_coroutines(&mut tables, &mut pipes);
    assert_eq!(reaped.coroutines.len(), 1);
    assert_eq!(reaped.coroutines[0].exit_code, 42);
    assert!(!ex.contains(pid));
    assert_eq!(get_exit_code(&ex, pid), Some(42));
    remove_exit_code(&mut ex, pid);
    assert_eq!(get_exit_code(&ex, pid), None);
}

#[test]
fn exit_outside_of_a_process_does_nothing() {
    let mut ex = Executor::new();
    let pid = ex.spawn();
    assert_eq!(vproc_exit_with_code(&mut ex, 1), None);
    assert_eq!(get_exit_code(&ex, pid), None);
}

#[test]
fn function_that_returns_ends_the_process() {
    let mut ex = Executor::new();
    let pid = ex.spawn();
    expect_resume(ex.step_from_driver());
    assert_eq!(ex.vproc(pid).unwrap().state, State::Running);
    ex.driver_step_done(pid, true);
    assert_eq!(ex.vproc(pid).unwrap().state, State::Done);
    assert_eq!(get_exit_code(&ex, pid), Some(0));
}

#[test]
fn killed_process_is_not_resumed() {
    let mut ex = Executor::new();
    let a = ex.spawn();
    let b = ex.spawn();
    assert!(ex.queue_signal(a, 1));
    assert!(ex.queue_signal(a, SIGTERM));
    assert!(ex.queue_signal(a, SIGKILL));
    assert!(!ex.queue_signal(99, SIGKILL));
    assert_eq!(ex.step_from_driver(), Step::Killed(a));
    assert_eq!(get_exit_code(&ex, a), Some(128 + 15));
    assert_eq!(ex.switch_count(), 0);
    assert_eq!(expect_resume(ex.step_from_driver()), b);
}

#[test]
fn harmless_signal_is_dropped_at_the_next_turn() {
    let mut ex = Executor::new();
    let a = ex.spawn();
    ex.queue_signal(a, 1);
    assert_eq!(expect_resume(ex.step_from_driver()), a);
    assert!(ex.vproc(a).unwrap().pending_signals.is_empty());
}

#[test]
fn step_requeues_the_current_process() {
    let mut ex = Executor::new();
    let a = ex.spawn();
    let b = ex.spawn();
    assert_eq!(ex.step(), Step::Resume(a));
    assert_eq!(ex.step(), Step::Resume(b));
    ex.switched_back(b, true);
    assert_eq!(ex.step(), Step::Resume(a));
    ex.switched_back(a, true);
    assert_eq!(ex.step(), Step::Idle);
}

#[test]
fn yield_queues_and_steps() {
    let mut ex = Executor::new();
    let a = ex.spawn();
    let b = ex.spawn();
    assert_eq!(ex.step(), Step::Resume(a));
    assert_eq!(ex.yield_now(), Step::Resume(b));
    assert_eq!(ex.vproc(a).unwrap().state, State::Ready);
    assert_eq!(do_yield(&mut ex, true), None);
    assert_eq!(do_yield(&mut ex, false), Some(Step::Resume(a)));
}

#[test]
fn yield_queues_once() {
    let mut ex = Executor::new();
    let a = ex.spawn();
    let b = ex.spawn();
    let c = ex.spawn();
    assert_eq!(ex.step(), Step::Resume(a));
    for expected in [b, c, a, b, c, a] {
        assert_eq!(ex.yield_now(), Step::Resume(expected));
    }
    ex.switched_back(a, true);
    assert_eq!(ex.step(), Step::Resume(b));
    ex.switched_back(b, true);
    assert_eq!(ex.step(), Step::Resume(c));
    ex.switched_back(c, true);
    assert_eq!(ex.step(), Step::Idle);
    let mut alone = Executor::new();
    let only = alone.spawn();
    assert_eq!(alone.step(), Step::Resume(only));
    assert_eq!(alone.yield_now(), Step::Resume(only));
    assert_eq!(alone.yield_now(), Step::Resume(only));
}

#[test]
fn run_to_completion() {
    let mut ex = Executor::new();
    let a = ex.spawn();
    let b = ex.spawn();
    let mut order = Vec::new();
    let mut rounds = 0;
    loop {
        match ex.block_on_step() {
            Step::Idle => break,
            Step::Killed(_) => panic!("nobody was killed"),
            Step::Resume(pid) => {
                order.push(pid);
                rounds += 1;
                ex.block_on_step_done(pid, rounds > 2);
            }
        }
    }
    assert_eq!(order, vec![a, b, a, b]);
    assert!(!ex.any_live());
    assert_eq!(ex.block_on_step(), Step::Idle);
}

#[test]
fn fork_makes_a_listed_child() {
    let mut ex = Executor::new();
    let mut tables = FdTables::new();
    let mut pipes = PipeStore::new();
    let parent = ex.spawn();
    ex.set_cwd(parent, "/home".to_string());
    let (r, _) = get_or_create_table(&mut tables, parent).create_pipe(&mut pipes);
    let (child, _) = ex.spawn_fork_child(&mut tables, &mut pipes, parent);
    assert_eq!(child, 2);
    assert!(is_child_of(&ex, parent, child));
    assert!(!is_child_of(&ex, child, parent));
    let co = ex.vproc(child).unwrap();
    assert_eq!(co.ppid, parent);
    assert!(co.is_fork_child);
    assert_eq!(co.cwd, Some("/home".to_string()));
    assert_eq!(ex.vproc(parent).unwrap().fork_child_pid, child);
    assert_eq!(tables.lookup(child, r), tables.lookup(parent, r));
    reap_child(&mut ex, parent, child);
    assert!(!is_child_of(&ex, parent, child));
}

#[test]
fn reaping_releases_everything() {
    let mut ex = Executor::new();
    let mut tables = FdTables::new();
    let mut pipes = PipeStore::new();
    let parent = ex.spawn();
    let (child, _) = ex.spawn_fork_child(&mut tables, &mut pipes, parent);
    ex.set_binary_path(child, "/bin/sh".to_string());
    ex.register_c_strings(child, vec![1, 2]);
    ex.register_mapped_region(child, 4096, 8192);
    insert_file(&mut tables, &mut pipes, child, 60, false);
    get_or_create_table(&mut tables, child).create_pipe(&mut pipes);
    assert_eq!(ex.step(), Step::Resume(parent));
    assert_eq!(ex.step(), Step::Resume(child));
    ex.switched_back(child, true);
    let reaped = ex.reap_done_coroutines(&mut tables, &mut pipes);
    assert_eq!(reaped.coroutines.len(), 1);
    assert_eq!(reaped.coroutines[0].id, child);
    assert_eq!(reaped.coroutines[0].c_strings, vec![1, 2]);
    assert_eq!(reaped.coroutines[0].mapped_regions, vec![(4096, 8192)]);
    assert_eq!(reaped.binaries, vec!["/bin/sh".to_string()]);
    assert_eq!(reaped.files.len(), 1);
    assert_eq!(reaped.files[0].real_fd, 60);
    assert!(!tables.contains(child));
    assert!(pipes.ids().is_empty());
    assert!(ex.contains(parent));
    assert!(is_child_of(&ex, parent, child));
    ex.reap_done_coroutines(&mut tables, &mut pipes);
    assert!(!is_child_of(&ex, parent, child));
}

#[test]
fn waiting_for_descriptors() {
    let mut ex = Executor::new();
    let a = ex.spawn();
    let b = ex.spawn();
    assert_eq!(expect_resume(ex.step_from_driver()), a);
    assert!(ex.yield_for_io(vec![(5, 1), (6, 4)]));
    ex.driver_step_done(a, false);
    assert!(!ex.yield_for_io(vec![]));
    let queries = ex.collect_io_waits();
    assert_eq!(queries.len(), 2);
    assert!(queries.contains(&IoQuery { pid: a, fd: 6, events: 4 }));
    assert_eq!(expect_resume(ex.step_from_driver()), b);
    ex.driver_step_done(b, true);
    assert_eq!(ex.step_from_driver(), Step::Idle);
    let none: Vec<i16> = queries.iter().map(|_| 0).collect();
    ex.wake_io_ready(&queries, &none);
    assert_eq!(ex.step_from_driver(), Step::Idle);
    let all: Vec<i16> = queries.iter().map(|_| 1).collect();
    ex.wake_io_ready(&queries, &all);
    assert!(ex.collect_io_waits().is_empty());
    assert_eq!(expect_resume(ex.step_from_driver()), a);
    ex.driver_step_done(a, true);
    assert_eq!(ex.step_from_driver(), Step::Idle);
}

#[test]
fn coroutine_states() {
    let mut co = Coroutine::new(5);
    assert_eq!(co.state, State::Ready);
    assert!(!co.is_done());
    co.resume();
    assert_eq!(co.state, State::Running);
    co.switched_back(false);
    assert_eq!(co.state, State::Ready);
    co.yield_now();
    assert_eq!(co.state, State::Ready);
    co.set_done(3);
    co.switched_back(false);
    assert!(co.is_done());
    assert_eq!(co.exit_code, 3);
    let elf = Coroutine::new_elf(6, 0x1000, 0x2000);
    assert_eq!(elf.stack_alloc, Some((0x1000, 0x2000)));
    let child = Coroutine::fork_from(7, &elf);
    assert_eq!((child.id, child.ppid), (7, 6));
    assert_eq!(child.stack_alloc, None);
}

#[test]
fn exit_codes_of_the_trampoline() {
    assert_eq!(trampoline_exit_code(true, false), 0);
    assert_eq!(trampoline_exit_code(true, true), EXIT_PANIC);
    assert_eq!(trampoline_exit_code(false, false), EXIT_NO_USERDATA);
    assert_eq!((EXIT_PANIC, EXIT_NO_USERDATA), (134, 128));
}

#[test]
fn initial_stack_layout() {
    let stack = build_elf_stack(0x10000, 0x1000, 2, &[11, 12], &[21], &[[3, 4], [0, 0]]);
    assert_eq!(stack.words, vec![2, 11, 12, 0, 21, 0, 3, 4, 0, 0]);
    assert_eq!(stack.sp, 0x11000 - 80);
    let odd = build_elf_stack(0x10000, 0x1000, 0, &[], &[], &[]);
    assert_eq!(odd.words, vec![0, 0, 0]);
    assert_eq!(odd.sp, 0x11000 - 32);
}

#[test]
fn elf_process_gets_its_stack() {
    let mut ex = Executor::new();
    let (pid, stack) = ex.spawn_elf(0x10000, 0x1000, 1, &[5], &[], &[[0, 0]]);
    assert_eq!(pid, 1);
    assert_eq!(stack.words[0], 1);
    assert_eq!(ex.vproc(pid).unwrap().stack_alloc, Some((0x10000, 0x1000)));
}

#[test]
fn saved_return_address_is_taken_once() {
    let mut ex = Executor::new();
    assert_eq!(ex.take_fork_lr(), None);
    ex.save_fork_lr(0x1234);
    assert_eq!(ex.take_fork_lr(), Some(0x1234));
    assert_eq!(ex.take_fork_lr(), None);
}

#[test]
fn library_functions_delegate() {
    let mut ex = Executor::new();
    let a = vproc::spawn(&mut ex);
    let b = vproc::spawn_front(&mut ex);
    assert_eq!(vproc::yield_now(&mut ex, false), Some(Step::Resume(b)));
    assert_eq!(vproc::exit(&mut ex, 7), Some(b));
    assert_eq!(vproc::get_exit_code(&ex, b), Some(7));
    assert_eq!(vproc::get_exit_code(&ex, a), None);
    assert_eq!(vproc::switch_count(&ex), 1);
    assert_eq!(vproc::block_on_all(&mut ex, Some((b, true))), Step::Resume(a));
    assert_eq!(vproc::block_on_all(&mut ex, Some((a, true))), Step::Idle);
    assert_eq!(vproc::VERSION, "0.4.0");
}

#[test]
fn waiting_for_nothing_is_a_plain_yield() {
    let mut ex = Executor::new();
    let a = ex.spawn();
    assert_eq!(expect_resume(ex.step_from_driver()), a);
    assert!(ex.yield_for_io(vec![]));
    ex.driver_step_done(a, false);
    assert!(ex.collect_io_waits().is_empty());
    assert_eq!(expect_resume(ex.step_from_driver()), a);
}

#[test]
fn signal_wakes_a_waiting_process() {
    let mut ex = Executor::new();
    let a = ex.spawn();
    for sig in [1, SIGKILL] {
        assert_eq!(expect_resume(ex.step_from_driver()), a);
        ex.yield_for_io(vec![(5, 1)]);
        ex.driver_step_done(a, false);
        assert_eq!(ex.step_from_driver(), Step::Idle);
        assert!(ex.queue_signal(a, sig));
        if sig == 1 {
            assert_eq!(expect_resume(ex.step_from_driver()), a);
            ex.driver_step_done(a, false);
        }
    }
    assert_eq!(ex.step_from_driver(), Step::Killed(a));
    assert_eq!(get_exit_code(&ex, a), Some(137));
}

#[test]
fn everyone_has_an_exit_code_after_the_run() {
    let mut ex = Executor::new();
    let a = vproc::spawn(&mut ex);
    let b = vproc::spawn(&mut ex);
    let c = vproc::spawn(&mut ex);
    ex.queue_signal(c, SIGTERM);
    let mut ran = None;
    let mut turns = 0;
    loop {
        match vproc::block_on_all(&mut ex, ran.take()) {
            Step::Idle => break,
            Step::Killed(pid) => assert_eq!(pid, c),
            Step::Resume(pid) => {
                turns += 1;
                assert_eq!(vproc::get_exit_code(&ex, pid), None);
                if turns == 1 {
                    ex.yield_for_io(vec![(5, 1)]);
                    ran = Some((pid, false));
                } else {
                    let code = trampoline_exit_code(true, pid == b);
                    vproc::exit(&mut ex, code);
                    ran = Some((pid, true));
                }
            }
        }
    }
    assert_eq!(vproc::get_exit_code(&ex, a), Some(0));
    assert_eq!(vproc::get_exit_code(&ex, b), Some(134));
    assert_eq!(vproc::get_exit_code(&ex, c), Some(143));
    assert!(!ex.any_live());
    ex.reap_done_coroutines(&mut FdTables::new(), &mut PipeStore::new());
    assert_eq!(vproc::get_exit_code(&ex, a), Some(0));
    assert_eq!(vproc::get_exit_code(&ex, b), Some(134));
}

#[test]
fn reaping_closes_pipes_of_ended_processes() {
    let mut ex = Executor::new();
    let mut tables = FdTables::new();
    let mut pipes = PipeStore::new();
    let parent = ex.spawn();
    let (_, w) = get_or_create_table(&mut tables, parent).create_pipe(&mut pipes);
    let mut kids = Vec::new();
    for _ in 0..3 {
        kids.push(ex.spawn_fork_child(&mut tables, &mut pipes, parent).0);
    }
    for kid in &kids {
        ex.switched_back(*kid, true);
    }
    assert_eq!(ex.reap_done_coroutines(&mut tables, &mut pipes).coroutines.len(), 3);
    let id = pipes.ids()[0];
    assert!(pipes.get(id).unwrap().is_closed());
    assert_eq!(tables.lookup(parent, w), Some(Vfd::PipeWrite(id)));
    let (other, _) = get_or_create_table(&mut tables, parent).create_pipe(&mut pipes);
    let idle = ex.spawn();
    ex.switched_back(idle, true);
    ex.reap_done_coroutines(&mut tables, &mut pipes);
    match tables.lookup(parent, other) {
        Some(Vfd::PipeRead(id)) => assert!(!pipes.get(id).unwrap().is_closed()),
        _ => panic!("no reading end"),
    }
}

#[test]
fn pipe_poller_keeps_its_place_in_the_queue() {
    let mut ex = Executor::new();
    let a = ex.spawn();
    let b = ex.spawn();
    assert_eq!(expect_resume(ex.step_from_driver()), a);
    assert!(ex.yield_for_poll(vec![(5, 1)], true));
    ex.driver_step_done(a, false);
    let queries = ex.collect_io_waits();
    assert_eq!(queries, vec![IoQuery { pid: a, fd: 5, events: 1 }]);
    ex.wake_io_ready(&queries, &[1]);
    assert!(ex.collect_io_waits().is_empty());
    assert_eq!(expect_resume(ex.step_from_driver()), b);
    ex.driver_step_done(b, true);
    assert_eq!(expect_resume(ex.step_from_driver()), a);
    ex.driver_step_done(a, true);
    assert_eq!(ex.step_from_driver(), Step::Idle);
    assert!(!ex.yield_for_poll(vec![(5, 1)], true));
}
