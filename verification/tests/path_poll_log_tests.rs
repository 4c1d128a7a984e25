use vproc::log::{message_text, Level};
use vproc::path::resolve_path;
use vproc::pipe::{PipeStore, PIPE_CAPACITY};
use vproc::poll::{
    fd_isset, fd_set, poll_pass, poll_queries, poll_to_set, select_timeout, select_to_poll, PollFd,
    PollQuery, PollStep, POLLERR, POLLHUP, POLLIN, POLLOUT, POLLPRI,
};
use vproc::tables::{get_or_create_table, get_table, insert_file, FdTables};

#[test]
fn relative_paths_are_resolved() {
    assert_eq!(resolve_path("/home/user", "docs"), "/home/user/docs");
    assert_eq!(resolve_path("/home/user", "../x/./y//z"), "/home/x/y/z");
    assert_eq!(resolve_path("/home/user/", ""), "/home/user");
    assert_eq!(resolve_path("/", "a"), "/a");
    assert_eq!(resolve_path("/", ".."), "/");
    assert_eq!(resolve_path("", "../.."), "/");
    assert_eq!(resolve_path("/a/b", "../../../c"), "/c");
    assert_eq!(resolve_path("/a", "..x/.y"), "/a/..x/.y");
    assert_eq!(resolve_path("/a", "\u{e9}t\u{e9}"), "/a/\u{e9}t\u{e9}");
}

#[test]
fn paths_can_be_resolved_in_steps() {
    for (a, b) in [("x/y", "../z"), ("..", "..//w/."), ("../..", "v"), (".", "")] {
        let joined = format!("{}/{}", a, b);
        let there = resolve_path("/home/user", a);
        assert_eq!(resolve_path(&there, b), resolve_path("/home/user", &joined));
    }
    assert_eq!(resolve_path(&resolve_path("/home/user", "x/y"), "../z"), "/home/user/x/z");
}

#[test]
fn absolute_paths_are_kept() {
    assert_eq!(resolve_path("/home", "/tmp/../etc"), "/tmp/../etc");
    assert_eq!(resolve_path("/home", "/"), "/");
    let once = resolve_path("/home", "a/../b");
    assert_eq!(resolve_path("/other", &once), once);
}

#[test]
fn log_messages() {
    assert_eq!(Level::Debug.priority(), 3);
    assert_eq!(Level::Error.priority(), 6);
    assert_eq!(message_text("plain"), "plain");
    assert_eq!(message_text("a\0b\0"), "a?b?");
    assert_eq!(message_text(""), "");
}

#[test]
fn poll_flags_are_those_of_the_system() {
    assert_eq!(POLLIN, libc::POLLIN);
    assert_eq!(POLLPRI, libc::POLLPRI);
    assert_eq!(POLLOUT, libc::POLLOUT);
    assert_eq!(POLLERR, libc::POLLERR);
    assert_eq!(POLLHUP, libc::POLLHUP);
}

fn asked(fd: i32, events: i16) -> PollFd {
    PollFd { fd, events, revents: 77 }
}

#[test]
fn pipes_are_polled_here_and_the_rest_by_the_kernel() {
    let mut all = FdTables::new();
    let mut pipes = PipeStore::new();
    let (r, w) = get_or_create_table(&mut all, 1).create_pipe(&mut pipes);
    let file = insert_file(&mut all, &mut pipes, 1, 40, false);
    let fds = [
        asked(r as i32, POLLIN),
        asked(w as i32, POLLOUT),
        asked(w as i32, POLLIN),
        asked(0, POLLIN),
        asked(file as i32, POLLIN),
        asked(99, POLLOUT),
    ];
    assert_eq!(
        poll_queries(&all, &pipes, 1, &fds),
        vec![
            PollQuery::Answer(0),
            PollQuery::Answer(POLLOUT),
            PollQuery::Answer(0),
            PollQuery::Ask(0),
            PollQuery::Ask(40),
            PollQuery::Ask(99),
        ]
    );
    let id = pipes.ids()[0];
    assert_eq!(pipes.write_to(id, &vec![1u8; PIPE_CAPACITY]), PIPE_CAPACITY as isize);
    assert_eq!(
        poll_queries(&all, &pipes, 1, &fds[..2]),
        vec![PollQuery::Answer(POLLIN), PollQuery::Answer(0)]
    );
    pipes.close(id);
    assert_eq!(
        poll_queries(&all, &pipes, 1, &fds[..2]),
        vec![PollQuery::Answer(POLLIN | POLLHUP), PollQuery::Answer(POLLERR)]
    );
    get_table(&mut all, 1).unwrap().close(&mut pipes, r).unwrap();
    assert_eq!(poll_queries(&all, &pipes, 1, &fds[..1]), vec![PollQuery::Ask(r as i32)]);
}

#[test]
fn poll_tells_which_end_of_a_pipe_is_gone() {
    let mut all = FdTables::new();
    let mut pipes = PipeStore::new();
    let (r, w) = get_or_create_table(&mut all, 1).create_pipe(&mut pipes);
    let (r2, w2) = get_or_create_table(&mut all, 1).create_pipe(&mut pipes);
    let table = get_table(&mut all, 1).unwrap();
    table.close(&mut pipes, w).unwrap();
    table.close(&mut pipes, r2).unwrap();
    let fds = [asked(r as i32, POLLIN), asked(w2 as i32, POLLOUT)];
    assert_eq!(
        poll_queries(&all, &pipes, 1, &fds),
        vec![PollQuery::Answer(POLLIN | POLLHUP), PollQuery::Answer(POLLOUT | POLLERR)]
    );
}

#[test]
fn poll_reports_what_is_ready() {
    let mut fds = vec![asked(3, POLLIN), asked(4, POLLOUT), asked(5, POLLIN)];
    let queries = vec![PollQuery::Answer(0), PollQuery::Ask(14), PollQuery::Ask(15)];
    let replies = vec![None, Some(POLLOUT), None];
    match poll_pass(&mut fds, &queries, &replies, -1) {
        PollStep::Return(n) => assert_eq!(n, 1),
        _ => panic!("one was ready"),
    }
    let revents: Vec<i16> = fds.iter().map(|p| p.revents).collect();
    assert_eq!(revents, vec![0, POLLOUT, 0]);
}

#[test]
fn poll_waits_unless_the_timeout_is_zero() {
    let mut fds = vec![asked(3, POLLIN), asked(4, POLLOUT)];
    let queries = vec![PollQuery::Ask(13), PollQuery::Ask(14)];
    let replies = vec![None, None];
    match poll_pass(&mut fds, &queries, &replies, 100) {
        PollStep::Return(_) => panic!("the kernel is to be waited for"),
        PollStep::Wait(w, polls_pipes) => {
            assert_eq!(w, vec![(13, POLLIN), (14, POLLOUT)]);
            assert!(!polls_pipes);
        }
    }
    match poll_pass(&mut fds, &queries, &replies, 0) {
        PollStep::Return(n) => assert_eq!(n, 0),
        _ => panic!("timeout is zero"),
    }
}

#[test]
fn poll_of_an_empty_pipe_still_waits_for_the_kernel() {
    let mut fds = vec![asked(3, POLLIN), asked(4, POLLIN)];
    let queries = vec![PollQuery::Answer(0), PollQuery::Ask(14)];
    match poll_pass(&mut fds, &queries, &vec![None, None], -1) {
        PollStep::Return(_) => panic!("nothing is ready"),
        PollStep::Wait(w, polls_pipes) => {
            assert_eq!(w, vec![(14, POLLIN)]);
            assert!(polls_pipes);
        }
    }
    let mut pipe_only = vec![asked(3, POLLIN)];
    match poll_pass(&mut pipe_only, &vec![PollQuery::Answer(0)], &vec![None], 5) {
        PollStep::Return(_) => panic!("nothing is ready"),
        PollStep::Wait(w, polls_pipes) => assert!(w.is_empty() && polls_pipes),
    }
}

#[test]
fn select_timeouts() {
    assert_eq!(select_timeout(None), -1);
    assert_eq!(select_timeout(Some((2, 500_999))), 2500);
    assert_eq!(select_timeout(Some((0, 999))), 0);
    assert_eq!(select_timeout(Some((1, -1999))), 999);
}

#[test]
fn descriptor_sets() {
    let mut set = vec![0u32; 32];
    fd_set(0, &mut set);
    fd_set(33, &mut set);
    fd_set(1023, &mut set);
    assert_eq!(set[0], 1);
    assert_eq!(set[1], 2);
    assert_eq!(set[31], 0x8000_0000);
    assert!(fd_isset(33, &set));
    assert!(!fd_isset(32, &set));
}

#[test]
fn select_goes_through_poll_and_back() {
    let mut read = vec![0u32; 32];
    let mut write = vec![0u32; 32];
    fd_set(1, &mut read);
    fd_set(40, &mut read);
    fd_set(40, &mut write);
    fd_set(50, &mut write);
    let fds = select_to_poll(41, Some(&read), Some(&write), None);
    assert_eq!(
        fds,
        vec![
            PollFd { fd: 1, events: POLLIN, revents: 0 },
            PollFd { fd: 40, events: POLLIN | POLLOUT, revents: 0 },
        ]
    );
    assert!(select_to_poll(-1, Some(&read), None, Some(&write)).is_empty());
    assert_eq!(select_to_poll(5000, None, None, Some(&write))[1].events, POLLPRI);
    let reported = [
        PollFd { fd: 1, events: POLLIN, revents: POLLIN },
        PollFd { fd: 40, events: POLLIN | POLLOUT, revents: POLLOUT },
    ];
    assert_eq!(poll_to_set(2, &reported, POLLIN)[0], 2);
    assert_eq!(poll_to_set(2, &reported, POLLIN)[1], 0);
    assert_eq!(poll_to_set(2, &reported, POLLOUT)[1], 1 << 8);
    assert_eq!(poll_to_set(0, &reported, POLLIN), vec![0u32; 32]);
}
