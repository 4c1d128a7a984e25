//! Waiting for descriptors: `poll` and `select`.
//!
//! The state of virtual pipes is known here; the kernel is asked from outside
//! about all other descriptors.

use crate::pipe::{PipeStore, PipeView};
use crate::tables::{lookup_vfd, FdTables, FdTablesView};
use crate::vfd::Vfd;
use vstd::prelude::*;

verus! {

/// Data can be read.
pub const POLLIN: i16 = 1;

/// There is urgent data.
pub const POLLPRI: i16 = 2;

/// Data can be written.
pub const POLLOUT: i16 = 4;

/// Error.
pub const POLLERR: i16 = 8;

/// The other end was closed.
pub const POLLHUP: i16 = 16;

/// Number of descriptors that a descriptor set of `select` can hold.
pub const FD_SETSIZE: i32 = 1024;

/// Number of words of a descriptor set.
pub const FD_SET_WORDS: usize = 32;

/// A descriptor to be polled.
#[derive(Debug, Clone, Copy, PartialEq, Eq, Structural)]
pub struct PollFd {
    pub fd: i32,
    pub events: i16,
    pub revents: i16,
}

/// What is known of a descriptor.
#[derive(Debug, Clone, Copy, PartialEq, Eq, Structural)]
pub enum PollQuery {
    /// What to report of it.
    Answer(i16),
    /// The kernel is to be asked about this descriptor.
    Ask(i32),
}

/// What polling leads to.
pub enum PollStep {
    /// Report this number of descriptors.
    Return(i32),
    /// Wait for one of these kernel descriptors, then poll again; whether virtual
    /// pipes were polled besides, which only other processes change.
    Wait(Vec<(i32, i16)>, bool),
}

/// Whether one of the bits of `flag` is set.
pub open spec fn asks(events: i16, flag: i16) -> bool {
    events & flag != 0
}

/// What is reported of the reading end of a pipe.
pub open spec fn read_end_revents(events: i16, pipe: PipeView) -> i16 {
    if asks(events, POLLIN) && (pipe.data.len() > 0 || pipe.ended()) {
        if pipe.ended() {
            (POLLIN + POLLHUP) as i16
        } else {
            POLLIN
        }
    } else {
        0
    }
}

/// What is reported of the writing end of a pipe.
pub open spec fn write_end_revents(events: i16, pipe: PipeView) -> i16 {
    if asks(events, POLLOUT) {
        ((if pipe.data.len() < crate::pipe::PIPE_CAPACITY {
            POLLOUT as int
        } else {
            0
        }) + (if pipe.broken() {
            POLLERR as int
        } else {
            0
        })) as i16
    } else {
        0
    }
}

/// What is known of descriptor `fd` of process `vpid`. A number that is not in
/// use is passed to the kernel as it is.
pub open spec fn query_of(
    all: FdTablesView,
    pipes: Map<u64, PipeView>,
    vpid: u32,
    pfd: PollFd,
) -> PollQuery {
    match lookup_vfd(all, vpid, pfd.fd as u32) {
        Some(Vfd::PipeRead(id)) => PollQuery::Answer(
            if pipes.contains_key(id) {
                read_end_revents(pfd.events, pipes[id])
            } else {
                0
            },
        ),
        Some(Vfd::PipeWrite(id)) => PollQuery::Answer(
            if pipes.contains_key(id) {
                write_end_revents(pfd.events, pipes[id])
            } else {
                0
            },
        ),
        Some(Vfd::Real(fd)) => PollQuery::Ask(fd),
        Some(Vfd::File(file)) => PollQuery::Ask(file.real_fd),
        None => PollQuery::Ask(pfd.fd),
    }
}

/// Works out what is known of each descriptor.
pub fn poll_queries(all: &FdTables, pipes: &PipeStore, vpid: u32, fds: &[PollFd]) -> (queries: Vec<
    PollQuery,
>)
    requires
        pipes.wf(),
    ensures
        queries@ == fds@.map_values(|pfd: PollFd| query_of(all@, pipes@, vpid, pfd)),
{
    let mut queries: Vec<PollQuery> = Vec::new();
    let mut i: usize = 0;
    while i < fds.len()
        invariant
            i <= fds@.len(),
            pipes.wf(),
            queries@.len() == i,
            forall|k: int|
                0 <= k < i ==> #[trigger] queries@[k] == query_of(all@, pipes@, vpid, fds@[k]),
        decreases fds.len() - i,
    {
        let pfd: PollFd = fds[i];
        let query = match all.lookup(vpid, pfd.fd as u32) {
            Some(Vfd::PipeRead(id)) => {
                let mut revents: i16 = 0;
                if let Some(pipe) = pipes.get(id) {
                    if pfd.events & POLLIN != 0 {
                        if !pipe.is_empty() || pipe.is_ended() {
                            revents = revents + POLLIN;
                            if pipe.is_ended() {
                                revents = revents + POLLHUP;
                            }
                        }
                    }
                }
                PollQuery::Answer(revents)
            },
            Some(Vfd::PipeWrite(id)) => {
                let mut revents: i16 = 0;
                if let Some(pipe) = pipes.get(id) {
                    proof {
                        crate::pipe::law_pipe_capacity(*pipe);
                    }
                    if pfd.events & POLLOUT != 0 {
                        if !pipe.is_full() {
                            revents = revents + POLLOUT;
                        }
                        if pipe.is_broken() {
                            revents = revents + POLLERR;
                        }
                    }
                }
                PollQuery::Answer(revents)
            },
            Some(Vfd::Real(fd)) => PollQuery::Ask(fd),
            Some(Vfd::File(file)) => PollQuery::Ask(file.real_fd),
            None => PollQuery::Ask(pfd.fd),
        };
        queries.push(query);
        i = i + 1;
    }
    assert(queries@ =~= fds@.map_values(|pfd: PollFd| query_of(all@, pipes@, vpid, pfd)));
    queries
}

/// What is reported of a descriptor, given what the kernel said: nothing
/// (`None`), or what is ready.
pub open spec fn revents_of(query: PollQuery, reply: Option<i16>) -> i16 {
    match query {
        PollQuery::Answer(revents) => revents,
        PollQuery::Ask(_) => match reply {
            Some(revents) => revents,
            None => 0,
        },
    }
}

/// The descriptors with what is reported of them.
pub open spec fn reported(
    fds: Seq<PollFd>,
    queries: Seq<PollQuery>,
    replies: Seq<Option<i16>>,
) -> Seq<PollFd> {
    Seq::new(
        fds.len(),
        |i: int| PollFd { revents: revents_of(queries[i], replies[i]), ..fds[i] },
    )
}

/// The number of descriptors of which something is reported.
pub open spec fn ready_count(fds: Seq<PollFd>) -> int
    decreases fds.len(),
{
    if fds.len() == 0 {
        0
    } else {
        ready_count(fds.drop_last()) + (if fds.last().revents != 0 {
            1int
        } else {
            0
        })
    }
}

/// The first `n` descriptors that the kernel was asked about without success.
pub open spec fn unready(
    fds: Seq<PollFd>,
    queries: Seq<PollQuery>,
    replies: Seq<Option<i16>>,
    n: int,
) -> Seq<(i32, i16)>
    decreases n,
{
    if n <= 0 {
        Seq::empty()
    } else {
        let before = unready(fds, queries, replies, n - 1);
        match queries[n - 1] {
            PollQuery::Ask(fd) => if replies[n - 1] is None {
                before.push((fd, fds[n - 1].events))
            } else {
                before
            },
            PollQuery::Answer(_) => before,
        }
    }
}

/// All of `queries` are for the kernel.
pub open spec fn all_asked(queries: Seq<PollQuery>) -> bool {
    forall|i: int| 0 <= i < queries.len() ==> #[trigger] queries[i] is Ask
}

/// One pass of `poll`: fills in what is reported of each descriptor, and decides
/// whether to return. Where nothing is ready, a timeout of 0 returns, and any
/// other waits for the kernel descriptors, virtual pipes or not.
pub fn poll_pass(
    fds: &mut Vec<PollFd>,
    queries: &Vec<PollQuery>,
    replies: &Vec<Option<i16>>,
    timeout: i32,
) -> (step: PollStep)
    requires
        old(fds)@.len() == queries@.len(),
        old(fds)@.len() == replies@.len(),
        old(fds)@.len() <= i32::MAX,
    ensures
        final(fds)@ == reported(old(fds)@, queries@, replies@),
        step matches PollStep::Return(n) ==> n == Set::new(
            |i: int| 0 <= i < final(fds)@.len() && final(fds)@[i].revents != 0,
        ).len(),
        ({
            let count = ready_count(reported(old(fds)@, queries@, replies@));
            match step {
                PollStep::Return(n) => n == count && (count > 0 || timeout == 0),
                PollStep::Wait(fds_to_wait, polls_pipes) => {
                    &&& count == 0
                    &&& timeout != 0
                    &&& polls_pipes == !all_asked(queries@)
                    &&& fds_to_wait@ == unready(
                        old(fds)@,
                        queries@,
                        replies@,
                        old(fds)@.len() as int,
                    )
                },
            }
        }),
{
    let mut count: i32 = 0;
    let mut polls_pipes = false;
    let mut wait: Vec<(i32, i16)> = Vec::new();
    let ghost start = fds@;
    let ghost all = reported(start, queries@, replies@);
    let mut i: usize = 0;
    assert(all.take(0) =~= Seq::<PollFd>::empty());
    while i < fds.len()
        invariant
            i <= fds@.len(),
            start == old(fds)@,
            fds@.len() == start.len(),
            start.len() == queries@.len(),
            start.len() == replies@.len(),
            start.len() <= i32::MAX,
            all == reported(start, queries@, replies@),
            forall|k: int| 0 <= k < i ==> #[trigger] fds@[k] == all[k],
            forall|k: int| i <= k < fds@.len() ==> #[trigger] fds@[k] == start[k],
            count == ready_count(all.take(i as int)),
            0 <= count <= i,
            wait@ == unready(start, queries@, replies@, i as int),
            !polls_pipes ==> forall|k: int| 0 <= k < i ==> #[trigger] queries@[k] is Ask,
            polls_pipes ==> !all_asked(queries@),
        decreases fds.len() - i,
    {
        assert(all.take(i + 1).drop_last() =~= all.take(i as int));
        let pfd: PollFd = fds[i];
        let mut revents: i16 = 0;
        match queries[i] {
            PollQuery::Answer(known) => {
                revents = known;
                polls_pipes = true;
                assert(!(queries@[i as int] is Ask));
            },
            PollQuery::Ask(fd) => match replies[i] {
                Some(reply) => {
                    revents = reply;
                },
                None => {
                    wait.push((fd, pfd.events));
                },
            },
        }
        fds[i] = PollFd { fd: pfd.fd, events: pfd.events, revents };
        if revents != 0 {
            count = count + 1;
        }
        i = i + 1;
    }
    assert(all.take(i as int) =~= all);
    assert(fds@ =~= all);
    proof {
        law_poll_counts(fds@);
    }
    if count > 0 || timeout == 0 {
        return PollStep::Return(count);
    }
    PollStep::Wait(wait, polls_pipes)
}

/// `poll` never misses a pipe that can be read: a reading end that has data, or
/// is at the end of its stream, is reported when it is asked for.
pub proof fn law_poll_reports_readable(events: i16, pipe: PipeView)
    requires
        asks(events, POLLIN),
    ensures
        (read_end_revents(events, pipe) != 0) == (pipe.read_result(1) >= 0),
{
}

/// `poll` tells that a writing end can be written to exactly when a write would
/// be accepted, except that a pipe without readers that is not full is reported
/// with an error besides.
pub proof fn law_poll_reports_writable(events: i16, pipe: PipeView)
    requires
        asks(events, POLLOUT),
        pipe.data.len() <= crate::pipe::PIPE_CAPACITY,
    ensures
        !pipe.broken() ==> (write_end_revents(events, pipe) == POLLOUT) == (pipe.write_result(1)
            >= 0),
        !pipe.broken() ==> write_end_revents(events, pipe) == POLLOUT || write_end_revents(
            events,
            pipe,
        ) == 0,
        pipe.broken() ==> write_end_revents(events, pipe) >= POLLERR,
{
}

/// The timeout of `select` in milliseconds, as `poll` takes it.
pub open spec fn timeout_of(timeout: Option<(i64, i64)>) -> i32 {
    match timeout {
        None => -1i32,
        Some((sec, usec)) => (sec * 1000 + usec_to_ms(usec as int)) as i32,
    }
}

/// Microseconds as milliseconds, rounded towards zero.
pub open spec fn usec_to_ms(usec: int) -> int {
    if usec >= 0 {
        usec / 1000
    } else {
        -((-usec) / 1000)
    }
}

/// Converts the timeout of `select`: seconds and microseconds, or none.
pub fn select_timeout(timeout: Option<(i64, i64)>) -> (ms: i32)
    requires
        timeout matches Some((sec, usec)) ==> i64::MIN <= sec * 1000 <= i64::MAX && i64::MIN <= sec
            * 1000 + usec_to_ms(usec as int) <= i64::MAX,
    ensures
        ms == timeout_of(timeout),
{
    match timeout {
        None => -1,
        Some((sec, usec)) => {
            let part: i64 = if usec >= 0 {
                (usec as u64 / 1000) as i64
            } else {
                -((((-(usec + 1)) as u64 + 1) / 1000) as i64)
            };
            (sec * 1000 + part) as i32
        },
    }
}

/// Whether descriptor `fd` is in a set.
pub open spec fn in_set(set: Seq<u32>, fd: int) -> bool {
    set[fd / 32] & (1u32 << ((fd % 32) as u32)) != 0
}

/// Whether descriptor `fd` is in a set.
pub fn fd_isset(fd: i32, set: &[u32]) -> (yes: bool)
    requires
        0 <= fd < FD_SETSIZE,
        set@.len() == FD_SET_WORDS,
    ensures
        yes == in_set(set@, fd as int),
{
    let n: u32 = fd as u32;
    set[(n / 32) as usize] & (1u32 << (n % 32)) != 0
}

/// Puts descriptor `fd` into a set.
pub fn fd_set(fd: i32, set: &mut Vec<u32>)
    requires
        0 <= fd < FD_SETSIZE,
        old(set)@.len() == FD_SET_WORDS,
    ensures
        final(set)@.len() == FD_SET_WORDS,
        forall|other: int|
            0 <= other < FD_SETSIZE ==> (#[trigger] in_set(final(set)@, other) <==> in_set(
                old(set)@,
                other,
            ) || other == fd),
{
    let n: u32 = fd as u32;
    let index: usize = (n / 32) as usize;
    let bit: u32 = n % 32;
    let before: u32 = set[index];
    set[index] = before | (1u32 << bit);
    proof {
        assert forall|other: int| 0 <= other < FD_SETSIZE implies (#[trigger] in_set(set@, other)
            <==> in_set(old(set)@, other) || other == fd) by {
            if other / 32 == index {
                lemma_set_bit(before, bit, (other % 32) as u32);
            }
        }
    }
}

proof fn lemma_set_bit(word: u32, bit: u32, other: u32)
    requires
        bit < 32,
        other < 32,
    ensures
        ((word | (1u32 << bit)) & (1u32 << other) != 0) <==> (word & (1u32 << other) != 0 || bit
            == other),
{
    assert(((word | (1u32 << bit)) & (1u32 << other) != 0) <==> (word & (1u32 << other) != 0 || bit
        == other)) by (bit_vector)
        requires
            bit < 32,
            other < 32,
    ;
}

/// The descriptor is in the set, where there is one.
pub open spec fn in_opt_set(set: Option<Seq<u32>>, fd: int) -> bool {
    set matches Some(s) && in_set(s, fd)
}

/// What `select` asks about descriptor `fd`.
pub open spec fn select_events(
    read: Option<Seq<u32>>,
    write: Option<Seq<u32>>,
    except: Option<Seq<u32>>,
    fd: int,
) -> i16 {
    ((if in_opt_set(read, fd) {
        POLLIN as int
    } else {
        0
    }) + (if in_opt_set(write, fd) {
        POLLOUT as int
    } else {
        0
    }) + (if in_opt_set(except, fd) {
        POLLPRI as int
    } else {
        0
    })) as i16
}

/// The descriptors below `n` that are in one of the sets, in ascending order.
pub open spec fn select_fds(
    read: Option<Seq<u32>>,
    write: Option<Seq<u32>>,
    except: Option<Seq<u32>>,
    n: int,
) -> Seq<PollFd>
    decreases n,
{
    if n <= 0 {
        Seq::empty()
    } else {
        let before = select_fds(read, write, except, n - 1);
        let events = select_events(read, write, except, n - 1);
        if events != 0 {
            before.push(PollFd { fd: (n - 1) as i32, events, revents: 0 })
        } else {
            before
        }
    }
}

/// The words of a set, where there is one.
pub open spec fn opt_view(set: Option<&[u32]>) -> Option<Seq<u32>> {
    match set {
        Some(s) => Some(s@),
        None => None,
    }
}

fn isset_opt(fd: i32, set: Option<&[u32]>) -> (yes: bool)
    requires
        0 <= fd < FD_SETSIZE,
        set matches Some(s) ==> s@.len() == FD_SET_WORDS,
    ensures
        yes == in_opt_set(opt_view(set), fd as int),
{
    match set {
        Some(s) => fd_isset(fd, s),
        None => false,
    }
}

/// The descriptors that `select` asks about, as `poll` takes them.
pub fn select_to_poll(
    nfds: i32,
    read: Option<&[u32]>,
    write: Option<&[u32]>,
    except: Option<&[u32]>,
) -> (fds: Vec<PollFd>)
    requires
        read matches Some(s) ==> s@.len() == FD_SET_WORDS,
        write matches Some(s) ==> s@.len() == FD_SET_WORDS,
        except matches Some(s) ==> s@.len() == FD_SET_WORDS,
    ensures
        fds@ == select_fds(
            opt_view(read),
            opt_view(write),
            opt_view(except),
            if nfds < FD_SETSIZE {
                nfds as int
            } else {
                FD_SETSIZE as int
            },
        ),
        forall|i: int| 0 <= i < fds@.len() ==> 0 <= (#[trigger] fds@[i]).fd < FD_SETSIZE,
{
    let mut fds: Vec<PollFd> = Vec::new();
    let max: i32 = if nfds < FD_SETSIZE {
        nfds
    } else {
        FD_SETSIZE
    };
    let mut fd: i32 = 0;
    while fd < max
        invariant
            0 <= fd,
            max >= 0 ==> fd <= max,
            max < 0 ==> fd == 0,
            max <= FD_SETSIZE,
            read matches Some(s) ==> s@.len() == FD_SET_WORDS,
            write matches Some(s) ==> s@.len() == FD_SET_WORDS,
            except matches Some(s) ==> s@.len() == FD_SET_WORDS,
            fds@ == select_fds(opt_view(read), opt_view(write), opt_view(except), fd as int),
            forall|i: int| 0 <= i < fds@.len() ==> 0 <= (#[trigger] fds@[i]).fd < FD_SETSIZE,
        decreases max - fd,
    {
        let mut events: i16 = 0;
        if isset_opt(fd, read) {
            events = events + POLLIN;
        }
        if isset_opt(fd, write) {
            events = events + POLLOUT;
        }
        if isset_opt(fd, except) {
            events = events + POLLPRI;
        }
        if events != 0 {
            fds.push(PollFd { fd, events, revents: 0 });
        }
        fd = fd + 1;
    }
    fds
}

/// Descriptor `fd` is reported with `flag`.
pub open spec fn reported_with(fds: Seq<PollFd>, flag: i16, fd: int) -> bool {
    exists|i: int|
        0 <= i < fds.len() && (#[trigger] fds[i]).fd == fd && asks(fds[i].revents, flag)
}

/// The set that `select` returns: the descriptors that `poll` reported with
/// `flag`, where it reported any (`ret`).
pub fn poll_to_set(ret: i32, fds: &[PollFd], flag: i16) -> (set: Vec<u32>)
    requires
        forall|i: int| 0 <= i < fds@.len() ==> 0 <= (#[trigger] fds@[i]).fd < FD_SETSIZE,
    ensures
        set@.len() == FD_SET_WORDS,
        forall|fd: int|
            0 <= fd < FD_SETSIZE ==> (#[trigger] in_set(set@, fd) <==> ret > 0 && reported_with(
                fds@,
                flag,
                fd,
            )),
{
    let mut set: Vec<u32> = Vec::new();
    set.resize(FD_SET_WORDS, 0);
    proof {
        assert forall|fd: int| 0 <= fd < FD_SETSIZE implies !(#[trigger] in_set(set@, fd)) by {
            let mask = 1u32 << ((fd % 32) as u32);
            assert(0u32 & mask == 0) by (bit_vector);
        }
    }
    if ret > 0 {
        let mut i: usize = 0;
        while i < fds.len()
            invariant
                i <= fds@.len(),
                set@.len() == FD_SET_WORDS,
                forall|k: int| 0 <= k < fds@.len() ==> 0 <= (#[trigger] fds@[k]).fd < FD_SETSIZE,
                forall|fd: int|
                    0 <= fd < FD_SETSIZE ==> (#[trigger] in_set(set@, fd) <==> reported_with(
                        fds@.take(i as int),
                        flag,
                        fd,
                    )),
            decreases fds.len() - i,
        {
            let ghost before = set@;
            let pfd: PollFd = fds[i];
            if pfd.revents & flag != 0 {
                fd_set(pfd.fd, &mut set);
            }
            proof {
                let a = fds@.take(i as int);
                let b = fds@.take(i + 1);
                assert forall|fd: int| 0 <= fd < FD_SETSIZE implies (#[trigger] in_set(set@, fd)
                    <==> reported_with(b, flag, fd)) by {
                    assert(in_set(before, fd) <==> reported_with(a, flag, fd));
                    if reported_with(a, flag, fd) {
                        let k = choose|k: int|
                            0 <= k < a.len() && (#[trigger] a[k]).fd == fd && asks(
                                a[k].revents,
                                flag,
                            );
                        assert(b[k] == a[k]);
                    }
                    if reported_with(b, flag, fd) {
                        let k = choose|k: int|
                            0 <= k < b.len() && (#[trigger] b[k]).fd == fd && asks(
                                b[k].revents,
                                flag,
                            );
                        if k < i {
                            assert(a[k] == b[k]);
                        }
                    }
                    assert(b[i as int] == pfd);
                }
            }
            i = i + 1;
        }
        assert(fds@.take(i as int) =~= fds@);
    }
    set
}

/// What `poll` returns is how many descriptors it reports something of: the number
/// of places in the list with something in `revents`. It is the whole length
/// exactly when something is reported of all, and 0 exactly when of none.
pub proof fn law_poll_counts(fds: Seq<PollFd>)
    ensures
        ({
            let places = Set::new(|i: int| 0 <= i < fds.len() && fds[i].revents != 0);
            places.finite() && places.len() == ready_count(fds)
        }),
        ready_count(fds) == fds.len() <==> forall|i: int|
            0 <= i < fds.len() ==> (#[trigger] fds[i]).revents != 0,
        ready_count(fds) == 0 <==> forall|i: int|
            0 <= i < fds.len() ==> (#[trigger] fds[i]).revents == 0,
        0 <= ready_count(fds) <= fds.len(),
    decreases fds.len(),
{
    let places = Set::new(|i: int| 0 <= i < fds.len() && fds[i].revents != 0);
    if fds.len() == 0 {
        assert(places =~= Set::empty());
    } else {
        let some = fds.drop_last();
        law_poll_counts(some);
        let before = Set::new(|i: int| 0 <= i < some.len() && some[i].revents != 0);
        let last = fds.len() - 1;
        assert(fds[last] == fds.last());
        assert forall|i: int| 0 <= i < some.len() implies #[trigger] some[i] == fds[i] by {}
        if fds.last().revents != 0 {
            assert(places =~= before.insert(last));
        } else {
            assert(places =~= before);
        }
        if forall|i: int| 0 <= i < fds.len() ==> (#[trigger] fds[i]).revents != 0 {
            assert forall|i: int| 0 <= i < some.len() implies (#[trigger] some[i]).revents != 0 by {
                assert(fds[i].revents != 0);
            }
        }
        if forall|i: int| 0 <= i < fds.len() ==> (#[trigger] fds[i]).revents == 0 {
            assert forall|i: int| 0 <= i < some.len() implies (#[trigger] some[i]).revents == 0 by {
                assert(fds[i].revents == 0);
            }
        }
        if ready_count(fds) == fds.len() {
            assert forall|i: int| 0 <= i < fds.len() implies (#[trigger] fds[i]).revents != 0 by {
                if i < last {
                    assert(some[i].revents != 0);
                }
            }
        }
        if ready_count(fds) == 0 {
            assert forall|i: int| 0 <= i < fds.len() implies (#[trigger] fds[i]).revents == 0 by {
                if i < last {
                    assert(some[i].revents == 0);
                }
            }
        }
    }
}

/// Each descriptor keeps its number and what it is asked about. What is reported of
/// a virtual pipe is what is known of it; of any other descriptor it is what the
/// kernel said, and nothing where the kernel said nothing.
pub proof fn law_poll_reports_each(
    fds: Seq<PollFd>,
    queries: Seq<PollQuery>,
    replies: Seq<Option<i16>>,
    i: int,
)
    requires
        0 <= i < fds.len(),
    ensures
        reported(fds, queries, replies).len() == fds.len(),
        reported(fds, queries, replies)[i].fd == fds[i].fd,
        reported(fds, queries, replies)[i].events == fds[i].events,
        queries[i] matches PollQuery::Answer(known) ==> reported(fds, queries, replies)[i].revents
            == known,
        queries[i] is Ask && replies[i] is None ==> reported(fds, queries, replies)[i].revents == 0,
        queries[i] is Ask && replies[i] is Some ==> reported(fds, queries, replies)[i].revents
            == replies[i]->0,
{
}

/// The kernel descriptors that are waited for are all those that the kernel was
/// asked about without an answer, each with its events, in the order of the list.
pub proof fn law_poll_waits_for_all(
    fds: Seq<PollFd>,
    queries: Seq<PollQuery>,
    replies: Seq<Option<i16>>,
    n: int,
)
    requires
        0 <= n <= fds.len(),
    ensures
        unready(fds, queries, replies, n) == Seq::new(n as nat, |i: int| i).filter(
            |i: int| queries[i] is Ask && replies[i] is None,
        ).map_values(|i: int| (queries[i]->Ask_0, fds[i].events)),
        forall|i: int|
            0 <= i < n && (#[trigger] queries[i]) is Ask && replies[i] is None ==> unready(
                fds,
                queries,
                replies,
                n,
            ).contains((queries[i]->Ask_0, fds[i].events)),
    decreases n,
{
    reveal(Seq::filter);
    let all = Seq::new(n as nat, |i: int| i);
    let pred = |i: int| queries[i] is Ask && replies[i] is None;
    let pair = |i: int| (queries[i]->Ask_0, fds[i].events);
    let out = unready(fds, queries, replies, n);
    if n > 0 {
        law_poll_waits_for_all(fds, queries, replies, n - 1);
        let before = Seq::new((n - 1) as nat, |i: int| i);
        assert(all.drop_last() =~= before);
        let kept = before.filter(pred);
        if pred(n - 1) {
            assert(kept.push(n - 1).map_values(pair) =~= kept.map_values(pair).push(pair(n - 1)));
        }
        assert(out =~= all.filter(pred).map_values(pair));
        assert forall|i: int| 0 <= i < n && (#[trigger] queries[i]) is Ask && replies[i]
            is None implies out.contains((queries[i]->Ask_0, fds[i].events)) by {
            let entry = (queries[i]->Ask_0, fds[i].events);
            if i < n - 1 {
                let rest = unready(fds, queries, replies, n - 1);
                assert(rest.contains(entry));
                let k = choose|k: int| 0 <= k < rest.len() && rest[k] == entry;
                assert(out[k] == entry);
            } else {
                assert(out.last() == entry);
            }
        }
    } else {
        assert(out =~= all.filter(pred).map_values(pair));
    }
}

/// What is reported of a virtual pipe: of a reading end that is asked for input, 1
/// where there is data, and 16 besides at the end of the stream, with data or
/// without; of a writing end that is asked for output, 4 where there is room, and 8
/// where nobody is left to read. What is not asked for is not reported.
pub proof fn law_pipe_revents(events: i16, pipe: PipeView)
    ensures
        ({
            let over = pipe.closed || pipe.writers == 0;
            let broken = pipe.closed || pipe.readers == 0;
            &&& events & 1 == 0 ==> read_end_revents(events, pipe) == 0
            &&& events & 1 != 0 && over ==> read_end_revents(events, pipe) == 17
            &&& events & 1 != 0 && !over && pipe.data.len() > 0 ==> read_end_revents(events, pipe)
                == 1
            &&& events & 1 != 0 && !over && pipe.data.len() == 0 ==> read_end_revents(events, pipe)
                == 0
            &&& events & 4 == 0 ==> write_end_revents(events, pipe) == 0
            &&& events & 4 != 0 && pipe.data.len() < 65536 && !broken ==> write_end_revents(
                events,
                pipe,
            ) == 4
            &&& events & 4 != 0 && pipe.data.len() < 65536 && broken ==> write_end_revents(
                events,
                pipe,
            ) == 12
            &&& events & 4 != 0 && pipe.data.len() >= 65536 && !broken ==> write_end_revents(
                events,
                pipe,
            ) == 0
            &&& events & 4 != 0 && pipe.data.len() >= 65536 && broken ==> write_end_revents(
                events,
                pipe,
            ) == 8
        }),
{
}

/// Each descriptor is asked about where it leads: an end of a pipe is answered from
/// that pipe, a descriptor that passes through or of a file is asked of the kernel
/// under its kernel number, and a number that is not in use under itself.
pub proof fn law_poll_follows_descriptors(
    all: FdTablesView,
    pipes: Map<u64, PipeView>,
    vpid: u32,
    pfd: PollFd,
    id: u64,
)
    ensures
        ({
            let table = if all.tables.contains_key(vpid) {
                all.tables[vpid].fds
            } else {
                Map::empty()
            };
            let n = pfd.fd as u32;
            let query = query_of(all, pipes, vpid, pfd);
            &&& !table.contains_key(n) ==> query == PollQuery::Ask(pfd.fd)
            &&& table.contains_key(n) && table[n] is Real ==> query == PollQuery::Ask(
                table[n]->Real_0,
            )
            &&& table.contains_key(n) && table[n] is File ==> query == PollQuery::Ask(
                table[n]->File_0.real_fd,
            )
            &&& table.contains_key(n) && table[n] == Vfd::PipeRead(id) && pipes.contains_key(id)
                ==> query == PollQuery::Answer(read_end_revents(pfd.events, pipes[id]))
            &&& table.contains_key(n) && table[n] == Vfd::PipeWrite(id) && pipes.contains_key(id)
                ==> query == PollQuery::Answer(write_end_revents(pfd.events, pipes[id]))
        }),
{
}

/// The timeout of `select` in milliseconds: none waits for ever, and seconds and
/// microseconds are added up, parts of a millisecond dropped.
pub proof fn law_select_timeout(sec: i64, usec: i64)
    requires
        0 <= sec,
        0 <= usec,
        sec * 1000 + usec / 1000 <= i32::MAX,
    ensures
        timeout_of(None) == -1,
        timeout_of(Some((sec, usec))) == sec * 1000 + usec / 1000,
        usec_to_ms(-usec as int) == -(usec / 1000),
{
}

/// A descriptor is in a set exactly when its bit is: 32 to a word, lowest first.
pub proof fn law_set_bits(set: Seq<u32>, fd: u32)
    ensures
        in_set(set, fd as int) <==> (set[fd as int / 32] >> (fd % 32)) & 1 == 1,
{
    let word = set[fd as int / 32];
    let bit = fd % 32;
    assert((word & (1u32 << bit) != 0) <==> (word >> bit) & 1 == 1) by (bit_vector)
        requires
            bit < 32,
    ;
}

/// `select` asks about each descriptor below the limit that is in one of the sets, and
/// about no other, in ascending order: for input, output and urgent data where it is
/// in the set for that.
pub proof fn law_select_asks(
    read: Option<Seq<u32>>,
    write: Option<Seq<u32>>,
    except: Option<Seq<u32>>,
    n: int,
    fd: int,
)
    requires
        0 <= n <= 1024,
    ensures
        ({
            let fds = select_fds(read, write, except, n);
            let r = read is Some && in_set(read->0, fd);
            let w = write is Some && in_set(write->0, fd);
            let x = except is Some && in_set(except->0, fd);
            &&& (exists|i: int| 0 <= i < fds.len() && (#[trigger] fds[i]).fd == fd) <==> 0 <= fd < n
                && (r || w || x)
            &&& forall|i: int|
                0 <= i < fds.len() && (#[trigger] fds[i]).fd == fd ==> fds[i].revents == 0
                    && fds[i].events == (if r {
                    1int
                } else {
                    0
                }) + (if w {
                    4int
                } else {
                    0
                }) + (if x {
                    2int
                } else {
                    0
                })
            &&& forall|i: int, j: int| 0 <= i < j < fds.len() ==> fds[i].fd < fds[j].fd
            &&& forall|i: int| 0 <= i < fds.len() ==> 0 <= (#[trigger] fds[i]).fd < n
        }),
    decreases n,
{
    if n > 0 {
        law_select_asks(read, write, except, n - 1, fd);
        let before = select_fds(read, write, except, n - 1);
        let fds = select_fds(read, write, except, n);
        let events = select_events(read, write, except, n - 1);
        if events != 0 {
            assert(fds[before.len() as int].fd == n - 1);
            assert forall|i: int, j: int| 0 <= i < j < fds.len() implies fds[i].fd < fds[j].fd by {
                assert(fds[i] == before[i]);
                if j < before.len() {
                    assert(fds[j] == before[j]);
                }
            }
            if exists|i: int| 0 <= i < before.len() && (#[trigger] before[i]).fd == fd {
                let i = choose|i: int| 0 <= i < before.len() && (#[trigger] before[i]).fd == fd;
                assert(fds[i].fd == fd);
            }
            if exists|i: int| 0 <= i < fds.len() && (#[trigger] fds[i]).fd == fd {
                let i = choose|i: int| 0 <= i < fds.len() && (#[trigger] fds[i]).fd == fd;
                if i < before.len() {
                    assert(before[i].fd == fd);
                }
            }
            assert forall|i: int| 0 <= i < fds.len() implies 0 <= (#[trigger] fds[i]).fd < n by {
                if i < before.len() {
                    assert(fds[i] == before[i]);
                }
            }
        }
    }
}

/// A descriptor is in a set that `select` returns exactly when something of its kind
/// was reported of it.
pub proof fn law_select_reports(fds: Seq<PollFd>, flag: i16, fd: int)
    ensures
        reported_with(fds, flag, fd) <==> exists|i: int|
            0 <= i < fds.len() && (#[trigger] fds[i]).fd == fd && fds[i].revents & flag != 0,
{
}

/// Virtual pipes are polled besides exactly when something is known of a descriptor
/// without asking the kernel.
pub proof fn law_pipes_polled(queries: Seq<PollQuery>)
    ensures
        !all_asked(queries) <==> exists|i: int|
            0 <= i < queries.len() && (#[trigger] queries[i]) is Answer,
{
}

} // verus!
