//! The ends that pipes count.
//!
//! A pipe counts its reading and writing ends. The laws here say that these
//! counts are, at all times, the numbers of descriptors that the tables of all
//! processes hold, and what follows from it: a pipe is at the end of its stream
//! exactly when nobody holds a writing end, and takes no bytes exactly when nobody
//! holds a reading end.

use crate::executor::{done_set, pipes_reaped, tables_reaped, ExecutorView};
use crate::pipe::{PipeView, PIPE_CAPACITY};
use crate::tables::{
    can_insert_file, file_inserted, lemma_held_finite, lemma_held_more, lemma_unmentioned_ends,
    lookup_vfd, pipes_known, FdTablesView,
};
use crate::vfd::{lemma_room, FileRef, TableView, Vfd};
use vstd::prelude::*;

verus! {

/// Some descriptor of some process stands for `vfd`.
pub open spec fn somebody_holds(all: FdTablesView, vfd: Vfd) -> bool {
    exists|vpid: u32, fd: u32| #[trigger] lookup_vfd(all, vpid, fd) == Some(vfd)
}

/// Every pipe counts as many ends as there are descriptors for it, and no count
/// is at its largest number.
pub open spec fn ends_counted(all: FdTablesView, pipes: Map<u64, PipeView>) -> bool {
    &&& all.finite()
    &&& forall|id: u64| #[trigger]
        pipes.contains_key(id) ==> {
            &&& pipes[id].readers == all.ends(Vfd::PipeRead(id))
            &&& pipes[id].writers == all.ends(Vfd::PipeWrite(id))
            &&& pipes[id].readers < u64::MAX
            &&& pipes[id].writers < u64::MAX
        }
}

/// No pipe is about to reach the largest number of ends: `r` reading and `w`
/// writing ends more can be counted.
pub open spec fn ends_left(pipes: Map<u64, PipeView>, r: nat, w: nat) -> bool {
    forall|id: u64| #[trigger]
        pipes.contains_key(id) ==> pipes[id].readers + r < u64::MAX && pipes[id].writers + w
            < u64::MAX
}

/// A pipe that was not closed outright is at the end of its stream exactly when
/// no process holds a writing end of it, and a write to it fails exactly when no
/// process holds a reading end of it, or it is full.
pub proof fn law_stream_ends_with_last_writer(
    all: FdTablesView,
    pipes: Map<u64, PipeView>,
    id: u64,
    n: nat,
)
    requires
        ends_counted(all, pipes),
        pipes.contains_key(id),
        !pipes[id].closed,
    ensures
        pipes[id].ended() <==> !somebody_holds(all, Vfd::PipeWrite(id)),
        pipes[id].broken() <==> !somebody_holds(all, Vfd::PipeRead(id)),
        pipes[id].read_result(n) == 0 && n > 0 <==> n > 0 && pipes[id].data.len() == 0
            && !somebody_holds(all, Vfd::PipeWrite(id)),
        pipes[id].write_result(n) == -1 <==> pipes[id].data.len() == PIPE_CAPACITY
            || !somebody_holds(all, Vfd::PipeRead(id)),
{
    lemma_ends_hold(all, Vfd::PipeRead(id));
    lemma_ends_hold(all, Vfd::PipeWrite(id));
}

proof fn lemma_ends_hold(all: FdTablesView, vfd: Vfd)
    requires
        all.finite(),
    ensures
        all.ends(vfd) == 0 <==> !somebody_holds(all, vfd),
{
    let held = all.held(Set::full(), vfd);
    lemma_held_finite(all, Set::full(), vfd);
    if all.ends(vfd) == 0 {
        held.lemma_len0_is_empty();
        assert forall|vpid: u32, fd: u32| #[trigger] lookup_vfd(all, vpid, fd) != Some(vfd) by {
            assert(!held.contains((vpid, fd)));
        }
    } else if !somebody_holds(all, vfd) {
        assert forall|at: (u32, u32)| !held.contains(at) by {
            assert(lookup_vfd(all, at.0, at.1) != Some(vfd));
        }
        assert(held =~= Set::empty());
    }
}

/// How many descriptors of process `vpid` stand for `vfd`.
spec fn count_of(all: FdTablesView, vpid: u32, vfd: Vfd) -> nat {
    if all.tables.contains_key(vpid) {
        all.tables[vpid].count(vfd)
    } else {
        0
    }
}

/// Where only the table of `vpid` changes, the descriptors change by as much.
proof fn lemma_ends_change(before: FdTablesView, after: FdTablesView, vpid: u32, vfd: Vfd)
    requires
        before.finite(),
        after.finite(),
        before.tables.remove(vpid) == after.tables.remove(vpid),
    ensures
        after.ends(vfd) + count_of(before, vpid, vfd) == before.ends(vfd) + count_of(
            after,
            vpid,
            vfd,
        ),
        count_of(before, vpid, vfd) <= before.ends(vfd),
{
    let others = Set::<u32>::full().remove(vpid);
    assert(others.insert(vpid) =~= Set::full());
    lemma_held_more(before, others, vpid, vfd);
    lemma_held_more(after, others, vpid, vfd);
    assert forall|p: u32| p != vpid implies before.tables.contains_key(p)
        == after.tables.contains_key(p) && (before.tables.contains_key(p) ==> before.tables[p]
        == after.tables[p]) by {
        assert(before.tables.remove(vpid).contains_key(p) == before.tables.contains_key(p));
        assert(after.tables.remove(vpid).contains_key(p) == after.tables.contains_key(p));
        assert(before.tables.contains_key(p) ==> before.tables.remove(vpid)[p]
            == before.tables[p]);
        assert(after.tables.contains_key(p) ==> after.tables.remove(vpid)[p] == after.tables[p]);
    }
    assert(before.held(others, vfd) =~= after.held(others, vfd));
}

proof fn lemma_with_finite(all: FdTablesView, vpid: u32, table: TableView)
    requires
        all.finite(),
        table.fds.dom().finite(),
    ensures
        all.with(vpid, table).finite(),
        all.without(vpid).finite(),
        all.tables.remove(vpid) == all.with(vpid, table).tables.remove(vpid),
        all.tables.remove(vpid) == all.without(vpid).tables.remove(vpid),
{
    let with = all.with(vpid, table);
    let without = all.without(vpid);
    assert(with.tables.dom() =~= all.tables.dom().insert(vpid));
    assert(without.tables.dom() =~= all.tables.dom().remove(vpid));
    assert forall|p: u32| #[trigger] with.tables.contains_key(p) implies with.tables[p].fds
        .dom().finite() by {
        if p != vpid {
            assert(all.tables.contains_key(p));
        }
    }
    assert forall|p: u32| #[trigger] without.tables.contains_key(p) implies without.tables[p].fds
        .dom().finite() by {
        assert(all.tables.contains_key(p));
    }
    assert(all.tables.remove(vpid) =~= with.tables.remove(vpid));
    assert(all.tables.remove(vpid) =~= without.tables.remove(vpid));
}

/// One number that stands for something more counts for that.
proof fn lemma_count_put(before: TableView, after: TableView, fd: u32, put: Vfd, vfd: Vfd)
    requires
        before.fds.dom().finite(),
        !before.fds.contains_key(fd),
        after.fds == before.fds.insert(fd, put),
    ensures
        after.fds.dom().finite(),
        after.count(vfd) == before.count(vfd) + (if put == vfd {
            1nat
        } else {
            0nat
        }),
{
    let some = before.numbers_of(vfd);
    vstd::set_lib::lemma_set_subset_finite(before.fds.dom(), some);
    assert(after.fds.dom() =~= before.fds.dom().insert(fd));
    if put == vfd {
        assert(after.numbers_of(vfd) =~= some.insert(fd));
    } else {
        assert(after.numbers_of(vfd) =~= some);
    }
}

/// A number that goes counts for one less.
proof fn lemma_count_without(table: TableView, fd: u32, vfd: Vfd)
    requires
        table.fds.dom().finite(),
    ensures
        table.without(fd).fds.dom().finite(),
        table.count(vfd) == table.without(fd).count(vfd) + (if table.fds.contains_key(fd)
            && table.fds[fd] == vfd {
            1nat
        } else {
            0nat
        }),
{
    let less = table.without(fd);
    assert(less.fds.dom() =~= table.fds.dom().remove(fd));
    if table.fds.contains_key(fd) {
        assert(table.fds =~= less.fds.insert(fd, table.fds[fd]));
        lemma_count_put(less, table, fd, table.fds[fd], vfd);
    } else {
        assert(less.numbers_of(vfd) =~= table.numbers_of(vfd));
    }
}

proof fn lemma_same_counts(a: TableView, b: TableView, vfd: Vfd)
    requires
        a.fds == b.fds,
    ensures
        a.count(vfd) == b.count(vfd),
{
    assert(a.numbers_of(vfd) =~= b.numbers_of(vfd));
}

/// Closing a descriptor, duplicating one onto a number or onto the next number,
/// and starting a program keep the counts right.
pub proof fn law_ends_counted_on_descriptors(
    all: FdTablesView,
    pipes: Map<u64, PipeView>,
    vpid: u32,
    old_fd: u32,
    new_fd: u32,
)
    requires
        ends_counted(all, pipes),
        all.tables.contains_key(vpid),
        ends_left(pipes, 1, 1),
    ensures
        ends_counted(
            all.with(vpid, all.tables[vpid].without(new_fd)),
            all.tables[vpid].pipes_after_close(new_fd, pipes),
        ),
        ends_counted(
            all.with(vpid, all.tables[vpid].after_dup2(old_fd, new_fd)),
            all.tables[vpid].pipes_after_dup2(old_fd, new_fd, pipes),
        ),
        ends_counted(
            all.with(
                vpid,
                all.tables[vpid].allocated().after_dup2(old_fd, all.tables[vpid].next_fd),
            ),
            all.tables[vpid].pipes_after_dup2(old_fd, all.tables[vpid].next_fd, pipes),
        ),
        ends_counted(all.with(vpid, all.tables[vpid].after_exec()), pipes),
{
    let table = all.tables[vpid];
    lemma_close_counted(all, pipes, vpid, new_fd);
    lemma_dup_counted(all, pipes, vpid, table.after_dup2(old_fd, new_fd), old_fd, new_fd);
    lemma_dup_counted(
        all,
        pipes,
        vpid,
        table.allocated().after_dup2(old_fd, table.next_fd),
        old_fd,
        table.next_fd,
    );
    let kept = table.after_exec();
    vstd::set_lib::lemma_set_subset_finite(table.fds.dom(), kept.fds.dom());
    lemma_with_finite(all, vpid, kept);
    let after = all.with(vpid, kept);
    assert forall|id: u64| #[trigger] pipes.contains_key(id) implies pipes[id].readers
        == after.ends(Vfd::PipeRead(id)) && pipes[id].writers == after.ends(
        Vfd::PipeWrite(id),
    ) by {
        lemma_ends_change(all, after, vpid, Vfd::PipeRead(id));
        lemma_ends_change(all, after, vpid, Vfd::PipeWrite(id));
        assert(kept.numbers_of(Vfd::PipeRead(id)) =~= table.numbers_of(Vfd::PipeRead(id)));
        assert(kept.numbers_of(Vfd::PipeWrite(id)) =~= table.numbers_of(Vfd::PipeWrite(id)));
    }
}

proof fn lemma_close_counted(all: FdTablesView, pipes: Map<u64, PipeView>, vpid: u32, fd: u32)
    requires
        ends_counted(all, pipes),
        all.tables.contains_key(vpid),
    ensures
        ends_counted(
            all.with(vpid, all.tables[vpid].without(fd)),
            all.tables[vpid].pipes_after_close(fd, pipes),
        ),
{
    let table = all.tables[vpid];
    let less = table.without(fd);
    let after = all.with(vpid, less);
    let closed = table.pipes_after_close(fd, pipes);
    lemma_count_without(table, fd, Vfd::PipeRead(0));
    lemma_with_finite(all, vpid, less);
    assert forall|id: u64| #[trigger] closed.contains_key(id) implies closed[id].readers
        == after.ends(Vfd::PipeRead(id)) && closed[id].writers == after.ends(Vfd::PipeWrite(id))
        && closed[id].readers < u64::MAX && closed[id].writers < u64::MAX by {
        assert(pipes.contains_key(id));
        lemma_ends_change(all, after, vpid, Vfd::PipeRead(id));
        lemma_ends_change(all, after, vpid, Vfd::PipeWrite(id));
        lemma_count_without(table, fd, Vfd::PipeRead(id));
        lemma_count_without(table, fd, Vfd::PipeWrite(id));
    }
}

/// A table that got one number more.
proof fn lemma_put_counted(
    all: FdTablesView,
    pipes: Map<u64, PipeView>,
    vpid: u32,
    table: TableView,
    fd: u32,
    put: Vfd,
)
    requires
        ends_counted(all, pipes),
        ends_left(pipes, 1, 1),
        all.tables.contains_key(vpid),
        !all.tables[vpid].fds.contains_key(fd),
        table.fds == all.tables[vpid].fds.insert(fd, put),
    ensures
        ends_counted(all.with(vpid, table), crate::vfd::open_end(pipes, put)),
{
    let after = all.with(vpid, table);
    let opened = crate::vfd::open_end(pipes, put);
    lemma_count_put(all.tables[vpid], table, fd, put, put);
    lemma_with_finite(all, vpid, table);
    assert forall|id: u64| #[trigger] opened.contains_key(id) implies opened[id].readers
        == after.ends(Vfd::PipeRead(id)) && opened[id].writers == after.ends(Vfd::PipeWrite(id))
        && opened[id].readers < u64::MAX && opened[id].writers < u64::MAX by {
        assert(pipes.contains_key(id));
        lemma_ends_change(all, after, vpid, Vfd::PipeRead(id));
        lemma_ends_change(all, after, vpid, Vfd::PipeWrite(id));
        lemma_count_put(all.tables[vpid], table, fd, put, Vfd::PipeRead(id));
        lemma_count_put(all.tables[vpid], table, fd, put, Vfd::PipeWrite(id));
    }
}

proof fn lemma_close_left(pipes: Map<u64, PipeView>, table: TableView, fd: u32)
    requires
        ends_left(pipes, 1, 1),
    ensures
        ends_left(table.pipes_after_close(fd, pipes), 1, 1),
{
    let closed = table.pipes_after_close(fd, pipes);
    assert forall|id: u64| #[trigger] closed.contains_key(id) implies closed[id].readers + 1
        < u64::MAX && closed[id].writers + 1 < u64::MAX by {
        assert(pipes.contains_key(id));
    }
}

proof fn lemma_dup_counted(
    all: FdTablesView,
    pipes: Map<u64, PipeView>,
    vpid: u32,
    result: TableView,
    old_fd: u32,
    new_fd: u32,
)
    requires
        ends_counted(all, pipes),
        all.tables.contains_key(vpid),
        ends_left(pipes, 1, 1),
        result.fds == all.tables[vpid].after_dup2(old_fd, new_fd).fds,
    ensures
        ends_counted(
            all.with(vpid, result),
            all.tables[vpid].pipes_after_dup2(old_fd, new_fd, pipes),
        ),
{
    let table = all.tables[vpid];
    let cleared = table.without(new_fd);
    let middle = all.with(vpid, cleared);
    let closed = table.pipes_after_close(new_fd, pipes);
    lemma_close_counted(all, pipes, vpid, new_fd);
    lemma_close_left(pipes, table, new_fd);
    let after = all.with(vpid, result);
    assert(middle.with(vpid, result).tables =~= after.tables);
    assert(middle.with(vpid, result) == after);
    if cleared.fds.contains_key(old_fd) {
        lemma_put_counted(middle, closed, vpid, result, new_fd, cleared.fds[old_fd]);
    } else {
        lemma_same_table(middle, closed, vpid, result);
    }
}

/// The counts depend on the descriptors of a table only.
proof fn lemma_same_table(
    all: FdTablesView,
    pipes: Map<u64, PipeView>,
    vpid: u32,
    table: TableView,
)
    requires
        ends_counted(all, pipes),
        all.tables.contains_key(vpid),
        table.fds == all.tables[vpid].fds,
    ensures
        ends_counted(all.with(vpid, table), pipes),
{
    let after = all.with(vpid, table);
    lemma_with_finite(all, vpid, table);
    assert forall|id: u64| #[trigger] pipes.contains_key(id) implies pipes[id].readers
        == after.ends(Vfd::PipeRead(id)) && pipes[id].writers == after.ends(
        Vfd::PipeWrite(id),
    ) by {
        lemma_ends_change(all, after, vpid, Vfd::PipeRead(id));
        lemma_ends_change(all, after, vpid, Vfd::PipeWrite(id));
        lemma_same_counts(all.tables[vpid], table, Vfd::PipeRead(id));
        lemma_same_counts(all.tables[vpid], table, Vfd::PipeWrite(id));
    }
}

/// A fresh table holds no ends.
proof fn lemma_fresh_counted(all: FdTablesView, pipes: Map<u64, PipeView>, vpid: u32)
    requires
        ends_counted(all, pipes),
    ensures
        ends_counted(all.with(vpid, all.table_or_new(vpid)), pipes),
        all.table_or_new(vpid).fds.dom().finite(),
{
    if all.tables.contains_key(vpid) {
        lemma_same_table(all, pipes, vpid, all.tables[vpid]);
    } else {
        let fresh = TableView::standard(0, 1, 2);
        assert(fresh.fds.dom() =~= Set::<u32>::empty().insert(0).insert(1).insert(2));
        let after = all.with(vpid, fresh);
        lemma_with_finite(all, vpid, fresh);
        assert forall|id: u64| #[trigger] pipes.contains_key(id) implies pipes[id].readers
            == after.ends(Vfd::PipeRead(id)) && pipes[id].writers == after.ends(
            Vfd::PipeWrite(id),
        ) by {
            lemma_ends_change(all, after, vpid, Vfd::PipeRead(id));
            lemma_ends_change(all, after, vpid, Vfd::PipeWrite(id));
            assert(fresh.numbers_of(Vfd::PipeRead(id)) =~= Set::empty());
            assert(fresh.numbers_of(Vfd::PipeWrite(id)) =~= Set::empty());
        }
    }
}

/// Putting something under the next number, and opening a file, keep the counts
/// right.
pub proof fn law_ends_counted_on_insert(
    all: FdTablesView,
    pipes: Map<u64, PipeView>,
    vpid: u32,
    vfd: Vfd,
    real_fd: i32,
    cloexec: bool,
)
    requires
        ends_counted(all, pipes),
        ends_left(pipes, 1, 1),
        can_insert_file(all, vpid),
    ensures
        ends_counted(
            all.with(vpid, all.table_or_new(vpid).inserted(vfd)),
            all.table_or_new(vpid).pipes_after_insert(vfd, pipes),
        ),
        ends_counted(
            file_inserted(all, vpid, real_fd, cloexec),
            all.table_or_new(vpid).pipes_after_close(all.table_or_new(vpid).next_fd, pipes),
        ),
{
    lemma_insert_counted(all, pipes, vpid, vfd);
    let file = FileRef { id: all.next_file, real_fd, cloexec };
    lemma_insert_counted(all, pipes, vpid, Vfd::File(file));
    let a = all.with(vpid, all.table_or_new(vpid).inserted(Vfd::File(file)));
    let b = file_inserted(all, vpid, real_fd, cloexec);
    assert(a.tables =~= b.tables);
    let closed = all.table_or_new(vpid).pipes_after_close(all.table_or_new(vpid).next_fd, pipes);
    assert forall|id: u64| #[trigger] closed.contains_key(id) implies closed[id].readers == b.ends(
        Vfd::PipeRead(id),
    ) && closed[id].writers == b.ends(Vfd::PipeWrite(id)) by {
        assert(a.held(Set::full(), Vfd::PipeRead(id)) =~= b.held(Set::full(), Vfd::PipeRead(id)));
        assert(a.held(Set::full(), Vfd::PipeWrite(id)) =~= b.held(
            Set::full(),
            Vfd::PipeWrite(id),
        ));
    }
}

proof fn lemma_insert_counted(
    all: FdTablesView,
    pipes: Map<u64, PipeView>,
    vpid: u32,
    vfd: Vfd,
)
    requires
        ends_counted(all, pipes),
        ends_left(pipes, 1, 1),
    ensures
        ends_counted(
            all.with(vpid, all.table_or_new(vpid).inserted(vfd)),
            all.table_or_new(vpid).pipes_after_insert(vfd, pipes),
        ),
{
    let table = all.table_or_new(vpid);
    let ready = all.with(vpid, table);
    lemma_fresh_counted(all, pipes, vpid);
    lemma_close_counted(ready, pipes, vpid, table.next_fd);
    lemma_close_left(pipes, table, table.next_fd);
    let cleared = table.without(table.next_fd);
    let middle = ready.with(vpid, cleared);
    let result = table.inserted(vfd);
    assert(result.fds =~= cleared.fds.insert(table.next_fd, vfd));
    lemma_put_counted(
        middle,
        table.pipes_after_close(table.next_fd, pipes),
        vpid,
        result,
        table.next_fd,
        vfd,
    );
    assert(middle.with(vpid, result).tables =~= all.with(vpid, result).tables);
    assert(middle.with(vpid, result) == all.with(vpid, result));
}

/// A new pipe has the two ends that its two descriptors are.
pub proof fn law_ends_counted_on_create(
    all: FdTablesView,
    pipes: Map<u64, PipeView>,
    vpid: u32,
    id: u64,
)
    requires
        ends_counted(all, pipes),
        pipes_known(all, pipes),
        !pipes.contains_key(id),
        all.table_or_new(vpid).has_room(),
    ensures
        ends_counted(
            all.with(vpid, all.table_or_new(vpid).with_pipe(id)),
            all.table_or_new(vpid).pipes_after_close(all.table_or_new(vpid).next_fd, pipes).insert(
                id,
                PipeView::empty(),
            ),
        ),
{
    let table = all.table_or_new(vpid);
    let ready = all.with(vpid, table);
    lemma_room(table);
    lemma_fresh_counted(all, pipes, vpid);
    lemma_close_counted(ready, pipes, vpid, table.next_fd);
    let cleared = table.without(table.next_fd);
    let middle = ready.with(vpid, cleared);
    let closed = table.pipes_after_close(table.next_fd, pipes);
    let first = table.allocated().next_fd;
    let half = TableView {
        fds: cleared.fds.insert(table.next_fd, Vfd::PipeRead(id)),
        next_fd: table.next_fd,
    };
    let result = table.with_pipe(id);
    assert(result.fds =~= half.fds.insert(first, Vfd::PipeWrite(id)));
    lemma_count_put(cleared, half, table.next_fd, Vfd::PipeRead(id), Vfd::PipeRead(id));
    lemma_count_put(half, result, first, Vfd::PipeWrite(id), Vfd::PipeRead(id));
    lemma_with_finite(middle, vpid, result);
    let after = all.with(vpid, result);
    assert(middle.with(vpid, result).tables =~= after.tables);
    assert(middle.with(vpid, result) == after);
    let made = closed.insert(id, PipeView::empty());
    assert forall|other: u64| #[trigger] made.contains_key(other) implies made[other].readers
        == after.ends(Vfd::PipeRead(other)) && made[other].writers == after.ends(
        Vfd::PipeWrite(other),
    ) && made[other].readers < u64::MAX && made[other].writers < u64::MAX by {
        lemma_ends_change(middle, after, vpid, Vfd::PipeRead(other));
        lemma_ends_change(middle, after, vpid, Vfd::PipeWrite(other));
        lemma_count_put(cleared, half, table.next_fd, Vfd::PipeRead(id), Vfd::PipeRead(other));
        lemma_count_put(cleared, half, table.next_fd, Vfd::PipeRead(id), Vfd::PipeWrite(other));
        lemma_count_put(half, result, first, Vfd::PipeWrite(id), Vfd::PipeRead(other));
        lemma_count_put(half, result, first, Vfd::PipeWrite(id), Vfd::PipeWrite(other));
        if other == id {
            lemma_unknown_pipe(middle, all, vpid, pipes, id);
        } else {
            assert(closed.contains_key(other));
        }
    }
}

/// A pipe that does not exist has no descriptors.
proof fn lemma_unknown_pipe(
    middle: FdTablesView,
    all: FdTablesView,
    vpid: u32,
    pipes: Map<u64, PipeView>,
    id: u64,
)
    requires
        all.finite(),
        pipes_known(all, pipes),
        !pipes.contains_key(id),
        all.table_or_new(vpid).fds.dom().finite(),
        middle == all.with(vpid, all.table_or_new(vpid)).with(
            vpid,
            all.table_or_new(vpid).without(all.table_or_new(vpid).next_fd),
        ),
    ensures
        middle.ends(Vfd::PipeRead(id)) == 0,
        middle.ends(Vfd::PipeWrite(id)) == 0,
{
    assert forall|at: (u32, u32), vfd: Vfd|
        vfd.pipe() == Some(id) implies !#[trigger] middle.held(Set::full(), vfd).contains(at) by {
        if middle.held(Set::full(), vfd).contains(at) {
            if all.tables.contains_key(at.0) {
                assert(all.tables[at.0].fds[at.1] == vfd);
            } else {
                assert(at.0 == vpid);
            }
        }
    }
    assert(Vfd::PipeRead(id).pipe() == Some(id) && Vfd::PipeWrite(id).pipe() == Some(id));
    assert(middle.held(Set::full(), Vfd::PipeRead(id)) =~= Set::empty());
    assert(middle.held(Set::full(), Vfd::PipeWrite(id)) =~= Set::empty());
}

/// A table that is dropped takes the ends with it that it held.
pub proof fn law_ends_counted_on_drop(all: FdTablesView, pipes: Map<u64, PipeView>, vpid: u32)
    requires
        ends_counted(all, pipes),
    ensures
        ends_counted(all.without(vpid), all.pipes_after_drop(vpid, pipes)),
{
    let after = all.without(vpid);
    let dropped = all.pipes_after_drop(vpid, pipes);
    lemma_with_finite(all, vpid, TableView { fds: Map::empty(), next_fd: 0 });
    assert forall|id: u64| #[trigger] dropped.contains_key(id) implies dropped[id].readers
        == after.ends(Vfd::PipeRead(id)) && dropped[id].writers == after.ends(Vfd::PipeWrite(id))
        && dropped[id].readers < u64::MAX && dropped[id].writers < u64::MAX by {
        assert(pipes.contains_key(id));
        lemma_ends_change(all, after, vpid, Vfd::PipeRead(id));
        lemma_ends_change(all, after, vpid, Vfd::PipeWrite(id));
    }
}

/// A fork adds the ends that the child holds.
pub proof fn law_ends_counted_on_fork(
    all: FdTablesView,
    pipes: Map<u64, PipeView>,
    parent: u32,
    child: u32,
)
    requires
        ends_counted(all, pipes),
        parent != child,
        forall|id: u64| #[trigger]
            pipes.contains_key(id) && all.tables.contains_key(parent) ==> pipes[id].readers
                + all.tables[parent].count(Vfd::PipeRead(id)) < u64::MAX && pipes[id].writers
                + all.tables[parent].count(Vfd::PipeWrite(id)) < u64::MAX,
    ensures
        ends_counted(
            all.with(child, all.table_or_new(parent)),
            all.pipes_after_fork(parent, child, pipes),
        ),
{
    let table = all.table_or_new(parent);
    let after = all.with(child, table);
    lemma_fresh_counted(all, pipes, parent);
    lemma_with_finite(all, child, table);
    let result = all.pipes_after_fork(parent, child, pipes);
    assert forall|id: u64| #[trigger] result.contains_key(id) implies result[id].readers
        == after.ends(Vfd::PipeRead(id)) && result[id].writers == after.ends(Vfd::PipeWrite(id))
        && result[id].readers < u64::MAX && result[id].writers < u64::MAX by {
        assert(pipes.contains_key(id));
        lemma_ends_change(all, after, child, Vfd::PipeRead(id));
        lemma_ends_change(all, after, child, Vfd::PipeWrite(id));
        if !all.tables.contains_key(parent) {
            assert(table.numbers_of(Vfd::PipeRead(id)) =~= Set::empty());
            assert(table.numbers_of(Vfd::PipeWrite(id)) =~= Set::empty());
        }
    }
}

/// Cleaning up ended processes, and dropping all tables, keep the counts right,
/// and without tables and pipes they are right.
pub proof fn law_ends_counted_on_cleanup(
    all: FdTablesView,
    pipes: Map<u64, PipeView>,
    ex: ExecutorView,
)
    requires
        ends_counted(all, pipes),
    ensures
        ends_counted(tables_reaped(all, ex), pipes_reaped(pipes, all, ex)),
        ends_counted(
            FdTablesView { tables: Map::empty(), next_file: all.next_file },
            all.pipes_after_drops(Set::full(), pipes),
        ),
        ends_counted(
            FdTablesView { tables: Map::empty(), next_file: all.next_file },
            Map::<u64, PipeView>::empty(),
        ),
{
    let after = tables_reaped(all, ex);
    vstd::set_lib::lemma_set_subset_finite(all.tables.dom(), after.tables.dom());
    assert forall|p: u32| #[trigger] after.tables.contains_key(p) implies after.tables[p].fds
        .dom().finite() by {
        assert(all.tables.contains_key(p));
    }
    let result = pipes_reaped(pipes, all, ex);
    assert forall|id: u64| #[trigger] result.contains_key(id) implies result[id].readers
        == after.ends(Vfd::PipeRead(id)) && result[id].writers == after.ends(Vfd::PipeWrite(id))
        && result[id].readers < u64::MAX && result[id].writers < u64::MAX by {
        assert(pipes.contains_key(id));
        lemma_ends_split(all, ex, Vfd::PipeRead(id));
        lemma_ends_split(all, ex, Vfd::PipeWrite(id));
        if !all.mentioned_by(done_set(ex), id) {
            lemma_unmentioned_ends(all, done_set(ex), id);
        }
    }
    let none = FdTablesView { tables: Map::empty(), next_file: all.next_file };
    let closed = all.pipes_after_drops(Set::full(), pipes);
    assert forall|id: u64| #[trigger] closed.contains_key(id) implies closed[id].readers
        == none.ends(Vfd::PipeRead(id)) && closed[id].writers == none.ends(Vfd::PipeWrite(id))
        && closed[id].readers < u64::MAX && closed[id].writers < u64::MAX by {
        assert(pipes.contains_key(id));
        assert(none.held(Set::full(), Vfd::PipeRead(id)) =~= Set::empty());
        assert(none.held(Set::full(), Vfd::PipeWrite(id)) =~= Set::empty());
        if !all.mentioned_by(Set::full(), id) {
            lemma_unmentioned_ends(all, Set::full(), id);
        }
    }
}

/// Descriptors are those of ended processes and those of the others.
proof fn lemma_ends_split(all: FdTablesView, ex: ExecutorView, vfd: Vfd)
    requires
        all.finite(),
    ensures
        all.ends(vfd) == all.held(done_set(ex), vfd).len() + tables_reaped(all, ex).ends(vfd),
{
    let after = tables_reaped(all, ex);
    let gone = all.held(done_set(ex), vfd);
    let kept = all.held(Set::new(|pid: u32| !ex.done(pid)), vfd);
    lemma_held_finite(all, done_set(ex), vfd);
    lemma_held_finite(all, Set::new(|pid: u32| !ex.done(pid)), vfd);
    assert(all.held(Set::full(), vfd) =~= gone + kept);
    assert(gone.disjoint(kept));
    vstd::set_lib::lemma_set_disjoint_lens(gone, kept);
    assert(after.held(Set::full(), vfd) =~= kept);
}

} // verus!
