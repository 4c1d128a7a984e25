//! Virtual file descriptor tables.
//!
//! Each virtual process has its own descriptor namespace. A descriptor passes
//! through to a descriptor of the kernel, is one end of a virtual pipe, or is a
//! file that was opened on behalf of the process. Pipes and files are shared:
//! duplicating a descriptor or forking a table copies the reference, not the
//! object. A pipe counts the descriptors that are ends of it, whatever tables
//! they are in.

use crate::keys::keys_of;
use crate::pipe::{close_ends, open_ends, PipeStore, PipeView};
pub use crate::pipe::PipeBuffer;
pub use crate::tables::{
    cleanup, close_cloexec, close_file_fd, create_table_with_fds, fork_fd_table,
    get_or_create_table, get_table, insert_file, remove_table, remove_table_and_get_fds,
};
use std::collections::hash_map::Entry;
use std::collections::HashMap;
use vstd::prelude::*;

verus! {

broadcast use vstd::std_specs::hash::group_hash_axioms;

/// `errno` value for a descriptor that is not in use.
pub const EBADF: i32 = 9;

/// A file opened on behalf of a virtual process. `id` tells two openings apart;
/// descriptors that hold the same value refer to the same open file. Its kernel
/// descriptor is to be closed once, when the last of them goes away.
#[derive(Clone, Copy, PartialEq, Eq, Structural, Debug)]
pub struct FileRef {
    pub id: u64,
    pub real_fd: i32,
    pub cloexec: bool,
}

/// A virtual file descriptor.
#[derive(Clone, Copy, PartialEq, Eq, Structural, Debug)]
pub enum Vfd {
    /// Pass-through to a kernel descriptor that somebody else owns.
    Real(i32),
    /// Reading end of a virtual pipe.
    PipeRead(u64),
    /// Writing end of a virtual pipe.
    PipeWrite(u64),
    /// An open file.
    File(FileRef),
}

impl Vfd {
    /// The pipe that the descriptor is an end of.
    pub open spec fn pipe(self) -> Option<u64> {
        match self {
            Vfd::PipeRead(id) => Some(id),
            Vfd::PipeWrite(id) => Some(id),
            _ => None,
        }
    }
}

/// What a descriptor table holds, as a mathematical value.
#[verifier::ext_equal]
pub struct TableView {
    pub fds: Map<u32, Vfd>,
    /// The number that the next new descriptor gets.
    pub next_fd: u32,
}

impl TableView {
    /// The table of a new process: the three standard descriptors go to the
    /// kernel descriptors `stdin`, `stdout` and `stderr`.
    pub open spec fn standard(stdin: i32, stdout: i32, stderr: i32) -> TableView {
        TableView {
            fds: Map::empty().insert(0, Vfd::Real(stdin)).insert(1, Vfd::Real(stdout)).insert(
                2,
                Vfd::Real(stderr),
            ),
            next_fd: 3,
        }
    }

    /// `n` is the first number above `next_fd` that is not in use.
    pub open spec fn is_next_free(self, n: u32) -> bool {
        &&& self.next_fd < n
        &&& !self.fds.contains_key(n)
        &&& forall|m: u32| self.next_fd < m < n ==> self.fds.contains_key(m)
    }

    /// A number above `next_fd` is free, so a descriptor can be allocated.
    pub open spec fn has_room(self) -> bool {
        exists|n: u32| self.next_fd < n && !#[trigger] self.fds.contains_key(n)
    }

    /// The table after the number `next_fd` was allocated.
    pub open spec fn allocated(self) -> TableView {
        TableView { fds: self.fds, next_fd: choose|n: u32| self.is_next_free(n) }
    }

    /// The table after `vfd` was put under the next number.
    pub open spec fn inserted(self, vfd: Vfd) -> TableView {
        TableView { fds: self.fds.insert(self.next_fd, vfd), next_fd: self.allocated().next_fd }
    }

    /// Some descriptor is an end of pipe `id`.
    pub open spec fn mentions_pipe(self, id: u64) -> bool {
        exists|fd: u32| #[trigger]
            self.fds.contains_key(fd) && self.fds[fd].pipe() == Some(id)
    }

    /// Some descriptor refers to the open file `file`.
    pub open spec fn mentions_file(self, file: FileRef) -> bool {
        exists|fd: u32| #[trigger] self.fds.contains_key(fd) && self.fds[fd] == Vfd::File(file)
    }

    /// The table without descriptor `fd`.
    pub open spec fn without(self, fd: u32) -> TableView {
        TableView { fds: self.fds.remove(fd), next_fd: self.next_fd }
    }

    /// The numbers that stand for `vfd`.
    pub open spec fn numbers_of(self, vfd: Vfd) -> Set<u32> {
        Set::new(|fd: u32| self.fds.contains_key(fd) && self.fds[fd] == vfd)
    }

    /// How many numbers stand for `vfd`.
    pub open spec fn count(self, vfd: Vfd) -> nat {
        self.numbers_of(vfd).len()
    }

    /// The pipes `pipes` after descriptor `fd` of this table was closed: its
    /// pipe has one end less.
    pub open spec fn pipes_after_close(self, fd: u32, pipes: Map<u64, PipeView>) -> Map<
        u64,
        PipeView,
    > {
        if self.fds.contains_key(fd) {
            close_end(pipes, self.fds[fd])
        } else {
            pipes
        }
    }

    /// The pipes `pipes` after `vfd` was put under the next number.
    pub open spec fn pipes_after_insert(self, vfd: Vfd, pipes: Map<u64, PipeView>) -> Map<
        u64,
        PipeView,
    > {
        open_end(self.pipes_after_close(self.next_fd, pipes), vfd)
    }

    /// The pipes `pipes` after `old_fd` was duplicated onto `new_fd`.
    pub open spec fn pipes_after_dup2(
        self,
        old_fd: u32,
        new_fd: u32,
        pipes: Map<u64, PipeView>,
    ) -> Map<u64, PipeView> {
        let closed = self.pipes_after_close(new_fd, pipes);
        if self.without(new_fd).fds.contains_key(old_fd) {
            open_end(closed, self.fds[old_fd])
        } else {
            closed
        }
    }

    /// The pipes `pipes` after every descriptor of this table was copied.
    pub open spec fn pipes_after_fork(self, pipes: Map<u64, PipeView>) -> Map<u64, PipeView> {
        Map::new(
            |id: u64| pipes.contains_key(id),
            |id: u64|
                pipes[id].opened(self.count(Vfd::PipeRead(id)), self.count(Vfd::PipeWrite(id))),
        )
    }

    /// The pipes `pipes` after every descriptor of this table was closed.
    pub open spec fn pipes_after_close_all(self, pipes: Map<u64, PipeView>) -> Map<u64, PipeView> {
        Map::new(
            |id: u64| pipes.contains_key(id),
            |id: u64|
                pipes[id].released(self.count(Vfd::PipeRead(id)), self.count(Vfd::PipeWrite(id))),
        )
    }

    /// The pipes `pipes` after this table was dropped: the ends that it holds
    /// are gone, and each of its pipes is closed outright.
    pub open spec fn pipes_after_drop(self, pipes: Map<u64, PipeView>) -> Map<u64, PipeView> {
        close_mentioned(self, self.pipes_after_close_all(pipes))
    }

    /// The table after `old_fd` was duplicated onto `new_fd`. What `new_fd` was
    /// before is closed first, so duplicating a descriptor onto itself loses it.
    pub open spec fn after_dup2(self, old_fd: u32, new_fd: u32) -> TableView {
        let cleared = self.without(new_fd);
        if cleared.fds.contains_key(old_fd) {
            TableView {
                fds: cleared.fds.insert(new_fd, cleared.fds[old_fd]),
                next_fd: cleared.next_fd,
            }
        } else {
            cleared
        }
    }

    /// The table after a new program was started in its process: descriptors of
    /// files that are marked close-on-exec are gone.
    pub open spec fn after_exec(self) -> TableView {
        TableView {
            fds: self.fds.restrict(
                Set::new(|fd: u32| !(self.fds[fd] matches Vfd::File(file) && file.cloexec)),
            ),
            next_fd: self.next_fd,
        }
    }

    /// What duplicating `old_fd` onto `new_fd` reports.
    pub open spec fn dup2_result(self, old_fd: u32, new_fd: u32) -> Result<u32, i32> {
        if self.without(new_fd).fds.contains_key(old_fd) {
            Ok(new_fd)
        } else {
            Err(EBADF)
        }
    }

    /// The table after a pipe `id` got its two descriptors: the reading end
    /// under the next number, the writing end under the one after it.
    pub open spec fn with_pipe(self, id: u64) -> TableView {
        let first = self.allocated();
        let second = first.allocated();
        TableView {
            fds: self.fds.insert(self.next_fd, Vfd::PipeRead(id)).insert(
                first.next_fd,
                Vfd::PipeWrite(id),
            ),
            next_fd: second.next_fd,
        }
    }
}

/// The pipes `pipes` after another descriptor for `vfd` was made.
pub open spec fn open_end(pipes: Map<u64, PipeView>, vfd: Vfd) -> Map<u64, PipeView> {
    match vfd {
        Vfd::PipeRead(id) => open_ends(pipes, id, 1, 0),
        Vfd::PipeWrite(id) => open_ends(pipes, id, 0, 1),
        _ => pipes,
    }
}

/// The pipes `pipes` after a descriptor for `vfd` was closed.
pub open spec fn close_end(pipes: Map<u64, PipeView>, vfd: Vfd) -> Map<u64, PipeView> {
    match vfd {
        Vfd::PipeRead(id) => close_ends(pipes, id, 1, 0),
        Vfd::PipeWrite(id) => close_ends(pipes, id, 0, 1),
        _ => pipes,
    }
}

/// The pipes `pipes` after every pipe that `table` mentions was closed outright.
pub open spec fn close_mentioned(table: TableView, pipes: Map<u64, PipeView>) -> Map<
    u64,
    PipeView,
> {
    Map::new(
        |id: u64| pipes.contains_key(id),
        |id: u64|
            if table.mentions_pipe(id) {
                pipes[id].after_close()
            } else {
                pipes[id]
            },
    )
}

/// Virtual descriptor table of one virtual process.
pub struct VfdTable {
    fds: HashMap<u32, Vfd>,
    next_fd: u32,
}

impl View for VfdTable {
    type V = TableView;

    closed spec fn view(&self) -> TableView {
        TableView { fds: self.fds@, next_fd: self.next_fd }
    }
}

proof fn lemma_next_free(table: TableView, n: u32)
    requires
        table.is_next_free(n),
    ensures
        table.allocated().next_fd == n,
{
    let m = table.allocated().next_fd;
    assert(table.is_next_free(m));
    if m < n {
        assert(table.fds.contains_key(m));
    }
    if n < m {
        assert(table.fds.contains_key(n));
    }
}

/// Counts another descriptor for `vfd`.
fn count_opened(pipes: &mut PipeStore, vfd: Vfd)
    requires
        old(pipes).wf(),
    ensures
        final(pipes).wf(),
        final(pipes).ids_left() == old(pipes).ids_left(),
        final(pipes)@ == open_end(old(pipes)@, vfd),
{
    match vfd {
        Vfd::PipeRead(id) => pipes.open_reader(id),
        Vfd::PipeWrite(id) => pipes.open_writer(id),
        _ => {},
    }
}

/// Counts a descriptor for `vfd` less.
fn count_closed(pipes: &mut PipeStore, vfd: Vfd)
    requires
        old(pipes).wf(),
    ensures
        final(pipes).wf(),
        final(pipes).ids_left() == old(pipes).ids_left(),
        final(pipes)@ == close_end(old(pipes)@, vfd),
{
    match vfd {
        Vfd::PipeRead(id) => pipes.close_reader(id),
        Vfd::PipeWrite(id) => pipes.close_writer(id),
        _ => {},
    }
}

/// How many of `numbers` stand for `vfd`.
spec fn count_in(fds: Map<u32, Vfd>, numbers: Seq<u32>, vfd: Vfd) -> nat
    decreases numbers.len(),
{
    if numbers.len() == 0 {
        0
    } else {
        count_in(fds, numbers.drop_last(), vfd) + (if fds[numbers.last()] == vfd {
            1nat
        } else {
            0nat
        })
    }
}

proof fn lemma_count_in(fds: Map<u32, Vfd>, numbers: Seq<u32>, vfd: Vfd)
    requires
        numbers.no_duplicates(),
    ensures
        Set::new(|fd: u32| numbers.contains(fd) && fds[fd] == vfd).finite(),
        Set::new(|fd: u32| numbers.contains(fd) && fds[fd] == vfd).len() == count_in(
            fds,
            numbers,
            vfd,
        ),
    decreases numbers.len(),
{
    let all = Set::new(|fd: u32| numbers.contains(fd) && fds[fd] == vfd);
    if numbers.len() == 0 {
        assert(all =~= Set::empty());
    } else {
        let rest = numbers.drop_last();
        let last = numbers.last();
        lemma_count_in(fds, rest, vfd);
        let some = Set::new(|fd: u32| rest.contains(fd) && fds[fd] == vfd);
        assert forall|fd: u32| numbers.contains(fd) <==> rest.contains(fd) || fd == last by {
            if rest.contains(fd) {
                let k = choose|k: int| 0 <= k < rest.len() && rest[k] == fd;
                assert(numbers[k] == fd);
            }
            if numbers.contains(fd) {
                let k = choose|k: int| 0 <= k < numbers.len() && numbers[k] == fd;
                if k < rest.len() {
                    assert(rest[k] == fd);
                }
            }
            assert(numbers[numbers.len() - 1] == last);
        }
        assert(!rest.contains(last));
        if fds[last] == vfd {
            assert(all =~= some.insert(last));
        } else {
            assert(all =~= some);
        }
    }
}

proof fn lemma_table_count(table: TableView, numbers: Seq<u32>, vfd: Vfd)
    requires
        numbers.no_duplicates(),
        forall|fd: u32| numbers.contains(fd) <==> table.fds.contains_key(fd),
    ensures
        table.numbers_of(vfd).finite(),
        table.count(vfd) == count_in(table.fds, numbers, vfd),
{
    lemma_count_in(table.fds, numbers, vfd);
    assert(table.numbers_of(vfd) =~= Set::new(
        |fd: u32| numbers.contains(fd) && table.fds[fd] == vfd,
    ));
}

/// A descriptor counts for what it stands for.
proof fn lemma_counts(table: TableView, fd: u32)
    requires
        table.fds.dom().finite(),
        table.fds.contains_key(fd),
    ensures
        table.numbers_of(table.fds[fd]).finite(),
        table.count(table.fds[fd]) >= 1,
{
    let these = table.numbers_of(table.fds[fd]);
    vstd::set_lib::lemma_set_subset_finite(table.fds.dom(), these);
    assert(these.contains(fd));
    if these.len() == 0 {
        these.lemma_len0_is_empty();
    }
}

impl VfdTable {
    /// A table has finitely many descriptors.
    pub(crate) proof fn lemma_finite(&self)
        ensures
            self@.fds.dom().finite(),
    {
    }

    /// A table whose descriptors 0, 1 and 2 pass through to the kernel's.
    pub fn new() -> (table: VfdTable)
        ensures
            table@ == TableView::standard(0, 1, 2),
    {
        VfdTable::with_fds(0, 1, 2)
    }

    /// A table whose descriptors 0, 1 and 2 pass through to the given kernel
    /// descriptors.
    pub fn with_fds(stdin: i32, stdout: i32, stderr: i32) -> (table: VfdTable)
        ensures
            table@ == TableView::standard(stdin, stdout, stderr),
    {
        let mut table = VfdTable { fds: HashMap::new(), next_fd: 3 };
        table.fds.insert(0, Vfd::Real(stdin));
        table.fds.insert(1, Vfd::Real(stdout));
        table.fds.insert(2, Vfd::Real(stderr));
        assert(table@ =~= TableView::standard(stdin, stdout, stderr));
        table
    }

    /// Whether another descriptor can be allocated.
    pub fn can_alloc(&self) -> (yes: bool)
        ensures
            yes == self@.has_room(),
    {
        let mut n: u32 = self.next_fd;
        while n < u32::MAX
            invariant
                self.next_fd <= n,
                forall|m: u32| self.next_fd < m <= n ==> self@.fds.contains_key(m),
            decreases u32::MAX - n,
        {
            n = n + 1;
            if !self.fds.contains_key(&n) {
                assert(self.next_fd < n && !self@.fds.contains_key(n));
                return true;
            }
        }
        false
    }

    /// Whether another two descriptors can be allocated, as a pipe needs.
    pub fn can_alloc_pipe(&self) -> (yes: bool)
        ensures
            yes == (self@.has_room() && self@.allocated().has_room()),
    {
        if !self.can_alloc() {
            return false;
        }
        let mut copy = self.copy();
        let _ = copy.alloc_fd();
        copy.can_alloc()
    }

    /// Allocates the next number and advances past the numbers in use.
    fn alloc_fd(&mut self) -> (fd: u32)
        requires
            old(self)@.has_room(),
        ensures
            fd == old(self)@.next_fd,
            final(self)@ == old(self)@.allocated(),
            old(self)@.is_next_free(final(self)@.next_fd),
    {
        let fd: u32 = self.next_fd;
        let ghost free = choose|n: u32| fd < n && !#[trigger] self@.fds.contains_key(n);
        self.next_fd = self.next_fd + 1;
        while self.fds.contains_key(&self.next_fd)
            invariant
                self.fds == old(self).fds,
                fd == old(self)@.next_fd,
                fd < self.next_fd <= free,
                !self@.fds.contains_key(free),
                forall|m: u32| fd < m < self.next_fd ==> self@.fds.contains_key(m),
            decreases free - self.next_fd,
        {
            self.next_fd = self.next_fd + 1;
        }
        proof {
            lemma_next_free(old(self)@, self.next_fd);
        }
        fd
    }

    /// Puts `vfd` under the next number, and returns the number. Where it is an
    /// end of a pipe, the pipe has one end more.
    pub fn insert(&mut self, pipes: &mut PipeStore, vfd: Vfd) -> (fd: u32)
        requires
            old(pipes).wf(),
            old(self)@.has_room(),
        ensures
            final(pipes).wf(),
            final(pipes).ids_left() == old(pipes).ids_left(),
            fd == old(self)@.next_fd,
            final(self)@ == old(self)@.inserted(vfd),
            final(pipes)@ == old(self)@.pipes_after_insert(vfd, old(pipes)@),
    {
        let fd: u32 = self.alloc_fd();
        let replaced: Option<Vfd> = self.fds.insert(fd, vfd);
        if let Some(old_vfd) = replaced {
            count_closed(pipes, old_vfd);
        }
        count_opened(pipes, vfd);
        fd
    }

    /// What the number `fd` stands for.
    pub fn get(&self, fd: u32) -> (vfd: Option<&Vfd>)
        ensures
            match vfd {
                Some(v) => self@.fds.contains_key(fd) && *v == self@.fds[fd],
                None => !self@.fds.contains_key(fd),
            },
    {
        self.fds.get(&fd)
    }

    /// What the number `fd` stands for, to be changed in place. The ends that
    /// pipes count stay as they are.
    pub fn get_mut(&mut self, fd: u32) -> (vfd: Option<&mut Vfd>)
        ensures
            match vfd {
                Some(v) => {
                    &&& old(self)@.fds.contains_key(fd)
                    &&& *v == old(self)@.fds[fd]
                    &&& final(self)@ == (TableView {
                        fds: old(self)@.fds.insert(fd, *final(v)),
                        next_fd: old(self)@.next_fd,
                    })
                },
                None => !old(self)@.fds.contains_key(fd) && final(self)@ == old(self)@,
            },
    {
        match self.fds.entry(fd) {
            Entry::Occupied(entry) => Some(entry.into_mut()),
            Entry::Vacant(_) => None,
        }
    }

    /// The number that the next new descriptor gets.
    pub(crate) fn next_number(&self) -> (fd: u32)
        ensures
            fd == self@.next_fd,
    {
        self.next_fd
    }

    /// Forgets descriptor `fd`, and nothing else.
    pub(crate) fn remove(&mut self, fd: u32)
        ensures
            final(self)@ == old(self)@.without(fd),
    {
        self.fds.remove(&fd);
        assert(self@ =~= old(self)@.without(fd));
    }

    /// Whether some descriptor is an end of pipe `id`.
    pub fn mentions_pipe(&self, id: u64) -> (yes: bool)
        ensures
            yes == self@.mentions_pipe(id),
    {
        let numbers: Vec<u32> = keys_of(&self.fds);
        let mut i: usize = 0;
        while i < numbers.len()
            invariant
                i <= numbers@.len(),
                forall|fd: u32| numbers@.contains(fd) <==> self.fds@.contains_key(fd),
                forall|k: int|
                    0 <= k < i ==> self.fds@[#[trigger] numbers@[k]].pipe() != Some(id),
            decreases numbers.len() - i,
        {
            assert(numbers@.contains(numbers@[i as int]));
            let here = match self.fds.get(&numbers[i]) {
                Some(Vfd::PipeRead(p)) => *p == id,
                Some(Vfd::PipeWrite(p)) => *p == id,
                _ => false,
            };
            if here {
                return true;
            }
            i = i + 1;
        }
        false
    }

    /// Whether some descriptor refers to the open file `file`.
    pub fn mentions_file(&self, file: FileRef) -> (yes: bool)
        ensures
            yes == self@.mentions_file(file),
    {
        let numbers: Vec<u32> = keys_of(&self.fds);
        let mut i: usize = 0;
        while i < numbers.len()
            invariant
                i <= numbers@.len(),
                forall|fd: u32| numbers@.contains(fd) <==> self.fds@.contains_key(fd),
                forall|k: int| 0 <= k < i ==> self.fds@[#[trigger] numbers@[k]] != Vfd::File(file),
            decreases numbers.len() - i,
        {
            assert(numbers@.contains(numbers@[i as int]));
            let here = match self.fds.get(&numbers[i]) {
                Some(Vfd::File(f)) => *f == file,
                _ => false,
            };
            if here {
                return true;
            }
            i = i + 1;
        }
        false
    }

    /// Closes the descriptor `fd`. Where it is an end of a pipe, the pipe has one
    /// end less. Fails with `EBADF` where `fd` is not in use.
    pub fn close(&mut self, pipes: &mut PipeStore, fd: u32) -> (result: Result<(), i32>)
        requires
            old(pipes).wf(),
        ensures
            final(pipes).wf(),
            final(pipes).ids_left() == old(pipes).ids_left(),
            result == (if old(self)@.fds.contains_key(fd) {
                Ok(())
            } else {
                Err(EBADF)
            }),
            final(self)@ == old(self)@.without(fd),
            final(pipes)@ == old(self)@.pipes_after_close(fd, old(pipes)@),
    {
        let removed: Option<Vfd> = self.fds.remove(&fd);
        assert(self@ =~= old(self)@.without(fd));
        match removed {
            Some(vfd) => {
                count_closed(pipes, vfd);
                Ok(())
            },
            None => Err(EBADF),
        }
    }

    /// Makes `new_fd` stand for what `old_fd` stands for. What `new_fd` stood
    /// for is closed first. Fails with `EBADF` where `old_fd` is then not in use.
    pub fn dup2(&mut self, pipes: &mut PipeStore, old_fd: u32, new_fd: u32) -> (result: Result<
        u32,
        i32,
    >)
        requires
            old(pipes).wf(),
        ensures
            final(pipes).wf(),
            final(pipes).ids_left() == old(pipes).ids_left(),
            result == old(self)@.dup2_result(old_fd, new_fd),
            final(self)@ == old(self)@.after_dup2(old_fd, new_fd),
            final(pipes)@ == old(self)@.pipes_after_dup2(old_fd, new_fd, old(pipes)@),
    {
        if self.fds.contains_key(&new_fd) {
            let _ = self.close(pipes, new_fd);
        }
        assert(self@ =~= old(self)@.without(new_fd));
        let target: Option<Vfd> = match self.fds.get(&old_fd) {
            Some(vfd) => Some(*vfd),
            None => None,
        };
        match target {
            Some(vfd) => {
                self.fds.insert(new_fd, vfd);
                count_opened(pipes, vfd);
                Ok(new_fd)
            },
            None => Err(EBADF),
        }
    }

    /// Makes the next number stand for what `old_fd` stands for. Fails with
    /// `EBADF` where `old_fd` is not in use; the number is used up either way.
    pub fn dup(&mut self, pipes: &mut PipeStore, old_fd: u32) -> (result: Result<u32, i32>)
        requires
            old(pipes).wf(),
            old(self)@.has_room(),
        ensures
            final(pipes).wf(),
            final(pipes).ids_left() == old(pipes).ids_left(),
            result == old(self)@.dup2_result(old_fd, old(self)@.next_fd),
            final(self)@ == old(self)@.allocated().after_dup2(old_fd, old(self)@.next_fd),
            final(pipes)@ == old(self)@.pipes_after_dup2(
                old_fd,
                old(self)@.next_fd,
                old(pipes)@,
            ),
    {
        let new_fd: u32 = self.alloc_fd();
        assert(old(self)@.allocated().without(new_fd).fds =~= old(self)@.without(new_fd).fds);
        self.dup2(pipes, old_fd, new_fd)
    }

    /// Creates a pipe and descriptors for its two ends. Returns the number of
    /// the reading end and that of the writing end.
    pub fn create_pipe(&mut self, pipes: &mut PipeStore) -> (ends: (u32, u32))
        requires
            old(pipes).wf(),
            old(pipes).ids_left() > 0,
            old(self)@.has_room(),
            old(self)@.allocated().has_room(),
        ensures
            final(pipes).wf(),
            final(pipes).ids_left() == old(pipes).ids_left() - 1,
            ends.0 == old(self)@.next_fd,
            ends.1 == old(self)@.allocated().next_fd,
            ends.0 < ends.1,
            exists|id: u64|
                {
                    &&& !old(pipes)@.contains_key(id)
                    &&& final(pipes)@ == old(self)@.pipes_after_close(
                        old(self)@.next_fd,
                        old(pipes)@,
                    ).insert(id, PipeView::empty())
                    &&& final(self)@ == #[trigger] old(self)@.with_pipe(id)
                },
    {
        let read_fd: u32 = self.alloc_fd();
        let write_fd: u32 = self.alloc_fd();
        if let Some(replaced) = self.fds.get(&read_fd) {
            count_closed(pipes, *replaced);
        }
        let id: u64 = pipes.create();
        self.fds.insert(read_fd, Vfd::PipeRead(id));
        self.fds.insert(write_fd, Vfd::PipeWrite(id));
        assert(self@ =~= old(self)@.with_pipe(id));
        (read_fd, write_fd)
    }

    /// The table of a forked child: the same numbers stand for the same things.
    /// Each pipe has the ends more that the child's table holds.
    pub fn clone_for_fork(&self, pipes: &mut PipeStore) -> (table: VfdTable)
        requires
            old(pipes).wf(),
        ensures
            final(pipes).wf(),
            final(pipes).ids_left() == old(pipes).ids_left(),
            table@ == self@,
            final(pipes)@ == self@.pipes_after_fork(old(pipes)@),
            forall|fd: u32| #[trigger]
                self@.fds.contains_key(fd) ==> self@.count(self@.fds[fd]) >= 1,
    {
        let numbers: Vec<u32> = keys_of(&self.fds);
        let mut i: usize = 0;
        assert(numbers@.take(0) =~= Seq::<u32>::empty());
        while i < numbers.len()
            invariant
                i <= numbers@.len(),
                forall|fd: u32| numbers@.contains(fd) <==> self.fds@.contains_key(fd),
                pipes.wf(),
                pipes.ids_left() == old(pipes).ids_left(),
                pipes@.dom() =~= old(pipes)@.dom(),
                forall|id: u64| #[trigger]
                    pipes@.contains_key(id) ==> pipes@[id] == old(pipes)@[id].opened(
                        count_in(self.fds@, numbers@.take(i as int), Vfd::PipeRead(id)),
                        count_in(self.fds@, numbers@.take(i as int), Vfd::PipeWrite(id)),
                    ),
            decreases numbers.len() - i,
        {
            let ghost before = pipes@;
            assert(numbers@.contains(numbers@[i as int]));
            assert(numbers@.take(i + 1).drop_last() =~= numbers@.take(i as int));
            if let Some(vfd) = self.fds.get(&numbers[i]) {
                count_opened(pipes, *vfd);
            }
            assert(forall|id: u64| pipes@.contains_key(id) ==> #[trigger] before.contains_key(id));
            i = i + 1;
        }
        proof {
            assert(numbers@.take(i as int) =~= numbers@);
            assert forall|id: u64| #[trigger] pipes@.contains_key(id) implies pipes@[id]
                == self@.pipes_after_fork(old(pipes)@)[id] by {
                lemma_table_count(self@, numbers@, Vfd::PipeRead(id));
                lemma_table_count(self@, numbers@, Vfd::PipeWrite(id));
            }
            assert(pipes@ =~= self@.pipes_after_fork(old(pipes)@));
            assert forall|fd: u32| #[trigger] self@.fds.contains_key(fd) implies self@.count(
                self@.fds[fd],
            ) >= 1 by {
                lemma_counts(self@, fd);
            }
        }
        self.copy()
    }

    /// A table with the same descriptors, which no pipe counts.
    fn copy(&self) -> (table: VfdTable)
        ensures
            table@ == self@,
    {
        let mut table = VfdTable { fds: HashMap::new(), next_fd: self.next_fd };
        let numbers: Vec<u32> = keys_of(&self.fds);
        let mut i: usize = 0;
        while i < numbers.len()
            invariant
                i <= numbers@.len(),
                forall|fd: u32| numbers@.contains(fd) <==> self.fds@.contains_key(fd),
                table.next_fd == self.next_fd,
                forall|fd: u32| #[trigger] table.fds@.contains_key(fd) ==> self.fds@.contains_key(fd)
                    && table.fds@[fd] == self.fds@[fd],
                forall|k: int| 0 <= k < i ==> table.fds@.contains_key(#[trigger] numbers@[k]),
            decreases numbers.len() - i,
        {
            assert(numbers@.contains(numbers@[i as int]));
            let fd: u32 = numbers[i];
            if let Some(vfd) = self.fds.get(&fd) {
                table.fds.insert(fd, *vfd);
            }
            i = i + 1;
        }
        proof {
            assert forall|fd: u32| self.fds@.contains_key(fd) implies table.fds@.contains_key(
                fd,
            ) by {
                assert(numbers@.contains(fd));
            }
            assert(table.fds@ =~= self.fds@);
        }
        table
    }

    /// The open files that the table mentions, each once.
    pub fn files(&self) -> (files: Vec<FileRef>)
        ensures
            files@.no_duplicates(),
            forall|file: FileRef| #[trigger]
                files@.contains(file) <==> self@.mentions_file(file),
    {
        let mut files: Vec<FileRef> = Vec::new();
        let numbers: Vec<u32> = keys_of(&self.fds);
        let mut i: usize = 0;
        while i < numbers.len()
            invariant
                i <= numbers@.len(),
                forall|fd: u32| numbers@.contains(fd) <==> self.fds@.contains_key(fd),
                files@.no_duplicates(),
                forall|file: FileRef| #[trigger]
                    files@.contains(file) <==> exists|k: int|
                        0 <= k < i && self.fds@[#[trigger] numbers@[k]] == Vfd::File(file),
            decreases numbers.len() - i,
        {
            assert(numbers@.contains(numbers@[i as int]));
            let ghost before = files@;
            if let Some(Vfd::File(file)) = self.fds.get(&numbers[i]) {
                push_unique(&mut files, *file);
            }
            proof {
                assert forall|file: FileRef| #[trigger] files@.contains(file) <==> exists|k: int|
                    0 <= k < i + 1 && self.fds@[#[trigger] numbers@[k]] == Vfd::File(file) by {
                    assert(before.contains(file) ==> files@.contains(file));
                    if files@.contains(file) && !before.contains(file) {
                        assert(self.fds@[numbers@[i as int]] == Vfd::File(file));
                    }
                }
            }
            i = i + 1;
        }
        proof {
            assert forall|file: FileRef| files@.contains(file) <==> self@.mentions_file(file) by {
                if self@.mentions_file(file) {
                    let fd = choose|fd: u32| #[trigger]
                        self@.fds.contains_key(fd) && self@.fds[fd] == Vfd::File(file);
                    assert(numbers@.contains(fd));
                }
                if files@.contains(file) {
                    let k = choose|k: int|
                        0 <= k < i && self.fds@[#[trigger] numbers@[k]] == Vfd::File(file);
                    assert(numbers@.contains(numbers@[k]));
                    assert(self@.fds.contains_key(numbers@[k]));
                }
            }
        }
        files
    }

    /// Removes the descriptors of files that are marked close-on-exec. Returns
    /// those files, each once.
    pub fn close_cloexec(&mut self) -> (files: Vec<FileRef>)
        ensures
            final(self)@ == old(self)@.after_exec(),
            files@.no_duplicates(),
            forall|file: FileRef|
                #[trigger] files@.contains(file) <==> old(self)@.mentions_file(file)
                    && file.cloexec,
    {
        let mut files: Vec<FileRef> = Vec::new();
        let numbers: Vec<u32> = keys_of(&self.fds);
        let mut i: usize = 0;
        while i < numbers.len()
            invariant
                i <= numbers@.len(),
                numbers@.no_duplicates(),
                forall|fd: u32| numbers@.contains(fd) <==> old(self).fds@.contains_key(fd),
                self.next_fd == old(self).next_fd,
                forall|fd: u32| #[trigger] self.fds@.contains_key(fd) ==> old(self).fds@.contains_key(fd)
                    && self.fds@[fd] == old(self).fds@[fd],
                forall|k: int| 0 <= k < i ==> (self.fds@.contains_key(#[trigger] numbers@[k]) <==> !(
                old(self).fds@[numbers@[k]] matches Vfd::File(file) && file.cloexec)),
                forall|k: int| i <= k < numbers@.len() ==> self.fds@.contains_key(#[trigger] numbers@[k]),
                files@.no_duplicates(),
                forall|file: FileRef| #[trigger]
                    files@.contains(file) <==> file.cloexec && exists|k: int|
                        0 <= k < i && old(self).fds@[#[trigger] numbers@[k]] == Vfd::File(file),
            decreases numbers.len() - i,
        {
            let fd: u32 = numbers[i];
            assert(numbers@.contains(fd));
            let ghost before = files@;
            let target: Option<Vfd> = match self.fds.get(&fd) {
                Some(vfd) => Some(*vfd),
                None => None,
            };
            if let Some(Vfd::File(file)) = target {
                if file.cloexec {
                    self.fds.remove(&fd);
                    push_unique(&mut files, file);
                }
            }
            proof {
                assert forall|file: FileRef| #[trigger] files@.contains(file) <==> file.cloexec
                    && exists|k: int|
                    0 <= k < i + 1 && old(self).fds@[#[trigger] numbers@[k]] == Vfd::File(file) by {
                    assert(before.contains(file) ==> files@.contains(file));
                    if files@.contains(file) && !before.contains(file) {
                        assert(old(self).fds@[numbers@[i as int]] == Vfd::File(file));
                    }
                }
            }
            i = i + 1;
        }
        proof {
            assert forall|fd: u32| old(self).fds@.contains_key(fd) implies (self.fds@.contains_key(fd)
                <==> !(old(self).fds@[fd] matches Vfd::File(file) && file.cloexec)) by {
                assert(numbers@.contains(fd));
            }
            assert(self.fds@ =~= old(self)@.after_exec().fds);
            assert forall|file: FileRef|
                files@.contains(file) <==> old(self)@.mentions_file(file) && file.cloexec by {
                if old(self)@.mentions_file(file) {
                    let fd = choose|fd: u32| #[trigger]
                        old(self)@.fds.contains_key(fd) && old(self)@.fds[fd] == Vfd::File(file);
                    assert(numbers@.contains(fd));
                }
                if files@.contains(file) {
                    let k = choose|k: int|
                        0 <= k < i && old(self).fds@[#[trigger] numbers@[k]] == Vfd::File(file);
                    assert(numbers@.contains(numbers@[k]));
                    assert(old(self)@.fds.contains_key(numbers@[k]));
                }
            }
        }
        files
    }

    /// Closes every descriptor of a table that is about to go.
    pub fn close_all(&self, pipes: &mut PipeStore)
        requires
            old(pipes).wf(),
        ensures
            final(pipes).wf(),
            final(pipes).ids_left() == old(pipes).ids_left(),
            final(pipes)@ == self@.pipes_after_close_all(old(pipes)@),
    {
        let numbers: Vec<u32> = keys_of(&self.fds);
        let mut i: usize = 0;
        assert(numbers@.take(0) =~= Seq::<u32>::empty());
        while i < numbers.len()
            invariant
                i <= numbers@.len(),
                forall|fd: u32| numbers@.contains(fd) <==> self.fds@.contains_key(fd),
                pipes.wf(),
                pipes.ids_left() == old(pipes).ids_left(),
                pipes@.dom() =~= old(pipes)@.dom(),
                forall|id: u64| #[trigger]
                    pipes@.contains_key(id) ==> pipes@[id] == old(pipes)@[id].released(
                        count_in(self.fds@, numbers@.take(i as int), Vfd::PipeRead(id)),
                        count_in(self.fds@, numbers@.take(i as int), Vfd::PipeWrite(id)),
                    ),
            decreases numbers.len() - i,
        {
            let ghost before = pipes@;
            assert(numbers@.contains(numbers@[i as int]));
            assert(numbers@.take(i + 1).drop_last() =~= numbers@.take(i as int));
            if let Some(vfd) = self.fds.get(&numbers[i]) {
                count_closed(pipes, *vfd);
            }
            assert(forall|id: u64| pipes@.contains_key(id) ==> #[trigger] before.contains_key(id));
            i = i + 1;
        }
        proof {
            assert(numbers@.take(i as int) =~= numbers@);
            assert forall|id: u64| #[trigger] pipes@.contains_key(id) implies pipes@[id]
                == self@.pipes_after_close_all(old(pipes)@)[id] by {
                lemma_table_count(self@, numbers@, Vfd::PipeRead(id));
                lemma_table_count(self@, numbers@, Vfd::PipeWrite(id));
            }
            assert(pipes@ =~= self@.pipes_after_close_all(old(pipes)@));
        }
    }

    /// What remains of dropping the table: its descriptors are closed, and every
    /// pipe that it mentions is closed outright.
    pub fn close_dropped(&self, pipes: &mut PipeStore)
        requires
            old(pipes).wf(),
        ensures
            final(pipes).wf(),
            final(pipes).ids_left() == old(pipes).ids_left(),
            final(pipes)@ == self@.pipes_after_drop(old(pipes)@),
    {
        self.close_all(pipes);
        self.close_pipes(pipes);
    }

    /// Closes outright every pipe that the table mentions.
    pub fn close_pipes(&self, pipes: &mut PipeStore)
        requires
            old(pipes).wf(),
        ensures
            final(pipes).wf(),
            final(pipes).ids_left() == old(pipes).ids_left(),
            final(pipes)@ == close_mentioned(self@, old(pipes)@),
    {
        let numbers: Vec<u32> = keys_of(&self.fds);
        let mut i: usize = 0;
        while i < numbers.len()
            invariant
                i <= numbers@.len(),
                forall|fd: u32| numbers@.contains(fd) <==> self.fds@.contains_key(fd),
                pipes.wf(),
                pipes.ids_left() == old(pipes).ids_left(),
                pipes@.dom() =~= old(pipes)@.dom(),
                forall|id: u64| #[trigger]
                    pipes@.contains_key(id) ==> pipes@[id] == (if exists|k: int|
                        0 <= k < i && self.fds@[#[trigger] numbers@[k]].pipe() == Some(id) {
                        old(pipes)@[id].after_close()
                    } else {
                        old(pipes)@[id]
                    }),
            decreases numbers.len() - i,
        {
            assert(numbers@.contains(numbers@[i as int]));
            let ghost before = pipes@;
            match self.fds.get(&numbers[i]) {
                Some(Vfd::PipeRead(id)) | Some(Vfd::PipeWrite(id)) => {
                    pipes.close(*id);
                },
                _ => {},
            }
            proof {
                assert forall|id: u64| #[trigger] pipes@.contains_key(id) implies pipes@[id] == (
                if exists|k: int|
                    0 <= k < i + 1 && self.fds@[#[trigger] numbers@[k]].pipe() == Some(id) {
                    old(pipes)@[id].after_close()
                } else {
                    old(pipes)@[id]
                }) by {
                    assert(before.contains_key(id));
                    if self.fds@[numbers@[i as int]].pipe() == Some(id) {
                        assert(pipes@[id] == before[id].after_close());
                    } else {
                        assert(pipes@[id] == before[id]);
                    }
                }
            }
            i = i + 1;
        }
        proof {
            assert forall|id: u64| #[trigger] pipes@.contains_key(id) implies pipes@[id]
                == close_mentioned(self@, old(pipes)@)[id] by {
                if self@.mentions_pipe(id) {
                    let fd = choose|fd: u32| #[trigger]
                        self@.fds.contains_key(fd) && self@.fds[fd].pipe() == Some(id);
                    assert(numbers@.contains(fd));
                } else if exists|k: int|
                    0 <= k < i && self.fds@[#[trigger] numbers@[k]].pipe() == Some(id) {
                    let k = choose|k: int|
                        0 <= k < i && self.fds@[#[trigger] numbers@[k]].pipe() == Some(id);
                    assert(numbers@.contains(numbers@[k]));
                    assert(self@.fds.contains_key(numbers@[k]));
                }
            }
            assert(pipes@ =~= close_mentioned(self@, old(pipes)@));
        }
    }
}

/// Appends `file` to `files` where it is not there yet.
pub(crate) fn push_unique(files: &mut Vec<FileRef>, file: FileRef)
    requires
        old(files)@.no_duplicates(),
    ensures
        final(files)@.no_duplicates(),
        final(files)@ == (if old(files)@.contains(file) {
            old(files)@
        } else {
            old(files)@.push(file)
        }),
        forall|other: FileRef| #[trigger]
            final(files)@.contains(other) <==> old(files)@.contains(other) || other == file,
{
    let mut i: usize = 0;
    while i < files.len()
        invariant
            i <= files@.len(),
            files@ == old(files)@,
            old(files)@.no_duplicates(),
            forall|k: int| 0 <= k < i ==> files@[k] != file,
        decreases files.len() - i,
    {
        if files[i] == file {
            assert(files@.contains(file));
            return;
        }
        i = i + 1;
    }
    files.push(file);
    proof {
        assert forall|other: FileRef| #[trigger] files@.contains(other) <==> old(files)@.contains(
            other,
        ) || other == file by {
            if old(files)@.contains(other) {
                let k = choose|k: int| 0 <= k < old(files)@.len() && old(files)@[k] == other;
                assert(files@[k] == other);
            }
            assert(files@[files@.len() - 1] == file);
        }
    }
}

/// The number that the next descriptor gets is not in use, so that allocating
/// replaces nothing.
pub open spec fn next_is_free(table: TableView) -> bool {
    !table.fds.contains_key(table.next_fd)
}

/// Allocating never replaces a descriptor: a free next number stays free through
/// every operation but a duplication onto that very number.
pub proof fn law_next_stays_free(table: TableView, vfd: Vfd, id: u64, old_fd: u32, new_fd: u32)
    requires
        next_is_free(table),
        table.has_room(),
        table.allocated().has_room(),
    ensures
        next_is_free(table.inserted(vfd)),
        table.next_fd < table.inserted(vfd).next_fd,
        next_is_free(table.with_pipe(id)),
        next_is_free(table.without(old_fd)),
        next_is_free(table.after_exec()),
        next_is_free(table.allocated().after_dup2(old_fd, table.next_fd)),
        new_fd != table.next_fd ==> next_is_free(table.after_dup2(old_fd, new_fd)),
{
    lemma_room(table);
    lemma_room(table.allocated());
}

pub(crate) proof fn lemma_room(table: TableView)
    requires
        table.has_room(),
    ensures
        table.is_next_free(table.allocated().next_fd),
{
    let free = choose|n: u32| table.next_fd < n && !#[trigger] table.fds.contains_key(n);
    lemma_first_free(table, table.next_fd as int + 1, free);
}

proof fn lemma_first_free(table: TableView, from: int, free: u32)
    requires
        table.next_fd < from <= free,
        !table.fds.contains_key(free),
        forall|m: u32| table.next_fd < m < from ==> table.fds.contains_key(m),
    ensures
        exists|n: u32| table.is_next_free(n),
    decreases free - from,
{
    if !table.fds.contains_key(from as u32) {
        assert(table.is_next_free(from as u32));
    } else {
        lemma_first_free(table, from + 1, free);
    }
}

/// A duplicate stands for what the duplicated descriptor stands for, and no
/// other descriptor changes.
pub proof fn law_dup_shares(table: TableView, old_fd: u32, new_fd: u32, other: u32)
    requires
        table.fds.contains_key(old_fd),
        old_fd != new_fd,
        other != new_fd,
    ensures
        table.dup2_result(old_fd, new_fd) == Ok::<u32, i32>(new_fd),
        table.after_dup2(old_fd, new_fd).fds.contains_key(new_fd),
        table.after_dup2(old_fd, new_fd).fds[new_fd] == table.fds[old_fd],
        table.after_dup2(old_fd, new_fd).fds.contains_key(other) == table.fds.contains_key(other),
        table.fds.contains_key(other) ==> table.after_dup2(old_fd, new_fd).fds[other]
            == table.fds[other],
{
}

/// Closing a descriptor right after it was created restores the descriptors.
pub proof fn law_close_undoes_insert(table: TableView, vfd: Vfd)
    requires
        next_is_free(table),
    ensures
        table.inserted(vfd).without(table.next_fd).fds == table.fds,
{
    assert(table.inserted(vfd).without(table.next_fd).fds =~= table.fds);
}

/// Closing descriptors, forking or dropping a whole table takes no data out of any
/// pipe: what was written can still be read through other
/// descriptors.
pub proof fn law_close_keeps_data(
    table: TableView,
    fd: u32,
    pipes: Map<u64, PipeView>,
    id: u64,
)
    requires
        pipes.contains_key(id),
    ensures
        table.pipes_after_close(fd, pipes).contains_key(id),
        table.pipes_after_close(fd, pipes)[id].data == pipes[id].data,
        table.pipes_after_fork(pipes).contains_key(id),
        table.pipes_after_fork(pipes)[id].data == pipes[id].data,
        table.pipes_after_close_all(pipes).contains_key(id),
        table.pipes_after_close_all(pipes)[id].data == pipes[id].data,
        table.pipes_after_drop(pipes).contains_key(id),
        table.pipes_after_drop(pipes)[id].data == pipes[id].data,
{
}

/// Dropping a table ends the stream of each of its pipes: it takes no more
/// bytes, and a reader sees the end once the remaining bytes were read.
pub proof fn law_drop_ends_streams(table: TableView, pipes: Map<u64, PipeView>, id: u64, n: nat)
    requires
        pipes.contains_key(id),
        table.mentions_pipe(id),
    ensures
        table.pipes_after_drop(pipes)[id].is_closed(),
        table.pipes_after_drop(pipes)[id].write_result(n) == -1,
        pipes[id].data.len() == 0 ==> table.pipes_after_drop(pipes)[id].read_result(n) == 0,
{
}

/// A child that closes everything it inherited leaves the pipes as they were
/// before the fork, and so does a parent that closes everything it shared: closing
/// descriptors in one table does not end a pipe for another.
pub proof fn law_close_undoes_fork(table: TableView, pipes: Map<u64, PipeView>)
    requires
        forall|id: u64| #[trigger]
            pipes.contains_key(id) ==> pipes[id].readers + table.count(Vfd::PipeRead(id)) < u64::MAX
                && pipes[id].writers + table.count(Vfd::PipeWrite(id)) < u64::MAX,
    ensures
        table.pipes_after_close_all(table.pipes_after_fork(pipes)) == pipes,
{
    assert forall|id: u64| #[trigger] pipes.contains_key(id) implies table.pipes_after_close_all(
        table.pipes_after_fork(pipes),
    )[id] == pipes[id] by {
        assert(table.pipes_after_fork(pipes).contains_key(id));
    }
    assert(table.pipes_after_close_all(table.pipes_after_fork(pipes)) =~= pipes);
}

/// A descriptor that is duplicated onto an unused number, and the duplicate then
/// closed, leaves the pipes as they were.
pub proof fn law_close_undoes_dup(
    table: TableView,
    old_fd: u32,
    new_fd: u32,
    pipes: Map<u64, PipeView>,
)
    requires
        table.fds.contains_key(old_fd),
        !table.fds.contains_key(new_fd),
        forall|id: u64| #[trigger]
            pipes.contains_key(id) ==> pipes[id].readers + 1 < u64::MAX && pipes[id].writers + 1
                < u64::MAX,
    ensures
        table.after_dup2(old_fd, new_fd).pipes_after_close(
            new_fd,
            table.pipes_after_dup2(old_fd, new_fd, pipes),
        ) == pipes,
{
    assert(table.after_dup2(old_fd, new_fd).pipes_after_close(
        new_fd,
        table.pipes_after_dup2(old_fd, new_fd, pipes),
    ) =~= pipes);
}

/// A new table passes 0, 1 and 2 through to the three kernel descriptors, holds
/// nothing else, and gives out 3 next.
pub proof fn law_standard_table(stdin: i32, stdout: i32, stderr: i32, fd: u32)
    ensures
        ({
            let table = TableView::standard(stdin, stdout, stderr);
            &&& table.fds.contains_key(fd) <==> fd < 3
            &&& table.fds[0] == Vfd::Real(stdin)
            &&& table.fds[1] == Vfd::Real(stdout)
            &&& table.fds[2] == Vfd::Real(stderr)
            &&& table.next_fd == 3
        }),
{
}

/// A new descriptor gets the next number, stands for what was put there, and changes
/// no other; the number after it is the smallest larger one that is not in use.
pub proof fn law_insert_takes_next(table: TableView, vfd: Vfd, other: u32, n: u32)
    requires
        table.has_room(),
    ensures
        ({
            let after = table.inserted(vfd);
            &&& after.fds.contains_key(table.next_fd)
            &&& after.fds[table.next_fd] == vfd
            &&& other != table.next_fd ==> after.fds.contains_key(other)
                == table.fds.contains_key(other)
            &&& other != table.next_fd && table.fds.contains_key(other) ==> after.fds[other]
                == table.fds[other]
            &&& table.next_fd < after.next_fd
            &&& !table.fds.contains_key(after.next_fd)
            &&& table.next_fd < n < after.next_fd ==> table.fds.contains_key(n)
            &&& table.allocated() == (TableView { fds: table.fds, next_fd: after.next_fd })
        }),
{
    lemma_room(table);
    let next = table.allocated().next_fd;
    assert(table.is_next_free(next));
}

/// The two ends of a new pipe are ends of that pipe, the reading end under the next
/// number and the writing end under the next free one after it; no other descriptor
/// changes.
pub proof fn law_pipe_gets_two_ends(table: TableView, id: u64, other: u32)
    requires
        table.has_room(),
        table.allocated().has_room(),
    ensures
        ({
            let after = table.with_pipe(id);
            let read = table.next_fd;
            let write = table.allocated().next_fd;
            &&& read < write < after.next_fd
            &&& after.fds[read] == Vfd::PipeRead(id)
            &&& after.fds[write] == Vfd::PipeWrite(id)
            &&& after.fds.contains_key(read) && after.fds.contains_key(write)
            &&& !table.fds.contains_key(write)
            &&& other != read && other != write ==> after.fds.contains_key(other)
                == table.fds.contains_key(other)
            &&& other != read && other != write && table.fds.contains_key(other)
                ==> after.fds[other] == table.fds[other]
            &&& !after.fds.contains_key(after.next_fd)
        }),
{
    lemma_room(table);
    lemma_room(table.allocated());
}

/// Closing a descriptor frees its number and changes no other; starting a program
/// closes the files that are marked for it and nothing else; a duplication onto
/// itself, or of a number that is not in use, fails with the error for a bad
/// descriptor, and the target is closed.
pub proof fn law_close_and_exec(table: TableView, fd: u32, other: u32)
    ensures
        !table.without(fd).fds.contains_key(fd),
        other != fd ==> table.without(fd).fds.contains_key(other) == table.fds.contains_key(other),
        other != fd && table.fds.contains_key(other) ==> table.without(fd).fds[other]
            == table.fds[other],
        table.without(fd).next_fd == table.next_fd,
        table.after_exec().next_fd == table.next_fd,
        table.after_exec().fds.contains_key(fd) <==> table.fds.contains_key(fd) && !(
        table.fds[fd] is File && table.fds[fd]->File_0.cloexec),
        table.after_exec().fds.contains_key(fd) ==> table.after_exec().fds[fd] == table.fds[fd],
        table.dup2_result(fd, fd) == Err::<u32, i32>(9),
        !table.after_dup2(fd, fd).fds.contains_key(fd),
        !table.fds.contains_key(fd) ==> table.dup2_result(fd, other) == Err::<u32, i32>(9)
            && !table.after_dup2(fd, other).fds.contains_key(other),
        table.after_dup2(fd, other).next_fd == table.next_fd,
{
}

/// A descriptor that is opened or closed counts for its own pipe, at its own end, by
/// one, and for no other pipe; a descriptor that is no end of a pipe counts for none.
pub proof fn law_ends_follow_descriptors(
    table: TableView,
    fd: u32,
    pipes: Map<u64, PipeView>,
    id: u64,
    other: u64,
)
    requires
        table.fds.contains_key(fd),
        pipes.contains_key(id),
        pipes.contains_key(other),
        other != id,
        0 < pipes[id].readers < u64::MAX - 1,
        0 < pipes[id].writers < u64::MAX - 1,
    ensures
        ({
            let closed = table.pipes_after_close(fd, pipes);
            let opened = open_end(pipes, table.fds[fd]);
            &&& closed.dom() == pipes.dom() && opened.dom() == pipes.dom()
            &&& table.fds[fd] == Vfd::PipeRead(id) ==> {
                &&& closed[id] == (PipeView { readers: (pipes[id].readers - 1) as u64, ..pipes[id] })
                &&& opened[id] == (PipeView { readers: (pipes[id].readers + 1) as u64, ..pipes[id] })
                &&& closed[other] == pipes[other] && opened[other] == pipes[other]
            }
            &&& table.fds[fd] == Vfd::PipeWrite(id) ==> {
                &&& closed[id] == (PipeView { writers: (pipes[id].writers - 1) as u64, ..pipes[id] })
                &&& opened[id] == (PipeView { writers: (pipes[id].writers + 1) as u64, ..pipes[id] })
                &&& closed[other] == pipes[other] && opened[other] == pipes[other]
            }
            &&& table.fds[fd] is Real || table.fds[fd] is File ==> closed == pipes && opened
                == pipes
        }),
{
    assert(table.pipes_after_close(fd, pipes).dom() =~= pipes.dom());
    assert(open_end(pipes, table.fds[fd]).dom() =~= pipes.dom());
}

/// Dropping a table does not touch a pipe that it is no end of; copying it neither.
pub proof fn law_drop_leaves_others(table: TableView, pipes: Map<u64, PipeView>, id: u64)
    requires
        pipes.contains_key(id),
        forall|fd: u32| #[trigger]
            table.fds.contains_key(fd) ==> table.fds[fd] != Vfd::PipeRead(id) && table.fds[fd]
                != Vfd::PipeWrite(id),
        pipes[id].readers < u64::MAX,
        pipes[id].writers < u64::MAX,
    ensures
        !table.mentions_pipe(id),
        table.pipes_after_drop(pipes)[id] == pipes[id],
        table.pipes_after_close_all(pipes)[id] == pipes[id],
        table.pipes_after_fork(pipes)[id] == pipes[id],
        table.pipes_after_drop(pipes).dom() == pipes.dom(),
        table.pipes_after_fork(pipes).dom() == pipes.dom(),
{
    assert(table.numbers_of(Vfd::PipeRead(id)) =~= Set::empty());
    assert(table.numbers_of(Vfd::PipeWrite(id)) =~= Set::empty());
    assert(table.pipes_after_drop(pipes).dom() =~= pipes.dom());
    assert(table.pipes_after_fork(pipes).dom() =~= pipes.dom());
}

} // verus!
