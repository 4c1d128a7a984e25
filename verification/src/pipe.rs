//! Virtual pipes: a bounded in-process ring buffer of bytes.
//!
//! The model of a pipe is the sequence of bytes that were written and not yet
//! read, together with the number of its reading and of its writing ends and a
//! flag that says whether it was closed outright. A pipe without a writing end
//! is at the end of its stream; a pipe without a reading end takes no bytes.
//! Every operation is specified over that model; the ring buffer behind it is
//! private.

use crate::keys::keys_of;
use std::collections::hash_map::Entry;
use std::collections::HashMap;
use vstd::prelude::*;

verus! {

broadcast use vstd::std_specs::hash::group_hash_axioms;

/// Number of bytes that a pipe can hold.
pub const PIPE_CAPACITY: usize = 65536;

/// What a pipe holds, as a mathematical value.
#[verifier::ext_equal]
pub struct PipeView {
    /// Bytes written and not yet read, oldest first.
    pub data: Seq<u8>,
    /// How many reading ends there are.
    pub readers: u64,
    /// How many writing ends there are.
    pub writers: u64,
    /// The pipe was closed outright, whatever ends it still has.
    pub closed: bool,
}

/// The count `count` of ends after `n` more were opened. A count that reaches
/// the largest number stays there.
pub open spec fn more(count: u64, n: nat) -> u64 {
    if count + n >= u64::MAX {
        u64::MAX
    } else {
        (count + n) as u64
    }
}

/// The count `count` of ends after `n` of them were closed. A count that is at
/// the largest number stays there.
pub open spec fn fewer(count: u64, n: nat) -> u64 {
    if count == u64::MAX {
        u64::MAX
    } else if n >= count {
        0
    } else {
        (count - n) as u64
    }
}

impl PipeView {
    /// An open pipe without data, with one end for reading and one for writing.
    pub open spec fn empty() -> PipeView {
        PipeView { data: Seq::empty(), readers: 1, writers: 1, closed: false }
    }

    /// No more bytes will be written: a read that finds nothing is at the end
    /// of the stream.
    pub open spec fn ended(self) -> bool {
        self.closed || self.writers == 0
    }

    /// Nobody is left to read: writes fail.
    pub open spec fn broken(self) -> bool {
        self.closed || self.readers == 0
    }

    /// Neither end can be used any more.
    pub open spec fn is_closed(self) -> bool {
        self.ended() && self.broken()
    }

    /// The pipe with `r` more reading and `w` more writing ends.
    pub open spec fn opened(self, r: nat, w: nat) -> PipeView {
        PipeView { readers: more(self.readers, r), writers: more(self.writers, w), ..self }
    }

    /// The pipe with `r` reading and `w` writing ends less.
    pub open spec fn released(self, r: nat, w: nat) -> PipeView {
        PipeView { readers: fewer(self.readers, r), writers: fewer(self.writers, w), ..self }
    }

    /// The number of bytes that leave the pipe when `n` bytes are asked for.
    pub open spec fn taken(self, n: nat) -> nat {
        if n <= self.data.len() {
            n
        } else {
            self.data.len()
        }
    }

    /// What a read into a buffer of `n` bytes reports: the number of bytes
    /// moved, 0 at the end of the stream, -1 when nothing is there yet.
    pub open spec fn read_result(self, n: nat) -> int {
        if self.data.len() == 0 {
            if self.ended() {
                0
            } else {
                -1
            }
        } else {
            self.taken(n) as int
        }
    }

    /// The bytes that a read into a buffer of `n` bytes moves.
    pub open spec fn read_bytes(self, n: nat) -> Seq<u8> {
        self.data.take(self.taken(n) as int)
    }

    /// The pipe after a read into a buffer of `n` bytes.
    pub open spec fn after_read(self, n: nat) -> PipeView {
        PipeView { data: self.data.skip(self.taken(n) as int), ..self }
    }

    /// The number of bytes that a write of `n` bytes stores.
    pub open spec fn accepted(self, n: nat) -> nat {
        if self.broken() {
            0
        } else if self.data.len() + n <= PIPE_CAPACITY {
            n
        } else {
            (PIPE_CAPACITY - self.data.len()) as nat
        }
    }

    /// What a write of `n` bytes reports: the number of bytes stored, or -1
    /// when nobody is left to read or the pipe is full.
    pub open spec fn write_result(self, n: nat) -> int {
        if self.broken() || self.data.len() == PIPE_CAPACITY {
            -1
        } else {
            self.accepted(n) as int
        }
    }

    /// The pipe after a write of `src`.
    pub open spec fn after_write(self, src: Seq<u8>) -> PipeView {
        PipeView { data: self.data + src.take(self.accepted(src.len()) as int), ..self }
    }

    /// The pipe after it was closed outright. Data that is still in it stays
    /// readable.
    pub open spec fn after_close(self) -> PipeView {
        PipeView { closed: true, ..self }
    }
}

/// A pipe buffer: a ring of `PIPE_CAPACITY` bytes.
pub struct PipeBuffer {
    buf: Vec<u8>,
    read_pos: usize,
    write_pos: usize,
    len: usize,
    readers: u64,
    writers: u64,
    closed: bool,
}

impl View for PipeBuffer {
    type V = PipeView;

    closed spec fn view(&self) -> PipeView {
        PipeView {
            data: Seq::new(
                self.len as nat,
                |i: int| self.buf@[(self.read_pos + i) % (PIPE_CAPACITY as int)],
            ),
            readers: self.readers,
            writers: self.writers,
            closed: self.closed,
        }
    }
}

impl PipeBuffer {
    /// The positions describe a range of the ring.
    pub closed spec fn wf(&self) -> bool {
        &&& self.buf@.len() == PIPE_CAPACITY
        &&& self.read_pos < PIPE_CAPACITY
        &&& self.write_pos < PIPE_CAPACITY
        &&& self.len <= PIPE_CAPACITY
        &&& self.write_pos == (self.read_pos + self.len) % (PIPE_CAPACITY as int)
    }

    /// A new, open and empty pipe with its two ends.
    pub fn new() -> (pipe: PipeBuffer)
        ensures
            pipe.wf(),
            pipe@ == PipeView::empty(),
    {
        let mut buf: Vec<u8> = Vec::new();
        buf.resize(PIPE_CAPACITY, 0);
        let pipe = PipeBuffer {
            buf,
            read_pos: 0,
            write_pos: 0,
            len: 0,
            readers: 1,
            writers: 1,
            closed: false,
        };
        assert(pipe@.data =~= Seq::<u8>::empty());
        pipe
    }

    /// Moves bytes from the front of the pipe into `dst`, as many as are there
    /// and fit. Returns their number, 0 at the end of the stream (drained, with
    /// nobody left to write), -1 when the pipe is open and empty.
    pub fn read_from(&mut self, dst: &mut [u8]) -> (n: isize)
        requires
            old(self).wf(),
        ensures
            final(self).wf(),
            n == old(self)@.read_result(old(dst)@.len()),
            final(self)@ == old(self)@.after_read(old(dst)@.len()),
            final(dst)@ == old(self)@.read_bytes(old(dst)@.len())
                + old(dst)@.skip(old(self)@.taken(old(dst)@.len()) as int),
    {
        let ghost before = self@;
        let ghost dst0 = dst@;
        if self.len == 0 {
            assert(self@ =~= before.after_read(dst0.len()));
            assert(dst@ =~= before.read_bytes(dst0.len()) + dst0.skip(0));
            if self.is_ended() {
                return 0;
            }
            return -1;
        }
        let n: usize = if dst.len() < self.len { dst.len() } else { self.len };
        let start: usize = self.read_pos;
        let mut i: usize = 0;
        while i < n
            invariant
                i <= n,
                n <= dst@.len(),
                n <= self.len,
                dst@.len() == dst0.len(),
                self.len <= PIPE_CAPACITY,
                self.buf == old(self).buf,
                self.len == old(self).len,
                self.write_pos == old(self).write_pos,
                self.readers == old(self).readers,
                self.writers == old(self).writers,
                self.closed == old(self).closed,
                self.buf@.len() == PIPE_CAPACITY,
                start == old(self).read_pos,
                start < PIPE_CAPACITY,
                self.read_pos == (start + i) % (PIPE_CAPACITY as int),
                before == old(self)@,
                dst@ =~= before.data.take(i as int) + dst0.skip(i as int),
            decreases n - i,
        {
            let byte: u8 = self.buf[self.read_pos];
            assert(byte == before.data[i as int]);
            dst[i] = byte;
            proof {
                lemma_wrap_shift(start + i, 1);
            }
            self.read_pos = (self.read_pos + 1) % PIPE_CAPACITY;
            i = i + 1;
        }
        self.len = self.len - n;
        proof {
            assert forall|j: int| 0 <= j < self.len implies #[trigger] self@.data[j]
                == before.data.skip(n as int)[j] by {
                lemma_wrap_shift(start + n, j);
            }
            lemma_wrap_shift(start + n, self.len as int);
            assert(self@.data =~= before.data.skip(n as int));
        }
        n as isize
    }

    /// Appends bytes of `src` to the pipe, as many as there is room for.
    /// Returns their number, or -1 when nobody is left to read or the pipe is
    /// full.
    pub fn write_to(&mut self, src: &[u8]) -> (n: isize)
        requires
            old(self).wf(),
        ensures
            final(self).wf(),
            n == old(self)@.write_result(src@.len()),
            final(self)@ == old(self)@.after_write(src@),
    {
        let ghost before = self@;
        if self.is_broken() {
            assert(self@ =~= before.after_write(src@));
            return -1;
        }
        let available: usize = PIPE_CAPACITY - self.len;
        if available == 0 {
            assert(self@ =~= before.after_write(src@));
            return -1;
        }
        let n: usize = if src.len() < available { src.len() } else { available };
        let start: usize = self.write_pos;
        let mut i: usize = 0;
        while i < n
            invariant
                i <= n,
                n <= src@.len(),
                n + self.len <= PIPE_CAPACITY,
                self.len == old(self).len,
                self.read_pos == old(self).read_pos,
                self.readers == old(self).readers,
                self.writers == old(self).writers,
                self.closed == old(self).closed,
                self.read_pos < PIPE_CAPACITY,
                self.buf@.len() == PIPE_CAPACITY,
                start == (self.read_pos + self.len) % (PIPE_CAPACITY as int),
                self.write_pos == (start + i) % (PIPE_CAPACITY as int),
                before == old(self)@,
                before.data.len() == self.len,
                forall|j: int|
                    0 <= j < self.len ==> #[trigger] before.data[j] == self.buf@[(self.read_pos
                        + j) % (PIPE_CAPACITY as int)],
                forall|j: int|
                    0 <= j < i ==> #[trigger] src@[j] == self.buf@[(self.read_pos + self.len + j)
                        % (PIPE_CAPACITY as int)],
            decreases n - i,
        {
            let ghost buf0 = self.buf@;
            let pos: usize = self.write_pos;
            proof {
                lemma_wrap_shift(self.read_pos + self.len, i as int);
                assert forall|j: int| 0 <= j < self.len + i implies pos != #[trigger] ((
                self.read_pos + j) % (PIPE_CAPACITY as int)) by {
                    lemma_wrap_distinct(self.read_pos as int, j, self.len + i);
                }
            }
            self.buf[pos] = src[i];
            proof {
                lemma_wrap_shift(start + i, 1);
                assert forall|j: int| 0 <= j < i implies #[trigger] src@[j] == self.buf@[(
                self.read_pos + self.len + j) % (PIPE_CAPACITY as int)] by {
                    lemma_wrap_distinct(self.read_pos as int, self.len + j, self.len + i);
                }
            }
            self.write_pos = (self.write_pos + 1) % PIPE_CAPACITY;
            i = i + 1;
        }
        self.len = self.len + n;
        proof {
            lemma_wrap_shift(self.read_pos + old(self).len, n as int);
            assert(self@.data =~= before.data + src@.take(n as int));
        }
        n as isize
    }

    /// Closes the pipe outright, whatever ends it has: writes fail from now on,
    /// and reads report the end of the stream once the remaining data was read.
    pub fn close(&mut self)
        requires
            old(self).wf(),
        ensures
            final(self).wf(),
            final(self)@ == old(self)@.after_close(),
    {
        let ghost before = self@;
        self.closed = true;
        assert(self@ =~= before.after_close());
    }

    /// Whether the pipe can no longer be used at either end.
    pub fn is_closed(&self) -> (closed: bool)
        ensures
            closed == self@.is_closed(),
    {
        self.is_ended() && self.is_broken()
    }

    /// Whether nobody is left to write.
    pub fn is_ended(&self) -> (ended: bool)
        ensures
            ended == self@.ended(),
    {
        self.closed || self.writers == 0
    }

    /// Whether nobody is left to read.
    pub fn is_broken(&self) -> (broken: bool)
        ensures
            broken == self@.broken(),
    {
        self.closed || self.readers == 0
    }

    /// Counts one more reading end.
    pub fn open_reader(&mut self)
        requires
            old(self).wf(),
        ensures
            final(self).wf(),
            final(self)@ == old(self)@.opened(1, 0),
    {
        let ghost before = self@;
        if self.readers < u64::MAX {
            self.readers = self.readers + 1;
        }
        assert(self@ =~= before.opened(1, 0));
    }

    /// Counts one more writing end.
    pub fn open_writer(&mut self)
        requires
            old(self).wf(),
        ensures
            final(self).wf(),
            final(self)@ == old(self)@.opened(0, 1),
    {
        let ghost before = self@;
        if self.writers < u64::MAX {
            self.writers = self.writers + 1;
        }
        assert(self@ =~= before.opened(0, 1));
    }

    /// Counts one reading end less.
    pub fn close_reader(&mut self)
        requires
            old(self).wf(),
        ensures
            final(self).wf(),
            final(self)@ == old(self)@.released(1, 0),
    {
        let ghost before = self@;
        if 0 < self.readers && self.readers < u64::MAX {
            self.readers = self.readers - 1;
        }
        assert(self@ =~= before.released(1, 0));
    }

    /// Counts one writing end less.
    pub fn close_writer(&mut self)
        requires
            old(self).wf(),
        ensures
            final(self).wf(),
            final(self)@ == old(self)@.released(0, 1),
    {
        let ghost before = self@;
        if 0 < self.writers && self.writers < u64::MAX {
            self.writers = self.writers - 1;
        }
        assert(self@ =~= before.released(0, 1));
    }

    /// Whether there is nothing to read.
    pub fn is_empty(&self) -> (empty: bool)
        ensures
            empty == (self@.data.len() == 0),
    {
        self.len == 0
    }

    /// Whether there is no room left.
    pub fn is_full(&self) -> (full: bool)
        ensures
            full == (self@.data.len() == PIPE_CAPACITY),
    {
        self.len == PIPE_CAPACITY
    }
}

/// The pipes that are in use, by identity. Two descriptors are ends of the same
/// pipe exactly when they hold the same identity, and an identity is never
/// given out twice.
pub struct PipeStore {
    pipes: HashMap<u64, PipeBuffer>,
    next_id: u64,
}

impl View for PipeStore {
    type V = Map<u64, PipeView>;

    closed spec fn view(&self) -> Map<u64, PipeView> {
        Map::new(|id: u64| self.pipes@.contains_key(id), |id: u64| self.pipes@[id]@)
    }
}

/// The pipes `pipes` after `r` more reading and `w` more writing ends of pipe
/// `id` were opened.
pub open spec fn open_ends(pipes: Map<u64, PipeView>, id: u64, r: nat, w: nat) -> Map<
    u64,
    PipeView,
> {
    if pipes.contains_key(id) {
        pipes.insert(id, pipes[id].opened(r, w))
    } else {
        pipes
    }
}

/// The pipes `pipes` after `r` reading and `w` writing ends of pipe `id` were
/// closed.
pub open spec fn close_ends(pipes: Map<u64, PipeView>, id: u64, r: nat, w: nat) -> Map<
    u64,
    PipeView,
> {
    if pipes.contains_key(id) {
        pipes.insert(id, pipes[id].released(r, w))
    } else {
        pipes
    }
}

/// The pipes `pipes` after pipe `id` was closed outright.
pub open spec fn close_pipe(pipes: Map<u64, PipeView>, id: u64) -> Map<u64, PipeView> {
    if pipes.contains_key(id) {
        pipes.insert(id, pipes[id].after_close())
    } else {
        pipes
    }
}

impl PipeStore {
    /// Every buffer is well formed, and no identity in use will be given out.
    pub closed spec fn wf(&self) -> bool {
        &&& forall|id: u64| #[trigger] self.pipes@.contains_key(id) ==> self.pipes@[id].wf()
        &&& forall|id: u64| #[trigger] self.pipes@.contains_key(id) ==> id < self.next_id
    }

    /// How many more pipes can be created.
    pub closed spec fn ids_left(&self) -> nat {
        (u64::MAX - self.next_id) as nat
    }

    /// Whether another `n` pipes can be created.
    pub fn can_create(&self, n: u64) -> (yes: bool)
        ensures
            yes == (n <= self.ids_left()),
    {
        n <= u64::MAX - self.next_id
    }

    /// No pipes.
    pub fn new() -> (store: PipeStore)
        ensures
            store.wf(),
            store@ == Map::<u64, PipeView>::empty(),
            store.ids_left() == u64::MAX,
    {
        let store = PipeStore { pipes: HashMap::new(), next_id: 0 };
        assert(store@ =~= Map::<u64, PipeView>::empty());
        store
    }

    /// Creates an empty pipe with its two ends and returns its identity.
    pub fn create(&mut self) -> (id: u64)
        requires
            old(self).wf(),
            old(self).ids_left() > 0,
        ensures
            final(self).wf(),
            !old(self)@.contains_key(id),
            final(self)@ == old(self)@.insert(id, PipeView::empty()),
            final(self).ids_left() == old(self).ids_left() - 1,
    {
        let id: u64 = self.next_id;
        self.next_id = self.next_id + 1;
        self.pipes.insert(id, PipeBuffer::new());
        assert(self@ =~= old(self)@.insert(id, PipeView::empty()));
        id
    }

    /// The pipe `id`.
    pub fn get(&self, id: u64) -> (pipe: Option<&PipeBuffer>)
        requires
            self.wf(),
        ensures
            match pipe {
                Some(buffer) => buffer.wf() && self@.contains_key(id) && self@[id] == buffer@,
                None => !self@.contains_key(id),
            },
    {
        self.pipes.get(&id)
    }

    /// Reads from the pipe `id`, as `PipeBuffer::read_from` does.
    pub fn read_from(&mut self, id: u64, dst: &mut [u8]) -> (n: isize)
        requires
            old(self).wf(),
            old(self)@.contains_key(id),
        ensures
            final(self).wf(),
            final(self).ids_left() == old(self).ids_left(),
            n == old(self)@[id].read_result(old(dst)@.len()),
            final(self)@ == old(self)@.insert(id, old(self)@[id].after_read(old(dst)@.len())),
            final(dst)@ == old(self)@[id].read_bytes(old(dst)@.len())
                + old(dst)@.skip(old(self)@[id].taken(old(dst)@.len()) as int),
    {
        let ghost len = dst@.len();
        let n: isize = match self.pipes.entry(id) {
            Entry::Occupied(entry) => entry.into_mut().read_from(dst),
            Entry::Vacant(_) => 0,
        };
        assert(self@ =~= old(self)@.insert(id, old(self)@[id].after_read(len)));
        n
    }

    /// Writes to the pipe `id`, as `PipeBuffer::write_to` does.
    pub fn write_to(&mut self, id: u64, src: &[u8]) -> (n: isize)
        requires
            old(self).wf(),
            old(self)@.contains_key(id),
        ensures
            final(self).wf(),
            final(self).ids_left() == old(self).ids_left(),
            n == old(self)@[id].write_result(src@.len()),
            final(self)@ == old(self)@.insert(id, old(self)@[id].after_write(src@)),
    {
        let n: isize = match self.pipes.entry(id) {
            Entry::Occupied(entry) => entry.into_mut().write_to(src),
            Entry::Vacant(_) => 0,
        };
        assert(self@ =~= old(self)@.insert(id, old(self)@[id].after_write(src@)));
        n
    }

    /// Counts one more reading end of the pipe `id`, where it exists.
    pub fn open_reader(&mut self, id: u64)
        requires
            old(self).wf(),
        ensures
            final(self).wf(),
            final(self).ids_left() == old(self).ids_left(),
            final(self)@ == open_ends(old(self)@, id, 1, 0),
    {
        match self.pipes.entry(id) {
            Entry::Occupied(entry) => entry.into_mut().open_reader(),
            Entry::Vacant(_) => {},
        }
        assert(self@ =~= open_ends(old(self)@, id, 1, 0));
    }

    /// Counts one more writing end of the pipe `id`, where it exists.
    pub fn open_writer(&mut self, id: u64)
        requires
            old(self).wf(),
        ensures
            final(self).wf(),
            final(self).ids_left() == old(self).ids_left(),
            final(self)@ == open_ends(old(self)@, id, 0, 1),
    {
        match self.pipes.entry(id) {
            Entry::Occupied(entry) => entry.into_mut().open_writer(),
            Entry::Vacant(_) => {},
        }
        assert(self@ =~= open_ends(old(self)@, id, 0, 1));
    }

    /// Counts one reading end of the pipe `id` less, where it exists.
    pub fn close_reader(&mut self, id: u64)
        requires
            old(self).wf(),
        ensures
            final(self).wf(),
            final(self).ids_left() == old(self).ids_left(),
            final(self)@ == close_ends(old(self)@, id, 1, 0),
    {
        match self.pipes.entry(id) {
            Entry::Occupied(entry) => entry.into_mut().close_reader(),
            Entry::Vacant(_) => {},
        }
        assert(self@ =~= close_ends(old(self)@, id, 1, 0));
    }

    /// Counts one writing end of the pipe `id` less, where it exists.
    pub fn close_writer(&mut self, id: u64)
        requires
            old(self).wf(),
        ensures
            final(self).wf(),
            final(self).ids_left() == old(self).ids_left(),
            final(self)@ == close_ends(old(self)@, id, 0, 1),
    {
        match self.pipes.entry(id) {
            Entry::Occupied(entry) => entry.into_mut().close_writer(),
            Entry::Vacant(_) => {},
        }
        assert(self@ =~= close_ends(old(self)@, id, 0, 1));
    }

    /// Closes the pipe `id` outright, where it exists.
    pub fn close(&mut self, id: u64)
        requires
            old(self).wf(),
        ensures
            final(self).wf(),
            final(self).ids_left() == old(self).ids_left(),
            final(self)@ == close_pipe(old(self)@, id),
    {
        match self.pipes.entry(id) {
            Entry::Occupied(entry) => entry.into_mut().close(),
            Entry::Vacant(_) => {},
        }
        assert(self@ =~= close_pipe(old(self)@, id));
    }

    /// The identities of the pipes, each once, in no particular order.
    pub fn ids(&self) -> (ids: Vec<u64>)
        ensures
            ids@.no_duplicates(),
            forall|id: u64| ids@.contains(id) <==> self@.contains_key(id),
    {
        keys_of(&self.pipes)
    }

    /// Frees the pipe `id`.
    pub fn remove(&mut self, id: u64)
        requires
            old(self).wf(),
        ensures
            final(self).wf(),
            final(self).ids_left() == old(self).ids_left(),
            final(self)@ == old(self)@.remove(id),
    {
        self.pipes.remove(&id);
        assert(self@ =~= old(self)@.remove(id));
    }
}

/// One use of a pipe.
pub enum PipeOp {
    Write(Seq<u8>),
    Read(nat),
    /// So many reading and writing ends are opened.
    Open(nat, nat),
    /// So many reading and writing ends are closed.
    Release(nat, nat),
    /// The pipe is closed outright.
    Close,
}

/// The pipe after `op`.
pub open spec fn pipe_step(pipe: PipeView, op: PipeOp) -> PipeView {
    match op {
        PipeOp::Write(src) => pipe.after_write(src),
        PipeOp::Read(n) => pipe.after_read(n),
        PipeOp::Open(r, w) => pipe.opened(r, w),
        PipeOp::Release(r, w) => pipe.released(r, w),
        PipeOp::Close => pipe.after_close(),
    }
}

/// The pipe after the uses `ops`, in order.
pub open spec fn pipe_run(pipe: PipeView, ops: Seq<PipeOp>) -> PipeView
    decreases ops.len(),
{
    if ops.len() == 0 {
        pipe
    } else {
        pipe_step(pipe_run(pipe, ops.drop_last()), ops.last())
    }
}

/// All bytes that the writes in `ops` stored, in order.
pub open spec fn bytes_written(pipe: PipeView, ops: Seq<PipeOp>) -> Seq<u8>
    decreases ops.len(),
{
    if ops.len() == 0 {
        Seq::empty()
    } else {
        let now = pipe_run(pipe, ops.drop_last());
        bytes_written(pipe, ops.drop_last()) + match ops.last() {
            PipeOp::Write(src) => src.take(now.accepted(src.len()) as int),
            _ => Seq::empty(),
        }
    }
}

/// All bytes that the reads in `ops` returned, in order.
pub open spec fn bytes_read(pipe: PipeView, ops: Seq<PipeOp>) -> Seq<u8>
    decreases ops.len(),
{
    if ops.len() == 0 {
        Seq::empty()
    } else {
        let now = pipe_run(pipe, ops.drop_last());
        bytes_read(pipe, ops.drop_last()) + match ops.last() {
            PipeOp::Read(n) => now.read_bytes(n),
            _ => Seq::empty(),
        }
    }
}

/// A pipe holds at most `PIPE_CAPACITY` bytes.
pub proof fn law_pipe_capacity(pipe: PipeBuffer)
    requires
        pipe.wf(),
    ensures
        pipe@.data.len() <= PIPE_CAPACITY,
{
}

/// A pipe is a faithful queue: over any history of writes, reads and openings
/// and closings of its ends, the bytes read followed by the bytes still inside are the bytes that were
/// inside at first followed by the bytes written. Nothing is lost, repeated or
/// reordered, and the capacity is never exceeded.
pub proof fn law_pipe_history(pipe: PipeView, ops: Seq<PipeOp>)
    requires
        pipe.data.len() <= PIPE_CAPACITY,
    ensures
        bytes_read(pipe, ops) + pipe_run(pipe, ops).data == pipe.data + bytes_written(pipe, ops),
        pipe_run(pipe, ops).data.len() <= PIPE_CAPACITY,
    decreases ops.len(),
{
    if ops.len() == 0 {
        assert(Seq::<u8>::empty() + pipe.data =~= pipe.data + Seq::<u8>::empty());
    } else {
        let before = ops.drop_last();
        law_pipe_history(pipe, before);
        let now = pipe_run(pipe, before);
        match ops.last() {
            PipeOp::Write(src) => {
                let added = src.take(now.accepted(src.len()) as int);
                assert((bytes_read(pipe, before) + Seq::<u8>::empty()) + (now.data + added) =~= (
                bytes_read(pipe, before) + now.data) + added);
                assert(pipe.data + (bytes_written(pipe, before) + added) =~= (pipe.data
                    + bytes_written(pipe, before)) + added);
            },
            PipeOp::Read(n) => {
                let out = now.read_bytes(n);
                assert(out + now.data.skip(now.taken(n) as int) =~= now.data);
                assert((bytes_read(pipe, before) + out) + now.data.skip(now.taken(n) as int)
                    =~= bytes_read(pipe, before) + now.data);
                assert(bytes_written(pipe, before) + Seq::<u8>::empty() =~= bytes_written(
                    pipe,
                    before,
                ));
            },
            _ => {
                assert(bytes_read(pipe, before) + Seq::<u8>::empty() =~= bytes_read(pipe, before));
                assert(bytes_written(pipe, before) + Seq::<u8>::empty() =~= bytes_written(
                    pipe,
                    before,
                ));
            },
        }
    }
}

/// What was written to an empty open pipe is what the next read of the same
/// size returns, as long as it fits.
pub proof fn law_pipe_round_trip(src: Seq<u8>)
    requires
        src.len() <= PIPE_CAPACITY,
    ensures
        PipeView::empty().after_write(src).read_bytes(src.len()) == src,
        PipeView::empty().after_write(src).after_read(src.len()).data.len() == 0,
{
    assert(src.take(src.len() as int) =~= src);
    assert(Seq::<u8>::empty() + src =~= src);
    assert(src.take(src.len() as int) =~= src);
}

/// A pipe that was closed outright stays closed and takes no more bytes; what is
/// in it can still be read, and once it is empty every read reports the end of
/// the stream.
pub proof fn law_pipe_end_of_stream(pipe: PipeView, ops: Seq<PipeOp>, n: nat)
    requires
        pipe.closed,
    ensures
        pipe_run(pipe, ops).closed,
        bytes_written(pipe, ops) == Seq::<u8>::empty(),
        pipe_run(pipe, ops).write_result(n) == -1,
        pipe_run(pipe, ops).data.len() == 0 ==> pipe_run(pipe, ops).read_result(n) == 0,
        pipe_run(pipe, ops).data.len() > 0 && n > 0 ==> pipe_run(pipe, ops).read_result(n) > 0,
    decreases ops.len(),
{
    if ops.len() > 0 {
        law_pipe_end_of_stream(pipe, ops.drop_last(), n);
        assert(bytes_written(pipe, ops) =~= Seq::<u8>::empty());
    }
}

/// The last bytes of a pipe are not lost when its last writing end goes: they
/// are read first, and the end of the stream is reported after them. While a
/// writing end is left, an empty pipe reports that nothing is there yet.
pub proof fn law_pipe_last_writer(pipe: PipeView, w: nat, n: nat)
    requires
        !pipe.closed,
        pipe.writers < u64::MAX,
    ensures
        pipe.released(0, w).data == pipe.data,
        pipe.released(0, w).ended() <==> pipe.writers <= w,
        pipe.released(0, w).broken() == pipe.broken(),
        pipe.data.len() > 0 && n > 0 ==> pipe.released(0, w).read_result(n) > 0,
        pipe.data.len() == 0 && pipe.writers <= w ==> pipe.released(0, w).read_result(n) == 0,
        pipe.data.len() == 0 && pipe.writers > w ==> pipe.released(0, w).read_result(n) == -1,
{
}

/// When the last reading end goes every write fails, and no write fails for
/// want of a reader while one is left.
pub proof fn law_pipe_last_reader(pipe: PipeView, r: nat, n: nat)
    requires
        !pipe.closed,
        pipe.readers < u64::MAX,
        pipe.data.len() < PIPE_CAPACITY,
    ensures
        pipe.released(r, 0).write_result(n) == -1 <==> pipe.readers <= r,
        pipe.released(r, 0).ended() == pipe.ended(),
{
}

/// Ends that are opened and then closed leave the pipe as it was.
pub proof fn law_pipe_open_close(pipe: PipeView, r: nat, w: nat)
    requires
        pipe.readers + r < u64::MAX,
        pipe.writers + w < u64::MAX,
    ensures
        pipe.opened(r, w).released(r, w) == pipe,
{
}

proof fn lemma_wrap_shift(a: int, j: int)
    ensures
        (a % (PIPE_CAPACITY as int) + j) % (PIPE_CAPACITY as int) == (a + j) % (
        PIPE_CAPACITY as int),
{
}

proof fn lemma_wrap_distinct(a: int, i: int, j: int)
    requires
        0 <= i < j < PIPE_CAPACITY,
    ensures
        (a + i) % (PIPE_CAPACITY as int) != (a + j) % (PIPE_CAPACITY as int),
{
}

/// A read takes as much as it can, from the front: it fills the buffer or empties the
/// pipe, reports how many bytes it moved, and leaves the rest in order. On an empty
/// pipe it reports the end of the stream or that nothing is there yet.
pub proof fn law_read_takes_all_it_can(pipe: PipeView, n: nat)
    ensures
        pipe.read_bytes(n) + pipe.after_read(n).data == pipe.data,
        pipe.read_bytes(n).len() == n || pipe.after_read(n).data.len() == 0,
        pipe.read_bytes(n).len() <= n,
        pipe.taken(n) == pipe.read_bytes(n).len(),
        pipe.data.len() > 0 ==> pipe.read_result(n) == pipe.read_bytes(n).len(),
        pipe.data.len() == 0 && (pipe.closed || pipe.writers == 0) ==> pipe.read_result(n) == 0,
        pipe.data.len() == 0 && !pipe.closed && pipe.writers > 0 ==> pipe.read_result(n) == -1,
        pipe.after_read(n) == (PipeView { data: pipe.after_read(n).data, ..pipe }),
{
    assert(pipe.read_bytes(n) + pipe.after_read(n).data =~= pipe.data);
}

/// A write stores as much as it can, at the end: all of it, or the first bytes up to
/// the capacity of 65536. It reports how many, and -1 where it can store nothing:
/// the pipe is full, closed outright, or nobody is left to read. Then nothing
/// changes.
pub proof fn law_write_stores_all_it_can(pipe: PipeView, src: Seq<u8>)
    requires
        pipe.data.len() <= 65536,
    ensures
        ({
            let after = pipe.after_write(src);
            let stored = after.data.skip(pipe.data.len() as int);
            let refused = pipe.closed || pipe.readers == 0 || pipe.data.len() == 65536;
            &&& pipe.data.len() <= after.data.len() <= 65536
            &&& after.data.take(pipe.data.len() as int) == pipe.data
            &&& stored.len() <= src.len()
            &&& stored == src.take(stored.len() as int)
            &&& refused ==> pipe.write_result(src.len()) == -1 && after.data == pipe.data
            &&& !refused ==> pipe.write_result(src.len()) == stored.len() && (stored == src
                || after.data.len() == 65536)
            &&& after == (PipeView { data: after.data, ..pipe })
        }),
{
    let after = pipe.after_write(src);
    let stored = after.data.skip(pipe.data.len() as int);
    assert(after.data.take(pipe.data.len() as int) =~= pipe.data);
    assert(stored =~= src.take(pipe.accepted(src.len()) as int));
    assert(stored =~= src.take(stored.len() as int));
    assert(stored.len() == src.len() ==> stored =~= src);
    if pipe.closed || pipe.readers == 0 || pipe.data.len() == 65536 {
        assert(after.data =~= pipe.data);
    }
}

/// A new pipe is open and empty, with one end of each kind, and ends are counted one
/// by one.
pub proof fn law_new_pipe(pipe: PipeView, r: nat, w: nat)
    ensures
        PipeView::empty().data.len() == 0,
        PipeView::empty().readers == 1,
        PipeView::empty().writers == 1,
        !PipeView::empty().closed,
        pipe.readers + r < u64::MAX ==> pipe.opened(r, w).readers == pipe.readers + r,
        pipe.writers + w < u64::MAX ==> pipe.opened(r, w).writers == pipe.writers + w,
        pipe.opened(r, w).data == pipe.data && pipe.opened(r, w).closed == pipe.closed,
        r <= pipe.readers < u64::MAX ==> pipe.released(r, w).readers == pipe.readers - r,
        w <= pipe.writers < u64::MAX ==> pipe.released(r, w).writers == pipe.writers - w,
        pipe.released(r, w).data == pipe.data && pipe.released(r, w).closed == pipe.closed,
        pipe.after_close().closed,
        pipe.after_close() == (PipeView { closed: true, ..pipe }),
        pipe.ended() <==> pipe.closed || pipe.writers == 0,
        pipe.broken() <==> pipe.closed || pipe.readers == 0,
{
}

/// Opening or closing ends of one pipe, or closing it outright, leaves all other
/// pipes alone, and makes or removes none.
pub proof fn law_pipes_apart(pipes: Map<u64, PipeView>, id: u64, other: u64, r: nat, w: nat)
    requires
        pipes.contains_key(id),
        pipes.contains_key(other),
    ensures
        open_ends(pipes, id, r, w).dom() == pipes.dom(),
        close_ends(pipes, id, r, w).dom() == pipes.dom(),
        close_pipe(pipes, id).dom() == pipes.dom(),
        open_ends(pipes, id, r, w)[id] == pipes[id].opened(r, w),
        close_ends(pipes, id, r, w)[id] == pipes[id].released(r, w),
        close_pipe(pipes, id)[id] == (PipeView { closed: true, ..pipes[id] }),
        other != id ==> open_ends(pipes, id, r, w)[other] == pipes[other],
        other != id ==> close_ends(pipes, id, r, w)[other] == pipes[other],
        other != id ==> close_pipe(pipes, id)[other] == pipes[other],
{
    assert(open_ends(pipes, id, r, w).dom() =~= pipes.dom());
    assert(close_ends(pipes, id, r, w).dom() =~= pipes.dom());
    assert(close_pipe(pipes, id).dom() =~= pipes.dom());
}

} // verus!
