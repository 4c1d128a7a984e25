//! The descriptor tables of all virtual processes.

use crate::keys::keys_of;
use crate::pipe::{PipeStore, PipeView};
use crate::vfd::{
    lemma_room, next_is_free, push_unique, FileRef, TableView, Vfd, VfdTable,
};
use std::collections::hash_map::Entry;
use std::collections::HashMap;
use vstd::prelude::*;

verus! {

broadcast use vstd::std_specs::hash::group_hash_axioms;

/// The tables of all processes, as a mathematical value.
#[verifier::ext_equal]
pub struct FdTablesView {
    pub tables: Map<u32, TableView>,
    /// The identity that the next opened file gets.
    pub next_file: u64,
}

impl FdTablesView {
    /// Some descriptor of some process is an end of pipe `id`.
    pub open spec fn mentions_pipe(self, id: u64) -> bool {
        exists|vpid: u32| #[trigger]
            self.tables.contains_key(vpid) && self.tables[vpid].mentions_pipe(id)
    }

    /// Some descriptor of some process refers to the open file `file`.
    pub open spec fn mentions_file(self, file: FileRef) -> bool {
        exists|vpid: u32| #[trigger]
            self.tables.contains_key(vpid) && self.tables[vpid].mentions_file(file)
    }

    /// File identities in use were given out before.
    pub open spec fn wf(self) -> bool {
        forall|vpid: u32, fd: u32|
            #![trigger self.tables[vpid].fds[fd]]
            self.tables.contains_key(vpid) && self.tables[vpid].fds.contains_key(fd) ==> (
            self.tables[vpid].fds[fd] matches Vfd::File(file) ==> file.id < self.next_file)
    }

    /// The tables after `vpid` got the table `table`.
    pub open spec fn with(self, vpid: u32, table: TableView) -> FdTablesView {
        FdTablesView { tables: self.tables.insert(vpid, table), next_file: self.next_file }
    }

    /// The tables without that of `vpid`.
    pub open spec fn without(self, vpid: u32) -> FdTablesView {
        FdTablesView { tables: self.tables.remove(vpid), next_file: self.next_file }
    }

    /// The table of `vpid`, or a fresh one where it has none.
    pub open spec fn table_or_new(self, vpid: u32) -> TableView {
        if self.tables.contains_key(vpid) {
            self.tables[vpid]
        } else {
            TableView::standard(0, 1, 2)
        }
    }

    /// The pipes `pipes` after the table of `vpid` was dropped.
    pub open spec fn pipes_after_drop(self, vpid: u32, pipes: Map<u64, PipeView>) -> Map<
        u64,
        PipeView,
    > {
        if self.tables.contains_key(vpid) {
            self.tables[vpid].pipes_after_drop(pipes)
        } else {
            pipes
        }
    }

    /// The pipes `pipes` after `child` got a copy of the table of `parent`, in
    /// place of its own.
    pub open spec fn pipes_after_fork(
        self,
        parent: u32,
        child: u32,
        pipes: Map<u64, PipeView>,
    ) -> Map<u64, PipeView> {
        if self.tables.contains_key(parent) {
            self.pipes_after_drop(child, self.tables[parent].pipes_after_fork(pipes))
        } else {
            self.pipes_after_drop(child, pipes)
        }
    }

    /// The descriptors of the processes `who` that stand for `vfd`, each as the
    /// number of its process and its own.
    pub open spec fn held(self, who: Set<u32>, vfd: Vfd) -> Set<(u32, u32)> {
        Set::new(|at: (u32, u32)| who.contains(at.0) && lookup_vfd(self, at.0, at.1) == Some(vfd))
    }

    /// Some descriptor of one of the processes `who` is an end of pipe `id`.
    pub open spec fn mentioned_by(self, who: Set<u32>, id: u64) -> bool {
        exists|vpid: u32| #[trigger]
            self.tables.contains_key(vpid) && who.contains(vpid) && self.tables[vpid].mentions_pipe(
                id,
            )
    }

    /// The pipes `pipes` after the tables of the processes `who` were dropped: the
    /// ends that they held are gone, and each of their pipes is closed outright.
    pub open spec fn pipes_after_drops(self, who: Set<u32>, pipes: Map<u64, PipeView>) -> Map<
        u64,
        PipeView,
    > {
        Map::new(
            |id: u64| pipes.contains_key(id),
            |id: u64|
                if self.mentioned_by(who, id) {
                    self.pipes_after_closes(who, pipes)[id].after_close()
                } else {
                    pipes[id]
                },
        )
    }

    /// The pipes `pipes` after the processes `who` closed all their descriptors.
    pub open spec fn pipes_after_closes(self, who: Set<u32>, pipes: Map<u64, PipeView>) -> Map<
        u64,
        PipeView,
    > {
        Map::new(
            |id: u64| pipes.contains_key(id),
            |id: u64|
                pipes[id].released(
                    self.held(who, Vfd::PipeRead(id)).len(),
                    self.held(who, Vfd::PipeWrite(id)).len(),
                ),
        )
    }

    /// How many descriptors of all processes stand for `vfd`.
    pub open spec fn ends(self, vfd: Vfd) -> nat {
        self.held(Set::full(), vfd).len()
    }

    /// There are finitely many descriptors.
    pub open spec fn finite(self) -> bool {
        &&& self.tables.dom().finite()
        &&& forall|vpid: u32| #[trigger]
            self.tables.contains_key(vpid) ==> self.tables[vpid].fds.dom().finite()
    }
}

/// `files` are the files that are mentioned in `before` and not in `after`, each
/// once: their kernel descriptors are to be closed.
pub open spec fn hands_out(
    before: FdTablesView,
    after: FdTablesView,
    files: Seq<FileRef>,
) -> bool {
    &&& files.no_duplicates()
    &&& forall|file: FileRef| #[trigger]
        files.contains(file) <==> before.mentions_file(file) && !after.mentions_file(file)
}

/// The kernel descriptor that is to be closed after a descriptor that stood for
/// `was` went: that of a file that is not mentioned in `after`.
pub open spec fn kernel_to_close(was: Option<Vfd>, after: FdTablesView) -> Option<i32> {
    match was {
        Some(Vfd::File(file)) => if after.mentions_file(file) {
            None
        } else {
            Some(file.real_fd)
        },
        _ => None,
    }
}

/// Descriptor tables by process number.
pub struct FdTables {
    tables: HashMap<u32, VfdTable>,
    next_file: u64,
}

impl View for FdTables {
    type V = FdTablesView;

    closed spec fn view(&self) -> FdTablesView {
        FdTablesView {
            tables: Map::new(
                |vpid: u32| self.tables@.contains_key(vpid),
                |vpid: u32| self.tables@[vpid]@,
            ),
            next_file: self.next_file,
        }
    }
}

pub(crate) proof fn lemma_tables_finite(all: &FdTables)
    ensures
        all@.finite(),
{
    assert(all@.tables.dom() =~= all.tables@.dom());
    assert forall|vpid: u32| #[trigger] all@.tables.contains_key(vpid) implies all@.tables[vpid].fds
        .dom().finite() by {
        all.tables@[vpid].lemma_finite();
    }
}

impl FdTables {
    /// No tables.
    pub fn new() -> (all: FdTables)
        ensures
            all@ == (FdTablesView { tables: Map::empty(), next_file: 0 }),
            all@.wf(),
    {
        let all = FdTables { tables: HashMap::new(), next_file: 0 };
        assert(all@.tables =~= Map::<u32, TableView>::empty());
        all
    }

    /// Whether the process `vpid` has a table.
    pub fn contains(&self, vpid: u32) -> (yes: bool)
        ensures
            yes == self@.tables.contains_key(vpid),
    {
        self.tables.contains_key(&vpid)
    }

    /// The table of `vpid`.
    pub fn table(&self, vpid: u32) -> (table: Option<&VfdTable>)
        ensures
            match table {
                Some(t) => self@.tables.contains_key(vpid) && t@ == self@.tables[vpid],
                None => !self@.tables.contains_key(vpid),
            },
    {
        self.tables.get(&vpid)
    }

    /// What descriptor `fd` of process `vpid` stands for.
    pub fn lookup(&self, vpid: u32, fd: u32) -> (vfd: Option<Vfd>)
        ensures
            vfd == lookup_vfd(self@, vpid, fd),
    {
        match self.tables.get(&vpid) {
            Some(table) => match table.get(fd) {
                Some(vfd) => Some(*vfd),
                None => None,
            },
            None => None,
        }
    }

    /// Whether some descriptor of some process refers to the open file `file`.
    pub fn mentions_file(&self, file: FileRef) -> (yes: bool)
        ensures
            yes == self@.mentions_file(file),
    {
        let vpids: Vec<u32> = keys_of(&self.tables);
        let mut i: usize = 0;
        while i < vpids.len()
            invariant
                i <= vpids@.len(),
                forall|vpid: u32| vpids@.contains(vpid) <==> self.tables@.contains_key(vpid),
                forall|k: int|
                    0 <= k < i ==> !self.tables@[#[trigger] vpids@[k]]@.mentions_file(file),
            decreases vpids.len() - i,
        {
            let ghost vpid = vpids@[i as int];
            assert(vpids@.contains(vpid));
            if let Some(table) = self.tables.get(&vpids[i]) {
                if table.mentions_file(file) {
                    assert(self@.tables.contains_key(vpid));
                    return true;
                }
            }
            i = i + 1;
        }
        false
    }

    /// Whether some descriptor of some process is an end of pipe `id`.
    pub fn mentions_pipe(&self, id: u64) -> (yes: bool)
        ensures
            yes == self@.mentions_pipe(id),
    {
        let vpids: Vec<u32> = keys_of(&self.tables);
        let mut i: usize = 0;
        while i < vpids.len()
            invariant
                i <= vpids@.len(),
                forall|vpid: u32| vpids@.contains(vpid) <==> self.tables@.contains_key(vpid),
                forall|k: int|
                    0 <= k < i ==> !self.tables@[#[trigger] vpids@[k]]@.mentions_pipe(id),
            decreases vpids.len() - i,
        {
            let ghost vpid = vpids@[i as int];
            assert(vpids@.contains(vpid));
            if let Some(table) = self.tables.get(&vpids[i]) {
                if table.mentions_pipe(id) {
                    assert(self@.tables.contains_key(vpid));
                    return true;
                }
            }
            i = i + 1;
        }
        false
    }
}

/// What descriptor `fd` of process `vpid` stands for in the tables `all`.
pub open spec fn lookup_vfd(all: FdTablesView, vpid: u32, fd: u32) -> Option<Vfd> {
    if all.tables.contains_key(vpid) && all.tables[vpid].fds.contains_key(fd) {
        Some(all.tables[vpid].fds[fd])
    } else {
        None
    }
}

/// The table of `vpid`, to be changed in place.
pub fn get_table(all: &mut FdTables, vpid: u32) -> (table: Option<&mut VfdTable>)
    ensures
        match table {
            Some(t) => {
                &&& old(all)@.tables.contains_key(vpid)
                &&& t@ == old(all)@.tables[vpid]
                &&& final(all)@ == old(all)@.with(vpid, final(t)@)
            },
            None => !old(all)@.tables.contains_key(vpid) && final(all)@ == old(all)@,
        },
{
    match all.tables.entry(vpid) {
        Entry::Occupied(entry) => Some(entry.into_mut()),
        Entry::Vacant(_) => None,
    }
}

/// The table of `vpid`, to be changed in place. It is created where there is
/// none yet.
pub fn get_or_create_table(all: &mut FdTables, vpid: u32) -> (table: &mut VfdTable)
    ensures
        table@ == old(all)@.table_or_new(vpid),
        final(all)@ == old(all)@.with(vpid, final(table)@),
{
    if !all.tables.contains_key(&vpid) {
        all.tables.insert(vpid, VfdTable::new());
    }
    all.tables.entry(vpid).or_insert(VfdTable::new())
}

/// Gives `vpid` a new table whose standard descriptors pass through to the
/// given kernel descriptors. A table that it had is dropped; the files that are
/// no longer mentioned are returned.
pub fn create_table_with_fds(
    all: &mut FdTables,
    pipes: &mut PipeStore,
    vpid: u32,
    stdin: i32,
    stdout: i32,
    stderr: i32,
) -> (files: Vec<FileRef>)
    requires
        old(pipes).wf(),
    ensures
        final(pipes).wf(),
        final(pipes).ids_left() == old(pipes).ids_left(),
        final(all)@ == old(all)@.with(vpid, TableView::standard(stdin, stdout, stderr)),
        final(pipes)@ == old(all)@.pipes_after_drop(vpid, old(pipes)@),
        hands_out(old(all)@, final(all)@, files@),
        old(all)@.wf() ==> final(all)@.wf(),
{
    let files = replace_table(all, pipes, vpid, VfdTable::with_fds(stdin, stdout, stderr));
    proof {
        let table = TableView::standard(stdin, stdout, stderr);
        assert forall|file: FileRef| !#[trigger] table.mentions_file(file) by {}
        lemma_with_wf(old(all)@, vpid, table);
    }
    files
}

/// Puts `table` in place of the table of `vpid`. One that was there is dropped;
/// the files that are no longer mentioned are returned.
fn replace_table(
    all: &mut FdTables,
    pipes: &mut PipeStore,
    vpid: u32,
    table: VfdTable,
) -> (files: Vec<FileRef>)
    requires
        old(pipes).wf(),
    ensures
        final(pipes).wf(),
        final(pipes).ids_left() == old(pipes).ids_left(),
        final(all)@ == old(all)@.with(vpid, table@),
        final(pipes)@ == old(all)@.pipes_after_drop(vpid, old(pipes)@),
        hands_out(old(all)@, final(all)@, files@),
{
    let replaced: Option<VfdTable> = all.tables.insert(vpid, table);
    assert(all@ =~= old(all)@.with(vpid, table@));
    let candidates: Vec<FileRef> = match &replaced {
        Some(dropped) => {
            dropped.close_dropped(pipes);
            dropped.files()
        },
        None => Vec::new(),
    };
    let files = unmentioned(all, candidates);
    proof {
        lemma_hands_out(old(all)@, all@, vpid, candidates@, files@);
    }
    files
}

proof fn lemma_with_wf(all: FdTablesView, vpid: u32, table: TableView)
    requires
        forall|file: FileRef| #[trigger]
            table.mentions_file(file) ==> all.wf() ==> file.id < all.next_file,
    ensures
        all.wf() ==> all.with(vpid, table).wf(),
{
    let after = all.with(vpid, table);
    assert forall|p: u32, fd: u32|
        #![trigger after.tables[p].fds[fd]]
        all.wf() && after.tables.contains_key(p) && after.tables[p].fds.contains_key(fd) implies (
    after.tables[p].fds[fd] matches Vfd::File(file) ==> file.id < after.next_file) by {
        if p == vpid {
            if let Vfd::File(file) = table.fds[fd] {
                assert(table.mentions_file(file));
            }
        } else {
            assert(after.tables[p].fds[fd] == all.tables[p].fds[fd]);
        }
    }
}

/// A table that stands for nothing new brings in no file.
pub(crate) proof fn lemma_dup_wf(all: FdTablesView, vpid: u32, table: TableView)
    requires
        all.tables.contains_key(vpid),
        forall|fd: u32| #[trigger]
            table.fds.contains_key(fd) ==> (table.fds[fd] is File ==> exists|n: u32| #[trigger]
                all.tables[vpid].fds.contains_key(n) && all.tables[vpid].fds[n] == table.fds[fd]),
    ensures
        all.wf() ==> all.with(vpid, table).wf(),
{
    assert forall|file: FileRef| #[trigger] table.mentions_file(file) && all.wf() implies file.id
        < all.next_file by {
        let fd = choose|fd: u32| #[trigger]
            table.fds.contains_key(fd) && table.fds[fd] == Vfd::File(file);
        let n = choose|n: u32| #[trigger]
            all.tables[vpid].fds.contains_key(n) && all.tables[vpid].fds[n] == table.fds[fd];
        assert(all.tables[vpid].fds[n] == Vfd::File(file));
    }
    lemma_with_wf(all, vpid, table);
}

/// A pipe brings in no file.
pub(crate) proof fn lemma_pipe_wf(all: FdTablesView, vpid: u32, table: TableView)
    requires
        exists|id: u64| table == #[trigger] all.table_or_new(vpid).with_pipe(id),
    ensures
        all.wf() ==> all.with(vpid, table).wf(),
{
    let id = choose|id: u64| table == #[trigger] all.table_or_new(vpid).with_pipe(id);
    if all.tables.contains_key(vpid) {
        assert forall|fd: u32| #[trigger]
            table.fds.contains_key(fd) && table.fds[fd] is File implies exists|n: u32| #[trigger]
            all.tables[vpid].fds.contains_key(n) && all.tables[vpid].fds[n] == table.fds[fd] by {
            assert(all.tables[vpid].fds.contains_key(fd));
        }
        lemma_dup_wf(all, vpid, table);
    } else {
        assert forall|file: FileRef| #[trigger] table.mentions_file(file) implies false by {}
        lemma_with_wf(all, vpid, table);
    }
}

/// Tables without one of them hold no other files.
proof fn lemma_without_wf(all: FdTablesView, vpid: u32)
    ensures
        all.wf() ==> all.without(vpid).wf(),
{
    let after = all.without(vpid);
    assert forall|p: u32, fd: u32|
        #![trigger after.tables[p].fds[fd]]
        all.wf() && after.tables.contains_key(p) && after.tables[p].fds.contains_key(fd) implies (
    after.tables[p].fds[fd] matches Vfd::File(file) ==> file.id < after.next_file) by {
        assert(after.tables[p].fds[fd] == all.tables[p].fds[fd]);
    }
}

/// Where only the table of `vpid` changed, the files that went are among those
/// that it mentioned.
proof fn lemma_hands_out(
    before: FdTablesView,
    after: FdTablesView,
    vpid: u32,
    candidates: Seq<FileRef>,
    files: Seq<FileRef>,
)
    requires
        forall|p: u32|
            p != vpid && #[trigger] before.tables.contains_key(p) ==> after.tables.contains_key(p)
                && after.tables[p] == before.tables[p],
        forall|file: FileRef| #[trigger]
            candidates.contains(file) <==> before.tables.contains_key(vpid)
                && before.tables[vpid].mentions_file(file),
        files.no_duplicates(),
        forall|file: FileRef| #[trigger]
            files.contains(file) <==> candidates.contains(file) && !after.mentions_file(file),
    ensures
        hands_out(before, after, files),
{
    assert forall|file: FileRef| #[trigger] files.contains(file) <==> before.mentions_file(file)
        && !after.mentions_file(file) by {
        if before.mentions_file(file) && !after.mentions_file(file) {
            let p = choose|p: u32| #[trigger]
                before.tables.contains_key(p) && before.tables[p].mentions_file(file);
            if p != vpid {
                assert(after.tables.contains_key(p));
            }
            assert(candidates.contains(file));
        }
        if files.contains(file) {
            assert(candidates.contains(file));
        }
    }
}

/// Gives `child_vpid` a copy of the table of `parent_vpid`, or a fresh table
/// where the parent has none. Each pipe has the ends more that the copy holds. A
/// table that the child had is dropped; the files that are no longer mentioned
/// are returned.
pub fn fork_fd_table(
    all: &mut FdTables,
    pipes: &mut PipeStore,
    parent_vpid: u32,
    child_vpid: u32,
) -> (files: Vec<FileRef>)
    requires
        old(pipes).wf(),
    ensures
        final(pipes).wf(),
        final(pipes).ids_left() == old(pipes).ids_left(),
        final(all)@ == old(all)@.with(child_vpid, old(all)@.table_or_new(parent_vpid)),
        final(pipes)@ == old(all)@.pipes_after_fork(parent_vpid, child_vpid, old(pipes)@),
        hands_out(old(all)@, final(all)@, files@),
        old(all)@.wf() ==> final(all)@.wf(),
{
    let child_table = match all.tables.get(&parent_vpid) {
        Some(parent_table) => parent_table.clone_for_fork(pipes),
        None => VfdTable::new(),
    };
    let files = replace_table(all, pipes, child_vpid, child_table);
    proof {
        let table = old(all)@.table_or_new(parent_vpid);
        assert forall|file: FileRef| #[trigger]
            table.mentions_file(file) && old(all)@.wf() implies file.id < old(all)@.next_file by {
            let fd = choose|fd: u32| #[trigger]
                table.fds.contains_key(fd) && table.fds[fd] == Vfd::File(file);
            assert(old(all)@.tables[parent_vpid].fds[fd] == Vfd::File(file));
        }
        lemma_with_wf(old(all)@, child_vpid, table);
    }
    files
}

/// Drops the table of `vpid`: its descriptors are closed, and each of its pipes
/// is closed outright. Returns the files that are no longer mentioned.
pub fn remove_table(all: &mut FdTables, pipes: &mut PipeStore, vpid: u32) -> (files: Vec<FileRef>)
    requires
        old(pipes).wf(),
    ensures
        final(pipes).wf(),
        final(pipes).ids_left() == old(pipes).ids_left(),
        final(all)@ == old(all)@.without(vpid),
        final(pipes)@ == old(all)@.pipes_after_drop(vpid, old(pipes)@),
        hands_out(old(all)@, final(all)@, files@),
        old(all)@.wf() ==> final(all)@.wf(),
{
    proof {
        lemma_without_wf(all@, vpid);
    }
    let removed: Option<VfdTable> = all.tables.remove(&vpid);
    assert(all@ =~= old(all)@.without(vpid));
    let candidates: Vec<FileRef> = match &removed {
        Some(dropped) => {
            dropped.close_dropped(pipes);
            dropped.files()
        },
        None => Vec::new(),
    };
    let files = unmentioned(all, candidates);
    proof {
        lemma_hands_out(old(all)@, all@, vpid, candidates@, files@);
    }
    files
}

/// Drops the table of `vpid`, as `remove_table` does, when its process is cleaned
/// up. Returns the files that no table mentions any more, each once: their kernel
/// descriptors are to be closed.
pub fn remove_table_and_get_fds(all: &mut FdTables, pipes: &mut PipeStore, vpid: u32) -> (files:
    Vec<FileRef>)
    requires
        old(pipes).wf(),
    ensures
        final(pipes).wf(),
        final(pipes).ids_left() == old(pipes).ids_left(),
        final(all)@ == old(all)@.without(vpid),
        final(pipes)@ == old(all)@.pipes_after_drop(vpid, old(pipes)@),
        hands_out(old(all)@, final(all)@, files@),
        old(all)@.wf() ==> final(all)@.wf(),
{
    remove_table(all, pipes, vpid)
}

/// Those of `candidates` that no table mentions.
fn unmentioned(all: &FdTables, candidates: Vec<FileRef>) -> (files: Vec<FileRef>)
    requires
        candidates@.no_duplicates(),
    ensures
        files@.no_duplicates(),
        forall|file: FileRef|
            #[trigger] files@.contains(file) <==> candidates@.contains(file)
                && !all@.mentions_file(file),
{
    let mut files: Vec<FileRef> = Vec::new();
    let mut i: usize = 0;
    while i < candidates.len()
        invariant
            i <= candidates@.len(),
            files@.no_duplicates(),
            forall|file: FileRef| #[trigger]
                files@.contains(file) <==> !all@.mentions_file(file) && exists|k: int|
                    0 <= k < i && #[trigger] candidates@[k] == file,
        decreases candidates.len() - i,
    {
        let ghost before = files@;
        if !all.mentions_file(candidates[i]) {
            push_unique(&mut files, candidates[i]);
        }
        proof {
            assert forall|file: FileRef| #[trigger] files@.contains(file) <==> !all@.mentions_file(
                file,
            ) && exists|k: int| 0 <= k < i + 1 && #[trigger] candidates@[k] == file by {
                assert(before.contains(file) ==> files@.contains(file));
                if files@.contains(file) && !before.contains(file) {
                    assert(candidates@[i as int] == file);
                }
            }
        }
        i = i + 1;
    }
    files
}

/// Removes the close-on-exec descriptors of `vpid`. Returns the files that no
/// table mentions any more, each once: their kernel descriptors are to be closed.
pub fn close_cloexec(all: &mut FdTables, vpid: u32) -> (files: Vec<FileRef>)
    ensures
        final(all)@ == (if old(all)@.tables.contains_key(vpid) {
            old(all)@.with(vpid, old(all)@.tables[vpid].after_exec())
        } else {
            old(all)@
        }),
        hands_out(old(all)@, final(all)@, files@),
        old(all)@.wf() ==> final(all)@.wf(),
{
    let candidates: Vec<FileRef> = match get_table(all, vpid) {
        Some(table) => table.close_cloexec(),
        None => Vec::new(),
    };
    let files = unmentioned(all, candidates);
    proof {
        assert forall|file: FileRef|
            files@.contains(file) <==> old(all)@.mentions_file(file) && !all@.mentions_file(file)
        by {
            if old(all)@.mentions_file(file) && !all@.mentions_file(file) {
                let p = choose|p: u32| #[trigger]
                    old(all)@.tables.contains_key(p) && old(all)@.tables[p].mentions_file(file);
                assert(all@.tables.contains_key(p));
                if p == vpid && !file.cloexec {
                    let fd = choose|fd: u32| #[trigger]
                        old(all)@.tables[p].fds.contains_key(fd) && old(all)@.tables[p].fds[fd]
                            == Vfd::File(file);
                    assert(all@.tables[p].fds.contains_key(fd));
                }
            }
            if files@.contains(file) {
                assert(candidates@.contains(file));
                assert(old(all)@.tables.contains_key(vpid));
            }
        }
        assert forall|p: u32, fd: u32|
            #![trigger all@.tables[p].fds[fd]]
            old(all)@.wf() && all@.tables.contains_key(p) && all@.tables[p].fds.contains_key(
                fd,
            ) implies (all@.tables[p].fds[fd] matches Vfd::File(file) ==> file.id < all@.next_file)
        by {
            assert(all@.tables[p].fds[fd] == old(all)@.tables[p].fds[fd]);
        }
    }
    files
}

/// Whether a file can be opened for `vpid`: a descriptor number and a file
/// identity are left.
pub open spec fn can_insert_file(all: FdTablesView, vpid: u32) -> bool {
    all.table_or_new(vpid).has_room() && all.next_file < u64::MAX
}

/// Whether a file can be opened for `vpid`.
pub fn has_room_for_file(all: &FdTables, vpid: u32) -> (yes: bool)
    ensures
        yes == can_insert_file(all@, vpid),
{
    if all.next_file == u64::MAX {
        return false;
    }
    match all.tables.get(&vpid) {
        Some(table) => table.can_alloc(),
        None => {
            let fresh = VfdTable::new();
            fresh.can_alloc()
        },
    }
}

/// Whether a pipe can be created for `vpid`: two descriptor numbers and a pipe
/// identity are left.
pub fn has_room_for_pipe(all: &FdTables, pipes: &PipeStore, vpid: u32) -> (yes: bool)
    ensures
        yes == (pipes.ids_left() > 0 && all@.table_or_new(vpid).has_room() && all@.table_or_new(
            vpid,
        ).allocated().has_room()),
{
    if !pipes.can_create(1) {
        return false;
    }
    match all.tables.get(&vpid) {
        Some(table) => table.can_alloc_pipe(),
        None => {
            let fresh = VfdTable::new();
            fresh.can_alloc_pipe()
        },
    }
}

/// The tables after a file with kernel descriptor `real_fd` was opened for
/// `vpid`.
pub open spec fn file_inserted(
    all: FdTablesView,
    vpid: u32,
    real_fd: i32,
    cloexec: bool,
) -> FdTablesView {
    let file = FileRef { id: all.next_file, real_fd, cloexec };
    FdTablesView {
        tables: all.tables.insert(vpid, all.table_or_new(vpid).inserted(Vfd::File(file))),
        next_file: (all.next_file + 1) as u64,
    }
}

/// Records that a file was opened for `vpid` with kernel descriptor `real_fd`.
/// Returns the virtual descriptor.
pub fn insert_file(
    all: &mut FdTables,
    pipes: &mut PipeStore,
    vpid: u32,
    real_fd: i32,
    cloexec: bool,
) -> (fd: u32)
    requires
        old(pipes).wf(),
        can_insert_file(old(all)@, vpid),
    ensures
        final(pipes).wf(),
        final(pipes).ids_left() == old(pipes).ids_left(),
        final(pipes)@ == old(all)@.table_or_new(vpid).pipes_after_close(
            old(all)@.table_or_new(vpid).next_fd,
            old(pipes)@,
        ),
        fd == old(all)@.table_or_new(vpid).next_fd,
        final(all)@ == file_inserted(old(all)@, vpid, real_fd, cloexec),
        old(all)@.wf() ==> final(all)@.wf(),
{
    let file = FileRef { id: all.next_file, real_fd, cloexec };
    let fd: u32 = get_or_create_table(all, vpid).insert(pipes, Vfd::File(file));
    all.next_file = all.next_file + 1;
    proof {
        assert(all@ =~= file_inserted(old(all)@, vpid, real_fd, cloexec));
        assert forall|p: u32, n: u32|
            #![trigger all@.tables[p].fds[n]]
            old(all)@.wf() && all@.tables.contains_key(p) && all@.tables[p].fds.contains_key(
                n,
            ) implies (all@.tables[p].fds[n] matches Vfd::File(f) ==> f.id < all@.next_file) by {
            if p != vpid || n != fd {
                if old(all)@.tables.contains_key(p) {
                    assert(all@.tables[p].fds[n] == old(all)@.tables[p].fds[n]);
                }
            }
        }
    }
    fd
}

/// Closes the file descriptor `fd` of `vpid`. Returns the kernel descriptor that
/// is to be closed: that of the file, where no descriptor refers to it any more.
/// Nothing happens where `fd` is not a file.
pub fn close_file_fd(all: &mut FdTables, vpid: u32, fd: u32) -> (real_fd: Option<i32>)
    ensures
        match lookup_vfd(old(all)@, vpid, fd) {
            Some(Vfd::File(file)) => {
                final(all)@ == old(all)@.with(vpid, old(all)@.tables[vpid].without(fd))
            },
            _ => final(all)@ == old(all)@,
        },
        real_fd == kernel_to_close(lookup_vfd(old(all)@, vpid, fd), final(all)@),
        old(all)@.wf() ==> final(all)@.wf(),
{
    match all.lookup(vpid, fd) {
        Some(Vfd::File(file)) => {
            if let Some(table) = get_table(all, vpid) {
                table.remove(fd);
            }
            proof {
                assert forall|p: u32, n: u32|
                    #![trigger all@.tables[p].fds[n]]
                    old(all)@.wf() && all@.tables.contains_key(p)
                        && all@.tables[p].fds.contains_key(n) implies (all@.tables[p].fds[n] matches Vfd::File(
                f) ==> f.id < all@.next_file) by {
                    assert(all@.tables[p].fds[n] == old(all)@.tables[p].fds[n]);
                }
            }
            find_kernel_to_close(all, Some(Vfd::File(file)))
        },
        _ => None,
    }
}

fn find_kernel_to_close(all: &FdTables, was: Option<Vfd>) -> (real_fd: Option<i32>)
    ensures
        real_fd == kernel_to_close(was, all@),
{
    match was {
        Some(Vfd::File(file)) => if all.mentions_file(file) {
            None
        } else {
            Some(file.real_fd)
        },
        _ => None,
    }
}

/// What duplicating a descriptor led to.
#[derive(Debug, Clone, Copy, PartialEq, Eq)]
pub struct Duplicated {
    /// The number of the duplicate, or an error.
    pub result: Result<u32, i32>,
    /// The kernel descriptor that is to be closed: that of a file whose last
    /// descriptor was replaced.
    pub close_kernel: Option<i32>,
}

/// Duplicates descriptor `old_fd` of process `vpid` onto `new_fd`. `None` where
/// the process has no table.
pub fn dup2_fd(
    all: &mut FdTables,
    pipes: &mut PipeStore,
    vpid: u32,
    old_fd: u32,
    new_fd: u32,
) -> (duplicated: Option<Duplicated>)
    requires
        old(pipes).wf(),
    ensures
        final(pipes).wf(),
        final(pipes).ids_left() == old(pipes).ids_left(),
        if old(all)@.tables.contains_key(vpid) {
            let table = old(all)@.tables[vpid];
            &&& duplicated == Some(
                Duplicated {
                    result: table.dup2_result(old_fd, new_fd),
                    close_kernel: kernel_to_close(
                        lookup_vfd(old(all)@, vpid, new_fd),
                        final(all)@,
                    ),
                },
            )
            &&& final(all)@ == old(all)@.with(vpid, table.after_dup2(old_fd, new_fd))
            &&& final(pipes)@ == table.pipes_after_dup2(old_fd, new_fd, old(pipes)@)
        } else {
            duplicated is None && final(all)@ == old(all)@ && final(pipes)@ == old(pipes)@
        },
        old(all)@.wf() ==> final(all)@.wf(),
{
    let was: Option<Vfd> = all.lookup(vpid, new_fd);
    let result: Result<u32, i32> = match get_table(all, vpid) {
        None => return None,
        Some(table) => table.dup2(pipes, old_fd, new_fd),
    };
    proof {
        lemma_dup_wf(old(all)@, vpid, all@.tables[vpid]);
    }
    let close_kernel = find_kernel_to_close(all, was);
    Some(Duplicated { result, close_kernel })
}

/// Duplicates descriptor `old_fd` of process `vpid` onto its next number. `None`
/// where the process has no table.
pub fn dup_fd(all: &mut FdTables, pipes: &mut PipeStore, vpid: u32, old_fd: u32) -> (duplicated:
    Option<Duplicated>)
    requires
        old(pipes).wf(),
        old(all)@.tables.contains_key(vpid) ==> old(all)@.tables[vpid].has_room(),
    ensures
        final(pipes).wf(),
        final(pipes).ids_left() == old(pipes).ids_left(),
        if old(all)@.tables.contains_key(vpid) {
            let table = old(all)@.tables[vpid];
            let new_fd = table.next_fd;
            &&& duplicated == Some(
                Duplicated {
                    result: table.dup2_result(old_fd, new_fd),
                    close_kernel: kernel_to_close(
                        lookup_vfd(old(all)@, vpid, new_fd),
                        final(all)@,
                    ),
                },
            )
            &&& final(all)@ == old(all)@.with(vpid, table.allocated().after_dup2(old_fd, new_fd))
            &&& final(pipes)@ == table.pipes_after_dup2(old_fd, new_fd, old(pipes)@)
        } else {
            duplicated is None && final(all)@ == old(all)@ && final(pipes)@ == old(pipes)@
        },
        old(all)@.wf() ==> final(all)@.wf(),
{
    let next: u32 = match all.table(vpid) {
        None => return None,
        Some(table) => table.next_number(),
    };
    let was: Option<Vfd> = all.lookup(vpid, next);
    let result: Result<u32, i32> = match get_table(all, vpid) {
        None => return None,
        Some(table) => table.dup(pipes, old_fd),
    };
    proof {
        lemma_dup_wf(old(all)@, vpid, all@.tables[vpid]);
    }
    let close_kernel = find_kernel_to_close(all, was);
    Some(Duplicated { result, close_kernel })
}

/// Drops all tables: their descriptors are closed, and every pipe that one of
/// them mentions is closed outright. Returns the files that were mentioned.
pub fn cleanup(all: &mut FdTables, pipes: &mut PipeStore) -> (files: Vec<FileRef>)
    requires
        old(pipes).wf(),
    ensures
        final(pipes).wf(),
        final(pipes).ids_left() == old(pipes).ids_left(),
        final(all)@ == (FdTablesView { tables: Map::empty(), next_file: old(all)@.next_file }),
        final(pipes)@ == old(all)@.pipes_after_drops(Set::full(), old(pipes)@),
        hands_out(old(all)@, final(all)@, files@),
{
    let vpids: Vec<u32> = keys_of(&all.tables);
    let ghost all0 = all@;
    let ghost pipes0 = pipes@;
    proof {
        lemma_tables_finite(all);
        assert(vpids@.take(0).to_set() =~= Set::empty());
        lemma_drops_none(all0, pipes0);
        assert(all@.tables =~= all0.tables.remove_keys(vpids@.take(0).to_set()));
    }
    let mut files: Vec<FileRef> = Vec::new();
    let mut i: usize = 0;
    while i < vpids.len()
        invariant
            i <= vpids@.len(),
            vpids@.no_duplicates(),
            all0 == old(all)@,
            pipes0 == old(pipes)@,
            all0.finite(),
            forall|vpid: u32| vpids@.contains(vpid) <==> all0.tables.contains_key(vpid),
            all@.next_file == all0.next_file,
            all@.tables == all0.tables.remove_keys(vpids@.take(i as int).to_set()),
            pipes.wf(),
            pipes.ids_left() == old(pipes).ids_left(),
            pipes@ == all0.pipes_after_drops(vpids@.take(i as int).to_set(), pipes0),
            hands_out(all0, all@, files@),
        decreases vpids.len() - i,
    {
        let ghost all1 = all@;
        let ghost files1 = files@;
        let ghost vpid = vpids@[i as int];
        let ghost gone = vpids@.take(i as int).to_set();
        proof {
            assert(vpids@.contains(vpid));
            lemma_prefix_set(vpids@, i as int);
            assert(all1.tables.contains_key(vpid));
        }
        let mut lost: Vec<FileRef> = remove_table(all, pipes, vpids[i]);
        let ghost lost0 = lost@;
        files.append(&mut lost);
        proof {
            assert(all@.tables =~= all0.tables.remove_keys(vpids@.take(i + 1).to_set()));
            lemma_fewer_files(all@, all1);
            lemma_fewer_files(all1, all0);
            lemma_hands_out_chain(all0, all1, all@, files1, lost0);
            lemma_drops_more(all0, gone, vpid, pipes0);
        }
        i = i + 1;
    }
    proof {
        let gone = vpids@.take(i as int).to_set();
        assert(vpids@.take(i as int) =~= vpids@);
        assert forall|vpid: u32| gone.contains(vpid) <==> all0.tables.contains_key(vpid) by {
            assert(gone.contains(vpid) <==> vpids@.contains(vpid));
        }
        assert(all@.tables =~= Map::<u32, TableView>::empty());
        assert forall|id: u64| #[trigger] pipes0.contains_key(id) implies pipes@[id]
            == all0.pipes_after_drops(Set::full(), pipes0)[id] by {
            assert(all0.held(gone, Vfd::PipeRead(id)) =~= all0.held(
                Set::full(),
                Vfd::PipeRead(id),
            ));
            assert(all0.held(gone, Vfd::PipeWrite(id)) =~= all0.held(
                Set::full(),
                Vfd::PipeWrite(id),
            ));
            if all0.mentioned_by(Set::full(), id) {
                let p = choose|p: u32| #[trigger]
                    all0.tables.contains_key(p) && Set::full().contains(p)
                        && all0.tables[p].mentions_pipe(id);
                assert(gone.contains(p));
            }
        }
        assert(pipes@ =~= all0.pipes_after_drops(Set::full(), pipes0));
    }
    files
}

/// Tables that are a part of others mention no other files.
pub(crate) proof fn lemma_fewer_files(some: FdTablesView, all: FdTablesView)
    requires
        forall|vpid: u32| #[trigger]
            some.tables.contains_key(vpid) ==> all.tables.contains_key(vpid) && all.tables[vpid]
                == some.tables[vpid],
    ensures
        forall|file: FileRef| #[trigger] some.mentions_file(file) ==> all.mentions_file(file),
{
    assert forall|file: FileRef| #[trigger] some.mentions_file(file) implies all.mentions_file(
        file,
    ) by {
        let p = choose|p: u32| #[trigger]
            some.tables.contains_key(p) && some.tables[p].mentions_file(file);
        assert(all.tables.contains_key(p));
    }
}

/// What goes in two steps is handed out in two parts.
pub(crate) proof fn lemma_hands_out_chain(
    first: FdTablesView,
    middle: FdTablesView,
    last: FdTablesView,
    a: Seq<FileRef>,
    b: Seq<FileRef>,
)
    requires
        hands_out(first, middle, a),
        hands_out(middle, last, b),
        forall|file: FileRef| #[trigger] last.mentions_file(file) ==> middle.mentions_file(file),
        forall|file: FileRef| #[trigger] middle.mentions_file(file) ==> first.mentions_file(file),
    ensures
        hands_out(first, last, a + b),
{
    let c = a + b;
    assert forall|file: FileRef| c.contains(file) <==> a.contains(file) || b.contains(file) by {
        if a.contains(file) {
            let k = choose|k: int| 0 <= k < a.len() && a[k] == file;
            assert(c[k] == file);
        }
        if b.contains(file) {
            let k = choose|k: int| 0 <= k < b.len() && b[k] == file;
            assert(c[a.len() + k] == file);
        }
    }
    assert forall|i: int, j: int| 0 <= i < j < c.len() implies c[i] != c[j] by {
        if i < a.len() && j >= a.len() {
            assert(a.contains(c[i]));
            assert(b[j - a.len()] == c[j]);
            assert(b.contains(c[j]));
        }
    }
    assert forall|file: FileRef| #[trigger] c.contains(file) <==> first.mentions_file(file)
        && !last.mentions_file(file) by {
        assert(a.contains(file) <==> first.mentions_file(file) && !middle.mentions_file(file));
        assert(b.contains(file) <==> middle.mentions_file(file) && !last.mentions_file(file));
    }
}

pub(crate) proof fn lemma_prefix_set(pids: Seq<u32>, i: int)
    requires
        0 <= i < pids.len(),
        pids.no_duplicates(),
    ensures
        pids.take(i + 1).to_set() =~= pids.take(i).to_set().insert(pids[i]),
        !pids.take(i).to_set().contains(pids[i]),
{
    let a = pids.take(i);
    let b = pids.take(i + 1);
    assert forall|p: u32| b.to_set().contains(p) <==> a.to_set().insert(pids[i]).contains(p) by {
        if b.contains(p) {
            let k = choose|k: int| 0 <= k < b.len() && b[k] == p;
            if k < i {
                assert(a[k] == p);
            }
        }
        if a.contains(p) {
            let k = choose|k: int| 0 <= k < a.len() && a[k] == p;
            assert(b[k] == p);
        }
        assert(b[i] == pids[i]);
    }
}

/// Without tables to drop, the pipes stay.
pub(crate) proof fn lemma_drops_none(all: FdTablesView, pipes: Map<u64, PipeView>)
    ensures
        all.pipes_after_drops(Set::empty(), pipes) == pipes,
{
    assert(all.pipes_after_drops(Set::empty(), pipes) =~= pipes);
}

/// Tables can be dropped one by one.
pub(crate) proof fn lemma_drops_more(
    all: FdTablesView,
    who: Set<u32>,
    vpid: u32,
    pipes: Map<u64, PipeView>,
)
    requires
        all.finite(),
        !who.contains(vpid),
    ensures
        all.pipes_after_drop(vpid, all.pipes_after_drops(who, pipes)) == all.pipes_after_drops(
            who.insert(vpid),
            pipes,
        ),
{
    let before = all.pipes_after_drops(who, pipes);
    let after = all.pipes_after_drops(who.insert(vpid), pipes);
    assert forall|id: u64| #[trigger] pipes.contains_key(id) implies all.pipes_after_drop(
        vpid,
        before,
    )[id] == after[id] by {
        assert(before.contains_key(id));
        lemma_held_more(all, who, vpid, Vfd::PipeRead(id));
        lemma_held_more(all, who, vpid, Vfd::PipeWrite(id));
        let here = all.tables.contains_key(vpid) && all.tables[vpid].mentions_pipe(id);
        assert(all.mentioned_by(who.insert(vpid), id) <==> all.mentioned_by(who, id) || here) by {
            if all.mentioned_by(who, id) {
                let p = choose|p: u32| #[trigger]
                    all.tables.contains_key(p) && who.contains(p) && all.tables[p].mentions_pipe(id);
                assert(who.insert(vpid).contains(p));
            }
            if here {
                assert(who.insert(vpid).contains(vpid));
            }
        }
        if !all.mentioned_by(who, id) {
            lemma_unmentioned_ends(all, who, id);
        }
        if all.tables.contains_key(vpid) && !here {
            lemma_unmentioned_count(all.tables[vpid], id);
        }
    }
    assert(all.pipes_after_drop(vpid, before) =~= after);
}

/// The descriptors of one process, as pairs, are as many as in its table.
proof fn lemma_held_one(all: FdTablesView, vpid: u32, vfd: Vfd)
    requires
        all.finite(),
    ensures
        all.held(set![vpid], vfd).finite(),
        all.held(set![vpid], vfd).len() == (if all.tables.contains_key(vpid) {
            all.tables[vpid].count(vfd)
        } else {
            0
        }),
{
    let pairs = all.held(set![vpid], vfd);
    if all.tables.contains_key(vpid) {
        let numbers = all.tables[vpid].numbers_of(vfd);
        vstd::set_lib::lemma_set_subset_finite(all.tables[vpid].fds.dom(), numbers);
        let pair = |fd: u32| (vpid, fd);
        assert(pairs =~= numbers.map(pair)) by {
            assert forall|at: (u32, u32)| pairs.contains(at) <==> numbers.map(pair).contains(
                at,
            ) by {
                if pairs.contains(at) {
                    assert(numbers.contains(at.1) && pair(at.1) == at);
                }
            }
        }
        numbers.lemma_map_finite(pair);
        assert(vstd::relations::injective_on(pair, numbers)) by {
            assert forall|a: u32, b: u32| #[trigger] pair(a) == #[trigger] pair(b) implies a == b by {}
        }
        vstd::set_lib::lemma_map_size(numbers, pairs, pair);
    } else {
        assert(pairs =~= Set::empty());
    }
}

/// With one process more, its descriptors are added.
pub(crate) proof fn lemma_held_more(all: FdTablesView, who: Set<u32>, vpid: u32, vfd: Vfd)
    requires
        all.finite(),
        !who.contains(vpid),
    ensures
        all.held(who, vfd).finite(),
        all.held(who.insert(vpid), vfd).finite(),
        all.held(who.insert(vpid), vfd).len() == all.held(who, vfd).len() + (
        if all.tables.contains_key(vpid) {
            all.tables[vpid].count(vfd)
        } else {
            0
        }),
{
    lemma_held_finite(all, who, vfd);
    lemma_held_one(all, vpid, vfd);
    let some = all.held(who, vfd);
    let one = all.held(set![vpid], vfd);
    assert(all.held(who.insert(vpid), vfd) =~= some + one);
    assert(some.disjoint(one));
    vstd::set_lib::lemma_set_disjoint_lens(some, one);
}

/// There are finitely many descriptors.
pub(crate) proof fn lemma_held_finite(all: FdTablesView, who: Set<u32>, vfd: Vfd)
    requires
        all.finite(),
    ensures
        all.held(who, vfd).finite(),
    decreases all.tables.dom().len(),
{
    if all.tables.dom().len() == 0 {
        all.tables.dom().lemma_len0_is_empty();
        assert forall|at: (u32, u32)| !all.held(who, vfd).contains(at) by {
            assert(!all.tables.dom().contains(at.0));
        }
        assert(all.held(who, vfd) =~= Set::empty());
    } else {
        let vpid = all.tables.dom().choose();
        let rest = all.without(vpid);
        assert(rest.tables.dom() =~= all.tables.dom().remove(vpid));
        assert forall|p: u32| #[trigger] rest.tables.contains_key(p) implies rest.tables[p].fds
            .dom().finite() by {
            assert(all.tables.contains_key(p));
        }
        lemma_held_finite(rest, who, vfd);
        lemma_held_one(all, vpid, vfd);
        let both = rest.held(who, vfd) + all.held(set![vpid], vfd);
        assert(all.held(who, vfd).subset_of(both)) by {
            assert forall|at: (u32, u32)| all.held(who, vfd).contains(at) implies both.contains(
                at,
            ) by {
                if at.0 != vpid {
                    assert(rest.tables.contains_key(at.0));
                }
            }
        }
        vstd::set_lib::lemma_set_subset_finite(both, all.held(who, vfd));
    }
}

/// A pipe that none of the processes `who` mentions has no descriptors there.
pub(crate) proof fn lemma_unmentioned_ends(all: FdTablesView, who: Set<u32>, id: u64)
    requires
        !all.mentioned_by(who, id),
    ensures
        all.held(who, Vfd::PipeRead(id)) == Set::<(u32, u32)>::empty(),
        all.held(who, Vfd::PipeWrite(id)) == Set::<(u32, u32)>::empty(),
{
    assert forall|at: (u32, u32), vfd: Vfd|
        vfd.pipe() == Some(id) implies !#[trigger] all.held(who, vfd).contains(at) by {
        if all.held(who, vfd).contains(at) {
            assert(all.tables[at.0].fds.contains_key(at.1));
            assert(all.tables[at.0].mentions_pipe(id));
            assert(all.tables.contains_key(at.0));
        }
    }
    assert(Vfd::PipeRead(id).pipe() == Some(id) && Vfd::PipeWrite(id).pipe() == Some(id));
    assert(all.held(who, Vfd::PipeRead(id)) =~= Set::empty());
    assert(all.held(who, Vfd::PipeWrite(id)) =~= Set::empty());
}

proof fn lemma_unmentioned_count(table: TableView, id: u64)
    requires
        !table.mentions_pipe(id),
    ensures
        table.count(Vfd::PipeRead(id)) == 0,
        table.count(Vfd::PipeWrite(id)) == 0,
{
    assert forall|fd: u32| table.fds.contains_key(fd) implies table.fds[fd].pipe() != Some(id) by {}
    assert(table.numbers_of(Vfd::PipeRead(id)) =~= Set::empty());
    assert(table.numbers_of(Vfd::PipeWrite(id)) =~= Set::empty());
}

/// Frees the pipes that no descriptor of any process mentions.
pub fn release_unused_pipes(all: &FdTables, pipes: &mut PipeStore)
    requires
        old(pipes).wf(),
    ensures
        final(pipes).wf(),
        final(pipes).ids_left() == old(pipes).ids_left(),
        final(pipes)@ == old(pipes)@.restrict(Set::new(|id: u64| all@.mentions_pipe(id))),
{
    let ids: Vec<u64> = pipes.ids();
    let mut i: usize = 0;
    while i < ids.len()
        invariant
            i <= ids@.len(),
            forall|id: u64| ids@.contains(id) <==> old(pipes)@.contains_key(id),
            pipes.wf(),
            pipes.ids_left() == old(pipes).ids_left(),
            forall|id: u64| #[trigger]
                pipes@.contains_key(id) ==> old(pipes)@.contains_key(id) && pipes@[id] == old(
                    pipes,
                )@[id],
            forall|id: u64| #[trigger]
                old(pipes)@.contains_key(id) && !pipes@.contains_key(id) ==> !all@.mentions_pipe(id),
            forall|k: int|
                0 <= k < i && !all@.mentions_pipe(#[trigger] ids@[k]) ==> !pipes@.contains_key(ids@[k]),
        decreases ids.len() - i,
    {
        if !all.mentions_pipe(ids[i]) {
            pipes.remove(ids[i]);
        }
        i = i + 1;
    }
    proof {
        let kept = old(pipes)@.restrict(Set::new(|id: u64| all@.mentions_pipe(id)));
        assert forall|id: u64| pipes@.contains_key(id) <==> kept.contains_key(id) by {
            if pipes@.contains_key(id) && !all@.mentions_pipe(id) {
                assert(ids@.contains(id));
            }
        }
        assert(pipes@ =~= kept);
    }
}

/// Forking shares everything: under each number the child has what the parent
/// has, and the parent's own table is as before.
pub proof fn law_fork_shares(all: FdTablesView, parent: u32, child: u32, fd: u32)
    requires
        all.tables.contains_key(parent),
        parent != child,
    ensures
        lookup_vfd(all.with(child, all.table_or_new(parent)), child, fd) == lookup_vfd(
            all,
            parent,
            fd,
        ),
        lookup_vfd(all.with(child, all.table_or_new(parent)), parent, fd) == lookup_vfd(
            all,
            parent,
            fd,
        ),
{
}

/// A file is handed out in the very step in which its last descriptor goes: where
/// closing a descriptor, duplicating one onto a number, or duplicating one onto
/// the next number leaves a file without descriptors, it is the one whose kernel
/// descriptor is to be closed. Opening a file or creating a pipe leaves none
/// without, as long as the next number is free.
pub proof fn law_last_descriptor_hands_out(
    all: FdTablesView,
    vpid: u32,
    old_fd: u32,
    new_fd: u32,
    file: FileRef,
    real_fd: i32,
    cloexec: bool,
    id: u64,
)
    requires
        all.tables.contains_key(vpid),
        all.mentions_file(file),
        can_insert_file(all, vpid),
        all.tables[vpid].allocated().has_room(),
    ensures
        ({
            let after = all.with(vpid, all.tables[vpid].without(new_fd));
            !after.mentions_file(file) ==> lookup_vfd(all, vpid, new_fd) == Some(Vfd::File(file))
                && kernel_to_close(lookup_vfd(all, vpid, new_fd), after) == Some(file.real_fd)
        }),
        ({
            let after = all.with(vpid, all.tables[vpid].after_dup2(old_fd, new_fd));
            !after.mentions_file(file) ==> lookup_vfd(all, vpid, new_fd) == Some(Vfd::File(file))
                && kernel_to_close(lookup_vfd(all, vpid, new_fd), after) == Some(file.real_fd)
        }),
        ({
            let next = all.tables[vpid].next_fd;
            let after = all.with(vpid, all.tables[vpid].allocated().after_dup2(old_fd, next));
            !after.mentions_file(file) ==> lookup_vfd(all, vpid, next) == Some(Vfd::File(file))
                && kernel_to_close(lookup_vfd(all, vpid, next), after) == Some(file.real_fd)
        }),
        next_is_free(all.tables[vpid]) ==> file_inserted(
            all,
            vpid,
            real_fd,
            cloexec,
        ).mentions_file(file),
        next_is_free(all.tables[vpid]) ==> all.with(
            vpid,
            all.tables[vpid].with_pipe(id),
        ).mentions_file(file),
{
    let table = all.tables[vpid];
    let p = choose|p: u32| #[trigger]
        all.tables.contains_key(p) && all.tables[p].mentions_file(file);
    let fd = choose|fd: u32| #[trigger]
        all.tables[p].fds.contains_key(fd) && all.tables[p].fds[fd] == Vfd::File(file);
    lemma_still_mentioned(all, p, fd, file, vpid, new_fd, table.without(new_fd));
    lemma_still_mentioned(all, p, fd, file, vpid, new_fd, table.after_dup2(old_fd, new_fd));
    lemma_still_mentioned(
        all,
        p,
        fd,
        file,
        vpid,
        table.next_fd,
        table.allocated().after_dup2(old_fd, table.next_fd),
    );
    if next_is_free(table) {
        lemma_room(table);
        let opened = FileRef { id: all.next_file, real_fd, cloexec };
        lemma_still_mentioned(
            all,
            p,
            fd,
            file,
            vpid,
            table.next_fd,
            table.inserted(Vfd::File(opened)),
        );
        let a = all.with(vpid, table.inserted(Vfd::File(opened)));
        let q = choose|q: u32| #[trigger]
            a.tables.contains_key(q) && a.tables[q].mentions_file(file);
        assert(file_inserted(all, vpid, real_fd, cloexec).tables.contains_key(q));
        let made = table.with_pipe(id);
        let b = all.with(vpid, made);
        assert(b.tables.contains_key(p));
        if p == vpid {
            assert(made.fds.contains_key(fd));
        }
    }
}

/// A file whose descriptor is not the one that changes is still mentioned.
proof fn lemma_still_mentioned(
    all: FdTablesView,
    p: u32,
    fd: u32,
    file: FileRef,
    vpid: u32,
    changed: u32,
    table: TableView,
)
    requires
        all.tables.contains_key(p),
        all.tables.contains_key(vpid),
        all.tables[p].fds.contains_key(fd),
        all.tables[p].fds[fd] == Vfd::File(file),
        forall|n: u32|
            n != changed && #[trigger] all.tables[vpid].fds.contains_key(n)
                ==> table.fds.contains_key(n) && table.fds[n] == all.tables[vpid].fds[n],
    ensures
        !all.with(vpid, table).mentions_file(file) ==> p == vpid && fd == changed,
{
    let after = all.with(vpid, table);
    if p != vpid || fd != changed {
        assert(after.tables.contains_key(p));
        assert(after.tables[p].fds.contains_key(fd));
        assert(after.tables[p].mentions_file(file));
    }
}

/// Opening a file never brings back one that left the tables, so a kernel
/// descriptor that was handed out for closing is not handed out again.
pub proof fn law_closed_file_stays_closed(
    all: FdTablesView,
    file: FileRef,
    vpid: u32,
    real_fd: i32,
    cloexec: bool,
)
    requires
        !all.mentions_file(file),
        file.id < all.next_file,
        can_insert_file(all, vpid),
    ensures
        !file_inserted(all, vpid, real_fd, cloexec).mentions_file(file),
{
    let after = file_inserted(all, vpid, real_fd, cloexec);
    if after.mentions_file(file) {
        let p = choose|p: u32| #[trigger]
            after.tables.contains_key(p) && after.tables[p].mentions_file(file);
        let fd = choose|fd: u32| #[trigger]
            after.tables[p].fds.contains_key(fd) && after.tables[p].fds[fd] == Vfd::File(file);
        if all.tables.contains_key(p) {
            assert(all.tables[p].fds.contains_key(fd));
        }
    }
}

/// Every pipe that a descriptor of some process is an end of exists.
pub open spec fn pipes_known(all: FdTablesView, pipes: Map<u64, PipeView>) -> bool {
    forall|vpid: u32, fd: u32|
        #![trigger all.tables[vpid].fds[fd]]
        all.tables.contains_key(vpid) && all.tables[vpid].fds.contains_key(fd) ==> (
        all.tables[vpid].fds[fd].pipe() matches Some(id) ==> pipes.contains_key(id))
}

/// A pipe exists while some process mentions it: creating pipes, forking,
/// duplicating and closing descriptors keep that so, as does dropping a table.
pub proof fn law_pipes_stay_known(
    all: FdTablesView,
    pipes: Map<u64, PipeView>,
    vpid: u32,
    other: u32,
    id: u64,
    old_fd: u32,
    new_fd: u32,
)
    requires
        pipes_known(all, pipes),
    ensures
        pipes_known(
            all.with(vpid, all.table_or_new(vpid).with_pipe(id)),
            all.table_or_new(vpid).pipes_after_close(all.table_or_new(vpid).next_fd, pipes).insert(
                id,
                PipeView::empty(),
            ),
        ),
        pipes_known(
            all.with(vpid, all.table_or_new(other)),
            all.pipes_after_fork(other, vpid, pipes),
        ),
        pipes_known(all.without(vpid), all.pipes_after_drop(vpid, pipes)),
        all.tables.contains_key(vpid) ==> pipes_known(
            all.with(vpid, all.tables[vpid].after_dup2(old_fd, new_fd)),
            all.tables[vpid].pipes_after_dup2(old_fd, new_fd, pipes),
        ),
        all.tables.contains_key(vpid) ==> pipes_known(
            all.with(vpid, all.tables[vpid].without(new_fd)),
            all.tables[vpid].pipes_after_close(new_fd, pipes),
        ),
        all.tables.contains_key(vpid) ==> pipes_known(
            all.with(vpid, all.tables[vpid].after_exec()),
            pipes,
        ),
{
}

/// What a descriptor stands for is what its own process's table says; tables of
/// other processes do not matter, and a process without a table has none in use.
pub proof fn law_tables_apart(
    all: FdTablesView,
    vpid: u32,
    other: u32,
    fd: u32,
    table: TableView,
)
    requires
        other != vpid,
    ensures
        lookup_vfd(all.with(vpid, table), vpid, fd) == (if table.fds.contains_key(fd) {
            Some(table.fds[fd])
        } else {
            None
        }),
        lookup_vfd(all.with(vpid, table), other, fd) == lookup_vfd(all, other, fd),
        lookup_vfd(all.without(vpid), vpid, fd) is None,
        lookup_vfd(all.without(vpid), other, fd) == lookup_vfd(all, other, fd),
        all.with(vpid, table).next_file == all.next_file,
        all.without(vpid).next_file == all.next_file,
        all.tables.contains_key(vpid) ==> all.table_or_new(vpid) == all.tables[vpid],
        !all.tables.contains_key(vpid) ==> all.table_or_new(vpid) == TableView::standard(0, 1, 2),
{
}

/// An opened file is new: no descriptor stood for it before, its identity is not
/// given out again, and it has the kernel descriptor and the mark that it was opened
/// with. No other descriptor of any process changes.
pub proof fn law_opened_file_is_new(
    all: FdTablesView,
    vpid: u32,
    real_fd: i32,
    cloexec: bool,
    other: u32,
    fd: u32,
)
    requires
        all.wf(),
        can_insert_file(all, vpid),
    ensures
        ({
            let after = file_inserted(all, vpid, real_fd, cloexec);
            let new_fd = all.table_or_new(vpid).next_fd;
            let file = FileRef { id: all.next_file, real_fd, cloexec };
            &&& lookup_vfd(after, vpid, new_fd) == Some(Vfd::File(file))
            &&& !all.mentions_file(file)
            &&& after.next_file == all.next_file + 1
            &&& other != vpid ==> lookup_vfd(after, other, fd) == lookup_vfd(all, other, fd)
            &&& fd != new_fd && all.tables.contains_key(vpid) ==> lookup_vfd(after, vpid, fd)
                == lookup_vfd(all, vpid, fd)
        }),
{
    let file = FileRef { id: all.next_file, real_fd, cloexec };
    if all.mentions_file(file) {
        let p = choose|p: u32| #[trigger]
            all.tables.contains_key(p) && all.tables[p].mentions_file(file);
        let n = choose|n: u32| #[trigger]
            all.tables[p].fds.contains_key(n) && all.tables[p].fds[n] == Vfd::File(file);
        assert(all.tables[p].fds[n] == Vfd::File(file));
    }
}

/// The kernel descriptor of a file is closed exactly when no descriptor of any process
/// stands for the file any more; a descriptor that passes through, or is an end of a
/// pipe, closes none.
pub proof fn law_kernel_descriptor_closed_last(
    after: FdTablesView,
    file: FileRef,
    vpid: u32,
    fd: u32,
    n: i32,
    id: u64,
)
    ensures
        lookup_vfd(after, vpid, fd) == Some(Vfd::File(file)) ==> kernel_to_close(
            Some(Vfd::File(file)),
            after,
        ) is None,
        (forall|p: u32, m: u32| #[trigger] lookup_vfd(after, p, m) != Some(Vfd::File(file)))
            ==> kernel_to_close(Some(Vfd::File(file)), after) == Some(file.real_fd),
        kernel_to_close(Some(Vfd::Real(n)), after) is None,
        kernel_to_close(Some(Vfd::PipeRead(id)), after) is None,
        kernel_to_close(Some(Vfd::PipeWrite(id)), after) is None,
        kernel_to_close(None, after) is None,
{
    if lookup_vfd(after, vpid, fd) == Some(Vfd::File(file)) {
        assert(after.tables[vpid].fds.contains_key(fd));
        assert(after.tables[vpid].mentions_file(file));
        assert(after.tables.contains_key(vpid));
    }
    if after.mentions_file(file) {
        let p = choose|p: u32| #[trigger]
            after.tables.contains_key(p) && after.tables[p].mentions_file(file);
        let m = choose|m: u32| #[trigger]
            after.tables[p].fds.contains_key(m) && after.tables[p].fds[m] == Vfd::File(file);
        assert(lookup_vfd(after, p, m) == Some(Vfd::File(file)));
    }
}

/// Dropping the tables of several processes closes each pipe that one of them is an
/// end of, and leaves the other pipes alone.
pub proof fn law_drops_close_pipes(
    all: FdTablesView,
    who: Set<u32>,
    pipes: Map<u64, PipeView>,
    id: u64,
)
    requires
        pipes.contains_key(id),
    ensures
        all.pipes_after_drops(who, pipes).dom() == pipes.dom(),
        all.pipes_after_drops(who, pipes)[id].data == pipes[id].data,
        (exists|vpid: u32, fd: u32|
            who.contains(vpid) && (#[trigger] lookup_vfd(all, vpid, fd) == Some(Vfd::PipeRead(id))
                || lookup_vfd(all, vpid, fd) == Some(Vfd::PipeWrite(id))))
            ==> all.pipes_after_drops(who, pipes)[id].closed,
        (forall|vpid: u32, fd: u32|
            who.contains(vpid) ==> #[trigger] lookup_vfd(all, vpid, fd) != Some(Vfd::PipeRead(id))
                && lookup_vfd(all, vpid, fd) != Some(Vfd::PipeWrite(id)))
            ==> all.pipes_after_drops(who, pipes)[id] == pipes[id],
{
    assert(all.pipes_after_drops(who, pipes).dom() =~= pipes.dom());
    if exists|vpid: u32, fd: u32|
        who.contains(vpid) && (#[trigger] lookup_vfd(all, vpid, fd) == Some(Vfd::PipeRead(id))
            || lookup_vfd(all, vpid, fd) == Some(Vfd::PipeWrite(id))) {
        let (vpid, fd) = choose|vpid: u32, fd: u32|
            who.contains(vpid) && (#[trigger] lookup_vfd(all, vpid, fd) == Some(Vfd::PipeRead(id))
                || lookup_vfd(all, vpid, fd) == Some(Vfd::PipeWrite(id)));
        assert(all.tables[vpid].fds.contains_key(fd));
        assert(all.tables[vpid].mentions_pipe(id));
        assert(all.tables.contains_key(vpid));
    }
    if all.mentioned_by(who, id) {
        let p = choose|p: u32| #[trigger]
            all.tables.contains_key(p) && who.contains(p) && all.tables[p].mentions_pipe(id);
        let m = choose|m: u32| #[trigger]
            all.tables[p].fds.contains_key(m) && all.tables[p].fds[m].pipe() == Some(id);
        assert(lookup_vfd(all, p, m) == Some(Vfd::PipeRead(id)) || lookup_vfd(all, p, m) == Some(
            Vfd::PipeWrite(id),
        ));
    }
}

/// The files that are handed out are those whose last descriptor went: each file that
/// some descriptor of some process stood for before, and none stands for after, and no
/// others; each once, so that its kernel descriptor is closed once.
pub proof fn law_files_handed_out_once(
    before: FdTablesView,
    after: FdTablesView,
    files: Seq<FileRef>,
    file: FileRef,
)
    requires
        hands_out(before, after, files),
    ensures
        ({
            let was = exists|p: u32, fd: u32| #[trigger]
                lookup_vfd(before, p, fd) == Some(Vfd::File(file));
            let is = exists|p: u32, fd: u32| #[trigger]
                lookup_vfd(after, p, fd) == Some(Vfd::File(file));
            (exists|i: int| 0 <= i < files.len() && files[i] == file) <==> was && !is
        }),
        forall|i: int, j: int| 0 <= i < j < files.len() ==> files[i] != files[j],
{
    lemma_mentioned(before, file);
    lemma_mentioned(after, file);
    assert(files.contains(file) <==> before.mentions_file(file) && !after.mentions_file(file));
}

proof fn lemma_mentioned(all: FdTablesView, file: FileRef)
    ensures
        all.mentions_file(file) <==> exists|p: u32, fd: u32| #[trigger]
            lookup_vfd(all, p, fd) == Some(Vfd::File(file)),
{
    if all.mentions_file(file) {
        let p = choose|p: u32| #[trigger]
            all.tables.contains_key(p) && all.tables[p].mentions_file(file);
        let fd = choose|fd: u32| #[trigger]
            all.tables[p].fds.contains_key(fd) && all.tables[p].fds[fd] == Vfd::File(file);
        assert(lookup_vfd(all, p, fd) == Some(Vfd::File(file)));
    }
    if exists|p: u32, fd: u32| #[trigger] lookup_vfd(all, p, fd) == Some(Vfd::File(file)) {
        let (p, fd) = choose|p: u32, fd: u32| #[trigger]
            lookup_vfd(all, p, fd) == Some(Vfd::File(file));
        assert(all.tables[p].fds.contains_key(fd));
        assert(all.tables.contains_key(p));
    }
}

} // verus!
