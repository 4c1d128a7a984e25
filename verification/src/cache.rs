//! Programs that were loaded before, by path.

use crate::coroutine::{CoroView, VPid};
use crate::executor::{texts, Executor};
use vstd::prelude::*;
use vstd::string::*;

verus! {

/// A snapshot of a writable segment of a loaded program.
pub struct WritableSegment {
    pub addr: u64,
    pub data: Vec<u8>,
    /// Flags of the segment.
    pub orig_flags: u32,
}

/// A loaded program.
pub struct BinaryCacheEntry {
    /// Path of the program, without links.
    pub path: String,
    /// Address of its main function; 0 where it could not be found.
    pub main_addr: u64,
    /// Handle of the dynamic linker.
    pub handle: u64,
    /// Writable segments as they were before the program ran.
    pub saved_writable: Vec<WritableSegment>,
    /// Number of processes that run the program.
    pub active_users: u32,
}

/// A loaded program as a mathematical value.
#[verifier::ext_equal]
pub struct EntryView {
    pub main_addr: u64,
    pub handle: u64,
    pub saved_writable: Seq<WritableSegment>,
    pub active_users: u32,
}

impl View for BinaryCacheEntry {
    type V = EntryView;

    open spec fn view(&self) -> EntryView {
        EntryView {
            main_addr: self.main_addr,
            handle: self.handle,
            saved_writable: self.saved_writable@,
            active_users: self.active_users,
        }
    }
}

/// The programs that were loaded.
pub struct BinaryCache {
    entries: Vec<BinaryCacheEntry>,
}

spec fn has_path(entries: Seq<BinaryCacheEntry>, path: Seq<char>) -> bool {
    exists|i: int| 0 <= i < entries.len() && (#[trigger] entries[i]).path@ == path
}

spec fn index_of(entries: Seq<BinaryCacheEntry>, path: Seq<char>) -> int {
    choose|i: int| 0 <= i < entries.len() && (#[trigger] entries[i]).path@ == path
}

impl View for BinaryCache {
    type V = Map<Seq<char>, EntryView>;

    closed spec fn view(&self) -> Map<Seq<char>, EntryView> {
        Map::new(
            |path: Seq<char>| has_path(self.entries@, path),
            |path: Seq<char>| self.entries@[index_of(self.entries@, path)]@,
        )
    }
}

/// The snapshots of all cached programs lie below the end of the address space.
pub open spec fn snapshots_fit(cache: Map<Seq<char>, EntryView>) -> bool {
    forall|path: Seq<char>, i: int|
        #![trigger cache[path].saved_writable[i]]
        cache.contains_key(path) && 0 <= i < cache[path].saved_writable.len()
            ==> cache[path].saved_writable[i].addr + cache[path].saved_writable[i].data@.len() + 4095
            <= u64::MAX
}

/// The cache after the number of users of `path` changed to `users`.
pub open spec fn with_users(
    cache: Map<Seq<char>, EntryView>,
    path: Seq<char>,
    users: u32,
) -> Map<Seq<char>, EntryView> {
    cache.insert(path, EntryView { active_users: users, ..cache[path] })
}

/// The cache after `path` got another user. Nothing happens where it is not
/// cached.
pub open spec fn user_added(cache: Map<Seq<char>, EntryView>, path: Seq<char>) -> Map<
    Seq<char>,
    EntryView,
> {
    if cache.contains_key(path) {
        with_users(cache, path, cache[path].active_users.wrapping_add(1))
    } else {
        cache
    }
}

/// The cache after `path` lost a user. Nothing happens where it is not cached.
pub open spec fn user_removed(cache: Map<Seq<char>, EntryView>, path: Seq<char>) -> Map<
    Seq<char>,
    EntryView,
> {
    if cache.contains_key(path) {
        with_users(cache, path, cache[path].active_users.wrapping_sub(1))
    } else {
        cache
    }
}

/// The cache after each of `paths` lost a user.
pub open spec fn all_released(cache: Map<Seq<char>, EntryView>, paths: Seq<Seq<char>>) -> Map<
    Seq<char>,
    EntryView,
>
    decreases paths.len(),
{
    if paths.len() == 0 {
        cache
    } else {
        user_removed(all_released(cache, paths.drop_last()), paths.last())
    }
}

impl BinaryCache {
    /// No path is cached twice.
    pub closed spec fn wf(&self) -> bool {
        forall|i: int, j: int|
            0 <= i < self.entries@.len() && 0 <= j < self.entries@.len() && i != j ==> (
            #[trigger] self.entries@[i]).path@ != (#[trigger] self.entries@[j]).path@
    }

    proof fn lemma_entry(self, i: int)
        requires
            self.wf(),
            0 <= i < self.entries@.len(),
        ensures
            self@.contains_key(self.entries@[i].path@),
            self@[self.entries@[i].path@] == self.entries@[i]@,
    {
        let path = self.entries@[i].path@;
        assert(has_path(self.entries@, path));
        let k = index_of(self.entries@, path);
        assert(0 <= k < self.entries@.len() && self.entries@[k].path@ == path);
    }

    /// An empty cache.
    pub fn new() -> (cache: BinaryCache)
        ensures
            cache.wf(),
            cache@ == Map::<Seq<char>, EntryView>::empty(),
            snapshots_fit(cache@),
    {
        let cache = BinaryCache { entries: Vec::new() };
        assert(cache@ =~= Map::<Seq<char>, EntryView>::empty());
        cache
    }

    /// The number of cached programs.
    pub fn len(&self) -> (n: usize)
        requires
            self.wf(),
        ensures
            n == self@.len(),
            self@.dom().finite(),
    {
        proof {
            lemma_len(*self, self.entries@.len() as int);
            assert(self@.dom() =~= Set::new(|path: Seq<char>| self@.contains_key(path)));
            let prefix = paths_of(self.entries@, self.entries@.len() as int);
            assert forall|path: Seq<char>| self@.dom().contains(path) <==> prefix.contains(path) by {
                lemma_paths_of(self.entries@, self.entries@.len() as int, path);
            }
            assert(self@.dom() =~= prefix);
        }
        self.entries.len()
    }

    fn find(&self, path: &String) -> (index: Option<usize>)
        requires
            self.wf(),
        ensures
            match index {
                Some(i) => i < self.entries@.len() && self.entries@[i as int].path@ == path@
                    && self@.contains_key(path@) && self@[path@] == self.entries@[i as int]@,
                None => !self@.contains_key(path@) && forall|i: int|
                    0 <= i < self.entries@.len() ==> (#[trigger] self.entries@[i]).path@ != path@,
            },
    {
        let mut i: usize = 0;
        while i < self.entries.len()
            invariant
                self.wf(),
                i <= self.entries@.len(),
                forall|k: int| 0 <= k < i ==> (#[trigger] self.entries@[k]).path@ != path@,
            decreases self.entries.len() - i,
        {
            if self.entries[i].path == *path {
                proof {
                    self.lemma_entry(i as int);
                }
                return Some(i);
            }
            i = i + 1;
        }
        None
    }

    /// The program at `path`.
    pub fn get(&self, path: &String) -> (entry: Option<&BinaryCacheEntry>)
        requires
            self.wf(),
        ensures
            match entry {
                Some(e) => self@.contains_key(path@) && self@[path@] == e@ && e.path@ == path@,
                None => !self@.contains_key(path@),
            },
    {
        match self.find(path) {
            Some(i) => Some(&self.entries[i]),
            None => None,
        }
    }

    /// Takes the program at `path` out of the cache.
    pub fn remove(&mut self, path: &String) -> (entry: Option<BinaryCacheEntry>)
        requires
            old(self).wf(),
        ensures
            final(self).wf(),
            final(self)@ == old(self)@.remove(path@),
            match entry {
                Some(e) => old(self)@.contains_key(path@) && old(self)@[path@] == e@,
                None => !old(self)@.contains_key(path@),
            },
    {
        match self.find(path) {
            Some(i) => {
                let ghost before = *self;
                let entry = self.entries.remove(i);
                proof {
                    assert forall|a: int, b: int|
                        0 <= a < self.entries@.len() && 0 <= b < self.entries@.len() && a
                            != b implies (#[trigger] self.entries@[a]).path@ != (
                    #[trigger] self.entries@[b]).path@ by {
                        let a0 = if a < i { a } else { a + 1 };
                        let b0 = if b < i { b } else { b + 1 };
                        assert(self.entries@[a] == before.entries@[a0]);
                        assert(self.entries@[b] == before.entries@[b0]);
                    }
                    assert forall|p: Seq<char>|
                        self@.contains_key(p) <==> before@.remove(path@).contains_key(p) by {
                        if has_path(self.entries@, p) {
                            let k = index_of(self.entries@, p);
                            assert(0 <= k < self.entries@.len() && self.entries@[k].path@ == p);
                            let k0 = if k < i { k } else { k + 1 };
                            assert(before.entries@[k0] == self.entries@[k]);
                            assert(before.entries@[k0].path@ != before.entries@[i as int].path@);
                        }
                        if has_path(before.entries@, p) && p != path@ {
                            let k0 = index_of(before.entries@, p);
                            assert(0 <= k0 < before.entries@.len() && before.entries@[k0].path@ == p);
                            let k = if k0 < i { k0 } else { k0 - 1 };
                            assert(self.entries@[k] == before.entries@[k0]);
                        }
                    }
                    assert forall|p: Seq<char>| self@.contains_key(p) implies self@[p]
                        == before@.remove(path@)[p] by {
                        let k = index_of(self.entries@, p);
                        assert(0 <= k < self.entries@.len() && self.entries@[k].path@ == p);
                        let k0 = if k < i { k } else { k + 1 };
                        assert(before.entries@[k0] == self.entries@[k]);
                        self.lemma_entry(k);
                        before.lemma_entry(k0);
                    }
                    assert(self@ =~= before@.remove(path@));
                }
                Some(entry)
            },
            None => {
                assert(self@ =~= old(self)@.remove(path@));
                None
            },
        }
    }

    /// Puts a program into the cache. One that was there under the same path is
    /// replaced, and returned.
    pub fn insert(&mut self, entry: BinaryCacheEntry) -> (replaced: Option<BinaryCacheEntry>)
        requires
            old(self).wf(),
        ensures
            final(self).wf(),
            final(self)@ == old(self)@.insert(entry.path@, entry@),
            match replaced {
                Some(e) => old(self)@.contains_key(entry.path@) && old(self)@[entry.path@] == e@,
                None => !old(self)@.contains_key(entry.path@),
            },
    {
        let replaced = self.remove(&entry.path);
        let ghost before = *self;
        let ghost added = entry;
        self.entries.push(entry);
        proof {
            let last = before.entries@.len() as int;
            assert forall|a: int| 0 <= a < last implies (#[trigger] self.entries@[a]).path@
                != added.path@ by {
                before.lemma_entry(a);
                assert(self.entries@[a] == before.entries@[a]);
            }
            assert forall|a: int, b: int|
                0 <= a < self.entries@.len() && 0 <= b < self.entries@.len() && a != b implies (
            #[trigger] self.entries@[a]).path@ != (#[trigger] self.entries@[b]).path@ by {
                if a < last && b < last {
                    assert(before.entries@[a].path@ != before.entries@[b].path@);
                }
            }
            self.lemma_entry(last);
            assert forall|p: Seq<char>|
                self@.contains_key(p) <==> before@.insert(added.path@, added@).contains_key(p) by {
                if has_path(self.entries@, p) {
                    let k = index_of(self.entries@, p);
                    assert(0 <= k < self.entries@.len() && self.entries@[k].path@ == p);
                    if k < last {
                        before.lemma_entry(k);
                    }
                }
                if has_path(before.entries@, p) {
                    let k = index_of(before.entries@, p);
                    assert(0 <= k < before.entries@.len() && before.entries@[k].path@ == p);
                    assert(self.entries@[k] == before.entries@[k]);
                    self.lemma_entry(k);
                }
            }
            assert forall|p: Seq<char>| self@.contains_key(p) implies self@[p] == before@.insert(
                added.path@,
                added@,
            )[p] by {
                let k = index_of(self.entries@, p);
                assert(0 <= k < self.entries@.len() && self.entries@[k].path@ == p);
                self.lemma_entry(k);
                if k < last {
                    before.lemma_entry(k);
                }
            }
            assert(self@ =~= before@.insert(added.path@, added@));
            assert(before@.insert(added.path@, added@) =~= old(self)@.insert(added.path@, added@));
        }
        replaced
    }

    fn set_users(&mut self, i: usize, users: u32)
        requires
            old(self).wf(),
            i < old(self).entries@.len(),
        ensures
            final(self).wf(),
            final(self)@ == with_users(old(self)@, old(self).entries@[i as int].path@, users),
    {
        let ghost before = *self;
        self.entries[i].active_users = users;
        proof {
            let path = before.entries@[i as int].path@;
            assert forall|k: int| 0 <= k < before.entries@.len() implies (
            #[trigger] self.entries@[k]).path@ == before.entries@[k].path@ by {}
            assert forall|a: int, b: int|
                0 <= a < self.entries@.len() && 0 <= b < self.entries@.len() && a != b implies (
            #[trigger] self.entries@[a]).path@ != (#[trigger] self.entries@[b]).path@ by {
                assert(before.entries@[a].path@ != before.entries@[b].path@);
            }
            before.lemma_entry(i as int);
            let after = with_users(before@, path, users);
            assert forall|p: Seq<char>| self@.contains_key(p) <==> after.contains_key(p) by {
                if has_path(self.entries@, p) {
                    let k = index_of(self.entries@, p);
                    assert(0 <= k < self.entries@.len() && self.entries@[k].path@ == p);
                    before.lemma_entry(k);
                }
                if has_path(before.entries@, p) {
                    let k = index_of(before.entries@, p);
                    assert(0 <= k < before.entries@.len() && before.entries@[k].path@ == p);
                    self.lemma_entry(k);
                }
            }
            assert forall|p: Seq<char>| self@.contains_key(p) implies self@[p] == after[p] by {
                let k = index_of(self.entries@, p);
                assert(0 <= k < self.entries@.len() && self.entries@[k].path@ == p);
                self.lemma_entry(k);
                before.lemma_entry(k);
            }
            assert(self@ =~= after);
        }
    }

    /// Counts another user of `path`.
    pub fn track(&mut self, path: &String)
        requires
            old(self).wf(),
        ensures
            final(self).wf(),
            final(self)@ == user_added(old(self)@, path@),
    {
        if let Some(i) = self.find(path) {
            let users: u32 = self.entries[i].active_users.wrapping_add(1);
            self.set_users(i, users);
        }
    }

    /// Counts one user of `path` less.
    pub fn release(&mut self, path: &String)
        requires
            old(self).wf(),
        ensures
            final(self).wf(),
            final(self)@ == user_removed(old(self)@, path@),
    {
        if let Some(i) = self.find(path) {
            let users: u32 = self.entries[i].active_users.wrapping_sub(1);
            self.set_users(i, users);
        }
    }

    /// Empties the cache, and returns what was in it.
    pub fn drain(&mut self) -> (entries: Vec<BinaryCacheEntry>)
        requires
            old(self).wf(),
        ensures
            final(self).wf(),
            final(self)@ == Map::<Seq<char>, EntryView>::empty(),
            forall|i: int|
                0 <= i < entries@.len() ==> old(self)@.contains_key(
                    (#[trigger] entries@[i]).path@,
                ) && old(self)@[entries@[i].path@] == entries@[i]@,
            forall|path: Seq<char>| #[trigger]
                old(self)@.contains_key(path) ==> exists|i: int|
                    0 <= i < entries@.len() && (#[trigger] entries@[i]).path@ == path,
            forall|i: int, j: int|
                0 <= i < entries@.len() && 0 <= j < entries@.len() && i != j ==> (
                #[trigger] entries@[i]).path@ != (#[trigger] entries@[j]).path@,
    {
        let ghost before = *self;
        let mut entries: Vec<BinaryCacheEntry> = Vec::new();
        entries.append(&mut self.entries);
        proof {
            assert(entries@ =~= before.entries@);
            assert(self@ =~= Map::<Seq<char>, EntryView>::empty());
            assert forall|i: int| 0 <= i < entries@.len() implies before@.contains_key(
                (#[trigger] entries@[i]).path@,
            ) && before@[entries@[i].path@] == entries@[i]@ by {
                before.lemma_entry(i);
            }
        }
        entries
    }
}

/// The paths of the first `n` entries.
spec fn paths_of(entries: Seq<BinaryCacheEntry>, n: int) -> Set<Seq<char>>
    decreases n,
{
    if n <= 0 {
        Set::empty()
    } else {
        paths_of(entries, n - 1).insert(entries[n - 1].path@)
    }
}

proof fn lemma_paths_of(entries: Seq<BinaryCacheEntry>, n: int, path: Seq<char>)
    requires
        0 <= n <= entries.len(),
    ensures
        paths_of(entries, n).contains(path) <==> exists|i: int|
            0 <= i < n && (#[trigger] entries[i]).path@ == path,
    decreases n,
{
    if n > 0 {
        lemma_paths_of(entries, n - 1, path);
        assert(entries[n - 1].path@ == path || entries[n - 1].path@ != path);
    }
}

proof fn lemma_len(cache: BinaryCache, n: int)
    requires
        cache.wf(),
        0 <= n <= cache.entries@.len(),
    ensures
        paths_of(cache.entries@, n).finite(),
        paths_of(cache.entries@, n).len() == n,
    decreases n,
{
    if n > 0 {
        lemma_len(cache, n - 1);
        lemma_paths_of(cache.entries@, n - 1, cache.entries@[n - 1].path@);
    }
}

/// Takes the program at `real_path` out of the cache. Returns the handle that is
/// to be closed, where it was cached.
pub fn unload_binary(cache: &mut BinaryCache, real_path: &String) -> (handle: Option<u64>)
    requires
        old(cache).wf(),
    ensures
        final(cache).wf(),
        final(cache)@ == old(cache)@.remove(real_path@),
        snapshots_fit(old(cache)@) ==> snapshots_fit(final(cache)@),
        handle == (if old(cache)@.contains_key(real_path@) {
            Some(old(cache)@[real_path@].handle)
        } else {
            None
        }),
{
    proof {
        lemma_snapshots_stay(cache@, cache@.remove(real_path@));
    }
    match cache.remove(real_path) {
        Some(entry) => Some(entry.handle),
        None => None,
    }
}

/// Empties the cache. Returns what was in it: the handles are to be closed.
pub fn unload_all_binaries(cache: &mut BinaryCache) -> (entries: Vec<BinaryCacheEntry>)
    requires
        old(cache).wf(),
    ensures
        final(cache).wf(),
        final(cache)@ == Map::<Seq<char>, EntryView>::empty(),
        snapshots_fit(final(cache)@),
        forall|i: int|
            0 <= i < entries@.len() ==> old(cache)@.contains_key((#[trigger] entries@[i]).path@)
                && old(cache)@[entries@[i].path@] == entries@[i]@,
        forall|path: Seq<char>| #[trigger]
            old(cache)@.contains_key(path) ==> exists|i: int|
                0 <= i < entries@.len() && (#[trigger] entries@[i]).path@ == path,
        forall|i: int, j: int|
            0 <= i < entries@.len() && 0 <= j < entries@.len() && i != j ==> (
            #[trigger] entries@[i]).path@ != (#[trigger] entries@[j]).path@,
{
    cache.drain()
}

/// The number of cached programs.
pub fn cached_binary_count(cache: &BinaryCache) -> (n: usize)
    requires
        cache.wf(),
    ensures
        n == cache@.len(),
{
    cache.len()
}

/// Counts one user less of each of `paths`. Programs without users stay cached.
pub fn release_binaries(cache: &mut BinaryCache, paths: &[String])
    requires
        old(cache).wf(),
    ensures
        final(cache).wf(),
        final(cache)@ == all_released(old(cache)@, texts(paths@)),
        snapshots_fit(old(cache)@) ==> snapshots_fit(final(cache)@),
{
    proof {
        law_users_keep_snapshots(cache@, texts(paths@), Seq::empty());
    }
    let mut i: usize = 0;
    let ghost all = texts(paths@);
    while i < paths.len()
        invariant
            i <= paths@.len(),
            all == texts(paths@),
            cache.wf(),
            cache@ == all_released(old(cache)@, all.take(i as int)),
        decreases paths.len() - i,
    {
        assert(all.take(i + 1).drop_last() =~= all.take(i as int));
        cache.release(&paths[i]);
        i = i + 1;
    }
    assert(all.take(i as int) =~= all);
}

/// Records that process `vpid` runs the program at `path`, and counts it.
pub fn track_binary_user(ex: &mut Executor, cache: &mut BinaryCache, vpid: VPid, path: &String)
    requires
        old(cache).wf(),
    ensures
        final(cache).wf(),
        final(cache)@ == user_added(old(cache)@, path@),
        snapshots_fit(old(cache)@) ==> snapshots_fit(final(cache)@),
        final(ex)@ == old(ex)@.changed(
            vpid,
            |co: CoroView| CoroView { binary_path: Some(path@), ..co },
        ),
        old(ex)@.wf() ==> final(ex)@.wf(),
{
    proof {
        law_users_keep_snapshots(cache@, Seq::empty(), path@);
    }
    ex.set_binary_path(vpid, path.clone());
    cache.track(path);
}

/// Releasing a program undoes tracking it, whatever the count was.
pub proof fn law_release_undoes_track(cache: Map<Seq<char>, EntryView>, path: Seq<char>)
    ensures
        user_removed(user_added(cache, path), path) == cache,
{
    if cache.contains_key(path) {
        assert(user_removed(user_added(cache, path), path) =~= cache);
    }
}

/// Releasing keeps every program cached: the paths stay the same, and so does
/// everything but the count.
pub proof fn law_release_keeps(cache: Map<Seq<char>, EntryView>, paths: Seq<Seq<char>>, path: Seq<char>)
    ensures
        all_released(cache, paths).contains_key(path) == cache.contains_key(path),
        cache.contains_key(path) ==> all_released(cache, paths)[path] == (EntryView {
            active_users: all_released(cache, paths)[path].active_users,
            ..cache[path]
        }),
    decreases paths.len(),
{
    if paths.len() > 0 {
        law_release_keeps(cache, paths.drop_last(), path);
    }
}

/// A cache with some of the programs of another, and with the same snapshots of
/// these.
proof fn lemma_snapshots_stay(
    before: Map<Seq<char>, EntryView>,
    after: Map<Seq<char>, EntryView>,
)
    requires
        forall|path: Seq<char>| #[trigger]
            after.contains_key(path) ==> before.contains_key(path) && after[path].saved_writable
                == before[path].saved_writable,
    ensures
        snapshots_fit(before) ==> snapshots_fit(after),
{
    if snapshots_fit(before) {
        assert forall|path: Seq<char>, i: int|
            #![trigger after[path].saved_writable[i]]
            after.contains_key(path) && 0 <= i
                < after[path].saved_writable.len() implies after[path].saved_writable[i].addr
            + after[path].saved_writable[i].data@.len() + 4095 <= u64::MAX by {
            assert(after[path].saved_writable[i] == before[path].saved_writable[i]);
        }
    }
}

/// Counting users, one more or some less, leaves the snapshots where they fit.
pub proof fn law_users_keep_snapshots(
    cache: Map<Seq<char>, EntryView>,
    paths: Seq<Seq<char>>,
    path: Seq<char>,
)
    ensures
        snapshots_fit(cache) ==> snapshots_fit(user_added(cache, path)),
        snapshots_fit(cache) ==> snapshots_fit(user_removed(cache, path)),
        snapshots_fit(cache) ==> snapshots_fit(all_released(cache, paths)),
{
    lemma_snapshots_stay(cache, user_added(cache, path));
    lemma_snapshots_stay(cache, user_removed(cache, path));
    assert forall|p: Seq<char>| #[trigger]
        all_released(cache, paths).contains_key(p) implies cache.contains_key(p) && all_released(
        cache,
        paths,
    )[p].saved_writable == cache[p].saved_writable by {
        law_release_keeps(cache, paths, p);
    }
    lemma_snapshots_stay(cache, all_released(cache, paths));
}

/// Users are counted one by one: tracking a cached program adds one, and releasing
/// takes one away for each time its path is listed. Nothing else about any program
/// changes, and no program enters or leaves the cache.
pub proof fn law_users_counted(
    cache: Map<Seq<char>, EntryView>,
    path: Seq<char>,
    other: Seq<char>,
    paths: Seq<Seq<char>>,
)
    requires
        cache.contains_key(path),
    ensures
        user_added(cache, path).dom() == cache.dom(),
        user_added(cache, path)[path].active_users == (cache[path].active_users + 1)
            % 0x1_0000_0000,
        other != path && cache.contains_key(other) ==> user_added(cache, path)[other]
            == cache[other],
        user_added(cache, path)[path] == (EntryView {
            active_users: user_added(cache, path)[path].active_users,
            ..cache[path]
        }),
        ({
            let times = paths.filter(|p: Seq<char>| p == path).len();
            all_released(cache, paths)[path].active_users == (cache[path].active_users - times)
                % 0x1_0000_0000
        }),
    decreases paths.len(),
{
    assert(user_added(cache, path).dom() =~= cache.dom());
    reveal(Seq::filter);
    let pred = |p: Seq<char>| p == path;
    if paths.len() > 0 {
        let some = paths.drop_last();
        law_users_counted(cache, path, other, some);
        law_release_keeps(cache, some, path);
        let before = all_released(cache, some)[path].active_users;
        let times = some.filter(pred).len();
        lemma_one_less(cache[path].active_users as int, times as int, before);
    }
}

proof fn lemma_one_less(users: int, times: int, before: u32)
    requires
        before == (users - times) % 0x1_0000_0000,
    ensures
        before.wrapping_sub(1) == (users - (times + 1)) % 0x1_0000_0000,
{
}

/// A program that is not cached is neither tracked nor released.
pub proof fn law_unknown_program(cache: Map<Seq<char>, EntryView>, path: Seq<char>)
    requires
        !cache.contains_key(path),
    ensures
        user_added(cache, path) == cache,
        user_removed(cache, path) == cache,
{
}

} // verus!
