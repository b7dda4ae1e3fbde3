//! The buffer pool: a bounded in-memory cache of pages keyed by page
//! identifier, and the single chokepoint that takes the logical lock
//! before a page is handed out.
//!
//! Policy: no-steal, force. A page dirtied by a transaction stays cached
//! until that transaction terminates: commit flushes it to the heap file
//! before its locks are released, abort drops it unwritten. Eviction on
//! capacity pressure therefore only ever removes clean frames.

use crate::errors::DbError;
use crate::heap_file::HeapFile;
use crate::heap_page::{page_parses_from, HeapPage, HeapPageId, Permission, RecordId};
use crate::tuple::Tuple;
use crate::lock_manager::{
    granted_mode, lm_wf, spec_holds, wait_die_outcome, LockManager, LockMode, LockOutcome,
};
use crate::transaction::TransactionId;
use vstd::prelude::*;

verus! {

/// The default number of frames a pool is built with; the eviction
/// trigger threshold, not a hard memory limit.
pub const DEFAULT_PAGES: usize = 50;

/// One cache entry: a page, whether it holds unflushed writes, and the
/// transaction that made them.
pub struct Frame {
    pub pid: HeapPageId,
    pub page: HeapPage,
    pub dirty: bool,
    pub owner: u64,
}

/// The lock a permission requires: shared to read, exclusive to write.
pub open spec fn spec_lock_mode_for(perm: Permission) -> LockMode {
    match perm {
        Permission::Read => LockMode::Shared,
        Permission::Write => LockMode::Exclusive,
    }
}

/// Returns the lock mode matching the permission.
pub fn lock_mode_for(perm: Permission) -> (r: LockMode)
    ensures
        r == spec_lock_mode_for(perm),
{
    match perm {
        Permission::Read => LockMode::Shared,
        Permission::Write => LockMode::Exclusive,
    }
}

/// Some frame caches `pid`.
pub open spec fn is_cached(fs: Seq<Frame>, pid: HeapPageId) -> bool {
    exists|i: int| 0 <= i < fs.len() && (#[trigger] fs[i]).pid == pid
}

/// The frame caching `pid` (the unique one, in a well-formed pool).
pub open spec fn cached_frame(fs: Seq<Frame>, pid: HeapPageId) -> Frame {
    fs[choose|i: int| 0 <= i < fs.len() && (#[trigger] fs[i]).pid == pid]
}

/// No two frames cache the same page.
pub open spec fn frames_distinct(fs: Seq<Frame>) -> bool {
    forall|i: int, j: int|
        0 <= i < fs.len() && 0 <= j < fs.len() && i != j ==> (#[trigger] fs[i]).pid != (
        #[trigger] fs[j]).pid
}

/// Two pages agree in every view a caller can observe.
pub open spec fn page_views_eq(p: HeapPage, q: HeapPage) -> bool {
    &&& p.pid == q.pid
    &&& p.td.matches(q.td)
    &&& p.used@ == q.used@
    &&& p.slots_view() == q.slots_view()
}

/// `f` is a clean frame freshly loaded from `file`: its page reads off
/// the file's current image of that page.
pub open spec fn clean_load_from(f: Frame, file: HeapFile) -> bool {
    &&& !f.dirty
    &&& f.pid.table_id == file.id
    &&& f.pid.page_number < file.disk_view().len()
    &&& f.page.wf()
    &&& f.page.pid == f.pid
    &&& f.page.td.matches(file.td)
    &&& page_parses_from(f.page, file.disk_view()[f.pid.page_number as int])
}

/// Every new frame is an old frame, unchanged, or a clean load from
/// `file` — nothing else enters the cache.
pub open spec fn frames_evolve(old_fs: Seq<Frame>, new_fs: Seq<Frame>, file: HeapFile) -> bool {
    forall|i: int|
        0 <= i < new_fs.len() ==> {
            ||| (is_cached(old_fs, (#[trigger] new_fs[i]).pid) && cached_frame(
                old_fs,
                new_fs[i].pid,
            ) == new_fs[i])
            ||| clean_load_from(new_fs[i], file)
        }
}

/// Every dirty old frame is still cached, unchanged: eviction never
/// touches unflushed writes.
pub open spec fn dirty_frames_kept(old_fs: Seq<Frame>, new_fs: Seq<Frame>) -> bool {
    forall|i: int|
        0 <= i < old_fs.len() && (#[trigger] old_fs[i]).dirty ==> is_cached(new_fs, old_fs[i].pid)
            && cached_frame(new_fs, old_fs[i].pid) == old_fs[i]
}


/// The occupancy flags page `pn` of `file` shows on disk.
pub open spec fn disk_used(file: HeapFile, pn: int) -> Seq<bool> {
    Seq::new(
        crate::heap_page::slots_per_page(file.td.spec_tuple_size()),
        |s: int| crate::heap_page::spec_bit(file.disk_view()[pn][s / 8], s % 8),
    )
}

/// The occupancy flags page `pn` currently shows through the pool: the
/// cached frame's if the page is cached, the disk's otherwise.
pub open spec fn visible_used(pool: BufferPool, file: HeapFile, pn: int) -> Seq<bool> {
    let pid = HeapPageId { table_id: file.id, page_number: pn as u32 };
    if is_cached(pool.frames@, pid) {
        cached_frame(pool.frames@, pid).page.used@
    } else {
        disk_used(file, pn)
    }
}

/// Page `pn` shows no free slot through the pool.
pub open spec fn page_full(pool: BufferPool, file: HeapFile, pn: int) -> bool {
    forall|s: int|
        0 <= s < visible_used(pool, file, pn).len() ==> visible_used(pool, file, pn)[s]
}

/// A freshly loaded frame shows exactly the disk's occupancy flags.
pub proof fn lemma_loaded_used(f: Frame, file: HeapFile)
    requires
        file.wf(),
        clean_load_from(f, file),
    ensures
        f.page.used@ == disk_used(file, f.pid.page_number as int),
{
    assert(f.page.td.spec_tuple_size() == file.td.spec_tuple_size());
    assert(f.page.used@ =~= disk_used(file, f.pid.page_number as int));
}


/// The slot bytes page `pn` of `file` shows on disk.
pub open spec fn disk_slots(file: HeapFile, pn: int) -> Seq<Seq<u8>> {
    let ts = file.td.spec_tuple_size() as int;
    let ns = crate::heap_page::slots_per_page(file.td.spec_tuple_size());
    let hs = crate::heap_page::header_size(ns) as int;
    Seq::new(ns, |x: int| file.disk_view()[pn].subrange(hs + x * ts, hs + (x + 1) * ts))
}

/// The slot bytes a page currently shows through the pool.
pub open spec fn visible_slots_of(pool: BufferPool, file: HeapFile, pid: HeapPageId) -> Seq<
    Seq<u8>,
> {
    if is_cached(pool.frames@, pid) {
        cached_frame(pool.frames@, pid).page.slots_view()
    } else {
        disk_slots(file, pid.page_number as int)
    }
}

/// A freshly loaded frame shows exactly the disk's slot bytes.
pub proof fn lemma_loaded_slots(f: Frame, file: HeapFile)
    requires
        file.wf(),
        clean_load_from(f, file),
    ensures
        f.page.slots_view() == disk_slots(file, f.pid.page_number as int),
{
    assert(f.page.td.spec_tuple_size() == file.td.spec_tuple_size());
    assert(f.page.slots_view() =~= disk_slots(file, f.pid.page_number as int));
}

/// In a pool extended only by clean loads of `file`, the frame found for
/// `pid` shows exactly what the page showed through the original pool.
pub proof fn lemma_visible_is_frame(
    pool0: BufferPool,
    fs_mid: Seq<Frame>,
    file: HeapFile,
    pid: HeapPageId,
    k: int,
)
    requires
        pool0.wf(),
        file.wf(),
        pid.table_id == file.id,
        frames_distinct(fs_mid),
        fs_mid.len() >= pool0.frames@.len(),
        forall|i: int| 0 <= i < pool0.frames@.len() ==> fs_mid[i] == pool0.frames@[i],
        forall|x: int|
            pool0.frames@.len() <= x < fs_mid.len() ==> clean_load_from(#[trigger] fs_mid[x], file),
        0 <= k < fs_mid.len(),
        fs_mid[k].pid == pid,
    ensures
        visible_used(pool0, file, pid.page_number as int) == fs_mid[k].page.used@,
        visible_slots_of(pool0, file, pid) == fs_mid[k].page.slots_view(),
{
    if is_cached(pool0.frames@, pid) {
        let x = choose|x: int|
            0 <= x < pool0.frames@.len() && (#[trigger] pool0.frames@[x]).pid == pid;
        assert(fs_mid[x] == pool0.frames@[x]);
        lemma_cached_at_index(fs_mid, x, pid);
        assert(x == k);
        lemma_cached_at_index(pool0.frames@, x, pid);
    } else {
        if (k as int) < pool0.frames@.len() {
            assert(fs_mid[k] == pool0.frames@[k]);
            lemma_cached_at_index(pool0.frames@, k, pid);
            assert(false);
        }
        lemma_loaded_used(fs_mid[k], file);
        lemma_loaded_slots(fs_mid[k], file);
    }
}


/// Pages that agree in every view have the same wire image.
pub proof fn lemma_page_views_bytes_ok(p: HeapPage, q: HeapPage, b: Seq<u8>)
    requires
        page_views_eq(p, q),
        crate::heap_page::page_bytes_ok(p, b),
    ensures
        crate::heap_page::page_bytes_ok(q, b),
{
    assert(q.td.spec_tuple_size() == p.td.spec_tuple_size());
}


/// Every frame of a pool that only grew by clean loads is an unchanged
/// old frame or such a load.
pub proof fn lemma_frames_accounted(fs0: Seq<Frame>, fs: Seq<Frame>, file: HeapFile)
    requires
        frames_distinct(fs0),
        fs.len() >= fs0.len(),
        forall|i: int| 0 <= i < fs0.len() ==> fs[i] == fs0[i],
        forall|x: int| fs0.len() <= x < fs.len() ==> clean_load_from(#[trigger] fs[x], file),
    ensures
        forall|i: int|
            0 <= i < fs.len() ==> ((is_cached(fs0, (#[trigger] fs[i]).pid) && cached_frame(
                fs0,
                fs[i].pid,
            ) == fs[i]) || clean_load_from(fs[i], file)),
{
    assert forall|i: int| 0 <= i < fs.len() implies ((is_cached(fs0, (#[trigger] fs[i]).pid)
        && cached_frame(fs0, fs[i].pid) == fs[i]) || clean_load_from(fs[i], file)) by {
        if i < fs0.len() {
            lemma_cached_at_index(fs0, i, fs[i].pid);
        }
    }
}

/// Mutual exclusion through the pool: in a well-formed pool, when one
/// transaction holds a page exclusively, no other transaction holds any
/// lock on that page.
pub proof fn lemma_pool_mutual_exclusion(
    pool: BufferPool,
    t1: TransactionId,
    t2: TransactionId,
    pid: HeapPageId,
)
    requires
        pool.wf(),
        t1 != t2,
        spec_holds(pool.lock_manager@, t1, pid) == Some(LockMode::Exclusive),
    ensures
        spec_holds(pool.lock_manager@, t2, pid) is None,
{
    crate::lock_manager::lemma_mutual_exclusion(pool.lock_manager@, t1, t2, pid);
}

/// Frame evolution composes: growing only by clean loads twice is growing
/// only by clean loads.
pub proof fn lemma_frames_evolve_trans(
    fs0: Seq<Frame>,
    fs1: Seq<Frame>,
    fs2: Seq<Frame>,
    file: HeapFile,
)
    requires
        frames_distinct(fs1),
        frames_evolve(fs0, fs1, file),
        frames_evolve(fs1, fs2, file),
    ensures
        frames_evolve(fs0, fs2, file),
{
    assert forall|i: int| 0 <= i < fs2.len() implies {
        ||| (is_cached(fs0, (#[trigger] fs2[i]).pid) && cached_frame(fs0, fs2[i].pid) == fs2[i])
        ||| clean_load_from(fs2[i], file)
    } by {
        let f = fs2[i];
        if is_cached(fs1, f.pid) && cached_frame(fs1, f.pid) == f {
            let x = choose|x: int| 0 <= x < fs1.len() && (#[trigger] fs1[x]).pid == f.pid;
            lemma_cached_at_index(fs1, x, f.pid);
            assert(fs1[x] == f);
        }
    }
}

/// Keeping dirty frames composes.
pub proof fn lemma_dirty_kept_trans(fs0: Seq<Frame>, fs1: Seq<Frame>, fs2: Seq<Frame>)
    requires
        dirty_frames_kept(fs0, fs1),
        dirty_frames_kept(fs1, fs2),
    ensures
        dirty_frames_kept(fs0, fs2),
{
    assert forall|i: int| 0 <= i < fs0.len() && (#[trigger] fs0[i]).dirty implies is_cached(
        fs2,
        fs0[i].pid,
    ) && cached_frame(fs2, fs0[i].pid) == fs0[i] by {
        let f = fs0[i];
        assert(is_cached(fs1, f.pid) && cached_frame(fs1, f.pid) == f);
        let x = choose|x: int| 0 <= x < fs1.len() && (#[trigger] fs1[x]).pid == f.pid;
        assert(fs1[x] == cached_frame(fs1, f.pid));
    }
}

/// In a distinct pool, the frame at a matching index is the cached frame.
pub proof fn lemma_cached_at_index(fs: Seq<Frame>, i: int, pid: HeapPageId)
    requires
        frames_distinct(fs),
        0 <= i < fs.len(),
        fs[i].pid == pid,
    ensures
        is_cached(fs, pid),
        cached_frame(fs, pid) == fs[i],
{
    assert(is_cached(fs, pid));
    let j = choose|j: int| 0 <= j < fs.len() && (#[trigger] fs[j]).pid == pid;
    assert(j == i);
}


/// With every lock record in the table owned by `tid` itself, no other
/// transaction holds anything.
pub proof fn lemma_only_tid_entries_no_holds(
    s: Seq<crate::lock_manager::LockEntry>,
    tid: TransactionId,
)
    requires
        lm_wf(s),
        forall|i: int| 0 <= i < s.len() ==> (#[trigger] s[i]).tid == tid,
    ensures
        forall|t2: TransactionId, p2: HeapPageId|
            t2 != tid ==> crate::lock_manager::spec_holds(s, t2, p2) is None,
{
    assert forall|t2: TransactionId, p2: HeapPageId| t2 != tid implies crate::lock_manager::spec_holds(
        s,
        t2,
        p2,
    ) is None by {
        if crate::lock_manager::has_entry(s, t2, p2) {
            let i = choose|i: int|
                0 <= i < s.len() && crate::lock_manager::entry_matches(#[trigger] s[i], t2, p2);
            assert(s[i].tid == tid);
            assert(false);
        }
    }
}

/// With no lock held by any other transaction, every request of `tid` is
/// granted: nothing can conflict.
pub proof fn lemma_no_other_holder_granted(
    s: Seq<crate::lock_manager::LockEntry>,
    tid: TransactionId,
    pid: HeapPageId,
)
    requires
        lm_wf(s),
        forall|t2: TransactionId, p2: HeapPageId|
            t2 != tid ==> crate::lock_manager::spec_holds(s, t2, p2) is None,
    ensures
        forall|m: LockMode| wait_die_outcome(s, tid, pid, m) is Granted,
{
    assert forall|m: LockMode| wait_die_outcome(s, tid, pid, m) is Granted by {
        if crate::lock_manager::has_conflict(s, tid, pid, m) {
            let i = choose|i: int|
                0 <= i < s.len() && crate::lock_manager::conflict_at(s, i, tid, pid, m);
            crate::lock_manager::lemma_holds_at_index(s, i, s[i].tid, s[i].pid);
            assert(crate::lock_manager::spec_holds(s, s[i].tid, s[i].pid) is None);
            assert(false);
        }
    }
}

/// A pool that only grew keeps every old frame cached unchanged; in
/// particular every dirty one.
pub proof fn lemma_prefix_kept(fs0: Seq<Frame>, fs1: Seq<Frame>)
    requires
        frames_distinct(fs1),
        fs1.len() >= fs0.len(),
        forall|i: int| 0 <= i < fs0.len() ==> fs1[i] == fs0[i],
    ensures
        dirty_frames_kept(fs0, fs1),
        forall|p2: HeapPageId| is_cached(fs0, p2) ==> is_cached(fs1, p2),
{
    assert forall|i: int| 0 <= i < fs0.len() implies is_cached(fs1, fs0[i].pid) && cached_frame(
        fs1,
        fs0[i].pid,
    ) == fs0[i] by {
        lemma_cached_at_index(fs1, i, fs0[i].pid);
    }
    assert forall|p2: HeapPageId| is_cached(fs0, p2) implies is_cached(fs1, p2) by {
        if is_cached(fs0, p2) {
            let x = choose|x: int| 0 <= x < fs0.len() && (#[trigger] fs0[x]).pid == p2;
            assert(fs1[x].pid == p2);
        }
    }
}

/// Pages other than `pid` are cached the same way in a pool extended
/// only by clean loads from `file`.
pub proof fn lemma_prefix_cached(
    fs0: Seq<Frame>,
    fs1: Seq<Frame>,
    file: HeapFile,
    pid: HeapPageId,
    p2: HeapPageId,
)
    requires
        frames_distinct(fs1),
        fs1.len() >= fs0.len(),
        forall|i: int| 0 <= i < fs0.len() ==> fs1[i] == fs0[i],
        forall|x: int| fs0.len() <= x < fs1.len() ==> (#[trigger] fs1[x]).pid.table_id == file.id,
    ensures
        is_cached(fs0, p2) ==> is_cached(fs1, p2) && cached_frame(fs1, p2) == cached_frame(
            fs0,
            p2,
        ),
{
    if is_cached(fs0, p2) {
        let x = choose|x: int| 0 <= x < fs0.len() && (#[trigger] fs0[x]).pid == p2;
        assert(frames_distinct(fs0)) by {
            assert forall|a: int, b: int|
                0 <= a < fs0.len() && 0 <= b < fs0.len() && a != b implies (#[trigger] fs0[a]).pid
                != (#[trigger] fs0[b]).pid by {
                assert(fs0[a] == fs1[a] && fs0[b] == fs1[b]);
            }
        }
        lemma_cached_at_index(fs1, x, p2);
        lemma_cached_at_index(fs0, x, p2);
    }
}

/// After a lock operation that touches only `tid`'s entry on `pid`, the
/// pool invariant tying dirty frames to exclusive locks still holds.
proof fn frames_prefix_wf(
    pool: &BufferPool,
    lm_pre: Seq<crate::lock_manager::LockEntry>,
    fs_pre: Seq<Frame>,
    tid: TransactionId,
    pid: HeapPageId,
)
    requires
        pool.lock_manager.wf(),
        frames_distinct(pool.frames@),
        forall|i: int|
            0 <= i < pool.frames@.len() ==> (#[trigger] pool.frames@[i]).page.wf()
                && pool.frames@[i].page.pid == pool.frames@[i].pid,
        pool.frames@ == fs_pre,
        lm_wf(lm_pre),
        forall|i: int|
            0 <= i < fs_pre.len() && (#[trigger] fs_pre[i]).dirty ==> spec_holds(
                lm_pre,
                TransactionId { id: fs_pre[i].owner },
                fs_pre[i].pid,
            ) == Some(LockMode::Exclusive),
        forall|t2: TransactionId, p2: HeapPageId|
            !(t2 == tid && p2 == pid) ==> spec_holds(pool.lock_manager@, t2, p2) == spec_holds(
                lm_pre,
                t2,
                p2,
            ),
        spec_holds(lm_pre, tid, pid) == Some(LockMode::Exclusive) ==> spec_holds(
            pool.lock_manager@,
            tid,
            pid,
        ) == Some(LockMode::Exclusive),
    ensures
        pool.wf(),
{
    assert forall|i: int|
        0 <= i < pool.frames@.len() && (#[trigger] pool.frames@[i]).dirty implies spec_holds(
        pool.lock_manager@,
        TransactionId { id: pool.frames@[i].owner },
        pool.frames@[i].pid,
    ) == Some(LockMode::Exclusive) by {
        let t2 = TransactionId { id: pool.frames@[i].owner };
        let p2 = pool.frames@[i].pid;
        if !(t2 == tid && p2 == pid) {
            assert(spec_holds(pool.lock_manager@, t2, p2) == spec_holds(lm_pre, t2, p2));
        }
    }
}

/// The in-memory page cache with its lock manager.
pub struct BufferPool {
    pub num_pages: usize,
    pub frames: Vec<Frame>,
    pub lock_manager: LockManager,
}

impl BufferPool {
    /// The pool invariant: the lock table is well formed, every cached
    /// page is well formed and keyed by its own identifier, no page is
    /// cached twice, and a dirty frame's owner holds the exclusive lock
    /// on that page.
    pub open spec fn wf(self) -> bool {
        &&& self.lock_manager.wf()
        &&& frames_distinct(self.frames@)
        &&& forall|i: int|
            0 <= i < self.frames@.len() ==> (#[trigger] self.frames@[i]).page.wf()
                && self.frames@[i].page.pid == self.frames@[i].pid
        &&& forall|i: int|
            0 <= i < self.frames@.len() && (#[trigger] self.frames@[i]).dirty ==> spec_holds(
                self.lock_manager@,
                TransactionId { id: self.frames@[i].owner },
                self.frames@[i].pid,
            ) == Some(LockMode::Exclusive)
    }

    /// Creates a pool with the default capacity and no locks held.
    pub fn new() -> (r: BufferPool)
        ensures
            r.wf(),
            r.num_pages == DEFAULT_PAGES,
            r.frames@.len() == 0,
            r.lock_manager@.len() == 0,
    {
        BufferPool {
            num_pages: DEFAULT_PAGES,
            frames: Vec::new(),
            lock_manager: LockManager::new(),
        }
    }

    /// Creates a pool with the given capacity and no locks held.
    pub fn with_capacity(capacity: usize) -> (r: BufferPool)
        ensures
            r.wf(),
            r.num_pages == capacity,
            r.frames@.len() == 0,
            r.lock_manager@.len() == 0,
    {
        BufferPool { num_pages: capacity, frames: Vec::new(), lock_manager: LockManager::new() }
    }

    /// The capacity configured at construction: the eviction trigger.
    pub fn get_num_pages(&self) -> (r: usize)
        ensures
            r == self.num_pages,
    {
        self.num_pages
    }

    /// The mode in which `tid` holds a lock on `pid`, if any.
    pub fn holds_lock(&self, tid: TransactionId, pid: HeapPageId) -> (r: Option<LockMode>)
        requires
            self.wf(),
        ensures
            r == spec_holds(self.lock_manager@, tid, pid),
    {
        self.lock_manager.holds_lock(tid, pid)
    }

    /// The number of frames currently cached.
    pub fn frame_count(&self) -> (r: usize)
        ensures
            r == self.frames@.len(),
    {
        self.frames.len()
    }

    /// The page identifier cached in frame `i`.
    pub fn frame_pid(&self, i: usize) -> (r: HeapPageId)
        requires
            i < self.frames@.len(),
        ensures
            r == self.frames@[i as int].pid,
    {
        self.frames[i].pid
    }

    /// Whether frame `i` holds unflushed writes, and by whom.
    pub fn frame_dirty(&self, i: usize) -> (r: Option<u64>)
        requires
            i < self.frames@.len(),
        ensures
            r is Some <==> self.frames@[i as int].dirty,
            r is Some ==> r->0 == self.frames@[i as int].owner,
    {
        if self.frames[i].dirty {
            Some(self.frames[i].owner)
        } else {
            None
        }
    }

    /// A copy of the page cached in frame `i`.
    pub fn frame_page(&self, i: usize) -> (r: HeapPage)
        requires
            self.wf(),
            i < self.frames@.len(),
        ensures
            r.wf(),
            page_views_eq(r, self.frames@[i as int].page),
    {
        self.frames[i].page.clone_page()
    }

    /// Marks frame `i` clean: its image is durable now.
    pub fn mark_clean(&mut self, i: usize)
        requires
            old(self).wf(),
            i < old(self).frames@.len(),
        ensures
            final(self).wf(),
            final(self).num_pages == old(self).num_pages,
            final(self).lock_manager == old(self).lock_manager,
            final(self).frames@ == old(self).frames@.update(
                i as int,
                Frame { dirty: false, ..old(self).frames@[i as int] },
            ),
    {
        let ghost fs0 = self.frames@;
        let mut f = self.frames.remove(i);
        f.dirty = false;
        self.frames.insert(i, f);
        proof {
            assert(self.frames@ =~= fs0.update(
                i as int,
                Frame { dirty: false, ..fs0[i as int] },
            ));
        }
    }

    /// The index of the frame caching `pid`, if any.
    fn find_frame(&self, pid: HeapPageId) -> (r: Option<usize>)
        requires
            self.wf(),
        ensures
            r is Some <==> is_cached(self.frames@, pid),
            r is Some ==> r->0 < self.frames@.len() && self.frames@[r->0 as int].pid == pid
                && cached_frame(self.frames@, pid) == self.frames@[r->0 as int],
    {
        let n = self.frames.len();
        let mut i: usize = 0;
        while i < n
            invariant
                self.wf(),
                n == self.frames@.len(),
                i <= n,
                forall|j: int| 0 <= j < i ==> (#[trigger] self.frames@[j]).pid != pid,
            decreases n - i,
        {
            if self.frames[i].pid == pid {
                proof {
                    lemma_cached_at_index(self.frames@, i as int, pid);
                }
                return Some(i);
            }
            i += 1;
        }
        None
    }

    /// Releases every lock `tid` holds. The caller must have flushed or
    /// dropped `tid`'s dirty frames first: unlocking before that would
    /// let others see non-durable writes.
    pub fn release_locks(&mut self, tid: TransactionId)
        requires
            old(self).wf(),
            forall|i: int|
                0 <= i < old(self).frames@.len() && (#[trigger] old(self).frames@[i]).dirty ==> old(self).frames@[i].owner != tid.id,
        ensures
            final(self).wf(),
            final(self).num_pages == old(self).num_pages,
            final(self).frames@ == old(self).frames@,
            forall|pid: HeapPageId| spec_holds(final(self).lock_manager@, tid, pid) is None,
            forall|t2: TransactionId, p2: HeapPageId|
                t2 != tid ==> spec_holds(final(self).lock_manager@, t2, p2) == spec_holds(
                    old(self).lock_manager@,
                    t2,
                    p2,
                ),
    {
        self.lock_manager.release_all_locks(tid);
        proof {
            assert forall|i: int|
                0 <= i < self.frames@.len() && (#[trigger] self.frames@[i]).dirty implies spec_holds(
                self.lock_manager@,
                TransactionId { id: self.frames@[i].owner },
                self.frames@[i].pid,
            ) == Some(LockMode::Exclusive) by {
                assert(TransactionId { id: self.frames@[i].owner } != tid);
            }
        }
    }


    /// Removes the clean frame at `k`; every other frame stays cached,
    /// unchanged.
    fn remove_frame(&mut self, k: usize)
        requires
            old(self).wf(),
            k < old(self).frames@.len(),
            !old(self).frames@[k as int].dirty,
        ensures
            final(self).wf(),
            final(self).num_pages == old(self).num_pages,
            final(self).lock_manager == old(self).lock_manager,
            final(self).frames@ == old(self).frames@.remove(k as int),
            forall|i: int|
                0 <= i < final(self).frames@.len() ==> is_cached(
                    old(self).frames@,
                    (#[trigger] final(self).frames@[i]).pid,
                ) && cached_frame(old(self).frames@, final(self).frames@[i].pid) == final(self).frames@[i],
            forall|i: int|
                0 <= i < old(self).frames@.len() && i != k ==> is_cached(
                    final(self).frames@,
                    (#[trigger] old(self).frames@[i]).pid,
                ) && cached_frame(final(self).frames@, old(self).frames@[i].pid) == old(self).frames@[i],
    {
        let ghost pre = self.frames@;
        self.frames.remove(k);
        proof {
            assert forall|j: int| 0 <= j < self.frames@.len() implies self.frames@[j] == (if j
                < k as int {
                pre[j]
            } else {
                pre[j + 1]
            }) by {
                assert(self.frames@ == pre.remove(k as int));
            }
            assert forall|j: int, m: int|
                0 <= j < self.frames@.len() && 0 <= m < self.frames@.len() && j != m implies (
            #[trigger] self.frames@[j]).pid != (#[trigger] self.frames@[m]).pid by {
                let j0 = if j < k as int {
                    j
                } else {
                    j + 1
                };
                let m0 = if m < k as int {
                    m
                } else {
                    m + 1
                };
                assert(self.frames@[j] == pre[j0] && self.frames@[m] == pre[m0]);
            }
            assert forall|i: int| 0 <= i < self.frames@.len() implies is_cached(
                pre,
                (#[trigger] self.frames@[i]).pid,
            ) && cached_frame(pre, self.frames@[i].pid) == self.frames@[i] by {
                let i0 = if i < k as int {
                    i
                } else {
                    i + 1
                };
                lemma_cached_at_index(pre, i0, self.frames@[i].pid);
            }
            assert forall|i: int| 0 <= i < pre.len() && i != k implies is_cached(
                self.frames@,
                (#[trigger] pre[i]).pid,
            ) && cached_frame(self.frames@, pre[i].pid) == pre[i] by {
                let j = if i < k as int {
                    i
                } else {
                    i - 1
                };
                assert(self.frames@[j] == pre[i]);
                lemma_cached_at_index(self.frames@, j, pre[i].pid);
            }
        }
    }

    /// Retrieves the page `pid` of `file` for `tid` under `perm`: takes
    /// the matching lock (deciding by WAIT-DIE), then serves the page
    /// from the cache, reading it from the file on a miss and evicting
    /// one clean frame if the pool is at capacity.
    ///
    /// `Err(Wait)` leaves everything unchanged: the caller must retry
    /// once the conflicting holders release. `Err(Abort)` means the
    /// transaction died: its locks are released and its dirty frames
    /// dropped. `Err(IoError)` reports a page the file does not have; the
    /// granted lock is kept, as the original request acquired it before
    /// reading.
    pub fn get_page(
        &mut self,
        file: &HeapFile,
        tid: TransactionId,
        pid: HeapPageId,
        perm: Permission,
    ) -> (r: Result<HeapPage, DbError>)
        requires
            old(self).wf(),
            file.wf(),
            pid.table_id == file.id,
        ensures
            final(self).wf(),
            final(self).num_pages == old(self).num_pages,
            frames_evolve(old(self).frames@, final(self).frames@, *file),
            r is Ok <==> wait_die_outcome(
                old(self).lock_manager@,
                tid,
                pid,
                spec_lock_mode_for(perm),
            ) is Granted && (is_cached(old(self).frames@, pid) || pid.page_number
                < file.disk_view().len()),
            r == Err::<HeapPage, DbError>(DbError::Wait) <==> wait_die_outcome(
                old(self).lock_manager@,
                tid,
                pid,
                spec_lock_mode_for(perm),
            ) is Wait,
            r == Err::<HeapPage, DbError>(DbError::Abort) <==> wait_die_outcome(
                old(self).lock_manager@,
                tid,
                pid,
                spec_lock_mode_for(perm),
            ) is Die,
            r == Err::<HeapPage, DbError>(DbError::Wait) ==> final(self).frames@ == old(self).frames@ && final(self).lock_manager@ == old(self).lock_manager@,
            r is Err ==> (r->Err_0 == DbError::Wait || r->Err_0 == DbError::Abort || r->Err_0
                == DbError::IoError),
            !(r == Err::<HeapPage, DbError>(DbError::Abort)) ==> dirty_frames_kept(
                old(self).frames@,
                final(self).frames@,
            ),
            (r is Ok || r == Err::<HeapPage, DbError>(DbError::IoError)) ==> {
                &&& spec_holds(final(self).lock_manager@, tid, pid) == Some(
                    granted_mode(old(self).lock_manager@, tid, pid, spec_lock_mode_for(perm)),
                )
                &&& forall|t2: TransactionId, p2: HeapPageId|
                    !(t2 == tid && p2 == pid) ==> spec_holds(final(self).lock_manager@, t2, p2)
                        == spec_holds(old(self).lock_manager@, t2, p2)
            },
            r == Err::<HeapPage, DbError>(DbError::Abort) ==> {
                &&& (forall|p2: HeapPageId| spec_holds(final(self).lock_manager@, tid, p2) is None)
                &&& (forall|t2: TransactionId, p2: HeapPageId|
                    t2 != tid ==> spec_holds(final(self).lock_manager@, t2, p2) == spec_holds(
                        old(self).lock_manager@,
                        t2,
                        p2,
                    ))
                &&& (forall|i: int|
                    0 <= i < final(self).frames@.len() ==> {
                        let f = #[trigger] final(self).frames@[i];
                        is_cached(old(self).frames@, f.pid) && cached_frame(old(self).frames@, f.pid)
                            == f && !(f.dirty && f.owner == tid.id)
                    })
                &&& (forall|i: int|
                    0 <= i < old(self).frames@.len() && !((#[trigger] old(self).frames@[i]).dirty
                        && old(self).frames@[i].owner == tid.id) ==> is_cached(
                        final(self).frames@,
                        old(self).frames@[i].pid,
                    ) && cached_frame(final(self).frames@, old(self).frames@[i].pid) == old(self).frames@[i])
            },
            r is Ok ==> {
                let page = r->Ok_0;
                &&& page.wf()
                &&& page.pid == pid
                &&& is_cached(final(self).frames@, pid)
                &&& page_views_eq(page, cached_frame(final(self).frames@, pid).page)
                &&& (is_cached(old(self).frames@, pid) ==> cached_frame(final(self).frames@, pid)
                    == cached_frame(old(self).frames@, pid))
                &&& (!is_cached(old(self).frames@, pid) ==> clean_load_from(
                    cached_frame(final(self).frames@, pid),
                    *file,
                ))
            },
    {
        let mode = lock_mode_for(perm);
        let ghost lm0 = self.lock_manager@;
        let ghost fs0 = self.frames@;
        match self.lock_manager.acquire_lock(tid, pid, mode) {
            LockOutcome::Wait => {
                return Err(DbError::Wait);
            },
            LockOutcome::Die => {
                self.discard_transaction(tid);
                return Err(DbError::Abort);
            },
            LockOutcome::Granted => {},
        }
        proof {
            assert forall|i: int|
                0 <= i < self.frames@.len() && (#[trigger] self.frames@[i]).dirty implies spec_holds(
                self.lock_manager@,
                TransactionId { id: self.frames@[i].owner },
                self.frames@[i].pid,
            ) == Some(LockMode::Exclusive) by {
                let t2 = TransactionId { id: self.frames@[i].owner };
                let p2 = self.frames@[i].pid;
                if t2 == tid && p2 == pid {
                    assert(spec_holds(lm0, t2, p2) == Some(LockMode::Exclusive));
                    assert(granted_mode(lm0, tid, pid, mode) == LockMode::Exclusive);
                } else {
                    assert(spec_holds(self.lock_manager@, t2, p2) == spec_holds(lm0, t2, p2));
                }
            }
            assert(self.wf());
        }
        match self.find_frame(pid) {
            Some(k) => {
                let page = self.frames[k].page.clone_page();
                proof {
                    lemma_cached_at_index(self.frames@, k as int, pid);
                }
                Ok(page)
            },
            None => {
                if pid.page_number as usize >= file.num_pages() {
                    return Err(DbError::IoError);
                }
                if self.frames.len() >= self.num_pages {
                    let ghost pre = self.frames@;
                    let n = self.frames.len();
                    let mut j: usize = 0;
                    let mut victim: Option<usize> = None;
                    while j < n
                        invariant
                            self.wf(),
                            self.frames@ == pre,
                            n == pre.len(),
                            j <= n,
                            match victim {
                                Some(v) => v < n && !pre[v as int].dirty,
                                None => true,
                            },
                        decreases n - j,
                    {
                        if !self.frames[j].dirty {
                            victim = Some(j);
                            break ;
                        }
                        j += 1;
                    }
                    if let Some(v) = victim {
                        self.remove_frame(v);
                    }
                }
                let ghost fs1 = self.frames@;
                match file.read_page(pid) {
                    Ok(p) => {
                        let page = p.clone_page();
                        self.frames.push(Frame { pid, page: p, dirty: false, owner: 0 });
                        proof {
                            let fs2 = self.frames@;
                            let last = fs1.len() as int;
                            assert(fs2 == fs1.push(fs2[last]));
                            assert forall|a: int, b: int|
                                0 <= a < fs2.len() && 0 <= b < fs2.len() && a != b implies (
                            #[trigger] fs2[a]).pid != (#[trigger] fs2[b]).pid by {
                                if a == last || b == last {
                                    let o = if a == last {
                                        b
                                    } else {
                                        a
                                    };
                                    assert(fs2[o] == fs1[o]);
                                    if fs1[o].pid == pid {
                                        lemma_cached_at_index(fs1, o, pid);
                                        assert(false);
                                    }
                                }
                            }
                            lemma_cached_at_index(fs2, last, pid);
                            assert(clean_load_from(fs2[last], *file));
                            assert forall|i: int| 0 <= i < fs2.len() implies {
                                ||| (is_cached(fs0, (#[trigger] fs2[i]).pid) && cached_frame(
                                    fs0,
                                    fs2[i].pid,
                                ) == fs2[i])
                                ||| clean_load_from(fs2[i], *file)
                            } by {
                                if i < last {
                                    assert(fs2[i] == fs1[i]);
                                }
                            }
                            assert forall|i: int|
                                0 <= i < fs0.len() && (#[trigger] fs0[i]).dirty implies is_cached(
                                fs2,
                                fs0[i].pid,
                            ) && cached_frame(fs2, fs0[i].pid) == fs0[i] by {
                                assert(is_cached(fs1, fs0[i].pid) && cached_frame(fs1, fs0[i].pid)
                                    == fs0[i]);
                                let x = choose|x: int|
                                    0 <= x < fs1.len() && (#[trigger] fs1[x]).pid == fs0[i].pid;
                                assert(fs2[x] == fs1[x]);
                                lemma_cached_at_index(fs2, x, fs0[i].pid);
                            }
                        }
                        Ok(page)
                    },
                    Err(_) => {
                        proof {
                            assert(false);
                        }
                        Err(DbError::IoError)
                    },
                }
            },
        }
    }


    /// Makes sure `pid` is cached, loading it from `file` on a miss
    /// (without evicting), and returns its frame index. Takes no lock and
    /// releases none. Fails, with `IoError`, exactly when the page is
    /// neither cached nor on disk.
    fn ensure_cached(&mut self, file: &HeapFile, pid: HeapPageId) -> (r: Result<usize, DbError>)
        requires
            old(self).wf(),
            file.wf(),
            pid.table_id == file.id,
        ensures
            final(self).wf(),
            final(self).num_pages == old(self).num_pages,
            final(self).lock_manager == old(self).lock_manager,
            r is Err <==> !is_cached(old(self).frames@, pid) && pid.page_number
                >= file.disk_view().len(),
            r is Err ==> final(self).frames@ == old(self).frames@ && r->Err_0 == DbError::IoError,
            r is Ok ==> {
                let k = r->Ok_0 as int;
                &&& 0 <= k < final(self).frames@.len()
                &&& final(self).frames@[k].pid == pid
                &&& cached_frame(final(self).frames@, pid) == final(self).frames@[k]
                &&& (is_cached(old(self).frames@, pid) ==> final(self).frames@ == old(self).frames@
                    && final(self).frames@[k] == cached_frame(old(self).frames@, pid))
                &&& (!is_cached(old(self).frames@, pid) ==> final(self).frames@ == old(self).frames@.push(final(self).frames@[k]) && clean_load_from(
                    final(self).frames@[k],
                    *file,
                ))
            },
    {
        let ghost fs0 = self.frames@;
        match self.find_frame(pid) {
            Some(k) => {
                proof {
                    lemma_cached_at_index(self.frames@, k as int, pid);
                }
                Ok(k)
            },
            None => {
                if pid.page_number as usize >= file.num_pages() {
                    return Err(DbError::IoError);
                }
                match file.read_page(pid) {
                    Ok(p) => {
                        let k = self.frames.len();
                        self.frames.push(Frame { pid, page: p, dirty: false, owner: 0 });
                        proof {
                            let fs1 = self.frames@;
                            assert forall|a: int, b: int|
                                0 <= a < fs1.len() && 0 <= b < fs1.len() && a != b implies (
                            #[trigger] fs1[a]).pid != (#[trigger] fs1[b]).pid by {
                                if a == k as int || b == k as int {
                                    let o = if a == k as int {
                                        b
                                    } else {
                                        a
                                    };
                                    assert(fs1[o] == fs0[o]);
                                }
                            }
                            lemma_cached_at_index(fs1, k as int, pid);
                        }
                        Ok(k)
                    },
                    Err(_) => {
                        proof {
                            assert(false);
                        }
                        Err(DbError::IoError)
                    },
                }
            },
        }
    }

    /// Adds the tuple to the table backed by `file`: scans the pages in
    /// page-number order for the first with a free slot, taking an
    /// exclusive lock on every page it examines, and writes the tuple
    /// into the lowest-numbered free slot of that page, in the cache
    /// only (no-steal: the disk image changes at commit). When every page
    /// is full it appends a fresh page to the file and uses that.
    ///
    /// `Err(Wait)` and `Err(Abort)` surface the WAIT-DIE decision on some
    /// scanned page, as in `get_page`; `Err(IoError)` means the file ran
    /// out of page numbers. When no other transaction holds any lock, the
    /// file is not at that limit, and no stale frame is cached past the
    /// file's end, the insert is owed.
    #[verifier::rlimit(100)]
    pub fn insert_tuple(&mut self, file: &mut HeapFile, tid: TransactionId, t: &Tuple) -> (r:
        Result<RecordId, DbError>)
        requires
            old(self).wf(),
            old(file).wf(),
            t.wf(),
            t.td.matches(old(file).td),
            forall|i: int|
                0 <= i < old(self).frames@.len() && (#[trigger] old(self).frames@[i]).pid.table_id
                    == old(file).id ==> old(self).frames@[i].page.td.matches(old(file).td),
        ensures
            final(self).wf(),
            final(file).wf(),
            final(self).num_pages == old(self).num_pages,
            final(file).id == old(file).id,
            final(file).td == old(file).td,
            // the file grows by at most one fresh page; existing images stay
            old(file).disk_view().len() <= final(file).disk_view().len() <= old(file).disk_view().len() + 1,
            forall|k: int|
                0 <= k < old(file).disk_view().len() ==> final(file).disk_view()[k] == old(file).disk_view()[k],
            final(file).disk_view().len() > old(file).disk_view().len() ==> final(file).disk_view().last() == crate::heap_file::zero_page_image(),
            // other transactions' locks are untouched
            forall|t2: TransactionId, p2: HeapPageId|
                t2 != tid ==> spec_holds(final(self).lock_manager@, t2, p2) == spec_holds(
                    old(self).lock_manager@,
                    t2,
                    p2,
                ),
            r is Ok ==> {
                let rid = r->Ok_0;
                let pid = rid.page_id;
                let pn = pid.page_number as int;
                let s = rid.slot_number as int;
                let f = cached_frame(final(self).frames@, pid);
                let vu = visible_used(*old(self), *final(file), pn);
                &&& pid.table_id == old(file).id
                &&& pn < final(file).disk_view().len()
                &&& spec_holds(final(self).lock_manager@, tid, pid) == Some(LockMode::Exclusive)
                &&& is_cached(final(self).frames@, pid)
                &&& f.dirty && f.owner == tid.id
                &&& 0 <= s < f.page.used@.len() && f.page.used@[s as int]
                &&& f.page.slots_view()[s] == t.spec_bytes()
                &&& f.page.td.matches(old(file).td)
                &&& forall|pn2: int| 0 <= pn2 < pn ==> page_full(*old(self), *old(file), pn2)
                &&& s < vu.len() && !vu[s]
                &&& forall|j: int| 0 <= j < s ==> vu[j]
                &&& f.page.used@ == vu.update(s, true)
                &&& forall|p2: HeapPageId|
                    p2 != pid && is_cached(old(self).frames@, p2) ==> (is_cached(
                        final(self).frames@,
                        p2,
                    ) && cached_frame(final(self).frames@, p2) == cached_frame(
                        old(self).frames@,
                        p2,
                    ))
                &&& forall|i: int|
                    0 <= i < final(self).frames@.len() && (#[trigger] final(self).frames@[i]).pid
                        != pid ==> ((is_cached(old(self).frames@, final(self).frames@[i].pid)
                        && cached_frame(old(self).frames@, final(self).frames@[i].pid) == final(self).frames@[i]) || clean_load_from(final(self).frames@[i], *final(file)))
            },
            (r == Err::<RecordId, DbError>(DbError::Wait) || r == Err::<RecordId, DbError>(
                DbError::IoError,
            )) ==> dirty_frames_kept(old(self).frames@, final(self).frames@) && (forall|
                p2: HeapPageId,
            | is_cached(old(self).frames@, p2) ==> is_cached(final(self).frames@, p2)),
            r == Err::<RecordId, DbError>(DbError::Abort) ==> {
                &&& (forall|p2: HeapPageId| spec_holds(final(self).lock_manager@, tid, p2) is None)
                &&& (forall|i: int|
                    0 <= i < final(self).frames@.len() ==> !((#[trigger] final(self).frames@[i]).dirty && final(self).frames@[i].owner == tid.id))
            },
            r is Err ==> (forall|i: int|
                0 <= i < final(self).frames@.len() ==> ((is_cached(
                    old(self).frames@,
                    (#[trigger] final(self).frames@[i]).pid,
                ) && cached_frame(old(self).frames@, final(self).frames@[i].pid) == final(self).frames@[i]) || clean_load_from(final(self).frames@[i], *final(file)))),
            r is Err ==> (r->Err_0 == DbError::Wait || r->Err_0 == DbError::Abort || r->Err_0
                == DbError::IoError),
            (forall|i: int|
                0 <= i < old(self).lock_manager@.len() ==> (#[trigger] old(self).lock_manager@[i]).tid == tid) && old(file).disk_view().len() < u32::MAX - 1
                && !is_cached(
                old(self).frames@,
                HeapPageId {
                    table_id: old(file).id,
                    page_number: old(file).disk_view().len() as u32,
                },
            ) ==> r is Ok,
    {
        let ghost self0 = *self;
        let ghost file0 = *file;
        proof {
            if forall|i: int|
                0 <= i < self0.lock_manager@.len() ==> (#[trigger] self0.lock_manager@[i]).tid
                    == tid {
                lemma_only_tid_entries_no_holds(self0.lock_manager@, tid);
            }
        }
        let n = file.num_pages();
        let mut pn: usize = 0;
        while pn < n
            invariant
                self.wf(),
                file.wf(),
                *file == file0,
                *old(file) == file0,
                file0.wf(),
                self0 == *old(self),
                self0.wf(),
                t.wf(),
                t.td.matches(file0.td),
                forall|i: int|
                    0 <= i < self0.frames@.len() && (#[trigger] self0.frames@[i]).pid.table_id
                        == file0.id ==> self0.frames@[i].page.td.matches(file0.td),
                self.num_pages == self0.num_pages,
                n == file0.disk_view().len(),
                n < u32::MAX,
                pn <= n,
                self.frames@.len() >= self0.frames@.len(),
                forall|i: int|
                    0 <= i < self0.frames@.len() ==> self.frames@[i] == #[trigger] self0.frames@[i],
                forall|x: int|
                    self0.frames@.len() <= x < self.frames@.len() ==> clean_load_from(
                        #[trigger] self.frames@[x],
                        file0,
                    ),
                forall|t2: TransactionId, p2: HeapPageId|
                    t2 != tid ==> spec_holds(self.lock_manager@, t2, p2) == spec_holds(
                        self0.lock_manager@,
                        t2,
                        p2,
                    ),
                forall|pn2: int| 0 <= pn2 < pn ==> page_full(self0, file0, pn2),
                (forall|i: int|
                    0 <= i < self0.lock_manager@.len() ==> (#[trigger] self0.lock_manager@[i]).tid
                        == tid) ==> (forall|t2: TransactionId, p2: HeapPageId|
                    t2 != tid ==> spec_holds(self.lock_manager@, t2, p2) is None),
            decreases n - pn,
        {
            let pid = HeapPageId { table_id: file.get_id(), page_number: pn as u32 };
            let ghost lm_pre = self.lock_manager@;
            let ghost fs_pre = self.frames@;
            match self.lock_manager.acquire_lock(tid, pid, LockMode::Exclusive) {
                LockOutcome::Wait => {
                    proof {
                        if forall|i: int|
                            0 <= i < self0.lock_manager@.len() ==> (
                            #[trigger] self0.lock_manager@[i]).tid == tid {
                            lemma_no_other_holder_granted(lm_pre, tid, pid);
                        }
                        frames_prefix_wf(self, lm_pre, fs_pre, tid, pid);
                        lemma_prefix_kept(self0.frames@, self.frames@);
                        lemma_frames_accounted(self0.frames@, self.frames@, file0);
                    }
                    return Err(DbError::Wait);
                },
                LockOutcome::Die => {
                    proof {
                        if forall|i: int|
                            0 <= i < self0.lock_manager@.len() ==> (
                            #[trigger] self0.lock_manager@[i]).tid == tid {
                            lemma_no_other_holder_granted(lm_pre, tid, pid);
                        }
                        frames_prefix_wf(self, lm_pre, fs_pre, tid, pid);
                    }
                    self.discard_transaction(tid);
                    proof {
                        assert forall|i: int| 0 <= i < self.frames@.len() implies ((is_cached(
                            self0.frames@,
                            (#[trigger] self.frames@[i]).pid,
                        ) && cached_frame(self0.frames@, self.frames@[i].pid) == self.frames@[i])
                            || clean_load_from(self.frames@[i], *file)) by {
                            let f = self.frames@[i];
                            let x = choose|x: int|
                                0 <= x < fs_pre.len() && (#[trigger] fs_pre[x]).pid == f.pid;
                            lemma_cached_at_index(fs_pre, x, f.pid);
                            if x < self0.frames@.len() {
                                assert(fs_pre[x] == self0.frames@[x]);
                                lemma_cached_at_index(self0.frames@, x, f.pid);
                            } else {
                                assert(clean_load_from(fs_pre[x], file0));
                            }
                        }
                    }
                    return Err(DbError::Abort);
                },
                LockOutcome::Granted => {},
            }
            proof {
                frames_prefix_wf(self, lm_pre, fs_pre, tid, pid);
            }
            let k = match self.ensure_cached(file, pid) {
                Ok(k) => k,
                Err(e) => {
                    proof {
                        assert(false);
                    }
                    return Err(e);
                },
            };
            let ghost fs_mid = self.frames@;
            proof {
                if (k as int) < self0.frames@.len() {
                    assert(fs_mid[k as int] == self0.frames@[k as int]);
                }
                assert(fs_mid[k as int].page.td.matches(file0.td));
            }
            let mut page = self.frames[k].page.clone_page();
            if page.get_num_empty_slots() > 0 {
                proof {
                    crate::heap_page::lemma_count_free_zero(page.used@);
                }
                let slot = match page.add_tuple(t) {
                    Some(slot) => slot,
                    None => {
                        proof {
                            assert(false);
                        }
                        return Err(DbError::IoError);
                    },
                };
                self.frames.set(k, Frame { pid, page, dirty: true, owner: tid.id });
                proof {
                    insert_finish_proof(self, self0, file0, fs_mid, tid, pid, k as int);
                }
                return Ok(RecordId { page_id: pid, slot_number: slot as u32 });
            }
            proof {
                crate::heap_page::lemma_count_free_zero(page.used@);
                assert(visible_used(self0, file0, pn as int) == fs_mid[k as int].page.used@) by {
                    lemma_visible_is_frame(self0, fs_mid, file0, pid, k as int);
                }
                assert(page_full(self0, file0, pn as int));
            }
            pn += 1;
        }
        // every existing page is full: extend the file
        let new_pn = match file.allocate_page() {
            Ok(p) => p,
            Err(e) => {
                proof {
                    lemma_prefix_kept(self0.frames@, self.frames@);
                    lemma_frames_accounted(self0.frames@, self.frames@, *file);
                }
                return Err(e);
            },
        };
        let pid = HeapPageId { table_id: file.get_id(), page_number: new_pn };
        let ghost lm_pre = self.lock_manager@;
        let ghost fs_pre = self.frames@;
        proof {
            assert forall|x: int|
                self0.frames@.len() <= x < self.frames@.len() implies clean_load_from(
                #[trigger] self.frames@[x],
                *file,
            ) by {
                assert(clean_load_from(self.frames@[x], file0));
                assert(file.disk_view()[self.frames@[x].pid.page_number as int]
                    == file0.disk_view()[self.frames@[x].pid.page_number as int]);
            }
        }
        match self.lock_manager.acquire_lock(tid, pid, LockMode::Exclusive) {
            LockOutcome::Wait => {
                proof {
                    if forall|i: int|
                        0 <= i < self0.lock_manager@.len() ==> (
                        #[trigger] self0.lock_manager@[i]).tid == tid {
                        lemma_no_other_holder_granted(lm_pre, tid, pid);
                    }
                    frames_prefix_wf(self, lm_pre, fs_pre, tid, pid);
                    lemma_prefix_kept(self0.frames@, self.frames@);
                    lemma_frames_accounted(self0.frames@, self.frames@, *file);
                }
                return Err(DbError::Wait);
            },
            LockOutcome::Die => {
                proof {
                    if forall|i: int|
                        0 <= i < self0.lock_manager@.len() ==> (
                        #[trigger] self0.lock_manager@[i]).tid == tid {
                        lemma_no_other_holder_granted(lm_pre, tid, pid);
                    }
                    frames_prefix_wf(self, lm_pre, fs_pre, tid, pid);
                }
                self.discard_transaction(tid);
                proof {
                    assert forall|i: int| 0 <= i < self.frames@.len() implies ((is_cached(
                        self0.frames@,
                        (#[trigger] self.frames@[i]).pid,
                    ) && cached_frame(self0.frames@, self.frames@[i].pid) == self.frames@[i])
                        || clean_load_from(self.frames@[i], *file)) by {
                        let f = self.frames@[i];
                        let x = choose|x: int|
                            0 <= x < fs_pre.len() && (#[trigger] fs_pre[x]).pid == f.pid;
                        lemma_cached_at_index(fs_pre, x, f.pid);
                        if x < self0.frames@.len() {
                            assert(fs_pre[x] == self0.frames@[x]);
                            lemma_cached_at_index(self0.frames@, x, f.pid);
                        }
                    }
                }
                return Err(DbError::Abort);
            },
            LockOutcome::Granted => {},
        }
        proof {
            frames_prefix_wf(self, lm_pre, fs_pre, tid, pid);
        }
        let k = match self.ensure_cached(file, pid) {
            Ok(k) => k,
            Err(e) => {
                proof {
                    assert(false);
                }
                return Err(e);
            },
        };
        let ghost fs_mid = self.frames@;
        proof {
            if (k as int) < self0.frames@.len() {
                assert(fs_mid[k as int] == self0.frames@[k as int]);
            }
            assert(fs_mid[k as int].page.td.matches(file.td));
        }
        let mut page = self.frames[k].page.clone_page();
        if page.get_num_empty_slots() == 0 {
            // only a stale frame cached past the file's end can be full
            // here: the image just appended is empty, so a fresh load has
            // free slots
            proof {
                lemma_prefix_kept(self0.frames@, self.frames@);
                lemma_frames_accounted(self0.frames@, self.frames@, *file);
                crate::heap_page::lemma_count_free_zero(page.used@);
                if !is_cached(self0.frames@, pid) {
                    if is_cached(fs_pre, pid) {
                        let x = choose|x: int|
                            0 <= x < fs_pre.len() && (#[trigger] fs_pre[x]).pid == pid;
                        if x < self0.frames@.len() {
                            assert(fs_pre[x] == self0.frames@[x]);
                            lemma_cached_at_index(self0.frames@, x, pid);
                        } else {
                            assert(clean_load_from(fs_pre[x], file0));
                        }
                        assert(false);
                    }
                    let f = fs_mid[fs_mid.len() - 1];
                    assert(fs_mid == fs_pre.push(f) && clean_load_from(f, *file));
                    assert(k as int == fs_mid.len() - 1) by {
                        if (k as int) < fs_pre.len() {
                            assert(fs_mid[k as int] == fs_pre[k as int]);
                            lemma_cached_at_index(fs_pre, k as int, pid);
                            assert(false);
                        }
                    }
                    assert(file.disk_view()[new_pn as int] == crate::heap_file::zero_page_image());
                    crate::heap_file::lemma_zero_image_page_empty(f.page);
                    crate::heap_page::lemma_count_free_all_clear(f.page.used@);
                    crate::tuple::lemma_types_size_lower(f.page.td.types@);
                    crate::heap_page::lemma_page_geometry(f.page.td.spec_tuple_size());
                    assert(false);
                }
            }
            return Err(DbError::IoError);
        }
        proof {
            crate::heap_page::lemma_count_free_zero(page.used@);
        }
        let slot = match page.add_tuple(t) {
            Some(slot) => slot,
            None => {
                proof {
                    assert(false);
                }
                return Err(DbError::IoError);
            },
        };
        self.frames.set(k, Frame { pid, page, dirty: true, owner: tid.id });
        proof {
            insert_finish_proof(self, self0, *file, fs_mid, tid, pid, k as int);
        }
        Ok(RecordId { page_id: pid, slot_number: slot as u32 })
    }

    /// Deletes the tuple at its record identifier: takes an exclusive
    /// lock on the page and clears the slot in the cache (no-steal, as
    /// for insert). A tuple without a record identifier, one of another
    /// table, or a slot already empty is `NotFound`; `Wait` and `Abort`
    /// surface the WAIT-DIE decision.
    pub fn delete_tuple(&mut self, file: &HeapFile, tid: TransactionId, t: &Tuple) -> (r: Result<
        (),
        DbError,
    >)
        requires
            old(self).wf(),
            file.wf(),
            forall|i: int|
                0 <= i < old(self).frames@.len() && (#[trigger] old(self).frames@[i]).pid.table_id
                    == file.id ==> old(self).frames@[i].page.td.matches(file.td),
        ensures
            final(self).wf(),
            final(self).num_pages == old(self).num_pages,
            forall|t2: TransactionId, p2: HeapPageId|
                t2 != tid ==> spec_holds(final(self).lock_manager@, t2, p2) == spec_holds(
                    old(self).lock_manager@,
                    t2,
                    p2,
                ),
            r is Ok ==> t.rid is Some,
            r is Ok ==> {
                let rid = t.rid->0;
                let pid = rid.page_id;
                let s = rid.slot_number as int;
                let f = cached_frame(final(self).frames@, pid);
                &&& pid.table_id == file.id
                &&& spec_holds(final(self).lock_manager@, tid, pid) == Some(LockMode::Exclusive)
                &&& is_cached(final(self).frames@, pid)
                &&& f.dirty && f.owner == tid.id
                &&& 0 <= s < f.page.used@.len() && !f.page.used@[s]
                &&& f.page.td.matches(file.td)
                &&& (is_cached(old(self).frames@, pid) || pid.page_number
                    < file.disk_view().len())
                &&& f.page.slots_view() == visible_slots_of(*old(self), *file, pid)
                &&& f.page.used@ == visible_used(*old(self), *file, pid.page_number as int).update(
                    s,
                    false,
                )
                &&& visible_used(*old(self), *file, pid.page_number as int)[s]
                &&& forall|p2: HeapPageId|
                    p2 != pid && is_cached(old(self).frames@, p2) ==> (is_cached(
                        final(self).frames@,
                        p2,
                    ) && cached_frame(final(self).frames@, p2) == cached_frame(
                        old(self).frames@,
                        p2,
                    ))
                &&& forall|i: int|
                    0 <= i < final(self).frames@.len() && (#[trigger] final(self).frames@[i]).pid
                        != pid ==> ((is_cached(old(self).frames@, final(self).frames@[i].pid)
                        && cached_frame(old(self).frames@, final(self).frames@[i].pid) == final(self).frames@[i]) || clean_load_from(final(self).frames@[i], *file))
            },
            !(r is Ok) && !(r == Err::<(), DbError>(DbError::Abort)) ==> dirty_frames_kept(
                old(self).frames@,
                final(self).frames@,
            ) && (forall|p2: HeapPageId|
                is_cached(old(self).frames@, p2) ==> is_cached(final(self).frames@, p2)),
            r is Err ==> (r->Err_0 == DbError::Wait || r->Err_0 == DbError::Abort || r->Err_0
                == DbError::IoError || r->Err_0 == DbError::NotFound),
            (t.rid is Some && (t.rid->0).page_id.table_id == file.id && (forall|i: int|
                0 <= i < old(self).lock_manager@.len() ==> (#[trigger] old(self).lock_manager@[i]).tid == tid) && (is_cached(old(self).frames@, (t.rid->0).page_id) || (
                t.rid->0).page_id.page_number < file.disk_view().len()) && (
            t.rid->0).slot_number < visible_used(
                *old(self),
                *file,
                (t.rid->0).page_id.page_number as int,
            ).len() && visible_used(*old(self), *file, (t.rid->0).page_id.page_number as int)[(
                t.rid->0).slot_number as int] ==> r is Ok),
            r == Err::<(), DbError>(DbError::Abort) ==> {
                &&& (forall|p2: HeapPageId| spec_holds(final(self).lock_manager@, tid, p2) is None)
                &&& (forall|i: int|
                    0 <= i < final(self).frames@.len() ==> !((#[trigger] final(self).frames@[i]).dirty && final(self).frames@[i].owner == tid.id))
            },
            r is Err ==> (forall|i: int|
                0 <= i < final(self).frames@.len() ==> ((is_cached(
                    old(self).frames@,
                    (#[trigger] final(self).frames@[i]).pid,
                ) && cached_frame(old(self).frames@, final(self).frames@[i].pid) == final(self).frames@[i]) || clean_load_from(final(self).frames@[i], *file))),
    {
        let ghost self0 = *self;
        let rid = match t.get_record_id() {
            Some(rid) => rid,
            None => {
                proof {
                    lemma_prefix_kept(self0.frames@, self.frames@);
                    lemma_frames_accounted(self0.frames@, self.frames@, *file);
                }
                return Err(DbError::NotFound);
            },
        };
        let pid = rid.get_page_id();
        if pid.get_table_id() != file.get_id() {
            proof {
                lemma_prefix_kept(self0.frames@, self.frames@);
                lemma_frames_accounted(self0.frames@, self.frames@, *file);
            }
            return Err(DbError::NotFound);
        }
        let ghost lm_pre = self.lock_manager@;
        let ghost fs_pre = self.frames@;
        match self.lock_manager.acquire_lock(tid, pid, LockMode::Exclusive) {
            LockOutcome::Wait => {
                proof {
                    if forall|i: int|
                        0 <= i < self0.lock_manager@.len() ==> (
                        #[trigger] self0.lock_manager@[i]).tid == tid {
                        lemma_only_tid_entries_no_holds(lm_pre, tid);
                        lemma_no_other_holder_granted(lm_pre, tid, pid);
                    }
                    frames_prefix_wf(self, lm_pre, fs_pre, tid, pid);
                    lemma_prefix_kept(self0.frames@, self.frames@);
                    lemma_frames_accounted(self0.frames@, self.frames@, *file);
                }
                return Err(DbError::Wait);
            },
            LockOutcome::Die => {
                proof {
                    if forall|i: int|
                        0 <= i < self0.lock_manager@.len() ==> (
                        #[trigger] self0.lock_manager@[i]).tid == tid {
                        lemma_only_tid_entries_no_holds(lm_pre, tid);
                        lemma_no_other_holder_granted(lm_pre, tid, pid);
                    }
                    frames_prefix_wf(self, lm_pre, fs_pre, tid, pid);
                }
                self.discard_transaction(tid);
                return Err(DbError::Abort);
            },
            LockOutcome::Granted => {},
        }
        proof {
            frames_prefix_wf(self, lm_pre, fs_pre, tid, pid);
        }
        let k = match self.ensure_cached(file, pid) {
            Ok(k) => k,
            Err(e) => {
                proof {
                    assert(!is_cached(self0.frames@, pid));
                    lemma_prefix_kept(self0.frames@, self.frames@);
                    lemma_frames_accounted(self0.frames@, self.frames@, *file);
                }
                return Err(e);
            },
        };
        let ghost fs_mid = self.frames@;
        proof {
            if (k as int) < self0.frames@.len() {
                assert(fs_mid[k as int] == self0.frames@[k as int]);
            }
        }
        let mut page = self.frames[k].page.clone_page();
        match page.delete_tuple(rid.get_slot_number() as usize) {
            Ok(()) => {},
            Err(e) => {
                proof {
                    lemma_visible_is_frame(self0, fs_mid, *file, pid, k as int);
                    lemma_prefix_kept(self0.frames@, self.frames@);
                    lemma_frames_accounted(self0.frames@, self.frames@, *file);
                }
                return Err(e);
            },
        }
        self.frames.set(k, Frame { pid, page, dirty: true, owner: tid.id });
        proof {
            let fs1 = self.frames@;
            assert forall|a: int, b: int|
                0 <= a < fs1.len() && 0 <= b < fs1.len() && a != b implies (#[trigger] fs1[a]).pid
                != (#[trigger] fs1[b]).pid by {
                assert(fs1[a] == (if a == k as int {
                    fs1[a]
                } else {
                    fs_mid[a]
                }));
                assert(fs1[b] == (if b == k as int {
                    fs1[b]
                } else {
                    fs_mid[b]
                }));
                assert(fs_mid[a].pid == fs1[a].pid && fs_mid[b].pid == fs1[b].pid);
            }
            assert forall|i: int|
                0 <= i < fs1.len() && (#[trigger] fs1[i]).dirty implies spec_holds(
                self.lock_manager@,
                TransactionId { id: fs1[i].owner },
                fs1[i].pid,
            ) == Some(LockMode::Exclusive) by {
                if i != k as int {
                    assert(fs1[i] == fs_mid[i]);
                }
            }
            lemma_cached_at_index(fs1, k as int, pid);
            lemma_visible_is_frame(self0, fs_mid, *file, pid, k as int);
            assert forall|p2: HeapPageId| p2 != pid && is_cached(self0.frames@, p2) implies (
            is_cached(fs1, p2) && cached_frame(fs1, p2) == cached_frame(self0.frames@, p2)) by {
                let x = choose|x: int|
                    0 <= x < self0.frames@.len() && (#[trigger] self0.frames@[x]).pid == p2;
                assert(fs_mid[x] == self0.frames@[x]);
                assert(x != k as int);
                assert(fs1[x] == fs_mid[x]);
                lemma_cached_at_index(fs1, x, p2);
                lemma_cached_at_index(self0.frames@, x, p2);
            }
            assert forall|i: int|
                0 <= i < fs1.len() && (#[trigger] fs1[i]).pid != pid implies ((is_cached(
                self0.frames@,
                fs1[i].pid,
            ) && cached_frame(self0.frames@, fs1[i].pid) == fs1[i]) || clean_load_from(
                fs1[i],
                *file,
            )) by {
                assert(i != k as int);
                assert(fs1[i] == fs_mid[i]);
                if i < self0.frames@.len() {
                    assert(fs_mid[i] == self0.frames@[i]);
                    lemma_cached_at_index(self0.frames@, i, fs1[i].pid);
                }
            }
        }
        Ok(())
    }

    /// Drops every frame `tid` dirtied — its writes vanish unwritten —
    /// and releases every lock it holds: the buffer-pool side of abort.
    /// Frames of other owners, and clean frames, stay untouched.
    pub fn discard_transaction(&mut self, tid: TransactionId)
        requires
            old(self).wf(),
        ensures
            final(self).wf(),
            final(self).num_pages == old(self).num_pages,
            forall|pid: HeapPageId| spec_holds(final(self).lock_manager@, tid, pid) is None,
            forall|t2: TransactionId, p2: HeapPageId|
                t2 != tid ==> spec_holds(final(self).lock_manager@, t2, p2) == spec_holds(
                    old(self).lock_manager@,
                    t2,
                    p2,
                ),
            forall|i: int|
                0 <= i < final(self).frames@.len() ==> {
                    let f = #[trigger] final(self).frames@[i];
                    is_cached(old(self).frames@, f.pid) && cached_frame(old(self).frames@, f.pid)
                        == f && !(f.dirty && f.owner == tid.id)
                },
            forall|i: int|
                0 <= i < old(self).frames@.len() && !((#[trigger] old(self).frames@[i]).dirty
                    && old(self).frames@[i].owner == tid.id) ==> is_cached(
                    final(self).frames@,
                    old(self).frames@[i].pid,
                ) && cached_frame(final(self).frames@, old(self).frames@[i].pid) == old(self).frames@[i],
    {
        let ghost fs0 = self.frames@;
        let ghost mut g: int = 0;
        let mut i: usize = 0;
        while i < self.frames.len()
            invariant
                old(self).wf(),
                self.lock_manager == old(self).lock_manager,
                self.num_pages == old(self).num_pages,
                fs0 == old(self).frames@,
                0 <= i <= self.frames@.len(),
                i <= g <= fs0.len(),
                self.frames@.len() == i + (fs0.len() - g),
                self.frames@.skip(i as int) == fs0.skip(g),
                frames_distinct(self.frames@),
                forall|j: int|
                    0 <= j < i ==> {
                        let f = #[trigger] self.frames@[j];
                        !(f.dirty && f.owner == tid.id) && exists|x: int| 0 <= x < g && fs0[x] == f
                    },
                forall|x: int|
                    0 <= x < g && !((#[trigger] fs0[x]).dirty && fs0[x].owner == tid.id) ==> exists|
                        j: int,
                    | 0 <= j < i && self.frames@[j] == fs0[x],
            decreases self.frames@.len() - i,
        {
            proof {
                assert(self.frames@[i as int] == self.frames@.skip(i as int)[0]);
                assert(self.frames@[i as int] == fs0[g]);
            }
            if self.frames[i].dirty && self.frames[i].owner == tid.id {
                let ghost pre = self.frames@;
                self.frames.remove(i);
                proof {
                    assert forall|j: int| 0 <= j < self.frames@.len() implies self.frames@[j]
                        == (if j < i as int {
                        pre[j]
                    } else {
                        pre[j + 1]
                    }) by {
                        assert(self.frames@ == pre.remove(i as int));
                    }
                    assert forall|j: int, m: int|
                        0 <= j < self.frames@.len() && 0 <= m < self.frames@.len() && j != m implies (
                    #[trigger] self.frames@[j]).pid != (#[trigger] self.frames@[m]).pid by {
                        let j0 = if j < i as int {
                            j
                        } else {
                            j + 1
                        };
                        let m0 = if m < i as int {
                            m
                        } else {
                            m + 1
                        };
                        assert(self.frames@[j] == pre[j0] && self.frames@[m] == pre[m0]);
                    }
                    assert forall|m: int| 0 <= m < self.frames@.len() - i implies self.frames@.skip(
                        i as int,
                    )[m] == fs0.skip(g + 1)[m] by {
                        assert(self.frames@[i as int + m] == pre[i as int + m + 1]);
                        assert(pre[i as int + m + 1] == pre.skip(i as int)[m + 1]);
                        assert(pre.skip(i as int)[m + 1] == fs0.skip(g)[m + 1]);
                        assert(fs0.skip(g)[m + 1] == fs0[g + m + 1]);
                    }
                    assert(self.frames@.skip(i as int) =~= fs0.skip(g + 1));
                    assert(fs0[g].dirty && fs0[g].owner == tid.id);
                    g = g + 1;
                    assert forall|j: int| 0 <= j < i implies {
                        let f = #[trigger] self.frames@[j];
                        !(f.dirty && f.owner == tid.id) && exists|x: int| 0 <= x < g && fs0[x] == f
                    } by {
                        assert(self.frames@[j] == pre[j]);
                        let x = choose|x: int| 0 <= x < g - 1 && fs0[x] == pre[j];
                        assert(0 <= x < g && fs0[x] == self.frames@[j]);
                    }
                    assert forall|x: int|
                        0 <= x < g && !((#[trigger] fs0[x]).dirty && fs0[x].owner == tid.id)
                            implies exists|j: int| 0 <= j < i && self.frames@[j] == fs0[x] by {
                        assert(x < g - 1);
                        let j = choose|j: int| 0 <= j < i && pre[j] == fs0[x];
                        assert(self.frames@[j] == pre[j]);
                    }
                }
            } else {
                proof {
                    g = g + 1;
                    assert forall|m: int| 0 <= m < self.frames@.len() - i - 1 implies self.frames@.skip(
                        i + 1,
                    )[m] == fs0.skip(g)[m] by {
                        assert(self.frames@[i + 1 + m] == self.frames@.skip(i as int)[m + 1]);
                        assert(self.frames@.skip(i as int)[m + 1] == fs0.skip(g - 1)[m + 1]);
                        assert(fs0.skip(g - 1)[m + 1] == fs0[g + m]);
                    }
                    assert(self.frames@.skip(i + 1) =~= fs0.skip(g));
                    assert forall|x: int|
                        0 <= x < g && !((#[trigger] fs0[x]).dirty && fs0[x].owner == tid.id)
                            implies exists|j: int| 0 <= j <= i && self.frames@[j] == fs0[x] by {
                        if x == g - 1 {
                            assert(self.frames@[i as int] == fs0[x]);
                        }
                    }
                }
                i += 1;
            }
        }
        proof {
            assert(g == fs0.len());
            let fs1 = self.frames@;
            assert forall|x: int|
                0 <= x < fs0.len() && !((#[trigger] fs0[x]).dirty && fs0[x].owner == tid.id)
                    implies is_cached(fs1, fs0[x].pid) && cached_frame(fs1, fs0[x].pid)
                == fs0[x] by {
                let j = choose|j: int| 0 <= j < i && fs1[j] == fs0[x];
                lemma_cached_at_index(fs1, j, fs0[x].pid);
            }
            assert forall|j: int| 0 <= j < fs1.len() implies {
                let f = #[trigger] fs1[j];
                is_cached(fs0, f.pid) && cached_frame(fs0, f.pid) == f && !(f.dirty && f.owner
                    == tid.id)
            } by {
                let x = choose|x: int| 0 <= x < g && fs0[x] == fs1[j];
                lemma_cached_at_index(fs0, x, fs1[j].pid);
            }
        }
        self.lock_manager.release_all_locks(tid);
    }
}


/// The bookkeeping shared by the two exits of `insert_tuple`: after the
/// target frame is rewritten as a dirty frame of `tid`, the pool is well
/// formed, the target frame is the cached one, every other page's frame
/// is kept, and every frame is accounted for.
#[verifier::rlimit(60)]
proof fn insert_finish_proof(
    pool: &BufferPool,
    pool0: BufferPool,
    file: HeapFile,
    fs_mid: Seq<Frame>,
    tid: TransactionId,
    pid: HeapPageId,
    k: int,
)
    requires
        pool0.wf(),
        file.wf(),
        pid.table_id == file.id,
        pool.lock_manager.wf(),
        frames_distinct(fs_mid),
        0 <= k < fs_mid.len(),
        fs_mid[k].pid == pid,
        fs_mid.len() >= pool0.frames@.len(),
        forall|i: int| 0 <= i < pool0.frames@.len() ==> fs_mid[i] == pool0.frames@[i],
        forall|x: int|
            pool0.frames@.len() <= x < fs_mid.len() ==> clean_load_from(#[trigger] fs_mid[x], file),
        forall|i: int|
            0 <= i < fs_mid.len() ==> (#[trigger] fs_mid[i]).page.wf() && fs_mid[i].page.pid
                == fs_mid[i].pid,
        forall|i: int|
            0 <= i < fs_mid.len() && (#[trigger] fs_mid[i]).dirty ==> spec_holds(
                pool.lock_manager@,
                TransactionId { id: fs_mid[i].owner },
                fs_mid[i].pid,
            ) == Some(LockMode::Exclusive),
        pool.frames@.len() == fs_mid.len(),
        forall|i: int| 0 <= i < fs_mid.len() && i != k ==> pool.frames@[i] == fs_mid[i],
        pool.frames@[k].pid == pid,
        pool.frames@[k].dirty && pool.frames@[k].owner == tid.id,
        pool.frames@[k].page.wf() && pool.frames@[k].page.pid == pid,
        spec_holds(pool.lock_manager@, tid, pid) == Some(LockMode::Exclusive),
    ensures
        pool.wf(),
        visible_used(pool0, file, pid.page_number as int) == fs_mid[k].page.used@,
        visible_slots_of(pool0, file, pid) == fs_mid[k].page.slots_view(),
        is_cached(pool.frames@, pid),
        cached_frame(pool.frames@, pid) == pool.frames@[k],
        forall|p2: HeapPageId|
            p2 != pid && is_cached(pool0.frames@, p2) ==> (is_cached(pool.frames@, p2)
                && cached_frame(pool.frames@, p2) == cached_frame(pool0.frames@, p2)),
        forall|i: int|
            0 <= i < pool.frames@.len() && (#[trigger] pool.frames@[i]).pid != pid ==> ((is_cached(
                pool0.frames@,
                pool.frames@[i].pid,
            ) && cached_frame(pool0.frames@, pool.frames@[i].pid) == pool.frames@[i])
                || clean_load_from(pool.frames@[i], file)),
        forall|i: int|
            0 <= i < pool0.frames@.len() && (#[trigger] pool0.frames@[i]).dirty
                && pool0.frames@[i].pid != pid ==> is_cached(pool.frames@, pool0.frames@[i].pid)
                && cached_frame(pool.frames@, pool0.frames@[i].pid) == pool0.frames@[i],
{
    let fs1 = pool.frames@;
    assert forall|a: int, b: int|
        0 <= a < fs1.len() && 0 <= b < fs1.len() && a != b implies (#[trigger] fs1[a]).pid != (
    #[trigger] fs1[b]).pid by {
        assert(fs1[a].pid == fs_mid[a].pid && fs1[b].pid == fs_mid[b].pid);
    }
    assert forall|i: int|
        0 <= i < fs1.len() && (#[trigger] fs1[i]).dirty implies spec_holds(
        pool.lock_manager@,
        TransactionId { id: fs1[i].owner },
        fs1[i].pid,
    ) == Some(LockMode::Exclusive) by {
        if i != k {
            assert(fs1[i] == fs_mid[i]);
        }
    }
    lemma_cached_at_index(fs1, k, pid);
    lemma_visible_is_frame(pool0, fs_mid, file, pid, k);
    assert forall|p2: HeapPageId| p2 != pid && is_cached(pool0.frames@, p2) implies (is_cached(
        fs1,
        p2,
    ) && cached_frame(fs1, p2) == cached_frame(pool0.frames@, p2)) by {
        let x = choose|x: int|
            0 <= x < pool0.frames@.len() && (#[trigger] pool0.frames@[x]).pid == p2;
        assert(fs_mid[x] == pool0.frames@[x]);
        assert(x != k);
        assert(fs1[x] == fs_mid[x]);
        lemma_cached_at_index(fs1, x, p2);
        lemma_cached_at_index(pool0.frames@, x, p2);
    }
    assert forall|i: int|
        0 <= i < fs1.len() && (#[trigger] fs1[i]).pid != pid implies ((is_cached(
        pool0.frames@,
        fs1[i].pid,
    ) && cached_frame(pool0.frames@, fs1[i].pid) == fs1[i]) || clean_load_from(fs1[i], file)) by {
        assert(i != k);
        assert(fs1[i] == fs_mid[i]);
        if i < pool0.frames@.len() {
            assert(fs_mid[i] == pool0.frames@[i]);
            lemma_cached_at_index(pool0.frames@, i, fs1[i].pid);
        }
    }
    assert forall|i: int|
        0 <= i < pool0.frames@.len() && (#[trigger] pool0.frames@[i]).dirty && pool0.frames@[i].pid
            != pid implies is_cached(fs1, pool0.frames@[i].pid) && cached_frame(
        fs1,
        pool0.frames@[i].pid,
    ) == pool0.frames@[i] by {
        lemma_cached_at_index(pool0.frames@, i, pool0.frames@[i].pid);
    }
}

} // verus!
