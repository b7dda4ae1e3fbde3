//! The database: one explicitly constructed value owning the catalog, the
//! buffer pool, and the transaction table, passed by reference to whatever
//! needs it so that every embedding (and every test) builds its own
//! instance.
//!
//! Transactions follow force/no-steal: `commit_transaction` flushes every
//! page the transaction dirtied to its heap file and only then releases
//! its locks; `abort_transaction` drops the dirtied frames unwritten, so
//! the files never see an aborted transaction's writes.

use crate::buffer_pool::{
    cached_frame, clean_load_from, frames_distinct, is_cached, lemma_cached_at_index,
    page_views_eq, visible_used, BufferPool, Frame,
};
use crate::catalog::{has_table_id, lemma_table_at_index, table_by_id, Catalog, CatalogEntry};
use crate::errors::DbError;
use crate::heap_page::{page_parses_from, HeapPage, HeapPageId, Permission, RecordId};
use crate::lock_manager::spec_holds;
use crate::transaction::{TransactionId, TxState};
use crate::tuple::Tuple;
use vstd::prelude::*;

verus! {

/// A cached frame is consistent with the catalog: its table is
/// registered, its page follows that table's schema and exists in the
/// file, and — no-steal — a clean frame shows exactly the file's image.
pub open spec fn frame_ok(cat: Catalog, f: Frame) -> bool {
    let tbl = table_by_id(cat.entries@, f.pid.table_id);
    &&& has_table_id(cat.entries@, f.pid.table_id)
    &&& f.page.td.matches(tbl.td)
    &&& f.pid.page_number < tbl.disk_view().len()
    &&& (!f.dirty ==> page_parses_from(f.page, tbl.disk_view()[f.pid.page_number as int]))
}


/// The full effect of a successful commit of `tid`, from state `db0` to
/// state `db1`: the transaction is marked committed; every page it
/// dirtied is in its table's file, byte for byte; frames keep their pages
/// and only `tid`'s dirty bits clear; the catalog keeps its tables and
/// files change only in the pages `tid` dirtied; `tid`'s locks are gone
/// and every other transaction's are untouched.
pub open spec fn commit_effect(db0: Database, db1: Database, tid: TransactionId) -> bool {
    let fs0 = db0.buffer_pool.frames@;
    let fs1 = db1.buffer_pool.frames@;
    &&& db1.tx_states@ == db0.tx_states@.update(tid.id as int, TxState::Committed)
    &&& (forall|j: int|
        0 <= j < fs0.len() && (#[trigger] fs0[j]).dirty && fs0[j].owner == tid.id
            ==> crate::heap_page::page_bytes_ok(
            fs0[j].page,
            table_by_id(
                db1.catalog.entries@,
                fs0[j].pid.table_id,
            ).disk_view()[fs0[j].pid.page_number as int],
        ))
    &&& fs1.len() == fs0.len()
    &&& (forall|j: int|
        0 <= j < fs0.len() ==> (#[trigger] fs1[j]).pid == fs0[j].pid && fs1[j].page == fs0[j].page
            && fs1[j].dirty == (fs0[j].dirty && fs0[j].owner != tid.id))
    &&& db1.catalog.entries@.len() == db0.catalog.entries@.len()
    &&& (forall|k: int|
        0 <= k < db0.catalog.entries@.len() ==> {
            let e0 = #[trigger] db0.catalog.entries@[k];
            let e1 = db1.catalog.entries@[k];
            &&& e1.name@ == e0.name@
            &&& e1.file.id == e0.file.id
            &&& e1.file.td == e0.file.td
            &&& e1.file.disk_view().len() == e0.file.disk_view().len()
            &&& (forall|pn: int|
                0 <= pn < e0.file.disk_view().len() && !(exists|j: int|
                    0 <= j < fs0.len() && (#[trigger] fs0[j]).dirty && fs0[j].owner == tid.id
                        && fs0[j].pid == (HeapPageId {
                        table_id: e0.file.id,
                        page_number: pn as u32,
                    })) ==> e1.file.disk_view()[pn] == #[trigger] e0.file.disk_view()[pn])
        })
    &&& (forall|p2: HeapPageId| spec_holds(db1.buffer_pool.lock_manager@, tid, p2) is None)
    &&& (forall|t2: TransactionId, p2: HeapPageId|
        t2 != tid ==> spec_holds(db1.buffer_pool.lock_manager@, t2, p2) == spec_holds(
            db0.buffer_pool.lock_manager@,
            t2,
            p2,
        ))
}

/// The full effect of a successful abort of `tid`, from state `db0` to
/// state `db1`: the transaction is marked aborted; the catalog — hence
/// every file image — is untouched; every frame `tid` dirtied is dropped
/// and every other frame kept unchanged; `tid`'s locks are gone and every
/// other transaction's are untouched.
pub open spec fn abort_effect(db0: Database, db1: Database, tid: TransactionId) -> bool {
    &&& db1.catalog == db0.catalog
    &&& db1.tx_states@ == db0.tx_states@.update(tid.id as int, TxState::Aborted)
    &&& (forall|p2: HeapPageId| spec_holds(db1.buffer_pool.lock_manager@, tid, p2) is None)
    &&& (forall|t2: TransactionId, p2: HeapPageId|
        t2 != tid ==> spec_holds(db1.buffer_pool.lock_manager@, t2, p2) == spec_holds(
            db0.buffer_pool.lock_manager@,
            t2,
            p2,
        ))
    &&& (forall|i: int|
        0 <= i < db1.buffer_pool.frames@.len() ==> {
            let f = #[trigger] db1.buffer_pool.frames@[i];
            is_cached(db0.buffer_pool.frames@, f.pid) && cached_frame(
                db0.buffer_pool.frames@,
                f.pid,
            ) == f && !(f.dirty && f.owner == tid.id)
        })
    &&& (forall|i: int|
        0 <= i < db0.buffer_pool.frames@.len() && !((#[trigger] db0.buffer_pool.frames@[i]).dirty
            && db0.buffer_pool.frames@[i].owner == tid.id) ==> is_cached(
            db1.buffer_pool.frames@,
            db0.buffer_pool.frames@[i].pid,
        ) && cached_frame(db1.buffer_pool.frames@, db0.buffer_pool.frames@[i].pid) == db0.buffer_pool.frames@[i])
}


/// Read-only traffic through the pool does not change what a table shows:
/// with every dirty frame kept and every new frame a clean load, each
/// page's visible occupancy flags and slot bytes stay what they were.
pub proof fn lemma_visible_stable(db0: Database, pool1: BufferPool, table_id: u64, pn: int)
    requires
        db0.wf(),
        pool1.wf(),
        has_table_id(db0.catalog.entries@, table_id),
        crate::buffer_pool::frames_evolve(
            db0.buffer_pool.frames@,
            pool1.frames@,
            table_by_id(db0.catalog.entries@, table_id),
        ),
        crate::buffer_pool::dirty_frames_kept(db0.buffer_pool.frames@, pool1.frames@),
        0 <= pn < table_by_id(db0.catalog.entries@, table_id).disk_view().len(),
    ensures
        visible_used(pool1, table_by_id(db0.catalog.entries@, table_id), pn) == visible_used(
            db0.buffer_pool,
            table_by_id(db0.catalog.entries@, table_id),
            pn,
        ),
        crate::buffer_pool::visible_slots_of(
            pool1,
            table_by_id(db0.catalog.entries@, table_id),
            HeapPageId { table_id, page_number: pn as u32 },
        ) == crate::buffer_pool::visible_slots_of(
            db0.buffer_pool,
            table_by_id(db0.catalog.entries@, table_id),
            HeapPageId { table_id, page_number: pn as u32 },
        ),
{
    let file = table_by_id(db0.catalog.entries@, table_id);
    let pid = HeapPageId { table_id, page_number: pn as u32 };
    let fs0 = db0.buffer_pool.frames@;
    let fs1 = pool1.frames@;
    if is_cached(fs1, pid) {
        let x = choose|x: int| 0 <= x < fs1.len() && (#[trigger] fs1[x]).pid == pid;
        crate::buffer_pool::lemma_cached_at_index(fs1, x, pid);
        let f1 = fs1[x];
        if is_cached(fs0, pid) && cached_frame(fs0, pid) == f1 {
            // the very frame the page showed before
        } else {
            assert(clean_load_from(f1, file));
            crate::buffer_pool::lemma_loaded_used(f1, file);
            crate::buffer_pool::lemma_loaded_slots(f1, file);
            if is_cached(fs0, pid) {
                let y = choose|y: int| 0 <= y < fs0.len() && (#[trigger] fs0[y]).pid == pid;
                crate::buffer_pool::lemma_cached_at_index(fs0, y, pid);
                let f0 = fs0[y];
                if f0.dirty {
                    // dirty frames are kept, so the load would collide
                    assert(cached_frame(fs1, pid) == f0);
                    assert(false);
                }
                // a clean frame shows exactly the file's image (no-steal)
                assert(frame_ok(db0.catalog, f0));
                let z = choose|z: int|
                    0 <= z < db0.catalog.entries@.len() && (
                    #[trigger] db0.catalog.entries@[z]).file.id == table_id;
                lemma_table_at_index(db0.catalog.entries@, z, table_id);
                assert(clean_load_from(f0, file));
                crate::buffer_pool::lemma_loaded_used(f0, file);
                crate::buffer_pool::lemma_loaded_slots(f0, file);
            }
        }
    } else {
        if is_cached(fs0, pid) {
            let y = choose|y: int| 0 <= y < fs0.len() && (#[trigger] fs0[y]).pid == pid;
            crate::buffer_pool::lemma_cached_at_index(fs0, y, pid);
            let f0 = fs0[y];
            if f0.dirty {
                assert(is_cached(fs1, pid));
                assert(false);
            }
            assert(frame_ok(db0.catalog, f0));
            let z = choose|z: int|
                0 <= z < db0.catalog.entries@.len() && (
                #[trigger] db0.catalog.entries@[z]).file.id == table_id;
            lemma_table_at_index(db0.catalog.entries@, z, table_id);
            assert(clean_load_from(f0, file));
            crate::buffer_pool::lemma_loaded_used(f0, file);
            crate::buffer_pool::lemma_loaded_slots(f0, file);
        }
    }
}

/// The database value: catalog, buffer pool, and transaction table. The
/// state of transaction `t` is `tx_states[t.id]`; identifiers are handed
/// out in increasing order at `begin_transaction`.
pub struct Database {
    pub catalog: Catalog,
    pub buffer_pool: BufferPool,
    pub tx_states: Vec<TxState>,
}

impl Database {
    /// The database invariant: its parts are well formed and every cached
    /// frame is consistent with the catalog.
    pub open spec fn wf(self) -> bool {
        &&& self.catalog.wf()
        &&& self.buffer_pool.wf()
        &&& forall|i: int|
            0 <= i < self.buffer_pool.frames@.len() ==> frame_ok(
                self.catalog,
                #[trigger] self.buffer_pool.frames@[i],
            )
    }

    /// `tid` was begun here and has not terminated.
    pub open spec fn is_active_spec(self, tid: TransactionId) -> bool {
        tid.id < self.tx_states@.len() && self.tx_states@[tid.id as int] == TxState::Active
    }

    /// Creates an empty database with the default pool capacity.
    pub fn new() -> (r: Database)
        ensures
            r.wf(),
            r.catalog.entries@.len() == 0,
            r.buffer_pool.frames@.len() == 0,
            r.buffer_pool.lock_manager@.len() == 0,
            r.tx_states@.len() == 0,
            r.buffer_pool.num_pages == crate::buffer_pool::DEFAULT_PAGES,
    {
        Database { catalog: Catalog::new(), buffer_pool: BufferPool::new(), tx_states: Vec::new() }
    }

    /// Creates an empty database whose pool holds `capacity` frames.
    pub fn with_pool_capacity(capacity: usize) -> (r: Database)
        ensures
            r.wf(),
            r.catalog.entries@.len() == 0,
            r.buffer_pool.frames@.len() == 0,
            r.buffer_pool.lock_manager@.len() == 0,
            r.tx_states@.len() == 0,
            r.buffer_pool.num_pages == capacity,
    {
        Database {
            catalog: Catalog::new(),
            buffer_pool: BufferPool::with_capacity(capacity),
            tx_states: Vec::new(),
        }
    }

    /// Reads the buffer pool.
    pub fn get_buffer_pool(&self) -> (r: &BufferPool)
        ensures
            r == &self.buffer_pool,
    {
        &self.buffer_pool
    }

    /// Reads the catalog.
    pub fn get_catalog(&self) -> (r: &Catalog)
        ensures
            r == &self.catalog,
    {
        &self.catalog
    }

    /// Registers a table; the cache and transactions are untouched.
    pub fn add_table(&mut self, file: crate::heap_file::HeapFile, name: String) -> (r: Result<
        (),
        DbError,
    >)
        requires
            old(self).wf(),
            file.wf(),
        ensures
            final(self).wf(),
            final(self).buffer_pool == old(self).buffer_pool,
            final(self).tx_states == old(self).tx_states,
            r is Ok <==> !has_table_id(old(self).catalog.entries@, file.id)
                && !crate::catalog::has_table_name(old(self).catalog.entries@, name@),
            r is Err ==> final(self).catalog.entries@ == old(self).catalog.entries@ && r->Err_0
                == DbError::InvalidState,
            r is Ok ==> final(self).catalog.entries@.len() == old(self).catalog.entries@.len() + 1
                && final(self).catalog.entries@.last().file == file && final(self).catalog.entries@.last().name@ == name@ && (forall|i: int|
                0 <= i < old(self).catalog.entries@.len() ==> final(self).catalog.entries@[i]
                    == old(self).catalog.entries@[i]),
    {
        let ghost cat0 = self.catalog;
        let r = self.catalog.add_table(file, name);
        proof {
            if r is Ok {
                assert forall|i: int| 0 <= i < self.buffer_pool.frames@.len() implies frame_ok(
                    self.catalog,
                    #[trigger] self.buffer_pool.frames@[i],
                ) by {
                    let f = self.buffer_pool.frames@[i];
                    let x = choose|x: int|
                        0 <= x < cat0.entries@.len() && (#[trigger] cat0.entries@[x]).file.id
                            == f.pid.table_id;
                    assert(self.catalog.entries@[x] == cat0.entries@[x]);
                    lemma_table_at_index(self.catalog.entries@, x, f.pid.table_id);
                    lemma_table_at_index(cat0.entries@, x, f.pid.table_id);
                }
            }
        }
        r
    }

    /// Starts a transaction: allocates the next identifier, strictly
    /// larger than every identifier handed out before.
    pub fn begin_transaction(&mut self) -> (r: TransactionId)
        requires
            old(self).wf(),
        ensures
            final(self).wf(),
            final(self).catalog == old(self).catalog,
            final(self).buffer_pool == old(self).buffer_pool,
            r.id == old(self).tx_states@.len(),
            final(self).tx_states@ == old(self).tx_states@.push(TxState::Active),
            final(self).is_active_spec(r),
    {
        let id = self.tx_states.len() as u64;
        self.tx_states.push(TxState::Active);
        TransactionId::new(id)
    }

    /// The recorded state of `tid`, if it was begun here.
    pub fn transaction_state(&self, tid: TransactionId) -> (r: Option<TxState>)
        ensures
            r is Some <==> tid.id < self.tx_states@.len(),
            r is Some ==> r->0 == self.tx_states@[tid.id as int],
    {
        if tid.id < self.tx_states.len() as u64 {
            Some(self.tx_states[tid.id as usize])
        } else {
            None
        }
    }

    /// Whether `tid` is active.
    pub fn is_active(&self, tid: TransactionId) -> (r: bool)
        ensures
            r == self.is_active_spec(tid),
    {
        if tid.id < self.tx_states.len() as u64 {
            matches!(self.tx_states[tid.id as usize], TxState::Active)
        } else {
            false
        }
    }

    /// Aborts `tid`: drops every frame it dirtied — no write of an
    /// aborted transaction ever reaches a heap file, whose images are
    /// untouched — releases all its locks, and marks it `Aborted`.
    /// Terminated or unknown transactions are refused with
    /// `InvalidState`.
    pub fn abort_transaction(&mut self, tid: TransactionId) -> (r: Result<(), DbError>)
        requires
            old(self).wf(),
        ensures
            final(self).wf(),
            final(self).catalog == old(self).catalog,
            r is Ok <==> old(self).is_active_spec(tid),
            r is Err ==> *final(self) == *old(self) && r->Err_0 == DbError::InvalidState,
            r is Ok ==> abort_effect(*old(self), *final(self), tid),
    {
        if !self.is_active(tid) {
            return Err(DbError::InvalidState);
        }
        let ghost fs0 = self.buffer_pool.frames@;
        self.buffer_pool.discard_transaction(tid);
        proof {
            assert forall|i: int| 0 <= i < self.buffer_pool.frames@.len() implies frame_ok(
                self.catalog,
                #[trigger] self.buffer_pool.frames@[i],
            ) by {
                let f = self.buffer_pool.frames@[i];
                let x = choose|x: int| 0 <= x < fs0.len() && (#[trigger] fs0[x]).pid == f.pid;
                lemma_cached_at_index(fs0, x, f.pid);
                assert(frame_ok(self.catalog, fs0[x]));
            }
        }
        let nstates = self.tx_states.len();
        proof {
            assert(tid.id < nstates as u64);
        }
        self.tx_states.set(tid.id as usize, TxState::Aborted);
        Ok(())
    }

    /// Commits `tid`: flushes every page it dirtied to the owning heap
    /// file — so its writes are durable in the file images — then
    /// releases all its locks, then marks it `Committed`, in that order.
    /// Terminated or unknown transactions are refused with
    /// `InvalidState`.
    #[verifier::rlimit(100)]
    pub fn commit_transaction(&mut self, tid: TransactionId) -> (r: Result<(), DbError>)
        requires
            old(self).wf(),
        ensures
            final(self).wf(),
            r is Ok <==> old(self).is_active_spec(tid),
            r is Err ==> *final(self) == *old(self) && r->Err_0 == DbError::InvalidState,
            r is Ok ==> commit_effect(*old(self), *final(self), tid),
    {
        if !self.is_active(tid) {
            return Err(DbError::InvalidState);
        }
        let ghost db0 = *self;
        let ghost fs0 = self.buffer_pool.frames@;
        let n = self.buffer_pool.frame_count();
        let mut i: usize = 0;
        while i < n
            invariant
                self.wf(),
                db0.wf(),
                db0 == *old(self),
                n == fs0.len(),
                fs0 == db0.buffer_pool.frames@,
                db0.is_active_spec(tid),
                i <= n,
                self.tx_states == db0.tx_states,
                self.buffer_pool.num_pages == db0.buffer_pool.num_pages,
                self.buffer_pool.lock_manager == db0.buffer_pool.lock_manager,
                self.buffer_pool.frames@.len() == n,
                forall|j: int|
                    0 <= j < n ==> {
                        let f1 = #[trigger] self.buffer_pool.frames@[j];
                        let f0 = fs0[j];
                        f1.pid == f0.pid && f1.page == f0.page && f1.owner == f0.owner && f1.dirty
                            == (f0.dirty && !(j < i && f0.owner == tid.id))
                    },
                forall|j: int|
                    0 <= j < i && (#[trigger] fs0[j]).dirty && fs0[j].owner == tid.id
                        ==> crate::heap_page::page_bytes_ok(
                        fs0[j].page,
                        table_by_id(
                            self.catalog.entries@,
                            fs0[j].pid.table_id,
                        ).disk_view()[fs0[j].pid.page_number as int],
                    ),
                self.catalog.entries@.len() == db0.catalog.entries@.len(),
                forall|k: int|
                    0 <= k < db0.catalog.entries@.len() ==> {
                        let e0 = #[trigger] db0.catalog.entries@[k];
                        let e1 = self.catalog.entries@[k];
                        &&& e1.name@ == e0.name@
                        &&& e1.primary_key == e0.primary_key
                        &&& e1.file.id == e0.file.id
                        &&& e1.file.td == e0.file.td
                        &&& e1.file.disk_view().len() == e0.file.disk_view().len()
                        &&& (forall|pn: int|
                            0 <= pn < e0.file.disk_view().len() && !(exists|j: int|
                                0 <= j < i && (#[trigger] fs0[j]).dirty && fs0[j].owner == tid.id
                                    && fs0[j].pid == (HeapPageId {
                                    table_id: e0.file.id,
                                    page_number: pn as u32,
                                })) ==> e1.file.disk_view()[pn] == #[trigger] e0.file.disk_view()[pn])
                    },
            decreases n - i,
        {
            let owner = match self.buffer_pool.frame_dirty(i) {
                Some(o) => o,
                None => {
                    i += 1;
                    continue ;
                },
            };
            if owner != tid.id {
                i += 1;
                continue ;
            }
            let pid = self.buffer_pool.frame_pid(i);
            let page = self.buffer_pool.frame_page(i);
            let idx = match self.catalog.index_of_id(pid.table_id) {
                Some(idx) => idx,
                None => {
                    proof {
                        assert(frame_ok(self.catalog, self.buffer_pool.frames@[i as int]));
                        assert(false);
                    }
                    return Err(DbError::IoError);
                },
            };
            let ghost cat_pre = self.catalog;
            proof {
                lemma_table_at_index(cat_pre.entries@, idx as int, pid.table_id);
                assert(frame_ok(cat_pre, self.buffer_pool.frames@[i as int]));
            }
            let file = self.catalog.get_file_mut(idx);
            let wr = file.write_page(&page);
            proof {
                assert(self.catalog.entries@ == cat_pre.entries@.update(
                    idx as int,
                    CatalogEntry { file: self.catalog.entries@[idx as int].file, ..cat_pre.entries@[idx as int] },
                ));
            }
            match wr {
                Ok(()) => {},
                Err(_) => {
                    proof {
                        assert(false);
                    }
                    return Err(DbError::IoError);
                },
            }
            proof {
                let e1 = self.catalog.entries@[idx as int];
                crate::buffer_pool::lemma_page_views_bytes_ok(
                    page,
                    self.buffer_pool.frames@[i as int].page,
                    e1.file.disk_view()[pid.page_number as int],
                );
                // catalog well-formedness survives the in-place file write
                assert forall|a: int, b: int|
                    0 <= a < self.catalog.entries@.len() && 0 <= b < self.catalog.entries@.len()
                        && a != b implies (#[trigger] self.catalog.entries@[a]).file.id != (
                #[trigger] self.catalog.entries@[b]).file.id by {
                    assert(cat_pre.entries@[a].file.id == self.catalog.entries@[a].file.id);
                    assert(cat_pre.entries@[b].file.id == self.catalog.entries@[b].file.id);
                }
                assert forall|a: int, b: int|
                    0 <= a < self.catalog.entries@.len() && 0 <= b < self.catalog.entries@.len()
                        && a != b implies (#[trigger] self.catalog.entries@[a]).name@ != (
                #[trigger] self.catalog.entries@[b]).name@ by {
                    assert(cat_pre.entries@[a].name@ == self.catalog.entries@[a].name@);
                    assert(cat_pre.entries@[b].name@ == self.catalog.entries@[b].name@);
                }
            }
            self.buffer_pool.mark_clean(i);
            proof {
                lemma_table_at_index(self.catalog.entries@, idx as int, pid.table_id);
                assert(frames_distinct(fs0));
                assert forall|j: int|
                    0 <= j < i + 1 && (#[trigger] fs0[j]).dirty && fs0[j].owner == tid.id
                        implies crate::heap_page::page_bytes_ok(
                    fs0[j].page,
                    table_by_id(
                        self.catalog.entries@,
                        fs0[j].pid.table_id,
                    ).disk_view()[fs0[j].pid.page_number as int],
                ) by {
                    let id2 = fs0[j].pid.table_id;
                    assert(frame_ok(db0.catalog, fs0[j]));
                    let x = choose|x: int|
                        0 <= x < db0.catalog.entries@.len() && (
                        #[trigger] db0.catalog.entries@[x]).file.id == id2;
                    assert(cat_pre.entries@[x].file.id == id2);
                    lemma_table_at_index(cat_pre.entries@, x, id2);
                    lemma_table_at_index(self.catalog.entries@, x, id2);
                    if j < i {
                        if x == idx as int {
                            assert(fs0[j].pid != fs0[i as int].pid);
                            assert(fs0[j].pid.table_id == pid.table_id);
                            assert(fs0[j].pid.page_number != pid.page_number);
                            assert(self.catalog.entries@[x].file.disk_view()[fs0[j].pid.page_number as int]
                                == cat_pre.entries@[x].file.disk_view()[fs0[j].pid.page_number as int]);
                        } else {
                            assert(self.catalog.entries@[x] == cat_pre.entries@[x]);
                        }
                    } else {
                        assert(x == idx as int);
                    }
                }
                assert forall|j: int| 0 <= j < self.buffer_pool.frames@.len() implies frame_ok(
                    self.catalog,
                    #[trigger] self.buffer_pool.frames@[j],
                ) by {
                    let f = self.buffer_pool.frames@[j];
                    let id2 = f.pid.table_id;
                    let x = choose|x: int|
                        0 <= x < cat_pre.entries@.len() && (#[trigger] cat_pre.entries@[x]).file.id
                            == id2;
                    lemma_table_at_index(self.catalog.entries@, x, id2);
                    lemma_table_at_index(cat_pre.entries@, x, id2);
                    if j != i as int {
                        assert(frame_ok(cat_pre, f));
                        if x == idx as int {
                            // same table: only the flushed page's image changed,
                            // and no clean frame shows that page (the dirty
                            // frame at `i` does, uniquely)
                            if !f.dirty && f.pid.page_number == pid.page_number {
                                assert(f.pid == pid);
                                assert(self.buffer_pool.frames@[i as int].pid == pid);
                                assert(false);
                            }
                        }
                    } else {
                        crate::heap_page::lemma_bytes_ok_parses(
                            f.page,
                            table_by_id(
                                self.catalog.entries@,
                                id2,
                            ).disk_view()[f.pid.page_number as int],
                        );
                    }
                }
            }
            i += 1;
        }
        proof {
            assert forall|j: int|
                0 <= j < self.buffer_pool.frames@.len() && (
                #[trigger] self.buffer_pool.frames@[j]).dirty implies self.buffer_pool.frames@[j].owner
                != tid.id by {}
        }
        self.buffer_pool.release_locks(tid);
        let nstates = self.tx_states.len();
        proof {
            assert(tid.id < nstates as u64);
        }
        self.tx_states.set(tid.id as usize, TxState::Committed);
        proof {
            assert(self.tx_states@ =~= db0.tx_states@.update(tid.id as int, TxState::Committed));
        }
        Ok(())
    }


    /// Retrieves the page `pid` for `tid` under `perm`, taking the
    /// matching lock through the buffer pool; the single chokepoint every
    /// page access goes through. A terminated transaction is refused with
    /// `InvalidState`, an unknown table with `NotFound`; `Wait` and
    /// `Abort` surface the WAIT-DIE decision, and `Abort` marks the
    /// transaction aborted.
    pub fn get_page(&mut self, tid: TransactionId, pid: HeapPageId, perm: Permission) -> (r: Result<
        HeapPage,
        DbError,
    >)
        requires
            old(self).wf(),
        ensures
            final(self).wf(),
            final(self).catalog == old(self).catalog,
            r == Err::<HeapPage, DbError>(DbError::InvalidState) <==> !old(self).is_active_spec(
                tid,
            ),
            old(self).is_active_spec(tid) ==> (r == Err::<HeapPage, DbError>(DbError::NotFound)
                <==> !has_table_id(old(self).catalog.entries@, pid.table_id)),
            (r == Err::<HeapPage, DbError>(DbError::InvalidState) || r == Err::<HeapPage, DbError>(
                DbError::NotFound,
            )) ==> *final(self) == *old(self),
            r == Err::<HeapPage, DbError>(DbError::Wait) ==> final(self).tx_states == old(self).tx_states && final(self).buffer_pool.frames@ == old(self).buffer_pool.frames@ && final(self).buffer_pool.lock_manager@ == old(self).buffer_pool.lock_manager@,
            has_table_id(old(self).catalog.entries@, pid.table_id)
                ==> crate::buffer_pool::frames_evolve(
                old(self).buffer_pool.frames@,
                final(self).buffer_pool.frames@,
                table_by_id(old(self).catalog.entries@, pid.table_id),
            ),
            !(r == Err::<HeapPage, DbError>(DbError::Abort)) ==> crate::buffer_pool::dirty_frames_kept(
                old(self).buffer_pool.frames@,
                final(self).buffer_pool.frames@,
            ),
            r is Ok ==> final(self).buffer_pool.num_pages == old(self).buffer_pool.num_pages,
            old(self).is_active_spec(tid) && has_table_id(old(self).catalog.entries@, pid.table_id)
                ==> {
                let lm0 = old(self).buffer_pool.lock_manager@;
                let m = crate::buffer_pool::spec_lock_mode_for(perm);
                let outcome = crate::lock_manager::wait_die_outcome(lm0, tid, pid, m);
                &&& (r is Ok <==> outcome is Granted && (is_cached(
                    old(self).buffer_pool.frames@,
                    pid,
                ) || pid.page_number < table_by_id(
                    old(self).catalog.entries@,
                    pid.table_id,
                ).disk_view().len()))
                &&& (r == Err::<HeapPage, DbError>(DbError::Wait) <==> outcome is Wait)
                &&& (r == Err::<HeapPage, DbError>(DbError::Abort) <==> outcome is Die)
            },
            r == Err::<HeapPage, DbError>(DbError::Abort) ==> {
                &&& final(self).tx_states@ == old(self).tx_states@.update(
                    tid.id as int,
                    TxState::Aborted,
                )
                &&& (forall|p2: HeapPageId|
                    spec_holds(final(self).buffer_pool.lock_manager@, tid, p2) is None)
                &&& (forall|t2: TransactionId, p2: HeapPageId|
                    t2 != tid ==> spec_holds(final(self).buffer_pool.lock_manager@, t2, p2)
                        == spec_holds(old(self).buffer_pool.lock_manager@, t2, p2))
            },
            r is Ok ==> {
                let page = r->Ok_0;
                &&& final(self).tx_states == old(self).tx_states
                &&& page.wf()
                &&& page.pid == pid
                &&& spec_holds(final(self).buffer_pool.lock_manager@, tid, pid) == Some(
                    crate::lock_manager::granted_mode(
                        old(self).buffer_pool.lock_manager@,
                        tid,
                        pid,
                        crate::buffer_pool::spec_lock_mode_for(perm),
                    ),
                )
                &&& (forall|t2: TransactionId, p2: HeapPageId|
                    !(t2 == tid && p2 == pid) ==> spec_holds(
                        final(self).buffer_pool.lock_manager@,
                        t2,
                        p2,
                    ) == spec_holds(old(self).buffer_pool.lock_manager@, t2, p2))
                &&& is_cached(final(self).buffer_pool.frames@, pid)
                &&& page_views_eq(
                    page,
                    cached_frame(final(self).buffer_pool.frames@, pid).page,
                )
                &&& (is_cached(old(self).buffer_pool.frames@, pid) ==> cached_frame(
                    final(self).buffer_pool.frames@,
                    pid,
                ) == cached_frame(old(self).buffer_pool.frames@, pid))
                &&& (!is_cached(old(self).buffer_pool.frames@, pid) ==> clean_load_from(
                    cached_frame(final(self).buffer_pool.frames@, pid),
                    table_by_id(old(self).catalog.entries@, pid.table_id),
                ))
            },
    {
        if !self.is_active(tid) {
            proof {
                crate::buffer_pool::lemma_frames_accounted(
                    self.buffer_pool.frames@,
                    self.buffer_pool.frames@,
                    table_by_id(self.catalog.entries@, pid.table_id),
                );
                crate::buffer_pool::lemma_prefix_kept(
                    self.buffer_pool.frames@,
                    self.buffer_pool.frames@,
                );
            }
            return Err(DbError::InvalidState);
        }
        let idx = match self.catalog.index_of_id(pid.table_id) {
            Some(i) => i,
            None => {
                proof {
                    crate::buffer_pool::lemma_prefix_kept(
                        self.buffer_pool.frames@,
                        self.buffer_pool.frames@,
                    );
                }
                return Err(DbError::NotFound);
            },
        };
        let ghost cat0 = self.catalog;
        let ghost pool0 = self.buffer_pool;
        let file = &self.catalog.entries[idx].file;
        let r = self.buffer_pool.get_page(file, tid, pid, perm);
        proof {
            lemma_table_at_index(cat0.entries@, idx as int, pid.table_id);
            assert forall|i: int| 0 <= i < self.buffer_pool.frames@.len() implies frame_ok(
                self.catalog,
                #[trigger] self.buffer_pool.frames@[i],
            ) by {
                let f = self.buffer_pool.frames@[i];
                if r == Err::<HeapPage, DbError>(DbError::Abort) {
                    assert(is_cached(pool0.frames@, f.pid) && cached_frame(pool0.frames@, f.pid)
                        == f);
                    let x = choose|x: int|
                        0 <= x < pool0.frames@.len() && (#[trigger] pool0.frames@[x]).pid == f.pid;
                    lemma_cached_at_index(pool0.frames@, x, f.pid);
                    assert(frame_ok(cat0, pool0.frames@[x]));
                } else {
                    if is_cached(pool0.frames@, f.pid) && cached_frame(pool0.frames@, f.pid) == f {
                        let x = choose|x: int|
                            0 <= x < pool0.frames@.len() && (#[trigger] pool0.frames@[x]).pid
                                == f.pid;
                        lemma_cached_at_index(pool0.frames@, x, f.pid);
                        assert(frame_ok(cat0, pool0.frames@[x]));
                    } else {
                        assert(clean_load_from(f, cat0.entries@[idx as int].file));
                    }
                }
            }
        }
        match r {
            Ok(page) => Ok(page),
            Err(e) => {
                if matches!(e, DbError::Abort) {
                    let nstates = self.tx_states.len();
                    proof {
                        assert(tid.id < nstates as u64);
                    }
                    self.tx_states.set(tid.id as usize, TxState::Aborted);
                }
                Err(e)
            },
        }
    }

    /// Adds the tuple to the table `table_id`, routing every page touch
    /// through the buffer pool so locking is always enforced: the tuple
    /// goes to the lowest-numbered free slot of the first page with
    /// space (appending a fresh page when every page is full), in the
    /// cache only — the file images change at commit. A terminated
    /// transaction is refused with `InvalidState`, an unknown table with
    /// `NotFound`; `Abort` marks the transaction aborted. When no other
    /// transaction holds any lock and the file has page numbers left,
    /// the insert succeeds.
    pub fn insert_tuple(&mut self, tid: TransactionId, table_id: u64, t: &Tuple) -> (r: Result<
        RecordId,
        DbError,
    >)
        requires
            old(self).wf(),
            t.wf(),
            has_table_id(old(self).catalog.entries@, table_id) ==> t.td.matches(
                table_by_id(old(self).catalog.entries@, table_id).td,
            ),
        ensures
            final(self).wf(),
            r == Err::<RecordId, DbError>(DbError::InvalidState) <==> !old(self).is_active_spec(
                tid,
            ),
            old(self).is_active_spec(tid) ==> (r == Err::<RecordId, DbError>(DbError::NotFound)
                <==> !has_table_id(old(self).catalog.entries@, table_id)),
            (r == Err::<RecordId, DbError>(DbError::InvalidState) || r == Err::<
                RecordId,
                DbError,
            >(DbError::NotFound)) ==> *final(self) == *old(self),
            // the catalog keeps its tables; only `table_id`'s file can
            // change, and only by gaining one fresh page
            final(self).catalog.entries@.len() == old(self).catalog.entries@.len(),
            forall|k: int|
                0 <= k < old(self).catalog.entries@.len() && (#[trigger] old(self).catalog.entries@[k]).file.id != table_id ==> final(self).catalog.entries@[k]
                    == old(self).catalog.entries@[k],
            forall|k: int|
                0 <= k < old(self).catalog.entries@.len() ==> {
                    let e0 = #[trigger] old(self).catalog.entries@[k];
                    let e1 = final(self).catalog.entries@[k];
                    &&& e1.name@ == e0.name@
                    &&& e1.file.id == e0.file.id
                    &&& e1.file.td == e0.file.td
                    &&& e0.file.disk_view().len() <= e1.file.disk_view().len()
                        <= e0.file.disk_view().len() + 1
                    &&& (forall|pn: int|
                        0 <= pn < e0.file.disk_view().len() ==> e1.file.disk_view()[pn]
                            == #[trigger] e0.file.disk_view()[pn])
                    &&& (e1.file.disk_view().len() > e0.file.disk_view().len()
                        ==> e1.file.disk_view().last() == crate::heap_file::zero_page_image())
                },
            forall|t2: TransactionId, p2: HeapPageId|
                t2 != tid ==> spec_holds(final(self).buffer_pool.lock_manager@, t2, p2)
                    == spec_holds(old(self).buffer_pool.lock_manager@, t2, p2),
            r is Ok ==> {
                let rid = r->Ok_0;
                let pid = rid.page_id;
                let pn = pid.page_number as int;
                let s = rid.slot_number as int;
                let f = cached_frame(final(self).buffer_pool.frames@, pid);
                let file1 = table_by_id(final(self).catalog.entries@, table_id);
                let vu = visible_used(old(self).buffer_pool, file1, pn);
                &&& final(self).tx_states == old(self).tx_states
                &&& pid.table_id == table_id
                &&& pn < file1.disk_view().len()
                &&& spec_holds(final(self).buffer_pool.lock_manager@, tid, pid) == Some(
                    crate::lock_manager::LockMode::Exclusive,
                )
                &&& is_cached(final(self).buffer_pool.frames@, pid)
                &&& f.dirty && f.owner == tid.id
                &&& 0 <= s < f.page.used@.len() && f.page.used@[s as int]
                &&& f.page.slots_view()[s] == t.spec_bytes()
                &&& forall|pn2: int|
                    0 <= pn2 < pn ==> crate::buffer_pool::page_full(
                        old(self).buffer_pool,
                        table_by_id(old(self).catalog.entries@, table_id),
                        pn2,
                    )
                &&& s < vu.len() && !vu[s]
                &&& forall|j: int| 0 <= j < s ==> vu[j]
                &&& f.page.used@ == vu.update(s, true)
                &&& forall|p2: HeapPageId|
                    p2 != pid && is_cached(old(self).buffer_pool.frames@, p2) ==> (is_cached(
                        final(self).buffer_pool.frames@,
                        p2,
                    ) && cached_frame(final(self).buffer_pool.frames@, p2) == cached_frame(
                        old(self).buffer_pool.frames@,
                        p2,
                    ))
            },
            r == Err::<RecordId, DbError>(DbError::Abort) ==> {
                &&& final(self).tx_states@ == old(self).tx_states@.update(
                    tid.id as int,
                    TxState::Aborted,
                )
                &&& (forall|p2: HeapPageId|
                    spec_holds(final(self).buffer_pool.lock_manager@, tid, p2) is None)
                &&& (forall|i: int|
                    0 <= i < final(self).buffer_pool.frames@.len() ==> !((#[trigger] final(self).buffer_pool.frames@[i]).dirty && final(self).buffer_pool.frames@[i].owner
                        == tid.id))
            },
            !(r == Err::<RecordId, DbError>(DbError::Abort)) ==> final(self).tx_states == old(self).tx_states,
            old(self).is_active_spec(tid) && has_table_id(old(self).catalog.entries@, table_id)
                && (forall|i: int|
                0 <= i < old(self).buffer_pool.lock_manager@.len() ==> (#[trigger] old(self).buffer_pool.lock_manager@[i]).tid == tid) && table_by_id(
                old(self).catalog.entries@,
                table_id,
            ).disk_view().len() < u32::MAX - 1 ==> r is Ok,
    {
        if !self.is_active(tid) {
            return Err(DbError::InvalidState);
        }
        let idx = match self.catalog.index_of_id(table_id) {
            Some(i) => i,
            None => {
                return Err(DbError::NotFound);
            },
        };
        let ghost cat0 = self.catalog;
        let ghost pool0 = self.buffer_pool;
        proof {
            lemma_table_at_index(cat0.entries@, idx as int, table_id);
            // no frame is cached past the file's end
            let npid = HeapPageId {
                table_id: table_id,
                page_number: cat0.entries@[idx as int].file.disk_view().len() as u32,
            };
            if is_cached(pool0.frames@, npid) {
                let x = choose|x: int|
                    0 <= x < pool0.frames@.len() && (#[trigger] pool0.frames@[x]).pid == npid;
                assert(frame_ok(cat0, pool0.frames@[x]));
                assert(false);
            }
        }
        let file = self.catalog.get_file_mut(idx);
        proof {
            assert forall|i: int|
                0 <= i < pool0.frames@.len() && (#[trigger] pool0.frames@[i]).pid.table_id
                    == file.id implies pool0.frames@[i].page.td.matches(file.td) by {
                assert(frame_ok(cat0, pool0.frames@[i]));
            }
        }
        let r = self.buffer_pool.insert_tuple(file, tid, t);
        proof {
            lemma_table_at_index(self.catalog.entries@, idx as int, table_id);
            assert forall|a: int, b: int|
                0 <= a < self.catalog.entries@.len() && 0 <= b < self.catalog.entries@.len() && a
                    != b implies (#[trigger] self.catalog.entries@[a]).file.id != (
            #[trigger] self.catalog.entries@[b]).file.id && (
            #[trigger] self.catalog.entries@[a]).name@ != (
            #[trigger] self.catalog.entries@[b]).name@ by {
                assert(cat0.entries@[a].file.id == self.catalog.entries@[a].file.id);
                assert(cat0.entries@[b].file.id == self.catalog.entries@[b].file.id);
                assert(cat0.entries@[a].name@ == self.catalog.entries@[a].name@);
                assert(cat0.entries@[b].name@ == self.catalog.entries@[b].name@);
            }
            let file1 = self.catalog.entries@[idx as int].file;
            assert forall|i: int| 0 <= i < self.buffer_pool.frames@.len() implies frame_ok(
                self.catalog,
                #[trigger] self.buffer_pool.frames@[i],
            ) by {
                let f = self.buffer_pool.frames@[i];
                let id2 = f.pid.table_id;
                if (r is Ok && f.pid == (r->Ok_0).page_id) {
                    lemma_table_at_index(self.catalog.entries@, idx as int, id2);
                } else {
                    if is_cached(pool0.frames@, f.pid) && cached_frame(pool0.frames@, f.pid) == f {
                        let x = choose|x: int|
                            0 <= x < pool0.frames@.len() && (#[trigger] pool0.frames@[x]).pid
                                == f.pid;
                        lemma_cached_at_index(pool0.frames@, x, f.pid);
                        assert(frame_ok(cat0, f));
                        let y = choose|y: int|
                            0 <= y < cat0.entries@.len() && (#[trigger] cat0.entries@[y]).file.id
                                == id2;
                        lemma_table_at_index(cat0.entries@, y, id2);
                        lemma_table_at_index(self.catalog.entries@, y, id2);
                        if y == idx as int {
                            assert(f.pid.page_number < cat0.entries@[y].file.disk_view().len());
                            assert(file1.disk_view()[f.pid.page_number as int]
                                == cat0.entries@[y].file.disk_view()[f.pid.page_number as int]);
                        } else {
                            assert(self.catalog.entries@[y] == cat0.entries@[y]);
                        }
                    } else {
                        assert(clean_load_from(f, file1));
                        lemma_table_at_index(self.catalog.entries@, idx as int, id2);
                    }
                }
            }
        }
        match r {
            Ok(rid) => Ok(rid),
            Err(e) => {
                if matches!(e, DbError::Abort) {
                    let nstates = self.tx_states.len();
                    proof {
                        assert(tid.id < nstates as u64);
                    }
                    self.tx_states.set(tid.id as usize, TxState::Aborted);
                }
                Err(e)
            },
        }
    }

    /// Deletes the tuple at its record identifier from the table
    /// `table_id`, through the buffer pool (the slot clears in the cache;
    /// the file image changes at commit). Errors as `insert_tuple`, with
    /// `NotFound` also for a missing or foreign record identifier and an
    /// already-empty slot.
    pub fn delete_tuple(&mut self, tid: TransactionId, table_id: u64, t: &Tuple) -> (r: Result<
        (),
        DbError,
    >)
        requires
            old(self).wf(),
        ensures
            final(self).wf(),
            final(self).catalog == old(self).catalog,
            r == Err::<(), DbError>(DbError::InvalidState) <==> !old(self).is_active_spec(tid),
            old(self).is_active_spec(tid) && !has_table_id(old(self).catalog.entries@, table_id)
                ==> r == Err::<(), DbError>(DbError::NotFound),
            forall|t2: TransactionId, p2: HeapPageId|
                t2 != tid ==> spec_holds(final(self).buffer_pool.lock_manager@, t2, p2)
                    == spec_holds(old(self).buffer_pool.lock_manager@, t2, p2),
            r is Ok ==> {
                let rid = t.rid->0;
                let pid = rid.page_id;
                let s = rid.slot_number as int;
                let f = cached_frame(final(self).buffer_pool.frames@, pid);
                &&& t.rid is Some
                &&& pid.table_id == table_id
                &&& final(self).tx_states == old(self).tx_states
                &&& spec_holds(final(self).buffer_pool.lock_manager@, tid, pid) == Some(
                    crate::lock_manager::LockMode::Exclusive,
                )
                &&& is_cached(final(self).buffer_pool.frames@, pid)
                &&& f.dirty && f.owner == tid.id
                &&& 0 <= s < f.page.used@.len() && !f.page.used@[s]
                &&& f.page.used@ == visible_used(
                    old(self).buffer_pool,
                    table_by_id(old(self).catalog.entries@, table_id),
                    pid.page_number as int,
                ).update(s, false)
                &&& visible_used(
                    old(self).buffer_pool,
                    table_by_id(old(self).catalog.entries@, table_id),
                    pid.page_number as int,
                )[s]
                &&& f.page.slots_view() == crate::buffer_pool::visible_slots_of(
                    old(self).buffer_pool,
                    table_by_id(old(self).catalog.entries@, table_id),
                    pid,
                )
                &&& forall|p2: HeapPageId|
                    p2 != pid && is_cached(old(self).buffer_pool.frames@, p2) ==> (is_cached(
                        final(self).buffer_pool.frames@,
                        p2,
                    ) && cached_frame(final(self).buffer_pool.frames@, p2) == cached_frame(
                        old(self).buffer_pool.frames@,
                        p2,
                    ))
            },
            r == Err::<(), DbError>(DbError::Abort) ==> {
                &&& final(self).tx_states@ == old(self).tx_states@.update(
                    tid.id as int,
                    TxState::Aborted,
                )
                &&& (forall|p2: HeapPageId|
                    spec_holds(final(self).buffer_pool.lock_manager@, tid, p2) is None)
                &&& (forall|i: int|
                    0 <= i < final(self).buffer_pool.frames@.len() ==> !((#[trigger] final(self).buffer_pool.frames@[i]).dirty && final(self).buffer_pool.frames@[i].owner
                        == tid.id))
            },
            !(r == Err::<(), DbError>(DbError::Abort)) ==> final(self).tx_states == old(self).tx_states,
            (old(self).is_active_spec(tid) && has_table_id(old(self).catalog.entries@, table_id)
                && t.rid is Some && (t.rid->0).page_id.table_id == table_id && (forall|i: int|
                0 <= i < old(self).buffer_pool.lock_manager@.len() ==> (#[trigger] old(self).buffer_pool.lock_manager@[i]).tid == tid) && (is_cached(
                old(self).buffer_pool.frames@,
                (t.rid->0).page_id,
            ) || (t.rid->0).page_id.page_number < table_by_id(
                old(self).catalog.entries@,
                table_id,
            ).disk_view().len()) && (t.rid->0).slot_number < visible_used(
                old(self).buffer_pool,
                table_by_id(old(self).catalog.entries@, table_id),
                (t.rid->0).page_id.page_number as int,
            ).len() && visible_used(
                old(self).buffer_pool,
                table_by_id(old(self).catalog.entries@, table_id),
                (t.rid->0).page_id.page_number as int,
            )[(t.rid->0).slot_number as int]) ==> r is Ok,
    {
        if !self.is_active(tid) {
            return Err(DbError::InvalidState);
        }
        let idx = match self.catalog.index_of_id(table_id) {
            Some(i) => i,
            None => {
                return Err(DbError::NotFound);
            },
        };
        let ghost cat0 = self.catalog;
        let ghost pool0 = self.buffer_pool;
        proof {
            lemma_table_at_index(cat0.entries@, idx as int, table_id);
        }
        let r = {
            let file = &self.catalog.entries[idx].file;
            proof {
                assert forall|i: int|
                    0 <= i < pool0.frames@.len() && (#[trigger] pool0.frames@[i]).pid.table_id
                        == file.id implies pool0.frames@[i].page.td.matches(file.td) by {
                    assert(frame_ok(cat0, pool0.frames@[i]));
                }
            }
            self.buffer_pool.delete_tuple(file, tid, t)
        };
        proof {
            let file1 = self.catalog.entries@[idx as int].file;
            assert forall|i: int| 0 <= i < self.buffer_pool.frames@.len() implies frame_ok(
                self.catalog,
                #[trigger] self.buffer_pool.frames@[i],
            ) by {
                let f = self.buffer_pool.frames@[i];
                if (r is Ok && t.rid is Some && f.pid == (t.rid->0).page_id) {
                    lemma_table_at_index(self.catalog.entries@, idx as int, f.pid.table_id);
                } else {
                    if is_cached(pool0.frames@, f.pid) && cached_frame(pool0.frames@, f.pid) == f {
                        let x = choose|x: int|
                            0 <= x < pool0.frames@.len() && (#[trigger] pool0.frames@[x]).pid
                                == f.pid;
                        lemma_cached_at_index(pool0.frames@, x, f.pid);
                        assert(frame_ok(cat0, f));
                    } else {
                        assert(clean_load_from(f, file1));
                        lemma_table_at_index(self.catalog.entries@, idx as int, f.pid.table_id);
                    }
                }
            }
        }
        match r {
            Ok(()) => Ok(()),
            Err(e) => {
                if matches!(e, DbError::Abort) {
                    let nstates = self.tx_states.len();
                    proof {
                        assert(tid.id < nstates as u64);
                    }
                    self.tx_states.set(tid.id as usize, TxState::Aborted);
                }
                Err(e)
            },
        }
    }

    /// Commits or aborts `tid`.
    pub fn transaction_complete(&mut self, tid: TransactionId, commit: bool) -> (r: Result<
        (),
        DbError,
    >)
        requires
            old(self).wf(),
        ensures
            final(self).wf(),
            r is Ok <==> old(self).is_active_spec(tid),
            r is Err ==> *final(self) == *old(self) && r->Err_0 == DbError::InvalidState,
            commit && r is Ok ==> commit_effect(*old(self), *final(self), tid),
            !commit && r is Ok ==> abort_effect(*old(self), *final(self), tid),
            r is Ok ==> forall|p2: HeapPageId|
                spec_holds(final(self).buffer_pool.lock_manager@, tid, p2) is None,
    {
        if commit {
            self.commit_transaction(tid)
        } else {
            self.abort_transaction(tid)
        }
    }
}

} // verus!
