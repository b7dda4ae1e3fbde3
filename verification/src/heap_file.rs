//! A table's heap file: an append-only sequence of fixed-size page
//! images, modelling the flat backing file in which page `n` occupies
//! bytes `n * PAGE_SIZE .. (n + 1) * PAGE_SIZE`.
//!
//! The images are the durable state: a committed transaction's writes are
//! in them, an aborted transaction's never reach them. An embedding
//! process persists the images byte for byte and hands them back on
//! startup.

use crate::errors::DbError;
use crate::heap_page::{
    header_size, lemma_page_geometry, lemma_zero_bit, page_bytes_ok, page_parses_from, spec_bit,
    HeapPage, HeapPageId, PAGE_SIZE,
};
use crate::tuple::TupleDesc;
use vstd::prelude::*;
use vstd::slice::slice_to_vec;

verus! {

/// Relies on uuid's `Uuid::new_v4` and `Uuid::as_u128`: draws a random
/// 128-bit version-4 UUID and keeps its low 64 bits. The result depends
/// on the operating system's randomness, so nothing is promised of it;
/// the catalog checks for collisions when a table is registered.
#[verifier::external_body]
fn fresh_table_id() -> u64 {
    uuid::Uuid::new_v4().as_u128() as u64
}

/// The all-zero image of a freshly allocated page: header bits clear (no
/// slot occupied), slot bytes zero.
pub open spec fn zero_page_image() -> Seq<u8> {
    Seq::new(PAGE_SIZE as nat, |k: int| 0u8)
}

/// A table stored as one flat file of page images.
pub struct HeapFile {
    pub id: u64,
    pub td: TupleDesc,
    pub disk: Vec<Vec<u8>>,
}

impl HeapFile {
    /// The page images as mathematical sequences.
    pub open spec fn disk_view(self) -> Seq<Seq<u8>> {
        self.disk@.map_values(|v: Vec<u8>| v@)
    }

    /// A heap file is well formed when its schema is, every image is
    /// exactly one page, and one more page number is still free.
    pub open spec fn wf(self) -> bool {
        &&& self.td.wf()
        &&& self.disk@.len() < u32::MAX
        &&& forall|i: int| 0 <= i < self.disk@.len() ==> (#[trigger] self.disk@[i])@.len() == PAGE_SIZE
    }

    /// Creates an empty table file with a freshly drawn identifier.
    pub fn new(td: TupleDesc) -> (r: HeapFile)
        requires
            td.wf(),
        ensures
            r.wf(),
            r.td == td,
            r.disk_view() =~= Seq::<Seq<u8>>::empty(),
    {
        HeapFile { id: fresh_table_id(), td, disk: Vec::new() }
    }

    /// Creates an empty table file under the given identifier.
    pub fn with_id(td: TupleDesc, id: u64) -> (r: HeapFile)
        requires
            td.wf(),
        ensures
            r.wf(),
            r.td == td,
            r.id == id,
            r.disk_view() =~= Seq::<Seq<u8>>::empty(),
    {
        HeapFile { id, td, disk: Vec::new() }
    }

    /// Returns the unique id of this table.
    pub fn get_id(&self) -> (r: u64)
        ensures
            r == self.id,
    {
        self.id
    }

    /// Returns the tuple descriptor of this table.
    pub fn get_tuple_desc(&self) -> (r: &TupleDesc)
        ensures
            r == &self.td,
    {
        &self.td
    }

    /// Returns the number of pages in this file.
    pub fn num_pages(&self) -> (r: usize)
        ensures
            r == self.disk_view().len(),
    {
        self.disk.len()
    }

    /// Reads the page `pid` from the file. Succeeds exactly when `pid`
    /// names this table and a page the file has; the page is pinned by
    /// the stored image.
    pub fn read_page(&self, pid: HeapPageId) -> (r: Result<HeapPage, DbError>)
        requires
            self.wf(),
        ensures
            r is Ok <==> pid.table_id == self.id && pid.page_number < self.disk_view().len(),
            r is Ok ==> {
                let p = r->Ok_0;
                &&& p.wf()
                &&& p.pid == pid
                &&& p.td.matches(self.td)
                &&& page_parses_from(p, self.disk_view()[pid.page_number as int])
            },
            r is Err ==> (r->Err_0 == DbError::NotFound <==> pid.table_id != self.id),
            r is Err ==> (r->Err_0 == DbError::IoError <==> pid.table_id == self.id),
    {
        if pid.table_id != self.id {
            return Err(DbError::NotFound);
        }
        let pn = pid.page_number as usize;
        if pn >= self.disk.len() {
            return Err(DbError::IoError);
        }
        let data = slice_to_vec(self.disk[pn].as_slice());
        Ok(HeapPage::new(pid, data, &self.td))
    }

    /// Writes the page's image back into the file, at its own page
    /// number: in place for an existing page, appending for page number
    /// `num_pages()`. Succeeds exactly then; a write past the end or to
    /// another table's page is refused and changes nothing.
    pub fn write_page(&mut self, page: &HeapPage) -> (r: Result<(), DbError>)
        requires
            old(self).wf(),
            page.wf(),
            page.td.matches(old(self).td),
        ensures
            final(self).wf(),
            final(self).id == old(self).id,
            final(self).td == old(self).td,
            r is Ok <==> page.pid.table_id == old(self).id && (page.pid.page_number
                < old(self).disk_view().len() || (page.pid.page_number == old(
                self,
            ).disk_view().len() && old(self).disk_view().len() < u32::MAX - 1)),
            r is Err ==> *final(self) == *old(self),
            r is Ok ==> {
                let pn = page.pid.page_number as int;
                let dv = final(self).disk_view();
                &&& dv.len() == if pn < old(self).disk_view().len() {
                    old(self).disk_view().len()
                } else {
                    old(self).disk_view().len() + 1
                }
                &&& page_bytes_ok(*page, dv[pn])
                &&& forall|k: int| 0 <= k < dv.len() && k != pn ==> dv[k] == old(self).disk_view()[k]
            },
    {
        if page.pid.table_id != self.id {
            return Err(DbError::NotFound);
        }
        let pn = page.pid.page_number as usize;
        let n = self.disk.len();
        if pn > n || (pn == n && n >= (u32::MAX - 1) as usize) {
            return Err(DbError::IoError);
        }
        let data = page.get_page_data();
        if pn == n {
            self.disk.push(data);
            proof {
                assert(self.disk_view() =~= old(self).disk_view().push(
                    self.disk_view()[pn as int],
                ));
            }
        } else {
            self.disk.set(pn, data);
            proof {
                assert(self.disk_view() =~= old(self).disk_view().update(
                    pn as int,
                    self.disk_view()[pn as int],
                ));
            }
        }
        Ok(())
    }

    /// Appends one zeroed page image — a fresh page with every slot
    /// empty — and returns its page number. Fails only when the page
    /// numbers are exhausted.
    pub fn allocate_page(&mut self) -> (r: Result<u32, DbError>)
        requires
            old(self).wf(),
        ensures
            final(self).wf(),
            final(self).id == old(self).id,
            final(self).td == old(self).td,
            r is Ok <==> old(self).disk_view().len() < u32::MAX - 1,
            r is Err ==> *final(self) == *old(self) && r->Err_0 == DbError::IoError,
            r is Ok ==> r->Ok_0 == old(self).disk_view().len() && final(self).disk_view()
                == old(self).disk_view().push(zero_page_image()),
    {
        let n = self.disk.len();
        if n >= (u32::MAX - 1) as usize {
            return Err(DbError::IoError);
        }
        let mut image: Vec<u8> = Vec::new();
        let mut k: usize = 0;
        while k < PAGE_SIZE
            invariant
                k <= PAGE_SIZE,
                image@.len() == k,
                forall|x: int| 0 <= x < k ==> #[trigger] image@[x] == 0u8,
            decreases PAGE_SIZE - k,
        {
            image.push(0u8);
            k += 1;
        }
        proof {
            assert(image@ =~= zero_page_image());
        }
        self.disk.push(image);
        proof {
            assert(self.disk_view() =~= old(self).disk_view().push(zero_page_image()));
        }
        Ok(n as u32)
    }
}


impl HeapFile {
    /// Adds the tuple to this file through the buffer pool (which takes
    /// the exclusive page locks): the tuple lands in the lowest-numbered
    /// free slot of the first page with space, or on a freshly appended
    /// page when every page is full. See `BufferPool::insert_tuple` for
    /// the full contract.
    pub fn add_tuple(
        &mut self,
        pool: &mut crate::buffer_pool::BufferPool,
        tid: crate::transaction::TransactionId,
        t: &crate::tuple::Tuple,
    ) -> (r: Result<crate::heap_page::RecordId, DbError>)
        requires
            old(pool).wf(),
            old(self).wf(),
            t.wf(),
            t.td.matches(old(self).td),
            forall|i: int|
                0 <= i < old(pool).frames@.len() && (#[trigger] old(
                    pool,
                ).frames@[i]).pid.table_id == old(self).id ==> old(
                    pool,
                ).frames@[i].page.td.matches(old(self).td),
        ensures
            final(pool).wf(),
            final(self).wf(),
            final(self).id == old(self).id,
            final(self).td == old(self).td,
            old(self).disk_view().len() <= final(self).disk_view().len() <= old(
                self,
            ).disk_view().len() + 1,
            forall|k: int|
                0 <= k < old(self).disk_view().len() ==> final(self).disk_view()[k] == old(
                    self,
                ).disk_view()[k],
            r is Ok ==> {
                let rid = r->Ok_0;
                let f = crate::buffer_pool::cached_frame(final(pool).frames@, rid.page_id);
                let vu = crate::buffer_pool::visible_used(
                    *old(pool),
                    *final(self),
                    rid.page_id.page_number as int,
                );
                &&& rid.page_id.table_id == old(self).id
                &&& rid.page_id.page_number < final(self).disk_view().len()
                &&& crate::lock_manager::spec_holds(
                    final(pool).lock_manager@,
                    tid,
                    rid.page_id,
                ) == Some(crate::lock_manager::LockMode::Exclusive)
                &&& crate::buffer_pool::is_cached(final(pool).frames@, rid.page_id)
                &&& f.dirty && f.owner == tid.id
                &&& rid.slot_number < f.page.used@.len() && f.page.used@[rid.slot_number as int]
                &&& f.page.slots_view()[rid.slot_number as int] == t.spec_bytes()
                &&& forall|pn2: int|
                    0 <= pn2 < rid.page_id.page_number as int ==> crate::buffer_pool::page_full(
                        *old(pool),
                        *old(self),
                        pn2,
                    )
                &&& rid.slot_number < vu.len() && !vu[rid.slot_number as int]
                &&& forall|j: int| 0 <= j < rid.slot_number as int ==> vu[j]
            },
            forall|t2: crate::transaction::TransactionId, p2: HeapPageId|
                t2 != tid ==> crate::lock_manager::spec_holds(final(pool).lock_manager@, t2, p2)
                    == crate::lock_manager::spec_holds(old(pool).lock_manager@, t2, p2),
            r is Err ==> (r->Err_0 == DbError::Wait || r->Err_0 == DbError::Abort || r->Err_0
                == DbError::IoError),
            // success is owed: with no other transaction holding any lock,
            // page numbers to spare, and no frame cached past the file's
            // end, the insert cannot fail
            (forall|i: int|
                0 <= i < old(pool).lock_manager@.len() ==> (#[trigger] old(pool).lock_manager@[i]).tid == tid) && old(self).disk_view().len() < u32::MAX - 1
                && !crate::buffer_pool::is_cached(
                old(pool).frames@,
                HeapPageId {
                    table_id: old(self).id,
                    page_number: old(self).disk_view().len() as u32,
                },
            ) ==> r is Ok,
    {
        pool.insert_tuple(self, tid, t)
    }

    /// Deletes the tuple at its record identifier from this file through
    /// the buffer pool. See `BufferPool::delete_tuple` for the full
    /// contract.
    pub fn delete_tuple(
        &self,
        pool: &mut crate::buffer_pool::BufferPool,
        tid: crate::transaction::TransactionId,
        t: &crate::tuple::Tuple,
    ) -> (r: Result<(), DbError>)
        requires
            old(pool).wf(),
            self.wf(),
            forall|i: int|
                0 <= i < old(pool).frames@.len() && (#[trigger] old(
                    pool,
                ).frames@[i]).pid.table_id == self.id ==> old(pool).frames@[i].page.td.matches(
                    self.td,
                ),
        ensures
            final(pool).wf(),
            r is Ok ==> t.rid is Some,
            r is Ok ==> {
                let rid = t.rid->0;
                let f = crate::buffer_pool::cached_frame(final(pool).frames@, rid.page_id);
                &&& rid.page_id.table_id == self.id
                &&& crate::lock_manager::spec_holds(
                    final(pool).lock_manager@,
                    tid,
                    rid.page_id,
                ) == Some(crate::lock_manager::LockMode::Exclusive)
                &&& crate::buffer_pool::is_cached(final(pool).frames@, rid.page_id)
                &&& f.dirty && f.owner == tid.id
                &&& rid.slot_number < f.page.used@.len() && !f.page.used@[rid.slot_number as int]
                &&& f.page.used@ == crate::buffer_pool::visible_used(
                    *old(pool),
                    *self,
                    rid.page_id.page_number as int,
                ).update(rid.slot_number as int, false)
                &&& crate::buffer_pool::visible_used(
                    *old(pool),
                    *self,
                    rid.page_id.page_number as int,
                )[rid.slot_number as int]
            },
            forall|t2: crate::transaction::TransactionId, p2: HeapPageId|
                t2 != tid ==> crate::lock_manager::spec_holds(final(pool).lock_manager@, t2, p2)
                    == crate::lock_manager::spec_holds(old(pool).lock_manager@, t2, p2),
            r is Err ==> (r->Err_0 == DbError::Wait || r->Err_0 == DbError::Abort || r->Err_0
                == DbError::IoError || r->Err_0 == DbError::NotFound),
            // success is owed: a live record of this table, deletable
            // without conflict, is deleted
            (t.rid is Some && (t.rid->0).page_id.table_id == self.id && (forall|i: int|
                0 <= i < old(pool).lock_manager@.len() ==> (#[trigger] old(pool).lock_manager@[i]).tid == tid) && (crate::buffer_pool::is_cached(
                old(pool).frames@,
                (t.rid->0).page_id,
            ) || (t.rid->0).page_id.page_number < self.disk_view().len()) && (
            t.rid->0).slot_number < crate::buffer_pool::visible_used(
                *old(pool),
                *self,
                (t.rid->0).page_id.page_number as int,
            ).len() && crate::buffer_pool::visible_used(
                *old(pool),
                *self,
                (t.rid->0).page_id.page_number as int,
            )[(t.rid->0).slot_number as int] ==> r is Ok),
    {
        pool.delete_tuple(self, tid, t)
    }

    /// An iterator over this file's pages under `tid`; iteration is pure
    /// traversal, each step fetching one page through the buffer pool.
    pub fn iter(&self, tid: crate::transaction::TransactionId) -> (r: HeapFileIterator)
        ensures
            r.table_id == self.id,
            r.tid == tid,
            r.current_page_index == 0,
    {
        HeapFileIterator { table_id: self.id, current_page_index: 0, tid }
    }
}

/// Walks a heap file's pages in page-number order, fetching each through
/// the buffer pool under its transaction (taking shared locks).
pub struct HeapFileIterator {
    pub table_id: u64,
    pub current_page_index: u32,
    pub tid: crate::transaction::TransactionId,
}

impl HeapFileIterator {
    /// Fetches page `current_page_index` of the table through the buffer
    /// pool under a shared lock and advances by one, so a full run yields
    /// the table's pages in ascending page-number order, each exactly
    /// once. `Ok(None)` comes exactly past the last page or for an
    /// unknown table; within range the WAIT-DIE outcome on the shared
    /// lock decides between the page, `Wait`, and `Abort`, and the page
    /// returned shows exactly what the table shows through the pool.
    pub fn next(&mut self, db: &mut crate::database::Database) -> (r: Result<
        Option<HeapPage>,
        DbError,
    >)
        requires
            old(db).wf(),
        ensures
            final(db).wf(),
            final(db).catalog == old(db).catalog,
            final(self).table_id == old(self).table_id,
            final(self).tid == old(self).tid,
            (r is Ok && r->Ok_0 is None) <==> (!crate::catalog::has_table_id(
                old(db).catalog.entries@,
                old(self).table_id,
            ) || old(self).current_page_index as int >= crate::catalog::table_by_id(
                old(db).catalog.entries@,
                old(self).table_id,
            ).disk_view().len()),
            (r is Ok && r->Ok_0 is None) ==> *final(db) == *old(db) && *final(self) == *old(
                self,
            ),
            crate::catalog::has_table_id(old(db).catalog.entries@, old(self).table_id) && (old(
                self,
            ).current_page_index as int) < crate::catalog::table_by_id(
                old(db).catalog.entries@,
                old(self).table_id,
            ).disk_view().len() ==> {
                let pid = HeapPageId {
                    table_id: old(self).table_id,
                    page_number: old(self).current_page_index,
                };
                &&& (r == Err::<Option<HeapPage>, DbError>(DbError::InvalidState) <==> !old(
                    db,
                ).is_active_spec(old(self).tid))
                &&& (old(db).is_active_spec(old(self).tid) ==> {
                    let outcome = crate::lock_manager::wait_die_outcome(
                        old(db).buffer_pool.lock_manager@,
                        old(self).tid,
                        pid,
                        crate::lock_manager::LockMode::Shared,
                    );
                    &&& ((r is Ok && r->Ok_0 is Some) <==> outcome is Granted)
                    &&& (r == Err::<Option<HeapPage>, DbError>(DbError::Wait) <==> outcome is Wait)
                    &&& (r == Err::<Option<HeapPage>, DbError>(DbError::Abort) <==> outcome is Die)
                })
            },
            r is Ok && r->Ok_0 is Some ==> {
                let p = r->Ok_0->0;
                let pid = HeapPageId {
                    table_id: old(self).table_id,
                    page_number: old(self).current_page_index,
                };
                &&& p.wf()
                &&& p.pid == pid
                &&& final(self).current_page_index == old(self).current_page_index + 1
                &&& final(db).tx_states == old(db).tx_states
                &&& crate::buffer_pool::is_cached(final(db).buffer_pool.frames@, pid)
                &&& crate::buffer_pool::page_views_eq(
                    p,
                    crate::buffer_pool::cached_frame(final(db).buffer_pool.frames@, pid).page,
                )
                &&& (crate::buffer_pool::is_cached(old(db).buffer_pool.frames@, pid)
                    ==> crate::buffer_pool::cached_frame(final(db).buffer_pool.frames@, pid)
                    == crate::buffer_pool::cached_frame(old(db).buffer_pool.frames@, pid))
                &&& (!crate::buffer_pool::is_cached(old(db).buffer_pool.frames@, pid)
                    ==> crate::buffer_pool::clean_load_from(
                    crate::buffer_pool::cached_frame(final(db).buffer_pool.frames@, pid),
                    crate::catalog::table_by_id(old(db).catalog.entries@, old(self).table_id),
                ))
            },
            r is Err ==> *final(self) == *old(self) && (r->Err_0 == DbError::InvalidState
                || r->Err_0 == DbError::Wait || r->Err_0 == DbError::Abort),
            crate::catalog::has_table_id(old(db).catalog.entries@, old(self).table_id)
                ==> crate::buffer_pool::frames_evolve(
                old(db).buffer_pool.frames@,
                final(db).buffer_pool.frames@,
                crate::catalog::table_by_id(old(db).catalog.entries@, old(self).table_id),
            ),
            !(r == Err::<Option<HeapPage>, DbError>(DbError::Abort))
                ==> crate::buffer_pool::dirty_frames_kept(
                old(db).buffer_pool.frames@,
                final(db).buffer_pool.frames@,
            ) && final(db).tx_states == old(db).tx_states,
            forall|t2: crate::transaction::TransactionId, p2: HeapPageId|
                t2 != old(self).tid ==> crate::lock_manager::spec_holds(
                    final(db).buffer_pool.lock_manager@,
                    t2,
                    p2,
                ) == crate::lock_manager::spec_holds(old(db).buffer_pool.lock_manager@, t2, p2),
            r == Err::<Option<HeapPage>, DbError>(DbError::Abort) ==> final(db).tx_states@ == old(
                db,
            ).tx_states@.update(old(self).tid.id as int, crate::transaction::TxState::Aborted)
                && (forall|p2: HeapPageId|
                crate::lock_manager::spec_holds(
                    final(db).buffer_pool.lock_manager@,
                    old(self).tid,
                    p2,
                ) is None),
    {
        let idx = match db.get_catalog().index_of_id(self.table_id) {
            Some(i) => i,
            None => {
                return Ok(None);
            },
        };
        let n = db.catalog.entries[idx].file.num_pages();
        if (self.current_page_index as usize) >= n {
            return Ok(None);
        }
        proof {
            // the file is well formed, so one more page number still fits
            assert(db.catalog.entries@[idx as int].file.wf());
        }
        let pid = HeapPageId { table_id: self.table_id, page_number: self.current_page_index };
        match db.get_page(self.tid, pid, crate::heap_page::Permission::Read) {
            Ok(page) => {
                self.current_page_index = self.current_page_index + 1;
                Ok(Some(page))
            },
            Err(e) => Err(e),
        }
    }
}

/// A page parsed off the zero image has no slot occupied: a freshly
/// allocated page is empty.
pub proof fn lemma_zero_image_page_empty(p: HeapPage)
    requires
        p.wf(),
        page_parses_from(p, zero_page_image()),
    ensures
        forall|s: int| 0 <= s < p.used@.len() ==> !(#[trigger] p.used@[s]),
{
    crate::tuple::lemma_types_size_lower(p.td.types@);
    lemma_page_geometry(p.td.spec_tuple_size());
    assert forall|s: int| 0 <= s < p.used@.len() implies !(#[trigger] p.used@[s]) by {
        let ns = p.spec_num_slots() as int;
        let hs = header_size(p.spec_num_slots()) as int;
        assert(0 <= s / 8 < PAGE_SIZE);
        assert(zero_page_image()[s / 8] == 0u8);
        lemma_zero_bit((s % 8) as u8);
        assert(!spec_bit(0u8, s % 8));
        assert(p.used@[s] == spec_bit(zero_page_image()[s / 8], s % 8));
    }
}

} // verus!
