use heapstore::buffer_pool::DEFAULT_PAGES;
use heapstore::database::Database;
use heapstore::errors::DbError;
use heapstore::fields::{FieldVal, IntField, StringField};
use heapstore::heap_file::HeapFile;
use heapstore::heap_page::{HeapPageId, Permission};
use heapstore::lock_manager::{LockManager, LockMode, LockOutcome};
use heapstore::transaction::{TransactionId, TxState};
use heapstore::tuple::{Tuple, TupleDesc};
use heapstore::types::Type;

fn demo_desc() -> TupleDesc {
    TupleDesc::new(
        vec![Type::IntType, Type::StringType],
        vec!["id".to_string(), "name".to_string()],
    )
}

fn demo_tuple(id: i32, name: &str) -> Tuple {
    Tuple::new(
        vec![
            FieldVal::IntField(IntField::new(id)),
            FieldVal::StringField(StringField::new(name.to_string(), name.len() as u32)),
        ],
        &demo_desc(),
    )
}

fn db_with_table() -> (Database, u64) {
    let mut db = Database::new();
    let file = HeapFile::with_id(demo_desc(), 1);
    db.add_table(file, "employees".to_string()).unwrap();
    (db, 1)
}

fn scan_ids(db: &mut Database, table_id: u64) -> Vec<i32> {
    let tid = db.begin_transaction();
    let mut ids = Vec::new();
    let n = db
        .get_catalog()
        .get_table_from_id(table_id)
        .unwrap()
        .num_pages();
    for pn in 0..n {
        let page = db
            .get_page(tid, HeapPageId::new(table_id, pn as u32), Permission::Read)
            .unwrap();
        for t in page.tuples().unwrap() {
            match t.get_field(0).unwrap() {
                FieldVal::IntField(g) => ids.push(g.get_value()),
                _ => panic!("wrong kind"),
            }
        }
    }
    db.commit_transaction(tid).unwrap();
    ids
}

#[test]
fn transaction_ids_increase_and_states_track() {
    let mut db = Database::new();
    let t1 = db.begin_transaction();
    let t2 = db.begin_transaction();
    assert!(t1.get_tid() < t2.get_tid());
    assert_eq!(db.transaction_state(t1), Some(TxState::Active));
    db.commit_transaction(t1).unwrap();
    assert_eq!(db.transaction_state(t1), Some(TxState::Committed));
    db.abort_transaction(t2).unwrap();
    assert_eq!(db.transaction_state(t2), Some(TxState::Aborted));
    // terminal states refuse further work
    assert_eq!(db.commit_transaction(t1).unwrap_err(), DbError::InvalidState);
    assert_eq!(db.abort_transaction(t2).unwrap_err(), DbError::InvalidState);
}

#[test]
fn shared_locks_coexist_exclusive_excludes() {
    let mut lm = LockManager::new();
    let p = HeapPageId::new(1, 0);
    let t1 = TransactionId::new(1);
    let t2 = TransactionId::new(2);
    assert_eq!(lm.acquire_lock(t1, p, LockMode::Shared), LockOutcome::Granted);
    assert_eq!(lm.acquire_lock(t2, p, LockMode::Shared), LockOutcome::Granted);
    assert_eq!(lm.holds_lock(t1, p), Some(LockMode::Shared));
    assert_eq!(lm.holds_lock(t2, p), Some(LockMode::Shared));
    // an upgrade must deny the other reader: t1 is older, so it waits
    assert_eq!(lm.acquire_lock(t1, p, LockMode::Exclusive), LockOutcome::Wait);
    lm.release_all_locks(t2);
    assert_eq!(lm.acquire_lock(t1, p, LockMode::Exclusive), LockOutcome::Granted);
    assert_eq!(lm.holds_lock(t1, p), Some(LockMode::Exclusive));
    // exactly one side can hold the exclusive lock: the younger requester dies
    assert_eq!(lm.acquire_lock(t2, p, LockMode::Exclusive), LockOutcome::Die);
    assert_eq!(lm.holds_lock(t2, p), None);
}

#[test]
fn wait_die_older_waits_younger_dies() {
    let mut lm = LockManager::new();
    let p = HeapPageId::new(1, 0);
    let old_tx = TransactionId::new(1);
    let young_tx = TransactionId::new(9);
    // the younger transaction holds the page exclusively
    assert_eq!(
        lm.acquire_lock(young_tx, p, LockMode::Exclusive),
        LockOutcome::Granted
    );
    // the older requester never dies: it waits
    assert_eq!(lm.acquire_lock(old_tx, p, LockMode::Shared), LockOutcome::Wait);
    assert_eq!(
        lm.acquire_lock(old_tx, p, LockMode::Exclusive),
        LockOutcome::Wait
    );
    lm.release_all_locks(young_tx);
    // and is granted once the holder releases
    assert_eq!(
        lm.acquire_lock(old_tx, p, LockMode::Exclusive),
        LockOutcome::Granted
    );
    // now the younger side requests against the older holder: it dies at once
    assert_eq!(
        lm.acquire_lock(young_tx, p, LockMode::Shared),
        LockOutcome::Die
    );
}

#[test]
fn lock_conflict_through_buffer_pool() {
    // a transaction holds page 0 exclusively; an older one waits, a
    // younger one is aborted at once
    let (mut db, table_id) = db_with_table();
    let t_older = db.begin_transaction();
    let t_holder = db.begin_transaction();
    let t_younger = db.begin_transaction();
    db.insert_tuple(t_holder, table_id, &demo_tuple(1, "h")).unwrap();
    let p0 = HeapPageId::new(table_id, 0);

    let waited = db.get_page(t_older, p0, Permission::Write);
    assert_eq!(waited.unwrap_err(), DbError::Wait);
    assert_eq!(db.transaction_state(t_older), Some(TxState::Active));

    let died = db.get_page(t_younger, p0, Permission::Write);
    assert_eq!(died.unwrap_err(), DbError::Abort);
    assert_eq!(db.transaction_state(t_younger), Some(TxState::Aborted));

    // after the holder commits, the older waiter is granted promptly
    db.commit_transaction(t_holder).unwrap();
    assert!(db.get_page(t_older, p0, Permission::Write).is_ok());
    db.commit_transaction(t_older).unwrap();
}

#[test]
fn commit_makes_writes_durable_across_restart() {
    let (mut db, table_id) = db_with_table();
    let tid = db.begin_transaction();
    db.insert_tuple(tid, table_id, &demo_tuple(41, "Ada")).unwrap();
    db.insert_tuple(tid, table_id, &demo_tuple(42, "Lin")).unwrap();

    // before commit nothing is on disk: the file still has one page image
    // holding no tuple data beyond the empty page appended at allocation
    let images_before: Vec<Vec<u8>> = db.get_catalog().get_table_from_id(table_id).unwrap().disk.clone();
    assert!(images_before.iter().all(|img| img.iter().all(|b| *b == 0)));

    db.commit_transaction(tid).unwrap();

    // simulate a process restart: rebuild a database from the file images
    // alone, as an embedding process would after reloading the file
    let old_file = db.get_catalog().get_table_from_id(table_id).unwrap();
    let revived = HeapFile {
        id: old_file.id,
        td: demo_desc(),
        disk: old_file.disk.clone(),
    };
    let mut db2 = Database::new();
    db2.add_table(revived, "employees".to_string()).unwrap();
    assert_eq!(scan_ids(&mut db2, table_id), vec![41, 42]);
}

#[test]
fn abort_leaves_no_trace() {
    let (mut db, table_id) = db_with_table();

    let setup = db.begin_transaction();
    db.insert_tuple(setup, table_id, &demo_tuple(1, "keep")).unwrap();
    db.commit_transaction(setup).unwrap();
    let images_before: Vec<Vec<u8>> =
        db.get_catalog().get_table_from_id(table_id).unwrap().disk.clone();

    let tid = db.begin_transaction();
    db.insert_tuple(tid, table_id, &demo_tuple(2, "drop")).unwrap();
    db.abort_transaction(tid).unwrap();

    // the file images are untouched by the aborted transaction
    let images_after: Vec<Vec<u8>> =
        db.get_catalog().get_table_from_id(table_id).unwrap().disk.clone();
    assert_eq!(images_before, images_after);

    // a fresh read sees none of its writes
    assert_eq!(scan_ids(&mut db, table_id), vec![1]);
}

#[test]
fn delete_clears_slot_and_stale_rid_errors() {
    let (mut db, table_id) = db_with_table();
    let t0 = db.begin_transaction();
    db.insert_tuple(t0, table_id, &demo_tuple(1, "a")).unwrap();
    db.insert_tuple(t0, table_id, &demo_tuple(2, "b")).unwrap();
    db.commit_transaction(t0).unwrap();

    // fetch a record id through a scan
    let t1 = db.begin_transaction();
    let page = db
        .get_page(t1, HeapPageId::new(table_id, 0), Permission::Read)
        .unwrap();
    let victim = page.tuples().unwrap().remove(0);
    db.delete_tuple(t1, table_id, &victim).unwrap();
    db.commit_transaction(t1).unwrap();

    assert_eq!(scan_ids(&mut db, table_id), vec![2]);

    // the record id dangles now: deleting again reports NotFound
    let t2 = db.begin_transaction();
    assert_eq!(
        db.delete_tuple(t2, table_id, &victim).unwrap_err(),
        DbError::NotFound
    );
    db.commit_transaction(t2).unwrap();
}

#[test]
fn pool_capacity_is_the_configured_count() {
    let db = Database::new();
    assert_eq!(db.get_buffer_pool().get_num_pages(), DEFAULT_PAGES);
    let db2 = Database::with_pool_capacity(2);
    assert_eq!(db2.get_buffer_pool().get_num_pages(), 2);
}

#[test]
fn eviction_under_small_pool_keeps_reads_correct() {
    let mut db = Database::with_pool_capacity(2);
    let file = HeapFile::with_id(demo_desc(), 1);
    db.add_table(file, "employees".to_string()).unwrap();

    // fill four pages, one transaction each so frames come back clean
    let slots_per_page = 15;
    for i in 0..(4 * slots_per_page) {
        let tid = db.begin_transaction();
        db.insert_tuple(tid, 1, &demo_tuple(i, "x")).unwrap();
        db.commit_transaction(tid).unwrap();
    }
    // reading them all back through a 2-frame pool evicts clean frames
    let ids = scan_ids(&mut db, 1);
    assert_eq!(ids.len(), (4 * slots_per_page) as usize);
    assert_eq!(ids, (0..(4 * slots_per_page)).collect::<Vec<i32>>());
}

#[test]
fn thousand_sequential_inserts_pack_pages() {
    let (mut db, table_id) = db_with_table();
    for i in 0..1000 {
        let tid = db.begin_transaction();
        db.insert_tuple(tid, table_id, &demo_tuple(i, "row")).unwrap();
        db.commit_transaction(tid).unwrap();
    }
    // 15 slots per page for this schema: ceil(1000 / 15) pages
    let pages = db
        .get_catalog()
        .get_table_from_id(table_id)
        .unwrap()
        .num_pages();
    assert_eq!(pages, 67);

    // every page but the last is full
    let tid = db.begin_transaction();
    for pn in 0..pages {
        let page = db
            .get_page(tid, HeapPageId::new(table_id, pn as u32), Permission::Read)
            .unwrap();
        let expected = if pn + 1 < pages { 15 } else { 1000 - 15 * (pages - 1) };
        assert_eq!(page.tuples().unwrap().len(), expected);
    }
    db.commit_transaction(tid).unwrap();

    // and a full scan yields all 1000 tuples in insertion order
    let ids = scan_ids(&mut db, table_id);
    assert_eq!(ids.len(), 1000);
    assert_eq!(ids, (0..1000).collect::<Vec<i32>>());
}

#[test]
fn three_transactions_interleaved_with_retry() {
    let (mut db, table_id) = db_with_table();

    // three writers of three tuples each, interleaved one insert at a
    // time; a writer killed by WAIT-DIE restarts with a fresh
    // transaction, a waiting one retries once the holder has finished
    let mut tids: [Option<heapstore::transaction::TransactionId>; 3] = [None, None, None];
    let mut inserted = [0usize; 3];
    let mut done = [false; 3];
    let mut guard = 0;
    while !done.iter().all(|d| *d) {
        guard += 1;
        assert!(guard < 1000, "writers made no progress");
        for w in 0..3usize {
            if done[w] {
                continue;
            }
            let tid = match tids[w] {
                Some(t) => t,
                None => {
                    let t = db.begin_transaction();
                    tids[w] = Some(t);
                    inserted[w] = 0;
                    t
                }
            };
            let t = demo_tuple((w * 3 + inserted[w]) as i32, "w");
            match db.insert_tuple(tid, table_id, &t) {
                Ok(_) => {
                    inserted[w] += 1;
                    if inserted[w] == 3 {
                        db.commit_transaction(tid).unwrap();
                        done[w] = true;
                        tids[w] = None;
                    }
                }
                Err(DbError::Wait) => {
                    // the holder finishes in its own turn; retry then
                }
                Err(DbError::Abort) => {
                    // killed by WAIT-DIE: restart this writer from scratch
                    tids[w] = None;
                }
                Err(e) => panic!("unexpected error {:?}", e),
            }
        }
    }

    let mut ids = scan_ids(&mut db, table_id);
    ids.sort();
    assert_eq!(ids, (0..9).collect::<Vec<i32>>());

    // no tuple was corrupted: every name reads back intact
    let tid = db.begin_transaction();
    let page = db
        .get_page(tid, HeapPageId::new(table_id, 0), Permission::Read)
        .unwrap();
    for t in page.tuples().unwrap() {
        match t.get_field(1).unwrap() {
            FieldVal::StringField(s) => assert_eq!(s.get_value(), "w"),
            _ => panic!("wrong kind"),
        }
    }
    db.commit_transaction(tid).unwrap();
}

#[test]
fn dirty_pages_never_evicted_before_commit() {
    // no-steal: with a single-frame pool, a transaction dirtying two
    // pages keeps both in memory — nothing uncommitted reaches the file
    let mut db = Database::with_pool_capacity(1);
    let file = HeapFile::with_id(demo_desc(), 1);
    db.add_table(file, "employees".to_string()).unwrap();

    let tid = db.begin_transaction();
    for i in 0..16 {
        // 15 tuples fill page 0; the 16th dirties page 1
        db.insert_tuple(tid, 1, &demo_tuple(i, "n")).unwrap();
    }
    let images = &db.get_catalog().get_table_from_id(1).unwrap().disk;
    assert_eq!(images.len(), 2);
    assert!(images.iter().all(|img| img.iter().all(|b| *b == 0)));

    db.commit_transaction(tid).unwrap();
    let ids = scan_ids(&mut db, 1);
    assert_eq!(ids, (0..16).collect::<Vec<i32>>());
}
