use kvtxn::bound_range::BoundRange;
use kvtxn::client::{Client, Snapshot};
use kvtxn::error::Error;
use kvtxn::key::Key;
use kvtxn::store::MemStore;
use kvtxn::timestamp::{Timestamp, MAX_PHYSICAL};
use kvtxn::transaction::{Mutation, Transaction, TxnState};

fn k(s: &str) -> Key {
    Key::from_str_bytes(s)
}

fn v(s: &str) -> Vec<u8> {
    s.as_bytes().to_vec()
}

fn pairs(entries: &[(Key, Vec<u8>)]) -> Vec<(Vec<u8>, Vec<u8>)> {
    entries.iter().map(|(a, b)| (a.as_bytes().clone(), b.clone())).collect()
}

#[test]
fn set_then_get_reads_own_write_without_store() {
    let mut t = Transaction::begin(Timestamp { version: 10 });
    t.set(k("k"), v("v")).unwrap();
    match t.get_buffered(&k("k")).unwrap() {
        Some(Mutation::Put(x)) => assert_eq!(x, v("v")),
        _ => panic!("expected a buffered put"),
    }
    // The snapshot value handed in is ignored when the key is buffered.
    assert_eq!(t.get(&k("k"), Some(v("old"))).unwrap(), v("v"));
    assert_eq!(t.get(&k("k"), None).unwrap(), v("v"));
}

#[test]
fn last_write_wins_within_transaction() {
    let mut t = Transaction::begin(Timestamp { version: 1 });
    t.set(k("a"), v("1")).unwrap();
    t.set(k("a"), v("2")).unwrap();
    assert_eq!(t.get(&k("a"), None).unwrap(), v("2"));
    t.delete(k("a")).unwrap();
    assert_eq!(t.get(&k("a"), Some(v("s"))), Err(Error::KeyNotFound));
    assert_eq!(t.mutations().len(), 1);
}

#[test]
fn unbuffered_get_uses_snapshot_value() {
    let t = Transaction::begin(Timestamp { version: 1 });
    assert_eq!(t.get(&k("x"), Some(v("s"))).unwrap(), v("s"));
    assert_eq!(t.get(&k("x"), None), Err(Error::KeyNotFound));
    assert!(t.get_buffered(&k("x")).unwrap().is_none());
}

#[test]
fn buffer_is_ordered_by_key() {
    let mut t = Transaction::begin(Timestamp { version: 1 });
    t.set(k("c"), v("3")).unwrap();
    t.set(k("a"), v("1")).unwrap();
    t.delete(k("b")).unwrap();
    let keys: Vec<Vec<u8>> = t.mutations().iter().map(|(key, _)| key.as_bytes().clone()).collect();
    assert_eq!(keys, vec![v("a"), v("b"), v("c")]);
}

#[test]
fn scan_merges_buffer_over_snapshot() {
    let mut t = Transaction::begin(Timestamp { version: 1 });
    t.delete(k("b")).unwrap();
    t.set(k("c"), v("new")).unwrap();
    t.set(k("e"), v("e")).unwrap();
    t.set(k("z"), v("out")).unwrap();
    let snapshot = vec![(k("a"), v("a")), (k("b"), v("b")), (k("c"), v("old")), (k("d"), v("d")), (k("q"), v("q"))];
    let r = t.scan(BoundRange::from(k("a")..k("f")), &snapshot).unwrap();
    assert_eq!(
        pairs(&r),
        vec![(v("a"), v("a")), (v("c"), v("new")), (v("d"), v("d")), (v("e"), v("e"))]
    );
}

#[test]
fn deleted_key_is_omitted_from_scan() {
    let mut t = Transaction::begin(Timestamp { version: 1 });
    t.delete(k("k")).unwrap();
    let snapshot = vec![(k("k"), v("v"))];
    let r = t.scan(BoundRange::from(k("a")..), &snapshot).unwrap();
    assert!(r.is_empty());
}

#[test]
fn scan_of_closed_range_includes_end() {
    let t = Transaction::begin(Timestamp { version: 1 });
    let snapshot = vec![(k("z"), v("1")), (k("a"), v("2")), (k("z\0"), v("3"))];
    let r = t.scan(BoundRange::from(k("a")..=k("z")), &snapshot).unwrap();
    assert_eq!(pairs(&r), vec![(v("a"), v("2")), (v("z"), v("1"))]);
}

#[test]
fn closed_transaction_rejects_operations() {
    let mut t = Transaction::begin(Timestamp { version: 1 });
    t.rollback().unwrap();
    assert_eq!(t.state(), TxnState::RolledBack);
    assert_eq!(t.set(k("a"), v("1")), Err(Error::TransactionClosed));
    assert_eq!(t.delete(k("a")), Err(Error::TransactionClosed));
    assert_eq!(t.get(&k("a"), None), Err(Error::TransactionClosed));
    assert!(t.scan(BoundRange::from(k("a")..), &vec![]).is_err());
    assert_eq!(t.start_commit(), Err(Error::TransactionClosed));
    assert_eq!(t.rollback(), Err(Error::TransactionClosed));
}

#[test]
fn state_machine_commit_path() {
    let mut t = Transaction::begin(Timestamp { version: 5 });
    t.set(k("a"), v("1")).unwrap();
    t.start_commit().unwrap();
    assert_eq!(t.state(), TxnState::Prewriting);
    assert_eq!(t.set(k("b"), v("1")), Err(Error::TransactionClosed));
    t.finish_prewrite(Ok(())).unwrap();
    assert_eq!(t.finish_primary_commit(true), Err(Error::TransactionClosed));
    t.assign_commit_timestamp(Timestamp { version: 6 }).unwrap();
    assert_eq!(t.state(), TxnState::Committing);
    t.finish_primary_commit(true).unwrap();
    assert_eq!(t.state(), TxnState::Committed);
    assert_eq!(t.commit_timestamp(), Some(Timestamp { version: 6 }));
    assert_eq!(t.start_timestamp(), Timestamp { version: 5 });
}

#[test]
fn prewrite_failure_rolls_back() {
    let mut t = Transaction::begin(Timestamp { version: 5 });
    t.start_commit().unwrap();
    assert_eq!(t.finish_prewrite(Err(Error::WriteConflict)), Err(Error::WriteConflict));
    assert_eq!(t.state(), TxnState::RolledBack);
}

#[test]
fn stale_commit_timestamp_fails_commit() {
    let mut t = Transaction::begin(Timestamp { version: 5 });
    t.start_commit().unwrap();
    t.finish_prewrite(Ok(())).unwrap();
    assert_eq!(t.assign_commit_timestamp(Timestamp { version: 5 }), Err(Error::CommitFailure));
    assert_eq!(t.state(), TxnState::RolledBack);
    assert_eq!(t.commit_timestamp(), None);
}

#[test]
fn primary_commit_failure_is_surfaced() {
    let mut t = Transaction::begin(Timestamp { version: 5 });
    t.start_commit().unwrap();
    t.finish_prewrite(Ok(())).unwrap();
    t.assign_commit_timestamp(Timestamp { version: 9 }).unwrap();
    assert_eq!(t.finish_primary_commit(false), Err(Error::CommitFailure));
    assert_eq!(t.state(), TxnState::RolledBack);
    assert_eq!(t.rollback(), Err(Error::TransactionClosed));
}

#[test]
fn end_to_end_commit_then_snapshots() {
    let mut c = Client::new();
    let before = c.snapshot(100).unwrap();
    let mut tx = c.begin(100).unwrap();
    tx.set(k("k1"), v("v1")).unwrap();
    c.commit(&mut tx, 100).unwrap();
    let commit_ts = tx.commit_timestamp().unwrap();
    assert!(commit_ts.version > tx.start_timestamp().version);
    let after = c.snapshot(100).unwrap();
    assert_eq!(after.get(c.store(), &k("k1")).unwrap(), v("v1"));
    assert_eq!(before.get(c.store(), &k("k1")), Err(Error::KeyNotFound));
    assert_eq!(Snapshot::new(commit_ts).get(c.store(), &k("k1")).unwrap(), v("v1"));
    assert_eq!(tx.set(k("k2"), v("v2")), Err(Error::TransactionClosed));
}

#[test]
fn snapshot_ignores_later_commits() {
    let mut c = Client::new();
    let mut t1 = c.begin(1).unwrap();
    t1.set(k("a"), v("1")).unwrap();
    c.commit(&mut t1, 1).unwrap();
    let snap = c.snapshot(1).unwrap();
    let mut t2 = c.begin(2).unwrap();
    t2.set(k("a"), v("2")).unwrap();
    t2.set(k("b"), v("2")).unwrap();
    c.commit(&mut t2, 2).unwrap();
    assert_eq!(snap.get(c.store(), &k("a")).unwrap(), v("1"));
    assert_eq!(snap.get(c.store(), &k("b")), Err(Error::KeyNotFound));
    assert_eq!(pairs(&snap.scan(c.store(), BoundRange::from(k("a")..))), vec![(v("a"), v("1"))]);
    let now = c.snapshot(2).unwrap();
    assert_eq!(pairs(&now.scan(c.store(), BoundRange::from(k("a")..))), vec![(v("a"), v("2")), (v("b"), v("2"))]);
}

#[test]
fn disjoint_transactions_both_commit() {
    let mut c = Client::new();
    let mut t1 = c.begin(1).unwrap();
    let mut t2 = c.begin(1).unwrap();
    t1.set(k("a"), v("1")).unwrap();
    t2.set(k("b"), v("2")).unwrap();
    c.commit(&mut t1, 1).unwrap();
    c.commit(&mut t2, 1).unwrap();
    let s = c.snapshot(1).unwrap();
    assert_eq!(s.get(c.store(), &k("a")).unwrap(), v("1"));
    assert_eq!(s.get(c.store(), &k("b")).unwrap(), v("2"));
}

#[test]
fn overlapping_transactions_conflict() {
    let mut c = Client::new();
    let mut t1 = c.begin(1).unwrap();
    let mut t2 = c.begin(1).unwrap();
    t1.set(k("a"), v("1")).unwrap();
    t2.set(k("a"), v("2")).unwrap();
    c.commit(&mut t1, 1).unwrap();
    assert_eq!(c.commit(&mut t2, 1), Err(Error::WriteConflict));
    assert_eq!(t2.state(), TxnState::RolledBack);
    let s = c.snapshot(1).unwrap();
    assert_eq!(s.get(c.store(), &k("a")).unwrap(), v("1"));
}

#[test]
fn lock_held_by_prewrite_blocks_other_prewrite() {
    let mut store = MemStore::new();
    let mut t1 = Transaction::begin(Timestamp { version: 1 });
    t1.set(k("a"), v("1")).unwrap();
    let mut t2 = Transaction::begin(Timestamp { version: 2 });
    t2.set(k("a"), v("2")).unwrap();
    store.prewrite(t1.mutations(), 1).unwrap();
    assert_eq!(store.prewrite(t2.mutations(), 2), Err(Error::KeyLocked));
    assert_eq!(store.commit(t2.mutations(), 2, 3), Err(Error::CommitFailure));
    store.commit(t1.mutations(), 1, 3).unwrap();
    assert_eq!(store.read(&k("a"), 3), Some(v("1")));
    assert_eq!(store.read(&k("a"), 2), None);
}

#[test]
fn client_rollback_releases_locks() {
    let mut c = Client::new();
    let mut t1 = c.begin(1).unwrap();
    t1.set(k("a"), v("1")).unwrap();
    c.rollback(&mut t1).unwrap();
    assert_eq!(t1.state(), TxnState::RolledBack);
    assert_eq!(c.rollback(&mut t1), Err(Error::TransactionClosed));
    assert_eq!(c.commit(&mut t1, 1), Err(Error::TransactionClosed));
    let mut t2 = c.begin(1).unwrap();
    t2.set(k("a"), v("2")).unwrap();
    c.commit(&mut t2, 1).unwrap();
}

#[test]
fn client_reads_and_scans_through_buffer() {
    let mut c = Client::new();
    let mut t1 = c.begin(1).unwrap();
    t1.set(k("a"), v("1")).unwrap();
    t1.set(k("b"), v("1")).unwrap();
    c.commit(&mut t1, 1).unwrap();
    let mut t2 = c.begin(1).unwrap();
    assert_eq!(c.get(&t2, &k("a")).unwrap(), v("1"));
    t2.delete(k("a")).unwrap();
    t2.set(k("c"), v("3")).unwrap();
    assert_eq!(c.get(&t2, &k("a")), Err(Error::KeyNotFound));
    assert_eq!(c.get(&t2, &k("c")).unwrap(), v("3"));
    let r = c.scan(&t2, BoundRange::from(k("a")..=k("c"))).unwrap();
    assert_eq!(pairs(&r), vec![(v("b"), v("1")), (v("c"), v("3"))]);
}

#[test]
fn begin_with_timestamp_and_current_timestamp() {
    let mut c = Client::new();
    let t = c.current_timestamp(7).unwrap();
    assert_eq!(t, Timestamp::from_parts(7, 0));
    let tx = c.begin_with_timestamp(t);
    assert_eq!(tx.start_timestamp(), t);
    assert_eq!(tx.state(), TxnState::Active);
    assert!(c.current_timestamp(7).unwrap().version > t.version);
}

#[test]
fn failure_after_prewrite_is_commit_failure() {
    let mut c = Client::new();
    let mut tx = c.begin(1).unwrap();
    tx.set(k("a"), v("1")).unwrap();
    assert_eq!(c.commit(&mut tx, MAX_PHYSICAL + 1), Err(Error::CommitFailure));
    assert_eq!(tx.state(), TxnState::RolledBack);
    assert_eq!(tx.get(&k("a"), None), Err(Error::TransactionClosed));
    // The locks were released: another transaction may write the key.
    let mut t2 = c.begin(2).unwrap();
    t2.set(k("a"), v("2")).unwrap();
    c.commit(&mut t2, 2).unwrap();
}

#[test]
fn refused_rollback_keeps_transaction() {
    let mut c = Client::new();
    let mut tx = c.begin(1).unwrap();
    tx.set(k("a"), v("1")).unwrap();
    c.commit(&mut tx, 1).unwrap();
    let commit_ts = tx.commit_timestamp();
    assert_eq!(c.rollback(&mut tx), Err(Error::TransactionClosed));
    assert_eq!(tx.state(), TxnState::Committed);
    assert_eq!(tx.commit_timestamp(), commit_ts);
    assert_eq!(tx.mutations().len(), 1);
}
