use vstd::prelude::*;

use crate::bound_range::{end_key, start_key, BoundRange};
use crate::error::Error;
use crate::key::Key;
use crate::store::{
    has_lock, key_conflict, locks_for, versions_for, visible, without_locks_of, MemStore, VersionView,
};
use crate::table::{keys_ascending, lookup};
use crate::timestamp::{next_version, Timestamp, TimestampOracle, MAX_PHYSICAL};
use crate::transaction::{in_scan_range, merged_value, read_through, Transaction, TxnState};

verus! {

/// A read-only view of the store fixed at one timestamp.
pub struct Snapshot {
    timestamp: Timestamp,
}

impl Snapshot {
    /// The snapshot at `timestamp`.
    pub fn new(timestamp: Timestamp) -> (r: Snapshot)
        ensures
            r.version() == timestamp.version,
    {
        Snapshot { timestamp }
    }

    /// The timestamp read at.
    pub closed spec fn version(&self) -> u64 {
        self.timestamp.version
    }

    /// The timestamp read at.
    pub fn timestamp(&self) -> (r: Timestamp)
        ensures
            r.version == self.version(),
    {
        self.timestamp
    }

    /// The value of `key` as of the snapshot; `KeyNotFound` where it is
    /// absent or deleted.
    pub fn get(&self, store: &MemStore, key: &Key) -> (r: Result<Vec<u8>, Error>)
        ensures
            match visible(store.versions(), key@, self.version()) {
                Some(v) => r is Ok && r->Ok_0@ == v,
                None => r == Err::<Vec<u8>, Error>(Error::KeyNotFound),
            },
    {
        match store.read(key, self.timestamp.version) {
            Some(v) => Ok(v),
            None => Err(Error::KeyNotFound),
        }
    }

    /// The entries of `range` as of the snapshot, in ascending key order.
    pub fn scan(&self, store: &MemStore, range: BoundRange) -> (r: Vec<(Key, Vec<u8>)>)
        ensures
            keys_ascending(r@),
            forall|k: Seq<u8>|
                lookup(r@, k) == if in_scan_range(k, start_key(range@.from), end_key(range@.to)) {
                    visible(store.versions(), k, self.version())
                } else {
                    None
                },
    {
        let (start, end) = range.into_keys();
        store.scan_at(&start, &end, self.timestamp.version)
    }
}

/// The entry point: a timestamp allocator and the store that transactions
/// and snapshots act on.
pub struct Client {
    oracle: TimestampOracle,
    store: MemStore,
}

impl Client {
    /// The allocator is well formed.
    pub closed spec fn wf(&self) -> bool {
        self.oracle.wf()
    }

    /// The allocator's greatest issued version.
    pub closed spec fn last_issued(&self) -> u64 {
        self.oracle.last_issued()
    }

    /// The store's committed changes.
    pub closed spec fn versions(&self) -> Seq<VersionView> {
        self.store.versions()
    }

    /// The store's locks.
    pub closed spec fn locks(&self) -> Seq<(Seq<u8>, u64)> {
        self.store.locks()
    }

    /// A client over an empty store whose allocator has issued nothing.
    pub fn new() -> (r: Client)
        ensures
            r.wf(),
            r.last_issued() == 0,
            r.versions() == Seq::<VersionView>::empty(),
            r.locks() == Seq::<(Seq<u8>, u64)>::empty(),
    {
        Client { oracle: TimestampOracle::new(), store: MemStore::new() }
    }

    /// The store.
    pub fn store(&self) -> (r: &MemStore)
        ensures
            r.versions() == self.versions(),
            r.locks() == self.locks(),
    {
        &self.store
    }

    /// A fresh timestamp, strictly after every one issued before; `now` is
    /// the physical time. Fails with `TimestampOverflow` as the allocator does.
    pub fn current_timestamp(&mut self, now: u64) -> (r: Result<Timestamp, Error>)
        requires
            old(self).wf(),
        ensures
            final(self).wf(),
            r is Ok <==> (now <= MAX_PHYSICAL && old(self).last_issued() < u64::MAX),
            r is Err ==> r->Err_0 == Error::TimestampOverflow && final(self).last_issued() == old(
                self,
            ).last_issued(),
            r is Ok ==> r->Ok_0.version == next_version(old(self).last_issued() as int, now as int)
                && r->Ok_0.version > old(self).last_issued() && final(self).last_issued()
                == r->Ok_0.version,
            final(self).versions() == old(self).versions(),
            final(self).locks() == old(self).locks(),
    {
        self.oracle.request_timestamp(now)
    }

    /// A new transaction reading at a fresh timestamp.
    pub fn begin(&mut self, now: u64) -> (r: Result<Transaction, Error>)
        requires
            old(self).wf(),
        ensures
            final(self).wf(),
            r is Ok <==> (now <= MAX_PHYSICAL && old(self).last_issued() < u64::MAX),
            r is Err ==> r->Err_0 == Error::TimestampOverflow,
            r is Ok ==> r->Ok_0.wf() && r->Ok_0.status() == TxnState::Active && r->Ok_0.buffered()
                .len() == 0 && r->Ok_0.start_version() == final(self).last_issued()
                && final(self).last_issued() > old(self).last_issued(),
            final(self).versions() == old(self).versions(),
            final(self).locks() == old(self).locks(),
    {
        let ts = self.current_timestamp(now)?;
        Ok(Transaction::begin(ts))
    }

    /// A new transaction reading at `timestamp`.
    pub fn begin_with_timestamp(&self, timestamp: Timestamp) -> (r: Transaction)
        ensures
            r.wf(),
            r.status() == TxnState::Active,
            r.buffered().len() == 0,
            r.start_version() == timestamp.version,
    {
        Transaction::begin(timestamp)
    }

    /// A snapshot at a fresh timestamp.
    pub fn snapshot(&mut self, now: u64) -> (r: Result<Snapshot, Error>)
        requires
            old(self).wf(),
        ensures
            final(self).wf(),
            r is Ok <==> (now <= MAX_PHYSICAL && old(self).last_issued() < u64::MAX),
            r is Err ==> r->Err_0 == Error::TimestampOverflow,
            r is Ok ==> r->Ok_0.version() == final(self).last_issued() && final(self).last_issued()
                > old(self).last_issued(),
            final(self).versions() == old(self).versions(),
            final(self).locks() == old(self).locks(),
    {
        let ts = self.current_timestamp(now)?;
        Ok(Snapshot::new(ts))
    }

    /// Reads `key` in `txn`: its own buffered change if there is one, with
    /// no store access, else the store as of the start timestamp.
    pub fn get(&self, txn: &Transaction, key: &Key) -> (r: Result<Vec<u8>, Error>)
        requires
            txn.wf(),
        ensures
            txn.status() != TxnState::Active ==> r == Err::<Vec<u8>, Error>(
                Error::TransactionClosed,
            ),
            txn.status() == TxnState::Active ==> match read_through(
                txn.buffered(),
                visible(self.versions(), key@, txn.start_version()),
                key@,
            ) {
                Some(v) => r is Ok && r->Ok_0@ == v,
                None => r == Err::<Vec<u8>, Error>(Error::KeyNotFound),
            },
    {
        let buffered = txn.get_buffered(key)?;
        let snapshot = match buffered {
            Some(_) => None,
            None => self.store.read(key, txn.start_timestamp().version),
        };
        txn.get(key, snapshot)
    }

    /// The entries of `range` as `txn` sees them, in ascending key order:
    /// the store as of the start timestamp with the buffered changes over it.
    pub fn scan(&self, txn: &Transaction, range: BoundRange) -> (r: Result<
        Vec<(Key, Vec<u8>)>,
        Error,
    >)
        requires
            txn.wf(),
        ensures
            txn.status() != TxnState::Active ==> r is Err && r->Err_0 == Error::TransactionClosed,
            txn.status() == TxnState::Active ==> r is Ok,
            r is Ok ==> keys_ascending(r->Ok_0@),
            r is Ok ==> forall|k: Seq<u8>|
                lookup(r->Ok_0@, k) == if in_scan_range(
                    k,
                    start_key(range@.from),
                    end_key(range@.to),
                ) {
                    read_through(
                        txn.buffered(),
                        visible(self.versions(), k, txn.start_version()),
                        k,
                    )
                } else {
                    None
                },
    {
        let ghost sk = start_key(range@.from);
        let ghost ek = end_key(range@.to);
        let (start, end) = range.into_keys();
        let entries = self.store.scan_at(&start, &end, txn.start_timestamp().version);
        let whole = BoundRange::from_keys(start, end);
        let r = txn.scan(whole, &entries);
        proof {
            if r is Ok {
                assert forall|k: Seq<u8>|
                    lookup(r->Ok_0@, k) == if in_scan_range(k, sk, ek) {
                        read_through(
                            txn.buffered(),
                            visible(self.versions(), k, txn.start_version()),
                            k,
                        )
                    } else {
                        None
                    } by {
                    assert(merged_value(txn.buffered(), entries@, sk, ek, k) == lookup(r->Ok_0@, k));
                    if in_scan_range(k, sk, ek) {
                        crate::transaction::lemma_last_value_ascending(entries@, k);
                    }
                }
            }
        }
        r
    }
}


/// Whether some key of `muts` may not be locked by the transaction that
/// started at `ts`.
pub open spec fn any_conflict(
    versions: Seq<VersionView>,
    locks: Seq<(Seq<u8>, u64)>,
    muts: Seq<(Key, crate::transaction::Mutation)>,
    ts: u64,
) -> bool {
    exists|i: int| 0 <= i < muts.len() && key_conflict(versions, locks, #[trigger] muts[i].0@, ts) is Some
}

impl Client {
    /// Commits `txn` in two phases: prewrite locks every buffered key at the
    /// start timestamp, then a fresh commit timestamp is taken and the
    /// changes are recorded under it, which releases the locks.
    ///
    /// A lock held by another transaction fails with `KeyLocked`, a change
    /// committed after the start with `WriteConflict`; either rolls `txn`
    /// back and leaves the store as it was. Any failure after a successful
    /// prewrite (no commit timestamp after the start can be had) releases
    /// the locks, rolls `txn` back and fails with `CommitFailure`. A
    /// transaction that is not active fails with `TransactionClosed`.
    pub fn commit(&mut self, txn: &mut Transaction, now: u64) -> (r: Result<(), Error>)
        requires
            old(self).wf(),
            old(txn).wf(),
        ensures
            final(self).wf(),
            final(txn).wf(),
            final(txn).buffered() == old(txn).buffered(),
            final(txn).start_version() == old(txn).start_version(),
            old(txn).status() != TxnState::Active ==> r == Err::<(), Error>(Error::TransactionClosed)
                && final(txn).status() == old(txn).status() && final(self).versions() == old(self).versions()
                && final(self).locks() == old(self).locks(),
            old(txn).status() == TxnState::Active && any_conflict(old(self).versions(), old(self).locks(), old(txn).buffered(), old(txn).start_version())
                ==> r is Err && (r->Err_0 == Error::KeyLocked || r->Err_0 == Error::WriteConflict)
                && final(txn).status() == TxnState::RolledBack && final(self).versions() == old(self).versions()
                && final(self).locks() == old(self).locks(),
            old(txn).status() == TxnState::Active && !any_conflict(old(self).versions(), old(self).locks(), old(txn).buffered(), old(txn).start_version())
                ==> final(self).locks() == without_locks_of(old(self).locks() + locks_for(old(txn).buffered(), old(txn).start_version()), old(txn).start_version()),
            old(txn).status() == TxnState::Active && !any_conflict(old(self).versions(), old(self).locks(), old(txn).buffered(), old(txn).start_version())
                && now <= MAX_PHYSICAL && old(self).last_issued() < u64::MAX
                && next_version(old(self).last_issued() as int, now as int) > old(txn).start_version()
                ==> r is Ok,
            r is Ok ==> final(txn).status() == TxnState::Committed
                && final(txn).commit_version() == Some(final(self).last_issued())
                && final(self).last_issued() == next_version(old(self).last_issued() as int, now as int)
                && final(self).last_issued() > old(txn).start_version()
                && final(self).versions() == old(self).versions() + versions_for(old(txn).buffered(), final(self).last_issued()),
            r is Err && old(txn).status() == TxnState::Active ==> final(txn).status() == TxnState::RolledBack
                && final(self).versions() == old(self).versions(),
            r is Err && old(txn).status() == TxnState::Active && !any_conflict(old(self).versions(), old(self).locks(), old(txn).buffered(), old(txn).start_version())
                ==> r->Err_0 == Error::CommitFailure,
    {
        txn.start_commit()?;
        let start = txn.start_timestamp().version;
        let pre = self.store.prewrite(txn.mutations(), start);
        proof {
            if pre is Err {
                let i = choose|i: int| 0 <= i < txn.buffered().len() && key_conflict(old(self).versions(), old(self).locks(), #[trigger] txn.buffered()[i].0@, start) == Some(pre->Err_0);
                assert(key_conflict(old(self).versions(), old(self).locks(), txn.buffered()[i].0@, start) is Some);
            }
        }
        txn.finish_prewrite(pre)?;
        let ghost locked = self.store.locks();
        proof {
            let muts = txn.buffered();
            assert forall|i: int| 0 <= i < muts.len() implies has_lock(locked, #[trigger] muts[i].0@, start) by {
                let x = old(self).locks().len() + i;
                assert(locked == old(self).locks() + locks_for(muts, start));
                assert(locks_for(muts, start)[i] == (muts[i].0@, start));
                assert(locked[x] == (muts[i].0@, start));
                assert(locked[x].0 == muts[i].0@ && locked[x].1 == start);
            }
        }
        let commit_ts = match self.oracle.request_timestamp(now) {
            Ok(t) => t,
            Err(_) => {
                self.store.release_locks(start);
                let _ = txn.rollback();
                return Err(Error::CommitFailure);
            },
        };
        match txn.assign_commit_timestamp(commit_ts) {
            Ok(()) => {},
            Err(e) => {
                self.store.release_locks(start);
                return Err(e);
            },
        }
        let res = self.store.commit(txn.mutations(), start, commit_ts.version);
        txn.finish_primary_commit(res.is_ok())
    }

    /// Aborts `txn`: it moves to `RolledBack` and the locks it placed are
    /// released. Fails with `TransactionClosed`, changing nothing, unless
    /// `txn` is active or prewriting.
    pub fn rollback(&mut self, txn: &mut Transaction) -> (r: Result<(), Error>)
        requires
            old(self).wf(),
            old(txn).wf(),
        ensures
            final(self).wf(),
            final(txn).wf(),
            r is Ok <==> (old(txn).status() == TxnState::Active || old(txn).status() == TxnState::Prewriting),
            r is Ok ==> final(txn).status() == TxnState::RolledBack
                && final(self).locks() == without_locks_of(old(self).locks(), old(txn).start_version()),
            r is Err ==> r->Err_0 == Error::TransactionClosed && final(txn).status() == old(txn).status()
                && final(self).locks() == old(self).locks(),
            final(self).versions() == old(self).versions(),
            final(self).last_issued() == old(self).last_issued(),
            final(txn).buffered() == old(txn).buffered(),
            final(txn).start_version() == old(txn).start_version(),
            final(txn).commit_version() == old(txn).commit_version(),
    {
        txn.rollback()?;
        self.store.release_locks(txn.start_timestamp().version);
        Ok(())
    }
}

/// End to end: once a transaction that buffered a put of `v` under `k`
/// commits at `c` over the committed changes `before`, a snapshot at or
/// after `c` reads `v`, and one before `c` reads what it read before the
/// commit (absent where `k` had no value).
pub proof fn lemma_commit_then_snapshot(
    before: Seq<VersionView>,
    txn: &Transaction,
    c: u64,
    k: Seq<u8>,
    v: Seq<u8>,
    ts: u64,
)
    requires
        txn.wf(),
        lookup(txn.buffered(), k) == Some(crate::transaction::MutationView::Put(v)),
    ensures
        c <= ts ==> visible(before + versions_for(txn.buffered(), c), k, ts) == Some(v),
        ts < c ==> visible(before + versions_for(txn.buffered(), c), k, ts) == visible(before, k, ts),
{
    crate::transaction::lemma_buffer_ascending(txn);
    crate::store::lemma_visible_after_commit(before, txn.buffered(), c, k, ts);
}

/// A snapshot at `t` scans the same entries however many changes are
/// committed after `t`.
pub proof fn lemma_snapshot_scan_unaffected(
    versions: Seq<VersionView>,
    later: Seq<VersionView>,
    start: Seq<u8>,
    end: Option<Seq<u8>>,
    t: u64,
)
    requires
        forall|i: int| 0 <= i < later.len() ==> #[trigger] later[i].1 > t,
    ensures
        forall|k: Seq<u8>|
            (if in_scan_range(k, start, end) {
                #[trigger] visible(versions + later, k, t)
            } else {
                None
            }) == (if in_scan_range(k, start, end) {
                visible(versions, k, t)
            } else {
                None
            }),
{
    assert forall|k: Seq<u8>| #[trigger] visible(versions + later, k, t) == visible(versions, k, t) by {
        crate::store::lemma_snapshot_unaffected(versions, later, k, t);
    }
}

/// Two transactions writing disjoint key sets both commit: when `b` could
/// lock its keys before, it still can after `a` commits at `ca` (the store
/// then holds exactly what `commit` leaves), so `b`'s commit succeeds where
/// a commit timestamp after its start can be had.
pub proof fn lemma_disjoint_transactions_both_commit(
    versions: Seq<VersionView>,
    locks: Seq<(Seq<u8>, u64)>,
    a: &Transaction,
    ca: u64,
    b: &Transaction,
)
    requires
        forall|i: int, j: int|
            0 <= i < a.buffered().len() && 0 <= j < b.buffered().len() ==> #[trigger] a.buffered()[i].0@
                != #[trigger] b.buffered()[j].0@,
        !any_conflict(versions, locks, b.buffered(), b.start_version()),
    ensures
        !any_conflict(
            versions + versions_for(a.buffered(), ca),
            without_locks_of(locks + locks_for(a.buffered(), a.start_version()), a.start_version()),
            b.buffered(),
            b.start_version(),
        ),
{
    crate::store::lemma_disjoint_commits(
        versions,
        locks,
        a.buffered(),
        a.start_version(),
        ca,
        b.buffered(),
        b.start_version(),
    );
}

/// Two concurrent transactions writing a common key do not both commit:
/// once `a` has committed at `ca`, after `b` started, `b`'s commit meets a
/// conflict and fails with `KeyLocked` or `WriteConflict`, whatever locks
/// are held.
pub proof fn lemma_overlapping_transactions_conflict(
    versions: Seq<VersionView>,
    locks: Seq<(Seq<u8>, u64)>,
    a: &Transaction,
    ca: u64,
    b: &Transaction,
    i: int,
    j: int,
)
    requires
        0 <= i < a.buffered().len(),
        0 <= j < b.buffered().len(),
        a.buffered()[i].0@ == b.buffered()[j].0@,
        b.start_version() < ca,
    ensures
        any_conflict(versions + versions_for(a.buffered(), ca), locks, b.buffered(), b.start_version()),
{
    crate::store::lemma_overlapping_commits(versions, locks, a.buffered(), ca, b.start_version(), i);
    assert(key_conflict(versions + versions_for(a.buffered(), ca), locks, b.buffered()[j].0@, b.start_version()) is Some);
}

} // verus!
