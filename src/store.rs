use vstd::prelude::*;

use crate::error::Error;
use crate::key::Key;
use crate::table::{has_key, keys_ascending, lemma_lookup_prefix, lookup, upsert};
use crate::transaction::{in_range, in_scan_range, Mutation, MutationView};

verus! {

/// One committed change: the key, the commit timestamp and the change.
pub type Version = (Key, u64, Mutation);

/// A committed change over bytes.
pub type VersionView = (Seq<u8>, u64, MutationView);

/// A lock over bytes: the key and the start timestamp of its holder.
pub type LockView = (Seq<u8>, u64);

/// The value of `k` that a read at timestamp `ts` sees: the change most
/// recently recorded for `k` among those committed at or before `ts`.
pub open spec fn visible(versions: Seq<VersionView>, k: Seq<u8>, ts: u64) -> Option<Seq<u8>>
    decreases versions.len(),
{
    if versions.len() == 0 {
        None
    } else if versions.last().0 == k && versions.last().1 <= ts {
        match versions.last().2 {
            MutationView::Put(v) => Some(v),
            MutationView::Delete => None,
        }
    } else {
        visible(versions.drop_last(), k, ts)
    }
}

/// Whether a lock on `k` is held by the transaction that started at `ts`.
pub open spec fn has_lock(locks: Seq<LockView>, k: Seq<u8>, ts: u64) -> bool {
    exists|i: int| 0 <= i < locks.len() && #[trigger] locks[i].0 == k && locks[i].1 == ts
}

/// Whether a lock on `k` is held by a transaction other than the one that
/// started at `ts`.
pub open spec fn locked_by_other(locks: Seq<LockView>, k: Seq<u8>, ts: u64) -> bool {
    exists|i: int| 0 <= i < locks.len() && #[trigger] locks[i].0 == k && locks[i].1 != ts
}

/// Whether `k` has a change committed after `ts`.
pub open spec fn written_after(versions: Seq<VersionView>, k: Seq<u8>, ts: u64) -> bool {
    exists|i: int| 0 <= i < versions.len() && #[trigger] versions[i].0 == k && versions[i].1 > ts
}

/// Why a transaction that started at `ts` may not lock `k`, if it may not.
pub open spec fn key_conflict(
    versions: Seq<VersionView>,
    locks: Seq<LockView>,
    k: Seq<u8>,
    ts: u64,
) -> Option<Error> {
    if locked_by_other(locks, k, ts) {
        Some(Error::KeyLocked)
    } else if written_after(versions, k, ts) {
        Some(Error::WriteConflict)
    } else {
        None
    }
}

/// The locks that a prewrite at `ts` of `muts` adds, in order.
pub open spec fn locks_for(muts: Seq<(Key, Mutation)>, ts: u64) -> Seq<LockView> {
    muts.map_values(|m: (Key, Mutation)| (m.0@, ts))
}

/// The bytes of each committed change.
pub open spec fn versions_view(v: Seq<Version>) -> Seq<VersionView> {
    v.map_values(|x: Version| (x.0@, x.1, x.2@))
}

/// The bytes of each lock.
pub open spec fn locks_view(l: Seq<(Key, u64)>) -> Seq<LockView> {
    l.map_values(|x: (Key, u64)| (x.0@, x.1))
}

/// An in-memory multi-version store: committed changes with their commit
/// timestamps, and the locks that prewrites placed.
pub struct MemStore {
    versions: Vec<Version>,
    locks: Vec<(Key, u64)>,
}

impl MemStore {
    /// The committed changes, in the order they were recorded.
    pub closed spec fn versions(&self) -> Seq<VersionView> {
        versions_view(self.versions@)
    }

    /// The locks held.
    pub closed spec fn locks(&self) -> Seq<LockView> {
        locks_view(self.locks@)
    }

    /// An empty store.
    pub fn new() -> (r: MemStore)
        ensures
            r.versions() == Seq::<VersionView>::empty(),
            r.locks() == Seq::<LockView>::empty(),
    {
        proof {
            assert(versions_view(Seq::<Version>::empty()) =~= Seq::<VersionView>::empty());
            assert(locks_view(Seq::<(Key, u64)>::empty()) =~= Seq::<LockView>::empty());
        }
        MemStore { versions: Vec::new(), locks: Vec::new() }
    }

    /// The value of `key` as of timestamp `ts`; none where it is absent or deleted.
    pub fn read(&self, key: &Key, ts: u64) -> (r: Option<Vec<u8>>)
        ensures
            crate::transaction::opt_bytes_view(r) == visible(self.versions(), key@, ts),
    {
        let ghost all = self.versions();
        let mut i: usize = self.versions.len();
        proof {
            assert(all.take(all.len() as int) =~= all);
        }
        while i > 0
            invariant
                all == self.versions(),
                all.len() == self.versions@.len(),
                i <= self.versions@.len(),
                visible(all, key@, ts) == visible(all.take(i as int), key@, ts),
            decreases i,
        {
            let v = &self.versions[i - 1];
            proof {
                assert(all.take(i as int).drop_last() =~= all.take(i - 1));
                assert(all.take(i as int).last() == all[i - 1]);
                assert(all[i - 1] == (v.0@, v.1, v.2@));
            }
            if v.0.same_as(key) && v.1 <= ts {
                return match &v.2 {
                    Mutation::Put(b) => Some(b.clone()),
                    Mutation::Delete => None,
                };
            }
            i = i - 1;
        }
        None
    }

    fn conflict_of(&self, key: &Key, ts: u64) -> (r: Option<Error>)
        ensures
            r == key_conflict(self.versions(), self.locks(), key@, ts),
    {
        let mut i: usize = 0;
        while i < self.locks.len()
            invariant
                i <= self.locks@.len(),
                forall|j: int| 0 <= j < i ==> !(#[trigger] self.locks()[j].0 == key@ && self.locks()[j].1 != ts),
            decreases self.locks.len() - i,
        {
            if self.locks[i].1 != ts && self.locks[i].0.same_as(key) {
                proof {
                    assert(self.locks()[i as int].0 == key@);
                }
                return Some(Error::KeyLocked);
            }
            i = i + 1;
        }
        let mut j: usize = 0;
        while j < self.versions.len()
            invariant
                !locked_by_other(self.locks(), key@, ts),
                j <= self.versions@.len(),
                forall|x: int| 0 <= x < j ==> !(#[trigger] self.versions()[x].0 == key@ && self.versions()[x].1 > ts),
            decreases self.versions.len() - j,
        {
            if self.versions[j].1 > ts && self.versions[j].0.same_as(key) {
                proof {
                    assert(self.versions()[j as int].0 == key@);
                }
                return Some(Error::WriteConflict);
            }
            j = j + 1;
        }
        None
    }

    /// Locks every key of `muts` for the transaction that started at `ts`.
    ///
    /// Fails, placing no lock, when some key is locked by another
    /// transaction (`KeyLocked`) or has a change committed after `ts`
    /// (`WriteConflict`); the error is that of the first such key.
    pub fn prewrite(&mut self, muts: &Vec<(Key, Mutation)>, ts: u64) -> (r: Result<(), Error>)
        ensures
            r is Ok <==> forall|i: int|
                0 <= i < muts@.len() ==> key_conflict(old(self).versions(), old(self).locks(), #[trigger] muts@[i].0@, ts) is None,
            r is Err ==> exists|i: int|
                0 <= i < muts@.len() && key_conflict(old(self).versions(), old(self).locks(), #[trigger] muts@[i].0@, ts) == Some(r->Err_0),
            r is Err ==> final(self).locks() == old(self).locks(),
            r is Ok ==> final(self).locks() == old(self).locks() + locks_for(muts@, ts),
            final(self).versions() == old(self).versions(),
    {
        let mut i: usize = 0;
        while i < muts.len()
            invariant
                i <= muts@.len(),
                forall|j: int| 0 <= j < i ==> key_conflict(self.versions(), self.locks(), #[trigger] muts@[j].0@, ts) is None,
            decreases muts.len() - i,
        {
            match self.conflict_of(&muts[i].0, ts) {
                Some(e) => {
                    return Err(e);
                },
                None => {},
            }
            i = i + 1;
        }
        let ghost old_locks = self.locks();
        let ghost old_versions = self.versions();
        let mut j: usize = 0;
        proof {
            assert(locks_for(muts@.take(0), ts) =~= Seq::<LockView>::empty());
            assert(old_locks + locks_for(muts@.take(0), ts) =~= old_locks);
        }
        while j < muts.len()
            invariant
                j <= muts@.len(),
                self.versions() == old_versions,
                self.locks() == old_locks + locks_for(muts@.take(j as int), ts),
            decreases muts.len() - j,
        {
            let ghost prev = self.locks@;
            let k = muts[j].0.copied();
            let ghost kv = k@;
            self.locks.push((k, ts));
            proof {
                assert(self.locks@ == prev.push(self.locks@[prev.len() as int]));
                assert(locks_view(self.locks@) =~= locks_view(prev).push((kv, ts)));
                assert(muts@.take(j + 1) =~= muts@.take(j as int).push(muts@[j as int]));
                assert(locks_for(muts@.take(j + 1), ts) =~= locks_for(muts@.take(j as int), ts).push((muts@[j as int].0@, ts)));
                assert(self.locks() =~= old_locks + locks_for(muts@.take(j + 1), ts));
            }
            j = j + 1;
        }
        proof {
            assert(muts@.take(muts@.len() as int) =~= muts@);
        }
        Ok(())
    }
}


/// The locks of `locks` that are not held by the transaction that started at `ts`.
pub open spec fn without_locks_of(locks: Seq<LockView>, ts: u64) -> Seq<LockView>
    decreases locks.len(),
{
    if locks.len() == 0 {
        locks
    } else if locks.last().1 == ts {
        without_locks_of(locks.drop_last(), ts)
    } else {
        without_locks_of(locks.drop_last(), ts).push(locks.last())
    }
}

/// The changes that a commit at `commit_ts` of `muts` records, in order.
pub open spec fn versions_for(muts: Seq<(Key, Mutation)>, commit_ts: u64) -> Seq<VersionView> {
    muts.map_values(|m: (Key, Mutation)| (m.0@, commit_ts, m.1@))
}

impl MemStore {
    fn holds_lock(&self, key: &Key, ts: u64) -> (r: bool)
        ensures
            r == has_lock(self.locks(), key@, ts),
    {
        let mut i: usize = 0;
        while i < self.locks.len()
            invariant
                i <= self.locks@.len(),
                forall|j: int| 0 <= j < i ==> !(#[trigger] self.locks()[j].0 == key@ && self.locks()[j].1 == ts),
            decreases self.locks.len() - i,
        {
            if self.locks[i].1 == ts && self.locks[i].0.same_as(key) {
                proof {
                    assert(self.locks()[i as int].0 == key@);
                }
                return true;
            }
            i = i + 1;
        }
        false
    }

    /// Releases every lock that the transaction started at `ts` holds.
    pub fn release_locks(&mut self, ts: u64)
        ensures
            final(self).locks() == without_locks_of(old(self).locks(), ts),
            final(self).versions() == old(self).versions(),
    {
        let ghost all = self.locks();
        let mut kept: Vec<(Key, u64)> = Vec::new();
        let mut i: usize = 0;
        proof {
            assert(all.take(0) =~= Seq::<LockView>::empty());
            assert(locks_view(kept@) =~= Seq::<LockView>::empty());
        }
        while i < self.locks.len()
            invariant
                all == self.locks(),
                i <= self.locks@.len(),
                locks_view(kept@) == without_locks_of(all.take(i as int), ts),
            decreases self.locks.len() - i,
        {
            proof {
                assert(all.take(i + 1).drop_last() =~= all.take(i as int));
                assert(all.take(i + 1).last() == all[i as int]);
            }
            if self.locks[i].1 != ts {
                let ghost prev = kept@;
                let k = self.locks[i].0.copied();
                let ghost kv = k@;
                kept.push((k, self.locks[i].1));
                proof {
                    assert(kept@ == prev.push(kept@[prev.len() as int]));
                    assert(locks_view(kept@) =~= locks_view(prev).push((kv, all[i as int].1)));
                }
            }
            i = i + 1;
        }
        proof {
            assert(all.take(all.len() as int) =~= all);
        }
        self.locks = kept;
    }

    /// Commits at `commit_ts` the changes `muts` that the transaction started
    /// at `start_ts` prewrote: records them and releases its locks.
    ///
    /// Fails with `CommitFailure`, changing nothing, when some key of `muts`
    /// is not locked by that transaction.
    pub fn commit(&mut self, muts: &Vec<(Key, Mutation)>, start_ts: u64, commit_ts: u64) -> (r:
        Result<(), Error>)
        ensures
            r is Ok <==> forall|i: int|
                0 <= i < muts@.len() ==> has_lock(old(self).locks(), #[trigger] muts@[i].0@, start_ts),
            r is Err ==> r->Err_0 == Error::CommitFailure && final(self).versions() == old(self).versions()
                && final(self).locks() == old(self).locks(),
            r is Ok ==> final(self).versions() == old(self).versions() + versions_for(muts@, commit_ts),
            r is Ok ==> final(self).locks() == without_locks_of(old(self).locks(), start_ts),
    {
        let mut i: usize = 0;
        while i < muts.len()
            invariant
                i <= muts@.len(),
                forall|j: int| 0 <= j < i ==> has_lock(self.locks(), #[trigger] muts@[j].0@, start_ts),
            decreases muts.len() - i,
        {
            if !self.holds_lock(&muts[i].0, start_ts) {
                return Err(Error::CommitFailure);
            }
            i = i + 1;
        }
        let ghost old_versions = self.versions();
        let ghost old_locks = self.locks();
        let mut j: usize = 0;
        proof {
            assert(versions_for(muts@.take(0), commit_ts) =~= Seq::<VersionView>::empty());
            assert(old_versions + versions_for(muts@.take(0), commit_ts) =~= old_versions);
        }
        while j < muts.len()
            invariant
                j <= muts@.len(),
                self.locks() == old_locks,
                self.versions() == old_versions + versions_for(muts@.take(j as int), commit_ts),
            decreases muts.len() - j,
        {
            let ghost prev = self.versions@;
            let k = muts[j].0.copied();
            let m = muts[j].1.copied();
            let ghost kv = k@;
            let ghost mv = m@;
            self.versions.push((k, commit_ts, m));
            proof {
                assert(self.versions@ == prev.push(self.versions@[prev.len() as int]));
                assert(versions_view(self.versions@) =~= versions_view(prev).push((kv, commit_ts, mv)));
                assert(muts@.take(j + 1) =~= muts@.take(j as int).push(muts@[j as int]));
                assert(versions_for(muts@.take(j + 1), commit_ts) =~= versions_for(muts@.take(j as int), commit_ts).push((kv, commit_ts, mv)));
                assert(self.versions() =~= old_versions + versions_for(muts@.take(j + 1), commit_ts));
            }
            j = j + 1;
        }
        proof {
            assert(muts@.take(muts@.len() as int) =~= muts@);
        }
        self.release_locks(start_ts);
        Ok(())
    }
}

/// A read at `t` is unaffected by changes committed after `t`.
pub proof fn lemma_snapshot_unaffected(
    versions: Seq<VersionView>,
    later: Seq<VersionView>,
    k: Seq<u8>,
    t: u64,
)
    requires
        forall|i: int| 0 <= i < later.len() ==> #[trigger] later[i].1 > t,
    ensures
        visible(versions + later, k, t) == visible(versions, k, t),
    decreases later.len(),
{
    if later.len() == 0 {
        assert(versions + later =~= versions);
    } else {
        assert((versions + later).drop_last() =~= versions + later.drop_last());
        assert((versions + later).last() == later.last());
        lemma_snapshot_unaffected(versions, later.drop_last(), k, t);
    }
}

/// Once a put of `v` under `k` is committed at `c`, a read at `t` sees `v`
/// when `t` is at or after `c`, and what it saw before the commit otherwise.
pub proof fn lemma_committed_put_visible(
    versions: Seq<VersionView>,
    k: Seq<u8>,
    v: Seq<u8>,
    c: u64,
    t: u64,
)
    ensures
        c <= t ==> visible(versions.push((k, c, MutationView::Put(v))), k, t) == Some(v),
        t < c ==> visible(versions.push((k, c, MutationView::Put(v))), k, t) == visible(
            versions,
            k,
            t,
        ),
{
    assert(versions.push((k, c, MutationView::Put(v))).drop_last() =~= versions);
}

/// Transactions writing disjoint key sets do not interfere: neither the
/// locks that one places nor the changes it records alter whether the
/// other's keys may be locked.
pub proof fn lemma_disjoint_prewrites(
    versions: Seq<VersionView>,
    locks: Seq<LockView>,
    a: Seq<(Key, Mutation)>,
    ta: u64,
    ca: u64,
    b: Seq<(Key, Mutation)>,
    tb: u64,
)
    requires
        forall|i: int, j: int| 0 <= i < a.len() && 0 <= j < b.len() ==> #[trigger] a[i].0@ != #[trigger] b[j].0@,
    ensures
        forall|j: int|
            0 <= j < b.len() ==> key_conflict(versions, locks + locks_for(a, ta), #[trigger] b[j].0@, tb)
                == key_conflict(versions, locks, b[j].0@, tb),
        forall|j: int|
            0 <= j < b.len() ==> key_conflict(versions + versions_for(a, ca), locks, #[trigger] b[j].0@, tb)
                == key_conflict(versions, locks, b[j].0@, tb),
{
    let la = locks_for(a, ta);
    assert forall|j: int| 0 <= j < b.len() implies key_conflict(versions + versions_for(a, ca), locks, #[trigger] b[j].0@, tb)
        == key_conflict(versions, locks, b[j].0@, tb) by {
        let k = b[j].0@;
        let va = versions_for(a, ca);
        if written_after(versions + va, k, tb) {
            let x = choose|x: int| 0 <= x < (versions + va).len() && #[trigger] (versions + va)[x].0 == k && (versions + va)[x].1 > tb;
            if x >= versions.len() {
                assert(va[x - versions.len()].0 == a[x - versions.len()].0@);
                assert(a[x - versions.len()].0@ != b[j].0@);
            } else {
                assert(versions[x].0 == k);
            }
        }
        if written_after(versions, k, tb) {
            let x = choose|x: int| 0 <= x < versions.len() && #[trigger] versions[x].0 == k && versions[x].1 > tb;
            assert((versions + va)[x] == versions[x]);
        }
    }
    assert forall|j: int| 0 <= j < b.len() implies key_conflict(versions, locks + la, #[trigger] b[j].0@, tb)
        == key_conflict(versions, locks, b[j].0@, tb) by {
        let k = b[j].0@;
        if locked_by_other(locks + la, k, tb) {
            let x = choose|x: int| 0 <= x < (locks + la).len() && #[trigger] (locks + la)[x].0 == k && (locks + la)[x].1 != tb;
            if x >= locks.len() {
                assert(la[x - locks.len()].0 == a[x - locks.len()].0@);
                assert(a[x - locks.len()].0@ != b[j].0@);
            } else {
                assert(locks[x].0 == k);
            }
        }
        if locked_by_other(locks, k, tb) {
            let x = choose|x: int| 0 <= x < locks.len() && #[trigger] locks[x].0 == k && locks[x].1 != tb;
            assert((locks + la)[x] == locks[x]);
        }
    }
}

/// Prewrites that share a key conflict: once one transaction has locked the
/// key, the other may not lock it, and its prewrite fails with `KeyLocked`.
pub proof fn lemma_overlapping_prewrites(
    versions: Seq<VersionView>,
    locks: Seq<LockView>,
    a: Seq<(Key, Mutation)>,
    ta: u64,
    tb: u64,
    i: int,
)
    requires
        ta != tb,
        0 <= i < a.len(),
    ensures
        key_conflict(versions, locks + locks_for(a, ta), a[i].0@, tb) == Some(Error::KeyLocked),
{
    let all = locks + locks_for(a, ta);
    let x = locks.len() + i;
    assert(all[x] == (a[i].0@, ta));
    assert(all[x].0 == a[i].0@);
}


/// A key that no change mentions reads as absent at every timestamp.
pub proof fn lemma_visible_absent(versions: Seq<VersionView>, k: Seq<u8>, t: u64)
    requires
        forall|i: int| 0 <= i < versions.len() ==> #[trigger] versions[i].0 != k,
    ensures
        visible(versions, k, t) is None,
    decreases versions.len(),
{
    if versions.len() > 0 {
        assert(versions.last() == versions[versions.len() - 1]);
        lemma_visible_absent(versions.drop_last(), k, t);
    }
}

impl MemStore {
    /// The entries of the range from inclusive `start` to optional exclusive
    /// `end` as of timestamp `ts`, in ascending key order.
    pub fn scan_at(&self, start: &Key, end: &Option<Key>, ts: u64) -> (r: Vec<(Key, Vec<u8>)>)
        ensures
            keys_ascending(r@),
            forall|k: Seq<u8>|
                lookup(r@, k) == if in_scan_range(k, start@, crate::bound_range::opt_key_view(*end)) {
                    visible(self.versions(), k, ts)
                } else {
                    None
                },
    {
        let ghost all = self.versions();
        let ghost ev = crate::bound_range::opt_key_view(*end);
        let mut out: Vec<(Key, Vec<u8>)> = Vec::new();
        let mut i: usize = 0;
        while i < self.versions.len()
            invariant
                all == self.versions(),
                all.len() == self.versions@.len(),
                ev == crate::bound_range::opt_key_view(*end),
                i <= all.len(),
                keys_ascending(out@),
                forall|k: Seq<u8>|
                    lookup(out@, k) == if in_scan_range(k, start@, ev) && exists|x: int|
                        0 <= x < i && #[trigger] all[x].0 == k {
                        visible(all, k, ts)
                    } else {
                        None
                    },
            decreases self.versions.len() - i,
        {
            let key = &self.versions[i].0;
            let ghost kv = key@;
            proof {
                assert(all[i as int].0 == kv);
            }
            if in_range(key, start, end) {
                match self.read(key, ts) {
                    Some(v) => {
                        upsert(&mut out, key.copied(), v);
                    },
                    None => {},
                }
            }
            proof {
                assert forall|k: Seq<u8>|
                    lookup(out@, k) == if in_scan_range(k, start@, ev) && exists|x: int|
                        0 <= x < i + 1 && #[trigger] all[x].0 == k {
                        visible(all, k, ts)
                    } else {
                        None
                    } by {
                    if k == kv {
                        assert(all[i as int].0 == k);
                    } else if exists|x: int| 0 <= x < i + 1 && #[trigger] all[x].0 == k {
                        let x = choose|x: int| 0 <= x < i + 1 && #[trigger] all[x].0 == k;
                        assert(x < i);
                    }
                }
            }
            i = i + 1;
        }
        proof {
            assert forall|k: Seq<u8>|
                lookup(out@, k) == if in_scan_range(k, start@, ev) {
                    visible(all, k, ts)
                } else {
                    None
                } by {
                if !(exists|x: int| 0 <= x < all.len() && #[trigger] all[x].0 == k) {
                    lemma_visible_absent(all, k, ts);
                }
            }
        }
        out
    }
}

/// After the buffered changes `buf` are recorded at `c`, a read at `t` sees
/// the buffered change to `k` when `c <= t`, and what it saw before
/// otherwise or where `k` was not changed.
pub proof fn lemma_visible_after_commit(
    old: Seq<VersionView>,
    buf: Seq<(Key, Mutation)>,
    c: u64,
    k: Seq<u8>,
    t: u64,
)
    requires
        keys_ascending(buf),
    ensures
        visible(old + versions_for(buf, c), k, t) == if c <= t {
            match lookup(buf, k) {
                Some(MutationView::Put(v)) => Some(v),
                Some(MutationView::Delete) => None,
                None => visible(old, k, t),
            }
        } else {
            visible(old, k, t)
        },
    decreases buf.len(),
{
    if buf.len() == 0 {
        assert(old + versions_for(buf, c) =~= old);
        assert(!has_key(buf, k));
    } else {
        let n = buf.len() - 1;
        let b2 = buf.take(n);
        lemma_lookup_prefix(buf, n, k);
        assert(buf.take(n + 1) =~= buf);
        lemma_visible_after_commit(old, b2, c, k, t);
        let all = old + versions_for(buf, c);
        assert(all.drop_last() =~= old + versions_for(b2, c));
        assert(all.last() == (buf[n].0@, c, buf[n].1@));
    }
}

/// Every lock left after releasing those of `ts` was held before, by
/// another transaction.
pub proof fn lemma_without_locks_subset(locks: Seq<LockView>, ts: u64, x: LockView)
    requires
        without_locks_of(locks, ts).contains(x),
    ensures
        locks.contains(x),
        x.1 != ts,
    decreases locks.len(),
{
    let rest = without_locks_of(locks.drop_last(), ts);
    if locks.last().1 != ts && x == locks.last() {
        assert(locks[locks.len() - 1] == x);
    } else {
        if locks.last().1 != ts {
            let i = choose|i: int| 0 <= i < without_locks_of(locks, ts).len() && without_locks_of(locks, ts)[i] == x;
            assert(rest.push(locks.last())[i] == x);
            assert(i < rest.len());
            assert(rest[i] == x);
        }
        lemma_without_locks_subset(locks.drop_last(), ts, x);
        let j = choose|j: int| 0 <= j < locks.drop_last().len() && locks.drop_last()[j] == x;
        assert(locks[j] == x);
    }
}

/// Transactions writing disjoint key sets both commit: once one has
/// prewritten, recorded its changes at any timestamp and released its
/// locks, each key of the other that could be locked before still can.
pub proof fn lemma_disjoint_commits(
    versions: Seq<VersionView>,
    locks: Seq<LockView>,
    a: Seq<(Key, Mutation)>,
    ta: u64,
    ca: u64,
    b: Seq<(Key, Mutation)>,
    tb: u64,
)
    requires
        forall|i: int, j: int| 0 <= i < a.len() && 0 <= j < b.len() ==> #[trigger] a[i].0@ != #[trigger] b[j].0@,
    ensures
        forall|j: int|
            0 <= j < b.len() && key_conflict(versions, locks, #[trigger] b[j].0@, tb) is None
                ==> key_conflict(
                versions + versions_for(a, ca),
                without_locks_of(locks + locks_for(a, ta), ta),
                b[j].0@,
                tb,
            ) is None,
{
    lemma_disjoint_prewrites(versions, locks, a, ta, ca, b, tb);
    let la = locks_for(a, ta);
    let w = without_locks_of(locks + la, ta);
    assert forall|j: int|
        0 <= j < b.len() && key_conflict(versions, locks, #[trigger] b[j].0@, tb) is None
            implies key_conflict(versions + versions_for(a, ca), w, b[j].0@, tb) is None by {
        let k = b[j].0@;
        assert(key_conflict(versions + versions_for(a, ca), locks, k, tb) is None);
        if locked_by_other(w, k, tb) {
            let x = choose|x: int| 0 <= x < w.len() && #[trigger] w[x].0 == k && w[x].1 != tb;
            assert(w.contains(w[x]));
            lemma_without_locks_subset(locks + la, ta, w[x]);
            let y = choose|y: int| 0 <= y < (locks + la).len() && (locks + la)[y] == w[x];
            if y >= locks.len() {
                assert(la[y - locks.len()].0 == a[y - locks.len()].0@);
                assert(a[y - locks.len()].0@ != b[j].0@);
            } else {
                assert(locks[y].0 == k);
            }
        }
    }
}

/// A transaction whose key was committed by another after its start may
/// not lock that key: its prewrite fails.
pub proof fn lemma_overlapping_commits(
    versions: Seq<VersionView>,
    locks: Seq<LockView>,
    a: Seq<(Key, Mutation)>,
    ca: u64,
    tb: u64,
    i: int,
)
    requires
        tb < ca,
        0 <= i < a.len(),
    ensures
        key_conflict(versions + versions_for(a, ca), locks, a[i].0@, tb) is Some,
{
    let all = versions + versions_for(a, ca);
    let x = versions.len() + i;
    assert(all[x] == (a[i].0@, ca, a[i].1@));
    assert(all[x].0 == a[i].0@);
}

} // verus!
