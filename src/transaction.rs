use vstd::prelude::*;

use crate::bound_range::{end_key, start_key, BoundRange};
use crate::error::Error;
use crate::key::{key_lt, Key};
use crate::table::{
    find, has_key, index_of, keys_ascending, lemma_lookup_at, lemma_lookup_prefix, lookup, upsert,
};
use crate::timestamp::Timestamp;

verus! {

/// A buffered change to one key.
#[derive(Debug)]
pub enum Mutation {
    Put(Vec<u8>),
    Delete,
}

/// A buffered change to one key, over bytes.
pub enum MutationView {
    Put(Seq<u8>),
    Delete,
}

impl View for Mutation {
    type V = MutationView;

    open spec fn view(&self) -> MutationView {
        match self {
            Mutation::Put(v) => MutationView::Put(v@),
            Mutation::Delete => MutationView::Delete,
        }
    }
}

impl Mutation {
    /// A copy of the mutation.
    pub fn copied(&self) -> (r: Mutation)
        ensures
            r@ == self@,
    {
        match self {
            Mutation::Put(v) => Mutation::Put(v.clone()),
            Mutation::Delete => Mutation::Delete,
        }
    }
}

/// Where a transaction stands in its life.
#[derive(Clone, Copy, Debug, PartialEq, Eq, Structural)]
pub enum TxnState {
    Active,
    Prewriting,
    Committing,
    Committed,
    RolledBack,
}

/// A state after which a transaction accepts no operation.
pub open spec fn is_terminal(s: TxnState) -> bool {
    s == TxnState::Committed || s == TxnState::RolledBack
}

/// Whether key `k` lies in the scan range from inclusive `start` to optional exclusive `end`.
pub open spec fn in_scan_range(k: Seq<u8>, start: Seq<u8>, end: Option<Seq<u8>>) -> bool {
    !key_lt(k, start) && match end {
        Some(e) => key_lt(k, e),
        None => true,
    }
}

/// The value that the last entry with key `k` carries, if any.
pub open spec fn last_value(s: Seq<(Key, Vec<u8>)>, k: Seq<u8>) -> Option<Seq<u8>>
    decreases s.len(),
{
    if s.len() == 0 {
        None
    } else if s.last().0@ == k {
        Some(s.last().1@)
    } else {
        last_value(s.drop_last(), k)
    }
}

/// What a transaction reads for `k`: its own buffered change, else the
/// snapshot's value.
pub open spec fn read_through(
    buffer: Seq<(Key, Mutation)>,
    snapshot: Option<Seq<u8>>,
    k: Seq<u8>,
) -> Option<Seq<u8>> {
    match lookup(buffer, k) {
        Some(MutationView::Put(v)) => Some(v),
        Some(MutationView::Delete) => None,
        None => snapshot,
    }
}

/// What a scan of a transaction yields for `k`: its own buffered change
/// merged over the snapshot's entries, inside the range only.
pub open spec fn merged_value(
    buffer: Seq<(Key, Mutation)>,
    snapshot: Seq<(Key, Vec<u8>)>,
    start: Seq<u8>,
    end: Option<Seq<u8>>,
    k: Seq<u8>,
) -> Option<Seq<u8>> {
    if in_scan_range(k, start, end) {
        read_through(buffer, last_value(snapshot, k), k)
    } else {
        None
    }
}

/// Whether key `k` lies in the range.
pub(crate) fn in_range(k: &Key, start: &Key, end: &Option<Key>) -> (r: bool)
    ensures
        r == in_scan_range(k@, start@, crate::bound_range::opt_key_view(*end)),
{
    if k.less_than(start) {
        return false;
    }
    match end {
        Some(e) => k.less_than(e),
        None => true,
    }
}

/// A snapshot-isolated transaction: a start timestamp, a buffer of changes
/// ordered by key, and a state.
///
/// Reads see the buffer first and the store as of the start timestamp
/// otherwise. The store itself is reached by the caller, who hands its
/// results in.
pub struct Transaction {
    start_ts: Timestamp,
    buffer: Vec<(Key, Mutation)>,
    state: TxnState,
    commit_ts: Option<Timestamp>,
}

impl Transaction {
    /// The buffer is ordered by key, and a transaction that has a commit
    /// timestamp got one after its start.
    pub closed spec fn wf(&self) -> bool {
        &&& keys_ascending(self.buffer@)
        &&& (self.state == TxnState::Committing || self.state == TxnState::Committed) ==> (
        self.commit_ts is Some)
        &&& self.commit_ts is Some ==> self.commit_ts->0.version > self.start_ts.version
    }

    /// The timestamp that the transaction reads at.
    pub closed spec fn start_version(&self) -> u64 {
        self.start_ts.version
    }

    /// The buffered changes, ordered by key.
    pub closed spec fn buffered(&self) -> Seq<(Key, Mutation)> {
        self.buffer@
    }

    /// Where the transaction stands.
    pub closed spec fn status(&self) -> TxnState {
        self.state
    }

    /// The commit timestamp, once assigned.
    pub closed spec fn commit_version(&self) -> Option<u64> {
        match self.commit_ts {
            Some(t) => Some(t.version),
            None => None,
        }
    }

    /// A new active transaction reading at `start_ts`, with nothing buffered.
    pub fn begin(start_ts: Timestamp) -> (r: Transaction)
        ensures
            r.start_version() == start_ts.version,
            r.buffered() == Seq::<(Key, Mutation)>::empty(),
            r.status() == TxnState::Active,
            r.commit_version() is None,
            r.wf(),
    {
        Transaction { start_ts, buffer: Vec::new(), state: TxnState::Active, commit_ts: None }
    }

    /// The start timestamp.
    pub fn start_timestamp(&self) -> (r: Timestamp)
        ensures
            r.version == self.start_version(),
    {
        self.start_ts
    }

    /// The state.
    pub fn state(&self) -> (r: TxnState)
        ensures
            r == self.status(),
    {
        self.state
    }

    /// The commit timestamp, once assigned; always after the start.
    pub fn commit_timestamp(&self) -> (r: Option<Timestamp>)
        requires
            self.wf(),
        ensures
            match r {
                Some(t) => self.commit_version() == Some(t.version) && t.version
                    > self.start_version(),
                None => self.commit_version() is None,
            },
    {
        self.commit_ts
    }

    /// The buffered changes in key order; the first is the primary key of a commit.
    pub fn mutations(&self) -> (r: &Vec<(Key, Mutation)>)
        requires
            self.wf(),
        ensures
            r@ == self.buffered(),
            keys_ascending(r@),
    {
        &self.buffer
    }

    fn check_active(&self) -> (r: Result<(), Error>)
        ensures
            r is Ok <==> self.status() == TxnState::Active,
            r is Err ==> r->Err_0 == Error::TransactionClosed,
    {
        if self.state == TxnState::Active {
            Ok(())
        } else {
            Err(Error::TransactionClosed)
        }
    }

    /// Buffers `value` under `key`, replacing any earlier change to it.
    ///
    /// Fails with `TransactionClosed`, changing nothing, unless the
    /// transaction is active.
    pub fn set(&mut self, key: Key, value: Vec<u8>) -> (r: Result<(), Error>)
        requires
            old(self).wf(),
        ensures
            final(self).wf(),
            r is Ok <==> old(self).status() == TxnState::Active,
            r is Err ==> r->Err_0 == Error::TransactionClosed && final(self).buffered() == old(self).buffered(),
            lookup(final(self).buffered(), key@) == if r is Ok {
                Some(MutationView::Put(value@))
            } else {
                lookup(old(self).buffered(), key@)
            },
            forall|k: Seq<u8>|
                k != key@ ==> lookup(final(self).buffered(), k) == lookup(old(self).buffered(), k),
            final(self).status() == old(self).status(),
            final(self).start_version() == old(self).start_version(),
            final(self).commit_version() == old(self).commit_version(),
    {
        self.buffer_change(key, Mutation::Put(value))
    }

    /// Buffers the removal of `key`, replacing any earlier change to it.
    ///
    /// Fails with `TransactionClosed`, changing nothing, unless the
    /// transaction is active.
    pub fn delete(&mut self, key: Key) -> (r: Result<(), Error>)
        requires
            old(self).wf(),
        ensures
            final(self).wf(),
            r is Ok <==> old(self).status() == TxnState::Active,
            r is Err ==> r->Err_0 == Error::TransactionClosed && final(self).buffered() == old(self).buffered(),
            lookup(final(self).buffered(), key@) == if r is Ok {
                Some(MutationView::Delete)
            } else {
                lookup(old(self).buffered(), key@)
            },
            forall|k: Seq<u8>|
                k != key@ ==> lookup(final(self).buffered(), k) == lookup(old(self).buffered(), k),
            final(self).status() == old(self).status(),
            final(self).start_version() == old(self).start_version(),
            final(self).commit_version() == old(self).commit_version(),
    {
        self.buffer_change(key, Mutation::Delete)
    }

    fn buffer_change(&mut self, key: Key, m: Mutation) -> (r: Result<(), Error>)
        requires
            old(self).wf(),
        ensures
            final(self).wf(),
            r is Ok <==> old(self).status() == TxnState::Active,
            r is Err ==> r->Err_0 == Error::TransactionClosed && final(self).buffered() == old(self).buffered(),
            lookup(final(self).buffered(), key@) == if r is Ok {
                Some(m@)
            } else {
                lookup(old(self).buffered(), key@)
            },
            forall|k: Seq<u8>|
                k != key@ ==> lookup(final(self).buffered(), k) == lookup(old(self).buffered(), k),
            final(self).status() == old(self).status(),
            final(self).start_version() == old(self).start_version(),
            final(self).commit_version() == old(self).commit_version(),
    {
        self.check_active()?;
        upsert(&mut self.buffer, key, m);
        Ok(())
    }

    /// The transaction's own change to `key`, if it buffered one.
    ///
    /// Where this is `Ok(Some(..))` a read of `key` needs no store access.
    /// Fails with `TransactionClosed` unless the transaction is active.
    pub fn get_buffered(&self, key: &Key) -> (r: Result<Option<Mutation>, Error>)
        requires
            self.wf(),
        ensures
            r is Ok <==> self.status() == TxnState::Active,
            r is Err ==> r->Err_0 == Error::TransactionClosed,
            r is Ok ==> match r->Ok_0 {
                Some(m) => lookup(self.buffered(), key@) == Some(m@),
                None => lookup(self.buffered(), key@) is None,
            },
    {
        self.check_active()?;
        match find(&self.buffer, key) {
            Some(i) => Ok(Some(self.buffer[i].1.copied())),
            None => Ok(None),
        }
    }

    /// Reads `key`: the buffered change if there is one, else `snapshot`, the
    /// store's value at the start timestamp as the caller fetched it.
    ///
    /// Fails with `TransactionClosed` unless the transaction is active, and
    /// with `KeyNotFound` when the key is deleted in the buffer or absent.
    pub fn get(&self, key: &Key, snapshot: Option<Vec<u8>>) -> (r: Result<Vec<u8>, Error>)
        requires
            self.wf(),
        ensures
            self.status() != TxnState::Active ==> r == Err::<Vec<u8>, Error>(
                Error::TransactionClosed,
            ),
            self.status() == TxnState::Active ==> match read_through(
                self.buffered(),
                crate::transaction::opt_bytes_view(snapshot),
                key@,
            ) {
                Some(v) => r is Ok && r->Ok_0@ == v,
                None => r == Err::<Vec<u8>, Error>(Error::KeyNotFound),
            },
    {
        match self.get_buffered(key)? {
            Some(Mutation::Put(v)) => Ok(v),
            Some(Mutation::Delete) => Err(Error::KeyNotFound),
            None => match snapshot {
                Some(v) => Ok(v),
                None => Err(Error::KeyNotFound),
            },
        }
    }
}

/// The bytes of an optional value.
pub open spec fn opt_bytes_view(v: Option<Vec<u8>>) -> Option<Seq<u8>> {
    match v {
        Some(v) => Some(v@),
        None => None,
    }
}


/// What the last entry with key `k` carries, over a prefix one entry longer.
proof fn lemma_last_value_prefix(s: Seq<(Key, Vec<u8>)>, i: int, k: Seq<u8>)
    requires
        0 <= i < s.len(),
    ensures
        last_value(s.take(i + 1), k) == if s[i].0@ == k {
            Some(s[i].1@)
        } else {
            last_value(s.take(i), k)
        },
{
    assert(s.take(i + 1).drop_last() =~= s.take(i));
    assert(s.take(i + 1).last() == s[i]);
}

/// In a table with ascending keys, the last entry with a key is the only one.
pub proof fn lemma_last_value_ascending(s: Seq<(Key, Vec<u8>)>, k: Seq<u8>)
    requires
        keys_ascending(s),
    ensures
        last_value(s, k) == lookup(s, k),
    decreases s.len(),
{
    if s.len() == 0 {
        assert(!has_key(s, k));
    } else {
        let n = s.len() - 1;
        lemma_lookup_prefix(s, n, k);
        assert(s.take(n + 1) =~= s);
        assert(s.take(n) =~= s.drop_last());
        lemma_last_value_ascending(s.drop_last(), k);
    }
}

impl Transaction {
    /// The entries of `range` as the transaction sees them, in ascending key
    /// order: `snapshot` holds the store's entries at the start timestamp as
    /// the caller fetched them; a buffered put overrides the snapshot's value
    /// and a buffered delete removes the key. Entries outside the range are
    /// left out.
    ///
    /// Fails with `TransactionClosed` unless the transaction is active.
    pub fn scan(&self, range: BoundRange, snapshot: &Vec<(Key, Vec<u8>)>) -> (r: Result<
        Vec<(Key, Vec<u8>)>,
        Error,
    >)
        requires
            self.wf(),
        ensures
            self.status() != TxnState::Active ==> r is Err && r->Err_0 == Error::TransactionClosed,
            self.status() == TxnState::Active ==> r is Ok,
            r is Ok ==> keys_ascending(r->Ok_0@),
            r is Ok ==> forall|k: Seq<u8>|
                lookup(r->Ok_0@, k) == merged_value(
                    self.buffered(),
                    snapshot@,
                    start_key(range@.from),
                    end_key(range@.to),
                    k,
                ),
    {
        self.check_active()?;
        let ghost from = range@.from;
        let ghost to = range@.to;
        let (start, end) = range.into_keys();
        let ghost sv = start@;
        let ghost ev = crate::bound_range::opt_key_view(end);
        let ghost buf = self.buffer@;
        let mut out: Vec<(Key, Vec<u8>)> = Vec::new();
        let mut i: usize = 0;
        proof {
            assert(snapshot@.take(0) =~= Seq::<(Key, Vec<u8>)>::empty());
        }
        while i < snapshot.len()
            invariant
                self.wf(),
                buf == self.buffer@,
                keys_ascending(buf),
                sv == start@,
                ev == crate::bound_range::opt_key_view(end),
                i <= snapshot@.len(),
                keys_ascending(out@),
                forall|k: Seq<u8>|
                    lookup(out@, k) == if in_scan_range(k, sv, ev) && lookup(buf, k) is None {
                        last_value(snapshot@.take(i as int), k)
                    } else {
                        None
                    },
            decreases snapshot.len() - i,
        {
            let entry = &snapshot[i];
            let ghost kv = entry.0@;
            let ghost prev = out@;
            if in_range(&entry.0, &start, &end) && find(&self.buffer, &entry.0).is_none() {
                upsert(&mut out, entry.0.copied(), entry.1.clone());
            }
            proof {
                assert forall|k: Seq<u8>|
                    lookup(out@, k) == if in_scan_range(k, sv, ev) && lookup(buf, k) is None {
                        last_value(snapshot@.take(i + 1), k)
                    } else {
                        None
                    } by {
                    lemma_last_value_prefix(snapshot@, i as int, k);
                }
            }
            i = i + 1;
        }
        proof {
            assert(snapshot@.take(snapshot@.len() as int) =~= snapshot@);
            assert(buf.take(0) =~= Seq::<(Key, Mutation)>::empty());
        }
        let mut j: usize = 0;
        while j < self.buffer.len()
            invariant
                self.wf(),
                buf == self.buffer@,
                keys_ascending(buf),
                sv == start@,
                ev == crate::bound_range::opt_key_view(end),
                j <= buf.len(),
                keys_ascending(out@),
                forall|k: Seq<u8>|
                    lookup(out@, k) == if !in_scan_range(k, sv, ev) {
                        None
                    } else {
                        match lookup(buf.take(j as int), k) {
                            Some(MutationView::Put(v)) => Some(v),
                            Some(MutationView::Delete) => None,
                            None => if lookup(buf, k) is None {
                                last_value(snapshot@, k)
                            } else {
                                None
                            },
                        }
                    },
            decreases self.buffer.len() - j,
        {
            let entry = &self.buffer[j];
            let ghost kv = entry.0@;
            proof {
                lemma_lookup_at(buf, j as int);
            }
            match &entry.1 {
                Mutation::Put(v) => {
                    if in_range(&entry.0, &start, &end) {
                        upsert(&mut out, entry.0.copied(), v.clone());
                    }
                },
                Mutation::Delete => {},
            }
            proof {
                assert forall|k: Seq<u8>|
                    lookup(out@, k) == if !in_scan_range(k, sv, ev) {
                        None
                    } else {
                        match lookup(buf.take(j + 1), k) {
                            Some(MutationView::Put(v)) => Some(v),
                            Some(MutationView::Delete) => None,
                            None => if lookup(buf, k) is None {
                                last_value(snapshot@, k)
                            } else {
                                None
                            },
                        }
                    } by {
                    lemma_lookup_prefix(buf, j as int, k);
                    if k == kv && has_key(buf.take(j as int), k) {
                        let x = index_of(buf.take(j as int), k);
                        assert(buf[x].0@ == buf[j as int].0@);
                        assert(key_lt(buf[x].0@, buf[j as int].0@));
                        crate::key::lemma_key_lt_irreflexive(k);
                    }
                }
            }
            j = j + 1;
        }
        proof {
            assert(buf.take(buf.len() as int) =~= buf);
            assert(from == range@.from && to == range@.to);
        }
        Ok(out)
    }
}


impl Transaction {
    /// Starts the commit: the transaction moves from `Active` to
    /// `Prewriting`, and its buffered changes (see `mutations`) are to be
    /// prewritten. Fails with `TransactionClosed` in any other state.
    pub fn start_commit(&mut self) -> (r: Result<(), Error>)
        requires
            old(self).wf(),
        ensures
            final(self).wf(),
            r is Ok <==> old(self).status() == TxnState::Active,
            r is Ok ==> final(self).status() == TxnState::Prewriting,
            r is Err ==> r->Err_0 == Error::TransactionClosed && final(self).status() == old(self).status(),
            final(self).buffered() == old(self).buffered(),
            final(self).start_version() == old(self).start_version(),
            final(self).commit_version() == old(self).commit_version(),
    {
        self.check_active()?;
        self.state = TxnState::Prewriting;
        Ok(())
    }

    /// Takes the outcome of the prewrite. On success the transaction stays in
    /// `Prewriting`, ready for a commit timestamp; on a failure (a lock or a
    /// conflict) it is rolled back and the failure is handed back as it came.
    /// Fails with `TransactionClosed` unless the transaction is prewriting.
    pub fn finish_prewrite(&mut self, outcome: Result<(), Error>) -> (r: Result<(), Error>)
        requires
            old(self).wf(),
        ensures
            final(self).wf(),
            old(self).status() != TxnState::Prewriting ==> r == Err::<(), Error>(
                Error::TransactionClosed,
            ) && final(self).status() == old(self).status(),
            old(self).status() == TxnState::Prewriting ==> r == outcome && final(self).status() == (
            if outcome is Ok {
                TxnState::Prewriting
            } else {
                TxnState::RolledBack
            }),
            final(self).buffered() == old(self).buffered(),
            final(self).start_version() == old(self).start_version(),
            final(self).commit_version() == old(self).commit_version(),
    {
        if self.state != TxnState::Prewriting {
            return Err(Error::TransactionClosed);
        }
        if outcome.is_err() {
            self.state = TxnState::RolledBack;
        }
        outcome
    }

    /// Takes the commit timestamp after a successful prewrite and moves to
    /// `Committing`. A timestamp that is not after the start fails the commit
    /// with `CommitFailure` and leaves the transaction rolled back. Fails with
    /// `TransactionClosed` unless the transaction is prewriting.
    pub fn assign_commit_timestamp(&mut self, commit_ts: Timestamp) -> (r: Result<(), Error>)
        requires
            old(self).wf(),
        ensures
            final(self).wf(),
            old(self).status() != TxnState::Prewriting ==> r == Err::<(), Error>(
                Error::TransactionClosed,
            ) && final(self).status() == old(self).status() && final(self).commit_version() == old(self).commit_version(),
            old(self).status() == TxnState::Prewriting && commit_ts.version > old(self).start_version() ==> r is Ok && final(self).status() == TxnState::Committing
                && final(self).commit_version() == Some(commit_ts.version),
            old(self).status() == TxnState::Prewriting && commit_ts.version <= old(self).start_version() ==> r == Err::<(), Error>(Error::CommitFailure) && final(self).status()
                == TxnState::RolledBack && final(self).commit_version() == old(self).commit_version(),
            final(self).buffered() == old(self).buffered(),
            final(self).start_version() == old(self).start_version(),
    {
        if self.state != TxnState::Prewriting {
            return Err(Error::TransactionClosed);
        }
        if commit_ts.version <= self.start_ts.version {
            self.state = TxnState::RolledBack;
            return Err(Error::CommitFailure);
        }
        self.commit_ts = Some(commit_ts);
        self.state = TxnState::Committing;
        Ok(())
    }

    /// Takes the outcome of committing the primary key. On success the
    /// transaction is `Committed`; on failure it fails with `CommitFailure`
    /// and is left rolled back, never to be retried. Fails with
    /// `TransactionClosed` unless the transaction is committing.
    pub fn finish_primary_commit(&mut self, committed: bool) -> (r: Result<(), Error>)
        requires
            old(self).wf(),
        ensures
            final(self).wf(),
            old(self).status() != TxnState::Committing ==> r == Err::<(), Error>(
                Error::TransactionClosed,
            ) && final(self).status() == old(self).status(),
            old(self).status() == TxnState::Committing && committed ==> r is Ok && final(self).status() == TxnState::Committed,
            old(self).status() == TxnState::Committing && !committed ==> r == Err::<(), Error>(
                Error::CommitFailure,
            ) && final(self).status() == TxnState::RolledBack,
            final(self).buffered() == old(self).buffered(),
            final(self).start_version() == old(self).start_version(),
            final(self).commit_version() == old(self).commit_version(),
    {
        if self.state != TxnState::Committing {
            return Err(Error::TransactionClosed);
        }
        if committed {
            self.state = TxnState::Committed;
            Ok(())
        } else {
            self.state = TxnState::RolledBack;
            Err(Error::CommitFailure)
        }
    }

    /// Aborts the transaction: from `Active` or `Prewriting` it moves to
    /// `RolledBack`, and any locks placed are to be released. Fails with
    /// `TransactionClosed` in any other state.
    pub fn rollback(&mut self) -> (r: Result<(), Error>)
        requires
            old(self).wf(),
        ensures
            final(self).wf(),
            r is Ok <==> (old(self).status() == TxnState::Active || old(self).status()
                == TxnState::Prewriting),
            r is Ok ==> final(self).status() == TxnState::RolledBack,
            r is Err ==> r->Err_0 == Error::TransactionClosed && final(self).status() == old(self).status(),
            final(self).buffered() == old(self).buffered(),
            final(self).start_version() == old(self).start_version(),
            final(self).commit_version() == old(self).commit_version(),
    {
        if self.state == TxnState::Active || self.state == TxnState::Prewriting {
            self.state = TxnState::RolledBack;
            Ok(())
        } else {
            Err(Error::TransactionClosed)
        }
    }
}

/// A committed transaction's commit timestamp is strictly after its start
/// timestamp.
pub proof fn lemma_commit_after_start(t: &Transaction)
    requires
        t.wf(),
        t.status() == TxnState::Committed,
    ensures
        t.commit_version() is Some,
        t.commit_version()->0 > t.start_version(),
{
}

/// Read-your-own-writes: once `k` holds a buffered put of `v`, a read of `k`
/// yields `v` whatever the store holds, so no store read is needed.
pub proof fn lemma_read_own_write(
    t: &Transaction,
    k: Seq<u8>,
    v: Seq<u8>,
    store_a: Option<Seq<u8>>,
    store_b: Option<Seq<u8>>,
)
    requires
        lookup(t.buffered(), k) == Some(MutationView::Put(v)),
    ensures
        read_through(t.buffered(), store_a, k) == Some(v),
        read_through(t.buffered(), store_a, k) == read_through(t.buffered(), store_b, k),
{
}

/// A key deleted in the buffer is left out of every scan, whatever the
/// snapshot holds for it.
pub proof fn lemma_deleted_key_not_scanned(
    t: &Transaction,
    snapshot: Seq<(Key, Vec<u8>)>,
    start: Seq<u8>,
    end: Option<Seq<u8>>,
    k: Seq<u8>,
)
    requires
        lookup(t.buffered(), k) == Some(MutationView::Delete),
    ensures
        merged_value(t.buffered(), snapshot, start, end, k) is None,
{
}

/// The buffer of a well-formed transaction is ordered by key.
pub proof fn lemma_buffer_ascending(t: &Transaction)
    requires
        t.wf(),
    ensures
        keys_ascending(t.buffered()),
{
}

} // verus!
