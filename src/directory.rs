use vstd::prelude::*;

use crate::error::Error;
use crate::key::{key_lt, lemma_key_lt_total, lemma_key_lt_transitive, Key};
use crate::transaction::{in_range, in_scan_range};
use crate::bound_range::opt_key_view;

verus! {

/// A cluster node: its identity and address.
#[derive(Debug)]
pub struct Store {
    pub id: u64,
    pub address: String,
}

/// A contiguous key range `[start, end)` owned by one leader store; an
/// absent end stands for the end of the key space. The epoch changes
/// whenever the range or its placement does.
#[derive(Debug)]
pub struct Region {
    pub id: u64,
    pub start: Key,
    pub end: Option<Key>,
    pub epoch: u64,
    pub leader: u64,
}

/// A region over bytes.
pub struct RegionView {
    pub id: u64,
    pub start: Seq<u8>,
    pub end: Option<Seq<u8>>,
    pub epoch: u64,
    pub leader: u64,
}

impl View for Region {
    type V = RegionView;

    open spec fn view(&self) -> RegionView {
        RegionView {
            id: self.id,
            start: self.start@,
            end: opt_key_view(self.end),
            epoch: self.epoch,
            leader: self.leader,
        }
    }
}

/// Whether region `r` owns key `k`.
pub open spec fn owns(r: RegionView, k: Seq<u8>) -> bool {
    in_scan_range(k, r.start, r.end)
}

/// Whether `k` lies below an optional exclusive end.
pub open spec fn below_end(k: Seq<u8>, end: Option<Seq<u8>>) -> bool {
    match end {
        Some(e) => key_lt(k, e),
        None => true,
    }
}

/// Whether the ranges of two regions share a key.
pub open spec fn overlaps(a: RegionView, b: RegionView) -> bool {
    below_end(a.start, b.end) && below_end(b.start, a.end)
}

/// Regions whose ranges do not overlap own no key in common.
pub proof fn lemma_disjoint_regions(a: RegionView, b: RegionView, k: Seq<u8>)
    requires
        !overlaps(a, b),
        owns(a, k),
    ensures
        !owns(b, k),
{
    if owns(b, k) {
        if !below_end(a.start, b.end) {
            let e = b.end->0;
            if e != a.start {
                lemma_key_lt_total(e, a.start);
                lemma_key_lt_transitive(k, e, a.start);
            }
        } else {
            let e = a.end->0;
            if e != b.start {
                lemma_key_lt_total(e, b.start);
                lemma_key_lt_transitive(k, e, b.start);
            }
        }
    }
}

fn below(k: &Key, end: &Option<Key>) -> (r: bool)
    ensures
        r == below_end(k@, opt_key_view(*end)),
{
    match end {
        Some(e) => k.less_than(e),
        None => true,
    }
}

fn regions_overlap(a: &Region, b: &Region) -> (r: bool)
    ensures
        r == overlaps(a@, b@),
{
    below(&a.start, &b.end) && below(&b.start, &a.end)
}

/// The regions as views.
pub open spec fn regions_view(rs: Seq<Region>) -> Seq<RegionView> {
    rs.map_values(|r: Region| r@)
}

/// No two regions of `rs` overlap.
pub open spec fn pairwise_disjoint(rs: Seq<RegionView>) -> bool {
    forall|i: int, j: int| 0 <= i < rs.len() && 0 <= j < rs.len() && i != j ==> !overlaps(#[trigger] rs[i], #[trigger] rs[j])
}

/// Adding an element of a pairwise-disjoint sequence to a pairwise-disjoint
/// selection of its other elements keeps the selection pairwise disjoint.
proof fn lemma_disjoint_push(before: Seq<RegionView>, kept: Seq<RegionView>, n: int)
    requires
        0 <= n < before.len(),
        pairwise_disjoint(before),
        pairwise_disjoint(kept),
        forall|x: RegionView| #[trigger] kept.contains(x) ==> (exists|j: int| n < j < before.len() && #[trigger] before[j] == x),
    ensures
        pairwise_disjoint(kept.push(before[n])),
{
    let kv = kept.push(before[n]);
    assert forall|a: int, b: int| 0 <= a < kv.len() && 0 <= b < kv.len() && a != b implies !overlaps(#[trigger] kv[a], #[trigger] kv[b]) by {
        if a < kept.len() && b < kept.len() {
            assert(kept[a] == kv[a] && kept[b] == kv[b]);
        } else if a < kept.len() {
            assert(kept.contains(kept[a]));
            let j = choose|j: int| n < j < before.len() && #[trigger] before[j] == kept[a];
            assert(!overlaps(before[j], before[n]));
        } else {
            assert(kept.contains(kept[b]));
            let j = choose|j: int| n < j < before.len() && #[trigger] before[j] == kept[b];
            assert(!overlaps(before[n], before[j]));
        }
    }
}

/// The address recorded last for store `id` in `entries`.
pub open spec fn address_of(entries: Seq<(u64, Seq<char>)>, id: u64) -> Option<Seq<char>>
    decreases entries.len(),
{
    if entries.len() == 0 {
        None
    } else if entries.last().0 == id {
        Some(entries.last().1)
    } else {
        address_of(entries.drop_last(), id)
    }
}

/// Replacing an entry by one with the same identity changes only what is
/// recorded for that identity, and records the new address where no later
/// entry has it.
proof fn lemma_address_update(s: Seq<(u64, Seq<char>)>, i: int, e: (u64, Seq<char>))
    requires
        0 <= i < s.len(),
        s[i].0 == e.0,
        forall|j: int| i < j < s.len() ==> s[j].0 != e.0,
    ensures
        address_of(s.update(i, e), e.0) == Some(e.1),
        forall|id: u64| id != e.0 ==> address_of(s.update(i, e), id) == address_of(s, id),
    decreases s.len(),
{
    let u = s.update(i, e);
    if i == s.len() - 1 {
        assert(u.drop_last() =~= s.drop_last());
        assert(u.last() == e);
        assert(s.last() == s[i]);
    } else {
        assert(u.drop_last() =~= s.drop_last().update(i, e));
        assert(u.last() == s.last());
        assert(s.last() == s[s.len() - 1]);
        lemma_address_update(s.drop_last(), i, e);
    }
    assert forall|id: u64| id != e.0 implies address_of(u, id) == address_of(s, id) by {
        if i == s.len() - 1 {
            assert(address_of(u, id) == address_of(u.drop_last(), id));
            assert(address_of(s, id) == address_of(s.drop_last(), id));
        } else {
            assert(address_of(s.drop_last().update(i, e), id) == address_of(s.drop_last(), id));
        }
    }
}

/// The cached view of the cluster: the regions known, which never overlap,
/// and the stores known.
pub struct RegionCache {
    regions: Vec<Region>,
    stores: Vec<Store>,
}

impl RegionCache {
    /// The cached regions never overlap.
    pub closed spec fn wf(&self) -> bool {
        pairwise_disjoint(self.regions())
    }

    /// The cached regions.
    pub closed spec fn regions(&self) -> Seq<RegionView> {
        regions_view(self.regions@)
    }

    /// The cached stores, as identity and address.
    pub closed spec fn store_entries(&self) -> Seq<(u64, Seq<char>)> {
        self.stores@.map_values(|s: Store| (s.id, s.address@))
    }

    /// The address of the cached store `id`, if it is cached.
    pub open spec fn store_address(&self, id: u64) -> Option<Seq<char>> {
        address_of(self.store_entries(), id)
    }

    /// An empty cache.
    pub fn new() -> (r: RegionCache)
        ensures
            r.wf(),
            r.regions() == Seq::<RegionView>::empty(),
            r.store_entries() == Seq::<(u64, Seq<char>)>::empty(),
    {
        let r = RegionCache { regions: Vec::new(), stores: Vec::new() };
        proof {
            assert(r.regions() =~= Seq::<RegionView>::empty());
            assert(r.store_entries() =~= Seq::<(u64, Seq<char>)>::empty());
        }
        r
    }

    /// The cached region that owns `key`; none on a cache miss, after which
    /// the region is to be fetched and cached with `put_region`.
    pub fn get_region(&self, key: &Key) -> (r: Option<&Region>)
        requires
            self.wf(),
        ensures
            match r {
                Some(reg) => owns(reg@, key@) && self.regions().contains(reg@),
                None => forall|i: int| 0 <= i < self.regions().len() ==> !owns(#[trigger] self.regions()[i], key@),
            },
    {
        let mut i: usize = 0;
        while i < self.regions.len()
            invariant
                i <= self.regions@.len(),
                forall|j: int| 0 <= j < i ==> !owns(#[trigger] self.regions()[j], key@),
            decreases self.regions.len() - i,
        {
            let reg = &self.regions[i];
            assert(self.regions()[i as int] == reg@);
            if in_range(key, &reg.start, &reg.end) {
                return Some(reg);
            }
            i = i + 1;
        }
        None
    }

    /// Caches `region`, dropping every cached region that overlaps it: those
    /// describe an older layout of its range.
    pub fn put_region(&mut self, region: Region)
        requires
            old(self).wf(),
        ensures
            final(self).wf(),
            final(self).regions().contains(region@),
            forall|x: RegionView| #[trigger] final(self).regions().contains(x) <==> (x == region@ || (
            old(self).regions().contains(x) && !overlaps(x, region@))),
            final(self).store_entries() == old(self).store_entries(),
    {
        let ghost before = self.regions();
        let ghost rv = region@;
        let mut kept: Vec<Region> = Vec::new();
        proof {
            assert(regions_view(self.regions@) =~= before.take(before.len() as int));
            assert(regions_view(kept@) =~= Seq::<RegionView>::empty());
        }
        while self.regions.len() > 0
            invariant
                self.stores@ == old(self).stores@,
                before == old(self).regions(),
                rv == region@,
                self.regions@.len() <= before.len(),
                regions_view(self.regions@) == before.take(self.regions@.len() as int),
                pairwise_disjoint(before),
                pairwise_disjoint(regions_view(kept@)),
                forall|x: RegionView| #[trigger] regions_view(kept@).contains(x) ==> !overlaps(x, rv),
                forall|x: RegionView| #[trigger] regions_view(kept@).contains(x) <==> (exists|j: int| self.regions@.len() <= j < before.len() && #[trigger] before[j] == x && !overlaps(x, rv)),
            decreases self.regions.len(),
        {
            let ghost n = self.regions@.len() as int;
            let ghost prev = self.regions@;
            let ghost kv0 = regions_view(kept@);
            let r = self.regions.pop().unwrap();
            proof {
                assert(prev.drop_last() == self.regions@);
                assert(regions_view(self.regions@) =~= before.take(n - 1));
                assert(regions_view(prev)[n - 1] == r@);
                assert(before.take(n)[n - 1] == before[n - 1]);
            }
            if !regions_overlap(&r, &region) {
                let ghost x0 = r@;
                kept.push(r);
                proof {
                    assert(regions_view(kept@) =~= kv0.push(x0));
                    lemma_disjoint_push(before, kv0, n - 1);
                }
            }
            proof {
                let kv = regions_view(kept@);
                assert forall|x: RegionView| #[trigger] kv.contains(x) <==> (exists|j: int| n - 1 <= j < before.len() && #[trigger] before[j] == x && !overlaps(x, rv)) by {
                    if kv.contains(x) {
                        if kv0.contains(x) {
                            let j = choose|j: int| n <= j < before.len() && #[trigger] before[j] == x && !overlaps(x, rv);
                        } else {
                            let m = choose|m: int| 0 <= m < kv.len() && kv[m] == x;
                            if m < kv0.len() {
                                assert(kv0[m] == x);
                            }
                            assert(before[n - 1] == x);
                        }
                    }
                    if exists|j: int| n - 1 <= j < before.len() && #[trigger] before[j] == x && !overlaps(x, rv) {
                        let j = choose|j: int| n - 1 <= j < before.len() && #[trigger] before[j] == x && !overlaps(x, rv);
                        if j >= n {
                            assert(before[j] == x);
                            assert(kv0.contains(x));
                            let m = choose|m: int| 0 <= m < kv0.len() && kv0[m] == x;
                            assert(kv[m] == x);
                        } else {
                            assert(kv[kv.len() - 1] == x);
                        }
                    }
                }
            }
        }
        let ghost kv0 = regions_view(kept@);
        kept.push(region);
        proof {
            let kv = regions_view(kept@);
            assert(kv =~= kv0.push(rv));
            assert(kv[kv.len() - 1] == rv);
            assert forall|a: int, b: int| 0 <= a < kv.len() && 0 <= b < kv.len() && a != b implies !overlaps(#[trigger] kv[a], #[trigger] kv[b]) by {
                if a < kv0.len() && b < kv0.len() {
                    assert(kv0[a] == kv[a] && kv0[b] == kv[b]);
                } else if a < kv0.len() {
                    assert(kv0.contains(kv0[a]));
                } else {
                    assert(kv0.contains(kv0[b]));
                }
            }
            assert forall|x: RegionView| #[trigger] kv.contains(x) <==> (x == rv || (before.contains(x) && !overlaps(x, rv))) by {
                if kv.contains(x) && x != rv {
                    let m = choose|m: int| 0 <= m < kv.len() && kv[m] == x;
                    assert(kv0[m] == x);
                    assert(kv0.contains(x));
                    let j = choose|j: int| 0 <= j < before.len() && #[trigger] before[j] == x && !overlaps(x, rv);
                }
                if before.contains(x) && !overlaps(x, rv) {
                    let j = choose|j: int| 0 <= j < before.len() && before[j] == x;
                    assert(before[j] == x);
                    assert(kv0.contains(x));
                    let m = choose|m: int| 0 <= m < kv0.len() && kv0[m] == x;
                    assert(kv[m] == x);
                }
            }
        }
        self.regions = kept;
    }

    /// Drops every cached region with identity `id`, whose routing turned out stale.
    pub fn invalidate(&mut self, id: u64)
        requires
            old(self).wf(),
        ensures
            final(self).wf(),
            forall|x: RegionView| #[trigger] final(self).regions().contains(x) <==> (
            old(self).regions().contains(x) && x.id != id),
            final(self).store_entries() == old(self).store_entries(),
    {
        let ghost before = self.regions();
        let mut kept: Vec<Region> = Vec::new();
        proof {
            assert(regions_view(self.regions@) =~= before.take(before.len() as int));
            assert(regions_view(kept@) =~= Seq::<RegionView>::empty());
        }
        while self.regions.len() > 0
            invariant
                self.stores@ == old(self).stores@,
                before == old(self).regions(),
                self.regions@.len() <= before.len(),
                regions_view(self.regions@) == before.take(self.regions@.len() as int),
                pairwise_disjoint(before),
                pairwise_disjoint(regions_view(kept@)),
                forall|x: RegionView| #[trigger] regions_view(kept@).contains(x) <==> (exists|j: int| self.regions@.len() <= j < before.len() && #[trigger] before[j] == x && x.id != id),
            decreases self.regions.len(),
        {
            let ghost n = self.regions@.len() as int;
            let ghost prev = self.regions@;
            let ghost kv0 = regions_view(kept@);
            let r = self.regions.pop().unwrap();
            proof {
                assert(prev.drop_last() == self.regions@);
                assert(regions_view(self.regions@) =~= before.take(n - 1));
                assert(regions_view(prev)[n - 1] == r@);
                assert(before.take(n)[n - 1] == before[n - 1]);
            }
            if r.id != id {
                let ghost x0 = r@;
                kept.push(r);
                proof {
                    assert(regions_view(kept@) =~= kv0.push(x0));
                    lemma_disjoint_push(before, kv0, n - 1);
                }
            }
            proof {
                let kv = regions_view(kept@);
                assert forall|x: RegionView| #[trigger] kv.contains(x) <==> (exists|j: int| n - 1 <= j < before.len() && #[trigger] before[j] == x && x.id != id) by {
                    if kv.contains(x) {
                        if kv0.contains(x) {
                            let j = choose|j: int| n <= j < before.len() && #[trigger] before[j] == x && x.id != id;
                        } else {
                            let m = choose|m: int| 0 <= m < kv.len() && kv[m] == x;
                            if m < kv0.len() {
                                assert(kv0[m] == x);
                            }
                            assert(before[n - 1] == x);
                        }
                    }
                    if exists|j: int| n - 1 <= j < before.len() && #[trigger] before[j] == x && x.id != id {
                        let j = choose|j: int| n - 1 <= j < before.len() && #[trigger] before[j] == x && x.id != id;
                        if j >= n {
                            assert(before[j] == x);
                            assert(kv0.contains(x));
                            let m = choose|m: int| 0 <= m < kv0.len() && kv0[m] == x;
                            assert(kv[m] == x);
                        } else {
                            assert(kv[kv.len() - 1] == x);
                        }
                    }
                }
            }
        }
        proof {
            let kv = regions_view(kept@);
            assert forall|x: RegionView| #[trigger] kv.contains(x) <==> (before.contains(x) && x.id != id) by {
                if kv.contains(x) {
                    let j = choose|j: int| 0 <= j < before.len() && #[trigger] before[j] == x && x.id != id;
                }
                if before.contains(x) && x.id != id {
                    let j = choose|j: int| 0 <= j < before.len() && before[j] == x;
                    assert(before[j] == x);
                }
            }
        }
        self.regions = kept;
    }

    /// Caches `store`, replacing the cached store with the same identity.
    pub fn put_store(&mut self, store: Store)
        ensures
            final(self).regions() == old(self).regions(),
            final(self).store_address(store.id) == Some(store.address@),
            forall|id: u64| id != store.id ==> final(self).store_address(id) == old(self).store_address(id),
    {
        let ghost e = (store.id, store.address@);
        let mut i: usize = self.stores.len();
        while i > 0
            invariant
                self.regions@ == old(self).regions@,
                self.stores@ == old(self).stores@,
                e == (store.id, store.address@),
                i <= self.stores@.len(),
                forall|j: int| i <= j < self.stores@.len() ==> self.store_entries()[j].0 != store.id,
            decreases i,
        {
            i = i - 1;
            if self.stores[i].id == store.id {
                let ghost before = self.store_entries();
                let ghost prev = self.stores@;
                let ghost sv = store;
                proof {
                    assert(before[i as int].0 == prev[i as int].id);
                    lemma_address_update(before, i as int, e);
                }
                self.stores.set(i, store);
                proof {
                    assert(self.stores@ == prev.update(i as int, sv));
                    assert(self.store_entries() =~= before.update(i as int, e));
                }
                return;
            }
        }
        let ghost before = self.store_entries();
        self.stores.push(store);
        proof {
            assert(self.store_entries() =~= before.push(e));
            assert(self.store_entries().drop_last() =~= before);
        }
    }

    /// The cached store `id`; `NotFound` where none is cached.
    pub fn get_store(&self, id: u64) -> (r: Result<&Store, Error>)
        ensures
            match r {
                Ok(s) => s.id == id && self.store_address(id) == Some(s.address@),
                Err(e) => e == Error::NotFound && self.store_address(id) is None,
            },
    {
        let ghost all = self.store_entries();
        let mut i: usize = self.stores.len();
        proof {
            assert(all.take(all.len() as int) =~= all);
        }
        while i > 0
            invariant
                all == self.store_entries(),
                all.len() == self.stores@.len(),
                i <= all.len(),
                address_of(all, id) == address_of(all.take(i as int), id),
            decreases i,
        {
            proof {
                assert(all.take(i as int).drop_last() =~= all.take(i - 1));
                assert(all.take(i as int).last() == all[i - 1]);
            }
            if self.stores[i - 1].id == id {
                return Ok(&self.stores[i - 1]);
            }
            i = i - 1;
        }
        Err(Error::NotFound)
    }
}

/// In a well-formed cache at most one region owns a key, so the region
/// that `get_region` finds is the owner.
pub proof fn lemma_owner_unique(c: &RegionCache, k: Seq<u8>, i: int, j: int)
    requires
        c.wf(),
        0 <= i < c.regions().len(),
        0 <= j < c.regions().len(),
        owns(c.regions()[i], k),
        owns(c.regions()[j], k),
    ensures
        i == j,
{
    if i != j {
        assert(!overlaps(c.regions()[i], c.regions()[j]));
        lemma_disjoint_regions(c.regions()[i], c.regions()[j], k);
    }
}

/// The delay before retry `attempt` (counting from zero): `base` doubled
/// once per earlier retry, never above `cap`.
pub open spec fn backoff(attempt: nat, base: u64, cap: u64) -> int
    decreases attempt,
{
    if attempt == 0 {
        if base <= cap { base as int } else { cap as int }
    } else {
        let d = 2 * backoff((attempt - 1) as nat, base, cap);
        if d <= cap { d } else { cap as int }
    }
}

/// The delay in milliseconds before retry `attempt` of a failed call, or
/// none once `max_attempts` retries are used up and the call is to fail
/// with `ConnectionError`.
pub fn backoff_delay(attempt: u32, base: u64, cap: u64, max_attempts: u32) -> (r: Option<u64>)
    ensures
        attempt >= max_attempts ==> r is None,
        attempt < max_attempts ==> r is Some && r->0 == backoff(attempt as nat, base, cap),
{
    if attempt >= max_attempts {
        return None;
    }
    let mut d: u64 = if base <= cap { base } else { cap };
    let mut i: u32 = 0;
    while i < attempt
        invariant
            i <= attempt,
            d <= cap,
            d == backoff(i as nat, base, cap),
        decreases attempt - i,
    {
        d = if d > cap / 2 { cap } else if 2 * d <= cap { 2 * d } else { cap };
        i = i + 1;
    }
    Some(d)
}

/// The first endpoint, in the order tried, that answered; `ConnectionError`
/// when none did.
pub fn first_reachable(answered: &Vec<bool>) -> (r: Result<usize, Error>)
    ensures
        match r {
            Ok(i) => i < answered@.len() && answered@[i as int] && forall|j: int|
                0 <= j < i ==> !answered@[j],
            Err(e) => e == Error::ConnectionError && forall|j: int|
                0 <= j < answered@.len() ==> !answered@[j],
        },
{
    let mut i: usize = 0;
    while i < answered.len()
        invariant
            i <= answered@.len(),
            forall|j: int| 0 <= j < i ==> !answered@[j],
        decreases answered.len() - i,
    {
        if answered[i] {
            return Ok(i);
        }
        i = i + 1;
    }
    Err(Error::ConnectionError)
}

} // verus!
