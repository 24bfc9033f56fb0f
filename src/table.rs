use vstd::prelude::*;

use crate::key::{key_lt, lemma_key_lt_irreflexive, lemma_key_lt_total, lemma_key_lt_transitive, Key};

verus! {

/// The keys of `r` ascend strictly in byte-wise order.
pub open spec fn keys_ascending<V>(r: Seq<(Key, V)>) -> bool {
    forall|i: int, j: int| 0 <= i < j < r.len() ==> key_lt(#[trigger] r[i].0@, #[trigger] r[j].0@)
}

/// Whether some entry of `r` has key `k`.
pub open spec fn has_key<V>(r: Seq<(Key, V)>, k: Seq<u8>) -> bool {
    exists|i: int| 0 <= i < r.len() && #[trigger] r[i].0@ == k
}

/// A position of an entry with key `k`, where there is one.
pub open spec fn index_of<V>(r: Seq<(Key, V)>, k: Seq<u8>) -> int {
    choose|i: int| 0 <= i < r.len() && #[trigger] r[i].0@ == k
}

/// The value stored under `k` in a table whose keys are distinct, as its view.
pub open spec fn lookup<V: View>(r: Seq<(Key, V)>, k: Seq<u8>) -> Option<V::V> {
    if has_key(r, k) {
        Some(r[index_of(r, k)].1@)
    } else {
        None
    }
}

/// In an ascending table, the entry at `i` is the one that `lookup` finds.
pub proof fn lemma_lookup_at<V: View>(r: Seq<(Key, V)>, i: int)
    requires
        keys_ascending(r),
        0 <= i < r.len(),
    ensures
        lookup(r, r[i].0@) == Some(r[i].1@),
{
    let k = r[i].0@;
    assert(has_key(r, k));
    let j = index_of(r, k);
    if j < i {
        assert(key_lt(r[j].0@, r[i].0@));
        lemma_key_lt_irreflexive(k);
    } else if j > i {
        assert(key_lt(r[i].0@, r[j].0@));
        lemma_key_lt_irreflexive(k);
    }
}

/// The position of the entry with key `k`, if there is one.
pub fn find<V: View>(r: &Vec<(Key, V)>, k: &Key) -> (res: Option<usize>)
    requires
        keys_ascending(r@),
    ensures
        match res {
            Some(i) => i < r@.len() && r@[i as int].0@ == k@ && lookup(r@, k@) == Some(
                r@[i as int].1@,
            ),
            None => !has_key(r@, k@) && lookup(r@, k@) is None,
        },
{
    let mut i: usize = 0;
    while i < r.len()
        invariant
            keys_ascending(r@),
            i <= r@.len(),
            forall|j: int| 0 <= j < i ==> r@[j].0@ != k@,
        decreases r.len() - i,
    {
        if r[i].0.same_as(k) {
            proof {
                lemma_lookup_at(r@, i as int);
            }
            return Some(i);
        }
        i = i + 1;
    }
    None
}

/// Sets the value under `k`, replacing the entry with that key or inserting
/// one where the order puts it.
pub fn upsert<V: View>(r: &mut Vec<(Key, V)>, k: Key, v: V)
    requires
        keys_ascending(old(r)@),
    ensures
        keys_ascending(final(r)@),
        lookup(final(r)@, k@) == Some(v@),
        forall|k2: Seq<u8>| k2 != k@ ==> lookup(final(r)@, k2) == lookup(old(r)@, k2),
{
    let mut i: usize = 0;
    while i < r.len() && r[i].0.less_than(&k)
        invariant
            keys_ascending(r@),
            i <= r@.len(),
            forall|j: int| 0 <= j < i ==> key_lt(#[trigger] r@[j].0@, k@),
        decreases r.len() - i,
    {
        i = i + 1;
    }
    let ghost old_r = r@;
    let ghost kv = k@;
    if i < r.len() && r[i].0.same_as(&k) {
        r.set(i, (k, v));
        proof {
            assert(keys_ascending(r@)) by {
                assert forall|a: int, b: int| 0 <= a < b < r@.len() implies key_lt(
                    #[trigger] r@[a].0@,
                    #[trigger] r@[b].0@,
                ) by {
                    assert(key_lt(old_r[a].0@, old_r[b].0@));
                }
            }
            lemma_lookup_at(r@, i as int);
            assert forall|k2: Seq<u8>| k2 != kv implies lookup(r@, k2) == lookup(old_r, k2) by {
                if has_key(old_r, k2) {
                    let j = choose|j: int| 0 <= j < old_r.len() && #[trigger] old_r[j].0@ == k2;
                    lemma_lookup_at(old_r, j);
                    lemma_lookup_at(r@, j);
                } else if has_key(r@, k2) {
                    let j = choose|j: int| 0 <= j < r@.len() && #[trigger] r@[j].0@ == k2;
                    assert(old_r[j].0@ == k2);
                }
            }
        }
    } else {
        proof {
            if i < old_r.len() {
                assert(!key_lt(old_r[i as int].0@, kv));
                lemma_key_lt_total(old_r[i as int].0@, kv);
            }
        }
        r.insert(i, (k, v));
        proof {
            assert forall|a: int, b: int| 0 <= a < b < r@.len() implies key_lt(
                #[trigger] r@[a].0@,
                #[trigger] r@[b].0@,
            ) by {
                if b < i {
                    assert(key_lt(old_r[a].0@, old_r[b].0@));
                } else if b == i {
                    assert(key_lt(old_r[a].0@, kv));
                } else if a == i {
                    if b - 1 > i {
                        assert(key_lt(old_r[i as int].0@, old_r[b - 1].0@));
                        lemma_key_lt_transitive(kv, old_r[i as int].0@, old_r[b - 1].0@);
                    }
                } else if a < i {
                    assert(key_lt(old_r[a].0@, old_r[b - 1].0@));
                } else {
                    assert(key_lt(old_r[a - 1].0@, old_r[b - 1].0@));
                }
            }
            lemma_lookup_at(r@, i as int);
            assert forall|k2: Seq<u8>| k2 != kv implies lookup(r@, k2) == lookup(old_r, k2) by {
                if has_key(old_r, k2) {
                    let j = choose|j: int| 0 <= j < old_r.len() && #[trigger] old_r[j].0@ == k2;
                    lemma_lookup_at(old_r, j);
                    if j < i {
                        assert(r@[j] == old_r[j]);
                        lemma_lookup_at(r@, j);
                    } else {
                        assert(r@[j + 1] == old_r[j]);
                        lemma_lookup_at(r@, j + 1);
                    }
                } else if has_key(r@, k2) {
                    let j = choose|j: int| 0 <= j < r@.len() && #[trigger] r@[j].0@ == k2;
                    if j < i {
                        assert(old_r[j].0@ == k2);
                    } else if j > i {
                        assert(old_r[j - 1].0@ == k2);
                    }
                }
            }
        }
    }
}


/// In an ascending table, what a prefix one entry longer finds: that entry
/// under its key, and what the shorter prefix finds elsewhere.
pub proof fn lemma_lookup_prefix<V: View>(r: Seq<(Key, V)>, j: int, k: Seq<u8>)
    requires
        keys_ascending(r),
        0 <= j < r.len(),
    ensures
        keys_ascending(r.take(j)),
        keys_ascending(r.take(j + 1)),
        lookup(r.take(j + 1), k) == if k == r[j].0@ {
            Some(r[j].1@)
        } else {
            lookup(r.take(j), k)
        },
{
    let p = r.take(j);
    let q = r.take(j + 1);
    assert(keys_ascending(p)) by {
        assert forall|a: int, b: int| 0 <= a < b < p.len() implies key_lt(
            #[trigger] p[a].0@,
            #[trigger] p[b].0@,
        ) by {
            assert(key_lt(r[a].0@, r[b].0@));
        }
    }
    assert(keys_ascending(q)) by {
        assert forall|a: int, b: int| 0 <= a < b < q.len() implies key_lt(
            #[trigger] q[a].0@,
            #[trigger] q[b].0@,
        ) by {
            assert(key_lt(r[a].0@, r[b].0@));
        }
    }
    if k == r[j].0@ {
        assert(q[j] == r[j]);
        lemma_lookup_at(q, j);
    } else {
        if has_key(p, k) {
            let i = index_of(p, k);
            lemma_lookup_at(p, i);
            assert(q[i] == p[i]);
            lemma_lookup_at(q, i);
        } else if has_key(q, k) {
            let i = index_of(q, k);
            assert(i != j);
            assert(p[i] == q[i]);
        }
    }
}

} // verus!
