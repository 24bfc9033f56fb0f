use vstd::prelude::*;

use crate::error::Error;

verus! {

/// The number of distinct logical counter values under one physical time.
pub const LOGICAL_SPAN: u64 = 262144;

/// The largest physical time that a timestamp can carry.
pub const MAX_PHYSICAL: u64 = 70368744177663;

/// A point of the cluster's logical clock: physical time in the high bits and
/// a logical counter in the low bits, compared as one 64-bit number.
#[derive(Clone, Copy, Debug, PartialEq, Eq, Structural)]
pub struct Timestamp {
    pub version: u64,
}

/// The version that a physical time and a logical counter compose to.
pub open spec fn compose(physical: int, logical: int) -> int {
    physical * LOGICAL_SPAN + logical
}

impl Timestamp {
    /// The timestamp with the given physical time and logical counter.
    pub fn from_parts(physical: u64, logical: u64) -> (r: Timestamp)
        requires
            physical <= MAX_PHYSICAL,
            logical < LOGICAL_SPAN,
        ensures
            r.version == compose(physical as int, logical as int),
    {
        proof {
            assert(physical * LOGICAL_SPAN <= MAX_PHYSICAL * LOGICAL_SPAN) by (nonlinear_arith)
                requires physical <= MAX_PHYSICAL;
        }
        Timestamp { version: physical * LOGICAL_SPAN + logical }
    }

    /// The physical part of the timestamp.
    pub fn physical(&self) -> (r: u64)
        ensures
            r == self.version / LOGICAL_SPAN,
    {
        self.version / LOGICAL_SPAN
    }

    /// The logical part of the timestamp.
    pub fn logical(&self) -> (r: u64)
        ensures
            r == self.version % LOGICAL_SPAN,
    {
        self.version % LOGICAL_SPAN
    }

    /// Whether `self` happens strictly before `other`.
    pub fn before(&self, other: &Timestamp) -> (r: bool)
        ensures
            r == (self.version < other.version),
    {
        self.version < other.version
    }
}

/// Whether every element of `s` is strictly greater than the one before it.
pub open spec fn strictly_increasing(s: Seq<u64>) -> bool {
    forall|i: int, j: int| 0 <= i < j < s.len() ==> s[i] < s[j]
}

/// The version that the allocator hands out next, given the last one it
/// issued and the physical time now: the first logical tick of `now`, unless
/// that does not pass the last one, in which case the one after the last.
pub open spec fn next_version(last: int, now: int) -> int {
    if compose(now, 0) > last {
        compose(now, 0)
    } else {
        last + 1
    }
}

/// Allocates timestamps, each strictly greater than every one it issued before.
///
/// The physical time comes from the caller; the allocator only decides.
pub struct TimestampOracle {
    last: u64,
    issued: Ghost<Seq<u64>>,
}

impl TimestampOracle {
    /// Every issued timestamp is below the next one, and `last` is the greatest.
    pub closed spec fn wf(&self) -> bool {
        strictly_increasing(self.issued@) && (self.issued@.len() == 0 ==> self.last == 0) && (
        self.issued@.len() > 0 ==> self.last == self.issued@.last())
    }

    /// The versions issued so far, in order.
    pub closed spec fn issued(&self) -> Seq<u64> {
        self.issued@
    }

    /// The greatest version issued so far, zero before the first.
    pub closed spec fn last_issued(&self) -> u64 {
        self.last
    }

    /// An allocator that has issued nothing.
    pub fn new() -> (r: TimestampOracle)
        ensures
            r.wf(),
            r.issued() == Seq::<u64>::empty(),
            r.last_issued() == 0,
    {
        TimestampOracle { last: 0, issued: Ghost(Seq::empty()) }
    }

    /// An allocator that resumes after `last`, which it treats as already issued.
    pub fn resume_after(last: Timestamp) -> (r: TimestampOracle)
        ensures
            r.wf(),
            r.issued() == Seq::<u64>::empty().push(last.version),
            r.last_issued() == last.version,
    {
        TimestampOracle { last: last.version, issued: Ghost(Seq::empty().push(last.version)) }
    }

    /// The greatest version issued so far.
    pub fn last(&self) -> (r: u64)
        ensures
            r == self.last_issued(),
    {
        self.last
    }

    /// Issues a timestamp strictly greater than every one issued before.
    ///
    /// `now` is the physical time. Fails with `TimestampOverflow`, issuing
    /// nothing, when `now` is beyond `MAX_PHYSICAL` or the 64-bit space is used up.
    pub fn request_timestamp(&mut self, now: u64) -> (r: Result<Timestamp, Error>)
        requires
            old(self).wf(),
        ensures
            final(self).wf(),
            r is Ok <==> (now <= MAX_PHYSICAL && old(self).last_issued() < u64::MAX),
            r is Err ==> r->Err_0 == Error::TimestampOverflow && *final(self) == *old(self),
            r is Ok ==> {
                let v = r->Ok_0.version;
                &&& v == next_version(old(self).last_issued() as int, now as int)
                &&& v > old(self).last_issued()
                &&& final(self).last_issued() == v
                &&& final(self).issued() == old(self).issued().push(v)
                &&& forall|i: int| 0 <= i < old(self).issued().len() ==> old(self).issued()[i] < v
            },
    {
        if now > MAX_PHYSICAL || self.last == u64::MAX {
            return Err(Error::TimestampOverflow);
        }
        let start = Timestamp::from_parts(now, 0);
        let v = if start.version > self.last {
            start.version
        } else {
            self.last + 1
        };
        proof {
            let old_issued = self.issued@;
            assert forall|i: int| 0 <= i < old_issued.len() implies old_issued[i] < v by {
                if i < old_issued.len() - 1 {
                    assert(old_issued[i] < old_issued[old_issued.len() - 1]);
                }
            }
        }
        self.last = v;
        self.issued = Ghost(self.issued@.push(v));
        Ok(Timestamp { version: v })
    }
}

/// Any number of successful requests to one allocator yield versions in
/// strictly increasing order: its whole record of issued versions is.
pub proof fn lemma_issued_strictly_increasing(oracle: &TimestampOracle)
    requires
        oracle.wf(),
    ensures
        strictly_increasing(oracle.issued()),
        forall|i: int| 0 <= i < oracle.issued().len() ==> oracle.issued()[i] <= oracle.last_issued(),
{
    let s = oracle.issued();
    assert forall|i: int| 0 <= i < s.len() implies s[i] <= oracle.last_issued() by {
        if i < s.len() - 1 {
            assert(s[i] < s[s.len() - 1]);
        }
    }
}

} // verus!
