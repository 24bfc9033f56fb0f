use std::ops::{Bound, Range, RangeFrom, RangeInclusive};
use vstd::prelude::*;

use crate::error::Error;
use crate::key::{successor, Key};

verus! {

#[verifier::external_type_specification]
#[verifier::reject_recursive_types(T)]
pub struct ExBound<T>(Bound<T>);

#[verifier::external_type_specification]
#[verifier::reject_recursive_types(Idx)]
pub struct ExRangeFrom<Idx>(RangeFrom<Idx>);

/// Relies on `RangeInclusive::into_inner`: it hands back the lower and the
/// (inclusive) upper bound of the range.
pub assume_specification<Idx>[ RangeInclusive::<Idx>::into_inner ](
    range: RangeInclusive<Idx>,
) -> (r: (Idx, Idx))
    ensures
        r.0 == range@.start,
        r.1 == range@.end,
;

/// A bound over the bytes of a key.
pub open spec fn bound_view(b: Bound<Key>) -> Bound<Seq<u8>> {
    match b {
        Bound::Included(k) => Bound::Included(k@),
        Bound::Excluded(k) => Bound::Excluded(k@),
        Bound::Unbounded => Bound::Unbounded,
    }
}

/// The inclusive start key of a scan that begins at `from`.
pub open spec fn start_key(from: Bound<Seq<u8>>) -> Seq<u8> {
    match from {
        Bound::Included(k) => k,
        Bound::Excluded(k) => successor(k),
        Bound::Unbounded => Seq::empty(),
    }
}

/// The exclusive end key of a scan that stops at `to`, none for an open end.
pub open spec fn end_key(to: Bound<Seq<u8>>) -> Option<Seq<u8>> {
    match to {
        Bound::Included(k) => Some(successor(k)),
        Bound::Excluded(k) => Some(k),
        Bound::Unbounded => None,
    }
}

/// The bytes of an optional key.
pub open spec fn opt_key_view(k: Option<Key>) -> Option<Seq<u8>> {
    match k {
        Some(k) => Some(k@),
        None => None,
    }
}

/// A range of keys whose start is always bounded.
///
/// It is built from a half-open, a closed or a left-bounded range, or from an
/// explicit pair of bounds, and turned into the inclusive start key and
/// optional exclusive end key that a scan takes.
#[derive(Debug)]
pub struct BoundRange {
    from: Bound<Key>,
    to: Bound<Key>,
}

/// The pair of bounds that a `BoundRange` stands for, over key bytes.
pub struct BoundRangeView {
    pub from: Bound<Seq<u8>>,
    pub to: Bound<Seq<u8>>,
}

impl View for BoundRange {
    type V = BoundRangeView;

    closed spec fn view(&self) -> BoundRangeView {
        BoundRangeView { from: bound_view(self.from), to: bound_view(self.to) }
    }
}

/// Whether two pairs of bounds over keys are equal.
pub open spec fn bounds_equal(a: BoundRangeView, b: BoundRangeView) -> bool {
    a.from == b.from && a.to == b.to
}

impl BoundRange {
    #[verifier::type_invariant]
    spec fn start_is_bounded(self) -> bool {
        !(self.from is Unbounded)
    }

    /// Builds a range from two bounds, the first of which is not `Unbounded`.
    fn new(from: Bound<Key>, to: Bound<Key>) -> (r: BoundRange)
        requires
            !(from is Unbounded),
        ensures
            r.from == from,
            r.to == to,
            r@.from == bound_view(from),
            r@.to == bound_view(to),
    {
        BoundRange { from, to }
    }

    /// The bound at which the range starts; never `Unbounded`.
    pub fn start_bound(&self) -> (r: &Bound<Key>)
        ensures
            bound_view(*r) == self@.from,
            !(r is Unbounded),
    {
        proof {
            use_type_invariant(self);
        }
        &self.from
    }

    /// The bound at which the range ends.
    pub fn end_bound(&self) -> (r: &Bound<Key>)
        ensures
            bound_view(*r) == self@.to,
    {
        &self.to
    }

    /// The inclusive start key and the optional exclusive end key of the range.
    ///
    /// An excluded start and an included end get a zero byte appended, which
    /// moves the boundary to the immediate successor in byte-wise order.
    pub fn into_keys(self) -> (r: (Key, Option<Key>))
        ensures
            !(self@.from is Unbounded),
            r.0@ == start_key(self@.from),
            opt_key_view(r.1) == end_key(self@.to),
    {
        proof {
            use_type_invariant(&self);
        }
        let BoundRange { from, to } = self;
        let start = match from {
            Bound::Included(v) => v,
            Bound::Excluded(v) => {
                let mut v = v;
                v.push_zero();
                v
            },
            Bound::Unbounded => Key::new(Vec::new()),
        };
        let end = match to {
            Bound::Included(v) => {
                let mut v = v;
                v.push_zero();
                Some(v)
            },
            Bound::Excluded(v) => Some(v),
            Bound::Unbounded => None,
        };
        (start, end)
    }

    /// The range `[start, end)`.
    pub fn from_range(range: Range<Key>) -> (r: BoundRange)
        ensures
            r@.from == Bound::Included(range.start@),
            r@.to == Bound::Excluded(range.end@),
    {
        BoundRange::new(Bound::Included(range.start), Bound::Excluded(range.end))
    }

    /// The range `[start, end]`.
    pub fn from_range_inclusive(range: RangeInclusive<Key>) -> (r: BoundRange)
        ensures
            r@.from == Bound::Included(range@.start@),
            r@.to == Bound::Included(range@.end@),
    {
        let (start, end) = range.into_inner();
        BoundRange::new(Bound::Included(start), Bound::Included(end))
    }

    /// The range `[start, ∞)`.
    pub fn from_range_from(range: RangeFrom<Key>) -> (r: BoundRange)
        ensures
            r@.from == Bound::Included(range.start@),
            r@.to == Bound::<Seq<u8>>::Unbounded,
    {
        BoundRange::new(Bound::Included(range.start), Bound::Unbounded)
    }

    /// The range from an inclusive start key to an optional exclusive end key,
    /// the form that `into_keys` produces.
    pub fn from_keys(start: Key, end: Option<Key>) -> (r: BoundRange)
        ensures
            r@.from == Bound::Included(start@),
            r@.to == (match end {
                Some(e) => Bound::Excluded(e@),
                None => Bound::<Seq<u8>>::Unbounded,
            }),
    {
        let to = match end {
            Some(e) => Bound::Excluded(e),
            None => Bound::Unbounded,
        };
        BoundRange::new(Bound::Included(start), to)
    }

    /// The range given by two bounds; fails with `InvalidRange` when the start
    /// is `Unbounded`.
    pub fn try_from_bounds(bounds: (Bound<Key>, Bound<Key>)) -> (r: Result<BoundRange, Error>)
        ensures
            bounds.0 is Unbounded <==> r is Err,
            r is Err ==> r->Err_0 == Error::InvalidRange,
            r is Ok ==> r->Ok_0@.from == bound_view(bounds.0) && r->Ok_0@.to == bound_view(
                bounds.1,
            ),
    {
        let (from, to) = bounds;
        match from {
            Bound::Unbounded => Err(Error::InvalidRange),
            _ => Ok(BoundRange::new(convert_to_bound_key(from), convert_to_bound_key(to))),
        }
    }

    /// Whether the range stands for the same pair of bounds as `other`.
    pub fn eq_bounds(&self, other: &(Bound<Key>, Bound<Key>)) -> (r: bool)
        ensures
            r == (self@.from == bound_view(other.0) && self@.to == bound_view(other.1)),
    {
        bound_eq(&self.from, &other.0) && bound_eq(&self.to, &other.1)
    }
}

impl PartialEq for BoundRange {
    fn eq(&self, other: &BoundRange) -> (r: bool) {
        bound_eq(&self.from, &other.from) && bound_eq(&self.to, &other.to)
    }
}

impl vstd::std_specs::cmp::PartialEqSpecImpl for BoundRange {
    open spec fn obeys_eq_spec() -> bool {
        true
    }

    open spec fn eq_spec(&self, other: &BoundRange) -> bool {
        bounds_equal(self@, other@)
    }
}

impl PartialEq<(Bound<Key>, Bound<Key>)> for BoundRange {
    fn eq(&self, other: &(Bound<Key>, Bound<Key>)) -> (r: bool) {
        self.eq_bounds(other)
    }
}

impl vstd::std_specs::cmp::PartialEqSpecImpl<(Bound<Key>, Bound<Key>)> for BoundRange {
    open spec fn obeys_eq_spec() -> bool {
        true
    }

    open spec fn eq_spec(&self, other: &(Bound<Key>, Bound<Key>)) -> bool {
        self@.from == bound_view(other.0) && self@.to == bound_view(other.1)
    }
}

impl From<Range<Key>> for BoundRange {
    fn from(range: Range<Key>) -> (r: BoundRange) {
        BoundRange::new(Bound::Included(range.start), Bound::Excluded(range.end))
    }
}

impl vstd::std_specs::convert::FromSpecImpl<Range<Key>> for BoundRange {
    open spec fn obeys_from_spec() -> bool {
        true
    }

    closed spec fn from_spec(range: Range<Key>) -> BoundRange {
        BoundRange { from: Bound::Included(range.start), to: Bound::Excluded(range.end) }
    }
}

impl From<RangeInclusive<Key>> for BoundRange {
    fn from(range: RangeInclusive<Key>) -> (r: BoundRange) {
        let (start, end) = range.into_inner();
        BoundRange::new(Bound::Included(start), Bound::Included(end))
    }
}

impl vstd::std_specs::convert::FromSpecImpl<RangeInclusive<Key>> for BoundRange {
    open spec fn obeys_from_spec() -> bool {
        true
    }

    closed spec fn from_spec(range: RangeInclusive<Key>) -> BoundRange {
        BoundRange { from: Bound::Included(range@.start), to: Bound::Included(range@.end) }
    }
}

impl From<RangeFrom<Key>> for BoundRange {
    fn from(range: RangeFrom<Key>) -> (r: BoundRange) {
        BoundRange::new(Bound::Included(range.start), Bound::Unbounded)
    }
}

impl vstd::std_specs::convert::FromSpecImpl<RangeFrom<Key>> for BoundRange {
    open spec fn obeys_from_spec() -> bool {
        true
    }

    closed spec fn from_spec(range: RangeFrom<Key>) -> BoundRange {
        BoundRange { from: Bound::Included(range.start), to: Bound::Unbounded }
    }
}

impl TryFrom<(Bound<Key>, Bound<Key>)> for BoundRange {
    type Error = Error;

    fn try_from(bounds: (Bound<Key>, Bound<Key>)) -> (r: Result<BoundRange, Error>) {
        let (from, to) = bounds;
        match from {
            Bound::Unbounded => Err(Error::InvalidRange),
            _ => Ok(BoundRange::new(from, to)),
        }
    }
}

impl vstd::std_specs::convert::TryFromSpecImpl<(Bound<Key>, Bound<Key>)> for BoundRange {
    open spec fn obeys_try_from_spec() -> bool {
        true
    }

    closed spec fn try_from_spec(bounds: (Bound<Key>, Bound<Key>)) -> Result<BoundRange, Error> {
        if bounds.0 is Unbounded {
            Err(Error::InvalidRange)
        } else {
            Ok(BoundRange { from: bounds.0, to: bounds.1 })
        }
    }
}

/// `BoundRange::from(start..end)` spans from `start` included to `end` excluded.
pub proof fn lemma_from_range(range: Range<Key>)
    ensures
        <BoundRange as vstd::std_specs::convert::FromSpec<Range<Key>>>::from_spec(range)@.from
            == Bound::Included(range.start@),
        <BoundRange as vstd::std_specs::convert::FromSpec<Range<Key>>>::from_spec(range)@.to
            == Bound::Excluded(range.end@),
{
}

/// `BoundRange::from(start..=end)` spans from `start` to `end`, both included.
pub proof fn lemma_from_range_inclusive(range: RangeInclusive<Key>)
    ensures
        <BoundRange as vstd::std_specs::convert::FromSpec<
            RangeInclusive<Key>,
        >>::from_spec(range)@.from == Bound::Included(range@.start@),
        <BoundRange as vstd::std_specs::convert::FromSpec<
            RangeInclusive<Key>,
        >>::from_spec(range)@.to == Bound::Included(range@.end@),
{
}

/// `BoundRange::from(start..)` spans from `start` included and has no end.
pub proof fn lemma_from_range_from(range: RangeFrom<Key>)
    ensures
        <BoundRange as vstd::std_specs::convert::FromSpec<RangeFrom<Key>>>::from_spec(
            range,
        )@.from == Bound::Included(range.start@),
        <BoundRange as vstd::std_specs::convert::FromSpec<RangeFrom<Key>>>::from_spec(
            range,
        )@.to == Bound::<Seq<u8>>::Unbounded,
{
}

/// `BoundRange::try_from(bounds)` fails with `InvalidRange` exactly when the
/// start is `Unbounded`, and otherwise keeps both bounds.
pub proof fn lemma_try_from_bounds(bounds: (Bound<Key>, Bound<Key>))
    ensures
        <BoundRange as vstd::std_specs::convert::TryFromSpec<
            (Bound<Key>, Bound<Key>),
        >>::try_from_spec(bounds) is Err <==> bounds.0 is Unbounded,
        <BoundRange as vstd::std_specs::convert::TryFromSpec<
            (Bound<Key>, Bound<Key>),
        >>::try_from_spec(bounds) is Err ==> <BoundRange as vstd::std_specs::convert::TryFromSpec<
            (Bound<Key>, Bound<Key>),
        >>::try_from_spec(bounds)->Err_0 == Error::InvalidRange,
        <BoundRange as vstd::std_specs::convert::TryFromSpec<
            (Bound<Key>, Bound<Key>),
        >>::try_from_spec(bounds) is Ok ==> <BoundRange as vstd::std_specs::convert::TryFromSpec<
            (Bound<Key>, Bound<Key>),
        >>::try_from_spec(bounds)->Ok_0@.from == bound_view(bounds.0)
            && <BoundRange as vstd::std_specs::convert::TryFromSpec<
            (Bound<Key>, Bound<Key>),
        >>::try_from_spec(bounds)->Ok_0@.to == bound_view(bounds.1),
{
}

/// Whether two bounds have the same kind and the same key bytes.
fn bound_eq(a: &Bound<Key>, b: &Bound<Key>) -> (r: bool)
    ensures
        r == (bound_view(*a) == bound_view(*b)),
{
    match (a, b) {
        (Bound::Included(x), Bound::Included(y)) => x.same_as(y),
        (Bound::Excluded(x), Bound::Excluded(y)) => x.same_as(y),
        (Bound::Unbounded, Bound::Unbounded) => true,
        _ => false,
    }
}

/// Converts a bound into a bound over keys, keeping its kind.
pub fn convert_to_bound_key(b: Bound<Key>) -> (r: Bound<Key>)
    ensures
        bound_view(r) == bound_view(b),
        r is Included <==> b is Included,
        r is Excluded <==> b is Excluded,
{
    match b {
        Bound::Included(k) => Bound::Included(k),
        Bound::Excluded(k) => Bound::Excluded(k),
        Bound::Unbounded => Bound::Unbounded,
    }
}

} // verus!
