use std::convert::TryFrom;
use std::ops::Bound;

use kvtxn::bound_range::{convert_to_bound_key, BoundRange};
use kvtxn::error::Error;
use kvtxn::key::Key;

fn k(s: &str) -> Key {
    Key::from_str_bytes(s)
}

#[test]
fn half_open_range_into_keys() {
    let (start, end) = BoundRange::from(k("a")..k("z")).into_keys();
    assert_eq!(start, k("a"));
    assert_eq!(end, Some(k("z")));
}

#[test]
fn closed_range_into_keys_appends_zero() {
    let (start, end) = BoundRange::from(k("a")..=k("z")).into_keys();
    assert_eq!(start, k("a"));
    assert_eq!(end, Some(k("z\0")));
    assert_eq!(end.unwrap().as_bytes(), &vec![b'z', 0u8]);
}

#[test]
fn left_bounded_range_into_keys() {
    let (start, end) = BoundRange::from(k("a")..).into_keys();
    assert_eq!(start, k("a"));
    assert_eq!(end, None);
}

#[test]
fn excluded_start_moves_to_successor() {
    let r = BoundRange::try_from((Bound::Excluded(k("a")), Bound::Excluded(k("c")))).unwrap();
    let (start, end) = r.into_keys();
    assert_eq!(start, k("a\0"));
    assert_eq!(end, Some(k("c")));
}

#[test]
fn empty_key_bounds() {
    let (start, end) = BoundRange::from(k("")..=k("")).into_keys();
    assert_eq!(start.len(), 0);
    assert_eq!(end.unwrap().as_bytes(), &vec![0u8]);
}

#[test]
fn unbounded_start_is_invalid() {
    let r = BoundRange::try_from((Bound::Unbounded, Bound::Included(k("z"))));
    assert_eq!(r.err(), Some(Error::InvalidRange));
    let r = BoundRange::try_from_bounds((Bound::Unbounded, Bound::Unbounded));
    assert_eq!(r.err(), Some(Error::InvalidRange));
}

#[test]
fn literal_forms_equal_their_bound_pairs() {
    assert!(BoundRange::from(k("Rust")..k("Zeta")) == BoundRange::from_range(k("Rust")..k("Zeta")));
    assert!(BoundRange::from(k("Rust")..=k("Zeta")) == (Bound::Included(k("Rust")), Bound::Included(k("Zeta"))));
    assert!(BoundRange::from(k("Rust")..) == (Bound::Included(k("Rust")), Bound::Unbounded));
    let pair = BoundRange::try_from((Bound::Included(k("a")), Bound::Excluded(k("b")))).unwrap();
    assert!(BoundRange::from(k("a")..k("b")) == pair);
}

#[test]
fn different_forms_are_unequal() {
    assert!(BoundRange::from(k("a")..k("z")) != BoundRange::from(k("a")..=k("z")));
    assert!(BoundRange::from(k("a")..k("z")) != BoundRange::from(k("a")..));
    assert!(BoundRange::from(k("a")..k("z")) != BoundRange::from(k("b")..k("z")));
    assert!(!(BoundRange::from(k("a")..) == (Bound::Excluded(k("a")), Bound::Unbounded)));
}

#[test]
fn from_keys_round_trips_into_keys() {
    let (start, end) = BoundRange::from_keys(k("m"), Some(k("q"))).into_keys();
    assert_eq!(start, k("m"));
    assert_eq!(end, Some(k("q")));
    let (start, end) = BoundRange::from_keys(k("m"), None).into_keys();
    assert_eq!(start, k("m"));
    assert_eq!(end, None);
}

#[test]
fn convert_keeps_bound_kind() {
    assert_eq!(convert_to_bound_key(Bound::Included(k("x"))), Bound::Included(k("x")));
    assert_eq!(convert_to_bound_key(Bound::Excluded(k("x"))), Bound::Excluded(k("x")));
    assert_eq!(convert_to_bound_key(Bound::<Key>::Unbounded), Bound::Unbounded);
}

#[test]
fn bounds_are_reported() {
    let r = BoundRange::from(k("a")..=k("b"));
    assert_eq!(r.start_bound(), &Bound::Included(k("a")));
    assert_eq!(r.end_bound(), &Bound::Included(k("b")));
}

#[test]
fn try_from_keeps_both_bounds() {
    let r = BoundRange::try_from((Bound::Included(k("a")), Bound::Unbounded)).unwrap();
    assert_eq!(r.start_bound(), &Bound::Included(k("a")));
    assert_eq!(r.end_bound(), &Bound::Unbounded);
    let r = BoundRange::try_from((Bound::<Key>::Unbounded, Bound::Excluded(k("z"))));
    assert_eq!(r.err(), Some(Error::InvalidRange));
}
