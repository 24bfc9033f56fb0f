use kvtxn::directory::{backoff_delay, first_reachable, Region, RegionCache, Store};
use kvtxn::error::Error;
use kvtxn::key::Key;

fn k(s: &str) -> Key {
    Key::from_str_bytes(s)
}

fn region(id: u64, start: &str, end: Option<&str>, epoch: u64) -> Region {
    Region { id, start: k(start), end: end.map(k), epoch, leader: 1 }
}

#[test]
fn lookup_finds_owning_region() {
    let mut c = RegionCache::new();
    c.put_region(region(1, "", Some("m"), 1));
    c.put_region(region(2, "m", None, 1));
    assert_eq!(c.get_region(&k("a")).unwrap().id, 1);
    assert_eq!(c.get_region(&k("")).unwrap().id, 1);
    assert_eq!(c.get_region(&k("m")).unwrap().id, 2);
    assert_eq!(c.get_region(&k("zzz")).unwrap().id, 2);
}

#[test]
fn lookup_misses_uncached_range() {
    let mut c = RegionCache::new();
    c.put_region(region(1, "b", Some("d"), 1));
    assert!(c.get_region(&k("a")).is_none());
    assert!(c.get_region(&k("d")).is_none());
    assert_eq!(c.get_region(&k("c")).unwrap().id, 1);
}

#[test]
fn newer_region_replaces_overlapping_ones() {
    let mut c = RegionCache::new();
    c.put_region(region(1, "a", Some("m"), 1));
    c.put_region(region(2, "m", Some("z"), 1));
    // A split of region 1 replaces it.
    c.put_region(region(3, "a", Some("f"), 2));
    assert!(c.get_region(&k("g")).is_none());
    assert_eq!(c.get_region(&k("b")).unwrap().epoch, 2);
    assert_eq!(c.get_region(&k("n")).unwrap().id, 2);
}

#[test]
fn invalidate_drops_stale_region() {
    let mut c = RegionCache::new();
    c.put_region(region(1, "a", Some("m"), 1));
    c.put_region(region(2, "m", None, 1));
    c.invalidate(1);
    assert!(c.get_region(&k("b")).is_none());
    assert_eq!(c.get_region(&k("q")).unwrap().id, 2);
}

#[test]
fn stores_are_found_by_id() {
    let mut c = RegionCache::new();
    assert_eq!(c.get_store(1).err(), Some(Error::NotFound));
    c.put_store(Store { id: 1, address: "10.0.0.1:20160".to_string() });
    c.put_store(Store { id: 2, address: "10.0.0.2:20160".to_string() });
    c.put_store(Store { id: 1, address: "10.0.0.3:20160".to_string() });
    assert_eq!(c.get_store(1).unwrap().address, "10.0.0.3:20160");
    assert_eq!(c.get_store(2).unwrap().id, 2);
    assert_eq!(c.get_store(3).err(), Some(Error::NotFound));
}

#[test]
fn backoff_doubles_up_to_cap() {
    assert_eq!(backoff_delay(0, 10, 100, 5), Some(10));
    assert_eq!(backoff_delay(1, 10, 100, 5), Some(20));
    assert_eq!(backoff_delay(3, 10, 100, 5), Some(80));
    assert_eq!(backoff_delay(4, 10, 100, 5), Some(100));
    assert_eq!(backoff_delay(5, 10, 100, 5), None);
    assert_eq!(backoff_delay(0, 500, 100, 5), Some(100));
    assert_eq!(backoff_delay(30, u64::MAX / 2 + 1, u64::MAX, 40), Some(u64::MAX));
}

#[test]
fn first_reachable_endpoint() {
    assert_eq!(first_reachable(&vec![false, true, true]), Ok(1));
    assert_eq!(first_reachable(&vec![true]), Ok(0));
    assert_eq!(first_reachable(&vec![false, false]), Err(Error::ConnectionError));
    assert_eq!(first_reachable(&vec![]), Err(Error::ConnectionError));
}

#[test]
fn put_store_replaces_address_and_keeps_others() {
    let mut c = RegionCache::new();
    c.put_store(Store { id: 7, address: "a:1".to_string() });
    c.put_store(Store { id: 8, address: "b:1".to_string() });
    c.put_store(Store { id: 7, address: "a:2".to_string() });
    assert_eq!(c.get_store(7).unwrap().address, "a:2");
    assert_eq!(c.get_store(8).unwrap().address, "b:1");
}
