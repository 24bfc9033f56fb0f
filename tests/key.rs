use kvtxn::key::Key;

#[test]
fn push_zero_appends_one_byte() {
    let mut key = Key::from(vec![1u8, 2u8]);
    key.push_zero();
    assert_eq!(key.into_bytes(), vec![1u8, 2u8, 0u8]);
}

#[test]
fn byte_order_is_lexicographic() {
    let a = Key::from_str_bytes("001");
    let b = Key::from_str_bytes("010");
    assert!(a.less_than(&b));
    assert!(!b.less_than(&a));
    assert!(Key::from_str_bytes("ab").less_than(&Key::from_str_bytes("ab\0")));
    assert!(Key::from_str_bytes("").less_than(&Key::from_str_bytes("a")));
    assert!(!Key::from_str_bytes("a").less_than(&Key::from_str_bytes("a")));
    assert!(Key::from(vec![0x7fu8]).less_than(&Key::from(vec![0x80u8])));
}

#[test]
fn same_as_compares_bytes() {
    assert!(Key::from_str_bytes("k1").same_as(&Key::new(vec![b'k', b'1'])));
    assert!(!Key::from_str_bytes("k1").same_as(&Key::from_str_bytes("k10")));
    assert_eq!(Key::from_str_bytes("k1").copied(), Key::from_str_bytes("k1"));
}
