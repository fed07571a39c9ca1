//! One timestamp's keyed values.

use skipagg::mem::timestamp_element::TimestampElement;

#[test]
fn test_get() {
    let mut ts = TimestampElement::new(10, "100", 3);
    assert_eq!(*ts.get(&"100").unwrap(), 3);
    ts.insert("100", 4);
    assert_eq!(*ts.get(&"100").unwrap(), 4);
}

#[test]
fn element_keeps_timestamp_and_keys_apart() {
    let mut ts = TimestampElement::new(7, 1u64, 10u64);
    assert_eq!(ts.get_timestamp(), 7);
    assert_eq!(ts.insert(2, 20), None);
    assert_eq!(ts.insert(1, 11), Some(10));
    assert_eq!(*ts.get(&1).unwrap(), 11);
    assert_eq!(*ts.get(&2).unwrap(), 20);
    assert_eq!(ts.get(&3), None);
}
