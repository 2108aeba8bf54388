use revel::slice::Slice;
use std::cmp::Ordering;

#[test]
fn slice_test() {
    let slice1 = Slice::from_empty();
    let slice2 = Slice::from_bytes("".as_bytes());
    assert_eq!(slice1, slice2);
    assert_eq!(slice1.cmp(&slice2), Ordering::Equal);
    let slice3 = Slice::from_bytes("123".as_bytes());
    let slice4 = Slice::from_bytes("123".as_bytes());
    assert_eq!(slice3, slice4);
    let slice5 = Slice::from_bytes("124".as_bytes());
    assert_eq!(slice3.cmp(&slice5), Ordering::Less);
}

#[test]
fn slice_accessors() {
    let mut s = Slice::from_str("hello");
    assert_eq!(s.size(), 5);
    assert!(!s.empty());
    assert_eq!(s.data(), b"hello");
    s.remove_prefix(2);
    assert_eq!(s.data(), b"llo");
    s.remove_prefix(3);
    assert!(s.empty());
    assert_eq!(Slice::from_empty().size(), 0);
}
