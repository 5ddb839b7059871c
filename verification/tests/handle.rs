use retained::handle::Handle;

#[test]
fn null_address_has_no_handle() {
    assert!(Handle::new(0).is_none());
}

#[test]
fn handle_keeps_its_address() {
    let h = Handle::new(4096).unwrap();
    assert_eq!(h.as_usize(), 4096);
}

#[test]
fn copies_of_a_handle_hold_the_same_address() {
    let h = Handle::new(usize::MAX).unwrap();
    let copy = h;
    let clone = h.clone();
    assert_eq!(copy.as_usize(), usize::MAX);
    assert_eq!(clone.as_usize(), usize::MAX);
    assert!(copy == h && clone == h);
}

#[test]
fn handles_are_equal_by_address() {
    let a = Handle::new(8).unwrap();
    let b = Handle::new(8).unwrap();
    let c = Handle::new(16).unwrap();
    assert!(a == b);
    assert!(a != c);
}
