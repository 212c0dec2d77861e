use snarkos_node::optional_vec::OptionalVec;

#[test]
fn holes_are_filled_oldest_first() {
    let mut v: OptionalVec<u32> = OptionalVec::new();
    assert_eq!(v.insert(10), 0);
    assert_eq!(v.insert(11), 1);
    assert_eq!(v.insert(12), 2);
    assert_eq!(v.next_idx(), 3);
    assert_eq!(v.remove(1), 11);
    assert_eq!(v.remove(0), 10);
    assert_eq!(v.iter(), vec![&12]);
    assert_eq!(v.next_idx(), 1);
    assert_eq!(v.insert(20), 1);
    assert_eq!(v.insert(21), 0);
    assert_eq!(v.insert(22), 3);
    assert_eq!(v.iter(), vec![&21, &20, &12, &22]);
}
