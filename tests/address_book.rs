use snarkos_node::address::SocketAddress;
use snarkos_node::address_book::AddressBook;

#[test]
fn insert_or_update_keeps_the_latest_date() {
    let a = SocketAddress::v4(1, 1);
    let b = SocketAddress::v6(2, 2);
    let mut book = AddressBook::new();
    assert!(book.insert_or_update(a, 10));
    assert!(book.insert_or_update(b, 5));
    assert!(!book.insert_or_update(a, 7));
    assert!(!book.insert_or_update(b, 9));
    assert_eq!(book.length(), 2);
    let mut all = book.get_addresses();
    all.sort_by_key(|e| e.1);
    assert_eq!(all, vec![(b, 9), (a, 10)]);
    assert!(book.contains(a));
    assert_eq!(book.remove(a), Some(10));
    assert_eq!(book.remove(a), None);
    assert!(!book.contains(a));
    assert_eq!(book.length(), 1);
}
