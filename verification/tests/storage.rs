use bt_rust_dht::addr::SocketAddr;
use bt_rust_dht::id::{InfoHash, INFO_HASH_LEN};
use bt_rust_dht::storage::{
    AnnounceItem, AnnounceStorage, ItemExpiration, EXPIRATION_TIME_MS, MAX_ITEMS_STORED,
};

const NOW: u64 = 100_000_000;

fn dummy_socket_addr_v4() -> SocketAddr {
    SocketAddr::v4(127, 0, 0, 1, 0)
}

fn dummy_block_socket_address(num_addrs: u16) -> Vec<SocketAddr> {
    let mut addrs = Vec::new();
    for port in 0..num_addrs {
        addrs.push(SocketAddr::v4(127, 0, 0, 1, port));
    }
    addrs
}

#[test]
fn positive_add_and_retrieve_contact() {
    let mut announce_store = AnnounceStorage::new();
    let info_hash: InfoHash = [0u8; INFO_HASH_LEN].into();
    let sock_addr = dummy_socket_addr_v4();

    assert!(announce_store.add_item(info_hash, sock_addr, NOW));

    let items: Vec<_> = announce_store.find_items(&info_hash, NOW);
    assert_eq!(items.len(), 1);

    assert_eq!(items[0], sock_addr);
}

#[test]
fn positive_add_and_retrieve_contacts() {
    let mut announce_store = AnnounceStorage::new();
    let info_hash: InfoHash = [0u8; INFO_HASH_LEN].into();
    let sock_address = dummy_block_socket_address(MAX_ITEMS_STORED as u16);

    for sock_addr in sock_address.iter() {
        assert!(announce_store.add_item(info_hash, *sock_addr, NOW));
    }

    let items: Vec<_> = announce_store.find_items(&info_hash, NOW);
    assert_eq!(items.len(), MAX_ITEMS_STORED);

    for item in items.iter() {
        assert!(sock_address.iter().any(|s| s == item));
    }
}

#[test]
fn positive_renew_contacts() {
    let mut announce_store = AnnounceStorage::new();
    let info_hash: InfoHash = [0u8; INFO_HASH_LEN].into();
    let sock_address = dummy_block_socket_address((MAX_ITEMS_STORED + 1) as u16);

    for sock_addr in sock_address.iter().take(MAX_ITEMS_STORED) {
        assert!(announce_store.add_item(info_hash, *sock_addr, NOW));
    }

    // Try to add a new item
    let other_info_hash: InfoHash = [1u8; INFO_HASH_LEN].into();

    // Returns false because it wasn't added
    assert!(!announce_store.add_item(other_info_hash, sock_address[sock_address.len() - 1], NOW));
    // Iterator is empty because it wasn't added
    let count = announce_store.find_items(&other_info_hash, NOW).len();
    assert_eq!(count, 0);

    // Try to add all of the initial nodes again (renew)
    for sock_addr in sock_address.iter().take(MAX_ITEMS_STORED) {
        assert!(announce_store.add_item(info_hash, *sock_addr, NOW));
    }
}

#[test]
fn positive_full_storage_expire_one_info_hash() {
    let mut announce_store = AnnounceStorage::new();
    let info_hash: InfoHash = [0u8; INFO_HASH_LEN].into();
    let sock_address = dummy_block_socket_address((MAX_ITEMS_STORED + 1) as u16);

    // Fill up the announce storage completely
    for sock_addr in sock_address.iter().take(MAX_ITEMS_STORED) {
        assert!(announce_store.add_item(info_hash, *sock_addr, NOW));
    }

    // Try to add a new item into the storage (under a different info hash)
    let other_info_hash: InfoHash = [1u8; INFO_HASH_LEN].into();

    // Returned false because it wasn't added
    assert!(!announce_store.add_item(other_info_hash, sock_address[sock_address.len() - 1], NOW));
    // Iterator is empty because it wasn't added
    let count = announce_store.find_items(&other_info_hash, NOW).len();
    assert_eq!(count, 0);

    // Try to add a new item into the storage mocking the current time
    let mock_current_time = NOW + EXPIRATION_TIME_MS;
    assert!(announce_store.add_item(
        other_info_hash,
        sock_address[sock_address.len() - 1],
        mock_current_time
    ));
    // Iterator is not empty because it was added
    let count = announce_store.find_items(&other_info_hash, mock_current_time).len();
    assert_eq!(count, 1);
    // What has expired is found no more.
    assert_eq!(announce_store.find_items(&info_hash, mock_current_time).len(), 0);
    assert_eq!(announce_store.len(), 1);
}

#[test]
fn positive_full_storage_expire_two_info_hash() {
    let mut announce_store = AnnounceStorage::new();
    let info_hash_one: InfoHash = [0u8; INFO_HASH_LEN].into();
    let info_hash_two: InfoHash = [1u8; INFO_HASH_LEN].into();
    let sock_address = dummy_block_socket_address((MAX_ITEMS_STORED + 1) as u16);

    // Fill up first info hash
    let num_contacts_first = MAX_ITEMS_STORED / 2;
    for sock_addr in sock_address.iter().take(num_contacts_first) {
        assert!(announce_store.add_item(info_hash_one, *sock_addr, NOW));
    }

    // Fill up second info hash
    let num_contacts_second = MAX_ITEMS_STORED - num_contacts_first;
    for sock_addr in sock_address
        .iter()
        .skip(num_contacts_first)
        .take(num_contacts_second)
    {
        assert!(announce_store.add_item(info_hash_two, *sock_addr, NOW));
    }

    // Try to add a third info hash with a contact
    let info_hash_three: InfoHash = [2u8; INFO_HASH_LEN].into();
    assert!(!announce_store.add_item(info_hash_three, sock_address[sock_address.len() - 1], NOW));
    // Iterator is empty because it was not added
    let count = announce_store.find_items(&info_hash_three, NOW).len();
    assert_eq!(count, 0);

    // Try to add a new item into the storage mocking the current time
    let mock_current_time = NOW + EXPIRATION_TIME_MS;
    assert!(announce_store.add_item(
        info_hash_three,
        sock_address[sock_address.len() - 1],
        mock_current_time
    ));
    // Iterator is not empty because it was added
    let count = announce_store.find_items(&info_hash_three, mock_current_time).len();
    assert_eq!(count, 1);
}

#[test]
fn renewal_moves_the_expiry_to_the_end() {
    let mut store = AnnounceStorage::default();
    let hash: InfoHash = [7u8; INFO_HASH_LEN].into();
    let addrs = dummy_block_socket_address(3);
    assert!(store.add_item(hash, addrs[0], NOW));
    assert!(store.add_item(hash, addrs[1], NOW + 1000));
    assert!(store.add_item(hash, addrs[2], NOW + 2000));
    // The first announce is made again an hour before it expires.
    let renewal = NOW + EXPIRATION_TIME_MS - 3_600_000;
    assert!(store.add_item(hash, addrs[0], renewal));
    assert_eq!(store.len(), 3);
    // The order in which the peers are found is that of the first announces.
    assert_eq!(store.find_items(&hash, renewal), addrs);
    // When the other two expire the renewed one stays.
    let later = NOW + 2000 + EXPIRATION_TIME_MS;
    assert_eq!(store.find_items(&hash, later), vec![addrs[0]]);
    assert_eq!(store.find_items(&hash, renewal + EXPIRATION_TIME_MS - 1), vec![addrs[0]]);
    assert_eq!(store.find_items(&hash, renewal + EXPIRATION_TIME_MS), vec![]);
    assert_eq!(store.len(), 0);
}

#[test]
fn items_and_expirations() {
    let hash: InfoHash = [3u8; INFO_HASH_LEN].into();
    let addr = dummy_socket_addr_v4();
    let item = AnnounceItem::new(hash, addr, NOW);
    assert_eq!(item.info_hash(), hash);
    assert_eq!(item.address(), addr);
    let expiration = item.expiration();
    assert_eq!(expiration, ItemExpiration::new(hash, addr, NOW + 5));
    assert_ne!(expiration, ItemExpiration::new(hash, SocketAddr::v4(127, 0, 0, 1, 9), NOW));
    assert!(!expiration.is_expired(NOW + EXPIRATION_TIME_MS - 1));
    assert!(expiration.is_expired(NOW + EXPIRATION_TIME_MS));
    assert!(!expiration.is_expired(0));
    assert_eq!(expiration.info_hash(), hash);
    assert_eq!(expiration.address(), addr);
}

#[test]
fn expired_info_hash_is_gone_while_others_stay() {
    let mut store = AnnounceStorage::new();
    let old_hash: InfoHash = [1u8; INFO_HASH_LEN].into();
    let new_hash: InfoHash = [2u8; INFO_HASH_LEN].into();
    let addrs = dummy_block_socket_address(3);

    assert!(store.add_item(old_hash, addrs[0], NOW));
    assert!(store.add_item(old_hash, addrs[1], NOW + 1));
    let later = NOW + EXPIRATION_TIME_MS;
    assert!(store.add_item(new_hash, addrs[2], later));
    // The first announce for the old info hash went when the new one came.
    assert_eq!(store.len(), 2);

    // A moment later both announces for the old info hash are expired; that
    // for the new one is not.
    assert!(store.find_items(&old_hash, later + 1).is_empty());
    assert_eq!(store.find_items(&new_hash, later + 1), vec![addrs[2]]);
    assert_eq!(store.len(), 1);
}
