use bt_rust_dht::addr::SocketAddr;
use bt_rust_dht::id::{NodeId, NODE_ID_LEN};
use bt_rust_dht::routing::node::{Node, NodeStatus, MAX_LAST_SEEN_MS, MAX_REFRESH_REQUESTS};

const NOW: u64 = 100_000_000;

fn dummy_node_id() -> NodeId {
    NodeId::from([0u8; NODE_ID_LEN])
}

fn dummy_socket_addr_v4() -> SocketAddr {
    SocketAddr::v4(127, 0, 0, 1, 0)
}

#[test]
fn positive_as_bad() {
    let node = Node::as_bad(dummy_node_id(), dummy_socket_addr_v4());

    assert_eq!(node.status(NOW), NodeStatus::Bad);
}

#[test]
fn positive_as_questionable() {
    let node = Node::as_questionable(dummy_node_id(), dummy_socket_addr_v4(), NOW);

    assert_eq!(node.status(NOW), NodeStatus::Questionable);
}

#[test]
fn positive_as_good() {
    let node = Node::as_good(dummy_node_id(), dummy_socket_addr_v4(), NOW);

    assert_eq!(node.status(NOW), NodeStatus::Good);
}

#[test]
fn positive_request_renewal() {
    let mut node = Node::as_questionable(dummy_node_id(), dummy_socket_addr_v4(), NOW);

    node.remote_request(NOW);

    assert_eq!(node.status(NOW), NodeStatus::Good);
}

#[test]
fn positive_node_idle() {
    let node = Node::as_good(dummy_node_id(), dummy_socket_addr_v4(), NOW);

    assert_eq!(node.status(NOW + MAX_LAST_SEEN_MS - 1), NodeStatus::Good);
    assert_eq!(node.status(NOW + MAX_LAST_SEEN_MS), NodeStatus::Questionable);
}

#[test]
fn positive_node_idle_reqeusts() {
    let mut node = Node::as_questionable(dummy_node_id(), dummy_socket_addr_v4(), NOW);

    for _ in 0..MAX_REFRESH_REQUESTS {
        node.local_request(NOW);
    }

    assert_eq!(node.status(NOW), NodeStatus::Bad);
}

#[test]
fn positive_good_status_ordering() {
    assert!(NodeStatus::Good > NodeStatus::Questionable);
    assert!(NodeStatus::Good > NodeStatus::Bad);
}

#[test]
fn positive_questionable_status_ordering() {
    assert!(NodeStatus::Questionable > NodeStatus::Bad);
    assert!(NodeStatus::Questionable < NodeStatus::Good);
}

#[test]
fn positive_bad_status_ordering() {
    assert!(NodeStatus::Bad < NodeStatus::Good);
    assert!(NodeStatus::Bad < NodeStatus::Questionable);
}

#[test]
fn good_node_keeps_count_of_requests() {
    let mut node = Node::as_good(dummy_node_id(), dummy_socket_addr_v4(), NOW);
    node.local_request(NOW);
    node.local_request(NOW);
    node.local_request(NOW);
    assert_eq!(node.status(NOW + MAX_LAST_SEEN_MS), NodeStatus::Questionable);
    assert!(node.recently_requested_from(NOW + 29_999));
    assert!(!node.recently_requested_from(NOW + 30_000));
}

#[test]
fn response_clears_unanswered_requests() {
    let mut node = Node::as_questionable(dummy_node_id(), dummy_socket_addr_v4(), NOW);
    node.local_request(NOW);
    node.local_request(NOW);
    assert_eq!(node.status(NOW), NodeStatus::Bad);
    node.remote_response(NOW);
    assert_eq!(node.status(NOW), NodeStatus::Good);
    assert_eq!(node.status(NOW + MAX_LAST_SEEN_MS), NodeStatus::Questionable);
}

#[test]
fn update_merges_two_entries_of_one_node() {
    let id = dummy_node_id();
    let addr = dummy_socket_addr_v4();

    // Good meets good: the response time is taken over.
    let mut old = Node::as_good(id, addr, NOW);
    old.update(Node::as_good(id, addr, NOW + 1000), NOW + 1000);
    assert_eq!(old.status(NOW + MAX_LAST_SEEN_MS + 999), NodeStatus::Good);
    assert_eq!(old.status(NOW + MAX_LAST_SEEN_MS + 1000), NodeStatus::Questionable);

    // Good meets questionable: nothing changes.
    let mut old = Node::as_good(id, addr, NOW);
    old.update(Node::as_questionable(id, addr, NOW), NOW);
    assert_eq!(old.status(NOW), NodeStatus::Good);

    // Questionable meets good: replaced.
    let mut old = Node::as_questionable(id, addr, NOW);
    old.update(Node::as_good(id, addr, NOW), NOW);
    assert_eq!(old.status(NOW), NodeStatus::Good);

    // Bad meets questionable: replaced.
    let mut old = Node::as_bad(id, addr);
    old.update(Node::as_questionable(id, addr, NOW), NOW);
    assert_eq!(old.status(NOW), NodeStatus::Questionable);

    // Questionable meets questionable: replaced, and what was known of
    // our requests is gone with the old entry.
    let mut old = Node::as_questionable(id, addr, NOW);
    old.local_request(NOW);
    old.update(Node::as_questionable(id, addr, NOW), NOW);
    old.local_request(NOW);
    assert_eq!(old.status(NOW), NodeStatus::Questionable);
    old.local_request(NOW);
    assert_eq!(old.status(NOW), NodeStatus::Bad);

    // Bad meets good: replaced.
    let mut old = Node::as_bad(id, addr);
    old.update(Node::as_good(id, addr, NOW), NOW);
    assert_eq!(old.status(NOW), NodeStatus::Good);

    // Good meets bad: nothing changes.
    let mut old = Node::as_good(id, addr, NOW);
    old.update(Node::as_bad(id, addr), NOW);
    assert_eq!(old.status(NOW), NodeStatus::Good);

    // Questionable meets bad: nothing changes.
    let mut old = Node::as_questionable(id, addr, NOW);
    old.update(Node::as_bad(id, addr), NOW);
    assert_eq!(old.status(NOW), NodeStatus::Questionable);
}

#[test]
fn nodes_are_equal_by_handle() {
    let id = dummy_node_id();
    let good = Node::as_good(id, dummy_socket_addr_v4(), NOW);
    let bad = Node::as_bad(id, dummy_socket_addr_v4());
    let other = Node::as_good(id, SocketAddr::v4(127, 0, 0, 1, 1), NOW);
    assert_eq!(good, bad);
    assert_ne!(good, other);
}
