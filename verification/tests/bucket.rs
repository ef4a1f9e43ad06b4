use bt_rust_dht::addr::SocketAddr;
use bt_rust_dht::id::{NodeId, NODE_ID_LEN};
use bt_rust_dht::routing::bucket::{Bucket, MAX_BUCKET_SIZE};
use bt_rust_dht::routing::node::{Node, NodeStatus, MAX_LAST_SEEN_MS};

const NOW: u64 = 100_000_000;

fn dummy_socket_addr_v4() -> SocketAddr {
    SocketAddr::v4(127, 0, 0, 1, 0)
}

fn dummy_block_node_ids(num_ids: u8) -> Vec<NodeId> {
    let mut ids = Vec::new();
    for index in 0..num_ids {
        let mut bytes = [0u8; NODE_ID_LEN];
        bytes[0] = index;
        ids.push(NodeId::from(bytes));
    }
    ids
}

fn questionable_count(bucket: &Bucket) -> usize {
    bucket
        .ping_able_nodes(NOW)
        .iter()
        .filter(|node| node.status(NOW) == NodeStatus::Questionable)
        .count()
}

#[test]
fn positive_initial_no_nodes() {
    let bucket = Bucket::new();

    assert_eq!(bucket.good_nodes(NOW).len(), 0);
    assert_eq!(bucket.ping_able_nodes(NOW).len(), 0);
}

#[test]
fn positive_all_questionable_nodes() {
    let mut bucket = Bucket::new();

    let dummy_addr = dummy_socket_addr_v4();
    let dummy_ids = dummy_block_node_ids(MAX_BUCKET_SIZE as u8);
    for id in dummy_ids {
        let node = Node::as_questionable(id, dummy_addr, NOW);
        bucket.add_node(node, NOW);
    }

    assert_eq!(bucket.good_nodes(NOW).len(), 0);
    assert_eq!(bucket.ping_able_nodes(NOW).len(), MAX_BUCKET_SIZE);
}

#[test]
fn positive_all_good_nodes() {
    let mut bucket = Bucket::new();

    let dummy_addr = dummy_socket_addr_v4();
    let dummy_ids = dummy_block_node_ids(MAX_BUCKET_SIZE as u8);
    for id in dummy_ids {
        let node = Node::as_good(id, dummy_addr, NOW);
        bucket.add_node(node, NOW);
    }

    assert_eq!(bucket.good_nodes(NOW).len(), MAX_BUCKET_SIZE);
    assert_eq!(bucket.ping_able_nodes(NOW).len(), MAX_BUCKET_SIZE);
}

#[test]
fn positive_replace_questionable_node() {
    let mut bucket = Bucket::new();

    let dummy_addr = dummy_socket_addr_v4();
    let dummy_ids = dummy_block_node_ids(MAX_BUCKET_SIZE as u8);
    for id in &dummy_ids {
        let node = Node::as_questionable(*id, dummy_addr, NOW);
        bucket.add_node(node, NOW);
    }

    assert_eq!(bucket.good_nodes(NOW).len(), 0);
    assert_eq!(bucket.ping_able_nodes(NOW).len(), MAX_BUCKET_SIZE);

    let good_node = Node::as_good(dummy_ids[0], dummy_addr, NOW);
    bucket.add_node(good_node, NOW);

    assert_eq!(bucket.good_nodes(NOW)[0], good_node);
    assert_eq!(bucket.good_nodes(NOW).len(), 1);
    assert_eq!(bucket.ping_able_nodes(NOW).len(), MAX_BUCKET_SIZE);
}

#[test]
fn positive_resist_good_node_churn() {
    let mut bucket = Bucket::new();

    let dummy_addr = dummy_socket_addr_v4();
    let dummy_ids = dummy_block_node_ids((MAX_BUCKET_SIZE as u8) + 1);
    for id in &dummy_ids {
        let node = Node::as_good(*id, dummy_addr, NOW);
        bucket.add_node(node, NOW);
    }

    // All the nodes should be good
    assert_eq!(bucket.good_nodes(NOW).len(), MAX_BUCKET_SIZE);

    // Create a new good node
    let unused_id = dummy_ids[dummy_ids.len() - 1];
    let new_good_node = Node::as_good(unused_id, dummy_addr, NOW);

    // Make sure the node is NOT in the bucket
    assert!(!bucket.good_nodes(NOW).iter().any(|node| &new_good_node == node));

    // Try to add it
    assert!(!bucket.add_node(new_good_node, NOW));

    // Make sure the node is NOT in the bucket
    assert!(!bucket.good_nodes(NOW).iter().any(|node| &new_good_node == node));
}

#[test]
fn positive_resist_questionable_node_churn() {
    let mut bucket = Bucket::new();

    let dummy_addr = dummy_socket_addr_v4();
    let dummy_ids = dummy_block_node_ids((MAX_BUCKET_SIZE as u8) + 1);
    for id in &dummy_ids {
        let node = Node::as_questionable(*id, dummy_addr, NOW);
        bucket.add_node(node, NOW);
    }

    // All the nodes should be questionable
    assert_eq!(questionable_count(&bucket), MAX_BUCKET_SIZE);

    // Create a new questionable node
    let unused_id = dummy_ids[dummy_ids.len() - 1];
    let new_questionable_node = Node::as_questionable(unused_id, dummy_addr, NOW);

    // Make sure the node is NOT in the bucket
    assert!(!bucket
        .ping_able_nodes(NOW)
        .iter()
        .any(|node| &new_questionable_node == node));

    // Try to add it
    bucket.add_node(new_questionable_node, NOW);

    // Make sure the node is NOT in the bucket
    assert_eq!(questionable_count(&bucket), MAX_BUCKET_SIZE);
}

#[test]
fn bad_node_is_never_stored() {
    let mut bucket = Bucket::new();
    let bad = Node::as_bad(dummy_block_node_ids(2)[1], dummy_socket_addr_v4());
    assert!(bucket.add_node(bad, NOW));
    assert_eq!(bucket.ping_able_nodes(NOW).len(), 0);
    assert!(bucket.needs_refresh(NOW));
}

#[test]
fn good_node_takes_the_slot_of_a_questionable_one() {
    let mut bucket = Bucket::new();
    let dummy_addr = dummy_socket_addr_v4();
    let ids = dummy_block_node_ids((MAX_BUCKET_SIZE as u8) + 1);
    for id in ids.iter().take(MAX_BUCKET_SIZE) {
        bucket.add_node(Node::as_questionable(*id, dummy_addr, NOW), NOW);
    }
    let newcomer = Node::as_good(ids[MAX_BUCKET_SIZE], dummy_addr, NOW);
    assert!(bucket.add_node(newcomer, NOW));
    // The first questionable node gave way.
    assert_eq!(bucket.get(0), newcomer);
    assert_eq!(bucket.get(0).status(NOW), NodeStatus::Good);
    assert_eq!(bucket.ping_able_nodes(NOW).len(), MAX_BUCKET_SIZE);
    assert!(!bucket.needs_refresh(NOW));
}

#[test]
fn nodes_that_went_bad_give_way() {
    let mut bucket = Bucket::new();
    let dummy_addr = dummy_socket_addr_v4();
    let ids = dummy_block_node_ids((MAX_BUCKET_SIZE as u8) + 1);
    for id in ids.iter().take(MAX_BUCKET_SIZE) {
        bucket.add_node(Node::as_good(*id, dummy_addr, NOW), NOW);
    }
    // A quarter of an hour later the nodes are questionable and a good one finds room.
    let later = NOW + MAX_LAST_SEEN_MS;
    assert_eq!(bucket.good_nodes(later).len(), 0);
    assert!(bucket.add_node(Node::as_good(ids[MAX_BUCKET_SIZE], dummy_addr, later), later));
    assert_eq!(bucket.good_nodes(later).len(), 1);
    assert_eq!(bucket.iter().len(), MAX_BUCKET_SIZE);
}

#[test]
fn node_has_one_entry_however_often_it_is_offered() {
    let mut bucket = Bucket::new();
    let dummy_addr = dummy_socket_addr_v4();
    let ids = dummy_block_node_ids(3);

    for round in 0..4u64 {
        for id in &ids {
            assert!(bucket.add_node(Node::as_questionable(*id, dummy_addr, NOW + round), NOW + round));
            assert!(bucket.add_node(Node::as_good(*id, dummy_addr, NOW + round), NOW + round));
        }
    }

    assert_eq!(bucket.iter().len(), MAX_BUCKET_SIZE);
    let known: Vec<Node> = bucket.ping_able_nodes(NOW + 3);
    assert_eq!(known.len(), 3);
    for id in &ids {
        let entries = known.iter().filter(|node| node.id() == *id).count();
        assert_eq!(entries, 1);
    }
}
