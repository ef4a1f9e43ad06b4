use bt_rust_dht::addr::SocketAddr;
use bt_rust_dht::id::{NodeId, NODE_ID_LEN};
use bt_rust_dht::routing::bucket::MAX_BUCKET_SIZE;
use bt_rust_dht::routing::node::{Node, NodeHandle, NodeStatus, MAX_LAST_SEEN_MS};
use bt_rust_dht::routing::table::{
    bucket_placement, can_split_bucket, index_is_in_bounds, leading_bit_count, next_bucket_index,
    RoutingTable, MAX_BUCKETS,
};

const NOW: u64 = 100_000_000;

fn dummy_socket_addr_v4() -> SocketAddr {
    SocketAddr::v4(127, 0, 0, 1, 0)
}

fn dummy_block_socket_address(num_addrs: u16) -> Vec<SocketAddr> {
    let mut addrs = Vec::new();
    for port in 0..num_addrs {
        addrs.push(SocketAddr::v4(127, 0, 0, 1, port));
    }
    addrs
}

#[test]
fn positive_add_node_max_recursion() {
    let table_id = [1u8; NODE_ID_LEN];
    let mut table = RoutingTable::new(table_id.into());

    let mut node_id = table_id;
    // Modify the id so it is placed in the last bucket
    node_id[NODE_ID_LEN - 1] = 0;

    // Trigger a bucket overflow and since the ids are placed in the last bucket, all of
    // the buckets will be recursively created and inserted into the list of all buckets.
    let block_address = dummy_block_socket_address((MAX_BUCKET_SIZE + 1) as u16);
    for block_addr in block_address {
        let node = Node::as_good(node_id.into(), block_addr, NOW);

        table.add_node(node, NOW);
    }
    assert_eq!(table.num_buckets(), MAX_BUCKETS);
}

#[test]
fn positive_initial_empty_buckets() {
    let table_id = [1u8; NODE_ID_LEN];
    let table = RoutingTable::new(table_id.into());

    assert_eq!(table.buckets().len(), 1);
    for bucket in table.buckets() {
        assert_eq!(bucket.ping_able_nodes(NOW).len(), 0)
    }
}

#[test]
fn positive_first_bucket_sorted() {
    let table_id = [1u8; NODE_ID_LEN];
    let mut table = RoutingTable::new(table_id.into());

    let mut node_id = table_id;
    // Flip first bit so we are placed in the first bucket
    node_id[0] |= 128;

    let block_address = dummy_block_socket_address((MAX_BUCKET_SIZE + 1) as u16);
    for block_addr in block_address {
        let node = Node::as_good(node_id.into(), block_addr, NOW);

        table.add_node(node, NOW);
    }

    // First bucket should be sorted
    assert_eq!(table.buckets().iter().take(1).count(), 1);
    for bucket in table.buckets().iter().take(1) {
        assert_eq!(bucket.ping_able_nodes(NOW).len(), MAX_BUCKET_SIZE)
    }

    // Assorted bucket should show up
    assert_eq!(table.buckets().iter().skip(1).count(), 1);
    for bucket in table.buckets().iter().skip(1) {
        assert_eq!(bucket.ping_able_nodes(NOW).len(), 0)
    }

    // There should be only two buckets
    assert_eq!(table.buckets().iter().skip(2).count(), 0);
}

#[test]
fn positive_last_bucket_sorted() {
    let table_id = [1u8; NODE_ID_LEN];
    let mut table = RoutingTable::new(table_id.into());

    let mut node_id = table_id;
    // Flip last bit so we are placed in the last bucket
    node_id[NODE_ID_LEN - 1] = 0;

    let block_address = dummy_block_socket_address((MAX_BUCKET_SIZE + 1) as u16);
    for block_addr in block_address {
        let node = Node::as_good(node_id.into(), block_addr, NOW);

        table.add_node(node, NOW);
    }

    // First buckets should be sorted (although they are all empty)
    assert_eq!(
        table.buckets().iter().take(MAX_BUCKETS - 1).count(),
        MAX_BUCKETS - 1
    );
    for bucket in table.buckets().iter().take(MAX_BUCKETS - 1) {
        assert_eq!(bucket.ping_able_nodes(NOW).len(), 0)
    }

    // Last bucket should be sorted
    assert_eq!(
        table.buckets().iter().skip(MAX_BUCKETS - 1).take(1).count(),
        1
    );
    for bucket in table.buckets().iter().skip(MAX_BUCKETS - 1).take(1) {
        assert_eq!(bucket.ping_able_nodes(NOW).len(), MAX_BUCKET_SIZE)
    }
}

#[test]
fn positive_all_sorted_buckets() {
    let table_id = NodeId::from([1u8; NODE_ID_LEN]);
    let mut table = RoutingTable::new(table_id);

    let block_address = dummy_block_socket_address(MAX_BUCKET_SIZE as u16);
    for bit_flip_index in 0..MAX_BUCKETS {
        for block_addr in &block_address {
            let bucket_node_id = table_id.flip_bit(bit_flip_index);

            table.add_node(Node::as_good(bucket_node_id, *block_addr, NOW), NOW);
        }
    }

    assert_eq!(table.buckets().len(), MAX_BUCKETS);
    for bucket in table.buckets() {
        assert_eq!(bucket.ping_able_nodes(NOW).len(), MAX_BUCKET_SIZE)
    }
    assert_eq!(table.num_good_nodes(NOW), MAX_BUCKETS * MAX_BUCKET_SIZE);
    assert_eq!(table.num_questionable_node(NOW), 0);
    assert_eq!(
        table.num_questionable_node(NOW + MAX_LAST_SEEN_MS),
        MAX_BUCKETS * MAX_BUCKET_SIZE
    );
    assert_eq!(table.get_nodes().len(), MAX_BUCKETS * MAX_BUCKET_SIZE);
}

#[test]
fn negative_node_id_equal_table_id() {
    let table_id = [1u8; NODE_ID_LEN];
    let mut table = RoutingTable::new(table_id.into());

    assert_eq!(table.closest_nodes(table_id.into(), NOW).count(), 0);

    let node = Node::as_good(table_id.into(), dummy_socket_addr_v4(), NOW);
    table.add_node(node, NOW);

    assert_eq!(table.closest_nodes(table_id.into(), NOW).count(), 0);
}

#[test]
fn every_node_sits_in_the_bucket_of_its_prefix() {
    let table_id = NodeId::from([1u8; NODE_ID_LEN]);
    let mut table = RoutingTable::new(table_id);
    let block_address = dummy_block_socket_address(MAX_BUCKET_SIZE as u16 + 3);
    for bit_flip_index in [0usize, 1, 2, 3, 5, 8, 13, 21, 34, 55, 89, 144] {
        for block_addr in &block_address {
            let id = table_id.flip_bit(bit_flip_index);
            table.add_node(Node::as_good(id, *block_addr, NOW), NOW);
        }
    }
    let count = table.num_buckets();
    assert!(count >= 2 && count <= MAX_BUCKETS);
    for (index, bucket) in table.buckets().iter().enumerate() {
        for node in bucket.ping_able_nodes(NOW) {
            let shared = leading_bit_count(table_id, node.id());
            if index < count - 1 {
                assert_eq!(shared, index);
            } else {
                assert!(shared >= index);
            }
        }
    }
}

#[test]
fn closest_nodes_come_in_the_order_of_the_walk() {
    let table_id = NodeId::from([1u8; NODE_ID_LEN]);
    let mut table = RoutingTable::new(table_id);
    let block_address = dummy_block_socket_address(MAX_BUCKET_SIZE as u16);
    for bit_flip_index in 0..12usize {
        for block_addr in &block_address {
            let id = table_id.flip_bit(bit_flip_index);
            table.add_node(Node::as_good(id, *block_addr, NOW), NOW);
        }
    }
    let target = table_id.flip_bit(5);
    let start = leading_bit_count(table_id, target);
    assert_eq!(start, 5);
    let rank = |index: usize| -> usize {
        if index == start {
            0
        } else if index < start {
            2 * (start - index) - 1
        } else {
            2 * (index - start)
        }
    };
    let nodes = table.closest_nodes(target, NOW).to_vec();
    // All good nodes are handed out.
    assert_eq!(nodes.len(), table.num_good_nodes(NOW));
    let ranks: Vec<usize> = nodes
        .iter()
        .map(|node| rank(leading_bit_count(table_id, node.id())))
        .collect();
    for pair in ranks.windows(2) {
        assert!(pair[0] <= pair[1]);
    }
    // The bucket of the target comes first, then the one below it, then the one above.
    assert_eq!(leading_bit_count(table_id, nodes[0].id()), 5);
    assert_eq!(leading_bit_count(table_id, nodes[8].id()), 4);
    assert_eq!(leading_bit_count(table_id, nodes[16].id()), 6);

    let mut walk = table.closest_nodes(target, NOW);
    assert_eq!(walk.count(), nodes.len());
    assert_eq!(walk.next(), Some(nodes[0]));
    assert_eq!(walk.count(), nodes.len() - 1);
}

#[test]
fn walk_over_bucket_indices() {
    // From the start downwards first, then upwards, step by step.
    assert_eq!(next_bucket_index(160, 5, 5), Some(4));
    assert_eq!(next_bucket_index(160, 5, 4), Some(6));
    assert_eq!(next_bucket_index(160, 5, 6), Some(3));
    assert_eq!(next_bucket_index(160, 5, 3), Some(7));
    // The lower side has run out: on upwards.
    assert_eq!(next_bucket_index(160, 5, 0), Some(10));
    assert_eq!(next_bucket_index(160, 5, 10), Some(11));
    assert_eq!(next_bucket_index(160, 5, 159), None);
    // The upper side has run out: on downwards.
    assert_eq!(next_bucket_index(160, 158, 159), Some(156));
    assert_eq!(next_bucket_index(160, 158, 156), Some(155));
    assert_eq!(next_bucket_index(160, 158, 0), None);
    // A start past the last bucket.
    assert_eq!(next_bucket_index(160, 160, 160), Some(159));
    assert_eq!(next_bucket_index(160, 160, 159), Some(158));
    assert_eq!(next_bucket_index(160, 0, 0), Some(1));
    assert_eq!(next_bucket_index(1, 0, 0), None);
    assert_eq!(next_bucket_index(0, 0, 0), None);

    // Every index is visited once.
    let mut seen = vec![false; 160];
    let mut current = 77usize;
    seen[current] = true;
    let mut steps = 1;
    while let Some(next) = next_bucket_index(160, 77, current) {
        assert!(!seen[next]);
        seen[next] = true;
        current = next;
        steps += 1;
    }
    assert_eq!(steps, 160);
}

#[test]
fn placement_helpers() {
    assert_eq!(bucket_placement(0, 1), 0);
    assert_eq!(bucket_placement(7, 3), 2);
    assert_eq!(bucket_placement(2, 3), 2);
    assert_eq!(bucket_placement(1, 3), 1);
    assert!(can_split_bucket(1, 0));
    assert!(!can_split_bucket(2, 0));
    assert!(!can_split_bucket(160, 159));
    assert!(can_split_bucket(159, 158));
    assert!(index_is_in_bounds(5, Some(4)));
    assert!(!index_is_in_bounds(5, Some(5)));
    assert!(!index_is_in_bounds(5, None));
    let a = NodeId::from([0u8; NODE_ID_LEN]);
    let mut bytes = [0u8; NODE_ID_LEN];
    bytes[2] = 0x10;
    assert_eq!(leading_bit_count(a, NodeId::from(bytes)), 19);
    assert_eq!(leading_bit_count(a, a), 160);
}

#[test]
fn find_node_and_requests() {
    let table_id = NodeId::from([1u8; NODE_ID_LEN]);
    let mut table = RoutingTable::new(table_id);
    let id = table_id.flip_bit(3);
    let addr = dummy_socket_addr_v4();
    let handle = NodeHandle::new(id, addr);
    assert_eq!(table.find_node(&handle, NOW), None);
    assert!(!table.local_request(&handle, NOW));

    table.add_node(Node::as_questionable(id, addr, NOW), NOW);
    let found = table.find_node(&handle, NOW).unwrap();
    assert_eq!(found.status(NOW), NodeStatus::Questionable);
    assert!(!found.recently_requested_from(NOW));

    // Two requests without an answer make the node bad: it is found no more.
    assert!(table.local_request(&handle, NOW));
    assert!(table.find_node(&handle, NOW).unwrap().recently_requested_from(NOW));
    assert!(table.local_request(&handle, NOW));
    assert_eq!(table.find_node(&handle, NOW), None);
    assert_eq!(table.num_questionable_node(NOW), 0);

    // A request from the node makes a questionable node good.
    let other = table_id.flip_bit(9);
    let other_handle = NodeHandle::new(other, addr);
    table.add_node(Node::as_questionable(other, addr, NOW), NOW);
    assert!(table.remote_request(&other_handle, NOW));
    assert_eq!(table.find_node(&other_handle, NOW).unwrap().status(NOW), NodeStatus::Good);
    assert_eq!(table.closest_handles(other, 8, NOW), vec![other_handle]);
    assert_eq!(table.node_id(), table_id);
}
