use bt_rust_dht::addr::SocketAddr;
use bt_rust_dht::id::{InfoHash, NodeId};
use bt_rust_dht::message::{Message, MessageBody, Request, Response};
use bt_rust_dht::routing::node::{Node, NodeHandle};
use bt_rust_dht::routing::table::RoutingTable;
use bt_rust_dht::transaction::{AIDGenerator, TransactionID};
use bt_rust_dht::worker::lookup::TableLookup;
use bt_rust_dht::worker::timer::Timer;
use bt_rust_dht::worker::{ActionStatus, ScheduledTaskCheck};

const NOW: u64 = 100_000_000;

fn table_id() -> NodeId {
    NodeId::from([1u8; 20])
}

fn addr(port: u16) -> SocketAddr {
    SocketAddr::v4(127, 0, 0, 1, port)
}

fn transaction_id(message: &Message) -> TransactionID {
    TransactionID::from_bytes(&message.transaction_id).unwrap()
}

fn answer(id: NodeId, values: Vec<SocketAddr>, nodes: Vec<NodeHandle>, token: &[u8]) -> Response {
    Response { id, values, nodes_v4: nodes, nodes_v6: vec![], token: Some(token.to_vec()) }
}

#[test]
fn lookup_on_an_empty_table_ends_without_peers() {
    let mut ids = AIDGenerator::default();
    let mut timer: Timer<ScheduledTaskCheck> = Timer::new();
    let mut table = RoutingTable::new(table_id());
    let target = InfoHash::sha1(b"bob");
    let mut lookup = TableLookup::new(target, true, None, ids.generate(), &table, NOW);
    assert_eq!(lookup.status(), ActionStatus::Ongoing);
    // Nobody to ask: the last round is entered at once, with nobody to ask either.
    assert!(lookup.advance(table_id(), &mut table, &mut timer, NOW).is_empty());
    assert_eq!(timer.next_deadline(), Some(NOW + 1500));
    assert!(matches!(timer.pop_expired(NOW + 1500), Some(ScheduledTaskCheck::LookupEndGame(_))));
    // Entered once only.
    assert!(lookup.advance(table_id(), &mut table, &mut timer, NOW).is_empty());
    assert!(timer.is_empty());
    assert!(lookup.recv_endgame(table_id(), NOW + 1500).is_empty());
    assert_eq!(lookup.status(), ActionStatus::Completed);
}

#[test]
fn lookup_asks_three_at_a_time_closest_first() {
    let mut ids = AIDGenerator::default();
    let mut timer: Timer<ScheduledTaskCheck> = Timer::new();
    let mut table = RoutingTable::new(table_id());
    let target = table_id().flip_bit(100);
    // Ten nodes at different distances from the target: the more leading bits a node
    // shares with the local id, the closer it is.
    for bit in 0..10usize {
        table.add_node(Node::as_good(table_id().flip_bit(bit), addr(bit as u16), NOW), NOW);
    }
    let mut lookup = TableLookup::new(target, true, Some(6881), ids.generate(), &table, NOW);
    let queries = lookup.advance(table_id(), &mut table, &mut timer, NOW);
    // The eight closest are kept, the three closest asked.
    assert_eq!(queries.iter().map(|q| q.addr.port()).collect::<Vec<u16>>(), vec![9, 8, 7]);
    for query in &queries {
        match &query.message.body {
            MessageBody::Request(Request::GetPeers(request)) => {
                assert_eq!(request.id, table_id());
                assert_eq!(request.info_hash, target);
            }
            _ => panic!("get_peers is sent"),
        }
        assert_eq!(transaction_id(&query.message).action_id(), lookup.action_id());
    }
    assert_eq!(timer.next_deadline(), Some(NOW + 500));
    // Three are in flight: no more is asked.
    assert!(lookup.advance(table_id(), &mut table, &mut timer, NOW).is_empty());

    // The closest answers with two peers and a node that is closer still.
    let closer = NodeHandle::new(table_id().flip_bit(50), addr(50));
    let tid = transaction_id(&queries[0].message);
    let response = answer(
        table_id().flip_bit(9),
        vec![addr(1000), addr(1001), addr(1000)],
        vec![closer, NodeHandle::new(table_id().flip_bit(9), addr(9))],
        b"nine",
    );
    assert_eq!(lookup.recv_response(&tid, &response, &mut timer), vec![addr(1000), addr(1001)]);
    // The same answer once more is passed over.
    assert_eq!(lookup.recv_response(&tid, &response, &mut timer), vec![]);
    let next = lookup.advance(table_id(), &mut table, &mut timer, NOW);
    assert_eq!(next.iter().map(|q| q.addr.port()).collect::<Vec<u16>>(), vec![50]);

    // The second times out, the third answers with a peer that is known and one that is new.
    lookup.recv_timeout(&transaction_id(&queries[1].message));
    let response = answer(table_id().flip_bit(7), vec![addr(1001), addr(1002)], vec![], b"seven");
    let tid = transaction_id(&queries[2].message);
    assert_eq!(lookup.recv_response(&tid, &response, &mut timer), vec![addr(1002)]);
    let next2 = lookup.advance(table_id(), &mut table, &mut timer, NOW);
    assert_eq!(next2.iter().map(|q| q.addr.port()).collect::<Vec<u16>>(), vec![6, 5]);

    // All others time out.
    let mut in_flight: Vec<TransactionID> =
        next.iter().chain(next2.iter()).map(|q| transaction_id(&q.message)).collect();
    let mut last_round = Vec::new();
    while let Some(tid) = in_flight.pop() {
        lookup.recv_timeout(&tid);
        let more = lookup.advance(table_id(), &mut table, &mut timer, NOW + 500);
        for query in more {
            if [9, 7].contains(&query.addr.port()) && in_flight.is_empty() {
                last_round.push(query);
            } else {
                in_flight.push(transaction_id(&query.message));
            }
        }
    }
    // The last round asks those again that answered.
    assert_eq!(last_round.iter().map(|q| q.addr.port()).collect::<Vec<u16>>(), vec![9, 7]);
    let response = answer(table_id().flip_bit(9), vec![addr(1003), addr(1000)], vec![], b"nine");
    let tid = transaction_id(&last_round[0].message);
    assert_eq!(lookup.recv_response(&tid, &response, &mut timer), vec![addr(1003)]);
    assert!(lookup.advance(table_id(), &mut table, &mut timer, NOW + 500).is_empty());
    assert_eq!(lookup.status(), ActionStatus::Ongoing);

    // At its end those that answered are told of this peer, each with its token.
    let announces = lookup.recv_endgame(table_id(), NOW + 2000);
    assert_eq!(lookup.status(), ActionStatus::Completed);
    assert_eq!(announces.len(), 2);
    let sent: Vec<(u16, Vec<u8>)> = announces
        .iter()
        .map(|query| match &query.message.body {
            MessageBody::Request(Request::AnnouncePeer(request)) => {
                assert_eq!(request.info_hash, target);
                assert_eq!(request.port, Some(6881));
                assert_eq!(request.id, table_id());
                (query.addr.port(), request.token.clone())
            }
            _ => panic!("announce_peer is sent"),
        })
        .collect();
    assert_eq!(sent, vec![(9, b"nine".to_vec()), (7, b"seven".to_vec())]);
    // Once only.
    assert!(lookup.recv_endgame(table_id(), NOW + 2000).is_empty());
}

#[test]
fn lookup_without_announce_sends_no_announce() {
    let mut ids = AIDGenerator::default();
    let mut timer: Timer<ScheduledTaskCheck> = Timer::new();
    let mut table = RoutingTable::new(table_id());
    let target = InfoHash::sha1(b"foo");
    table.add_node(Node::as_good(table_id().flip_bit(3), addr(3), NOW), NOW);
    let mut lookup = TableLookup::new(target, false, None, ids.generate(), &table, NOW);
    let queries = lookup.advance(table_id(), &mut table, &mut timer, NOW);
    assert_eq!(queries.len(), 1);
    let tid = transaction_id(&queries[0].message);
    let response = answer(table_id().flip_bit(3), vec![addr(7)], vec![], b"t");
    assert_eq!(lookup.recv_response(&tid, &response, &mut timer), vec![addr(7)]);
    // The timeout of the query was cancelled.
    assert!(timer.is_empty());
    let again = lookup.advance(table_id(), &mut table, &mut timer, NOW);
    assert_eq!(again.len(), 1);
    assert!(lookup.recv_endgame(table_id(), NOW + 1500).is_empty());
    assert_eq!(lookup.status(), ActionStatus::Completed);
}
