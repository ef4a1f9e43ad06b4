use bt_rust_dht::addr::{IpAddr, IpVersion, SocketAddr};
use bt_rust_dht::id::{InfoHash, NodeId};
use bt_rust_dht::message::{Message, MessageBody, Request, Response};
use bt_rust_dht::routing::node::{Node, NodeHandle, NodeStatus, MAX_LAST_SEEN_MS};
use bt_rust_dht::routing::table::RoutingTable;
use bt_rust_dht::storage::AnnounceStorage;
use bt_rust_dht::token::{TokenStore, TOKEN_REFRESH_MS};
use bt_rust_dht::transaction::{AIDGenerator, TransactionID};
use bt_rust_dht::worker::bootstrap::{
    filter_by_version, resolved_addresses, BootstrapStep, TableBootstrap,
};
use bt_rust_dht::worker::handler::{handle_request, incorporate_response, note_requester};
use bt_rust_dht::worker::refresh::TableRefresh;
use bt_rust_dht::worker::timer::Timer;
use bt_rust_dht::worker::{
    split_into_address_port, ActionStatus, BootstrapTimeout, Outgoing, ScheduledTaskCheck, State,
};

const NOW: u64 = 100_000_000;

fn table_id() -> NodeId {
    NodeId::from([1u8; 20])
}

fn addr(port: u16) -> SocketAddr {
    SocketAddr::v4(127, 0, 0, 1, port)
}

fn transaction_id(message: &Message) -> TransactionID {
    TransactionID::from_bytes(&message.transaction_id).unwrap()
}

fn find_node_target(message: &Message) -> NodeId {
    match &message.body {
        MessageBody::Request(Request::FindNode(request)) => {
            assert_eq!(request.id, table_id());
            assert_eq!(request.want, None);
            request.target
        }
        _ => panic!("a find_node query is sent"),
    }
}

fn wake_ups(timer: &mut Timer<ScheduledTaskCheck>, until: u64) -> usize {
    let mut count = 0;
    while let Some(task) = timer.pop_expired(until) {
        if let ScheduledTaskCheck::BootstrapTimeout(BootstrapTimeout::IdleWakeUp) = task {
            count += 1;
        }
    }
    count
}

#[test]
fn bootstrap_without_contacts_is_done_at_once() {
    let mut ids = AIDGenerator::default();
    let mut bootstrap =
        TableBootstrap::new(IpVersion::V4, table_id(), ids.generate(), vec![], vec![]);
    assert!(!bootstrap.is_bootstrapped());
    match bootstrap.start() {
        BootstrapStep::Done(changed) => assert!(changed),
        _ => panic!("there is nothing to do"),
    }
    assert!(bootstrap.is_bootstrapped());
    // Once more: nothing changes.
    match bootstrap.start() {
        BootstrapStep::Done(changed) => assert!(!changed),
        _ => panic!("there is nothing to do"),
    }
}

#[test]
fn bootstrap_retries_when_no_router_resolves() {
    let mut ids = AIDGenerator::default();
    let mut timer: Timer<ScheduledTaskCheck> = Timer::new();
    let mut bootstrap = TableBootstrap::new(
        IpVersion::V4,
        table_id(),
        ids.generate(),
        vec!["router.example:6881".to_owned()],
        vec![],
    );
    assert_eq!(bootstrap.routers().len(), 1);
    assert!(matches!(bootstrap.start(), BootstrapStep::Resolve));
    // The router resolves to an address of the other family only.
    let resolved = vec![SocketAddr::new(IpAddr::V6([1; 16]), 6881)];
    match bootstrap.start_with_routers(&resolved, &mut timer, NOW) {
        BootstrapStep::Done(changed) => assert!(!changed),
        _ => panic!("there is nobody to ask"),
    }
    assert!(bootstrap.router_addresses().is_empty());
    assert_eq!(timer.next_deadline(), Some(NOW + 5000));
    assert_eq!(wake_ups(&mut timer, NOW + 5000), 1);
}

#[test]
fn bootstrap_retries_when_nothing_could_be_sent() {
    let mut ids = AIDGenerator::default();
    let mut timer: Timer<ScheduledTaskCheck> = Timer::new();
    let mut bootstrap =
        TableBootstrap::new(IpVersion::V4, table_id(), ids.generate(), vec![], vec![addr(1)]);
    assert!(matches!(bootstrap.start(), BootstrapStep::Resolve));
    match bootstrap.start_with_routers(&vec![], &mut timer, NOW) {
        BootstrapStep::InitialRound { message, targets } => {
            assert_eq!(targets, vec![addr(1)]);
            assert_eq!(find_node_target(&message), table_id());
            assert_eq!(transaction_id(&message).action_id(), bootstrap.action_id());
        }
        _ => panic!("the first round is due"),
    }
    assert_eq!(timer.next_deadline(), Some(NOW + 2500));
    assert!(!bootstrap.initial_round_sent(0, &mut timer, NOW));
    assert!(!bootstrap.is_bootstrapped());
    assert_eq!(wake_ups(&mut timer, NOW + 5000), 1);
}

#[test]
fn bootstrap_goes_through_the_buckets() {
    let mut ids = AIDGenerator::default();
    let mut timer: Timer<ScheduledTaskCheck> = Timer::new();
    let mut table = RoutingTable::new(table_id());
    let seeds = vec![addr(1), addr(2)];
    let routers = vec![SocketAddr::v4(10, 0, 0, 1, 6881)];
    let mut bootstrap = TableBootstrap::new(
        IpVersion::V4,
        table_id(),
        ids.generate(),
        vec!["router.example:6881".to_owned()],
        seeds.clone(),
    );
    assert!(matches!(bootstrap.start(), BootstrapStep::Resolve));
    let shared = match bootstrap.start_with_routers(&routers, &mut timer, NOW) {
        BootstrapStep::InitialRound { message, targets } => {
            assert_eq!(targets, vec![routers[0], seeds[0], seeds[1]]);
            transaction_id(&message)
        }
        _ => panic!("the first round is due"),
    };
    assert!(!bootstrap.initial_round_sent(3, &mut timer, NOW));

    // A response under another transaction id is passed over.
    let stray = TransactionID::new(shared.value() ^ 1);
    match bootstrap.recv_response(seeds[0], &stray, &table, &mut timer, NOW) {
        BootstrapStep::Done(changed) => assert!(!changed),
        _ => panic!("nothing happens"),
    }
    // Two answers, one of them twice: the round waits for the third.
    for from in [seeds[0], seeds[0], seeds[1]] {
        match bootstrap.recv_response(from, &shared, &table, &mut timer, NOW) {
            BootstrapStep::Done(changed) => assert!(!changed),
            _ => panic!("the first round goes on"),
        }
    }
    // What the answers told of: twelve nodes, all hearsay.
    let mut known = Vec::new();
    for bit in [0usize, 1, 2, 3] {
        for port in 0..3u16 {
            let id = table_id().flip_bit(bit);
            table.add_node(Node::as_questionable(id, addr(100 + port), NOW), NOW);
            known.push(NodeHandle::new(id, addr(100 + port)));
        }
    }
    // The third answer ends the first round; the round for bucket 0 begins.
    let queries = match bootstrap.recv_response(routers[0], &shared, &table, &mut timer, NOW) {
        BootstrapStep::Probe(queries) => queries,
        _ => panic!("the round for the first bucket is due"),
    };
    assert_eq!(queries.len(), 8);
    for query in &queries {
        assert_eq!(find_node_target(&query.message), table_id().flip_bit(0));
        assert!(known.iter().any(|node| node.addr == query.addr));
    }
    // The nodes of bucket 0 are asked first.
    assert!(queries.iter().take(3).all(|query| query.addr.port() >= 100));
    let first_ids: Vec<TransactionID> =
        queries.iter().map(|query| transaction_id(&query.message)).collect();
    // Only the first three could be sent.
    let mut results = vec![false; 8];
    results[0] = true;
    results[1] = true;
    results[2] = true;
    match bootstrap.probes_sent(&results, &mut table, &mut timer, NOW) {
        BootstrapStep::Done(changed) => assert!(!changed),
        _ => panic!("answers are waited for"),
    }
    assert_eq!(table.num_questionable_node(NOW), 12);
    // The three answer or time out, one by one.
    match bootstrap.recv_response(addr(100), &first_ids[0], &table, &mut timer, NOW + 10) {
        BootstrapStep::Done(changed) => assert!(!changed),
        _ => panic!("two answers are waited for"),
    }
    // The timeout of a query that was not sent is passed over.
    let timeout = BootstrapTimeout::Transaction(first_ids[5]);
    match bootstrap.recv_timeout(&timeout, &table, &mut timer, NOW + 500) {
        BootstrapStep::Done(changed) => assert!(!changed),
        _ => panic!("nothing happens"),
    }
    let timeout = BootstrapTimeout::Transaction(first_ids[1]);
    match bootstrap.recv_timeout(&timeout, &table, &mut timer, NOW + 500) {
        BootstrapStep::Done(changed) => assert!(!changed),
        _ => panic!("one answer is waited for"),
    }
    // A look at the bootstrap while rounds are under way does nothing.
    match bootstrap.recv_timeout(&BootstrapTimeout::IdleWakeUp, &table, &mut timer, NOW + 500) {
        BootstrapStep::Done(changed) => assert!(!changed),
        _ => panic!("nothing happens"),
    }
    let mut step =
        bootstrap.recv_response(addr(102), &first_ids[2], &table, &mut timer, NOW + 500);
    // From now on nothing can be sent: the rounds run through to the last bucket.
    let mut rounds = 0;
    loop {
        match step {
            BootstrapStep::Probe(queries) => {
                assert!(!queries.is_empty() && queries.len() <= 8);
                rounds += 1;
                let nothing = vec![false; queries.len()];
                step = bootstrap.probes_sent(&nothing, &mut table, &mut timer, NOW + 500);
            }
            BootstrapStep::Done(changed) => {
                assert!(!changed);
                break;
            }
            _ => panic!("rounds are under way"),
        }
    }
    assert!(rounds >= 4);
    // Too few good nodes: idle until the next attempt, two seconds after the first.
    assert!(!bootstrap.is_bootstrapped());
    let mut wake_up_at = None;
    while let Some(deadline) = timer.next_deadline() {
        match timer.pop_expired(deadline) {
            Some(ScheduledTaskCheck::BootstrapTimeout(BootstrapTimeout::IdleWakeUp)) => {
                wake_up_at = Some(deadline)
            }
            _ => {}
        }
    }
    assert_eq!(wake_up_at, Some(NOW + 500 + 2000));
    // The look at the idle bootstrap starts the second attempt.
    let wake = BootstrapTimeout::IdleWakeUp;
    assert!(matches!(
        bootstrap.recv_timeout(&wake, &table, &mut timer, NOW + 2500),
        BootstrapStep::Resolve
    ));
}

#[test]
fn bootstrap_ends_with_ten_good_nodes() {
    let mut ids = AIDGenerator::default();
    let mut timer: Timer<ScheduledTaskCheck> = Timer::new();
    let mut table = RoutingTable::new(table_id());
    let mut bootstrap =
        TableBootstrap::new(IpVersion::V4, table_id(), ids.generate(), vec![], vec![addr(1)]);
    assert!(matches!(bootstrap.start(), BootstrapStep::Resolve));
    let shared = match bootstrap.start_with_routers(&vec![], &mut timer, NOW) {
        BootstrapStep::InitialRound { message, .. } => transaction_id(&message),
        _ => panic!("the first round is due"),
    };
    assert!(!bootstrap.initial_round_sent(1, &mut timer, NOW));
    for bit in 0..10usize {
        table.add_node(Node::as_good(table_id().flip_bit(bit), addr(bit as u16), NOW), NOW);
    }
    // No questionable node is there to ask: the rounds are over at once.
    match bootstrap.recv_response(addr(1), &shared, &table, &mut timer, NOW) {
        BootstrapStep::Done(changed) => assert!(changed),
        _ => panic!("there is nobody to ask"),
    }
    assert!(bootstrap.is_bootstrapped());
    assert_eq!(wake_ups(&mut timer, NOW + 4999), 0);
    assert_eq!(wake_ups(&mut timer, NOW + 5000), 1);
    // With ten good nodes the next look is in five seconds.
    let wake = BootstrapTimeout::IdleWakeUp;
    match bootstrap.recv_timeout(&wake, &table, &mut timer, NOW + 5000) {
        BootstrapStep::Done(changed) => assert!(!changed),
        _ => panic!("all is well"),
    }
    assert_eq!(wake_ups(&mut timer, NOW + 10_000), 1);
    // When the nodes have gone questionable the bootstrap starts again.
    let later = NOW + MAX_LAST_SEEN_MS;
    assert!(matches!(
        bootstrap.recv_timeout(&wake, &table, &mut timer, later),
        BootstrapStep::Resolve
    ));
}

#[test]
fn addresses_of_one_family() {
    let v4 = addr(1);
    let v6 = SocketAddr::new(IpAddr::V6([2; 16]), 2);
    assert_eq!(filter_by_version(&vec![v4, v6, v4], IpVersion::V4), vec![v4, v4]);
    assert_eq!(filter_by_version(&vec![v4, v6, v4], IpVersion::V6), vec![v6]);
    assert_eq!(filter_by_version(&vec![], IpVersion::V6), vec![]);
}

#[test]
fn refresh_asks_questionable_nodes_bucket_after_bucket() {
    let mut ids = AIDGenerator::default();
    let mut timer: Timer<ScheduledTaskCheck> = Timer::new();
    let mut table = RoutingTable::new(table_id());
    let mut refresh = TableRefresh::new(ids.generate());
    for port in 0..6u16 {
        table.add_node(Node::as_questionable(table_id().flip_bit(0), addr(port), NOW), NOW);
    }
    table.add_node(Node::as_good(table_id().flip_bit(1), addr(9), NOW), NOW);

    // The good node took the first slot whose node had a lower status: that of the first
    // questionable node.
    let queries = refresh.continue_refresh(&mut table, &mut timer, NOW);
    assert_eq!(queries.len(), 4);
    for (index, query) in queries.iter().enumerate() {
        assert_eq!(query.addr, addr(index as u16 + 1));
        assert_eq!(find_node_target(&query.message), table_id().flip_bit(0));
        assert_eq!(transaction_id(&query.message).action_id(), refresh.action_id());
    }
    assert!(matches!(timer.pop_expired(NOW + 6000), Some(ScheduledTaskCheck::TableRefresh)));
    // Six seconds later the round is about the next bucket; those asked a moment ago are
    // left alone.
    let queries = refresh.continue_refresh(&mut table, &mut timer, NOW + 6000);
    assert_eq!(queries.len(), 1);
    assert_eq!(queries[0].addr, addr(5));
    assert_eq!(find_node_target(&queries[0].message), table_id().flip_bit(1));
    // Half a minute later those asked first are asked again; asked twice without an
    // answer they are bad.
    let queries = refresh.continue_refresh(&mut table, &mut timer, NOW + 30_000);
    assert_eq!(queries.len(), 4);
    assert_eq!(queries[0].addr, addr(1));
    assert_eq!(table.num_questionable_node(NOW + 30_000), 1);
    // After the last bucket the first comes again.
    for _ in 3..160 {
        refresh.continue_refresh(&mut table, &mut timer, NOW + 30_000);
    }
    let queries = refresh.continue_refresh(&mut table, &mut timer, NOW + 60_000);
    assert_eq!(queries.len(), 1);
    assert_eq!(queries[0].addr, addr(5));
    assert_eq!(find_node_target(&queries[0].message), table_id().flip_bit(0));
}

#[test]
fn tokens_are_bound_to_the_address() {
    let x = IpAddr::V4([10, 0, 0, 1]);
    let y = IpAddr::V4([10, 0, 0, 2]);
    let mut tokens = TokenStore::new(NOW);
    let token = tokens.checkout(x, NOW);
    assert_eq!(token.len(), 20);
    assert!(tokens.checkin(x, &token, NOW));
    assert!(!tokens.checkin(y, &token, NOW));
    assert!(!tokens.checkin(x, &token[1..], NOW));
    assert!(!tokens.checkin(x, b"", NOW));
    assert_eq!(tokens.checkout(x, NOW), token);
    assert_ne!(tokens.checkout(y, NOW), token);
    assert!(!tokens.checkin(IpAddr::V6([0; 16]), &token, NOW));
}

#[test]
fn tokens_expire_with_the_second_new_secret() {
    let x = IpAddr::V4([10, 0, 0, 1]);
    let mut tokens = TokenStore::with_secrets(7, 8, NOW);
    let token = tokens.checkout(x, NOW);
    // sha1 of the address and the four bytes of the secret.
    assert_eq!(
        token,
        bt_rust_dht::id::Id::sha1(&[10, 0, 0, 1, 0, 0, 0, 7]).to_bytes().to_vec()
    );
    assert!(tokens.checkin(x, &token, NOW + TOKEN_REFRESH_MS - 1));
    // The secret is replaced: the token is of the secret before.
    assert!(tokens.checkin(x, &token, NOW + TOKEN_REFRESH_MS));
    assert_ne!(tokens.checkout(x, NOW + TOKEN_REFRESH_MS), token);
    assert!(tokens.checkin(x, &token, NOW + 2 * TOKEN_REFRESH_MS - 1));
    // Replaced once more: the token is taken no longer.
    assert!(!tokens.checkin(x, &token, NOW + 2 * TOKEN_REFRESH_MS));

    // After ten minutes without a look both secrets are new.
    let mut tokens = TokenStore::with_secrets(7, 8, NOW);
    let token = tokens.checkout(x, NOW);
    assert!(!tokens.checkin(x, &token, NOW + 2 * TOKEN_REFRESH_MS));
}

#[test]
fn queries_are_answered() {
    let mut table = RoutingTable::new(table_id());
    let mut storage = AnnounceStorage::new();
    let mut tokens = TokenStore::new(NOW);
    let asker = NodeId::from([2u8; 20]);
    let from = SocketAddr::v4(10, 0, 0, 1, 4000);
    for bit in 0..12usize {
        table.add_node(Node::as_good(table_id().flip_bit(bit), addr(bit as u16), NOW), NOW);
    }

    let ping = Message::decode(b"d1:ad2:id20:abcdefghij0123456789e1:q4:ping1:t2:aa1:y1:qe").unwrap();
    let request = match ping.body {
        MessageBody::Request(request) => request,
        _ => panic!("a query"),
    };
    let empty = Response { id: table_id(), values: vec![], nodes_v4: vec![], nodes_v6: vec![], token: None };
    assert_eq!(
        handle_request(&table, &mut storage, &mut tokens, &request, from, NOW),
        MessageBody::Response(empty.clone())
    );

    let find_node = Message::find_node(vec![1], asker, table_id().flip_bit(3));
    let request = match find_node.body {
        MessageBody::Request(request) => request,
        _ => panic!("a query"),
    };
    match handle_request(&table, &mut storage, &mut tokens, &request, from, NOW) {
        MessageBody::Response(response) => {
            assert_eq!(response.id, table_id());
            assert_eq!(response.nodes_v4.len(), 8);
            assert_eq!(response.nodes_v4[0].id, table_id().flip_bit(3));
            assert_eq!(response.nodes_v4[1].id, table_id().flip_bit(2));
            assert_eq!(response.nodes_v4[2].id, table_id().flip_bit(4));
            assert!(response.nodes_v6.is_empty());
            assert!(response.values.is_empty());
            assert_eq!(response.token, None);
        }
        _ => panic!("find_node is answered"),
    }

    let info_hash = InfoHash::sha1(b"foo");
    let get_peers = |table: &RoutingTable, storage: &mut AnnounceStorage, tokens: &mut TokenStore, from: SocketAddr| {
        let query = Message::get_peers(vec![1], asker, info_hash);
        let request = match query.body {
            MessageBody::Request(request) => request,
            _ => panic!("a query"),
        };
        match handle_request(table, storage, tokens, &request, from, NOW) {
            MessageBody::Response(response) => response,
            _ => panic!("get_peers is answered"),
        }
    };
    let response = get_peers(&table, &mut storage, &mut tokens, from);
    assert!(response.values.is_empty());
    assert_eq!(response.nodes_v4.len(), 8);
    let token = response.token.unwrap();

    let announce = |table: &RoutingTable, storage: &mut AnnounceStorage, tokens: &mut TokenStore, from: SocketAddr, port: Option<u16>, token: Vec<u8>| {
        let query = Message::announce_peer(vec![1], asker, info_hash, port, token);
        let request = match query.body {
            MessageBody::Request(request) => request,
            _ => panic!("a query"),
        };
        handle_request(table, storage, tokens, &request, from, NOW)
    };
    // The token of one address is not taken from another.
    let other = SocketAddr::v4(10, 0, 0, 2, 4000);
    match announce(&table, &mut storage, &mut tokens, other, Some(6881), token.clone()) {
        MessageBody::Error(error) => {
            assert_eq!(error.code, 203);
            assert_eq!(error.message, "Received An Invalid Token");
        }
        _ => panic!("the token is of another address"),
    }
    assert!(get_peers(&table, &mut storage, &mut tokens, from).values.is_empty());
    // From the address it was handed to, on any port, it is.
    let same_ip = SocketAddr::v4(10, 0, 0, 1, 5000);
    assert_eq!(
        announce(&table, &mut storage, &mut tokens, same_ip, Some(6881), token.clone()),
        MessageBody::Response(empty.clone())
    );
    assert_eq!(
        announce(&table, &mut storage, &mut tokens, same_ip, None, token.clone()),
        MessageBody::Response(empty.clone())
    );
    let response = get_peers(&table, &mut storage, &mut tokens, other);
    assert_eq!(
        response.values,
        vec![SocketAddr::v4(10, 0, 0, 1, 6881), SocketAddr::v4(10, 0, 0, 1, 5000)]
    );
    // A full store refuses.
    for port in 0..498u16 {
        assert!(storage.add_item(InfoHash::sha1(b"bar"), addr(port), NOW));
    }
    match announce(&table, &mut storage, &mut tokens, same_ip, Some(1), token) {
        MessageBody::Error(error) => {
            assert_eq!(error.code, 202);
            assert_eq!(error.message, "Announce Storage Is Full");
        }
        _ => panic!("the store is full"),
    }
}

#[test]
fn responses_and_askers_fill_the_table() {
    let mut table = RoutingTable::new(table_id());
    let responder = NodeId::from([3u8; 20]);
    let from = SocketAddr::v4(10, 0, 0, 1, 4000);
    let response = Response {
        id: responder,
        values: vec![],
        nodes_v4: vec![
            NodeHandle::new(table_id().flip_bit(1), addr(1)),
            NodeHandle::new(table_id().flip_bit(2), addr(2)),
        ],
        nodes_v6: vec![NodeHandle::new(
            table_id().flip_bit(3),
            SocketAddr::new(IpAddr::V6([1; 16]), 3),
        )],
        token: None,
    };
    incorporate_response(&mut table, from, &response, IpVersion::V4, NOW);
    assert_eq!(table.num_good_nodes(NOW), 1);
    assert_eq!(table.num_questionable_node(NOW), 2);
    let found = table.find_node(&NodeHandle::new(responder, from), NOW).unwrap();
    assert_eq!(found.status(NOW), NodeStatus::Good);

    // A node that reads only learns nothing from those who ask.
    let asker = NodeHandle::new(NodeId::from([4u8; 20]), addr(4));
    note_requester(&mut table, true, asker, NOW);
    assert_eq!(table.find_node(&asker, NOW), None);
    note_requester(&mut table, false, asker, NOW);
    assert_eq!(table.find_node(&asker, NOW).unwrap().status(NOW), NodeStatus::Questionable);
    // Who is known and asks again has sent a query of late.
    note_requester(&mut table, false, asker, NOW + 1);
    assert_eq!(table.find_node(&asker, NOW).unwrap().status(NOW + 1), NodeStatus::Good);
}

#[test]
fn host_and_port() {
    assert_eq!(
        split_into_address_port("router.bittorrent.com:6881"),
        Ok(("router.bittorrent.com".to_owned(), 6881))
    );
    assert_eq!(split_into_address_port("höst:+0080"), Ok(("höst".to_owned(), 80)));
    assert_eq!(split_into_address_port(":0"), Ok((String::new(), 0)));
    assert_eq!(split_into_address_port("a:65535"), Ok(("a".to_owned(), 65535)));
    assert_eq!(split_into_address_port("a:65536"), Err(()));
    assert_eq!(split_into_address_port("a:99999999999999999999"), Err(()));
    assert_eq!(split_into_address_port("a:"), Err(()));
    assert_eq!(split_into_address_port("a:+"), Err(()));
    assert_eq!(split_into_address_port("a:-1"), Err(()));
    assert_eq!(split_into_address_port("a:8o"), Err(()));
    assert_eq!(split_into_address_port("a: 80"), Err(()));
    assert_eq!(split_into_address_port("router.bittorrent.com"), Err(()));
    assert_eq!(split_into_address_port("[::1]:6881"), Err(()));
    assert_eq!(split_into_address_port(""), Err(()));
}

#[test]
fn plain_values_of_the_worker() {
    let state = State {
        is_running: true,
        bootstrapped: false,
        good_node_count: 1,
        questionable_node_count: 2,
        bucket_count: 3,
    };
    assert_eq!(state.bucket_count, 3);
    assert_ne!(ActionStatus::Ongoing, ActionStatus::Completed);
    let query = Outgoing { addr: addr(1), message: Message::find_node(vec![], table_id(), table_id()) };
    assert_eq!(query.clone(), query);
}

#[test]
fn first_address_of_each_router_counts() {
    let v4 = |last: u8| IpAddr::V4([10, 0, 0, last]);
    let v6 = |last: u8| {
        let mut bytes = [0u8; 16];
        bytes[15] = last;
        IpAddr::V6(bytes)
    };
    let answers = vec![
        (vec![v4(1), v4(2)], 6881),
        (vec![], 6882),
        (vec![v6(3), v4(4)], 6883),
        (vec![v4(1)], 6881),
        (vec![v4(1)], 6884),
    ];
    assert_eq!(
        resolved_addresses(&answers, IpVersion::V4),
        vec![SocketAddr::new(v4(1), 6881), SocketAddr::new(v4(1), 6884)]
    );
    assert_eq!(resolved_addresses(&answers, IpVersion::V6), vec![SocketAddr::new(v6(3), 6883)]);
    assert!(resolved_addresses(&vec![], IpVersion::V4).is_empty());
}
