use bt_rust_dht::addr::{IpVersion, SocketAddr};
use bt_rust_dht::id::{InfoHash, NodeId};
use bt_rust_dht::message::{Error, Message, MessageBody, PingRequest, Request, Response};
use bt_rust_dht::routing::table::RoutingTable;
use bt_rust_dht::transaction::TransactionID;
use bt_rust_dht::worker::bootstrap::BootstrapStep;
use bt_rust_dht::worker::handler::{DhtHandler, Effect, Outcome};
use bt_rust_dht::worker::{encode_message, Outgoing, WorkerError};

const START: u64 = 86_400_000;

fn addr(port: u16) -> SocketAddr {
    SocketAddr::v4(127, 0, 0, 1, port)
}

fn id_of(byte: u8) -> NodeId {
    NodeId::from([byte; 20])
}

fn lone_node(byte: u8) -> DhtHandler {
    DhtHandler::new(
        RoutingTable::new(id_of(byte)),
        false,
        vec![],
        vec![],
        None,
        IpVersion::V4,
        START,
    )
}

fn ping(from: u8, transaction_id: &[u8]) -> Vec<u8> {
    Message {
        transaction_id: transaction_id.to_vec(),
        body: MessageBody::Request(Request::Ping(PingRequest { id: id_of(from) })),
    }
    .encode()
}

fn response(from: u8, transaction_id: &[u8]) -> Vec<u8> {
    Message {
        transaction_id: transaction_id.to_vec(),
        body: MessageBody::Response(Response {
            id: id_of(from),
            values: vec![],
            nodes_v4: vec![],
            nodes_v6: vec![],
            token: None,
        }),
    }
    .encode()
}

fn is_done(step: &BootstrapStep, changed: bool) -> bool {
    matches!(step, BootstrapStep::Done(c) if *c == changed)
}

/// Nodes that talk to each other without a wire.
struct Network {
    now: u64,
    nodes: Vec<(SocketAddr, DhtHandler)>,
    wire: Vec<(SocketAddr, SocketAddr, Vec<u8>)>,
    peers: Vec<(usize, u64, SocketAddr)>,
    finished: Vec<(usize, u64)>,
    answers: Vec<(usize, u64, bool)>,
    refused: Vec<WorkerError>,
}

impl Network {
    fn new() -> Network {
        Network {
            now: START,
            nodes: vec![],
            wire: vec![],
            peers: vec![],
            finished: vec![],
            answers: vec![],
            refused: vec![],
        }
    }

    fn join(&mut self, byte: u8, port: u16, seeds: Vec<SocketAddr>, announce_port: Option<u16>) -> usize {
        let node = DhtHandler::new(
            RoutingTable::new(id_of(byte)),
            false,
            vec![],
            seeds,
            announce_port,
            IpVersion::V4,
            self.now,
        );
        self.nodes.push((addr(port), node));
        let who = self.nodes.len() - 1;
        let outcome = self.nodes[who].1.start_bootstrap(self.now);
        self.carry_out(who, outcome);
        self.deliver();
        who
    }

    fn send(&mut self, who: usize, out: &Outgoing) -> bool {
        match encode_message(&out.message) {
            Ok(bytes) => {
                self.wire.push((self.nodes[who].0, out.addr, bytes));
                true
            }
            Err(_) => false,
        }
    }

    fn carry_out(&mut self, who: usize, first: Outcome) {
        let mut outcome = first;
        loop {
            for effect in outcome.effects {
                match effect {
                    Effect::Send(out) => {
                        self.send(who, &out);
                    }
                    Effect::Peer { lookup, addr } => self.peers.push((who, lookup, addr)),
                    Effect::LookupFinished { lookup } => self.finished.push((who, lookup)),
                    Effect::BootstrapAnswer { waiter, bootstrapped } => {
                        self.answers.push((who, waiter, bootstrapped))
                    }
                }
            }
            outcome = match outcome.bootstrap {
                BootstrapStep::Done(_) => return,
                BootstrapStep::Resolve => self.nodes[who].1.routers_resolved(&vec![], self.now),
                BootstrapStep::InitialRound { message, targets } => {
                    let mut sent = 0;
                    for addr in targets {
                        if self.send(who, &Outgoing { addr, message: message.clone() }) {
                            sent += 1;
                        }
                    }
                    self.nodes[who].1.initial_round_sent(sent, self.now)
                }
                BootstrapStep::Probe(queries) => {
                    let results: Vec<bool> =
                        queries.iter().map(|query| self.send(who, query)).collect();
                    self.nodes[who].1.probes_sent(&results, self.now)
                }
            };
        }
    }

    fn deliver(&mut self) {
        while !self.wire.is_empty() {
            let (from, to, bytes) = self.wire.remove(0);
            let who = match self.nodes.iter().position(|(addr, _)| *addr == to) {
                Some(who) => who,
                None => continue,
            };
            match self.nodes[who].1.handle_datagram(&bytes, from, self.now) {
                Ok(outcome) => self.carry_out(who, outcome),
                Err(error) => self.refused.push(error),
            }
        }
    }

    fn pass(&mut self, milliseconds: u64, steps: usize) {
        for _ in 0..steps {
            self.now += milliseconds;
            for who in 0..self.nodes.len() {
                while let Some(outcome) = self.nodes[who].1.handle_timeout(self.now) {
                    self.carry_out(who, outcome);
                }
            }
            self.deliver();
        }
    }

    fn look_up(&mut self, who: usize, info_hash: InfoHash, announce: bool) -> u64 {
        let (id, outcome) = self.nodes[who].1.start_lookup(info_hash, announce, self.now);
        self.carry_out(who, outcome);
        self.deliver();
        id
    }

    fn peers_of(&self, who: usize, lookup: u64) -> Vec<SocketAddr> {
        self.peers
            .iter()
            .filter(|(w, l, _)| *w == who && *l == lookup)
            .map(|(_, _, addr)| *addr)
            .collect()
    }
}

#[test]
fn node_without_contacts_is_bootstrapped_at_once() {
    let mut node = lone_node(1);
    assert!(!node.is_bootstrapped());
    assert_eq!(node.routers().len(), 0);
    let outcome = node.start_bootstrap(START);
    assert!(is_done(&outcome.bootstrap, true));
    assert!(node.is_bootstrapped());
    let state = node.state(START);
    assert!(state.is_running);
    assert!(state.bootstrapped);
    assert_eq!(state.good_node_count, 0);
    assert_eq!(state.bucket_count, 1);
    assert_eq!(node.get_nodes().len(), 8);
}

#[test]
fn node_answers_a_ping_with_its_id() {
    let mut node = lone_node(1);
    let outcome = node.handle_datagram(&ping(2, b"ab"), addr(7002), START).unwrap();
    assert!(is_done(&outcome.bootstrap, false));
    assert_eq!(outcome.effects.len(), 1);
    match &outcome.effects[0] {
        Effect::Send(out) => {
            assert_eq!(out.addr, addr(7002));
            assert_eq!(out.message.transaction_id, b"ab".to_vec());
            match &out.message.body {
                MessageBody::Response(response) => {
                    assert_eq!(response.id, id_of(1));
                    assert!(response.values.is_empty());
                    assert!(response.nodes_v4.is_empty());
                    assert_eq!(response.token, None);
                }
                _ => panic!("a ping is answered with a response"),
            }
        }
        _ => panic!("the answer is to be sent"),
    }
    // The one who asked is known from now on.
    assert!(node.get_nodes().contains(&addr(7002)));
    assert_eq!(node.state(START).questionable_node_count, 1);
}

#[test]
fn read_only_node_learns_nothing_from_queries() {
    let mut node = DhtHandler::new(
        RoutingTable::new(id_of(1)),
        true,
        vec![],
        vec![],
        None,
        IpVersion::V4,
        START,
    );
    let outcome = node.handle_datagram(&ping(2, b"ab"), addr(7002), START).unwrap();
    assert_eq!(outcome.effects.len(), 1);
    assert!(!node.get_nodes().contains(&addr(7002)));
}

#[test]
fn node_refuses_what_is_no_message() {
    let mut node = lone_node(1);
    assert_eq!(
        node.handle_datagram(b"no message", addr(7002), START).err(),
        Some(WorkerError::InvalidBencodeDe)
    );
    assert_eq!(
        node.handle_datagram(b"", addr(7002), START).err(),
        Some(WorkerError::InvalidBencodeDe)
    );
    assert_eq!(node.next_deadline(), None);
}

#[test]
fn node_refuses_a_response_with_a_short_transaction_id() {
    let mut node = lone_node(1);
    assert_eq!(
        node.handle_datagram(&response(2, b"ab"), addr(7002), START).err(),
        Some(WorkerError::InvalidTransactionId)
    );
    assert!(!node.get_nodes().contains(&addr(7002)));
}

#[test]
fn node_refuses_a_response_that_nothing_waits_for() {
    let mut node = lone_node(1);
    let trans_id = TransactionID::new(u64::MAX);
    assert_eq!(
        node.handle_datagram(&response(2, trans_id.as_ref()), addr(7002), START).err(),
        Some(WorkerError::UnsolicitedResponse)
    );
    assert!(!node.get_nodes().contains(&addr(7002)));
}

#[test]
fn node_takes_an_error_message_without_a_word() {
    let mut node = lone_node(1);
    let bytes = Message {
        transaction_id: b"ab".to_vec(),
        body: MessageBody::Error(Error { code: 201, message: String::from("no") }),
    }
    .encode();
    let outcome = node.handle_datagram(&bytes, addr(7002), START).unwrap();
    assert!(outcome.effects.is_empty());
    assert!(is_done(&outcome.bootstrap, false));
}

#[test]
fn waiter_is_answered_at_once_when_bootstrapped() {
    let mut node = lone_node(1);
    node.start_bootstrap(START);
    let (waiter, outcome) = node.check_bootstrap(Some(1000), START);
    assert_eq!(outcome.effects.len(), 1);
    match &outcome.effects[0] {
        Effect::BootstrapAnswer { waiter: told, bootstrapped } => {
            assert_eq!(*told, waiter);
            assert!(*bootstrapped);
        }
        _ => panic!("the waiter is to be answered"),
    }
    let (next, _) = node.check_bootstrap(None, START);
    assert_eq!(next, waiter + 1);
}

#[test]
fn waiter_is_answered_when_the_time_is_up() {
    let mut node = lone_node(1);
    let (waiter, outcome) = node.check_bootstrap(Some(1000), START);
    assert!(outcome.effects.is_empty());
    assert_eq!(node.next_deadline(), Some(START + 1000));
    assert!(node.handle_timeout(START + 999).is_none());
    let outcome = node.handle_timeout(START + 1000).unwrap();
    assert_eq!(outcome.effects.len(), 1);
    match &outcome.effects[0] {
        Effect::BootstrapAnswer { waiter: told, bootstrapped } => {
            assert_eq!(*told, waiter);
            assert!(!*bootstrapped);
        }
        _ => panic!("the waiter is to be answered"),
    }
    assert_eq!(node.next_deadline(), None);
    assert!(node.handle_timeout(START + 2000).is_none());
}

#[test]
fn waiters_are_answered_when_the_table_is_bootstrapped() {
    let mut node = lone_node(1);
    let (first, _) = node.check_bootstrap(None, START);
    let (second, _) = node.check_bootstrap(Some(5000), START);
    let outcome = node.start_bootstrap(START);
    assert!(is_done(&outcome.bootstrap, true));
    let told: Vec<(u64, bool)> = outcome
        .effects
        .iter()
        .filter_map(|effect| match effect {
            Effect::BootstrapAnswer { waiter, bootstrapped } => Some((*waiter, *bootstrapped)),
            _ => None,
        })
        .collect();
    assert_eq!(told, vec![(first, true), (second, true)]);
    // The time of the second waiter comes, and nobody waits any more.
    let mut answers = 0;
    while let Some(outcome) = node.handle_timeout(START + 5000) {
        answers += outcome
            .effects
            .iter()
            .filter(|effect| matches!(effect, Effect::BootstrapAnswer { .. }))
            .count();
    }
    assert_eq!(answers, 0);
}

#[test]
fn lookup_waits_for_the_bootstrap() {
    let mut node = lone_node(1);
    let (lookup, outcome) = node.start_lookup(InfoHash::from([9u8; 20]), false, START);
    assert!(outcome.effects.is_empty());
    assert_eq!(node.next_deadline(), None);
    // The table is empty: when the bootstrap is over the lookup goes
    // straight to its last round, which ends after its time.
    node.start_bootstrap(START);
    let mut finished = vec![];
    let mut now = START;
    for _ in 0..10 {
        now += 1000;
        while let Some(outcome) = node.handle_timeout(now) {
            for effect in outcome.effects {
                if let Effect::LookupFinished { lookup } = effect {
                    finished.push(lookup);
                }
            }
        }
    }
    assert_eq!(finished, vec![lookup]);
}

#[test]
fn nodes_get_to_know_each_other() {
    let mut network = Network::new();
    let first = network.join(1, 7001, vec![], None);
    let second = network.join(2, 7002, vec![addr(7001)], None);
    network.pass(500, 4);
    assert!(network.nodes[first].1.is_bootstrapped());
    assert!(network.nodes[first].1.get_nodes().contains(&addr(7002)));
    assert!(network.nodes[second].1.get_nodes().contains(&addr(7001)));
    assert_eq!(network.nodes[second].1.state(network.now).good_node_count, 1);
    assert!(network.refused.is_empty());
}

#[test]
fn announce_is_found_by_a_later_lookup() {
    let mut network = Network::new();
    let first = network.join(1, 7001, vec![], Some(6881));
    network.join(2, 7002, vec![addr(7001)], None);
    network.join(3, 7003, vec![addr(7001)], None);
    network.pass(500, 4);
    let info_hash = InfoHash::from([9u8; 20]);

    let announce = network.look_up(first, info_hash, true);
    network.pass(500, 8);
    assert!(network.finished.contains(&(first, announce)));
    assert!(network.peers_of(first, announce).is_empty());

    let lookup = network.look_up(first, info_hash, false);
    network.pass(500, 8);
    assert!(network.finished.contains(&(first, lookup)));
    let peers = network.peers_of(first, lookup);
    assert_eq!(peers, vec![addr(6881)]);
    // The lookup got to know the three nodes, the first of them from the
    // answers of the others, and announced to each. Their answers came when
    // the lookup was over.
    assert_eq!(network.refused, vec![WorkerError::UnsolicitedResponse; 3]);
}

#[test]
fn malformed_query_is_answered_with_an_error() {
    let mut node = lone_node(1);
    // A query without arguments.
    let outcome = node.handle_datagram(b"d1:q4:ping1:t2:ab1:y1:qe", addr(7002), START).unwrap();
    assert!(is_done(&outcome.bootstrap, false));
    assert_eq!(outcome.effects.len(), 1);
    match &outcome.effects[0] {
        Effect::Send(out) => {
            assert_eq!(out.addr, addr(7002));
            assert_eq!(out.message.transaction_id, b"ab".to_vec());
            match &out.message.body {
                MessageBody::Error(error) => assert_eq!(error.code, 203),
                _ => panic!("the query is refused"),
            }
        }
        _ => panic!("the refusal is to be sent"),
    }
    assert!(!node.get_nodes().contains(&addr(7002)));
    // A response without fields is no query: nothing is sent.
    assert_eq!(
        node.handle_datagram(b"d1:t2:ab1:y1:re", addr(7002), START).err(),
        Some(WorkerError::InvalidBencodeDe)
    );
    // Without a transaction id there is nothing to answer to.
    assert_eq!(
        node.handle_datagram(b"d1:q4:ping1:y1:qe", addr(7002), START).err(),
        Some(WorkerError::InvalidBencodeDe)
    );
    assert_eq!(Message::malformed_query(b"d1:q4:ping1:t2:ab1:y1:qe"), Some(b"ab".to_vec()));
    assert_eq!(Message::malformed_query(&ping(2, b"ab")), None);
}

#[test]
fn cancelled_lookup_is_gone() {
    let mut node = lone_node(1);
    // One lookup that waits for the bootstrap, and one that is under way.
    let (waiting, _) = node.start_lookup(InfoHash::from([9u8; 20]), false, START);
    assert!(node.cancel_lookup(waiting));
    assert!(!node.cancel_lookup(waiting));
    node.start_bootstrap(START);
    let (running, _) = node.start_lookup(InfoHash::from([9u8; 20]), false, START);
    assert!(node.cancel_lookup(running));
    assert!(!node.cancel_lookup(running));
    let mut finished = 0;
    let mut now = START;
    for _ in 0..10 {
        now += 1000;
        while let Some(outcome) = node.handle_timeout(now) {
            finished += outcome
                .effects
                .iter()
                .filter(|effect| matches!(effect, Effect::LookupFinished { .. }))
                .count();
        }
    }
    assert_eq!(finished, 0);
}

#[test]
fn message_that_cannot_be_put_on_the_wire_is_refused() {
    let node = bt_rust_dht::routing::node::NodeHandle::new(id_of(3), addr(7003));
    let message = Message {
        transaction_id: b"ab".to_vec(),
        body: MessageBody::Response(Response {
            id: id_of(1),
            values: vec![],
            nodes_v4: vec![],
            nodes_v6: vec![node],
            token: None,
        }),
    };
    assert!(!message.is_encodable());
    assert_eq!(encode_message(&message), Err(WorkerError::InvalidBencodeSer));
    let message = Message {
        transaction_id: b"ab".to_vec(),
        body: MessageBody::Response(Response {
            id: id_of(1),
            values: vec![],
            nodes_v4: vec![node],
            nodes_v6: vec![],
            token: None,
        }),
    };
    assert!(message.is_encodable());
    assert_eq!(encode_message(&message), Ok(message.encode()));
}

#[test]
fn node_keeps_the_names_of_its_routers() {
    let names = vec![String::from("router.example:6881"), String::from("other.example:6881")];
    let mut node = DhtHandler::new(
        RoutingTable::new(id_of(1)),
        false,
        names.clone(),
        vec![],
        None,
        IpVersion::V4,
        START,
    );
    assert_eq!(node.routers(), &names);
    // With routers the bootstrap asks for their addresses first, and the
    // names stay as they are.
    let outcome = node.start_bootstrap(START);
    assert!(matches!(outcome.bootstrap, BootstrapStep::Resolve));
    assert_eq!(node.routers(), &names);
}
