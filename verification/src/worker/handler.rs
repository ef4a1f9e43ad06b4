//! What the node does with the messages of others: how it answers their
//! queries, and what it learns from their responses.

use vstd::prelude::*;
use crate::addr::{IpVersion, SocketAddr};
use crate::compact::same_version;
use crate::id::NodeId;
use crate::message::error_code::{PROTOCOL_ERROR, SERVER_ERROR};
use crate::message::{
    Error, ErrorView, MessageBody, MessageBodyView, Request, RequestView, Response, ResponseView,
};
use crate::routing::node::{Node, NodeHandle, NodeView, MAX_LAST_SEEN_MS};
use crate::routing::table::{
    closest, first_handles, table_add, table_remote_request, RoutingTable, TableView,
};
use crate::storage::{added, addresses_of, pruned, AnnounceStorage, StorageView};
use crate::token::{accepted, refreshed, token_for, TokenStore, TokenView};
use crate::id::InfoHash;
use crate::message::codec::{decoded, encodable, malformed_query};
use crate::message::{Message, MessageView};
use crate::bytes::big_endian;
use crate::transaction::{
    AIDGenerator, ActionID, TransactionID, MAX_MESSAGE_ID, TRANSACTION_ID_BYTES,
};
use crate::transaction::{issues, GeneratorView, MAX_ACTION_ID};
use crate::worker::bootstrap::{
    probed, resolves, responds, round_sent, starts, times_out, BootstrapStep, BootstrapView,
    TableBootstrap,
};
use crate::worker::lookup::{
    after_response, after_timeout, awaited, finishes, goes_on, new_peers, started,
    timer_after_response, LookupView, TableLookup,
};
use crate::worker::refresh::{refreshes, TableRefresh};
use crate::worker::timer::{popped, Timer, TimerView};
use crate::worker::{
    ActionStatus, BootstrapTimeout, Outgoing, ScheduledTaskCheck, State, WorkerError,
};

verus! {

/// Number of nodes that an answer names.
pub const NODES_PER_RESPONSE: usize = 8;

/// A node that we know of from others: it counts as one that responded
/// so long ago that it is questionable at `now`.
pub open spec fn hearsay(handle: NodeHandle, now: u64) -> NodeView {
    NodeView {
        handle,
        last_request: None,
        last_response: Some((now - MAX_LAST_SEEN_MS) as u64),
        last_local_request: None,
        refresh_requests: 0,
    }
}

/// A node that responded to us at `now`.
pub open spec fn respondent(handle: NodeHandle, now: u64) -> NodeView {
    NodeView {
        handle,
        last_request: None,
        last_response: Some(now),
        last_local_request: None,
        refresh_requests: 0,
    }
}

/// The table after the given nodes were offered to it as hearsay, one
/// after the other.
pub open spec fn contacts_added(t: TableView, contacts: Seq<NodeHandle>, now: u64) -> TableView
    decreases contacts.len(),
{
    if contacts.len() == 0 {
        t
    } else {
        table_add(
            contacts_added(t, contacts.drop_last(), now),
            hearsay(contacts.last(), now),
            now,
        )
    }
}

/// The nodes of a response that are of the given address family.
pub open spec fn contacts_of(response: ResponseView, version: IpVersion) -> Seq<NodeHandle> {
    match version {
        IpVersion::V4 => response.nodes_v4,
        IpVersion::V6 => response.nodes_v6,
    }
}

/// The nodes of `s` whose addresses are of the given family, in their
/// order.
pub open spec fn handles_of_version(s: Seq<NodeHandle>, version: IpVersion) -> Seq<NodeHandle>
    decreases s.len(),
{
    if s.len() == 0 {
        s
    } else if s.last().addr.ip.version_spec() == version {
        handles_of_version(s.drop_last(), version).push(s.last())
    } else {
        handles_of_version(s.drop_last(), version)
    }
}

/// The answer of the node `id` that names the nodes `nodes`, each in the
/// list of its address family, and carries the peers `values` and the
/// token `token`.
pub open spec fn answer(
    id: NodeId,
    values: Seq<SocketAddr>,
    nodes: Seq<NodeHandle>,
    token: Option<Seq<u8>>,
) -> MessageBodyView {
    MessageBodyView::Response(
        ResponseView {
            id,
            values,
            nodes_v4: handles_of_version(nodes, IpVersion::V4),
            nodes_v6: handles_of_version(nodes, IpVersion::V6),
            token,
        },
    )
}

/// The refusal with the given code.
pub open spec fn refusal(code: u8, message: Seq<char>) -> MessageBodyView {
    MessageBodyView::Error(ErrorView { code, message })
}

/// The address under which an announce from `from` is stored: the port
/// given, or the port that the announce came from if none is given.
pub open spec fn announced_addr(from: SocketAddr, port: Option<u16>) -> SocketAddr {
    SocketAddr {
        ip: from.ip,
        port: match port {
            Some(port) => port,
            None => from.port,
        },
    }
}

/// The table after the node `handle` was seen to send a query at `now`.
/// A node that reads only learns nothing from queries. Otherwise the time
/// of the query is recorded in the entry of the node if it has one that is
/// good or questionable, and a node without such an entry is offered to
/// the table as hearsay.
pub open spec fn requester_seen(t: TableView, read_only: bool, handle: NodeHandle, now: u64) -> TableView {
    if read_only {
        t
    } else if crate::routing::table::found_at(t, handle, now).1
        < crate::routing::bucket::MAX_BUCKET_SIZE {
        table_remote_request(t, handle, now)
    } else {
        table_add(t, hearsay(handle, now), now)
    }
}

/// The nodes whose addresses are of the given family.
pub fn filter_handles(handles: &Vec<NodeHandle>, version: IpVersion) -> (kept: Vec<NodeHandle>)
    ensures
        kept@ == handles_of_version(handles@, version),
{
    let mut kept: Vec<NodeHandle> = Vec::new();
    let mut i: usize = 0;
    assert(handles@.take(0) =~= Seq::<NodeHandle>::empty());
    while i < handles.len()
        invariant
            i <= handles@.len(),
            kept@ == handles_of_version(handles@.take(i as int), version),
        decreases handles@.len() - i,
    {
        proof {
            let next = handles@.take(i as int + 1);
            assert(next.drop_last() =~= handles@.take(i as int));
            assert(next.last() == handles@[i as int]);
        }
        if same_version(handles[i].addr.version(), version) {
            kept.push(handles[i]);
        }
        i += 1;
    }
    assert(handles@.take(handles@.len() as int) =~= handles@);
    kept
}

/// Takes in a response that came from `from` at `now`: the node that
/// responded is offered to the table as a good node, and the nodes of the
/// family of this node that the response names are offered as hearsay.
pub fn incorporate_response(
    table: &mut RoutingTable,
    from: SocketAddr,
    response: &Response,
    version: IpVersion,
    now: u64,
)
    requires
        old(table).wf(),
        now >= MAX_LAST_SEEN_MS,
    ensures
        final(table).wf(),
        final(table)@ == contacts_added(
            table_add(
                old(table)@,
                respondent(NodeHandle { id: response@.id, addr: from }, now),
                now,
            ),
            contacts_of(response@, version),
            now,
        ),
{
    table.add_node(Node::as_good(response.id, from, now), now);
    let ghost t1 = table@;
    let contacts = match version {
        IpVersion::V4 => &response.nodes_v4,
        IpVersion::V6 => &response.nodes_v6,
    };
    let mut i: usize = 0;
    assert(contacts@.take(0) =~= Seq::<NodeHandle>::empty());
    while i < contacts.len()
        invariant
            i <= contacts@.len(),
            table.wf(),
            now >= MAX_LAST_SEEN_MS,
            table@ == contacts_added(t1, contacts@.take(i as int), now),
        decreases contacts@.len() - i,
    {
        proof {
            let next = contacts@.take(i as int + 1);
            assert(next.drop_last() =~= contacts@.take(i as int));
            assert(next.last() == contacts@[i as int]);
        }
        table.add_node(Node::as_questionable(contacts[i].id, contacts[i].addr, now), now);
        i += 1;
    }
    assert(contacts@.take(contacts@.len() as int) =~= contacts@);
}

/// Takes note that the node `handle` sent a query at `now`: see
/// `requester_seen`.
pub fn note_requester(table: &mut RoutingTable, read_only: bool, handle: NodeHandle, now: u64)
    requires
        old(table).wf(),
        now >= MAX_LAST_SEEN_MS,
    ensures
        final(table).wf(),
        final(table)@ == requester_seen(old(table)@, read_only, handle, now),
{
    if read_only {
        return ;
    }
    if !table.remote_request(&handle, now) {
        table.add_node(Node::as_questionable(handle.id, handle.addr, now), now);
    }
}

/// The id of the node that sent a query.
pub fn requester_id(request: &Request) -> (id: NodeId)
    ensures
        id == match request@ {
            RequestView::Ping(r) => r.id,
            RequestView::FindNode(r) => r.id,
            RequestView::GetPeers(r) => r.id,
            RequestView::AnnouncePeer(r) => r.id,
        },
{
    match request {
        Request::Ping(r) => r.id,
        Request::FindNode(r) => r.id,
        Request::GetPeers(r) => r.id,
        Request::AnnouncePeer(r) => r.id,
    }
}

/// An answer: see `answer`.
fn make_answer(
    id: NodeId,
    values: Vec<SocketAddr>,
    nodes: &Vec<NodeHandle>,
    token: Option<Vec<u8>>,
) -> (body: MessageBody)
    ensures
        body@ == answer(
            id,
            values@,
            nodes@,
            match token {
                Some(t) => Some(t@),
                None => None,
            },
        ),
{
    MessageBody::Response(
        Response {
            id,
            values,
            nodes_v4: filter_handles(nodes, IpVersion::V4),
            nodes_v6: filter_handles(nodes, IpVersion::V6),
            token,
        },
    )
}

/// The answer to a query that came from `from` at `now`.
///
/// A ping is answered with the local id. `find_node` is answered with the
/// eight nodes closest to the target. `get_peers` is answered with the
/// peers stored for the info hash, the eight nodes closest to it, and the
/// token for the address of the asker. `announce_peer` with the token of
/// the address of the asker stores the peer, under the port given or else
/// the port the query came from, and is answered with the local id; with
/// any other token it is refused with code 203, and if the store is full
/// with code 202.
pub fn handle_request(
    table: &RoutingTable,
    storage: &mut AnnounceStorage,
    tokens: &mut TokenStore,
    request: &Request,
    from: SocketAddr,
    now: u64,
) -> (body: MessageBody)
    requires
        table.wf(),
        old(storage).wf(),
    ensures
        final(storage).wf(),
        answers(
            table@,
            old(storage)@,
            old(tokens)@,
            final(storage)@,
            final(tokens)@,
            request@,
            from,
            now,
            body@,
        ),
{
    let id = table.node_id();
    let none: Vec<NodeHandle> = Vec::new();
    proof {
        assert(handles_of_version(none@, IpVersion::V4) =~= Seq::<NodeHandle>::empty());
        assert(handles_of_version(none@, IpVersion::V6) =~= Seq::<NodeHandle>::empty());
    }
    match request {
        Request::Ping(_) => make_answer(id, Vec::new(), &none, None),
        Request::FindNode(r) => {
            let nodes = table.closest_handles(r.target, NODES_PER_RESPONSE, now);
            make_answer(id, Vec::new(), &nodes, None)
        },
        Request::GetPeers(r) => {
            let token = tokens.checkout(from.ip, now);
            let values = storage.find_items(&r.info_hash, now);
            let nodes = table.closest_handles(r.info_hash, NODES_PER_RESPONSE, now);
            make_answer(id, values, &nodes, Some(token))
        },
        Request::AnnouncePeer(r) => {
            if !tokens.checkin(from.ip, r.token.as_slice(), now) {
                return MessageBody::Error(
                    Error {
                        code: PROTOCOL_ERROR,
                        message: String::from_str("Received An Invalid Token"),
                    },
                );
            }
            let port = match r.port {
                Some(port) => port,
                None => from.port,
            };
            let addr = SocketAddr { ip: from.ip, port };
            if storage.add_item(r.info_hash, addr, now) {
                make_answer(id, Vec::new(), &none, None)
            } else {
                MessageBody::Error(
                    Error {
                        code: SERVER_ERROR,
                        message: String::from_str("Announce Storage Is Full"),
                    },
                )
            }
        },
    }
}

/// Whether `body` may be the answer to `request` from `from` at `now` of a
/// node with the table `t`, whose store of announces and of tokens are
/// `s0` and `k0` before and `s1` and `k1` after: what `handle_request`
/// promises.
pub open spec fn answers(
    t: TableView,
    s0: StorageView,
    k0: TokenView,
    s1: StorageView,
    k1: TokenView,
    request: RequestView,
    from: SocketAddr,
    now: u64,
    body: MessageBodyView,
) -> bool {
    match request {
        RequestView::Ping(r) => {
            &&& body == answer(t.node_id, Seq::empty(), Seq::empty(), None)
            &&& s1 == s0
            &&& k1 == k0
        },
        RequestView::FindNode(r) => {
            &&& body == answer(
                t.node_id,
                Seq::empty(),
                first_handles(closest(t, r.target, now), NODES_PER_RESPONSE as nat),
                None,
            )
            &&& s1 == s0
            &&& k1 == k0
        },
        RequestView::GetPeers(r) => {
            &&& refreshed(k0, k1, now)
            &&& s1 == pruned(s0, now)
            &&& body == answer(
                t.node_id,
                addresses_of(s1.items, r.info_hash),
                first_handles(closest(t, r.info_hash, now), NODES_PER_RESPONSE as nat),
                Some(token_for(from.ip, k1.curr_secret)),
            )
        },
        RequestView::AnnouncePeer(r) => {
            &&& refreshed(k0, k1, now)
            &&& if !accepted(k1, from.ip, r.token) {
                &&& s1 == s0
                &&& body == refusal(PROTOCOL_ERROR, "Received An Invalid Token"@)
            } else {
                let stored = added(s0, r.info_hash, announced_addr(from, r.port), now);
                &&& s1 == stored.0
                &&& stored.1 ==> body == answer(t.node_id, Seq::empty(), Seq::empty(), None)
                &&& !stored.1 ==> body == refusal(SERVER_ERROR, "Announce Storage Is Full"@)
            }
        },
    }
}

/// An answer of the shape that `answer` makes can be put on the wire.
pub proof fn lemma_answer_encodable(
    transaction_id: Seq<u8>,
    id: NodeId,
    values: Seq<SocketAddr>,
    nodes: Seq<NodeHandle>,
    token: Option<Seq<u8>>,
)
    ensures
        encodable(MessageView { transaction_id, body: answer(id, values, nodes, token) }),
{
    lemma_handles_of_version(nodes, IpVersion::V4);
    lemma_handles_of_version(nodes, IpVersion::V6);
}

/// The nodes of a family are of that family.
pub proof fn lemma_handles_of_version(s: Seq<NodeHandle>, version: IpVersion)
    ensures
        crate::compact::all_of_version(handles_of_version(s, version), version),
    decreases s.len(),
{
    if s.len() > 0 {
        lemma_handles_of_version(s.drop_last(), version);
        let init = handles_of_version(s.drop_last(), version);
        let all = handles_of_version(s, version);
        assert forall|i: int| 0 <= i < all.len() implies (
        #[trigger] all[i]).addr.ip.version_spec() == version by {
            if i < init.len() {
                assert(all[i] == init[i]);
            }
        }
    }
}

/// What the caller has to do for the node besides what the bootstrap asks
/// for.
#[derive(Debug)]
pub enum Effect {
    /// Send the message.
    Send(Outgoing),
    /// Tell the one who started the lookup of a peer.
    Peer { lookup: u64, addr: SocketAddr },
    /// Tell the one who started the lookup that it is over.
    LookupFinished { lookup: u64 },
    /// Tell the one who waits for the bootstrap whether the table is
    /// bootstrapped.
    BootstrapAnswer { waiter: u64, bootstrapped: bool },
}

/// What the caller has to do after the node took in an event: the effects
/// to carry out, in their order, and then what the bootstrap asks for.
#[derive(Debug)]
pub struct Outcome {
    pub effects: Vec<Effect>,
    pub bootstrap: BootstrapStep,
}

/// A lookup that waits for the bootstrap to be over.
#[derive(Copy, Clone, Debug)]
pub struct QueuedLookup {
    pub id: u64,
    pub info_hash: InfoHash,
    pub announce: bool,
}

/// A lookup that is under way, with the number that its starter knows it
/// by.
#[derive(Debug)]
pub struct RunningLookup {
    id: u64,
    lookup: TableLookup,
}

/// A lookup that is under way, as a value: the number that its starter
/// knows it by, its state, the state of the generator of its transaction
/// ids, and the id of its action, followed by three zero bytes, as a
/// number.
pub struct LookupState {
    pub id: u64,
    pub lookup: LookupView,
    pub generator: GeneratorView,
    pub action_bits: u64,
}

impl View for RunningLookup {
    type V = LookupState;

    closed spec fn view(&self) -> LookupState {
        LookupState {
            id: self.id,
            lookup: self.lookup@,
            generator: self.lookup.generator(),
            action_bits: self.lookup.action_bits(),
        }
    }
}

/// The place of the first item of `s` of which `p` holds, or the length of
/// `s` if `p` holds of none.
pub open spec fn first_where<T>(s: Seq<T>, p: spec_fn(T) -> bool) -> int
    decreases s.len(),
{
    if s.len() == 0 || p(s[0]) {
        0
    } else {
        1 + first_where(s.skip(1), p)
    }
}

/// The first item of which `p` holds is at the place before which `p`
/// holds of none.
pub proof fn lemma_first_where<T>(s: Seq<T>, p: spec_fn(T) -> bool, place: int)
    requires
        0 <= place <= s.len(),
        forall|j: int| 0 <= j < place ==> !p(#[trigger] s[j]),
        place < s.len() ==> p(s[place]),
    ensures
        first_where(s, p) == place,
    decreases s.len(),
{
    if place > 0 {
        let rest = s.skip(1);
        assert forall|j: int| 0 <= j < place - 1 implies !p(#[trigger] rest[j]) by {
            assert(rest[j] == s[j + 1]);
        }
        lemma_first_where(rest, p, place - 1);
    }
}

/// Whether a number is `number`.
pub open spec fn is_number(number: u64) -> spec_fn(u64) -> bool {
    |n: u64| n == number
}

/// Whether a lookup that waits has the number `id`.
pub open spec fn waits_as(id: u64) -> spec_fn(QueuedLookup) -> bool {
    |queued: QueuedLookup| queued.id == id
}

/// Whether a lookup under way has the number `id`.
pub open spec fn runs_as(id: u64) -> spec_fn(LookupState) -> bool {
    |state: LookupState| state.id == id
}

/// Whether the queries of a lookup under way belong to the action with
/// the number `action`.
pub open spec fn has_action(action: u64) -> spec_fn(LookupState) -> bool {
    |state: LookupState| state.action_bits / MAX_MESSAGE_ID == action
}

/// The effects that ask to send the queries, in their order.
pub open spec fn send_effects(queries: Seq<Outgoing>) -> Seq<Effect> {
    Seq::new(queries.len(), |i: int| Effect::Send(queries[i]))
}

/// The effects that tell the one who started the lookup with the number
/// `lookup` of the peers, in their order.
pub open spec fn peer_effects(lookup: u64, peers: Seq<SocketAddr>) -> Seq<Effect> {
    Seq::new(peers.len(), |i: int| Effect::Peer { lookup, addr: peers[i] })
}

/// The effects that tell those who wait for the bootstrap whether the
/// table is bootstrapped, in their order.
pub open spec fn bootstrap_answers(waiters: Seq<u64>, bootstrapped: bool) -> Seq<Effect> {
    Seq::new(waiters.len(), |i: int| Effect::BootstrapAnswer { waiter: waiters[i], bootstrapped })
}

/// The parts of a node that the start of a lookup touches: the lookups
/// under way, the generator of the ids of the actions, the timer and the
/// table.
pub struct Stage {
    pub lookups: Seq<LookupState>,
    pub actions: GeneratorView,
    pub timer: TimerView<ScheduledTaskCheck>,
    pub table: TableView,
}

/// Whether a node at the stage `s0` may start the lookup `queued` at `now`
/// and end up at the stage `s1`, with `effects` to carry out, when the
/// generators of its lookups have blocks of the length `block_len` and it
/// announces with `announce_port`.
///
/// The lookup gets the id of an action of its own, starts from the table,
/// see `started`, and goes on, see `goes_on`. It is the last of the
/// lookups under way then, and the effects are to send its queries.
pub open spec fn begins(
    s0: Stage,
    queued: QueuedLookup,
    s1: Stage,
    effects: Seq<Effect>,
    block_len: nat,
    announce_port: Option<u16>,
    now: u64,
) -> bool {
    let next = s1.lookups.last();
    let generator = GeneratorView { next_alloc: 0, remaining: Seq::empty(), block_len };
    &&& s1.lookups == s0.lookups.push(next)
    &&& next.id == queued.id
    &&& next.action_bits % MAX_MESSAGE_ID == 0
    &&& issues(s0.actions, next.action_bits / MAX_MESSAGE_ID, s1.actions, MAX_ACTION_ID)
    &&& exists|queries: Seq<Outgoing>|
        {
            &&& #[trigger] goes_on(
                started(queued.info_hash, queued.announce, announce_port, s0.table, now),
                generator,
                s0.timer,
                s0.table,
                next.lookup,
                next.generator,
                s1.timer,
                s1.table,
                queries,
                s0.table.node_id,
                next.action_bits,
                now,
            )
            &&& effects == send_effects(queries)
        }
}

/// The sequences one after the other.
pub open spec fn joined(parts: Seq<Seq<Effect>>) -> Seq<Effect>
    decreases parts.len(),
{
    if parts.len() == 0 {
        Seq::empty()
    } else {
        joined(parts.drop_last()) + parts.last()
    }
}

/// Whether a node may start the lookups `queued` at `now`, one after the
/// other, see `begins`, going through the stages `stages`, from the first
/// to the last, with the effects `parts`, one sequence for each lookup.
pub open spec fn begins_each(
    stages: Seq<Stage>,
    queued: Seq<QueuedLookup>,
    parts: Seq<Seq<Effect>>,
    block_len: nat,
    announce_port: Option<u16>,
    now: u64,
) -> bool {
    &&& stages.len() == queued.len() + 1
    &&& parts.len() == queued.len()
    &&& forall|k: int|
        0 <= k < queued.len() ==> begins(
            stages[k],
            queued[k],
            stages[k + 1],
            #[trigger] parts[k],
            block_len,
            announce_port,
            now,
        )
}

/// Whether a node at the stage `s0` may start the lookups `queued` at
/// `now`, one after the other, see `begins_each`, and end up at the stage
/// `s1`, with `effects` to carry out: those of the first lookup first.
pub open spec fn begins_all(
    s0: Stage,
    queued: Seq<QueuedLookup>,
    s1: Stage,
    effects: Seq<Effect>,
    block_len: nat,
    announce_port: Option<u16>,
    now: u64,
) -> bool {
    exists|stages: Seq<Stage>, parts: Seq<Seq<Effect>>|
        {
            &&& #[trigger] begins_each(stages, queued, parts, block_len, announce_port, now)
            &&& stages[0] == s0
            &&& stages.last() == s1
            &&& effects == joined(parts)
        }
}

/// The state of a node: its routing table, what was announced to it, its
/// tokens, its timer, and the bootstrap, the refresh and the lookups that
/// are under way. It takes in datagrams, commands and the time, and says
/// what to send.
#[derive(Debug)]
pub struct DhtHandler {
    table: RoutingTable,
    storage: AnnounceStorage,
    tokens: TokenStore,
    aid_generator: AIDGenerator,
    bootstrap: TableBootstrap,
    refresh: TableRefresh,
    lookups: Vec<RunningLookup>,
    queued: Vec<QueuedLookup>,
    timer: Timer<ScheduledTaskCheck>,
    waiters: Vec<u64>,
    next_handle: u64,
    read_only: bool,
    announce_port: Option<u16>,
    ip_version: IpVersion,
    refreshing: bool,
}

impl DhtHandler {
    /// The routing table.
    pub closed spec fn table_view(&self) -> TableView {
        self.table@
    }

    /// The store of announces.
    pub closed spec fn storage_view(&self) -> StorageView {
        self.storage@
    }

    /// The store of tokens.
    pub closed spec fn tokens_view(&self) -> TokenView {
        self.tokens@
    }

    /// The timer.
    pub closed spec fn timer_view(&self) -> TimerView<ScheduledTaskCheck> {
        self.timer@
    }

    /// The bootstrap.
    pub closed spec fn bootstrap_view(&self) -> BootstrapView {
        self.bootstrap@
    }

    /// The generator of the transaction ids of the bootstrap.
    pub closed spec fn bootstrap_generator(&self) -> GeneratorView {
        self.bootstrap.generator()
    }

    /// The id of the action of the bootstrap, followed by three zero
    /// bytes, as a number.
    pub closed spec fn bootstrap_action(&self) -> u64 {
        self.bootstrap.action_bits()
    }

    /// Whether the table is bootstrapped: the state of the bootstrap says
    /// so.
    pub open spec fn bootstrapped(&self) -> bool {
        self.bootstrap_view().state == crate::worker::bootstrap::State::Bootstrapped
    }

    /// The numbers of those who wait for the bootstrap.
    pub closed spec fn waiters_view(&self) -> Seq<u64> {
        self.waiters@
    }

    /// The lookups that wait for the bootstrap.
    pub closed spec fn queued_view(&self) -> Seq<QueuedLookup> {
        self.queued@
    }

    /// The lookups under way.
    pub closed spec fn lookups_view(&self) -> Seq<LookupState> {
        Seq::new(self.lookups@.len(), |i: int| self.lookups@[i]@)
    }

    /// The bucket at which the last round of the refresh left off.
    pub closed spec fn refresh_round(&self) -> usize {
        self.refresh.current()
    }

    /// The generator of the transaction ids of the refresh.
    pub closed spec fn refresh_generator(&self) -> GeneratorView {
        self.refresh.generator()
    }

    /// The id of the action of the refresh, followed by three zero bytes,
    /// as a number.
    pub closed spec fn refresh_action(&self) -> u64 {
        self.refresh.action_bits()
    }

    /// Whether the refresh has begun.
    pub closed spec fn refresh_begun(&self) -> bool {
        self.refreshing
    }

    /// The generator of the ids of the actions.
    pub closed spec fn actions_view(&self) -> GeneratorView {
        self.aid_generator@
    }

    /// Length of the blocks of message ids of the generators that the
    /// lookups get.
    pub closed spec fn message_block_len(&self) -> nat {
        self.aid_generator.message_block_len()
    }

    /// The port that lookups announce with, if one is set.
    pub closed spec fn announce_port_view(&self) -> Option<u16> {
        self.announce_port
    }

    /// The parts that the start of a lookup touches.
    pub open spec fn stage(&self) -> Stage {
        Stage {
            lookups: self.lookups_view(),
            actions: self.actions_view(),
            timer: self.timer_view(),
            table: self.table_view(),
        }
    }

    /// The number that the next lookup or waiter gets.
    pub closed spec fn next_handle_view(&self) -> u64 {
        self.next_handle
    }

    /// Whether queries teach the node nothing.
    pub closed spec fn is_read_only(&self) -> bool {
        self.read_only
    }

    /// The address family of the node.
    pub closed spec fn version(&self) -> IpVersion {
        self.ip_version
    }

    /// The invariant of the node: those of its parts.
    pub closed spec fn wf(&self) -> bool {
        &&& self.table.wf()
        &&& self.storage.wf()
        &&& self.aid_generator.wf()
        &&& self.bootstrap.wf()
        &&& self.refresh.wf()
        &&& self.timer.wf()
        &&& forall|i: int| 0 <= i < self.lookups@.len() ==> (#[trigger] self.lookups@[i]).lookup.wf()
    }

    /// What the invariant says of the parts that are seen from outside.
    pub proof fn lemma_wf(&self)
        requires
            self.wf(),
        ensures
            crate::routing::table::well_placed(self.table_view()),
            crate::storage::storage_wf(self.storage_view()),
            crate::worker::timer::sorted(self.timer_view().queue),
    {
    }

    /// A node around the given table, of the address family `ip_version`,
    /// with the routers and seed nodes to bootstrap from. Nothing is under
    /// way.
    pub fn new(
        table: RoutingTable,
        read_only: bool,
        routers: Vec<String>,
        nodes: Vec<SocketAddr>,
        announce_port: Option<u16>,
        ip_version: IpVersion,
        now: u64,
    ) -> (handler: DhtHandler)
        requires
            table.wf(),
        ensures
            handler.wf(),
            handler.table_view() == table@,
            handler.storage_view() == (StorageView { items: Seq::empty(), expires: Seq::empty() }),
            handler.tokens_view().last_refresh == now,
            handler.timer_view().queue.len() == 0,
            handler.bootstrap_view() == (BootstrapView {
                ip_version,
                table_id: table@.node_id,
                routers: routers@,
                router_addresses: Seq::empty(),
                starting_nodes: nodes@,
                active: Seq::empty(),
                pending: Seq::empty(),
                current_bucket: 0,
                initial_responses: Seq::empty(),
                initial_responses_expected: 8,
                state: crate::worker::bootstrap::State::IdleBeforeReBootstrap,
                attempt: 0,
            }),
            !handler.bootstrapped(),
            !handler.refresh_begun(),
            handler.refresh_round() == 0,
            handler.waiters_view() == Seq::<u64>::empty(),
            handler.queued_view() == Seq::<QueuedLookup>::empty(),
            handler.lookups_view() == Seq::<LookupState>::empty(),
            handler.next_handle_view() == 0,
            handler.is_read_only() == read_only,
            handler.announce_port_view() == announce_port,
            handler.version() == ip_version,
    {
        let mut aid_generator = AIDGenerator::default();
        let bootstrap_ids = aid_generator.generate();
        let refresh_ids = aid_generator.generate();
        let bootstrap = TableBootstrap::new(
            ip_version,
            table.node_id(),
            bootstrap_ids,
            routers,
            nodes,
        );
        DhtHandler {
            table,
            storage: AnnounceStorage::new(),
            tokens: TokenStore::new(now),
            aid_generator,
            bootstrap,
            refresh: TableRefresh::new(refresh_ids),
            lookups: Vec::new(),
            queued: Vec::new(),
            timer: Timer::new(),
            waiters: Vec::new(),
            next_handle: 0,
            read_only,
            announce_port,
            ip_version,
            refreshing: false,
        }
    }

    /// The names of the routers, to be resolved when the bootstrap asks
    /// for it.
    pub fn routers(&self) -> (routers: &Vec<String>)
        ensures
            routers@ == self.bootstrap_view().routers,
    {
        self.bootstrap.routers()
    }

    /// The time at which the timer is due next, if anything is scheduled.
    pub fn next_deadline(&self) -> (deadline: Option<u64>)
        ensures
            deadline == if self.timer_view().queue.len() > 0 {
                Some(self.timer_view().queue[0].0.0)
            } else {
                None
            },
    {
        self.timer.next_deadline()
    }

    /// Whether the table is bootstrapped.
    pub fn is_bootstrapped(&self) -> (r: bool)
        ensures
            r == self.bootstrapped(),
    {
        self.bootstrap.is_bootstrapped()
    }

    /// What is known of the node at `now`.
    pub fn state(&self, now: u64) -> (state: State)
        requires
            self.wf(),
        ensures
            state.is_running,
            state.bootstrapped == self.bootstrapped(),
            state.good_node_count == crate::routing::table::count_with_status(
                self.table_view().buckets,
                crate::routing::node::NodeStatus::Good,
                now,
            ),
            state.questionable_node_count == crate::routing::table::count_with_status(
                self.table_view().buckets,
                crate::routing::node::NodeStatus::Questionable,
                now,
            ),
            state.bucket_count == self.table_view().buckets.len(),
    {
        State {
            is_running: true,
            bootstrapped: self.bootstrap.is_bootstrapped(),
            good_node_count: self.table.num_good_nodes(now),
            questionable_node_count: self.table.num_questionable_node(now),
            bucket_count: self.table.num_buckets(),
        }
    }

    /// The addresses of all entries of the routing table, placeholders
    /// included.
    pub fn get_nodes(&self) -> (addresses: Vec<SocketAddr>)
        ensures
            addresses@ == crate::routing::table::all_addresses(self.table_view().buckets),
    {
        self.table.get_nodes()
    }

    /// Hands out the next number for a lookup or a waiter.
    fn take_handle(&mut self) -> (id: u64)
        ensures
            id == old(self).next_handle,
            final(self).next_handle == crate::worker::timer::following(old(self).next_handle),
            final(self).table == old(self).table,
            final(self).storage == old(self).storage,
            final(self).tokens == old(self).tokens,
            final(self).aid_generator == old(self).aid_generator,
            final(self).bootstrap == old(self).bootstrap,
            final(self).refresh == old(self).refresh,
            final(self).lookups == old(self).lookups,
            final(self).queued == old(self).queued,
            final(self).timer == old(self).timer,
            final(self).waiters == old(self).waiters,
            final(self).read_only == old(self).read_only,
            final(self).announce_port == old(self).announce_port,
            final(self).ip_version == old(self).ip_version,
            final(self).refreshing == old(self).refreshing,
    {
        let id = self.next_handle;
        self.next_handle = if id == u64::MAX {
            0
        } else {
            id + 1
        };
        id
    }

    /// Wraps queries as effects, behind those that are there.
    fn push_sends(effects: &mut Vec<Effect>, queries: Vec<Outgoing>)
        ensures
            final(effects)@ == old(effects)@ + send_effects(queries@),
    {
        let mut queries = queries;
        let ghost all = queries@;
        let ghost before = effects@;
        let mut taken: usize = 0;
        let count = queries.len();
        while taken < count
            invariant
                taken <= count,
                count == all.len(),
                queries@ == all.skip(taken as int),
                effects@ == before + send_effects(all.take(taken as int)),
            decreases count - taken,
        {
            let query = queries.remove(0);
            assert(query == all[taken as int]);
            assert(queries@ =~= all.skip(taken as int + 1));
            effects.push(Effect::Send(query));
            taken += 1;
            assert(effects@ =~= before + send_effects(all.take(taken as int)));
        }
        assert(all.take(count as int) =~= all);
    }
}

impl DhtHandler {
    /// Whether the node in this state may start the lookup `queued` at
    /// `now`, see `begins`, and end up in the state `after`, with
    /// `effects` to carry out.
    pub open spec fn lookup_begun(
        &self,
        after: &DhtHandler,
        queued: QueuedLookup,
        now: u64,
        effects: Seq<Effect>,
    ) -> bool {
        &&& begins(
            self.stage(),
            queued,
            after.stage(),
            effects,
            self.message_block_len(),
            self.announce_port_view(),
            now,
        )
        &&& after.message_block_len() == self.message_block_len()
    }

    /// Starts a lookup that has its number: see `lookup_begun`.
    fn run_lookup(&mut self, queued: QueuedLookup, now: u64) -> (effects: Vec<Effect>)
        requires
            old(self).wf(),
        ensures
            final(self).wf(),
            final(self).storage == old(self).storage,
            final(self).tokens == old(self).tokens,
            final(self).bootstrap == old(self).bootstrap,
            final(self).refresh == old(self).refresh,
            final(self).waiters == old(self).waiters,
            final(self).queued == old(self).queued,
            final(self).next_handle == old(self).next_handle,
            final(self).read_only == old(self).read_only,
            final(self).announce_port == old(self).announce_port,
            final(self).ip_version == old(self).ip_version,
            final(self).refreshing == old(self).refreshing,
            old(self).lookup_begun(final(self), queued, now, effects@),
    {
        let generator = self.aid_generator.generate();
        let mut lookup = TableLookup::new(
            queued.info_hash,
            queued.announce,
            self.announce_port,
            generator,
            &self.table,
            now,
        );
        let node_id = self.table.node_id();
        let queries = lookup.advance(node_id, &mut self.table, &mut self.timer, now);
        let ghost sent = queries@;
        let running = RunningLookup { id: queued.id, lookup };
        let ghost next = running@;
        self.lookups.push(running);
        let mut effects: Vec<Effect> = Vec::new();
        Self::push_sends(&mut effects, queries);
        proof {
            assert(effects@ =~= send_effects(sent));
            assert(self.lookups_view() =~= old(self).lookups_view().push(next));
            assert(goes_on(
                started(
                    queued.info_hash,
                    queued.announce,
                    old(self).announce_port_view(),
                    old(self).stage().table,
                    now,
                ),
                GeneratorView {
                    next_alloc: 0,
                    remaining: Seq::empty(),
                    block_len: old(self).message_block_len(),
                },
                old(self).stage().timer,
                old(self).stage().table,
                next.lookup,
                next.generator,
                self.stage().timer,
                self.stage().table,
                sent,
                old(self).stage().table.node_id,
                next.action_bits,
                now,
            ));
        }
        effects
    }

    /// Whether the refresh of the node in this state may begin at `now` as
    /// follows, if it has not begun before, when the table is `table` and
    /// the timer `timer`: its first round is made, see `refreshes`, which
    /// leaves the table and the timer as in `stage` and the refresh as in
    /// `after`, and `effects` are to send the queries of the round. If the
    /// refresh has begun before, nothing happens.
    pub open spec fn refresh_started(
        &self,
        after: &DhtHandler,
        table: TableView,
        timer: TimerView<ScheduledTaskCheck>,
        stage: Stage,
        now: u64,
        effects: Seq<Effect>,
    ) -> bool {
        &&& stage.lookups == self.lookups_view()
        &&& stage.actions == self.actions_view()
        &&& if self.refresh_begun() {
            &&& stage.table == table
            &&& stage.timer == timer
            &&& effects == Seq::<Effect>::empty()
            &&& after.refresh_round() == self.refresh_round()
            &&& after.refresh_generator() == self.refresh_generator()
        } else {
            exists|queries: Seq<Outgoing>|
                {
                    &&& #[trigger] refreshes(
                        self.refresh_round(),
                        self.refresh_generator(),
                        timer,
                        table,
                        after.refresh_round(),
                        after.refresh_generator(),
                        stage.timer,
                        stage.table,
                        queries,
                        self.refresh_action(),
                        now,
                    )
                    &&& effects == send_effects(queries)
                }
        }
    }

    /// Whether the node in this state may carry on at `now` as follows
    /// when its bootstrap has taken a step that left the table `table` and
    /// the timer `timer`, and asks for `outcome.bootstrap`: the node ends
    /// up in the state `after` with the effects of `outcome`.
    ///
    /// If the table has become bootstrapped, those who wait for that are
    /// told so, in their order; then the refresh of the table begins, see
    /// `refresh_started`; then the lookups that waited are started, in
    /// their order, see `begins_all`. Otherwise nothing more happens.
    pub open spec fn carries_on(
        &self,
        table: TableView,
        timer: TimerView<ScheduledTaskCheck>,
        after: &DhtHandler,
        outcome: Outcome,
        now: u64,
    ) -> bool {
        let became = match outcome.bootstrap {
            BootstrapStep::Done(changed) => changed && after.bootstrapped(),
            _ => false,
        };
        &&& after.message_block_len() == self.message_block_len()
        &&& if became {
            &&& after.waiters_view() == Seq::<u64>::empty()
            &&& after.queued_view() == Seq::<QueuedLookup>::empty()
            &&& after.refresh_begun()
            &&& exists|stage: Stage, round: Seq<Effect>, begun: Seq<Effect>|
                {
                    &&& #[trigger] self.refresh_started(after, table, timer, stage, now, round)
                    &&& #[trigger] begins_all(
                        stage,
                        self.queued_view(),
                        after.stage(),
                        begun,
                        self.message_block_len(),
                        self.announce_port_view(),
                        now,
                    )
                    &&& outcome.effects@ == bootstrap_answers(self.waiters_view(), true) + round
                        + begun
                }
        } else {
            &&& outcome.effects@.len() == 0
            &&& after.table_view() == table
            &&& after.timer_view() == timer
            &&& after.waiters_view() == self.waiters_view()
            &&& after.queued_view() == self.queued_view()
            &&& after.lookups_view() == self.lookups_view()
            &&& after.actions_view() == self.actions_view()
            &&& after.refresh_begun() == self.refresh_begun()
            &&& after.refresh_round() == self.refresh_round()
            &&& after.refresh_generator() == self.refresh_generator()
        }
    }

    /// Whether the parts of this node that carrying on reads are as in
    /// `other`.
    pub open spec fn same_parts(&self, other: &DhtHandler) -> bool {
        &&& self.waiters_view() == other.waiters_view()
        &&& self.queued_view() == other.queued_view()
        &&& self.lookups_view() == other.lookups_view()
        &&& self.actions_view() == other.actions_view()
        &&& self.refresh_round() == other.refresh_round()
        &&& self.refresh_generator() == other.refresh_generator()
        &&& self.refresh_action() == other.refresh_action()
        &&& self.refresh_begun() == other.refresh_begun()
        &&& self.message_block_len() == other.message_block_len()
        &&& self.announce_port_view() == other.announce_port_view()
    }

    /// How the refresh begins depends on the lookups, the generator of
    /// action ids and the refresh alone, and what it leaves on the refresh
    /// alone.
    pub proof fn lemma_refresh_started(
        &self,
        other: &DhtHandler,
        after: &DhtHandler,
        later: &DhtHandler,
        table: TableView,
        timer: TimerView<ScheduledTaskCheck>,
        stage: Stage,
        now: u64,
        effects: Seq<Effect>,
    )
        requires
            self.refresh_started(after, table, timer, stage, now, effects),
            self.lookups_view() == other.lookups_view(),
            self.actions_view() == other.actions_view(),
            self.refresh_round() == other.refresh_round(),
            self.refresh_generator() == other.refresh_generator(),
            self.refresh_action() == other.refresh_action(),
            self.refresh_begun() == other.refresh_begun(),
            after.refresh_round() == later.refresh_round(),
            after.refresh_generator() == later.refresh_generator(),
        ensures
            other.refresh_started(later, table, timer, stage, now, effects),
    {
        if !self.refresh_begun() {
            let queries = choose|queries: Seq<Outgoing>|
                {
                    &&& #[trigger] refreshes(
                        self.refresh_round(),
                        self.refresh_generator(),
                        timer,
                        table,
                        after.refresh_round(),
                        after.refresh_generator(),
                        stage.timer,
                        stage.table,
                        queries,
                        self.refresh_action(),
                        now,
                    )
                    &&& effects == send_effects(queries)
                };
            assert(refreshes(
                other.refresh_round(),
                other.refresh_generator(),
                timer,
                table,
                later.refresh_round(),
                later.refresh_generator(),
                stage.timer,
                stage.table,
                queries,
                other.refresh_action(),
                now,
            ));
        }
    }

    /// How the node carries on depends on the parts of `same_parts`
    /// alone.
    pub proof fn lemma_carries_on(
        &self,
        other: &DhtHandler,
        table: TableView,
        timer: TimerView<ScheduledTaskCheck>,
        after: &DhtHandler,
        outcome: Outcome,
        now: u64,
    )
        requires
            self.carries_on(table, timer, after, outcome, now),
            self.same_parts(other),
        ensures
            other.carries_on(table, timer, after, outcome, now),
    {
        let became = match outcome.bootstrap {
            BootstrapStep::Done(changed) => changed && after.bootstrapped(),
            _ => false,
        };
        if became {
            let (stage, round, begun) = choose|
                stage: Stage,
                round: Seq<Effect>,
                begun: Seq<Effect>,
            |
                {
                    &&& #[trigger] self.refresh_started(after, table, timer, stage, now, round)
                    &&& #[trigger] begins_all(
                        stage,
                        self.queued_view(),
                        after.stage(),
                        begun,
                        self.message_block_len(),
                        self.announce_port_view(),
                        now,
                    )
                    &&& outcome.effects@ == bootstrap_answers(self.waiters_view(), true) + round
                        + begun
                };
            self.lemma_refresh_started(other, after, after, table, timer, stage, now, round);
            assert(begins_all(
                stage,
                other.queued_view(),
                after.stage(),
                begun,
                other.message_block_len(),
                other.announce_port_view(),
                now,
            ));
        }
    }

    /// Tells those who wait for the bootstrap that the table is
    /// bootstrapped. They wait no more.
    fn answer_waiters(&mut self) -> (effects: Vec<Effect>)
        ensures
            effects@ == bootstrap_answers(old(self).waiters@, true),
            final(self).waiters@ == Seq::<u64>::empty(),
            final(self).table == old(self).table,
            final(self).storage == old(self).storage,
            final(self).tokens == old(self).tokens,
            final(self).aid_generator == old(self).aid_generator,
            final(self).bootstrap == old(self).bootstrap,
            final(self).refresh == old(self).refresh,
            final(self).lookups == old(self).lookups,
            final(self).queued == old(self).queued,
            final(self).timer == old(self).timer,
            final(self).next_handle == old(self).next_handle,
            final(self).read_only == old(self).read_only,
            final(self).announce_port == old(self).announce_port,
            final(self).ip_version == old(self).ip_version,
            final(self).refreshing == old(self).refreshing,
    {
        let mut effects: Vec<Effect> = Vec::new();
        let mut i: usize = 0;
        while i < self.waiters.len()
            invariant
                i <= self.waiters@.len(),
                *self == *old(self),
                effects@ == bootstrap_answers(self.waiters@.take(i as int), true),
            decreases self.waiters@.len() - i,
        {
            effects.push(Effect::BootstrapAnswer { waiter: self.waiters[i], bootstrapped: true });
            i += 1;
            assert(effects@ =~= bootstrap_answers(self.waiters@.take(i as int), true));
        }
        assert(self.waiters@.take(self.waiters@.len() as int) =~= self.waiters@);
        self.waiters = Vec::new();
        effects
    }

    /// Begins the refresh if it has not begun: see `refresh_started`.
    fn begin_refresh(&mut self, now: u64) -> (effects: Vec<Effect>)
        requires
            old(self).wf(),
        ensures
            final(self).wf(),
            final(self).refreshing,
            final(self).refresh.action_bits() == old(self).refresh.action_bits(),
            final(self).storage == old(self).storage,
            final(self).tokens == old(self).tokens,
            final(self).aid_generator == old(self).aid_generator,
            final(self).bootstrap == old(self).bootstrap,
            final(self).lookups == old(self).lookups,
            final(self).queued == old(self).queued,
            final(self).waiters == old(self).waiters,
            final(self).next_handle == old(self).next_handle,
            final(self).read_only == old(self).read_only,
            final(self).announce_port == old(self).announce_port,
            final(self).ip_version == old(self).ip_version,
            old(self).refresh_started(
                final(self),
                old(self).table_view(),
                old(self).timer_view(),
                final(self).stage(),
                now,
                effects@,
            ),
    {
        let mut effects: Vec<Effect> = Vec::new();
        if !self.refreshing {
            self.refreshing = true;
            let queries = self.refresh.continue_refresh(&mut self.table, &mut self.timer, now);
            let ghost sent = queries@;
            Self::push_sends(&mut effects, queries);
            proof {
                assert(effects@ =~= send_effects(sent));
                assert(refreshes(
                    old(self).refresh_round(),
                    old(self).refresh_generator(),
                    old(self).timer_view(),
                    old(self).table_view(),
                    self.refresh_round(),
                    self.refresh_generator(),
                    self.stage().timer,
                    self.stage().table,
                    sent,
                    old(self).refresh_action(),
                    now,
                ));
            }
        }
        effects
    }

    /// Starts the lookups that wait, in their order: see `begins_all`.
    /// None waits any more.
    fn run_queued(&mut self, now: u64) -> (effects: Vec<Effect>)
        requires
            old(self).wf(),
        ensures
            final(self).wf(),
            final(self).queued@ == Seq::<QueuedLookup>::empty(),
            final(self).aid_generator.message_block_len() == old(
                self,
            ).aid_generator.message_block_len(),
            final(self).storage == old(self).storage,
            final(self).tokens == old(self).tokens,
            final(self).bootstrap == old(self).bootstrap,
            final(self).refresh == old(self).refresh,
            final(self).waiters == old(self).waiters,
            final(self).next_handle == old(self).next_handle,
            final(self).read_only == old(self).read_only,
            final(self).announce_port == old(self).announce_port,
            final(self).ip_version == old(self).ip_version,
            final(self).refreshing == old(self).refreshing,
            begins_all(
                old(self).stage(),
                old(self).queued@,
                final(self).stage(),
                effects@,
                old(self).message_block_len(),
                old(self).announce_port_view(),
                now,
            ),
    {
        let mut effects: Vec<Effect> = Vec::new();
        let mut k: usize = 0;
        let ghost mut stages: Seq<Stage> = seq![self.stage()];
        let ghost mut parts: Seq<Seq<Effect>> = Seq::empty();
        while k < self.queued.len()
            invariant
                k <= self.queued@.len(),
                self.wf(),
                self.queued == old(self).queued,
                self.aid_generator.message_block_len() == old(
                    self,
                ).aid_generator.message_block_len(),
                self.storage == old(self).storage,
                self.tokens == old(self).tokens,
                self.bootstrap == old(self).bootstrap,
                self.refresh == old(self).refresh,
                self.waiters == old(self).waiters,
                self.next_handle == old(self).next_handle,
                self.read_only == old(self).read_only,
                self.announce_port == old(self).announce_port,
                self.ip_version == old(self).ip_version,
                self.refreshing == old(self).refreshing,
                begins_each(
                    stages,
                    self.queued@.take(k as int),
                    parts,
                    old(self).message_block_len(),
                    old(self).announce_port_view(),
                    now,
                ),
                stages[0] == old(self).stage(),
                stages.last() == self.stage(),
                effects@ == joined(parts),
            decreases self.queued@.len() - k,
        {
            let queued = self.queued[k];
            let ghost before = stages;
            let ghost sent = parts;
            let mut more = self.run_lookup(queued, now);
            proof {
                stages = stages.push(self.stage());
                parts = parts.push(more@);
                assert(parts.drop_last() =~= sent);
                let taken = self.queued@.take(k as int + 1);
                assert forall|j: int| 0 <= j < taken.len() implies begins(
                    stages[j],
                    taken[j],
                    stages[j + 1],
                    #[trigger] parts[j],
                    old(self).message_block_len(),
                    old(self).announce_port_view(),
                    now,
                ) by {
                    if j < k {
                        assert(taken[j] == self.queued@.take(k as int)[j]);
                        assert(stages[j] == before[j]);
                        assert(stages[j + 1] == before[j + 1]);
                        assert(parts[j] == sent[j]);
                    }
                }
            }
            effects.append(&mut more);
            k += 1;
        }
        assert(self.queued@.take(self.queued@.len() as int) =~= self.queued@);
        self.queued = Vec::new();
        effects
    }

    /// Carries on after the bootstrap has taken a step: see `carries_on`.
    fn settle(&mut self, step: BootstrapStep, now: u64) -> (outcome: Outcome)
        requires
            old(self).wf(),
        ensures
            final(self).wf(),
            final(self).storage == old(self).storage,
            final(self).tokens == old(self).tokens,
            final(self).bootstrap == old(self).bootstrap,
            final(self).read_only == old(self).read_only,
            final(self).ip_version == old(self).ip_version,
            final(self).next_handle == old(self).next_handle,
            final(self).announce_port == old(self).announce_port,
            final(self).refresh.action_bits() == old(self).refresh.action_bits(),
            outcome.bootstrap == step,
            old(self).carries_on(old(self).table@, old(self).timer@, final(self), outcome, now),
    {
        let became = match &step {
            BootstrapStep::Done(changed) => *changed && self.bootstrap.is_bootstrapped(),
            _ => false,
        };
        let mut effects: Vec<Effect> = Vec::new();
        if became {
            effects = self.answer_waiters();
            let ghost answered = *self;
            let mut round = self.begin_refresh(now);
            let ghost stage = self.stage();
            let ghost sent = round@;
            let ghost refreshed = *self;
            effects.append(&mut round);
            let mut begun = self.run_queued(now);
            let ghost started = begun@;
            effects.append(&mut begun);
            proof {
                answered.lemma_refresh_started(
                    old(self),
                    &refreshed,
                    self,
                    old(self).table@,
                    old(self).timer@,
                    stage,
                    now,
                    sent,
                );
                assert(begins_all(
                    stage,
                    old(self).queued_view(),
                    self.stage(),
                    started,
                    old(self).message_block_len(),
                    old(self).announce_port_view(),
                    now,
                ));
                assert(effects@ == bootstrap_answers(old(self).waiters_view(), true) + sent
                    + started);
            }
        }
        Outcome { effects, bootstrap: step }
    }

    /// Starts the bootstrap, see `starts`, and carries on, see
    /// `carries_on`.
    pub fn start_bootstrap(&mut self, now: u64) -> (outcome: Outcome)
        requires
            old(self).wf(),
        ensures
            final(self).wf(),
            final(self).storage_view() == old(self).storage_view(),
            final(self).tokens_view() == old(self).tokens_view(),
            final(self).is_read_only() == old(self).is_read_only(),
            final(self).version() == old(self).version(),
            final(self).next_handle_view() == old(self).next_handle_view(),
            final(self).bootstrap_action() == old(self).bootstrap_action(),
            final(self).bootstrap_generator() == old(self).bootstrap_generator(),
            starts(old(self).bootstrap_view(), final(self).bootstrap_view(), outcome.bootstrap),
            old(self).carries_on(
                old(self).table_view(),
                old(self).timer_view(),
                final(self),
                outcome,
                now,
            ),
    {
        let step = self.bootstrap.start();
        let ghost mid = *self;
        let outcome = self.settle(step, now);
        proof {
            mid.lemma_carries_on(
                old(self),
                old(self).table_view(),
                old(self).timer_view(),
                self,
                outcome,
                now,
            );
        }
        outcome
    }

    /// Goes on with the bootstrap when the routers are resolved, see
    /// `resolves`, and carries on, see `carries_on`.
    pub fn routers_resolved(&mut self, resolved: &Vec<SocketAddr>, now: u64) -> (outcome: Outcome)
        requires
            old(self).wf(),
        ensures
            final(self).wf(),
            final(self).storage_view() == old(self).storage_view(),
            final(self).tokens_view() == old(self).tokens_view(),
            final(self).is_read_only() == old(self).is_read_only(),
            final(self).version() == old(self).version(),
            final(self).next_handle_view() == old(self).next_handle_view(),
            final(self).bootstrap_action() == old(self).bootstrap_action(),
            exists|timer: TimerView<ScheduledTaskCheck>|
                {
                    &&& #[trigger] resolves(
                        old(self).bootstrap_view(),
                        old(self).bootstrap_generator(),
                        old(self).timer_view(),
                        resolved@,
                        final(self).bootstrap_view(),
                        final(self).bootstrap_generator(),
                        timer,
                        outcome.bootstrap,
                        old(self).bootstrap_action(),
                        now,
                    )
                    &&& old(self).carries_on(
                        old(self).table_view(),
                        timer,
                        final(self),
                        outcome,
                        now,
                    )
                },
    {
        let step = self.bootstrap.start_with_routers(resolved, &mut self.timer, now);
        let ghost timer = self.timer@;
        let ghost mid = *self;
        let outcome = self.settle(step, now);
        proof {
            assert(resolves(
                old(self).bootstrap_view(),
                old(self).bootstrap_generator(),
                old(self).timer_view(),
                resolved@,
                self.bootstrap_view(),
                self.bootstrap_generator(),
                timer,
                outcome.bootstrap,
                old(self).bootstrap_action(),
                now,
            ));
            mid.lemma_carries_on(old(self), old(self).table_view(), timer, self, outcome, now);
        }
        outcome
    }

    /// Goes on with the bootstrap when the messages of the first round are
    /// sent, see `round_sent`, and carries on, see `carries_on`.
    pub fn initial_round_sent(&mut self, sent: usize, now: u64) -> (outcome: Outcome)
        requires
            old(self).wf(),
        ensures
            final(self).wf(),
            final(self).storage_view() == old(self).storage_view(),
            final(self).tokens_view() == old(self).tokens_view(),
            final(self).is_read_only() == old(self).is_read_only(),
            final(self).version() == old(self).version(),
            final(self).next_handle_view() == old(self).next_handle_view(),
            final(self).bootstrap_action() == old(self).bootstrap_action(),
            final(self).bootstrap_generator() == old(self).bootstrap_generator(),
            exists|timer: TimerView<ScheduledTaskCheck>, changed: bool|
                {
                    &&& #[trigger] round_sent(
                        old(self).bootstrap_view(),
                        old(self).timer_view(),
                        sent,
                        final(self).bootstrap_view(),
                        timer,
                        changed,
                        now,
                    )
                    &&& outcome.bootstrap == BootstrapStep::Done(changed)
                    &&& old(self).carries_on(
                        old(self).table_view(),
                        timer,
                        final(self),
                        outcome,
                        now,
                    )
                },
    {
        let changed = self.bootstrap.initial_round_sent(sent, &mut self.timer, now);
        let ghost timer = self.timer@;
        let ghost mid = *self;
        let outcome = self.settle(BootstrapStep::Done(changed), now);
        proof {
            assert(round_sent(
                old(self).bootstrap_view(),
                old(self).timer_view(),
                sent,
                self.bootstrap_view(),
                timer,
                changed,
                now,
            ));
            mid.lemma_carries_on(old(self), old(self).table_view(), timer, self, outcome, now);
        }
        outcome
    }

    /// Goes on with the bootstrap when the queries of a round are sent,
    /// see `probed`, and carries on, see `carries_on`.
    pub fn probes_sent(&mut self, results: &Vec<bool>, now: u64) -> (outcome: Outcome)
        requires
            old(self).wf(),
        ensures
            final(self).wf(),
            final(self).storage_view() == old(self).storage_view(),
            final(self).tokens_view() == old(self).tokens_view(),
            final(self).is_read_only() == old(self).is_read_only(),
            final(self).version() == old(self).version(),
            final(self).next_handle_view() == old(self).next_handle_view(),
            final(self).bootstrap_action() == old(self).bootstrap_action(),
            exists|table: TableView, timer: TimerView<ScheduledTaskCheck>|
                {
                    &&& #[trigger] probed(
                        old(self).bootstrap_view(),
                        old(self).bootstrap_generator(),
                        old(self).timer_view(),
                        old(self).table_view(),
                        results@,
                        final(self).bootstrap_view(),
                        final(self).bootstrap_generator(),
                        timer,
                        table,
                        outcome.bootstrap,
                        old(self).bootstrap_action(),
                        now,
                    )
                    &&& old(self).carries_on(table, timer, final(self), outcome, now)
                },
    {
        let step = self.bootstrap.probes_sent(results, &mut self.table, &mut self.timer, now);
        let ghost table = self.table@;
        let ghost timer = self.timer@;
        let ghost mid = *self;
        let outcome = self.settle(step, now);
        proof {
            assert(probed(
                old(self).bootstrap_view(),
                old(self).bootstrap_generator(),
                old(self).timer_view(),
                old(self).table_view(),
                results@,
                self.bootstrap_view(),
                self.bootstrap_generator(),
                timer,
                table,
                outcome.bootstrap,
                old(self).bootstrap_action(),
                now,
            ));
            mid.lemma_carries_on(old(self), table, timer, self, outcome, now);
        }
        outcome
    }

    /// Takes in that someone wants to know when the table is bootstrapped,
    /// and gives that someone a number. If the table is bootstrapped the
    /// answer comes at once. If not it comes when the table is, or, if
    /// `timeout` is given, after that many milliseconds at the latest.
    pub fn check_bootstrap(&mut self, timeout: Option<u64>, now: u64) -> (r: (u64, Outcome))
        requires
            old(self).wf(),
        ensures
            final(self).wf(),
            r.0 == old(self).next_handle_view(),
            final(self).next_handle_view() == crate::worker::timer::following(
                old(self).next_handle_view(),
            ),
            final(self).table_view() == old(self).table_view(),
            final(self).storage_view() == old(self).storage_view(),
            final(self).tokens_view() == old(self).tokens_view(),
            final(self).queued_view() == old(self).queued_view(),
            final(self).lookups_view() == old(self).lookups_view(),
            final(self).actions_view() == old(self).actions_view(),
            final(self).bootstrap_view() == old(self).bootstrap_view(),
            final(self).bootstrap_generator() == old(self).bootstrap_generator(),
            final(self).refresh_round() == old(self).refresh_round(),
            final(self).refresh_generator() == old(self).refresh_generator(),
            final(self).is_read_only() == old(self).is_read_only(),
            final(self).version() == old(self).version(),
            r.1.bootstrap == BootstrapStep::Done(false),
            old(self).bootstrapped() ==> {
                &&& r.1.effects@ == seq![
                    Effect::BootstrapAnswer { waiter: r.0, bootstrapped: true },
                ]
                &&& final(self).waiters_view() == old(self).waiters_view()
                &&& final(self).timer_view() == old(self).timer_view()
            },
            !old(self).bootstrapped() ==> {
                &&& r.1.effects@ == Seq::<Effect>::empty()
                &&& final(self).waiters_view() == old(self).waiters_view().push(r.0)
                &&& final(self).timer_view() == match timeout {
                    Some(delay) => crate::worker::timer::scheduled(
                        old(self).timer_view(),
                        crate::worker::bootstrap::deadline_after(now, delay),
                        ScheduledTaskCheck::UserBootstrappedTimeout(r.0),
                    ),
                    None => old(self).timer_view(),
                }
            },
    {
        let waiter = self.take_handle();
        let mut effects: Vec<Effect> = Vec::new();
        if self.bootstrap.is_bootstrapped() {
            effects.push(Effect::BootstrapAnswer { waiter, bootstrapped: true });
        } else {
            self.waiters.push(waiter);
            match timeout {
                Some(delay) => {
                    self.timer.schedule_in(
                        delay,
                        ScheduledTaskCheck::UserBootstrappedTimeout(waiter),
                        now,
                    );
                },
                None => {},
            }
        }
        (waiter, Outcome { effects, bootstrap: BootstrapStep::Done(false) })
    }

    /// Takes in that someone wants the peers of an info hash, and gives
    /// the lookup a number. The lookup starts at once if the table is
    /// bootstrapped, see `lookup_begun`; if not it waits until the table
    /// is.
    pub fn start_lookup(&mut self, info_hash: InfoHash, announce: bool, now: u64) -> (r: (
        u64,
        Outcome,
    ))
        requires
            old(self).wf(),
        ensures
            final(self).wf(),
            r.0 == old(self).next_handle_view(),
            final(self).next_handle_view() == crate::worker::timer::following(
                old(self).next_handle_view(),
            ),
            final(self).storage_view() == old(self).storage_view(),
            final(self).tokens_view() == old(self).tokens_view(),
            final(self).waiters_view() == old(self).waiters_view(),
            final(self).bootstrap_view() == old(self).bootstrap_view(),
            final(self).bootstrap_generator() == old(self).bootstrap_generator(),
            final(self).bootstrap_action() == old(self).bootstrap_action(),
            final(self).refresh_round() == old(self).refresh_round(),
            final(self).refresh_generator() == old(self).refresh_generator(),
            final(self).refresh_action() == old(self).refresh_action(),
            final(self).is_read_only() == old(self).is_read_only(),
            final(self).version() == old(self).version(),
            r.1.bootstrap == BootstrapStep::Done(false),
            old(self).bootstrapped() ==> {
                &&& old(self).lookup_begun(
                    final(self),
                    QueuedLookup { id: r.0, info_hash, announce },
                    now,
                    r.1.effects@,
                )
                &&& final(self).queued_view() == old(self).queued_view()
            },
            !old(self).bootstrapped() ==> {
                &&& r.1.effects@ == Seq::<Effect>::empty()
                &&& final(self).lookups_view() == old(self).lookups_view()
                &&& final(self).queued_view() == old(self).queued_view().push(
                    QueuedLookup { id: r.0, info_hash, announce },
                )
                &&& final(self).table_view() == old(self).table_view()
                &&& final(self).timer_view() == old(self).timer_view()
                &&& final(self).actions_view() == old(self).actions_view()
            },
    {
        let id = self.take_handle();
        let queued = QueuedLookup { id, info_hash, announce };
        let mut effects: Vec<Effect> = Vec::new();
        if self.bootstrap.is_bootstrapped() {
            let ghost before = *self;
            effects = self.run_lookup(queued, now);
            proof {
                assert(before.stage() == old(self).stage());
                assert(old(self).lookup_begun(self, queued, now, effects@));
            }
        } else {
            self.queued.push(queued);
        }
        (id, Outcome { effects, bootstrap: BootstrapStep::Done(false) })
    }
}

/// The id of the node that sent the query.
pub open spec fn asker_id(request: RequestView) -> NodeId {
    match request {
        RequestView::Ping(r) => r.id,
        RequestView::FindNode(r) => r.id,
        RequestView::GetPeers(r) => r.id,
        RequestView::AnnouncePeer(r) => r.id,
    }
}

/// The table `t` after a response that came from `from` at `now` is taken
/// in by a node of the address family `version`: the node that responded
/// is offered to the table as a good node, and the nodes of that family
/// that the response names as hearsay. Before the time from which on a
/// node can be questionable the table learns nothing.
pub open spec fn learned(
    t: TableView,
    from: SocketAddr,
    response: ResponseView,
    version: IpVersion,
    now: u64,
) -> TableView {
    if now >= MAX_LAST_SEEN_MS {
        contacts_added(
            table_add(t, respondent(NodeHandle { id: response.id, addr: from }, now), now),
            contacts_of(response, version),
            now,
        )
    } else {
        t
    }
}

/// The number of the action in a transaction id of eight bytes: what its
/// first five bytes spell.
pub open spec fn action_of(transaction_id: Seq<u8>) -> u64 {
    (big_endian(transaction_id) as u64) / MAX_MESSAGE_ID
}

impl DhtHandler {
    /// Whether responses under the action with this number are waited
    /// for: the action is the bootstrap, the refresh, or a lookup that is
    /// under way.
    pub open spec fn expects(&self, action: u64) -> bool {
        ||| action == self.bootstrap_action() / MAX_MESSAGE_ID
        ||| action == self.refresh_action() / MAX_MESSAGE_ID
        ||| first_where(self.lookups_view(), has_action(action)) < self.lookups_view().len()
    }

    /// Whether the action with this number is the refresh of the table and
    /// not the bootstrap.
    pub open spec fn is_refresh(&self, action: u64) -> bool {
        &&& action != self.bootstrap_action() / MAX_MESSAGE_ID
        &&& action == self.refresh_action() / MAX_MESSAGE_ID
    }

    /// The place of the first lookup under way with the given action, or
    /// the number of lookups if there is none.
    fn find_lookup(&self, action: ActionID) -> (index: usize)
        ensures
            index == first_where(self.lookups_view(), has_action(action.value_spec())),
            index <= self.lookups@.len(),
    {
        let mut i: usize = 0;
        while i < self.lookups.len()
            invariant
                i <= self.lookups@.len(),
                forall|j: int|
                    0 <= j < i ==> !has_action(action.value_spec())(
                        #[trigger] self.lookups_view()[j],
                    ),
            decreases self.lookups@.len() - i,
        {
            if self.lookups[i].lookup.action_id().value() == action.value() {
                proof {
                    lemma_first_where(
                        self.lookups_view(),
                        has_action(action.value_spec()),
                        i as int,
                    );
                }
                return i;
            }
            i += 1;
        }
        proof {
            lemma_first_where(self.lookups_view(), has_action(action.value_spec()), i as int);
        }
        i
    }

    /// Whether the node in this state may go on with the lookup at
    /// `index` as follows, when an event has left the lookup in the state
    /// `lookup`, the timer as `timer` and the table as `table`: the lookup
    /// goes on, see `goes_on`, and sends `queries`, and the node ends up in
    /// the state `after`. The other lookups stay as they are.
    pub open spec fn lookup_advanced(
        &self,
        after: &DhtHandler,
        index: int,
        lookup: LookupView,
        timer: TimerView<ScheduledTaskCheck>,
        table: TableView,
        queries: Seq<Outgoing>,
        now: u64,
    ) -> bool {
        let state = self.lookups_view()[index];
        let next = after.lookups_view()[index];
        &&& after.lookups_view() == self.lookups_view().update(index, next)
        &&& next.id == state.id
        &&& next.action_bits == state.action_bits
        &&& goes_on(
            lookup,
            state.generator,
            timer,
            table,
            next.lookup,
            next.generator,
            after.timer_view(),
            after.table_view(),
            queries,
            table.node_id,
            state.action_bits,
            now,
        )
    }

    /// Goes on with the lookup at `index` after an event: see
    /// `lookup_advanced`.
    fn advance_lookup(&mut self, index: usize, now: u64) -> (queries: Vec<Outgoing>)
        requires
            old(self).wf(),
            index < old(self).lookups@.len(),
        ensures
            final(self).wf(),
            final(self).storage == old(self).storage,
            final(self).tokens == old(self).tokens,
            final(self).aid_generator == old(self).aid_generator,
            final(self).bootstrap == old(self).bootstrap,
            final(self).refresh == old(self).refresh,
            final(self).waiters == old(self).waiters,
            final(self).queued == old(self).queued,
            final(self).next_handle == old(self).next_handle,
            final(self).read_only == old(self).read_only,
            final(self).announce_port == old(self).announce_port,
            final(self).ip_version == old(self).ip_version,
            final(self).refreshing == old(self).refreshing,
            old(self).lookup_advanced(
                final(self),
                index as int,
                old(self).lookups_view()[index as int].lookup,
                old(self).timer_view(),
                old(self).table_view(),
                queries@,
                now,
            ),
    {
        let node_id = self.table.node_id();
        let mut running = self.lookups.remove(index);
        let queries = running.lookup.advance(node_id, &mut self.table, &mut self.timer, now);
        let ghost next = running@;
        self.lookups.insert(index, running);
        assert(self.lookups_view() =~= old(self).lookups_view().update(index as int, next));
        queries
    }

    /// Takes in a response to a query of the lookup at `index`, when the
    /// table has learned from it: the peers that are new are handed to
    /// the one who started the lookup, and the lookup goes on.
    fn lookup_response(
        &mut self,
        index: usize,
        trans_id: &TransactionID,
        response: &Response,
        now: u64,
    ) -> (effects: Vec<Effect>)
        requires
            old(self).wf(),
            index < old(self).lookups@.len(),
        ensures
            final(self).wf(),
            final(self).storage == old(self).storage,
            final(self).tokens == old(self).tokens,
            final(self).aid_generator == old(self).aid_generator,
            final(self).bootstrap == old(self).bootstrap,
            final(self).refresh == old(self).refresh,
            final(self).waiters == old(self).waiters,
            final(self).queued == old(self).queued,
            final(self).next_handle == old(self).next_handle,
            final(self).read_only == old(self).read_only,
            final(self).announce_port == old(self).announce_port,
            final(self).ip_version == old(self).ip_version,
            final(self).refreshing == old(self).refreshing,
            old(self).lookup_answered(
                final(self),
                index as int,
                *trans_id,
                response@,
                old(self).table_view(),
                now,
                effects@,
            ),
    {
        let mut running = self.lookups.remove(index);
        let id = running.id;
        let peers = running.lookup.recv_response(trans_id, response, &mut self.timer);
        let ghost mid = running@;
        self.lookups.insert(index, running);
        assert(self.lookups_view() =~= old(self).lookups_view().update(index as int, mid));
        let mut effects: Vec<Effect> = Vec::new();
        let mut i: usize = 0;
        while i < peers.len()
            invariant
                i <= peers@.len(),
                effects@ == peer_effects(id, peers@.take(i as int)),
            decreases peers@.len() - i,
        {
            effects.push(Effect::Peer { lookup: id, addr: peers[i] });
            i += 1;
            assert(effects@ =~= peer_effects(id, peers@.take(i as int)));
        }
        assert(peers@.take(peers@.len() as int) =~= peers@);
        let ghost before = *self;
        let queries = self.advance_lookup(index, now);
        let ghost sent = queries@;
        Self::push_sends(&mut effects, queries);
        proof {
            assert(self.lookups_view() =~= old(self).lookups_view().update(
                index as int,
                self.lookups_view()[index as int],
            ));
            let state = old(self).lookups_view()[index as int];
            assert(mid.lookup == after_response(state.lookup, *trans_id, response@));
            assert(before.timer_view() == timer_after_response(
                state.lookup,
                old(self).timer_view(),
                *trans_id,
            ));
            assert(old(self).lookup_advanced(
                self,
                index as int,
                after_response(state.lookup, *trans_id, response@),
                timer_after_response(state.lookup, old(self).timer_view(), *trans_id),
                old(self).table_view(),
                sent,
                now,
            ));
            assert(effects@ == peer_effects(state.id, peers@) + send_effects(sent));
        }
        effects
    }

    /// Whether the node in this state may take in a response to a query of
    /// the lookup at `index` as follows, when the table has learned from
    /// the response and is `table`: the lookup takes the response in, see
    /// `after_response`, and goes on, see `lookup_advanced`; the node ends
    /// up in the state `after`, and `effects` are to hand the peers that
    /// are new to the one who started the lookup and then to send the
    /// queries of the lookup.
    pub open spec fn lookup_answered(
        &self,
        after: &DhtHandler,
        index: int,
        trans_id: TransactionID,
        response: ResponseView,
        table: TableView,
        now: u64,
        effects: Seq<Effect>,
    ) -> bool {
        let state = self.lookups_view()[index];
        let peers = if awaited(state.lookup, trans_id) {
            new_peers(state.lookup.reported, response.values)
        } else {
            Seq::empty()
        };
        exists|queries: Seq<Outgoing>|
            {
                &&& #[trigger] self.lookup_advanced(
                    after,
                    index,
                    after_response(state.lookup, trans_id, response),
                    timer_after_response(state.lookup, self.timer_view(), trans_id),
                    table,
                    queries,
                    now,
                )
                &&& effects == peer_effects(state.id, peers) + send_effects(queries)
            }
    }

    /// Whether the node in this state may take in a query that came from
    /// `from` at `now` as follows: it ends up in the state `after` and
    /// `outcome` is to send the answer, see `answers`. The sender is taken
    /// note of, see `requester_seen`, unless it is too early for a node to
    /// be questionable.
    pub open spec fn queried(
        &self,
        after: &DhtHandler,
        transaction_id: Seq<u8>,
        request: RequestView,
        from: SocketAddr,
        now: u64,
        outcome: Outcome,
    ) -> bool {
        let asker = NodeHandle { id: asker_id(request), addr: from };
        let table = if now >= MAX_LAST_SEEN_MS {
            requester_seen(self.table_view(), self.is_read_only(), asker, now)
        } else {
            self.table_view()
        };
        &&& reply_of(outcome) matches Some(reply)
        &&& reply.0 == from
        &&& reply.1.transaction_id == transaction_id
        &&& answers(
            table,
            self.storage_view(),
            self.tokens_view(),
            after.storage_view(),
            after.tokens_view(),
            request,
            from,
            now,
            reply.1.body,
        )
        &&& after.table_view() == table
        &&& after.timer_view() == self.timer_view()
        &&& after.waiters_view() == self.waiters_view()
        &&& after.queued_view() == self.queued_view()
        &&& after.lookups_view() == self.lookups_view()
        &&& after.actions_view() == self.actions_view()
        &&& after.refresh_round() == self.refresh_round()
        &&& after.refresh_generator() == self.refresh_generator()
        &&& after.bootstrap_view() == self.bootstrap_view()
        &&& after.bootstrap_generator() == self.bootstrap_generator()
    }

    /// Whether the node in this state may take in a response that came
    /// from `from` at `now` as follows: it ends up in the state `after`
    /// and returns `r`.
    ///
    /// A response whose transaction id has not eight bytes is refused, and
    /// so is one that nothing waits for. Of any other the table learns,
    /// see `learned`. Then, if the response is for the bootstrap, the
    /// bootstrap takes it in, see `responds`, and the node carries on, see
    /// `carries_on`. If it is for the refresh, nothing more happens. If it
    /// is for a lookup, the first lookup under way with that action takes
    /// it in, see `lookup_answered`.
    pub open spec fn responded(
        &self,
        after: &DhtHandler,
        transaction_id: Seq<u8>,
        response: ResponseView,
        from: SocketAddr,
        now: u64,
        r: Result<Outcome, WorkerError>,
    ) -> bool {
        let action = action_of(transaction_id);
        let table = learned(self.table_view(), from, response, self.version(), now);
        if transaction_id.len() != TRANSACTION_ID_BYTES {
            &&& r matches Err(e)
            &&& e == WorkerError::InvalidTransactionId
            &&& after == self
        } else if !self.expects(action) {
            &&& r matches Err(e)
            &&& e == WorkerError::UnsolicitedResponse
            &&& after == self
        } else {
            &&& after.storage_view() == self.storage_view()
            &&& after.tokens_view() == self.tokens_view()
            &&& r matches Ok(outcome)
            &&& if action == self.bootstrap_action() / MAX_MESSAGE_ID {
                exists|trans_id: TransactionID, timer: TimerView<ScheduledTaskCheck>|
                    {
                        &&& trans_id@ == transaction_id
                        &&& #[trigger] responds(
                            self.bootstrap_view(),
                            self.bootstrap_generator(),
                            self.timer_view(),
                            from,
                            trans_id,
                            after.bootstrap_view(),
                            after.bootstrap_generator(),
                            timer,
                            table,
                            outcome.bootstrap,
                            self.bootstrap_action(),
                            now,
                        )
                        &&& self.carries_on(table, timer, after, outcome, now)
                    }
            } else {
                &&& outcome.bootstrap matches BootstrapStep::Done(changed)
                &&& !changed
                &&& after.bootstrap_view() == self.bootstrap_view()
                &&& after.bootstrap_generator() == self.bootstrap_generator()
                &&& after.waiters_view() == self.waiters_view()
                &&& after.queued_view() == self.queued_view()
                &&& after.refresh_round() == self.refresh_round()
                &&& after.refresh_generator() == self.refresh_generator()
                &&& after.actions_view() == self.actions_view()
                &&& if self.is_refresh(action) {
                    &&& outcome.effects@.len() == 0
                    &&& after.table_view() == table
                    &&& after.timer_view() == self.timer_view()
                    &&& after.lookups_view() == self.lookups_view()
                } else {
                    exists|trans_id: TransactionID|
                        {
                            &&& trans_id@ == transaction_id
                            &&& #[trigger] self.lookup_answered(
                                after,
                                first_where(self.lookups_view(), has_action(action)),
                                trans_id,
                                response,
                                table,
                                now,
                                outcome.effects@,
                            )
                        }
                }
            }
        }
    }

    /// Takes in a query: see `queried`.
    fn take_query(
        &mut self,
        transaction_id: Vec<u8>,
        request: &Request,
        from: SocketAddr,
        now: u64,
    ) -> (outcome: Outcome)
        requires
            old(self).wf(),
        ensures
            final(self).wf(),
            final(self).read_only == old(self).read_only,
            final(self).ip_version == old(self).ip_version,
            final(self).next_handle == old(self).next_handle,
            final(self).bootstrap == old(self).bootstrap,
            old(self).queried(final(self), transaction_id@, request@, from, now, outcome),
    {
        if now >= MAX_LAST_SEEN_MS {
            let asker = NodeHandle { id: requester_id(request), addr: from };
            note_requester(&mut self.table, self.read_only, asker, now);
        }
        let body = handle_request(
            &self.table,
            &mut self.storage,
            &mut self.tokens,
            request,
            from,
            now,
        );
        reply(from, transaction_id, body)
    }

    /// Takes in a response: see `responded`.
    fn take_response(
        &mut self,
        transaction_id: &Vec<u8>,
        response: &Response,
        from: SocketAddr,
        now: u64,
    ) -> (r: Result<Outcome, WorkerError>)
        requires
            old(self).wf(),
        ensures
            final(self).wf(),
            final(self).read_only == old(self).read_only,
            final(self).ip_version == old(self).ip_version,
            final(self).next_handle == old(self).next_handle,
            final(self).bootstrap.action_bits() == old(self).bootstrap.action_bits(),
            old(self).responded(final(self), transaction_id@, response@, from, now, r),
    {
        let trans_id = match TransactionID::from_bytes(transaction_id.as_slice()) {
            Some(trans_id) => trans_id,
            None => {
                return Err(WorkerError::InvalidTransactionId);
            },
        };
        let action = trans_id.action_id();
        assert(action.value_spec() == action_of(transaction_id@));
        let of_bootstrap = action.value() == self.bootstrap.action_id().value();
        let of_refresh = action.value() == self.refresh.action_id().value();
        let index = self.find_lookup(action);
        if !of_bootstrap && !of_refresh && index >= self.lookups.len() {
            return Err(WorkerError::UnsolicitedResponse);
        }
        if now >= MAX_LAST_SEEN_MS {
            incorporate_response(&mut self.table, from, response, self.ip_version, now);
        }
        if of_bootstrap {
            let ghost table = self.table@;
            let step = self.bootstrap.recv_response(
                from,
                &trans_id,
                &self.table,
                &mut self.timer,
                now,
            );
            let ghost timer = self.timer@;
            let ghost mid = *self;
            let outcome = self.settle(step, now);
            proof {
                assert(responds(
                    old(self).bootstrap_view(),
                    old(self).bootstrap_generator(),
                    old(self).timer_view(),
                    from,
                    trans_id,
                    self.bootstrap_view(),
                    self.bootstrap_generator(),
                    timer,
                    table,
                    outcome.bootstrap,
                    old(self).bootstrap_action(),
                    now,
                ));
                mid.lemma_carries_on(old(self), table, timer, self, outcome, now);
                assert(table == learned(
                    old(self).table_view(),
                    from,
                    response@,
                    old(self).version(),
                    now,
                ));
            }
            Ok(outcome)
        } else if of_refresh {
            Ok(Outcome { effects: Vec::new(), bootstrap: BootstrapStep::Done(false) })
        } else {
            let ghost before = *self;
            let effects = self.lookup_response(index, &trans_id, response, now);
            proof {
                assert(before.table_view() == learned(
                    old(self).table_view(),
                    from,
                    response@,
                    old(self).version(),
                    now,
                ));
                let state = before.lookups_view()[index as int];
                assert(before.lookups_view() == old(self).lookups_view());
                let queries = choose|queries: Seq<Outgoing>|
                    {
                        &&& #[trigger] before.lookup_advanced(
                            self,
                            index as int,
                            after_response(state.lookup, trans_id, response@),
                            timer_after_response(state.lookup, before.timer_view(), trans_id),
                            before.table_view(),
                            queries,
                            now,
                        )
                        &&& effects@ == peer_effects(
                            state.id,
                            if awaited(state.lookup, trans_id) {
                                new_peers(state.lookup.reported, response@.values)
                            } else {
                                Seq::empty()
                            },
                        ) + send_effects(queries)
                    };
                assert(old(self).lookup_advanced(
                    self,
                    index as int,
                    after_response(state.lookup, trans_id, response@),
                    timer_after_response(state.lookup, old(self).timer_view(), trans_id),
                    before.table_view(),
                    queries,
                    now,
                ));
                assert(old(self).lookup_answered(
                    self,
                    index as int,
                    trans_id,
                    response@,
                    before.table_view(),
                    now,
                    effects@,
                ));
            }
            let outcome = Outcome { effects, bootstrap: BootstrapStep::Done(false) };
            proof {
                assert(old(self).lookup_answered(
                    self,
                    first_where(
                        old(self).lookups_view(),
                        has_action(action_of(transaction_id@)),
                    ),
                    trans_id,
                    response@,
                    learned(old(self).table_view(), from, response@, old(self).version(), now),
                    now,
                    outcome.effects@,
                ));
            }
            Ok(outcome)
        }
    }

    /// Takes in a datagram that came from `from` at `now`.
    ///
    /// A query is answered and its sender taken note of: see `queried`. A
    /// response is taken in if it is waited for: see `responded`. An error
    /// message changes nothing. Bytes that are no message are refused and
    /// change nothing; but what would be a query if it were a message is
    /// answered with the error code 203.
    pub fn handle_datagram(&mut self, bytes: &[u8], from: SocketAddr, now: u64) -> (r: Result<
        Outcome,
        WorkerError,
    >)
        requires
            old(self).wf(),
        ensures
            final(self).wf(),
            final(self).is_read_only() == old(self).is_read_only(),
            final(self).version() == old(self).version(),
            final(self).next_handle_view() == old(self).next_handle_view(),
            final(self).bootstrap_action() == old(self).bootstrap_action(),
            match decoded(bytes@) {
                None => {
                    &&& *final(self) == *old(self)
                    &&& match malformed_query(bytes@) {
                        Some(transaction_id) => {
                            &&& r matches Ok(outcome)
                            &&& reply_of(outcome) == Some(
                                (
                                    from,
                                    MessageView {
                                        transaction_id,
                                        body: refusal(
                                            PROTOCOL_ERROR,
                                            "Received A Malformed Query"@,
                                        ),
                                    },
                                ),
                            )
                        },
                        None => r matches Err(e) && e == WorkerError::InvalidBencodeDe,
                    }
                },
                Some(message) => match message.body {
                    MessageBodyView::Request(request) => {
                        &&& r matches Ok(outcome)
                        &&& old(self).queried(
                            final(self),
                            message.transaction_id,
                            request,
                            from,
                            now,
                            outcome,
                        )
                    },
                    MessageBodyView::Error(_) => {
                        &&& *final(self) == *old(self)
                        &&& r matches Ok(outcome)
                        &&& outcome.bootstrap matches BootstrapStep::Done(changed)
                        &&& !changed
                        &&& outcome.effects@.len() == 0
                    },
                    MessageBodyView::Response(response) => old(self).responded(
                        final(self),
                        message.transaction_id,
                        response,
                        from,
                        now,
                        r,
                    ),
                },
            },
    {
        let message = match Message::decode(bytes) {
            Ok(message) => message,
            Err(_) => {
                return match Message::malformed_query(bytes) {
                    Some(transaction_id) => {
                        let body = MessageBody::Error(
                            Error {
                                code: PROTOCOL_ERROR,
                                message: String::from_str("Received A Malformed Query"),
                            },
                        );
                        Ok(reply(from, transaction_id, body))
                    },
                    None => Err(WorkerError::InvalidBencodeDe),
                };
            },
        };
        match message.body {
            MessageBody::Request(request) => Ok(
                self.take_query(message.transaction_id, &request, from, now),
            ),
            MessageBody::Error(_) => Ok(
                Outcome { effects: Vec::new(), bootstrap: BootstrapStep::Done(false) },
            ),
            MessageBody::Response(response) => self.take_response(
                &message.transaction_id,
                &response,
                from,
                now,
            ),
        }
    }
}

/// The message that is all that `outcome` asks to send, and to whom, if
/// `outcome` asks for that one thing.
pub open spec fn reply_of(outcome: Outcome) -> Option<(SocketAddr, MessageView)> {
    if outcome.effects@.len() == 1 && outcome.bootstrap == BootstrapStep::Done(false) {
        match outcome.effects@[0] {
            Effect::Send(out) => Some(out@),
            _ => None,
        }
    } else {
        None
    }
}

/// What asks to send to `to` the message with the given transaction id
/// and body, and for nothing else.
fn reply(to: SocketAddr, transaction_id: Vec<u8>, body: MessageBody) -> (outcome: Outcome)
    ensures
        reply_of(outcome) == Some((to, MessageView { transaction_id: transaction_id@, body: body@ })),
{
    let mut effects: Vec<Effect> = Vec::new();
    effects.push(Effect::Send(Outgoing { addr: to, message: Message { transaction_id, body } }));
    Outcome { effects, bootstrap: BootstrapStep::Done(false) }
}

/// Takes the first `waiter` out of the waiters. Returns whether it was
/// among them.
fn take_waiter(waiters: &mut Vec<u64>, waiter: u64) -> (found: bool)
    ensures
        found == (first_where(old(waiters)@, is_number(waiter)) < old(waiters)@.len()),
        final(waiters)@ == if found {
            old(waiters)@.remove(first_where(old(waiters)@, is_number(waiter)))
        } else {
            old(waiters)@
        },
{
    let mut i: usize = 0;
    while i < waiters.len()
        invariant
            i <= waiters@.len(),
            *waiters == *old(waiters),
            forall|j: int| 0 <= j < i ==> !is_number(waiter)(#[trigger] waiters@[j]),
        decreases waiters@.len() - i,
    {
        if waiters[i] == waiter {
            proof {
                lemma_first_where(waiters@, is_number(waiter), i as int);
            }
            waiters.remove(i);
            return true;
        }
        i += 1;
    }
    proof {
        lemma_first_where(waiters@, is_number(waiter), i as int);
    }
    false
}

impl DhtHandler {
    /// Whether the node in this state may make a round of the refresh at
    /// `now` as follows, when the timer is `timer`: the round is made, see
    /// `refreshes`, the node ends up in the state `after`, and `effects`
    /// are to send the queries of the round.
    pub open spec fn refreshed(
        &self,
        after: &DhtHandler,
        timer: TimerView<ScheduledTaskCheck>,
        now: u64,
        effects: Seq<Effect>,
    ) -> bool {
        exists|queries: Seq<Outgoing>|
            {
                &&& #[trigger] refreshes(
                    self.refresh_round(),
                    self.refresh_generator(),
                    timer,
                    self.table_view(),
                    after.refresh_round(),
                    after.refresh_generator(),
                    after.timer_view(),
                    after.table_view(),
                    queries,
                    self.refresh_action(),
                    now,
                )
                &&& effects == send_effects(queries)
            }
    }

    /// Whether the node in this state may take in as follows that the
    /// answer to the query with the transaction id `trans_id` is overdue,
    /// when that has been taken from the timer: the first lookup under way
    /// with the action of the query takes note of it, see `after_timeout`,
    /// and goes on, see `lookup_advanced`; the node ends up in the state
    /// `after`, and `effects` are to send the queries of the lookup. If
    /// there is no such lookup nothing more happens.
    pub open spec fn lookup_timed_out(
        &self,
        after: &DhtHandler,
        trans_id: TransactionID,
        now: u64,
        effects: Seq<Effect>,
    ) -> bool {
        let index = first_where(
            self.lookups_view(),
            has_action(trans_id.value_spec() / MAX_MESSAGE_ID),
        );
        if index < self.lookups_view().len() {
            exists|queries: Seq<Outgoing>|
                {
                    &&& #[trigger] self.lookup_advanced(
                        after,
                        index,
                        after_timeout(self.lookups_view()[index].lookup, trans_id),
                        popped(self.timer_view()),
                        self.table_view(),
                        queries,
                        now,
                    )
                    &&& effects == send_effects(queries)
                }
        } else {
            &&& effects.len() == 0
            &&& after.lookups_view() == self.lookups_view()
            &&& after.table_view() == self.table_view()
            &&& after.timer_view() == popped(self.timer_view())
        }
    }

    /// Whether the node in this state may take in as follows that the
    /// last round of the lookup with the transaction id `trans_id` is
    /// over, when that has been taken from the timer: the first lookup
    /// under way with that action ends, see `finishes`; the node ends up in
    /// the state `after`, and `effects` are to send the queries of the
    /// lookup and then, if the lookup is over, to tell so the one who
    /// started it. A lookup that is over leaves. If there is no such
    /// lookup nothing more happens.
    pub open spec fn lookup_ended(
        &self,
        after: &DhtHandler,
        trans_id: TransactionID,
        now: u64,
        effects: Seq<Effect>,
    ) -> bool {
        let index = first_where(
            self.lookups_view(),
            has_action(trans_id.value_spec() / MAX_MESSAGE_ID),
        );
        &&& after.table_view() == self.table_view()
        &&& after.timer_view() == popped(self.timer_view())
        &&& if index < self.lookups_view().len() {
            self.ended_at(after, index, now, effects)
        } else {
            &&& effects.len() == 0
            &&& after.lookups_view() == self.lookups_view()
        }
    }

    /// Whether the node in this state may end the last round of the lookup
    /// at `index` as follows: the lookup ends, see `finishes`; the node
    /// ends up in the state `after`, and `effects` are to send the queries
    /// of the lookup and then, if the lookup is over, to tell so the one
    /// who started it. A lookup that is over leaves.
    pub open spec fn ended_at(
        &self,
        after: &DhtHandler,
        index: int,
        now: u64,
        effects: Seq<Effect>,
    ) -> bool {
        let state = self.lookups_view()[index];
        exists|lookup: LookupView, generator: GeneratorView, queries: Seq<Outgoing>|
            {
                &&& #[trigger] finishes(
                    state.lookup,
                    state.generator,
                    lookup,
                    generator,
                    queries,
                    self.table_view().node_id,
                    now,
                )
                &&& if lookup.done {
                    &&& after.lookups_view() == self.lookups_view().remove(index)
                    &&& effects == send_effects(queries).push(
                        Effect::LookupFinished { lookup: state.id },
                    )
                } else {
                    &&& after.lookups_view() == self.lookups_view().update(
                        index,
                        LookupState { lookup, generator, ..state },
                    )
                    &&& effects == send_effects(queries)
                }
            }
    }

    /// Ends the last round of the lookup at `index`: see `lookup_ended`.
    fn end_lookup(&mut self, index: usize, now: u64) -> (effects: Vec<Effect>)
        requires
            old(self).wf(),
            index < old(self).lookups@.len(),
        ensures
            final(self).wf(),
            final(self).table == old(self).table,
            final(self).timer == old(self).timer,
            final(self).storage == old(self).storage,
            final(self).tokens == old(self).tokens,
            final(self).aid_generator == old(self).aid_generator,
            final(self).bootstrap == old(self).bootstrap,
            final(self).refresh == old(self).refresh,
            final(self).waiters == old(self).waiters,
            final(self).queued == old(self).queued,
            final(self).next_handle == old(self).next_handle,
            final(self).read_only == old(self).read_only,
            final(self).announce_port == old(self).announce_port,
            final(self).ip_version == old(self).ip_version,
            final(self).refreshing == old(self).refreshing,
            old(self).ended_at(final(self), index as int, now, effects@),
    {
        let node_id = self.table.node_id();
        let mut effects: Vec<Effect> = Vec::new();
        let mut running = self.lookups.remove(index);
        let ghost state = running@;
        let queries = running.lookup.recv_endgame(node_id, now);
        let ghost sent = queries@;
        let ghost next = running@;
        Self::push_sends(&mut effects, queries);
        assert(effects@ =~= send_effects(sent));
        match running.lookup.status() {
            ActionStatus::Ongoing => {
                self.lookups.insert(index, running);
                assert(self.lookups_view() =~= old(self).lookups_view().update(index as int, next));
            },
            ActionStatus::Completed => {
                effects.push(Effect::LookupFinished { lookup: running.id });
                assert(self.lookups_view() =~= old(self).lookups_view().remove(index as int));
            },
        }
        proof {
            assert(finishes(
                state.lookup,
                state.generator,
                next.lookup,
                next.generator,
                sent,
                old(self).table_view().node_id,
                now,
            ));
            assert(next == (LookupState {
                lookup: next.lookup,
                generator: next.generator,
                ..state
            }));
        }
        effects
    }

    /// Takes in what the timer has that is due first, if it is due at
    /// `now`. None if nothing is due.
    ///
    /// When it is time for the refresh, its next round is made: see
    /// `refreshed`. A timeout of the bootstrap is handed to the bootstrap,
    /// see `times_out`, and the node carries on, see `carries_on`. When
    /// one who waits for the bootstrap has waited long enough, that one is
    /// told whether the table is bootstrapped, and waits no more. When the
    /// answer to a query of a lookup is overdue, the lookup goes on
    /// without it: see `lookup_timed_out`. When the last round of a lookup
    /// is over, the lookup ends: see `lookup_ended`.
    pub fn handle_timeout(&mut self, now: u64) -> (r: Option<Outcome>)
        requires
            old(self).wf(),
        ensures
            final(self).wf(),
            final(self).storage_view() == old(self).storage_view(),
            final(self).tokens_view() == old(self).tokens_view(),
            final(self).is_read_only() == old(self).is_read_only(),
            final(self).version() == old(self).version(),
            final(self).next_handle_view() == old(self).next_handle_view(),
            final(self).bootstrap_action() == old(self).bootstrap_action(),
            final(self).refresh_action() == old(self).refresh_action(),
            match r {
                None => {
                    &&& old(self).timer_view().queue.len() == 0 || old(
                        self,
                    ).timer_view().queue[0].0.0 > now
                    &&& *final(self) == *old(self)
                },
                Some(outcome) => {
                    &&& old(self).timer_view().queue.len() > 0
                    &&& old(self).timer_view().queue[0].0.0 <= now
                    &&& old(self).timed_out(
                        final(self),
                        old(self).timer_view().queue[0].1,
                        now,
                        outcome,
                    )
                },
            },
    {
        let due = match self.timer.next_deadline() {
            Some(deadline) => deadline <= now,
            None => false,
        };
        if !due {
            return None;
        }
        let task = match self.timer.pop_expired(now) {
            Some(task) => task,
            None => {
                return None;
            },
        };
        let mut effects: Vec<Effect> = Vec::new();
        match task {
            ScheduledTaskCheck::TableRefresh => {
                let queries = self.refresh.continue_refresh(&mut self.table, &mut self.timer, now);
                let ghost sent = queries@;
                Self::push_sends(&mut effects, queries);
                proof {
                    assert(effects@ =~= send_effects(sent));
                    assert(refreshes(
                        old(self).refresh_round(),
                        old(self).refresh_generator(),
                        popped(old(self).timer_view()),
                        old(self).table_view(),
                        self.refresh_round(),
                        self.refresh_generator(),
                        self.timer_view(),
                        self.table_view(),
                        sent,
                        old(self).refresh_action(),
                        now,
                    ));
                }
            },
            ScheduledTaskCheck::BootstrapTimeout(timeout) => {
                let ghost popped = self.timer@;
                let step = self.bootstrap.recv_timeout(&timeout, &self.table, &mut self.timer, now);
                let ghost timer = self.timer@;
                let ghost mid = *self;
                let outcome = self.settle(step, now);
                proof {
                    assert(times_out(
                        timeout,
                        old(self).bootstrap_view(),
                        old(self).bootstrap_generator(),
                        popped,
                        self.bootstrap_view(),
                        self.bootstrap_generator(),
                        timer,
                        old(self).table_view(),
                        outcome.bootstrap,
                        old(self).bootstrap_action(),
                        now,
                    ));
                    mid.lemma_carries_on(old(self), old(self).table_view(), timer, self, outcome, now);
                }
                return Some(outcome);
            },
            ScheduledTaskCheck::UserBootstrappedTimeout(waiter) => {
                if take_waiter(&mut self.waiters, waiter) {
                    effects.push(
                        Effect::BootstrapAnswer {
                            waiter,
                            bootstrapped: self.bootstrap.is_bootstrapped(),
                        },
                    );
                }
            },
            ScheduledTaskCheck::LookupTimeout(trans_id) => {
                let index = self.find_lookup(trans_id.action_id());
                if index < self.lookups.len() {
                    let mut running = self.lookups.remove(index);
                    running.lookup.recv_timeout(&trans_id);
                    let ghost mid = running@;
                    self.lookups.insert(index, running);
                    assert(self.lookups_view() =~= old(self).lookups_view().update(
                        index as int,
                        mid,
                    ));
                    let queries = self.advance_lookup(index, now);
                    let ghost sent = queries@;
                    Self::push_sends(&mut effects, queries);
                    proof {
                        assert(effects@ =~= send_effects(sent));
                        assert(self.lookups_view() =~= old(self).lookups_view().update(
                            index as int,
                            self.lookups_view()[index as int],
                        ));
                        assert(old(self).lookup_advanced(
                            self,
                            index as int,
                            mid.lookup,
                            popped(old(self).timer_view()),
                            old(self).table_view(),
                            sent,
                            now,
                        ));
                    }
                }
            },
            ScheduledTaskCheck::LookupEndGame(trans_id) => {
                let index = self.find_lookup(trans_id.action_id());
                if index < self.lookups.len() {
                    effects = self.end_lookup(index, now);
                }
            },
        }
        Some(Outcome { effects, bootstrap: BootstrapStep::Done(false) })
    }

    /// Whether the node in this state may take in as follows that `task`
    /// is due at `now`, when that has been taken from the timer: the node
    /// ends up in the state `after`, and `outcome` is what it asks for.
    pub open spec fn timed_out(
        &self,
        after: &DhtHandler,
        task: ScheduledTaskCheck,
        now: u64,
        outcome: Outcome,
    ) -> bool {
        match task {
            ScheduledTaskCheck::BootstrapTimeout(timeout) => exists|
                timer: TimerView<ScheduledTaskCheck>,
            |
                {
                    &&& #[trigger] times_out(
                        timeout,
                        self.bootstrap_view(),
                        self.bootstrap_generator(),
                        popped(self.timer_view()),
                        after.bootstrap_view(),
                        after.bootstrap_generator(),
                        timer,
                        self.table_view(),
                        outcome.bootstrap,
                        self.bootstrap_action(),
                        now,
                    )
                    &&& self.carries_on(self.table_view(), timer, after, outcome, now)
                },
            _ => {
                &&& outcome.bootstrap == BootstrapStep::Done(false)
                &&& after.bootstrap_view() == self.bootstrap_view()
                &&& after.bootstrap_generator() == self.bootstrap_generator()
                &&& after.queued_view() == self.queued_view()
                &&& after.actions_view() == self.actions_view()
                &&& match task {
                    ScheduledTaskCheck::UserBootstrappedTimeout(waiter) => {
                        let place = first_where(self.waiters_view(), is_number(waiter));
                        let waits = place < self.waiters_view().len();
                        &&& outcome.effects@ == if waits {
                            seq![
                                Effect::BootstrapAnswer { waiter, bootstrapped: self.bootstrapped() },
                            ]
                        } else {
                            Seq::<Effect>::empty()
                        }
                        &&& after.waiters_view() == if waits {
                            self.waiters_view().remove(place)
                        } else {
                            self.waiters_view()
                        }
                        &&& after.timer_view() == popped(self.timer_view())
                        &&& after.table_view() == self.table_view()
                        &&& after.lookups_view() == self.lookups_view()
                        &&& after.refresh_round() == self.refresh_round()
                        &&& after.refresh_generator() == self.refresh_generator()
                    },
                    ScheduledTaskCheck::TableRefresh => {
                        &&& self.refreshed(after, popped(self.timer_view()), now, outcome.effects@)
                        &&& after.waiters_view() == self.waiters_view()
                        &&& after.lookups_view() == self.lookups_view()
                    },
                    ScheduledTaskCheck::LookupTimeout(trans_id) => {
                        &&& self.lookup_timed_out(after, trans_id, now, outcome.effects@)
                        &&& after.waiters_view() == self.waiters_view()
                        &&& after.refresh_round() == self.refresh_round()
                        &&& after.refresh_generator() == self.refresh_generator()
                    },
                    ScheduledTaskCheck::LookupEndGame(trans_id) => {
                        &&& self.lookup_ended(after, trans_id, now, outcome.effects@)
                        &&& after.waiters_view() == self.waiters_view()
                        &&& after.refresh_round() == self.refresh_round()
                        &&& after.refresh_generator() == self.refresh_generator()
                    },
                    ScheduledTaskCheck::BootstrapTimeout(_) => true,
                }
            },
        }
    }
}

impl DhtHandler {
    /// Gives up the lookup with the number `id`, whose starter listens no
    /// more: if it is under way it leaves, and what comes in for it later
    /// is passed over; if it waits for the bootstrap it waits no more.
    /// Returns whether there was such a lookup.
    pub fn cancel_lookup(&mut self, id: u64) -> (found: bool)
        requires
            old(self).wf(),
        ensures
            final(self).wf(),
            final(self).table_view() == old(self).table_view(),
            final(self).storage_view() == old(self).storage_view(),
            final(self).tokens_view() == old(self).tokens_view(),
            final(self).timer_view() == old(self).timer_view(),
            final(self).waiters_view() == old(self).waiters_view(),
            final(self).bootstrap_view() == old(self).bootstrap_view(),
            final(self).next_handle_view() == old(self).next_handle_view(),
            final(self).is_read_only() == old(self).is_read_only(),
            final(self).version() == old(self).version(),
            ({
                let running = first_where(old(self).lookups_view(), runs_as(id));
                let waiting = first_where(old(self).queued_view(), waits_as(id));
                if running < old(self).lookups_view().len() {
                    &&& found
                    &&& final(self).lookups_view() == old(self).lookups_view().remove(running)
                    &&& final(self).queued_view() == old(self).queued_view()
                } else if waiting < old(self).queued_view().len() {
                    &&& found
                    &&& final(self).lookups_view() == old(self).lookups_view()
                    &&& final(self).queued_view() == old(self).queued_view().remove(waiting)
                } else {
                    &&& !found
                    &&& *final(self) == *old(self)
                }
            }),
    {
        let mut i: usize = 0;
        while i < self.lookups.len()
            invariant
                i <= self.lookups@.len(),
                *self == *old(self),
                self.wf(),
                forall|j: int| 0 <= j < i ==> !runs_as(id)(#[trigger] self.lookups_view()[j]),
            decreases self.lookups@.len() - i,
        {
            if self.lookups[i].id == id {
                proof {
                    lemma_first_where(self.lookups_view(), runs_as(id), i as int);
                }
                self.lookups.remove(i);
                assert(self.lookups_view() =~= old(self).lookups_view().remove(i as int));
                return true;
            }
            i += 1;
        }
        proof {
            lemma_first_where(self.lookups_view(), runs_as(id), i as int);
        }
        let mut k: usize = 0;
        while k < self.queued.len()
            invariant
                k <= self.queued@.len(),
                *self == *old(self),
                self.wf(),
                first_where(self.lookups_view(), runs_as(id)) == self.lookups_view().len(),
                forall|j: int| 0 <= j < k ==> !waits_as(id)(#[trigger] self.queued@[j]),
            decreases self.queued@.len() - k,
        {
            if self.queued[k].id == id {
                proof {
                    lemma_first_where(self.queued@, waits_as(id), k as int);
                }
                self.queued.remove(k);
                return true;
            }
            k += 1;
        }
        proof {
            lemma_first_where(self.queued@, waits_as(id), k as int);
        }
        false
    }
}

} // verus!
