//! The bootstrap of the routing table: a first round of queries to the
//! routers and seed nodes, then one round for each bucket, in which
//! questionable nodes near the bucket are asked for more nodes. With ten
//! good nodes at the end the table is bootstrapped; with fewer the
//! bootstrap starts again after a pause that doubles with each attempt.

use vstd::prelude::*;
use crate::addr::{IpAddr, IpVersion, SocketAddr};
use crate::compact::same_version;
use crate::id::{flip_bit_bytes, Id, NodeId};
use crate::message::{find_node_query, Message};
use crate::routing::node::{
    first_matching, first_worth_asking, handles_of, views, worth_asking, Node, NodeHandle,
    NodeStatus, NodeView,
};
use crate::routing::table::{
    append_nodes, closest, count_with_status, lemma_requests_recorded_push, requests_recorded,
    table_local_request, RoutingTable, TableView, MAX_BUCKETS,
};
use crate::transaction::{
    is_trace, issues, message_ids, ActionID, GeneratorView, MIDGenerator, TransactionID,
    MAX_MESSAGE_ID,
};
use crate::worker::timer::{cancelled, following, scheduled, Timeout, Timer, TimerView};
use crate::worker::{BootstrapTimeout, Outgoing, ScheduledTaskCheck};

verus! {

/// Milliseconds that the answers to the first round may take.
pub const INITIAL_TIMEOUT: u64 = 2500;

/// Milliseconds that the answer of a node may take.
pub const NODE_TIMEOUT: u64 = 500;

/// Milliseconds to wait when nothing could be sent.
pub const NO_NETWORK_TIMEOUT: u64 = 5000;

/// Milliseconds between two looks at a bootstrapped table.
pub const PERIODIC_CHECK_TIMEOUT: u64 = 5000;

/// Number of good nodes that make a table bootstrapped.
pub const GOOD_NODE_THRESHOLD: usize = 10;

/// Largest number of nodes asked in one round.
pub const PINGS_PER_BUCKET: usize = 8;

/// Where the bootstrap stands.
#[derive(Copy, Clone, Debug, PartialEq, Eq, Structural)]
pub enum State {
    /// Rounds of queries are under way.
    Bootstrapping,
    /// The table holds enough good nodes.
    Bootstrapped,
    /// Before the first attempt, or after a failed one, until the next.
    IdleBeforeReBootstrap,
}

/// What the caller has to do after the bootstrap took in an event.
#[derive(Debug)]
pub enum BootstrapStep {
    /// Nothing. The flag says whether the table became bootstrapped or
    /// ceased to be.
    Done(bool),
    /// Resolve the routers and hand their addresses to
    /// `start_with_routers`.
    Resolve,
    /// Send the message to each of the addresses and hand the number of
    /// messages sent to `initial_round_sent`.
    InitialRound { message: Message, targets: Vec<SocketAddr> },
    /// Send the queries and hand to `probes_sent` which of them were sent.
    Probe(Vec<Outgoing>),
}

/// A query of a round that the caller has yet to send.
#[derive(Copy, Clone, Debug)]
pub struct Pending {
    pub node: NodeHandle,
    pub transaction_id: TransactionID,
    pub timeout: Timeout,
}

/// What the bootstrap is, as a value.
pub struct BootstrapView {
    pub ip_version: IpVersion,
    pub table_id: NodeId,
    pub routers: Seq<String>,
    pub router_addresses: Seq<SocketAddr>,
    pub starting_nodes: Seq<SocketAddr>,
    pub active: Seq<(TransactionID, Timeout)>,
    pub pending: Seq<Pending>,
    pub current_bucket: usize,
    pub initial_responses: Seq<SocketAddr>,
    pub initial_responses_expected: usize,
    pub state: State,
    pub attempt: u64,
}

/// Milliseconds to wait before the next attempt after `attempt` failed
/// ones: two seconds to the power of the number of attempts, which counts
/// as at least 1 and at most 9.
pub open spec fn retry_delay(attempt: u64) -> u64 {
    if attempt <= 1 {
        2_000
    } else if attempt == 2 {
        4_000
    } else if attempt == 3 {
        8_000
    } else if attempt == 4 {
        16_000
    } else if attempt == 5 {
        32_000
    } else if attempt == 6 {
        64_000
    } else if attempt == 7 {
        128_000
    } else if attempt == 8 {
        256_000
    } else {
        512_000
    }
}

/// The addresses of `s` that are of the given family, in their order.
pub open spec fn of_version(s: Seq<SocketAddr>, version: IpVersion) -> Seq<SocketAddr>
    decreases s.len(),
{
    if s.len() == 0 {
        s
    } else if s.last().ip.version_spec() == version {
        of_version(s.drop_last(), version).push(s.last())
    } else {
        of_version(s.drop_last(), version)
    }
}

/// The timeout of the first query of `active` with the given transaction
/// id, if there is one.
pub open spec fn active_timeout(active: Seq<(TransactionID, Timeout)>, id: TransactionID) -> Option<
    Timeout,
>
    decreases active.len(),
{
    if active.len() == 0 {
        None
    } else if active[0].0 == id {
        Some(active[0].1)
    } else {
        active_timeout(active.skip(1), id)
    }
}

/// The queries of `active` without those with the given transaction id.
pub open spec fn without_id(active: Seq<(TransactionID, Timeout)>, id: TransactionID) -> Seq<
    (TransactionID, Timeout),
>
    decreases active.len(),
{
    if active.len() == 0 {
        active
    } else if active.last().0 == id {
        without_id(active.drop_last(), id)
    } else {
        without_id(active.drop_last(), id).push(active.last())
    }
}

/// The set of addresses `s` with `addr` in it.
pub open spec fn with_addr(s: Seq<SocketAddr>, addr: SocketAddr) -> Seq<SocketAddr> {
    if s.contains(addr) {
        s
    } else {
        s.push(addr)
    }
}

/// The entries of the bucket `index`, or none if there is no such bucket.
pub open spec fn bucket_or_empty(t: TableView, index: int) -> Seq<NodeView> {
    if 0 <= index < t.buckets.len() {
        t.buckets[index]
    } else {
        Seq::empty()
    }
}

/// The id that differs from the local id of the table in the bit `bucket`.
pub open spec fn bucket_target(t: TableView, bucket: int) -> Id {
    Id::from_view(flip_bit_bytes(t.node_id@, bucket))
}

/// The nodes that the round for `bucket` asks at `now`: up to eight
/// questionable ones, for the first two buckets from the walk towards the
/// target of the bucket, for the others from the bucket and the two before
/// it.
pub open spec fn bootstrap_targets(t: TableView, bucket: int, now: u64) -> Seq<NodeHandle> {
    let candidates = if bucket == 0 || bucket == 1 {
        closest(t, bucket_target(t, bucket), now)
    } else {
        bucket_or_empty(t, bucket - 2) + bucket_or_empty(t, bucket - 1) + bucket_or_empty(
            t,
            bucket,
        )
    };
    handles_of(first_matching(candidates, worth_asking(false, now), PINGS_PER_BUCKET as nat))
}

/// The first bucket from `bucket` on whose round has someone to ask at
/// `now`, or 160 if there is none.
pub open spec fn next_probe_bucket(t: TableView, bucket: int, now: u64) -> int
    decreases MAX_BUCKETS - bucket,
{
    if bucket >= MAX_BUCKETS {
        MAX_BUCKETS as int
    } else if bootstrap_targets(t, bucket, now).len() > 0 {
        bucket
    } else {
        next_probe_bucket(t, bucket + 1, now)
    }
}

/// The state in which the rounds end at `now`: bootstrapped with ten good
/// nodes, otherwise idle until the next attempt.
pub open spec fn final_state(t: TableView, now: u64) -> State {
    if count_with_status(t.buckets, NodeStatus::Good, now) >= GOOD_NODE_THRESHOLD {
        State::Bootstrapped
    } else {
        State::IdleBeforeReBootstrap
    }
}

/// Whether a change from state `old` to state `new` makes the table
/// bootstrapped or ends its being so.
pub open spec fn crosses(old: State, new: State) -> bool {
    (old == State::Bootstrapped) != (new == State::Bootstrapped)
}

/// `now + delay`, or the end of time if that is sooner.
pub open spec fn deadline_after(now: u64, delay: u64) -> u64 {
    if now + delay > u64::MAX {
        u64::MAX
    } else {
        (now + delay) as u64
    }
}

/// The timer payload for the overdue answer to a query of the bootstrap.
pub open spec fn transaction_check(id: TransactionID) -> ScheduledTaskCheck {
    ScheduledTaskCheck::BootstrapTimeout(BootstrapTimeout::Transaction(id))
}

/// The timer payload for a look at the bootstrap.
pub open spec fn wake_up_check() -> ScheduledTaskCheck {
    ScheduledTaskCheck::BootstrapTimeout(BootstrapTimeout::IdleWakeUp)
}

/// The timer after the timeouts of the queries with the given transaction
/// ids were scheduled at `deadline`, one after the other.
pub open spec fn probes_scheduled(
    tm: TimerView<ScheduledTaskCheck>,
    ids: Seq<TransactionID>,
    deadline: u64,
) -> TimerView<ScheduledTaskCheck>
    decreases ids.len(),
{
    if ids.len() == 0 {
        tm
    } else {
        probes_scheduled(scheduled(tm, deadline, transaction_check(ids[0])), ids.skip(1), deadline)
    }
}

/// The `n`-th number after `id`.
pub open spec fn nth_following(id: u64, n: nat) -> u64
    decreases n,
{
    if n == 0 {
        id
    } else {
        following(nth_following(id, (n - 1) as nat))
    }
}

/// The transaction ids of a sequence of pending queries.
pub open spec fn pending_ids(pending: Seq<Pending>) -> Seq<TransactionID> {
    Seq::new(pending.len(), |i: int| pending[i].transaction_id)
}

/// The nodes of a sequence of pending queries.
pub open spec fn pending_nodes(pending: Seq<Pending>) -> Seq<NodeHandle> {
    Seq::new(pending.len(), |i: int| pending[i].node)
}

/// The pending queries that were sent: those for which `results` says so.
pub open spec fn sent_of(pending: Seq<Pending>, results: Seq<bool>) -> Seq<Pending>
    decreases pending.len(),
{
    if pending.len() == 0 {
        pending
    } else {
        let init = sent_of(pending.drop_last(), results);
        if pending.len() <= results.len() && results[pending.len() - 1] {
            init.push(pending.last())
        } else {
            init
        }
    }
}

/// The active queries with those of `sent` among them, each with its
/// timeout.
pub open spec fn with_sent(active: Seq<(TransactionID, Timeout)>, sent: Seq<Pending>) -> Seq<
    (TransactionID, Timeout),
>
    decreases sent.len(),
{
    if sent.len() == 0 {
        active
    } else {
        without_id(with_sent(active, sent.drop_last()), sent.last().transaction_id).push(
            (sent.last().transaction_id, sent.last().timeout),
        )
    }
}

/// Whether the bootstrap, in state `b0` with generator state `g0` and timer
/// `tm0`, may go on to the next round at `now` over the table `t`, end up
/// in state `b1` with `g1` and `tm1`, and ask the caller for `step`.
///
/// It goes to the first bucket from the current one on whose round has
/// someone to ask. If there is one, the queries are made ready, with a
/// timeout of half a second each, and handed to the caller. If there is
/// none the rounds are over: with ten good nodes the table is bootstrapped
/// and will be looked at again in five seconds, otherwise the next attempt
/// is scheduled.
pub open spec fn advances(
    b0: BootstrapView,
    g0: GeneratorView,
    tm0: TimerView<ScheduledTaskCheck>,
    b1: BootstrapView,
    g1: GeneratorView,
    tm1: TimerView<ScheduledTaskCheck>,
    t: TableView,
    step: BootstrapStep,
    action_bits: u64,
    now: u64,
) -> bool {
    let bucket = next_probe_bucket(t, b0.current_bucket as int, now);
    if bucket >= MAX_BUCKETS {
        let state = final_state(t, now);
        &&& g1 == g0
        &&& state == State::Bootstrapped ==> b1 == (BootstrapView {
            current_bucket: MAX_BUCKETS,
            state,
            attempt: 0,
            ..b0
        }) && tm1 == scheduled(tm0, deadline_after(now, PERIODIC_CHECK_TIMEOUT), wake_up_check())
        &&& state != State::Bootstrapped ==> b1 == (BootstrapView {
            current_bucket: MAX_BUCKETS,
            state,
            ..b0
        }) && tm1 == scheduled(
            tm0,
            deadline_after(now, retry_delay(b0.attempt)),
            wake_up_check(),
        )
        &&& step matches BootstrapStep::Done(changed)
        &&& changed == crosses(b0.state, state)
    } else {
        let targets = bootstrap_targets(t, bucket, now);
        &&& b1 == (BootstrapView {
            current_bucket: (bucket + 1) as usize,
            pending: b1.pending,
            ..b0
        })
        &&& pending_nodes(b1.pending) == targets
        &&& forall|i: int|
            0 <= i < b1.pending.len() ==> (#[trigger] b1.pending[i]).timeout@ == (
                deadline_after(now, NODE_TIMEOUT),
                nth_following(tm0.next_id, i as nat),
            ) && b1.pending[i].transaction_id.value_spec() / MAX_MESSAGE_ID == action_bits
                / MAX_MESSAGE_ID
        &&& tm1 == probes_scheduled(
            tm0,
            pending_ids(b1.pending),
            deadline_after(now, NODE_TIMEOUT),
        )
        &&& exists|states: Seq<GeneratorView>|
            states[0] == g0 && states.last() == g1 && is_trace(
                states,
                message_ids(pending_ids(b1.pending)),
                MAX_MESSAGE_ID,
            )
        &&& step matches BootstrapStep::Probe(queries)
        &&& queries@.len() == targets.len()
        &&& forall|i: int|
            0 <= i < queries@.len() ==> (#[trigger] queries@[i])@ == (
                targets[i].addr,
                find_node_query(b1.pending[i].transaction_id@, t.node_id, bucket_target(t, bucket)),
            )
    }
}

/// Whether the bootstrap in state `b0`, with the generator `g0` and the
/// timer `tm0`, may go on at `now` when its routers are resolved to
/// `resolved`, end up in state `b1` with `g1` and `tm1`, and ask the caller
/// for `step`.
pub open spec fn resolves(
    b0: BootstrapView,
    g0: GeneratorView,
    tm0: TimerView<ScheduledTaskCheck>,
    resolved: Seq<SocketAddr>,
    b1: BootstrapView,
    g1: GeneratorView,
    tm1: TimerView<ScheduledTaskCheck>,
    step: BootstrapStep,
    action_bits: u64,
    now: u64,
) -> bool {
    let addresses = of_version(resolved, b0.ip_version);
    if b0.routers.len() > 0 && addresses.len() == 0 {
        &&& b1 == (BootstrapView {
            router_addresses: addresses,
            attempt: 0,
            state: State::IdleBeforeReBootstrap,
            ..b0
        })
        &&& g1 == g0
        &&& tm1 == scheduled(tm0, deadline_after(now, NO_NETWORK_TIMEOUT), wake_up_check())
        &&& step matches BootstrapStep::Done(changed)
        &&& changed == crosses(b0.state, State::IdleBeforeReBootstrap)
    } else {
        &&& b1.active.len() == 1
        &&& b1 == (BootstrapView {
            router_addresses: addresses,
            active: b1.active,
            current_bucket: 0,
            initial_responses: Seq::empty(),
            initial_responses_expected: 0,
            ..b0
        })
        &&& b1.active[0].1@ == (deadline_after(now, INITIAL_TIMEOUT), tm0.next_id)
        &&& b1.active[0].0.value_spec() / MAX_MESSAGE_ID == action_bits / MAX_MESSAGE_ID
        &&& issues(g0, b1.active[0].0.value_spec() % MAX_MESSAGE_ID, g1, MAX_MESSAGE_ID)
        &&& tm1 == scheduled(
            tm0,
            deadline_after(now, INITIAL_TIMEOUT),
            transaction_check(b1.active[0].0),
        )
        &&& step matches BootstrapStep::InitialRound { message, targets }
        &&& message@ == find_node_query(b1.active[0].0@, b0.table_id, b0.table_id)
        &&& targets@ == addresses + b0.starting_nodes
    }
}

/// Whether the bootstrap in state `b0` with the timer `tm0` may end up in
/// state `b1` with `tm1` when `sent` messages of its first round were sent
/// at `now`, and whether the table became bootstrapped or ceased to be.
pub open spec fn round_sent(
    b0: BootstrapView,
    tm0: TimerView<ScheduledTaskCheck>,
    sent: usize,
    b1: BootstrapView,
    tm1: TimerView<ScheduledTaskCheck>,
    changed: bool,
    now: u64,
) -> bool {
    if sent > 0 {
        &&& b1 == (BootstrapView {
            initial_responses_expected: if sent < PINGS_PER_BUCKET {
                sent
            } else {
                PINGS_PER_BUCKET
            },
            state: State::Bootstrapping,
            ..b0
        })
        &&& tm1 == tm0
        &&& changed == crosses(b0.state, State::Bootstrapping)
    } else {
        &&& b1 == (BootstrapView {
            initial_responses_expected: 0,
            attempt: 0,
            state: State::IdleBeforeReBootstrap,
            ..b0
        })
        &&& tm1 == scheduled(tm0, deadline_after(now, NO_NETWORK_TIMEOUT), wake_up_check())
        &&& changed == crosses(b0.state, State::IdleBeforeReBootstrap)
    }
}

/// Whether the bootstrap in state `b0`, with the generator `g0`, the timer
/// `tm0` and the table `t0`, may end up in state `b1` with `g1`, `tm1` and
/// `t1` and ask the caller for `step`, when `results` says at `now` which
/// queries of the round were sent.
pub open spec fn probed(
    b0: BootstrapView,
    g0: GeneratorView,
    tm0: TimerView<ScheduledTaskCheck>,
    t0: TableView,
    results: Seq<bool>,
    b1: BootstrapView,
    g1: GeneratorView,
    tm1: TimerView<ScheduledTaskCheck>,
    t1: TableView,
    step: BootstrapStep,
    action_bits: u64,
    now: u64,
) -> bool {
    let sent = sent_of(b0.pending, results);
    let mid = BootstrapView { pending: Seq::empty(), active: with_sent(b0.active, sent), ..b0 };
    &&& t1 == requests_recorded(t0, pending_nodes(sent), now)
    &&& sent.len() > 0 ==> {
        &&& b1 == (BootstrapView { state: State::Bootstrapping, ..mid })
        &&& g1 == g0
        &&& tm1 == tm0
        &&& step matches BootstrapStep::Done(changed)
        &&& changed == crosses(b0.state, State::Bootstrapping)
    }
    &&& sent.len() == 0 ==> advances(mid, g0, tm0, b1, g1, tm1, t1, step, action_bits, now)
}

/// Whether the bootstrap in state `b0`, with the generator `g0` and the
/// timer `tm0`, may end up in state `b1` with `g1` and `tm1` and ask the
/// caller for `step`, when the response to the query with the transaction
/// id `trans_id` comes from `addr` at `now` and the table is `t`.
pub open spec fn responds(
    b0: BootstrapView,
    g0: GeneratorView,
    tm0: TimerView<ScheduledTaskCheck>,
    addr: SocketAddr,
    trans_id: TransactionID,
    b1: BootstrapView,
    g1: GeneratorView,
    tm1: TimerView<ScheduledTaskCheck>,
    t: TableView,
    step: BootstrapStep,
    action_bits: u64,
    now: u64,
) -> bool {
    match active_timeout(b0.active, trans_id) {
        None => {
            &&& b1 == b0
            &&& g1 == g0
            &&& tm1 == tm0
            &&& step matches BootstrapStep::Done(changed)
            &&& !changed
        },
        Some(timeout) => {
            let initial = if b0.current_bucket == 0 {
                with_addr(b0.initial_responses, addr)
            } else {
                b0.initial_responses
            };
            let settled = b0.current_bucket != 0 || initial.len() >= b0.initial_responses_expected;
            let active = if settled {
                without_id(b0.active, trans_id)
            } else {
                b0.active
            };
            let tm = if settled {
                cancelled(tm0, timeout@)
            } else {
                tm0
            };
            let mid = BootstrapView { initial_responses: initial, active, ..b0 };
            if active.len() == 0 {
                advances(mid, g0, tm, b1, g1, tm1, t, step, action_bits, now)
            } else {
                &&& b1 == mid
                &&& g1 == g0
                &&& tm1 == tm
                &&& step matches BootstrapStep::Done(changed)
                &&& !changed
            }
        },
    }
}

/// Whether the bootstrap in state `b0` may start an attempt, end up in
/// state `b1` and ask the caller for `step`.
pub open spec fn starts(b0: BootstrapView, b1: BootstrapView, step: BootstrapStep) -> bool {
    if b0.routers.len() == 0 && b0.starting_nodes.len() == 0 {
        &&& b1 == (BootstrapView { state: State::Bootstrapped, attempt: 0, ..b0 })
        &&& step matches BootstrapStep::Done(changed)
        &&& changed == crosses(b0.state, State::Bootstrapped)
    } else {
        &&& b1 == (BootstrapView {
            attempt: if b0.attempt == u64::MAX {
                u64::MAX
            } else {
                (b0.attempt + 1) as u64
            },
            ..b0
        })
        &&& step is Resolve
    }
}

/// The state of the bootstrap of a routing table.
#[derive(Debug)]
pub struct TableBootstrap {
    ip_version: IpVersion,
    table_id: NodeId,
    routers: Vec<String>,
    router_addresses: Vec<SocketAddr>,
    id_generator: MIDGenerator,
    starting_nodes: Vec<SocketAddr>,
    active_message: Vec<(TransactionID, Timeout)>,
    pending: Vec<Pending>,
    current_bootstrap_bucket: usize,
    initial_responses: Vec<SocketAddr>,
    initial_responses_expected: usize,
    state: State,
    bootstrap_attempt: u64,
}

impl View for TableBootstrap {
    type V = BootstrapView;

    closed spec fn view(&self) -> BootstrapView {
        BootstrapView {
            ip_version: self.ip_version,
            table_id: self.table_id,
            routers: self.routers@,
            router_addresses: self.router_addresses@,
            starting_nodes: self.starting_nodes@,
            active: self.active_message@,
            pending: self.pending@,
            current_bucket: self.current_bootstrap_bucket,
            initial_responses: self.initial_responses@,
            initial_responses_expected: self.initial_responses_expected,
            state: self.state,
            attempt: self.bootstrap_attempt,
        }
    }
}

/// The addresses of `addresses` that are of the given family.
pub fn filter_by_version(addresses: &Vec<SocketAddr>, version: IpVersion) -> (kept: Vec<SocketAddr>)
    ensures
        kept@ == of_version(addresses@, version),
{
    let mut kept: Vec<SocketAddr> = Vec::new();
    let mut i: usize = 0;
    assert(addresses@.take(0) =~= Seq::<SocketAddr>::empty());
    while i < addresses.len()
        invariant
            i <= addresses@.len(),
            kept@ == of_version(addresses@.take(i as int), version),
        decreases addresses@.len() - i,
    {
        proof {
            let next = addresses@.take(i as int + 1);
            assert(next.drop_last() =~= addresses@.take(i as int));
            assert(next.last() == addresses@[i as int]);
        }
        if same_version(addresses[i].version(), version) {
            kept.push(addresses[i]);
        }
        i += 1;
    }
    assert(addresses@.take(addresses@.len() as int) =~= addresses@);
    kept
}

/// The addresses of the routers that the answers of a resolver give, each
/// answer being the addresses found under the name of a router with the
/// port of the router. Under each name the first address counts, and only
/// if it is of the given family; a name under which nothing is found gives
/// no address. Each address stands once, in the order of the answers.
pub open spec fn resolved(answers: Seq<(Vec<IpAddr>, u16)>, version: IpVersion) -> Seq<SocketAddr>
    decreases answers.len(),
{
    if answers.len() == 0 {
        Seq::empty()
    } else {
        let before = resolved(answers.drop_last(), version);
        let found = answers.last().0@;
        if found.len() > 0 && found[0].version_spec() == version {
            with_addr(before, SocketAddr { ip: found[0], port: answers.last().1 })
        } else {
            before
        }
    }
}

/// The addresses of the routers that the answers of a resolver give: see
/// `resolved`.
pub fn resolved_addresses(answers: &Vec<(Vec<IpAddr>, u16)>, version: IpVersion) -> (addresses: Vec<
    SocketAddr,
>)
    ensures
        addresses@ == resolved(answers@, version),
{
    let mut addresses: Vec<SocketAddr> = Vec::new();
    let mut i: usize = 0;
    assert(answers@.take(0) =~= Seq::<(Vec<IpAddr>, u16)>::empty());
    while i < answers.len()
        invariant
            i <= answers@.len(),
            addresses@ == resolved(answers@.take(i as int), version),
        decreases answers@.len() - i,
    {
        proof {
            let next = answers@.take(i as int + 1);
            assert(next.drop_last() =~= answers@.take(i as int));
            assert(next.last() == answers@[i as int]);
        }
        let found = &answers[i].0;
        if found.len() > 0 && same_version(found[0].version(), version) {
            let addr = SocketAddr { ip: found[0], port: answers[i].1 };
            if !contains_addr(&addresses, &addr) {
                addresses.push(addr);
            }
        }
        i += 1;
    }
    assert(answers@.take(answers@.len() as int) =~= answers@);
    addresses
}

/// Whether `addr` is among `addresses`.
pub fn contains_addr(addresses: &Vec<SocketAddr>, addr: &SocketAddr) -> (r: bool)
    ensures
        r == addresses@.contains(*addr),
{
    let mut i: usize = 0;
    while i < addresses.len()
        invariant
            i <= addresses@.len(),
            forall|j: int| 0 <= j < i ==> addresses@[j] != *addr,
        decreases addresses@.len() - i,
    {
        if addresses[i].same(addr) {
            return true;
        }
        i += 1;
    }
    false
}

impl TableBootstrap {
    /// The state of the generator of transaction ids.
    pub closed spec fn generator(&self) -> GeneratorView {
        self.id_generator@
    }

    /// The id of the action, followed by three zero bytes, as a number.
    pub closed spec fn action_bits(&self) -> u64 {
        self.id_generator.action_bits()
    }

    /// The invariant: that of the generator of transaction ids, and a
    /// current bucket that exists or is one past the last.
    pub closed spec fn wf(&self) -> bool {
        &&& self.id_generator.wf()
        &&& self.current_bootstrap_bucket <= MAX_BUCKETS
    }

    /// What the invariant says of the view.
    pub proof fn lemma_wf(&self)
        requires
            self.wf(),
        ensures
            self@.current_bucket <= MAX_BUCKETS,
    {
    }

    /// A bootstrap that has not started: it is idle.
    pub fn new(
        ip_version: IpVersion,
        table_id: NodeId,
        id_generator: MIDGenerator,
        routers: Vec<String>,
        nodes: Vec<SocketAddr>,
    ) -> (bootstrap: TableBootstrap)
        requires
            id_generator.wf(),
        ensures
            bootstrap.wf(),
            bootstrap.action_bits() == id_generator.action_bits(),
            bootstrap.generator() == id_generator@,
            bootstrap@ == (BootstrapView {
                ip_version,
                table_id,
                routers: routers@,
                router_addresses: Seq::empty(),
                starting_nodes: nodes@,
                active: Seq::empty(),
                pending: Seq::empty(),
                current_bucket: 0,
                initial_responses: Seq::empty(),
                initial_responses_expected: 8,
                state: State::IdleBeforeReBootstrap,
                attempt: 0,
            }),
    {
        TableBootstrap {
            ip_version,
            table_id,
            routers,
            router_addresses: Vec::new(),
            id_generator,
            starting_nodes: nodes,
            active_message: Vec::new(),
            pending: Vec::new(),
            current_bootstrap_bucket: 0,
            initial_responses: Vec::new(),
            initial_responses_expected: 8,
            state: State::IdleBeforeReBootstrap,
            bootstrap_attempt: 0,
        }
    }

    /// The names of the routers, to be resolved.
    pub fn routers(&self) -> (routers: &Vec<String>)
        ensures
            routers@ == self@.routers,
    {
        &self.routers
    }

    /// The addresses of the routers, as last resolved.
    pub fn router_addresses(&self) -> (addresses: &Vec<SocketAddr>)
        ensures
            addresses@ == self@.router_addresses,
    {
        &self.router_addresses
    }

    /// Whether the table is bootstrapped.
    pub fn is_bootstrapped(&self) -> (r: bool)
        ensures
            r == (self@.state == State::Bootstrapped),
    {
        match self.state {
            State::Bootstrapped => true,
            _ => false,
        }
    }

    /// The id of the action that the queries of the bootstrap belong to.
    pub fn action_id(&self) -> (id: ActionID)
        ensures
            id.value_spec() == self.action_bits() / MAX_MESSAGE_ID,
    {
        self.id_generator.action_id()
    }

    /// Enters a state. Returns whether the table became bootstrapped or
    /// ceased to be.
    fn set_state(&mut self, new_state: State) -> (changed: bool)
        ensures
            final(self)@ == (BootstrapView { state: new_state, ..old(self)@ }),
            changed == crosses(old(self)@.state, new_state),
            final(self).id_generator == old(self).id_generator,
    {
        let was = self.is_bootstrapped();
        self.state = new_state;
        let is = self.is_bootstrapped();
        was != is
    }

    /// Milliseconds to wait before the next attempt.
    fn calculate_retry_duration(&self) -> (delay: u64)
        ensures
            delay == retry_delay(self@.attempt),
    {
        let n: u64 = if self.bootstrap_attempt < 1 {
            1
        } else if self.bootstrap_attempt > 9 {
            9
        } else {
            self.bootstrap_attempt
        };
        let mut seconds: u64 = 1;
        let mut i: u64 = 0;
        while i < n
            invariant
                i <= n <= 9,
                i == 0 ==> seconds == 1,
                i >= 1 ==> seconds * 1000 == retry_delay(i),
            decreases n - i,
        {
            seconds = seconds * 2;
            i += 1;
        }
        seconds * 1000
    }

    /// Starts an attempt. Without routers and seed nodes this node is the
    /// first of its network: the table counts as bootstrapped at once.
    /// Otherwise the routers are to be resolved.
    pub fn start(&mut self) -> (step: BootstrapStep)
        requires
            old(self).wf(),
        ensures
            final(self).wf(),
            final(self).action_bits() == old(self).action_bits(),
            final(self).generator() == old(self).generator(),
            starts(old(self)@, final(self)@, step),
    {
        if self.bootstrap_attempt < u64::MAX {
            self.bootstrap_attempt = self.bootstrap_attempt + 1;
        }
        if self.routers.len() == 0 && self.starting_nodes.len() == 0 {
            self.bootstrap_attempt = 0;
            let changed = self.set_state(State::Bootstrapped);
            return BootstrapStep::Done(changed);
        }
        BootstrapStep::Resolve
    }

    /// Schedules a look at the bootstrap in `delay` milliseconds.
    fn idle_timeout_in(timer: &mut Timer<ScheduledTaskCheck>, delay: u64, now: u64) -> (timeout:
        Timeout)
        requires
            old(timer).wf(),
        ensures
            final(timer).wf(),
            final(timer)@ == scheduled(old(timer)@, deadline_after(now, delay), wake_up_check()),
            timeout@ == (deadline_after(now, delay), old(timer)@.next_id),
    {
        timer.schedule_in(
            delay,
            ScheduledTaskCheck::BootstrapTimeout(BootstrapTimeout::IdleWakeUp),
            now,
        )
    }

    /// Schedules the timeout of the query with the given transaction id in
    /// `delay` milliseconds.
    fn transaction_timeout_in(
        timer: &mut Timer<ScheduledTaskCheck>,
        delay: u64,
        trans_id: TransactionID,
        now: u64,
    ) -> (timeout: Timeout)
        requires
            old(timer).wf(),
        ensures
            final(timer).wf(),
            final(timer)@ == scheduled(
                old(timer)@,
                deadline_after(now, delay),
                transaction_check(trans_id),
            ),
            timeout@ == (deadline_after(now, delay), old(timer)@.next_id),
    {
        timer.schedule_in(
            delay,
            ScheduledTaskCheck::BootstrapTimeout(BootstrapTimeout::Transaction(trans_id)),
            now,
        )
    }

    /// Goes on with an attempt when the routers are resolved to
    /// `resolved`, of which the addresses of the family of this node
    /// count. If there are routers and none of them is resolved, the
    /// attempt ends and the next one is scheduled in five seconds.
    /// Otherwise the first round is made ready: one `find_node` for the
    /// local id, under one transaction id, for all routers and seed nodes,
    /// with 2.5 seconds for the answers.
    pub fn start_with_routers(
        &mut self,
        resolved: &Vec<SocketAddr>,
        timer: &mut Timer<ScheduledTaskCheck>,
        now: u64,
    ) -> (step: BootstrapStep)
        requires
            old(self).wf(),
            old(timer).wf(),
        ensures
            final(self).wf(),
            final(timer).wf(),
            final(self).action_bits() == old(self).action_bits(),
            resolves(
                old(self)@,
                old(self).generator(),
                old(timer)@,
                resolved@,
                final(self)@,
                final(self).generator(),
                final(timer)@,
                step,
                old(self).action_bits(),
                now,
            ),
    {
        self.router_addresses = filter_by_version(resolved, self.ip_version);
        if self.routers.len() > 0 && self.router_addresses.len() == 0 {
            self.bootstrap_attempt = 0;
            Self::idle_timeout_in(timer, NO_NETWORK_TIMEOUT, now);
            let changed = self.set_state(State::IdleBeforeReBootstrap);
            return BootstrapStep::Done(changed);
        }
        self.active_message = Vec::new();
        self.current_bootstrap_bucket = 0;
        let trans_id = self.id_generator.generate();
        let timeout = Self::transaction_timeout_in(timer, INITIAL_TIMEOUT, trans_id, now);
        self.active_message.push((trans_id, timeout));
        let message = Message::find_node(trans_id.to_vec(), self.table_id, self.table_id);
        self.initial_responses_expected = 0;
        self.initial_responses = Vec::new();
        let mut targets: Vec<SocketAddr> = Vec::new();
        let mut i: usize = 0;
        while i < self.router_addresses.len()
            invariant
                i <= self.router_addresses@.len(),
                targets@ == self.router_addresses@.take(i as int),
            decreases self.router_addresses@.len() - i,
        {
            targets.push(self.router_addresses[i]);
            assert(targets@ =~= self.router_addresses@.take(i as int + 1));
            i += 1;
        }
        assert(self.router_addresses@.take(self.router_addresses@.len() as int)
            =~= self.router_addresses@);
        let mut i: usize = 0;
        while i < self.starting_nodes.len()
            invariant
                i <= self.starting_nodes@.len(),
                targets@ == self.router_addresses@ + self.starting_nodes@.take(i as int),
            decreases self.starting_nodes@.len() - i,
        {
            targets.push(self.starting_nodes[i]);
            assert(targets@ =~= self.router_addresses@ + self.starting_nodes@.take(i as int + 1));
            i += 1;
        }
        assert(self.starting_nodes@.take(self.starting_nodes@.len() as int)
            =~= self.starting_nodes@);
        assert(self@.initial_responses =~= Seq::<SocketAddr>::empty());
        BootstrapStep::InitialRound { message, targets }
    }

    /// Takes note that `sent` messages of the first round were sent, of
    /// which up to eight answers are waited for. If none was sent the
    /// attempt ends and the next one is scheduled in five seconds.
    pub fn initial_round_sent(
        &mut self,
        sent: usize,
        timer: &mut Timer<ScheduledTaskCheck>,
        now: u64,
    ) -> (changed: bool)
        requires
            old(self).wf(),
            old(timer).wf(),
        ensures
            final(self).wf(),
            final(timer).wf(),
            final(self).action_bits() == old(self).action_bits(),
            final(self).generator() == old(self).generator(),
            round_sent(old(self)@, old(timer)@, sent, final(self)@, final(timer)@, changed, now),
    {
        self.initial_responses_expected = if sent < PINGS_PER_BUCKET {
            sent
        } else {
            PINGS_PER_BUCKET
        };
        if self.initial_responses_expected > 0 {
            self.set_state(State::Bootstrapping)
        } else {
            self.bootstrap_attempt = 0;
            Self::idle_timeout_in(timer, NO_NETWORK_TIMEOUT, now);
            self.set_state(State::IdleBeforeReBootstrap)
        }
    }

    /// The nodes that the round for the current bucket asks at `now`.
    fn pick_targets(&self, table: &RoutingTable, now: u64) -> (picked: Vec<NodeHandle>)
        requires
            self.wf(),
            table.wf(),
            self.current_bootstrap_bucket < MAX_BUCKETS,
        ensures
            picked@ == bootstrap_targets(table@, self.current_bootstrap_bucket as int, now),
    {
        let bucket: usize = self.current_bootstrap_bucket;
        if bucket == 0 || bucket == 1 {
            let target_id = table.node_id().flip_bit(bucket);
            proof {
                target_id.lemma_is_from_view();
            }
            let nodes = table.closest_nodes(target_id, now).to_vec();
            first_worth_asking(&nodes, PINGS_PER_BUCKET, false, now)
        } else {
            let buckets = table.buckets();
            let mut nodes: Vec<Node> = Vec::new();
            assert(views(nodes@) =~= Seq::<NodeView>::empty());
            let mut index: usize = bucket - 2;
            while index <= bucket
                invariant
                    bucket >= 2,
                    bucket < MAX_BUCKETS,
                    bucket - 2 <= index <= bucket + 1,
                    buckets@.len() == table@.buckets.len(),
                    forall|i: int|
                        0 <= i < buckets@.len() ==> (#[trigger] buckets@[i])@ == table@.buckets[i],
                    index == bucket - 2 ==> views(nodes@) == Seq::<NodeView>::empty(),
                    index == bucket - 1 ==> views(nodes@) == bucket_or_empty(table@, bucket - 2),
                    index == bucket ==> views(nodes@) == bucket_or_empty(table@, bucket - 2)
                        + bucket_or_empty(table@, bucket - 1),
                    index == bucket + 1 ==> views(nodes@) == bucket_or_empty(table@, bucket - 2)
                        + bucket_or_empty(table@, bucket - 1) + bucket_or_empty(
                        table@,
                        bucket as int,
                    ),
                decreases bucket + 1 - index,
            {
                if index < buckets.len() {
                    let entries = buckets[index].iter();
                    proof {
                        buckets@[index as int].lemma_len();
                        assert(views(entries@) =~= table@.buckets[index as int]);
                    }
                    append_nodes(&mut nodes, &entries);
                } else {
                    assert(views(nodes@) + Seq::<NodeView>::empty() =~= views(nodes@));
                }
                proof {
                    assert(Seq::<NodeView>::empty() + bucket_or_empty(table@, bucket - 2)
                        =~= bucket_or_empty(table@, bucket - 2));
                }
                index += 1;
            }
            first_worth_asking(&nodes, PINGS_PER_BUCKET, false, now)
        }
    }

    /// Goes on to the next round: see `advances`.
    fn bootstrap_next_bucket(
        &mut self,
        table: &RoutingTable,
        timer: &mut Timer<ScheduledTaskCheck>,
        now: u64,
    ) -> (step: BootstrapStep)
        requires
            old(self).wf(),
            table.wf(),
            old(timer).wf(),
        ensures
            final(self).wf(),
            final(timer).wf(),
            final(self).action_bits() == old(self).action_bits(),
            advances(
                old(self)@,
                old(self).generator(),
                old(timer)@,
                final(self)@,
                final(self).generator(),
                final(timer)@,
                table@,
                step,
                old(self).action_bits(),
                now,
            ),
    {
        let ghost b0 = self@;
        let ghost g0 = self.id_generator@;
        let ghost tm0 = timer@;
        let node_id = table.node_id();
        while self.current_bootstrap_bucket < MAX_BUCKETS
            invariant
                self.wf(),
                table.wf(),
                timer.wf(),
                timer@ == tm0,
                self.id_generator@ == g0,
                self.action_bits() == old(self).action_bits(),
                node_id == table@.node_id,
                b0 == old(self)@,
                g0 == old(self).generator(),
                tm0 == old(timer)@,
                self@ == (BootstrapView { current_bucket: self@.current_bucket, ..b0 }),
                b0.current_bucket <= self@.current_bucket,
                next_probe_bucket(table@, self@.current_bucket as int, now) == next_probe_bucket(
                    table@,
                    b0.current_bucket as int,
                    now,
                ),
            decreases MAX_BUCKETS - self.current_bootstrap_bucket,
        {
            let bucket: usize = self.current_bootstrap_bucket;
            let target_id = node_id.flip_bit(bucket);
            proof {
                target_id.lemma_is_from_view();
            }
            let picked = self.pick_targets(table, now);
            self.current_bootstrap_bucket = bucket + 1;
            if picked.len() > 0 {
                let ids = self.id_generator.generate_many(picked.len());
                let deadline: u64 = if NODE_TIMEOUT > u64::MAX - now {
                    u64::MAX
                } else {
                    now + NODE_TIMEOUT
                };
                let mut pending: Vec<Pending> = Vec::new();
                let mut queries: Vec<Outgoing> = Vec::new();
                let mut i: usize = 0;
                assert(ids@.skip(0) =~= ids@);
                while i < picked.len()
                    invariant
                        i <= picked@.len(),
                        ids@.len() == picked@.len(),
                        timer.wf(),
                        deadline == deadline_after(now, NODE_TIMEOUT),
                        pending@.len() == i,
                        queries@.len() == i,
                        forall|k: int|
                            0 <= k < i ==> (#[trigger] pending@[k]).node == picked@[k]
                                && pending@[k].transaction_id == ids@[k] && pending@[k].timeout@
                                == (deadline, nth_following(tm0.next_id, k as nat)),
                        forall|k: int|
                            0 <= k < i ==> (#[trigger] queries@[k])@ == (
                                picked@[k].addr,
                                find_node_query(ids@[k]@, node_id, target_id),
                            ),
                        timer@.next_id == nth_following(tm0.next_id, i as nat),
                        probes_scheduled(timer@, ids@.skip(i as int), deadline) == probes_scheduled(
                            tm0,
                            ids@,
                            deadline,
                        ),
                    decreases picked@.len() - i,
                {
                    proof {
                        let rest = ids@.skip(i as int);
                        assert(rest[0] == ids@[i as int]);
                        assert(rest.skip(1) =~= ids@.skip(i as int + 1));
                    }
                    let timeout = Self::transaction_timeout_in(timer, NODE_TIMEOUT, ids[i], now);
                    pending.push(Pending { node: picked[i], transaction_id: ids[i], timeout });
                    let message = Message::find_node(ids[i].to_vec(), node_id, target_id);
                    queries.push(Outgoing { addr: picked[i].addr, message });
                    i += 1;
                }
                self.pending = pending;
                proof {
                    assert(ids@.skip(ids@.len() as int) =~= Seq::<TransactionID>::empty());
                    assert(pending_ids(self@.pending) =~= ids@);
                    assert(pending_nodes(self@.pending) =~= picked@);
                    let states = choose|states: Seq<GeneratorView>|
                        states[0] == g0 && states.last() == self.id_generator@ && is_trace(
                            states,
                            message_ids(ids@),
                            MAX_MESSAGE_ID,
                        );
                    assert(states[0] == g0 && states.last() == self.generator() && is_trace(
                        states,
                        message_ids(pending_ids(self@.pending)),
                        MAX_MESSAGE_ID,
                    ));
                    assert(next_probe_bucket(table@, b0.current_bucket as int, now) == bucket);
                }
                return BootstrapStep::Probe(queries);
            }
        }
        let changed = if table.num_good_nodes(now) >= GOOD_NODE_THRESHOLD {
            self.bootstrap_attempt = 0;
            Self::idle_timeout_in(timer, PERIODIC_CHECK_TIMEOUT, now);
            self.set_state(State::Bootstrapped)
        } else {
            let delay = self.calculate_retry_duration();
            Self::idle_timeout_in(timer, delay, now);
            self.set_state(State::IdleBeforeReBootstrap)
        };
        BootstrapStep::Done(changed)
    }

    /// The timeout of the first active query with the given transaction
    /// id.
    fn find_active(&self, trans_id: &TransactionID) -> (timeout: Option<Timeout>)
        ensures
            timeout == active_timeout(self@.active, *trans_id),
    {
        let mut i: usize = 0;
        assert(self.active_message@.skip(0) =~= self.active_message@);
        while i < self.active_message.len()
            invariant
                i <= self.active_message@.len(),
                active_timeout(self.active_message@.skip(i as int), *trans_id) == active_timeout(
                    self.active_message@,
                    *trans_id,
                ),
            decreases self.active_message@.len() - i,
        {
            proof {
                let rest = self.active_message@.skip(i as int);
                assert(rest[0] == self.active_message@[i as int]);
                assert(rest.skip(1) =~= self.active_message@.skip(i as int + 1));
            }
            if self.active_message[i].0.same(trans_id) {
                return Some(self.active_message[i].1);
            }
            i += 1;
        }
        None
    }

    /// Forgets the active queries with the given transaction id.
    fn remove_active(&mut self, trans_id: &TransactionID)
        ensures
            final(self)@ == (BootstrapView {
                active: without_id(old(self)@.active, *trans_id),
                ..old(self)@
            }),
            final(self).id_generator == old(self).id_generator,
            final(self).current_bootstrap_bucket == old(self).current_bootstrap_bucket,
    {
        let mut kept: Vec<(TransactionID, Timeout)> = Vec::new();
        let mut i: usize = 0;
        assert(self.active_message@.take(0) =~= Seq::<(TransactionID, Timeout)>::empty());
        while i < self.active_message.len()
            invariant
                i <= self.active_message@.len(),
                kept@ == without_id(self.active_message@.take(i as int), *trans_id),
            decreases self.active_message@.len() - i,
        {
            proof {
                let next = self.active_message@.take(i as int + 1);
                assert(next.drop_last() =~= self.active_message@.take(i as int));
                assert(next.last() == self.active_message@[i as int]);
            }
            if !self.active_message[i].0.same(trans_id) {
                kept.push(self.active_message[i]);
            }
            i += 1;
        }
        assert(self.active_message@.take(self.active_message@.len() as int)
            =~= self.active_message@);
        self.active_message = kept;
    }

    /// Takes note of which of the queries of the round were sent:
    /// `results` says so for each, in their order. For each query that was
    /// sent the request is recorded in the table and the answer waited
    /// for. If none was sent, the bootstrap goes on to the next round.
    pub fn probes_sent(
        &mut self,
        results: &Vec<bool>,
        table: &mut RoutingTable,
        timer: &mut Timer<ScheduledTaskCheck>,
        now: u64,
    ) -> (step: BootstrapStep)
        requires
            old(self).wf(),
            old(table).wf(),
            old(timer).wf(),
        ensures
            final(self).wf(),
            final(table).wf(),
            final(timer).wf(),
            final(self).action_bits() == old(self).action_bits(),
            probed(
                old(self)@,
                old(self).generator(),
                old(timer)@,
                old(table)@,
                results@,
                final(self)@,
                final(self).generator(),
                final(timer)@,
                final(table)@,
                step,
                old(self).action_bits(),
                now,
            ),
    {
        let ghost t0 = table@;
        let ghost mut sent: Seq<Pending> = Seq::empty();
        let mut messages_sent: usize = 0;
        let mut i: usize = 0;
        proof {
            assert(self@.pending.take(0) =~= Seq::<Pending>::empty());
            assert(pending_nodes(sent) =~= Seq::<NodeHandle>::empty());
        }
        while i < self.pending.len()
            invariant
                i <= self.pending@.len(),
                self.wf(),
                table.wf(),
                self.action_bits() == old(self).action_bits(),
                self.id_generator@ == old(self).id_generator@,
                self@.pending == old(self)@.pending,
                sent == sent_of(old(self)@.pending.take(i as int), results@),
                messages_sent == sent.len(),
                messages_sent <= i,
                self@ == (BootstrapView {
                    active: with_sent(old(self)@.active, sent),
                    ..old(self)@
                }),
                table@ == requests_recorded(t0, pending_nodes(sent), now),
                t0 == old(table)@,
            decreases self.pending@.len() - i,
        {
            let query = self.pending[i];
            proof {
                let next = old(self)@.pending.take(i as int + 1);
                assert(next.drop_last() =~= old(self)@.pending.take(i as int));
                assert(next.last() == query);
            }
            if i < results.len() && results[i] {
                proof {
                    lemma_requests_recorded_push(t0, pending_nodes(sent), query.node, now);
                    assert(pending_nodes(sent.push(query)) =~= pending_nodes(sent).push(query.node));
                    assert(sent.push(query).drop_last() =~= sent);
                    sent = sent.push(query);
                }
                table.local_request(&query.node, now);
                self.remove_active(&query.transaction_id);
                self.active_message.push((query.transaction_id, query.timeout));
                messages_sent = messages_sent + 1;
            }
            i += 1;
        }
        assert(old(self)@.pending.take(self.pending@.len() as int) =~= old(self)@.pending);
        self.pending = Vec::new();
        assert(self@.pending =~= Seq::<Pending>::empty());
        if messages_sent > 0 {
            let changed = self.set_state(State::Bootstrapping);
            BootstrapStep::Done(changed)
        } else {
            self.bootstrap_next_bucket(table, timer, now)
        }
    }

    /// Takes in the response to the query with the given transaction id
    /// from `addr` at `now`. A response to no active query changes
    /// nothing. In the first round, which has one transaction id for all
    /// queries, the query stays active until as many nodes have answered
    /// as are waited for; in the later rounds each response settles its
    /// query. When no query is active any more the bootstrap goes on to
    /// the next round.
    pub fn recv_response(
        &mut self,
        addr: SocketAddr,
        trans_id: &TransactionID,
        table: &RoutingTable,
        timer: &mut Timer<ScheduledTaskCheck>,
        now: u64,
    ) -> (step: BootstrapStep)
        requires
            old(self).wf(),
            table.wf(),
            old(timer).wf(),
        ensures
            final(self).wf(),
            final(timer).wf(),
            final(self).action_bits() == old(self).action_bits(),
            responds(
                old(self)@,
                old(self).generator(),
                old(timer)@,
                addr,
                *trans_id,
                final(self)@,
                final(self).generator(),
                final(timer)@,
                table@,
                step,
                old(self).action_bits(),
                now,
            ),
    {
        let timeout = match self.find_active(trans_id) {
            Some(timeout) => timeout,
            None => {
                return BootstrapStep::Done(false);
            },
        };
        if self.current_bootstrap_bucket == 0 {
            if !contains_addr(&self.initial_responses, &addr) {
                self.initial_responses.push(addr);
            }
            if self.initial_responses.len() >= self.initial_responses_expected {
                timer.cancel(timeout);
                self.remove_active(trans_id);
            }
        } else {
            timer.cancel(timeout);
            self.remove_active(trans_id);
        }
        if self.active_message.len() == 0 {
            self.bootstrap_next_bucket(table, timer, now)
        } else {
            BootstrapStep::Done(false)
        }
    }

    /// Takes in that the answer to the query with the given transaction id
    /// is overdue. If no such query is active nothing changes. Otherwise
    /// the query is given up; if rounds are under way and no query is
    /// active any more, the bootstrap goes on to the next round.
    pub fn handle_transaction_timeout(
        &mut self,
        table: &RoutingTable,
        timer: &mut Timer<ScheduledTaskCheck>,
        trans_id: &TransactionID,
        now: u64,
    ) -> (step: BootstrapStep)
        requires
            old(self).wf(),
            table.wf(),
            old(timer).wf(),
        ensures
            final(self).wf(),
            final(timer).wf(),
            final(self).action_bits() == old(self).action_bits(),
            ({
                let known = active_timeout(old(self)@.active, *trans_id) is Some;
                let active = without_id(old(self)@.active, *trans_id);
                let mid = BootstrapView { active, ..old(self)@ };
                if known && old(self)@.state == State::Bootstrapping && active.len() == 0 {
                    advances(
                        mid,
                        old(self).generator(),
                        old(timer)@,
                        final(self)@,
                        final(self).generator(),
                        final(timer)@,
                        table@,
                        step,
                        old(self).action_bits(),
                        now,
                    )
                } else {
                    &&& final(self)@ == if known {
                        mid
                    } else {
                        old(self)@
                    }
                    &&& final(self).generator() == old(self).generator()
                    &&& final(timer)@ == old(timer)@
                    &&& step matches BootstrapStep::Done(changed)
                    &&& !changed
                }
            }),
    {
        if self.find_active(trans_id).is_none() {
            return BootstrapStep::Done(false);
        }
        self.remove_active(trans_id);
        match self.state {
            State::Bootstrapping => {
                if self.active_message.len() == 0 {
                    self.bootstrap_next_bucket(table, timer, now)
                } else {
                    BootstrapStep::Done(false)
                }
            },
            State::Bootstrapped => BootstrapStep::Done(false),
            State::IdleBeforeReBootstrap => BootstrapStep::Done(false),
        }
    }

    /// Takes a look at the bootstrap. While rounds are under way nothing
    /// happens. A bootstrapped table with fewer than ten good nodes and an
    /// idle bootstrap start an attempt; a bootstrapped table with ten good
    /// nodes is looked at again in five seconds.
    pub fn handle_wake_up_timeout(
        &mut self,
        table: &RoutingTable,
        timer: &mut Timer<ScheduledTaskCheck>,
        now: u64,
    ) -> (step: BootstrapStep)
        requires
            old(self).wf(),
            table.wf(),
            old(timer).wf(),
        ensures
            final(self).wf(),
            final(timer).wf(),
            final(self).action_bits() == old(self).action_bits(),
            final(self).generator() == old(self).generator(),
            match old(self)@.state {
                State::Bootstrapping => {
                    &&& final(self)@ == old(self)@
                    &&& final(timer)@ == old(timer)@
                    &&& step matches BootstrapStep::Done(changed)
                    &&& !changed
                },
                State::Bootstrapped => if count_with_status(
                    table@.buckets,
                    NodeStatus::Good,
                    now,
                ) < GOOD_NODE_THRESHOLD {
                    &&& starts(old(self)@, final(self)@, step)
                    &&& final(timer)@ == old(timer)@
                } else {
                    &&& final(self)@ == old(self)@
                    &&& final(timer)@ == scheduled(
                        old(timer)@,
                        deadline_after(now, PERIODIC_CHECK_TIMEOUT),
                        wake_up_check(),
                    )
                    &&& step matches BootstrapStep::Done(changed)
                    &&& !changed
                },
                State::IdleBeforeReBootstrap => {
                    &&& starts(old(self)@, final(self)@, step)
                    &&& final(timer)@ == old(timer)@
                },
            },
    {
        match self.state {
            State::Bootstrapping => BootstrapStep::Done(false),
            State::Bootstrapped => {
                if table.num_good_nodes(now) < GOOD_NODE_THRESHOLD {
                    self.start()
                } else {
                    Self::idle_timeout_in(timer, PERIODIC_CHECK_TIMEOUT, now);
                    BootstrapStep::Done(false)
                }
            },
            State::IdleBeforeReBootstrap => self.start(),
        }
    }

    /// Takes in a timeout of the bootstrap: that of a query, see
    /// `handle_transaction_timeout`, or the time for a look at the
    /// bootstrap, see `handle_wake_up_timeout`.
    pub fn recv_timeout(
        &mut self,
        timeout: &BootstrapTimeout,
        table: &RoutingTable,
        timer: &mut Timer<ScheduledTaskCheck>,
        now: u64,
    ) -> (step: BootstrapStep)
        requires
            old(self).wf(),
            table.wf(),
            old(timer).wf(),
        ensures
            final(self).wf(),
            final(timer).wf(),
            final(self).action_bits() == old(self).action_bits(),
            times_out(
                *timeout,
                old(self)@,
                old(self).generator(),
                old(timer)@,
                final(self)@,
                final(self).generator(),
                final(timer)@,
                table@,
                step,
                old(self).action_bits(),
                now,
            ),
    {
        match timeout {
            BootstrapTimeout::Transaction(trans_id) => {
                self.handle_transaction_timeout(table, timer, trans_id, now)
            },
            BootstrapTimeout::IdleWakeUp => self.handle_wake_up_timeout(table, timer, now),
        }
    }
}

/// Whether the bootstrap in state `b0`, with the generator `g0` and the
/// timer `tm0`, may end up in state `b1` with `g1` and `tm1` and ask the
/// caller for `step`, when `timeout` is due at `now` and the table is `t`.
/// A query that timed out is active no more, and when it was the last of
/// its round the bootstrap goes on to the next round. A wake-up starts the
/// next attempt if the table is not bootstrapped, or is bootstrapped and
/// has fewer than ten good nodes.
pub open spec fn times_out(
    timeout: BootstrapTimeout,
    b0: BootstrapView,
    g0: GeneratorView,
    tm0: TimerView<ScheduledTaskCheck>,
    b1: BootstrapView,
    g1: GeneratorView,
    tm1: TimerView<ScheduledTaskCheck>,
    t: TableView,
    step: BootstrapStep,
    action_bits: u64,
    now: u64,
) -> bool {
    match timeout {
        BootstrapTimeout::Transaction(trans_id) => {
            let known = active_timeout(b0.active, trans_id) is Some;
            let active = without_id(b0.active, trans_id);
            let mid = BootstrapView { active, ..b0 };
            if known && b0.state == State::Bootstrapping && active.len() == 0 {
                advances(mid, g0, tm0, b1, g1, tm1, t, step, action_bits, now)
            } else {
                &&& b1 == if known {
                    mid
                } else {
                    b0
                }
                &&& g1 == g0
                &&& tm1 == tm0
                &&& step matches BootstrapStep::Done(changed)
                &&& !changed
            }
        },
        BootstrapTimeout::IdleWakeUp => {
            &&& g1 == g0
            &&& match b0.state {
                State::Bootstrapping => {
                    &&& b1 == b0
                    &&& tm1 == tm0
                    &&& step matches BootstrapStep::Done(changed)
                    &&& !changed
                },
                State::Bootstrapped => if count_with_status(t.buckets, NodeStatus::Good, now)
                    < GOOD_NODE_THRESHOLD {
                    &&& starts(b0, b1, step)
                    &&& tm1 == tm0
                } else {
                    &&& b1 == b0
                    &&& tm1 == scheduled(
                        tm0,
                        deadline_after(now, PERIODIC_CHECK_TIMEOUT),
                        wake_up_check(),
                    )
                    &&& step matches BootstrapStep::Done(changed)
                    &&& !changed
                },
                State::IdleBeforeReBootstrap => {
                    &&& starts(b0, b1, step)
                    &&& tm1 == tm0
                },
            }
        },
    }
}

} // verus!
