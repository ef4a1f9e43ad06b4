//! The refresh of the routing table: every six seconds some questionable
//! nodes near one bucket are asked for nodes, bucket after bucket. Those
//! that answer become good again.

use vstd::prelude::*;
use crate::id::flip_bit_bytes;
use crate::message::{find_node_query, Message};
use crate::routing::node::{first_matching, first_worth_asking, handles_of, worth_asking, NodeHandle};
use crate::routing::table::{closest, requests_recorded, RoutingTable, TableView, MAX_BUCKETS};
use crate::transaction::{
    is_trace, message_ids, ActionID, GeneratorView, MIDGenerator, TransactionID, MAX_MESSAGE_ID,
};
use crate::worker::timer::{scheduled, Timer, TimerView};
use crate::worker::{Outgoing, ScheduledTaskCheck};

verus! {

/// Milliseconds between two rounds of the refresh.
pub const REFRESH_INTERVAL_TIMEOUT: u64 = 6000;

/// Largest number of nodes that one round asks.
pub const REFRESH_CONCURRENCY: usize = 4;

/// The bucket that a round of the refresh is about when the one before
/// left off at `current`: after the last bucket the first comes again.
pub open spec fn refresh_bucket(current: usize) -> int {
    if current == MAX_BUCKETS {
        0
    } else {
        current as int
    }
}

/// The nodes that a round of the refresh about `bucket` asks at `now`: the
/// first four of the walk from the id that differs from the local one in
/// the bit `bucket` which are questionable and were not asked in the last
/// 30 seconds.
pub open spec fn refresh_targets(t: TableView, bucket: int, now: u64) -> Seq<NodeHandle> {
    handles_of(
        first_matching(
            closest(t, crate::id::Id::from_view(flip_bit_bytes(t.node_id@, bucket)), now),
            worth_asking(true, now),
            REFRESH_CONCURRENCY as nat,
        ),
    )
}

/// Whether the refresh that left off at the bucket `c0`, with the
/// generator `g0`, the timer `tm0` and the table `t0`, may make a round at
/// `now`, leave off at `c1` with `g1`, `tm1` and `t1`, and send `queries`.
///
/// The queries are a `find_node` for the id that differs from the local
/// one in the bit of the round's bucket, to each of the nodes that
/// `refresh_targets` names, each under a transaction id of its own. The
/// requests are recorded in the table, the next round is scheduled in six
/// seconds, and the refresh moves on to the next bucket.
pub open spec fn refreshes(
    c0: usize,
    g0: GeneratorView,
    tm0: TimerView<ScheduledTaskCheck>,
    t0: TableView,
    c1: usize,
    g1: GeneratorView,
    tm1: TimerView<ScheduledTaskCheck>,
    t1: TableView,
    queries: Seq<Outgoing>,
    action_bits: u64,
    now: u64,
) -> bool {
    let bucket = refresh_bucket(c0);
    let targets = refresh_targets(t0, bucket, now);
    &&& c1 == bucket + 1
    &&& addresses_of_queries(queries) == Seq::new(targets.len(), |i: int| targets[i].addr)
    &&& forall|i: int|
        0 <= i < queries.len() ==> is_refresh_query(
            (#[trigger] queries[i])@.1,
            t0,
            bucket,
            action_bits,
        )
    &&& exists|states: Seq<GeneratorView>|
        states[0] == g0 && states.last() == g1 && #[trigger] is_trace(
            states,
            query_message_ids(queries),
            MAX_MESSAGE_ID,
        )
    &&& t1 == requests_recorded(t0, targets, now)
    &&& tm1 == scheduled(
        tm0,
        if now + REFRESH_INTERVAL_TIMEOUT > u64::MAX {
            u64::MAX
        } else {
            (now + REFRESH_INTERVAL_TIMEOUT) as u64
        },
        ScheduledTaskCheck::TableRefresh,
    )
}

/// The state of the refresh: the generator of its transaction ids and the
/// bucket that the next round is about.
#[derive(Debug)]
pub struct TableRefresh {
    id_generator: MIDGenerator,
    current_refresh_bucket: usize,
}

impl TableRefresh {
    /// The bucket at which the last round left off.
    pub closed spec fn current(&self) -> usize {
        self.current_refresh_bucket
    }

    /// The state of the generator of transaction ids.
    pub closed spec fn generator(&self) -> GeneratorView {
        self.id_generator@
    }

    /// The id of the action, followed by three zero bytes, as a number.
    pub closed spec fn action_bits(&self) -> u64 {
        self.id_generator.action_bits()
    }

    /// The invariant: that of the generator, and a bucket that exists or
    /// is one past the last.
    pub closed spec fn wf(&self) -> bool {
        &&& self.id_generator.wf()
        &&& self.current_refresh_bucket <= MAX_BUCKETS
    }

    /// A refresh that starts at the first bucket.
    pub fn new(id_generator: MIDGenerator) -> (refresh: TableRefresh)
        requires
            id_generator.wf(),
        ensures
            refresh.wf(),
            refresh.current() == 0,
            refresh.generator() == id_generator@,
            refresh.action_bits() == id_generator.action_bits(),
    {
        TableRefresh { id_generator, current_refresh_bucket: 0 }
    }

    /// The id of the action that the queries of the refresh belong to.
    pub fn action_id(&self) -> (id: ActionID)
        ensures
            id.value_spec() == self.action_bits() / MAX_MESSAGE_ID,
    {
        self.id_generator.action_id()
    }

    /// One round of the refresh at `now`. Returns the queries to send: a
    /// `find_node` for the id that differs from the local one in the bit of
    /// the round's bucket, to each of the nodes that `refresh_targets`
    /// names, each under a transaction id of its own. The requests are
    /// recorded in the table, the next round is scheduled, and the refresh
    /// moves on to the next bucket.
    pub fn continue_refresh(
        &mut self,
        table: &mut RoutingTable,
        timer: &mut Timer<ScheduledTaskCheck>,
        now: u64,
    ) -> (queries: Vec<Outgoing>)
        requires
            old(self).wf(),
            old(table).wf(),
            old(timer).wf(),
        ensures
            final(self).wf(),
            final(table).wf(),
            final(timer).wf(),
            final(self).action_bits() == old(self).action_bits(),
            refreshes(
                old(self).current(),
                old(self).generator(),
                old(timer)@,
                old(table)@,
                final(self).current(),
                final(self).generator(),
                final(timer)@,
                final(table)@,
                queries@,
                old(self).action_bits(),
                now,
            ),
    {
        if self.current_refresh_bucket == MAX_BUCKETS {
            self.current_refresh_bucket = 0;
        }
        let bucket: usize = self.current_refresh_bucket;
        let node_id = table.node_id();
        let target_id = node_id.flip_bit(bucket);
        proof {
            target_id.lemma_is_from_view();
        }
        let nodes = table.closest_nodes(target_id, now).to_vec();
        let picked = first_worth_asking(&nodes, REFRESH_CONCURRENCY, true, now);
        let ids = self.id_generator.generate_many(picked.len());
        let ghost states = choose|states: Seq<GeneratorView>|
            states[0] == old(self).generator() && states.last() == self.id_generator@ && is_trace(
                states,
                message_ids(ids@),
                MAX_MESSAGE_ID,
            );
        let mut queries: Vec<Outgoing> = Vec::new();
        let mut i: usize = 0;
        while i < picked.len()
            invariant
                i <= picked@.len(),
                ids@.len() == picked@.len(),
                queries@.len() == i,
                forall|k: int|
                    0 <= k < i ==> (#[trigger] queries@[k])@ == (
                        picked@[k].addr,
                        find_node_query(ids@[k]@, node_id, target_id),
                    ),
            decreases picked@.len() - i,
        {
            let message = Message::find_node(ids[i].to_vec(), node_id, target_id);
            queries.push(Outgoing { addr: picked[i].addr, message });
            i += 1;
        }
        table.local_requests(&picked, now);
        timer.schedule_in(REFRESH_INTERVAL_TIMEOUT, ScheduledTaskCheck::TableRefresh, now);
        self.current_refresh_bucket = bucket + 1;
        proof {
            assert(addresses_of_queries(queries@) =~= Seq::new(
                picked@.len(),
                |i: int| picked@[i].addr,
            ));
            assert forall|i: int| 0 <= i < queries@.len() implies is_refresh_query(
                (#[trigger] queries@[i])@.1,
                old(table)@,
                bucket as int,
                old(self).action_bits(),
            ) by {
                TransactionID::lemma_view(ids@[i], ids@[i]);
                assert(ids@[i].value_spec() / MAX_MESSAGE_ID == old(self).action_bits()
                    / MAX_MESSAGE_ID);
            }
            assert(query_message_ids(queries@) =~= message_ids(ids@)) by {
                assert forall|i: int| 0 <= i < queries@.len() implies query_message_ids(
                    queries@,
                )[i] == message_ids(ids@)[i] by {
                    TransactionID::lemma_view(ids@[i], ids@[i]);
                    assert(queries@[i]@.1.transaction_id == ids@[i]@);
                }
            }
        }
        queries
    }
}

/// The addresses that a sequence of queries goes to.
pub open spec fn addresses_of_queries(queries: Seq<Outgoing>) -> Seq<crate::addr::SocketAddr> {
    Seq::new(queries.len(), |i: int| queries[i].addr)
}

/// The number that the transaction id of a message spells.
pub open spec fn transaction_number(message: crate::message::MessageView) -> u64 {
    crate::bytes::big_endian(message.transaction_id) as u64
}

/// The message ids in the transaction ids of a sequence of queries.
pub open spec fn query_message_ids(queries: Seq<Outgoing>) -> Seq<u64> {
    Seq::new(
        queries.len(),
        |i: int| (transaction_number(queries[i]@.1) % MAX_MESSAGE_ID) as u64,
    )
}

/// Whether `message` is a query of a round of the refresh about `bucket`:
/// a `find_node` of the local node for the id that differs from the local
/// one in the bit `bucket`, under a transaction id of eight bytes of the
/// action of the refresh.
pub open spec fn is_refresh_query(
    message: crate::message::MessageView,
    t: TableView,
    bucket: int,
    action_bits: u64,
) -> bool {
    &&& message.transaction_id.len() == 8
    &&& transaction_number(message) / MAX_MESSAGE_ID == action_bits / MAX_MESSAGE_ID
    &&& message == find_node_query(
        message.transaction_id,
        t.node_id,
        crate::id::Id::from_view(flip_bit_bytes(t.node_id@, bucket)),
    )
}

} // verus!
