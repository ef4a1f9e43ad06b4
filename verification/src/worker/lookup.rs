//! The lookup of the peers of an info hash: the nodes closest to the info
//! hash are asked for peers, three at a time, and name nodes that are
//! closer still, until the eight closest nodes known have answered or
//! timed out. Then those that answered are asked once more, and, if the
//! lookup announces, told that this peer has the content.

use vstd::prelude::*;
use crate::addr::{copy_bytes, SocketAddr};
use crate::id::{distance, InfoHash, NodeId};
use crate::message::{announce_peer_query, get_peers_query, Message, Response, ResponseView};
use crate::routing::node::{handles_of, NodeHandle};
use crate::routing::table::{
    closest, lemma_requests_recorded_push, requests_recorded, table_local_request, RoutingTable,
    TableView,
};
use crate::transaction::{
    is_trace, issues, lemma_message_ids_push, lemma_trace_push, message_ids, ActionID, GeneratorView, MIDGenerator, TransactionID, MAX_MESSAGE_ID,
};
use crate::worker::bootstrap::{contains_addr, deadline_after, nth_following};
use crate::worker::timer::{cancelled, scheduled, Timeout, Timer, TimerView};
use crate::worker::{ActionStatus, Outgoing, ScheduledTaskCheck};

verus! {

/// Largest number of queries of a lookup that are in flight at a time.
pub const LOOKUP_CONCURRENCY: usize = 3;

/// Number of closest nodes that a lookup keeps.
pub const LOOKUP_WIDTH: usize = 8;

/// Milliseconds that the answer of a node may take.
pub const LOOKUP_TIMEOUT: u64 = 500;

/// Milliseconds that the last round of a lookup takes.
pub const ENDGAME_TIMEOUT: u64 = 1500;

/// How far a lookup is with a node.
#[derive(Copy, Clone, Debug, PartialEq, Eq, Structural)]
pub enum QueryStatus {
    /// The node was not asked yet.
    NotQueried,
    /// The node was asked and has neither answered nor timed out.
    InFlight,
    /// The node answered.
    Responded,
    /// The node did not answer in time.
    TimedOut,
}

/// A node that a lookup knows of, with the query to it and the token from
/// its answer.
#[derive(Debug)]
pub struct Candidate {
    handle: NodeHandle,
    status: QueryStatus,
    query: Option<TransactionID>,
    timeout: Option<Timeout>,
    token: Option<Vec<u8>>,
}

/// A candidate as a value.
pub struct CandidateView {
    pub handle: NodeHandle,
    pub status: QueryStatus,
    pub query: Option<TransactionID>,
    pub timeout: Option<Timeout>,
    pub token: Option<Seq<u8>>,
}

impl View for Candidate {
    type V = CandidateView;

    closed spec fn view(&self) -> CandidateView {
        CandidateView {
            handle: self.handle,
            status: self.status,
            query: self.query,
            timeout: self.timeout,
            token: match self.token {
                Some(token) => Some(token@),
                None => None,
            },
        }
    }
}

/// What a lookup is, as a value.
pub struct LookupView {
    pub target: InfoHash,
    pub announce: bool,
    pub announce_port: Option<u16>,
    pub candidates: Seq<CandidateView>,
    pub reported: Seq<SocketAddr>,
    pub endgame: bool,
    pub endgame_queries: Seq<TransactionID>,
    pub done: bool,
}

/// A candidate that was not asked yet.
pub open spec fn fresh(handle: NodeHandle) -> CandidateView {
    CandidateView {
        handle,
        status: QueryStatus::NotQueried,
        query: None,
        timeout: None,
        token: None,
    }
}

/// Whether candidates come in the order of their distance to `target`.
pub open spec fn by_distance(candidates: Seq<CandidateView>, target: InfoHash) -> bool {
    forall|i: int, j: int|
        0 <= i <= j < candidates.len() ==> distance(target, (#[trigger] candidates[i]).handle.id)
            <= distance(target, (#[trigger] candidates[j]).handle.id)
}

/// Whether a node is among the candidates.
pub open spec fn knows(candidates: Seq<CandidateView>, handle: NodeHandle) -> bool {
    exists|i: int| 0 <= i < candidates.len() && (#[trigger] candidates[i]).handle == handle
}

/// Index of the first candidate from `from` on that is farther from
/// `target` than `id`, or the number of candidates if there is none.
pub open spec fn place_of(candidates: Seq<CandidateView>, target: InfoHash, id: NodeId, from: int) -> int
    decreases candidates.len() - from,
{
    if from < 0 || from >= candidates.len() {
        candidates.len() as int
    } else if distance(target, id) < distance(target, candidates[from].handle.id) {
        from
    } else {
        place_of(candidates, target, id, from + 1)
    }
}

/// The candidates after a lookup for `target` learned of a node: a node
/// that is known changes nothing; a new one takes its place in the order
/// of distance, behind those as close, and if there are more than eight
/// the farthest goes.
pub open spec fn with_contact(candidates: Seq<CandidateView>, handle: NodeHandle, target: InfoHash) -> Seq<
    CandidateView,
> {
    if knows(candidates, handle) {
        candidates
    } else {
        let all = candidates.insert(place_of(candidates, target, handle.id, 0), fresh(handle));
        if all.len() > LOOKUP_WIDTH {
            all.drop_last()
        } else {
            all
        }
    }
}

/// The candidates after a lookup learned of some nodes, one after the
/// other.
pub open spec fn with_contacts(
    candidates: Seq<CandidateView>,
    handles: Seq<NodeHandle>,
    target: InfoHash,
) -> Seq<CandidateView>
    decreases handles.len(),
{
    if handles.len() == 0 {
        candidates
    } else {
        with_contact(with_contacts(candidates, handles.drop_last(), target), handles.last(), target)
    }
}

/// Number of candidates that are in flight.
pub open spec fn in_flight(candidates: Seq<CandidateView>) -> nat
    decreases candidates.len(),
{
    if candidates.len() == 0 {
        0
    } else if candidates.last().status == QueryStatus::InFlight {
        in_flight(candidates.drop_last()) + 1
    } else {
        in_flight(candidates.drop_last())
    }
}

/// Number of candidates before the one at `n` that a lookup with room for
/// `budget` more queries asks next: it asks those that were not asked yet,
/// closest first.
pub open spec fn asked_before(candidates: Seq<CandidateView>, n: int, budget: nat) -> nat
    decreases n,
{
    if n <= 0 {
        0
    } else {
        let before = asked_before(candidates, n - 1, budget);
        if candidates[n - 1].status == QueryStatus::NotQueried && before < budget {
            before + 1
        } else {
            before
        }
    }
}

/// Whether the candidate at `index` is among those that a lookup with room
/// for `budget` more queries asks next.
pub open spec fn asked(candidates: Seq<CandidateView>, index: int, budget: nat) -> bool {
    candidates[index].status == QueryStatus::NotQueried && asked_before(candidates, index, budget)
        < budget
}

/// The nodes before the one at `n` that a lookup with room for `budget`
/// more queries asks next, closest first.
pub open spec fn asked_handles_upto(candidates: Seq<CandidateView>, n: int, budget: nat) -> Seq<
    NodeHandle,
>
    decreases n,
{
    if n <= 0 {
        Seq::empty()
    } else {
        let before = asked_handles_upto(candidates, n - 1, budget);
        if asked(candidates, n - 1, budget) {
            before.push(candidates[n - 1].handle)
        } else {
            before
        }
    }
}

/// The nodes that a lookup with room for `budget` more queries asks next,
/// closest first.
pub open spec fn asked_handles(candidates: Seq<CandidateView>, budget: nat) -> Seq<NodeHandle> {
    asked_handles_upto(candidates, candidates.len() as int, budget)
}

/// Room for more queries of a lookup with the given candidates.
pub open spec fn room(candidates: Seq<CandidateView>) -> nat {
    if in_flight(candidates) < LOOKUP_CONCURRENCY {
        (LOOKUP_CONCURRENCY - in_flight(candidates)) as nat
    } else {
        0
    }
}

/// The nodes among the candidates that have answered, closest first.
pub open spec fn responded_handles(candidates: Seq<CandidateView>) -> Seq<NodeHandle>
    decreases candidates.len(),
{
    if candidates.len() == 0 {
        Seq::empty()
    } else if candidates.last().status == QueryStatus::Responded {
        responded_handles(candidates.drop_last()).push(candidates.last().handle)
    } else {
        responded_handles(candidates.drop_last())
    }
}

/// The peers of `values` that are not among `reported`, each once, in
/// their order.
pub open spec fn new_peers(reported: Seq<SocketAddr>, values: Seq<SocketAddr>) -> Seq<SocketAddr>
    decreases values.len(),
{
    if values.len() == 0 {
        Seq::empty()
    } else {
        let before = new_peers(reported, values.drop_last());
        if reported.contains(values.last()) || before.contains(values.last()) {
            before
        } else {
            before.push(values.last())
        }
    }
}

/// Index of the first candidate from `from` on whose query has the given
/// transaction id, or the number of candidates if there is none.
pub open spec fn query_index(candidates: Seq<CandidateView>, id: TransactionID, from: int) -> int
    decreases candidates.len() - from,
{
    if from < 0 || from >= candidates.len() {
        candidates.len() as int
    } else if candidates[from].query == Some(id) {
        from
    } else {
        query_index(candidates, id, from + 1)
    }
}

/// The timer payload for the overdue answer to a query of a lookup.
pub open spec fn lookup_check(id: TransactionID) -> ScheduledTaskCheck {
    ScheduledTaskCheck::LookupTimeout(id)
}

/// The timer after the timeouts of the queries with the given transaction
/// ids were scheduled at `deadline`, one after the other.
pub open spec fn lookups_scheduled(
    tm: TimerView<ScheduledTaskCheck>,
    ids: Seq<TransactionID>,
    deadline: u64,
) -> TimerView<ScheduledTaskCheck>
    decreases ids.len(),
{
    if ids.len() == 0 {
        tm
    } else {
        scheduled(lookups_scheduled(tm, ids.drop_last(), deadline), deadline, lookup_check(ids.last()))
    }
}

/// The transaction ids of the queries to the candidates before the one at
/// `n` that were asked, read from the candidates `after`, closest first.
pub open spec fn asked_ids_upto(
    before: Seq<CandidateView>,
    after: Seq<CandidateView>,
    n: int,
    budget: nat,
) -> Seq<TransactionID>
    decreases n,
{
    if n <= 0 {
        Seq::empty()
    } else {
        let init = asked_ids_upto(before, after, n - 1, budget);
        if asked(before, n - 1, budget) {
            init.push(after[n - 1].query->0)
        } else {
            init
        }
    }
}

/// The transaction ids of the queries to the candidates that were asked,
/// read from the candidates `after`, closest first.
pub open spec fn asked_ids(before: Seq<CandidateView>, after: Seq<CandidateView>, budget: nat) -> Seq<
    TransactionID,
> {
    asked_ids_upto(before, after, before.len() as int, budget)
}

/// Whether the candidates `after` are the candidates `before` with those
/// asked that a lookup with room for `budget` more queries asks next: each
/// of those is in flight, with a query and a timeout due at `deadline`; the
/// others are as before.
pub open spec fn dispatched(
    before: Seq<CandidateView>,
    after: Seq<CandidateView>,
    budget: nat,
    deadline: u64,
    first_timer_id: u64,
) -> bool {
    &&& after.len() == before.len()
    &&& forall|i: int|
        0 <= i < before.len() ==> if asked(before, i, budget) {
            &&& (#[trigger] after[i]).query is Some
            &&& after[i].timeout is Some
            &&& after[i].timeout->0@ == (
                deadline,
                nth_following(first_timer_id, asked_before(before, i, budget)),
            )
            &&& after[i] == (CandidateView {
                status: QueryStatus::InFlight,
                query: after[i].query,
                timeout: after[i].timeout,
                ..before[i]
            })
        } else {
            after[i] == before[i]
        }
}

/// Where a new candidate goes lies among the candidates or at their end;
/// all before it are no farther from the target, and the one there is
/// farther.
pub proof fn lemma_place_of(candidates: Seq<CandidateView>, target: InfoHash, id: NodeId, from: int)
    requires
        0 <= from <= candidates.len(),
    ensures
        from <= place_of(candidates, target, id, from) <= candidates.len(),
        forall|i: int|
            from <= i < place_of(candidates, target, id, from) ==> distance(
                target,
                (#[trigger] candidates[i]).handle.id,
            ) <= distance(target, id),
        place_of(candidates, target, id, from) < candidates.len() ==> distance(target, id)
            < distance(target, candidates[place_of(candidates, target, id, from)].handle.id),
    decreases candidates.len() - from,
{
    if from < candidates.len() && !(distance(target, id) < distance(
        target,
        candidates[from].handle.id,
    )) {
        lemma_place_of(candidates, target, id, from + 1);
    }
}

/// Learning of a node keeps at most eight candidates in the order of their
/// distance.
pub proof fn lemma_with_contact(candidates: Seq<CandidateView>, handle: NodeHandle, target: InfoHash)
    requires
        by_distance(candidates, target),
        candidates.len() <= LOOKUP_WIDTH,
    ensures
        by_distance(with_contact(candidates, handle, target), target),
        with_contact(candidates, handle, target).len() <= LOOKUP_WIDTH,
{
    if !knows(candidates, handle) {
        let at = place_of(candidates, target, handle.id, 0);
        lemma_place_of(candidates, target, handle.id, 0);
        let all = candidates.insert(at, fresh(handle));
        assert forall|i: int, j: int| 0 <= i <= j < all.len() implies distance(
            target,
            (#[trigger] all[i]).handle.id,
        ) <= distance(target, (#[trigger] all[j]).handle.id) by {
            let a = if i < at {
                candidates[i]
            } else if i == at {
                fresh(handle)
            } else {
                candidates[i - 1]
            };
            let b = if j < at {
                candidates[j]
            } else if j == at {
                fresh(handle)
            } else {
                candidates[j - 1]
            };
            assert(all[i] == a);
            assert(all[j] == b);
            if i < at && j > at {
                assert(distance(target, candidates[i].handle.id) <= distance(
                    target,
                    candidates[j - 1].handle.id,
                ));
            }
            if i == at && j > at && at < j - 1 {
                assert(distance(target, candidates[at].handle.id) <= distance(
                    target,
                    candidates[j - 1].handle.id,
                ));
            }
            if i > at && j > at {
                assert(distance(target, candidates[i - 1].handle.id) <= distance(
                    target,
                    candidates[j - 1].handle.id,
                ));
            }
        }
        if all.len() > LOOKUP_WIDTH {
            let cut = all.drop_last();
            assert forall|i: int, j: int| 0 <= i <= j < cut.len() implies distance(
                target,
                (#[trigger] cut[i]).handle.id,
            ) <= distance(target, (#[trigger] cut[j]).handle.id) by {
                assert(cut[i] == all[i] && cut[j] == all[j]);
            }
        }
    }
}

/// The lookup of the peers of an info hash.
#[derive(Debug)]
pub struct TableLookup {
    target: InfoHash,
    announce: bool,
    announce_port: Option<u16>,
    id_generator: MIDGenerator,
    candidates: Vec<Candidate>,
    reported: Vec<SocketAddr>,
    endgame: bool,
    endgame_queries: Vec<TransactionID>,
    done: bool,
}

/// The candidates of a sequence as values.
pub open spec fn candidate_views(candidates: Seq<Candidate>) -> Seq<CandidateView> {
    Seq::new(candidates.len(), |i: int| candidates[i]@)
}

impl View for TableLookup {
    type V = LookupView;

    closed spec fn view(&self) -> LookupView {
        LookupView {
            target: self.target,
            announce: self.announce,
            announce_port: self.announce_port,
            candidates: candidate_views(self.candidates@),
            reported: self.reported@,
            endgame: self.endgame,
            endgame_queries: self.endgame_queries@,
            done: self.done,
        }
    }
}

/// The lookup for `target` when it starts at `now` from the table `t`: its
/// candidates are the eight closest to the target of the good and
/// questionable nodes of the table; nothing is asked or reported yet.
pub open spec fn started(
    target: InfoHash,
    announce: bool,
    announce_port: Option<u16>,
    t: TableView,
    now: u64,
) -> LookupView {
    LookupView {
        target,
        announce,
        announce_port,
        candidates: with_contacts(Seq::empty(), handles_of(closest(t, target, now)), target),
        reported: Seq::empty(),
        endgame: false,
        endgame_queries: Seq::empty(),
        done: false,
    }
}

impl TableLookup {
    /// The state of the generator of transaction ids.
    pub closed spec fn generator(&self) -> GeneratorView {
        self.id_generator@
    }

    /// The id of the action, followed by three zero bytes, as a number.
    pub closed spec fn action_bits(&self) -> u64 {
        self.id_generator.action_bits()
    }

    /// The invariant: that of the generator of transaction ids, and at
    /// most eight candidates in the order of their distance to the target.
    pub closed spec fn wf(&self) -> bool {
        &&& self.id_generator.wf()
        &&& self.candidates@.len() <= LOOKUP_WIDTH
        &&& by_distance(candidate_views(self.candidates@), self.target)
    }

    /// What the invariant says of the view.
    pub proof fn lemma_wf(&self)
        requires
            self.wf(),
        ensures
            self@.candidates.len() <= LOOKUP_WIDTH,
            by_distance(self@.candidates, self@.target),
    {
    }

    /// The id of the action that the queries of the lookup belong to.
    pub fn action_id(&self) -> (id: ActionID)
        ensures
            id.value_spec() == self.action_bits() / MAX_MESSAGE_ID,
    {
        self.id_generator.action_id()
    }

    /// Whether the lookup goes on.
    pub fn status(&self) -> (status: ActionStatus)
        ensures
            status == if self@.done {
                ActionStatus::Completed
            } else {
                ActionStatus::Ongoing
            },
    {
        if self.done {
            ActionStatus::Completed
        } else {
            ActionStatus::Ongoing
        }
    }

    /// Takes note of a node: see `with_contact`.
    fn add_contact(&mut self, handle: NodeHandle)
        requires
            old(self).wf(),
        ensures
            final(self).wf(),
            final(self).id_generator == old(self).id_generator,
            final(self)@ == (LookupView {
                candidates: with_contact(old(self)@.candidates, handle, old(self)@.target),
                ..old(self)@
            }),
    {
        let ghost before = self@.candidates;
        proof {
            lemma_with_contact(before, handle, self.target);
        }
        let mut i: usize = 0;
        while i < self.candidates.len()
            invariant
                i <= self.candidates@.len(),
                self.wf(),
                self@ == old(self)@,
                self.id_generator == old(self).id_generator,
                before == self@.candidates,
                forall|j: int| 0 <= j < i ==> (#[trigger] before[j]).handle != handle,
            decreases self.candidates@.len() - i,
        {
            if self.candidates[i].handle.same(&handle) {
                assert(before[i as int].handle == handle);
                return ;
            }
            i += 1;
        }
        assert(!knows(before, handle));
        let mut at: usize = 0;
        while at < self.candidates.len() && !self.target.closer(
            &handle.id,
            &self.candidates[at].handle.id,
        )
            invariant
                at <= self.candidates@.len(),
                self.wf(),
                self.target == old(self).target,
                self@ == old(self)@,
                self.id_generator == old(self).id_generator,
                before == self@.candidates,
                place_of(before, self.target, handle.id, 0) == place_of(
                    before,
                    self.target,
                    handle.id,
                    at as int,
                ),
            decreases self.candidates@.len() - at,
        {
            assert(before[at as int].handle == self.candidates@[at as int].handle);
            at += 1;
        }
        proof {
            if at < self.candidates@.len() {
                assert(before[at as int].handle == self.candidates@[at as int].handle);
            }
        }
        let candidate = Candidate {
            handle,
            status: QueryStatus::NotQueried,
            query: None,
            timeout: None,
            token: None,
        };
        assert(candidate@ == fresh(handle));
        self.candidates.insert(at, candidate);
        assert(self@.candidates =~= before.insert(at as int, fresh(handle)));
        if self.candidates.len() > LOOKUP_WIDTH {
            self.candidates.pop();
            assert(self@.candidates =~= before.insert(at as int, fresh(handle)).drop_last());
        }
    }

    /// Takes note of some nodes, one after the other.
    fn add_contacts(&mut self, handles: &Vec<NodeHandle>)
        requires
            old(self).wf(),
        ensures
            final(self).wf(),
            final(self).id_generator == old(self).id_generator,
            final(self)@ == (LookupView {
                candidates: with_contacts(old(self)@.candidates, handles@, old(self)@.target),
                ..old(self)@
            }),
    {
        let mut i: usize = 0;
        assert(handles@.take(0) =~= Seq::<NodeHandle>::empty());
        while i < handles.len()
            invariant
                i <= handles@.len(),
                self.wf(),
                self.id_generator == old(self).id_generator,
                self@ == (LookupView {
                    candidates: with_contacts(
                        old(self)@.candidates,
                        handles@.take(i as int),
                        old(self)@.target,
                    ),
                    ..old(self)@
                }),
            decreases handles@.len() - i,
        {
            proof {
                let next = handles@.take(i as int + 1);
                assert(next.drop_last() =~= handles@.take(i as int));
                assert(next.last() == handles@[i as int]);
            }
            self.add_contact(handles[i]);
            i += 1;
        }
        assert(handles@.take(handles@.len() as int) =~= handles@);
    }

    /// A lookup for `target` that starts from the good and questionable
    /// nodes of the table, of which it keeps the eight closest to the
    /// target. It announces with `announce_port`, or with the port that its
    /// queries come from if there is none, if `announce` is set.
    pub fn new(
        target: InfoHash,
        announce: bool,
        announce_port: Option<u16>,
        id_generator: MIDGenerator,
        table: &RoutingTable,
        now: u64,
    ) -> (lookup: TableLookup)
        requires
            id_generator.wf(),
            table.wf(),
        ensures
            lookup.wf(),
            lookup.action_bits() == id_generator.action_bits(),
            lookup.generator() == id_generator@,
            lookup@ == started(target, announce, announce_port, table@, now),
    {
        let mut lookup = TableLookup {
            target,
            announce,
            announce_port,
            id_generator,
            candidates: Vec::new(),
            reported: Vec::new(),
            endgame: false,
            endgame_queries: Vec::new(),
            done: false,
        };
        assert(lookup@.candidates =~= Seq::<CandidateView>::empty());
        let nodes = table.closest_nodes(target, now).to_vec();
        let mut handles: Vec<NodeHandle> = Vec::new();
        let mut i: usize = 0;
        while i < nodes.len()
            invariant
                i <= nodes@.len(),
                handles@.len() == i,
                forall|k: int| 0 <= k < i ==> handles@[k] == (#[trigger] nodes@[k])@.handle,
            decreases nodes@.len() - i,
        {
            handles.push(*nodes[i].handle());
            i += 1;
        }
        assert(handles@ =~= handles_of(closest(table@, target, now)));
        lookup.add_contacts(&handles);
        lookup
    }
}

/// Whether the response to the query with the given transaction id is one
/// that a lookup waits for: the answer of a candidate in flight, or an
/// answer of the last round.
pub open spec fn awaited(l: LookupView, id: TransactionID) -> bool {
    let j = query_index(l.candidates, id, 0);
    (j < l.candidates.len() && l.candidates[j].status == QueryStatus::InFlight)
        || l.endgame_queries.contains(id)
}

/// The lookup after it took in the response to the query with the given
/// transaction id. The answer of a candidate in flight marks it as
/// answered, with its token, and makes its nodes candidates. That and an
/// answer of the last round add the peers not reported yet to those
/// reported. Any other response changes nothing.
pub open spec fn after_response(l: LookupView, id: TransactionID, response: ResponseView) -> LookupView {
    let j = query_index(l.candidates, id, 0);
    if j < l.candidates.len() && l.candidates[j].status == QueryStatus::InFlight {
        let answered = l.candidates.update(
            j,
            CandidateView {
                status: QueryStatus::Responded,
                token: response.token,
                ..l.candidates[j]
            },
        );
        LookupView {
            candidates: with_contacts(
                with_contacts(answered, response.nodes_v4, l.target),
                response.nodes_v6,
                l.target,
            ),
            reported: l.reported + new_peers(l.reported, response.values),
            ..l
        }
    } else if l.endgame_queries.contains(id) {
        LookupView { reported: l.reported + new_peers(l.reported, response.values), ..l }
    } else {
        l
    }
}

/// The timer after a lookup took in the response to the query with the
/// given transaction id: the timeout of a candidate that answers is
/// cancelled.
pub open spec fn timer_after_response(
    l: LookupView,
    tm: TimerView<ScheduledTaskCheck>,
    id: TransactionID,
) -> TimerView<ScheduledTaskCheck> {
    let j = query_index(l.candidates, id, 0);
    if j < l.candidates.len() && l.candidates[j].status == QueryStatus::InFlight
        && l.candidates[j].timeout is Some {
        cancelled(tm, l.candidates[j].timeout->0@)
    } else {
        tm
    }
}

/// The lookup after the answer to the query with the given transaction id
/// became overdue: a candidate in flight with that query has timed out.
pub open spec fn after_timeout(l: LookupView, id: TransactionID) -> LookupView {
    let j = query_index(l.candidates, id, 0);
    if j < l.candidates.len() && l.candidates[j].status == QueryStatus::InFlight {
        LookupView {
            candidates: l.candidates.update(
                j,
                CandidateView { status: QueryStatus::TimedOut, ..l.candidates[j] },
            ),
            ..l
        }
    } else {
        l
    }
}

/// Whether a lookup in state `l0`, with generator state `g0`, timer `tm0`
/// and table `t0`, may ask the next nodes at `now`, end up in `l1` with
/// `g1`, `tm1` and `t1`, and hand `queries` to the caller.
///
/// While fewer than three queries are in flight, the closest candidates
/// not asked yet are asked: each gets a `get_peers` query for the target
/// under a transaction id of its own and half a second to answer, and the
/// request is recorded in the table.
pub open spec fn asks(
    l0: LookupView,
    g0: GeneratorView,
    tm0: TimerView<ScheduledTaskCheck>,
    t0: TableView,
    l1: LookupView,
    g1: GeneratorView,
    tm1: TimerView<ScheduledTaskCheck>,
    t1: TableView,
    queries: Seq<Outgoing>,
    node_id: NodeId,
    action_bits: u64,
    now: u64,
) -> bool {
    let budget = room(l0.candidates);
    let deadline = deadline_after(now, LOOKUP_TIMEOUT);
    let ids = asked_ids(l0.candidates, l1.candidates, budget);
    let handles = asked_handles(l0.candidates, budget);
    &&& l1 == (LookupView { candidates: l1.candidates, ..l0 })
    &&& dispatched(l0.candidates, l1.candidates, budget, deadline, tm0.next_id)
    &&& ids.len() == handles.len()
    &&& queries.len() == handles.len()
    &&& forall|k: int|
        0 <= k < queries.len() ==> (#[trigger] queries[k])@ == (
            handles[k].addr,
            get_peers_query(ids[k]@, node_id, l0.target),
        )
    &&& forall|k: int|
        0 <= k < ids.len() ==> (#[trigger] ids[k]).value_spec() / MAX_MESSAGE_ID == action_bits
            / MAX_MESSAGE_ID
    &&& tm1 == lookups_scheduled(tm0, ids, deadline)
    &&& t1 == requests_recorded(t0, handles, now)
    &&& exists|states: Seq<GeneratorView>|
        states[0] == g0 && states.last() == g1 && is_trace(states, message_ids(ids), MAX_MESSAGE_ID)
}

/// Whether a lookup in state `l0`, with generator state `g0` and timer
/// `tm0`, may look at `now` whether its last round is due, end up in `l1`
/// with `g1` and `tm1`, and hand `queries` to the caller.
///
/// The last round is due when no query is in flight and the round was not
/// entered before. Then every candidate that has answered gets one more
/// `get_peers` query, and the end of the round is scheduled.
pub open spec fn ends(
    l0: LookupView,
    g0: GeneratorView,
    tm0: TimerView<ScheduledTaskCheck>,
    l1: LookupView,
    g1: GeneratorView,
    tm1: TimerView<ScheduledTaskCheck>,
    queries: Seq<Outgoing>,
    node_id: NodeId,
    action_bits: u64,
    now: u64,
) -> bool {
    if in_flight(l0.candidates) == 0 && !l0.endgame {
        let handles = responded_handles(l0.candidates);
        &&& l1 == (LookupView { endgame: true, endgame_queries: l1.endgame_queries, ..l0 })
        &&& l1.endgame_queries.len() == handles.len() + 1
        &&& queries.len() == handles.len()
        &&& forall|k: int|
            0 <= k < queries.len() ==> (#[trigger] queries[k])@ == (
                handles[k].addr,
                get_peers_query(l1.endgame_queries[k]@, node_id, l0.target),
            )
        &&& forall|k: int|
            0 <= k < l1.endgame_queries.len() ==> (#[trigger] l1.endgame_queries[k]).value_spec()
                / MAX_MESSAGE_ID == action_bits / MAX_MESSAGE_ID
        &&& tm1 == scheduled(
            tm0,
            deadline_after(now, ENDGAME_TIMEOUT),
            ScheduledTaskCheck::LookupEndGame(l1.endgame_queries.last()),
        )
        &&& exists|states: Seq<GeneratorView>|
            states[0] == g0 && states.last() == g1 && is_trace(
                states,
                message_ids(l1.endgame_queries),
                MAX_MESSAGE_ID,
            )
    } else {
        &&& l1 == l0
        &&& g1 == g0
        &&& tm1 == tm0
        &&& queries.len() == 0
    }
}

/// The candidates that have answered with a token, each with its token,
/// closest first: those that an announce goes to.
pub open spec fn announce_targets(candidates: Seq<CandidateView>) -> Seq<(NodeHandle, Seq<u8>)>
    decreases candidates.len(),
{
    if candidates.len() == 0 {
        Seq::empty()
    } else if candidates.last().status == QueryStatus::Responded && candidates.last().token
        is Some {
        announce_targets(candidates.drop_last()).push(
            (candidates.last().handle, candidates.last().token->0),
        )
    } else {
        announce_targets(candidates.drop_last())
    }
}

/// Learning of the nodes of two lists is learning of those of the first
/// and then of those of the second.
pub proof fn lemma_with_contacts_add(
    candidates: Seq<CandidateView>,
    a: Seq<NodeHandle>,
    b: Seq<NodeHandle>,
    target: InfoHash,
)
    ensures
        with_contacts(candidates, a + b, target) == with_contacts(
            with_contacts(candidates, a, target),
            b,
            target,
        ),
    decreases b.len(),
{
    if b.len() == 0 {
        assert(a + b =~= a);
    } else {
        assert((a + b).drop_last() =~= a + b.drop_last());
        assert((a + b).last() == b.last());
        lemma_with_contacts_add(candidates, a, b.drop_last(), target);
    }
}

impl TableLookup {
    /// Number of candidates in flight.
    fn count_in_flight(&self) -> (n: usize)
        ensures
            n == in_flight(self@.candidates),
            n <= self@.candidates.len(),
    {
        let mut n: usize = 0;
        let mut i: usize = 0;
        let ghost all = self@.candidates;
        assert(all.take(0) =~= Seq::<CandidateView>::empty());
        while i < self.candidates.len()
            invariant
                i <= self.candidates@.len(),
                all == self@.candidates,
                n == in_flight(all.take(i as int)),
                n <= i,
            decreases self.candidates@.len() - i,
        {
            proof {
                let next = all.take(i as int + 1);
                assert(next.drop_last() =~= all.take(i as int));
                assert(next.last() == self.candidates@[i as int]@);
            }
            match self.candidates[i].status {
                QueryStatus::InFlight => {
                    n = n + 1;
                },
                _ => {},
            }
            i += 1;
        }
        assert(all.take(self.candidates@.len() as int) =~= all);
        n
    }

    /// Index of the first candidate whose query has the given transaction
    /// id.
    fn find_query(&self, trans_id: &TransactionID) -> (index: usize)
        ensures
            index == query_index(self@.candidates, *trans_id, 0),
            index <= self@.candidates.len(),
    {
        let ghost all = self@.candidates;
        let mut i: usize = 0;
        while i < self.candidates.len()
            invariant
                i <= self.candidates@.len(),
                all == self@.candidates,
                query_index(all, *trans_id, 0) == query_index(all, *trans_id, i as int),
            decreases self.candidates@.len() - i,
        {
            assert(all[i as int] == self.candidates@[i as int]@);
            let found = match &self.candidates[i].query {
                Some(id) => id.same(trans_id),
                None => false,
            };
            if found {
                return i;
            }
            i += 1;
        }
        i
    }

    /// Adds the peers of `values` that were not reported yet to those
    /// reported, and returns them.
    fn report(&mut self, values: &Vec<SocketAddr>) -> (peers: Vec<SocketAddr>)
        ensures
            peers@ == new_peers(old(self)@.reported, values@),
            final(self)@ == (LookupView {
                reported: old(self)@.reported + peers@,
                ..old(self)@
            }),
            final(self).id_generator == old(self).id_generator,
            final(self).candidates == old(self).candidates,
            final(self).target == old(self).target,
    {
        let mut peers: Vec<SocketAddr> = Vec::new();
        let mut i: usize = 0;
        assert(values@.take(0) =~= Seq::<SocketAddr>::empty());
        while i < values.len()
            invariant
                i <= values@.len(),
                self.reported@ == old(self).reported@,
                peers@ == new_peers(self.reported@, values@.take(i as int)),
            decreases values@.len() - i,
        {
            proof {
                let next = values@.take(i as int + 1);
                assert(next.drop_last() =~= values@.take(i as int));
                assert(next.last() == values@[i as int]);
            }
            if !contains_addr(&self.reported, &values[i]) && !contains_addr(&peers, &values[i]) {
                peers.push(values[i]);
            }
            i += 1;
        }
        assert(values@.take(values@.len() as int) =~= values@);
        let mut k: usize = 0;
        while k < peers.len()
            invariant
                k <= peers@.len(),
                self.reported@ == old(self).reported@ + peers@.take(k as int),
                self.id_generator == old(self).id_generator,
                self.candidates == old(self).candidates,
                self@ == (LookupView { reported: self.reported@, ..old(self)@ }),
            decreases peers@.len() - k,
        {
            self.reported.push(peers[k]);
            assert(self.reported@ =~= old(self).reported@ + peers@.take(k as int + 1));
            k += 1;
        }
        assert(peers@.take(peers@.len() as int) =~= peers@);
        peers
    }

    /// Takes in the response to the query with the given transaction id:
    /// see `after_response`. Returns the peers to report: those of the
    /// response that were not reported before, each once.
    pub fn recv_response(
        &mut self,
        trans_id: &TransactionID,
        response: &Response,
        timer: &mut Timer<ScheduledTaskCheck>,
    ) -> (peers: Vec<SocketAddr>)
        requires
            old(self).wf(),
            old(timer).wf(),
        ensures
            final(self).wf(),
            final(timer).wf(),
            final(self).action_bits() == old(self).action_bits(),
            final(self).generator() == old(self).generator(),
            final(self)@ == after_response(old(self)@, *trans_id, response@),
            final(timer)@ == timer_after_response(old(self)@, old(timer)@, *trans_id),
            peers@ == if awaited(old(self)@, *trans_id) {
                new_peers(old(self)@.reported, response@.values)
            } else {
                Seq::empty()
            },
    {
        let ghost l0 = self@;
        let index = self.find_query(trans_id);
        let in_flight = index < self.candidates.len() && match self.candidates[index].status {
            QueryStatus::InFlight => true,
            _ => false,
        };
        if in_flight {
            assert(l0.candidates[index as int] == self.candidates@[index as int]@);
            let mut candidate = self.candidates.remove(index);
            match candidate.timeout {
                Some(timeout) => {
                    timer.cancel(timeout);
                },
                None => {},
            }
            candidate.status = QueryStatus::Responded;
            candidate.token = match &response.token {
                Some(token) => Some(copy_bytes(token)),
                None => None,
            };
            self.candidates.insert(index, candidate);
            proof {
                let answered = l0.candidates.update(
                    index as int,
                    CandidateView {
                        status: QueryStatus::Responded,
                        token: response@.token,
                        ..l0.candidates[index as int]
                    },
                );
                assert(self@.candidates =~= answered);
                assert forall|i: int, j: int| 0 <= i <= j < answered.len() implies distance(
                    self.target,
                    (#[trigger] answered[i]).handle.id,
                ) <= distance(self.target, (#[trigger] answered[j]).handle.id) by {
                    assert(answered[i].handle == l0.candidates[i].handle);
                    assert(answered[j].handle == l0.candidates[j].handle);
                }
            }
            self.add_contacts(&response.nodes_v4);
            self.add_contacts(&response.nodes_v6);
            self.report(&response.values)
        } else if self.has_endgame_query(trans_id) {
            self.report(&response.values)
        } else {
            Vec::new()
        }
    }

    /// Whether a query of the last round has the given transaction id.
    fn has_endgame_query(&self, trans_id: &TransactionID) -> (r: bool)
        ensures
            r == self@.endgame_queries.contains(*trans_id),
    {
        let mut i: usize = 0;
        while i < self.endgame_queries.len()
            invariant
                i <= self.endgame_queries@.len(),
                forall|j: int| 0 <= j < i ==> self.endgame_queries@[j] != *trans_id,
            decreases self.endgame_queries@.len() - i,
        {
            if self.endgame_queries[i].same(trans_id) {
                return true;
            }
            i += 1;
        }
        false
    }

    /// Takes in that the answer to the query with the given transaction id
    /// is overdue: see `after_timeout`.
    pub fn recv_timeout(&mut self, trans_id: &TransactionID)
        requires
            old(self).wf(),
        ensures
            final(self).wf(),
            final(self).action_bits() == old(self).action_bits(),
            final(self).generator() == old(self).generator(),
            final(self)@ == after_timeout(old(self)@, *trans_id),
    {
        let ghost l0 = self@;
        let index = self.find_query(trans_id);
        let in_flight = index < self.candidates.len() && match self.candidates[index].status {
            QueryStatus::InFlight => true,
            _ => false,
        };
        if in_flight {
            assert(l0.candidates[index as int] == self.candidates@[index as int]@);
            let mut candidate = self.candidates.remove(index);
            candidate.status = QueryStatus::TimedOut;
            self.candidates.insert(index, candidate);
            proof {
                let after = l0.candidates.update(
                    index as int,
                    CandidateView { status: QueryStatus::TimedOut, ..l0.candidates[index as int] },
                );
                assert(self@.candidates =~= after);
                assert forall|i: int, j: int| 0 <= i <= j < after.len() implies distance(
                    self.target,
                    (#[trigger] after[i]).handle.id,
                ) <= distance(self.target, (#[trigger] after[j]).handle.id) by {
                    assert(after[i].handle == l0.candidates[i].handle);
                    assert(after[j].handle == l0.candidates[j].handle);
                }
            }
        }
    }
}

/// Whether a lookup in state `l0` may end at the end of its last round,
/// end up in `l1` with generator state `g1`, and hand `queries` to the
/// caller: if it announces, every candidate that has answered with a token
/// gets an `announce_peer` query with that token.
pub open spec fn finishes(
    l0: LookupView,
    g0: GeneratorView,
    l1: LookupView,
    g1: GeneratorView,
    queries: Seq<Outgoing>,
    node_id: NodeId,
    now: u64,
) -> bool {
    if l0.endgame && !l0.done {
        let targets = if l0.announce {
            announce_targets(l0.candidates)
        } else {
            Seq::empty()
        };
        &&& l1 == (LookupView { done: true, ..l0 })
        &&& queries.len() == targets.len()
        &&& forall|k: int|
            0 <= k < queries.len() ==> {
                &&& (#[trigger] queries[k]).addr == targets[k].0.addr
                &&& queries[k].message@ == announce_peer_query(
                    queries[k].message@.transaction_id,
                    node_id,
                    l0.target,
                    l0.announce_port,
                    targets[k].1,
                )
                &&& queries[k].message@.transaction_id.len() == 8
            }
        &&& exists|states: Seq<GeneratorView>, ids: Seq<u64>|
            ids.len() == queries.len() && states[0] == g0 && states.last() == g1 && is_trace(
                states,
                ids,
                MAX_MESSAGE_ID,
            )
    } else {
        &&& l1 == l0
        &&& g1 == g0
        &&& queries.len() == 0
    }
}

/// The transaction ids of the candidates asked before the one at `n` do
/// not depend on the candidates from `n` on.
pub proof fn lemma_asked_ids_stable(
    c0: Seq<CandidateView>,
    a: Seq<CandidateView>,
    b: Seq<CandidateView>,
    n: int,
    budget: nat,
)
    requires
        0 <= n <= a.len(),
        a.len() == b.len(),
        forall|j: int| 0 <= j < n ==> a[j] == b[j],
    ensures
        asked_ids_upto(c0, a, n, budget) == asked_ids_upto(c0, b, n, budget),
    decreases n,
{
    if n > 0 {
        lemma_asked_ids_stable(c0, a, b, n - 1, budget);
    }
}

impl TableLookup {
    /// Asks the candidate at `index`, which was not asked yet: it gets a
    /// `get_peers` query under a new transaction id and half a second to
    /// answer, and the request is recorded in the table.
    fn ask_candidate(
        &mut self,
        index: usize,
        node_id: NodeId,
        table: &mut RoutingTable,
        timer: &mut Timer<ScheduledTaskCheck>,
        now: u64,
    ) -> (query: Outgoing)
        requires
            old(self).wf(),
            old(table).wf(),
            old(timer).wf(),
            index < old(self)@.candidates.len(),
        ensures
            final(self).wf(),
            final(table).wf(),
            final(timer).wf(),
            final(self).action_bits() == old(self).action_bits(),
            final(self)@ == (LookupView { candidates: final(self)@.candidates, ..old(self)@ }),
            final(self)@.candidates.len() == old(self)@.candidates.len(),
            final(self)@.candidates[index as int].query is Some,
            final(self)@.candidates[index as int].timeout is Some,
            final(self)@.candidates == old(self)@.candidates.update(
                index as int,
                CandidateView {
                    status: QueryStatus::InFlight,
                    query: final(self)@.candidates[index as int].query,
                    timeout: final(self)@.candidates[index as int].timeout,
                    ..old(self)@.candidates[index as int]
                },
            ),
            final(self)@.candidates[index as int].timeout->0@ == (
                deadline_after(now, LOOKUP_TIMEOUT),
                old(timer)@.next_id,
            ),
            final(timer)@ == scheduled(
                old(timer)@,
                deadline_after(now, LOOKUP_TIMEOUT),
                lookup_check(final(self)@.candidates[index as int].query->0),
            ),
            final(table)@ == table_local_request(
                old(table)@,
                old(self)@.candidates[index as int].handle,
                now,
            ),
            query@ == (
                old(self)@.candidates[index as int].handle.addr,
                get_peers_query(
                    final(self)@.candidates[index as int].query->0@,
                    node_id,
                    old(self)@.target,
                ),
            ),
            final(self)@.candidates[index as int].query->0.value_spec() / MAX_MESSAGE_ID == old(
                self,
            ).action_bits() / MAX_MESSAGE_ID,
            issues(
                old(self).generator(),
                final(self)@.candidates[index as int].query->0.value_spec() % MAX_MESSAGE_ID,
                final(self).generator(),
                MAX_MESSAGE_ID,
            ),
    {
        let ghost before = self@.candidates;
        assert(before[index as int] == self.candidates@[index as int]@);
        let trans_id = self.id_generator.generate();
        let timeout = timer.schedule_in(
            LOOKUP_TIMEOUT,
            ScheduledTaskCheck::LookupTimeout(trans_id),
            now,
        );
        let mut candidate = self.candidates.remove(index);
        let handle = candidate.handle;
        candidate.status = QueryStatus::InFlight;
        candidate.query = Some(trans_id);
        candidate.timeout = Some(timeout);
        self.candidates.insert(index, candidate);
        table.local_request(&handle, now);
        let message = Message::get_peers(trans_id.to_vec(), node_id, self.target);
        proof {
            let after = self@.candidates;
            assert(after =~= before.update(
                index as int,
                CandidateView {
                    status: QueryStatus::InFlight,
                    query: Some(trans_id),
                    timeout: Some(timeout),
                    ..before[index as int]
                },
            ));
            assert forall|a: int, b: int| 0 <= a <= b < after.len() implies distance(
                self.target,
                (#[trigger] after[a]).handle.id,
            ) <= distance(self.target, (#[trigger] after[b]).handle.id) by {
                assert(after[a].handle == before[a].handle);
                assert(after[b].handle == before[b].handle);
            }
        }
        Outgoing { addr: handle.addr, message }
    }

    /// Asks the next nodes: see `asks`.
    #[verifier::rlimit(60)]
    pub fn next_queries(
        &mut self,
        node_id: NodeId,
        table: &mut RoutingTable,
        timer: &mut Timer<ScheduledTaskCheck>,
        now: u64,
    ) -> (queries: Vec<Outgoing>)
        requires
            old(self).wf(),
            old(table).wf(),
            old(timer).wf(),
        ensures
            final(self).wf(),
            final(table).wf(),
            final(timer).wf(),
            final(self).action_bits() == old(self).action_bits(),
            asks(
                old(self)@,
                old(self).generator(),
                old(timer)@,
                old(table)@,
                final(self)@,
                final(self).generator(),
                final(timer)@,
                final(table)@,
                queries@,
                node_id,
                old(self).action_bits(),
                now,
            ),
    {
        let ghost c0 = self@.candidates;
        let ghost tm0 = timer@;
        let ghost t0 = table@;
        let ghost g0 = self.id_generator@;
        let ghost target = self@.target;
        let flying = self.count_in_flight();
        let budget: usize = if flying < LOOKUP_CONCURRENCY {
            LOOKUP_CONCURRENCY - flying
        } else {
            0
        };
        let ghost deadline = deadline_after(now, LOOKUP_TIMEOUT);
        let mut queries: Vec<Outgoing> = Vec::new();
        let mut used: usize = 0;
        let ghost mut ids: Seq<TransactionID> = Seq::empty();
        let ghost mut handles: Seq<NodeHandle> = Seq::empty();
        let ghost mut states: Seq<GeneratorView> = seq![g0];
        let mut i: usize = 0;
        proof {
            assert(c0.take(0) =~= Seq::<CandidateView>::empty());
            assert(message_ids(ids) =~= Seq::<u64>::empty());
        }
        while i < self.candidates.len()
            invariant
                i <= self.candidates@.len(),
                self.wf(),
                table.wf(),
                timer.wf(),
                self.action_bits() == old(self).action_bits(),
                c0 == old(self)@.candidates,
                tm0 == old(timer)@,
                t0 == old(table)@,
                g0 == old(self).generator(),
                target == old(self)@.target,
                budget == room(c0),
                deadline == deadline_after(now, LOOKUP_TIMEOUT),
                self@ == (LookupView { candidates: self@.candidates, ..old(self)@ }),
                self@.candidates.len() == c0.len(),
                used == asked_before(c0, i as int, budget as nat),
                used <= budget,
                used <= i,
                forall|j: int|
                    0 <= j < i ==> if asked(c0, j, budget as nat) {
                        &&& (#[trigger] self@.candidates[j]).query is Some
                        &&& self@.candidates[j].timeout is Some
                        &&& self@.candidates[j].timeout->0@ == (
                            deadline,
                            nth_following(tm0.next_id, asked_before(c0, j, budget as nat)),
                        )
                        &&& self@.candidates[j] == (CandidateView {
                            status: QueryStatus::InFlight,
                            query: self@.candidates[j].query,
                            timeout: self@.candidates[j].timeout,
                            ..c0[j]
                        })
                    } else {
                        self@.candidates[j] == c0[j]
                    },
                forall|j: int| i <= j < c0.len() ==> #[trigger] self@.candidates[j] == c0[j],
                ids == asked_ids_upto(c0, self@.candidates, i as int, budget as nat),
                handles == asked_handles_upto(c0, i as int, budget as nat),
                ids.len() == used,
                handles.len() == used,
                queries@.len() == used,
                forall|k: int|
                    0 <= k < used ==> (#[trigger] queries@[k])@ == (
                        handles[k].addr,
                        get_peers_query(ids[k]@, node_id, target),
                    ),
                forall|k: int|
                    0 <= k < used ==> (#[trigger] ids[k]).value_spec() / MAX_MESSAGE_ID == old(
                        self,
                    ).action_bits() / MAX_MESSAGE_ID,
                timer@ == lookups_scheduled(tm0, ids, deadline),
                timer@.next_id == nth_following(tm0.next_id, used as nat),
                table@ == requests_recorded(t0, handles, now),
                states[0] == g0,
                states.last() == self.generator(),
                is_trace(states, message_ids(ids), MAX_MESSAGE_ID),
            decreases self.candidates@.len() - i,
        {
            let ghost before = self@.candidates;
            proof {
                assert(before[i as int] == c0[i as int]);
                assert(before[i as int] == self.candidates@[i as int]@);
            }
            let not_queried = match self.candidates[i].status {
                QueryStatus::NotQueried => true,
                _ => false,
            };
            if not_queried && used < budget {
                let ghost old_queries = queries@;
                let query = self.ask_candidate(i, node_id, table, timer, now);
                queries.push(query);
                proof {
                    let after = self@.candidates;
                    let trans_id = after[i as int].query->0;
                    let handle = c0[i as int].handle;
                    lemma_asked_ids_stable(c0, before, after, i as int, budget as nat);
                    lemma_requests_recorded_push(t0, handles, handle, now);
                    lemma_message_ids_push(ids, trans_id);
                    lemma_trace_push(
                        states,
                        message_ids(ids),
                        self.generator(),
                        (trans_id.value_spec() % MAX_MESSAGE_ID) as u64,
                        MAX_MESSAGE_ID,
                    );
                    assert(ids.push(trans_id).drop_last() =~= ids);
                    assert forall|k: int| 0 <= k < used + 1 implies (#[trigger] queries@[k])@ == (
                        handles.push(handle)[k].addr,
                        get_peers_query(ids.push(trans_id)[k]@, node_id, target),
                    ) by {
                        if k < used {
                            assert(queries@[k] == old_queries[k]);
                        }
                    }
                    assert forall|k: int| 0 <= k < used + 1 implies (#[trigger] ids.push(
                        trans_id,
                    )[k]).value_spec() / MAX_MESSAGE_ID == old(self).action_bits()
                        / MAX_MESSAGE_ID by {
                        if k < used {
                            assert(ids.push(trans_id)[k] == ids[k]);
                        }
                    }
                    assert forall|j: int| 0 <= j < i + 1 implies if asked(c0, j, budget as nat) {
                        &&& (#[trigger] after[j]).query is Some
                        &&& after[j].timeout is Some
                        &&& after[j].timeout->0@ == (
                            deadline,
                            nth_following(tm0.next_id, asked_before(c0, j, budget as nat)),
                        )
                        &&& after[j] == (CandidateView {
                            status: QueryStatus::InFlight,
                            query: after[j].query,
                            timeout: after[j].timeout,
                            ..c0[j]
                        })
                    } else {
                        after[j] == c0[j]
                    } by {
                        if j < i {
                            assert(after[j] == before[j]);
                        }
                    }
                    states = states.push(self.generator());
                    ids = ids.push(trans_id);
                    handles = handles.push(handle);
                }
                used = used + 1;
            }
            i += 1;
        }
        queries
    }

    /// Enters the last round if it is due: see `ends`.
    pub fn enter_endgame(
        &mut self,
        node_id: NodeId,
        timer: &mut Timer<ScheduledTaskCheck>,
        now: u64,
    ) -> (queries: Vec<Outgoing>)
        requires
            old(self).wf(),
            old(timer).wf(),
        ensures
            final(self).wf(),
            final(timer).wf(),
            final(self).action_bits() == old(self).action_bits(),
            ends(
                old(self)@,
                old(self).generator(),
                old(timer)@,
                final(self)@,
                final(self).generator(),
                final(timer)@,
                queries@,
                node_id,
                old(self).action_bits(),
                now,
            ),
    {
        let mut queries: Vec<Outgoing> = Vec::new();
        if self.endgame || self.count_in_flight() != 0 {
            return queries;
        }
        let ghost all = self@.candidates;
        let mut targets: Vec<NodeHandle> = Vec::new();
        let mut i: usize = 0;
        assert(all.take(0) =~= Seq::<CandidateView>::empty());
        while i < self.candidates.len()
            invariant
                i <= self.candidates@.len(),
                all == self@.candidates,
                targets@ == responded_handles(all.take(i as int)),
                targets@.len() <= i,
            decreases self.candidates@.len() - i,
        {
            proof {
                let next = all.take(i as int + 1);
                assert(next.drop_last() =~= all.take(i as int));
                assert(next.last() == self.candidates@[i as int]@);
            }
            match self.candidates[i].status {
                QueryStatus::Responded => {
                    targets.push(self.candidates[i].handle);
                },
                _ => {},
            }
            i += 1;
        }
        assert(all.take(self.candidates@.len() as int) =~= all);
        let ids = self.id_generator.generate_many(targets.len() + 1);
        let mut k: usize = 0;
        while k < targets.len()
            invariant
                k <= targets@.len(),
                ids@.len() == targets@.len() + 1,
                queries@.len() == k,
                forall|j: int|
                    0 <= j < k ==> (#[trigger] queries@[j])@ == (
                        targets@[j].addr,
                        get_peers_query(ids@[j]@, node_id, self.target),
                    ),
            decreases targets@.len() - k,
        {
            let message = Message::get_peers(ids[k].to_vec(), node_id, self.target);
            queries.push(Outgoing { addr: targets[k].addr, message });
            k += 1;
        }
        timer.schedule_in(
            ENDGAME_TIMEOUT,
            ScheduledTaskCheck::LookupEndGame(ids[targets.len()]),
            now,
        );
        self.endgame = true;
        self.endgame_queries = ids;
        queries
    }

    /// Ends the lookup at the end of its last round: see `finishes`.
    pub fn recv_endgame(&mut self, node_id: NodeId, now: u64) -> (queries: Vec<Outgoing>)
        requires
            old(self).wf(),
        ensures
            final(self).wf(),
            final(self).action_bits() == old(self).action_bits(),
            finishes(
                old(self)@,
                old(self).generator(),
                final(self)@,
                final(self).generator(),
                queries@,
                node_id,
                now,
            ),
    {
        let mut queries: Vec<Outgoing> = Vec::new();
        if !self.endgame || self.done {
            return queries;
        }
        self.done = true;
        let ghost g0 = self.id_generator@;
        if !self.announce {
            proof {
                let states = seq![g0];
                let ids = Seq::<u64>::empty();
                assert(states[0] == g0 && states.last() == g0 && is_trace(
                    states,
                    ids,
                    MAX_MESSAGE_ID,
                ));
            }
            return queries;
        }
        let ghost all = self@.candidates;
        let ghost mut states: Seq<GeneratorView> = seq![g0];
        let ghost mut ids: Seq<u64> = Seq::empty();
        let mut i: usize = 0;
        assert(all.take(0) =~= Seq::<CandidateView>::empty());
        while i < self.candidates.len()
            invariant
                i <= self.candidates@.len(),
                self.wf(),
                self.action_bits() == old(self).action_bits(),
                all == self@.candidates,
                self@ == (LookupView { done: true, ..old(self)@ }),
                queries@.len() == announce_targets(all.take(i as int)).len(),
                forall|k: int|
                    0 <= k < queries@.len() ==> {
                        &&& (#[trigger] queries@[k]).addr == announce_targets(
                            all.take(i as int),
                        )[k].0.addr
                        &&& queries@[k].message@ == announce_peer_query(
                            queries@[k].message@.transaction_id,
                            node_id,
                            self.target,
                            self.announce_port,
                            announce_targets(all.take(i as int))[k].1,
                        )
                        &&& queries@[k].message@.transaction_id.len() == 8
                    },
                ids.len() == queries@.len(),
                states[0] == g0,
                states.last() == self.id_generator@,
                is_trace(states, ids, MAX_MESSAGE_ID),
            decreases self.candidates@.len() - i,
        {
            proof {
                let next = all.take(i as int + 1);
                assert(next.drop_last() =~= all.take(i as int));
                assert(next.last() == self.candidates@[i as int]@);
            }
            let responded = match self.candidates[i].status {
                QueryStatus::Responded => true,
                _ => false,
            };
            let token = match &self.candidates[i].token {
                Some(token) => Some(copy_bytes(token)),
                None => None,
            };
            if responded && token.is_some() {
                let handle = self.candidates[i].handle;
                let ghost old_states = states;
                let ghost old_ids = ids;
                let ghost old_queries = queries@;
                let trans_id = self.id_generator.generate();
                let message = Message::announce_peer(
                    trans_id.to_vec(),
                    node_id,
                    self.target,
                    self.announce_port,
                    token.unwrap(),
                );
                queries.push(Outgoing { addr: handle.addr, message });
                proof {
                    TransactionID::lemma_view(trans_id, trans_id);
                    states = states.push(self.id_generator@);
                    ids = ids.push((trans_id.value_spec() % MAX_MESSAGE_ID) as u64);
                    assert forall|k: int| 0 <= k < ids.len() implies crate::transaction::issues(
                        #[trigger] states[k],
                        ids[k],
                        states[k + 1],
                        MAX_MESSAGE_ID,
                    ) by {
                        if k < old_ids.len() {
                            assert(crate::transaction::issues(
                                old_states[k],
                                old_ids[k],
                                old_states[k + 1],
                                MAX_MESSAGE_ID,
                            ));
                        }
                    }
                    assert forall|k: int| 0 <= k < queries@.len() implies {
                        &&& (#[trigger] queries@[k]).addr == announce_targets(
                            all.take(i as int + 1),
                        )[k].0.addr
                        &&& queries@[k].message@ == announce_peer_query(
                            queries@[k].message@.transaction_id,
                            node_id,
                            self.target,
                            self.announce_port,
                            announce_targets(all.take(i as int + 1))[k].1,
                        )
                        &&& queries@[k].message@.transaction_id.len() == 8
                    } by {
                        if k < old_queries.len() {
                            assert(queries@[k] == old_queries[k]);
                        }
                    }
                }
            }
            i += 1;
        }
        assert(all.take(self.candidates@.len() as int) =~= all);
        queries
    }
}

/// Whether the lookup in state `l0`, with the generator `g0`, the timer
/// `tm0` and the table `t0`, may go on at `now` after an event, end up in
/// state `l1` with `g1`, `tm1` and `t1`, and send `queries`: it asks the
/// next nodes, see `asks`, and then enters the last round if it is due,
/// see `ends`; the queries to the next nodes come first.
pub open spec fn goes_on(
    l0: LookupView,
    g0: GeneratorView,
    tm0: TimerView<ScheduledTaskCheck>,
    t0: TableView,
    l1: LookupView,
    g1: GeneratorView,
    tm1: TimerView<ScheduledTaskCheck>,
    t1: TableView,
    queries: Seq<Outgoing>,
    node_id: NodeId,
    action_bits: u64,
    now: u64,
) -> bool {
    exists|
        lm: LookupView,
        gm: GeneratorView,
        tmm: TimerView<ScheduledTaskCheck>,
        first: Seq<Outgoing>,
        second: Seq<Outgoing>,
    |
        {
            &&& #[trigger] asks(l0, g0, tm0, t0, lm, gm, tmm, t1, first, node_id, action_bits, now)
            &&& #[trigger] ends(lm, gm, tmm, l1, g1, tm1, second, node_id, action_bits, now)
            &&& queries == first + second
        }
}

impl TableLookup {
    /// Goes on with the lookup after an event: asks the next nodes, see
    /// `asks`, and then enters the last round if it is due, see `ends`. The
    /// queries of both are returned, those to the next nodes first.
    pub fn advance(
        &mut self,
        node_id: NodeId,
        table: &mut RoutingTable,
        timer: &mut Timer<ScheduledTaskCheck>,
        now: u64,
    ) -> (queries: Vec<Outgoing>)
        requires
            old(self).wf(),
            old(table).wf(),
            old(timer).wf(),
        ensures
            final(self).wf(),
            final(table).wf(),
            final(timer).wf(),
            final(self).action_bits() == old(self).action_bits(),
            goes_on(
                old(self)@,
                old(self).generator(),
                old(timer)@,
                old(table)@,
                final(self)@,
                final(self).generator(),
                final(timer)@,
                final(table)@,
                queries@,
                node_id,
                old(self).action_bits(),
                now,
            ),
    {
        let mut queries = self.next_queries(node_id, table, timer, now);
        let ghost lm = self@;
        let ghost gm = self.generator();
        let ghost tmm = timer@;
        let ghost first = queries@;
        let mut more = self.enter_endgame(node_id, timer, now);
        let ghost second = more@;
        queries.append(&mut more);
        proof {
            assert(asks(
                old(self)@,
                old(self).generator(),
                old(timer)@,
                old(table)@,
                lm,
                gm,
                tmm,
                table@,
                first,
                node_id,
                old(self).action_bits(),
                now,
            ) && ends(
                lm,
                gm,
                tmm,
                self@,
                self.generator(),
                timer@,
                second,
                node_id,
                old(self).action_bits(),
                now,
            ) && queries@ == first + second);
        }
        queries
    }
}

} // verus!
