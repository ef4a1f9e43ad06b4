//! A node of the table and what is known of its liveness.

use vstd::prelude::*;
use crate::addr::SocketAddr;
use crate::id::NodeId;

verus! {

/// A node that answered within this many milliseconds is good.
pub const MAX_LAST_SEEN_MS: u64 = 900_000;

/// A node that was asked this often without an answer is bad.
pub const MAX_REFRESH_REQUESTS: usize = 2;

/// A node that was asked within this many milliseconds was asked recently.
pub const RECENT_REQUEST_MS: u64 = 30_000;

/// Liveness of a node, from worst to best.
#[derive(Copy, Clone, Debug, PartialEq, Eq, PartialOrd, Ord, Hash, Structural)]
pub enum NodeStatus {
    Bad,
    Questionable,
    Good,
}

impl NodeStatus {
    /// Place of the status in the order: 0 for bad, 1 for questionable, 2
    /// for good.
    pub open spec fn rank_spec(self) -> int {
        match self {
            NodeStatus::Bad => 0,
            NodeStatus::Questionable => 1,
            NodeStatus::Good => 2,
        }
    }

    /// Place of the status in the order.
    pub fn rank(self) -> (r: u8)
        ensures
            r == self.rank_spec(),
    {
        match self {
            NodeStatus::Bad => 0,
            NodeStatus::Questionable => 1,
            NodeStatus::Good => 2,
        }
    }
}

/// Identifier of a node and the address it is reached at.
#[derive(Copy, Clone, Debug, Hash)]
pub struct NodeHandle {
    pub id: NodeId,
    pub addr: SocketAddr,
}

impl NodeHandle {
    /// The handle made of an identifier and an address.
    pub fn new(id: NodeId, addr: SocketAddr) -> (handle: NodeHandle)
        ensures
            handle == (NodeHandle { id, addr }),
    {
        NodeHandle { id, addr }
    }

    /// Whether two handles have the same identifier and address.
    pub fn same(&self, other: &NodeHandle) -> (r: bool)
        ensures
            r == (*self == *other),
    {
        self.id.same(&other.id) && self.addr.same(&other.addr)
    }
}

impl PartialEq for NodeHandle {
    fn eq(&self, other: &NodeHandle) -> (r: bool) {
        self.same(other)
    }
}

impl vstd::std_specs::cmp::PartialEqSpecImpl for NodeHandle {
    open spec fn obeys_eq_spec() -> bool {
        true
    }

    open spec fn eq_spec(&self, other: &NodeHandle) -> bool {
        *self == *other
    }
}

impl Eq for NodeHandle {

}

/// What a node is, as a value: its handle, the times of the last request
/// from it, of its last response and of our last request to it, in
/// milliseconds, and the number of our requests it left unanswered.
pub struct NodeView {
    pub handle: NodeHandle,
    pub last_request: Option<u64>,
    pub last_response: Option<u64>,
    pub last_local_request: Option<u64>,
    pub refresh_requests: usize,
}

/// Milliseconds from `then` to `now`, zero if `then` is the later.
pub open spec fn elapsed(now: u64, then: u64) -> int {
    if now >= then {
        now - then
    } else {
        0
    }
}

/// The status at time `now` of a node with the given history.
pub open spec fn status_of(v: NodeView, now: u64) -> NodeStatus {
    match v.last_response {
        None => NodeStatus::Bad,
        Some(response) => {
            if elapsed(now, response) < MAX_LAST_SEEN_MS {
                NodeStatus::Good
            } else if v.refresh_requests >= MAX_REFRESH_REQUESTS {
                NodeStatus::Bad
            } else if v.last_request matches Some(request) && elapsed(now, request)
                < MAX_LAST_SEEN_MS {
                NodeStatus::Good
            } else {
                NodeStatus::Questionable
            }
        },
    }
}

/// Whether a node with the given history is good or questionable at `now`.
pub open spec fn ping_able(v: NodeView, now: u64) -> bool {
    status_of(v, now) != NodeStatus::Bad
}

/// The test for being good or questionable at `now`.
pub open spec fn ping_able_at(now: u64) -> spec_fn(NodeView) -> bool {
    |v: NodeView| ping_able(v, now)
}

/// The test for having the given status at `now`.
pub open spec fn has_status(status: NodeStatus, now: u64) -> spec_fn(NodeView) -> bool {
    |v: NodeView| status_of(v, now) == status
}

/// The test for being an entry of the node with the given handle.
pub open spec fn has_handle(handle: NodeHandle) -> spec_fn(NodeView) -> bool {
    |v: NodeView| v.handle == handle
}

/// The test for having, at `now`, a status that ranks below `rank`.
pub open spec fn ranks_below(rank: int, now: u64) -> spec_fn(NodeView) -> bool {
    |v: NodeView| status_of(v, now).rank_spec() < rank
}

/// The test for being good or questionable at `now` and sharing exactly
/// `bits` leading bits with the id `local`.
pub open spec fn ping_able_sharing(local: NodeId, bits: int, now: u64) -> spec_fn(NodeView) -> bool {
    |v: NodeView| ping_able(v, now) && crate::id::shared_prefix_bits(local, v.handle.id) == bits
}

/// The test for being good or questionable at `now` and an entry of the
/// node with the given handle.
pub open spec fn ping_able_with_handle(handle: NodeHandle, now: u64) -> spec_fn(NodeView) -> bool {
    |v: NodeView| ping_able(v, now) && v.handle == handle
}

/// Whether we sent the node with the given history a request less than 30
/// seconds before `now`.
pub open spec fn recently_asked(v: NodeView, now: u64) -> bool {
    v.last_local_request matches Some(t) && t + RECENT_REQUEST_MS > now
}

/// The test for being worth a query at `now`: questionable and, if
/// `skip_recent`, not asked recently.
pub open spec fn worth_asking(skip_recent: bool, now: u64) -> spec_fn(NodeView) -> bool {
    |v: NodeView|
        status_of(v, now) == NodeStatus::Questionable && !(skip_recent && recently_asked(v, now))
}

/// The first `limit` entries of `s` that meet `p`, in their order.
pub open spec fn first_matching(s: Seq<NodeView>, p: spec_fn(NodeView) -> bool, limit: nat) -> Seq<
    NodeView,
>
    decreases s.len(),
{
    if s.len() == 0 || limit == 0 {
        Seq::empty()
    } else if p(s[0]) {
        seq![s[0]] + first_matching(s.skip(1), p, (limit - 1) as nat)
    } else {
        first_matching(s.skip(1), p, limit)
    }
}

/// The handles of a sequence of entries.
pub open spec fn handles_of(s: Seq<NodeView>) -> Seq<NodeHandle> {
    Seq::new(s.len(), |i: int| s[i].handle)
}

/// The handles of the first `limit` of the given nodes that are worth a
/// query at `now`.
pub fn first_worth_asking(nodes: &Vec<Node>, limit: usize, skip_recent: bool, now: u64) -> (picked:
    Vec<NodeHandle>)
    ensures
        picked@ == handles_of(
            first_matching(views(nodes@), worth_asking(skip_recent, now), limit as nat),
        ),
        picked@.len() <= limit,
{
    let ghost all = views(nodes@);
    let ghost p = worth_asking(skip_recent, now);
    let ghost wanted = first_matching(all, p, limit as nat);
    let mut picked: Vec<NodeHandle> = Vec::new();
    let ghost mut taken: Seq<NodeView> = Seq::empty();
    let mut i: usize = 0;
    assert(all.skip(0) =~= all);
    while i < nodes.len() && picked.len() < limit
        invariant
            i <= nodes@.len(),
            all == views(nodes@),
            p == worth_asking(skip_recent, now),
            picked@.len() <= limit,
            picked@ == handles_of(taken),
            wanted == taken + first_matching(all.skip(i as int), p, (limit - picked@.len()) as nat),
        decreases nodes@.len() - i,
    {
        let node = nodes[i];
        proof {
            let rest = all.skip(i as int);
            assert(rest[0] == node@);
            assert(rest.skip(1) =~= all.skip(i as int + 1));
        }
        let worth = node.status(now).rank() == NodeStatus::Questionable.rank() && !(skip_recent
            && node.recently_requested_from(now));
        if worth {
            proof {
                let tail = first_matching(
                    all.skip(i as int + 1),
                    p,
                    (limit - picked@.len() - 1) as nat,
                );
                assert(taken + (seq![node@] + tail) =~= taken.push(node@) + tail);
                assert(handles_of(taken.push(node@)) =~= handles_of(taken).push(node@.handle));
                taken = taken.push(node@);
            }
            picked.push(*node.handle());
        }
        i += 1;
    }
    proof {
        let rest = first_matching(all.skip(i as int), p, (limit - picked@.len()) as nat);
        assert(rest =~= Seq::<NodeView>::empty());
        assert(taken + rest =~= taken);
    }
    picked
}

/// The histories of a sequence of nodes.
pub open spec fn views(nodes: Seq<Node>) -> Seq<NodeView> {
    Seq::new(nodes.len(), |i: int| nodes[i]@)
}

/// What becomes of an entry `old` of the table when the same node is seen
/// again as `new`, at time `now`.
///
/// A good entry takes over the response time of a good one, keeps what it
/// knows of requests and has no request unanswered; it learns nothing from
/// one that is not good. An entry that is not good is replaced by one that
/// is good or questionable. A bad one teaches nothing.
pub open spec fn updated(old: NodeView, new: NodeView, now: u64) -> NodeView {
    match (status_of(old, now), status_of(new, now)) {
        (NodeStatus::Good, NodeStatus::Good) => NodeView {
            handle: old.handle,
            last_response: new.last_response,
            last_request: old.last_request,
            last_local_request: old.last_local_request,
            refresh_requests: 0,
        },
        (NodeStatus::Good, _) => old,
        (_, NodeStatus::Bad) => old,
        (_, _) => new,
    }
}

/// What becomes of an entry when we send its node a request at `now`: the
/// time is recorded, and unless the node is good the request is counted as
/// unanswered, the count stopping at the largest number it can hold.
pub open spec fn after_local_request(v: NodeView, now: u64) -> NodeView {
    NodeView {
        last_local_request: Some(now),
        refresh_requests: if status_of(v, now) == NodeStatus::Good {
            v.refresh_requests
        } else if v.refresh_requests == usize::MAX {
            v.refresh_requests
        } else {
            (v.refresh_requests + 1) as usize
        },
        ..v
    }
}

/// A node of the table with its liveness.
#[derive(Copy, Clone, Debug)]
pub struct Node {
    handle: NodeHandle,
    last_request: Option<u64>,
    last_response: Option<u64>,
    last_local_request: Option<u64>,
    refresh_requests: usize,
}

impl View for Node {
    type V = NodeView;

    closed spec fn view(&self) -> NodeView {
        NodeView {
            handle: self.handle,
            last_request: self.last_request,
            last_response: self.last_response,
            last_local_request: self.last_local_request,
            refresh_requests: self.refresh_requests,
        }
    }
}

/// Milliseconds from `then` to `now`, zero if `then` is the later.
pub fn since(now: u64, then: u64) -> (d: u64)
    ensures
        d == elapsed(now, then),
{
    if now >= then {
        now - then
    } else {
        0
    }
}

impl Node {
    /// A node is its history: two with the same view are the same.
    pub proof fn lemma_view_determines(a: Node, b: Node)
        requires
            a@ == b@,
        ensures
            a == b,
    {
    }

    /// A node that responded to us at `now` and never sent us a request.
    pub fn as_good(id: NodeId, addr: SocketAddr, now: u64) -> (node: Node)
        ensures
            node@ == (NodeView {
                handle: NodeHandle { id, addr },
                last_request: None,
                last_response: Some(now),
                last_local_request: None,
                refresh_requests: 0,
            }),
            status_of(node@, now) == NodeStatus::Good,
    {
        Node {
            handle: NodeHandle { id, addr },
            last_response: Some(now),
            last_request: None,
            last_local_request: None,
            refresh_requests: 0,
        }
    }

    /// A node whose last response is so old at `now` that it is
    /// questionable, and which never sent us a request.
    pub fn as_questionable(id: NodeId, addr: SocketAddr, now: u64) -> (node: Node)
        requires
            now >= MAX_LAST_SEEN_MS,
        ensures
            node@ == (NodeView {
                handle: NodeHandle { id, addr },
                last_request: None,
                last_response: Some((now - MAX_LAST_SEEN_MS) as u64),
                last_local_request: None,
                refresh_requests: 0,
            }),
            status_of(node@, now) == NodeStatus::Questionable,
    {
        Node {
            handle: NodeHandle { id, addr },
            last_response: Some(now - MAX_LAST_SEEN_MS),
            last_request: None,
            last_local_request: None,
            refresh_requests: 0,
        }
    }

    /// A node that never responded to us: it is bad at any time.
    pub fn as_bad(id: NodeId, addr: SocketAddr) -> (node: Node)
        ensures
            node@ == (NodeView {
                handle: NodeHandle { id, addr },
                last_request: None,
                last_response: None,
                last_local_request: None,
                refresh_requests: 0,
            }),
            forall|now: u64| status_of(node@, now) == NodeStatus::Bad,
    {
        Node {
            handle: NodeHandle { id, addr },
            last_response: None,
            last_request: None,
            last_local_request: None,
            refresh_requests: 0,
        }
    }

    /// Takes in what `other` knows of the same node: a good entry only
    /// learns the response time of a good one, and any other entry gives
    /// way to one that is good or questionable. See `updated`.
    pub fn update(&mut self, other: Node, now: u64)
        requires
            old(self)@.handle == other@.handle,
        ensures
            final(self)@ == updated(old(self)@, other@, now),
    {
        let self_status = self.status(now);
        let other_status = other.status(now);
        match (self_status, other_status) {
            (NodeStatus::Good, NodeStatus::Good) => {
                self.last_response = other.last_response;
                self.refresh_requests = 0;
            },
            (NodeStatus::Good, _) => {},
            (_, NodeStatus::Bad) => {},
            (_, _) => {
                *self = other;
            },
        }
    }

    /// Records that we sent the node a request at `now`. If the node is not
    /// good then, the request counts as unanswered until it responds.
    pub fn local_request(&mut self, now: u64)
        ensures
            final(self)@ == after_local_request(old(self)@, now),
    {
        self.last_local_request = Some(now);
        if self.status(now).rank() != NodeStatus::Good.rank() {
            if self.refresh_requests < usize::MAX {
                self.refresh_requests = self.refresh_requests + 1;
            }
        }
    }

    /// Records that the node sent us a request at `now`.
    pub fn remote_request(&mut self, now: u64)
        ensures
            final(self)@ == (NodeView { last_request: Some(now), ..old(self)@ }),
    {
        self.last_request = Some(now);
    }

    /// Records that the node responded to us at `now`: nothing is left
    /// unanswered.
    pub fn remote_response(&mut self, now: u64)
        ensures
            final(self)@ == (NodeView {
                last_response: Some(now),
                refresh_requests: 0,
                ..old(self)@
            }),
    {
        self.last_response = Some(now);
        self.refresh_requests = 0;
    }

    /// Whether we sent the node a request less than 30 seconds before `now`.
    pub fn recently_requested_from(&self, now: u64) -> (r: bool)
        ensures
            r == recently_asked(self@, now),
    {
        match self.last_local_request {
            Some(time) => now < RECENT_REQUEST_MS || time > now - RECENT_REQUEST_MS,
            None => false,
        }
    }

    /// The identifier of the node.
    pub fn id(&self) -> (id: NodeId)
        ensures
            id == self@.handle.id,
    {
        self.handle.id
    }

    /// The address of the node.
    pub fn addr(&self) -> (addr: SocketAddr)
        ensures
            addr == self@.handle.addr,
    {
        self.handle.addr
    }

    /// The handle of the node.
    pub fn handle(&self) -> (handle: &NodeHandle)
        ensures
            *handle == self@.handle,
    {
        &self.handle
    }

    /// The status of the node at `now`.
    pub fn status(&self, now: u64) -> (status: NodeStatus)
        ensures
            status == status_of(self@, now),
    {
        let response = match self.last_response {
            Some(response) => response,
            None => {
                return NodeStatus::Bad;
            },
        };
        if since(now, response) < MAX_LAST_SEEN_MS {
            return NodeStatus::Good;
        }
        if self.refresh_requests >= MAX_REFRESH_REQUESTS {
            return NodeStatus::Bad;
        }
        if let Some(request) = self.last_request {
            if since(now, request) < MAX_LAST_SEEN_MS {
                return NodeStatus::Good;
            }
        }
        NodeStatus::Questionable
    }

    /// Whether the node is good or questionable at `now`.
    pub fn is_ping_able(&self, now: u64) -> (r: bool)
        ensures
            r == ping_able(self@, now),
    {
        self.status(now).rank() != NodeStatus::Bad.rank()
    }

    /// Whether two entries are of the same node: liveness is not compared.
    pub fn same_node(&self, other: &Node) -> (r: bool)
        ensures
            r == (self@.handle == other@.handle),
    {
        self.handle.same(&other.handle)
    }
}

impl PartialEq for Node {
    fn eq(&self, other: &Node) -> (r: bool) {
        self.same_node(other)
    }
}

impl vstd::std_specs::cmp::PartialEqSpecImpl for Node {
    open spec fn obeys_eq_spec() -> bool {
        true
    }

    open spec fn eq_spec(&self, other: &Node) -> bool {
        self@.handle == other@.handle
    }
}

impl Eq for Node {

}

} // verus!
