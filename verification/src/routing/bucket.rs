//! A bucket: eight slots for nodes that share a prefix with the local id.

use vstd::prelude::*;
use crate::addr::{IpAddr, SocketAddr};
use crate::id::{Id, NodeId, ID_LEN};
use crate::routing::node::{
    has_handle, has_status, ping_able_at, ping_able_sharing, ping_able_with_handle, ranks_below,
    status_of, updated, views, Node, NodeHandle, NodeStatus, NodeView,
};

verus! {

/// Number of slots of a bucket.
pub const MAX_BUCKET_SIZE: usize = 8;

/// The entry that fills a slot no node has taken: it never responded, so it
/// is bad at any time.
pub open spec fn placeholder() -> NodeView {
    NodeView {
        handle: NodeHandle {
            id: Id::zero(),
            addr: SocketAddr { ip: IpAddr::V4([127, 0, 0, 1]), port: 0 },
        },
        last_request: None,
        last_response: None,
        last_local_request: None,
        refresh_requests: 0,
    }
}

/// Index of the first entry of `s` that `p` holds of, or the length of `s`
/// if it holds of none.
pub open spec fn first_index(s: Seq<NodeView>, p: spec_fn(NodeView) -> bool) -> int
    decreases s.len(),
{
    if s.len() == 0 {
        0
    } else if p(s[0]) {
        0
    } else {
        1 + first_index(s.skip(1), p)
    }
}

/// What `first_index` finds: an index within the length or the length, the
/// entry there meets `p`, and none before it does.
pub proof fn lemma_first_index(s: Seq<NodeView>, p: spec_fn(NodeView) -> bool)
    ensures
        0 <= first_index(s, p) <= s.len(),
        first_index(s, p) < s.len() ==> p(s[first_index(s, p)]),
        forall|j: int| 0 <= j < first_index(s, p) ==> !p(#[trigger] s[j]),
    decreases s.len(),
{
    if s.len() > 0 && !p(s[0]) {
        let t = s.skip(1);
        lemma_first_index(t, p);
        assert forall|j: int| 0 <= j < first_index(s, p) implies !p(#[trigger] s[j]) by {
            if j > 0 {
                assert(s[j] == t[j - 1]);
            }
        }
    }
}

/// An index whose entry meets `p` while none before it does is the first
/// index; if no entry meets `p`, the first index is the length.
pub proof fn lemma_first_index_is(s: Seq<NodeView>, p: spec_fn(NodeView) -> bool, i: int)
    requires
        0 <= i <= s.len(),
        forall|j: int| 0 <= j < i ==> !p(#[trigger] s[j]),
        i < s.len() ==> p(s[i]),
    ensures
        first_index(s, p) == i,
{
    lemma_first_index(s, p);
    let f = first_index(s, p);
    if f < i {
        assert(!p(s[f]));
    }
    if i < f {
        assert(!p(s[i]));
    }
}

/// The entries of a bucket after `new` was offered to it at `now`, and
/// whether the offer was taken care of.
///
/// A bad node is not stored. A node that has an entry already is merged into
/// the first such entry. Any other node takes the first slot whose entry has
/// a strictly lower status; if there is none the offer fails.
pub open spec fn bucket_add(s: Seq<NodeView>, new: NodeView, now: u64) -> (Seq<NodeView>, bool) {
    let same = first_index(s, has_handle(new.handle));
    let lower = first_index(s, ranks_below(status_of(new, now).rank_spec(), now));
    if status_of(new, now) == NodeStatus::Bad {
        (s, true)
    } else if same < s.len() {
        (s.update(same, updated(s[same], new, now)), true)
    } else if lower < s.len() {
        (s.update(lower, new), true)
    } else {
        (s, false)
    }
}

/// An offer to a bucket leaves the bucket with eight entries. An offer
/// that fails leaves all entries as they are, and no offer touches the
/// entry of a good node other than the one offered.
pub proof fn lemma_bucket_add(s: Seq<NodeView>, new: NodeView, now: u64)
    requires
        s.len() == MAX_BUCKET_SIZE,
    ensures
        bucket_add(s, new, now).0.len() == MAX_BUCKET_SIZE,
        !bucket_add(s, new, now).1 ==> bucket_add(s, new, now).0 == s,
        forall|i: int|
            0 <= i < MAX_BUCKET_SIZE && status_of(#[trigger] s[i], now) == NodeStatus::Good
                && s[i].handle != new.handle ==> bucket_add(s, new, now).0[i] == s[i],
{
    lemma_first_index(s, has_handle(new.handle));
    lemma_first_index(s, ranks_below(status_of(new, now).rank_spec(), now));
}

/// Whether each node has one entry at most: of the entries under one
/// handle only the first has ever responded, so that the others are
/// placeholders.
pub open spec fn one_entry_each(s: Seq<NodeView>) -> bool {
    forall|i: int, j: int|
        #![trigger s[i], s[j]]
        0 <= i < j < s.len() && s[i].handle == s[j].handle ==> s[j].last_response is None
}

/// An offer to a bucket in which each node has one entry at most leaves
/// such a bucket.
pub proof fn lemma_bucket_add_distinct(s: Seq<NodeView>, new: NodeView, now: u64)
    requires
        s.len() == MAX_BUCKET_SIZE,
        one_entry_each(s),
    ensures
        one_entry_each(bucket_add(s, new, now).0),
{
    lemma_first_index(s, has_handle(new.handle));
    lemma_first_index(s, ranks_below(status_of(new, now).rank_spec(), now));
    let after = bucket_add(s, new, now).0;
    let same = first_index(s, has_handle(new.handle));
    let lower = first_index(s, ranks_below(status_of(new, now).rank_spec(), now));
    assert forall|i: int, j: int|
        #![trigger after[i], after[j]]
        0 <= i < j < after.len() && after[i].handle == after[j].handle implies after[j].last_response is None by {
        if status_of(new, now) == NodeStatus::Bad {
            assert(after[i] == s[i] && after[j] == s[j]);
        } else if same < s.len() {
            assert(after[same].handle == new.handle);
            if j == same {
                assert(after[i] == s[i]);
                assert(has_handle(new.handle)(s[i]));
            } else if i == same {
                assert(after[j] == s[j]);
                assert(s[same].handle == s[j].handle);
            } else {
                assert(after[i] == s[i] && after[j] == s[j]);
            }
        } else if lower < s.len() {
            if j == lower {
                assert(after[i] == s[i]);
                assert(has_handle(new.handle)(s[i]));
            } else if i == lower {
                assert(after[j] == s[j]);
                assert(has_handle(new.handle)(s[j]));
            } else {
                assert(after[i] == s[i] && after[j] == s[j]);
            }
        }
    }
}

/// In a bucket in which each node has one entry at most, no two entries
/// that are good or questionable hold one handle.
pub proof fn lemma_distinct_handles(s: Seq<NodeView>, i: int, j: int, now: u64)
    requires
        one_entry_each(s),
        0 <= i < s.len(),
        0 <= j < s.len(),
        i != j,
        status_of(s[i], now) != NodeStatus::Bad,
        status_of(s[j], now) != NodeStatus::Bad,
    ensures
        s[i].handle != s[j].handle,
{
    if s[i].handle == s[j].handle {
        if i < j {
            assert(s[j].last_response is None);
        } else {
            assert(s[i].last_response is None);
        }
    }
}

/// Eight slots of nodes. A slot that no node has taken holds a placeholder.
///
/// The view of a bucket is the sequence of its eight entries.
#[derive(Copy, Clone, Debug)]
pub struct Bucket {
    nodes: [Node; MAX_BUCKET_SIZE],
}

impl View for Bucket {
    type V = Seq<NodeView>;

    closed spec fn view(&self) -> Seq<NodeView> {
        Seq::new(MAX_BUCKET_SIZE as nat, |i: int| self.nodes[i]@)
    }
}

impl Bucket {
    /// A bucket has eight entries.
    pub broadcast proof fn lemma_len(&self)
        ensures
            #[trigger] self@.len() == MAX_BUCKET_SIZE,
    {
    }

    /// A bucket holds at most eight nodes that are good or questionable.
    pub proof fn lemma_capacity(&self, now: u64)
        ensures
            self@.filter(ping_able_at(now)).len() <= MAX_BUCKET_SIZE,
    {
        self@.lemma_filter_len(ping_able_at(now));
    }

    /// A bucket is its entries: two with the same view are the same.
    pub proof fn lemma_view_determines(a: Bucket, b: Bucket)
        requires
            a@ == b@,
        ensures
            a == b,
    {
        assert forall|i: int| 0 <= i < MAX_BUCKET_SIZE implies a.nodes[i] == b.nodes[i] by {
            assert(a@[i] == a.nodes[i]@);
            assert(b@[i] == b.nodes[i]@);
            Node::lemma_view_determines(a.nodes[i], b.nodes[i]);
        }
        assert(a.nodes =~= b.nodes);
    }

    /// A bucket of placeholders.
    pub fn new() -> (bucket: Bucket)
        ensures
            bucket@ == Seq::new(MAX_BUCKET_SIZE as nat, |i: int| placeholder()),
            one_entry_each(bucket@),
    {
        let id = NodeId::new([0u8; ID_LEN]);
        let addr = SocketAddr::v4(127, 0, 0, 1, 0);
        let bad = Node::as_bad(id, addr);
        let bucket = Bucket { nodes: [bad, bad, bad, bad, bad, bad, bad, bad] };
        proof {
            assert(id@ =~= Seq::new(ID_LEN as nat, |i: int| 0u8));
            id.lemma_is_from_view();
            assert(bad@ == placeholder());
            assert(bucket@ =~= Seq::new(MAX_BUCKET_SIZE as nat, |i: int| placeholder()));
        }
        bucket
    }

    /// The entry in slot `index`.
    pub fn get(&self, index: usize) -> (node: Node)
        requires
            index < MAX_BUCKET_SIZE,
        ensures
            node@ == self@[index as int],
    {
        self.nodes[index]
    }

    /// The eight entries in the order of their slots, placeholders included.
    pub fn iter(&self) -> (nodes: Vec<Node>)
        ensures
            nodes@.len() == MAX_BUCKET_SIZE,
            forall|i: int| 0 <= i < MAX_BUCKET_SIZE ==> (#[trigger] nodes@[i])@ == self@[i],
    {
        let mut nodes: Vec<Node> = Vec::new();
        let mut i: usize = 0;
        while i < MAX_BUCKET_SIZE
            invariant
                i <= MAX_BUCKET_SIZE,
                nodes@.len() == i,
                forall|j: int| 0 <= j < i ==> (#[trigger] nodes@[j])@ == self@[j],
            decreases MAX_BUCKET_SIZE - i,
        {
            nodes.push(self.nodes[i]);
            i += 1;
        }
        nodes
    }

    /// The entries that are good or questionable at `now`, in the order of
    /// their slots.
    pub fn ping_able_nodes(&self, now: u64) -> (nodes: Vec<Node>)
        ensures
            views(nodes@) == self@.filter(ping_able_at(now)),
    {
        let ghost keep = ping_able_at(now);
        let mut nodes: Vec<Node> = Vec::new();
        let mut i: usize = 0;
        assert(self@.take(0) =~= Seq::<NodeView>::empty());
        assert(views(nodes@) =~= Seq::<NodeView>::empty());
        while i < MAX_BUCKET_SIZE
            invariant
                i <= MAX_BUCKET_SIZE,
                keep == ping_able_at(now),
                views(nodes@) == self@.take(i as int).filter(keep),
            decreases MAX_BUCKET_SIZE - i,
        {
            let node = self.nodes[i];
            proof {
                let before = self@.take(i as int);
                assert(self@.take(i as int + 1) =~= before.push(node@));
                before.lemma_filter_push(node@, keep);
            }
            if node.is_ping_able(now) {
                assert(views(nodes@.push(node)) =~= views(nodes@).push(node@));
                nodes.push(node);
            }
            i += 1;
        }
        assert(self@.take(MAX_BUCKET_SIZE as int) =~= self@);
        nodes
    }

    /// Whether no entry is good at `now`.
    pub fn needs_refresh(&self, now: u64) -> (r: bool)
        ensures
            r == (forall|i: int|
                0 <= i < MAX_BUCKET_SIZE ==> status_of(#[trigger] self@[i], now)
                    != NodeStatus::Good),
    {
        let mut i: usize = 0;
        while i < MAX_BUCKET_SIZE
            invariant
                i <= MAX_BUCKET_SIZE,
                forall|j: int| 0 <= j < i ==> status_of(#[trigger] self@[j], now) != NodeStatus::Good,
            decreases MAX_BUCKET_SIZE - i,
        {
            if self.nodes[i].status(now).rank() == NodeStatus::Good.rank() {
                assert(status_of(self@[i as int], now) == NodeStatus::Good);
                return false;
            }
            i += 1;
        }
        true
    }

    /// Offers a node to the bucket at `now`. Returns false if the node is
    /// not bad, has no entry yet and no slot holds an entry of lower status:
    /// the bucket is then unchanged.
    pub fn add_node(&mut self, new_node: Node, now: u64) -> (added: bool)
        ensures
            (final(self)@, added) == bucket_add(old(self)@, new_node@, now),
            !added ==> final(self)@ == old(self)@,
            forall|i: int|
                0 <= i < MAX_BUCKET_SIZE && status_of(#[trigger] old(self)@[i], now)
                    == NodeStatus::Good && old(self)@[i].handle != new_node@.handle
                    ==> final(self)@[i] == old(self)@[i],
            one_entry_each(old(self)@) ==> one_entry_each(final(self)@),
    {
        let ghost before = self@;
        let ghost same_handle = has_handle(new_node@.handle);
        let ghost lower = ranks_below(status_of(new_node@, now).rank_spec(), now);
        let new_rank = new_node.status(now).rank();
        if new_rank == NodeStatus::Bad.rank() {
            return true;
        }
        let mut i: usize = 0;
        while i < MAX_BUCKET_SIZE
            invariant
                i <= MAX_BUCKET_SIZE,
                self@ == before,
                before == old(self)@,
                before.len() == MAX_BUCKET_SIZE,
                new_rank == status_of(new_node@, now).rank_spec(),
                new_rank != 0,
                same_handle == has_handle(new_node@.handle),
                forall|j: int| 0 <= j < i ==> !same_handle(#[trigger] before[j]),
            decreases MAX_BUCKET_SIZE - i,
        {
            if self.nodes[i].same_node(&new_node) {
                proof {
                    lemma_first_index_is(before, same_handle, i as int);
                }
                let mut node = self.nodes[i];
                node.update(new_node, now);
                self.nodes[i] = node;
                assert(self@ =~= before.update(i as int, updated(before[i as int], new_node@, now)));
                proof {
                    if one_entry_each(before) {
                        lemma_bucket_add_distinct(before, new_node@, now);
                    }
                }
                return true;
            }
            i += 1;
        }
        proof {
            lemma_first_index_is(before, same_handle, MAX_BUCKET_SIZE as int);
        }
        let mut k: usize = 0;
        while k < MAX_BUCKET_SIZE
            invariant
                k <= MAX_BUCKET_SIZE,
                self@ == before,
                before == old(self)@,
                before.len() == MAX_BUCKET_SIZE,
                new_rank == status_of(new_node@, now).rank_spec(),
                new_rank != 0,
                first_index(before, has_handle(new_node@.handle)) == MAX_BUCKET_SIZE,
                lower == ranks_below(status_of(new_node@, now).rank_spec(), now),
                forall|j: int| 0 <= j < k ==> !lower(#[trigger] before[j]),
            decreases MAX_BUCKET_SIZE - k,
        {
            if self.nodes[k].status(now).rank() < new_rank {
                proof {
                    lemma_first_index_is(before, lower, k as int);
                }
                self.nodes[k] = new_node;
                assert(self@ =~= before.update(k as int, new_node@));
                proof {
                    if one_entry_each(before) {
                        lemma_bucket_add_distinct(before, new_node@, now);
                    }
                }
                return true;
            }
            k += 1;
        }
        proof {
            lemma_first_index_is(before, lower, MAX_BUCKET_SIZE as int);
        }
        false
    }

    /// The entries that have the given status at `now`, in the order of
    /// their slots.
    pub fn nodes_with_status(&self, status: NodeStatus, now: u64) -> (nodes: Vec<Node>)
        ensures
            views(nodes@) == self@.filter(has_status(status, now)),
            nodes@.len() <= MAX_BUCKET_SIZE,
    {
        let ghost keep = has_status(status, now);
        let mut nodes: Vec<Node> = Vec::new();
        let mut i: usize = 0;
        assert(self@.take(0) =~= Seq::<NodeView>::empty());
        assert(views(nodes@) =~= Seq::<NodeView>::empty());
        while i < MAX_BUCKET_SIZE
            invariant
                i <= MAX_BUCKET_SIZE,
                keep == has_status(status, now),
                views(nodes@) == self@.take(i as int).filter(keep),
                nodes@.len() <= i,
            decreases MAX_BUCKET_SIZE - i,
        {
            let node = self.nodes[i];
            proof {
                let before = self@.take(i as int);
                assert(self@.take(i as int + 1) =~= before.push(node@));
                before.lemma_filter_push(node@, keep);
            }
            if node.status(now).rank() == status.rank() {
                assert(views(nodes@.push(node)) =~= views(nodes@).push(node@));
                nodes.push(node);
            }
            i += 1;
        }
        assert(self@.take(MAX_BUCKET_SIZE as int) =~= self@);
        nodes
    }

    /// The entries that are good at `now`, in the order of their slots.
    pub fn good_nodes(&self, now: u64) -> (nodes: Vec<Node>)
        ensures
            views(nodes@) == self@.filter(has_status(NodeStatus::Good, now)),
            nodes@.len() <= MAX_BUCKET_SIZE,
    {
        self.nodes_with_status(NodeStatus::Good, now)
    }

    /// The entries that are good or questionable at `now` and share exactly
    /// `bits` leading bits with the id `local`, in the order of their slots.
    pub fn ping_able_nodes_sharing(&self, local: NodeId, bits: usize, now: u64) -> (nodes: Vec<
        Node,
    >)
        ensures
            views(nodes@) == self@.filter(ping_able_sharing(local, bits as int, now)),
    {
        let ghost keep = ping_able_sharing(local, bits as int, now);
        let mut nodes: Vec<Node> = Vec::new();
        let mut i: usize = 0;
        assert(self@.take(0) =~= Seq::<NodeView>::empty());
        assert(views(nodes@) =~= Seq::<NodeView>::empty());
        while i < MAX_BUCKET_SIZE
            invariant
                i <= MAX_BUCKET_SIZE,
                keep == ping_able_sharing(local, bits as int, now),
                views(nodes@) == self@.take(i as int).filter(keep),
            decreases MAX_BUCKET_SIZE - i,
        {
            let node = self.nodes[i];
            proof {
                let before = self@.take(i as int);
                assert(self@.take(i as int + 1) =~= before.push(node@));
                before.lemma_filter_push(node@, keep);
            }
            if node.is_ping_able(now) && local.xor(node.id()).leading_zeros() as usize == bits {
                assert(views(nodes@.push(node)) =~= views(nodes@).push(node@));
                nodes.push(node);
            }
            i += 1;
        }
        assert(self@.take(MAX_BUCKET_SIZE as int) =~= self@);
        nodes
    }

    /// The slot of the first entry that is good or questionable at `now`
    /// and is of the node with the given handle.
    pub fn position(&self, handle: &NodeHandle, now: u64) -> (slot: Option<usize>)
        ensures
            match slot {
                Some(i) => i == first_index(self@, ping_able_with_handle(*handle, now)) && i
                    < MAX_BUCKET_SIZE,
                None => first_index(self@, ping_able_with_handle(*handle, now))
                    == MAX_BUCKET_SIZE,
            },
    {
        let ghost wanted = ping_able_with_handle(*handle, now);
        let mut i: usize = 0;
        while i < MAX_BUCKET_SIZE
            invariant
                i <= MAX_BUCKET_SIZE,
                wanted == ping_able_with_handle(*handle, now),
                forall|j: int| 0 <= j < i ==> !wanted(#[trigger] self@[j]),
            decreases MAX_BUCKET_SIZE - i,
        {
            if self.nodes[i].is_ping_able(now) && self.nodes[i].handle().same(handle) {
                proof {
                    lemma_first_index_is(self@, wanted, i as int);
                }
                return Some(i);
            }
            i += 1;
        }
        proof {
            lemma_first_index_is(self@, wanted, MAX_BUCKET_SIZE as int);
        }
        None
    }

    /// Replaces the entry in slot `index`.
    pub(crate) fn set(&mut self, index: usize, node: Node)
        requires
            index < MAX_BUCKET_SIZE,
        ensures
            final(self)@ == old(self)@.update(index as int, node@),
    {
        self.nodes[index] = node;
        assert(self@ =~= old(self)@.update(index as int, node@));
    }
}

impl Default for Bucket {
    fn default() -> (bucket: Bucket)
        ensures
            bucket@ == Seq::new(MAX_BUCKET_SIZE as nat, |i: int| placeholder()),
    {
        Bucket::new()
    }
}

} // verus!
