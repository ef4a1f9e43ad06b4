//! The routing table: buckets that cover the identifier space around the
//! local id, and the walk over them from the bucket nearest to a target.

use vstd::prelude::*;
use crate::id::{shared_prefix_bits, Id, NodeId, ID_BITS};
use crate::routing::bucket::{
    bucket_add, lemma_first_index, placeholder, Bucket, MAX_BUCKET_SIZE,
};
use crate::routing::bucket::first_index;
use crate::routing::node::{
    after_local_request, has_handle, has_status, ping_able, ping_able_at, ping_able_sharing, ping_able_with_handle,
    ranks_below, status_of, views, Node, NodeHandle, NodeStatus, NodeView,
};
use crate::addr::SocketAddr;

verus! {

/// Largest number of buckets of a table: one for each bit of an identifier.
pub const MAX_BUCKETS: usize = 160;

/// Whether the bucket at `bucket_index` of `num_buckets` buckets may be
/// split: only the last one, and only while there are fewer than 160.
pub fn can_split_bucket(num_buckets: usize, bucket_index: usize) -> (r: bool)
    requires
        num_buckets >= 1,
    ensures
        r == (bucket_index == num_buckets - 1 && bucket_index != MAX_BUCKETS - 1),
{
    bucket_index == num_buckets - 1 && bucket_index != MAX_BUCKETS - 1
}

/// Number of leading bits that the local and the remote id share.
pub fn leading_bit_count(local_node: NodeId, remote_node: NodeId) -> (bits: usize)
    ensures
        bits == shared_prefix_bits(local_node, remote_node),
        bits <= MAX_BUCKETS,
{
    local_node.xor(remote_node).leading_zeros() as usize
}

/// Index of the bucket that holds a node which shares `num_same_bits` bits
/// with the local id, in a table of `num_buckets` buckets: the bucket of
/// that index, or the last one while that bucket does not exist yet.
pub open spec fn placement(num_same_bits: int, num_buckets: int) -> int {
    if num_same_bits >= num_buckets {
        num_buckets - 1
    } else {
        num_same_bits
    }
}

/// Index of the bucket for a node that shares `num_same_bits` bits with the
/// local id.
pub fn bucket_placement(num_same_bits: usize, num_buckets: usize) -> (index: usize)
    requires
        num_buckets >= 1,
    ensures
        index == placement(num_same_bits as int, num_buckets as int),
{
    if num_same_bits >= num_buckets {
        num_buckets - 1
    } else {
        num_same_bits
    }
}

/// Whether `checked_index` is an index below `length`.
pub fn index_is_in_bounds(length: usize, checked_index: Option<usize>) -> (r: bool)
    ensures
        r == (checked_index matches Some(index) && index < length),
{
    match checked_index {
        Some(index) => index < length,
        None => false,
    }
}

/// Place of the bucket `index` in the walk that starts at `start`: the
/// start itself comes first, then the buckets one step away, the one below
/// before the one above, then those two steps away, and so on.
pub open spec fn visit_rank(start: int, index: int) -> int {
    if index == start {
        0
    } else if index < start {
        2 * (start - index) - 1
    } else {
        2 * (index - start)
    }
}

/// The bucket index that has place `rank` in the walk that starts at
/// `start`; it may lie outside the table.
pub open spec fn index_at_rank(start: int, rank: int) -> int {
    if rank % 2 == 1 {
        start - (rank + 1) / 2
    } else {
        start + rank / 2
    }
}

/// Each index has one place in the walk, and each place one index.
pub proof fn lemma_rank_index(start: int, index: int, rank: int)
    ensures
        index_at_rank(start, visit_rank(start, index)) == index,
        visit_rank(start, index) >= 0,
        rank >= 0 ==> visit_rank(start, index_at_rank(start, rank)) == rank,
{
}

/// The index to visit after `current_index` in the walk over `num_buckets`
/// buckets that started at `start_index`: of the indices below
/// `num_buckets` that come later in the walk, the one that comes first.
/// None if the walk is over.
pub fn next_bucket_index(num_buckets: usize, start_index: usize, current_index: usize) -> (next:
    Option<usize>)
    ensures
        match next {
            Some(index) => {
                &&& index < num_buckets
                &&& visit_rank(start_index as int, index as int) > visit_rank(
                    start_index as int,
                    current_index as int,
                )
                &&& forall|other: int|
                    0 <= other < num_buckets && visit_rank(start_index as int, other) > visit_rank(
                        start_index as int,
                        current_index as int,
                    ) ==> #[trigger] visit_rank(start_index as int, other) >= visit_rank(
                        start_index as int,
                        index as int,
                    )
            },
            None => forall|other: int|
                0 <= other < num_buckets ==> #[trigger] visit_rank(start_index as int, other)
                    <= visit_rank(start_index as int, current_index as int),
        },
{
    if current_index < start_index {
        // Below the start: the bucket as far above it comes next, then the
        // one further below.
        let offset: usize = start_index - current_index;
        let right_index = start_index.checked_add(offset);
        let left_index = clamp_to_length(num_buckets, current_index.checked_sub(1));
        if index_is_in_bounds(num_buckets, right_index) {
            right_index
        } else if index_is_in_bounds(num_buckets, left_index) {
            left_index
        } else {
            None
        }
    } else if current_index == start_index {
        let right_index = start_index.checked_add(1);
        let left_index = clamp_to_length(num_buckets, start_index.checked_sub(1));
        if index_is_in_bounds(num_buckets, left_index) {
            left_index
        } else if index_is_in_bounds(num_buckets, right_index) {
            right_index
        } else {
            None
        }
    } else {
        // Above the start: the bucket one step further below it comes next,
        // then the one further above.
        let offset: usize = current_index - start_index;
        let left_index = match offset.checked_add(1) {
            Some(step) => clamp_to_length(num_buckets, start_index.checked_sub(step)),
            None => None,
        };
        let right_index = current_index.checked_add(1);
        if index_is_in_bounds(num_buckets, left_index) {
            left_index
        } else if index_is_in_bounds(num_buckets, right_index) {
            right_index
        } else {
            None
        }
    }
}

/// The index itself if it lies below `length`, else the last index below
/// `length`, if there is one: where a walk downwards from the index enters
/// the table.
fn clamp_to_length(length: usize, checked_index: Option<usize>) -> (r: Option<usize>)
    ensures
        r == match checked_index {
            Some(index) => if index < length {
                Some(index)
            } else if length >= 1 {
                Some((length - 1) as usize)
            } else {
                None
            },
            None => None,
        },
{
    match checked_index {
        Some(index) => if index < length {
            Some(index)
        } else {
            length.checked_sub(1)
        },
        None => None,
    }
}

/// What a routing table is, as a value: the local id and the entries of its
/// buckets.
pub struct TableView {
    pub node_id: Id,
    pub buckets: Seq<Seq<NodeView>>,
}

/// Whether an entry is a node that was added, and no placeholder: only such
/// an entry has ever responded.
pub open spec fn occupied(v: NodeView) -> bool {
    v.last_response is Some
}

/// The entries of a bucket that no node has been added to.
pub open spec fn empty_bucket() -> Seq<NodeView> {
    Seq::new(MAX_BUCKET_SIZE as nat, |i: int| placeholder())
}

/// Number of leading bits that the id of an entry shares with the local id
/// of the table: the index of the bucket that the entry belongs to once
/// that bucket exists.
pub open spec fn ideal_index(t: TableView, v: NodeView) -> int {
    shared_prefix_bits(t.node_id, v.handle.id) as int
}

/// The invariant of a routing table: it has between 1 and 160 buckets of 8
/// entries; every node in a bucket but the last shares with the local id
/// exactly as many leading bits as the index of its bucket says; every
/// node in the last bucket shares at least that many; no node has the local
/// id.
pub open spec fn well_placed(t: TableView) -> bool {
    &&& 1 <= t.buckets.len() <= MAX_BUCKETS
    &&& forall|i: int| 0 <= i < t.buckets.len() ==> (#[trigger] t.buckets[i]).len() == MAX_BUCKET_SIZE
    &&& forall|i: int, j: int|
        0 <= i < t.buckets.len() && 0 <= j < MAX_BUCKET_SIZE && occupied(#[trigger] t.buckets[i][j])
            ==> ideal_index(t, t.buckets[i][j]) < MAX_BUCKETS && placement(
            ideal_index(t, t.buckets[i][j]),
            t.buckets.len() as int,
        ) == i
}

/// The table after `v` was offered to it at `now`. A bad node and a node
/// with the local id are not taken.
pub open spec fn table_add(t: TableView, v: NodeView, now: u64) -> TableView
    decreases MAX_BUCKETS - t.buckets.len(), 3int, 0int,
{
    if status_of(v, now) == NodeStatus::Bad || ideal_index(t, v) == MAX_BUCKETS {
        t
    } else {
        table_insert(t, v, ideal_index(t, v), now)
    }
}

/// The table after the node `v`, which shares `bits` leading bits with the
/// local id, was offered to its bucket: if the bucket does not take it and
/// is the last of fewer than 160, the bucket is split and the node offered
/// again.
pub open spec fn table_insert(t: TableView, v: NodeView, bits: int, now: u64) -> TableView
    decreases MAX_BUCKETS - t.buckets.len(), 2int, 0int,
{
    let len = t.buckets.len() as int;
    let index = placement(bits, len);
    if len < 1 || len > MAX_BUCKETS || index < 0 {
        t
    } else {
        let (bucket, added) = bucket_add(t.buckets[index], v, now);
        if added {
            TableView { buckets: t.buckets.update(index, bucket), ..t }
        } else if !(index == len - 1 && index != MAX_BUCKETS - 1) {
            t
        } else {
            let split = table_split(t, now);
            if len < split.buckets.len() <= MAX_BUCKETS {
                table_insert(split, v, bits, now)
            } else {
                t
            }
        }
    }
}

/// The table after its last bucket was replaced by two empty ones and each
/// of its entries offered to the table again.
pub open spec fn table_split(t: TableView, now: u64) -> TableView
    decreases MAX_BUCKETS - t.buckets.len(), 1int, 0int,
{
    if t.buckets.len() < 1 {
        t
    } else {
        let base = TableView {
            buckets: t.buckets.drop_last().push(empty_bucket()).push(empty_bucket()),
            ..t
        };
        redistribute(base, t.buckets.last(), 0, t.buckets.len() as int, now)
    }
}

/// The table after the entries of `popped` from the one at `k` on were
/// offered to it, one after the other. `floor` is the number of buckets
/// before the split that set the entries free; the table has more.
pub open spec fn redistribute(
    t: TableView,
    popped: Seq<NodeView>,
    k: int,
    floor: int,
    now: u64,
) -> TableView
    decreases MAX_BUCKETS - floor, 0int, MAX_BUCKET_SIZE - k,
{
    if k < 0 || k >= MAX_BUCKET_SIZE || t.buckets.len() <= floor || t.buckets.len()
        > MAX_BUCKETS {
        t
    } else {
        redistribute(table_add(t, popped[k], now), popped, k + 1, floor, now)
    }
}

/// The routing table of a node: its buckets, and the id of the node
/// itself, which always falls into the last bucket.
#[derive(Debug)]
pub struct RoutingTable {
    buckets: Vec<Bucket>,
    node_id: NodeId,
}

impl View for RoutingTable {
    type V = TableView;

    closed spec fn view(&self) -> TableView {
        TableView {
            node_id: self.node_id,
            buckets: Seq::new(self.buckets@.len(), |i: int| self.buckets@[i]@),
        }
    }
}

impl RoutingTable {
    /// Whether the table meets its invariant.
    pub open spec fn wf(&self) -> bool {
        well_placed(self@)
    }

    /// A table of one empty bucket around the given local id.
    pub fn new(node_id: NodeId) -> (table: RoutingTable)
        ensures
            table@ == (TableView { node_id, buckets: seq![empty_bucket()] }),
            table.wf(),
    {
        let mut buckets: Vec<Bucket> = Vec::new();
        buckets.push(Bucket::new());
        let table = RoutingTable { buckets, node_id };
        proof {
            assert(table@.buckets =~= seq![empty_bucket()]);
        }
        table
    }

    /// The local id.
    pub fn node_id(&self) -> (id: NodeId)
        ensures
            id == self@.node_id,
    {
        self.node_id
    }

    /// Number of buckets.
    pub fn num_buckets(&self) -> (n: usize)
        ensures
            n == self@.buckets.len(),
    {
        self.buckets.len()
    }

    /// Index of the bucket that a node with the given id belongs to.
    pub fn bucket_index_for_node(&self, node_id: NodeId) -> (index: usize)
        requires
            self.wf(),
        ensures
            index == placement(
                shared_prefix_bits(self@.node_id, node_id) as int,
                self@.buckets.len() as int,
            ),
            index < self@.buckets.len(),
    {
        let bits = leading_bit_count(self.node_id, node_id);
        bucket_placement(bits, self.buckets.len())
    }

    /// Offers a node to the table at `now`. A bad node and a node with the
    /// local id are not taken. Any other node is offered to its bucket; if
    /// the bucket is full of nodes that do not give way and is the last of
    /// fewer than 160, it is split and the node offered again.
    pub fn add_node(&mut self, node: Node, now: u64)
        requires
            old(self).wf(),
        ensures
            final(self).wf(),
            final(self)@ == table_add(old(self)@, node@, now),
            final(self)@.node_id == old(self)@.node_id,
            final(self)@.buckets.len() >= old(self)@.buckets.len(),
        decreases MAX_BUCKETS - old(self)@.buckets.len(), 3int, 0int,
    {
        if node.status(now).rank() == NodeStatus::Bad.rank() {
            return ;
        }
        let num_same_bits = leading_bit_count(self.node_id, node.id());
        if num_same_bits != MAX_BUCKETS {
            self.bucket_node(node, num_same_bits, now);
        }
    }

    /// Offers a node that shares `num_same_bits` bits with the local id to
    /// its bucket, splitting the last bucket as long as that makes room.
    fn bucket_node(&mut self, node: Node, num_same_bits: usize, now: u64)
        requires
            old(self).wf(),
            num_same_bits == ideal_index(old(self)@, node@),
            num_same_bits < MAX_BUCKETS,
        ensures
            final(self).wf(),
            final(self)@ == table_insert(old(self)@, node@, num_same_bits as int, now),
            final(self)@.node_id == old(self)@.node_id,
            final(self)@.buckets.len() >= old(self)@.buckets.len(),
        decreases MAX_BUCKETS - old(self)@.buckets.len(), 2int, 0int,
    {
        let ghost before = self@;
        let bucket_index = bucket_placement(num_same_bits, self.buckets.len());
        let mut bucket = self.buckets[bucket_index];
        let ghost bucket_before = bucket@;
        assert(bucket_before == before.buckets[bucket_index as int]);
        let added = bucket.add_node(node, now);
        if added {
            self.buckets[bucket_index] = bucket;
            proof {
                assert(self@.buckets =~= before.buckets.update(bucket_index as int, bucket@));
                Self::lemma_bucket_add_placed(before, bucket_index as int, node@, now);
            }
        } else if self.split_bucket(bucket_index, now) {
            self.bucket_node(node, num_same_bits, now);
        }
    }

    /// Replaces the last bucket by two empty ones and offers its entries to
    /// the table again. Does nothing and returns false if `bucket_index` is
    /// not the last bucket or there are 160 buckets already.
    fn split_bucket(&mut self, bucket_index: usize, now: u64) -> (split: bool)
        requires
            old(self).wf(),
        ensures
            final(self).wf(),
            split == (bucket_index == old(self)@.buckets.len() - 1 && bucket_index != MAX_BUCKETS
                - 1),
            split ==> final(self)@ == table_split(old(self)@, now),
            split ==> final(self)@.buckets.len() > old(self)@.buckets.len(),
            !split ==> final(self)@ == old(self)@,
            final(self)@.node_id == old(self)@.node_id,
        decreases MAX_BUCKETS - old(self)@.buckets.len(), 1int, 0int,
    {
        let ghost before = self@;
        if !can_split_bucket(self.buckets.len(), bucket_index) {
            return false;
        }
        let floor: usize = self.buckets.len();
        let split_bucket = match self.buckets.pop() {
            Some(bucket) => bucket,
            None => {
                return false;
            },
        };
        self.buckets.push(Bucket::new());
        self.buckets.push(Bucket::new());
        let ghost base = self@;
        let ghost popped = split_bucket@;
        proof {
            assert(popped == before.buckets.last());
            assert(base.buckets =~= before.buckets.drop_last().push(empty_bucket()).push(
                empty_bucket(),
            ));
            Self::lemma_split_base_placed(before);
        }
        let mut k: usize = 0;
        while k < MAX_BUCKET_SIZE
            invariant
                k <= MAX_BUCKET_SIZE,
                self.wf(),
                popped == split_bucket@,
                popped.len() == MAX_BUCKET_SIZE,
                before == old(self)@,
                floor == before.buckets.len(),
                floor < MAX_BUCKETS,
                self@.buckets.len() > floor,
                self@.node_id == before.node_id,
                redistribute(self@, popped, k as int, floor as int, now) == redistribute(
                    base,
                    popped,
                    0,
                    floor as int,
                    now,
                ),
            decreases MAX_BUCKET_SIZE - k,
        {
            let node = split_bucket.get(k);
            self.add_node(node, now);
            k += 1;
        }
        true
    }

    /// Offering a node to the bucket it belongs to keeps the table's
    /// invariant.
    proof fn lemma_bucket_add_placed(t: TableView, index: int, v: NodeView, now: u64)
        requires
            well_placed(t),
            ideal_index(t, v) < MAX_BUCKETS,
            index == placement(ideal_index(t, v), t.buckets.len() as int),
        ensures
            well_placed(
                TableView {
                    buckets: t.buckets.update(index, bucket_add(t.buckets[index], v, now).0),
                    ..t
                },
            ),
    {
        let s = t.buckets[index];
        let r = bucket_add(s, v, now).0;
        let after = TableView { buckets: t.buckets.update(index, r), ..t };
        lemma_first_index(s, has_handle(v.handle));
        lemma_first_index(s, ranks_below(status_of(v, now).rank_spec(), now));
        assert(s.len() == MAX_BUCKET_SIZE);
        assert(r.len() == MAX_BUCKET_SIZE);
        assert forall|i: int, j: int|
            0 <= i < after.buckets.len() && 0 <= j < MAX_BUCKET_SIZE && occupied(
                #[trigger] after.buckets[i][j],
            ) implies ideal_index(after, after.buckets[i][j]) < MAX_BUCKETS && placement(
            ideal_index(after, after.buckets[i][j]),
            after.buckets.len() as int,
        ) == i by {
            if i != index {
                assert(after.buckets[i][j] == t.buckets[i][j]);
            } else {
                let e = r[j];
                if e == s[j] {
                    assert(occupied(t.buckets[i][j]));
                } else {
                    assert(e.handle == v.handle);
                }
            }
        }
    }

    /// Replacing the last bucket by two empty ones keeps the table's
    /// invariant.
    proof fn lemma_split_base_placed(t: TableView)
        requires
            well_placed(t),
            t.buckets.len() < MAX_BUCKETS,
        ensures
            well_placed(
                TableView {
                    buckets: t.buckets.drop_last().push(empty_bucket()).push(empty_bucket()),
                    ..t
                },
            ),
    {
        let base = TableView {
            buckets: t.buckets.drop_last().push(empty_bucket()).push(empty_bucket()),
            ..t
        };
        let n = t.buckets.len() as int;
        assert forall|i: int, j: int|
            0 <= i < base.buckets.len() && 0 <= j < MAX_BUCKET_SIZE && occupied(
                #[trigger] base.buckets[i][j],
            ) implies ideal_index(base, base.buckets[i][j]) < MAX_BUCKETS && placement(
            ideal_index(base, base.buckets[i][j]),
            base.buckets.len() as int,
        ) == i by {
            if i < n - 1 {
                assert(base.buckets[i][j] == t.buckets[i][j]);
            }
        }
    }
}

/// Number of buckets of the table that hold only nodes which share with
/// the local id exactly as many bits as the index of the bucket says: all
/// but the last, and the last too once there are 160.
pub open spec fn sorted_len(t: TableView) -> int {
    if t.buckets.len() == MAX_BUCKETS {
        MAX_BUCKETS as int
    } else {
        t.buckets.len() - 1
    }
}

/// The good and questionable nodes that a walk hands out when it visits
/// the bucket index `index`: those of the bucket of that index, if it is a
/// sorted one, and then those of the last bucket, while it is not sorted,
/// that belong to that index.
pub open spec fn nodes_at(t: TableView, index: int, now: u64) -> Seq<NodeView> {
    let own = if 0 <= index < sorted_len(t) {
        t.buckets[index].filter(ping_able_at(now))
    } else {
        Seq::empty()
    };
    let assorted = if 1 <= t.buckets.len() < MAX_BUCKETS {
        t.buckets.last().filter(ping_able_sharing(t.node_id, index, now))
    } else {
        Seq::empty()
    };
    own + assorted
}

/// The nodes that a walk from the bucket index `start` hands out at the
/// places from `from_rank` up to, but not including, `to_rank`.
pub open spec fn walk(t: TableView, start: int, from_rank: int, to_rank: int, now: u64) -> Seq<
    NodeView,
>
    decreases to_rank - from_rank,
{
    if from_rank >= to_rank {
        Seq::empty()
    } else {
        walk(t, start, from_rank, to_rank - 1, now) + nodes_at(
            t,
            index_at_rank(start, to_rank - 1),
            now,
        )
    }
}

/// The good and questionable nodes of the table at `now`, from the bucket
/// that `target` belongs to outwards.
pub open spec fn closest(t: TableView, target: Id, now: u64) -> Seq<NodeView> {
    walk(t, shared_prefix_bits(t.node_id, target) as int, 0, 2 * MAX_BUCKETS, now)
}

/// Number of entries with the given status at `now` in a sequence of
/// buckets.
pub open spec fn count_with_status(buckets: Seq<Seq<NodeView>>, status: NodeStatus, now: u64) -> nat
    decreases buckets.len(),
{
    if buckets.len() == 0 {
        0
    } else {
        count_with_status(buckets.drop_last(), status, now) + buckets.last().filter(
            has_status(status, now),
        ).len()
    }
}

/// The addresses of all entries of a sequence of buckets, placeholders
/// included, bucket after bucket.
pub open spec fn all_addresses(buckets: Seq<Seq<NodeView>>) -> Seq<SocketAddr>
    decreases buckets.len(),
{
    if buckets.len() == 0 {
        Seq::empty()
    } else {
        all_addresses(buckets.drop_last()) + Seq::new(
            buckets.last().len(),
            |j: int| buckets.last()[j].handle.addr,
        )
    }
}

/// No entry of a sequence meets a test: the filter by it is empty.
pub proof fn lemma_filter_none(s: Seq<NodeView>, p: spec_fn(NodeView) -> bool)
    requires
        forall|j: int| 0 <= j < s.len() ==> !p(#[trigger] s[j]),
    ensures
        s.filter(p) == Seq::<NodeView>::empty(),
    decreases s.len(),
{
    reveal(Seq::filter);
    if s.len() > 0 {
        lemma_filter_none(s.drop_last(), p);
    }
}

/// Each entry of a filtered sequence is an entry of the sequence itself
/// that meets the test.
pub proof fn lemma_filter_member(s: Seq<NodeView>, p: spec_fn(NodeView) -> bool, k: int)
    requires
        0 <= k < s.filter(p).len(),
    ensures
        p(s.filter(p)[k]),
        exists|j: int| 0 <= j < s.len() && s[j] == s.filter(p)[k],
    decreases s.len(),
{
    reveal(Seq::filter);
    if s.len() > 0 {
        let init = s.drop_last();
        if k < init.filter(p).len() {
            lemma_filter_member(init, p, k);
            let j = choose|j: int| 0 <= j < init.len() && init[j] == init.filter(p)[k];
            assert(s[j] == s.filter(p)[k]);
        } else {
            assert(s[s.len() - 1] == s.filter(p)[k]);
        }
    }
}

/// A walk hands out nothing at a bucket index outside the table.
pub proof fn lemma_nodes_at_outside(t: TableView, index: int, now: u64)
    requires
        well_placed(t),
        index < 0 || index >= MAX_BUCKETS,
    ensures
        nodes_at(t, index, now) == Seq::<NodeView>::empty(),
{
    if 1 <= t.buckets.len() < MAX_BUCKETS {
        let last = t.buckets.last();
        let n = t.buckets.len() as int;
        assert forall|j: int| 0 <= j < last.len() implies !ping_able_sharing(t.node_id, index, now)(
            #[trigger] last[j],
        ) by {
            if ping_able(last[j], now) {
                assert(occupied(t.buckets[n - 1][j]));
            }
        }
        lemma_filter_none(last, ping_able_sharing(t.node_id, index, now));
    }
}

/// A walk hands out nothing more over places that all lie outside the
/// table.
pub proof fn lemma_walk_outside(t: TableView, start: int, from_rank: int, mid: int, to_rank: int, now: u64)
    requires
        well_placed(t),
        from_rank <= mid <= to_rank,
        forall|r: int|
            mid <= r < to_rank ==> {
                let index = #[trigger] index_at_rank(start, r);
                index < 0 || index >= MAX_BUCKETS
            },
    ensures
        walk(t, start, from_rank, to_rank, now) == walk(t, start, from_rank, mid, now),
    decreases to_rank - mid,
{
    if mid < to_rank {
        lemma_walk_outside(t, start, from_rank, mid, to_rank - 1, now);
        lemma_nodes_at_outside(t, index_at_rank(start, to_rank - 1), now);
        assert(walk(t, start, from_rank, to_rank, now) =~= walk(t, start, from_rank, mid, now));
    }
}

/// Every node that a walk hands out at a bucket index belongs to that
/// index.
pub proof fn lemma_nodes_at_ideal(t: TableView, index: int, now: u64, k: int)
    requires
        well_placed(t),
        0 <= k < nodes_at(t, index, now).len(),
    ensures
        ideal_index(t, nodes_at(t, index, now)[k]) == index,
        ping_able(nodes_at(t, index, now)[k], now),
{
    let own = if 0 <= index < sorted_len(t) {
        t.buckets[index].filter(ping_able_at(now))
    } else {
        Seq::empty()
    };
    if k < own.len() {
        let b = t.buckets[index];
        let v = own[k];
        lemma_filter_member(b, ping_able_at(now), k);
        let j = choose|j: int| 0 <= j < b.len() && b[j] == v;
        assert(b.len() == MAX_BUCKET_SIZE);
        assert(occupied(t.buckets[index][j]));
    } else {
        let last = t.buckets.last();
        lemma_filter_member(last, ping_able_sharing(t.node_id, index, now), k - own.len());
    }
}

/// The nodes of a walk come in the order of the places of the bucket
/// indices they belong to: each node handed out at the places from
/// `from_rank` to `to_rank` belongs to an index with a place in that range,
/// and a node handed out later belongs to no earlier place.
pub proof fn lemma_walk_ordered(t: TableView, start: int, from_rank: int, to_rank: int, now: u64)
    requires
        well_placed(t),
        0 <= from_rank,
    ensures
        forall|p: int|
            0 <= p < walk(t, start, from_rank, to_rank, now).len() ==> from_rank <= visit_rank(
                start,
                ideal_index(t, #[trigger] walk(t, start, from_rank, to_rank, now)[p]),
            ) < to_rank,
        forall|p: int, q: int|
            0 <= p <= q < walk(t, start, from_rank, to_rank, now).len() ==> visit_rank(
                start,
                ideal_index(t, #[trigger] walk(t, start, from_rank, to_rank, now)[p]),
            ) <= visit_rank(
                start,
                ideal_index(t, #[trigger] walk(t, start, from_rank, to_rank, now)[q]),
            ),
    decreases to_rank - from_rank,
{
    if from_rank < to_rank {
        let w = walk(t, start, from_rank, to_rank, now);
        let head = walk(t, start, from_rank, to_rank - 1, now);
        let index = index_at_rank(start, to_rank - 1);
        let tail = nodes_at(t, index, now);
        lemma_walk_ordered(t, start, from_rank, to_rank - 1, now);
        assert forall|p: int| head.len() <= p < w.len() implies visit_rank(
            start,
            ideal_index(t, #[trigger] w[p]),
        ) == to_rank - 1 by {
            lemma_nodes_at_ideal(t, index, now, p - head.len());
            assert(w[p] == tail[p - head.len()]);
        }
        assert forall|p: int| 0 <= p < head.len() implies w[p] == head[p] by {}
    }
}

/// The nodes that `closest` hands out come in the order of the walk: a
/// node handed out later belongs to a bucket index that the walk from the
/// target's index visits no earlier.
pub proof fn lemma_closest_ordered(t: TableView, target: Id, now: u64, p: int, q: int)
    requires
        well_placed(t),
        0 <= p <= q < closest(t, target, now).len(),
    ensures
        visit_rank(
            shared_prefix_bits(t.node_id, target) as int,
            ideal_index(t, closest(t, target, now)[p]),
        ) <= visit_rank(
            shared_prefix_bits(t.node_id, target) as int,
            ideal_index(t, closest(t, target, now)[q]),
        ),
{
    lemma_walk_ordered(t, shared_prefix_bits(t.node_id, target) as int, 0, 2 * MAX_BUCKETS, now);
}

/// The nodes that a walk hands out at one place are among those it hands
/// out over a range of places that holds it.
pub proof fn lemma_walk_contains(t: TableView, start: int, from_rank: int, to_rank: int, now: u64, r: int, v: NodeView)
    requires
        from_rank <= r < to_rank,
        nodes_at(t, index_at_rank(start, r), now).contains(v),
    ensures
        walk(t, start, from_rank, to_rank, now).contains(v),
    decreases to_rank - from_rank,
{
    let head = walk(t, start, from_rank, to_rank - 1, now);
    let tail = nodes_at(t, index_at_rank(start, to_rank - 1), now);
    if r == to_rank - 1 {
        let k = choose|k: int| 0 <= k < tail.len() && tail[k] == v;
        assert((head + tail)[head.len() + k] == v);
    } else {
        lemma_walk_contains(t, start, from_rank, to_rank - 1, now, r, v);
        let k = choose|k: int| 0 <= k < head.len() && head[k] == v;
        assert((head + tail)[k] == v);
    }
}

/// `closest` hands out every good or questionable node of the table.
pub proof fn lemma_closest_complete(t: TableView, target: Id, now: u64, i: int, j: int)
    requires
        well_placed(t),
        0 <= i < t.buckets.len(),
        0 <= j < MAX_BUCKET_SIZE,
        ping_able(t.buckets[i][j], now),
    ensures
        closest(t, target, now).contains(t.buckets[i][j]),
{
    broadcast use vstd::seq_lib::group_filter_ensures;

    let v = t.buckets[i][j];
    let start = shared_prefix_bits(t.node_id, target) as int;
    crate::id::lemma_leading_zero_bits_bound(crate::id::xor_bytes(t.node_id@, target@));
    let index = ideal_index(t, v);
    assert(occupied(t.buckets[i][j]));
    let r = visit_rank(start, index);
    lemma_rank_index(start, index, r);
    assert(t.buckets[i].len() == MAX_BUCKET_SIZE);
    if i < sorted_len(t) {
        assert(index == i);
        assert(ping_able_at(now)(t.buckets[i][j]));
        assert(t.buckets[index].filter(ping_able_at(now)).contains(v));
        let own = t.buckets[index].filter(ping_able_at(now));
        let k = choose|k: int| 0 <= k < own.len() && own[k] == v;
        assert(nodes_at(t, index, now)[k] == v);
    } else {
        let last = t.buckets.last();
        assert(last[j] == v);
        assert(ping_able_sharing(t.node_id, index, now)(last[j]));
        let assorted = last.filter(ping_able_sharing(t.node_id, index, now));
        assert(assorted.contains(v));
        let k = choose|k: int| 0 <= k < assorted.len() && assorted[k] == v;
        let own = if 0 <= index < sorted_len(t) {
            t.buckets[index].filter(ping_able_at(now))
        } else {
            Seq::empty()
        };
        assert(nodes_at(t, index, now)[own.len() + k] == v);
    }
    lemma_walk_contains(t, start, 0, 2 * MAX_BUCKETS, now, r, v);
}

/// The nodes of a walk over the table, nearest bucket first, to be taken
/// one by one.
///
/// Its view is the sequence of the nodes not yet taken.
#[derive(Debug)]
pub struct ClosestNodes {
    nodes: Vec<Node>,
    taken: usize,
}

impl View for ClosestNodes {
    type V = Seq<NodeView>;

    closed spec fn view(&self) -> Seq<NodeView> {
        if self.taken <= self.nodes@.len() {
            views(self.nodes@).skip(self.taken as int)
        } else {
            Seq::empty()
        }
    }
}

impl ClosestNodes {
    /// Takes the next node of the walk, if one is left.
    pub fn next(&mut self) -> (node: Option<Node>)
        ensures
            match node {
                Some(n) => old(self)@.len() > 0 && n@ == old(self)@[0] && final(self)@ == old(
                    self,
                )@.skip(1),
                None => old(self)@.len() == 0 && final(self)@ == old(self)@,
            },
    {
        if self.taken < self.nodes.len() {
            let node = self.nodes[self.taken];
            self.taken = self.taken + 1;
            assert(self@ =~= old(self)@.skip(1));
            Some(node)
        } else {
            None
        }
    }

    /// Number of nodes that are left.
    pub fn count(&self) -> (n: usize)
        ensures
            n == self@.len(),
    {
        if self.taken <= self.nodes.len() {
            self.nodes.len() - self.taken
        } else {
            0
        }
    }

    /// The nodes that are left, in the order of the walk.
    pub fn to_vec(&self) -> (nodes: Vec<Node>)
        ensures
            views(nodes@) == self@,
    {
        let mut nodes: Vec<Node> = Vec::new();
        let mut i: usize = self.taken;
        if i > self.nodes.len() {
            assert(views(nodes@) =~= self@);
            return nodes;
        }
        while i < self.nodes.len()
            invariant
                self.taken <= i <= self.nodes@.len(),
                nodes@.len() == i - self.taken,
                forall|k: int| 0 <= k < nodes@.len() ==> nodes@[k] == self.nodes@[self.taken + k],
            decreases self.nodes@.len() - i,
        {
            nodes.push(self.nodes[i]);
            i += 1;
        }
        assert(views(nodes@) =~= self@);
        nodes
    }
}

/// Appends the nodes of `more` to `nodes`.
pub fn append_nodes(nodes: &mut Vec<Node>, more: &Vec<Node>)
    ensures
        final(nodes)@ == old(nodes)@ + more@,
        views(final(nodes)@) == views(old(nodes)@) + views(more@),
{
    let mut i: usize = 0;
    while i < more.len()
        invariant
            i <= more@.len(),
            nodes@ == old(nodes)@ + more@.take(i as int),
        decreases more@.len() - i,
    {
        nodes.push(more[i]);
        assert(nodes@ =~= old(nodes)@ + more@.take(i as int + 1));
        i += 1;
    }
    assert(more@.take(more@.len() as int) =~= more@);
    assert(views(nodes@) =~= views(old(nodes)@) + views(more@));
}

impl RoutingTable {
    /// The good and questionable nodes at `now` that a walk hands out when
    /// it visits the bucket index `index`.
    fn nodes_at_index(&self, index: usize, now: u64) -> (nodes: Vec<Node>)
        requires
            self.wf(),
        ensures
            views(nodes@) == nodes_at(self@, index as int, now),
    {
        let len: usize = self.buckets.len();
        let sorted: usize = if len == MAX_BUCKETS {
            len
        } else {
            len - 1
        };
        let mut nodes: Vec<Node> = Vec::new();
        assert(views(nodes@) =~= Seq::<NodeView>::empty());
        if index < sorted {
            let own = self.buckets[index].ping_able_nodes(now);
            append_nodes(&mut nodes, &own);
        }
        if len < MAX_BUCKETS {
            let assorted = self.buckets[len - 1].ping_able_nodes_sharing(self.node_id, index, now);
            assert(self@.buckets.last() == self.buckets@[len - 1]@);
            append_nodes(&mut nodes, &assorted);
        }
        assert(views(nodes@) =~= nodes_at(self@, index as int, now));
        nodes
    }

    /// The good and questionable nodes of the table at `now`, those of the
    /// bucket that `node_id` belongs to first, then those of the buckets
    /// around it, nearer buckets before farther ones.
    pub fn closest_nodes(&self, node_id: NodeId, now: u64) -> (nodes: ClosestNodes)
        requires
            self.wf(),
        ensures
            nodes@ == closest(self@, node_id, now),
    {
        let start_index = leading_bit_count(self.node_id, node_id);
        let ghost start = start_index as int;
        let ghost t = self@;
        let mut nodes: Vec<Node> = Vec::new();
        let mut current_index: usize = start_index;
        assert(views(nodes@) =~= walk(t, start, 0, 0, now));
        loop
            invariant_except_break
                views(nodes@) == walk(t, start, 0, visit_rank(start, current_index as int), now),
            invariant
                self.wf(),
                t == self@,
                start == start_index,
                start == shared_prefix_bits(t.node_id, node_id),
                start <= MAX_BUCKETS,
                current_index == start_index || current_index < MAX_BUCKETS,
            ensures
                views(nodes@) == walk(t, start, 0, 2 * MAX_BUCKETS, now),
            decreases 2 * MAX_BUCKETS - visit_rank(start, current_index as int),
        {
            let ghost rank = visit_rank(start, current_index as int);
            let here = self.nodes_at_index(current_index, now);
            append_nodes(&mut nodes, &here);
            proof {
                lemma_rank_index(start, current_index as int, rank);
                assert(views(nodes@) == walk(t, start, 0, rank + 1, now));
            }
            match next_bucket_index(MAX_BUCKETS, start_index, current_index) {
                Some(next) => {
                    proof {
                        let next_rank = visit_rank(start, next as int);
                        assert forall|r: int| rank + 1 <= r < next_rank implies {
                            let index = #[trigger] index_at_rank(start, r);
                            index < 0 || index >= MAX_BUCKETS
                        } by {
                            let index = index_at_rank(start, r);
                            lemma_rank_index(start, index, r);
                            if 0 <= index < MAX_BUCKETS {
                                assert(visit_rank(start, index) >= next_rank);
                            }
                        }
                        lemma_walk_outside(t, start, 0, rank + 1, next_rank, now);
                    }
                    current_index = next;
                },
                None => {
                    proof {
                        assert forall|r: int| rank + 1 <= r < 2 * MAX_BUCKETS implies {
                            let index = #[trigger] index_at_rank(start, r);
                            index < 0 || index >= MAX_BUCKETS
                        } by {
                            let index = index_at_rank(start, r);
                            lemma_rank_index(start, index, r);
                            if 0 <= index < MAX_BUCKETS {
                                assert(visit_rank(start, index) <= rank);
                            }
                        }
                        lemma_walk_outside(t, start, 0, rank + 1, 2 * MAX_BUCKETS as int, now);
                    }
                    break ;
                },
            }
        }
        let closest = ClosestNodes { nodes, taken: 0 };
        assert(closest@ =~= views(closest.nodes@));
        closest
    }
}

/// The entry of the node with the given handle that `find_node` finds at
/// `now`: the first good or questionable one in the bucket the node belongs
/// to. The result is the index of the bucket and the slot in it; the slot
/// is 8 if there is no such entry.
pub open spec fn found_at(t: TableView, handle: NodeHandle, now: u64) -> (int, int) {
    let index = placement(
        shared_prefix_bits(t.node_id, handle.id) as int,
        t.buckets.len() as int,
    );
    (index, first_index(t.buckets[index], ping_able_with_handle(handle, now)))
}

/// The table after a request to the node with the given handle was
/// recorded at `now` in the entry that `find_node` finds, if there is one.
pub open spec fn table_local_request(t: TableView, handle: NodeHandle, now: u64) -> TableView {
    let (index, slot) = found_at(t, handle, now);
    if slot < MAX_BUCKET_SIZE {
        TableView {
            buckets: t.buckets.update(
                index,
                t.buckets[index].update(slot, after_local_request(t.buckets[index][slot], now)),
            ),
            ..t
        }
    } else {
        t
    }
}

impl RoutingTable {
    /// The addresses of all entries, placeholders included, bucket after
    /// bucket.
    pub fn get_nodes(&self) -> (addresses: Vec<SocketAddr>)
        ensures
            addresses@ == all_addresses(self@.buckets),
    {
        let mut addresses: Vec<SocketAddr> = Vec::new();
        let mut i: usize = 0;
        assert(self@.buckets.take(0) =~= Seq::<Seq<NodeView>>::empty());
        while i < self.buckets.len()
            invariant
                i <= self.buckets@.len(),
                addresses@ == all_addresses(self@.buckets.take(i as int)),
            decreases self.buckets@.len() - i,
        {
            let ghost before = addresses@;
            let ghost bucket = self@.buckets[i as int];
            let bucket_nodes = self.buckets[i].iter();
            proof {
                self.buckets@[i as int].lemma_len();
            }
            let mut j: usize = 0;
            while j < MAX_BUCKET_SIZE
                invariant
                    j <= MAX_BUCKET_SIZE,
                    i < self.buckets@.len(),
                    bucket == self@.buckets[i as int],
                    bucket.len() == MAX_BUCKET_SIZE,
                    bucket_nodes@.len() == MAX_BUCKET_SIZE,
                    forall|k: int|
                        0 <= k < MAX_BUCKET_SIZE ==> (#[trigger] bucket_nodes@[k])@ == bucket[k],
                    addresses@ == before + Seq::new(j as nat, |k: int| bucket[k].handle.addr),
                decreases MAX_BUCKET_SIZE - j,
            {
                addresses.push(bucket_nodes[j].addr());
                assert(addresses@ =~= before + Seq::new(
                    (j + 1) as nat,
                    |k: int| bucket[k].handle.addr,
                ));
                j += 1;
            }
            proof {
                let next = self@.buckets.take(i as int + 1);
                assert(next.drop_last() =~= self@.buckets.take(i as int));
                assert(next.last() == bucket);
                assert(Seq::new(MAX_BUCKET_SIZE as nat, |k: int| bucket[k].handle.addr) =~= Seq::new(
                    bucket.len(),
                    |k: int| bucket[k].handle.addr,
                ));
            }
            i += 1;
        }
        assert(self@.buckets.take(self@.buckets.len() as int) =~= self@.buckets);
        addresses
    }

    /// Number of entries with the given status at `now`.
    fn num_nodes_with_status(&self, status: NodeStatus, now: u64) -> (n: usize)
        requires
            self.wf(),
        ensures
            n == count_with_status(self@.buckets, status, now),
    {
        let mut n: usize = 0;
        let mut i: usize = 0;
        assert(self@.buckets.take(0) =~= Seq::<Seq<NodeView>>::empty());
        while i < self.buckets.len()
            invariant
                self.wf(),
                i <= self.buckets@.len(),
                n <= MAX_BUCKET_SIZE * i,
                n == count_with_status(self@.buckets.take(i as int), status, now),
            decreases self.buckets@.len() - i,
        {
            let here = self.buckets[i].nodes_with_status(status, now);
            proof {
                let next = self@.buckets.take(i as int + 1);
                assert(next.drop_last() =~= self@.buckets.take(i as int));
                assert(next.last() == self@.buckets[i as int]);
                assert(views(here@).len() == here@.len());
            }
            n = n + here.len();
            i += 1;
        }
        assert(self@.buckets.take(self@.buckets.len() as int) =~= self@.buckets);
        n
    }

    /// Number of nodes that are good at `now`.
    pub fn num_good_nodes(&self, now: u64) -> (n: usize)
        requires
            self.wf(),
        ensures
            n == count_with_status(self@.buckets, NodeStatus::Good, now),
    {
        self.num_nodes_with_status(NodeStatus::Good, now)
    }

    /// Number of nodes that are questionable at `now`.
    pub fn num_questionable_node(&self, now: u64) -> (n: usize)
        requires
            self.wf(),
        ensures
            n == count_with_status(self@.buckets, NodeStatus::Questionable, now),
    {
        self.num_nodes_with_status(NodeStatus::Questionable, now)
    }

    /// The buckets, the one for the farthest nodes first.
    pub fn buckets(&self) -> (buckets: &Vec<Bucket>)
        ensures
            buckets@.len() == self@.buckets.len(),
            forall|i: int| 0 <= i < buckets@.len() ==> (#[trigger] buckets@[i])@ == self@.buckets[i],
    {
        &self.buckets
    }

    /// The entry of the node with the given handle, if the bucket that the
    /// node belongs to has one that is good or questionable at `now`.
    pub fn find_node(&self, node: &NodeHandle, now: u64) -> (found: Option<Node>)
        requires
            self.wf(),
        ensures
            match found {
                Some(entry) => found_at(self@, *node, now).1 < MAX_BUCKET_SIZE && entry@
                    == self@.buckets[found_at(self@, *node, now).0][found_at(self@, *node, now).1],
                None => found_at(self@, *node, now).1 == MAX_BUCKET_SIZE,
            },
    {
        let bucket_index = self.bucket_index_for_node(node.id);
        match self.buckets[bucket_index].position(node, now) {
            Some(slot) => Some(self.buckets[bucket_index].get(slot)),
            None => None,
        }
    }

    /// Records at `now` that a request was sent to the node with the given
    /// handle, in the entry that `find_node` finds. Returns whether there
    /// is such an entry; the table is unchanged if not.
    pub fn local_request(&mut self, node: &NodeHandle, now: u64) -> (found: bool)
        requires
            old(self).wf(),
        ensures
            final(self).wf(),
            final(self)@ == table_local_request(old(self)@, *node, now),
            found == (found_at(old(self)@, *node, now).1 < MAX_BUCKET_SIZE),
            final(self)@.buckets.len() == old(self)@.buckets.len(),
    {
        let ghost before = self@;
        let bucket_index = self.bucket_index_for_node(node.id);
        let mut bucket = self.buckets[bucket_index];
        match bucket.position(node, now) {
            Some(slot) => {
                let mut entry = bucket.get(slot);
                entry.local_request(now);
                bucket.set(slot, entry);
                self.buckets[bucket_index] = bucket;
                proof {
                    assert(self@.buckets =~= before.buckets.update(bucket_index as int, bucket@));
                    let after = self@;
                    lemma_first_index(
                        before.buckets[bucket_index as int],
                        ping_able_with_handle(*node, now),
                    );
                    assert forall|i: int, j: int|
                        0 <= i < after.buckets.len() && 0 <= j < MAX_BUCKET_SIZE && occupied(
                            #[trigger] after.buckets[i][j],
                        ) implies ideal_index(after, after.buckets[i][j]) < MAX_BUCKETS
                        && placement(
                        ideal_index(after, after.buckets[i][j]),
                        after.buckets.len() as int,
                    ) == i by {
                        assert(occupied(before.buckets[i][j]));
                    }
                }
                true
            },
            None => false,
        }
    }
}

/// The table after requests to the nodes with the given handles were
/// recorded at `now`, one after the other.
pub open spec fn requests_recorded(t: TableView, handles: Seq<NodeHandle>, now: u64) -> TableView
    decreases handles.len(),
{
    if handles.len() == 0 {
        t
    } else {
        requests_recorded(table_local_request(t, handles[0], now), handles.skip(1), now)
    }
}

impl RoutingTable {
    /// Records at `now` that requests were sent to the nodes with the
    /// given handles.
    pub fn local_requests(&mut self, handles: &Vec<NodeHandle>, now: u64)
        requires
            old(self).wf(),
        ensures
            final(self).wf(),
            final(self)@ == requests_recorded(old(self)@, handles@, now),
            final(self)@.buckets.len() == old(self)@.buckets.len(),
            final(self)@.node_id == old(self)@.node_id,
    {
        let mut i: usize = 0;
        assert(handles@.skip(0) =~= handles@);
        while i < handles.len()
            invariant
                self.wf(),
                i <= handles@.len(),
                self@.buckets.len() == old(self)@.buckets.len(),
                self@.node_id == old(self)@.node_id,
                requests_recorded(self@, handles@.skip(i as int), now) == requests_recorded(
                    old(self)@,
                    handles@,
                    now,
                ),
            decreases handles@.len() - i,
        {
            proof {
                let rest = handles@.skip(i as int);
                assert(rest[0] == handles@[i as int]);
                assert(rest.skip(1) =~= handles@.skip(i as int + 1));
            }
            self.local_request(&handles[i], now);
            i += 1;
        }
    }
}

/// Recording a request to one more node comes after recording those to
/// the nodes before it.
pub proof fn lemma_requests_recorded_push(
    t: TableView,
    handles: Seq<NodeHandle>,
    handle: NodeHandle,
    now: u64,
)
    ensures
        requests_recorded(t, handles.push(handle), now) == table_local_request(
            requests_recorded(t, handles, now),
            handle,
            now,
        ),
    decreases handles.len(),
{
    let all = handles.push(handle);
    if handles.len() == 0 {
        assert(all.skip(1) =~= Seq::<NodeHandle>::empty());
        assert(all[0] == handle);
        assert(requests_recorded(table_local_request(t, handle, now), all.skip(1), now)
            == table_local_request(t, handle, now));
    } else {
        assert(all[0] == handles[0]);
        assert(all.skip(1) =~= handles.skip(1).push(handle));
        lemma_requests_recorded_push(
            table_local_request(t, handles[0], now),
            handles.skip(1),
            handle,
            now,
        );
    }
}

/// The table after a request from the node with the given handle was
/// recorded at `now` in the entry that `find_node` finds, if there is one.
pub open spec fn table_remote_request(t: TableView, handle: NodeHandle, now: u64) -> TableView {
    let (index, slot) = found_at(t, handle, now);
    if slot < MAX_BUCKET_SIZE {
        TableView {
            buckets: t.buckets.update(
                index,
                t.buckets[index].update(
                    slot,
                    NodeView { last_request: Some(now), ..t.buckets[index][slot] },
                ),
            ),
            ..t
        }
    } else {
        t
    }
}

impl RoutingTable {
    /// Records at `now` that the node with the given handle sent a
    /// request, in the entry that `find_node` finds. Returns whether there
    /// is such an entry; the table is unchanged if not.
    pub fn remote_request(&mut self, node: &NodeHandle, now: u64) -> (found: bool)
        requires
            old(self).wf(),
        ensures
            final(self).wf(),
            final(self)@ == table_remote_request(old(self)@, *node, now),
            found == (found_at(old(self)@, *node, now).1 < MAX_BUCKET_SIZE),
            final(self)@.buckets.len() == old(self)@.buckets.len(),
    {
        let ghost before = self@;
        let bucket_index = self.bucket_index_for_node(node.id);
        let mut bucket = self.buckets[bucket_index];
        match bucket.position(node, now) {
            Some(slot) => {
                let mut entry = bucket.get(slot);
                entry.remote_request(now);
                bucket.set(slot, entry);
                self.buckets[bucket_index] = bucket;
                proof {
                    assert(self@.buckets =~= before.buckets.update(bucket_index as int, bucket@));
                    let after = self@;
                    lemma_first_index(
                        before.buckets[bucket_index as int],
                        ping_able_with_handle(*node, now),
                    );
                    assert forall|i: int, j: int|
                        0 <= i < after.buckets.len() && 0 <= j < MAX_BUCKET_SIZE && occupied(
                            #[trigger] after.buckets[i][j],
                        ) implies ideal_index(after, after.buckets[i][j]) < MAX_BUCKETS
                        && placement(
                        ideal_index(after, after.buckets[i][j]),
                        after.buckets.len() as int,
                    ) == i by {
                        assert(occupied(before.buckets[i][j]));
                    }
                }
                true
            },
            None => false,
        }
    }

    /// The handles of the first `limit` good and questionable nodes of the
    /// walk from the bucket that `target` belongs to.
    pub fn closest_handles(&self, target: NodeId, limit: usize, now: u64) -> (handles: Vec<
        NodeHandle,
    >)
        requires
            self.wf(),
        ensures
            handles@ == first_handles(closest(self@, target, now), limit as nat),
    {
        let nodes = self.closest_nodes(target, now).to_vec();
        let ghost all = closest(self@, target, now);
        let mut handles: Vec<NodeHandle> = Vec::new();
        let mut i: usize = 0;
        while i < nodes.len() && i < limit
            invariant
                i <= nodes@.len(),
                i <= limit,
                all == views(nodes@),
                handles@.len() == i,
                forall|k: int| 0 <= k < i ==> handles@[k] == all[k].handle,
            decreases nodes@.len() - i,
        {
            assert(all[i as int] == nodes@[i as int]@);
            handles.push(*nodes[i].handle());
            i += 1;
        }
        assert(handles@ =~= first_handles(all, limit as nat));
        handles
    }
}

/// The handles of the first `limit` entries of a sequence, or of all if
/// there are fewer.
pub open spec fn first_handles(s: Seq<NodeView>, limit: nat) -> Seq<NodeHandle> {
    Seq::new(
        if s.len() < limit {
            s.len()
        } else {
            limit
        },
        |i: int| s[i].handle,
    )
}

/// Every node in a bucket but the last shares with the local id exactly as
/// many leading bits as the index of its bucket says, and every node in
/// the last bucket at least as many.
pub proof fn lemma_placement(t: TableView, i: int, j: int)
    requires
        well_placed(t),
        0 <= i < t.buckets.len(),
        0 <= j < MAX_BUCKET_SIZE,
        occupied(t.buckets[i][j]),
    ensures
        i < t.buckets.len() - 1 ==> ideal_index(t, t.buckets[i][j]) == i,
        i == t.buckets.len() - 1 ==> i <= ideal_index(t, t.buckets[i][j]) < MAX_BUCKETS,
{
}

/// Every node that a walk hands out belongs to a bucket index of the
/// table and is good or questionable.
pub proof fn lemma_walk_members(
    t: TableView,
    start: int,
    from_rank: int,
    to_rank: int,
    now: u64,
    p: int,
)
    requires
        well_placed(t),
        0 <= p < walk(t, start, from_rank, to_rank, now).len(),
    ensures
        0 <= ideal_index(t, walk(t, start, from_rank, to_rank, now)[p]) < MAX_BUCKETS,
        ping_able(walk(t, start, from_rank, to_rank, now)[p], now),
    decreases to_rank - from_rank,
{
    if from_rank < to_rank {
        let head = walk(t, start, from_rank, to_rank - 1, now);
        let index = index_at_rank(start, to_rank - 1);
        let tail = nodes_at(t, index, now);
        if p < head.len() {
            lemma_walk_members(t, start, from_rank, to_rank - 1, now, p);
            assert((head + tail)[p] == head[p]);
        } else {
            assert((head + tail)[p] == tail[p - head.len()]);
            lemma_nodes_at_ideal(t, index, now, p - head.len());
            if index < 0 || index >= MAX_BUCKETS {
                lemma_nodes_at_outside(t, index, now);
            }
        }
    }
}

/// How close to `target` the walk from the bucket of `target` counts a
/// node: by the number of leading bits that the node shares with the
/// target, where all nodes that share more than the target shares with
/// the local id count alike. More shared bits are a smaller distance.
pub open spec fn closeness(t: TableView, target: Id, v: NodeView) -> int {
    let start = shared_prefix_bits(t.node_id, target) as int;
    let shared = shared_prefix_bits(target, v.handle.id) as int;
    if shared > start {
        start + 1
    } else {
        shared
    }
}

/// The nodes that `closest` hands out come no closer to the target as the
/// walk goes on, as long as the walk has not handed out a node of a bucket
/// below that of the target before a node of a bucket above it: such a
/// node is farther from the target than all nodes of the buckets above.
pub proof fn lemma_closest_by_distance(t: TableView, target: Id, now: u64, p: int, q: int)
    requires
        well_placed(t),
        0 <= p <= q < closest(t, target, now).len(),
        !(ideal_index(t, closest(t, target, now)[p]) < shared_prefix_bits(t.node_id, target)
            && shared_prefix_bits(t.node_id, target) < ideal_index(
            t,
            closest(t, target, now)[q],
        )),
    ensures
        closeness(t, target, closest(t, target, now)[p]) >= closeness(
            t,
            target,
            closest(t, target, now)[q],
        ),
{
    let start = shared_prefix_bits(t.node_id, target) as int;
    let e = closest(t, target, now);
    lemma_walk_ordered(t, start, 0, 2 * MAX_BUCKETS, now);
    lemma_walk_members(t, start, 0, 2 * MAX_BUCKETS as int, now, p);
    lemma_walk_members(t, start, 0, 2 * MAX_BUCKETS as int, now, q);
    crate::id::lemma_shared_prefix(t.node_id, target, e[p].handle.id);
    crate::id::lemma_shared_prefix(t.node_id, target, e[q].handle.id);
    assert(visit_rank(start, ideal_index(t, e[p])) <= visit_rank(start, ideal_index(t, e[q])));
}

} // verus!
