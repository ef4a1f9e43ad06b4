//! Transaction ids: eight bytes, of which the first five name the action
//! that a message belongs to and the last three the message within it.
//!
//! Both parts are handed out from blocks of consecutive numbers. A block is
//! shuffled before use, so that an observer of one id cannot guess the
//! others in flight; when a block is used up the next one is allocated, and
//! after the last block the first comes again.

use vstd::prelude::*;
use crate::bytes::{big_endian, lemma_big_endian_injective, u64_from_be_bytes, u64_to_be_bytes};

verus! {

/// Number of bytes of a transaction id.
pub const TRANSACTION_ID_BYTES: usize = 8;

/// Number of bytes of the action id in a transaction id.
pub const ACTION_ID_BYTES: usize = 5;

/// Number of bytes of the message id in a transaction id.
pub const MESSAGE_ID_BYTES: usize = 3;

/// Number of bits of an action id.
pub const ACTION_ID_SHIFT: usize = 40;

/// One more than the largest action id.
pub const MAX_ACTION_ID: u64 = 0x100_0000_0000;

/// Number of bits of a message id.
pub const MESSAGE_ID_SHIFT: usize = 24;

/// One more than the largest message id.
pub const MAX_MESSAGE_ID: u64 = 0x100_0000;

/// Number of action ids that are allocated and shuffled at a time.
pub const ACTION_ID_PRE_ALLOC_LEN: usize = 2048;

/// Number of message ids that are allocated and shuffled at a time.
pub const MESSAGE_ID_PRE_ALLOC_LEN: usize = 2048;

/// What a generator of ids is, as a value: the number at which the next
/// block will start, the ids of the current block that are not handed out
/// yet, in the order in which they will be, and the length of a block.
pub struct GeneratorView {
    pub next_alloc: u64,
    pub remaining: Seq<u64>,
    pub block_len: nat,
}

/// Whether `s` holds each number from `start` up to `start + len`, the
/// latter excluded, exactly once, in any order.
pub open spec fn is_block(s: Seq<u64>, start: int, len: int) -> bool {
    &&& s.len() == len
    &&& s.no_duplicates()
    &&& forall|x: u64| s.contains(x) <==> start <= x < start + len
}

/// The invariant of a generator that hands out ids below `max`: blocks
/// divide the range of ids evenly, the next block starts at a multiple of
/// the block length, and the ids that are left of the current block are
/// distinct numbers of that block.
pub open spec fn generator_wf(v: GeneratorView, max: u64) -> bool {
    &&& v.block_len >= 1
    &&& max >= 1
    &&& max as int % v.block_len as int == 0
    &&& v.next_alloc <= max
    &&& v.next_alloc as int % v.block_len as int == 0
    &&& v.remaining.no_duplicates()
    &&& forall|i: int|
        0 <= i < v.remaining.len() ==> v.next_alloc - v.block_len <= #[trigger] v.remaining[i]
            < v.next_alloc
}

/// The number at which the block starts that a generator allocates when it
/// has allocated up to `next_alloc`: after the last block below `max` the
/// first comes again.
pub open spec fn block_start(next_alloc: u64, max: u64) -> int {
    if next_alloc == max {
        0
    } else {
        next_alloc as int
    }
}

/// Whether a generator in state `old` may hand out `id` and be in state
/// `new` after: it hands out the first id that is left; if none is left, it
/// allocates the next block and hands out any of its ids, the others being
/// left in any order.
pub open spec fn issues(old: GeneratorView, id: u64, new: GeneratorView, max: u64) -> bool {
    &&& new.block_len == old.block_len
    &&& if old.remaining.len() > 0 {
        &&& id == old.remaining[0]
        &&& new.remaining == old.remaining.skip(1)
        &&& new.next_alloc == old.next_alloc
    } else {
        &&& new.next_alloc == block_start(old.next_alloc, max) + old.block_len
        &&& is_block(
            seq![id] + new.remaining,
            block_start(old.next_alloc, max),
            old.block_len as int,
        )
    }
}

/// The ids that a generator in state `v` has had its chance to hand out
/// since the first block: those below the start of the next block that are
/// not left.
pub open spec fn used(v: GeneratorView) -> Set<u64> {
    Set::new(|x: u64| x < v.next_alloc && !v.remaining.contains(x))
}

/// The numbers from `start` on, `len` of them.
pub open spec fn range_seq(start: u64, len: nat) -> Seq<u64> {
    Seq::new(len, |i: int| (start + i) as u64)
}

/// The numbers from `start` on are a block.
pub proof fn lemma_range_is_block(start: u64, len: nat)
    requires
        start + len <= u64::MAX,
    ensures
        is_block(range_seq(start, len), start as int, len as int),
{
    let s = range_seq(start, len);
    assert forall|x: u64| s.contains(x) <==> start <= x < start + len by {
        if start <= x < start + len {
            assert(s[x - start] == x);
        }
    }
}

/// A sequence with the same elements as a block, each as often, is a block.
pub proof fn lemma_permuted_block(s: Seq<u64>, p: Seq<u64>, start: int, len: int)
    requires
        is_block(s, start, len),
        p.to_multiset() == s.to_multiset(),
    ensures
        is_block(p, start, len),
{
    broadcast use vstd::seq_lib::group_to_multiset_ensures;

    s.lemma_multiset_has_no_duplicates();
    p.lemma_multiset_has_no_duplicates_conv();
    assert(p.to_multiset().len() == p.len());
    assert(s.to_multiset().len() == s.len());
    assert forall|x: u64| p.contains(x) <==> start <= x < start + len by {
        assert(p.contains(x) <==> p.to_multiset().count(x) > 0);
        assert(s.contains(x) <==> s.to_multiset().count(x) > 0);
    }
}

/// Calls `SliceRandom::shuffle` of the `rand` crate with the generator of
/// the thread: the elements are the same after, each as often, in an order
/// that chance decides.
#[verifier::external_body]
fn shuffle(ids: &mut Vec<u64>)
    ensures
        final(ids)@.to_multiset() == old(ids)@.to_multiset(),
{
    rand::seq::SliceRandom::shuffle(ids.as_mut_slice(), &mut rand::thread_rng());
}

/// The block of `block_len` consecutive ids that starts at `next_alloc`, or
/// at 0 if `next_alloc` is `max`, and the number at which the block after
/// it starts.
fn generate_block(next_alloc: u64, max: u64, block_len: usize) -> (r: (u64, Vec<u64>))
    requires
        block_start(next_alloc, max) + block_len <= u64::MAX,
    ensures
        r.0 == block_start(next_alloc, max) + block_len,
        r.1@ == range_seq(block_start(next_alloc, max) as u64, block_len as nat),
{
    let start: u64 = if next_alloc == max {
        0
    } else {
        next_alloc
    };
    let mut ids: Vec<u64> = Vec::new();
    let mut i: usize = 0;
    while i < block_len
        invariant
            i <= block_len,
            start + block_len <= u64::MAX,
            ids@.len() == i,
            forall|k: int| 0 <= k < i ==> ids@[k] == start + k,
        decreases block_len - i,
    {
        ids.push(start + i as u64);
        i += 1;
    }
    assert(ids@ =~= range_seq(start, block_len as nat));
    (start + block_len as u64, ids)
}

/// The block of `block_len` consecutive action ids that starts at
/// `next_alloc`, or at 0 if all action ids have been allocated, and the
/// number at which the block after it starts.
pub fn generate_aids(next_alloc: u64, block_len: usize) -> (r: (u64, Vec<u64>))
    requires
        block_start(next_alloc, MAX_ACTION_ID) + block_len <= u64::MAX,
    ensures
        r.0 == block_start(next_alloc, MAX_ACTION_ID) + block_len,
        r.1@ == range_seq(block_start(next_alloc, MAX_ACTION_ID) as u64, block_len as nat),
{
    generate_block(next_alloc, MAX_ACTION_ID, block_len)
}

/// The block of `block_len` consecutive message ids that starts at
/// `next_alloc`, or at 0 if all message ids have been allocated, and the
/// number at which the block after it starts.
pub fn generate_mids(next_alloc: u64, block_len: usize) -> (r: (u64, Vec<u64>))
    requires
        block_start(next_alloc, MAX_MESSAGE_ID) + block_len <= u64::MAX,
    ensures
        r.0 == block_start(next_alloc, MAX_MESSAGE_ID) + block_len,
        r.1@ == range_seq(block_start(next_alloc, MAX_MESSAGE_ID) as u64, block_len as nat),
{
    generate_block(next_alloc, MAX_MESSAGE_ID, block_len)
}

/// The state that both kinds of generator share: the block in use, how far
/// it is used, and where the next one starts.
#[derive(Debug)]
struct Blocks {
    max: u64,
    block_len: usize,
    next_alloc: u64,
    current_index: usize,
    ids: Vec<u64>,
}

impl View for Blocks {
    type V = GeneratorView;

    closed spec fn view(&self) -> GeneratorView {
        GeneratorView {
            next_alloc: self.next_alloc,
            remaining: if self.current_index <= self.ids@.len() {
                self.ids@.skip(self.current_index as int)
            } else {
                Seq::empty()
            },
            block_len: self.block_len as nat,
        }
    }
}

/// The start of the block after one that starts at a multiple of the block
/// length below `max` is at most `max`, if blocks divide `max` evenly.
proof fn lemma_block_fits(start: int, len: int, max: int)
    requires
        len >= 1,
        0 <= start < max,
        start % len == 0,
        max % len == 0,
    ensures
        start + len <= max,
        (start + len) % len == 0,
{
    assert(start + len <= max && (start + len) % len == 0) by (nonlinear_arith)
        requires
            len >= 1,
            0 <= start < max,
            start % len == 0,
            max % len == 0,
    ;
}

impl Blocks {
    spec fn wf(&self) -> bool {
        &&& generator_wf(self@, self.max)
        &&& self.current_index <= self.ids@.len()
        &&& self.max <= MAX_ACTION_ID
    }

    /// A generator that has allocated no block yet.
    fn new(max: u64, block_len: usize) -> (blocks: Blocks)
        requires
            block_len >= 1,
            max >= 1,
            max as int % block_len as int == 0,
            max <= MAX_ACTION_ID,
        ensures
            blocks.wf(),
            blocks.max == max,
            blocks@ == (GeneratorView {
                next_alloc: 0,
                remaining: Seq::empty(),
                block_len: block_len as nat,
            }),
    {
        let blocks = Blocks { max, block_len, next_alloc: 0, current_index: 0, ids: Vec::new() };
        assert(blocks@.remaining =~= Seq::<u64>::empty());
        blocks
    }

    /// Gives up what is left of the current block; the next block starts at
    /// `next_alloc`.
    fn resume_at(&mut self, next_alloc: u64)
        requires
            old(self).wf(),
            next_alloc <= old(self).max,
            next_alloc as int % old(self)@.block_len as int == 0,
        ensures
            final(self).wf(),
            final(self).max == old(self).max,
            final(self)@ == (GeneratorView {
                next_alloc,
                remaining: Seq::empty(),
                block_len: old(self)@.block_len,
            }),
    {
        self.next_alloc = next_alloc;
        self.current_index = self.ids.len();
        assert(self@.remaining =~= Seq::<u64>::empty());
    }

    /// Hands out the next id.
    fn generate(&mut self) -> (id: u64)
        requires
            old(self).wf(),
        ensures
            final(self).wf(),
            final(self).max == old(self).max,
            issues(old(self)@, id, final(self)@, old(self).max),
            id < old(self).max,
    {
        if self.current_index >= self.ids.len() {
            let ghost start = block_start(self.next_alloc, self.max);
            proof {
                lemma_block_fits(start, self.block_len as int, self.max as int);
            }
            let (next_alloc, mut ids) = generate_block(self.next_alloc, self.max, self.block_len);
            let ghost range = ids@;
            shuffle(&mut ids);
            proof {
                lemma_range_is_block(start as u64, self.block_len as nat);
                lemma_permuted_block(range, ids@, start, self.block_len as int);
                assert(ids@.len() >= 1);
                assert(ids@ =~= seq![ids@[0]] + ids@.skip(1));
                assert forall|i: int| 0 <= i < ids@.len() implies start <= #[trigger] ids@[i] < start
                    + self.block_len by {
                    assert(ids@.contains(ids@[i]));
                }
            }
            self.next_alloc = next_alloc;
            self.ids = ids;
            self.current_index = 0;
        }
        let ghost before = self@;
        assert(generator_wf(before, self.max));
        let id = self.ids[self.current_index];
        self.current_index = self.current_index + 1;
        proof {
            assert(before.remaining[0] == id);
            assert(self@.remaining =~= before.remaining.skip(1));
            assert forall|i: int| 0 <= i < self@.remaining.len() implies #[trigger] self@.remaining[i]
                == before.remaining[i + 1] by {}
        }
        id
    }
}

/// Whether a generator in state `v` has allocated every block below `max`
/// and has nothing left: the id it hands out next comes from the first
/// block again.
pub open spec fn wraps(v: GeneratorView, max: u64) -> bool {
    v.remaining.len() == 0 && v.next_alloc == max
}

/// An id that a generator hands out is below `max`, and the generator meets
/// its invariant after. Unless the generator wraps around, the id is none
/// of those that it had its chance to hand out before, and is one of them
/// after, with all of those.
pub proof fn lemma_issue_fresh(a: GeneratorView, id: u64, b: GeneratorView, max: u64)
    requires
        generator_wf(a, max),
        issues(a, id, b, max),
    ensures
        generator_wf(b, max),
        id < max,
        !wraps(a, max) ==> !used(a).contains(id),
        !wraps(a, max) ==> used(b) == used(a).insert(id),
        wraps(a, max) ==> id < a.block_len && b.next_alloc == a.block_len,
{
    if a.remaining.len() > 0 {
        assert(a.remaining.contains(id));
        assert forall|i: int| 0 <= i < b.remaining.len() implies #[trigger] b.remaining[i]
            == a.remaining[i + 1] by {}
        assert forall|x: u64| used(b).contains(x) == used(a).insert(id).contains(x) by {
            if a.remaining.contains(x) && x != id {
                let i = choose|i: int| 0 <= i < a.remaining.len() && a.remaining[i] == x;
                assert(b.remaining[i - 1] == x);
            }
            if b.remaining.contains(x) {
                let i = choose|i: int| 0 <= i < b.remaining.len() && b.remaining[i] == x;
                assert(a.remaining[i + 1] == x);
            }
        }
        assert(used(b) =~= used(a).insert(id));
    } else {
        let start = block_start(a.next_alloc, max);
        let whole = seq![id] + b.remaining;
        lemma_block_fits(start, a.block_len as int, max as int);
        assert(whole[0] == id);
        assert(whole.contains(id));
        assert forall|i: int| 0 <= i < b.remaining.len() implies start <= #[trigger] b.remaining[i]
            < start + a.block_len && b.remaining[i] != id by {
            assert(whole[i + 1] == b.remaining[i]);
            assert(whole.contains(b.remaining[i]));
        }
        assert forall|i: int, j: int|
            0 <= i < b.remaining.len() && 0 <= j < b.remaining.len() && i != j implies b.remaining[i]
            != b.remaining[j] by {
            assert(whole[i + 1] == b.remaining[i]);
            assert(whole[j + 1] == b.remaining[j]);
        }
        if !wraps(a, max) {
            assert forall|x: u64| used(b).contains(x) == used(a).insert(id).contains(x) by {
                if start <= x < start + a.block_len && x != id {
                    assert(whole.contains(x));
                    let i = choose|i: int| 0 <= i < whole.len() && whole[i] == x;
                    assert(b.remaining[i - 1] == x);
                }
            }
            assert(used(b) =~= used(a).insert(id));
        }
    }
}

/// Whether `states` and `ids` record a run of a generator that does not
/// wrap around: from each state the generator hands out the id of the same
/// index and enters the next state.
pub open spec fn is_run(states: Seq<GeneratorView>, ids: Seq<u64>, max: u64) -> bool {
    &&& states.len() == ids.len() + 1
    &&& forall|i: int|
        0 <= i < ids.len() ==> issues(#[trigger] states[i], ids[i], states[i + 1], max) && !wraps(
            states[i],
            max,
        )
}

/// A run without its last step is a run.
proof fn lemma_run_prefix(states: Seq<GeneratorView>, ids: Seq<u64>, max: u64)
    requires
        is_run(states, ids, max),
        ids.len() > 0,
    ensures
        is_run(states.drop_last(), ids.drop_last(), max),
        states.drop_last().last() == states[ids.len() - 1],
        states.drop_last()[0] == states[0],
        issues(states[ids.len() - 1], ids.last(), states.last(), max),
        !wraps(states[ids.len() - 1], max),
{
    let init_states = states.drop_last();
    let init_ids = ids.drop_last();
    assert forall|i: int| 0 <= i < init_ids.len() implies issues(
        #[trigger] init_states[i],
        init_ids[i],
        init_states[i + 1],
        max,
    ) && !wraps(init_states[i], max) by {
        assert(issues(states[i], ids[i], states[i + 1], max));
    }
    let n = ids.len() as int;
    assert(issues(states[n - 1], ids[n - 1], states[n], max));
}

/// The ids that a generator hands out are all different, over any number of
/// blocks, until it wraps around.
pub proof fn lemma_run_ids_unique(states: Seq<GeneratorView>, ids: Seq<u64>, max: u64)
    requires
        is_run(states, ids, max),
        generator_wf(states[0], max),
    ensures
        ids.no_duplicates(),
        generator_wf(states.last(), max),
        forall|i: int| 0 <= i < ids.len() ==> used(states.last()).contains(#[trigger] ids[i]),
    decreases ids.len(),
{
    if ids.len() > 0 {
        let n = ids.len() as int;
        let init_states = states.drop_last();
        let init_ids = ids.drop_last();
        let before = states[n - 1];
        let after = states.last();
        let last_id = ids.last();
        lemma_run_prefix(states, ids, max);
        lemma_run_ids_unique(init_states, init_ids, max);
        lemma_issue_fresh(before, last_id, after, max);
        let seen = used(before);
        let seen_after = used(after);
        assert(seen_after == seen.insert(last_id));
        assert(!seen.contains(last_id));
        assert forall|i: int| 0 <= i < n - 1 implies seen.contains(#[trigger] ids[i]) by {
            assert(init_ids[i] == ids[i]);
        }
        assert forall|i: int, j: int| 0 <= i < n && 0 <= j < n && i != j implies ids[i]
            != ids[j] by {
            if i < n - 1 && j < n - 1 {
                assert(init_ids[i] == ids[i]);
                assert(init_ids[j] == ids[j]);
            } else if i < n - 1 {
                assert(seen.contains(ids[i]));
            } else {
                assert(seen.contains(ids[j]));
            }
        }
    }
}

/// Whether `states` and `ids` record what a generator did: from each state
/// it handed out the id of the same index and entered the next state.
pub open spec fn is_trace(states: Seq<GeneratorView>, ids: Seq<u64>, max: u64) -> bool {
    &&& states.len() == ids.len() + 1
    &&& forall|i: int|
        0 <= i < ids.len() ==> issues(#[trigger] states[i], ids[i], states[i + 1], max)
}

/// What a generator did, with one more id handed out, is what it did.
pub proof fn lemma_trace_push(
    states: Seq<GeneratorView>,
    ids: Seq<u64>,
    state: GeneratorView,
    id: u64,
    max: u64,
)
    requires
        is_trace(states, ids, max),
        issues(states.last(), id, state, max),
    ensures
        is_trace(states.push(state), ids.push(id), max),
        states.push(state)[0] == states[0],
        states.push(state).last() == state,
{
    let more_states = states.push(state);
    let more_ids = ids.push(id);
    assert forall|i: int| 0 <= i < more_ids.len() implies issues(
        #[trigger] more_states[i],
        more_ids[i],
        more_states[i + 1],
        max,
    ) by {
        if i < ids.len() {
            assert(issues(states[i], ids[i], states[i + 1], max));
        }
    }
}

/// The message ids of a sequence of transaction ids.
pub open spec fn message_ids(ids: Seq<TransactionID>) -> Seq<u64> {
    Seq::new(ids.len(), |i: int| (ids[i].value_spec() % MAX_MESSAGE_ID) as u64)
}

/// The message ids of a sequence with one more transaction id.
pub proof fn lemma_message_ids_push(ids: Seq<TransactionID>, id: TransactionID)
    ensures
        message_ids(ids.push(id)) == message_ids(ids).push(
            (id.value_spec() % MAX_MESSAGE_ID) as u64,
        ),
{
    assert(message_ids(ids.push(id)) =~= message_ids(ids).push(
        (id.value_spec() % MAX_MESSAGE_ID) as u64,
    ));
}

/// The id of an action: the first five bytes of a transaction id.
#[derive(Copy, Clone, Debug, PartialEq, Eq, Hash, Structural)]
pub struct ActionID {
    action_id: u64,
}

impl ActionID {
    /// The id as a number.
    pub closed spec fn value_spec(self) -> u64 {
        self.action_id
    }

    /// The id as a number.
    pub fn value(&self) -> (v: u64)
        ensures
            v == self.value_spec(),
    {
        self.action_id
    }

    /// The action id in a transaction id that is given as a number.
    pub fn from_transaction_id(trans_id: u64) -> (id: ActionID)
        ensures
            id.value_spec() == trans_id / MAX_MESSAGE_ID,
    {
        ActionID { action_id: trans_id / MAX_MESSAGE_ID }
    }

    /// An action id is its number.
    pub proof fn lemma_value_determines(a: ActionID, b: ActionID)
        requires
            a.value_spec() == b.value_spec(),
        ensures
            a == b,
    {
    }
}

/// The id of a message within an action: the last three bytes of a
/// transaction id.
#[derive(Copy, Clone, Debug, PartialEq, Eq, Hash, Structural)]
pub struct MessageID {
    message_id: u64,
}

impl MessageID {
    /// The id as a number.
    pub closed spec fn value_spec(self) -> u64 {
        self.message_id
    }

    /// The id as a number.
    pub fn value(&self) -> (v: u64)
        ensures
            v == self.value_spec(),
    {
        self.message_id
    }

    /// The message id in a transaction id that is given as a number.
    pub fn from_transaction_id(trans_id: u64) -> (id: MessageID)
        ensures
            id.value_spec() == trans_id % MAX_MESSAGE_ID,
    {
        MessageID { message_id: trans_id % MAX_MESSAGE_ID }
    }

    /// A message id is its number.
    pub proof fn lemma_value_determines(a: MessageID, b: MessageID)
        requires
            a.value_spec() == b.value_spec(),
        ensures
            a == b,
    {
    }
}

/// A transaction id: the id of an action in its first five bytes and the
/// id of a message in its last three.
#[derive(Copy, Clone, Debug, Hash)]
pub struct TransactionID {
    bytes: [u8; TRANSACTION_ID_BYTES],
}

impl View for TransactionID {
    type V = Seq<u8>;

    closed spec fn view(&self) -> Seq<u8> {
        self.bytes@
    }
}

impl TransactionID {
    /// The number that the eight bytes spell, most significant byte first.
    pub open spec fn value_spec(&self) -> u64 {
        big_endian(self@) as u64
    }

    /// A transaction id has eight bytes, and is what they are.
    pub proof fn lemma_view(a: TransactionID, b: TransactionID)
        ensures
            a@.len() == TRANSACTION_ID_BYTES,
            big_endian(a@) <= u64::MAX,
            a@ == b@ ==> a == b,
            a.value_spec() == b.value_spec() ==> a == b,
    {
        crate::bytes::lemma_big_endian_bound(a@);
        crate::bytes::lemma_big_endian_bound(b@);
        reveal_with_fuel(crate::bytes::pow256, 10);
        if a@ == b@ {
            assert(a.bytes =~= b.bytes);
        }
        if a.value_spec() == b.value_spec() {
            lemma_big_endian_injective(a@, b@);
            assert(a.bytes =~= b.bytes);
        }
    }

    /// The transaction id that spells the given number.
    pub fn new(trans_id: u64) -> (id: TransactionID)
        ensures
            id.value_spec() == trans_id,
    {
        TransactionID { bytes: u64_to_be_bytes(trans_id) }
    }

    /// The transaction id made of the given bytes, if there are eight.
    pub fn from_bytes(bytes: &[u8]) -> (id: Option<TransactionID>)
        ensures
            bytes@.len() == TRANSACTION_ID_BYTES ==> id is Some && id->0@ == bytes@,
            bytes@.len() != TRANSACTION_ID_BYTES ==> id is None,
    {
        if bytes.len() != TRANSACTION_ID_BYTES {
            return None;
        }
        let mut copy: [u8; TRANSACTION_ID_BYTES] = [0u8; TRANSACTION_ID_BYTES];
        let mut i: usize = 0;
        while i < TRANSACTION_ID_BYTES
            invariant
                i <= TRANSACTION_ID_BYTES,
                bytes@.len() == TRANSACTION_ID_BYTES,
                forall|j: int| 0 <= j < i ==> copy@[j] == bytes@[j],
            decreases TRANSACTION_ID_BYTES - i,
        {
            copy[i] = bytes[i];
            i += 1;
        }
        assert(copy@ =~= bytes@);
        Some(TransactionID { bytes: copy })
    }

    /// The number that the eight bytes spell.
    pub fn value(&self) -> (v: u64)
        ensures
            v == self.value_spec(),
    {
        u64_from_be_bytes(&self.bytes)
    }

    /// The id of the action: what the first five bytes spell.
    pub fn action_id(&self) -> (id: ActionID)
        ensures
            id.value_spec() == self.value_spec() / MAX_MESSAGE_ID,
    {
        ActionID::from_transaction_id(u64_from_be_bytes(&self.bytes))
    }

    /// The id of the message: what the last three bytes spell.
    pub fn message_id(&self) -> (id: MessageID)
        ensures
            id.value_spec() == self.value_spec() % MAX_MESSAGE_ID,
    {
        MessageID::from_transaction_id(u64_from_be_bytes(&self.bytes))
    }

    /// The eight bytes.
    pub fn as_ref(&self) -> (bytes: &[u8])
        ensures
            bytes@ == self@,
    {
        self.bytes.as_slice()
    }

    /// The eight bytes, as a vector.
    pub fn to_vec(&self) -> (bytes: Vec<u8>)
        ensures
            bytes@ == self@,
    {
        let mut bytes: Vec<u8> = Vec::new();
        let mut i: usize = 0;
        while i < TRANSACTION_ID_BYTES
            invariant
                i <= TRANSACTION_ID_BYTES,
                bytes@ == self@.take(i as int),
            decreases TRANSACTION_ID_BYTES - i,
        {
            bytes.push(self.bytes[i]);
            assert(bytes@ =~= self@.take(i as int + 1));
            i += 1;
        }
        assert(self@.take(TRANSACTION_ID_BYTES as int) =~= self@);
        bytes
    }

    /// Whether two transaction ids have the same bytes.
    pub fn same(&self, other: &TransactionID) -> (r: bool)
        ensures
            r == (*self == *other),
            r == (self@ == other@),
    {
        let r = crate::addr::bytes_equal(self.bytes.as_slice(), other.bytes.as_slice());
        proof {
            if r {
                assert(self.bytes =~= other.bytes);
            }
        }
        r
    }
}

impl PartialEq for TransactionID {
    fn eq(&self, other: &TransactionID) -> (r: bool) {
        self.same(other)
    }
}

impl vstd::std_specs::cmp::PartialEqSpecImpl for TransactionID {
    open spec fn obeys_eq_spec() -> bool {
        true
    }

    open spec fn eq_spec(&self, other: &TransactionID) -> bool {
        *self == *other
    }
}

impl Eq for TransactionID {

}

/// Hands out the transaction ids of one action: the action id is fixed, the
/// message ids come from shuffled blocks.
///
/// Its view is the state of the generator of message ids.
#[derive(Debug)]
pub struct MIDGenerator {
    action_id: u64,
    blocks: Blocks,
}

impl View for MIDGenerator {
    type V = GeneratorView;

    closed spec fn view(&self) -> GeneratorView {
        self.blocks@
    }
}

impl MIDGenerator {
    /// The id of the action, as the number that a transaction id of the
    /// action with message id 0 spells.
    pub closed spec fn action_bits(&self) -> u64 {
        self.action_id
    }

    /// The invariant: that of the generator of message ids, and an action
    /// id that leaves the last three bytes free.
    pub closed spec fn wf(&self) -> bool {
        &&& self.blocks.wf()
        &&& self.blocks.max == MAX_MESSAGE_ID
        &&& self.action_id % MAX_MESSAGE_ID == 0
        &&& self.action_id / MAX_MESSAGE_ID < MAX_ACTION_ID
    }

    /// What the invariant says of the view.
    pub proof fn lemma_wf(&self)
        requires
            self.wf(),
        ensures
            generator_wf(self@, MAX_MESSAGE_ID),
            self.action_bits() % MAX_MESSAGE_ID == 0,
            self.action_bits() / MAX_MESSAGE_ID < MAX_ACTION_ID,
    {
    }

    /// A generator for the action whose id, followed by three zero bytes,
    /// spells `action_id`. It allocates its first block of message ids when
    /// the first transaction id is asked for.
    pub fn new(action_id: u64) -> (generator: MIDGenerator)
        requires
            action_id % MAX_MESSAGE_ID == 0,
        ensures
            generator.wf(),
            generator.action_bits() == action_id,
            generator@ == (GeneratorView {
                next_alloc: 0,
                remaining: Seq::empty(),
                block_len: MESSAGE_ID_PRE_ALLOC_LEN as nat,
            }),
    {
        MIDGenerator { action_id, blocks: Blocks::new(MAX_MESSAGE_ID, MESSAGE_ID_PRE_ALLOC_LEN) }
    }

    /// As `new`, with blocks of `block_len` message ids.
    pub fn with_block_len(action_id: u64, block_len: usize) -> (generator: MIDGenerator)
        requires
            action_id % MAX_MESSAGE_ID == 0,
            block_len >= 1,
            MAX_MESSAGE_ID as int % block_len as int == 0,
        ensures
            generator.wf(),
            generator.action_bits() == action_id,
            generator@ == (GeneratorView {
                next_alloc: 0,
                remaining: Seq::empty(),
                block_len: block_len as nat,
            }),
    {
        MIDGenerator { action_id, blocks: Blocks::new(MAX_MESSAGE_ID, block_len) }
    }

    /// The id of the action.
    pub fn action_id(&self) -> (id: ActionID)
        ensures
            id.value_spec() == self.action_bits() / MAX_MESSAGE_ID,
    {
        ActionID::from_transaction_id(self.action_id)
    }

    /// Gives up what is left of the current block of message ids; the next
    /// block starts at `next_alloc`.
    pub fn resume_at(&mut self, next_alloc: u64)
        requires
            old(self).wf(),
            next_alloc <= MAX_MESSAGE_ID,
            next_alloc as int % old(self)@.block_len as int == 0,
        ensures
            final(self).wf(),
            final(self).action_bits() == old(self).action_bits(),
            final(self)@ == (GeneratorView {
                next_alloc,
                remaining: Seq::empty(),
                block_len: old(self)@.block_len,
            }),
    {
        self.blocks.resume_at(next_alloc);
    }

    /// Hands out the next `count` transaction ids of the action, one after
    /// the other.
    pub fn generate_many(&mut self, count: usize) -> (ids: Vec<TransactionID>)
        requires
            old(self).wf(),
        ensures
            final(self).wf(),
            final(self).action_bits() == old(self).action_bits(),
            ids@.len() == count,
            forall|i: int|
                0 <= i < count ==> (#[trigger] ids@[i]).value_spec() / MAX_MESSAGE_ID == old(
                    self,
                ).action_bits() / MAX_MESSAGE_ID,
            exists|states: Seq<GeneratorView>|
                states[0] == old(self)@ && states.last() == final(self)@ && is_trace(
                    states,
                    message_ids(ids@),
                    MAX_MESSAGE_ID,
                ),
    {
        let mut ids: Vec<TransactionID> = Vec::new();
        let ghost mut states: Seq<GeneratorView> = seq![self@];
        assert(message_ids(ids@) =~= Seq::<u64>::empty());
        while ids.len() < count
            invariant
                self.wf(),
                self.action_bits() == old(self).action_bits(),
                ids@.len() <= count,
                forall|i: int|
                    0 <= i < ids@.len() ==> (#[trigger] ids@[i]).value_spec() / MAX_MESSAGE_ID
                        == old(self).action_bits() / MAX_MESSAGE_ID,
                states[0] == old(self)@,
                states.last() == self@,
                is_trace(states, message_ids(ids@), MAX_MESSAGE_ID),
            decreases count - ids@.len(),
        {
            let ghost before_states = states;
            let ghost before_ids = message_ids(ids@);
            let id = self.generate();
            ids.push(id);
            proof {
                states = states.push(self@);
                let now_ids = message_ids(ids@);
                assert(now_ids =~= before_ids.push((id.value_spec() % MAX_MESSAGE_ID) as u64));
                assert forall|i: int| 0 <= i < now_ids.len() implies issues(
                    #[trigger] states[i],
                    now_ids[i],
                    states[i + 1],
                    MAX_MESSAGE_ID,
                ) by {
                    if i < before_ids.len() {
                        assert(issues(
                            before_states[i],
                            before_ids[i],
                            before_states[i + 1],
                            MAX_MESSAGE_ID,
                        ));
                    }
                }
            }
        }
        ids
    }

    /// Hands out the next transaction id of the action: the action id
    /// followed by the message id that the generator of message ids hands
    /// out.
    pub fn generate(&mut self) -> (id: TransactionID)
        requires
            old(self).wf(),
        ensures
            final(self).wf(),
            final(self).action_bits() == old(self).action_bits(),
            id.value_spec() / MAX_MESSAGE_ID == old(self).action_bits() / MAX_MESSAGE_ID,
            issues(
                old(self)@,
                id.value_spec() % MAX_MESSAGE_ID,
                final(self)@,
                MAX_MESSAGE_ID,
            ),
    {
        let message_id = self.blocks.generate();
        TransactionID::new(self.action_id + message_id)
    }
}

/// Hands out the ids of actions, each as a generator of the transaction ids
/// of that action.
///
/// Its view is the state of the generator of action ids.
#[derive(Debug)]
pub struct AIDGenerator {
    blocks: Blocks,
    message_block_len: usize,
}

impl View for AIDGenerator {
    type V = GeneratorView;

    closed spec fn view(&self) -> GeneratorView {
        self.blocks@
    }
}

impl AIDGenerator {
    /// Length of the blocks of message ids of the generators handed out.
    pub closed spec fn message_block_len(&self) -> nat {
        self.message_block_len as nat
    }

    /// The invariant: that of the generator of action ids, and a block
    /// length for message ids that divides their range.
    pub closed spec fn wf(&self) -> bool {
        &&& self.blocks.wf()
        &&& self.blocks.max == MAX_ACTION_ID
        &&& self.message_block_len >= 1
        &&& MAX_MESSAGE_ID as int % self.message_block_len as int == 0
    }

    /// What the invariant says of the view.
    pub proof fn lemma_wf(&self)
        requires
            self.wf(),
        ensures
            generator_wf(self@, MAX_ACTION_ID),
    {
    }

    /// A generator with blocks of `action_block_len` action ids, which
    /// hands out generators with blocks of `message_block_len` message ids.
    /// It allocates its first block when the first action id is asked for.
    pub fn with_block_len(action_block_len: usize, message_block_len: usize) -> (generator:
        AIDGenerator)
        requires
            action_block_len >= 1,
            MAX_ACTION_ID as int % action_block_len as int == 0,
            message_block_len >= 1,
            MAX_MESSAGE_ID as int % message_block_len as int == 0,
        ensures
            generator.wf(),
            generator.message_block_len() == message_block_len,
            generator@ == (GeneratorView {
                next_alloc: 0,
                remaining: Seq::empty(),
                block_len: action_block_len as nat,
            }),
    {
        AIDGenerator { blocks: Blocks::new(MAX_ACTION_ID, action_block_len), message_block_len }
    }

    /// Gives up what is left of the current block of action ids; the next
    /// block starts at `next_alloc`.
    pub fn resume_at(&mut self, next_alloc: u64)
        requires
            old(self).wf(),
            next_alloc <= MAX_ACTION_ID,
            next_alloc as int % old(self)@.block_len as int == 0,
        ensures
            final(self).wf(),
            final(self).message_block_len() == old(self).message_block_len(),
            final(self)@ == (GeneratorView {
                next_alloc,
                remaining: Seq::empty(),
                block_len: old(self)@.block_len,
            }),
    {
        self.blocks.resume_at(next_alloc);
    }

    /// Hands out the next action id, as a generator of the transaction ids
    /// of that action.
    pub fn generate(&mut self) -> (generator: MIDGenerator)
        requires
            old(self).wf(),
        ensures
            final(self).wf(),
            final(self).message_block_len() == old(self).message_block_len(),
            generator.wf(),
            generator.action_bits() % MAX_MESSAGE_ID == 0,
            issues(
                old(self)@,
                generator.action_bits() / MAX_MESSAGE_ID,
                final(self)@,
                MAX_ACTION_ID,
            ),
            generator@ == (GeneratorView {
                next_alloc: 0,
                remaining: Seq::empty(),
                block_len: old(self).message_block_len(),
            }),
    {
        let action_id = self.blocks.generate();
        MIDGenerator::with_block_len(action_id * MAX_MESSAGE_ID, self.message_block_len)
    }
}

impl Default for AIDGenerator {
    fn default() -> (generator: AIDGenerator)
        ensures
            generator.wf(),
            generator.message_block_len() == MESSAGE_ID_PRE_ALLOC_LEN,
            generator@ == (GeneratorView {
                next_alloc: 0,
                remaining: Seq::empty(),
                block_len: ACTION_ID_PRE_ALLOC_LEN as nat,
            }),
    {
        AIDGenerator::with_block_len(ACTION_ID_PRE_ALLOC_LEN, MESSAGE_ID_PRE_ALLOC_LEN)
    }
}

/// Two transaction ids are the same exactly if their action ids and their
/// message ids are.
pub proof fn lemma_transaction_id_parts(a: TransactionID, b: TransactionID)
    ensures
        a == b <==> (a.value_spec() / MAX_MESSAGE_ID == b.value_spec() / MAX_MESSAGE_ID
            && a.value_spec() % MAX_MESSAGE_ID == b.value_spec() % MAX_MESSAGE_ID),
{
    TransactionID::lemma_view(a, b);
}

} // verus!
