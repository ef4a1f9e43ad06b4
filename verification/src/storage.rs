//! The store of announces: which peers said, less than 25 hours ago, that
//! they have the content of an info hash. It holds at most 500 announces.

use vstd::prelude::*;
use crate::addr::SocketAddr;
use crate::id::InfoHash;
use crate::routing::node::{elapsed, since};

verus! {

/// Largest number of announces that the store holds.
pub const MAX_ITEMS_STORED: usize = 500;

/// Milliseconds after which an announce expires: 25 hours.
pub const EXPIRATION_TIME_MS: u64 = 90_000_000;

/// An announce, as a value: the info hash, the address of the peer, and
/// the time in milliseconds at which it was made.
pub struct ExpirationView {
    pub info_hash: InfoHash,
    pub address: SocketAddr,
    pub inserted: u64,
}

/// What identifies an announce: the info hash and the address of the peer.
pub open spec fn key(e: ExpirationView) -> (InfoHash, SocketAddr) {
    (e.info_hash, e.address)
}

/// Whether an announce is expired at `now`.
pub open spec fn expired(e: ExpirationView, now: u64) -> bool {
    elapsed(now, e.inserted) >= EXPIRATION_TIME_MS
}

/// Whether `s` holds an announce with the given key.
pub open spec fn has_key(s: Seq<ExpirationView>, k: (InfoHash, SocketAddr)) -> bool {
    exists|i: int| 0 <= i < s.len() && key(#[trigger] s[i]) == k
}

/// Whether no two announces of `s` have the same key.
pub open spec fn keys_unique(s: Seq<ExpirationView>) -> bool {
    forall|i: int, j: int|
        0 <= i < s.len() && 0 <= j < s.len() && i != j ==> key(#[trigger] s[i]) != key(
            #[trigger] s[j],
        )
}

/// The announces of `s` without those of the given key, in their order.
pub open spec fn without_key(s: Seq<ExpirationView>, k: (InfoHash, SocketAddr)) -> Seq<
    ExpirationView,
>
    decreases s.len(),
{
    if s.len() == 0 {
        s
    } else if key(s.last()) == k {
        without_key(s.drop_last(), k)
    } else {
        without_key(s.drop_last(), k).push(s.last())
    }
}

/// The addresses of the announces of `s` for the given info hash, in their
/// order.
pub open spec fn addresses_of(s: Seq<ExpirationView>, info_hash: InfoHash) -> Seq<SocketAddr>
    decreases s.len(),
{
    if s.len() == 0 {
        Seq::empty()
    } else if s.last().info_hash == info_hash {
        addresses_of(s.drop_last(), info_hash).push(s.last().address)
    } else {
        addresses_of(s.drop_last(), info_hash)
    }
}

/// What the store is, as a value: the announces in the order in which they
/// were first made, and in the order in which they were last made, where
/// each carries the time of that.
pub struct StorageView {
    pub items: Seq<ExpirationView>,
    pub expires: Seq<ExpirationView>,
}

/// The invariant of the store: both orders hold the same announces, each
/// once, and there are at most 500.
pub open spec fn storage_wf(v: StorageView) -> bool {
    &&& keys_unique(v.items)
    &&& keys_unique(v.expires)
    &&& forall|k: (InfoHash, SocketAddr)|
        #![trigger has_key(v.items, k)]
        #![trigger has_key(v.expires, k)]
        has_key(v.items, k) <==> has_key(v.expires, k)
    &&& v.items.len() == v.expires.len()
    &&& v.expires.len() <= MAX_ITEMS_STORED
}

/// The store without the announces that are expired at `now`: those at the
/// front of the order of expiry, up to the first that is not expired.
pub open spec fn pruned(v: StorageView, now: u64) -> StorageView
    decreases v.expires.len(),
{
    if v.expires.len() > 0 && expired(v.expires[0], now) {
        pruned(
            StorageView {
                items: without_key(v.items, key(v.expires[0])),
                expires: v.expires.skip(1),
            },
            now,
        )
    } else {
        v
    }
}

/// The store after the peer at `address` announced `info_hash` at `now`,
/// and whether the announce was taken. Expired announces go first. An
/// announce that the store holds is renewed: it expires last of all. A new
/// one is taken if fewer than 500 are held.
pub open spec fn added(v: StorageView, info_hash: InfoHash, address: SocketAddr, now: u64) -> (
    StorageView,
    bool,
) {
    let p = pruned(v, now);
    let e = ExpirationView { info_hash, address, inserted: now };
    if has_key(p.items, key(e)) {
        (StorageView { items: p.items, expires: without_key(p.expires, key(e)).push(e) }, true)
    } else if p.expires.len() < MAX_ITEMS_STORED {
        (StorageView { items: p.items.push(e), expires: p.expires.push(e) }, true)
    } else {
        (p, false)
    }
}

/// Which keys a sequence holds after those of one key were taken out.
pub proof fn lemma_without_key(s: Seq<ExpirationView>, k: (InfoHash, SocketAddr))
    ensures
        forall|x: (InfoHash, SocketAddr)|
            #![trigger has_key(without_key(s, k), x)]
            #![trigger has_key(s, x)]
            has_key(without_key(s, k), x) <==> (has_key(s, x) && x != k),
        keys_unique(s) ==> keys_unique(without_key(s, k)),
        keys_unique(s) && has_key(s, k) ==> without_key(s, k).len() == s.len() - 1,
        !has_key(s, k) ==> without_key(s, k) == s,
        without_key(s, k).len() <= s.len(),
    decreases s.len(),
{
    if s.len() > 0 {
        let init = s.drop_last();
        let last = s.last();
        let r = without_key(init, k);
        let w = without_key(s, k);
        lemma_without_key(init, k);
        assert forall|x: (InfoHash, SocketAddr)| has_key(w, x) <==> (has_key(s, x) && x != k) by {
            if has_key(w, x) {
                let i = choose|i: int| 0 <= i < w.len() && key(#[trigger] w[i]) == x;
                if i < r.len() {
                    assert(key(r[i]) == x);
                    assert(has_key(r, x));
                    let j = choose|j: int| 0 <= j < init.len() && key(#[trigger] init[j]) == x;
                    assert(key(s[j]) == x);
                } else {
                    assert(key(s[s.len() - 1]) == x);
                }
            }
            if has_key(s, x) && x != k {
                let j = choose|j: int| 0 <= j < s.len() && key(#[trigger] s[j]) == x;
                if j < init.len() {
                    assert(key(init[j]) == x);
                    assert(has_key(init, x));
                    let i = choose|i: int| 0 <= i < r.len() && key(#[trigger] r[i]) == x;
                    assert(key(w[i]) == x);
                } else {
                    assert(key(w[w.len() - 1]) == x);
                }
            }
        }
        if keys_unique(s) {
            assert(keys_unique(init)) by {
                assert forall|i: int, j: int|
                    0 <= i < init.len() && 0 <= j < init.len() && i != j implies key(
                    #[trigger] init[i],
                ) != key(#[trigger] init[j]) by {
                    assert(init[i] == s[i] && init[j] == s[j]);
                }
            }
            if has_key(init, key(last)) {
                let j = choose|j: int| 0 <= j < init.len() && key(#[trigger] init[j]) == key(last);
                assert(key(s[j]) == key(s[s.len() - 1]));
            }
            if key(last) != k {
                assert forall|i: int, j: int|
                    0 <= i < w.len() && 0 <= j < w.len() && i != j implies key(#[trigger] w[i])
                    != key(#[trigger] w[j]) by {
                    if i < r.len() && j < r.len() {
                        assert(w[i] == r[i] && w[j] == r[j]);
                    } else if i < r.len() {
                        assert(w[i] == r[i]);
                        assert(has_key(r, key(r[i])));
                    } else {
                        assert(w[j] == r[j]);
                        assert(has_key(r, key(r[j])));
                    }
                }
            }
            if has_key(s, k) && key(last) != k {
                let j = choose|j: int| 0 <= j < s.len() && key(#[trigger] s[j]) == k;
                assert(key(init[j]) == k);
            }
        }
        if !has_key(s, k) {
            if has_key(init, k) {
                let j = choose|j: int| 0 <= j < init.len() && key(#[trigger] init[j]) == k;
                assert(key(s[j]) == k);
            }
            assert(key(s[s.len() - 1]) != k);
            assert(w =~= s);
        }
    }
}

/// The store without the announce that expires first is a store: what
/// one step of pruning leaves.
pub proof fn lemma_prune_step(v: StorageView)
    requires
        storage_wf(v),
        v.expires.len() > 0,
    ensures
        storage_wf(
            StorageView {
                items: without_key(v.items, key(v.expires[0])),
                expires: v.expires.skip(1),
            },
        ),
{
    let k = key(v.expires[0]);
    let next = StorageView { items: without_key(v.items, k), expires: v.expires.skip(1) };
    lemma_without_key(v.items, k);
    assert(has_key(v.expires, k));
    assert(keys_unique(next.expires)) by {
        assert forall|i: int, j: int|
            0 <= i < next.expires.len() && 0 <= j < next.expires.len() && i != j implies key(
            #[trigger] next.expires[i],
        ) != key(#[trigger] next.expires[j]) by {
            assert(next.expires[i] == v.expires[i + 1]);
            assert(next.expires[j] == v.expires[j + 1]);
        }
    }
    assert forall|x: (InfoHash, SocketAddr)| has_key(next.items, x) <==> has_key(
        next.expires,
        x,
    ) by {
        if has_key(next.expires, x) {
            let i = choose|i: int|
                0 <= i < next.expires.len() && key(#[trigger] next.expires[i]) == x;
            assert(key(v.expires[i + 1]) == x);
            assert(has_key(v.expires, x));
        }
        if has_key(v.expires, x) && x != k {
            let i = choose|i: int| 0 <= i < v.expires.len() && key(#[trigger] v.expires[i]) == x;
            assert(key(next.expires[i - 1]) == x);
        }
    }
}

/// Pruning keeps the invariant of the store, and leaves no expired
/// announce at the front of the order of expiry.
pub proof fn lemma_pruned(v: StorageView, now: u64)
    requires
        storage_wf(v),
    ensures
        storage_wf(pruned(v, now)),
        pruned(v, now).expires.len() <= v.expires.len(),
        pruned(v, now).expires.len() > 0 ==> !expired(pruned(v, now).expires[0], now),
    decreases v.expires.len(),
{
    if v.expires.len() > 0 && expired(v.expires[0], now) {
        let k = key(v.expires[0]);
        let next = StorageView { items: without_key(v.items, k), expires: v.expires.skip(1) };
        lemma_prune_step(v);
        lemma_pruned(next, now);
    }
}

/// Whether the announces stand in the order of their times, the earliest
/// first: so they do while time only goes on.
pub open spec fn in_time_order(s: Seq<ExpirationView>) -> bool {
    forall|i: int, j: int|
        #![trigger s[i], s[j]]
        0 <= i <= j < s.len() ==> s[i].inserted <= s[j].inserted
}

/// No address is found for an info hash that no announce is for.
pub proof fn lemma_no_addresses(s: Seq<ExpirationView>, info_hash: InfoHash)
    requires
        forall|i: int| 0 <= i < s.len() ==> (#[trigger] s[i]).info_hash != info_hash,
    ensures
        addresses_of(s, info_hash) == Seq::<SocketAddr>::empty(),
    decreases s.len(),
{
    if s.len() > 0 {
        let init = s.drop_last();
        assert forall|i: int| 0 <= i < init.len() implies (#[trigger] init[i]).info_hash
            != info_hash by {
            assert(init[i] == s[i]);
        }
        lemma_no_addresses(init, info_hash);
        assert(s.last() == s[s.len() - 1]);
    }
}

/// Without its first announce a sequence has at most one address less for
/// an info hash.
pub proof fn lemma_addresses_skip(s: Seq<ExpirationView>, info_hash: InfoHash)
    requires
        s.len() > 0,
    ensures
        addresses_of(s, info_hash).len() <= addresses_of(s.skip(1), info_hash).len() + 1,
    decreases s.len(),
{
    let init = s.drop_last();
    let rest = s.skip(1);
    if s.len() == 1 {
        assert(init.len() == 0);
        assert(rest.len() == 0);
        assert(addresses_of(init, info_hash).len() == 0);
        assert(addresses_of(rest, info_hash).len() == 0);
    } else {
        lemma_addresses_skip(init, info_hash);
        assert(rest.drop_last() =~= init.skip(1));
        assert(rest.last() == s.last());
        assert(rest.len() > 0);
        if s.last().info_hash == info_hash {
            assert(addresses_of(s, info_hash) == addresses_of(init, info_hash).push(
                s.last().address,
            ));
            assert(addresses_of(rest, info_hash) == addresses_of(rest.drop_last(), info_hash).push(
                rest.last().address,
            ));
        } else {
            assert(addresses_of(s, info_hash) == addresses_of(init, info_hash));
            assert(addresses_of(rest, info_hash) == addresses_of(rest.drop_last(), info_hash));
        }
    }
}

/// Whether every announce was made at `bound` or before.
pub open spec fn made_by(s: Seq<ExpirationView>, bound: u64) -> bool {
    forall|i: int| 0 <= i < s.len() ==> (#[trigger] s[i]).inserted <= bound
}

/// Taking the announces of one key out leaves announces that were made no
/// later, in the order in which they stood.
pub proof fn lemma_without_key_order(
    s: Seq<ExpirationView>,
    k: (InfoHash, SocketAddr),
    bound: u64,
)
    ensures
        made_by(s, bound) ==> made_by(without_key(s, k), bound),
        in_time_order(s) ==> in_time_order(without_key(s, k)),
    decreases s.len(),
{
    if s.len() > 0 {
        let init = s.drop_last();
        let last = s.last();
        let kept = without_key(init, k);
        lemma_without_key_order(init, k, bound);
        lemma_without_key_order(init, k, last.inserted);
        if made_by(s, bound) {
            assert forall|i: int| 0 <= i < init.len() implies (#[trigger] init[i]).inserted
                <= bound by {
                assert(init[i] == s[i]);
            }
            assert(s[s.len() - 1].inserted <= bound);
        }
        if in_time_order(s) {
            assert forall|i: int, j: int|
                #![trigger init[i], init[j]]
                0 <= i <= j < init.len() implies init[i].inserted <= init[j].inserted by {
                assert(init[i] == s[i] && init[j] == s[j]);
            }
            assert forall|i: int| 0 <= i < init.len() implies (#[trigger] init[i]).inserted
                <= last.inserted by {
                assert(init[i] == s[i]);
                assert(s[i].inserted <= s[s.len() - 1].inserted);
            }
            assert(made_by(kept, last.inserted));
        }
    }
}

/// Pruning leaves announces that were made no later, in the order in
/// which they stood.
pub proof fn lemma_pruned_order(v: StorageView, now: u64, bound: u64)
    requires
        in_time_order(v.expires),
        made_by(v.expires, bound),
    ensures
        in_time_order(pruned(v, now).expires),
        made_by(pruned(v, now).expires, bound),
    decreases v.expires.len(),
{
    if v.expires.len() > 0 && expired(v.expires[0], now) {
        let k = key(v.expires[0]);
        let next = StorageView { items: without_key(v.items, k), expires: v.expires.skip(1) };
        assert forall|i: int, j: int|
            #![trigger next.expires[i], next.expires[j]]
            0 <= i <= j < next.expires.len() implies next.expires[i].inserted
            <= next.expires[j].inserted by {
            assert(next.expires[i] == v.expires[i + 1]);
            assert(next.expires[j] == v.expires[j + 1]);
        }
        assert forall|i: int| 0 <= i < next.expires.len() implies (
        #[trigger] next.expires[i]).inserted <= bound by {
            assert(next.expires[i] == v.expires[i + 1]);
        }
        lemma_pruned_order(next, now, bound);
    }
}

/// While time only goes on, the announces stay in the order of their
/// times: if they stand so and none was made after `now`, they stand so
/// after an announce at `now`, and none was made after `now`.
pub proof fn lemma_added_order(v: StorageView, info_hash: InfoHash, address: SocketAddr, now: u64)
    requires
        in_time_order(v.expires),
        made_by(v.expires, now),
    ensures
        in_time_order(added(v, info_hash, address, now).0.expires),
        made_by(added(v, info_hash, address, now).0.expires, now),
{
    let p = pruned(v, now);
    let e = ExpirationView { info_hash, address, inserted: now };
    lemma_pruned_order(v, now, now);
    lemma_without_key_order(p.expires, key(e), now);
}

/// When every announce for an info hash is expired at `now`, and the
/// announces stand in the order of their times, pruning leaves none of
/// them: no address is found for the info hash, and the room that its
/// announces took is free again.
pub proof fn lemma_expired_hash_gone(v: StorageView, info_hash: InfoHash, now: u64)
    requires
        storage_wf(v),
        in_time_order(v.expires),
        forall|i: int|
            0 <= i < v.expires.len() && (#[trigger] v.expires[i]).info_hash == info_hash
                ==> expired(v.expires[i], now),
    ensures
        addresses_of(pruned(v, now).items, info_hash) == Seq::<SocketAddr>::empty(),
        forall|i: int|
            0 <= i < pruned(v, now).items.len() ==> (#[trigger] pruned(v, now).items[i]).info_hash
                != info_hash,
        forall|i: int|
            0 <= i < pruned(v, now).expires.len() ==> (#[trigger] pruned(
                v,
                now,
            ).expires[i]).info_hash != info_hash,
        pruned(v, now).expires.len() + addresses_of(v.expires, info_hash).len()
            <= v.expires.len(),
    decreases v.expires.len(),
{
    if v.expires.len() > 0 && expired(v.expires[0], now) {
        let k = key(v.expires[0]);
        let next = StorageView { items: without_key(v.items, k), expires: v.expires.skip(1) };
        lemma_prune_step(v);
        assert forall|i: int, j: int|
            #![trigger next.expires[i], next.expires[j]]
            0 <= i <= j < next.expires.len() implies next.expires[i].inserted
            <= next.expires[j].inserted by {
            assert(next.expires[i] == v.expires[i + 1]);
            assert(next.expires[j] == v.expires[j + 1]);
        }
        assert forall|i: int|
            0 <= i < next.expires.len() && (#[trigger] next.expires[i]).info_hash
                == info_hash implies expired(next.expires[i], now) by {
            assert(next.expires[i] == v.expires[i + 1]);
        }
        lemma_expired_hash_gone(next, info_hash, now);
        lemma_addresses_skip(v.expires, info_hash);
    } else {
        assert forall|i: int| 0 <= i < v.expires.len() implies (#[trigger] v.expires[i]).info_hash
            != info_hash by {
            if v.expires[i].info_hash == info_hash {
                assert(v.expires[0].inserted <= v.expires[i].inserted);
                assert(expired(v.expires[i], now));
            }
        }
        assert forall|i: int| 0 <= i < v.items.len() implies (#[trigger] v.items[i]).info_hash
            != info_hash by {
            if v.items[i].info_hash == info_hash {
                let x = key(v.items[i]);
                assert(has_key(v.items, x));
                assert(has_key(v.expires, x));
                let j = choose|j: int| 0 <= j < v.expires.len() && key(#[trigger] v.expires[j]) == x;
                assert(v.expires[j].info_hash == info_hash);
            }
        }
        lemma_no_addresses(v.items, info_hash);
        lemma_no_addresses(v.expires, info_hash);
    }
}

/// If every announce is expired at `now`, pruning leaves the store empty.
pub proof fn lemma_pruned_all_expired(v: StorageView, now: u64)
    requires
        storage_wf(v),
        forall|i: int| 0 <= i < v.expires.len() ==> expired(#[trigger] v.expires[i], now),
    ensures
        pruned(v, now).expires.len() == 0,
        pruned(v, now).items.len() == 0,
    decreases v.expires.len(),
{
    if v.expires.len() > 0 {
        let k = key(v.expires[0]);
        let next = StorageView { items: without_key(v.items, k), expires: v.expires.skip(1) };
        lemma_pruned(v, now);
        assert(storage_wf(pruned(v, now)));
        assert forall|i: int| 0 <= i < next.expires.len() implies expired(
            #[trigger] next.expires[i],
            now,
        ) by {
            assert(next.expires[i] == v.expires[i + 1]);
        }
        lemma_without_key(v.items, k);
        assert(has_key(v.expires, k));
        assert(storage_wf(next)) by {
            assert(keys_unique(next.expires)) by {
                assert forall|i: int, j: int|
                    0 <= i < next.expires.len() && 0 <= j < next.expires.len() && i
                        != j implies key(#[trigger] next.expires[i]) != key(
                    #[trigger] next.expires[j],
                ) by {
                    assert(next.expires[i] == v.expires[i + 1]);
                    assert(next.expires[j] == v.expires[j + 1]);
                }
            }
            assert forall|x: (InfoHash, SocketAddr)| has_key(next.items, x) <==> has_key(
                next.expires,
                x,
            ) by {
                if has_key(next.expires, x) {
                    let i = choose|i: int|
                        0 <= i < next.expires.len() && key(#[trigger] next.expires[i]) == x;
                    assert(key(v.expires[i + 1]) == x);
                    assert(has_key(v.expires, x));
                }
                if has_key(v.expires, x) && x != k {
                    let i = choose|i: int|
                        0 <= i < v.expires.len() && key(#[trigger] v.expires[i]) == x;
                    assert(key(next.expires[i - 1]) == x);
                }
            }
        }
        lemma_pruned_all_expired(next, now);
    }
}

/// Taking an announce keeps the invariant of the store.
pub proof fn lemma_added(v: StorageView, info_hash: InfoHash, address: SocketAddr, now: u64)
    requires
        storage_wf(v),
    ensures
        storage_wf(added(v, info_hash, address, now).0),
        added(v, info_hash, address, now).1 ==> has_key(
            added(v, info_hash, address, now).0.items,
            (info_hash, address),
        ),
        !added(v, info_hash, address, now).1 ==> added(v, info_hash, address, now).0 == pruned(
            v,
            now,
        ) && pruned(v, now).expires.len() == MAX_ITEMS_STORED && !has_key(
            pruned(v, now).items,
            (info_hash, address),
        ),
{
    let p = pruned(v, now);
    let e = ExpirationView { info_hash, address, inserted: now };
    let k = key(e);
    let r = added(v, info_hash, address, now).0;
    lemma_pruned(v, now);
    if has_key(p.items, k) {
        let w = without_key(p.expires, k);
        lemma_without_key(p.expires, k);
        assert(r.expires == w.push(e));
        assert(keys_unique(r.expires)) by {
            assert forall|i: int, j: int|
                0 <= i < r.expires.len() && 0 <= j < r.expires.len() && i != j implies key(
                #[trigger] r.expires[i],
            ) != key(#[trigger] r.expires[j]) by {
                if i < w.len() {
                    assert(r.expires[i] == w[i]);
                    assert(has_key(w, key(w[i])));
                }
                if j < w.len() {
                    assert(r.expires[j] == w[j]);
                    assert(has_key(w, key(w[j])));
                }
            }
        }
        assert forall|x: (InfoHash, SocketAddr)| has_key(r.items, x) <==> has_key(r.expires, x) by {
            if has_key(r.expires, x) {
                let i = choose|i: int| 0 <= i < r.expires.len() && key(#[trigger] r.expires[i]) == x;
                if i < w.len() {
                    assert(key(w[i]) == x);
                    assert(has_key(w, x));
                }
            }
            if has_key(p.expires, x) {
                if x != k {
                    assert(has_key(w, x));
                    let i = choose|i: int| 0 <= i < w.len() && key(#[trigger] w[i]) == x;
                    assert(key(r.expires[i]) == x);
                } else {
                    assert(key(r.expires[w.len() as int]) == x);
                }
            }
        }
    } else if p.expires.len() < MAX_ITEMS_STORED {
        assert(keys_unique(r.items)) by {
            assert forall|i: int, j: int|
                0 <= i < r.items.len() && 0 <= j < r.items.len() && i != j implies key(
                #[trigger] r.items[i],
            ) != key(#[trigger] r.items[j]) by {
                if i < p.items.len() {
                    assert(r.items[i] == p.items[i]);
                    assert(has_key(p.items, key(p.items[i])));
                }
                if j < p.items.len() {
                    assert(r.items[j] == p.items[j]);
                    assert(has_key(p.items, key(p.items[j])));
                }
            }
        }
        assert(keys_unique(r.expires)) by {
            assert forall|i: int, j: int|
                0 <= i < r.expires.len() && 0 <= j < r.expires.len() && i != j implies key(
                #[trigger] r.expires[i],
            ) != key(#[trigger] r.expires[j]) by {
                if i < p.expires.len() {
                    assert(r.expires[i] == p.expires[i]);
                    assert(has_key(p.expires, key(p.expires[i])));
                }
                if j < p.expires.len() {
                    assert(r.expires[j] == p.expires[j]);
                    assert(has_key(p.expires, key(p.expires[j])));
                }
            }
        }
        assert forall|x: (InfoHash, SocketAddr)| has_key(r.items, x) <==> has_key(r.expires, x) by {
            if has_key(r.items, x) {
                let i = choose|i: int| 0 <= i < r.items.len() && key(#[trigger] r.items[i]) == x;
                if i < p.items.len() {
                    assert(key(p.items[i]) == x);
                    assert(has_key(p.items, x));
                    let j = choose|j: int|
                        0 <= j < p.expires.len() && key(#[trigger] p.expires[j]) == x;
                    assert(key(r.expires[j]) == x);
                } else {
                    assert(key(r.expires[p.expires.len() as int]) == x);
                }
            }
            if has_key(r.expires, x) {
                let i = choose|i: int| 0 <= i < r.expires.len() && key(#[trigger] r.expires[i]) == x;
                if i < p.expires.len() {
                    assert(key(p.expires[i]) == x);
                    assert(has_key(p.expires, x));
                    let j = choose|j: int| 0 <= j < p.items.len() && key(#[trigger] p.items[j]) == x;
                    assert(key(r.items[j]) == x);
                } else {
                    assert(key(r.items[p.items.len() as int]) == x);
                }
            }
        }
        assert(key(r.items[p.items.len() as int]) == k);
    }
}

/// A new announce is refused exactly if, with what is expired forgotten,
/// 500 others are held. When every announce held is expired, any announce
/// is taken and no peer of before is found.
pub proof fn lemma_capacity_and_expiry(
    v: StorageView,
    info_hash: InfoHash,
    address: SocketAddr,
    other: InfoHash,
    now: u64,
)
    requires
        storage_wf(v),
    ensures
        !added(v, info_hash, address, now).1 <==> (pruned(v, now).expires.len()
            == MAX_ITEMS_STORED && !has_key(pruned(v, now).items, (info_hash, address))),
        added(v, info_hash, address, now).0.expires.len() <= MAX_ITEMS_STORED,
        (forall|i: int| 0 <= i < v.expires.len() ==> expired(#[trigger] v.expires[i], now)) ==> {
            &&& added(v, info_hash, address, now).1
            &&& addresses_of(pruned(v, now).items, other) == Seq::<SocketAddr>::empty()
        },
{
    lemma_added(v, info_hash, address, now);
    lemma_pruned(v, now);
    if forall|i: int| 0 <= i < v.expires.len() ==> expired(#[trigger] v.expires[i], now) {
        lemma_pruned_all_expired(v, now);
        assert(pruned(v, now).items =~= Seq::<ExpirationView>::empty());
    }
}

/// An announce with the time at which it was made, which decides when it
/// expires. Two are equal if they are of the same peer and info hash,
/// whenever they were made.
#[derive(Copy, Clone, Debug)]
pub struct ItemExpiration {
    address: SocketAddr,
    inserted: u64,
    info_hash: InfoHash,
}

impl View for ItemExpiration {
    type V = ExpirationView;

    closed spec fn view(&self) -> ExpirationView {
        ExpirationView { info_hash: self.info_hash, address: self.address, inserted: self.inserted }
    }
}

impl ItemExpiration {
    /// The announce of `info_hash` by the peer at `address`, made at `now`.
    pub fn new(info_hash: InfoHash, address: SocketAddr, now: u64) -> (e: ItemExpiration)
        ensures
            e@ == (ExpirationView { info_hash, address, inserted: now }),
    {
        ItemExpiration { address, inserted: now, info_hash }
    }

    /// Whether the announce is expired at `now`: made 25 hours ago or more.
    pub fn is_expired(&self, now: u64) -> (r: bool)
        ensures
            r == expired(self@, now),
    {
        since(now, self.inserted) >= EXPIRATION_TIME_MS
    }

    /// The info hash.
    pub fn info_hash(&self) -> (info_hash: InfoHash)
        ensures
            info_hash == self@.info_hash,
    {
        self.info_hash
    }

    /// The address of the peer.
    pub fn address(&self) -> (address: SocketAddr)
        ensures
            address == self@.address,
    {
        self.address
    }

    /// Whether two announces are of the same peer and info hash.
    pub fn same_key(&self, other: &ItemExpiration) -> (r: bool)
        ensures
            r == (key(self@) == key(other@)),
    {
        self.address.same(&other.address) && self.info_hash.same(&other.info_hash)
    }
}

impl PartialEq for ItemExpiration {
    fn eq(&self, other: &ItemExpiration) -> (r: bool) {
        self.same_key(other)
    }
}

impl vstd::std_specs::cmp::PartialEqSpecImpl for ItemExpiration {
    open spec fn obeys_eq_spec() -> bool {
        true
    }

    open spec fn eq_spec(&self, other: &ItemExpiration) -> bool {
        key(self@) == key(other@)
    }
}

impl Eq for ItemExpiration {

}

/// An announce as the store keeps it.
#[derive(Copy, Clone, Debug)]
pub struct AnnounceItem {
    expiration: ItemExpiration,
}

impl View for AnnounceItem {
    type V = ExpirationView;

    closed spec fn view(&self) -> ExpirationView {
        self.expiration@
    }
}

impl AnnounceItem {
    /// The announce of `info_hash` by the peer at `address`, made at `now`.
    pub fn new(info_hash: InfoHash, address: SocketAddr, now: u64) -> (item: AnnounceItem)
        ensures
            item@ == (ExpirationView { info_hash, address, inserted: now }),
    {
        AnnounceItem { expiration: ItemExpiration::new(info_hash, address, now) }
    }

    /// The announce with its time.
    pub fn expiration(&self) -> (e: ItemExpiration)
        ensures
            e@ == self@,
    {
        self.expiration
    }

    /// The address of the peer.
    pub fn address(&self) -> (address: SocketAddr)
        ensures
            address == self@.address,
    {
        self.expiration.address()
    }

    /// The info hash.
    pub fn info_hash(&self) -> (info_hash: InfoHash)
        ensures
            info_hash == self@.info_hash,
    {
        self.expiration.info_hash()
    }
}

impl PartialEq for AnnounceItem {
    fn eq(&self, other: &AnnounceItem) -> (r: bool) {
        self.expiration.same_key(&other.expiration)
    }
}

impl vstd::std_specs::cmp::PartialEqSpecImpl for AnnounceItem {
    open spec fn obeys_eq_spec() -> bool {
        true
    }

    open spec fn eq_spec(&self, other: &AnnounceItem) -> bool {
        key(self@) == key(other@)
    }
}

impl Eq for AnnounceItem {

}

/// The announces of a sequence of items.
pub open spec fn item_views(items: Seq<AnnounceItem>) -> Seq<ExpirationView> {
    Seq::new(items.len(), |i: int| items[i]@)
}

/// The announces of a sequence of expirations.
pub open spec fn expiration_views(expires: Seq<ItemExpiration>) -> Seq<ExpirationView> {
    Seq::new(expires.len(), |i: int| expires[i]@)
}

/// The items without those of the peer and info hash of `e`.
fn items_without(items: &Vec<AnnounceItem>, e: &ItemExpiration) -> (kept: Vec<AnnounceItem>)
    ensures
        item_views(kept@) == without_key(item_views(items@), key(e@)),
{
    let mut kept: Vec<AnnounceItem> = Vec::new();
    let mut i: usize = 0;
    let ghost all = item_views(items@);
    assert(all.take(0) =~= Seq::<ExpirationView>::empty());
    assert(item_views(kept@) =~= Seq::<ExpirationView>::empty());
    while i < items.len()
        invariant
            i <= items@.len(),
            all == item_views(items@),
            item_views(kept@) == without_key(all.take(i as int), key(e@)),
        decreases items@.len() - i,
    {
        proof {
            let next = all.take(i as int + 1);
            assert(next.drop_last() =~= all.take(i as int));
            assert(next.last() == items@[i as int]@);
        }
        if !items[i].expiration().same_key(e) {
            assert(item_views(kept@.push(items@[i as int])) =~= item_views(kept@).push(
                items@[i as int]@,
            ));
            kept.push(items[i]);
        }
        i += 1;
    }
    assert(all.take(items@.len() as int) =~= all);
    kept
}

/// The expirations without those of the peer and info hash of `e`.
fn expirations_without(expires: &Vec<ItemExpiration>, e: &ItemExpiration) -> (kept: Vec<
    ItemExpiration,
>)
    ensures
        expiration_views(kept@) == without_key(expiration_views(expires@), key(e@)),
{
    let mut kept: Vec<ItemExpiration> = Vec::new();
    let mut i: usize = 0;
    let ghost all = expiration_views(expires@);
    assert(all.take(0) =~= Seq::<ExpirationView>::empty());
    assert(expiration_views(kept@) =~= Seq::<ExpirationView>::empty());
    while i < expires.len()
        invariant
            i <= expires@.len(),
            all == expiration_views(expires@),
            expiration_views(kept@) == without_key(all.take(i as int), key(e@)),
        decreases expires@.len() - i,
    {
        proof {
            let next = all.take(i as int + 1);
            assert(next.drop_last() =~= all.take(i as int));
            assert(next.last() == expires@[i as int]@);
        }
        if !expires[i].same_key(e) {
            assert(expiration_views(kept@.push(expires@[i as int])) =~= expiration_views(
                kept@,
            ).push(expires@[i as int]@));
            kept.push(expires[i]);
        }
        i += 1;
    }
    assert(all.take(expires@.len() as int) =~= all);
    kept
}

/// The store of announces.
#[derive(Debug)]
pub struct AnnounceStorage {
    storage: Vec<AnnounceItem>,
    expires: Vec<ItemExpiration>,
}

impl View for AnnounceStorage {
    type V = StorageView;

    closed spec fn view(&self) -> StorageView {
        StorageView {
            items: item_views(self.storage@),
            expires: expiration_views(self.expires@),
        }
    }
}

impl AnnounceStorage {
    /// Whether the store meets its invariant.
    pub open spec fn wf(&self) -> bool {
        storage_wf(self@)
    }

    /// An empty store.
    pub fn new() -> (store: AnnounceStorage)
        ensures
            store.wf(),
            store@ == (StorageView { items: Seq::empty(), expires: Seq::empty() }),
    {
        let store = AnnounceStorage { storage: Vec::new(), expires: Vec::new() };
        assert(store@.items =~= Seq::<ExpirationView>::empty());
        assert(store@.expires =~= Seq::<ExpirationView>::empty());
        store
    }

    /// Number of announces held.
    pub fn len(&self) -> (n: usize)
        ensures
            n == self@.expires.len(),
    {
        self.expires.len()
    }

    /// Takes the announce of `info_hash` by the peer at `address`, made at
    /// `now`. Returns false, and only forgets what is expired, if the
    /// announce is new and 500 are held.
    pub fn add_item(&mut self, info_hash: InfoHash, address: SocketAddr, now: u64) -> (taken: bool)
        requires
            old(self).wf(),
        ensures
            final(self).wf(),
            (final(self)@, taken) == added(old(self)@, info_hash, address, now),
    {
        proof {
            lemma_added(self@, info_hash, address, now);
        }
        self.remove_expired_items(now);
        let item = AnnounceItem::new(info_hash, address, now);
        let item_expiration = item.expiration();
        match self.insert_contact(item) {
            Some(true) => {
                let mut kept = expirations_without(&self.expires, &item_expiration);
                assert(expiration_views(kept@.push(item_expiration)) =~= expiration_views(
                    kept@,
                ).push(item_expiration@));
                kept.push(item_expiration);
                self.expires = kept;
                true
            },
            Some(false) => {
                assert(expiration_views(self.expires@.push(item_expiration)) =~= expiration_views(
                    self.expires@,
                ).push(item_expiration@));
                self.expires.push(item_expiration);
                true
            },
            None => false,
        }
    }

    /// The addresses of the peers that announced `info_hash` and are not
    /// forgotten at `now`, in the order in which they first did. Forgets
    /// what is expired.
    pub fn find_items(&mut self, info_hash: &InfoHash, now: u64) -> (addresses: Vec<SocketAddr>)
        requires
            old(self).wf(),
        ensures
            final(self).wf(),
            final(self)@ == pruned(old(self)@, now),
            addresses@ == addresses_of(final(self)@.items, *info_hash),
    {
        proof {
            lemma_pruned(self@, now);
        }
        self.remove_expired_items(now);
        let mut addresses: Vec<SocketAddr> = Vec::new();
        let mut i: usize = 0;
        let ghost all = self@.items;
        assert(all.take(0) =~= Seq::<ExpirationView>::empty());
        while i < self.storage.len()
            invariant
                i <= self.storage@.len(),
                all == self@.items,
                all == item_views(self.storage@),
                addresses@ == addresses_of(all.take(i as int), *info_hash),
            decreases self.storage@.len() - i,
        {
            proof {
                let next = all.take(i as int + 1);
                assert(next.drop_last() =~= all.take(i as int));
                assert(next.last() == self.storage@[i as int]@);
            }
            if self.storage[i].info_hash().same(info_hash) {
                addresses.push(self.storage[i].address());
            }
            i += 1;
        }
        assert(all.take(self.storage@.len() as int) =~= all);
        addresses
    }

    /// Puts a new item into the store if there is room. Returns whether the
    /// store held the item already, or None if it did not and is full.
    fn insert_contact(&mut self, item: AnnounceItem) -> (r: Option<bool>)
        ensures
            final(self)@.expires == old(self)@.expires,
            r == if has_key(old(self)@.items, key(item@)) {
                Some(true)
            } else if old(self)@.expires.len() < MAX_ITEMS_STORED {
                Some(false)
            } else {
                None::<bool>
            },
            r == Some(false) ==> final(self)@.items == old(self)@.items.push(item@),
            r != Some(false) ==> final(self)@.items == old(self)@.items,
    {
        let expiration = item.expiration();
        let mut already_in_list = false;
        let mut i: usize = 0;
        let ghost all = self@.items;
        while i < self.storage.len() && !already_in_list
            invariant
                i <= self.storage@.len(),
                all == self@.items,
                self@ == old(self)@,
                expiration@ == item@,
                already_in_list ==> has_key(all, key(item@)),
                !already_in_list ==> forall|j: int|
                    0 <= j < i ==> key(#[trigger] all[j]) != key(item@),
            decreases self.storage@.len() - i + (if already_in_list { 0int } else { 1int }),
        {
            if self.storage[i].expiration().same_key(&expiration) {
                assert(key(all[i as int]) == key(item@));
                already_in_list = true;
            } else {
                i += 1;
            }
        }
        if already_in_list {
            Some(true)
        } else if self.expires.len() < MAX_ITEMS_STORED {
            assert(item_views(self.storage@.push(item)) =~= item_views(self.storage@).push(item@));
            self.storage.push(item);
            Some(false)
        } else {
            None
        }
    }

    /// Forgets the announces that are expired at `now`.
    fn remove_expired_items(&mut self, now: u64)
        ensures
            final(self)@ == pruned(old(self)@, now),
    {
        while self.expires.len() > 0 && self.expires[0].is_expired(now)
            invariant
                pruned(self@, now) == pruned(old(self)@, now),
            decreases self.expires@.len(),
        {
            let ghost before = self@;
            let first = self.expires.remove(0);
            assert(first@ == before.expires[0]);
            let kept = items_without(&self.storage, &first);
            self.storage = kept;
            assert(self@.expires =~= before.expires.skip(1));
        }
    }
}

impl Default for AnnounceStorage {
    fn default() -> (store: AnnounceStorage)
        ensures
            store.wf(),
            store@ == (StorageView { items: Seq::empty(), expires: Seq::empty() }),
    {
        AnnounceStorage::new()
    }
}

} // verus!
