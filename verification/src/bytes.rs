//! Numbers as byte strings, most significant byte first.

use vstd::prelude::*;

verus! {

/// The number that a byte string spells, most significant byte first.
pub open spec fn big_endian(s: Seq<u8>) -> nat
    decreases s.len(),
{
    if s.len() == 0 {
        0
    } else {
        big_endian(s.drop_last()) * 256 + s.last() as nat
    }
}

/// 256 to the power of `n`.
pub open spec fn pow256(n: nat) -> nat
    decreases n,
{
    if n == 0 {
        1
    } else {
        256 * pow256((n - 1) as nat)
    }
}

/// A byte string of zeros spells zero.
pub proof fn lemma_big_endian_zeros(s: Seq<u8>)
    requires
        forall|i: int| 0 <= i < s.len() ==> s[i] == 0,
    ensures
        big_endian(s) == 0,
    decreases s.len(),
{
    if s.len() > 0 {
        lemma_big_endian_zeros(s.drop_last());
    }
}

/// Only a byte string of zeros spells zero.
pub proof fn lemma_big_endian_zero_only(s: Seq<u8>)
    requires
        big_endian(s) == 0,
    ensures
        forall|i: int| 0 <= i < s.len() ==> s[i] == 0,
    decreases s.len(),
{
    if s.len() > 0 {
        let init = s.drop_last();
        assert(big_endian(init) * 256 + s.last() as nat == 0);
        assert(big_endian(init) == 0);
        lemma_big_endian_zero_only(init);
        assert forall|i: int| 0 <= i < s.len() implies s[i] == 0 by {
            if i < s.len() - 1 {
                assert(s[i] == init[i]);
            }
        }
    }
}

/// A string of `n` bytes spells a number below 256 to the power of `n`.
pub proof fn lemma_big_endian_bound(s: Seq<u8>)
    ensures
        big_endian(s) < pow256(s.len()),
    decreases s.len(),
{
    if s.len() > 0 {
        lemma_big_endian_bound(s.drop_last());
    }
}

/// Two byte strings of one length that spell the same number are the same.
pub proof fn lemma_big_endian_injective(a: Seq<u8>, b: Seq<u8>)
    requires
        a.len() == b.len(),
        big_endian(a) == big_endian(b),
    ensures
        a == b,
    decreases a.len(),
{
    if a.len() > 0 {
        let x = big_endian(a.drop_last());
        let y = big_endian(b.drop_last());
        assert(x * 256 + a.last() as nat == y * 256 + b.last() as nat);
        assert(x == y && a.last() == b.last());
        lemma_big_endian_injective(a.drop_last(), b.drop_last());
        assert(a =~= a.drop_last().push(a.last()));
        assert(b =~= b.drop_last().push(b.last()));
    }
    assert(a =~= b);
}

/// A byte put in front of a byte string adds that byte times the weight of
/// its place to the number spelled.
pub proof fn lemma_big_endian_push_front(b: u8, s: Seq<u8>)
    ensures
        big_endian(seq![b] + s) == b as nat * pow256(s.len()) + big_endian(s),
    decreases s.len(),
{
    let whole = seq![b] + s;
    if s.len() == 0 {
        assert(whole.drop_last() =~= Seq::<u8>::empty());
        assert(big_endian(whole.drop_last()) == 0);
        assert(whole.last() == b);
        assert(pow256(0) == 1);
        assert(big_endian(s) == 0);
        assert(b as nat * 1 == b as nat);
    } else {
        let init = s.drop_last();
        assert(whole.drop_last() =~= seq![b] + init);
        lemma_big_endian_push_front(b, init);
        assert(whole.last() == s.last());
        let w = pow256(init.len());
        assert(pow256(s.len()) == 256 * w);
        let head = b as nat;
        let rest = big_endian(init);
        assert((head * w + rest) * 256 == head * (256 * w) + rest * 256) by (nonlinear_arith);
    }
}

/// The number that eight bytes spell, most significant byte first.
pub fn u64_from_be_bytes(bytes: &[u8; 8]) -> (value: u64)
    ensures
        value == big_endian(bytes@),
{
    let mut value: u64 = 0;
    let mut i: usize = 0;
    assert(bytes@.take(0) =~= Seq::<u8>::empty());
    proof {
        reveal_with_fuel(pow256, 10);
    }
    while i < 8
        invariant
            i <= 8,
            value == big_endian(bytes@.take(i as int)),
            value < pow256(i as nat),
        decreases 8 - i,
    {
        proof {
            reveal_with_fuel(pow256, 10);
            let next = bytes@.take(i as int + 1);
            assert(next.drop_last() =~= bytes@.take(i as int));
            assert(next.last() == bytes@[i as int]);
            assert(pow256(i as nat) <= pow256(7));
        }
        value = value * 256 + bytes[i] as u64;
        i += 1;
    }
    assert(bytes@.take(8) =~= bytes@);
    value
}

/// The eight bytes that spell a number, most significant byte first.
pub fn u64_to_be_bytes(value: u64) -> (bytes: [u8; 8])
    ensures
        big_endian(bytes@) == value,
{
    let mut bytes: [u8; 8] = [0u8; 8];
    let mut rest: u64 = value;
    let mut i: usize = 8;
    assert(bytes@.skip(8) =~= Seq::<u8>::empty());
    assert(big_endian(bytes@.skip(8)) == 0);
    assert(pow256(0) == 1);
    assert(rest * pow256((8 - i) as nat) == rest) by (nonlinear_arith)
        requires
            pow256((8 - i) as nat) == 1,
    ;
    while i > 0
        invariant
            i <= 8,
            rest * pow256((8 - i) as nat) + big_endian(bytes@.skip(i as int)) == value,
        decreases i,
    {
        let byte: u8 = (rest % 256) as u8;
        let ghost tail = bytes@.skip(i as int);
        let ghost old_rest = rest;
        bytes[i - 1] = byte;
        rest = rest / 256;
        proof {
            assert(bytes@.skip(i as int) =~= tail);
            assert(bytes@.skip(i as int - 1) =~= seq![byte] + tail);
            lemma_big_endian_push_front(byte, tail);
            let w = pow256((8 - i) as nat);
            assert(pow256((8 - i + 1) as nat) == 256 * w);
            assert(old_rest == rest * 256 + byte);
            assert(rest * (256 * w) + byte * w == old_rest * w) by (nonlinear_arith)
                requires
                    old_rest == rest * 256 + byte,
            ;
        }
        i -= 1;
    }
    proof {
        reveal_with_fuel(pow256, 10);
        assert(bytes@.skip(0) =~= bytes@);
        assert(pow256(8) == 0x1_0000_0000_0000_0000);
        assert(rest == 0) by (nonlinear_arith)
            requires
                rest * 0x1_0000_0000_0000_0000 <= value,
                value < 0x1_0000_0000_0000_0000,
                rest >= 0,
        ;
    }
    bytes
}

/// The number that two bytes spell, most significant byte first.
pub fn u16_from_be_bytes(high: u8, low: u8) -> (value: u16)
    ensures
        value == big_endian(seq![high, low]),
        value == high * 256 + low,
{
    proof {
        let s = seq![high, low];
        assert(s.drop_last() =~= seq![high]);
        assert(s.drop_last().drop_last() =~= Seq::<u8>::empty());
        reveal_with_fuel(big_endian, 3);
    }
    (high as u16) * 256 + low as u16
}

/// The two bytes that spell a number, most significant byte first.
pub fn u16_to_be_bytes(value: u16) -> (bytes: (u8, u8))
    ensures
        big_endian(seq![bytes.0, bytes.1]) == value,
        bytes.0 * 256 + bytes.1 == value,
{
    let high: u8 = (value / 256) as u8;
    let low: u8 = (value % 256) as u8;
    proof {
        let s = seq![high, low];
        assert(s.drop_last() =~= seq![high]);
        assert(s.drop_last().drop_last() =~= Seq::<u8>::empty());
        reveal_with_fuel(big_endian, 3);
    }
    (high, low)
}

/// Of two byte strings of one length, the one with the smaller byte at the
/// first place where they differ spells the smaller number.
pub proof fn lemma_big_endian_order(x: Seq<u8>, y: Seq<u8>, i: int, n: int)
    requires
        x.len() == y.len(),
        0 <= i < n <= x.len(),
        x.take(i) == y.take(i),
        x[i] < y[i],
    ensures
        big_endian(x.take(n)) < big_endian(y.take(n)),
    decreases n - i,
{
    let a = x.take(n);
    let b = y.take(n);
    assert(a.drop_last() =~= x.take(n - 1));
    assert(b.drop_last() =~= y.take(n - 1));
    assert(a.last() == x[n - 1]);
    assert(b.last() == y[n - 1]);
    if n > i + 1 {
        lemma_big_endian_order(x, y, i, n - 1);
    }
}

} // verus!
