//! 160-bit identifiers of nodes and content, and the XOR metric on them.

use vstd::prelude::*;
use crate::bytes::{
    big_endian, lemma_big_endian_order, lemma_big_endian_zero_only, lemma_big_endian_zeros,
};

verus! {

/// Number of bytes in an identifier.
pub const ID_LEN: usize = 20;

/// Number of bytes in a node id.
pub const NODE_ID_LEN: usize = ID_LEN;

/// Number of bytes in an info hash.
pub const INFO_HASH_LEN: usize = ID_LEN;

/// Number of bits in an identifier.
pub const ID_BITS: usize = 160;

/// Identifier of a participant of the table.
pub type NodeId = Id;

/// Fingerprint of a piece of content.
pub type InfoHash = Id;

/// A byte string that was offered as an identifier did not have 20 bytes.
#[derive(Copy, Clone, Debug, PartialEq, Eq)]
pub struct LengthError;

/// A 160-bit identifier, most significant byte first.
///
/// Its view is the sequence of its 20 bytes.
#[derive(Copy, Clone, Debug, Hash, PartialOrd, Ord)]
pub struct Id {
    bytes: [u8; ID_LEN],
}

impl PartialEq for Id {
    fn eq(&self, other: &Id) -> (r: bool) {
        self.same(other)
    }
}

impl vstd::std_specs::cmp::PartialEqSpecImpl for Id {
    open spec fn obeys_eq_spec() -> bool {
        true
    }

    open spec fn eq_spec(&self, other: &Id) -> bool {
        *self == *other
    }
}

impl Eq for Id {

}

impl From<[u8; ID_LEN]> for Id {
    fn from(value: [u8; ID_LEN]) -> (id: Id) {
        Id { bytes: value }
    }
}

impl vstd::std_specs::convert::FromSpecImpl<[u8; ID_LEN]> for Id {
    open spec fn obeys_from_spec() -> bool {
        true
    }

    open spec fn from_spec(v: [u8; ID_LEN]) -> Id {
        Id::of_bytes(v)
    }
}

impl core::ops::BitXor for Id {
    type Output = Id;

    fn bitxor(self, rhs: Id) -> (id: Id) {
        self.xor(rhs)
    }
}

impl vstd::std_specs::ops::BitXorSpecImpl for Id {
    open spec fn obeys_bitxor_spec() -> bool {
        true
    }

    open spec fn bitxor_req(self, rhs: Id) -> bool {
        true
    }

    open spec fn bitxor_spec(self, rhs: Id) -> Id {
        self.xor_spec(rhs)
    }
}

impl View for Id {
    type V = Seq<u8>;

    open spec fn view(&self) -> Seq<u8> {
        self.bytes_spec()@
    }
}

/// Byte-wise exclusive or of two byte strings, as long as the first.
pub open spec fn xor_bytes(a: Seq<u8>, b: Seq<u8>) -> Seq<u8> {
    Seq::new(a.len(), |i: int| a[i] ^ b[i])
}

/// Number of zero bits before the first one bit of a byte string.
pub open spec fn leading_zero_bits(s: Seq<u8>) -> nat
    decreases s.len(),
{
    if s.len() == 0 {
        0
    } else if s[0] == 0 {
        8 + leading_zero_bits(s.skip(1))
    } else {
        vstd::std_specs::bits::u8_leading_zeros(s[0]) as nat
    }
}

/// Kademlia distance between two identifiers.
pub open spec fn distance(a: Id, b: Id) -> nat {
    big_endian(xor_bytes(a@, b@))
}

/// Number of leading bits that two identifiers share.
pub open spec fn shared_prefix_bits(a: Id, b: Id) -> nat {
    leading_zero_bits(xor_bytes(a@, b@))
}

/// The byte string with the bit at `index` inverted, bits counted from the
/// most significant bit of the first byte.
pub open spec fn flip_bit_bytes(s: Seq<u8>, index: int) -> Seq<u8> {
    s.update(index / 8, s[index / 8] ^ (1u8 << ((7 - index % 8) as u8)))
}

/// The SHA-1 digest of a byte string.
pub uninterp spec fn sha1_digest(data: Seq<u8>) -> Seq<u8>;

/// Calls `Sha1::digest` of the `sha1` crate: the result is the 20-byte SHA-1
/// digest of `data`, a function of `data` alone.
#[verifier::external_body]
fn sha1_of(data: &[u8]) -> (out: [u8; ID_LEN])
    ensures
        out@ == sha1_digest(data@),
{
    let hash = <sha1::Sha1 as sha1::Digest>::digest(data);
    hash.into()
}

impl Id {
    /// The bytes of the identifier.
    pub closed spec fn bytes_spec(&self) -> [u8; ID_LEN] {
        self.bytes
    }

    /// The identifier made of the given bytes.
    pub closed spec fn of_bytes(bytes: [u8; ID_LEN]) -> Id {
        Id { bytes }
    }

    /// The identifier whose bytes are the given sequence of 20 bytes.
    pub closed spec fn from_view(s: Seq<u8>) -> Id {
        choose|id: Id| id@ == s
    }

    /// The identifier whose bytes are the exclusive or of the bytes of two.
    pub open spec fn xor_spec(self, rhs: Id) -> Id {
        Id::from_view(xor_bytes(self@, rhs@))
    }

    /// The identifier that is all zero bits.
    pub open spec fn zero() -> Id {
        Id::from_view(Seq::new(ID_LEN as nat, |i: int| 0u8))
    }

    /// Every sequence of 20 bytes is the view of the identifier made of it.
    pub proof fn lemma_from_view(s: Seq<u8>)
        requires
            s.len() == ID_LEN,
        ensures
            Id::from_view(s)@ == s,
    {
        Self::lemma_array_of(s);
        let arr: [u8; ID_LEN] = choose|arr: [u8; ID_LEN]| arr@ == s;
        let witness = Id { bytes: arr };
        assert(witness@ == s);
    }

    /// An identifier is the one made of its view.
    pub proof fn lemma_is_from_view(self)
        ensures
            self == Id::from_view(self@),
            self@.len() == ID_LEN,
    {
        Self::lemma_from_view(self@);
        Self::lemma_view_determines(self, Id::from_view(self@));
    }

    /// An identifier is its bytes: two with the same view are the same.
    pub proof fn lemma_view_determines(a: Id, b: Id)
        requires
            a@ == b@,
        ensures
            a == b,
    {
        assert(a.bytes =~= b.bytes);
    }

    /// What `of_bytes` and `xor_spec` are, in terms of views.
    pub proof fn lemma_spec_views(a: Id, b: Id, bytes: [u8; ID_LEN])
        ensures
            Id::of_bytes(bytes)@ == bytes@,
            a.xor_spec(b)@ == xor_bytes(a@, b@),
            a@.len() == ID_LEN,
    {
        Self::lemma_from_view(xor_bytes(a@, b@));
    }

    /// Every sequence of 20 bytes is the view of an array.
    proof fn lemma_array_of(s: Seq<u8>)
        requires
            s.len() == ID_LEN,
        ensures
            exists|arr: [u8; ID_LEN]| arr@ == s,
    {
        let arr: [u8; ID_LEN] = [
            s[0], s[1], s[2], s[3], s[4], s[5], s[6], s[7], s[8], s[9],
            s[10], s[11], s[12], s[13], s[14], s[15], s[16], s[17], s[18], s[19],
        ];
        assert(arr@ =~= s);
    }

    /// The identifier made of the given bytes.
    pub fn new(bytes: [u8; ID_LEN]) -> (id: Id)
        ensures
            id@ == bytes@,
            id == Id::of_bytes(bytes),
    {
        Id { bytes }
    }

    /// The identifier that is the SHA-1 digest of the given bytes.
    pub fn sha1(bytes: &[u8]) -> (id: Id)
        ensures
            id@ == sha1_digest(bytes@),
    {
        Id { bytes: sha1_of(bytes) }
    }

    /// The bytes of the identifier, most significant first.
    pub fn to_bytes(&self) -> (bytes: [u8; ID_LEN])
        ensures
            bytes@ == self@,
    {
        self.bytes
    }

    /// Whether two identifiers have the same bytes.
    pub fn same(&self, other: &Id) -> (r: bool)
        ensures
            r == (self@ == other@),
            r == (*self == *other),
    {
        let mut i: usize = 0;
        while i < ID_LEN
            invariant
                i <= ID_LEN,
                forall|j: int| 0 <= j < i ==> self.bytes[j] == other.bytes[j],
            decreases ID_LEN - i,
        {
            if self.bytes[i] != other.bytes[i] {
                assert(self@[i as int] != other@[i as int]);
                return false;
            }
            i += 1;
        }
        assert(self@ =~= other@);
        assert(self.bytes =~= other.bytes);
        true
    }

    /// The identifier that differs from this one in the bit at `index` only,
    /// bits counted from the most significant.
    pub fn flip_bit(self, index: usize) -> (id: Id)
        requires
            index < ID_BITS,
        ensures
            id@ == flip_bit_bytes(self@, index as int),
    {
        let mut bytes = self.bytes;
        let byte_index: usize = index / 8;
        let bit_index: usize = index % 8;
        let shift: u8 = (7 - bit_index) as u8;
        assert(shift < 8);
        let mask: u8 = 1u8 << shift;
        let flipped: u8 = bytes[byte_index] ^ mask;
        bytes[byte_index] = flipped;
        assert(bytes@ =~= flip_bit_bytes(self@, index as int));
        Id { bytes }
    }

    /// Number of zero bits before the first one bit.
    pub fn leading_zeros(&self) -> (bits: u32)
        ensures
            bits == leading_zero_bits(self@),
            bits <= ID_BITS,
    {
        let mut bits: u32 = 0;
        let mut i: usize = 0;
        assert(self@.skip(0) =~= self@);
        while i < ID_LEN
            invariant
                i <= ID_LEN,
                bits == 8 * i,
                forall|j: int| 0 <= j < i ==> self@[j] == 0,
                leading_zero_bits(self@) == bits + leading_zero_bits(self@.skip(i as int)),
            decreases ID_LEN - i,
        {
            let byte: u8 = self.bytes[i];
            proof {
                vstd::std_specs::bits::axiom_u8_leading_zeros(byte);
                assert(self@.skip(i as int)[0] == byte);
                assert(self@.skip(i as int).skip(1) =~= self@.skip(i as int + 1));
            }
            if byte != 0 {
                return bits + byte.leading_zeros();
            }
            bits += 8;
            i += 1;
        }
        assert(self@.skip(ID_LEN as int).len() == 0);
        bits
    }

    /// Byte-wise exclusive or of two identifiers: their distance.
    pub fn xor(self, rhs: Id) -> (id: Id)
        ensures
            id@ == xor_bytes(self@, rhs@),
            id == self.xor_spec(rhs),
    {
        let mut bytes = self.bytes;
        let mut i: usize = 0;
        while i < ID_LEN
            invariant
                i <= ID_LEN,
                forall|j: int| 0 <= j < i ==> bytes@[j] == self@[j] ^ rhs@[j],
                forall|j: int| i <= j < ID_LEN ==> bytes@[j] == self@[j],
            decreases ID_LEN - i,
        {
            let x: u8 = self.bytes[i] ^ rhs.bytes[i];
            bytes[i] = x;
            i += 1;
        }
        assert(bytes@ =~= xor_bytes(self@, rhs@));
        let id = Id { bytes };
        proof {
            Self::lemma_view_determines(id, self.xor_spec(rhs));
        }
        id
    }

    /// Whether `a` is closer to this identifier than `b` is.
    pub fn closer(&self, a: &Id, b: &Id) -> (r: bool)
        ensures
            r == (distance(*self, *a) < distance(*self, *b)),
    {
        let ghost x = xor_bytes(self@, a@);
        let ghost y = xor_bytes(self@, b@);
        let mut i: usize = 0;
        while i < ID_LEN
            invariant
                i <= ID_LEN,
                x == xor_bytes(self@, a@),
                y == xor_bytes(self@, b@),
                x.take(i as int) == y.take(i as int),
            decreases ID_LEN - i,
        {
            let p: u8 = self.bytes[i] ^ a.bytes[i];
            let q: u8 = self.bytes[i] ^ b.bytes[i];
            assert(p == x[i as int] && q == y[i as int]);
            if p < q {
                proof {
                    lemma_big_endian_order(x, y, i as int, ID_LEN as int);
                    assert(x.take(ID_LEN as int) =~= x);
                    assert(y.take(ID_LEN as int) =~= y);
                }
                return true;
            }
            if p > q {
                proof {
                    lemma_big_endian_order(y, x, i as int, ID_LEN as int);
                    assert(x.take(ID_LEN as int) =~= x);
                    assert(y.take(ID_LEN as int) =~= y);
                }
                return false;
            }
            assert(x.take(i as int + 1) =~= x.take(i as int).push(x[i as int]));
            assert(y.take(i as int + 1) =~= y.take(i as int).push(y[i as int]));
            i += 1;
        }
        assert(x.take(ID_LEN as int) =~= x);
        assert(y.take(ID_LEN as int) =~= y);
        false
    }

    /// The identifier spelled by a slice, which must hold exactly 20 bytes.
    pub fn from_slice(slice: &[u8]) -> (r: Result<Id, LengthError>)
        ensures
            slice@.len() == ID_LEN ==> r is Ok && r->Ok_0@ == slice@,
            slice@.len() != ID_LEN ==> r is Err,
    {
        if slice.len() != ID_LEN {
            return Err(LengthError);
        }
        let mut bytes: [u8; ID_LEN] = [0u8; ID_LEN];
        let mut i: usize = 0;
        while i < ID_LEN
            invariant
                i <= ID_LEN,
                slice@.len() == ID_LEN,
                forall|j: int| 0 <= j < i ==> bytes@[j] == slice@[j],
            decreases ID_LEN - i,
        {
            bytes[i] = slice[i];
            i += 1;
        }
        assert(bytes@ =~= slice@);
        Ok(Id { bytes })
    }
}

/// The exclusive or of two byte strings spells at most the sum of what the
/// two spell.
pub proof fn lemma_big_endian_xor_le_sum(p: Seq<u8>, q: Seq<u8>)
    requires
        p.len() == q.len(),
    ensures
        big_endian(xor_bytes(p, q)) <= big_endian(p) + big_endian(q),
    decreases p.len(),
{
    if p.len() > 0 {
        let x = xor_bytes(p, q);
        lemma_big_endian_xor_le_sum(p.drop_last(), q.drop_last());
        assert(x.drop_last() =~= xor_bytes(p.drop_last(), q.drop_last()));
        let a: u8 = p.last();
        let b: u8 = q.last();
        assert(x.last() == a ^ b);
        assert((a ^ b) as int <= a as int + b as int) by (bit_vector);
    }
}

/// The distance is symmetric.
pub proof fn lemma_distance_symmetric(a: Id, b: Id)
    ensures
        xor_bytes(a@, b@) == xor_bytes(b@, a@),
        distance(a, b) == distance(b, a),
{
    assert forall|i: int| 0 <= i < ID_LEN implies (a@[i] ^ b@[i]) == (b@[i] ^ a@[i]) by {
        let x: u8 = a@[i];
        let y: u8 = b@[i];
        assert(x ^ y == y ^ x) by (bit_vector);
    }
    assert(xor_bytes(a@, b@) =~= xor_bytes(b@, a@));
}

/// The distance between two identifiers is zero exactly if they are the same.
pub proof fn lemma_distance_identity(a: Id, b: Id)
    ensures
        distance(a, a) == 0,
        distance(a, b) == 0 <==> a == b,
{
    assert forall|i: int| 0 <= i < ID_LEN implies xor_bytes(a@, a@)[i] == 0 by {
        let x: u8 = a@[i];
        assert(x ^ x == 0) by (bit_vector);
    }
    lemma_big_endian_zeros(xor_bytes(a@, a@));
    if distance(a, b) == 0 {
        lemma_big_endian_zero_only(xor_bytes(a@, b@));
        assert forall|i: int| 0 <= i < ID_LEN implies a@[i] == b@[i] by {
            let x: u8 = a@[i];
            let y: u8 = b@[i];
            assert(xor_bytes(a@, b@)[i] == 0);
            assert(x ^ y == 0 ==> x == y) by (bit_vector);
        }
        assert(a@ =~= b@);
        Id::lemma_view_determines(a, b);
    }
}

/// Distances compose by exclusive or: the distance from `a` to `c` is the
/// exclusive or of the distances from `a` to `b` and from `b` to `c`, and so
/// at most their sum.
pub proof fn lemma_distance_triangle(a: Id, b: Id, c: Id)
    ensures
        xor_bytes(a@, c@) == xor_bytes(xor_bytes(a@, b@), xor_bytes(b@, c@)),
        distance(a, c) == big_endian(xor_bytes(xor_bytes(a@, b@), xor_bytes(b@, c@))),
        distance(a, c) <= distance(a, b) + distance(b, c),
{
    let ab = xor_bytes(a@, b@);
    let bc = xor_bytes(b@, c@);
    assert forall|i: int| 0 <= i < ID_LEN implies (a@[i] ^ c@[i]) == (ab[i] ^ bc[i]) by {
        let x: u8 = a@[i];
        let y: u8 = b@[i];
        let z: u8 = c@[i];
        assert(x ^ z == (x ^ y) ^ (y ^ z)) by (bit_vector);
    }
    assert(xor_bytes(a@, c@) =~= xor_bytes(ab, bc));
    lemma_big_endian_xor_le_sum(ab, bc);
}

/// A byte string whose first `k` bytes are zero and whose next byte is not
/// has `8 * k` leading zero bits and those of that byte.
pub proof fn lemma_leading_zero_bits_at(s: Seq<u8>, k: int)
    requires
        0 <= k < s.len(),
        forall|i: int| 0 <= i < k ==> s[i] == 0,
        s[k] != 0,
    ensures
        leading_zero_bits(s) == 8 * k + vstd::std_specs::bits::u8_leading_zeros(s[k]),
    decreases k,
{
    if k > 0 {
        let t = s.skip(1);
        assert forall|i: int| 0 <= i < k - 1 implies t[i] == 0 by {
            assert(t[i] == s[i + 1]);
        }
        assert(t[k - 1] == s[k]);
        lemma_leading_zero_bits_at(t, k - 1);
    }
}

/// A byte string has as many leading zero bits as it has bits exactly if
/// all its bytes are zero, and never more.
pub proof fn lemma_leading_zero_bits_bound(s: Seq<u8>)
    ensures
        leading_zero_bits(s) <= 8 * s.len(),
        leading_zero_bits(s) == 8 * s.len() <==> (forall|i: int| 0 <= i < s.len() ==> s[i] == 0),
    decreases s.len(),
{
    if s.len() > 0 {
        let t = s.skip(1);
        lemma_leading_zero_bits_bound(t);
        vstd::std_specs::bits::axiom_u8_leading_zeros(s[0]);
        if s[0] == 0 {
            if forall|i: int| 0 <= i < t.len() ==> t[i] == 0 {
                assert forall|i: int| 0 <= i < s.len() implies s[i] == 0 by {
                    if i > 0 {
                        assert(s[i] == t[i - 1]);
                    }
                }
            }
            if forall|i: int| 0 <= i < s.len() ==> s[i] == 0 {
                assert forall|i: int| 0 <= i < t.len() implies t[i] == 0 by {
                    assert(t[i] == s[i + 1]);
                }
            }
        }
    }
}

/// The byte with one bit set, `r` places below the most significant, has
/// `r` leading zero bits.
pub proof fn lemma_single_bit_leading_zeros(r: u8)
    requires
        r < 8,
    ensures
        vstd::std_specs::bits::u8_leading_zeros(1u8 << ((7 - r) as u8)) == r,
        (1u8 << ((7 - r) as u8)) != 0,
{
    let shift: u8 = (7 - r) as u8;
    let m: u8 = 1u8 << shift;
    vstd::std_specs::bits::axiom_u8_leading_zeros(m);
    let lz = vstd::std_specs::bits::u8_leading_zeros(m);
    assert(m != 0) by (bit_vector)
        requires
            m == 1u8 << shift,
            shift < 8,
    ;
    assert(lz < 8);
    let top: u8 = (7 - lz) as u8;
    assert((m >> top) & 1u8 != 0u8);
    assert(forall|j: u8| j < 8 && j != shift ==> #[trigger] (m >> j) & 1u8 == 0u8) by (bit_vector)
        requires
            m == 1u8 << shift,
            shift < 8,
    ;
    assert(top == shift);
}

/// Flipping the bit at `index` gives an identifier that shares exactly the
/// first `index` bits with the one it is made from.
pub proof fn lemma_flip_bit_shared_prefix(id: Id, index: int)
    requires
        0 <= index < ID_BITS,
    ensures
        leading_zero_bits(xor_bytes(id@, flip_bit_bytes(id@, index))) == index,
{
    let k = index / 8;
    let r: u8 = (index % 8) as u8;
    let mask: u8 = 1u8 << ((7 - r) as u8);
    let flipped = flip_bit_bytes(id@, index);
    let x = xor_bytes(id@, flipped);
    assert forall|i: int| 0 <= i < k implies x[i] == 0 by {
        let b: u8 = id@[i];
        assert(b ^ b == 0) by (bit_vector);
    }
    let b: u8 = id@[k];
    assert(x[k] == b ^ (b ^ mask));
    assert(b ^ (b ^ mask) == mask) by (bit_vector);
    lemma_single_bit_leading_zeros(r);
    lemma_leading_zero_bits_at(x, k);
}

/// A byte has `k` leading zero bits, `k` below 8, exactly if what is left
/// of it without its `7 - k` lowest bits is 1.
pub proof fn lemma_leading_zeros_shift(p: u8, k: u8)
    requires
        k < 8,
    ensures
        vstd::std_specs::bits::u8_leading_zeros(p) == k <==> (p >> ((7 - k) as u8)) == 1,
{
    let lz = vstd::std_specs::bits::u8_leading_zeros(p);
    vstd::std_specs::bits::axiom_u8_leading_zeros(p);
    if lz < 8 {
        let m: u8 = lz as u8;
        let low: u8 = (7 - m) as u8;
        let high: u8 = (8 - m) as u8;
        assert((p >> low) == 1) by (bit_vector)
            requires
                (p >> low) & 1u8 != 0u8,
                p >> high == 0,
                high == low + 1,
                low < 8,
        ;
        let shift: u8 = (7 - k) as u8;
        assert((p >> shift) == 1 ==> shift == low) by (bit_vector)
            requires
                (p >> low) == 1,
                low < 8,
                shift < 8,
        ;
    } else {
        let shift: u8 = (7 - k) as u8;
        assert(p == 0);
        assert((p >> shift) != 1) by (bit_vector)
            requires
                p == 0,
        ;
    }
}

/// The leading zero bits of the exclusive or of two bytes that are not
/// zero: those of the byte with fewer, if they differ; more than both
/// have, if they have as many.
pub proof fn lemma_byte_xor_leading_zeros(p: u8, q: u8)
    requires
        p != 0,
        q != 0,
    ensures
        vstd::std_specs::bits::u8_leading_zeros(p) < vstd::std_specs::bits::u8_leading_zeros(q)
            ==> p ^ q != 0 && vstd::std_specs::bits::u8_leading_zeros(p ^ q)
            == vstd::std_specs::bits::u8_leading_zeros(p),
        vstd::std_specs::bits::u8_leading_zeros(p) == vstd::std_specs::bits::u8_leading_zeros(q)
            ==> vstd::std_specs::bits::u8_leading_zeros(p ^ q)
            > vstd::std_specs::bits::u8_leading_zeros(p),
{
    let a = vstd::std_specs::bits::u8_leading_zeros(p);
    let b = vstd::std_specs::bits::u8_leading_zeros(q);
    let r: u8 = p ^ q;
    let c = vstd::std_specs::bits::u8_leading_zeros(r);
    vstd::std_specs::bits::axiom_u8_leading_zeros(p);
    vstd::std_specs::bits::axiom_u8_leading_zeros(q);
    vstd::std_specs::bits::axiom_u8_leading_zeros(r);
    let ka: u8 = a as u8;
    let kb: u8 = b as u8;
    let sa: u8 = (7 - ka) as u8;
    let sb: u8 = (7 - kb) as u8;
    lemma_leading_zeros_shift(p, ka);
    lemma_leading_zeros_shift(q, kb);
    if a < b {
        assert((r >> sa) == 1) by (bit_vector)
            requires
                r == p ^ q,
                (p >> sa) == 1,
                (q >> sb) == 1,
                sb < sa,
                sa < 8,
        ;
        lemma_leading_zeros_shift(r, ka);
        assert(r != 0) by (bit_vector)
            requires
                (r >> sa) == 1,
        ;
    }
    if a == b {
        assert((r >> sa) == 0) by (bit_vector)
            requires
                r == p ^ q,
                (p >> sa) == 1,
                (q >> sa) == 1,
                sa < 8,
        ;
        if c < 8 {
            let kc: u8 = c as u8;
            let sc: u8 = (7 - kc) as u8;
            lemma_leading_zeros_shift(r, kc);
            assert(sc < sa) by (bit_vector)
                requires
                    (r >> sa) == 0,
                    (r >> sc) == 1,
                    sa < 8,
                    sc < 8,
            ;
        }
    }
}

/// The leading zero bits of the exclusive or of two byte strings of one
/// length: those of the string with fewer, if they differ; at least as
/// many as both have, if they have as many, and more unless both are zero
/// throughout.
pub proof fn lemma_xor_leading_zero_bits(x: Seq<u8>, y: Seq<u8>)
    requires
        x.len() == y.len(),
    ensures
        leading_zero_bits(x) < leading_zero_bits(y) ==> leading_zero_bits(xor_bytes(x, y))
            == leading_zero_bits(x),
        leading_zero_bits(y) < leading_zero_bits(x) ==> leading_zero_bits(xor_bytes(x, y))
            == leading_zero_bits(y),
        leading_zero_bits(x) == leading_zero_bits(y) ==> leading_zero_bits(xor_bytes(x, y))
            >= leading_zero_bits(x),
        leading_zero_bits(x) == leading_zero_bits(y) && leading_zero_bits(x) < 8 * x.len()
            ==> leading_zero_bits(xor_bytes(x, y)) > leading_zero_bits(x),
    decreases x.len(),
{
    if x.len() > 0 {
        let z = xor_bytes(x, y);
        let p: u8 = x[0];
        let q: u8 = y[0];
        let r: u8 = z[0];
        assert(r == p ^ q);
        assert(z.skip(1) =~= xor_bytes(x.skip(1), y.skip(1)));
        lemma_xor_leading_zero_bits(x.skip(1), y.skip(1));
        lemma_leading_zero_bits_bound(x.skip(1));
        lemma_leading_zero_bits_bound(y.skip(1));
        lemma_leading_zero_bits_bound(z.skip(1));
        vstd::std_specs::bits::axiom_u8_leading_zeros(p);
        vstd::std_specs::bits::axiom_u8_leading_zeros(q);
        vstd::std_specs::bits::axiom_u8_leading_zeros(r);
        if p == 0 && q == 0 {
            assert(p ^ q == 0) by (bit_vector)
                requires
                    p == 0,
                    q == 0,
            ;
        } else if p == 0 {
            assert(p ^ q == q) by (bit_vector)
                requires
                    p == 0,
            ;
        } else if q == 0 {
            assert(p ^ q == p) by (bit_vector)
                requires
                    q == 0,
            ;
        } else {
            lemma_byte_xor_leading_zeros(p, q);
            lemma_byte_xor_leading_zeros(q, p);
            assert(p ^ q == q ^ p) by (bit_vector);
        }
    }
}

/// How many leading bits a node shares with a target, by the leading bits
/// that both share with a third identifier: as many as the one of them
/// that shares fewer, if they differ; more than both, if they share as
/// many, unless node and target are the same.
pub proof fn lemma_shared_prefix(local: Id, target: Id, node: Id)
    ensures
        shared_prefix_bits(local, node) < shared_prefix_bits(local, target) ==> shared_prefix_bits(
            target,
            node,
        ) == shared_prefix_bits(local, node),
        shared_prefix_bits(local, target) < shared_prefix_bits(local, node) ==> shared_prefix_bits(
            target,
            node,
        ) == shared_prefix_bits(local, target),
        shared_prefix_bits(local, target) == shared_prefix_bits(local, node) && shared_prefix_bits(
            local,
            node,
        ) < ID_BITS ==> shared_prefix_bits(target, node) > shared_prefix_bits(local, node),
{
    let x = xor_bytes(local@, target@);
    let y = xor_bytes(local@, node@);
    lemma_distance_triangle(target, local, node);
    lemma_distance_symmetric(target, local);
    assert(xor_bytes(target@, node@) == xor_bytes(x, y));
    lemma_xor_leading_zero_bits(x, y);
}

} // verus!
