//! Bencoding: integers, byte strings, lists and dictionaries as bytes.
//!
//! An integer is `i`, its decimal digits with a minus sign before them if
//! it is negative, and `e`. A byte string is its length in decimal digits,
//! a colon, and its bytes. A list is `l`, its items, and `e`. A dictionary
//! is `d`, its entries, each a byte string as key and then a value, and
//! `e`. Numbers have no needless leading zeros, and there is no minus zero.

use vstd::prelude::*;

verus! {

/// A bencoded value.
pub enum Bencode {
    Int(int),
    Bytes(Seq<u8>),
    List(Seq<Bencode>),
    Dict(Seq<(Seq<u8>, Bencode)>),
}

/// Deepest nesting of lists and dictionaries that is read.
pub const MAX_DEPTH: usize = 8;

/// Whether a byte is a decimal digit.
pub open spec fn is_digit_byte(b: u8) -> bool {
    0x30 <= b <= 0x39
}

/// The decimal digits of a number, without leading zeros.
pub open spec fn digits_of(n: nat) -> Seq<u8>
    decreases n,
{
    if n < 10 {
        seq![(0x30 + n) as u8]
    } else {
        digits_of(n / 10).push((0x30 + n % 10) as u8)
    }
}

/// The position after the digits of `s` that start at `pos`.
pub open spec fn digits_end(s: Seq<u8>, pos: int) -> int
    decreases s.len() - pos,
{
    if 0 <= pos < s.len() && is_digit_byte(s[pos]) {
        digits_end(s, pos + 1)
    } else {
        pos
    }
}

/// The number that the digits of `s` from `from` up to `to` spell.
pub open spec fn digits_value(s: Seq<u8>, from: int, to: int) -> nat
    decreases to - from,
{
    if to <= from {
        0
    } else {
        digits_value(s, from, to - 1) * 10 + (s[to - 1] - 0x30) as nat
    }
}

/// Whether the digits of `s` from `from` up to `to` are a number as it is
/// written: at least one digit, and no leading zero before another digit.
pub open spec fn canonical_digits(s: Seq<u8>, from: int, to: int) -> bool {
    0 <= from < to <= s.len() && (s[from] != 0x30 || to == from + 1)
}

/// The integer that is written at `pos` of `s`, and the position after it.
pub open spec fn parse_int(s: Seq<u8>, pos: int) -> Option<(int, int)> {
    if pos < 0 || pos >= s.len() || s[pos] != 0x69 {
        None
    } else {
        let negative = pos + 1 < s.len() && s[pos + 1] == 0x2d;
        let from = if negative {
            pos + 2
        } else {
            pos + 1
        };
        let to = digits_end(s, from);
        let value = digits_value(s, from, to);
        if canonical_digits(s, from, to) && to < s.len() && s[to] == 0x65 && !(negative && value
            == 0) {
            Some(
                (
                    if negative {
                        -(value as int)
                    } else {
                        value as int
                    },
                    to + 1,
                ),
            )
        } else {
            None
        }
    }
}

/// The byte string that is written at `pos` of `s`, and the position
/// after it.
pub open spec fn parse_bytes(s: Seq<u8>, pos: int) -> Option<(Seq<u8>, int)> {
    let to = digits_end(s, pos);
    let len = digits_value(s, pos, to);
    if canonical_digits(s, pos, to) && to < s.len() && s[to] == 0x3a && to + 1 + len <= s.len() {
        Some((s.subrange(to + 1, to + 1 + len), to + 1 + len))
    } else {
        None
    }
}

/// The value that is written at `pos` of `s`, and the position after it.
/// Lists and dictionaries may be nested `depth` deep.
pub open spec fn parse_value(s: Seq<u8>, pos: int, depth: nat) -> Option<(Bencode, int)>
    decreases depth, s.len() - pos, 0int,
{
    if pos < 0 || pos >= s.len() {
        None
    } else if s[pos] == 0x69 {
        match parse_int(s, pos) {
            Some((value, end)) => Some((Bencode::Int(value), end)),
            None => None,
        }
    } else if is_digit_byte(s[pos]) {
        match parse_bytes(s, pos) {
            Some((bytes, end)) => Some((Bencode::Bytes(bytes), end)),
            None => None,
        }
    } else if s[pos] == 0x6c && depth > 0 {
        match parse_items(s, pos + 1, (depth - 1) as nat) {
            Some((items, end)) => Some((Bencode::List(items), end)),
            None => None,
        }
    } else if s[pos] == 0x64 && depth > 0 {
        match parse_entries(s, pos + 1, (depth - 1) as nat) {
            Some((entries, end)) => Some((Bencode::Dict(entries), end)),
            None => None,
        }
    } else {
        None
    }
}

/// The items of a list that are written from `pos` of `s` on, up to the
/// `e` that ends the list, and the position after that.
pub open spec fn parse_items(s: Seq<u8>, pos: int, depth: nat) -> Option<(Seq<Bencode>, int)>
    decreases depth, s.len() - pos, 1int,
{
    if pos < 0 || pos >= s.len() {
        None
    } else if s[pos] == 0x65 {
        Some((Seq::empty(), pos + 1))
    } else {
        match parse_value(s, pos, depth) {
            Some((item, next)) => if pos < next <= s.len() {
                match parse_items(s, next, depth) {
                    Some((items, end)) => Some((seq![item] + items, end)),
                    None => None,
                }
            } else {
                None
            },
            None => None,
        }
    }
}

/// The entries of a dictionary that are written from `pos` of `s` on, up
/// to the `e` that ends the dictionary, and the position after that.
pub open spec fn parse_entries(s: Seq<u8>, pos: int, depth: nat) -> Option<
    (Seq<(Seq<u8>, Bencode)>, int),
>
    decreases depth, s.len() - pos, 1int,
{
    if pos < 0 || pos >= s.len() {
        None
    } else if s[pos] == 0x65 {
        Some((Seq::empty(), pos + 1))
    } else {
        match parse_bytes(s, pos) {
            Some((key, after_key)) => match parse_value(s, after_key, depth) {
                Some((value, next)) => if pos < after_key < next <= s.len() {
                    match parse_entries(s, next, depth) {
                        Some((entries, end)) => Some((seq![(key, value)] + entries, end)),
                        None => None,
                    }
                } else {
                    None
                },
                None => None,
            },
            None => None,
        }
    }
}

/// The value that `s` is the writing of, if it is that of one value and
/// nothing more.
pub open spec fn parse(s: Seq<u8>) -> Option<Bencode> {
    match parse_value(s, 0, MAX_DEPTH as nat) {
        Some((value, end)) => if end == s.len() {
            Some(value)
        } else {
            None
        },
        None => None,
    }
}

/// The writing of an integer.
pub open spec fn int_bytes(value: int) -> Seq<u8> {
    if value < 0 {
        seq![0x69u8, 0x2du8] + digits_of((-value) as nat) + seq![0x65u8]
    } else {
        seq![0x69u8] + digits_of(value as nat) + seq![0x65u8]
    }
}

/// The writing of a byte string.
pub open spec fn bytes_bytes(bytes: Seq<u8>) -> Seq<u8> {
    digits_of(bytes.len()) + seq![0x3au8] + bytes
}

/// The writing of a value.
pub open spec fn serialize(value: Bencode) -> Seq<u8>
    decreases value, 0int,
{
    match value {
        Bencode::Int(v) => int_bytes(v),
        Bencode::Bytes(b) => bytes_bytes(b),
        Bencode::List(items) => seq![0x6cu8] + serialize_items(items, 0) + seq![0x65u8],
        Bencode::Dict(entries) => seq![0x64u8] + serialize_entries(entries, 0) + seq![0x65u8],
    }
}

/// The writing of the items of a list from the one at `from` on.
pub open spec fn serialize_items(items: Seq<Bencode>, from: int) -> Seq<u8>
    decreases items, items.len() - from,
{
    if from < 0 || from >= items.len() {
        Seq::empty()
    } else {
        serialize(items[from]) + serialize_items(items, from + 1)
    }
}

/// The writing of the entries of a dictionary from the one at `from` on.
pub open spec fn serialize_entries(entries: Seq<(Seq<u8>, Bencode)>, from: int) -> Seq<u8>
    decreases entries, entries.len() - from,
{
    if from < 0 || from >= entries.len() {
        Seq::empty()
    } else {
        bytes_bytes(entries[from].0) + serialize(entries[from].1) + serialize_entries(
            entries,
            from + 1,
        )
    }
}

/// Whether the lists and dictionaries of a value are nested at most
/// `depth` deep.
pub open spec fn fits(value: Bencode, depth: nat) -> bool
    decreases value,
{
    match value {
        Bencode::Int(_) => true,
        Bencode::Bytes(_) => true,
        Bencode::List(items) => depth > 0 && forall|i: int|
            0 <= i < items.len() ==> fits(#[trigger] items[i], (depth - 1) as nat),
        Bencode::Dict(entries) => depth > 0 && forall|i: int|
            0 <= i < entries.len() ==> fits((#[trigger] entries[i]).1, (depth - 1) as nat),
    }
}

/// Whether `part` stands in `s` at `pos`.
pub open spec fn stands_at(s: Seq<u8>, pos: int, part: Seq<u8>) -> bool {
    0 <= pos && pos + part.len() <= s.len() && s.subrange(pos, pos + part.len()) == part
}

/// Where two parts stand one after the other, each of them stands.
pub proof fn lemma_stands_split(s: Seq<u8>, pos: int, a: Seq<u8>, b: Seq<u8>)
    requires
        stands_at(s, pos, a + b),
    ensures
        stands_at(s, pos, a),
        stands_at(s, pos + a.len(), b),
{
    let whole = s.subrange(pos, pos + (a + b).len());
    assert(s.subrange(pos, pos + a.len()) =~= a) by {
        assert forall|i: int| 0 <= i < a.len() implies s[pos + i] == a[i] by {
            assert(whole[i] == (a + b)[i]);
        }
    }
    assert(s.subrange(pos + a.len(), pos + a.len() + b.len()) =~= b) by {
        assert forall|i: int| 0 <= i < b.len() implies s[pos + a.len() + i] == b[i] by {
            assert(whole[a.len() + i] == (a + b)[a.len() + i]);
        }
    }
}

/// The digits of a number are digits, at least one, without a leading
/// zero unless the number is zero.
pub proof fn lemma_digits_of(n: nat)
    ensures
        digits_of(n).len() >= 1,
        forall|i: int| 0 <= i < digits_of(n).len() ==> is_digit_byte(#[trigger] digits_of(n)[i]),
        digits_of(n)[0] == 0x30 ==> n == 0 && digits_of(n).len() == 1,
    decreases n,
{
    if n >= 10 {
        lemma_digits_of(n / 10);
        let init = digits_of(n / 10);
        let all = digits_of(n);
        assert forall|i: int| 0 <= i < all.len() implies is_digit_byte(#[trigger] all[i]) by {
            if i < init.len() {
                assert(all[i] == init[i]);
            }
        }
        assert(all[0] == init[0]);
    }
}

/// A run of digits ends where the first byte stands that is no digit.
pub proof fn lemma_digits_end(s: Seq<u8>, pos: int, to: int)
    requires
        0 <= pos <= to <= s.len(),
        forall|i: int| pos <= i < to ==> is_digit_byte(#[trigger] s[i]),
        to == s.len() || !is_digit_byte(s[to]),
    ensures
        digits_end(s, pos) == to,
    decreases to - pos,
{
    if pos < to {
        assert(is_digit_byte(s[pos]));
        lemma_digits_end(s, pos + 1, to);
    }
}

/// Where the digits of a number stand, followed by no digit, the number
/// is read.
pub proof fn lemma_digits_round_trip(s: Seq<u8>, pos: int, n: nat)
    requires
        stands_at(s, pos, digits_of(n)),
        pos + digits_of(n).len() == s.len() || !is_digit_byte(s[pos + digits_of(n).len()]),
    ensures
        digits_end(s, pos) == pos + digits_of(n).len(),
        digits_value(s, pos, pos + digits_of(n).len()) == n,
        canonical_digits(s, pos, pos + digits_of(n).len()),
{
    let d = digits_of(n);
    let to = pos + d.len();
    lemma_digits_of(n);
    assert forall|i: int| pos <= i < to implies is_digit_byte(#[trigger] s[i]) by {
        assert(s.subrange(pos, to)[i - pos] == d[i - pos]);
    }
    lemma_digits_end(s, pos, to);
    lemma_digits_value(s, pos, n);
    assert(s[pos] == s.subrange(pos, to)[0]);
}

/// Where the digits of a number stand they spell the number.
pub proof fn lemma_digits_value(s: Seq<u8>, pos: int, n: nat)
    requires
        stands_at(s, pos, digits_of(n)),
    ensures
        digits_value(s, pos, pos + digits_of(n).len()) == n,
    decreases n,
{
    let d = digits_of(n);
    let to = pos + d.len();
    lemma_digits_of(n);
    assert(s[to - 1] == s.subrange(pos, to)[d.len() - 1]);
    if n < 10 {
        assert(digits_value(s, pos, to - 1) == 0);
    } else {
        let init = digits_of(n / 10);
        assert(d == init.push((0x30 + n % 10) as u8));
        assert(s.subrange(pos, pos + init.len()) =~= init) by {
            assert forall|i: int| 0 <= i < init.len() implies s[pos + i] == init[i] by {
                assert(s.subrange(pos, to)[i] == d[i]);
            }
        }
        lemma_digits_value(s, pos, n / 10);
    }
}

/// Where the writing of an integer stands, the integer is read.
pub proof fn lemma_int_round_trip(s: Seq<u8>, pos: int, value: int)
    requires
        stands_at(s, pos, int_bytes(value)),
    ensures
        parse_int(s, pos) == Some((value, pos + int_bytes(value).len())),
{
    let whole = int_bytes(value);
    let part = s.subrange(pos, pos + whole.len());
    if value < 0 {
        let n = (-value) as nat;
        let d = digits_of(n);
        lemma_digits_of(n);
        assert(s[pos] == part[0]);
        assert(s[pos + 1] == part[1]);
        assert(s[pos + 2 + d.len()] == part[2 + d.len() as int]);
        assert(s.subrange(pos + 2, pos + 2 + d.len()) =~= d) by {
            assert forall|i: int| 0 <= i < d.len() implies s[pos + 2 + i] == d[i] by {
                assert(part[2 + i] == whole[2 + i]);
            }
        }
        lemma_digits_round_trip(s, pos + 2, n);
    } else {
        let n = value as nat;
        let d = digits_of(n);
        lemma_digits_of(n);
        assert(s[pos] == part[0]);
        assert(s[pos + 1] == part[1]);
        assert(part[1] == d[0]);
        assert(s[pos + 1 + d.len()] == part[1 + d.len() as int]);
        assert(s.subrange(pos + 1, pos + 1 + d.len()) =~= d) by {
            assert forall|i: int| 0 <= i < d.len() implies s[pos + 1 + i] == d[i] by {
                assert(part[1 + i] == whole[1 + i]);
            }
        }
        lemma_digits_round_trip(s, pos + 1, n);
    }
}

/// Where the writing of a byte string stands, the byte string is read.
pub proof fn lemma_bytes_round_trip(s: Seq<u8>, pos: int, bytes: Seq<u8>)
    requires
        stands_at(s, pos, bytes_bytes(bytes)),
    ensures
        parse_bytes(s, pos) == Some((bytes, pos + bytes_bytes(bytes).len())),
        is_digit_byte(s[pos]),
{
    let whole = bytes_bytes(bytes);
    let part = s.subrange(pos, pos + whole.len());
    let d = digits_of(bytes.len());
    lemma_digits_of(bytes.len());
    assert(s[pos] == part[0]);
    assert(part[0] == d[0]);
    assert(s[pos + d.len()] == part[d.len() as int]);
    assert(s.subrange(pos, pos + d.len()) =~= d) by {
        assert forall|i: int| 0 <= i < d.len() implies s[pos + i] == d[i] by {
            assert(part[i] == whole[i]);
        }
    }
    lemma_digits_round_trip(s, pos, bytes.len());
    assert(s.subrange(pos + d.len() + 1, pos + d.len() + 1 + bytes.len()) =~= bytes) by {
        assert forall|i: int| 0 <= i < bytes.len() implies s[pos + d.len() + 1 + i]
            == bytes[i] by {
            assert(part[d.len() + 1 + i] == whole[d.len() + 1 + i]);
        }
    }
}

/// The writing of a value is not empty, and its first byte tells what
/// the value is: it is never the `e` that ends a list.
pub proof fn lemma_serialize_first(value: Bencode)
    ensures
        serialize(value).len() >= 1,
        match value {
            Bencode::Int(_) => serialize(value)[0] == 0x69,
            Bencode::Bytes(_) => is_digit_byte(serialize(value)[0]),
            Bencode::List(_) => serialize(value)[0] == 0x6c,
            Bencode::Dict(_) => serialize(value)[0] == 0x64,
        },
{
    match value {
        Bencode::Bytes(b) => {
            lemma_digits_of(b.len());
            assert(serialize(value)[0] == digits_of(b.len())[0]);
        },
        _ => {},
    }
}

/// Where the writing of a value stands, the value is read.
pub proof fn lemma_value_round_trip(s: Seq<u8>, pos: int, value: Bencode, depth: nat)
    requires
        fits(value, depth),
        stands_at(s, pos, serialize(value)),
    ensures
        parse_value(s, pos, depth) == Some((value, pos + serialize(value).len())),
    decreases value, 0int,
{
    let whole = serialize(value);
    let part = s.subrange(pos, pos + whole.len());
    lemma_serialize_first(value);
    assert(s[pos] == part[0]);
    match value {
        Bencode::Int(v) => {
            lemma_int_round_trip(s, pos, v);
        },
        Bencode::Bytes(b) => {
            lemma_bytes_round_trip(s, pos, b);
        },
        Bencode::List(items) => {
            let body = serialize_items(items, 0) + seq![0x65u8];
            assert(whole =~= seq![0x6cu8] + body);
            lemma_stands_split(s, pos, seq![0x6cu8], body);
            lemma_items_round_trip(s, pos + 1, items, 0, (depth - 1) as nat);
            assert(items.skip(0) =~= items);
        },
        Bencode::Dict(entries) => {
            let body = serialize_entries(entries, 0) + seq![0x65u8];
            assert(whole =~= seq![0x64u8] + body);
            lemma_stands_split(s, pos, seq![0x64u8], body);
            lemma_entries_round_trip(s, pos + 1, entries, 0, (depth - 1) as nat);
            assert(entries.skip(0) =~= entries);
        },
    }
}

/// Where the writing of the items of a list from `from` on stands,
/// followed by the `e` that ends the list, the items are read.
pub proof fn lemma_items_round_trip(
    s: Seq<u8>,
    pos: int,
    items: Seq<Bencode>,
    from: int,
    depth: nat,
)
    requires
        0 <= from <= items.len(),
        forall|i: int| 0 <= i < items.len() ==> fits(#[trigger] items[i], depth),
        stands_at(s, pos, serialize_items(items, from) + seq![0x65u8]),
    ensures
        parse_items(s, pos, depth) == Some(
            (items.skip(from), pos + serialize_items(items, from).len() + 1),
        ),
    decreases items, items.len() - from,
{
    let body = serialize_items(items, from) + seq![0x65u8];
    let part = s.subrange(pos, pos + body.len());
    assert(s[pos] == part[0]);
    if from == items.len() {
        assert(items.skip(from) =~= Seq::<Bencode>::empty());
    } else {
        let item = items[from];
        let first = serialize(item);
        let rest = serialize_items(items, from + 1) + seq![0x65u8];
        lemma_serialize_first(item);
        assert(body =~= first + rest);
        assert(part[0] == first[0]);
        lemma_stands_split(s, pos, first, rest);
        lemma_value_round_trip(s, pos, item, depth);
        lemma_items_round_trip(s, pos + first.len(), items, from + 1, depth);
        assert(seq![item] + items.skip(from + 1) =~= items.skip(from));
    }
}

/// Where the writing of the entries of a dictionary from `from` on
/// stands, followed by the `e` that ends the dictionary, the entries are
/// read.
pub proof fn lemma_entries_round_trip(
    s: Seq<u8>,
    pos: int,
    entries: Seq<(Seq<u8>, Bencode)>,
    from: int,
    depth: nat,
)
    requires
        0 <= from <= entries.len(),
        forall|i: int| 0 <= i < entries.len() ==> fits((#[trigger] entries[i]).1, depth),
        stands_at(s, pos, serialize_entries(entries, from) + seq![0x65u8]),
    ensures
        parse_entries(s, pos, depth) == Some(
            (entries.skip(from), pos + serialize_entries(entries, from).len() + 1),
        ),
    decreases entries, entries.len() - from,
{
    let body = serialize_entries(entries, from) + seq![0x65u8];
    let part = s.subrange(pos, pos + body.len());
    assert(s[pos] == part[0]);
    if from == entries.len() {
        assert(entries.skip(from) =~= Seq::<(Seq<u8>, Bencode)>::empty());
    } else {
        let key = bytes_bytes(entries[from].0);
        let value = serialize(entries[from].1);
        let rest = serialize_entries(entries, from + 1) + seq![0x65u8];
        lemma_serialize_first(entries[from].1);
        lemma_digits_of(entries[from].0.len());
        assert(body =~= key + (value + rest));
        assert(part[0] == key[0]);
        assert(key[0] == digits_of(entries[from].0.len())[0]);
        lemma_stands_split(s, pos, key, value + rest);
        lemma_stands_split(s, pos + key.len(), value, rest);
        lemma_bytes_round_trip(s, pos, entries[from].0);
        lemma_value_round_trip(s, pos + key.len(), entries[from].1, depth);
        lemma_entries_round_trip(s, pos + key.len() + value.len(), entries, from + 1, depth);
        assert(seq![entries[from]] + entries.skip(from + 1) =~= entries.skip(from));
    }
}

/// Reading the writing of a value gives the value back.
pub proof fn lemma_round_trip(value: Bencode)
    requires
        fits(value, MAX_DEPTH as nat),
    ensures
        parse(serialize(value)) == Some(value),
{
    let s = serialize(value);
    assert(s.subrange(0, s.len() as int) =~= s);
    lemma_value_round_trip(s, 0, value, MAX_DEPTH as nat);
}

/// The value of the first entry of `entries` with the given key.
pub open spec fn get(entries: Seq<(Seq<u8>, Bencode)>, key: Seq<u8>) -> Option<Bencode>
    decreases entries.len(),
{
    if entries.len() == 0 {
        None
    } else if entries[0].0 == key {
        Some(entries[0].1)
    } else {
        get(entries.skip(1), key)
    }
}

/// The value that is written at `pos` of `s`.
pub open spec fn value_at(s: Seq<u8>, pos: int, depth: nat) -> Bencode {
    match parse_value(s, pos, depth) {
        Some((value, _)) => value,
        None => Bencode::Int(0),
    }
}

/// The entries of the dictionary that are written from `pos` of `s` on.
pub open spec fn entries_at(s: Seq<u8>, pos: int, depth: nat) -> Seq<(Seq<u8>, Bencode)> {
    match parse_entries(s, pos, depth) {
        Some((entries, _)) => entries,
        None => Seq::empty(),
    }
}

/// The items of the list that are written from `pos` of `s` on.
pub open spec fn items_at(s: Seq<u8>, pos: int, depth: nat) -> Seq<Bencode> {
    match parse_items(s, pos, depth) {
        Some((items, _)) => items,
        None => Seq::empty(),
    }
}

/// The byte string that is written at `pos` of `s`.
pub open spec fn bytes_at(s: Seq<u8>, pos: int) -> Seq<u8> {
    match parse_bytes(s, pos) {
        Some((bytes, _)) => bytes,
        None => Seq::empty(),
    }
}

/// The integer that is written at `pos` of `s`.
pub open spec fn int_at(s: Seq<u8>, pos: int) -> int {
    match parse_int(s, pos) {
        Some((value, _)) => value,
        None => 0,
    }
}

/// The position after the value that is written at `pos` of `s`.
pub open spec fn value_end(s: Seq<u8>, pos: int, depth: nat) -> Option<int> {
    match parse_value(s, pos, depth) {
        Some((_, end)) => Some(end),
        None => None,
    }
}

/// The position after the list whose items are written from `pos` on.
pub open spec fn items_end(s: Seq<u8>, pos: int, depth: nat) -> Option<int> {
    match parse_items(s, pos, depth) {
        Some((_, end)) => Some(end),
        None => None,
    }
}

/// The position after the dictionary whose entries are written from `pos`
/// on.
pub open spec fn entries_end(s: Seq<u8>, pos: int, depth: nat) -> Option<int> {
    match parse_entries(s, pos, depth) {
        Some((_, end)) => Some(end),
        None => None,
    }
}

/// The digits of a run spell no less than the digits of its start.
pub proof fn lemma_digits_value_monotone(s: Seq<u8>, from: int, mid: int, to: int)
    requires
        0 <= from <= mid <= to <= s.len(),
        forall|i: int| from <= i < to ==> is_digit_byte(#[trigger] s[i]),
    ensures
        digits_value(s, from, mid) <= digits_value(s, from, to),
    decreases to - mid,
{
    if mid < to {
        lemma_digits_value_monotone(s, from, mid, to - 1);
        assert(is_digit_byte(s[to - 1]));
    }
}

/// What the digits of a run say of the positions that follow a value that
/// was read.
pub proof fn lemma_digits_end_bounds(s: Seq<u8>, pos: int)
    requires
        0 <= pos <= s.len(),
    ensures
        pos <= digits_end(s, pos) <= s.len(),
        forall|i: int| pos <= i < digits_end(s, pos) ==> is_digit_byte(#[trigger] s[i]),
        digits_end(s, pos) < s.len() ==> !is_digit_byte(s[digits_end(s, pos)]),
    decreases s.len() - pos,
{
    if pos < s.len() && is_digit_byte(s[pos]) {
        lemma_digits_end_bounds(s, pos + 1);
    }
}

/// Appends the decimal digits of a number.
pub fn write_digits(out: &mut Vec<u8>, n: u64)
    ensures
        final(out)@ == old(out)@ + digits_of(n as nat),
    decreases n,
{
    if n >= 10 {
        write_digits(out, n / 10);
    }
    let ghost before = out@;
    out.push((0x30 + n % 10) as u8);
    proof {
        if n >= 10 {
            assert(out@ =~= old(out)@ + digits_of((n / 10) as nat).push((0x30 + n % 10) as u8));
        } else {
            assert(out@ =~= old(out)@ + seq![(0x30 + n) as u8]);
        }
    }
}

/// Appends the writing of an integer that is not negative.
pub fn write_int(out: &mut Vec<u8>, value: u64)
    ensures
        final(out)@ == old(out)@ + int_bytes(value as int),
{
    out.push(0x69);
    write_digits(out, value);
    out.push(0x65);
    assert(out@ =~= old(out)@ + int_bytes(value as int));
}

/// Appends the writing of a byte string.
pub fn write_bytes(out: &mut Vec<u8>, bytes: &[u8])
    ensures
        final(out)@ == old(out)@ + bytes_bytes(bytes@),
{
    write_digits(out, bytes.len() as u64);
    out.push(0x3a);
    let ghost head = out@;
    let mut i: usize = 0;
    while i < bytes.len()
        invariant
            i <= bytes@.len(),
            out@ == head + bytes@.take(i as int),
        decreases bytes@.len() - i,
    {
        out.push(bytes[i]);
        assert(out@ =~= head + bytes@.take(i as int + 1));
        i += 1;
    }
    assert(bytes@.take(bytes@.len() as int) =~= bytes@);
    assert(out@ =~= old(out)@ + bytes_bytes(bytes@));
}

/// The position after the digits that start at `pos`.
pub fn scan_digits(bytes: &[u8], pos: usize) -> (end: usize)
    requires
        pos <= bytes@.len(),
    ensures
        end == digits_end(bytes@, pos as int),
        pos <= end <= bytes@.len(),
{
    let mut end: usize = pos;
    while end < bytes.len() && bytes[end] >= 0x30 && bytes[end] <= 0x39
        invariant
            pos <= end <= bytes@.len(),
            digits_end(bytes@, pos as int) == digits_end(bytes@, end as int),
        decreases bytes@.len() - end,
    {
        end += 1;
    }
    end
}

/// The number that the digits from `from` up to `to` spell, if it is at
/// most the largest `u64`.
pub fn number_at(bytes: &[u8], from: usize, to: usize) -> (value: Option<u64>)
    requires
        from <= to <= bytes@.len(),
        forall|i: int| from <= i < to ==> is_digit_byte(#[trigger] bytes@[i]),
    ensures
        match value {
            Some(v) => v == digits_value(bytes@, from as int, to as int),
            None => digits_value(bytes@, from as int, to as int) > u64::MAX,
        },
{
    let mut value: u64 = 0;
    let mut i: usize = from;
    while i < to
        invariant
            from <= i <= to <= bytes@.len(),
            forall|k: int| from <= k < to ==> is_digit_byte(#[trigger] bytes@[k]),
            value == digits_value(bytes@, from as int, i as int),
        decreases to - i,
    {
        assert(is_digit_byte(bytes@[i as int]));
        let digit: u64 = (bytes[i] - 0x30) as u64;
        let next = match value.checked_mul(10) {
            Some(times_ten) => times_ten.checked_add(digit),
            None => None,
        };
        match next {
            Some(v) => {
                value = v;
            },
            None => {
                proof {
                    lemma_digits_value_monotone(bytes@, from as int, i as int + 1, to as int);
                }
                return None;
            },
        }
        i += 1;
    }
    Some(value)
}

/// The byte string that is written at `pos`: the positions at which its
/// bytes start and end. The value after it starts where it ends.
pub fn read_bytes(bytes: &[u8], pos: usize) -> (span: Option<(usize, usize)>)
    requires
        pos <= bytes@.len(),
    ensures
        match parse_bytes(bytes@, pos as int) {
            Some((content, next)) => span == Some(((next - content.len()) as usize, next as usize))
                && content == bytes@.subrange(next - content.len(), next) && pos < next
                - content.len() <= next <= bytes@.len(),
            None => span is None,
        },
{
    let to = scan_digits(bytes, pos);
    proof {
        lemma_digits_end_bounds(bytes@, pos as int);
    }
    if to == pos || (bytes[pos] == 0x30 && to != pos + 1) {
        return None;
    }
    if to >= bytes.len() || bytes[to] != 0x3a {
        return None;
    }
    let len = match number_at(bytes, pos, to) {
        Some(len) => len,
        None => {
            return None;
        },
    };
    let room: usize = bytes.len() - to - 1;
    if len > room as u64 {
        return None;
    }
    Some((to + 1, to + 1 + len as usize))
}

/// The integer that is written at `pos`, if it is neither negative nor
/// greater than `max`, and the position after it.
pub fn read_int(bytes: &[u8], pos: usize, max: u64) -> (r: Option<(u64, usize)>)
    requires
        pos <= bytes@.len(),
    ensures
        r == match parse_int(bytes@, pos as int) {
            Some((value, next)) => if 0 <= value <= max {
                Some((value as u64, next as usize))
            } else {
                None
            },
            None => None,
        },
{
    if pos >= bytes.len() || bytes[pos] != 0x69 {
        return None;
    }
    let negative = pos + 1 < bytes.len() && bytes[pos + 1] == 0x2d;
    if negative {
        // A negative number or nothing that is written as a number.
        return None;
    }
    let from: usize = pos + 1;
    let to = scan_digits(bytes, from);
    proof {
        lemma_digits_end_bounds(bytes@, from as int);
    }
    if to == from || (bytes[from] == 0x30 && to != from + 1) {
        return None;
    }
    if to >= bytes.len() || bytes[to] != 0x65 {
        return None;
    }
    match number_at(bytes, from, to) {
        Some(value) => if value <= max {
            Some((value, to + 1))
        } else {
            None
        },
        None => None,
    }
}

/// The position after the integer that is written at `pos`.
pub fn skip_int(bytes: &[u8], pos: usize) -> (end: Option<usize>)
    requires
        pos <= bytes@.len(),
    ensures
        match parse_int(bytes@, pos as int) {
            Some((_, next)) => end == Some(next as usize) && pos < next <= bytes@.len(),
            None => end is None,
        },
{
    if pos >= bytes.len() || bytes[pos] != 0x69 {
        return None;
    }
    let negative = pos + 1 < bytes.len() && bytes[pos + 1] == 0x2d;
    let from: usize = if negative {
        pos + 2
    } else {
        pos + 1
    };
    let to = scan_digits(bytes, from);
    proof {
        lemma_digits_end_bounds(bytes@, from as int);
    }
    if to == from || (bytes[from] == 0x30 && to != from + 1) {
        return None;
    }
    if to >= bytes.len() || bytes[to] != 0x65 {
        return None;
    }
    proof {
        lemma_digits_value_monotone(bytes@, from as int, from as int + 1, to as int);
        assert(digits_value(bytes@, from as int, from as int) == 0);
    }
    if negative && bytes[from] == 0x30 {
        return None;
    }
    Some(to + 1)
}

/// The position after the value that is written at `pos`, if one is: a
/// value with lists and dictionaries nested at most `depth` deep.
pub fn skip_value(bytes: &[u8], pos: usize, depth: usize) -> (end: Option<usize>)
    requires
        pos <= bytes@.len(),
    ensures
        match value_end(bytes@, pos as int, depth as nat) {
            Some(e) => end == Some(e as usize) && pos < e <= bytes@.len(),
            None => end is None,
        },
    decreases depth,
{
    if pos >= bytes.len() {
        return None;
    }
    let first = bytes[pos];
    if first == 0x69 {
        skip_int(bytes, pos)
    } else if first >= 0x30 && first <= 0x39 {
        match read_bytes(bytes, pos) {
            Some((_, next)) => Some(next),
            None => None,
        }
    } else if first == 0x6c && depth > 0 {
        let mut at: usize = pos + 1;
        loop
            invariant
                pos < at <= bytes@.len(),
                depth > 0,
                value_end(bytes@, pos as int, depth as nat) == items_end(
                    bytes@,
                    pos as int + 1,
                    (depth - 1) as nat,
                ),
                items_end(bytes@, at as int, (depth - 1) as nat) == items_end(
                    bytes@,
                    pos as int + 1,
                    (depth - 1) as nat,
                ),
            decreases bytes@.len() - at,
        {
            if at >= bytes.len() {
                return None;
            }
            if bytes[at] == 0x65 {
                return Some(at + 1);
            }
            match skip_value(bytes, at, depth - 1) {
                Some(next) => {
                    proof {
                        let d = (depth - 1) as nat;
                        let item = parse_value(bytes@, at as int, d);
                        assert(item is Some);
                        assert(bytes@[at as int] != 0x65);
                        assert(items_end(bytes@, at as int, d) == items_end(
                            bytes@,
                            next as int,
                            d,
                        ));
                    }
                    at = next;
                },
                None => {
                    return None;
                },
            }
        }
    } else if first == 0x64 && depth > 0 {
        let mut at: usize = pos + 1;
        loop
            invariant
                pos < at <= bytes@.len(),
                depth > 0,
                value_end(bytes@, pos as int, depth as nat) == entries_end(
                    bytes@,
                    pos as int + 1,
                    (depth - 1) as nat,
                ),
                entries_end(bytes@, at as int, (depth - 1) as nat) == entries_end(
                    bytes@,
                    pos as int + 1,
                    (depth - 1) as nat,
                ),
            decreases bytes@.len() - at,
        {
            if at >= bytes.len() {
                return None;
            }
            if bytes[at] == 0x65 {
                return Some(at + 1);
            }
            let after_key = match read_bytes(bytes, at) {
                Some((_, next)) => next,
                None => {
                    return None;
                },
            };
            match skip_value(bytes, after_key, depth - 1) {
                Some(next) => {
                    proof {
                        let d = (depth - 1) as nat;
                        let key = parse_bytes(bytes@, at as int);
                        let value = parse_value(bytes@, after_key as int, d);
                        assert(key is Some);
                        assert(value is Some);
                        assert(bytes@[at as int] != 0x65);
                        assert(entries_end(bytes@, at as int, d) == entries_end(
                            bytes@,
                            next as int,
                            d,
                        ));
                    }
                    at = next;
                },
                None => {
                    return None;
                },
            }
        }
    } else {
        None
    }
}

/// Whether the bytes from `from` up to `to` are those of `key`.
pub fn span_equals(bytes: &[u8], from: usize, to: usize, key: &[u8]) -> (r: bool)
    requires
        from <= to <= bytes@.len(),
    ensures
        r == (bytes@.subrange(from as int, to as int) == key@),
{
    if to - from != key.len() {
        return false;
    }
    let mut i: usize = 0;
    while i < key.len()
        invariant
            i <= key@.len(),
            from <= to <= bytes@.len(),
            to - from == key@.len(),
            forall|j: int| 0 <= j < i ==> bytes@[from + j] == key@[j],
        decreases key@.len() - i,
    {
        if bytes[from + i] != key[i] {
            assert(bytes@.subrange(from as int, to as int)[i as int] != key@[i as int]);
            return false;
        }
        i += 1;
    }
    assert(bytes@.subrange(from as int, to as int) =~= key@);
    true
}

/// The position of the value of the first entry with the given key in
/// the dictionary whose entries are written from `pos` on.
pub fn find_entry(bytes: &[u8], pos: usize, key: &[u8], depth: usize) -> (found: Option<usize>)
    requires
        pos <= bytes@.len(),
        parse_entries(bytes@, pos as int, depth as nat) is Some,
    ensures
        match found {
            Some(at) => {
                &&& at <= bytes@.len()
                &&& parse_value(bytes@, at as int, depth as nat) is Some
                &&& get(entries_at(bytes@, pos as int, depth as nat), key@) == Some(
                    value_at(bytes@, at as int, depth as nat),
                )
            },
            None => get(entries_at(bytes@, pos as int, depth as nat), key@) is None,
        },
{
    let ghost all = entries_at(bytes@, pos as int, depth as nat);
    let mut at: usize = pos;
    loop
        invariant
            pos <= at <= bytes@.len(),
            parse_entries(bytes@, at as int, depth as nat) is Some,
            get(entries_at(bytes@, at as int, depth as nat), key@) == get(all, key@),
            all == entries_at(bytes@, pos as int, depth as nat),
        decreases bytes@.len() - at,
    {
        if at >= bytes.len() || bytes[at] == 0x65 {
            return None;
        }
        let (key_start, key_end) = match read_bytes(bytes, at) {
            Some(span) => span,
            None => {
                return None;
            },
        };
        let next = match skip_value(bytes, key_end, depth) {
            Some(next) => next,
            None => {
                return None;
            },
        };
        proof {
            let here = entries_at(bytes@, at as int, depth as nat);
            let rest = entries_at(bytes@, next as int, depth as nat);
            assert(here.skip(1) =~= rest);
        }
        if span_equals(bytes, key_start, key_end, key) {
            return Some(key_end);
        }
        at = next;
    }
}

/// The writing of the entries of two lists of entries, one after the
/// other, is the writing of the first and then that of the second.
pub proof fn lemma_serialize_entries_add(
    a: Seq<(Seq<u8>, Bencode)>,
    b: Seq<(Seq<u8>, Bencode)>,
    from: int,
)
    requires
        0 <= from <= a.len(),
    ensures
        serialize_entries(a + b, from) == serialize_entries(a, from) + serialize_entries(b, 0),
    decreases a.len() - from,
{
    if from < a.len() {
        lemma_serialize_entries_add(a, b, from + 1);
        assert((a + b)[from] == a[from]);
        assert(serialize_entries(a + b, from) =~= serialize_entries(a, from) + serialize_entries(
            b,
            0,
        ));
    } else {
        lemma_serialize_entries_shift(a, b, 0);
        assert(serialize_entries(a, from) =~= Seq::<u8>::empty());
        assert(serialize_entries(a + b, from) =~= serialize_entries(a, from) + serialize_entries(
            b,
            0,
        ));
    }
}

/// The writing of the entries of the second of two lists, from the one at
/// `j` on, is that of both lists from as far behind the first.
pub proof fn lemma_serialize_entries_shift(
    a: Seq<(Seq<u8>, Bencode)>,
    b: Seq<(Seq<u8>, Bencode)>,
    j: int,
)
    requires
        0 <= j <= b.len(),
    ensures
        serialize_entries(a + b, a.len() + j) == serialize_entries(b, j),
    decreases b.len() - j,
{
    if j < b.len() {
        lemma_serialize_entries_shift(a, b, j + 1);
        assert((a + b)[a.len() + j] == b[j]);
    }
}

/// The writing of the items of two lists, one after the other, is the
/// writing of the first and then that of the second.
pub proof fn lemma_serialize_items_add(a: Seq<Bencode>, b: Seq<Bencode>, from: int)
    requires
        0 <= from <= a.len(),
    ensures
        serialize_items(a + b, from) == serialize_items(a, from) + serialize_items(b, 0),
    decreases a.len() - from,
{
    if from < a.len() {
        lemma_serialize_items_add(a, b, from + 1);
        assert((a + b)[from] == a[from]);
        assert(serialize_items(a + b, from) =~= serialize_items(a, from) + serialize_items(b, 0));
    } else {
        lemma_serialize_items_shift(a, b, 0);
        assert(serialize_items(a, from) =~= Seq::<u8>::empty());
        assert(serialize_items(a + b, from) =~= serialize_items(a, from) + serialize_items(b, 0));
    }
}

/// The writing of the items of the second of two lists, from the one at
/// `j` on, is that of both lists from as far behind the first.
pub proof fn lemma_serialize_items_shift(a: Seq<Bencode>, b: Seq<Bencode>, j: int)
    requires
        0 <= j <= b.len(),
    ensures
        serialize_items(a + b, a.len() + j) == serialize_items(b, j),
    decreases b.len() - j,
{
    if j < b.len() {
        lemma_serialize_items_shift(a, b, j + 1);
        assert((a + b)[a.len() + j] == b[j]);
    }
}

/// What the first byte of a value that is written at `pos` says of the
/// value.
pub proof fn lemma_value_kind(s: Seq<u8>, pos: int, depth: nat)
    requires
        parse_value(s, pos, depth) is Some,
    ensures
        0 <= pos < s.len(),
        s[pos] == 0x64 <==> value_at(s, pos, depth) is Dict,
        s[pos] == 0x6c <==> value_at(s, pos, depth) is List,
        s[pos] == 0x69 <==> value_at(s, pos, depth) is Int,
        is_digit_byte(s[pos]) <==> value_at(s, pos, depth) is Bytes,
        value_at(s, pos, depth) is Dict ==> depth > 0 && parse_entries(
            s,
            pos + 1,
            (depth - 1) as nat,
        ) is Some && value_at(s, pos, depth) == Bencode::Dict(
            entries_at(s, pos + 1, (depth - 1) as nat),
        ),
        value_at(s, pos, depth) is List ==> depth > 0 && parse_items(
            s,
            pos + 1,
            (depth - 1) as nat,
        ) is Some && value_at(s, pos, depth) == Bencode::List(
            items_at(s, pos + 1, (depth - 1) as nat),
        ),
        value_at(s, pos, depth) is Bytes ==> parse_bytes(s, pos) is Some && value_at(
            s,
            pos,
            depth,
        ) == Bencode::Bytes(bytes_at(s, pos)),
        value_at(s, pos, depth) is Int ==> parse_int(s, pos) is Some && value_at(s, pos, depth)
            == Bencode::Int(int_at(s, pos)),
{
}

/// What the items of a list that are written from `pos` on are: none if an
/// `e` stands there, else the value that is written there and the items
/// that are written after it.
pub proof fn lemma_items_step(s: Seq<u8>, pos: int, depth: nat)
    requires
        parse_items(s, pos, depth) is Some,
    ensures
        0 <= pos < s.len(),
        s[pos] == 0x65 ==> items_at(s, pos, depth) == Seq::<Bencode>::empty(),
        s[pos] != 0x65 ==> {
            &&& parse_value(s, pos, depth) is Some
            &&& value_end(s, pos, depth) matches Some(next)
            &&& pos < next <= s.len()
            &&& parse_items(s, next, depth) is Some
            &&& items_at(s, pos, depth) == seq![value_at(s, pos, depth)] + items_at(
                s,
                next,
                depth,
            )
        },
{
}

} // verus!
