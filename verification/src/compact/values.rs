//! Lists of peer addresses, each in compact encoding.

use vstd::prelude::*;
use crate::addr::SocketAddr;
use crate::compact::{decode_socket_addr, decoded_socket_addr, encode_socket_addr, socket_addr_bytes};
use crate::id::LengthError;

verus! {

/// Whether `items` are the compact encodings of `addrs`, one for one.
pub open spec fn encodes(items: Seq<Vec<u8>>, addrs: Seq<SocketAddr>) -> bool {
    &&& items.len() == addrs.len()
    &&& forall|i: int| 0 <= i < items.len() ==> (#[trigger] items[i])@ == socket_addr_bytes(addrs[i])
}

/// Whether `addrs` are the addresses that `items` spell, one for one.
pub open spec fn decodes(items: Seq<Vec<u8>>, addrs: Seq<SocketAddr>) -> bool {
    &&& items.len() == addrs.len()
    &&& forall|i: int|
        0 <= i < items.len() ==> decoded_socket_addr((#[trigger] items[i])@) == Some(addrs[i])
}

/// The compact encodings of a list of addresses.
pub fn serialize(addrs: &[SocketAddr]) -> (items: Vec<Vec<u8>>)
    ensures
        encodes(items@, addrs@),
{
    let mut items: Vec<Vec<u8>> = Vec::new();
    let mut i: usize = 0;
    while i < addrs.len()
        invariant
            i <= addrs@.len(),
            encodes(items@, addrs@.take(i as int)),
        decreases addrs@.len() - i,
    {
        items.push(encode_socket_addr(&addrs[i]));
        i += 1;
    }
    assert(addrs@.take(addrs@.len() as int) =~= addrs@);
    items
}

/// The addresses that a list of compact encodings spells. Fails if one of
/// them has neither 6 nor 18 bytes.
pub fn deserialize(items: &Vec<Vec<u8>>) -> (r: Result<Vec<SocketAddr>, LengthError>)
    ensures
        match r {
            Ok(addrs) => decodes(items@, addrs@),
            Err(_) => exists|i: int|
                0 <= i < items@.len() && decoded_socket_addr((#[trigger] items@[i])@) is None,
        },
{
    let mut addrs: Vec<SocketAddr> = Vec::new();
    let mut i: usize = 0;
    while i < items.len()
        invariant
            i <= items@.len(),
            decodes(items@.take(i as int), addrs@),
        decreases items@.len() - i,
    {
        match decode_socket_addr(items[i].as_slice()) {
            Some(addr) => {
                addrs.push(addr);
            },
            None => {
                return Err(LengthError);
            },
        }
        i += 1;
    }
    assert(items@.take(items@.len() as int) =~= items@);
    Ok(addrs)
}

} // verus!
