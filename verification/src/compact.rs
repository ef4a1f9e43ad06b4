//! The compact encoding of contacts: an address is its 4 or 16 bytes
//! followed by the two bytes of the port, a node is its 20-byte id followed
//! by its address, and a list of nodes of one address family is the
//! concatenation of its nodes.

use vstd::prelude::*;
use crate::addr::{IpAddr, IpVersion, SocketAddr};
use crate::bytes::{u16_from_be_bytes, u16_to_be_bytes};
use crate::id::{Id, LengthError, NODE_ID_LEN};
use crate::routing::node::NodeHandle;

pub mod nodes_v4;
pub mod nodes_v6;
pub mod values;

verus! {

/// Number of bytes of a compact IPv4 address with its port.
pub const SOCKET_ADDR_V4_LEN: usize = 6;

/// Number of bytes of a compact IPv6 address with its port.
pub const SOCKET_ADDR_V6_LEN: usize = 18;

/// The compact encoding of an address: the bytes of the IP address, then
/// the port, most significant byte first.
pub open spec fn socket_addr_bytes(addr: SocketAddr) -> Seq<u8> {
    addr.ip.octets_spec() + seq![(addr.port / 256) as u8, (addr.port % 256) as u8]
}

/// The address that a compact encoding spells: an IPv4 address if it has 6
/// bytes, an IPv6 address if it has 18, none otherwise.
pub open spec fn decoded_socket_addr(src: Seq<u8>) -> Option<SocketAddr> {
    if src.len() == SOCKET_ADDR_V4_LEN {
        Some(
            SocketAddr {
                ip: IpAddr::V4([src[0], src[1], src[2], src[3]]),
                port: (src[4] * 256 + src[5]) as u16,
            },
        )
    } else if src.len() == SOCKET_ADDR_V6_LEN {
        Some(
            SocketAddr {
                ip: IpAddr::V6(
                    [
                        src[0],
                        src[1],
                        src[2],
                        src[3],
                        src[4],
                        src[5],
                        src[6],
                        src[7],
                        src[8],
                        src[9],
                        src[10],
                        src[11],
                        src[12],
                        src[13],
                        src[14],
                        src[15],
                    ],
                ),
                port: (src[16] * 256 + src[17]) as u16,
            },
        )
    } else {
        None
    }
}

/// Number of bytes of the compact encoding of an address of a family.
pub open spec fn addr_len(version: IpVersion) -> nat {
    match version {
        IpVersion::V4 => SOCKET_ADDR_V4_LEN as nat,
        IpVersion::V6 => SOCKET_ADDR_V6_LEN as nat,
    }
}

/// Decoding the compact encoding of an address gives the address back, and
/// encoding the address that 6 or 18 bytes spell gives the bytes back.
pub proof fn lemma_socket_addr_round_trip(addr: SocketAddr, src: Seq<u8>)
    ensures
        decoded_socket_addr(socket_addr_bytes(addr)) == Some(addr),
        socket_addr_bytes(addr).len() == addr_len(addr.ip.version_spec()),
        decoded_socket_addr(src) is Some ==> socket_addr_bytes(decoded_socket_addr(src)->0) == src,
{
    let bytes = socket_addr_bytes(addr);
    let high: u8 = (addr.port / 256) as u8;
    let low: u8 = (addr.port % 256) as u8;
    assert(high * 256 + low == addr.port);
    match addr.ip {
        IpAddr::V4(a) => {
            assert(bytes.len() == 6);
            let b: [u8; 4] = [bytes[0], bytes[1], bytes[2], bytes[3]];
            assert(b =~= a);
        },
        IpAddr::V6(a) => {
            assert(bytes.len() == 18);
            let b: [u8; 16] = [
                bytes[0],
                bytes[1],
                bytes[2],
                bytes[3],
                bytes[4],
                bytes[5],
                bytes[6],
                bytes[7],
                bytes[8],
                bytes[9],
                bytes[10],
                bytes[11],
                bytes[12],
                bytes[13],
                bytes[14],
                bytes[15],
            ];
            assert(b =~= a);
        },
    }
    if decoded_socket_addr(src) is Some {
        let d = decoded_socket_addr(src)->0;
        assert(socket_addr_bytes(d) =~= src);
    }
}

/// The compact encoding of an address.
pub fn encode_socket_addr(addr: &SocketAddr) -> (buffer: Vec<u8>)
    ensures
        buffer@ == socket_addr_bytes(*addr),
        buffer@.len() == addr_len(addr.ip.version_spec()),
{
    let mut buffer: Vec<u8> = Vec::new();
    match addr.ip {
        IpAddr::V4(octets) => {
            let mut i: usize = 0;
            while i < 4
                invariant
                    i <= 4,
                    buffer@ == octets@.take(i as int),
                decreases 4 - i,
            {
                buffer.push(octets[i]);
                assert(buffer@ =~= octets@.take(i as int + 1));
                i += 1;
            }
            assert(octets@.take(4) =~= octets@);
        },
        IpAddr::V6(octets) => {
            let mut i: usize = 0;
            while i < 16
                invariant
                    i <= 16,
                    buffer@ == octets@.take(i as int),
                decreases 16 - i,
            {
                buffer.push(octets[i]);
                assert(buffer@ =~= octets@.take(i as int + 1));
                i += 1;
            }
            assert(octets@.take(16) =~= octets@);
        },
    }
    let (high, low) = u16_to_be_bytes(addr.port);
    buffer.push(high);
    buffer.push(low);
    assert(buffer@ =~= socket_addr_bytes(*addr));
    buffer
}

/// The address that a compact encoding spells, if it has 6 or 18 bytes.
pub fn decode_socket_addr(src: &[u8]) -> (addr: Option<SocketAddr>)
    ensures
        addr == decoded_socket_addr(src@),
{
    if src.len() == SOCKET_ADDR_V4_LEN {
        let ip: [u8; 4] = [src[0], src[1], src[2], src[3]];
        let port = u16_from_be_bytes(src[4], src[5]);
        Some(SocketAddr { ip: IpAddr::V4(ip), port })
    } else if src.len() == SOCKET_ADDR_V6_LEN {
        let ip: [u8; 16] = [
            src[0],
            src[1],
            src[2],
            src[3],
            src[4],
            src[5],
            src[6],
            src[7],
            src[8],
            src[9],
            src[10],
            src[11],
            src[12],
            src[13],
            src[14],
            src[15],
        ];
        let port = u16_from_be_bytes(src[16], src[17]);
        Some(SocketAddr { ip: IpAddr::V6(ip), port })
    } else {
        None
    }
}

/// The compact encoding of a node: its id, then its address.
pub open spec fn node_bytes(node: NodeHandle) -> Seq<u8> {
    node.id@ + socket_addr_bytes(node.addr)
}

/// The compact encoding of a list of nodes: those of the nodes, one after
/// the other.
pub open spec fn nodes_bytes(nodes: Seq<NodeHandle>) -> Seq<u8>
    decreases nodes.len(),
{
    if nodes.len() == 0 {
        Seq::empty()
    } else {
        nodes_bytes(nodes.drop_last()) + node_bytes(nodes.last())
    }
}

/// Whether all nodes of a list have addresses of one family.
pub open spec fn all_of_version(nodes: Seq<NodeHandle>, version: IpVersion) -> bool {
    forall|i: int| 0 <= i < nodes.len() ==> (#[trigger] nodes[i]).addr.ip.version_spec() == version
}

/// The nodes that a compact encoding of nodes of one family spells: none
/// if its length is no multiple of the length of the encoding of a node.
pub open spec fn decoded_nodes(buffer: Seq<u8>, version: IpVersion) -> Option<Seq<NodeHandle>>
    decreases buffer.len(),
{
    let chunk = NODE_ID_LEN + addr_len(version);
    if buffer.len() == 0 {
        Some(Seq::empty())
    } else if buffer.len() < chunk {
        None
    } else {
        let split = buffer.len() - chunk;
        match decoded_nodes(buffer.take(split), version) {
            Some(nodes) => Some(
                nodes.push(
                    NodeHandle {
                        id: Id::from_view(buffer.subrange(split, split + NODE_ID_LEN)),
                        addr: decoded_socket_addr(
                            buffer.subrange(split + NODE_ID_LEN, buffer.len() as int),
                        )->0,
                    },
                ),
            ),
            None => None,
        }
    }
}

/// The encoding of a list of nodes of one family has as many bytes as
/// there are nodes times the length of the encoding of one.
pub proof fn lemma_nodes_bytes_len(nodes: Seq<NodeHandle>, version: IpVersion)
    requires
        all_of_version(nodes, version),
    ensures
        nodes_bytes(nodes).len() == nodes.len() * (NODE_ID_LEN + addr_len(version)),
    decreases nodes.len(),
{
    if nodes.len() > 0 {
        let init = nodes.drop_last();
        assert(all_of_version(init, version)) by {
            assert forall|i: int| 0 <= i < init.len() implies (
            #[trigger] init[i]).addr.ip.version_spec() == version by {
                assert(init[i] == nodes[i]);
            }
        }
        lemma_nodes_bytes_len(init, version);
        lemma_socket_addr_round_trip(nodes.last().addr, Seq::empty());
        nodes.last().id.lemma_is_from_view();
        assert(nodes.last() == nodes[nodes.len() - 1]);
        assert(nodes.len() * (NODE_ID_LEN + addr_len(version)) == init.len() * (NODE_ID_LEN
            + addr_len(version)) + (NODE_ID_LEN + addr_len(version))) by (nonlinear_arith)
            requires
                nodes.len() == init.len() + 1,
        ;
    }
}

/// Decoding the compact encoding of a list of nodes of one family gives
/// the list back.
pub proof fn lemma_nodes_round_trip(nodes: Seq<NodeHandle>, version: IpVersion)
    requires
        all_of_version(nodes, version),
    ensures
        decoded_nodes(nodes_bytes(nodes), version) == Some(nodes),
    decreases nodes.len(),
{
    if nodes.len() > 0 {
        let init = nodes.drop_last();
        let last = nodes.last();
        assert(all_of_version(init, version)) by {
            assert forall|i: int| 0 <= i < init.len() implies (
            #[trigger] init[i]).addr.ip.version_spec() == version by {
                assert(init[i] == nodes[i]);
            }
        }
        lemma_nodes_round_trip(init, version);
        lemma_nodes_bytes_len(init, version);
        lemma_nodes_bytes_len(nodes, version);
        lemma_socket_addr_round_trip(last.addr, Seq::empty());
        last.id.lemma_is_from_view();
        assert(last == nodes[nodes.len() - 1]);
        let buffer = nodes_bytes(nodes);
        let head = nodes_bytes(init);
        let chunk = NODE_ID_LEN + addr_len(version);
        assert(buffer.len() == head.len() + chunk);
        let split = buffer.len() - chunk;
        assert(buffer.take(split) =~= head);
        assert(buffer.subrange(split, split + NODE_ID_LEN) =~= last.id@);
        assert(buffer.subrange(split + NODE_ID_LEN, buffer.len() as int) =~= socket_addr_bytes(
            last.addr,
        ));
        assert(init.push(last) =~= nodes);
    }
}

/// The compact encoding of a list of nodes, all of which must have an
/// address of the given family.
pub fn encode_nodes(nodes: &[NodeHandle], version: IpVersion) -> (r: Result<Vec<u8>, LengthError>)
    ensures
        all_of_version(nodes@, version) ==> r is Ok && r->Ok_0@ == nodes_bytes(nodes@),
        !all_of_version(nodes@, version) ==> r is Err,
{
    let mut buffer: Vec<u8> = Vec::new();
    let mut i: usize = 0;
    assert(nodes@.take(0) =~= Seq::<NodeHandle>::empty());
    while i < nodes.len()
        invariant
            i <= nodes@.len(),
            all_of_version(nodes@.take(i as int), version),
            buffer@ == nodes_bytes(nodes@.take(i as int)),
        decreases nodes@.len() - i,
    {
        let node = nodes[i];
        if !same_version(node.addr.version(), version) {
            return Err(LengthError);
        }
        let encoded_addr = encode_socket_addr(&node.addr);
        let id_bytes = node.id.to_bytes();
        let ghost before = buffer@;
        let mut k: usize = 0;
        while k < NODE_ID_LEN
            invariant
                k <= NODE_ID_LEN,
                id_bytes@ == node.id@,
                buffer@ == before + id_bytes@.take(k as int),
            decreases NODE_ID_LEN - k,
        {
            buffer.push(id_bytes[k]);
            assert(buffer@ =~= before + id_bytes@.take(k as int + 1));
            k += 1;
        }
        assert(id_bytes@.take(NODE_ID_LEN as int) =~= id_bytes@);
        let mut k: usize = 0;
        while k < encoded_addr.len()
            invariant
                k <= encoded_addr@.len(),
                buffer@ == before + node.id@ + encoded_addr@.take(k as int),
            decreases encoded_addr@.len() - k,
        {
            buffer.push(encoded_addr[k]);
            assert(buffer@ =~= before + node.id@ + encoded_addr@.take(k as int + 1));
            k += 1;
        }
        proof {
            assert(encoded_addr@.take(encoded_addr@.len() as int) =~= encoded_addr@);
            let next = nodes@.take(i as int + 1);
            assert(next.drop_last() =~= nodes@.take(i as int));
            assert(next.last() == node);
            assert(buffer@ =~= nodes_bytes(next));
            assert forall|j: int| 0 <= j < next.len() implies (
            #[trigger] next[j]).addr.ip.version_spec() == version by {
                if j < i {
                    assert(nodes@.take(i as int)[j] == next[j]);
                }
            }
        }
        i += 1;
    }
    assert(nodes@.take(nodes@.len() as int) =~= nodes@);
    Ok(buffer)
}

/// Whether two address families are the same.
pub fn same_version(a: IpVersion, b: IpVersion) -> (r: bool)
    ensures
        r == (a == b),
{
    match (a, b) {
        (IpVersion::V4, IpVersion::V4) => true,
        (IpVersion::V6, IpVersion::V6) => true,
        _ => false,
    }
}

/// The nodes that a compact encoding of nodes of one family spells. Fails
/// if the length of the encoding is no multiple of the length of the
/// encoding of one node.
pub fn decode_nodes(buffer: &[u8], version: IpVersion) -> (r: Result<Vec<NodeHandle>, LengthError>)
    ensures
        match r {
            Ok(nodes) => decoded_nodes(buffer@, version) == Some(nodes@),
            Err(_) => decoded_nodes(buffer@, version) is None,
        },
{
    let address_len: usize = match version {
        IpVersion::V4 => SOCKET_ADDR_V4_LEN,
        IpVersion::V6 => SOCKET_ADDR_V6_LEN,
    };
    let chunk: usize = NODE_ID_LEN + address_len;
    let mut nodes: Vec<NodeHandle> = Vec::new();
    let mut at: usize = 0;
    assert(buffer@.take(0) =~= Seq::<u8>::empty());
    while buffer.len() - at >= chunk
        invariant
            at <= buffer@.len(),
            chunk == NODE_ID_LEN + addr_len(version),
            address_len == addr_len(version),
            decoded_nodes(buffer@.take(at as int), version) == Some(nodes@),
        decreases buffer@.len() - at,
    {
        let id_slice = slice_subrange(buffer, at, at + NODE_ID_LEN);
        let addr_slice = slice_subrange(buffer, at + NODE_ID_LEN, at + chunk);
        let id = match Id::from_slice(id_slice) {
            Ok(id) => id,
            Err(e) => {
                return Err(e);
            },
        };
        let addr = match decode_socket_addr(addr_slice) {
            Some(addr) => addr,
            None => {
                return Err(LengthError);
            },
        };
        proof {
            let next = buffer@.take(at + chunk);
            let split = next.len() - chunk;
            assert(next.take(split) =~= buffer@.take(at as int));
            assert(next.subrange(split, split + NODE_ID_LEN) =~= id_slice@);
            assert(next.subrange(split + NODE_ID_LEN, next.len() as int) =~= addr_slice@);
            id.lemma_is_from_view();
        }
        nodes.push(NodeHandle { id, addr });
        at = at + chunk;
    }
    if at != buffer.len() {
        proof {
            lemma_decoded_nodes_remainder(buffer@, version, at as int);
        }
        return Err(LengthError);
    }
    assert(buffer@.take(at as int) =~= buffer@);
    Ok(nodes)
}

/// An encoding that goes on after some whole nodes with fewer bytes than a
/// node takes spells no list of nodes.
proof fn lemma_decoded_nodes_remainder(buffer: Seq<u8>, version: IpVersion, at: int)
    requires
        0 <= at < buffer.len(),
        buffer.len() - at < NODE_ID_LEN + addr_len(version),
        decoded_nodes(buffer.take(at), version) is Some,
    ensures
        decoded_nodes(buffer, version) is None,
{
    let chunk = (NODE_ID_LEN + addr_len(version)) as int;
    lemma_decoded_nodes_len(buffer.take(at), version);
    lemma_decoded_nodes_len(buffer, version);
    if decoded_nodes(buffer, version) is Some {
        let n = decoded_nodes(buffer.take(at), version)->0.len() as int;
        let m = decoded_nodes(buffer, version)->0.len() as int;
        assert(false) by (nonlinear_arith)
            requires
                n * chunk < m * chunk,
                m * chunk < n * chunk + chunk,
                chunk > 0,
        ;
    }
}

/// The length of an encoding that spells a list of nodes is a multiple of
/// the length of the encoding of one node.
pub proof fn lemma_decoded_nodes_len(buffer: Seq<u8>, version: IpVersion)
    ensures
        decoded_nodes(buffer, version) is Some ==> buffer.len() == decoded_nodes(
            buffer,
            version,
        )->0.len() * (NODE_ID_LEN + addr_len(version)),
    decreases buffer.len(),
{
    let chunk = NODE_ID_LEN + addr_len(version);
    if buffer.len() >= chunk && buffer.len() > 0 {
        let split = buffer.len() - chunk;
        lemma_decoded_nodes_len(buffer.take(split), version);
        if decoded_nodes(buffer, version) is Some {
            let n = decoded_nodes(buffer.take(split), version)->0.len();
            assert((n + 1) * chunk == n * chunk + chunk) by (nonlinear_arith);
        }
    }
}

/// The bytes of a slice from `from` up to `to`.
pub fn slice_subrange(bytes: &[u8], from: usize, to: usize) -> (part: &[u8])
    requires
        from <= to <= bytes@.len(),
    ensures
        part@ == bytes@.subrange(from as int, to as int),
{
    vstd::slice::slice_subrange(bytes, from, to)
}

} // verus!
