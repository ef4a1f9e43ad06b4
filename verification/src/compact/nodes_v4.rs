//! Lists of nodes with IPv4 addresses in compact encoding: 26 bytes a node.

use vstd::prelude::*;
use crate::addr::IpVersion;
use crate::compact::{all_of_version, decode_nodes, decoded_nodes, encode_nodes, nodes_bytes};
use crate::id::LengthError;
use crate::routing::node::NodeHandle;

verus! {

/// The compact encoding of a list of nodes, which must all have IPv4
/// addresses.
pub fn serialize(nodes: &[NodeHandle]) -> (r: Result<Vec<u8>, LengthError>)
    ensures
        all_of_version(nodes@, IpVersion::V4) ==> r is Ok && r->Ok_0@ == nodes_bytes(nodes@),
        !all_of_version(nodes@, IpVersion::V4) ==> r is Err,
{
    encode_nodes(nodes, IpVersion::V4)
}

/// The nodes that a compact encoding spells. Fails if its length is no
/// multiple of 26.
pub fn deserialize(buffer: &[u8]) -> (r: Result<Vec<NodeHandle>, LengthError>)
    ensures
        match r {
            Ok(nodes) => decoded_nodes(buffer@, IpVersion::V4) == Some(nodes@),
            Err(_) => decoded_nodes(buffer@, IpVersion::V4) is None,
        },
{
    decode_nodes(buffer, IpVersion::V4)
}

} // verus!
