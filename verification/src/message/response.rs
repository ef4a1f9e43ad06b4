//! The answer to a query.

use vstd::prelude::*;
use crate::addr::SocketAddr;
use crate::id::NodeId;
use crate::routing::node::NodeHandle;

verus! {

/// The answer to any of the queries.
#[derive(Clone, Debug, PartialEq, Eq)]
pub struct Response {
    /// The id of the node that answers.
    pub id: NodeId,
    /// Peers that have announced the info hash asked for.
    pub values: Vec<SocketAddr>,
    /// Close nodes with IPv4 addresses.
    pub nodes_v4: Vec<NodeHandle>,
    /// Close nodes with IPv6 addresses.
    pub nodes_v6: Vec<NodeHandle>,
    /// The token for a later announce; only in answers to `get_peers`.
    pub token: Option<Vec<u8>>,
}

/// An answer as a value: its lists are sequences.
pub struct ResponseView {
    pub id: NodeId,
    pub values: Seq<SocketAddr>,
    pub nodes_v4: Seq<NodeHandle>,
    pub nodes_v6: Seq<NodeHandle>,
    pub token: Option<Seq<u8>>,
}

impl View for Response {
    type V = ResponseView;

    open spec fn view(&self) -> ResponseView {
        ResponseView {
            id: self.id,
            values: self.values@,
            nodes_v4: self.nodes_v4@,
            nodes_v6: self.nodes_v6@,
            token: match self.token {
                Some(token) => Some(token@),
                None => None,
            },
        }
    }
}

} // verus!
