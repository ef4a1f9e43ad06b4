//! The four queries.

use vstd::prelude::*;
use crate::id::{InfoHash, NodeId};
use crate::message::utils::Want;

verus! {

/// A query, by its method.
#[derive(Clone, Debug, PartialEq, Eq)]
pub enum Request {
    Ping(PingRequest),
    FindNode(FindNodeRequest),
    GetPeers(GetPeersRequest),
    AnnouncePeer(AnnouncePeerRequest),
}

/// Asks whether a node is there.
#[derive(Copy, Clone, Debug, PartialEq, Eq)]
pub struct PingRequest {
    /// The id of the node that asks.
    pub id: NodeId,
}

/// Asks for the nodes closest to a target.
#[derive(Copy, Clone, Debug, PartialEq, Eq)]
pub struct FindNodeRequest {
    /// The id of the node that asks.
    pub id: NodeId,
    /// The id that is sought.
    pub target: NodeId,
    /// The address families of which contacts are wanted.
    pub want: Option<Want>,
}

/// Asks for the peers that have announced an info hash.
#[derive(Copy, Clone, Debug, PartialEq, Eq)]
pub struct GetPeersRequest {
    /// The id of the node that asks.
    pub id: NodeId,
    /// The info hash of the content.
    pub info_hash: InfoHash,
    /// The address families of which contacts are wanted.
    pub want: Option<Want>,
}

/// Announces that the peer behind the asking node has the content of an
/// info hash.
#[derive(Clone, Debug, PartialEq, Eq)]
pub struct AnnouncePeerRequest {
    /// The id of the node that asks.
    pub id: NodeId,
    /// The info hash of the content.
    pub info_hash: InfoHash,
    /// The port of the peer; if absent, the port that the query came from.
    pub port: Option<u16>,
    /// The token that the asked node handed out with an earlier answer.
    pub token: Vec<u8>,
}

/// An announce as a value: its token is a sequence of bytes.
pub struct AnnouncePeerView {
    pub id: NodeId,
    pub info_hash: InfoHash,
    pub port: Option<u16>,
    pub token: Seq<u8>,
}

impl View for AnnouncePeerRequest {
    type V = AnnouncePeerView;

    open spec fn view(&self) -> AnnouncePeerView {
        AnnouncePeerView {
            id: self.id,
            info_hash: self.info_hash,
            port: self.port,
            token: self.token@,
        }
    }
}

/// A query as a value.
pub enum RequestView {
    Ping(PingRequest),
    FindNode(FindNodeRequest),
    GetPeers(GetPeersRequest),
    AnnouncePeer(AnnouncePeerView),
}

impl View for Request {
    type V = RequestView;

    open spec fn view(&self) -> RequestView {
        match self {
            Request::Ping(r) => RequestView::Ping(*r),
            Request::FindNode(r) => RequestView::FindNode(*r),
            Request::GetPeers(r) => RequestView::GetPeers(*r),
            Request::AnnouncePeer(r) => RequestView::AnnouncePeer(r@),
        }
    }
}

} // verus!
