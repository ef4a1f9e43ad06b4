//! The messages that nodes exchange: queries, responses and errors, each
//! with the transaction id that ties a response to its query.

use vstd::prelude::*;

pub mod codec;
pub mod error;
pub mod error_code;
pub mod request;
pub mod response;
pub mod utils;

pub use crate::message::error::{Error, ErrorView};
pub use crate::message::request::{
    AnnouncePeerRequest, AnnouncePeerView, FindNodeRequest, GetPeersRequest, PingRequest, Request,
    RequestView,
};
pub use crate::message::response::{Response, ResponseView};
pub use crate::message::utils::Want;

verus! {

/// What a message carries besides its transaction id.
#[derive(Clone, Debug, PartialEq, Eq)]
pub enum MessageBody {
    /// A query: the method and its arguments.
    Request(Request),
    /// The answer to a query.
    Response(Response),
    /// The refusal of a query.
    Error(Error),
}

/// A message: a transaction id, chosen by the node that asks and echoed by
/// the node that answers, and a body.
#[derive(Clone, Debug, PartialEq, Eq)]
pub struct Message {
    pub transaction_id: Vec<u8>,
    pub body: MessageBody,
}

/// The body of a message as a value.
pub enum MessageBodyView {
    Request(RequestView),
    Response(ResponseView),
    Error(ErrorView),
}

impl View for MessageBody {
    type V = MessageBodyView;

    open spec fn view(&self) -> MessageBodyView {
        match self {
            MessageBody::Request(r) => MessageBodyView::Request(r@),
            MessageBody::Response(r) => MessageBodyView::Response(r@),
            MessageBody::Error(e) => MessageBodyView::Error(e@),
        }
    }
}

/// A message as a value.
pub struct MessageView {
    pub transaction_id: Seq<u8>,
    pub body: MessageBodyView,
}

impl View for Message {
    type V = MessageView;

    open spec fn view(&self) -> MessageView {
        MessageView { transaction_id: self.transaction_id@, body: self.body@ }
    }
}

/// The `find_node` query of the node `id` for `target` under the given
/// transaction id, with no wish for an address family.
pub open spec fn find_node_query(transaction_id: Seq<u8>, id: crate::id::NodeId, target: crate::id::NodeId) -> MessageView {
    MessageView {
        transaction_id,
        body: MessageBodyView::Request(
            RequestView::FindNode(FindNodeRequest { id, target, want: None }),
        ),
    }
}

/// The `get_peers` query of the node `id` for `info_hash` under the given
/// transaction id, with no wish for an address family.
pub open spec fn get_peers_query(
    transaction_id: Seq<u8>,
    id: crate::id::NodeId,
    info_hash: crate::id::InfoHash,
) -> MessageView {
    MessageView {
        transaction_id,
        body: MessageBodyView::Request(
            RequestView::GetPeers(GetPeersRequest { id, info_hash, want: None }),
        ),
    }
}

/// The `announce_peer` query of the node `id` for `info_hash` under the
/// given transaction id, with the given port and token.
pub open spec fn announce_peer_query(
    transaction_id: Seq<u8>,
    id: crate::id::NodeId,
    info_hash: crate::id::InfoHash,
    port: Option<u16>,
    token: Seq<u8>,
) -> MessageView {
    MessageView {
        transaction_id,
        body: MessageBodyView::Request(
            RequestView::AnnouncePeer(AnnouncePeerView { id, info_hash, port, token }),
        ),
    }
}

impl Message {
    /// The `get_peers` query of the node `id` for `info_hash` under the
    /// given transaction id, with no wish for an address family.
    pub fn get_peers(
        transaction_id: Vec<u8>,
        id: crate::id::NodeId,
        info_hash: crate::id::InfoHash,
    ) -> (message: Message)
        ensures
            message@ == get_peers_query(transaction_id@, id, info_hash),
    {
        Message {
            transaction_id,
            body: MessageBody::Request(
                Request::GetPeers(GetPeersRequest { id, info_hash, want: None }),
            ),
        }
    }

    /// The `announce_peer` query of the node `id` for `info_hash` under
    /// the given transaction id, with the given port and token.
    pub fn announce_peer(
        transaction_id: Vec<u8>,
        id: crate::id::NodeId,
        info_hash: crate::id::InfoHash,
        port: Option<u16>,
        token: Vec<u8>,
    ) -> (message: Message)
        ensures
            message@ == announce_peer_query(transaction_id@, id, info_hash, port, token@),
    {
        Message {
            transaction_id,
            body: MessageBody::Request(
                Request::AnnouncePeer(AnnouncePeerRequest { id, info_hash, port, token }),
            ),
        }
    }

    /// The `find_node` query of the node `id` for `target` under the given
    /// transaction id, with no wish for an address family.
    pub fn find_node(transaction_id: Vec<u8>, id: crate::id::NodeId, target: crate::id::NodeId) -> (message: Message)
        ensures
            message@ == find_node_query(transaction_id@, id, target),
    {
        Message {
            transaction_id,
            body: MessageBody::Request(
                Request::FindNode(FindNodeRequest { id, target, want: None }),
            ),
        }
    }
}

} // verus!
