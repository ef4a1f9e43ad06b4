//! Messages on the wire: a message is a bencoded dictionary. The key `t`
//! holds the transaction id and the key `y` tells what the message is: a
//! query, `q`, whose method stands under `q` and whose arguments under
//! `a`; a response, `r`, whose fields stand under `r`; or an error, `e`,
//! whose code and text stand as a list under `e`.

use vstd::prelude::*;
use crate::addr::{IpVersion, SocketAddr};
use crate::bencode::{
    bytes_bytes, entries_at, find_entry, fits, get, is_digit_byte, items_at, lemma_items_step,
    lemma_value_kind, parse_items, parse_value, read_bytes, read_int, skip_value, value_at,
    value_end, lemma_serialize_entries_add, lemma_serialize_items_add, parse, serialize,
    serialize_entries, serialize_items, write_bytes, write_int, Bencode, MAX_DEPTH,
};
use crate::compact::{
    all_of_version, decode_nodes, decode_socket_addr, decoded_nodes, decoded_socket_addr,
    encode_nodes, nodes_bytes, slice_subrange, socket_addr_bytes,
};
use crate::id::{Id, ID_LEN};
use crate::message::utils::{
    is_space, port_of, trimmed, trimmed_end, trimmed_start, want_names, want_of, want_with,
};
use crate::message::{
    AnnouncePeerRequest, AnnouncePeerView, Error, ErrorView, Message, MessageBody, Request, Response, FindNodeRequest, GetPeersRequest, MessageBodyView, MessageView,
    PingRequest, RequestView, ResponseView, Want,
};
use crate::routing::node::NodeHandle;

verus! {

/// What no message can be read from: malformed bencoding, a value of the
/// wrong kind, or a length that fits no id, address or list of nodes.
#[derive(Copy, Clone, Debug, PartialEq, Eq, Structural)]
pub struct ProtocolError;

/// A name that messages are made of.
#[derive(Copy, Clone, Debug, PartialEq, Eq, Structural)]
pub enum Name {
    A,
    E,
    Q,
    R,
    T,
    Y,
    Id,
    ImpliedPort,
    InfoHash,
    Nodes,
    Nodes6,
    Port,
    Target,
    Token,
    Values,
    Want,
    Ping,
    FindNode,
    GetPeers,
    AnnouncePeer,
}

/// The bytes of a name.
pub open spec fn name_bytes(name: Name) -> Seq<u8> {
    match name {
        Name::A => seq![0x61u8],
        Name::E => seq![0x65u8],
        Name::Q => seq![0x71u8],
        Name::R => seq![0x72u8],
        Name::T => seq![0x74u8],
        Name::Y => seq![0x79u8],
        Name::Id => seq![0x69u8, 0x64u8],
        Name::ImpliedPort => seq![
            0x69u8,
            0x6du8,
            0x70u8,
            0x6cu8,
            0x69u8,
            0x65u8,
            0x64u8,
            0x5fu8,
            0x70u8,
            0x6fu8,
            0x72u8,
            0x74u8,
        ],
        Name::InfoHash => seq![
            0x69u8,
            0x6eu8,
            0x66u8,
            0x6fu8,
            0x5fu8,
            0x68u8,
            0x61u8,
            0x73u8,
            0x68u8,
        ],
        Name::Nodes => seq![0x6eu8, 0x6fu8, 0x64u8, 0x65u8, 0x73u8],
        Name::Nodes6 => seq![0x6eu8, 0x6fu8, 0x64u8, 0x65u8, 0x73u8, 0x36u8],
        Name::Port => seq![0x70u8, 0x6fu8, 0x72u8, 0x74u8],
        Name::Target => seq![0x74u8, 0x61u8, 0x72u8, 0x67u8, 0x65u8, 0x74u8],
        Name::Token => seq![0x74u8, 0x6fu8, 0x6bu8, 0x65u8, 0x6eu8],
        Name::Values => seq![0x76u8, 0x61u8, 0x6cu8, 0x75u8, 0x65u8, 0x73u8],
        Name::Want => seq![0x77u8, 0x61u8, 0x6eu8, 0x74u8],
        Name::Ping => seq![0x70u8, 0x69u8, 0x6eu8, 0x67u8],
        Name::FindNode => seq![
            0x66u8,
            0x69u8,
            0x6eu8,
            0x64u8,
            0x5fu8,
            0x6eu8,
            0x6fu8,
            0x64u8,
            0x65u8,
        ],
        Name::GetPeers => seq![
            0x67u8,
            0x65u8,
            0x74u8,
            0x5fu8,
            0x70u8,
            0x65u8,
            0x65u8,
            0x72u8,
            0x73u8,
        ],
        Name::AnnouncePeer => seq![
            0x61u8,
            0x6eu8,
            0x6eu8,
            0x6fu8,
            0x75u8,
            0x6eu8,
            0x63u8,
            0x65u8,
            0x5fu8,
            0x70u8,
            0x65u8,
            0x65u8,
            0x72u8,
        ],
    }
}

/// One entry of a dictionary.
pub open spec fn entry(name: Name, value: Bencode) -> Seq<(Seq<u8>, Bencode)> {
    seq![(name_bytes(name), value)]
}

/// One entry of a dictionary if there is a value, none if there is not.
pub open spec fn optional_entry(name: Name, value: Option<Bencode>) -> Seq<(Seq<u8>, Bencode)> {
    match value {
        Some(v) => entry(name, v),
        None => Seq::empty(),
    }
}

/// The list of the byte strings of a sequence.
pub open spec fn bytes_list(items: Seq<Seq<u8>>) -> Seq<Bencode> {
    Seq::new(items.len(), |i: int| Bencode::Bytes(items[i]))
}

/// The value under `want`, if something is wanted.
pub open spec fn want_tree(want: Option<Want>) -> Option<Bencode> {
    match want {
        Some(_) => Some(Bencode::List(bytes_list(want_names(want)))),
        None => None,
    }
}

/// The arguments of a query as entries of a dictionary, in the order of
/// their keys.
pub open spec fn arguments(request: RequestView) -> Seq<(Seq<u8>, Bencode)> {
    match request {
        RequestView::Ping(r) => entry(Name::Id, Bencode::Bytes(r.id@)),
        RequestView::FindNode(r) => entry(Name::Id, Bencode::Bytes(r.id@)) + (entry(
            Name::Target,
            Bencode::Bytes(r.target@),
        ) + optional_entry(Name::Want, want_tree(r.want))),
        RequestView::GetPeers(r) => entry(Name::Id, Bencode::Bytes(r.id@)) + (entry(
            Name::InfoHash,
            Bencode::Bytes(r.info_hash@),
        ) + optional_entry(Name::Want, want_tree(r.want))),
        RequestView::AnnouncePeer(r) => entry(Name::Id, Bencode::Bytes(r.id@)) + (optional_entry(
            Name::ImpliedPort,
            implied_port_tree(r.port),
        ) + (entry(Name::InfoHash, Bencode::Bytes(r.info_hash@)) + (optional_entry(
            Name::Port,
            port_tree(r.port),
        ) + entry(Name::Token, Bencode::Bytes(r.token))))),
    }
}

/// The value under `implied_port`: 1 if no port is given, no value if one
/// is.
pub open spec fn implied_port_tree(port: Option<u16>) -> Option<Bencode> {
    if port is None {
        Some(Bencode::Int(1))
    } else {
        None
    }
}

/// The value under `port`, if a port is given.
pub open spec fn port_tree(port: Option<u16>) -> Option<Bencode> {
    match port {
        Some(port) => Some(Bencode::Int(port as int)),
        None => None,
    }
}

/// The name of the method of a query.
pub open spec fn method(request: RequestView) -> Name {
    match request {
        RequestView::Ping(_) => Name::Ping,
        RequestView::FindNode(_) => Name::FindNode,
        RequestView::GetPeers(_) => Name::GetPeers,
        RequestView::AnnouncePeer(_) => Name::AnnouncePeer,
    }
}

/// The compact encodings of a sequence of addresses.
pub open spec fn values_bytes(values: Seq<SocketAddr>) -> Seq<Seq<u8>> {
    Seq::new(values.len(), |i: int| socket_addr_bytes(values[i]))
}

/// The value under `nodes` or `nodes6`, if there are nodes.
pub open spec fn nodes_tree(nodes: Seq<NodeHandle>) -> Option<Bencode> {
    if nodes.len() > 0 {
        Some(Bencode::Bytes(nodes_bytes(nodes)))
    } else {
        None
    }
}

/// The value under `token`, if there is a token.
pub open spec fn token_tree(token: Option<Seq<u8>>) -> Option<Bencode> {
    match token {
        Some(token) => Some(Bencode::Bytes(token)),
        None => None,
    }
}

/// The value under `values`, if there are peers.
pub open spec fn values_tree(values: Seq<SocketAddr>) -> Option<Bencode> {
    if values.len() > 0 {
        Some(Bencode::List(bytes_list(values_bytes(values))))
    } else {
        None
    }
}

/// The fields of a response as entries of a dictionary, in the order of
/// their keys. Empty lists and an absent token have no entry.
pub open spec fn fields(response: ResponseView) -> Seq<(Seq<u8>, Bencode)> {
    entry(Name::Id, Bencode::Bytes(response.id@)) + (optional_entry(
        Name::Nodes,
        nodes_tree(response.nodes_v4),
    ) + (optional_entry(Name::Nodes6, nodes_tree(response.nodes_v6)) + (optional_entry(
        Name::Token,
        token_tree(response.token),
    ) + optional_entry(Name::Values, values_tree(response.values)))))
}

/// The value under `e`: the code and the text of an error.
pub open spec fn error_tree(error: ErrorView) -> Bencode {
    Bencode::List(
        seq![
            Bencode::Int(error.code as int),
            Bencode::Bytes(vstd::utf8::encode_utf8(error.message)),
        ],
    )
}

/// The entries of the dictionary of a message, in the order of their
/// keys.
pub open spec fn message_entries(m: MessageView) -> Seq<(Seq<u8>, Bencode)> {
    match m.body {
        MessageBodyView::Request(request) => entry(Name::A, Bencode::Dict(arguments(request)))
            + (entry(Name::Q, Bencode::Bytes(name_bytes(method(request)))) + (entry(
            Name::T,
            Bencode::Bytes(m.transaction_id),
        ) + entry(Name::Y, Bencode::Bytes(name_bytes(Name::Q))))),
        MessageBodyView::Response(response) => entry(Name::R, Bencode::Dict(fields(response)))
            + (entry(Name::T, Bencode::Bytes(m.transaction_id)) + entry(
            Name::Y,
            Bencode::Bytes(name_bytes(Name::R)),
        )),
        MessageBodyView::Error(error) => entry(Name::E, error_tree(error)) + (entry(
            Name::T,
            Bencode::Bytes(m.transaction_id),
        ) + entry(Name::Y, Bencode::Bytes(name_bytes(Name::E)))),
    }
}

/// The bencoded value of a message.
pub open spec fn message_tree(m: MessageView) -> Bencode {
    Bencode::Dict(message_entries(m))
}

/// The bytes of a message on the wire.
pub open spec fn encoded(m: MessageView) -> Seq<u8> {
    serialize(message_tree(m))
}

/// Whether a message can be put on the wire: the nodes of a response
/// stand in the list of their address family.
pub open spec fn encodable(m: MessageView) -> bool {
    match m.body {
        MessageBodyView::Response(response) => all_of_version(response.nodes_v4, IpVersion::V4)
            && all_of_version(response.nodes_v6, IpVersion::V6),
        _ => true,
    }
}

/// The byte string that a value is.
pub open spec fn bytes_of(value: Bencode) -> Option<Seq<u8>> {
    match value {
        Bencode::Bytes(bytes) => Some(bytes),
        _ => None,
    }
}

/// The id that a value is: a byte string of 20 bytes.
pub open spec fn id_of(value: Bencode) -> Option<Id> {
    match value {
        Bencode::Bytes(bytes) => if bytes.len() == ID_LEN {
            Some(Id::from_view(bytes))
        } else {
            None
        },
        _ => None,
    }
}

/// The number that a value is: an integer from 0 to `max`.
pub open spec fn number_of(value: Bencode, max: int) -> Option<int> {
    match value {
        Bencode::Int(v) => if 0 <= v <= max {
            Some(v)
        } else {
            None
        },
        _ => None,
    }
}

/// The byte strings that the items of a list are, if all are byte
/// strings.
pub open spec fn all_bytes(items: Seq<Bencode>) -> Option<Seq<Seq<u8>>>
    decreases items.len(),
{
    if items.len() == 0 {
        Some(Seq::empty())
    } else {
        match (all_bytes(items.drop_last()), items.last()) {
            (Some(init), Bencode::Bytes(bytes)) => Some(init.push(bytes)),
            _ => None,
        }
    }
}

/// What a value under `want` asks for: it has to be a list of byte
/// strings.
pub open spec fn wanted(value: Bencode) -> Option<Option<Want>> {
    match value {
        Bencode::List(items) => match all_bytes(items) {
            Some(names) => Some(want_of(names)),
            None => None,
        },
        _ => None,
    }
}

/// The addresses that compact encodings spell, if each spells one.
pub open spec fn all_addrs(items: Seq<Seq<u8>>) -> Option<Seq<SocketAddr>>
    decreases items.len(),
{
    if items.len() == 0 {
        Some(Seq::empty())
    } else {
        match (all_addrs(items.drop_last()), decoded_socket_addr(items.last())) {
            (Some(init), Some(addr)) => Some(init.push(addr)),
            _ => None,
        }
    }
}

/// The peers that a value under `values` names: it has to be a list of
/// compact encodings of addresses.
pub open spec fn peers_of(value: Bencode) -> Option<Seq<SocketAddr>> {
    match value {
        Bencode::List(items) => match all_bytes(items) {
            Some(encodings) => all_addrs(encodings),
            None => None,
        },
        _ => None,
    }
}

/// The nodes that a value under `nodes` or `nodes6` names: it has to be
/// the compact encoding of a list of nodes of the address family.
pub open spec fn nodes_of(value: Bencode, version: IpVersion) -> Option<Seq<NodeHandle>> {
    match value {
        Bencode::Bytes(bytes) => decoded_nodes(bytes, version),
        _ => None,
    }
}

/// What a value under `want` that may be absent asks for. None if it is
/// there and is no list of byte strings.
pub open spec fn optional_want(value: Option<Bencode>) -> Option<Option<Want>> {
    match value {
        None => Some(None),
        Some(v) => wanted(v),
    }
}

/// The number from 0 to `max` that a value that may be absent is. None if
/// it is there and is no such number.
pub open spec fn optional_number(value: Option<Bencode>, max: int) -> Option<Option<int>> {
    match value {
        None => Some(None),
        Some(v) => match number_of(v, max) {
            Some(n) => Some(Some(n)),
            None => None,
        },
    }
}

/// The byte string that a value that may be absent is. None if it is
/// there and is no byte string.
pub open spec fn optional_bytes(value: Option<Bencode>) -> Option<Option<Seq<u8>>> {
    match value {
        None => Some(None),
        Some(v) => match bytes_of(v) {
            Some(b) => Some(Some(b)),
            None => None,
        },
    }
}

/// The peers that a value that may be absent names: none if it is absent.
/// None if it is there and names no peers.
pub open spec fn optional_peers(value: Option<Bencode>) -> Option<Seq<SocketAddr>> {
    match value {
        None => Some(Seq::empty()),
        Some(v) => peers_of(v),
    }
}

/// The nodes that a value that may be absent names: none if it is absent.
/// None if it is there and names no nodes of the address family.
pub open spec fn optional_nodes(value: Option<Bencode>, version: IpVersion) -> Option<
    Seq<NodeHandle>,
> {
    match value {
        None => Some(Seq::empty()),
        Some(v) => nodes_of(v, version),
    }
}

/// The id that a value that has to be there is.
pub open spec fn required_id(value: Option<Bencode>) -> Option<Id> {
    match value {
        Some(v) => id_of(v),
        None => None,
    }
}

/// The query that a method and its arguments are.
pub open spec fn request_of(method: Seq<u8>, args: Seq<(Seq<u8>, Bencode)>) -> Option<RequestView> {
    let id = required_id(get(args, name_bytes(Name::Id)));
    if id is None {
        None
    } else if method == name_bytes(Name::Ping) {
        Some(RequestView::Ping(PingRequest { id: id->0 }))
    } else if method == name_bytes(Name::FindNode) {
        match (
            required_id(get(args, name_bytes(Name::Target))),
            optional_want(get(args, name_bytes(Name::Want))),
        ) {
            (Some(target), Some(want)) => Some(
                RequestView::FindNode(FindNodeRequest { id: id->0, target, want }),
            ),
            _ => None,
        }
    } else if method == name_bytes(Name::GetPeers) {
        match (
            required_id(get(args, name_bytes(Name::InfoHash))),
            optional_want(get(args, name_bytes(Name::Want))),
        ) {
            (Some(info_hash), Some(want)) => Some(
                RequestView::GetPeers(GetPeersRequest { id: id->0, info_hash, want }),
            ),
            _ => None,
        }
    } else if method == name_bytes(Name::AnnouncePeer) {
        match (
            required_id(get(args, name_bytes(Name::InfoHash))),
            optional_bytes(get(args, name_bytes(Name::Token))),
            optional_number(get(args, name_bytes(Name::Port)), 0xffff),
            optional_number(get(args, name_bytes(Name::ImpliedPort)), 0xff),
        ) {
            (Some(info_hash), Some(Some(token)), Some(port), Some(implied)) => match port_of(
                match port {
                    Some(p) => Some(p as u16),
                    None => None,
                },
                implied matches Some(n) && n > 0,
            ) {
                Some(port) => Some(
                    RequestView::AnnouncePeer(
                        AnnouncePeerView { id: id->0, info_hash, port, token },
                    ),
                ),
                None => None,
            },
            _ => None,
        }
    } else {
        None
    }
}

/// The response that fields are.
pub open spec fn response_of(fields: Seq<(Seq<u8>, Bencode)>) -> Option<ResponseView> {
    match (
        required_id(get(fields, name_bytes(Name::Id))),
        optional_peers(get(fields, name_bytes(Name::Values))),
        optional_nodes(get(fields, name_bytes(Name::Nodes)), IpVersion::V4),
        optional_nodes(get(fields, name_bytes(Name::Nodes6)), IpVersion::V6),
        optional_bytes(get(fields, name_bytes(Name::Token))),
    ) {
        (Some(id), Some(values), Some(nodes_v4), Some(nodes_v6), Some(token)) => Some(
            ResponseView { id, values, nodes_v4, nodes_v6, token },
        ),
        _ => None,
    }
}

/// The error that a value under `e` is: a list of a code from 0 to 255
/// and a text in UTF-8.
pub open spec fn error_of(value: Bencode) -> Option<ErrorView> {
    match value {
        Bencode::List(items) => if items.len() == 2 {
            match (number_of(items[0], 0xff), bytes_of(items[1])) {
                (Some(code), Some(text)) => if vstd::utf8::valid_utf8(text) {
                    Some(ErrorView { code: code as u8, message: vstd::utf8::decode_utf8(text) })
                } else {
                    None
                },
                _ => None,
            }
        } else {
            None
        },
        _ => None,
    }
}

/// The body of the message that the entries of a dictionary are, by
/// what stands under `y`.
pub open spec fn body_of(entries: Seq<(Seq<u8>, Bencode)>) -> Option<MessageBodyView> {
    match get(entries, name_bytes(Name::Y)) {
        Some(Bencode::Bytes(kind)) => if kind == name_bytes(Name::Q) {
            match (get(entries, name_bytes(Name::Q)), get(entries, name_bytes(Name::A))) {
                (Some(Bencode::Bytes(method)), Some(Bencode::Dict(args))) => match request_of(
                    method,
                    args,
                ) {
                    Some(request) => Some(MessageBodyView::Request(request)),
                    None => None,
                },
                _ => None,
            }
        } else if kind == name_bytes(Name::R) {
            match get(entries, name_bytes(Name::R)) {
                Some(Bencode::Dict(fields)) => match response_of(fields) {
                    Some(response) => Some(MessageBodyView::Response(response)),
                    None => None,
                },
                _ => None,
            }
        } else if kind == name_bytes(Name::E) {
            match get(entries, name_bytes(Name::E)) {
                Some(value) => match error_of(value) {
                    Some(error) => Some(MessageBodyView::Error(error)),
                    None => None,
                },
                None => None,
            }
        } else {
            None
        },
        _ => None,
    }
}

/// The message that a bencoded value is.
pub open spec fn message_of(tree: Bencode) -> Option<MessageView> {
    match tree {
        Bencode::Dict(entries) => match (get(entries, name_bytes(Name::T)), body_of(entries)) {
            (Some(Bencode::Bytes(transaction_id)), Some(body)) => Some(
                MessageView { transaction_id, body },
            ),
            _ => None,
        },
        _ => None,
    }
}

/// The message that bytes from the wire are, if they are one.
pub open spec fn decoded(bytes: Seq<u8>) -> Option<MessageView> {
    match parse(bytes) {
        Some(tree) => message_of(tree),
        None => None,
    }
}

/// The transaction id of a query that is no message: of bytes that are a
/// bencoded dictionary with a transaction id and the kind of a query, but
/// without a method and arguments that make a query.
pub open spec fn malformed_query(bytes: Seq<u8>) -> Option<Seq<u8>> {
    match parse(bytes) {
        Some(Bencode::Dict(entries)) => match (
            get(entries, name_bytes(Name::T)),
            get(entries, name_bytes(Name::Y)),
        ) {
            (Some(Bencode::Bytes(transaction_id)), Some(Bencode::Bytes(kind))) => if kind
                == name_bytes(Name::Q) && body_of(entries) is None {
                Some(transaction_id)
            } else {
                None
            },
            _ => None,
        },
        _ => None,
    }
}

/// Different names have different bytes.
pub proof fn lemma_names_differ(a: Name, b: Name)
    requires
        a != b,
    ensures
        name_bytes(a) != name_bytes(b),
{
    let x = name_bytes(a);
    let y = name_bytes(b);
    if x.len() == y.len() {
        if x.len() >= 2 {
            assert(x[0] != y[0] || x[1] != y[1]);
        } else {
            assert(x[0] != y[0]);
        }
    }
}

/// The value under a key in a dictionary that begins with an entry.
pub proof fn lemma_get_entry(
    name: Name,
    value: Bencode,
    rest: Seq<(Seq<u8>, Bencode)>,
    key: Name,
)
    ensures
        get(entry(name, value) + rest, name_bytes(key)) == if key == name {
            Some(value)
        } else {
            get(rest, name_bytes(key))
        },
        get(entry(name, value), name_bytes(key)) == if key == name {
            Some(value)
        } else {
            None
        },
{
    if key != name {
        lemma_names_differ(key, name);
    }
    let all = entry(name, value) + rest;
    assert(all[0] == (name_bytes(name), value));
    assert(all.skip(1) =~= rest);
    let one = entry(name, value);
    assert(one[0] == (name_bytes(name), value));
    assert(one.skip(1) =~= Seq::<(Seq<u8>, Bencode)>::empty());
    assert(get(Seq::<(Seq<u8>, Bencode)>::empty(), name_bytes(key)) is None);
}

/// The value under a key in a dictionary that begins with an entry that
/// may be absent.
pub proof fn lemma_get_optional(
    name: Name,
    value: Option<Bencode>,
    rest: Seq<(Seq<u8>, Bencode)>,
    key: Name,
)
    ensures
        get(optional_entry(name, value) + rest, name_bytes(key)) == if key == name && value
            is Some {
            value
        } else {
            get(rest, name_bytes(key))
        },
        get(optional_entry(name, value), name_bytes(key)) == if key == name {
            value
        } else {
            None
        },
{
    match value {
        Some(v) => {
            lemma_get_entry(name, v, rest, key);
        },
        None => {
            assert(optional_entry(name, value) + rest =~= rest);
            assert(get(Seq::<(Seq<u8>, Bencode)>::empty(), name_bytes(key)) is None);
        },
    }
}

/// A list of byte strings is read as its byte strings.
pub proof fn lemma_all_bytes(items: Seq<Seq<u8>>)
    ensures
        all_bytes(bytes_list(items)) == Some(items),
    decreases items.len(),
{
    let list = bytes_list(items);
    if items.len() > 0 {
        lemma_all_bytes(items.drop_last());
        assert(list.drop_last() =~= bytes_list(items.drop_last()));
        assert(items.drop_last().push(items.last()) =~= items);
    } else {
        assert(items =~= Seq::<Seq<u8>>::empty());
    }
}

/// The compact encodings of addresses are read as the addresses.
pub proof fn lemma_all_addrs(values: Seq<SocketAddr>)
    ensures
        all_addrs(values_bytes(values)) == Some(values),
    decreases values.len(),
{
    let encodings = values_bytes(values);
    if values.len() > 0 {
        lemma_all_addrs(values.drop_last());
        assert(encodings.drop_last() =~= values_bytes(values.drop_last()));
        crate::compact::lemma_socket_addr_round_trip(values.last(), Seq::empty());
        assert(values.drop_last().push(values.last()) =~= values);
    } else {
        assert(values =~= Seq::<SocketAddr>::empty());
    }
}

/// The names of what is wanted are read as what is wanted.
pub proof fn lemma_want_round_trip(want: Option<Want>)
    ensures
        want is Some ==> wanted(want_tree(want)->0) == Some(want),
{
    let n4 = seq![0x6eu8, 0x34u8];
    let n6 = seq![0x6eu8, 0x36u8];
    let names = want_names(want);
    lemma_all_bytes(names);
    assert(crate::message::utils::trimmed(n4) == n4) by {
        assert(crate::message::utils::trimmed_start(n4) == n4);
        assert(crate::message::utils::trimmed_end(n4) == n4);
    }
    assert(crate::message::utils::trimmed(n6) == n6) by {
        assert(crate::message::utils::trimmed_start(n6) == n6);
        assert(crate::message::utils::trimmed_end(n6) == n6);
    }
    assert(n4 != n6) by {
        assert(n4[1] != n6[1]);
    }
    let big4 = seq![0x4eu8, 0x34u8];
    let big6 = seq![0x4eu8, 0x36u8];
    assert(n4 != big6 && n6 != big4) by {
        assert(n4[0] != big6[0]);
        assert(n6[0] != big4[0]);
    }
    match want {
        Some(Want::V4) => {
            assert(names.drop_last() =~= Seq::<Seq<u8>>::empty());
            assert(names.last() == n4);
            assert(want_of(names.drop_last()) is None);
        },
        Some(Want::V6) => {
            assert(names.drop_last() =~= Seq::<Seq<u8>>::empty());
            assert(names.last() == n6);
            assert(want_of(names.drop_last()) is None);
        },
        Some(Want::Both) => {
            assert(names.drop_last() =~= seq![n4]);
            assert(names.last() == n6);
            assert(seq![n4].drop_last() =~= Seq::<Seq<u8>>::empty());
            assert(seq![n4].last() == n4);
            assert(want_of(seq![n4].drop_last()) is None);
            assert(want_of(seq![n4]) == Some(Want::V4));
        },
        None => {},
    }
}

/// The arguments of a query are read as the query.
pub proof fn lemma_request_round_trip(request: RequestView)
    ensures
        request_of(name_bytes(method(request)), arguments(request)) == Some(request),
{
    let args = arguments(request);
    match request {
        RequestView::Ping(r) => {
            r.id.lemma_is_from_view();
            lemma_get_entry(Name::Id, Bencode::Bytes(r.id@), Seq::empty(), Name::Id);
        },
        RequestView::FindNode(r) => {
            r.id.lemma_is_from_view();
            r.target.lemma_is_from_view();
            lemma_want_round_trip(r.want);
            let e_want = optional_entry(Name::Want, want_tree(r.want));
            let rest = entry(Name::Target, Bencode::Bytes(r.target@)) + e_want;
            lemma_get_entry(Name::Id, Bencode::Bytes(r.id@), rest, Name::Id);
            lemma_get_entry(Name::Id, Bencode::Bytes(r.id@), rest, Name::Target);
            lemma_get_entry(Name::Id, Bencode::Bytes(r.id@), rest, Name::Want);
            lemma_get_entry(Name::Target, Bencode::Bytes(r.target@), e_want, Name::Target);
            lemma_get_entry(Name::Target, Bencode::Bytes(r.target@), e_want, Name::Want);
            lemma_get_optional(Name::Want, want_tree(r.want), Seq::empty(), Name::Want);
            lemma_names_differ(Name::FindNode, Name::Ping);
        },
        RequestView::GetPeers(r) => {
            r.id.lemma_is_from_view();
            r.info_hash.lemma_is_from_view();
            lemma_want_round_trip(r.want);
            let e_want = optional_entry(Name::Want, want_tree(r.want));
            let rest = entry(Name::InfoHash, Bencode::Bytes(r.info_hash@)) + e_want;
            lemma_get_entry(Name::Id, Bencode::Bytes(r.id@), rest, Name::Id);
            lemma_get_entry(Name::Id, Bencode::Bytes(r.id@), rest, Name::InfoHash);
            lemma_get_entry(Name::Id, Bencode::Bytes(r.id@), rest, Name::Want);
            lemma_get_entry(Name::InfoHash, Bencode::Bytes(r.info_hash@), e_want, Name::InfoHash);
            lemma_get_entry(Name::InfoHash, Bencode::Bytes(r.info_hash@), e_want, Name::Want);
            lemma_get_optional(Name::Want, want_tree(r.want), Seq::empty(), Name::Want);
            lemma_names_differ(Name::GetPeers, Name::Ping);
            lemma_names_differ(Name::GetPeers, Name::FindNode);
        },
        RequestView::AnnouncePeer(r) => {
            r.id.lemma_is_from_view();
            r.info_hash.lemma_is_from_view();
            let v_id = Bencode::Bytes(r.id@);
            let v_hash = Bencode::Bytes(r.info_hash@);
            let v_token = Bencode::Bytes(r.token);
            let e_token = entry(Name::Token, v_token);
            let r3 = optional_entry(Name::Port, port_tree(r.port)) + e_token;
            let r2 = entry(Name::InfoHash, v_hash) + r3;
            let r1 = optional_entry(Name::ImpliedPort, implied_port_tree(r.port)) + r2;
            lemma_get_entry(Name::Id, v_id, r1, Name::Id);
            lemma_get_entry(Name::Id, v_id, r1, Name::InfoHash);
            lemma_get_entry(Name::Id, v_id, r1, Name::Token);
            lemma_get_entry(Name::Id, v_id, r1, Name::Port);
            lemma_get_entry(Name::Id, v_id, r1, Name::ImpliedPort);
            lemma_get_optional(Name::ImpliedPort, implied_port_tree(r.port), r2, Name::InfoHash);
            lemma_get_optional(Name::ImpliedPort, implied_port_tree(r.port), r2, Name::Token);
            lemma_get_optional(Name::ImpliedPort, implied_port_tree(r.port), r2, Name::Port);
            lemma_get_optional(
                Name::ImpliedPort,
                implied_port_tree(r.port),
                r2,
                Name::ImpliedPort,
            );
            lemma_get_entry(Name::InfoHash, v_hash, r3, Name::InfoHash);
            lemma_get_entry(Name::InfoHash, v_hash, r3, Name::Token);
            lemma_get_entry(Name::InfoHash, v_hash, r3, Name::Port);
            lemma_get_entry(Name::InfoHash, v_hash, r3, Name::ImpliedPort);
            lemma_get_optional(Name::Port, port_tree(r.port), e_token, Name::Token);
            lemma_get_optional(Name::Port, port_tree(r.port), e_token, Name::Port);
            lemma_get_optional(Name::Port, port_tree(r.port), e_token, Name::ImpliedPort);
            lemma_get_entry(Name::Token, v_token, Seq::empty(), Name::Token);
            lemma_get_entry(Name::Token, v_token, Seq::empty(), Name::Port);
            lemma_get_entry(Name::Token, v_token, Seq::empty(), Name::ImpliedPort);
            lemma_names_differ(Name::AnnouncePeer, Name::Ping);
            lemma_names_differ(Name::AnnouncePeer, Name::FindNode);
            lemma_names_differ(Name::AnnouncePeer, Name::GetPeers);
        },
    }
}

/// The fields of a response are read as the response, if each list of
/// nodes holds nodes of its address family only.
pub proof fn lemma_response_round_trip(response: ResponseView)
    requires
        all_of_version(response.nodes_v4, IpVersion::V4),
        all_of_version(response.nodes_v6, IpVersion::V6),
    ensures
        response_of(fields(response)) == Some(response),
{
    response.id.lemma_is_from_view();
    let v_id = Bencode::Bytes(response.id@);
    let t4 = nodes_tree(response.nodes_v4);
    let t6 = nodes_tree(response.nodes_v6);
    let tt = token_tree(response.token);
    let tv = values_tree(response.values);
    let r4 = optional_entry(Name::Values, tv);
    let r3 = optional_entry(Name::Token, tt) + r4;
    let r2 = optional_entry(Name::Nodes6, t6) + r3;
    let r1 = optional_entry(Name::Nodes, t4) + r2;
    lemma_get_entry(Name::Id, v_id, r1, Name::Id);
    lemma_get_entry(Name::Id, v_id, r1, Name::Nodes);
    lemma_get_entry(Name::Id, v_id, r1, Name::Nodes6);
    lemma_get_entry(Name::Id, v_id, r1, Name::Token);
    lemma_get_entry(Name::Id, v_id, r1, Name::Values);
    lemma_get_optional(Name::Nodes, t4, r2, Name::Nodes);
    lemma_get_optional(Name::Nodes, t4, r2, Name::Nodes6);
    lemma_get_optional(Name::Nodes, t4, r2, Name::Token);
    lemma_get_optional(Name::Nodes, t4, r2, Name::Values);
    lemma_get_optional(Name::Nodes6, t6, r3, Name::Nodes);
    lemma_get_optional(Name::Token, tt, r4, Name::Nodes);
    lemma_get_optional(Name::Token, tt, r4, Name::Nodes6);
    lemma_get_optional(Name::Nodes6, t6, r3, Name::Nodes6);
    lemma_get_optional(Name::Nodes6, t6, r3, Name::Token);
    lemma_get_optional(Name::Nodes6, t6, r3, Name::Values);
    lemma_get_optional(Name::Token, tt, r4, Name::Token);
    lemma_get_optional(Name::Token, tt, r4, Name::Values);
    lemma_get_optional(Name::Values, tv, Seq::empty(), Name::Values);
    lemma_get_optional(Name::Values, tv, Seq::empty(), Name::Token);
    lemma_get_optional(Name::Values, tv, Seq::empty(), Name::Nodes6);
    lemma_get_optional(Name::Values, tv, Seq::empty(), Name::Nodes);
    crate::compact::lemma_nodes_round_trip(response.nodes_v4, IpVersion::V4);
    crate::compact::lemma_nodes_round_trip(response.nodes_v6, IpVersion::V6);
    lemma_all_bytes(values_bytes(response.values));
    lemma_all_addrs(response.values);
    if response.nodes_v4.len() == 0 {
        assert(response.nodes_v4 =~= Seq::<NodeHandle>::empty());
    }
    if response.nodes_v6.len() == 0 {
        assert(response.nodes_v6 =~= Seq::<NodeHandle>::empty());
    }
    if response.values.len() == 0 {
        assert(response.values =~= Seq::<SocketAddr>::empty());
    }
    let all = fields(response);
    assert(all == entry(Name::Id, v_id) + r1);
    assert(get(all, name_bytes(Name::Id)) == Some(v_id));
    assert(get(all, name_bytes(Name::Nodes)) == t4);
    assert(get(all, name_bytes(Name::Nodes6)) == t6);
    assert(get(all, name_bytes(Name::Token)) == tt);
    assert(get(all, name_bytes(Name::Values)) == tv);
    assert(required_id(Some(v_id)) == Some(response.id));
    assert(optional_nodes(t4, IpVersion::V4) == Some(response.nodes_v4));
    assert(optional_nodes(t6, IpVersion::V6) == Some(response.nodes_v6));
    assert(optional_bytes(tt) == Some(response.token));
    assert(optional_peers(tv) == Some(response.values));
}

/// Lists and dictionaries are nested at most three deep in a message.
pub proof fn lemma_message_fits(m: MessageView)
    ensures
        fits(message_tree(m), MAX_DEPTH as nat),
{
    let entries = message_entries(m);
    assert forall|i: int| 0 <= i < entries.len() implies fits(
        (#[trigger] entries[i]).1,
        (MAX_DEPTH - 1) as nat,
    ) by {
        match m.body {
            MessageBodyView::Request(request) => {
                let args = arguments(request);
                assert forall|j: int| 0 <= j < args.len() implies fits(
                    (#[trigger] args[j]).1,
                    (MAX_DEPTH - 2) as nat,
                ) by {
                    let v = args[j].1;
                    match v {
                        Bencode::List(items) => {
                            assert forall|k: int| 0 <= k < items.len() implies fits(
                                #[trigger] items[k],
                                (MAX_DEPTH - 3) as nat,
                            ) by {
                                assert(items[k] is Bytes);
                            }
                        },
                        _ => {},
                    }
                }
            },
            MessageBodyView::Response(response) => {
                let all = fields(response);
                assert forall|j: int| 0 <= j < all.len() implies fits(
                    (#[trigger] all[j]).1,
                    (MAX_DEPTH - 2) as nat,
                ) by {
                    let v = all[j].1;
                    match v {
                        Bencode::List(items) => {
                            assert forall|k: int| 0 <= k < items.len() implies fits(
                                #[trigger] items[k],
                                (MAX_DEPTH - 3) as nat,
                            ) by {
                                assert(items[k] is Bytes);
                            }
                        },
                        _ => {},
                    }
                }
            },
            MessageBodyView::Error(error) => {
                let items = seq![
                    Bencode::Int(error.code as int),
                    Bencode::Bytes(vstd::utf8::encode_utf8(error.message)),
                ];
                assert forall|k: int| 0 <= k < items.len() implies fits(
                    #[trigger] items[k],
                    (MAX_DEPTH - 2) as nat,
                ) by {}
            },
        }
    }
}

/// The bencoded value of a message is read as the message.
pub proof fn lemma_tree_round_trip(m: MessageView)
    requires
        encodable(m),
    ensures
        message_of(message_tree(m)) == Some(m),
{
    let entries = message_entries(m);
    let v_t = Bencode::Bytes(m.transaction_id);
    match m.body {
        MessageBodyView::Request(request) => {
            let v_a = Bencode::Dict(arguments(request));
            let v_q = Bencode::Bytes(name_bytes(method(request)));
            let v_y = Bencode::Bytes(name_bytes(Name::Q));
            let e_y = entry(Name::Y, v_y);
            let r2 = entry(Name::T, v_t) + e_y;
            let r1 = entry(Name::Q, v_q) + r2;
            lemma_get_entry(Name::A, v_a, r1, Name::A);
            lemma_get_entry(Name::A, v_a, r1, Name::Q);
            lemma_get_entry(Name::A, v_a, r1, Name::T);
            lemma_get_entry(Name::A, v_a, r1, Name::Y);
            lemma_get_entry(Name::Q, v_q, r2, Name::Q);
            lemma_get_entry(Name::Q, v_q, r2, Name::T);
            lemma_get_entry(Name::Q, v_q, r2, Name::Y);
            lemma_get_entry(Name::T, v_t, e_y, Name::T);
            lemma_get_entry(Name::T, v_t, e_y, Name::Y);
            lemma_get_entry(Name::Y, v_y, Seq::empty(), Name::Y);
            lemma_request_round_trip(request);
        },
        MessageBodyView::Response(response) => {
            let v_r = Bencode::Dict(fields(response));
            let v_y = Bencode::Bytes(name_bytes(Name::R));
            let e_y = entry(Name::Y, v_y);
            let r1 = entry(Name::T, v_t) + e_y;
            lemma_get_entry(Name::R, v_r, r1, Name::R);
            lemma_get_entry(Name::R, v_r, r1, Name::T);
            lemma_get_entry(Name::R, v_r, r1, Name::Y);
            lemma_get_entry(Name::T, v_t, e_y, Name::T);
            lemma_get_entry(Name::T, v_t, e_y, Name::Y);
            lemma_get_entry(Name::Y, v_y, Seq::empty(), Name::Y);
            lemma_names_differ(Name::R, Name::Q);
            lemma_response_round_trip(response);
        },
        MessageBodyView::Error(error) => {
            let v_e = error_tree(error);
            let v_y = Bencode::Bytes(name_bytes(Name::E));
            let e_y = entry(Name::Y, v_y);
            let r1 = entry(Name::T, v_t) + e_y;
            lemma_get_entry(Name::E, v_e, r1, Name::E);
            lemma_get_entry(Name::E, v_e, r1, Name::T);
            lemma_get_entry(Name::E, v_e, r1, Name::Y);
            lemma_get_entry(Name::T, v_t, e_y, Name::T);
            lemma_get_entry(Name::T, v_t, e_y, Name::Y);
            lemma_get_entry(Name::Y, v_y, Seq::empty(), Name::Y);
            lemma_names_differ(Name::E, Name::Q);
            lemma_names_differ(Name::E, Name::R);
            vstd::utf8::encode_utf8_valid_utf8(error.message);
            vstd::utf8::encode_utf8_decode_utf8(error.message);
        },
    }
}

/// A message that was put on the wire is read from the wire as it was.
pub proof fn lemma_message_round_trip(m: MessageView)
    requires
        encodable(m),
    ensures
        decoded(encoded(m)) == Some(m),
{
    lemma_message_fits(m);
    crate::bencode::lemma_round_trip(message_tree(m));
    lemma_tree_round_trip(m);
}

/// The bytes of a name.
pub fn name_vec(name: Name) -> (bytes: Vec<u8>)
    ensures
        bytes@ == name_bytes(name),
{
    let bytes = match name {
        Name::A => vec![0x61u8],
        Name::E => vec![0x65u8],
        Name::Q => vec![0x71u8],
        Name::R => vec![0x72u8],
        Name::T => vec![0x74u8],
        Name::Y => vec![0x79u8],
        Name::Id => vec![0x69u8, 0x64u8],
        Name::ImpliedPort => vec![
            0x69u8,
            0x6du8,
            0x70u8,
            0x6cu8,
            0x69u8,
            0x65u8,
            0x64u8,
            0x5fu8,
            0x70u8,
            0x6fu8,
            0x72u8,
            0x74u8,
        ],
        Name::InfoHash => vec![
            0x69u8,
            0x6eu8,
            0x66u8,
            0x6fu8,
            0x5fu8,
            0x68u8,
            0x61u8,
            0x73u8,
            0x68u8,
        ],
        Name::Nodes => vec![0x6eu8, 0x6fu8, 0x64u8, 0x65u8, 0x73u8],
        Name::Nodes6 => vec![0x6eu8, 0x6fu8, 0x64u8, 0x65u8, 0x73u8, 0x36u8],
        Name::Port => vec![0x70u8, 0x6fu8, 0x72u8, 0x74u8],
        Name::Target => vec![0x74u8, 0x61u8, 0x72u8, 0x67u8, 0x65u8, 0x74u8],
        Name::Token => vec![0x74u8, 0x6fu8, 0x6bu8, 0x65u8, 0x6eu8],
        Name::Values => vec![0x76u8, 0x61u8, 0x6cu8, 0x75u8, 0x65u8, 0x73u8],
        Name::Want => vec![0x77u8, 0x61u8, 0x6eu8, 0x74u8],
        Name::Ping => vec![0x70u8, 0x69u8, 0x6eu8, 0x67u8],
        Name::FindNode => vec![
            0x66u8,
            0x69u8,
            0x6eu8,
            0x64u8,
            0x5fu8,
            0x6eu8,
            0x6fu8,
            0x64u8,
            0x65u8,
        ],
        Name::GetPeers => vec![
            0x67u8,
            0x65u8,
            0x74u8,
            0x5fu8,
            0x70u8,
            0x65u8,
            0x65u8,
            0x72u8,
            0x73u8,
        ],
        Name::AnnouncePeer => vec![
            0x61u8,
            0x6eu8,
            0x6eu8,
            0x6fu8,
            0x75u8,
            0x6eu8,
            0x63u8,
            0x65u8,
            0x5fu8,
            0x70u8,
            0x65u8,
            0x65u8,
            0x72u8,
        ],
    };
    assert(bytes@ =~= name_bytes(name));
    bytes
}

/// The writing of one entry.
pub proof fn lemma_serialize_entry(name: Name, value: Bencode)
    ensures
        serialize_entries(entry(name, value), 0) == bytes_bytes(name_bytes(name)) + serialize(
            value,
        ),
{
    let one = entry(name, value);
    assert(serialize_entries(one, 1) =~= Seq::<u8>::empty());
    assert(serialize_entries(one, 0) =~= bytes_bytes(name_bytes(name)) + serialize(value));
}

/// The writing of entries with one more entry behind them.
pub proof fn lemma_serialize_more(before: Seq<(Seq<u8>, Bencode)>, name: Name, value: Bencode)
    ensures
        serialize_entries(before + entry(name, value), 0) == serialize_entries(before, 0)
            + bytes_bytes(name_bytes(name)) + serialize(value),
{
    lemma_serialize_entries_add(before, entry(name, value), 0);
    lemma_serialize_entry(name, value);
    assert(serialize_entries(before + entry(name, value), 0) =~= serialize_entries(before, 0)
        + bytes_bytes(name_bytes(name)) + serialize(value));
}

/// Appends the writing of an entry whose value is a byte string.
fn put_bytes(out: &mut Vec<u8>, name: Name, bytes: &[u8], Ghost(before): Ghost<Seq<(Seq<u8>, Bencode)>>, Ghost(head): Ghost<Seq<u8>>)
    requires
        old(out)@ == head + serialize_entries(before, 0),
    ensures
        final(out)@ == head + serialize_entries(
            before + entry(name, Bencode::Bytes(bytes@)),
            0,
        ),
{
    let key = name_vec(name);
    write_bytes(out, key.as_slice());
    write_bytes(out, bytes);
    proof {
        lemma_serialize_more(before, name, Bencode::Bytes(bytes@));
        assert(out@ =~= head + serialize_entries(
            before + entry(name, Bencode::Bytes(bytes@)),
            0,
        ));
    }
}

/// Appends the writing of an entry whose value is a number.
fn put_int(out: &mut Vec<u8>, name: Name, value: u64, Ghost(before): Ghost<Seq<(Seq<u8>, Bencode)>>, Ghost(head): Ghost<Seq<u8>>)
    requires
        old(out)@ == head + serialize_entries(before, 0),
    ensures
        final(out)@ == head + serialize_entries(
            before + entry(name, Bencode::Int(value as int)),
            0,
        ),
{
    let key = name_vec(name);
    write_bytes(out, key.as_slice());
    write_int(out, value);
    proof {
        lemma_serialize_more(before, name, Bencode::Int(value as int));
        assert(out@ =~= head + serialize_entries(
            before + entry(name, Bencode::Int(value as int)),
            0,
        ));
    }
}

/// Appends the writing of a list of byte strings.
fn write_bytes_list(out: &mut Vec<u8>, items: &Vec<Vec<u8>>)
    ensures
        final(out)@ == old(out)@ + serialize(
            Bencode::List(bytes_list(Seq::new(items@.len(), |i: int| items@[i]@))),
        ),
{
    let ghost all = Seq::new(items@.len(), |i: int| items@[i]@);
    let ghost head = out@;
    out.push(0x6c);
    let mut i: usize = 0;
    proof {
        assert(bytes_list(all.take(0)) =~= Seq::<Bencode>::empty());
        assert(serialize_items(Seq::<Bencode>::empty(), 0) =~= Seq::<u8>::empty());
    }
    while i < items.len()
        invariant
            i <= items@.len(),
            all == Seq::new(items@.len(), |k: int| items@[k]@),
            out@ == head + seq![0x6cu8] + serialize_items(bytes_list(all.take(i as int)), 0),
        decreases items@.len() - i,
    {
        write_bytes(out, items[i].as_slice());
        proof {
            let before = bytes_list(all.take(i as int));
            let one = seq![Bencode::Bytes(all[i as int])];
            lemma_serialize_items_add(before, one, 0);
            assert(serialize_items(one, 1) =~= Seq::<u8>::empty());
            assert(one[0] == Bencode::Bytes(all[i as int]));
            assert(serialize(one[0]) == bytes_bytes(all[i as int]));
            assert(serialize_items(one, 0) == serialize(one[0]) + serialize_items(one, 1));
            assert(serialize_items(one, 0) =~= bytes_bytes(all[i as int]));
            assert(bytes_list(all.take(i as int + 1)) =~= before + one);
            assert(out@ =~= head + seq![0x6cu8] + serialize_items(
                bytes_list(all.take(i as int + 1)),
                0,
            ));
        }
        i += 1;
    }
    out.push(0x65);
    proof {
        assert(all.take(items@.len() as int) =~= all);
        assert(out@ =~= head + serialize(Bencode::List(bytes_list(all))));
    }
}

/// The names of what is wanted, as byte strings.
fn want_name_vecs(want: Want) -> (names: Vec<Vec<u8>>)
    ensures
        Seq::new(names@.len(), |i: int| names@[i]@) == want_names(Some(want)),
{
    let names = match want {
        Want::V4 => vec![vec![0x6eu8, 0x34u8]],
        Want::V6 => vec![vec![0x6eu8, 0x36u8]],
        Want::Both => vec![vec![0x6eu8, 0x34u8], vec![0x6eu8, 0x36u8]],
    };
    proof {
        let views = Seq::new(names@.len(), |i: int| names@[i]@);
        assert forall|i: int| 0 <= i < views.len() implies views[i] == want_names(Some(want))[i] by {
            assert(names@[i]@ =~= want_names(Some(want))[i]);
        }
        assert(views =~= want_names(Some(want)));
    }
    names
}

/// Appends the writing of the entry under `want`, if something is wanted.
fn put_want(out: &mut Vec<u8>, want: Option<Want>, Ghost(before): Ghost<Seq<(Seq<u8>, Bencode)>>, Ghost(head): Ghost<Seq<u8>>)
    requires
        old(out)@ == head + serialize_entries(before, 0),
    ensures
        final(out)@ == head + serialize_entries(
            before + optional_entry(Name::Want, want_tree(want)),
            0,
        ),
{
    match want {
        Some(w) => {
            let key = name_vec(Name::Want);
            write_bytes(out, key.as_slice());
            let names = want_name_vecs(w);
            write_bytes_list(out, &names);
            proof {
                lemma_serialize_more(before, Name::Want, want_tree(want)->0);
                assert(out@ =~= head + serialize_entries(
                    before + optional_entry(Name::Want, want_tree(want)),
                    0,
                ));
            }
        },
        None => {
            assert(before + optional_entry(Name::Want, want_tree(want)) =~= before);
        },
    }
}

/// Appends the writing of the arguments of a query, as a dictionary.
fn write_arguments(out: &mut Vec<u8>, request: &Request)
    ensures
        final(out)@ == old(out)@ + serialize(Bencode::Dict(arguments(request@))),
{
    let ghost start = out@;
    out.push(0x64);
    let ghost head = out@;
    let ghost none = Seq::<(Seq<u8>, Bencode)>::empty();
    proof {
        assert(serialize_entries(none, 0) =~= Seq::<u8>::empty());
        assert(out@ =~= head + serialize_entries(none, 0));
    }
    match request {
        Request::Ping(r) => {
            let id = r.id.to_bytes();
            put_bytes(out, Name::Id, id.as_slice(), Ghost(none), Ghost(head));
            assert(none + entry(Name::Id, Bencode::Bytes(r.id@)) =~= arguments(request@));
        },
        Request::FindNode(r) => {
            let id = r.id.to_bytes();
            let target = r.target.to_bytes();
            put_bytes(out, Name::Id, id.as_slice(), Ghost(none), Ghost(head));
            let ghost e1 = none + entry(Name::Id, Bencode::Bytes(r.id@));
            put_bytes(out, Name::Target, target.as_slice(), Ghost(e1), Ghost(head));
            let ghost e2 = e1 + entry(Name::Target, Bencode::Bytes(r.target@));
            put_want(out, r.want, Ghost(e2), Ghost(head));
            assert(e2 + optional_entry(Name::Want, want_tree(r.want)) =~= arguments(request@));
        },
        Request::GetPeers(r) => {
            let id = r.id.to_bytes();
            let info_hash = r.info_hash.to_bytes();
            put_bytes(out, Name::Id, id.as_slice(), Ghost(none), Ghost(head));
            let ghost e1 = none + entry(Name::Id, Bencode::Bytes(r.id@));
            put_bytes(out, Name::InfoHash, info_hash.as_slice(), Ghost(e1), Ghost(head));
            let ghost e2 = e1 + entry(Name::InfoHash, Bencode::Bytes(r.info_hash@));
            put_want(out, r.want, Ghost(e2), Ghost(head));
            assert(e2 + optional_entry(Name::Want, want_tree(r.want)) =~= arguments(request@));
        },
        Request::AnnouncePeer(r) => {
            let id = r.id.to_bytes();
            let info_hash = r.info_hash.to_bytes();
            put_bytes(out, Name::Id, id.as_slice(), Ghost(none), Ghost(head));
            let ghost e1 = none + entry(Name::Id, Bencode::Bytes(r.id@));
            if r.port.is_none() {
                put_int(out, Name::ImpliedPort, 1, Ghost(e1), Ghost(head));
            }
            let ghost e2 = e1 + optional_entry(Name::ImpliedPort, implied_port_tree(r.port));
            assert(e2 =~= if r.port is None {
                e1 + entry(Name::ImpliedPort, Bencode::Int(1))
            } else {
                e1
            });
            put_bytes(out, Name::InfoHash, info_hash.as_slice(), Ghost(e2), Ghost(head));
            let ghost e3 = e2 + entry(Name::InfoHash, Bencode::Bytes(r.info_hash@));
            match r.port {
                Some(port) => {
                    put_int(out, Name::Port, port as u64, Ghost(e3), Ghost(head));
                },
                None => {},
            }
            let ghost e4 = e3 + optional_entry(Name::Port, port_tree(r.port));
            assert(e4 =~= match r.port {
                Some(port) => e3 + entry(Name::Port, Bencode::Int(port as int)),
                None => e3,
            });
            put_bytes(out, Name::Token, r.token.as_slice(), Ghost(e4), Ghost(head));
            assert(e4 + entry(Name::Token, Bencode::Bytes(r.token@)) =~= arguments(request@));
        },
    }
    out.push(0x65);
    assert(out@ =~= start + serialize(Bencode::Dict(arguments(request@))));
}

/// Appends the writing of the entry under `nodes` or `nodes6`, if there
/// are nodes.
fn put_nodes(
    out: &mut Vec<u8>,
    name: Name,
    nodes: &Vec<NodeHandle>,
    version: IpVersion,
    Ghost(before): Ghost<Seq<(Seq<u8>, Bencode)>>,
    Ghost(head): Ghost<Seq<u8>>,
)
    requires
        old(out)@ == head + serialize_entries(before, 0),
        all_of_version(nodes@, version),
    ensures
        final(out)@ == head + serialize_entries(
            before + optional_entry(name, nodes_tree(nodes@)),
            0,
        ),
{
    if nodes.len() > 0 {
        match encode_nodes(nodes.as_slice(), version) {
            Ok(bytes) => {
                put_bytes(out, name, bytes.as_slice(), Ghost(before), Ghost(head));
            },
            Err(_) => {},
        }
    } else {
        assert(before + optional_entry(name, nodes_tree(nodes@)) =~= before);
    }
}

/// Appends the writing of the fields of a response, as a dictionary.
fn write_fields(out: &mut Vec<u8>, response: &Response)
    requires
        all_of_version(response@.nodes_v4, IpVersion::V4),
        all_of_version(response@.nodes_v6, IpVersion::V6),
    ensures
        final(out)@ == old(out)@ + serialize(Bencode::Dict(fields(response@))),
{
    let ghost start = out@;
    out.push(0x64);
    let ghost head = out@;
    let ghost none = Seq::<(Seq<u8>, Bencode)>::empty();
    proof {
        assert(serialize_entries(none, 0) =~= Seq::<u8>::empty());
        assert(out@ =~= head + serialize_entries(none, 0));
    }
    let id = response.id.to_bytes();
    put_bytes(out, Name::Id, id.as_slice(), Ghost(none), Ghost(head));
    let ghost e1 = none + entry(Name::Id, Bencode::Bytes(response.id@));
    put_nodes(out, Name::Nodes, &response.nodes_v4, IpVersion::V4, Ghost(e1), Ghost(head));
    let ghost e2 = e1 + optional_entry(Name::Nodes, nodes_tree(response@.nodes_v4));
    put_nodes(out, Name::Nodes6, &response.nodes_v6, IpVersion::V6, Ghost(e2), Ghost(head));
    let ghost e3 = e2 + optional_entry(Name::Nodes6, nodes_tree(response@.nodes_v6));
    match &response.token {
        Some(token) => {
            put_bytes(out, Name::Token, token.as_slice(), Ghost(e3), Ghost(head));
        },
        None => {},
    }
    let ghost e4 = e3 + optional_entry(Name::Token, token_tree(response@.token));
    assert(e4 =~= match response@.token {
        Some(token) => e3 + entry(Name::Token, Bencode::Bytes(token)),
        None => e3,
    });
    if response.values.len() > 0 {
        let key = name_vec(Name::Values);
        write_bytes(out, key.as_slice());
        let items = crate::compact::values::serialize(response.values.as_slice());
        write_bytes_list(out, &items);
        proof {
            let encodings = Seq::new(items@.len(), |i: int| items@[i]@);
            assert(encodings =~= values_bytes(response@.values));
            lemma_serialize_more(e4, Name::Values, values_tree(response@.values)->0);
            assert(out@ =~= head + serialize_entries(
                e4 + optional_entry(Name::Values, values_tree(response@.values)),
                0,
            ));
        }
    }
    let ghost e5 = e4 + optional_entry(Name::Values, values_tree(response@.values));
    proof {
        if response@.values.len() == 0 {
            assert(e5 =~= e4);
        }
        assert(e5 =~= fields(response@));
    }
    out.push(0x65);
    assert(out@ =~= start + serialize(Bencode::Dict(fields(response@))));
}

/// Appends the writing of the code and the text of an error, as a list.
fn write_error(out: &mut Vec<u8>, error: &Error)
    ensures
        final(out)@ == old(out)@ + serialize(error_tree(error@)),
{
    let ghost start = out@;
    out.push(0x6c);
    write_int(out, error.code as u64);
    let text = error.message.as_str().as_bytes();
    write_bytes(out, text);
    out.push(0x65);
    proof {
        let items = seq![
            Bencode::Int(error@.code as int),
            Bencode::Bytes(vstd::utf8::encode_utf8(error@.message)),
        ];
        assert(text@ == vstd::utf8::encode_utf8(error@.message));
        assert(serialize_items(items, 2) =~= Seq::<u8>::empty());
        assert(serialize(items[1]) == bytes_bytes(text@));
        assert(serialize_items(items, 1) =~= bytes_bytes(text@));
        assert(serialize(items[0]) == crate::bencode::int_bytes(error@.code as int));
        assert(serialize_items(items, 0) =~= crate::bencode::int_bytes(error@.code as int)
            + bytes_bytes(text@));
        assert(out@ =~= start + serialize(error_tree(error@)));
    }
}

/// Whether the addresses of all the nodes are of the given family.
fn nodes_of_version(nodes: &Vec<NodeHandle>, version: IpVersion) -> (r: bool)
    ensures
        r == all_of_version(nodes@, version),
{
    let mut i: usize = 0;
    while i < nodes.len()
        invariant
            i <= nodes@.len(),
            forall|j: int| 0 <= j < i ==> (#[trigger] nodes@[j]).addr.ip.version_spec() == version,
        decreases nodes@.len() - i,
    {
        if !crate::compact::same_version(nodes[i].addr.version(), version) {
            return false;
        }
        i += 1;
    }
    true
}

impl Message {
    /// Whether the message can be put on the wire: see `encodable`.
    pub fn is_encodable(&self) -> (r: bool)
        ensures
            r == encodable(self@),
    {
        match &self.body {
            MessageBody::Response(response) => nodes_of_version(&response.nodes_v4, IpVersion::V4)
                && nodes_of_version(&response.nodes_v6, IpVersion::V6),
            _ => true,
        }
    }

    /// The bytes of the message on the wire, from which `decode` reads the
    /// message as it is. The nodes of a response must stand in the list of
    /// their address family.
    pub fn encode(&self) -> (bytes: Vec<u8>)
        requires
            encodable(self@),
        ensures
            bytes@ == encoded(self@),
            decoded(bytes@) == Some(self@),
    {
        proof {
            lemma_message_round_trip(self@);
        }
        let mut out: Vec<u8> = Vec::new();
        out.push(0x64);
        let ghost head = out@;
        let ghost none = Seq::<(Seq<u8>, Bencode)>::empty();
        proof {
            assert(serialize_entries(none, 0) =~= Seq::<u8>::empty());
            assert(out@ =~= head + serialize_entries(none, 0));
        }
        let ghost body_entries;
        let kind: Name;
        match &self.body {
            MessageBody::Request(request) => {
                let key = name_vec(Name::A);
                write_bytes(&mut out, key.as_slice());
                write_arguments(&mut out, request);
                proof {
                    lemma_serialize_more(none, Name::A, Bencode::Dict(arguments(request@)));
                }
                let ghost e1 = none + entry(Name::A, Bencode::Dict(arguments(request@)));
                assert(out@ =~= head + serialize_entries(e1, 0));
                let method_name = match request {
                    Request::Ping(_) => Name::Ping,
                    Request::FindNode(_) => Name::FindNode,
                    Request::GetPeers(_) => Name::GetPeers,
                    Request::AnnouncePeer(_) => Name::AnnouncePeer,
                };
                let method_bytes = name_vec(method_name);
                put_bytes(&mut out, Name::Q, method_bytes.as_slice(), Ghost(e1), Ghost(head));
                proof {
                    body_entries = e1 + entry(
                        Name::Q,
                        Bencode::Bytes(name_bytes(method(request@))),
                    );
                }
                kind = Name::Q;
            },
            MessageBody::Response(response) => {
                let key = name_vec(Name::R);
                write_bytes(&mut out, key.as_slice());
                write_fields(&mut out, response);
                proof {
                    lemma_serialize_more(none, Name::R, Bencode::Dict(fields(response@)));
                    body_entries = none + entry(Name::R, Bencode::Dict(fields(response@)));
                }
                assert(out@ =~= head + serialize_entries(body_entries, 0));
                kind = Name::R;
            },
            MessageBody::Error(error) => {
                let key = name_vec(Name::E);
                write_bytes(&mut out, key.as_slice());
                write_error(&mut out, error);
                proof {
                    lemma_serialize_more(none, Name::E, error_tree(error@));
                    body_entries = none + entry(Name::E, error_tree(error@));
                }
                assert(out@ =~= head + serialize_entries(body_entries, 0));
                kind = Name::E;
            },
        }
        put_bytes(
            &mut out,
            Name::T,
            self.transaction_id.as_slice(),
            Ghost(body_entries),
            Ghost(head),
        );
        let ghost with_t = body_entries + entry(Name::T, Bencode::Bytes(self.transaction_id@));
        let kind_bytes = name_vec(kind);
        put_bytes(&mut out, Name::Y, kind_bytes.as_slice(), Ghost(with_t), Ghost(head));
        let ghost all = with_t + entry(Name::Y, Bencode::Bytes(name_bytes(kind)));
        out.push(0x65);
        proof {
            assert(all =~= message_entries(self@));
            assert(out@ =~= serialize(message_tree(self@)));
        }
        out
    }
}

/// A list with an item that is no byte string is no list of byte strings.
pub proof fn lemma_all_bytes_none(items: Seq<Bencode>, k: int)
    requires
        0 <= k < items.len(),
        !(items[k] is Bytes),
    ensures
        all_bytes(items) is None,
    decreases items.len(),
{
    if k < items.len() - 1 {
        lemma_all_bytes_none(items.drop_last(), k);
    }
}

/// The byte strings of a list of byte strings are its items.
pub proof fn lemma_all_bytes_items(items: Seq<Bencode>)
    requires
        all_bytes(items) is Some,
    ensures
        all_bytes(items)->0.len() == items.len(),
        forall|i: int|
            0 <= i < items.len() ==> #[trigger] items[i] == Bencode::Bytes(all_bytes(items)->0[i]),
    decreases items.len(),
{
    if items.len() > 0 {
        lemma_all_bytes_items(items.drop_last());
        let init = all_bytes(items.drop_last())->0;
        assert forall|i: int| 0 <= i < items.len() implies #[trigger] items[i] == Bencode::Bytes(
            all_bytes(items)->0[i],
        ) by {
            if i < items.len() - 1 {
                assert(items.drop_last()[i] == items[i]);
            }
        }
    }
}

/// Encodings of which one spells no address spell no addresses.
pub proof fn lemma_all_addrs_none(encodings: Seq<Seq<u8>>, k: int)
    requires
        0 <= k < encodings.len(),
        decoded_socket_addr(encodings[k]) is None,
    ensures
        all_addrs(encodings) is None,
    decreases encodings.len(),
{
    if k < encodings.len() - 1 {
        lemma_all_addrs_none(encodings.drop_last(), k);
    }
}

/// Calls `core::str::from_utf8`: it gives the string that the bytes are
/// the UTF-8 encoding of, and fails exactly if they are that of none.
#[verifier::external_body]
fn str_from_utf8(bytes: &[u8]) -> (text: Option<&str>)
    ensures
        match text {
            Some(t) => vstd::utf8::valid_utf8(bytes@) && t@ == vstd::utf8::decode_utf8(bytes@),
            None => !vstd::utf8::valid_utf8(bytes@),
        },
{
    match core::str::from_utf8(bytes) {
        Ok(text) => Some(text),
        Err(_) => None,
    }
}

/// The positions at which the bytes of the byte string start and end that
/// is written at `at`, if a byte string is.
fn span_at(bytes: &[u8], at: usize, depth: usize) -> (span: Option<(usize, usize)>)
    requires
        at <= bytes@.len(),
        parse_value(bytes@, at as int, depth as nat) is Some,
    ensures
        match bytes_of(value_at(bytes@, at as int, depth as nat)) {
            Some(content) => span matches Some((from, to)) && from <= to <= bytes@.len()
                && content == bytes@.subrange(from as int, to as int),
            None => span is None,
        },
{
    proof {
        lemma_value_kind(bytes@, at as int, depth as nat);
    }
    if bytes[at] >= 0x30 && bytes[at] <= 0x39 {
        read_bytes(bytes, at)
    } else {
        None
    }
}

/// The byte string that is written at `at`, if one is.
fn vec_at(bytes: &[u8], at: usize, depth: usize) -> (content: Option<Vec<u8>>)
    requires
        at <= bytes@.len(),
        parse_value(bytes@, at as int, depth as nat) is Some,
    ensures
        match bytes_of(value_at(bytes@, at as int, depth as nat)) {
            Some(c) => content is Some && content->0@ == c,
            None => content is None,
        },
{
    match span_at(bytes, at, depth) {
        Some((from, to)) => {
            let part = slice_subrange(bytes, from, to);
            let mut copy: Vec<u8> = Vec::new();
            let mut i: usize = 0;
            while i < part.len()
                invariant
                    i <= part@.len(),
                    copy@ == part@.take(i as int),
                decreases part@.len() - i,
            {
                copy.push(part[i]);
                assert(copy@ =~= part@.take(i as int + 1));
                i += 1;
            }
            assert(part@.take(part@.len() as int) =~= part@);
            Some(copy)
        },
        None => None,
    }
}

/// The id that is written at `at`, if a byte string of 20 bytes is.
fn id_at(bytes: &[u8], at: usize, depth: usize) -> (id: Option<Id>)
    requires
        at <= bytes@.len(),
        parse_value(bytes@, at as int, depth as nat) is Some,
    ensures
        id == id_of(value_at(bytes@, at as int, depth as nat)),
{
    match span_at(bytes, at, depth) {
        Some((from, to)) => match Id::from_slice(slice_subrange(bytes, from, to)) {
            Ok(id) => {
                proof {
                    id.lemma_is_from_view();
                }
                Some(id)
            },
            Err(_) => None,
        },
        None => None,
    }
}

/// The number that is written at `at`, if an integer from 0 to `max` is.
fn small_number_at(bytes: &[u8], at: usize, depth: usize, max: u64) -> (number: Option<u64>)
    requires
        at <= bytes@.len(),
        parse_value(bytes@, at as int, depth as nat) is Some,
    ensures
        match number_of(value_at(bytes@, at as int, depth as nat), max as int) {
            Some(n) => number == Some(n as u64),
            None => number is None,
        },
{
    proof {
        lemma_value_kind(bytes@, at as int, depth as nat);
    }
    if bytes[at] == 0x69 {
        match read_int(bytes, at, max) {
            Some((value, _)) => Some(value),
            None => None,
        }
    } else {
        None
    }
}

/// The positions between which a byte string has no white space at its
/// ends.
fn trim_span(name: &[u8]) -> (span: (usize, usize))
    ensures
        span.0 <= span.1 <= name@.len(),
        name@.subrange(span.0 as int, span.1 as int) == trimmed(name@),
{
    let mut from: usize = 0;
    assert(name@.skip(0) =~= name@);
    while from < name.len() && (name[from] == 0x20 || (name[from] >= 0x09 && name[from] <= 0x0d))
        invariant
            from <= name@.len(),
            trimmed_start(name@) == trimmed_start(name@.skip(from as int)),
        decreases name@.len() - from,
    {
        proof {
            let rest = name@.skip(from as int);
            assert(rest[0] == name@[from as int]);
            assert(rest.skip(1) =~= name@.skip(from as int + 1));
        }
        from += 1;
    }
    proof {
        let rest = name@.skip(from as int);
        if from < name@.len() {
            assert(rest[0] == name@[from as int]);
        }
        assert(trimmed_start(name@) == rest);
        assert(rest =~= name@.subrange(from as int, name@.len() as int));
    }
    let mut to: usize = name.len();
    while to > from && (name[to - 1] == 0x20 || (name[to - 1] >= 0x09 && name[to - 1] <= 0x0d))
        invariant
            from <= to <= name@.len(),
            trimmed(name@) == trimmed_end(name@.subrange(from as int, to as int)),
        decreases to - from,
    {
        proof {
            let part = name@.subrange(from as int, to as int);
            assert(part.last() == name@[to - 1]);
            assert(part.drop_last() =~= name@.subrange(from as int, to as int - 1));
        }
        to -= 1;
    }
    proof {
        let part = name@.subrange(from as int, to as int);
        if to > from {
            assert(part.last() == name@[to - 1]);
        }
    }
    (from, to)
}

/// What a node wants after it named one more address family.
fn want_with_name(want: Option<Want>, name: &[u8]) -> (r: Option<Want>)
    ensures
        r == want_with(want, name@),
{
    let (from, to) = trim_span(name);
    let ghost t = trimmed(name@);
    let two = to - from == 2;
    let first_n = two && (name[from] == 0x6e || name[from] == 0x4e);
    let n4 = first_n && name[from + 1] == 0x34;
    let n6 = first_n && name[from + 1] == 0x36;
    proof {
        let part = name@.subrange(from as int, to as int);
        let a4 = seq![0x6eu8, 0x34u8];
        let b4 = seq![0x4eu8, 0x34u8];
        let a6 = seq![0x6eu8, 0x36u8];
        let b6 = seq![0x4eu8, 0x36u8];
        assert(part == t);
        assert(part.len() == to - from);
        assert(a4.len() == 2 && b4.len() == 2 && a6.len() == 2 && b6.len() == 2);
        assert(a4[0] == 0x6e && a4[1] == 0x34);
        assert(b4[0] == 0x4e && b4[1] == 0x34);
        assert(a6[0] == 0x6e && a6[1] == 0x36);
        assert(b6[0] == 0x4e && b6[1] == 0x36);
        if two {
            assert(part[0] == name@[from as int]);
            assert(part[1] == name@[from + 1]);
            if n4 && name@[from as int] == 0x6e {
                assert(t =~= a4);
            }
            if n4 && name@[from as int] == 0x4e {
                assert(t =~= b4);
            }
            if n6 && name@[from as int] == 0x6e {
                assert(t =~= a6);
            }
            if n6 && name@[from as int] == 0x4e {
                assert(t =~= b6);
            }
        }
        assert(n4 == (t == a4 || t == b4));
        assert(n6 == (t == a6 || t == b6));
    }
    match want {
        None => if n4 {
            Some(Want::V4)
        } else if n6 {
            Some(Want::V6)
        } else {
            None
        },
        Some(Want::V4) => if n6 {
            Some(Want::Both)
        } else {
            want
        },
        Some(Want::V6) => if n4 {
            Some(Want::Both)
        } else {
            want
        },
        Some(Want::Both) => want,
    }
}

/// What the list that is written at `at` asks for, if a list of byte
/// strings is written there.
fn want_at(bytes: &[u8], at: usize, depth: usize) -> (want: Option<Option<Want>>)
    requires
        at <= bytes@.len(),
        parse_value(bytes@, at as int, depth as nat) is Some,
    ensures
        want == wanted(value_at(bytes@, at as int, depth as nat)),
{
    proof {
        lemma_value_kind(bytes@, at as int, depth as nat);
    }
    if bytes[at] != 0x6c {
        return None;
    }
    let ghost items = items_at(bytes@, at as int + 1, (depth - 1) as nat);
    let ghost mut done: Seq<Bencode> = Seq::empty();
    let ghost mut names: Seq<Seq<u8>> = Seq::empty();
    let mut want: Option<Want> = None;
    let mut pos: usize = at + 1;
    proof {
        assert(done + items =~= items);
    }
    loop
        invariant
            depth > 0,
            at < pos <= bytes@.len(),
            parse_items(bytes@, pos as int, (depth - 1) as nat) is Some,
            items == done + items_at(bytes@, pos as int, (depth - 1) as nat),
            all_bytes(done) == Some(names),
            want == want_of(names),
            value_at(bytes@, at as int, depth as nat) == Bencode::List(items),
        decreases bytes@.len() - pos,
    {
        proof {
            lemma_items_step(bytes@, pos as int, (depth - 1) as nat);
        }
        if bytes[pos] == 0x65 {
            proof {
                assert(done + Seq::<Bencode>::empty() =~= done);
            }
            return Some(want);
        }
        let ghost item = value_at(bytes@, pos as int, (depth - 1) as nat);
        let next = match skip_value(bytes, pos, depth - 1) {
            Some(next) => next,
            None => {
                return None;
            },
        };
        match span_at(bytes, pos, depth - 1) {
            Some((from, to)) => {
                want = want_with_name(want, slice_subrange(bytes, from, to));
                proof {
                    let name = bytes@.subrange(from as int, to as int);
                    assert(item == Bencode::Bytes(name));
                    assert(done.push(item).drop_last() =~= done);
                    assert(names.push(name).drop_last() =~= names);
                    let rest = items_at(bytes@, next as int, (depth - 1) as nat);
                    assert(done.push(item) + rest =~= done + (seq![item] + rest));
                    done = done.push(item);
                    names = names.push(name);
                }
            },
            None => {
                proof {
                    assert(items[done.len() as int] == item);
                    lemma_all_bytes_none(items, done.len() as int);
                }
                return None;
            },
        }
        pos = next;
    }
}

/// The peers that the list that is written at `at` names, if a list of
/// compact encodings of addresses is written there.
fn peers_at(bytes: &[u8], at: usize, depth: usize) -> (peers: Option<Vec<SocketAddr>>)
    requires
        at <= bytes@.len(),
        parse_value(bytes@, at as int, depth as nat) is Some,
    ensures
        match peers_of(value_at(bytes@, at as int, depth as nat)) {
            Some(p) => peers is Some && peers->0@ == p,
            None => peers is None,
        },
{
    proof {
        lemma_value_kind(bytes@, at as int, depth as nat);
    }
    if bytes[at] != 0x6c {
        return None;
    }
    let ghost items = items_at(bytes@, at as int + 1, (depth - 1) as nat);
    let ghost mut done: Seq<Bencode> = Seq::empty();
    let ghost mut encodings: Seq<Seq<u8>> = Seq::empty();
    let mut peers: Vec<SocketAddr> = Vec::new();
    let mut pos: usize = at + 1;
    proof {
        assert(done + items =~= items);
    }
    loop
        invariant
            depth > 0,
            at < pos <= bytes@.len(),
            parse_items(bytes@, pos as int, (depth - 1) as nat) is Some,
            items == done + items_at(bytes@, pos as int, (depth - 1) as nat),
            all_bytes(done) == Some(encodings),
            all_addrs(encodings) == Some(peers@),
            value_at(bytes@, at as int, depth as nat) == Bencode::List(items),
        decreases bytes@.len() - pos,
    {
        proof {
            lemma_items_step(bytes@, pos as int, (depth - 1) as nat);
        }
        if bytes[pos] == 0x65 {
            proof {
                assert(done + Seq::<Bencode>::empty() =~= done);
            }
            return Some(peers);
        }
        let ghost item = value_at(bytes@, pos as int, (depth - 1) as nat);
        let ghost rest = items_at(bytes@, pos as int, (depth - 1) as nat);
        let next = match skip_value(bytes, pos, depth - 1) {
            Some(next) => next,
            None => {
                return None;
            },
        };
        match span_at(bytes, pos, depth - 1) {
            Some((from, to)) => {
                let ghost encoding = bytes@.subrange(from as int, to as int);
                match decode_socket_addr(slice_subrange(bytes, from, to)) {
                    Some(addr) => {
                        peers.push(addr);
                        proof {
                            assert(item == Bencode::Bytes(encoding));
                            assert(done.push(item).drop_last() =~= done);
                            assert(encodings.push(encoding).drop_last() =~= encodings);
                            let after = items_at(bytes@, next as int, (depth - 1) as nat);
                            assert(done.push(item) + after =~= done + (seq![item] + after));
                            done = done.push(item);
                            encodings = encodings.push(encoding);
                        }
                    },
                    None => {
                        proof {
                            assert(items[done.len() as int] == item);
                            if all_bytes(items) is Some {
                                lemma_all_bytes_items(items);
                                let all = all_bytes(items)->0;
                                assert(items[done.len() as int] == Bencode::Bytes(
                                    all[done.len() as int],
                                ));
                                lemma_all_addrs_none(all, done.len() as int);
                            }
                        }
                        return None;
                    },
                }
            },
            None => {
                proof {
                    assert(items[done.len() as int] == item);
                    lemma_all_bytes_none(items, done.len() as int);
                }
                return None;
            },
        }
        pos = next;
    }
}

/// The nodes that the byte string that is written at `at` names, if the
/// compact encoding of a list of nodes of the address family is written
/// there.
fn nodes_at(bytes: &[u8], at: usize, depth: usize, version: IpVersion) -> (nodes: Option<
    Vec<NodeHandle>,
>)
    requires
        at <= bytes@.len(),
        parse_value(bytes@, at as int, depth as nat) is Some,
    ensures
        match nodes_of(value_at(bytes@, at as int, depth as nat), version) {
            Some(n) => nodes is Some && nodes->0@ == n,
            None => nodes is None,
        },
{
    match span_at(bytes, at, depth) {
        Some((from, to)) => match decode_nodes(slice_subrange(bytes, from, to), version) {
            Ok(nodes) => Some(nodes),
            Err(_) => None,
        },
        None => None,
    }
}

/// The error that the list that is written at `at` is, if a list of a code
/// and a text is written there.
fn error_at(bytes: &[u8], at: usize, depth: usize) -> (error: Option<Error>)
    requires
        at <= bytes@.len(),
        parse_value(bytes@, at as int, depth as nat) is Some,
    ensures
        match error_of(value_at(bytes@, at as int, depth as nat)) {
            Some(e) => error is Some && error->0@ == e,
            None => error is None,
        },
{
    proof {
        lemma_value_kind(bytes@, at as int, depth as nat);
    }
    if bytes[at] != 0x6c {
        return None;
    }
    let ghost d = (depth - 1) as nat;
    let ghost items = items_at(bytes@, at as int + 1, d);
    let first: usize = at + 1;
    proof {
        lemma_items_step(bytes@, first as int, d);
    }
    if bytes[first] == 0x65 {
        return None;
    }
    let second = match skip_value(bytes, first, depth - 1) {
        Some(next) => next,
        None => {
            return None;
        },
    };
    proof {
        lemma_items_step(bytes@, second as int, d);
    }
    if bytes[second] == 0x65 {
        assert(items =~= seq![value_at(bytes@, first as int, d)]);
        return None;
    }
    let end = match skip_value(bytes, second, depth - 1) {
        Some(next) => next,
        None => {
            return None;
        },
    };
    proof {
        lemma_items_step(bytes@, end as int, d);
        let a = value_at(bytes@, first as int, d);
        let b = value_at(bytes@, second as int, d);
        let rest = items_at(bytes@, end as int, d);
        assert(items =~= seq![a] + (seq![b] + rest));
        assert(items[0] == a);
        assert(items[1] == b);
        if bytes@[end as int] != 0x65 {
            assert(items.len() >= 3);
        } else {
            assert(items.len() == 2);
        }
    }
    if bytes[end] != 0x65 {
        return None;
    }
    let code = match small_number_at(bytes, first, depth - 1, 0xff) {
        Some(code) => code,
        None => {
            return None;
        },
    };
    let (from, to) = match span_at(bytes, second, depth - 1) {
        Some(span) => span,
        None => {
            return None;
        },
    };
    match str_from_utf8(slice_subrange(bytes, from, to)) {
        Some(text) => Some(Error { code: code as u8, message: text.to_owned() }),
        None => None,
    }
}

/// The position of the value under a name in the dictionary that is
/// written at `dict_at`.
fn entry_at(bytes: &[u8], dict_at: usize, name: Name, depth: usize) -> (found: Option<usize>)
    requires
        dict_at <= bytes@.len(),
        parse_value(bytes@, dict_at as int, depth as nat) is Some,
        value_at(bytes@, dict_at as int, depth as nat) is Dict,
    ensures
        depth > 0,
        match get(
            entries_at(bytes@, dict_at as int + 1, (depth - 1) as nat),
            name_bytes(name),
        ) {
            Some(v) => found matches Some(at) && at <= bytes@.len() && parse_value(
                bytes@,
                at as int,
                (depth - 1) as nat,
            ) is Some && value_at(bytes@, at as int, (depth - 1) as nat) == v,
            None => found is None,
        },
{
    proof {
        lemma_value_kind(bytes@, dict_at as int, depth as nat);
    }
    let key = name_vec(name);
    if dict_at >= bytes.len() {
        return None;
    }
    find_entry(bytes, dict_at + 1, key.as_slice(), depth - 1)
}

/// Whether bytes are those of a name.
fn is_name(bytes: &[u8], name: Name) -> (r: bool)
    ensures
        r == (bytes@ == name_bytes(name)),
{
    let expected = name_vec(name);
    crate::addr::bytes_equal(bytes, expected.as_slice())
}

/// The id under a name in the dictionary that is written at `dict_at`.
fn required_id_at(bytes: &[u8], dict_at: usize, name: Name, depth: usize) -> (id: Option<Id>)
    requires
        dict_at <= bytes@.len(),
        parse_value(bytes@, dict_at as int, depth as nat) is Some,
        value_at(bytes@, dict_at as int, depth as nat) is Dict,
    ensures
        depth > 0,
        id == required_id(
            get(entries_at(bytes@, dict_at as int + 1, (depth - 1) as nat), name_bytes(name)),
        ),
{
    match entry_at(bytes, dict_at, name, depth) {
        Some(at) => id_at(bytes, at, depth - 1),
        None => None,
    }
}

/// What stands under `want` in the dictionary that is written at
/// `dict_at`.
fn optional_want_at(bytes: &[u8], dict_at: usize, depth: usize) -> (want: Option<Option<Want>>)
    requires
        dict_at <= bytes@.len(),
        parse_value(bytes@, dict_at as int, depth as nat) is Some,
        value_at(bytes@, dict_at as int, depth as nat) is Dict,
    ensures
        depth > 0,
        want == optional_want(
            get(
                entries_at(bytes@, dict_at as int + 1, (depth - 1) as nat),
                name_bytes(Name::Want),
            ),
        ),
{
    match entry_at(bytes, dict_at, Name::Want, depth) {
        Some(at) => want_at(bytes, at, depth - 1),
        None => Some(None),
    }
}

/// The number from 0 to `max` under a name in the dictionary that is
/// written at `dict_at`, if the name is there.
fn optional_number_at(bytes: &[u8], dict_at: usize, name: Name, depth: usize, max: u64) -> (number:
    Option<Option<u64>>)
    requires
        dict_at <= bytes@.len(),
        parse_value(bytes@, dict_at as int, depth as nat) is Some,
        value_at(bytes@, dict_at as int, depth as nat) is Dict,
    ensures
        depth > 0,
        match optional_number(
            get(entries_at(bytes@, dict_at as int + 1, (depth - 1) as nat), name_bytes(name)),
            max as int,
        ) {
            Some(Some(n)) => number == Some(Some(n as u64)),
            Some(None) => number == Some(None::<u64>),
            None => number is None,
        },
{
    match entry_at(bytes, dict_at, name, depth) {
        Some(at) => match small_number_at(bytes, at, depth - 1, max) {
            Some(n) => Some(Some(n)),
            None => None,
        },
        None => Some(None),
    }
}

/// The byte string under a name in the dictionary that is written at
/// `dict_at`, if the name is there.
fn optional_bytes_at(bytes: &[u8], dict_at: usize, name: Name, depth: usize) -> (content: Option<
    Option<Vec<u8>>,
>)
    requires
        dict_at <= bytes@.len(),
        parse_value(bytes@, dict_at as int, depth as nat) is Some,
        value_at(bytes@, dict_at as int, depth as nat) is Dict,
    ensures
        depth > 0,
        match optional_bytes(
            get(entries_at(bytes@, dict_at as int + 1, (depth - 1) as nat), name_bytes(name)),
        ) {
            Some(Some(b)) => content matches Some(Some(c)) && c@ == b,
            Some(None) => content matches Some(None),
            None => content is None,
        },
{
    match entry_at(bytes, dict_at, name, depth) {
        Some(at) => match vec_at(bytes, at, depth - 1) {
            Some(b) => Some(Some(b)),
            None => None,
        },
        None => Some(None),
    }
}

/// The query with the given method whose arguments are the dictionary
/// that is written at `args_at`.
fn request_at(bytes: &[u8], method: &[u8], args_at: usize, depth: usize) -> (request: Option<
    Request,
>)
    requires
        args_at <= bytes@.len(),
        parse_value(bytes@, args_at as int, depth as nat) is Some,
        value_at(bytes@, args_at as int, depth as nat) is Dict,
    ensures
        depth > 0,
        match request_of(method@, entries_at(bytes@, args_at as int + 1, (depth - 1) as nat)) {
            Some(r) => request is Some && request->0@ == r,
            None => request is None,
        },
{
    let id = match required_id_at(bytes, args_at, Name::Id, depth) {
        Some(id) => id,
        None => {
            return None;
        },
    };
    if is_name(method, Name::Ping) {
        Some(Request::Ping(PingRequest { id }))
    } else if is_name(method, Name::FindNode) {
        let target = required_id_at(bytes, args_at, Name::Target, depth);
        let want = optional_want_at(bytes, args_at, depth);
        match (target, want) {
            (Some(target), Some(want)) => Some(
                Request::FindNode(FindNodeRequest { id, target, want }),
            ),
            _ => None,
        }
    } else if is_name(method, Name::GetPeers) {
        let info_hash = required_id_at(bytes, args_at, Name::InfoHash, depth);
        let want = optional_want_at(bytes, args_at, depth);
        match (info_hash, want) {
            (Some(info_hash), Some(want)) => Some(
                Request::GetPeers(GetPeersRequest { id, info_hash, want }),
            ),
            _ => None,
        }
    } else if is_name(method, Name::AnnouncePeer) {
        let info_hash = required_id_at(bytes, args_at, Name::InfoHash, depth);
        let token = optional_bytes_at(bytes, args_at, Name::Token, depth);
        let port = optional_number_at(bytes, args_at, Name::Port, depth, 0xffff);
        let implied = optional_number_at(bytes, args_at, Name::ImpliedPort, depth, 0xff);
        match (info_hash, token, port, implied) {
            (Some(info_hash), Some(Some(token)), Some(port), Some(implied)) => {
                let given: Option<u16> = match port {
                    Some(p) => Some(p as u16),
                    None => None,
                };
                let is_implied = match implied {
                    Some(n) => n > 0,
                    None => false,
                };
                match crate::message::utils::port_from_fields(given, is_implied) {
                    Ok(port) => Some(
                        Request::AnnouncePeer(AnnouncePeerRequest { id, info_hash, port, token }),
                    ),
                    Err(_) => None,
                }
            },
            _ => None,
        }
    } else {
        None
    }
}

/// The nodes under a name in the dictionary that is written at
/// `dict_at`: none if the name is not there.
fn optional_nodes_at(
    bytes: &[u8],
    dict_at: usize,
    name: Name,
    depth: usize,
    version: IpVersion,
) -> (nodes: Option<Vec<NodeHandle>>)
    requires
        dict_at <= bytes@.len(),
        parse_value(bytes@, dict_at as int, depth as nat) is Some,
        value_at(bytes@, dict_at as int, depth as nat) is Dict,
    ensures
        depth > 0,
        match optional_nodes(
            get(entries_at(bytes@, dict_at as int + 1, (depth - 1) as nat), name_bytes(name)),
            version,
        ) {
            Some(n) => nodes is Some && nodes->0@ == n,
            None => nodes is None,
        },
{
    match entry_at(bytes, dict_at, name, depth) {
        Some(at) => nodes_at(bytes, at, depth - 1, version),
        None => Some(Vec::new()),
    }
}

/// The response whose fields are the dictionary that is written at
/// `fields_at`.
fn response_at(bytes: &[u8], fields_at: usize, depth: usize) -> (response: Option<Response>)
    requires
        fields_at <= bytes@.len(),
        parse_value(bytes@, fields_at as int, depth as nat) is Some,
        value_at(bytes@, fields_at as int, depth as nat) is Dict,
    ensures
        depth > 0,
        match response_of(entries_at(bytes@, fields_at as int + 1, (depth - 1) as nat)) {
            Some(r) => response is Some && response->0@ == r,
            None => response is None,
        },
{
    let id = required_id_at(bytes, fields_at, Name::Id, depth);
    let values = match entry_at(bytes, fields_at, Name::Values, depth) {
        Some(at) => peers_at(bytes, at, depth - 1),
        None => Some(Vec::new()),
    };
    let nodes_v4 = optional_nodes_at(bytes, fields_at, Name::Nodes, depth, IpVersion::V4);
    let nodes_v6 = optional_nodes_at(bytes, fields_at, Name::Nodes6, depth, IpVersion::V6);
    let token = optional_bytes_at(bytes, fields_at, Name::Token, depth);
    match (id, values, nodes_v4, nodes_v6, token) {
        (Some(id), Some(values), Some(nodes_v4), Some(nodes_v6), Some(token)) => Some(
            Response { id, values, nodes_v4, nodes_v6, token },
        ),
        _ => None,
    }
}

/// The body of the message that the dictionary that is written at the
/// start of `bytes` is.
fn body_at(bytes: &[u8]) -> (body: Option<MessageBody>)
    requires
        parse_value(bytes@, 0, MAX_DEPTH as nat) is Some,
        value_at(bytes@, 0, MAX_DEPTH as nat) is Dict,
    ensures
        match body_of(entries_at(bytes@, 1, (MAX_DEPTH - 1) as nat)) {
            Some(b) => body is Some && body->0@ == b,
            None => body is None,
        },
{
    let depth: usize = MAX_DEPTH;
    let ghost entries = entries_at(bytes@, 1, (MAX_DEPTH - 1) as nat);
    let kind_at = match entry_at(bytes, 0, Name::Y, depth) {
        Some(at) => at,
        None => {
            return None;
        },
    };
    let (kind_from, kind_to) = match span_at(bytes, kind_at, depth - 1) {
        Some(span) => span,
        None => {
            return None;
        },
    };
    let kind = slice_subrange(bytes, kind_from, kind_to);
    if is_name(kind, Name::Q) {
        let method_at = entry_at(bytes, 0, Name::Q, depth);
        let args_at = entry_at(bytes, 0, Name::A, depth);
        match (method_at, args_at) {
            (Some(method_at), Some(args_at)) => {
                let (from, to) = match span_at(bytes, method_at, depth - 1) {
                    Some(span) => span,
                    None => {
                        return None;
                    },
                };
                proof {
                    lemma_value_kind(bytes@, args_at as int, (depth - 1) as nat);
                }
                if bytes[args_at] != 0x64 {
                    return None;
                }
                match request_at(bytes, slice_subrange(bytes, from, to), args_at, depth - 1) {
                    Some(request) => Some(MessageBody::Request(request)),
                    None => None,
                }
            },
            _ => None,
        }
    } else if is_name(kind, Name::R) {
        match entry_at(bytes, 0, Name::R, depth) {
            Some(fields_at) => {
                proof {
                    lemma_value_kind(bytes@, fields_at as int, (depth - 1) as nat);
                }
                if bytes[fields_at] != 0x64 {
                    return None;
                }
                match response_at(bytes, fields_at, depth - 1) {
                    Some(response) => Some(MessageBody::Response(response)),
                    None => None,
                }
            },
            None => None,
        }
    } else if is_name(kind, Name::E) {
        match entry_at(bytes, 0, Name::E, depth) {
            Some(error_pos) => match error_at(bytes, error_pos, depth - 1) {
                Some(error) => Some(MessageBody::Error(error)),
                None => None,
            },
            None => None,
        }
    } else {
        None
    }
}

impl Message {
    /// The message that bytes from the wire are. Fails if the bytes are
    /// no bencoded dictionary and nothing more, if the dictionary lacks
    /// what its kind of message needs, or if a value in it is not of the
    /// kind or length that its key asks for. Keys that no message has are
    /// passed over.
    pub fn decode(bytes: &[u8]) -> (r: Result<Message, ProtocolError>)
        ensures
            match r {
                Ok(message) => decoded(bytes@) == Some(message@),
                Err(_) => decoded(bytes@) is None,
            },
    {
        match skip_value(bytes, 0, MAX_DEPTH) {
            Some(end) => {
                if end != bytes.len() {
                    return Err(ProtocolError);
                }
            },
            None => {
                return Err(ProtocolError);
            },
        }
        proof {
            lemma_value_kind(bytes@, 0, MAX_DEPTH as nat);
        }
        if bytes[0] != 0x64 {
            return Err(ProtocolError);
        }
        let transaction_id = match entry_at(bytes, 0, Name::T, MAX_DEPTH) {
            Some(at) => match vec_at(bytes, at, MAX_DEPTH - 1) {
                Some(id) => id,
                None => {
                    return Err(ProtocolError);
                },
            },
            None => {
                return Err(ProtocolError);
            },
        };
        match body_at(bytes) {
            Some(body) => Ok(Message { transaction_id, body }),
            None => Err(ProtocolError),
        }
    }

    /// The transaction id of the query that the bytes would be if they
    /// were a message: see `malformed_query`.
    pub fn malformed_query(bytes: &[u8]) -> (r: Option<Vec<u8>>)
        ensures
            match malformed_query(bytes@) {
                Some(transaction_id) => r matches Some(id) && id@ == transaction_id,
                None => r is None,
            },
    {
        match skip_value(bytes, 0, MAX_DEPTH) {
            Some(end) => {
                if end != bytes.len() {
                    return None;
                }
            },
            None => {
                return None;
            },
        }
        proof {
            lemma_value_kind(bytes@, 0, MAX_DEPTH as nat);
        }
        if bytes[0] != 0x64 {
            return None;
        }
        let transaction_id = match entry_at(bytes, 0, Name::T, MAX_DEPTH) {
            Some(at) => match vec_at(bytes, at, MAX_DEPTH - 1) {
                Some(id) => id,
                None => {
                    return None;
                },
            },
            None => {
                return None;
            },
        };
        let kind_at = match entry_at(bytes, 0, Name::Y, MAX_DEPTH) {
            Some(at) => at,
            None => {
                return None;
            },
        };
        let (from, to) = match span_at(bytes, kind_at, MAX_DEPTH - 1) {
            Some(span) => span,
            None => {
                return None;
            },
        };
        if !is_name(slice_subrange(bytes, from, to), Name::Q) {
            return None;
        }
        match body_at(bytes) {
            Some(_) => None,
            None => Some(transaction_id),
        }
    }
}

} // verus!
