use bt_rust_dht::addr::{IpAddr, SocketAddr};
use bt_rust_dht::id::{InfoHash, NodeId};
use bt_rust_dht::message::codec::ProtocolError;
use bt_rust_dht::message::error_code;
use bt_rust_dht::message::{
    AnnouncePeerRequest, Error, FindNodeRequest, GetPeersRequest, Message, MessageBody,
    PingRequest, Request, Response, Want,
};
use bt_rust_dht::routing::node::NodeHandle;

fn v6_addr(port: u16) -> SocketAddr {
    SocketAddr::new(IpAddr::V6(*b"abcdefghijklmnop"), port)
}

fn assert_serialize_deserialize(encoded: &str, decoded: &Message) {
    let l_encoded = String::from_utf8(decoded.encode()).unwrap();
    assert_eq!(l_encoded, encoded);
    let r_decoded = Message::decode(encoded.as_bytes()).unwrap();
    assert_eq!(r_decoded, *decoded);
}

#[test]
fn serialize_ping_request() {
    let encoded = "d1:ad2:id20:abcdefghij0123456789e1:q4:ping1:t2:aa1:y1:qe";
    let decoded = Message {
        transaction_id: b"aa".to_vec(),
        body: MessageBody::Request(Request::Ping(PingRequest {
            id: NodeId::from(*b"abcdefghij0123456789"),
        })),
    };

    assert_serialize_deserialize(encoded, &decoded)
}

#[test]
fn serialize_find_node_request() {
    let encoded = "d1:ad2:id20:abcdefghij01234567896:target20:mnopqrstuvwxyz123456e1:q9:find_node1:t2:aa1:y1:qe";
    let decoded = Message {
        transaction_id: b"aa".to_vec(),
        body: MessageBody::Request(Request::FindNode(FindNodeRequest {
            id: NodeId::from(*b"abcdefghij0123456789"),
            target: NodeId::from(*b"mnopqrstuvwxyz123456"),
            want: None,
        })),
    };

    assert_serialize_deserialize(encoded, &decoded)
}

#[test]
fn serialize_find_node_request_with_want() {
    let encoded = "d1:ad2:id20:abcdefghij01234567896:target20:mnopqrstuvwxyz1234564:wantl2:n42:n6ee1:q9:find_node1:t2:aa1:y1:qe";
    let decoded = Message {
        transaction_id: b"aa".to_vec(),
        body: MessageBody::Request(Request::FindNode(FindNodeRequest {
            id: NodeId::from(*b"abcdefghij0123456789"),
            target: NodeId::from(*b"mnopqrstuvwxyz123456"),
            want: Some(Want::Both),
        })),
    };

    assert_serialize_deserialize(encoded, &decoded)
}

#[test]
fn serialize_get_peers_request() {
    let encoded = "d1:ad2:id20:abcdefghij01234567899:info_hash20:mnopqrstuvwxyz123456e1:q9:get_peers1:t2:aa1:y1:qe";
    let decoded = Message {
        transaction_id: b"aa".to_vec(),
        body: MessageBody::Request(Request::GetPeers(GetPeersRequest {
            id: NodeId::from(*b"abcdefghij0123456789"),
            info_hash: InfoHash::from(*b"mnopqrstuvwxyz123456"),
            want: None,
        })),
    };

    assert_serialize_deserialize(encoded, &decoded)
}

#[test]
fn serialize_get_peers_request_with_want() {
    let encoded = "d1:ad2:id20:abcdefghij01234567899:info_hash20:mnopqrstuvwxyz1234564:wantl2:n4ee1:q9:get_peers1:t2:aa1:y1:qe";
    let decoded = Message {
        transaction_id: b"aa".to_vec(),
        body: MessageBody::Request(Request::GetPeers(GetPeersRequest {
            id: NodeId::from(*b"abcdefghij0123456789"),
            info_hash: InfoHash::from(*b"mnopqrstuvwxyz123456"),
            want: Some(Want::V4),
        })),
    };

    assert_serialize_deserialize(encoded, &decoded)
}

#[test]
fn serialize_announce_peer_request_with_implied_port() {
    let encoded = "d1:ad2:id20:abcdefghij012345678912:implied_porti1e9:info_hash20:mnopqrstuvwxyz1234565:token8:aoeusnthe1:q13:announce_peer1:t2:aa1:y1:qe";
    let decoded = Message {
        transaction_id: b"aa".to_vec(),
        body: MessageBody::Request(Request::AnnouncePeer(AnnouncePeerRequest {
            id: NodeId::from(*b"abcdefghij0123456789"),
            port: None,
            info_hash: InfoHash::from(*b"mnopqrstuvwxyz123456"),
            token: b"aoeusnth".to_vec(),
        })),
    };

    assert_serialize_deserialize(encoded, &decoded);
}

#[test]
fn serialize_announce_peer_request_with_explicit_port() {
    let encoded = "d1:ad2:id20:abcdefghij01234567899:info_hash20:mnopqrstuvwxyz1234564:porti6881e5:token8:aoeusnthe1:q13:announce_peer1:t2:aa1:y1:qe";
    let decoded = Message {
        transaction_id: b"aa".to_vec(),
        body: MessageBody::Request(Request::AnnouncePeer(AnnouncePeerRequest {
            id: NodeId::from(*b"abcdefghij0123456789"),
            port: Some(6881),
            info_hash: InfoHash::from(*b"mnopqrstuvwxyz123456"),
            token: b"aoeusnth".to_vec(),
        })),
    };

    assert_serialize_deserialize(encoded, &decoded);
}

#[test]
fn serialize_other_response_none() {
    let encoded = "d1:rd2:id20:mnopqrstuvwxyz123456e1:t2:aa1:y1:re";
    let decoded = Message {
        transaction_id: b"aa".to_vec(),
        body: MessageBody::Response(Response {
            id: NodeId::from(*b"mnopqrstuvwxyz123456"),
            values: vec![],
            nodes_v4: vec![],
            nodes_v6: vec![],
            token: None,
        }),
    };

    assert_serialize_deserialize(encoded, &decoded);
}

#[test]
fn serialize_other_response_v4() {
    let encoded =
        "d1:rd2:id20:0123456789abcdefghij5:nodes26:mnopqrstuvwxyz012345axje.ue1:t2:aa1:y1:re";
    let decoded = Message {
        transaction_id: b"aa".to_vec(),
        body: MessageBody::Response(Response {
            id: NodeId::from(*b"0123456789abcdefghij"),
            values: vec![],
            nodes_v4: vec![NodeHandle {
                id: NodeId::from(*b"mnopqrstuvwxyz012345"),
                addr: SocketAddr::v4(97, 120, 106, 101, 11893),
            }],
            nodes_v6: vec![],
            token: None,
        }),
    };

    assert_serialize_deserialize(encoded, &decoded);
}

#[test]
fn serialize_other_response_v6() {
    let encoded =
        "d1:rd2:id20:0123456789abcdefghij6:nodes638:mnopqrstuvwxyz012345abcdefghijklmnop.ue1:t2:aa1:y1:re";
    let decoded = Message {
        transaction_id: b"aa".to_vec(),
        body: MessageBody::Response(Response {
            id: NodeId::from(*b"0123456789abcdefghij"),
            values: vec![],
            nodes_v4: vec![],
            nodes_v6: vec![NodeHandle {
                id: NodeId::from(*b"mnopqrstuvwxyz012345"),
                addr: v6_addr(11893),
            }],
            token: None,
        }),
    };

    assert_serialize_deserialize(encoded, &decoded);
}

#[test]
fn serialize_other_response_both() {
    let encoded =
        "d1:rd2:id20:0123456789abcdefghij5:nodes26:mnopqrstuvwxyz012345axje.u6:nodes638:6789abcdefghijklmnopabcdefghijklmnop.ue1:t2:aa1:y1:re";
    let decoded = Message {
        transaction_id: b"aa".to_vec(),
        body: MessageBody::Response(Response {
            id: NodeId::from(*b"0123456789abcdefghij"),
            values: vec![],
            nodes_v4: vec![NodeHandle {
                id: NodeId::from(*b"mnopqrstuvwxyz012345"),
                addr: SocketAddr::v4(97, 120, 106, 101, 11893),
            }],
            nodes_v6: vec![NodeHandle {
                id: NodeId::from(*b"6789abcdefghijklmnop"),
                addr: v6_addr(11893),
            }],
            token: None,
        }),
    };

    assert_serialize_deserialize(encoded, &decoded);
}

#[test]
fn serialize_get_peers_response_with_values() {
    let encoded = "d1:rd2:id20:abcdefghij01234567895:token8:aoeusnth6:valuesl6:axje.u6:idhtnmee1:t2:aa1:y1:re";
    let decoded = Message {
        transaction_id: b"aa".to_vec(),
        body: MessageBody::Response(Response {
            id: NodeId::from(*b"abcdefghij0123456789"),
            values: vec![
                SocketAddr::v4(97, 120, 106, 101, 11893),
                SocketAddr::v4(105, 100, 104, 116, 28269),
            ],
            nodes_v4: vec![],
            nodes_v6: vec![],
            token: Some(b"aoeusnth".to_vec()),
        }),
    };

    assert_serialize_deserialize(encoded, &decoded);
}

#[test]
fn serialize_get_peers_response_with_nodes_v4() {
    let encoded =
        "d1:rd2:id20:abcdefghij01234567895:nodes52:mnopqrstuvwxyz123456axje.u789abcdefghijklmnopqidhtnm5:token8:aoeusnthe1:t2:aa1:y1:re";
    let decoded = Message {
        transaction_id: b"aa".to_vec(),
        body: MessageBody::Response(Response {
            id: NodeId::from(*b"abcdefghij0123456789"),
            values: vec![],
            nodes_v4: vec![
                NodeHandle {
                    id: NodeId::from(*b"mnopqrstuvwxyz123456"),
                    addr: SocketAddr::v4(97, 120, 106, 101, 11893),
                },
                NodeHandle {
                    id: NodeId::from(*b"789abcdefghijklmnopq"),
                    addr: SocketAddr::v4(105, 100, 104, 116, 28269),
                },
            ],
            nodes_v6: vec![],
            token: Some(b"aoeusnth".to_vec()),
        }),
    };

    assert_serialize_deserialize(encoded, &decoded);
}

#[test]
fn serialize_error() {
    let encoded = "d1:eli201e23:A Generic Error Ocurrede1:t2:aa1:y1:ee";
    let decoded = Message {
        transaction_id: b"aa".to_vec(),
        body: MessageBody::Error(Error {
            code: error_code::GENERIC_ERROR,
            message: "A Generic Error Ocurred".to_owned(),
        }),
    };

    assert_serialize_deserialize(encoded, &decoded);
}

#[test]
fn error_codes() {
    assert_eq!(error_code::GENERIC_ERROR, 201);
    assert_eq!(error_code::SERVER_ERROR, 202);
    assert_eq!(error_code::PROTOCOL_ERROR, 203);
    assert_eq!(error_code::METHOD_UNKNOWN, 204);
}

#[test]
fn decode_passes_over_unknown_keys_in_any_order() {
    let ping = Message {
        transaction_id: b"aa".to_vec(),
        body: MessageBody::Request(Request::Ping(PingRequest {
            id: NodeId::from(*b"abcdefghij0123456789"),
        })),
    };
    let with_version = "d1:y1:q1:v4:UT\u{1}\u{2}1:t2:aa1:q4:ping1:ad2:id20:abcdefghij01234567893:fooli1eld1:xi-7eeeee2:zzd1:ali1eeee";
    assert_eq!(Message::decode(with_version.as_bytes()), Ok(ping));
}

#[test]
fn decode_prefers_the_implied_port() {
    let encoded = "d1:ad2:id20:abcdefghij012345678912:implied_porti1e9:info_hash20:mnopqrstuvwxyz1234564:porti6881e5:token8:aoeusnthe1:q13:announce_peer1:t2:aa1:y1:qe";
    let message = Message::decode(encoded.as_bytes()).unwrap();
    match message.body {
        MessageBody::Request(Request::AnnouncePeer(announce)) => assert_eq!(announce.port, None),
        _ => panic!("an announce was sent"),
    }
    // An implied port of 0 is none.
    let encoded = "d1:ad2:id20:abcdefghij012345678912:implied_porti0e9:info_hash20:mnopqrstuvwxyz1234564:porti6881e5:token8:aoeusnthe1:q13:announce_peer1:t2:aa1:y1:qe";
    let message = Message::decode(encoded.as_bytes()).unwrap();
    match message.body {
        MessageBody::Request(Request::AnnouncePeer(announce)) => {
            assert_eq!(announce.port, Some(6881))
        }
        _ => panic!("an announce was sent"),
    }
    // Neither port nor implied port.
    let encoded = "d1:ad2:id20:abcdefghij01234567899:info_hash20:mnopqrstuvwxyz1234565:token8:aoeusnthe1:q13:announce_peer1:t2:aa1:y1:qe";
    assert_eq!(Message::decode(encoded.as_bytes()), Err(ProtocolError));
}

#[test]
fn decode_want_takes_both_cases_and_spaces() {
    let encoded = "d1:ad2:id20:abcdefghij01234567899:info_hash20:mnopqrstuvwxyz1234564:wantl4: N6 2:xx2:N4ee1:q9:get_peers1:t2:aa1:y1:qe";
    let message = Message::decode(encoded.as_bytes()).unwrap();
    match message.body {
        MessageBody::Request(Request::GetPeers(get_peers)) => {
            assert_eq!(get_peers.want, Some(Want::Both))
        }
        _ => panic!("get_peers was sent"),
    }
    let encoded = "d1:ad2:id20:abcdefghij01234567899:info_hash20:mnopqrstuvwxyz1234564:wantlee1:q9:get_peers1:t2:aa1:y1:qe";
    let message = Message::decode(encoded.as_bytes()).unwrap();
    match message.body {
        MessageBody::Request(Request::GetPeers(get_peers)) => assert_eq!(get_peers.want, None),
        _ => panic!("get_peers was sent"),
    }
}

#[test]
fn decode_fails_on_what_is_no_message() {
    let bad: Vec<&[u8]> = vec![
        // Malformed bencoding.
        b"",
        b"d",
        b"d1:t2:aa1:y1:q",
        b"i1e",
        b"le",
        b"2:aa",
        b"d1:rd2:id20:mnopqrstuvwxyz123456e1:t2:aa1:y1:ree",
        b"d1:rd2:id20:mnopqrstuvwxyz123456e1:t02:aa1:y1:re",
        b"d1:rd2:id20:mnopqrstuvwxyz123456e1:t2:aa1:xi-0e1:y1:re",
        b"d1:rd2:id20:mnopqrstuvwxyz123456e1:t2:aa1:xi01e1:y1:re",
        b"d1:rd2:id20:mnopqrstuvwxyz123456e1:t2:aa1:xllllllllleeeeeeeee1:y1:re",
        b"d1:rd2:id20:mnopqrstuvwxyz123456e1:t9:aa1:y1:re",
        // Wrong container shape.
        b"d1:rd2:id20:mnopqrstuvwxyz123456e1:y1:re",
        b"d1:rd2:id20:mnopqrstuvwxyz123456e1:t2:aae",
        b"d1:rd2:id20:mnopqrstuvwxyz123456e1:ti5e1:y1:re",
        b"d1:rd2:id20:mnopqrstuvwxyz123456e1:t2:aa1:y1:xe",
        b"d1:rl2:id20:mnopqrstuvwxyz123456e1:t2:aa1:y1:re",
        b"d1:t2:aa1:y1:re",
        b"d1:ad2:id20:abcdefghij0123456789e1:q4:pong1:t2:aa1:y1:qe",
        b"d1:ad2:id20:abcdefghij0123456789e1:t2:aa1:y1:qe",
        b"d1:ade1:q4:ping1:t2:aa1:y1:qe",
        b"d1:ad2:id20:abcdefghij01234567896:target20:mnopqrstuvwxyz1234564:want2:n4e1:q9:find_node1:t2:aa1:y1:qe",
        b"d1:ad2:id20:abcdefghij01234567899:info_hash20:mnopqrstuvwxyz1234564:porti65536e5:token8:aoeusnthe1:q13:announce_peer1:t2:aa1:y1:qe",
        b"d1:ad2:id20:abcdefghij01234567899:info_hash20:mnopqrstuvwxyz1234564:porti-1e5:token8:aoeusnthe1:q13:announce_peer1:t2:aa1:y1:qe",
        b"d1:ad2:id20:abcdefghij01234567899:info_hash20:mnopqrstuvwxyz1234564:porti6881ee1:q13:announce_peer1:t2:aa1:y1:qe",
        b"d1:eli201ee1:t2:aa1:y1:ee",
        b"d1:eli201e1:a1:be1:t2:aa1:y1:ee",
        b"d1:eli256e1:ae1:t2:aa1:y1:ee",
        b"d1:el1:ai201ee1:t2:aa1:y1:ee",
        b"d1:eli201e2:\xff\xfee1:t2:aa1:y1:ee",
        // Lengths that fit no id, address or list of nodes.
        b"d1:ad2:id19:abcdefghij012345678e1:q4:ping1:t2:aa1:y1:qe",
        b"d1:rd2:id21:mnopqrstuvwxyz1234567e1:t2:aa1:y1:re",
        b"d1:rd2:id20:0123456789abcdefghij5:nodes25:mnopqrstuvwxyz012345axje.e1:t2:aa1:y1:re",
        b"d1:rd2:id20:0123456789abcdefghij6:nodes626:mnopqrstuvwxyz012345axje.ue1:t2:aa1:y1:re",
        b"d1:rd2:id20:abcdefghij01234567896:valuesl5:axje.ee1:t2:aa1:y1:re",
        b"d1:rd2:id20:abcdefghij01234567896:valuesli1eee1:t2:aa1:y1:re",
    ];
    for bytes in bad {
        assert_eq!(Message::decode(bytes), Err(ProtocolError), "{:?}", String::from_utf8_lossy(bytes));
    }
}

#[test]
fn round_trip_of_messages_built_by_hand() {
    let id = NodeId::from([9u8; 20]);
    let messages = vec![
        Message::find_node(vec![0, 1, 2, 3, 4, 5, 6, 7], id, NodeId::from([0xffu8; 20])),
        Message::get_peers(vec![], id, InfoHash::sha1(b"foo")),
        Message::announce_peer(vec![255; 300], id, InfoHash::sha1(b"foo"), Some(0), vec![]),
        Message::announce_peer(vec![1], id, InfoHash::sha1(b"foo"), Some(65535), vec![0; 70]),
        Message::announce_peer(vec![1], id, InfoHash::sha1(b"foo"), None, b"e".to_vec()),
        Message {
            transaction_id: b"e".to_vec(),
            body: MessageBody::Error(Error { code: 0, message: String::new() }),
        },
        Message {
            transaction_id: b"12345678".to_vec(),
            body: MessageBody::Error(Error { code: 255, message: "größer ☃".to_owned() }),
        },
        Message {
            transaction_id: b"tt".to_vec(),
            body: MessageBody::Response(Response {
                id,
                values: vec![v6_addr(1), SocketAddr::v4(1, 2, 3, 4, 5), v6_addr(6)],
                nodes_v4: vec![],
                nodes_v6: vec![NodeHandle { id, addr: v6_addr(0) }; 3],
                token: Some(vec![]),
            }),
        },
    ];
    for message in messages {
        assert_eq!(Message::decode(&message.encode()), Ok(message));
    }
}
