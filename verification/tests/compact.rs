use bt_rust_dht::addr::{IpAddr, IpVersion, SocketAddr};
use bt_rust_dht::compact::{
    decode_nodes, decode_socket_addr, encode_nodes, encode_socket_addr, nodes_v4, nodes_v6, values,
};
use bt_rust_dht::id::{LengthError, NodeId};
use bt_rust_dht::routing::node::NodeHandle;

#[test]
fn compact_v4_address() {
    let addr = SocketAddr::v4(97, 120, 106, 101, 11893);
    assert_eq!(encode_socket_addr(&addr), b"axje.u".to_vec());
    assert_eq!(decode_socket_addr(b"axje.u"), Some(addr));
    let addr = SocketAddr::v4(255, 0, 1, 2, 0x1234);
    assert_eq!(encode_socket_addr(&addr), vec![255, 0, 1, 2, 0x12, 0x34]);
    assert_eq!(decode_socket_addr(&[255, 0, 1, 2, 0x12, 0x34]), Some(addr));
    assert_eq!(addr.ip(), IpAddr::V4([255, 0, 1, 2]));
    assert_eq!(addr.port(), 0x1234);
    assert_eq!(addr.version(), IpVersion::V4);
}

#[test]
fn compact_v6_address() {
    let addr = SocketAddr::new(IpAddr::V6(*b"abcdefghijklmnop"), 11893);
    assert_eq!(encode_socket_addr(&addr), b"abcdefghijklmnop.u".to_vec());
    assert_eq!(decode_socket_addr(b"abcdefghijklmnop.u"), Some(addr));
    assert_eq!(addr.version(), IpVersion::V6);
}

#[test]
fn compact_address_of_wrong_length() {
    assert_eq!(decode_socket_addr(b""), None);
    assert_eq!(decode_socket_addr(b"axje."), None);
    assert_eq!(decode_socket_addr(b"axje.uu"), None);
    assert_eq!(decode_socket_addr(&[0; 17]), None);
    assert_eq!(decode_socket_addr(&[0; 19]), None);
}

#[test]
fn every_port_survives_the_round_trip() {
    for port in [0u16, 1, 255, 256, 257, 6881, 0x7fff, 0x8000, 0xff00, 0xffff] {
        let v4 = SocketAddr::v4(10, 0, 0, 1, port);
        assert_eq!(decode_socket_addr(&encode_socket_addr(&v4)), Some(v4));
        let v6 = SocketAddr::new(IpAddr::V6([0xfe; 16]), port);
        assert_eq!(decode_socket_addr(&encode_socket_addr(&v6)), Some(v6));
    }
}

#[test]
fn compact_nodes() {
    let nodes = vec![
        NodeHandle::new(NodeId::from(*b"mnopqrstuvwxyz123456"), SocketAddr::v4(97, 120, 106, 101, 11893)),
        NodeHandle::new(NodeId::from(*b"789abcdefghijklmnopq"), SocketAddr::v4(105, 100, 104, 116, 28269)),
    ];
    let bytes = b"mnopqrstuvwxyz123456axje.u789abcdefghijklmnopqidhtnm".to_vec();
    assert_eq!(nodes_v4::serialize(&nodes), Ok(bytes.clone()));
    assert_eq!(nodes_v4::deserialize(&bytes), Ok(nodes.clone()));
    assert_eq!(encode_nodes(&nodes, IpVersion::V4), Ok(bytes.clone()));
    assert_eq!(decode_nodes(&bytes, IpVersion::V4), Ok(nodes.clone()));
    // Nodes of the other family and lengths that are no multiple.
    assert_eq!(nodes_v6::serialize(&nodes), Err(LengthError));
    assert_eq!(nodes_v6::deserialize(&bytes), Err(LengthError));
    assert_eq!(nodes_v4::deserialize(&bytes[1..]), Err(LengthError));
    assert_eq!(nodes_v4::deserialize(&[]), Ok(vec![]));
    assert_eq!(nodes_v4::serialize(&[]), Ok(vec![]));

    let v6 = vec![NodeHandle::new(
        NodeId::from(*b"6789abcdefghijklmnop"),
        SocketAddr::new(IpAddr::V6(*b"abcdefghijklmnop"), 11893),
    )];
    let bytes = b"6789abcdefghijklmnopabcdefghijklmnop.u".to_vec();
    assert_eq!(nodes_v6::serialize(&v6), Ok(bytes.clone()));
    assert_eq!(nodes_v6::deserialize(&bytes), Ok(v6.clone()));
    assert_eq!(nodes_v4::serialize(&v6), Err(LengthError));
}

#[test]
fn compact_values() {
    let addrs = vec![
        SocketAddr::v4(97, 120, 106, 101, 11893),
        SocketAddr::new(IpAddr::V6(*b"abcdefghijklmnop"), 11893),
    ];
    let items = vec![b"axje.u".to_vec(), b"abcdefghijklmnop.u".to_vec()];
    assert_eq!(values::serialize(&addrs), items);
    assert_eq!(values::deserialize(&items), Ok(addrs));
    assert_eq!(values::deserialize(&vec![b"axje.u".to_vec(), b"axje.".to_vec()]), Err(LengthError));
    assert_eq!(values::deserialize(&vec![]), Ok(vec![]));
}
