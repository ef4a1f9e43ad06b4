//! Network addresses as plain values: the bytes of an IP address and a port.

use vstd::prelude::*;

verus! {

/// Whether two byte strings hold the same bytes.
pub fn bytes_equal(a: &[u8], b: &[u8]) -> (r: bool)
    ensures
        r == (a@ == b@),
{
    if a.len() != b.len() {
        return false;
    }
    let mut i: usize = 0;
    while i < a.len()
        invariant
            i <= a.len(),
            a@.len() == b@.len(),
            forall|j: int| 0 <= j < i ==> a@[j] == b@[j],
        decreases a.len() - i,
    {
        if a[i] != b[i] {
            return false;
        }
        i += 1;
    }
    assert(a@ =~= b@);
    true
}

/// A copy of a byte string.
pub fn copy_bytes(bytes: &Vec<u8>) -> (copy: Vec<u8>)
    ensures
        copy@ == bytes@,
{
    let mut copy: Vec<u8> = Vec::new();
    let mut i: usize = 0;
    while i < bytes.len()
        invariant
            i <= bytes@.len(),
            copy@ == bytes@.take(i as int),
        decreases bytes@.len() - i,
    {
        copy.push(bytes[i]);
        assert(copy@ =~= bytes@.take(i as int + 1));
        i += 1;
    }
    assert(bytes@.take(bytes@.len() as int) =~= bytes@);
    copy
}

/// Which of the two address families an address or a node belongs to.
#[derive(Copy, Clone, Debug, PartialEq, Eq, Hash, Structural)]
pub enum IpVersion {
    V4,
    V6,
}

/// An IP address: its bytes in network order.
#[derive(Copy, Clone, Debug, Hash)]
pub enum IpAddr {
    V4([u8; 4]),
    V6([u8; 16]),
}

impl IpAddr {
    /// The family of the address.
    pub open spec fn version_spec(&self) -> IpVersion {
        match self {
            IpAddr::V4(_) => IpVersion::V4,
            IpAddr::V6(_) => IpVersion::V6,
        }
    }

    /// The bytes of the address in network order: 4 or 16 of them.
    pub open spec fn octets_spec(&self) -> Seq<u8> {
        match self {
            IpAddr::V4(b) => b@,
            IpAddr::V6(b) => b@,
        }
    }

    /// The family of the address.
    pub fn version(&self) -> (v: IpVersion)
        ensures
            v == self.version_spec(),
    {
        match self {
            IpAddr::V4(_) => IpVersion::V4,
            IpAddr::V6(_) => IpVersion::V6,
        }
    }

    /// Whether two addresses are of the same family and hold the same bytes.
    pub fn same(&self, other: &IpAddr) -> (r: bool)
        ensures
            r == (*self == *other),
    {
        match (self, other) {
            (IpAddr::V4(a), IpAddr::V4(b)) => {
                let r = bytes_equal(a.as_slice(), b.as_slice());
                proof {
                    if r {
                        assert(*a =~= *b);
                    }
                }
                r
            },
            (IpAddr::V6(a), IpAddr::V6(b)) => {
                let r = bytes_equal(a.as_slice(), b.as_slice());
                proof {
                    if r {
                        assert(*a =~= *b);
                    }
                }
                r
            },
            _ => false,
        }
    }
}

impl PartialEq for IpAddr {
    fn eq(&self, other: &IpAddr) -> (r: bool) {
        self.same(other)
    }
}

impl vstd::std_specs::cmp::PartialEqSpecImpl for IpAddr {
    open spec fn obeys_eq_spec() -> bool {
        true
    }

    open spec fn eq_spec(&self, other: &IpAddr) -> bool {
        *self == *other
    }
}

impl Eq for IpAddr {

}

/// An IP address and a port.
#[derive(Copy, Clone, Debug, Hash)]
pub struct SocketAddr {
    pub ip: IpAddr,
    pub port: u16,
}

impl SocketAddr {
    /// The address made of an IP address and a port.
    pub fn new(ip: IpAddr, port: u16) -> (addr: SocketAddr)
        ensures
            addr == (SocketAddr { ip, port }),
    {
        SocketAddr { ip, port }
    }

    /// The IPv4 address `a.b.c.d` with a port.
    pub fn v4(a: u8, b: u8, c: u8, d: u8, port: u16) -> (addr: SocketAddr)
        ensures
            addr.port == port,
            addr.ip == IpAddr::V4([a, b, c, d]),
    {
        SocketAddr { ip: IpAddr::V4([a, b, c, d]), port }
    }

    /// The IP address.
    pub fn ip(&self) -> (ip: IpAddr)
        ensures
            ip == self.ip,
    {
        self.ip
    }

    /// The port.
    pub fn port(&self) -> (port: u16)
        ensures
            port == self.port,
    {
        self.port
    }

    /// The family of the address.
    pub fn version(&self) -> (v: IpVersion)
        ensures
            v == self.ip.version_spec(),
    {
        self.ip.version()
    }

    /// Whether two addresses have the same IP address and port.
    pub fn same(&self, other: &SocketAddr) -> (r: bool)
        ensures
            r == (*self == *other),
    {
        self.port == other.port && self.ip.same(&other.ip)
    }
}

impl PartialEq for SocketAddr {
    fn eq(&self, other: &SocketAddr) -> (r: bool) {
        self.same(other)
    }
}

impl vstd::std_specs::cmp::PartialEqSpecImpl for SocketAddr {
    open spec fn obeys_eq_spec() -> bool {
        true
    }

    open spec fn eq_spec(&self, other: &SocketAddr) -> bool {
        *self == *other
    }
}

impl Eq for SocketAddr {

}

} // verus!
