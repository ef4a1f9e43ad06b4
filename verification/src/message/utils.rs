//! Fields of queries that take more than one key or value on the wire.

use vstd::prelude::*;

verus! {

/// The address families of which a node wants contacts.
#[derive(Copy, Clone, Debug, PartialEq, Eq, Structural)]
pub enum Want {
    /// Only IPv4 contacts.
    V4,
    /// Only IPv6 contacts.
    V6,
    /// Contacts of both families.
    Both,
}

/// What a node wants after it named one more address family: `n4` or `N4`
/// for IPv4, `n6` or `N6` for IPv6, spaces around it aside. Any other name
/// changes nothing.
pub open spec fn want_with(want: Option<Want>, name: Seq<u8>) -> Option<Want> {
    let n4 = trimmed(name) == seq![0x6eu8, 0x34u8] || trimmed(name) == seq![0x4eu8, 0x34u8];
    let n6 = trimmed(name) == seq![0x6eu8, 0x36u8] || trimmed(name) == seq![0x4eu8, 0x36u8];
    match want {
        None => if n4 {
            Some(Want::V4)
        } else if n6 {
            Some(Want::V6)
        } else {
            None
        },
        Some(Want::V4) => if n6 {
            Some(Want::Both)
        } else {
            want
        },
        Some(Want::V6) => if n4 {
            Some(Want::Both)
        } else {
            want
        },
        Some(Want::Both) => want,
    }
}

/// Whether a byte is ASCII white space.
pub open spec fn is_space(b: u8) -> bool {
    b == 0x20 || (0x09 <= b <= 0x0d)
}

/// A byte string without the white space at its end.
pub open spec fn trimmed_end(s: Seq<u8>) -> Seq<u8>
    decreases s.len(),
{
    if s.len() > 0 && is_space(s.last()) {
        trimmed_end(s.drop_last())
    } else {
        s
    }
}

/// A byte string without the white space at its start.
pub open spec fn trimmed_start(s: Seq<u8>) -> Seq<u8>
    decreases s.len(),
{
    if s.len() > 0 && is_space(s[0]) {
        trimmed_start(s.skip(1))
    } else {
        s
    }
}

/// A byte string without the white space at both ends.
pub open spec fn trimmed(s: Seq<u8>) -> Seq<u8> {
    trimmed_end(trimmed_start(s))
}

/// What a list of names of address families asks for.
pub open spec fn want_of(names: Seq<Seq<u8>>) -> Option<Want>
    decreases names.len(),
{
    if names.len() == 0 {
        None
    } else {
        want_with(want_of(names.drop_last()), names.last())
    }
}

/// The names of the address families that are wanted: `n4`, `n6`, or both
/// in that order.
pub open spec fn want_names(want: Option<Want>) -> Seq<Seq<u8>> {
    match want {
        None => Seq::empty(),
        Some(Want::V4) => seq![seq![0x6eu8, 0x34u8]],
        Some(Want::V6) => seq![seq![0x6eu8, 0x36u8]],
        Some(Want::Both) => seq![seq![0x6eu8, 0x34u8], seq![0x6eu8, 0x36u8]],
    }
}

/// The port of an announce from the two fields that carry it: an implied
/// port overrides the port given; with neither there is no valid announce.
pub open spec fn port_of(port: Option<u16>, implied_port: bool) -> Option<Option<u16>> {
    if implied_port {
        Some(None)
    } else if port is Some {
        Some(port)
    } else {
        None
    }
}

/// Whether a flag is not set.
pub fn is_false(b: &bool) -> (r: bool)
    ensures
        r == !*b,
{
    !*b
}

/// The port of an announce from the two fields that carry it. Fails if
/// the port is neither given nor implied.
pub fn port_from_fields(port: Option<u16>, implied_port: bool) -> (r: Result<Option<u16>, ()>)
    ensures
        match r {
            Ok(p) => port_of(port, implied_port) == Some(p),
            Err(_) => port_of(port, implied_port) is None,
        },
{
    if implied_port {
        Ok(None)
    } else if port.is_some() {
        Ok(port)
    } else {
        Err(())
    }
}

} // verus!
