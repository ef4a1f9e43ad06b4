//! A node of the BitTorrent mainline distributed hash table: identifiers and
//! the XOR metric, the routing table, transaction ids, announce storage and
//! the state machines that drive bootstrap, refresh and lookup.

pub mod addr;
pub mod bencode;
pub mod bytes;
pub mod compact;
pub mod id;
pub mod message;
pub mod routing;
pub mod storage;
pub mod token;
pub mod transaction;
pub mod worker;
