//! The routing table: nodes with their liveness, buckets of nodes, and the
//! table of buckets that covers the identifier space.

pub mod bucket;
pub mod node;
pub mod table;
