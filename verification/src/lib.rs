//! The core of a Kademlia distributed hash table node.
//!
//! Nodes and values share one 256-bit identifier space ordered by XOR
//! distance. This crate holds the parts of a node that compute: identifiers,
//! the expiring store, the routing table of k-buckets, the table of pending
//! request tokens, the iterative lookup as a state machine, and the decisions
//! of the message handler. Sockets, threads and the wire encoding live with
//! the program that drives a node.
use vstd::prelude::*;

pub mod clock;
pub mod closest;
pub mod digest;
pub mod key;
pub mod lookup;
pub mod node;
pub mod pending;
pub mod protocol;
pub mod routing;
pub mod storage;

pub use self::digest::clone_into_array;
pub use self::digest::get_key;
pub use self::key::Key;
pub use self::lookup::Lookup;
pub use self::node::node_data::NodeData;
pub use self::pending::PendingRequests;
pub use self::routing::RoutingTable;
pub use self::storage::Storage;

verus! {

/// The number of bytes in a key.
pub const KEY_LENGTH: usize = 32;

/// The maximum length of a message in bytes.
pub const MESSAGE_LENGTH: usize = 8196;

/// The maximum number of k-buckets in the routing table.
pub const ROUTING_TABLE_SIZE: usize = 256;

/// The maximum number of entries in a k-bucket.
pub const REPLICATION_PARAM: usize = 20;

/// The maximum number of active RPCs during a lookup.
pub const CONCURRENCY_PARAM: usize = 3;

/// Request timeout in milliseconds.
pub const REQUEST_TIMEOUT: u64 = 5000;

/// Key-value pair expiration time in seconds.
pub const KEY_EXPIRATION: u64 = 3600;

/// Bucket refresh interval in seconds.
pub const BUCKET_REFRESH_INTERVAL: u64 = 3600;

} // verus!
