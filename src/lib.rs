//! Discovery and aggregation of Linux namespace memberships.
pub mod aggregate;
pub mod namespace;
pub mod parse;
pub mod snapshot;

pub use aggregate::{statns_to_nslist, ListNs};
pub use namespace::{ns_const_to_str, ns_str_to_const, Namespace};
pub use parse::{get_next_pid, ns_symlink_to_ino, parse_ns_link};
pub use snapshot::{collect_snapshots, get_ns_stat, resolve_ns_entry, NsCtx, StatNs};
