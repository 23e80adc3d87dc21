//! A verified core for a TCP forwarding proxy.
//!
//! The library covers the proxy's decision logic: parsing of the port-set
//! syntax, the upstream host abstraction (a literal IP or a resolved name),
//! a caching DNS layer, allow/deny filtering of ports and addresses, the
//! fair multi-socket accept schedule, and the per-connection forwarding
//! state machine.  Socket and resolver I/O live outside the library and
//! feed it plain values.

pub mod addr;
pub mod cli;
pub mod dns_resolver;
pub mod filter;
pub mod host;
pub mod pipeline;
pub mod ports_array;
pub mod startup;
pub mod stream;
pub mod text;
