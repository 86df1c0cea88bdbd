//! A direct-server-return layer-2 load balancer core.
//!
//! The library makes the per-packet forwarding decision of a DSR load
//! balancer: it parses Ethernet/IPv4/TCP headers out of a raw frame with
//! explicit bounds checks, looks up per-client connection affinity, falls
//! back to a round-robin pick from a configured backend pool, rewrites the
//! frame's link-layer addresses in place, and reports a verdict (pass,
//! transmit, or abort).

pub mod affinity;
pub mod cursor;
pub mod engine;
pub mod frontend_table;
pub mod laws;
pub mod types;
