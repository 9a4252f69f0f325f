//! Per-connection state for QUIC connections driven by a host runtime through
//! message passing: packet ingestion, stream and datagram extraction, outbound
//! draining and timers, over the quiche protocol engine, with per-endpoint
//! pools of scratch buffers for stream reads.
use vstd::prelude::*;

pub mod connection;
pub mod engine;
pub mod locked;
pub mod pool;
pub mod trace;

verus! {

} // verus!
