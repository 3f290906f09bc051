//! Synchronization core of a field sensor-station fleet client.
//!
//! Stations announce themselves over UDP multicast and serve numbered record
//! streams over a lossy datagram transport. This crate holds the verified
//! core: the announce and message codec, the discovery bookkeeping, the
//! record sink that reconciles out-of-order batches into contiguous
//! archives, and the station store with its merge policy.

use vstd::prelude::*;

pub mod clock;
pub mod codec;
pub mod discovery;
pub mod merge;
pub mod model;
pub mod protos;
pub mod query;
pub mod reply;
pub mod sink;
pub mod store;
pub mod text;
pub mod transport;

verus! {

/// Port a station serves records on when the announce names none.
pub const DEFAULT_UDP_SERVER_PORT: u16 = 22144;

} // verus!
