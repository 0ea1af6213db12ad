//! A BitTorrent download engine: the peer wire protocol, the piece registry
//! with rarest-first selection, and the coordinator that assembles verified
//! pieces into the finished resource.

use vstd::prelude::*;

pub mod download;
pub mod error;
pub mod message;
pub mod peer;
pub mod piece;
pub mod term;
pub mod torrent;
pub mod tracker;
pub mod utils;

verus! {

/// Size of one block, the unit of a wire request.
pub const BLOCK_SIZE: usize = 16_384;

/// Largest frame the engine ever needs to send.
pub const MAX_MESSAGE_SIZE: usize = 1_048_576;

/// The local port the client announces.
pub const DEFAULT_PORT: u16 = 6881;

/// The range of local ports the client may listen on.
pub const DEFAULT_PORT_RANGE: (u16, u16) = (6881, 6889);

/// The fixed prefix of the local peer id.
pub const PEER_ID_PREFIX: [u8; 8] = [0x2d, 0x52, 0x53, 0x30, 0x30, 0x30, 0x31, 0x2d];

/// Upper bound on live peer sessions.
pub const MAX_PEERS: usize = 100;

} // verus!
