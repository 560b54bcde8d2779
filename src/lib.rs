//! A BitTorrent engine core: vectored I/O views, the peer-wire codec, the
//! piece picker, piece assembly, the disk layout, the session pipeline and
//! the tracker protocol.

pub mod announce;
pub mod bitfield;
pub mod codec;
pub mod conf;
pub mod iovecs;
pub mod piece_buffer;
pub mod piece_picker;
pub mod session;
pub mod storage;
pub mod tracker;

use vstd::prelude::*;

verus! {

/// The length of a block, the unit of transfer between peers.
pub const BLOCK_LEN: u32 = 16384;

/// The index of a piece in a torrent.
pub type PieceIndex = usize;

/// A block of a piece: its piece, its byte offset within the piece and its
/// length.
#[derive(Clone, Copy, Debug, PartialEq, Eq, Structural)]
pub struct BlockInfo {
    pub piece_index: PieceIndex,
    pub offset: u32,
    pub len: u32,
}

} // verus!
