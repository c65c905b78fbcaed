//! Frame synchronisation and decoding for the LD19 2D LiDAR serial protocol.
//!
//! The sensor sends fixed-size frames back to back, each opened by a start
//! byte and closed by an 8-bit CRC. `sync` recovers frame alignment from any
//! offset of the byte stream, `frame` decodes one aligned window, and
//! `checksum` computes the CRC that guards it.

pub mod checksum;
pub mod frame;
pub mod sync;




pub use checksum::checksum;
pub use frame::{decode, serialize, DecodeError, Frame, Point, FRAME_SIZE, FRAME_START, POINT_PER_PACK, VER_LEN};
pub use sync::{sync_stream, SyncEvent, SyncResult, Synchronizer};
