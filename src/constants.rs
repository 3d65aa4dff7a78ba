//! Fixed geometry and protocol constants.
use vstd::prelude::*;

verus! {

/// Vendor id of development units.
pub const RDB_VENDOR_ID: u16 = 0x1527;

/// Vendor id of retail units.
pub const IQUE_VENDOR_ID: u16 = 0xBB3D;

/// Product id shared by both kinds of unit.
pub const BB_PRODUCT_ID: u16 = 0xBBDB;

/// Configuration that the device must have active.
pub const RDB_CONF_DESCRIPTOR: u8 = 1;

/// Interface claimed on the device.
pub const RDB_INTERFACE: u8 = 0;

/// Bulk OUT endpoint.
pub const RDB_BULK_EP_OUT: u8 = 0x02;

/// Bulk IN endpoint.
pub const RDB_BULK_EP_IN: u8 = 0x82;

/// Largest payload of one block packet.
pub const RDB_BLOCK_SIZE: usize = 254;

/// Packets batched into one bulk transfer.
pub const RDB_BLOCKS_PER_CHUNK: usize = 80;

/// Bytes in one NAND block.
pub const BLOCK_SIZE: usize = 0x4000;

/// FAT entries held by one file-system block.
pub const BLOCK_CHUNK_SIZE: usize = 0x1000;

/// Bytes in the spare area of one NAND block.
pub const SPARE_SIZE: usize = 0x10;

/// Transfer timeout, in seconds.
pub const TIMEOUT_SECS: u64 = 10;

/// Number of blocks at the end of the card that hold FAT generations.
pub const NUM_FATS: u32 = 16;

/// Offset of the good-block marker in the spare area.
pub const STATUS_OFFSET: usize = 5;

/// Directory entries in the first block of a FAT generation.
pub const NUM_FILE_ENTRIES: usize = 409;

/// First block that file data may occupy.
pub const FIRST_DATA_BLOCK: usize = 0x40;

/// Value that the 16-bit words of a valid file-system block sum to.
pub const FAT_CHECKSUM: u16 = 0xCAD7;

/// Cards hold a multiple of this many blocks.
pub const CARD_SIZE_UNIT: u32 = 4096;

/// The largest card handled: fifteen FAT fragments, so that a new FAT
/// generation is never written over the first fragment of the current one.
pub const MAX_CARD_SIZE: u32 = 0xF000;

/// Transport errors are retried this many times.
pub const MAX_RETRIES: u32 = 5;

} // verus!
