//! Host-side library for the remote debugger protocol of a small game console
//! and for the block-mapped file system that lives on its NAND flash.
//!
//! The modules hold the verified logic: packet framing, the command layer,
//! block status decoding, the on-disk layout of the file system and the
//! operations that change it. Moving bytes over USB is left to the caller.
pub mod commands;
pub mod constants;
pub mod error;
pub mod fat;
pub mod fs;
pub mod names;
pub mod player;
pub mod rdb;

pub use commands::Command;
pub use commands::CommandArgs;
pub use error::CardError;
pub use error::LibBBRDBError;
pub use fat::CardStats;
pub use fat::Fat;
pub use fat::_Fat;
pub use fs::FATEntry;
pub use fs::FSBlock;
pub use fs::FSFooter;
pub use fs::FSType;
pub use fs::FileEntry;
pub use fs::FileValid;
pub use player::BBPlayer;
pub use rdb::RDBCommand;
pub use rdb::RDBType;
