//! Errors reported by the card and by the library.
use vstd::prelude::*;

use crate::rdb::RDBCommand;

verus! {

/// A status reported by the card for a failed operation.
#[derive(Debug, Clone, PartialEq, Eq)]
pub enum CardError {
    NotPresent,
    Failure,
    Invalid,
    Changed,
    FSNotInit,
    FileExists,
    CardFull,
    NotFound,
    StateInvalid,
    StateLimit,
    Unknown(i32),
    /// A block whose spare area marks it bad, with the data and spare read.
    BadBlock(Vec<u8>, Vec<u8>),
}

/// The card error that a negative status word stands for.
pub open spec fn card_error_of(code: i32) -> CardError {
    if code == -1 {
        CardError::NotPresent
    } else if code == -2 {
        CardError::Failure
    } else if code == -3 {
        CardError::Invalid
    } else if code == -4 {
        CardError::Changed
    } else if code == -5 {
        CardError::FSNotInit
    } else if code == -6 {
        CardError::FileExists
    } else if code == -7 {
        CardError::CardFull
    } else if code == -8 {
        CardError::NotFound
    } else if code == -9 {
        CardError::StateInvalid
    } else if code == -10 {
        CardError::StateLimit
    } else {
        CardError::Unknown(code)
    }
}

impl CardError {
    /// Decodes a status word of the card.
    pub fn from_i32(error: i32) -> (r: Self)
        ensures
            r == card_error_of(error),
    {
        match error {
            -1 => CardError::NotPresent,
            -2 => CardError::Failure,
            -3 => CardError::Invalid,
            -4 => CardError::Changed,
            -5 => CardError::FSNotInit,
            -6 => CardError::FileExists,
            -7 => CardError::CardFull,
            -8 => CardError::NotFound,
            -9 => CardError::StateInvalid,
            -10 => CardError::StateLimit,
            x => CardError::Unknown(x),
        }
    }

    /// Decodes a status word as it comes over the wire, read as a signed value.
    pub fn from_u32(status: u32) -> (r: Self)
        ensures
            r == card_error_of(status as i32),
    {
        CardError::from_i32(status as i32)
    }
}

/// Everything that can go wrong talking to the console or its file system.
#[derive(Debug, Clone, PartialEq, Eq)]
pub enum LibBBRDBError {
    /// A bulk transfer did not complete in time.
    Timeout,
    /// The USB stack reported a failed transfer.
    Transfer,
    NotInitialised,
    IncorrectDescriptor,
    WrongDataLength,
    RDBUnknown(u8),
    RDBUnhandled(RDBCommand),
    IncorrectCmdResponse(u32, u32),
    PlayerNotReady,
    RDBUnexpected(RDBCommand, Vec<RDBCommand>),
    UnhandledCardSize,
    CardError(CardError),
    InvalidFATChecksum(u16),
    /// A file-system block whose fields hold values no block can have.
    MalformedFSBlock,
    /// A FAT whose chains or fragments do not fit together.
    CorruptFS,
    NoFAT,
    FileNotFound(String),
    FileNameTooLong(String),
    InvalidFilename(String),
    IncorrectNumBlocks(usize, usize),
    NoEmptyFileSlots,
    NoFreeBlocks,
    FileTooBig(String, u32, u32),
    ChecksumFailed(String, u32),
    SetTime(i32),
    BadSKSA,
    InvalidNANDSize(usize, usize),
    InvalidSpareSize(usize, usize),
    InvalidReplyLength(usize, usize),
    TransferLength(usize, usize),
    IncorrectDataLengthReply(Option<u8>, usize),
    UnexpectedPiecemealChunkType(u8),
    PiecemealChunkTooShort(u8, u8),
}

/// Whether an error comes from the transport, the only kind that is retried.
pub open spec fn is_transport_error(e: LibBBRDBError) -> bool {
    e is Timeout || e is Transfer || e is WrongDataLength
}

impl LibBBRDBError {
    /// Whether this error comes from the transport rather than from the card.
    pub fn is_transport(&self) -> (r: bool)
        ensures
            r == is_transport_error(*self),
    {
        match self {
            LibBBRDBError::Timeout => true,
            LibBBRDBError::Transfer => true,
            LibBBRDBError::WrongDataLength => true,
            _ => false,
        }
    }

    /// Whether a block operation that failed with this error, after `attempts`
    /// tries, is tried again.
    pub fn should_retry(&self, attempts: u32) -> (r: bool)
        ensures
            r == (is_transport_error(*self) && attempts < crate::constants::MAX_RETRIES),
    {
        self.is_transport() && attempts < crate::constants::MAX_RETRIES
    }
}

} // verus!
