//! The errors that the store's own decisions give rise to.
use vstd::prelude::*;

verus! {

/// The kinds of failure that bincode reports. Nothing is known of a value of
/// this type; it is carried from the call to the caller.
#[verifier::external_type_specification]
#[verifier::external_body]
pub struct ExBincodeErrorKind(bincode::ErrorKind);

/// What can go wrong when a command is encoded, a log is replayed or a block
/// is read.
#[derive(Debug)]
pub enum MemMapError {
    /// A command could not be serialized.
    Bincode(bincode::Error),
    /// The chunk file is missing, or too short to hold the block.
    BlockNotFound { chunk_id: u32, offset: u64 },
    /// The log entry at file offset `offset` does not hold a command.
    CorruptWal { offset: u64, reason: String },
}

} // verus!
