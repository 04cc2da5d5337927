//! The failures the state machine core can report.

use vstd::prelude::*;

verus! {

/// What went wrong while decoding, validating or extending persistent state.
#[derive(Debug, Clone, Copy, PartialEq, Eq, Structural)]
pub enum Error {
    /// A byte stream ended in the middle of a length prefix or of a record.
    UnexpectedEof,
    /// A journal blob is shorter than an epoch.
    BlobTooShort { len: usize },
    /// A payload is not a valid encoding of a mutation.
    MutationDecode,
    /// After the epoch `after`, of the blob before or of the snapshot, the
    /// journal goes on with the epoch `got` and not with the next one.
    MissingMutations { after: u64, got: u64 },
    /// The journal ends before the epoch the snapshot was taken at.
    JournalBehindSnapshot { snapshot_epoch: u64, last_epoch: u64 },
    /// A counter of the journal bookkeeping would leave its machine range.
    JournalFull,
    /// A mutation of `len` bytes does not fit into one blob with its epoch.
    BlobTooLarge { len: usize },
    /// There is no epoch left for a mutation.
    EpochExhausted,
    /// A snapshot is shorter than the epoch at its head.
    SnapshotTooShort { len: usize },
}

} // verus!
