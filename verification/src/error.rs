//! Why the node could not do what it was asked.

use vstd::prelude::*;

verus! {

/// What could not be parsed.
#[derive(Clone, Copy, Debug, PartialEq, Eq, Structural)]
pub enum Unparsed {
    /// The `PbftMessage` of a vote
    VoteMessage,
    /// The header of a vote
    VoteHeader,
    /// The seal in a block's payload
    Seal,
    /// A message from a peer
    PeerMessage,
}

/// What is wrong with a signature.
#[derive(Clone, Copy, Debug, PartialEq, Eq, Structural)]
pub enum SigningFault {
    /// The signer's ID is no public key
    BadPublicKey,
    /// There is no way to verify signatures
    NoContext,
    /// The signature is not that of the signer
    BadSignature,
    /// The signature could not be verified
    NotVerified,
    /// The hash of the content is not the one that was signed
    HashMismatch,
}

/// What is wrong with a proof that is made of votes.
#[derive(Clone, Copy, Debug, PartialEq, Eq, Structural)]
pub enum VoteDefect {
    /// A vote is of another kind than the proof calls for
    WrongType,
    /// A vote for a view change is for another view than the `NewView`
    WrongView,
    /// A commit vote is for another block than the seal
    WrongBlock,
    /// A vote is from a node whose vote does not count
    InvalidVoter,
    /// There are fewer than 2f voters
    TooFewVotes,
    /// A block that calls for a seal has none
    MissingSeal,
    /// The seal is not for the block before
    WrongSealedBlock,
    /// The seal's previous ID is not that of the sealed block
    WrongPreviousId,
}

/// Why a `NewView` or a consensus seal was not accepted.
#[derive(Clone, Copy, Debug, PartialEq, Eq, Structural)]
pub enum Rejection {
    SerializationError(Unparsed),
    SigningError(SigningFault),
    InvalidMessage(VoteDefect),
    /// The sealed block is not in the log
    SealedBlockMissing,
    /// The `NewView` is not from the primary of its view
    NotFromPrimary,
}

/// Why the node stopped in the middle of its work. It can go on with the answer where one is
/// missing; in every other case it cannot go on.
#[derive(Clone, Copy, Debug, PartialEq, Eq, Structural)]
pub enum Halt {
    /// A request to the validator has not been answered yet
    AwaitingReply,
    /// The answer is none that the request can have
    UnexpectedReply,
    /// The on-chain list of peers is unset or invalid
    BadPeersSetting,
    /// The network no longer has enough nodes to be fault tolerant
    NetworkTooSmall,
    /// There is no further view
    ViewOverflow,
    /// A view change to an earlier view was to be started
    StaleViewChange,
    /// The view change timeout has overflowed
    TimeoutOverflow,
}

/// Why a proof was not verified.
#[derive(Clone, Copy, Debug, PartialEq, Eq, Structural)]
pub enum VerifyError {
    Rejected(Rejection),
    Halted(Halt),
}

/// What is wrong with a message.
#[derive(Clone, Copy, Debug, PartialEq, Eq, Structural)]
pub enum MessageDefect {
    /// The signer is not a known peer
    UnknownPeer,
    /// The message is for another view than the current one
    WrongView,
    /// The message is not of the kind that it was sent as
    WrongType,
    /// The seal is for a block that the node does not have
    UnknownSealedBlock,
    /// The seal is for a block at another sequence number
    WrongSequenceNumber,
    /// A vote, or a proof made of votes, is not valid
    Vote(VoteDefect),
    /// The consensus seal failed verification
    BadSeal(Rejection),
}

/// Why a seal could not be built.
#[derive(Clone, Copy, Debug, PartialEq, Eq, Structural)]
pub enum SealFault {
    /// There are no 2f commit messages in the log
    NoCommits,
    /// The last committed block is not in the log
    NoBlock,
}

/// What went wrong inside the node.
#[derive(Clone, Copy, Debug, PartialEq, Eq, Structural)]
pub enum InternalFault {
    /// The phase that was to be switched to is not the next one
    WrongPhase,
    /// The block before a new block is not in the log
    NoPreviousBlock,
    /// The block before a new block has not the number before
    WrongPreviousNumber,
    /// The sealed block is not in the log
    NoSealedBlock,
    /// A seal could not be built
    Seal(SealFault),
    /// A seal that a peer asked for could not be built
    RequestedSeal(SealFault),
}

/// How the primary is faulty.
#[derive(Clone, Copy, Debug, PartialEq, Eq, Structural)]
pub enum PrimaryFault {
    /// It sent `PrePrepare`s for different blocks at one view and sequence number
    MismatchedBlocks,
    /// Its `NewView` failed verification; a view change to the next view was started
    BadNewView { next_view: u64, rejection: Rejection },
}

/// The call to the validator that failed.
#[derive(Clone, Copy, Debug, PartialEq, Eq, Structural)]
pub enum ServiceCall {
    CommitBlock,
    CommitBlockWithCatchUp,
    InitializeAfterViewChange,
    InitializeAfterCommit,
    FinalizeBlock,
    SendSeal,
}

/// Errors of the PBFT node.
#[derive(Clone, Copy, Debug, PartialEq, Eq, Structural)]
pub enum PbftError {
    /// Bytes could not be parsed
    SerializationError(Unparsed),
    /// A signature could not be verified
    SigningError(SigningFault),
    /// A message is not valid
    InvalidMessage(MessageDefect),
    /// The primary is faulty
    FaultyPrimary(PrimaryFault),
    /// A message that only the primary may send is from another node
    NotFromPrimary,
    /// The validator could not do what it was asked
    ServiceError(ServiceCall),
    /// The node could not do what it should
    InternalError(InternalFault),
    /// The node stopped in the middle of its work
    Halted(Halt),
}

impl Rejection {
    /// The rejection as an error of the node.
    pub open spec fn spec_error(self) -> PbftError {
        match self {
            Rejection::SerializationError(what) => PbftError::SerializationError(what),
            Rejection::SigningError(fault) => PbftError::SigningError(fault),
            Rejection::InvalidMessage(defect) => PbftError::InvalidMessage(
                MessageDefect::Vote(defect),
            ),
            Rejection::SealedBlockMissing => PbftError::InternalError(InternalFault::NoSealedBlock),
            Rejection::NotFromPrimary => PbftError::NotFromPrimary,
        }
    }

    /// The rejection as an error of the node.
    pub fn error(self) -> (error: PbftError)
        ensures
            error == self.spec_error(),
    {
        match self {
            Rejection::SerializationError(what) => PbftError::SerializationError(what),
            Rejection::SigningError(fault) => PbftError::SigningError(fault),
            Rejection::InvalidMessage(defect) => PbftError::InvalidMessage(
                MessageDefect::Vote(defect),
            ),
            Rejection::SealedBlockMissing => PbftError::InternalError(InternalFault::NoSealedBlock),
            Rejection::NotFromPrimary => PbftError::NotFromPrimary,
        }
    }
}

impl VerifyError {
    /// The failure as an error of the node.
    pub open spec fn spec_error(self) -> PbftError {
        match self {
            VerifyError::Rejected(rejection) => rejection.spec_error(),
            VerifyError::Halted(halt) => PbftError::Halted(halt),
        }
    }

    /// The failure as an error of the node.
    pub fn error(self) -> (error: PbftError)
        ensures
            error == self.spec_error(),
    {
        match self {
            VerifyError::Rejected(rejection) => rejection.error(),
            VerifyError::Halted(halt) => PbftError::Halted(halt),
        }
    }

    /// The failure of a consensus seal as an error of the node.
    pub open spec fn spec_bad_seal(self) -> PbftError {
        match self {
            VerifyError::Rejected(rejection) => PbftError::InvalidMessage(
                MessageDefect::BadSeal(rejection),
            ),
            VerifyError::Halted(halt) => PbftError::Halted(halt),
        }
    }

    /// The failure of a consensus seal as an error of the node.
    pub fn bad_seal(self) -> (error: PbftError)
        ensures
            error == self.spec_bad_seal(),
    {
        match self {
            VerifyError::Rejected(rejection) => PbftError::InvalidMessage(
                MessageDefect::BadSeal(rejection),
            ),
            VerifyError::Halted(halt) => PbftError::Halted(halt),
        }
    }
}

} // verus!
