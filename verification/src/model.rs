//! What the node does, as functions of its log, its state, and its exchange with the validator.

use vstd::prelude::*;

use crate::block::BlockView;
use crate::config::listed_peers;
use crate::error::{
    Halt, InternalFault, MessageDefect, PbftError, PrimaryFault, Rejection, SealFault, ServiceCall,
    SigningFault, Unparsed, VerifyError, VoteDefect,
};
use crate::hash::sha512;
use crate::header::HeaderView;
use crate::hex_text::hex_text;
use crate::message::{ContentView, ParsedView};
use crate::message_log::{of_type_seq, of_type_seq_view, of_type_view, LogView};
use crate::message_type::PbftMessageType;
use crate::proto::{InfoView, MessageView};
use crate::service::{Exchange, RequestView, SignatureCheck};
use crate::state::{tolerated_faults, PbftMode, PhaseView, StateView};
use crate::timing::{scaled_duration, Timeout};
use crate::vote::{NewViewView, SealResponseView, SealView, VoteView};

verus! {

// ---------- Proofs that are made of votes ----------

/// What a vote must be for.
#[verifier::ext_equal]
pub enum CriteriaView {
    /// The given view
    View(u64),
    /// The given block
    Block(Seq<u8>),
}

impl CriteriaView {
    /// Whether the message of a vote is for what it must be for.
    pub open spec fn met(self, message: MessageView) -> bool {
        match self {
            CriteriaView::View(view) => message.info.view == view,
            CriteriaView::Block(block_id) => message.block_id == block_id,
        }
    }

    /// What is wrong with a vote that is for something else.
    pub open spec fn defect(self) -> VoteDefect {
        match self {
            CriteriaView::View(_) => VoteDefect::WrongView,
            CriteriaView::Block(_) => VoteDefect::WrongBlock,
        }
    }
}

/// What is wrong with a signature, by what came of verifying it.
pub open spec fn signature_fault(check: SignatureCheck) -> Option<SigningFault> {
    match check {
        SignatureCheck::Valid => None,
        SignatureCheck::Invalid => Some(SigningFault::BadSignature),
        SignatureCheck::BadPublicKey => Some(SigningFault::BadPublicKey),
        SignatureCheck::NoContext => Some(SigningFault::NoContext),
        SignatureCheck::Failed => Some(SigningFault::NotVerified),
    }
}

/// Whose vote a message of the right kind is: its signature is valid, its hash is the signed one,
/// and it is for what it must be for.
pub open spec fn vote_verdict(
    message: MessageView,
    check: SignatureCheck,
    hash: Seq<u8>,
    signed_hash: Seq<u8>,
    criteria: CriteriaView,
) -> Result<Seq<u8>, Rejection> {
    match signature_fault(check) {
        Some(fault) => Err(Rejection::SigningError(fault)),
        None => if hash != signed_hash {
            Err(Rejection::SigningError(SigningFault::HashMismatch))
        } else if !criteria.met(message) {
            Err(Rejection::InvalidMessage(criteria.defect()))
        } else {
            Ok(message.info.signer_id)
        },
    }
}

/// Whose vote it is, by its message and its header.
pub open spec fn parsed_vote_checked(
    exchange: Exchange,
    vote: VoteView,
    message: MessageView,
    header: HeaderView,
    expected_type: PbftMessageType,
    criteria: CriteriaView,
) -> (Exchange, Result<Seq<u8>, VerifyError>) {
    if message.info.msg_type != expected_type {
        (exchange, Err(VerifyError::Rejected(Rejection::InvalidMessage(VoteDefect::WrongType))))
    } else {
        let (after, check) = exchange.signature_checked(
            hex_text(vote.header_signature),
            vote.header_bytes,
            hex_text(header.signer_id),
        );
        (
            after,
            match check {
                Ok(check) => match vote_verdict(
                    message,
                    check,
                    sha512(vote.message_bytes),
                    header.content_sha512,
                    criteria,
                ) {
                    Ok(id) => Ok(id),
                    Err(rejection) => Err(VerifyError::Rejected(rejection)),
                },
                Err(halt) => Err(VerifyError::Halted(halt)),
            },
        )
    }
}

/// Whose vote it is: it is of the expected kind, is properly signed, and is for what it must be
/// for.
pub open spec fn vote_checked(
    exchange: Exchange,
    vote: VoteView,
    expected_type: PbftMessageType,
    criteria: CriteriaView,
) -> (Exchange, Result<Seq<u8>, VerifyError>) {
    match MessageView::decode(vote.message_bytes) {
        Some(message) => match HeaderView::decode(vote.header_bytes) {
            Some(header) => parsed_vote_checked(
                exchange,
                vote,
                message,
                header,
                expected_type,
                criteria,
            ),
            None => (
                exchange,
                Err(VerifyError::Rejected(Rejection::SerializationError(Unparsed::VoteHeader))),
            ),
        },
        None => (
            exchange,
            Err(VerifyError::Rejected(Rejection::SerializationError(Unparsed::VoteMessage))),
        ),
    }
}

/// Whose votes they are; the first vote that is not valid decides.
pub open spec fn votes_checked(
    exchange: Exchange,
    votes: Seq<VoteView>,
    expected_type: PbftMessageType,
    criteria: CriteriaView,
) -> (Exchange, Result<Set<Seq<u8>>, VerifyError>)
    decreases votes.len(),
{
    if votes.len() == 0 {
        (exchange, Ok(Set::empty()))
    } else {
        let (before, ids) = votes_checked(exchange, votes.drop_last(), expected_type, criteria);
        match ids {
            Ok(ids) => {
                let (after, id) = vote_checked(before, votes.last(), expected_type, criteria);
                (
                    after,
                    match id {
                        Ok(id) => Ok(ids.insert(id)),
                        Err(error) => Err(error),
                    },
                )
            },
            Err(error) => (before, Err(error)),
        }
    }
}

/// Whether every voter is one of the peers, and not the node whose vote is implicit.
pub open spec fn voters_eligible(
    voters: Set<Seq<u8>>,
    peers: Seq<Seq<u8>>,
    implicit: Seq<u8>,
) -> bool {
    forall|id: Seq<u8>| #[trigger] voters.contains(id) ==> peers.contains(id) && id != implicit
}

/// Whether the voters make a proof: they are peers, and at least 2f of them, the implicit vote not
/// counted.
pub open spec fn voters_judged(
    voters: Set<Seq<u8>>,
    peers: Seq<Seq<u8>>,
    implicit: Seq<u8>,
    f: u64,
) -> Result<(), Rejection> {
    if !voters_eligible(voters, peers, implicit) {
        Err(Rejection::InvalidMessage(VoteDefect::InvalidVoter))
    } else if voters.len() < 2 * f {
        Err(Rejection::InvalidMessage(VoteDefect::TooFewVotes))
    } else {
        Ok(())
    }
}

/// A rejection as a failure to verify.
pub open spec fn rejected(judged: Result<(), Rejection>) -> Result<(), VerifyError> {
    match judged {
        Ok(_) => Ok(()),
        Err(rejection) => Err(VerifyError::Rejected(rejection)),
    }
}

/// Whether a `NewView` is valid: it is from the primary of its view, and it holds at least 2f view
/// change votes of other peers for that view.
pub open spec fn new_view_checked(exchange: Exchange, state: StateView, new_view: NewViewView) -> (
    Exchange,
    Result<(), VerifyError>,
) {
    if new_view.info.signer_id != state.primary_at(new_view.info.view) {
        (exchange, Err(VerifyError::Rejected(Rejection::NotFromPrimary)))
    } else {
        let (after, voters) = votes_checked(
            exchange,
            new_view.view_changes,
            PbftMessageType::ViewChange,
            CriteriaView::View(new_view.info.view),
        );
        (
            after,
            match voters {
                Ok(voters) => rejected(
                    voters_judged(voters, state.peer_ids, new_view.info.signer_id, state.f),
                ),
                Err(error) => Err(error),
            },
        )
    }
}

/// Whether the voters of a seal make a proof, by the on-chain list of peers.
pub open spec fn seal_voters_judged(
    setting: Option<Seq<char>>,
    voters: Set<Seq<u8>>,
    signer_id: Seq<u8>,
    f: u64,
) -> Result<(), VerifyError> {
    match listed_peers(setting) {
        Some(peers) => rejected(voters_judged(voters, peers, signer_id, f)),
        None => Err(VerifyError::Halted(Halt::BadPeersSetting)),
    }
}

/// Whether a consensus seal is valid: it holds at least 2f commit votes for its block, of nodes
/// that were peers as of the block before, not counting the node that it came from.
pub open spec fn seal_checked(
    exchange: Exchange,
    state: StateView,
    seal: SealView,
    signer_id: Seq<u8>,
) -> (Exchange, Result<(), VerifyError>) {
    let (voted, voters) = votes_checked(
        exchange,
        seal.commit_votes,
        PbftMessageType::Commit,
        CriteriaView::Block(seal.block_id),
    );
    match voters {
        Ok(voters) => {
            let (after, setting) = voted.setting_read(seal.previous_id);
            (
                after,
                match setting {
                    Ok(setting) => seal_voters_judged(setting, voters, signer_id, state.f),
                    Err(halt) => Err(VerifyError::Halted(halt)),
                },
            )
        },
        Err(error) => (voted, Err(error)),
    }
}

/// The seal in a block's payload, if it is the right one for the block before, before its votes are
/// looked at.
pub open spec fn seal_of_block(log: LogView, block: BlockView) -> Result<SealView, Rejection> {
    if block.payload.len() == 0 {
        Err(Rejection::InvalidMessage(VoteDefect::MissingSeal))
    } else {
        match SealView::decode(block.payload) {
            Some(seal) => seal_for_block(log, block, seal),
            None => Err(Rejection::SerializationError(Unparsed::Seal)),
        }
    }
}

/// A seal, if it is the right one for the block before the given one.
pub open spec fn seal_for_block(log: LogView, block: BlockView, seal: SealView) -> Result<
    SealView,
    Rejection,
> {
    if seal.block_id != block.previous_id {
        Err(Rejection::InvalidMessage(VoteDefect::WrongSealedBlock))
    } else {
        match log.block_with_id(seal.block_id) {
            Some(sealed) => if sealed.previous_id != seal.previous_id {
                Err(Rejection::InvalidMessage(VoteDefect::WrongPreviousId))
            } else {
                Ok(seal)
            },
            None => Err(Rejection::SealedBlockMissing),
        }
    }
}

/// The valid seal in a block's payload. Block 0 is genesis, and block 1 is the first that a seal
/// can be made for, so that there is none before block 2.
pub open spec fn block_seal_checked(
    exchange: Exchange,
    log: LogView,
    state: StateView,
    block: BlockView,
) -> (Exchange, Result<SealView, VerifyError>) {
    if block.block_num < 2 {
        (exchange, Ok(SealView::empty()))
    } else {
        match seal_of_block(log, block) {
            Ok(seal) => {
                let (after, checked) = seal_checked(exchange, state, seal, block.signer_id);
                (
                    after,
                    match checked {
                        Ok(_) => Ok(seal),
                        Err(error) => Err(error),
                    },
                )
            },
            Err(rejection) => (exchange, Err(VerifyError::Rejected(rejection))),
        }
    }
}

/// The votes that messages amount to.
pub open spec fn votes_of(messages: Seq<ParsedView>) -> Seq<VoteView> {
    Seq::new(messages.len(), |i: int| messages[i].vote())
}

/// The messages that other nodes sent.
pub open spec fn not_own() -> spec_fn(ParsedView) -> bool {
    |m: ParsedView| !m.from_self
}

/// The messages for the block and the view of the given one.
pub open spec fn same_block_and_view(message: ParsedView) -> spec_fn(ParsedView) -> bool {
    |m: ParsedView|
        m.block_id() == message.block_id() && m.info().view == message.info().view
}

/// The commit messages of other nodes for the block before the current one.
pub open spec fn last_commits(log: LogView, state: StateView) -> Seq<ParsedView> {
    log.messages.filter(
        of_type_seq(PbftMessageType::Commit, (state.seq_num - 1) as u64),
    ).filter(not_own())
}

/// Among the messages for one block and view of which there are enough, those whose first one came
/// in first, looking from the given position on.
pub open spec fn first_quorum(messages: Seq<ParsedView>, required: int, from: int) -> Option<
    Seq<ParsedView>,
>
    decreases messages.len() - from,
{
    if from < 0 || from >= messages.len() {
        None
    } else {
        let group = messages.filter(same_block_and_view(messages[from]));
        if group.len() >= required {
            Some(group)
        } else {
            first_quorum(messages, required, from + 1)
        }
    }
}

/// The seal that proves the block before the current one: at least 2f commit votes of other nodes
/// for one block in one view.
pub open spec fn built_seal(log: LogView, state: StateView) -> Result<SealView, SealFault> {
    match first_quorum(last_commits(log, state), 2 * state.f, 0) {
        Some(messages) => match log.block_with_id(messages[0].block_id()) {
            Some(block) => Ok(
                SealView {
                    block_id: messages[0].block_id(),
                    previous_id: block.previous_id,
                    commit_votes: votes_of(messages),
                },
            ),
            None => Err(SealFault::NoBlock),
        },
        None => Err(SealFault::NoCommits),
    }
}

// ---------- The node and its state ----------

/// All that the node's behaviour depends on.
#[verifier::ext_equal]
pub struct World {
    /// The messages and blocks that the node has accepted
    pub log: LogView,
    /// The requests to the validator so far, and the answers that are still to be read
    pub exchange: Exchange,
    /// Whether the node also sends itself what it broadcasts
    pub self_sending: bool,
    /// The node's state
    pub state: StateView,
}

/// What became of the world, and what was returned.
pub type Outcome = (World, Result<(), PbftError>);

impl World {
    /// Whether the parts fit together.
    pub open spec fn wf(self) -> bool {
        self.log.wf() && self.state.wf()
    }

    /// The world after a request whose outcome does not matter.
    pub open spec fn noted(self, request: RequestView) -> World {
        World { exchange: self.exchange.noted(request), ..self }
    }

    /// The world after a message was broadcast to the other nodes.
    pub open spec fn announced(self, message: ParsedView) -> World {
        self.noted(
            RequestView::Broadcast { msg_type: message.msg_type(), payload: message.message_bytes },
        )
    }

    /// The world after a message was offered to the log, and whether it was taken.
    pub open spec fn logged(self, message: ParsedView) -> Outcome {
        let (log, added) = self.log.offered(message, self.state.view);
        (World { log, ..self }, added)
    }

    /// The world after a request that must be carried out, and whether it was.
    pub open spec fn required(self, request: RequestView, call: ServiceCall) -> Outcome {
        let (exchange, done) = self.exchange.attempted(request);
        (
            World { exchange, ..self },
            match done {
                Ok(true) => Ok(()),
                Ok(false) => Err(PbftError::ServiceError(call)),
                Err(halt) => Err(PbftError::Halted(halt)),
            },
        )
    }

    /// The view that the node is at or is changing to.
    pub open spec fn target(self) -> u64 {
        match self.state.mode {
            PbftMode::ViewChanging(view) => view,
            PbftMode::Normal => self.state.view,
        }
    }
}

/// A message of this node about a block.
pub open spec fn own_message(
    state: StateView,
    msg_type: PbftMessageType,
    view: u64,
    seq_num: u64,
    block_id: Seq<u8>,
) -> ParsedView {
    ParsedView::own(
        ContentView::Message(
            MessageView {
                info: InfoView { msg_type, view, seq_num, signer_id: state.id },
                block_id,
            },
        ),
    )
}

/// What comes of receiving a message, given what comes of handling it: it must be from a known
/// peer, and it is ignored if the node is changing its view and it does not belong to a view
/// change.
pub open spec fn received(world: World, message: ParsedView, handled: Outcome) -> Outcome {
    if !world.state.peer_ids.contains(message.info().signer_id) {
        (world, Err(PbftError::InvalidMessage(MessageDefect::UnknownPeer)))
    } else if world.state.view_changing() && message.msg_type() != PbftMessageType::ViewChange
        && message.msg_type() != PbftMessageType::NewView {
        (world, Ok(()))
    } else {
        handled
    }
}

/// What comes of sending a message to oneself, given what comes of handling it.
pub open spec fn self_sent(world: World, message: ParsedView, handled: Outcome) -> Outcome {
    if world.self_sending {
        received(world, message, handled)
    } else {
        (world, Ok(()))
    }
}

// ---------- Committing a block ----------

/// Whether the network agrees on the block of a message: the `PrePrepare` at the sequence number
/// and view of the message is for that block, and the log has 2f + 1 messages of the given kind from
/// different nodes that match it, with the same view, sequence number and block.
pub open spec fn agreed(world: World, msg_type: PbftMessageType, message: ParsedView) -> bool {
    match world.log.first_msg(message.info(), PbftMessageType::PrePrepare) {
        Some(pre_prepare) => {
            &&& pre_prepare.block_id() == message.block_id()
            &&& world.log.has_required(msg_type, pre_prepare, true, 2 * world.state.f + 1)
        },
        None => false,
    }
}

/// What a `Commit` does: once there are 2f + 1 of them for its block, the block is committed.
pub open spec fn commit_handled(world: World, message: ParsedView) -> Outcome {
    let (logged, added) = world.logged(message);
    if added is Err {
        (logged, added)
    } else if message.info().seq_num == logged.state.seq_num && logged.state.phase is Committing
        && agreed(logged, PbftMessageType::Commit, message) {
        let (asked, done) = logged.required(
            RequestView::CommitBlock { block_id: message.block_id() },
            ServiceCall::CommitBlock,
        );
        if done is Err {
            (asked, done)
        } else {
            (
                World {
                    state: StateView {
                        phase: PhaseView::Finishing(message.block_id(), false),
                        commit_timeout: asked.state.commit_timeout.stopped(),
                        ..asked.state
                    },
                    ..asked
                },
                Ok(()),
            )
        }
    } else {
        (logged, Ok(()))
    }
}

/// What broadcasting a `Commit` does.
pub open spec fn commit_sent(world: World, block_id: Seq<u8>) -> Outcome {
    let message = own_message(
        world.state,
        PbftMessageType::Commit,
        world.state.view,
        world.state.seq_num,
        block_id,
    );
    let announced = world.announced(message);
    self_sent(announced, message, commit_handled(announced, message))
}

/// What a `Prepare` does: once there are 2f + 1 of them for its block, the node goes on to commit
/// that block.
pub open spec fn prepare_handled(world: World, message: ParsedView) -> Outcome {
    let (logged, added) = world.logged(message);
    if added is Err {
        (logged, added)
    } else if message.info().seq_num == logged.state.seq_num && logged.state.phase is Preparing
        && agreed(logged, PbftMessageType::Prepare, message) {
        commit_sent(
            World { state: logged.state.in_phase(PhaseView::Committing), ..logged },
            message.block_id(),
        )
    } else {
        (logged, Ok(()))
    }
}

/// What broadcasting a `Prepare` does.
pub open spec fn prepare_sent(world: World, block_id: Seq<u8>) -> Outcome {
    let message = own_message(
        world.state,
        PbftMessageType::Prepare,
        world.state.view,
        world.state.seq_num,
        block_id,
    );
    let announced = world.announced(message);
    self_sent(announced, message, prepare_handled(announced, message))
}

/// Whether the node can go on to prepare a block: it waits for one, it has the block, the block is
/// the one at the current sequence number, and there is a `PrePrepare` for it.
pub open spec fn can_prepare(world: World, block_id: Seq<u8>) -> bool {
    match world.log.block_with_id(block_id) {
        Some(block) => {
            &&& world.state.phase is PrePreparing
            &&& world.log.has_pre_prepare(world.state, block_id)
            &&& block.block_num == world.state.seq_num
        },
        None => false,
    }
}

/// The world of a node that goes on to prepare.
pub open spec fn preparing_world(world: World) -> World {
    World {
        state: StateView {
            phase: PhaseView::Preparing,
            faulty_primary_timeout: world.state.faulty_primary_timeout.stopped(),
            commit_timeout: world.state.commit_timeout.started_at(world.state.now),
            ..world.state
        },
        ..world
    }
}

/// What comes of trying to go on to prepare a block.
pub open spec fn preparing_tried(world: World, block_id: Seq<u8>) -> Outcome {
    if can_prepare(world, block_id) {
        prepare_sent(preparing_world(world), block_id)
    } else {
        (world, Ok(()))
    }
}

// ---------- Changing the view ----------

/// Whether a view change message is too late: the node is at its view or a later one, or is
/// changing to a later one.
pub open spec fn stale_view_change(state: StateView, view: u64) -> bool {
    view <= state.view || (match state.mode {
        PbftMode::ViewChanging(target) => view < target,
        PbftMode::Normal => false,
    })
}

/// Whether the node is changing to the given view or a later one.
pub open spec fn already_changing(state: StateView, view: u64) -> bool {
    match state.mode {
        PbftMode::ViewChanging(target) => view <= target,
        PbftMode::Normal => false,
    }
}

/// The state of a node that changes to the given view, its view change timeout not yet set.
pub open spec fn changing_state(state: StateView, view: u64) -> StateView {
    StateView {
        mode: PbftMode::ViewChanging(view),
        faulty_primary_timeout: state.faulty_primary_timeout.stopped(),
        commit_timeout: state.commit_timeout.stopped(),
        ..state
    }
}

/// The message by which the node votes for the change to a view.
pub open spec fn view_change_message(state: StateView, view: u64) -> ParsedView {
    own_message(
        state,
        PbftMessageType::ViewChange,
        view,
        (state.seq_num - 1) as u64,
        Seq::empty(),
    )
}

/// The world of a node that changes to the given view, after it voted for the change.
pub open spec fn voted_world(world: World, view: u64, duration: u128) -> World {
    World {
        state: StateView {
            view_change_timeout: Timeout::fresh(duration).started_at(world.state.now),
            ..changing_state(world.state, view)
        },
        ..world
    }.announced(view_change_message(world.state, view))
}

/// What starting a view change does, unless the node is changing to that view or a later one
/// already: the timeout is set by the number of views that are skipped, and the node votes for the
/// change.
pub open spec fn view_change_started(world: World, view: u64) -> Outcome
    decreases u64::MAX - (if view >= world.target() { view } else { world.target() }), 2int,
{
    if already_changing(world.state, view) {
        (world, Ok(()))
    } else {
        let changing = changing_state(world.state, view);
        if view < world.state.view {
            (World { state: changing, ..world }, Err(PbftError::Halted(Halt::StaleViewChange)))
        } else {
            match scaled_duration(world.state.view_change_duration, (view - world.state.view) as u64) {
                Some(duration) => {
                    let message = view_change_message(world.state, view);
                    let voted = voted_world(world, view, duration);
                    self_sent(voted, message, view_change_handled(voted, message))
                },
                None => (
                    World { state: changing, ..world },
                    Err(PbftError::Halted(Halt::TimeoutOverflow)),
                ),
            }
        }
    }
}

/// Whether enough nodes vote for the change to the view of a message for the node to join them:
/// there are f + 1, and it is not changing to that view yet.
pub open spec fn joins_view_change(world: World, message: ParsedView) -> bool {
    &&& match world.state.mode {
        PbftMode::ViewChanging(target) => message.info().view > target,
        PbftMode::Normal => true,
    }
    &&& world.log.has_required(
        PbftMessageType::ViewChange,
        message,
        false,
        world.state.f + 1,
    )
}

/// The view change messages of other nodes for a view.
pub open spec fn view_changes_for(log: LogView, view: u64) -> Seq<ParsedView> {
    log.messages.filter(of_type_view(PbftMessageType::ViewChange, view)).filter(not_own())
}

/// The message by which the node opens a view as its primary.
pub open spec fn new_view_message(world: World, view: u64) -> ParsedView {
    ParsedView::own(
        ContentView::NewView(
            NewViewView {
                info: InfoView {
                    msg_type: PbftMessageType::NewView,
                    view,
                    seq_num: (world.state.seq_num - 1) as u64,
                    signer_id: world.state.id,
                },
                view_changes: votes_of(view_changes_for(world.log, view)),
            },
        ),
    )
}

/// What a `ViewChange` does: once there are f + 1 for its view, the node joins; once there are 2f
/// of other nodes, and the node is primary at that view, it opens the view.
pub open spec fn view_change_handled(world: World, message: ParsedView) -> Outcome
    decreases u64::MAX - world.target(), 1int,
{
    let view = message.info().view;
    if stale_view_change(world.state, view) {
        (world, Ok(()))
    } else {
        let (logged, added) = world.logged(message);
        let (joined, started) = if joins_view_change(logged, message) {
            view_change_started(logged, view)
        } else {
            (logged, Ok(()))
        };
        if added is Err {
            (logged, added)
        } else if started is Err {
            (joined, started)
        } else if joined.state.is_primary_at(view) && view_changes_for(joined.log, view).len() >= 2
            * joined.state.f {
            let new_view = new_view_message(joined, view);
            let announced = joined.announced(new_view);
            self_sent(announced, new_view, new_view_handled(announced, new_view))
        } else {
            (joined, Ok(()))
        }
    }
}

/// The state of a node that has changed to the given view.
pub open spec fn changed_state(state: StateView, view: u64) -> StateView {
    StateView { view, view_change_timeout: state.view_change_timeout.stopped(), ..state }.reset()
}

/// What a `NewView` does: if it is for the view that the node is changing to and it is valid, the
/// node is at that view, and the primary starts a block; if it is not valid, the node goes on to
/// the next view.
pub open spec fn new_view_handled(world: World, message: ParsedView) -> Outcome
    decreases u64::MAX - message.info().view, 0int,
{
    match message.message {
        ContentView::NewView(new_view) => if world.state.mode != PbftMode::ViewChanging(
            new_view.info.view,
        ) {
            (world, Ok(()))
        } else {
            let (exchange, checked) = new_view_checked(world.exchange, world.state, new_view);
            let verified = World { exchange, ..world };
            match checked {
                Ok(_) => {
                    let changed = World {
                        state: changed_state(verified.state, new_view.info.view),
                        ..verified
                    };
                    if changed.state.is_primary() {
                        changed.required(
                            RequestView::InitializeBlock { previous_id: None },
                            ServiceCall::InitializeAfterViewChange,
                        )
                    } else {
                        (changed, Ok(()))
                    }
                },
                Err(VerifyError::Halted(halt)) => (verified, Err(PbftError::Halted(halt))),
                Err(VerifyError::Rejected(Rejection::NotFromPrimary)) => (verified, Ok(())),
                Err(VerifyError::Rejected(rejection)) => if new_view.info.view == u64::MAX {
                    (verified, Err(PbftError::Halted(Halt::ViewOverflow)))
                } else {
                    let next_view = (new_view.info.view + 1) as u64;
                    let (started, result) = view_change_started(verified, next_view);
                    (
                        started,
                        if result is Err {
                            result
                        } else {
                            Err(
                                PbftError::FaultyPrimary(
                                    PrimaryFault::BadNewView { next_view, rejection },
                                ),
                            )
                        },
                    )
                },
            }
        },
        _ => (world, Ok(())),
    }
}

// ---------- Proposing a block ----------

/// Whether the log has a `PrePrepare` for another block at the sequence number and view of a
/// message.
pub open spec fn conflicting_pre_prepare(log: LogView, message: ParsedView) -> bool {
    exists|i: int|
        0 <= i < log.messages.len() && of_type_seq_view(
            PbftMessageType::PrePrepare,
            message.info().seq_num,
            message.info().view,
        )(#[trigger] log.messages[i]) && log.messages[i].block_id() != message.block_id()
}

/// What a `PrePrepare` does: if it is from the primary, the node goes on to prepare its block,
/// unless the primary proposed another block before, which starts a view change.
pub open spec fn pre_prepare_handled(world: World, message: ParsedView) -> Outcome {
    if message.info().signer_id != world.state.primary() {
        (world, Ok(()))
    } else if conflicting_pre_prepare(world.log, message) {
        if world.state.view == u64::MAX {
            (world, Err(PbftError::Halted(Halt::ViewOverflow)))
        } else {
            let (started, result) = view_change_started(world, (world.state.view + 1) as u64);
            (
                started,
                if result is Err {
                    result
                } else {
                    Err(PbftError::FaultyPrimary(PrimaryFault::MismatchedBlocks))
                },
            )
        }
    } else {
        let (logged, added) = world.logged(message);
        if added is Err {
            (logged, added)
        } else {
            preparing_tried(logged, message.block_id())
        }
    }
}

// ---------- Seals and catching up ----------

/// What sending the seal of the last block to a node does.
pub open spec fn seal_response_sent(world: World, recipient: Seq<u8>) -> Outcome {
    match built_seal(world.log, world.state) {
        Ok(seal) => {
            let response = SealResponseView {
                info: InfoView {
                    msg_type: PbftMessageType::SealResponse,
                    view: world.state.view,
                    seq_num: world.state.seq_num,
                    signer_id: world.state.id,
                },
                seal,
            };
            world.required(
                RequestView::SendTo {
                    peer: recipient,
                    msg_type: PbftMessageType::SealResponse,
                    payload: response.encode(),
                },
                ServiceCall::SendSeal,
            )
        },
        Err(fault) => (world, Err(PbftError::InternalError(InternalFault::RequestedSeal(fault)))),
    }
}

/// What a `SealRequest` does: it is answered at once if it is for the last block, and kept
/// otherwise.
pub open spec fn seal_request_handled(world: World, message: ParsedView) -> Outcome {
    if world.state.seq_num == message.info().seq_num + 1 {
        seal_response_sent(world, message.info().signer_id)
    } else {
        world.logged(message)
    }
}

/// The messages of votes; `None` where a vote holds none.
pub open spec fn vote_messages(votes: Seq<VoteView>) -> Option<Seq<ParsedView>> {
    if forall|i: int| 0 <= i < votes.len() ==> ParsedView::from_vote(#[trigger] votes[i]) is Some {
        Some(Seq::new(votes.len(), |i: int| ParsedView::from_vote(votes[i])->0))
    } else {
        None
    }
}

/// What comes of offering messages to the log one by one; the first that is not taken ends it.
pub open spec fn all_logged(world: World, messages: Seq<ParsedView>) -> Outcome
    decreases messages.len(),
{
    if messages.len() == 0 {
        (world, Ok(()))
    } else {
        let (before, added) = all_logged(world, messages.drop_last());
        if added is Err {
            (before, added)
        } else {
            before.logged(messages.last())
        }
    }
}

/// What committing the current block by its seal does.
pub open spec fn caught_up(world: World, seal: SealView, again: bool) -> Outcome {
    match vote_messages(seal.commit_votes) {
        Some(messages) => {
            let view = messages[0].info().view;
            let at_view = World {
                state: StateView {
                    view: if view > world.state.view {
                        view
                    } else {
                        world.state.view
                    },
                    ..world.state
                },
                ..world
            };
            let (logged, added) = all_logged(at_view, messages);
            if added is Err {
                (logged, added)
            } else {
                let (asked, done) = logged.required(
                    RequestView::CommitBlock { block_id: seal.block_id },
                    ServiceCall::CommitBlockWithCatchUp,
                );
                if done is Err {
                    (asked, done)
                } else {
                    (
                        World {
                            state: StateView {
                                faulty_primary_timeout: asked.state.faulty_primary_timeout.stopped(),
                                phase: PhaseView::Finishing(seal.block_id, again),
                                ..asked.state
                            },
                            ..asked
                        },
                        Ok(()),
                    )
                }
            }
        },
        None => (world, Err(PbftError::SerializationError(Unparsed::VoteMessage))),
    }
}

/// What is wrong with a seal for the current block, before its votes are looked at.
pub open spec fn seal_defect(world: World, seal: SealView) -> Option<MessageDefect> {
    match world.log.block_with_id(seal.block_id) {
        Some(block) => if block.block_num != world.state.seq_num {
            Some(MessageDefect::WrongSequenceNumber)
        } else if block.previous_id != seal.previous_id {
            Some(MessageDefect::Vote(VoteDefect::WrongPreviousId))
        } else {
            None
        },
        None => Some(MessageDefect::UnknownSealedBlock),
    }
}

/// What a `SealResponse` does: if the node has not committed the current block yet, and the seal is
/// valid and for that block, the block is committed.
pub open spec fn seal_response_handled(world: World, message: ParsedView) -> Outcome {
    match message.message {
        ContentView::SealResponse(response) => if world.state.phase is Finishing {
            (world, Ok(()))
        } else {
            match seal_defect(world, response.seal) {
                Some(defect) => (world, Err(PbftError::InvalidMessage(defect))),
                None => {
                    let (exchange, checked) = seal_checked(
                        world.exchange,
                        world.state,
                        response.seal,
                        response.info.signer_id,
                    );
                    let verified = World { exchange, ..world };
                    match checked {
                        Ok(_) => caught_up(verified, response.seal, false),
                        Err(error) => (verified, Err(error.spec_bad_seal())),
                    }
                },
            }
        },
        _ => (world, Ok(())),
    }
}

// ---------- Messages ----------

/// What a message does, by its kind.
pub open spec fn message_handled(world: World, message: ParsedView) -> Outcome {
    match message.msg_type() {
        PbftMessageType::PrePrepare => pre_prepare_handled(world, message),
        PbftMessageType::Prepare => prepare_handled(world, message),
        PbftMessageType::Commit => commit_handled(world, message),
        PbftMessageType::ViewChange => view_change_handled(world, message),
        PbftMessageType::NewView => new_view_handled(world, message),
        PbftMessageType::SealRequest => seal_request_handled(world, message),
        PbftMessageType::SealResponse => seal_response_handled(world, message),
        PbftMessageType::Unset => (world, Ok(())),
    }
}

/// What comes of a message from a peer.
pub open spec fn message_received(world: World, message: ParsedView) -> Outcome {
    received(world, message, message_handled(world, message))
}

/// What comes of broadcasting a message.
pub open spec fn message_sent(world: World, message: ParsedView) -> Outcome {
    let announced = world.announced(message);
    self_sent(announced, message, message_handled(announced, message))
}

// ---------- Blocks ----------

/// What comes of a new block.
pub open spec fn block_received(world: World, block: BlockView) -> Outcome {
    if block.block_num < world.state.seq_num {
        (world, Ok(()))
    } else {
        match world.log.block_with_id(block.previous_id) {
            Some(previous) => if previous.block_num != block.block_num - 1 {
                (
                    world.noted(RequestView::FailBlock { block_id: block.block_id }),
                    Err(PbftError::InternalError(InternalFault::WrongPreviousNumber)),
                )
            } else {
                let (exchange, checked) = block_seal_checked(
                    world.exchange,
                    world.log,
                    world.state,
                    block,
                );
                let verified = World { exchange, ..world };
                match checked {
                    Ok(seal) => block_accepted(verified, block, seal),
                    Err(VerifyError::Halted(halt)) => (verified, Err(PbftError::Halted(halt))),
                    Err(VerifyError::Rejected(rejection)) => (
                        verified.noted(RequestView::FailBlock { block_id: block.block_id }),
                        Err(PbftError::InvalidMessage(MessageDefect::BadSeal(rejection))),
                    ),
                }
            },
            None => (
                world.noted(RequestView::FailBlock { block_id: block.block_id }),
                Err(PbftError::InternalError(InternalFault::NoPreviousBlock)),
            ),
        }
    }
}

/// What comes of a new block whose seal is valid: a later block is used to catch up, unless the
/// node waits for the validator; the block at the current sequence number is proposed by the
/// primary that published it, and is prepared by the others if there is a `PrePrepare` for it.
pub open spec fn block_accepted(verified: World, block: BlockView, seal: SealView) -> Outcome {
    let world = World { log: verified.log.with_block(block), ..verified };
    if block.block_num > world.state.seq_num {
        if world.state.phase is Finishing {
            (world, Ok(()))
        } else {
            caught_up(world, seal, true)
        }
    } else if block.signer_id == world.state.id && world.state.is_primary() {
        message_sent(
            world,
            own_message(
                world.state,
                PbftMessageType::PrePrepare,
                world.state.view,
                world.state.seq_num,
                block.block_id,
            ),
        )
    } else {
        preparing_tried(world, block.block_id)
    }
}

/// The requests to reject blocks.
pub open spec fn fail_requests(block_ids: Seq<Seq<u8>>) -> Seq<RequestView> {
    Seq::new(block_ids.len(), |i: int| RequestView::FailBlock { block_id: block_ids[i] })
}

/// The blocks other than the given one.
pub open spec fn other_than(block_id: Seq<u8>) -> spec_fn(BlockView) -> bool {
    |b: BlockView| b.block_id != block_id
}

/// The IDs of blocks.
pub open spec fn ids_of(blocks: Seq<BlockView>) -> Seq<Seq<u8>> {
    Seq::new(blocks.len(), |i: int| blocks[i].block_id)
}

/// The blocks at the current sequence number that were not committed.
pub open spec fn uncommitted(world: World, block_id: Seq<u8>) -> Seq<Seq<u8>> {
    ids_of(world.log.blocks_with_num(world.state.seq_num).filter(other_than(block_id)))
}

/// The world after the other blocks at the current sequence number were rejected and the sequence
/// number was increased.
pub open spec fn advanced(world: World, block_id: Seq<u8>) -> World {
    World {
        exchange: Exchange {
            requests: world.exchange.requests + fail_requests(uncommitted(world, block_id)),
            replies: world.exchange.replies,
        },
        state: StateView { seq_num: (world.state.seq_num + 1) as u64, ..world.state },
        ..world
    }
}

/// The signers of messages.
pub open spec fn signer_list(messages: Seq<ParsedView>) -> Seq<Seq<u8>> {
    Seq::new(messages.len(), |i: int| messages[i].info().signer_id)
}

/// The nodes that asked for the seal of the last block.
pub open spec fn seal_requesters(world: World) -> Seq<Seq<u8>> {
    signer_list(
        world.log.messages.filter(
            of_type_seq(PbftMessageType::SealRequest, (world.state.seq_num - 1) as u64),
        ),
    )
}

/// What sending the seal of the last block to nodes does; that it could not be sent does not
/// matter.
pub open spec fn seal_responses_sent(world: World, recipients: Seq<Seq<u8>>) -> Outcome
    decreases recipients.len(),
{
    if recipients.len() == 0 {
        (world, Ok(()))
    } else {
        let (before, result) = seal_responses_sent(world, recipients.drop_last());
        if result is Err {
            (before, result)
        } else {
            let (sent, result) = seal_response_sent(before, recipients.last());
            (
                sent,
                match result {
                    Err(PbftError::Halted(halt)) => Err(PbftError::Halted(halt)),
                    _ => Ok(()),
                },
            )
        }
    }
}

/// Whether two lists hold the same nodes.
pub open spec fn same_members(a: Seq<Seq<u8>>, b: Seq<Seq<u8>>) -> bool {
    a.to_set() == b.to_set()
}

/// The state with the given list of peers, if its members are others than before, and whether they
/// are.
pub open spec fn membership_changed(state: StateView, setting: Option<Seq<char>>) -> (
    StateView,
    Result<bool, Halt>,
) {
    match listed_peers(setting) {
        Some(peers) => if same_members(peers, state.peer_ids) {
            (state, Ok(false))
        } else if peers.len() < 4 {
            (state, Err(Halt::NetworkTooSmall))
        } else {
            (
                StateView { peer_ids: peers, f: tolerated_faults(peers.len()) as u64, ..state },
                Ok(true),
            )
        },
        None => (state, Err(Halt::BadPeersSetting)),
    }
}

/// What checking the on-chain list of peers does, and whether its members are others than before.
pub open spec fn membership_updated(world: World, block_id: Seq<u8>) -> (World, Result<bool, Halt>) {
    let (exchange, setting) = world.exchange.setting_read(block_id);
    match setting {
        Ok(setting) => {
            let (state, changed) = membership_changed(world.state, setting);
            (World { exchange, state, ..world }, changed)
        },
        Err(halt) => (World { exchange, ..world }, Err(halt)),
    }
}

/// What is done about the members of the network and the view after a block: the on-chain list of
/// peers is taken over, and the view is increased if a view change must be forced or if the members
/// changed.
pub open spec fn view_updated(world: World, block_id: Seq<u8>) -> Outcome {
    let (checked, changed) = membership_updated(world, block_id);
    match changed {
        Ok(changed) => if !changed && !checked.state.at_forced_view_change() {
            (checked, Ok(()))
        } else if checked.state.view == u64::MAX {
            (checked, Err(PbftError::Halted(Halt::ViewOverflow)))
        } else {
            (
                World {
                    state: StateView { view: (checked.state.view + 1) as u64, ..checked.state },
                    ..checked
                },
                Ok(()),
            )
        },
        Err(halt) => (checked, Err(PbftError::Halted(halt))),
    }
}

/// What comes of trying to go on to prepare blocks one by one; the first error ends it.
pub open spec fn preparing_each_tried(world: World, block_ids: Seq<Seq<u8>>) -> Outcome
    decreases block_ids.len(),
{
    if block_ids.len() == 0 {
        (world, Ok(()))
    } else {
        let (before, result) = preparing_each_tried(world, block_ids.drop_last());
        if result is Err {
            (before, result)
        } else {
            preparing_tried(before, block_ids.last())
        }
    }
}

/// What asking the network for the seal of the current block does.
pub open spec fn final_seal_requested(world: World) -> Outcome {
    message_sent(
        world,
        own_message(
            world.state,
            PbftMessageType::SealRequest,
            world.state.view,
            world.state.seq_num,
            Seq::empty(),
        ),
    )
}

/// How the node goes on after a block was committed: it commits the next one too if it has a block
/// with a seal for it; if it is catching up, it asks for that seal, and no longer waits for the
/// validator, so that it can use the answer; else it starts over, with the blocks that it has for
/// the next sequence number, and the primary starts a block.
pub open spec fn next_block_begun(world: World, block_id: Seq<u8>, catching_up: bool) -> Outcome {
    let sealed_next = world.log.blocks_with_num((world.state.seq_num + 1) as u64);
    if sealed_next.len() > 0 {
        let (exchange, checked) = block_seal_checked(
            world.exchange,
            world.log,
            world.state,
            sealed_next[0],
        );
        let verified = World { exchange, ..world };
        match checked {
            Ok(seal) => caught_up(verified, seal, true),
            Err(error) => (verified, Err(error.spec_error())),
        }
    } else if catching_up {
        final_seal_requested(
            World { state: world.state.in_phase(PhaseView::PrePreparing), ..world },
        )
    } else {
        let reset = World { state: world.state.reset(), ..world };
        let (tried, result) = preparing_each_tried(
            reset,
            ids_of(reset.log.blocks_with_num(reset.state.seq_num)),
        );
        if result is Err {
            (tried, result)
        } else if tried.state.is_primary() {
            tried.required(
                RequestView::InitializeBlock { previous_id: Some(block_id) },
                ServiceCall::InitializeAfterCommit,
            )
        } else {
            (tried, Ok(()))
        }
    }
}

/// What comes of a block that the validator committed, if it is the one that the node waits for.
pub open spec fn block_committed(world: World, block_id: Seq<u8>) -> Outcome {
    match world.state.phase {
        PhaseView::Finishing(expected_id, catching_up) => if block_id != expected_id {
            (world, Ok(()))
        } else {
            let next = advanced(world, block_id);
            let (answered, result) = seal_responses_sent(next, seal_requesters(next));
            if result is Err {
                (answered, result)
            } else {
                let (updated, result) = view_updated(answered, block_id);
                if result is Err {
                    (updated, result)
                } else {
                    next_block_begun(
                        World { log: updated.log.collected(updated.state.seq_num), ..updated },
                        block_id,
                        catching_up,
                    )
                }
            }
        },
        _ => (world, Ok(())),
    }
}

/// What comes of trying to publish the block that was started: the primary does so once it has a
/// digest of it, with the seal of the block before, except for the first block.
pub open spec fn publishing_tried(world: World) -> Outcome {
    if !world.state.is_primary() || !(world.state.phase is PrePreparing) {
        (world, Ok(()))
    } else {
        let (exchange, summarized) = world.exchange.attempted(RequestView::SummarizeBlock);
        let asked = World { exchange, ..world };
        match summarized {
            Ok(true) => if asked.state.seq_num <= 1 {
                asked.required(
                    RequestView::FinalizeBlock { data: Seq::empty() },
                    ServiceCall::FinalizeBlock,
                )
            } else {
                match built_seal(asked.log, asked.state) {
                    Ok(seal) => asked.required(
                        RequestView::FinalizeBlock { data: seal.encode() },
                        ServiceCall::FinalizeBlock,
                    ),
                    Err(fault) => (
                        asked,
                        Err(PbftError::InternalError(InternalFault::Seal(fault))),
                    ),
                }
            },
            Ok(false) => (asked, Ok(())),
            Err(halt) => (asked, Err(PbftError::Halted(halt))),
        }
    }
}

} // verus!
