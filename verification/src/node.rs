//! The core PBFT algorithm.

use vstd::prelude::*;

use crate::ballot::{check_voters, have_same_members, judge_vote, VoteCriteria};
use crate::block::{Block, BlockId, BlockView, PeerId};
use crate::byte_string::{byte_set, byte_strings, copy_bytes, holds_bytes, insert_bytes, same_bytes};
use crate::config::{get_peers_from_settings, optional_text, PbftConfig};
use crate::error::{
    Halt, InternalFault, MessageDefect, PbftError, PrimaryFault, Rejection, SealFault, ServiceCall,
    Unparsed, VerifyError, VoteDefect,
};
use crate::hash::hash_sha512;
use crate::header::PeerMessageHeader;
use crate::hex_text::encode_hex;
use crate::message::{MessageContent, ParsedMessage, ParsedView};
use crate::message_log::{
    lemma_filter_ends, lemma_filter_positions, lemma_filter_step, message_views, of_type_seq_view,
    referenced_blocks, referenced_messages, with_num, LogView, PbftLog,
};
use crate::message_type::PbftMessageType;
use crate::model::{
    advanced, agreed, all_logged, block_committed, block_received, block_seal_checked, built_seal,
    caught_up, commit_handled, conflicting_pre_prepare, fail_requests, final_seal_requested,
    first_quorum, ids_of, last_commits, membership_changed, membership_updated, message_received,
    message_sent, new_view_checked, new_view_handled, next_block_begun, not_own, other_than,
    own_message, parsed_vote_checked, pre_prepare_handled, prepare_handled, preparing_each_tried,
    preparing_tried, publishing_tried, same_block_and_view, seal_checked, seal_for_block,
    seal_of_block, seal_request_handled, seal_requesters, seal_response_handled, seal_response_sent,
    seal_responses_sent, seal_voters_judged, signer_list, uncommitted, view_change_handled,
    view_change_started, view_updated, vote_checked, vote_messages, votes_checked, votes_of,
    CriteriaView, World,
};
use crate::proto::{PbftMessage, PbftMessageInfo};
use crate::quorum::find_quorum;
use crate::service::{Exchange, RequestView, Service, ServiceRequest};
use crate::state::{PbftMode, PbftPhase, PbftState, StateView};
use crate::timing::{scale_duration, Timeout};
use crate::vote::{
    vote_views, PbftNewView, PbftSeal, PbftSealResponse, PbftSignedVote, SealView, VoteView,
};

verus! {

/// Contains the core logic of the PBFT node.
#[derive(Debug)]
pub struct PbftNode {
    /// The requests to the validator, and its answers
    pub service: Service,
    /// Log of messages this node has received and accepted
    pub msg_log: PbftLog,
    /// Whether the node also sends itself what it broadcasts
    pub self_sending: bool,
}

/// What a node and its state amount to.
pub open spec fn world(node: PbftNode, state: PbftState) -> World {
    World {
        log: node.msg_log@,
        exchange: node.service@,
        self_sending: node.self_sending,
        state: state@,
    }
}

/// Whether two nodes differ at most in their exchange with the validator.
pub open spec fn same_but_service(a: PbftNode, b: PbftNode) -> bool {
    a.msg_log == b.msg_log && a.self_sending == b.self_sending
}

impl Clone for PbftNode {
    fn clone(&self) -> (copy: Self)
        ensures
            copy.service@ == self.service@,
            copy.msg_log@ == self.msg_log@,
            copy.self_sending == self.self_sending,
    {
        PbftNode {
            service: self.service.clone(),
            msg_log: self.msg_log.clone(),
            self_sending: self.self_sending,
        }
    }
}

/// Whether a request that must be carried out was.
fn required_done(done: Result<bool, Halt>, call: ServiceCall) -> (r: Result<(), PbftError>)
    ensures
        r == (match done {
            Ok(true) => Ok::<(), PbftError>(()),
            Ok(false) => Err(PbftError::ServiceError(call)),
            Err(halt) => Err(PbftError::Halted(halt)),
        }),
{
    match done {
        Ok(done) => if done {
            Ok(())
        } else {
            Err(PbftError::ServiceError(call))
        },
        Err(halt) => Err(PbftError::Halted(halt)),
    }
}

impl PbftNode {
    /// Construct a new PBFT node.
    ///
    /// If the node is the primary on start-up, it initializes a new block on the chain.
    pub fn new(config: &PbftConfig, chain_head: Block, service: Service, is_primary: bool) -> (node:
        PbftNode)
        ensures
            node.msg_log@ == (LogView {
                messages: Seq::empty(),
                blocks: seq![chain_head@],
                max_log_size: config.max_log_size,
            }),
            node.msg_log@.wf(),
            node.service@ == (if is_primary {
                service@.noted(RequestView::InitializeBlock { previous_id: None })
            } else {
                service@
            }),
            node.self_sending,
    {
        let mut n = PbftNode { service, msg_log: PbftLog::new(config), self_sending: true };
        // Add chain head to log
        n.msg_log.add_block(chain_head);
        assert(n.msg_log@.blocks =~= seq![chain_head@]);
        // Primary initializes a block
        if is_primary {
            n.service.note(ServiceRequest::InitializeBlock { previous_id: None });
        }
        n
    }
}

impl PbftNode {
    // ---------- Methods for verifying proofs and signed messages from other nodes ----------

    /// Verify that a parsed vote is of the expected kind, is properly signed, and is for what it
    /// must be for; if it passes verification, return the signer ID.
    pub fn verify_parsed_vote(
        &mut self,
        vote: &PbftSignedVote,
        message: &PbftMessage,
        header: &PeerMessageHeader,
        expected_type: PbftMessageType,
        criteria: &VoteCriteria,
    ) -> (r: Result<PeerId, VerifyError>)
        ensures
            same_but_service(*final(self), *old(self)),
            (match r {
                Ok(id) => parsed_vote_checked(
                    old(self).service@,
                    vote@,
                    message@,
                    header@,
                    expected_type,
                    criteria@,
                ) == (final(self).service@, Ok::<Seq<u8>, VerifyError>(id@)),
                Err(error) => parsed_vote_checked(
                    old(self).service@,
                    vote@,
                    message@,
                    header@,
                    expected_type,
                    criteria@,
                ) == (final(self).service@, Err::<Seq<u8>, VerifyError>(error)),
            }),
    {
        // Verify the message type
        if message.info.msg_type != expected_type {
            return Err(VerifyError::Rejected(Rejection::InvalidMessage(VoteDefect::WrongType)));
        }
        // Verify the signature
        let key = encode_hex(&header.signer_id);
        let signature = encode_hex(&vote.header_signature);
        let check = match self.service.check_signature(
            signature,
            copy_bytes(&vote.header_bytes),
            key,
        ) {
            Ok(check) => check,
            Err(halt) => {
                return Err(VerifyError::Halted(halt));
            },
        };
        // Verify the hash, and validate against the criteria
        let hash = hash_sha512(&vote.message_bytes);
        match judge_vote(message, check, &hash, &header.content_sha512, criteria) {
            Ok(id) => Ok(id),
            Err(rejection) => Err(VerifyError::Rejected(rejection)),
        }
    }

    /// Verify that a vote matches the expected type, is properly signed, and passes the specified
    /// criteria; if it passes verification, return the signer ID to be used for further
    /// verification.
    pub fn verify_vote(
        &mut self,
        vote: &PbftSignedVote,
        expected_type: PbftMessageType,
        criteria: &VoteCriteria,
    ) -> (r: Result<PeerId, VerifyError>)
        ensures
            same_but_service(*final(self), *old(self)),
            (match r {
                Ok(id) => vote_checked(old(self).service@, vote@, expected_type, criteria@) == (
                    final(self).service@,
                    Ok::<Seq<u8>, VerifyError>(id@),
                ),
                Err(error) => vote_checked(old(self).service@, vote@, expected_type, criteria@) == (
                    final(self).service@,
                    Err::<Seq<u8>, VerifyError>(error),
                ),
            }),
    {
        let message = match PbftMessage::from_bytes(&vote.message_bytes) {
            Some(message) => message,
            None => {
                return Err(
                    VerifyError::Rejected(Rejection::SerializationError(Unparsed::VoteMessage)),
                );
            },
        };
        let header = match PeerMessageHeader::from_bytes(&vote.header_bytes) {
            Some(header) => header,
            None => {
                return Err(
                    VerifyError::Rejected(Rejection::SerializationError(Unparsed::VoteHeader)),
                );
            },
        };
        self.verify_parsed_vote(vote, &message, &header, expected_type, criteria)
    }

    /// Verify each individual vote and extract the signer IDs.
    fn verify_votes(
        &mut self,
        votes: &Vec<PbftSignedVote>,
        expected_type: PbftMessageType,
        criteria: &VoteCriteria,
    ) -> (r: Result<Vec<PeerId>, VerifyError>)
        ensures
            same_but_service(*final(self), *old(self)),
            (match r {
                Ok(ids) => byte_strings(ids@).no_duplicates() && votes_checked(
                    old(self).service@,
                    vote_views(votes@),
                    expected_type,
                    criteria@,
                ) == (final(self).service@, Ok::<Set<Seq<u8>>, VerifyError>(byte_set(ids@))),
                Err(error) => votes_checked(
                    old(self).service@,
                    vote_views(votes@),
                    expected_type,
                    criteria@,
                ) == (final(self).service@, Err::<Set<Seq<u8>>, VerifyError>(error)),
            }),
    {
        let ghost all = vote_views(votes@);
        let ghost before = self.service@;
        let mut ids: Vec<PeerId> = Vec::new();
        let mut i: usize = 0;
        proof {
            assert(all.take(0) =~= Seq::<VoteView>::empty());
            assert(byte_set(ids@) =~= Set::<Seq<u8>>::empty());
        }
        while i < votes.len()
            invariant
                i <= votes@.len(),
                all == vote_views(votes@),
                before == old(self).service@,
                same_but_service(*self, *old(self)),
                byte_strings(ids@).no_duplicates(),
                votes_checked(before, all.take(i as int), expected_type, criteria@) == (
                    self.service@,
                    Ok::<Set<Seq<u8>>, VerifyError>(byte_set(ids@)),
                ),
            decreases votes@.len() - i,
        {
            proof {
                assert(all.take(i + 1).drop_last() =~= all.take(i as int));
                assert(all.take(i + 1).last() == all[i as int]);
            }
            match self.verify_vote(&votes[i], expected_type, criteria) {
                Ok(id) => {
                    insert_bytes(&mut ids, &id);
                },
                Err(error) => {
                    proof {
                        lemma_failed_votes(before, all, i + 1, expected_type, criteria@);
                    }
                    return Err(error);
                },
            }
            i += 1;
        }
        assert(all.take(all.len() as int) =~= all);
        Ok(ids)
    }

    /// Verify that a NewView messsage is valid.
    pub fn verify_new_view(&mut self, new_view: &PbftNewView, state: &PbftState) -> (r: Result<
        (),
        VerifyError,
    >)
        requires
            state@.wf(),
        ensures
            same_but_service(*final(self), *old(self)),
            (final(self).service@, r) == new_view_checked(old(self).service@, state@, new_view@),
    {
        // Make sure this is from the new primary
        if !same_bytes(
            &new_view.info.signer_id,
            &state.get_primary_id_at_view(new_view.info.view),
        ) {
            return Err(VerifyError::Rejected(Rejection::NotFromPrimary));
        }
        // Verify each individual vote, and that the votes are from 2f peers other than the primary
        match self.verify_votes(
            &new_view.view_changes,
            PbftMessageType::ViewChange,
            &VoteCriteria::View(new_view.info.view),
        ) {
            Ok(voter_ids) => match check_voters(
                &voter_ids,
                &state.peer_ids,
                &new_view.info.signer_id,
                state.f,
            ) {
                Ok(_) => Ok(()),
                Err(rejection) => Err(VerifyError::Rejected(rejection)),
            },
            Err(error) => Err(error),
        }
    }

    /// Verify that the voters of a seal are 2f of the peers that the setting lists, other than the
    /// node that the seal came from.
    pub fn check_seal_voters(
        setting: &Option<String>,
        voter_ids: &Vec<PeerId>,
        seal_signer_id: &[u8],
        f: u64,
    ) -> (r: Result<(), VerifyError>)
        requires
            byte_strings(voter_ids@).no_duplicates(),
        ensures
            r == seal_voters_judged(
                optional_text(*setting),
                byte_set(voter_ids@),
                seal_signer_id@,
                f,
            ),
    {
        match get_peers_from_settings(setting) {
            Some(peers) => match check_voters(voter_ids, &peers, seal_signer_id, f) {
                Ok(_) => Ok(()),
                Err(rejection) => Err(VerifyError::Rejected(rejection)),
            },
            None => Err(VerifyError::Halted(Halt::BadPeersSetting)),
        }
    }

    /// Verify the given consenus seal.
    pub fn verify_consensus_seal(
        &mut self,
        seal: &PbftSeal,
        seal_signer_id: &[u8],
        state: &PbftState,
    ) -> (r: Result<(), VerifyError>)
        ensures
            same_but_service(*final(self), *old(self)),
            (final(self).service@, r) == seal_checked(
                old(self).service@,
                state@,
                seal@,
                seal_signer_id@,
            ),
    {
        // Verify each individual vote and extract the signer ID from each PbftMessage so the IDs
        // can be verified
        let voter_ids = match self.verify_votes(
            &seal.commit_votes,
            PbftMessageType::Commit,
            &VoteCriteria::Block(copy_bytes(&seal.block_id)),
        ) {
            Ok(voter_ids) => voter_ids,
            Err(error) => {
                return Err(error);
            },
        };
        // Use the list of peers from the block this seal verifies, since it may have changed
        match self.service.read_peers_setting(copy_bytes(&seal.previous_id)) {
            Ok(setting) => Self::check_seal_voters(&setting, &voter_ids, seal_signer_id, state.f),
            Err(halt) => Err(VerifyError::Halted(halt)),
        }
    }

    /// Verify that a seal is for the block before the given one, which must be in the log.
    pub fn match_seal(&self, block: &Block, seal: PbftSeal) -> (r: Result<PbftSeal, Rejection>)
        ensures
            (match r {
                Ok(matched) => seal_for_block(self.msg_log@, block@, seal@) == Ok::<
                    SealView,
                    Rejection,
                >(matched@),
                Err(rejection) => seal_for_block(self.msg_log@, block@, seal@) == Err::<
                    SealView,
                    Rejection,
                >(rejection),
            }),
    {
        // Make sure this is the correct seal for the previous block
        if !same_bytes(&seal.block_id, &block.previous_id) {
            return Err(Rejection::InvalidMessage(VoteDefect::WrongSealedBlock));
        }
        // Make sure the seal's previous ID matches the previous ID of the block it verifies
        match self.msg_log.get_block_with_id(&seal.block_id) {
            Some(verified_block) => {
                if same_bytes(&verified_block.previous_id, &seal.previous_id) {
                    Ok(seal)
                } else {
                    Err(Rejection::InvalidMessage(VoteDefect::WrongPreviousId))
                }
            },
            None => Err(Rejection::SealedBlockMissing),
        }
    }

    /// Verify the consensus seal from the current block that proves the previous block and return
    /// the parsed seal.
    pub fn verify_consensus_seal_from_block(&mut self, block: &Block, state: &PbftState) -> (r: Result<
        PbftSeal,
        VerifyError,
    >)
        ensures
            same_but_service(*final(self), *old(self)),
            (match r {
                Ok(seal) => block_seal_checked(
                    old(self).service@,
                    old(self).msg_log@,
                    state@,
                    block@,
                ) == (final(self).service@, Ok::<SealView, VerifyError>(seal@)),
                Err(error) => block_seal_checked(
                    old(self).service@,
                    old(self).msg_log@,
                    state@,
                    block@,
                ) == (final(self).service@, Err::<SealView, VerifyError>(error)),
            }),
    {
        // Since block 0 is genesis, block 1 is the first that can be verified with a seal; this
        // means that the node won't see a seal until block 2
        if block.block_num < 2 {
            return Ok(PbftSeal::new());
        }
        // Parse the seal
        if block.payload.len() == 0 {
            return Err(VerifyError::Rejected(Rejection::InvalidMessage(VoteDefect::MissingSeal)));
        }
        let parsed = match PbftSeal::from_bytes(&block.payload) {
            Some(seal) => seal,
            None => {
                return Err(VerifyError::Rejected(Rejection::SerializationError(Unparsed::Seal)));
            },
        };
        let seal = match self.match_seal(block, parsed) {
            Ok(seal) => seal,
            Err(rejection) => {
                return Err(VerifyError::Rejected(rejection));
            },
        };
        // Verify the seal itself
        match self.verify_consensus_seal(&seal, &block.signer_id, state) {
            Ok(_) => Ok(seal),
            Err(error) => Err(error),
        }
    }
}

impl PbftNode {
    /// The messages of a list that other nodes sent.
    fn messages_of_others<'a>(messages: &Vec<&'a ParsedMessage>) -> (others: Vec<&'a ParsedMessage>)
        ensures
            referenced_messages(others@) == referenced_messages(messages@).filter(not_own()),
    {
        let ghost all = referenced_messages(messages@);
        let mut others: Vec<&'a ParsedMessage> = Vec::new();
        let mut i: usize = 0;
        proof {
            lemma_filter_ends(all, not_own());
            assert(referenced_messages(others@) =~= Seq::<ParsedView>::empty());
        }
        while i < messages.len()
            invariant
                i <= messages@.len(),
                all == referenced_messages(messages@),
                referenced_messages(others@) == all.take(i as int).filter(not_own()),
            decreases messages@.len() - i,
        {
            proof {
                lemma_filter_step(all, i as int, not_own());
            }
            if !messages[i].from_self {
                let ghost before = referenced_messages(others@);
                others.push(messages[i]);
                assert(referenced_messages(others@) =~= before.push(all[i as int]));
            }
            i += 1;
        }
        proof {
            lemma_filter_ends(all, not_own());
        }
        others
    }

    /// Generate a list of signed votes from a list of parsed messages.
    pub fn signed_votes_from_messages(msgs: &Vec<&ParsedMessage>) -> (votes: Vec<PbftSignedVote>)
        ensures
            vote_views(votes@) == votes_of(referenced_messages(msgs@)),
    {
        let mut votes: Vec<PbftSignedVote> = Vec::new();
        let mut i: usize = 0;
        while i < msgs.len()
            invariant
                i <= msgs@.len(),
                votes@.len() == i,
                forall|j: int| 0 <= j < i ==> (#[trigger] votes@[j])@ == msgs@[j]@.vote(),
            decreases msgs@.len() - i,
        {
            votes.push(
                PbftSignedVote {
                    header_bytes: copy_bytes(&msgs[i].header_bytes),
                    header_signature: copy_bytes(&msgs[i].header_signature),
                    message_bytes: copy_bytes(&msgs[i].message_bytes),
                },
            );
            i += 1;
        }
        assert(vote_views(votes@) =~= votes_of(referenced_messages(msgs@)));
        votes
    }

    /// Build a consensus seal that proves the last block committed by this node.
    pub fn build_seal(&self, state: &PbftState) -> (r: Result<PbftSeal, SealFault>)
        requires
            state@.wf(),
        ensures
            (match r {
                Ok(seal) => built_seal(self.msg_log@, state@) == Ok::<SealView, SealFault>(seal@),
                Err(fault) => built_seal(self.msg_log@, state@) == Err::<SealView, SealFault>(
                    fault,
                ),
            }),
    {
        // Leave out this node's own messages because self-sent messages aren't signed and
        // therefore can't be included in the seal
        let commits = Self::messages_of_others(
            &self.msg_log.get_messages_of_type_seq(PbftMessageType::Commit, state.seq_num - 1),
        );
        // The previous block may have been committed in a different view, so the node will need to
        // find the view that contains the required 2f Commit messages for building the seal
        let messages = match find_quorum(&commits, 2 * state.f) {
            Some(messages) => messages,
            None => {
                return Err(SealFault::NoCommits);
            },
        };
        proof {
            lemma_quorum_size(last_commits(self.msg_log@, state@), 2 * state.f, 0);
            assert(referenced_messages(messages@)[0] == messages@[0]@);
        }
        let block_id = messages[0].get_block_id();
        match self.msg_log.get_block_with_id(&block_id) {
            Some(block) => Ok(
                PbftSeal {
                    previous_id: copy_bytes(&block.previous_id),
                    commit_votes: Self::signed_votes_from_messages(&messages),
                    block_id,
                },
            ),
            None => Err(SealFault::NoBlock),
        }
    }

    /// Build a consensus seal for the last block this node committed and send it in a
    /// `SealResponse` message to the node that requested the seal (the `recipient`).
    pub fn send_seal_response(&mut self, state: &PbftState, recipient: &PeerId) -> (r: Result<
        (),
        PbftError,
    >)
        requires
            world(*old(self), *state).wf(),
        ensures
            same_but_service(*final(self), *old(self)),
            (world(*final(self), *state), r) == seal_response_sent(
                world(*old(self), *state),
                recipient@,
            ),
    {
        let seal = match self.build_seal(state) {
            Ok(seal) => seal,
            Err(fault) => {
                return Err(PbftError::InternalError(InternalFault::RequestedSeal(fault)));
            },
        };
        // Construct the response
        let seal_response = PbftSealResponse {
            info: PbftMessageInfo::new_from(
                PbftMessageType::SealResponse,
                state.view,
                state.seq_num,
                copy_bytes(&state.id),
            ),
            seal,
        };
        // Send the seal to the requester
        let done = self.service.attempt(
            ServiceRequest::SendTo {
                peer: copy_bytes(recipient),
                msg_type: PbftMessageType::SealResponse,
                payload: seal_response.to_bytes(),
            },
        );
        required_done(done, ServiceCall::SendSeal)
    }

    // ---------- Methods for handling messages ----------

    /// Whether the `PrePrepare` at the sequence number and view of a message is for the message's
    /// block, and the log has 2f + 1 messages of the given kind from different nodes that match it.
    fn has_agreement(&self, msg_type: PbftMessageType, msg: &ParsedMessage, state: &PbftState) -> (
    agreement: bool)
        requires
            state@.wf(),
        ensures
            agreement == agreed(world(*self, *state), msg_type, msg@),
    {
        match self.msg_log.get_first_msg(msg.info(), PbftMessageType::PrePrepare) {
            Some(pre_prep) => same_bytes(&pre_prep.get_block_id(), &msg.get_block_id())
                && self.msg_log.has_required_msgs(msg_type, pre_prep, true, 2 * state.f + 1),
            None => false,
        }
    }

    /// Handle a `Commit` message.
    ///
    /// Once a `Commit` for the current sequence number is accepted and added to the log, the node
    /// will check if it has the required 2f + 1 `Commit` messages for its block to actually commit
    /// the block.
    pub fn handle_commit(&mut self, msg: ParsedMessage, state: &mut PbftState) -> (r: Result<
        (),
        PbftError,
    >)
        requires
            world(*old(self), *old(state)).wf(),
        ensures
            (world(*final(self), *final(state)), r) == commit_handled(
                world(*old(self), *old(state)),
                msg@,
            ),
            world(*final(self), *final(state)).wf(),
    {
        let added = self.msg_log.add_message(msg.clone(), state);
        if added.is_err() {
            return added;
        }
        // If this message is for the current sequence number and the node is in the Committing
        // phase, check if the node is ready to commit the block: its log has 2f + 1 Commit messages
        // from different nodes that match the PrePrepare message received earlier, which is for
        // this message's block
        let committing = match state.phase {
            PbftPhase::Committing => true,
            _ => false,
        };
        if msg.info().seq_num == state.seq_num && committing && self.has_agreement(
            PbftMessageType::Commit,
            &msg,
            state,
        ) {
            let block_id = msg.get_block_id();
            let asked = self.service.attempt(
                ServiceRequest::CommitBlock { block_id: copy_bytes(&block_id) },
            );
            let done = required_done(asked, ServiceCall::CommitBlock);
            if done.is_err() {
                return done;
            }
            let switched = state.switch_phase(PbftPhase::Finishing(block_id, false));
            if switched.is_err() {
                return switched;
            }
            // Stop the commit timeout, since the network has agreed to commit the block
            state.commit_timeout.stop();
        }
        Ok(())
    }

    /// Handle a `SealRequest` message.
    ///
    /// A node is requesting a consensus seal for the last block. If the block has already been
    /// committed by this node, build the seal and send it to the requesting node; if the block has
    /// not been committed yet, add the request to the log and the node will build/send the seal
    /// when it's done committing.
    pub fn handle_seal_request(&mut self, msg: ParsedMessage, state: &mut PbftState) -> (r: Result<
        (),
        PbftError,
    >)
        requires
            world(*old(self), *old(state)).wf(),
        ensures
            (world(*final(self), *final(state)), r) == seal_request_handled(
                world(*old(self), *old(state)),
                msg@,
            ),
            world(*final(self), *final(state)).wf(),
    {
        if state.seq_num - 1 == msg.info().seq_num {
            let recipient = copy_bytes(&msg.info().signer_id);
            self.send_seal_response(state, &recipient)
        } else {
            self.msg_log.add_message(msg, state)
        }
    }

    /// Parse the votes of a seal.
    fn parse_votes(votes: &Vec<PbftSignedVote>) -> (r: Result<Vec<ParsedMessage>, PbftError>)
        ensures
            (match r {
                Ok(messages) => vote_messages(vote_views(votes@)) == Some(message_views(messages@)),
                Err(error) => vote_messages(vote_views(votes@)) is None && error
                    == PbftError::SerializationError(Unparsed::VoteMessage),
            }),
    {
        let ghost all = vote_views(votes@);
        let mut messages: Vec<ParsedMessage> = Vec::new();
        let mut i: usize = 0;
        while i < votes.len()
            invariant
                i <= votes@.len(),
                all == vote_views(votes@),
                messages@.len() == i,
                forall|j: int|
                    0 <= j < i ==> ParsedView::from_vote(#[trigger] all[j]) == Some(messages@[j]@),
            decreases votes@.len() - i,
        {
            match ParsedMessage::from_signed_vote(&votes[i]) {
                Ok(message) => {
                    assert(all[i as int] == votes@[i as int]@);
                    messages.push(message);
                },
                Err(error) => {
                    assert(ParsedView::from_vote(all[i as int]) is None);
                    return Err(error);
                },
            }
            i += 1;
        }
        proof {
            let parsed = vote_messages(all);
            assert(parsed is Some);
            assert forall|j: int| 0 <= j < all.len() implies parsed->0[j] == message_views(
                messages@,
            )[j] by {
                assert(ParsedView::from_vote(all[j]) == Some(messages@[j]@));
            }
            assert(parsed->0 =~= message_views(messages@));
        }
        Ok(messages)
    }

    /// Add messages to the log, up to the first that it does not take.
    fn add_messages(&mut self, messages: &Vec<ParsedMessage>, state: &PbftState) -> (r: Result<
        (),
        PbftError,
    >)
        requires
            world(*old(self), *state).wf(),
        ensures
            (world(*final(self), *state), r) == all_logged(
                world(*old(self), *state),
                message_views(messages@),
            ),
            world(*final(self), *state).wf(),
    {
        let ghost all = message_views(messages@);
        let ghost before = world(*self, *state);
        let mut i: usize = 0;
        assert(all.take(0) =~= Seq::<ParsedView>::empty());
        while i < messages.len()
            invariant
                i <= messages@.len(),
                all == message_views(messages@),
                before == world(*old(self), *state),
                world(*self, *state).wf(),
                all_logged(before, all.take(i as int)) == (
                    world(*self, *state),
                    Ok::<(), PbftError>(()),
                ),
            decreases messages@.len() - i,
        {
            proof {
                assert(all.take(i + 1).drop_last() =~= all.take(i as int));
                assert(all.take(i + 1).last() == all[i as int]);
            }
            let added = self.msg_log.add_message(messages[i].clone(), state);
            if added.is_err() {
                proof {
                    assert(all_logged(before, all.take(i + 1)) == (world(*self, *state), added));
                    lemma_failed_logging(before, all, i + 1);
                }
                return added;
            }
            i += 1;
        }
        assert(all.take(all.len() as int) =~= all);
        Ok(())
    }

    /// Use the given consensus seal to verify and commit the block this node is working on.
    pub fn catchup(&mut self, state: &mut PbftState, seal: &PbftSeal, catchup_again: bool) -> (r: Result<
        (),
        PbftError,
    >)
        requires
            world(*old(self), *old(state)).wf(),
            seal.commit_votes@.len() > 0,
        ensures
            (world(*final(self), *final(state)), r) == caught_up(
                world(*old(self), *old(state)),
                seal@,
                catchup_again,
            ),
            world(*final(self), *final(state)).wf(),
    {
        let messages = match Self::parse_votes(&seal.commit_votes) {
            Ok(messages) => messages,
            Err(error) => {
                return Err(error);
            },
        };
        assert(message_views(messages@)[0] == messages@[0]@);
        // Update view if necessary
        let view: u64 = messages[0].info().view;
        if view > state.view {
            state.view = view;
        }
        // Add messages to the log
        let added = self.add_messages(&messages, state);
        if added.is_err() {
            return added;
        }
        // Commit the block, stop the faulty primary timeout, and skip straight to Finishing
        let asked = self.service.attempt(
            ServiceRequest::CommitBlock { block_id: copy_bytes(&seal.block_id) },
        );
        let done = required_done(asked, ServiceCall::CommitBlockWithCatchUp);
        if done.is_err() {
            return done;
        }
        state.faulty_primary_timeout.stop();
        state.phase = PbftPhase::Finishing(copy_bytes(&seal.block_id), catchup_again);
        Ok(())
    }

    /// Handle a `SealResponse` message.
    ///
    /// A node has responded to the seal request by sending a seal for the last block; validate the
    /// seal and commit the block.
    pub fn handle_seal_response(&mut self, msg: &ParsedMessage, state: &mut PbftState) -> (r: Result<
        (),
        PbftError,
    >)
        requires
            world(*old(self), *old(state)).wf(),
            msg@.message is SealResponse,
        ensures
            (world(*final(self), *final(state)), r) == seal_response_handled(
                world(*old(self), *old(state)),
                msg@,
            ),
            world(*final(self), *final(state)).wf(),
    {
        let response = match &msg.message {
            MessageContent::SealResponse(response) => response,
            _ => {
                return Ok(());
            },
        };
        let seal = &response.seal;
        // If the node has already committed the block, ignore
        if let PbftPhase::Finishing(_, _) = state.phase {
            return Ok(());
        }
        // Make sure that this seal is for a block that the node has at this sequence number and
        // that the seal's previous ID matches the previous ID of the block
        match self.msg_log.get_block_with_id(&seal.block_id) {
            Some(block) => {
                if block.block_num != state.seq_num {
                    return Err(PbftError::InvalidMessage(MessageDefect::WrongSequenceNumber));
                }
                if !same_bytes(&block.previous_id, &seal.previous_id) {
                    return Err(
                        PbftError::InvalidMessage(
                            MessageDefect::Vote(VoteDefect::WrongPreviousId),
                        ),
                    );
                }
            },
            None => {
                return Err(PbftError::InvalidMessage(MessageDefect::UnknownSealedBlock));
            },
        }
        // Verify the seal
        let ghost before = self.service@;
        match self.verify_consensus_seal(seal, &response.info.signer_id, state) {
            Ok(_) => {},
            Err(error) => {
                return Err(error.bad_seal());
            },
        }
        proof {
            lemma_valid_seal_has_votes(before, state@, seal@, response.info.signer_id@);
            assert(vote_views(seal.commit_votes@).len() > 0);
        }
        // Catch up
        self.catchup(state, seal, false)
    }
}

/// How many views are left to the message that is handled: a `NewView` is for its own view, and the
/// others come to a node that is at a view or is changing to one.
pub open spec fn views_left(world: World, message: ParsedView) -> int {
    if message.msg_type() == PbftMessageType::NewView {
        u64::MAX - message.info().view
    } else {
        u64::MAX - world.target()
    }
}

/// How many kinds of messages can follow one of the given kind.
pub open spec fn kinds_left(msg_type: PbftMessageType) -> int {
    match msg_type {
        PbftMessageType::PrePrepare => 5,
        PbftMessageType::Prepare => 4,
        PbftMessageType::Commit => 3,
        PbftMessageType::ViewChange => 2,
        PbftMessageType::NewView => 1,
        _ => 0,
    }
}

impl PbftNode {
    /// Handle a peer message from another PbftNode.
    ///
    /// Handle all messages from other nodes. Such messages include `PrePrepare`, `Prepare`,
    /// `Commit`, `ViewChange`, and `NewView`. Make sure the message is from a known peer. If the
    /// node is view changing, ignore all messages that aren't `ViewChange`s or `NewView`s.
    pub fn on_peer_message(&mut self, msg: ParsedMessage, state: &mut PbftState) -> (r: Result<
        (),
        PbftError,
    >)
        requires
            world(*old(self), *old(state)).wf(),
            msg@.message.consistent(),
        ensures
            (world(*final(self), *final(state)), r) == message_received(
                world(*old(self), *old(state)),
                msg@,
            ),
            world(*final(self), *final(state)).wf(),
        decreases
                views_left(world(*old(self), *old(state)), msg@),
                10 * kinds_left(msg@.msg_type()) + 2,
    {
        // Make sure this message is from a known peer
        if !holds_bytes(&state.peer_ids, &msg.info().signer_id) {
            return Err(PbftError::InvalidMessage(MessageDefect::UnknownPeer));
        }
        let msg_type = msg.info().msg_type;
        // If this node is in the process of a view change, ignore all messages except ViewChanges
        // and NewViews
        if state.is_view_changing() && msg_type != PbftMessageType::ViewChange && msg_type
            != PbftMessageType::NewView {
            return Ok(());
        }
        match msg_type {
            PbftMessageType::PrePrepare => self.handle_pre_prepare(msg, state),
            PbftMessageType::Prepare => self.handle_prepare(msg, state),
            PbftMessageType::Commit => self.handle_commit(msg, state),
            PbftMessageType::ViewChange => self.handle_view_change(&msg, state),
            PbftMessageType::NewView => self.handle_new_view(&msg, state),
            PbftMessageType::SealRequest => self.handle_seal_request(msg, state),
            PbftMessageType::SealResponse => self.handle_seal_response(&msg, state),
            PbftMessageType::Unset => Ok(()),
        }
    }

    /// Handle a `PrePrepare` message.
    ///
    /// A `PrePrepare` message is accepted and added to the log if the following are true:
    /// - The message signature is valid (already verified by validator)
    /// - The message is from the primary
    /// - A `PrePrepare` message does not already exist at this view and sequence number with a
    ///   different block
    /// - The message's view matches the node's current view (handled by message log)
    ///
    /// Once a `PrePrepare` for the current sequence number is accepted and added to the log, the
    /// node will try to switch to the `Preparing` phase.
    pub fn handle_pre_prepare(&mut self, msg: ParsedMessage, state: &mut PbftState) -> (r: Result<
        (),
        PbftError,
    >)
        requires
            world(*old(self), *old(state)).wf(),
        ensures
            (world(*final(self), *final(state)), r) == pre_prepare_handled(
                world(*old(self), *old(state)),
                msg@,
            ),
            world(*final(self), *final(state)).wf(),
        decreases u64::MAX - world(*old(self), *old(state)).target(), 51int,
    {
        // Check that the message is from the current primary
        if !same_bytes(&msg.info().signer_id, &state.get_primary_id()) {
            return Ok(());
        }
        // Check that no `PrePrepare`s already exist with this view and sequence number but a
        // different block; if this is violated, the primary is faulty so initiate a view change
        if self.has_conflicting_pre_prepare(&msg) {
            if state.view == u64::MAX {
                return Err(PbftError::Halted(Halt::ViewOverflow));
            }
            let next_view: u64 = state.view + 1;
            let started = self.start_view_change(state, next_view);
            if started.is_err() {
                return started;
            }
            return Err(PbftError::FaultyPrimary(PrimaryFault::MismatchedBlocks));
        }
        // Add message to the log
        let block_id = msg.get_block_id();
        let added = self.msg_log.add_message(msg, state);
        if added.is_err() {
            return added;
        }
        // If the node is in the PrePreparing phase, this message is for the current sequence
        // number, and the node already has this block: switch to Preparing
        self.try_preparing(block_id, state)
    }

    /// Whether the log has a `PrePrepare` for another block at the sequence number and view of a
    /// message.
    fn has_conflicting_pre_prepare(&self, msg: &ParsedMessage) -> (conflict: bool)
        ensures
            conflict == conflicting_pre_prepare(self.msg_log@, msg@),
    {
        let seq_num: u64 = msg.info().seq_num;
        let view: u64 = msg.info().view;
        let block_id = msg.get_block_id();
        let ghost pred = of_type_seq_view(PbftMessageType::PrePrepare, seq_num, view);
        let mut i: usize = 0;
        while i < self.msg_log.messages.len()
            invariant
                i <= self.msg_log.messages@.len(),
                seq_num == msg@.info().seq_num,
                view == msg@.info().view,
                block_id@ == msg@.block_id(),
                pred == of_type_seq_view(PbftMessageType::PrePrepare, seq_num, view),
                forall|j: int|
                    0 <= j < i ==> !(pred(#[trigger] self.msg_log@.messages[j])
                        && self.msg_log@.messages[j].block_id() != block_id@),
            decreases self.msg_log.messages@.len() - i,
        {
            let existing = &self.msg_log.messages[i];
            let info = existing.info();
            if info.msg_type == PbftMessageType::PrePrepare && info.seq_num == seq_num && info.view
                == view && !same_bytes(&existing.get_block_id(), &block_id) {
                assert(pred(self.msg_log@.messages[i as int]));
                return true;
            }
            assert(!(pred(self.msg_log@.messages[i as int])
                && self.msg_log@.messages[i as int].block_id() != block_id@));
            i += 1;
        }
        false
    }

    /// Handle a `Prepare` message.
    ///
    /// Once a `Prepare` for the current sequence number is accepted and added to the log, the node
    /// will check if it has the required 2f + 1 `Prepare` messages for its block to move on to the
    /// Committing phase.
    pub fn handle_prepare(&mut self, msg: ParsedMessage, state: &mut PbftState) -> (r: Result<
        (),
        PbftError,
    >)
        requires
            world(*old(self), *old(state)).wf(),
        ensures
            (world(*final(self), *final(state)), r) == prepare_handled(
                world(*old(self), *old(state)),
                msg@,
            ),
            world(*final(self), *final(state)).wf(),
        decreases u64::MAX - world(*old(self), *old(state)).target(), 41int,
    {
        let added = self.msg_log.add_message(msg.clone(), state);
        if added.is_err() {
            return added;
        }
        // If this message is for the current sequence number and the node is in the Preparing
        // phase, check if the node is ready to move on to the Committing phase: its log has 2f + 1
        // Prepare messages from different nodes that match the PrePrepare message received earlier,
        // which is for this message's block
        let preparing = match state.phase {
            PbftPhase::Preparing => true,
            _ => false,
        };
        if msg.info().seq_num == state.seq_num && preparing && self.has_agreement(
            PbftMessageType::Prepare,
            &msg,
            state,
        ) {
            let switched = state.switch_phase(PbftPhase::Committing);
            if switched.is_err() {
                return switched;
            }
            let seq_num: u64 = state.seq_num;
            let block_id = msg.get_block_id();
            return self._broadcast_pbft_message(seq_num, PbftMessageType::Commit, block_id, state);
        }
        Ok(())
    }

    /// Handle a `ViewChange` message.
    ///
    /// When a `ViewChange` is received, check that it isn't outdated and add it to the log. If the
    /// node isn't already view changing but it now has f + 1 ViewChange messages, start view
    /// changing early. If the node is the primary and has 2f view change messages now, broadcast
    /// the NewView message to the rest of the nodes to move to the new view.
    pub fn handle_view_change(&mut self, msg: &ParsedMessage, state: &mut PbftState) -> (r: Result<
        (),
        PbftError,
    >)
        requires
            world(*old(self), *old(state)).wf(),
        ensures
            (world(*final(self), *final(state)), r) == view_change_handled(
                world(*old(self), *old(state)),
                msg@,
            ),
            world(*final(self), *final(state)).wf(),
        decreases u64::MAX - world(*old(self), *old(state)).target(), 21int,
    {
        // Ignore old view change messages (already on a view >= the one this message is
        // for or already trying to change to a later view)
        let msg_view: u64 = msg.info().view;
        let outdated = match state.mode {
            PbftMode::ViewChanging(v) => msg_view < v,
            PbftMode::Normal => false,
        };
        if msg_view <= state.view || outdated {
            return Ok(());
        }
        let added = self.msg_log.add_message(msg.clone(), state);
        if added.is_err() {
            return added;
        }
        // Even if the node hasn't detected a faulty primary yet, start view changing if there are
        // f + 1 ViewChange messages in the log for this proposed view (but if already view
        // changing, only do this for a later view); this will prevent starting the view change too
        // late
        let later = match state.mode {
            PbftMode::ViewChanging(v) => msg_view > v,
            PbftMode::Normal => true,
        };
        if later && self.msg_log.has_required_msgs(
            PbftMessageType::ViewChange,
            msg,
            false,
            state.f + 1,
        ) {
            let started = self.start_view_change(state, msg_view);
            if started.is_err() {
                return started;
            }
        }
        // If this node is the new primary and the required 2f ViewChange messages (not including
        // the primary's own) are present in the log, broadcast the NewView message
        let messages = Self::messages_of_others(
            &self.msg_log.get_messages_of_type_view(PbftMessageType::ViewChange, msg_view),
        );
        if state.is_primary_at_view(msg_view) && messages.len() as u64 >= 2 * state.f {
            let new_view = PbftNewView {
                info: PbftMessageInfo::new_from(
                    PbftMessageType::NewView,
                    msg_view,
                    state.seq_num - 1,
                    copy_bytes(&state.id),
                ),
                view_changes: Self::signed_votes_from_messages(&messages),
            };
            let parsed = ParsedMessage::from_new_view_message(new_view);
            return self._broadcast_message(parsed, state);
        }
        Ok(())
    }

    /// Handle a `NewView` message.
    ///
    /// When a `NewView` is received, first check that the node is expecting it and verify that it
    /// is valid. If the NewView is invalid, start a new view change for the next view; if the
    /// NewView is valid, update the view and the node's state.
    pub fn handle_new_view(&mut self, msg: &ParsedMessage, state: &mut PbftState) -> (r: Result<
        (),
        PbftError,
    >)
        requires
            world(*old(self), *old(state)).wf(),
            msg@.message is NewView,
        ensures
            (world(*final(self), *final(state)), r) == new_view_handled(
                world(*old(self), *old(state)),
                msg@,
            ),
            world(*final(self), *final(state)).wf(),
        decreases u64::MAX - msg@.info().view, 11int,
    {
        let new_view = match &msg.message {
            MessageContent::NewView(new_view) => new_view,
            _ => {
                return Ok(());
            },
        };
        // Make sure this is a NewView that the node is expecting; if this isn't enforced, a faulty
        // node could send an invalid NewView message to arbitrarily initiate a view change across
        // the network
        let view: u64 = new_view.info.view;
        let expected = match state.mode {
            PbftMode::ViewChanging(v) => v == view,
            PbftMode::Normal => false,
        };
        if !expected {
            return Ok(());
        }
        match self.verify_new_view(new_view, state) {
            Err(VerifyError::Rejected(Rejection::NotFromPrimary)) => {
                // Not the new primary that's faulty, so no need to do a new view change,
                // just don't proceed any further
                return Ok(());
            },
            Err(VerifyError::Halted(halt)) => {
                return Err(PbftError::Halted(halt));
            },
            Err(VerifyError::Rejected(rejection)) => {
                if view == u64::MAX {
                    return Err(PbftError::Halted(Halt::ViewOverflow));
                }
                let next_view: u64 = view + 1;
                let started = self.start_view_change(state, next_view);
                if started.is_err() {
                    return started;
                }
                return Err(
                    PbftError::FaultyPrimary(PrimaryFault::BadNewView { next_view, rejection }),
                );
            },
            Ok(_) => {},
        }
        // Update view
        state.view = view;
        state.view_change_timeout.stop();
        state.reset_to_start();
        // Initialize a new block if this node is the new primary
        if state.is_primary() {
            let done = self.service.attempt(ServiceRequest::InitializeBlock { previous_id: None });
            return required_done(done, ServiceCall::InitializeAfterViewChange);
        }
        Ok(())
    }

    /// When the node has a block and a corresponding PrePrepare for its current sequence number,
    /// and it is in the PrePreparing phase, it can enter the Preparing phase and broadcast its
    /// Prepare.
    pub fn try_preparing(&mut self, block_id: BlockId, state: &mut PbftState) -> (r: Result<
        (),
        PbftError,
    >)
        requires
            world(*old(self), *old(state)).wf(),
        ensures
            (world(*final(self), *final(state)), r) == preparing_tried(
                world(*old(self), *old(state)),
                block_id@,
            ),
            world(*final(self), *final(state)).wf(),
        decreases u64::MAX - world(*old(self), *old(state)).target(), 45int,
    {
        let pre_preparing = match state.phase {
            PbftPhase::PrePreparing => true,
            _ => false,
        };
        // PrePrepare.seq_num == state.seq_num == block.block_num enforces the one-to-one
        // correlation between seq_num and block_num (PrePrepare n should be for block n)
        let ready = match self.msg_log.get_block_with_id(&block_id) {
            Some(block) => pre_preparing && self.msg_log.has_pre_prepare(state, &block_id)
                && block.block_num == state.seq_num,
            None => false,
        };
        if ready {
            let switched = state.switch_phase(PbftPhase::Preparing);
            if switched.is_err() {
                return switched;
            }
            // Stop view change timer, since a new block and valid PrePrepare were received in time
            state.faulty_primary_timeout.stop();
            // Now start the commit timeout in case something goes wrong
            state.commit_timeout.start(state.now);
            let seq_num: u64 = state.seq_num;
            return self._broadcast_pbft_message(seq_num, PbftMessageType::Prepare, block_id, state);
        }
        Ok(())
    }

    // ---------- Methods for communication between nodes ----------

    /// Construct the message and broadcast it to all of this node's peers and itself.
    pub fn _broadcast_pbft_message(
        &mut self,
        seq_num: u64,
        msg_type: PbftMessageType,
        block_id: BlockId,
        state: &mut PbftState,
    ) -> (r: Result<(), PbftError>)
        requires
            world(*old(self), *old(state)).wf(),
            msg_type != PbftMessageType::NewView,
            msg_type != PbftMessageType::SealResponse,
        ensures
            (world(*final(self), *final(state)), r) == message_sent(
                world(*old(self), *old(state)),
                own_message(old(state)@, msg_type, old(state).view, seq_num, block_id@),
            ),
            world(*final(self), *final(state)).wf(),
        decreases
                u64::MAX - world(*old(self), *old(state)).target(),
                10 * kinds_left(msg_type) + 4,
    {
        let msg = PbftMessage {
            info: PbftMessageInfo::new_from(msg_type, state.view, seq_num, copy_bytes(&state.id)),
            block_id,
        };
        self._broadcast_message(ParsedMessage::from_pbft_message(msg), state)
    }

    /// Broadcast the specified message to all of the node's peers, including itself.
    pub fn _broadcast_message(&mut self, msg: ParsedMessage, state: &mut PbftState) -> (r: Result<
        (),
        PbftError,
    >)
        requires
            world(*old(self), *old(state)).wf(),
            msg@.message.consistent(),
        ensures
            (world(*final(self), *final(state)), r) == message_sent(
                world(*old(self), *old(state)),
                msg@,
            ),
            world(*final(self), *final(state)).wf(),
        decreases
                views_left(world(*old(self), *old(state)), msg@),
                10 * kinds_left(msg@.msg_type()) + 3,
    {
        // Broadcast to peers
        self.service.note(
            ServiceRequest::Broadcast {
                msg_type: msg.info().msg_type,
                payload: copy_bytes(&msg.message_bytes),
            },
        );
        // Send to self
        if self.self_sending {
            self.on_peer_message(msg, state)
        } else {
            Ok(())
        }
    }

    // ---------- Miscellaneous methods ----------

    /// Start a view change when this node suspects that the primary is faulty.
    ///
    /// Update state to reflect that the node is now in the process of this view change, start the
    /// view change timeout, and broadcast a view change message.
    pub fn start_view_change(&mut self, state: &mut PbftState, view: u64) -> (r: Result<
        (),
        PbftError,
    >)
        requires
            world(*old(self), *old(state)).wf(),
        ensures
            (world(*final(self), *final(state)), r) == view_change_started(
                world(*old(self), *old(state)),
                view,
            ),
            world(*final(self), *final(state)).wf(),
        decreases
                u64::MAX - (if view >= world(*old(self), *old(state)).target() {
                    view
                } else {
                    world(*old(self), *old(state)).target()
                }),
                24int,
    {
        // Do not send messages again if we are already in the midst of this or a later view change
        let already = match state.mode {
            PbftMode::ViewChanging(v) => view <= v,
            PbftMode::Normal => false,
        };
        if already {
            return Ok(());
        }
        state.mode = PbftMode::ViewChanging(view);
        // Stop the faulty primary and commit timeouts because they are not needed until after the
        // view change
        state.faulty_primary_timeout.stop();
        state.commit_timeout.stop();
        // Update the view change timeout and start it
        if view < state.view {
            return Err(PbftError::Halted(Halt::StaleViewChange));
        }
        let duration: u128 = match scale_duration(state.view_change_duration, view - state.view) {
            Some(duration) => duration,
            None => {
                return Err(PbftError::Halted(Halt::TimeoutOverflow));
            },
        };
        state.view_change_timeout = Timeout::new(duration);
        state.view_change_timeout.start(state.now);
        // Broadcast the view change message
        let vc_msg = PbftMessage {
            info: PbftMessageInfo::new_from(
                PbftMessageType::ViewChange,
                view,
                state.seq_num - 1,
                copy_bytes(&state.id),
            ),
            block_id: Vec::new(),
        };
        let parsed = ParsedMessage::from_pbft_message(vc_msg);
        assert(vc_msg.block_id@ =~= Seq::<u8>::empty());
        self._broadcast_message(parsed, state)
    }
}

impl PbftNode {
    // ---------- Methods for handling Updates from the Validator ----------

    /// Handle a `BlockNew` update from the Validator.
    ///
    /// The validator has received a new block; verify the block's consensus seal and add the block
    /// to the log. If this is the block the node is waiting for and this node is the primary,
    /// broadcast a PrePrepare; if the node isn't the primary but it already has the PrePrepare for
    /// this block, switch to `Preparing`. If this is a future block, use it to catch up.
    pub fn on_block_new(&mut self, block: Block, state: &mut PbftState) -> (r: Result<(), PbftError>)
        requires
            world(*old(self), *old(state)).wf(),
        ensures
            (world(*final(self), *final(state)), r) == block_received(
                world(*old(self), *old(state)),
                block@,
            ),
            world(*final(self), *final(state)).wf(),
    {
        if block.block_num < state.seq_num {
            return Ok(());
        }
        // Make sure the node already has the previous block, since the consensus seal can't be
        // verified without it
        let previous_num: u64 = match self.msg_log.get_block_with_id(&block.previous_id) {
            Some(previous_block) => previous_block.block_num,
            None => {
                self.service.note(ServiceRequest::FailBlock { block_id: block.block_id });
                return Err(PbftError::InternalError(InternalFault::NoPreviousBlock));
            },
        };
        // Make sure that the previous block has the previous block number (enforces that blocks
        // are strictly monotically increasing by 1)
        if previous_num != block.block_num - 1 {
            self.service.note(ServiceRequest::FailBlock { block_id: block.block_id });
            return Err(PbftError::InternalError(InternalFault::WrongPreviousNumber));
        }
        let ghost before = world(*self, *state);
        let seal = match self.verify_consensus_seal_from_block(&block, state) {
            Ok(seal) => seal,
            Err(VerifyError::Halted(halt)) => {
                return Err(PbftError::Halted(halt));
            },
            Err(VerifyError::Rejected(rejection)) => {
                self.service.note(ServiceRequest::FailBlock { block_id: block.block_id });
                return Err(PbftError::InvalidMessage(MessageDefect::BadSeal(rejection)));
            },
        };
        // Add block to the log
        self.msg_log.add_block(block.clone());
        // This block's seal can be used to commit the block previous to it (i.e. catch-up) if it's
        // a future block and the node isn't waiting for a commit message for a previous block (if
        // it is waiting for a commit message, catch-up will have to be done after the message is
        // received)
        let is_waiting = match state.phase {
            PbftPhase::Finishing(_, _) => true,
            _ => false,
        };
        if block.block_num > state.seq_num {
            if is_waiting {
                return Ok(());
            }
            proof {
                lemma_sealed_block(before.exchange, before.log, before.state, block@);
                assert(vote_views(seal.commit_votes@).len() > 0);
            }
            self.catchup(state, &seal, true)
        } else if same_bytes(&block.signer_id, &state.id) && state.is_primary() {
            // This is the next block and this node is the primary; broadcast PrePrepare messages
            let seq_num: u64 = state.seq_num;
            self._broadcast_pbft_message(seq_num, PbftMessageType::PrePrepare, block.block_id, state)
        } else {
            // If the node is in the PrePreparing phase and it already has a PrePrepare for
            // this block: switch to Preparing
            self.try_preparing(block.block_id, state)
        }
    }

    /// Request the consensus seal for the next block from the network so the node can finish the
    /// catch-up process.
    pub fn request_final_seal(&mut self, state: &mut PbftState) -> (r: Result<(), PbftError>)
        requires
            world(*old(self), *old(state)).wf(),
        ensures
            (world(*final(self), *final(state)), r) == final_seal_requested(
                world(*old(self), *old(state)),
            ),
            world(*final(self), *final(state)).wf(),
    {
        // The node doesn't know which block that the network decided to commit, so it can't
        // request the seal for a specific block (hence not including a block ID with this message)
        let seal_request = PbftMessage {
            info: PbftMessageInfo::new_from(
                PbftMessageType::SealRequest,
                state.view,
                state.seq_num,
                copy_bytes(&state.id),
            ),
            block_id: Vec::new(),
        };
        let parsed = ParsedMessage::from_pbft_message(seal_request);
        assert(seal_request.block_id@ =~= Seq::<u8>::empty());
        self._broadcast_message(parsed, state)
    }

    /// The blocks at the current sequence number that were not committed.
    fn uncommitted_blocks(&self, block_id: &BlockId, state: &PbftState) -> (ids: Vec<BlockId>)
        ensures
            byte_strings(ids@) == uncommitted(world(*self, *state), block_id@),
    {
        let blocks = self.msg_log.get_blocks_with_num(state.seq_num);
        let ghost all = referenced_blocks(blocks@);
        let ghost pred = other_than(block_id@);
        let mut ids: Vec<BlockId> = Vec::new();
        let mut i: usize = 0;
        proof {
            lemma_filter_ends(all, pred);
            assert(byte_strings(ids@) =~= ids_of(all.take(0).filter(pred)));
        }
        while i < blocks.len()
            invariant
                i <= blocks@.len(),
                all == referenced_blocks(blocks@),
                pred == other_than(block_id@),
                byte_strings(ids@) == ids_of(all.take(i as int).filter(pred)),
            decreases blocks@.len() - i,
        {
            let ghost before = byte_strings(ids@);
            let ghost found = all.take(i as int).filter(pred);
            proof {
                lemma_filter_step(all, i as int, pred);
                assert(all[i as int] == blocks@[i as int]@);
            }
            if !same_bytes(&blocks[i].block_id, block_id) {
                ids.push(copy_bytes(&blocks[i].block_id));
                assert(byte_strings(ids@) =~= before.push(all[i as int].block_id));
                assert(ids_of(found.push(all[i as int])) =~= ids_of(found).push(
                    all[i as int].block_id,
                ));
            }
            i += 1;
        }
        ids
    }

    /// Reject blocks.
    fn fail_blocks(&mut self, ids: &Vec<BlockId>)
        ensures
            same_but_service(*final(self), *old(self)),
            final(self).service@ == (Exchange {
                requests: old(self).service@.requests + fail_requests(byte_strings(ids@)),
                replies: old(self).service@.replies,
            }),
    {
        let ghost before = self.service@;
        let mut i: usize = 0;
        assert(before.requests =~= before.requests + fail_requests(byte_strings(ids@)).take(0));
        while i < ids.len()
            invariant
                i <= ids@.len(),
                before == old(self).service@,
                same_but_service(*self, *old(self)),
                self.service@ == (Exchange {
                    requests: before.requests + fail_requests(byte_strings(ids@)).take(i as int),
                    replies: before.replies,
                }),
            decreases ids@.len() - i,
        {
            self.service.note(ServiceRequest::FailBlock { block_id: copy_bytes(&ids[i]) });
            assert(self.service@.requests =~= before.requests + fail_requests(
                byte_strings(ids@),
            ).take(i + 1));
            i += 1;
        }
        assert(fail_requests(byte_strings(ids@)).take(ids@.len() as int) =~= fail_requests(
            byte_strings(ids@),
        ));
    }

    /// The nodes that asked for the seal of the last block.
    fn find_seal_requesters(&self, state: &PbftState) -> (ids: Vec<PeerId>)
        requires
            state@.wf(),
        ensures
            byte_strings(ids@) == seal_requesters(world(*self, *state)),
    {
        let requests = self.msg_log.get_messages_of_type_seq(
            PbftMessageType::SealRequest,
            state.seq_num - 1,
        );
        let mut ids: Vec<PeerId> = Vec::new();
        let mut i: usize = 0;
        while i < requests.len()
            invariant
                i <= requests@.len(),
                ids@.len() == i,
                forall|j: int|
                    0 <= j < i ==> (#[trigger] ids@[j])@ == requests@[j]@.info().signer_id,
            decreases requests@.len() - i,
        {
            ids.push(copy_bytes(&requests[i].info().signer_id));
            i += 1;
        }
        assert(byte_strings(ids@) =~= signer_list(referenced_messages(requests@)));
        ids
    }

    /// Send the seal of the last block to nodes; that it could not be sent does not matter.
    fn send_seal_responses(&mut self, state: &PbftState, recipients: &Vec<PeerId>) -> (r: Result<
        (),
        PbftError,
    >)
        requires
            world(*old(self), *state).wf(),
        ensures
            same_but_service(*final(self), *old(self)),
            (world(*final(self), *state), r) == seal_responses_sent(
                world(*old(self), *state),
                byte_strings(recipients@),
            ),
    {
        let ghost all = byte_strings(recipients@);
        let ghost before = world(*self, *state);
        let mut i: usize = 0;
        assert(all.take(0) =~= Seq::<Seq<u8>>::empty());
        while i < recipients.len()
            invariant
                i <= recipients@.len(),
                all == byte_strings(recipients@),
                before == world(*old(self), *state),
                before.wf(),
                same_but_service(*self, *old(self)),
                seal_responses_sent(before, all.take(i as int)) == (
                    world(*self, *state),
                    Ok::<(), PbftError>(()),
                ),
            decreases recipients@.len() - i,
        {
            proof {
                assert(all.take(i + 1).drop_last() =~= all.take(i as int));
                assert(all.take(i + 1).last() == all[i as int]);
            }
            match self.send_seal_response(state, &recipients[i]) {
                Err(PbftError::Halted(halt)) => {
                    proof {
                        lemma_failed_responses(before, all, i + 1);
                    }
                    return Err(PbftError::Halted(halt));
                },
                _ => {},
            }
            i += 1;
        }
        assert(all.take(all.len() as int) =~= all);
        Ok(())
    }

    /// If the given list of peers has other members than the current one, update the state and
    /// return true.
    pub fn change_membership(state: &mut PbftState, setting: &Option<String>) -> (r: Result<
        bool,
        Halt,
    >)
        requires
            old(state)@.wf(),
        ensures
            (final(state)@, r) == membership_changed(old(state)@, optional_text(*setting)),
            final(state)@.wf(),
            3 * final(state).f + 1 <= final(state).peer_ids@.len() < 3 * (final(state).f + 1) + 1,
    {
        let peers = match get_peers_from_settings(setting) {
            Some(peers) => peers,
            None => {
                return Err(Halt::BadPeersSetting);
            },
        };
        // Check if membership has changed
        if have_same_members(&peers, &state.peer_ids) {
            return Ok(false);
        }
        if peers.len() < 4 {
            return Err(Halt::NetworkTooSmall);
        }
        state.f = ((peers.len() - 1) / 3) as u64;
        state.peer_ids = peers;
        Ok(true)
    }

    /// Check the on-chain list of peers; if it has changed, update peers list and return true.
    pub fn update_membership(&mut self, block_id: BlockId, state: &mut PbftState) -> (r: Result<
        bool,
        Halt,
    >)
        requires
            world(*old(self), *old(state)).wf(),
        ensures
            same_but_service(*final(self), *old(self)),
            (world(*final(self), *final(state)), r) == membership_updated(
                world(*old(self), *old(state)),
                block_id@,
            ),
            world(*final(self), *final(state)).wf(),
    {
        match self.service.read_peers_setting(block_id) {
            Ok(setting) => Self::change_membership(state, &setting),
            Err(halt) => Err(halt),
        }
    }

    /// Check the on-chain list of peers, and increment the view if a view change must be forced for
    /// fairness or if membership has changed.
    fn update_view(&mut self, block_id: BlockId, state: &mut PbftState) -> (r: Result<(), PbftError>)
        requires
            world(*old(self), *old(state)).wf(),
        ensures
            same_but_service(*final(self), *old(self)),
            (world(*final(self), *final(state)), r) == view_updated(
                world(*old(self), *old(state)),
                block_id@,
            ),
            world(*final(self), *final(state)).wf(),
            final(state).seq_num == old(state).seq_num,
    {
        let changed = match self.update_membership(block_id, state) {
            Ok(changed) => changed,
            Err(halt) => {
                return Err(PbftError::Halted(halt));
            },
        };
        if changed || state.at_forced_view_change() {
            if state.view == u64::MAX {
                return Err(PbftError::Halted(Halt::ViewOverflow));
            }
            state.view = state.view + 1;
        }
        Ok(())
    }

    /// The IDs of the blocks at the current sequence number.
    fn current_block_ids(&self, state: &PbftState) -> (ids: Vec<BlockId>)
        ensures
            byte_strings(ids@) == ids_of(self.msg_log@.blocks_with_num(state.seq_num)),
    {
        let blocks = self.msg_log.get_blocks_with_num(state.seq_num);
        let mut ids: Vec<BlockId> = Vec::new();
        let mut i: usize = 0;
        while i < blocks.len()
            invariant
                i <= blocks@.len(),
                ids@.len() == i,
                forall|j: int| 0 <= j < i ==> (#[trigger] ids@[j])@ == blocks@[j]@.block_id,
            decreases blocks@.len() - i,
        {
            ids.push(copy_bytes(&blocks[i].block_id));
            i += 1;
        }
        assert(byte_strings(ids@) =~= ids_of(referenced_blocks(blocks@)));
        ids
    }

    /// Try to start preparing blocks, up to the first error.
    fn try_preparing_each(&mut self, block_ids: &Vec<BlockId>, state: &mut PbftState) -> (r: Result<
        (),
        PbftError,
    >)
        requires
            world(*old(self), *old(state)).wf(),
        ensures
            (world(*final(self), *final(state)), r) == preparing_each_tried(
                world(*old(self), *old(state)),
                byte_strings(block_ids@),
            ),
            world(*final(self), *final(state)).wf(),
    {
        let ghost all = byte_strings(block_ids@);
        let ghost before = world(*self, *state);
        let mut i: usize = 0;
        assert(all.take(0) =~= Seq::<Seq<u8>>::empty());
        while i < block_ids.len()
            invariant
                i <= block_ids@.len(),
                all == byte_strings(block_ids@),
                before == world(*old(self), *old(state)),
                world(*self, *state).wf(),
                preparing_each_tried(before, all.take(i as int)) == (
                    world(*self, *state),
                    Ok::<(), PbftError>(()),
                ),
            decreases block_ids@.len() - i,
        {
            proof {
                assert(all.take(i + 1).drop_last() =~= all.take(i as int));
                assert(all.take(i + 1).last() == all[i as int]);
            }
            let tried = self.try_preparing(copy_bytes(&block_ids[i]), state);
            assert(preparing_each_tried(before, all.take(i + 1)) == (
                world(*self, *state),
                tried,
            ));
            if tried.is_err() {
                proof {
                    lemma_failed_preparing(before, all, i + 1);
                }
                return tried;
            }
            assert(tried->Ok_0 == ());
            i += 1;
        }
        assert(all.take(all.len() as int) =~= all);
        Ok(())
    }

    /// Go on after a block was committed.
    fn begin_next_block(&mut self, block_id: BlockId, is_catching_up: bool, state: &mut PbftState) -> (r:
        Result<(), PbftError>)
        requires
            world(*old(self), *old(state)).wf(),
            old(state).seq_num < u64::MAX,
        ensures
            (world(*final(self), *final(state)), r) == next_block_begun(
                world(*old(self), *old(state)),
                block_id@,
                is_catching_up,
            ),
            world(*final(self), *final(state)).wf(),
    {
        // If the node already has a block with a seal that can be used to commit the next one,
        // perform catch-up
        let ghost before = world(*self, *state);
        let next_blocks = self.msg_log.get_blocks_with_num(state.seq_num + 1);
        if next_blocks.len() > 0 {
            let block = next_blocks[0].clone();
            assert(referenced_blocks(next_blocks@)[0] == block@);
            let seal = match self.verify_consensus_seal_from_block(&block, state) {
                Ok(seal) => seal,
                Err(error) => {
                    return Err(error.error());
                },
            };
            proof {
                lemma_filtered_block(before.log, (before.state.seq_num + 1) as u64);
                lemma_sealed_block(before.exchange, before.log, before.state, block@);
                assert(vote_views(seal.commit_votes@).len() > 0);
            }
            return self.catchup(state, &seal, true);
        }
        // If the node is catching up but doesn't have a block with a seal to commit the next one,
        // it will need to request the seal to commit the last block; it isn't waiting for the
        // validator any more, so it can use the seal that it gets
        if is_catching_up {
            state.phase = PbftPhase::PrePreparing;
            return self.request_final_seal(state);
        }
        // Restart to the beginning of the algorithm (Normal mode, PrePreparing phase) and start
        // the faulty primary timeout for the next block
        state.reset_to_start();
        // If we already have a block at this sequence number with a valid PrePrepare for it, start
        // Preparing (there may be multiple blocks, but only one will have a valid PrePrepare)
        let block_ids = self.current_block_ids(state);
        let tried = self.try_preparing_each(&block_ids, state);
        if tried.is_err() {
            return tried;
        }
        // Initialize a new block if this node is the primary and it is not in the process of
        // catching up
        if state.is_primary() {
            let done = self.service.attempt(
                ServiceRequest::InitializeBlock { previous_id: Some(block_id) },
            );
            return required_done(done, ServiceCall::InitializeAfterCommit);
        }
        Ok(())
    }

    /// Handle a `BlockCommit` update from the Validator.
    ///
    /// A block was sucessfully committed; clean up any uncommitted blocks, update state to be
    /// ready for the next block, make any necessary view and membership changes, garbage collect
    /// the logs, and start a new block if this node is the primary.
    pub fn on_block_commit(&mut self, block_id: BlockId, state: &mut PbftState) -> (r: Result<
        (),
        PbftError,
    >)
        requires
            world(*old(self), *old(state)).wf(),
            old(state).seq_num + 2 <= u64::MAX,
        ensures
            (world(*final(self), *final(state)), r) == block_committed(
                world(*old(self), *old(state)),
                block_id@,
            ),
            world(*final(self), *final(state)).wf(),
    {
        // Ignore this BlockCommit if the node isn't waiting for it
        let is_catching_up = match &state.phase {
            PbftPhase::Finishing(expected_id, catching_up) => {
                if !same_bytes(&block_id, expected_id) {
                    return Ok(());
                }
                *catching_up
            },
            _ => {
                return Ok(());
            },
        };
        // If there are any blocks in the log at this sequence number other than the one that was
        // just committed, reject them
        let invalid_block_ids = self.uncommitted_blocks(&block_id, state);
        self.fail_blocks(&invalid_block_ids);
        // Update sequence number
        state.seq_num = state.seq_num + 1;
        assert(world(*self, *state) =~= advanced(world(*old(self), *old(state)), block_id@));
        // If node(s) are waiting for a seal to commit the last block, send it now
        let requesters = self.find_seal_requesters(state);
        let answered = self.send_seal_responses(state, &requesters);
        if answered.is_err() {
            return answered;
        }
        // Increment the view if a view change must be forced for fairness or if membership has
        // changed
        let updated = self.update_view(copy_bytes(&block_id), state);
        if updated.is_err() {
            return updated;
        }
        // Tell the log to garbage collect if it needs to
        self.msg_log.garbage_collect(state.seq_num);
        self.begin_next_block(block_id, is_catching_up, state)
    }

    // ---------- Methods called periodically to check and update state ----------

    /// At a regular interval, try to finalize a block when the primary is ready.
    pub fn try_publish(&mut self, state: &mut PbftState) -> (r: Result<(), PbftError>)
        requires
            world(*old(self), *old(state)).wf(),
        ensures
            (world(*final(self), *final(state)), r) == publishing_tried(
                world(*old(self), *old(state)),
            ),
            world(*final(self), *final(state)).wf(),
    {
        // Only the primary takes care of this, and we try publishing a block
        // on every engine loop, even if it's not yet ready. This isn't an error,
        // so just return Ok(()).
        let pre_preparing = match state.phase {
            PbftPhase::PrePreparing => true,
            _ => false,
        };
        if !state.is_primary() || !pre_preparing {
            return Ok(());
        }
        match self.service.attempt(ServiceRequest::SummarizeBlock) {
            Ok(summarized) => {
                if !summarized {
                    return Ok(());
                }
            },
            Err(halt) => {
                return Err(PbftError::Halted(halt));
            },
        }
        // We don't publish a consensus seal at block 1, since we never receive any
        // votes on the genesis block. Leave payload blank for the first block.
        let data: Vec<u8> = if state.seq_num <= 1 {
            Vec::new()
        } else {
            match self.build_seal(state) {
                Ok(seal) => seal.to_bytes(),
                Err(fault) => {
                    return Err(PbftError::InternalError(InternalFault::Seal(fault)));
                },
            }
        };
        assert(state.seq_num <= 1 ==> data@ =~= Seq::<u8>::empty());
        let done = self.service.attempt(ServiceRequest::FinalizeBlock { data });
        required_done(done, ServiceCall::FinalizeBlock)
    }

    /// Check to see if the faulty primary timeout has expired.
    pub fn check_faulty_primary_timeout_expired(&mut self, state: &mut PbftState) -> (expired: bool)
        ensures
            *final(self) == *old(self),
            expired == old(state).faulty_primary_timeout.run_out(old(state).now),
            final(state)@ == (StateView {
                faulty_primary_timeout: old(state).faulty_primary_timeout.checked_at(
                    old(state).now,
                ),
                ..old(state)@
            }),
    {
        state.faulty_primary_timeout.check_expired(state.now)
    }

    /// Start the faulty primary timeout.
    pub fn start_faulty_primary_timeout(&self, state: &mut PbftState)
        ensures
            final(state)@ == (StateView {
                faulty_primary_timeout: old(state).faulty_primary_timeout.started_at(
                    old(state).now,
                ),
                ..old(state)@
            }),
    {
        state.faulty_primary_timeout.start(state.now);
    }

    /// Check to see if the commit timeout has expired.
    pub fn check_commit_timeout_expired(&mut self, state: &mut PbftState) -> (expired: bool)
        ensures
            *final(self) == *old(self),
            expired == old(state).commit_timeout.run_out(old(state).now),
            final(state)@ == (StateView {
                commit_timeout: old(state).commit_timeout.checked_at(old(state).now),
                ..old(state)@
            }),
    {
        state.commit_timeout.check_expired(state.now)
    }

    /// Start the commit timeout.
    pub fn start_commit_timeout(&self, state: &mut PbftState)
        ensures
            final(state)@ == (StateView {
                commit_timeout: old(state).commit_timeout.started_at(old(state).now),
                ..old(state)@
            }),
    {
        state.commit_timeout.start(state.now);
    }

    /// Check to see if the view change timeout has expired.
    pub fn check_view_change_timeout_expired(&mut self, state: &mut PbftState) -> (expired: bool)
        ensures
            *final(self) == *old(self),
            expired == old(state).view_change_timeout.run_out(old(state).now),
            final(state)@ == (StateView {
                view_change_timeout: old(state).view_change_timeout.checked_at(old(state).now),
                ..old(state)@
            }),
    {
        state.view_change_timeout.check_expired(state.now)
    }
}

/// A block after the first whose seal is valid has one that holds votes.
proof fn lemma_sealed_block(exchange: Exchange, log: LogView, state: StateView, block: BlockView)
    requires
        state.wf(),
        block.block_num >= 2,
    ensures
        block_seal_checked(exchange, log, state, block).1 matches Ok(seal)
            ==> seal.commit_votes.len() > 0,
{
    match seal_of_block(log, block) {
        Ok(seal) => {
            if seal_checked(exchange, state, seal, block.signer_id).1 is Ok {
                lemma_valid_seal_has_votes(exchange, state, seal, block.signer_id);
            }
        },
        Err(_) => {},
    }
}

/// The blocks that are found by a number have that number.
proof fn lemma_filtered_block(log: LogView, block_num: u64)
    ensures
        log.blocks_with_num(block_num).len() > 0 ==> log.blocks_with_num(block_num)[0].block_num
            == block_num,
{
    let places = lemma_filter_positions(log.blocks, with_num(block_num));
    if places.len() > 0 {
        assert(log.blocks[places[0]] == log.blocks_with_num(block_num)[0]);
    }
}

/// The first response that halts the node decides.
proof fn lemma_failed_responses(world: World, recipients: Seq<Seq<u8>>, n: int)
    requires
        0 <= n <= recipients.len(),
        seal_responses_sent(world, recipients.take(n)).1 is Err,
    ensures
        seal_responses_sent(world, recipients) == seal_responses_sent(world, recipients.take(n)),
    decreases recipients.len(),
{
    if n == recipients.len() {
        assert(recipients.take(n) =~= recipients);
    } else {
        assert(recipients.drop_last().take(n) =~= recipients.take(n));
        lemma_failed_responses(world, recipients.drop_last(), n);
    }
}

/// The first error decides.
proof fn lemma_failed_preparing(world: World, block_ids: Seq<Seq<u8>>, n: int)
    requires
        0 <= n <= block_ids.len(),
        preparing_each_tried(world, block_ids.take(n)).1 is Err,
    ensures
        preparing_each_tried(world, block_ids) == preparing_each_tried(world, block_ids.take(n)),
    decreases block_ids.len(),
{
    if n == block_ids.len() {
        assert(block_ids.take(n) =~= block_ids);
    } else {
        assert(block_ids.drop_last().take(n) =~= block_ids.take(n));
        lemma_failed_preparing(world, block_ids.drop_last(), n);
    }
}

/// What is found are enough messages, and they are for one block and view.
pub proof fn lemma_quorum_size(messages: Seq<ParsedView>, required: int, from: int)
    ensures
        first_quorum(messages, required, from) matches Some(found) ==> found.len() >= required
            && found.len() > 0,
    decreases messages.len() - from,
{
    if 0 <= from < messages.len() {
        let group = messages.filter(same_block_and_view(messages[from]));
        messages.lemma_filter_contains(same_block_and_view(messages[from]), from);
        if group.len() < required {
            lemma_quorum_size(messages, required, from + 1);
        }
    }
}

/// The first message that the log does not take decides.
proof fn lemma_failed_logging(world: World, messages: Seq<ParsedView>, n: int)
    requires
        0 <= n <= messages.len(),
        all_logged(world, messages.take(n)).1 is Err,
    ensures
        all_logged(world, messages) == all_logged(world, messages.take(n)),
    decreases messages.len(),
{
    if n == messages.len() {
        assert(messages.take(n) =~= messages);
    } else {
        assert(messages.drop_last().take(n) =~= messages.take(n));
        lemma_failed_logging(world, messages.drop_last(), n);
    }
}

/// A valid seal holds votes.
proof fn lemma_valid_seal_has_votes(
    exchange: Exchange,
    state: StateView,
    seal: SealView,
    signer_id: Seq<u8>,
)
    requires
        state.wf(),
        seal_checked(exchange, state, seal, signer_id).1 is Ok,
    ensures
        seal.commit_votes.len() > 0,
{
    if seal.commit_votes.len() == 0 {
        let voters = votes_checked(
            exchange,
            seal.commit_votes,
            PbftMessageType::Commit,
            CriteriaView::Block(seal.block_id),
        ).1;
        assert(voters->Ok_0 == Set::<Seq<u8>>::empty());
    }
}

/// The first vote that is not valid decides.
proof fn lemma_failed_votes(
    exchange: Exchange,
    votes: Seq<VoteView>,
    n: int,
    expected_type: PbftMessageType,
    criteria: CriteriaView,
)
    requires
        0 <= n <= votes.len(),
        votes_checked(exchange, votes.take(n), expected_type, criteria).1 is Err,
    ensures
        votes_checked(exchange, votes, expected_type, criteria) == votes_checked(
            exchange,
            votes.take(n),
            expected_type,
            criteria,
        ),
    decreases votes.len(),
{
    if n == votes.len() {
        assert(votes.take(n) =~= votes);
    } else {
        assert(votes.drop_last().take(n) =~= votes.take(n));
        lemma_failed_votes(exchange, votes.drop_last(), n, expected_type, criteria);
    }
}

} // verus!
