//! What the node does about new blocks and about blocks that were committed.

use vstd::prelude::*;

use crate::agreement_laws::{
    goes_on_to_prepare, law_proposal_accepted, law_proposed_block_is_prepared, lemma_logged,
    lemma_preparing_result, lemma_preparing_tried,
};
use crate::block::BlockView;
use crate::commit_laws::{lemma_seal_commits, votes_for_view};
use crate::error::{InternalFault, MessageDefect, PbftError, Rejection, ServiceCall, VerifyError};
use crate::evidence::{
    block_at_number, broadcast_of, first_block_at, in_turn, is_for, lemma_first_block,
    lemma_first_taken, lemma_found_block, no_block, proposed, signed_by,
};
use crate::frame::{
    extends, goes_on, lemma_all_logged_continues, lemma_catchup_continues, lemma_commit_continues,
    lemma_message_handled_continues, lemma_prepare_continues, lemma_preparing_continues,
};
use crate::laws::{
    after_commit, lemma_next_block_continues, lemma_preparing_each_continues, lemma_responses_keep,
    lemma_view_updated_keeps,
};
use crate::message::ParsedView;
use crate::message_log::{
    lemma_filter_positions, of_type_seq, of_type_seq_view, recent_block, recent_message, with_id,
    with_num, LogView,
};
use crate::message_type::PbftMessageType;
use crate::model::{
    advanced, all_logged, block_committed, block_received, block_seal_checked, can_prepare,
    caught_up, commit_handled, commit_sent, ids_of, message_received, message_sent,
    next_block_begun, other_than, own_message, prepare_handled, preparing_each_tried,
    preparing_tried, preparing_world, seal_of_block, seal_requesters, seal_responses_sent,
    uncommitted, view_updated, vote_messages, CriteriaView, World,
};
use crate::proof_laws::{lemma_seal_only_asks, lemma_votes_taken_over, only_asks, votes_taken_over};
use crate::seal_laws::{
    law_seal_accepted, law_votes_accepted, lemma_filter_commutes, lemma_first_kept, voters,
};
use crate::service::{Exchange, ReplyView, RequestView};
use crate::state::{PbftMode, PhaseView, StateView};
use crate::timing::TimeoutState;
use crate::vote::SealView;

verus! {

// ---------- New blocks ----------

/// A block whose previous block the node does not have is rejected, and not taken.
pub proof fn law_block_without_previous_fails(world: World, block: BlockView)
    requires
        block.block_num >= world.state.seq_num,
        no_block(world.log.blocks, block.previous_id),
    ensures
        ({
            let (after, result) = block_received(world, block);
            &&& result == Err::<(), PbftError>(
                PbftError::InternalError(InternalFault::NoPreviousBlock),
            )
            &&& after.log == world.log
            &&& after.state == world.state
            &&& after.exchange.requests == world.exchange.requests.push(
                RequestView::FailBlock { block_id: block.block_id },
            )
        }),
{
    let at = lemma_found_block(world.log, block.previous_id);
}

/// A block whose previous block has not the number before its own is rejected, and not taken.
pub proof fn law_block_after_wrong_number_fails(world: World, block: BlockView, at: int)
    requires
        block.block_num >= world.state.seq_num,
        first_block_at(world.log.blocks, at, block.previous_id),
        world.log.blocks[at].block_num != block.block_num - 1,
    ensures
        ({
            let (after, result) = block_received(world, block);
            &&& result == Err::<(), PbftError>(
                PbftError::InternalError(InternalFault::WrongPreviousNumber),
            )
            &&& after.log == world.log
            &&& after.state == world.state
            &&& after.exchange.requests == world.exchange.requests.push(
                RequestView::FailBlock { block_id: block.block_id },
            )
        }),
{
    lemma_first_block(world.log, at, block.previous_id);
}

/// A block whose seal is not valid is rejected, and not taken.
pub proof fn law_block_with_bad_seal_fails(
    world: World,
    block: BlockView,
    at: int,
    rejection: Rejection,
)
    requires
        block.block_num >= world.state.seq_num,
        first_block_at(world.log.blocks, at, block.previous_id),
        world.log.blocks[at].block_num == block.block_num - 1,
        block_seal_checked(world.exchange, world.log, world.state, block).1 == Err::<
            SealView,
            VerifyError,
        >(VerifyError::Rejected(rejection)),
    ensures
        ({
            let (after, result) = block_received(world, block);
            &&& result == Err::<(), PbftError>(
                PbftError::InvalidMessage(MessageDefect::BadSeal(rejection)),
            )
            &&& after.log == world.log
            &&& after.state == world.state
            &&& after.exchange.requests == block_seal_checked(
                world.exchange,
                world.log,
                world.state,
                block,
            ).0.requests.push(RequestView::FailBlock { block_id: block.block_id })
        }),
{
    lemma_first_block(world.log, at, block.previous_id);
}

/// A block that is not older than the one that the node works on, that follows a block in the log
/// with the number before its own, and whose seal is valid, is taken into the log.
pub proof fn law_sealed_block_is_logged(world: World, block: BlockView, at: int)
    requires
        block.block_num >= world.state.seq_num,
        first_block_at(world.log.blocks, at, block.previous_id),
        world.log.blocks[at].block_num == block.block_num - 1,
        block_seal_checked(world.exchange, world.log, world.state, block).1 is Ok,
    ensures
        block_received(world, block).0.log.blocks.contains(block),
{
    lemma_first_block(world.log, at, block.previous_id);
    let (exchange, checked) = block_seal_checked(world.exchange, world.log, world.state, block);
    let seal = checked->Ok_0;
    let logged = World { exchange, log: world.log.with_block(block), ..world };
    lemma_catchup_continues(logged, seal, true);
    lemma_preparing_continues(logged, block.block_id);
    let message = own_message(
        logged.state,
        PbftMessageType::PrePrepare,
        logged.state.view,
        logged.state.seq_num,
        block.block_id,
    );
    lemma_message_handled_continues(logged.announced(message), message);
    lemma_with_block(world.log, block);
}

proof fn lemma_with_block(log: LogView, block: BlockView)
    ensures
        log.with_block(block).blocks.contains(block),
        log.with_block(block).messages == log.messages,
{
    if !log.blocks.contains(block) {
        assert(log.with_block(block).blocks[log.blocks.len() as int] == block);
    }
}

/// A block that is taken into the log is not older than the one that the node works on, follows a
/// block in the log with the number before its own, and its seal is valid.
pub proof fn law_only_sealed_block_is_logged(world: World, block: BlockView)
    requires
        !world.log.blocks.contains(block),
        block_received(world, block).0.log.blocks.contains(block),
    ensures
        block.block_num >= world.state.seq_num,
        exists|at: int| #[trigger]
            first_block_at(world.log.blocks, at, block.previous_id)
                && world.log.blocks[at].block_num == block.block_num - 1,
        block_seal_checked(world.exchange, world.log, world.state, block).1 is Ok,
{
    let at = lemma_found_block(world.log, block.previous_id);
}

/// A block after the one that the node works on, whose seal is valid and whose votes are for one
/// view, lets a node catch up that does not wait for the validator: it asks for the previous block of
/// that block to be committed, takes over the votes and their view, and waits to hear of the block
/// in order to go on catching up.
pub proof fn law_future_block_commits_previous(
    world: World,
    block: BlockView,
    at: int,
    seal: SealView,
    view: u64,
)
    requires
        world.wf(),
        block.block_num > world.state.seq_num,
        !(world.state.phase is Finishing),
        first_block_at(world.log.blocks, at, block.previous_id),
        world.log.blocks[at].block_num == block.block_num - 1,
        block_seal_checked(world.exchange, world.log, world.state, block).1 == Ok::<
            SealView,
            VerifyError,
        >(seal),
        votes_for_view(seal.commit_votes, view),
        view >= world.state.view,
        ({
            let replies = block_seal_checked(
                world.exchange,
                world.log,
                world.state,
                block,
            ).0.replies;
            replies.len() > 0 && replies[0] == ReplyView::Done
        }),
    ensures
        ({
            let (after, result) = block_received(world, block);
            &&& result == Ok::<(), PbftError>(())
            &&& after.exchange.requests == block_seal_checked(
                world.exchange,
                world.log,
                world.state,
                block,
            ).0.requests.push(RequestView::CommitBlock { block_id: block.previous_id })
            &&& after.state == (StateView {
                view,
                phase: PhaseView::Finishing(block.previous_id, true),
                faulty_primary_timeout: after.state.faulty_primary_timeout,
                ..world.state
            })
            &&& after.state.faulty_primary_timeout.state == TimeoutState::Inactive
            &&& votes_taken_over(after.log, seal.commit_votes)
        }),
{
    lemma_first_block(world.log, at, block.previous_id);
    let (exchange, checked) = block_seal_checked(world.exchange, world.log, world.state, block);
    law_votes_accepted(
        world.exchange,
        seal.commit_votes,
        PbftMessageType::Commit,
        CriteriaView::Block(seal.block_id),
    );
    let logged = World { exchange, log: world.log.with_block(block), ..world };
    lemma_votes_present(world, block);
    lemma_seal_commits(logged, seal, true, view);
    lemma_votes_taken_over(logged, seal, true);
}

proof fn lemma_votes_present(world: World, block: BlockView)
    requires
        world.state.wf(),
        block.block_num >= 2,
        block_seal_checked(world.exchange, world.log, world.state, block).1 is Ok,
    ensures
        ({
            let seal = block_seal_checked(world.exchange, world.log, world.state, block).1->Ok_0;
            seal.commit_votes.len() > 0 && seal.block_id == block.previous_id
        }),
{
    let seal = block_seal_checked(world.exchange, world.log, world.state, block).1->Ok_0;
    law_seal_accepted(world.exchange, world.state, seal, block.signer_id);
    if seal.commit_votes.len() == 0 {
        assert(voters(seal.commit_votes) =~= Set::<Seq<u8>>::empty());
    }
}

/// While the node waits for the validator, a later block is only taken into the log.
pub proof fn law_future_block_waits(world: World, block: BlockView, at: int)
    requires
        block.block_num > world.state.seq_num,
        world.state.phase is Finishing,
        first_block_at(world.log.blocks, at, block.previous_id),
        world.log.blocks[at].block_num == block.block_num - 1,
        block_seal_checked(world.exchange, world.log, world.state, block).1 is Ok,
    ensures
        ({
            let (after, result) = block_received(world, block);
            &&& result == Ok::<(), PbftError>(())
            &&& after.state == world.state
            &&& after.log.blocks.contains(block)
            &&& after.log.messages == world.log.messages
            &&& after.exchange == block_seal_checked(
                world.exchange,
                world.log,
                world.state,
                block,
            ).0
        }),
{
    lemma_first_block(world.log, at, block.previous_id);
    lemma_with_block(world.log, block);
}

/// Whether a message is a `PrePrepare` for the given view and sequence number.
pub open spec fn is_proposal(message: ParsedView, view: u64, seq_num: u64) -> bool {
    &&& message.info().msg_type == PbftMessageType::PrePrepare
    &&& message.info().view == view
    &&& message.info().seq_num == seq_num
}

proof fn lemma_own_proposal(world: World, block_id: Seq<u8>)
    requires
        in_turn(world.state, world.state.view) == world.state.id,
    ensures
        ({
            let message = own_message(
                world.state,
                PbftMessageType::PrePrepare,
                world.state.view,
                world.state.seq_num,
                block_id,
            );
            let after = message_sent(world, message).0;
            world.self_sending && world.state.mode is Normal && world.state.peer_ids.contains(
                world.state.id,
            ) && (forall|i: int|
                0 <= i < world.log.messages.len() && is_proposal(
                    #[trigger] world.log.messages[i],
                    world.state.view,
                    world.state.seq_num,
                ) ==> world.log.messages[i].block_id() == block_id) ==> proposed(
                after.log.messages,
                world.state.view,
                world.state.seq_num,
                block_id,
            ) && after.log.blocks == world.log.blocks && (world.state.phase is PrePreparing
                && block_at_number(after.log.blocks, block_id, world.state.seq_num) ==> !(
            after.state.phase is PrePreparing))
        }),
{
    let message = own_message(
        world.state,
        PbftMessageType::PrePrepare,
        world.state.view,
        world.state.seq_num,
        block_id,
    );
    let announced = world.announced(message);
    if world.self_sending && world.state.mode is Normal && world.state.peer_ids.contains(
        world.state.id,
    ) && (forall|i: int|
        0 <= i < world.log.messages.len() && is_proposal(
            #[trigger] world.log.messages[i],
            world.state.view,
            world.state.seq_num,
        ) ==> world.log.messages[i].block_id() == block_id) {
        assert forall|i: int|
            0 <= i < announced.log.messages.len() && (
            #[trigger] announced.log.messages[i]).info().msg_type == PbftMessageType::PrePrepare
                && announced.log.messages[i].info().view == message.info().view
                && announced.log.messages[i].info().seq_num == message.info().seq_num implies
            announced.log.messages[i].block_id() == message.block_id() by {
            assert(is_proposal(
                world.log.messages[i],
                world.state.view,
                world.state.seq_num,
            ));
        }
        law_proposal_accepted(announced, message);
        lemma_message_handled_continues(announced, message);
        let after = message_sent(world, message).0;
        assert(after == message_received(announced, message).0);
        let i = choose|i: int|
            0 <= i < after.log.messages.len() && (#[trigger] after.log.messages[i]).message
                == message.message;
        assert(is_for(
            after.log.messages[i],
            PbftMessageType::PrePrepare,
            world.state.view,
            world.state.seq_num,
            block_id,
        ));
        if world.state.phase is PrePreparing && block_at_number(
            after.log.blocks,
            block_id,
            world.state.seq_num,
        ) {
            law_proposed_block_is_prepared(announced, message);
        }
    }
}

/// A primary whose own block is the one at the sequence number that it works on proposes it to the
/// network; if it sends itself what it broadcasts, and has proposed no other, it takes up its own
/// proposal.
pub proof fn law_own_block_is_proposed(world: World, block: BlockView, at: int)
    requires
        block.block_num == world.state.seq_num,
        block.signer_id == world.state.id,
        in_turn(world.state, world.state.view) == world.state.id,
        first_block_at(world.log.blocks, at, block.previous_id),
        world.log.blocks[at].block_num == block.block_num - 1,
        block_seal_checked(world.exchange, world.log, world.state, block).1 is Ok,
    ensures
        ({
            let after = block_received(world, block).0;
            let checked = block_seal_checked(
                world.exchange,
                world.log,
                world.state,
                block,
            ).0.requests;
            &&& after.exchange.requests.len() > checked.len()
            &&& after.exchange.requests[checked.len() as int] == broadcast_of(
                world.state.id,
                PbftMessageType::PrePrepare,
                world.state.view,
                world.state.seq_num,
                block.block_id,
            )
            &&& world.self_sending && world.state.mode is Normal && world.state.peer_ids.contains(
                world.state.id,
            ) && (forall|i: int|
                0 <= i < world.log.messages.len() && is_proposal(
                    #[trigger] world.log.messages[i],
                    world.state.view,
                    world.state.seq_num,
                ) ==> world.log.messages[i].block_id() == block.block_id) ==> proposed(
                after.log.messages,
                world.state.view,
                world.state.seq_num,
                block.block_id,
            ) && (world.state.phase is PrePreparing && block_at_number(
                after.log.blocks,
                block.block_id,
                world.state.seq_num,
            ) ==> !(after.state.phase is PrePreparing))
        }),
{
    lemma_first_block(world.log, at, block.previous_id);
    let (exchange, checked) = block_seal_checked(world.exchange, world.log, world.state, block);
    let logged = World { exchange, log: world.log.with_block(block), ..world };
    lemma_own_proposal(logged, block.block_id);
    let message = own_message(
        logged.state,
        PbftMessageType::PrePrepare,
        logged.state.view,
        logged.state.seq_num,
        block.block_id,
    );
    lemma_message_handled_continues(logged.announced(message), message);
    let after = block_received(world, block).0;
    let n = exchange.requests.len() as int;
    assert(after.exchange.requests[n] == logged.announced(message).exchange.requests[n]);
}

/// A block of another node at the sequence number that the node works on, or one that comes to a
/// node that is not primary, is prepared if there is a `PrePrepare` for it and the node waits for a
/// block; else it is only taken into the log.
pub proof fn law_current_block_is_prepared(world: World, block: BlockView, at: int)
    requires
        block.block_num == world.state.seq_num,
        block.signer_id != world.state.id || in_turn(world.state, world.state.view)
            != world.state.id,
        first_block_at(world.log.blocks, at, block.previous_id),
        world.log.blocks[at].block_num == block.block_num - 1,
        block_seal_checked(world.exchange, world.log, world.state, block).1 is Ok,
    ensures
        ({
            let (after, result) = block_received(world, block);
            let checked = block_seal_checked(world.exchange, world.log, world.state, block).0;
            let ready = {
                &&& world.state.phase is PrePreparing
                &&& block_at_number(after.log.blocks, block.block_id, world.state.seq_num)
                &&& proposed(
                    world.log.messages,
                    world.state.view,
                    world.state.seq_num,
                    block.block_id,
                )
            };
            &&& ready ==> goes_on_to_prepare(
                World { exchange: checked, ..world },
                after,
                block.block_id,
            )
            &&& !ready ==> result == Ok::<(), PbftError>(()) && after.state == world.state
                && after.exchange == checked && after.log.messages == world.log.messages
        }),
{
    lemma_first_block(world.log, at, block.previous_id);
    let (exchange, checked) = block_seal_checked(world.exchange, world.log, world.state, block);
    let logged = World { exchange, log: world.log.with_block(block), ..world };
    lemma_preparing_tried(logged, block.block_id);
    lemma_preparing_continues(logged, block.block_id);
}

// ---------- Blocks that were committed ----------

/// Whether no request that was added rejects a block, starts one, or is for one peer alone.
pub open spec fn rejects_and_starts_none(before: Exchange, after: Exchange) -> bool {
    forall|i: int|
        before.requests.len() <= i < after.requests.len() ==> !(
        #[trigger] after.requests[i] is FailBlock) && !(after.requests[i] is InitializeBlock) && !(
        after.requests[i] is SendTo)
}

/// Whether all requests that were added are to send seals to some of the given peers.
pub open spec fn only_sends_seals(before: Exchange, after: Exchange, peers: Seq<Seq<u8>>) -> bool {
    forall|i: int|
        before.requests.len() <= i < after.requests.len() ==> (#[trigger] after.requests[i] matches
            RequestView::SendTo { peer, msg_type, .. } && peers.contains(peer) && msg_type
            == PbftMessageType::SealResponse)
}

proof fn lemma_rejects_none_steps(first: Exchange, second: Exchange, third: Exchange)
    requires
        goes_on(second, third),
        rejects_and_starts_none(first, second),
        rejects_and_starts_none(second, third),
    ensures
        rejects_and_starts_none(first, third),
{
    assert forall|i: int| first.requests.len() <= i < third.requests.len() implies !(
    #[trigger] third.requests[i] is FailBlock) && !(third.requests[i] is InitializeBlock) && !(
    third.requests[i] is SendTo) by {
        if i < second.requests.len() {
            assert(third.requests[i] == second.requests[i]);
        }
    }
}

proof fn lemma_commit_rejects_none(world: World, message: ParsedView)
    ensures
        rejects_and_starts_none(world.exchange, commit_handled(world, message).0.exchange),
{
}

proof fn lemma_commit_sent_rejects_none(world: World, block_id: Seq<u8>)
    ensures
        rejects_and_starts_none(world.exchange, commit_sent(world, block_id).0.exchange),
{
    let message = own_message(
        world.state,
        PbftMessageType::Commit,
        world.state.view,
        world.state.seq_num,
        block_id,
    );
    let announced = world.announced(message);
    lemma_commit_rejects_none(announced, message);
    lemma_commit_continues(announced, message);
    lemma_rejects_none_steps(
        world.exchange,
        announced.exchange,
        commit_handled(announced, message).0.exchange,
    );
}

proof fn lemma_preparing_rejects_none(world: World, block_id: Seq<u8>)
    ensures
        rejects_and_starts_none(world.exchange, preparing_tried(world, block_id).0.exchange),
{
    let preparing = preparing_world(world);
    let message = own_message(
        preparing.state,
        PbftMessageType::Prepare,
        preparing.state.view,
        preparing.state.seq_num,
        block_id,
    );
    let announced = preparing.announced(message);
    let logged = announced.logged(message).0;
    let committing = World { state: logged.state.in_phase(PhaseView::Committing), ..logged };
    lemma_commit_sent_rejects_none(committing, block_id);
    lemma_prepare_continues(announced, message);
    assert(rejects_and_starts_none(
        announced.exchange,
        prepare_handled(announced, message).0.exchange,
    ));
    lemma_rejects_none_steps(
        world.exchange,
        announced.exchange,
        prepare_handled(announced, message).0.exchange,
    );
}

proof fn lemma_each_rejects_none(world: World, block_ids: Seq<Seq<u8>>)
    ensures
        rejects_and_starts_none(
            world.exchange,
            preparing_each_tried(world, block_ids).0.exchange,
        ),
    decreases block_ids.len(),
{
    if block_ids.len() > 0 {
        let front = block_ids.drop_last();
        lemma_each_rejects_none(world, front);
        let before = preparing_each_tried(world, front).0;
        lemma_preparing_rejects_none(before, block_ids.last());
        lemma_preparing_continues(before, block_ids.last());
        lemma_rejects_none_steps(
            world.exchange,
            before.exchange,
            preparing_tried(before, block_ids.last()).0.exchange,
        );
    }
}

proof fn lemma_responses_only_send(world: World, recipients: Seq<Seq<u8>>)
    ensures
        only_sends_seals(
            world.exchange,
            seal_responses_sent(world, recipients).0.exchange,
            recipients,
        ),
    decreases recipients.len(),
{
    if recipients.len() > 0 {
        let front = recipients.drop_last();
        let last = recipients.last();
        lemma_responses_only_send(world, front);
        lemma_responses_keep(world, front);
        let before = seal_responses_sent(world, front).0.exchange;
        let after = seal_responses_sent(world, recipients).0.exchange;
        assert(recipients[recipients.len() - 1] == last);
        assert forall|i: int| world.exchange.requests.len() <= i < after.requests.len() implies (
        #[trigger] after.requests[i] matches RequestView::SendTo { peer, msg_type, .. }
            && recipients.contains(peer) && msg_type == PbftMessageType::SealResponse) by {
            if i < before.requests.len() {
                assert(after.requests[i] == before.requests[i]);
                let peer = before.requests[i]->SendTo_peer;
                assert(front.contains(peer));
                assert(recipients[front.index_of(peer)] == peer);
            }
        }
    }
}

proof fn lemma_block_seal_only_asks(
    exchange: Exchange,
    log: LogView,
    state: StateView,
    block: BlockView,
)
    ensures
        only_asks(exchange, block_seal_checked(exchange, log, state, block).0),
{
    match seal_of_block(log, block) {
        Ok(seal) => {
            lemma_seal_only_asks(exchange, state, seal, block.signer_id);
        },
        Err(_) => {},
    }
}

/// The world of a node after a block was committed, before it goes on to the next, as far as blocks
/// and requests go.
proof fn lemma_before_next(world: World, block_id: Seq<u8>)
    requires
        world.state.seq_num < u64::MAX,
        after_commit(world, block_id) is Some,
    ensures
        ({
            let begun = after_commit(world, block_id)->0;
            let next = advanced(world, block_id);
            &&& begun.log == world.log.collected((world.state.seq_num + 1) as u64)
            &&& begun.self_sending == world.self_sending
            &&& begun.state == (StateView {
                seq_num: (world.state.seq_num + 1) as u64,
                view: begun.state.view,
                peer_ids: begun.state.peer_ids,
                f: begun.state.f,
                ..world.state
            })
            &&& goes_on(next.exchange, begun.exchange)
        }),
{
    let next = advanced(world, block_id);
    lemma_responses_keep(next, seal_requesters(next));
    let answered = seal_responses_sent(next, seal_requesters(next)).0;
    lemma_view_updated_keeps(answered, block_id);
}

proof fn lemma_next_block_requests(world: World, block_id: Seq<u8>, catching_up: bool)
    ensures
        forall|i: int|
            world.exchange.requests.len() <= i < next_block_begun(
                world,
                block_id,
                catching_up,
            ).0.exchange.requests.len() ==> !(#[trigger] next_block_begun(
                world,
                block_id,
                catching_up,
            ).0.exchange.requests[i] is FailBlock) && !(next_block_begun(
                world,
                block_id,
                catching_up,
            ).0.exchange.requests[i] is SendTo),
        forall|i: int|
            world.exchange.requests.len() <= i < next_block_begun(
                world,
                block_id,
                catching_up,
            ).0.exchange.requests.len() && (#[trigger] next_block_begun(
                world,
                block_id,
                catching_up,
            ).0.exchange.requests[i] is InitializeBlock) ==> {
                let after = next_block_begun(world, block_id, catching_up).0;
                &&& !catching_up
                &&& after.exchange.requests[i] == (RequestView::InitializeBlock {
                    previous_id: Some(block_id),
                })
                &&& i == after.exchange.requests.len() - 1
                &&& in_turn(after.state, after.state.view) == after.state.id
            },
{
    let after = next_block_begun(world, block_id, catching_up).0;
    let sealed_next = world.log.blocks_with_num((world.state.seq_num + 1) as u64);
    if sealed_next.len() > 0 {
        lemma_block_seal_only_asks(world.exchange, world.log, world.state, sealed_next[0]);
        let (exchange, checked) = block_seal_checked(
            world.exchange,
            world.log,
            world.state,
            sealed_next[0],
        );
        match checked {
            Ok(seal) => {
                let verified = World { exchange, ..world };
                lemma_catchup_requests(verified, seal);
            },
            Err(_) => {},
        }
    } else if !catching_up {
        let reset = World { state: world.state.reset(), ..world };
        let ids = ids_of(reset.log.blocks_with_num(reset.state.seq_num));
        lemma_each_rejects_none(reset, ids);
        lemma_preparing_each_continues(reset, ids);
        let tried = preparing_each_tried(reset, ids).0;
        assert forall|i: int|
            world.exchange.requests.len() <= i < tried.exchange.requests.len() implies
            after.exchange.requests[i] == #[trigger] tried.exchange.requests[i] by {}
        assert forall|i: int|
            world.exchange.requests.len() <= i < after.exchange.requests.len() implies !(
        #[trigger] after.exchange.requests[i] is FailBlock) && !(
        after.exchange.requests[i] is SendTo) by {
            if i < tried.exchange.requests.len() {
                assert(after.exchange.requests[i] == tried.exchange.requests[i]);
            }
        }
        assert forall|i: int|
            world.exchange.requests.len() <= i < after.exchange.requests.len() && (
            #[trigger] after.exchange.requests[i] is InitializeBlock) implies i
            == tried.exchange.requests.len() && tried.state.is_primary() by {
            if i < tried.exchange.requests.len() {
                assert(after.exchange.requests[i] == tried.exchange.requests[i]);
            }
        }
    }
}

proof fn lemma_catchup_requests(world: World, seal: SealView)
    ensures
        goes_on(world.exchange, caught_up(world, seal, true).0.exchange),
        rejects_and_starts_none(world.exchange, caught_up(world, seal, true).0.exchange),
{
    lemma_catchup_continues(world, seal, true);
    match vote_messages(seal.commit_votes) {
        Some(messages) => {
            let view = messages[0].info().view;
            let at_view = World {
                state: StateView {
                    view: if view > world.state.view {
                        view
                    } else {
                        world.state.view
                    },
                    ..world.state
                },
                ..world
            };
            lemma_all_logged_continues(at_view, messages);
        },
        None => {},
    }
}

/// When a block was committed, no block is rejected but those in the log at its sequence number with
/// another ID; a block is started only on top of the committed one, by the node whose turn it then is
/// to be primary; and only nodes that asked for the seal of the committed block are sent one.
pub proof fn law_commit_rejects_only_others(world: World, block_id: Seq<u8>, i: int)
    requires
        world.state.seq_num < u64::MAX,
        world.exchange.requests.len() <= i < block_committed(
            world,
            block_id,
        ).0.exchange.requests.len(),
    ensures
        ({
            let after = block_committed(world, block_id).0;
            &&& after.exchange.requests[i] matches RequestView::FailBlock { block_id: rejected }
                ==> rejected != block_id && exists|at: int|
                0 <= at < world.log.blocks.len() && (#[trigger] world.log.blocks[at]).block_num
                    == world.state.seq_num && world.log.blocks[at].block_id == rejected
            &&& after.exchange.requests[i] matches RequestView::InitializeBlock { previous_id }
                ==> previous_id == Some(block_id) && in_turn(after.state, after.state.view)
                == after.state.id
            &&& after.exchange.requests[i] matches RequestView::SendTo { peer, msg_type, .. }
                ==> msg_type == PbftMessageType::SealResponse && exists|at: int|
                0 <= at < world.log.messages.len() && (
                #[trigger] world.log.messages[at]).info().msg_type == PbftMessageType::SealRequest
                    && world.log.messages[at].info().seq_num == world.state.seq_num
                    && world.log.messages[at].info().signer_id == peer
        }),
{
    match world.state.phase {
        PhaseView::Finishing(expected_id, catching_up) => {
            let next = advanced(world, block_id);
            lemma_responses_keep(next, seal_requesters(next));
            lemma_responses_only_send(next, seal_requesters(next));
            let (answered, sent) = seal_responses_sent(next, seal_requesters(next));
            lemma_view_updated_keeps(answered, block_id);
            let (updated, done) = view_updated(answered, block_id);
            assert(rejects_and_starts_none(answered.exchange, updated.exchange));
            let begun = World { log: updated.log.collected(updated.state.seq_num), ..updated };
            lemma_next_block_requests(begun, block_id, catching_up);
            lemma_next_block_continues(begun, block_id, catching_up);
            let after = block_committed(world, block_id).0;
            if i < next.exchange.requests.len() {
                let rejected = uncommitted(world, block_id);
                let k = i - world.exchange.requests.len();
                assert(next.exchange.requests[i] == (RequestView::FailBlock {
                    block_id: rejected[k],
                }));
                assert(answered.exchange.requests[i] == next.exchange.requests[i]);
                assert(updated.exchange.requests[i] == next.exchange.requests[i]);
                assert(after.exchange.requests[i] == next.exchange.requests[i]);
                let numbered = world.log.blocks.filter(with_num(world.state.seq_num));
                let places = lemma_filter_positions(world.log.blocks, with_num(world.state.seq_num));
                let inner = lemma_filter_positions(numbered, other_than(block_id));
                let others = numbered.filter(other_than(block_id));
                assert(others[k] == numbered[inner[k]]);
                assert(world.log.blocks[places[inner[k]]] == others[k]);
            } else if i < answered.exchange.requests.len() {
                assert(updated.exchange.requests[i] == answered.exchange.requests[i]);
                assert(after.exchange.requests[i] == answered.exchange.requests[i]);
                let peer = answered.exchange.requests[i]->SendTo_peer;
                let k = seal_requesters(next).index_of(peer);
                let pred = of_type_seq(
                    PbftMessageType::SealRequest,
                    (next.state.seq_num - 1) as u64,
                );
                let places = lemma_filter_positions(world.log.messages, pred);
                assert(world.log.messages[places[k]] == world.log.messages.filter(pred)[k]);
            } else if i < updated.exchange.requests.len() {
                assert(after.exchange.requests[i] == updated.exchange.requests[i]);
            }
        },
        _ => {},
    }
}

/// When a block was committed and the node goes on, the log keeps all messages and blocks that are
/// not older than that block. If the log was not full it keeps the others too; else it keeps no
/// others.
pub proof fn law_commit_cleans_up(world: World, block_id: Seq<u8>)
    requires
        world.state.seq_num < u64::MAX,
        world.state.phase matches PhaseView::Finishing(expected_id, _) && expected_id == block_id,
        after_commit(world, block_id) is Some,
    ensures
        ({
            let after = block_committed(world, block_id).0.log;
            let full = world.log.messages.len() >= world.log.max_log_size;
            &&& after.max_log_size == world.log.max_log_size
            &&& !full ==> after.blocks == world.log.blocks && extends(
                world.log.messages,
                after.messages,
            )
            &&& full ==> exists|kept: Seq<ParsedView>| #[trigger]
                extends(kept, after.messages) && kept_recent(
                    world.log.messages,
                    kept,
                    world.state.seq_num,
                )
            &&& full ==> kept_recent_blocks(world.log.blocks, after.blocks, world.state.seq_num)
        }),
{
    lemma_before_next(world, block_id);
    let begun = after_commit(world, block_id)->0;
    lemma_next_block_continues(begun, block_id, world.state.phase->Finishing_1);
    let after = block_committed(world, block_id).0.log;
    if world.log.messages.len() >= world.log.max_log_size {
        let seq_num = (world.state.seq_num + 1) as u64;
        let recent = recent_message(seq_num);
        let kept = world.log.messages.filter(recent);
        let places = lemma_filter_positions(world.log.messages, recent);
        assert forall|i: int| 0 <= i < kept.len() implies (
        #[trigger] kept[i]).info().seq_num >= world.state.seq_num
            && world.log.messages.contains(kept[i]) by {
            assert(world.log.messages[places[i]] == kept[i]);
        }
        assert forall|i: int|
            0 <= i < world.log.messages.len() && (
            #[trigger] world.log.messages[i]).info().seq_num >= world.state.seq_num implies
            kept.contains(world.log.messages[i]) by {
            assert(recent(world.log.messages[i]));
            world.log.messages.lemma_filter_contains(recent, i);
        }
        assert(extends(kept, after.messages));
        let recent_one = recent_block(seq_num);
        let block_places = lemma_filter_positions(world.log.blocks, recent_one);
        assert forall|i: int| 0 <= i < after.blocks.len() implies (
        #[trigger] after.blocks[i]).block_num >= world.state.seq_num && world.log.blocks.contains(
            after.blocks[i],
        ) by {
            assert(world.log.blocks[block_places[i]] == after.blocks[i]);
        }
        assert forall|i: int|
            0 <= i < world.log.blocks.len() && (#[trigger] world.log.blocks[i]).block_num
                >= world.state.seq_num implies after.blocks.contains(world.log.blocks[i]) by {
            assert(recent_one(world.log.blocks[i]));
            world.log.blocks.lemma_filter_contains(recent_one, i);
        }
    }
}

/// Whether those messages were kept that are for the given sequence number or a later one, and no
/// others.
pub open spec fn kept_recent(
    messages: Seq<ParsedView>,
    kept: Seq<ParsedView>,
    seq_num: u64,
) -> bool {
    &&& forall|i: int|
        0 <= i < kept.len() ==> (#[trigger] kept[i]).info().seq_num >= seq_num
            && messages.contains(kept[i])
    &&& forall|i: int|
        0 <= i < messages.len() && (#[trigger] messages[i]).info().seq_num >= seq_num
            ==> kept.contains(messages[i])
}

/// Whether those blocks were kept that have the given number or a later one, and no others.
pub open spec fn kept_recent_blocks(
    blocks: Seq<BlockView>,
    kept: Seq<BlockView>,
    block_num: u64,
) -> bool {
    &&& forall|i: int|
        0 <= i < kept.len() ==> (#[trigger] kept[i]).block_num >= block_num && blocks.contains(
            kept[i],
        )
    &&& forall|i: int|
        0 <= i < blocks.len() && (#[trigger] blocks[i]).block_num >= block_num ==> kept.contains(
            blocks[i],
        )
}

/// Whether no block in the log has the given number.
pub open spec fn none_numbered(blocks: Seq<BlockView>, block_num: int) -> bool {
    forall|i: int| 0 <= i < blocks.len() ==> (#[trigger] blocks[i]).block_num != block_num
}

proof fn lemma_none_numbered(log: LogView, seq_num: u64, block_num: u64)
    requires
        none_numbered(log.blocks, block_num as int),
    ensures
        log.collected(seq_num).blocks_with_num(block_num).len() == 0,
{
    let kept = log.collected(seq_num).blocks;
    let places = lemma_filter_positions(log.blocks, recent_block(seq_num));
    let found = lemma_filter_positions(kept, with_num(block_num));
    if found.len() > 0 {
        let block = kept[found[0]];
        assert(block.block_num == block_num);
        if log.messages.len() >= log.max_log_size {
            assert(log.blocks[places[found[0]]] == block);
        }
    }
}

/// When a block was committed, the node is not catching up, and it has no later block, it starts
/// over: it is in the normal mode and waits for a block from the primary, and for nothing else. If it
/// is then its turn to be primary, it starts a block on top of the committed one.
pub proof fn law_commit_starts_over(world: World, block_id: Seq<u8>)
    requires
        world.state.seq_num + 2 <= u64::MAX,
        world.state.phase == PhaseView::Finishing(block_id, false),
        after_commit(world, block_id) is Some,
        none_numbered(world.log.blocks, world.state.seq_num + 1),
        none_numbered(world.log.blocks, world.state.seq_num + 2),
    ensures
        ({
            let (after, result) = block_committed(world, block_id);
            &&& after.state == (StateView {
                seq_num: (world.state.seq_num + 1) as u64,
                phase: PhaseView::PrePreparing,
                mode: PbftMode::Normal,
                view: after.state.view,
                peer_ids: after.state.peer_ids,
                f: after.state.f,
                faulty_primary_timeout: after.state.faulty_primary_timeout,
                commit_timeout: after.state.commit_timeout,
                ..world.state
            })
            &&& after.state.faulty_primary_timeout.state == TimeoutState::Active
            &&& after.state.faulty_primary_timeout.started == world.state.now
            &&& after.state.faulty_primary_timeout.duration
                == world.state.faulty_primary_timeout.duration
            &&& after.state.commit_timeout.state == TimeoutState::Inactive
            &&& in_turn(after.state, after.state.view) == after.state.id
                ==> after.exchange.requests.last() == (RequestView::InitializeBlock {
                previous_id: Some(block_id),
            })
            &&& in_turn(after.state, after.state.view) != after.state.id ==> result == Ok::<
                (),
                PbftError,
            >(())
            &&& in_turn(after.state, after.state.view) == after.state.id ==> {
                let replies = after_commit(world, block_id)->0.exchange.replies;
                &&& replies.len() > 0 && replies[0] == ReplyView::Done ==> result == Ok::<
                    (),
                    PbftError,
                >(())
                &&& replies.len() > 0 && replies[0] == ReplyView::Failed ==> result == Err::<
                    (),
                    PbftError,
                >(PbftError::ServiceError(ServiceCall::InitializeAfterCommit))
            }
        }),
{
    lemma_before_next(world, block_id);
    let begun = after_commit(world, block_id)->0;
    let seq_num = (world.state.seq_num + 1) as u64;
    lemma_none_numbered(world.log, seq_num, seq_num);
    lemma_none_numbered(world.log, seq_num, (seq_num + 1) as u64);
    let reset = World { state: begun.state.reset(), ..begun };
    let ids = ids_of(reset.log.blocks_with_num(seq_num));
    assert(ids.len() == 0);
    assert(preparing_each_tried(reset, ids) == (reset, Ok::<(), PbftError>(())));
}

/// When a block was committed by a node that is catching up and has no later block that seals the
/// next one, it asks the network for that seal: the last request is for the sequence number that it
/// then works on, and the node no longer waits for the validator.
pub proof fn law_catching_up_asks_for_seal(world: World, block_id: Seq<u8>)
    requires
        world.state.seq_num + 2 <= u64::MAX,
        world.state.phase == PhaseView::Finishing(block_id, true),
        after_commit(world, block_id) is Some,
        none_numbered(world.log.blocks, world.state.seq_num + 2),
    ensures
        ({
            let after = block_committed(world, block_id).0;
            &&& after.state.phase is PrePreparing
            &&& after.state.mode == world.state.mode
            &&& after.state.seq_num == world.state.seq_num + 1
            &&& after.exchange.requests.last() == broadcast_of(
                world.state.id,
                PbftMessageType::SealRequest,
                after.state.view,
                after.state.seq_num,
                Seq::empty(),
            )
            &&& world.self_sending && world.state.mode is Normal && after.state.peer_ids.contains(
                world.state.id,
            ) ==> signed_by(
                after.log.messages,
                PbftMessageType::SealRequest,
                after.state.view,
                after.state.seq_num,
                Seq::empty(),
                world.state.id,
            )
        }),
{
    lemma_before_next(world, block_id);
    let begun = after_commit(world, block_id)->0;
    let asking = World { state: begun.state.in_phase(PhaseView::PrePreparing), ..begun };
    let request = own_message(
        asking.state,
        PbftMessageType::SealRequest,
        asking.state.view,
        asking.state.seq_num,
        Seq::empty(),
    );
    let announced = asking.announced(request);
    lemma_logged(announced, request);
    let logged = announced.logged(request).0;
    let k = choose|k: int|
        0 <= k < logged.log.messages.len() && (#[trigger] logged.log.messages[k]).message
            == request.message;
    assert(is_for(
        logged.log.messages[k],
        PbftMessageType::SealRequest,
        asking.state.view,
        asking.state.seq_num,
        Seq::empty(),
    ));
    let seq_num = (world.state.seq_num + 1) as u64;
    lemma_none_numbered(world.log, seq_num, (seq_num + 1) as u64);
}

/// Whether a block is the first in a list with its number.
pub open spec fn first_numbered_at(blocks: Seq<BlockView>, at: int, block_num: int) -> bool {
    &&& 0 <= at < blocks.len()
    &&& blocks[at].block_num == block_num
    &&& forall|i: int| 0 <= i < at ==> (#[trigger] blocks[i]).block_num != block_num
}

proof fn lemma_first_numbered(log: LogView, seq_num: u64, at: int, block_num: u64)
    requires
        first_numbered_at(log.blocks, at, block_num as int),
        block_num >= seq_num - 1,
    ensures
        log.collected(seq_num).blocks_with_num(block_num).len() > 0,
        log.collected(seq_num).blocks_with_num(block_num)[0] == log.blocks[at],
{
    let by_num = with_num(block_num);
    lemma_first_taken(log.blocks, at, by_num);
    if log.messages.len() >= log.max_log_size {
        let keep = recent_block(seq_num);
        lemma_filter_commutes(log.blocks, keep, by_num);
        lemma_first_kept(log.blocks.filter(by_num), keep);
    }
}

/// When a block was committed and the node has a block two above it, it goes on to catch up: if it
/// succeeds, the last request is for the previous block of that block to be committed, and the node
/// waits to hear of that one in order to go on catching up.
pub proof fn law_commit_goes_on_catching_up(world: World, block_id: Seq<u8>, at: int)
    requires
        world.state.seq_num + 2 <= u64::MAX,
        world.state.wf(),
        world.state.phase matches PhaseView::Finishing(expected_id, _) && expected_id == block_id,
        first_numbered_at(world.log.blocks, at, world.state.seq_num + 2),
        block_committed(world, block_id).1 is Ok,
    ensures
        ({
            let after = block_committed(world, block_id).0;
            let previous_id = world.log.blocks[at].previous_id;
            &&& after.exchange.requests.last() == (RequestView::CommitBlock {
                block_id: previous_id,
            })
            &&& after.state.phase == PhaseView::Finishing(previous_id, true)
            &&& after.state.faulty_primary_timeout.state == TimeoutState::Inactive
        }),
{
    lemma_before_next(world, block_id);
    let begun = after_commit(world, block_id)->0;
    let seq_num = (world.state.seq_num + 1) as u64;
    lemma_first_numbered(world.log, seq_num, at, (seq_num + 1) as u64);
    let block = world.log.blocks[at];
    let (exchange, checked) = block_seal_checked(begun.exchange, begun.log, begun.state, block);
    let seal = checked->Ok_0;
    let verified = World { exchange, ..begun };
    lemma_votes_taken_over(verified, seal, true);
    lemma_catchup_last(verified, seal);
}

/// When a block was committed, and the first block two above it does not hold a valid seal, the node
/// says so, commits nothing, and goes on waiting.
pub proof fn law_bad_seal_of_next_is_reported(
    world: World,
    block_id: Seq<u8>,
    at: int,
    rejection: Rejection,
)
    requires
        world.state.seq_num + 2 <= u64::MAX,
        world.state.phase matches PhaseView::Finishing(expected_id, _) && expected_id == block_id,
        first_numbered_at(world.log.blocks, at, world.state.seq_num + 2),
        after_commit(world, block_id) matches Some(begun) && block_seal_checked(
            begun.exchange,
            begun.log,
            begun.state,
            world.log.blocks[at],
        ).1 == Err::<SealView, VerifyError>(VerifyError::Rejected(rejection)),
    ensures
        ({
            let (after, result) = block_committed(world, block_id);
            let begun = after_commit(world, block_id)->0;
            &&& result is Err
            &&& after.state == begun.state
            &&& after.log == begun.log
            &&& only_asks(begun.exchange, after.exchange)
        }),
{
    lemma_before_next(world, block_id);
    let begun = after_commit(world, block_id)->0;
    let seq_num = (world.state.seq_num + 1) as u64;
    lemma_first_numbered(world.log, seq_num, at, (seq_num + 1) as u64);
    lemma_block_seal_only_asks(begun.exchange, begun.log, begun.state, world.log.blocks[at]);
}

proof fn lemma_catchup_last(world: World, seal: SealView)
    requires
        caught_up(world, seal, true).1 is Ok,
    ensures
        caught_up(world, seal, true).0.exchange.requests.last() == (RequestView::CommitBlock {
            block_id: seal.block_id,
        }),
{
    let messages = vote_messages(seal.commit_votes)->0;
    let view = messages[0].info().view;
    let at_view = World {
        state: StateView {
            view: if view > world.state.view {
                view
            } else {
                world.state.view
            },
            ..world.state
        },
        ..world
    };
    lemma_all_logged_continues(at_view, messages);
}

/// Trying to prepare blocks prepares one if one can be prepared, and else changes nothing.
proof fn lemma_some_prepared(world: World, block_ids: Seq<Seq<u8>>)
    ensures
        (forall|k: int| 0 <= k < block_ids.len() ==> !can_prepare(world, #[trigger] block_ids[k]))
            ==> preparing_each_tried(world, block_ids) == (world, Ok::<(), PbftError>(())),
        preparing_each_tried(world, block_ids).1 is Ok && (exists|k: int|
            0 <= k < block_ids.len() && can_prepare(world, #[trigger] block_ids[k])) ==> !(
        preparing_each_tried(world, block_ids).0.state.phase is PrePreparing),
    decreases block_ids.len(),
{
    if block_ids.len() > 0 {
        let front = block_ids.drop_last();
        let last = block_ids.last();
        lemma_some_prepared(world, front);
        let (before, result) = preparing_each_tried(world, front);
        lemma_preparing_tried(before, last);
        assert forall|k: int| 0 <= k < front.len() implies front[k] == #[trigger] block_ids[k] by {}
        if exists|k: int| 0 <= k < front.len() && can_prepare(world, #[trigger] front[k]) {
            let k = choose|k: int| 0 <= k < front.len() && can_prepare(world, #[trigger] front[k]);
            assert(can_prepare(world, block_ids[k]));
            if result is Ok {
                assert(preparing_tried(before, last) == (before, Ok::<(), PbftError>(())));
            }
        } else {
            assert forall|k: int| 0 <= k < front.len() implies !can_prepare(
                world,
                #[trigger] front[k],
            ) by {}
            assert(before == world);
            assert(block_ids[block_ids.len() - 1] == last);
        }
    }
}

/// When a block was committed, the node is not catching up, and it has a block for the next sequence
/// number with a `PrePrepare` for it in the view that it is then in, it goes on to prepare a block.
pub proof fn law_commit_prepares_next(world: World, block_id: Seq<u8>, next_id: Seq<u8>)
    requires
        world.state.seq_num + 2 <= u64::MAX,
        world.state.phase == PhaseView::Finishing(block_id, false),
        none_numbered(world.log.blocks, world.state.seq_num + 2),
        block_at_number(world.log.blocks, next_id, (world.state.seq_num + 1) as u64),
        block_committed(world, block_id).1 is Ok,
        after_commit(world, block_id) matches Some(begun) && proposed(
            world.log.messages,
            begun.state.view,
            (world.state.seq_num + 1) as u64,
            next_id,
        ),
    ensures
        !(block_committed(world, block_id).0.state.phase is PrePreparing),
        block_committed(world, block_id).0.state.mode is Normal,
        block_committed(world, block_id).0.state.view == after_commit(world, block_id)->0.state.view,
{
    lemma_before_next(world, block_id);
    let begun = after_commit(world, block_id)->0;
    let seq_num = (world.state.seq_num + 1) as u64;
    lemma_none_numbered(world.log, seq_num, (seq_num + 1) as u64);
    let reset = World { state: begun.state.reset(), ..begun };
    let at = choose|at: int| #[trigger]
        first_block_at(world.log.blocks, at, next_id) && world.log.blocks[at].block_num == seq_num;
    // The block is still found in the log
    lemma_first_block(world.log, at, next_id);
    let keep = recent_block(seq_num);
    if world.log.messages.len() >= world.log.max_log_size {
        lemma_filter_commutes(world.log.blocks, keep, with_id(next_id));
        lemma_first_kept(world.log.blocks.filter(with_id(next_id)), keep);
        world.log.blocks.lemma_filter_contains(keep, at);
    }
    assert(reset.log.block_with_id(next_id) == Some(world.log.blocks[at]));
    let kept = reset.log.blocks;
    assert(kept.contains(world.log.blocks[at])) by {
        if world.log.messages.len() < world.log.max_log_size {
            assert(kept[at] == world.log.blocks[at]);
        }
    }
    let place = kept.index_of(world.log.blocks[at]);
    kept.lemma_filter_contains(with_num(seq_num), place);
    let numbered = reset.log.blocks_with_num(seq_num);
    let ids = ids_of(numbered);
    let k = numbered.index_of(world.log.blocks[at]);
    assert(ids[k] == next_id);
    // So is its `PrePrepare`
    let i = choose|i: int|
        0 <= i < world.log.messages.len() && is_for(
            #[trigger] world.log.messages[i],
            PbftMessageType::PrePrepare,
            begun.state.view,
            seq_num,
            next_id,
        );
    let message = world.log.messages[i];
    let recent = recent_message(seq_num);
    assert(recent(message));
    if world.log.messages.len() >= world.log.max_log_size {
        world.log.messages.lemma_filter_contains(recent, i);
    } else {
        assert(reset.log.messages[i] == message);
    }
    let j = reset.log.messages.index_of(message);
    assert(reset.log.messages[j] == message);
    let pred = of_type_seq_view(PbftMessageType::PrePrepare, seq_num, begun.state.view);
    assert(pred(reset.log.messages[j]));
    assert(can_prepare(reset, ids[k]));
    lemma_some_prepared(reset, ids);
    lemma_each_same_view(reset, ids);
}

pub proof fn lemma_each_same_view(world: World, block_ids: Seq<Seq<u8>>)
    ensures
        preparing_each_tried(world, block_ids).0.state.mode == world.state.mode,
        preparing_each_tried(world, block_ids).0.state.view == world.state.view,
    decreases block_ids.len(),
{
    if block_ids.len() > 0 {
        lemma_each_same_view(world, block_ids.drop_last());
        lemma_preparing_result(
            preparing_each_tried(world, block_ids.drop_last()).0,
            block_ids.last(),
        );
    }
}

/// Whether a result does not say that a seal could not be sent or built for a node that asked for it.
pub open spec fn not_about_sent_seals(result: Result<(), PbftError>) -> bool {
    match result {
        Err(PbftError::ServiceError(call)) => call != ServiceCall::SendSeal,
        Err(PbftError::InternalError(InternalFault::RequestedSeal(_))) => false,
        _ => true,
    }
}

proof fn lemma_prepare_error(world: World, message: ParsedView)
    ensures
        not_about_sent_seals(prepare_handled(world, message).1),
{
    let logged = world.logged(message).0;
    let committing = World { state: logged.state.in_phase(PhaseView::Committing), ..logged };
    let commit = own_message(
        committing.state,
        PbftMessageType::Commit,
        committing.state.view,
        committing.state.seq_num,
        message.block_id(),
    );
    lemma_commit_error(committing.announced(commit), commit);
}

proof fn lemma_commit_error(world: World, message: ParsedView)
    ensures
        not_about_sent_seals(commit_handled(world, message).1),
{
}

proof fn lemma_each_error(world: World, block_ids: Seq<Seq<u8>>)
    ensures
        not_about_sent_seals(preparing_each_tried(world, block_ids).1),
    decreases block_ids.len(),
{
    if block_ids.len() > 0 {
        lemma_each_error(world, block_ids.drop_last());
        let before = preparing_each_tried(world, block_ids.drop_last()).0;
        let preparing = preparing_world(before);
        let prepare = own_message(
            preparing.state,
            PbftMessageType::Prepare,
            preparing.state.view,
            preparing.state.seq_num,
            block_ids.last(),
        );
        lemma_prepare_error(preparing.announced(prepare), prepare);
    }
}

proof fn lemma_all_logged_error(world: World, messages: Seq<ParsedView>)
    ensures
        not_about_sent_seals(all_logged(world, messages).1),
    decreases messages.len(),
{
    if messages.len() > 0 {
        lemma_all_logged_error(world, messages.drop_last());
    }
}

proof fn lemma_catchup_error(world: World, seal: SealView)
    ensures
        not_about_sent_seals(caught_up(world, seal, true).1),
{
    match vote_messages(seal.commit_votes) {
        Some(messages) => {
            let view = messages[0].info().view;
            let at_view = World {
                state: StateView {
                    view: if view > world.state.view {
                        view
                    } else {
                        world.state.view
                    },
                    ..world.state
                },
                ..world
            };
            lemma_all_logged_error(at_view, messages);
        },
        None => {},
    }
}

/// That a seal which a node asked for cannot be built or sent does not keep the node from going on
/// after a commit.
pub proof fn law_unsent_seals_do_not_matter(world: World, block_id: Seq<u8>)
    requires
        world.state.seq_num < u64::MAX,
    ensures
        not_about_sent_seals(block_committed(world, block_id).1),
{
    let next = advanced(world, block_id);
    lemma_responses_only_halt(next, seal_requesters(next));
    let answered = seal_responses_sent(next, seal_requesters(next)).0;
    let updated = view_updated(answered, block_id).0;
    let begun = World { log: updated.log.collected(updated.state.seq_num), ..updated };
    let sealed_next = begun.log.blocks_with_num((begun.state.seq_num + 1) as u64);
    let (exchange, checked) = block_seal_checked(
        begun.exchange,
        begun.log,
        begun.state,
        sealed_next[0],
    );
    match checked {
        Ok(seal) => {
            lemma_catchup_error(World { exchange, ..begun }, seal);
        },
        Err(_) => {},
    }
    let reset = World { state: begun.state.reset(), ..begun };
    lemma_each_error(reset, ids_of(reset.log.blocks_with_num(reset.state.seq_num)));
}

proof fn lemma_responses_only_halt(world: World, recipients: Seq<Seq<u8>>)
    ensures
        seal_responses_sent(world, recipients).1 matches Err(error) ==> error is Halted,
    decreases recipients.len(),
{
    if recipients.len() > 0 {
        lemma_responses_only_halt(world, recipients.drop_last());
    }
}

} // verus!
