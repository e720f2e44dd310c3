//! What it takes for the network to agree on a block, told by the messages in the log.

use vstd::prelude::*;

use crate::block::BlockView;
use crate::error::{Halt, MessageDefect, PbftError, PrimaryFault, ServiceCall};
use crate::evidence::{
    among, block_at_number, broadcast_of, first_block_at, first_proposal, first_proposal_at,
    in_turn, is_for, lemma_counted_signers, lemma_first_block, lemma_first_proposal,
    lemma_first_proposal_stays, lemma_found_block, lemma_found_proposal, lemma_signers_counted,
    other_proposed, proposed, signed_by, signed_by_all,
};
use crate::frame::{
    lemma_commit_sent_continues, lemma_prepare_sent_continues, lemma_preparing_continues,
    lemma_view_change_continues,
};
use crate::laws::{
    commit_requested, law_block_commits_with_quorum_or_seal, law_commit_needs_quorum_or_seal,
    quorum,
};
use crate::message::ParsedView;
use crate::message_log::{of_type_seq_view, LogView};
use crate::message_type::PbftMessageType;
use crate::model::{
    agreed, block_received, block_seal_checked, can_prepare, commit_handled, commit_sent,
    conflicting_pre_prepare, message_received, own_message, prepare_handled, prepare_sent,
    preparing_tried, preparing_world, view_change_message, voted_world, World,
};
use crate::service::{ReplyView, RequestView};
use crate::state::{PbftMode, PhaseView, StateView};
use crate::timing::{scaled_duration, TimeoutState};

verus! {

// ---------- Messages in the log ----------

/// What becomes of a message for the node's view that is offered to the log.
pub proof fn lemma_logged(world: World, message: ParsedView)
    requires
        message.info().view == world.state.view,
    ensures
        world.logged(message).1 == Ok::<(), PbftError>(()),
        among(world.logged(message).0.log.messages, message),
        !among(world.log.messages, message) ==> world.logged(message).0.log.messages
            == world.log.messages.push(message),
        world.logged(message).0.state == world.state,
        world.logged(message).0.exchange == world.exchange,
        world.logged(message).0.log.blocks == world.log.blocks,
{
    let logged = world.logged(message).0;
    if world.log.holds(message.message) {
        let i = choose|i: int|
            0 <= i < world.log.messages.len() && (#[trigger] world.log.messages[i]).message
                == message.message;
        assert(logged.log.messages[i].message == message.message);
    } else {
        assert(logged.log.messages[world.log.messages.len() as int] == message);
    }
}

/// Whoever signed a message in the log or the new one signed one in the log with the new one.
proof fn lemma_signed_logged(
    world: World,
    message: ParsedView,
    kind: PbftMessageType,
    view: u64,
    seq_num: u64,
    block_id: Seq<u8>,
    nodes: Set<Seq<u8>>,
    required: int,
)
    requires
        message.info().view == world.state.view,
        signed_by_all(
            world.log.messages.push(message),
            kind,
            view,
            seq_num,
            block_id,
            nodes,
            required,
        ),
    ensures
        signed_by_all(
            world.logged(message).0.log.messages,
            kind,
            view,
            seq_num,
            block_id,
            nodes,
            required,
        ),
{
    let all = world.log.messages.push(message);
    let logged = world.logged(message).0.log.messages;
    if world.log.holds(message.message) {
        let held = choose|i: int|
            0 <= i < world.log.messages.len() && (#[trigger] world.log.messages[i]).message
                == message.message;
        assert forall|id: Seq<u8>| #[trigger] nodes.contains(id) implies signed_by(
            logged,
            kind,
            view,
            seq_num,
            block_id,
            id,
        ) by {
            assert(signed_by(all, kind, view, seq_num, block_id, id));
            let i = choose|i: int|
                0 <= i < all.len() && is_for(#[trigger] all[i], kind, view, seq_num, block_id)
                    && all[i].info().signer_id == id;
            if i < logged.len() {
                assert(logged[i] == all[i]);
            } else {
                assert(is_for(logged[held], kind, view, seq_num, block_id));
            }
        }
    }
}

/// A message for another view than the node's, other than a `ViewChange`, is refused, and changes
/// nothing. (A `PrePrepare` comes into the log only from the primary.)
pub proof fn law_other_view_refused(world: World, message: ParsedView)
    requires
        world.state.peer_ids.contains(message.info().signer_id),
        world.state.mode is Normal,
        message.info().msg_type == PbftMessageType::Prepare || message.info().msg_type
            == PbftMessageType::Commit || (message.info().msg_type == PbftMessageType::PrePrepare
            && message.info().signer_id == in_turn(world.state, world.state.view)
            && !other_proposed(world.log.messages, message)) || (message.info().msg_type
            == PbftMessageType::SealRequest && message.info().seq_num + 1 != world.state.seq_num),
        message.info().view != world.state.view,
    ensures
        message_received(world, message) == (
            world,
            Err::<(), PbftError>(PbftError::InvalidMessage(MessageDefect::WrongView)),
        ),
{
    lemma_conflict(world.log, message);
}

/// While a node is changing its view, it ignores every message that neither votes for a view nor
/// opens one.
pub proof fn law_changing_node_ignores_others(world: World, message: ParsedView)
    requires
        world.state.mode is ViewChanging,
        world.state.peer_ids.contains(message.info().signer_id),
        message.info().msg_type != PbftMessageType::ViewChange,
        message.info().msg_type != PbftMessageType::NewView,
    ensures
        message_received(world, message) == (world, Ok::<(), PbftError>(())),
{
}

/// A message of no known kind is ignored.
pub proof fn law_message_without_kind_ignored(world: World, message: ParsedView)
    requires
        world.state.peer_ids.contains(message.info().signer_id),
        message.info().msg_type == PbftMessageType::Unset,
    ensures
        message_received(world, message) == (world, Ok::<(), PbftError>(())),
{
}

/// A `Prepare`, a `Commit`, or a request for the seal of a block that is not the last one, that is
/// for the node's view goes into the log, as it came.
pub proof fn law_message_is_logged(world: World, message: ParsedView)
    requires
        world.state.peer_ids.contains(message.info().signer_id),
        world.state.mode is Normal,
        message.info().msg_type == PbftMessageType::Prepare || message.info().msg_type
            == PbftMessageType::Commit || (message.info().msg_type == PbftMessageType::SealRequest
            && message.info().seq_num + 1 != world.state.seq_num),
        message.info().view == world.state.view,
    ensures
        among(message_received(world, message).0.log.messages, message),
        !among(world.log.messages, message) ==> message_received(
            world,
            message,
        ).0.log.messages.contains(message),
        message.info().msg_type == PbftMessageType::SealRequest ==> message_received(
            world,
            message,
        ).1 == Ok::<(), PbftError>(()) && message_received(world, message).0.state == world.state
            && message_received(world, message).0.exchange == world.exchange,
{
    lemma_logged(world, message);
    let logged = world.logged(message).0;
    let committing = World { state: logged.state.in_phase(PhaseView::Committing), ..logged };
    lemma_commit_sent_continues(committing, message.block_id());
    let after = message_received(world, message).0;
    let i = choose|i: int|
        0 <= i < logged.log.messages.len() && (#[trigger] logged.log.messages[i]).message
            == message.message;
    assert(after.log.messages[i] == logged.log.messages[i]);
    if !among(world.log.messages, message) {
        let last = world.log.messages.len() as int;
        assert(after.log.messages[last] == logged.log.messages[last]);
    }
}

// ---------- Commits ----------

proof fn lemma_agreed(
    world: World,
    kind: PbftMessageType,
    message: ParsedView,
    nodes: Set<Seq<u8>>,
)
    requires
        message.info().view == world.state.view,
        first_proposal(
            world.log.messages,
            message.info().view,
            message.info().seq_num,
            message.block_id(),
        ),
        signed_by_all(
            world.log.messages.push(message),
            kind,
            message.info().view,
            message.info().seq_num,
            message.block_id(),
            nodes,
            2 * world.state.f + 1,
        ),
    ensures
        agreed(world.logged(message).0, kind, message),
{
    let view = message.info().view;
    let seq_num = message.info().seq_num;
    let block_id = message.block_id();
    let at = choose|at: int| #[trigger]
        first_proposal_at(world.log.messages, at, view, seq_num, block_id);
    let logged = world.logged(message).0;
    lemma_first_proposal_stays(world.log.messages, message, at, view, seq_num, block_id);
    assert(first_proposal_at(logged.log.messages, at, view, seq_num, block_id));
    lemma_first_proposal(logged.log, message, at, block_id);
    lemma_signed_logged(
        world,
        message,
        kind,
        view,
        seq_num,
        block_id,
        nodes,
        2 * world.state.f + 1,
    );
    lemma_signers_counted(
        logged.log.messages,
        kind,
        logged.log.messages[at],
        nodes,
        2 * world.state.f + 1,
    );
}

/// A `Commit` from a known peer, for the view and the block that the node works on, decides: if the
/// first `PrePrepare` for that view and sequence number is for its block, and with it the log holds
/// matching `Commit`s of at least 2f + 1 nodes, the node asks for that block to be committed. If the
/// validator does so, the node waits to hear of it, and its commit timeout no longer runs.
pub proof fn law_commits_decide(world: World, message: ParsedView, nodes: Set<Seq<u8>>)
    requires
        world.state.peer_ids.contains(message.info().signer_id),
        world.state.mode is Normal,
        world.state.phase is Committing,
        message.info().msg_type == PbftMessageType::Commit,
        message.info().view == world.state.view,
        message.info().seq_num == world.state.seq_num,
        first_proposal(
            world.log.messages,
            message.info().view,
            message.info().seq_num,
            message.block_id(),
        ),
        signed_by_all(
            world.log.messages.push(message),
            PbftMessageType::Commit,
            message.info().view,
            message.info().seq_num,
            message.block_id(),
            nodes,
            2 * world.state.f + 1,
        ),
    ensures
        ({
            let (after, result) = message_received(world, message);
            let replies = world.exchange.replies;
            &&& after.exchange.requests == world.exchange.requests.push(
                RequestView::CommitBlock { block_id: message.block_id() },
            )
            &&& replies.len() > 0 && replies[0] == ReplyView::Done ==> result == Ok::<
                (),
                PbftError,
            >(()) && after.state == (StateView {
                phase: PhaseView::Finishing(message.block_id(), false),
                commit_timeout: after.state.commit_timeout,
                ..world.state
            }) && after.state.commit_timeout.state == TimeoutState::Inactive
                && after.state.commit_timeout.duration == world.state.commit_timeout.duration
            &&& replies.len() > 0 && replies[0] == ReplyView::Failed ==> after.state == world.state
                && result == Err::<(), PbftError>(PbftError::ServiceError(ServiceCall::CommitBlock))
            &&& replies.len() == 0 ==> result == Err::<(), PbftError>(
                PbftError::Halted(Halt::AwaitingReply),
            )
        }),
{
    lemma_agreed(world, PbftMessageType::Commit, message, nodes);
}

/// A `Prepare` from a known peer, for the view and the block that the node works on, decides: if the
/// first `PrePrepare` for that view and sequence number is for its block, and with it the log holds
/// matching `Prepare`s of at least 2f + 1 nodes, the node goes on to commit that block, and
/// broadcasts its own `Commit` for it.
pub proof fn law_prepares_decide(world: World, message: ParsedView, nodes: Set<Seq<u8>>)
    requires
        world.state.peer_ids.contains(message.info().signer_id),
        world.state.mode is Normal,
        world.state.phase is Preparing,
        message.info().msg_type == PbftMessageType::Prepare,
        message.info().view == world.state.view,
        message.info().seq_num == world.state.seq_num,
        first_proposal(
            world.log.messages,
            message.info().view,
            message.info().seq_num,
            message.block_id(),
        ),
        signed_by_all(
            world.log.messages.push(message),
            PbftMessageType::Prepare,
            message.info().view,
            message.info().seq_num,
            message.block_id(),
            nodes,
            2 * world.state.f + 1,
        ),
    ensures
        ({
            let (after, result) = message_received(world, message);
            let before = world.exchange.requests;
            &&& after.state.phase is Committing || after.state.phase == PhaseView::Finishing(
                message.block_id(),
                false,
            )
            &&& after.exchange.requests.len() > before.len()
            &&& after.exchange.requests[before.len() as int] == broadcast_of(
                world.state.id,
                PbftMessageType::Commit,
                world.state.view,
                world.state.seq_num,
                message.block_id(),
            )
            &&& !world.self_sending ==> result == Ok::<(), PbftError>(()) && after.state == (
            StateView { phase: PhaseView::Committing, ..world.state })
                && after.exchange.requests.len() == before.len() + 1
            &&& world.self_sending && world.state.peer_ids.contains(world.state.id) ==> signed_by(
                after.log.messages,
                PbftMessageType::Commit,
                world.state.view,
                world.state.seq_num,
                message.block_id(),
                world.state.id,
            )
        }),
{
    lemma_agreed(world, PbftMessageType::Prepare, message, nodes);
    lemma_logged(world, message);
    let logged = world.logged(message).0;
    let committing = World { state: logged.state.in_phase(PhaseView::Committing), ..logged };
    lemma_commit_broadcast(committing, message.block_id());
}

/// Broadcasting a `Commit`, as it shows in requests and log.
proof fn lemma_commit_broadcast(world: World, block_id: Seq<u8>)
    ensures
        ({
            let (after, result) = commit_sent(world, block_id);
            let before = world.exchange.requests;
            &&& after.exchange.requests.len() > before.len()
            &&& after.exchange.requests[before.len() as int] == broadcast_of(
                world.state.id,
                PbftMessageType::Commit,
                world.state.view,
                world.state.seq_num,
                block_id,
            )
            &&& after.state.phase == world.state.phase || after.state.phase
                == PhaseView::Finishing(block_id, false)
            &&& !world.self_sending ==> result == Ok::<(), PbftError>(()) && after.state
                == world.state && after.exchange.requests.len() == before.len() + 1
            &&& world.self_sending && world.state.mode is Normal && world.state.peer_ids.contains(
                world.state.id,
            ) ==> signed_by(
                after.log.messages,
                PbftMessageType::Commit,
                world.state.view,
                world.state.seq_num,
                block_id,
                world.state.id,
            )
        }),
{
    let message = own_message(
        world.state,
        PbftMessageType::Commit,
        world.state.view,
        world.state.seq_num,
        block_id,
    );
    let announced = world.announced(message);
    lemma_logged(announced, message);
    let logged = announced.logged(message).0;
    let i = choose|i: int|
        0 <= i < logged.log.messages.len() && (#[trigger] logged.log.messages[i]).message
            == message.message;
    let after = commit_sent(world, block_id).0;
    if world.self_sending && world.state.mode is Normal && world.state.peer_ids.contains(
        world.state.id,
    ) {
        assert(after.log.messages == logged.log.messages);
        assert(is_for(
            after.log.messages[i],
            PbftMessageType::Commit,
            world.state.view,
            world.state.seq_num,
            block_id,
        ));
    }
}

/// Whether the network agrees on a block at a view and a sequence number: the first `PrePrepare` for
/// them is for the block, and at least 2f + 1 nodes signed messages of the given kind that match it.
pub open spec fn network_agrees(
    messages: Seq<ParsedView>,
    kind: PbftMessageType,
    view: u64,
    seq_num: u64,
    block_id: Seq<u8>,
    f: u64,
) -> bool {
    &&& first_proposal(messages, view, seq_num, block_id)
    &&& exists|nodes: Set<Seq<u8>>| #[trigger]
        signed_by_all(messages, kind, view, seq_num, block_id, nodes, 2 * f + 1)
}

proof fn lemma_agreement_shown(world: World, kind: PbftMessageType, message: ParsedView)
    requires
        agreed(world, kind, message),
    ensures
        network_agrees(
            world.log.messages,
            kind,
            message.info().view,
            message.info().seq_num,
            message.block_id(),
            world.state.f,
        ),
{
    lemma_found_proposal(world.log, message);
    let pre_prepare = world.log.first_msg(message.info(), PbftMessageType::PrePrepare)->0;
    let at = choose|at: int| #[trigger]
        first_proposal_at(
            world.log.messages,
            at,
            message.info().view,
            message.info().seq_num,
            pre_prepare.block_id(),
        );
    lemma_first_proposal(world.log, message, at, pre_prepare.block_id());
    lemma_counted_signers(world.log.messages, kind, pre_prepare, 2 * world.state.f + 1);
}

/// A `Commit` changes more than the log only if the node is committing, the `Commit` is for the view
/// and the sequence number that the node is at, and with it the log shows that the network agrees on
/// its block by `Commit`s.
pub proof fn law_commit_acts_on_agreement(world: World, message: ParsedView)
    requires
        message.info().msg_type == PbftMessageType::Commit,
        message_received(world, message).0.state != world.state || message_received(
            world,
            message,
        ).0.exchange != world.exchange,
    ensures
        world.state.mode is Normal,
        world.state.phase is Committing,
        message.info().view == world.state.view,
        message.info().seq_num == world.state.seq_num,
        network_agrees(
            message_received(world, message).0.log.messages,
            PbftMessageType::Commit,
            world.state.view,
            world.state.seq_num,
            message.block_id(),
            world.state.f,
        ),
{
    let logged = world.logged(message).0;
    lemma_agreement_shown(logged, PbftMessageType::Commit, message);
}

/// A `Prepare` changes more than the log only if the node is preparing, the `Prepare` is for the view
/// and the sequence number that the node is at, and with it the log shows that the network agrees on
/// its block by `Prepare`s.
pub proof fn law_prepare_acts_on_agreement(world: World, message: ParsedView)
    requires
        message.info().msg_type == PbftMessageType::Prepare,
        message_received(world, message).0.state != world.state || message_received(
            world,
            message,
        ).0.exchange != world.exchange,
    ensures
        world.state.mode is Normal,
        world.state.phase is Preparing,
        message.info().view == world.state.view,
        message.info().seq_num == world.state.seq_num,
        network_agrees(
            world.logged(message).0.log.messages,
            PbftMessageType::Prepare,
            world.state.view,
            world.state.seq_num,
            message.block_id(),
            world.state.f,
        ),
        among(world.logged(message).0.log.messages, message),
        forall|i: int|
            0 <= i < world.logged(message).0.log.messages.len() ==> (
            #[trigger] world.logged(message).0.log.messages[i] == message || (i
                < world.log.messages.len() && world.logged(message).0.log.messages[i]
                == world.log.messages[i])),
{
    let logged = world.logged(message).0;
    lemma_agreement_shown(logged, PbftMessageType::Prepare, message);
    lemma_logged(world, message);
}

/// Whether the log shows at some view that the network agrees by `Commit`s on a block at the
/// sequence number that the node works on.
pub open spec fn committed_by_network(world: World, block_id: Seq<u8>) -> bool {
    exists|view: u64, nodes: Set<Seq<u8>>|
        proposed(world.log.messages, view, world.state.seq_num, block_id)
            && #[trigger] signed_by_all(
            world.log.messages,
            PbftMessageType::Commit,
            view,
            world.state.seq_num,
            block_id,
            nodes,
            2 * world.state.f + 1,
        )
}

proof fn lemma_quorum_shown(world: World, block_id: Seq<u8>)
    requires
        quorum(world, PbftMessageType::Commit, block_id),
    ensures
        committed_by_network(world, block_id),
{
    let i = choose|i: int|
        {
            &&& 0 <= i < world.log.messages.len()
            &&& (#[trigger] world.log.messages[i]).msg_type() == PbftMessageType::PrePrepare
            &&& world.log.messages[i].info().seq_num == world.state.seq_num
            &&& world.log.messages[i].block_id() == block_id
            &&& world.log.has_required(
                PbftMessageType::Commit,
                world.log.messages[i],
                true,
                2 * world.state.f + 1,
            )
        };
    let reference = world.log.messages[i];
    lemma_counted_signers(
        world.log.messages,
        PbftMessageType::Commit,
        reference,
        2 * world.state.f + 1,
    );
    assert(is_for(
        world.log.messages[i],
        PbftMessageType::PrePrepare,
        reference.info().view,
        world.state.seq_num,
        block_id,
    ));
    assert(proposed(world.log.messages, reference.info().view, world.state.seq_num, block_id));
}

/// A message that is no `SealResponse` makes the node ask for a block to be committed only if the
/// log then holds, for some view, a `PrePrepare` for that block at the sequence number that the node
/// works on, and matching `Commit`s of at least 2f + 1 nodes.
pub proof fn law_message_commits_on_agreement(
    world: World,
    message: ParsedView,
    block_id: Seq<u8>,
)
    requires
        message.message.consistent(),
        message.info().msg_type != PbftMessageType::SealResponse,
        commit_requested(world.exchange, message_received(world, message).0.exchange, block_id),
    ensures
        block_id == message.block_id(),
        committed_by_network(message_received(world, message).0, block_id),
{
    law_commit_needs_quorum_or_seal(world, message, block_id);
    lemma_quorum_shown(message_received(world, message).0, block_id);
}

/// A new block at the sequence number that the node works on makes it ask for a block to be
/// committed only if it is that block, and the log then holds, for some view, a `PrePrepare` for it
/// and matching `Commit`s of at least 2f + 1 nodes; or else a valid seal for the committed block is
/// in the new block, which follows it.
pub proof fn law_block_commits_on_agreement(world: World, block: BlockView, block_id: Seq<u8>)
    requires
        commit_requested(world.exchange, block_received(world, block).0.exchange, block_id),
    ensures
        ({
            ||| block_id == block.block_id && committed_by_network(
                block_received(world, block).0,
                block_id,
            )
            ||| block_seal_checked(
                world.exchange,
                world.log,
                world.state,
                block,
            ).1 matches Ok(seal) && seal.block_id == block_id
        }),
{
    law_block_commits_with_quorum_or_seal(world, block, block_id);
    if quorum(block_received(world, block).0, PbftMessageType::Commit, block_id) {
        lemma_quorum_shown(block_received(world, block).0, block_id);
    }
}

// ---------- Proposals ----------

proof fn lemma_conflict(log: LogView, message: ParsedView)
    ensures
        conflicting_pre_prepare(log, message) == other_proposed(log.messages, message),
{
    let pred = of_type_seq_view(
        PbftMessageType::PrePrepare,
        message.info().seq_num,
        message.info().view,
    );
    if conflicting_pre_prepare(log, message) {
        let i = choose|i: int|
            0 <= i < log.messages.len() && pred(#[trigger] log.messages[i])
                && log.messages[i].block_id() != message.block_id();
        assert(log.messages[i].info().msg_type == PbftMessageType::PrePrepare);
    }
    if other_proposed(log.messages, message) {
        let i = choose|i: int|
            0 <= i < log.messages.len() && (#[trigger] log.messages[i]).info().msg_type
                == PbftMessageType::PrePrepare && log.messages[i].info().view
                == message.info().view && log.messages[i].info().seq_num
                == message.info().seq_num && log.messages[i].block_id() != message.block_id();
        assert(pred(log.messages[i]));
    }
}

/// Going on to prepare a block never finds the primary faulty, and leaves view and mode.
pub proof fn lemma_preparing_result(world: World, block_id: Seq<u8>)
    ensures
        !(preparing_tried(world, block_id).1 matches Err(PbftError::FaultyPrimary(_))),
        preparing_tried(world, block_id).0.state.mode == world.state.mode,
        preparing_tried(world, block_id).0.state.view == world.state.view,
        !world.self_sending ==> preparing_tried(world, block_id).1 == Ok::<(), PbftError>(()),
{
    let preparing = preparing_world(world);
    let prepare = own_message(
        preparing.state,
        PbftMessageType::Prepare,
        preparing.state.view,
        preparing.state.seq_num,
        block_id,
    );
    let announced = preparing.announced(prepare);
    lemma_prepare_result(announced, prepare);
}

proof fn lemma_commit_result(world: World, message: ParsedView)
    ensures
        !(commit_handled(world, message).1 matches Err(PbftError::FaultyPrimary(_))),
        commit_handled(world, message).0.state.mode == world.state.mode,
        commit_handled(world, message).0.state.view == world.state.view,
{
}

proof fn lemma_prepare_result(world: World, message: ParsedView)
    ensures
        !(prepare_handled(world, message).1 matches Err(PbftError::FaultyPrimary(_))),
        prepare_handled(world, message).0.state.mode == world.state.mode,
        prepare_handled(world, message).0.state.view == world.state.view,
{
    let logged = world.logged(message).0;
    let committing = World { state: logged.state.in_phase(PhaseView::Committing), ..logged };
    let commit = own_message(
        committing.state,
        PbftMessageType::Commit,
        committing.state.view,
        committing.state.seq_num,
        message.block_id(),
    );
    lemma_commit_result(committing.announced(commit), commit);
}

/// A `PrePrepare` for the node's view from the node whose turn it is to be primary goes into the
/// log, and the node neither changes its view nor finds the primary faulty, unless the log holds a
/// `PrePrepare` for another block with the same view and the same sequence number. What was proposed
/// in other views makes no difference.
pub proof fn law_proposal_accepted(world: World, message: ParsedView)
    requires
        world.state.peer_ids.contains(message.info().signer_id),
        world.state.mode is Normal,
        message.info().msg_type == PbftMessageType::PrePrepare,
        message.info().signer_id == in_turn(world.state, world.state.view),
        message.info().view == world.state.view,
        forall|i: int|
            0 <= i < world.log.messages.len() && (
            #[trigger] world.log.messages[i]).info().msg_type == PbftMessageType::PrePrepare
                && world.log.messages[i].info().view == message.info().view
                && world.log.messages[i].info().seq_num == message.info().seq_num
                ==> world.log.messages[i].block_id() == message.block_id(),
    ensures
        among(message_received(world, message).0.log.messages, message),
        !among(world.log.messages, message) ==> message_received(
            world,
            message,
        ).0.log.messages.contains(message),
        message_received(world, message).0.state.mode is Normal,
        message_received(world, message).0.state.view == world.state.view,
        !(message_received(world, message).1 matches Err(PbftError::FaultyPrimary(_))),
        !world.self_sending ==> message_received(world, message).1 == Ok::<(), PbftError>(()),
{
    lemma_conflict(world.log, message);
    lemma_logged(world, message);
    let logged = world.logged(message).0;
    lemma_preparing_result(logged, message.block_id());
    lemma_preparing_continues(logged, message.block_id());
    let after = message_received(world, message).0;
    let i = choose|i: int|
        0 <= i < logged.log.messages.len() && (#[trigger] logged.log.messages[i]).message
            == message.message;
    assert(after.log.messages[i] == logged.log.messages[i]);
    if !among(world.log.messages, message) {
        let last = world.log.messages.len() as int;
        assert(after.log.messages[last] == logged.log.messages[last]);
    }
}

/// A `PrePrepare` makes the node find the primary faulty, or leave the normal mode or the view, only
/// if the log holds a `PrePrepare` for another block with the same view and the same sequence
/// number, and the message is from the node whose turn it is to be primary.
pub proof fn law_only_two_proposals_are_faulty(world: World, message: ParsedView)
    requires
        world.state.mode is Normal,
        message.info().msg_type == PbftMessageType::PrePrepare,
        ({
            ||| message_received(world, message).1 matches Err(PbftError::FaultyPrimary(_))
            ||| !(message_received(world, message).0.state.mode is Normal)
            ||| message_received(world, message).0.state.view != world.state.view
        }),
    ensures
        message.info().signer_id == in_turn(world.state, world.state.view),
        exists|i: int|
            0 <= i < world.log.messages.len() && (
            #[trigger] world.log.messages[i]).info().msg_type == PbftMessageType::PrePrepare
                && world.log.messages[i].info().view == message.info().view
                && world.log.messages[i].info().seq_num == message.info().seq_num
                && world.log.messages[i].block_id() != message.block_id(),
{
    lemma_conflict(world.log, message);
    lemma_preparing_result(world.logged(message).0, message.block_id());
}

/// Two `PrePrepare`s for different blocks with one view and one sequence number, the second from the
/// node whose turn it is to be primary, make the node find the primary faulty: it votes for the next
/// view, and does not take the second into its log.
pub proof fn law_two_proposals_are_faulty(world: World, message: ParsedView)
    requires
        world.wf(),
        world.state.peer_ids.contains(message.info().signer_id),
        world.state.mode is Normal,
        world.state.view < u64::MAX,
        message.info().msg_type == PbftMessageType::PrePrepare,
        message.info().signer_id == in_turn(world.state, world.state.view),
        other_proposed(world.log.messages, message),
    ensures
        ({
            let (after, result) = message_received(world, message);
            let before = world.exchange.requests;
            &&& result is Err
            &&& after.exchange.requests.len() > before.len()
            &&& after.exchange.requests[before.len() as int] == broadcast_of(
                world.state.id,
                PbftMessageType::ViewChange,
                (world.state.view + 1) as u64,
                (world.state.seq_num - 1) as u64,
                Seq::empty(),
            )
            &&& !world.self_sending ==> result == Err::<(), PbftError>(
                PbftError::FaultyPrimary(PrimaryFault::MismatchedBlocks),
            ) && after.state.mode == PbftMode::ViewChanging((world.state.view + 1) as u64)
                && after.log == world.log && after.exchange.requests.len() == before.len() + 1
        }),
{
    lemma_conflict(world.log, message);
    let next = (world.state.view + 1) as u64;
    assert(world.state.view_change_duration * 1 == world.state.view_change_duration);
    let duration = scaled_duration(world.state.view_change_duration, 1)->0;
    let voted = voted_world(world, next, duration);
    lemma_view_change_continues(voted, view_change_message(world.state, next));
}

// ---------- Preparing ----------

proof fn lemma_can_prepare(world: World, block_id: Seq<u8>)
    ensures
        can_prepare(world, block_id) == {
            &&& world.state.phase is PrePreparing
            &&& block_at_number(world.log.blocks, block_id, world.state.seq_num)
            &&& proposed(world.log.messages, world.state.view, world.state.seq_num, block_id)
        },
{
    let at = lemma_found_block(world.log, block_id);
    if block_at_number(world.log.blocks, block_id, world.state.seq_num) {
        let place = choose|place: int| #[trigger]
            first_block_at(world.log.blocks, place, block_id) && world.log.blocks[place].block_num
                == world.state.seq_num;
        lemma_first_block(world.log, place, block_id);
    }
    let pred = of_type_seq_view(
        PbftMessageType::PrePrepare,
        world.state.seq_num,
        world.state.view,
    );
    if proposed(world.log.messages, world.state.view, world.state.seq_num, block_id) {
        let i = choose|i: int|
            0 <= i < world.log.messages.len() && is_for(
                #[trigger] world.log.messages[i],
                PbftMessageType::PrePrepare,
                world.state.view,
                world.state.seq_num,
                block_id,
            );
        assert(pred(world.log.messages[i]));
        assert(world.log.has_pre_prepare(world.state, block_id));
    }
    if world.log.has_pre_prepare(world.state, block_id) {
        let i = choose|i: int|
            0 <= i < world.log.messages.len() && pred(#[trigger] world.log.messages[i])
                && world.log.messages[i].block_id() == block_id;
        assert(is_for(
            world.log.messages[i],
            PbftMessageType::PrePrepare,
            world.state.view,
            world.state.seq_num,
            block_id,
        ));
    }
}

/// Whether the node, which waited for a block, went on to prepare the given one: it broadcast its
/// `Prepare`, no longer waits for the primary, and waits for the block to be committed.
pub open spec fn goes_on_to_prepare(before: World, after: World, block_id: Seq<u8>) -> bool {
    let requests = before.exchange.requests;
    &&& !(after.state.phase is PrePreparing)
    &&& after.state.faulty_primary_timeout.state == TimeoutState::Inactive
    &&& after.exchange.requests.len() > requests.len()
    &&& after.exchange.requests[requests.len() as int] == broadcast_of(
        before.state.id,
        PbftMessageType::Prepare,
        before.state.view,
        before.state.seq_num,
        block_id,
    )
    &&& !before.self_sending ==> {
        &&& after.state.phase is Preparing
        &&& after.state.commit_timeout.state == TimeoutState::Active
        &&& after.state.commit_timeout.started == before.state.now
        &&& after.state.commit_timeout.duration == before.state.commit_timeout.duration
        &&& after.exchange.requests.len() == requests.len() + 1
    }
    &&& before.self_sending && before.state.mode is Normal && before.state.peer_ids.contains(
        before.state.id,
    ) ==> signed_by(
        after.log.messages,
        PbftMessageType::Prepare,
        before.state.view,
        before.state.seq_num,
        block_id,
        before.state.id,
    )
}

proof fn lemma_prepare_sent(world: World, block_id: Seq<u8>)
    requires
        world.state.phase is Preparing,
        world.state.faulty_primary_timeout.state == TimeoutState::Inactive,
    ensures
        ({
            let after = prepare_sent(world, block_id).0;
            let requests = world.exchange.requests;
            &&& !(after.state.phase is PrePreparing)
            &&& after.state.faulty_primary_timeout.state == TimeoutState::Inactive
            &&& after.exchange.requests.len() > requests.len()
            &&& after.exchange.requests[requests.len() as int] == broadcast_of(
                world.state.id,
                PbftMessageType::Prepare,
                world.state.view,
                world.state.seq_num,
                block_id,
            )
            &&& !world.self_sending ==> after.state == world.state && after.exchange.requests.len()
                == requests.len() + 1
            &&& world.self_sending && world.state.mode is Normal && world.state.peer_ids.contains(
                world.state.id,
            ) ==> signed_by(
                after.log.messages,
                PbftMessageType::Prepare,
                world.state.view,
                world.state.seq_num,
                block_id,
                world.state.id,
            )
        }),
{
    let message = own_message(
        world.state,
        PbftMessageType::Prepare,
        world.state.view,
        world.state.seq_num,
        block_id,
    );
    let announced = world.announced(message);
    lemma_logged(announced, message);
    let logged = announced.logged(message).0;
    let committing = World { state: logged.state.in_phase(PhaseView::Committing), ..logged };
    lemma_commit_broadcast(committing, block_id);
    lemma_commit_sent_continues(committing, block_id);
    lemma_prepare_sent_continues(world, block_id);
    let commit = own_message(
        committing.state,
        PbftMessageType::Commit,
        committing.state.view,
        committing.state.seq_num,
        block_id,
    );
    let after = prepare_sent(world, block_id).0;
    assert(after.exchange.requests[world.exchange.requests.len() as int]
        == announced.exchange.requests[world.exchange.requests.len() as int]);
    let i = choose|i: int|
        0 <= i < logged.log.messages.len() && (#[trigger] logged.log.messages[i]).message
            == message.message;
    if world.self_sending && world.state.mode is Normal && world.state.peer_ids.contains(
        world.state.id,
    ) {
        assert(after.log.messages[i] == logged.log.messages[i]);
        assert(is_for(
            after.log.messages[i],
            PbftMessageType::Prepare,
            world.state.view,
            world.state.seq_num,
            block_id,
        ));
    }
}

/// What trying to prepare a block comes to, told by blocks and messages.
pub proof fn lemma_preparing_tried(world: World, block_id: Seq<u8>)
    ensures
        world.state.phase is PrePreparing && block_at_number(
            world.log.blocks,
            block_id,
            world.state.seq_num,
        ) && proposed(world.log.messages, world.state.view, world.state.seq_num, block_id)
            ==> goes_on_to_prepare(world, preparing_tried(world, block_id).0, block_id),
        !(world.state.phase is PrePreparing && block_at_number(
            world.log.blocks,
            block_id,
            world.state.seq_num,
        ) && proposed(world.log.messages, world.state.view, world.state.seq_num, block_id))
            ==> preparing_tried(world, block_id) == (world, Ok::<(), PbftError>(())),
{
    lemma_can_prepare(world, block_id);
    lemma_prepare_sent(preparing_world(world), block_id);
}

/// A node that waits for a block goes on to prepare the one that the primary proposes for the
/// sequence number that it works on, if it has the block and its number is that sequence number.
pub proof fn law_proposed_block_is_prepared(world: World, message: ParsedView)
    requires
        world.state.peer_ids.contains(message.info().signer_id),
        world.state.mode is Normal,
        world.state.phase is PrePreparing,
        message.info().msg_type == PbftMessageType::PrePrepare,
        message.info().signer_id == in_turn(world.state, world.state.view),
        message.info().view == world.state.view,
        message.info().seq_num == world.state.seq_num,
        !other_proposed(world.log.messages, message),
        block_at_number(world.log.blocks, message.block_id(), world.state.seq_num),
    ensures
        goes_on_to_prepare(world, message_received(world, message).0, message.block_id()),
{
    lemma_conflict(world.log, message);
    lemma_logged(world, message);
    let logged = world.logged(message).0;
    let i = choose|i: int|
        0 <= i < logged.log.messages.len() && (#[trigger] logged.log.messages[i]).message
            == message.message;
    assert(is_for(
        logged.log.messages[i],
        PbftMessageType::PrePrepare,
        world.state.view,
        world.state.seq_num,
        message.block_id(),
    ));
    lemma_preparing_tried(logged, message.block_id());
}

/// A `PrePrepare` after which the node is still in the normal mode of its view changes more than the
/// log only if the node waited for a block, has the proposed one, its number is the sequence number
/// that the node works on, and the log then holds a `PrePrepare` for it at that view and number.
pub proof fn law_only_proposed_block_is_prepared(world: World, message: ParsedView)
    requires
        world.state.mode is Normal,
        message.info().msg_type == PbftMessageType::PrePrepare,
        !other_proposed(world.log.messages, message),
        message_received(world, message).0.state != world.state || message_received(
            world,
            message,
        ).0.exchange != world.exchange,
    ensures
        world.state.phase is PrePreparing,
        message.info().signer_id == in_turn(world.state, world.state.view),
        message.info().view == world.state.view,
        block_at_number(world.log.blocks, message.block_id(), world.state.seq_num),
        proposed(
            message_received(world, message).0.log.messages,
            world.state.view,
            world.state.seq_num,
            message.block_id(),
        ),
{
    lemma_conflict(world.log, message);
    lemma_logged_or_refused(world, message);
    let logged = world.logged(message).0;
    lemma_preparing_tried(logged, message.block_id());
    lemma_preparing_continues(logged, message.block_id());
    let after = message_received(world, message).0;
    let i = choose|i: int|
        0 <= i < logged.log.messages.len() && is_for(
            #[trigger] logged.log.messages[i],
            PbftMessageType::PrePrepare,
            world.state.view,
            world.state.seq_num,
            message.block_id(),
        );
    assert(after.log.messages[i] == logged.log.messages[i]);
}

proof fn lemma_logged_or_refused(world: World, message: ParsedView)
    requires
        message.info().msg_type == PbftMessageType::PrePrepare,
    ensures
        world.logged(message).1 is Ok <==> message.info().view == world.state.view,
        world.logged(message).0.state == world.state,
        world.logged(message).0.exchange == world.exchange,
        world.logged(message).0.log.blocks == world.log.blocks,
{
}

} // verus!
