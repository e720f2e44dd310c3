//! What holds of the node as a whole.

use vstd::prelude::*;

use crate::block::BlockView;
use crate::error::{MessageDefect, PbftError, SealFault, ServiceCall, VerifyError};
use crate::frame::{
    continued, extends, goes_on, lemma_all_logged_continues, lemma_block_seal_goes_on,
    lemma_catchup_continues, lemma_commit_continues, lemma_message_handled_continues,
    lemma_message_sent_continues, lemma_new_view_continues, lemma_prepare_continues,
    lemma_preparing_continues, lemma_view_change_continues, lemma_view_change_started_continues,
    view_change_joined,
};
use crate::message::{ContentView, ParsedView};
use crate::message_log::{
    lemma_filter_positions, lemma_filter_step, matching, of_type_seq, of_type_seq_view, signers,
    with_num, LogView,
};
use crate::message_type::PbftMessageType;
use crate::model::{
    advanced, agreed, already_changing, block_accepted, block_committed, block_received,
    block_seal_checked, built_seal, caught_up, changed_state, commit_handled, commit_sent, ids_of,
    joins_view_change, message_received, new_view_checked, new_view_handled, new_view_message,
    next_block_begun, other_than, own_message, pre_prepare_handled, prepare_handled, prepare_sent,
    preparing_each_tried, preparing_tried, preparing_world, publishing_tried, seal_checked,
    seal_defect, seal_of_block, seal_requesters, seal_responses_sent, stale_view_change,
    uncommitted, view_change_handled, view_change_message, view_change_started, view_updated,
    vote_messages, voted_world, votes_checked, CriteriaView, World,
};
use crate::proto::InfoView;
use crate::service::{Exchange, RequestView};
use crate::state::{PbftMode, PhaseView, StateView};
use crate::timing::scaled_duration;
use crate::vote::{SealResponseView, SealView, VoteView};

verus! {

// ---------- Who is heard ----------

/// A message from a node that is not a known peer is refused, and changes nothing.
pub proof fn law_unknown_peer_refused(world: World, message: ParsedView)
    requires
        !world.state.peer_ids.contains(message.info().signer_id),
    ensures
        message_received(world, message) == (
            world,
            Err::<(), PbftError>(PbftError::InvalidMessage(MessageDefect::UnknownPeer)),
        ),
{
}

/// While the node is changing its view, a message from a known peer that is neither a `ViewChange`
/// nor a `NewView` is ignored.
pub proof fn law_view_changing_ignores(world: World, message: ParsedView)
    requires
        world.state.view_changing(),
        world.state.peer_ids.contains(message.info().signer_id),
        message.msg_type() != PbftMessageType::ViewChange,
        message.msg_type() != PbftMessageType::NewView,
    ensures
        message_received(world, message) == (world, Ok::<(), PbftError>(())),
{
}

/// A `PrePrepare` from a node that is not the primary is ignored.
pub proof fn law_only_the_primary_proposes(world: World, message: ParsedView)
    requires
        world.state.peer_ids.contains(message.info().signer_id),
        message.msg_type() == PbftMessageType::PrePrepare,
        message.info().signer_id != world.state.primary(),
    ensures
        message_received(world, message) == (world, Ok::<(), PbftError>(())),
{
}

// ---------- What stays ----------

/// Whatever message comes, requests and messages in the log are only added, the blocks in the log
/// stay, and the node goes on working on the same block in the same network.
pub proof fn law_message_continues(world: World, message: ParsedView)
    ensures
        continued(world, message_received(world, message).0),
{
    lemma_message_handled_continues(world, message);
}

/// Whatever block comes, requests and messages in the log are only added, no other block is added to
/// the log, and the node goes on working on the same block in the same network.
pub proof fn law_block_continues(world: World, block: BlockView)
    ensures
        ({
            ||| continued(world, block_received(world, block).0)
            ||| continued(
                World { log: world.log.with_block(block), ..world },
                block_received(world, block).0,
            )
        }),
{
    lemma_block_seal_goes_on(world.exchange, world.log, world.state, block);
    let (exchange, checked) = block_seal_checked(world.exchange, world.log, world.state, block);
    match checked {
        Ok(seal) => {
            lemma_block_accepted_continues(World { exchange, ..world }, block, seal);
        },
        Err(_) => {},
    }
}

proof fn lemma_block_accepted_continues(world: World, block: BlockView, seal: SealView)
    ensures
        continued(
            World { log: world.log.with_block(block), ..world },
            block_accepted(world, block, seal).0,
        ),
{
    let logged = World { log: world.log.with_block(block), ..world };
    lemma_catchup_continues(logged, seal, true);
    lemma_preparing_continues(logged, block.block_id);
    lemma_message_sent_continues(
        logged,
        own_message(
            logged.state,
            PbftMessageType::PrePrepare,
            logged.state.view,
            logged.state.seq_num,
            block.block_id,
        ),
    );
}

/// Trying to publish changes neither the log nor the state, and only adds requests.
pub proof fn law_publishing_only_asks(world: World)
    ensures
        publishing_tried(world).0.log == world.log,
        publishing_tried(world).0.state == world.state,
        goes_on(world.exchange, publishing_tried(world).0.exchange),
{
}

// ---------- The log ----------

/// A message that is in the log is not added again.
pub proof fn law_log_takes_a_message_once(log: LogView, message: ParsedView)
    ensures
        log.with_message(message).with_message(message) == log.with_message(message),
        log.with_message(message).holds(message.message),
{
    if !log.holds(message.message) {
        assert(log.with_message(message).messages[log.messages.len() as int] == message);
    }
}

/// A block that is in the log is not added again.
pub proof fn law_log_takes_a_block_once(log: LogView, block: BlockView)
    ensures
        log.with_block(block).with_block(block) == log.with_block(block),
        log.with_block(block).blocks.contains(block),
{
    if !log.blocks.contains(block) {
        assert(log.with_block(block).blocks[log.blocks.len() as int] == block);
    }
}

// ---------- When a block is committed ----------

/// Whether a request to commit a block was added.
pub open spec fn commit_requested(before: Exchange, after: Exchange, block_id: Seq<u8>) -> bool {
    exists|i: int|
        before.requests.len() <= i < after.requests.len() && #[trigger] after.requests[i]
            == (RequestView::CommitBlock { block_id })
}

/// Whether the log holds a `PrePrepare` for the given block at the current sequence number and
/// messages of the given kind from 2f + 1 different nodes that match it: same view, sequence number
/// and block.
pub open spec fn quorum(world: World, msg_type: PbftMessageType, block_id: Seq<u8>) -> bool {
    exists|i: int|
        {
            &&& 0 <= i < world.log.messages.len()
            &&& (#[trigger] world.log.messages[i]).msg_type() == PbftMessageType::PrePrepare
            &&& world.log.messages[i].info().seq_num == world.state.seq_num
            &&& world.log.messages[i].block_id() == block_id
            &&& world.log.has_required(
                msg_type,
                world.log.messages[i],
                true,
                2 * world.state.f + 1,
            )
        }
}

/// Messages that are added take nothing away from a quorum.
pub proof fn lemma_quorum_kept(
    before: World,
    after: World,
    msg_type: PbftMessageType,
    block_id: Seq<u8>,
)
    requires
        extends(before.log.messages, after.log.messages),
        before.state.f == after.state.f,
        before.state.seq_num == after.state.seq_num,
        quorum(before, msg_type, block_id),
    ensures
        quorum(after, msg_type, block_id),
{
    let old_messages = before.log.messages;
    let messages = after.log.messages;
    let i = choose|i: int|
        {
            &&& 0 <= i < old_messages.len()
            &&& (#[trigger] old_messages[i]).msg_type() == PbftMessageType::PrePrepare
            &&& old_messages[i].info().seq_num == before.state.seq_num
            &&& old_messages[i].block_id() == block_id
            &&& before.log.has_required(
                msg_type,
                old_messages[i],
                true,
                2 * before.state.f + 1,
            )
        };
    assert(messages[i] == old_messages[i]);
    let pred = matching(msg_type, messages[i], true);
    let rest = messages.skip(old_messages.len() as int);
    assert(messages =~= old_messages + rest);
    Seq::filter_distributes_over_add(old_messages, rest, pred);
    let kept = old_messages.filter(pred);
    let all = messages.filter(pred);
    assert(signers(kept).subset_of(signers(all))) by {
        let ids = kept.map_values(|m: ParsedView| m.info().signer_id);
        let all_ids = all.map_values(|m: ParsedView| m.info().signer_id);
        assert forall|id: Seq<u8>| ids.contains(id) implies all_ids.contains(id) by {
            let k = ids.index_of(id);
            assert(all_ids[k] == id);
        }
    }
    vstd::set_lib::lemma_len_subset(signers(kept), signers(all));
}

/// Whether no request to commit a block was added.
pub open spec fn no_commit(before: Exchange, after: Exchange) -> bool {
    forall|i: int|
        before.requests.len() <= i < after.requests.len() ==> !((
        #[trigger] after.requests[i]) is CommitBlock)
}

proof fn lemma_votes_no_commit(
    exchange: Exchange,
    votes: Seq<VoteView>,
    expected_type: PbftMessageType,
    criteria: CriteriaView,
)
    ensures
        goes_on(exchange, votes_checked(exchange, votes, expected_type, criteria).0),
        no_commit(exchange, votes_checked(exchange, votes, expected_type, criteria).0),
    decreases votes.len(),
{
    if votes.len() > 0 {
        lemma_votes_no_commit(exchange, votes.drop_last(), expected_type, criteria);
    }
}

proof fn lemma_seal_no_commit(
    exchange: Exchange,
    state: StateView,
    seal: SealView,
    signer_id: Seq<u8>,
)
    ensures
        goes_on(exchange, seal_checked(exchange, state, seal, signer_id).0),
        no_commit(exchange, seal_checked(exchange, state, seal, signer_id).0),
{
    lemma_votes_no_commit(
        exchange,
        seal.commit_votes,
        PbftMessageType::Commit,
        CriteriaView::Block(seal.block_id),
    );
}

proof fn lemma_block_seal_no_commit(
    exchange: Exchange,
    log: LogView,
    state: StateView,
    block: BlockView,
)
    ensures
        goes_on(exchange, block_seal_checked(exchange, log, state, block).0),
        no_commit(exchange, block_seal_checked(exchange, log, state, block).0),
{
    match seal_of_block(log, block) {
        Ok(seal) => {
            lemma_seal_no_commit(exchange, state, seal, block.signer_id);
        },
        Err(_) => {},
    }
}

/// Requests that commit nothing, one after the other, commit nothing.
proof fn lemma_no_commit_steps(first: Exchange, second: Exchange, third: Exchange)
    requires
        goes_on(second, third),
        no_commit(first, second),
        no_commit(second, third),
    ensures
        no_commit(first, third),
{
    assert forall|i: int| first.requests.len() <= i < third.requests.len() implies !((
    #[trigger] third.requests[i]) is CommitBlock) by {
        if i < second.requests.len() {
            assert(third.requests[i] == second.requests[i]);
        }
    }
}

/// A request that was not made before was made after.
proof fn lemma_commit_requested_later(
    first: Exchange,
    second: Exchange,
    third: Exchange,
    block_id: Seq<u8>,
)
    requires
        goes_on(second, third),
        no_commit(first, second),
        commit_requested(first, third, block_id),
    ensures
        commit_requested(second, third, block_id),
{
    let i = choose|i: int|
        first.requests.len() <= i < third.requests.len() && #[trigger] third.requests[i]
            == (RequestView::CommitBlock { block_id });
    if i < second.requests.len() {
        assert(third.requests[i] == second.requests[i]);
    }
}

proof fn lemma_view_change_started_no_commit(world: World, view: u64)
    ensures
        no_commit(world.exchange, view_change_started(world, view).0.exchange),
    decreases u64::MAX - (if view >= world.target() { view } else { world.target() }), 2int,
{
    if !already_changing(world.state, view) && view >= world.state.view {
        match scaled_duration(world.state.view_change_duration, (view - world.state.view) as u64) {
            Some(duration) => {
                let voted = voted_world(world, view, duration);
                let message = view_change_message(world.state, view);
                lemma_view_change_no_commit(voted, message);
                lemma_view_change_continues(voted, message);
                lemma_no_commit_steps(
                    world.exchange,
                    voted.exchange,
                    view_change_handled(voted, message).0.exchange,
                );
            },
            None => {},
        }
    }
}

proof fn lemma_view_change_no_commit(world: World, message: ParsedView)
    ensures
        no_commit(world.exchange, view_change_handled(world, message).0.exchange),
    decreases u64::MAX - world.target(), 1int,
{
    let view = message.info().view;
    if !stale_view_change(world.state, view) {
        let logged = world.logged(message).0;
        if joins_view_change(logged, message) {
            lemma_view_change_started_no_commit(logged, view);
            lemma_view_change_started_continues(logged, view);
        }
        let joined = view_change_joined(logged, message).0;
        let new_view = new_view_message(joined, view);
        let announced = joined.announced(new_view);
        lemma_new_view_no_commit(announced, new_view);
        lemma_new_view_continues(announced, new_view);
        lemma_no_commit_steps(world.exchange, joined.exchange, announced.exchange);
        lemma_no_commit_steps(
            world.exchange,
            announced.exchange,
            new_view_handled(announced, new_view).0.exchange,
        );
    }
}

proof fn lemma_new_view_no_commit(world: World, message: ParsedView)
    ensures
        no_commit(world.exchange, new_view_handled(world, message).0.exchange),
    decreases u64::MAX - message.info().view, 0int,
{
    match message.message {
        ContentView::NewView(new_view) => {
            lemma_votes_no_commit(
                world.exchange,
                new_view.view_changes,
                PbftMessageType::ViewChange,
                CriteriaView::View(new_view.info.view),
            );
            let verified = World {
                exchange: new_view_checked(world.exchange, world.state, new_view).0,
                ..world
            };
            if new_view.info.view < u64::MAX && world.state.mode == PbftMode::ViewChanging(
                new_view.info.view,
            ) {
                let next_view = (new_view.info.view + 1) as u64;
                lemma_view_change_started_no_commit(verified, next_view);
                lemma_view_change_started_continues(verified, next_view);
                lemma_no_commit_steps(
                    world.exchange,
                    verified.exchange,
                    view_change_started(verified, next_view).0.exchange,
                );
            }
            let changed = World {
                state: changed_state(verified.state, new_view.info.view),
                ..verified
            };
            lemma_no_commit_steps(
                world.exchange,
                verified.exchange,
                changed.required(
                    RequestView::InitializeBlock { previous_id: None },
                    ServiceCall::InitializeAfterViewChange,
                ).0.exchange,
            );
        },
        _ => {},
    }
}

/// A `PrePrepare` that is found stands in the log.
pub proof fn lemma_first_pre_prepare(world: World, msg_type: PbftMessageType, message: ParsedView)
    requires
        message.info().seq_num == world.state.seq_num,
        agreed(world, msg_type, message),
    ensures
        quorum(world, msg_type, message.block_id()),
{
    let pred = of_type_seq_view(
        PbftMessageType::PrePrepare,
        message.info().seq_num,
        message.info().view,
    );
    let places = lemma_filter_positions(world.log.messages, pred);
    let found = world.log.messages.filter(pred);
    assert(found[0] == world.log.messages[places[0]]);
    assert(world.log.messages[places[0]].msg_type() == PbftMessageType::PrePrepare);
}

proof fn lemma_commit_handled_quorum(world: World, message: ParsedView, block_id: Seq<u8>)
    requires
        commit_requested(world.exchange, commit_handled(world, message).0.exchange, block_id),
    ensures
        block_id == message.block_id(),
        quorum(commit_handled(world, message).0, PbftMessageType::Commit, block_id),
{
    let (after, _) = commit_handled(world, message);
    let logged = world.logged(message).0;
    lemma_first_pre_prepare(logged, PbftMessageType::Commit, message);
    lemma_quorum_kept(logged, after, PbftMessageType::Commit, block_id);
}

proof fn lemma_commit_sent_quorum(world: World, own_id: Seq<u8>, block_id: Seq<u8>)
    requires
        commit_requested(world.exchange, commit_sent(world, own_id).0.exchange, block_id),
    ensures
        block_id == own_id,
        quorum(commit_sent(world, own_id).0, PbftMessageType::Commit, block_id),
{
    let message = own_message(
        world.state,
        PbftMessageType::Commit,
        world.state.view,
        world.state.seq_num,
        own_id,
    );
    let announced = world.announced(message);
    lemma_commit_continues(announced, message);
    lemma_commit_requested_later(
        world.exchange,
        announced.exchange,
        commit_sent(world, own_id).0.exchange,
        block_id,
    );
    lemma_commit_handled_quorum(announced, message, block_id);
}

proof fn lemma_prepare_handled_quorum(world: World, message: ParsedView, block_id: Seq<u8>)
    requires
        commit_requested(world.exchange, prepare_handled(world, message).0.exchange, block_id),
    ensures
        block_id == message.block_id(),
        quorum(prepare_handled(world, message).0, PbftMessageType::Commit, block_id),
{
    let logged = world.logged(message).0;
    let committing = World { state: logged.state.in_phase(PhaseView::Committing), ..logged };
    lemma_commit_sent_quorum(committing, message.block_id(), block_id);
}

proof fn lemma_prepare_sent_quorum(world: World, own_id: Seq<u8>, block_id: Seq<u8>)
    requires
        commit_requested(world.exchange, prepare_sent(world, own_id).0.exchange, block_id),
    ensures
        block_id == own_id,
        quorum(prepare_sent(world, own_id).0, PbftMessageType::Commit, block_id),
{
    let message = own_message(
        world.state,
        PbftMessageType::Prepare,
        world.state.view,
        world.state.seq_num,
        own_id,
    );
    let announced = world.announced(message);
    lemma_prepare_continues(announced, message);
    lemma_commit_requested_later(
        world.exchange,
        announced.exchange,
        prepare_sent(world, own_id).0.exchange,
        block_id,
    );
    lemma_prepare_handled_quorum(announced, message, block_id);
}

proof fn lemma_preparing_quorum(world: World, own_id: Seq<u8>, block_id: Seq<u8>)
    requires
        commit_requested(world.exchange, preparing_tried(world, own_id).0.exchange, block_id),
    ensures
        block_id == own_id,
        quorum(preparing_tried(world, own_id).0, PbftMessageType::Commit, block_id),
{
    lemma_prepare_sent_quorum(preparing_world(world), own_id, block_id);
}

proof fn lemma_pre_prepare_quorum(world: World, message: ParsedView, block_id: Seq<u8>)
    requires
        commit_requested(world.exchange, pre_prepare_handled(world, message).0.exchange, block_id),
    ensures
        block_id == message.block_id(),
        quorum(pre_prepare_handled(world, message).0, PbftMessageType::Commit, block_id),
{
    if world.state.view < u64::MAX {
        lemma_view_change_started_no_commit(world, (world.state.view + 1) as u64);
    }
    lemma_preparing_quorum(world.logged(message).0, message.block_id(), block_id);
}

/// Catching up asks for the sealed block to be committed, and for no other.
proof fn lemma_catchup_commits(world: World, seal: SealView, again: bool, block_id: Seq<u8>)
    requires
        commit_requested(world.exchange, caught_up(world, seal, again).0.exchange, block_id),
    ensures
        block_id == seal.block_id,
{
    match vote_messages(seal.commit_votes) {
        Some(messages) => {
            let view = messages[0].info().view;
            let at_view = World {
                state: StateView {
                    view: if view > world.state.view {
                        view
                    } else {
                        world.state.view
                    },
                    ..world.state
                },
                ..world
            };
            lemma_all_logged_continues(at_view, messages);
        },
        None => {},
    }
}

/// Whether a message brings a valid seal for the given block, and the block is the current one.
pub open spec fn brings_seal(world: World, message: ParsedView, block_id: Seq<u8>) -> bool {
    match message.message {
        ContentView::SealResponse(response) => {
            &&& response.seal.block_id == block_id
            &&& seal_defect(world, response.seal) is None
            &&& seal_checked(
                world.exchange,
                world.state,
                response.seal,
                response.info.signer_id,
            ).1 is Ok
        },
        _ => false,
    }
}

/// When a message makes the node ask for a block to be committed, either the log holds a
/// `PrePrepare` for that block at the current sequence number and matching `Commit`s from 2f + 1
/// different nodes, and the message is about that block, or the message brings a valid seal for it.
pub proof fn law_commit_needs_quorum_or_seal(world: World, message: ParsedView, block_id: Seq<u8>)
    requires
        message.message.consistent(),
        commit_requested(
            world.exchange,
            message_received(world, message).0.exchange,
            block_id,
        ),
    ensures
        ({
            ||| quorum(message_received(world, message).0, PbftMessageType::Commit, block_id)
                && block_id == message.block_id()
            ||| brings_seal(world, message, block_id)
        }),
{
    let after = message_received(world, message).0;
    match message.msg_type() {
        PbftMessageType::PrePrepare => {
            lemma_pre_prepare_quorum(world, message, block_id);
        },
        PbftMessageType::Prepare => {
            lemma_prepare_handled_quorum(world, message, block_id);
        },
        PbftMessageType::Commit => {
            lemma_commit_handled_quorum(world, message, block_id);
        },
        PbftMessageType::ViewChange => {
            lemma_view_change_no_commit(world, message);
            assert(false);
        },
        PbftMessageType::NewView => {
            lemma_new_view_no_commit(world, message);
            assert(false);
        },
        PbftMessageType::SealRequest => {
            assert(false);
        },
        PbftMessageType::SealResponse => {
            match message.message {
                ContentView::SealResponse(response) => {
                    let seal = response.seal;
                    let signer_id = response.info.signer_id;
                    lemma_seal_no_commit(world.exchange, world.state, seal, signer_id);
                    let exchange = seal_checked(
                        world.exchange,
                        world.state,
                        seal,
                        signer_id,
                    ).0;
                    let verified = World { exchange, ..world };
                    lemma_catchup_continues(verified, seal, false);
                    lemma_commit_requested_later(
                        world.exchange,
                        exchange,
                        after.exchange,
                        block_id,
                    );
                    lemma_catchup_commits(verified, seal, false, block_id);
                },
                _ => {},
            }
        },
        PbftMessageType::Unset => {},
    }
}

/// A `Prepare` or a `Commit` for another block than the one that the primary proposed for its
/// sequence number and view only goes into the log, whatever else the log holds.
pub proof fn law_other_block_only_logged(world: World, message: ParsedView, pre_prepare: ParsedView)
    requires
        world.state.peer_ids.contains(message.info().signer_id),
        !world.state.view_changing(),
        message.msg_type() == PbftMessageType::Prepare || message.msg_type()
            == PbftMessageType::Commit,
        world.log.first_msg(message.info(), PbftMessageType::PrePrepare) == Some(pre_prepare),
        pre_prepare.block_id() != message.block_id(),
    ensures
        message_received(world, message) == world.logged(message),
{
    let pred = of_type_seq_view(
        PbftMessageType::PrePrepare,
        message.info().seq_num,
        message.info().view,
    );
    let logged = world.logged(message).0;
    if !world.log.holds(message.message) {
        let messages = world.log.messages.push(message);
        let last = world.log.messages.len() as int;
        lemma_filter_step(messages, last, pred);
        assert(messages.take(last) =~= world.log.messages);
        assert(messages.take(last + 1) =~= messages);
    }
    assert(logged.log.first_msg(message.info(), PbftMessageType::PrePrepare) == Some(pre_prepare));
    assert(world.logged(message).1 is Ok ==> world.logged(message).1->Ok_0 == ());
}

/// When a new block makes the node ask for a block to be committed, either the log holds a
/// `PrePrepare` for that block at the current sequence number and matching `Commit`s from 2f + 1
/// different nodes, and the new block is that block, or the new block holds a valid seal for it.
pub proof fn law_block_commits_with_quorum_or_seal(
    world: World,
    block: BlockView,
    block_id: Seq<u8>,
)
    requires
        commit_requested(world.exchange, block_received(world, block).0.exchange, block_id),
    ensures
        ({
            ||| quorum(block_received(world, block).0, PbftMessageType::Commit, block_id)
                && block_id == block.block_id
            ||| block_seal_checked(world.exchange, world.log, world.state, block).1 matches Ok(seal)
                && seal.block_id == block_id
        }),
{
    let after = block_received(world, block).0;
    let (exchange, checked) = block_seal_checked(world.exchange, world.log, world.state, block);
    lemma_block_seal_no_commit(world.exchange, world.log, world.state, block);
    match checked {
        Ok(seal) => {
            let verified = World { exchange, ..world };
            let logged = World { log: verified.log.with_block(block), ..verified };
            lemma_block_accepted_continues(verified, block, seal);
            lemma_commit_requested_later(world.exchange, exchange, after.exchange, block_id);
            if block.block_num > logged.state.seq_num {
                lemma_catchup_commits(logged, seal, true, block_id);
            } else if block.signer_id == logged.state.id && logged.state.is_primary() {
                let message = own_message(
                    logged.state,
                    PbftMessageType::PrePrepare,
                    logged.state.view,
                    logged.state.seq_num,
                    block.block_id,
                );
                let announced = logged.announced(message);
                lemma_message_handled_continues(announced, message);
                lemma_commit_requested_later(
                    exchange,
                    announced.exchange,
                    after.exchange,
                    block_id,
                );
                lemma_pre_prepare_quorum(announced, message, block_id);
            } else {
                lemma_preparing_quorum(logged, block.block_id, block_id);
            }
        },
        Err(VerifyError::Halted(_)) => {},
        Err(VerifyError::Rejected(_)) => {
            lemma_no_commit_steps(world.exchange, exchange, after.exchange);
        },
    }
}

pub proof fn lemma_preparing_each_continues(world: World, block_ids: Seq<Seq<u8>>)
    ensures
        continued(world, preparing_each_tried(world, block_ids).0),
    decreases block_ids.len(),
{
    if block_ids.len() > 0 {
        lemma_preparing_each_continues(world, block_ids.drop_last());
        lemma_preparing_continues(
            preparing_each_tried(world, block_ids.drop_last()).0,
            block_ids.last(),
        );
    }
}

proof fn lemma_preparing_each_quorum(world: World, block_ids: Seq<Seq<u8>>, block_id: Seq<u8>)
    requires
        commit_requested(
            world.exchange,
            preparing_each_tried(world, block_ids).0.exchange,
            block_id,
        ),
    ensures
        block_ids.contains(block_id),
        quorum(preparing_each_tried(world, block_ids).0, PbftMessageType::Commit, block_id),
    decreases block_ids.len(),
{
    if block_ids.len() > 0 {
        let front = block_ids.drop_last();
        let last = block_ids.last();
        let (before, result) = preparing_each_tried(world, front);
        let after = preparing_each_tried(world, block_ids).0;
        lemma_preparing_each_continues(world, front);
        if result is Ok {
            lemma_preparing_continues(before, last);
            if commit_requested(before.exchange, after.exchange, block_id) {
                lemma_preparing_quorum(before, last, block_id);
                assert(block_ids[block_ids.len() - 1] == block_id);
            } else {
                let i = choose|i: int|
                    world.exchange.requests.len() <= i < after.exchange.requests.len()
                        && #[trigger] after.exchange.requests[i] == (RequestView::CommitBlock {
                        block_id,
                    });
                assert(i < before.exchange.requests.len());
                assert(before.exchange.requests[i] == after.exchange.requests[i]);
                assert(commit_requested(world.exchange, before.exchange, block_id));
                lemma_preparing_each_quorum(world, front, block_id);
                assert(block_ids[front.index_of(block_id)] == block_id);
                lemma_quorum_kept(before, after, PbftMessageType::Commit, block_id);
            }
        } else {
            lemma_preparing_each_quorum(world, front, block_id);
            assert(block_ids[front.index_of(block_id)] == block_id);
        }
    }
}

/// The world of a node after a block was committed, before it goes on to the next: requested seals
/// are sent, the view is updated, and the log is cleaned up. `None` where it does not get that far.
pub open spec fn after_commit(world: World, block_id: Seq<u8>) -> Option<World> {
    let next = advanced(world, block_id);
    let (answered, result) = seal_responses_sent(next, seal_requesters(next));
    if result is Err {
        None
    } else {
        let (updated, result) = view_updated(answered, block_id);
        if result is Err {
            None
        } else {
            Some(World { log: updated.log.collected(updated.state.seq_num), ..updated })
        }
    }
}

pub proof fn lemma_responses_keep(world: World, recipients: Seq<Seq<u8>>)
    ensures
        goes_on(world.exchange, seal_responses_sent(world, recipients).0.exchange),
        no_commit(world.exchange, seal_responses_sent(world, recipients).0.exchange),
        seal_responses_sent(world, recipients).0.state == world.state,
        seal_responses_sent(world, recipients).0.log == world.log,
        seal_responses_sent(world, recipients).0.self_sending == world.self_sending,
    decreases recipients.len(),
{
    if recipients.len() > 0 {
        lemma_responses_keep(world, recipients.drop_last());
    }
}

pub proof fn lemma_view_updated_keeps(world: World, block_id: Seq<u8>)
    ensures
        goes_on(world.exchange, view_updated(world, block_id).0.exchange),
        no_commit(world.exchange, view_updated(world, block_id).0.exchange),
        view_updated(world, block_id).0.state.seq_num == world.state.seq_num,
        view_updated(world, block_id).0.state.id == world.state.id,
        view_updated(world, block_id).0.state.phase == world.state.phase,
        view_updated(world, block_id).0.state.mode == world.state.mode,
        view_updated(world, block_id).0.state.view >= world.state.view,
        view_updated(world, block_id).0.log == world.log,
        view_updated(world, block_id).0.self_sending == world.self_sending,
{
}

pub proof fn lemma_next_block_continues(world: World, block_id: Seq<u8>, catching_up: bool)
    ensures
        continued(world, next_block_begun(world, block_id, catching_up).0),
{
    let sealed_next = world.log.blocks_with_num((world.state.seq_num + 1) as u64);
    lemma_block_seal_goes_on(world.exchange, world.log, world.state, sealed_next[0]);
    let (exchange, checked) = block_seal_checked(
        world.exchange,
        world.log,
        world.state,
        sealed_next[0],
    );
    match checked {
        Ok(seal) => {
            lemma_catchup_continues(World { exchange, ..world }, seal, true);
        },
        Err(_) => {},
    }
    lemma_message_sent_continues(
        World { state: world.state.in_phase(PhaseView::PrePreparing), ..world },
        own_message(
            world.state,
            PbftMessageType::SealRequest,
            world.state.view,
            world.state.seq_num,
            Seq::empty(),
        ),
    );
    let reset = World { state: world.state.reset(), ..world };
    lemma_preparing_each_continues(reset, ids_of(reset.log.blocks_with_num(reset.state.seq_num)));
}

/// A block that the validator committed advances the sequence number by one if the node waits for
/// it, and changes nothing otherwise.
pub proof fn law_committed_block_advances(world: World, block_id: Seq<u8>)
    requires
        world.state.seq_num < u64::MAX,
    ensures
        (match world.state.phase {
            PhaseView::Finishing(expected_id, _) => if block_id == expected_id {
                block_committed(world, block_id).0.state.seq_num == world.state.seq_num + 1
            } else {
                block_committed(world, block_id) == (world, Ok::<(), PbftError>(()))
            },
            _ => block_committed(world, block_id) == (world, Ok::<(), PbftError>(())),
        }),
{
    match world.state.phase {
        PhaseView::Finishing(expected_id, catching_up) => {
            let next = advanced(world, block_id);
            lemma_responses_keep(next, seal_requesters(next));
            let answered = seal_responses_sent(next, seal_requesters(next)).0;
            lemma_view_updated_keeps(answered, block_id);
            let updated = view_updated(answered, block_id).0;
            lemma_next_block_continues(
                World { log: updated.log.collected(updated.state.seq_num), ..updated },
                block_id,
                catching_up,
            );
        },
        _ => {},
    }
}

/// Whether the block after the current one is in the log and holds a valid seal for the given one.
pub open spec fn next_block_seals(world: World, block_id: Seq<u8>) -> bool {
    let sealed_next = world.log.blocks_with_num((world.state.seq_num + 1) as u64);
    sealed_next.len() > 0 && (block_seal_checked(
        world.exchange,
        world.log,
        world.state,
        sealed_next[0],
    ).1 matches Ok(seal) && seal.block_id == block_id)
}

/// When the node, after one block was committed, asks for another to be committed, either the log
/// holds a `PrePrepare` for the other block at the sequence number that is then current and matching
/// `Commit`s from 2f + 1 different nodes, or a block in the log holds a valid seal for it.
pub proof fn law_next_commit_needs_quorum_or_seal(
    world: World,
    committed_id: Seq<u8>,
    block_id: Seq<u8>,
)
    requires
        world.state.seq_num < u64::MAX,
        commit_requested(
            world.exchange,
            block_committed(world, committed_id).0.exchange,
            block_id,
        ),
    ensures
        after_commit(world, committed_id) is Some,
        ({
            ||| quorum(block_committed(world, committed_id).0, PbftMessageType::Commit, block_id)
            ||| next_block_seals(after_commit(world, committed_id)->0, block_id)
        }),
{
    match world.state.phase {
        PhaseView::Finishing(expected_id, catching_up) => {
            let next = advanced(world, committed_id);
            let after = block_committed(world, committed_id).0;
            lemma_responses_keep(next, seal_requesters(next));
            let answered = seal_responses_sent(next, seal_requesters(next)).0;
            lemma_view_updated_keeps(answered, committed_id);
            let updated = view_updated(answered, committed_id).0;
            lemma_no_commit_steps(world.exchange, next.exchange, answered.exchange);
            lemma_no_commit_steps(world.exchange, answered.exchange, updated.exchange);
            let begun = World { log: updated.log.collected(updated.state.seq_num), ..updated };
            lemma_next_block_continues(begun, committed_id, catching_up);
            lemma_commit_requested_later(
                world.exchange,
                begun.exchange,
                after.exchange,
                block_id,
            );
            lemma_next_block_commits(begun, committed_id, catching_up, block_id);
        },
        _ => {},
    }
}

proof fn lemma_next_block_commits(
    world: World,
    committed_id: Seq<u8>,
    catching_up: bool,
    block_id: Seq<u8>,
)
    requires
        commit_requested(
            world.exchange,
            next_block_begun(world, committed_id, catching_up).0.exchange,
            block_id,
        ),
    ensures
        ({
            ||| quorum(
                next_block_begun(world, committed_id, catching_up).0,
                PbftMessageType::Commit,
                block_id,
            )
            ||| next_block_seals(world, block_id)
        }),
{
    let after = next_block_begun(world, committed_id, catching_up).0;
    let sealed_next = world.log.blocks_with_num((world.state.seq_num + 1) as u64);
    if sealed_next.len() > 0 {
        let (exchange, checked) = block_seal_checked(
            world.exchange,
            world.log,
            world.state,
            sealed_next[0],
        );
        lemma_block_seal_no_commit(world.exchange, world.log, world.state, sealed_next[0]);
        match checked {
            Ok(seal) => {
                let verified = World { exchange, ..world };
                lemma_catchup_continues(verified, seal, true);
                lemma_commit_requested_later(world.exchange, exchange, after.exchange, block_id);
                lemma_catchup_commits(verified, seal, true, block_id);
            },
            Err(_) => {},
        }
    } else if catching_up {
    } else {
        let reset = World { state: world.state.reset(), ..world };
        let ids = ids_of(reset.log.blocks_with_num(reset.state.seq_num));
        let tried = preparing_each_tried(reset, ids).0;
        lemma_preparing_each_continues(reset, ids);
        if !commit_requested(reset.exchange, tried.exchange, block_id) {
            let i = choose|i: int|
                world.exchange.requests.len() <= i < after.exchange.requests.len()
                    && #[trigger] after.exchange.requests[i] == (RequestView::CommitBlock {
                    block_id,
                });
            assert(i >= tried.exchange.requests.len()) by {
                if i < tried.exchange.requests.len() {
                    assert(tried.exchange.requests[i] == after.exchange.requests[i]);
                }
            }
        }
        lemma_preparing_each_quorum(reset, ids, block_id);
        lemma_quorum_kept(tried, after, PbftMessageType::Commit, block_id);
    }
}

// ---------- Blocks ----------

/// A block that is added to the log follows one in the log whose number is one less, and is not
/// older than the current sequence number.
pub proof fn law_logged_block_follows(world: World, block: BlockView)
    requires
        !world.log.blocks.contains(block),
        block_received(world, block).0.log.blocks.contains(block),
    ensures
        block.block_num >= world.state.seq_num,
        world.log.block_with_id(block.previous_id) matches Some(previous) && previous.block_num
            == block.block_num - 1,
{
}

/// A block that is older than the current sequence number is ignored.
pub proof fn law_old_block_ignored(world: World, block: BlockView)
    requires
        block.block_num < world.state.seq_num,
    ensures
        block_received(world, block) == (world, Ok::<(), PbftError>(())),
{
}

/// Only the primary publishes a block, and only while it waits for one.
pub proof fn law_only_the_primary_publishes(world: World)
    requires
        !world.state.is_primary() || !(world.state.phase is PrePreparing),
    ensures
        publishing_tried(world) == (world, Ok::<(), PbftError>(())),
{
}

/// When a block was committed, every other block in the log at its sequence number is rejected.
pub proof fn law_other_blocks_rejected(world: World, block_id: Seq<u8>, at: int)
    requires
        world.state.phase matches PhaseView::Finishing(expected_id, _) && expected_id == block_id,
        0 <= at < world.log.blocks.len(),
        world.log.blocks[at].block_num == world.state.seq_num,
        world.log.blocks[at].block_id != block_id,
    ensures
        exists|i: int|
            world.exchange.requests.len() <= i < block_committed(
                world,
                block_id,
            ).0.exchange.requests.len() && #[trigger] block_committed(
                world,
                block_id,
            ).0.exchange.requests[i] == (RequestView::FailBlock {
                block_id: world.log.blocks[at].block_id,
            }),
{
    let block = world.log.blocks[at];
    let numbered = world.log.blocks.filter(with_num(world.state.seq_num));
    world.log.blocks.lemma_filter_contains(with_num(world.state.seq_num), at);
    let n = numbered.index_of(block);
    let others = numbered.filter(other_than(block_id));
    numbered.lemma_filter_contains(other_than(block_id), n);
    let k = others.index_of(block);
    let next = advanced(world, block_id);
    let i = world.exchange.requests.len() + k;
    assert(uncommitted(world, block_id)[k] == block.block_id);
    assert(next.exchange.requests[i] == (RequestView::FailBlock { block_id: block.block_id }));
    lemma_responses_keep(next, seal_requesters(next));
    let answered = seal_responses_sent(next, seal_requesters(next)).0;
    lemma_view_updated_keeps(answered, block_id);
    let updated = view_updated(answered, block_id).0;
    let begun = World { log: updated.log.collected(updated.state.seq_num), ..updated };
    match world.state.phase {
        PhaseView::Finishing(_, catching_up) => {
            lemma_next_block_continues(begun, block_id, catching_up);
        },
        _ => {},
    }
    let after = block_committed(world, block_id).0;
    assert(answered.exchange.requests[i] == next.exchange.requests[i]);
    assert(updated.exchange.requests[i] == answered.exchange.requests[i]);
    assert(after.exchange.requests[i] == next.exchange.requests[i]);
}

// ---------- Requests for seals ----------

/// The message with which a node answers a request for the seal of its last block.
pub open spec fn seal_response(world: World, seal: SealView) -> SealResponseView {
    SealResponseView {
        info: InfoView {
            msg_type: PbftMessageType::SealResponse,
            view: world.state.view,
            seq_num: world.state.seq_num,
            signer_id: world.state.id,
        },
        seal,
    }
}

/// Whether a request to send the seal of the last block to a node was added.
pub open spec fn seal_requested_to(
    before: Exchange,
    after: Exchange,
    recipient: Seq<u8>,
    response: SealResponseView,
) -> bool {
    exists|i: int|
        before.requests.len() <= i < after.requests.len() && #[trigger] after.requests[i]
            == (RequestView::SendTo {
            peer: recipient,
            msg_type: PbftMessageType::SealResponse,
            payload: response.encode(),
        })
}

proof fn lemma_each_answered(
    world: World,
    recipients: Seq<Seq<u8>>,
    seal: SealView,
    recipient: Seq<u8>,
)
    requires
        built_seal(world.log, world.state) == Ok::<SealView, SealFault>(seal),
        seal_responses_sent(world, recipients).1 is Ok,
        recipients.contains(recipient),
    ensures
        seal_requested_to(
            world.exchange,
            seal_responses_sent(world, recipients).0.exchange,
            recipient,
            seal_response(world, seal),
        ),
    decreases recipients.len(),
{
    let front = recipients.drop_last();
    let last = recipients.last();
    let before = seal_responses_sent(world, front).0;
    let after = seal_responses_sent(world, recipients).0;
    lemma_responses_keep(world, front);
    let index = recipients.index_of(recipient);
    if index == recipients.len() - 1 {
        let i = before.exchange.requests.len() as int;
        assert(after.exchange.requests[i] == (RequestView::SendTo {
            peer: recipient,
            msg_type: PbftMessageType::SealResponse,
            payload: seal_response(world, seal).encode(),
        }));
    } else {
        assert(front[index] == recipient);
        lemma_each_answered(world, front, seal, recipient);
        let i = choose|i: int|
            world.exchange.requests.len() <= i < before.exchange.requests.len()
                && #[trigger] before.exchange.requests[i] == (RequestView::SendTo {
                peer: recipient,
                msg_type: PbftMessageType::SealResponse,
                payload: seal_response(world, seal).encode(),
            });
        assert(after.exchange.requests[i] == before.exchange.requests[i]);
    }
}

/// A request for the seal of the current block that is in the log is answered once the block is
/// committed, if the seal can be built and the validator answers.
pub proof fn law_kept_request_answered(world: World, block_id: Seq<u8>, at: int, seal: SealView)
    requires
        world.state.seq_num < u64::MAX,
        world.state.phase matches PhaseView::Finishing(expected_id, _) && expected_id == block_id,
        0 <= at < world.log.messages.len(),
        world.log.messages[at].msg_type() == PbftMessageType::SealRequest,
        world.log.messages[at].info().seq_num == world.state.seq_num,
        built_seal(world.log, advanced(world, block_id).state) == Ok::<SealView, SealFault>(seal),
        seal_responses_sent(
            advanced(world, block_id),
            seal_requesters(advanced(world, block_id)),
        ).1 is Ok,
    ensures
        seal_requested_to(
            world.exchange,
            block_committed(world, block_id).0.exchange,
            world.log.messages[at].info().signer_id,
            seal_response(advanced(world, block_id), seal),
        ),
{
    let next = advanced(world, block_id);
    let recipient = world.log.messages[at].info().signer_id;
    let pred = of_type_seq(PbftMessageType::SealRequest, (next.state.seq_num - 1) as u64);
    let found = world.log.messages.filter(pred);
    world.log.messages.lemma_filter_contains(pred, at);
    let k = found.index_of(world.log.messages[at]);
    assert(seal_requesters(next)[k] == recipient);
    lemma_each_answered(next, seal_requesters(next), seal, recipient);
    let answered = seal_responses_sent(next, seal_requesters(next)).0;
    lemma_responses_keep(next, seal_requesters(next));
    lemma_view_updated_keeps(answered, block_id);
    let updated = view_updated(answered, block_id).0;
    let begun = World { log: updated.log.collected(updated.state.seq_num), ..updated };
    match world.state.phase {
        PhaseView::Finishing(_, catching_up) => {
            lemma_next_block_continues(begun, block_id, catching_up);
        },
        _ => {},
    }
    let after = block_committed(world, block_id).0;
    let response = seal_response(next, seal);
    let i = choose|i: int|
        next.exchange.requests.len() <= i < answered.exchange.requests.len()
            && #[trigger] answered.exchange.requests[i] == (RequestView::SendTo {
            peer: recipient,
            msg_type: PbftMessageType::SealResponse,
            payload: response.encode(),
        });
    assert(updated.exchange.requests[i] == answered.exchange.requests[i]);
    assert(after.exchange.requests[i] == updated.exchange.requests[i]);
}

/// A request for the seal of the last block is answered at once, if the seal can be built.
pub proof fn law_request_answered_at_once(world: World, message: ParsedView, seal: SealView)
    requires
        world.state.peer_ids.contains(message.info().signer_id),
        !world.state.view_changing(),
        message.msg_type() == PbftMessageType::SealRequest,
        message.info().seq_num + 1 == world.state.seq_num,
        built_seal(world.log, world.state) == Ok::<SealView, SealFault>(seal),
    ensures
        message_received(world, message).0.exchange.requests == world.exchange.requests.push(
            RequestView::SendTo {
                peer: message.info().signer_id,
                msg_type: PbftMessageType::SealResponse,
                payload: seal_response(world, seal).encode(),
            },
        ),
{
}

} // verus!
