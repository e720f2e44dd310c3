//! Handling an update again with more answers.
//!
//! The node stops where an answer is missing. That it may be started over with one answer more rests
//! on this: with more answers it makes the same requests first, and what came to an end with fewer
//! comes to the same end with more.

use vstd::prelude::*;

use crate::block::BlockView;
use crate::error::{Halt, PbftError, ServiceCall, VerifyError};
use crate::frame::{
    goes_on, lemma_block_seal_goes_on, lemma_catchup_continues, lemma_message_sent_continues,
    lemma_new_view_continues, lemma_preparing_continues, lemma_seal_response_sent_continues,
    lemma_view_change_started_continues, view_change_joined, view_opened,
};
use crate::header::HeaderView;
use crate::hex_text::hex_text;
use crate::message::{ContentView, ParsedView};
use crate::message_log::LogView;
use crate::message_type::PbftMessageType;
use crate::model::{
    advanced, all_logged, already_changing, block_accepted, block_committed, block_received,
    block_seal_checked, built_seal, caught_up, changed_state, commit_handled, commit_sent, ids_of,
    joins_view_change, message_handled, message_received, message_sent, new_view_checked,
    new_view_handled, new_view_message, next_block_begun, own_message, pre_prepare_handled,
    prepare_handled, prepare_sent, preparing_each_tried, preparing_tried, preparing_world,
    publishing_tried, seal_checked, seal_of_block, seal_request_handled, seal_requesters,
    seal_response_handled, seal_response_sent, seal_responses_sent, stale_view_change,
    view_change_handled, view_change_message, view_change_started, view_updated, vote_checked,
    vote_messages, voted_world, votes_checked, CriteriaView, Outcome, World,
};
use crate::proto::InfoView;
use crate::service::{Exchange, ReplyView, RequestView};
use crate::state::{PbftMode, PhaseView, StateView};
use crate::timing::scaled_duration;
use crate::vote::{NewViewView, SealResponseView, SealView, VoteView};

verus! {

/// An exchange with more answers.
pub open spec fn fed(exchange: Exchange, more: Seq<ReplyView>) -> Exchange {
    Exchange { requests: exchange.requests, replies: exchange.replies + more }
}

/// A world with more answers.
pub open spec fn fed_world(world: World, more: Seq<ReplyView>) -> World {
    World { exchange: fed(world.exchange, more), ..world }
}

/// Whether what came of an exchange fits what comes of it with more answers: if an answer was
/// missing, the same requests come first; else nothing is different.
pub open spec fn exchange_replays<R>(
    outcome: (Exchange, R),
    again: (Exchange, R),
    awaiting: bool,
    more: Seq<ReplyView>,
) -> bool {
    if awaiting {
        goes_on(outcome.0, again.0)
    } else {
        again == (fed(outcome.0, more), outcome.1)
    }
}

/// Whether the node stopped because an answer is missing.
pub open spec fn awaiting(result: Result<(), PbftError>) -> bool {
    result == Err::<(), PbftError>(PbftError::Halted(Halt::AwaitingReply))
}

/// Whether an outcome fits the one with more answers: if an answer was missing, the same requests
/// come first; else nothing is different.
pub open spec fn replays(outcome: Outcome, again: Outcome, more: Seq<ReplyView>) -> bool {
    if awaiting(outcome.1) {
        goes_on(outcome.0.exchange, again.0.exchange)
    } else {
        again == (fed_world(outcome.0, more), outcome.1)
    }
}

proof fn lemma_asked_replays(exchange: Exchange, request: RequestView, more: Seq<ReplyView>)
    ensures
        exchange_replays(
            exchange.asked(request),
            fed(exchange, more).asked(request),
            exchange.asked(request).1 is Err,
            more,
        ),
{
    if exchange.replies.len() > 0 {
        assert((exchange.replies + more).drop_first() =~= exchange.replies.drop_first() + more);
    }
}

proof fn lemma_attempted_replays(exchange: Exchange, request: RequestView, more: Seq<ReplyView>)
    ensures
        exchange_replays(
            exchange.attempted(request),
            fed(exchange, more).attempted(request),
            exchange.attempted(request).1 == Err::<bool, Halt>(Halt::AwaitingReply),
            more,
        ),
{
    lemma_asked_replays(exchange, request, more);
}

proof fn lemma_required_replays(
    world: World,
    request: RequestView,
    call: ServiceCall,
    more: Seq<ReplyView>,
)
    ensures
        replays(world.required(request, call), fed_world(world, more).required(request, call), more),
{
    lemma_attempted_replays(world.exchange, request, more);
}

proof fn lemma_setting_replays(exchange: Exchange, block_id: Seq<u8>, more: Seq<ReplyView>)
    ensures
        exchange_replays(
            exchange.setting_read(block_id),
            fed(exchange, more).setting_read(block_id),
            exchange.setting_read(block_id).1 == Err::<Option<Seq<char>>, Halt>(
                Halt::AwaitingReply,
            ),
            more,
        ),
{
    lemma_asked_replays(exchange, RequestView::GetPeersSetting { block_id }, more);
}

proof fn lemma_vote_replays(
    exchange: Exchange,
    vote: VoteView,
    expected_type: PbftMessageType,
    criteria: CriteriaView,
    more: Seq<ReplyView>,
)
    ensures
        exchange_replays(
            vote_checked(exchange, vote, expected_type, criteria),
            vote_checked(fed(exchange, more), vote, expected_type, criteria),
            vote_checked(exchange, vote, expected_type, criteria).1 == Err::<Seq<u8>, VerifyError>(
                VerifyError::Halted(Halt::AwaitingReply),
            ),
            more,
        ),
{
    match HeaderView::decode(vote.header_bytes) {
        Some(header) => {
            lemma_asked_replays(
                exchange,
                RequestView::VerifySignature {
                    signature: hex_text(vote.header_signature),
                    message: vote.header_bytes,
                    public_key: hex_text(header.signer_id),
                },
                more,
            );
        },
        None => {},
    }
}

proof fn lemma_votes_replay(
    exchange: Exchange,
    votes: Seq<VoteView>,
    expected_type: PbftMessageType,
    criteria: CriteriaView,
    more: Seq<ReplyView>,
)
    ensures
        exchange_replays(
            votes_checked(exchange, votes, expected_type, criteria),
            votes_checked(fed(exchange, more), votes, expected_type, criteria),
            votes_checked(exchange, votes, expected_type, criteria).1 == Err::<
                Set<Seq<u8>>,
                VerifyError,
            >(VerifyError::Halted(Halt::AwaitingReply)),
            more,
        ),
    decreases votes.len(),
{
    if votes.len() > 0 {
        let front = votes.drop_last();
        lemma_votes_replay(exchange, front, expected_type, criteria, more);
        let (before, ids) = votes_checked(exchange, front, expected_type, criteria);
        let (again, _) = votes_checked(fed(exchange, more), front, expected_type, criteria);
        lemma_vote_replays(before, votes.last(), expected_type, criteria, more);
    }
}

proof fn lemma_new_view_check_replays(
    exchange: Exchange,
    state: StateView,
    new_view: NewViewView,
    more: Seq<ReplyView>,
)
    ensures
        exchange_replays(
            new_view_checked(exchange, state, new_view),
            new_view_checked(fed(exchange, more), state, new_view),
            new_view_checked(exchange, state, new_view).1 == Err::<(), VerifyError>(
                VerifyError::Halted(Halt::AwaitingReply),
            ),
            more,
        ),
{
    lemma_votes_replay(
        exchange,
        new_view.view_changes,
        PbftMessageType::ViewChange,
        CriteriaView::View(new_view.info.view),
        more,
    );
}

proof fn lemma_seal_check_replays(
    exchange: Exchange,
    state: StateView,
    seal: SealView,
    signer_id: Seq<u8>,
    more: Seq<ReplyView>,
)
    ensures
        exchange_replays(
            seal_checked(exchange, state, seal, signer_id),
            seal_checked(fed(exchange, more), state, seal, signer_id),
            seal_checked(exchange, state, seal, signer_id).1 == Err::<(), VerifyError>(
                VerifyError::Halted(Halt::AwaitingReply),
            ),
            more,
        ),
{
    let criteria = CriteriaView::Block(seal.block_id);
    lemma_votes_replay(exchange, seal.commit_votes, PbftMessageType::Commit, criteria, more);
    let voted = votes_checked(exchange, seal.commit_votes, PbftMessageType::Commit, criteria).0;
    lemma_setting_replays(voted, seal.previous_id, more);
}

proof fn lemma_block_seal_check_replays(
    exchange: Exchange,
    log: LogView,
    state: StateView,
    block: BlockView,
    more: Seq<ReplyView>,
)
    ensures
        exchange_replays(
            block_seal_checked(exchange, log, state, block),
            block_seal_checked(fed(exchange, more), log, state, block),
            block_seal_checked(exchange, log, state, block).1 == Err::<SealView, VerifyError>(
                VerifyError::Halted(Halt::AwaitingReply),
            ),
            more,
        ),
{
    match seal_of_block(log, block) {
        Ok(seal) => {
            lemma_seal_check_replays(exchange, state, seal, block.signer_id, more);
        },
        Err(_) => {},
    }
}

proof fn lemma_commit_replays(world: World, message: ParsedView, more: Seq<ReplyView>)
    ensures
        replays(
            commit_handled(world, message),
            commit_handled(fed_world(world, more), message),
            more,
        ),
{
    lemma_required_replays(
        world.logged(message).0,
        RequestView::CommitBlock { block_id: message.block_id() },
        ServiceCall::CommitBlock,
        more,
    );
}

proof fn lemma_commit_sent_replays(world: World, block_id: Seq<u8>, more: Seq<ReplyView>)
    ensures
        replays(commit_sent(world, block_id), commit_sent(fed_world(world, more), block_id), more),
{
    let message = own_message(
        world.state,
        PbftMessageType::Commit,
        world.state.view,
        world.state.seq_num,
        block_id,
    );
    lemma_commit_replays(world.announced(message), message, more);
    assert(fed_world(world.announced(message), more) == fed_world(world, more).announced(message));
}

proof fn lemma_prepare_replays(world: World, message: ParsedView, more: Seq<ReplyView>)
    ensures
        replays(
            prepare_handled(world, message),
            prepare_handled(fed_world(world, more), message),
            more,
        ),
{
    let logged = world.logged(message).0;
    let committing = World { state: logged.state.in_phase(PhaseView::Committing), ..logged };
    lemma_commit_sent_replays(committing, message.block_id(), more);
}

proof fn lemma_prepare_sent_replays(world: World, block_id: Seq<u8>, more: Seq<ReplyView>)
    ensures
        replays(prepare_sent(world, block_id), prepare_sent(fed_world(world, more), block_id), more),
{
    let message = own_message(
        world.state,
        PbftMessageType::Prepare,
        world.state.view,
        world.state.seq_num,
        block_id,
    );
    lemma_prepare_replays(world.announced(message), message, more);
    assert(fed_world(world.announced(message), more) == fed_world(world, more).announced(message));
}

proof fn lemma_preparing_replays(world: World, block_id: Seq<u8>, more: Seq<ReplyView>)
    ensures
        replays(
            preparing_tried(world, block_id),
            preparing_tried(fed_world(world, more), block_id),
            more,
        ),
{
    lemma_prepare_sent_replays(preparing_world(world), block_id, more);
}

proof fn lemma_view_change_started_replays(world: World, view: u64, more: Seq<ReplyView>)
    ensures
        replays(
            view_change_started(world, view),
            view_change_started(fed_world(world, more), view),
            more,
        ),
    decreases u64::MAX - (if view >= world.target() { view } else { world.target() }), 3int,
{
    let again = fed_world(world, more);
    if !already_changing(world.state, view) && view >= world.state.view {
        match scaled_duration(world.state.view_change_duration, (view - world.state.view) as u64) {
            Some(duration) => {
                let message = view_change_message(world.state, view);
                let voted = voted_world(world, view, duration);
                lemma_view_change_replays(voted, message, more);
                assert(voted_world(again, view, duration) == fed_world(voted, more));
            },
            None => {},
        }
    }
}

proof fn lemma_view_opened_replays(world: World, view: u64, more: Seq<ReplyView>)
    ensures
        replays(view_opened(world, view), view_opened(fed_world(world, more), view), more),
    decreases u64::MAX - view, 1int,
{
    let new_view = new_view_message(world, view);
    lemma_new_view_replays(world.announced(new_view), new_view, more);
    assert(fed_world(world.announced(new_view), more) == fed_world(world, more).announced(
        new_view,
    ));
}

proof fn lemma_view_change_replays(world: World, message: ParsedView, more: Seq<ReplyView>)
    ensures
        replays(
            view_change_handled(world, message),
            view_change_handled(fed_world(world, more), message),
            more,
        ),
    decreases u64::MAX - world.target(), 2int,
{
    let again = fed_world(world, more);
    let view = message.info().view;
    if !stale_view_change(world.state, view) {
        let logged = world.logged(message).0;
        let logged_again = again.logged(message).0;
        assert(logged_again == fed_world(logged, more));
        if joins_view_change(logged, message) {
            lemma_view_change_started_replays(logged, view, more);
        }
        let (joined, started) = view_change_joined(logged, message);
        let (joined_again, _) = view_change_joined(logged_again, message);
        let new_view = new_view_message(joined_again, view);
        lemma_new_view_continues(joined_again.announced(new_view), new_view);
        lemma_view_opened_replays(joined, view, more);
    }
}

proof fn lemma_new_view_replays(world: World, message: ParsedView, more: Seq<ReplyView>)
    ensures
        replays(
            new_view_handled(world, message),
            new_view_handled(fed_world(world, more), message),
            more,
        ),
    decreases u64::MAX - message.info().view, 0int,
{
    let again = fed_world(world, more);
    match message.message {
        ContentView::NewView(new_view) => {
            let view = new_view.info.view;
            if world.state.mode == PbftMode::ViewChanging(view) {
                lemma_new_view_check_replays(world.exchange, world.state, new_view, more);
                let (exchange, checked) = new_view_checked(world.exchange, world.state, new_view);
                let verified = World { exchange, ..world };
                let verified_again = World {
                    exchange: new_view_checked(again.exchange, again.state, new_view).0,
                    ..again
                };
                if view < u64::MAX {
                    lemma_view_change_started_replays(verified, (view + 1) as u64, more);
                    lemma_view_change_started_continues(verified_again, (view + 1) as u64);
                }
                let changed = World { state: changed_state(verified.state, view), ..verified };
                lemma_required_replays(
                    changed,
                    RequestView::InitializeBlock { previous_id: None },
                    ServiceCall::InitializeAfterViewChange,
                    more,
                );
                assert(fed_world(changed, more) == World {
                    state: changed_state(verified.state, view),
                    ..fed_world(verified, more)
                });
            }
        },
        _ => {},
    }
}

proof fn lemma_pre_prepare_replays(world: World, message: ParsedView, more: Seq<ReplyView>)
    ensures
        replays(
            pre_prepare_handled(world, message),
            pre_prepare_handled(fed_world(world, more), message),
            more,
        ),
{
    if world.state.view < u64::MAX {
        lemma_view_change_started_replays(world, (world.state.view + 1) as u64, more);
    }
    lemma_preparing_replays(world.logged(message).0, message.block_id(), more);
    assert(fed_world(world, more).logged(message).0 == fed_world(world.logged(message).0, more));
}

proof fn lemma_seal_response_sent_replays(world: World, recipient: Seq<u8>, more: Seq<ReplyView>)
    ensures
        replays(
            seal_response_sent(world, recipient),
            seal_response_sent(fed_world(world, more), recipient),
            more,
        ),
{
    match built_seal(world.log, world.state) {
        Ok(seal) => {
            let response = SealResponseView {
                info: InfoView {
                    msg_type: PbftMessageType::SealResponse,
                    view: world.state.view,
                    seq_num: world.state.seq_num,
                    signer_id: world.state.id,
                },
                seal,
            };
            lemma_required_replays(
                world,
                RequestView::SendTo {
                    peer: recipient,
                    msg_type: PbftMessageType::SealResponse,
                    payload: response.encode(),
                },
                ServiceCall::SendSeal,
                more,
            );
        },
        Err(_) => {},
    }
}

proof fn lemma_seal_request_replays(world: World, message: ParsedView, more: Seq<ReplyView>)
    ensures
        replays(
            seal_request_handled(world, message),
            seal_request_handled(fed_world(world, more), message),
            more,
        ),
{
    lemma_seal_response_sent_replays(world, message.info().signer_id, more);
    assert(fed_world(world, more).logged(message).0 == fed_world(world.logged(message).0, more));
}

proof fn lemma_all_logged_replays(world: World, messages: Seq<ParsedView>, more: Seq<ReplyView>)
    ensures
        all_logged(fed_world(world, more), messages) == (
            fed_world(all_logged(world, messages).0, more),
            all_logged(world, messages).1,
        ),
        !awaiting(all_logged(world, messages).1),
    decreases messages.len(),
{
    if messages.len() > 0 {
        lemma_all_logged_replays(world, messages.drop_last(), more);
    }
}

proof fn lemma_catchup_replays(world: World, seal: SealView, again: bool, more: Seq<ReplyView>)
    ensures
        replays(
            caught_up(world, seal, again),
            caught_up(fed_world(world, more), seal, again),
            more,
        ),
{
    match vote_messages(seal.commit_votes) {
        Some(messages) => {
            let view = messages[0].info().view;
            let at_view = World {
                state: StateView {
                    view: if view > world.state.view {
                        view
                    } else {
                        world.state.view
                    },
                    ..world.state
                },
                ..world
            };
            lemma_all_logged_replays(at_view, messages, more);
            lemma_required_replays(
                all_logged(at_view, messages).0,
                RequestView::CommitBlock { block_id: seal.block_id },
                ServiceCall::CommitBlockWithCatchUp,
                more,
            );
        },
        None => {},
    }
}

proof fn lemma_seal_response_replays(world: World, message: ParsedView, more: Seq<ReplyView>)
    ensures
        replays(
            seal_response_handled(world, message),
            seal_response_handled(fed_world(world, more), message),
            more,
        ),
{
    let again = fed_world(world, more);
    match message.message {
        ContentView::SealResponse(response) => {
            let seal = response.seal;
            let signer_id = response.info.signer_id;
            lemma_seal_check_replays(world.exchange, world.state, seal, signer_id, more);
            let verified = World {
                exchange: seal_checked(world.exchange, world.state, seal, signer_id).0,
                ..world
            };
            let verified_again = World {
                exchange: seal_checked(again.exchange, again.state, seal, signer_id).0,
                ..again
            };
            lemma_catchup_replays(verified, seal, false, more);
            lemma_catchup_continues(verified_again, seal, false);
        },
        _ => {},
    }
}

proof fn lemma_message_handled_replays(world: World, message: ParsedView, more: Seq<ReplyView>)
    ensures
        replays(
            message_handled(world, message),
            message_handled(fed_world(world, more), message),
            more,
        ),
{
    lemma_pre_prepare_replays(world, message, more);
    lemma_prepare_replays(world, message, more);
    lemma_commit_replays(world, message, more);
    lemma_view_change_replays(world, message, more);
    lemma_new_view_replays(world, message, more);
    lemma_seal_request_replays(world, message, more);
    lemma_seal_response_replays(world, message, more);
}

proof fn lemma_message_sent_replays(world: World, message: ParsedView, more: Seq<ReplyView>)
    ensures
        replays(message_sent(world, message), message_sent(fed_world(world, more), message), more),
{
    lemma_message_handled_replays(world.announced(message), message, more);
    assert(fed_world(world.announced(message), more) == fed_world(world, more).announced(message));
}

/// Handling a message again with more answers: if an answer was missing, the same requests come
/// first; else the outcome is the same.
pub proof fn law_message_replays(world: World, message: ParsedView, more: Seq<ReplyView>)
    ensures
        replays(
            message_received(world, message),
            message_received(fed_world(world, more), message),
            more,
        ),
{
    lemma_message_handled_replays(world, message, more);
}

/// Starting a view change again with more answers: if an answer was missing, the same requests come
/// first; else the outcome is the same.
pub proof fn law_view_change_replays(world: World, view: u64, more: Seq<ReplyView>)
    ensures
        replays(
            view_change_started(world, view),
            view_change_started(fed_world(world, more), view),
            more,
        ),
{
    lemma_view_change_started_replays(world, view, more);
}

proof fn lemma_block_accepted_replays(
    world: World,
    block: BlockView,
    seal: SealView,
    more: Seq<ReplyView>,
)
    ensures
        replays(
            block_accepted(world, block, seal),
            block_accepted(fed_world(world, more), block, seal),
            more,
        ),
{
    let logged = World { log: world.log.with_block(block), ..world };
    lemma_catchup_replays(logged, seal, true, more);
    lemma_preparing_replays(logged, block.block_id, more);
    lemma_message_sent_replays(
        logged,
        own_message(
            logged.state,
            PbftMessageType::PrePrepare,
            logged.state.view,
            logged.state.seq_num,
            block.block_id,
        ),
        more,
    );
}

proof fn lemma_block_accepted_goes_on(world: World, block: BlockView, seal: SealView)
    ensures
        goes_on(world.exchange, block_accepted(world, block, seal).0.exchange),
{
    let logged = World { log: world.log.with_block(block), ..world };
    lemma_catchup_continues(logged, seal, true);
    lemma_preparing_continues(logged, block.block_id);
    lemma_message_sent_continues(
        logged,
        own_message(
            logged.state,
            PbftMessageType::PrePrepare,
            logged.state.view,
            logged.state.seq_num,
            block.block_id,
        ),
    );
}

/// Handling a new block again with more answers: if an answer was missing, the same requests come
/// first; else the outcome is the same.
pub proof fn law_block_replays(world: World, block: BlockView, more: Seq<ReplyView>)
    ensures
        replays(
            block_received(world, block),
            block_received(fed_world(world, more), block),
            more,
        ),
{
    let again = fed_world(world, more);
    lemma_block_seal_check_replays(world.exchange, world.log, world.state, block, more);
    let (exchange, checked) = block_seal_checked(world.exchange, world.log, world.state, block);
    let (exchange_again, checked_again) = block_seal_checked(
        again.exchange,
        again.log,
        again.state,
        block,
    );
    match checked {
        Ok(seal) => {
            lemma_block_accepted_replays(World { exchange, ..world }, block, seal, more);
        },
        Err(_) => {},
    }
    match checked_again {
        Ok(seal) => {
            lemma_block_accepted_goes_on(
                World { exchange: exchange_again, ..again },
                block,
                seal,
            );
        },
        Err(_) => {},
    }
}

/// Trying to publish again with more answers: if an answer was missing, the same requests come
/// first; else the outcome is the same.
pub proof fn law_publishing_replays(world: World, more: Seq<ReplyView>)
    ensures
        replays(publishing_tried(world), publishing_tried(fed_world(world, more)), more),
{
    lemma_attempted_replays(world.exchange, RequestView::SummarizeBlock, more);
    let asked = World {
        exchange: world.exchange.attempted(RequestView::SummarizeBlock).0,
        ..world
    };
    lemma_required_replays(
        asked,
        RequestView::FinalizeBlock { data: Seq::empty() },
        ServiceCall::FinalizeBlock,
        more,
    );
    match built_seal(world.log, world.state) {
        Ok(seal) => {
            lemma_required_replays(
                asked,
                RequestView::FinalizeBlock { data: seal.encode() },
                ServiceCall::FinalizeBlock,
                more,
            );
        },
        Err(_) => {},
    }
}

proof fn lemma_responses_go_on(world: World, recipients: Seq<Seq<u8>>)
    ensures
        goes_on(world.exchange, seal_responses_sent(world, recipients).0.exchange),
        seal_responses_sent(world, recipients).0.state == world.state,
        seal_responses_sent(world, recipients).0.log == world.log,
    decreases recipients.len(),
{
    if recipients.len() > 0 {
        lemma_responses_go_on(world, recipients.drop_last());
        let before = seal_responses_sent(world, recipients.drop_last()).0;
        lemma_seal_response_sent_continues(before, recipients.last());
    }
}

proof fn lemma_responses_replay(world: World, recipients: Seq<Seq<u8>>, more: Seq<ReplyView>)
    ensures
        replays(
            seal_responses_sent(world, recipients),
            seal_responses_sent(fed_world(world, more), recipients),
            more,
        ),
    decreases recipients.len(),
{
    if recipients.len() > 0 {
        let front = recipients.drop_last();
        lemma_responses_replay(world, front, more);
        let before = seal_responses_sent(world, front).0;
        let before_again = seal_responses_sent(fed_world(world, more), front).0;
        lemma_seal_response_sent_replays(before, recipients.last(), more);
        lemma_seal_response_sent_continues(before_again, recipients.last());
    }
}

proof fn lemma_view_updated_replays(world: World, block_id: Seq<u8>, more: Seq<ReplyView>)
    ensures
        replays(view_updated(world, block_id), view_updated(fed_world(world, more), block_id), more),
{
    lemma_setting_replays(world.exchange, block_id, more);
}

proof fn lemma_view_updated_goes_on(world: World, block_id: Seq<u8>)
    ensures
        goes_on(world.exchange, view_updated(world, block_id).0.exchange),
{
}

proof fn lemma_preparing_each_goes_on(world: World, block_ids: Seq<Seq<u8>>)
    ensures
        goes_on(world.exchange, preparing_each_tried(world, block_ids).0.exchange),
    decreases block_ids.len(),
{
    if block_ids.len() > 0 {
        lemma_preparing_each_goes_on(world, block_ids.drop_last());
        lemma_preparing_continues(
            preparing_each_tried(world, block_ids.drop_last()).0,
            block_ids.last(),
        );
    }
}

proof fn lemma_preparing_each_replays(world: World, block_ids: Seq<Seq<u8>>, more: Seq<ReplyView>)
    ensures
        replays(
            preparing_each_tried(world, block_ids),
            preparing_each_tried(fed_world(world, more), block_ids),
            more,
        ),
    decreases block_ids.len(),
{
    if block_ids.len() > 0 {
        let front = block_ids.drop_last();
        lemma_preparing_each_replays(world, front, more);
        lemma_preparing_replays(preparing_each_tried(world, front).0, block_ids.last(), more);
        lemma_preparing_continues(
            preparing_each_tried(fed_world(world, more), front).0,
            block_ids.last(),
        );
    }
}

proof fn lemma_next_block_goes_on(world: World, block_id: Seq<u8>, catching_up: bool)
    ensures
        goes_on(world.exchange, next_block_begun(world, block_id, catching_up).0.exchange),
{
    let sealed_next = world.log.blocks_with_num((world.state.seq_num + 1) as u64);
    lemma_block_seal_goes_on(world.exchange, world.log, world.state, sealed_next[0]);
    let (exchange, checked) = block_seal_checked(
        world.exchange,
        world.log,
        world.state,
        sealed_next[0],
    );
    match checked {
        Ok(seal) => {
            lemma_catchup_continues(World { exchange, ..world }, seal, true);
        },
        Err(_) => {},
    }
    lemma_message_sent_continues(
        world,
        own_message(
            world.state,
            PbftMessageType::SealRequest,
            world.state.view,
            world.state.seq_num,
            Seq::empty(),
        ),
    );
    let reset = World { state: world.state.reset(), ..world };
    lemma_preparing_each_goes_on(reset, ids_of(reset.log.blocks_with_num(reset.state.seq_num)));
}

proof fn lemma_next_block_replays(
    world: World,
    block_id: Seq<u8>,
    catching_up: bool,
    more: Seq<ReplyView>,
)
    ensures
        replays(
            next_block_begun(world, block_id, catching_up),
            next_block_begun(fed_world(world, more), block_id, catching_up),
            more,
        ),
{
    let again = fed_world(world, more);
    let sealed_next = world.log.blocks_with_num((world.state.seq_num + 1) as u64);
    if sealed_next.len() > 0 {
        let block = sealed_next[0];
        lemma_block_seal_check_replays(world.exchange, world.log, world.state, block, more);
        let (exchange, checked) = block_seal_checked(world.exchange, world.log, world.state, block);
        let (exchange_again, checked_again) = block_seal_checked(
            again.exchange,
            again.log,
            again.state,
            block,
        );
        match checked {
            Ok(seal) => {
                lemma_catchup_replays(World { exchange, ..world }, seal, true, more);
            },
            Err(_) => {},
        }
        match checked_again {
            Ok(seal) => {
                lemma_catchup_continues(World { exchange: exchange_again, ..again }, seal, true);
            },
            Err(_) => {},
        }
    } else if catching_up {
        lemma_message_sent_replays(
            world,
            own_message(
                world.state,
                PbftMessageType::SealRequest,
                world.state.view,
                world.state.seq_num,
                Seq::empty(),
            ),
            more,
        );
    } else {
        let reset = World { state: world.state.reset(), ..world };
        let ids = ids_of(reset.log.blocks_with_num(reset.state.seq_num));
        lemma_preparing_each_replays(reset, ids, more);
        assert(fed_world(reset, more) == World { state: again.state.reset(), ..again });
        lemma_required_replays(
            preparing_each_tried(reset, ids).0,
            RequestView::InitializeBlock { previous_id: Some(block_id) },
            ServiceCall::InitializeAfterCommit,
            more,
        );
    }
}

/// Handling a committed block again with more answers: if an answer was missing, the same requests
/// come first; else the outcome is the same.
pub proof fn law_block_commit_replays(world: World, block_id: Seq<u8>, more: Seq<ReplyView>)
    ensures
        replays(
            block_committed(world, block_id),
            block_committed(fed_world(world, more), block_id),
            more,
        ),
{
    match world.state.phase {
        PhaseView::Finishing(expected_id, catching_up) => {
            if block_id == expected_id {
                let next = advanced(world, block_id);
                let next_again = advanced(fed_world(world, more), block_id);
                assert(next_again == fed_world(next, more));
                let requesters = seal_requesters(next);
                lemma_responses_replay(next, requesters, more);
                let answered = seal_responses_sent(next, requesters).0;
                let answered_again = seal_responses_sent(next_again, requesters).0;
                lemma_view_updated_replays(answered, block_id, more);
                lemma_view_updated_goes_on(answered_again, block_id);
                let updated = view_updated(answered, block_id).0;
                let updated_again = view_updated(answered_again, block_id).0;
                let collected = World {
                    log: updated.log.collected(updated.state.seq_num),
                    ..updated
                };
                let collected_again = World {
                    log: updated_again.log.collected(updated_again.state.seq_num),
                    ..updated_again
                };
                lemma_next_block_replays(collected, block_id, catching_up, more);
                lemma_next_block_goes_on(collected_again, block_id, catching_up);
            }
        },
        _ => {},
    }
}

} // verus!
