//! What stays as it was whatever message the node handles.

use vstd::prelude::*;

use crate::block::BlockView;
use crate::message::{ContentView, ParsedView};
use crate::message_log::LogView;
use crate::message_type::PbftMessageType;
use crate::model::{
    all_logged, already_changing, block_seal_checked, caught_up, commit_handled, commit_sent,
    joins_view_change, message_handled, message_sent, new_view_checked, new_view_handled,
    new_view_message, own_message, pre_prepare_handled, prepare_handled, prepare_sent,
    preparing_tried, preparing_world, seal_checked, seal_of_block, seal_request_handled,
    seal_response_handled, seal_response_sent, self_sent, stale_view_change, view_change_handled,
    view_change_message, view_change_started, vote_checked, vote_messages, voted_world,
    votes_checked, CriteriaView, Outcome, World,
};
use crate::service::Exchange;
use crate::state::{PbftMode, PhaseView, StateView};
use crate::timing::scaled_duration;
use crate::vote::{NewViewView, SealView, VoteView};

verus! {

/// Whether a list goes on where another ends.
pub open spec fn extends<T>(before: Seq<T>, after: Seq<T>) -> bool {
    &&& before.len() <= after.len()
    &&& forall|i: int| 0 <= i < before.len() ==> #[trigger] after[i] == before[i]
}

/// Whether one exchange goes on where another ends: no request is taken back.
pub open spec fn goes_on(before: Exchange, after: Exchange) -> bool {
    extends(before.requests, after.requests)
}

/// Whether the node works on the same block in the same network.
pub open spec fn same_setting(before: StateView, after: StateView) -> bool {
    &&& after.id == before.id
    &&& after.seq_num == before.seq_num
    &&& after.peer_ids == before.peer_ids
    &&& after.f == before.f
    &&& after.view_change_duration == before.view_change_duration
    &&& after.exponential_retry_base == before.exponential_retry_base
    &&& after.exponential_retry_max == before.exponential_retry_max
    &&& after.forced_view_change_period == before.forced_view_change_period
    &&& after.now == before.now
}

/// Whether a world can come of another while the node works on one block: requests and messages in
/// the log are only added, the blocks in the log stay, and the node works on the same block in the
/// same network.
pub open spec fn continued(before: World, after: World) -> bool {
    &&& goes_on(before.exchange, after.exchange)
    &&& extends(before.log.messages, after.log.messages)
    &&& after.log.blocks == before.log.blocks
    &&& after.log.max_log_size == before.log.max_log_size
    &&& after.self_sending == before.self_sending
    &&& same_setting(before.state, after.state)
}

proof fn lemma_vote_goes_on(
    exchange: Exchange,
    vote: VoteView,
    expected_type: PbftMessageType,
    criteria: CriteriaView,
)
    ensures
        goes_on(exchange, vote_checked(exchange, vote, expected_type, criteria).0),
{
}

/// Verifying votes only adds requests.
pub proof fn lemma_votes_go_on(
    exchange: Exchange,
    votes: Seq<VoteView>,
    expected_type: PbftMessageType,
    criteria: CriteriaView,
)
    ensures
        goes_on(exchange, votes_checked(exchange, votes, expected_type, criteria).0),
    decreases votes.len(),
{
    if votes.len() > 0 {
        lemma_votes_go_on(exchange, votes.drop_last(), expected_type, criteria);
        let before = votes_checked(exchange, votes.drop_last(), expected_type, criteria).0;
        lemma_vote_goes_on(before, votes.last(), expected_type, criteria);
    }
}

/// Verifying a `NewView` only adds requests.
pub proof fn lemma_new_view_goes_on(exchange: Exchange, state: StateView, new_view: NewViewView)
    ensures
        goes_on(exchange, new_view_checked(exchange, state, new_view).0),
{
    lemma_votes_go_on(
        exchange,
        new_view.view_changes,
        PbftMessageType::ViewChange,
        CriteriaView::View(new_view.info.view),
    );
}

/// Verifying a seal only adds requests.
pub proof fn lemma_seal_goes_on(
    exchange: Exchange,
    state: StateView,
    seal: SealView,
    signer_id: Seq<u8>,
)
    ensures
        goes_on(exchange, seal_checked(exchange, state, seal, signer_id).0),
{
    lemma_votes_go_on(
        exchange,
        seal.commit_votes,
        PbftMessageType::Commit,
        CriteriaView::Block(seal.block_id),
    );
}

/// Verifying the seal of a block only adds requests.
pub proof fn lemma_block_seal_goes_on(
    exchange: Exchange,
    log: LogView,
    state: StateView,
    block: BlockView,
)
    ensures
        goes_on(exchange, block_seal_checked(exchange, log, state, block).0),
{
    if block.block_num >= 2 {
        match seal_of_block(log, block) {
            Ok(seal) => {
                lemma_seal_goes_on(exchange, state, seal, block.signer_id);
            },
            Err(_) => {},
        }
    }
}

/// A `Commit` takes nothing back.
pub proof fn lemma_commit_continues(world: World, message: ParsedView)
    ensures
        continued(world, commit_handled(world, message).0),
{
}

/// Broadcasting a `Commit` takes nothing back.
pub proof fn lemma_commit_sent_continues(world: World, block_id: Seq<u8>)
    ensures
        continued(world, commit_sent(world, block_id).0),
{
    let message = own_message(
        world.state,
        PbftMessageType::Commit,
        world.state.view,
        world.state.seq_num,
        block_id,
    );
    lemma_commit_continues(world.announced(message), message);
}

/// A `Prepare` takes nothing back.
pub proof fn lemma_prepare_continues(world: World, message: ParsedView)
    ensures
        continued(world, prepare_handled(world, message).0),
{
    let logged = world.logged(message).0;
    lemma_commit_sent_continues(
        World { state: logged.state.in_phase(PhaseView::Committing), ..logged },
        message.block_id(),
    );
}

/// Broadcasting a `Prepare` takes nothing back.
pub proof fn lemma_prepare_sent_continues(world: World, block_id: Seq<u8>)
    ensures
        continued(world, prepare_sent(world, block_id).0),
{
    let message = own_message(
        world.state,
        PbftMessageType::Prepare,
        world.state.view,
        world.state.seq_num,
        block_id,
    );
    lemma_prepare_continues(world.announced(message), message);
}

/// Trying to go on to prepare a block takes nothing back.
pub proof fn lemma_preparing_continues(world: World, block_id: Seq<u8>)
    ensures
        continued(world, preparing_tried(world, block_id).0),
{
    lemma_prepare_sent_continues(preparing_world(world), block_id);
}

/// What comes of a `ViewChange` once it is logged.
pub open spec fn view_change_joined(logged: World, message: ParsedView) -> Outcome {
    if joins_view_change(logged, message) {
        view_change_started(logged, message.info().view)
    } else {
        (logged, Ok(()))
    }
}

/// What opening a view comes to.
pub open spec fn view_opened(world: World, view: u64) -> Outcome {
    let new_view = new_view_message(world, view);
    let announced = world.announced(new_view);
    self_sent(announced, new_view, new_view_handled(announced, new_view))
}

/// Starting a view change takes nothing back.
pub proof fn lemma_view_change_started_continues(world: World, view: u64)
    ensures
        continued(world, view_change_started(world, view).0),
    decreases u64::MAX - (if view >= world.target() { view } else { world.target() }), 2int,
{
    if !already_changing(world.state, view) && view >= world.state.view {
        match scaled_duration(world.state.view_change_duration, (view - world.state.view) as u64) {
            Some(duration) => {
                lemma_view_change_continues(
                    voted_world(world, view, duration),
                    view_change_message(world.state, view),
                );
            },
            None => {},
        }
    }
}

/// A `ViewChange` takes nothing back.
pub proof fn lemma_view_change_continues(world: World, message: ParsedView)
    ensures
        continued(world, view_change_handled(world, message).0),
    decreases u64::MAX - world.target(), 1int,
{
    let view = message.info().view;
    if !stale_view_change(world.state, view) {
        let logged = world.logged(message).0;
        if joins_view_change(logged, message) {
            lemma_view_change_started_continues(logged, view);
        }
        let joined = view_change_joined(logged, message).0;
        let new_view = new_view_message(joined, view);
        lemma_new_view_continues(joined.announced(new_view), new_view);
    }
}

/// A `NewView` takes nothing back.
pub proof fn lemma_new_view_continues(world: World, message: ParsedView)
    ensures
        continued(world, new_view_handled(world, message).0),
    decreases u64::MAX - message.info().view, 0int,
{
    match message.message {
        ContentView::NewView(new_view) => {
            lemma_new_view_goes_on(world.exchange, world.state, new_view);
            let verified = World {
                exchange: new_view_checked(world.exchange, world.state, new_view).0,
                ..world
            };
            if new_view.info.view < u64::MAX && world.state.mode
                == PbftMode::ViewChanging(new_view.info.view) {
                lemma_view_change_started_continues(verified, (new_view.info.view + 1) as u64);
            }
        },
        _ => {},
    }
}

/// A `PrePrepare` takes nothing back.
pub proof fn lemma_pre_prepare_continues(world: World, message: ParsedView)
    ensures
        continued(world, pre_prepare_handled(world, message).0),
{
    if world.state.view < u64::MAX {
        lemma_view_change_started_continues(world, (world.state.view + 1) as u64);
    }
    lemma_preparing_continues(world.logged(message).0, message.block_id());
}

/// Sending a seal takes nothing back.
pub proof fn lemma_seal_response_sent_continues(world: World, recipient: Seq<u8>)
    ensures
        continued(world, seal_response_sent(world, recipient).0),
{
}

/// A `SealRequest` takes nothing back.
pub proof fn lemma_seal_request_continues(world: World, message: ParsedView)
    ensures
        continued(world, seal_request_handled(world, message).0),
{
    lemma_seal_response_sent_continues(world, message.info().signer_id);
}

/// Offering messages to the log takes nothing back.
pub proof fn lemma_all_logged_continues(world: World, messages: Seq<ParsedView>)
    ensures
        continued(world, all_logged(world, messages).0),
        all_logged(world, messages).0.exchange == world.exchange,
        all_logged(world, messages).0.state == world.state,
    decreases messages.len(),
{
    if messages.len() > 0 {
        lemma_all_logged_continues(world, messages.drop_last());
    }
}

/// Catching up takes nothing back.
pub proof fn lemma_catchup_continues(world: World, seal: SealView, again: bool)
    ensures
        continued(world, caught_up(world, seal, again).0),
{
    match vote_messages(seal.commit_votes) {
        Some(messages) => {
            let view = messages[0].info().view;
            let at_view = World {
                state: StateView {
                    view: if view > world.state.view {
                        view
                    } else {
                        world.state.view
                    },
                    ..world.state
                },
                ..world
            };
            lemma_all_logged_continues(at_view, messages);
        },
        None => {},
    }
}

/// A `SealResponse` takes nothing back.
pub proof fn lemma_seal_response_continues(world: World, message: ParsedView)
    ensures
        continued(world, seal_response_handled(world, message).0),
{
    match message.message {
        ContentView::SealResponse(response) => {
            let seal = response.seal;
            lemma_seal_goes_on(world.exchange, world.state, seal, response.info.signer_id);
            let exchange = seal_checked(
                world.exchange,
                world.state,
                seal,
                response.info.signer_id,
            ).0;
            lemma_catchup_continues(World { exchange, ..world }, seal, false);
        },
        _ => {},
    }
}

/// Any message takes nothing back.
pub proof fn lemma_message_handled_continues(world: World, message: ParsedView)
    ensures
        continued(world, message_handled(world, message).0),
{
    lemma_pre_prepare_continues(world, message);
    lemma_prepare_continues(world, message);
    lemma_commit_continues(world, message);
    lemma_view_change_continues(world, message);
    lemma_new_view_continues(world, message);
    lemma_seal_request_continues(world, message);
    lemma_seal_response_continues(world, message);
}

/// Broadcasting any message takes nothing back.
pub proof fn lemma_message_sent_continues(world: World, message: ParsedView)
    ensures
        continued(world, message_sent(world, message).0),
{
    lemma_message_handled_continues(world.announced(message), message);
}

} // verus!
