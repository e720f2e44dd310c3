//! What holds of views, view changes and phases.

use vstd::prelude::*;

use crate::block::BlockView;
use crate::error::{PbftError, Rejection, VerifyError};
use crate::frame::{
    extends, lemma_all_logged_continues, lemma_commit_sent_continues, lemma_new_view_continues,
    lemma_preparing_continues, lemma_view_change_started_continues, view_change_joined,
};
use crate::laws::{lemma_first_pre_prepare, lemma_quorum_kept, quorum};
use crate::message::{ContentView, ParsedView};
use crate::message_log::{of_type_view, LogView};
use crate::message_type::PbftMessageType;
use crate::model::{
    agreed, already_changing, block_received, block_seal_checked, caught_up, commit_handled,
    conflicting_pre_prepare, joins_view_change, message_handled, message_received, new_view_checked,
    new_view_handled, new_view_message, not_own, own_message, prepare_handled, preparing_tried,
    preparing_world, seal_checked, stale_view_change, view_change_handled, view_change_message,
    view_change_started, view_changes_for, vote_messages, voted_world, World,
};
use crate::service::{Exchange, ReplyView, RequestView};
use crate::state::{PbftMode, PhaseView, StateView};
use crate::timing::scaled_duration;
use crate::vote::SealView;

verus! {

/// Whether the view that the node is changing to, if it is, is not before the one it is at.
pub open spec fn heads_on(world: World) -> bool {
    world.target() >= world.state.view
}

/// Whether the view that the node is changing to, if it is, is a later one than its own.
pub open spec fn ahead(world: World) -> bool {
    match world.state.mode {
        PbftMode::ViewChanging(view) => view > world.state.view,
        PbftMode::Normal => true,
    }
}

/// Whether the node is at the same view, and is changing to the same one, if it is.
pub open spec fn same_view(before: World, after: World) -> bool {
    after.state.view == before.state.view && after.state.mode == before.state.mode
}

/// Whether the view that the node is at, and the one that it is at or is changing to, have not gone
/// back.
pub open spec fn moved_on(before: World, after: World) -> bool {
    after.state.view >= before.state.view && after.target() >= before.target()
}

proof fn lemma_commit_same_view(world: World, message: ParsedView)
    ensures
        same_view(world, commit_handled(world, message).0),
{
}

proof fn lemma_prepare_same_view(world: World, message: ParsedView)
    ensures
        same_view(world, prepare_handled(world, message).0),
{
    let logged = world.logged(message).0;
    let committing = World { state: logged.state.in_phase(PhaseView::Committing), ..logged };
    let commit = own_message(
        committing.state,
        PbftMessageType::Commit,
        committing.state.view,
        committing.state.seq_num,
        message.block_id(),
    );
    lemma_commit_same_view(committing.announced(commit), commit);
}

proof fn lemma_preparing_same_view(world: World, block_id: Seq<u8>)
    ensures
        same_view(world, preparing_tried(world, block_id).0),
{
    let preparing = preparing_world(world);
    let prepare = own_message(
        preparing.state,
        PbftMessageType::Prepare,
        preparing.state.view,
        preparing.state.seq_num,
        block_id,
    );
    lemma_prepare_same_view(preparing.announced(prepare), prepare);
}

pub proof fn lemma_view_change_started_moves_on(world: World, view: u64)
    requires
        heads_on(world),
        view >= world.state.view,
    ensures
        heads_on(view_change_started(world, view).0),
        moved_on(world, view_change_started(world, view).0),
        view_change_started(world, view).0.target() >= view,
        ahead(world) && view > world.state.view ==> ahead(view_change_started(world, view).0),
    decreases u64::MAX - (if view >= world.target() { view } else { world.target() }), 2int,
{
    if !already_changing(world.state, view) {
        match scaled_duration(world.state.view_change_duration, (view - world.state.view) as u64) {
            Some(duration) => {
                lemma_view_change_moves_on(
                    voted_world(world, view, duration),
                    view_change_message(world.state, view),
                );
            },
            None => {},
        }
    }
}

pub proof fn lemma_view_change_moves_on(world: World, message: ParsedView)
    requires
        heads_on(world),
    ensures
        heads_on(view_change_handled(world, message).0),
        moved_on(world, view_change_handled(world, message).0),
        ahead(world) ==> ahead(view_change_handled(world, message).0),
    decreases u64::MAX - world.target(), 1int,
{
    let view = message.info().view;
    if !stale_view_change(world.state, view) {
        let logged = world.logged(message).0;
        if joins_view_change(logged, message) {
            lemma_view_change_started_moves_on(logged, view);
        }
        let joined = view_change_joined(logged, message).0;
        let new_view = new_view_message(joined, view);
        lemma_new_view_moves_on(joined.announced(new_view), new_view);
    }
}

pub proof fn lemma_new_view_moves_on(world: World, message: ParsedView)
    requires
        heads_on(world),
    ensures
        heads_on(new_view_handled(world, message).0),
        moved_on(world, new_view_handled(world, message).0),
        ahead(world) ==> ahead(new_view_handled(world, message).0),
    decreases u64::MAX - message.info().view, 0int,
{
    match message.message {
        ContentView::NewView(new_view) => {
            let verified = World {
                exchange: new_view_checked(world.exchange, world.state, new_view).0,
                ..world
            };
            if new_view.info.view < u64::MAX && world.state.mode == PbftMode::ViewChanging(
                new_view.info.view,
            ) {
                lemma_view_change_started_moves_on(verified, (new_view.info.view + 1) as u64);
            }
        },
        _ => {},
    }
}

/// Catching up changes neither the mode nor takes the view back.
pub proof fn lemma_catchup_view(world: World, seal: SealView, again: bool)
    ensures
        caught_up(world, seal, again).0.state.mode == world.state.mode,
        caught_up(world, seal, again).0.state.view >= world.state.view,
{
    match vote_messages(seal.commit_votes) {
        Some(messages) => {
            let view = messages[0].info().view;
            let at_view = World {
                state: StateView {
                    view: if view > world.state.view {
                        view
                    } else {
                        world.state.view
                    },
                    ..world.state
                },
                ..world
            };
            lemma_all_logged_continues(at_view, messages);
        },
        None => {},
    }
}

proof fn lemma_message_handled_moves_on(world: World, message: ParsedView)
    requires
        heads_on(world),
        world.state.view_changing() ==> message.msg_type() != PbftMessageType::SealResponse,
    ensures
        heads_on(message_handled(world, message).0),
        moved_on(world, message_handled(world, message).0),
        ahead(world) ==> ahead(message_handled(world, message).0),
{
    match message.msg_type() {
        PbftMessageType::PrePrepare => {
            if world.state.view < u64::MAX {
                lemma_view_change_started_moves_on(world, (world.state.view + 1) as u64);
            }
            lemma_preparing_same_view(world.logged(message).0, message.block_id());
        },
        PbftMessageType::Prepare => {
            lemma_prepare_same_view(world, message);
        },
        PbftMessageType::Commit => {
            lemma_commit_same_view(world, message);
        },
        PbftMessageType::ViewChange => {
            lemma_view_change_moves_on(world, message);
        },
        PbftMessageType::NewView => {
            lemma_new_view_moves_on(world, message);
        },
        PbftMessageType::SealRequest => {
        },
        PbftMessageType::SealResponse => {
            match message.message {
                ContentView::SealResponse(response) => {
                    let exchange = seal_checked(
                        world.exchange,
                        world.state,
                        response.seal,
                        response.info.signer_id,
                    ).0;
                    lemma_catchup_view(World { exchange, ..world }, response.seal, false);
                },
                _ => {},
            }
        },
        PbftMessageType::Unset => {},
    }
}

/// Whatever message comes, neither the view that the node is at nor the one that it is at or is
/// changing to goes back, as long as the node is not changing to a view before its own; and a node
/// that is changing to a later view than its own, or to none, goes on to do so.
pub proof fn law_message_moves_on(world: World, message: ParsedView)
    requires
        heads_on(world),
    ensures
        heads_on(message_received(world, message).0),
        moved_on(world, message_received(world, message).0),
        ahead(world) ==> ahead(message_received(world, message).0),
{
    if !(world.state.view_changing() && message.msg_type() == PbftMessageType::SealResponse) {
        lemma_message_handled_moves_on(world, message);
    }
}

/// Whatever block comes while the node is not changing its view, the view does not go back, and if
/// the node then changes its view, it changes to a later one.
pub proof fn law_block_moves_on(world: World, block: BlockView)
    requires
        !world.state.view_changing(),
    ensures
        ahead(block_received(world, block).0),
        moved_on(world, block_received(world, block).0),
{
    let (exchange, checked) = block_seal_checked(world.exchange, world.log, world.state, block);
    match checked {
        Ok(seal) => {
            let logged = World { exchange, log: world.log.with_block(block), ..world };
            lemma_catchup_view(logged, seal, true);
            lemma_preparing_same_view(logged, block.block_id);
            let message = own_message(
                logged.state,
                PbftMessageType::PrePrepare,
                logged.state.view,
                logged.state.seq_num,
                block.block_id,
            );
            lemma_message_handled_moves_on(logged.announced(message), message);
        },
        Err(_) => {},
    }
}

/// Once a view change was started, starting it again, or starting one to an earlier view, does
/// nothing while the node is still changing its view: no message is sent again.
pub proof fn law_view_change_starts_once(world: World, view: u64, earlier: u64)
    requires
        heads_on(world),
        view >= world.state.view,
        earlier <= view,
        view_change_started(world, view).0.state.view_changing(),
    ensures
        view_change_started(view_change_started(world, view).0, earlier) == (
            view_change_started(world, view).0,
            Ok::<(), PbftError>(()),
        ),
{
    let started = view_change_started(world, view).0;
    lemma_view_change_started_moves_on(world, view);
}

/// A `NewView` for a view that the node is not changing to is ignored, whoever sent it.
pub proof fn law_unexpected_new_view_ignored(world: World, message: ParsedView)
    requires
        world.state.peer_ids.contains(message.info().signer_id),
        message.message is NewView,
        message.message.consistent(),
        world.state.mode != PbftMode::ViewChanging(message.info().view),
    ensures
        message_received(world, message) == (world, Ok::<(), PbftError>(())),
{
}

/// A valid `NewView` for the view that the node is changing to puts it at the beginning of the
/// algorithm in that view.
pub proof fn law_valid_new_view_entered(world: World, message: ParsedView)
    requires
        world.state.peer_ids.contains(message.info().signer_id),
        message.message is NewView,
        message.message.consistent(),
        world.state.mode == PbftMode::ViewChanging(message.info().view),
        new_view_checked(world.exchange, world.state, message.message->NewView_0).1 is Ok,
    ensures
        message_received(world, message).0.state.view == message.info().view,
        message_received(world, message).0.state.mode == PbftMode::Normal,
        message_received(world, message).0.state.phase is PrePreparing,
{
}

// ---------- Phases ----------

/// How far a phase is.
pub open spec fn progress(phase: PhaseView) -> int {
    match phase {
        PhaseView::PrePreparing => 0,
        PhaseView::Preparing => 1,
        PhaseView::Committing => 2,
        PhaseView::Finishing(_, _) => 3,
    }
}

proof fn lemma_commit_progress(world: World, message: ParsedView)
    ensures
        progress(commit_handled(world, message).0.state.phase) >= progress(world.state.phase),
{
}

proof fn lemma_prepare_progress(world: World, message: ParsedView)
    ensures
        progress(prepare_handled(world, message).0.state.phase) >= progress(world.state.phase),
{
    let logged = world.logged(message).0;
    let committing = World { state: logged.state.in_phase(PhaseView::Committing), ..logged };
    let commit = own_message(
        committing.state,
        PbftMessageType::Commit,
        committing.state.view,
        committing.state.seq_num,
        message.block_id(),
    );
    lemma_commit_progress(committing.announced(commit), commit);
}

proof fn lemma_preparing_progress(world: World, block_id: Seq<u8>)
    ensures
        progress(preparing_tried(world, block_id).0.state.phase) >= progress(world.state.phase),
{
    let preparing = preparing_world(world);
    let prepare = own_message(
        preparing.state,
        PbftMessageType::Prepare,
        preparing.state.view,
        preparing.state.seq_num,
        block_id,
    );
    lemma_prepare_progress(preparing.announced(prepare), prepare);
}

/// Whether handling a message can end a view change: it belongs to one, or it shows that the
/// primary is faulty.
pub open spec fn concerns_view_change(world: World, message: ParsedView) -> bool {
    ||| message.msg_type() == PbftMessageType::ViewChange
    ||| message.msg_type() == PbftMessageType::NewView
    ||| message.msg_type() == PbftMessageType::PrePrepare && conflicting_pre_prepare(
        world.log,
        message,
    )
}

/// The node never goes back to an earlier phase on account of a message, unless a view change comes
/// of it.
pub proof fn law_message_makes_progress(world: World, message: ParsedView)
    requires
        !concerns_view_change(world, message),
    ensures
        progress(message_received(world, message).0.state.phase) >= progress(world.state.phase),
{
    match message.msg_type() {
        PbftMessageType::PrePrepare => {
            lemma_preparing_progress(world.logged(message).0, message.block_id());
        },
        PbftMessageType::Prepare => {
            lemma_prepare_progress(world, message);
        },
        PbftMessageType::Commit => {
            lemma_commit_progress(world, message);
        },
        PbftMessageType::SealRequest => {
        },
        PbftMessageType::SealResponse => {
            match message.message {
                ContentView::SealResponse(response) => {
                    let exchange = seal_checked(
                        world.exchange,
                        world.state,
                        response.seal,
                        response.info.signer_id,
                    ).0;
                    lemma_catchup_progress(World { exchange, ..world }, response.seal, false);
                },
                _ => {},
            }
        },
        _ => {},
    }
}

proof fn lemma_catchup_progress(world: World, seal: SealView, again: bool)
    ensures
        progress(caught_up(world, seal, again).0.state.phase) >= progress(world.state.phase),
{
    match vote_messages(seal.commit_votes) {
        Some(messages) => {
            let view = messages[0].info().view;
            let at_view = World {
                state: StateView {
                    view: if view > world.state.view {
                        view
                    } else {
                        world.state.view
                    },
                    ..world.state
                },
                ..world
            };
            lemma_all_logged_continues(at_view, messages);
        },
        None => {},
    }
}

/// A `Prepare` takes the node beyond the preparing phase only if the log then holds a `PrePrepare`
/// for its block at the current sequence number and matching `Prepare`s from 2f + 1 different nodes.
pub proof fn law_committing_needs_prepares(world: World, message: ParsedView)
    requires
        message.msg_type() == PbftMessageType::Prepare,
        world.state.phase is Preparing,
        progress(message_received(world, message).0.state.phase) > progress(world.state.phase),
    ensures
        quorum(message_received(world, message).0, PbftMessageType::Prepare, message.block_id()),
{
    let logged = world.logged(message).0;
    lemma_first_pre_prepare(logged, PbftMessageType::Prepare, message);
    let committing = World { state: logged.state.in_phase(PhaseView::Committing), ..logged };
    lemma_commit_sent_continues(committing, message.block_id());
    lemma_quorum_kept(
        logged,
        message_received(world, message).0,
        PbftMessageType::Prepare,
        message.block_id(),
    );
}

/// A `Prepare` for the current block that makes 2f + 1 with those in the log takes the node beyond
/// the preparing phase.
pub proof fn law_prepares_suffice(world: World, message: ParsedView)
    requires
        world.state.peer_ids.contains(message.info().signer_id),
        !world.state.view_changing(),
        world.state.phase is Preparing,
        message.msg_type() == PbftMessageType::Prepare,
        message.info().view == world.state.view,
        message.info().seq_num == world.state.seq_num,
        agreed(world.logged(message).0, PbftMessageType::Prepare, message),
    ensures
        progress(message_received(world, message).0.state.phase) > progress(world.state.phase),
{
    let logged = world.logged(message).0;
    let committing = World { state: logged.state.in_phase(PhaseView::Committing), ..logged };
    let commit = own_message(
        committing.state,
        PbftMessageType::Commit,
        committing.state.view,
        committing.state.seq_num,
        message.block_id(),
    );
    lemma_commit_progress(committing.announced(commit), commit);
}

/// A `Commit` for the current block that makes 2f + 1 with those in the log makes the node ask for
/// its block to be committed; if the validator does so, the node waits to hear of it.
pub proof fn law_commits_suffice(world: World, message: ParsedView)
    requires
        world.state.peer_ids.contains(message.info().signer_id),
        !world.state.view_changing(),
        world.state.phase is Committing,
        message.msg_type() == PbftMessageType::Commit,
        message.info().view == world.state.view,
        message.info().seq_num == world.state.seq_num,
        agreed(world.logged(message).0, PbftMessageType::Commit, message),
    ensures
        message_received(world, message).0.exchange.requests == world.exchange.requests.push(
            RequestView::CommitBlock { block_id: message.block_id() },
        ),
        world.exchange.replies.len() > 0 && world.exchange.replies[0] == ReplyView::Done
            ==> message_received(world, message).0.state.phase == PhaseView::Finishing(
            message.block_id(),
            false,
        ),
{
}

// ---------- Joining and opening views ----------

/// Once there are `ViewChange`s from f + 1 different nodes for a later view, the node is at that
/// view or is changing to it or a later one.
pub proof fn law_enough_view_changes_join(world: World, message: ParsedView)
    requires
        heads_on(world),
        world.state.peer_ids.contains(message.info().signer_id),
        message.msg_type() == PbftMessageType::ViewChange,
        !stale_view_change(world.state, message.info().view),
        world.logged(message).0.log.has_required(
            PbftMessageType::ViewChange,
            message,
            false,
            world.state.f + 1,
        ),
    ensures
        message_received(world, message).0.target() >= message.info().view,
{
    let view = message.info().view;
    let logged = world.logged(message).0;
    if joins_view_change(logged, message) {
        lemma_view_change_started_moves_on(logged, view);
    }
    let joined = view_change_joined(logged, message).0;
    let new_view = new_view_message(joined, view);
    lemma_new_view_moves_on(joined.announced(new_view), new_view);
}

/// Whether a `NewView` was broadcast.
pub open spec fn new_view_broadcast(before: Exchange, after: Exchange) -> bool {
    exists|i: int|
        before.requests.len() <= i < after.requests.len() && (#[trigger] after.requests[i] matches
            RequestView::Broadcast { msg_type, .. } && msg_type == PbftMessageType::NewView)
}

/// Once there are 2f `ViewChange`s of other nodes for a later view, the primary of that view
/// broadcasts a `NewView`, unless it is stopped before.
pub proof fn law_primary_opens_view(world: World, message: ParsedView)
    requires
        world.state.peer_ids.contains(message.info().signer_id),
        message.msg_type() == PbftMessageType::ViewChange,
        !stale_view_change(world.state, message.info().view),
        world.state.is_primary_at(message.info().view),
        view_changes_for(world.logged(message).0.log, message.info().view).len() >= 2
            * world.state.f,
        view_change_joined(world.logged(message).0, message).1 is Ok,
    ensures
        new_view_broadcast(world.exchange, message_received(world, message).0.exchange),
{
    let view = message.info().view;
    let logged = world.logged(message).0;
    if joins_view_change(logged, message) {
        lemma_view_change_started_continues(logged, view);
    }
    let joined = view_change_joined(logged, message).0;
    lemma_view_changes_kept(logged.log, joined.log, view);
    let new_view = new_view_message(joined, view);
    let announced = joined.announced(new_view);
    lemma_new_view_continues(announced, new_view);
    let after = message_received(world, message).0;
    let i = joined.exchange.requests.len() as int;
    assert(after.exchange.requests[i] == announced.exchange.requests[i]);
}

/// Messages that are added take away no `ViewChange`.
proof fn lemma_view_changes_kept(before: LogView, after: LogView, view: u64)
    requires
        extends(before.messages, after.messages),
    ensures
        view_changes_for(after, view).len() >= view_changes_for(before, view).len(),
{
    let rest = after.messages.skip(before.messages.len() as int);
    let pred = of_type_view(PbftMessageType::ViewChange, view);
    assert(after.messages =~= before.messages + rest);
    Seq::filter_distributes_over_add(before.messages, rest, pred);
    Seq::filter_distributes_over_add(
        before.messages.filter(pred),
        rest.filter(pred),
        not_own(),
    );
}

/// A `NewView` for the view that the node is changing to, from the primary of that view, that is
/// not a proof makes the node go on to the next view, or halts it.
pub proof fn law_invalid_new_view_skipped(world: World, message: ParsedView, rejection: Rejection)
    requires
        heads_on(world),
        world.state.peer_ids.contains(message.info().signer_id),
        message.message is NewView,
        message.message.consistent(),
        message.info().view < u64::MAX,
        world.state.mode == PbftMode::ViewChanging(message.info().view),
        new_view_checked(world.exchange, world.state, message.message->NewView_0).1 == Err::<
            (),
            VerifyError,
        >(VerifyError::Rejected(rejection)),
        rejection != Rejection::NotFromPrimary,
    ensures
        message_received(world, message).0.target() > message.info().view,
        message_received(world, message).1 is Err,
{
    let new_view = message.message->NewView_0;
    let verified = World {
        exchange: new_view_checked(world.exchange, world.state, new_view).0,
        ..world
    };
    lemma_view_change_started_moves_on(verified, (new_view.info.view + 1) as u64);
}

// ---------- Which proposals are accepted ----------

/// Whether only `ViewChange`s were added.
pub open spec fn only_view_changes_added(before: LogView, after: LogView) -> bool {
    forall|i: int|
        before.messages.len() <= i < after.messages.len() ==> (
        #[trigger] after.messages[i]).msg_type() == PbftMessageType::ViewChange
}

proof fn lemma_only_view_changes_steps(first: LogView, second: LogView, third: LogView)
    requires
        only_view_changes_added(first, second),
        only_view_changes_added(second, third),
        extends(second.messages, third.messages),
    ensures
        only_view_changes_added(first, third),
{
    assert forall|i: int| first.messages.len() <= i < third.messages.len() implies (
    #[trigger] third.messages[i]).msg_type() == PbftMessageType::ViewChange by {
        if i < second.messages.len() {
            assert(third.messages[i] == second.messages[i]);
        }
    }
}

proof fn lemma_view_change_started_log(world: World, view: u64)
    ensures
        only_view_changes_added(world.log, view_change_started(world, view).0.log),
    decreases u64::MAX - (if view >= world.target() { view } else { world.target() }), 2int,
{
    if !already_changing(world.state, view) && view >= world.state.view {
        match scaled_duration(world.state.view_change_duration, (view - world.state.view) as u64) {
            Some(duration) => {
                lemma_view_change_log(
                    voted_world(world, view, duration),
                    view_change_message(world.state, view),
                );
            },
            None => {},
        }
    }
}

proof fn lemma_view_change_log(world: World, message: ParsedView)
    requires
        message.msg_type() == PbftMessageType::ViewChange,
    ensures
        only_view_changes_added(world.log, view_change_handled(world, message).0.log),
    decreases u64::MAX - world.target(), 1int,
{
    let view = message.info().view;
    if !stale_view_change(world.state, view) {
        let logged = world.logged(message).0;
        if joins_view_change(logged, message) {
            lemma_view_change_started_log(logged, view);
            lemma_view_change_started_continues(logged, view);
        }
        let joined = view_change_joined(logged, message).0;
        let new_view = new_view_message(joined, view);
        let announced = joined.announced(new_view);
        lemma_new_view_log(announced, new_view);
        lemma_new_view_continues(announced, new_view);
        lemma_only_view_changes_steps(world.log, logged.log, joined.log);
        lemma_only_view_changes_steps(
            world.log,
            joined.log,
            new_view_handled(announced, new_view).0.log,
        );
    }
}

proof fn lemma_new_view_log(world: World, message: ParsedView)
    ensures
        only_view_changes_added(world.log, new_view_handled(world, message).0.log),
    decreases u64::MAX - message.info().view, 0int,
{
    match message.message {
        ContentView::NewView(new_view) => {
            let verified = World {
                exchange: new_view_checked(world.exchange, world.state, new_view).0,
                ..world
            };
            if new_view.info.view < u64::MAX && world.state.mode == PbftMode::ViewChanging(
                new_view.info.view,
            ) {
                lemma_view_change_started_log(verified, (new_view.info.view + 1) as u64);
            }
        },
        _ => {},
    }
}

/// A `PrePrepare` of a known peer that the log does not hold yet is added to it if and only if it
/// is from the primary, there is none for another block at its view and sequence number, and its
/// view is the current one.
pub proof fn law_pre_prepare_accepted(world: World, message: ParsedView)
    requires
        world.state.peer_ids.contains(message.info().signer_id),
        !world.state.view_changing(),
        message.msg_type() == PbftMessageType::PrePrepare,
        !world.log.holds(message.message),
    ensures
        message_received(world, message).0.log.holds(message.message) <==> {
            &&& message.info().signer_id == world.state.primary()
            &&& !conflicting_pre_prepare(world.log, message)
            &&& message.info().view == world.state.view
        },
{
    let after = message_received(world, message).0;
    if message.info().signer_id == world.state.primary() {
        if conflicting_pre_prepare(world.log, message) {
            if world.state.view < u64::MAX {
                let next_view = (world.state.view + 1) as u64;
                lemma_view_change_started_log(world, next_view);
                lemma_view_change_started_continues(world, next_view);
                assert forall|i: int| 0 <= i < after.log.messages.len() implies (
                #[trigger] after.log.messages[i]).message != message.message by {
                    if i < world.log.messages.len() {
                        assert(after.log.messages[i] == world.log.messages[i]);
                    }
                }
            }
        } else if message.info().view == world.state.view {
            let logged = world.logged(message).0;
            lemma_preparing_continues(logged, message.block_id());
            let i = world.log.messages.len() as int;
            assert(logged.log.messages[i] == message);
            assert(after.log.messages[i] == message);
        }
    }
}

} // verus!
