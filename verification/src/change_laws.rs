//! What it takes to change the view, told by the messages in the log.

use vstd::prelude::*;

use crate::error::{Halt, PbftError, PrimaryFault, Rejection, ServiceCall, VerifyError};
use crate::evidence::{among, broadcast_of, in_turn, lemma_places_counted, reaches};
use crate::frame::{
    continued, goes_on, lemma_new_view_continues, lemma_new_view_goes_on,
    lemma_view_change_continues, lemma_view_change_started_continues, view_change_joined,
};
use crate::message::{ContentView, ParsedView};
use crate::message_log::{lemma_filter_positions, matching, of_type_view, signers, LogView};
use crate::message_type::PbftMessageType;
use crate::model::{
    already_changing, joins_view_change, message_received, new_view_checked, new_view_handled,
    new_view_message, not_own, stale_view_change, view_change_handled, view_change_message,
    view_change_started, view_changes_for, voted_world, votes_checked, CriteriaView, World,
};
use crate::proto::InfoView;
use crate::seal_laws::lemma_taken_twice;
use crate::service::{Exchange, ReplyView, RequestView};
use crate::state::{PbftMode, PhaseView, StateView};
use crate::timing::{scaled_duration, MAX_DURATION, TimeoutState};
use crate::view_laws::{lemma_new_view_moves_on, lemma_view_change_started_moves_on};
use crate::vote::{NewViewView, VoteView};

verus! {

// ---------- Starting a view change ----------

/// A node that is not yet changing to the given view or a later one votes for the change to it: it
/// broadcasts its vote, stops waiting for blocks, and waits for the view for as many times the
/// duration of a view change as it goes through views. Nothing else about it changes.
pub proof fn law_view_change_is_voted_for(world: World, view: u64)
    requires
        world.wf(),
        world.state.mode matches PbftMode::ViewChanging(target) ==> target < view,
        world.state.view <= view,
        view - world.state.view <= u32::MAX,
        world.state.view_change_duration * (view - world.state.view) <= MAX_DURATION,
    ensures
        ({
            let (after, result) = view_change_started(world, view);
            let before = world.exchange.requests;
            &&& after.exchange.requests.len() > before.len()
            &&& after.exchange.requests[before.len() as int] == broadcast_of(
                world.state.id,
                PbftMessageType::ViewChange,
                view,
                (world.state.seq_num - 1) as u64,
                Seq::empty(),
            )
            &&& !world.self_sending ==> {
                &&& result == Ok::<(), PbftError>(())
                &&& after.exchange.requests.len() == before.len() + 1
                &&& after.exchange.replies == world.exchange.replies
                &&& after.log == world.log
                &&& after.state == (StateView {
                    mode: PbftMode::ViewChanging(view),
                    faulty_primary_timeout: after.state.faulty_primary_timeout,
                    commit_timeout: after.state.commit_timeout,
                    view_change_timeout: after.state.view_change_timeout,
                    ..world.state
                })
                &&& after.state.faulty_primary_timeout.state == TimeoutState::Inactive
                &&& after.state.faulty_primary_timeout.duration
                    == world.state.faulty_primary_timeout.duration
                &&& after.state.commit_timeout.state == TimeoutState::Inactive
                &&& after.state.commit_timeout.duration == world.state.commit_timeout.duration
                &&& after.state.view_change_timeout.state == TimeoutState::Active
                &&& after.state.view_change_timeout.started == world.state.now
                &&& after.state.view_change_timeout.duration == world.state.view_change_duration * (
                view - world.state.view)
            }
        }),
{
    let skipped = (view - world.state.view) as u64;
    assert(skipped % 0x1_0000_0000 == skipped);
    let duration = scaled_duration(world.state.view_change_duration, skipped)->0;
    let voted = voted_world(world, view, duration);
    lemma_view_change_continues(voted, view_change_message(world.state, view));
}

/// A node that is changing to a view does not start to change to it, or to an earlier one, again.
pub proof fn law_view_change_not_started_again(world: World, view: u64)
    requires
        world.state.mode matches PbftMode::ViewChanging(target) && view <= target,
    ensures
        view_change_started(world, view) == (world, Ok::<(), PbftError>(())),
{
}

/// A node that sends itself what it broadcasts counts its own vote for a later view.
pub proof fn law_own_vote_is_counted(world: World, view: u64)
    requires
        world.wf(),
        world.self_sending,
        world.state.peer_ids.contains(world.state.id),
        world.state.mode matches PbftMode::ViewChanging(target) ==> target < view,
        world.state.view < view,
        view - world.state.view <= u32::MAX,
        world.state.view_change_duration * (view - world.state.view) <= MAX_DURATION,
    ensures
        voted_for_view(view_change_started(world, view).0.log.messages, view, world.state.id),
{
    let skipped = (view - world.state.view) as u64;
    assert(skipped % 0x1_0000_0000 == skipped);
    let duration = scaled_duration(world.state.view_change_duration, skipped)->0;
    let voted = voted_world(world, view, duration);
    let message = view_change_message(world.state, view);
    lemma_view_change_logged(voted, message);
    let logged = voted.logged(message).0;
    if joins_view_change(logged, message) {
        lemma_view_change_started_continues(logged, view);
    }
    let joined = view_change_joined(logged, message).0;
    let new_view = new_view_message(joined, view);
    lemma_new_view_continues(joined.announced(new_view), new_view);
    let after = view_change_started(world, view).0;
    let i = choose|i: int|
        0 <= i < logged.log.messages.len() && (#[trigger] logged.log.messages[i]).message
            == message.message;
    assert(after.log.messages[i] == logged.log.messages[i]);
}

/// A view change that would take longer than a duration can be, or that would lead back, is not
/// voted for: the node stops.
pub proof fn law_impossible_view_change_halts(world: World, view: u64)
    requires
        world.state.mode matches PbftMode::ViewChanging(target) ==> target < view,
        view < world.state.view || (view - world.state.view <= u32::MAX
            && world.state.view_change_duration * (view - world.state.view) > MAX_DURATION),
    ensures
        view_change_started(world, view).0.exchange == world.exchange,
        view_change_started(world, view).0.log == world.log,
        view < world.state.view ==> view_change_started(world, view).1 == Err::<(), PbftError>(
            PbftError::Halted(Halt::StaleViewChange),
        ),
        view >= world.state.view ==> view_change_started(world, view).1 == Err::<(), PbftError>(
            PbftError::Halted(Halt::TimeoutOverflow),
        ),
{
    if view >= world.state.view {
        let skipped = (view - world.state.view) as u64;
        assert(skipped % 0x1_0000_0000 == skipped);
    }
}

// ---------- Joining a view change ----------

/// Whether a node is among those that voted for the change to a view.
pub open spec fn voted_for_view(messages: Seq<ParsedView>, view: u64, id: Seq<u8>) -> bool {
    exists|i: int|
        0 <= i < messages.len() && (#[trigger] messages[i]).info().msg_type
            == PbftMessageType::ViewChange && messages[i].info().view == view
            && messages[i].info().signer_id == id
}

/// Whether each of the given nodes, of which there are at least as many as required, voted for the
/// change to a view.
pub open spec fn voted_for_view_by_all(
    messages: Seq<ParsedView>,
    view: u64,
    nodes: Set<Seq<u8>>,
    required: int,
) -> bool {
    &&& nodes.finite()
    &&& nodes.len() >= required
    &&& forall|id: Seq<u8>| #[trigger]
        nodes.contains(id) ==> voted_for_view(messages, view, id)
}

proof fn lemma_view_voters_counted(
    messages: Seq<ParsedView>,
    message: ParsedView,
    nodes: Set<Seq<u8>>,
    required: int,
)
    requires
        voted_for_view_by_all(messages, message.info().view, nodes, required),
    ensures
        signers(
            messages.filter(matching(PbftMessageType::ViewChange, message, false)),
        ).len() >= required,
{
    let pred = matching(PbftMessageType::ViewChange, message, false);
    let found = messages.filter(pred);
    let ids = found.map_values(|m: ParsedView| m.info().signer_id);
    assert forall|id: Seq<u8>| #[trigger] nodes.contains(id) implies signers(found).contains(id) by {
        assert(voted_for_view(messages, message.info().view, id));
        let i = choose|i: int|
            0 <= i < messages.len() && (#[trigger] messages[i]).info().msg_type
                == PbftMessageType::ViewChange && messages[i].info().view == message.info().view
                && messages[i].info().signer_id == id;
        assert(pred(messages[i]));
        messages.lemma_filter_contains(pred, i);
        let k = found.index_of(messages[i]);
        assert(ids[k] == id);
    }
    assert(nodes.subset_of(signers(found)));
    vstd::set_lib::lemma_len_subset(nodes, signers(found));
}

proof fn lemma_counted_view_voters(
    messages: Seq<ParsedView>,
    message: ParsedView,
    required: int,
)
    requires
        signers(
            messages.filter(matching(PbftMessageType::ViewChange, message, false)),
        ).len() >= required,
    ensures
        voted_for_view_by_all(
            messages,
            message.info().view,
            signers(messages.filter(matching(PbftMessageType::ViewChange, message, false))),
            required,
        ),
{
    let pred = matching(PbftMessageType::ViewChange, message, false);
    let found = messages.filter(pred);
    let ids = found.map_values(|m: ParsedView| m.info().signer_id);
    let places = lemma_filter_positions(messages, pred);
    assert forall|id: Seq<u8>| #[trigger] signers(found).contains(id) implies voted_for_view(
        messages,
        message.info().view,
        id,
    ) by {
        let k = ids.index_of(id);
        assert(messages[places[k]] == found[k]);
    }
}

/// Whether a vote for a view comes too late: the node is at that view or a later one, or is changing
/// to a later one.
pub open spec fn too_late(state: StateView, view: u64) -> bool {
    ||| view <= state.view
    ||| state.mode matches PbftMode::ViewChanging(target) && view < target
}

/// A vote for a view that comes too late is ignored.
pub proof fn law_late_view_change_ignored(world: World, message: ParsedView)
    requires
        world.state.peer_ids.contains(message.info().signer_id),
        message.info().msg_type == PbftMessageType::ViewChange,
        too_late(world.state, message.info().view),
    ensures
        message_received(world, message) == (world, Ok::<(), PbftError>(())),
{
}

proof fn lemma_view_change_logged(world: World, message: ParsedView)
    requires
        message.info().msg_type == PbftMessageType::ViewChange,
    ensures
        world.logged(message).1 == Ok::<(), PbftError>(()),
        among(world.logged(message).0.log.messages, message),
        !among(world.log.messages, message) ==> world.logged(message).0.log.messages
            == world.log.messages.push(message),
        world.logged(message).0.state == world.state,
        world.logged(message).0.exchange == world.exchange,
{
    let logged = world.logged(message).0;
    if world.log.holds(message.message) {
        let i = choose|i: int|
            0 <= i < world.log.messages.len() && (#[trigger] world.log.messages[i]).message
                == message.message;
        assert(logged.log.messages[i].message == message.message);
    } else {
        assert(logged.log.messages[world.log.messages.len() as int] == message);
    }
}

/// A vote for a later view that does not come too late goes into the log as it came, whatever view
/// the node is at.
pub proof fn law_view_change_is_logged(world: World, message: ParsedView)
    requires
        world.state.peer_ids.contains(message.info().signer_id),
        message.info().msg_type == PbftMessageType::ViewChange,
        !too_late(world.state, message.info().view),
    ensures
        among(message_received(world, message).0.log.messages, message),
        !among(world.log.messages, message) ==> message_received(
            world,
            message,
        ).0.log.messages.contains(message),
{
    lemma_view_change_logged(world, message);
    let logged = world.logged(message).0;
    let view = message.info().view;
    if joins_view_change(logged, message) {
        lemma_view_change_started_continues(logged, view);
    }
    let joined = view_change_joined(logged, message).0;
    let new_view = new_view_message(joined, view);
    lemma_new_view_continues(joined.announced(new_view), new_view);
    let after = message_received(world, message).0;
    let i = choose|i: int|
        0 <= i < logged.log.messages.len() && (#[trigger] logged.log.messages[i]).message
            == message.message;
    assert(after.log.messages[i] == logged.log.messages[i]);
    if !among(world.log.messages, message) {
        let last = world.log.messages.len() as int;
        assert(after.log.messages[last] == logged.log.messages[last]);
    }
}

proof fn lemma_voted_logged(
    world: World,
    message: ParsedView,
    nodes: Set<Seq<u8>>,
    required: int,
)
    requires
        message.info().msg_type == PbftMessageType::ViewChange,
        voted_for_view_by_all(
            world.log.messages.push(message),
            message.info().view,
            nodes,
            required,
        ),
    ensures
        voted_for_view_by_all(
            world.logged(message).0.log.messages,
            message.info().view,
            nodes,
            required,
        ),
{
    let all = world.log.messages.push(message);
    let view = message.info().view;
    let logged = world.logged(message).0.log.messages;
    if world.log.holds(message.message) {
        let held = choose|i: int|
            0 <= i < world.log.messages.len() && (#[trigger] world.log.messages[i]).message
                == message.message;
        assert forall|id: Seq<u8>| #[trigger] nodes.contains(id) implies voted_for_view(
            logged,
            view,
            id,
        ) by {
            assert(voted_for_view(all, view, id));
            let i = choose|i: int|
                0 <= i < all.len() && (#[trigger] all[i]).info().msg_type
                    == PbftMessageType::ViewChange && all[i].info().view == view
                    && all[i].info().signer_id == id;
            if i < logged.len() {
                assert(logged[i] == all[i]);
            } else {
                assert(logged[held].info() == message.info());
            }
        }
    }
}

/// A node that is not changing its view joins a change to a later one once at least f + 1 nodes
/// voted for it: it votes for that view too, and then is at it, or is changing to it or a later one.
pub proof fn law_enough_votes_are_joined(world: World, message: ParsedView, nodes: Set<Seq<u8>>)
    requires
        world.wf(),
        world.state.peer_ids.contains(message.info().signer_id),
        message.info().msg_type == PbftMessageType::ViewChange,
        message.info().view > world.state.view,
        world.state.mode matches PbftMode::ViewChanging(target) ==> world.state.view <= target
            && target < message.info().view,
        voted_for_view_by_all(
            world.log.messages.push(message),
            message.info().view,
            nodes,
            world.state.f + 1,
        ),
    ensures
        reaches(message_received(world, message).0.state, message.info().view),
        ({
            let view = message.info().view;
            let after = message_received(world, message).0;
            let before = world.exchange.requests;
            view - world.state.view <= u32::MAX && world.state.view_change_duration * (view
                - world.state.view) <= MAX_DURATION ==> {
                &&& after.exchange.requests.len() > before.len()
                &&& after.exchange.requests[before.len() as int] == broadcast_of(
                    world.state.id,
                    PbftMessageType::ViewChange,
                    view,
                    (world.state.seq_num - 1) as u64,
                    Seq::empty(),
                )
                &&& !world.self_sending ==> after.state.mode == PbftMode::ViewChanging(view)
                    && after.state.view == world.state.view
            }
        }),
{
    let view = message.info().view;
    let logged = world.logged(message).0;
    lemma_view_change_logged(world, message);
    lemma_voted_logged(world, message, nodes, world.state.f + 1);
    lemma_view_voters_counted(logged.log.messages, message, nodes, world.state.f + 1);
    assert(joins_view_change(logged, message));
    lemma_view_change_started_moves_on(logged, view);
    let joined = view_change_joined(logged, message).0;
    let new_view = new_view_message(joined, view);
    lemma_new_view_moves_on(joined.announced(new_view), new_view);
    lemma_new_view_continues(joined.announced(new_view), new_view);
    lemma_view_change_started_continues(logged, view);
    let after = message_received(world, message).0;
    if view - world.state.view <= u32::MAX && world.state.view_change_duration * (view
        - world.state.view) <= MAX_DURATION {
        lemma_view_change_voted_on(logged, view);
        let at = world.exchange.requests.len() as int;
        assert(after.exchange.requests[at] == joined.exchange.requests[at]);
    }
}

proof fn lemma_view_change_voted_on(world: World, view: u64)
    requires
        world.state.wf(),
        world.state.mode matches PbftMode::ViewChanging(target) ==> target < view,
        world.state.view <= view,
        view - world.state.view <= u32::MAX,
        world.state.view_change_duration * (view - world.state.view) <= MAX_DURATION,
    ensures
        ({
            let (after, result) = view_change_started(world, view);
            let before = world.exchange.requests;
            &&& after.exchange.requests.len() > before.len()
            &&& after.exchange.requests[before.len() as int] == broadcast_of(
                world.state.id,
                PbftMessageType::ViewChange,
                view,
                (world.state.seq_num - 1) as u64,
                Seq::empty(),
            )
            &&& !world.self_sending ==> result == Ok::<(), PbftError>(())
                && after.state.mode == PbftMode::ViewChanging(view) && after.state.view
                == world.state.view && after.log == world.log
        }),
{
    let skipped = (view - world.state.view) as u64;
    assert(skipped % 0x1_0000_0000 == skipped);
    let duration = scaled_duration(world.state.view_change_duration, skipped)->0;
    let voted = voted_world(world, view, duration);
    lemma_view_change_continues(voted, view_change_message(world.state, view));
}

/// A vote makes a node that is not changing to its view change its state only if the vote is for a
/// later view than the node is at or is changing to, and the log then holds votes for that view of at
/// least f + 1 nodes.
pub proof fn law_view_change_joined_with_enough_votes(world: World, message: ParsedView)
    requires
        world.state.mode != PbftMode::ViewChanging(message.info().view),
        message.info().msg_type == PbftMessageType::ViewChange,
        message_received(world, message).0.state != world.state,
    ensures
        message.info().view > world.state.view,
        world.state.mode matches PbftMode::ViewChanging(target) ==> message.info().view > target,
        exists|nodes: Set<Seq<u8>>| #[trigger]
            voted_for_view_by_all(
                message_received(world, message).0.log.messages,
                message.info().view,
                nodes,
                world.state.f + 1,
            ),
{
    let view = message.info().view;
    let logged = world.logged(message).0;
    lemma_view_change_logged(world, message);
    let joined = view_change_joined(logged, message).0;
    let new_view = new_view_message(joined, view);
    assert(joins_view_change(logged, message));
    lemma_view_change_started_continues(logged, view);
    lemma_new_view_continues(joined.announced(new_view), new_view);
    let after = message_received(world, message).0;
    lemma_counted_view_voters(logged.log.messages, message, world.state.f + 1);
    let nodes = signers(
        logged.log.messages.filter(matching(PbftMessageType::ViewChange, message, false)),
    );
    assert forall|id: Seq<u8>| #[trigger] nodes.contains(id) implies voted_for_view(
        after.log.messages,
        view,
        id,
    ) by {
        assert(voted_for_view(logged.log.messages, view, id));
        let i = choose|i: int|
            0 <= i < logged.log.messages.len() && (
            #[trigger] logged.log.messages[i]).info().msg_type == PbftMessageType::ViewChange
                && logged.log.messages[i].info().view == view
                && logged.log.messages[i].info().signer_id == id;
        assert(after.log.messages[i] == logged.log.messages[i]);
    }
    assert(voted_for_view_by_all(after.log.messages, view, nodes, world.state.f + 1));
}

// ---------- Opening a view ----------

/// Whether a vote is that of a message of another node in favour of a view.
pub open spec fn vote_of_other(messages: Seq<ParsedView>, view: u64, vote: VoteView) -> bool {
    exists|i: int|
        0 <= i < messages.len() && (#[trigger] messages[i]).info().msg_type
            == PbftMessageType::ViewChange && messages[i].info().view == view
            && !messages[i].from_self && vote.header_bytes == messages[i].header_bytes
            && vote.header_signature == messages[i].header_signature && vote.message_bytes
            == messages[i].message_bytes
}

/// Whether a `NewView` is one that this node may send: it is the node's turn to be primary in its
/// view, it says that it is from this node, and it holds at least 2f votes, each of which is that of
/// a message in the log from another node in favour of its view.
pub open spec fn opens_with_votes(world: World, new_view: NewViewView) -> bool {
    &&& new_view.info == (InfoView {
        msg_type: PbftMessageType::NewView,
        view: new_view.info.view,
        seq_num: (world.state.seq_num - 1) as u64,
        signer_id: world.state.id,
    })
    &&& in_turn(world.state, new_view.info.view) == world.state.id
    &&& new_view.view_changes.len() >= 2 * world.state.f
    &&& forall|k: int|
        0 <= k < new_view.view_changes.len() ==> vote_of_other(
            world.log.messages,
            new_view.info.view,
            #[trigger] new_view.view_changes[k],
        )
}

/// Whether every `NewView` that was broadcast is one that the node may send.
pub open spec fn only_opens_with_votes(before: Exchange, after: World) -> bool {
    forall|i: int|
        before.requests.len() <= i < after.exchange.requests.len() ==> (match (
        #[trigger] after.exchange.requests[i]) {
            RequestView::Broadcast { msg_type, payload } => msg_type == PbftMessageType::NewView
                ==> exists|new_view: NewViewView|
                payload == #[trigger] new_view.encode() && opens_with_votes(after, new_view),
            _ => true,
        })
}

proof fn lemma_opens_kept(before: World, after: World, new_view: NewViewView)
    requires
        continued(before, after),
        opens_with_votes(before, new_view),
    ensures
        opens_with_votes(after, new_view),
{
    assert forall|k: int| 0 <= k < new_view.view_changes.len() implies vote_of_other(
        after.log.messages,
        new_view.info.view,
        #[trigger] new_view.view_changes[k],
    ) by {
        let vote = new_view.view_changes[k];
        assert(vote_of_other(before.log.messages, new_view.info.view, vote));
        let i = choose|i: int|
            0 <= i < before.log.messages.len() && (
            #[trigger] before.log.messages[i]).info().msg_type == PbftMessageType::ViewChange
                && before.log.messages[i].info().view == new_view.info.view
                && !before.log.messages[i].from_self && vote.header_bytes
                == before.log.messages[i].header_bytes && vote.header_signature
                == before.log.messages[i].header_signature && vote.message_bytes
                == before.log.messages[i].message_bytes;
        assert(after.log.messages[i] == before.log.messages[i]);
    }
}

proof fn lemma_opens_steps(first: Exchange, second: World, third: World)
    requires
        continued(second, third),
        first.requests.len() <= second.exchange.requests.len(),
        only_opens_with_votes(first, second),
        only_opens_with_votes(second.exchange, third),
    ensures
        only_opens_with_votes(first, third),
{
    assert forall|i: int| first.requests.len() <= i < third.exchange.requests.len() implies (match (
    #[trigger] third.exchange.requests[i]) {
        RequestView::Broadcast { msg_type, payload } => msg_type == PbftMessageType::NewView
            ==> exists|new_view: NewViewView|
            payload == #[trigger] new_view.encode() && opens_with_votes(third, new_view),
        _ => true,
    }) by {
        if i < second.exchange.requests.len() {
            assert(third.exchange.requests[i] == second.exchange.requests[i]);
            match second.exchange.requests[i] {
                RequestView::Broadcast { msg_type, payload } => {
                    if msg_type == PbftMessageType::NewView {
                        let new_view = choose|new_view: NewViewView|
                            payload == #[trigger] new_view.encode() && opens_with_votes(
                                second,
                                new_view,
                            );
                        lemma_opens_kept(second, third, new_view);
                        assert(payload == new_view.encode());
                    }
                },
                _ => {},
            }
        }
    }
}

proof fn lemma_own_new_view(world: World, view: u64)
    requires
        world.state.is_primary_at(view),
        view_changes_for(world.log, view).len() >= 2 * world.state.f,
    ensures
        new_view_message(world, view).message is NewView,
        opens_with_votes(world, new_view_message(world, view).message->NewView_0),
{
    let new_view = new_view_message(world, view).message->NewView_0;
    let messages = view_changes_for(world.log, view);
    let places = lemma_taken_twice(
        world.log.messages,
        of_type_view(PbftMessageType::ViewChange, view),
        not_own(),
    );
    assert forall|k: int| 0 <= k < new_view.view_changes.len() implies vote_of_other(
        world.log.messages,
        view,
        #[trigger] new_view.view_changes[k],
    ) by {
        assert(new_view.view_changes[k] == messages[k].vote());
        assert(world.log.messages[places[k]] == messages[k]);
        assert(!world.log.messages[places[k]].from_self);
    }
}

proof fn lemma_view_change_started_opens(world: World, view: u64)
    ensures
        only_opens_with_votes(world.exchange, view_change_started(world, view).0),
    decreases u64::MAX - (if view >= world.target() { view } else { world.target() }), 2int,
{
    if !already_changing(world.state, view) && view >= world.state.view {
        match scaled_duration(world.state.view_change_duration, (view - world.state.view) as u64) {
            Some(duration) => {
                let voted = voted_world(world, view, duration);
                let message = view_change_message(world.state, view);
                lemma_view_change_opens(voted, message);
                lemma_view_change_continues(voted, message);
                assert(only_opens_with_votes(world.exchange, voted));
                lemma_opens_steps(world.exchange, voted, view_change_handled(voted, message).0);
            },
            None => {},
        }
    }
}

proof fn lemma_view_change_opens(world: World, message: ParsedView)
    ensures
        only_opens_with_votes(world.exchange, view_change_handled(world, message).0),
    decreases u64::MAX - world.target(), 1int,
{
    let view = message.info().view;
    if !stale_view_change(world.state, view) {
        let logged = world.logged(message).0;
        if joins_view_change(logged, message) {
            lemma_view_change_started_opens(logged, view);
            lemma_view_change_started_continues(logged, view);
        }
        let joined = view_change_joined(logged, message).0;
        assert(only_opens_with_votes(world.exchange, joined));
        if joined.state.is_primary_at(view) && view_changes_for(joined.log, view).len() >= 2
            * joined.state.f {
            let own = new_view_message(joined, view);
            lemma_own_new_view(joined, view);
            let announced = joined.announced(own);
            assert(only_opens_with_votes(joined.exchange, announced)) by {
                let new_view = own.message->NewView_0;
                assert(announced.exchange.requests.last() == (RequestView::Broadcast {
                    msg_type: PbftMessageType::NewView,
                    payload: new_view.encode(),
                }));
                assert(opens_with_votes(announced, new_view)) by {
                    lemma_opens_kept(joined, announced, new_view);
                }
            }
            lemma_opens_steps(world.exchange, joined, announced);
            lemma_new_view_opens(announced, own);
            lemma_new_view_continues(announced, own);
            lemma_opens_steps(world.exchange, announced, new_view_handled(announced, own).0);
        }
    }
}

proof fn lemma_votes_not_broadcast(exchange: Exchange, state: StateView, new_view: NewViewView)
    ensures
        forall|i: int|
            exchange.requests.len() <= i < new_view_checked(
                exchange,
                state,
                new_view,
            ).0.requests.len() ==> !((#[trigger] new_view_checked(
                exchange,
                state,
                new_view,
            ).0.requests[i]) is Broadcast),
{
    lemma_votes_only_verified(exchange, new_view.view_changes, new_view.info.view);
}

proof fn lemma_votes_only_verified(exchange: Exchange, votes: Seq<VoteView>, view: u64)
    ensures
        ({
            let after = votes_checked(
                exchange,
                votes,
                PbftMessageType::ViewChange,
                CriteriaView::View(view),
            ).0;
            &&& goes_on(exchange, after)
            &&& forall|i: int|
                exchange.requests.len() <= i < after.requests.len() ==> !((
                #[trigger] after.requests[i]) is Broadcast)
        }),
    decreases votes.len(),
{
    if votes.len() > 0 {
        lemma_votes_only_verified(exchange, votes.drop_last(), view);
    }
}

proof fn lemma_new_view_opens(world: World, message: ParsedView)
    ensures
        only_opens_with_votes(world.exchange, new_view_handled(world, message).0),
    decreases u64::MAX - message.info().view, 0int,
{
    match message.message {
        ContentView::NewView(new_view) => {
            lemma_new_view_goes_on(world.exchange, world.state, new_view);
            lemma_votes_not_broadcast(world.exchange, world.state, new_view);
            let verified = World {
                exchange: new_view_checked(world.exchange, world.state, new_view).0,
                ..world
            };
            assert(only_opens_with_votes(world.exchange, verified));
            if new_view.info.view < u64::MAX && world.state.mode == PbftMode::ViewChanging(
                new_view.info.view,
            ) {
                let next = (new_view.info.view + 1) as u64;
                lemma_view_change_started_opens(verified, next);
                lemma_view_change_started_continues(verified, next);
                lemma_opens_steps(
                    world.exchange,
                    verified,
                    view_change_started(verified, next).0,
                );
            }
        },
        _ => {},
    }
}

/// Every `NewView` that the node broadcasts on account of a vote for a view, or of another
/// `NewView`, holds at least 2f votes, each of them that of a message in the log from another node in
/// favour of its view; and it is the node's turn to be primary in that view.
pub proof fn law_view_is_opened_with_votes(world: World, message: ParsedView)
    requires
        world.wf(),
        message.info().msg_type == PbftMessageType::ViewChange || message.info().msg_type
            == PbftMessageType::NewView,
    ensures
        only_opens_with_votes(world.exchange, message_received(world, message).0),
{
    lemma_view_change_opens(world, message);
    lemma_new_view_opens(world, message);
}

/// The same holds of a view change that the node starts.
pub proof fn law_started_change_opens_with_votes(world: World, view: u64)
    requires
        world.wf(),
    ensures
        only_opens_with_votes(world.exchange, view_change_started(world, view).0),
{
    lemma_view_change_started_opens(world, view);
}

/// Whether the messages at the given places, of which there are at least as many as required, are
/// votes of other nodes for a view.
pub open spec fn votes_of_others_at(
    messages: Seq<ParsedView>,
    view: u64,
    places: Set<int>,
    required: int,
) -> bool {
    &&& places.finite()
    &&& places.len() >= required
    &&& forall|i: int| #[trigger]
        places.contains(i) ==> 0 <= i < messages.len() && messages[i].info().msg_type
            == PbftMessageType::ViewChange && messages[i].info().view == view
            && !messages[i].from_self
}

proof fn lemma_others_counted(log: LogView, view: u64, places: Set<int>, required: int)
    requires
        votes_of_others_at(log.messages, view, places, required),
    ensures
        view_changes_for(log, view).len() >= required,
{
    let pred = of_type_view(PbftMessageType::ViewChange, view);
    let both = |m: ParsedView| pred(m) && not_own()(m);
    assert forall|i: int| #[trigger] places.contains(i) implies 0 <= i < log.messages.len() && both(
        log.messages[i],
    ) by {}
    lemma_places_counted(log.messages, both, places);
    lemma_filter_both(log.messages, pred, not_own(), both);
}

proof fn lemma_filter_both<T>(
    list: Seq<T>,
    p: spec_fn(T) -> bool,
    q: spec_fn(T) -> bool,
    both: spec_fn(T) -> bool,
)
    requires
        forall|x: T| #[trigger] both(x) == (p(x) && q(x)),
    ensures
        list.filter(p).filter(q) == list.filter(both),
    decreases list.len(),
{
    reveal(Seq::filter);
    if list.len() > 0 {
        lemma_filter_both(list.drop_last(), p, q, both);
        let front = list.drop_last().filter(p);
        assert(front.push(list.last()).drop_last() =~= front);
        assert(both(list.last()) == (p(list.last()) && q(list.last())));
    } else {
        assert(list.filter(p) =~= list);
        assert(list.filter(both) =~= list);
    }
}

/// A node that is changing to a view, and whose turn it is to be primary in it, opens it as soon as
/// at least 2f votes of other nodes for it are in its log: it broadcasts a `NewView` that holds
/// those votes, and if it sends itself what it broadcasts, it enters the view by it.
pub proof fn law_enough_votes_open_view(world: World, message: ParsedView, places: Set<int>)
    requires
        world.wf(),
        world.state.peer_ids.contains(message.info().signer_id),
        message.info().msg_type == PbftMessageType::ViewChange,
        message.info().view > world.state.view,
        world.state.mode == PbftMode::ViewChanging(message.info().view),
        in_turn(world.state, message.info().view) == world.state.id,
        !among(world.log.messages, message),
        votes_of_others_at(
            world.log.messages.push(message),
            message.info().view,
            places,
            2 * world.state.f,
        ),
    ensures
        ({
            let after = message_received(world, message).0;
            let at = world.exchange.requests.len() as int;
            &&& after.exchange.requests.len() > at
            &&& exists|new_view: NewViewView|
                after.exchange.requests[at] == (RequestView::Broadcast {
                    msg_type: PbftMessageType::NewView,
                    payload: #[trigger] new_view.encode(),
                }) && new_view.info.view == message.info().view && opens_with_votes(after, new_view)
                    && (world.self_sending && world.state.peer_ids.contains(world.state.id) && (
                new_view_checked(
                    (Exchange {
                        requests: world.exchange.requests.push(after.exchange.requests[at]),
                        replies: world.exchange.replies,
                    }),
                    world.state,
                    new_view,
                ).1 is Ok) ==> after.state.view == message.info().view
                    && after.state.mode is Normal)
        }),
{
    let view = message.info().view;
    let logged = world.logged(message).0;
    lemma_view_change_logged(world, message);
    assert(logged.log.messages == world.log.messages.push(message));
    lemma_others_counted(logged.log, view, places, 2 * world.state.f);
    assert(view_change_joined(logged, message) == (logged, Ok::<(), PbftError>(())));
    let own = new_view_message(logged, view);
    let new_view = own.message->NewView_0;
    let announced = logged.announced(own);
    lemma_own_new_view(logged, view);
    lemma_new_view_continues(announced, own);
    let after = message_received(world, message).0;
    let at = world.exchange.requests.len() as int;
    assert(after.exchange.requests[at] == announced.exchange.requests[at]);
    lemma_opens_kept(logged, after, new_view);
    assert(after.exchange.requests[at] == (RequestView::Broadcast {
        msg_type: PbftMessageType::NewView,
        payload: new_view.encode(),
    }));
    assert(announced.exchange == (Exchange {
        requests: world.exchange.requests.push(after.exchange.requests[at]),
        replies: world.exchange.replies,
    }));
    assert(announced.state == world.state);
}

/// A node whose turn it is to be primary in a later view opens it also if it was not changing to it
/// before, by the same vote by which it joins the change.
pub proof fn law_enough_votes_open_view_at_once(world: World, message: ParsedView, places: Set<int>)
    requires
        world.wf(),
        !world.self_sending,
        world.state.peer_ids.contains(message.info().signer_id),
        message.info().msg_type == PbftMessageType::ViewChange,
        message.info().view > world.state.view,
        message.info().view - world.state.view <= u32::MAX,
        world.state.view_change_duration * (message.info().view - world.state.view) <= MAX_DURATION,
        world.state.mode matches PbftMode::ViewChanging(target) ==> target < message.info().view,
        in_turn(world.state, message.info().view) == world.state.id,
        !among(world.log.messages, message),
        votes_of_others_at(
            world.log.messages.push(message),
            message.info().view,
            places,
            2 * world.state.f,
        ),
    ensures
        ({
            let (after, result) = message_received(world, message);
            &&& result == Ok::<(), PbftError>(())
            &&& exists|new_view: NewViewView|
                after.exchange.requests.last() == (RequestView::Broadcast {
                    msg_type: PbftMessageType::NewView,
                    payload: #[trigger] new_view.encode(),
                }) && new_view.info.view == message.info().view && opens_with_votes(after, new_view)
        }),
{
    let view = message.info().view;
    let logged = world.logged(message).0;
    lemma_view_change_logged(world, message);
    assert(logged.log.messages == world.log.messages.push(message));
    lemma_others_counted(logged.log, view, places, 2 * world.state.f);
    if joins_view_change(logged, message) {
        lemma_view_change_voted_on(logged, view);
        lemma_view_change_started_continues(logged, view);
    }
    let joined = view_change_joined(logged, message).0;
    let own = new_view_message(joined, view);
    let new_view = own.message->NewView_0;
    let announced = joined.announced(own);
    lemma_own_new_view(joined, view);
    lemma_opens_kept(joined, announced, new_view);
    let after = message_received(world, message).0;
    assert(after == announced);
    assert(after.exchange.requests.last() == (RequestView::Broadcast {
        msg_type: PbftMessageType::NewView,
        payload: new_view.encode(),
    }));
}

// ---------- Entering a view ----------

/// A `NewView` for the view that the node is changing to that is from another node than the one
/// whose turn it is to be primary in that view is ignored.
pub proof fn law_new_view_of_other_ignored(world: World, message: ParsedView)
    requires
        world.wf(),
        world.state.peer_ids.contains(message.info().signer_id),
        message.message is NewView,
        message.message.consistent(),
        message.info().signer_id != in_turn(world.state, message.info().view),
    ensures
        message_received(world, message) == (world, Ok::<(), PbftError>(())),
{
}

/// A valid `NewView` for the view that the node is changing to puts the node in that view, at the
/// beginning of the algorithm: it waits for a block from the primary and for nothing else. If it is
/// the node's turn to be primary, it starts a block.
pub proof fn law_valid_new_view_starts_over(world: World, message: ParsedView)
    requires
        world.wf(),
        world.state.peer_ids.contains(message.info().signer_id),
        message.message is NewView,
        message.message.consistent(),
        world.state.mode == PbftMode::ViewChanging(message.info().view),
        new_view_checked(world.exchange, world.state, message.message->NewView_0).1 is Ok,
    ensures
        ({
            let (after, result) = message_received(world, message);
            let checked = new_view_checked(
                world.exchange,
                world.state,
                message.message->NewView_0,
            ).0;
            &&& after.log == world.log
            &&& after.state == (StateView {
                view: message.info().view,
                mode: PbftMode::Normal,
                phase: PhaseView::PrePreparing,
                faulty_primary_timeout: after.state.faulty_primary_timeout,
                commit_timeout: after.state.commit_timeout,
                view_change_timeout: after.state.view_change_timeout,
                ..world.state
            })
            &&& after.state.faulty_primary_timeout.state == TimeoutState::Active
            &&& after.state.faulty_primary_timeout.started == world.state.now
            &&& after.state.commit_timeout.state == TimeoutState::Inactive
            &&& after.state.view_change_timeout.state == TimeoutState::Inactive
            &&& in_turn(world.state, message.info().view) == world.state.id
                ==> after.exchange.requests == checked.requests.push(
                RequestView::InitializeBlock { previous_id: None },
            ) && (result is Ok <==> checked.replies.len() > 0 && checked.replies[0]
                == ReplyView::Done) && (checked.replies.len() > 0 && checked.replies[0]
                == ReplyView::Failed ==> result == Err::<(), PbftError>(
                PbftError::ServiceError(ServiceCall::InitializeAfterViewChange),
            ))
            &&& in_turn(world.state, message.info().view) != world.state.id ==> after.exchange
                == checked && result == Ok::<(), PbftError>(())
        }),
{
}

/// A `NewView` for the view that the node is changing to, from the node whose turn it is to be
/// primary in that view, that is not valid makes the node go on to the next view: it votes for the
/// view after, and reports why.
pub proof fn law_invalid_new_view_moves_on(world: World, message: ParsedView, rejection: Rejection)
    requires
        world.wf(),
        world.state.peer_ids.contains(message.info().signer_id),
        message.message is NewView,
        message.message.consistent(),
        world.state.view < message.info().view < u64::MAX,
        message.info().view + 1 - world.state.view <= u32::MAX,
        world.state.view_change_duration * (message.info().view + 1 - world.state.view)
            <= MAX_DURATION,
        world.state.mode == PbftMode::ViewChanging(message.info().view),
        new_view_checked(world.exchange, world.state, message.message->NewView_0).1 == Err::<
            (),
            VerifyError,
        >(VerifyError::Rejected(rejection)),
        message.info().signer_id == in_turn(world.state, message.info().view),
    ensures
        ({
            let (after, result) = message_received(world, message);
            let next_view = (message.info().view + 1) as u64;
            let checked = new_view_checked(
                world.exchange,
                world.state,
                message.message->NewView_0,
            ).0.requests;
            &&& result is Err
            &&& reaches(after.state, next_view)
            &&& after.exchange.requests.len() > checked.len()
            &&& after.exchange.requests[checked.len() as int] == broadcast_of(
                world.state.id,
                PbftMessageType::ViewChange,
                next_view,
                (world.state.seq_num - 1) as u64,
                Seq::empty(),
            )
            &&& !world.self_sending ==> result == Err::<(), PbftError>(
                PbftError::FaultyPrimary(PrimaryFault::BadNewView { next_view, rejection }),
            ) && after.state.mode == PbftMode::ViewChanging(next_view) && after.state.view
                == world.state.view
        }),
{
    let view = message.info().view;
    let new_view = message.message->NewView_0;
    lemma_rejected_votes(world.exchange, world.state, new_view);
    let verified = World {
        exchange: new_view_checked(world.exchange, world.state, new_view).0,
        ..world
    };
    let next_view = (view + 1) as u64;
    lemma_view_change_started_moves_on(verified, next_view);
    lemma_view_change_voted_on(verified, next_view);
}

proof fn lemma_rejected_votes(exchange: Exchange, state: StateView, new_view: NewViewView)
    requires
        new_view.info.signer_id == state.primary_at(new_view.info.view),
    ensures
        new_view_checked(exchange, state, new_view).1 != Err::<(), VerifyError>(
            VerifyError::Rejected(Rejection::NotFromPrimary),
        ),
{
    lemma_votes_rejection(exchange, new_view.view_changes, new_view.info.view);
}

proof fn lemma_votes_rejection(exchange: Exchange, votes: Seq<VoteView>, view: u64)
    ensures
        !(votes_checked(
            exchange,
            votes,
            PbftMessageType::ViewChange,
            CriteriaView::View(view),
        ).1 matches Err(VerifyError::Rejected(Rejection::NotFromPrimary))),
    decreases votes.len(),
{
    if votes.len() > 0 {
        lemma_votes_rejection(exchange, votes.drop_last(), view);
    }
}

} // verus!
