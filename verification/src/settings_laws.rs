//! What the numbers come to that the node works with: members, faults, timeouts and pauses.

use vstd::prelude::*;

use crate::block_laws::lemma_each_same_view;
use crate::config::{hex_list, json_strings, listed_peers, PbftConfig};
use crate::error::{Halt, PbftError, Rejection, SigningFault, VerifyError, VoteDefect};
use crate::hash::sha512;
use crate::header::HeaderView;
use crate::hex_text::{hex_bytes, hex_text, law_hex_round_trip};
use crate::laws::{after_commit, lemma_next_block_continues};
use crate::message_log::{lemma_filter_positions, of_type_seq};
use crate::message_type::PbftMessageType;
use crate::model::{
    advanced, block_committed, block_seal_checked, ids_of, membership_changed, next_block_begun,
    same_members, seal_requesters, seal_responses_sent, view_updated, vote_checked, CriteriaView,
    World,
};
use crate::proto::MessageView;
use crate::service::{Exchange, ReplyView, RequestView, SignatureCheck};
use crate::state::{PhaseView, StateView};
use crate::timing::{longer_pause, scaled_duration, MAX_DURATION, Timeout, TimeoutState};
use crate::view_laws::{lemma_catchup_view, progress};
use crate::vote::VoteView;

verus! {

// ---------- Members and faults ----------

/// The number of faults that a node reckons with is the largest f for which there are 3f + 1 nodes,
/// and is at least one.
pub proof fn law_faults_fit_network(state: StateView)
    requires
        state.wf(),
    ensures
        3 * state.f + 1 <= state.peer_ids.len() < 3 * (state.f + 1) + 1,
        state.f >= 1,
{
}

/// A node starts after the chain head, in view 0, in the normal mode, waiting for a block, with no
/// timeout running, with the configured peers in their order, and reckons with the largest number of
/// faults that they tolerate.
pub proof fn law_node_starts_after_chain_head(id: Seq<u8>, head: u64, config: PbftConfig)
    requires
        config.valid(),
        config.peers@.len() <= u64::MAX,
        head < u64::MAX,
    ensures
        ({
            let state = StateView::initial(id, head, config);
            &&& state.id == id
            &&& state.seq_num == head + 1
            &&& state.view == 0
            &&& state.mode is Normal
            &&& state.phase is PrePreparing
            &&& state.peer_ids.len() == config.peers@.len()
            &&& forall|i: int|
                0 <= i < config.peers@.len() ==> #[trigger] state.peer_ids[i] == config.peers@[i]@
            &&& 3 * state.f + 1 <= config.peers@.len() < 3 * (state.f + 1) + 1
            &&& state.faulty_primary_timeout.state == TimeoutState::Inactive
            &&& state.faulty_primary_timeout.duration == config.faulty_primary_timeout
            &&& state.commit_timeout.state == TimeoutState::Inactive
            &&& state.commit_timeout.duration == config.commit_timeout
            &&& state.view_change_timeout.state == TimeoutState::Inactive
            &&& state.view_change_duration == config.view_change_duration
            &&& state.forced_view_change_period == config.forced_view_change_period
            &&& state.exponential_retry_base == config.exponential_retry_base
            &&& state.exponential_retry_max == config.exponential_retry_max
        }),
{
}

/// Whether two lists do not hold the same nodes.
pub open spec fn members_differ(a: Seq<Seq<u8>>, b: Seq<Seq<u8>>) -> bool {
    exists|id: Seq<u8>| #[trigger] a.contains(id) != b.contains(id)
}

proof fn lemma_members_differ(a: Seq<Seq<u8>>, b: Seq<Seq<u8>>)
    ensures
        members_differ(a, b) == !same_members(a, b),
{
    if members_differ(a, b) {
        let id = choose|id: Seq<u8>| #[trigger] a.contains(id) != b.contains(id);
        assert(a.to_set().contains(id) != b.to_set().contains(id));
    } else {
        assert forall|id: Seq<u8>| a.to_set().contains(id) == b.to_set().contains(id) by {
            assert(a.contains(id) == b.contains(id));
        }
        assert(a.to_set() =~= b.to_set());
    }
}

/// What a list of peers does to the members: if it holds other nodes than before, the node takes it
/// over, in its order, and reckons with the largest number of faults that it tolerates, unless it
/// tolerates none; if it holds the same nodes, nothing changes.
pub proof fn law_membership_follows_list(
    state: StateView,
    setting: Option<Seq<char>>,
    peers: Seq<Seq<u8>>,
)
    requires
        listed_peers(setting) == Some(peers),
        peers.len() <= u64::MAX,
    ensures
        ({
            let (after, result) = membership_changed(state, setting);
            let changed = members_differ(peers, state.peer_ids);
            &&& !changed ==> after == state && result == Ok::<bool, Halt>(false)
            &&& changed && peers.len() < 4 ==> after == state && result == Err::<bool, Halt>(
                Halt::NetworkTooSmall,
            )
            &&& changed && peers.len() >= 4 ==> {
                &&& result == Ok::<bool, Halt>(true)
                &&& after == (StateView { peer_ids: peers, f: after.f, ..state })
                &&& 3 * after.f + 1 <= peers.len() < 3 * (after.f + 1) + 1
            }
        }),
{
    lemma_members_differ(peers, state.peer_ids);
}

/// A setting that lists nothing stops the node, and changes nothing.
pub proof fn law_bad_setting_halts(state: StateView, setting: Option<Seq<char>>)
    requires
        listed_peers(setting) is None,
    ensures
        membership_changed(state, setting) == (
            state,
            Err::<bool, Halt>(Halt::BadPeersSetting),
        ),
{
}

/// What a block commit does to members and view, where no node asked for the seal of the block: the
/// node reads the on-chain list of peers as of the block. If the list holds other nodes than before,
/// the node takes it over, with the largest number of faults that it tolerates, and raises its view by
/// one; it stops if the list tolerates no fault. Where the members stay, the view is raised if and
/// only if the sequence number that the node goes on to is a multiple of the period after which the
/// primary changes.
pub proof fn law_commit_updates_members_and_view(
    world: World,
    block_id: Seq<u8>,
    setting: Option<Seq<char>>,
    peers: Seq<Seq<u8>>,
)
    requires
        world.wf(),
        world.state.seq_num + 2 <= u64::MAX,
        world.state.view < u64::MAX,
        world.state.phase matches PhaseView::Finishing(expected_id, _) && expected_id == block_id,
        forall|i: int|
            0 <= i < world.log.messages.len() ==> !((
            #[trigger] world.log.messages[i]).info().msg_type == PbftMessageType::SealRequest
                && world.log.messages[i].info().seq_num == world.state.seq_num),
        world.exchange.replies.len() > 0,
        world.exchange.replies[0] == ReplyView::PeersSetting(setting),
        listed_peers(setting) == Some(peers),
        peers.len() <= u64::MAX,
    ensures
        ({
            let (after, result) = block_committed(world, block_id);
            let changed = members_differ(peers, world.state.peer_ids);
            let forced = (world.state.seq_num + 1) % (world.state.forced_view_change_period as int)
                == 0;
            &&& changed && peers.len() < 4 ==> result == Err::<(), PbftError>(
                PbftError::Halted(Halt::NetworkTooSmall),
            )
            &&& !(changed && peers.len() < 4) ==> {
                &&& after_commit(world, block_id) is Some
                &&& after_commit(world, block_id)->0.state.view == world.state.view + (if changed
                    || forced {
                    1int
                } else {
                    0
                })
                &&& after.state.view >= after_commit(world, block_id)->0.state.view
                &&& changed ==> after.state.peer_ids == peers && 3 * after.state.f + 1
                    <= peers.len() < 3 * (after.state.f + 1) + 1
                &&& !changed ==> after.state.peer_ids == world.state.peer_ids && after.state.f
                    == world.state.f
            }
            &&& exists|i: int|
                world.exchange.requests.len() <= i < after.exchange.requests.len()
                    && #[trigger] after.exchange.requests[i] == (RequestView::GetPeersSetting {
                    block_id,
                })
        }),
{
    lemma_members_differ(peers, world.state.peer_ids);
    let next = advanced(world, block_id);
    let pred = of_type_seq(PbftMessageType::SealRequest, (next.state.seq_num - 1) as u64);
    let places = lemma_filter_positions(world.log.messages, pred);
    if places.len() > 0 {
        assert(pred(world.log.messages[places[0]]));
    }
    assert(seal_requesters(next) =~= Seq::<Seq<u8>>::empty());
    assert(seal_responses_sent(next, seal_requesters(next)) == (next, Ok::<(), PbftError>(())));
    let (updated, result) = view_updated(next, block_id);
    let n = next.exchange.requests.len() as int;
    assert(updated.exchange.requests[n] == (RequestView::GetPeersSetting { block_id }));
    let after = block_committed(world, block_id).0;
    if result is Ok {
        let begun = after_commit(world, block_id)->0;
        lemma_next_block_continues(begun, block_id, world.state.phase->Finishing_1);
        lemma_next_view_kept(begun, block_id, world.state.phase->Finishing_1);
        assert(after.exchange.requests[n] == updated.exchange.requests[n]);
    }
    assert(after.exchange.requests[n] == (RequestView::GetPeersSetting { block_id }));
}

/// Going on to the next block does not lower the view.
proof fn lemma_next_view_kept(world: World, block_id: Seq<u8>, catching_up: bool)
    ensures
        next_block_begun(world, block_id, catching_up).0.state.view
            >= world.state.view,
{
    let sealed_next = world.log.blocks_with_num((world.state.seq_num + 1) as u64);
    if sealed_next.len() > 0 {
        let (exchange, checked) = block_seal_checked(
            world.exchange,
            world.log,
            world.state,
            sealed_next[0],
        );
        match checked {
            Ok(seal) => {
                lemma_catchup_view(World { exchange, ..world }, seal, true);
            },
            Err(_) => {},
        }
    } else if !catching_up {
        let reset = World { state: world.state.reset(), ..world };
        lemma_each_same_view(
            reset,
            ids_of(reset.log.blocks_with_num(reset.state.seq_num)),
        );
    }
}

/// A setting that lists texts which write IDs in hexadecimal lists those IDs, in that order.
pub proof fn law_peers_are_listed_in_order(
    text: Seq<char>,
    list: Seq<Seq<char>>,
    peers: Seq<Seq<u8>>,
)
    requires
        json_strings(text) == Some(list),
        list.len() == peers.len(),
        forall|i: int| 0 <= i < list.len() ==> #[trigger] list[i] == hex_text(peers[i]),
    ensures
        listed_peers(Some(text)) == Some(peers),
{
    assert forall|i: int| 0 <= i < list.len() implies hex_bytes(#[trigger] list[i]) == Some(
        peers[i],
    ) by {
        law_hex_round_trip(peers[i]);
    }
    assert(hex_list(list)->0 =~= peers);
}

/// A setting that is unset, or is no list of texts, or lists a text that writes no ID, lists nothing.
pub proof fn law_bad_setting_lists_nothing(text: Seq<char>)
    ensures
        listed_peers(None) is None,
        json_strings(text) is None ==> listed_peers(Some(text)) is None,
        json_strings(text) matches Some(list) && (exists|i: int|
            0 <= i < list.len() && hex_bytes(#[trigger] list[i]) is None) ==> listed_peers(
            Some(text),
        ) is None,
{
}

// ---------- Phases ----------

/// The algorithm goes through its four phases in turn, from each to the next and from the last to the
/// first, and in no other way.
pub proof fn law_phases_follow_in_turn(phase: PhaseView, next: PhaseView)
    ensures
        phase.leads_to(next) <==> progress(next) == (progress(phase) + 1) % 4,
{
}

// ---------- Timeouts ----------

/// A timeout that was started runs out when more time than its duration has passed since, and not
/// before; one that was not started, or was stopped, does not run out.
pub proof fn law_timeout_runs_for_its_duration(duration: u128, start: u128, now: u128)
    ensures
        ({
            let timeout = Timeout::fresh(duration).started_at(start);
            &&& timeout.run_out(now) <==> now > start + duration
            &&& !timeout.stopped().run_out(now)
            &&& !Timeout::fresh(duration).run_out(now)
            &&& !timeout.run_out(now) ==> timeout.checked_at(now) == timeout
        }),
{
}

/// A timeout that was found to have run out stays so until it is started or stopped; started again,
/// it runs for its duration again.
pub proof fn law_expired_timeout_stays_expired(timeout: Timeout, now: u128, later: u128, last: u128)
    requires
        timeout.run_out(now),
    ensures
        timeout.checked_at(now).state == TimeoutState::Expired,
        timeout.checked_at(now).run_out(later),
        !timeout.checked_at(now).stopped().run_out(later),
        timeout.checked_at(now).started_at(later).run_out(last) <==> last > later
            + timeout.duration,
{
}

/// A view change that goes through up to 2^32 - 1 views may take as many times the duration of one,
/// if that is a duration at all.
pub proof fn law_view_change_time_grows_with_views(duration: u128, views: u64)
    requires
        views <= u32::MAX,
    ensures
        duration * views <= MAX_DURATION ==> scaled_duration(duration, views) == Some(
            (duration * views) as u128,
        ),
        duration * views > MAX_DURATION ==> scaled_duration(duration, views) is None,
{
    assert(views % 0x1_0000_0000 == views);
}

/// The pause between tries is doubled each time, up to the longest.
pub proof fn law_pauses_double_up_to_longest(pause: u128, longest: u128)
    requires
        pause <= longest,
    ensures
        pause <= longer_pause(pause, longest) <= longest,
        2 * pause <= longest ==> longer_pause(pause, longest) == 2 * pause,
        2 * pause > longest ==> longer_pause(pause, longest) == longest,
{
}

// ---------- Votes ----------

/// How a vote is judged whose message and header can be read: it must be of the expected kind, its
/// header must be signed with the key that the header names, the header must hold the hash of the
/// message, and the message must be for what it must be for; then it is the vote of the node that
/// the message names.
pub proof fn law_vote_judged(
    exchange: Exchange,
    vote: VoteView,
    kind: PbftMessageType,
    criteria: CriteriaView,
    message: MessageView,
    header: HeaderView,
    check: SignatureCheck,
)
    requires
        MessageView::decode(vote.message_bytes) == Some(message),
        HeaderView::decode(vote.header_bytes) == Some(header),
        exchange.replies.len() > 0,
        exchange.replies[0] == ReplyView::Signature(check),
    ensures
        ({
            let (after, result) = vote_checked(exchange, vote, kind, criteria);
            let fits = match criteria {
                CriteriaView::View(view) => message.info.view == view,
                CriteriaView::Block(block_id) => message.block_id == block_id,
            };
            let refused = |rejection: Rejection|
                Err::<Seq<u8>, VerifyError>(VerifyError::Rejected(rejection));
            &&& message.info.msg_type != kind ==> after == exchange && result == refused(
                Rejection::InvalidMessage(VoteDefect::WrongType),
            )
            &&& message.info.msg_type == kind ==> {
                &&& after.requests == exchange.requests.push(
                    RequestView::VerifySignature {
                        signature: hex_text(vote.header_signature),
                        message: vote.header_bytes,
                        public_key: hex_text(header.signer_id),
                    },
                )
                &&& check == SignatureCheck::Invalid ==> result == refused(
                    Rejection::SigningError(SigningFault::BadSignature),
                )
                &&& check != SignatureCheck::Valid ==> (result matches Err(
                    VerifyError::Rejected(Rejection::SigningError(_)),
                ))
                &&& check == SignatureCheck::Valid && sha512(vote.message_bytes)
                    != header.content_sha512 ==> result == refused(
                    Rejection::SigningError(SigningFault::HashMismatch),
                )
                &&& check == SignatureCheck::Valid && sha512(vote.message_bytes)
                    == header.content_sha512 && !fits ==> result == refused(
                    Rejection::InvalidMessage(
                        match criteria {
                            CriteriaView::View(_) => VoteDefect::WrongView,
                            CriteriaView::Block(_) => VoteDefect::WrongBlock,
                        },
                    ),
                )
                &&& check == SignatureCheck::Valid && sha512(vote.message_bytes)
                    == header.content_sha512 && fits ==> result == Ok::<Seq<u8>, VerifyError>(
                    message.info.signer_id,
                )
            }
        }),
{
}

} // verus!
