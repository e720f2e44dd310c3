//! What holds once the validator has committed a block, and of catching up.

use vstd::prelude::*;

use crate::block::BlockView;
use crate::config::listed_peers;
use crate::error::PbftError;
use crate::frame::lemma_all_logged_continues;
use crate::laws::{
    after_commit, brings_seal, law_block_continues, lemma_next_block_continues,
    lemma_responses_keep, lemma_view_updated_keeps,
};
use crate::message::{ContentView, ParsedView};
use crate::message_log::{lemma_filter_positions, recent_block, with_id, with_num, LogView};
use crate::message_type::PbftMessageType;
use crate::model::{
    advanced, all_logged, block_committed, block_received, block_seal_checked, caught_up,
    commit_handled, ids_of, message_received, next_block_begun, own_message, preparing_each_tried,
    preparing_tried, preparing_world, same_members, seal_checked, seal_requesters,
    seal_responses_sent, view_updated, vote_messages, CriteriaView, World,
};
use crate::proto::MessageView;
use crate::seal_laws::law_votes_accepted;
use crate::service::{ReplyView, RequestView};
use crate::state::{tolerated_faults, PhaseView, StateView};
use crate::vote::{SealResponseView, SealView, VoteView};

verus! {

// ---------- The members of the network ----------

/// The on-chain list of peers that the validator reports once a block was committed; `None` where
/// the node does not get it.
pub open spec fn reported_peers(world: World, block_id: Seq<u8>) -> Option<Seq<Seq<u8>>> {
    let next = advanced(world, block_id);
    let answered = seal_responses_sent(next, seal_requesters(next)).0;
    match answered.exchange.setting_read(block_id).1 {
        Ok(setting) => listed_peers(setting),
        Err(_) => None,
    }
}

/// Whenever a block was committed and the node goes on to the next, it has taken over the on-chain
/// list of peers, also where a view change is forced: if the members are others than before, the
/// peers are those of the list, and the number of faults that they tolerate goes with it. The view
/// is raised by one if the members changed or a view change is forced, and is kept otherwise.
pub proof fn law_members_taken_over(world: World, block_id: Seq<u8>)
    requires
        world.state.seq_num < u64::MAX,
        world.state.phase matches PhaseView::Finishing(expected_id, _) && expected_id == block_id,
        after_commit(world, block_id) is Some,
    ensures
        reported_peers(world, block_id) is Some,
        ({
            let peers = reported_peers(world, block_id)->0;
            let changed = !same_members(peers, world.state.peer_ids);
            let forced = (world.state.seq_num + 1) % (world.state.forced_view_change_period as int)
                == 0;
            let after = block_committed(world, block_id).0.state;
            &&& same_members(after.peer_ids, peers)
            &&& changed ==> after.peer_ids == peers && after.f == tolerated_faults(
                peers.len(),
            ) as u64
            &&& changed && peers.len() <= u64::MAX ==> 3 * after.f + 1 <= peers.len() < 3 * (after.f
                + 1) + 1
            &&& !changed ==> after.peer_ids == world.state.peer_ids && after.f == world.state.f
            &&& after_commit(world, block_id)->0.state.view == world.state.view + (if changed
                || forced {
                1int
            } else {
                0
            })
        }),
{
    let next = advanced(world, block_id);
    lemma_responses_keep(next, seal_requesters(next));
    let answered = seal_responses_sent(next, seal_requesters(next)).0;
    lemma_view_updated_keeps(answered, block_id);
    lemma_next_block_continues(
        after_commit(world, block_id)->0,
        block_id,
        world.state.phase->Finishing_1,
    );
}

// ---------- Catching up ----------

/// The message by which the node asks for the seal of the block that it works on.
pub open spec fn seal_request_message(state: StateView) -> ParsedView {
    own_message(
        state,
        PbftMessageType::SealRequest,
        state.view,
        state.seq_num,
        Seq::empty(),
    )
}

/// A node that is catching up, and has no block that holds a seal for the next one, asks the other
/// nodes for that seal and no longer waits for the validator.
pub proof fn law_final_seal_requested(world: World, block_id: Seq<u8>)
    requires
        world.state.seq_num < u64::MAX,
        world.state.phase == PhaseView::Finishing(block_id, true),
        after_commit(world, block_id) matches Some(next) && next.log.blocks_with_num(
            (next.state.seq_num + 1) as u64,
        ).len() == 0,
    ensures
        ({
            let next = after_commit(world, block_id)->0;
            let asked = block_committed(world, block_id).0;
            let request = seal_request_message(next.state);
            &&& asked.state == next.state.in_phase(PhaseView::PrePreparing)
            &&& asked.exchange.requests == next.exchange.requests.push(
                RequestView::Broadcast {
                    msg_type: PbftMessageType::SealRequest,
                    payload: request.message_bytes,
                },
            )
            &&& asked.exchange.replies == next.exchange.replies
        }),
{
}

/// Whether the votes are messages for the given view.
pub open spec fn votes_for_view(votes: Seq<VoteView>, view: u64) -> bool {
    forall|i: int|
        #![trigger votes[i]]
        0 <= i < votes.len() ==> (MessageView::decode(votes[i].message_bytes) matches Some(message)
            && message.info.view == view)
}

proof fn lemma_all_taken(world: World, messages: Seq<ParsedView>)
    requires
        forall|i: int|
            #![trigger messages[i]]
            0 <= i < messages.len() ==> messages[i].info().view == world.state.view,
    ensures
        all_logged(world, messages).1 == Ok::<(), PbftError>(()),
    decreases messages.len(),
{
    if messages.len() > 0 {
        lemma_all_taken(world, messages.drop_last());
        lemma_all_logged_continues(world, messages.drop_last());
        let taken = all_logged(world, messages.drop_last()).1;
        assert(taken->Ok_0 == ());
    }
}

/// A seal whose votes are for one view, the node's own or a later one, commits its block.
pub proof fn lemma_seal_commits(world: World, seal: SealView, again: bool, view: u64)
    requires
        seal.commit_votes.len() > 0,
        votes_for_view(seal.commit_votes, view),
        view >= world.state.view,
        world.exchange.replies.len() > 0,
        world.exchange.replies[0] == ReplyView::Done,
    ensures
        caught_up(world, seal, again).1 == Ok::<(), PbftError>(()),
        caught_up(world, seal, again).0.exchange.requests == world.exchange.requests.push(
            RequestView::CommitBlock { block_id: seal.block_id },
        ),
        caught_up(world, seal, again).0.state.phase == PhaseView::Finishing(seal.block_id, again),
        caught_up(world, seal, again).0.state.view == view,
{
    let votes = seal.commit_votes;
    assert forall|i: int| 0 <= i < votes.len() implies ParsedView::from_vote(
        #[trigger] votes[i],
    ) is Some by {}
    let messages = vote_messages(votes)->0;
    assert(votes[0] == votes[0]);
    assert(messages[0].info().view == view);
    let at_view = World { state: StateView { view, ..world.state }, ..world };
    assert forall|i: int|
        #![trigger messages[i]]
        0 <= i < messages.len() implies messages[i].info().view == view by {
        assert(votes[i] == votes[i]);
    }
    lemma_all_taken(at_view, messages);
    lemma_all_logged_continues(at_view, messages);
}

/// A node that has not committed the current block yet, and gets a valid seal for it from a peer,
/// asks for the block to be committed, and waits to hear of it without going on to catch up. The
/// votes of the seal must be for one view that is not before the node's own.
pub proof fn law_valid_seal_commits(
    world: World,
    message: ParsedView,
    response: SealResponseView,
    view: u64,
)
    requires
        world.wf(),
        world.state.peer_ids.contains(message.info().signer_id),
        !world.state.view_changing(),
        !(world.state.phase is Finishing),
        message.msg_type() == PbftMessageType::SealResponse,
        message.message == ContentView::SealResponse(response),
        brings_seal(world, message, response.seal.block_id),
        votes_for_view(response.seal.commit_votes, view),
        view >= world.state.view,
        ({
            let checked = seal_checked(
                world.exchange,
                world.state,
                response.seal,
                response.info.signer_id,
            ).0;
            checked.replies.len() > 0 && checked.replies[0] == ReplyView::Done
        }),
    ensures
        ({
            let block_id = response.seal.block_id;
            let checked = seal_checked(
                world.exchange,
                world.state,
                response.seal,
                response.info.signer_id,
            ).0;
            let (after, result) = message_received(world, message);
            &&& result == Ok::<(), PbftError>(())
            &&& after.exchange.requests == checked.requests.push(
                RequestView::CommitBlock { block_id },
            )
            &&& after.state.phase == PhaseView::Finishing(block_id, false)
            &&& after.state.view == view
        }),
{
    let seal = response.seal;
    law_votes_accepted(
        world.exchange,
        seal.commit_votes,
        PbftMessageType::Commit,
        CriteriaView::Block(seal.block_id),
    );
    let (exchange, checked) = seal_checked(
        world.exchange,
        world.state,
        seal,
        response.info.signer_id,
    );
    lemma_seal_commits(World { exchange, ..world }, seal, false, view);
}

/// Catching up comes to an end: when a node that is catching up has no block that holds a seal for
/// the next one, a valid seal for it from a peer makes the node ask for that block to be committed,
/// and wait to hear of it as if it had not been catching up.
pub proof fn law_catchup_ends(
    world: World,
    block_id: Seq<u8>,
    message: ParsedView,
    response: SealResponseView,
    view: u64,
)
    requires
        world.state.seq_num < u64::MAX,
        world.state.phase == PhaseView::Finishing(block_id, true),
        !world.state.view_changing(),
        after_commit(world, block_id) matches Some(next) && next.log.blocks_with_num(
            (next.state.seq_num + 1) as u64,
        ).len() == 0,
        ({
            let asked = block_committed(world, block_id).0;
            let checked = seal_checked(
                asked.exchange,
                asked.state,
                response.seal,
                response.info.signer_id,
            ).0;
            &&& asked.wf()
            &&& asked.state.peer_ids.contains(message.info().signer_id)
            &&& message.msg_type() == PbftMessageType::SealResponse
            &&& message.message == ContentView::SealResponse(response)
            &&& brings_seal(asked, message, response.seal.block_id)
            &&& votes_for_view(response.seal.commit_votes, view)
            &&& view >= asked.state.view
            &&& checked.replies.len() > 0
            &&& checked.replies[0] == ReplyView::Done
        }),
    ensures
        ({
            let asked = block_committed(world, block_id).0;
            let (after, result) = message_received(asked, message);
            &&& result == Ok::<(), PbftError>(())
            &&& after.exchange.requests.last() == (RequestView::CommitBlock {
                block_id: response.seal.block_id,
            })
            &&& after.state.phase == PhaseView::Finishing(response.seal.block_id, false)
        }),
{
    let asked = block_committed(world, block_id).0;
    let next = advanced(world, block_id);
    lemma_responses_keep(next, seal_requesters(next));
    lemma_view_updated_keeps(seal_responses_sent(next, seal_requesters(next)).0, block_id);
    law_final_seal_requested(world, block_id);
    law_valid_seal_commits(asked, message, response, view);
}

// ---------- Hearing of a block twice ----------

/// Whether blocks are at the heights that the given function tells from their IDs: the number of
/// each block in the log is the height of its ID, and its previous block is one below.
pub open spec fn at_heights(log: LogView, height: spec_fn(Seq<u8>) -> int) -> bool {
    forall|i: int|
        #![trigger log.blocks[i]]
        0 <= i < log.blocks.len() ==> {
            &&& height(log.blocks[i].block_id) == log.blocks[i].block_num
            &&& height(log.blocks[i].previous_id) == log.blocks[i].block_num - 1
        }
}

/// If the height of every block can be told from its ID, then the previous block of each block in
/// the log is one below it: a new block is taken only if that holds of it.
pub proof fn law_new_block_at_height(
    world: World,
    block: BlockView,
    height: spec_fn(Seq<u8>) -> int,
)
    requires
        at_heights(world.log, height),
        height(block.block_id) == block.block_num,
    ensures
        at_heights(block_received(world, block).0.log, height),
{
    law_block_continues(world, block);
    let after = block_received(world, block).0.log;
    if after.blocks != world.log.blocks {
        assert(after.blocks == world.log.with_block(block).blocks);
        let places = lemma_filter_positions(world.log.blocks, with_id(block.previous_id));
        assert(world.log.blocks[places[0]].block_id == block.previous_id);
    }
}

proof fn lemma_collected_at_heights(log: LogView, seq_num: u64, height: spec_fn(Seq<u8>) -> int)
    requires
        at_heights(log, height),
    ensures
        at_heights(log.collected(seq_num), height),
{
    let places = lemma_filter_positions(log.blocks, recent_block(seq_num));
    let kept = log.collected(seq_num).blocks;
    if log.messages.len() >= log.max_log_size {
        assert forall|i: int| #![trigger kept[i]] 0 <= i < kept.len() implies kept[i]
            == log.blocks[places[i]] && 0 <= places[i] < log.blocks.len() by {}
    }
}

proof fn lemma_commit_phase(world: World, message: ParsedView)
    ensures
        ({
            let phase = commit_handled(world, message).0.state.phase;
            phase == world.state.phase || phase == PhaseView::Finishing(message.block_id(), false)
        }),
{
}

proof fn lemma_preparing_phase(world: World, block_id: Seq<u8>)
    ensures
        ({
            let phase = preparing_tried(world, block_id).0.state.phase;
            phase is Finishing ==> phase == world.state.phase || phase == PhaseView::Finishing(
                block_id,
                false,
            )
        }),
{
    let preparing = preparing_world(world);
    let prepare = own_message(
        preparing.state,
        PbftMessageType::Prepare,
        preparing.state.view,
        preparing.state.seq_num,
        block_id,
    );
    let logged = preparing.announced(prepare).logged(prepare).0;
    let committing = World { state: logged.state.in_phase(PhaseView::Committing), ..logged };
    let commit = own_message(
        committing.state,
        PbftMessageType::Commit,
        committing.state.view,
        committing.state.seq_num,
        block_id,
    );
    lemma_commit_phase(committing.announced(commit), commit);
}

/// Trying to prepare blocks commits none but those.
proof fn lemma_preparing_each_phase(world: World, block_ids: Seq<Seq<u8>>)
    requires
        !(world.state.phase is Finishing),
    ensures
        preparing_each_tried(world, block_ids).0.state.phase matches PhaseView::Finishing(id, _)
            ==> block_ids.contains(id),
    decreases block_ids.len(),
{
    if block_ids.len() > 0 {
        let front = block_ids.drop_last();
        let last = block_ids.last();
        lemma_preparing_each_phase(world, front);
        let before = preparing_each_tried(world, front).0;
        lemma_preparing_phase(before, last);
        assert(block_ids[block_ids.len() - 1] == last);
        match before.state.phase {
            PhaseView::Finishing(id, _) => {
                assert(block_ids[front.index_of(id)] == id);
            },
            _ => {},
        }
    }
}

/// A block that was committed is not the next one that the node waits for.
proof fn lemma_next_block_differs(
    world: World,
    block_id: Seq<u8>,
    catching_up: bool,
    height: spec_fn(Seq<u8>) -> int,
)
    requires
        1 <= world.state.seq_num < u64::MAX,
        at_heights(world.log, height),
        height(block_id) < world.state.seq_num,
        next_block_begun(world, block_id, catching_up).1 is Ok,
    ensures
        next_block_begun(world, block_id, catching_up).0.state.phase matches PhaseView::Finishing(
            id,
            _,
        ) ==> id != block_id,
{
    let seq_num = world.state.seq_num;
    let sealed_next = world.log.blocks_with_num((seq_num + 1) as u64);
    if sealed_next.len() > 0 {
        let next_places = lemma_filter_positions(world.log.blocks, with_num((seq_num + 1) as u64));
        assert(world.log.blocks[next_places[0]] == sealed_next[0]);
        let (exchange, checked) = block_seal_checked(
            world.exchange,
            world.log,
            world.state,
            sealed_next[0],
        );
        let seal = checked->Ok_0;
        lemma_catchup_phase(World { exchange, ..world }, seal);
    } else if !catching_up {
        let reset = World { state: world.state.reset(), ..world };
        let blocks = reset.log.blocks_with_num(seq_num);
        let places = lemma_filter_positions(world.log.blocks, with_num(seq_num));
        lemma_preparing_each_phase(reset, ids_of(blocks));
        let tried = preparing_each_tried(reset, ids_of(blocks)).0;
        match tried.state.phase {
            PhaseView::Finishing(id, _) => {
                let at = ids_of(blocks).index_of(id);
                assert(world.log.blocks[places[at]] == blocks[at]);
            },
            _ => {},
        }
    }
}

proof fn lemma_catchup_phase(world: World, seal: SealView)
    requires
        caught_up(world, seal, true).1 is Ok,
    ensures
        caught_up(world, seal, true).0.state.phase == PhaseView::Finishing(seal.block_id, true),
{
}

/// Once a block was committed, hearing of it again changes nothing and asks for nothing, if the
/// height of every block can be told from its ID.
pub proof fn law_block_commit_counts_once(
    world: World,
    block_id: Seq<u8>,
    height: spec_fn(Seq<u8>) -> int,
)
    requires
        world.state.seq_num + 2 <= u64::MAX,
        world.state.phase matches PhaseView::Finishing(expected_id, _) && expected_id == block_id,
        at_heights(world.log, height),
        height(block_id) == world.state.seq_num,
        block_committed(world, block_id).1 is Ok,
    ensures
        block_committed(block_committed(world, block_id).0, block_id) == (
            block_committed(world, block_id).0,
            Ok::<(), PbftError>(()),
        ),
        at_heights(block_committed(world, block_id).0.log, height),
{
    let next = advanced(world, block_id);
    lemma_responses_keep(next, seal_requesters(next));
    let answered = seal_responses_sent(next, seal_requesters(next)).0;
    lemma_view_updated_keeps(answered, block_id);
    let updated = view_updated(answered, block_id).0;
    let begun = World { log: updated.log.collected(updated.state.seq_num), ..updated };
    let catching_up = world.state.phase->Finishing_1;
    lemma_collected_at_heights(updated.log, updated.state.seq_num, height);
    lemma_next_block_differs(begun, block_id, catching_up, height);
    lemma_next_block_continues(begun, block_id, catching_up);
}

} // verus!
