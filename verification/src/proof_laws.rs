//! What the proofs are made of that the node builds and uses, told by the messages in the log.

use vstd::prelude::*;

use crate::block::BlockView;
use crate::commit_laws::{lemma_seal_commits, votes_for_view};
use crate::config::listed_peers;
use crate::error::{
    InternalFault, MessageDefect, PbftError, Rejection, SealFault, ServiceCall, Unparsed,
    VerifyError, VoteDefect,
};
use crate::evidence::{
    first_block_at, in_turn, lemma_first_block, lemma_found_block, lemma_places_counted, no_block,
};
use crate::frame::lemma_all_logged_continues;
use crate::message::{ContentView, ParsedView};
use crate::message_log::{lemma_filter_positions, of_type_seq, LogView};
use crate::message_type::PbftMessageType;
use crate::model::{
    all_logged, block_seal_checked, built_seal, caught_up, first_quorum, last_commits,
    message_received, new_view_checked, not_own, publishing_tried, same_block_and_view,
    seal_checked, vote_messages, votes_checked, CriteriaView, World,
};
use crate::proto::{InfoView, MessageView};
use crate::seal_laws::{law_seal_accepted, law_votes_accepted, seal_valid, voters, votes_valid};
use crate::service::{Exchange, ReplyView, RequestView};
use crate::state::{PhaseView, StateView};
use crate::timing::TimeoutState;
use crate::vote::{NewViewView, SealResponseView, SealView, VoteView};

verus! {

// ---------- Building seals ----------

/// Whether a message is a `Commit` that another node sent, for the given view, sequence number and
/// block.
pub open spec fn commit_of_other(
    message: ParsedView,
    view: u64,
    seq_num: int,
    block_id: Seq<u8>,
) -> bool {
    &&& message.info().msg_type == PbftMessageType::Commit
    &&& message.info().view == view
    &&& message.info().seq_num == seq_num
    &&& message.block_id() == block_id
    &&& !message.from_self
}

/// Whether the messages at the given places, of which there are at least as many as required, are
/// `Commit`s of other nodes for one view, sequence number and block.
pub open spec fn commits_at(
    messages: Seq<ParsedView>,
    view: u64,
    seq_num: int,
    block_id: Seq<u8>,
    places: Set<int>,
    required: int,
) -> bool {
    &&& places.finite()
    &&& places.len() >= required
    &&& forall|i: int| #[trigger]
        places.contains(i) ==> 0 <= i < messages.len() && commit_of_other(
            messages[i],
            view,
            seq_num,
            block_id,
        )
}

/// Whether the log holds, for the given view and block, at least 2f `Commit`s of other nodes for the
/// block before the one that the node works on.
pub open spec fn last_committed(
    log: LogView,
    state: StateView,
    view: u64,
    block_id: Seq<u8>,
) -> bool {
    exists|places: Set<int>| #[trigger]
        commits_at(log.messages, view, state.seq_num - 1, block_id, places, 2 * state.f)
}

/// Whether a vote is what a message of a peer was signed with.
pub open spec fn vote_of(vote: VoteView, message: ParsedView) -> bool {
    &&& vote.header_bytes == message.header_bytes
    &&& vote.header_signature == message.header_signature
    &&& vote.message_bytes == message.message_bytes
}

/// Whether a vote is that of a `Commit` in the log from another node, for the given view, sequence
/// number and block.
pub open spec fn vote_in_log(
    log: LogView,
    view: u64,
    seq_num: int,
    block_id: Seq<u8>,
    vote: VoteView,
) -> bool {
    exists|i: int|
        0 <= i < log.messages.len() && commit_of_other(
            #[trigger] log.messages[i],
            view,
            seq_num,
            block_id,
        ) && vote_of(vote, log.messages[i])
}

/// Whether a message is among those that votes stand for.
pub open spec fn voted_with(votes: Seq<VoteView>, message: ParsedView) -> bool {
    exists|k: int| 0 <= k < votes.len() && vote_of(#[trigger] votes[k], message)
}

/// Whether a seal is made of the `Commit`s of other nodes for its block in the given view: it holds
/// at least 2f votes, each that of such a `Commit` in the log, and those of all of them; and it names
/// the block before, as the block in the log does.
pub open spec fn made_of_commits(log: LogView, state: StateView, seal: SealView, view: u64) -> bool {
    &&& seal.commit_votes.len() >= 2 * state.f
    &&& forall|k: int|
        0 <= k < seal.commit_votes.len() ==> #[trigger] vote_in_log(
            log,
            view,
            state.seq_num - 1,
            seal.block_id,
            seal.commit_votes[k],
        )
    &&& forall|i: int|
        0 <= i < log.messages.len() && commit_of_other(
            log.messages[i],
            view,
            state.seq_num - 1,
            seal.block_id,
        ) ==> #[trigger] voted_with(seal.commit_votes, log.messages[i])
    &&& exists|at: int| #[trigger]
        first_block_at(log.blocks, at, seal.block_id) && log.blocks[at].previous_id
            == seal.previous_id
}

proof fn lemma_quorum_exists(messages: Seq<ParsedView>, required: int, from: int, at: int)
    requires
        0 <= from <= at < messages.len(),
        messages.filter(same_block_and_view(messages[at])).len() >= required,
    ensures
        first_quorum(messages, required, from) is Some,
    decreases messages.len() - from,
{
    if from < at {
        if messages.filter(same_block_and_view(messages[from])).len() < required {
            lemma_quorum_exists(messages, required, from + 1, at);
        }
    }
}

proof fn lemma_quorum_is_group(messages: Seq<ParsedView>, required: int, from: int) -> (at: int)
    requires
        from >= 0,
        first_quorum(messages, required, from) is Some,
    ensures
        from <= at < messages.len(),
        first_quorum(messages, required, from)->0 == messages.filter(
            same_block_and_view(messages[at]),
        ),
        first_quorum(messages, required, from)->0.len() >= required,
    decreases messages.len() - from,
{
    if messages.filter(same_block_and_view(messages[from])).len() >= required {
        from
    } else {
        lemma_quorum_is_group(messages, required, from + 1)
    }
}

/// Three filters one after the other take what meets all three.
proof fn lemma_filter_three<T>(
    list: Seq<T>,
    p: spec_fn(T) -> bool,
    q: spec_fn(T) -> bool,
    r: spec_fn(T) -> bool,
    all: spec_fn(T) -> bool,
)
    requires
        forall|x: T| #[trigger] all(x) == (p(x) && q(x) && r(x)),
    ensures
        list.filter(p).filter(q).filter(r) == list.filter(all),
    decreases list.len(),
{
    reveal(Seq::filter);
    if list.len() > 0 {
        lemma_filter_three(list.drop_last(), p, q, r, all);
        let front_p = list.drop_last().filter(p);
        let front_q = front_p.filter(q);
        assert(front_p.push(list.last()).drop_last() =~= front_p);
        assert(front_q.push(list.last()).drop_last() =~= front_q);
        assert(all(list.last()) == (p(list.last()) && q(list.last()) && r(list.last())));
    } else {
        assert(list.filter(p) =~= list);
        assert(list.filter(p).filter(q) =~= list);
        assert(list.filter(all) =~= list);
    }
}

proof fn lemma_group_in_log(log: LogView, state: StateView, message: ParsedView)
    requires
        state.seq_num >= 1,
    ensures
        last_commits(log, state).filter(same_block_and_view(message)) == log.messages.filter(
            |m: ParsedView|
                commit_of_other(
                    m,
                    message.info().view,
                    state.seq_num - 1,
                    message.block_id(),
                ),
        ),
{
    let all = |m: ParsedView|
        commit_of_other(m, message.info().view, state.seq_num - 1, message.block_id());
    lemma_filter_three(
        log.messages,
        of_type_seq(PbftMessageType::Commit, (state.seq_num - 1) as u64),
        not_own(),
        same_block_and_view(message),
        all,
    );
}

/// A seal that is built is made of the `Commit`s of other nodes for one block in one view.
pub proof fn law_built_seal_is_made_of_commits(log: LogView, state: StateView)
    requires
        state.seq_num >= 1,
    ensures
        built_seal(log, state) matches Ok(seal) ==> exists|view: u64| #[trigger]
            made_of_commits(log, state, seal, view),
{
    match built_seal(log, state) {
        Ok(seal) => {
            let commits = last_commits(log, state);
            let at = lemma_quorum_is_group(commits, 2 * state.f, 0);
            let found = first_quorum(commits, 2 * state.f, 0)->0;
            lemma_group_in_log(log, state, commits[at]);
            let view = commits[at].info().view;
            let wanted = |m: ParsedView|
                commit_of_other(m, view, state.seq_num - 1, commits[at].block_id());
            let places = lemma_filter_positions(log.messages, wanted);
            commits.lemma_filter_contains(same_block_and_view(commits[at]), at);
            assert(found.len() > 0);
            assert(log.messages[places[0]] == found[0]);
            assert(seal.block_id == commits[at].block_id());
            assert forall|k: int| 0 <= k < seal.commit_votes.len() implies #[trigger] vote_in_log(
                log,
                view,
                state.seq_num - 1,
                seal.block_id,
                seal.commit_votes[k],
            ) by {
                assert(log.messages[places[k]] == found[k]);
                assert(seal.commit_votes[k] == found[k].vote());
            }
            assert forall|i: int|
                0 <= i < log.messages.len() && commit_of_other(
                    log.messages[i],
                    view,
                    state.seq_num - 1,
                    seal.block_id,
                ) implies #[trigger] voted_with(seal.commit_votes, log.messages[i]) by {
                assert(wanted(log.messages[i]));
                log.messages.lemma_filter_contains(wanted, i);
                let k = found.index_of(log.messages[i]);
                assert(seal.commit_votes[k] == found[k].vote());
            }
            let place = lemma_found_block(log, seal.block_id);
            assert(first_block_at(log.blocks, place, seal.block_id));
            assert(made_of_commits(log, state, seal, view));
        },
        Err(_) => {},
    }
}

proof fn lemma_commits_found(log: LogView, state: StateView, view: u64, block_id: Seq<u8>)
    requires
        state.seq_num >= 1,
        state.f >= 1,
        last_committed(log, state, view, block_id),
    ensures
        first_quorum(last_commits(log, state), 2 * state.f, 0) is Some,
{
    let commits = last_commits(log, state);
    let places = choose|places: Set<int>| #[trigger]
        commits_at(log.messages, view, state.seq_num - 1, block_id, places, 2 * state.f);
    let first = places.choose();
    vstd::set_lib::lemma_set_empty_equivalency_len(places);
    assert(places.contains(first));
    let message = log.messages[first];
    lemma_group_in_log(log, state, message);
    let wanted = |m: ParsedView| commit_of_other(m, view, state.seq_num - 1, block_id);
    assert(wanted == |m: ParsedView|
        commit_of_other(m, message.info().view, state.seq_num - 1, message.block_id()));
    lemma_places_counted(log.messages, wanted, places);
    let is_commit = of_type_seq(PbftMessageType::Commit, (state.seq_num - 1) as u64);
    assert(is_commit(message));
    log.messages.lemma_filter_contains(is_commit, first);
    let by_kind = log.messages.filter(is_commit);
    by_kind.lemma_filter_contains(not_own(), by_kind.index_of(message));
    let at = commits.index_of(message);
    assert(commits[at] == message);
    lemma_quorum_exists(commits, 2 * state.f, 0, at);
}

proof fn lemma_found_committed(log: LogView, state: StateView)
    requires
        state.seq_num >= 1,
        first_quorum(last_commits(log, state), 2 * state.f, 0) is Some,
    ensures
        ({
            let found = first_quorum(last_commits(log, state), 2 * state.f, 0)->0;
            &&& found.len() > 0
            &&& last_committed(log, state, found[0].info().view, found[0].block_id())
        }),
{
    let commits = last_commits(log, state);
    let k = lemma_quorum_is_group(commits, 2 * state.f, 0);
    let found = first_quorum(commits, 2 * state.f, 0)->0;
    let chosen = commits[k];
    lemma_group_in_log(log, state, chosen);
    commits.lemma_filter_contains(same_block_and_view(chosen), k);
    let of_chosen = |m: ParsedView|
        commit_of_other(m, chosen.info().view, state.seq_num - 1, chosen.block_id());
    let found_at = lemma_filter_positions(log.messages, of_chosen);
    assert(log.messages[found_at[0]] == found[0]);
    lemma_places_as_set(found_at);
    assert forall|i: int| #[trigger] found_at.to_set().contains(i) implies 0 <= i
        < log.messages.len() && commit_of_other(
        log.messages[i],
        chosen.info().view,
        state.seq_num - 1,
        chosen.block_id(),
    ) by {
        let n = found_at.index_of(i);
        assert(found_at[n] == i);
        assert(of_chosen(log.messages[found_at[n]]));
    }
    assert(commits_at(
        log.messages,
        chosen.info().view,
        state.seq_num - 1,
        chosen.block_id(),
        found_at.to_set(),
        2 * state.f,
    ));
}

/// If the log holds at least 2f `Commit`s of other nodes, for one block in one view, whatever that
/// view is, at the sequence number before the one that the node works on, and it holds every block
/// of which that can be said, then the seal of the last block can be built.
pub proof fn law_seal_can_be_built(log: LogView, state: StateView, view: u64, block_id: Seq<u8>)
    requires
        state.seq_num >= 1,
        state.f >= 1,
        last_committed(log, state, view, block_id),
        forall|v: u64, id: Seq<u8>| #[trigger]
            last_committed(log, state, v, id) ==> !no_block(log.blocks, id),
    ensures
        built_seal(log, state) is Ok,
{
    lemma_commits_found(log, state, view, block_id);
    lemma_found_committed(log, state);
    let found = first_quorum(last_commits(log, state), 2 * state.f, 0)->0;
    let place = lemma_found_block(log, found[0].block_id());
}

proof fn lemma_places_as_set(places: Seq<int>)
    requires
        forall|i: int, j: int|
            #![trigger places[i], places[j]]
            0 <= i < j < places.len() ==> places[i] < places[j],
    ensures
        places.to_set().finite(),
        places.to_set().len() == places.len(),
{
    assert(places.no_duplicates()) by {
        assert forall|i: int, j: int|
            0 <= i < places.len() && 0 <= j < places.len() && i != j implies places[i]
            != places[j] by {
            if i < j {
                assert(places[i] < places[j]);
            } else {
                assert(places[j] < places[i]);
            }
        }
    }
    places.unique_seq_to_set();
}

/// A seal is refused for want of `Commit`s only if for no block and no view the log holds 2f of
/// them, and for want of the block only if the log lacks a block that has them.
pub proof fn law_seal_refused_for_cause(log: LogView, state: StateView)
    requires
        state.seq_num >= 1,
        state.f >= 1,
    ensures
        built_seal(log, state) == Err::<SealView, SealFault>(SealFault::NoCommits) ==> forall|
            v: u64,
            id: Seq<u8>,
        | !#[trigger] last_committed(log, state, v, id),
        built_seal(log, state) == Err::<SealView, SealFault>(SealFault::NoBlock) ==> exists|
            v: u64,
            id: Seq<u8>,
        | #[trigger] last_committed(log, state, v, id) && no_block(log.blocks, id),
{
    assert forall|v: u64, id: Seq<u8>| #[trigger] last_committed(log, state, v, id) implies
        built_seal(log, state) != Err::<SealView, SealFault>(SealFault::NoCommits) by {
        lemma_commits_found(log, state, v, id);
    }
    if first_quorum(last_commits(log, state), 2 * state.f, 0) is Some {
        lemma_found_committed(log, state);
        let found = first_quorum(last_commits(log, state), 2 * state.f, 0)->0;
        let place = lemma_found_block(log, found[0].block_id());
    }
}

// ---------- Publishing blocks ----------

/// A node publishes nothing, and asks for nothing, unless it is its turn to be primary and it waits
/// for a block.
pub proof fn law_only_the_primary_in_turn_publishes(world: World)
    requires
        in_turn(world.state, world.state.view) != world.state.id || !(
        world.state.phase is PrePreparing),
    ensures
        publishing_tried(world) == (world, Ok::<(), PbftError>(())),
{
}

/// A primary that waits for a block after the first asks for a digest of the block that it started;
/// if there is one, and the seal of the last block can be built, it publishes the block with that
/// seal, in whatever view the last block was committed.
pub proof fn law_block_is_published_with_seal(world: World, view: u64, block_id: Seq<u8>)
    requires
        world.wf(),
        in_turn(world.state, world.state.view) == world.state.id,
        world.state.phase is PrePreparing,
        world.state.seq_num > 1,
        world.exchange.replies.len() > 0,
        world.exchange.replies[0] == ReplyView::Done,
        last_committed(world.log, world.state, view, block_id),
        forall|v: u64, id: Seq<u8>| #[trigger]
            last_committed(world.log, world.state, v, id) ==> !no_block(world.log.blocks, id),
    ensures
        ({
            let (after, result) = publishing_tried(world);
            let before = world.exchange.requests;
            &&& after.log == world.log
            &&& after.state == world.state
            &&& after.exchange.requests.len() == before.len() + 2
            &&& after.exchange.requests[before.len() as int] == RequestView::SummarizeBlock
            &&& exists|seal: SealView, v: u64|
                #![trigger made_of_commits(world.log, world.state, seal, v)]
                made_of_commits(world.log, world.state, seal, v) && after.exchange.requests[
                before.len() as int + 1] == (RequestView::FinalizeBlock { data: seal.encode() })
            &&& world.exchange.replies.len() > 1 && world.exchange.replies[1] == ReplyView::Done
                ==> result == Ok::<(), PbftError>(())
            &&& world.exchange.replies.len() > 1 && world.exchange.replies[1] == ReplyView::Failed
                ==> result == Err::<(), PbftError>(
                PbftError::ServiceError(ServiceCall::FinalizeBlock),
            )
        }),
{
    lemma_some_faults_tolerated(world.state);
    law_seal_can_be_built(world.log, world.state, view, block_id);
    law_built_seal_is_made_of_commits(world.log, world.state);
    let seal = built_seal(world.log, world.state)->Ok_0;
    let v = choose|v: u64| #[trigger] made_of_commits(world.log, world.state, seal, v);
    let after = publishing_tried(world).0;
    assert(after.exchange.requests[world.exchange.requests.len() as int + 1]
        == (RequestView::FinalizeBlock { data: seal.encode() }));
}

/// The first block is published without a seal, since nobody voted on the genesis block.
pub proof fn law_first_block_has_no_seal(world: World)
    requires
        in_turn(world.state, world.state.view) == world.state.id,
        world.state.phase is PrePreparing,
        world.state.seq_num == 1,
        world.exchange.replies.len() > 0,
        world.exchange.replies[0] == ReplyView::Done,
    ensures
        publishing_tried(world).0.exchange.requests == world.exchange.requests.push(
            RequestView::SummarizeBlock,
        ).push(RequestView::FinalizeBlock { data: Seq::empty() }),
{
}

/// A block of which there is no digest yet is not published, and that is no error.
pub proof fn law_unready_block_is_not_published(world: World)
    requires
        world.exchange.replies.len() > 0,
        world.exchange.replies[0] == ReplyView::Failed,
    ensures
        publishing_tried(world).1 == Ok::<(), PbftError>(()),
        publishing_tried(world).0.state == world.state,
        publishing_tried(world).0.exchange.requests.len() <= world.exchange.requests.len() + 1,
        in_turn(world.state, world.state.view) == world.state.id
            && world.state.phase is PrePreparing
            ==> publishing_tried(world).0.exchange.requests == world.exchange.requests.push(
            RequestView::SummarizeBlock,
        ),
{
}

/// A block after the first is never published without a seal that is made of `Commit`s for the last
/// one.
pub proof fn law_published_block_holds_seal(world: World, i: int)
    requires
        world.wf(),
        world.state.seq_num > 1,
        world.exchange.requests.len() <= i < publishing_tried(world).0.exchange.requests.len(),
        publishing_tried(world).0.exchange.requests[i] is FinalizeBlock,
    ensures
        exists|seal: SealView, v: u64|
            #![trigger made_of_commits(world.log, world.state, seal, v)]
            made_of_commits(world.log, world.state, seal, v) && publishing_tried(
                world,
            ).0.exchange.requests[i] == (RequestView::FinalizeBlock { data: seal.encode() }),
{
    law_built_seal_is_made_of_commits(world.log, world.state);
    let seal = built_seal(world.log, world.state)->Ok_0;
    let v = choose|v: u64| #[trigger] made_of_commits(world.log, world.state, seal, v);
    assert(made_of_commits(world.log, world.state, seal, v));
}

/// Where the seal of the last block cannot be built, nothing is published, and the node says why; a
/// node that asks for the seal gets none.
pub proof fn law_no_seal_no_block(world: World, message: ParsedView, fault: SealFault)
    requires
        built_seal(world.log, world.state) == Err::<SealView, SealFault>(fault),
    ensures
        in_turn(world.state, world.state.view) == world.state.id
            && world.state.phase is PrePreparing && world.state.seq_num > 1
            && world.exchange.replies.len() > 0 && world.exchange.replies[0] == ReplyView::Done
            ==> publishing_tried(world).1 == Err::<(), PbftError>(
            PbftError::InternalError(InternalFault::Seal(fault)),
        ) && publishing_tried(world).0.exchange.requests == world.exchange.requests.push(
            RequestView::SummarizeBlock,
        ),
        world.state.peer_ids.contains(message.info().signer_id) && world.state.mode is Normal
            && message.info().msg_type == PbftMessageType::SealRequest && message.info().seq_num + 1
            == world.state.seq_num ==> message_received(world, message) == (
            world,
            Err::<(), PbftError>(PbftError::InternalError(InternalFault::RequestedSeal(fault))),
        ),
{
}

// ---------- Handing out seals ----------

/// A network of the size that a node works in tolerates at least one fault.
pub proof fn lemma_some_faults_tolerated(state: StateView)
    requires
        state.wf(),
    ensures
        state.f >= 1,
{
}

/// A request for the seal of the last block is answered at once with that seal, sent to the node
/// that asks for it and to no other, in whatever view the block was committed.
pub proof fn law_seal_is_sent_on_request(
    world: World,
    message: ParsedView,
    view: u64,
    block_id: Seq<u8>,
)
    requires
        world.wf(),
        world.state.peer_ids.contains(message.info().signer_id),
        world.state.mode is Normal,
        message.info().msg_type == PbftMessageType::SealRequest,
        message.info().seq_num + 1 == world.state.seq_num,
        last_committed(world.log, world.state, view, block_id),
        forall|v: u64, id: Seq<u8>| #[trigger]
            last_committed(world.log, world.state, v, id) ==> !no_block(world.log.blocks, id),
    ensures
        ({
            let (after, result) = message_received(world, message);
            &&& after.log == world.log
            &&& after.state == world.state
            &&& exists|seal: SealView, v: u64|
                #![trigger made_of_commits(world.log, world.state, seal, v)]
                made_of_commits(world.log, world.state, seal, v) && after.exchange.requests
                    == world.exchange.requests.push(
                    RequestView::SendTo {
                        peer: message.info().signer_id,
                        msg_type: PbftMessageType::SealResponse,
                        payload: SealResponseView {
                            info: InfoView {
                                msg_type: PbftMessageType::SealResponse,
                                view: world.state.view,
                                seq_num: world.state.seq_num,
                                signer_id: world.state.id,
                            },
                            seal,
                        }.encode(),
                    },
                )
            &&& world.exchange.replies.len() > 0 && world.exchange.replies[0] == ReplyView::Done
                ==> result == Ok::<(), PbftError>(())
            &&& world.exchange.replies.len() > 0 && world.exchange.replies[0] == ReplyView::Failed
                ==> result == Err::<(), PbftError>(PbftError::ServiceError(ServiceCall::SendSeal))
        }),
{
    lemma_some_faults_tolerated(world.state);
    law_seal_can_be_built(world.log, world.state, view, block_id);
    law_built_seal_is_made_of_commits(world.log, world.state);
    let seal = built_seal(world.log, world.state)->Ok_0;
    let v = choose|v: u64| #[trigger] made_of_commits(world.log, world.state, seal, v);
    assert(made_of_commits(world.log, world.state, seal, v));
}

// ---------- Using seals ----------

/// A seal for a block that the node does not have is refused, and changes nothing.
pub proof fn law_seal_of_unknown_block_refused(
    world: World,
    message: ParsedView,
    response: SealResponseView,
)
    requires
        world.state.peer_ids.contains(message.info().signer_id),
        world.state.mode is Normal,
        !(world.state.phase is Finishing),
        message.info().msg_type == PbftMessageType::SealResponse,
        message.message == ContentView::SealResponse(response),
        no_block(world.log.blocks, response.seal.block_id),
    ensures
        message_received(world, message) == (
            world,
            Err::<(), PbftError>(PbftError::InvalidMessage(MessageDefect::UnknownSealedBlock)),
        ),
{
    let at = lemma_found_block(world.log, response.seal.block_id);
}

/// A seal for a block that is not the one at the sequence number that the node works on, or that
/// names another block before it, is refused, and changes nothing.
pub proof fn law_seal_of_other_block_refused(
    world: World,
    message: ParsedView,
    response: SealResponseView,
    at: int,
)
    requires
        world.state.peer_ids.contains(message.info().signer_id),
        world.state.mode is Normal,
        !(world.state.phase is Finishing),
        message.info().msg_type == PbftMessageType::SealResponse,
        message.message == ContentView::SealResponse(response),
        first_block_at(world.log.blocks, at, response.seal.block_id),
        world.log.blocks[at].block_num != world.state.seq_num || world.log.blocks[at].previous_id
            != response.seal.previous_id,
    ensures
        message_received(world, message).0 == world,
        world.log.blocks[at].block_num != world.state.seq_num ==> message_received(world, message).1
            == Err::<(), PbftError>(PbftError::InvalidMessage(MessageDefect::WrongSequenceNumber)),
        world.log.blocks[at].block_num == world.state.seq_num ==> message_received(world, message).1
            == Err::<(), PbftError>(
            PbftError::InvalidMessage(MessageDefect::Vote(VoteDefect::WrongPreviousId)),
        ),
{
    lemma_first_block(world.log, at, response.seal.block_id);
}

/// A seal that comes while the node waits for the validator to commit a block is ignored.
pub proof fn law_seal_ignored_while_waiting(
    world: World,
    message: ParsedView,
    response: SealResponseView,
)
    requires
        world.state.peer_ids.contains(message.info().signer_id),
        world.state.mode is Normal,
        world.state.phase is Finishing,
        message.info().msg_type == PbftMessageType::SealResponse,
        message.message == ContentView::SealResponse(response),
    ensures
        message_received(world, message) == (world, Ok::<(), PbftError>(())),
{
}

/// A seal for the block that the node works on is used if and only if it is a proof: if it is, the
/// node asks for the block to be committed, takes over the votes and their view, and waits to hear of
/// the block and for nothing else; if it is not, only what was asked in order to find out remains.
pub proof fn law_seal_is_used_if_valid(
    world: World,
    message: ParsedView,
    response: SealResponseView,
    at: int,
    view: u64,
)
    requires
        world.wf(),
        world.state.peer_ids.contains(message.info().signer_id),
        world.state.mode is Normal,
        !(world.state.phase is Finishing),
        message.info().msg_type == PbftMessageType::SealResponse,
        message.message == ContentView::SealResponse(response),
        first_block_at(world.log.blocks, at, response.seal.block_id),
        world.log.blocks[at].block_num == world.state.seq_num,
        world.log.blocks[at].previous_id == response.seal.previous_id,
        votes_for_view(response.seal.commit_votes, view),
        view >= world.state.view,
        world.exchange.replies.len() > response.seal.commit_votes.len() + 1,
        world.exchange.replies[response.seal.commit_votes.len() as int + 1] == ReplyView::Done,
    ensures
        ({
            let (after, result) = message_received(world, message);
            let seal = response.seal;
            let valid = seal_valid(
                seal,
                response.info.signer_id,
                world.state.f,
                world.exchange.replies,
            );
            &&& valid ==> {
                &&& result == Ok::<(), PbftError>(())
                &&& after.exchange.requests.last() == (RequestView::CommitBlock {
                    block_id: seal.block_id,
                })
                &&& after.state == (StateView {
                    view,
                    phase: PhaseView::Finishing(seal.block_id, false),
                    faulty_primary_timeout: after.state.faulty_primary_timeout,
                    ..world.state
                })
                &&& after.state.faulty_primary_timeout.state == TimeoutState::Inactive
                &&& votes_taken_over(after.log, seal.commit_votes)
            }
            &&& seal_checked(
                world.exchange,
                world.state,
                seal,
                response.info.signer_id,
            ).1 matches Err(VerifyError::Rejected(rejection)) ==> result == Err::<(), PbftError>(
                PbftError::InvalidMessage(MessageDefect::BadSeal(rejection)),
            )
            &&& !valid ==> result is Err && after.state == world.state && after.log == world.log
                && !(exists|i: int|
                world.exchange.requests.len() <= i < after.exchange.requests.len() && (
                #[trigger] after.exchange.requests[i]) is CommitBlock)
        }),
{
    let seal = response.seal;
    let signer_id = response.info.signer_id;
    lemma_first_block(world.log, at, seal.block_id);
    law_seal_accepted(world.exchange, world.state, seal, signer_id);
    law_votes_accepted(
        world.exchange,
        seal.commit_votes,
        PbftMessageType::Commit,
        CriteriaView::Block(seal.block_id),
    );
    let (exchange, checked) = seal_checked(world.exchange, world.state, seal, signer_id);
    lemma_seal_only_asks(world.exchange, world.state, seal, signer_id);
    if checked is Ok {
        assert(exchange.replies =~= world.exchange.replies.skip(
            seal.commit_votes.len() as int + 1,
        ));
        assert(exchange.replies[0] == ReplyView::Done);
        let verified = World { exchange, ..world };
        lemma_seal_commits(verified, seal, false, view);
        lemma_votes_taken_over(verified, seal, false);
    }
}

proof fn lemma_foreign_view_refused(world: World, messages: Seq<ParsedView>, at: int)
    requires
        0 <= at < messages.len(),
        messages[at].info().view != world.state.view,
        forall|k: int|
            0 <= k < messages.len() ==> (#[trigger] messages[k]).info().msg_type
                == PbftMessageType::Commit,
    ensures
        all_logged(world, messages).1 == Err::<(), PbftError>(
            PbftError::InvalidMessage(MessageDefect::WrongView),
        ),
    decreases messages.len(),
{
    let front = messages.drop_last();
    lemma_all_logged_continues(world, front);
    if at < front.len() {
        assert forall|k: int| 0 <= k < front.len() implies (#[trigger] front[k]).info().msg_type
            == PbftMessageType::Commit by {
            assert(front[k] == messages[k]);
        }
        lemma_foreign_view_refused(world, front, at);
    } else {
        lemma_only_view_matters(world, front);
    }
}

proof fn lemma_only_view_matters(world: World, messages: Seq<ParsedView>)
    ensures
        all_logged(world, messages).1 matches Err(error) ==> error == PbftError::InvalidMessage(
            MessageDefect::WrongView,
        ),
    decreases messages.len(),
{
    if messages.len() > 0 {
        lemma_only_view_matters(world, messages.drop_last());
    }
}

/// A seal whose votes are not all for one view, the node's own or a later one, commits nothing, even
/// if each of its votes is valid.
pub proof fn law_seal_of_mixed_views_refused(
    world: World,
    message: ParsedView,
    response: SealResponseView,
    at: int,
    vote: int,
)
    requires
        world.wf(),
        world.state.peer_ids.contains(message.info().signer_id),
        world.state.mode is Normal,
        !(world.state.phase is Finishing),
        message.info().msg_type == PbftMessageType::SealResponse,
        message.message == ContentView::SealResponse(response),
        first_block_at(world.log.blocks, at, response.seal.block_id),
        world.log.blocks[at].block_num == world.state.seq_num,
        world.log.blocks[at].previous_id == response.seal.previous_id,
        seal_valid(
            response.seal,
            response.info.signer_id,
            world.state.f,
            world.exchange.replies,
        ),
        0 <= vote < response.seal.commit_votes.len(),
        ({
            let votes = response.seal.commit_votes;
            let first = MessageView::decode(votes[0].message_bytes)->0.info.view;
            let view = MessageView::decode(votes[vote].message_bytes)->0.info.view;
            view != first || view < world.state.view
        }),
    ensures
        message_received(world, message).1 == Err::<(), PbftError>(
            PbftError::InvalidMessage(MessageDefect::WrongView),
        ),
        message_received(world, message).0.state.phase == world.state.phase,
        message_received(world, message).0.exchange == seal_checked(
            world.exchange,
            world.state,
            response.seal,
            response.info.signer_id,
        ).0,
{
    let seal = response.seal;
    let votes = seal.commit_votes;
    let signer_id = response.info.signer_id;
    lemma_first_block(world.log, at, seal.block_id);
    law_seal_accepted(world.exchange, world.state, seal, signer_id);
    let exchange = seal_checked(world.exchange, world.state, seal, signer_id).0;
    let verified = World { exchange, ..world };
    assert forall|k: int| 0 <= k < votes.len() implies ParsedView::from_vote(
        #[trigger] votes[k],
    ) is Some by {}
    let messages = vote_messages(votes)->0;
    assert forall|k: int| 0 <= k < messages.len() implies (#[trigger] messages[k]).info().msg_type
        == PbftMessageType::Commit by {
        assert(votes[k] == votes[k]);
    }
    assert(votes[0] == votes[0]);
    assert(votes[vote] == votes[vote]);
    let view = messages[0].info().view;
    let at_view = World {
        state: StateView {
            view: if view > world.state.view {
                view
            } else {
                world.state.view
            },
            ..world.state
        },
        ..verified
    };
    lemma_all_logged_continues(at_view, messages);
    if messages[vote].info().view != at_view.state.view {
        lemma_foreign_view_refused(at_view, messages, vote);
    } else {
        lemma_foreign_view_refused(at_view, messages, 0);
    }
}

/// Where the validator cannot commit the block of a valid seal, the node says so and goes on waiting
/// as it did before.
pub proof fn law_failed_catch_up_is_reported(
    world: World,
    message: ParsedView,
    response: SealResponseView,
    at: int,
    view: u64,
)
    requires
        world.wf(),
        world.state.peer_ids.contains(message.info().signer_id),
        world.state.mode is Normal,
        !(world.state.phase is Finishing),
        message.info().msg_type == PbftMessageType::SealResponse,
        message.message == ContentView::SealResponse(response),
        first_block_at(world.log.blocks, at, response.seal.block_id),
        world.log.blocks[at].block_num == world.state.seq_num,
        world.log.blocks[at].previous_id == response.seal.previous_id,
        votes_for_view(response.seal.commit_votes, view),
        view >= world.state.view,
        seal_valid(
            response.seal,
            response.info.signer_id,
            world.state.f,
            world.exchange.replies,
        ),
        world.exchange.replies.len() > response.seal.commit_votes.len() + 1,
        world.exchange.replies[response.seal.commit_votes.len() as int + 1] == ReplyView::Failed,
    ensures
        message_received(world, message).1 == Err::<(), PbftError>(
            PbftError::ServiceError(ServiceCall::CommitBlockWithCatchUp),
        ),
        message_received(world, message).0.state.phase == world.state.phase,
        message_received(world, message).0.state.seq_num == world.state.seq_num,
{
    let seal = response.seal;
    let signer_id = response.info.signer_id;
    lemma_first_block(world.log, at, seal.block_id);
    law_seal_accepted(world.exchange, world.state, seal, signer_id);
    law_votes_accepted(
        world.exchange,
        seal.commit_votes,
        PbftMessageType::Commit,
        CriteriaView::Block(seal.block_id),
    );
    let exchange = seal_checked(world.exchange, world.state, seal, signer_id).0;
    assert(exchange.replies =~= world.exchange.replies.skip(seal.commit_votes.len() as int + 1));
    let verified = World { exchange, ..world };
    lemma_votes_accepted_into_log(verified, seal, view);
}

proof fn lemma_votes_accepted_into_log(world: World, seal: SealView, view: u64)
    requires
        seal.commit_votes.len() > 0,
        votes_for_view(seal.commit_votes, view),
        view >= world.state.view,
        world.exchange.replies.len() > 0,
        world.exchange.replies[0] == ReplyView::Failed,
    ensures
        caught_up(world, seal, false).1 == Err::<(), PbftError>(
            PbftError::ServiceError(ServiceCall::CommitBlockWithCatchUp),
        ),
        caught_up(world, seal, false).0.state.phase == world.state.phase,
        caught_up(world, seal, false).0.state.seq_num == world.state.seq_num,
{
    let done = World {
        exchange: Exchange {
            replies: world.exchange.replies.update(0, ReplyView::Done),
            ..world.exchange
        },
        ..world
    };
    lemma_seal_commits(done, seal, false, view);
    let votes = seal.commit_votes;
    let messages = vote_messages(votes)->0;
    assert(votes[0] == votes[0]);
    assert(messages[0] == ParsedView::from_vote(votes[0])->0);
    let at_view = World { state: StateView { view, ..world.state }, ..world };
    let done_at_view = World { state: StateView { view, ..world.state }, ..done };
    lemma_same_logged(at_view, done_at_view, messages);
    lemma_all_logged_continues(at_view, messages);
    lemma_all_logged_continues(done_at_view, messages);
}

/// What the log takes does not depend on the exchange with the validator.
proof fn lemma_same_logged(one: World, other: World, messages: Seq<ParsedView>)
    requires
        one.log == other.log,
        one.state == other.state,
    ensures
        all_logged(one, messages).1 == all_logged(other, messages).1,
        all_logged(one, messages).0.log == all_logged(other, messages).0.log,
    decreases messages.len(),
{
    if messages.len() > 0 {
        lemma_same_logged(one, other, messages.drop_last());
        lemma_all_logged_continues(one, messages.drop_last());
        lemma_all_logged_continues(other, messages.drop_last());
    }
}

/// Whether the messages of all votes are in the log.
pub open spec fn votes_taken_over(log: LogView, votes: Seq<VoteView>) -> bool {
    forall|k: int|
        0 <= k < votes.len() ==> exists|i: int|
            0 <= i < log.messages.len() && (MessageView::decode(
                (#[trigger] votes[k]).message_bytes,
            ) matches Some(content) && (#[trigger] log.messages[i]).message == ContentView::Message(
                content,
            ))
}

proof fn lemma_all_among(world: World, messages: Seq<ParsedView>)
    requires
        all_logged(world, messages).1 is Ok,
    ensures
        forall|k: int|
            0 <= k < messages.len() ==> exists|i: int|
                0 <= i < all_logged(world, messages).0.log.messages.len() && (
                #[trigger] all_logged(world, messages).0.log.messages[i]).message == (
                #[trigger] messages[k]).message,
    decreases messages.len(),
{
    if messages.len() > 0 {
        let front = messages.drop_last();
        lemma_all_among(world, front);
        let before = all_logged(world, front).0;
        let after = all_logged(world, messages).0;
        let last = messages.last();
        assert forall|k: int| 0 <= k < messages.len() implies exists|i: int|
            0 <= i < after.log.messages.len() && (#[trigger] after.log.messages[i]).message == (
            #[trigger] messages[k]).message by {
            if k < front.len() {
                assert(front[k] == messages[k]);
                let i = choose|i: int|
                    0 <= i < before.log.messages.len() && (
                    #[trigger] before.log.messages[i]).message == front[k].message;
                assert(after.log.messages[i] == before.log.messages[i]);
            } else if before.log.holds(last.message) {
                let i = choose|i: int|
                    0 <= i < before.log.messages.len() && (
                    #[trigger] before.log.messages[i]).message == last.message;
                assert(after.log.messages[i].message == last.message);
            } else {
                assert(after.log.messages[before.log.messages.len() as int] == last);
            }
        }
    }
}

/// A seal that commits its block leaves its votes in the log, and the rest of the state as it was.
pub proof fn lemma_votes_taken_over(world: World, seal: SealView, again: bool)
    requires
        caught_up(world, seal, again).1 is Ok,
    ensures
        votes_taken_over(caught_up(world, seal, again).0.log, seal.commit_votes),
        ({
            let after = caught_up(world, seal, again).0.state;
            &&& after == (StateView {
                view: after.view,
                phase: PhaseView::Finishing(seal.block_id, again),
                faulty_primary_timeout: after.faulty_primary_timeout,
                ..world.state
            })
            &&& after.faulty_primary_timeout.state == TimeoutState::Inactive
            &&& after.faulty_primary_timeout.duration == world.state.faulty_primary_timeout.duration
        }),
{
    let votes = seal.commit_votes;
    let messages = vote_messages(votes)->0;
    let view = messages[0].info().view;
    let at_view = World {
        state: StateView {
            view: if view > world.state.view {
                view
            } else {
                world.state.view
            },
            ..world.state
        },
        ..world
    };
    lemma_all_logged_continues(at_view, messages);
    lemma_all_among(at_view, messages);
    let after = caught_up(world, seal, again).0;
    let logged = all_logged(at_view, messages).0;
    assert(after.log == logged.log);
    assert forall|k: int| 0 <= k < votes.len() implies exists|i: int|
        0 <= i < after.log.messages.len() && (MessageView::decode(
            (#[trigger] votes[k]).message_bytes,
        ) matches Some(content) && (#[trigger] after.log.messages[i]).message
            == ContentView::Message(content)) by {
        assert(ParsedView::from_vote(votes[k]) is Some);
        assert(messages[k] == ParsedView::from_vote(votes[k])->0);
        let i = choose|i: int|
            0 <= i < logged.log.messages.len() && (#[trigger] logged.log.messages[i]).message
                == messages[k].message;
        assert(after.log.messages[i].message == messages[k].message);
    }
}

/// Verifying a seal only asks about signatures and for the list of peers.
pub proof fn lemma_seal_only_asks(
    exchange: Exchange,
    state: StateView,
    seal: SealView,
    signer_id: Seq<u8>,
)
    ensures
        only_asks(exchange, seal_checked(exchange, state, seal, signer_id).0),
{
    lemma_votes_only_ask(
        exchange,
        seal.commit_votes,
        PbftMessageType::Commit,
        CriteriaView::Block(seal.block_id),
    );
}

/// Whether the requests that were added are all about signatures or the list of peers.
pub open spec fn only_asks(before: Exchange, after: Exchange) -> bool {
    &&& before.requests.len() <= after.requests.len()
    &&& forall|i: int|
        0 <= i < before.requests.len() ==> #[trigger] after.requests[i] == before.requests[i]
    &&& forall|i: int|
        before.requests.len() <= i < after.requests.len() ==> (
        #[trigger] after.requests[i] is VerifySignature || after.requests[i] is GetPeersSetting)
}

proof fn lemma_votes_only_ask(
    exchange: Exchange,
    votes: Seq<VoteView>,
    expected_type: PbftMessageType,
    criteria: CriteriaView,
)
    ensures
        only_asks(exchange, votes_checked(exchange, votes, expected_type, criteria).0),
    decreases votes.len(),
{
    if votes.len() > 0 {
        lemma_votes_only_ask(exchange, votes.drop_last(), expected_type, criteria);
    }
}

// ---------- Verifying proofs ----------

/// A seal whose votes are in order and of peers, other than the node that it is from, is refused if
/// there are fewer than 2f voters; one with a vote of a node that is no peer, or of the node that it
/// is from, is refused for that.
pub proof fn law_seal_voters_judged(
    exchange: Exchange,
    state: StateView,
    seal: SealView,
    signer_id: Seq<u8>,
    setting: Option<Seq<char>>,
    peers: Seq<Seq<u8>>,
)
    requires
        votes_valid(
            seal.commit_votes,
            PbftMessageType::Commit,
            CriteriaView::Block(seal.block_id),
            exchange.replies,
        ),
        exchange.replies.len() > seal.commit_votes.len(),
        exchange.replies[seal.commit_votes.len() as int] == ReplyView::PeersSetting(setting),
        listed_peers(setting) == Some(peers),
    ensures
        ({
            let result = seal_checked(exchange, state, seal, signer_id).1;
            let eligible = forall|id: Seq<u8>| #[trigger]
                voters(seal.commit_votes).contains(id) ==> peers.contains(id) && id != signer_id;
            &&& !eligible ==> result == Err::<(), VerifyError>(
                VerifyError::Rejected(Rejection::InvalidMessage(VoteDefect::InvalidVoter)),
            )
            &&& eligible && voters(seal.commit_votes).len() < 2 * state.f ==> result == Err::<
                (),
                VerifyError,
            >(VerifyError::Rejected(Rejection::InvalidMessage(VoteDefect::TooFewVotes)))
            &&& eligible && voters(seal.commit_votes).len() >= 2 * state.f ==> result is Ok
        }),
{
    law_votes_accepted(
        exchange,
        seal.commit_votes,
        PbftMessageType::Commit,
        CriteriaView::Block(seal.block_id),
    );
    let voted = votes_checked(
        exchange,
        seal.commit_votes,
        PbftMessageType::Commit,
        CriteriaView::Block(seal.block_id),
    ).0;
    assert(voted.replies[0] == exchange.replies[seal.commit_votes.len() as int]);
}

/// The same is done about the voters of a `NewView` from the node whose turn it is to be primary in
/// its view, by the peers that the node knows; one from another node is refused before its votes are
/// looked at.
pub proof fn law_new_view_voters_judged(
    exchange: Exchange,
    state: StateView,
    new_view: NewViewView,
)
    requires
        votes_valid(
            new_view.view_changes,
            PbftMessageType::ViewChange,
            CriteriaView::View(new_view.info.view),
            exchange.replies,
        ),
    ensures
        ({
            let (after, result) = new_view_checked(exchange, state, new_view);
            let eligible = forall|id: Seq<u8>| #[trigger]
                voters(new_view.view_changes).contains(id) ==> state.peer_ids.contains(id) && id
                    != new_view.info.signer_id;
            let from_primary = new_view.info.signer_id == in_turn(state, new_view.info.view);
            &&& !from_primary ==> after == exchange && result == Err::<(), VerifyError>(
                VerifyError::Rejected(Rejection::NotFromPrimary),
            )
            &&& from_primary && !eligible ==> result == Err::<(), VerifyError>(
                VerifyError::Rejected(Rejection::InvalidMessage(VoteDefect::InvalidVoter)),
            )
            &&& from_primary && eligible && voters(new_view.view_changes).len() < 2 * state.f
                ==> result == Err::<(), VerifyError>(
                VerifyError::Rejected(Rejection::InvalidMessage(VoteDefect::TooFewVotes)),
            )
            &&& from_primary && eligible && voters(new_view.view_changes).len() >= 2 * state.f
                ==> result is Ok
        }),
{
    law_votes_accepted(
        exchange,
        new_view.view_changes,
        PbftMessageType::ViewChange,
        CriteriaView::View(new_view.info.view),
    );
}

/// The seal in a block's payload is accepted if and only if it can be read, is for the block before,
/// which is in the log and has the previous block that the seal names, and is a proof. There is none
/// before block 2.
pub proof fn law_block_seal_accepted(
    exchange: Exchange,
    log: LogView,
    state: StateView,
    block: BlockView,
    seal: SealView,
)
    ensures
        block.block_num < 2 ==> block_seal_checked(exchange, log, state, block).0 == exchange
            && block_seal_checked(exchange, log, state, block).1 is Ok,
        block.block_num >= 2 ==> (block_seal_checked(exchange, log, state, block).1 == Ok::<
            SealView,
            VerifyError,
        >(seal) <==> {
            &&& block.payload.len() > 0
            &&& SealView::decode(block.payload) == Some(seal)
            &&& seal.block_id == block.previous_id
            &&& exists|at: int| #[trigger]
                first_block_at(log.blocks, at, block.previous_id) && log.blocks[at].previous_id
                    == seal.previous_id
            &&& seal_valid(seal, block.signer_id, state.f, exchange.replies)
        }),
{
    law_seal_accepted(exchange, state, seal, block.signer_id);
    let place = lemma_found_block(log, block.previous_id);
    if exists|at: int| #[trigger]
        first_block_at(log.blocks, at, block.previous_id) && log.blocks[at].previous_id
            == seal.previous_id {
        let at = choose|at: int| #[trigger]
            first_block_at(log.blocks, at, block.previous_id) && log.blocks[at].previous_id
                == seal.previous_id;
        lemma_first_block(log, at, block.previous_id);
    }
}

/// Why the seal in a block's payload is refused before its votes are looked at.
pub proof fn law_block_seal_refused(
    exchange: Exchange,
    log: LogView,
    state: StateView,
    block: BlockView,
)
    requires
        block.block_num >= 2,
    ensures
        ({
            let (after, result) = block_seal_checked(exchange, log, state, block);
            let decoded = SealView::decode(block.payload);
            &&& block.payload.len() == 0 ==> after == exchange && result == Err::<
                SealView,
                VerifyError,
            >(VerifyError::Rejected(Rejection::InvalidMessage(VoteDefect::MissingSeal)))
            &&& block.payload.len() > 0 && decoded is None ==> after == exchange && result == Err::<
                SealView,
                VerifyError,
            >(VerifyError::Rejected(Rejection::SerializationError(Unparsed::Seal)))
            &&& block.payload.len() > 0 && (decoded matches Some(seal) && seal.block_id
                != block.previous_id) ==> after == exchange && result == Err::<
                SealView,
                VerifyError,
            >(VerifyError::Rejected(Rejection::InvalidMessage(VoteDefect::WrongSealedBlock)))
            &&& block.payload.len() > 0 && (decoded matches Some(seal) && seal.block_id
                == block.previous_id) && no_block(log.blocks, block.previous_id) ==> after
                == exchange && result == Err::<SealView, VerifyError>(
                VerifyError::Rejected(Rejection::SealedBlockMissing),
            )
        }),
{
    let place = lemma_found_block(log, block.previous_id);
}

} // verus!
