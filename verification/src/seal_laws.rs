//! What holds of seals and of the other proofs that are made of votes.

use vstd::prelude::*;

use crate::block::BlockView;
use crate::config::listed_peers;
use crate::error::{SealFault, VerifyError};
use crate::evidence::in_turn;
use crate::hash::sha512;
use crate::header::HeaderView;
use crate::hex_text::hex_text;
use crate::message::{ContentView, ParsedView};
use crate::message_log::{
    first_of, lemma_filter_positions, matching, of_type_seq, of_type_view, recent_block,
    recent_message, signers, with_id, LogView,
};
use crate::message_type::PbftMessageType;
use crate::model::{
    block_seal_checked, built_seal, first_quorum, last_commits, new_view_checked, new_view_message,
    not_own, same_block_and_view, seal_checked, view_changes_for, vote_checked, voters_eligible,
    votes_checked, votes_of, CriteriaView, World,
};
use crate::proto::MessageView;
use crate::service::{Exchange, ReplyView, RequestView, SignatureCheck};
use crate::state::StateView;
use crate::vote::{NewViewView, SealView, VoteView};

verus! {

// ---------- What a valid proof is ----------

/// Whether a vote is in order but for its signature: its message and its header can be parsed, the
/// message is of the expected kind and for what it must be for, and its hash is the one in the
/// header.
pub open spec fn vote_in_order(
    vote: VoteView,
    expected_type: PbftMessageType,
    criteria: CriteriaView,
) -> bool {
    match (MessageView::decode(vote.message_bytes), HeaderView::decode(vote.header_bytes)) {
        (Some(message), Some(header)) => {
            &&& message.info.msg_type == expected_type
            &&& match criteria {
                CriteriaView::View(view) => message.info.view == view,
                CriteriaView::Block(block_id) => message.block_id == block_id,
            }
            &&& sha512(vote.message_bytes) == header.content_sha512
        },
        _ => false,
    }
}

/// The request to verify the signature of a vote.
pub open spec fn signature_request(vote: VoteView) -> RequestView {
    RequestView::VerifySignature {
        signature: hex_text(vote.header_signature),
        message: vote.header_bytes,
        public_key: hex_text(HeaderView::decode(vote.header_bytes)->0.signer_id),
    }
}

/// The requests to verify the signatures of votes.
pub open spec fn signature_requests(votes: Seq<VoteView>) -> Seq<RequestView> {
    Seq::new(votes.len(), |i: int| signature_request(votes[i]))
}

/// The node that a vote is from.
pub open spec fn voter(vote: VoteView) -> Seq<u8> {
    MessageView::decode(vote.message_bytes)->0.info.signer_id
}

/// The nodes that votes are from.
pub open spec fn voters(votes: Seq<VoteView>) -> Set<Seq<u8>> {
    votes.map_values(|vote: VoteView| voter(vote)).to_set()
}

/// Whether every vote is in order, and its signature is found to be valid.
pub open spec fn votes_valid(
    votes: Seq<VoteView>,
    expected_type: PbftMessageType,
    criteria: CriteriaView,
    replies: Seq<ReplyView>,
) -> bool {
    &&& replies.len() >= votes.len()
    &&& forall|i: int|
        #![trigger votes[i]]
        0 <= i < votes.len() ==> vote_in_order(votes[i], expected_type, criteria) && replies[i]
            == ReplyView::Signature(SignatureCheck::Valid)
}

proof fn lemma_voters_push(votes: Seq<VoteView>)
    requires
        votes.len() > 0,
    ensures
        voters(votes) == voters(votes.drop_last()).insert(voter(votes.last())),
{
    let ids = votes.map_values(|vote: VoteView| voter(vote));
    let front = votes.drop_last().map_values(|vote: VoteView| voter(vote));
    assert(ids =~= front.push(voter(votes.last())));
    assert forall|id: Seq<u8>| ids.contains(id) == (front.contains(id) || id == voter(
        votes.last(),
    )) by {
        if front.contains(id) {
            assert(ids[front.index_of(id)] == id);
        }
        if id == voter(votes.last()) {
            assert(ids[front.len() as int] == id);
        }
    }
    assert(voters(votes) =~= voters(votes.drop_last()).insert(voter(votes.last())));
}

/// Votes are accepted if and only if each of them is in order and its signature is found to be
/// valid; the signatures are asked about in order, and the voters are those that the messages name.
pub proof fn law_votes_accepted(
    exchange: Exchange,
    votes: Seq<VoteView>,
    expected_type: PbftMessageType,
    criteria: CriteriaView,
)
    ensures
        votes_checked(exchange, votes, expected_type, criteria).1 is Ok <==> votes_valid(
            votes,
            expected_type,
            criteria,
            exchange.replies,
        ),
        votes_valid(votes, expected_type, criteria, exchange.replies) ==> votes_checked(
            exchange,
            votes,
            expected_type,
            criteria,
        ) == (
            Exchange {
                requests: exchange.requests + signature_requests(votes),
                replies: exchange.replies.skip(votes.len() as int),
            },
            Ok::<Set<Seq<u8>>, VerifyError>(voters(votes)),
        ),
    decreases votes.len(),
{
    if votes.len() == 0 {
        assert(exchange.requests + signature_requests(votes) =~= exchange.requests);
        assert(exchange.replies.skip(0) =~= exchange.replies);
        assert(voters(votes) =~= Set::<Seq<u8>>::empty());
    } else {
        let front = votes.drop_last();
        let last = votes.last();
        law_votes_accepted(exchange, front, expected_type, criteria);
        let (before, ids) = votes_checked(exchange, front, expected_type, criteria);
        assert(votes_valid(votes, expected_type, criteria, exchange.replies) ==> votes_valid(
            front,
            expected_type,
            criteria,
            exchange.replies,
        )) by {
            if votes_valid(votes, expected_type, criteria, exchange.replies) {
                assert forall|i: int|
                    #![trigger front[i]]
                    0 <= i < front.len() implies vote_in_order(front[i], expected_type, criteria)
                    && exchange.replies[i] == ReplyView::Signature(SignatureCheck::Valid) by {
                    assert(front[i] == votes[i]);
                }
            }
        }
        if votes_valid(front, expected_type, criteria, exchange.replies) {
            lemma_voters_push(votes);
            let (after, id) = vote_checked(before, last, expected_type, criteria);
            assert(before.replies.len() > 0 ==> before.replies[0] == exchange.replies[front.len()
                as int]);
            if id is Ok {
                assert(votes[votes.len() - 1] == last);
                assert(vote_in_order(last, expected_type, criteria));
                assert forall|i: int|
                    #![trigger votes[i]]
                    0 <= i < votes.len() implies vote_in_order(votes[i], expected_type, criteria)
                    && exchange.replies[i] == ReplyView::Signature(SignatureCheck::Valid) by {
                    if i < front.len() {
                        assert(front[i] == votes[i]);
                    }
                }
                assert(after.requests =~= exchange.requests + signature_requests(votes));
                assert(after.replies =~= exchange.replies.skip(votes.len() as int));
            } else {
                assert(!(vote_in_order(last, expected_type, criteria) && exchange.replies.len()
                    > front.len() && exchange.replies[front.len() as int] == ReplyView::Signature(
                    SignatureCheck::Valid,
                )));
                assert(votes[votes.len() - 1] == last);
            }
        }
    }
}

/// Whether a seal is a proof: its votes are valid `Commit`s for its block, and they are from at
/// least 2f nodes that the setting lists, other than the node that the seal came from.
pub open spec fn seal_valid(seal: SealView, signer_id: Seq<u8>, f: u64, replies: Seq<ReplyView>) -> bool {
    let votes = seal.commit_votes;
    &&& votes_valid(
        votes,
        PbftMessageType::Commit,
        CriteriaView::Block(seal.block_id),
        replies,
    )
    &&& replies.len() > votes.len()
    &&& match replies[votes.len() as int] {
        ReplyView::PeersSetting(setting) => match listed_peers(setting) {
            Some(peers) => {
                &&& forall|id: Seq<u8>| #[trigger]
                    voters(votes).contains(id) ==> peers.contains(id) && id != signer_id
                &&& voters(votes).len() >= 2 * f
            },
            None => false,
        },
        _ => false,
    }
}

/// A seal is accepted if and only if it is a proof, and the list of peers is that of the block
/// before the sealed one.
pub proof fn law_seal_accepted(
    exchange: Exchange,
    state: StateView,
    seal: SealView,
    signer_id: Seq<u8>,
)
    ensures
        seal_checked(exchange, state, seal, signer_id).1 is Ok <==> seal_valid(
            seal,
            signer_id,
            state.f,
            exchange.replies,
        ),
        seal_valid(seal, signer_id, state.f, exchange.replies) ==> seal_checked(
            exchange,
            state,
            seal,
            signer_id,
        ).0.requests == exchange.requests + signature_requests(seal.commit_votes).push(
            RequestView::GetPeersSetting { block_id: seal.previous_id },
        ),
{
    let criteria = CriteriaView::Block(seal.block_id);
    law_votes_accepted(exchange, seal.commit_votes, PbftMessageType::Commit, criteria);
    let (voted, _) = votes_checked(
        exchange,
        seal.commit_votes,
        PbftMessageType::Commit,
        criteria,
    );
    if votes_valid(seal.commit_votes, PbftMessageType::Commit, criteria, exchange.replies) {
        assert(voted.replies.len() > 0 ==> voted.replies[0]
            == exchange.replies[seal.commit_votes.len() as int]);
        assert(voted.requests.push(RequestView::GetPeersSetting { block_id: seal.previous_id })
            =~= exchange.requests + signature_requests(seal.commit_votes).push(
            RequestView::GetPeersSetting { block_id: seal.previous_id },
        ));
    }
}

/// Whether a `NewView` is a proof: it is from the primary of its view, its votes are valid
/// `ViewChange`s for that view, and they are from at least 2f other peers.
pub open spec fn new_view_valid(
    new_view: NewViewView,
    state: StateView,
    replies: Seq<ReplyView>,
) -> bool {
    &&& new_view.info.signer_id == in_turn(state, new_view.info.view)
    &&& votes_valid(
        new_view.view_changes,
        PbftMessageType::ViewChange,
        CriteriaView::View(new_view.info.view),
        replies,
    )
    &&& forall|id: Seq<u8>| #[trigger]
        voters(new_view.view_changes).contains(id) ==> state.peer_ids.contains(id) && id
            != new_view.info.signer_id
    &&& voters(new_view.view_changes).len() >= 2 * state.f
}

/// A `NewView` is accepted if and only if it is a proof.
pub proof fn law_new_view_accepted(exchange: Exchange, state: StateView, new_view: NewViewView)
    ensures
        new_view_checked(exchange, state, new_view).1 is Ok <==> new_view_valid(
            new_view,
            state,
            exchange.replies,
        ),
{
    law_votes_accepted(
        exchange,
        new_view.view_changes,
        PbftMessageType::ViewChange,
        CriteriaView::View(new_view.info.view),
    );
}

// ---------- Proofs that the node builds ----------

/// Whether a message is signed as its sender's validator does it: its bytes say what it says, and
/// its header can be parsed and holds the hash of those bytes.
pub open spec fn properly_signed(message: ParsedView) -> bool {
    &&& message.message matches ContentView::Message(content) && MessageView::decode(
        message.message_bytes,
    ) == Some(content)
    &&& HeaderView::decode(message.header_bytes) matches Some(header) && header.content_sha512
        == sha512(message.message_bytes)
}

/// What is found is a group of the messages.
proof fn lemma_quorum_found(messages: Seq<ParsedView>, required: int, from: int)
    requires
        from >= 0,
    ensures
        first_quorum(messages, required, from) matches Some(found) ==> found.len() >= required
            && exists|k: int|
            from <= k < messages.len() && found == messages.filter(
                same_block_and_view(#[trigger] messages[k]),
            ),
    decreases messages.len() - from,
{
    if from < messages.len() {
        let group = messages.filter(same_block_and_view(messages[from]));
        if group.len() < required {
            lemma_quorum_found(messages, required, from + 1);
        }
    }
}

/// What was taken from a log in two steps stands in it, in the same order.
pub proof fn lemma_taken_twice(
    list: Seq<ParsedView>,
    first: spec_fn(ParsedView) -> bool,
    second: spec_fn(ParsedView) -> bool,
) -> (positions: Seq<int>)
    ensures
        positions.len() == list.filter(first).filter(second).len(),
        forall|i: int|
            #![trigger positions[i]]
            0 <= i < positions.len() ==> 0 <= positions[i] < list.len() && list[positions[i]]
                == list.filter(first).filter(second)[i] && first(list[positions[i]]) && second(
                list[positions[i]],
            ),
        forall|i: int, j: int|
            #![trigger positions[i], positions[j]]
            0 <= i < j < positions.len() ==> positions[i] < positions[j],
{
    let outer = lemma_filter_positions(list, first);
    let inner = lemma_filter_positions(list.filter(first), second);
    let positions = Seq::new(inner.len(), |i: int| outer[inner[i]]);
    assert forall|i: int|
        #![trigger positions[i]]
        0 <= i < positions.len() implies 0 <= positions[i] < list.len() && list[positions[i]]
        == list.filter(first).filter(second)[i] && first(list[positions[i]]) && second(
        list[positions[i]],
    ) by {
        assert(0 <= inner[i] < outer.len());
        assert(0 <= outer[inner[i]] < list.len());
    }
    assert forall|i: int, j: int|
        #![trigger positions[i], positions[j]]
        0 <= i < j < positions.len() implies positions[i] < positions[j] by {
        assert(inner[i] < inner[j]);
        assert(0 <= inner[i] < outer.len());
        assert(0 <= inner[j] < outer.len());
        assert(outer[inner[i]] < outer[inner[j]]);
    }
    positions
}

/// The messages of a seal are different `Commit`s for one block in one view, from different nodes.
proof fn lemma_seal_messages(log: LogView, state: StateView, found: Seq<ParsedView>)
    requires
        log.wf(),
        state.seq_num >= 1,
        first_quorum(last_commits(log, state), 2 * state.f, 0) == Some(found),
        forall|i: int|
            #![trigger last_commits(log, state)[i]]
            0 <= i < last_commits(log, state).len() ==> properly_signed(
                last_commits(log, state)[i],
            ),
    ensures
        found.len() >= 2 * state.f,
        forall|i: int|
            #![trigger found[i]]
            0 <= i < found.len() ==> properly_signed(found[i]) && found[i].msg_type()
                == PbftMessageType::Commit && found[i].block_id() == found[0].block_id(),
        forall|i: int, j: int|
            #![trigger found[i], found[j]]
            0 <= i < j < found.len() ==> found[i].info().signer_id != found[j].info().signer_id,
{
    let commits = last_commits(log, state);
    let is_commit = of_type_seq(PbftMessageType::Commit, (state.seq_num - 1) as u64);
    lemma_quorum_found(commits, 2 * state.f, 0);
    let k = choose|k: int|
        0 <= k < commits.len() && found == commits.filter(
            same_block_and_view(#[trigger] commits[k]),
        );
    let same = same_block_and_view(commits[k]);
    let in_log = lemma_taken_twice(log.messages, is_commit, not_own());
    let in_commits = lemma_filter_positions(commits, same);
    assert forall|i: int|
        #![trigger found[i]]
        0 <= i < found.len() implies properly_signed(found[i]) && found[i].msg_type()
        == PbftMessageType::Commit && found[i].info().seq_num == state.seq_num - 1 && same(
        found[i],
    ) by {
        assert(found[i] == commits[in_commits[i]]);
        assert(log.messages[in_log[in_commits[i]]] == found[i]);
    }
    assert forall|i: int, j: int|
        #![trigger found[i], found[j]]
        0 <= i < j < found.len() implies found[i].info().signer_id
        != found[j].info().signer_id by {
        assert(in_commits[i] < in_commits[j]);
        assert(0 <= in_commits[i] < in_log.len());
        assert(0 <= in_commits[j] < in_log.len());
        assert(in_log[in_commits[i]] < in_log[in_commits[j]]);
        assert(log.messages[in_log[in_commits[i]]] == found[i]);
        assert(log.messages[in_log[in_commits[j]]] == found[j]);
        assert(found[i].message != found[j].message);
        assert(same(found[i]) && same(found[j]));
        if found[i].info().signer_id == found[j].info().signer_id {
            assert(found[i].message->Message_0 =~= found[j].message->Message_0);
        }
    }
    if found.len() > 0 {
        assert(same(found[0]));
    }
}

/// Votes of messages from different nodes are from as many nodes as there are votes.
proof fn lemma_voters_counted(messages: Seq<ParsedView>)
    requires
        forall|i: int|
            #![trigger messages[i]]
            0 <= i < messages.len() ==> properly_signed(messages[i]),
        forall|i: int, j: int|
            #![trigger messages[i], messages[j]]
            0 <= i < j < messages.len() ==> messages[i].info().signer_id
                != messages[j].info().signer_id,
    ensures
        voters(votes_of(messages)).len() == messages.len(),
        voters(votes_of(messages)) == signers(messages),
{
    let votes = votes_of(messages);
    let ids = votes.map_values(|vote: VoteView| voter(vote));
    let by_message = messages.map_values(|m: ParsedView| m.info().signer_id);
    assert forall|i: int| 0 <= i < messages.len() implies ids[i] == by_message[i] by {
        assert(properly_signed(messages[i]));
    }
    assert(ids =~= by_message);
    assert(ids.no_duplicates()) by {
        assert forall|i: int, j: int|
            0 <= i < ids.len() && 0 <= j < ids.len() && i != j implies ids[i] != ids[j] by {
            assert(by_message[i] == messages[i].info().signer_id);
            assert(by_message[j] == messages[j].info().signer_id);
            if i < j {
                assert(messages[i].info().signer_id != messages[j].info().signer_id);
            } else {
                assert(messages[j].info().signer_id != messages[i].info().signer_id);
            }
        }
    }
    ids.unique_seq_to_set();
}

/// What a node builds as the seal of its last block, another node accepts: if the `Commit`s in the
/// first node's log are properly signed, the other finds their signatures valid, its validator
/// lists the voters as peers, and the seal does not come from one of the voters, and both nodes
/// tolerate the same number of faults.
pub proof fn law_built_seal_accepted(
    log: LogView,
    builder: StateView,
    seal: SealView,
    exchange: Exchange,
    verifier: StateView,
    signer_id: Seq<u8>,
)
    requires
        log.wf(),
        builder.seq_num >= 1,
        built_seal(log, builder) == Ok::<SealView, SealFault>(seal),
        forall|i: int|
            #![trigger last_commits(log, builder)[i]]
            0 <= i < last_commits(log, builder).len() ==> properly_signed(
                last_commits(log, builder)[i],
            ),
        verifier.f == builder.f,
        exchange.replies.len() > seal.commit_votes.len(),
        forall|i: int|
            #![trigger exchange.replies[i]]
            0 <= i < seal.commit_votes.len() ==> exchange.replies[i] == ReplyView::Signature(
                SignatureCheck::Valid,
            ),
        exchange.replies[seal.commit_votes.len() as int] matches ReplyView::PeersSetting(setting)
            && (listed_peers(setting) matches Some(peers) && voters_eligible(
            voters(seal.commit_votes),
            peers,
            signer_id,
        )),
    ensures
        seal_checked(exchange, verifier, seal, signer_id).1 is Ok,
{
    let found = first_quorum(last_commits(log, builder), 2 * builder.f, 0)->0;
    lemma_seal_messages(log, builder, found);
    lemma_voters_counted(found);
    let votes = seal.commit_votes;
    assert(votes == votes_of(found));
    assert forall|i: int|
        #![trigger votes[i]]
        0 <= i < votes.len() implies vote_in_order(
        votes[i],
        PbftMessageType::Commit,
        CriteriaView::Block(seal.block_id),
    ) && exchange.replies[i] == ReplyView::Signature(SignatureCheck::Valid) by {
        assert(properly_signed(found[i]));
        assert(votes[i] == found[i].vote());
        assert(found[i].block_id() == found[0].block_id());
    }
    law_seal_accepted(exchange, verifier, seal, signer_id);
}

/// A block that holds the seal that another node built for the block before it passes verification,
/// if that seal is accepted and the verifying node has the sealed block.
pub proof fn law_sealed_block_accepted(
    exchange: Exchange,
    log: LogView,
    state: StateView,
    block: BlockView,
    seal: SealView,
)
    requires
        block.block_num >= 2,
        block.payload.len() > 0,
        SealView::decode(block.payload) == Some(seal),
        seal.block_id == block.previous_id,
        log.block_with_id(seal.block_id) matches Some(sealed) && sealed.previous_id
            == seal.previous_id,
        seal_valid(seal, block.signer_id, state.f, exchange.replies),
    ensures
        block_seal_checked(exchange, log, state, block).1 == Ok::<SealView, VerifyError>(seal),
{
    law_seal_accepted(exchange, state, seal, block.signer_id);
}

/// What a primary sends to open a view, another node accepts: if the `ViewChange`s in the primary's
/// log are properly signed and from different peers other than the primary, the other node finds
/// their signatures valid, and both nodes agree on the peers.
pub proof fn law_opened_view_accepted(
    opener: World,
    view: u64,
    exchange: Exchange,
    verifier: StateView,
)
    requires
        opener.state.is_primary_at(view),
        verifier.peer_ids == opener.state.peer_ids,
        verifier.f == opener.state.f,
        view_changes_for(opener.log, view).len() >= 2 * opener.state.f,
        forall|i: int|
            #![trigger view_changes_for(opener.log, view)[i]]
            0 <= i < view_changes_for(opener.log, view).len() ==> properly_signed(
                view_changes_for(opener.log, view)[i],
            ) && verifier.peer_ids.contains(
                view_changes_for(opener.log, view)[i].info().signer_id,
            ) && view_changes_for(opener.log, view)[i].info().signer_id != opener.state.id,
        forall|i: int, j: int|
            #![trigger view_changes_for(opener.log, view)[i], view_changes_for(opener.log, view)[j]]
            0 <= i < j < view_changes_for(opener.log, view).len() ==> view_changes_for(
                opener.log,
                view,
            )[i].info().signer_id != view_changes_for(opener.log, view)[j].info().signer_id,
        exchange.replies.len() >= view_changes_for(opener.log, view).len(),
        forall|i: int|
            #![trigger exchange.replies[i]]
            0 <= i < view_changes_for(opener.log, view).len() ==> exchange.replies[i]
                == ReplyView::Signature(SignatureCheck::Valid),
    ensures
        new_view_message(opener, view).message matches ContentView::NewView(new_view)
            && new_view_checked(exchange, verifier, new_view).1 is Ok,
{
    let messages = view_changes_for(opener.log, view);
    let new_view = new_view_message(opener, view).message->NewView_0;
    let votes = new_view.view_changes;
    let in_log = lemma_taken_twice(
        opener.log.messages,
        of_type_view(PbftMessageType::ViewChange, view),
        not_own(),
    );
    assert(votes == votes_of(messages));
    assert forall|i: int|
        #![trigger votes[i]]
        0 <= i < votes.len() implies vote_in_order(
        votes[i],
        PbftMessageType::ViewChange,
        CriteriaView::View(view),
    ) && exchange.replies[i] == ReplyView::Signature(SignatureCheck::Valid) by {
        assert(properly_signed(messages[i]));
        assert(votes[i] == messages[i].vote());
        assert(opener.log.messages[in_log[i]] == messages[i]);
    }
    lemma_voters_counted(messages);
    assert forall|id: Seq<u8>| #[trigger] voters(votes).contains(id) implies
        verifier.peer_ids.contains(id) && id != opener.state.id by {
        let ids = messages.map_values(|m: ParsedView| m.info().signer_id);
        assert(signers(messages).contains(id));
        let i = ids.index_of(id);
        assert(messages[i].info().signer_id == id);
    }
    law_new_view_accepted(exchange, verifier, new_view);
}

// ---------- Cleaning up ----------

proof fn lemma_filter_implied<T>(list: Seq<T>, weak: spec_fn(T) -> bool, strong: spec_fn(T) -> bool)
    requires
        forall|x: T| #[trigger] strong(x) ==> weak(x),
    ensures
        list.filter(weak).filter(strong) == list.filter(strong),
    decreases list.len(),
{
    reveal(Seq::filter);
    if list.len() > 0 {
        lemma_filter_implied(list.drop_last(), weak, strong);
        let front = list.drop_last().filter(weak);
        if weak(list.last()) {
            assert(front.push(list.last()).drop_last() =~= front);
        }
    } else {
        assert(list.filter(weak) =~= list);
    }
}

pub proof fn lemma_filter_commutes<T>(list: Seq<T>, p: spec_fn(T) -> bool, q: spec_fn(T) -> bool)
    ensures
        list.filter(p).filter(q) == list.filter(q).filter(p),
    decreases list.len(),
{
    reveal(Seq::filter);
    if list.len() > 0 {
        lemma_filter_commutes(list.drop_last(), p, q);
        let by_p = list.drop_last().filter(p);
        let by_q = list.drop_last().filter(q);
        assert(by_p.push(list.last()).drop_last() =~= by_p);
        assert(by_q.push(list.last()).drop_last() =~= by_q);
    } else {
        assert(list.filter(p) =~= list);
        assert(list.filter(q) =~= list);
    }
}

pub proof fn lemma_first_kept<T>(list: Seq<T>, pred: spec_fn(T) -> bool)
    requires
        list.len() > 0,
        pred(list[0]),
    ensures
        first_of(list.filter(pred)) == Some(list[0]),
    decreases list.len(),
{
    reveal(Seq::filter);
    if list.len() == 1 {
        assert(list.drop_last().filter(pred) =~= Seq::<T>::empty());
    } else {
        lemma_first_kept(list.drop_last(), pred);
    }
}

/// Cleaning up the log keeps the `Commit`s of the last block, so that its seal can still be built:
/// it is the same as before if the sealed block is not older than its sequence number.
pub proof fn law_cleaning_up_keeps_seals(log: LogView, state: StateView)
    requires
        state.seq_num >= 1,
    ensures
        last_commits(log.collected(state.seq_num), state) == last_commits(log, state),
        built_seal(log, state) matches Ok(seal) && log.block_with_id(seal.block_id)->0.block_num
            >= state.seq_num - 1 ==> built_seal(log.collected(state.seq_num), state) == built_seal(
            log,
            state,
        ),
{
    let is_commit = of_type_seq(PbftMessageType::Commit, (state.seq_num - 1) as u64);
    let kept = recent_message(state.seq_num);
    assert forall|m: ParsedView| #[trigger] is_commit(m) implies kept(m) by {}
    lemma_filter_implied(log.messages, kept, is_commit);
    let collected = log.collected(state.seq_num);
    match built_seal(log, state) {
        Ok(seal) => {
            let block = log.block_with_id(seal.block_id)->0;
            if block.block_num >= state.seq_num - 1 {
                let keep = recent_block(state.seq_num);
                let by_id = with_id(seal.block_id);
                lemma_filter_commutes(log.blocks, keep, by_id);
                lemma_first_kept(log.blocks.filter(by_id), keep);
            }
        },
        Err(_) => {},
    }
}

// ---------- Quorums ----------

/// Where the network has the smallest size for the faults it tolerates, and the messages in the log
/// are from its nodes, any two quorums of 2f + 1 nodes share at least f + 1: one more than can be
/// faulty.
pub proof fn law_quorums_share_nodes(
    log: LogView,
    nodes: Set<Seq<u8>>,
    f: u64,
    msg_type: PbftMessageType,
    one: ParsedView,
    other: ParsedView,
)
    requires
        nodes.finite(),
        nodes.len() == 3 * f + 1,
        forall|i: int|
            #![trigger log.messages[i]]
            0 <= i < log.messages.len() ==> nodes.contains(log.messages[i].info().signer_id),
        log.has_required(msg_type, one, true, 2 * f + 1),
        log.has_required(msg_type, other, true, 2 * f + 1),
    ensures
        signers(log.messages.filter(matching(msg_type, one, true))).intersect(
            signers(log.messages.filter(matching(msg_type, other, true))),
        ).len() >= f + 1,
{
    let a = signers(log.messages.filter(matching(msg_type, one, true)));
    let b = signers(log.messages.filter(matching(msg_type, other, true)));
    lemma_signers_known(log, nodes, matching(msg_type, one, true));
    lemma_signers_known(log, nodes, matching(msg_type, other, true));
    vstd::set_lib::lemma_set_intersect_union_lens(a, b);
    assert(a.union(b).subset_of(nodes));
    vstd::set_lib::lemma_len_subset(a.union(b), nodes);
}

proof fn lemma_signers_known(log: LogView, nodes: Set<Seq<u8>>, pred: spec_fn(ParsedView) -> bool)
    requires
        forall|i: int|
            #![trigger log.messages[i]]
            0 <= i < log.messages.len() ==> nodes.contains(log.messages[i].info().signer_id),
    ensures
        signers(log.messages.filter(pred)).subset_of(nodes),
        signers(log.messages.filter(pred)).finite(),
{
    let found = log.messages.filter(pred);
    let places = lemma_filter_positions(log.messages, pred);
    let ids = found.map_values(|m: ParsedView| m.info().signer_id);
    assert forall|id: Seq<u8>| signers(found).contains(id) implies nodes.contains(id) by {
        let i = ids.index_of(id);
        assert(log.messages[places[i]] == found[i]);
    }
}

} // verus!
