//! What messages and blocks show, told by their fields.

use vstd::prelude::*;

use crate::block::BlockView;
use crate::message::ParsedView;
use crate::message_log::{
    lemma_filter_positions, matching, of_type_seq_view, signers, with_id, LogView,
};
use crate::message_type::PbftMessageType;
use crate::proto::{InfoView, MessageView};
use crate::service::RequestView;
use crate::state::{PbftMode, StateView};

verus! {

/// Whether a message is of the given kind, for the given view, sequence number and block.
pub open spec fn is_for(
    message: ParsedView,
    kind: PbftMessageType,
    view: u64,
    seq_num: u64,
    block_id: Seq<u8>,
) -> bool {
    &&& message.info().msg_type == kind
    &&& message.info().view == view
    &&& message.info().seq_num == seq_num
    &&& message.block_id() == block_id
}

/// Whether a node is among those whose messages of the given kind are for the given view, sequence
/// number and block.
pub open spec fn signed_by(
    messages: Seq<ParsedView>,
    kind: PbftMessageType,
    view: u64,
    seq_num: u64,
    block_id: Seq<u8>,
    id: Seq<u8>,
) -> bool {
    exists|i: int|
        0 <= i < messages.len() && is_for(#[trigger] messages[i], kind, view, seq_num, block_id)
            && messages[i].info().signer_id == id
}

/// Whether each of the given nodes, of which there are at least as many as required, signed a
/// message of the given kind for the given view, sequence number and block.
pub open spec fn signed_by_all(
    messages: Seq<ParsedView>,
    kind: PbftMessageType,
    view: u64,
    seq_num: u64,
    block_id: Seq<u8>,
    nodes: Set<Seq<u8>>,
    required: int,
) -> bool {
    &&& nodes.finite()
    &&& nodes.len() >= required
    &&& forall|id: Seq<u8>| #[trigger]
        nodes.contains(id) ==> signed_by(messages, kind, view, seq_num, block_id, id)
}

/// Whether the message at a place is the first `PrePrepare` for a view and a sequence number, and
/// is for the given block.
pub open spec fn first_proposal_at(
    messages: Seq<ParsedView>,
    at: int,
    view: u64,
    seq_num: u64,
    block_id: Seq<u8>,
) -> bool {
    &&& 0 <= at < messages.len()
    &&& is_for(messages[at], PbftMessageType::PrePrepare, view, seq_num, block_id)
    &&& forall|i: int|
        0 <= i < at ==> !((#[trigger] messages[i]).info().msg_type == PbftMessageType::PrePrepare
            && messages[i].info().view == view && messages[i].info().seq_num == seq_num)
}

/// Whether the first `PrePrepare` for a view and a sequence number is for the given block.
pub open spec fn first_proposal(
    messages: Seq<ParsedView>,
    view: u64,
    seq_num: u64,
    block_id: Seq<u8>,
) -> bool {
    exists|at: int| #[trigger] first_proposal_at(messages, at, view, seq_num, block_id)
}

/// Whether there is a `PrePrepare` for the given view, sequence number and block.
pub open spec fn proposed(
    messages: Seq<ParsedView>,
    view: u64,
    seq_num: u64,
    block_id: Seq<u8>,
) -> bool {
    exists|i: int|
        0 <= i < messages.len() && is_for(
            #[trigger] messages[i],
            PbftMessageType::PrePrepare,
            view,
            seq_num,
            block_id,
        )
}

/// Whether there is a `PrePrepare` with the view and the sequence number of the given message that
/// is for another block.
pub open spec fn other_proposed(messages: Seq<ParsedView>, message: ParsedView) -> bool {
    exists|i: int|
        0 <= i < messages.len() && (#[trigger] messages[i]).info().msg_type
            == PbftMessageType::PrePrepare && messages[i].info().view == message.info().view
            && messages[i].info().seq_num == message.info().seq_num && messages[i].block_id()
            != message.block_id()
}

/// Whether a message that says the same as the given one is among the messages.
pub open spec fn among(messages: Seq<ParsedView>, message: ParsedView) -> bool {
    exists|i: int| 0 <= i < messages.len() && (#[trigger] messages[i]).message == message.message
}

/// Whether the first block with the given ID stands at the given place.
pub open spec fn first_block_at(blocks: Seq<BlockView>, at: int, block_id: Seq<u8>) -> bool {
    &&& 0 <= at < blocks.len()
    &&& blocks[at].block_id == block_id
    &&& forall|i: int| 0 <= i < at ==> (#[trigger] blocks[i]).block_id != block_id
}

/// Whether the first block with the given ID has the given number.
pub open spec fn block_at_number(blocks: Seq<BlockView>, block_id: Seq<u8>, block_num: u64) -> bool {
    exists|at: int| #[trigger]
        first_block_at(blocks, at, block_id) && blocks[at].block_num == block_num
}

/// Whether no block has the given ID.
pub open spec fn no_block(blocks: Seq<BlockView>, block_id: Seq<u8>) -> bool {
    forall|i: int| 0 <= i < blocks.len() ==> (#[trigger] blocks[i]).block_id != block_id
}

/// The node whose turn it is to be primary in the given view: the peers take turns.
pub open spec fn in_turn(state: StateView, view: u64) -> Seq<u8> {
    state.peer_ids[view as int % state.peer_ids.len() as int]
}

/// The request to broadcast a message of this node.
pub open spec fn broadcast_of(
    id: Seq<u8>,
    kind: PbftMessageType,
    view: u64,
    seq_num: u64,
    block_id: Seq<u8>,
) -> RequestView {
    RequestView::Broadcast {
        msg_type: kind,
        payload: MessageView {
            info: InfoView { msg_type: kind, view, seq_num, signer_id: id },
            block_id,
        }.encode(),
    }
}

/// Whether the node is at the given view or a later one, or is changing to it or a later one.
pub open spec fn reaches(state: StateView, view: u64) -> bool {
    match state.mode {
        PbftMode::ViewChanging(target) => target >= view || state.view >= view,
        PbftMode::Normal => state.view >= view,
    }
}

// ---------- How the log's own queries answer to this ----------

/// Who signed matching messages is among those that the log counts.
pub proof fn lemma_signers_counted(
    messages: Seq<ParsedView>,
    kind: PbftMessageType,
    reference: ParsedView,
    nodes: Set<Seq<u8>>,
    required: int,
)
    requires
        signed_by_all(
            messages,
            kind,
            reference.info().view,
            reference.info().seq_num,
            reference.block_id(),
            nodes,
            required,
        ),
    ensures
        signers(messages.filter(matching(kind, reference, true))).len() >= required,
{
    let pred = matching(kind, reference, true);
    let found = messages.filter(pred);
    let ids = found.map_values(|m: ParsedView| m.info().signer_id);
    assert forall|id: Seq<u8>| #[trigger] nodes.contains(id) implies signers(found).contains(id) by {
        assert(signed_by(
            messages,
            kind,
            reference.info().view,
            reference.info().seq_num,
            reference.block_id(),
            id,
        ));
        let i = choose|i: int|
            0 <= i < messages.len() && is_for(
                #[trigger] messages[i],
                kind,
                reference.info().view,
                reference.info().seq_num,
                reference.block_id(),
            ) && messages[i].info().signer_id == id;
        assert(pred(messages[i]));
        messages.lemma_filter_contains(pred, i);
        let k = found.index_of(messages[i]);
        assert(ids[k] == id);
    }
    assert(nodes.subset_of(signers(found)));
    vstd::set_lib::lemma_len_subset(nodes, signers(found));
}

/// Those that the log counts signed matching messages.
pub proof fn lemma_counted_signers(
    messages: Seq<ParsedView>,
    kind: PbftMessageType,
    reference: ParsedView,
    required: int,
)
    requires
        signers(messages.filter(matching(kind, reference, true))).len() >= required,
    ensures
        signed_by_all(
            messages,
            kind,
            reference.info().view,
            reference.info().seq_num,
            reference.block_id(),
            signers(messages.filter(matching(kind, reference, true))),
            required,
        ),
{
    let pred = matching(kind, reference, true);
    let found = messages.filter(pred);
    let ids = found.map_values(|m: ParsedView| m.info().signer_id);
    let places = lemma_filter_positions(messages, pred);
    assert forall|id: Seq<u8>| #[trigger] signers(found).contains(id) implies signed_by(
        messages,
        kind,
        reference.info().view,
        reference.info().seq_num,
        reference.block_id(),
        id,
    ) by {
        let k = ids.index_of(id);
        assert(messages[places[k]] == found[k]);
    }
}

/// The first that is taken from a list is the first that is to be taken.
pub proof fn lemma_first_taken<T>(list: Seq<T>, at: int, pred: spec_fn(T) -> bool)
    requires
        0 <= at < list.len(),
        pred(list[at]),
        forall|i: int| 0 <= i < at ==> !pred(#[trigger] list[i]),
    ensures
        list.filter(pred).len() > 0,
        list.filter(pred)[0] == list[at],
{
    let places = lemma_filter_positions(list, pred);
    list.lemma_filter_contains(pred, at);
    let k = list.filter(pred).index_of(list[at]);
    assert(places[0] >= at);
    lemma_position_known(list, at, pred, places);
    if places[0] > at {
        assert(false);
    }
}

/// Every element that is to be taken from a list is taken from its place.
proof fn lemma_position_known<T>(list: Seq<T>, at: int, pred: spec_fn(T) -> bool, places: Seq<int>)
    requires
        0 <= at < list.len(),
        pred(list[at]),
        places.len() == list.filter(pred).len(),
        forall|i: int|
            #![trigger places[i]]
            0 <= i < places.len() ==> 0 <= places[i] < list.len() && list[places[i]] == list.filter(
                pred,
            )[i] && pred(list[places[i]]),
        forall|i: int, j: int|
            #![trigger places[i], places[j]]
            0 <= i < j < places.len() ==> places[i] < places[j],
    ensures
        places.len() > 0,
        places[0] <= at,
    decreases list.len(),
{
    reveal(Seq::filter);
    list.lemma_filter_contains(pred, at);
    if places[0] > at {
        // All that is taken stands behind the place, so that nothing is taken up to it
        let head = list.take(at + 1);
        let tail = list.skip(at + 1);
        assert(list =~= head + tail);
        Seq::filter_distributes_over_add(head, tail, pred);
        assert(head[at] == list[at]);
        head.lemma_filter_contains(pred, at);
        let behind = places.map_values(|p: int| p - (at + 1));
        lemma_at_most_taken(tail, pred, behind);
    }
}

/// No more can be taken from a list than stands in it.
proof fn lemma_at_most_taken<T>(list: Seq<T>, pred: spec_fn(T) -> bool, places: Seq<int>)
    requires
        forall|i: int|
            #![trigger places[i]]
            0 <= i < places.len() ==> 0 <= places[i] < list.len() && pred(list[places[i]]),
        forall|i: int, j: int|
            #![trigger places[i], places[j]]
            0 <= i < j < places.len() ==> places[i] < places[j],
    ensures
        places.len() <= list.filter(pred).len(),
    decreases list.len(),
{
    reveal(Seq::filter);
    if places.len() > 0 {
        let last = places.last();
        assert(0 <= places[places.len() - 1] < list.len());
        let front = list.drop_last();
        if last == list.len() - 1 {
            let rest = places.drop_last();
            assert forall|i: int|
                #![trigger rest[i]]
                0 <= i < rest.len() implies 0 <= rest[i] < front.len() && pred(front[rest[i]]) by {
                assert(places[i] < places[places.len() - 1]);
            }
            lemma_at_most_taken(front, pred, rest);
        } else {
            assert forall|i: int|
                #![trigger places[i]]
                0 <= i < places.len() implies 0 <= places[i] < front.len() && pred(
                front[places[i]],
            ) by {
                if i < places.len() - 1 {
                    assert(places[i] < places[places.len() - 1]);
                }
            }
            lemma_at_most_taken(front, pred, places);
        }
    }
}

/// At least as many are taken from a list as there are places of what is to be taken.
pub proof fn lemma_places_counted<T>(list: Seq<T>, pred: spec_fn(T) -> bool, places: Set<int>)
    requires
        places.finite(),
        forall|i: int| #[trigger]
            places.contains(i) ==> 0 <= i < list.len() && pred(list[i]),
    ensures
        places.len() <= list.filter(pred).len(),
    decreases list.len(),
{
    reveal(Seq::filter);
    if list.len() == 0 {
        assert(places =~= Set::<int>::empty());
    } else {
        let front = list.drop_last();
        let last = list.len() - 1;
        let rest = places.remove(last);
        assert forall|i: int| #[trigger] rest.contains(i) implies 0 <= i < front.len() && pred(
            front[i],
        ) by {
            assert(places.contains(i));
        }
        lemma_places_counted(front, pred, rest);
        if !places.contains(last) {
            assert(rest =~= places);
        }
    }
}

/// The first `PrePrepare` is the one that the log finds.
pub proof fn lemma_first_proposal(log: LogView, message: ParsedView, at: int, block_id: Seq<u8>)
    requires
        first_proposal_at(
            log.messages,
            at,
            message.info().view,
            message.info().seq_num,
            block_id,
        ),
    ensures
        log.first_msg(message.info(), PbftMessageType::PrePrepare) == Some(log.messages[at]),
{
    let pred = of_type_seq_view(
        PbftMessageType::PrePrepare,
        message.info().seq_num,
        message.info().view,
    );
    lemma_first_taken(log.messages, at, pred);
}

/// The `PrePrepare` that the log finds is the first.
pub proof fn lemma_found_proposal(log: LogView, message: ParsedView)
    requires
        log.first_msg(message.info(), PbftMessageType::PrePrepare) is Some,
    ensures
        first_proposal(
            log.messages,
            message.info().view,
            message.info().seq_num,
            log.first_msg(message.info(), PbftMessageType::PrePrepare)->0.block_id(),
        ),
{
    let pred = of_type_seq_view(
        PbftMessageType::PrePrepare,
        message.info().seq_num,
        message.info().view,
    );
    let places = lemma_filter_positions(log.messages, pred);
    let at = places[0];
    assert(log.messages[at] == log.messages.filter(pred)[0]);
    assert forall|i: int| 0 <= i < at implies !((#[trigger] log.messages[i]).info().msg_type
        == PbftMessageType::PrePrepare && log.messages[i].info().view == message.info().view
        && log.messages[i].info().seq_num == message.info().seq_num) by {
        if pred(log.messages[i]) {
            lemma_position_known(log.messages, i, pred, places);
        }
    }
    assert(first_proposal_at(
        log.messages,
        at,
        message.info().view,
        message.info().seq_num,
        log.messages[at].block_id(),
    ));
}

/// The first block with an ID is the one that the log finds.
pub proof fn lemma_first_block(log: LogView, at: int, block_id: Seq<u8>)
    requires
        first_block_at(log.blocks, at, block_id),
    ensures
        log.block_with_id(block_id) == Some(log.blocks[at]),
{
    lemma_first_taken(log.blocks, at, with_id(block_id));
}

/// The block that the log finds is the first with its ID; where it finds none, there is none.
pub proof fn lemma_found_block(log: LogView, block_id: Seq<u8>) -> (at: int)
    ensures
        (match log.block_with_id(block_id) {
            Some(block) => first_block_at(log.blocks, at, block_id) && log.blocks[at] == block,
            None => no_block(log.blocks, block_id),
        }),
{
    let pred = with_id(block_id);
    let places = lemma_filter_positions(log.blocks, pred);
    if places.len() > 0 {
        let at = places[0];
        assert(log.blocks[at] == log.blocks.filter(pred)[0]);
        assert forall|i: int| 0 <= i < at implies (#[trigger] log.blocks[i]).block_id
            != block_id by {
            if pred(log.blocks[i]) {
                lemma_position_known(log.blocks, i, pred, places);
            }
        }
        at
    } else {
        assert forall|i: int| 0 <= i < log.blocks.len() implies (#[trigger] log.blocks[i]).block_id
            != block_id by {
            if pred(log.blocks[i]) {
                log.blocks.lemma_filter_contains(pred, i);
            }
        }
        0
    }
}

/// Adding a message that is no `PrePrepare` leaves the first one first.
pub proof fn lemma_first_proposal_stays(
    messages: Seq<ParsedView>,
    message: ParsedView,
    at: int,
    view: u64,
    seq_num: u64,
    block_id: Seq<u8>,
)
    requires
        first_proposal_at(messages, at, view, seq_num, block_id),
    ensures
        first_proposal_at(messages.push(message), at, view, seq_num, block_id),
{
    let more = messages.push(message);
    assert(more[at] == messages[at]);
    assert forall|i: int| 0 <= i < at implies !((#[trigger] more[i]).info().msg_type
        == PbftMessageType::PrePrepare && more[i].info().view == view && more[i].info().seq_num
        == seq_num) by {
        assert(more[i] == messages[i]);
    }
}

} // verus!
