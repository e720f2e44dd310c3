//! The log of the messages and blocks that the node has accepted.

use vstd::prelude::*;

use crate::block::{Block, BlockView};
use crate::byte_string::{byte_set, byte_strings, insert_bytes, same_bytes};
use crate::config::PbftConfig;
use crate::error::{MessageDefect, PbftError};
use crate::message::{ContentView, ParsedMessage, ParsedView};
use crate::message_type::PbftMessageType;
use crate::proto::{InfoView, PbftMessageInfo};
use crate::state::{PbftState, StateView};

verus! {

/// Messages and blocks, in the order in which they came in, none of them twice.
#[derive(Debug)]
pub struct PbftLog {
    /// The messages
    pub messages: Vec<ParsedMessage>,
    /// The blocks
    pub blocks: Vec<Block>,
    /// How many messages the log may hold before it is cleaned up
    pub max_log_size: u64,
}

/// The contents of a list of messages.
pub open spec fn message_views(messages: Seq<ParsedMessage>) -> Seq<ParsedView> {
    Seq::new(messages.len(), |i: int| messages[i]@)
}

/// The contents of a list of references to messages.
pub open spec fn referenced_messages(messages: Seq<&ParsedMessage>) -> Seq<ParsedView> {
    Seq::new(messages.len(), |i: int| messages[i]@)
}

/// The contents of a list of blocks.
pub open spec fn block_views(blocks: Seq<Block>) -> Seq<BlockView> {
    Seq::new(blocks.len(), |i: int| blocks[i]@)
}

/// The contents of a list of references to blocks.
pub open spec fn referenced_blocks(blocks: Seq<&Block>) -> Seq<BlockView> {
    Seq::new(blocks.len(), |i: int| blocks[i]@)
}

/// The contents of a `PbftLog`.
#[verifier::ext_equal]
pub struct LogView {
    pub messages: Seq<ParsedView>,
    pub blocks: Seq<BlockView>,
    pub max_log_size: u64,
}

impl View for PbftLog {
    type V = LogView;

    open spec fn view(&self) -> LogView {
        LogView {
            messages: message_views(self.messages@),
            blocks: block_views(self.blocks@),
            max_log_size: self.max_log_size,
        }
    }
}

/// The messages of a kind at a sequence number.
pub open spec fn of_type_seq(msg_type: PbftMessageType, seq_num: u64) -> spec_fn(ParsedView) -> bool {
    |m: ParsedView| m.msg_type() == msg_type && m.info().seq_num == seq_num
}

/// The messages of a kind at a view.
pub open spec fn of_type_view(msg_type: PbftMessageType, view: u64) -> spec_fn(ParsedView) -> bool {
    |m: ParsedView| m.msg_type() == msg_type && m.info().view == view
}

/// The messages of a kind at a sequence number and a view.
pub open spec fn of_type_seq_view(msg_type: PbftMessageType, seq_num: u64, view: u64) -> spec_fn(
    ParsedView,
) -> bool {
    |m: ParsedView|
        m.msg_type() == msg_type && m.info().seq_num == seq_num && m.info().view == view
}

/// The messages of a kind that match the given one: they are for the same view and, where blocks
/// are to be checked too, for the same sequence number and block.
pub open spec fn matching(
    msg_type: PbftMessageType,
    ref_msg: ParsedView,
    check_block: bool,
) -> spec_fn(ParsedView) -> bool {
    |m: ParsedView|
        {
            &&& m.msg_type() == msg_type
            &&& m.info().view == ref_msg.info().view
            &&& check_block ==> m.info().seq_num == ref_msg.info().seq_num && m.block_id()
                == ref_msg.block_id()
        }
}

/// The block with the given ID.
pub open spec fn with_id(block_id: Seq<u8>) -> spec_fn(BlockView) -> bool {
    |b: BlockView| b.block_id == block_id
}

/// The blocks with the given number.
pub open spec fn with_num(block_num: u64) -> spec_fn(BlockView) -> bool {
    |b: BlockView| b.block_num == block_num
}

/// The messages that are not older than one sequence number before the given one.
pub open spec fn recent_message(seq_num: u64) -> spec_fn(ParsedView) -> bool {
    |m: ParsedView| m.info().seq_num >= seq_num - 1
}

/// The blocks that are not older than one sequence number before the given one.
pub open spec fn recent_block(seq_num: u64) -> spec_fn(BlockView) -> bool {
    |b: BlockView| b.block_num >= seq_num - 1
}

/// The nodes that signed the messages.
pub open spec fn signers(messages: Seq<ParsedView>) -> Set<Seq<u8>> {
    messages.map_values(|m: ParsedView| m.info().signer_id).to_set()
}

/// The first of a list.
pub open spec fn first_of<T>(list: Seq<T>) -> Option<T> {
    if list.len() > 0 {
        Some(list[0])
    } else {
        None
    }
}

impl LogView {
    /// Whether no message and no block is in the log twice.
    pub open spec fn wf(self) -> bool {
        &&& forall|i: int, j: int|
            #![trigger self.messages[i], self.messages[j]]
            0 <= i < j < self.messages.len() ==> self.messages[i].message
                != self.messages[j].message
        &&& forall|i: int, j: int|
            #![trigger self.blocks[i], self.blocks[j]]
            0 <= i < j < self.blocks.len() ==> self.blocks[i] != self.blocks[j]
    }

    /// Whether a message that says the same is in the log.
    pub open spec fn holds(self, content: ContentView) -> bool {
        exists|i: int|
            0 <= i < self.messages.len() && (#[trigger] self.messages[i]).message == content
    }

    /// The log with the given message.
    pub open spec fn with_message(self, message: ParsedView) -> LogView {
        if self.holds(message.message) {
            self
        } else {
            LogView { messages: self.messages.push(message), ..self }
        }
    }

    /// Whether the log of a node at the given view takes the message: it is for that view, or for a
    /// view change.
    pub open spec fn accepts(self, message: ParsedView, view: u64) -> bool {
        message.msg_type() == PbftMessageType::ViewChange || message.info().view == view
    }

    /// The log after the message was offered to it, and whether it was taken.
    pub open spec fn offered(self, message: ParsedView, view: u64) -> (LogView, Result<(), PbftError>) {
        if self.accepts(message, view) {
            (self.with_message(message), Ok(()))
        } else {
            (self, Err(PbftError::InvalidMessage(MessageDefect::WrongView)))
        }
    }

    /// The log with the given block.
    pub open spec fn with_block(self, block: BlockView) -> LogView {
        if self.blocks.contains(block) {
            self
        } else {
            LogView { blocks: self.blocks.push(block), ..self }
        }
    }

    /// The block with the given ID.
    pub open spec fn block_with_id(self, block_id: Seq<u8>) -> Option<BlockView> {
        first_of(self.blocks.filter(with_id(block_id)))
    }

    /// The blocks with the given number.
    pub open spec fn blocks_with_num(self, block_num: u64) -> Seq<BlockView> {
        self.blocks.filter(with_num(block_num))
    }

    /// The first message of the given kind with the sequence number and the view of another.
    pub open spec fn first_msg(self, info: InfoView, msg_type: PbftMessageType) -> Option<
        ParsedView,
    > {
        first_of(self.messages.filter(of_type_seq_view(msg_type, info.seq_num, info.view)))
    }

    /// Whether the log has a `PrePrepare` for the given block at the current sequence number and
    /// view.
    pub open spec fn has_pre_prepare(self, state: StateView, block_id: Seq<u8>) -> bool {
        exists|i: int|
            0 <= i < self.messages.len() && of_type_seq_view(
                PbftMessageType::PrePrepare,
                state.seq_num,
                state.view,
            )(#[trigger] self.messages[i]) && self.messages[i].block_id() == block_id
    }

    /// Whether the log has matching messages of the given kind from at least the given number of
    /// nodes.
    pub open spec fn has_required(
        self,
        msg_type: PbftMessageType,
        ref_msg: ParsedView,
        check_block: bool,
        required: int,
    ) -> bool {
        signers(self.messages.filter(matching(msg_type, ref_msg, check_block))).len() >= required
    }

    /// The log, cleaned up if it is full.
    pub open spec fn collected(self, seq_num: u64) -> LogView {
        if self.messages.len() >= self.max_log_size {
            LogView {
                messages: self.messages.filter(recent_message(seq_num)),
                blocks: self.blocks.filter(recent_block(seq_num)),
                max_log_size: self.max_log_size,
            }
        } else {
            self
        }
    }
}

/// What is taken from one element more of a list.
pub proof fn lemma_filter_step<T>(list: Seq<T>, i: int, pred: spec_fn(T) -> bool)
    requires
        0 <= i < list.len(),
    ensures
        list.take(i + 1).filter(pred) == (if pred(list[i]) {
            list.take(i).filter(pred).push(list[i])
        } else {
            list.take(i).filter(pred)
        }),
{
    reveal(Seq::filter);
    assert(list.take(i + 1).drop_last() =~= list.take(i));
    assert(list.take(i + 1).last() == list[i]);
}

/// The beginning and the end of going through a list.
pub proof fn lemma_filter_ends<T>(list: Seq<T>, pred: spec_fn(T) -> bool)
    ensures
        list.take(0).filter(pred) == Seq::<T>::empty(),
        list.take(list.len() as int) == list,
{
    reveal(Seq::filter);
    assert(list.take(0) =~= Seq::<T>::empty());
    assert(list.take(list.len() as int) =~= list);
}

/// Once something was found, it stays the first of what is found.
pub proof fn lemma_filter_first<T>(list: Seq<T>, i: int, pred: spec_fn(T) -> bool)
    requires
        0 <= i < list.len(),
        pred(list[i]),
        list.take(i).filter(pred).len() == 0,
    ensures
        first_of(list.filter(pred)) == Some(list[i]),
    decreases list.len(),
{
    reveal(Seq::filter);
    if i == list.len() - 1 {
        lemma_filter_step(list, i, pred);
        lemma_filter_ends(list, pred);
    } else {
        assert(list.drop_last().take(i) =~= list.take(i));
        assert(list.drop_last()[i] == list[i]);
        lemma_filter_first(list.drop_last(), i, pred);
    }
}

impl Clone for PbftLog {
    fn clone(&self) -> (copy: Self)
        ensures
            copy@ == self@,
    {
        let mut messages: Vec<ParsedMessage> = Vec::new();
        let mut i: usize = 0;
        while i < self.messages.len()
            invariant
                i <= self.messages@.len(),
                messages@.len() == i,
                forall|j: int| 0 <= j < i ==> (#[trigger] messages@[j])@ == self.messages@[j]@,
            decreases self.messages@.len() - i,
        {
            messages.push(self.messages[i].clone());
            i += 1;
        }
        let mut blocks: Vec<Block> = Vec::new();
        let mut k: usize = 0;
        while k < self.blocks.len()
            invariant
                k <= self.blocks@.len(),
                blocks@.len() == k,
                forall|j: int| 0 <= j < k ==> (#[trigger] blocks@[j])@ == self.blocks@[j]@,
            decreases self.blocks@.len() - k,
        {
            blocks.push(self.blocks[k].clone());
            k += 1;
        }
        assert(message_views(messages@) =~= message_views(self.messages@));
        assert(block_views(blocks@) =~= block_views(self.blocks@));
        PbftLog { messages, blocks, max_log_size: self.max_log_size }
    }
}

impl PbftLog {
    /// Makes an empty log.
    pub fn new(config: &PbftConfig) -> (log: PbftLog)
        ensures
            log@ == (LogView {
                messages: Seq::empty(),
                blocks: Seq::empty(),
                max_log_size: config.max_log_size,
            }),
            log@.wf(),
    {
        let log = PbftLog {
            messages: Vec::new(),
            blocks: Vec::new(),
            max_log_size: config.max_log_size,
        };
        assert(message_views(log.messages@) =~= Seq::<ParsedView>::empty());
        assert(block_views(log.blocks@) =~= Seq::<BlockView>::empty());
        log
    }

    /// Whether a message that says the same is in the log.
    fn holds_message(&self, message: &ParsedMessage) -> (found: bool)
        ensures
            found == self@.holds(message@.message),
    {
        let mut i: usize = 0;
        while i < self.messages.len()
            invariant
                i <= self.messages@.len(),
                forall|j: int| 0 <= j < i ==> self@.messages[j].message != message@.message,
            decreases self.messages@.len() - i,
        {
            if self.messages[i].message.same_as(&message.message) {
                assert(self@.messages[i as int].message == message@.message);
                return true;
            }
            i += 1;
        }
        false
    }

    /// Adds a message to the log. Except for a view change, it must be for the current view.
    pub fn add_message(&mut self, msg: ParsedMessage, state: &PbftState) -> (r: Result<
        (),
        PbftError,
    >)
        requires
            old(self)@.wf(),
        ensures
            (final(self)@, r) == old(self)@.offered(msg@, state.view),
            final(self)@.wf(),
    {
        if msg.info().msg_type != PbftMessageType::ViewChange && msg.info().view != state.view {
            return Err(PbftError::InvalidMessage(MessageDefect::WrongView));
        }
        let ghost before = self@;
        if !self.holds_message(&msg) {
            self.messages.push(msg);
            assert(self@.messages =~= before.messages.push(msg@));
            assert forall|i: int, j: int|
                #![trigger self@.messages[i], self@.messages[j]]
                0 <= i < j < self@.messages.len() implies self@.messages[i].message
                != self@.messages[j].message by {
                assert(self@.messages[i] == before.messages[i]);
                if j < before.messages.len() {
                    assert(self@.messages[j] == before.messages[j]);
                }
            }
        }
        Ok(())
    }

    /// Adds a block to the log.
    pub fn add_block(&mut self, block: Block)
        requires
            old(self)@.wf(),
        ensures
            final(self)@ == old(self)@.with_block(block@),
            final(self)@.wf(),
    {
        let ghost before = self@;
        let mut i: usize = 0;
        while i < self.blocks.len()
            invariant
                i <= self.blocks@.len(),
                self@ == before,
                before.wf(),
                forall|j: int| 0 <= j < i ==> self@.blocks[j] != block@,
                *self == *old(self),
            decreases self.blocks@.len() - i,
        {
            if self.blocks[i].same_as(&block) {
                assert(self@.blocks[i as int] == block@);
                return ;
            }
            i += 1;
        }
        self.blocks.push(block);
        assert(self@.blocks =~= before.blocks.push(block@));
        assert forall|i: int, j: int|
            #![trigger self@.blocks[i], self@.blocks[j]]
            0 <= i < j < self@.blocks.len() implies self@.blocks[i] != self@.blocks[j] by {
            assert(self@.blocks[i] == before.blocks[i]);
            if j < before.blocks.len() {
                assert(self@.blocks[j] == before.blocks[j]);
            }
        }
    }

    /// The block with the given ID.
    pub fn get_block_with_id(&self, block_id: &[u8]) -> (r: Option<&Block>)
        ensures
            (match r {
                Some(block) => self@.block_with_id(block_id@) == Some(block@),
                None => self@.block_with_id(block_id@) is None,
            }),
    {
        let ghost pred = with_id(block_id@);
        let mut i: usize = 0;
        proof {
            lemma_filter_ends(self@.blocks, pred);
        }
        while i < self.blocks.len()
            invariant
                i <= self.blocks@.len(),
                pred == with_id(block_id@),
                self@.blocks.take(i as int).filter(pred) == Seq::<BlockView>::empty(),
            decreases self.blocks@.len() - i,
        {
            proof {
                lemma_filter_step(self@.blocks, i as int, pred);
            }
            if same_bytes(&self.blocks[i].block_id, block_id) {
                proof {
                    lemma_filter_first(self@.blocks, i as int, pred);
                }
                return Some(&self.blocks[i]);
            }
            i += 1;
        }
        None
    }

    /// The blocks with the given number.
    pub fn get_blocks_with_num(&self, block_num: u64) -> (blocks: Vec<&Block>)
        ensures
            referenced_blocks(blocks@) == self@.blocks_with_num(block_num),
    {
        let ghost pred = with_num(block_num);
        let mut blocks: Vec<&Block> = Vec::new();
        let mut i: usize = 0;
        proof {
            lemma_filter_ends(self@.blocks, pred);
            assert(referenced_blocks(blocks@) =~= Seq::<BlockView>::empty());
        }
        while i < self.blocks.len()
            invariant
                i <= self.blocks@.len(),
                pred == with_num(block_num),
                self@.blocks.take(i as int).filter(pred) == referenced_blocks(blocks@),
            decreases self.blocks@.len() - i,
        {
            proof {
                lemma_filter_step(self@.blocks, i as int, pred);
            }
            if self.blocks[i].block_num == block_num {
                let ghost before = referenced_blocks(blocks@);
                blocks.push(&self.blocks[i]);
                assert(referenced_blocks(blocks@) =~= before.push(self@.blocks[i as int]));
            }
            i += 1;
        }
        blocks
    }

    /// The messages of the given kind at the given sequence number.
    pub fn get_messages_of_type_seq(&self, msg_type: PbftMessageType, seq_num: u64) -> (messages:
        Vec<&ParsedMessage>)
        ensures
            referenced_messages(messages@) == self@.messages.filter(of_type_seq(msg_type, seq_num)),
    {
        let ghost pred = of_type_seq(msg_type, seq_num);
        let mut messages: Vec<&ParsedMessage> = Vec::new();
        let mut i: usize = 0;
        proof {
            lemma_filter_ends(self@.messages, pred);
            assert(referenced_messages(messages@) =~= Seq::<ParsedView>::empty());
        }
        while i < self.messages.len()
            invariant
                i <= self.messages@.len(),
                pred == of_type_seq(msg_type, seq_num),
                self@.messages.take(i as int).filter(pred) == referenced_messages(messages@),
            decreases self.messages@.len() - i,
        {
            proof {
                lemma_filter_step(self@.messages, i as int, pred);
            }
            let info = self.messages[i].info();
            if info.msg_type == msg_type && info.seq_num == seq_num {
                let ghost before = referenced_messages(messages@);
                messages.push(&self.messages[i]);
                assert(referenced_messages(messages@) =~= before.push(self@.messages[i as int]));
            }
            i += 1;
        }
        messages
    }

    /// The messages of the given kind at the given view.
    pub fn get_messages_of_type_view(&self, msg_type: PbftMessageType, view: u64) -> (messages: Vec<
        &ParsedMessage,
    >)
        ensures
            referenced_messages(messages@) == self@.messages.filter(of_type_view(msg_type, view)),
    {
        let ghost pred = of_type_view(msg_type, view);
        let mut messages: Vec<&ParsedMessage> = Vec::new();
        let mut i: usize = 0;
        proof {
            lemma_filter_ends(self@.messages, pred);
            assert(referenced_messages(messages@) =~= Seq::<ParsedView>::empty());
        }
        while i < self.messages.len()
            invariant
                i <= self.messages@.len(),
                pred == of_type_view(msg_type, view),
                self@.messages.take(i as int).filter(pred) == referenced_messages(messages@),
            decreases self.messages@.len() - i,
        {
            proof {
                lemma_filter_step(self@.messages, i as int, pred);
            }
            let info = self.messages[i].info();
            if info.msg_type == msg_type && info.view == view {
                let ghost before = referenced_messages(messages@);
                messages.push(&self.messages[i]);
                assert(referenced_messages(messages@) =~= before.push(self@.messages[i as int]));
            }
            i += 1;
        }
        messages
    }

    /// The messages of the given kind at the given sequence number and view.
    pub fn get_messages_of_type_seq_view(
        &self,
        msg_type: PbftMessageType,
        seq_num: u64,
        view: u64,
    ) -> (messages: Vec<&ParsedMessage>)
        ensures
            referenced_messages(messages@) == self@.messages.filter(
                of_type_seq_view(msg_type, seq_num, view),
            ),
    {
        let ghost pred = of_type_seq_view(msg_type, seq_num, view);
        let mut messages: Vec<&ParsedMessage> = Vec::new();
        let mut i: usize = 0;
        proof {
            lemma_filter_ends(self@.messages, pred);
            assert(referenced_messages(messages@) =~= Seq::<ParsedView>::empty());
        }
        while i < self.messages.len()
            invariant
                i <= self.messages@.len(),
                pred == of_type_seq_view(msg_type, seq_num, view),
                self@.messages.take(i as int).filter(pred) == referenced_messages(messages@),
            decreases self.messages@.len() - i,
        {
            proof {
                lemma_filter_step(self@.messages, i as int, pred);
            }
            let info = self.messages[i].info();
            if info.msg_type == msg_type && info.seq_num == seq_num && info.view == view {
                let ghost before = referenced_messages(messages@);
                messages.push(&self.messages[i]);
                assert(referenced_messages(messages@) =~= before.push(self@.messages[i as int]));
            }
            i += 1;
        }
        messages
    }

    /// The first message of the given kind with the sequence number and the view of another.
    pub fn get_first_msg(&self, info: &PbftMessageInfo, msg_type: PbftMessageType) -> (r: Option<
        &ParsedMessage,
    >)
        ensures
            (match r {
                Some(message) => self@.first_msg(info@, msg_type) == Some(message@),
                None => self@.first_msg(info@, msg_type) is None,
            }),
    {
        let messages = self.get_messages_of_type_seq_view(msg_type, info.seq_num, info.view);
        if messages.len() > 0 {
            assert(referenced_messages(messages@)[0] == messages@[0]@);
            Some(messages[0])
        } else {
            None
        }
    }

    /// Whether the log has a `PrePrepare` for the given block at the current sequence number and
    /// view.
    pub fn has_pre_prepare(&self, state: &PbftState, block_id: &[u8]) -> (found: bool)
        ensures
            found == self@.has_pre_prepare(state@, block_id@),
    {
        let ghost pred = of_type_seq_view(PbftMessageType::PrePrepare, state.seq_num, state.view);
        let mut i: usize = 0;
        while i < self.messages.len()
            invariant
                i <= self.messages@.len(),
                pred == of_type_seq_view(PbftMessageType::PrePrepare, state.seq_num, state.view),
                forall|j: int|
                    0 <= j < i ==> !(pred(#[trigger] self@.messages[j])
                        && self@.messages[j].block_id() == block_id@),
            decreases self.messages@.len() - i,
        {
            let message = &self.messages[i];
            let info = message.info();
            if info.msg_type == PbftMessageType::PrePrepare && info.seq_num == state.seq_num
                && info.view == state.view && same_bytes(&message.get_block_id(), block_id) {
                assert(pred(self@.messages[i as int]));
                return true;
            }
            assert(!(pred(self@.messages[i as int]) && self@.messages[i as int].block_id()
                == block_id@));
            i += 1;
        }
        false
    }

    /// Whether the log has matching messages of the given kind from at least the given number of
    /// different nodes: they are for the same view as the given message and, where blocks are to be
    /// checked too, for the same sequence number and block.
    pub fn has_required_msgs(
        &self,
        msg_type: PbftMessageType,
        ref_msg: &ParsedMessage,
        check_block: bool,
        required: u64,
    ) -> (enough: bool)
        ensures
            enough == self@.has_required(msg_type, ref_msg@, check_block, required as int),
    {
        let ghost pred = matching(msg_type, ref_msg@, check_block);
        let view = ref_msg.info().view;
        let seq_num = ref_msg.info().seq_num;
        let block_id = ref_msg.get_block_id();
        let mut ids: Vec<Vec<u8>> = Vec::new();
        let mut i: usize = 0;
        proof {
            lemma_filter_ends(self@.messages, pred);
            assert(byte_set(ids@) =~= signers(Seq::<ParsedView>::empty()));
        }
        while i < self.messages.len()
            invariant
                i <= self.messages@.len(),
                pred == matching(msg_type, ref_msg@, check_block),
                view == ref_msg@.info().view,
                seq_num == ref_msg@.info().seq_num,
                block_id@ == ref_msg@.block_id(),
                byte_strings(ids@).no_duplicates(),
                byte_set(ids@) == signers(self@.messages.take(i as int).filter(pred)),
            decreases self.messages@.len() - i,
        {
            let ghost found = self@.messages.take(i as int).filter(pred);
            proof {
                lemma_filter_step(self@.messages, i as int, pred);
            }
            let message = &self.messages[i];
            let info = message.info();
            if info.msg_type == msg_type && info.view == view && (!check_block || (info.seq_num
                == seq_num && same_bytes(&message.get_block_id(), &block_id))) {
                insert_bytes(&mut ids, &info.signer_id);
                proof {
                    lemma_signers_push(found, self@.messages[i as int]);
                }
            }
            i += 1;
        }
        proof {
            lemma_filter_ends(self@.messages, pred);
            byte_strings(ids@).unique_seq_to_set();
        }
        ids.len() as u64 >= required
    }

    /// Forgets messages and blocks that are no longer needed, if the log is full. What is for the
    /// sequence number before the given one is still needed, to build seals.
    pub fn garbage_collect(&mut self, current_seq_num: u64)
        requires
            current_seq_num >= 1,
            old(self)@.wf(),
        ensures
            final(self)@ == old(self)@.collected(current_seq_num),
            final(self)@.wf(),
    {
        if (self.messages.len() as u64) < self.max_log_size {
            return ;
        }
        let ghost before = self@;
        let ghost keep_message = recent_message(current_seq_num);
        let ghost keep_block = recent_block(current_seq_num);
        let mut messages: Vec<ParsedMessage> = Vec::new();
        let mut i: usize = 0;
        proof {
            lemma_filter_ends(before.messages, keep_message);
            lemma_filter_ends(before.blocks, keep_block);
            assert(message_views(messages@) =~= Seq::<ParsedView>::empty());
        }
        while i < self.messages.len()
            invariant
                i <= self.messages@.len(),
                before == self@,
                *self == *old(self),
                current_seq_num >= 1,
                keep_message == recent_message(current_seq_num),
                before.messages.take(i as int).filter(keep_message) == message_views(messages@),
            decreases self.messages@.len() - i,
        {
            proof {
                lemma_filter_step(before.messages, i as int, keep_message);
            }
            if self.messages[i].info().seq_num >= current_seq_num - 1 {
                let ghost kept = message_views(messages@);
                messages.push(self.messages[i].clone());
                assert(message_views(messages@) =~= kept.push(before.messages[i as int]));
            }
            i += 1;
        }
        let mut blocks: Vec<Block> = Vec::new();
        let mut k: usize = 0;
        assert(block_views(blocks@) =~= Seq::<BlockView>::empty());
        while k < self.blocks.len()
            invariant
                k <= self.blocks@.len(),
                before == self@,
                *self == *old(self),
                current_seq_num >= 1,
                keep_block == recent_block(current_seq_num),
                before.blocks.take(k as int).filter(keep_block) == block_views(blocks@),
            decreases self.blocks@.len() - k,
        {
            proof {
                lemma_filter_step(before.blocks, k as int, keep_block);
            }
            if self.blocks[k].block_num >= current_seq_num - 1 {
                let ghost kept = block_views(blocks@);
                blocks.push(self.blocks[k].clone());
                assert(block_views(blocks@) =~= kept.push(before.blocks[k as int]));
            }
            k += 1;
        }
        self.messages = messages;
        self.blocks = blocks;
        proof {
            assert(self@ =~= before.collected(current_seq_num));
            lemma_collected_wf(before, current_seq_num);
        }
    }
}

/// One message more adds its signer.
pub proof fn lemma_signers_push(messages: Seq<ParsedView>, message: ParsedView)
    ensures
        signers(messages.push(message)) == signers(messages).insert(message.info().signer_id),
{
    let ids = messages.map_values(|m: ParsedView| m.info().signer_id);
    let more = messages.push(message).map_values(|m: ParsedView| m.info().signer_id);
    assert(more =~= ids.push(message.info().signer_id));
    assert forall|b: Seq<u8>| more.contains(b) == (ids.contains(b) || b
        == message.info().signer_id) by {
        if ids.contains(b) {
            assert(more[ids.index_of(b)] == b);
        }
        if b == message.info().signer_id {
            assert(more[ids.len() as int] == b);
        }
    }
    assert(signers(messages.push(message)) =~= signers(messages).insert(message.info().signer_id));
}

/// What was taken from a list stands in it, in the same order.
pub proof fn lemma_filter_positions<T>(list: Seq<T>, pred: spec_fn(T) -> bool) -> (positions: Seq<
    int,
>)
    ensures
        positions.len() == list.filter(pred).len(),
        forall|i: int|
            #![trigger positions[i]]
            0 <= i < positions.len() ==> 0 <= positions[i] < list.len() && list[positions[i]]
                == list.filter(pred)[i] && pred(list[positions[i]]),
        forall|i: int, j: int|
            #![trigger positions[i], positions[j]]
            0 <= i < j < positions.len() ==> positions[i] < positions[j],
    decreases list.len(),
{
    reveal(Seq::filter);
    if list.len() == 0 {
        Seq::empty()
    } else {
        let before = lemma_filter_positions(list.drop_last(), pred);
        if pred(list.last()) {
            before.push(list.len() - 1)
        } else {
            before
        }
    }
}

/// Cleaning up leaves nothing twice.
pub proof fn lemma_collected_wf(log: LogView, seq_num: u64)
    requires
        log.wf(),
    ensures
        log.collected(seq_num).wf(),
{
    let messages = lemma_filter_positions(log.messages, recent_message(seq_num));
    let blocks = lemma_filter_positions(log.blocks, recent_block(seq_num));
    let after = log.collected(seq_num);
    if log.messages.len() >= log.max_log_size {
        assert forall|i: int, j: int|
            #![trigger after.messages[i], after.messages[j]]
            0 <= i < j < after.messages.len() implies after.messages[i].message
            != after.messages[j].message by {
            assert(messages[i] < messages[j]);
            assert(log.messages[messages[i]].message != log.messages[messages[j]].message);
        }
        assert forall|i: int, j: int|
            #![trigger after.blocks[i], after.blocks[j]]
            0 <= i < j < after.blocks.len() implies after.blocks[i] != after.blocks[j] by {
            assert(blocks[i] < blocks[j]);
            assert(log.blocks[blocks[i]] != log.blocks[blocks[j]]);
        }
    }
}

} // verus!
