//! Messages, parsed and together with what is needed to hand them on as votes.

use vstd::prelude::*;

use crate::block::BlockId;
use crate::byte_string::{copy_bytes, same_bytes};
use crate::error::{MessageDefect, PbftError, Unparsed};
use crate::message_type::PbftMessageType;
use crate::proto::{InfoView, MessageView, PbftMessage, PbftMessageInfo};
use crate::vote::{
    same_votes, NewViewView, PbftNewView, PbftSealResponse, PbftSignedVote, SealResponseView,
    VoteView,
};

verus! {

/// What a message says, by its kind.
#[derive(Debug)]
pub enum MessageContent {
    Message(PbftMessage),
    NewView(PbftNewView),
    SealResponse(PbftSealResponse),
}

/// The contents of a `MessageContent`.
#[verifier::ext_equal]
pub enum ContentView {
    Message(MessageView),
    NewView(NewViewView),
    SealResponse(SealResponseView),
}

impl View for MessageContent {
    type V = ContentView;

    open spec fn view(&self) -> ContentView {
        match self {
            MessageContent::Message(message) => ContentView::Message(message@),
            MessageContent::NewView(message) => ContentView::NewView(message@),
            MessageContent::SealResponse(message) => ContentView::SealResponse(message@),
        }
    }
}

impl ContentView {
    /// What the message says of itself.
    pub open spec fn info(self) -> InfoView {
        match self {
            ContentView::Message(message) => message.info,
            ContentView::NewView(message) => message.info,
            ContentView::SealResponse(message) => message.info,
        }
    }

    /// The encoding.
    pub open spec fn encode(self) -> Seq<u8> {
        match self {
            ContentView::Message(message) => message.encode(),
            ContentView::NewView(message) => message.encode(),
            ContentView::SealResponse(message) => message.encode(),
        }
    }

    /// Whether the wire format can hold the message.
    pub open spec fn fits(self) -> bool {
        match self {
            ContentView::Message(message) => message.fits(),
            ContentView::NewView(message) => message.fits(),
            ContentView::SealResponse(message) => message.fits(),
        }
    }

    /// What the bytes say as a message of the given kind; `None` where they are none.
    pub open spec fn decode(bytes: Seq<u8>, msg_type: PbftMessageType) -> Option<ContentView> {
        match msg_type {
            PbftMessageType::NewView => match NewViewView::decode(bytes) {
                Some(message) => Some(ContentView::NewView(message)),
                None => None,
            },
            PbftMessageType::SealResponse => match SealResponseView::decode(bytes) {
                Some(message) => Some(ContentView::SealResponse(message)),
                None => None,
            },
            _ => match MessageView::decode(bytes) {
                Some(message) => Some(ContentView::Message(message)),
                None => None,
            },
        }
    }

    /// Whether what the message says is of the form that its kind calls for.
    pub open spec fn consistent(self) -> bool {
        match self {
            ContentView::Message(message) => message.info.msg_type != PbftMessageType::NewView
                && message.info.msg_type != PbftMessageType::SealResponse,
            ContentView::NewView(message) => message.info.msg_type == PbftMessageType::NewView,
            ContentView::SealResponse(message) => message.info.msg_type
                == PbftMessageType::SealResponse,
        }
    }
}

impl Clone for MessageContent {
    fn clone(&self) -> (copy: Self)
        ensures
            copy@ == self@,
    {
        match self {
            MessageContent::Message(message) => MessageContent::Message(message.clone()),
            MessageContent::NewView(message) => MessageContent::NewView(message.clone()),
            MessageContent::SealResponse(message) => MessageContent::SealResponse(message.clone()),
        }
    }
}

impl MessageContent {
    /// Whether two messages say the same.
    pub fn same_as(&self, other: &MessageContent) -> (same: bool)
        ensures
            same == (self@ == other@),
    {
        match (self, other) {
            (MessageContent::Message(a), MessageContent::Message(b)) => {
                a.info.same_as(&b.info) && same_bytes(&a.block_id, &b.block_id)
            },
            (MessageContent::NewView(a), MessageContent::NewView(b)) => {
                a.info.same_as(&b.info) && same_votes(&a.view_changes, &b.view_changes)
            },
            (MessageContent::SealResponse(a), MessageContent::SealResponse(b)) => {
                a.info.same_as(&b.info) && same_bytes(&a.seal.block_id, &b.seal.block_id)
                    && same_bytes(&a.seal.previous_id, &b.seal.previous_id) && same_votes(
                    &a.seal.commit_votes,
                    &b.seal.commit_votes,
                )
            },
            _ => false,
        }
    }
}

/// A message, with what its sender's validator signed.
#[derive(Debug)]
pub struct ParsedMessage {
    /// The encoded header; none if the message is from this node
    pub header_bytes: Vec<u8>,
    /// The signature of the header; none if the message is from this node
    pub header_signature: Vec<u8>,
    /// The encoded message
    pub message_bytes: Vec<u8>,
    /// Whether this node sent the message to itself
    pub from_self: bool,
    /// What the message says
    pub message: MessageContent,
}

/// The contents of a `ParsedMessage`.
#[verifier::ext_equal]
pub struct ParsedView {
    pub header_bytes: Seq<u8>,
    pub header_signature: Seq<u8>,
    pub message_bytes: Seq<u8>,
    pub from_self: bool,
    pub message: ContentView,
}

impl View for ParsedMessage {
    type V = ParsedView;

    open spec fn view(&self) -> ParsedView {
        ParsedView {
            header_bytes: self.header_bytes@,
            header_signature: self.header_signature@,
            message_bytes: self.message_bytes@,
            from_self: self.from_self,
            message: self.message@,
        }
    }
}

impl Clone for ParsedMessage {
    fn clone(&self) -> (copy: Self)
        ensures
            copy@ == self@,
    {
        ParsedMessage {
            header_bytes: copy_bytes(&self.header_bytes),
            header_signature: copy_bytes(&self.header_signature),
            message_bytes: copy_bytes(&self.message_bytes),
            from_self: self.from_self,
            message: self.message.clone(),
        }
    }
}

impl ParsedView {
    /// What the message says of itself.
    pub open spec fn info(self) -> InfoView {
        self.message.info()
    }

    /// The kind of the message.
    pub open spec fn msg_type(self) -> PbftMessageType {
        self.info().msg_type
    }

    /// The block that the message is about; none for a message that is about no block.
    pub open spec fn block_id(self) -> Seq<u8> {
        match self.message {
            ContentView::Message(message) => message.block_id,
            _ => Seq::empty(),
        }
    }

    /// A message of this node, as it sends it to itself.
    pub open spec fn own(message: ContentView) -> ParsedView {
        ParsedView {
            header_bytes: Seq::empty(),
            header_signature: Seq::empty(),
            message_bytes: message.encode(),
            from_self: true,
            message,
        }
    }

    /// The message of a vote; `None` where the vote holds none.
    pub open spec fn from_vote(vote: VoteView) -> Option<ParsedView> {
        match MessageView::decode(vote.message_bytes) {
            Some(message) => Some(
                ParsedView {
                    header_bytes: vote.header_bytes,
                    header_signature: vote.header_signature,
                    message_bytes: vote.message_bytes,
                    from_self: false,
                    message: ContentView::Message(message),
                },
            ),
            None => None,
        }
    }

    /// The message as a vote.
    pub open spec fn vote(self) -> VoteView {
        VoteView {
            header_bytes: self.header_bytes,
            header_signature: self.header_signature,
            message_bytes: self.message_bytes,
        }
    }

    /// What the bytes that this node sends itself as a message of the given kind amount to.
    pub open spec fn parsed(bytes: Seq<u8>, msg_type: PbftMessageType) -> Result<
        ParsedView,
        PbftError,
    > {
        match ContentView::decode(bytes, msg_type) {
            Some(message) => if message.info().msg_type == msg_type {
                Ok(
                    ParsedView {
                        header_bytes: Seq::empty(),
                        header_signature: Seq::empty(),
                        message_bytes: bytes,
                        from_self: true,
                        message,
                    },
                )
            } else {
                Err(PbftError::InvalidMessage(MessageDefect::WrongType))
            },
            None => Err(PbftError::SerializationError(Unparsed::PeerMessage)),
        }
    }
}

impl ParsedMessage {
    /// What the message says of itself.
    pub fn info(&self) -> (info: &PbftMessageInfo)
        ensures
            info@ == self@.info(),
    {
        match &self.message {
            MessageContent::Message(message) => &message.info,
            MessageContent::NewView(message) => &message.info,
            MessageContent::SealResponse(message) => &message.info,
        }
    }

    /// The block that the message is about; none for a message that is about no block.
    pub fn get_block_id(&self) -> (block_id: BlockId)
        ensures
            block_id@ == self@.block_id(),
    {
        match &self.message {
            MessageContent::Message(message) => copy_bytes(&message.block_id),
            _ => Vec::new(),
        }
    }

    /// A message of this node.
    pub fn from_pbft_message(message: PbftMessage) -> (parsed: ParsedMessage)
        ensures
            parsed@ == ParsedView::own(ContentView::Message(message@)),
    {
        let message_bytes = message.to_bytes();
        let parsed = ParsedMessage {
            header_bytes: Vec::new(),
            header_signature: Vec::new(),
            message_bytes,
            from_self: true,
            message: MessageContent::Message(message),
        };
        assert(parsed@ =~= ParsedView::own(ContentView::Message(message@)));
        parsed
    }

    /// A `NewView` of this node.
    pub fn from_new_view_message(message: PbftNewView) -> (parsed: ParsedMessage)
        ensures
            parsed@ == ParsedView::own(ContentView::NewView(message@)),
    {
        let message_bytes = message.to_bytes();
        let parsed = ParsedMessage {
            header_bytes: Vec::new(),
            header_signature: Vec::new(),
            message_bytes,
            from_self: true,
            message: MessageContent::NewView(message),
        };
        assert(parsed@ =~= ParsedView::own(ContentView::NewView(message@)));
        parsed
    }

    /// Parses bytes as a message of the given kind that this node sends itself. What was encoded as
    /// a message of its kind is parsed as it was.
    pub fn from_bytes(message: Vec<u8>, msg_type: PbftMessageType) -> (r: Result<
        ParsedMessage,
        PbftError,
    >)
        ensures
            (match r {
                Ok(parsed) => ParsedView::parsed(message@, msg_type) == Ok::<
                    ParsedView,
                    PbftError,
                >(parsed@),
                Err(error) => ParsedView::parsed(message@, msg_type) == Err::<
                    ParsedView,
                    PbftError,
                >(error),
            }),
            r matches Ok(parsed) ==> parsed@.message.consistent(),
            forall|content: ContentView|
                #![trigger content.encode()]
                message@ == content.encode() && content.fits() && content.consistent()
                    && content.info().msg_type == msg_type ==> ParsedView::parsed(message@, msg_type)
                    == Ok::<ParsedView, PbftError>(ParsedView::own(content)),
    {
        let content = match msg_type {
            PbftMessageType::NewView => {
                match PbftNewView::from_bytes(&message) {
                    Some(new_view) => Some(MessageContent::NewView(new_view)),
                    None => None,
                }
            },
            PbftMessageType::SealResponse => {
                match PbftSealResponse::from_bytes(&message) {
                    Some(response) => Some(MessageContent::SealResponse(response)),
                    None => None,
                }
            },
            _ => {
                match PbftMessage::from_bytes(&message) {
                    Some(pbft_message) => Some(MessageContent::Message(pbft_message)),
                    None => None,
                }
            },
        };
        proof {
            assert forall|content: ContentView|
                #![trigger content.encode()]
                message@ == content.encode() && content.fits() && content.consistent()
                    && content.info().msg_type == msg_type implies ParsedView::parsed(
                message@,
                msg_type,
            ) == Ok::<ParsedView, PbftError>(ParsedView::own(content)) by {
                match content {
                    ContentView::Message(m) => {
                        assert(m.encode() == message@);
                    },
                    ContentView::NewView(m) => {
                        assert(m.encode() == message@);
                    },
                    ContentView::SealResponse(m) => {
                        assert(m.encode() == message@);
                    },
                }
                assert(ContentView::decode(message@, msg_type) == Some(content));
            }
        }
        match content {
            Some(content) => {
                let parsed = ParsedMessage {
                    header_bytes: Vec::new(),
                    header_signature: Vec::new(),
                    message_bytes: message,
                    from_self: true,
                    message: content,
                };
                assert(parsed.header_bytes@ =~= Seq::<u8>::empty());
                assert(parsed.header_signature@ =~= Seq::<u8>::empty());
                if parsed.info().msg_type == msg_type {
                    Ok(parsed)
                } else {
                    Err(PbftError::InvalidMessage(MessageDefect::WrongType))
                }
            },
            None => Err(PbftError::SerializationError(Unparsed::PeerMessage)),
        }
    }

    /// Parses the message of a vote.
    pub fn from_signed_vote(vote: &PbftSignedVote) -> (r: Result<ParsedMessage, PbftError>)
        ensures
            (match r {
                Ok(parsed) => ParsedView::from_vote(vote@) == Some(parsed@),
                Err(error) => ParsedView::from_vote(vote@) is None && error
                    == PbftError::SerializationError(Unparsed::VoteMessage),
            }),
    {
        match PbftMessage::from_bytes(&vote.message_bytes) {
            Some(message) => {
                let parsed = ParsedMessage {
                    header_bytes: copy_bytes(&vote.header_bytes),
                    header_signature: copy_bytes(&vote.header_signature),
                    message_bytes: copy_bytes(&vote.message_bytes),
                    from_self: false,
                    message: MessageContent::Message(message),
                };
                assert(ParsedView::from_vote(vote@)->0 =~= parsed@);
                Ok(parsed)
            },
            None => Err(PbftError::SerializationError(Unparsed::VoteMessage)),
        }
    }
}

} // verus!
