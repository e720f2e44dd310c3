//! What the node asks of the validator, and what the validator answers.
//!
//! The node does no input or output itself. It writes down its requests, in order, and reads the
//! answers to those whose outcome it depends on. When it comes to such a request and there is no
//! answer yet, it stops: whoever drives it carries out the requests, adds the answer, and lets it
//! handle the same update again from the start.

use vstd::prelude::*;

use crate::block::{BlockId, PeerId};
use crate::byte_string::copy_bytes;
use crate::config::optional_text;
use crate::error::Halt;
use crate::message_type::PbftMessageType;

verus! {

/// A request to the validator.
#[derive(Debug, PartialEq, Eq)]
pub enum ServiceRequest {
    /// Send a message to all peers
    Broadcast { msg_type: PbftMessageType, payload: Vec<u8> },
    /// Send a message to one peer
    SendTo { peer: PeerId, msg_type: PbftMessageType, payload: Vec<u8> },
    /// Start a block on top of the given one, or of the chain head
    InitializeBlock { previous_id: Option<BlockId> },
    /// Make a digest of the block that was started
    SummarizeBlock,
    /// Publish the block that was started, with the given data for consensus
    FinalizeBlock { data: Vec<u8> },
    /// Commit a block
    CommitBlock { block_id: BlockId },
    /// Reject a block
    FailBlock { block_id: BlockId },
    /// Read the setting `sawtooth.consensus.pbft.peers` as of the given block
    GetPeersSetting { block_id: BlockId },
    /// Verify a signature; the signature and the public key are in hexadecimal
    VerifySignature { signature: String, message: Vec<u8>, public_key: String },
}

/// The contents of a `ServiceRequest`.
#[verifier::ext_equal]
pub enum RequestView {
    Broadcast { msg_type: PbftMessageType, payload: Seq<u8> },
    SendTo { peer: Seq<u8>, msg_type: PbftMessageType, payload: Seq<u8> },
    InitializeBlock { previous_id: Option<Seq<u8>> },
    SummarizeBlock,
    FinalizeBlock { data: Seq<u8> },
    CommitBlock { block_id: Seq<u8> },
    FailBlock { block_id: Seq<u8> },
    GetPeersSetting { block_id: Seq<u8> },
    VerifySignature { signature: Seq<char>, message: Seq<u8>, public_key: Seq<char> },
}

impl View for ServiceRequest {
    type V = RequestView;

    open spec fn view(&self) -> RequestView {
        match self {
            ServiceRequest::Broadcast { msg_type, payload } => RequestView::Broadcast {
                msg_type: *msg_type,
                payload: payload@,
            },
            ServiceRequest::SendTo { peer, msg_type, payload } => RequestView::SendTo {
                peer: peer@,
                msg_type: *msg_type,
                payload: payload@,
            },
            ServiceRequest::InitializeBlock { previous_id } => RequestView::InitializeBlock {
                previous_id: match previous_id {
                    Some(block_id) => Some(block_id@),
                    None => None,
                },
            },
            ServiceRequest::SummarizeBlock => RequestView::SummarizeBlock,
            ServiceRequest::FinalizeBlock { data } => RequestView::FinalizeBlock { data: data@ },
            ServiceRequest::CommitBlock { block_id } => RequestView::CommitBlock {
                block_id: block_id@,
            },
            ServiceRequest::FailBlock { block_id } => RequestView::FailBlock {
                block_id: block_id@,
            },
            ServiceRequest::GetPeersSetting { block_id } => RequestView::GetPeersSetting {
                block_id: block_id@,
            },
            ServiceRequest::VerifySignature { signature, message, public_key } =>
                RequestView::VerifySignature {
                signature: signature@,
                message: message@,
                public_key: public_key@,
            },
        }
    }
}

/// What came of verifying a signature.
#[derive(Clone, Copy, Debug, PartialEq, Eq, Structural)]
pub enum SignatureCheck {
    /// The signature is that of the signer
    Valid,
    /// The signature is not that of the signer
    Invalid,
    /// The public key could not be parsed
    BadPublicKey,
    /// There is no way to verify signatures
    NoContext,
    /// The verification failed
    Failed,
}

/// An answer of the validator.
#[derive(Debug, PartialEq, Eq)]
pub enum ServiceReply {
    /// The request was carried out
    Done,
    /// The request could not be carried out
    Failed,
    /// The value of the setting, if it is set
    PeersSetting(Option<String>),
    /// What came of verifying the signature
    Signature(SignatureCheck),
}

/// The contents of a `ServiceReply`.
#[verifier::ext_equal]
pub enum ReplyView {
    Done,
    Failed,
    PeersSetting(Option<Seq<char>>),
    Signature(SignatureCheck),
}

impl View for ServiceReply {
    type V = ReplyView;

    open spec fn view(&self) -> ReplyView {
        match self {
            ServiceReply::Done => ReplyView::Done,
            ServiceReply::Failed => ReplyView::Failed,
            ServiceReply::PeersSetting(value) => ReplyView::PeersSetting(optional_text(*value)),
            ServiceReply::Signature(check) => ReplyView::Signature(*check),
        }
    }
}

/// The requests that were made, and the answers that were not read yet.
#[derive(Debug)]
pub struct Service {
    pub requests: Vec<ServiceRequest>,
    pub replies: Vec<ServiceReply>,
}

/// The contents of a `Service`.
#[verifier::ext_equal]
pub struct Exchange {
    pub requests: Seq<RequestView>,
    pub replies: Seq<ReplyView>,
}

/// The contents of a list of requests.
pub open spec fn request_views(requests: Seq<ServiceRequest>) -> Seq<RequestView> {
    Seq::new(requests.len(), |i: int| requests[i]@)
}

/// The contents of a list of answers.
pub open spec fn reply_views(replies: Seq<ServiceReply>) -> Seq<ReplyView> {
    Seq::new(replies.len(), |i: int| replies[i]@)
}

impl View for Service {
    type V = Exchange;

    open spec fn view(&self) -> Exchange {
        Exchange {
            requests: request_views(self.requests@),
            replies: reply_views(self.replies@),
        }
    }
}

impl Exchange {
    /// The exchange after a request whose outcome does not matter.
    pub open spec fn noted(self, request: RequestView) -> Exchange {
        Exchange { requests: self.requests.push(request), replies: self.replies }
    }

    /// The exchange after a request whose outcome matters, and the answer.
    pub open spec fn asked(self, request: RequestView) -> (Exchange, Result<ReplyView, Halt>) {
        if self.replies.len() > 0 {
            (
                Exchange {
                    requests: self.requests.push(request),
                    replies: self.replies.drop_first(),
                },
                Ok(self.replies[0]),
            )
        } else {
            (self.noted(request), Err(Halt::AwaitingReply))
        }
    }

    /// The exchange after a request that is either carried out or not, and whether it was.
    pub open spec fn attempted(self, request: RequestView) -> (Exchange, Result<bool, Halt>) {
        let (after, answer) = self.asked(request);
        (
            after,
            match answer {
                Ok(ReplyView::Done) => Ok(true),
                Ok(ReplyView::Failed) => Ok(false),
                Ok(_) => Err(Halt::UnexpectedReply),
                Err(halt) => Err(halt),
            },
        )
    }

    /// The exchange after the setting that lists the peers was asked for, and its value.
    pub open spec fn setting_read(self, block_id: Seq<u8>) -> (
        Exchange,
        Result<Option<Seq<char>>, Halt>,
    ) {
        let (after, answer) = self.asked(RequestView::GetPeersSetting { block_id });
        (
            after,
            match answer {
                Ok(ReplyView::PeersSetting(value)) => Ok(value),
                Ok(_) => Err(Halt::UnexpectedReply),
                Err(halt) => Err(halt),
            },
        )
    }

    /// The exchange after a signature was to be verified, and what came of it.
    pub open spec fn signature_checked(
        self,
        signature: Seq<char>,
        message: Seq<u8>,
        public_key: Seq<char>,
    ) -> (Exchange, Result<SignatureCheck, Halt>) {
        let (after, answer) = self.asked(
            RequestView::VerifySignature { signature, message, public_key },
        );
        (
            after,
            match answer {
                Ok(ReplyView::Signature(check)) => Ok(check),
                Ok(_) => Err(Halt::UnexpectedReply),
                Err(halt) => Err(halt),
            },
        )
    }
}

impl Clone for ServiceRequest {
    fn clone(&self) -> (copy: Self)
        ensures
            copy@ == self@,
    {
        match self {
            ServiceRequest::Broadcast { msg_type, payload } => ServiceRequest::Broadcast {
                msg_type: *msg_type,
                payload: copy_bytes(payload),
            },
            ServiceRequest::SendTo { peer, msg_type, payload } => ServiceRequest::SendTo {
                peer: copy_bytes(peer),
                msg_type: *msg_type,
                payload: copy_bytes(payload),
            },
            ServiceRequest::InitializeBlock { previous_id } => ServiceRequest::InitializeBlock {
                previous_id: match previous_id {
                    Some(block_id) => Some(copy_bytes(block_id)),
                    None => None,
                },
            },
            ServiceRequest::SummarizeBlock => ServiceRequest::SummarizeBlock,
            ServiceRequest::FinalizeBlock { data } => ServiceRequest::FinalizeBlock {
                data: copy_bytes(data),
            },
            ServiceRequest::CommitBlock { block_id } => ServiceRequest::CommitBlock {
                block_id: copy_bytes(block_id),
            },
            ServiceRequest::FailBlock { block_id } => ServiceRequest::FailBlock {
                block_id: copy_bytes(block_id),
            },
            ServiceRequest::GetPeersSetting { block_id } => ServiceRequest::GetPeersSetting {
                block_id: copy_bytes(block_id),
            },
            ServiceRequest::VerifySignature { signature, message, public_key } => {
                ServiceRequest::VerifySignature {
                    signature: signature.clone(),
                    message: copy_bytes(message),
                    public_key: public_key.clone(),
                }
            },
        }
    }
}

impl Clone for ServiceReply {
    fn clone(&self) -> (copy: Self)
        ensures
            copy@ == self@,
    {
        match self {
            ServiceReply::Done => ServiceReply::Done,
            ServiceReply::Failed => ServiceReply::Failed,
            ServiceReply::PeersSetting(value) => ServiceReply::PeersSetting(
                match value {
                    Some(text) => Some(text.clone()),
                    None => None,
                },
            ),
            ServiceReply::Signature(check) => ServiceReply::Signature(*check),
        }
    }
}

impl Clone for Service {
    fn clone(&self) -> (copy: Self)
        ensures
            copy@ == self@,
    {
        let mut requests: Vec<ServiceRequest> = Vec::new();
        let mut i: usize = 0;
        while i < self.requests.len()
            invariant
                i <= self.requests@.len(),
                requests@.len() == i,
                forall|j: int| 0 <= j < i ==> (#[trigger] requests@[j])@ == self.requests@[j]@,
            decreases self.requests@.len() - i,
        {
            requests.push(self.requests[i].clone());
            i += 1;
        }
        let mut replies: Vec<ServiceReply> = Vec::new();
        let mut k: usize = 0;
        while k < self.replies.len()
            invariant
                k <= self.replies@.len(),
                replies@.len() == k,
                forall|j: int| 0 <= j < k ==> (#[trigger] replies@[j])@ == self.replies@[j]@,
            decreases self.replies@.len() - k,
        {
            replies.push(self.replies[k].clone());
            k += 1;
        }
        assert(request_views(requests@) =~= request_views(self.requests@));
        assert(reply_views(replies@) =~= reply_views(self.replies@));
        Service { requests, replies }
    }
}

impl Service {
    /// No requests and no answers.
    pub fn new() -> (service: Service)
        ensures
            service@ == (Exchange { requests: Seq::empty(), replies: Seq::empty() }),
    {
        let service = Service { requests: Vec::new(), replies: Vec::new() };
        assert(request_views(service.requests@) =~= Seq::<RequestView>::empty());
        assert(reply_views(service.replies@) =~= Seq::<ReplyView>::empty());
        service
    }

    /// Makes a request whose outcome does not matter.
    pub fn note(&mut self, request: ServiceRequest)
        ensures
            final(self)@ == old(self)@.noted(request@),
    {
        let ghost before = self@;
        self.requests.push(request);
        assert(self@.requests =~= before.requests.push(request@));
    }

    /// Makes a request and reads the answer, if there is one.
    pub fn ask(&mut self, request: ServiceRequest) -> (answer: Result<ServiceReply, Halt>)
        ensures
            (match answer {
                Ok(reply) => old(self)@.asked(request@) == (final(self)@, Ok::<ReplyView, Halt>(
                    reply@,
                )),
                Err(halt) => old(self)@.asked(request@) == (final(self)@, Err::<ReplyView, Halt>(
                    halt,
                )),
            }),
    {
        let ghost before = self@;
        self.requests.push(request);
        assert(self@.requests =~= before.requests.push(request@));
        if self.replies.len() > 0 {
            let reply = self.replies.remove(0);
            proof {
                assert(self@.replies =~= before.replies.drop_first());
                assert(reply@ == before.replies[0]);
            }
            Ok(reply)
        } else {
            Err(Halt::AwaitingReply)
        }
    }

    /// Makes a request that is either carried out or not.
    pub fn attempt(&mut self, request: ServiceRequest) -> (done: Result<bool, Halt>)
        ensures
            (final(self)@, done) == old(self)@.attempted(request@),
    {
        match self.ask(request) {
            Ok(ServiceReply::Done) => Ok(true),
            Ok(ServiceReply::Failed) => Ok(false),
            Ok(_) => Err(Halt::UnexpectedReply),
            Err(halt) => Err(halt),
        }
    }

    /// Asks for the value of the setting that lists the peers.
    pub fn read_peers_setting(&mut self, block_id: BlockId) -> (value: Result<Option<String>, Halt>)
        ensures
            (match value {
                Ok(text) => old(self)@.setting_read(block_id@) == (final(self)@, Ok::<
                    Option<Seq<char>>,
                    Halt,
                >(optional_text(text))),
                Err(halt) => old(self)@.setting_read(block_id@) == (final(self)@, Err::<
                    Option<Seq<char>>,
                    Halt,
                >(halt)),
            }),
    {
        match self.ask(ServiceRequest::GetPeersSetting { block_id }) {
            Ok(ServiceReply::PeersSetting(value)) => Ok(value),
            Ok(_) => Err(Halt::UnexpectedReply),
            Err(halt) => Err(halt),
        }
    }

    /// Asks for a signature to be verified.
    pub fn check_signature(&mut self, signature: String, message: Vec<u8>, public_key: String) -> (r:
        Result<SignatureCheck, Halt>)
        ensures
            (final(self)@, r) == old(self)@.signature_checked(signature@, message@, public_key@),
    {
        match self.ask(ServiceRequest::VerifySignature { signature, message, public_key }) {
            Ok(ServiceReply::Signature(check)) => Ok(check),
            Ok(_) => Err(Halt::UnexpectedReply),
            Err(halt) => Err(halt),
        }
    }
}

} // verus!
