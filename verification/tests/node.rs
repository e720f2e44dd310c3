//! The node, driven by a validator that keeps track of the chain.

use pbft_node::ballot::VoteCriteria;
use pbft_node::block::{Block, BlockId, PeerId};
use pbft_node::config::PbftConfig;
use pbft_node::error::{
    Halt, InternalFault, MessageDefect, PbftError, PrimaryFault, Rejection, SealFault, ServiceCall,
    SigningFault, Unparsed, VerifyError, VoteDefect,
};
use pbft_node::message::ParsedMessage;
use pbft_node::message_type::PbftMessageType;
use pbft_node::node::PbftNode;
use pbft_node::proto::{PbftMessage, PbftMessageInfo};
use pbft_node::service::{Service, ServiceReply, ServiceRequest, SignatureCheck};
use pbft_node::state::{PbftMode, PbftPhase, PbftState};
use pbft_node::timing::TimeoutState;
use pbft_node::vote::{PbftNewView, PbftSeal, PbftSealResponse, PbftSignedVote};
use protobuf::CodedOutputStream;
use sha2::{Digest, Sha256, Sha512};

const PEERS: &str = "[\"00\", \"01\", \"02\", \"03\"]";

/// A validator that roughly keeps track of the blockchain.
struct MockService {
    chain: Vec<BlockId>,
    peers: Option<String>,
    failing: bool,
    performed: Vec<ServiceRequest>,
}

impl MockService {
    fn new() -> MockService {
        MockService {
            // Create genesis block (but with actual ID)
            chain: vec![mock_block_id(0)],
            peers: Some(PEERS.to_string()),
            failing: false,
            performed: vec![],
        }
    }

    fn verify(signature: &str, message: &[u8], public_key: &str) -> SignatureCheck {
        let key_bytes = match hex::decode(public_key) {
            Ok(bytes) => bytes,
            Err(_) => return SignatureCheck::BadPublicKey,
        };
        let context = secp256k1::Secp256k1::new();
        let hash = secp256k1::Message::from_slice(&Sha256::digest(message)).unwrap();
        let signature = match secp256k1::ecdsa::Signature::from_compact(
            &hex::decode(signature).unwrap(),
        ) {
            Ok(signature) => signature,
            Err(_) => return SignatureCheck::Failed,
        };
        let key = match secp256k1::PublicKey::from_slice(&key_bytes) {
            Ok(key) => key,
            Err(_) => return SignatureCheck::Failed,
        };
        match context.verify_ecdsa(&hash, &signature, &key) {
            Ok(()) => SignatureCheck::Valid,
            Err(_) => SignatureCheck::Invalid,
        }
    }

    fn perform(&mut self, request: &ServiceRequest) -> ServiceReply {
        self.performed.push(request.clone());
        match request {
            ServiceRequest::GetPeersSetting { .. } => {
                ServiceReply::PeersSetting(self.peers.clone())
            }
            ServiceRequest::VerifySignature { signature, message, public_key } => {
                ServiceReply::Signature(MockService::verify(signature, message, public_key))
            }
            _ if self.failing => ServiceReply::Failed,
            ServiceRequest::CommitBlock { block_id } => {
                self.chain.push(block_id.clone());
                ServiceReply::Done
            }
            _ => ServiceReply::Done,
        }
    }

    fn chain_head(&self) -> Block {
        let prev_num = self.chain.len().checked_sub(2).unwrap_or(0);
        Block {
            block_id: self.chain.last().unwrap().clone(),
            previous_id: self.chain.get(prev_num).unwrap().clone(),
            signer_id: vec![],
            block_num: self.chain.len().checked_sub(1).unwrap_or(0) as u64,
            payload: vec![],
            summary: vec![],
        }
    }
}

/// Lets the node handle an update, carrying out its requests and answering them.
fn drive<F>(
    node: &mut PbftNode,
    state: &mut PbftState,
    service: &mut MockService,
    handle: F,
) -> Result<(), PbftError>
where
    F: Fn(&mut PbftNode, &mut PbftState) -> Result<(), PbftError>,
{
    let mut replies: Vec<ServiceReply> = vec![];
    let mut performed = 0;
    loop {
        let mut next_node = node.clone();
        let mut next_state = state.clone();
        next_node.service = Service { requests: vec![], replies: replies.clone() };
        let result = handle(&mut next_node, &mut next_state);
        let mut last = ServiceReply::Done;
        for request in &next_node.service.requests[performed..] {
            last = service.perform(request);
        }
        performed = next_node.service.requests.len();
        if result == Err(PbftError::Halted(Halt::AwaitingReply)) {
            replies.push(last);
        } else {
            assert!(next_node.service.replies.is_empty());
            next_node.service = Service::new();
            *node = next_node;
            *state = next_state;
            return result;
        }
    }
}

fn mock_config(num_nodes: u8) -> PbftConfig {
    PbftConfig {
        peers: (0..num_nodes).map(|i| vec![i]).collect(),
        faulty_primary_timeout: 30_000_000_000,
        commit_timeout: 30_000_000_000,
        view_change_duration: 5_000_000_000,
        exponential_retry_base: 100_000_000,
        exponential_retry_max: 60_000_000_000,
        forced_view_change_period: 30,
        max_log_size: 1000,
    }
}

/// Create a node, based on a given ID and chain head; it does not send messages to itself.
fn mock_node(node_id: PeerId, chain_head: Block) -> PbftNode {
    let cfg = mock_config(4);
    let mut node = PbftNode::new(&cfg, chain_head, Service::new(), node_id == vec![0]);
    node.self_sending = false;
    node
}

/// Create a deterministic BlockId hash based on a block number.
fn mock_block_id(num: u64) -> BlockId {
    Sha256::digest(format!("I'm a block with block num {}", num).as_bytes()).to_vec()
}

/// Create a mock Block, including only the BlockId, the BlockId of the previous block, and the
/// block number.
fn mock_block(num: u64) -> Block {
    let previous_id = if num == 0 { vec![] } else { mock_block_id(num - 1) };
    Block {
        block_id: mock_block_id(num),
        previous_id,
        signer_id: vec![],
        block_num: num,
        payload: vec![],
        summary: vec![],
    }
}

/// The private key number `i`.
fn mock_key(i: u8) -> secp256k1::SecretKey {
    secp256k1::SecretKey::from_slice(&[i + 1; 32]).unwrap()
}

/// Sign a message, as the validator of its sender does.
fn sign(message: &mut ParsedMessage, key: u8) {
    let context = secp256k1::Secp256k1::new();
    let secret = mock_key(key);
    let public = secp256k1::PublicKey::from_secret_key(&context, &secret);
    let mut header_bytes: Vec<u8> = vec![];
    let mut out = CodedOutputStream::vec(&mut header_bytes);
    out.write_bytes(1, &public.serialize()).unwrap();
    out.write_bytes(2, &Sha512::digest(&message.message_bytes)).unwrap();
    out.flush().unwrap();
    drop(out);
    let hash = secp256k1::Message::from_slice(&Sha256::digest(&header_bytes)).unwrap();
    message.header_signature = context.sign_ecdsa(&hash, &secret).serialize_compact().to_vec();
    message.header_bytes = header_bytes;
    message.from_self = false;
}

/// Create a Commit message of a peer, signed.
fn mock_commit(view: u64, seq_num: u64, block_id: BlockId, peer: u8) -> ParsedMessage {
    let info = PbftMessageInfo::new_from(PbftMessageType::Commit, view, seq_num, vec![peer]);
    let mut message = ParsedMessage::from_pbft_message(PbftMessage { info, block_id });
    sign(&mut message, peer);
    message
}

/// Creates a block with a valid consensus seal for the previous block.
fn mock_block_with_seal(num: u64, node: &mut PbftNode, state: &mut PbftState) -> Block {
    let head = mock_block(num - 1);
    let mut block = mock_block(num);
    for i in 0..3 {
        let message = mock_commit(0, num - 1, head.block_id.clone(), i);
        node.msg_log.add_message(message, state).unwrap();
    }
    let seal = node.build_seal(state).unwrap();
    block.payload = seal.to_bytes();
    block
}

/// Create a signed ViewChange message.
fn mock_view_change(view: u64, seq_num: u64, peer: PeerId, from_self: bool) -> ParsedMessage {
    let key = peer[0];
    let info = PbftMessageInfo::new_from(PbftMessageType::ViewChange, view, seq_num, peer);
    let mut message =
        ParsedMessage::from_pbft_message(PbftMessage { info, block_id: vec![] });
    sign(&mut message, key);
    message.from_self = from_self;
    message
}

/// Create a mock PbftMessage.
fn mock_msg(
    msg_type: PbftMessageType,
    view: u64,
    seq_num: u64,
    block: Block,
    from: PeerId,
) -> ParsedMessage {
    let info = PbftMessageInfo::new_from(msg_type, view, seq_num, from);
    ParsedMessage::from_pbft_message(PbftMessage { info, block_id: block.block_id })
}

/// Make sure that receiving a `BlockNew` update works as expected for block #1.
#[test]
fn block_new_initial() {
    // NOTE: Special case for primary node
    let mut service = MockService::new();
    let mut node0 = mock_node(vec![0], mock_block(0));
    let cfg = mock_config(4);
    let mut state0 = PbftState::new(vec![0], 0, &cfg);
    drive(&mut node0, &mut state0, &mut service, |n, s| n.on_block_new(mock_block(1), s)).unwrap();
    assert_eq!(state0.phase, PbftPhase::PrePreparing);
    assert_eq!(state0.seq_num, 1);

    // Try the next block
    let mut node1 = mock_node(vec![1], mock_block(0));
    let mut state1 = PbftState::new(vec![], 0, &cfg);
    drive(&mut node1, &mut state1, &mut service, |n, s| n.on_block_new(mock_block(1), s)).unwrap();
    assert_eq!(state1.phase, PbftPhase::PrePreparing);
}

#[test]
fn block_new_first_10_blocks() {
    let mut service = MockService::new();
    let mut node = mock_node(vec![0], mock_block(0));
    let cfg = mock_config(4);
    let mut state = PbftState::new(vec![0], 0, &cfg);

    let block_0_id = mock_block_id(0);

    // Assert starting state
    let head = service.chain_head();
    assert_eq!(head.block_num, 0);
    assert_eq!(head.block_id, block_0_id);
    assert_eq!(head.previous_id, block_0_id);

    assert_eq!(state.id, vec![0]);
    assert_eq!(state.view, 0);
    assert_eq!(state.phase, PbftPhase::PrePreparing);
    assert_eq!(state.mode, PbftMode::Normal);
    assert_eq!(state.peer_ids, (0..4).map(|i| vec![i]).collect::<Vec<_>>());
    assert_eq!(state.f, 1);
    assert_eq!(state.forced_view_change_period, 30);
    assert!(state.is_primary());

    // Handle the first block and assert resulting state
    drive(&mut node, &mut state, &mut service, |n, s| n.on_block_new(mock_block(1), s)).unwrap();

    let head = service.chain_head();
    assert_eq!(head.block_num, 0);
    assert_eq!(head.block_id, block_0_id);
    assert_eq!(head.previous_id, block_0_id);

    assert_eq!(state.id, vec![0]);
    assert_eq!(state.seq_num, 1);
    assert_eq!(state.view, 0);
    assert_eq!(state.phase, PbftPhase::PrePreparing);
    assert_eq!(state.mode, PbftMode::Normal);
    assert_eq!(state.peer_ids, (0..4).map(|i| vec![i]).collect::<Vec<_>>());
    assert_eq!(state.f, 1);
    assert_eq!(state.forced_view_change_period, 30);
    assert!(state.is_primary());

    state.seq_num += 1;

    // Handle the rest of the blocks
    for i in 2..10 {
        assert_eq!(state.seq_num, i);
        let block = mock_block_with_seal(i, &mut node, &mut state);
        drive(&mut node, &mut state, &mut service, |n, s| n.on_block_new(block.clone(), s)).unwrap();

        assert_eq!(state.id, vec![0]);
        assert_eq!(state.view, 0);
        assert_eq!(state.phase, PbftPhase::PrePreparing);
        assert_eq!(state.mode, PbftMode::Normal);
        assert_eq!(state.peer_ids, (0..4).map(|i| vec![i]).collect::<Vec<_>>());
        assert_eq!(state.f, 1);
        assert_eq!(state.forced_view_change_period, 30);
        assert!(state.is_primary());

        state.seq_num += 1;
    }
}

/// Make sure that `BlockNew` properly checks the consensus seal.
#[test]
fn block_new_consensus() {
    let mut service = MockService::new();
    let cfg = mock_config(4);
    let mut node = mock_node(vec![1], mock_block(6));
    let mut state = PbftState::new(vec![], 6, &cfg);
    let head = mock_block(6);
    let mut block = mock_block(7);

    for i in 0..3 {
        let message = mock_commit(0, 6, head.block_id.clone(), i);
        node.msg_log.add_message(message, &state).unwrap();
    }

    let seal = node.build_seal(&state).unwrap();
    block.payload = seal.to_bytes();

    drive(&mut node, &mut state, &mut service, |n, s| n.on_block_new(block.clone(), s)).unwrap();
}

/// Make sure that a valid `PrePrepare` is accepted.
#[test]
fn test_pre_prepare() {
    let mut service = MockService::new();
    let cfg = mock_config(4);
    let mut node0 = mock_node(vec![0], mock_block(0));
    let mut state0 = PbftState::new(vec![0], 0, &cfg);

    // Add block to the log
    node0.msg_log.add_block(mock_block(1));

    // Add PrePrepare to log
    let valid_msg = mock_msg(PbftMessageType::PrePrepare, 0, 1, mock_block(1), vec![0]);
    drive(&mut node0, &mut state0, &mut service, |n, s| {
        n.handle_pre_prepare(valid_msg.clone(), s)
    })
    .unwrap();

    // Verify it worked
    assert!(node0.msg_log.has_required_msgs(PbftMessageType::PrePrepare, &valid_msg, true, 1));
    assert_eq!(state0.phase, PbftPhase::Preparing);
}

/// Make sure that receiving a `BlockCommit` update works as expected.
#[test]
fn block_commit() {
    let mut service = MockService::new();
    let mut node = mock_node(vec![0], mock_block(0));
    let cfg = mock_config(4);
    let mut state0 = PbftState::new(vec![0], 0, &cfg);
    state0.phase = PbftPhase::Finishing(mock_block_id(1), false);
    assert_eq!(state0.seq_num, 1);
    assert!(drive(&mut node, &mut state0, &mut service, |n, s| {
        n.on_block_commit(mock_block_id(1), s)
    })
    .is_ok());
    assert_eq!(state0.phase, PbftPhase::PrePreparing);
    assert_eq!(state0.seq_num, 2);
}

/// Test the multicast protocol (`PrePrepare` => `Prepare` => `Commit`).
#[test]
fn multicast_protocol() {
    let mut service = MockService::new();
    let cfg = mock_config(4);

    // Make sure BlockNew is in the log
    let mut node1 = mock_node(vec![1], mock_block(0));
    let mut state1 = PbftState::new(vec![], 0, &cfg);
    let block = mock_block(1);
    drive(&mut node1, &mut state1, &mut service, |n, s| n.on_block_new(block.clone(), s)).unwrap();

    // Receive a PrePrepare
    let msg = mock_msg(PbftMessageType::PrePrepare, 0, 1, block.clone(), vec![0]);
    drive(&mut node1, &mut state1, &mut service, |n, s| n.on_peer_message(msg.clone(), s)).unwrap();

    assert_eq!(state1.phase, PbftPhase::Preparing);
    assert_eq!(state1.seq_num, 1);

    // Receive 3 `Prepare` messages
    for peer in 0..3 {
        assert_eq!(state1.phase, PbftPhase::Preparing);
        let msg = mock_msg(PbftMessageType::Prepare, 0, 1, block.clone(), vec![peer]);
        drive(&mut node1, &mut state1, &mut service, |n, s| n.on_peer_message(msg.clone(), s))
            .unwrap();
    }

    // Receive 3 `Commit` messages
    for peer in 0..3 {
        assert_eq!(state1.phase, PbftPhase::Committing);
        let msg = mock_msg(PbftMessageType::Commit, 0, 1, block.clone(), vec![peer]);
        drive(&mut node1, &mut state1, &mut service, |n, s| n.on_peer_message(msg.clone(), s))
            .unwrap();
    }
    assert_eq!(state1.phase, PbftPhase::Finishing(mock_block_id(1), false));

    // Spoof the `commit_blocks()` call
    assert!(drive(&mut node1, &mut state1, &mut service, |n, s| {
        n.on_block_commit(mock_block_id(1), s)
    })
    .is_ok());
    assert_eq!(state1.phase, PbftPhase::PrePreparing);

    // Make sure the block was actually committed
    let blocks: Vec<BlockId> =
        service.chain.iter().filter(|block| !block.is_empty()).cloned().collect();
    assert_eq!(blocks.len(), 2);
    assert_eq!(blocks[1], mock_block_id(1));
}

/// Test that view changes work as expected, and that nodes take the proper roles after a view
/// change.
#[test]
fn view_change() {
    let mut service = MockService::new();
    let mut node1 = mock_node(vec![1], mock_block(0));
    let cfg = mock_config(4);
    let mut state1 = PbftState::new(vec![1], 0, &cfg);

    assert!(!state1.is_primary());

    // Receive 3 `ViewChange` messages
    for peer in 0..3 {
        // It takes f + 1 `ViewChange` messages to trigger a view change, if it wasn't started
        // by `start_view_change()`
        if peer < 2 {
            assert_eq!(state1.mode, PbftMode::Normal);
        } else {
            assert_eq!(state1.mode, PbftMode::ViewChanging(1));
        }

        drive(&mut node1, &mut state1, &mut service, |n, s| {
            n.on_peer_message(mock_view_change(1, 0, vec![peer], peer == 1), s)
        })
        .unwrap();
    }

    // Receive `NewView` message
    let msgs: Vec<&ParsedMessage> = node1
        .msg_log
        .get_messages_of_type_view(PbftMessageType::ViewChange, 1)
        .iter()
        .cloned()
        .filter(|msg| !msg.from_self)
        .collect::<Vec<_>>();
    let new_view = PbftNewView {
        info: PbftMessageInfo::new_from(PbftMessageType::NewView, 1, 0, vec![1]),
        view_changes: PbftNode::signed_votes_from_messages(&msgs),
    };

    drive(&mut node1, &mut state1, &mut service, |n, s| {
        n.on_peer_message(ParsedMessage::from_new_view_message(new_view.clone()), s)
    })
    .unwrap();

    assert!(state1.is_primary());
    assert_eq!(state1.view, 1);
}

/// Make sure that view changes start correctly.
#[test]
fn start_view_change() {
    let mut service = MockService::new();
    let mut node1 = mock_node(vec![1], mock_block(0));
    let cfg = mock_config(4);
    let mut state1 = PbftState::new(vec![], 0, &cfg);
    assert_eq!(state1.mode, PbftMode::Normal);

    let new_view = state1.view + 1;
    drive(&mut node1, &mut state1, &mut service, |n, s| n.start_view_change(s, new_view)).unwrap();

    assert_eq!(state1.mode, PbftMode::ViewChanging(1));
}

/// Test that try_publish adds in the consensus seal.
#[test]
fn try_publish() {
    let mut service = MockService::new();
    let mut node0 = mock_node(vec![0], mock_block(0));
    let cfg = mock_config(4);
    let mut state0 = PbftState::new(vec![0], 0, &cfg);

    for i in 0..3 {
        let info = PbftMessageInfo::new_from(PbftMessageType::Commit, 0, 0, vec![i]);
        let msg = PbftMessage { info, block_id: vec![] };
        node0.msg_log.add_message(ParsedMessage::from_pbft_message(msg), &state0).unwrap();
    }

    state0.phase = PbftPhase::PrePreparing;

    drive(&mut node0, &mut state0, &mut service, |n, s| n.try_publish(s)).unwrap();
}

// ---------- Further helpers ----------

/// Create a node that sends messages to itself too.
fn full_node(node_id: PeerId, chain_head: Block) -> PbftNode {
    PbftNode::new(&mock_config(4), chain_head, Service::new(), node_id == vec![0])
}

/// Lets the node handle a message.
fn receive(
    node: &mut PbftNode,
    state: &mut PbftState,
    service: &mut MockService,
    message: ParsedMessage,
) -> Result<(), PbftError> {
    drive(node, state, service, |n, s| n.on_peer_message(message.clone(), s))
}

/// The requests that a service carried out, but for signatures.
fn performed(service: &MockService) -> Vec<ServiceRequest> {
    service
        .performed
        .iter()
        .filter(|request| !matches!(request, ServiceRequest::VerifySignature { .. }))
        .cloned()
        .collect()
}

/// A seal for block `num`, with valid votes of the given peers.
fn mock_seal(num: u64, peers: &[u8]) -> PbftSeal {
    let commits: Vec<ParsedMessage> =
        peers.iter().map(|peer| mock_commit(0, num, mock_block_id(num), *peer)).collect();
    PbftSeal {
        block_id: mock_block_id(num),
        previous_id: if num == 0 { vec![] } else { mock_block_id(num - 1) },
        commit_votes: PbftNode::signed_votes_from_messages(&commits.iter().collect()),
    }
}

/// A block with the given seal, published by node 0.
fn sealed_block(num: u64, seal: &PbftSeal) -> Block {
    let mut block = mock_block(num);
    block.signer_id = vec![0];
    block.payload = seal.to_bytes();
    block
}

/// A response with the given seal, from node 0.
fn seal_response(seq_num: u64, seal: PbftSeal) -> ParsedMessage {
    let response = PbftSealResponse {
        info: PbftMessageInfo::new_from(PbftMessageType::SealResponse, 0, seq_num, vec![0]),
        seal,
    };
    ParsedMessage::from_bytes(response.to_bytes(), PbftMessageType::SealResponse).unwrap()
}

/// A node at block `num` that has the block before it, and its state.
fn node_at(num: u64) -> (PbftNode, PbftState) {
    let node = mock_node(vec![1], mock_block(num - 1));
    let state = PbftState::new(vec![1], num - 1, &mock_config(4));
    (node, state)
}

// ---------- Messages ----------

/// Four nodes that send each other what they broadcast commit blocks, and the primary seals them.
#[test]
fn four_nodes_commit_blocks() {
    let cfg = mock_config(4);
    let mut nodes: Vec<PbftNode> = (0..4).map(|i| full_node(vec![i], mock_block(0))).collect();
    let mut states: Vec<PbftState> =
        (0..4).map(|i| PbftState::new(vec![i], 0, &cfg)).collect();
    let mut services: Vec<MockService> = (0..4).map(|_| MockService::new()).collect();
    let mut seen: Vec<usize> = vec![0; 4];

    for num in 1..4u64 {
        let mut block = mock_block(num);
        block.signer_id = vec![0];
        if num > 1 {
            block.payload = nodes[0].build_seal(&states[0]).unwrap().to_bytes();
        }
        for i in 0..4 {
            drive(&mut nodes[i], &mut states[i], &mut services[i], |n, s| {
                n.on_block_new(block.clone(), s)
            })
            .unwrap();
        }
        // Deliver what was broadcast until there is nothing left
        loop {
            let mut delivered = false;
            for i in 0..4 {
                while seen[i] < services[i].performed.len() {
                    let request = services[i].performed[seen[i]].clone();
                    seen[i] += 1;
                    if let ServiceRequest::Broadcast { msg_type, payload } = request {
                        delivered = true;
                        let mut message = ParsedMessage::from_bytes(payload, msg_type).unwrap();
                        sign(&mut message, i as u8);
                        for j in 0..4 {
                            if j != i {
                                receive(
                                    &mut nodes[j],
                                    &mut states[j],
                                    &mut services[j],
                                    message.clone(),
                                )
                                .unwrap();
                            }
                        }
                    }
                }
            }
            if !delivered {
                break;
            }
        }
        for i in 0..4 {
            assert_eq!(services[i].chain.last(), Some(&mock_block_id(num)));
            assert_eq!(states[i].phase, PbftPhase::Finishing(mock_block_id(num), false));
            drive(&mut nodes[i], &mut states[i], &mut services[i], |n, s| {
                n.on_block_commit(mock_block_id(num), s)
            })
            .unwrap();
            assert_eq!(states[i].seq_num, num + 1);
            assert_eq!(states[i].phase, PbftPhase::PrePreparing);
            assert_eq!(states[i].mode, PbftMode::Normal);
        }
    }
}

#[test]
fn unknown_peer_is_refused() {
    let (mut node, mut state) = node_at(1);
    let mut service = MockService::new();
    let msg = mock_msg(PbftMessageType::Prepare, 0, 1, mock_block(1), vec![9]);
    assert_eq!(
        receive(&mut node, &mut state, &mut service, msg),
        Err(PbftError::InvalidMessage(MessageDefect::UnknownPeer))
    );
    assert!(node.msg_log.messages.is_empty());
    assert!(service.performed.is_empty());
}

#[test]
fn view_changing_node_ignores_other_messages() {
    let (mut node, mut state) = node_at(1);
    let mut service = MockService::new();
    state.mode = PbftMode::ViewChanging(1);
    for msg_type in [
        PbftMessageType::PrePrepare,
        PbftMessageType::Prepare,
        PbftMessageType::Commit,
        PbftMessageType::SealRequest,
        PbftMessageType::Unset,
    ] {
        let msg = mock_msg(msg_type, 0, 1, mock_block(1), vec![0]);
        assert_eq!(receive(&mut node, &mut state, &mut service, msg), Ok(()));
    }
    let response = seal_response(1, mock_seal(1, &[1, 2]));
    assert_eq!(receive(&mut node, &mut state, &mut service, response), Ok(()));
    assert!(node.msg_log.messages.is_empty());
    assert!(service.performed.is_empty());
}

#[test]
fn message_without_a_kind_is_ignored() {
    let (mut node, mut state) = node_at(1);
    let mut service = MockService::new();
    let msg = mock_msg(PbftMessageType::Unset, 0, 1, mock_block(1), vec![0]);
    assert_eq!(receive(&mut node, &mut state, &mut service, msg), Ok(()));
    assert!(node.msg_log.messages.is_empty());
}

#[test]
fn pre_prepare_from_secondary_is_ignored() {
    let (mut node, mut state) = node_at(1);
    let mut service = MockService::new();
    let msg = mock_msg(PbftMessageType::PrePrepare, 0, 1, mock_block(1), vec![2]);
    assert_eq!(receive(&mut node, &mut state, &mut service, msg), Ok(()));
    assert!(node.msg_log.messages.is_empty());
}

#[test]
fn conflicting_pre_prepare_starts_view_change() {
    let (mut node, mut state) = node_at(1);
    let mut service = MockService::new();
    let msg = mock_msg(PbftMessageType::PrePrepare, 0, 1, mock_block(1), vec![0]);
    receive(&mut node, &mut state, &mut service, msg).unwrap();
    assert_eq!(state.phase, PbftPhase::PrePreparing);
    let msg = mock_msg(PbftMessageType::PrePrepare, 0, 1, mock_block(2), vec![0]);
    assert_eq!(
        receive(&mut node, &mut state, &mut service, msg),
        Err(PbftError::FaultyPrimary(PrimaryFault::MismatchedBlocks))
    );
    assert_eq!(state.mode, PbftMode::ViewChanging(1));
    assert_eq!(node.msg_log.messages.len(), 1);
}

#[test]
fn conflicting_pre_prepare_at_last_view_halts() {
    let (mut node, mut state) = node_at(1);
    let mut service = MockService::new();
    state.view = u64::MAX;
    let primary = state.get_primary_id();
    let msg = mock_msg(PbftMessageType::PrePrepare, u64::MAX, 1, mock_block(1), primary.clone());
    receive(&mut node, &mut state, &mut service, msg).unwrap();
    let msg = mock_msg(PbftMessageType::PrePrepare, u64::MAX, 1, mock_block(2), primary);
    assert_eq!(
        receive(&mut node, &mut state, &mut service, msg),
        Err(PbftError::Halted(Halt::ViewOverflow))
    );
}

#[test]
fn message_for_another_view_is_refused() {
    let (mut node, mut state) = node_at(1);
    let mut service = MockService::new();
    for msg_type in [PbftMessageType::Prepare, PbftMessageType::Commit] {
        let msg = mock_msg(msg_type, 3, 1, mock_block(1), vec![0]);
        assert_eq!(
            receive(&mut node, &mut state, &mut service, msg),
            Err(PbftError::InvalidMessage(MessageDefect::WrongView))
        );
    }
    assert!(node.msg_log.messages.is_empty());
}

/// Messages that come in early are counted once the node gets to their phase.
#[test]
fn early_messages_are_counted() {
    let mut node = full_node(vec![1], mock_block(0));
    let mut state = PbftState::new(vec![1], 0, &mock_config(4));
    let mut service = MockService::new();
    let block = mock_block(1);
    for peer in [2, 3] {
        for msg_type in [PbftMessageType::Prepare, PbftMessageType::Commit] {
            let msg = mock_msg(msg_type, 0, 1, block.clone(), vec![peer]);
            receive(&mut node, &mut state, &mut service, msg).unwrap();
        }
    }
    let msg = mock_msg(PbftMessageType::PrePrepare, 0, 1, block.clone(), vec![0]);
    receive(&mut node, &mut state, &mut service, msg).unwrap();
    assert_eq!(state.phase, PbftPhase::PrePreparing);
    drive(&mut node, &mut state, &mut service, |n, s| n.on_block_new(block.clone(), s)).unwrap();
    assert_eq!(state.phase, PbftPhase::Finishing(mock_block_id(1), false));
    let kinds: Vec<PbftMessageType> = service
        .performed
        .iter()
        .filter_map(|request| match request {
            ServiceRequest::Broadcast { msg_type, .. } => Some(*msg_type),
            _ => None,
        })
        .collect();
    assert_eq!(kinds, vec![PbftMessageType::Prepare, PbftMessageType::Commit]);
    assert_eq!(service.chain, vec![mock_block_id(0), mock_block_id(1)]);
}

/// A message for another block than the proposed one makes the node go on with neither.
#[test]
fn message_for_another_block_is_only_logged() {
    let (mut node, mut state) = node_at(1);
    let mut service = MockService::new();
    let block = mock_block(1);
    let mut other = mock_block(1);
    other.block_id = vec![5];
    node.msg_log.add_block(block.clone());
    let msg = mock_msg(PbftMessageType::PrePrepare, 0, 1, block.clone(), vec![0]);
    receive(&mut node, &mut state, &mut service, msg).unwrap();
    for (msg_type, before, after) in [
        (PbftMessageType::Prepare, PbftPhase::Preparing, PbftPhase::Committing),
        (
            PbftMessageType::Commit,
            PbftPhase::Committing,
            PbftPhase::Finishing(mock_block_id(1), false),
        ),
    ] {
        for peer in [0, 1, 2] {
            let msg = mock_msg(msg_type, 0, 1, block.clone(), vec![peer]);
            node.msg_log.add_message(msg, &state).unwrap();
        }
        service.performed.clear();
        let logged = node.msg_log.messages.len();
        let msg = mock_msg(msg_type, 0, 1, other.clone(), vec![3]);
        receive(&mut node, &mut state, &mut service, msg).unwrap();
        assert_eq!(state.phase, before);
        assert_eq!(node.msg_log.messages.len(), logged + 1);
        assert!(service.performed.is_empty());
        let msg = mock_msg(msg_type, 0, 1, block.clone(), vec![3]);
        receive(&mut node, &mut state, &mut service, msg).unwrap();
        assert_eq!(state.phase, after);
    }
    assert_eq!(service.chain, vec![mock_block_id(0), mock_block_id(1)]);
}

/// The same message from one node counts once.
#[test]
fn repeated_messages_count_once() {
    let (mut node, mut state) = node_at(1);
    let mut service = MockService::new();
    let block = mock_block(1);
    node.msg_log.add_block(block.clone());
    let msg = mock_msg(PbftMessageType::PrePrepare, 0, 1, block.clone(), vec![0]);
    receive(&mut node, &mut state, &mut service, msg).unwrap();
    for _ in 0..5 {
        let msg = mock_msg(PbftMessageType::Prepare, 0, 1, block.clone(), vec![2]);
        receive(&mut node, &mut state, &mut service, msg).unwrap();
    }
    assert_eq!(state.phase, PbftPhase::Preparing);
    assert_eq!(node.msg_log.messages.len(), 2);
}

#[test]
fn failed_commit_is_reported() {
    let (mut node, mut state) = node_at(1);
    let mut service = MockService::new();
    let block = mock_block(1);
    node.msg_log.add_block(block.clone());
    let msg = mock_msg(PbftMessageType::PrePrepare, 0, 1, block.clone(), vec![0]);
    receive(&mut node, &mut state, &mut service, msg).unwrap();
    state.phase = PbftPhase::Committing;
    for peer in 0..2 {
        let msg = mock_msg(PbftMessageType::Commit, 0, 1, block.clone(), vec![peer]);
        receive(&mut node, &mut state, &mut service, msg).unwrap();
    }
    service.failing = true;
    let msg = mock_msg(PbftMessageType::Commit, 0, 1, block.clone(), vec![2]);
    assert_eq!(
        receive(&mut node, &mut state, &mut service, msg),
        Err(PbftError::ServiceError(ServiceCall::CommitBlock))
    );
    assert_eq!(state.phase, PbftPhase::Committing);
}

/// Where an answer is missing the node stops, and with the answer it makes the same request first.
#[test]
fn missing_answer_halts() {
    let (mut node, mut state) = node_at(1);
    node.self_sending = true;
    let block = mock_block(1);
    node.msg_log.add_block(block.clone());
    for peer in [0, 2, 3] {
        let msg = mock_commit(0, 1, mock_block_id(1), peer);
        node.msg_log.add_message(msg, &state).unwrap();
        let msg = mock_msg(PbftMessageType::Prepare, 0, 1, block.clone(), vec![peer]);
        node.msg_log.add_message(msg, &state).unwrap();
    }
    let pre_prepare = mock_msg(PbftMessageType::PrePrepare, 0, 1, block.clone(), vec![0]);

    let mut halted = node.clone();
    let mut halted_state = state.clone();
    assert_eq!(
        halted.on_peer_message(pre_prepare.clone(), &mut halted_state),
        Err(PbftError::Halted(Halt::AwaitingReply))
    );
    assert_eq!(halted.service.requests.len(), 3);
    assert_eq!(
        halted.service.requests[2],
        ServiceRequest::CommitBlock { block_id: mock_block_id(1) }
    );

    let mut wrong = node.clone();
    wrong.service.replies = vec![ServiceReply::PeersSetting(None)];
    assert_eq!(
        wrong.on_peer_message(pre_prepare.clone(), &mut state.clone()),
        Err(PbftError::Halted(Halt::UnexpectedReply))
    );

    node.service.replies = vec![ServiceReply::Done, ServiceReply::Failed];
    assert_eq!(node.on_peer_message(pre_prepare, &mut state), Ok(()));
    assert_eq!(node.service.requests, halted.service.requests);
    assert_eq!(node.service.replies, vec![ServiceReply::Failed]);
    assert_eq!(state.phase, PbftPhase::Finishing(mock_block_id(1), false));
}

// ---------- Seals ----------

#[test]
fn seal_request_for_last_block_is_answered() {
    let (mut node, mut state) = node_at(2);
    let mut service = MockService::new();
    for peer in [0, 2] {
        let msg = mock_commit(0, 1, mock_block_id(1), peer);
        node.msg_log.add_message(msg, &state).unwrap();
    }
    let request = mock_msg(PbftMessageType::SealRequest, 0, 1, mock_block(1), vec![3]);
    receive(&mut node, &mut state, &mut service, request).unwrap();
    let response = PbftSealResponse {
        info: PbftMessageInfo::new_from(PbftMessageType::SealResponse, 0, 2, vec![1]),
        seal: mock_seal(1, &[0, 2]),
    };
    assert_eq!(
        service.performed,
        vec![ServiceRequest::SendTo {
            peer: vec![3],
            msg_type: PbftMessageType::SealResponse,
            payload: response.to_bytes(),
        }]
    );
}

#[test]
fn seal_request_that_cannot_be_met() {
    let (mut node, mut state) = node_at(2);
    let mut service = MockService::new();
    let request = mock_msg(PbftMessageType::SealRequest, 0, 1, mock_block(1), vec![3]);
    assert_eq!(
        receive(&mut node, &mut state, &mut service, request.clone()),
        Err(PbftError::InternalError(InternalFault::RequestedSeal(SealFault::NoCommits)))
    );
    for peer in [0, 2] {
        let msg = mock_commit(0, 1, mock_block_id(7), peer);
        node.msg_log.add_message(msg, &state).unwrap();
    }
    assert_eq!(
        receive(&mut node, &mut state, &mut service, request.clone()),
        Err(PbftError::InternalError(InternalFault::RequestedSeal(SealFault::NoBlock)))
    );
    for peer in [0, 2] {
        let msg = mock_commit(0, 1, mock_block_id(1), peer);
        node.msg_log.add_message(msg, &state).unwrap();
    }
    node.msg_log.messages.remove(0);
    service.failing = true;
    assert_eq!(
        receive(&mut node, &mut state, &mut service, request),
        Err(PbftError::ServiceError(ServiceCall::SendSeal))
    );
}

/// A request for the seal of the current block is kept, and answered once the block is committed.
#[test]
fn seal_request_for_current_block_is_kept() {
    let (mut node, mut state) = node_at(1);
    let mut service = MockService::new();
    node.msg_log.add_block(mock_block(1));
    let request = mock_msg(PbftMessageType::SealRequest, 0, 1, mock_block(1), vec![3]);
    receive(&mut node, &mut state, &mut service, request).unwrap();
    assert!(service.performed.is_empty());
    assert_eq!(node.msg_log.messages.len(), 1);
    for peer in [0, 2] {
        let msg = mock_commit(0, 1, mock_block_id(1), peer);
        node.msg_log.add_message(msg, &state).unwrap();
    }
    state.phase = PbftPhase::Finishing(mock_block_id(1), false);
    drive(&mut node, &mut state, &mut service, |n, s| n.on_block_commit(mock_block_id(1), s))
        .unwrap();
    assert!(matches!(
        &service.performed[0],
        ServiceRequest::SendTo { peer, msg_type: PbftMessageType::SealResponse, .. }
            if *peer == vec![3]
    ));
}

/// The votes of a seal are those of other nodes for one block in one view.
#[test]
fn seal_is_built_from_one_view() {
    let (mut node, mut state) = node_at(2);
    state.view = 5;
    let mut own = mock_commit(5, 1, mock_block_id(1), 1);
    own.from_self = true;
    node.msg_log.add_message(own, &state).unwrap();
    node.msg_log.add_message(mock_commit(5, 1, mock_block_id(1), 0), &state).unwrap();
    assert_eq!(node.build_seal(&state).unwrap_err(), SealFault::NoCommits);
    state.view = 4;
    node.msg_log.add_message(mock_commit(4, 1, mock_block_id(1), 2), &state).unwrap();
    assert_eq!(node.build_seal(&state).unwrap_err(), SealFault::NoCommits);
    node.msg_log.add_message(mock_commit(4, 1, mock_block_id(1), 3), &state).unwrap();
    let seal = node.build_seal(&state).unwrap();
    assert_eq!(seal.block_id, mock_block_id(1));
    assert_eq!(seal.previous_id, mock_block_id(0));
    let views: Vec<u64> = seal
        .commit_votes
        .iter()
        .map(|vote| PbftMessage::from_bytes(&vote.message_bytes).unwrap().info.view)
        .collect();
    assert_eq!(views, vec![4, 4]);
}

#[test]
fn seal_response_commits_the_block() {
    let (mut node, mut state) = node_at(1);
    let mut service = MockService::new();
    node.msg_log.add_block(mock_block(1));
    let response = seal_response(2, mock_seal(1, &[1, 2]));
    receive(&mut node, &mut state, &mut service, response.clone()).unwrap();
    assert_eq!(state.phase, PbftPhase::Finishing(mock_block_id(1), false));
    assert_eq!(service.chain, vec![mock_block_id(0), mock_block_id(1)]);
    assert_eq!(node.msg_log.messages.len(), 2);
    assert_eq!(
        performed(&service),
        vec![
            ServiceRequest::GetPeersSetting { block_id: mock_block_id(0) },
            ServiceRequest::CommitBlock { block_id: mock_block_id(1) },
        ]
    );
    // Once committed, further seals are ignored
    receive(&mut node, &mut state, &mut service, response).unwrap();
    assert_eq!(service.chain.len(), 2);
}

/// What a seal response gives at a node that has block 1 and waits for it.
fn seal_outcome(response: ParsedMessage, service: &mut MockService) -> Result<(), PbftError> {
    let (mut node, mut state) = node_at(1);
    node.msg_log.add_block(mock_block(1));
    receive(&mut node, &mut state, service, response)
}

#[test]
fn bad_seals_are_refused() {
    let mut service = MockService::new();
    let bad = |rejection| Err(PbftError::InvalidMessage(MessageDefect::BadSeal(rejection)));
    assert_eq!(
        seal_outcome(seal_response(1, mock_seal(5, &[1, 2])), &mut service),
        Err(PbftError::InvalidMessage(MessageDefect::UnknownSealedBlock))
    );
    assert_eq!(
        seal_outcome(seal_response(1, mock_seal(0, &[1, 2])), &mut service),
        Err(PbftError::InvalidMessage(MessageDefect::WrongSequenceNumber))
    );
    let mut seal = mock_seal(1, &[1, 2]);
    seal.previous_id = mock_block_id(7);
    assert_eq!(
        seal_outcome(seal_response(1, seal), &mut service),
        Err(PbftError::InvalidMessage(MessageDefect::Vote(VoteDefect::WrongPreviousId)))
    );
    assert_eq!(
        seal_outcome(seal_response(1, mock_seal(1, &[1])), &mut service),
        bad(Rejection::InvalidMessage(VoteDefect::TooFewVotes))
    );
    // One voter voted twice
    assert_eq!(
        seal_outcome(seal_response(1, mock_seal(1, &[1, 1])), &mut service),
        bad(Rejection::InvalidMessage(VoteDefect::TooFewVotes))
    );
    // The vote of the node that sent the seal is implicit
    assert_eq!(
        seal_outcome(seal_response(1, mock_seal(1, &[0, 1])), &mut service),
        bad(Rejection::InvalidMessage(VoteDefect::InvalidVoter))
    );
    assert_eq!(
        seal_outcome(seal_response(1, mock_seal(1, &[1, 9])), &mut service),
        bad(Rejection::InvalidMessage(VoteDefect::InvalidVoter))
    );
    let mut seal = mock_seal(1, &[1, 2]);
    seal.commit_votes[1].message_bytes = vec![0xff];
    assert_eq!(
        seal_outcome(seal_response(1, seal), &mut service),
        bad(Rejection::SerializationError(Unparsed::VoteMessage))
    );
    let mut seal = mock_seal(1, &[1, 2]);
    seal.commit_votes[0].header_bytes = vec![0xff];
    assert_eq!(
        seal_outcome(seal_response(1, seal), &mut service),
        bad(Rejection::SerializationError(Unparsed::VoteHeader))
    );
    let mut seal = mock_seal(1, &[1, 2]);
    seal.commit_votes[0] = mock_seal(2, &[1]).commit_votes[0].clone();
    assert_eq!(
        seal_outcome(seal_response(1, seal), &mut service),
        bad(Rejection::InvalidMessage(VoteDefect::WrongBlock))
    );
    let mut seal = mock_seal(1, &[1, 2]);
    seal.commit_votes[0].message_bytes = mock_seal(1, &[2]).commit_votes[0].message_bytes.clone();
    assert_eq!(
        seal_outcome(seal_response(1, seal), &mut service),
        bad(Rejection::SigningError(SigningFault::HashMismatch))
    );
    let mut seal = mock_seal(1, &[1, 2]);
    seal.commit_votes[0].header_signature = mock_seal(1, &[2]).commit_votes[0].header_signature.clone();
    assert_eq!(
        seal_outcome(seal_response(1, seal), &mut service),
        bad(Rejection::SigningError(SigningFault::BadSignature))
    );
    let mut seal = mock_seal(1, &[1, 2]);
    seal.commit_votes[0].header_signature = vec![1, 2, 3];
    assert_eq!(
        seal_outcome(seal_response(1, seal), &mut service),
        bad(Rejection::SigningError(SigningFault::NotVerified))
    );
    let view_change = mock_view_change(1, 0, vec![1], false);
    let mut seal = mock_seal(1, &[1, 2]);
    seal.commit_votes[0] = PbftNode::signed_votes_from_messages(&vec![&view_change]).remove(0);
    assert_eq!(
        seal_outcome(seal_response(1, seal), &mut service),
        bad(Rejection::InvalidMessage(VoteDefect::WrongType))
    );
}

#[test]
fn seal_is_checked_against_the_on_chain_peers() {
    let mut service = MockService::new();
    service.peers = Some("[\"00\", \"01\", \"0A\", \"02\"]".to_string());
    assert_eq!(seal_outcome(seal_response(1, mock_seal(1, &[1, 10])), &mut service), Ok(()));
    service.peers = Some("[\"00\", \"01\", \"02\", \"0g\"]".to_string());
    assert_eq!(
        seal_outcome(seal_response(1, mock_seal(1, &[1, 2])), &mut service),
        Err(PbftError::Halted(Halt::BadPeersSetting))
    );
    service.peers = None;
    assert_eq!(
        seal_outcome(seal_response(1, mock_seal(1, &[1, 2])), &mut service),
        Err(PbftError::Halted(Halt::BadPeersSetting))
    );
}

#[test]
fn failed_catch_up_is_reported() {
    let mut service = MockService::new();
    service.failing = true;
    assert_eq!(
        seal_outcome(seal_response(1, mock_seal(1, &[1, 2])), &mut service),
        Err(PbftError::ServiceError(ServiceCall::CommitBlockWithCatchUp))
    );
}

/// A signature is asked about with the key and the signature in hexadecimal, and each answer that is
/// not that it is valid is a signing error.
#[test]
fn votes_are_verified_by_the_validator() {
    let (mut node, _) = node_at(1);
    let commit = mock_commit(0, 1, mock_block_id(1), 2);
    let vote: PbftSignedVote = PbftNode::signed_votes_from_messages(&vec![&commit]).remove(0);
    let criteria = VoteCriteria::Block(mock_block_id(1));
    for (check, fault) in [
        (SignatureCheck::Invalid, SigningFault::BadSignature),
        (SignatureCheck::BadPublicKey, SigningFault::BadPublicKey),
        (SignatureCheck::NoContext, SigningFault::NoContext),
        (SignatureCheck::Failed, SigningFault::NotVerified),
    ] {
        node.service.replies = vec![ServiceReply::Signature(check)];
        assert_eq!(
            node.verify_vote(&vote, PbftMessageType::Commit, &criteria),
            Err(VerifyError::Rejected(Rejection::SigningError(fault)))
        );
    }
    node.service = Service::new();
    node.service.replies = vec![ServiceReply::Signature(SignatureCheck::Valid)];
    assert_eq!(node.verify_vote(&vote, PbftMessageType::Commit, &criteria), Ok(vec![2]));
    let context = secp256k1::Secp256k1::new();
    let public = secp256k1::PublicKey::from_secret_key(&context, &mock_key(2)).serialize();
    assert_eq!(
        node.service.requests,
        vec![ServiceRequest::VerifySignature {
            signature: vote.header_signature.iter().map(|b| format!("{:02x}", b)).collect(),
            message: vote.header_bytes.clone(),
            public_key: public.iter().map(|b| format!("{:02x}", b)).collect(),
        }]
    );
    assert_eq!(
        node.verify_vote(&vote, PbftMessageType::Commit, &criteria),
        Err(VerifyError::Halted(Halt::AwaitingReply))
    );
}

// ---------- Blocks ----------

/// What a new block gives at a node at sequence number 2 that has blocks 0 and 1.
fn block_outcome(block: Block, service: &mut MockService) -> Result<(), PbftError> {
    let (mut node, mut state) = node_at(2);
    node.msg_log.add_block(mock_block(0));
    drive(&mut node, &mut state, service, |n, s| n.on_block_new(block.clone(), s))
}

#[test]
fn new_blocks_are_checked() {
    let mut service = MockService::new();
    let bad = |rejection| Err(PbftError::InvalidMessage(MessageDefect::BadSeal(rejection)));
    // Older than the current sequence number
    assert_eq!(block_outcome(mock_block(1), &mut service), Ok(()));
    assert!(service.performed.is_empty());
    // Without the previous block
    assert_eq!(
        block_outcome(mock_block(4), &mut service),
        Err(PbftError::InternalError(InternalFault::NoPreviousBlock))
    );
    assert_eq!(
        service.performed,
        vec![ServiceRequest::FailBlock { block_id: mock_block_id(4) }]
    );
    let mut block = mock_block(2);
    block.previous_id = mock_block_id(9);
    assert_eq!(
        block_outcome(block, &mut service),
        Err(PbftError::InternalError(InternalFault::NoPreviousBlock))
    );
    assert_eq!(
        service.performed.last(),
        Some(&ServiceRequest::FailBlock { block_id: mock_block_id(2) })
    );
    // After a block that has not the previous number
    let mut block = mock_block(3);
    block.previous_id = mock_block_id(1);
    assert_eq!(
        block_outcome(block, &mut service),
        Err(PbftError::InternalError(InternalFault::WrongPreviousNumber))
    );
    // Without a seal, or with a wrong one
    assert_eq!(
        block_outcome(mock_block(2), &mut service),
        bad(Rejection::InvalidMessage(VoteDefect::MissingSeal))
    );
    assert_eq!(
        service.performed.last(),
        Some(&ServiceRequest::FailBlock { block_id: mock_block_id(2) })
    );
    let mut block = mock_block(2);
    block.payload = vec![0xff];
    assert_eq!(
        block_outcome(block, &mut service),
        bad(Rejection::SerializationError(Unparsed::Seal))
    );
    assert_eq!(
        block_outcome(sealed_block(2, &mock_seal(0, &[1, 2])), &mut service),
        bad(Rejection::InvalidMessage(VoteDefect::WrongSealedBlock))
    );
    let mut seal = mock_seal(1, &[1, 2]);
    seal.previous_id = vec![];
    assert_eq!(
        block_outcome(sealed_block(2, &seal), &mut service),
        bad(Rejection::InvalidMessage(VoteDefect::WrongPreviousId))
    );
    assert_eq!(block_outcome(sealed_block(2, &mock_seal(1, &[1, 2])), &mut service), Ok(()));
}

#[test]
fn sealed_block_must_be_in_the_log() {
    let (mut node, state) = node_at(2);
    let block = sealed_block(4, &mock_seal(3, &[1, 2]));
    assert_eq!(
        node.verify_consensus_seal_from_block(&block, &state).unwrap_err(),
        VerifyError::Rejected(Rejection::SealedBlockMissing)
    );
    assert_eq!(
        VerifyError::Rejected(Rejection::SealedBlockMissing).error(),
        PbftError::InternalError(InternalFault::NoSealedBlock)
    );
}

#[test]
fn primary_proposes_its_block() {
    let mut node = full_node(vec![0], mock_block(0));
    let mut state = PbftState::new(vec![0], 0, &mock_config(4));
    let mut service = MockService::new();
    let mut block = mock_block(1);
    block.signer_id = vec![0];
    drive(&mut node, &mut state, &mut service, |n, s| n.on_block_new(block.clone(), s)).unwrap();
    assert_eq!(state.phase, PbftPhase::Preparing);
    let broadcasts: Vec<(PbftMessageType, Vec<u8>)> = service
        .performed
        .iter()
        .map(|request| match request {
            ServiceRequest::Broadcast { msg_type, payload } => (*msg_type, payload.clone()),
            other => panic!("{:?}", other),
        })
        .collect();
    let expected = |msg_type| {
        (msg_type, mock_msg(msg_type, 0, 1, mock_block(1), vec![0]).message_bytes)
    };
    assert_eq!(
        broadcasts,
        vec![expected(PbftMessageType::PrePrepare), expected(PbftMessageType::Prepare)]
    );
}

/// A node that fell behind commits the blocks that it has seals for, asks for the seal of the last
/// one, and commits that one too.
#[test]
fn node_catches_up() {
    let (mut node, mut state) = node_at(1);
    let mut service = MockService::new();
    drive(&mut node, &mut state, &mut service, |n, s| n.on_block_new(mock_block(1), s)).unwrap();
    let block2 = sealed_block(2, &mock_seal(1, &[1, 2]));
    drive(&mut node, &mut state, &mut service, |n, s| n.on_block_new(block2.clone(), s)).unwrap();
    assert_eq!(state.phase, PbftPhase::Finishing(mock_block_id(1), true));
    // While it waits, further blocks are only logged
    let block3 = sealed_block(3, &mock_seal(2, &[1, 2]));
    drive(&mut node, &mut state, &mut service, |n, s| n.on_block_new(block3.clone(), s)).unwrap();
    assert_eq!(service.chain.len(), 2);
    drive(&mut node, &mut state, &mut service, |n, s| n.on_block_commit(mock_block_id(1), s))
        .unwrap();
    assert_eq!(state.seq_num, 2);
    assert_eq!(state.phase, PbftPhase::Finishing(mock_block_id(2), true));
    service.performed.clear();
    drive(&mut node, &mut state, &mut service, |n, s| n.on_block_commit(mock_block_id(2), s))
        .unwrap();
    assert_eq!(state.seq_num, 3);
    assert_eq!(service.chain, vec![mock_block_id(0), mock_block_id(1), mock_block_id(2)]);
    let info = PbftMessageInfo::new_from(PbftMessageType::SealRequest, 0, 3, vec![1]);
    let request = PbftMessage { info, block_id: vec![] };
    assert_eq!(
        performed(&service),
        vec![
            ServiceRequest::GetPeersSetting { block_id: mock_block_id(2) },
            ServiceRequest::Broadcast {
                msg_type: PbftMessageType::SealRequest,
                payload: request.to_bytes(),
            },
        ]
    );
    assert_eq!(state.phase, PbftPhase::PrePreparing);
    // Hearing of the block again does not count
    service.performed.clear();
    drive(&mut node, &mut state, &mut service, |n, s| n.on_block_commit(mock_block_id(2), s))
        .unwrap();
    assert_eq!(state.seq_num, 3);
    assert!(service.performed.is_empty());
    // The seal that was asked for
    let response = seal_response(4, mock_seal(3, &[1, 2]));
    receive(&mut node, &mut state, &mut service, response).unwrap();
    assert_eq!(state.phase, PbftPhase::Finishing(mock_block_id(3), false));
    assert_eq!(
        performed(&service),
        vec![
            ServiceRequest::GetPeersSetting { block_id: mock_block_id(2) },
            ServiceRequest::CommitBlock { block_id: mock_block_id(3) },
        ]
    );
    drive(&mut node, &mut state, &mut service, |n, s| n.on_block_commit(mock_block_id(3), s))
        .unwrap();
    assert_eq!(state.seq_num, 4);
    assert_eq!(state.phase, PbftPhase::PrePreparing);
    assert_eq!(state.faulty_primary_timeout.state, TimeoutState::Active);
}

/// A block commit that comes twice counts once, whatever the node goes on to do.
#[test]
fn block_commit_counts_once() {
    for (msg_type, phase) in [
        (None, PbftPhase::PrePreparing),
        (Some(PbftMessageType::PrePrepare), PbftPhase::Preparing),
    ] {
        let (mut node, mut state) = node_at(1);
        let mut service = MockService::new();
        node.msg_log.add_block(mock_block(1));
        node.msg_log.add_block(mock_block(2));
        if let Some(msg_type) = msg_type {
            let msg = mock_msg(msg_type, 0, 2, mock_block(2), vec![0]);
            node.msg_log.add_message(msg, &state).unwrap();
        }
        state.phase = PbftPhase::Finishing(mock_block_id(1), false);
        drive(&mut node, &mut state, &mut service, |n, s| n.on_block_commit(mock_block_id(1), s))
            .unwrap();
        assert_eq!(state.seq_num, 2);
        assert_eq!(state.phase, phase);
        let logged = node.msg_log.messages.len();
        service.performed.clear();
        drive(&mut node, &mut state, &mut service, |n, s| n.on_block_commit(mock_block_id(1), s))
            .unwrap();
        assert_eq!(state.seq_num, 2);
        assert_eq!(state.phase, phase);
        assert_eq!(node.msg_log.messages.len(), logged);
        assert!(service.performed.is_empty());
    }
}

/// The view of the votes is taken over when a node catches up.
#[test]
fn catching_up_raises_the_view() {
    let (mut node, mut state) = node_at(1);
    let mut service = MockService::new();
    node.msg_log.add_block(mock_block(1));
    let commits: Vec<ParsedMessage> =
        [1, 2].iter().map(|peer| mock_commit(6, 1, mock_block_id(1), *peer)).collect();
    let mut seal = mock_seal(1, &[]);
    seal.commit_votes = PbftNode::signed_votes_from_messages(&commits.iter().collect());
    receive(&mut node, &mut state, &mut service, seal_response(1, seal)).unwrap();
    assert_eq!(state.view, 6);
    // Votes of different views are not taken
    let (mut node, mut state) = node_at(1);
    node.msg_log.add_block(mock_block(1));
    let commits =
        vec![mock_commit(6, 1, mock_block_id(1), 1), mock_commit(5, 1, mock_block_id(1), 2)];
    let mut seal = mock_seal(1, &[]);
    seal.commit_votes = PbftNode::signed_votes_from_messages(&commits.iter().collect());
    assert_eq!(
        receive(&mut node, &mut state, &mut service, seal_response(1, seal)),
        Err(PbftError::InvalidMessage(MessageDefect::WrongView))
    );
    assert_eq!(state.phase, PbftPhase::PrePreparing);
}

#[test]
fn block_commit_that_was_not_expected_is_ignored() {
    let (mut node, mut state) = node_at(1);
    let mut service = MockService::new();
    for phase in [PbftPhase::PrePreparing, PbftPhase::Finishing(mock_block_id(2), false)] {
        state.phase = phase;
        drive(&mut node, &mut state, &mut service, |n, s| {
            n.on_block_commit(mock_block_id(1), s)
        })
        .unwrap();
        assert_eq!(state.seq_num, 1);
    }
    assert!(service.performed.is_empty());
}

#[test]
fn other_blocks_fail_after_a_commit() {
    let (mut node, mut state) = node_at(1);
    let mut service = MockService::new();
    let mut other = mock_block(1);
    other.block_id = vec![5];
    node.msg_log.add_block(other);
    node.msg_log.add_block(mock_block(1));
    state.phase = PbftPhase::Finishing(mock_block_id(1), false);
    drive(&mut node, &mut state, &mut service, |n, s| n.on_block_commit(mock_block_id(1), s))
        .unwrap();
    assert_eq!(
        service.performed,
        vec![
            ServiceRequest::FailBlock { block_id: vec![5] },
            ServiceRequest::GetPeersSetting { block_id: mock_block_id(1) },
        ]
    );
}

#[test]
fn membership_is_updated() {
    let (mut node, mut state) = node_at(1);
    let mut service = MockService::new();
    service.peers = Some("[\"01\", \"00\", \"02\", \"03\", \"04\", \"05\", \"06\"]".to_string());
    state.phase = PbftPhase::Finishing(mock_block_id(1), false);
    drive(&mut node, &mut state, &mut service, |n, s| n.on_block_commit(mock_block_id(1), s))
        .unwrap();
    assert_eq!(state.view, 1);
    assert_eq!(state.f, 2);
    assert_eq!(state.peer_ids, [1, 0, 2, 3, 4, 5, 6].iter().map(|i| vec![*i]).collect::<Vec<_>>());
    // The order of the peers makes no difference
    service.peers = Some("[\"06\", \"00\", \"02\", \"03\", \"04\", \"05\", \"01\"]".to_string());
    state.phase = PbftPhase::Finishing(mock_block_id(2), false);
    drive(&mut node, &mut state, &mut service, |n, s| n.on_block_commit(mock_block_id(2), s))
        .unwrap();
    assert_eq!(state.view, 1);
    assert_eq!(state.peer_ids[0], vec![1]);
    // A network that is too small, or a setting that is no list
    state.phase = PbftPhase::Finishing(mock_block_id(3), false);
    service.peers = Some("[\"00\", \"01\", \"02\"]".to_string());
    assert_eq!(
        drive(&mut node, &mut state, &mut service, |n, s| n.on_block_commit(mock_block_id(3), s)),
        Err(PbftError::Halted(Halt::NetworkTooSmall))
    );
    let (mut node, mut state) = node_at(1);
    state.phase = PbftPhase::Finishing(mock_block_id(1), false);
    service.peers = Some("{}".to_string());
    assert_eq!(
        drive(&mut node, &mut state, &mut service, |n, s| n.on_block_commit(mock_block_id(1), s)),
        Err(PbftError::Halted(Halt::BadPeersSetting))
    );
}

#[test]
fn view_change_is_forced_for_fairness() {
    let (mut node, mut state) = node_at(29);
    let mut service = MockService::new();
    state.phase = PbftPhase::Finishing(mock_block_id(29), false);
    drive(&mut node, &mut state, &mut service, |n, s| n.on_block_commit(mock_block_id(29), s))
        .unwrap();
    assert_eq!(state.seq_num, 30);
    assert_eq!(state.view, 1);
    // Node 1 is the primary now
    assert_eq!(
        service.performed,
        vec![
            ServiceRequest::GetPeersSetting { block_id: mock_block_id(29) },
            ServiceRequest::InitializeBlock { previous_id: Some(mock_block_id(29)) },
        ]
    );
    state.view = u64::MAX;
    state.seq_num = 59;
    state.phase = PbftPhase::Finishing(mock_block_id(59), false);
    assert_eq!(
        drive(&mut node, &mut state, &mut service, |n, s| n.on_block_commit(mock_block_id(59), s)),
        Err(PbftError::Halted(Halt::ViewOverflow))
    );
}

/// A change of the members is taken over even where a view change is forced, which raises the view
/// once.
#[test]
fn membership_is_updated_at_a_forced_view_change() {
    let (mut node, mut state) = node_at(29);
    let mut service = MockService::new();
    service.peers = Some("[\"01\", \"00\", \"02\", \"03\", \"04\", \"05\", \"06\"]".to_string());
    state.phase = PbftPhase::Finishing(mock_block_id(29), false);
    drive(&mut node, &mut state, &mut service, |n, s| n.on_block_commit(mock_block_id(29), s))
        .unwrap();
    assert_eq!(state.seq_num, 30);
    assert_eq!(state.view, 1);
    assert_eq!(state.f, 2);
    assert_eq!(state.peer_ids, [1, 0, 2, 3, 4, 5, 6].iter().map(|i| vec![*i]).collect::<Vec<_>>());
    // The next block is not at a forced view change, and the members are the same
    state.phase = PbftPhase::Finishing(mock_block_id(30), false);
    drive(&mut node, &mut state, &mut service, |n, s| n.on_block_commit(mock_block_id(30), s))
        .unwrap();
    assert_eq!(state.view, 1);
}

#[test]
fn failed_initialization_is_reported() {
    let mut node = mock_node(vec![0], mock_block(0));
    let mut state = PbftState::new(vec![0], 0, &mock_config(4));
    let mut service = MockService::new();
    service.failing = true;
    state.phase = PbftPhase::Finishing(mock_block_id(1), false);
    assert_eq!(
        drive(&mut node, &mut state, &mut service, |n, s| n.on_block_commit(mock_block_id(1), s)),
        Err(PbftError::ServiceError(ServiceCall::InitializeAfterCommit))
    );
    assert_eq!(state.seq_num, 2);
}

#[test]
fn block_that_is_there_already_is_prepared() {
    let (mut node, mut state) = node_at(1);
    let mut service = MockService::new();
    state.seq_num = 2;
    let msg = mock_msg(PbftMessageType::PrePrepare, 0, 2, mock_block(2), vec![0]);
    receive(&mut node, &mut state, &mut service, msg).unwrap();
    state.seq_num = 1;
    node.msg_log.add_block(mock_block(2));
    state.phase = PbftPhase::Finishing(mock_block_id(1), false);
    drive(&mut node, &mut state, &mut service, |n, s| n.on_block_commit(mock_block_id(1), s))
        .unwrap();
    assert_eq!(state.seq_num, 2);
    assert_eq!(state.phase, PbftPhase::Preparing);
    assert_eq!(state.commit_timeout.state, TimeoutState::Active);
    assert_eq!(state.faulty_primary_timeout.state, TimeoutState::Inactive);
}

// ---------- View changes ----------

#[test]
fn view_change_starts_once() {
    let (mut node, mut state) = node_at(4);
    let mut service = MockService::new();
    state.now = 1_000;
    drive(&mut node, &mut state, &mut service, |n, s| n.start_view_change(s, 3)).unwrap();
    assert_eq!(state.mode, PbftMode::ViewChanging(3));
    assert_eq!(state.view_change_timeout.duration, 15_000_000_000);
    assert_eq!(state.view_change_timeout.state, TimeoutState::Active);
    assert_eq!(state.view_change_timeout.started, 1_000);
    let info = PbftMessageInfo::new_from(PbftMessageType::ViewChange, 3, 3, vec![1]);
    let vote = PbftMessage { info, block_id: vec![] };
    let broadcast = ServiceRequest::Broadcast {
        msg_type: PbftMessageType::ViewChange,
        payload: vote.to_bytes(),
    };
    assert_eq!(service.performed, vec![broadcast]);
    for view in 0..4 {
        drive(&mut node, &mut state, &mut service, |n, s| n.start_view_change(s, view)).unwrap();
    }
    assert_eq!(service.performed.len(), 1);
    assert_eq!(state.mode, PbftMode::ViewChanging(3));
    drive(&mut node, &mut state, &mut service, |n, s| n.start_view_change(s, 4)).unwrap();
    assert_eq!(state.mode, PbftMode::ViewChanging(4));
}

#[test]
fn view_change_that_cannot_be_started() {
    let (mut node, mut state) = node_at(1);
    state.view = 2;
    assert_eq!(
        node.start_view_change(&mut state, 1),
        Err(PbftError::Halted(Halt::StaleViewChange))
    );
    let (mut node, mut state) = node_at(1);
    state.view_change_duration = 18446744073709551615999999999;
    assert_eq!(
        node.start_view_change(&mut state, 2),
        Err(PbftError::Halted(Halt::TimeoutOverflow))
    );
    let (mut node, mut state) = node_at(1);
    state.view_change_duration = 18446744073709551615999999999;
    assert_eq!(node.start_view_change(&mut state, 1), Ok(()));
}

/// The new primary opens the view once it has the votes of 2f other nodes.
#[test]
fn primary_opens_the_view() {
    let mut node = full_node(vec![1], mock_block(0));
    let mut state = PbftState::new(vec![1], 0, &mock_config(4));
    let mut service = MockService::new();
    receive(&mut node, &mut state, &mut service, mock_view_change(1, 0, vec![2], false)).unwrap();
    assert_eq!(state.mode, PbftMode::Normal);
    receive(&mut node, &mut state, &mut service, mock_view_change(1, 0, vec![3], false)).unwrap();
    assert_eq!(state.mode, PbftMode::Normal);
    assert_eq!(state.view, 1);
    assert!(state.is_primary());
    let votes = [mock_view_change(1, 0, vec![2], false), mock_view_change(1, 0, vec![3], false)];
    let new_view = PbftNewView {
        info: PbftMessageInfo::new_from(PbftMessageType::NewView, 1, 0, vec![1]),
        view_changes: PbftNode::signed_votes_from_messages(&votes.iter().collect()),
    };
    let sent: Vec<&ServiceRequest> = service
        .performed
        .iter()
        .filter(|request| {
            matches!(
                request,
                ServiceRequest::Broadcast { msg_type: PbftMessageType::NewView, .. }
            )
        })
        .collect();
    assert!(!sent.is_empty());
    for request in sent {
        assert_eq!(
            *request,
            ServiceRequest::Broadcast {
                msg_type: PbftMessageType::NewView,
                payload: new_view.to_bytes(),
            }
        );
    }
    assert!(service.performed.contains(&ServiceRequest::InitializeBlock { previous_id: None }));

    // Another node that is changing to the view accepts what was sent
    let mut other = full_node(vec![2], mock_block(0));
    let mut other_state = PbftState::new(vec![2], 0, &mock_config(4));
    other_state.mode = PbftMode::ViewChanging(1);
    let mut message =
        ParsedMessage::from_bytes(new_view.to_bytes(), PbftMessageType::NewView).unwrap();
    sign(&mut message, 1);
    receive(&mut other, &mut other_state, &mut service, message).unwrap();
    assert_eq!(other_state.view, 1);
    assert_eq!(other_state.mode, PbftMode::Normal);
    assert_eq!(other_state.phase, PbftPhase::PrePreparing);
    assert!(!other_state.is_primary());
}

/// What a `NewView` gives at a node that is changing to view 1.
fn new_view_outcome(
    new_view: PbftNewView,
    service: &mut MockService,
) -> (Result<(), PbftError>, PbftState) {
    let mut node = mock_node(vec![2], mock_block(0));
    let mut state = PbftState::new(vec![2], 0, &mock_config(4));
    state.mode = PbftMode::ViewChanging(1);
    let message = ParsedMessage::from_new_view_message(new_view);
    let result = receive(&mut node, &mut state, service, message);
    (result, state)
}

/// A `NewView` from the given node for view 1, with the given votes.
fn mock_new_view(from: u8, votes: &[ParsedMessage]) -> PbftNewView {
    PbftNewView {
        info: PbftMessageInfo::new_from(PbftMessageType::NewView, 1, 0, vec![from]),
        view_changes: PbftNode::signed_votes_from_messages(&votes.iter().collect()),
    }
}

#[test]
fn bad_new_views_start_the_next_change() {
    let mut service = MockService::new();
    let vote = |view, peer| mock_view_change(view, 0, vec![peer], false);
    let bad = |rejection| {
        Err(PbftError::FaultyPrimary(PrimaryFault::BadNewView { next_view: 2, rejection }))
    };
    let (result, state) =
        new_view_outcome(mock_new_view(1, &[vote(1, 0), vote(1, 3)]), &mut service);
    assert_eq!(result, Ok(()));
    assert_eq!(state.view, 1);
    // Not from the primary of the view: ignored
    let (result, state) =
        new_view_outcome(mock_new_view(3, &[vote(1, 0), vote(1, 3)]), &mut service);
    assert_eq!(result, Ok(()));
    assert_eq!(state.mode, PbftMode::ViewChanging(1));
    for (votes, defect) in [
        (vec![vote(1, 0)], VoteDefect::TooFewVotes),
        (vec![vote(1, 0), vote(1, 1)], VoteDefect::InvalidVoter),
        (vec![vote(1, 0), vote(1, 7)], VoteDefect::InvalidVoter),
        (vec![vote(1, 0), vote(2, 3)], VoteDefect::WrongView),
        (vec![vote(1, 0), mock_commit(1, 0, vec![], 3)], VoteDefect::WrongType),
    ] {
        let (result, state) = new_view_outcome(mock_new_view(1, &votes), &mut service);
        assert_eq!(result, bad(Rejection::InvalidMessage(defect)));
        assert_eq!(state.mode, PbftMode::ViewChanging(2));
        assert_eq!(state.view, 0);
    }
}

#[test]
fn bad_new_view_for_the_last_view_halts() {
    let mut node = mock_node(vec![2], mock_block(0));
    let mut state = PbftState::new(vec![2], 0, &mock_config(4));
    state.mode = PbftMode::ViewChanging(u64::MAX);
    let new_view = PbftNewView {
        info: PbftMessageInfo::new_from(PbftMessageType::NewView, u64::MAX, 0, vec![3]),
        view_changes: vec![],
    };
    assert_eq!(
        node.on_peer_message(ParsedMessage::from_new_view_message(new_view), &mut state),
        Err(PbftError::Halted(Halt::ViewOverflow))
    );
}

#[test]
fn new_view_that_is_not_expected_is_ignored() {
    let mut service = MockService::new();
    let mut node = mock_node(vec![2], mock_block(0));
    let mut state = PbftState::new(vec![2], 0, &mock_config(4));
    let new_view = mock_new_view(1, &[]);
    let message = ParsedMessage::from_new_view_message(new_view);
    receive(&mut node, &mut state, &mut service, message.clone()).unwrap();
    state.mode = PbftMode::ViewChanging(2);
    receive(&mut node, &mut state, &mut service, message).unwrap();
    assert_eq!(state.mode, PbftMode::ViewChanging(2));
    assert_eq!(state.view, 0);
    assert!(service.performed.is_empty());
}

#[test]
fn new_primary_that_cannot_start_a_block() {
    let mut service = MockService::new();
    service.failing = true;
    let mut node = mock_node(vec![1], mock_block(0));
    let mut state = PbftState::new(vec![1], 0, &mock_config(4));
    state.mode = PbftMode::ViewChanging(1);
    let votes = [mock_view_change(1, 0, vec![0], false), mock_view_change(1, 0, vec![2], false)];
    let message = ParsedMessage::from_new_view_message(mock_new_view(1, &votes));
    assert_eq!(
        receive(&mut node, &mut state, &mut service, message),
        Err(PbftError::ServiceError(ServiceCall::InitializeAfterViewChange))
    );
    assert_eq!(state.view, 1);
}

#[test]
fn stale_view_changes_are_ignored() {
    let (mut node, mut state) = node_at(1);
    let mut service = MockService::new();
    state.view = 2;
    receive(&mut node, &mut state, &mut service, mock_view_change(2, 0, vec![3], false)).unwrap();
    state.mode = PbftMode::ViewChanging(5);
    receive(&mut node, &mut state, &mut service, mock_view_change(4, 0, vec![3], false)).unwrap();
    assert!(node.msg_log.messages.is_empty());
    receive(&mut node, &mut state, &mut service, mock_view_change(5, 0, vec![3], false)).unwrap();
    assert_eq!(node.msg_log.messages.len(), 1);
}

// ---------- Publishing and timeouts ----------

#[test]
fn published_block_holds_the_seal() {
    let mut node = mock_node(vec![0], mock_block(1));
    let mut state = PbftState::new(vec![0], 1, &mock_config(4));
    let mut service = MockService::new();
    assert_eq!(
        drive(&mut node, &mut state, &mut service, |n, s| n.try_publish(s)),
        Err(PbftError::InternalError(InternalFault::Seal(SealFault::NoCommits)))
    );
    node.msg_log.add_block(mock_block(1));
    for peer in [1, 2] {
        let msg = mock_commit(0, 1, mock_block_id(1), peer);
        node.msg_log.add_message(msg, &state).unwrap();
    }
    service.performed.clear();
    drive(&mut node, &mut state, &mut service, |n, s| n.try_publish(s)).unwrap();
    assert_eq!(
        service.performed,
        vec![
            ServiceRequest::SummarizeBlock,
            ServiceRequest::FinalizeBlock { data: mock_seal(1, &[1, 2]).to_bytes() },
        ]
    );
}

#[test]
fn publishing_that_is_not_ready() {
    let mut service = MockService::new();
    let mut node = mock_node(vec![0], mock_block(0));
    let mut state = PbftState::new(vec![0], 0, &mock_config(4));
    // The digest is not ready
    node.service.replies = vec![ServiceReply::Failed];
    assert_eq!(node.try_publish(&mut state), Ok(()));
    assert_eq!(node.service.requests.last(), Some(&ServiceRequest::SummarizeBlock));
    // The block cannot be published
    node.service.replies = vec![ServiceReply::Done, ServiceReply::Failed];
    assert_eq!(
        node.try_publish(&mut state),
        Err(PbftError::ServiceError(ServiceCall::FinalizeBlock))
    );
    assert_eq!(
        node.service.requests.last(),
        Some(&ServiceRequest::FinalizeBlock { data: vec![] })
    );
    // It is not the time, or not this node's turn
    state.phase = PbftPhase::Preparing;
    drive(&mut node, &mut state, &mut service, |n, s| n.try_publish(s)).unwrap();
    state.phase = PbftPhase::PrePreparing;
    state.view = 1;
    drive(&mut node, &mut state, &mut service, |n, s| n.try_publish(s)).unwrap();
    assert!(service.performed.is_empty());
}

#[test]
fn primary_starts_a_block_on_start_up() {
    let cfg = mock_config(4);
    let node = PbftNode::new(&cfg, mock_block(3), Service::new(), true);
    assert_eq!(node.service.requests, vec![ServiceRequest::InitializeBlock { previous_id: None }]);
    assert_eq!(node.msg_log.blocks, vec![mock_block(3)]);
    assert!(node.self_sending);
    let node = PbftNode::new(&cfg, mock_block(3), Service::new(), false);
    assert!(node.service.requests.is_empty());
}

#[test]
fn timeouts_expire() {
    let (mut node, mut state) = node_at(1);
    state.now = 10;
    assert!(!node.check_faulty_primary_timeout_expired(&mut state));
    node.start_faulty_primary_timeout(&mut state);
    node.start_commit_timeout(&mut state);
    state.now = 10 + 30_000_000_000;
    assert!(!node.check_faulty_primary_timeout_expired(&mut state));
    state.now += 1;
    assert!(node.check_faulty_primary_timeout_expired(&mut state));
    assert!(node.check_commit_timeout_expired(&mut state));
    assert!(!node.check_view_change_timeout_expired(&mut state));
    // Once expired, a timeout stays so
    state.now = 0;
    assert!(node.check_commit_timeout_expired(&mut state));
    node.start_commit_timeout(&mut state);
    assert!(!node.check_commit_timeout_expired(&mut state));
    node.start_view_change(&mut state, 1).unwrap();
    assert!(!node.check_faulty_primary_timeout_expired(&mut state));
    state.now = 5_000_000_001;
    assert!(node.check_view_change_timeout_expired(&mut state));
}
