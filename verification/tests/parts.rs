//! The log, the state, the configuration and the encodings.

use pbft_node::ballot::{check_voters, have_same_members, judge_vote, VoteCriteria};
use pbft_node::block::Block;
use pbft_node::byte_string::{copy_bytes, copy_list, holds_bytes, insert_bytes, same_bytes};
use pbft_node::config::{get_peers_from_settings, peers_from_texts, PbftConfig};
use pbft_node::error::{
    InternalFault, MessageDefect, PbftError, Rejection, SigningFault, Unparsed, VoteDefect,
};
use pbft_node::header::PeerMessageHeader;
use pbft_node::message::{MessageContent, ParsedMessage};
use pbft_node::message_log::PbftLog;
use pbft_node::message_type::PbftMessageType;
use pbft_node::proto::{PbftMessage, PbftMessageInfo};
use pbft_node::quorum::find_quorum;
use pbft_node::service::SignatureCheck;
use pbft_node::state::{PbftMode, PbftPhase, PbftState};
use pbft_node::timing::{next_pause, scale_duration, Timeout, TimeoutState};
use pbft_node::vote::{PbftNewView, PbftSeal, PbftSealResponse, PbftSignedVote};
use pbft_node::wire::{get_bytes, get_repeated, get_uint64, FieldValues};

fn config() -> PbftConfig {
    PbftConfig {
        peers: (0..7).map(|i| vec![i]).collect(),
        faulty_primary_timeout: 1,
        commit_timeout: 2,
        view_change_duration: 3,
        exponential_retry_base: 4,
        exponential_retry_max: 5,
        forced_view_change_period: 10,
        max_log_size: 3,
    }
}

fn message(
    msg_type: PbftMessageType,
    view: u64,
    seq_num: u64,
    signer: u8,
    block: u8,
) -> ParsedMessage {
    let info = PbftMessageInfo::new_from(msg_type, view, seq_num, vec![signer]);
    ParsedMessage::from_pbft_message(PbftMessage { info, block_id: vec![block] })
}

fn block(id: u8, num: u64) -> Block {
    Block {
        block_id: vec![id],
        previous_id: vec![],
        signer_id: vec![],
        block_num: num,
        payload: vec![],
        summary: vec![],
    }
}

fn vote(i: u8) -> PbftSignedVote {
    PbftSignedVote {
        header_bytes: vec![i, 1],
        header_signature: vec![i, 2],
        message_bytes: vec![i, 3],
    }
}

// ---------- State ----------

#[test]
fn state_starts_after_the_chain_head() {
    let state = PbftState::new(vec![3], 41, &config());
    assert_eq!(state.seq_num, 42);
    assert_eq!(state.view, 0);
    assert_eq!(state.f, 2);
    assert_eq!(state.mode, PbftMode::Normal);
    assert_eq!(state.phase, PbftPhase::PrePreparing);
    assert_eq!(state.faulty_primary_timeout, Timeout::new(1));
    assert_eq!(state.commit_timeout, Timeout::new(2));
    assert_eq!(state.view_change_timeout, Timeout::new(3));
}

#[test]
fn nodes_become_primary_in_turn() {
    let mut state = PbftState::new(vec![3], 0, &config());
    assert_eq!(state.get_primary_id(), vec![0]);
    assert!(!state.is_primary());
    assert!(state.is_primary_at_view(3));
    assert!(state.is_primary_at_view(10));
    assert!(!state.is_primary_at_view(11));
    assert_eq!(state.get_primary_id_at_view(u64::MAX), vec![(u64::MAX % 7) as u8]);
    state.view = 17;
    assert!(state.is_primary());
    state.seq_num = 20;
    assert!(state.at_forced_view_change());
    state.seq_num = 21;
    assert!(!state.at_forced_view_change());
}

#[test]
fn phases_follow_one_another() {
    let phases = [
        PbftPhase::PrePreparing,
        PbftPhase::Preparing,
        PbftPhase::Committing,
        PbftPhase::Finishing(vec![1], false),
    ];
    for from in 0..4 {
        for to in 0..4 {
            let mut state = PbftState::new(vec![3], 0, &config());
            state.phase = phases[from].clone();
            let result = state.switch_phase(phases[to].clone());
            if to == (from + 1) % 4 {
                assert_eq!(result, Ok(()));
                assert_eq!(state.phase, phases[to]);
            } else {
                assert_eq!(result, Err(PbftError::InternalError(InternalFault::WrongPhase)));
                assert_eq!(state.phase, phases[from]);
            }
        }
    }
}

#[test]
fn reset_starts_over() {
    let mut state = PbftState::new(vec![3], 0, &config());
    state.phase = PbftPhase::Committing;
    state.mode = PbftMode::ViewChanging(4);
    state.now = 77;
    state.commit_timeout.start(5);
    state.reset_to_start();
    assert_eq!(state.phase, PbftPhase::PrePreparing);
    assert_eq!(state.mode, PbftMode::Normal);
    assert!(!state.is_view_changing());
    assert_eq!(state.faulty_primary_timeout.state, TimeoutState::Active);
    assert_eq!(state.faulty_primary_timeout.started, 77);
    assert_eq!(state.commit_timeout.state, TimeoutState::Inactive);
    let copy = state.clone();
    assert_eq!(copy.peer_ids, state.peer_ids);
    assert_eq!(copy.now, 77);
}

#[test]
fn view_change_timeouts_are_scaled() {
    assert_eq!(scale_duration(5, 3), Some(15));
    assert_eq!(scale_duration(5, 0), Some(0));
    assert_eq!(scale_duration(5, 0xffff_ffff), Some(21_474_836_475));
    // Of the number of views, 32 bits count
    assert_eq!(scale_duration(5, 0x1_0000_0001), Some(5));
    assert_eq!(scale_duration(5, 0x1_0000_0002), Some(10));
    let longest = 18446744073709551615999999999;
    assert_eq!(scale_duration(longest, 1), Some(longest));
    assert_eq!(scale_duration(longest, 2), None);
    assert_eq!(scale_duration(longest, u64::MAX), None);
    assert_eq!(scale_duration(longest, 0x1_0000_0000), Some(0));
}

#[test]
fn pauses_grow_up_to_the_longest() {
    assert_eq!(next_pause(100, 350), 200);
    assert_eq!(next_pause(200, 350), 350);
    assert_eq!(next_pause(350, 350), 350);
    assert_eq!(next_pause(400, 350), 400);
    assert_eq!(next_pause(u128::MAX - 1, u128::MAX), u128::MAX);
}

#[test]
fn timeout_runs_out_after_its_duration() {
    let mut timeout = Timeout::new(10);
    assert!(!timeout.check_expired(1000));
    timeout.start(100);
    assert!(!timeout.check_expired(50));
    assert!(!timeout.check_expired(110));
    assert!(timeout.check_expired(111));
    assert!(timeout.check_expired(0));
    timeout.stop();
    assert!(!timeout.check_expired(1000));
}

// ---------- Log ----------

#[test]
fn log_takes_nothing_twice() {
    let mut log = PbftLog::new(&config());
    let state = PbftState::new(vec![3], 0, &config());
    for _ in 0..2 {
        log.add_message(message(PbftMessageType::Commit, 0, 1, 2, 9), &state).unwrap();
        log.add_block(block(1, 1));
    }
    // The same message, signed
    let mut signed = message(PbftMessageType::Commit, 0, 1, 2, 9);
    signed.from_self = false;
    signed.header_bytes = vec![1];
    log.add_message(signed, &state).unwrap();
    assert_eq!(log.messages.len(), 1);
    assert_eq!(log.blocks.len(), 1);
    let mut other = block(1, 1);
    other.summary = vec![1];
    log.add_block(other);
    assert_eq!(log.blocks.len(), 2);
    assert_eq!(log.clone().blocks, log.blocks);
}

#[test]
fn log_takes_messages_for_the_current_view() {
    let mut log = PbftLog::new(&config());
    let state = PbftState::new(vec![3], 0, &config());
    assert_eq!(
        log.add_message(message(PbftMessageType::PrePrepare, 1, 1, 2, 9), &state),
        Err(PbftError::InvalidMessage(MessageDefect::WrongView))
    );
    assert_eq!(log.add_message(message(PbftMessageType::ViewChange, 1, 1, 2, 9), &state), Ok(()));
    assert_eq!(log.messages.len(), 1);
}

#[test]
fn log_finds_messages_and_blocks() {
    let mut log = PbftLog::new(&config());
    let mut state = PbftState::new(vec![3], 0, &config());
    for view in 0..2 {
        state.view = view;
        for seq_num in 1..3 {
            for signer in 0..3 {
                for msg_type in [PbftMessageType::PrePrepare, PbftMessageType::Prepare] {
                    let msg = message(msg_type, view, seq_num, signer, seq_num as u8);
                    log.add_message(msg, &state).unwrap();
                }
            }
        }
    }
    assert_eq!(log.get_messages_of_type_seq(PbftMessageType::Prepare, 2).len(), 6);
    assert_eq!(log.get_messages_of_type_view(PbftMessageType::Prepare, 1).len(), 6);
    assert_eq!(log.get_messages_of_type_seq_view(PbftMessageType::Prepare, 2, 1).len(), 3);
    assert_eq!(log.get_messages_of_type_seq_view(PbftMessageType::Commit, 2, 1).len(), 0);
    let info = PbftMessageInfo::new_from(PbftMessageType::Prepare, 1, 2, vec![8]);
    let first = log.get_first_msg(&info, PbftMessageType::PrePrepare).unwrap();
    assert_eq!(first.info().signer_id, vec![0]);
    assert_eq!(first.info().view, 1);
    assert!(log.get_first_msg(&info, PbftMessageType::Commit).is_none());
    assert!(log.has_pre_prepare(&state, &[1]));
    assert!(!log.has_pre_prepare(&state, &[2]));
    state.seq_num = 2;
    assert!(log.has_pre_prepare(&state, &[2]));

    log.add_block(block(1, 4));
    log.add_block(block(2, 4));
    log.add_block(block(3, 5));
    assert_eq!(log.get_block_with_id(&[2]), Some(&block(2, 4)));
    assert_eq!(log.get_block_with_id(&[4]), None);
    assert_eq!(log.get_blocks_with_num(4), vec![&block(1, 4), &block(2, 4)]);
}

#[test]
fn log_counts_different_nodes() {
    let mut log = PbftLog::new(&config());
    let state = PbftState::new(vec![3], 0, &config());
    let reference = message(PbftMessageType::PrePrepare, 0, 1, 0, 5);
    for (signer, seq_num, id) in [(1, 1, 5), (2, 1, 5), (2, 2, 5), (3, 1, 6), (4, 2, 5)] {
        let msg = message(PbftMessageType::Commit, 0, seq_num, signer, id);
        log.add_message(msg, &state).unwrap();
    }
    assert!(log.has_required_msgs(PbftMessageType::Commit, &reference, true, 2));
    assert!(!log.has_required_msgs(PbftMessageType::Commit, &reference, true, 3));
    assert!(log.has_required_msgs(PbftMessageType::Commit, &reference, false, 4));
    assert!(!log.has_required_msgs(PbftMessageType::Commit, &reference, false, 5));
    assert!(log.has_required_msgs(PbftMessageType::Prepare, &reference, true, 0));
    assert!(!log.has_required_msgs(PbftMessageType::Prepare, &reference, true, 1));
}

/// Of seven nodes, two quorums of five share three.
#[test]
fn quorums_share_nodes() {
    let mut log = PbftLog::new(&config());
    let state = PbftState::new(vec![3], 0, &config());
    let one = message(PbftMessageType::PrePrepare, 0, 1, 0, 5);
    let other = message(PbftMessageType::PrePrepare, 0, 1, 0, 6);
    for signer in 0..7 {
        for (from, to, id) in [(0, 5, 5), (2, 7, 6)] {
            if from <= signer && signer < to {
                let msg = message(PbftMessageType::Commit, 0, 1, signer, id);
                log.add_message(msg, &state).unwrap();
            }
        }
    }
    assert!(log.has_required_msgs(PbftMessageType::Commit, &one, true, 5));
    assert!(log.has_required_msgs(PbftMessageType::Commit, &other, true, 5));
    let both = (0..7u8)
        .filter(|signer| {
            log.messages.iter().filter(|m| m.info().signer_id == vec![*signer]).count() == 2
        })
        .count();
    assert_eq!(both, 3);
}

#[test]
fn full_log_is_cleaned_up() {
    let mut log = PbftLog::new(&config());
    let state = PbftState::new(vec![3], 0, &config());
    for seq_num in [5, 9] {
        log.add_message(message(PbftMessageType::Commit, 0, seq_num, 1, 1), &state).unwrap();
        log.add_block(block(seq_num as u8, seq_num));
    }
    log.garbage_collect(10);
    assert_eq!(log.messages.len(), 2);
    log.add_message(message(PbftMessageType::Commit, 0, 10, 1, 1), &state).unwrap();
    log.add_block(block(8, 8));
    log.add_block(block(10, 10));
    log.garbage_collect(10);
    let kept: Vec<u64> = log.messages.iter().map(|m| m.info().seq_num).collect();
    assert_eq!(kept, vec![9, 10]);
    assert_eq!(log.blocks, vec![block(9, 9), block(10, 10)]);
}

#[test]
fn quorum_whose_first_message_came_first_is_found() {
    let messages = vec![
        message(PbftMessageType::Commit, 0, 1, 0, 7),
        message(PbftMessageType::Commit, 1, 1, 1, 8),
        message(PbftMessageType::Commit, 0, 1, 2, 8),
        message(PbftMessageType::Commit, 0, 1, 3, 8),
        message(PbftMessageType::Commit, 1, 1, 4, 8),
    ];
    let all: Vec<&ParsedMessage> = messages.iter().collect();
    let signers = |required| -> Option<Vec<u8>> {
        find_quorum(&all, required)
            .map(|found| found.iter().map(|m| m.info().signer_id[0]).collect())
    };
    assert_eq!(signers(1), Some(vec![0]));
    assert_eq!(signers(2), Some(vec![1, 4]));
    assert_eq!(signers(3), None);
    assert!(find_quorum(&vec![], 0).is_none());
}

// ---------- Votes ----------

#[test]
fn voters_are_checked() {
    let ids = |list: &[u8]| -> Vec<Vec<u8>> { list.iter().map(|i| vec![*i]).collect() };
    let peers = ids(&[0, 1, 2, 3]);
    assert_eq!(check_voters(&ids(&[1, 2]), &peers, &[0], 1), Ok(()));
    assert_eq!(
        check_voters(&ids(&[1]), &peers, &[0], 1),
        Err(Rejection::InvalidMessage(VoteDefect::TooFewVotes))
    );
    assert_eq!(
        check_voters(&ids(&[1, 0]), &peers, &[0], 1),
        Err(Rejection::InvalidMessage(VoteDefect::InvalidVoter))
    );
    assert_eq!(
        check_voters(&ids(&[1, 4]), &peers, &[0], 1),
        Err(Rejection::InvalidMessage(VoteDefect::InvalidVoter))
    );
    assert!(have_same_members(&ids(&[3, 2, 1, 0, 0]), &peers));
    assert!(!have_same_members(&ids(&[3, 2, 1]), &peers));
    assert!(!have_same_members(&peers, &ids(&[3, 2, 1])));
}

#[test]
fn vote_is_judged() {
    let info = PbftMessageInfo::new_from(PbftMessageType::Commit, 4, 1, vec![6]);
    let message = PbftMessage { info, block_id: vec![5] };
    let judge = |check, hash: &[u8], criteria| judge_vote(&message, check, hash, &[1, 2], &criteria);
    let valid = SignatureCheck::Valid;
    assert_eq!(judge(valid, &[1, 2], VoteCriteria::View(4)), Ok(vec![6]));
    assert_eq!(judge(valid, &[1, 2], VoteCriteria::Block(vec![5])), Ok(vec![6]));
    assert_eq!(
        judge(valid, &[1, 2], VoteCriteria::View(5)),
        Err(Rejection::InvalidMessage(VoteDefect::WrongView))
    );
    assert_eq!(
        judge(valid, &[1, 2], VoteCriteria::Block(vec![])),
        Err(Rejection::InvalidMessage(VoteDefect::WrongBlock))
    );
    assert_eq!(
        judge(valid, &[1, 3], VoteCriteria::View(5)),
        Err(Rejection::SigningError(SigningFault::HashMismatch))
    );
    assert_eq!(
        judge(SignatureCheck::Invalid, &[1, 3], VoteCriteria::View(5)),
        Err(Rejection::SigningError(SigningFault::BadSignature))
    );
}

// ---------- Configuration ----------

#[test]
fn peers_are_read_from_the_setting() {
    let read = |text: &str| get_peers_from_settings(&Some(text.to_string()));
    assert_eq!(read("[\"00\", \"aBcD\"]"), Some(vec![vec![0], vec![0xab, 0xcd]]));
    assert_eq!(read("[]"), Some(vec![]));
    assert_eq!(read("[\"\"]"), Some(vec![vec![]]));
    assert_eq!(read("[\"0\"]"), None);
    assert_eq!(read("[\"0g\"]"), None);
    assert_eq!(read("[\"\u{e9}\"]"), None);
    assert_eq!(read("[0]"), None);
    assert_eq!(read(""), None);
    assert_eq!(get_peers_from_settings(&None), None);
    assert_eq!(peers_from_texts(&vec!["ff00".to_string()]), Some(vec![vec![255, 0]]));
    let every_byte: Vec<u8> = (0..=255).collect();
    assert_eq!(peers_from_texts(&vec![hex::encode(&every_byte)]), Some(vec![every_byte]));
}

// ---------- Byte strings ----------

#[test]
fn byte_strings_are_compared() {
    assert!(same_bytes(&[1, 2], &[1, 2]));
    assert!(!same_bytes(&[1, 2], &[1, 3]));
    assert!(!same_bytes(&[1, 2], &[1]));
    assert_eq!(copy_bytes(&[1, 2]), vec![1, 2]);
    let mut list = vec![vec![1], vec![2]];
    assert!(holds_bytes(&list, &[2]));
    assert!(!holds_bytes(&list, &[]));
    insert_bytes(&mut list, &[2]);
    insert_bytes(&mut list, &[3]);
    assert_eq!(list, vec![vec![1], vec![2], vec![3]]);
    assert_eq!(copy_list(&list), list);
}

// ---------- Encodings ----------

#[test]
fn kinds_are_named() {
    for kind in [
        PbftMessageType::PrePrepare,
        PbftMessageType::Prepare,
        PbftMessageType::Commit,
        PbftMessageType::NewView,
        PbftMessageType::ViewChange,
        PbftMessageType::SealRequest,
        PbftMessageType::SealResponse,
    ] {
        assert_eq!(PbftMessageType::from_name(kind.name().as_bytes()), kind);
    }
    assert_eq!(PbftMessageType::from_name(b"commit"), PbftMessageType::Unset);
}

#[test]
fn message_is_encoded_field_by_field() {
    let info = PbftMessageInfo::new_from(PbftMessageType::Commit, 300, 0, vec![7]);
    let message = PbftMessage { info, block_id: vec![9, 8] };
    let mut expected: Vec<u8> = vec![10, 14, 10, 6];
    expected.extend_from_slice(b"Commit");
    expected.extend_from_slice(&[16, 0xac, 2, 34, 1, 7, 18, 2, 9, 8]);
    assert_eq!(message.to_bytes(), expected);
    let back = PbftMessage::from_bytes(&expected).unwrap();
    assert_eq!(back.info.msg_type, PbftMessageType::Commit);
    assert_eq!(back.info.view, 300);
    assert_eq!(back.info.seq_num, 0);
    assert_eq!(back.info.signer_id, vec![7]);
    assert_eq!(back.block_id, vec![9, 8]);
}

#[test]
fn empty_message_has_no_contents() {
    let message = PbftMessage::from_bytes(&[]).unwrap();
    assert_eq!(message.info.msg_type, PbftMessageType::Unset);
    assert_eq!(message.info.view, 0);
    assert!(message.block_id.is_empty());
    let seal = PbftSeal::from_bytes(&[]).unwrap();
    assert!(seal.commit_votes.is_empty());
    assert!(PbftSeal::new().to_bytes().is_empty());
}

#[test]
fn last_value_of_a_field_counts() {
    // The block ID twice, and a field that is not known
    let bytes = [18, 1, 5, 40, 1, 18, 1, 6];
    assert_eq!(PbftMessage::from_bytes(&bytes).unwrap().block_id, vec![6]);
    // The information twice: the second replaces the first
    let bytes = [10, 2, 16, 3, 10, 2, 24, 4];
    let message = PbftMessage::from_bytes(&bytes).unwrap();
    assert_eq!(message.info.view, 0);
    assert_eq!(message.info.seq_num, 4);
}

#[test]
fn bytes_that_are_no_message() {
    // Cut off, of a wrong wire type, not UTF-8
    assert!(PbftMessage::from_bytes(&[18, 5, 1]).is_none());
    assert!(PbftMessage::from_bytes(&[16, 1]).is_none());
    assert!(PbftMessageInfo::from_bytes(&[10, 1, 0xff]).is_none());
    assert!(PbftMessageInfo::from_bytes(&[18, 0]).is_none());
    assert!(PbftNewView::from_bytes(&[18, 1, 0xff]).is_none());
    assert!(PbftSeal::from_bytes(&[26, 1, 0xff]).is_none());
    assert!(PbftSealResponse::from_bytes(&[18, 1, 0xff]).is_none());
    assert!(PbftSignedVote::from_bytes(&[8, 1]).is_none());
}

#[test]
fn fields_are_read_by_number() {
    let bytes = [8, 1, 8, 0xac, 2, 18, 2, 5, 6, 18, 0];
    assert_eq!(get_uint64(&bytes, 1), Some(300));
    assert_eq!(get_uint64(&bytes, 3), Some(0));
    assert_eq!(get_uint64(&bytes, 2), None);
    assert_eq!(get_repeated(&bytes, 2), Some(vec![vec![5, 6], vec![]]));
    assert_eq!(get_repeated(&bytes, 1), None);
    assert_eq!(get_bytes(&bytes, 2), Some(vec![]));
    assert_eq!(get_bytes(&bytes, 4), Some(vec![]));
    assert_eq!(get_uint64(&[8], 1), None);
    let values = FieldValues {
        varints: vec![4, 5],
        byte_strings: vec![],
        fixed32: vec![],
        fixed64: vec![],
    };
    assert_eq!(values.uint64(), Some(5));
    assert_eq!(values.repeated(), None);
}

/// A group under the number of a field makes the message invalid; under any other, it is skipped.
#[test]
fn groups_are_refused_under_known_numbers() {
    let block_id = [18, 1, 6];
    // Group 5, with a varint in it
    let mut bytes = vec![43, 8, 1, 44];
    bytes.extend_from_slice(&block_id);
    assert_eq!(PbftMessage::from_bytes(&bytes).unwrap().block_id, vec![6]);
    assert_eq!(get_bytes(&bytes, 2), Some(vec![6]));
    assert_eq!(get_bytes(&bytes, 5), None);
    // Groups 1 and 2, before and after the block ID
    for group in [[11, 12], [19, 20]] {
        let mut bytes = group.to_vec();
        bytes.extend_from_slice(&block_id);
        assert!(PbftMessage::from_bytes(&bytes).is_none());
        let mut bytes = block_id.to_vec();
        bytes.extend_from_slice(&group);
        assert!(PbftMessage::from_bytes(&bytes).is_none());
    }
    assert!(PbftMessageInfo::from_bytes(&[27, 28]).is_none());
    assert!(PbftSeal::from_bytes(&[27, 28]).is_none());
    assert!(PbftSignedVote::from_bytes(&[11, 12]).is_none());
    assert!(PeerMessageHeader::from_bytes(&[35, 36]).is_none());
    // A group that does not end, and one that does not start
    assert!(PbftMessage::from_bytes(&[43, 8, 1]).is_none());
    assert!(PbftMessage::from_bytes(&[44]).is_none());
}

#[test]
fn proofs_are_encoded() {
    let info = PbftMessageInfo::new_from(PbftMessageType::NewView, 2, 1, vec![4]);
    let new_view = PbftNewView { info: info.clone(), view_changes: vec![vote(1), vote(2)] };
    let back = PbftNewView::from_bytes(&new_view.to_bytes()).unwrap();
    assert_eq!(back.info.view, 2);
    assert_eq!(back.view_changes.len(), 2);
    assert_eq!(back.view_changes[1].header_bytes, vec![2, 1]);
    assert_eq!(back.view_changes[1].header_signature, vec![2, 2]);
    assert_eq!(back.view_changes[1].message_bytes, vec![2, 3]);

    let seal = PbftSeal {
        block_id: vec![1],
        previous_id: vec![2, 3],
        commit_votes: vec![vote(3), vote(4), vote(5)],
    };
    let back = PbftSeal::from_bytes(&seal.to_bytes()).unwrap();
    assert_eq!(back.block_id, vec![1]);
    assert_eq!(back.previous_id, vec![2, 3]);
    assert_eq!(back.commit_votes.len(), 3);
    assert_eq!(back.to_bytes(), seal.to_bytes());

    let response = PbftSealResponse { info, seal };
    let back = PbftSealResponse::from_bytes(&response.to_bytes()).unwrap();
    assert_eq!(back.info.msg_type, PbftMessageType::NewView);
    assert_eq!(back.seal.commit_votes.len(), 3);
    assert_eq!(back.clone().to_bytes(), response.to_bytes());
}

#[test]
fn header_is_decoded() {
    let bytes = [10, 1, 5, 18, 2, 6, 7, 26, 1, b'p', 34, 0, 42, 1, b'C'];
    let header = PeerMessageHeader::from_bytes(&bytes).unwrap();
    assert_eq!(header.signer_id, vec![5]);
    assert_eq!(header.content_sha512, vec![6, 7]);
    for number in [26, 34, 42] {
        assert!(PeerMessageHeader::from_bytes(&[number, 1, 0xff]).is_none());
    }
    assert!(PeerMessageHeader::from_bytes(&[8, 1]).is_none());
}

#[test]
fn message_is_parsed_as_the_kind_it_was_sent_as() {
    let commit = message(PbftMessageType::Commit, 1, 2, 3, 4);
    let parsed =
        ParsedMessage::from_bytes(commit.message_bytes.clone(), PbftMessageType::Commit).unwrap();
    assert!(parsed.from_self);
    assert!(parsed.header_bytes.is_empty());
    assert_eq!(parsed.message_bytes, commit.message_bytes);
    assert_eq!(parsed.get_block_id(), vec![4]);
    assert!(parsed.message.same_as(&commit.message));
    assert_eq!(
        ParsedMessage::from_bytes(commit.message_bytes.clone(), PbftMessageType::Prepare)
            .unwrap_err(),
        PbftError::InvalidMessage(MessageDefect::WrongType)
    );
    assert_eq!(
        ParsedMessage::from_bytes(vec![0xff], PbftMessageType::Prepare).unwrap_err(),
        PbftError::SerializationError(Unparsed::PeerMessage)
    );
    assert_eq!(
        ParsedMessage::from_signed_vote(&vote(1)).unwrap_err(),
        PbftError::SerializationError(Unparsed::VoteMessage)
    );
    let info = PbftMessageInfo::new_from(PbftMessageType::NewView, 1, 2, vec![3]);
    let new_view =
        ParsedMessage::from_new_view_message(PbftNewView { info, view_changes: vec![vote(1)] });
    let parsed =
        ParsedMessage::from_bytes(new_view.message_bytes.clone(), PbftMessageType::NewView).unwrap();
    assert!(matches!(parsed.message, MessageContent::NewView(_)));
    assert!(parsed.message.same_as(&new_view.message));
    assert!(!parsed.message.same_as(&commit.message));
    assert!(parsed.get_block_id().is_empty());
}
