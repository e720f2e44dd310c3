//! Judging votes and voters.

use vstd::prelude::*;

use crate::block::{BlockId, PeerId};
use crate::byte_string::{byte_set, byte_strings, copy_bytes, holds_bytes, same_bytes};
use crate::error::{Rejection, SigningFault, VoteDefect};
use crate::hash::check_hash;
use crate::model::{
    same_members, signature_fault, vote_verdict, voters_eligible, voters_judged, CriteriaView,
};
use crate::proto::PbftMessage;
use crate::service::SignatureCheck;

verus! {

/// What a vote must be for.
#[derive(Debug)]
pub enum VoteCriteria {
    /// The given view
    View(u64),
    /// The given block
    Block(BlockId),
}

impl View for VoteCriteria {
    type V = CriteriaView;

    open spec fn view(&self) -> CriteriaView {
        match self {
            VoteCriteria::View(view) => CriteriaView::View(*view),
            VoteCriteria::Block(block_id) => CriteriaView::Block(block_id@),
        }
    }
}

impl VoteCriteria {
    /// Whether the message of a vote is for what it must be for; else what is wrong with it.
    pub fn check(&self, message: &PbftMessage) -> (r: Result<(), VoteDefect>)
        ensures
            r == (if self@.met(message@) {
                Ok::<(), VoteDefect>(())
            } else {
                Err(self@.defect())
            }),
    {
        match self {
            VoteCriteria::View(view) => {
                if message.info.view == *view {
                    Ok(())
                } else {
                    Err(VoteDefect::WrongView)
                }
            },
            VoteCriteria::Block(block_id) => {
                if same_bytes(&message.block_id, block_id) {
                    Ok(())
                } else {
                    Err(VoteDefect::WrongBlock)
                }
            },
        }
    }
}

/// What is wrong with a signature, by what came of verifying it.
pub fn find_signature_fault(check: SignatureCheck) -> (fault: Option<SigningFault>)
    ensures
        fault == signature_fault(check),
{
    match check {
        SignatureCheck::Valid => None,
        SignatureCheck::Invalid => Some(SigningFault::BadSignature),
        SignatureCheck::BadPublicKey => Some(SigningFault::BadPublicKey),
        SignatureCheck::NoContext => Some(SigningFault::NoContext),
        SignatureCheck::Failed => Some(SigningFault::NotVerified),
    }
}

/// Whose vote a message of the right kind is, given what came of verifying its signature, and its
/// hash.
pub fn judge_vote(
    message: &PbftMessage,
    check: SignatureCheck,
    hash: &[u8],
    signed_hash: &[u8],
    criteria: &VoteCriteria,
) -> (r: Result<PeerId, Rejection>)
    ensures
        (match r {
            Ok(id) => vote_verdict(message@, check, hash@, signed_hash@, criteria@) == Ok::<
                Seq<u8>,
                Rejection,
            >(id@),
            Err(rejection) => vote_verdict(message@, check, hash@, signed_hash@, criteria@) == Err::<
                Seq<u8>,
                Rejection,
            >(rejection),
        }),
{
    match find_signature_fault(check) {
        Some(fault) => {
            return Err(Rejection::SigningError(fault));
        },
        None => {},
    }
    match check_hash(hash, signed_hash) {
        Ok(_) => {},
        Err(fault) => {
            return Err(Rejection::SigningError(fault));
        },
    }
    match criteria.check(message) {
        Ok(_) => Ok(copy_bytes(&message.info.signer_id)),
        Err(defect) => Err(Rejection::InvalidMessage(defect)),
    }
}

/// Checks that voters make a proof: they are peers, other than the one whose vote is implicit, and
/// at least 2f of them.
pub fn check_voters(voters: &Vec<PeerId>, peers: &Vec<PeerId>, implicit: &[u8], f: u64) -> (r: Result<
    (),
    Rejection,
>)
    requires
        byte_strings(voters@).no_duplicates(),
    ensures
        r == voters_judged(byte_set(voters@), byte_strings(peers@), implicit@, f),
{
    let ghost set = byte_set(voters@);
    let mut i: usize = 0;
    while i < voters.len()
        invariant
            i <= voters@.len(),
            set == byte_set(voters@),
            forall|j: int|
                0 <= j < i ==> byte_strings(peers@).contains(#[trigger] byte_strings(voters@)[j])
                    && byte_strings(voters@)[j] != implicit@,
        decreases voters@.len() - i,
    {
        if !holds_bytes(peers, &voters[i]) || same_bytes(&voters[i], implicit) {
            proof {
                let id = byte_strings(voters@)[i as int];
                assert(set.contains(id));
                assert(!voters_eligible(set, byte_strings(peers@), implicit@));
            }
            return Err(Rejection::InvalidMessage(VoteDefect::InvalidVoter));
        }
        i += 1;
    }
    proof {
        assert forall|id: Seq<u8>| #[trigger] set.contains(id) implies byte_strings(
            peers@,
        ).contains(id) && id != implicit@ by {
            let j = byte_strings(voters@).index_of(id);
            assert(byte_strings(voters@)[j] == id);
        }
        byte_strings(voters@).unique_seq_to_set();
    }
    if (voters.len() as u128) < 2 * (f as u128) {
        Err(Rejection::InvalidMessage(VoteDefect::TooFewVotes))
    } else {
        Ok(())
    }
}

/// Whether every element of a list is in another.
fn all_held(list: &Vec<PeerId>, by: &Vec<PeerId>) -> (held: bool)
    ensures
        held == (forall|id: Seq<u8>|
            byte_strings(list@).contains(id) ==> #[trigger] byte_strings(by@).contains(id)),
{
    let mut i: usize = 0;
    while i < list.len()
        invariant
            i <= list@.len(),
            forall|j: int|
                0 <= j < i ==> byte_strings(by@).contains(#[trigger] byte_strings(list@)[j]),
        decreases list@.len() - i,
    {
        if !holds_bytes(by, &list[i]) {
            assert(byte_strings(list@).contains(byte_strings(list@)[i as int]));
            return false;
        }
        i += 1;
    }
    assert forall|id: Seq<u8>| byte_strings(list@).contains(id) implies #[trigger] byte_strings(
        by@,
    ).contains(id) by {
        let j = byte_strings(list@).index_of(id);
        assert(byte_strings(list@)[j] == id);
    }
    true
}

/// Whether two lists hold the same nodes.
pub fn have_same_members(a: &Vec<PeerId>, b: &Vec<PeerId>) -> (same: bool)
    ensures
        same == same_members(byte_strings(a@), byte_strings(b@)),
{
    let a_in_b = all_held(a, b);
    let b_in_a = all_held(b, a);
    proof {
        let s = byte_strings(a@).to_set();
        let t = byte_strings(b@).to_set();
        if a_in_b && b_in_a {
            assert(s =~= t);
        } else if s == t {
            assert forall|id: Seq<u8>| byte_strings(a@).contains(id) == byte_strings(b@).contains(
                id,
            ) by {
                assert(s.contains(id) == t.contains(id));
            }
        }
    }
    a_in_b && b_in_a
}

} // verus!
