//! Signed votes, and the messages that are made of them: proofs of a view change and of a commit.

use vstd::prelude::*;

use crate::byte_string::{byte_strings, copy_bytes, same_bytes};
use crate::proto::{last_info, read_last_info, InfoView, PbftMessageInfo};
use crate::wire::{
    bytes_field, bytes_of, encode_field, encode_fields, get_bytes, get_repeated, last_value,
    lemma_concatenated_fields, lemma_repeated_field, lemma_single_field, optional_bytes, put_bytes,
    put_optional_bytes, put_repeated, repeated, repeated_field, values_of, varints_of, wire_values,
    writable, WireValue,
};

verus! {

// ---------- PbftSignedVote ----------

/// A PBFT message with the header and the signature under which its sender sent it.
#[derive(Debug)]
pub struct PbftSignedVote {
    /// The encoded header, which names the signing key and the hash of the message
    pub header_bytes: Vec<u8>,
    /// The signature of the header
    pub header_signature: Vec<u8>,
    /// The encoded `PbftMessage`
    pub message_bytes: Vec<u8>,
}

/// The contents of a `PbftSignedVote`.
#[verifier::ext_equal]
pub struct VoteView {
    pub header_bytes: Seq<u8>,
    pub header_signature: Seq<u8>,
    pub message_bytes: Seq<u8>,
}

impl View for PbftSignedVote {
    type V = VoteView;

    open spec fn view(&self) -> VoteView {
        VoteView {
            header_bytes: self.header_bytes@,
            header_signature: self.header_signature@,
            message_bytes: self.message_bytes@,
        }
    }
}

impl Clone for PbftSignedVote {
    fn clone(&self) -> (copy: Self)
        ensures
            copy@ == self@,
    {
        PbftSignedVote {
            header_bytes: copy_bytes(&self.header_bytes),
            header_signature: copy_bytes(&self.header_signature),
            message_bytes: copy_bytes(&self.message_bytes),
        }
    }
}

/// The contents of a list of votes.
pub open spec fn vote_views(votes: Seq<PbftSignedVote>) -> Seq<VoteView> {
    Seq::new(votes.len(), |i: int| votes[i]@)
}

/// Whether two lists hold the same votes in the same order.
pub fn same_votes(a: &Vec<PbftSignedVote>, b: &Vec<PbftSignedVote>) -> (same: bool)
    ensures
        same == (vote_views(a@) == vote_views(b@)),
{
    if a.len() != b.len() {
        assert(vote_views(a@).len() != vote_views(b@).len());
        return false;
    }
    let mut i: usize = 0;
    while i < a.len()
        invariant
            a@.len() == b@.len(),
            i <= a@.len(),
            forall|j: int| 0 <= j < i ==> (#[trigger] a@[j])@ == b@[j]@,
        decreases a@.len() - i,
    {
        if !(same_bytes(&a[i].header_bytes, &b[i].header_bytes) && same_bytes(
            &a[i].header_signature,
            &b[i].header_signature,
        ) && same_bytes(&a[i].message_bytes, &b[i].message_bytes)) {
            assert(vote_views(a@)[i as int] != vote_views(b@)[i as int]);
            return false;
        }
        i += 1;
    }
    assert(vote_views(a@) =~= vote_views(b@));
    true
}

/// A copy of a list of votes.
pub fn copy_votes(votes: &Vec<PbftSignedVote>) -> (copy: Vec<PbftSignedVote>)
    ensures
        vote_views(copy@) == vote_views(votes@),
{
    let mut copy: Vec<PbftSignedVote> = Vec::new();
    let mut i: usize = 0;
    while i < votes.len()
        invariant
            i <= votes@.len(),
            copy@.len() == i,
            forall|j: int| 0 <= j < i ==> (#[trigger] copy@[j])@ == votes@[j]@,
        decreases votes@.len() - i,
    {
        copy.push(votes[i].clone());
        i += 1;
    }
    assert(vote_views(copy@) =~= vote_views(votes@));
    copy
}

impl VoteView {
    /// The fields, as they are written.
    pub open spec fn fields(self) -> Seq<(u32, WireValue)> {
        optional_bytes(1, self.header_bytes) + optional_bytes(2, self.header_signature)
            + optional_bytes(3, self.message_bytes)
    }

    /// The encoding.
    pub open spec fn encode(self) -> Seq<u8> {
        encode_fields(self.fields())
    }

    /// The contents of an encoded `PbftSignedVote`; `None` where the bytes are none.
    pub open spec fn decode(bytes: Seq<u8>) -> Option<VoteView> {
        match (bytes_field(bytes, 1), bytes_field(bytes, 2), bytes_field(bytes, 3)) {
            (Some(header_bytes), Some(header_signature), Some(message_bytes)) => Some(
                VoteView { header_bytes, header_signature, message_bytes },
            ),
            _ => None,
        }
    }
}

impl PbftSignedVote {
    /// Encodes the vote.
    pub fn to_bytes(&self) -> (bytes: Vec<u8>)
        ensures
            bytes@ == self@.encode(),
    {
        let mut out: Vec<u8> = Vec::new();
        put_optional_bytes(&mut out, 1, &self.header_bytes);
        put_optional_bytes(&mut out, 2, &self.header_signature);
        put_optional_bytes(&mut out, 3, &self.message_bytes);
        proof {
            let f1 = optional_bytes(1, self.header_bytes@);
            let f2 = optional_bytes(2, self.header_signature@);
            let f3 = optional_bytes(3, self.message_bytes@);
            lemma_concatenated_fields(f1, f2);
            lemma_concatenated_fields(f1 + f2, f3);
            assert(out@ =~= self@.encode());
        }
        out
    }

    /// Decodes a vote: what was encoded is decoded again.
    pub fn from_bytes(bytes: &[u8]) -> (r: Option<PbftSignedVote>)
        ensures
            (match r {
                Some(vote) => VoteView::decode(bytes@) == Some(vote@),
                None => VoteView::decode(bytes@) is None,
            }),
            forall|vote: VoteView|
                #![trigger vote.encode()]
                bytes@ == vote.encode() && writable(vote.fields()) ==> VoteView::decode(bytes@)
                    == Some(vote),
    {
        let header_bytes = get_bytes(bytes, 1);
        let header_signature = get_bytes(bytes, 2);
        let message_bytes = get_bytes(bytes, 3);
        proof {
            assert forall|vote: VoteView|
                #![trigger vote.encode()]
                bytes@ == vote.encode() && writable(vote.fields()) implies VoteView::decode(bytes@)
                == Some(vote) by {
                lemma_vote_fields(vote);
                assert(wire_values(bytes@, 1) == Some(values_of(vote.fields(), 1)));
                assert(wire_values(bytes@, 2) == Some(values_of(vote.fields(), 2)));
                assert(wire_values(bytes@, 3) == Some(values_of(vote.fields(), 3)));
            }
        }
        match (header_bytes, header_signature, message_bytes) {
            (Some(header_bytes), Some(header_signature), Some(message_bytes)) => Some(
                PbftSignedVote { header_bytes, header_signature, message_bytes },
            ),
            _ => None,
        }
    }
}

/// A `bytes` field that was written is read again, also where it was left out.
proof fn lemma_optional_bytes(number: u32, value: Seq<u8>)
    ensures
        forall|n: u32| #[trigger]
            varints_of(optional_bytes(number, value), n) == Seq::<u64>::empty(),
        forall|n: u32| #[trigger]
            bytes_of(optional_bytes(number, value), n) == (if n == number && value.len() > 0 {
                seq![value]
            } else {
                Seq::<Seq<u8>>::empty()
            }),
        last_value(
            if value.len() > 0 {
                seq![value]
            } else {
                Seq::<Seq<u8>>::empty()
            },
        ) == value,
{
    lemma_single_field(number, WireValue::Bytes(value));
    assert(value.len() == 0 ==> value =~= Seq::<u8>::empty());
}

/// What stands under each number of an encoded `PbftSignedVote`.
proof fn lemma_vote_fields(vote: VoteView)
    ensures
        varints_of(vote.fields(), 1) == Seq::<u64>::empty(),
        varints_of(vote.fields(), 2) == Seq::<u64>::empty(),
        varints_of(vote.fields(), 3) == Seq::<u64>::empty(),
        last_value(bytes_of(vote.fields(), 1)) == vote.header_bytes,
        last_value(bytes_of(vote.fields(), 2)) == vote.header_signature,
        last_value(bytes_of(vote.fields(), 3)) == vote.message_bytes,
{
    let f1 = optional_bytes(1, vote.header_bytes);
    let f2 = optional_bytes(2, vote.header_signature);
    let f3 = optional_bytes(3, vote.message_bytes);
    lemma_optional_bytes(1, vote.header_bytes);
    lemma_optional_bytes(2, vote.header_signature);
    lemma_optional_bytes(3, vote.message_bytes);
    lemma_concatenated_fields(f1, f2);
    lemma_concatenated_fields(f1 + f2, f3);
    assert(varints_of(vote.fields(), 1) =~= Seq::<u64>::empty());
    assert(varints_of(vote.fields(), 2) =~= Seq::<u64>::empty());
    assert(varints_of(vote.fields(), 3) =~= Seq::<u64>::empty());
    assert(bytes_of(vote.fields(), 1) =~= bytes_of(f1, 1));
    assert(bytes_of(vote.fields(), 2) =~= bytes_of(f2, 2));
    assert(bytes_of(vote.fields(), 3) =~= bytes_of(f3, 3));
}

/// The encodings of votes.
pub open spec fn encode_votes(votes: Seq<VoteView>) -> Seq<Seq<u8>> {
    Seq::new(votes.len(), |i: int| votes[i].encode())
}

/// Whether the wire format can hold each of the votes.
pub open spec fn votes_fit(votes: Seq<VoteView>) -> bool {
    forall|i: int| 0 <= i < votes.len() ==> writable((#[trigger] votes[i]).fields())
}

/// The votes that the given byte strings encode; `None` where one of them encodes none.
pub open spec fn decode_votes(list: Seq<Seq<u8>>) -> Option<Seq<VoteView>>
    decreases list.len(),
{
    if list.len() == 0 {
        Some(Seq::empty())
    } else {
        match (decode_votes(list.drop_last()), VoteView::decode(list.last())) {
            (Some(front), Some(last)) => Some(front.push(last)),
            _ => None,
        }
    }
}

/// Encodes votes.
fn votes_to_bytes(votes: &Vec<PbftSignedVote>) -> (list: Vec<Vec<u8>>)
    ensures
        byte_strings(list@) == encode_votes(vote_views(votes@)),
{
    let mut list: Vec<Vec<u8>> = Vec::new();
    let mut i: usize = 0;
    while i < votes.len()
        invariant
            i <= votes@.len(),
            list@.len() == i,
            forall|j: int| 0 <= j < i ==> (#[trigger] list@[j])@ == votes@[j]@.encode(),
        decreases votes@.len() - i,
    {
        list.push(votes[i].to_bytes());
        i += 1;
    }
    assert(byte_strings(list@) =~= encode_votes(vote_views(votes@)));
    list
}

/// Decodes votes: what was encoded is decoded again.
fn votes_from_bytes(list: &Vec<Vec<u8>>) -> (r: Option<Vec<PbftSignedVote>>)
    ensures
        (match r {
            Some(votes) => decode_votes(byte_strings(list@)) == Some(vote_views(votes@)),
            None => decode_votes(byte_strings(list@)) is None,
        }),
        forall|votes: Seq<VoteView>|
            #![trigger encode_votes(votes)]
            byte_strings(list@) == encode_votes(votes) && votes_fit(votes) ==> decode_votes(
                byte_strings(list@),
            ) == Some(votes),
{
    let ghost all = byte_strings(list@);
    let mut votes: Vec<PbftSignedVote> = Vec::new();
    let mut i: usize = 0;
    assert(all.take(0) =~= Seq::<Seq<u8>>::empty());
    assert(vote_views(votes@) =~= Seq::<VoteView>::empty());
    while i < list.len()
        invariant
            i <= list@.len(),
            all == byte_strings(list@),
            decode_votes(all.take(i as int)) == Some(vote_views(votes@)),
            forall|w: Seq<VoteView>|
                #![trigger encode_votes(w)]
                all == encode_votes(w) && votes_fit(w) ==> vote_views(votes@) == w.take(i as int),
        decreases list@.len() - i,
    {
        assert(all.take(i + 1).drop_last() =~= all.take(i as int));
        assert(all.take(i + 1).last() == all[i as int]);
        let ghost before = vote_views(votes@);
        match PbftSignedVote::from_bytes(&list[i]) {
            Some(vote) => {
                votes.push(vote);
                proof {
                    assert(vote_views(votes@) =~= before.push(vote@));
                    assert forall|w: Seq<VoteView>|
                        #![trigger encode_votes(w)]
                        all == encode_votes(w) && votes_fit(w) implies vote_views(votes@) == w.take(
                        i + 1,
                    ) by {
                        assert(all[i as int] == w[i as int].encode());
                        assert(writable(w[i as int].fields()));
                        assert(w.take(i + 1) =~= w.take(i as int).push(w[i as int]));
                    }
                }
            },
            None => {
                proof {
                    lemma_decode_votes_prefix(all, i + 1);
                    assert forall|w: Seq<VoteView>|
                        #![trigger encode_votes(w)]
                        all == encode_votes(w) && votes_fit(w) implies decode_votes(all) == Some(
                        w,
                    ) by {
                        assert(all[i as int] == w[i as int].encode());
                        assert(writable(w[i as int].fields()));
                    }
                }
                return None;
            },
        }
        i += 1;
    }
    proof {
        assert(all.take(all.len() as int) =~= all);
        assert forall|w: Seq<VoteView>|
            #![trigger encode_votes(w)]
            all == encode_votes(w) && votes_fit(w) implies decode_votes(all) == Some(w) by {
            assert(w.take(i as int) =~= w);
        }
    }
    Some(votes)
}

/// A list of which a part does not decode does not decode.
proof fn lemma_decode_votes_prefix(list: Seq<Seq<u8>>, n: int)
    requires
        0 <= n <= list.len(),
        decode_votes(list.take(n)) is None,
    ensures
        decode_votes(list) is None,
    decreases list.len(),
{
    if n == list.len() {
        assert(list.take(n) =~= list);
    } else {
        assert(list.drop_last().take(n) =~= list.take(n));
        lemma_decode_votes_prefix(list.drop_last(), n);
    }
}

// ---------- PbftNewView ----------

/// The message by which a new primary opens its view, with the votes for it.
#[derive(Debug)]
pub struct PbftNewView {
    /// What the message says of itself
    pub info: PbftMessageInfo,
    /// The view change votes of the other nodes
    pub view_changes: Vec<PbftSignedVote>,
}

/// The contents of a `PbftNewView`.
#[verifier::ext_equal]
pub struct NewViewView {
    pub info: InfoView,
    pub view_changes: Seq<VoteView>,
}

impl View for PbftNewView {
    type V = NewViewView;

    open spec fn view(&self) -> NewViewView {
        NewViewView { info: self.info@, view_changes: vote_views(self.view_changes@) }
    }
}

impl Clone for PbftNewView {
    fn clone(&self) -> (copy: Self)
        ensures
            copy@ == self@,
    {
        PbftNewView { info: self.info.clone(), view_changes: copy_votes(&self.view_changes) }
    }
}

impl NewViewView {
    /// The fields, as they are written.
    pub open spec fn fields(self) -> Seq<(u32, WireValue)> {
        seq![(1u32, WireValue::Bytes(self.info.encode()))] + repeated(
            2,
            encode_votes(self.view_changes),
        )
    }

    /// The encoding.
    pub open spec fn encode(self) -> Seq<u8> {
        encode_fields(self.fields())
    }

    /// Whether the wire format can hold the message.
    pub open spec fn fits(self) -> bool {
        &&& writable(self.info.fields())
        &&& votes_fit(self.view_changes)
        &&& writable(self.fields())
    }

    /// The contents of an encoded `PbftNewView`; `None` where the bytes are none.
    pub open spec fn decode(bytes: Seq<u8>) -> Option<NewViewView> {
        match (repeated_field(bytes, 1), repeated_field(bytes, 2)) {
            (Some(infos), Some(votes)) => match (last_info(infos), decode_votes(votes)) {
                (Some(info), Some(view_changes)) => Some(NewViewView { info, view_changes }),
                _ => None,
            },
            _ => None,
        }
    }
}

impl PbftNewView {
    /// Encodes the message.
    pub fn to_bytes(&self) -> (bytes: Vec<u8>)
        ensures
            bytes@ == self@.encode(),
    {
        let mut out: Vec<u8> = Vec::new();
        let info = self.info.to_bytes();
        let votes = votes_to_bytes(&self.view_changes);
        put_bytes(&mut out, 1, &info);
        put_repeated(&mut out, 2, &votes);
        proof {
            let f1 = seq![(1u32, WireValue::Bytes(info@))];
            let f2 = repeated(2, byte_strings(votes@));
            lemma_single_field(1, WireValue::Bytes(info@));
            lemma_concatenated_fields(f1, f2);
            assert(out@ =~= self@.encode());
        }
        out
    }

    /// Decodes a message: what was encoded is decoded again.
    pub fn from_bytes(bytes: &[u8]) -> (r: Option<PbftNewView>)
        ensures
            (match r {
                Some(message) => NewViewView::decode(bytes@) == Some(message@),
                None => NewViewView::decode(bytes@) is None,
            }),
            forall|message: NewViewView|
                #![trigger message.encode()]
                bytes@ == message.encode() && message.fits() ==> NewViewView::decode(bytes@)
                    == Some(message),
    {
        let infos = get_repeated(bytes, 1);
        let votes = get_repeated(bytes, 2);
        proof {
            assert forall|message: NewViewView|
                #![trigger message.encode()]
                bytes@ == message.encode() && message.fits() implies repeated_field(bytes@, 1)
                == Some(seq![message.info.encode()]) && repeated_field(bytes@, 2) == Some(
                encode_votes(message.view_changes),
            ) by {
                lemma_new_view_fields(message);
                assert(wire_values(bytes@, 1) == Some(values_of(message.fields(), 1)));
                assert(wire_values(bytes@, 2) == Some(values_of(message.fields(), 2)));
            }
        }
        match (infos, votes) {
            (Some(infos), Some(votes)) => {
                let info = read_last_info(&infos);
                let view_changes = votes_from_bytes(&votes);
                match (info, view_changes) {
                    (Some(info), Some(view_changes)) => Some(PbftNewView { info, view_changes }),
                    _ => None,
                }
            },
            _ => None,
        }
    }
}

/// What stands under each number of an encoded `PbftNewView`.
proof fn lemma_new_view_fields(message: NewViewView)
    ensures
        varints_of(message.fields(), 1) == Seq::<u64>::empty(),
        bytes_of(message.fields(), 1) == seq![message.info.encode()],
        varints_of(message.fields(), 2) == Seq::<u64>::empty(),
        bytes_of(message.fields(), 2) == encode_votes(message.view_changes),
{
    let f1 = seq![(1u32, WireValue::Bytes(message.info.encode()))];
    let f2 = repeated(2, encode_votes(message.view_changes));
    lemma_single_field(1, WireValue::Bytes(message.info.encode()));
    lemma_repeated_field(2, encode_votes(message.view_changes));
    lemma_concatenated_fields(f1, f2);
    assert(varints_of(message.fields(), 1) =~= Seq::<u64>::empty());
    assert(bytes_of(message.fields(), 1) =~= seq![message.info.encode()]);
    assert(varints_of(message.fields(), 2) =~= Seq::<u64>::empty());
    assert(bytes_of(message.fields(), 2) =~= encode_votes(message.view_changes));
}

// ---------- PbftSeal ----------

/// The proof that a block was committed: the commit votes for it.
#[derive(Debug)]
pub struct PbftSeal {
    /// The block that the seal is for
    pub block_id: Vec<u8>,
    /// The block before that one
    pub previous_id: Vec<u8>,
    /// The commit votes of the nodes
    pub commit_votes: Vec<PbftSignedVote>,
}

/// The contents of a `PbftSeal`.
#[verifier::ext_equal]
pub struct SealView {
    pub block_id: Seq<u8>,
    pub previous_id: Seq<u8>,
    pub commit_votes: Seq<VoteView>,
}

impl View for PbftSeal {
    type V = SealView;

    open spec fn view(&self) -> SealView {
        SealView {
            block_id: self.block_id@,
            previous_id: self.previous_id@,
            commit_votes: vote_views(self.commit_votes@),
        }
    }
}

impl Clone for PbftSeal {
    fn clone(&self) -> (copy: Self)
        ensures
            copy@ == self@,
    {
        PbftSeal {
            block_id: copy_bytes(&self.block_id),
            previous_id: copy_bytes(&self.previous_id),
            commit_votes: copy_votes(&self.commit_votes),
        }
    }
}

impl SealView {
    /// The seal that proves nothing.
    pub open spec fn empty() -> SealView {
        SealView {
            block_id: Seq::empty(),
            previous_id: Seq::empty(),
            commit_votes: Seq::empty(),
        }
    }

    /// The fields, as they are written.
    pub open spec fn fields(self) -> Seq<(u32, WireValue)> {
        optional_bytes(1, self.block_id) + optional_bytes(2, self.previous_id) + repeated(
            3,
            encode_votes(self.commit_votes),
        )
    }

    /// The encoding.
    pub open spec fn encode(self) -> Seq<u8> {
        encode_fields(self.fields())
    }

    /// Whether the wire format can hold the seal.
    pub open spec fn fits(self) -> bool {
        votes_fit(self.commit_votes) && writable(self.fields())
    }

    /// The contents of an encoded `PbftSeal`; `None` where the bytes are none.
    pub open spec fn decode(bytes: Seq<u8>) -> Option<SealView> {
        match (bytes_field(bytes, 1), bytes_field(bytes, 2), repeated_field(bytes, 3)) {
            (Some(block_id), Some(previous_id), Some(votes)) => match decode_votes(votes) {
                Some(commit_votes) => Some(SealView { block_id, previous_id, commit_votes }),
                None => None,
            },
            _ => None,
        }
    }
}

impl PbftSeal {
    /// The seal that proves nothing.
    pub fn new() -> (seal: PbftSeal)
        ensures
            seal@ == SealView::empty(),
    {
        let seal = PbftSeal {
            block_id: Vec::new(),
            previous_id: Vec::new(),
            commit_votes: Vec::new(),
        };
        assert(vote_views(seal.commit_votes@) =~= Seq::<VoteView>::empty());
        assert(seal.block_id@ =~= Seq::<u8>::empty());
        assert(seal.previous_id@ =~= Seq::<u8>::empty());
        seal
    }

    /// Encodes the seal.
    pub fn to_bytes(&self) -> (bytes: Vec<u8>)
        ensures
            bytes@ == self@.encode(),
    {
        let mut out: Vec<u8> = Vec::new();
        let votes = votes_to_bytes(&self.commit_votes);
        put_optional_bytes(&mut out, 1, &self.block_id);
        put_optional_bytes(&mut out, 2, &self.previous_id);
        put_repeated(&mut out, 3, &votes);
        proof {
            let f1 = optional_bytes(1, self.block_id@);
            let f2 = optional_bytes(2, self.previous_id@);
            let f3 = repeated(3, byte_strings(votes@));
            lemma_concatenated_fields(f1, f2);
            lemma_concatenated_fields(f1 + f2, f3);
            assert(out@ =~= self@.encode());
        }
        out
    }

    /// Decodes a seal: what was encoded is decoded again.
    pub fn from_bytes(bytes: &[u8]) -> (r: Option<PbftSeal>)
        ensures
            (match r {
                Some(seal) => SealView::decode(bytes@) == Some(seal@),
                None => SealView::decode(bytes@) is None,
            }),
            forall|seal: SealView|
                #![trigger seal.encode()]
                bytes@ == seal.encode() && seal.fits() ==> SealView::decode(bytes@) == Some(seal),
    {
        let block_id = get_bytes(bytes, 1);
        let previous_id = get_bytes(bytes, 2);
        let votes = get_repeated(bytes, 3);
        proof {
            assert forall|seal: SealView|
                #![trigger seal.encode()]
                bytes@ == seal.encode() && seal.fits() implies bytes_field(bytes@, 1) == Some(
                seal.block_id,
            ) && bytes_field(bytes@, 2) == Some(seal.previous_id) && repeated_field(bytes@, 3)
                == Some(encode_votes(seal.commit_votes)) by {
                lemma_seal_fields(seal);
                assert(wire_values(bytes@, 1) == Some(values_of(seal.fields(), 1)));
                assert(wire_values(bytes@, 2) == Some(values_of(seal.fields(), 2)));
                assert(wire_values(bytes@, 3) == Some(values_of(seal.fields(), 3)));
            }
        }
        match (block_id, previous_id, votes) {
            (Some(block_id), Some(previous_id), Some(votes)) => {
                match votes_from_bytes(&votes) {
                    Some(commit_votes) => Some(PbftSeal { block_id, previous_id, commit_votes }),
                    None => None,
                }
            },
            _ => None,
        }
    }
}

/// What stands under each number of an encoded `PbftSeal`.
proof fn lemma_seal_fields(seal: SealView)
    ensures
        varints_of(seal.fields(), 1) == Seq::<u64>::empty(),
        varints_of(seal.fields(), 2) == Seq::<u64>::empty(),
        varints_of(seal.fields(), 3) == Seq::<u64>::empty(),
        last_value(bytes_of(seal.fields(), 1)) == seal.block_id,
        last_value(bytes_of(seal.fields(), 2)) == seal.previous_id,
        bytes_of(seal.fields(), 3) == encode_votes(seal.commit_votes),
{
    let f1 = optional_bytes(1, seal.block_id);
    let f2 = optional_bytes(2, seal.previous_id);
    let f3 = repeated(3, encode_votes(seal.commit_votes));
    lemma_optional_bytes(1, seal.block_id);
    lemma_optional_bytes(2, seal.previous_id);
    lemma_repeated_field(3, encode_votes(seal.commit_votes));
    lemma_concatenated_fields(f1, f2);
    lemma_concatenated_fields(f1 + f2, f3);
    assert(varints_of(seal.fields(), 1) =~= Seq::<u64>::empty());
    assert(varints_of(seal.fields(), 2) =~= Seq::<u64>::empty());
    assert(varints_of(seal.fields(), 3) =~= Seq::<u64>::empty());
    assert(bytes_of(seal.fields(), 1) =~= bytes_of(f1, 1));
    assert(bytes_of(seal.fields(), 2) =~= bytes_of(f2, 2));
    assert(bytes_of(seal.fields(), 3) =~= encode_votes(seal.commit_votes));
}

// ---------- PbftSealResponse ----------

/// The answer to a request for a seal.
#[derive(Debug)]
pub struct PbftSealResponse {
    /// What the message says of itself
    pub info: PbftMessageInfo,
    /// The seal
    pub seal: PbftSeal,
}

/// The contents of a `PbftSealResponse`.
#[verifier::ext_equal]
pub struct SealResponseView {
    pub info: InfoView,
    pub seal: SealView,
}

impl View for PbftSealResponse {
    type V = SealResponseView;

    open spec fn view(&self) -> SealResponseView {
        SealResponseView { info: self.info@, seal: self.seal@ }
    }
}

impl Clone for PbftSealResponse {
    fn clone(&self) -> (copy: Self)
        ensures
            copy@ == self@,
    {
        PbftSealResponse { info: self.info.clone(), seal: self.seal.clone() }
    }
}

/// What the encoded `PbftSeal`s of a message amount to: each must be one, and the last counts.
/// `None` where one of them is none.
pub open spec fn last_seal(list: Seq<Seq<u8>>) -> Option<SealView>
    decreases list.len(),
{
    if list.len() == 0 {
        Some(SealView::empty())
    } else if last_seal(list.drop_last()) is None {
        None
    } else {
        SealView::decode(list.last())
    }
}

/// Decodes the `PbftSeal` of a message.
fn read_last_seal(list: &Vec<Vec<u8>>) -> (r: Option<PbftSeal>)
    ensures
        (match r {
            Some(seal) => last_seal(byte_strings(list@)) == Some(seal@),
            None => last_seal(byte_strings(list@)) is None,
        }),
        forall|seal: SealView|
            #![trigger seal.encode()]
            byte_strings(list@) == seq![seal.encode()] && seal.fits() ==> last_seal(
                byte_strings(list@),
            ) == Some(seal),
{
    let ghost all = byte_strings(list@);
    let mut last = PbftSeal::new();
    let mut i: usize = 0;
    assert(all.take(0) =~= Seq::<Seq<u8>>::empty());
    while i < list.len()
        invariant
            i <= list@.len(),
            all == byte_strings(list@),
            last_seal(all.take(i as int)) == Some(last@),
            forall|seal: SealView|
                #![trigger seal.encode()]
                i > 0 && all == seq![seal.encode()] && seal.fits() ==> last_seal(all.take(1))
                    == Some(seal),
        decreases list@.len() - i,
    {
        assert(all.take(i + 1).drop_last() =~= all.take(i as int));
        assert(all.take(i + 1).last() == all[i as int]);
        match PbftSeal::from_bytes(&list[i]) {
            Some(seal) => {
                last = seal;
                assert(last_seal(all.take(i + 1)) == SealView::decode(all[i as int]));
            },
            None => {
                proof {
                    lemma_last_seal_prefix(all, i + 1);
                    assert forall|seal: SealView|
                        #![trigger seal.encode()]
                        all == seq![seal.encode()] && seal.fits() implies last_seal(all) == Some(
                        seal,
                    ) by {
                        assert(all[0] == seal.encode());
                    }
                }
                return None;
            },
        }
        proof {
            assert forall|seal: SealView|
                #![trigger seal.encode()]
                all == seq![seal.encode()] && seal.fits() implies last_seal(all.take(1)) == Some(
                seal,
            ) by {
                assert(all[0] == seal.encode());
            }
        }
        i += 1;
    }
    assert(all.take(all.len() as int) =~= all);
    Some(last)
}

/// A list of which a part does not decode does not decode.
proof fn lemma_last_seal_prefix(list: Seq<Seq<u8>>, n: int)
    requires
        0 <= n <= list.len(),
        last_seal(list.take(n)) is None,
    ensures
        last_seal(list) is None,
    decreases list.len(),
{
    if n == list.len() {
        assert(list.take(n) =~= list);
    } else {
        assert(list.drop_last().take(n) =~= list.take(n));
        lemma_last_seal_prefix(list.drop_last(), n);
    }
}

impl SealResponseView {
    /// The fields, as they are written.
    pub open spec fn fields(self) -> Seq<(u32, WireValue)> {
        seq![
            (1u32, WireValue::Bytes(self.info.encode())),
            (2u32, WireValue::Bytes(self.seal.encode())),
        ]
    }

    /// The encoding.
    pub open spec fn encode(self) -> Seq<u8> {
        encode_fields(self.fields())
    }

    /// Whether the wire format can hold the message.
    pub open spec fn fits(self) -> bool {
        &&& writable(self.info.fields())
        &&& self.seal.fits()
        &&& writable(self.fields())
    }

    /// The contents of an encoded `PbftSealResponse`; `None` where the bytes are none.
    pub open spec fn decode(bytes: Seq<u8>) -> Option<SealResponseView> {
        match (repeated_field(bytes, 1), repeated_field(bytes, 2)) {
            (Some(infos), Some(seals)) => match (last_info(infos), last_seal(seals)) {
                (Some(info), Some(seal)) => Some(SealResponseView { info, seal }),
                _ => None,
            },
            _ => None,
        }
    }
}

impl PbftSealResponse {
    /// Encodes the message.
    pub fn to_bytes(&self) -> (bytes: Vec<u8>)
        ensures
            bytes@ == self@.encode(),
    {
        let mut out: Vec<u8> = Vec::new();
        let info = self.info.to_bytes();
        let seal = self.seal.to_bytes();
        put_bytes(&mut out, 1, &info);
        put_bytes(&mut out, 2, &seal);
        proof {
            lemma_seal_response_fields(self@);
            assert(out@ =~= self@.encode());
        }
        out
    }

    /// Decodes a message: what was encoded is decoded again.
    pub fn from_bytes(bytes: &[u8]) -> (r: Option<PbftSealResponse>)
        ensures
            (match r {
                Some(message) => SealResponseView::decode(bytes@) == Some(message@),
                None => SealResponseView::decode(bytes@) is None,
            }),
            forall|message: SealResponseView|
                #![trigger message.encode()]
                bytes@ == message.encode() && message.fits() ==> SealResponseView::decode(bytes@)
                    == Some(message),
    {
        let infos = get_repeated(bytes, 1);
        let seals = get_repeated(bytes, 2);
        proof {
            assert forall|message: SealResponseView|
                #![trigger message.encode()]
                bytes@ == message.encode() && message.fits() implies repeated_field(bytes@, 1)
                == Some(seq![message.info.encode()]) && repeated_field(bytes@, 2) == Some(
                seq![message.seal.encode()],
            ) by {
                lemma_seal_response_fields(message);
                assert(wire_values(bytes@, 1) == Some(values_of(message.fields(), 1)));
                assert(wire_values(bytes@, 2) == Some(values_of(message.fields(), 2)));
            }
        }
        match (infos, seals) {
            (Some(infos), Some(seals)) => {
                let info = read_last_info(&infos);
                let seal = read_last_seal(&seals);
                match (info, seal) {
                    (Some(info), Some(seal)) => Some(PbftSealResponse { info, seal }),
                    _ => None,
                }
            },
            _ => None,
        }
    }
}

/// What stands under each number of an encoded `PbftSealResponse`.
proof fn lemma_seal_response_fields(message: SealResponseView)
    ensures
        message.encode() == encode_field(1, WireValue::Bytes(message.info.encode()))
            + encode_field(2, WireValue::Bytes(message.seal.encode())),
        varints_of(message.fields(), 1) == Seq::<u64>::empty(),
        bytes_of(message.fields(), 1) == seq![message.info.encode()],
        varints_of(message.fields(), 2) == Seq::<u64>::empty(),
        bytes_of(message.fields(), 2) == seq![message.seal.encode()],
{
    let f1 = seq![(1u32, WireValue::Bytes(message.info.encode()))];
    let f2 = seq![(2u32, WireValue::Bytes(message.seal.encode()))];
    lemma_single_field(1, WireValue::Bytes(message.info.encode()));
    lemma_single_field(2, WireValue::Bytes(message.seal.encode()));
    lemma_concatenated_fields(f1, f2);
    assert(message.fields() =~= f1 + f2);
    assert(varints_of(message.fields(), 1) =~= Seq::<u64>::empty());
    assert(bytes_of(message.fields(), 1) =~= seq![message.info.encode()]);
    assert(varints_of(message.fields(), 2) =~= Seq::<u64>::empty());
    assert(bytes_of(message.fields(), 2) =~= seq![message.seal.encode()]);
}

} // verus!
