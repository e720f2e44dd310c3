//! The messages that nodes exchange, and their encoding.

use vstd::prelude::*;
use vstd::string::StringSliceAdditionalSpecFns;
use vstd::utf8::valid_utf8;

use crate::byte_string::{byte_strings, copy_bytes, same_bytes};
use crate::message_type::{lemma_name_round_trip, PbftMessageType};
use crate::wire::{
    bytes_field, bytes_of, encode_fields, get_bytes, get_repeated, get_uint64, last_value,
    lemma_concatenated_fields, lemma_single_field, optional_bytes, optional_uint64, put_bytes,
    put_optional_bytes, put_optional_uint64, repeated_field, uint64_field, values_of, varints_of,
    wire_values, writable, WireValue,
};

verus! {

/// Whether the bytes are valid UTF-8: `std::str::from_utf8`.
///
/// Trusted: that it accepts the valid encodings and no others.
#[verifier::external_body]
fn is_utf8(bytes: &[u8]) -> (valid: bool)
    ensures
        valid == valid_utf8(bytes@),
{
    std::str::from_utf8(bytes).is_ok()
}

// ---------- PbftMessageInfo ----------

/// What every PBFT message says of itself.
#[derive(Debug)]
pub struct PbftMessageInfo {
    /// The kind of the message
    pub msg_type: PbftMessageType,
    /// The view that the message is for
    pub view: u64,
    /// The sequence number that the message is for
    pub seq_num: u64,
    /// The node that signed the message
    pub signer_id: Vec<u8>,
}

/// The contents of a `PbftMessageInfo`.
#[verifier::ext_equal]
pub struct InfoView {
    pub msg_type: PbftMessageType,
    pub view: u64,
    pub seq_num: u64,
    pub signer_id: Seq<u8>,
}

impl View for PbftMessageInfo {
    type V = InfoView;

    open spec fn view(&self) -> InfoView {
        InfoView {
            msg_type: self.msg_type,
            view: self.view,
            seq_num: self.seq_num,
            signer_id: self.signer_id@,
        }
    }
}

impl Clone for PbftMessageInfo {
    fn clone(&self) -> (copy: Self)
        ensures
            copy@ == self@,
    {
        PbftMessageInfo {
            msg_type: self.msg_type,
            view: self.view,
            seq_num: self.seq_num,
            signer_id: copy_bytes(&self.signer_id),
        }
    }
}

impl PbftMessageInfo {
    /// Whether two messages say the same of themselves.
    pub fn same_as(&self, other: &PbftMessageInfo) -> (same: bool)
        ensures
            same == (self@ == other@),
    {
        self.msg_type == other.msg_type && self.view == other.view && self.seq_num == other.seq_num
            && same_bytes(&self.signer_id, &other.signer_id)
    }
}

impl InfoView {
    /// The information of a message that carries none.
    pub open spec fn unset() -> InfoView {
        InfoView {
            msg_type: PbftMessageType::Unset,
            view: 0,
            seq_num: 0,
            signer_id: Seq::empty(),
        }
    }

    /// The fields, as they are written.
    pub open spec fn fields(self) -> Seq<(u32, WireValue)> {
        seq![(1u32, WireValue::Bytes(self.msg_type.name_bytes()))] + optional_uint64(2, self.view)
            + optional_uint64(3, self.seq_num) + optional_bytes(4, self.signer_id)
    }

    /// The encoding.
    pub open spec fn encode(self) -> Seq<u8> {
        encode_fields(self.fields())
    }

    /// The contents of an encoded `PbftMessageInfo`; `None` where the bytes are none. The name of
    /// the kind must be valid UTF-8 wherever it stands.
    pub open spec fn decode(bytes: Seq<u8>) -> Option<InfoView> {
        match (
            repeated_field(bytes, 1),
            uint64_field(bytes, 2),
            uint64_field(bytes, 3),
            bytes_field(bytes, 4),
        ) {
            (Some(names), Some(view), Some(seq_num), Some(signer_id)) => if all_utf8(names) {
                Some(
                    InfoView {
                        msg_type: PbftMessageType::named(last_value(names)),
                        view,
                        seq_num,
                        signer_id,
                    },
                )
            } else {
                None
            },
            _ => None,
        }
    }
}

/// Whether each of the byte strings is valid UTF-8.
pub open spec fn all_utf8(names: Seq<Seq<u8>>) -> bool {
    forall|i: int| 0 <= i < names.len() ==> #[trigger] valid_utf8(names[i])
}

/// Tests whether each of the byte strings is valid UTF-8.
pub(crate) fn check_utf8(names: &Vec<Vec<u8>>) -> (valid: bool)
    ensures
        valid == all_utf8(byte_strings(names@)),
{
    let mut i: usize = 0;
    while i < names.len()
        invariant
            i <= names@.len(),
            forall|j: int| 0 <= j < i ==> valid_utf8(#[trigger] byte_strings(names@)[j]),
        decreases names@.len() - i,
    {
        if !is_utf8(&names[i]) {
            assert(!valid_utf8(byte_strings(names@)[i as int]));
            return false;
        }
        i += 1;
    }
    true
}

impl PbftMessageInfo {
    /// The information for a message of the given kind, view, sequence number and signer.
    pub fn new_from(
        msg_type: PbftMessageType,
        view: u64,
        seq_num: u64,
        signer_id: Vec<u8>,
    ) -> (info: PbftMessageInfo)
        ensures
            info@ == (InfoView { msg_type, view, seq_num, signer_id: signer_id@ }),
    {
        PbftMessageInfo { msg_type, view, seq_num, signer_id }
    }

    /// The information of a message that carries none.
    pub fn unset() -> (info: PbftMessageInfo)
        ensures
            info@ == InfoView::unset(),
    {
        let info = PbftMessageInfo {
            msg_type: PbftMessageType::Unset,
            view: 0,
            seq_num: 0,
            signer_id: Vec::new(),
        };
        assert(info.signer_id@ =~= Seq::<u8>::empty());
        info
    }

    /// Encodes the information.
    pub fn to_bytes(&self) -> (bytes: Vec<u8>)
        ensures
            bytes@ == self@.encode(),
    {
        let mut out: Vec<u8> = Vec::new();
        let ghost info = self@;
        let ghost f1 = seq![(1u32, WireValue::Bytes(info.msg_type.name_bytes()))];
        let ghost f2 = optional_uint64(2, info.view);
        let ghost f3 = optional_uint64(3, info.seq_num);
        let ghost f4 = optional_bytes(4, info.signer_id);
        put_bytes(&mut out, 1, self.msg_type.name().as_bytes());
        put_optional_uint64(&mut out, 2, self.view);
        put_optional_uint64(&mut out, 3, self.seq_num);
        put_optional_bytes(&mut out, 4, &self.signer_id);
        proof {
            lemma_single_field(1, WireValue::Bytes(info.msg_type.name_bytes()));
            lemma_concatenated_fields(f1, f2);
            lemma_concatenated_fields(f1 + f2, f3);
            lemma_concatenated_fields(f1 + f2 + f3, f4);
            assert(out@ =~= self@.encode());
        }
        out
    }

    /// Decodes the information: what was encoded is decoded again.
    pub fn from_bytes(bytes: &[u8]) -> (r: Option<PbftMessageInfo>)
        ensures
            (match r {
                Some(info) => InfoView::decode(bytes@) == Some(info@),
                None => InfoView::decode(bytes@) is None,
            }),
            forall|info: InfoView|
                #![trigger info.encode()]
                bytes@ == info.encode() && writable(info.fields()) ==> InfoView::decode(bytes@)
                    == Some(info),
    {
        let names = get_repeated(bytes, 1);
        let view = get_uint64(bytes, 2);
        let seq_num = get_uint64(bytes, 3);
        let signer_id = get_bytes(bytes, 4);
        proof {
            assert forall|info: InfoView|
                #![trigger info.encode()]
                bytes@ == info.encode() && writable(info.fields()) implies InfoView::decode(bytes@)
                == Some(info) by {
                lemma_info_fields(info);
                lemma_name_round_trip(info.msg_type);
                assert(wire_values(bytes@, 1) == Some(values_of(info.fields(), 1)));
                assert(wire_values(bytes@, 2) == Some(values_of(info.fields(), 2)));
                assert(wire_values(bytes@, 3) == Some(values_of(info.fields(), 3)));
                assert(wire_values(bytes@, 4) == Some(values_of(info.fields(), 4)));
                assert(info.signer_id.len() == 0 ==> info.signer_id =~= Seq::<u8>::empty());
            }
        }
        match (names, view, seq_num, signer_id) {
            (Some(mut names), Some(view), Some(seq_num), Some(signer_id)) => {
                if !check_utf8(&names) {
                    return None;
                }
                let ghost all = byte_strings(names@);
                let name = match names.pop() {
                    Some(name) => name,
                    None => Vec::new(),
                };
                assert(name@ == last_value(all));
                Some(
                    PbftMessageInfo {
                        msg_type: PbftMessageType::from_name(&name),
                        view,
                        seq_num,
                        signer_id,
                    },
                )
            },
            _ => None,
        }
    }
}

/// What stands under each number of an encoded `PbftMessageInfo`.
proof fn lemma_info_fields(info: InfoView)
    ensures
        values_of(info.fields(), 1) == (
            Seq::<u64>::empty(),
            seq![info.msg_type.name_bytes()],
            Seq::<u32>::empty(),
            Seq::<u64>::empty(),
        ),
        values_of(info.fields(), 2) == (
            if info.view == 0 {
                Seq::<u64>::empty()
            } else {
                seq![info.view]
            },
            Seq::<Seq<u8>>::empty(),
            Seq::<u32>::empty(),
            Seq::<u64>::empty(),
        ),
        values_of(info.fields(), 3) == (
            if info.seq_num == 0 {
                Seq::<u64>::empty()
            } else {
                seq![info.seq_num]
            },
            Seq::<Seq<u8>>::empty(),
            Seq::<u32>::empty(),
            Seq::<u64>::empty(),
        ),
        values_of(info.fields(), 4) == (
            Seq::<u64>::empty(),
            if info.signer_id.len() == 0 {
                Seq::<Seq<u8>>::empty()
            } else {
                seq![info.signer_id]
            },
            Seq::<u32>::empty(),
            Seq::<u64>::empty(),
        ),
{
    let f1 = seq![(1u32, WireValue::Bytes(info.msg_type.name_bytes()))];
    let f2 = optional_uint64(2, info.view);
    let f3 = optional_uint64(3, info.seq_num);
    let f4 = optional_bytes(4, info.signer_id);
    lemma_single_field(1, WireValue::Bytes(info.msg_type.name_bytes()));
    lemma_single_field(2, WireValue::Varint(info.view));
    lemma_single_field(3, WireValue::Varint(info.seq_num));
    lemma_single_field(4, WireValue::Bytes(info.signer_id));
    lemma_concatenated_fields(f1, f2);
    lemma_concatenated_fields(f1 + f2, f3);
    lemma_concatenated_fields(f1 + f2 + f3, f4);
    assert(varints_of(info.fields(), 1) =~= Seq::<u64>::empty());
    assert(bytes_of(info.fields(), 1) =~= seq![info.msg_type.name_bytes()]);
    assert(varints_of(info.fields(), 2) =~= (if info.view == 0 {
        Seq::<u64>::empty()
    } else {
        seq![info.view]
    }));
    assert(bytes_of(info.fields(), 2) =~= Seq::<Seq<u8>>::empty());
    assert(varints_of(info.fields(), 3) =~= (if info.seq_num == 0 {
        Seq::<u64>::empty()
    } else {
        seq![info.seq_num]
    }));
    assert(bytes_of(info.fields(), 3) =~= Seq::<Seq<u8>>::empty());
    assert(varints_of(info.fields(), 4) =~= Seq::<u64>::empty());
    assert(bytes_of(info.fields(), 4) =~= (if info.signer_id.len() == 0 {
        Seq::<Seq<u8>>::empty()
    } else {
        seq![info.signer_id]
    }));
}

// ---------- PbftMessage ----------

/// A PBFT message that speaks of a block, or of none.
#[derive(Debug)]
pub struct PbftMessage {
    /// What the message says of itself
    pub info: PbftMessageInfo,
    /// The block that the message is about
    pub block_id: Vec<u8>,
}

/// The contents of a `PbftMessage`.
#[verifier::ext_equal]
pub struct MessageView {
    pub info: InfoView,
    pub block_id: Seq<u8>,
}

impl View for PbftMessage {
    type V = MessageView;

    open spec fn view(&self) -> MessageView {
        MessageView { info: self.info@, block_id: self.block_id@ }
    }
}

impl Clone for PbftMessage {
    fn clone(&self) -> (copy: Self)
        ensures
            copy@ == self@,
    {
        PbftMessage { info: self.info.clone(), block_id: copy_bytes(&self.block_id) }
    }
}

/// What the encoded `PbftMessageInfo`s of a message amount to: each must be one, and the last
/// counts. `None` where one of them is none.
pub open spec fn last_info(list: Seq<Seq<u8>>) -> Option<InfoView>
    decreases list.len(),
{
    if list.len() == 0 {
        Some(InfoView::unset())
    } else if last_info(list.drop_last()) is None {
        None
    } else {
        InfoView::decode(list.last())
    }
}

/// Decodes the `PbftMessageInfo` of a message.
pub(crate) fn read_last_info(list: &Vec<Vec<u8>>) -> (r: Option<PbftMessageInfo>)
    ensures
        (match r {
            Some(info) => last_info(byte_strings(list@)) == Some(info@),
            None => last_info(byte_strings(list@)) is None,
        }),
        forall|info: InfoView|
            #![trigger info.encode()]
            byte_strings(list@) == seq![info.encode()] && writable(info.fields()) ==> last_info(
                byte_strings(list@),
            ) == Some(info),
{
    let ghost all = byte_strings(list@);
    let mut last = PbftMessageInfo::unset();
    let mut i: usize = 0;
    assert(all.take(0) =~= Seq::<Seq<u8>>::empty());
    while i < list.len()
        invariant
            i <= list@.len(),
            all == byte_strings(list@),
            last_info(all.take(i as int)) == Some(last@),
            forall|info: InfoView|
                #![trigger info.encode()]
                i > 0 && all == seq![info.encode()] && writable(info.fields()) ==> last_info(
                    all.take(1),
                ) == Some(info),
        decreases list@.len() - i,
    {
        assert(all.take(i + 1).drop_last() =~= all.take(i as int));
        assert(all.take(i + 1).last() == all[i as int]);
        match PbftMessageInfo::from_bytes(&list[i]) {
            Some(info) => {
                last = info;
                assert(last_info(all.take(i + 1)) == InfoView::decode(all[i as int]));
            },
            None => {
                proof {
                    lemma_last_info_prefix(all, i + 1);
                    assert forall|info: InfoView|
                        #![trigger info.encode()]
                        all == seq![info.encode()] && writable(info.fields()) implies last_info(all)
                        == Some(info) by {
                        assert(all[0] == info.encode());
                    }
                }
                return None;
            },
        }
        proof {
            assert forall|info: InfoView|
                #![trigger info.encode()]
                all == seq![info.encode()] && writable(info.fields()) implies last_info(all.take(1))
                == Some(info) by {
                assert(all[0] == info.encode());
            }
        }
        i += 1;
    }
    assert(all.take(all.len() as int) =~= all);
    Some(last)
}

/// A list of which a part does not decode does not decode.
proof fn lemma_last_info_prefix(list: Seq<Seq<u8>>, n: int)
    requires
        0 <= n <= list.len(),
        last_info(list.take(n)) is None,
    ensures
        last_info(list) is None,
    decreases list.len(),
{
    if n == list.len() {
        assert(list.take(n) =~= list);
    } else {
        assert(list.drop_last().take(n) =~= list.take(n));
        lemma_last_info_prefix(list.drop_last(), n);
    }
}

impl MessageView {
    /// The fields, as they are written.
    pub open spec fn fields(self) -> Seq<(u32, WireValue)> {
        seq![(1u32, WireValue::Bytes(self.info.encode()))] + optional_bytes(2, self.block_id)
    }

    /// The encoding.
    pub open spec fn encode(self) -> Seq<u8> {
        encode_fields(self.fields())
    }

    /// Whether the wire format can hold the message.
    pub open spec fn fits(self) -> bool {
        writable(self.info.fields()) && writable(self.fields())
    }

    /// The contents of an encoded `PbftMessage`; `None` where the bytes are none.
    pub open spec fn decode(bytes: Seq<u8>) -> Option<MessageView> {
        match (repeated_field(bytes, 1), bytes_field(bytes, 2)) {
            (Some(infos), Some(block_id)) => match last_info(infos) {
                Some(info) => Some(MessageView { info, block_id }),
                None => None,
            },
            _ => None,
        }
    }
}

impl PbftMessage {
    /// Encodes the message.
    pub fn to_bytes(&self) -> (bytes: Vec<u8>)
        ensures
            bytes@ == self@.encode(),
    {
        let mut out: Vec<u8> = Vec::new();
        let info = self.info.to_bytes();
        put_bytes(&mut out, 1, &info);
        put_optional_bytes(&mut out, 2, &self.block_id);
        proof {
            let f1 = seq![(1u32, WireValue::Bytes(info@))];
            let f2 = optional_bytes(2, self.block_id@);
            lemma_single_field(1, WireValue::Bytes(info@));
            lemma_concatenated_fields(f1, f2);
            assert(out@ =~= self@.encode());
        }
        out
    }

    /// Decodes a message: what was encoded is decoded again.
    pub fn from_bytes(bytes: &[u8]) -> (r: Option<PbftMessage>)
        ensures
            (match r {
                Some(message) => MessageView::decode(bytes@) == Some(message@),
                None => MessageView::decode(bytes@) is None,
            }),
            forall|message: MessageView|
                #![trigger message.encode()]
                bytes@ == message.encode() && message.fits() ==> MessageView::decode(bytes@)
                    == Some(message),
    {
        let infos = get_repeated(bytes, 1);
        let block_id = get_bytes(bytes, 2);
        match (infos, block_id) {
            (Some(infos), Some(block_id)) => {
                let info = read_last_info(&infos);
                proof {
                    assert forall|message: MessageView|
                        #![trigger message.encode()]
                        bytes@ == message.encode() && message.fits() implies MessageView::decode(
                        bytes@,
                    ) == Some(message) by {
                        lemma_message_fields(message);
                        assert(wire_values(bytes@, 1) == Some(values_of(message.fields(), 1)));
                        assert(wire_values(bytes@, 2) == Some(values_of(message.fields(), 2)));
                        assert(message.block_id.len() == 0 ==> message.block_id =~= Seq::<
                            u8,
                        >::empty());
                        assert(byte_strings(infos@) == seq![message.info.encode()]);
                    }
                }
                match info {
                    Some(info) => Some(PbftMessage { info, block_id }),
                    None => None,
                }
            },
            _ => {
                proof {
                    assert forall|message: MessageView|
                        #![trigger message.encode()]
                        bytes@ == message.encode() && message.fits() implies MessageView::decode(
                        bytes@,
                    ) == Some(message) by {
                        lemma_message_fields(message);
                        assert(wire_values(bytes@, 1) == Some(values_of(message.fields(), 1)));
                        assert(wire_values(bytes@, 2) == Some(values_of(message.fields(), 2)));
                    }
                }
                None
            },
        }
    }
}

/// What stands under each number of an encoded `PbftMessage`.
proof fn lemma_message_fields(message: MessageView)
    ensures
        values_of(message.fields(), 1) == (
            Seq::<u64>::empty(),
            seq![message.info.encode()],
            Seq::<u32>::empty(),
            Seq::<u64>::empty(),
        ),
        values_of(message.fields(), 2) == (
            Seq::<u64>::empty(),
            if message.block_id.len() == 0 {
                Seq::<Seq<u8>>::empty()
            } else {
                seq![message.block_id]
            },
            Seq::<u32>::empty(),
            Seq::<u64>::empty(),
        ),
{
    let f1 = seq![(1u32, WireValue::Bytes(message.info.encode()))];
    let f2 = optional_bytes(2, message.block_id);
    lemma_single_field(1, WireValue::Bytes(message.info.encode()));
    lemma_single_field(2, WireValue::Bytes(message.block_id));
    lemma_concatenated_fields(f1, f2);
    assert(varints_of(message.fields(), 1) =~= Seq::<u64>::empty());
    assert(bytes_of(message.fields(), 1) =~= seq![message.info.encode()]);
    assert(varints_of(message.fields(), 2) =~= Seq::<u64>::empty());
    assert(bytes_of(message.fields(), 2) =~= (if message.block_id.len() == 0 {
        Seq::<Seq<u8>>::empty()
    } else {
        seq![message.block_id]
    }));
}

} // verus!
