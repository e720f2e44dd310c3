//! The header under which a validator signs the messages of its node.

use vstd::prelude::*;

use crate::proto::{all_utf8, check_utf8};
use crate::wire::{bytes_field, get_bytes, get_repeated, repeated_field};

verus! {

/// The header of a message from a peer, as far as votes are checked against it.
#[derive(Debug)]
pub struct PeerMessageHeader {
    /// The public key that the header is signed with
    pub signer_id: Vec<u8>,
    /// The SHA-512 hash of the message
    pub content_sha512: Vec<u8>,
}

/// The contents of a `PeerMessageHeader`.
#[verifier::ext_equal]
pub struct HeaderView {
    pub signer_id: Seq<u8>,
    pub content_sha512: Seq<u8>,
}

impl View for PeerMessageHeader {
    type V = HeaderView;

    open spec fn view(&self) -> HeaderView {
        HeaderView { signer_id: self.signer_id@, content_sha512: self.content_sha512@ }
    }
}

/// Whether every value of a string field is valid UTF-8; not so where the bytes do not parse.
pub open spec fn string_field_valid(bytes: Seq<u8>, number: u32) -> bool {
    match repeated_field(bytes, number) {
        Some(texts) => all_utf8(texts),
        None => false,
    }
}

/// Tests whether every value of a string field is valid UTF-8.
fn check_string_field(bytes: &[u8], number: u32) -> (valid: bool)
    ensures
        valid == string_field_valid(bytes@, number),
{
    match get_repeated(bytes, number) {
        Some(texts) => check_utf8(&texts),
        None => false,
    }
}

impl HeaderView {
    /// The contents of an encoded header; `None` where the bytes are none. The header's other
    /// fields, the name and the version of the consensus engine and the kind of the message, are
    /// strings.
    pub open spec fn decode(bytes: Seq<u8>) -> Option<HeaderView> {
        match (bytes_field(bytes, 1), bytes_field(bytes, 2)) {
            (Some(signer_id), Some(content_sha512)) => if string_field_valid(bytes, 3)
                && string_field_valid(bytes, 4) && string_field_valid(bytes, 5) {
                Some(HeaderView { signer_id, content_sha512 })
            } else {
                None
            },
            _ => None,
        }
    }
}

impl PeerMessageHeader {
    /// Decodes a header.
    pub fn from_bytes(bytes: &[u8]) -> (r: Option<PeerMessageHeader>)
        ensures
            (match r {
                Some(header) => HeaderView::decode(bytes@) == Some(header@),
                None => HeaderView::decode(bytes@) is None,
            }),
    {
        match (get_bytes(bytes, 1), get_bytes(bytes, 2)) {
            (Some(signer_id), Some(content_sha512)) => {
                if check_string_field(bytes, 3) && check_string_field(bytes, 4)
                    && check_string_field(bytes, 5) {
                    Some(PeerMessageHeader { signer_id, content_sha512 })
                } else {
                    None
                }
            },
            _ => None,
        }
    }
}

} // verus!
